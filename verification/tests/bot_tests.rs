use serde_json::Value;
use std::collections::HashSet;
use tnt_delivery_bot::bot::{answer_command, handle_token, help_text, join_token, reply_to_command, Command};
use tnt_delivery_bot::db::TrackStore;
use tnt_delivery_bot::model::{ApiResponse, FieldValue, Snapshot};
use tnt_delivery_bot::schedule::slot;
use tnt_delivery_bot::tick::{begin_poll, due_rows, expire_round, finish_poll, PollStep};

fn snap_of(v: &Value) -> Snapshot {
    let mut s = Snapshot::new();
    if let Some(obj) = v.as_object() {
        for (k, val) in obj {
            let fv = match val {
                Value::String(t) => FieldValue::Text(t.clone()),
                other => FieldValue::Other(other.to_string()),
            };
            s = s.insert(k.clone(), fv);
        }
    }
    s
}

fn ok(raw: &str) -> Result<ApiResponse, String> {
    let v: Value = serde_json::from_str(raw).unwrap();
    Ok(ApiResponse {
        err: v["err"].as_i64().unwrap(),
        msg: v.get("msg").and_then(|m| m.as_str()).unwrap_or("").to_string(),
        result: match v.get("result") {
            None | Some(Value::Null) => None,
            Some(r) => Some(snap_of(r)),
        },
    })
}

fn wall_clock() -> i64 {
    std::time::SystemTime::now()
        .duration_since(std::time::UNIX_EPOCH)
        .unwrap()
        .as_secs() as i64
}

const PERIOD: u64 = 12;
const TTL: i64 = 24;

/// One scheduler round; every chat accepts messages. Returns what was sent.
fn round(
    store: &mut TrackStore,
    tick: u64,
    now: i64,
    max_failures: i64,
    mut fetch: impl FnMut(&str) -> Result<ApiResponse, String>,
) -> Vec<(i64, String)> {
    let mut sent = Vec::new();
    for n in expire_round(store, now, TTL) {
        sent.push((n.chat_id, n.text));
    }
    for row in due_rows(store, tick, PERIOD) {
        let fetched = fetch(&row.token);
        match begin_poll(store, &row, fetched, now, max_failures).unwrap() {
            PollStep::Done { notices } => {
                for n in notices {
                    sent.push((n.chat_id, n.text));
                }
            }
            PollStep::Notify { text, recipients, result } => {
                for (_, chat) in &recipients {
                    sent.push((*chat, text.clone()));
                }
                let refused = vec![false; recipients.len()];
                for n in finish_poll(store, &row.token, result, &recipients, &refused, now) {
                    sent.push((n.chat_id, n.text));
                }
            }
        }
    }
    sent
}

#[test]
fn unknown_status_is_rejected_when_not_subscribed() {
    let mut db = TrackStore::new();
    let reply = handle_token(&mut db, 5, 1, 1, "tok", ok(r#"{"err":0,"result":{"order_id":"O","status":"UNKNOWN"}}"#));
    assert!(reply.contains("未加入追踪"));
    assert!(!db.is_subscribed(1, "tok"));
}

#[test]
fn known_status_subscribes_and_stores_first_snapshot() {
    let mut db = TrackStore::new();
    let reply = handle_token(&mut db, 5, 1, 1, "tok", ok(r#"{"err":0,"result":{"order_id":"O","status":"PROCESS"}}"#));
    assert!(reply.contains("已加入追踪 O"));
    assert!(db.is_subscribed(1, "tok"));
    let due = db.due_tokens();
    assert_eq!(due.len(), 1);
    assert!(due[0].last_snapshot.is_some());
}

#[test]
fn fetch_failure_still_subscribes() {
    let mut db = TrackStore::new();
    let reply = handle_token(&mut db, 5, 1, 1, "tok", Err("down".to_string()));
    assert!(reply.contains("将自动重试"));
    assert!(db.is_subscribed(1, "tok"));
}

#[test]
fn join_poll_diff_unsubscribe_end_to_end() {
    let mut db = TrackStore::new();
    let max_failures = 3;

    let reply = handle_token(&mut db, max_failures, 1, 1001, "TK", ok(r#"{"err":0,"result":{"order_id":"OID9","status":"PROCESS"}}"#));
    assert!(reply.contains("已加入追踪 OID9"), "join receipt was: {reply}");
    assert!(db.is_subscribed(1, "TK"));

    let reply2 = handle_token(&mut db, max_failures, 2, 1002, "TK", ok(r#"{"err":0,"result":{"order_id":"OID9","status":"PROCESS"}}"#));
    assert!(reply2.contains("已加入追踪 OID9") || reply2.contains("你已在追踪"), "2nd subscriber reply was: {reply2}");
    assert!(db.is_subscribed(2, "TK"));

    let rows = db.due_tokens();
    assert_eq!(rows.len(), 1);
    assert!(rows[0].last_snapshot.is_some(), "first snapshot stored at join");
    let t = slot("TK", rows[0].rand, PERIOD);
    let now = wall_clock();

    let sent = round(&mut db, t, now, max_failures, |_| ok(r#"{"err":0,"result":{"order_id":"OID9","status":"DELIVERED"}}"#));
    assert_eq!(sent.len(), 2, "both subscribers notified");
    let chats: HashSet<i64> = sent.iter().map(|(ch, _)| *ch).collect();
    assert_eq!(chats, HashSet::from([1001, 1002]));
    assert!(sent.iter().all(|(_, m)| m.contains("状态: PROCESS → DELIVERED")));

    let r = reply_to_command(&mut db, TTL, 1, Command::Stop("TK".to_string()), now);
    assert_eq!(r, "已停止追踪 TK");
    assert!(!db.is_subscribed(1, "TK"));
    assert!(db.is_subscribed(2, "TK"));

    let sent = round(&mut db, t + PERIOD, now + 120, max_failures, |_| ok(r#"{"err":0,"result":{"order_id":"OID9","status":"COMPLETED"}}"#));
    assert_eq!(sent.len(), 2);
    assert!(sent.iter().all(|(ch, _)| *ch == 1002));
    assert!(sent[0].1.contains("状态: DELIVERED → COMPLETED"));
    assert!(sent[1].1.contains("已完成") && sent[1].1.contains("停止追踪"));
    assert!(db.due_tokens().is_empty(), "token purged after COMPLETED");
    assert!(!db.is_subscribed(2, "TK"));
}

#[test]
fn join_then_repeated_failure_purges_end_to_end() {
    let mut db = TrackStore::new();
    let max_failures = 2;

    let reply = handle_token(&mut db, max_failures, 7, 7007, "BAD", Err("boom".to_string()));
    assert!(reply.contains("将自动重试"), "fail-join reply was: {reply}");
    assert!(db.is_subscribed(7, "BAD"));

    let rows = db.due_tokens();
    let rand = rows.iter().find(|r| r.token == "BAD").unwrap().rand;
    let t = slot("BAD", rand, PERIOD);

    let sent = round(&mut db, t, wall_clock(), max_failures, |_| Err("boom".to_string()));
    assert_eq!(sent.len(), 1);
    assert_eq!(sent[0].0, 7007);
    assert!(sent[0].1.contains("持续查询失败"));
    assert!(db.due_tokens().is_empty(), "token purged after reaching max_fetch_failures");
}

#[test]
fn join_receipt_and_retry_texts_are_exact() {
    let mut db = TrackStore::new();
    let r = join_token(&mut db, 5, 1, 10, "a", ok(r#"{"err":0,"result":{"order_id":"O1","status":"PROCESS","stop":3}}"#), 77, 1000);
    assert_eq!(r, "✅ 已加入追踪 O1\n状态: PROCESS\n剩余站点: 3");
    assert_eq!(db.token_records()[0].rand, 77);
    assert_eq!(db.token_records()[0].created_at, 1000);
    let r = join_token(&mut db, 5, 1, 10, "a", ok(r#"{"err":0,"result":{"order_id":"O1","status":"DELIVERED"}}"#), 78, 2000);
    assert_eq!(r, "你已在追踪，当前状态如下\n✅ 已加入追踪 O1\n状态: DELIVERED");
    // the stored first snapshot is kept; the TTL is renewed
    assert_eq!(db.token_records()[0].created_at, 2000);
    let r = join_token(&mut db, 4, 2, 20, "b", Err("x".to_string()), 1, 3000);
    assert_eq!(r, "已加入追踪，但当前查询失败，将自动重试;连续失败 4 次后停止");
    assert_eq!(db.token_records()[1].fail_count, 1);
}

#[test]
fn unknown_status_for_a_follower_shows_the_status() {
    let mut db = TrackStore::new();
    join_token(&mut db, 5, 1, 10, "a", ok(r#"{"err":0,"result":{"order_id":"O1","status":"PROCESS"}}"#), 1, 0);
    let r = join_token(&mut db, 5, 1, 10, "a", ok(r#"{"err":0,"result":{"order_id":"O1","status":"unknown"}}"#), 1, 10);
    assert_eq!(r, "你已在追踪，当前状态如下\n✅ 已加入追踪 O1\n状态: unknown");
    assert!(db.is_subscribed(1, "a"));
    // the re-send renews the token's time to live
    assert_eq!(db.token_records()[0].created_at, 10);
    assert_eq!(db.subscriptions().len(), 1);
}

#[test]
fn completed_status_for_a_follower_renews_and_shows_the_status() {
    let mut db = TrackStore::new();
    join_token(&mut db, 5, 1, 10, "a", ok(r#"{"err":0,"result":{"order_id":"O1","status":"PROCESS"}}"#), 1, 0);
    let r = join_token(&mut db, 5, 1, 10, "a", ok(r#"{"err":0,"result":{"order_id":"O1","status":"COMPLETED"}}"#), 1, 500);
    assert_eq!(r, "你已在追踪，当前状态如下\n✅ 已加入追踪 O1\n状态: COMPLETED");
    assert!(db.is_subscribed(1, "a"));
    assert_eq!(db.token_records()[0].created_at, 500);
    // a user who does not follow it is still not added
    let r = join_token(&mut db, 5, 2, 20, "a", ok(r#"{"err":0,"result":{"order_id":"O1","status":"COMPLETED"}}"#), 1, 600);
    assert_eq!(r, "✅ 该订单状态已为 COMPLETED(已完成)，未加入追踪");
    assert!(!db.is_subscribed(2, "a"));
    assert_eq!(db.token_records()[0].created_at, 500);
}

#[test]
fn completed_order_is_not_joined() {
    let mut db = TrackStore::new();
    let r = join_token(&mut db, 5, 1, 10, "a", ok(r#"{"err":0,"result":{"order_id":"O1","status":"COMPLETED"}}"#), 1, 0);
    assert_eq!(r, "✅ 该订单状态已为 COMPLETED(已完成)，未加入追踪");
    assert!(!db.is_subscribed(1, "a"));
    assert!(db.due_tokens().is_empty());
}

#[test]
fn api_error_on_join_counts_a_failure() {
    let mut db = TrackStore::new();
    let r = join_token(&mut db, 3, 1, 10, "a", ok(r#"{"err":1,"msg":"nope"}"#), 1, 0);
    assert!(r.contains("将自动重试"));
    assert_eq!(db.token_records()[0].fail_count, 1);
}

#[test]
fn list_and_stop_replies() {
    let mut db = TrackStore::new();
    assert_eq!(reply_to_command(&mut db, 24, 1, Command::List, 0), "你当前没有在追踪的订单。");
    join_token(&mut db, 5, 1, 10, "a", ok(r#"{"err":0,"result":{"order_id":"O1","status":"PROCESS"}}"#), 1, 0);
    join_token(&mut db, 5, 1, 10, "b", Err("x".to_string()), 1, 100);
    let r = reply_to_command(&mut db, 24, 1, Command::List, 3 * 3600 + 50);
    assert_eq!(r, "你在追踪:\n• a · O1 · PROCESS · 剩余~21h\n• b · (尚无状态) · 剩余~22h");
    // a token past its TTL shows zero hours left
    let r = reply_to_command(&mut db, 1, 1, Command::List, 100 * 3600);
    assert!(r.contains("剩余~0h"));
    assert_eq!(reply_to_command(&mut db, 24, 1, Command::Stop("   ".to_string()), 0), "用法: /stop <token>");
    assert_eq!(reply_to_command(&mut db, 24, 1, Command::Stop(" a ".to_string()), 0), "已停止追踪 a");
    assert_eq!(reply_to_command(&mut db, 24, 1, Command::Stop("a".to_string()), 0), "你未在追踪 a");
    assert_eq!(reply_to_command(&mut db, 24, 1, Command::Help, 0), help_text());
    assert_eq!(reply_to_command(&mut db, 24, 1, Command::Start, 0), help_text());
}

#[test]
fn remaining_hours_rounds_toward_zero() {
    let mut db = TrackStore::new();
    // created in the future (clock skew): -1h59m rounds to -1h, so 25h remain
    join_token(&mut db, 5, 1, 10, "a", Err("x".to_string()), 1, 7190);
    let r = reply_to_command(&mut db, 24, 1, Command::List, 0);
    assert_eq!(r, "你在追踪:\n• a · (尚无状态) · 剩余~25h");
}

#[test]
fn answer_command_uses_the_clock() {
    let mut db = TrackStore::new();
    join_token(&mut db, 5, 1, 10, "a", Err("x".to_string()), 1, wall_clock());
    let r = answer_command(&mut db, 24, 1, Command::List);
    assert!(r.contains("剩余~24h") || r.contains("剩余~23h"), "{r}");
    assert_eq!(answer_command(&mut db, 24, 1, Command::Help), help_text());
}

#[test]
fn help_mentions_commands() {
    assert!(help_text().contains("/list"));
    assert!(help_text().contains("/stop <token>"));
}
