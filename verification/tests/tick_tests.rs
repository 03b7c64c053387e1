use serde_json::Value;
use std::collections::{HashMap, VecDeque};
use tnt_delivery_bot::db::TrackStore;
use tnt_delivery_bot::model::{ApiResponse, FieldValue, Snapshot};
use tnt_delivery_bot::schedule::slot;
use tnt_delivery_bot::tick::{begin_poll, due_rows, expire_round, finish_poll, PollStep};

const PERIOD: u64 = 12;
const TTL: i64 = 24;

fn snap_of(v: &Value) -> Snapshot {
    let mut s = Snapshot::new();
    if let Some(obj) = v.as_object() {
        for (k, val) in obj {
            let fv = match val {
                Value::String(t) => FieldValue::Text(t.clone()),
                other => FieldValue::Other(other.to_string()),
            };
            s = s.insert(k.clone(), fv);
        }
    }
    s
}

fn snap(text: &str) -> Snapshot {
    snap_of(&serde_json::from_str::<Value>(text).unwrap())
}

fn api(raw: &str) -> ApiResponse {
    let v: Value = serde_json::from_str(raw).unwrap();
    ApiResponse {
        err: v["err"].as_i64().unwrap(),
        msg: v.get("msg").and_then(|m| m.as_str()).unwrap_or("").to_string(),
        result: match v.get("result") {
            None | Some(Value::Null) => None,
            Some(r) => Some(snap_of(r)),
        },
    }
}

/// Queued API answers per token, chats that refuse messages, and what was sent.
#[derive(Default)]
struct World {
    answers: HashMap<String, VecDeque<Result<ApiResponse, String>>>,
    refusing: Vec<i64>,
    sent: Vec<(i64, String)>,
}

impl World {
    fn push_ok(&mut self, token: &str, raw: &str) {
        self.answers.entry(token.to_string()).or_default().push_back(Ok(api(raw)));
    }

    fn push_err(&mut self, token: &str, e: &str) {
        self.answers.entry(token.to_string()).or_default().push_back(Err(e.to_string()));
    }

    fn fetch(&mut self, token: &str) -> Result<ApiResponse, String> {
        self.answers
            .get_mut(token)
            .and_then(|q| q.pop_front())
            .unwrap_or_else(|| Err("no answer".to_string()))
    }

    /// Deliver a message; false when the chat refuses it.
    fn send(&mut self, chat: i64, text: &str) -> bool {
        if self.refusing.contains(&chat) {
            false
        } else {
            self.sent.push((chat, text.to_string()));
            true
        }
    }
}

/// One scheduler round at `tick`, with the clock at `now`.
fn round(store: &mut TrackStore, world: &mut World, tick: u64, now: i64, max_failures: i64) {
    for n in expire_round(store, now, TTL) {
        world.send(n.chat_id, &n.text);
    }
    for row in due_rows(store, tick, PERIOD) {
        let fetched = world.fetch(&row.token);
        match begin_poll(store, &row, fetched, now, max_failures).unwrap() {
            PollStep::Done { notices } => {
                for n in notices {
                    world.send(n.chat_id, &n.text);
                }
            }
            PollStep::Notify { text, recipients, result } => {
                let refused: Vec<bool> = recipients.iter().map(|(_, chat)| !world.send(*chat, &text)).collect();
                for n in finish_poll(store, &row.token, result, &recipients, &refused, now) {
                    world.send(n.chat_id, &n.text);
                }
            }
        }
    }
}

const NOW: i64 = 1_700_000_000;

#[test]
fn first_snapshot_then_change_is_pushed() {
    let mut db = TrackStore::new();
    let mut w = World::default();
    let rand = 7;
    db.add_subscription(1, 1, "tok".to_string(), rand, NOW);
    let t = slot("tok", rand, PERIOD);

    w.push_ok("tok", r#"{"err":0,"result":{"order_id":"OID","status":"PROCESS"}}"#);
    round(&mut db, &mut w, t, NOW + 10, 2);
    assert!(w.sent.is_empty());

    w.push_ok("tok", r#"{"err":0,"result":{"order_id":"OID","status":"DELIVERED"}}"#);
    round(&mut db, &mut w, t + PERIOD, NOW + 130, 2);
    assert_eq!(w.sent.len(), 1);
    assert_eq!(w.sent[0].0, 1);
    assert!(w.sent[0].1.contains("状态: PROCESS → DELIVERED"));
}

#[test]
fn repeated_failures_purge_and_notify() {
    let mut db = TrackStore::new();
    let mut w = World::default();
    let rand = 3;
    db.add_subscription(5, 5, "bad".to_string(), rand, NOW);
    let t = slot("bad", rand, PERIOD);

    w.push_err("bad", "boom");
    round(&mut db, &mut w, t, NOW + 10, 2);
    assert!(w.sent.is_empty());

    w.push_err("bad", "boom");
    round(&mut db, &mut w, t + PERIOD, NOW + 130, 2);
    assert_eq!(w.sent.len(), 1);
    assert!(w.sent[0].1.contains("持续查询失败"));
    assert!(db.due_tokens().is_empty());
}

#[test]
fn expiry_notifies_all_subscribers() {
    let mut db = TrackStore::new();
    let mut w = World::default();
    db.add_subscription(1, 1, "old".to_string(), 1, 0);
    db.add_subscription(2, 2, "old".to_string(), 1, 0);
    db.record_poll_success("old", snap(r#"{"order_id":"OID"}"#), 1);
    round(&mut db, &mut w, 999_999, NOW, 2);
    assert_eq!(w.sent.len(), 2);
    assert!(w.sent.iter().all(|(_, m)| m.contains("停止追踪")));
}

#[test]
fn completed_status_notifies_and_purges() {
    let mut db = TrackStore::new();
    let mut w = World::default();
    let rand = 9;
    db.add_subscription(1, 1, "done".to_string(), rand, NOW);
    let t = slot("done", rand, PERIOD);

    w.push_ok("done", r#"{"err":0,"result":{"order_id":"OID","status":"PROCESS"}}"#);
    round(&mut db, &mut w, t, NOW + 10, 2);
    assert!(w.sent.is_empty());

    w.push_ok("done", r#"{"err":0,"result":{"order_id":"OID","status":"COMPLETED"}}"#);
    round(&mut db, &mut w, t + PERIOD, NOW + 130, 2);
    assert_eq!(w.sent.len(), 2, "change push + completed notice");
    assert!(w.sent[0].1.contains("状态: PROCESS → COMPLETED"));
    assert!(w.sent[1].1.contains("已完成") && w.sent[1].1.contains("停止追踪"));
    assert!(w.sent.iter().all(|(ch, _)| *ch == 1));
    assert!(db.due_tokens().is_empty(), "token purged after COMPLETED");
}

#[test]
fn expiry_notice_text_names_the_order() {
    let mut db = TrackStore::new();
    db.add_subscription(1, 41, "old".to_string(), 1, 0);
    db.record_poll_success("old", snap(r#"{"order_id":"OID"}"#), 1);
    db.add_subscription(2, 42, "bare".to_string(), 1, 0);
    let notices = expire_round(&mut db, 24 * 3600, 24);
    assert_eq!(notices.len(), 2);
    assert_eq!(notices[0].chat_id, 41);
    assert_eq!(notices[0].text, "⏰ 已追踪满 24h，停止追踪 OID");
    assert_eq!(notices[1].chat_id, 42);
    assert_eq!(notices[1].text, "⏰ 已追踪满 24h，停止追踪 bare");
}

#[test]
fn not_due_tokens_are_not_polled() {
    let mut db = TrackStore::new();
    let rand = 4;
    db.add_subscription(1, 1, "tok".to_string(), rand, NOW);
    let t = slot("tok", rand, PERIOD);
    assert_eq!(due_rows(&db, t, PERIOD).len(), 1);
    assert_eq!(due_rows(&db, t + 1, PERIOD).len(), 0);
    assert_eq!(due_rows(&db, t + PERIOD, PERIOD).len(), 1);
}

#[test]
fn refusing_chat_is_unsubscribed_after_an_update() {
    let mut db = TrackStore::new();
    let mut w = World::default();
    let rand = 11;
    db.add_subscription(1, 100, "tok".to_string(), rand, NOW);
    db.add_subscription(2, 200, "tok".to_string(), rand, NOW);
    db.store_snapshot_if_null("tok", snap(r#"{"order_id":"OID","status":"PROCESS"}"#), NOW);
    w.refusing.push(100);
    let t = slot("tok", rand, PERIOD);
    w.push_ok("tok", r#"{"err":0,"result":{"order_id":"OID","status":"DELIVERED"}}"#);
    round(&mut db, &mut w, t, NOW + 10, 2);
    assert_eq!(w.sent, vec![(200, "🚚 订单 OID 有更新:\n状态: PROCESS → DELIVERED".to_string())]);
    assert!(!db.is_subscribed(1, "tok"));
    assert!(db.is_subscribed(2, "tok"));
    assert_eq!(db.due_tokens()[0].last_snapshot, Some(snap(r#"{"order_id":"OID","status":"DELIVERED"}"#)));
}

#[test]
fn api_error_code_counts_as_a_failure() {
    let mut db = TrackStore::new();
    let mut w = World::default();
    let rand = 2;
    db.add_subscription(1, 1, "tok".to_string(), rand, NOW);
    let t = slot("tok", rand, PERIOD);
    w.push_ok("tok", r#"{"err":5,"msg":"bad token"}"#);
    round(&mut db, &mut w, t, NOW + 10, 3);
    assert_eq!(db.token_records()[0].fail_count, 1);
    w.push_ok("tok", r#"{"err":0}"#);
    round(&mut db, &mut w, t + PERIOD, NOW + 20, 3);
    assert_eq!(db.token_records()[0].fail_count, 2);
    assert!(w.sent.is_empty());
}

#[test]
fn failure_notice_text_names_the_token() {
    let mut db = TrackStore::new();
    let mut w = World::default();
    let rand = 1;
    db.add_subscription(3, 33, "zzz".to_string(), rand, NOW);
    let t = slot("zzz", rand, PERIOD);
    w.push_err("zzz", "down");
    round(&mut db, &mut w, t, NOW + 10, 1);
    assert_eq!(w.sent, vec![(33, "❌ zzz 持续查询失败，已停止追踪".to_string())]);
    assert!(db.due_tokens().is_empty());
}

#[test]
fn unchanged_status_sends_nothing_and_records_the_poll() {
    let mut db = TrackStore::new();
    let mut w = World::default();
    let rand = 8;
    db.add_subscription(1, 1, "tok".to_string(), rand, NOW);
    db.store_snapshot_if_null("tok", snap(r#"{"order_id":"OID","status":"PROCESS"}"#), NOW);
    let t = slot("tok", rand, PERIOD);
    w.push_ok("tok", r#"{"err":0,"result":{"order_id":"OID","status":"PROCESS"}}"#);
    round(&mut db, &mut w, t, NOW + 50, 2);
    assert!(w.sent.is_empty());
    assert_eq!(db.token_records()[0].last_polled_at, Some(NOW + 50));
}

#[test]
fn a_round_leaves_a_token_that_is_not_due_alone() {
    let mut db = TrackStore::new();
    let mut w = World::default();
    db.add_subscription(1, 1, "due".to_string(), 5, NOW);
    let t = slot("due", 5, PERIOD);
    // pick a random value for the other token so that it is not due on `t`
    let other_rand = (0..100).find(|r| slot("idle", *r, PERIOD) != t).unwrap();
    db.add_subscription(2, 2, "idle".to_string(), other_rand, NOW);
    db.store_snapshot_if_null("idle", snap(r#"{"status":"PROCESS"}"#), NOW);
    w.push_ok("idle", r#"{"err":0,"result":{"status":"DELIVERED"}}"#);
    w.push_err("due", "boom");
    round(&mut db, &mut w, t, NOW + 10, 1);
    // the due token failed to its limit and was purged; the idle one is untouched
    assert_eq!(db.token_records().len(), 1);
    let rec = &db.token_records()[0];
    assert_eq!(rec.token, "idle");
    assert_eq!(rec.fail_count, 0);
    assert_eq!(rec.last_polled_at, Some(NOW));
    assert_eq!(rec.created_at, NOW);
    assert_eq!(rec.last_snapshot, Some(snap(r#"{"status":"PROCESS"}"#)));
    assert_eq!(db.subscribers("idle"), vec![(2, 2)]);
    assert!(w.sent.iter().all(|(chat, _)| *chat == 1));
}

#[test]
fn a_changed_poll_notifies_each_follower_once_then_records_it() {
    let mut db = TrackStore::new();
    let mut w = World::default();
    let rand = 6;
    db.add_subscription(1, 1001, "tok".to_string(), rand, NOW);
    db.add_subscription(2, 1002, "tok".to_string(), rand, NOW);
    db.store_snapshot_if_null("tok", snap(r#"{"order_id":"O","status":"PROCESS"}"#), NOW);
    db.record_poll_failure("tok", NOW + 1).unwrap();
    let t = slot("tok", rand, PERIOD);
    w.push_ok("tok", r#"{"err":0,"result":{"order_id":"O","status":"DELIVERED"}}"#);
    round(&mut db, &mut w, t, NOW + 20, 5);
    let text = "🚚 订单 O 有更新:\n状态: PROCESS → DELIVERED".to_string();
    assert_eq!(w.sent, vec![(1001, text.clone()), (1002, text)]);
    let rec = &db.token_records()[0];
    assert_eq!(rec.fail_count, 0);
    assert_eq!(rec.last_polled_at, Some(NOW + 20));
    assert_eq!(rec.last_snapshot, Some(snap(r#"{"order_id":"O","status":"DELIVERED"}"#)));
}
