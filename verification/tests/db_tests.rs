use serde_json::Value;
use tnt_delivery_bot::db::{AddResult, DbError, Subscription, TokenRecord, TrackStore, UnsubResult};
use tnt_delivery_bot::model::{FieldValue, Snapshot};

fn snap(text: &str) -> Snapshot {
    let v: Value = serde_json::from_str(text).unwrap();
    let mut s = Snapshot::new();
    if let Some(obj) = v.as_object() {
        for (k, val) in obj {
            let fv = match val {
                Value::String(t) => FieldValue::Text(t.clone()),
                other => FieldValue::Other(other.to_string()),
            };
            s = s.insert(k.clone(), fv);
        }
    }
    s
}

#[test]
fn add_dedup_snapshot_failure_purge() {
    let mut db = TrackStore::new();

    let r = db.add_subscription(1, 1, "tok".to_string(), 42, 1000);
    assert_eq!(r, AddResult::Added { snapshot: None });

    let r = db.add_subscription(1, 1, "tok".to_string(), 42, 2000);
    assert_eq!(r, AddResult::AlreadySubscribed { snapshot: None });
    assert!(db.is_subscribed(1, "tok"));

    let r = db.add_subscription(2, 2, "tok".to_string(), 42, 2000);
    assert_eq!(r, AddResult::Added { snapshot: None });

    db.store_snapshot_if_null("tok", snap("{\"a\":1}"), 3000);
    db.store_snapshot_if_null("tok", snap("{\"a\":2}"), 3100);
    let due = db.due_tokens();
    assert_eq!(due.len(), 1);
    assert_eq!(due[0].last_snapshot, Some(snap("{\"a\":1}")));

    let mut subs = db.subscribers("tok");
    subs.sort();
    assert_eq!(subs, vec![(1, 1), (2, 2)]);

    assert_eq!(db.record_poll_failure("tok", 4000), Ok(1));
    assert_eq!(db.record_poll_failure("tok", 4100), Ok(2));
    db.record_poll_success("tok", snap("{\"a\":9}"), 4200);
    assert_eq!(db.record_poll_failure("tok", 4300), Ok(1));

    db.purge_token("tok");
    assert!(db.due_tokens().is_empty());
}

#[test]
fn expiry_and_unsubscribe() {
    let mut db = TrackStore::new();

    db.add_subscription(1, 1, "old".to_string(), 1, 0);
    db.record_poll_success("old", snap("{\"order_id\":\"OID\"}"), 10);

    assert!(db.expire_sweep(3600, 24).is_empty());
    let exp = db.expire_sweep(24 * 3600, 24);
    assert_eq!(exp.len(), 1);
    assert_eq!(exp[0].token, "old");
    assert_eq!(exp[0].order_id.as_deref(), Some("OID"));
    assert_eq!(exp[0].subscribers, vec![(1, 1)]);
    assert!(db.due_tokens().is_empty());

    db.add_subscription(7, 7, "z".to_string(), 1, 0);
    assert_eq!(db.unsubscribe(7, "z"), UnsubResult::Removed);
    assert_eq!(db.unsubscribe(7, "z"), UnsubResult::NotSubscribed);
    assert!(db.due_tokens().is_empty());
}

#[test]
fn re_adding_renews_the_ttl_and_keeps_one_subscription() {
    let mut db = TrackStore::new();
    db.add_subscription(1, 10, "t".to_string(), 5, 100);
    db.add_subscription(1, 10, "t".to_string(), 6, 900);
    assert_eq!(db.subscriptions().len(), 1);
    assert_eq!(db.token_records().len(), 1);
    assert_eq!(db.token_records()[0].created_at, 900);
    // the random value of a token stays the one it was created with
    assert_eq!(db.token_records()[0].rand, 5);
    // renewed: not expired one TTL after the first add
    assert!(db.expire_sweep(100 + 3600, 1).is_empty());
    assert_eq!(db.expire_sweep(900 + 3600, 1).len(), 1);
}

#[test]
fn added_reports_the_existing_snapshot_to_a_new_follower() {
    let mut db = TrackStore::new();
    db.add_subscription(1, 1, "t".to_string(), 1, 0);
    db.store_snapshot_if_null("t", snap(r#"{"status":"PROCESS"}"#), 5);
    let r = db.add_subscription(2, 2, "t".to_string(), 9, 10);
    assert_eq!(r, AddResult::Added { snapshot: Some(snap(r#"{"status":"PROCESS"}"#)) });
}

#[test]
fn failure_on_unknown_token_is_an_error() {
    let mut db = TrackStore::new();
    assert_eq!(db.record_poll_failure("nope", 1), Err(DbError::UnknownToken));
}

#[test]
fn failure_count_overflow_is_an_error_and_changes_nothing() {
    let tokens = vec![TokenRecord {
        token: "t".to_string(),
        rand: 0,
        created_at: 0,
        last_snapshot: None,
        last_polled_at: None,
        fail_count: i64::MAX,
    }];
    let mut db = TrackStore::from_parts(tokens, vec![]).unwrap();
    assert_eq!(db.record_poll_failure("t", 7), Err(DbError::FailCountOverflow));
    assert_eq!(db.token_records()[0].fail_count, i64::MAX);
    assert_eq!(db.token_records()[0].last_polled_at, None);
}

#[test]
fn success_records_poll_time_and_resets_failures() {
    let mut db = TrackStore::new();
    db.add_subscription(1, 1, "t".to_string(), 1, 0);
    assert_eq!(db.record_poll_failure("t", 3), Ok(1));
    assert_eq!(db.token_records()[0].last_polled_at, Some(3));
    db.record_poll_success("t", snap(r#"{"x":"y"}"#), 8);
    let rec = &db.token_records()[0];
    assert_eq!(rec.fail_count, 0);
    assert_eq!(rec.last_polled_at, Some(8));
    assert_eq!(rec.last_snapshot, Some(snap(r#"{"x":"y"}"#)));
}

#[test]
fn unsubscribe_keeps_token_while_followed() {
    let mut db = TrackStore::new();
    db.add_subscription(1, 11, "t".to_string(), 1, 0);
    db.add_subscription(2, 22, "t".to_string(), 1, 0);
    assert_eq!(db.unsubscribe(1, "t"), UnsubResult::Removed);
    assert!(!db.is_subscribed(1, "t"));
    assert!(db.is_subscribed(2, "t"));
    assert_eq!(db.due_tokens().len(), 1);
    assert_eq!(db.subscribers("t"), vec![(2, 22)]);
}

#[test]
fn purge_removes_every_subscription() {
    let mut db = TrackStore::new();
    db.add_subscription(1, 1, "a".to_string(), 1, 0);
    db.add_subscription(2, 2, "a".to_string(), 1, 0);
    db.add_subscription(2, 2, "b".to_string(), 1, 0);
    db.purge_token("a");
    assert!(!db.is_subscribed(1, "a"));
    assert!(!db.is_subscribed(2, "a"));
    assert!(db.is_subscribed(2, "b"));
    assert_eq!(db.due_tokens().len(), 1);
    assert_eq!(db.due_tokens()[0].token, "b");
}

#[test]
fn sweep_expires_at_exactly_the_ttl() {
    let mut db = TrackStore::new();
    db.add_subscription(1, 1, "a".to_string(), 1, 100);
    db.add_subscription(2, 3, "b".to_string(), 1, 200);
    let exp = db.expire_sweep(100 + 2 * 3600, 2);
    assert_eq!(exp.len(), 1);
    assert_eq!(exp[0].token, "a");
    assert_eq!(exp[0].order_id, None);
    assert_eq!(exp[0].subscribers, vec![(1, 1)]);
    assert!(db.is_subscribed(2, "b"));
    assert!(!db.is_subscribed(1, "a"));
}

#[test]
fn list_user_is_ordered_by_join_time() {
    let mut db = TrackStore::new();
    db.add_subscription(1, 1, "late".to_string(), 1, 50);
    db.add_subscription(1, 1, "early".to_string(), 1, 60);
    db.add_subscription(2, 2, "other".to_string(), 1, 10);
    // re-adding renews the token's TTL but not the join time
    db.add_subscription(1, 1, "late".to_string(), 1, 70);
    let rows = db.list_user(1);
    let names: Vec<&str> = rows.iter().map(|r| r.token.as_str()).collect();
    assert_eq!(names, vec!["late", "early"]);
    assert_eq!(rows[0].created_at, 70);
    assert_eq!(rows[1].created_at, 60);
}

#[test]
fn from_parts_rejects_inconsistent_tables() {
    let rec = |t: &str| TokenRecord {
        token: t.to_string(),
        rand: 1,
        created_at: 0,
        last_snapshot: None,
        last_polled_at: None,
        fail_count: 0,
    };
    let sub = |u: i64, t: &str| Subscription { user_id: u, chat_id: u, token: t.to_string(), joined_at: 0, rand: 1 };
    assert!(TrackStore::from_parts(vec![rec("a")], vec![sub(1, "a")]).is_some());
    // duplicate token
    assert!(TrackStore::from_parts(vec![rec("a"), rec("a")], vec![]).is_none());
    // subscription to a token that is not stored
    assert!(TrackStore::from_parts(vec![rec("a")], vec![sub(1, "b")]).is_none());
    // the same user twice on one token
    assert!(TrackStore::from_parts(vec![rec("a")], vec![sub(1, "a"), sub(1, "a")]).is_none());
}
