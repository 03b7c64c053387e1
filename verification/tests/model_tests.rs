use serde_json::Value;
use tnt_delivery_bot::model::{
    diff_snapshots, is_completed_status, is_unknown_status, label, render_changes, render_status,
    render_summary, status_of, ApiResponse, FieldChange, FieldValue, Snapshot,
};

fn snap_of(v: &Value) -> Snapshot {
    let mut s = Snapshot::new();
    if let Some(obj) = v.as_object() {
        for (k, val) in obj {
            let fv = match val {
                Value::String(t) => FieldValue::Text(t.clone()),
                other => FieldValue::Other(other.to_string()),
            };
            s = s.insert(k.clone(), fv);
        }
    }
    s
}

fn snap(text: &str) -> Snapshot {
    snap_of(&serde_json::from_str::<Value>(text).unwrap())
}

fn api(raw: &str) -> ApiResponse {
    let v: Value = serde_json::from_str(raw).unwrap();
    ApiResponse {
        err: v["err"].as_i64().unwrap(),
        msg: v.get("msg").and_then(|m| m.as_str()).unwrap_or("").to_string(),
        result: match v.get("result") {
            None | Some(Value::Null) => None,
            Some(r) => Some(snap_of(r)),
        },
    }
}

fn text(s: &str) -> Option<FieldValue> {
    Some(FieldValue::Text(s.to_string()))
}

fn other(s: &str) -> Option<FieldValue> {
    Some(FieldValue::Other(s.to_string()))
}

#[test]
fn parse_real_response() {
    let raw = r#"{"err":0,"msg":"","result":{"order_id":"000039752","status":"PROCESS","stop":99}}"#;
    let r = api(raw);
    assert_eq!(r.err, 0);
    let res = r.result.unwrap();
    assert_eq!(status_of(&res).as_deref(), Some("PROCESS"));
    assert!(!is_unknown_status(&res));
}

#[test]
fn unknown_detection_case_insensitive() {
    assert!(is_unknown_status(&snap(r#"{"status": "UNKNOWN"}"#)));
    assert!(is_unknown_status(&snap(r#"{"status": "unknown"}"#)));
    assert!(!is_unknown_status(&snap(r#"{"status": "PROCESS"}"#)));
    assert!(!is_unknown_status(&snap("{}")));
}

#[test]
fn completed_detection_case_insensitive() {
    assert!(is_completed_status(&snap(r#"{"status": "COMPLETED"}"#)));
    assert!(is_completed_status(&snap(r#"{"status": "completed"}"#)));
    assert!(!is_completed_status(&snap(r#"{"status": "DELIVERED"}"#)));
    assert!(!is_completed_status(&snap("{}")));
}

#[test]
fn diff_modified_added_removed() {
    let old = snap(r#"{"status":"PROCESS","stop":99,"gone":1}"#);
    let new = snap(r#"{"status":"DELIVERED","stop":99,"added":"x"}"#);
    let d = diff_snapshots(&old, &new);
    assert_eq!(
        d,
        vec![
            FieldChange { key: "added".into(), old: None, new: text("x") },
            FieldChange { key: "gone".into(), old: other("1"), new: None },
            FieldChange { key: "status".into(), old: text("PROCESS"), new: text("DELIVERED") },
        ]
    );
}

#[test]
fn diff_no_change_is_empty() {
    let v = snap(r#"{"status":"PROCESS"}"#);
    assert!(diff_snapshots(&v, &v).is_empty());
}

#[test]
fn render_changes_uses_labels() {
    let changes = vec![FieldChange {
        key: "status".into(),
        old: text("PROCESS"),
        new: text("DELIVERED"),
    }];
    let out = render_changes("000039752", &changes);
    assert!(out.contains("订单 000039752 有更新"));
    assert!(out.contains("状态: PROCESS → DELIVERED"));
}

#[test]
fn render_changes_exact_text() {
    let changes = vec![
        FieldChange { key: "stop".into(), old: other("3"), new: other("2") },
        FieldChange { key: "note".into(), old: None, new: text("x ") },
        FieldChange { key: "addr".into(), old: text("A St"), new: None },
    ];
    assert_eq!(
        render_changes("O1", &changes),
        "🚚 订单 O1 有更新:\n剩余站点: 3 → 2\nnote: — → x \n地址: A St → —"
    );
}

#[test]
fn diff_string_and_number_differ() {
    let a = snap(r#"{"k":"1"}"#);
    let b = snap(r#"{"k":1}"#);
    assert_eq!(
        diff_snapshots(&a, &b),
        vec![FieldChange { key: "k".into(), old: text("1"), new: other("1") }]
    );
}

#[test]
fn diff_orders_keys_by_code_point() {
    let a = snap(r#"{"b":1,"a":1,"Z":1,"é":1}"#);
    let b = snap("{}");
    let keys: Vec<String> = diff_snapshots(&a, &b).into_iter().map(|c| c.key).collect();
    assert_eq!(keys, vec!["Z", "a", "b", "é"]);
}

#[test]
fn diff_then_patch_gives_new() {
    let a = snap(r#"{"status":"PROCESS","stop":5,"x":[1,2]}"#);
    let b = snap(r#"{"status":"DELIVERED","y":{"z":null},"x":[1,2]}"#);
    let d = diff_snapshots(&a, &b);
    let mut patched = a.duplicate();
    let mut removed = Vec::new();
    for c in d {
        match c.new {
            Some(v) => patched = patched.insert(c.key, v),
            None => removed.push(c.key),
        }
    }
    for i in 0..b.len() {
        let (k, v) = b.entry(i);
        assert_eq!(patched.get(k), Some(v));
    }
    assert_eq!(removed, vec!["stop".to_string()]);
}

#[test]
fn insert_replaces_and_keeps_order() {
    let s = Snapshot::new()
        .insert("b".into(), FieldValue::Other("1".into()))
        .insert("a".into(), FieldValue::Text("x".into()))
        .insert("b".into(), FieldValue::Text("y".into()));
    assert_eq!(s.len(), 2);
    assert_eq!(s.entry(0).0, "a");
    assert_eq!(s.entry(1).1, &FieldValue::Text("y".into()));
    assert_eq!(s.get("c"), None);
}

#[test]
fn labels_known_and_unknown() {
    assert_eq!(label("order_id"), "订单号");
    assert_eq!(label("status"), "状态");
    assert_eq!(label("stop"), "剩余站点");
    assert_eq!(label("duration"), "预计时长(秒)");
    assert_eq!(label("length"), "距离(米)");
    assert_eq!(label("estimated_slot"), "预计时段");
    assert_eq!(label("completed_time"), "完成时间");
    assert_eq!(label("addr"), "地址");
    assert_eq!(label("weird"), "weird");
}

#[test]
fn render_status_lists_known_fields() {
    let s = snap(r#"{"order_id":"OID","status":"PROCESS","stop":3,"addr":"1 Main St","other":"ignored"}"#);
    assert_eq!(render_status(&s), "✅ 已加入追踪 OID\n状态: PROCESS\n剩余站点: 3\n地址: 1 Main St");
    let t = snap(r#"{"order_id":7}"#);
    assert_eq!(render_status(&t), "✅ 已加入追踪 ?");
}

#[test]
fn render_status_trims_trailing_whitespace_of_last_value() {
    let s = snap(r#"{"order_id":"O","addr":"Road 1  \n"}"#);
    assert_eq!(render_status(&s), "✅ 已加入追踪 O\n地址: Road 1");
}

#[test]
fn render_summary_text() {
    assert_eq!(render_summary(&snap(r#"{"order_id":"O","status":"PROCESS"}"#)), "O · PROCESS");
    assert_eq!(render_summary(&snap(r#"{"status":5}"#)), "? · ?");
}
