use vstd::prelude::*;
use crate::db::{
    DbError, ExpiredToken, ExpiredView, StoreView, SubView, TokenRow, TokenRowView, TokenView, TrackStore,
    expired,
    failure_spec, has_sub, has_token, lemma_filter_tokens_unique, lemma_token_idx, purge_spec, row_of,
    store_wf, subs_of, success_spec, sweep_result, sweep_spec, token_expired, token_followed, token_idx,
    unsubscribe_spec,
};
use crate::model::{
    ApiResponse, ChangeView, FieldValue, Fields, Snapshot, ValueView, diff_snapshots,
    is_completed_status, is_diff, lookup, render_changes, render_changes_spec, status_is,
};
use crate::notify::{Notice, NoticeView};
use crate::schedule::{is_due, is_due_spec};
use crate::text::{int_text, int_to_string};
use crate::sys::now_ts;

verus! {

/// The notice sent to the followers of an expired token.
pub open spec fn expire_text(ttl_hours: i64, e: ExpiredView) -> Seq<char> {
    "⏰ 已追踪满 "@ + int_text(ttl_hours as int) + "h，停止追踪 "@ + match e.order_id {
        Some(o) => o,
        None => e.token,
    }
}

/// One notice with `text` for the chat of each follower, in order.
pub open spec fn notices_to(subs: Seq<(i64, i64)>, text: Seq<char>) -> Seq<NoticeView> {
    subs.map_values(|p: (i64, i64)| NoticeView { chat_id: p.1, text: text })
}

/// The notices of an expiry sweep: for each expired token in order, one per follower.
pub open spec fn expiry_notices(ttl_hours: i64, es: Seq<ExpiredView>) -> Seq<NoticeView>
    decreases es.len(),
{
    if es.len() == 0 {
        Seq::empty()
    } else {
        expiry_notices(ttl_hours, es.drop_last()) + notices_to(
            es.last().subscribers,
            expire_text(ttl_hours, es.last()),
        )
    }
}

pub open spec fn notices_view(ns: Seq<Notice>) -> Seq<NoticeView> {
    ns.map_values(|n: Notice| n@)
}

fn push_notices(out: &mut Vec<Notice>, subs: &Vec<(i64, i64)>, text: &String)
    ensures
        notices_view(final(out)@) == notices_view(old(out)@) + notices_to(subs@, text@),
{
    let n = subs.len();
    let mut i: usize = 0;
    let ghost start = notices_view(out@);
    assert(subs@.take(0) =~= Seq::<(i64, i64)>::empty());
    assert(notices_to(subs@.take(0), text@) =~= Seq::<NoticeView>::empty());
    while i < n
        invariant
            n == subs@.len(),
            i <= n,
            notices_view(out@) == start + notices_to(subs@.take(i as int), text@),
        decreases n - i,
    {
        let ghost prev = notices_view(out@);
        out.push(Notice { chat_id: subs[i].1, text: text.clone() });
        proof {
            assert(notices_view(out@) =~= prev.push(NoticeView { chat_id: subs@[i as int].1, text: text@ }));
            assert(subs@.take(i as int + 1) =~= subs@.take(i as int).push(subs@[i as int]));
            assert(notices_to(subs@.take(i as int + 1), text@) =~= notices_to(subs@.take(i as int), text@).push(
                NoticeView { chat_id: subs@[i as int].1, text: text@ },
            ));
            assert(notices_view(out@) =~= start + notices_to(subs@.take(i as int + 1), text@));
        }
        i = i + 1;
    }
    assert(subs@.take(n as int) =~= subs@);
}

fn expire_message(ttl_hours: i64, e: &ExpiredToken) -> (s: String)
    ensures
        s@ == expire_text(ttl_hours, e@),
{
    let mut s = String::from_str("⏰ 已追踪满 ");
    let t = int_to_string(ttl_hours as i128);
    s.append(t.as_str());
    s.append("h，停止追踪 ");
    match &e.order_id {
        Some(o) => s.append(o.as_str()),
        None => s.append(e.token.as_str()),
    }
    s
}

/// Expiry step of a poll round: drop the tokens whose time to live has run
/// out and tell their followers.
pub fn expire_round(store: &mut TrackStore, now: i64, ttl_hours: i64) -> (notices: Vec<Notice>)
    ensures
        store_wf(final(store)@),
        final(store)@ == sweep_spec(old(store)@, now, ttl_hours),
        notices_view(notices@) == expiry_notices(ttl_hours, sweep_result(old(store)@, now, ttl_hours)),
{
    let ghost v = store@;
    let expired = store.expire_sweep(now, ttl_hours);
    let ghost es = expired@.map_values(|e: ExpiredToken| e@);
    let mut out: Vec<Notice> = Vec::new();
    let n = expired.len();
    let mut i: usize = 0;
    assert(es.take(0) =~= Seq::<ExpiredView>::empty());
    while i < n
        invariant
            n == expired@.len(),
            es == expired@.map_values(|e: ExpiredToken| e@),
            i <= n,
            notices_view(out@) == expiry_notices(ttl_hours, es.take(i as int)),
        decreases n - i,
    {
        let e = &expired[i];
        let text = expire_message(ttl_hours, e);
        push_notices(&mut out, &e.subscribers, &text);
        proof {
            assert(es.take(i as int + 1).drop_last() =~= es.take(i as int));
            assert(es.take(i as int + 1).last() == e@);
        }
        i = i + 1;
    }
    assert(es.take(n as int) =~= es);
    out
}

/// Start a poll round: read the clock, run the expiry step, and return the
/// time it used with the notices to send.
/// Reading the clock panics if the system clock is outside chrono's range
/// (before 1970 or too far ahead); no argument can cause or avoid that.
pub fn begin_round(store: &mut TrackStore, ttl_hours: i64) -> (r: (i64, Vec<Notice>))
    ensures
        store_wf(final(store)@),
        final(store)@ == sweep_spec(old(store)@, r.0, ttl_hours),
        notices_view(r.1@) == expiry_notices(ttl_hours, sweep_result(old(store)@, r.0, ttl_hours)),
{
    let now = now_ts();
    let notices = expire_round(store, now, ttl_hours);
    (now, notices)
}

/// The tokens due on `tick`, in store order.
pub open spec fn due_spec(v: StoreView, tick: u64, n: u64) -> Seq<crate::db::TokenRowView> {
    v.tokens.filter(|t: TokenView| is_due_spec(tick, t.token, t.rand, n)).map_values(
        |t: TokenView| row_of(t),
    )
}

/// The stored tokens due for polling on `tick` with period `n`.
pub fn due_rows(store: &TrackStore, tick: u64, n: u64) -> (r: Vec<TokenRow>)
    ensures
        r@.map_values(|t: TokenRow| t@) == due_spec(store@, tick, n),
{
    let rows = store.due_tokens();
    let ghost all = store@.tokens;
    let ghost p = |t: TokenView| is_due_spec(tick, t.token, t.rand, n);
    let ghost f = |t: TokenView| row_of(t);
    let mut out: Vec<TokenRow> = Vec::new();
    let mut rest = rows;
    let ghost mut k: int = 0;
    let ghost rv = rest@.map_values(|t: TokenRow| t@);
    assert(rv == all.map_values(f));
    assert(all.take(0) =~= Seq::<TokenView>::empty());
    while rest.len() > 0
        invariant
            p == (|t: TokenView| is_due_spec(tick, t.token, t.rand, n)),
            f == (|t: TokenView| row_of(t)),
            rv == all.map_values(f),
            0 <= k <= all.len(),
            all.len() == k + rest@.len(),
            rest@.map_values(|t: TokenRow| t@) == rv.skip(k),
            out@.map_values(|t: TokenRow| t@) == all.take(k).filter(p).map_values(f),
        decreases rest@.len(),
    {
        let ghost before = rest@;
        let row = rest.remove(0);
        proof {
            assert(before.map_values(|t: TokenRow| t@)[0] == row@);
            assert(rest@ =~= before.skip(1));
            assert(rest@.map_values(|t: TokenRow| t@) =~= before.map_values(|t: TokenRow| t@).skip(1));
            assert(rv.skip(k).skip(1) =~= rv.skip(k + 1));
            assert(rv.skip(k)[0] == row@);
            assert(rv[k] == f(all[k]));
            assert(all.take(k + 1) =~= all.take(k).push(all[k]));
            all.take(k).lemma_filter_push(all[k], p);
            assert(rest@.map_values(|t: TokenRow| t@) =~= rv.skip(k + 1));
        }
        if is_due(tick, row.token.as_str(), row.rand, n) {
            out.push(row);
            proof {
                let fl = all.take(k).filter(p);
                assert(fl.push(all[k]).map_values(f) =~= fl.map_values(f).push(f(all[k])));
            }
        }
        assert(out@.map_values(|t: TokenRow| t@) =~= all.take(k + 1).filter(p).map_values(f));
        proof {
            k = k + 1;
        }
    }
    assert(all.take(k) =~= all);
    out
}

/// The order number to show: the result's `order_id` when it is a string,
/// else the token.
pub open spec fn order_or_token(fs: Fields, tok: Seq<char>) -> Seq<char> {
    match lookup(fs, "order_id"@) {
        Some(ValueView::Text(s)) => s,
        _ => tok,
    }
}

/// The notice that an order is complete and no longer tracked.
pub open spec fn completed_text(order_id: Seq<char>) -> Seq<char> {
    "✅ 订单 "@ + order_id + " 已完成，停止追踪"@
}

/// The notice that a token failed too often and is no longer tracked.
pub open spec fn failed_text(tok: Seq<char>) -> Seq<char> {
    "❌ "@ + tok + " 持续查询失败，已停止追踪"@
}

/// After a successful poll is recorded: a completed order stops being tracked.
pub open spec fn completion_store(v: StoreView, tok: Seq<char>, res: Fields) -> StoreView {
    if status_is(res, "COMPLETED"@) {
        purge_spec(v, tok)
    } else {
        v
    }
}

/// The notices for a completed order: one per follower.
pub open spec fn completion_notices(v: StoreView, tok: Seq<char>, res: Fields) -> Seq<NoticeView> {
    if status_is(res, "COMPLETED"@) {
        notices_to(subs_of(v.subs, tok), completed_text(order_or_token(res, tok)))
    } else {
        Seq::empty()
    }
}

/// The store after a successful poll with nothing (more) to announce.
pub open spec fn settled_store(v: StoreView, tok: Seq<char>, res: Fields, now: i64) -> StoreView {
    completion_store(success_spec(v, tok, res, now), tok, res)
}

/// The notices after a successful poll with nothing (more) to announce.
pub open spec fn settled_notices(v: StoreView, tok: Seq<char>, res: Fields, now: i64) -> Seq<NoticeView> {
    completion_notices(success_spec(v, tok, res, now), tok, res)
}

/// The failure count a failed poll gives the stored token.
pub open spec fn next_fail_count(v: StoreView, tok: Seq<char>) -> int {
    v.tokens[token_idx(v.tokens, tok)].fail_count + 1
}

/// The store after a failed poll: the failure is counted, and the token is
/// purged once the count reaches `max_failures`.
pub open spec fn failed_store(v: StoreView, tok: Seq<char>, now: i64, max_failures: i64) -> StoreView {
    if next_fail_count(v, tok) >= max_failures {
        purge_spec(failure_spec(v, tok, now), tok)
    } else {
        failure_spec(v, tok, now)
    }
}

/// The notices after a failed poll: one per follower when tracking stops.
pub open spec fn failed_notices(v: StoreView, tok: Seq<char>, max_failures: i64) -> Seq<NoticeView> {
    if next_fail_count(v, tok) >= max_failures {
        notices_to(subs_of(v.subs, tok), failed_text(tok))
    } else {
        Seq::empty()
    }
}

/// The store once the followers whose chats refused the update are unsubscribed, in order.
pub open spec fn unsub_refused(v: StoreView, tok: Seq<char>, recips: Seq<(i64, i64)>, refused: Seq<bool>) -> StoreView
    decreases recips.len(),
{
    if recips.len() == 0 || refused.len() == 0 {
        v
    } else {
        let w = unsub_refused(v, tok, recips.drop_last(), refused.drop_last());
        if refused.last() {
            unsubscribe_spec(w, recips.last().0, tok)
        } else {
            w
        }
    }
}

/// What a poll asks of the caller next.
#[derive(Debug)]
pub enum PollStep {
    /// Send these notices (failures to deliver are ignored); the token is done.
    Done { notices: Vec<Notice> },
    /// Send `text` to each recipient's chat, note which chats refused it, then
    /// call `finish_poll` with `result`.
    Notify { text: String, recipients: Vec<(i64, i64)>, result: Snapshot },
}

/// The poll of one due token found the response usable: no error and a result.
pub open spec fn fetch_usable(fetched: Result<ApiResponse, String>) -> bool {
    fetched is Ok && fetched->Ok_0.err == 0 && fetched->Ok_0.result is Some
}

pub open spec fn fetched_result(fetched: Result<ApiResponse, String>) -> Fields {
    fetched->Ok_0.result->0@
}

fn order_or_token_exec(res: &Snapshot, tok: &str) -> (s: String)
    ensures
        s@ == order_or_token(res@, tok@),
{
    match res.get("order_id") {
        Some(FieldValue::Text(o)) => o.clone(),
        _ => String::from_str(tok),
    }
}

/// Tell the followers of a completed order and stop tracking it.
fn complete_if_done(store: &mut TrackStore, tok: &str, completed: bool, oid: &String) -> (notices: Vec<Notice>)
    ensures
        store_wf(final(store)@),
        final(store)@ == if completed {
            purge_spec(old(store)@, tok@)
        } else {
            old(store)@
        },
        notices_view(notices@) == if completed {
            notices_to(subs_of(old(store)@.subs, tok@), completed_text(oid@))
        } else {
            Seq::<NoticeView>::empty()
        },
{
    proof {
        use_type_invariant(&*store);
    }
    let mut notices: Vec<Notice> = Vec::new();
    if completed {
        let subs = store.subscribers(tok);
        let mut text = String::from_str("✅ 订单 ");
        text.append(oid.as_str());
        text.append(" 已完成，停止追踪");
        push_notices(&mut notices, &subs, &text);
        assert(notices_view(notices@) =~= notices_to(subs@, text@));
        store.purge_token(tok);
    } else {
        assert(notices_view(notices@) =~= Seq::<NoticeView>::empty());
    }
    notices
}

/// Record a successful poll and handle completion.
fn settle(store: &mut TrackStore, tok: &str, res: Snapshot, now: i64) -> (notices: Vec<Notice>)
    ensures
        store_wf(final(store)@),
        final(store)@ == settled_store(old(store)@, tok@, res@, now),
        notices_view(notices@) == settled_notices(old(store)@, tok@, res@, now),
{
    let completed = is_completed_status(&res);
    let oid = order_or_token_exec(&res, tok);
    store.record_poll_success(tok, res, now);
    complete_if_done(store, tok, completed, &oid)
}

/// Handle the poll of a due token once its response is in: record it and say
/// what to send. A usable result with a previous snapshot that differs asks
/// for the update notice to be sent first (`Notify`); otherwise the step is
/// finished (`Done`). A failure is counted, and at `max_failures` the token
/// is purged and its followers told.
pub fn begin_poll(
    store: &mut TrackStore,
    row: &TokenRow,
    fetched: Result<ApiResponse, String>,
    now: i64,
    max_failures: i64,
) -> (r: Result<PollStep, DbError>)
    ensures
        store_wf(final(store)@),
        fetch_usable(fetched) ==> {
            let res = fetched_result(fetched);
            let tok = row.token@;
            match row@.last_snapshot {
                None => r matches Ok(PollStep::Done { notices }) && final(store)@ == settled_store(
                    old(store)@,
                    tok,
                    res,
                    now,
                ) && notices_view(notices@) == settled_notices(old(store)@, tok, res, now),
                Some(prev) => if is_diff(prev, res, Seq::empty()) {
                    r matches Ok(PollStep::Done { notices }) && final(store)@ == settled_store(
                        old(store)@,
                        tok,
                        res,
                        now,
                    ) && notices_view(notices@) == settled_notices(old(store)@, tok, res, now)
                } else {
                    r matches Ok(PollStep::Notify { text, recipients, result }) && final(store)@
                        == old(store)@ && recipients@ == subs_of(old(store)@.subs, tok) && result@
                        == res && exists|cs: Seq<ChangeView>|
                        is_diff(prev, res, cs) && cs.len() > 0 && text@ == render_changes_spec(
                            order_or_token(res, tok),
                            cs,
                        )
                },
            }
        },
        !fetch_usable(fetched) ==> {
            let tok = row.token@;
            let v = old(store)@;
            if !has_token(v.tokens, tok) {
                r == Err::<PollStep, DbError>(DbError::UnknownToken) && final(store)@ == v
            } else if v.tokens[token_idx(v.tokens, tok)].fail_count == i64::MAX {
                r == Err::<PollStep, DbError>(DbError::FailCountOverflow) && final(store)@ == v
            } else {
                r matches Ok(PollStep::Done { notices }) && final(store)@ == failed_store(
                    v,
                    tok,
                    now,
                    max_failures,
                ) && notices_view(notices@) == failed_notices(v, tok, max_failures)
            }
        },
{
    proof {
        use_type_invariant(&*store);
    }
    let ghost fv = fetched;
    let tok = row.token.as_str();
    let usable: Option<Snapshot> = match fetched {
        Ok(resp) => if resp.err == 0 {
            resp.result
        } else {
            None
        },
        Err(_) => None,
    };
    match usable {
        Some(res) => {
            assert(fetch_usable(fv) && res@ == fetched_result(fv));
            match &row.last_snapshot {
                None => Ok(PollStep::Done { notices: settle(store, tok, res, now) }),
                Some(prev) => {
                    let changes = diff_snapshots(prev, &res);
                    if changes.len() == 0 {
                        assert(changes@.map_values(|c: crate::model::FieldChange| c@) =~= Seq::<ChangeView>::empty());
                        Ok(PollStep::Done { notices: settle(store, tok, res, now) })
                    } else {
                        proof {
                            let cs = changes@.map_values(|c: crate::model::FieldChange| c@);
                            if is_diff(prev@, res@, Seq::empty()) {
                                assert(cs[0].old == lookup(prev@, cs[0].key));
                                assert(lookup(prev@, cs[0].key) != lookup(res@, cs[0].key));
                            }
                        }
                        let oid = order_or_token_exec(&res, tok);
                        let text = render_changes(oid.as_str(), changes.as_slice());
                        let recipients = store.subscribers(tok);
                        Ok(PollStep::Notify { text, recipients, result: res })
                    }
                },
            }
        },
        None => {
            assert(!fetch_usable(fv));
            match store.record_poll_failure(tok, now) {
                Err(e) => Err(e),
                Ok(fc) => {
                    let mut notices: Vec<Notice> = Vec::new();
                    if fc >= max_failures {
                        let subs = store.subscribers(tok);
                        let mut text = String::from_str("❌ ");
                        text.append(tok);
                        text.append(" 持续查询失败，已停止追踪");
                        push_notices(&mut notices, &subs, &text);
                        assert(notices_view(notices@) =~= notices_to(subs@, text@));
                        store.purge_token(tok);
                    } else {
                        assert(notices_view(notices@) =~= Seq::<NoticeView>::empty());
                    }
                    Ok(PollStep::Done { notices })
                },
            }
        },
    }
}

/// Finish a poll after its update notice went out: unsubscribe each follower
/// whose chat refused it, record the poll, and handle completion.
pub fn finish_poll(
    store: &mut TrackStore,
    token: &str,
    result: Snapshot,
    recipients: &Vec<(i64, i64)>,
    refused: &Vec<bool>,
    now: i64,
) -> (notices: Vec<Notice>)
    requires
        recipients@.len() == refused@.len(),
    ensures
        store_wf(final(store)@),
        final(store)@ == settled_store(
            unsub_refused(old(store)@, token@, recipients@, refused@),
            token@,
            result@,
            now,
        ),
        notices_view(notices@) == settled_notices(
            unsub_refused(old(store)@, token@, recipients@, refused@),
            token@,
            result@,
            now,
        ),
{
    proof {
        use_type_invariant(&*store);
    }
    let ghost v = store@;
    let n = recipients.len();
    let mut i: usize = 0;
    assert(recipients@.take(0) =~= Seq::<(i64, i64)>::empty());
    while i < n
        invariant
            n == recipients@.len(),
            n == refused@.len(),
            i <= n,
            store_wf(store@),
            store@ == unsub_refused(v, token@, recipients@.take(i as int), refused@.take(i as int)),
        decreases n - i,
    {
        proof {
            assert(recipients@.take(i as int + 1).drop_last() =~= recipients@.take(i as int));
            assert(refused@.take(i as int + 1).drop_last() =~= refused@.take(i as int));
            assert(recipients@.take(i as int + 1).last() == recipients@[i as int]);
            assert(refused@.take(i as int + 1).last() == refused@[i as int]);
        }
        if refused[i] {
            store.unsubscribe(recipients[i].0, token);
        }
        i = i + 1;
    }
    assert(recipients@.take(n as int) =~= recipients@);
    assert(refused@.take(n as int) =~= refused@);
    settle(store, token, result, now)
}

/// A poll that finds the order completed ends its tracking: afterwards the
/// token is neither stored nor followed, and every follower it had is told.
pub proof fn lemma_completed_stops_tracking(v: StoreView, tok: Seq<char>, res: Fields, now: i64)
    requires
        status_is(res, "COMPLETED"@),
    ensures
        !has_token(settled_store(v, tok, res, now).tokens, tok),
        !crate::db::token_followed(settled_store(v, tok, res, now).subs, tok),
        settled_notices(v, tok, res, now) == notices_to(
            subs_of(success_spec(v, tok, res, now).subs, tok),
            completed_text(order_or_token(res, tok)),
        ),
{
    crate::db::lemma_purge_removes_token(success_spec(v, tok, res, now), tok);
}

/// Polls of an order that is not completed keep it tracked and send nothing more.
pub proof fn lemma_open_order_stays_tracked(v: StoreView, tok: Seq<char>, res: Fields, now: i64)
    requires
        !status_is(res, "COMPLETED"@),
    ensures
        settled_store(v, tok, res, now) == success_spec(v, tok, res, now),
        settled_notices(v, tok, res, now).len() == 0,
{
}

/// A failed poll that brings the failure count to `max_failures` stops the
/// tracking and tells every follower; below it the token stays, with the count raised.
pub proof fn lemma_failure_limit(v: StoreView, tok: Seq<char>, now: i64, max_failures: i64)
    requires
        store_wf(v),
        has_token(v.tokens, tok),
        v.tokens[token_idx(v.tokens, tok)].fail_count < i64::MAX,
    ensures
        next_fail_count(v, tok) >= max_failures ==> !has_token(failed_store(v, tok, now, max_failures).tokens, tok)
            && failed_notices(v, tok, max_failures) == notices_to(subs_of(v.subs, tok), failed_text(tok)),
        next_fail_count(v, tok) < max_failures ==> ({
            let w = failed_store(v, tok, now, max_failures);
            &&& has_token(w.tokens, tok)
            &&& w.tokens[token_idx(w.tokens, tok)].fail_count == next_fail_count(v, tok)
            &&& failed_notices(v, tok, max_failures).len() == 0
        }),
{
    crate::db::lemma_purge_removes_token(failure_spec(v, tok, now), tok);
    crate::db::lemma_poll_counts(v, tok, Seq::empty(), now);
    let i = token_idx(v.tokens, tok);
    assert(failure_spec(v, tok, now).tokens[i].token == tok);
}

/// No token is stored twice.
pub open spec fn tokens_unique(ts: Seq<TokenView>) -> bool {
    forall|a: int, b: int| 0 <= a < b < ts.len() ==> (#[trigger] ts[a]).token != (#[trigger] ts[b]).token
}

/// The row the store holds for token `t`, when it is stored.
pub open spec fn row_for(v: StoreView, t: Seq<char>) -> Option<TokenView> {
    if has_token(v.tokens, t) {
        Some(v.tokens[token_idx(v.tokens, t)])
    } else {
        None
    }
}

/// The subscriptions to token `t`, in order.
pub open spec fn subs_for(v: StoreView, t: Seq<char>) -> Seq<SubView> {
    v.subs.filter(|s: SubView| s.token == t)
}

/// `w` holds for token `t` the same row and the same subscriptions as `v`.
pub open spec fn unchanged_for(v: StoreView, w: StoreView, t: Seq<char>) -> bool {
    row_for(w, t) == row_for(v, t) && subs_for(w, t) == subs_for(v, t)
}

proof fn lemma_row_after_update(ts: Seq<TokenView>, i: int, u: TokenView, t: Seq<char>)
    requires
        tokens_unique(ts),
        0 <= i < ts.len(),
        u.token == ts[i].token,
        ts[i].token != t,
    ensures
        tokens_unique(ts.update(i, u)),
        has_token(ts.update(i, u), t) == has_token(ts, t),
        has_token(ts, t) ==> ts.update(i, u)[token_idx(ts.update(i, u), t)] == ts[token_idx(ts, t)],
{
    let ts2 = ts.update(i, u);
    assert forall|a: int, b: int| 0 <= a < b < ts2.len() implies (#[trigger] ts2[a]).token != (#[trigger] ts2[b]).token by {
        assert(ts2[a].token == ts[a].token);
        assert(ts2[b].token == ts[b].token);
    }
    if has_token(ts, t) {
        let k = token_idx(ts, t);
        assert(k != i);
        assert(ts2[k] == ts[k]);
        lemma_token_idx(ts2, k);
    }
    if has_token(ts2, t) {
        let k = choose|k: int| 0 <= k < ts2.len() && (#[trigger] ts2[k]).token == t;
        assert(k != i);
        assert(ts[k] == ts2[k]);
    }
}

proof fn lemma_row_after_filter(ts: Seq<TokenView>, p: spec_fn(TokenView) -> bool, t: Seq<char>)
    requires
        tokens_unique(ts),
        forall|k: int| 0 <= k < ts.len() && (#[trigger] ts[k]).token == t ==> p(ts[k]),
    ensures
        tokens_unique(ts.filter(p)),
        has_token(ts.filter(p), t) == has_token(ts, t),
        has_token(ts, t) ==> ts.filter(p)[token_idx(ts.filter(p), t)] == ts[token_idx(ts, t)],
{
    let f = ts.filter(p);
    lemma_filter_tokens_unique(ts, p);
    if has_token(ts, t) {
        let k = token_idx(ts, t);
        ts.lemma_filter_contains(p, k);
        let j = choose|j: int| 0 <= j < f.len() && f[j] == ts[k];
        lemma_token_idx(f, j);
    }
    if has_token(f, t) {
        let j = choose|j: int| 0 <= j < f.len() && (#[trigger] f[j]).token == t;
        assert(f.contains(f[j]));
        ts.lemma_filter_contains_rev(p, f[j]);
        let k = choose|k: int| 0 <= k < ts.len() && ts[k] == f[j];
        assert(ts[k].token == t);
    }
}

proof fn lemma_filter_of_filter(ss: Seq<SubView>, q: spec_fn(SubView) -> bool, pt: spec_fn(SubView) -> bool)
    requires
        forall|s: SubView| #[trigger] pt(s) ==> q(s),
    ensures
        ss.filter(q).filter(pt) == ss.filter(pt),
    decreases ss.len(),
{
    reveal(Seq::filter);
    if ss.len() > 0 {
        let init = ss.drop_last();
        lemma_filter_of_filter(init, q, pt);
        if q(ss.last()) {
            assert(ss.filter(q) == init.filter(q).push(ss.last()));
            init.filter(q).lemma_filter_push(ss.last(), pt);
        }
    }
}

/// A successful poll of one token leaves every other token's row and
/// subscriptions as they were.
pub proof fn lemma_success_leaves_others(v: StoreView, tok: Seq<char>, snap: Fields, now: i64, t: Seq<char>)
    requires
        tokens_unique(v.tokens),
        t != tok,
    ensures
        unchanged_for(v, success_spec(v, tok, snap, now), t),
        tokens_unique(success_spec(v, tok, snap, now).tokens),
{
    if has_token(v.tokens, tok) {
        let i = token_idx(v.tokens, tok);
        let w = success_spec(v, tok, snap, now);
        lemma_row_after_update(v.tokens, i, w.tokens[i], t);
        assert(w.tokens == v.tokens.update(i, w.tokens[i]));
    }
}

/// A failed poll of one stored token leaves every other token's row and
/// subscriptions as they were.
pub proof fn lemma_failure_leaves_others(v: StoreView, tok: Seq<char>, now: i64, t: Seq<char>)
    requires
        tokens_unique(v.tokens),
        has_token(v.tokens, tok),
        t != tok,
    ensures
        unchanged_for(v, failure_spec(v, tok, now), t),
        tokens_unique(failure_spec(v, tok, now).tokens),
{
    let i = token_idx(v.tokens, tok);
    let w = failure_spec(v, tok, now);
    lemma_row_after_update(v.tokens, i, w.tokens[i], t);
    assert(w.tokens == v.tokens.update(i, w.tokens[i]));
}

/// Purging one token leaves every other token's row and subscriptions as they were.
pub proof fn lemma_purge_leaves_others(v: StoreView, tok: Seq<char>, t: Seq<char>)
    requires
        tokens_unique(v.tokens),
        t != tok,
    ensures
        unchanged_for(v, purge_spec(v, tok), t),
        tokens_unique(purge_spec(v, tok).tokens),
{
    lemma_row_after_filter(v.tokens, |x: TokenView| x.token != tok, t);
    lemma_filter_of_filter(v.subs, |s: SubView| s.token != tok, |s: SubView| s.token == t);
}

/// Removing a subscription to one token leaves every other token's row and
/// subscriptions as they were.
pub proof fn lemma_unsubscribe_leaves_others(v: StoreView, user: i64, tok: Seq<char>, t: Seq<char>)
    requires
        tokens_unique(v.tokens),
        t != tok,
    ensures
        unchanged_for(v, unsubscribe_spec(v, user, tok), t),
        tokens_unique(unsubscribe_spec(v, user, tok).tokens),
{
    if has_sub(v.subs, user, tok) {
        let q = |s: SubView| !(s.user_id == user && s.token == tok);
        lemma_filter_of_filter(v.subs, q, |s: SubView| s.token == t);
        if !token_followed(v.subs.filter(q), tok) {
            lemma_row_after_filter(v.tokens, |x: TokenView| x.token != tok, t);
        }
    }
}

/// The expiry sweep leaves a token that has not expired as it was: its row
/// and its subscriptions.
pub proof fn lemma_sweep_keeps_live_token(v: StoreView, now: i64, ttl_hours: i64, t: Seq<char>)
    requires
        store_wf(v),
        row_for(v, t) matches Some(r) ==> !expired(r, now, ttl_hours),
    ensures
        unchanged_for(v, sweep_spec(v, now, ttl_hours), t),
{
    let pe = |x: TokenView| !expired(x, now, ttl_hours);
    assert forall|k: int| 0 <= k < v.tokens.len() && (#[trigger] v.tokens[k]).token == t implies pe(v.tokens[k]) by {
        lemma_token_idx(v.tokens, k);
    }
    lemma_row_after_filter(v.tokens, pe, t);
    let q = |s: SubView| !token_expired(v.tokens, s.token, now, ttl_hours);
    assert forall|s: SubView| s.token == t implies #[trigger] q(s) by {
        if token_expired(v.tokens, t, now, ttl_hours) {
            let k = choose|k: int| 0 <= k < v.tokens.len() && (#[trigger] v.tokens[k]).token == t && expired(v.tokens[k], now, ttl_hours);
            lemma_token_idx(v.tokens, k);
        }
    }
    lemma_filter_of_filter(v.subs, q, |s: SubView| s.token == t);
}

/// A token that is not due on `tick` is not among the rows polled on it.
pub proof fn lemma_not_due_not_polled(v: StoreView, tick: u64, n: u64, t: Seq<char>)
    requires
        tokens_unique(v.tokens),
        row_for(v, t) matches Some(r) ==> !is_due_spec(tick, t, r.rand, n),
    ensures
        forall|k: int| 0 <= k < due_spec(v, tick, n).len() ==> (#[trigger] due_spec(v, tick, n)[k]).token != t,
{
    let p = |x: TokenView| is_due_spec(tick, x.token, x.rand, n);
    let f = v.tokens.filter(p);
    assert forall|k: int| 0 <= k < due_spec(v, tick, n).len() implies (#[trigger] due_spec(v, tick, n)[k]).token != t by {
        assert(due_spec(v, tick, n)[k] == row_of(f[k]));
        v.tokens.lemma_filter_pred(p, k);
        assert(f.contains(f[k]));
        v.tokens.lemma_filter_contains_rev(p, f[k]);
        let j = choose|j: int| 0 <= j < v.tokens.len() && v.tokens[j] == f[k];
        if f[k].token == t {
            lemma_token_idx(v.tokens, j);
        }
    }
}

proof fn lemma_unsub_refused_leaves_others(
    v: StoreView,
    tok: Seq<char>,
    recips: Seq<(i64, i64)>,
    refused: Seq<bool>,
    t: Seq<char>,
)
    requires
        tokens_unique(v.tokens),
        t != tok,
    ensures
        unchanged_for(v, unsub_refused(v, tok, recips, refused), t),
        tokens_unique(unsub_refused(v, tok, recips, refused).tokens),
    decreases recips.len(),
{
    if recips.len() > 0 && refused.len() > 0 {
        let w = unsub_refused(v, tok, recips.drop_last(), refused.drop_last());
        lemma_unsub_refused_leaves_others(v, tok, recips.drop_last(), refused.drop_last(), t);
        if refused.last() {
            lemma_unsubscribe_leaves_others(w, recips.last().0, tok, t);
        }
    }
}

/// The poll of one token, whatever its outcome, leaves every other token's
/// row and subscriptions as they were: recording a result (and purging a
/// completed order), unsubscribing the chats that refused its update, or
/// counting a failure (and purging at the limit).
pub proof fn lemma_poll_leaves_others(
    v: StoreView,
    tok: Seq<char>,
    res: Fields,
    now: i64,
    max_failures: i64,
    recips: Seq<(i64, i64)>,
    refused: Seq<bool>,
    t: Seq<char>,
)
    requires
        store_wf(v),
        t != tok,
    ensures
        unchanged_for(v, settled_store(v, tok, res, now), t),
        unchanged_for(v, unsub_refused(v, tok, recips, refused), t),
        has_token(v.tokens, tok) ==> unchanged_for(v, failed_store(v, tok, now, max_failures), t),
{
    lemma_success_leaves_others(v, tok, res, now, t);
    lemma_purge_leaves_others(success_spec(v, tok, res, now), tok, t);
    lemma_unsub_refused_leaves_others(v, tok, recips, refused, t);
    if has_token(v.tokens, tok) {
        lemma_failure_leaves_others(v, tok, now, t);
        lemma_purge_leaves_others(failure_spec(v, tok, now), tok, t);
    }
}

proof fn lemma_nothing_refused(v: StoreView, tok: Seq<char>, recips: Seq<(i64, i64)>, refused: Seq<bool>)
    requires
        forall|i: int| 0 <= i < refused.len() ==> !refused[i],
    ensures
        unsub_refused(v, tok, recips, refused) == v,
    decreases recips.len(),
{
    if recips.len() > 0 && refused.len() > 0 {
        assert(!refused[refused.len() - 1]);
        lemma_nothing_refused(v, tok, recips.drop_last(), refused.drop_last());
    }
}

/// A poll of a stored order that is not completed, once every follower got
/// its update (no chat refused it), ends with the result stored as the
/// token's snapshot, the poll time recorded and the failure count reset; the
/// followers stay and nothing more is sent.
pub proof fn lemma_open_order_poll_recorded(
    v: StoreView,
    tok: Seq<char>,
    res: Fields,
    now: i64,
    recips: Seq<(i64, i64)>,
    refused: Seq<bool>,
)
    requires
        store_wf(v),
        has_token(v.tokens, tok),
        !status_is(res, "COMPLETED"@),
        forall|i: int| 0 <= i < refused.len() ==> !refused[i],
    ensures
        unsub_refused(v, tok, recips, refused) == v,
        ({
            let w = settled_store(v, tok, res, now);
            let r = w.tokens[token_idx(w.tokens, tok)];
            &&& has_token(w.tokens, tok)
            &&& r.last_snapshot == Some(res)
            &&& r.last_polled_at == Some(now)
            &&& r.fail_count == 0
            &&& r.created_at == v.tokens[token_idx(v.tokens, tok)].created_at
            &&& w.subs == v.subs
        }),
        settled_notices(v, tok, res, now).len() == 0,
{
    lemma_nothing_refused(v, tok, recips, refused);
    crate::db::lemma_poll_counts(v, tok, res, now);
    let i = token_idx(v.tokens, tok);
    let w = success_spec(v, tok, res, now);
    assert(w.tokens[i].token == tok);
}

/// What the store makes of one due row of a round, given what its poll gave
/// (`Some` result when the response was usable, `None` on a failure) and
/// which followers' chats refused its update: what `begin_poll`, and after
/// an update `finish_poll`, do.
pub open spec fn poll_store(
    cur: StoreView,
    row: TokenRowView,
    outcome: Option<Fields>,
    refused: Seq<bool>,
    now: i64,
    max_failures: i64,
) -> StoreView {
    let tok = row.token;
    match outcome {
        Some(res) => match row.last_snapshot {
            Some(prev) => if is_diff(prev, res, Seq::empty()) {
                settled_store(cur, tok, res, now)
            } else {
                settled_store(unsub_refused(cur, tok, subs_of(cur.subs, tok), refused), tok, res, now)
            },
            None => settled_store(cur, tok, res, now),
        },
        None => failed_store(cur, tok, now, max_failures),
    }
}

/// The store accepts the poll: always with a usable result; a failure only
/// for a stored token whose count can still grow (else `begin_poll` errs
/// and the round stops).
pub open spec fn poll_accepted(cur: StoreView, row: TokenRowView, outcome: Option<Fields>) -> bool {
    outcome is Some || (has_token(cur.tokens, row.token) && cur.tokens[token_idx(cur.tokens, row.token)].fail_count
        < i64::MAX)
}

/// The store after the polls of `rows` in order, the i-th with `outcomes[i]`
/// and `refusals[i]`; the polls stop at the first one the store refuses.
pub open spec fn polls_run(
    v: StoreView,
    rows: Seq<TokenRowView>,
    outcomes: Seq<Option<Fields>>,
    refusals: Seq<Seq<bool>>,
    now: i64,
    max_failures: i64,
) -> StoreView
    decreases rows.len(), 0int,
{
    if rows.len() == 0 {
        v
    } else {
        let k = rows.len() - 1;
        let w = polls_run(v, rows.drop_last(), outcomes, refusals, now, max_failures);
        if polls_ok(v, rows.drop_last(), outcomes, refusals, now, max_failures) && poll_accepted(
            w,
            rows[k],
            outcomes[k],
        ) {
            poll_store(w, rows[k], outcomes[k], refusals[k], now, max_failures)
        } else {
            w
        }
    }
}

/// Every poll of `rows` was accepted by the store.
pub open spec fn polls_ok(
    v: StoreView,
    rows: Seq<TokenRowView>,
    outcomes: Seq<Option<Fields>>,
    refusals: Seq<Seq<bool>>,
    now: i64,
    max_failures: i64,
) -> bool
    decreases rows.len(), 1int,
{
    if rows.len() == 0 {
        true
    } else {
        polls_ok(v, rows.drop_last(), outcomes, refusals, now, max_failures) && poll_accepted(
            polls_run(v, rows.drop_last(), outcomes, refusals, now, max_failures),
            rows[rows.len() - 1],
            outcomes[rows.len() - 1],
        )
    }
}

/// The store after a whole round at `tick` with the clock at `now`: the
/// expiry sweep, then the polls of the rows due on `tick`, in store order.
pub open spec fn round_store(
    v: StoreView,
    tick: u64,
    n: u64,
    ttl_hours: i64,
    now: i64,
    max_failures: i64,
    outcomes: Seq<Option<Fields>>,
    refusals: Seq<Seq<bool>>,
) -> StoreView {
    let sw = sweep_spec(v, now, ttl_hours);
    polls_run(sw, due_spec(sw, tick, n), outcomes, refusals, now, max_failures)
}

proof fn lemma_settled_frame(x: StoreView, tok: Seq<char>, res: Fields, now: i64, t: Seq<char>)
    requires
        tokens_unique(x.tokens),
        t != tok,
    ensures
        unchanged_for(x, settled_store(x, tok, res, now), t),
        tokens_unique(settled_store(x, tok, res, now).tokens),
{
    lemma_success_leaves_others(x, tok, res, now, t);
    lemma_purge_leaves_others(success_spec(x, tok, res, now), tok, t);
}

proof fn lemma_poll_store_frame(
    cur: StoreView,
    row: TokenRowView,
    outcome: Option<Fields>,
    refused: Seq<bool>,
    now: i64,
    max_failures: i64,
    t: Seq<char>,
)
    requires
        tokens_unique(cur.tokens),
        row.token != t,
        poll_accepted(cur, row, outcome),
    ensures
        unchanged_for(cur, poll_store(cur, row, outcome, refused, now, max_failures), t),
        tokens_unique(poll_store(cur, row, outcome, refused, now, max_failures).tokens),
{
    let tok = row.token;
    match outcome {
        Some(res) => {
            let u = unsub_refused(cur, tok, subs_of(cur.subs, tok), refused);
            lemma_unsub_refused_leaves_others(cur, tok, subs_of(cur.subs, tok), refused, t);
            lemma_settled_frame(u, tok, res, now, t);
            lemma_settled_frame(cur, tok, res, now, t);
        },
        None => {
            lemma_failure_leaves_others(cur, tok, now, t);
            lemma_purge_leaves_others(failure_spec(cur, tok, now), tok, t);
        },
    }
}

proof fn lemma_polls_frame_from(
    v: StoreView,
    rows: Seq<TokenRowView>,
    outcomes: Seq<Option<Fields>>,
    refusals: Seq<Seq<bool>>,
    now: i64,
    max_failures: i64,
    a: int,
    t: Seq<char>,
)
    requires
        0 <= a <= rows.len(),
        tokens_unique(polls_run(v, rows.take(a), outcomes, refusals, now, max_failures).tokens),
        forall|k: int| a <= k < rows.len() ==> (#[trigger] rows[k]).token != t,
    ensures
        unchanged_for(
            polls_run(v, rows.take(a), outcomes, refusals, now, max_failures),
            polls_run(v, rows, outcomes, refusals, now, max_failures),
            t,
        ),
        tokens_unique(polls_run(v, rows, outcomes, refusals, now, max_failures).tokens),
    decreases rows.len(),
{
    if rows.len() == a {
        assert(rows.take(a) =~= rows);
    } else {
        let init = rows.drop_last();
        assert(init.take(a) =~= rows.take(a));
        assert forall|k: int| a <= k < init.len() implies (#[trigger] init[k]).token != t by {
            assert(init[k] == rows[k]);
        }
        lemma_polls_frame_from(v, init, outcomes, refusals, now, max_failures, a, t);
        let k = rows.len() - 1;
        let w = polls_run(v, init, outcomes, refusals, now, max_failures);
        if polls_ok(v, init, outcomes, refusals, now, max_failures) && poll_accepted(w, rows[k], outcomes[k]) {
            lemma_poll_store_frame(w, rows[k], outcomes[k], refusals[k], now, max_failures, t);
        }
    }
}

proof fn lemma_sweep_tokens_unique(v: StoreView, now: i64, ttl_hours: i64)
    requires
        store_wf(v),
    ensures
        tokens_unique(sweep_spec(v, now, ttl_hours).tokens),
{
    lemma_filter_tokens_unique(v.tokens, |t: TokenView| !expired(t, now, ttl_hours));
}

/// A token that is neither expired nor due is left alone by a whole round:
/// it is not swept, not polled (so not fetched and not announced), and its
/// row and subscriptions are as they were, whatever the polls of the other
/// tokens gave.
pub proof fn lemma_round_leaves_idle_token(
    v: StoreView,
    tick: u64,
    n: u64,
    ttl_hours: i64,
    now: i64,
    max_failures: i64,
    outcomes: Seq<Option<Fields>>,
    refusals: Seq<Seq<bool>>,
    t: Seq<char>,
)
    requires
        store_wf(v),
        row_for(v, t) matches Some(r) ==> !expired(r, now, ttl_hours) && !is_due_spec(tick, t, r.rand, n),
    ensures
        forall|k: int| 0 <= k < sweep_result(v, now, ttl_hours).len() ==> (#[trigger] sweep_result(
            v,
            now,
            ttl_hours,
        )[k]).token != t,
        forall|k: int|
            0 <= k < due_spec(sweep_spec(v, now, ttl_hours), tick, n).len() ==> (#[trigger] due_spec(
                sweep_spec(v, now, ttl_hours),
                tick,
                n,
            )[k]).token != t,
        unchanged_for(v, round_store(v, tick, n, ttl_hours, now, max_failures, outcomes, refusals), t),
{
    let sw = sweep_spec(v, now, ttl_hours);
    let rows = due_spec(sw, tick, n);
    let pe = |x: TokenView| expired(x, now, ttl_hours);
    let f = v.tokens.filter(pe);
    assert forall|k: int| 0 <= k < sweep_result(v, now, ttl_hours).len() implies (#[trigger] sweep_result(
        v,
        now,
        ttl_hours,
    )[k]).token != t by {
        v.tokens.lemma_filter_pred(pe, k);
        assert(f.contains(f[k]));
        v.tokens.lemma_filter_contains_rev(pe, f[k]);
        let j = choose|j: int| 0 <= j < v.tokens.len() && v.tokens[j] == f[k];
        if f[k].token == t {
            lemma_token_idx(v.tokens, j);
        }
    }
    lemma_sweep_keeps_live_token(v, now, ttl_hours, t);
    lemma_sweep_tokens_unique(v, now, ttl_hours);
    lemma_not_due_not_polled(sw, tick, n, t);
    assert(rows.take(0) =~= Seq::<TokenRowView>::empty());
    lemma_polls_frame_from(sw, rows, outcomes, refusals, now, max_failures, 0, t);
}

/// In a round, the poll of a due order that is not completed, with a usable
/// result and no chat refusing its update, starts from the row the sweep
/// left (so its update, when the result differs, goes once to each of the
/// token's followers then), and after the whole round the token holds that
/// result as its snapshot, the poll time, a failure count of zero, and the
/// same followers.
pub proof fn lemma_round_records_poll(
    v: StoreView,
    tick: u64,
    n: u64,
    ttl_hours: i64,
    now: i64,
    max_failures: i64,
    outcomes: Seq<Option<Fields>>,
    refusals: Seq<Seq<bool>>,
    k: int,
    res: Fields,
)
    requires
        store_wf(v),
        0 <= k < due_spec(sweep_spec(v, now, ttl_hours), tick, n).len(),
        k < outcomes.len(),
        k < refusals.len(),
        outcomes[k] == Some(res),
        !status_is(res, "COMPLETED"@),
        forall|i: int| 0 <= i < refusals[k].len() ==> !refusals[k][i],
        polls_ok(
            sweep_spec(v, now, ttl_hours),
            due_spec(sweep_spec(v, now, ttl_hours), tick, n).take(k + 1),
            outcomes,
            refusals,
            now,
            max_failures,
        ),
    ensures
        ({
            let sw = sweep_spec(v, now, ttl_hours);
            let rows = due_spec(sw, tick, n);
            let tok = rows[k].token;
            let before = polls_run(sw, rows.take(k), outcomes, refusals, now, max_failures);
            let w = round_store(v, tick, n, ttl_hours, now, max_failures, outcomes, refusals);
            &&& row_for(sw, tok) matches Some(r0) && row_of(r0) == rows[k]
            &&& row_for(before, tok) == row_for(sw, tok)
            &&& subs_of(before.subs, tok) == subs_of(sw.subs, tok)
            &&& row_for(w, tok) matches Some(r) && r.last_snapshot == Some(res) && r.last_polled_at == Some(now)
                && r.fail_count == 0
            &&& subs_for(w, tok) == subs_for(sw, tok)
        }),
{
    let sw = sweep_spec(v, now, ttl_hours);
    let rows = due_spec(sw, tick, n);
    let tok = rows[k].token;
    let p = |x: TokenView| is_due_spec(tick, x.token, x.rand, n);
    let f = sw.tokens.filter(p);
    lemma_sweep_tokens_unique(v, now, ttl_hours);
    lemma_filter_tokens_unique(sw.tokens, p);
    // the due rows carry distinct tokens, each stored after the sweep
    assert forall|i: int| 0 <= i < rows.len() && i != k implies (#[trigger] rows[i]).token != tok by {
        assert(rows[i] == row_of(f[i]));
        assert(rows[k] == row_of(f[k]));
        if i < k {
            assert(f[i].token != f[k].token);
        } else {
            assert(f[k].token != f[i].token);
        }
    }
    assert(f.contains(f[k]));
    sw.tokens.lemma_filter_contains_rev(p, f[k]);
    let j = choose|j: int| 0 <= j < sw.tokens.len() && sw.tokens[j] == f[k];
    lemma_token_idx(sw.tokens, j);
    assert(row_of(sw.tokens[j]) == rows[k]);
    // up to the poll of `tok`, its row and followers are those the sweep left
    let pre = rows.take(k);
    assert(pre.take(0) =~= Seq::<TokenRowView>::empty());
    assert forall|i: int| 0 <= i < pre.len() implies (#[trigger] pre[i]).token != tok by {
        assert(pre[i] == rows[i]);
    }
    lemma_polls_frame_from(sw, pre, outcomes, refusals, now, max_failures, 0, tok);
    let before = polls_run(sw, pre, outcomes, refusals, now, max_failures);
    assert(has_token(before.tokens, tok));
    // the poll itself records the result
    let upto = rows.take(k + 1);
    assert(upto.drop_last() =~= pre);
    assert(upto[k] == rows[k]);
    lemma_nothing_refused(before, tok, subs_of(before.subs, tok), refusals[k]);
    let after = success_spec(before, tok, res, now);
    assert(polls_run(sw, upto, outcomes, refusals, now, max_failures) == after);
    let bi = token_idx(before.tokens, tok);
    lemma_row_after_update_same(before.tokens, bi, after.tokens[bi]);
    assert(after.tokens == before.tokens.update(bi, after.tokens[bi]));
    // later polls leave it alone
    assert forall|i: int| k + 1 <= i < rows.len() implies (#[trigger] rows[i]).token != tok by {}
    lemma_polls_frame_from(sw, rows, outcomes, refusals, now, max_failures, k + 1, tok);
}

proof fn lemma_row_after_update_same(ts: Seq<TokenView>, i: int, u: TokenView)
    requires
        tokens_unique(ts),
        0 <= i < ts.len(),
        u.token == ts[i].token,
    ensures
        tokens_unique(ts.update(i, u)),
        has_token(ts.update(i, u), u.token),
        token_idx(ts.update(i, u), u.token) == i,
{
    let ts2 = ts.update(i, u);
    assert forall|a: int, b: int| 0 <= a < b < ts2.len() implies (#[trigger] ts2[a]).token != (#[trigger] ts2[b]).token by {
        assert(ts2[a].token == ts[a].token);
        assert(ts2[b].token == ts[b].token);
    }
    lemma_token_idx(ts2, i);
}

/// The notices when a poll finds the order completed: one per follower, in
/// order, each telling that chat `✅ 订单 <order> 已完成，停止追踪`, where the
/// order is the result's `order_id` text, else the token.
pub proof fn lemma_completion_notice_names_order(v: StoreView, tok: Seq<char>, res: Fields, now: i64)
    requires
        status_is(res, "COMPLETED"@),
    ensures
        ({
            let subs = subs_of(success_spec(v, tok, res, now).subs, tok);
            let o = match lookup(res, "order_id"@) {
                Some(ValueView::Text(s)) => s,
                _ => tok,
            };
            let ns = settled_notices(v, tok, res, now);
            &&& ns.len() == subs.len()
            &&& forall|i: int|
                0 <= i < ns.len() ==> #[trigger] ns[i] == NoticeView {
                    chat_id: subs[i].1,
                    text: "✅ 订单 "@ + o + " 已完成，停止追踪"@,
                }
        }),
{
}

/// The notices when a failed poll reaches the failure limit: one per
/// follower, in order, each telling that chat `❌ <token> 持续查询失败，已停止追踪`;
/// below the limit there are none.
pub proof fn lemma_failure_notice_names_token(v: StoreView, tok: Seq<char>, max_failures: i64)
    ensures
        ({
            let subs = subs_of(v.subs, tok);
            let ns = failed_notices(v, tok, max_failures);
            &&& next_fail_count(v, tok) >= max_failures ==> ns.len() == subs.len() && forall|i: int|
                0 <= i < ns.len() ==> #[trigger] ns[i] == NoticeView {
                    chat_id: subs[i].1,
                    text: "❌ "@ + tok + " 持续查询失败，已停止追踪"@,
                }
            &&& next_fail_count(v, tok) < max_failures ==> ns.len() == 0
        }),
{
}

} // verus!
