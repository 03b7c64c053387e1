use vstd::prelude::*;
use crate::db::{
    AddResult, StoreView, TrackStore, UnsubResult, UserRowView, UserTokenRow, add_spec,
    failure_spec, has_sub, has_token, list_spec, store_first_spec, store_wf, stored_snapshot,
    token_idx, unsubscribe_spec,
};
use crate::model::{
    ApiResponse, Fields, is_completed_status, is_unknown_status, render_status, render_status_spec, render_summary,
    render_summary_spec, status_is,
};
use crate::text::{int_text, int_to_string, trim_end_seq, trim_end_str, trim_seq, trim_str};
use crate::tick::{fetch_usable, fetched_result};
use crate::sys::{now_ts, random_i64};

verus! {

/// The bot's commands.
#[derive(Debug, Clone, PartialEq)]
pub enum Command {
    Start,
    Help,
    List,
    Stop(String),
}

/// The help text.
pub open spec fn help_spec() -> Seq<char> {
    "发我 T&T 配送 token 或追踪链接即可开始追踪，例如:\n`3abc128856`\n`https://tmstracking.tntsupermarket.us/#/3abc128856`\n\n/list 查看在追订单\n/stop <token> 停止追踪"@
}

/// The help text, also the reply to a message without a token.
pub fn help_text() -> (r: &'static str)
    ensures
        r@ == help_spec(),
{
    "发我 T&T 配送 token 或追踪链接即可开始追踪，例如:\n`3abc128856`\n`https://tmstracking.tntsupermarket.us/#/3abc128856`\n\n/list 查看在追订单\n/stop <token> 停止追踪"
}

/// Reply to a subscriber who is already tracking the order.
pub open spec fn already_text(res: Fields) -> Seq<char> {
    "你已在追踪，当前状态如下\n"@ + render_status_spec(res)
}

pub open spec fn unknown_text() -> Seq<char> {
    "⚠️ 该订单当前状态为 UNKNOWN(可能 token 无效或订单尚未生成)，未加入追踪;请确认 token 或稍后重试"@
}

/// Reply to a token whose order is already complete: it is not tracked.
pub open spec fn completed_join_text() -> Seq<char> {
    "✅ 该订单状态已为 COMPLETED(已完成)，未加入追踪"@
}

pub open spec fn retry_text(max_failures: i64) -> Seq<char> {
    "已加入追踪，但当前查询失败，将自动重试;连续失败 "@ + int_text(max_failures as int) + " 次后停止"@
}

/// The store after a user sends a token, given the poll of it, the random
/// value for a new token and the time: an UNKNOWN or COMPLETED status adds
/// nothing, though a follower's re-send still renews the token's time to
/// live; any other usable result adds the subscription (storing the result as the
/// first snapshot of a newly followed token that has none); an unusable one
/// adds the subscription and counts a failed poll.
pub open spec fn join_store(
    v: StoreView,
    user: i64,
    chat: i64,
    tok: Seq<char>,
    usable: bool,
    res: Fields,
    rand: i64,
    now: i64,
) -> StoreView {
    let added = add_spec(v, user, chat, tok, rand, now);
    if usable {
        if status_is(res, "UNKNOWN"@) || status_is(res, "COMPLETED"@) {
            if has_sub(v.subs, user, tok) {
                added
            } else {
                v
            }
        } else if !has_sub(v.subs, user, tok) && stored_snapshot(v.tokens, tok) is None {
            store_first_spec(added, tok, res, now)
        } else {
            added
        }
    } else if added.tokens[token_idx(added.tokens, tok)].fail_count < i64::MAX {
        failure_spec(added, tok, now)
    } else {
        added
    }
}

/// The reply to a user who sends a token.
pub open spec fn join_reply(
    v: StoreView,
    user: i64,
    tok: Seq<char>,
    usable: bool,
    res: Fields,
    max_failures: i64,
) -> Seq<char> {
    if usable {
        if status_is(res, "UNKNOWN"@) {
            if has_sub(v.subs, user, tok) {
                already_text(res)
            } else {
                unknown_text()
            }
        } else if status_is(res, "COMPLETED"@) {
            if has_sub(v.subs, user, tok) {
                already_text(res)
            } else {
                completed_join_text()
            }
        } else if has_sub(v.subs, user, tok) {
            already_text(res)
        } else {
            render_status_spec(res)
        }
    } else {
        retry_text(max_failures)
    }
}

/// The join flow for a token a user sent, once its poll is in, with the
/// random value for a new token and the time given.
pub fn join_token(
    store: &mut TrackStore,
    max_failures: i64,
    user_id: i64,
    chat_id: i64,
    token: &str,
    fetched: Result<ApiResponse, String>,
    rand: i64,
    now: i64,
) -> (reply: String)
    ensures
        store_wf(final(store)@),
        final(store)@ == join_store(
            old(store)@,
            user_id,
            chat_id,
            token@,
            fetch_usable(fetched),
            fetched_result(fetched),
            rand,
            now,
        ),
        reply@ == join_reply(
            old(store)@,
            user_id,
            token@,
            fetch_usable(fetched),
            fetched_result(fetched),
            max_failures,
        ),
{
    proof {
        use_type_invariant(&*store);
    }
    let ghost v = store@;
    let ghost fv = fetched;
    let usable = match fetched {
        Ok(resp) => if resp.err == 0 {
            resp.result
        } else {
            None
        },
        Err(_) => None,
    };
    match usable {
        Some(result) => {
            assert(fetch_usable(fv) && result@ == fetched_result(fv));
            if is_unknown_status(&result) {
                if store.is_subscribed(user_id, token) {
                    store.add_subscription(user_id, chat_id, String::from_str(token), rand, now);
                    let mut s = String::from_str("你已在追踪，当前状态如下\n");
                    let st = render_status(&result);
                    s.append(st.as_str());
                    return s;
                }
                return String::from_str(
                    "⚠️ 该订单当前状态为 UNKNOWN(可能 token 无效或订单尚未生成)，未加入追踪;请确认 token 或稍后重试",
                );
            }
            if is_completed_status(&result) {
                if store.is_subscribed(user_id, token) {
                    store.add_subscription(user_id, chat_id, String::from_str(token), rand, now);
                    let mut s = String::from_str("你已在追踪，当前状态如下\n");
                    let st = render_status(&result);
                    s.append(st.as_str());
                    return s;
                }
                return String::from_str("✅ 该订单状态已为 COMPLETED(已完成)，未加入追踪");
            }
            match store.add_subscription(user_id, chat_id, String::from_str(token), rand, now) {
                AddResult::Added { snapshot } => {
                    let reply = render_status(&result);
                    if snapshot.is_none() {
                        store.store_snapshot_if_null(token, result, now);
                    }
                    reply
                },
                AddResult::AlreadySubscribed { .. } => {
                    let mut s = String::from_str("你已在追踪，当前状态如下\n");
                    let st = render_status(&result);
                    s.append(st.as_str());
                    s
                },
            }
        },
        None => {
            assert(!fetch_usable(fv));
            store.add_subscription(user_id, chat_id, String::from_str(token), rand, now);
            proof {
                let w = store@;
                assert(has_token(w.tokens, token@)) by {
                    if has_token(v.tokens, token@) {
                        let i = token_idx(v.tokens, token@);
                        assert(w.tokens[i].token == token@);
                    } else {
                        assert(w.tokens[w.tokens.len() - 1].token == token@);
                    }
                }
            }
            let _ = store.record_poll_failure(token, now);
            let mut s = String::from_str("已加入追踪，但当前查询失败，将自动重试;连续失败 ");
            let m = int_to_string(max_failures as i128);
            s.append(m.as_str());
            s.append(" 次后停止");
            s
        },
    }
}

/// Handle a token a user sent, once its poll is in: draw the random value a
/// new token keeps, read the clock, and run the join flow.
/// Reading the clock panics if the system clock is outside chrono's range
/// (before 1970 or too far ahead); no argument can cause or avoid that.
/// Drawing the random value panics if the operating system's random source
/// fails; that too is the machine's state, not an input.
pub fn handle_token(
    store: &mut TrackStore,
    max_failures: i64,
    user_id: i64,
    chat_id: i64,
    token: &str,
    fetched: Result<ApiResponse, String>,
) -> (reply: String)
    ensures
        store_wf(final(store)@),
        reply@ == join_reply(
            old(store)@,
            user_id,
            token@,
            fetch_usable(fetched),
            fetched_result(fetched),
            max_failures,
        ),
        exists|rand: i64, now: i64|
            final(store)@ == join_store(
                old(store)@,
                user_id,
                chat_id,
                token@,
                fetch_usable(fetched),
                fetched_result(fetched),
                rand,
                now,
            ),
{
    let now = now_ts();
    let rand = random_i64();
    join_token(store, max_failures, user_id, chat_id, token, fetched, rand, now)
}

/// The mathematical value of a `Command`.
pub enum CommandView {
    Start,
    Help,
    List,
    Stop(Seq<char>),
}

impl View for Command {
    type V = CommandView;

    open spec fn view(&self) -> CommandView {
        match self {
            Command::Start => CommandView::Start,
            Command::Help => CommandView::Help,
            Command::List => CommandView::List,
            Command::Stop(t) => CommandView::Stop(t@),
        }
    }
}

/// Integer division by 3600 rounding toward zero, as Rust's `/` does.
pub open spec fn hours_between(d: int) -> int {
    if d >= 0 {
        d / 3600
    } else {
        -((-d) / 3600)
    }
}

/// Hours a token has left: its time to live less the whole hours since it
/// was added, not below zero.
pub open spec fn remaining_hours(ttl_hours: i64, now: i64, created_at: i64) -> int {
    let r = ttl_hours - hours_between(now - created_at);
    if r > 0 {
        r
    } else {
        0
    }
}

/// One line of the list of tracked orders.
pub open spec fn list_line(row: UserRowView, ttl_hours: i64, now: i64) -> Seq<char> {
    "• "@ + row.token + " · "@ + match row.last_snapshot {
        Some(fs) => render_summary_spec(fs),
        None => "(尚无状态)"@,
    } + " · 剩余~"@ + int_text(remaining_hours(ttl_hours, now, row.created_at)) + "h\n"@
}

pub open spec fn list_lines(rows: Seq<UserRowView>, ttl_hours: i64, now: i64) -> Seq<char>
    decreases rows.len(),
{
    if rows.len() == 0 {
        Seq::empty()
    } else {
        list_lines(rows.drop_last(), ttl_hours, now) + list_line(rows.last(), ttl_hours, now)
    }
}

/// The reply to `/list`.
pub open spec fn list_reply(rows: Seq<UserRowView>, ttl_hours: i64, now: i64) -> Seq<char> {
    if rows.len() == 0 {
        "你当前没有在追踪的订单。"@
    } else {
        trim_end_seq("你在追踪:\n"@ + list_lines(rows, ttl_hours, now))
    }
}

/// The store after a command: only `/stop` with a token changes it.
pub open spec fn command_store(v: StoreView, user: i64, cmd: CommandView) -> StoreView {
    match cmd {
        CommandView::Stop(t) => if trim_seq(t).len() == 0 {
            v
        } else {
            unsubscribe_spec(v, user, trim_seq(t))
        },
        _ => v,
    }
}

/// The reply to a command.
pub open spec fn command_reply(v: StoreView, user: i64, cmd: CommandView, ttl_hours: i64, now: i64) -> Seq<char> {
    match cmd {
        CommandView::Start => help_spec(),
        CommandView::Help => help_spec(),
        CommandView::List => list_reply(list_spec(v, user), ttl_hours, now),
        CommandView::Stop(t) => if trim_seq(t).len() == 0 {
            "用法: /stop <token>"@
        } else if has_sub(v.subs, user, trim_seq(t)) {
            "已停止追踪 "@ + trim_seq(t)
        } else {
            "你未在追踪 "@ + trim_seq(t)
        },
    }
}

fn remaining_hours_exec(ttl_hours: i64, now: i64, created_at: i64) -> (r: i128)
    ensures
        r == remaining_hours(ttl_hours, now, created_at),
        r >= 0,
{
    let d: i128 = now as i128 - created_at as i128;
    let q: i128 = if d >= 0 {
        d / 3600
    } else {
        0 - ((0 - d) / 3600)
    };
    let r: i128 = ttl_hours as i128 - q;
    if r > 0 {
        r
    } else {
        0
    }
}

fn list_text(rows: &Vec<UserTokenRow>, ttl_hours: i64, now: i64) -> (s: String)
    ensures
        s@ == list_reply(rows@.map_values(|u: UserTokenRow| u@), ttl_hours, now),
{
    let ghost rv = rows@.map_values(|u: UserTokenRow| u@);
    let n = rows.len();
    if n == 0 {
        return String::from_str("你当前没有在追踪的订单。");
    }
    let mut s = String::from_str("你在追踪:\n");
    let ghost head = s@;
    let mut i: usize = 0;
    assert(rv.take(0) =~= Seq::<UserRowView>::empty());
    while i < n
        invariant
            n == rows@.len(),
            rv == rows@.map_values(|u: UserTokenRow| u@),
            i <= n,
            s@ == head + list_lines(rv.take(i as int), ttl_hours, now),
        decreases n - i,
    {
        let r = &rows[i];
        s.append("• ");
        s.append(r.token.as_str());
        s.append(" · ");
        match &r.last_snapshot {
            Some(snap) => {
                let sm = render_summary(snap);
                s.append(sm.as_str());
            },
            None => s.append("(尚无状态)"),
        }
        s.append(" · 剩余~");
        let h = int_to_string(remaining_hours_exec(ttl_hours, now, r.created_at));
        s.append(h.as_str());
        s.append("h\n");
        proof {
            assert(rv.take(i as int + 1).drop_last() =~= rv.take(i as int));
            assert(rv.take(i as int + 1).last() == r@);
        }
        i = i + 1;
    }
    assert(rv.take(n as int) =~= rv);
    String::from_str(trim_end_str(s.as_str()))
}

/// The reply to a command at time `now`, with `/stop` applied to the store.
pub fn reply_to_command(store: &mut TrackStore, ttl_hours: i64, user_id: i64, cmd: Command, now: i64) -> (reply: String)
    ensures
        store_wf(final(store)@),
        final(store)@ == command_store(old(store)@, user_id, cmd@),
        reply@ == command_reply(old(store)@, user_id, cmd@, ttl_hours, now),
{
    proof {
        use_type_invariant(&*store);
    }
    match cmd {
        Command::Start => String::from_str(help_text()),
        Command::Help => String::from_str(help_text()),
        Command::List => {
            let rows = store.list_user(user_id);
            list_text(&rows, ttl_hours, now)
        },
        Command::Stop(tok) => {
            let t = trim_str(tok.as_str());
            if t.unicode_len() == 0 {
                String::from_str("用法: /stop <token>")
            } else {
                match store.unsubscribe(user_id, t) {
                    UnsubResult::Removed => {
                        let mut s = String::from_str("已停止追踪 ");
                        s.append(t);
                        s
                    },
                    UnsubResult::NotSubscribed => {
                        let mut s = String::from_str("你未在追踪 ");
                        s.append(t);
                        s
                    },
                }
            }
        },
    }
}

/// Answer a command now: read the clock and reply.
/// Reading the clock panics if the system clock is outside chrono's range
/// (before 1970 or too far ahead); no argument can cause or avoid that.
pub fn answer_command(store: &mut TrackStore, ttl_hours: i64, user_id: i64, cmd: Command) -> (reply: String)
    ensures
        store_wf(final(store)@),
        final(store)@ == command_store(old(store)@, user_id, cmd@),
        exists|now: i64| reply@ == command_reply(old(store)@, user_id, cmd@, ttl_hours, now),
{
    let now = now_ts();
    reply_to_command(store, ttl_hours, user_id, cmd, now)
}

/// A token whose order is UNKNOWN or already COMPLETED is never joined: no
/// subscription is added, and for a user who does not follow it the store
/// is left as it was.
pub proof fn lemma_unknown_or_completed_never_joins(
    v: StoreView,
    user: i64,
    chat: i64,
    tok: Seq<char>,
    res: Fields,
    rand: i64,
    now: i64,
)
    requires
        status_is(res, "UNKNOWN"@) || status_is(res, "COMPLETED"@),
    ensures
        join_store(v, user, chat, tok, true, res, rand, now).subs == v.subs,
        !has_sub(v.subs, user, tok) ==> join_store(v, user, chat, tok, true, res, rand, now) == v,
{
}

/// Any re-send of a token by a user who follows it renews the token's time
/// to live, whatever its poll gives, and the user keeps following it.
pub proof fn lemma_follower_resend_renews(
    v: StoreView,
    user: i64,
    chat: i64,
    tok: Seq<char>,
    usable: bool,
    res: Fields,
    rand: i64,
    now: i64,
)
    requires
        store_wf(v),
        has_sub(v.subs, user, tok),
    ensures
        ({
            let w = join_store(v, user, chat, tok, usable, res, rand, now);
            &&& has_sub(w.subs, user, tok)
            &&& has_token(w.tokens, tok)
            &&& w.tokens[token_idx(w.tokens, tok)].created_at == now
        }),
{
    if usable && (status_is(res, "UNKNOWN"@) || status_is(res, "COMPLETED"@)) {
        crate::db::lemma_add_renews_and_subscribes(v, user, chat, tok, rand, now);
    } else {
        lemma_join_follows(v, user, chat, tok, usable, res, rand, now);
    }
}

/// Any other token a user sends, whether or not its poll worked, is followed
/// by the user afterwards and has its time to live renewed.
pub proof fn lemma_join_follows(
    v: StoreView,
    user: i64,
    chat: i64,
    tok: Seq<char>,
    usable: bool,
    res: Fields,
    rand: i64,
    now: i64,
)
    requires
        store_wf(v),
        !(usable && (status_is(res, "UNKNOWN"@) || status_is(res, "COMPLETED"@))),
    ensures
        ({
            let w = join_store(v, user, chat, tok, usable, res, rand, now);
            &&& has_sub(w.subs, user, tok)
            &&& has_token(w.tokens, tok)
            &&& w.tokens[token_idx(w.tokens, tok)].created_at == now
        }),
{
    crate::db::lemma_add_renews_and_subscribes(v, user, chat, tok, rand, now);
    let a = add_spec(v, user, chat, tok, rand, now);
    let i = token_idx(a.tokens, tok);
    crate::db::lemma_poll_counts(a, tok, res, now);
    assert(crate::db::success_spec(a, tok, res, now).tokens[i].token == tok);
    assert(failure_spec(a, tok, now).tokens[i].token == tok);
}

/// `/stop <token>` leaves the user no longer following the (trimmed) token.
pub proof fn lemma_stop_unfollows(v: StoreView, user: i64, t: Seq<char>)
    requires
        store_wf(v),
        trim_seq(t).len() > 0,
    ensures
        !has_sub(command_store(v, user, CommandView::Stop(t)).subs, user, trim_seq(t)),
{
    crate::db::lemma_unsubscribe_effect(v, user, trim_seq(t));
}

/// What a user who sends a token is told. A usable result that is neither
/// UNKNOWN nor COMPLETED gives the join receipt to a user who did not follow
/// the token before, whoever else follows it, and the "already tracking"
/// line followed by the receipt to one who did; an UNKNOWN or COMPLETED
/// result tells a non-follower that nothing was joined; a failed poll says
/// the token is followed and will be retried.
pub proof fn lemma_join_replies(v: StoreView, user: i64, tok: Seq<char>, usable: bool, res: Fields, max_failures: i64)
    ensures
        usable && !status_is(res, "UNKNOWN"@) && !status_is(res, "COMPLETED"@) && !has_sub(v.subs, user, tok)
            ==> join_reply(v, user, tok, usable, res, max_failures) == render_status_spec(res),
        usable && has_sub(v.subs, user, tok) ==> join_reply(v, user, tok, usable, res, max_failures)
            == "你已在追踪，当前状态如下\n"@ + render_status_spec(res),
        usable && status_is(res, "UNKNOWN"@) && !has_sub(v.subs, user, tok) ==> join_reply(
            v,
            user,
            tok,
            usable,
            res,
            max_failures,
        ) == "⚠️ 该订单当前状态为 UNKNOWN(可能 token 无效或订单尚未生成)，未加入追踪;请确认 token 或稍后重试"@,
        usable && !status_is(res, "UNKNOWN"@) && status_is(res, "COMPLETED"@) && !has_sub(v.subs, user, tok)
            ==> join_reply(v, user, tok, usable, res, max_failures)
            == "✅ 该订单状态已为 COMPLETED(已完成)，未加入追踪"@,
        !usable ==> join_reply(v, user, tok, usable, res, max_failures) == "已加入追踪，但当前查询失败，将自动重试;连续失败 "@
            + int_text(max_failures as int) + " 次后停止"@,
{
}

/// The hours a token has left in `/list`: never negative; the time to live
/// less the whole hours elapsed since it was added (rounded toward zero, so
/// a creation time in the future adds its whole hours), and zero exactly
/// once the whole time to live has elapsed.
pub proof fn lemma_remaining_hours(ttl_hours: i64, now: i64, created_at: i64)
    ensures
        remaining_hours(ttl_hours, now, created_at) >= 0,
        ({
            let d = now - created_at;
            let r = remaining_hours(ttl_hours, now, created_at);
            &&& d >= 0 && r > 0 ==> (ttl_hours - r) * 3600 <= d < (ttl_hours - r + 1) * 3600
            &&& d >= 0 ==> (r == 0 <==> ttl_hours * 3600 <= d)
            &&& d < 0 && r > 0 ==> (r - ttl_hours) * 3600 <= -d < (r - ttl_hours + 1) * 3600
        }),
{
    let d = now - created_at;
    if d >= 0 {
        assert(0 <= d - (d / 3600) * 3600 < 3600) by (nonlinear_arith)
            requires
                d >= 0,
        ;
    } else {
        let e = -d;
        assert(0 <= e - (e / 3600) * 3600 < 3600) by (nonlinear_arith)
            requires
                e > 0,
        ;
    }
}

} // verus!
