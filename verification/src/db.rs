use vstd::prelude::*;
use crate::model::{Fields, FieldValue, Snapshot, ValueView, lookup};
use crate::text::str_equal;

verus! {

broadcast use vstd::seq_lib::group_seq_properties;

/// A tracked token: shared by all users who follow the same order.
#[derive(Debug)]
pub struct TokenRecord {
    pub token: String,
    /// Random value chosen when the token was first added; shifts its poll slot.
    pub rand: i64,
    /// When the token was last (re)added; it expires a TTL after this.
    pub created_at: i64,
    pub last_snapshot: Option<Snapshot>,
    pub last_polled_at: Option<i64>,
    /// Consecutive failed polls.
    pub fail_count: i64,
}

/// One user's subscription to a token.
#[derive(Debug, Clone, PartialEq)]
pub struct Subscription {
    pub user_id: i64,
    pub chat_id: i64,
    pub token: String,
    pub joined_at: i64,
    pub rand: i64,
}

pub struct TokenView {
    pub token: Seq<char>,
    pub rand: i64,
    pub created_at: i64,
    pub last_snapshot: Option<Fields>,
    pub last_polled_at: Option<i64>,
    pub fail_count: i64,
}

pub struct SubView {
    pub user_id: i64,
    pub chat_id: i64,
    pub token: Seq<char>,
    pub joined_at: i64,
    pub rand: i64,
}

pub open spec fn opt_snap_view(o: Option<Snapshot>) -> Option<Fields> {
    match o {
        Some(s) => Some(s@),
        None => None,
    }
}

impl View for TokenRecord {
    type V = TokenView;

    open spec fn view(&self) -> TokenView {
        TokenView {
            token: self.token@,
            rand: self.rand,
            created_at: self.created_at,
            last_snapshot: opt_snap_view(self.last_snapshot),
            last_polled_at: self.last_polled_at,
            fail_count: self.fail_count,
        }
    }
}

impl View for Subscription {
    type V = SubView;

    open spec fn view(&self) -> SubView {
        SubView {
            user_id: self.user_id,
            chat_id: self.chat_id,
            token: self.token@,
            joined_at: self.joined_at,
            rand: self.rand,
        }
    }
}

/// The state of the store: tokens in the order they were first added,
/// subscriptions in the order they were made.
pub struct StoreView {
    pub tokens: Seq<TokenView>,
    pub subs: Seq<SubView>,
}

pub open spec fn has_token(ts: Seq<TokenView>, tok: Seq<char>) -> bool {
    exists|k: int| 0 <= k < ts.len() && (#[trigger] ts[k]).token == tok
}

/// Where the token `tok` is stored (meaningful when it is stored).
pub open spec fn token_idx(ts: Seq<TokenView>, tok: Seq<char>) -> int {
    choose|k: int| 0 <= k < ts.len() && (#[trigger] ts[k]).token == tok
}

pub open spec fn has_sub(ss: Seq<SubView>, user: i64, tok: Seq<char>) -> bool {
    exists|k: int| 0 <= k < ss.len() && (#[trigger] ss[k]).user_id == user && ss[k].token == tok
}

pub open spec fn token_followed(ss: Seq<SubView>, tok: Seq<char>) -> bool {
    exists|k: int| 0 <= k < ss.len() && (#[trigger] ss[k]).token == tok
}

/// The store's invariant: each token stored once; each (user, token)
/// subscription once; every subscription refers to a stored token; failure
/// counts are not negative.
pub open spec fn store_wf(v: StoreView) -> bool {
    &&& forall|i: int, j: int|
        0 <= i < j < v.tokens.len() ==> (#[trigger] v.tokens[i]).token != (#[trigger] v.tokens[j]).token
    &&& forall|i: int, j: int|
        0 <= i < j < v.subs.len() ==> !((#[trigger] v.subs[i]).user_id == (#[trigger] v.subs[j]).user_id
            && v.subs[i].token == v.subs[j].token)
    &&& forall|i: int| 0 <= i < v.subs.len() ==> has_token(v.tokens, (#[trigger] v.subs[i]).token)
    &&& forall|i: int| 0 <= i < v.tokens.len() ==> (#[trigger] v.tokens[i]).fail_count >= 0
}

/// The (user, chat) pairs subscribed to `tok`, in subscription order.
pub open spec fn subs_of(ss: Seq<SubView>, tok: Seq<char>) -> Seq<(i64, i64)> {
    ss.filter(|s: SubView| s.token == tok).map_values(|s: SubView| (s.user_id, s.chat_id))
}

/// The two tables of the store, with the operations on them.
struct Tables {
    tokens: Vec<TokenRecord>,
    subs: Vec<Subscription>,
}

impl View for Tables {
    type V = StoreView;

    closed spec fn view(&self) -> StoreView {
        StoreView {
            tokens: self.tokens@.map_values(|t: TokenRecord| t@),
            subs: self.subs@.map_values(|s: Subscription| s@),
        }
    }
}

/// The in-memory subscription store: the rules of the tracking database.
/// Its tables always meet `store_wf`.
pub struct TrackStore {
    t: Tables,
}

impl View for TrackStore {
    type V = StoreView;

    closed spec fn view(&self) -> StoreView {
        self.t@
    }
}

impl TrackStore {
    /// The store's invariant: no token twice, no user twice on one token,
    /// every subscription to a stored token, no negative failure count.
    #[verifier::type_invariant]
    pub open spec fn wf(self) -> bool {
        store_wf(self@)
    }
}

/// A stored token as the poller reads it.
#[derive(Debug)]
pub struct TokenRow {
    pub token: String,
    pub rand: i64,
    pub last_snapshot: Option<Snapshot>,
}

pub struct TokenRowView {
    pub token: Seq<char>,
    pub rand: i64,
    pub last_snapshot: Option<Fields>,
}

impl View for TokenRow {
    type V = TokenRowView;

    open spec fn view(&self) -> TokenRowView {
        TokenRowView {
            token: self.token@,
            rand: self.rand,
            last_snapshot: opt_snap_view(self.last_snapshot),
        }
    }
}

pub open spec fn row_of(t: TokenView) -> TokenRowView {
    TokenRowView { token: t.token, rand: t.rand, last_snapshot: t.last_snapshot }
}

fn dup_snapshot(o: &Option<Snapshot>) -> (r: Option<Snapshot>)
    ensures
        opt_snap_view(r) == opt_snap_view(*o),
{
    match o {
        Some(s) => Some(s.duplicate()),
        None => None,
    }
}

impl Tables {
    /// The empty store.
    fn new() -> (r: Tables)
        ensures
            r@.tokens == Seq::<TokenView>::empty(),
            r@.subs == Seq::<SubView>::empty(),
            store_wf(r@),
    {
        let r = Tables { tokens: Vec::new(), subs: Vec::new() };
        assert(r@.tokens =~= Seq::<TokenView>::empty());
        assert(r@.subs =~= Seq::<SubView>::empty());
        r
    }

    /// The stored tokens, in the order they were first added.
    fn token_records(&self) -> (r: &Vec<TokenRecord>)
        ensures
            r@.map_values(|t: TokenRecord| t@) == self@.tokens,
    {
        &self.tokens
    }

    /// The subscriptions, in the order they were made.
    fn subscriptions(&self) -> (r: &Vec<Subscription>)
        ensures
            r@.map_values(|s: Subscription| s@) == self@.subs,
    {
        &self.subs
    }

    fn find_token(&self, tok: &str) -> (r: Option<usize>)
        ensures
            match r {
                Some(i) => i < self@.tokens.len() && self@.tokens[i as int].token == tok@,
                None => !has_token(self@.tokens, tok@),
            },
    {
        let n = self.tokens.len();
        let mut i: usize = 0;
        while i < n
            invariant
                n == self@.tokens.len(),
                i <= n,
                forall|k: int| 0 <= k < i ==> (#[trigger] self@.tokens[k]).token != tok@,
            decreases n - i,
        {
            assert(self@.tokens[i as int] == self.tokens@[i as int]@);
            if str_equal(self.tokens[i].token.as_str(), tok) {
                return Some(i);
            }
            i = i + 1;
        }
        None
    }

    fn find_sub(&self, user_id: i64, tok: &str) -> (r: Option<usize>)
        ensures
            match r {
                Some(i) => i < self@.subs.len() && self@.subs[i as int].user_id == user_id
                    && self@.subs[i as int].token == tok@,
                None => !has_sub(self@.subs, user_id, tok@),
            },
    {
        let n = self.subs.len();
        let mut i: usize = 0;
        while i < n
            invariant
                n == self@.subs.len(),
                i <= n,
                forall|k: int|
                    0 <= k < i ==> !((#[trigger] self@.subs[k]).user_id == user_id && self@.subs[k].token
                        == tok@),
            decreases n - i,
        {
            assert(self@.subs[i as int] == self.subs@[i as int]@);
            if self.subs[i].user_id == user_id && str_equal(self.subs[i].token.as_str(), tok) {
                return Some(i);
            }
            i = i + 1;
        }
        None
    }

    /// Whether `user_id` follows `token`.
    fn is_subscribed(&self, user_id: i64, token: &str) -> (b: bool)
        ensures
            b == has_sub(self@.subs, user_id, token@),
    {
        self.find_sub(user_id, token).is_some()
    }

    /// The (user, chat) pairs following `token`, in subscription order.
    fn subscribers(&self, token: &str) -> (r: Vec<(i64, i64)>)
        ensures
            r@ == subs_of(self@.subs, token@),
    {
        let ghost ss = self@.subs;
        let ghost p = |s: SubView| s.token == token@;
        let ghost f = |s: SubView| (s.user_id, s.chat_id);
        let n = self.subs.len();
        let mut out: Vec<(i64, i64)> = Vec::new();
        let mut i: usize = 0;
        assert(ss.take(0) =~= Seq::<SubView>::empty());
        while i < n
            invariant
                ss == self@.subs,
                n == ss.len(),
                i <= n,
                p == (|s: SubView| s.token == token@),
                f == (|s: SubView| (s.user_id, s.chat_id)),
                out@ == ss.take(i as int).filter(p).map_values(f),
            decreases n - i,
        {
            let s = &self.subs[i];
            assert(ss[i as int] == s@);
            assert(ss.take(i as int + 1) =~= ss.take(i as int).push(ss[i as int]));
            proof {
                ss.take(i as int).lemma_filter_push(ss[i as int], p);
            }
            if str_equal(s.token.as_str(), token) {
                out.push((s.user_id, s.chat_id));
                proof {
                    let fl = ss.take(i as int).filter(p);
                    assert(fl.push(ss[i as int]).map_values(f) =~= fl.map_values(f).push(f(ss[i as int])));
                }
            }
            assert(out@ =~= ss.take(i as int + 1).filter(p).map_values(f));
            i = i + 1;
        }
        assert(ss.take(n as int) =~= ss);
        out
    }

    /// Every stored token, for polling.
    fn due_tokens(&self) -> (r: Vec<TokenRow>)
        ensures
            r@.map_values(|t: TokenRow| t@) == self@.tokens.map_values(|t: TokenView| row_of(t)),
    {
        let n = self.tokens.len();
        let mut out: Vec<TokenRow> = Vec::new();
        let mut i: usize = 0;
        while i < n
            invariant
                n == self@.tokens.len(),
                i <= n,
                out@.len() == i,
                forall|k: int| 0 <= k < i ==> (#[trigger] out@[k])@ == row_of(self@.tokens[k]),
            decreases n - i,
        {
            let t = &self.tokens[i];
            assert(self@.tokens[i as int] == t@);
            out.push(TokenRow { token: t.token.clone(), rand: t.rand, last_snapshot: dup_snapshot(&t.last_snapshot) });
            i = i + 1;
        }
        assert(out@.map_values(|t: TokenRow| t@) =~= self@.tokens.map_values(|t: TokenView| row_of(t)));
        out
    }
}

/// Why a store operation failed.
#[derive(Debug, PartialEq)]
pub enum DbError {
    /// The token is not stored.
    UnknownToken,
    /// The failure count cannot grow any further.
    FailCountOverflow,
}

/// The outcome of adding a subscription, with the token's stored snapshot.
#[derive(Debug, PartialEq)]
pub enum AddResult {
    Added { snapshot: Option<Snapshot> },
    AlreadySubscribed { snapshot: Option<Snapshot> },
}

pub enum AddResultView {
    Added(Option<Fields>),
    AlreadySubscribed(Option<Fields>),
}

impl View for AddResult {
    type V = AddResultView;

    open spec fn view(&self) -> AddResultView {
        match self {
            AddResult::Added { snapshot } => AddResultView::Added(opt_snap_view(*snapshot)),
            AddResult::AlreadySubscribed { snapshot } => AddResultView::AlreadySubscribed(
                opt_snap_view(*snapshot),
            ),
        }
    }
}

/// The outcome of removing a subscription.
#[derive(Debug, PartialEq)]
pub enum UnsubResult {
    Removed,
    NotSubscribed,
}

pub open spec fn new_token(tok: Seq<char>, rand: i64, now: i64) -> TokenView {
    TokenView {
        token: tok,
        rand: rand,
        created_at: now,
        last_snapshot: None,
        last_polled_at: None,
        fail_count: 0,
    }
}

/// Adding a subscription: the token is stored (kept with its random value and
/// state if already there) and its creation time renewed to `now`; the
/// (user, token) subscription is added unless it exists.
pub open spec fn add_spec(v: StoreView, user: i64, chat: i64, tok: Seq<char>, rand: i64, now: i64) -> StoreView {
    StoreView {
        tokens: if has_token(v.tokens, tok) {
            let i = token_idx(v.tokens, tok);
            v.tokens.update(
                i,
                TokenView {
                    token: v.tokens[i].token,
                    rand: v.tokens[i].rand,
                    created_at: now,
                    last_snapshot: v.tokens[i].last_snapshot,
                    last_polled_at: v.tokens[i].last_polled_at,
                    fail_count: v.tokens[i].fail_count,
                },
            )
        } else {
            v.tokens.push(new_token(tok, rand, now))
        },
        subs: if has_sub(v.subs, user, tok) {
            v.subs
        } else {
            v.subs.push(SubView { user_id: user, chat_id: chat, token: tok, joined_at: now, rand: rand })
        },
    }
}

/// The snapshot stored for `tok`, if any.
pub open spec fn stored_snapshot(ts: Seq<TokenView>, tok: Seq<char>) -> Option<Fields> {
    if has_token(ts, tok) {
        ts[token_idx(ts, tok)].last_snapshot
    } else {
        None
    }
}

/// A successful poll: the snapshot and poll time are stored and the failure
/// count reset; nothing happens to a token that is not stored.
pub open spec fn success_spec(v: StoreView, tok: Seq<char>, snap: Fields, now: i64) -> StoreView {
    if has_token(v.tokens, tok) {
        let i = token_idx(v.tokens, tok);
        StoreView {
            tokens: v.tokens.update(
                i,
                TokenView {
                    token: v.tokens[i].token,
                    rand: v.tokens[i].rand,
                    created_at: v.tokens[i].created_at,
                    last_snapshot: Some(snap),
                    last_polled_at: Some(now),
                    fail_count: 0,
                },
            ),
            subs: v.subs,
        }
    } else {
        v
    }
}

/// Storing a first snapshot: as a successful poll, but only while the token
/// has no snapshot yet.
pub open spec fn store_first_spec(v: StoreView, tok: Seq<char>, snap: Fields, now: i64) -> StoreView {
    if has_token(v.tokens, tok) && v.tokens[token_idx(v.tokens, tok)].last_snapshot is None {
        success_spec(v, tok, snap, now)
    } else {
        v
    }
}

/// A failed poll: the failure count grows by one and the poll time is stored.
pub open spec fn failure_spec(v: StoreView, tok: Seq<char>, now: i64) -> StoreView {
    let i = token_idx(v.tokens, tok);
    StoreView {
        tokens: v.tokens.update(
            i,
            TokenView {
                token: v.tokens[i].token,
                rand: v.tokens[i].rand,
                created_at: v.tokens[i].created_at,
                last_snapshot: v.tokens[i].last_snapshot,
                last_polled_at: Some(now),
                fail_count: (v.tokens[i].fail_count + 1) as i64,
            },
        ),
        subs: v.subs,
    }
}

/// Purging a token removes it and every subscription to it.
pub open spec fn purge_spec(v: StoreView, tok: Seq<char>) -> StoreView {
    StoreView {
        tokens: v.tokens.filter(|t: TokenView| t.token != tok),
        subs: v.subs.filter(|s: SubView| s.token != tok),
    }
}

/// Removing a subscription; the token goes too when nobody follows it any more.
pub open spec fn unsubscribe_spec(v: StoreView, user: i64, tok: Seq<char>) -> StoreView {
    if !has_sub(v.subs, user, tok) {
        v
    } else {
        let subs2 = v.subs.filter(|s: SubView| !(s.user_id == user && s.token == tok));
        StoreView {
            tokens: if token_followed(subs2, tok) {
                v.tokens
            } else {
                v.tokens.filter(|t: TokenView| t.token != tok)
            },
            subs: subs2,
        }
    }
}

pub(crate) proof fn lemma_token_idx(ts: Seq<TokenView>, i: int)
    requires
        forall|a: int, b: int|
            0 <= a < b < ts.len() ==> (#[trigger] ts[a]).token != (#[trigger] ts[b]).token,
        0 <= i < ts.len(),
    ensures
        has_token(ts, ts[i].token),
        token_idx(ts, ts[i].token) == i,
{
    assert(has_token(ts, ts[i].token));
    let j = token_idx(ts, ts[i].token);
    if j < i {
        assert(ts[j].token != ts[i].token);
    } else if j > i {
        assert(ts[i].token != ts[j].token);
    }
}

impl Tables {
    /// Add `user_id`'s subscription to `token` (renewing the token's time to
    /// live), and report whether it is new, with the token's stored snapshot.
    fn add_subscription(&mut self, user_id: i64, chat_id: i64, token: String, rand: i64, now: i64) -> (r: AddResult)
        requires
            store_wf(old(self)@),
        ensures
            store_wf(final(self)@),
            final(self)@ == add_spec(old(self)@, user_id, chat_id, token@, rand, now),
            r@ == if has_sub(old(self)@.subs, user_id, token@) {
                AddResultView::AlreadySubscribed(stored_snapshot(old(self)@.tokens, token@))
            } else {
                AddResultView::Added(stored_snapshot(old(self)@.tokens, token@))
            },
    {
        let ghost v = self@;
        let ghost tok = token@;
        let snapshot;
        match self.find_token(token.as_str()) {
            Some(i) => {
                proof {
                    lemma_token_idx(v.tokens, i as int);
                }
                let mut rec = self.tokens.remove(i);
                rec.created_at = now;
                snapshot = dup_snapshot(&rec.last_snapshot);
                self.tokens.insert(i, rec);
                proof {
                    assert(self@.tokens =~= add_spec(v, user_id, chat_id, tok, rand, now).tokens);
                }
            },
            None => {
                snapshot = None;
                self.tokens.push(
                    TokenRecord {
                        token: token.clone(),
                        rand,
                        created_at: now,
                        last_snapshot: None,
                        last_polled_at: None,
                        fail_count: 0,
                    },
                );
                proof {
                    assert(self@.tokens =~= add_spec(v, user_id, chat_id, tok, rand, now).tokens);
                }
            },
        }
        let ghost v2 = self@;
        let already = self.find_sub(user_id, token.as_str()).is_some();
        if !already {
            self.subs.push(Subscription { user_id, chat_id, token, joined_at: now, rand });
            proof {
                assert(self@.subs =~= v.subs.push(
                    SubView { user_id: user_id, chat_id: chat_id, token: tok, joined_at: now, rand: rand },
                ));
            }
        }
        proof {
            let nv = self@;
            assert(nv.tokens == add_spec(v, user_id, chat_id, tok, rand, now).tokens);
            assert(nv.subs =~= add_spec(v, user_id, chat_id, tok, rand, now).subs);
            lemma_add_keeps_wf(v, user_id, chat_id, tok, rand, now);
        }
        if already {
            AddResult::AlreadySubscribed { snapshot }
        } else {
            AddResult::Added { snapshot }
        }
    }
}

proof fn lemma_update_keeps_wf(v: StoreView, i: int, t: TokenView)
    requires
        store_wf(v),
        0 <= i < v.tokens.len(),
        t.token == v.tokens[i].token,
        t.fail_count >= 0,
    ensures
        store_wf(StoreView { tokens: v.tokens.update(i, t), subs: v.subs }),
{
    let nt = v.tokens.update(i, t);
    assert forall|a: int, b: int| 0 <= a < b < nt.len() implies (#[trigger] nt[a]).token != (#[trigger] nt[b]).token by {
        assert(nt[a].token == v.tokens[a].token);
        assert(nt[b].token == v.tokens[b].token);
    }
    assert forall|a: int| 0 <= a < v.subs.len() implies has_token(nt, (#[trigger] v.subs[a]).token) by {
        let k = choose|k: int| 0 <= k < v.tokens.len() && (#[trigger] v.tokens[k]).token == v.subs[a].token;
        assert(nt[k].token == v.tokens[k].token);
    }
    assert forall|a: int| 0 <= a < nt.len() implies (#[trigger] nt[a]).fail_count >= 0 by {
        if a != i {
            assert(nt[a] == v.tokens[a]);
        }
    }
}

pub(crate) proof fn lemma_filter_tokens_unique(ts: Seq<TokenView>, p: spec_fn(TokenView) -> bool)
    requires
        forall|a: int, b: int|
            0 <= a < b < ts.len() ==> (#[trigger] ts[a]).token != (#[trigger] ts[b]).token,
    ensures
        forall|a: int, b: int|
            0 <= a < b < ts.filter(p).len() ==> (#[trigger] ts.filter(p)[a]).token != (
            #[trigger] ts.filter(p)[b]).token,
    decreases ts.len(),
{
    reveal(Seq::filter);
    if ts.len() > 0 {
        let init = ts.drop_last();
        lemma_filter_tokens_unique(init, p);
        let f = ts.filter(p);
        let fi = init.filter(p);
        if p(ts.last()) {
            assert(f == fi.push(ts.last()));
            assert forall|a: int, b: int| 0 <= a < b < f.len() implies (#[trigger] f[a]).token != (#[trigger] f[b]).token by {
                if b == f.len() - 1 {
                    assert(fi.contains(f[a]));
                    init.lemma_filter_contains_rev(p, f[a]);
                    let k = choose|k: int| 0 <= k < init.len() && init[k] == f[a];
                    assert(ts[k] == init[k]);
                    assert(ts[k].token != ts[ts.len() - 1].token);
                } else {
                    assert(f[a] == fi[a]);
                    assert(f[b] == fi[b]);
                }
            }
        } else {
            assert(f == fi);
        }
    }
}

proof fn lemma_filter_subs_unique(ss: Seq<SubView>, p: spec_fn(SubView) -> bool)
    requires
        forall|a: int, b: int|
            0 <= a < b < ss.len() ==> !((#[trigger] ss[a]).user_id == (#[trigger] ss[b]).user_id
                && ss[a].token == ss[b].token),
    ensures
        forall|a: int, b: int|
            0 <= a < b < ss.filter(p).len() ==> !((#[trigger] ss.filter(p)[a]).user_id == (
            #[trigger] ss.filter(p)[b]).user_id && ss.filter(p)[a].token == ss.filter(p)[b].token),
    decreases ss.len(),
{
    reveal(Seq::filter);
    if ss.len() > 0 {
        let init = ss.drop_last();
        lemma_filter_subs_unique(init, p);
        let f = ss.filter(p);
        let fi = init.filter(p);
        if p(ss.last()) {
            assert(f == fi.push(ss.last()));
            assert forall|a: int, b: int| 0 <= a < b < f.len() implies !((#[trigger] f[a]).user_id == (
            #[trigger] f[b]).user_id && f[a].token == f[b].token) by {
                if b == f.len() - 1 {
                    assert(fi.contains(f[a]));
                    init.lemma_filter_contains_rev(p, f[a]);
                    let k = choose|k: int| 0 <= k < init.len() && init[k] == f[a];
                    assert(ss[k] == init[k]);
                    assert(!(ss[k].user_id == ss[ss.len() - 1].user_id && ss[k].token == ss[ss.len() - 1].token));
                } else {
                    assert(f[a] == fi[a]);
                    assert(f[b] == fi[b]);
                }
            }
        } else {
            assert(f == fi);
        }
    }
}

/// Keeping the tokens that satisfy `pt` and the subscriptions that satisfy
/// `ps` keeps the invariant when every kept subscription's token is kept.
proof fn lemma_filter_keeps_wf(v: StoreView, pt: spec_fn(TokenView) -> bool, ps: spec_fn(SubView) -> bool)
    requires
        store_wf(v),
        forall|i: int, k: int|
            0 <= i < v.subs.len() && 0 <= k < v.tokens.len() && ps(#[trigger] v.subs[i])
                && (#[trigger] v.tokens[k]).token == v.subs[i].token ==> pt(v.tokens[k]),
    ensures
        store_wf(StoreView { tokens: v.tokens.filter(pt), subs: v.subs.filter(ps) }),
{
    let nt = v.tokens.filter(pt);
    let ns = v.subs.filter(ps);
    lemma_filter_tokens_unique(v.tokens, pt);
    lemma_filter_subs_unique(v.subs, ps);
    assert forall|a: int| 0 <= a < ns.len() implies has_token(nt, (#[trigger] ns[a]).token) by {
        v.subs.lemma_filter_pred(ps, a);
        assert(ns.contains(ns[a]));
        v.subs.lemma_filter_contains_rev(ps, ns[a]);
        let i = choose|i: int| 0 <= i < v.subs.len() && v.subs[i] == ns[a];
        assert(has_token(v.tokens, v.subs[i].token));
        let k = choose|k: int| 0 <= k < v.tokens.len() && (#[trigger] v.tokens[k]).token == v.subs[i].token;
        assert(pt(v.tokens[k]));
        v.tokens.lemma_filter_contains(pt, k);
        let j = choose|j: int| 0 <= j < nt.len() && nt[j] == v.tokens[k];
        assert(nt[j].token == ns[a].token);
    }
    assert forall|a: int| 0 <= a < nt.len() implies (#[trigger] nt[a]).fail_count >= 0 by {
        assert(nt.contains(nt[a]));
        v.tokens.lemma_filter_contains_rev(pt, nt[a]);
    }
}

impl Tables {
    /// Drop the token named `tok`; subscriptions untouched.
    fn remove_token_named(&mut self, tok: &str)
        ensures
            final(self)@.tokens == old(self)@.tokens.filter(|t: TokenView| t.token != tok@),
            final(self)@.subs == old(self)@.subs,
    {
        let ghost p = |t: TokenView| t.token != tok@;
        let mut rest: Vec<TokenRecord> = Vec::new();
        std::mem::swap(&mut self.tokens, &mut rest);
        let ghost orig = rest@.map_values(|t: TokenRecord| t@);
        let mut kept: Vec<TokenRecord> = Vec::new();
        let ghost mut k: int = 0;
        assert(orig.skip(0) =~= orig);
        assert(orig.take(0) =~= Seq::<TokenView>::empty());
        while rest.len() > 0
            invariant
                p == (|t: TokenView| t.token != tok@),
                0 <= k <= orig.len(),
                orig.len() == k + rest@.len(),
                rest@.map_values(|t: TokenRecord| t@) == orig.skip(k),
                kept@.map_values(|t: TokenRecord| t@) == orig.take(k).filter(p),
                self@.subs == old(self)@.subs,
                orig == old(self)@.tokens,
            decreases rest@.len(),
        {
            let rec = rest.remove(0);
            proof {
                assert(orig.skip(k)[0] == rec@);
                assert(orig[k] == rec@);
                assert(orig.take(k + 1) =~= orig.take(k).push(orig[k]));
                orig.take(k).lemma_filter_push(orig[k], p);
                assert(rest@.map_values(|t: TokenRecord| t@) =~= orig.skip(k + 1));
            }
            if !str_equal(rec.token.as_str(), tok) {
                kept.push(rec);
                proof {
                    assert(kept@.map_values(|t: TokenRecord| t@) =~= orig.take(k + 1).filter(p));
                }
            } else {
                assert(kept@.map_values(|t: TokenRecord| t@) =~= orig.take(k + 1).filter(p));
            }
            proof {
                k = k + 1;
            }
        }
        assert(orig.take(k) =~= orig);
        self.tokens = kept;
    }

    /// Drop every subscription to `tok`; tokens untouched.
    fn remove_subs_of_token(&mut self, tok: &str)
        ensures
            final(self)@.subs == old(self)@.subs.filter(|s: SubView| s.token != tok@),
            final(self)@.tokens == old(self)@.tokens,
    {
        let ghost p = |s: SubView| s.token != tok@;
        let mut rest: Vec<Subscription> = Vec::new();
        std::mem::swap(&mut self.subs, &mut rest);
        let ghost orig = rest@.map_values(|s: Subscription| s@);
        let mut kept: Vec<Subscription> = Vec::new();
        let ghost mut k: int = 0;
        assert(orig.skip(0) =~= orig);
        assert(orig.take(0) =~= Seq::<SubView>::empty());
        while rest.len() > 0
            invariant
                p == (|s: SubView| s.token != tok@),
                0 <= k <= orig.len(),
                orig.len() == k + rest@.len(),
                rest@.map_values(|s: Subscription| s@) == orig.skip(k),
                kept@.map_values(|s: Subscription| s@) == orig.take(k).filter(p),
                self@.tokens == old(self)@.tokens,
                orig == old(self)@.subs,
            decreases rest@.len(),
        {
            let sub = rest.remove(0);
            proof {
                assert(orig.skip(k)[0] == sub@);
                assert(orig[k] == sub@);
                assert(orig.take(k + 1) =~= orig.take(k).push(orig[k]));
                orig.take(k).lemma_filter_push(orig[k], p);
                assert(rest@.map_values(|s: Subscription| s@) =~= orig.skip(k + 1));
            }
            if !str_equal(sub.token.as_str(), tok) {
                kept.push(sub);
                proof {
                    assert(kept@.map_values(|s: Subscription| s@) =~= orig.take(k + 1).filter(p));
                }
            } else {
                assert(kept@.map_values(|s: Subscription| s@) =~= orig.take(k + 1).filter(p));
            }
            proof {
                k = k + 1;
            }
        }
        assert(orig.take(k) =~= orig);
        self.subs = kept;
    }

    /// Drop `user_id`'s subscription to `tok`; tokens untouched.
    fn remove_sub(&mut self, user_id: i64, tok: &str)
        ensures
            final(self)@.subs == old(self)@.subs.filter(|s: SubView| !(s.user_id == user_id && s.token == tok@)),
            final(self)@.tokens == old(self)@.tokens,
    {
        let ghost p = |s: SubView| !(s.user_id == user_id && s.token == tok@);
        let mut rest: Vec<Subscription> = Vec::new();
        std::mem::swap(&mut self.subs, &mut rest);
        let ghost orig = rest@.map_values(|s: Subscription| s@);
        let mut kept: Vec<Subscription> = Vec::new();
        let ghost mut k: int = 0;
        assert(orig.skip(0) =~= orig);
        assert(orig.take(0) =~= Seq::<SubView>::empty());
        while rest.len() > 0
            invariant
                p == (|s: SubView| !(s.user_id == user_id && s.token == tok@)),
                0 <= k <= orig.len(),
                orig.len() == k + rest@.len(),
                rest@.map_values(|s: Subscription| s@) == orig.skip(k),
                kept@.map_values(|s: Subscription| s@) == orig.take(k).filter(p),
                self@.tokens == old(self)@.tokens,
                orig == old(self)@.subs,
            decreases rest@.len(),
        {
            let sub = rest.remove(0);
            proof {
                assert(orig.skip(k)[0] == sub@);
                assert(orig[k] == sub@);
                assert(orig.take(k + 1) =~= orig.take(k).push(orig[k]));
                orig.take(k).lemma_filter_push(orig[k], p);
                assert(rest@.map_values(|s: Subscription| s@) =~= orig.skip(k + 1));
            }
            if !(sub.user_id == user_id && str_equal(sub.token.as_str(), tok)) {
                kept.push(sub);
                proof {
                    assert(kept@.map_values(|s: Subscription| s@) =~= orig.take(k + 1).filter(p));
                }
            } else {
                assert(kept@.map_values(|s: Subscription| s@) =~= orig.take(k + 1).filter(p));
            }
            proof {
                k = k + 1;
            }
        }
        assert(orig.take(k) =~= orig);
        self.subs = kept;
    }

    /// Whether anybody follows `tok`.
    fn is_followed(&self, tok: &str) -> (b: bool)
        ensures
            b == token_followed(self@.subs, tok@),
    {
        let n = self.subs.len();
        let mut i: usize = 0;
        while i < n
            invariant
                n == self@.subs.len(),
                i <= n,
                forall|k: int| 0 <= k < i ==> (#[trigger] self@.subs[k]).token != tok@,
            decreases n - i,
        {
            assert(self@.subs[i as int] == self.subs@[i as int]@);
            if str_equal(self.subs[i].token.as_str(), tok) {
                return true;
            }
            i = i + 1;
        }
        false
    }

    /// Stop tracking `token`: remove it and every subscription to it.
    fn purge_token(&mut self, token: &str)
        requires
            store_wf(old(self)@),
        ensures
            store_wf(final(self)@),
            final(self)@ == purge_spec(old(self)@, token@),
    {
        let ghost v = self@;
        self.remove_subs_of_token(token);
        self.remove_token_named(token);
        proof {
            lemma_filter_keeps_wf(v, |t: TokenView| t.token != token@, |s: SubView| s.token != token@);
        }
    }

    /// Remove `user_id`'s subscription to `token`; when nobody follows the
    /// token any more it is removed too.
    fn unsubscribe(&mut self, user_id: i64, token: &str) -> (r: UnsubResult)
        requires
            store_wf(old(self)@),
        ensures
            store_wf(final(self)@),
            final(self)@ == unsubscribe_spec(old(self)@, user_id, token@),
            (r is Removed) == has_sub(old(self)@.subs, user_id, token@),
    {
        let ghost v = self@;
        if self.find_sub(user_id, token).is_none() {
            return UnsubResult::NotSubscribed;
        }
        self.remove_sub(user_id, token);
        let ghost ps = |s: SubView| !(s.user_id == user_id && s.token == token@);
        if self.is_followed(token) {
            proof {
                assert(v.tokens.filter(|t: TokenView| true) == v.tokens) by {
                    lemma_filter_true(v.tokens);
                }
                lemma_filter_keeps_wf(v, |t: TokenView| true, ps);
            }
        } else {
            self.remove_token_named(token);
            proof {
                let pt = |t: TokenView| t.token != token@;
                assert forall|i: int, k: int|
                    0 <= i < v.subs.len() && 0 <= k < v.tokens.len() && ps(#[trigger] v.subs[i])
                        && (#[trigger] v.tokens[k]).token == v.subs[i].token implies pt(v.tokens[k]) by {
                    if v.subs[i].token == token@ {
                        v.subs.lemma_filter_contains(ps, i);
                        let j = choose|j: int| 0 <= j < v.subs.filter(ps).len() && v.subs.filter(ps)[j] == v.subs[i];
                        assert(token_followed(v.subs.filter(ps), token@));
                    }
                }
                lemma_filter_keeps_wf(v, pt, ps);
            }
        }
        UnsubResult::Removed
    }
}

proof fn lemma_filter_true(ts: Seq<TokenView>)
    ensures
        ts.filter(|t: TokenView| true) == ts,
    decreases ts.len(),
{
    reveal(Seq::filter);
    if ts.len() > 0 {
        lemma_filter_true(ts.drop_last());
        assert(ts.drop_last().push(ts.last()) =~= ts);
    }
}

impl Tables {
    /// Record a successful poll of `token`: store its snapshot and the poll
    /// time, reset its failure count. Nothing happens to an unknown token.
    fn record_poll_success(&mut self, token: &str, snapshot: Snapshot, now: i64)
        requires
            store_wf(old(self)@),
        ensures
            store_wf(final(self)@),
            final(self)@ == success_spec(old(self)@, token@, snapshot@, now),
    {
        let ghost v = self@;
        match self.find_token(token) {
            None => {},
            Some(i) => {
                proof {
                    lemma_token_idx(v.tokens, i as int);
                }
                let mut rec = self.tokens.remove(i);
                rec.last_snapshot = Some(snapshot);
                rec.last_polled_at = Some(now);
                rec.fail_count = 0;
                self.tokens.insert(i, rec);
                proof {
                    assert(self@.tokens =~= success_spec(v, token@, snapshot@, now).tokens);
                    lemma_update_keeps_wf(v, i as int, self@.tokens[i as int]);
                }
            },
        }
    }

    /// Store `snapshot` as the first snapshot of `token`, only if it has none yet.
    fn store_snapshot_if_null(&mut self, token: &str, snapshot: Snapshot, now: i64)
        requires
            store_wf(old(self)@),
        ensures
            store_wf(final(self)@),
            final(self)@ == store_first_spec(old(self)@, token@, snapshot@, now),
    {
        let ghost v = self@;
        match self.find_token(token) {
            None => {},
            Some(i) => {
                proof {
                    lemma_token_idx(v.tokens, i as int);
                }
                if self.tokens[i].last_snapshot.is_none() {
                    assert(v.tokens[i as int] == self.tokens@[i as int]@);
                    self.record_poll_success(token, snapshot, now);
                }
            },
        }
    }

    /// Record a failed poll of `token` and return its failure count.
    fn record_poll_failure(&mut self, token: &str, now: i64) -> (r: Result<i64, DbError>)
        requires
            store_wf(old(self)@),
        ensures
            store_wf(final(self)@),
            match r {
                Ok(fc) => {
                    &&& has_token(old(self)@.tokens, token@)
                    &&& old(self)@.tokens[token_idx(old(self)@.tokens, token@)].fail_count < i64::MAX
                    &&& fc == old(self)@.tokens[token_idx(old(self)@.tokens, token@)].fail_count + 1
                    &&& final(self)@ == failure_spec(old(self)@, token@, now)
                },
                Err(e) => {
                    &&& final(self)@ == old(self)@
                    &&& (e is UnknownToken) == !has_token(old(self)@.tokens, token@)
                    &&& (e is FailCountOverflow) == (has_token(old(self)@.tokens, token@)
                        && old(self)@.tokens[token_idx(old(self)@.tokens, token@)].fail_count == i64::MAX)
                },
            },
    {
        let ghost v = self@;
        match self.find_token(token) {
            None => Err(DbError::UnknownToken),
            Some(i) => {
                proof {
                    lemma_token_idx(v.tokens, i as int);
                    assert(v.tokens[i as int] == self.tokens@[i as int]@);
                }
                if self.tokens[i].fail_count == i64::MAX {
                    return Err(DbError::FailCountOverflow);
                }
                let mut rec = self.tokens.remove(i);
                rec.fail_count = rec.fail_count + 1;
                rec.last_polled_at = Some(now);
                let fc = rec.fail_count;
                self.tokens.insert(i, rec);
                proof {
                    assert(self@.tokens =~= failure_spec(v, token@, now).tokens);
                    lemma_update_keeps_wf(v, i as int, self@.tokens[i as int]);
                }
                Ok(fc)
            },
        }
    }
}

/// A token removed by the expiry sweep, with what is needed to tell its followers.
#[derive(Debug)]
pub struct ExpiredToken {
    pub token: String,
    pub order_id: Option<String>,
    /// (user_id, chat_id) of each follower.
    pub subscribers: Vec<(i64, i64)>,
}

pub struct ExpiredView {
    pub token: Seq<char>,
    pub order_id: Option<Seq<char>>,
    pub subscribers: Seq<(i64, i64)>,
}

impl View for ExpiredToken {
    type V = ExpiredView;

    open spec fn view(&self) -> ExpiredView {
        ExpiredView {
            token: self.token@,
            order_id: match self.order_id {
                Some(s) => Some(s@),
                None => None,
            },
            subscribers: self.subscribers@,
        }
    }
}

/// The order number kept in a snapshot: its `order_id` field when that is a string.
pub open spec fn snapshot_order_id(o: Option<Fields>) -> Option<Seq<char>> {
    match o {
        Some(fs) => match lookup(fs, "order_id"@) {
            Some(ValueView::Text(s)) => Some(s),
            _ => None,
        },
        None => None,
    }
}

/// A token expires once `ttl_hours` hours have passed since it was (re)added.
pub open spec fn expired(t: TokenView, now: i64, ttl_hours: i64) -> bool {
    t.created_at as int <= now as int - ttl_hours as int * 3600
}

pub open spec fn token_expired(ts: Seq<TokenView>, tok: Seq<char>, now: i64, ttl_hours: i64) -> bool {
    exists|k: int| 0 <= k < ts.len() && (#[trigger] ts[k]).token == tok && expired(ts[k], now, ttl_hours)
}

/// The store after the expiry sweep: expired tokens and their subscriptions removed.
pub open spec fn sweep_spec(v: StoreView, now: i64, ttl_hours: i64) -> StoreView {
    StoreView {
        tokens: v.tokens.filter(|t: TokenView| !expired(t, now, ttl_hours)),
        subs: v.subs.filter(|s: SubView| !token_expired(v.tokens, s.token, now, ttl_hours)),
    }
}

pub open spec fn expired_view_of(v: StoreView, t: TokenView) -> ExpiredView {
    ExpiredView {
        token: t.token,
        order_id: snapshot_order_id(t.last_snapshot),
        subscribers: subs_of(v.subs, t.token),
    }
}

/// What the sweep reports: each expired token in store order, with its order
/// number and followers.
pub open spec fn sweep_result(v: StoreView, now: i64, ttl_hours: i64) -> Seq<ExpiredView> {
    v.tokens.filter(|t: TokenView| expired(t, now, ttl_hours)).map_values(
        |t: TokenView| expired_view_of(v, t),
    )
}

fn order_id_from_snapshot(snap: &Option<Snapshot>) -> (r: Option<String>)
    ensures
        match r {
            Some(s) => snapshot_order_id(opt_snap_view(*snap)) == Some(s@),
            None => snapshot_order_id(opt_snap_view(*snap)) is None,
        },
{
    match snap {
        None => None,
        Some(s) => match s.get("order_id") {
            Some(FieldValue::Text(t)) => Some(t.clone()),
            _ => None,
        },
    }
}

fn is_expired(created_at: i64, now: i64, ttl_hours: i64) -> (b: bool)
    ensures
        b == (created_at as int <= now as int - ttl_hours as int * 3600),
{
    (created_at as i128) <= (now as i128) - (ttl_hours as i128) * 3600
}

fn named_in(list: &Vec<ExpiredToken>, tok: &str) -> (b: bool)
    ensures
        b == exists|i: int| 0 <= i < list@.len() && (#[trigger] list@[i]).token@ == tok@,
{
    let n = list.len();
    let mut i: usize = 0;
    while i < n
        invariant
            n == list@.len(),
            i <= n,
            forall|k: int| 0 <= k < i ==> (#[trigger] list@[k]).token@ != tok@,
        decreases n - i,
    {
        if str_equal(list[i].token.as_str(), tok) {
            return true;
        }
        i = i + 1;
    }
    false
}

impl Tables {
    /// Remove every token whose time to live has run out (created at or
    /// before `now - ttl_hours * 3600`), with its subscriptions, and report
    /// them in store order.
    fn expire_sweep(&mut self, now: i64, ttl_hours: i64) -> (r: Vec<ExpiredToken>)
        requires
            store_wf(old(self)@),
        ensures
            store_wf(final(self)@),
            final(self)@ == sweep_spec(old(self)@, now, ttl_hours),
            r@.map_values(|e: ExpiredToken| e@) == sweep_result(old(self)@, now, ttl_hours),
    {
        let ghost v = self@;
        let ghost pe = |t: TokenView| expired(t, now, ttl_hours);
        let ghost pk = |t: TokenView| !expired(t, now, ttl_hours);
        let ghost mk = |t: TokenView| expired_view_of(v, t);
        let mut rest: Vec<TokenRecord> = Vec::new();
        std::mem::swap(&mut self.tokens, &mut rest);
        let ghost orig = rest@.map_values(|t: TokenRecord| t@);
        let mut kept: Vec<TokenRecord> = Vec::new();
        let mut out: Vec<ExpiredToken> = Vec::new();
        let ghost mut k: int = 0;
        assert(orig.skip(0) =~= orig);
        assert(orig.take(0) =~= Seq::<TokenView>::empty());
        while rest.len() > 0
            invariant
                pe == (|t: TokenView| expired(t, now, ttl_hours)),
                pk == (|t: TokenView| !expired(t, now, ttl_hours)),
                mk == (|t: TokenView| expired_view_of(v, t)),
                0 <= k <= orig.len(),
                orig.len() == k + rest@.len(),
                rest@.map_values(|t: TokenRecord| t@) == orig.skip(k),
                kept@.map_values(|t: TokenRecord| t@) == orig.take(k).filter(pk),
                out@.map_values(|e: ExpiredToken| e@) == orig.take(k).filter(pe).map_values(mk),
                self@.subs == v.subs,
                orig == v.tokens,
            decreases rest@.len(),
        {
            let rec = rest.remove(0);
            proof {
                assert(orig.skip(k)[0] == rec@);
                assert(orig[k] == rec@);
                assert(orig.take(k + 1) =~= orig.take(k).push(orig[k]));
                orig.take(k).lemma_filter_push(orig[k], pk);
                orig.take(k).lemma_filter_push(orig[k], pe);
                assert(rest@.map_values(|t: TokenRecord| t@) =~= orig.skip(k + 1));
            }
            if is_expired(rec.created_at, now, ttl_hours) {
                let subscribers = self.subscribers(rec.token.as_str());
                let order_id = order_id_from_snapshot(&rec.last_snapshot);
                out.push(ExpiredToken { token: rec.token, order_id, subscribers });
                proof {
                    let fl = orig.take(k).filter(pe);
                    assert(fl.push(orig[k]).map_values(mk) =~= fl.map_values(mk).push(mk(orig[k])));
                    assert(out@.map_values(|e: ExpiredToken| e@) =~= orig.take(k + 1).filter(pe).map_values(mk));
                    assert(kept@.map_values(|t: TokenRecord| t@) =~= orig.take(k + 1).filter(pk));
                }
            } else {
                kept.push(rec);
                proof {
                    assert(kept@.map_values(|t: TokenRecord| t@) =~= orig.take(k + 1).filter(pk));
                    assert(out@.map_values(|e: ExpiredToken| e@) =~= orig.take(k + 1).filter(pe).map_values(mk));
                }
            }
            proof {
                k = k + 1;
            }
        }
        assert(orig.take(k) =~= orig);
        self.tokens = kept;
        let ghost ps = |s: SubView| !token_expired(v.tokens, s.token, now, ttl_hours);
        let ghost exp_list = v.tokens.filter(pe);
        let mut srest: Vec<Subscription> = Vec::new();
        std::mem::swap(&mut self.subs, &mut srest);
        let ghost sorig = srest@.map_values(|s: Subscription| s@);
        let mut skept: Vec<Subscription> = Vec::new();
        let ghost mut m: int = 0;
        assert(sorig.skip(0) =~= sorig);
        assert(sorig.take(0) =~= Seq::<SubView>::empty());
        while srest.len() > 0
            invariant
                ps == (|s: SubView| !token_expired(v.tokens, s.token, now, ttl_hours)),
                pe == (|t: TokenView| expired(t, now, ttl_hours)),
                mk == (|t: TokenView| expired_view_of(v, t)),
                exp_list == v.tokens.filter(pe),
                out@.map_values(|e: ExpiredToken| e@) == exp_list.map_values(mk),
                0 <= m <= sorig.len(),
                sorig.len() == m + srest@.len(),
                srest@.map_values(|s: Subscription| s@) == sorig.skip(m),
                skept@.map_values(|s: Subscription| s@) == sorig.take(m).filter(ps),
                self@.tokens == v.tokens.filter(|t: TokenView| !expired(t, now, ttl_hours)),
                sorig == v.subs,
            decreases srest@.len(),
        {
            let sub = srest.remove(0);
            proof {
                assert(sorig.skip(m)[0] == sub@);
                assert(sorig[m] == sub@);
                assert(sorig.take(m + 1) =~= sorig.take(m).push(sorig[m]));
                sorig.take(m).lemma_filter_push(sorig[m], ps);
                assert(srest@.map_values(|s: Subscription| s@) =~= sorig.skip(m + 1));
            }
            let gone = named_in(&out, sub.token.as_str());
            proof {
                let tok = sub.token@;
                assert(out@.map_values(|e: ExpiredToken| e@).len() == out@.len());
                assert(exp_list.map_values(mk).len() == exp_list.len());
                if gone {
                    let i = choose|i: int| 0 <= i < out@.len() && (#[trigger] out@[i]).token@ == tok;
                    assert(out@.map_values(|e: ExpiredToken| e@)[i] == out@[i]@);
                    assert(exp_list.map_values(mk)[i] == mk(exp_list[i]));
                    assert(exp_list.contains(exp_list[i]));
                    v.tokens.lemma_filter_contains_rev(pe, exp_list[i]);
                    v.tokens.lemma_filter_pred(pe, i);
                    let q = choose|q: int| 0 <= q < v.tokens.len() && v.tokens[q] == exp_list[i];
                    assert(v.tokens[q].token == tok);
                    assert(token_expired(v.tokens, tok, now, ttl_hours));
                } else {
                    if token_expired(v.tokens, tok, now, ttl_hours) {
                        let q = choose|q: int| 0 <= q < v.tokens.len() && (#[trigger] v.tokens[q]).token == tok && expired(v.tokens[q], now, ttl_hours);
                        v.tokens.lemma_filter_contains(pe, q);
                        let i = choose|i: int| 0 <= i < exp_list.len() && exp_list[i] == v.tokens[q];
                        assert(out@.map_values(|e: ExpiredToken| e@)[i] == out@[i]@);
                        assert(exp_list.map_values(mk)[i] == mk(exp_list[i]));
                        assert(out@[i].token@ == tok);
                    }
                }
            }
            if !gone {
                skept.push(sub);
                proof {
                    assert(skept@.map_values(|s: Subscription| s@) =~= sorig.take(m + 1).filter(ps));
                }
            } else {
                assert(skept@.map_values(|s: Subscription| s@) =~= sorig.take(m + 1).filter(ps));
            }
            proof {
                m = m + 1;
            }
        }
        assert(sorig.take(m) =~= sorig);
        self.subs = skept;
        proof {
            let pt = |t: TokenView| !expired(t, now, ttl_hours);
            assert forall|i: int, q: int|
                0 <= i < v.subs.len() && 0 <= q < v.tokens.len() && ps(#[trigger] v.subs[i])
                    && (#[trigger] v.tokens[q]).token == v.subs[i].token implies pt(v.tokens[q]) by {
                if expired(v.tokens[q], now, ttl_hours) {
                    assert(token_expired(v.tokens, v.subs[i].token, now, ttl_hours));
                }
            }
            lemma_filter_keeps_wf(v, pt, ps);
            assert(self@ == sweep_spec(v, now, ttl_hours));
        }
        out
    }
}

/// A token that a user follows, as listed for that user.
#[derive(Debug)]
pub struct UserTokenRow {
    pub token: String,
    pub last_snapshot: Option<Snapshot>,
    pub created_at: i64,
}

pub struct UserRowView {
    pub token: Seq<char>,
    pub last_snapshot: Option<Fields>,
    pub created_at: i64,
}

impl View for UserTokenRow {
    type V = UserRowView;

    open spec fn view(&self) -> UserRowView {
        UserRowView {
            token: self.token@,
            last_snapshot: opt_snap_view(self.last_snapshot),
            created_at: self.created_at,
        }
    }
}

/// Insert `x` after every subscription that joined no later than it.
pub open spec fn insert_by_joined(s: Seq<SubView>, x: SubView) -> Seq<SubView>
    decreases s.len(),
{
    if s.len() == 0 {
        seq![x]
    } else if s.last().joined_at <= x.joined_at {
        s.push(x)
    } else {
        insert_by_joined(s.drop_last(), x).push(s.last())
    }
}

/// Subscriptions ordered by join time; ties keep their order (a stable sort).
pub open spec fn sort_by_joined(s: Seq<SubView>) -> Seq<SubView>
    decreases s.len(),
{
    if s.len() == 0 {
        s
    } else {
        insert_by_joined(sort_by_joined(s.drop_last()), s.last())
    }
}

pub open spec fn user_row(ts: Seq<TokenView>, s: SubView) -> UserRowView {
    UserRowView {
        token: s.token,
        last_snapshot: ts[token_idx(ts, s.token)].last_snapshot,
        created_at: ts[token_idx(ts, s.token)].created_at,
    }
}

/// A user's tokens, ordered by when the user joined them.
pub open spec fn list_spec(v: StoreView, user: i64) -> Seq<UserRowView> {
    sort_by_joined(v.subs.filter(|s: SubView| s.user_id == user)).map_values(
        |s: SubView| user_row(v.tokens, s),
    )
}

proof fn lemma_insert_by_joined(s: Seq<SubView>, x: SubView, p: int)
    requires
        0 <= p <= s.len(),
        forall|q: int| p <= q < s.len() ==> (#[trigger] s[q]).joined_at > x.joined_at,
        p == 0 || s[p - 1].joined_at <= x.joined_at,
    ensures
        insert_by_joined(s, x) == s.insert(p, x),
    decreases s.len(),
{
    if s.len() == 0 {
        assert(s.insert(p, x) =~= seq![x]);
    } else if s.last().joined_at <= x.joined_at {
        assert(p == s.len());
        assert(s.insert(p, x) =~= s.push(x));
    } else {
        let init = s.drop_last();
        assert forall|q: int| p <= q < init.len() implies (#[trigger] init[q]).joined_at > x.joined_at by {
            assert(init[q] == s[q]);
        }
        if p > 0 {
            assert(init[p - 1] == s[p - 1]);
        }
        lemma_insert_by_joined(init, x, p);
        assert(init.insert(p, x).push(s.last()) =~= s.insert(p, x));
    }
}

fn copy_sub(s: &Subscription) -> (r: Subscription)
    ensures
        r@ == s@,
{
    Subscription {
        user_id: s.user_id,
        chat_id: s.chat_id,
        token: s.token.clone(),
        joined_at: s.joined_at,
        rand: s.rand,
    }
}

impl Tables {
    /// The tokens `user_id` follows, ordered by when the user joined each.
    fn list_user(&self, user_id: i64) -> (r: Vec<UserTokenRow>)
        requires
            store_wf(self@),
        ensures
            r@.map_values(|u: UserTokenRow| u@) == list_spec(self@, user_id),
    {
        let ghost v = self@;
        let ghost pu = |s: SubView| s.user_id == user_id;
        let n = self.subs.len();
        let mut mine: Vec<Subscription> = Vec::new();
        let mut i: usize = 0;
        assert(v.subs.take(0) =~= Seq::<SubView>::empty());
        while i < n
            invariant
                v == self@,
                pu == (|s: SubView| s.user_id == user_id),
                n == v.subs.len(),
                i <= n,
                mine@.map_values(|s: Subscription| s@) == v.subs.take(i as int).filter(pu),
            decreases n - i,
        {
            let sub = &self.subs[i];
            proof {
                assert(v.subs[i as int] == sub@);
                assert(v.subs.take(i as int + 1) =~= v.subs.take(i as int).push(v.subs[i as int]));
                v.subs.take(i as int).lemma_filter_push(v.subs[i as int], pu);
            }
            if sub.user_id == user_id {
                mine.push(copy_sub(sub));
            }
            assert(mine@.map_values(|s: Subscription| s@) =~= v.subs.take(i as int + 1).filter(pu));
            i = i + 1;
        }
        assert(v.subs.take(n as int) =~= v.subs);
        let ghost mv = mine@.map_values(|s: Subscription| s@);
        let m = mine.len();
        let mut sorted: Vec<Subscription> = Vec::new();
        let mut j: usize = 0;
        assert(mv.take(0) =~= Seq::<SubView>::empty());
        while j < m
            invariant
                m == mine@.len(),
                mv == mine@.map_values(|s: Subscription| s@),
                j <= m,
                sorted@.map_values(|s: Subscription| s@) == sort_by_joined(mv.take(j as int)),
            decreases m - j,
        {
            let x = &mine[j];
            let ghost sv = sorted@.map_values(|s: Subscription| s@);
            let mut p = sorted.len();
            while p > 0 && sorted[p - 1].joined_at > x.joined_at
                invariant
                    p <= sorted@.len(),
                    sv == sorted@.map_values(|s: Subscription| s@),
                    forall|q: int| p <= q < sv.len() ==> (#[trigger] sv[q]).joined_at > x.joined_at,
                decreases p,
            {
                p = p - 1;
            }
            proof {
                lemma_insert_by_joined(sv, x@, p as int);
                assert(mv.take(j as int + 1).drop_last() =~= mv.take(j as int));
                assert(mv.take(j as int + 1).last() == x@);
            }
            sorted.insert(p, copy_sub(x));
            assert(sorted@.map_values(|s: Subscription| s@) =~= sv.insert(p as int, x@));
            j = j + 1;
        }
        assert(mv.take(m as int) =~= mv);
        proof {
            lemma_sort_len(mv);
        }
        let ghost sorted_v = sorted@.map_values(|s: Subscription| s@);
        let mut rows: Vec<UserTokenRow> = Vec::new();
        let mut k: usize = 0;
        while k < m
            invariant
                v == self@,
                store_wf(v),
                sorted@.len() == m,
                sorted_v == sorted@.map_values(|s: Subscription| s@),
                sorted_v == sort_by_joined(v.subs.filter(pu)),
                pu == (|s: SubView| s.user_id == user_id),
                k <= m,
                rows@.len() == k,
                forall|q: int| 0 <= q < k ==> (#[trigger] rows@[q])@ == user_row(v.tokens, sorted_v[q]),
            decreases m - k,
        {
            let sub = &sorted[k];
            assert(sorted_v[k as int] == sub@);
            proof {
                lemma_sorted_subs_followed(v, user_id, k as int);
            }
            match self.find_token(sub.token.as_str()) {
                Some(t) => {
                    proof {
                        lemma_token_idx(v.tokens, t as int);
                        assert(v.tokens[t as int] == self.tokens@[t as int]@);
                    }
                    let rec = &self.tokens[t];
                    rows.push(
                        UserTokenRow {
                            token: sub.token.clone(),
                            last_snapshot: dup_snapshot(&rec.last_snapshot),
                            created_at: rec.created_at,
                        },
                    );
                },
                None => {
                    assert(false);
                },
            }
            k = k + 1;
        }
        assert(rows@.map_values(|u: UserTokenRow| u@) =~= list_spec(v, user_id));
        rows
    }
}

proof fn lemma_insert_by_joined_contains(s: Seq<SubView>, x: SubView, e: SubView)
    ensures
        insert_by_joined(s, x).contains(e) <==> (s.contains(e) || e == x),
    decreases s.len(),
{
    if s.len() > 0 && !(s.last().joined_at <= x.joined_at) {
        lemma_insert_by_joined_contains(s.drop_last(), x, e);
        let r = insert_by_joined(s.drop_last(), x);
        assert(s =~= s.drop_last().push(s.last()));
        if r.push(s.last()).contains(e) && e != s.last() {
            let i = choose|i: int| 0 <= i < r.push(s.last()).len() && r.push(s.last())[i] == e;
            assert(r[i] == e);
        }
        if s.drop_last().contains(e) {
            let i = choose|i: int| 0 <= i < s.drop_last().len() && s.drop_last()[i] == e;
            assert(s[i] == e);
        }
        if s.contains(e) && e != s.last() {
            let i = choose|i: int| 0 <= i < s.len() && s[i] == e;
            assert(s.drop_last()[i] == e);
        }
        if r.contains(e) {
            let i = choose|i: int| 0 <= i < r.len() && r[i] == e;
            assert(r.push(s.last())[i] == e);
        }
        assert(r.push(s.last())[r.len() as int] == s.last());
    } else if s.len() > 0 {
        assert(s.push(x)[s.len() as int] == x);
        if s.push(x).contains(e) && e != x {
            let i = choose|i: int| 0 <= i < s.push(x).len() && s.push(x)[i] == e;
            assert(s[i] == e);
        }
        if s.contains(e) {
            let i = choose|i: int| 0 <= i < s.len() && s[i] == e;
            assert(s.push(x)[i] == e);
        }
    } else {
        assert(seq![x][0] == x);
    }
}

proof fn lemma_insert_len(s: Seq<SubView>, x: SubView)
    ensures
        insert_by_joined(s, x).len() == s.len() + 1,
    decreases s.len(),
{
    if s.len() > 0 && !(s.last().joined_at <= x.joined_at) {
        lemma_insert_len(s.drop_last(), x);
    }
}

proof fn lemma_sort_len(s: Seq<SubView>)
    ensures
        sort_by_joined(s).len() == s.len(),
    decreases s.len(),
{
    if s.len() > 0 {
        lemma_sort_len(s.drop_last());
        lemma_insert_len(sort_by_joined(s.drop_last()), s.last());
    }
}

proof fn lemma_sort_contains(s: Seq<SubView>, e: SubView)
    ensures
        sort_by_joined(s).contains(e) <==> s.contains(e),
    decreases s.len(),
{
    if s.len() > 0 {
        lemma_sort_contains(s.drop_last(), e);
        lemma_insert_by_joined_contains(sort_by_joined(s.drop_last()), s.last(), e);
        assert(s =~= s.drop_last().push(s.last()));
        if s.drop_last().contains(e) {
            let i = choose|i: int| 0 <= i < s.drop_last().len() && s.drop_last()[i] == e;
            assert(s[i] == e);
        }
        if s.contains(e) && e != s.last() {
            let i = choose|i: int| 0 <= i < s.len() && s[i] == e;
            assert(s.drop_last()[i] == e);
        }
        assert(s[s.len() - 1] == s.last());
    }
}

proof fn lemma_sorted_subs_followed(v: StoreView, user: i64, k: int)
    requires
        store_wf(v),
        0 <= k < sort_by_joined(v.subs.filter(|s: SubView| s.user_id == user)).len(),
    ensures
        has_token(v.tokens, sort_by_joined(v.subs.filter(|s: SubView| s.user_id == user))[k].token),
{
    let pu = |s: SubView| s.user_id == user;
    let f = v.subs.filter(pu);
    let e = sort_by_joined(f)[k];
    assert(sort_by_joined(f).contains(e));
    lemma_sort_contains(f, e);
    v.subs.lemma_filter_contains_rev(pu, e);
    let i = choose|i: int| 0 <= i < v.subs.len() && v.subs[i] == e;
    assert(has_token(v.tokens, v.subs[i].token));
}

fn parts_wf(tokens: &Vec<TokenRecord>, subs: &Vec<Subscription>) -> (b: bool)
    ensures
        b == store_wf(
            StoreView {
                tokens: tokens@.map_values(|t: TokenRecord| t@),
                subs: subs@.map_values(|s: Subscription| s@),
            },
        ),
{
    let ghost v = StoreView {
        tokens: tokens@.map_values(|t: TokenRecord| t@),
        subs: subs@.map_values(|s: Subscription| s@),
    };
    let nt = tokens.len();
    let ns = subs.len();
    let mut i: usize = 0;
    while i < nt
        invariant
            nt == v.tokens.len(),
            v.tokens == tokens@.map_values(|t: TokenRecord| t@),
            i <= nt,
            forall|a: int, b: int| 0 <= a < b < i ==> (#[trigger] v.tokens[a]).token != (#[trigger] v.tokens[b]).token,
            forall|a: int| 0 <= a < i ==> (#[trigger] v.tokens[a]).fail_count >= 0,
        decreases nt - i,
    {
        assert(v.tokens[i as int] == tokens@[i as int]@);
        if tokens[i].fail_count < 0 {
            return false;
        }
        let mut j: usize = 0;
        while j < i
            invariant
                nt == v.tokens.len(),
                v.tokens == tokens@.map_values(|t: TokenRecord| t@),
                j <= i < nt,
                forall|b: int| 0 <= b < j ==> (#[trigger] v.tokens[b]).token != v.tokens[i as int].token,
            decreases i - j,
        {
            assert(v.tokens[j as int] == tokens@[j as int]@);
            assert(v.tokens[i as int] == tokens@[i as int]@);
            if str_equal(tokens[j].token.as_str(), tokens[i].token.as_str()) {
                return false;
            }
            j = j + 1;
        }
        i = i + 1;
    }
    let mut i: usize = 0;
    while i < ns
        invariant
            nt == v.tokens.len(),
            ns == v.subs.len(),
            v.tokens == tokens@.map_values(|t: TokenRecord| t@),
            v.subs == subs@.map_values(|s: Subscription| s@),
            i <= ns,
            forall|a: int, b: int| 0 <= a < b < nt ==> (#[trigger] v.tokens[a]).token != (#[trigger] v.tokens[b]).token,
            forall|a: int| 0 <= a < nt ==> (#[trigger] v.tokens[a]).fail_count >= 0,
            forall|a: int, b: int|
                0 <= a < b < i ==> !((#[trigger] v.subs[a]).user_id == (#[trigger] v.subs[b]).user_id
                    && v.subs[a].token == v.subs[b].token),
            forall|a: int| 0 <= a < i ==> has_token(v.tokens, (#[trigger] v.subs[a]).token),
        decreases ns - i,
    {
        assert(v.subs[i as int] == subs@[i as int]@);
        let mut j: usize = 0;
        while j < i
            invariant
                ns == v.subs.len(),
                v.subs == subs@.map_values(|s: Subscription| s@),
                v.tokens == tokens@.map_values(|t: TokenRecord| t@),
                j <= i < ns,
                forall|b: int|
                    0 <= b < j ==> !((#[trigger] v.subs[b]).user_id == v.subs[i as int].user_id
                        && v.subs[b].token == v.subs[i as int].token),
            decreases i - j,
        {
            assert(v.subs[j as int] == subs@[j as int]@);
            assert(v.subs[i as int] == subs@[i as int]@);
            if subs[j].user_id == subs[i].user_id && str_equal(subs[j].token.as_str(), subs[i].token.as_str()) {
                assert(v.subs[j as int].user_id == v.subs[i as int].user_id && v.subs[j as int].token == v.subs[i as int].token);
                return false;
            }
            j = j + 1;
        }
        let mut k: usize = 0;
        let mut found = false;
        while k < nt
            invariant
                nt == v.tokens.len(),
                ns == v.subs.len(),
                v.tokens == tokens@.map_values(|t: TokenRecord| t@),
                v.subs == subs@.map_values(|s: Subscription| s@),
                i < ns,
                k <= nt,
                found ==> has_token(v.tokens, v.subs[i as int].token),
                !found ==> forall|b: int| 0 <= b < k ==> (#[trigger] v.tokens[b]).token != v.subs[i as int].token,
            decreases nt - k,
        {
            assert(v.tokens[k as int] == tokens@[k as int]@);
            assert(v.subs[i as int] == subs@[i as int]@);
            if !found && str_equal(tokens[k].token.as_str(), subs[i].token.as_str()) {
                found = true;
            }
            k = k + 1;
        }
        if !found {
            return false;
        }
        i = i + 1;
    }
    true
}

impl Tables {
    /// A store holding exactly the given tokens and subscriptions, when they
    /// meet the store's invariant; `None` otherwise.
    fn from_parts(tokens: Vec<TokenRecord>, subs: Vec<Subscription>) -> (r: Option<Tables>)
        ensures
            match r {
                Some(st) => {
                    &&& st@.tokens == tokens@.map_values(|t: TokenRecord| t@)
                    &&& st@.subs == subs@.map_values(|s: Subscription| s@)
                    &&& store_wf(st@)
                },
                None => !store_wf(
                    StoreView {
                        tokens: tokens@.map_values(|t: TokenRecord| t@),
                        subs: subs@.map_values(|s: Subscription| s@),
                    },
                ),
            },
    {
        if parts_wf(&tokens, &subs) {
            Some(Tables { tokens, subs })
        } else {
            None
        }
    }
}

impl TrackStore {
    /// The empty store.
    pub fn new() -> (r: TrackStore)
        ensures
            r@.tokens == Seq::<TokenView>::empty(),
            r@.subs == Seq::<SubView>::empty(),
            store_wf(r@),
    {
        TrackStore { t: Tables::new() }
    }

    /// A store holding exactly the given tokens and subscriptions, when they
    /// meet the store's invariant; `None` otherwise.
    pub fn from_parts(tokens: Vec<TokenRecord>, subs: Vec<Subscription>) -> (r: Option<TrackStore>)
        ensures
            match r {
                Some(st) => {
                    &&& st@.tokens == tokens@.map_values(|t: TokenRecord| t@)
                    &&& st@.subs == subs@.map_values(|s: Subscription| s@)
                    &&& store_wf(st@)
                },
                None => !store_wf(
                    StoreView {
                        tokens: tokens@.map_values(|t: TokenRecord| t@),
                        subs: subs@.map_values(|s: Subscription| s@),
                    },
                ),
            },
    {
        match Tables::from_parts(tokens, subs) {
            Some(t) => Some(TrackStore { t }),
            None => None,
        }
    }

    /// The stored tokens, in the order they were first added.
    pub fn token_records(&self) -> (r: &Vec<TokenRecord>)
        ensures
            r@.map_values(|t: TokenRecord| t@) == self@.tokens,
    {
        self.t.token_records()
    }

    /// The subscriptions, in the order they were made.
    pub fn subscriptions(&self) -> (r: &Vec<Subscription>)
        ensures
            r@.map_values(|s: Subscription| s@) == self@.subs,
    {
        self.t.subscriptions()
    }

    /// Whether `user_id` follows `token`.
    pub fn is_subscribed(&self, user_id: i64, token: &str) -> (b: bool)
        ensures
            b == has_sub(self@.subs, user_id, token@),
    {
        self.t.is_subscribed(user_id, token)
    }

    /// The (user, chat) pairs following `token`, in subscription order.
    pub fn subscribers(&self, token: &str) -> (r: Vec<(i64, i64)>)
        ensures
            r@ == subs_of(self@.subs, token@),
    {
        self.t.subscribers(token)
    }

    /// Every stored token, for polling.
    pub fn due_tokens(&self) -> (r: Vec<TokenRow>)
        ensures
            r@.map_values(|t: TokenRow| t@) == self@.tokens.map_values(|t: TokenView| row_of(t)),
    {
        self.t.due_tokens()
    }

    /// The tokens `user_id` follows, ordered by when the user joined each.
    pub fn list_user(&self, user_id: i64) -> (r: Vec<UserTokenRow>)
        ensures
            r@.map_values(|u: UserTokenRow| u@) == list_spec(self@, user_id),
    {
        proof {
            use_type_invariant(self);
        }
        self.t.list_user(user_id)
    }

    /// Add `user_id`'s subscription to `token` (renewing the token's time to
    /// live), and report whether it is new, with the token's stored snapshot.
    pub fn add_subscription(&mut self, user_id: i64, chat_id: i64, token: String, rand: i64, now: i64) -> (r: AddResult)
        ensures
            store_wf(final(self)@),
            final(self)@ == add_spec(old(self)@, user_id, chat_id, token@, rand, now),
            r@ == if has_sub(old(self)@.subs, user_id, token@) {
                AddResultView::AlreadySubscribed(stored_snapshot(old(self)@.tokens, token@))
            } else {
                AddResultView::Added(stored_snapshot(old(self)@.tokens, token@))
            },
    {
        proof {
            use_type_invariant(&*self);
        }
        let mut t = Tables::new();
        std::mem::swap(&mut t, &mut self.t);
        let r = t.add_subscription(user_id, chat_id, token, rand, now);
        self.t = t;
        r
    }

    /// Stop tracking `token`: remove it and every subscription to it.
    pub fn purge_token(&mut self, token: &str)
        ensures
            store_wf(final(self)@),
            final(self)@ == purge_spec(old(self)@, token@),
    {
        proof {
            use_type_invariant(&*self);
        }
        let mut t = Tables::new();
        std::mem::swap(&mut t, &mut self.t);
        t.purge_token(token);
        self.t = t;
    }

    /// Remove `user_id`'s subscription to `token`; when nobody follows the
    /// token any more it is removed too.
    pub fn unsubscribe(&mut self, user_id: i64, token: &str) -> (r: UnsubResult)
        ensures
            store_wf(final(self)@),
            final(self)@ == unsubscribe_spec(old(self)@, user_id, token@),
            (r is Removed) == has_sub(old(self)@.subs, user_id, token@),
    {
        proof {
            use_type_invariant(&*self);
        }
        let mut t = Tables::new();
        std::mem::swap(&mut t, &mut self.t);
        let r = t.unsubscribe(user_id, token);
        self.t = t;
        r
    }

    /// Record a successful poll of `token`: store its snapshot and the poll
    /// time, reset its failure count. Nothing happens to an unknown token.
    pub fn record_poll_success(&mut self, token: &str, snapshot: Snapshot, now: i64)
        ensures
            store_wf(final(self)@),
            final(self)@ == success_spec(old(self)@, token@, snapshot@, now),
    {
        proof {
            use_type_invariant(&*self);
        }
        let mut t = Tables::new();
        std::mem::swap(&mut t, &mut self.t);
        t.record_poll_success(token, snapshot, now);
        self.t = t;
    }

    /// Store `snapshot` as the first snapshot of `token`, only if it has none yet.
    pub fn store_snapshot_if_null(&mut self, token: &str, snapshot: Snapshot, now: i64)
        ensures
            store_wf(final(self)@),
            final(self)@ == store_first_spec(old(self)@, token@, snapshot@, now),
    {
        proof {
            use_type_invariant(&*self);
        }
        let mut t = Tables::new();
        std::mem::swap(&mut t, &mut self.t);
        t.store_snapshot_if_null(token, snapshot, now);
        self.t = t;
    }

    /// Record a failed poll of `token` and return its failure count.
    pub fn record_poll_failure(&mut self, token: &str, now: i64) -> (r: Result<i64, DbError>)
        ensures
            store_wf(final(self)@),
            match r {
                Ok(fc) => {
                    &&& has_token(old(self)@.tokens, token@)
                    &&& old(self)@.tokens[token_idx(old(self)@.tokens, token@)].fail_count < i64::MAX
                    &&& fc == old(self)@.tokens[token_idx(old(self)@.tokens, token@)].fail_count + 1
                    &&& final(self)@ == failure_spec(old(self)@, token@, now)
                },
                Err(e) => {
                    &&& final(self)@ == old(self)@
                    &&& (e is UnknownToken) == !has_token(old(self)@.tokens, token@)
                    &&& (e is FailCountOverflow) == (has_token(old(self)@.tokens, token@)
                        && old(self)@.tokens[token_idx(old(self)@.tokens, token@)].fail_count == i64::MAX)
                },
            },
    {
        proof {
            use_type_invariant(&*self);
        }
        let mut t = Tables::new();
        std::mem::swap(&mut t, &mut self.t);
        let r = t.record_poll_failure(token, now);
        self.t = t;
        r
    }

    /// Remove every token whose time to live has run out (created at or
    /// before `now - ttl_hours * 3600`), with its subscriptions, and report
    /// them in store order.
    pub fn expire_sweep(&mut self, now: i64, ttl_hours: i64) -> (r: Vec<ExpiredToken>)
        ensures
            store_wf(final(self)@),
            final(self)@ == sweep_spec(old(self)@, now, ttl_hours),
            r@.map_values(|e: ExpiredToken| e@) == sweep_result(old(self)@, now, ttl_hours),
    {
        proof {
            use_type_invariant(&*self);
        }
        let mut t = Tables::new();
        std::mem::swap(&mut t, &mut self.t);
        let r = t.expire_sweep(now, ttl_hours);
        self.t = t;
        r
    }
}

/// Sending a token renews it: afterwards it is stored, with `now` as its
/// creation time and (when it was already stored) its old random value, and
/// the user follows it.
pub proof fn lemma_add_renews_and_subscribes(v: StoreView, user: i64, chat: i64, tok: Seq<char>, rand: i64, now: i64)
    requires
        store_wf(v),
    ensures
        ({
            let w = add_spec(v, user, chat, tok, rand, now);
            &&& store_wf(w)
            &&& has_token(w.tokens, tok)
            &&& w.tokens[token_idx(w.tokens, tok)].created_at == now
            &&& w.tokens[token_idx(w.tokens, tok)].rand == if has_token(v.tokens, tok) {
                v.tokens[token_idx(v.tokens, tok)].rand
            } else {
                rand
            }
            &&& has_sub(w.subs, user, tok)
        }),
{
    lemma_add_keeps_wf(v, user, chat, tok, rand, now);
    let w = add_spec(v, user, chat, tok, rand, now);
    let i = if has_token(v.tokens, tok) {
        token_idx(v.tokens, tok)
    } else {
        v.tokens.len() as int
    };
    assert(w.tokens[i].token == tok);
    assert forall|a: int, b: int|
        0 <= a < b < w.tokens.len() implies (#[trigger] w.tokens[a]).token != (#[trigger] w.tokens[b]).token by {
        if has_token(v.tokens, tok) {
            assert(w.tokens[a].token == v.tokens[a].token);
            assert(w.tokens[b].token == v.tokens[b].token);
        } else if b == v.tokens.len() {
            assert(w.tokens[a] == v.tokens[a]);
        } else {
            assert(w.tokens[a] == v.tokens[a]);
            assert(w.tokens[b] == v.tokens[b]);
        }
    }
    lemma_token_idx(w.tokens, i);
    if !has_sub(v.subs, user, tok) {
        assert(w.subs[v.subs.len() as int].user_id == user);
    }
}

/// Adding the same subscription again changes no subscription.
pub proof fn lemma_add_twice_keeps_one_subscription(
    v: StoreView,
    user: i64,
    chat1: i64,
    chat2: i64,
    tok: Seq<char>,
    rand1: i64,
    rand2: i64,
    now1: i64,
    now2: i64,
)
    requires
        store_wf(v),
    ensures
        add_spec(add_spec(v, user, chat1, tok, rand1, now1), user, chat2, tok, rand2, now2).subs
            == add_spec(v, user, chat1, tok, rand1, now1).subs,
{
    lemma_add_renews_and_subscribes(v, user, chat1, tok, rand1, now1);
}

/// After a user unsubscribes from a token they no longer follow it, everyone
/// else keeps their subscriptions, and a token nobody follows any more is no
/// longer tracked.
pub proof fn lemma_unsubscribe_effect(v: StoreView, user: i64, tok: Seq<char>)
    requires
        store_wf(v),
    ensures
        ({
            let w = unsubscribe_spec(v, user, tok);
            &&& !has_sub(w.subs, user, tok)
            &&& forall|i: int|
                0 <= i < v.subs.len() && !((#[trigger] v.subs[i]).user_id == user && v.subs[i].token == tok)
                    ==> w.subs.contains(v.subs[i])
            &&& has_sub(v.subs, user, tok) && !token_followed(w.subs, tok) ==> !has_token(w.tokens, tok)
        }),
{
    let w = unsubscribe_spec(v, user, tok);
    let p = |s: SubView| !(s.user_id == user && s.token == tok);
    if has_sub(v.subs, user, tok) {
        let f = v.subs.filter(p);
        assert(w.subs == f);
        if has_sub(w.subs, user, tok) {
            let k = choose|k: int| 0 <= k < f.len() && (#[trigger] f[k]).user_id == user && f[k].token == tok;
            v.subs.lemma_filter_pred(p, k);
        }
        assert forall|i: int|
            0 <= i < v.subs.len() && !((#[trigger] v.subs[i]).user_id == user && v.subs[i].token == tok)
                implies w.subs.contains(v.subs[i]) by {
            v.subs.lemma_filter_contains(p, i);
        }
        if !token_followed(w.subs, tok) {
            let pt = |t: TokenView| t.token != tok;
            if has_token(w.tokens, tok) {
                let k = choose|k: int| 0 <= k < w.tokens.len() && (#[trigger] w.tokens[k]).token == tok;
                v.tokens.lemma_filter_pred(pt, k);
            }
        }
    } else {
        assert forall|i: int|
            0 <= i < v.subs.len() && !((#[trigger] v.subs[i]).user_id == user && v.subs[i].token == tok)
                implies w.subs.contains(v.subs[i]) by {
            assert(w.subs[i] == v.subs[i]);
        }
    }
}

/// A purged token is neither stored nor followed.
pub proof fn lemma_purge_removes_token(v: StoreView, tok: Seq<char>)
    ensures
        !has_token(purge_spec(v, tok).tokens, tok),
        !token_followed(purge_spec(v, tok).subs, tok),
{
    let w = purge_spec(v, tok);
    let pt = |t: TokenView| t.token != tok;
    let ps = |s: SubView| s.token != tok;
    if has_token(w.tokens, tok) {
        let k = choose|k: int| 0 <= k < w.tokens.len() && (#[trigger] w.tokens[k]).token == tok;
        v.tokens.lemma_filter_pred(pt, k);
    }
    if token_followed(w.subs, tok) {
        let k = choose|k: int| 0 <= k < w.subs.len() && (#[trigger] w.subs[k]).token == tok;
        v.subs.lemma_filter_pred(ps, k);
    }
}

/// After a successful poll the token holds the new snapshot and no failures;
/// after a failed one its failure count is one more than before.
pub proof fn lemma_poll_counts(v: StoreView, tok: Seq<char>, snap: Fields, now: i64)
    requires
        store_wf(v),
        has_token(v.tokens, tok),
    ensures
        ({
            let i = token_idx(v.tokens, tok);
            let ok = success_spec(v, tok, snap, now);
            let bad = failure_spec(v, tok, now);
            &&& token_idx(ok.tokens, tok) == i
            &&& ok.tokens[i].fail_count == 0
            &&& ok.tokens[i].last_snapshot == Some(snap)
            &&& token_idx(bad.tokens, tok) == i
            &&& v.tokens[i].fail_count < i64::MAX ==> bad.tokens[i].fail_count == v.tokens[i].fail_count + 1
        }),
{
    let i = token_idx(v.tokens, tok);
    let ok = success_spec(v, tok, snap, now);
    let bad = failure_spec(v, tok, now);
    assert forall|a: int, b: int|
        0 <= a < b < ok.tokens.len() implies (#[trigger] ok.tokens[a]).token != (#[trigger] ok.tokens[b]).token by {
        assert(ok.tokens[a].token == v.tokens[a].token);
        assert(ok.tokens[b].token == v.tokens[b].token);
    }
    assert forall|a: int, b: int|
        0 <= a < b < bad.tokens.len() implies (#[trigger] bad.tokens[a]).token != (#[trigger] bad.tokens[b]).token by {
        assert(bad.tokens[a].token == v.tokens[a].token);
        assert(bad.tokens[b].token == v.tokens[b].token);
    }
    lemma_token_idx(ok.tokens, i);
    lemma_token_idx(bad.tokens, i);
}

/// Only the first snapshot stored for a token is kept by the first-snapshot store.
pub proof fn lemma_first_snapshot_kept(v: StoreView, tok: Seq<char>, s1: Fields, n1: i64, s2: Fields, n2: i64)
    requires
        store_wf(v),
        has_token(v.tokens, tok),
        v.tokens[token_idx(v.tokens, tok)].last_snapshot is None,
    ensures
        ({
            let w = store_first_spec(store_first_spec(v, tok, s1, n1), tok, s2, n2);
            w.tokens[token_idx(w.tokens, tok)].last_snapshot == Some(s1)
        }),
{
    lemma_poll_counts(v, tok, s1, n1);
    let w1 = store_first_spec(v, tok, s1, n1);
    let i = token_idx(v.tokens, tok);
    assert(w1.tokens[i].token == tok);
}

/// After the expiry sweep no stored token has expired, the unexpired ones
/// are all still there, and a second sweep at the same time finds nothing.
pub proof fn lemma_sweep_leaves_nothing_expired(v: StoreView, now: i64, ttl_hours: i64)
    ensures
        forall|k: int|
            0 <= k < sweep_spec(v, now, ttl_hours).tokens.len() ==> !expired(
                #[trigger] sweep_spec(v, now, ttl_hours).tokens[k],
                now,
                ttl_hours,
            ),
        forall|k: int|
            0 <= k < v.tokens.len() && !expired(#[trigger] v.tokens[k], now, ttl_hours)
                ==> sweep_spec(v, now, ttl_hours).tokens.contains(v.tokens[k]),
        sweep_result(sweep_spec(v, now, ttl_hours), now, ttl_hours).len() == 0,
{
    let w = sweep_spec(v, now, ttl_hours);
    let pk = |t: TokenView| !expired(t, now, ttl_hours);
    let pe = |t: TokenView| expired(t, now, ttl_hours);
    assert forall|k: int| 0 <= k < w.tokens.len() implies !expired(#[trigger] w.tokens[k], now, ttl_hours) by {
        v.tokens.lemma_filter_pred(pk, k);
    }
    assert forall|k: int|
        0 <= k < v.tokens.len() && !expired(#[trigger] v.tokens[k], now, ttl_hours) implies w.tokens.contains(
            v.tokens[k],
        ) by {
        v.tokens.lemma_filter_contains(pk, k);
    }
    let f = w.tokens.filter(pe);
    if f.len() > 0 {
        w.tokens.lemma_filter_pred(pe, 0);
        assert(f.contains(f[0]));
        w.tokens.lemma_filter_contains_rev(pe, f[0]);
        let k = choose|k: int| 0 <= k < w.tokens.len() && w.tokens[k] == f[0];
        assert(!expired(w.tokens[k], now, ttl_hours));
    }
}

proof fn lemma_add_keeps_wf(v: StoreView, user: i64, chat: i64, tok: Seq<char>, rand: i64, now: i64)
    requires
        store_wf(v),
    ensures
        store_wf(add_spec(v, user, chat, tok, rand, now)),
{
    let nv = add_spec(v, user, chat, tok, rand, now);
    assert(has_token(nv.tokens, tok)) by {
        if has_token(v.tokens, tok) {
            let i = token_idx(v.tokens, tok);
            assert(nv.tokens[i].token == tok);
        } else {
            assert(nv.tokens[nv.tokens.len() - 1].token == tok);
        }
    }
    assert forall|i: int, j: int|
        0 <= i < j < nv.tokens.len() implies (#[trigger] nv.tokens[i]).token != (
        #[trigger] nv.tokens[j]).token by {
        if has_token(v.tokens, tok) {
            assert(nv.tokens[i].token == v.tokens[i].token);
            assert(nv.tokens[j].token == v.tokens[j].token);
        } else if j == v.tokens.len() {
            assert(nv.tokens[i] == v.tokens[i]);
        } else {
            assert(nv.tokens[i] == v.tokens[i]);
            assert(nv.tokens[j] == v.tokens[j]);
        }
    }
    assert forall|i: int| 0 <= i < nv.subs.len() implies has_token(
        nv.tokens,
        (#[trigger] nv.subs[i]).token,
    ) by {
        if i < v.subs.len() {
            assert(nv.subs[i] == v.subs[i]);
            assert(has_token(v.tokens, v.subs[i].token));
            let k = choose|k: int| 0 <= k < v.tokens.len() && (#[trigger] v.tokens[k]).token == v.subs[i].token;
            assert(nv.tokens[k].token == v.tokens[k].token);
        }
    }
    assert forall|i: int| 0 <= i < nv.tokens.len() implies (#[trigger] nv.tokens[i]).fail_count >= 0 by {
        if i < v.tokens.len() {
            assert(nv.tokens[i].fail_count == v.tokens[i].fail_count);
        }
    }
    assert forall|i: int, j: int|
        0 <= i < j < nv.subs.len() implies !((#[trigger] nv.subs[i]).user_id == (
        #[trigger] nv.subs[j]).user_id && nv.subs[i].token == nv.subs[j].token) by {
        if j == v.subs.len() {
            assert(nv.subs[i] == v.subs[i]);
        }
    }
}

} // verus!
