use vstd::prelude::*;
use crate::text::{is_ascii_alnum, is_alnum_char, is_ws, trim_end_seq, trim_seq, trim_start_seq, trim_str};

verus! {

/// End of the run of ASCII letters and digits that starts at `j`.
pub open spec fn alnum_run_end(s: Seq<char>, j: int) -> int
    decreases s.len() - j,
{
    if 0 <= j < s.len() && is_ascii_alnum(s[j]) {
        alnum_run_end(s, j + 1)
    } else {
        j
    }
}

/// `[?&]token=[A-Za-z0-9]` starts at `i`.
pub open spec fn query_at(s: Seq<char>, i: int) -> bool {
    &&& 0 <= i
    &&& i + 7 < s.len()
    &&& (s[i] == '?' || s[i] == '&')
    &&& s[i + 1] == 't'
    &&& s[i + 2] == 'o'
    &&& s[i + 3] == 'k'
    &&& s[i + 4] == 'e'
    &&& s[i + 5] == 'n'
    &&& s[i + 6] == '='
    &&& is_ascii_alnum(s[i + 7])
}

/// `#/[A-Za-z0-9]` starts at `i`.
pub open spec fn hash_at(s: Seq<char>, i: int) -> bool {
    &&& 0 <= i
    &&& i + 2 < s.len()
    &&& s[i] == '#'
    &&& s[i + 1] == '/'
    &&& is_ascii_alnum(s[i + 2])
}

/// Leftmost position at or after `i` where a query-parameter token starts.
pub open spec fn first_query(s: Seq<char>, i: int) -> Option<int>
    decreases s.len() - i,
{
    if i < 0 || i >= s.len() {
        None
    } else if query_at(s, i) {
        Some(i)
    } else {
        first_query(s, i + 1)
    }
}

/// Leftmost position at or after `i` where a `#/` token starts.
pub open spec fn first_hash(s: Seq<char>, i: int) -> Option<int>
    decreases s.len() - i,
{
    if i < 0 || i >= s.len() {
        None
    } else if hash_at(s, i) {
        Some(i)
    } else {
        first_hash(s, i + 1)
    }
}

/// A bare token: 4 to 32 ASCII letters or digits and nothing else.
pub open spec fn is_bare_token(t: Seq<char>) -> bool {
    4 <= t.len() <= 32 && forall|k: int| 0 <= k < t.len() ==> is_ascii_alnum(t[k])
}

/// The token a message carries. First the leftmost `?token=` / `&token=`
/// followed by the longest run of ASCII letters and digits; else the leftmost
/// `#/` followed by such a run; else the whole message with surrounding
/// whitespace removed, if that is a bare token.
pub open spec fn parse_token_spec(s: Seq<char>) -> Option<Seq<char>> {
    match first_query(s, 0) {
        Some(i) => Some(s.subrange(i + 7, alnum_run_end(s, i + 7))),
        None => match first_hash(s, 0) {
            Some(i) => Some(s.subrange(i + 2, alnum_run_end(s, i + 2))),
            None => if is_bare_token(trim_seq(s)) {
                Some(trim_seq(s))
            } else {
                None
            },
        },
    }
}

proof fn lemma_run_end_bounds(s: Seq<char>, j: int)
    requires
        0 <= j <= s.len(),
    ensures
        j <= alnum_run_end(s, j) <= s.len(),
        forall|k: int| j <= k < alnum_run_end(s, j) ==> is_ascii_alnum(s[k]),
    decreases s.len() - j,
{
    if j < s.len() && is_ascii_alnum(s[j]) {
        lemma_run_end_bounds(s, j + 1);
    }
}

fn run_end(s: &str, n: usize, j: usize) -> (e: usize)
    requires
        n == s@.len(),
        j <= n,
    ensures
        e == alnum_run_end(s@, j as int),
        j <= e <= n,
{
    let mut e = j;
    while e < n && is_alnum_char(s.get_char(e))
        invariant
            n == s@.len(),
            j <= e <= n,
            alnum_run_end(s@, e as int) == alnum_run_end(s@, j as int),
        decreases n - e,
    {
        e = e + 1;
    }
    e
}

fn query_at_exec(s: &str, n: usize, i: usize) -> (b: bool)
    requires
        n == s@.len(),
    ensures
        b == query_at(s@, i as int),
{
    if i >= n || n - i <= 7 {
        return false;
    }
    let c = s.get_char(i);
    (c == '?' || c == '&') && s.get_char(i + 1) == 't' && s.get_char(i + 2) == 'o'
        && s.get_char(i + 3) == 'k' && s.get_char(i + 4) == 'e' && s.get_char(i + 5) == 'n'
        && s.get_char(i + 6) == '=' && is_alnum_char(s.get_char(i + 7))
}

fn hash_at_exec(s: &str, n: usize, i: usize) -> (b: bool)
    requires
        n == s@.len(),
    ensures
        b == hash_at(s@, i as int),
{
    if i >= n || n - i <= 2 {
        return false;
    }
    s.get_char(i) == '#' && s.get_char(i + 1) == '/' && is_alnum_char(s.get_char(i + 2))
}

fn find_query(s: &str, n: usize) -> (r: Option<usize>)
    requires
        n == s@.len(),
    ensures
        match r {
            Some(i) => first_query(s@, 0) == Some(i as int) && query_at(s@, i as int),
            None => first_query(s@, 0) is None,
        },
{
    let mut i: usize = 0;
    while i < n
        invariant
            n == s@.len(),
            i <= n,
            first_query(s@, 0) == first_query(s@, i as int),
        decreases n - i,
    {
        if query_at_exec(s, n, i) {
            return Some(i);
        }
        i = i + 1;
    }
    None
}

fn find_hash(s: &str, n: usize) -> (r: Option<usize>)
    requires
        n == s@.len(),
    ensures
        match r {
            Some(i) => first_hash(s@, 0) == Some(i as int) && hash_at(s@, i as int),
            None => first_hash(s@, 0) is None,
        },
{
    let mut i: usize = 0;
    while i < n
        invariant
            n == s@.len(),
            i <= n,
            first_hash(s@, 0) == first_hash(s@, i as int),
        decreases n - i,
    {
        if hash_at_exec(s, n, i) {
            return Some(i);
        }
        i = i + 1;
    }
    None
}

/// Extract a delivery token from a user message. Order: `?token=` /
/// `&token=`, then `#/<token>`, then the whole trimmed message as a bare token.
pub fn parse_token(text: &str) -> (r: Option<String>)
    ensures
        match r {
            Some(t) => parse_token_spec(text@) == Some(t@),
            None => parse_token_spec(text@) is None,
        },
{
    let n = text.unicode_len();
    match find_query(text, n) {
        Some(i) => {
            let e = run_end(text, n, i + 7);
            return Some(String::from_str(text.substring_char(i + 7, e)));
        },
        None => {},
    }
    match find_hash(text, n) {
        Some(i) => {
            let e = run_end(text, n, i + 2);
            return Some(String::from_str(text.substring_char(i + 2, e)));
        },
        None => {},
    }
    let t = trim_str(text);
    let m = t.unicode_len();
    if m < 4 || m > 32 {
        return None;
    }
    let mut k: usize = 0;
    while k < m
        invariant
            m == t@.len(),
            k <= m,
            t@ == trim_seq(text@),
            first_query(text@, 0) is None,
            first_hash(text@, 0) is None,
            forall|q: int| 0 <= q < k ==> is_ascii_alnum(t@[q]),
        decreases m - k,
    {
        if !is_alnum_char(t.get_char(k)) {
            assert(!is_ascii_alnum(t@[k as int]));
            return None;
        }
        k = k + 1;
    }
    Some(String::from_str(t))
}

/// A token that comes out of a message is a non-empty run of ASCII letters
/// and digits.
pub proof fn lemma_parsed_token_is_alnum(s: Seq<char>)
    ensures
        parse_token_spec(s) matches Some(t) ==> t.len() > 0 && forall|k: int|
            0 <= k < t.len() ==> is_ascii_alnum(#[trigger] t[k]),
{
    lemma_first_query_found(s, 0);
    lemma_first_hash_found(s, 0);
    match first_query(s, 0) {
        Some(i) => {
            lemma_run_end_bounds(s, i + 7);
            lemma_run_end_bounds(s, i + 8);
            assert(alnum_run_end(s, i + 7) == alnum_run_end(s, i + 8));
            let t = s.subrange(i + 7, alnum_run_end(s, i + 7));
            assert forall|k: int| 0 <= k < t.len() implies is_ascii_alnum(#[trigger] t[k]) by {
                assert(t[k] == s[i + 7 + k]);
            }
        },
        None => match first_hash(s, 0) {
            Some(i) => {
                lemma_run_end_bounds(s, i + 2);
                lemma_run_end_bounds(s, i + 3);
                assert(alnum_run_end(s, i + 2) == alnum_run_end(s, i + 3));
                let t = s.subrange(i + 2, alnum_run_end(s, i + 2));
                assert forall|k: int| 0 <= k < t.len() implies is_ascii_alnum(#[trigger] t[k]) by {
                    assert(t[k] == s[i + 2 + k]);
                }
            },
            None => {},
        },
    }
}

proof fn lemma_first_query_found(s: Seq<char>, i: int)
    ensures
        first_query(s, i) matches Some(p) ==> query_at(s, p) && i <= p,
    decreases s.len() - i,
{
    if 0 <= i < s.len() && !query_at(s, i) {
        lemma_first_query_found(s, i + 1);
    }
}

proof fn lemma_first_hash_found(s: Seq<char>, i: int)
    ensures
        first_hash(s, i) matches Some(p) ==> hash_at(s, p) && i <= p,
    decreases s.len() - i,
{
    if 0 <= i < s.len() && !hash_at(s, i) {
        lemma_first_hash_found(s, i + 1);
    }
}

proof fn lemma_trim_end_ws_suffix(x: Seq<char>, w: Seq<char>)
    requires
        x.len() > 0,
        !is_ws(x.last()),
        forall|k: int| 0 <= k < w.len() ==> is_ws(#[trigger] w[k]),
    ensures
        trim_end_seq(x + w) == x,
    decreases w.len(),
{
    if w.len() == 0 {
        assert(x + w =~= x);
    } else {
        let w2 = w.drop_last();
        assert((x + w).drop_last() =~= x + w2);
        assert((x + w).last() == w[w.len() - 1]);
        assert forall|k: int| 0 <= k < w2.len() implies is_ws(#[trigger] w2[k]) by {
            assert(w2[k] == w[k]);
        }
        lemma_trim_end_ws_suffix(x, w2);
    }
}

proof fn lemma_trim_start_ws_prefix(w: Seq<char>, x: Seq<char>)
    requires
        x.len() > 0,
        !is_ws(x[0]),
        forall|k: int| 0 <= k < w.len() ==> is_ws(#[trigger] w[k]),
    ensures
        trim_start_seq(w + x) == x,
    decreases w.len(),
{
    if w.len() == 0 {
        assert(w + x =~= x);
    } else {
        let w2 = w.drop_first();
        assert((w + x).drop_first() =~= w2 + x);
        assert((w + x)[0] == w[0]);
        assert forall|k: int| 0 <= k < w2.len() implies is_ws(#[trigger] w2[k]) by {
            assert(w2[k] == w[k + 1]);
        }
        lemma_trim_start_ws_prefix(w2, x);
    }
}

proof fn lemma_no_marks(s: Seq<char>, i: int)
    requires
        0 <= i,
        forall|k: int| 0 <= k < s.len() ==> s[k] != '?' && s[k] != '&' && s[k] != '#',
    ensures
        first_query(s, i) is None,
        first_hash(s, i) is None,
    decreases s.len() - i,
{
    if i < s.len() {
        lemma_no_marks(s, i + 1);
    }
}

/// A bare token, alone in a message but for surrounding whitespace, is the
/// token the message carries.
pub proof fn lemma_bare_token_parses(w1: Seq<char>, t: Seq<char>, w2: Seq<char>)
    requires
        is_bare_token(t),
        forall|k: int| 0 <= k < w1.len() ==> is_ws(#[trigger] w1[k]),
        forall|k: int| 0 <= k < w2.len() ==> is_ws(#[trigger] w2[k]),
    ensures
        parse_token_spec(w1 + t + w2) == Some(t),
{
    let s = w1 + t + w2;
    assert forall|k: int| 0 <= k < s.len() implies s[k] != '?' && s[k] != '&' && s[k] != '#' by {
        if k < w1.len() {
            assert(s[k] == w1[k]);
            assert(is_ws(w1[k]));
        } else if k < w1.len() + t.len() {
            assert(s[k] == t[k - w1.len()]);
            assert(is_ascii_alnum(t[k - w1.len()]));
        } else {
            assert(s[k] == w2[k - w1.len() - t.len()]);
            assert(is_ws(w2[k - w1.len() - t.len()]));
        }
    }
    lemma_no_marks(s, 0);
    assert(is_ascii_alnum(t[t.len() - 1]));
    assert(is_ascii_alnum(t[0]));
    let x = w1 + t;
    assert(x.last() == t[t.len() - 1]);
    lemma_trim_end_ws_suffix(x, w2);
    lemma_trim_start_ws_prefix(w1, t);
}

proof fn lemma_first_query_skip(s: Seq<char>, i: int, j: int)
    requires
        0 <= i <= j,
        forall|k: int| i <= k < j ==> !query_at(s, k),
    ensures
        j <= s.len() ==> first_query(s, i) == first_query(s, j),
    decreases j - i,
{
    if i < j {
        lemma_first_query_skip(s, i + 1, j);
    }
}

proof fn lemma_first_hash_skip(s: Seq<char>, i: int, j: int)
    requires
        0 <= i <= j,
        forall|k: int| i <= k < j ==> !hash_at(s, k),
    ensures
        j <= s.len() ==> first_hash(s, i) == first_hash(s, j),
    decreases j - i,
{
    if i < j {
        lemma_first_hash_skip(s, i + 1, j);
    }
}

proof fn lemma_run_end_at(s: Seq<char>, j: int, e: int)
    requires
        0 <= j <= e <= s.len(),
        forall|k: int| j <= k < e ==> is_ascii_alnum(#[trigger] s[k]),
        e == s.len() || !is_ascii_alnum(s[e]),
    ensures
        alnum_run_end(s, j) == e,
    decreases e - j,
{
    if j < e {
        lemma_run_end_at(s, j + 1, e);
    }
}

/// `piece` occurs in `s`.
pub open spec fn holds_piece(s: Seq<char>, piece: Seq<char>) -> bool {
    exists|i: int| 0 <= i && i + piece.len() <= s.len() && #[trigger] s.subrange(i, i + piece.len()) == piece
}

/// The token a link carries in the form `<text>?token=<t><rest>` or
/// `<text>&token=<t><rest>`: `t` itself, whatever other query parameters the
/// text before holds, as long as it holds no `?token=` or `&token=` of its
/// own, and the rest does not go on with a letter or digit.
pub proof fn lemma_query_link_parses(p: Seq<char>, mark: char, t: Seq<char>, q: Seq<char>)
    requires
        mark == '?' || mark == '&',
        t.len() > 0,
        forall|k: int| 0 <= k < t.len() ==> is_ascii_alnum(#[trigger] t[k]),
        !holds_piece(p, "?token="@),
        !holds_piece(p, "&token="@),
        q.len() == 0 || !is_ascii_alnum(q[0]),
    ensures
        parse_token_spec(p + seq![mark] + "token="@ + t + q) == Some(t),
{
    reveal_strlit("token=");
    reveal_strlit("?token=");
    reveal_strlit("&token=");
    let s = p + seq![mark] + "token="@ + t + q;
    let a = p.len() as int;
    assert forall|k: int| 0 <= k < a implies !query_at(s, k) by {
        if query_at(s, k) {
            if k + 6 >= a {
                assert(s[k + 6] != '=');
            }
            assert forall|j: int| 0 <= j < 7 implies #[trigger] p[k + j] == s[k + j] by {}
            if s[k] == '?' {
                assert(p.subrange(k, k + 7) =~= "?token="@);
                assert(holds_piece(p, "?token="@));
            } else {
                assert(p.subrange(k, k + 7) =~= "&token="@);
                assert(holds_piece(p, "&token="@));
            }
        }
    }
    lemma_first_query_skip(s, 0, a);
    assert(s[a + 7] == t[0]);
    assert(query_at(s, a));
    let e = a + 7 + t.len();
    assert forall|k: int| a + 7 <= k < e implies is_ascii_alnum(#[trigger] s[k]) by {
        assert(s[k] == t[k - a - 7]);
    }
    if e < s.len() {
        assert(s[e] == q[0]);
    }
    lemma_run_end_at(s, a + 7, e);
    assert(s.subrange(a + 7, e) =~= t);
}

/// The token a link carries in the form `<text>#/<t><rest>`: `t` itself,
/// when neither the text before nor the rest holds a `?token=` or
/// `&token=`, the text before holds no `#/`, and the rest does not go on
/// with a letter or digit.
pub proof fn lemma_hash_link_parses(p: Seq<char>, t: Seq<char>, q: Seq<char>)
    requires
        t.len() > 0,
        forall|k: int| 0 <= k < t.len() ==> is_ascii_alnum(#[trigger] t[k]),
        !holds_piece(p, "?token="@),
        !holds_piece(p, "&token="@),
        !holds_piece(q, "?token="@),
        !holds_piece(q, "&token="@),
        !holds_piece(p, "#/"@),
        q.len() == 0 || !is_ascii_alnum(q[0]),
    ensures
        parse_token_spec(p + "#/"@ + t + q) == Some(t),
{
    reveal_strlit("#/");
    reveal_strlit("?token=");
    reveal_strlit("&token=");
    let s = p + "#/"@ + t + q;
    let a = p.len() as int;
    let b = a + 2 + t.len();
    assert forall|k: int| 0 <= k < s.len() implies !query_at(s, k) by {
        if query_at(s, k) {
            if k < a {
                if k + 6 >= a {
                    assert(s[a] == '#');
                    assert(s[a] == s[k + (a - k)]);
                }
                assert forall|j: int| 0 <= j < 7 implies #[trigger] p[k + j] == s[k + j] by {}
                if s[k] == '?' {
                    assert(p.subrange(k, k + 7) =~= "?token="@);
                    assert(holds_piece(p, "?token="@));
                } else {
                    assert(p.subrange(k, k + 7) =~= "&token="@);
                    assert(holds_piece(p, "&token="@));
                }
            } else if k < b {
                if k < a + 2 {
                    assert(s[k] == '#' || s[k] == '/');
                } else {
                    assert(s[k] == t[k - a - 2]);
                }
            } else {
                assert forall|j: int| 0 <= j < 7 implies #[trigger] q[k - b + j] == s[k + j] by {}
                if s[k] == '?' {
                    assert(q.subrange(k - b, k - b + 7) =~= "?token="@);
                    assert(holds_piece(q, "?token="@));
                } else {
                    assert(q.subrange(k - b, k - b + 7) =~= "&token="@);
                    assert(holds_piece(q, "&token="@));
                }
            }
        }
    }
    lemma_first_query_skip(s, 0, s.len() as int);
    assert forall|k: int| 0 <= k < a implies !hash_at(s, k) by {
        if hash_at(s, k) {
            if k + 1 == a {
                assert(s[a] == '#');
            }
            assert(p[k] == s[k] && p[k + 1] == s[k + 1]);
            assert(p.subrange(k, k + 2) =~= "#/"@);
            assert(holds_piece(p, "#/"@));
        }
    }
    lemma_first_hash_skip(s, 0, a);
    assert(s[a + 2] == t[0]);
    assert(hash_at(s, a));
    let e = a + 2 + t.len();
    assert forall|k: int| a + 2 <= k < e implies is_ascii_alnum(#[trigger] s[k]) by {
        assert(s[k] == t[k - a - 2]);
    }
    if e < s.len() {
        assert(s[e] == q[0]);
    }
    lemma_run_end_at(s, a + 2, e);
    assert(s.subrange(a + 2, e) =~= t);
}

proof fn lemma_trim_end_is_prefix(s: Seq<char>)
    ensures
        trim_end_seq(s).len() <= s.len(),
        trim_end_seq(s) == s.subrange(0, trim_end_seq(s).len() as int),
    decreases s.len(),
{
    if s.len() > 0 && is_ws(s.last()) {
        lemma_trim_end_is_prefix(s.drop_last());
        assert(s.drop_last().subrange(0, trim_end_seq(s).len() as int) =~= s.subrange(0, trim_end_seq(s).len() as int));
    } else {
        assert(s.subrange(0, s.len() as int) =~= s);
    }
}

proof fn lemma_trim_start_is_suffix(s: Seq<char>)
    ensures
        trim_start_seq(s).len() <= s.len(),
        trim_start_seq(s) == s.subrange(s.len() - trim_start_seq(s).len(), s.len() as int),
    decreases s.len(),
{
    if s.len() > 0 && is_ws(s[0]) {
        lemma_trim_start_is_suffix(s.drop_first());
        let l = trim_start_seq(s).len();
        assert(s.drop_first().subrange(s.len() - 1 - l, s.len() - 1) =~= s.subrange(s.len() - l, s.len() as int));
    } else {
        assert(s.subrange(0, s.len() as int) =~= s);
    }
}

/// The token a message carries is a piece of the message; and a message
/// with no `[?&]token=` or `#/` followed by a letter or digit carries its
/// trimmed text exactly when that is 4 to 32 ASCII letters and digits.
pub proof fn lemma_parsed_token_is_substring(s: Seq<char>)
    ensures
        parse_token_spec(s) matches Some(t) ==> exists|i: int, j: int|
            0 <= i <= j <= s.len() && t == s.subrange(i, j),
        (forall|i: int| 0 <= i < s.len() ==> !query_at(s, i) && !hash_at(s, i)) ==> parse_token_spec(s) == if is_bare_token(
            trim_seq(s),
        ) {
            Some(trim_seq(s))
        } else {
            None
        },
{
    lemma_first_query_found(s, 0);
    lemma_first_hash_found(s, 0);
    if forall|i: int| 0 <= i < s.len() ==> !query_at(s, i) && !hash_at(s, i) {
        lemma_first_query_skip(s, 0, s.len() as int);
        lemma_first_hash_skip(s, 0, s.len() as int);
    }
    match first_query(s, 0) {
        Some(i) => {
            lemma_run_end_bounds(s, i + 7);
            let j = alnum_run_end(s, i + 7);
            assert(0 <= i + 7 <= j <= s.len());
        },
        None => match first_hash(s, 0) {
            Some(i) => {
                lemma_run_end_bounds(s, i + 2);
                let j = alnum_run_end(s, i + 2);
                assert(0 <= i + 2 <= j <= s.len());
            },
            None => {
                let e = trim_end_seq(s);
                lemma_trim_end_is_prefix(s);
                lemma_trim_start_is_suffix(e);
                let a = e.len() - trim_seq(s).len();
                assert(trim_seq(s) =~= s.subrange(a, e.len() as int));
                assert(0 <= a <= e.len() <= s.len());
            },
        },
    }
}

} // verus!
