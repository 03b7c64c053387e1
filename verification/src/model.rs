use vstd::prelude::*;
use crate::text::{
    eq_ignore_ascii_case, eq_ignore_ascii_case_spec, is_ws, str_equal, trim_end_seq, trim_end_str,
};

verus! {

/// A top-level field value of an order-status object: a JSON string, or any
/// other JSON value held as its compact JSON text.
#[derive(Debug, Clone, PartialEq, Eq)]
pub enum FieldValue {
    Text(String),
    Other(String),
}

/// The mathematical value of a `FieldValue`.
pub enum ValueView {
    Text(Seq<char>),
    Other(Seq<char>),
}

impl View for FieldValue {
    type V = ValueView;

    open spec fn view(&self) -> ValueView {
        match self {
            FieldValue::Text(s) => ValueView::Text(s@),
            FieldValue::Other(s) => ValueView::Other(s@),
        }
    }
}

/// The fields of an order-status object, as (key, value) pairs.
pub type Fields = Seq<(Seq<char>, ValueView)>;

/// Lexicographic order on texts by code point; the order of Rust's `String`.
pub open spec fn seq_lt(a: Seq<char>, b: Seq<char>) -> bool
    decreases a.len(),
{
    if a.len() == 0 {
        b.len() > 0
    } else if b.len() == 0 {
        false
    } else if a[0] != b[0] {
        (a[0] as int) < (b[0] as int)
    } else {
        seq_lt(a.drop_first(), b.drop_first())
    }
}

/// Keys strictly increase along the sequence (so each key occurs once).
pub open spec fn keys_ascending(fs: Fields) -> bool {
    forall|i: int, j: int| 0 <= i < j < fs.len() ==> seq_lt(#[trigger] fs[i].0, #[trigger] fs[j].0)
}

/// The value stored under `k`, if any.
pub open spec fn lookup(fs: Fields, k: Seq<char>) -> Option<ValueView>
    decreases fs.len(),
{
    if fs.len() == 0 {
        None
    } else if fs[0].0 == k {
        Some(fs[0].1)
    } else {
        lookup(fs.drop_first(), k)
    }
}

pub proof fn lemma_seq_lt_irreflexive(a: Seq<char>)
    ensures
        !seq_lt(a, a),
    decreases a.len(),
{
    if a.len() > 0 {
        lemma_seq_lt_irreflexive(a.drop_first());
    }
}

pub proof fn lemma_seq_lt_transitive(a: Seq<char>, b: Seq<char>, c: Seq<char>)
    requires
        seq_lt(a, b),
        seq_lt(b, c),
    ensures
        seq_lt(a, c),
    decreases a.len(),
{
    if a.len() > 0 && b.len() > 0 && c.len() > 0 && a[0] == b[0] && b[0] == c[0] {
        lemma_seq_lt_transitive(a.drop_first(), b.drop_first(), c.drop_first());
    }
}

pub proof fn lemma_seq_lt_total(a: Seq<char>, b: Seq<char>)
    ensures
        a == b || seq_lt(a, b) || seq_lt(b, a),
    decreases a.len(),
{
    if a.len() > 0 && b.len() > 0 && a[0] == b[0] {
        lemma_seq_lt_total(a.drop_first(), b.drop_first());
        if a.drop_first() == b.drop_first() {
            assert(a =~= b) by {
                assert forall|i: int| 0 <= i < a.len() implies a[i] == b[i] by {
                    if i > 0 {
                        assert(a[i] == a.drop_first()[i - 1]);
                        assert(b[i] == b.drop_first()[i - 1]);
                    }
                }
            }
        }
    } else if a.len() == 0 && b.len() == 0 {
        assert(a =~= b);
    }
}

proof fn lemma_seq_lt_facts()
    ensures
        forall|a: Seq<char>| !#[trigger] seq_lt(a, a),
        forall|a: Seq<char>, b: Seq<char>, c: Seq<char>|
            #[trigger] seq_lt(a, b) && #[trigger] seq_lt(b, c) ==> seq_lt(a, c),
{
    assert forall|a: Seq<char>| !#[trigger] seq_lt(a, a) by {
        lemma_seq_lt_irreflexive(a);
    }
    assert forall|a: Seq<char>, b: Seq<char>, c: Seq<char>|
        #[trigger] seq_lt(a, b) && #[trigger] seq_lt(b, c) implies seq_lt(a, c) by {
        lemma_seq_lt_transitive(a, b, c);
    }
}

/// In a key-ascending sequence, the value under the key at `i` is the one at `i`.
pub proof fn lemma_lookup_at(fs: Fields, i: int)
    requires
        keys_ascending(fs),
        0 <= i < fs.len(),
    ensures
        lookup(fs, fs[i].0) == Some(fs[i].1),
    decreases fs.len(),
{
    if i > 0 {
        lemma_seq_lt_irreflexive(fs[i].0);
        assert(seq_lt(fs[0].0, fs[i].0));
        let rest = fs.drop_first();
        assert(keys_ascending(rest)) by {
            assert forall|a: int, b: int| 0 <= a < b < rest.len() implies seq_lt(
                #[trigger] rest[a].0,
                #[trigger] rest[b].0,
            ) by {
                assert(rest[a] == fs[a + 1]);
                assert(rest[b] == fs[b + 1]);
            }
        }
        assert(rest[i - 1] == fs[i]);
        lemma_lookup_at(rest, i - 1);
    }
}

/// A key that occurs nowhere has no value.
pub proof fn lemma_lookup_absent(fs: Fields, k: Seq<char>)
    requires
        forall|i: int| 0 <= i < fs.len() ==> (#[trigger] fs[i]).0 != k,
    ensures
        lookup(fs, k) is None,
    decreases fs.len(),
{
    if fs.len() > 0 {
        let rest = fs.drop_first();
        assert forall|i: int| 0 <= i < rest.len() implies (#[trigger] rest[i]).0 != k by {
            assert(rest[i] == fs[i + 1]);
        }
        lemma_lookup_absent(rest, k);
    }
}

/// A key that has a value occurs in the sequence.
pub proof fn lemma_lookup_present(fs: Fields, k: Seq<char>)
    requires
        lookup(fs, k) is Some,
    ensures
        exists|i: int| 0 <= i < fs.len() && (#[trigger] fs[i]).0 == k,
    decreases fs.len(),
{
    if fs[0].0 != k {
        lemma_lookup_present(fs.drop_first(), k);
        let i = choose|i: int| 0 <= i < fs.drop_first().len() && (#[trigger] fs.drop_first()[i]).0 == k;
        assert(fs[i + 1] == fs.drop_first()[i]);
    }
}

/// The result of comparing two keys.
pub enum KeyOrder {
    Less,
    Equal,
    Greater,
}

/// Compare two keys by code point, as `String`'s order does.
pub fn compare_keys(a: &str, b: &str) -> (c: KeyOrder)
    ensures
        (c is Less) == seq_lt(a@, b@),
        (c is Equal) == (a@ == b@),
        (c is Greater) == seq_lt(b@, a@),
{
    proof {
        lemma_seq_lt_irreflexive(a@);
        lemma_seq_lt_irreflexive(b@);
        lemma_seq_lt_total(a@, b@);
        if seq_lt(a@, b@) && seq_lt(b@, a@) {
            lemma_seq_lt_transitive(a@, b@, a@);
        }
    }
    let n = a.unicode_len();
    let m = b.unicode_len();
    let mut i: usize = 0;
    assert(a@.skip(0) =~= a@);
    assert(b@.skip(0) =~= b@);
    while i < n && i < m
        invariant
            n == a@.len(),
            m == b@.len(),
            i <= n,
            i <= m,
            seq_lt(a@, b@) == seq_lt(a@.skip(i as int), b@.skip(i as int)),
            seq_lt(b@, a@) == seq_lt(b@.skip(i as int), a@.skip(i as int)),
        decreases n - i,
    {
        let x = a.get_char(i);
        let y = b.get_char(i);
        assert(a@.skip(i as int)[0] == x);
        assert(b@.skip(i as int)[0] == y);
        if x != y {
            assert(a@ != b@) by {
                if a@ == b@ {
                    assert(a@[i as int] == b@[i as int]);
                }
            }
            if (x as u32) < (y as u32) {
                return KeyOrder::Less;
            } else {
                return KeyOrder::Greater;
            }
        }
        assert(a@.skip(i as int).drop_first() =~= a@.skip(i as int + 1));
        assert(b@.skip(i as int).drop_first() =~= b@.skip(i as int + 1));
        i = i + 1;
    }
    if n == m {
        assert(a@.skip(i as int) =~= Seq::<char>::empty());
        assert(b@.skip(i as int) =~= Seq::<char>::empty());
        KeyOrder::Equal
    } else if n < m {
        KeyOrder::Less
    } else {
        KeyOrder::Greater
    }
}

/// An order-status object: its top-level fields in ascending key order.
#[derive(Debug, PartialEq)]
pub struct Snapshot {
    fields: Vec<(String, FieldValue)>,
}

impl View for Snapshot {
    type V = Fields;

    closed spec fn view(&self) -> Fields {
        self.fields@.map_values(|p: (String, FieldValue)| (p.0@, p.1@))
    }
}

impl FieldValue {
    /// A copy with the same value.
    pub fn duplicate(&self) -> (r: FieldValue)
        ensures
            r@ == self@,
    {
        match self {
            FieldValue::Text(s) => FieldValue::Text(s.clone()),
            FieldValue::Other(s) => FieldValue::Other(s.clone()),
        }
    }

    /// Value equality.
    pub fn same_as(&self, other: &FieldValue) -> (r: bool)
        ensures
            r == (self@ == other@),
    {
        match (self, other) {
            (FieldValue::Text(a), FieldValue::Text(b)) => {
                let eq = *a == *b;
                eq
            },
            (FieldValue::Other(a), FieldValue::Other(b)) => {
                let eq = *a == *b;
                eq
            },
            _ => false,
        }
    }

    /// The text shown for the value: a string's contents, or the JSON text of
    /// any other value.
    pub fn shown(&self) -> (r: &str)
        ensures
            r@ == shown_spec(self@),
    {
        match self {
            FieldValue::Text(s) => s.as_str(),
            FieldValue::Other(s) => s.as_str(),
        }
    }
}

/// The text shown for a value.
pub open spec fn shown_spec(v: ValueView) -> Seq<char> {
    match v {
        ValueView::Text(s) => s,
        ValueView::Other(s) => s,
    }
}

pub open spec fn opt_value_view(o: Option<FieldValue>) -> Option<ValueView> {
    match o {
        Some(v) => Some(v@),
        None => None,
    }
}

fn opt_same(a: &Option<FieldValue>, b: &Option<FieldValue>) -> (r: bool)
    ensures
        r == (opt_value_view(*a) == opt_value_view(*b)),
{
    match (a, b) {
        (Some(x), Some(y)) => x.same_as(y),
        (None, None) => true,
        _ => false,
    }
}

fn opt_duplicate(a: Option<&FieldValue>) -> (r: Option<FieldValue>)
    ensures
        opt_value_view(r) == match a {
            Some(v) => Some(v@),
            None => None::<ValueView>,
        },
{
    match a {
        Some(v) => Some(v.duplicate()),
        None => None,
    }
}

impl Snapshot {
    #[verifier::type_invariant]
    spec fn keys_sorted(&self) -> bool {
        keys_ascending(self@)
    }

    /// The object with no fields.
    pub fn new() -> (r: Snapshot)
        ensures
            r@ == Seq::<(Seq<char>, ValueView)>::empty(),
    {
        let r = Snapshot { fields: Vec::new() };
        assert(r@ =~= Seq::<(Seq<char>, ValueView)>::empty());
        r
    }

    /// Number of fields.
    pub fn len(&self) -> (n: usize)
        ensures
            n == self@.len(),
    {
        self.fields.len()
    }

    /// The `i`-th field in key order.
    pub fn entry(&self, i: usize) -> (r: (&String, &FieldValue))
        requires
            i < self@.len(),
        ensures
            (r.0@, r.1@) == self@[i as int],
    {
        let p = &self.fields[i];
        (&p.0, &p.1)
    }

    /// The value stored under `key`.
    pub fn get(&self, key: &str) -> (r: Option<&FieldValue>)
        ensures
            match r {
                Some(v) => lookup(self@, key@) == Some(v@),
                None => lookup(self@, key@) is None,
            },
    {
        let n = self.fields.len();
        let mut i: usize = 0;
        assert(self@.skip(0) =~= self@);
        while i < n
            invariant
                n == self@.len(),
                i <= n,
                lookup(self@, key@) == lookup(self@.skip(i as int), key@),
            decreases n - i,
        {
            let p = &self.fields[i];
            assert(self@.skip(i as int)[0] == self@[i as int]);
            assert(self@[i as int] == (p.0@, p.1@));
            if str_equal(p.0.as_str(), key) {
                return Some(&p.1);
            }
            assert(self@.skip(i as int).drop_first() =~= self@.skip(i as int + 1));
            i = i + 1;
        }
        None
    }

    /// A copy with the same fields.
    pub fn duplicate(&self) -> (r: Snapshot)
        ensures
            r@ == self@,
    {
        proof {
            use_type_invariant(self);
        }
        let n = self.fields.len();
        let mut v: Vec<(String, FieldValue)> = Vec::new();
        let mut i: usize = 0;
        while i < n
            invariant
                n == self.fields@.len(),
                i <= n,
                v@.len() == i,
                forall|k: int| 0 <= k < i ==> (#[trigger] v@[k]).0@ == self.fields@[k].0@
                    && v@[k].1@ == self.fields@[k].1@,
            decreases n - i,
        {
            let p = &self.fields[i];
            v.push((p.0.clone(), p.1.duplicate()));
            i = i + 1;
        }
        assert(v@.map_values(|p: (String, FieldValue)| (p.0@, p.1@)) =~= self@) by {
            assert forall|k: int| 0 <= k < n implies v@.map_values(
                |p: (String, FieldValue)| (p.0@, p.1@),
            )[k] == self@[k] by {
                assert(v@[k].0@ == self.fields@[k].0@);
            }
        }
        Snapshot { fields: v }
    }

    /// The snapshot with `key` set to `value`, other keys unchanged.
    pub fn insert(self, key: String, value: FieldValue) -> (r: Snapshot)
        ensures
            forall|k: Seq<char>| #[trigger]
                lookup(r@, k) == if k == key@ {
                    Some(value@)
                } else {
                    lookup(self@, k)
                },
    {
        proof {
            use_type_invariant(&self);
            lemma_seq_lt_facts();
        }
        let ghost old_view = self@;
        let n = self.fields.len();
        let mut p: usize = 0;
        let mut found = false;
        while p < n
            invariant_except_break
                forall|k: int| 0 <= k < p ==> seq_lt(#[trigger] old_view[k].0, key@),
                !found,
            invariant
                n == self.fields@.len(),
                n == old_view.len(),
                old_view == self@,
                keys_ascending(old_view),
                p <= n,
            ensures
                forall|k: int| 0 <= k < p ==> seq_lt(#[trigger] old_view[k].0, key@),
                found ==> p < n && old_view[p as int].0 == key@,
                !found ==> p < n ==> seq_lt(key@, old_view[p as int].0),
            decreases n - p,
        {
            assert(old_view[p as int].0 == self.fields@[p as int].0@);
            match compare_keys(self.fields[p].0.as_str(), key.as_str()) {
                KeyOrder::Less => {
                    p = p + 1;
                },
                KeyOrder::Equal => {
                    found = true;
                    break;
                },
                KeyOrder::Greater => {
                    break;
                },
            }
        }
        let ghost fk = key@;
        let ghost fv = value@;
        let mut v = self.fields;
        if found {
            v.remove(p);
            v.insert(p, (key, value));
            proof {
                lemma_insert_replaced(old_view, p as int, fk, fv);
                assert(v@.map_values(|p: (String, FieldValue)| (p.0@, p.1@)) =~= old_view.update(
                    p as int,
                    (fk, fv),
                ));
            }
            Snapshot { fields: v }
        } else {
            v.insert(p, (key, value));
            proof {
                lemma_insert_new(old_view, p as int, fk, fv);
                assert(v@.map_values(|p: (String, FieldValue)| (p.0@, p.1@)) =~= old_view.insert(
                    p as int,
                    (fk, fv),
                ));
            }
            Snapshot { fields: v }
        }
    }
}

proof fn lemma_insert_replaced(fs: Fields, p: int, k: Seq<char>, v: ValueView)
    requires
        keys_ascending(fs),
        0 <= p < fs.len(),
        fs[p].0 == k,
    ensures
        keys_ascending(fs.update(p, (k, v))),
        forall|q: Seq<char>| #[trigger]
            lookup(fs.update(p, (k, v)), q) == if q == k {
                Some(v)
            } else {
                lookup(fs, q)
            },
{
    let nf = fs.update(p, (k, v));
    assert(keys_ascending(nf)) by {
        assert forall|a: int, b: int| 0 <= a < b < nf.len() implies seq_lt(
            #[trigger] nf[a].0,
            #[trigger] nf[b].0,
        ) by {
            assert(nf[a].0 == fs[a].0);
            assert(nf[b].0 == fs[b].0);
        }
    }
    assert forall|q: Seq<char>| #[trigger]
        lookup(nf, q) == if q == k {
            Some(v)
        } else {
            lookup(fs, q)
        } by {
        if q == k {
            lemma_lookup_at(nf, p);
        } else if exists|i: int| 0 <= i < fs.len() && (#[trigger] fs[i]).0 == q {
            let i = choose|i: int| 0 <= i < fs.len() && (#[trigger] fs[i]).0 == q;
            assert(i != p);
            assert(nf[i] == fs[i]);
            lemma_lookup_at(nf, i);
            lemma_lookup_at(fs, i);
        } else {
            lemma_lookup_absent(fs, q);
            assert forall|i: int| 0 <= i < nf.len() implies (#[trigger] nf[i]).0 != q by {
                if i != p {
                    assert(nf[i] == fs[i]);
                }
            }
            lemma_lookup_absent(nf, q);
        }
    }
}

proof fn lemma_insert_new(fs: Fields, p: int, k: Seq<char>, v: ValueView)
    requires
        keys_ascending(fs),
        0 <= p <= fs.len(),
        forall|i: int| 0 <= i < p ==> seq_lt(#[trigger] fs[i].0, k),
        p < fs.len() ==> seq_lt(k, fs[p].0),
    ensures
        keys_ascending(fs.insert(p, (k, v))),
        forall|q: Seq<char>| #[trigger]
            lookup(fs.insert(p, (k, v)), q) == if q == k {
                Some(v)
            } else {
                lookup(fs, q)
            },
{
    lemma_seq_lt_facts();
    let nf = fs.insert(p, (k, v));
    assert forall|i: int| p <= i < fs.len() implies seq_lt(k, #[trigger] fs[i].0) by {
        if i > p {
            assert(seq_lt(fs[p].0, fs[i].0));
        }
    }
    assert(keys_ascending(nf)) by {
        assert forall|a: int, b: int| 0 <= a < b < nf.len() implies seq_lt(
            #[trigger] nf[a].0,
            #[trigger] nf[b].0,
        ) by {
            if a < p {
                assert(nf[a] == fs[a]);
                if b == p {
                } else if b < p {
                    assert(nf[b] == fs[b]);
                } else {
                    assert(nf[b] == fs[b - 1]);
                }
            } else if a == p {
                assert(nf[b] == fs[b - 1]);
            } else {
                assert(nf[a] == fs[a - 1]);
                assert(nf[b] == fs[b - 1]);
            }
        }
    }
    assert forall|q: Seq<char>| #[trigger]
        lookup(nf, q) == if q == k {
            Some(v)
        } else {
            lookup(fs, q)
        } by {
        if q == k {
            lemma_lookup_at(nf, p);
        } else if exists|i: int| 0 <= i < fs.len() && (#[trigger] fs[i]).0 == q {
            let i = choose|i: int| 0 <= i < fs.len() && (#[trigger] fs[i]).0 == q;
            if i < p {
                assert(nf[i] == fs[i]);
                lemma_lookup_at(nf, i);
            } else {
                assert(nf[i + 1] == fs[i]);
                lemma_lookup_at(nf, i + 1);
            }
            lemma_lookup_at(fs, i);
        } else {
            lemma_lookup_absent(fs, q);
            assert forall|i: int| 0 <= i < nf.len() implies (#[trigger] nf[i]).0 != q by {
                if i < p {
                    assert(nf[i] == fs[i]);
                } else if i > p {
                    assert(nf[i] == fs[i - 1]);
                }
            }
            lemma_lookup_absent(nf, q);
        }
    }
}

/// One field that differs between two snapshots: `old` is `None` for an added
/// key, `new` is `None` for a removed key.
#[derive(Debug, PartialEq)]
pub struct FieldChange {
    pub key: String,
    pub old: Option<FieldValue>,
    pub new: Option<FieldValue>,
}

/// The mathematical value of a `FieldChange`.
pub struct ChangeView {
    pub key: Seq<char>,
    pub old: Option<ValueView>,
    pub new: Option<ValueView>,
}

impl View for FieldChange {
    type V = ChangeView;

    open spec fn view(&self) -> ChangeView {
        ChangeView { key: self.key@, old: opt_value_view(self.old), new: opt_value_view(self.new) }
    }
}

pub open spec fn changes_view(cs: Seq<FieldChange>) -> Seq<ChangeView> {
    cs.map_values(|c: FieldChange| c@)
}

/// `out` is the difference from `o` to `n`: one entry per key whose value
/// differs (present in one and absent in the other counts), each holding the
/// key's old and new value, in ascending key order.
pub open spec fn is_diff(o: Fields, n: Fields, out: Seq<ChangeView>) -> bool {
    &&& forall|a: int, b: int| 0 <= a < b < out.len() ==> seq_lt(#[trigger] out[a].key, #[trigger] out[b].key)
    &&& forall|a: int|
        0 <= a < out.len() ==> {
            &&& (#[trigger] out[a]).old == lookup(o, out[a].key)
            &&& out[a].new == lookup(n, out[a].key)
            &&& out[a].old != out[a].new
        }
    &&& forall|k: Seq<char>|
        #[trigger] lookup(o, k) != #[trigger] lookup(n, k) ==> exists|a: int|
            0 <= a < out.len() && (#[trigger] out[a]).key == k
}

/// Diff two order-status objects: modified, added (old = None) and removed
/// (new = None) keys, in ascending key order.
pub fn diff_snapshots(old: &Snapshot, new: &Snapshot) -> (out: Vec<FieldChange>)
    ensures
        is_diff(old@, new@, changes_view(out@)),
{
    proof {
        use_type_invariant(old);
        use_type_invariant(new);
        lemma_seq_lt_facts();
    }
    let ghost o = old@;
    let ghost nw = new@;
    let no = old.len();
    let nn = new.len();
    let mut out: Vec<FieldChange> = Vec::new();
    let mut i: usize = 0;
    let mut j: usize = 0;
    while i < no || j < nn
        invariant
            o == old@,
            nw == new@,
            no == o.len(),
            nn == nw.len(),
            keys_ascending(o),
            keys_ascending(nw),
            forall|a: Seq<char>| !#[trigger] seq_lt(a, a),
            forall|a: Seq<char>, b: Seq<char>, c: Seq<char>|
                #[trigger] seq_lt(a, b) && #[trigger] seq_lt(b, c) ==> seq_lt(a, c),
            i <= no,
            j <= nn,
            forall|a: int, b: int|
                0 <= a < b < out@.len() ==> seq_lt(
                    #[trigger] changes_view(out@)[a].key,
                    #[trigger] changes_view(out@)[b].key,
                ),
            forall|a: int|
                0 <= a < out@.len() ==> {
                    &&& (#[trigger] changes_view(out@)[a]).old == lookup(o, changes_view(out@)[a].key)
                    &&& changes_view(out@)[a].new == lookup(nw, changes_view(out@)[a].key)
                    &&& changes_view(out@)[a].old != changes_view(out@)[a].new
                },
            forall|a: int, p: int|
                0 <= a < out@.len() && i <= p < no ==> seq_lt(
                    #[trigger] changes_view(out@)[a].key,
                    #[trigger] o[p].0,
                ),
            forall|a: int, q: int|
                0 <= a < out@.len() && j <= q < nn ==> seq_lt(
                    #[trigger] changes_view(out@)[a].key,
                    #[trigger] nw[q].0,
                ),
            forall|p: int, q: int| 0 <= p < i && j <= q < nn ==> seq_lt(#[trigger] o[p].0, #[trigger] nw[q].0),
            forall|q: int, p: int| 0 <= q < j && i <= p < no ==> seq_lt(#[trigger] nw[q].0, #[trigger] o[p].0),
            forall|p: int|
                0 <= p < i && lookup(o, #[trigger] o[p].0) != lookup(nw, o[p].0) ==> exists|a: int|
                    0 <= a < out@.len() && (#[trigger] changes_view(out@)[a]).key == o[p].0,
            forall|q: int|
                0 <= q < j && lookup(o, #[trigger] nw[q].0) != lookup(nw, nw[q].0) ==> exists|a: int|
                    0 <= a < out@.len() && (#[trigger] changes_view(out@)[a]).key == nw[q].0,
        decreases no + nn - i - j,
    {
        let ghost prev = changes_view(out@);
        let step: KeyOrder = if i == no {
            KeyOrder::Greater
        } else if j == nn {
            KeyOrder::Less
        } else {
            let (ko, _) = old.entry(i);
            let (kn, _) = new.entry(j);
            compare_keys(ko.as_str(), kn.as_str())
        };
        match step {
            KeyOrder::Equal => {
                let (k, vo) = old.entry(i);
                let (_, vn) = new.entry(j);
                proof {
                    lemma_lookup_at(o, i as int);
                    lemma_lookup_at(nw, j as int);
                }
                if !vo.same_as(vn) {
                    out.push(FieldChange { key: k.clone(), old: Some(vo.duplicate()), new: Some(vn.duplicate()) });
                    proof {
                        assert(changes_view(out@) =~= prev.push(changes_view(out@).last()));
                        assert(changes_view(out@).last().key == o[i as int].0);
                    }
                }
                proof {
                    assert forall|p: int, q: int| 0 <= p < i + 1 && j + 1 <= q < nn implies seq_lt(#[trigger] o[p].0, #[trigger] nw[q].0) by {
                        if p == i {
                            assert(seq_lt(nw[j as int].0, nw[q].0));
                        }
                    }
                    assert forall|q: int, p: int| 0 <= q < j + 1 && i + 1 <= p < no implies seq_lt(#[trigger] nw[q].0, #[trigger] o[p].0) by {
                        if q == j {
                            assert(seq_lt(o[i as int].0, o[p].0));
                        }
                    }
                    assert forall|a: int, p: int|
                        0 <= a < out@.len() && i + 1 <= p < no implies seq_lt(
                            #[trigger] changes_view(out@)[a].key,
                            #[trigger] o[p].0,
                        ) by {
                        if a == prev.len() {
                            assert(seq_lt(o[i as int].0, o[p].0));
                        } else {
                            assert(changes_view(out@)[a] == prev[a]);
                        }
                    }
                    assert forall|a: int, q: int|
                        0 <= a < out@.len() && j + 1 <= q < nn implies seq_lt(
                            #[trigger] changes_view(out@)[a].key,
                            #[trigger] nw[q].0,
                        ) by {
                        if a == prev.len() {
                            assert(seq_lt(nw[j as int].0, nw[q].0));
                        } else {
                            assert(changes_view(out@)[a] == prev[a]);
                        }
                    }
                }
                proof {
                    assert forall|p: int|
                        0 <= p < i + 1 && lookup(o, #[trigger] o[p].0) != lookup(nw, o[p].0) implies exists|a: int|
                            0 <= a < out@.len() && (#[trigger] changes_view(out@)[a]).key == o[p].0 by {
                        if p == i {
                            assert(changes_view(out@)[prev.len() as int].key == o[p].0);
                        } else {
                            let a = choose|a: int| 0 <= a < prev.len() && (#[trigger] prev[a]).key == o[p].0;
                            assert(changes_view(out@)[a] == prev[a]);
                        }
                    }
                    assert forall|q: int|
                        0 <= q < j + 1 && lookup(o, #[trigger] nw[q].0) != lookup(nw, nw[q].0) implies exists|a: int|
                            0 <= a < out@.len() && (#[trigger] changes_view(out@)[a]).key == nw[q].0 by {
                        if q == j {
                            assert(changes_view(out@)[prev.len() as int].key == nw[q].0);
                        } else {
                            let a = choose|a: int| 0 <= a < prev.len() && (#[trigger] prev[a]).key == nw[q].0;
                            assert(changes_view(out@)[a] == prev[a]);
                        }
                    }
                }
                i = i + 1;
                j = j + 1;
            },
            KeyOrder::Less => {
                let (k, vo) = old.entry(i);
                proof {
                    lemma_lookup_at(o, i as int);
                    assert forall|q: int| 0 <= q < nn implies (#[trigger] nw[q]).0 != o[i as int].0 by {
                        if q >= j {
                            if q > j {
                                assert(seq_lt(nw[j as int].0, nw[q].0));
                            }
                            assert(seq_lt(o[i as int].0, nw[q].0));
                        } else {
                            assert(seq_lt(nw[q].0, o[i as int].0));
                        }
                    }
                    lemma_lookup_absent(nw, o[i as int].0);
                }
                out.push(FieldChange { key: k.clone(), old: Some(vo.duplicate()), new: None });
                proof {
                    assert(changes_view(out@) =~= prev.push(changes_view(out@).last()));
                    assert(changes_view(out@).last().key == o[i as int].0);
                    assert forall|p: int, q: int| 0 <= p < i + 1 && j <= q < nn implies seq_lt(#[trigger] o[p].0, #[trigger] nw[q].0) by {
                        if p == i && q > j {
                            assert(seq_lt(nw[j as int].0, nw[q].0));
                        }
                    }
                    assert forall|a: int, p: int|
                        0 <= a < out@.len() && i + 1 <= p < no implies seq_lt(
                            #[trigger] changes_view(out@)[a].key,
                            #[trigger] o[p].0,
                        ) by {
                        if a == prev.len() {
                            assert(seq_lt(o[i as int].0, o[p].0));
                        } else {
                            assert(changes_view(out@)[a] == prev[a]);
                        }
                    }
                    assert forall|a: int, q: int|
                        0 <= a < out@.len() && j <= q < nn implies seq_lt(
                            #[trigger] changes_view(out@)[a].key,
                            #[trigger] nw[q].0,
                        ) by {
                        if a == prev.len() {
                            if q > j {
                                assert(seq_lt(nw[j as int].0, nw[q].0));
                            }
                        } else {
                            assert(changes_view(out@)[a] == prev[a]);
                        }
                    }
                }
                proof {
                    assert forall|p: int|
                        0 <= p < i + 1 && lookup(o, #[trigger] o[p].0) != lookup(nw, o[p].0) implies exists|a: int|
                            0 <= a < out@.len() && (#[trigger] changes_view(out@)[a]).key == o[p].0 by {
                        if p == i {
                            assert(changes_view(out@)[prev.len() as int].key == o[p].0);
                        } else {
                            let a = choose|a: int| 0 <= a < prev.len() && (#[trigger] prev[a]).key == o[p].0;
                            assert(changes_view(out@)[a] == prev[a]);
                        }
                    }
                    assert forall|q: int|
                        0 <= q < j + 0 && lookup(o, #[trigger] nw[q].0) != lookup(nw, nw[q].0) implies exists|a: int|
                            0 <= a < out@.len() && (#[trigger] changes_view(out@)[a]).key == nw[q].0 by {
                        if q == j {
                            
                        } else {
                            let a = choose|a: int| 0 <= a < prev.len() && (#[trigger] prev[a]).key == nw[q].0;
                            assert(changes_view(out@)[a] == prev[a]);
                        }
                    }
                }
                i = i + 1;
            },
            KeyOrder::Greater => {
                let (k, vn) = new.entry(j);
                proof {
                    lemma_lookup_at(nw, j as int);
                    assert forall|p: int| 0 <= p < no implies (#[trigger] o[p]).0 != nw[j as int].0 by {
                        if p >= i {
                            if p > i {
                                assert(seq_lt(o[i as int].0, o[p].0));
                            }
                            assert(seq_lt(nw[j as int].0, o[p].0));
                        } else {
                            assert(seq_lt(o[p].0, nw[j as int].0));
                        }
                    }
                    lemma_lookup_absent(o, nw[j as int].0);
                }
                out.push(FieldChange { key: k.clone(), old: None, new: Some(vn.duplicate()) });
                proof {
                    assert(changes_view(out@) =~= prev.push(changes_view(out@).last()));
                    assert(changes_view(out@).last().key == nw[j as int].0);
                    assert forall|q: int, p: int| 0 <= q < j + 1 && i <= p < no implies seq_lt(#[trigger] nw[q].0, #[trigger] o[p].0) by {
                        if q == j && p > i {
                            assert(seq_lt(o[i as int].0, o[p].0));
                        }
                    }
                    assert forall|a: int, q: int|
                        0 <= a < out@.len() && j + 1 <= q < nn implies seq_lt(
                            #[trigger] changes_view(out@)[a].key,
                            #[trigger] nw[q].0,
                        ) by {
                        if a == prev.len() {
                            assert(seq_lt(nw[j as int].0, nw[q].0));
                        } else {
                            assert(changes_view(out@)[a] == prev[a]);
                        }
                    }
                    assert forall|a: int, p: int|
                        0 <= a < out@.len() && i <= p < no implies seq_lt(
                            #[trigger] changes_view(out@)[a].key,
                            #[trigger] o[p].0,
                        ) by {
                        if a == prev.len() {
                            if p > i {
                                assert(seq_lt(o[i as int].0, o[p].0));
                            }
                        } else {
                            assert(changes_view(out@)[a] == prev[a]);
                        }
                    }
                }
                proof {
                    assert forall|p: int|
                        0 <= p < i + 0 && lookup(o, #[trigger] o[p].0) != lookup(nw, o[p].0) implies exists|a: int|
                            0 <= a < out@.len() && (#[trigger] changes_view(out@)[a]).key == o[p].0 by {
                        if p == i {
                            
                        } else {
                            let a = choose|a: int| 0 <= a < prev.len() && (#[trigger] prev[a]).key == o[p].0;
                            assert(changes_view(out@)[a] == prev[a]);
                        }
                    }
                    assert forall|q: int|
                        0 <= q < j + 1 && lookup(o, #[trigger] nw[q].0) != lookup(nw, nw[q].0) implies exists|a: int|
                            0 <= a < out@.len() && (#[trigger] changes_view(out@)[a]).key == nw[q].0 by {
                        if q == j {
                            assert(changes_view(out@)[prev.len() as int].key == nw[q].0);
                        } else {
                            let a = choose|a: int| 0 <= a < prev.len() && (#[trigger] prev[a]).key == nw[q].0;
                            assert(changes_view(out@)[a] == prev[a]);
                        }
                    }
                }
                j = j + 1;
            },
        }
    }
    proof {
        let cv = changes_view(out@);
        assert forall|k: Seq<char>|
            #[trigger] lookup(o, k) != #[trigger] lookup(nw, k) implies exists|a: int|
                0 <= a < cv.len() && (#[trigger] cv[a]).key == k by {
            if lookup(o, k) is Some {
                lemma_lookup_present(o, k);
                let p = choose|p: int| 0 <= p < o.len() && (#[trigger] o[p]).0 == k;
                assert(lookup(o, o[p].0) != lookup(nw, o[p].0));
            } else {
                lemma_lookup_present(nw, k);
                let q = choose|q: int| 0 <= q < nw.len() && (#[trigger] nw[q]).0 == k;
                assert(lookup(o, nw[q].0) != lookup(nw, nw[q].0));
            }
        }
    }
    out
}

/// The response body of the tracking API.
#[derive(Debug)]
pub struct ApiResponse {
    pub err: i64,
    pub msg: String,
    pub result: Option<Snapshot>,
}

/// The `status` field when it is a string.
pub open spec fn status_spec(fs: Fields) -> Option<Seq<char>> {
    match lookup(fs, "status"@) {
        Some(ValueView::Text(s)) => Some(s),
        _ => None,
    }
}

/// The status equals `word` when ASCII case is ignored.
pub open spec fn status_is(fs: Fields, word: Seq<char>) -> bool {
    match status_spec(fs) {
        Some(s) => eq_ignore_ascii_case_spec(s, word),
        None => false,
    }
}

/// The `status` field of an order, when it is a string.
pub fn status_of(result: &Snapshot) -> (r: Option<String>)
    ensures
        match r {
            Some(s) => status_spec(result@) == Some(s@),
            None => status_spec(result@) is None,
        },
{
    match result.get("status") {
        Some(FieldValue::Text(s)) => Some(s.clone()),
        _ => None,
    }
}

/// True if the status equals "UNKNOWN" (case-insensitive).
pub fn is_unknown_status(result: &Snapshot) -> (b: bool)
    ensures
        b == status_is(result@, "UNKNOWN"@),
{
    match result.get("status") {
        Some(FieldValue::Text(s)) => eq_ignore_ascii_case(s.as_str(), "UNKNOWN"),
        _ => false,
    }
}

/// True if the status equals "COMPLETED" (case-insensitive).
pub fn is_completed_status(result: &Snapshot) -> (b: bool)
    ensures
        b == status_is(result@, "COMPLETED"@),
{
    match result.get("status") {
        Some(FieldValue::Text(s)) => eq_ignore_ascii_case(s.as_str(), "COMPLETED"),
        _ => false,
    }
}

/// The display name of a field: a fixed name for the known keys, the key
/// itself otherwise.
pub open spec fn label_spec(key: Seq<char>) -> Seq<char> {
    if key == "order_id"@ {
        "订单号"@
    } else if key == "status"@ {
        "状态"@
    } else if key == "stop"@ {
        "剩余站点"@
    } else if key == "duration"@ {
        "预计时长(秒)"@
    } else if key == "length"@ {
        "距离(米)"@
    } else if key == "estimated_slot"@ {
        "预计时段"@
    } else if key == "completed_time"@ {
        "完成时间"@
    } else if key == "addr"@ {
        "地址"@
    } else {
        key
    }
}

/// The display name of a field.
pub fn label(key: &str) -> (r: &str)
    ensures
        r@ == label_spec(key@),
{
    if str_equal(key, "order_id") {
        "订单号"
    } else if str_equal(key, "status") {
        "状态"
    } else if str_equal(key, "stop") {
        "剩余站点"
    } else if str_equal(key, "duration") {
        "预计时长(秒)"
    } else if str_equal(key, "length") {
        "距离(米)"
    } else if str_equal(key, "estimated_slot") {
        "预计时段"
    } else if str_equal(key, "completed_time") {
        "完成时间"
    } else if str_equal(key, "addr") {
        "地址"
    } else {
        key
    }
}

/// The text shown for a possibly missing value: `—` when missing.
pub open spec fn val_spec(v: Option<ValueView>) -> Seq<char> {
    match v {
        None => "—"@,
        Some(x) => shown_spec(x),
    }
}

fn val_str(v: &Option<FieldValue>) -> (r: String)
    ensures
        r@ == val_spec(opt_value_view(*v)),
{
    match v {
        None => String::from_str("—"),
        Some(x) => String::from_str(x.shown()),
    }
}

/// The order number: the `order_id` field when it is a string, else `?`.
pub open spec fn order_id_spec(fs: Fields) -> Seq<char> {
    match lookup(fs, "order_id"@) {
        Some(ValueView::Text(s)) => s,
        _ => "?"@,
    }
}

fn order_id_of(result: &Snapshot) -> (r: String)
    ensures
        r@ == order_id_spec(result@),
{
    match result.get("order_id") {
        Some(FieldValue::Text(s)) => s.clone(),
        _ => String::from_str("?"),
    }
}

/// The line of the join receipt for field `k`, empty when the field is missing.
pub open spec fn status_line(fs: Fields, k: Seq<char>) -> Seq<char> {
    match lookup(fs, k) {
        Some(v) => label_spec(k) + ": "@ + shown_spec(v) + "\n"@,
        None => Seq::empty(),
    }
}

/// The join receipt: header with the order number, then the lines for
/// status, time slot, remaining stops, completion time and address, with
/// trailing whitespace removed.
pub open spec fn render_status_spec(fs: Fields) -> Seq<char> {
    trim_end_seq(
        "✅ 已加入追踪 "@ + order_id_spec(fs) + "\n"@ + status_line(fs, "status"@) + status_line(
            fs,
            "estimated_slot"@,
        ) + status_line(fs, "stop"@) + status_line(fs, "completed_time"@) + status_line(
            fs,
            "addr"@,
        ),
    )
}

fn push_status_line(s: &mut String, result: &Snapshot, k: &str)
    ensures
        final(s)@ == old(s)@ + status_line(result@, k@),
{
    match result.get(k) {
        Some(v) => {
            s.append(label(k));
            s.append(": ");
            s.append(v.shown());
            s.append("\n");
        },
        None => {
            assert(old(s)@ + Seq::<char>::empty() =~= old(s)@);
        },
    }
}

/// Multi-line current status, used for the join receipt.
pub fn render_status(result: &Snapshot) -> (r: String)
    ensures
        r@ == render_status_spec(result@),
{
    let mut s = String::from_str("✅ 已加入追踪 ");
    let oid = order_id_of(result);
    s.append(oid.as_str());
    s.append("\n");
    push_status_line(&mut s, result, "status");
    push_status_line(&mut s, result, "estimated_slot");
    push_status_line(&mut s, result, "stop");
    push_status_line(&mut s, result, "completed_time");
    push_status_line(&mut s, result, "addr");
    String::from_str(trim_end_str(s.as_str()))
}

/// The status shown in a summary: the `status` field when it is a string, else `?`.
pub open spec fn summary_status(fs: Fields) -> Seq<char> {
    match lookup(fs, "status"@) {
        Some(ValueView::Text(s)) => s,
        _ => "?"@,
    }
}

/// `order · status`.
pub open spec fn render_summary_spec(fs: Fields) -> Seq<char> {
    order_id_spec(fs) + " · "@ + summary_status(fs)
}

/// One-line summary for the list of tracked orders.
pub fn render_summary(result: &Snapshot) -> (r: String)
    ensures
        r@ == render_summary_spec(result@),
{
    let mut s = order_id_of(result);
    s.append(" · ");
    match result.get("status") {
        Some(FieldValue::Text(st)) => s.append(st.as_str()),
        _ => s.append("?"),
    }
    s
}

/// `label: old → new` and a line break.
pub open spec fn change_line(c: ChangeView) -> Seq<char> {
    label_spec(c.key) + ": "@ + val_spec(c.old) + " → "@ + val_spec(c.new) + "\n"@
}

/// The lines for a list of changes, in order.
pub open spec fn change_lines(cs: Seq<ChangeView>) -> Seq<char>
    decreases cs.len(),
{
    if cs.len() == 0 {
        Seq::empty()
    } else {
        change_lines(cs.drop_last()) + change_line(cs.last())
    }
}

/// The update notice: a header with the order number, one line per change,
/// trailing whitespace removed.
pub open spec fn render_changes_spec(order_id: Seq<char>, cs: Seq<ChangeView>) -> Seq<char> {
    trim_end_seq("🚚 订单 "@ + order_id + " 有更新:\n"@ + change_lines(cs))
}

/// The update notice for an order's changed fields.
pub fn render_changes(order_id: &str, changes: &[FieldChange]) -> (r: String)
    ensures
        r@ == render_changes_spec(order_id@, changes@.map_values(|c: FieldChange| c@)),
{
    let ghost cs = changes@.map_values(|c: FieldChange| c@);
    let mut s = String::from_str("🚚 订单 ");
    s.append(order_id);
    s.append(" 有更新:\n");
    let ghost head = s@;
    let n = changes.len();
    let mut i: usize = 0;
    assert(cs.take(0) =~= Seq::<ChangeView>::empty());
    while i < n
        invariant
            n == changes@.len(),
            cs == changes@.map_values(|c: FieldChange| c@),
            i <= n,
            s@ == head + change_lines(cs.take(i as int)),
        decreases n - i,
    {
        let c = &changes[i];
        s.append(label(c.key.as_str()));
        s.append(": ");
        let o = val_str(&c.old);
        s.append(o.as_str());
        s.append(" → ");
        let nv = val_str(&c.new);
        s.append(nv.as_str());
        s.append("\n");
        proof {
            assert(cs.take(i as int + 1).drop_last() =~= cs.take(i as int));
            assert(cs.take(i as int + 1).last() == c@);
        }
        i = i + 1;
    }
    assert(cs.take(n as int) =~= cs);
    String::from_str(trim_end_str(s.as_str()))
}

/// The value a key has once the changes are applied to `o`: the change's new
/// value for a changed key, the old value otherwise.
pub open spec fn patched(o: Fields, out: Seq<ChangeView>, k: Seq<char>) -> Option<ValueView> {
    if exists|a: int| 0 <= a < out.len() && (#[trigger] out[a]).key == k {
        out[choose|a: int| 0 <= a < out.len() && (#[trigger] out[a]).key == k].new
    } else {
        lookup(o, k)
    }
}

/// Diffing an object against itself yields no change.
pub proof fn lemma_diff_of_same_is_empty(s: Fields, out: Seq<ChangeView>)
    requires
        is_diff(s, s, out),
    ensures
        out.len() == 0,
{
    if out.len() > 0 {
        assert(out[0].old == out[0].new);
    }
}

/// Applying the changes to the old object gives the new one, key by key.
pub proof fn lemma_diff_carries_old_to_new(o: Fields, n: Fields, out: Seq<ChangeView>)
    requires
        is_diff(o, n, out),
    ensures
        forall|k: Seq<char>| #[trigger] patched(o, out, k) == lookup(n, k),
{
    assert forall|k: Seq<char>| #[trigger] patched(o, out, k) == lookup(n, k) by {
        if exists|a: int| 0 <= a < out.len() && (#[trigger] out[a]).key == k {
            let a = choose|a: int| 0 <= a < out.len() && (#[trigger] out[a]).key == k;
            assert(out[a].new == lookup(n, k));
        } else {
            if lookup(o, k) != lookup(n, k) {
                assert(exists|a: int| 0 <= a < out.len() && (#[trigger] out[a]).key == k);
            }
        }
    }
}

proof fn lemma_sorted_keys_equal(x: Seq<Seq<char>>, y: Seq<Seq<char>>)
    requires
        forall|a: int, b: int| 0 <= a < b < x.len() ==> seq_lt(#[trigger] x[a], #[trigger] x[b]),
        forall|a: int, b: int| 0 <= a < b < y.len() ==> seq_lt(#[trigger] y[a], #[trigger] y[b]),
        forall|a: int| 0 <= a < x.len() ==> y.contains(#[trigger] x[a]),
        forall|b: int| 0 <= b < y.len() ==> x.contains(#[trigger] y[b]),
    ensures
        x == y,
    decreases x.len() + y.len(),
{
    if x.len() > 0 && y.len() > 0 {
        assert(y.contains(x[0]));
        assert(x.contains(y[0]));
        let j = choose|j: int| 0 <= j < y.len() && y[j] == x[0];
        let i = choose|i: int| 0 <= i < x.len() && x[i] == y[0];
        if j > 0 {
            assert(seq_lt(y[0], y[j]));
            if i == 0 {
                lemma_seq_lt_irreflexive(y[0]);
            } else {
                assert(seq_lt(x[0], x[i]));
                lemma_seq_lt_transitive(x[0], y[0], x[0]);
                lemma_seq_lt_irreflexive(x[0]);
            }
        }
        let xr = x.drop_first();
        let yr = y.drop_first();
        assert forall|a: int, b: int| 0 <= a < b < xr.len() implies seq_lt(#[trigger] xr[a], #[trigger] xr[b]) by {
            assert(xr[a] == x[a + 1] && xr[b] == x[b + 1]);
        }
        assert forall|a: int, b: int| 0 <= a < b < yr.len() implies seq_lt(#[trigger] yr[a], #[trigger] yr[b]) by {
            assert(yr[a] == y[a + 1] && yr[b] == y[b + 1]);
        }
        assert forall|a: int| 0 <= a < xr.len() implies yr.contains(#[trigger] xr[a]) by {
            assert(xr[a] == x[a + 1]);
            assert(y.contains(x[a + 1]));
            let b = choose|b: int| 0 <= b < y.len() && y[b] == x[a + 1];
            assert(seq_lt(x[0], x[a + 1]));
            if b == 0 {
                lemma_seq_lt_irreflexive(x[0]);
            }
            assert(yr[b - 1] == y[b]);
        }
        assert forall|b: int| 0 <= b < yr.len() implies xr.contains(#[trigger] yr[b]) by {
            assert(yr[b] == y[b + 1]);
            assert(x.contains(y[b + 1]));
            let a = choose|a: int| 0 <= a < x.len() && x[a] == y[b + 1];
            assert(seq_lt(y[0], y[b + 1]));
            if a == 0 {
                lemma_seq_lt_irreflexive(y[0]);
            }
            assert(xr[a - 1] == x[a]);
        }
        lemma_sorted_keys_equal(xr, yr);
        assert(x =~= y) by {
            assert forall|k: int| 0 <= k < x.len() implies x[k] == y[k] by {
                if k > 0 {
                    assert(x[k] == xr[k - 1]);
                    assert(y[k] == yr[k - 1]);
                }
            }
        }
    } else if x.len() > 0 {
        assert(y.contains(x[0]));
    } else if y.len() > 0 {
        assert(x.contains(y[0]));
    } else {
        assert(x =~= y);
    }
}

/// The difference between two objects is determined: any two lists that
/// meet `is_diff` for the same pair are equal.
pub proof fn lemma_diff_is_unique(o: Fields, n: Fields, x: Seq<ChangeView>, y: Seq<ChangeView>)
    requires
        is_diff(o, n, x),
        is_diff(o, n, y),
    ensures
        x == y,
{
    let xk = x.map_values(|c: ChangeView| c.key);
    let yk = y.map_values(|c: ChangeView| c.key);
    assert forall|a: int, b: int| 0 <= a < b < xk.len() implies seq_lt(#[trigger] xk[a], #[trigger] xk[b]) by {
        assert(seq_lt(x[a].key, x[b].key));
    }
    assert forall|a: int, b: int| 0 <= a < b < yk.len() implies seq_lt(#[trigger] yk[a], #[trigger] yk[b]) by {
        assert(seq_lt(y[a].key, y[b].key));
    }
    assert forall|a: int| 0 <= a < xk.len() implies yk.contains(#[trigger] xk[a]) by {
        assert(x[a].old == lookup(o, x[a].key));
        assert(lookup(o, x[a].key) != lookup(n, x[a].key));
        let b = choose|b: int| 0 <= b < y.len() && (#[trigger] y[b]).key == x[a].key;
        assert(yk[b] == xk[a]);
    }
    assert forall|b: int| 0 <= b < yk.len() implies xk.contains(#[trigger] yk[b]) by {
        assert(y[b].old == lookup(o, y[b].key));
        assert(lookup(o, y[b].key) != lookup(n, y[b].key));
        let a = choose|a: int| 0 <= a < x.len() && (#[trigger] x[a]).key == y[b].key;
        assert(xk[a] == yk[b]);
    }
    lemma_sorted_keys_equal(xk, yk);
    assert(x =~= y) by {
        assert forall|k: int| 0 <= k < x.len() implies x[k] == y[k] by {
            assert(xk[k] == yk[k]);
            assert(x[k].old == lookup(o, x[k].key));
            assert(y[k].old == lookup(o, y[k].key));
        }
    }
}

/// `piece` occurs in `s`.
pub open spec fn occurs_in(s: Seq<char>, piece: Seq<char>) -> bool {
    exists|i: int| 0 <= i && i + piece.len() <= s.len() && #[trigger] s.subrange(i, i + piece.len()) == piece
}

/// The receipt line `<name>: <value>` of field `key`, with its line break,
/// when the object holds that field; nothing otherwise.
pub open spec fn receipt_line(fs: Fields, key: Seq<char>, name: Seq<char>) -> Seq<char> {
    match lookup(fs, key) {
        Some(ValueView::Text(s)) => name + ": "@ + s + "\n"@,
        Some(ValueView::Other(s)) => name + ": "@ + s + "\n"@,
        None => Seq::empty(),
    }
}

proof fn lemma_trim_end_split(x: Seq<char>)
    ensures
        trim_end_seq(x).len() <= x.len(),
        x == trim_end_seq(x) + x.subrange(trim_end_seq(x).len() as int, x.len() as int),
        forall|k: int| trim_end_seq(x).len() <= k < x.len() ==> is_ws(#[trigger] x[k]),
    decreases x.len(),
{
    if x.len() > 0 && is_ws(x.last()) {
        let y = x.drop_last();
        lemma_trim_end_split(y);
        let l = trim_end_seq(x).len() as int;
        assert forall|k: int| l <= k < x.len() implies is_ws(#[trigger] x[k]) by {
            if k < y.len() {
                assert(x[k] == y[k]);
            }
        }
        assert(trim_end_seq(x) == trim_end_seq(y));
        let t = trim_end_seq(x);
        assert(x =~= t + x.subrange(l, x.len() as int)) by {
            assert forall|k: int| 0 <= k < x.len() implies #[trigger] x[k] == (t + x.subrange(l, x.len() as int))[k] by {
                if k < l {
                    assert(x[k] == y[k]);
                    assert(y[k] == (t + y.subrange(l, y.len() as int))[k]);
                }
            }
        }
    } else {
        assert(x =~= x + x.subrange(x.len() as int, x.len() as int));
    }
}

/// The join receipt is, up to whitespace removed at its end, the line
/// `✅ 已加入追踪 <order id>` (the `order_id` text, else `?`) followed by one
/// line `<name>: <value>` for each of status, estimated_slot, stop,
/// completed_time and addr that the order holds, in that order.
pub proof fn lemma_receipt_lines(fs: Fields)
    ensures
        exists|w: Seq<char>|
            (forall|k: int| 0 <= k < w.len() ==> is_ws(#[trigger] w[k])) && render_status_spec(fs) + w
                == "✅ 已加入追踪 "@ + match lookup(fs, "order_id"@) {
                Some(ValueView::Text(o)) => o,
                _ => "?"@,
            } + "\n"@ + receipt_line(fs, "status"@, "状态"@) + receipt_line(fs, "estimated_slot"@, "预计时段"@)
                + receipt_line(fs, "stop"@, "剩余站点"@) + receipt_line(fs, "completed_time"@, "完成时间"@)
                + receipt_line(fs, "addr"@, "地址"@),
{
    reveal_strlit("order_id");
    reveal_strlit("status");
    reveal_strlit("stop");
    reveal_strlit("duration");
    reveal_strlit("length");
    reveal_strlit("estimated_slot");
    reveal_strlit("completed_time");
    reveal_strlit("addr");
    let x = "✅ 已加入追踪 "@ + order_id_spec(fs) + "\n"@ + status_line(fs, "status"@) + status_line(
        fs,
        "estimated_slot"@,
    ) + status_line(fs, "stop"@) + status_line(fs, "completed_time"@) + status_line(fs, "addr"@);
    assert("status"@ != "order_id"@) by {
        assert("status"@.len() != "order_id"@.len());
    }
    assert("estimated_slot"@ != "order_id"@ && "estimated_slot"@ != "status"@ && "estimated_slot"@ != "stop"@
        && "estimated_slot"@ != "duration"@ && "estimated_slot"@ != "length"@) by {
        assert("estimated_slot"@.len() == 14);
    }
    assert("stop"@ != "order_id"@ && "stop"@ != "status"@) by {
        assert("stop"@.len() == 4);
    }
    assert("completed_time"@ != "order_id"@ && "completed_time"@ != "status"@ && "completed_time"@ != "stop"@
        && "completed_time"@ != "duration"@ && "completed_time"@ != "length"@ && "completed_time"@
        != "estimated_slot"@) by {
        assert("completed_time"@.len() == 14);
        assert("completed_time"@[0] != "estimated_slot"@[0]);
    }
    assert("addr"@ != "order_id"@ && "addr"@ != "status"@ && "addr"@ != "stop"@ && "addr"@ != "duration"@
        && "addr"@ != "length"@ && "addr"@ != "estimated_slot"@ && "addr"@ != "completed_time"@) by {
        assert("addr"@.len() == 4);
        assert("addr"@[0] != "stop"@[0]);
    }
    assert(status_line(fs, "status"@) == receipt_line(fs, "status"@, "状态"@));
    assert(status_line(fs, "estimated_slot"@) == receipt_line(fs, "estimated_slot"@, "预计时段"@));
    assert(status_line(fs, "stop"@) == receipt_line(fs, "stop"@, "剩余站点"@));
    assert(status_line(fs, "completed_time"@) == receipt_line(fs, "completed_time"@, "完成时间"@));
    assert(status_line(fs, "addr"@) == receipt_line(fs, "addr"@, "地址"@));
    lemma_trim_end_split(x);
    let w = x.subrange(trim_end_seq(x).len() as int, x.len() as int);
    assert forall|k: int| 0 <= k < w.len() implies is_ws(#[trigger] w[k]) by {
        assert(w[k] == x[trim_end_seq(x).len() + k]);
    }
    let lit = "✅ 已加入追踪 "@ + match lookup(fs, "order_id"@) {
        Some(ValueView::Text(o)) => o,
        _ => "?"@,
    } + "\n"@ + receipt_line(fs, "status"@, "状态"@) + receipt_line(fs, "estimated_slot"@, "预计时段"@)
        + receipt_line(fs, "stop"@, "剩余站点"@) + receipt_line(fs, "completed_time"@, "完成时间"@)
        + receipt_line(fs, "addr"@, "地址"@);
    assert(x == lit);
    assert(render_status_spec(fs) == trim_end_seq(x));
    assert(render_status_spec(fs) + w == lit);
    assert((forall|k: int| 0 <= k < w.len() ==> is_ws(#[trigger] w[k])) && render_status_spec(fs) + w == lit);
}

proof fn lemma_piece_survives(r: Seq<char>, w: Seq<char>, pre: Seq<char>, piece: Seq<char>, post: Seq<char>)
    requires
        forall|k: int| 0 <= k < w.len() ==> is_ws(#[trigger] w[k]),
        r + w == pre + piece + post,
        piece.len() > 0,
        !is_ws(piece.last()),
    ensures
        pre.len() + piece.len() <= r.len(),
        r.subrange(pre.len() as int, pre.len() + piece.len() as int) == piece,
        occurs_in(r, piece),
{
    let x = pre + piece + post;
    let i = pre.len() as int;
    let e = i + piece.len();
    assert(x[e - 1] == piece.last());
    assert(x.len() == r.len() + w.len());
    if e > r.len() {
        assert((r + w)[e - 1] == w[e - 1 - r.len()]);
        assert(is_ws(w[e - 1 - r.len()]));
    }
    assert(e <= r.len());
    assert(r.subrange(i, e) =~= piece) by {
        assert forall|k: int| 0 <= k < piece.len() implies #[trigger] r.subrange(i, e)[k] == piece[k] by {
            assert((r + w)[i + k] == r[i + k]);
            assert(r[i + k] == x[i + k]);
        }
    }
}

/// Each of status, estimated_slot, stop, completed_time and addr that the
/// order holds shows in the join receipt as `<name>: <value>` (for a value
/// that does not end in whitespace).
pub proof fn lemma_receipt_shows_fields(fs: Fields)
    ensures
        forall|v: ValueView|
            lookup(fs, "status"@) == Some(v) && shown_spec(v).len() > 0 && !is_ws(shown_spec(v).last())
                ==> occurs_in(render_status_spec(fs), "状态"@ + ": "@ + shown_spec(v)),
        forall|v: ValueView|
            lookup(fs, "estimated_slot"@) == Some(v) && shown_spec(v).len() > 0 && !is_ws(shown_spec(v).last())
                ==> occurs_in(render_status_spec(fs), "预计时段"@ + ": "@ + shown_spec(v)),
        forall|v: ValueView|
            lookup(fs, "stop"@) == Some(v) && shown_spec(v).len() > 0 && !is_ws(shown_spec(v).last())
                ==> occurs_in(render_status_spec(fs), "剩余站点"@ + ": "@ + shown_spec(v)),
        forall|v: ValueView|
            lookup(fs, "completed_time"@) == Some(v) && shown_spec(v).len() > 0 && !is_ws(shown_spec(v).last())
                ==> occurs_in(render_status_spec(fs), "完成时间"@ + ": "@ + shown_spec(v)),
        forall|v: ValueView|
            lookup(fs, "addr"@) == Some(v) && shown_spec(v).len() > 0 && !is_ws(shown_spec(v).last())
                ==> occurs_in(render_status_spec(fs), "地址"@ + ": "@ + shown_spec(v)),
{
    lemma_receipt_lines(fs);
    let r = render_status_spec(fs);
    let o = match lookup(fs, "order_id"@) {
        Some(ValueView::Text(o)) => o,
        _ => "?"@,
    };
    let h = "✅ 已加入追踪 "@ + o + "\n"@;
    let l1 = receipt_line(fs, "status"@, "状态"@);
    let l2 = receipt_line(fs, "estimated_slot"@, "预计时段"@);
    let l3 = receipt_line(fs, "stop"@, "剩余站点"@);
    let l4 = receipt_line(fs, "completed_time"@, "完成时间"@);
    let l5 = receipt_line(fs, "addr"@, "地址"@);
    let w = choose|w: Seq<char>|
        (forall|k: int| 0 <= k < w.len() ==> is_ws(#[trigger] w[k])) && r + w == h + l1 + l2 + l3 + l4 + l5;
    assert forall|v: ValueView|
        lookup(fs, "status"@) == Some(v) && shown_spec(v).len() > 0 && !is_ws(shown_spec(v).last()) implies occurs_in(
        r,
        "状态"@ + ": "@ + shown_spec(v),
    ) by {
        lemma_line_of(fs, "status"@, "状态"@, v);
        lemma_line_shows(r, w, h, l1, l2, l3, l4, l5, "状态"@ + ": "@ + shown_spec(v));
    }
    assert forall|v: ValueView|
        lookup(fs, "estimated_slot"@) == Some(v) && shown_spec(v).len() > 0 && !is_ws(shown_spec(v).last()) implies occurs_in(
        r,
        "预计时段"@ + ": "@ + shown_spec(v),
    ) by {
        lemma_line_of(fs, "estimated_slot"@, "预计时段"@, v);
        lemma_line_shows(r, w, h, l1, l2, l3, l4, l5, "预计时段"@ + ": "@ + shown_spec(v));
    }
    assert forall|v: ValueView|
        lookup(fs, "stop"@) == Some(v) && shown_spec(v).len() > 0 && !is_ws(shown_spec(v).last()) implies occurs_in(
        r,
        "剩余站点"@ + ": "@ + shown_spec(v),
    ) by {
        lemma_line_of(fs, "stop"@, "剩余站点"@, v);
        lemma_line_shows(r, w, h, l1, l2, l3, l4, l5, "剩余站点"@ + ": "@ + shown_spec(v));
    }
    assert forall|v: ValueView|
        lookup(fs, "completed_time"@) == Some(v) && shown_spec(v).len() > 0 && !is_ws(shown_spec(v).last()) implies occurs_in(
        r,
        "完成时间"@ + ": "@ + shown_spec(v),
    ) by {
        lemma_line_of(fs, "completed_time"@, "完成时间"@, v);
        lemma_line_shows(r, w, h, l1, l2, l3, l4, l5, "完成时间"@ + ": "@ + shown_spec(v));
    }
    assert forall|v: ValueView|
        lookup(fs, "addr"@) == Some(v) && shown_spec(v).len() > 0 && !is_ws(shown_spec(v).last()) implies occurs_in(
        r,
        "地址"@ + ": "@ + shown_spec(v),
    ) by {
        lemma_line_of(fs, "addr"@, "地址"@, v);
        lemma_line_shows(r, w, h, l1, l2, l3, l4, l5, "地址"@ + ": "@ + shown_spec(v));
    }
}

proof fn lemma_line_of(fs: Fields, key: Seq<char>, name: Seq<char>, v: ValueView)
    requires
        lookup(fs, key) == Some(v),
    ensures
        receipt_line(fs, key, name) == name + ": "@ + shown_spec(v) + "\n"@,
{
}

proof fn lemma_line_shows(
    r: Seq<char>,
    w: Seq<char>,
    h: Seq<char>,
    l1: Seq<char>,
    l2: Seq<char>,
    l3: Seq<char>,
    l4: Seq<char>,
    l5: Seq<char>,
    piece: Seq<char>,
)
    requires
        forall|k: int| 0 <= k < w.len() ==> is_ws(#[trigger] w[k]),
        r + w == h + l1 + l2 + l3 + l4 + l5,
        piece.len() > 0,
        !is_ws(piece.last()),
    ensures
        l1 == piece + "\n"@ ==> occurs_in(r, piece),
        l2 == piece + "\n"@ ==> occurs_in(r, piece),
        l3 == piece + "\n"@ ==> occurs_in(r, piece),
        l4 == piece + "\n"@ ==> occurs_in(r, piece),
        l5 == piece + "\n"@ ==> occurs_in(r, piece),
{
    let nl = "\n"@;
    let x = h + l1 + l2 + l3 + l4 + l5;
    if l1 == piece + nl {
        assert(x =~= h + piece + (nl + l2 + l3 + l4 + l5));
        lemma_piece_survives(r, w, h, piece, nl + l2 + l3 + l4 + l5);
    }
    if l2 == piece + nl {
        assert(x =~= (h + l1) + piece + (nl + l3 + l4 + l5));
        lemma_piece_survives(r, w, h + l1, piece, nl + l3 + l4 + l5);
    }
    if l3 == piece + nl {
        assert(x =~= (h + l1 + l2) + piece + (nl + l4 + l5));
        lemma_piece_survives(r, w, h + l1 + l2, piece, nl + l4 + l5);
    }
    if l4 == piece + nl {
        assert(x =~= (h + l1 + l2 + l3) + piece + (nl + l5));
        lemma_piece_survives(r, w, h + l1 + l2 + l3, piece, nl + l5);
    }
    if l5 == piece + nl {
        assert(x =~= (h + l1 + l2 + l3 + l4) + piece + nl);
        lemma_piece_survives(r, w, h + l1 + l2 + l3 + l4, piece, nl);
    }
}

proof fn lemma_change_lines_split(cs: Seq<ChangeView>, k: int)
    requires
        0 <= k < cs.len(),
    ensures
        exists|post: Seq<char>| change_lines(cs) == change_lines(cs.take(k)) + change_line(cs[k]) + post,
    decreases cs.len(),
{
    let init = cs.drop_last();
    if k == cs.len() - 1 {
        assert(init =~= cs.take(k));
        assert(change_lines(cs) =~= change_lines(cs.take(k)) + change_line(cs[k]) + Seq::<char>::empty());
    } else {
        lemma_change_lines_split(init, k);
        assert(init.take(k) =~= cs.take(k));
        assert(init[k] == cs[k]);
        let post = choose|post: Seq<char>| change_lines(init) == change_lines(init.take(k)) + change_line(init[k]) + post;
        assert(change_lines(cs) =~= change_lines(cs.take(k)) + change_line(cs[k]) + (post + change_line(cs.last())));
    }
}

/// The update notice starts with `🚚 订单 <order> 有更新:` and shows each
/// change as `<name>: <old> → <new>` (`—` for a missing value), for a new
/// value that does not end in whitespace.
pub proof fn lemma_update_notice_lines(o: Seq<char>, cs: Seq<ChangeView>)
    ensures
        ({
            let r = render_changes_spec(o, cs);
            let hdr = "🚚 订单 "@ + o + " 有更新:"@;
            hdr.len() <= r.len() && r.subrange(0, hdr.len() as int) == hdr
        }),
        forall|k: int|
            0 <= k < cs.len() && val_spec(cs[k].new).len() > 0 && !is_ws(val_spec(cs[k].new).last()) ==> occurs_in(
                render_changes_spec(o, cs),
                label_spec(#[trigger] cs[k].key) + ": "@ + val_spec(cs[k].old) + " → "@ + val_spec(cs[k].new),
            ),
{
    reveal_strlit(" 有更新:");
    reveal_strlit(" 有更新:\n");
    reveal_strlit("\n");
    let hdr = "🚚 订单 "@ + o + " 有更新:"@;
    let x = "🚚 订单 "@ + o + " 有更新:\n"@ + change_lines(cs);
    let r = render_changes_spec(o, cs);
    lemma_trim_end_split(x);
    let w = x.subrange(r.len() as int, x.len() as int);
    assert forall|k: int| 0 <= k < w.len() implies is_ws(#[trigger] w[k]) by {
        assert(w[k] == x[r.len() + k]);
    }
    assert(r + w == x);
    let nl = "\n"@;
    assert(" 有更新:\n"@ =~= " 有更新:"@ + nl);
    assert(x =~= Seq::<char>::empty() + hdr + (nl + change_lines(cs)));
    assert(hdr.last() == ':');
    lemma_piece_survives(r, w, Seq::<char>::empty(), hdr, nl + change_lines(cs));
    assert forall|k: int|
        0 <= k < cs.len() && val_spec(cs[k].new).len() > 0 && !is_ws(val_spec(cs[k].new).last()) implies occurs_in(
            r,
            label_spec(#[trigger] cs[k].key) + ": "@ + val_spec(cs[k].old) + " → "@ + val_spec(cs[k].new),
        ) by {
        let piece = label_spec(cs[k].key) + ": "@ + val_spec(cs[k].old) + " → "@ + val_spec(cs[k].new);
        lemma_change_lines_split(cs, k);
        let post = choose|post: Seq<char>| change_lines(cs) == change_lines(cs.take(k)) + change_line(cs[k]) + post;
        assert(change_line(cs[k]) == piece + nl);
        let pre = "🚚 订单 "@ + o + " 有更新:\n"@ + change_lines(cs.take(k));
        assert(x =~= pre + piece + (nl + post));
        assert(piece.last() == val_spec(cs[k].new).last());
        lemma_piece_survives(r, w, pre, piece, nl + post);
    }
}

} // verus!
