//! The document tree and its mathematical model.
use vstd::prelude::*;

verus! {

broadcast use vstd::std_specs::vec::axiom_vec_index_decreases, vstd::seq::axiom_seq_index_decreases;

/// A numeric scalar. Integers keep their value; a 64-bit float is kept as
/// its IEEE-754 bit pattern, which is always finite.
#[derive(Clone, Copy, Debug, PartialEq, Eq, Structural)]
pub enum Number {
    UInt(u64),
    Float(u64),
}

/// A decoded value.
#[derive(Debug)]
pub enum Value {
    Null,
    Bool(bool),
    Number(Number),
    String(String),
    /// Entries in decoding order; keys are unique.
    Table(Vec<(String, Value)>),
}

/// The mathematical model of a `Value`.
pub enum Doc {
    Null,
    Bool(bool),
    Number(Number),
    Str(Seq<char>),
    Table(Seq<(Seq<char>, Doc)>),
}

/// The models of the first `n` entries of a table.
pub open spec fn view_entries(es: &Vec<(String, Value)>, n: int) -> Seq<(Seq<char>, Doc)>
    decreases es, n,
{
    if n <= 0 || n > es.len() {
        Seq::empty()
    } else {
        view_entries(es, n - 1).push((es[n - 1].0@, es[n - 1].1.view()))
    }
}

impl View for Value {
    type V = Doc;

    open spec fn view(&self) -> Doc
        decreases self,
    {
        match self {
            Value::Null => Doc::Null,
            Value::Bool(b) => Doc::Bool(*b),
            Value::Number(n) => Doc::Number(*n),
            Value::String(s) => Doc::Str(s@),
            Value::Table(es) => Doc::Table(view_entries(es, es.len() as int)),
        }
    }
}


/// A table's model: its entries in order.
pub type Entries = Seq<(Seq<char>, Doc)>;

/// No two entries share a key.
pub open spec fn keys_unique(t: Entries) -> bool {
    forall|i: int, j: int| 0 <= i < j < t.len() ==> t[i].0 != t[j].0
}

/// Some entry has key `k`.
pub open spec fn has_key(t: Entries, k: Seq<char>) -> bool {
    exists|i: int| 0 <= i < t.len() && t[i].0 == k
}

/// Inserting `(k, v)`: an entry with key `k` keeps its place and takes the
/// new content; otherwise the entry goes last.
pub open spec fn put(t: Entries, k: Seq<char>, v: Doc) -> Entries {
    if has_key(t, k) {
        let i = choose|i: int| 0 <= i < t.len() && t[i].0 == k;
        t.update(i, (k, v))
    } else {
        t.push((k, v))
    }
}

/// The content under key `k`, if any.
pub open spec fn lookup(t: Entries, k: Seq<char>) -> Option<Doc> {
    if has_key(t, k) {
        let i = choose|i: int| 0 <= i < t.len() && t[i].0 == k;
        Some(t[i].1)
    } else {
        None
    }
}

/// The model of the first `n` entries holds their keys and models in order.
pub proof fn lemma_view_entries(es: &Vec<(String, Value)>, n: int)
    requires
        0 <= n <= es.len(),
    ensures
        view_entries(es, n).len() == n,
        forall|j: int| 0 <= j < n ==> #[trigger] view_entries(es, n)[j] == (es[j].0@, es[j].1@),
    decreases n,
{
    if n > 0 {
        lemma_view_entries(es, n - 1);
        assert(view_entries(es, n) == view_entries(es, n - 1).push((es[n - 1].0@, es[n - 1].1@)));
    } else {
        assert(view_entries(es, n) == Seq::<(Seq<char>, Doc)>::empty());
    }
}

/// The model of a table's entries.
pub open spec fn entries_view(es: &Vec<(String, Value)>) -> Entries {
    view_entries(es, es.len() as int)
}

/// Inserting keeps keys unique.
pub proof fn lemma_put_unique(t: Entries, k: Seq<char>, v: Doc)
    requires
        keys_unique(t),
    ensures
        keys_unique(put(t, k, v)),
        has_key(put(t, k, v), k),
        lookup(put(t, k, v), k) == Some(v),
{
    let r = put(t, k, v);
    if has_key(t, k) {
        let i = choose|i: int| 0 <= i < t.len() && t[i].0 == k;
        assert(r[i].0 == k);
        let j = choose|j: int| 0 <= j < r.len() && r[j].0 == k;
        assert(j == i);
    } else {
        assert(r[t.len() as int].0 == k);
        let j = choose|j: int| 0 <= j < r.len() && r[j].0 == k;
        assert(j == t.len());
    }
}

/// Every table in the tree has unique keys.
pub open spec fn well_keyed(d: Doc) -> bool
    decreases d,
{
    match d {
        Doc::Table(es) => keys_unique(es) && contents_well_keyed(es, es.len() as int),
        _ => true,
    }
}

/// The contents of the first `n` entries are well keyed.
pub open spec fn contents_well_keyed(es: Entries, n: int) -> bool
    decreases es, n,
{
    if n <= 0 || n > es.len() {
        true
    } else {
        contents_well_keyed(es, n - 1) && well_keyed(es[n - 1].1)
    }
}

/// `contents_well_keyed` says that each of the first `n` contents is well keyed.
pub proof fn lemma_contents_well_keyed(es: Entries, n: int)
    requires
        0 <= n <= es.len(),
    ensures
        contents_well_keyed(es, n) <==> forall|j: int| 0 <= j < n ==> #[trigger] well_keyed(es[j].1),
    decreases n,
{
    if n > 0 {
        lemma_contents_well_keyed(es, n - 1);
        if forall|j: int| 0 <= j < n ==> #[trigger] well_keyed(es[j].1) {
            assert(well_keyed(es[n - 1].1));
        }
    }
}

/// Inserting a well-keyed content into a table whose contents are well keyed
/// keeps them so.
pub proof fn lemma_put_well_keyed(t: Entries, k: Seq<char>, v: Doc)
    requires
        keys_unique(t),
        well_keyed(v),
        forall|i: int| 0 <= i < t.len() ==> #[trigger] well_keyed(t[i].1),
    ensures
        well_keyed(Doc::Table(put(t, k, v))),
{
    let r = put(t, k, v);
    lemma_put_unique(t, k, v);
    lemma_contents_well_keyed(r, r.len() as int);
    assert forall|i: int| 0 <= i < r.len() implies #[trigger] well_keyed(r[i].1) by {
        assert(r[i].1 == v || r[i] == t[i]);
    }
}

/// Inserts `(k, v)` into a table with unique keys, as `put` says.
pub fn table_put(es: &mut Vec<(String, Value)>, k: String, v: Value)
    requires
        keys_unique(entries_view(old(es))),
    ensures
        entries_view(final(es)) == put(entries_view(old(es)), k@, v@),
        keys_unique(entries_view(final(es))),
{
    let ghost t = entries_view(es);
    let ghost kv = k@;
    let ghost vv = v@;
    proof {
        lemma_view_entries(es, es.len() as int);
        lemma_put_unique(t, kv, vv);
    }
    let mut i: usize = 0;
    while i < es.len()
        invariant
            0 <= i <= es.len(),
            t == entries_view(es),
            t == entries_view(old(es)),
            t.len() == es.len(),
            forall|j: int| 0 <= j < es.len() ==> #[trigger] t[j] == (es[j].0@, es[j].1@),
            forall|j: int| 0 <= j < i ==> t[j].0 != kv,
            kv == k@,
            keys_unique(t),
            vv == v@,
        decreases es.len() - i,
    {
        if es[i].0 == k {
            proof {
                assert(t[i as int].0 == kv);
                assert(has_key(t, kv));
            }
            es.set(i, (k, v));
            proof {
                lemma_view_entries(es, es.len() as int);
                let c = choose|c: int| 0 <= c < t.len() && t[c].0 == kv;
                assert(c == i);
                assert(entries_view(es) =~= t.update(i as int, (kv, vv)));
                assert(put(t, kv, vv) == t.update(i as int, (kv, vv)));
            }
            return;
        }
        i = i + 1;
    }
    proof {
        assert(!has_key(t, kv));
    }
    es.push((k, v));
    proof {
        lemma_view_entries(es, es.len() as int);
        assert(entries_view(es) =~= t.push((kv, vv)));
    }
}

} // verus!
