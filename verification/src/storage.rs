use vstd::prelude::*;

use crate::error::KvError;
use crate::error::KvErrorView;
use crate::value::Kvpair;
use crate::value::KvpairView;
use crate::value::Value;
use crate::value::ValueView;

verus! {

/// One table: unique keys to values.
pub type TableModel = Map<Seq<char>, ValueView>;

/// The whole store: table names to tables.
pub type StoreModel = Map<Seq<char>, TableModel>;

/// The table named `t`, empty when the store does not hold it yet.
pub open spec fn store_table(s: StoreModel, t: Seq<char>) -> TableModel {
    if s.contains_key(t) {
        s[t]
    } else {
        Map::empty()
    }
}

/// What a lookup of `k` in table `t` yields.
pub open spec fn store_get(s: StoreModel, t: Seq<char>, k: Seq<char>) -> Option<ValueView> {
    if store_table(s, t).contains_key(k) {
        Some(store_table(s, t)[k])
    } else {
        None
    }
}

/// The store after writing `k = v` into table `t`, creating the table on
/// first use.
pub open spec fn store_set(s: StoreModel, t: Seq<char>, k: Seq<char>, v: ValueView) -> StoreModel {
    s.insert(t, store_table(s, t).insert(k, v))
}

/// The store after deleting `k` from table `t`; a missing table is left
/// alone.
pub open spec fn store_del(s: StoreModel, t: Seq<char>, k: Seq<char>) -> StoreModel {
    if s.contains_key(t) {
        s.insert(t, s[t].remove(k))
    } else {
        s
    }
}

/// The table a sequence of pairs denotes: later pairs win, though engines
/// only ever hand out sequences with distinct keys.
pub open spec fn pairs_map(ps: Seq<KvpairView>) -> TableModel
    decreases ps.len(),
{
    if ps.len() == 0 {
        Map::empty()
    } else {
        pairs_map(ps.drop_last()).insert(ps.last().key, ps.last().value)
    }
}

/// No two pairs share a key.
pub open spec fn pairs_keys_distinct(ps: Seq<KvpairView>) -> bool {
    forall|i: int, j: int| 0 <= i < j < ps.len() ==> ps[i].key != ps[j].key
}

/// The storage abstraction: where the data lives is the engine's business,
/// but every engine answers to one mathematical store.
///
/// Engines must be shareable across threads behind the service's lock; an
/// engine may fail only for backend reasons, and one whose `never_fails()`
/// holds (the in-memory store) is obliged to succeed on every call.
pub trait Storage: Sized {
    /// The tables this engine currently holds.
    spec fn store(&self) -> StoreModel;

    /// Internal well-formedness, established by the constructor and kept by
    /// every operation.
    spec fn inv(&self) -> bool;

    /// True of backends that cannot fail.
    spec fn never_fails(&self) -> bool;

    /// Read one key. A missing table or key is an empty option, never an
    /// error.
    fn get(&self, table: &str, key: &str) -> (r: Result<Option<Value>, KvError>)
        requires
            self.inv(),
        ensures
            r matches Ok(ov) ==> ov.deep_view() == store_get(self.store(), table@, key@),
            r matches Err(e) ==> (e@ matches KvErrorView::StorageError(op, t, k, c) && op
                == "get"@ && t == table@ && k == key@),
            self.never_fails() ==> r is Ok,
    ;

    /// Write one key, creating the table on first use; returns the previous
    /// value if any.
    fn set(&mut self, table: &str, key: String, value: Value) -> (r: Result<
        Option<Value>,
        KvError,
    >)
        requires
            old(self).inv(),
        ensures
            final(self).inv(),
            final(self).never_fails() == old(self).never_fails(),
            r matches Ok(prev) ==> {
                &&& prev.deep_view() == store_get(old(self).store(), table@, key@)
                &&& final(self).store() == store_set(old(self).store(), table@, key@, value@)
            },
            r matches Err(e) ==> (e@ matches KvErrorView::StorageError(op, t, k, c) && op
                == "set"@ && t == table@ && k == key@) && final(self).store() == old(self).store(),
            old(self).never_fails() ==> r is Ok,
    ;

    /// Whether the table holds the key.
    fn contains(&self, table: &str, key: &str) -> (r: Result<bool, KvError>)
        requires
            self.inv(),
        ensures
            r matches Ok(b) ==> b == store_get(self.store(), table@, key@) is Some,
            r matches Err(e) ==> (e@ matches KvErrorView::StorageError(op, t, k, c) && op
                == "contains"@ && t == table@ && k == key@),
            self.never_fails() ==> r is Ok,
    ;

    /// Remove one key; returns the removed value if any. A missing table or
    /// key is a no-op returning an empty option, not an error.
    fn del(&mut self, table: &str, key: &str) -> (r: Result<Option<Value>, KvError>)
        requires
            old(self).inv(),
        ensures
            final(self).inv(),
            final(self).never_fails() == old(self).never_fails(),
            r matches Ok(prev) ==> {
                &&& prev.deep_view() == store_get(old(self).store(), table@, key@)
                &&& final(self).store() == store_del(old(self).store(), table@, key@)
            },
            r matches Err(e) ==> (e@ matches KvErrorView::StorageError(op, t, k, c) && op
                == "del"@ && t == table@ && k == key@) && final(self).store() == old(self).store(),
            old(self).never_fails() ==> r is Ok,
    ;

    /// A materialized snapshot of the table's pairs, in no promised order
    /// (callers sort when they need determinism).
    fn get_all(&self, table: &str) -> (r: Result<Vec<Kvpair>, KvError>)
        requires
            self.inv(),
        ensures
            r matches Ok(ps) ==> {
                &&& pairs_map(ps.deep_view()) == store_table(self.store(), table@)
                &&& pairs_keys_distinct(ps.deep_view())
            },
            r matches Err(e) ==> (e@ matches KvErrorView::StorageError(op, t, k, c) && op
                == "get_all"@ && t == table@),
            self.never_fails() ==> r is Ok,
    ;

    /// A single-pass iterator over a frozen snapshot of the table, taken at
    /// call time: writes made after this call are not reflected.
    fn get_iter(&self, table: &str) -> (r: Result<StorageIter, KvError>)
        requires
            self.inv(),
        ensures
            r matches Ok(it) ==> {
                &&& pairs_map(it.snapshot()) == store_table(self.store(), table@)
                &&& pairs_keys_distinct(it.snapshot())
                &&& it.position() == 0
            },
            r matches Err(e) ==> (e@ matches KvErrorView::StorageError(op, t, k, c) && op
                == "get_iter"@ && t == table@),
            self.never_fails() ==> r is Ok,
    ;
}

/// A finite, single-pass walk over a frozen snapshot of one table's pairs.
/// The snapshot is taken when the iterator is made; concurrent writes after
/// that point are deliberately not reflected. Any other source of pairs can
/// be walked the same way by materializing it into a `Vec` first.
pub struct StorageIter {
    data: Vec<Kvpair>,
    pos: usize,
}

impl StorageIter {
    /// The pairs this iterator walks.
    pub closed spec fn snapshot(&self) -> Seq<KvpairView> {
        self.data.deep_view()
    }

    /// How many pairs have been handed out.
    pub closed spec fn position(&self) -> int {
        self.pos as int
    }

    pub fn new(data: Vec<Kvpair>) -> (r: Self)
        ensures
            r.snapshot() == data.deep_view(),
            r.position() == 0,
    {
        StorageIter { data, pos: 0 }
    }

    /// The next pair of the snapshot, or an empty option once all have been
    /// handed out.
    pub fn next(&mut self) -> (r: Option<Kvpair>)
        ensures
            final(self).snapshot() == old(self).snapshot(),
            old(self).position() < old(self).snapshot().len() ==> {
                &&& r matches Some(p) && p@ == old(self).snapshot()[old(self).position()]
                &&& final(self).position() == old(self).position() + 1
            },
            old(self).position() >= old(self).snapshot().len() ==> r is None
                && final(self).position() == old(self).position(),
    {
        if self.pos < self.data.len() {
            let p = self.data[self.pos].clone();
            self.pos = self.pos + 1;
            Some(p)
        } else {
            None
        }
    }
}

/// Law: a write is read back — after `set(T, K, V)`, `get(T, K)` is `V`.
pub proof fn lemma_set_then_get(s: StoreModel, t: Seq<char>, k: Seq<char>, v: ValueView)
    ensures
        store_get(store_set(s, t, k, v), t, k) == Some(v),
{
}

/// Law: overwriting — the second `set(T, K, _)` sees the first write as the
/// previous value, and a `get(T, K)` after both sees the second write.
pub proof fn lemma_set_then_set(
    s: StoreModel,
    t: Seq<char>,
    k: Seq<char>,
    v1: ValueView,
    v2: ValueView,
)
    ensures
        store_get(store_set(s, t, k, v1), t, k) == Some(v1),
        store_get(store_set(store_set(s, t, k, v1), t, k, v2), t, k) == Some(v2),
{
}

/// Law: deletion — after `del(T, K)` the key is gone, so a second `del` or a
/// `get` finds nothing; deleting from a missing table leaves the store as it
/// was.
pub proof fn lemma_del_then_get(s: StoreModel, t: Seq<char>, k: Seq<char>)
    ensures
        store_get(store_del(s, t, k), t, k) is None,
        !s.contains_key(t) ==> store_del(s, t, k) == s,
{
}

/// Law: writes are local — `set(T, K, V)` changes no other key of any table.
pub proof fn lemma_set_frame(
    s: StoreModel,
    t: Seq<char>,
    k: Seq<char>,
    v: ValueView,
    t2: Seq<char>,
    k2: Seq<char>,
)
    requires
        t2 != t || k2 != k,
    ensures
        store_get(store_set(s, t, k, v), t2, k2) == store_get(s, t2, k2),
{
}

/// Law: deletions are local — `del(T, K)` changes no other key of any table.
pub proof fn lemma_del_frame(s: StoreModel, t: Seq<char>, k: Seq<char>, t2: Seq<char>, k2: Seq<char>)
    requires
        t2 != t || k2 != k,
    ensures
        store_get(store_del(s, t, k), t2, k2) == store_get(s, t2, k2),
{
}

/// Law: independent writes commute — two `set`s of distinct keys reach the
/// same store in either order, so concurrent writers of distinct keys lose
/// no update whichever order the engine's lock admits them in.
pub proof fn lemma_set_commutes(
    s: StoreModel,
    t: Seq<char>,
    k1: Seq<char>,
    v1: ValueView,
    k2: Seq<char>,
    v2: ValueView,
)
    requires
        k1 != k2,
    ensures
        store_set(store_set(s, t, k1, v1), t, k2, v2) == store_set(
            store_set(s, t, k2, v2),
            t,
            k1,
            v1,
        ),
{
    let a = store_set(store_set(s, t, k1, v1), t, k2, v2);
    let b = store_set(store_set(s, t, k2, v2), t, k1, v1);
    assert(a[t] =~= b[t]);
    assert(a =~= b);
}

} // verus!
