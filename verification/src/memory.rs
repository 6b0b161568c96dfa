use vstd::prelude::*;

use crate::error::KvError;
use crate::storage::Storage;
use crate::storage::StorageIter;
use crate::storage::StoreModel;
use crate::storage::pairs_keys_distinct;
use crate::storage::pairs_map;
use crate::storage::store_del;
use crate::storage::store_get;
use crate::storage::store_set;
use crate::storage::store_table;
use crate::value::Kvpair;
use crate::value::KvpairView;
use crate::value::Value;
use crate::value::ValueView;
use crate::value::str_eq;

verus! {

/// One stored table: its name and its pairs.
type Row = (String, Vec<Kvpair>);

/// The store a sequence of rows denotes.
pub open spec fn rows_model(rows: Seq<Row>) -> StoreModel
    decreases rows.len(),
{
    if rows.len() == 0 {
        Map::empty()
    } else {
        rows_model(rows.drop_last()).insert(
            rows.last().0@,
            pairs_map(rows.last().1.deep_view()),
        )
    }
}

/// Row names are pairwise distinct.
pub open spec fn rows_names_distinct(rows: Seq<Row>) -> bool {
    forall|i: int, j: int| 0 <= i < j < rows.len() ==> rows[i].0@ != rows[j].0@
}

/// The in-memory storage engine: a list of tables, each a list of pairs.
/// Table names are unique, and keys are unique within a table. Tables are
/// created lazily on first write and live as long as the engine.
///
/// The engine itself is single-writer; the service shares one instance
/// across threads behind its lock.
pub struct MemTable {
    tables: Vec<Row>,
}

proof fn lemma_rows_model_contains(rows: Seq<Row>, t: Seq<char>)
    ensures
        rows_model(rows).contains_key(t) <==> exists|i: int|
            0 <= i < rows.len() && rows[i].0@ == t,
    decreases rows.len(),
{
    if rows.len() > 0 {
        lemma_rows_model_contains(rows.drop_last(), t);
        if rows.last().0@ != t {
            assert(forall|i: int|
                0 <= i < rows.len() - 1 ==> rows.drop_last()[i] == rows[i]);
            if rows_model(rows).contains_key(t) {
                let i = choose|i: int| 0 <= i < rows.len() - 1 && rows.drop_last()[i].0@ == t;
                assert(rows[i].0@ == t);
            }
            if exists|i: int| 0 <= i < rows.len() && rows[i].0@ == t {
                let i = choose|i: int| 0 <= i < rows.len() && rows[i].0@ == t;
                assert(rows.drop_last()[i].0@ == t);
            }
        }
    }
}

proof fn lemma_rows_model_at(rows: Seq<Row>, i: int)
    requires
        rows_names_distinct(rows),
        0 <= i < rows.len(),
    ensures
        rows_model(rows).contains_key(rows[i].0@),
        rows_model(rows)[rows[i].0@] == pairs_map(rows[i].1.deep_view()),
    decreases rows.len(),
{
    if i == rows.len() - 1 {
    } else {
        assert(rows.drop_last()[i] == rows[i]);
        lemma_rows_model_at(rows.drop_last(), i);
        assert(rows.last().0@ != rows[i].0@);
    }
}

proof fn lemma_rows_model_update(rows: Seq<Row>, i: int, row2: Row)
    requires
        rows_names_distinct(rows),
        0 <= i < rows.len(),
        row2.0@ == rows[i].0@,
    ensures
        rows_model(rows.update(i, row2)) == rows_model(rows).insert(
            rows[i].0@,
            pairs_map(row2.1.deep_view()),
        ),
    decreases rows.len(),
{
    let up = rows.update(i, row2);
    if i == rows.len() - 1 {
        assert(up.drop_last() =~= rows.drop_last());
        assert(rows_model(up) =~= rows_model(rows).insert(
            rows[i].0@,
            pairs_map(row2.1.deep_view()),
        ));
    } else {
        assert(up.drop_last() =~= rows.drop_last().update(i, row2));
        assert(rows.drop_last()[i] == rows[i]);
        lemma_rows_model_update(rows.drop_last(), i, row2);
        assert(rows.last().0@ != rows[i].0@);
        assert(up.last() == rows.last());
        assert(rows_model(up) =~= rows_model(rows).insert(
            rows[i].0@,
            pairs_map(row2.1.deep_view()),
        ));
    }
}

pub(crate) proof fn lemma_pairs_map_contains(ps: Seq<KvpairView>, k: Seq<char>)
    ensures
        pairs_map(ps).contains_key(k) <==> exists|j: int| 0 <= j < ps.len() && ps[j].key == k,
    decreases ps.len(),
{
    if ps.len() > 0 {
        lemma_pairs_map_contains(ps.drop_last(), k);
        if ps.last().key != k {
            assert(forall|j: int| 0 <= j < ps.len() - 1 ==> ps.drop_last()[j] == ps[j]);
            if pairs_map(ps).contains_key(k) {
                let j = choose|j: int| 0 <= j < ps.len() - 1 && ps.drop_last()[j].key == k;
                assert(ps[j].key == k);
            }
            if exists|j: int| 0 <= j < ps.len() && ps[j].key == k {
                let j = choose|j: int| 0 <= j < ps.len() && ps[j].key == k;
                assert(ps.drop_last()[j].key == k);
            }
        }
    }
}

pub(crate) proof fn lemma_pairs_map_at(ps: Seq<KvpairView>, j: int)
    requires
        pairs_keys_distinct(ps),
        0 <= j < ps.len(),
    ensures
        pairs_map(ps).contains_key(ps[j].key),
        pairs_map(ps)[ps[j].key] == ps[j].value,
    decreases ps.len(),
{
    if j == ps.len() - 1 {
    } else {
        assert(ps.drop_last()[j] == ps[j]);
        lemma_pairs_map_at(ps.drop_last(), j);
        assert(ps.last().key != ps[j].key);
    }
}

proof fn lemma_pairs_map_update(ps: Seq<KvpairView>, j: int, p2: KvpairView)
    requires
        pairs_keys_distinct(ps),
        0 <= j < ps.len(),
        p2.key == ps[j].key,
    ensures
        pairs_map(ps.update(j, p2)) == pairs_map(ps).insert(ps[j].key, p2.value),
    decreases ps.len(),
{
    let up = ps.update(j, p2);
    if j == ps.len() - 1 {
        assert(up.drop_last() =~= ps.drop_last());
        assert(pairs_map(up) =~= pairs_map(ps).insert(ps[j].key, p2.value));
    } else {
        assert(up.drop_last() =~= ps.drop_last().update(j, p2));
        assert(ps.drop_last()[j] == ps[j]);
        lemma_pairs_map_update(ps.drop_last(), j, p2);
        assert(ps.last().key != ps[j].key);
        assert(up.last() == ps.last());
        assert(pairs_map(up) =~= pairs_map(ps).insert(ps[j].key, p2.value));
    }
}

proof fn lemma_pairs_map_remove(ps: Seq<KvpairView>, j: int)
    requires
        pairs_keys_distinct(ps),
        0 <= j < ps.len(),
    ensures
        pairs_map(ps.remove(j)) == pairs_map(ps).remove(ps[j].key),
        pairs_keys_distinct(ps.remove(j)),
    decreases ps.len(),
{
    let rm = ps.remove(j);
    assert(forall|a: int| 0 <= a < j ==> rm[a] == ps[a]);
    assert(forall|a: int| j <= a < rm.len() ==> rm[a] == ps[a + 1]);
    assert(pairs_keys_distinct(rm));
    if j == ps.len() - 1 {
        assert(rm =~= ps.drop_last());
        lemma_pairs_map_contains(ps.drop_last(), ps[j].key);
        assert(forall|a: int| 0 <= a < ps.len() - 1 ==> ps.drop_last()[a] == ps[a]);
        assert(!pairs_map(ps.drop_last()).contains_key(ps[j].key));
        assert(pairs_map(rm) =~= pairs_map(ps).remove(ps[j].key));
    } else {
        assert(rm.drop_last() =~= ps.drop_last().remove(j));
        assert(ps.drop_last()[j] == ps[j]);
        lemma_pairs_map_remove(ps.drop_last(), j);
        assert(ps.last().key != ps[j].key);
        assert(rm.last() == ps.last());
        assert(pairs_map(rm) =~= pairs_map(ps).remove(ps[j].key));
    }
}

impl MemTable {
    /// A fresh engine with no tables.
    pub fn new() -> (r: Self)
        ensures
            r.inv(),
            r.store() == Map::<Seq<char>, Map<Seq<char>, crate::value::ValueView>>::empty(),
            r.never_fails(),
    {
        MemTable { tables: Vec::new() }
    }

    fn find_table(&self, table: &str) -> (r: Option<usize>)
        ensures
            r matches Some(i) ==> i < self.tables@.len() && self.tables@[i as int].0@ == table@,
            r is None ==> forall|i: int|
                0 <= i < self.tables@.len() ==> self.tables@[i].0@ != table@,
    {
        let mut i: usize = 0;
        while i < self.tables.len()
            invariant
                i <= self.tables@.len(),
                forall|j: int| 0 <= j < i ==> self.tables@[j].0@ != table@,
            decreases self.tables@.len() - i,
        {
            if str_eq(self.tables[i].0.as_str(), table) {
                return Some(i);
            }
            i += 1;
        }
        None
    }
}

fn find_pair(pairs: &Vec<Kvpair>, key: &str) -> (r: Option<usize>)
    ensures
        r matches Some(j) ==> j < pairs@.len() && pairs.deep_view()[j as int].key == key@,
        r is None ==> forall|j: int| 0 <= j < pairs@.len() ==> pairs.deep_view()[j].key != key@,
{
    let mut j: usize = 0;
    while j < pairs.len()
        invariant
            j <= pairs@.len(),
            forall|a: int| 0 <= a < j ==> pairs.deep_view()[a].key != key@,
        decreases pairs@.len() - j,
    {
        if str_eq(pairs[j].key.as_str(), key) {
            assert(pairs.deep_view()[j as int].key == pairs@[j as int].key@);
            return Some(j);
        }
        assert(pairs.deep_view()[j as int].key == pairs@[j as int].key@);
        j += 1;
    }
    None
}

impl Default for MemTable {
    /// A fresh engine with no tables.
    fn default() -> (r: Self)
        ensures
            r.inv(),
            r.store() == Map::<Seq<char>, Map<Seq<char>, crate::value::ValueView>>::empty(),
            r.never_fails(),
    {
        MemTable::new()
    }
}

impl Storage for MemTable {
    closed spec fn store(&self) -> StoreModel {
        rows_model(self.tables@)
    }

    closed spec fn inv(&self) -> bool {
        &&& rows_names_distinct(self.tables@)
        &&& forall|i: int|
            0 <= i < self.tables@.len() ==> pairs_keys_distinct(
                #[trigger] self.tables@[i].1.deep_view(),
            )
    }

    closed spec fn never_fails(&self) -> bool {
        true
    }

    fn get(&self, table: &str, key: &str) -> (r: Result<Option<Value>, KvError>)
        ensures
            r is Ok,
    {
        proof {
            lemma_rows_model_contains(self.tables@, table@);
        }
        match self.find_table(table) {
            None => Ok(None),
            Some(i) => {
                proof {
                    lemma_rows_model_at(self.tables@, i as int);
                    lemma_pairs_map_contains(self.tables@[i as int].1.deep_view(), key@);
                }
                match find_pair(&self.tables[i].1, key) {
                    None => Ok(None),
                    Some(j) => {
                        proof {
                            lemma_pairs_map_at(self.tables@[i as int].1.deep_view(), j as int);
                        }
                        Ok(Some(self.tables[i].1[j].value.clone()))
                    },
                }
            },
        }
    }

    fn set(&mut self, table: &str, key: String, value: Value) -> (r: Result<
        Option<Value>,
        KvError,
    >)
        ensures
            r is Ok,
    {
        let ghost rows0 = self.tables@;
        let ghost kv = key@;
        let ghost vv = value@;
        proof {
            lemma_rows_model_contains(rows0, table@);
        }
        match self.find_table(table) {
            None => {
                let mut pairs: Vec<Kvpair> = Vec::new();
                pairs.push(Kvpair { key, value });
                self.tables.push((table.to_owned(), pairs));
                proof {
                    assert(self.tables@.drop_last() =~= rows0);
                    let dv = self.tables@.last().1.deep_view();
                    assert(dv =~= seq![KvpairView { key: kv, value: vv }]);
                    assert(dv.last() == (KvpairView { key: kv, value: vv }));
                    assert(dv.drop_last() =~= Seq::<KvpairView>::empty());
                    assert(pairs_map(dv.drop_last()) =~= Map::<Seq<char>, ValueView>::empty());
                    assert(!rows_model(rows0).contains_key(table@));
                    assert(pairs_map(dv) =~= store_table(rows_model(rows0), table@).insert(
                        kv,
                        vv,
                    ));
                    assert(pairs_keys_distinct(dv));
                }
                Ok(None)
            },
            Some(i) => {
                proof {
                    lemma_rows_model_at(rows0, i as int);
                }
                let mut row = self.tables.remove(i);
                let ghost ps0 = row.1.deep_view();
                proof {
                    assert(rows0[i as int].1.deep_view() == ps0);
                    assert(pairs_keys_distinct(ps0));
                    lemma_pairs_map_contains(ps0, key@);
                }
                let prev: Option<Value> = match find_pair(&row.1, key.as_str()) {
                    None => {
                        row.1.push(Kvpair { key, value });
                        proof {
                            let dv = row.1.deep_view();
                            assert(dv.drop_last() =~= ps0);
                            assert(dv.last() == (KvpairView { key: kv, value: vv }));
                            assert(forall|a: int| 0 <= a < dv.len() - 1 ==> dv[a] == ps0[a]);
                            assert(pairs_keys_distinct(dv));
                        }
                        None
                    },
                    Some(j) => {
                        let old_pair = row.1.remove(j);
                        let new_pair = Kvpair { key: old_pair.key, value };
                        row.1.insert(j, new_pair);
                        proof {
                            lemma_pairs_map_at(ps0, j as int);
                            assert(row.1.deep_view() =~= ps0.update(
                                j as int,
                                KvpairView { key: kv, value: vv },
                            ));
                            lemma_pairs_map_update(ps0, j as int, KvpairView { key: kv, value: vv });
                            assert(pairs_keys_distinct(row.1.deep_view()));
                        }
                        Some(old_pair.value)
                    },
                };
                self.tables.insert(i, row);
                proof {
                    assert(self.tables@ =~= rows0.update(i as int, self.tables@[i as int]));
                    lemma_rows_model_update(rows0, i as int, self.tables@[i as int]);
                    assert(self.store() == store_set(rows_model(rows0), table@, key@, value@));
                    assert(rows_names_distinct(self.tables@));
                }
                Ok(prev)
            },
        }
    }

    fn contains(&self, table: &str, key: &str) -> (r: Result<bool, KvError>)
        ensures
            r is Ok,
    {
        proof {
            lemma_rows_model_contains(self.tables@, table@);
        }
        match self.find_table(table) {
            None => Ok(false),
            Some(i) => {
                proof {
                    lemma_rows_model_at(self.tables@, i as int);
                    lemma_pairs_map_contains(self.tables@[i as int].1.deep_view(), key@);
                }
                match find_pair(&self.tables[i].1, key) {
                    None => Ok(false),
                    Some(_) => Ok(true),
                }
            },
        }
    }

    fn del(&mut self, table: &str, key: &str) -> (r: Result<Option<Value>, KvError>)
        ensures
            r is Ok,
    {
        let ghost rows0 = self.tables@;
        proof {
            lemma_rows_model_contains(rows0, table@);
        }
        match self.find_table(table) {
            None => Ok(None),
            Some(i) => {
                proof {
                    lemma_rows_model_at(rows0, i as int);
                }
                let mut row = self.tables.remove(i);
                let ghost ps0 = row.1.deep_view();
                proof {
                    lemma_pairs_map_contains(ps0, key@);
                }
                match find_pair(&row.1, key) {
                    None => {
                        self.tables.insert(i, row);
                        proof {
                            assert(self.tables@ =~= rows0);
                            let s = rows_model(rows0);
                            assert(!s[table@].contains_key(key@));
                            assert(s[table@].remove(key@) =~= s[table@]);
                            assert(s.insert(table@, s[table@].remove(key@)) =~= s);
                        }
                        Ok(None)
                    },
                    Some(j) => {
                        let pair = row.1.remove(j);
                        proof {
                            lemma_pairs_map_at(ps0, j as int);
                            lemma_pairs_map_remove(ps0, j as int);
                            assert(row.1.deep_view() =~= ps0.remove(j as int));
                        }
                        self.tables.insert(i, row);
                        proof {
                            assert(self.tables@ =~= rows0.update(i as int, self.tables@[i as int]));
                            lemma_rows_model_update(rows0, i as int, self.tables@[i as int]);
                            assert(self.store() == store_del(rows_model(rows0), table@, key@));
                            assert(rows_names_distinct(self.tables@));
                        }
                        Ok(Some(pair.value))
                    },
                }
            },
        }
    }

    fn get_all(&self, table: &str) -> (r: Result<Vec<Kvpair>, KvError>)
        ensures
            r is Ok,
    {
        proof {
            lemma_rows_model_contains(self.tables@, table@);
        }
        match self.find_table(table) {
            None => {
                let ps: Vec<Kvpair> = Vec::new();
                proof {
                    assert(ps.deep_view() =~= Seq::<KvpairView>::empty());
                }
                Ok(ps)
            },
            Some(i) => {
                proof {
                    lemma_rows_model_at(self.tables@, i as int);
                }
                let ps = self.tables[i].1.clone();
                proof {
                    assert(ps.deep_view() =~= self.tables@[i as int].1.deep_view());
                }
                Ok(ps)
            },
        }
    }

    fn get_iter(&self, table: &str) -> (r: Result<StorageIter, KvError>)
        ensures
            r is Ok,
    {
        match self.get_all(table) {
            Ok(ps) => Ok(StorageIter::new(ps)),
            Err(e) => Err(e),
        }
    }
}

} // verus!
