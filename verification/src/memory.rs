//! An in-memory storage backend: an association list of (table, key, value)
//! entries with at most one entry per (table, key) pair. It never fails, so
//! its operations always return Ok.
use vstd::prelude::*;

use crate::storage::{str_eq, table_listing, Storage};
use crate::types::{kvpair_views, KvError, Kvpair, Value, ValueModel};

verus! {

/// One stored entry: table, key, value.
type Entry = (String, String, Value);

/// At most one entry per (table, key) pair.
pub open spec fn distinct_entries(s: Seq<Entry>) -> bool {
    forall|i: int, j: int|
        0 <= i < j < s.len() ==> !((#[trigger] s[i]).0@ == (#[trigger] s[j]).0@ && s[i].1@
            == s[j].1@)
}

/// The map an association list stands for; later entries win.
pub open spec fn entries_model(s: Seq<Entry>) -> Map<(Seq<char>, Seq<char>), ValueModel>
    decreases s.len(),
{
    if s.len() == 0 {
        Map::empty()
    } else {
        entries_model(s.drop_last()).insert((s.last().0@, s.last().1@), s.last().2@)
    }
}

/// The model holds a pair exactly when some entry carries it.
proof fn lemma_model_domain(s: Seq<Entry>, t: Seq<char>, k: Seq<char>)
    ensures
        entries_model(s).dom().contains((t, k)) <==> exists|i: int|
            0 <= i < s.len() && (#[trigger] s[i]).0@ == t && s[i].1@ == k,
    decreases s.len(),
{
    if s.len() > 0 {
        lemma_model_domain(s.drop_last(), t, k);
        let last = s.last();
        if last.0@ == t && last.1@ == k {
            assert((#[trigger] s[s.len() - 1]).0@ == t && s[s.len() - 1].1@ == k);
        } else {
            if exists|i: int| 0 <= i < s.len() && (#[trigger] s[i]).0@ == t && s[i].1@ == k {
                let i = choose|i: int|
                    0 <= i < s.len() && (#[trigger] s[i]).0@ == t && s[i].1@ == k;
                assert(i < s.len() - 1);
                assert((#[trigger] s.drop_last()[i]).0@ == t && s.drop_last()[i].1@ == k);
            }
            if exists|i: int|
                0 <= i < s.drop_last().len() && (#[trigger] s.drop_last()[i]).0@ == t
                    && s.drop_last()[i].1@ == k {
                let i = choose|i: int|
                    0 <= i < s.drop_last().len() && (#[trigger] s.drop_last()[i]).0@ == t
                        && s.drop_last()[i].1@ == k;
                assert((#[trigger] s[i]).0@ == t && s[i].1@ == k);
            }
        }
    }
}

/// Each entry of a distinct list is what the model holds for its pair.
proof fn lemma_model_lookup(s: Seq<Entry>, i: int)
    requires
        distinct_entries(s),
        0 <= i < s.len(),
    ensures
        entries_model(s).dom().contains((s[i].0@, s[i].1@)),
        entries_model(s)[(s[i].0@, s[i].1@)] == s[i].2@,
    decreases s.len(),
{
    if i == s.len() - 1 {
    } else {
        assert(distinct_entries(s.drop_last())) by {
            assert(forall|x: int|
                0 <= x < s.len() - 1 ==> #[trigger] s.drop_last()[x] == s[x]);
        }
        lemma_model_lookup(s.drop_last(), i);
        assert(s.drop_last()[i] == s[i]);
        assert(!(s[i].0@ == s.last().0@ && s[i].1@ == s.last().1@));
    }
}

/// Removing the entry at `i` removes exactly its pair from the model.
proof fn lemma_model_remove_at(s: Seq<Entry>, i: int)
    requires
        distinct_entries(s),
        0 <= i < s.len(),
    ensures
        entries_model(s.remove(i)) == entries_model(s).remove((s[i].0@, s[i].1@)),
    decreases s.len(),
{
    let key = (s[i].0@, s[i].1@);
    if i == s.len() - 1 {
        assert(s.remove(i) =~= s.drop_last());
        lemma_model_domain(s.drop_last(), key.0, key.1);
        if entries_model(s.drop_last()).dom().contains(key) {
            let j = choose|j: int|
                0 <= j < s.drop_last().len() && (#[trigger] s.drop_last()[j]).0@ == key.0
                    && s.drop_last()[j].1@ == key.1;
            assert((#[trigger] s[j]).0@ == key.0 && s[j].1@ == key.1);
            assert(false);
        }
        assert(entries_model(s).remove(key) =~= entries_model(s.drop_last()));
    } else {
        assert(distinct_entries(s.drop_last())) by {
            assert(forall|x: int|
                0 <= x < s.len() - 1 ==> #[trigger] s.drop_last()[x] == s[x]);
        }
        assert(s.drop_last()[i] == s[i]);
        lemma_model_remove_at(s.drop_last(), i);
        assert(s.remove(i).drop_last() =~= s.drop_last().remove(i));
        assert(s.remove(i).last() == s.last());
        let lastkey = (s.last().0@, s.last().1@);
        assert(!(s[i].0@ == s.last().0@ && s[i].1@ == s.last().1@));
        assert(key != lastkey);
        assert(entries_model(s.drop_last()).remove(key).insert(lastkey, s.last().2@)
            =~= entries_model(s.drop_last()).insert(lastkey, s.last().2@).remove(key));
    }
}

/// The in-memory backend.
pub struct MemTable {
    entries: Vec<Entry>,
}

impl MemTable {
    /// A fresh, empty store.
    pub fn new() -> (r: MemTable)
        ensures
            r.inv(),
            r.model() == Map::<(Seq<char>, Seq<char>), ValueModel>::empty(),
            !r.may_fail(),
    {
        MemTable { entries: Vec::new() }
    }

    /// The index of the entry holding (table, key), if any.
    fn find_index(&self, table: &str, key: &str) -> (r: Option<usize>)
        ensures
            r matches Some(i) ==> i < self.entries@.len() && self.entries@[i as int].0@ == table@
                && self.entries@[i as int].1@ == key@,
            r is None ==> forall|j: int|
                0 <= j < self.entries@.len() ==> !((#[trigger] self.entries@[j]).0@ == table@
                    && self.entries@[j].1@ == key@),
    {
        let n = self.entries.len();
        let mut i: usize = 0;
        while i < n
            invariant
                0 <= i <= n,
                n == self.entries@.len(),
                forall|j: int|
                    0 <= j < i ==> !((#[trigger] self.entries@[j]).0@ == table@
                        && self.entries@[j].1@ == key@),
            decreases n - i,
        {
            let e = &self.entries[i];
            if str_eq(e.0.as_str(), table) && str_eq(e.1.as_str(), key) {
                return Some(i);
            }
            i += 1;
        }
        None
    }
}

impl Storage for MemTable {
    closed spec fn model(&self) -> Map<(Seq<char>, Seq<char>), ValueModel> {
        entries_model(self.entries@)
    }

    closed spec fn may_fail(&self) -> bool {
        false
    }

    closed spec fn inv(&self) -> bool {
        distinct_entries(self.entries@)
    }

    fn get(&self, table: &str, key: &str) -> (r: Result<Option<Value>, KvError>) {
        match self.find_index(table, key) {
            Some(i) => {
                proof {
                    lemma_model_lookup(self.entries@, i as int);
                }
                Ok(Some(self.entries[i].2.dup()))
            },
            None => {
                proof {
                    lemma_model_domain(self.entries@, table@, key@);
                }
                Ok(None)
            },
        }
    }

    fn set(&mut self, table: &str, key: &str, value: Value) -> (r: Result<Option<Value>, KvError>) {
        let ghost m0 = self.model();
        let prev = match self.find_index(table, key) {
            Some(i) => {
                proof {
                    lemma_model_lookup(self.entries@, i as int);
                    lemma_model_remove_at(self.entries@, i as int);
                }
                let (_t, _k, v) = self.entries.remove(i);
                proof {
                    assert(distinct_entries(self.entries@)) by {
                        assert(forall|x: int|
                            0 <= x < self.entries@.len() ==> #[trigger] self.entries@[x]
                                == old(self).entries@.remove(i as int)[x]);
                    }
                    lemma_model_domain(self.entries@, table@, key@);
                }
                Some(v)
            },
            None => {
                proof {
                    lemma_model_domain(self.entries@, table@, key@);
                }
                None
            },
        };
        proof {
            assert(forall|j: int|
                0 <= j < self.entries@.len() ==> !((#[trigger] self.entries@[j]).0@ == table@
                    && self.entries@[j].1@ == key@)) by {
                lemma_model_domain(self.entries@, table@, key@);
            }
        }
        let ghost before = self.entries@;
        self.entries.push((table.to_owned(), key.to_owned(), value));
        proof {
            assert(self.entries@.drop_last() =~= before);
            assert(distinct_entries(self.entries@));
            assert(self.model() == entries_model(before).insert((table@, key@), value@));
            if prev is Some {
                assert(entries_model(before) =~= m0.remove((table@, key@)));
                assert(entries_model(before).insert((table@, key@), value@) =~= m0.insert(
                    (table@, key@),
                    value@,
                ));
            }
        }
        Ok(prev)
    }

    fn contains(&self, table: &str, key: &str) -> (r: Result<bool, KvError>) {
        proof {
            lemma_model_domain(self.entries@, table@, key@);
        }
        match self.find_index(table, key) {
            Some(_) => Ok(true),
            None => Ok(false),
        }
    }

    fn del(&mut self, table: &str, key: &str) -> (r: Result<Option<Value>, KvError>) {
        match self.find_index(table, key) {
            Some(i) => {
                proof {
                    lemma_model_lookup(self.entries@, i as int);
                    lemma_model_remove_at(self.entries@, i as int);
                }
                let (_t, _k, v) = self.entries.remove(i);
                proof {
                    assert(distinct_entries(self.entries@)) by {
                        assert(forall|x: int|
                            0 <= x < self.entries@.len() ==> #[trigger] self.entries@[x]
                                == old(self).entries@.remove(i as int)[x]);
                    }
                }
                Ok(Some(v))
            },
            None => {
                proof {
                    lemma_model_domain(self.entries@, table@, key@);
                    assert(self.model().remove((table@, key@)) =~= self.model());
                }
                Ok(None)
            },
        }
    }

    fn get_all(&self, table: &str) -> (r: Result<Vec<Kvpair>, KvError>) {
        let n = self.entries.len();
        let mut acc: Vec<Kvpair> = Vec::new();
        let mut i: usize = 0;
        while i < n
            invariant
                0 <= i <= n,
                n == self.entries@.len(),
                distinct_entries(self.entries@),
                self.inv(),
                forall|x: int|
                    0 <= x < acc@.len() ==> exists|j: int|
                        0 <= j < i && (#[trigger] self.entries@[j]).0@ == table@
                            && (#[trigger] acc@[x])@.key == self.entries@[j].1@ && acc@[x]@.value
                            == self.entries@[j].2@,
                forall|j: int|
                    0 <= j < i && (#[trigger] self.entries@[j]).0@ == table@ ==> exists|x: int|
                        0 <= x < acc@.len() && (#[trigger] acc@[x])@.key == self.entries@[j].1@,
                forall|x: int, y: int| 0 <= x < y < acc@.len() ==> acc@[x]@.key != acc@[y]@.key,
            decreases n - i,
        {
            let e = &self.entries[i];
            if str_eq(e.0.as_str(), table) {
                proof {
                    assert forall|x: int| 0 <= x < acc@.len() implies acc@[x]@.key
                        != self.entries@[i as int].1@ by {
                        let j = choose|j: int|
                            0 <= j < i && (#[trigger] self.entries@[j]).0@ == table@ && (
                            #[trigger] acc@[x])@.key == self.entries@[j].1@ && acc@[x]@.value
                                == self.entries@[j].2@;
                        assert(!(self.entries@[j].0@ == self.entries@[i as int].0@
                            && self.entries@[j].1@ == self.entries@[i as int].1@));
                    }
                }
                let ghost acc0 = acc@;
                acc.push(Kvpair::new(e.1.clone(), e.2.dup()));
                proof {
                    assert forall|x: int| 0 <= x < acc@.len() implies exists|j: int|
                        0 <= j < i + 1 && (#[trigger] self.entries@[j]).0@ == table@ && (
                        #[trigger] acc@[x])@.key == self.entries@[j].1@ && acc@[x]@.value
                            == self.entries@[j].2@ by {
                        if x < acc0.len() {
                            assert(acc@[x] == acc0[x]);
                            let j = choose|j: int|
                                0 <= j < i && (#[trigger] self.entries@[j]).0@ == table@ && (
                                #[trigger] acc0[x])@.key == self.entries@[j].1@ && acc0[x]@.value
                                    == self.entries@[j].2@;
                            assert(0 <= j < i + 1 && (#[trigger] self.entries@[j]).0@ == table@
                                && (#[trigger] acc@[x])@.key == self.entries@[j].1@
                                && acc@[x]@.value == self.entries@[j].2@);
                        } else {
                            let j = i as int;
                            assert(0 <= j < i + 1 && (#[trigger] self.entries@[j]).0@ == table@
                                && (#[trigger] acc@[x])@.key == self.entries@[j].1@
                                && acc@[x]@.value == self.entries@[j].2@);
                        }
                    }
                    assert forall|j: int|
                        0 <= j < i + 1 && (#[trigger] self.entries@[j]).0@ == table@ implies exists|
                        x: int,
                    |
                        0 <= x < acc@.len() && (#[trigger] acc@[x])@.key
                            == self.entries@[j].1@ by {
                        if j < i {
                            let x = choose|x: int|
                                0 <= x < acc0.len() && (#[trigger] acc0[x])@.key
                                    == self.entries@[j].1@;
                            assert(acc@[x] == acc0[x]);
                            assert(0 <= x < acc@.len() && (#[trigger] acc@[x])@.key
                                == self.entries@[j].1@);
                        } else {
                            let x = acc@.len() - 1;
                            assert(0 <= x < acc@.len() && (#[trigger] acc@[x])@.key
                                == self.entries@[j].1@);
                        }
                    }
                }
            } else {
                proof {
                    assert forall|j: int|
                        0 <= j < i + 1 && (#[trigger] self.entries@[j]).0@ == table@ implies exists|
                        x: int,
                    |
                        0 <= x < acc@.len() && (#[trigger] acc@[x])@.key
                            == self.entries@[j].1@ by {
                        assert(j < i);
                    }
                }
            }
            i += 1;
        }
        proof {
            let m = self.model();
            let ps = kvpair_views(acc@);
            assert forall|x: int| 0 <= x < ps.len() implies m.dom().contains(
                (table@, (#[trigger] ps[x]).key),
            ) && ps[x].value == m[(table@, ps[x].key)] by {
                let j = choose|j: int|
                    0 <= j < n && (#[trigger] self.entries@[j]).0@ == table@ && acc@[x]@.key
                        == self.entries@[j].1@ && acc@[x]@.value == self.entries@[j].2@;
                lemma_model_lookup(self.entries@, j);
            }
            assert forall|k: Seq<char>| m.dom().contains((table@, k)) implies exists|x: int|
                0 <= x < ps.len() && (#[trigger] ps[x]).key == k by {
                lemma_model_domain(self.entries@, table@, k);
                let j = choose|j: int|
                    0 <= j < self.entries@.len() && (#[trigger] self.entries@[j]).0@ == table@
                        && self.entries@[j].1@ == k;
                let x = choose|x: int|
                    0 <= x < acc@.len() && (#[trigger] acc@[x])@.key == self.entries@[j].1@;
                assert((#[trigger] ps[x]).key == k);
            }
            assert(table_listing(m, table@, ps));
        }
        Ok(acc)
    }

    fn get_iter(&self, table: &str) -> (r: Result<Vec<Kvpair>, KvError>) {
        self.get_all(table)
    }
}

} // verus!
