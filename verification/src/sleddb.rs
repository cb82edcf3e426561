//! The durable storage backend: a sled tree behind a narrow byte-oriented
//! contract. Each stored entry maps the backend key of a (table, key) pair to
//! the wire form of its value; everything around the calls into sled —
//! key construction, value encoding and decoding, table scans — is verified
//! against `sled_contents`, the tree's abstract byte contents.
use vstd::prelude::*;

use crate::storage::{
    get_full_key, get_table_prefix, is_prefix_of, ivec_to_key, lemma_backend_key_injective,
    spec_backend_key, spec_table_prefix, table_listing, Storage,
};
use crate::types::{kvpair_views, KvError, Kvpair, Value, ValueModel};
use crate::wire::{
    deserialize_value, parse_value_s, ser_value, serialize_value, wf_str, wf_value,
};

verus! {

#[verifier::external_type_specification]
#[verifier::external_body]
pub struct ExSledDb(sled::Db);

#[verifier::external_type_specification]
#[verifier::external_body]
pub struct ExSledError(sled::Error);

/// What the sled tree holds: its contents as a map from key bytes to value
/// bytes.
pub uninterp spec fn sled_contents(db: sled::Db) -> Map<Seq<u8>, Seq<u8>>;

/// Relies on sled::open: opens (or creates) the database at the given path.
/// What the tree holds afterwards depends on the disk, so nothing is promised
/// of its contents.
#[verifier::external_body]
fn sled_open(path: &str) -> (r: Result<sled::Db, sled::Error>) {
    sled::open(path)
}

/// Relies on the Display implementation of sled::Error for the failure
/// detail.
#[verifier::external_body]
fn sled_error_string(e: &sled::Error) -> (r: String) {
    format!("{}", e)
}

/// Relies on sled::Tree::get: returns the value bytes stored under the key,
/// if any.
#[verifier::external_body]
fn sled_get(db: &sled::Db, key: &Vec<u8>) -> (r: Result<Option<Vec<u8>>, sled::Error>)
    ensures
        r is Ok ==> (r->Ok_0 is Some <==> sled_contents(*db).dom().contains(key@)),
        r is Ok && r->Ok_0 is Some ==> r->Ok_0->Some_0@ == sled_contents(*db)[key@],
{
    match db.get(key.as_slice()) {
        Ok(Some(v)) => Ok(Some(v.as_ref().to_vec())),
        Ok(None) => Ok(None),
        Err(e) => Err(e),
    }
}

/// Relies on sled::Tree::insert: maps the key to the new value bytes and
/// returns the bytes previously stored under it, if any.
#[verifier::external_body]
fn sled_insert(db: &mut sled::Db, key: &Vec<u8>, val: Vec<u8>) -> (r: Result<
    Option<Vec<u8>>,
    sled::Error,
>)
    ensures
        r is Ok ==> sled_contents(*final(db)) == sled_contents(*old(db)).insert(key@, val@),
        r is Ok ==> (r->Ok_0 is Some <==> sled_contents(*old(db)).dom().contains(key@)),
        r is Ok && r->Ok_0 is Some ==> r->Ok_0->Some_0@ == sled_contents(*old(db))[key@],
{
    match db.insert(key.as_slice(), val) {
        Ok(Some(v)) => Ok(Some(v.as_ref().to_vec())),
        Ok(None) => Ok(None),
        Err(e) => Err(e),
    }
}

/// Relies on sled::Tree::remove: removes the key and returns the bytes
/// previously stored under it, if any.
#[verifier::external_body]
fn sled_remove(db: &mut sled::Db, key: &Vec<u8>) -> (r: Result<Option<Vec<u8>>, sled::Error>)
    ensures
        r is Ok ==> sled_contents(*final(db)) == sled_contents(*old(db)).remove(key@),
        r is Ok ==> (r->Ok_0 is Some <==> sled_contents(*old(db)).dom().contains(key@)),
        r is Ok && r->Ok_0 is Some ==> r->Ok_0->Some_0@ == sled_contents(*old(db))[key@],
{
    match db.remove(key.as_slice()) {
        Ok(Some(v)) => Ok(Some(v.as_ref().to_vec())),
        Ok(None) => Ok(None),
        Err(e) => Err(e),
    }
}

/// Relies on sled::Tree::scan_prefix: yields exactly the entries whose key
/// starts with the prefix, each key once.
#[verifier::external_body]
fn sled_scan(db: &sled::Db, prefix: &Vec<u8>) -> (r: Result<Vec<(Vec<u8>, Vec<u8>)>, sled::Error>)
    ensures
        r is Ok ==> forall|i: int|
            0 <= i < r->Ok_0@.len() ==> sled_contents(*db).dom().contains(
                (#[trigger] r->Ok_0@[i]).0@,
            ) && r->Ok_0@[i].1@ == sled_contents(*db)[r->Ok_0@[i].0@] && is_prefix_of(
                prefix@,
                r->Ok_0@[i].0@,
            ),
        r is Ok ==> forall|kb: Seq<u8>|
            #[trigger] sled_contents(*db).dom().contains(kb) && is_prefix_of(prefix@, kb)
                ==> exists|i: int| 0 <= i < r->Ok_0@.len() && (#[trigger] r->Ok_0@[i]).0@ == kb,
        r is Ok ==> forall|i: int, j: int|
            0 <= i < j < r->Ok_0@.len() ==> (#[trigger] r->Ok_0@[i]).0@ != (
            #[trigger] r->Ok_0@[j]).0@,
{
    let mut out = Vec::new();
    for item in db.scan_prefix(prefix.as_slice()) {
        match item {
            Ok((k, v)) => out.push((k.as_ref().to_vec(), v.as_ref().to_vec())),
            Err(e) => {
                return Err(e);
            },
        }
    }
    Ok(out)
}

/// Whether stored bytes form exactly one value.
pub open spec fn parses_fully(b: Seq<u8>) -> bool {
    match parse_value_s(b) {
        Option::Some(p) => p.1 == b.len(),
        Option::None => false,
    }
}

/// The value that stored bytes form.
pub open spec fn parsed_value(b: Seq<u8>) -> ValueModel {
    parse_value_s(b)->Some_0.0
}

/// The sled-backed storage: table-scoped operations over one tree.
pub struct SledDb {
    db: sled::Db,
}

impl SledDb {
    /// Opens (or creates) the database at the given path.
    pub fn new(path: &str) -> (r: Result<SledDb, KvError>)
        ensures
            r matches Ok(s) ==> s.inv(),
            r matches Err(e) ==> e is BackendError,
    {
        match sled_open(path) {
            Ok(db) => Ok(SledDb { db }),
            Err(e) => Err(KvError::BackendError(sled_error_string(&e))),
        }
    }

    /// The tree's abstract byte contents.
    pub closed spec fn contents(&self) -> Map<Seq<u8>, Seq<u8>> {
        sled_contents(self.db)
    }
}

impl Storage for SledDb {
    closed spec fn model(&self) -> Map<(Seq<char>, Seq<char>), ValueModel> {
        Map::new(
            |tk: (Seq<char>, Seq<char>)|
                wf_str(tk.0) && wf_str(tk.1) && sled_contents(self.db).dom().contains(
                    spec_backend_key(tk.0, tk.1),
                ) && parses_fully(sled_contents(self.db)[spec_backend_key(tk.0, tk.1)]),
            |tk: (Seq<char>, Seq<char>)|
                parsed_value(sled_contents(self.db)[spec_backend_key(tk.0, tk.1)]),
        )
    }

    closed spec fn may_fail(&self) -> bool {
        true
    }

    closed spec fn inv(&self) -> bool {
        true
    }

    fn get(&self, table: &str, key: &str) -> (r: Result<Option<Value>, KvError>) {
        let fk = get_full_key(table, key);
        match sled_get(&self.db, &fk) {
            Err(e) => Err(KvError::BackendError(sled_error_string(&e))),
            Ok(None) => Ok(None),
            Ok(Some(bytes)) => {
                match deserialize_value(&bytes) {
                    Ok(v) => Ok(Some(v)),
                    Err(_) => Err(KvError::SerializationError),
                }
            },
        }
    }

    fn set(&mut self, table: &str, key: &str, value: Value) -> (r: Result<Option<Value>, KvError>) {
        let ghost m0 = self.model();
        let fk = get_full_key(table, key);
        let data = serialize_value(&value);
        let ghost dv = data@;
        match sled_insert(&mut self.db, &fk, data) {
            Err(e) => Err(KvError::BackendError(sled_error_string(&e))),
            Ok(prev_bytes) => {
                proof {
                    let kk = (table@, key@);
                    crate::wire::lemma_value_roundtrip(value@, Seq::empty());
                    assert(ser_value(value@) + Seq::<u8>::empty() =~= ser_value(value@));
                    assert(parses_fully(dv));
                    assert forall|tk: (Seq<char>, Seq<char>)| true implies (
                    #[trigger] self.model().dom().contains(tk) == m0.insert(
                        kk,
                        value@,
                    ).dom().contains(tk)) && (self.model().dom().contains(tk)
                        ==> self.model()[tk] == m0.insert(kk, value@)[tk]) by {
                        if tk == kk {
                        } else if wf_str(tk.0) && wf_str(tk.1) {
                            if spec_backend_key(tk.0, tk.1) == spec_backend_key(table@, key@) {
                                lemma_backend_key_injective(tk.0, tk.1, table@, key@);
                            }
                        }
                    }
                    assert(self.model() =~= m0.insert(kk, value@));
                }
                let res: Option<Result<Value, KvError>> = match prev_bytes {
                    None => None,
                    Some(b) => Some(
                        match deserialize_value(&b) {
                            Ok(v) => Ok(v),
                            Err(_) => Err(KvError::SerializationError),
                        },
                    ),
                };
                crate::storage::flip(res)
            },
        }
    }

    fn contains(&self, table: &str, key: &str) -> (r: Result<bool, KvError>) {
        let fk = get_full_key(table, key);
        match sled_get(&self.db, &fk) {
            Err(e) => Err(KvError::BackendError(sled_error_string(&e))),
            Ok(None) => Ok(false),
            Ok(Some(bytes)) => {
                match deserialize_value(&bytes) {
                    Ok(_) => Ok(true),
                    Err(_) => Ok(false),
                }
            },
        }
    }

    fn del(&mut self, table: &str, key: &str) -> (r: Result<Option<Value>, KvError>) {
        let ghost m0 = self.model();
        let fk = get_full_key(table, key);
        match sled_remove(&mut self.db, &fk) {
            Err(e) => Err(KvError::BackendError(sled_error_string(&e))),
            Ok(prev_bytes) => {
                proof {
                    let kk = (table@, key@);
                    assert forall|tk: (Seq<char>, Seq<char>)| true implies (
                    #[trigger] self.model().dom().contains(tk) == m0.remove(kk).dom().contains(tk))
                        && (self.model().dom().contains(tk) ==> self.model()[tk] == m0.remove(kk)[
                    tk]) by {
                        if tk == kk {
                        } else if wf_str(tk.0) && wf_str(tk.1) {
                            if spec_backend_key(tk.0, tk.1) == spec_backend_key(table@, key@) {
                                lemma_backend_key_injective(tk.0, tk.1, table@, key@);
                            }
                        }
                    }
                    assert(self.model() =~= m0.remove(kk));
                }
                let res: Option<Result<Value, KvError>> = match prev_bytes {
                    None => None,
                    Some(b) => Some(
                        match deserialize_value(&b) {
                            Ok(v) => Ok(v),
                            Err(_) => Err(KvError::SerializationError),
                        },
                    ),
                };
                crate::storage::flip(res)
            },
        }
    }

    fn get_all(&self, table: &str) -> (r: Result<Vec<Kvpair>, KvError>) {
        let prefix = get_table_prefix(table);
        let entries = match sled_scan(&self.db, &prefix) {
            Ok(es) => es,
            Err(e) => {
                return Err(KvError::BackendError(sled_error_string(&e)));
            },
        };
        let n = entries.len();
        let mut acc: Vec<Kvpair> = Vec::new();
        let mut i: usize = 0;
        while i < n
            invariant
                0 <= i <= n,
                n == entries@.len(),
                prefix@ == spec_table_prefix(table@),
                wf_str(table@),
                forall|x: int|
                    0 <= x < entries@.len() ==> sled_contents(self.db).dom().contains(
                        (#[trigger] entries@[x]).0@,
                    ) && entries@[x].1@ == sled_contents(self.db)[entries@[x].0@] && is_prefix_of(
                        prefix@,
                        entries@[x].0@,
                    ),
                forall|kb: Seq<u8>|
                    #[trigger] sled_contents(self.db).dom().contains(kb) && is_prefix_of(
                        prefix@,
                        kb,
                    ) ==> exists|x: int| 0 <= x < entries@.len() && (#[trigger] entries@[x]).0@
                        == kb,
                forall|x: int, y: int|
                    0 <= x < y < entries@.len() ==> (#[trigger] entries@[x]).0@ != (
                    #[trigger] entries@[y]).0@,
                forall|x: int|
                    0 <= x < acc@.len() ==> exists|j: int|
                        0 <= j < i && (#[trigger] entries@[j]).0@ == spec_backend_key(
                            table@,
                            (#[trigger] acc@[x])@.key,
                        ) && parses_fully(entries@[j].1@) && acc@[x]@.value == parsed_value(
                            entries@[j].1@,
                        ) && wf_str(acc@[x]@.key),
                forall|j: int, k: Seq<char>|
                    #![trigger entries@[j], spec_backend_key(table@, k)]
                    0 <= j < i && entries@[j].0@ == spec_backend_key(table@, k) && parses_fully(
                        entries@[j].1@,
                    ) ==> exists|x: int| 0 <= x < acc@.len() && (#[trigger] acc@[x])@.key == k,
                forall|x: int, y: int| 0 <= x < y < acc@.len() ==> acc@[x]@.key != acc@[y]@.key,
            decreases n - i,
        {
            let kb = &entries[i].0;
            let vb = &entries[i].1;
            let ghost acc0 = acc@;
            match ivec_to_key(kb) {
                Some(ks) => {
                    let ghost ksv = ks@;
                    match deserialize_value(vb) {
                        Ok(v) => {
                            proof {
                                assert(kb@ == spec_backend_key(table@, ksv));
                                assert forall|x: int| 0 <= x < acc@.len() implies acc@[x]@.key
                                    != ksv by {
                                    let j = choose|j: int|
                                        0 <= j < i && (#[trigger] entries@[j]).0@
                                            == spec_backend_key(table@, (#[trigger] acc@[x])@.key)
                                            && parses_fully(entries@[j].1@) && acc@[x]@.value
                                            == parsed_value(entries@[j].1@) && wf_str(
                                            acc@[x]@.key,
                                        );
                                    if acc@[x]@.key == ksv {
                                        assert(entries@[j].0@ == entries@[i as int].0@);
                                    }
                                }
                            }
                            acc.push(Kvpair::new(ks, v));
                            proof {
                                assert forall|x: int| 0 <= x < acc@.len() implies exists|j: int|
                                    0 <= j < i + 1 && (#[trigger] entries@[j]).0@
                                        == spec_backend_key(table@, (#[trigger] acc@[x])@.key)
                                        && parses_fully(entries@[j].1@) && acc@[x]@.value
                                        == parsed_value(entries@[j].1@) && wf_str(
                                        acc@[x]@.key,
                                    ) by {
                                    if x < acc0.len() {
                                        assert(acc@[x] == acc0[x]);
                                        let j = choose|j: int|
                                            0 <= j < i && (#[trigger] entries@[j]).0@
                                                == spec_backend_key(
                                                table@,
                                                (#[trigger] acc0[x])@.key,
                                            ) && parses_fully(entries@[j].1@) && acc0[x]@.value
                                                == parsed_value(entries@[j].1@) && wf_str(
                                                acc0[x]@.key,
                                            );
                                        assert(0 <= j < i + 1 && (#[trigger] entries@[j]).0@
                                            == spec_backend_key(table@, (#[trigger] acc@[x])@.key)
                                            && parses_fully(entries@[j].1@) && acc@[x]@.value
                                            == parsed_value(entries@[j].1@) && wf_str(
                                            acc@[x]@.key,
                                        ));
                                    } else {
                                        let j = i as int;
                                        assert(acc@[x]@.key == ksv);
                                        assert(0 <= j < i + 1 && (#[trigger] entries@[j]).0@
                                            == spec_backend_key(table@, (#[trigger] acc@[x])@.key)
                                            && parses_fully(entries@[j].1@) && acc@[x]@.value
                                            == parsed_value(entries@[j].1@) && wf_str(
                                            acc@[x]@.key,
                                        ));
                                    }
                                }
                            }
                        },
                        Err(_) => {},
                    }
                },
                None => {},
            }
            proof {
                assert forall|j: int, k: Seq<char>|
                    #![trigger entries@[j], spec_backend_key(table@, k)]
                    0 <= j < i + 1 && entries@[j].0@ == spec_backend_key(table@, k)
                        && parses_fully(entries@[j].1@) implies exists|x: int|
                    0 <= x < acc@.len() && (#[trigger] acc@[x])@.key == k by {
                    if j < i {
                        let x = choose|x: int|
                            0 <= x < acc0.len() && (#[trigger] acc0[x])@.key == k;
                        assert(acc@[x] == acc0[x]);
                        assert(0 <= x < acc@.len() && (#[trigger] acc@[x])@.key == k);
                    } else {
                        assert(entries@[i as int].0@ == spec_backend_key(table@, k));
                        let x = acc@.len() - 1;
                        assert(acc@[x]@.key == k) by {
                            lemma_backend_key_injective(table@, acc@[x]@.key, table@, k);
                        }
                        assert(0 <= x < acc@.len() && (#[trigger] acc@[x])@.key == k);
                    }
                }
            }
            i += 1;
        }
        proof {
            let m = self.model();
            let ps = kvpair_views(acc@);
            assert forall|x: int| 0 <= x < ps.len() implies m.dom().contains(
                (table@, (#[trigger] ps[x]).key),
            ) && ps[x].value == m[(table@, ps[x].key)] by {
                let j = choose|j: int|
                    0 <= j < n && (#[trigger] entries@[j]).0@ == spec_backend_key(
                        table@,
                        (#[trigger] acc@[x])@.key,
                    ) && parses_fully(entries@[j].1@) && acc@[x]@.value == parsed_value(
                        entries@[j].1@,
                    ) && wf_str(acc@[x]@.key);
                assert(sled_contents(self.db).dom().contains(spec_backend_key(table@, ps[x].key)));
            }
            assert forall|k: Seq<char>| m.dom().contains((table@, k)) implies exists|x: int|
                0 <= x < ps.len() && (#[trigger] ps[x]).key == k by {
                let kb = spec_backend_key(table@, k);
                assert(is_prefix_of(spec_table_prefix(table@), kb)) by {
                    crate::storage::lemma_prefix_iff_same_table(table@, k, table@);
                }
                assert(sled_contents(self.db).dom().contains(kb));
                let j = choose|j: int| 0 <= j < entries@.len() && (#[trigger] entries@[j]).0@ == kb;
                let x = choose|x: int| 0 <= x < acc@.len() && (#[trigger] acc@[x])@.key == k;
                assert((#[trigger] ps[x]).key == k);
            }
            assert(table_listing(m, table@, ps));
        }
        Ok(acc)
    }

    fn get_iter(&self, table: &str) -> (r: Result<Vec<Kvpair>, KvError>) {
        self.get_all(table)
    }
}

} // verus!
