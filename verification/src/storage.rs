//! The storage abstraction: table-scoped operations over a byte-oriented
//! backend, and the encoding of a (table, key) pair into the backend's flat
//! key space.
//!
//! A backend key is the byte length of the table's UTF-8 form, then that
//! form, then the key's UTF-8 form. The length prefix makes the encoding
//! injective — two distinct (table, key) pairs never alias, whatever
//! characters the names hold — and makes a table's prefix self-delimiting, so
//! a scan of one table can never see a table whose name extends another's.
use vstd::bytes::*;
use vstd::prelude::*;
use vstd::string::StrSliceExecFns;
use vstd::utf8::{decode_utf8, encode_utf8, valid_utf8};

use crate::types::{KvError, Kvpair, KvpairModel, Value, ValueModel};
use crate::wire::wf_str;

verus! {

broadcast use vstd::utf8::group_utf8_lib;

/// The backend key of a (table, key) pair.
pub open spec fn spec_backend_key(t: Seq<char>, k: Seq<char>) -> Seq<u8> {
    spec_u64_to_le_bytes(encode_utf8(t).len() as u64) + encode_utf8(t) + encode_utf8(k)
}

/// The namespace prefix of a table: every backend key of the table starts
/// with it, and no other backend key does.
pub open spec fn spec_table_prefix(t: Seq<char>) -> Seq<u8> {
    spec_u64_to_le_bytes(encode_utf8(t).len() as u64) + encode_utf8(t)
}

pub open spec fn is_prefix_of(p: Seq<u8>, s: Seq<u8>) -> bool {
    p.len() <= s.len() && s.take(p.len() as int) == p
}

/// Backend keys never alias: distinct (table, key) pairs have distinct
/// backend keys.
pub proof fn lemma_backend_key_injective(t1: Seq<char>, k1: Seq<char>, t2: Seq<char>, k2: Seq<char>)
    requires
        wf_str(t1),
        wf_str(t2),
        spec_backend_key(t1, k1) == spec_backend_key(t2, k2),
    ensures
        t1 == t2,
        k1 == k2,
{
    lemma_auto_spec_u64_to_from_le_bytes();
    let b1 = spec_backend_key(t1, k1);
    let b2 = spec_backend_key(t2, k2);
    let u1 = encode_utf8(t1);
    let u2 = encode_utf8(t2);
    assert(b1.take(8) =~= spec_u64_to_le_bytes(u1.len() as u64));
    assert(b2.take(8) =~= spec_u64_to_le_bytes(u2.len() as u64));
    assert(u1.len() as u64 == u2.len() as u64);
    assert(u1.len() == u2.len());
    assert(u1 =~= b1.subrange(8, 8 + u1.len() as int));
    assert(u2 =~= b2.subrange(8, 8 + u2.len() as int));
    assert(decode_utf8(u1) == t1);
    assert(decode_utf8(u2) == t2);
    assert(encode_utf8(k1) =~= b1.skip(8 + u1.len() as int));
    assert(encode_utf8(k2) =~= b2.skip(8 + u2.len() as int));
    assert(decode_utf8(encode_utf8(k1)) == k1);
    assert(decode_utf8(encode_utf8(k2)) == k2);
}

/// A backend key falls under a table's prefix exactly when it belongs to that
/// table.
pub proof fn lemma_prefix_iff_same_table(t1: Seq<char>, k1: Seq<char>, t2: Seq<char>)
    requires
        wf_str(t1),
        wf_str(t2),
    ensures
        is_prefix_of(spec_table_prefix(t2), spec_backend_key(t1, k1)) <==> t1 == t2,
{
    lemma_auto_spec_u64_to_from_le_bytes();
    let b = spec_backend_key(t1, k1);
    let p = spec_table_prefix(t2);
    let u1 = encode_utf8(t1);
    let u2 = encode_utf8(t2);
    if t1 == t2 {
        assert(p.len() <= b.len());
        assert(b.take(p.len() as int) =~= p);
    }
    if is_prefix_of(p, b) {
        assert(b.take(8) =~= spec_u64_to_le_bytes(u1.len() as u64));
        assert(p.take(8) =~= spec_u64_to_le_bytes(u2.len() as u64));
        assert(b.take(p.len() as int).take(8) =~= b.take(8));
        assert(u1.len() as u64 == u2.len() as u64);
        assert(u1.len() == u2.len());
        assert(u1 =~= b.subrange(8, 8 + u1.len() as int));
        assert(u2 =~= p.subrange(8, 8 + u2.len() as int));
        assert(u2 =~= b.take(p.len() as int).subrange(8, 8 + u2.len() as int));
        assert(u1 =~= u2);
        assert(decode_utf8(u1) == t1);
        assert(decode_utf8(u2) == t2);
    }
}

/// Builds the backend key of a (table, key) pair.
pub fn get_full_key(table: &str, key: &str) -> (r: Vec<u8>)
    ensures
        r@ == spec_backend_key(table@, key@),
        wf_str(table@),
        wf_str(key@),
{
    let mut tb = table.as_bytes_vec();
    let n = tb.len();
    let mut out = u64_to_le_bytes(n as u64);
    out.append(&mut tb);
    let mut kb = key.as_bytes_vec();
    let m: usize = kb.len();
    out.append(&mut kb);
    proof {
        assert(encode_utf8(key@).len() == m);
        assert(out@ =~= spec_backend_key(table@, key@));
    }
    out
}

/// Builds the namespace prefix of a table.
pub fn get_table_prefix(table: &str) -> (r: Vec<u8>)
    ensures
        r@ == spec_table_prefix(table@),
        wf_str(table@),
{
    let mut tb = table.as_bytes_vec();
    let n = tb.len();
    let mut out = u64_to_le_bytes(n as u64);
    out.append(&mut tb);
    proof {
        assert(out@ =~= spec_table_prefix(table@));
    }
    out
}

/// Recovers the key from a backend key: whenever the bytes are the backend
/// key of some (table, key) pair, that key comes back; and whatever comes
/// back, the bytes are the backend key of it under any table whose prefix
/// they carry.
pub fn ivec_to_key(ivec: &Vec<u8>) -> (r: Option<String>)
    ensures
        forall|t: Seq<char>, k: Seq<char>|
            wf_str(t) && ivec@ == spec_backend_key(t, k) ==> (r matches Some(s) && s@ == k),
        forall|t: Seq<char>|
            wf_str(t) && is_prefix_of(spec_table_prefix(t), ivec@) && r is Some ==> ivec@
                == spec_backend_key(t, r->Some_0@),
        r matches Some(s) ==> wf_str(s@),
{
    proof {
        lemma_auto_spec_u64_to_from_le_bytes();
    }
    let total = ivec.len();
    if total < 8 {
        proof {
            assert forall|t: Seq<char>, k: Seq<char>|
                wf_str(t) && ivec@ == spec_backend_key(t, k) implies false by {
                assert(ivec@.len() >= 8);
            }
        }
        return None;
    }
    let s8 = vstd::slice::slice_subrange(ivec.as_slice(), 0, 8);
    let n64 = u64_from_le_bytes(s8);
    proof {
        assert(s8@ =~= ivec@.take(8));
    }
    if n64 > (total - 8) as u64 {
        proof {
            assert forall|t: Seq<char>, k: Seq<char>|
                wf_str(t) && ivec@ == spec_backend_key(t, k) implies false by {
                assert(ivec@.take(8) =~= spec_u64_to_le_bytes(encode_utf8(t).len() as u64));
                assert(ivec@.len() == 8 + encode_utf8(t).len() + encode_utf8(k).len());
            }
        }
        return None;
    }
    let n = n64 as usize;
    let rest = vstd::slice::slice_to_vec(
        vstd::slice::slice_subrange(ivec.as_slice(), 8 + n, total),
    );
    proof {
        assert(rest@ =~= ivec@.skip(8 + n as int));
    }
    match String::from_utf8(rest) {
        Ok(s) => {
            proof {
                assert(wf_str(s@)) by {
                    assert(encode_utf8(s@) == encode_utf8(decode_utf8(ivec@.skip(8 + n as int))));
                    assert(encode_utf8(s@) =~= ivec@.skip(8 + n as int));
                    assert(ivec@.len() <= usize::MAX);
                }
                assert forall|t: Seq<char>, k: Seq<char>|
                    wf_str(t) && ivec@ == spec_backend_key(t, k) implies s@ == k by {
                    assert(ivec@.take(8) =~= spec_u64_to_le_bytes(encode_utf8(t).len() as u64));
                    assert(n == encode_utf8(t).len());
                    assert(ivec@.skip(8 + n as int) =~= encode_utf8(k));
                    assert(decode_utf8(encode_utf8(k)) == k);
                }
                assert forall|t: Seq<char>|
                    wf_str(t) && is_prefix_of(spec_table_prefix(t), ivec@) implies ivec@
                    == spec_backend_key(t, s@) by {
                    let p = spec_table_prefix(t);
                    assert(ivec@.take(p.len() as int).take(8) =~= ivec@.take(8));
                    assert(p.take(8) =~= spec_u64_to_le_bytes(encode_utf8(t).len() as u64));
                    assert(n == encode_utf8(t).len());
                    assert(encode_utf8(t) =~= p.subrange(8, 8 + n as int));
                    assert(encode_utf8(t) =~= ivec@.subrange(8, 8 + n as int));
                    assert(encode_utf8(s@) == encode_utf8(decode_utf8(rest@)));
                    assert(encode_utf8(s@) =~= ivec@.skip(8 + n as int));
                    assert(ivec@ =~= spec_backend_key(t, s@));
                }
            }
            Some(s)
        },
        Err(_) => {
            proof {
                assert forall|t: Seq<char>, k: Seq<char>|
                    wf_str(t) && ivec@ == spec_backend_key(t, k) implies false by {
                    assert(ivec@.take(8) =~= spec_u64_to_le_bytes(encode_utf8(t).len() as u64));
                    assert(n == encode_utf8(t).len());
                    assert(ivec@.skip(8 + n as int) =~= encode_utf8(k));
                }
            }
            None
        },
    }
}

/// String equality, stated over the views.
pub fn str_eq(a: &str, b: &str) -> (r: bool)
    ensures
        r == (a@ == b@),
{
    let ab = a.as_bytes();
    let bb = b.as_bytes();
    let n = ab.len();
    if n != bb.len() {
        proof {
            if a@ == b@ {
                assert(encode_utf8(a@).len() == encode_utf8(b@).len());
            }
        }
        return false;
    }
    let mut i: usize = 0;
    while i < n
        invariant
            0 <= i <= n,
            n == ab@.len() == bb@.len(),
            ab@ == encode_utf8(a@),
            bb@ == encode_utf8(b@),
            forall|j: int| 0 <= j < i ==> ab@[j] == bb@[j],
        decreases n - i,
    {
        let x = *vstd::slice::slice_index_get(ab, i);
        let y = *vstd::slice::slice_index_get(bb, i);
        if x != y {
            proof {
                if a@ == b@ {
                    assert(ab@[i as int] == bb@[i as int]);
                }
            }
            return false;
        }
        i += 1;
    }
    proof {
        assert(ab@ =~= bb@);
        assert(decode_utf8(encode_utf8(a@)) == a@);
        assert(decode_utf8(encode_utf8(b@)) == b@);
    }
    true
}

/// Turns an optional fallible value inside out: nothing stays nothing, a
/// success is kept, a failure is surfaced.
pub fn flip<T, E>(x: Option<Result<T, E>>) -> (r: Result<Option<T>, E>)
    ensures
        r == (match x {
            Option::None => Result::<Option<T>, E>::Ok(None),
            Option::Some(Result::Ok(t)) => Result::<Option<T>, E>::Ok(Some(t)),
            Option::Some(Result::Err(e)) => Result::<Option<T>, E>::Err(e),
        }),
{
    match x {
        Option::None => Ok(None),
        Option::Some(Result::Ok(t)) => Ok(Some(t)),
        Option::Some(Result::Err(e)) => Err(e),
    }
}

/// The listing of one table: the pairs are exactly the table's entries in the
/// model, each key once, in whatever order the backend provides.
pub open spec fn table_listing(
    m: Map<(Seq<char>, Seq<char>), ValueModel>,
    t: Seq<char>,
    ps: Seq<KvpairModel>,
) -> bool {
    &&& forall|i: int|
        0 <= i < ps.len() ==> m.dom().contains((t, (#[trigger] ps[i]).key)) && ps[i].value == m[
            (t, ps[i].key)
        ]
    &&& forall|k: Seq<char>|
        m.dom().contains((t, k)) ==> exists|i: int|
            0 <= i < ps.len() && (#[trigger] ps[i]).key == k
    &&& forall|i: int, j: int| 0 <= i < j < ps.len() ==> ps[i].key != ps[j].key
}

/// Table-scoped operations over a byte-oriented backend. `model` is the
/// abstract contents — a map from (table, key) to the stored value — and
/// `may_fail` says whether the backend can fail of itself; one that cannot
/// returns Ok from every operation.
pub trait Storage: Sized {
    spec fn model(&self) -> Map<(Seq<char>, Seq<char>), ValueModel>;

    spec fn may_fail(&self) -> bool;

    /// The implementation's own well-formedness; constructors establish it
    /// and every operation preserves it.
    spec fn inv(&self) -> bool;

    /// Returns the stored value, or nothing.
    fn get(&self, table: &str, key: &str) -> (r: Result<Option<Value>, KvError>)
        requires
            self.inv(),
        ensures
            !self.may_fail() ==> r is Ok,
            r matches Ok(v) ==> match v {
                Option::Some(val) => self.model().dom().contains((table@, key@)) && val@
                    == self.model()[(table@, key@)],
                Option::None => !self.model().dom().contains((table@, key@)),
            },
    ;

    /// Upserts; returns the previous value if one existed.
    fn set(&mut self, table: &str, key: &str, value: Value) -> (r: Result<Option<Value>, KvError>)
        requires
            old(self).inv(),
        ensures
            final(self).inv(),
            !old(self).may_fail() ==> r is Ok,
            final(self).may_fail() == old(self).may_fail(),
            r matches Ok(prev) ==> final(self).model() == old(self).model().insert(
                (table@, key@),
                value@,
            ) && (match prev {
                Option::Some(p) => old(self).model().dom().contains((table@, key@)) && p@ == old(
                    self,
                ).model()[(table@, key@)],
                Option::None => !old(self).model().dom().contains((table@, key@)),
            }),
    ;

    /// Existence check, without materializing the value.
    fn contains(&self, table: &str, key: &str) -> (r: Result<bool, KvError>)
        requires
            self.inv(),
        ensures
            !self.may_fail() ==> r is Ok,
            r matches Ok(b) ==> b == self.model().dom().contains((table@, key@)),
    ;

    /// Removes and returns the previous value; deleting an absent key is not
    /// an error.
    fn del(&mut self, table: &str, key: &str) -> (r: Result<Option<Value>, KvError>)
        requires
            old(self).inv(),
        ensures
            final(self).inv(),
            !old(self).may_fail() ==> r is Ok,
            final(self).may_fail() == old(self).may_fail(),
            r matches Ok(prev) ==> final(self).model() == old(self).model().remove((table@, key@))
                && (match prev {
                Option::Some(p) => old(self).model().dom().contains((table@, key@)) && p@ == old(
                    self,
                ).model()[(table@, key@)],
                Option::None => !old(self).model().dom().contains((table@, key@)),
            }),
    ;

    /// Eagerly collects every pair of the table.
    fn get_all(&self, table: &str) -> (r: Result<Vec<Kvpair>, KvError>)
        requires
            self.inv(),
        ensures
            !self.may_fail() ==> r is Ok,
            r matches Ok(ps) ==> table_listing(
                self.model(),
                table@,
                crate::types::kvpair_views(ps@),
            ),
    ;

    /// A fresh scan of the table, always restarting from its first element;
    /// the same pairs as [`Storage::get_all`].
    fn get_iter(&self, table: &str) -> (r: Result<Vec<Kvpair>, KvError>)
        requires
            self.inv(),
        ensures
            !self.may_fail() ==> r is Ok,
            r matches Ok(ps) ==> table_listing(
                self.model(),
                table@,
                crate::types::kvpair_views(ps@),
            ),
    ;
}

} // verus!
