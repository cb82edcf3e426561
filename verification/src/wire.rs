//! The wire encoding of requests and responses: a compact, tagged-field
//! binary format in which every variable-length field is length-prefixed and
//! every number is fixed-width little-endian.
//!
//! The format is specified by the `ser_*` spec functions; `parse_*_s` are the
//! matching specification-level parsers. The executable serializer and parser
//! are verified against them, and the `lemma_*_roundtrip` lemmas prove that
//! parsing inverts serialization.
use vstd::bytes::*;
use vstd::prelude::*;
use vstd::slice::{slice_subrange, slice_to_vec};
use vstd::string::StrSliceExecFns;
use vstd::utf8::{decode_utf8, encode_utf8, valid_utf8};

use crate::types::{
    kvpair_views, value_views, CommandRequest, CommandResponse, KvError, Kvpair, KvpairModel,
    RequestModel, ResponseModel, Status, Value, ValueModel,
};

verus! {

broadcast use vstd::utf8::group_utf8_lib;

/// Relies on String::from_utf8: returns the string made of exactly the given
/// bytes when they are valid UTF-8, and an error otherwise.
pub assume_specification[ String::from_utf8 ](v: Vec<u8>) -> (r: Result<String, std::string::FromUtf8Error>)
    ensures
        valid_utf8(v@) ==> r is Ok && r->Ok_0@ == decode_utf8(v@),
        !valid_utf8(v@) ==> r is Err,
;

/// The error type of String::from_utf8, carried through opaquely.
#[verifier::external_type_specification]
#[verifier::external_body]
pub struct ExFromUtf8Error(std::string::FromUtf8Error);

// ---------------------------------------------------------------------------
// Field tags of the format.
// ---------------------------------------------------------------------------
/// Value field tag: 64-bit signed integer.
pub const TAG_INTEGER: u8 = 0;

/// Value field tag: UTF-8 text.
pub const TAG_TEXT: u8 = 1;

/// Value field tag: byte blob.
pub const TAG_BINARY: u8 = 2;

/// Request tags, one per operation kind.
pub const TAG_GET: u8 = 0;

pub const TAG_PUT: u8 = 1;

pub const TAG_DELETE: u8 = 2;

pub const TAG_CONTAINS: u8 = 3;

pub const TAG_GET_ALL: u8 = 4;

/// Status tags of a response.
pub const TAG_SUCCESS: u8 = 0;

pub const TAG_NOT_FOUND: u8 = 1;

pub const TAG_ERROR: u8 = 2;

// ---------------------------------------------------------------------------
// Serialization, at the specification level.
// ---------------------------------------------------------------------------
/// A string on the wire: the byte length of its UTF-8 form, then that form.
pub open spec fn ser_str(s: Seq<char>) -> Seq<u8> {
    spec_u64_to_le_bytes(encode_utf8(s).len() as u64) + encode_utf8(s)
}

/// A blob on the wire: its byte length, then its bytes.
pub open spec fn ser_bytes(b: Seq<u8>) -> Seq<u8> {
    spec_u64_to_le_bytes(b.len() as u64) + b
}

/// A value on the wire: a tag byte, then the variant's payload.
pub open spec fn ser_value(v: ValueModel) -> Seq<u8> {
    match v {
        ValueModel::Integer(i) => seq![TAG_INTEGER] + spec_u64_to_le_bytes(i as u64),
        ValueModel::Text(s) => seq![TAG_TEXT] + ser_str(s),
        ValueModel::Binary(b) => seq![TAG_BINARY] + ser_bytes(b),
    }
}

/// A pair on the wire: the key, then the value.
pub open spec fn ser_kvpair(p: KvpairModel) -> Seq<u8> {
    ser_str(p.key) + ser_value(p.value)
}

/// Zero or more values, concatenated.
pub open spec fn ser_value_seq(vs: Seq<ValueModel>) -> Seq<u8>
    decreases vs.len(),
{
    if vs.len() == 0 {
        Seq::empty()
    } else {
        ser_value(vs[0]) + ser_value_seq(vs.drop_first())
    }
}

/// Zero or more pairs, concatenated.
pub open spec fn ser_kvpair_seq(ps: Seq<KvpairModel>) -> Seq<u8>
    decreases ps.len(),
{
    if ps.len() == 0 {
        Seq::empty()
    } else {
        ser_kvpair(ps[0]) + ser_kvpair_seq(ps.drop_first())
    }
}

/// The tag byte of a status.
pub open spec fn status_tag(s: Status) -> u8 {
    match s {
        Status::Success => TAG_SUCCESS,
        Status::NotFound => TAG_NOT_FOUND,
        Status::Error => TAG_ERROR,
    }
}

/// A request on the wire: an operation tag, the table, and the operation's
/// remaining fields.
pub open spec fn ser_request(r: RequestModel) -> Seq<u8> {
    match r {
        RequestModel::Get { table, key } => seq![TAG_GET] + ser_str(table) + ser_str(key),
        RequestModel::Put { table, key, value } => seq![TAG_PUT] + ser_str(table) + ser_str(key)
            + ser_value(value),
        RequestModel::Delete { table, key } => seq![TAG_DELETE] + ser_str(table) + ser_str(key),
        RequestModel::Contains { table, key } => seq![TAG_CONTAINS] + ser_str(table) + ser_str(
            key,
        ),
        RequestModel::GetAll { table } => seq![TAG_GET_ALL] + ser_str(table),
    }
}

/// A response on the wire: the status tag, the message, the counted values,
/// and the counted pairs.
pub open spec fn ser_response(r: ResponseModel) -> Seq<u8> {
    seq![status_tag(r.status)] + ser_str(r.message) + spec_u64_to_le_bytes(r.values.len() as u64)
        + ser_value_seq(r.values) + spec_u64_to_le_bytes(r.pairs.len() as u64) + ser_kvpair_seq(
        r.pairs,
    )
}

// ---------------------------------------------------------------------------
// Size limits under which the format is faithful.
// ---------------------------------------------------------------------------
/// A string whose UTF-8 form fits its length prefix.
pub open spec fn wf_str(s: Seq<char>) -> bool {
    encode_utf8(s).len() <= u64::MAX
}

pub open spec fn wf_value(v: ValueModel) -> bool {
    match v {
        ValueModel::Integer(_) => true,
        ValueModel::Text(s) => wf_str(s),
        ValueModel::Binary(b) => b.len() <= u64::MAX,
    }
}

pub open spec fn wf_kvpair(p: KvpairModel) -> bool {
    wf_str(p.key) && wf_value(p.value)
}

pub open spec fn wf_request(r: RequestModel) -> bool {
    match r {
        RequestModel::Get { table, key } => wf_str(table) && wf_str(key),
        RequestModel::Put { table, key, value } => wf_str(table) && wf_str(key) && wf_value(value),
        RequestModel::Delete { table, key } => wf_str(table) && wf_str(key),
        RequestModel::Contains { table, key } => wf_str(table) && wf_str(key),
        RequestModel::GetAll { table } => wf_str(table),
    }
}

pub open spec fn wf_response(r: ResponseModel) -> bool {
    &&& wf_str(r.message)
    &&& r.values.len() <= u64::MAX
    &&& r.pairs.len() <= u64::MAX
    &&& forall|i: int| 0 <= i < r.values.len() ==> wf_value(#[trigger] r.values[i])
    &&& forall|i: int| 0 <= i < r.pairs.len() ==> wf_kvpair(#[trigger] r.pairs[i])
}

// ---------------------------------------------------------------------------
// Parsing, at the specification level. Each parser consumes a prefix of the
// given bytes and yields the parsed model and the number of bytes consumed.
// ---------------------------------------------------------------------------
pub open spec fn parse_u64_s(b: Seq<u8>) -> Option<(u64, int)> {
    if b.len() >= 8 {
        Some((spec_u64_from_le_bytes(b.take(8)), 8int))
    } else {
        None
    }
}

pub open spec fn parse_str_s(b: Seq<u8>) -> Option<(Seq<char>, int)> {
    match parse_u64_s(b) {
        Option::None => None,
        Option::Some((n, _)) => {
            if 8 + n <= b.len() {
                let bytes = b.subrange(8, 8 + n as int);
                if valid_utf8(bytes) {
                    Some((decode_utf8(bytes), 8 + n as int))
                } else {
                    None
                }
            } else {
                None
            }
        },
    }
}

pub open spec fn parse_bytes_s(b: Seq<u8>) -> Option<(Seq<u8>, int)> {
    match parse_u64_s(b) {
        Option::None => None,
        Option::Some((n, _)) => {
            if 8 + n <= b.len() {
                Some((b.subrange(8, 8 + n as int), 8 + n as int))
            } else {
                None
            }
        },
    }
}

pub open spec fn parse_value_s(b: Seq<u8>) -> Option<(ValueModel, int)> {
    if b.len() < 1 {
        None
    } else {
        let rest = b.skip(1);
        if b[0] == TAG_INTEGER {
            match parse_u64_s(rest) {
                Option::None => None,
                Option::Some((x, m)) => Some((ValueModel::Integer(x as i64), 1 + m)),
            }
        } else if b[0] == TAG_TEXT {
            match parse_str_s(rest) {
                Option::None => None,
                Option::Some((s, m)) => Some((ValueModel::Text(s), 1 + m)),
            }
        } else if b[0] == TAG_BINARY {
            match parse_bytes_s(rest) {
                Option::None => None,
                Option::Some((bs, m)) => Some((ValueModel::Binary(bs), 1 + m)),
            }
        } else {
            None
        }
    }
}

pub open spec fn parse_kvpair_s(b: Seq<u8>) -> Option<(KvpairModel, int)> {
    match parse_str_s(b) {
        Option::None => None,
        Option::Some((k, m)) => match parse_value_s(b.skip(m)) {
            Option::None => None,
            Option::Some((v, m2)) => Some((KvpairModel { key: k, value: v }, m + m2)),
        },
    }
}

pub open spec fn parse_value_seq_s(b: Seq<u8>, n: nat) -> Option<(Seq<ValueModel>, int)>
    decreases n,
{
    if n == 0 {
        Some((Seq::empty(), 0int))
    } else {
        match parse_value_s(b) {
            Option::None => None,
            Option::Some((v, m)) => match parse_value_seq_s(b.skip(m), (n - 1) as nat) {
                Option::None => None,
                Option::Some((vs, m2)) => Some((seq![v] + vs, m + m2)),
            },
        }
    }
}

pub open spec fn parse_kvpair_seq_s(b: Seq<u8>, n: nat) -> Option<(Seq<KvpairModel>, int)>
    decreases n,
{
    if n == 0 {
        Some((Seq::empty(), 0int))
    } else {
        match parse_kvpair_s(b) {
            Option::None => None,
            Option::Some((p, m)) => match parse_kvpair_seq_s(b.skip(m), (n - 1) as nat) {
                Option::None => None,
                Option::Some((ps, m2)) => Some((seq![p] + ps, m + m2)),
            },
        }
    }
}

pub open spec fn parse_request_s(b: Seq<u8>) -> Option<(RequestModel, int)> {
    if b.len() < 1 {
        None
    } else {
        let rest = b.skip(1);
        if b[0] == TAG_GET || b[0] == TAG_DELETE || b[0] == TAG_CONTAINS {
            match parse_str_s(rest) {
                Option::None => None,
                Option::Some((table, m)) => match parse_str_s(rest.skip(m)) {
                    Option::None => None,
                    Option::Some((key, m2)) => {
                        let r = if b[0] == TAG_GET {
                            RequestModel::Get { table, key }
                        } else if b[0] == TAG_DELETE {
                            RequestModel::Delete { table, key }
                        } else {
                            RequestModel::Contains { table, key }
                        };
                        Some((r, 1 + m + m2))
                    },
                },
            }
        } else if b[0] == TAG_PUT {
            match parse_str_s(rest) {
                Option::None => None,
                Option::Some((table, m)) => match parse_str_s(rest.skip(m)) {
                    Option::None => None,
                    Option::Some((key, m2)) => match parse_value_s(rest.skip(m + m2)) {
                        Option::None => None,
                        Option::Some((value, m3)) => Some(
                            (RequestModel::Put { table, key, value }, 1 + m + m2 + m3),
                        ),
                    },
                },
            }
        } else if b[0] == TAG_GET_ALL {
            match parse_str_s(rest) {
                Option::None => None,
                Option::Some((table, m)) => Some((RequestModel::GetAll { table }, 1 + m)),
            }
        } else {
            None
        }
    }
}

pub open spec fn parse_response_s(b: Seq<u8>) -> Option<(ResponseModel, int)> {
    if b.len() < 1 || !(b[0] == TAG_SUCCESS || b[0] == TAG_NOT_FOUND || b[0] == TAG_ERROR) {
        None
    } else {
        let status = if b[0] == TAG_SUCCESS {
            Status::Success
        } else if b[0] == TAG_NOT_FOUND {
            Status::NotFound
        } else {
            Status::Error
        };
        let rest = b.skip(1);
        match parse_str_s(rest) {
            Option::None => None,
            Option::Some((message, m1)) => {
                let b2 = rest.skip(m1);
                match parse_u64_s(b2) {
                    Option::None => None,
                    Option::Some((nv, _)) => {
                        match parse_value_seq_s(b2.skip(8), nv as nat) {
                            Option::None => None,
                            Option::Some((values, m2)) => {
                                let b3 = b2.skip(8 + m2);
                                match parse_u64_s(b3) {
                                    Option::None => None,
                                    Option::Some((np, _)) => {
                                        match parse_kvpair_seq_s(b3.skip(8), np as nat) {
                                            Option::None => None,
                                            Option::Some((pairs, m3)) => Some(
                                                (
                                                    ResponseModel {
                                                        status,
                                                        message,
                                                        values,
                                                        pairs,
                                                    },
                                                    1 + m1 + 8 + m2 + 8 + m3,
                                                ),
                                            ),
                                        }
                                    },
                                }
                            },
                        }
                    },
                }
            },
        }
    }
}

// ---------------------------------------------------------------------------
// Round-trip: parsing inverts serialization, whatever follows the encoding.
// ---------------------------------------------------------------------------
/// An eight-byte length field reads back as the number it was written from.
pub proof fn lemma_u64_roundtrip(x: u64, rest: Seq<u8>)
    ensures
        parse_u64_s(spec_u64_to_le_bytes(x) + rest) == Some((x, 8int)),
        spec_u64_to_le_bytes(x).len() == 8,
{
    lemma_auto_spec_u64_to_from_le_bytes();
    assert((spec_u64_to_le_bytes(x) + rest).take(8) =~= spec_u64_to_le_bytes(x));
}

/// A serialized string parses back to the same character sequence.
pub proof fn lemma_str_roundtrip(s: Seq<char>, rest: Seq<u8>)
    requires
        wf_str(s),
    ensures
        parse_str_s(ser_str(s) + rest) == Some((s, ser_str(s).len() as int)),
{
    let u = encode_utf8(s);
    let b = ser_str(s) + rest;
    lemma_auto_spec_u64_to_from_le_bytes();
    assert(b.take(8) =~= spec_u64_to_le_bytes(u.len() as u64));
    assert(parse_u64_s(b) == Some((u.len() as u64, 8int)));
    assert(b.subrange(8, 8 + u.len() as int) =~= u);
    assert(valid_utf8(u));
    assert(decode_utf8(u) == s);
}

/// A serialized blob parses back to the same bytes.
pub proof fn lemma_bytes_roundtrip(bs: Seq<u8>, rest: Seq<u8>)
    requires
        bs.len() <= u64::MAX,
    ensures
        parse_bytes_s(ser_bytes(bs) + rest) == Some((bs, ser_bytes(bs).len() as int)),
{
    let b = ser_bytes(bs) + rest;
    lemma_auto_spec_u64_to_from_le_bytes();
    assert(b.take(8) =~= spec_u64_to_le_bytes(bs.len() as u64));
    assert(b.subrange(8, 8 + bs.len() as int) =~= bs);
}

/// A serialized value parses back to the same value.
pub proof fn lemma_value_roundtrip(v: ValueModel, rest: Seq<u8>)
    requires
        wf_value(v),
    ensures
        parse_value_s(ser_value(v) + rest) == Some((v, ser_value(v).len() as int)),
{
    let b = ser_value(v) + rest;
    match v {
        ValueModel::Integer(i) => {
            lemma_auto_spec_u64_to_from_le_bytes();
            assert(b[0] == TAG_INTEGER);
            assert(b.skip(1) =~= spec_u64_to_le_bytes(i as u64) + rest);
            lemma_u64_roundtrip(i as u64, rest);
            assert(((i as u64) as i64) == i) by (bit_vector);
        },
        ValueModel::Text(s) => {
            assert(b[0] == TAG_TEXT);
            assert(b.skip(1) =~= ser_str(s) + rest);
            lemma_str_roundtrip(s, rest);
        },
        ValueModel::Binary(bs) => {
            assert(b[0] == TAG_BINARY);
            assert(b.skip(1) =~= ser_bytes(bs) + rest);
            lemma_bytes_roundtrip(bs, rest);
        },
    }
}

/// A serialized pair parses back to the same pair.
pub proof fn lemma_kvpair_roundtrip(p: KvpairModel, rest: Seq<u8>)
    requires
        wf_kvpair(p),
    ensures
        parse_kvpair_s(ser_kvpair(p) + rest) == Some((p, ser_kvpair(p).len() as int)),
{
    let b = ser_kvpair(p) + rest;
    assert(b =~= ser_str(p.key) + (ser_value(p.value) + rest));
    lemma_str_roundtrip(p.key, ser_value(p.value) + rest);
    let m = ser_str(p.key).len() as int;
    assert(b.skip(m) =~= ser_value(p.value) + rest);
    lemma_value_roundtrip(p.value, rest);
}

/// A serialized value sequence parses back to the same sequence.
pub proof fn lemma_value_seq_roundtrip(vs: Seq<ValueModel>, rest: Seq<u8>)
    requires
        forall|i: int| 0 <= i < vs.len() ==> wf_value(#[trigger] vs[i]),
    ensures
        parse_value_seq_s(ser_value_seq(vs) + rest, vs.len()) == Some(
            (vs, ser_value_seq(vs).len() as int),
        ),
    decreases vs.len(),
{
    if vs.len() == 0 {
        assert(vs =~= Seq::<ValueModel>::empty());
    } else {
        let hd = vs[0];
        let tl = vs.drop_first();
        let b = ser_value_seq(vs) + rest;
        assert(b =~= ser_value(hd) + (ser_value_seq(tl) + rest));
        lemma_value_roundtrip(hd, ser_value_seq(tl) + rest);
        let m = ser_value(hd).len() as int;
        assert(b.skip(m) =~= ser_value_seq(tl) + rest);
        lemma_value_seq_roundtrip(tl, rest);
        assert(seq![hd] + tl =~= vs);
    }
}

/// A serialized pair sequence parses back to the same sequence.
pub proof fn lemma_kvpair_seq_roundtrip(ps: Seq<KvpairModel>, rest: Seq<u8>)
    requires
        forall|i: int| 0 <= i < ps.len() ==> wf_kvpair(#[trigger] ps[i]),
    ensures
        parse_kvpair_seq_s(ser_kvpair_seq(ps) + rest, ps.len()) == Some(
            (ps, ser_kvpair_seq(ps).len() as int),
        ),
    decreases ps.len(),
{
    if ps.len() == 0 {
        assert(ps =~= Seq::<KvpairModel>::empty());
    } else {
        let hd = ps[0];
        let tl = ps.drop_first();
        let b = ser_kvpair_seq(ps) + rest;
        assert(b =~= ser_kvpair(hd) + (ser_kvpair_seq(tl) + rest));
        lemma_kvpair_roundtrip(hd, ser_kvpair_seq(tl) + rest);
        let m = ser_kvpair(hd).len() as int;
        assert(b.skip(m) =~= ser_kvpair_seq(tl) + rest);
        lemma_kvpair_seq_roundtrip(tl, rest);
        assert(seq![hd] + tl =~= ps);
    }
}

/// Round trip of a whole request: parsing its serialized form, with anything
/// appended, yields the request and consumes exactly its encoding.
#[verifier::rlimit(50)]
pub proof fn lemma_request_roundtrip(r: RequestModel, rest: Seq<u8>)
    requires
        wf_request(r),
    ensures
        parse_request_s(ser_request(r) + rest) == Some((r, ser_request(r).len() as int)),
{
    let b = ser_request(r) + rest;
    match r {
        RequestModel::Get { table, key } => {
            assert(b[0] == TAG_GET);
            assert(b.skip(1) =~= ser_str(table) + (ser_str(key) + rest));
            lemma_str_roundtrip(table, ser_str(key) + rest);
            let m = ser_str(table).len() as int;
            assert(b.skip(1).skip(m) =~= ser_str(key) + rest);
            lemma_str_roundtrip(key, rest);
        },
        RequestModel::Delete { table, key } => {
            assert(b[0] == TAG_DELETE);
            assert(b.skip(1) =~= ser_str(table) + (ser_str(key) + rest));
            lemma_str_roundtrip(table, ser_str(key) + rest);
            let m = ser_str(table).len() as int;
            assert(b.skip(1).skip(m) =~= ser_str(key) + rest);
            lemma_str_roundtrip(key, rest);
        },
        RequestModel::Contains { table, key } => {
            assert(b[0] == TAG_CONTAINS);
            assert(b.skip(1) =~= ser_str(table) + (ser_str(key) + rest));
            lemma_str_roundtrip(table, ser_str(key) + rest);
            let m = ser_str(table).len() as int;
            assert(b.skip(1).skip(m) =~= ser_str(key) + rest);
            lemma_str_roundtrip(key, rest);
        },
        RequestModel::Put { table, key, value } => {
            assert(b[0] == TAG_PUT);
            assert(b.skip(1) =~= ser_str(table) + (ser_str(key) + (ser_value(value) + rest)));
            lemma_str_roundtrip(table, ser_str(key) + (ser_value(value) + rest));
            let m = ser_str(table).len() as int;
            assert(b.skip(1).skip(m) =~= ser_str(key) + (ser_value(value) + rest));
            lemma_str_roundtrip(key, ser_value(value) + rest);
            let m2 = ser_str(key).len() as int;
            assert(b.skip(1).skip(m + m2) =~= ser_value(value) + rest);
            lemma_value_roundtrip(value, rest);
        },
        RequestModel::GetAll { table } => {
            assert(b[0] == TAG_GET_ALL);
            assert(b.skip(1) =~= ser_str(table) + rest);
            lemma_str_roundtrip(table, rest);
        },
    }
}

/// Round trip of a whole response: parsing its serialized form, with anything
/// appended, yields the response and consumes exactly its encoding.
#[verifier::rlimit(50)]
pub proof fn lemma_response_roundtrip(r: ResponseModel, rest: Seq<u8>)
    requires
        wf_response(r),
    ensures
        parse_response_s(ser_response(r) + rest) == Some((r, ser_response(r).len() as int)),
{
    lemma_auto_spec_u64_to_from_le_bytes();
    let b = ser_response(r) + rest;
    let sv = ser_value_seq(r.values);
    let sp = ser_kvpair_seq(r.pairs);
    let r1 = spec_u64_to_le_bytes(r.values.len() as u64) + sv + (spec_u64_to_le_bytes(
        r.pairs.len() as u64,
    ) + sp + rest);
    assert(b[0] == status_tag(r.status));
    assert(status_tag(r.status) == TAG_SUCCESS || status_tag(r.status) == TAG_NOT_FOUND
        || status_tag(r.status) == TAG_ERROR);
    assert(b.skip(1) =~= ser_str(r.message) + r1);
    lemma_str_roundtrip(r.message, r1);
    let m1 = ser_str(r.message).len() as int;
    assert(b.skip(1).skip(m1) =~= r1);
    lemma_u64_roundtrip(r.values.len() as u64, sv + (spec_u64_to_le_bytes(r.pairs.len() as u64)
        + sp + rest));
    assert(r1 =~= spec_u64_to_le_bytes(r.values.len() as u64) + (sv + (spec_u64_to_le_bytes(
        r.pairs.len() as u64,
    ) + sp + rest)));
    assert(r1.skip(8) =~= sv + (spec_u64_to_le_bytes(r.pairs.len() as u64) + sp + rest));
    lemma_value_seq_roundtrip(r.values, spec_u64_to_le_bytes(r.pairs.len() as u64) + sp + rest);
    assert((r.values.len() as u64) as nat == r.values.len());
    let m2 = sv.len() as int;
    assert(r1.skip(8 + m2) =~= spec_u64_to_le_bytes(r.pairs.len() as u64) + (sp + rest));
    lemma_u64_roundtrip(r.pairs.len() as u64, sp + rest);
    assert(r1.skip(8 + m2).skip(8) =~= sp + rest);
    lemma_kvpair_seq_roundtrip(r.pairs, rest);
    assert((r.pairs.len() as u64) as nat == r.pairs.len());
    let st = if b[0] == TAG_SUCCESS {
        Status::Success
    } else if b[0] == TAG_NOT_FOUND {
        Status::NotFound
    } else {
        Status::Error
    };
    assert(st == r.status);
}

// ---------------------------------------------------------------------------
// Concatenation lemmas for counted sequences.
// ---------------------------------------------------------------------------
proof fn lemma_ser_value_seq_snoc(vs: Seq<ValueModel>, v: ValueModel)
    ensures
        ser_value_seq(vs.push(v)) == ser_value_seq(vs) + ser_value(v),
    decreases vs.len(),
{
    reveal_with_fuel(ser_value_seq, 3);
    if vs.len() == 0 {
        assert(vs.push(v)[0] == v);
        assert(vs.push(v).drop_first() =~= Seq::<ValueModel>::empty());
        assert(ser_value_seq(vs.push(v)) =~= ser_value_seq(vs) + ser_value(v));
    } else {
        let w = vs.push(v);
        assert(w[0] == vs[0]);
        assert(w.drop_first() =~= vs.drop_first().push(v));
        assert(ser_value_seq(w) == ser_value(vs[0]) + ser_value_seq(vs.drop_first().push(v)));
        lemma_ser_value_seq_snoc(vs.drop_first(), v);
        assert(ser_value(vs[0]) + (ser_value_seq(vs.drop_first()) + ser_value(v)) =~= (ser_value(
            vs[0],
        ) + ser_value_seq(vs.drop_first())) + ser_value(v));
        assert(ser_value_seq(vs) == ser_value(vs[0]) + ser_value_seq(vs.drop_first()));
    }
}

proof fn lemma_ser_kvpair_seq_snoc(ps: Seq<KvpairModel>, p: KvpairModel)
    ensures
        ser_kvpair_seq(ps.push(p)) == ser_kvpair_seq(ps) + ser_kvpair(p),
    decreases ps.len(),
{
    reveal_with_fuel(ser_kvpair_seq, 3);
    if ps.len() == 0 {
        assert(ps.push(p)[0] == p);
        assert(ps.push(p).drop_first() =~= Seq::<KvpairModel>::empty());
        assert(ser_kvpair_seq(ps.push(p)) =~= ser_kvpair_seq(ps) + ser_kvpair(p));
    } else {
        let w = ps.push(p);
        assert(w[0] == ps[0]);
        assert(w.drop_first() =~= ps.drop_first().push(p));
        assert(ser_kvpair_seq(w) == ser_kvpair(ps[0]) + ser_kvpair_seq(ps.drop_first().push(p)));
        lemma_ser_kvpair_seq_snoc(ps.drop_first(), p);
        assert(ser_kvpair(ps[0]) + (ser_kvpair_seq(ps.drop_first()) + ser_kvpair(p)) =~= (
        ser_kvpair(ps[0]) + ser_kvpair_seq(ps.drop_first())) + ser_kvpair(p));
        assert(ser_kvpair_seq(ps) == ser_kvpair(ps[0]) + ser_kvpair_seq(ps.drop_first()));
    }
}

// ---------------------------------------------------------------------------
// The executable serializer.
// ---------------------------------------------------------------------------
fn write_u64(out: &mut Vec<u8>, x: u64)
    ensures
        final(out)@ == old(out)@ + spec_u64_to_le_bytes(x),
{
    let mut bs = u64_to_le_bytes(x);
    out.append(&mut bs);
}

fn write_str(out: &mut Vec<u8>, s: &str)
    ensures
        final(out)@ == old(out)@ + ser_str(s@),
        wf_str(s@),
{
    let mut bs = s.as_bytes_vec();
    let n = bs.len();
    write_u64(out, n as u64);
    out.append(&mut bs);
    proof {
        assert(out@ =~= old(out)@ + ser_str(s@));
    }
}

fn write_bytes(out: &mut Vec<u8>, b: &Vec<u8>)
    ensures
        final(out)@ == old(out)@ + ser_bytes(b@),
        b@.len() <= u64::MAX,
{
    let n = b.len();
    write_u64(out, n as u64);
    out.extend_from_slice(b.as_slice());
    proof {
        assert(out@ =~= old(out)@ + ser_bytes(b@));
    }
}

fn write_value(out: &mut Vec<u8>, v: &Value)
    ensures
        final(out)@ == old(out)@ + ser_value(v@),
        wf_value(v@),
{
    match v {
        Value::Integer(i) => {
            out.push(TAG_INTEGER);
            write_u64(out, *i as u64);
            proof {
                assert(out@ =~= old(out)@ + ser_value(v@));
            }
        },
        Value::Text(s) => {
            out.push(TAG_TEXT);
            write_str(out, s.as_str());
            proof {
                assert(out@ =~= old(out)@ + ser_value(v@));
            }
        },
        Value::Binary(b) => {
            out.push(TAG_BINARY);
            write_bytes(out, b);
            proof {
                assert(out@ =~= old(out)@ + ser_value(v@));
            }
        },
    }
}

fn write_kvpair(out: &mut Vec<u8>, p: &Kvpair)
    ensures
        final(out)@ == old(out)@ + ser_kvpair(p@),
        wf_kvpair(p@),
{
    write_str(out, p.key.as_str());
    write_value(out, &p.value);
    proof {
        assert(out@ =~= old(out)@ + ser_kvpair(p@));
    }
}

/// Serializes a request into its wire form.
pub fn serialize_request(req: &CommandRequest) -> (r: Vec<u8>)
    ensures
        r@ == ser_request(req@),
        wf_request(req@),
{
    let mut out: Vec<u8> = Vec::new();
    match req {
        CommandRequest::Get { table, key } => {
            out.push(TAG_GET);
            write_str(&mut out, table.as_str());
            write_str(&mut out, key.as_str());
            proof {
                assert(out@ =~= ser_request(req@));
            }
        },
        CommandRequest::Put { table, key, value } => {
            out.push(TAG_PUT);
            write_str(&mut out, table.as_str());
            write_str(&mut out, key.as_str());
            write_value(&mut out, value);
            proof {
                assert(out@ =~= ser_request(req@));
            }
        },
        CommandRequest::Delete { table, key } => {
            out.push(TAG_DELETE);
            write_str(&mut out, table.as_str());
            write_str(&mut out, key.as_str());
            proof {
                assert(out@ =~= ser_request(req@));
            }
        },
        CommandRequest::Contains { table, key } => {
            out.push(TAG_CONTAINS);
            write_str(&mut out, table.as_str());
            write_str(&mut out, key.as_str());
            proof {
                assert(out@ =~= ser_request(req@));
            }
        },
        CommandRequest::GetAll { table } => {
            out.push(TAG_GET_ALL);
            write_str(&mut out, table.as_str());
            proof {
                assert(out@ =~= ser_request(req@));
            }
        },
    }
    out
}

/// Serializes a response into its wire form.
pub fn serialize_response(resp: &CommandResponse) -> (r: Vec<u8>)
    ensures
        r@ == ser_response(resp@),
        wf_response(resp@),
{
    let mut out: Vec<u8> = Vec::new();
    let tag = match resp.status {
        Status::Success => TAG_SUCCESS,
        Status::NotFound => TAG_NOT_FOUND,
        Status::Error => TAG_ERROR,
    };
    out.push(tag);
    write_str(&mut out, resp.message.as_str());
    let nv = resp.values.len();
    write_u64(&mut out, nv as u64);
    let ghost base_v = out@;
    let mut i: usize = 0;
    while i < nv
        invariant
            i <= nv,
            nv == resp.values@.len(),
            out@ == base_v + ser_value_seq(value_views(resp.values@.take(i as int))),
            forall|j: int| 0 <= j < i ==> wf_value(#[trigger] resp.values@[j]@),
        decreases nv - i,
    {
        write_value(&mut out, &resp.values[i]);
        proof {
            lemma_ser_value_seq_snoc(
                value_views(resp.values@.take(i as int)),
                resp.values@[i as int]@,
            );
            assert(value_views(resp.values@.take(i + 1 as int)) =~= value_views(
                resp.values@.take(i as int),
            ).push(resp.values@[i as int]@));
        }
        i += 1;
    }
    proof {
        assert(resp.values@.take(nv as int) =~= resp.values@);
    }
    let np = resp.pairs.len();
    write_u64(&mut out, np as u64);
    let ghost base_p = out@;
    let mut k: usize = 0;
    while k < np
        invariant
            k <= np,
            np == resp.pairs@.len(),
            out@ == base_p + ser_kvpair_seq(kvpair_views(resp.pairs@.take(k as int))),
            forall|j: int| 0 <= j < k ==> wf_kvpair(#[trigger] resp.pairs@[j]@),
        decreases np - k,
    {
        write_kvpair(&mut out, &resp.pairs[k]);
        proof {
            lemma_ser_kvpair_seq_snoc(
                kvpair_views(resp.pairs@.take(k as int)),
                resp.pairs@[k as int]@,
            );
            assert(kvpair_views(resp.pairs@.take(k + 1 as int)) =~= kvpair_views(
                resp.pairs@.take(k as int),
            ).push(resp.pairs@[k as int]@));
        }
        k += 1;
    }
    proof {
        assert(resp.pairs@.take(np as int) =~= resp.pairs@);
        assert(out@ =~= ser_response(resp@));
        assert forall|j: int| 0 <= j < resp@.values.len() implies wf_value(
            #[trigger] resp@.values[j],
        ) by {
            assert(resp@.values[j] == resp.values@[j]@);
        }
        assert forall|j: int| 0 <= j < resp@.pairs.len() implies wf_kvpair(
            #[trigger] resp@.pairs[j],
        ) by {
            assert(resp@.pairs[j] == resp.pairs@[j]@);
        }
    }
    out
}

// ---------------------------------------------------------------------------
// The executable parser. Each reader is exact with respect to its
// specification parser: it succeeds, with the same result and end position,
// exactly where the specification parser does.
// ---------------------------------------------------------------------------
fn read_u64(buf: &Vec<u8>, pos: usize) -> (r: Result<(u64, usize), KvError>)
    requires
        pos <= buf@.len(),
    ensures
        parse_u64_s(buf@.skip(pos as int)) matches Some(p) ==> (r matches Ok(q) && q.0 == p.0
            && q.1 == pos + p.1),
        parse_u64_s(buf@.skip(pos as int)) is None ==> (r matches Err(e) && e is DecodeError),
        r matches Ok(q) ==> pos < q.1 <= buf@.len(),
{
    let n = buf.len();
    if n - pos >= 8 {
        let s = slice_subrange(buf.as_slice(), pos, pos + 8);
        let x = u64_from_le_bytes(s);
        proof {
            assert(s@ =~= buf@.skip(pos as int).take(8));
        }
        Ok((x, pos + 8))
    } else {
        Err(KvError::DecodeError)
    }
}

fn read_str(buf: &Vec<u8>, pos: usize) -> (r: Result<(String, usize), KvError>)
    requires
        pos <= buf@.len(),
    ensures
        parse_str_s(buf@.skip(pos as int)) matches Some(p) ==> (r matches Ok(q) && q.0@ == p.0
            && q.1 == pos + p.1),
        parse_str_s(buf@.skip(pos as int)) is None ==> (r matches Err(e) && e is DecodeError),
        r matches Ok(q) ==> pos < q.1 <= buf@.len(),
{
    let (x, p8) = match read_u64(buf, pos) {
        Ok(v) => v,
        Err(e) => {
            return Err(e);
        },
    };
    let rem = buf.len() - p8;
    if x > rem as u64 {
        return Err(KvError::DecodeError);
    }
    let len = x as usize;
    let s = slice_subrange(buf.as_slice(), p8, p8 + len);
    let bytes = slice_to_vec(s);
    proof {
        assert(bytes@ =~= buf@.skip(pos as int).subrange(8, 8 + x as int));
    }
    match String::from_utf8(bytes) {
        Ok(st) => Ok((st, p8 + len)),
        Err(_) => Err(KvError::DecodeError),
    }
}

fn read_bytes(buf: &Vec<u8>, pos: usize) -> (r: Result<(Vec<u8>, usize), KvError>)
    requires
        pos <= buf@.len(),
    ensures
        parse_bytes_s(buf@.skip(pos as int)) matches Some(p) ==> (r matches Ok(q) && q.0@ == p.0
            && q.1 == pos + p.1),
        parse_bytes_s(buf@.skip(pos as int)) is None ==> (r matches Err(e) && e is DecodeError),
        r matches Ok(q) ==> pos < q.1 <= buf@.len(),
{
    let (x, p8) = match read_u64(buf, pos) {
        Ok(v) => v,
        Err(e) => {
            return Err(e);
        },
    };
    let rem = buf.len() - p8;
    if x > rem as u64 {
        return Err(KvError::DecodeError);
    }
    let len = x as usize;
    let s = slice_subrange(buf.as_slice(), p8, p8 + len);
    let bytes = slice_to_vec(s);
    proof {
        assert(bytes@ =~= buf@.skip(pos as int).subrange(8, 8 + x as int));
    }
    Ok((bytes, p8 + len))
}

fn read_value(buf: &Vec<u8>, pos: usize) -> (r: Result<(Value, usize), KvError>)
    requires
        pos <= buf@.len(),
    ensures
        parse_value_s(buf@.skip(pos as int)) matches Some(p) ==> (r matches Ok(q) && q.0@ == p.0
            && q.1 == pos + p.1),
        parse_value_s(buf@.skip(pos as int)) is None ==> (r matches Err(e) && e is DecodeError),
        r matches Ok(q) ==> pos < q.1 <= buf@.len(),
{
    let n = buf.len();
    if pos >= n {
        return Err(KvError::DecodeError);
    }
    let tag = buf[pos];
    proof {
        assert(buf@.skip(pos as int)[0] == buf@[pos as int]);
        assert(buf@.skip(pos as int).skip(1) =~= buf@.skip(pos as int + 1));
    }
    if tag == TAG_INTEGER {
        match read_u64(buf, pos + 1) {
            Ok((x, np)) => Ok((Value::Integer(x as i64), np)),
            Err(e) => Err(e),
        }
    } else if tag == TAG_TEXT {
        match read_str(buf, pos + 1) {
            Ok((s, np)) => Ok((Value::Text(s), np)),
            Err(e) => Err(e),
        }
    } else if tag == TAG_BINARY {
        match read_bytes(buf, pos + 1) {
            Ok((b, np)) => Ok((Value::Binary(b), np)),
            Err(e) => Err(e),
        }
    } else {
        Err(KvError::DecodeError)
    }
}

fn read_kvpair(buf: &Vec<u8>, pos: usize) -> (r: Result<(Kvpair, usize), KvError>)
    requires
        pos <= buf@.len(),
    ensures
        parse_kvpair_s(buf@.skip(pos as int)) matches Some(p) ==> (r matches Ok(q) && q.0@ == p.0
            && q.1 == pos + p.1),
        parse_kvpair_s(buf@.skip(pos as int)) is None ==> (r matches Err(e) && e is DecodeError),
        r matches Ok(q) ==> pos < q.1 <= buf@.len(),
{
    let (key, p1) = match read_str(buf, pos) {
        Ok(v) => v,
        Err(e) => {
            return Err(e);
        },
    };
    proof {
        assert(buf@.skip(pos as int).skip(p1 - pos) =~= buf@.skip(p1 as int));
    }
    let (value, p2) = match read_value(buf, p1) {
        Ok(v) => v,
        Err(e) => {
            return Err(e);
        },
    };
    Ok((Kvpair { key, value }, p2))
}

fn read_value_seq(buf: &Vec<u8>, pos: usize, n: u64) -> (r: Result<(Vec<Value>, usize), KvError>)
    requires
        pos <= buf@.len(),
    ensures
        parse_value_seq_s(buf@.skip(pos as int), n as nat) matches Some(p) ==> (r matches Ok(q)
            && value_views(q.0@) == p.0 && q.1 == pos + p.1),
        parse_value_seq_s(buf@.skip(pos as int), n as nat) is None ==> (r matches Err(e)
            && e is DecodeError),
        r matches Ok(q) ==> pos <= q.1 <= buf@.len(),
{
    let ghost target = parse_value_seq_s(buf@.skip(pos as int), n as nat);
    let mut acc: Vec<Value> = Vec::new();
    let mut p: usize = pos;
    let mut i: u64 = 0;
    while i < n
        invariant
            pos <= p <= buf@.len(),
            i <= n,
            acc@.len() == i,
            target == parse_value_seq_s(buf@.skip(pos as int), n as nat),
            ({
                let sub = parse_value_seq_s(buf@.skip(p as int), (n - i) as nat);
                match sub {
                    Option::Some(pr) => target matches Some(t) && t.0 == value_views(acc@) + pr.0
                        && t.1 == (p - pos) + pr.1,
                    Option::None => target is None,
                }
            }),
        decreases n - i,
    {
        match read_value(buf, p) {
            Ok((v, np)) => {
                proof {
                    let b = buf@.skip(p as int);
                    let m = (np - p) as int;
                    assert(parse_value_s(b) == Some((v@, m)));
                    assert(b.skip(m) =~= buf@.skip(np as int));
                    let sub2 = parse_value_seq_s(buf@.skip(np as int), (n - i - 1) as nat);
                    match sub2 {
                        Option::Some(pr2) => {
                            assert(value_views(acc@.push(v)) =~= value_views(acc@) + seq![v@]);
                            assert(value_views(acc@) + (seq![v@] + pr2.0) =~= value_views(
                                acc@.push(v),
                            ) + pr2.0);
                        },
                        Option::None => {},
                    }
                }
                acc.push(v);
                p = np;
                i = i + 1;
            },
            Err(e) => {
                return Err(e);
            },
        }
    }
    proof {
        assert(value_views(acc@) + Seq::<ValueModel>::empty() =~= value_views(acc@));
    }
    Ok((acc, p))
}

fn read_kvpair_seq(buf: &Vec<u8>, pos: usize, n: u64) -> (r: Result<
    (Vec<Kvpair>, usize),
    KvError,
>)
    requires
        pos <= buf@.len(),
    ensures
        parse_kvpair_seq_s(buf@.skip(pos as int), n as nat) matches Some(p) ==> (r matches Ok(q)
            && kvpair_views(q.0@) == p.0 && q.1 == pos + p.1),
        parse_kvpair_seq_s(buf@.skip(pos as int), n as nat) is None ==> (r matches Err(e)
            && e is DecodeError),
        r matches Ok(q) ==> pos <= q.1 <= buf@.len(),
{
    let ghost target = parse_kvpair_seq_s(buf@.skip(pos as int), n as nat);
    let mut acc: Vec<Kvpair> = Vec::new();
    let mut p: usize = pos;
    let mut i: u64 = 0;
    while i < n
        invariant
            pos <= p <= buf@.len(),
            i <= n,
            acc@.len() == i,
            target == parse_kvpair_seq_s(buf@.skip(pos as int), n as nat),
            ({
                let sub = parse_kvpair_seq_s(buf@.skip(p as int), (n - i) as nat);
                match sub {
                    Option::Some(pr) => target matches Some(t) && t.0 == kvpair_views(acc@) + pr.0
                        && t.1 == (p - pos) + pr.1,
                    Option::None => target is None,
                }
            }),
        decreases n - i,
    {
        match read_kvpair(buf, p) {
            Ok((v, np)) => {
                proof {
                    let b = buf@.skip(p as int);
                    let m = (np - p) as int;
                    assert(parse_kvpair_s(b) == Some((v@, m)));
                    assert(b.skip(m) =~= buf@.skip(np as int));
                    let sub2 = parse_kvpair_seq_s(buf@.skip(np as int), (n - i - 1) as nat);
                    match sub2 {
                        Option::Some(pr2) => {
                            assert(kvpair_views(acc@.push(v)) =~= kvpair_views(acc@) + seq![v@]);
                            assert(kvpair_views(acc@) + (seq![v@] + pr2.0) =~= kvpair_views(
                                acc@.push(v),
                            ) + pr2.0);
                        },
                        Option::None => {},
                    }
                }
                acc.push(v);
                p = np;
                i = i + 1;
            },
            Err(e) => {
                return Err(e);
            },
        }
    }
    proof {
        assert(kvpair_views(acc@) + Seq::<KvpairModel>::empty() =~= kvpair_views(acc@));
    }
    Ok((acc, p))
}

fn read_request(buf: &Vec<u8>, pos: usize) -> (r: Result<(CommandRequest, usize), KvError>)
    requires
        pos <= buf@.len(),
    ensures
        parse_request_s(buf@.skip(pos as int)) matches Some(p) ==> (r matches Ok(q) && q.0@ == p.0
            && q.1 == pos + p.1),
        parse_request_s(buf@.skip(pos as int)) is None ==> (r matches Err(e) && e is DecodeError),
        r matches Ok(q) ==> pos < q.1 <= buf@.len(),
{
    let n = buf.len();
    if pos >= n {
        return Err(KvError::DecodeError);
    }
    let tag = buf[pos];
    proof {
        assert(buf@.skip(pos as int)[0] == buf@[pos as int]);
        assert(buf@.skip(pos as int).skip(1) =~= buf@.skip(pos as int + 1));
    }
    if tag == TAG_GET || tag == TAG_DELETE || tag == TAG_CONTAINS {
        let (table, p1) = match read_str(buf, pos + 1) {
            Ok(v) => v,
            Err(e) => {
                return Err(e);
            },
        };
        proof {
            assert(buf@.skip(pos as int + 1).skip(p1 - (pos + 1)) =~= buf@.skip(p1 as int));
        }
        let (key, p2) = match read_str(buf, p1) {
            Ok(v) => v,
            Err(e) => {
                return Err(e);
            },
        };
        let req = if tag == TAG_GET {
            CommandRequest::Get { table, key }
        } else if tag == TAG_DELETE {
            CommandRequest::Delete { table, key }
        } else {
            CommandRequest::Contains { table, key }
        };
        Ok((req, p2))
    } else if tag == TAG_PUT {
        let (table, p1) = match read_str(buf, pos + 1) {
            Ok(v) => v,
            Err(e) => {
                return Err(e);
            },
        };
        proof {
            assert(buf@.skip(pos as int + 1).skip(p1 - (pos + 1)) =~= buf@.skip(p1 as int));
        }
        let (key, p2) = match read_str(buf, p1) {
            Ok(v) => v,
            Err(e) => {
                return Err(e);
            },
        };
        proof {
            assert(buf@.skip(pos as int + 1).skip(p2 - (pos + 1)) =~= buf@.skip(p2 as int));
        }
        let (value, p3) = match read_value(buf, p2) {
            Ok(v) => v,
            Err(e) => {
                return Err(e);
            },
        };
        Ok((CommandRequest::Put { table, key, value }, p3))
    } else if tag == TAG_GET_ALL {
        let (table, p1) = match read_str(buf, pos + 1) {
            Ok(v) => v,
            Err(e) => {
                return Err(e);
            },
        };
        Ok((CommandRequest::GetAll { table }, p1))
    } else {
        Err(KvError::DecodeError)
    }
}

fn read_response(buf: &Vec<u8>, pos: usize) -> (r: Result<(CommandResponse, usize), KvError>)
    requires
        pos <= buf@.len(),
    ensures
        parse_response_s(buf@.skip(pos as int)) matches Some(p) ==> (r matches Ok(q) && q.0@ == p.0
            && q.1 == pos + p.1),
        parse_response_s(buf@.skip(pos as int)) is None ==> (r matches Err(e) && e is DecodeError),
        r matches Ok(q) ==> pos < q.1 <= buf@.len(),
{
    let n = buf.len();
    if pos >= n {
        return Err(KvError::DecodeError);
    }
    let tag = buf[pos];
    proof {
        assert(buf@.skip(pos as int)[0] == buf@[pos as int]);
        assert(buf@.skip(pos as int).skip(1) =~= buf@.skip(pos as int + 1));
    }
    if !(tag == TAG_SUCCESS || tag == TAG_NOT_FOUND || tag == TAG_ERROR) {
        return Err(KvError::DecodeError);
    }
    let status = if tag == TAG_SUCCESS {
        Status::Success
    } else if tag == TAG_NOT_FOUND {
        Status::NotFound
    } else {
        Status::Error
    };
    let (message, p1) = match read_str(buf, pos + 1) {
        Ok(v) => v,
        Err(e) => {
            return Err(e);
        },
    };
    proof {
        assert(buf@.skip(pos as int + 1).skip(p1 - (pos + 1)) =~= buf@.skip(p1 as int));
    }
    let (nv, p2) = match read_u64(buf, p1) {
        Ok(v) => v,
        Err(e) => {
            return Err(e);
        },
    };
    proof {
        assert(buf@.skip(p1 as int).skip(8) =~= buf@.skip(p2 as int));
    }
    let (values, p3) = match read_value_seq(buf, p2, nv) {
        Ok(v) => v,
        Err(e) => {
            return Err(e);
        },
    };
    proof {
        assert(buf@.skip(p1 as int).skip(8 + (p3 - p2)) =~= buf@.skip(p3 as int));
    }
    let (np, p4) = match read_u64(buf, p3) {
        Ok(v) => v,
        Err(e) => {
            return Err(e);
        },
    };
    proof {
        assert(buf@.skip(p3 as int).skip(8) =~= buf@.skip(p4 as int));
    }
    let (pairs, p5) = match read_kvpair_seq(buf, p4, np) {
        Ok(v) => v,
        Err(e) => {
            return Err(e);
        },
    };
    let resp = CommandResponse { status, message, values, pairs };
    Ok((resp, p5))
}

/// Serializes one value alone, as a storage backend holds it.
pub fn serialize_value(v: &Value) -> (r: Vec<u8>)
    ensures
        r@ == ser_value(v@),
        wf_value(v@),
{
    let mut out: Vec<u8> = Vec::new();
    write_value(&mut out, v);
    proof {
        assert(out@ =~= ser_value(v@));
    }
    out
}

/// Deserializes a whole buffer as one value; trailing bytes are a decode
/// error.
pub fn deserialize_value(buf: &Vec<u8>) -> (r: Result<Value, KvError>)
    ensures
        parse_value_s(buf@) matches Some(p) ==> (if p.1 == buf@.len() {
            r matches Ok(v) && v@ == p.0
        } else {
            r matches Err(e) && e is DecodeError
        }),
        parse_value_s(buf@) is None ==> (r matches Err(e) && e is DecodeError),
{
    proof {
        assert(buf@.skip(0) =~= buf@);
    }
    match read_value(buf, 0) {
        Ok((v, used)) => {
            if used == buf.len() {
                Ok(v)
            } else {
                Err(KvError::DecodeError)
            }
        },
        Err(e) => Err(e),
    }
}

/// Deserializes a whole buffer as one request; trailing bytes are a decode
/// error.
pub fn deserialize_request(buf: &Vec<u8>) -> (r: Result<CommandRequest, KvError>)
    ensures
        parse_request_s(buf@) matches Some(p) ==> (if p.1 == buf@.len() {
            r matches Ok(m) && m@ == p.0
        } else {
            r matches Err(e) && e is DecodeError
        }),
        parse_request_s(buf@) is None ==> (r matches Err(e) && e is DecodeError),
{
    proof {
        assert(buf@.skip(0) =~= buf@);
    }
    match read_request(buf, 0) {
        Ok((m, used)) => {
            if used == buf.len() {
                Ok(m)
            } else {
                Err(KvError::DecodeError)
            }
        },
        Err(e) => Err(e),
    }
}

/// Deserializes a whole buffer as one response; trailing bytes are a decode
/// error.
pub fn deserialize_response(buf: &Vec<u8>) -> (r: Result<CommandResponse, KvError>)
    ensures
        parse_response_s(buf@) matches Some(p) ==> (if p.1 == buf@.len() {
            r matches Ok(m) && m@ == p.0
        } else {
            r matches Err(e) && e is DecodeError
        }),
        parse_response_s(buf@) is None ==> (r matches Err(e) && e is DecodeError),
{
    proof {
        assert(buf@.skip(0) =~= buf@);
    }
    match read_response(buf, 0) {
        Ok((m, used)) => {
            if used == buf.len() {
                Ok(m)
            } else {
                Err(KvError::DecodeError)
            }
        },
        Err(e) => Err(e),
    }
}

} // verus!
