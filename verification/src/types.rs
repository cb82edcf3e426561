//! Data model of the store: values, key-value pairs, requests, responses and
//! the error taxonomy, together with their mathematical views.
use vstd::prelude::*;
use vstd::std_specs::cmp::PartialEqSpec;

verus! {

/// Relies on String::push_str: appends the given string slice onto the end
/// of the string.
pub assume_specification[ String::push_str ](s: &mut String, other: &str)
    ensures
        final(s)@ == old(s)@ + other@,
;

/// A stored value: a tagged union over a 64-bit signed integer, a UTF-8
/// string, or a byte blob.
#[derive(Debug)]
pub enum Value {
    Integer(i64),
    Text(String),
    Binary(Vec<u8>),
}

/// Mathematical view of a [`Value`].
pub enum ValueModel {
    Integer(i64),
    Text(Seq<char>),
    Binary(Seq<u8>),
}

impl View for Value {
    type V = ValueModel;

    open spec fn view(&self) -> ValueModel {
        match self {
            Value::Integer(i) => ValueModel::Integer(*i),
            Value::Text(s) => ValueModel::Text(s@),
            Value::Binary(b) => ValueModel::Binary(b@),
        }
    }
}

impl Value {
    /// An independent copy holding the same abstract value.
    pub fn dup(&self) -> (r: Value)
        ensures
            r@ == self@,
    {
        match self {
            Value::Integer(i) => Value::Integer(*i),
            Value::Text(s) => Value::Text(s.clone()),
            Value::Binary(b) => {
                let c = b.clone();
                assert(c@ =~= b@);
                Value::Binary(c)
            },
        }
    }
}

/// Byte-vector equality, stated over the views.
pub fn bytes_eq(a: &Vec<u8>, b: &Vec<u8>) -> (r: bool)
    ensures
        r == (a@ == b@),
{
    if a.len() != b.len() {
        proof {
            if a@ == b@ {
                assert(a@.len() == b@.len());
            }
        }
        return false;
    }
    let n = a.len();
    let mut i: usize = 0;
    while i < n
        invariant
            0 <= i <= n,
            n == a@.len() == b@.len(),
            forall|j: int| 0 <= j < i ==> a@[j] == b@[j],
        decreases n - i,
    {
        if a[i] != b[i] {
            proof {
                if a@ == b@ {
                    assert(a@[i as int] == b@[i as int]);
                }
            }
            return false;
        }
        i += 1;
    }
    proof {
        assert(a@ =~= b@);
    }
    true
}

impl PartialEq for Value {
    fn eq(&self, other: &Value) -> (r: bool) {
        match (self, other) {
            (Value::Integer(a), Value::Integer(b)) => *a == *b,
            (Value::Text(a), Value::Text(b)) => *a == *b,
            (Value::Binary(a), Value::Binary(b)) => bytes_eq(a, b),
            _ => false,
        }
    }
}

impl vstd::std_specs::cmp::PartialEqSpecImpl for Value {
    open spec fn obeys_eq_spec() -> bool {
        true
    }

    open spec fn eq_spec(&self, other: &Value) -> bool {
        self@ == other@
    }
}

impl Eq for Value {}

/// A key together with its value, as produced by a table scan.
#[derive(Debug)]
pub struct Kvpair {
    pub key: String,
    pub value: Value,
}

/// Mathematical view of a [`Kvpair`].
pub struct KvpairModel {
    pub key: Seq<char>,
    pub value: ValueModel,
}

impl View for Kvpair {
    type V = KvpairModel;

    open spec fn view(&self) -> KvpairModel {
        KvpairModel { key: self.key@, value: self.value@ }
    }
}

impl Kvpair {
    pub fn new(key: String, value: Value) -> (r: Kvpair)
        ensures
            r@.key == key@,
            r@.value == value@,
    {
        Kvpair { key, value }
    }
}

impl PartialEq for Kvpair {
    fn eq(&self, other: &Kvpair) -> (r: bool) {
        self.key == other.key && self.value == other.value
    }
}

impl vstd::std_specs::cmp::PartialEqSpecImpl for Kvpair {
    open spec fn obeys_eq_spec() -> bool {
        true
    }

    open spec fn eq_spec(&self, other: &Kvpair) -> bool {
        self@ == other@
    }
}

impl Eq for Kvpair {}

/// A request, as decoded from the wire: one storage operation on one table.
#[derive(Debug)]
pub enum CommandRequest {
    Get { table: String, key: String },
    Put { table: String, key: String, value: Value },
    Delete { table: String, key: String },
    Contains { table: String, key: String },
    GetAll { table: String },
}

/// Mathematical view of a [`CommandRequest`].
pub enum RequestModel {
    Get { table: Seq<char>, key: Seq<char> },
    Put { table: Seq<char>, key: Seq<char>, value: ValueModel },
    Delete { table: Seq<char>, key: Seq<char> },
    Contains { table: Seq<char>, key: Seq<char> },
    GetAll { table: Seq<char> },
}

impl View for CommandRequest {
    type V = RequestModel;

    open spec fn view(&self) -> RequestModel {
        match self {
            CommandRequest::Get { table, key } => RequestModel::Get {
                table: table@,
                key: key@,
            },
            CommandRequest::Put { table, key, value } => RequestModel::Put {
                table: table@,
                key: key@,
                value: value@,
            },
            CommandRequest::Delete { table, key } => RequestModel::Delete {
                table: table@,
                key: key@,
            },
            CommandRequest::Contains { table, key } => RequestModel::Contains {
                table: table@,
                key: key@,
            },
            CommandRequest::GetAll { table } => RequestModel::GetAll { table: table@ },
        }
    }
}

impl PartialEq for CommandRequest {
    fn eq(&self, other: &CommandRequest) -> (r: bool) {
        match (self, other) {
            (
                CommandRequest::Get { table: t1, key: k1 },
                CommandRequest::Get { table: t2, key: k2 },
            ) => *t1 == *t2 && *k1 == *k2,
            (
                CommandRequest::Put { table: t1, key: k1, value: v1 },
                CommandRequest::Put { table: t2, key: k2, value: v2 },
            ) => *t1 == *t2 && *k1 == *k2 && *v1 == *v2,
            (
                CommandRequest::Delete { table: t1, key: k1 },
                CommandRequest::Delete { table: t2, key: k2 },
            ) => *t1 == *t2 && *k1 == *k2,
            (
                CommandRequest::Contains { table: t1, key: k1 },
                CommandRequest::Contains { table: t2, key: k2 },
            ) => *t1 == *t2 && *k1 == *k2,
            (
                CommandRequest::GetAll { table: t1 },
                CommandRequest::GetAll { table: t2 },
            ) => *t1 == *t2,
            _ => false,
        }
    }
}

impl vstd::std_specs::cmp::PartialEqSpecImpl for CommandRequest {
    open spec fn obeys_eq_spec() -> bool {
        true
    }

    open spec fn eq_spec(&self, other: &CommandRequest) -> bool {
        self@ == other@
    }
}

impl Eq for CommandRequest {}

impl CommandRequest {
    pub fn new_get(table: String, key: String) -> (r: CommandRequest)
        ensures
            r@ == (RequestModel::Get { table: table@, key: key@ }),
    {
        CommandRequest::Get { table, key }
    }

    pub fn new_set(table: String, key: String, value: Value) -> (r: CommandRequest)
        ensures
            r@ == (RequestModel::Put { table: table@, key: key@, value: value@ }),
    {
        CommandRequest::Put { table, key, value }
    }

    pub fn new_delete(table: String, key: String) -> (r: CommandRequest)
        ensures
            r@ == (RequestModel::Delete { table: table@, key: key@ }),
    {
        CommandRequest::Delete { table, key }
    }

    pub fn new_contains(table: String, key: String) -> (r: CommandRequest)
        ensures
            r@ == (RequestModel::Contains { table: table@, key: key@ }),
    {
        CommandRequest::Contains { table, key }
    }

    pub fn new_get_all(table: String) -> (r: CommandRequest)
        ensures
            r@ == (RequestModel::GetAll { table: table@ }),
    {
        CommandRequest::GetAll { table }
    }
}

/// Outcome classification of one request.
#[derive(Clone, Copy, PartialEq, Eq, Structural, Debug)]
pub enum Status {
    Success,
    NotFound,
    Error,
}

/// A response: a status, a human-readable message, and the values or pairs
/// the operation produced.
#[derive(Debug)]
pub struct CommandResponse {
    pub status: Status,
    pub message: String,
    pub values: Vec<Value>,
    pub pairs: Vec<Kvpair>,
}

/// Mathematical view of a [`CommandResponse`].
pub struct ResponseModel {
    pub status: Status,
    pub message: Seq<char>,
    pub values: Seq<ValueModel>,
    pub pairs: Seq<KvpairModel>,
}

/// The views of a sequence of values.
pub open spec fn value_views(s: Seq<Value>) -> Seq<ValueModel> {
    s.map_values(|v: Value| v@)
}

/// The views of a sequence of pairs.
pub open spec fn kvpair_views(s: Seq<Kvpair>) -> Seq<KvpairModel> {
    s.map_values(|p: Kvpair| p@)
}

impl View for CommandResponse {
    type V = ResponseModel;

    open spec fn view(&self) -> ResponseModel {
        ResponseModel {
            status: self.status,
            message: self.message@,
            values: value_views(self.values@),
            pairs: kvpair_views(self.pairs@),
        }
    }
}

/// Value-vector equality, stated over the views.
pub fn values_eq(a: &Vec<Value>, b: &Vec<Value>) -> (r: bool)
    ensures
        r == (value_views(a@) == value_views(b@)),
{
    if a.len() != b.len() {
        proof {
            if value_views(a@) == value_views(b@) {
                assert(value_views(a@).len() == value_views(b@).len());
            }
        }
        return false;
    }
    let n = a.len();
    let mut i: usize = 0;
    while i < n
        invariant
            0 <= i <= n,
            n == a@.len() == b@.len(),
            forall|j: int| 0 <= j < i ==> a@[j]@ == b@[j]@,
        decreases n - i,
    {
        if !(a[i] == b[i]) {
            proof {
                if value_views(a@) == value_views(b@) {
                    assert(value_views(a@)[i as int] == value_views(b@)[i as int]);
                }
            }
            return false;
        }
        i += 1;
    }
    proof {
        assert(value_views(a@) =~= value_views(b@));
    }
    true
}

/// Pair-vector equality, stated over the views.
pub fn pairs_eq(a: &Vec<Kvpair>, b: &Vec<Kvpair>) -> (r: bool)
    ensures
        r == (kvpair_views(a@) == kvpair_views(b@)),
{
    if a.len() != b.len() {
        proof {
            if kvpair_views(a@) == kvpair_views(b@) {
                assert(kvpair_views(a@).len() == kvpair_views(b@).len());
            }
        }
        return false;
    }
    let n = a.len();
    let mut i: usize = 0;
    while i < n
        invariant
            0 <= i <= n,
            n == a@.len() == b@.len(),
            forall|j: int| 0 <= j < i ==> a@[j]@ == b@[j]@,
        decreases n - i,
    {
        if !(a[i] == b[i]) {
            proof {
                if kvpair_views(a@) == kvpair_views(b@) {
                    assert(kvpair_views(a@)[i as int] == kvpair_views(b@)[i as int]);
                }
            }
            return false;
        }
        i += 1;
    }
    proof {
        assert(kvpair_views(a@) =~= kvpair_views(b@));
    }
    true
}

impl PartialEq for CommandResponse {
    fn eq(&self, other: &CommandResponse) -> (r: bool) {
        self.status == other.status && self.message == other.message
            && values_eq(&self.values, &other.values) && pairs_eq(&self.pairs, &other.pairs)
    }
}

impl vstd::std_specs::cmp::PartialEqSpecImpl for CommandResponse {
    open spec fn obeys_eq_spec() -> bool {
        true
    }

    open spec fn eq_spec(&self, other: &CommandResponse) -> bool {
        self@ == other@
    }
}

impl Eq for CommandResponse {}

/// Everything that can go wrong while framing, decoding, storing or loading
/// key material. `NotFound` is reported through [`Status`], never through
/// this type.
#[derive(Debug)]
pub enum KvError {
    /// A message's serialized form does not fit the 30-bit frame length.
    FrameTooLarge,
    /// Frame or payload bytes do not form a valid serialized message.
    DecodeError,
    /// The storage backend failed; the detail names the backend fault.
    BackendError(String),
    /// Stored bytes could not be decoded into a value.
    SerializationError,
    /// PEM key material could not be parsed; the fields name the artifact
    /// and what was looked for in it.
    CertificateParseError(String, String),
    /// The transport-security handshake failed.
    TlsHandshakeError,
}

impl KvError {
    /// A human-readable rendering, used for the message field of an
    /// error-status response.
    pub fn message(&self) -> (r: String)
        ensures
            r@ == self.message_spec(),
    {
        match self {
            KvError::FrameTooLarge => "frame too large".to_owned(),
            KvError::DecodeError => "decode error".to_owned(),
            KvError::BackendError(s) => {
                let mut m = "backend error: ".to_owned();
                m.push_str(s.as_str());
                m
            },
            KvError::SerializationError => "serialization error".to_owned(),
            KvError::CertificateParseError(a, b) => {
                let mut m = "certificate parse error: ".to_owned();
                m.push_str(a.as_str());
                m.push_str(" ");
                m.push_str(b.as_str());
                m
            },
            KvError::TlsHandshakeError => "tls handshake error".to_owned(),
        }
    }

    /// What [`KvError::message`] returns, as a function of the error value.
    pub open spec fn message_spec(&self) -> Seq<char> {
        match self {
            KvError::FrameTooLarge => "frame too large"@,
            KvError::DecodeError => "decode error"@,
            KvError::BackendError(s) => "backend error: "@ + s@,
            KvError::SerializationError => "serialization error"@,
            KvError::CertificateParseError(a, b) => "certificate parse error: "@ + a@ + " "@
                + b@,
            KvError::TlsHandshakeError => "tls handshake error"@,
        }
    }
}

} // verus!
