//! The data model moved through the system: values, key/value pairs,
//! command requests and command responses.

use vstd::prelude::*;
use crate::error::{KvError, KvErrorV, error_message};

verus! {

/// A stored value: a tagged union over nothing, text, a signed integer,
/// raw bytes and a boolean.
pub enum Value {
    Nil,
    Str(String),
    Int(i64),
    Bin(Vec<u8>),
    Bool(bool),
}

/// The mathematical model of a `Value`.
pub enum ValueV {
    Nil,
    Str(Seq<char>),
    Int(i64),
    Bin(Seq<u8>),
    Bool(bool),
}

impl View for Value {
    type V = ValueV;

    open spec fn view(&self) -> ValueV {
        match self {
            Value::Nil => ValueV::Nil,
            Value::Str(s) => ValueV::Str(s@),
            Value::Int(i) => ValueV::Int(*i),
            Value::Bin(b) => ValueV::Bin(b@),
            Value::Bool(b) => ValueV::Bool(*b),
        }
    }
}

impl Clone for Value {
    fn clone(&self) -> (r: Self)
        ensures
            r@ == self@,
    {
        match self {
            Value::Nil => Value::Nil,
            Value::Str(s) => Value::Str(s.clone()),
            Value::Int(i) => Value::Int(*i),
            Value::Bin(b) => Value::Bin(b.clone()),
            Value::Bool(b) => Value::Bool(*b),
        }
    }
}

impl Default for Value {
    /// The default value is the empty (`Nil`) value.
    fn default() -> (r: Self)
        ensures
            r@ == ValueV::Nil,
    {
        Value::Nil
    }
}

impl Value {
    /// Wrap borrowed text in a value.
    pub fn of_str(s: &str) -> (r: Self)
        ensures
            r@ == ValueV::Str(s@),
    {
        Value::Str(s.to_owned())
    }

    /// Wrap owned text in a value.
    pub fn of_string(s: String) -> (r: Self)
        ensures
            r@ == ValueV::Str(s@),
    {
        Value::Str(s)
    }

    /// Wrap a signed integer in a value.
    pub fn of_int(i: i64) -> (r: Self)
        ensures
            r@ == ValueV::Int(i),
    {
        Value::Int(i)
    }

    /// Wrap raw bytes in a value.
    pub fn of_bytes(b: Vec<u8>) -> (r: Self)
        ensures
            r@ == ValueV::Bin(b@),
    {
        Value::Bin(b)
    }

    /// Wrap a boolean in a value.
    pub fn of_bool(b: bool) -> (r: Self)
        ensures
            r@ == ValueV::Bool(b),
    {
        Value::Bool(b)
    }
}

/// Whether two values hold the same content.
pub fn value_eq(a: &Value, b: &Value) -> (r: bool)
    ensures
        r == (a@ == b@),
{
    match (a, b) {
        (Value::Nil, Value::Nil) => true,
        (Value::Str(x), Value::Str(y)) => crate::storage::str_eq(x.as_str(), y.as_str()),
        (Value::Int(x), Value::Int(y)) => *x == *y,
        (Value::Bin(x), Value::Bin(y)) => bytes_eq(x, y),
        (Value::Bool(x), Value::Bool(y)) => *x == *y,
        _ => {
            proof {
                assert(a@ != b@);
            }
            false
        },
    }
}

/// Whether two byte strings are equal.
pub fn bytes_eq(a: &Vec<u8>, b: &Vec<u8>) -> (r: bool)
    ensures
        r == (a@ == b@),
{
    if a.len() != b.len() {
        return false;
    }
    let mut i: usize = 0;
    while i < a.len()
        invariant
            i <= a@.len(),
            a@.len() == b@.len(),
            forall|j: int| 0 <= j < i ==> a@[j] == b@[j],
        decreases a@.len() - i,
    {
        if a[i] != b[i] {
            return false;
        }
        i = i + 1;
    }
    proof {
        assert(a@ =~= b@);
    }
    true
}

/// A key together with its value.
pub struct Kvpair {
    pub key: String,
    pub value: Value,
}

/// The mathematical model of a `Kvpair`.
pub struct KvpairV {
    pub key: Seq<char>,
    pub value: ValueV,
}

impl View for Kvpair {
    type V = KvpairV;

    open spec fn view(&self) -> KvpairV {
        KvpairV { key: self.key@, value: self.value@ }
    }
}

impl Clone for Kvpair {
    fn clone(&self) -> (r: Self)
        ensures
            r@ == self@,
    {
        Kvpair { key: self.key.clone(), value: self.value.clone() }
    }
}

impl Kvpair {
    /// Pair a key with a value.
    pub fn new(key: &str, value: Value) -> (r: Self)
        ensures
            r@ == (KvpairV { key: key@, value: value@ }),
    {
        Kvpair { key: key.to_owned(), value }
    }
}

/// Whether two pairs hold the same key and the same value.
pub fn kvpair_eq(a: &Kvpair, b: &Kvpair) -> (r: bool)
    ensures
        r == (a@ == b@),
{
    let ke = a.key == b.key;
    if !ke {
        return false;
    }
    value_eq(&a.value, &b.value)
}

/// Fetch one value: the table and the key to read.
pub struct Hget {
    pub table: String,
    pub key: String,
}

/// Fetch a whole table: the table to scan.
pub struct Hgetall {
    pub table: String,
}

/// Write one pair into a table. A request without a pair is invalid.
pub struct Hset {
    pub table: String,
    pub pair: Option<Kvpair>,
}

/// The model of an optional pair.
pub open spec fn opt_pair_view(o: Option<Kvpair>) -> Option<KvpairV> {
    match o {
        Some(p) => Some(p@),
        None => None,
    }
}

/// The command carried by a request; exactly one variant is active.
pub enum RequestData {
    Hget(Hget),
    Hgetall(Hgetall),
    Hset(Hset),
}

/// The mathematical model of a request's command.
pub enum RequestDataV {
    Hget(Seq<char>, Seq<char>),
    Hgetall(Seq<char>),
    Hset(Seq<char>, Option<KvpairV>),
}

impl View for RequestData {
    type V = RequestDataV;

    open spec fn view(&self) -> RequestDataV {
        match self {
            RequestData::Hget(h) => RequestDataV::Hget(h.table@, h.key@),
            RequestData::Hgetall(h) => RequestDataV::Hgetall(h.table@),
            RequestData::Hset(h) => RequestDataV::Hset(h.table@, opt_pair_view(h.pair)),
        }
    }
}

/// A client request. A request whose `request_data` is absent carries no
/// command and is answered with an invalid-command error.
pub struct CommandRequest {
    pub request_data: Option<RequestData>,
}

impl View for CommandRequest {
    type V = Option<RequestDataV>;

    open spec fn view(&self) -> Option<RequestDataV> {
        match &self.request_data {
            Some(d) => Some(d@),
            None => None,
        }
    }
}

impl CommandRequest {
    /// Build a write command for one pair in a table.
    pub fn new_hset(table: &str, key: &str, value: Value) -> (r: Self)
        ensures
            r@ == Some(RequestDataV::Hset(table@, Some(KvpairV { key: key@, value: value@ }))),
    {
        CommandRequest {
            request_data: Some(RequestData::Hset(Hset {
                table: table.to_owned(),
                pair: Some(Kvpair::new(key, value)),
            })),
        }
    }

    /// Build a read command for one key in a table.
    pub fn new_hget(table: &str, key: &str) -> (r: Self)
        ensures
            r@ == Some(RequestDataV::Hget(table@, key@)),
    {
        CommandRequest {
            request_data: Some(RequestData::Hget(Hget {
                table: table.to_owned(),
                key: key.to_owned(),
            })),
        }
    }

    /// Build a command that reads a whole table.
    pub fn new_hget_all(table: &str) -> (r: Self)
        ensures
            r@ == Some(RequestDataV::Hgetall(table@)),
    {
        CommandRequest {
            request_data: Some(RequestData::Hgetall(Hgetall { table: table.to_owned() })),
        }
    }
}

/// A typed response: a numeric status with HTTP-like meaning (200 OK,
/// 400 bad request, 404 not found, 500 internal), a message (empty on
/// success), and at most one populated payload sequence.
pub struct CommandResponse {
    pub status: u32,
    pub message: String,
    pub values: Vec<Value>,
    pub pairs: Vec<Kvpair>,
}

/// The mathematical model of a `CommandResponse`.
pub struct CommandResponseV {
    pub status: u32,
    pub message: Seq<char>,
    pub values: Seq<ValueV>,
    pub pairs: Seq<KvpairV>,
}

impl View for CommandResponse {
    type V = CommandResponseV;

    open spec fn view(&self) -> CommandResponseV {
        CommandResponseV {
            status: self.status,
            message: self.message@,
            values: self.values@.map_values(|v: Value| v@),
            pairs: self.pairs@.map_values(|p: Kvpair| p@),
        }
    }
}

/// The status code that a typed error maps to: invalid commands are the
/// caller's fault (400), a missing key is 404, everything else is 500.
pub open spec fn status_of(e: KvErrorV) -> u32 {
    match e {
        KvErrorV::InvalidCommand(_) => 400u32,
        KvErrorV::NotFound(_, _) => 404u32,
        _ => 500u32,
    }
}

/// A successful response carrying exactly one value.
pub open spec fn resp_ok_value(r: CommandResponseV, v: ValueV) -> bool {
    &&& r.status == 200u32
    &&& r.message == Seq::<char>::empty()
    &&& r.values == seq![v]
    &&& r.pairs == Seq::<KvpairV>::empty()
}

/// A successful response carrying a sequence of pairs.
pub open spec fn resp_ok_pairs(r: CommandResponseV, pairs: Seq<KvpairV>) -> bool {
    &&& r.status == 200u32
    &&& r.message == Seq::<char>::empty()
    &&& r.values == Seq::<ValueV>::empty()
    &&& r.pairs == pairs
}

/// The response an error converts to: its status, its rendered message,
/// and empty payloads.
pub open spec fn resp_error(r: CommandResponseV, e: KvErrorV) -> bool {
    &&& r.status == status_of(e)
    &&& r.message == error_message(e)
    &&& r.values == Seq::<ValueV>::empty()
    &&& r.pairs == Seq::<KvpairV>::empty()
}

impl CommandResponse {
    /// A success response that wraps the single value `v`.
    pub fn ok_value(v: Value) -> (r: Self)
        ensures
            resp_ok_value(r@, v@),
    {
        let ghost gv = v@;
        let mut values: Vec<Value> = Vec::new();
        values.push(v);
        let r = CommandResponse {
            status: 200,
            message: String::new(),
            values,
            pairs: Vec::new(),
        };
        proof {
            assert(r@.values =~= seq![gv]);
            assert(r@.pairs =~= Seq::<KvpairV>::empty());
        }
        r
    }

    /// A success response that carries the pairs of a table scan.
    pub fn ok_pairs(pairs: Vec<Kvpair>) -> (r: Self)
        ensures
            resp_ok_pairs(r@, pairs@.map_values(|p: Kvpair| p@)),
    {
        let r = CommandResponse {
            status: 200,
            message: String::new(),
            values: Vec::new(),
            pairs,
        };
        proof {
            assert(r@.values =~= Seq::<ValueV>::empty());
        }
        r
    }

    /// The response a typed error converts to.
    pub fn from_error(e: KvError) -> (r: Self)
        ensures
            resp_error(r@, e@),
    {
        let status: u32 = match &e {
            KvError::InvalidCommand(_) => 400,
            KvError::NotFound(_, _) => 404,
            _ => 500,
        };
        let r = CommandResponse {
            status,
            message: e.message(),
            values: Vec::new(),
            pairs: Vec::new(),
        };
        proof {
            assert(r@.values =~= Seq::<ValueV>::empty());
            assert(r@.pairs =~= Seq::<KvpairV>::empty());
        }
        r
    }
}

} // verus!
