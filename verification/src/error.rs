//! The typed failure reasons of the store and their rendered messages.

use vstd::prelude::*;
use vstd::string::StringExecFns;
use vstd::string::StrSliceExecFns;

verus! {

/// A typed failure reason. Every error converts deterministically to a
/// response status: `InvalidCommand` to 400, `NotFound` to 404, all others
/// to 500.
#[derive(Debug)]
pub enum KvError {
    /// The request carried no usable command; the payload names it.
    InvalidCommand(String),
    /// An internal defect; the payload describes it.
    Internal(String),
    /// The table (first field) holds nothing under the key (second field).
    NotFound(String, String),
    /// A message could not be encoded to bytes.
    EncodeError,
    /// Stored or received bytes could not be decoded.
    DecodeError,
    /// The durable backend could not be read or written.
    SledError,
}

/// The model of a `KvError`.
pub enum KvErrorV {
    InvalidCommand(Seq<char>),
    Internal(Seq<char>),
    NotFound(Seq<char>, Seq<char>),
    EncodeError,
    DecodeError,
    SledError,
}

impl View for KvError {
    type V = KvErrorV;

    open spec fn view(&self) -> KvErrorV {
        match self {
            KvError::InvalidCommand(s) => KvErrorV::InvalidCommand(s@),
            KvError::Internal(s) => KvErrorV::Internal(s@),
            KvError::NotFound(t, k) => KvErrorV::NotFound(t@, k@),
            KvError::EncodeError => KvErrorV::EncodeError,
            KvError::DecodeError => KvErrorV::DecodeError,
            KvError::SledError => KvErrorV::SledError,
        }
    }
}

/// The human-readable rendering of an error, as a sequence of characters.
pub open spec fn error_message(e: KvErrorV) -> Seq<char> {
    match e {
        KvErrorV::InvalidCommand(s) => "Command is invalid: `"@ + s + "`"@,
        KvErrorV::Internal(s) => "Internal error: "@ + s,
        KvErrorV::NotFound(t, k) => "Not found for table: "@ + t + ", key: "@ + k,
        KvErrorV::EncodeError => "Fail to encode protobuf message"@,
        KvErrorV::DecodeError => "Fail to decode protobuf message"@,
        KvErrorV::SledError => "Failed to access sled db"@,
    }
}

/// `sub` stands inside `s` starting at position `i`.
pub open spec fn str_contains_at(s: Seq<char>, sub: Seq<char>, i: int) -> bool {
    &&& 0 <= i
    &&& i + sub.len() <= s.len()
    &&& s.subrange(i, i + sub.len()) == sub
}

/// `sub` stands somewhere inside `s`.
pub open spec fn str_contains(s: Seq<char>, sub: Seq<char>) -> bool {
    exists|i: int| str_contains_at(s, sub, i)
}

/// Whether `sub` stands inside `s` starting at position `i`.
fn match_at(s: &str, sub: &str, i: usize) -> (r: bool)
    requires
        i + sub@.len() <= s@.len(),
        s@.len() <= usize::MAX,
    ensures
        r == str_contains_at(s@, sub@, i as int),
{
    let m = sub.unicode_len();
    let mut j: usize = 0;
    while j < m
        invariant
            j <= m,
            m == sub@.len(),
            i + m <= s@.len(),
            s@.len() <= usize::MAX,
            forall|l: int| 0 <= l < j ==> s@[i + l] == sub@[l],
        decreases m - j,
    {
        if s.get_char(i + j) != sub.get_char(j) {
            proof {
                assert(s@.subrange(i as int, i + m) != sub@) by {
                    if s@.subrange(i as int, i + m) == sub@ {
                        assert(s@.subrange(i as int, i + m)[j as int] == s@[i + j]);
                    }
                }
            }
            return false;
        }
        j = j + 1;
    }
    proof {
        assert(s@.subrange(i as int, i + m) =~= sub@);
    }
    true
}

/// Whether the text `sub` stands anywhere inside `s`.
pub fn contains_str(s: &str, sub: &str) -> (r: bool)
    ensures
        r == str_contains(s@, sub@),
{
    let n = s.unicode_len();
    let m = sub.unicode_len();
    if m > n {
        proof {
            assert forall|i: int| !str_contains_at(s@, sub@, i) by {}
        }
        return false;
    }
    let mut i: usize = 0;
    while i <= n - m
        invariant
            m <= n,
            n == s@.len(),
            m == sub@.len(),
            i <= n - m + 1,
            forall|l: int| 0 <= l < i ==> !str_contains_at(s@, sub@, l),
        decreases n - m + 1 - i,
    {
        if match_at(s, sub, i) {
            return true;
        }
        proof {
            if sub@.len() == 0 {
                assert(s@.subrange(i as int, i as int) =~= sub@);
                assert(str_contains_at(s@, sub@, i as int));
            }
        }
        i = i + 1;
    }
    proof {
        assert forall|l: int| !str_contains_at(s@, sub@, l) by {
            if 0 <= l <= n - m {
                assert(!str_contains_at(s@, sub@, l));
            }
        }
    }
    false
}

/// A missing key is always reported with the words "Not found", whatever
/// the table and the key were.
pub proof fn lemma_not_found_message(t: Seq<char>, k: Seq<char>)
    ensures
        str_contains(error_message(KvErrorV::NotFound(t, k)), "Not found"@),
{
    reveal_strlit("Not found for table: ");
    reveal_strlit("Not found");
    let m = error_message(KvErrorV::NotFound(t, k));
    assert(m.subrange(0, 9) =~= "Not found"@);
    assert(str_contains_at(m, "Not found"@, 0));
}

impl KvError {
    /// Render the error as its human-readable message.
    pub fn message(&self) -> (r: String)
        ensures
            r@ == error_message(self@),
    {
        match self {
            KvError::InvalidCommand(s) => {
                let mut m = "Command is invalid: `".to_owned();
                m.append(s.as_str());
                m.append("`");
                m
            },
            KvError::Internal(s) => {
                let mut m = "Internal error: ".to_owned();
                m.append(s.as_str());
                m
            },
            KvError::NotFound(t, k) => {
                let mut m = "Not found for table: ".to_owned();
                m.append(t.as_str());
                m.append(", key: ");
                m.append(k.as_str());
                m
            },
            KvError::EncodeError => "Fail to encode protobuf message".to_owned(),
            KvError::DecodeError => "Fail to decode protobuf message".to_owned(),
            KvError::SledError => "Failed to access sled db".to_owned(),
        }
    }
}

} // verus!
