//! The byte form a value takes in the durable backend: one tag byte that
//! names the variant, then the payload, filling the rest of the record.

use vstd::prelude::*;
use vstd::bytes::{
    spec_u64_to_le_bytes, spec_u64_from_le_bytes, u64_to_le_bytes, u64_from_le_bytes,
    lemma_auto_spec_u64_to_from_le_bytes,
};
use vstd::utf8::{encode_utf8, decode_utf8, valid_utf8};
use vstd::slice::{slice_subrange, slice_to_vec};
use vstd::string::StrSliceExecFns;
use crate::pb::{Value, ValueV};
use crate::error::KvError;

verus! {

/// The sign tag of an integer: 0 for non-negative, 1 for negative.
pub open spec fn int_sign(i: i64) -> u8 {
    if i >= 0 {
        0u8
    } else {
        1u8
    }
}

/// The magnitude stored for an integer: the value itself when
/// non-negative, and `-(i + 1)` when negative, so that every `i64` fits
/// in a `u64` without overflow.
pub open spec fn int_mag(i: i64) -> u64 {
    if i >= 0 {
        i as u64
    } else {
        (-(i + 1)) as u64
    }
}

/// The bytes a value is stored as.
pub open spec fn enc_value(v: ValueV) -> Seq<u8> {
    match v {
        ValueV::Nil => seq![0u8],
        ValueV::Str(s) => seq![1u8] + encode_utf8(s),
        ValueV::Int(i) => seq![2u8, int_sign(i)] + spec_u64_to_le_bytes(int_mag(i)),
        ValueV::Bin(b) => seq![3u8] + b,
        ValueV::Bool(b) => seq![
            4u8,
            if b {
                1u8
            } else {
                0u8
            },
        ],
    }
}

/// The shape of every encoding: its length, its tag byte, and how its
/// payload sits after the tag.
pub proof fn lemma_enc_shape(v: ValueV)
    ensures
        enc_value(v).len() >= 1,
        (match v {
            ValueV::Nil => enc_value(v) == seq![0u8],
            ValueV::Str(s) => {
                &&& enc_value(v)[0] == 1u8
                &&& enc_value(v).len() == 1 + encode_utf8(s).len()
                &&& enc_value(v).subrange(1, enc_value(v).len() as int) == encode_utf8(s)
            },
            ValueV::Int(i) => {
                &&& enc_value(v)[0] == 2u8
                &&& enc_value(v).len() == 10
                &&& enc_value(v)[1] == int_sign(i)
                &&& enc_value(v).subrange(2, 10) == spec_u64_to_le_bytes(int_mag(i))
            },
            ValueV::Bin(b) => {
                &&& enc_value(v)[0] == 3u8
                &&& enc_value(v).len() == 1 + b.len()
                &&& enc_value(v).subrange(1, enc_value(v).len() as int) == b
            },
            ValueV::Bool(b) => enc_value(v) == seq![
                4u8,
                if b {
                    1u8
                } else {
                    0u8
                },
            ],
        }),
{
    lemma_auto_spec_u64_to_from_le_bytes();
    match v {
        ValueV::Nil => {},
        ValueV::Str(s) => {
            assert(enc_value(v).subrange(1, enc_value(v).len() as int) =~= encode_utf8(s));
        },
        ValueV::Int(i) => {
            assert(enc_value(v).subrange(2, 10) =~= spec_u64_to_le_bytes(int_mag(i)));
        },
        ValueV::Bin(b) => {
            assert(enc_value(v).subrange(1, enc_value(v).len() as int) =~= b);
        },
        ValueV::Bool(b) => {},
    }
}

/// Law: the encoding is injective — two values stored as the same bytes
/// are the same value.
pub proof fn lemma_enc_value_injective(a: ValueV, b: ValueV)
    requires
        enc_value(a) == enc_value(b),
    ensures
        a == b,
{
    lemma_auto_spec_u64_to_from_le_bytes();
    lemma_enc_shape(a);
    lemma_enc_shape(b);
    broadcast use vstd::utf8::encode_utf8_decode_utf8;

    match (a, b) {
        (ValueV::Str(s1), ValueV::Str(s2)) => {
            assert(encode_utf8(s1) == encode_utf8(s2));
            assert(decode_utf8(encode_utf8(s1)) == s1);
            assert(decode_utf8(encode_utf8(s2)) == s2);
        },
        (ValueV::Int(i1), ValueV::Int(i2)) => {
            assert(int_sign(i1) == int_sign(i2));
            assert(spec_u64_to_le_bytes(int_mag(i1)) == spec_u64_to_le_bytes(int_mag(i2)));
            assert(int_mag(i1) == int_mag(i2)) by {
                assert(spec_u64_from_le_bytes(spec_u64_to_le_bytes(int_mag(i1)))
                    == spec_u64_from_le_bytes(spec_u64_to_le_bytes(int_mag(i2))));
            }
            assert(i1 == i2);
        },
        (ValueV::Bin(b1), ValueV::Bin(b2)) => {
            assert(b1 == b2);
        },
        _ => {},
    }
}

/// Store a value as bytes.
pub fn encode_value(v: &Value) -> (r: Vec<u8>)
    ensures
        r@ == enc_value(v@),
{
    let mut out: Vec<u8> = Vec::new();
    match v {
        Value::Nil => {
            out.push(0u8);
            proof {
                assert(out@ =~= enc_value(v@));
            }
        },
        Value::Str(s) => {
            out.push(1u8);
            let mut payload = s.as_str().as_bytes_vec();
            out.append(&mut payload);
            proof {
                assert(out@ =~= enc_value(v@));
            }
        },
        Value::Int(i) => {
            out.push(2u8);
            let mag: u64;
            if *i >= 0 {
                out.push(0u8);
                mag = *i as u64;
            } else {
                out.push(1u8);
                mag = (-(*i + 1)) as u64;
            }
            let mut mb = u64_to_le_bytes(mag);
            out.append(&mut mb);
            proof {
                assert(out@ =~= enc_value(v@));
            }
        },
        Value::Bin(b) => {
            out.push(3u8);
            let mut payload = slice_to_vec(b.as_slice());
            out.append(&mut payload);
            proof {
                assert(out@ =~= enc_value(v@));
            }
        },
        Value::Bool(b) => {
            out.push(4u8);
            out.push(if *b {
                1u8
            } else {
                0u8
            });
            proof {
                assert(out@ =~= enc_value(v@));
            }
        },
    }
    out
}

/// Relies on std's `String::from_utf8`: it succeeds exactly on valid
/// UTF-8 and returns the text those bytes spell.
#[verifier::external_body]
fn bytes_to_string(v: Vec<u8>) -> (r: Result<String, ()>)
    ensures
        (match r {
            Ok(s) => valid_utf8(v@) && s@ == decode_utf8(v@),
            Err(_) => !valid_utf8(v@),
        }),
{
    match String::from_utf8(v) {
        Ok(s) => Ok(s),
        Err(_) => Err(()),
    }
}

/// Read a value back from stored bytes. Exactly the byte strings that
/// some value is stored as decode, and they decode to that value.
pub fn decode_value(bytes: &Vec<u8>) -> (r: Result<Value, KvError>)
    ensures
        (match r {
            Ok(v) => bytes@ == enc_value(v@),
            Err(e) => (forall|w: ValueV| bytes@ != enc_value(w)) && e@ is DecodeError,
        }),
        (forall|w: ValueV| bytes@ == (#[trigger] enc_value(w)) ==> r is Ok && r->Ok_0@ == w),
{
    let r = decode_value_inner(bytes);
    proof {
        if r is Ok {
            assert forall|w: ValueV| bytes@ == (#[trigger] enc_value(w)) implies r is Ok
                && r->Ok_0@ == w by {
                lemma_enc_value_injective(r->Ok_0@, w);
            }
        }
    }
    r
}

/// The parser behind `decode_value`: sound (a decoded value is stored as
/// exactly these bytes) and complete (bytes no value is stored as are
/// rejected).
fn decode_value_inner(bytes: &Vec<u8>) -> (r: Result<Value, KvError>)
    ensures
        (match r {
            Ok(v) => bytes@ == enc_value(v@),
            Err(e) => (forall|w: ValueV| bytes@ != enc_value(w)) && e@ is DecodeError,
        }),
{
    if bytes.len() == 0 {
        proof {
            assert forall|w: ValueV| bytes@ != enc_value(w) by {
                lemma_enc_shape(w);
            }
        }
        return Err(KvError::DecodeError);
    }
    let tag = bytes[0];
    if tag == 0 {
        if bytes.len() == 1 {
            proof {
                assert(bytes@ =~= enc_value(ValueV::Nil));
            }
            return Ok(Value::Nil);
        }
        proof {
            assert forall|w: ValueV| bytes@ != enc_value(w) by {
                lemma_enc_shape(w);
                if bytes@ == enc_value(w) {
                    assert(enc_value(w)[0] == 0u8);
                    assert(w is Nil);
                }
            }
        }
        return Err(KvError::DecodeError);
    }
    if tag == 1 {
        let payload = slice_to_vec(slice_subrange(bytes.as_slice(), 1, bytes.len()));
        match bytes_to_string(payload) {
            Ok(s) => {
                proof {
                    broadcast use vstd::utf8::decode_utf8_encode_utf8;

                    assert(encode_utf8(s@) == bytes@.subrange(1, bytes@.len() as int));
                    assert(bytes@ =~= enc_value(ValueV::Str(s@)));
                }
                Ok(Value::Str(s))
            },
            Err(_) => {
                proof {
                    assert forall|w: ValueV| bytes@ != enc_value(w) by {
                        lemma_enc_shape(w);
                        if bytes@ == enc_value(w) {
                            assert(enc_value(w)[0] == 1u8);
                            if let ValueV::Str(s) = w {
                                vstd::utf8::encode_utf8_valid_utf8(s);
                                assert(bytes@.subrange(1, bytes@.len() as int) == encode_utf8(s));
                            } else {
                                assert(false);
                            }
                        }
                    }
                }
                Err(KvError::DecodeError)
            },
        }
    } else if tag == 2 {
        if bytes.len() != 10 {
            proof {
                assert forall|w: ValueV| bytes@ != enc_value(w) by {
                    lemma_enc_shape(w);
                }
            }
            return Err(KvError::DecodeError);
        }
        let sign = bytes[1];
        if sign > 1 {
            proof {
                assert forall|w: ValueV| bytes@ != enc_value(w) by {
                    lemma_enc_shape(w);
                    if bytes@ == enc_value(w) {
                        if let ValueV::Int(i) = w {
                            assert(enc_value(w)[1] == int_sign(i));
                        } else {
                            assert(false);
                        }
                    }
                }
            }
            return Err(KvError::DecodeError);
        }
        let mag = u64_from_le_bytes(slice_subrange(bytes.as_slice(), 2, 10));
        proof {
            lemma_auto_spec_u64_to_from_le_bytes();
        }
        if mag > (i64::MAX as u64) {
            proof {
                assert forall|w: ValueV| bytes@ != enc_value(w) by {
                    lemma_enc_shape(w);
                    if bytes@ == enc_value(w) {
                        if let ValueV::Int(i) = w {
                            assert(bytes@.subrange(2, 10) == spec_u64_to_le_bytes(int_mag(i)));
                            assert(int_mag(i) == mag);
                            assert(int_mag(i) <= i64::MAX as u64);
                        } else {
                            assert(false);
                        }
                    }
                }
            }
            return Err(KvError::DecodeError);
        }
        let v: i64 = if sign == 0 {
            mag as i64
        } else {
            -(mag as i64) - 1
        };
        proof {
            assert(int_sign(v) == sign);
            assert(int_mag(v) == mag);
            assert(bytes@.subrange(2, 10) == spec_u64_to_le_bytes(mag));
            assert(bytes@ =~= enc_value(ValueV::Int(v)));
        }
        Ok(Value::Int(v))
    } else if tag == 3 {
        let payload = slice_to_vec(slice_subrange(bytes.as_slice(), 1, bytes.len()));
        proof {
            assert(bytes@ =~= enc_value(ValueV::Bin(payload@)));
        }
        Ok(Value::Bin(payload))
    } else if tag == 4 {
        if bytes.len() == 2 && bytes[1] <= 1 {
            let b = bytes[1] == 1;
            proof {
                assert(bytes@ =~= enc_value(ValueV::Bool(b)));
            }
            return Ok(Value::Bool(b));
        }
        proof {
            assert forall|w: ValueV| bytes@ != enc_value(w) by {
                lemma_enc_shape(w);
                if bytes@ == enc_value(w) {
                    if let ValueV::Bool(b) = w {
                        assert(enc_value(w) == seq![
                            4u8,
                            if b {
                                1u8
                            } else {
                                0u8
                            },
                        ]);
                        assert(bytes@.len() == 2 && bytes@[1] <= 1);
                    } else {
                        assert(false);
                    }
                }
            }
        }
        Err(KvError::DecodeError)
    } else {
        proof {
            assert forall|w: ValueV| bytes@ != enc_value(w) by {
                lemma_enc_shape(w);
                if bytes@ == enc_value(w) {
                    assert(enc_value(w)[0] >= 5u8);
                    assert(false);
                }
            }
        }
        Err(KvError::DecodeError)
    }
}

} // verus!
