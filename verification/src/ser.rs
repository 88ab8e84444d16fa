//! The encoder: the byte-exact wire encoding of a value, stated by
//! [`enc_value`] and produced by [`Serializer`].

use vstd::prelude::*;
use vstd::utf8::encode_utf8;
use crate::bytes::be16_of;
use crate::bytes::be32_of;
use crate::bytes::be64_of;
use crate::error::Error;
use crate::value::Marker;
use crate::value::SpecValue;
use crate::value::Value;
use crate::value::entries_view;
use crate::value::elems_view;
use crate::value::key_lt;
use crate::value::lemma_elems_view_index;
use crate::value::lemma_elems_view_len;
use crate::value::lemma_entries_view_index;
use crate::value::lemma_entries_view_len;
use crate::value::marker_to_byte;

verus! {

// ---------------------------------------------------------------------------
// The encoding, stated
// ---------------------------------------------------------------------------

/// The three-byte sentinel ending an entry list: a zero key length
/// followed by the object-end marker.
pub open spec fn end_sentinel() -> Seq<u8> {
    seq![0u8, 0u8, marker_to_byte(Marker::ObjectEnd)]
}

/// A length-prefixed string: a 2-byte big-endian byte count, then the
/// UTF-8 bytes.  This is also how map keys are written, without a marker.
pub open spec fn enc_str(s: Seq<char>) -> Seq<u8> {
    be16_of(encode_utf8(s).len() as u16) + encode_utf8(s)
}

/// The wire encoding of a value.  Only the kinds whose layout the format
/// settles are encodable; for the rest this function is never relied on
/// and yields the empty sequence.
pub open spec fn enc_value(m: SpecValue) -> Seq<u8>
    decreases m, 0int,
{
    match m {
        SpecValue::Number(n) => seq![marker_to_byte(Marker::Number)] + be64_of(n),
        SpecValue::Bool(x) => seq![marker_to_byte(Marker::Boolean)] + seq![
            if x {
                1u8
            } else {
                0u8
            },
        ],
        SpecValue::Str(s) => seq![marker_to_byte(Marker::String)] + enc_str(s),
        SpecValue::Object(es) => seq![marker_to_byte(Marker::Object)] + enc_entries(es)
            + end_sentinel(),
        SpecValue::Null => seq![marker_to_byte(Marker::Null)],
        SpecValue::Undefined => seq![marker_to_byte(Marker::Undefined)],
        SpecValue::EcmaArray(es) => seq![marker_to_byte(Marker::ECMAArray)] + be32_of(
            es.len() as u32,
        ) + enc_entries(es) + end_sentinel(),
        SpecValue::StrictArray(vs) => seq![marker_to_byte(Marker::StrictArray)] + be32_of(
            vs.len() as u32,
        ) + enc_elems(vs),
        _ => Seq::empty(),
    }
}

/// The wire encoding of an entry list: each entry is the key, written as
/// a length-prefixed string without a marker, then the entry's value.
pub open spec fn enc_entries(es: Seq<(Seq<char>, SpecValue)>) -> Seq<u8>
    decreases es, 0int,
{
    if es.len() == 0 {
        Seq::empty()
    } else {
        enc_str(es[0].0) + enc_value(es[0].1) + enc_entries(es.drop_first())
    }
}

/// The wire encoding of an element list: the values in order, nothing
/// between them.
pub open spec fn enc_elems(vs: Seq<SpecValue>) -> Seq<u8>
    decreases vs, 0int,
{
    if vs.len() == 0 {
        Seq::empty()
    } else {
        enc_value(vs[0]) + enc_elems(vs.drop_first())
    }
}

// ---------------------------------------------------------------------------
// What the encoder accepts
// ---------------------------------------------------------------------------

/// Why a value cannot be encoded, or `None` when it can.
///
/// `InvalidSize` reports a string longer than 65535 UTF-8 bytes, a key
/// outside 1..=65535 UTF-8 bytes (a zero-length key would collide with
/// the termination sentinel), or an entry or element count beyond the
/// 4-byte count field.  `SyntaxError` reports a kind whose byte layout
/// the format does not settle, or entries out of the canonical key order.
pub open spec fn enc_err(m: SpecValue) -> Option<Error>
    decreases m, 0int,
{
    match m {
        SpecValue::Number(_) => None,
        SpecValue::Bool(_) => None,
        SpecValue::Null => None,
        SpecValue::Undefined => None,
        SpecValue::Str(s) => if encode_utf8(s).len() <= 0xFFFF {
            None
        } else {
            Some(Error::InvalidSize)
        },
        SpecValue::Object(es) => enc_err_entries(es),
        SpecValue::EcmaArray(es) => if es.len() > 0xFFFF_FFFF {
            Some(Error::InvalidSize)
        } else {
            enc_err_entries(es)
        },
        SpecValue::StrictArray(vs) => if vs.len() > 0xFFFF_FFFF {
            Some(Error::InvalidSize)
        } else {
            enc_err_elems(vs)
        },
        _ => Some(Error::SyntaxError),
    }
}

/// Why an entry list cannot be encoded, or `None`: checks each key's
/// length, the canonical strictly-ascending key order, and each value.
pub open spec fn enc_err_entries(es: Seq<(Seq<char>, SpecValue)>) -> Option<Error>
    decreases es, 0int,
{
    if es.len() == 0 {
        None
    } else if encode_utf8(es[0].0).len() < 1 || encode_utf8(es[0].0).len() > 0xFFFF {
        Some(Error::InvalidSize)
    } else if es.len() > 1 && !key_lt(es[0].0, es[1].0) {
        Some(Error::SyntaxError)
    } else if enc_err(es[0].1) is Some {
        enc_err(es[0].1)
    } else {
        enc_err_entries(es.drop_first())
    }
}

/// Why an element list cannot be encoded, or `None`.
pub open spec fn enc_err_elems(vs: Seq<SpecValue>) -> Option<Error>
    decreases vs, 0int,
{
    if vs.len() == 0 {
        None
    } else if enc_err(vs[0]) is Some {
        enc_err(vs[0])
    } else {
        enc_err_elems(vs.drop_first())
    }
}

/// Whether a value can be encoded: the fully-specified kinds, with every
/// string at most 65535 UTF-8 bytes, every key within 1..=65535 UTF-8
/// bytes, entries in the canonical order, and counts within the 4-byte
/// count field.
pub open spec fn encodable(m: SpecValue) -> bool {
    enc_err(m) is None
}

// ---------------------------------------------------------------------------
// The executable checks
// ---------------------------------------------------------------------------

/// Reports why `v` cannot be encoded, or `None` when it can.
pub fn check_value(v: &Value) -> (r: Option<Error>)
    ensures
        r == enc_err(v@),
    decreases v, 0int,
{
    match v {
        Value::Number(_) => None,
        Value::Bool(_) => None,
        Value::Null => None,
        Value::Undefined => None,
        Value::String(s) => {
            if s.as_str().as_bytes().len() <= 0xFFFF {
                None
            } else {
                Some(Error::InvalidSize)
            }
        },
        Value::Object(es) => {
            proof {
                assert(entries_view(es@).skip(0) =~= entries_view(es@));
            }
            check_entries(es, 0)
        },
        Value::ECMAArray(es) => {
            if es.len() as u64 > 0xFFFF_FFFFu64 {
                proof {
                    lemma_entries_view_len(es@);
                }
                Some(Error::InvalidSize)
            } else {
                proof {
                    lemma_entries_view_len(es@);
                    assert(entries_view(es@).skip(0) =~= entries_view(es@));
                }
                check_entries(es, 0)
            }
        },
        Value::StrictArray(vs) => {
            if vs.len() as u64 > 0xFFFF_FFFFu64 {
                proof {
                    lemma_elems_view_len(vs@);
                }
                Some(Error::InvalidSize)
            } else {
                proof {
                    lemma_elems_view_len(vs@);
                    assert(elems_view(vs@).skip(0) =~= elems_view(vs@));
                }
                check_elems(vs, 0)
            }
        },
        _ => Some(Error::SyntaxError),
    }
}

/// Checks the entries from position `i` on.
fn check_entries(es: &Vec<(String, Value)>, i: usize) -> (r: Option<Error>)
    requires
        i <= es@.len(),
    ensures
        r == enc_err_entries(entries_view(es@).skip(i as int)),
    decreases es, es@.len() - i,
{
    proof {
        lemma_entries_view_len(es@);
    }
    if i == es.len() {
        return None;
    }
    proof {
        lemma_entries_view_index(es@, i as int);
        assert(entries_view(es@).skip(i as int)[0] == entries_view(es@)[i as int]);
    }
    let klen = es[i].0.as_str().as_bytes().len();
    if klen < 1 || klen > 0xFFFF {
        return Some(Error::InvalidSize);
    }
    if i + 1 < es.len() {
        proof {
            lemma_entries_view_index(es@, i + 1);
            assert(entries_view(es@).skip(i as int)[1] == entries_view(es@)[i + 1]);
        }
        if !crate::bytes::lex_byte_lt(es[i].0.as_str().as_bytes(), es[i + 1].0.as_str().as_bytes()) {
            return Some(Error::SyntaxError);
        }
    }
    let re = check_value(&es[i].1);
    if re.is_some() {
        return re;
    }
    proof {
        assert(entries_view(es@).skip(i as int).drop_first() =~= entries_view(es@).skip(i + 1));
    }
    check_entries(es, i + 1)
}

/// Checks the elements from position `i` on.
fn check_elems(vs: &Vec<Value>, i: usize) -> (r: Option<Error>)
    requires
        i <= vs@.len(),
    ensures
        r == enc_err_elems(elems_view(vs@).skip(i as int)),
    decreases vs, vs@.len() - i,
{
    proof {
        lemma_elems_view_len(vs@);
    }
    if i == vs.len() {
        return None;
    }
    proof {
        lemma_elems_view_index(vs@, i as int);
        assert(elems_view(vs@).skip(i as int)[0] == elems_view(vs@)[i as int]);
    }
    let re = check_value(&vs[i]);
    if re.is_some() {
        return re;
    }
    proof {
        assert(elems_view(vs@).skip(i as int).drop_first() =~= elems_view(vs@).skip(i + 1));
    }
    check_elems(vs, i + 1)
}

// ---------------------------------------------------------------------------
// The executable encoder
// ---------------------------------------------------------------------------

/// Accumulates the wire bytes of one value.
pub struct Serializer {
    out: Vec<u8>,
}

impl View for Serializer {
    type V = Seq<u8>;

    closed spec fn view(&self) -> Seq<u8> {
        self.out@
    }
}

impl Serializer {
    /// A serializer with an empty output buffer.
    pub fn new() -> (r: Serializer)
        ensures
            r@ == Seq::<u8>::empty(),
    {
        Serializer { out: Vec::new() }
    }

    /// Hands the accumulated bytes over.
    pub fn into_bytes(self) -> (r: Vec<u8>)
        ensures
            r@ == self@,
    {
        self.out
    }

    /// Appends one byte.
    fn write_byte(&mut self, b: u8)
        ensures
            final(self)@ == old(self)@ + seq![b],
    {
        self.out.push(b);
        proof {
            assert(self.out@ =~= old(self).out@ + seq![b]);
        }
    }

    /// Appends a marker byte.
    fn write_marker(&mut self, m: Marker)
        ensures
            final(self)@ == old(self)@ + seq![marker_to_byte(m)],
    {
        let b = m.to_byte();
        self.write_byte(b);
    }

    /// Appends a 2-byte big-endian field.
    fn write_u16(&mut self, n: u16)
        ensures
            final(self)@ == old(self)@ + be16_of(n),
    {
        self.write_byte(((n >> 8) & 0xff) as u8);
        self.write_byte((n & 0xff) as u8);
        proof {
            assert(self@ =~= old(self)@ + be16_of(n));
        }
    }

    /// Appends a 4-byte big-endian field.
    fn write_u32(&mut self, n: u32)
        ensures
            final(self)@ == old(self)@ + be32_of(n),
    {
        self.write_byte(((n >> 24) & 0xff) as u8);
        self.write_byte(((n >> 16) & 0xff) as u8);
        self.write_byte(((n >> 8) & 0xff) as u8);
        self.write_byte((n & 0xff) as u8);
        proof {
            assert(self@ =~= old(self)@ + be32_of(n));
        }
    }

    /// Appends an 8-byte big-endian field.
    fn write_u64(&mut self, n: u64)
        ensures
            final(self)@ == old(self)@ + be64_of(n),
    {
        self.write_byte(((n >> 56) & 0xff) as u8);
        self.write_byte(((n >> 48) & 0xff) as u8);
        self.write_byte(((n >> 40) & 0xff) as u8);
        self.write_byte(((n >> 32) & 0xff) as u8);
        self.write_byte(((n >> 24) & 0xff) as u8);
        self.write_byte(((n >> 16) & 0xff) as u8);
        self.write_byte(((n >> 8) & 0xff) as u8);
        self.write_byte((n & 0xff) as u8);
        proof {
            assert(self@ =~= old(self)@ + be64_of(n));
        }
    }

    /// Appends a length-prefixed string: the 2-byte byte count, then the
    /// UTF-8 bytes.  Keys are written this way, with no marker.
    pub fn write_str(&mut self, s: &str)
        requires
            encode_utf8(s@).len() <= 0xFFFF,
        ensures
            final(self)@ == old(self)@ + enc_str(s@),
    {
        let bs = s.as_bytes();
        self.write_u16(bs.len() as u16);
        self.out.extend_from_slice(bs);
        proof {
            assert(self@ =~= old(self)@ + enc_str(s@));
        }
    }

    /// Appends the three-byte termination sentinel of an entry list.
    fn write_sentinel(&mut self)
        ensures
            final(self)@ == old(self)@ + end_sentinel(),
    {
        self.write_byte(0);
        self.write_byte(0);
        self.write_marker(Marker::ObjectEnd);
        proof {
            assert(self@ =~= old(self)@ + end_sentinel());
        }
    }

    /// Appends the wire encoding of an encodable value.
    fn write_value(&mut self, v: &Value)
        requires
            encodable(v@),
        ensures
            final(self)@ == old(self)@ + enc_value(v@),
        decreases v, 0int,
    {
        match v {
            Value::Number(n) => {
                self.write_marker(Marker::Number);
                self.write_u64(*n);
                proof {
                    assert(self@ =~= old(self)@ + enc_value(v@));
                }
            },
            Value::Bool(x) => {
                self.write_marker(Marker::Boolean);
                if *x {
                    self.write_byte(1);
                } else {
                    self.write_byte(0);
                }
                proof {
                    assert(self@ =~= old(self)@ + enc_value(v@));
                }
            },
            Value::String(s) => {
                self.write_marker(Marker::String);
                self.write_str(s.as_str());
                proof {
                    assert(self@ =~= old(self)@ + enc_value(v@));
                }
            },
            Value::Null => {
                self.write_marker(Marker::Null);
                proof {
                    assert(self@ =~= old(self)@ + enc_value(v@));
                }
            },
            Value::Undefined => {
                self.write_marker(Marker::Undefined);
                proof {
                    assert(self@ =~= old(self)@ + enc_value(v@));
                }
            },
            Value::Object(es) => {
                self.write_marker(Marker::Object);
                proof {
                    assert(entries_view(es@).skip(0) =~= entries_view(es@));
                }
                self.write_entries(es, 0);
                self.write_sentinel();
                proof {
                    assert(self@ =~= old(self)@ + enc_value(v@));
                }
            },
            Value::ECMAArray(es) => {
                self.write_marker(Marker::ECMAArray);
                proof {
                    lemma_entries_view_len(es@);
                }
                self.write_u32(es.len() as u32);
                proof {
                    assert(entries_view(es@).skip(0) =~= entries_view(es@));
                }
                self.write_entries(es, 0);
                self.write_sentinel();
                proof {
                    assert(self@ =~= old(self)@ + enc_value(v@));
                }
            },
            Value::StrictArray(vs) => {
                self.write_marker(Marker::StrictArray);
                proof {
                    lemma_elems_view_len(vs@);
                }
                self.write_u32(vs.len() as u32);
                proof {
                    assert(elems_view(vs@).skip(0) =~= elems_view(vs@));
                }
                self.write_elems(vs, 0);
                proof {
                    assert(self@ =~= old(self)@ + enc_value(v@));
                }
            },
            _ => {
                proof {
                    assert(false);
                }
            },
        }
    }

    /// Appends the encodings of the entries from position `i` on.
    fn write_entries(&mut self, es: &Vec<(String, Value)>, i: usize)
        requires
            i <= es@.len(),
            enc_err_entries(entries_view(es@).skip(i as int)) is None,
        ensures
            final(self)@ == old(self)@ + enc_entries(entries_view(es@).skip(i as int)),
        decreases es, es@.len() - i,
    {
        proof {
            lemma_entries_view_len(es@);
        }
        if i == es.len() {
            proof {
                assert(self@ =~= old(self)@ + enc_entries(entries_view(es@).skip(i as int)));
            }
            return ;
        }
        proof {
            lemma_entries_view_index(es@, i as int);
            assert(entries_view(es@).skip(i as int)[0] == entries_view(es@)[i as int]);
        }
        self.write_str(es[i].0.as_str());
        self.write_value(&es[i].1);
        proof {
            assert(entries_view(es@).skip(i as int).drop_first() =~= entries_view(es@).skip(i + 1));
        }
        self.write_entries(es, i + 1);
        proof {
            assert(self@ =~= old(self)@ + enc_entries(entries_view(es@).skip(i as int)));
        }
    }

    /// Appends the encodings of the elements from position `i` on.
    fn write_elems(&mut self, vs: &Vec<Value>, i: usize)
        requires
            i <= vs@.len(),
            enc_err_elems(elems_view(vs@).skip(i as int)) is None,
        ensures
            final(self)@ == old(self)@ + enc_elems(elems_view(vs@).skip(i as int)),
        decreases vs, vs@.len() - i,
    {
        proof {
            lemma_elems_view_len(vs@);
        }
        if i == vs.len() {
            proof {
                assert(self@ =~= old(self)@ + enc_elems(elems_view(vs@).skip(i as int)));
            }
            return ;
        }
        proof {
            lemma_elems_view_index(vs@, i as int);
            assert(elems_view(vs@).skip(i as int)[0] == elems_view(vs@)[i as int]);
        }
        self.write_value(&vs[i]);
        proof {
            assert(elems_view(vs@).skip(i as int).drop_first() =~= elems_view(vs@).skip(i + 1));
        }
        self.write_elems(vs, i + 1);
        proof {
            assert(self@ =~= old(self)@ + enc_elems(elems_view(vs@).skip(i as int)));
        }
    }
}

/// Encodes a value into its wire bytes.
///
/// Succeeds exactly on the encodable values; on the others it reports why
/// the value has no settled wire form, and writes nothing.
pub fn encode(v: &Value) -> (r: Result<Vec<u8>, Error>)
    ensures
        match r {
            Ok(out) => encodable(v@) && out@ == enc_value(v@),
            Err(e) => enc_err(v@) == Some(e),
        },
{
    match check_value(v) {
        Some(e) => Err(e),
        None => {
            let mut s = Serializer::new();
            s.write_value(v);
            Ok(s.into_bytes())
        },
    }
}

} // verus!
