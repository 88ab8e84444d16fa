//! The tagged value model, its mathematical view, and the marker table.

use vstd::prelude::*;
use vstd::utf8::encode_utf8;
use crate::bytes::lex_lt;
use crate::bytes::lemma_lex_lt_asym;
use crate::bytes::lemma_lex_lt_total;
use crate::bytes::lemma_lex_lt_trans;

verus! {

/// A point in time as carried by the wire format: the milliseconds since
/// the epoch are kept as the raw bits of the 8-byte big-endian field, and
/// the time-zone offset as a signed 16-bit value.  The byte layout of this
/// kind is not settled by the format reference, so the codec carries the
/// fields but neither encodes nor decodes them.
#[derive(Clone, Copy, Debug, PartialEq, Eq, Structural)]
pub struct Date {
    pub millis_bits: u64,
    pub time_zone: i16,
}

/// A value of the wire format: a closed tagged union with one case per wire
/// kind.
///
/// A `Number` carries the bits of its 8-byte IEEE-754 big-endian payload,
/// so that every payload, including the many NaN encodings, round-trips
/// exactly.  `Object`, `ECMAArray` and `TypedObject` carry their entries as
/// a vector of key/value pairs; the encoder demands the canonical order
/// (strictly ascending in the byte-wise order of the UTF-8 keys), which
/// [`insert_entry`] maintains and the decoder produces.
#[derive(Debug, PartialEq)]
pub enum Value {
    Number(u64),
    Bool(bool),
    String(String),
    Object(Vec<(String, Value)>),
    /// Reserved by the format; never encoded or decoded.
    Movieclip,
    Null,
    Undefined,
    /// An index into a peer's object table.  The codec only carries the
    /// index; resolving it is the caller's responsibility.
    Reference(u16),
    ECMAArray(Vec<(String, Value)>),
    StrictArray(Vec<Value>),
    /// Payload layout not settled by the format reference; carried only.
    Date(Date),
    /// The 4-byte-length string variant; layout not settled, carried only.
    LongString(String),
    Unsupported,
    /// Reserved by the format; never encoded or decoded.
    Recordset,
    XMLDocument(String),
    /// A named object; class-name placement not settled, carried only.
    TypedObject(String, Vec<(String, Value)>),
}

/// The mathematical shadow of [`Value`]: strings become character
/// sequences, vectors become sequences.  All contracts and laws are stated
/// over this type.
pub enum SpecValue {
    Number(u64),
    Bool(bool),
    Str(Seq<char>),
    Object(Seq<(Seq<char>, SpecValue)>),
    Movieclip,
    Null,
    Undefined,
    Reference(u16),
    EcmaArray(Seq<(Seq<char>, SpecValue)>),
    StrictArray(Seq<SpecValue>),
    Date(Date),
    LongString(Seq<char>),
    Unsupported,
    Recordset,
    XmlDocument(Seq<char>),
    TypedObject(Seq<char>, Seq<(Seq<char>, SpecValue)>),
}

/// The view of a key/value entry list.
pub open spec fn entries_view(es: Seq<(String, Value)>) -> Seq<(Seq<char>, SpecValue)>
    decreases es,
{
    if es.len() == 0 {
        Seq::empty()
    } else {
        seq![(es[0].0@, value_view(es[0].1))] + entries_view(es.drop_first())
    }
}

/// The view of an element list.
pub open spec fn elems_view(vs: Seq<Value>) -> Seq<SpecValue>
    decreases vs,
{
    if vs.len() == 0 {
        Seq::empty()
    } else {
        seq![value_view(vs[0])] + elems_view(vs.drop_first())
    }
}

/// Maps a [`Value`] to its mathematical shadow.
pub open spec fn value_view(v: Value) -> SpecValue
    decreases v,
{
    match v {
        Value::Number(n) => SpecValue::Number(n),
        Value::Bool(b) => SpecValue::Bool(b),
        Value::String(s) => SpecValue::Str(s@),
        Value::Object(es) => SpecValue::Object(entries_view(es@)),
        Value::Movieclip => SpecValue::Movieclip,
        Value::Null => SpecValue::Null,
        Value::Undefined => SpecValue::Undefined,
        Value::Reference(r) => SpecValue::Reference(r),
        Value::ECMAArray(es) => SpecValue::EcmaArray(entries_view(es@)),
        Value::StrictArray(vs) => SpecValue::StrictArray(elems_view(vs@)),
        Value::Date(d) => SpecValue::Date(d),
        Value::LongString(s) => SpecValue::LongString(s@),
        Value::Unsupported => SpecValue::Unsupported,
        Value::Recordset => SpecValue::Recordset,
        Value::XMLDocument(s) => SpecValue::XmlDocument(s@),
        Value::TypedObject(c, es) => SpecValue::TypedObject(c@, entries_view(es@)),
    }
}

/// An entry list and its view have the same length.
pub broadcast proof fn lemma_entries_view_len(es: Seq<(String, Value)>)
    ensures
        (#[trigger] entries_view(es)).len() == es.len(),
    decreases es,
{
    if es.len() > 0 {
        lemma_entries_view_len(es.drop_first());
    }
}

/// The view of an entry list views each entry in place.
pub broadcast proof fn lemma_entries_view_index(es: Seq<(String, Value)>, i: int)
    requires
        0 <= i < es.len(),
    ensures
        #[trigger] entries_view(es)[i] == (es[i].0@, value_view(es[i].1)),
    decreases es,
{
    lemma_entries_view_len(es);
    if i > 0 {
        lemma_entries_view_index(es.drop_first(), i - 1);
        assert(es.drop_first()[i - 1] == es[i]);
    }
}

/// An element list and its view have the same length.
pub broadcast proof fn lemma_elems_view_len(vs: Seq<Value>)
    ensures
        (#[trigger] elems_view(vs)).len() == vs.len(),
    decreases vs,
{
    if vs.len() > 0 {
        lemma_elems_view_len(vs.drop_first());
    }
}

/// The view of an element list views each element in place.
pub broadcast proof fn lemma_elems_view_index(vs: Seq<Value>, i: int)
    requires
        0 <= i < vs.len(),
    ensures
        #[trigger] elems_view(vs)[i] == value_view(vs[i]),
    decreases vs,
{
    lemma_elems_view_len(vs);
    if i > 0 {
        lemma_elems_view_index(vs.drop_first(), i - 1);
        assert(vs.drop_first()[i - 1] == vs[i]);
    }
}

impl View for Value {
    type V = SpecValue;

    open spec fn view(&self) -> SpecValue {
        value_view(*self)
    }
}

impl Value {
    /// Returns true if the `Value` is a `Number`, false otherwise.
    pub fn is_number(&self) -> (r: bool)
        ensures
            r == (self@ is Number),
    {
        if let Value::Number(_) = *self {
            true
        } else {
            false
        }
    }

    /// If the `Value` is a `Number`, returns the bits of its 8-byte
    /// payload; returns `None` otherwise.
    pub fn as_number(&self) -> (r: Option<u64>)
        ensures
            r == (match self@ {
                SpecValue::Number(n) => Some(n),
                _ => None::<u64>,
            }),
    {
        if let Value::Number(n) = *self {
            Some(n)
        } else {
            None
        }
    }

    /// Returns true if the `Value` is a `Bool`, false otherwise.
    pub fn is_bool(&self) -> (r: bool)
        ensures
            r == (self@ is Bool),
    {
        if let Value::Bool(_) = *self {
            true
        } else {
            false
        }
    }

    /// If the `Value` is a `Bool`, returns the associated bool; returns
    /// `None` otherwise.
    pub fn as_bool(&self) -> (r: Option<bool>)
        ensures
            r == (match self@ {
                SpecValue::Bool(b) => Some(b),
                _ => None::<bool>,
            }),
    {
        if let Value::Bool(b) = *self {
            Some(b)
        } else {
            None
        }
    }
}

impl From<bool> for Value {
    fn from(v: bool) -> (r: Value) {
        Value::Bool(v)
    }
}

impl vstd::std_specs::convert::FromSpecImpl<bool> for Value {
    open spec fn obeys_from_spec() -> bool {
        true
    }

    open spec fn from_spec(v: bool) -> Value {
        Value::Bool(v)
    }
}

// ---------------------------------------------------------------------------
// The marker table
// ---------------------------------------------------------------------------

/// The semantic kind named by a one-byte wire marker.
#[derive(Clone, Copy, Debug, PartialEq, Eq, Structural)]
pub enum Marker {
    Number,
    Boolean,
    String,
    Object,
    Movieclip,
    Null,
    Undefined,
    Reference,
    ECMAArray,
    ObjectEnd,
    StrictArray,
    Date,
    LongString,
    Unsupported,
    Recordset,
    XMLDocument,
    TypedObject,
}

/// The marker byte of a kind: one half of the bidirectional marker table.
pub open spec fn marker_to_byte(m: Marker) -> u8 {
    match m {
        Marker::Number => 0x00,
        Marker::Boolean => 0x01,
        Marker::String => 0x02,
        Marker::Object => 0x03,
        Marker::Movieclip => 0x04,
        Marker::Null => 0x05,
        Marker::Undefined => 0x06,
        Marker::Reference => 0x07,
        Marker::ECMAArray => 0x08,
        Marker::ObjectEnd => 0x09,
        Marker::StrictArray => 0x0A,
        Marker::Date => 0x0B,
        Marker::LongString => 0x0C,
        Marker::Unsupported => 0x0D,
        Marker::Recordset => 0x0E,
        Marker::XMLDocument => 0x0F,
        Marker::TypedObject => 0x10,
    }
}

/// The kind named by a marker byte, or `None` for the bytes the format
/// does not reserve: the other half of the table.
pub open spec fn marker_of_byte(b: u8) -> Option<Marker> {
    match b {
        0x00 => Some(Marker::Number),
        0x01 => Some(Marker::Boolean),
        0x02 => Some(Marker::String),
        0x03 => Some(Marker::Object),
        0x04 => Some(Marker::Movieclip),
        0x05 => Some(Marker::Null),
        0x06 => Some(Marker::Undefined),
        0x07 => Some(Marker::Reference),
        0x08 => Some(Marker::ECMAArray),
        0x09 => Some(Marker::ObjectEnd),
        0x0A => Some(Marker::StrictArray),
        0x0B => Some(Marker::Date),
        0x0C => Some(Marker::LongString),
        0x0D => Some(Marker::Unsupported),
        0x0E => Some(Marker::Recordset),
        0x0F => Some(Marker::XMLDocument),
        0x10 => Some(Marker::TypedObject),
        _ => None,
    }
}

/// The two halves of the marker table agree: looking up a kind's byte
/// finds the kind again.
pub proof fn lemma_marker_roundtrip(m: Marker)
    ensures
        marker_of_byte(marker_to_byte(m)) == Some(m),
{
}

/// The two halves of the marker table agree: a byte that names a kind is
/// that kind's byte.
pub proof fn lemma_marker_byte_roundtrip(b: u8)
    ensures
        marker_of_byte(b) matches Some(m) ==> marker_to_byte(m) == b,
{
}

impl Marker {
    /// The marker byte of this kind.
    pub fn to_byte(&self) -> (r: u8)
        ensures
            r == marker_to_byte(*self),
    {
        match self {
            Marker::Number => 0x00,
            Marker::Boolean => 0x01,
            Marker::String => 0x02,
            Marker::Object => 0x03,
            Marker::Movieclip => 0x04,
            Marker::Null => 0x05,
            Marker::Undefined => 0x06,
            Marker::Reference => 0x07,
            Marker::ECMAArray => 0x08,
            Marker::ObjectEnd => 0x09,
            Marker::StrictArray => 0x0A,
            Marker::Date => 0x0B,
            Marker::LongString => 0x0C,
            Marker::Unsupported => 0x0D,
            Marker::Recordset => 0x0E,
            Marker::XMLDocument => 0x0F,
            Marker::TypedObject => 0x10,
        }
    }

    /// The kind named by a marker byte, or `None` for an unreserved byte.
    pub fn from_byte(b: u8) -> (r: Option<Marker>)
        ensures
            r == marker_of_byte(b),
    {
        match b {
            0x00 => Some(Marker::Number),
            0x01 => Some(Marker::Boolean),
            0x02 => Some(Marker::String),
            0x03 => Some(Marker::Object),
            0x04 => Some(Marker::Movieclip),
            0x05 => Some(Marker::Null),
            0x06 => Some(Marker::Undefined),
            0x07 => Some(Marker::Reference),
            0x08 => Some(Marker::ECMAArray),
            0x09 => Some(Marker::ObjectEnd),
            0x0A => Some(Marker::StrictArray),
            0x0B => Some(Marker::Date),
            0x0C => Some(Marker::LongString),
            0x0D => Some(Marker::Unsupported),
            0x0E => Some(Marker::Recordset),
            0x0F => Some(Marker::XMLDocument),
            0x10 => Some(Marker::TypedObject),
            _ => None,
        }
    }
}

// ---------------------------------------------------------------------------
// Canonical entry order
// ---------------------------------------------------------------------------

/// The byte-wise lexicographic order on keys, through their UTF-8 encoding.
pub open spec fn key_lt(a: Seq<char>, b: Seq<char>) -> bool {
    lex_lt(encode_utf8(a), encode_utf8(b))
}

/// Entries are in the canonical order: strictly ascending keys.
pub open spec fn entries_sorted(es: Seq<(Seq<char>, SpecValue)>) -> bool {
    forall|i: int, j: int| 0 <= i < j < es.len() ==> key_lt(#[trigger] es[i].0, #[trigger] es[j].0)
}

/// Inserts a key/value pair at its place in the canonical order; an entry
/// under the same key is replaced.
pub open spec fn spec_insert(
    es: Seq<(Seq<char>, SpecValue)>,
    k: Seq<char>,
    v: SpecValue,
) -> Seq<(Seq<char>, SpecValue)>
    decreases es.len(),
{
    if es.len() == 0 {
        seq![(k, v)]
    } else if key_lt(es[0].0, k) {
        seq![es[0]] + spec_insert(es.drop_first(), k, v)
    } else if encode_utf8(es[0].0) == encode_utf8(k) {
        seq![(k, v)] + es.drop_first()
    } else {
        seq![(k, v)] + es
    }
}

/// Each entry of an insertion's result is the inserted pair or one of the
/// old entries, the result holds the inserted key, and it grows by at most
/// one entry.
pub proof fn lemma_spec_insert_contents(es: Seq<(Seq<char>, SpecValue)>, k: Seq<char>, v: SpecValue)
    ensures
        forall|i: int|
            0 <= i < spec_insert(es, k, v).len() ==> #[trigger] spec_insert(es, k, v)[i] == (k, v)
                || es.contains(spec_insert(es, k, v)[i]),
        spec_insert(es, k, v).contains((k, v)),
        es.len() <= spec_insert(es, k, v).len() <= es.len() + 1,
    decreases es.len(),
{
    if es.len() == 0 {
        let r = spec_insert(es, k, v);
        assert(r[0] == (k, v));
        assert(r.contains((k, v)));
    } else if key_lt(es[0].0, k) {
        lemma_spec_insert_contents(es.drop_first(), k, v);
        let r = spec_insert(es, k, v);
        let rr = spec_insert(es.drop_first(), k, v);
        assert(r == seq![es[0]] + rr);
        assert forall|i: int| 0 <= i < r.len() implies #[trigger] r[i] == (k, v) || es.contains(
            r[i],
        ) by {
            if i == 0 {
                assert(r[0] == es[0]);
                assert(es.contains(es[0]));
            } else {
                assert(r[i] == rr[i - 1]);
                if rr[i - 1] != (k, v) {
                    let j = choose|j: int|
                        0 <= j < es.drop_first().len() && es.drop_first()[j] == rr[i - 1];
                    assert(es[j + 1] == rr[i - 1]);
                }
            }
        }
        assert(rr.contains((k, v)));
        let wi = choose|wi: int| 0 <= wi < rr.len() && rr[wi] == (k, v);
        assert(r[wi + 1] == (k, v));
        assert(r.contains((k, v)));
    } else if encode_utf8(es[0].0) == encode_utf8(k) {
        let r = spec_insert(es, k, v);
        assert(r[0] == (k, v));
        assert(r.contains((k, v)));
        assert forall|i: int| 0 <= i < r.len() implies #[trigger] r[i] == (k, v) || es.contains(
            r[i],
        ) by {
            if i > 0 {
                assert(r[i] == es.drop_first()[i - 1]);
                assert(es[i] == es.drop_first()[i - 1]);
            }
        }
    } else {
        let r = spec_insert(es, k, v);
        assert(r[0] == (k, v));
        assert(r.contains((k, v)));
        assert forall|i: int| 0 <= i < r.len() implies #[trigger] r[i] == (k, v) || es.contains(
            r[i],
        ) by {
            if i > 0 {
                assert(r[i] == es[i - 1]);
            }
        }
    }
}

/// Insertion keeps the canonical order.
pub proof fn lemma_spec_insert_sorted(es: Seq<(Seq<char>, SpecValue)>, k: Seq<char>, v: SpecValue)
    requires
        entries_sorted(es),
    ensures
        entries_sorted(spec_insert(es, k, v)),
    decreases es.len(),
{
    let kb = encode_utf8(k);
    if es.len() == 0 {
    } else if key_lt(es[0].0, k) {
        assert(entries_sorted(es.drop_first()));
        lemma_spec_insert_sorted(es.drop_first(), k, v);
        lemma_spec_insert_contents(es.drop_first(), k, v);
        let r = spec_insert(es, k, v);
        let rr = spec_insert(es.drop_first(), k, v);
        assert forall|i: int, j: int| 0 <= i < j < r.len() implies key_lt(
            #[trigger] r[i].0,
            #[trigger] r[j].0,
        ) by {
            if i == 0 {
                assert(r[j] == rr[j - 1]);
                if rr[j - 1] == (k, v) {
                    assert(key_lt(es[0].0, k));
                } else {
                    let jj = choose|jj: int|
                        0 <= jj < es.drop_first().len() && es.drop_first()[jj] == rr[j - 1];
                    assert(es[jj + 1] == rr[j - 1]);
                    assert(key_lt(es[0].0, es[jj + 1].0));
                }
            } else {
                assert(r[i] == rr[i - 1]);
                assert(r[j] == rr[j - 1]);
            }
        }
    } else if encode_utf8(es[0].0) == encode_utf8(k) {
        let r = spec_insert(es, k, v);
        assert forall|i: int, j: int| 0 <= i < j < r.len() implies key_lt(
            #[trigger] r[i].0,
            #[trigger] r[j].0,
        ) by {
            if i == 0 {
                assert(r[j] == es.drop_first()[j - 1]);
                assert(es[j] == es.drop_first()[j - 1]);
                assert(key_lt(es[0].0, es[j].0));
                assert(lex_lt(encode_utf8(es[0].0), encode_utf8(es[j].0)));
            } else {
                assert(r[i] == es[i]);
                assert(r[j] == es[j]);
            }
        }
    } else {
        lemma_lex_lt_total(encode_utf8(es[0].0), kb);
        assert(lex_lt(kb, encode_utf8(es[0].0)));
        let r = spec_insert(es, k, v);
        assert forall|i: int, j: int| 0 <= i < j < r.len() implies key_lt(
            #[trigger] r[i].0,
            #[trigger] r[j].0,
        ) by {
            if i == 0 {
                assert(r[j] == es[j - 1]);
                if j - 1 > 0 {
                    assert(key_lt(es[0].0, es[j - 1].0));
                    lemma_lex_lt_trans(kb, encode_utf8(es[0].0), encode_utf8(es[j - 1].0));
                }
            } else {
                assert(r[i] == es[i - 1]);
                assert(r[j] == es[j - 1]);
            }
        }
    }
}

/// Inserting a key greater than every present key appends the pair.
pub proof fn lemma_spec_insert_append(es: Seq<(Seq<char>, SpecValue)>, k: Seq<char>, v: SpecValue)
    requires
        forall|i: int| 0 <= i < es.len() ==> key_lt(#[trigger] es[i].0, k),
    ensures
        spec_insert(es, k, v) == es.push((k, v)),
    decreases es.len(),
{
    if es.len() == 0 {
        assert(spec_insert(es, k, v) =~= es.push((k, v)));
    } else {
        assert(key_lt(es[0].0, k));
        lemma_lex_lt_asym(encode_utf8(es[0].0), encode_utf8(k));
        assert forall|i: int| 0 <= i < es.drop_first().len() implies key_lt(
            #[trigger] es.drop_first()[i].0,
            k,
        ) by {
            assert(es.drop_first()[i] == es[i + 1]);
        }
        lemma_spec_insert_append(es.drop_first(), k, v);
        assert(spec_insert(es, k, v) =~= es.push((k, v)));
    }
}

/// Inserts a key/value pair into a canonically ordered entry vector,
/// replacing the entry under an equal key.
pub fn insert_entry(es: &mut Vec<(String, Value)>, key: String, val: Value)
    requires
        entries_sorted(entries_view(old(es)@)),
    ensures
        entries_sorted(entries_view(final(es)@)),
        entries_view(final(es)@) == spec_insert(entries_view(old(es)@), key@, val@),
{
    let ghost orig = entries_view(es@);
    proof {
        lemma_entries_view_len(es@);
    }
    let mut i: usize = 0;
    loop
        invariant
            i <= es@.len(),
            entries_sorted(entries_view(es@)),
            entries_view(es@) == orig,
            es@.len() == orig.len(),
            forall|j: int| 0 <= j < i ==> key_lt(#[trigger] orig[j].0, key@),
        ensures
            i <= es@.len(),
            entries_view(es@) == orig,
            forall|j: int| 0 <= j < i ==> key_lt(#[trigger] orig[j].0, key@),
            i < es@.len() ==> !key_lt(orig[i as int].0, key@),
        decreases es@.len() - i,
    {
        if i >= es.len() {
            break;
        }
        proof {
            lemma_entries_view_index(es@, i as int);
        }
        if !crate::bytes::lex_byte_lt(es[i].0.as_str().as_bytes(), key.as_str().as_bytes()) {
            break;
        }
        i = i + 1;
    }
    proof {
        lemma_spec_insert_sorted(orig, key@, val@);
    }
    if i < es.len() {
        proof {
            lemma_entries_view_index(es@, i as int);
        }
        let further = crate::bytes::lex_byte_lt(key.as_str().as_bytes(), es[i].0.as_str().as_bytes());
        proof {
            lemma_lex_lt_total(encode_utf8(orig[i as int].0), encode_utf8(key@));
        }
        let ghost prior = es@;
        if further {
            es.insert(i, (key, val));
            proof {
                lemma_insert_mid(orig, key@, val@, i as int);
                lemma_entries_view_len(es@);
                assert(entries_view(es@) =~= orig.insert(i as int, (key@, val@))) by {
                    assert forall|j: int| 0 <= j < es@.len() implies entries_view(es@)[j]
                        == orig.insert(i as int, (key@, val@))[j] by {
                        lemma_entries_view_index(es@, j);
                        if j < i as int {
                            lemma_entries_view_index(prior, j);
                        } else if j > i as int {
                            lemma_entries_view_index(prior, j - 1);
                        }
                    }
                }
            }
        } else {
            es.set(i, (key, val));
            proof {
                lemma_insert_replace(orig, key@, val@, i as int);
                lemma_entries_view_len(es@);
                assert(entries_view(es@) =~= orig.update(i as int, (key@, val@))) by {
                    assert forall|j: int| 0 <= j < es@.len() implies entries_view(es@)[j]
                        == orig.update(i as int, (key@, val@))[j] by {
                        lemma_entries_view_index(es@, j);
                        if j != i as int {
                            lemma_entries_view_index(prior, j);
                        }
                    }
                }
            }
        }
    } else {
        let ghost prior = es@;
        es.push((key, val));
        proof {
            lemma_spec_insert_append(orig, key@, val@);
            lemma_entries_view_len(es@);
            assert(entries_view(es@) =~= orig.push((key@, val@))) by {
                assert forall|j: int| 0 <= j < es@.len() implies entries_view(es@)[j] == orig.push(
                    (key@, val@),
                )[j] by {
                    lemma_entries_view_index(es@, j);
                    if j < orig.len() {
                        lemma_entries_view_index(prior, j);
                    }
                }
            }
        }
    }
}

/// When the first `i` keys are smaller than `k` and the key at `i` is
/// larger, insertion places the pair at position `i`.
proof fn lemma_insert_mid(es: Seq<(Seq<char>, SpecValue)>, k: Seq<char>, v: SpecValue, i: int)
    requires
        0 <= i < es.len(),
        forall|j: int| 0 <= j < i ==> key_lt(#[trigger] es[j].0, k),
        lex_lt(encode_utf8(k), encode_utf8(es[i].0)),
    ensures
        spec_insert(es, k, v) == es.insert(i, (k, v)),
    decreases i,
{
    lemma_lex_lt_asym(encode_utf8(k), encode_utf8(es[i].0));
    if i == 0 {
        assert(!key_lt(es[0].0, k));
        assert(encode_utf8(es[0].0) != encode_utf8(k));
        assert(spec_insert(es, k, v) =~= es.insert(0, (k, v)));
    } else {
        assert(key_lt(es[0].0, k));
        assert forall|j: int| 0 <= j < i - 1 implies key_lt(#[trigger] es.drop_first()[j].0, k) by {
            assert(es.drop_first()[j] == es[j + 1]);
        }
        assert(es.drop_first()[i - 1] == es[i]);
        lemma_insert_mid(es.drop_first(), k, v, i - 1);
        assert(spec_insert(es, k, v) =~= es.insert(i, (k, v)));
    }
}

/// When the first `i` keys are smaller than `k` and the key at `i` equals
/// `k` byte-wise, insertion replaces the entry at position `i`.
proof fn lemma_insert_replace(es: Seq<(Seq<char>, SpecValue)>, k: Seq<char>, v: SpecValue, i: int)
    requires
        0 <= i < es.len(),
        forall|j: int| 0 <= j < i ==> key_lt(#[trigger] es[j].0, k),
        !lex_lt(encode_utf8(es[i].0), encode_utf8(k)),
        !lex_lt(encode_utf8(k), encode_utf8(es[i].0)),
    ensures
        spec_insert(es, k, v) == es.update(i, (k, v)),
    decreases i,
{
    lemma_lex_lt_total(encode_utf8(es[i].0), encode_utf8(k));
    if i == 0 {
        assert(spec_insert(es, k, v) =~= es.update(0, (k, v)));
    } else {
        assert(key_lt(es[0].0, k));
        assert forall|j: int| 0 <= j < i - 1 implies key_lt(#[trigger] es.drop_first()[j].0, k) by {
            assert(es.drop_first()[j] == es[j + 1]);
        }
        assert(es.drop_first()[i - 1] == es[i]);
        lemma_insert_replace(es.drop_first(), k, v, i - 1);
        assert(spec_insert(es, k, v) =~= es.update(i, (k, v)));
    }
}

} // verus!
