//! The laws the codec obeys, proved from the stated encoding and
//! decoding: decoding inverts encoding, the wire bytes determine the
//! value, truncated encodings fail loudly with the exact error kind, a
//! mismatched entry count is rejected, encoding is deterministic, and
//! whatever decodes is well formed and encodes again.

use vstd::prelude::*;
use vstd::utf8::decode_utf8;
use vstd::utf8::encode_utf8;
use vstd::utf8::encode_utf8_valid_utf8;
use vstd::utf8::encode_utf8_decode_utf8;
use crate::bytes::be16;
use crate::bytes::be32;
use crate::bytes::lemma_be16_roundtrip;
use crate::bytes::lemma_be32_roundtrip;
use crate::bytes::lemma_be64_roundtrip;
use crate::bytes::lemma_lex_lt_irrefl;
use crate::bytes::lemma_lex_lt_trans;
use crate::error::Error;
use crate::de::dec_elems;
use crate::de::dec_entries;
use crate::de::dec_entry_key;
use crate::de::dec_str;
use crate::de::dec_value;
use crate::ser::enc_elems;
use crate::ser::enc_entries;
use crate::ser::enc_err_elems;
use crate::ser::enc_err_entries;
use crate::ser::enc_str;
use crate::ser::enc_value;
use crate::ser::encodable;
use crate::ser::end_sentinel;
use crate::value::Marker;
use crate::value::SpecValue;
use crate::value::entries_sorted;
use crate::value::key_lt;
use crate::value::lemma_spec_insert_append;
use crate::value::marker_of_byte;
use crate::value::marker_to_byte;
use crate::value::spec_insert;

verus! {

// ---------------------------------------------------------------------------
// Small facts about the encoding
// ---------------------------------------------------------------------------

/// An encodable value's encoding is never empty: it starts with the
/// marker byte.
pub proof fn lemma_enc_value_len_pos(m: SpecValue)
    requires
        encodable(m),
    ensures
        enc_value(m).len() >= 1,
{
}

/// An encodable entry list is in the canonical order.
pub proof fn lemma_enc_err_entries_sorted(es: Seq<(Seq<char>, SpecValue)>)
    requires
        enc_err_entries(es) is None,
    ensures
        entries_sorted(es),
    decreases es.len(),
{
    if es.len() > 0 {
        lemma_enc_err_entries_sorted(es.drop_first());
        assert forall|i: int, j: int| 0 <= i < j < es.len() implies key_lt(
            #[trigger] es[i].0,
            #[trigger] es[j].0,
        ) by {
            if i == 0 {
                if j == 1 {
                } else {
                    assert(es.drop_first()[0] == es[1]);
                    assert(es.drop_first()[j - 1] == es[j]);
                    assert(key_lt(es[1].0, es[j].0));
                    lemma_lex_lt_trans(
                        encode_utf8(es[0].0),
                        encode_utf8(es[1].0),
                        encode_utf8(es[j].0),
                    );
                }
            } else {
                assert(es.drop_first()[i - 1] == es[i]);
                assert(es.drop_first()[j - 1] == es[j]);
            }
        }
    }
}

// ---------------------------------------------------------------------------
// Decoding inverts encoding
// ---------------------------------------------------------------------------

/// Decoding a length-prefixed string finds the string again, whatever
/// follows it.
proof fn lemma_dec_enc_str(s: Seq<char>, tail: Seq<u8>)
    requires
        encode_utf8(s).len() <= 0xFFFF,
    ensures
        dec_str(enc_str(s) + tail) == Ok::<_, Error>((s, enc_str(s).len() as int)),
{
    let sl = encode_utf8(s).len() as int;
    let b = enc_str(s) + tail;
    assert(b.subrange(0, 2) =~= crate::bytes::be16_of(sl as u16));
    lemma_be16_roundtrip(sl as u16);
    assert(be16(b.subrange(0, 2)) == sl as u16);
    assert(b.subrange(2, 2 + sl) =~= encode_utf8(s));
    encode_utf8_valid_utf8(s);
    encode_utf8_decode_utf8(s);
    assert(dec_str(b) == Ok::<_, Error>((s, 2 + sl)));
}

/// Decoding the encoding of an encodable value finds the value again and
/// consumes exactly its encoding, whatever follows it.
#[verifier::rlimit(100)]
pub proof fn lemma_dec_enc_value(m: SpecValue, tail: Seq<u8>)
    requires
        encodable(m),
    ensures
        dec_value(enc_value(m) + tail) == Ok::<_, Error>((m, enc_value(m).len() as int)),
    decreases m, 0int,
{
    let eb = enc_value(m);
    let b = eb + tail;
    match m {
        SpecValue::Number(n) => {
            assert(b[0] == marker_to_byte(Marker::Number));
            assert(b.subrange(1, 9) =~= crate::bytes::be64_of(n));
            lemma_be64_roundtrip(n);
        },
        SpecValue::Bool(x) => {
            assert(b[0] == marker_to_byte(Marker::Boolean));
            assert(b[1] == eb[1]);
            if x {
                assert(b[1] == 1u8);
            } else {
                assert(b[1] == 0u8);
            }
        },
        SpecValue::Str(s) => {
            assert(b[0] == marker_to_byte(Marker::String));
            assert(b.skip(1) =~= enc_str(s) + tail);
            lemma_dec_enc_str(s, tail);
        },
        SpecValue::Null => {
            assert(b[0] == marker_to_byte(Marker::Null));
        },
        SpecValue::Undefined => {
            assert(b[0] == marker_to_byte(Marker::Undefined));
        },
        SpecValue::Object(es) => {
            assert(b[0] == marker_to_byte(Marker::Object));
            lemma_enc_err_entries_sorted(es);
            assert(Seq::<(Seq<char>, SpecValue)>::empty() + es =~= es);
            assert(b.skip(1) =~= (enc_entries(es) + end_sentinel()) + tail);
            lemma_dec_enc_entries(es, Seq::<(Seq<char>, SpecValue)>::empty(), tail);
        },
        SpecValue::EcmaArray(es) => {
            assert(b[0] == marker_to_byte(Marker::ECMAArray));
            assert(b.subrange(1, 5) =~= crate::bytes::be32_of(es.len() as u32));
            lemma_be32_roundtrip(es.len() as u32);
            lemma_enc_err_entries_sorted(es);
            assert(Seq::<(Seq<char>, SpecValue)>::empty() + es =~= es);
            assert(b.skip(5) =~= (enc_entries(es) + end_sentinel()) + tail);
            lemma_dec_enc_entries(es, Seq::<(Seq<char>, SpecValue)>::empty(), tail);
        },
        SpecValue::StrictArray(vs) => {
            assert(b[0] == marker_to_byte(Marker::StrictArray));
            assert(b.subrange(1, 5) =~= crate::bytes::be32_of(vs.len() as u32));
            lemma_be32_roundtrip(vs.len() as u32);
            assert(b.skip(5) =~= enc_elems(vs) + tail);
            lemma_dec_enc_elems(vs, tail);
        },
        _ => {
            assert(false);
        },
    }
}

/// Decoding the encoding of an encodable, canonically ordered entry list
/// followed by the sentinel appends the entries to the accumulator and
/// consumes exactly the list and the sentinel, whatever follows.
#[verifier::rlimit(100)]
pub proof fn lemma_dec_enc_entries(
    es: Seq<(Seq<char>, SpecValue)>,
    acc: Seq<(Seq<char>, SpecValue)>,
    tail: Seq<u8>,
)
    requires
        enc_err_entries(es) is None,
        entries_sorted(acc + es),
    ensures
        dec_entries((enc_entries(es) + end_sentinel()) + tail, acc) == Ok::<_, Error>(
            (acc + es, es.len() as int, enc_entries(es).len() as int + 3),
        ),
    decreases es, 0int,
{
    let b = (enc_entries(es) + end_sentinel()) + tail;
    if es.len() == 0 {
        assert(b.subrange(0, 2) =~= seq![0u8, 0u8]);
        assert(((0u8 as u16) << 8) | (0u8 as u16) == 0) by (bit_vector);
        assert(be16(seq![0u8, 0u8]) == 0);
        assert(b[2] == marker_to_byte(Marker::ObjectEnd));
        assert(dec_entry_key(b) == Ok::<_, Error>((None::<Seq<char>>, 3int)));
        assert(acc + es =~= acc);
    } else {
        let k = es[0].0;
        let v = es[0].1;
        let kb = encode_utf8(k);
        let n1 = enc_str(k).len() as int;
        let rest = es.drop_first();
        assert(enc_entries(es) == enc_str(k) + enc_value(v) + enc_entries(rest));

        // The key reads back.
        assert(b.subrange(0, 2) =~= crate::bytes::be16_of(kb.len() as u16));
        lemma_be16_roundtrip(kb.len() as u16);
        assert(be16(b.subrange(0, 2)) == kb.len() as u16);
        assert(be16(b.subrange(0, 2)) != 0);
        assert(b.subrange(0, n1) =~= enc_str(k));
        let tail1 = (enc_value(v) + enc_entries(rest) + end_sentinel()) + tail;
        assert(b =~= enc_str(k) + tail1);
        lemma_dec_enc_str(k, tail1);
        assert(dec_entry_key(b) == Ok::<_, Error>((Some(k), n1)));

        // The value reads back.
        let n2 = enc_value(v).len() as int;
        let tail2 = (enc_entries(rest) + end_sentinel()) + tail;
        assert(b.skip(n1) =~= enc_value(v) + tail2);
        lemma_dec_enc_value(v, tail2);
        lemma_enc_value_len_pos(v);

        // The inserted entry lands at the end of the accumulator.
        assert forall|i: int| 0 <= i < acc.len() implies key_lt(#[trigger] acc[i].0, k) by {
            assert((acc + es)[i] == acc[i]);
            assert((acc + es)[acc.len() as int] == es[0]);
        }
        lemma_spec_insert_append(acc, k, v);

        // The rest of the list decodes behind it.
        assert(acc.push((k, v)) + rest =~= acc + es);
        assert(entries_sorted(acc.push((k, v)) + rest));
        assert(b.skip(n1 + n2) =~= (enc_entries(rest) + end_sentinel()) + tail);
        lemma_dec_enc_entries(rest, acc.push((k, v)), tail);
        assert(dec_entries(b, acc) == Ok::<_, Error>(
            (acc + es, es.len() as int, enc_entries(es).len() as int + 3),
        ));
    }
}

/// Decoding the encodings of encodable elements, one after the other,
/// finds the elements again, whatever follows.
pub proof fn lemma_dec_enc_elems(vs: Seq<SpecValue>, tail: Seq<u8>)
    requires
        enc_err_elems(vs) is None,
    ensures
        dec_elems(enc_elems(vs) + tail, vs.len()) == Ok::<_, Error>(
            (vs, enc_elems(vs).len() as int),
        ),
    decreases vs, 0int,
{
    let b = enc_elems(vs) + tail;
    if vs.len() == 0 {
        assert(vs =~= Seq::<SpecValue>::empty());
    } else {
        let v = vs[0];
        let rest = vs.drop_first();
        let n1 = enc_value(v).len() as int;
        let tail1 = enc_elems(rest) + tail;
        assert(b =~= enc_value(v) + tail1);
        lemma_dec_enc_value(v, tail1);
        lemma_enc_value_len_pos(v);
        assert(b.skip(n1) =~= enc_elems(rest) + tail);
        lemma_dec_enc_elems(rest, tail);
        assert(seq![v] + rest =~= vs);
    }
}

/// Round trip: decoding the encoding of any encodable value yields the
/// value itself, consuming the whole encoding.
pub proof fn lemma_round_trip(m: SpecValue)
    requires
        encodable(m),
    ensures
        dec_value(enc_value(m)) == Ok::<_, Error>((m, enc_value(m).len() as int)),
{
    lemma_dec_enc_value(m, Seq::<u8>::empty());
    assert(enc_value(m) + Seq::<u8>::empty() =~= enc_value(m));
}

/// No two encodable values share an encoding: the wire bytes determine
/// the value.
pub proof fn lemma_encoding_injective(m1: SpecValue, m2: SpecValue)
    requires
        encodable(m1),
        encodable(m2),
        enc_value(m1) == enc_value(m2),
    ensures
        m1 == m2,
{
    lemma_round_trip(m1);
    lemma_round_trip(m2);
}

// ---------------------------------------------------------------------------
// Framing integrity
// ---------------------------------------------------------------------------

/// An `ECMAArray` encoding whose declared count differs from the number
/// of entries present before the terminator fails to decode with
/// `InvalidSize`.
pub proof fn lemma_ecma_count_mismatch(n: u32, es: Seq<(Seq<char>, SpecValue)>, tail: Seq<u8>)
    requires
        enc_err_entries(es) is None,
        entries_sorted(es),
        n != es.len(),
    ensures
        dec_value(
            seq![marker_to_byte(Marker::ECMAArray)] + crate::bytes::be32_of(n) + enc_entries(es)
                + end_sentinel() + tail,
        ) == Err::<(SpecValue, int), _>(Error::InvalidSize),
{
    let b = seq![marker_to_byte(Marker::ECMAArray)] + crate::bytes::be32_of(n) + enc_entries(es)
        + end_sentinel() + tail;
    assert(b[0] == marker_to_byte(Marker::ECMAArray));
    assert(b.subrange(1, 5) =~= crate::bytes::be32_of(n));
    lemma_be32_roundtrip(n);
    assert(Seq::<(Seq<char>, SpecValue)>::empty() + es =~= es);
    assert(b.skip(5) =~= (enc_entries(es) + end_sentinel()) + tail);
    lemma_dec_enc_entries(es, Seq::<(Seq<char>, SpecValue)>::empty(), tail);
}

// ---------------------------------------------------------------------------
// Deterministic encoding
// ---------------------------------------------------------------------------

/// Two canonically ordered entry lists holding the same entries are the
/// same list.
pub proof fn lemma_sorted_entries_canonical(
    es1: Seq<(Seq<char>, SpecValue)>,
    es2: Seq<(Seq<char>, SpecValue)>,
)
    requires
        entries_sorted(es1),
        entries_sorted(es2),
        es1.to_set() == es2.to_set(),
    ensures
        es1 == es2,
    decreases es1.len(),
{
    if es1.len() == 0 {
        if es2.len() > 0 {
            assert(es2.to_set().contains(es2[0]));
            assert(es1.contains(es2[0]));
            assert(false);
        }
        assert(es1 =~= es2);
    } else if es2.len() == 0 {
        assert(es1.to_set().contains(es1[0]));
        assert(es2.contains(es1[0]));
        assert(false);
    } else {
        // The heads carry the least keys, so they coincide.
        assert(es1.to_set().contains(es1[0]));
        assert(es2.contains(es1[0]));
        let j = choose|j: int| 0 <= j < es2.len() && es2[j] == es1[0];
        assert(es2.to_set().contains(es2[0]));
        assert(es1.contains(es2[0]));
        let i = choose|i: int| 0 <= i < es1.len() && es1[i] == es2[0];
        if es1[0] != es2[0] {
            assert(i > 0 && j > 0) by {
                if i == 0 {
                    assert(es1[0] == es2[0]);
                }
                if j == 0 {
                    assert(es1[0] == es2[0]);
                }
            }
            assert(key_lt(es1[0].0, es1[i].0));
            assert(key_lt(es2[0].0, es2[j].0));
            lemma_lex_lt_trans(
                encode_utf8(es1[0].0),
                encode_utf8(es2[0].0),
                encode_utf8(es1[0].0),
            );
            lemma_lex_lt_irrefl(encode_utf8(es1[0].0));
            assert(false);
        }
        // Strict order means the head appears once; drop it on both sides.
        assert(es1.drop_first().to_set() =~= es1.to_set().remove(es1[0])) by {
            lemma_drop_first_to_set(es1);
        }
        assert(es2.drop_first().to_set() =~= es2.to_set().remove(es2[0])) by {
            lemma_drop_first_to_set(es2);
        }
        assert(entries_sorted(es1.drop_first())) by {
            assert(forall|i: int, j: int|
                0 <= i < j < es1.drop_first().len() ==> es1.drop_first()[i] == es1[i + 1]
                    && es1.drop_first()[j] == es1[j + 1]);
        }
        assert(entries_sorted(es2.drop_first())) by {
            assert(forall|i: int, j: int|
                0 <= i < j < es2.drop_first().len() ==> es2.drop_first()[i] == es2[i + 1]
                    && es2.drop_first()[j] == es2[j + 1]);
        }
        lemma_sorted_entries_canonical(es1.drop_first(), es2.drop_first());
        assert(es1.len() == es2.len());
        assert forall|t: int| 0 <= t < es1.len() implies es1[t] == es2[t] by {
            if t >= 1 {
                assert(es1.drop_first()[t - 1] == es1[t]);
                assert(es2.drop_first()[t - 1] == es2[t]);
            }
        }
        assert(es1 =~= es2);
    }
}

/// In a canonically ordered list the head appears nowhere else, so
/// dropping it removes exactly one entry from the entry set.
proof fn lemma_drop_first_to_set(es: Seq<(Seq<char>, SpecValue)>)
    requires
        entries_sorted(es),
        es.len() > 0,
    ensures
        es.drop_first().to_set() =~= es.to_set().remove(es[0]),
{
    let rest = es.drop_first();
    assert forall|e: (Seq<char>, SpecValue)| rest.to_set().contains(e) implies es.to_set().remove(
        es[0],
    ).contains(e) by {
        let t = choose|t: int| 0 <= t < rest.len() && rest[t] == e;
        assert(es[t + 1] == e);
        assert(es.to_set().contains(e));
        assert(key_lt(es[0].0, es[t + 1].0));
        lemma_lex_lt_irrefl(encode_utf8(es[0].0));
        assert(e != es[0]);
    }
    assert forall|e: (Seq<char>, SpecValue)| es.to_set().remove(es[0]).contains(e) implies
        rest.to_set().contains(e) by {
        let t = choose|t: int| 0 <= t < es.len() && es[t] == e;
        assert(e != es[0]);
        assert(t >= 1);
        assert(rest[t - 1] == e);
        assert(rest.contains(e));
    }
}

/// Determinism: the wire bytes of an object are a function of its entry
/// set alone.  Two objects holding the same entries in the canonical
/// order encode byte-identically.
pub proof fn lemma_object_encoding_deterministic(
    es1: Seq<(Seq<char>, SpecValue)>,
    es2: Seq<(Seq<char>, SpecValue)>,
)
    requires
        entries_sorted(es1),
        entries_sorted(es2),
        es1.to_set() == es2.to_set(),
    ensures
        enc_value(SpecValue::Object(es1)) == enc_value(SpecValue::Object(es2)),
{
    lemma_sorted_entries_canonical(es1, es2);
}

// ---------------------------------------------------------------------------
// Truncation
// ---------------------------------------------------------------------------

/// Whether cutting a value's encoding at `cut` leaves a complete
/// length field of a string or key whose declared payload is then cut
/// short.  Exactly there the decoder reports `InvalidSize` instead of
/// `UnexpectedEOF`.
pub open spec fn cut_in_string_payload(m: SpecValue, cut: int) -> bool
    decreases m, 0int,
{
    match m {
        SpecValue::Str(s) => cut >= 3,
        SpecValue::Object(es) => cut_in_entries_payload(es, cut - 1),
        SpecValue::EcmaArray(es) => cut >= 5 && cut_in_entries_payload(es, cut - 5),
        SpecValue::StrictArray(vs) => cut >= 5 && cut_in_elems_payload(vs, cut - 5),
        _ => false,
    }
}

/// The same question for a cut inside an encoded entry list.
pub open spec fn cut_in_entries_payload(es: Seq<(Seq<char>, SpecValue)>, cut: int) -> bool
    decreases es, 0int,
{
    if es.len() == 0 {
        false
    } else {
        let n1 = enc_str(es[0].0).len() as int;
        let n2 = enc_value(es[0].1).len() as int;
        if cut < 2 {
            false
        } else if cut < n1 {
            true
        } else if cut < n1 + n2 {
            cut_in_string_payload(es[0].1, cut - n1)
        } else {
            cut_in_entries_payload(es.drop_first(), cut - n1 - n2)
        }
    }
}

/// The same question for a cut inside an encoded element list.
pub open spec fn cut_in_elems_payload(vs: Seq<SpecValue>, cut: int) -> bool
    decreases vs, 0int,
{
    if vs.len() == 0 {
        false
    } else {
        let n1 = enc_value(vs[0]).len() as int;
        if cut < n1 {
            cut_in_string_payload(vs[0], cut)
        } else {
            cut_in_elems_payload(vs.drop_first(), cut - n1)
        }
    }
}

/// Truncation: a strict prefix of an encodable value's encoding never
/// decodes to a value.  It fails with `UnexpectedEOF`, except where the
/// cut falls inside a length-prefixed string or key payload, whose
/// declared length then exceeds what is left: there it fails with
/// `InvalidSize`.
#[verifier::rlimit(100)]
pub proof fn lemma_truncation(m: SpecValue, cut: int)
    requires
        encodable(m),
        0 <= cut < enc_value(m).len(),
    ensures
        dec_value(enc_value(m).take(cut)) == Err::<(SpecValue, int), _>(
            if cut_in_string_payload(m, cut) {
                Error::InvalidSize
            } else {
                Error::UnexpectedEOF
            },
        ),
    decreases m, 0int,
{
    let eb = enc_value(m);
    let p = eb.take(cut);
    if cut == 0 {
        assert(p.len() == 0);
    } else {
        assert(p[0] == eb[0]);
        match m {
            SpecValue::Number(n) => {
                assert(p[0] == marker_to_byte(Marker::Number));
                assert(p.len() < 9);
            },
            SpecValue::Bool(x) => {
                assert(p[0] == marker_to_byte(Marker::Boolean));
                assert(p.len() < 2);
            },
            SpecValue::Str(s) => {
                assert(p[0] == marker_to_byte(Marker::String));
                let sl = encode_utf8(s).len() as int;
                if cut < 3 {
                    assert(p.skip(1).len() < 2);
                } else {
                    assert(p.skip(1).subrange(0, 2) =~= crate::bytes::be16_of(sl as u16));
                    lemma_be16_roundtrip(sl as u16);
                    assert(p.skip(1).len() == cut - 1 < 2 + sl);
                }
            },
            SpecValue::Null => {
                assert(false);
            },
            SpecValue::Undefined => {
                assert(false);
            },
            SpecValue::Object(es) => {
                assert(p[0] == marker_to_byte(Marker::Object));
                let x = enc_entries(es) + end_sentinel();
                assert(p.skip(1) =~= x.take(cut - 1));
                lemma_truncation_entries(es, Seq::<(Seq<char>, SpecValue)>::empty(), cut - 1);
            },
            SpecValue::EcmaArray(es) => {
                assert(p[0] == marker_to_byte(Marker::ECMAArray));
                if cut < 5 {
                    assert(p.len() < 5);
                } else {
                    let x = enc_entries(es) + end_sentinel();
                    assert(p.skip(5) =~= x.take(cut - 5));
                    lemma_truncation_entries(es, Seq::<(Seq<char>, SpecValue)>::empty(), cut - 5);
                }
            },
            SpecValue::StrictArray(vs) => {
                assert(p[0] == marker_to_byte(Marker::StrictArray));
                if cut < 5 {
                    assert(p.len() < 5);
                } else {
                    assert(p.subrange(1, 5) =~= crate::bytes::be32_of(vs.len() as u32));
                    lemma_be32_roundtrip(vs.len() as u32);
                    assert(p.skip(5) =~= enc_elems(vs).take(cut - 5));
                    lemma_truncation_elems(vs, cut - 5);
                }
            },
            _ => {
                assert(false);
            },
        }
    }
}

/// Truncation inside an entry list: cutting the list short of its
/// sentinel fails, whatever the accumulator holds.
#[verifier::rlimit(100)]
pub proof fn lemma_truncation_entries(
    es: Seq<(Seq<char>, SpecValue)>,
    acc: Seq<(Seq<char>, SpecValue)>,
    cut: int,
)
    requires
        enc_err_entries(es) is None,
        0 <= cut < enc_entries(es).len() + 3,
    ensures
        dec_entries((enc_entries(es) + end_sentinel()).take(cut), acc) == Err::<
            (Seq<(Seq<char>, SpecValue)>, int, int),
            _,
        >(
            if cut_in_entries_payload(es, cut) {
                Error::InvalidSize
            } else {
                Error::UnexpectedEOF
            },
        ),
    decreases es, 0int,
{
    let x = enc_entries(es) + end_sentinel();
    let p = x.take(cut);
    if es.len() == 0 {
        if cut < 2 {
            assert(p.len() < 2);
        } else {
            assert(cut == 2);
            assert(p.subrange(0, 2) =~= seq![0u8, 0u8]);
            assert(((0u8 as u16) << 8) | (0u8 as u16) == 0) by (bit_vector);
            assert(be16(seq![0u8, 0u8]) == 0);
            assert(p.len() < 3);
        }
    } else {
        let k = es[0].0;
        let v = es[0].1;
        let kb = encode_utf8(k);
        let n1 = enc_str(k).len() as int;
        let n2 = enc_value(v).len() as int;
        let rest = es.drop_first();
        assert(enc_entries(es) == enc_str(k) + enc_value(v) + enc_entries(rest));
        lemma_enc_value_len_pos(v);
        if cut < 2 {
            assert(p.len() < 2);
        } else if cut < n1 {
            assert(p.subrange(0, 2) =~= crate::bytes::be16_of(kb.len() as u16));
            lemma_be16_roundtrip(kb.len() as u16);
            assert(be16(p.subrange(0, 2)) == kb.len() as u16);
            assert(be16(p.subrange(0, 2)) != 0);
            assert(p.len() == cut < 2 + kb.len());
        } else {
            let y = (enc_value(v) + enc_entries(rest)) + end_sentinel();
            assert(p =~= enc_str(k) + y.take(cut - n1));
            lemma_dec_enc_str(k, y.take(cut - n1));
            assert(dec_entry_key(p) == Ok::<_, Error>((Some(k), n1)));
            if cut < n1 + n2 {
                assert(p.skip(n1) =~= enc_value(v).take(cut - n1));
                lemma_truncation(v, cut - n1);
            } else {
                let z = enc_entries(rest) + end_sentinel();
                assert(p.skip(n1) =~= enc_value(v) + z.take(cut - n1 - n2));
                lemma_dec_enc_value(v, z.take(cut - n1 - n2));
                assert(p.skip(n1 + n2) =~= z.take(cut - n1 - n2));
                lemma_truncation_entries(rest, spec_insert(acc, k, v), cut - n1 - n2);
            }
        }
    }
}

/// Truncation inside an element list: cutting any element short fails.
pub proof fn lemma_truncation_elems(vs: Seq<SpecValue>, cut: int)
    requires
        enc_err_elems(vs) is None,
        0 <= cut < enc_elems(vs).len(),
    ensures
        dec_elems(enc_elems(vs).take(cut), vs.len()) == Err::<(Seq<SpecValue>, int), _>(
            if cut_in_elems_payload(vs, cut) {
                Error::InvalidSize
            } else {
                Error::UnexpectedEOF
            },
        ),
    decreases vs, 0int,
{
    if vs.len() == 0 {
    } else {
        let v = vs[0];
        let rest = vs.drop_first();
        let n1 = enc_value(v).len() as int;
        let p = enc_elems(vs).take(cut);
        lemma_enc_value_len_pos(v);
        if cut < n1 {
            assert(p =~= enc_value(v).take(cut));
            lemma_truncation(v, cut);
        } else {
            assert(p =~= enc_value(v) + enc_elems(rest).take(cut - n1));
            lemma_dec_enc_value(v, enc_elems(rest).take(cut - n1));
            assert(p.skip(n1) =~= enc_elems(rest).take(cut - n1));
            lemma_truncation_elems(rest, cut - n1);
            assert(rest.len() == vs.len() - 1);
        }
    }
}

// ---------------------------------------------------------------------------
// Decoded values are well formed
// ---------------------------------------------------------------------------

/// Canonically ordered entries with bounded keys and encodable values
/// make an encodable entry list.
pub proof fn lemma_entries_wf_enc_err(es: Seq<(Seq<char>, SpecValue)>)
    requires
        entries_sorted(es),
        forall|i: int|
            0 <= i < es.len() ==> 1 <= encode_utf8(#[trigger] es[i].0).len() <= 0xFFFF && encodable(
                es[i].1,
            ),
    ensures
        enc_err_entries(es) is None,
    decreases es.len(),
{
    if es.len() > 0 {
        assert(1 <= encode_utf8(es[0].0).len() <= 0xFFFF && encodable(es[0].1));
        if es.len() > 1 {
            assert(key_lt(es[0].0, es[1].0));
        }
        assert(forall|i: int|
            0 <= i < es.drop_first().len() ==> #[trigger] es.drop_first()[i] == es[i + 1]);
        lemma_entries_wf_enc_err(es.drop_first());
    }
}

/// Encodable elements make an encodable element list.
pub proof fn lemma_elems_wf_enc_err(vs: Seq<SpecValue>)
    requires
        forall|i: int| 0 <= i < vs.len() ==> encodable(#[trigger] vs[i]),
    ensures
        enc_err_elems(vs) is None,
    decreases vs.len(),
{
    if vs.len() > 0 {
        assert(forall|i: int|
            0 <= i < vs.drop_first().len() ==> #[trigger] vs.drop_first()[i] == vs[i + 1]);
        lemma_elems_wf_enc_err(vs.drop_first());
    }
}

/// Whatever decodes is encodable: every decoded string fits its length
/// field, every entry list is canonically ordered with unique keys, and
/// every count fits its count field.  In particular a decoded value
/// encodes again.
#[verifier::rlimit(100)]
pub proof fn lemma_decode_encodable(b: Seq<u8>)
    ensures
        dec_value(b) matches Ok((m, n)) ==> encodable(m),
    decreases b.len(), 0int,
{
    if b.len() > 0 {
        match marker_of_byte(b[0]) {
            None => {},
            Some(mk) => match mk {
                Marker::String => {
                    if b.len() >= 3 {
                        let sb = b.skip(1);
                        let n = be16(sb.subrange(0, 2)) as int;
                        if 2 + n <= sb.len() && vstd::utf8::valid_utf8(sb.subrange(2, 2 + n)) {
                            vstd::utf8::decode_utf8_encode_utf8(sb.subrange(2, 2 + n));
                        }
                    }
                },
                Marker::Object => {
                    lemma_dec_entries_encodable(b.skip(1), Seq::<(Seq<char>, SpecValue)>::empty());
                    match dec_entries(b.skip(1), Seq::<(Seq<char>, SpecValue)>::empty()) {
                        Ok((es, c, n)) => {
                            lemma_entries_wf_enc_err(es);
                        },
                        Err(_) => {},
                    }
                },
                Marker::ECMAArray => {
                    if b.len() >= 5 {
                        lemma_dec_entries_encodable(
                            b.skip(5),
                            Seq::<(Seq<char>, SpecValue)>::empty(),
                        );
                        match dec_entries(b.skip(5), Seq::<(Seq<char>, SpecValue)>::empty()) {
                            Ok((es, c, n)) => {
                                lemma_entries_wf_enc_err(es);
                            },
                            Err(_) => {},
                        }
                    }
                },
                Marker::StrictArray => {
                    if b.len() >= 5 {
                        lemma_dec_elems_encodable(b.skip(5), be32(b.subrange(1, 5)) as nat);
                        match dec_elems(b.skip(5), be32(b.subrange(1, 5)) as nat) {
                            Ok((vs, n)) => {
                                lemma_elems_wf_enc_err(vs);
                            },
                            Err(_) => {},
                        }
                    }
                },
                _ => {},
            },
        }
    }
}

/// Decoded entry lists stay canonically ordered with bounded keys and
/// encodable values, and grow by at most one entry per wire entry.
#[verifier::rlimit(100)]
pub proof fn lemma_dec_entries_encodable(b: Seq<u8>, acc: Seq<(Seq<char>, SpecValue)>)
    requires
        entries_sorted(acc),
        forall|i: int|
            0 <= i < acc.len() ==> 1 <= encode_utf8(#[trigger] acc[i].0).len() <= 0xFFFF
                && encodable(acc[i].1),
    ensures
        dec_entries(b, acc) matches Ok((es, c, n)) ==> entries_sorted(es) && es.len() <= acc.len()
            + c && (forall|i: int|
            0 <= i < es.len() ==> 1 <= encode_utf8(#[trigger] es[i].0).len() <= 0xFFFF && encodable(
                es[i].1,
            )),
    decreases b.len(), 1int,
{
    match dec_entry_key(b) {
        Err(_) => {},
        Ok((None, n1)) => {},
        Ok((Some(k), n1)) => {
            if 1 <= n1 <= b.len() {
                // The key decodes from its wire bytes, so its UTF-8 length
                // is the nonzero 16-bit length field.
                if b.len() >= 2 && be16(b.subrange(0, 2)) != 0 {
                    let kn = be16(b.subrange(0, 2)) as int;
                    if 2 + kn <= b.len() && vstd::utf8::valid_utf8(b.subrange(2, 2 + kn)) {
                        vstd::utf8::decode_utf8_encode_utf8(b.subrange(2, 2 + kn));
                    }
                }
                lemma_decode_encodable(b.skip(n1));
                match dec_value(b.skip(n1)) {
                    Err(_) => {},
                    Ok((v, n2)) => {
                        if 0 < n2 && n1 + n2 <= b.len() {
                            let acc2 = spec_insert(acc, k, v);
                            crate::value::lemma_spec_insert_sorted(acc, k, v);
                            crate::value::lemma_spec_insert_contents(acc, k, v);
                            assert(1 <= encode_utf8(k).len() <= 0xFFFF);
                            assert forall|i: int| 0 <= i < acc2.len() implies 1 <= encode_utf8(
                                #[trigger] acc2[i].0,
                            ).len() <= 0xFFFF && encodable(acc2[i].1) by {
                                if acc2[i] != (k, v) {
                                    assert(acc.contains(acc2[i]));
                                    let w = choose|w: int|
                                        0 <= w < acc.len() && acc[w] == acc2[i];
                                    assert(1 <= encode_utf8(acc[w].0).len() <= 0xFFFF && encodable(
                                        acc[w].1,
                                    ));
                                }
                            }
                            lemma_dec_entries_encodable(b.skip(n1 + n2), acc2);
                        }
                    },
                }
            }
        },
    }
}

/// Decoded element lists hold encodable values only.
pub proof fn lemma_dec_elems_encodable(b: Seq<u8>, n: nat)
    ensures
        dec_elems(b, n) matches Ok((vs, m)) ==> vs.len() == n && (forall|i: int|
            0 <= i < vs.len() ==> encodable(#[trigger] vs[i])),
    decreases b.len(), 1int,
{
    if n > 0 {
        lemma_decode_encodable(b);
        match dec_value(b) {
            Err(_) => {},
            Ok((v, n1)) => {
                if 0 < n1 <= b.len() {
                    lemma_dec_elems_encodable(b.skip(n1), (n - 1) as nat);
                    match dec_elems(b.skip(n1), (n - 1) as nat) {
                        Err(_) => {},
                        Ok((vs, n2)) => {
                            assert(forall|i: int|
                                1 <= i < vs.len() + 1 ==> (seq![v] + vs)[i] == #[trigger] vs[i
                                    - 1]);
                        },
                    }
                }
            },
        }
    }
}

} // verus!
