//! The decoder: what every byte sequence means, stated by [`dec_value`],
//! and the marker-dispatch decoder [`Deserializer`] verified against it.

use vstd::prelude::*;
use vstd::utf8::decode_utf8;
use vstd::utf8::valid_utf8;
use crate::bytes::be16;
use crate::bytes::be32;
use crate::bytes::be64;
use crate::error::Error;
use crate::reader::Read;
use crate::reader::SliceReader;
use crate::value::Marker;
use crate::value::SpecValue;
use crate::value::Value;
use crate::value::entries_sorted;
use crate::value::entries_view;
use crate::value::elems_view;
use crate::value::insert_entry;
use crate::value::lemma_elems_view_index;
use crate::value::lemma_elems_view_len;
use crate::value::marker_of_byte;
use crate::value::marker_to_byte;
use crate::value::spec_insert;

verus! {

// ---------------------------------------------------------------------------
// The decoding, stated
// ---------------------------------------------------------------------------

/// Decodes a length-prefixed string: a 2-byte big-endian byte count, then
/// that many bytes of UTF-8.  Too few bytes for the count itself is
/// `UnexpectedEOF`; a count exceeding the remaining bytes is
/// `InvalidSize`; bytes that are not UTF-8 are `SyntaxError`.
pub open spec fn dec_str(b: Seq<u8>) -> Result<(Seq<char>, int), Error> {
    if b.len() < 2 {
        Err(Error::UnexpectedEOF)
    } else {
        let n = be16(b.subrange(0, 2)) as int;
        if 2 + n > b.len() {
            Err(Error::InvalidSize)
        } else if valid_utf8(b.subrange(2, 2 + n)) {
            Ok((decode_utf8(b.subrange(2, 2 + n)), 2 + n))
        } else {
            Err(Error::SyntaxError)
        }
    }
}

/// Reads one map-entry key in a single deterministic step.  A zero key
/// length means the entry list ends: the next byte must then be the
/// object-end marker, which is consumed exactly once, and `None` is
/// reported.  A nonzero length reads the key as a string.
pub open spec fn dec_entry_key(b: Seq<u8>) -> Result<(Option<Seq<char>>, int), Error> {
    if b.len() < 2 {
        Err(Error::UnexpectedEOF)
    } else if be16(b.subrange(0, 2)) == 0 {
        if b.len() < 3 {
            Err(Error::UnexpectedEOF)
        } else if b[2] == marker_to_byte(Marker::ObjectEnd) {
            Ok((None, 3))
        } else {
            Err(Error::InvalidSize)
        }
    } else {
        match dec_str(b) {
            Ok((s, n)) => Ok((Some(s), n)),
            Err(e) => Err(e),
        }
    }
}

/// Decodes one value from the front of `b`: the marker byte picks the
/// kind, the payload follows.  On success the result carries the decoded
/// value and how many bytes it occupied.  Composites decode recursively;
/// entry lists are canonicalized as they are read, a later duplicate key
/// replacing an earlier one.
pub open spec fn dec_value(b: Seq<u8>) -> Result<(SpecValue, int), Error>
    decreases b.len(), 0int,
{
    if b.len() == 0 {
        Err(Error::UnexpectedEOF)
    } else {
        match marker_of_byte(b[0]) {
            None => Err(Error::SyntaxError),
            Some(m) => match m {
                Marker::Number => if b.len() >= 9 {
                    Ok((SpecValue::Number(be64(b.subrange(1, 9))), 9))
                } else {
                    Err(Error::UnexpectedEOF)
                },
                Marker::Boolean => if b.len() >= 2 {
                    Ok((SpecValue::Bool(b[1] != 0), 2))
                } else {
                    Err(Error::UnexpectedEOF)
                },
                Marker::String => match dec_str(b.skip(1)) {
                    Ok((s, n)) => Ok((SpecValue::Str(s), 1 + n)),
                    Err(e) => Err(e),
                },
                Marker::Object => match dec_entries(
                    b.skip(1),
                    Seq::<(Seq<char>, SpecValue)>::empty(),
                ) {
                    Ok((es, c, n)) => Ok((SpecValue::Object(es), 1 + n)),
                    Err(e) => Err(e),
                },
                Marker::Null => Ok((SpecValue::Null, 1)),
                Marker::Undefined => Ok((SpecValue::Undefined, 1)),
                Marker::ECMAArray => if b.len() >= 5 {
                    match dec_entries(b.skip(5), Seq::<(Seq<char>, SpecValue)>::empty()) {
                        Ok((es, c, n)) => if c == be32(b.subrange(1, 5)) as int {
                            Ok((SpecValue::EcmaArray(es), 5 + n))
                        } else {
                            Err(Error::InvalidSize)
                        },
                        Err(e) => Err(e),
                    }
                } else {
                    Err(Error::UnexpectedEOF)
                },
                Marker::StrictArray => if b.len() >= 5 {
                    match dec_elems(b.skip(5), be32(b.subrange(1, 5)) as nat) {
                        Ok((vs, n)) => Ok((SpecValue::StrictArray(vs), 5 + n)),
                        Err(e) => Err(e),
                    }
                } else {
                    Err(Error::UnexpectedEOF)
                },
                _ => Err(Error::SyntaxError),
            },
        }
    }
}

/// Decodes entries until the termination sentinel, folding each into the
/// accumulator in canonical order (a later duplicate key wins).  On
/// success the result carries the entries, how many were read from the
/// wire, and how many bytes they occupied, sentinel included.
pub open spec fn dec_entries(b: Seq<u8>, acc: Seq<(Seq<char>, SpecValue)>) -> Result<
    (Seq<(Seq<char>, SpecValue)>, int, int),
    Error,
>
    decreases b.len(), 1int,
{
    match dec_entry_key(b) {
        Err(e) => Err(e),
        Ok((None, n1)) => Ok((acc, 0, n1)),
        Ok((Some(k), n1)) => if 1 <= n1 <= b.len() {
            match dec_value(b.skip(n1)) {
                Err(e) => Err(e),
                Ok((v, n2)) => if 0 < n2 && n1 + n2 <= b.len() {
                    match dec_entries(b.skip(n1 + n2), spec_insert(acc, k, v)) {
                        Err(e) => Err(e),
                        Ok((es, c, n3)) => Ok((es, c + 1, n1 + n2 + n3)),
                    }
                } else {
                    Err(Error::UnexpectedEOF)
                },
            }
        } else {
            Err(Error::UnexpectedEOF)
        },
    }
}

/// Decodes exactly `n` values in sequence, with no sentinel.
pub open spec fn dec_elems(b: Seq<u8>, n: nat) -> Result<(Seq<SpecValue>, int), Error>
    decreases b.len(), 1int,
{
    if n == 0 {
        Ok((Seq::empty(), 0))
    } else {
        match dec_value(b) {
            Err(e) => Err(e),
            Ok((v, n1)) => if 0 < n1 <= b.len() {
                match dec_elems(b.skip(n1), (n - 1) as nat) {
                    Err(e) => Err(e),
                    Ok((vs, n2)) => Ok((seq![v] + vs, n1 + n2)),
                }
            } else {
                Err(Error::UnexpectedEOF)
            },
        }
    }
}

// ---------------------------------------------------------------------------
// Bounds of the decoding
// ---------------------------------------------------------------------------

/// A decoded string occupies between 2 bytes and the whole input.
pub proof fn lemma_dec_str_bounds(b: Seq<u8>)
    ensures
        dec_str(b) matches Ok((s, n)) ==> 2 <= n <= b.len(),
{
}

/// A decoded entry key occupies exactly 3 bytes when it reports the end,
/// at least 3 otherwise, and never more than the whole input.
pub proof fn lemma_dec_entry_key_bounds(b: Seq<u8>)
    ensures
        dec_entry_key(b) matches Ok((o, n)) ==> n <= b.len() && (o is None ==> n == 3) && (
        o is Some ==> 3 <= n),
{
    if b.len() >= 2 && be16(b.subrange(0, 2)) != 0 {
        lemma_dec_str_bounds(b);
    }
}

/// A decoded value occupies between 1 byte and the whole input.
pub proof fn lemma_dec_value_bounds(b: Seq<u8>)
    ensures
        dec_value(b) matches Ok((v, n)) ==> 1 <= n <= b.len(),
    decreases b.len(), 0int,
{
    if b.len() > 0 {
        match marker_of_byte(b[0]) {
            None => {},
            Some(m) => match m {
                Marker::String => {
                    lemma_dec_str_bounds(b.skip(1));
                },
                Marker::Object => {
                    lemma_dec_entries_bounds(b.skip(1), Seq::<(Seq<char>, SpecValue)>::empty());
                },
                Marker::ECMAArray => if b.len() >= 5 {
                    lemma_dec_entries_bounds(b.skip(5), Seq::<(Seq<char>, SpecValue)>::empty());
                },
                Marker::StrictArray => if b.len() >= 5 {
                    lemma_dec_elems_bounds(b.skip(5), be32(b.subrange(1, 5)) as nat);
                },
                _ => {},
            },
        }
    }
}

/// A decoded entry list occupies at least 4 bytes per wire entry plus the
/// 3-byte sentinel, and never more than the whole input.
pub proof fn lemma_dec_entries_bounds(b: Seq<u8>, acc: Seq<(Seq<char>, SpecValue)>)
    ensures
        dec_entries(b, acc) matches Ok((es, c, n)) ==> 0 <= c && 4 * c + 3 <= n <= b.len(),
    decreases b.len(), 1int,
{
    lemma_dec_entry_key_bounds(b);
    match dec_entry_key(b) {
        Err(_) => {},
        Ok((None, n1)) => {},
        Ok((Some(k), n1)) => if 1 <= n1 <= b.len() {
            lemma_dec_value_bounds(b.skip(n1));
            match dec_value(b.skip(n1)) {
                Err(_) => {},
                Ok((v, n2)) => if 0 < n2 && n1 + n2 <= b.len() {
                    lemma_dec_entries_bounds(b.skip(n1 + n2), spec_insert(acc, k, v));
                },
            }
        },
    }
}

/// A decoded element list decodes exactly the demanded number of values.
pub proof fn lemma_dec_elems_bounds(b: Seq<u8>, n: nat)
    ensures
        dec_elems(b, n) matches Ok((vs, m)) ==> 0 <= m <= b.len() && vs.len() == n,
    decreases b.len(), 1int,
{
    if n > 0 {
        lemma_dec_value_bounds(b);
        match dec_value(b) {
            Err(_) => {},
            Ok((v, n1)) => if 0 < n1 <= b.len() {
                lemma_dec_elems_bounds(b.skip(n1), (n - 1) as nat);
            },
        }
    }
}

// ---------------------------------------------------------------------------
// The executable decoder
// ---------------------------------------------------------------------------

/// Relies on `String::from_utf8`: it accepts exactly the UTF-8-valid byte
/// vectors, and the characters of the returned string are the UTF-8
/// decoding of those bytes.
#[verifier::external_body]
fn bytes_to_string(v: Vec<u8>) -> (r: Option<String>)
    ensures
        r matches Some(s) ==> valid_utf8(v@) && s@ == decode_utf8(v@),
        r is None ==> !valid_utf8(v@),
{
    match String::from_utf8(v) {
        Ok(s) => Some(s),
        Err(_) => None,
    }
}

/// The marker-dispatch decoder: pulls bytes from a cursor and
/// reconstructs one value, enforcing the framing rules for composites.
pub struct Deserializer<W> {
    pub reader: W,
}

impl<W: Read> Deserializer<W> {
    /// The bytes not yet consumed.
    pub open spec fn remaining(self) -> Seq<u8> {
        self.reader.data().skip(self.reader.pos())
    }

    /// The decoder's invariant: a sound cursor whose position stays
    /// within an input of addressable size.
    pub open spec fn wf(self) -> bool {
        &&& self.reader.inv()
        &&& 0 <= self.reader.pos() <= self.reader.data().len()
        &&& self.reader.data().len() <= usize::MAX
    }

    /// A decoder over the given byte source.
    pub fn new(reader: W) -> (r: Self)
        ensures
            r.reader == reader,
    {
        Deserializer { reader }
    }

    /// Consumes one byte, or reports `UnexpectedEOF` at end of input.
    pub fn next_value_or_eof(&mut self) -> (r: Result<u8, Error>)
        requires
            old(self).wf(),
        ensures
            final(self).wf(),
            final(self).reader.data() == old(self).reader.data(),
            match r {
                Ok(c) => old(self).remaining().len() > 0 && c == old(self).remaining()[0] && final(self).reader.pos() == old(self).reader.pos() + 1,
                Err(e) => e == Error::UnexpectedEOF && old(self).remaining().len() == 0 && final(self).reader.pos() == old(self).reader.pos(),
            },
    {
        match self.reader.next() {
            Some(c) => Ok(c),
            None => Err(Error::UnexpectedEOF),
        }
    }

    /// Consumes the marker byte and looks its kind up in the marker
    /// table; an unreserved byte is a `SyntaxError`.
    pub fn read_marker(&mut self) -> (r: Result<Marker, Error>)
        requires
            old(self).wf(),
        ensures
            final(self).wf(),
            final(self).reader.data() == old(self).reader.data(),
            match r {
                Ok(m) => old(self).remaining().len() > 0 && marker_of_byte(
                    old(self).remaining()[0],
                ) == Some(m) && final(self).reader.pos() == old(self).reader.pos() + 1,
                Err(e) => (e == Error::UnexpectedEOF && old(self).remaining().len() == 0) || (e
                    == Error::SyntaxError && old(self).remaining().len() > 0 && marker_of_byte(
                    old(self).remaining()[0],
                ) is None),
            },
    {
        let c = self.next_value_or_eof()?;
        match Marker::from_byte(c) {
            Some(m) => Ok(m),
            None => Err(Error::SyntaxError),
        }
    }

    /// Reads a 2-byte big-endian field.
    pub fn read_u16(&mut self) -> (r: Result<u16, Error>)
        requires
            old(self).wf(),
        ensures
            final(self).wf(),
            final(self).reader.data() == old(self).reader.data(),
            match r {
                Ok(n) => old(self).remaining().len() >= 2 && n == be16(
                    old(self).remaining().subrange(0, 2),
                ) && final(self).reader.pos() == old(self).reader.pos() + 2,
                Err(e) => e == Error::UnexpectedEOF && old(self).remaining().len() < 2,
            },
    {
        let c0 = self.next_value_or_eof()?;
        let c1 = self.next_value_or_eof()?;
        proof {
            assert(old(self).remaining()[1] == old(self).remaining().subrange(0, 2)[1]);
            assert(old(self).remaining()[0] == old(self).remaining().subrange(0, 2)[0]);
        }
        Ok(((c0 as u16) << 8) | (c1 as u16))
    }

    /// Reads a 4-byte big-endian field.
    pub fn read_u32(&mut self) -> (r: Result<u32, Error>)
        requires
            old(self).wf(),
        ensures
            final(self).wf(),
            final(self).reader.data() == old(self).reader.data(),
            match r {
                Ok(n) => old(self).remaining().len() >= 4 && n == be32(
                    old(self).remaining().subrange(0, 4),
                ) && final(self).reader.pos() == old(self).reader.pos() + 4,
                Err(e) => e == Error::UnexpectedEOF && old(self).remaining().len() < 4,
            },
    {
        let c0 = self.next_value_or_eof()?;
        let c1 = self.next_value_or_eof()?;
        let c2 = self.next_value_or_eof()?;
        let c3 = self.next_value_or_eof()?;
        proof {
            assert forall|j: int| 0 <= j < 4 implies old(self).remaining().subrange(0, 4)[j] == old(
                self,
            ).remaining()[j] by {}
        }
        Ok((((c0 as u32) << 24) | ((c1 as u32) << 16) | ((c2 as u32) << 8) | (c3 as u32)))
    }

    /// Reads an 8-byte big-endian field.
    pub fn read_u64(&mut self) -> (r: Result<u64, Error>)
        requires
            old(self).wf(),
        ensures
            final(self).wf(),
            final(self).reader.data() == old(self).reader.data(),
            match r {
                Ok(n) => old(self).remaining().len() >= 8 && n == be64(
                    old(self).remaining().subrange(0, 8),
                ) && final(self).reader.pos() == old(self).reader.pos() + 8,
                Err(e) => e == Error::UnexpectedEOF && old(self).remaining().len() < 8,
            },
    {
        let c0 = self.next_value_or_eof()?;
        let c1 = self.next_value_or_eof()?;
        let c2 = self.next_value_or_eof()?;
        let c3 = self.next_value_or_eof()?;
        let c4 = self.next_value_or_eof()?;
        let c5 = self.next_value_or_eof()?;
        let c6 = self.next_value_or_eof()?;
        let c7 = self.next_value_or_eof()?;
        proof {
            assert forall|j: int| 0 <= j < 8 implies old(self).remaining().subrange(0, 8)[j] == old(
                self,
            ).remaining()[j] by {}
        }
        Ok(
            (((c0 as u64) << 56) | ((c1 as u64) << 48) | ((c2 as u64) << 40) | ((c3 as u64) << 32)
                | ((c4 as u64) << 24) | ((c5 as u64) << 16) | ((c6 as u64) << 8) | (c7 as u64)),
        )
    }

    /// Reads `n` payload bytes; too few is an `InvalidSize`, the declared
    /// length disagreeing with the actual framing.
    fn read_payload(&mut self, n: u16) -> (r: Result<Vec<u8>, Error>)
        requires
            old(self).wf(),
        ensures
            final(self).wf(),
            final(self).reader.data() == old(self).reader.data(),
            if old(self).remaining().len() >= n {
                r matches Ok(buf) && buf@ == old(self).remaining().subrange(0, n as int) && final(self).reader.pos() == old(self).reader.pos() + n
            } else {
                r matches Err(e) && e == Error::InvalidSize
            },
    {
        let ghost rem0 = self.remaining();
        let ghost d = self.reader.data();
        let ghost base = self.reader.pos();
        let mut buf: Vec<u8> = Vec::new();
        let mut i: usize = 0;
        loop
            invariant
                self.wf(),
                d == old(self).reader.data(),
                base == old(self).reader.pos(),
                self.reader.data() == d,
                self.reader.pos() == base + i,
                rem0 == d.skip(base),
                0 <= base <= d.len(),
                i <= n,
                buf@ =~= rem0.subrange(0, i as int),
            ensures
                final(self).wf(),
                final(self).reader.data() == d,
                final(self).reader.pos() == base + n,
                rem0.len() >= n,
                buf@ =~= rem0.subrange(0, n as int),
            decreases n - i,
        {
            if i >= n as usize {
                break ;
            }
            let ghost cur = self.remaining();
            match self.next_value_or_eof() {
                Ok(c) => {
                    proof {
                        assert(cur[0] == d[base + i]);
                        assert(rem0[i as int] == d[base + i]);
                    }
                    buf.push(c);
                    i = i + 1;
                },
                Err(_) => {
                    proof {
                        assert(rem0.len() == i < n);
                    }
                    return Err(Error::InvalidSize);
                },
            }
        }
        Ok(buf)
    }

    /// Reads one length-prefixed UTF-8 string.
    pub fn parse_string(&mut self) -> (r: Result<String, Error>)
        requires
            old(self).wf(),
        ensures
            final(self).wf(),
            final(self).reader.data() == old(self).reader.data(),
            match dec_str(old(self).remaining()) {
                Ok((s, n)) => r matches Ok(st) && st@ == s && final(self).reader.pos() == old(
                    self,
                ).reader.pos() + n,
                Err(e) => r matches Err(e2) && e2 == e,
            },
    {
        let ghost rem0 = self.remaining();
        let n = self.read_u16()?;
        let ghost rem1 = self.remaining();
        proof {
            assert(rem1 =~= rem0.skip(2));
        }
        let buf = match self.read_payload(n) {
            Ok(buf) => buf,
            Err(e) => {
                proof {
                    assert(rem1.len() < n);
                    assert(2 + be16(rem0.subrange(0, 2)) > rem0.len());
                }
                return Err(e);
            },
        };
        proof {
            assert(buf@ =~= rem0.subrange(2, 2 + n as int));
        }
        match bytes_to_string(buf) {
            Some(st) => Ok(st),
            None => Err(Error::SyntaxError),
        }
    }

    /// Reads one map-entry key in a single deterministic pass, or reports
    /// the end of the entry list when the key length is zero and the
    /// object-end marker follows.
    pub fn parse_string_or_end(&mut self) -> (r: Result<Option<String>, Error>)
        requires
            old(self).wf(),
        ensures
            final(self).wf(),
            final(self).reader.data() == old(self).reader.data(),
            match dec_entry_key(old(self).remaining()) {
                Ok((o, n)) => match r {
                    Ok(ro) => final(self).reader.pos() == old(self).reader.pos() + n && (match o {
                        Some(s) => ro matches Some(st) && st@ == s,
                        None => ro is None,
                    }),
                    Err(_) => false,
                },
                Err(e) => r matches Err(e2) && e2 == e,
            },
    {
        let ghost rem0 = self.remaining();
        let n = self.read_u16()?;
        let ghost rem1 = self.remaining();
        proof {
            assert(rem1 =~= rem0.skip(2));
        }
        if n == 0 {
            let t = self.next_value_or_eof()?;
            proof {
                assert(rem1[0] == rem0[2]);
            }
            if t == Marker::ObjectEnd.to_byte() {
                Ok(None)
            } else {
                Err(Error::InvalidSize)
            }
        } else {
            let buf = match self.read_payload(n) {
                Ok(buf) => buf,
                Err(e) => {
                    proof {
                        assert(rem1.len() < n);
                        assert(2 + be16(rem0.subrange(0, 2)) > rem0.len());
                    }
                    return Err(e);
                },
            };
            proof {
                assert(buf@ =~= rem0.subrange(2, 2 + n as int));
            }
            match bytes_to_string(buf) {
                Some(st) => Ok(Some(st)),
                None => Err(Error::SyntaxError),
            }
        }
    }

    /// Decodes one value: reads the marker byte and dispatches on the
    /// kind the marker table names.
    pub fn parse_value(&mut self) -> (r: Result<Value, Error>)
        requires
            old(self).wf(),
        ensures
            final(self).wf(),
            final(self).reader.data() == old(self).reader.data(),
            match dec_value(old(self).remaining()) {
                Ok((m, n)) => r matches Ok(v) && v@ == m && final(self).reader.pos() == old(
                    self,
                ).reader.pos() + n,
                Err(e) => r matches Err(e2) && e2 == e,
            },
        decreases old(self).reader.data().len() - old(self).reader.pos(), 0int,
    {
        let ghost rem0 = self.remaining();
        let mk = self.read_marker()?;
        let ghost rem1 = self.remaining();
        proof {
            assert(rem1 =~= rem0.skip(1));
        }
        match mk {
            Marker::Number => {
                let bits = self.read_u64()?;
                proof {
                    assert(rem1.subrange(0, 8) =~= rem0.subrange(1, 9));
                }
                Ok(Value::Number(bits))
            },
            Marker::Boolean => {
                let c = self.next_value_or_eof()?;
                proof {
                    assert(rem1[0] == rem0[1]);
                }
                Ok(Value::Bool(c != 0))
            },
            Marker::String => {
                let st = self.parse_string()?;
                Ok(Value::String(st))
            },
            Marker::Object => {
                let mut es: Vec<(String, Value)> = Vec::new();
                proof {
                    assert(entries_view(es@) =~= Seq::<(Seq<char>, SpecValue)>::empty());
                }
                let _c = self.parse_entries(&mut es)?;
                Ok(Value::Object(es))
            },
            Marker::ECMAArray => {
                let n32 = match self.read_u32() {
                    Ok(n32) => n32,
                    Err(e) => {
                        proof {
                            assert(rem1.len() < 4 && rem0.len() < 5);
                        }
                        return Err(e);
                    },
                };
                let ghost rem2 = self.remaining();
                proof {
                    assert(rem2 =~= rem0.skip(5));
                    assert(rem1.subrange(0, 4) =~= rem0.subrange(1, 5));
                }
                let mut es: Vec<(String, Value)> = Vec::new();
                proof {
                    assert(entries_view(es@) =~= Seq::<(Seq<char>, SpecValue)>::empty());
                }
                let c = self.parse_entries(&mut es)?;
                if c == n32 as usize {
                    Ok(Value::ECMAArray(es))
                } else {
                    Err(Error::InvalidSize)
                }
            },
            Marker::StrictArray => {
                let n32 = match self.read_u32() {
                    Ok(n32) => n32,
                    Err(e) => {
                        proof {
                            assert(rem1.len() < 4 && rem0.len() < 5);
                        }
                        return Err(e);
                    },
                };
                let ghost rem2 = self.remaining();
                proof {
                    assert(rem2 =~= rem0.skip(5));
                    assert(rem1.subrange(0, 4) =~= rem0.subrange(1, 5));
                }
                let mut vs: Vec<Value> = Vec::new();
                proof {
                    assert(elems_view(vs@) =~= Seq::<SpecValue>::empty());
                }
                self.parse_elems(&mut vs, n32)?;
                Ok(Value::StrictArray(vs))
            },
            Marker::Null => Ok(Value::Null),
            Marker::Undefined => Ok(Value::Undefined),
            _ => Err(Error::SyntaxError),
        }
    }

    /// Decodes entries until the termination sentinel, inserting each
    /// into `es` in canonical order, a later duplicate key replacing an
    /// earlier one.  Returns how many entries the wire carried.
    fn parse_entries(&mut self, es: &mut Vec<(String, Value)>) -> (r: Result<usize, Error>)
        requires
            old(self).wf(),
            entries_sorted(entries_view(old(es)@)),
        ensures
            final(self).wf(),
            final(self).reader.data() == old(self).reader.data(),
            match dec_entries(old(self).remaining(), entries_view(old(es)@)) {
                Ok((res, c, n)) => r matches Ok(cc) && entries_view(final(es)@) == res
                    && entries_sorted(entries_view(final(es)@)) && cc == c && final(self).reader.pos() == old(self).reader.pos() + n,
                Err(e) => r matches Err(e2) && e2 == e,
            },
        decreases old(self).reader.data().len() - old(self).reader.pos(), 1int,
    {
        let ghost rem0 = self.remaining();
        let keyopt = self.parse_string_or_end()?;
        match keyopt {
            None => Ok(0),
            Some(key) => {
                let ghost n1 = self.reader.pos() - old(self).reader.pos();
                let ghost rem1 = self.remaining();
                proof {
                    lemma_dec_entry_key_bounds(rem0);
                    assert(rem1 =~= rem0.skip(n1));
                }
                let v = self.parse_value()?;
                let ghost n2 = self.reader.pos() - old(self).reader.pos() - n1;
                let ghost rem2 = self.remaining();
                proof {
                    lemma_dec_value_bounds(rem1);
                    assert(rem2 =~= rem0.skip(n1 + n2));
                }
                insert_entry(es, key, v);
                let ghost acc2 = entries_view(es@);
                let c = match self.parse_entries(es) {
                    Ok(c) => c,
                    Err(e) => {
                        return Err(e);
                    },
                };
                proof {
                    lemma_dec_entries_bounds(rem2, acc2);
                    assert(4 * c + 3 <= rem2.len() <= usize::MAX);
                }
                Ok(c + 1)
            },
        }
    }

    /// Decodes exactly `n` values, pushing them onto `out`.
    fn parse_elems(&mut self, out: &mut Vec<Value>, n: u32) -> (r: Result<(), Error>)
        requires
            old(self).wf(),
        ensures
            final(self).wf(),
            final(self).reader.data() == old(self).reader.data(),
            match dec_elems(old(self).remaining(), n as nat) {
                Ok((vs, m)) => r is Ok && elems_view(final(out)@) == elems_view(old(out)@) + vs
                    && final(self).reader.pos() == old(self).reader.pos() + m,
                Err(e) => r matches Err(e2) && e2 == e,
            },
        decreases old(self).reader.data().len() - old(self).reader.pos(), 1int,
    {
        if n == 0 {
            proof {
                assert(elems_view(out@) =~= elems_view(out@) + Seq::<SpecValue>::empty());
            }
            return Ok(());
        }
        let ghost rem0 = self.remaining();
        let v = self.parse_value()?;
        let ghost n1 = self.reader.pos() - old(self).reader.pos();
        let ghost rem1 = self.remaining();
        proof {
            lemma_dec_value_bounds(rem0);
            assert(rem1 =~= rem0.skip(n1));
        }
        let ghost before = out@;
        out.push(v);
        proof {
            lemma_elems_view_push(before, v);
        }
        self.parse_elems(out, n - 1)?;
        proof {
            match dec_elems(rem0, n as nat) {
                Ok((vs, m)) => {
                    assert(elems_view(out@) =~= elems_view(old(out)@) + vs);
                },
                Err(_) => {},
            }
        }
        Ok(())
    }
}

/// The view of an element list grows by the view of a pushed element.
proof fn lemma_elems_view_push(vs: Seq<Value>, v: Value)
    ensures
        elems_view(vs.push(v)) == elems_view(vs).push(crate::value::value_view(v)),
{
    lemma_elems_view_len(vs);
    lemma_elems_view_len(vs.push(v));
    assert(elems_view(vs.push(v)) =~= elems_view(vs).push(crate::value::value_view(v))) by {
        assert forall|j: int| 0 <= j < vs.len() + 1 implies elems_view(vs.push(v))[j] == elems_view(
            vs,
        ).push(crate::value::value_view(v))[j] by {
            lemma_elems_view_index(vs.push(v), j);
            if j < vs.len() {
                lemma_elems_view_index(vs, j);
                assert(vs.push(v)[j] == vs[j]);
            } else {
                assert(vs.push(v)[j] == v);
            }
        }
    }
}

/// Decodes one value from the front of an in-memory byte slice; bytes
/// after the value are left alone.
pub fn from_slice(slice: &[u8]) -> (r: Result<Value, Error>)
    ensures
        match dec_value(slice@) {
            Ok((m, n)) => r matches Ok(v) && v@ == m,
            Err(e) => r matches Err(e2) && e2 == e,
        },
{
    let len = slice.len();
    let reader = SliceReader::new(slice);
    let mut de = Deserializer::new(reader);
    proof {
        assert(slice@.len() == len);
        assert(de.remaining() =~= slice@);
    }
    de.parse_value()
}

} // verus!
