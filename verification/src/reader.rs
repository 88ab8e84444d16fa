//! The byte cursor the decoder pulls from: a sequential, peekable source
//! of bytes with a consumption position for diagnostics.

use vstd::prelude::*;

verus! {

/// A value-type snapshot of how many bytes a cursor has consumed, for
/// diagnostics only.  The sources here are not line-oriented, so `line`
/// stays zero and `column` counts consumed bytes.
#[derive(Clone, Copy, Debug, PartialEq, Eq, Structural)]
pub struct Position {
    pub line: usize,
    pub column: usize,
}

/// A sequential source of bytes over some backing input.
///
/// `data()` is the whole backing input and `pos()` the number of bytes
/// consumed so far; every operation leaves `data()` unchanged.  Running
/// out of input is reported as `None`, never as a failure.
pub trait Read: Sized {
    /// The whole input this source ranges over.
    spec fn data(&self) -> Seq<u8>;

    /// How many bytes have been consumed so far.
    spec fn pos(&self) -> int;

    /// The source's internal invariant.
    spec fn inv(&self) -> bool;

    /// An independent copy of the cursor state: same backing input, same
    /// position, so one logical read can be attempted twice without
    /// disturbing the primary cursor.
    fn copy(&self) -> (r: Self)
        requires
            self.inv(),
        ensures
            r.inv(),
            r.data() == self.data(),
            r.pos() == self.pos(),
    ;

    /// Consumes and returns one byte; returns `None` at end of input.
    fn next(&mut self) -> (r: Option<u8>)
        requires
            old(self).inv(),
        ensures
            final(self).inv(),
            final(self).data() == old(self).data(),
            if old(self).pos() < old(self).data().len() {
                r == Some(old(self).data()[old(self).pos()]) && final(self).pos() == old(self).pos()
                    + 1
            } else {
                r is None && final(self).pos() == old(self).pos()
            },
    ;

    /// Returns the next byte without consuming it; `None` at end of input.
    fn peek(&mut self) -> (r: Option<u8>)
        requires
            old(self).inv(),
        ensures
            final(self).inv(),
            final(self).data() == old(self).data(),
            final(self).pos() == old(self).pos(),
            if old(self).pos() < old(self).data().len() {
                r == Some(old(self).data()[old(self).pos()])
            } else {
                r is None
            },
    ;

    /// Consumes one byte without returning it, after a successful `peek`.
    fn discard(&mut self)
        requires
            old(self).inv(),
            old(self).pos() < old(self).data().len(),
        ensures
            final(self).inv(),
            final(self).data() == old(self).data(),
            final(self).pos() == old(self).pos() + 1,
    ;

    /// A snapshot of how many bytes have been consumed.
    fn position(&self) -> (r: Position)
        requires
            self.inv(),
        ensures
            r.line == 0,
            r.column == self.pos(),
    ;

    /// The position the next consumed byte will have.
    fn peek_position(&self) -> (r: Position)
        requires
            self.inv(),
        ensures
            r.line == 0,
            r.column == self.pos(),
    ;
}

/// A cursor over an in-memory byte slice.
#[derive(Clone, Copy)]
pub struct SliceReader<'a> {
    slice: &'a [u8],
    index: usize,
    position: Position,
}

impl<'a> SliceReader<'a> {
    /// A cursor over the whole of `slice`, positioned at its start.
    pub fn new(slice: &'a [u8]) -> (r: Self)
        ensures
            r.inv(),
            r.data() == slice@,
            r.pos() == 0,
    {
        SliceReader { slice, index: 0, position: Position { line: 0, column: 0 } }
    }
}

impl<'a> Read for SliceReader<'a> {
    closed spec fn data(&self) -> Seq<u8> {
        self.slice@
    }

    closed spec fn pos(&self) -> int {
        self.index as int
    }

    closed spec fn inv(&self) -> bool {
        self.index <= self.slice@.len() && self.position.line == 0 && self.position.column
            == self.index
    }

    fn copy(&self) -> (r: Self) {
        SliceReader { slice: self.slice, index: self.index, position: self.position }
    }

    fn next(&mut self) -> (r: Option<u8>) {
        if self.index < self.slice.len() {
            let c = self.slice[self.index];
            self.index = self.index + 1;
            self.position.column = self.position.column + 1;
            Some(c)
        } else {
            None
        }
    }

    fn peek(&mut self) -> (r: Option<u8>) {
        if self.index < self.slice.len() {
            Some(self.slice[self.index])
        } else {
            None
        }
    }

    fn discard(&mut self) {
        let len = self.slice.len();
        assert(self.index < len);
        self.index = self.index + 1;
        self.position.column = self.position.column + 1;
    }

    fn position(&self) -> (r: Position) {
        Position { line: self.position.line, column: self.position.column }
    }

    fn peek_position(&self) -> (r: Position) {
        Position { line: self.position.line, column: self.position.column }
    }
}

} // verus!
