//! Offsets, ranges, revisions and edit errors shared by the text model.

use vstd::prelude::*;

use crate::strings::push_char;

verus! {

/// A stable identity for an open document, including an unsaved document.
#[derive(Clone, Copy, Debug, PartialEq, Eq, Structural, Hash)]
pub struct DocumentId(u64);

impl View for DocumentId {
    type V = u64;

    closed spec fn view(&self) -> u64 {
        self.0
    }
}

impl DocumentId {
    pub fn get(self) -> (value: u64)
        ensures
            value == self@,
    {
        self.0
    }
}

/// Hands out document identities: each identity it gives is greater than every
/// earlier one, so no two documents made from one allocator share an identity.
pub struct DocumentIds {
    next: u64,
}

impl View for DocumentIds {
    type V = u64;

    /// The identity that the next call of `next` hands out.
    closed spec fn view(&self) -> u64 {
        self.next
    }
}

impl DocumentIds {
    /// An allocator whose first identity is 1.
    pub fn new() -> (ids: Self)
        ensures
            ids@ == 1,
    {
        DocumentIds { next: 1 }
    }

    /// The identity that `next` would hand out.
    pub fn peek(&self) -> (upcoming: u64)
        ensures
            upcoming == self@,
    {
        self.next
    }

    /// The next identity. The counter must not be exhausted.
    pub fn next(&mut self) -> (id: DocumentId)
        requires
            old(self)@ < u64::MAX,
        ensures
            id@ == old(self)@,
            id@ < final(self)@,
            final(self)@ == old(self)@ + 1,
    {
        let id = DocumentId(self.next);
        self.next = self.next + 1;
        id
    }
}

/// A UTF-8 byte offset into a document.
#[derive(Clone, Copy, Debug, PartialEq, Eq, Structural, Hash)]
pub struct ByteOffset(pub usize);

impl ByteOffset {
    pub fn new(value: usize) -> (offset: Self)
        ensures
            offset.0 == value,
    {
        ByteOffset(value)
    }

    pub fn get(self) -> (value: usize)
        ensures
            value == self.0,
    {
        self.0
    }
}

impl Default for ByteOffset {
    fn default() -> (offset: Self)
        ensures
            offset.0 == 0,
    {
        ByteOffset(0)
    }
}

impl From<usize> for ByteOffset {
    fn from(value: usize) -> (offset: Self) {
        ByteOffset(value)
    }
}

impl vstd::std_specs::convert::FromSpecImpl<usize> for ByteOffset {
    open spec fn obeys_from_spec() -> bool {
        true
    }

    open spec fn from_spec(value: usize) -> Self {
        ByteOffset(value)
    }
}


/// A half-open UTF-8 byte range.
#[derive(Clone, Copy, Debug, PartialEq, Eq, Structural, Hash)]
pub struct ByteRange {
    pub start: ByteOffset,
    pub end: ByteOffset,
}

impl ByteRange {
    pub fn new(start: ByteOffset, end: ByteOffset) -> (range: Self)
        ensures
            range.start == start,
            range.end == end,
    {
        ByteRange { start, end }
    }

    pub open spec fn lo(self) -> int {
        self.start.0 as int
    }

    pub open spec fn hi(self) -> int {
        self.end.0 as int
    }

    /// The spec form of `len`: zero for a reversed range.
    pub open spec fn spec_len(self) -> nat {
        if self.hi() >= self.lo() {
            (self.hi() - self.lo()) as nat
        } else {
            0
        }
    }

    pub open spec fn spec_contains_offset(self, offset: ByteOffset) -> bool {
        self.lo() <= offset.0 <= self.hi()
    }

    pub open spec fn spec_contains_range(self, other: ByteRange) -> bool {
        self.lo() <= other.lo() && other.hi() <= self.hi()
    }

    pub fn is_empty(self) -> (empty: bool)
        ensures
            empty == (self.start.0 == self.end.0),
    {
        self.start.0 == self.end.0
    }

    pub fn contains_range(self, other: Self) -> (contains: bool)
        ensures
            contains == self.spec_contains_range(other),
    {
        self.start.0 <= other.start.0 && other.end.0 <= self.end.0
    }

    /// Whether `offset` lies in the range, both ends included, so that a caret
    /// just after a name still counts as being on it.
    pub fn contains_offset(self, offset: ByteOffset) -> (contains: bool)
        ensures
            contains == self.spec_contains_offset(offset),
    {
        self.start.0 <= offset.0 && offset.0 <= self.end.0
    }

    pub fn len(self) -> (length: usize)
        ensures
            length == self.spec_len(),
    {
        self.end.0.saturating_sub(self.start.0)
    }
}

impl Default for ByteRange {
    fn default() -> (range: Self)
        ensures
            range.start.0 == 0,
            range.end.0 == 0,
    {
        ByteRange { start: ByteOffset(0), end: ByteOffset(0) }
    }
}

impl From<core::ops::Range<usize>> for ByteRange {
    fn from(value: core::ops::Range<usize>) -> (range: Self) {
        ByteRange { start: ByteOffset(value.start), end: ByteOffset(value.end) }
    }
}

impl vstd::std_specs::convert::FromSpecImpl<core::ops::Range<usize>> for ByteRange {
    open spec fn obeys_from_spec() -> bool {
        true
    }

    open spec fn from_spec(value: core::ops::Range<usize>) -> Self {
        ByteRange { start: ByteOffset(value.start), end: ByteOffset(value.end) }
    }
}

/// A monotonically increasing document revision.
#[derive(Clone, Copy, Debug, PartialEq, Eq, Structural, Hash)]
pub struct Revision(pub u64);

impl Revision {
    pub fn get(self) -> (value: u64)
        ensures
            value == self.0,
    {
        self.0
    }

    /// Moves to the next revision.
    pub(crate) fn advance(&mut self)
        requires
            old(self).0 < u64::MAX,
        ensures
            final(self).0 == old(self).0 + 1,
    {
        self.0 = self.0 + 1;
    }
}

impl Default for Revision {
    fn default() -> (revision: Self)
        ensures
            revision.0 == 0,
    {
        Revision(0)
    }
}

/// A rejected document edit.
#[derive(Clone, Copy, Debug, PartialEq, Eq, Structural)]
pub enum EditError {
    ReversedRange { start: ByteOffset, end: ByteOffset },
    OutOfBounds { offset: ByteOffset, document_len: usize },
    NotCharBoundary { offset: ByteOffset },
}

/// The decimal digit `d` as a character.
pub open spec fn digit_char(d: nat) -> char {
    ((d + 48) as u8) as char
}

/// `n` written in decimal, without leading zeros.
pub open spec fn decimal(n: nat) -> Seq<char>
    decreases n,
{
    if n < 10 {
        seq![digit_char(n)]
    } else {
        decimal(n / 10).push(digit_char(n % 10))
    }
}

/// Appends `n` written in decimal.
fn push_decimal(s: &mut String, n: usize)
    ensures
        final(s)@ == old(s)@ + decimal(n as nat),
    decreases n,
{
    if n >= 10 {
        push_decimal(s, n / 10);
    }
    let d = (n % 10) as u8;
    push_char(s, (d + 48) as char);
    proof {
        if n >= 10 {
            assert(final(s)@ =~= old(s)@ + decimal(n as nat));
        } else {
            assert(final(s)@ =~= old(s)@ + decimal(n as nat));
        }
    }
}

/// What an edit error says, in words.
pub open spec fn spec_message(error: EditError) -> Seq<char> {
    match error {
        EditError::ReversedRange { start, end } => "range start "@ + decimal(start.0 as nat) + " is after end "@
            + decimal(end.0 as nat),
        EditError::OutOfBounds { offset, document_len } => "byte offset "@ + decimal(offset.0 as nat)
            + " is outside document length "@ + decimal(document_len as nat),
        EditError::NotCharBoundary { offset } => "byte offset "@ + decimal(offset.0 as nat)
            + " is not a UTF-8 character boundary"@,
    }
}

impl EditError {
    /// The error in words, with the offsets it concerns.
    pub fn message(&self) -> (text: String)
        ensures
            text@ == spec_message(*self),
    {
        let mut text = String::new();
        match *self {
            EditError::ReversedRange { start, end } => {
                text.append("range start ");
                push_decimal(&mut text, start.0);
                text.append(" is after end ");
                push_decimal(&mut text, end.0);
            },
            EditError::OutOfBounds { offset, document_len } => {
                text.append("byte offset ");
                push_decimal(&mut text, offset.0);
                text.append(" is outside document length ");
                push_decimal(&mut text, document_len);
            },
            EditError::NotCharBoundary { offset } => {
                text.append("byte offset ");
                push_decimal(&mut text, offset.0);
                text.append(" is not a UTF-8 character boundary");
            },
        }
        text
    }
}

} // verus!
