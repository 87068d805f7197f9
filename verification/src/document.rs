//! Editable text with its identity, path, revision and saved state,
//! independent from any UI framework. Offsets are UTF-8 byte offsets.

use crop::Rope;
use vstd::prelude::*;
use vstd::string::StringSliceAdditionalSpecFns;
use vstd::utf8::*;

use crate::rope::{
    byte_carriage_return, byte_newline, count_newlines, is_boundary, is_line_start, lemma_after_ascii_is_boundary, lemma_count_newlines_take,
    lemma_line_start_unique, lemma_splice_valid, lemma_str_bytes_valid, rope_byte, rope_byte_of_line,
    rope_line_of_byte, line_count, rope_byte_len, rope_bytes, rope_clone, rope_eq, rope_from_str,
    rope_char_at, rope_char_before, rope_is_char_boundary, rope_line_len, rope_replace,
    rope_slice_string,
};
use crate::chars::{char_class, class_of};
use crate::text::{ByteOffset, ByteRange, DocumentId, DocumentIds, EditError, Revision};

verus! {

/// What a document holds.
pub struct DocumentView {
    pub id: u64,
    pub path: Option<Seq<char>>,
    /// The text, as UTF-8 bytes.
    pub bytes: Seq<u8>,
    /// The text when it was last saved (or opened).
    pub saved: Seq<u8>,
    pub revision: u64,
}

/// The error an offset into `bytes` is rejected with, if any.
pub open spec fn offset_error(bytes: Seq<u8>, offset: ByteOffset) -> Option<EditError> {
    if offset.0 > bytes.len() {
        Some(EditError::OutOfBounds { offset, document_len: bytes.len() as usize })
    } else if !is_boundary(bytes, offset.0 as int) {
        Some(EditError::NotCharBoundary { offset })
    } else {
        None
    }
}

/// The error a range over `bytes` is rejected with, if any: a reversed range
/// first, then the start, then the end.
pub open spec fn range_error(bytes: Seq<u8>, range: ByteRange) -> Option<EditError> {
    if range.start.0 > range.end.0 {
        Some(EditError::ReversedRange { start: range.start, end: range.end })
    } else if offset_error(bytes, range.start) is Some {
        offset_error(bytes, range.start)
    } else {
        offset_error(bytes, range.end)
    }
}

/// `bytes` with the bytes of `range` replaced by `text`.
pub open spec fn splice(bytes: Seq<u8>, range: ByteRange, text: Seq<u8>) -> Seq<u8> {
    bytes.take(range.lo()) + text + bytes.skip(range.hi())
}

/// The line that holds `offset`: the number of line feeds before it.
pub open spec fn line_of(bytes: Seq<u8>, offset: int) -> int {
    count_newlines(bytes.take(offset)) as int
}

/// The index of the last line, counting a line after a final line break.
pub open spec fn last_line(bytes: Seq<u8>) -> int {
    count_newlines(bytes) as int
}

/// Where line `line` starts; the end of the text past the last line.
pub open spec fn line_start_of(bytes: Seq<u8>, line: int) -> int {
    if 0 <= line <= last_line(bytes) {
        choose|p: int| is_line_start(bytes, p, line)
    } else {
        bytes.len() as int
    }
}

/// Where line `line` ends, its line break included.
pub open spec fn line_full_end_of(bytes: Seq<u8>, line: int) -> int {
    if 0 <= line < last_line(bytes) {
        line_start_of(bytes, line + 1)
    } else {
        bytes.len() as int
    }
}

/// Where the content of line `line` ends, before a `\n` or `\r\n` break.
pub open spec fn line_content_end_of(bytes: Seq<u8>, line: int) -> int {
    let e = line_full_end_of(bytes, line);
    if 0 <= line < last_line(bytes) {
        if e >= 2 && e - 2 >= line_start_of(bytes, line) && bytes[e - 2] == byte_carriage_return() {
            e - 2
        } else {
            e - 1
        }
    } else {
        e
    }
}

/// The previous character boundary before `offset` (0 at the start).
pub open spec fn prev_boundary(bytes: Seq<u8>, offset: int) -> int {
    if offset <= 0 {
        0
    } else {
        choose|p: int|
            0 <= p < offset && is_boundary(bytes, p) && forall|q: int| p < q < offset ==> !is_boundary(bytes, q)
    }
}

/// The next character boundary after `offset` (the end at the end).
pub open spec fn next_boundary(bytes: Seq<u8>, offset: int) -> int {
    if offset >= bytes.len() {
        bytes.len() as int
    } else {
        choose|q: int|
            offset < q <= bytes.len() && is_boundary(bytes, q) && forall|r: int| offset < r < q ==> !is_boundary(bytes, r)
    }
}

/// One caret step back: over a `\r\n` pair at once, else one character.
pub open spec fn caret_back(bytes: Seq<u8>, offset: int) -> int {
    if offset >= 2 && bytes[offset - 2] == byte_carriage_return() && bytes[offset - 1] == byte_newline() {
        offset - 2
    } else {
        prev_boundary(bytes, offset)
    }
}

/// One caret step forward: over a `\r\n` pair at once, else one character.
pub open spec fn caret_forward(bytes: Seq<u8>, offset: int) -> int {
    if offset + 1 < bytes.len() && bytes[offset] == byte_carriage_return() && bytes[offset + 1] == byte_newline() {
        offset + 2
    } else {
        next_boundary(bytes, offset)
    }
}

/// The number of character starts in `(lo, hi]`: the characters between two
/// boundaries.
pub open spec fn chars_between(bytes: Seq<u8>, lo: int, hi: int) -> nat
    decreases hi - lo,
{
    if hi <= lo {
        0
    } else {
        chars_between(bytes, lo, hi - 1) + if is_boundary(bytes, hi) {
            1nat
        } else {
            0nat
        }
    }
}

/// The offset `count` characters after `offset`, stopping at `limit`.
pub open spec fn advance_chars(bytes: Seq<u8>, offset: int, count: nat, limit: int) -> int
    decreases count,
{
    if count == 0 || offset >= limit {
        offset
    } else {
        advance_chars(bytes, next_boundary(bytes, offset), (count - 1) as nat, limit)
    }
}

/// The character column of `offset` on its line.
pub open spec fn column_of(bytes: Seq<u8>, offset: int) -> nat {
    chars_between(bytes, line_start_of(bytes, line_of(bytes, offset)), offset)
}

/// The offset at character column `column` of line `line`, the line's content
/// end if it is shorter.
pub open spec fn offset_at_column(bytes: Seq<u8>, line: int, column: nat) -> int {
    advance_chars(bytes, line_start_of(bytes, line), column, line_content_end_of(bytes, line))
}

/// The character that starts at `offset`, if one does.
pub open spec fn char_at(bytes: Seq<u8>, offset: int) -> Option<char> {
    if 0 <= offset < bytes.len() {
        Some(decode_utf8(bytes.skip(offset))[0])
    } else {
        None
    }
}

/// The character that ends at `offset`, if one does.
pub open spec fn char_before(bytes: Seq<u8>, offset: int) -> Option<char> {
    if 0 < offset <= bytes.len() {
        Some(decode_utf8(bytes.take(offset)).last())
    } else {
        None
    }
}

/// Every line up to the last has a start.
pub proof fn lemma_line_start_exists(bytes: Seq<u8>, line: int)
    requires
        0 <= line <= last_line(bytes),
    ensures
        exists|p: int| is_line_start(bytes, p, line),
    decreases bytes.len(),
{
    if bytes.len() == 0 {
        assert(is_line_start(bytes, 0, line));
    } else {
        let b = bytes.drop_last();
        assert(bytes.take(bytes.len() as int) =~= bytes);
        if line <= count_newlines(b) {
            lemma_line_start_exists(b, line);
            let p = choose|p: int| is_line_start(b, p, line);
            assert(bytes.take(p) =~= b.take(p));
            assert(is_line_start(bytes, p, line));
        } else {
            assert(is_line_start(bytes, bytes.len() as int, line));
        }
    }
}

/// Where a line starts is its one start, and a character boundary.
pub proof fn lemma_line_start(bytes: Seq<u8>, line: int)
    requires
        valid_utf8(bytes),
        0 <= line <= last_line(bytes),
    ensures
        is_line_start(bytes, line_start_of(bytes, line), line),
        is_boundary(bytes, line_start_of(bytes, line)),
        forall|p: int| is_line_start(bytes, p, line) ==> p == line_start_of(bytes, line),
{
    lemma_line_start_exists(bytes, line);
    let s = line_start_of(bytes, line);
    assert forall|p: int| is_line_start(bytes, p, line) implies p == s by {
        lemma_line_start_unique(bytes, p, s, line);
    }
    if s > 0 {
        lemma_after_ascii_is_boundary(bytes, s);
    }
}

/// A line starts no later than any offset on it, and the next line starts after it.
pub proof fn lemma_line_start_order(bytes: Seq<u8>, line: int, offset: int)
    requires
        valid_utf8(bytes),
        0 <= offset <= bytes.len(),
        line == line_of(bytes, offset),
    ensures
        0 <= line <= last_line(bytes),
        line_start_of(bytes, line) <= offset,
        line < last_line(bytes) ==> offset < line_start_of(bytes, line + 1),
{
    assert(bytes.take(bytes.len() as int) =~= bytes);
    lemma_count_newlines_take(bytes, offset, bytes.len() as int);
    lemma_line_start(bytes, line);
    let s = line_start_of(bytes, line);
    if s > offset {
        lemma_count_newlines_take(bytes, offset, s);
    }
    if line < last_line(bytes) {
        lemma_line_start(bytes, line + 1);
        let t = line_start_of(bytes, line + 1);
        if t <= offset {
            lemma_count_newlines_take(bytes, t, offset);
        }
    }
}

/// Later lines start no earlier.
pub proof fn lemma_line_start_mono(bytes: Seq<u8>, l1: int, l2: int)
    requires
        valid_utf8(bytes),
        0 <= l1 <= l2 <= last_line(bytes),
    ensures
        line_start_of(bytes, l1) <= line_start_of(bytes, l2),
        line_full_end_of(bytes, l1) <= line_full_end_of(bytes, l2),
{
    lemma_line_start(bytes, l1);
    lemma_line_start(bytes, l2);
    let s1 = line_start_of(bytes, l1);
    let s2 = line_start_of(bytes, l2);
    if s2 < s1 {
        lemma_count_newlines_take(bytes, s2, s1);
    }
    if l2 < last_line(bytes) {
        lemma_line_start(bytes, l1 + 1);
        lemma_line_start(bytes, l2 + 1);
        let t1 = line_start_of(bytes, l1 + 1);
        let t2 = line_start_of(bytes, l2 + 1);
        if t2 < t1 {
            lemma_count_newlines_take(bytes, t2, t1);
        }
    } else if l1 < last_line(bytes) {
        lemma_line_ends(bytes, l1);
    }
}

/// The facts about the ends of a line that its readers rely on.
pub proof fn lemma_line_ends(bytes: Seq<u8>, line: int)
    requires
        valid_utf8(bytes),
        0 <= line <= last_line(bytes),
    ensures
        line_start_of(bytes, line) <= line_content_end_of(bytes, line) <= line_full_end_of(bytes, line)
            <= bytes.len(),
        is_boundary(bytes, line_full_end_of(bytes, line)),
        is_boundary(bytes, line_content_end_of(bytes, line)),
        line < last_line(bytes) ==> bytes[line_full_end_of(bytes, line) - 1] == byte_newline(),
{
    lemma_line_start(bytes, line);
    let s = line_start_of(bytes, line);
    if line < last_line(bytes) {
        lemma_line_start(bytes, line + 1);
        let e = line_start_of(bytes, line + 1);
        if e <= s {
            lemma_count_newlines_take(bytes, e, s);
        }
        assert(e > 0);
        let c = line_content_end_of(bytes, line);
        assert(c == e - 1 || c == e - 2);
        assert(bytes[c] == byte_newline() || bytes[c] == byte_carriage_return());
    }
}

/// The start of line `line` in the rope.
fn start_of_line(text: &Rope, line: usize) -> (start: usize)
    requires
        valid_utf8(rope_bytes(*text)),
        line <= last_line(rope_bytes(*text)),
    ensures
        start == line_start_of(rope_bytes(*text), line as int),
{
    let ghost bytes = rope_bytes(*text);
    proof {
        lemma_line_start(bytes, line as int);
    }
    rope_byte_of_line(text, line)
}

/// The index of the last line of the rope.
fn last_line_of(text: &Rope) -> (line: usize)
    ensures
        line == last_line(rope_bytes(*text)),
{
    let len = rope_byte_len(text);
    assert(rope_bytes(*text).take(len as int) =~= rope_bytes(*text));
    rope_line_of_byte(text, len)
}

/// Where line `line` of the rope ends, its line break included.
fn full_end_of_line(text: &Rope, line: usize) -> (end: usize)
    requires
        valid_utf8(rope_bytes(*text)),
        line <= last_line(rope_bytes(*text)),
    ensures
        end == line_full_end_of(rope_bytes(*text), line as int),
{
    if line < last_line_of(text) {
        start_of_line(text, line + 1)
    } else {
        rope_byte_len(text)
    }
}

/// Where the content of line `line` of the rope ends.
fn content_end_of_line(text: &Rope, line: usize) -> (end: usize)
    requires
        valid_utf8(rope_bytes(*text)),
        line <= last_line(rope_bytes(*text)),
    ensures
        end == line_content_end_of(rope_bytes(*text), line as int),
{
    let ghost bytes = rope_bytes(*text);
    proof {
        lemma_line_ends(bytes, line as int);
    }
    let e = full_end_of_line(text, line);
    if line < last_line_of(text) {
        let start = start_of_line(text, line);
        if e >= 2 && e - 2 >= start && rope_byte(text, e - 2) == 13u8 {
            e - 2
        } else {
            e - 1
        }
    } else {
        e
    }
}

/// The text of line `index` without its line break, if the line exists.
fn line_text(text: &Rope, index: usize) -> (line: Option<String>)
    requires
        valid_utf8(rope_bytes(*text)),
    ensures
        match line {
            Some(s) => index < line_count(rope_bytes(*text)) && s@ == decode_utf8(
                rope_bytes(*text).subrange(
                    line_start_of(rope_bytes(*text), index as int),
                    line_content_end_of(rope_bytes(*text), index as int),
                ),
            ),
            None => index >= line_count(rope_bytes(*text)),
        },
{
    let ghost bytes = rope_bytes(*text);
    if index >= rope_line_len(text) {
        return None;
    }
    assert(index <= last_line(bytes)) by {
        if bytes.len() > 0 {
            assert(bytes.take(bytes.len() as int) =~= bytes);
        }
    }
    proof {
        lemma_line_ends(bytes, index as int);
        lemma_line_start(bytes, index as int);
    }
    let start = start_of_line(text, index);
    let end = content_end_of_line(text, index);
    Some(rope_slice_string(text, start, end))
}

/// The whole text of the rope.
fn whole_text(text: &Rope) -> (s: String)
    requires
        valid_utf8(rope_bytes(*text)),
    ensures
        s@ == decode_utf8(rope_bytes(*text)),
{
    let len = rope_byte_len(text);
    let s = rope_slice_string(text, 0, len);
    assert(rope_bytes(*text).subrange(0, len as int) =~= rope_bytes(*text));
    s
}

/// `p` is the last character boundary before `offset`.
pub open spec fn is_prev_boundary(bytes: Seq<u8>, offset: int, p: int) -> bool {
    0 <= p < offset && is_boundary(bytes, p) && forall|q: int| p < q < offset ==> !is_boundary(bytes, q)
}

/// `q` is the first character boundary after `offset`.
pub open spec fn is_next_boundary(bytes: Seq<u8>, offset: int, q: int) -> bool {
    offset < q <= bytes.len() && is_boundary(bytes, q) && forall|r: int| offset < r < q ==> !is_boundary(bytes, r)
}

/// There is a boundary before any positive offset, and `prev_boundary` is it.
pub proof fn lemma_prev_boundary(bytes: Seq<u8>, offset: int)
    requires
        0 < offset <= bytes.len(),
    ensures
        is_prev_boundary(bytes, offset, prev_boundary(bytes, offset)),
        forall|p: int| is_prev_boundary(bytes, offset, p) ==> p == prev_boundary(bytes, offset),
    decreases offset,
{
    if is_boundary(bytes, offset - 1) {
        assert(is_prev_boundary(bytes, offset, offset - 1));
    } else {
        lemma_prev_boundary(bytes, offset - 1);
        assert(is_prev_boundary(bytes, offset, prev_boundary(bytes, offset - 1)));
    }
    let c = prev_boundary(bytes, offset);
    assert forall|p: int| is_prev_boundary(bytes, offset, p) implies p == c by {
        if p < c {
            assert(!is_boundary(bytes, c));
        } else if c < p {
            assert(!is_boundary(bytes, p));
        }
    }
}

/// There is a boundary after any offset before the end, and `next_boundary` is it.
pub proof fn lemma_next_boundary(bytes: Seq<u8>, offset: int)
    requires
        0 <= offset < bytes.len(),
    ensures
        is_next_boundary(bytes, offset, next_boundary(bytes, offset)),
        forall|q: int| is_next_boundary(bytes, offset, q) ==> q == next_boundary(bytes, offset),
    decreases bytes.len() - offset,
{
    if is_boundary(bytes, offset + 1) {
        assert(is_next_boundary(bytes, offset, offset + 1));
    } else {
        lemma_next_boundary(bytes, offset + 1);
        assert(is_next_boundary(bytes, offset, next_boundary(bytes, offset + 1)));
    }
    let c = next_boundary(bytes, offset);
    assert forall|q: int| is_next_boundary(bytes, offset, q) implies q == c by {
        if q < c {
            assert(!is_boundary(bytes, q));
        } else if c < q {
            assert(!is_boundary(bytes, c));
        }
    }
}

/// The character that ends at a boundary starts at the boundary before it
/// and takes the bytes between the two.
pub proof fn lemma_last_char(bytes: Seq<u8>, h: int)
    requires
        valid_utf8(bytes),
        0 < h <= bytes.len(),
        is_boundary(bytes, h),
    ensures
        char_before(bytes, h) == Some(char_starting(bytes, prev_boundary(bytes, h))),
        encode_utf8(seq![char_starting(bytes, prev_boundary(bytes, h))]) == bytes.subrange(prev_boundary(bytes, h), h),
{
    lemma_prev_boundary(bytes, h);
    let p = prev_boundary(bytes, h);
    let pre = bytes.take(h);
    assert(pre =~= bytes.subrange(0, h));
    crate::rope::lemma_subrange_valid(bytes, 0, h);
    assert(is_boundary(pre, p)) by {
        if 0 < p {
            assert(pre[p] == bytes[p]);
        }
    }
    crate::rope::lemma_boundary_is_char_boundary(pre, p);
    decode_utf8_split(pre, p);
    let s = bytes.subrange(p, h);
    assert(pre.subrange(p, pre.len() as int) =~= s);
    crate::rope::lemma_subrange_valid(bytes, p, h);
    let first = length_of_first_scalar(s);
    if pop_first_scalar(s).len() > 0 {
        assert(valid_utf8(pop_first_scalar(s)));
        reveal_with_fuel(is_char_boundary, 2);
        assert(is_char_boundary(s, first));
        crate::rope::lemma_boundary_is_char_boundary(s, first);
        assert(s[first] == bytes[p + first]);
        assert(!is_boundary(bytes, p + first));
        assert(false);
    }
    assert(decode_utf8(pop_first_scalar(s)).len() == 0);
    let c = decode_utf8(s)[0];
    assert(decode_utf8(s) =~= seq![c]);
    decode_utf8_encode_utf8(s);
    let rest = bytes.skip(p);
    assert(rest =~= bytes.subrange(p, bytes.len() as int));
    crate::rope::lemma_subrange_valid(bytes, p, bytes.len() as int);
    assert(is_boundary(rest, h - p)) by {
        if 0 < h - p < rest.len() {
            assert(rest[h - p] == bytes[h]);
        }
    }
    crate::rope::lemma_boundary_is_char_boundary(rest, h - p);
    decode_utf8_split(rest, h - p);
    assert(rest.subrange(0, h - p) =~= s);
}

/// The character boundary before `offset` in the rope.
fn boundary_before(text: &Rope, offset: usize) -> (p: usize)
    requires
        0 < offset <= rope_bytes(*text).len(),
    ensures
        p == prev_boundary(rope_bytes(*text), offset as int),
        is_prev_boundary(rope_bytes(*text), offset as int, p as int),
{
    let ghost bytes = rope_bytes(*text);
    let mut p = offset - 1;
    while !rope_is_char_boundary(text, p)
        invariant
            bytes == rope_bytes(*text),
            0 <= p < offset <= bytes.len(),
            forall|q: int| p < q < offset ==> !is_boundary(bytes, q),
        decreases p,
    {
        p = p - 1;
    }
    proof {
        lemma_prev_boundary(bytes, offset as int);
    }
    p
}

/// The character boundary after `offset` in the rope.
fn boundary_after(text: &Rope, offset: usize) -> (q: usize)
    requires
        offset < rope_bytes(*text).len(),
    ensures
        q == next_boundary(rope_bytes(*text), offset as int),
        is_next_boundary(rope_bytes(*text), offset as int, q as int),
{
    let ghost bytes = rope_bytes(*text);
    let len = rope_byte_len(text);
    let mut q = offset + 1;
    while q < len && !rope_is_char_boundary(text, q)
        invariant
            bytes == rope_bytes(*text),
            len == bytes.len(),
            offset < q <= len,
            forall|r: int| offset < r < q ==> !is_boundary(bytes, r),
        decreases len - q,
    {
        q = q + 1;
    }
    proof {
        lemma_next_boundary(bytes, offset as int);
    }
    q
}

/// The character that starts at boundary `p`.
pub open spec fn char_starting(bytes: Seq<u8>, p: int) -> char {
    decode_utf8(bytes.skip(p))[0]
}

/// `q` ends the run of characters of class `cls` that starts at `p`: every
/// character from `p` up to `q` has the class, and the one at `q` (if any)
/// does not.
pub open spec fn is_run_end(bytes: Seq<u8>, p: int, q: int, cls: u8) -> bool {
    &&& p <= q <= bytes.len()
    &&& is_boundary(bytes, q)
    &&& (q == bytes.len() || char_class(char_starting(bytes, q)) != cls)
    &&& forall|r: int| p <= r < q && is_boundary(bytes, r) ==> char_class(char_starting(bytes, r)) == cls
}

pub open spec fn run_end(bytes: Seq<u8>, p: int, cls: u8) -> int {
    choose|q: int| is_run_end(bytes, p, q, cls)
}

/// `q` starts the run of characters of class `cls` that ends at `p`: every
/// character from `q` up to `p` has the class, and the one before `q` (if
/// any) does not.
pub open spec fn is_run_start(bytes: Seq<u8>, q: int, p: int, cls: u8) -> bool {
    &&& 0 <= q <= p
    &&& is_boundary(bytes, q)
    &&& (q == 0 || char_class(char_starting(bytes, prev_boundary(bytes, q))) != cls)
    &&& forall|r: int| q <= r < p && is_boundary(bytes, r) ==> char_class(char_starting(bytes, r)) == cls
}

pub open spec fn run_start(bytes: Seq<u8>, p: int, cls: u8) -> int {
    choose|q: int| is_run_start(bytes, q, p, cls)
}

/// The word boundary after `offset`: past the run of word characters (or of
/// other non-blank characters) that starts there, then past the blanks that
/// follow.
pub open spec fn next_word_boundary_of(bytes: Seq<u8>, offset: int) -> int {
    let q = if offset >= bytes.len() || char_class(char_starting(bytes, offset)) == 0 {
        offset
    } else {
        run_end(bytes, offset, char_class(char_starting(bytes, offset)))
    };
    run_end(bytes, q, 0)
}

/// The word boundary before `offset`: back over the blanks before it, then to
/// the start of the run of word characters (or of other non-blank
/// characters) before them.
pub open spec fn previous_word_boundary_of(bytes: Seq<u8>, offset: int) -> int {
    let q = run_start(bytes, offset, 0);
    if q == 0 {
        0
    } else {
        run_start(bytes, q, char_class(char_starting(bytes, prev_boundary(bytes, q))))
    }
}

pub proof fn lemma_run_end_unique(bytes: Seq<u8>, p: int, q: int, cls: u8)
    requires
        is_run_end(bytes, p, q, cls),
    ensures
        run_end(bytes, p, cls) == q,
{
    let c = run_end(bytes, p, cls);
    assert(is_run_end(bytes, p, c, cls));
    if c < q {
        assert(char_class(char_starting(bytes, c)) == cls);
    } else if q < c {
        assert(char_class(char_starting(bytes, q)) == cls);
    }
}

pub proof fn lemma_run_start_unique(bytes: Seq<u8>, q: int, p: int, cls: u8)
    requires
        is_run_start(bytes, q, p, cls),
    ensures
        run_start(bytes, p, cls) == q,
{
    let c = run_start(bytes, p, cls);
    assert(is_run_start(bytes, c, p, cls));
    if c < q {
        lemma_prev_boundary(bytes, q);
        let b = prev_boundary(bytes, q);
        if b < c {
            assert(!is_boundary(bytes, c));
        }
        assert(char_class(char_starting(bytes, b)) == cls);
    } else if q < c {
        lemma_prev_boundary(bytes, c);
        let b = prev_boundary(bytes, c);
        if b < q {
            assert(!is_boundary(bytes, q));
        }
        assert(char_class(char_starting(bytes, b)) == cls);
    }
}

/// The end of the run of class `cls` that starts at boundary `p`.
fn run_end_from(text: &Rope, p: usize, cls: u8) -> (q: usize)
    requires
        valid_utf8(rope_bytes(*text)),
        p <= rope_bytes(*text).len(),
        is_boundary(rope_bytes(*text), p as int),
    ensures
        q == run_end(rope_bytes(*text), p as int, cls),
        is_boundary(rope_bytes(*text), q as int),
        q <= rope_bytes(*text).len(),
{
    let ghost bytes = rope_bytes(*text);
    let len = rope_byte_len(text);
    let mut q = p;
    loop
        invariant
            bytes == rope_bytes(*text),
            valid_utf8(bytes),
            len == bytes.len(),
            p <= q <= len,
            is_boundary(bytes, q as int),
            forall|r: int| p <= r < q && is_boundary(bytes, r) ==> char_class(char_starting(bytes, r)) == cls,
        ensures
            is_run_end(bytes, p as int, q as int, cls),
        decreases len - q,
    {
        if q == len {
            break;
        }
        let c = match rope_char_at(text, q) {
            Some(c) => c,
            None => {
                break;
            },
        };
        if class_of(c) != cls {
            break;
        }
        q = boundary_after(text, q);
    }
    proof {
        lemma_run_end_unique(bytes, p as int, q as int, cls);
    }
    q
}

/// The start of the run of class `cls` that ends at boundary `p`.
fn run_start_from(text: &Rope, p: usize, cls: u8) -> (q: usize)
    requires
        valid_utf8(rope_bytes(*text)),
        p <= rope_bytes(*text).len(),
        is_boundary(rope_bytes(*text), p as int),
    ensures
        q == run_start(rope_bytes(*text), p as int, cls),
        is_boundary(rope_bytes(*text), q as int),
        q <= p,
{
    let ghost bytes = rope_bytes(*text);
    let mut q = p;
    loop
        invariant
            bytes == rope_bytes(*text),
            valid_utf8(bytes),
            q <= p <= bytes.len(),
            is_boundary(bytes, q as int),
            forall|r: int| q <= r < p && is_boundary(bytes, r) ==> char_class(char_starting(bytes, r)) == cls,
        ensures
            is_run_start(bytes, q as int, p as int, cls),
        decreases q,
    {
        if q == 0 {
            break;
        }
        let b = boundary_before(text, q);
        let c = match rope_char_at(text, b) {
            Some(c) => c,
            None => {
                break;
            },
        };
        if class_of(c) != cls {
            break;
        }
        q = b;
    }
    proof {
        lemma_run_start_unique(bytes, q as int, p as int, cls);
    }
    q
}

/// Editable text and file identity independent from any UI framework.
pub struct Document {
    id: DocumentId,
    path: Option<String>,
    text: Rope,
    saved: Rope,
    revision: Revision,
}

pub open spec fn path_view(path: Option<String>) -> Option<Seq<char>> {
    match path {
        Some(p) => Some(p@),
        None => None,
    }
}

impl View for Document {
    type V = DocumentView;

    closed spec fn view(&self) -> DocumentView {
        DocumentView {
            id: self.id@,
            path: path_view(self.path),
            bytes: rope_bytes(self.text),
            saved: rope_bytes(self.saved),
            revision: self.revision.0,
        }
    }
}

/// What a snapshot holds.
pub struct DocumentSnapshotView {
    pub id: u64,
    pub path: Option<Seq<char>>,
    pub bytes: Seq<u8>,
    pub revision: u64,
    pub modified: bool,
}

/// An immutable view of a document revision.
pub struct DocumentSnapshot {
    id: DocumentId,
    path: Option<String>,
    text: Rope,
    revision: Revision,
    modified: bool,
}

impl View for DocumentSnapshot {
    type V = DocumentSnapshotView;

    closed spec fn view(&self) -> DocumentSnapshotView {
        DocumentSnapshotView {
            id: self.id@,
            path: path_view(self.path),
            bytes: rope_bytes(self.text),
            revision: self.revision.0,
            modified: self.modified,
        }
    }
}

impl DocumentSnapshot {
    /// The text is valid UTF-8.
    pub open spec fn wf(&self) -> bool {
        valid_utf8(self@.bytes)
    }

    pub fn id(&self) -> (id: DocumentId)
        ensures
            id@ == self@.id,
    {
        self.id
    }

    pub fn path(&self) -> (path: Option<&str>)
        ensures
            match path {
                Some(p) => self@.path == Some(p@),
                None => self@.path is None,
            },
    {
        match &self.path {
            Some(p) => Some(p.as_str()),
            None => None,
        }
    }

    pub fn revision(&self) -> (revision: Revision)
        ensures
            revision.0 == self@.revision,
    {
        self.revision
    }

    /// Whether the document was modified when the snapshot was taken.
    pub fn is_modified(&self) -> (modified: bool)
        ensures
            modified == self@.modified,
    {
        self.modified
    }

    pub fn len_bytes(&self) -> (len: usize)
        ensures
            len == self@.bytes.len(),
    {
        rope_byte_len(&self.text)
    }

    pub fn len_lines(&self) -> (lines: usize)
        ensures
            lines == line_count(self@.bytes),
    {
        rope_line_len(&self.text)
    }

    pub fn is_empty(&self) -> (empty: bool)
        ensures
            empty == (self@.bytes.len() == 0),
    {
        rope_byte_len(&self.text) == 0
    }

    pub fn text(&self) -> (text: String)
        requires
            self.wf(),
        ensures
            text@ == decode_utf8(self@.bytes),
    {
        whole_text(&self.text)
    }

    /// The text of line `index` without its line break, if the line exists.
    pub fn line(&self, index: usize) -> (line: Option<String>)
        requires
            self.wf(),
        ensures
            match line {
                Some(s) => index < line_count(self@.bytes) && s@ == decode_utf8(
                    self@.bytes.subrange(
                        line_start_of(self@.bytes, index as int),
                        line_content_end_of(self@.bytes, index as int),
                    ),
                ),
                None => index >= line_count(self@.bytes),
            },
    {
        line_text(&self.text, index)
    }
}

impl Document {
    /// The text is valid UTF-8.
    pub open spec fn wf(&self) -> bool {
        valid_utf8(self@.bytes)
    }

    /// The text as characters.
    pub open spec fn chars(&self) -> Seq<char> {
        decode_utf8(self@.bytes)
    }

    /// A new, unsaved and unmodified document with the next identity of `ids`.
    pub fn new(ids: &mut DocumentIds, text: &str) -> (document: Self)
        requires
            old(ids)@ < u64::MAX,
        ensures
            document.wf(),
            document@.id == old(ids)@,
            final(ids)@ == old(ids)@ + 1,
            document@.path is None,
            document@.bytes == text.spec_bytes(),
            document@.saved == document@.bytes,
            document@.revision == 0,
            document.chars() == text@,
    {
        let id = ids.next();
        let text_rope = rope_from_str(text);
        let saved = rope_clone(&text_rope);
        proof {
            lemma_str_bytes_valid(text);
            encode_utf8_decode_utf8(text@);
        }
        Document { id, path: None, text: text_rope, saved, revision: Revision(0) }
    }

    /// `new`, with a file path.
    pub fn with_path(ids: &mut DocumentIds, path: &str, text: &str) -> (document: Self)
        requires
            old(ids)@ < u64::MAX,
        ensures
            document.wf(),
            document@.id == old(ids)@,
            final(ids)@ == old(ids)@ + 1,
            document@.path == Some(path@),
            document@.bytes == text.spec_bytes(),
            document@.saved == document@.bytes,
            document@.revision == 0,
            document.chars() == text@,
    {
        let mut document = Self::new(ids, text);
        document.path = Some(path.to_owned());
        document
    }

    pub fn id(&self) -> (id: DocumentId)
        ensures
            id@ == self@.id,
    {
        self.id
    }

    pub fn path(&self) -> (path: Option<&str>)
        ensures
            match path {
                Some(p) => self@.path == Some(p@),
                None => self@.path is None,
            },
    {
        match &self.path {
            Some(p) => Some(p.as_str()),
            None => None,
        }
    }

    pub fn revision(&self) -> (revision: Revision)
        ensures
            revision.0 == self@.revision,
    {
        self.revision
    }

    /// Whether the text differs from the saved text.
    pub fn is_modified(&self) -> (modified: bool)
        ensures
            modified == (self@.bytes != self@.saved),
    {
        !rope_eq(&self.text, &self.saved)
    }

    /// Records the current text as saved.
    pub fn mark_saved(&mut self)
        ensures
            final(self)@ == (DocumentView { saved: old(self)@.bytes, ..old(self)@ }),
    {
        self.saved = rope_clone(&self.text);
    }

    pub fn len_bytes(&self) -> (len: usize)
        ensures
            len == self@.bytes.len(),
    {
        rope_byte_len(&self.text)
    }

    pub fn len_lines(&self) -> (lines: usize)
        ensures
            lines == line_count(self@.bytes),
    {
        rope_line_len(&self.text)
    }

    pub fn is_empty(&self) -> (empty: bool)
        ensures
            empty == (self@.bytes.len() == 0),
    {
        rope_byte_len(&self.text) == 0
    }

    pub fn text(&self) -> (text: String)
        requires
            self.wf(),
        ensures
            text@ == self.chars(),
    {
        whole_text(&self.text)
    }

    pub fn validate_offset(&self, offset: ByteOffset) -> (checked: Result<(), EditError>)
        ensures
            match offset_error(self@.bytes, offset) {
                Some(error) => checked == Err::<(), EditError>(error),
                None => checked is Ok,
            },
    {
        let len = rope_byte_len(&self.text);
        if offset.0 > len {
            return Err(EditError::OutOfBounds { offset, document_len: len });
        }
        if !rope_is_char_boundary(&self.text, offset.0) {
            return Err(EditError::NotCharBoundary { offset });
        }
        Ok(())
    }

    pub fn validate_range(&self, range: ByteRange) -> (checked: Result<(), EditError>)
        ensures
            match range_error(self@.bytes, range) {
                Some(error) => checked == Err::<(), EditError>(error),
                None => checked is Ok,
            },
    {
        if range.start.0 > range.end.0 {
            return Err(EditError::ReversedRange { start: range.start, end: range.end });
        }
        self.validate_offset(range.start)?;
        self.validate_offset(range.end)
    }

    /// Replaces the bytes of a valid range, without the checks and history.
    fn splice_text(&mut self, range: ByteRange, text: &str)
        requires
            old(self).wf(),
            range_error(old(self)@.bytes, range) is None,
        ensures
            final(self).wf(),
            final(self)@ == (DocumentView {
                bytes: splice(old(self)@.bytes, range, text.spec_bytes()),
                ..old(self)@
            }),
    {
        proof {
            lemma_str_bytes_valid(text);
            lemma_splice_valid(old(self)@.bytes, range.lo(), range.hi(), text.spec_bytes());
        }
        rope_replace(&mut self.text, range.start.0, range.end.0, text);
    }

    /// Inserts `text` at `offset`. An empty text changes nothing; any other
    /// insertion moves to the next revision.
    pub fn insert(&mut self, offset: ByteOffset, text: &str) -> (result: Result<Revision, EditError>)
        requires
            old(self).wf(),
            old(self)@.revision < u64::MAX,
        ensures
            final(self).wf(),
            match offset_error(old(self)@.bytes, offset) {
                Some(error) => result == Err::<Revision, EditError>(error) && final(self)@ == old(self)@,
                None => if text@.len() == 0 {
                    result == Ok::<Revision, EditError>(Revision(old(self)@.revision)) && final(self)@ == old(self)@
                } else {
                    result == Ok::<Revision, EditError>(Revision((old(self)@.revision + 1) as u64))
                        && final(self)@ == (DocumentView {
                        bytes: splice(old(self)@.bytes, ByteRange { start: offset, end: offset }, text.spec_bytes()),
                        revision: (old(self)@.revision + 1) as u64,
                        ..old(self)@
                    })
                },
            },
    {
        self.validate_offset(offset)?;
        if text.is_empty() {
            return Ok(self.revision);
        }
        self.splice_text(ByteRange { start: offset, end: offset }, text);
        self.revision.advance();
        Ok(self.revision)
    }

    /// Deletes the bytes of `range`. An empty range changes nothing; any
    /// other deletion moves to the next revision.
    pub fn delete(&mut self, range: ByteRange) -> (result: Result<Revision, EditError>)
        requires
            old(self).wf(),
            old(self)@.revision < u64::MAX,
        ensures
            final(self).wf(),
            match range_error(old(self)@.bytes, range) {
                Some(error) => result == Err::<Revision, EditError>(error) && final(self)@ == old(self)@,
                None => if range.start == range.end {
                    result == Ok::<Revision, EditError>(Revision(old(self)@.revision)) && final(self)@ == old(self)@
                } else {
                    result == Ok::<Revision, EditError>(Revision((old(self)@.revision + 1) as u64))
                        && final(self)@ == (DocumentView {
                        bytes: splice(old(self)@.bytes, range, Seq::empty()),
                        revision: (old(self)@.revision + 1) as u64,
                        ..old(self)@
                    })
                },
            },
    {
        self.validate_range(range)?;
        if range.is_empty() {
            return Ok(self.revision);
        }
        self.splice_text(range, "");
        proof {
            reveal_strlit("");
            assert(("").spec_bytes() =~= Seq::<u8>::empty());
        }
        self.revision.advance();
        Ok(self.revision)
    }

    /// Replaces the bytes of `range` with `text`. An empty range with an empty
    /// text changes nothing; any other replacement moves to the next revision.
    pub fn replace(&mut self, range: ByteRange, text: &str) -> (result: Result<Revision, EditError>)
        requires
            old(self).wf(),
            old(self)@.revision < u64::MAX,
        ensures
            final(self).wf(),
            match range_error(old(self)@.bytes, range) {
                Some(error) => result == Err::<Revision, EditError>(error) && final(self)@ == old(self)@,
                None => if range.start == range.end && text@.len() == 0 {
                    result == Ok::<Revision, EditError>(Revision(old(self)@.revision)) && final(self)@ == old(self)@
                } else {
                    result == Ok::<Revision, EditError>(Revision((old(self)@.revision + 1) as u64))
                        && final(self)@ == (DocumentView {
                        bytes: splice(old(self)@.bytes, range, text.spec_bytes()),
                        revision: (old(self)@.revision + 1) as u64,
                        ..old(self)@
                    })
                },
            },
    {
        self.validate_range(range)?;
        if range.is_empty() && text.is_empty() {
            return Ok(self.revision);
        }
        self.splice_text(range, text);
        self.revision.advance();
        Ok(self.revision)
    }

    /// The document as it is now, kept apart from later edits.
    pub fn snapshot(&self) -> (snapshot: DocumentSnapshot)
        ensures
            snapshot@ == (DocumentSnapshotView {
                id: self@.id,
                path: self@.path,
                bytes: self@.bytes,
                revision: self@.revision,
                modified: self@.bytes != self@.saved,
            }),
    {
        let path = match &self.path {
            Some(p) => Some(p.clone()),
            None => None,
        };
        DocumentSnapshot {
            id: self.id,
            path,
            text: rope_clone(&self.text),
            revision: self.revision,
            modified: self.is_modified(),
        }
    }

    /// The character boundary after `offset`, one character on.
    pub(crate) fn boundary_after(&self, offset: usize) -> (next: usize)
        requires
            offset < self@.bytes.len(),
        ensures
            next == next_boundary(self@.bytes, offset as int),
            is_next_boundary(self@.bytes, offset as int, next as int),
    {
        boundary_after(&self.text, offset)
    }

    /// The character boundary before `offset`, one character back.
    pub(crate) fn boundary_before(&self, offset: usize) -> (previous: usize)
        requires
            0 < offset <= self@.bytes.len(),
        ensures
            previous == prev_boundary(self@.bytes, offset as int),
            is_prev_boundary(self@.bytes, offset as int, previous as int),
    {
        boundary_before(&self.text, offset)
    }

    /// The byte at `index`.
    pub(crate) fn byte_at(&self, index: usize) -> (byte: u8)
        requires
            index < self@.bytes.len(),
        ensures
            byte == self@.bytes[index as int],
    {
        rope_byte(&self.text, index)
    }

    /// The index of the line that holds `offset`.
    pub fn line_index_at(&self, offset: ByteOffset) -> (line: usize)
        requires
            offset.0 <= self@.bytes.len(),
            is_boundary(self@.bytes, offset.0 as int),
        ensures
            line == line_of(self@.bytes, offset.0 as int),
    {
        rope_line_of_byte(&self.text, offset.0)
    }

    /// The index of the last line; a final line break opens one more, empty line.
    pub fn last_line_index(&self) -> (line: usize)
        ensures
            line == last_line(self@.bytes),
    {
        last_line_of(&self.text)
    }

    /// Where line `line` starts.
    pub fn line_start(&self, line: usize) -> (start: Option<ByteOffset>)
        requires
            self.wf(),
        ensures
            match start {
                Some(o) => line <= last_line(self@.bytes) && o.0 == line_start_of(self@.bytes, line as int),
                None => line > last_line(self@.bytes),
            },
    {
        if line > last_line_of(&self.text) {
            None
        } else {
            Some(ByteOffset(start_of_line(&self.text, line)))
        }
    }

    /// Where line `line` ends, its line break included.
    pub fn line_full_end(&self, line: usize) -> (end: Option<ByteOffset>)
        requires
            self.wf(),
        ensures
            match end {
                Some(o) => line <= last_line(self@.bytes) && o.0 == line_full_end_of(self@.bytes, line as int),
                None => line > last_line(self@.bytes),
            },
    {
        if line > last_line_of(&self.text) {
            None
        } else {
            Some(ByteOffset(full_end_of_line(&self.text, line)))
        }
    }

    /// Where the content of line `line` ends, before its `\n` or `\r\n`.
    pub fn line_content_end(&self, line: usize) -> (end: Option<ByteOffset>)
        requires
            self.wf(),
        ensures
            match end {
                Some(o) => line <= last_line(self@.bytes) && o.0 == line_content_end_of(self@.bytes, line as int),
                None => line > last_line(self@.bytes),
            },
    {
        if line > last_line_of(&self.text) {
            None
        } else {
            Some(ByteOffset(content_end_of_line(&self.text, line)))
        }
    }

    /// The text of line `index` without its line break, if the line exists.
    pub fn line(&self, index: usize) -> (line: Option<String>)
        requires
            self.wf(),
        ensures
            match line {
                Some(s) => index < line_count(self@.bytes) && s@ == decode_utf8(
                    self@.bytes.subrange(
                        line_start_of(self@.bytes, index as int),
                        line_content_end_of(self@.bytes, index as int),
                    ),
                ),
                None => index >= line_count(self@.bytes),
            },
    {
        line_text(&self.text, index)
    }

    /// The text of `range`, once the range is checked.
    pub fn text_in(&self, range: ByteRange) -> (text: Result<String, EditError>)
        requires
            self.wf(),
        ensures
            match range_error(self@.bytes, range) {
                Some(error) => text == Err::<String, EditError>(error),
                None => text matches Ok(s) && s@ == decode_utf8(self@.bytes.subrange(range.lo(), range.hi())),
            },
    {
        self.validate_range(range)?;
        Ok(rope_slice_string(&self.text, range.start.0, range.end.0))
    }

    /// The character that starts at `offset`; `None` at the end or at an
    /// offset that is not a valid caret position.
    pub fn char_at(&self, offset: ByteOffset) -> (c: Option<char>)
        requires
            self.wf(),
        ensures
            c == if offset_error(self@.bytes, offset) is None {
                char_at(self@.bytes, offset.0 as int)
            } else {
                None
            },
    {
        if self.validate_offset(offset).is_err() {
            return None;
        }
        rope_char_at(&self.text, offset.0)
    }

    /// The character that ends at `offset`; `None` at the start or at an
    /// offset that is not a valid caret position.
    pub fn char_before(&self, offset: ByteOffset) -> (c: Option<char>)
        requires
            self.wf(),
        ensures
            c == if offset_error(self@.bytes, offset) is None {
                char_before(self@.bytes, offset.0 as int)
            } else {
                None
            },
    {
        if self.validate_offset(offset).is_err() {
            return None;
        }
        rope_char_before(&self.text, offset.0)
    }

    /// One caret step back from a valid offset: over `\r\n` at once, else one
    /// character; the start stays put.
    pub fn previous_char_boundary(&self, offset: ByteOffset) -> (previous: ByteOffset)
        requires
            self.wf(),
            offset_error(self@.bytes, offset) is None,
        ensures
            previous.0 == caret_back(self@.bytes, offset.0 as int),
            previous.0 <= offset.0,
            offset_error(self@.bytes, previous) is None,
    {
        let o = offset.0;
        if o >= 2 && rope_byte(&self.text, o - 2) == 13u8 && rope_byte(&self.text, o - 1) == 10u8 {
            return ByteOffset(o - 2);
        }
        if o == 0 {
            return ByteOffset(0);
        }
        ByteOffset(boundary_before(&self.text, o))
    }

    /// One caret step forward from a valid offset: over `\r\n` at once, else
    /// one character; the end stays put.
    pub fn next_char_boundary(&self, offset: ByteOffset) -> (next: ByteOffset)
        requires
            self.wf(),
            offset_error(self@.bytes, offset) is None,
        ensures
            next.0 == caret_forward(self@.bytes, offset.0 as int),
            next.0 >= offset.0,
            offset_error(self@.bytes, next) is None,
    {
        let o = offset.0;
        let len = rope_byte_len(&self.text);
        if o < len && o + 1 < len && rope_byte(&self.text, o) == 13u8 && rope_byte(&self.text, o + 1) == 10u8 {
            proof {
                lemma_after_ascii_is_boundary(self@.bytes, o + 2);
            }
            return ByteOffset(o + 2);
        }
        if o == len {
            return ByteOffset(len);
        }
        ByteOffset(boundary_after(&self.text, o))
    }

    /// The character column of a valid offset on its line.
    pub fn char_column_at(&self, offset: ByteOffset) -> (column: usize)
        requires
            self.wf(),
            offset_error(self@.bytes, offset) is None,
        ensures
            column == column_of(self@.bytes, offset.0 as int),
    {
        let ghost bytes = self@.bytes;
        let line = self.line_index_at(offset);
        proof {
            lemma_line_start_order(bytes, line as int, offset.0 as int);
        }
        let start = start_of_line(&self.text, line);
        let mut count: usize = 0;
        let mut i = start;
        while i < offset.0
            invariant
                bytes == rope_bytes(self.text),
                start <= i <= offset.0 <= bytes.len(),
                count == chars_between(bytes, start as int, i as int),
                count <= i - start,
            decreases offset.0 - i,
        {
            i = i + 1;
            if rope_is_char_boundary(&self.text, i) {
                count = count + 1;
            }
        }
        count
    }

    /// The offset at character column `char_column` of line `line_index`, or
    /// the line's content end if the line is shorter; `None` past the last line.
    pub fn offset_for_line_column(&self, line_index: usize, char_column: usize) -> (offset: Option<ByteOffset>)
        requires
            self.wf(),
        ensures
            match offset {
                Some(o) => line_index <= last_line(self@.bytes)
                    && o.0 == offset_at_column(self@.bytes, line_index as int, char_column as nat)
                    && offset_error(self@.bytes, o) is None,
                None => line_index > last_line(self@.bytes),
            },
    {
        let ghost bytes = self@.bytes;
        if line_index > last_line_of(&self.text) {
            return None;
        }
        proof {
            lemma_line_ends(bytes, line_index as int);
            lemma_line_start(bytes, line_index as int);
        }
        let start = start_of_line(&self.text, line_index);
        let limit = content_end_of_line(&self.text, line_index);
        let mut p = start;
        let mut k = char_column;
        while k > 0 && p < limit
            invariant
                bytes == rope_bytes(self.text),
                limit <= bytes.len(),
                p <= bytes.len(),
                is_boundary(bytes, p as int),
                advance_chars(bytes, p as int, k as nat, limit as int) == offset_at_column(
                    bytes,
                    line_index as int,
                    char_column as nat,
                ),
            decreases k,
        {
            p = boundary_after(&self.text, p);
            k = k - 1;
        }
        Some(ByteOffset(p))
    }

    /// The word boundary after a valid offset.
    pub fn next_word_boundary(&self, offset: ByteOffset) -> (next: ByteOffset)
        requires
            self.wf(),
            offset_error(self@.bytes, offset) is None,
        ensures
            next.0 == next_word_boundary_of(self@.bytes, offset.0 as int),
            offset_error(self@.bytes, next) is None,
    {
        let o = offset.0;
        let mut q = o;
        if let Some(c) = rope_char_at(&self.text, o) {
            let cls = class_of(c);
            if cls != 0 {
                q = run_end_from(&self.text, o, cls);
            }
        }
        ByteOffset(run_end_from(&self.text, q, 0))
    }

    /// The word boundary before a valid offset.
    pub fn previous_word_boundary(&self, offset: ByteOffset) -> (previous: ByteOffset)
        requires
            self.wf(),
            offset_error(self@.bytes, offset) is None,
        ensures
            previous.0 == previous_word_boundary_of(self@.bytes, offset.0 as int),
            offset_error(self@.bytes, previous) is None,
    {
        let q = run_start_from(&self.text, offset.0, 0);
        if q == 0 {
            return ByteOffset(0);
        }
        let b = boundary_before(&self.text, q);
        match rope_char_at(&self.text, b) {
            Some(c) => ByteOffset(run_start_from(&self.text, q, class_of(c))),
            None => ByteOffset(q),
        }
    }
}

} // verus!
