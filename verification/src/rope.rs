//! The document text lives in a `crop::Rope`. This module declares the rope
//! type, names what a rope holds (its UTF-8 bytes), and wraps each rope
//! operation the library uses with a contract over those bytes, taken from
//! crop's source and documentation. It also holds the byte-level facts about
//! UTF-8 boundaries and lines that the contracts speak of.

use crop::Rope;
use vstd::prelude::*;
use vstd::string::StringSliceAdditionalSpecFns;
use vstd::utf8::*;

verus! {

#[verifier::external_type_specification]
#[verifier::external_body]
pub struct ExRope(Rope);

/// What a rope holds: its text as UTF-8 bytes.
pub uninterp spec fn rope_bytes(rope: Rope) -> Seq<u8>;

pub open spec fn byte_newline() -> u8 {
    10
}

pub open spec fn byte_carriage_return() -> u8 {
    13
}

/// `i` is an offset in `bytes` that starts a character or ends the text, the
/// rule of `str::is_char_boundary`.
pub open spec fn is_boundary(bytes: Seq<u8>, i: int) -> bool {
    i == 0 || i == bytes.len() || (0 < i < bytes.len() && !is_continuation_byte(bytes[i]))
}

/// The number of line feeds in `bytes`.
pub open spec fn count_newlines(bytes: Seq<u8>) -> nat
    decreases bytes.len(),
{
    if bytes.len() == 0 {
        0
    } else {
        count_newlines(bytes.drop_last()) + if bytes.last() == byte_newline() {
            1nat
        } else {
            0nat
        }
    }
}

/// The number of lines: a final line break does not open another, empty line,
/// and empty text has none.
pub open spec fn line_count(bytes: Seq<u8>) -> nat {
    if bytes.len() == 0 {
        0
    } else if bytes.last() == byte_newline() {
        count_newlines(bytes)
    } else {
        count_newlines(bytes) + 1
    }
}

/// `p` is where line `line` starts: just after the line's preceding line feed
/// (at 0 for the first line), so that `line` line feeds come before it.
pub open spec fn is_line_start(bytes: Seq<u8>, p: int, line: int) -> bool {
    &&& 0 <= p <= bytes.len()
    &&& count_newlines(bytes.take(p)) == line
    &&& (p == 0 || bytes[p - 1] == byte_newline())
}

/// Rope text: `Rope::from`.
#[verifier::external_body]
pub(crate) fn rope_from_str(text: &str) -> (rope: Rope)
    ensures
        rope_bytes(rope) == text.spec_bytes(),
{
    Rope::from(text)
}

/// A copy of the rope: `Rope::clone`.
#[verifier::external_body]
pub(crate) fn rope_clone(rope: &Rope) -> (copy: Rope)
    ensures
        rope_bytes(copy) == rope_bytes(*rope),
{
    rope.clone()
}

/// `Rope::byte_len`.
#[verifier::external_body]
pub(crate) fn rope_byte_len(rope: &Rope) -> (len: usize)
    ensures
        len == rope_bytes(*rope).len(),
{
    rope.byte_len()
}

/// `Rope::byte`, which panics at or past the end.
#[verifier::external_body]
pub(crate) fn rope_byte(rope: &Rope, index: usize) -> (byte: u8)
    requires
        index < rope_bytes(*rope).len(),
    ensures
        byte == rope_bytes(*rope)[index as int],
{
    rope.byte(index)
}

/// `Rope::is_char_boundary`, which panics past the end.
#[verifier::external_body]
pub(crate) fn rope_is_char_boundary(rope: &Rope, offset: usize) -> (boundary: bool)
    requires
        offset <= rope_bytes(*rope).len(),
    ensures
        boundary == is_boundary(rope_bytes(*rope), offset as int),
{
    rope.is_char_boundary(offset)
}

/// `Rope::replace`, which panics on a reversed range, an end past the text or
/// an end of the range off a character boundary. `Rope::insert` and
/// `Rope::delete` are this call with an empty range and an empty text.
#[verifier::external_body]
pub(crate) fn rope_replace(rope: &mut Rope, start: usize, end: usize, text: &str)
    requires
        start <= end <= rope_bytes(*old(rope)).len(),
        is_boundary(rope_bytes(*old(rope)), start as int),
        is_boundary(rope_bytes(*old(rope)), end as int),
    ensures
        rope_bytes(*final(rope)) == rope_bytes(*old(rope)).take(start as int) + text.spec_bytes()
            + rope_bytes(*old(rope)).skip(end as int),
{
    rope.replace(start..end, text);
}

/// `Rope::line_len`: the number of lines, a final line break not counting as
/// one more.
#[verifier::external_body]
pub(crate) fn rope_line_len(rope: &Rope) -> (lines: usize)
    ensures
        lines == line_count(rope_bytes(*rope)),
{
    rope.line_len()
}

/// `Rope::line_of_byte`: the number of line feeds before the offset; panics
/// past the end and off a character boundary.
#[verifier::external_body]
pub(crate) fn rope_line_of_byte(rope: &Rope, offset: usize) -> (line: usize)
    requires
        offset <= rope_bytes(*rope).len(),
        is_boundary(rope_bytes(*rope), offset as int),
    ensures
        line == count_newlines(rope_bytes(*rope).take(offset as int)),
{
    rope.line_of_byte(offset)
}

/// `Rope::byte_of_line`: the offset just after the `line`-th line feed (0
/// for line 0), or the end when there are fewer line feeds; panics past
/// `line_len`.
#[verifier::external_body]
pub(crate) fn rope_byte_of_line(rope: &Rope, line: usize) -> (offset: usize)
    requires
        line <= line_count(rope_bytes(*rope)),
    ensures
        line <= count_newlines(rope_bytes(*rope)) ==> is_line_start(rope_bytes(*rope), offset as int, line as int),
        line > count_newlines(rope_bytes(*rope)) ==> offset == rope_bytes(*rope).len(),
{
    rope.byte_of_line(line)
}

/// The text between two offsets: `Rope::byte_slice` turned into a `String`
/// (through the slice's `Display`, which writes its chunks in order).
/// `byte_slice` panics on a reversed range, an end past the text or an end off
/// a character boundary.
#[verifier::external_body]
pub(crate) fn rope_slice_string(rope: &Rope, start: usize, end: usize) -> (text: String)
    requires
        valid_utf8(rope_bytes(*rope)),
        start <= end <= rope_bytes(*rope).len(),
        is_boundary(rope_bytes(*rope), start as int),
        is_boundary(rope_bytes(*rope), end as int),
    ensures
        text@ == decode_utf8(rope_bytes(*rope).subrange(start as int, end as int)),
{
    rope.byte_slice(start..end).to_string()
}

/// The character that starts at `offset`: the first of
/// `Rope::byte_slice(offset..).chars()`.
#[verifier::external_body]
pub(crate) fn rope_char_at(rope: &Rope, offset: usize) -> (c: Option<char>)
    requires
        valid_utf8(rope_bytes(*rope)),
        offset <= rope_bytes(*rope).len(),
        is_boundary(rope_bytes(*rope), offset as int),
    ensures
        c == if offset < rope_bytes(*rope).len() {
            Some(decode_utf8(rope_bytes(*rope).skip(offset as int))[0])
        } else {
            None
        },
{
    rope.byte_slice(offset..).chars().next()
}

/// The character that ends at `offset`: the last of
/// `Rope::byte_slice(..offset).chars()`.
#[verifier::external_body]
pub(crate) fn rope_char_before(rope: &Rope, offset: usize) -> (c: Option<char>)
    requires
        valid_utf8(rope_bytes(*rope)),
        offset <= rope_bytes(*rope).len(),
        is_boundary(rope_bytes(*rope), offset as int),
    ensures
        c == if offset > 0 {
            Some(decode_utf8(rope_bytes(*rope).take(offset as int)).last())
        } else {
            None
        },
{
    rope.byte_slice(..offset).chars().next_back()
}

/// Whether two ropes hold the same text: `Rope`'s `PartialEq`.
#[verifier::external_body]
pub(crate) fn rope_eq(left: &Rope, right: &Rope) -> (same: bool)
    ensures
        same == (rope_bytes(*left) == rope_bytes(*right)),
{
    left == right
}

/// Valid UTF-8 stays valid when a valid piece replaces the bytes between two
/// character boundaries.
pub proof fn lemma_splice_valid(bytes: Seq<u8>, start: int, end: int, piece: Seq<u8>)
    requires
        valid_utf8(bytes),
        valid_utf8(piece),
        0 <= start <= end <= bytes.len(),
        is_boundary(bytes, start),
        is_boundary(bytes, end),
    ensures
        valid_utf8(bytes.take(start) + piece + bytes.skip(end)),
{
    lemma_boundary_is_char_boundary(bytes, start);
    lemma_boundary_is_char_boundary(bytes, end);
    valid_utf8_split(bytes, start);
    valid_utf8_split(bytes, end);
    assert(bytes.take(start) =~= bytes.subrange(0, start));
    assert(bytes.skip(end) =~= bytes.subrange(end, bytes.len() as int));
    valid_utf8_concat(bytes.take(start), piece);
    valid_utf8_concat(bytes.take(start) + piece, bytes.skip(end));
}

/// For valid UTF-8, `is_boundary` is vstd's `is_char_boundary`.
pub proof fn lemma_boundary_is_char_boundary(bytes: Seq<u8>, i: int)
    requires
        valid_utf8(bytes),
        0 <= i <= bytes.len(),
    ensures
        is_boundary(bytes, i) == is_char_boundary(bytes, i),
{
    is_char_boundary_start_end_of_seq(bytes);
    if 0 < i < bytes.len() {
        is_char_boundary_iff_not_is_continuation_byte(bytes, i);
    }
}

/// The bytes of a string are valid UTF-8.
pub proof fn lemma_str_bytes_valid(text: &str)
    ensures
        valid_utf8(text.spec_bytes()),
{
    encode_utf8_valid_utf8(text@);
}

/// In valid UTF-8 the byte after an ASCII byte starts a character.
pub proof fn lemma_after_ascii_is_boundary(bytes: Seq<u8>, p: int)
    requires
        valid_utf8(bytes),
        0 < p <= bytes.len(),
        bytes[p - 1] <= 0x7f,
    ensures
        is_boundary(bytes, p),
    decreases bytes.len(),
{
    if p < bytes.len() {
        reveal_with_fuel(valid_utf8, 2);
        let first = length_of_first_scalar(bytes);
        let rest = pop_first_scalar(bytes);
        assert(rest.len() == bytes.len() - first);
        if p < first {
            assert(false);
        } else if p == first {
            assert(rest.len() > 0);
            assert(rest[0] == bytes[p]);
        } else {
            assert(rest[p - first - 1] == bytes[p - 1]);
            lemma_after_ascii_is_boundary(rest, p - first);
            assert(rest[p - first] == bytes[p]);
        }
    }
}

/// The number of line feeds in a prefix grows with the prefix.
pub proof fn lemma_count_newlines_take(bytes: Seq<u8>, p: int, q: int)
    requires
        0 <= p <= q <= bytes.len(),
    ensures
        count_newlines(bytes.take(p)) <= count_newlines(bytes.take(q)),
        q > 0 && bytes[q - 1] == byte_newline() && p < q ==> count_newlines(bytes.take(p)) < count_newlines(bytes.take(q)),
    decreases q - p,
{
    if p < q {
        lemma_count_newlines_take(bytes, p, q - 1);
        assert(bytes.take(q).drop_last() =~= bytes.take(q - 1));
    }
}

/// The bytes of any text are valid UTF-8.
pub proof fn encode_utf8_valid_utf8_of(chars: Seq<char>)
    ensures
        valid_utf8(encode_utf8(chars)),
{
    encode_utf8_valid_utf8(chars);
}

/// The bytes between two boundaries of valid text are valid text.
pub proof fn lemma_subrange_valid(bytes: Seq<u8>, lo: int, hi: int)
    requires
        valid_utf8(bytes),
        0 <= lo <= hi <= bytes.len(),
        is_boundary(bytes, lo),
        is_boundary(bytes, hi),
    ensures
        valid_utf8(bytes.subrange(lo, hi)),
{
    lemma_boundary_is_char_boundary(bytes, lo);
    valid_utf8_split(bytes, lo);
    let tail = bytes.subrange(lo, bytes.len() as int);
    assert(is_boundary(tail, hi - lo)) by {
        if 0 < hi - lo < tail.len() {
            assert(tail[hi - lo] == bytes[hi]);
        }
    }
    lemma_boundary_is_char_boundary(tail, hi - lo);
    valid_utf8_split(tail, hi - lo);
    assert(tail.subrange(0, hi - lo) =~= bytes.subrange(lo, hi));
}

/// Valid text decodes to no characters exactly when it is empty.
pub proof fn lemma_decode_empty(bytes: Seq<u8>)
    requires
        valid_utf8(bytes),
    ensures
        (decode_utf8(bytes).len() == 0) == (bytes.len() == 0),
{
}

/// Valid UTF-8 never starts with a continuation byte.
pub proof fn lemma_leading_byte(bytes: Seq<u8>)
    requires
        valid_utf8(bytes),
        bytes.len() > 0,
    ensures
        !is_continuation_byte(bytes[0]),
{
    reveal_with_fuel(valid_utf8, 1);
}

/// Encoding distributes over concatenation.
pub proof fn lemma_encode_concat(a: Seq<char>, b: Seq<char>)
    ensures
        encode_utf8(a + b) == encode_utf8(a) + encode_utf8(b),
    decreases a.len(),
{
    if a.len() == 0 {
        assert(a + b =~= b);
    } else {
        lemma_encode_concat(a.drop_first(), b);
        assert((a + b).drop_first() =~= a.drop_first() + b);
        assert((a + b)[0] == a[0]);
    }
}

/// The bytes of an empty text are empty, and only those.
pub proof fn lemma_encode_empty(a: Seq<char>)
    ensures
        (encode_utf8(a).len() == 0) == (a.len() == 0),
{
    if a.len() > 0 {
        char_is_scalar(a[0]);
    }
}

/// Replacing the bytes between two boundaries by valid text keeps the text
/// valid; the piece then sits between two boundaries, with the text around
/// it unchanged.
pub proof fn lemma_splice_bounds(bytes: Seq<u8>, lo: int, hi: int, piece: Seq<u8>)
    requires
        valid_utf8(bytes),
        valid_utf8(piece),
        0 <= lo <= hi <= bytes.len(),
        is_boundary(bytes, lo),
        is_boundary(bytes, hi),
    ensures
        ({
            let s = bytes.take(lo) + piece + bytes.skip(hi);
            &&& valid_utf8(s)
            &&& s.len() == bytes.len() - (hi - lo) + piece.len()
            &&& is_boundary(s, lo)
            &&& is_boundary(s, lo + piece.len())
            &&& s.subrange(lo, lo + piece.len()) == piece
            &&& s.take(lo) == bytes.take(lo)
            &&& s.skip(lo + piece.len()) == bytes.skip(hi)
        }),
{
    let s = bytes.take(lo) + piece + bytes.skip(hi);
    lemma_splice_valid(bytes, lo, hi, piece);
    assert(s.subrange(lo, lo + piece.len()) =~= piece);
    assert(s.take(lo) =~= bytes.take(lo));
    assert(s.skip(lo + piece.len()) =~= bytes.skip(hi));
    if 0 < lo < s.len() {
        if piece.len() > 0 {
            lemma_leading_byte(piece);
            assert(s[lo] == piece[0]);
        } else {
            assert(s[lo] == bytes[hi]);
        }
    }
    if 0 < lo + piece.len() < s.len() {
        assert(s[lo + piece.len()] == bytes[hi]);
        if hi == 0 {
            lemma_leading_byte(bytes);
        }
    }
}

/// In valid text made of two valid parts, the seam is a boundary.
pub proof fn lemma_seam_boundary(front: Seq<u8>, back: Seq<u8>, rest: Seq<u8>)
    requires
        valid_utf8(back),
        back.len() > 0,
    ensures
        is_boundary(front + back + rest, front.len() as int),
{
    lemma_leading_byte(back);
    assert((front + back + rest)[front.len() as int] == back[0]);
}

/// A line has one start.
pub proof fn lemma_line_start_unique(bytes: Seq<u8>, p: int, q: int, line: int)
    requires
        is_line_start(bytes, p, line),
        is_line_start(bytes, q, line),
    ensures
        p == q,
{
    if p < q {
        lemma_count_newlines_take(bytes, p, q);
    } else if q < p {
        lemma_count_newlines_take(bytes, q, p);
    }
}

} // verus!
