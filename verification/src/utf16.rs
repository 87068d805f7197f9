//! Offsets counted in UTF-16 code units, as platform text input counts them,
//! and the byte offsets in UTF-8 text that they stand for.

use vstd::prelude::*;
use vstd::utf8::*;

use crate::rope::lemma_encode_concat;
use crate::strings::str_chars;

verus! {

/// Bytes in the UTF-8 form of the first `k` characters of `s`.
pub open spec fn utf8_units(s: Seq<char>, k: int) -> nat {
    encode_utf8(s.take(k)).len()
}

/// Code units in the UTF-16 form of one character.
pub open spec fn utf16_width(c: char) -> nat {
    if (c as u32) < 0x10000 {
        1
    } else {
        2
    }
}

/// Code units in the UTF-16 form of the first `k` characters of `s`.
pub open spec fn utf16_units(s: Seq<char>, k: int) -> nat
    decreases k,
{
    if k <= 0 {
        0
    } else {
        utf16_units(s, k - 1) + utf16_width(s[k - 1])
    }
}

/// `k` is where a walk over the characters of `s` stops when it looks for
/// `offset` bytes: the first prefix that reaches `offset` bytes, or all of `s`.
pub open spec fn stops_at_bytes(s: Seq<char>, offset: int, k: int) -> bool {
    &&& 0 <= k <= s.len()
    &&& k == s.len() || utf8_units(s, k) >= offset
    &&& forall|j: int| 0 <= j < k ==> #[trigger] utf8_units(s, j) < offset
}

/// `k` is where a walk over the characters of `s` stops when it looks for
/// `offset` UTF-16 units.
pub open spec fn stops_at_units(s: Seq<char>, offset: int, k: int) -> bool {
    &&& 0 <= k <= s.len()
    &&& k == s.len() || utf16_units(s, k) >= offset
    &&& forall|j: int| 0 <= j < k ==> #[trigger] utf16_units(s, j) < offset
}

/// The UTF-16 offset of byte offset `offset` in `s`.
pub open spec fn utf16_of_byte(s: Seq<char>, offset: int) -> nat {
    utf16_units(s, choose|k: int| stops_at_bytes(s, offset, k))
}

/// The byte offset of UTF-16 offset `offset` in `s`.
pub open spec fn byte_of_utf16(s: Seq<char>, offset: int) -> nat {
    utf8_units(s, choose|k: int| stops_at_units(s, offset, k))
}

proof fn lemma_stop_unique(s: Seq<char>, offset: int, k: int)
    ensures
        stops_at_bytes(s, offset, k) ==> (choose|m: int| stops_at_bytes(s, offset, m)) == k,
        stops_at_units(s, offset, k) ==> (choose|m: int| stops_at_units(s, offset, m)) == k,
{
    if stops_at_bytes(s, offset, k) {
        let m = choose|m: int| stops_at_bytes(s, offset, m);
        assert(stops_at_bytes(s, offset, m));
        if m < k {
            assert(utf8_units(s, m) < offset);
        } else if k < m {
            assert(utf8_units(s, k) < offset);
        }
    }
    if stops_at_units(s, offset, k) {
        let m = choose|m: int| stops_at_units(s, offset, m);
        assert(stops_at_units(s, offset, m));
        if m < k {
            assert(utf16_units(s, m) < offset);
        } else if k < m {
            assert(utf16_units(s, k) < offset);
        }
    }
}

/// One more character adds the length of its UTF-8 form.
pub(crate) proof fn lemma_utf8_step(s: Seq<char>, k: int)
    requires
        0 <= k < s.len(),
    ensures
        utf8_units(s, k + 1) == utf8_units(s, k) + encode_scalar(s[k] as u32).len(),
{
    assert(s.take(k + 1) =~= s.take(k) + seq![s[k]]);
    lemma_encode_concat(s.take(k), seq![s[k]]);
    assert(seq![s[k]].drop_first() =~= Seq::<char>::empty());
    assert(encode_utf8(seq![s[k]]) =~= encode_scalar(s[k] as u32) + encode_utf8(Seq::<char>::empty()));
}

/// A longer prefix has at least as many bytes.
pub(crate) proof fn lemma_utf8_mono(s: Seq<char>, a: int, b: int)
    requires
        0 <= a <= b <= s.len(),
    ensures
        utf8_units(s, a) <= utf8_units(s, b),
{
    assert(s.take(b) =~= s.take(a) + s.subrange(a, b));
    lemma_encode_concat(s.take(a), s.subrange(a, b));
}

/// No character takes more UTF-16 units than UTF-8 bytes.
proof fn lemma_utf16_within_utf8(s: Seq<char>, k: int)
    requires
        0 <= k <= s.len(),
    ensures
        utf16_units(s, k) <= utf8_units(s, k),
    decreases k,
{
    if k > 0 {
        lemma_utf16_within_utf8(s, k - 1);
        lemma_utf8_step(s, k - 1);
        char_is_scalar(s[k - 1]);
    }
}

/// The whole text's bytes are its UTF-8 form.
pub(crate) proof fn lemma_utf8_all(s: Seq<char>)
    ensures
        utf8_units(s, s.len() as int) == encode_utf8(s).len(),
{
    assert(s.take(s.len() as int) =~= s);
}

/// The length of the UTF-8 form of `c` (`char::len_utf8`).
pub(crate) fn utf8_width(c: char) -> (width: usize)
    ensures
        width == encode_scalar(c as u32).len(),
{
    proof {
        char_is_scalar(c);
    }
    let u = c as u32;
    if u < 0x80 {
        1
    } else if u < 0x800 {
        2
    } else if u < 0x10000 {
        3
    } else {
        4
    }
}

/// The length of the UTF-16 form of `c` (`char::len_utf16`).
fn utf16_width_of(c: char) -> (width: usize)
    ensures
        width == utf16_width(c),
{
    if (c as u32) < 0x10000 {
        1
    } else {
        2
    }
}

/// The UTF-16 offset of byte `offset`: the UTF-16 length of the shortest
/// prefix of `content` that reaches `offset` bytes, or of all of it.
pub fn byte_offset_to_utf16(content: &str, offset: usize) -> (units: usize)
    ensures
        units == utf16_of_byte(content@, offset as int),
{
    let ghost s = content@;
    let chars = str_chars(content);
    let total = content.as_bytes().len();
    proof {
        lemma_utf8_all(s);
        assert(s.take(0) =~= Seq::<char>::empty());
    }
    let mut utf8: usize = 0;
    let mut utf16: usize = 0;
    let mut i: usize = 0;
    while i < chars.len() && utf8 < offset
        invariant
            chars@ == s,
            total == utf8_units(s, s.len() as int),
            0 <= i <= s.len(),
            utf8 == utf8_units(s, i as int),
            utf16 == utf16_units(s, i as int),
            forall|j: int| 0 <= j < i ==> #[trigger] utf8_units(s, j) < offset,
        decreases s.len() - i,
    {
        let c = chars[i];
        proof {
            lemma_utf8_step(s, i as int);
            lemma_utf8_mono(s, i + 1, s.len() as int);
            lemma_utf16_within_utf8(s, i + 1);
        }
        utf8 = utf8 + utf8_width(c);
        utf16 = utf16 + utf16_width_of(c);
        i = i + 1;
    }
    proof {
        assert(stops_at_bytes(s, offset as int, i as int));
        lemma_stop_unique(s, offset as int, i as int);
    }
    utf16
}

/// The byte offset of UTF-16 offset `offset`: the byte length of the
/// shortest prefix of `content` that reaches `offset` UTF-16 units, or of
/// all of it.
pub fn byte_offset_from_utf16(content: &str, offset: usize) -> (bytes: usize)
    ensures
        bytes == byte_of_utf16(content@, offset as int),
{
    let ghost s = content@;
    let chars = str_chars(content);
    let total = content.as_bytes().len();
    proof {
        lemma_utf8_all(s);
        assert(s.take(0) =~= Seq::<char>::empty());
    }
    let mut utf8: usize = 0;
    let mut utf16: usize = 0;
    let mut i: usize = 0;
    while i < chars.len() && utf16 < offset
        invariant
            chars@ == s,
            total == utf8_units(s, s.len() as int),
            0 <= i <= s.len(),
            utf8 == utf8_units(s, i as int),
            utf16 == utf16_units(s, i as int),
            forall|j: int| 0 <= j < i ==> #[trigger] utf16_units(s, j) < offset,
        decreases s.len() - i,
    {
        let c = chars[i];
        proof {
            lemma_utf8_step(s, i as int);
            lemma_utf8_mono(s, i + 1, s.len() as int);
            lemma_utf16_within_utf8(s, i + 1);
        }
        utf8 = utf8 + utf8_width(c);
        utf16 = utf16 + utf16_width_of(c);
        i = i + 1;
    }
    proof {
        assert(stops_at_units(s, offset as int, i as int));
        lemma_stop_unique(s, offset as int, i as int);
    }
    utf8
}

/// The byte range of a UTF-16 range.
pub fn range_from_utf16(content: &str, range: (usize, usize)) -> (bytes: (usize, usize))
    ensures
        bytes.0 == byte_of_utf16(content@, range.0 as int),
        bytes.1 == byte_of_utf16(content@, range.1 as int),
{
    (byte_offset_from_utf16(content, range.0), byte_offset_from_utf16(content, range.1))
}

/// The UTF-16 range of a byte range.
pub fn range_to_utf16(content: &str, range: (usize, usize)) -> (units: (usize, usize))
    ensures
        units.0 == utf16_of_byte(content@, range.0 as int),
        units.1 == utf16_of_byte(content@, range.1 as int),
{
    (byte_offset_to_utf16(content, range.0), byte_offset_to_utf16(content, range.1))
}

/// The bytes that text from an input method replaces: the UTF-16 range it
/// names, else the text still being composed, else the selection.
pub open spec fn spec_replacement_range(
    s: Seq<char>,
    range_utf16: Option<(usize, usize)>,
    marked: Option<(usize, usize)>,
    selection: (usize, usize),
) -> (nat, nat) {
    match range_utf16 {
        Some(r) => (byte_of_utf16(s, r.0 as int), byte_of_utf16(s, r.1 as int)),
        None => match marked {
            Some(m) => (m.0 as nat, m.1 as nat),
            None => (selection.0 as nat, selection.1 as nat),
        },
    }
}

/// The bytes that text from an input method replaces.
pub fn replacement_range(
    content: &str,
    range_utf16: Option<(usize, usize)>,
    marked: Option<(usize, usize)>,
    selection: (usize, usize),
) -> (bytes: (usize, usize))
    ensures
        (bytes.0 as nat, bytes.1 as nat) == spec_replacement_range(content@, range_utf16, marked, selection),
{
    match range_utf16 {
        Some(r) => range_from_utf16(content, r),
        None => match marked {
            Some(m) => m,
            None => selection,
        },
    }
}

/// The text still being composed after `new_text` was put at byte `start`:
/// the new text's bytes, or none when it is empty.
pub fn marked_after(start: usize, new_text: &str) -> (marked: Option<(usize, usize)>)
    requires
        start + encode_utf8(new_text@).len() <= usize::MAX,
    ensures
        marked == if new_text@.len() == 0 {
            None
        } else {
            Some((start, (start + encode_utf8(new_text@).len()) as usize))
        },
{
    let n = new_text.as_bytes().len();
    proof {
        crate::rope::lemma_encode_empty(new_text@);
    }
    if n == 0 {
        None
    } else {
        Some((start, start + n))
    }
}

/// More characters take strictly more bytes and strictly more UTF-16 units.
proof fn lemma_units_strictly_grow(s: Seq<char>, j: int, k: int)
    requires
        0 <= j < k <= s.len(),
    ensures
        utf8_units(s, j) < utf8_units(s, k),
        utf16_units(s, j) < utf16_units(s, k),
    decreases k - j,
{
    lemma_utf8_step(s, k - 1);
    char_is_scalar(s[k - 1]);
    if j < k - 1 {
        lemma_units_strictly_grow(s, j, k - 1);
    }
}

/// Where a walk looking for the bytes of `k` whole characters stops: after
/// those characters; likewise for their UTF-16 units.
proof fn lemma_stops_at_boundary(s: Seq<char>, k: int)
    requires
        0 <= k <= s.len(),
    ensures
        stops_at_bytes(s, utf8_units(s, k) as int, k),
        stops_at_units(s, utf16_units(s, k) as int, k),
{
    assert forall|j: int| 0 <= j < k implies #[trigger] utf8_units(s, j) < utf8_units(s, k) by {
        lemma_units_strictly_grow(s, j, k);
    }
    assert forall|j: int| 0 <= j < k implies #[trigger] utf16_units(s, j) < utf16_units(s, k) by {
        lemma_units_strictly_grow(s, j, k);
    }
}

/// A byte offset between whole characters survives the trip to UTF-16 and
/// back, and a UTF-16 offset between whole characters survives the trip to
/// bytes and back.
pub proof fn lemma_utf16_round_trip(s: Seq<char>, k: int)
    requires
        0 <= k <= s.len(),
    ensures
        byte_of_utf16(s, utf16_of_byte(s, utf8_units(s, k) as int) as int) == utf8_units(s, k),
        utf16_of_byte(s, byte_of_utf16(s, utf16_units(s, k) as int) as int) == utf16_units(s, k),
{
    lemma_stops_at_boundary(s, k);
    lemma_stop_unique(s, utf8_units(s, k) as int, k);
    lemma_stop_unique(s, utf16_units(s, k) as int, k);
}

} // verus!
