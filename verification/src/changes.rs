//! What changed between two versions of a text, as an incremental parser
//! wants to be told: the bytes before the change that stayed, the bytes
//! after it that stayed, and row/column positions of the change's ends.

use vstd::prelude::*;
use vstd::string::StringSliceAdditionalSpecFns;
use vstd::utf8::*;

use crate::rope::{byte_newline, count_newlines, is_boundary, lemma_boundary_is_char_boundary, lemma_str_bytes_valid};

verus! {

/// A row (counted in line feeds) and a column (in bytes from the row's start).
#[derive(Clone, Copy, Debug, PartialEq, Eq, Structural)]
pub struct TextPoint {
    pub row: usize,
    pub column: usize,
}

/// The change from an old text to a new one: bytes `start_byte..old_end_byte`
/// of the old text became bytes `start_byte..new_end_byte` of the new one.
#[derive(Clone, Copy, Debug, PartialEq, Eq, Structural)]
pub struct TextChange {
    pub start_byte: usize,
    pub old_end_byte: usize,
    pub new_end_byte: usize,
    pub start_position: TextPoint,
    pub old_end_position: TextPoint,
    pub new_end_position: TextPoint,
}

/// The number of leading bytes `a` and `b` share.
pub open spec fn common_prefix_len(a: Seq<u8>, b: Seq<u8>) -> nat
    decreases a.len(),
{
    if a.len() == 0 || b.len() == 0 || a[0] != b[0] {
        0
    } else {
        1 + common_prefix_len(a.drop_first(), b.drop_first())
    }
}

/// The number of trailing bytes `a` and `b` share.
pub open spec fn common_suffix_len(a: Seq<u8>, b: Seq<u8>) -> nat
    decreases a.len(),
{
    if a.len() == 0 || b.len() == 0 || a.last() != b.last() {
        0
    } else {
        1 + common_suffix_len(a.drop_last(), b.drop_last())
    }
}

/// `k`, moved back until it is a character boundary of both texts.
pub open spec fn back_to_boundary(a: Seq<u8>, b: Seq<u8>, k: int) -> int
    decreases k,
{
    if k <= 0 || (is_boundary(a, k) && is_boundary(b, k)) {
        k
    } else {
        back_to_boundary(a, b, k - 1)
    }
}

/// A suffix length `s`, shortened until it starts at a character boundary of
/// both texts.
pub open spec fn back_suffix(a: Seq<u8>, b: Seq<u8>, s: int) -> int
    decreases s,
{
    if s <= 0 || (is_boundary(a, a.len() - s) && is_boundary(b, b.len() - s)) {
        s
    } else {
        back_suffix(a, b, s - 1)
    }
}

/// Where the line holding byte `byte` starts: after the last line feed
/// before it.
pub open spec fn row_start(s: Seq<u8>, byte: int) -> int
    decreases byte,
{
    if byte <= 0 {
        0
    } else if s[byte - 1] == byte_newline() {
        byte
    } else {
        row_start(s, byte - 1)
    }
}

pub open spec fn spec_point_at(s: Seq<u8>, byte: int) -> TextPoint {
    TextPoint { row: count_newlines(s.take(byte)) as usize, column: (byte - row_start(s, byte)) as usize }
}

/// The change between `old` and `new`.
pub open spec fn spec_change_between(old: Seq<u8>, new: Seq<u8>) -> TextChange {
    let prefix = back_to_boundary(old, new, common_prefix_len(old, new) as int);
    let suffix = back_suffix(old, new, common_suffix_len(old.skip(prefix), new.skip(prefix)) as int);
    let old_end = old.len() - suffix;
    let new_end = new.len() - suffix;
    TextChange {
        start_byte: prefix as usize,
        old_end_byte: old_end as usize,
        new_end_byte: new_end as usize,
        start_position: spec_point_at(old, prefix),
        old_end_position: spec_point_at(old, old_end),
        new_end_position: spec_point_at(new, new_end),
    }
}

proof fn lemma_common_prefix(a: Seq<u8>, b: Seq<u8>)
    ensures
        common_prefix_len(a, b) <= a.len(),
        common_prefix_len(a, b) <= b.len(),
    decreases a.len(),
{
    if !(a.len() == 0 || b.len() == 0 || a[0] != b[0]) {
        lemma_common_prefix(a.drop_first(), b.drop_first());
    }
}

proof fn lemma_common_suffix(a: Seq<u8>, b: Seq<u8>)
    ensures
        common_suffix_len(a, b) <= a.len(),
        common_suffix_len(a, b) <= b.len(),
    decreases a.len(),
{
    if !(a.len() == 0 || b.len() == 0 || a.last() != b.last()) {
        lemma_common_suffix(a.drop_last(), b.drop_last());
    }
}

proof fn lemma_back_to_boundary(a: Seq<u8>, b: Seq<u8>, k: int)
    requires
        0 <= k,
    ensures
        0 <= back_to_boundary(a, b, k) <= k,
    decreases k,
{
    if !(k <= 0 || (is_boundary(a, k) && is_boundary(b, k))) {
        lemma_back_to_boundary(a, b, k - 1);
    }
}

proof fn lemma_back_suffix(a: Seq<u8>, b: Seq<u8>, s: int)
    requires
        0 <= s,
    ensures
        0 <= back_suffix(a, b, s) <= s,
    decreases s,
{
    if !(s <= 0 || (is_boundary(a, a.len() - s) && is_boundary(b, b.len() - s))) {
        lemma_back_suffix(a, b, s - 1);
    }
}

proof fn lemma_row_start(s: Seq<u8>, byte: int)
    requires
        0 <= byte,
    ensures
        0 <= row_start(s, byte) <= byte,
    decreases byte,
{
    if byte > 0 && s[byte - 1] != byte_newline() {
        lemma_row_start(s, byte - 1);
    }
}

/// Whether byte `i` of `s` starts a character or ends the text.
fn boundary_in(s: &str, i: usize) -> (yes: bool)
    requires
        i <= s.spec_bytes().len(),
    ensures
        yes == is_boundary(s.spec_bytes(), i as int),
{
    proof {
        lemma_str_bytes_valid(s);
        lemma_boundary_is_char_boundary(s.spec_bytes(), i as int);
    }
    s.is_char_boundary(i)
}

/// The row and column of byte `byte` of `source`.
pub fn point_at(source: &str, byte: usize) -> (point: TextPoint)
    requires
        byte <= source.spec_bytes().len(),
    ensures
        point == spec_point_at(source.spec_bytes(), byte as int),
{
    let bytes = source.as_bytes();
    let ghost s = bytes@;
    let mut row: usize = 0;
    let mut i: usize = 0;
    assert(s.take(0) =~= Seq::<u8>::empty());
    while i < byte
        invariant
            s == bytes@,
            byte <= s.len(),
            0 <= i <= byte,
            row == count_newlines(s.take(i as int)),
            row <= i,
        decreases byte - i,
    {
        assert(s.take(i + 1).drop_last() =~= s.take(i as int));
        if bytes[i] == 10u8 {
            row = row + 1;
        }
        i = i + 1;
    }
    let mut start = byte;
    while start > 0 && bytes[start - 1] != 10u8
        invariant
            s == bytes@,
            byte <= s.len(),
            0 <= start <= byte,
            row_start(s, byte as int) == row_start(s, start as int),
        decreases start,
    {
        start = start - 1;
    }
    TextPoint { row, column: byte - start }
}

fn common_prefix(a: &[u8], b: &[u8]) -> (n: usize)
    ensures
        n == common_prefix_len(a@, b@),
        n <= a@.len(),
        n <= b@.len(),
{
    let ghost (sa, sb) = (a@, b@);
    proof {
        lemma_common_prefix(sa, sb);
    }
    let (al, bl) = (a.len(), b.len());
    let mut n: usize = 0;
    assert(sa.skip(0) =~= sa && sb.skip(0) =~= sb);
    while n < al && n < bl && a[n] == b[n]
        invariant
            sa == a@,
            sb == b@,
            al == sa.len(),
            bl == sb.len(),
            n <= al,
            n <= bl,
            common_prefix_len(sa, sb) == n + common_prefix_len(sa.skip(n as int), sb.skip(n as int)),
        decreases al - n,
    {
        assert(sa.skip(n as int).drop_first() =~= sa.skip(n + 1));
        assert(sb.skip(n as int).drop_first() =~= sb.skip(n + 1));
        n = n + 1;
    }
    n
}

fn common_suffix_from(a: &[u8], b: &[u8], from: usize) -> (n: usize)
    requires
        from <= a@.len(),
        from <= b@.len(),
    ensures
        n == common_suffix_len(a@.skip(from as int), b@.skip(from as int)),
        n <= a@.len() - from,
        n <= b@.len() - from,
{
    let ghost (ta, tb) = (a@.skip(from as int), b@.skip(from as int));
    proof {
        lemma_common_suffix(ta, tb);
    }
    let (al, bl) = (a.len(), b.len());
    let mut n: usize = 0;
    assert(ta.take(ta.len() as int) =~= ta && tb.take(tb.len() as int) =~= tb);
    while n < al - from && n < bl - from && a[al - 1 - n] == b[bl - 1 - n]
        invariant
            al == a@.len(),
            bl == b@.len(),
            from <= al,
            from <= bl,
            ta == a@.skip(from as int),
            tb == b@.skip(from as int),
            n <= al - from,
            n <= bl - from,
            common_suffix_len(ta, tb) == n + common_suffix_len(ta.take(ta.len() - n), tb.take(tb.len() - n)),
        decreases al - n,
    {
        assert(ta.take(ta.len() - n).drop_last() =~= ta.take(ta.len() - n - 1));
        assert(tb.take(tb.len() - n).drop_last() =~= tb.take(tb.len() - n - 1));
        n = n + 1;
    }
    n
}

fn prefix_to_boundary(old: &str, new: &str, k: usize) -> (p: usize)
    requires
        k <= old.spec_bytes().len(),
        k <= new.spec_bytes().len(),
    ensures
        p == back_to_boundary(old.spec_bytes(), new.spec_bytes(), k as int),
        p <= k,
{
    let ghost (sa, sb) = (old.spec_bytes(), new.spec_bytes());
    proof {
        lemma_back_to_boundary(sa, sb, k as int);
    }
    let mut p = k;
    while p > 0 && (!boundary_in(old, p) || !boundary_in(new, p))
        invariant
            sa == old.spec_bytes(),
            sb == new.spec_bytes(),
            p <= k,
            k <= sa.len(),
            k <= sb.len(),
            back_to_boundary(sa, sb, k as int) == back_to_boundary(sa, sb, p as int),
        decreases p,
    {
        p = p - 1;
    }
    p
}

fn suffix_to_boundary(old: &str, new: &str, s: usize) -> (n: usize)
    requires
        s <= old.spec_bytes().len(),
        s <= new.spec_bytes().len(),
    ensures
        n == back_suffix(old.spec_bytes(), new.spec_bytes(), s as int),
        n <= s,
{
    let ghost (sa, sb) = (old.spec_bytes(), new.spec_bytes());
    proof {
        lemma_back_suffix(sa, sb, s as int);
    }
    let al = old.as_bytes().len();
    let bl = new.as_bytes().len();
    let mut n = s;
    while n > 0 && (!boundary_in(old, al - n) || !boundary_in(new, bl - n))
        invariant
            sa == old.spec_bytes(),
            sb == new.spec_bytes(),
            al == sa.len(),
            bl == sb.len(),
            n <= s,
            s <= sa.len(),
            s <= sb.len(),
            back_suffix(sa, sb, s as int) == back_suffix(sa, sb, n as int),
        decreases n,
    {
        n = n - 1;
    }
    n
}

/// What changed between `old` and `new`.
pub fn change_between(old: &str, new: &str) -> (change: TextChange)
    ensures
        change == spec_change_between(old.spec_bytes(), new.spec_bytes()),
{
    let a = old.as_bytes();
    let b = new.as_bytes();
    let common = common_prefix(a, b);
    let prefix = prefix_to_boundary(old, new, common);
    let same_end = common_suffix_from(a, b, prefix);
    let suffix = suffix_to_boundary(old, new, same_end);
    let start_byte = prefix;
    let old_end_byte = a.len() - suffix;
    let new_end_byte = b.len() - suffix;
    TextChange {
        start_byte,
        old_end_byte,
        new_end_byte,
        start_position: point_at(old, start_byte),
        old_end_position: point_at(old, old_end_byte),
        new_end_position: point_at(new, new_end_byte),
    }
}

proof fn lemma_prefix_equal(a: Seq<u8>, b: Seq<u8>)
    ensures
        forall|i: int| 0 <= i < common_prefix_len(a, b) ==> a[i] == b[i],
    decreases a.len(),
{
    if !(a.len() == 0 || b.len() == 0 || a[0] != b[0]) {
        lemma_prefix_equal(a.drop_first(), b.drop_first());
        lemma_common_prefix(a.drop_first(), b.drop_first());
        assert forall|i: int| 0 <= i < common_prefix_len(a, b) implies a[i] == b[i] by {
            if i > 0 {
                assert(a.drop_first()[i - 1] == b.drop_first()[i - 1]);
            }
        }
    }
}

/// The byte `i` places from the end of `a`.
spec fn from_end(a: Seq<u8>, i: int) -> u8 {
    a[a.len() - 1 - i]
}

proof fn lemma_suffix_equal(a: Seq<u8>, b: Seq<u8>)
    ensures
        forall|i: int| 0 <= i < common_suffix_len(a, b) ==> #[trigger] from_end(a, i) == from_end(b, i),
    decreases a.len(),
{
    if !(a.len() == 0 || b.len() == 0 || a.last() != b.last()) {
        lemma_suffix_equal(a.drop_last(), b.drop_last());
        lemma_common_suffix(a.drop_last(), b.drop_last());
        assert forall|i: int| 0 <= i < common_suffix_len(a, b) implies #[trigger] from_end(a, i) == from_end(b, i) by {
            if i > 0 {
                assert(from_end(a.drop_last(), i - 1) == from_end(b.drop_last(), i - 1));
            }
        }
    }
}

/// The change between two texts describes a splice: the new text is the
/// old text's bytes before the change, the new bytes of the change, and the
/// old text's bytes after it; the change's ends are in order and inside
/// both texts.
pub proof fn lemma_change_between_splices(old: Seq<u8>, new: Seq<u8>)
    requires
        old.len() <= usize::MAX,
        new.len() <= usize::MAX,
    ensures
        ({
            let c = spec_change_between(old, new);
            &&& c.start_byte <= c.old_end_byte <= old.len()
            &&& c.start_byte <= c.new_end_byte <= new.len()
            &&& new == old.take(c.start_byte as int) + new.subrange(c.start_byte as int, c.new_end_byte as int)
                + old.skip(c.old_end_byte as int)
        }),
{
    let cp = common_prefix_len(old, new) as int;
    lemma_common_prefix(old, new);
    lemma_prefix_equal(old, new);
    let p = back_to_boundary(old, new, cp);
    lemma_back_to_boundary(old, new, cp);
    let (oa, na) = (old.skip(p), new.skip(p));
    let t = common_suffix_len(oa, na) as int;
    lemma_common_suffix(oa, na);
    lemma_suffix_equal(oa, na);
    let sfx = back_suffix(old, new, t);
    lemma_back_suffix(old, new, t);
    let old_end = old.len() - sfx;
    let new_end = new.len() - sfx;
    assert(old.take(p) =~= new.take(p));
    assert forall|j: int| 0 <= j < sfx implies old.skip(old_end)[j] == new.skip(new_end)[j] by {
        let i = sfx - 1 - j;
        assert(from_end(oa, i) == from_end(na, i));
    }
    assert(old.skip(old_end) =~= new.skip(new_end));
    assert(new =~= new.take(p) + new.subrange(p, new_end) + new.skip(new_end));
}

} // verus!
