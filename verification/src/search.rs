//! Finding a query in text: forward or backward from an offset, optionally
//! ignoring case and optionally only whole words.

use crop::Rope;
use vstd::prelude::*;
use vstd::string::StringSliceAdditionalSpecFns;
use vstd::utf8::*;

use crate::addons::SearchQuery;
use crate::chars::{alphanumeric, char_lowercase, is_word_char, lower_char, spec_is_word_char};
use crate::document::{char_at, char_before};
use crate::rope::{
    is_boundary, rope_bytes, rope_char_at, rope_char_before, rope_from_str, rope_is_char_boundary,
};
use crate::strings::str_chars;
use crate::text::{ByteOffset, ByteRange};
use crate::utf16::{lemma_utf8_all, lemma_utf8_mono, lemma_utf8_step, utf8_units, utf8_width};

verus! {

/// `n` occurs in `h` at `a`.
pub open spec fn occurs_at(h: Seq<u8>, n: Seq<u8>, a: int) -> bool {
    0 <= a && a + n.len() <= h.len() && h.subrange(a, a + n.len()) == n
}

/// The first place at or after `from` where `n` occurs in `h`.
pub open spec fn first_occurrence(h: Seq<u8>, n: Seq<u8>, from: int) -> Option<int>
    decreases h.len() + 1 - from,
{
    if from < 0 || from + n.len() > h.len() {
        None
    } else if occurs_at(h, n, from) {
        Some(from)
    } else {
        first_occurrence(h, n, from + 1)
    }
}

/// The last place at or before `a` where `n` occurs in `h`.
pub open spec fn last_occurrence_from(h: Seq<u8>, n: Seq<u8>, a: int) -> Option<int>
    decreases a + 1,
{
    if a < 0 {
        None
    } else if occurs_at(h, n, a) {
        Some(a)
    } else {
        last_occurrence_from(h, n, a - 1)
    }
}

/// The last place where `n` occurs in `h` and ends by `limit`.
pub open spec fn last_occurrence(h: Seq<u8>, n: Seq<u8>, limit: int) -> Option<int> {
    last_occurrence_from(h, n, limit - n.len())
}

/// The text around `start..end` in `text` is not part of a word.
pub open spec fn whole_word_at(text: Seq<u8>, start: int, end: int) -> bool {
    &&& !(char_before(text, start) matches Some(c) && spec_is_word_char(c))
    &&& !(char_at(text, end) matches Some(c) && spec_is_word_char(c))
}

/// A match of `len` bytes at `a` counts: it lies between character
/// boundaries of `text` and, if asked for, is a whole word.
pub open spec fn accepted(text: Seq<u8>, a: int, len: int, whole_word: bool) -> bool {
    &&& a + len <= text.len()
    &&& is_boundary(text, a)
    &&& is_boundary(text, a + len)
    &&& (!whole_word || whole_word_at(text, a, a + len))
}

pub proof fn lemma_first_occurrence(h: Seq<u8>, n: Seq<u8>, from: int)
    ensures
        first_occurrence(h, n, from) matches Some(a) ==> from <= a && occurs_at(h, n, a),
    decreases h.len() + 1 - from,
{
    if !(from < 0 || from + n.len() > h.len()) && !occurs_at(h, n, from) {
        lemma_first_occurrence(h, n, from + 1);
    }
}

pub proof fn lemma_last_occurrence(h: Seq<u8>, n: Seq<u8>, a: int)
    ensures
        last_occurrence_from(h, n, a) matches Some(b) ==> 0 <= b <= a && occurs_at(h, n, b),
    decreases a + 1,
{
    if a >= 0 && !occurs_at(h, n, a) {
        lemma_last_occurrence(h, n, a - 1);
    }
}

/// Scanning forward from `start`: each occurrence is tried in turn, and the
/// search goes on after one that does not count.
pub open spec fn scan_forward(hay: Seq<u8>, needle: Seq<u8>, text: Seq<u8>, whole_word: bool, start: int) -> Option<
    int,
>
    decreases hay.len() - start,
{
    if needle.len() == 0 {
        None
    } else {
        match first_occurrence(hay, needle, start) {
            None => None,
            Some(a) => if accepted(text, a, needle.len() as int, whole_word) {
                Some(a)
            } else {
                proof {
                    lemma_first_occurrence(hay, needle, start);
                }
                scan_forward(hay, needle, text, whole_word, a + needle.len())
            },
        }
    }
}

/// Scanning backward from `limit`: each occurrence that ends by the limit is
/// tried in turn, and the search goes on before one that does not count.
pub open spec fn scan_backward(hay: Seq<u8>, needle: Seq<u8>, text: Seq<u8>, whole_word: bool, limit: int) -> Option<
    int,
>
    decreases limit,
{
    if needle.len() == 0 {
        None
    } else {
        match last_occurrence(hay, needle, limit) {
            None => None,
            Some(a) => if accepted(text, a, needle.len() as int, whole_word) {
                Some(a)
            } else if a <= 0 {
                None
            } else {
                proof {
                    lemma_last_occurrence(hay, needle, limit - needle.len());
                }
                scan_backward(hay, needle, text, whole_word, a)
            },
        }
    }
}

/// Each character of `s` lowered on its own (`char::to_lowercase`).
pub open spec fn lowered(s: Seq<char>) -> Seq<Seq<char>> {
    s.map_values(|c: char| char_lowercase(c))
}

/// Where a match of `rest` that starts at character `p` ends: the
/// characters from `p` on, each lowered on its own (`lows`), spell out
/// `rest` exactly up to that character.
pub open spec fn fold_match(lows: Seq<Seq<char>>, p: int, rest: Seq<char>) -> Option<int>
    decreases lows.len() - p,
{
    if rest.len() == 0 {
        Some(p)
    } else if p < 0 || p >= lows.len() {
        None
    } else if lows[p].len() <= rest.len() && rest.take(lows[p].len() as int) == lows[p] {
        fold_match(lows, p + 1, rest.skip(lows[p].len() as int))
    } else {
        None
    }
}

pub proof fn lemma_fold_match(lows: Seq<Seq<char>>, p: int, rest: Seq<char>)
    ensures
        rest.len() > 0 && fold_match(lows, p, rest) is Some ==> 0 <= p < fold_match(lows, p, rest)->0 <= lows.len(),
    decreases lows.len() - p,
{
    if rest.len() > 0 && 0 <= p < lows.len() && lows[p].len() <= rest.len() && rest.take(lows[p].len() as int)
        == lows[p] {
        lemma_fold_match(lows, p + 1, rest.skip(lows[p].len() as int));
    }
}

/// A match from character `p` to character `e` of `h` counts for a query
/// of `n` bytes: it is `n` bytes long, and `accepted` holds of it.
pub open spec fn counts_between(h: Seq<char>, p: int, e: int, n: int, whole_word: bool) -> bool {
    &&& utf8_units(h, e) - utf8_units(h, p) == n
    &&& accepted(encode_utf8(h), utf8_units(h, p) as int, n, whole_word)
}

/// Scanning forward from character `p` for the lowered query `folded`:
/// each match is tried in turn, and the search goes on after one that does
/// not count. The result is the byte offset of the match.
pub open spec fn scan_folded_forward(h: Seq<char>, folded: Seq<char>, n: int, whole_word: bool, p: int) -> Option<
    int,
>
    decreases h.len() - p,
{
    if folded.len() == 0 || p < 0 || p >= h.len() {
        None
    } else {
        match fold_match(lowered(h), p, folded) {
            Some(e) => if counts_between(h, p, e, n, whole_word) {
                Some(utf8_units(h, p) as int)
            } else {
                proof {
                    lemma_fold_match(lowered(h), p, folded);
                }
                scan_folded_forward(h, folded, n, whole_word, e)
            },
            None => scan_folded_forward(h, folded, n, whole_word, p + 1),
        }
    }
}

/// The last match of `folded` that starts at character `p` or before and
/// ends by character `last`: its first character and where it ends.
pub open spec fn last_fold_match(lows: Seq<Seq<char>>, folded: Seq<char>, last: int, p: int) -> Option<(int, int)>
    decreases p + 1,
{
    if p < 0 {
        None
    } else {
        match fold_match(lows, p, folded) {
            Some(e) => if e <= last {
                Some((p, e))
            } else {
                last_fold_match(lows, folded, last, p - 1)
            },
            None => last_fold_match(lows, folded, last, p - 1),
        }
    }
}

pub proof fn lemma_last_fold_match(lows: Seq<Seq<char>>, folded: Seq<char>, last: int, p: int)
    ensures
        last_fold_match(lows, folded, last, p) matches Some((q, e)) ==> 0 <= q <= p && fold_match(lows, q, folded)
            == Some(e) && e <= last,
    decreases p + 1,
{
    if p >= 0 {
        match fold_match(lows, p, folded) {
            Some(e) => if e > last {
                lemma_last_fold_match(lows, folded, last, p - 1);
            },
            None => lemma_last_fold_match(lows, folded, last, p - 1),
        }
    }
}

/// Scanning backward for the lowered query `folded`, matches ending by
/// character `last`: each is tried in turn, and the search goes on before
/// one that does not count. The result is the byte offset of the match.
pub open spec fn scan_folded_backward(h: Seq<char>, folded: Seq<char>, n: int, whole_word: bool, last: int) -> Option<
    int,
>
    decreases last,
{
    if folded.len() == 0 || last < 0 {
        None
    } else {
        match last_fold_match(lowered(h), folded, last, last) {
            None => None,
            Some((p, e)) => if counts_between(h, p, e, n, whole_word) {
                Some(utf8_units(h, p) as int)
            } else if p <= 0 {
                None
            } else {
                proof {
                    lemma_last_fold_match(lowered(h), folded, last, last);
                    lemma_fold_match(lowered(h), p, folded);
                }
                scan_folded_backward(h, folded, n, whole_word, p)
            },
        }
    }
}

/// The first character of `h`, from `p` on, that starts at or after byte
/// `from`; the end of `h` if none does.
pub open spec fn char_index_from(h: Seq<char>, from: int, p: int) -> int
    decreases h.len() - p,
{
    if p >= h.len() || utf8_units(h, p) >= from {
        p
    } else {
        char_index_from(h, from, p + 1)
    }
}

/// The last character boundary of `h` at or before byte `from`, as a
/// character index.
pub open spec fn char_index_upto(h: Seq<char>, from: int) -> int {
    let p = char_index_from(h, from, 0);
    if utf8_units(h, p) > from {
        p - 1
    } else {
        p
    }
}

/// Where `query` is found in `h` from `from`, forward or backward: the start
/// of the match, which is as long as the query's text. With case, the
/// query's bytes are looked for in the text's bytes. Ignoring case, a match
/// runs over whole characters of `h` that, each lowered on its own, spell
/// out the query's characters each lowered on its own.
pub open spec fn found_in(h: Seq<char>, query: SearchQuery, from: int, forward: bool) -> Option<int> {
    let text = encode_utf8(h);
    let from = if from < text.len() {
        from
    } else {
        text.len() as int
    };
    let needle = encode_utf8(query.text@);
    if query.text@.len() == 0 {
        None
    } else if query.case_sensitive {
        if forward {
            scan_forward(text, needle, text, query.whole_word, from)
        } else {
            scan_backward(text, needle, text, query.whole_word, from)
        }
    } else {
        found_folded(h, query, from, forward)
    }
}

/// Whether `n` occurs in `h` at `a`.
fn occurs(h: &[u8], n: &[u8], a: usize) -> (yes: bool)
    requires
        a <= h@.len(),
    ensures
        yes == occurs_at(h@, n@, a as int),
{
    let hl = h.len();
    let nl = n.len();
    if hl - a < nl {
        return false;
    }
    let mut i: usize = 0;
    while i < nl
        invariant
            hl == h@.len(),
            nl == n@.len(),
            a + nl <= hl,
            0 <= i <= nl,
            forall|k: int| 0 <= k < i ==> h@[a + k] == n@[k],
        decreases nl - i,
    {
        if h[a + i] != n[i] {
            assert(h@.subrange(a as int, a + nl)[i as int] != n@[i as int]);
            return false;
        }
        i = i + 1;
    }
    assert(h@.subrange(a as int, a + nl) =~= n@);
    true
}

fn find_first(h: &[u8], n: &[u8], from: usize) -> (found: Option<usize>)
    ensures
        found == match first_occurrence(h@, n@, from as int) {
            Some(a) => Some(a as usize),
            None => None::<usize>,
        },
        first_occurrence(h@, n@, from as int) matches Some(a) ==> from <= a && a + n@.len() <= h@.len(),
{
    proof {
        lemma_first_occurrence(h@, n@, from as int);
    }
    let hl = h.len();
    let nl = n.len();
    let mut a = from;
    while a <= hl && hl - a >= nl
        invariant
            hl == h@.len(),
            nl == n@.len(),
            from <= a,
            first_occurrence(h@, n@, from as int) == first_occurrence(h@, n@, a as int),
        decreases hl - a,
    {
        if occurs(h, n, a) {
            return Some(a);
        }
        if a == hl {
            assert(first_occurrence(h@, n@, a + 1) is None);
            return None;
        }
        a = a + 1;
    }
    None
}

fn find_last(h: &[u8], n: &[u8], limit: usize) -> (found: Option<usize>)
    ensures
        found == match last_occurrence(h@, n@, limit as int) {
            Some(a) => Some(a as usize),
            None => None::<usize>,
        },
        last_occurrence(h@, n@, limit as int) matches Some(a) ==> 0 <= a && a + n@.len() <= h@.len() && a
            + n@.len() <= limit,
{
    proof {
        lemma_last_occurrence(h@, n@, limit - n@.len());
    }
    let nl = n.len();
    if limit < nl {
        return None;
    }
    let mut a = limit - nl;
    loop
        invariant
            nl == n@.len(),
            a <= limit - nl,
            last_occurrence(h@, n@, limit as int) == last_occurrence_from(h@, n@, a as int),
        decreases a,
    {
        if a <= h.len() && occurs(h, n, a) {
            return Some(a);
        }
        if a == 0 {
            assert(last_occurrence_from(h@, n@, -1) is None);
            return None;
        }
        a = a - 1;
    }
}

/// Whether a match of `len` bytes at `a` counts.
fn accepts(text: &Rope, a: usize, len: usize, whole_word: bool) -> (yes: bool)
    requires
        valid_utf8(rope_bytes(*text)),
    ensures
        yes == accepted(rope_bytes(*text), a as int, len as int, whole_word),
{
    let ghost bytes = rope_bytes(*text);
    let total = crate::rope::rope_byte_len(text);
    if a > total || total - a < len {
        return false;
    }
    let end = a + len;
    if !rope_is_char_boundary(text, a) || !rope_is_char_boundary(text, end) {
        return false;
    }
    if !whole_word {
        return true;
    }
    let before = match rope_char_before(text, a) {
        Some(c) => is_word_char(c),
        None => false,
    };
    let after = match rope_char_at(text, end) {
        Some(c) => is_word_char(c),
        None => false,
    };
    !before && !after
}

/// The byte length of a text.
fn bytes_len(t: &str) -> (n: usize)
    ensures
        n == t.spec_bytes().len(),
{
    t.as_bytes().len()
}

/// Lowered characters as plain sequences.
pub open spec fn lows_view(lows: Seq<Vec<char>>) -> Seq<Seq<char>> {
    lows.map_values(|v: Vec<char>| v@)
}

/// Whether `piece` stands in `chars` from `k` on.
fn same_chars(chars: &Vec<char>, k: usize, piece: &Vec<char>) -> (same: bool)
    requires
        k + piece@.len() <= chars@.len(),
    ensures
        same == (chars@.subrange(k as int, k + piece@.len()) == piece@),
{
    let len = piece.len();
    let total = chars.len();
    let mut t: usize = 0;
    while t < len
        invariant
            0 <= t <= len,
            len == piece@.len(),
            total == chars@.len(),
            k + len <= total,
            forall|u: int| 0 <= u < t ==> chars@[k + u] == piece@[u],
        decreases len - t,
    {
        if chars[k + t] != piece[t] {
            assert(chars@.subrange(k as int, k + len)[t as int] != piece@[t as int]);
            return false;
        }
        t = t + 1;
    }
    assert(chars@.subrange(k as int, k + len) =~= piece@);
    true
}

/// Where a match of `folded` that starts at character `p` ends.
fn match_end(lows: &Vec<Vec<char>>, p: usize, folded: &Vec<char>) -> (end: Option<usize>)
    ensures
        end == match fold_match(lows_view(lows@), p as int, folded@) {
            Some(e) => Some(e as usize),
            None => None::<usize>,
        },
{
    let ghost ls = lows_view(lows@);
    if p > lows.len() {
        if folded.len() == 0 {
            return Some(p);
        }
        return None;
    }
    let mut j = p;
    let mut k: usize = 0;
    assert(folded@.skip(0) =~= folded@);
    loop
        invariant
            p <= j <= lows@.len(),
            k <= folded@.len(),
            ls == lows_view(lows@),
            ls.len() == lows@.len(),
            fold_match(ls, p as int, folded@) == fold_match(ls, j as int, folded@.skip(k as int)),
        decreases lows@.len() - j,
    {
        if k == folded.len() {
            assert(folded@.skip(k as int).len() == 0);
            return Some(j);
        }
        if j >= lows.len() {
            return None;
        }
        let l = &lows[j];
        let len = l.len();
        assert(ls[j as int] == l@);
        if folded.len() - k < len {
            return None;
        }
        if !same_chars(folded, k, l) {
            assert(folded@.skip(k as int).take(len as int) != l@) by {
                assert(folded@.skip(k as int).take(len as int) =~= folded@.subrange(k as int, k + len));
            }
            return None;
        }
        assert(folded@.skip(k as int).take(len as int) =~= folded@.subrange(k as int, k + len));
        assert(folded@.skip(k as int).skip(len as int) =~= folded@.skip(k + len));
        k = k + len;
        j = j + 1;
    }
}

/// The last match of `folded` that ends by character `last`: where it
/// starts and ends.
fn last_match(lows: &Vec<Vec<char>>, folded: &Vec<char>, last: usize) -> (found: Option<(usize, usize)>)
    ensures
        found == match last_fold_match(lows_view(lows@), folded@, last as int, last as int) {
            Some((p, e)) => Some((p as usize, e as usize)),
            None => None::<(usize, usize)>,
        },
{
    let ghost ls = lows_view(lows@);
    let total = lows.len();
    let mut p = last;
    loop
        invariant
            p <= last,
            ls == lows_view(lows@),
            ls.len() == total,
            total == lows@.len(),
            last_fold_match(ls, folded@, last as int, last as int) == last_fold_match(ls, folded@, last as int, p as int),
        decreases p,
    {
        proof {
            lemma_fold_match(ls, p as int, folded@);
        }
        match match_end(lows, p, folded) {
            Some(e) => {
                if e <= last {
                    return Some((p, e));
                }
            },
            None => {},
        }
        if p == 0 {
            assert(last_fold_match(ls, folded@, last as int, -1) is None);
            return None;
        }
        p = p - 1;
    }
}

/// The characters of `s`, each lowered on its own, one after another.
fn fold_query(s: &str) -> (folded: Vec<char>)
    ensures
        folded@ == lowered(s@).flatten(),
        folded@.len() >= s@.len(),
{
    let cs = str_chars(s);
    let mut folded: Vec<char> = Vec::new();
    let mut i: usize = 0;
    assert(lowered(s@).take(0) =~= Seq::<Seq<char>>::empty());
    while i < cs.len()
        invariant
            0 <= i <= cs@.len(),
            cs@ == s@,
            folded@ == lowered(s@).take(i as int).flatten(),
            folded@.len() >= i,
        decreases cs@.len() - i,
    {
        let l = lower_char(cs[i]);
        let ghost before = folded@;
        let mut t: usize = 0;
        while t < l.len()
            invariant
                0 <= t <= l@.len(),
                folded@ == before + l@.take(t as int),
            decreases l@.len() - t,
        {
            folded.push(l[t]);
            assert(before + l@.take(t + 1) =~= (before + l@.take(t as int)).push(l@[t as int]));
            t = t + 1;
        }
        assert(l@.take(l@.len() as int) =~= l@);
        proof {
            assert(lowered(s@).take(i + 1) =~= lowered(s@).take(i as int).push(l@));
            lowered(s@).take(i as int).lemma_flatten_push(l@);
        }
        i = i + 1;
    }
    assert(lowered(s@).take(cs@.len() as int) =~= lowered(s@));
    folded
}

/// Each character of `s` lowered on its own, and the byte offset of each
/// character, with the byte length of `s` at the end.
fn char_table(s: &str) -> (table: (Vec<Vec<char>>, Vec<usize>))
    ensures
        lows_view(table.0@) == lowered(s@),
        table.1@.len() == s@.len() + 1,
        forall|i: int| 0 <= i <= s@.len() ==> table.1@[i] == utf8_units(s@, i),
{
    let cs = str_chars(s);
    let total = bytes_len(s);
    let ghost h = s@;
    let mut lows: Vec<Vec<char>> = Vec::new();
    let mut offs: Vec<usize> = Vec::new();
    offs.push(0);
    proof {
        lemma_utf8_all(h);
        assert(h.take(0) =~= Seq::<char>::empty());
    }
    let mut i: usize = 0;
    while i < cs.len()
        invariant
            cs@ == h,
            0 <= i <= h.len(),
            lows@.len() == i,
            offs@.len() == i + 1,
            forall|k: int| 0 <= k < i ==> (#[trigger] lows@[k])@ == char_lowercase(h[k]),
            forall|k: int| 0 <= k <= i ==> #[trigger] offs@[k] == utf8_units(h, k),
            utf8_units(h, h.len() as int) == total,
        decreases h.len() - i,
    {
        let w = utf8_width(cs[i]);
        proof {
            lemma_utf8_step(h, i as int);
            lemma_utf8_mono(h, i + 1, h.len() as int);
        }
        let next = offs[i] + w;
        offs.push(next);
        lows.push(lower_char(cs[i]));
        i = i + 1;
    }
    assert(lows_view(lows@) =~= lowered(h));
    (lows, offs)
}

/// Where `query` is found ignoring case, from byte `from`.
pub open spec fn found_folded(h: Seq<char>, query: SearchQuery, from: int, forward: bool) -> Option<int> {
    let folded = lowered(query.text@).flatten();
    let n = encode_utf8(query.text@).len() as int;
    if forward {
        scan_folded_forward(h, folded, n, query.whole_word, char_index_from(h, from, 0))
    } else {
        scan_folded_backward(h, folded, n, query.whole_word, char_index_upto(h, from))
    }
}

/// Where `query` is found in `haystack` ignoring case, from byte `from`.
fn find_folded(haystack: &str, text: &Rope, query: &SearchQuery, from: usize, forward: bool) -> (found: Option<usize>)
    requires
        rope_bytes(*text) == encode_utf8(haystack@),
        valid_utf8(rope_bytes(*text)),
        from <= encode_utf8(haystack@).len(),
        query.text@.len() > 0,
    ensures
        found == match found_folded(haystack@, *query, from as int, forward) {
            Some(a) => Some(a as usize),
            None => None::<usize>,
        },
        found_folded(haystack@, *query, from as int, forward) matches Some(a) ==> accepted(
            encode_utf8(haystack@),
            a,
            encode_utf8(query.text@).len() as int,
            query.whole_word,
        ),
{
    let ghost h = haystack@;
    let (lows, offs) = char_table(haystack);
    let folded = fold_query(query.text.as_str());
    let qs = query.text.as_str();
    let nl = bytes_len(qs);
    let ghost ls = lowered(h);
    let ghost f = folded@;
    let ghost ww = query.whole_word;
    let ghost n = encode_utf8(query.text@).len() as int;
    assert(qs.spec_bytes() == encode_utf8(query.text@));
    let count = lows.len();
    let mut p: usize = 0;
    while p < count && offs[p] < from
        invariant
            p <= count,
            count == h.len(),
            offs@.len() == h.len() + 1,
            forall|i: int| 0 <= i <= h.len() ==> offs@[i] == utf8_units(h, i),
            char_index_from(h, from as int, 0) == char_index_from(h, from as int, p as int),
        decreases count - p,
    {
        p = p + 1;
    }
    if forward {
        let ghost start = p;
        loop
            invariant
                p <= count,
                count == h.len(),
                h == haystack@,
                forward,
                lows_view(lows@) == ls,
                ls == lowered(h),
                f == folded@,
                f.len() > 0,
                nl == n,
                n == encode_utf8(query.text@).len(),
                ww == query.whole_word,
                rope_bytes(*text) == encode_utf8(h),
                valid_utf8(rope_bytes(*text)),
                offs@.len() == h.len() + 1,
                forall|i: int| 0 <= i <= h.len() ==> offs@[i] == utf8_units(h, i),
                found_folded(h, *query, from as int, true) == scan_folded_forward(h, f, n, ww, start as int),
                scan_folded_forward(h, f, n, ww, p as int) == scan_folded_forward(h, f, n, ww, start as int),
            decreases count - p,
        {
            if p >= count {
                return None;
            }
            match match_end(&lows, p, &folded) {
                Some(e) => {
                    proof {
                        lemma_fold_match(ls, p as int, f);
                        lemma_utf8_mono(h, p as int, e as int);
                    }
                    let a = offs[p];
                    if offs[e] - a == nl && accepts(text, a, nl, query.whole_word) {
                        return Some(a);
                    }
                    p = e;
                },
                None => {
                    p = p + 1;
                },
            }
        }
    } else {
        let mut last = if offs[p] > from {
            p - 1
        } else {
            p
        };
        let ghost start = last;
        assert(found_folded(h, *query, from as int, false) == scan_folded_backward(h, f, n, ww, start as int));
        loop
            invariant
                last <= count,
                count == h.len(),
                h == haystack@,
                !forward,
                lows_view(lows@) == ls,
                ls == lowered(h),
                f == folded@,
                f.len() > 0,
                nl == n,
                n == encode_utf8(query.text@).len(),
                ww == query.whole_word,
                rope_bytes(*text) == encode_utf8(h),
                valid_utf8(rope_bytes(*text)),
                offs@.len() == h.len() + 1,
                forall|i: int| 0 <= i <= h.len() ==> offs@[i] == utf8_units(h, i),
                found_folded(h, *query, from as int, false) == scan_folded_backward(h, f, n, ww, start as int),
                scan_folded_backward(h, f, n, ww, last as int) == scan_folded_backward(h, f, n, ww, start as int),
            decreases last,
        {
            match last_match(&lows, &folded, last) {
                None => {
                    return None;
                },
                Some((q, e)) => {
                    proof {
                        lemma_last_fold_match(ls, f, last as int, last as int);
                        lemma_fold_match(ls, q as int, f);
                        lemma_utf8_mono(h, q as int, e as int);
                    }
                    let a = offs[q];
                    if offs[e] - a == nl && accepts(text, a, nl, query.whole_word) {
                        return Some(a);
                    }
                    if q == 0 {
                        return None;
                    }
                    last = q;
                },
            }
        }
    }
}

/// Where `query` is found in `haystack` from `from`, forward or backward.
pub fn find_in(haystack: &str, query: &SearchQuery, from: usize, forward: bool) -> (found: Option<ByteRange>)
    ensures
        found == match found_in(haystack@, *query, from as int, forward) {
            Some(a) => Some(
                ByteRange {
                    start: ByteOffset(a as usize),
                    end: ByteOffset((a + encode_utf8(query.text@).len()) as usize),
                },
            ),
            None => None::<ByteRange>,
        },
        found_in(haystack@, *query, from as int, forward) matches Some(a) ==> accepted(
            encode_utf8(haystack@),
            a,
            encode_utf8(query.text@).len() as int,
            query.whole_word,
        ),
{
    let hl = bytes_len(haystack);
    let origin = if from < hl {
        from
    } else {
        hl
    };
    if query.text.as_str().is_empty() {
        return None;
    }
    let qs = query.text.as_str();
    let nl = bytes_len(qs);
    let text = rope_from_str(haystack);
    proof {
        crate::rope::lemma_str_bytes_valid(haystack);
    }
    let ghost ww = query.whole_word;
    let ghost tb = haystack.spec_bytes();
    assert(nl > 0) by {
        crate::rope::lemma_encode_empty(query.text@);
    }
    assert(tb == encode_utf8(haystack@));
    assert(qs.spec_bytes() == encode_utf8(query.text@));
    if !query.case_sensitive {
        return match find_folded(haystack, &text, query, origin, forward) {
            Some(a) => Some(ByteRange { start: ByteOffset(a), end: ByteOffset(a + nl) }),
            None => None,
        };
    }
    let h = haystack.as_bytes();
    let n = qs.as_bytes();
    if forward {
        assert(found_in(haystack@, *query, from as int, forward) == scan_forward(h@, n@, tb, ww, origin as int));
        let mut start = origin;
        loop
            invariant
                nl == n@.len(),
                nl > 0,
                nl == encode_utf8(query.text@).len(),
                h@.len() == hl,
                h@ == tb,
                tb == rope_bytes(text),
                tb == encode_utf8(haystack@),
                ww == query.whole_word,
                valid_utf8(tb),
                found_in(haystack@, *query, from as int, forward) == scan_forward(h@, n@, tb, ww, origin as int),
                scan_forward(h@, n@, tb, ww, start as int) == scan_forward(h@, n@, tb, ww, origin as int),
            decreases h@.len() - start,
        {
            match find_first(h, n, start) {
                None => {
                    return None;
                },
                Some(a) => {
                    if accepts(&text, a, nl, query.whole_word) {
                        return Some(ByteRange { start: ByteOffset(a), end: ByteOffset(a + nl) });
                    }
                    proof {
                        lemma_first_occurrence(h@, n@, start as int);
                    }
                    start = a + nl;
                },
            }
        }
    } else {
        assert(found_in(haystack@, *query, from as int, forward) == scan_backward(h@, n@, tb, ww, origin as int));
        let mut limit = origin;
        loop
            invariant
                nl == n@.len(),
                nl > 0,
                nl == encode_utf8(query.text@).len(),
                h@.len() == hl,
                h@ == tb,
                tb == rope_bytes(text),
                tb == encode_utf8(haystack@),
                ww == query.whole_word,
                valid_utf8(tb),
                found_in(haystack@, *query, from as int, forward) == scan_backward(h@, n@, tb, ww, origin as int),
                scan_backward(h@, n@, tb, ww, limit as int) == scan_backward(h@, n@, tb, ww, origin as int),
            decreases limit,
        {
            match find_last(h, n, limit) {
                None => {
                    return None;
                },
                Some(a) => {
                    if accepts(&text, a, nl, query.whole_word) {
                        return Some(ByteRange { start: ByteOffset(a), end: ByteOffset(a + nl) });
                    }
                    if a == 0 {
                        return None;
                    }
                    proof {
                        lemma_last_occurrence(h@, n@, limit - nl);
                    }
                    limit = a;
                },
            }
        }
    }
}

pub proof fn lemma_scan_forward(hay: Seq<u8>, needle: Seq<u8>, text: Seq<u8>, whole_word: bool, start: int)
    ensures
        scan_forward(hay, needle, text, whole_word, start) matches Some(a) ==> start <= a && occurs_at(
            hay,
            needle,
            a,
        ) && accepted(text, a, needle.len() as int, whole_word),
    decreases hay.len() - start,
{
    if needle.len() > 0 {
        lemma_first_occurrence(hay, needle, start);
        match first_occurrence(hay, needle, start) {
            None => {},
            Some(a) => if !accepted(text, a, needle.len() as int, whole_word) {
                lemma_scan_forward(hay, needle, text, whole_word, a + needle.len());
            },
        }
    }
}

pub proof fn lemma_char_index_from(h: Seq<char>, from: int, p: int)
    requires
        0 <= p <= h.len(),
    ensures
        p <= char_index_from(h, from, p) <= h.len(),
        char_index_from(h, from, p) == h.len() || utf8_units(h, char_index_from(h, from, p)) >= from,
    decreases h.len() - p,
{
    if !(p >= h.len() || utf8_units(h, p) >= from) {
        lemma_char_index_from(h, from, p + 1);
    }
}

pub proof fn lemma_scan_folded_forward(h: Seq<char>, folded: Seq<char>, n: int, whole_word: bool, p: int)
    ensures
        scan_folded_forward(h, folded, n, whole_word, p) matches Some(a) ==> 0 <= p <= h.len() && utf8_units(h, p)
            <= a && accepted(encode_utf8(h), a, n, whole_word),
    decreases h.len() - p,
{
    if !(folded.len() == 0 || p < 0 || p >= h.len()) {
        lemma_fold_match(lowered(h), p, folded);
        match fold_match(lowered(h), p, folded) {
            Some(e) => if !counts_between(h, p, e, n, whole_word) {
                lemma_scan_folded_forward(h, folded, n, whole_word, e);
                lemma_utf8_mono(h, p, e);
            },
            None => {
                lemma_scan_folded_forward(h, folded, n, whole_word, p + 1);
                lemma_utf8_mono(h, p, p + 1);
            },
        }
    }
}

/// A forward match lies at or after the offset searched from (clamped to
/// the end), within the text, and counts.
pub proof fn lemma_found_forward(h: Seq<char>, query: SearchQuery, from: int)
    ensures
        found_in(h, query, from, true) matches Some(a) ==> {
            &&& (if from < encode_utf8(h).len() {
                from
            } else {
                encode_utf8(h).len() as int
            }) <= a
            &&& a + encode_utf8(query.text@).len() <= encode_utf8(h).len()
            &&& encode_utf8(query.text@).len() > 0
            &&& accepted(encode_utf8(h), a, encode_utf8(query.text@).len() as int, query.whole_word)
        },
{
    let text = encode_utf8(h);
    let f = if from < text.len() {
        from
    } else {
        text.len() as int
    };
    crate::rope::lemma_encode_empty(query.text@);
    if query.case_sensitive {
        lemma_scan_forward(text, encode_utf8(query.text@), text, query.whole_word, f);
    } else {
        let start = char_index_from(h, f, 0);
        lemma_char_index_from(h, f, 0);
        lemma_utf8_all(h);
        lemma_scan_folded_forward(
            h,
            lowered(query.text@).flatten(),
            encode_utf8(query.text@).len() as int,
            query.whole_word,
            start,
        );
    }
}

/// The whole of `text` is a match of `query`.
pub open spec fn is_search_match_spec(text: Seq<char>, query: SearchQuery) -> bool {
    found_in(text, query, 0, true) == Some(0int) && encode_utf8(query.text@).len() == encode_utf8(text).len()
}

/// Whether the whole of `text` is a match of `query`.
pub fn is_search_match(text: &str, query: &SearchQuery) -> (yes: bool)
    ensures
        yes == is_search_match_spec(text@, *query),
{
    match find_in(text, query, 0, true) {
        Some(found) => found.start.0 == 0 && found.end.0 == bytes_len(text),
        None => false,
    }
}

pub proof fn lemma_scan_backward(hay: Seq<u8>, needle: Seq<u8>, text: Seq<u8>, whole_word: bool, limit: int)
    ensures
        scan_backward(hay, needle, text, whole_word, limit) matches Some(a) ==> accepted(
            text,
            a,
            needle.len() as int,
            whole_word,
        ) && occurs_at(hay, needle, a),
    decreases limit,
{
    if needle.len() > 0 {
        lemma_last_occurrence(hay, needle, limit - needle.len());
        match last_occurrence(hay, needle, limit) {
            None => {},
            Some(a) => if !accepted(text, a, needle.len() as int, whole_word) && a > 0 {
                lemma_scan_backward(hay, needle, text, whole_word, a);
            },
        }
    }
}

pub proof fn lemma_scan_folded_backward(h: Seq<char>, folded: Seq<char>, n: int, whole_word: bool, last: int)
    ensures
        scan_folded_backward(h, folded, n, whole_word, last) matches Some(a) ==> accepted(
            encode_utf8(h),
            a,
            n,
            whole_word,
        ),
    decreases last,
{
    if !(folded.len() == 0 || last < 0) {
        match last_fold_match(lowered(h), folded, last, last) {
            None => {},
            Some((p, e)) => if !counts_between(h, p, e, n, whole_word) && p > 0 {
                lemma_last_fold_match(lowered(h), folded, last, last);
                lemma_fold_match(lowered(h), p, folded);
                lemma_scan_folded_backward(h, folded, n, whole_word, p);
            },
        }
    }
}

/// Every match that the search reports counts: it lies between character
/// boundaries of the text, within it, and, with `whole_word`, is a whole word.
pub proof fn lemma_found_counts(h: Seq<char>, query: SearchQuery, from: int, forward: bool)
    ensures
        found_in(h, query, from, forward) matches Some(a) ==> accepted(
            encode_utf8(h),
            a,
            encode_utf8(query.text@).len() as int,
            query.whole_word,
        ),
{
    let text = encode_utf8(h);
    let f = if from < text.len() {
        from
    } else {
        text.len() as int
    };
    let needle = encode_utf8(query.text@);
    let folded = lowered(query.text@).flatten();
    if query.case_sensitive {
        lemma_scan_forward(text, needle, text, query.whole_word, f);
        lemma_scan_backward(text, needle, text, query.whole_word, f);
    } else {
        lemma_scan_folded_forward(h, folded, needle.len() as int, query.whole_word, char_index_from(h, f, 0));
        lemma_scan_folded_backward(h, folded, needle.len() as int, query.whole_word, char_index_upto(h, f));
    }
}

/// A whole-word search reports only matches that are neither preceded nor
/// followed by a word character (a letter, a digit or `_`), forward and
/// backward, with or without case.
pub proof fn lemma_whole_word_match(h: Seq<char>, query: SearchQuery, from: int, forward: bool)
    requires
        query.whole_word,
    ensures
        found_in(h, query, from, forward) matches Some(a) ==> {
            let text = encode_utf8(h);
            let end = a + encode_utf8(query.text@).len();
            &&& !(char_before(text, a) matches Some(c) && (alphanumeric(c) || c == '_'))
            &&& !(char_at(text, end) matches Some(c) && (alphanumeric(c) || c == '_'))
        },
{
    lemma_found_counts(h, query, from, forward);
}

/// A match of `rest` from character `p` to `e` covers characters whose
/// lowered forms, one after another, are `rest`.
pub proof fn lemma_fold_match_spells(lows: Seq<Seq<char>>, p: int, rest: Seq<char>)
    requires
        0 <= p <= lows.len(),
    ensures
        fold_match(lows, p, rest) matches Some(e) ==> p <= e <= lows.len() && lows.subrange(p, e).flatten()
            == rest,
    decreases lows.len() - p,
{
    if rest.len() == 0 {
        assert(lows.subrange(p, p) =~= Seq::<Seq<char>>::empty());
    } else if p < lows.len() && lows[p].len() <= rest.len() && rest.take(lows[p].len() as int) == lows[p] {
        let len = lows[p].len() as int;
        lemma_fold_match_spells(lows, p + 1, rest.skip(len));
        lemma_fold_match(lows, p, rest);
        match fold_match(lows, p, rest) {
            Some(e) => {
                let sub = lows.subrange(p, e);
                assert(sub.first() == lows[p]);
                assert(sub.drop_first() =~= lows.subrange(p + 1, e));
                assert(rest =~= rest.take(len) + rest.skip(len));
            },
            None => {},
        }
    }
}

/// Ignoring case, the match found from character `p` on covers whole
/// characters whose lowered forms spell out `folded`.
proof fn lemma_scan_folded_forward_spells(h: Seq<char>, folded: Seq<char>, n: int, whole_word: bool, p: int)
    ensures
        scan_folded_forward(h, folded, n, whole_word, p) matches Some(a) ==> exists|q: int, e: int|
            #![trigger utf8_units(h, q), utf8_units(h, e)]
            0 <= q <= e <= h.len() && utf8_units(h, q) == a && utf8_units(h, e) == a + n && lowered(
                h.subrange(q, e),
            ).flatten() == folded,
    decreases h.len() - p,
{
    if !(folded.len() == 0 || p < 0 || p >= h.len()) {
        lemma_fold_match(lowered(h), p, folded);
        lemma_fold_match_spells(lowered(h), p, folded);
        match fold_match(lowered(h), p, folded) {
            Some(e) => if counts_between(h, p, e, n, whole_word) {
                assert(lowered(h.subrange(p, e)) =~= lowered(h).subrange(p, e));
                assert(utf8_units(h, p) == utf8_units(h, p) && utf8_units(h, e) == utf8_units(h, e));
            } else {
                lemma_scan_folded_forward_spells(h, folded, n, whole_word, e);
            },
            None => lemma_scan_folded_forward_spells(h, folded, n, whole_word, p + 1),
        }
    }
}

/// Ignoring case, the match found backward covers whole characters whose
/// lowered forms spell out `folded`.
proof fn lemma_scan_folded_backward_spells(h: Seq<char>, folded: Seq<char>, n: int, whole_word: bool, last: int)
    ensures
        scan_folded_backward(h, folded, n, whole_word, last) matches Some(a) ==> exists|q: int, e: int|
            #![trigger utf8_units(h, q), utf8_units(h, e)]
            0 <= q <= e <= h.len() && utf8_units(h, q) == a && utf8_units(h, e) == a + n && lowered(
                h.subrange(q, e),
            ).flatten() == folded,
    decreases last,
{
    if !(folded.len() == 0 || last < 0) {
        lemma_last_fold_match(lowered(h), folded, last, last);
        match last_fold_match(lowered(h), folded, last, last) {
            None => {},
            Some((p, e)) => {
                lemma_fold_match(lowered(h), p, folded);
                lemma_fold_match_spells(lowered(h), p, folded);
                if counts_between(h, p, e, n, whole_word) {
                    assert(lowered(h.subrange(p, e)) =~= lowered(h).subrange(p, e));
                    assert(utf8_units(h, p) == utf8_units(h, p) && utf8_units(h, e) == utf8_units(h, e));
                } else if p > 0 {
                    lemma_scan_folded_backward_spells(h, folded, n, whole_word, p);
                }
            },
        }
    }
}

/// A match that the search reports holds the query: with case, exactly the
/// query's bytes; ignoring case, whole characters of the text, as many bytes
/// as the query, that, each lowered on its own, spell out the query's
/// characters each lowered on its own.
pub proof fn lemma_found_holds_query(h: Seq<char>, query: SearchQuery, from: int, forward: bool)
    ensures
        found_in(h, query, from, forward) matches Some(a) ==> {
            let text = encode_utf8(h);
            let needle = encode_utf8(query.text@);
            if query.case_sensitive {
                a + needle.len() <= text.len() && text.subrange(a, a + needle.len()) == needle
            } else {
                exists|p: int, e: int|
                    #![trigger utf8_units(h, p), utf8_units(h, e)]
                    0 <= p <= e <= h.len() && utf8_units(h, p) == a && utf8_units(h, e) == a + needle.len()
                        && lowered(h.subrange(p, e)).flatten() == lowered(query.text@).flatten()
            }
        },
{
    let text = encode_utf8(h);
    let f = if from < text.len() {
        from
    } else {
        text.len() as int
    };
    let needle = encode_utf8(query.text@);
    let folded = lowered(query.text@).flatten();
    if query.case_sensitive {
        lemma_scan_forward(text, needle, text, query.whole_word, f);
        lemma_scan_backward(text, needle, text, query.whole_word, f);
    } else {
        lemma_scan_folded_forward_spells(h, folded, needle.len() as int, query.whole_word, char_index_from(h, f, 0));
        lemma_scan_folded_backward_spells(h, folded, needle.len() as int, query.whole_word, char_index_upto(h, f));
    }
}

proof fn lemma_scan_forward_whole(hay: Seq<u8>, needle: Seq<u8>, text: Seq<u8>, start: int, a: int)
    requires
        scan_forward(hay, needle, text, false, start) == Some(a),
        whole_word_at(text, a, a + needle.len()),
    ensures
        scan_forward(hay, needle, text, true, start) == Some(a),
    decreases hay.len() - start,
{
    lemma_first_occurrence(hay, needle, start);
    match first_occurrence(hay, needle, start) {
        None => {},
        Some(o) => if !accepted(text, o, needle.len() as int, false) {
            lemma_scan_forward_whole(hay, needle, text, o + needle.len(), a);
        },
    }
}

proof fn lemma_scan_backward_whole(hay: Seq<u8>, needle: Seq<u8>, text: Seq<u8>, limit: int, a: int)
    requires
        scan_backward(hay, needle, text, false, limit) == Some(a),
        whole_word_at(text, a, a + needle.len()),
    ensures
        scan_backward(hay, needle, text, true, limit) == Some(a),
    decreases limit,
{
    lemma_last_occurrence(hay, needle, limit - needle.len());
    match last_occurrence(hay, needle, limit) {
        None => {},
        Some(o) => if !accepted(text, o, needle.len() as int, false) && o > 0 {
            lemma_scan_backward_whole(hay, needle, text, o, a);
        },
    }
}

proof fn lemma_scan_folded_forward_whole(h: Seq<char>, folded: Seq<char>, n: int, p: int, a: int)
    requires
        scan_folded_forward(h, folded, n, false, p) == Some(a),
        whole_word_at(encode_utf8(h), a, a + n),
    ensures
        scan_folded_forward(h, folded, n, true, p) == Some(a),
    decreases h.len() - p,
{
    if !(folded.len() == 0 || p < 0 || p >= h.len()) {
        lemma_fold_match(lowered(h), p, folded);
        match fold_match(lowered(h), p, folded) {
            Some(e) => if !counts_between(h, p, e, n, false) {
                lemma_scan_folded_forward_whole(h, folded, n, e, a);
            },
            None => lemma_scan_folded_forward_whole(h, folded, n, p + 1, a),
        }
    }
}

proof fn lemma_scan_folded_backward_whole(h: Seq<char>, folded: Seq<char>, n: int, last: int, a: int)
    requires
        scan_folded_backward(h, folded, n, false, last) == Some(a),
        whole_word_at(encode_utf8(h), a, a + n),
    ensures
        scan_folded_backward(h, folded, n, true, last) == Some(a),
    decreases last,
{
    if !(folded.len() == 0 || last < 0) {
        lemma_last_fold_match(lowered(h), folded, last, last);
        match last_fold_match(lowered(h), folded, last, last) {
            None => {},
            Some((p, e)) => if !counts_between(h, p, e, n, false) && p > 0 {
                lemma_fold_match(lowered(h), p, folded);
                lemma_scan_folded_backward_whole(h, folded, n, p, a);
            },
        }
    }
}

/// Asking for whole words loses no match that is one: when the search
/// without it finds a match that is neither preceded nor followed by a word
/// character (a letter, a digit or `_`), the whole-word search finds that
/// same match.
pub proof fn lemma_whole_word_keeps_whole_matches(h: Seq<char>, query: SearchQuery, from: int, forward: bool, a: int)
    requires
        query.whole_word,
        found_in(h, SearchQuery { whole_word: false, ..query }, from, forward) == Some(a),
        !(char_before(encode_utf8(h), a) matches Some(c) && (alphanumeric(c) || c == '_')),
        !(char_at(encode_utf8(h), a + encode_utf8(query.text@).len()) matches Some(c) && (alphanumeric(c) || c
            == '_')),
    ensures
        found_in(h, query, from, forward) == Some(a),
{
    let text = encode_utf8(h);
    let f = if from < text.len() {
        from
    } else {
        text.len() as int
    };
    let needle = encode_utf8(query.text@);
    let folded = lowered(query.text@).flatten();
    let n = needle.len() as int;
    assert(whole_word_at(text, a, a + n));
    if query.case_sensitive {
        if forward {
            lemma_scan_forward_whole(text, needle, text, f, a);
        } else {
            lemma_scan_backward_whole(text, needle, text, f, a);
        }
    } else {
        if forward {
            lemma_scan_folded_forward_whole(h, folded, n, char_index_from(h, f, 0), a);
        } else {
            lemma_scan_folded_backward_whole(h, folded, n, char_index_upto(h, f), a);
        }
    }
}

} // verus!
