//! Rewriting text line by line: indenting, outdenting, commenting and
//! uncommenting each line while keeping its line break.

use vstd::prelude::*;

use crate::chars::{is_whitespace, spec_is_whitespace};

verus! {

/// How each line's content is rewritten.
pub enum LineEdit {
    /// Put the unit in front.
    Indent(Seq<char>),
    /// Take one indentation level off: the unit, a tab, or up to the tab
    /// width of spaces.
    Outdent(Seq<char>, nat),
    /// Put the prefix and a space after the leading whitespace of a line that
    /// is not blank.
    Comment(Seq<char>),
    /// Take the prefix (and a space after it) off after the leading whitespace.
    Uncomment(Seq<char>),
}

/// The executable form of a `LineEdit`.
pub enum LineRewrite {
    Indent(Vec<char>),
    Outdent(Vec<char>, usize),
    Comment(Vec<char>),
    Uncomment(Vec<char>),
}

impl View for LineRewrite {
    type V = LineEdit;

    open spec fn view(&self) -> LineEdit {
        match self {
            LineRewrite::Indent(u) => LineEdit::Indent(u@),
            LineRewrite::Outdent(u, w) => LineEdit::Outdent(u@, *w as nat),
            LineRewrite::Comment(p) => LineEdit::Comment(p@),
            LineRewrite::Uncomment(p) => LineEdit::Uncomment(p@),
        }
    }
}

/// `p` starts `c`.
pub open spec fn is_prefix(p: Seq<char>, c: Seq<char>) -> bool {
    p.len() <= c.len() && c.take(p.len() as int) == p
}

/// The number of whitespace characters that start `c`.
pub open spec fn leading_ws(c: Seq<char>) -> nat
    decreases c.len(),
{
    if c.len() > 0 && spec_is_whitespace(c[0]) {
        1 + leading_ws(c.drop_first())
    } else {
        0
    }
}

/// The number of spaces that start `c`, at most `limit`.
pub open spec fn leading_spaces(c: Seq<char>, limit: nat) -> nat
    decreases c.len(),
{
    if limit > 0 && c.len() > 0 && c[0] == ' ' {
        1 + leading_spaces(c.drop_first(), (limit - 1) as nat)
    } else {
        0
    }
}

pub open spec fn strip_indent(c: Seq<char>, unit: Seq<char>, tab_width: nat) -> Seq<char> {
    if is_prefix(unit, c) {
        c.skip(unit.len() as int)
    } else if c.len() > 0 && c[0] == '\t' {
        c.skip(1)
    } else {
        c.skip(leading_spaces(c, tab_width) as int)
    }
}

pub open spec fn commented(c: Seq<char>, prefix: Seq<char>) -> Seq<char> {
    let k = leading_ws(c) as int;
    if k == c.len() {
        c
    } else {
        c.take(k) + prefix + seq![' '] + c.skip(k)
    }
}

pub open spec fn uncommented(c: Seq<char>, prefix: Seq<char>) -> Seq<char> {
    let k = leading_ws(c) as int;
    let rest = c.skip(k);
    let marker = prefix + seq![' '];
    if is_prefix(marker, rest) {
        c.take(k) + rest.skip(marker.len() as int)
    } else if is_prefix(prefix, rest) {
        c.take(k) + rest.skip(prefix.len() as int)
    } else {
        c
    }
}

/// A line's content rewritten.
pub open spec fn rewritten(edit: LineEdit, c: Seq<char>) -> Seq<char> {
    match edit {
        LineEdit::Indent(unit) => unit + c,
        LineEdit::Outdent(unit, tab_width) => strip_indent(c, unit, tab_width),
        LineEdit::Comment(prefix) => commented(c, prefix),
        LineEdit::Uncomment(prefix) => uncommented(c, prefix),
    }
}

/// The length of the first line of `t`, its `\n` included.
pub open spec fn line_len(t: Seq<char>) -> nat
    decreases t.len(),
{
    if t.len() == 0 {
        0
    } else if t[0] == '\n' {
        1
    } else {
        1 + line_len(t.drop_first())
    }
}

/// The content of a line: without a final `\r\n` or `\n`.
pub open spec fn content_of(line: Seq<char>) -> Seq<char> {
    if line.len() >= 2 && line[line.len() - 2] == '\r' && line.last() == '\n' {
        line.take(line.len() - 2)
    } else if line.len() >= 1 && line.last() == '\n' {
        line.drop_last()
    } else {
        line
    }
}

pub proof fn lemma_line_len(t: Seq<char>)
    ensures
        line_len(t) <= t.len(),
        t.len() > 0 ==> line_len(t) >= 1,
    decreases t.len(),
{
    if t.len() > 0 && t[0] != '\n' {
        lemma_line_len(t.drop_first());
    }
}

/// `t` with each line's content rewritten and its line break kept.
pub open spec fn rewrite_lines(edit: LineEdit, t: Seq<char>) -> Seq<char>
    decreases t.len(),
{
    if t.len() == 0 {
        Seq::empty()
    } else {
        proof {
            lemma_line_len(t);
        }
        let line = t.take(line_len(t) as int);
        let content = content_of(line);
        rewritten(edit, content) + line.skip(content.len() as int) + rewrite_lines(edit, t.skip(line_len(t) as int))
    }
}

/// The first line of `t` ends after `j`, the first `\n` from `i` (or the end).
proof fn lemma_line_len_scan(t: Seq<char>, i: int, j: int)
    requires
        0 <= i <= j <= t.len(),
        forall|k: int| i <= k < j ==> t[k] != '\n',
        j == t.len() || t[j] == '\n',
    ensures
        line_len(t.skip(i)) == if j < t.len() {
            j + 1 - i
        } else {
            j - i
        },
    decreases j - i,
{
    if i < j {
        lemma_line_len_scan(t, i + 1, j);
        assert(t.skip(i).drop_first() =~= t.skip(i + 1));
    }
}

/// Whether `p` starts `c` from index `at`.
pub fn starts_with_at(c: &Vec<char>, at: usize, p: &Vec<char>) -> (yes: bool)
    requires
        at <= c@.len(),
    ensures
        yes == is_prefix(p@, c@.skip(at as int)),
{
    let n = c.len();
    if n - at < p.len() {
        return false;
    }
    let mut i: usize = 0;
    while i < p.len()
        invariant
            n == c@.len(),
            at + p@.len() <= c@.len(),
            0 <= i <= p@.len(),
            forall|k: int| 0 <= k < i ==> c@[at + k] == p@[k],
        decreases p@.len() - i,
    {
        if c[at + i] != p[i] {
            assert(c@.skip(at as int).take(p@.len() as int)[i as int] != p@[i as int]);
            return false;
        }
        i = i + 1;
    }
    assert(c@.skip(at as int).take(p@.len() as int) =~= p@);
    true
}

/// The number of whitespace characters that start `c`.
pub fn leading_ws_count(c: &Vec<char>) -> (n: usize)
    ensures
        n == leading_ws(c@),
        n <= c@.len(),
{
    let mut i: usize = 0;
    assert(c@.skip(0) =~= c@);
    while i < c.len() && is_whitespace(c[i])
        invariant
            0 <= i <= c@.len(),
            leading_ws(c@) == i + leading_ws(c@.skip(i as int)),
        decreases c@.len() - i,
    {
        assert(c@.skip(i as int).drop_first() =~= c@.skip(i + 1));
        i = i + 1;
    }
    i
}

/// The characters of `c` from `from` to `to`.
pub fn slice_chars(c: &Vec<char>, from: usize, to: usize) -> (out: Vec<char>)
    requires
        from <= to <= c@.len(),
    ensures
        out@ == c@.subrange(from as int, to as int),
{
    let mut out: Vec<char> = Vec::new();
    let mut i = from;
    while i < to
        invariant
            from <= i <= to <= c@.len(),
            out@ == c@.subrange(from as int, i as int),
        decreases to - i,
    {
        out.push(c[i]);
        assert(c@.subrange(from as int, i + 1) =~= c@.subrange(from as int, i as int).push(c@[i as int]));
        i = i + 1;
    }
    out
}

/// Appends the characters of `c` from `from` to `to` to `out`.
pub fn extend_chars(out: &mut Vec<char>, c: &Vec<char>, from: usize, to: usize)
    requires
        from <= to <= c@.len(),
    ensures
        final(out)@ == old(out)@ + c@.subrange(from as int, to as int),
{
    let ghost start = out@;
    let mut i = from;
    while i < to
        invariant
            from <= i <= to <= c@.len(),
            out@ == start + c@.subrange(from as int, i as int),
        decreases to - i,
    {
        out.push(c[i]);
        assert(c@.subrange(from as int, i + 1) =~= c@.subrange(from as int, i as int).push(c@[i as int]));
        i = i + 1;
    }
}

fn rewrite_content(edit: &LineRewrite, c: &Vec<char>) -> (out: Vec<char>)
    ensures
        out@ == rewritten(edit@, c@),
{
    let len = c.len();
    match edit {
        LineRewrite::Indent(unit) => {
            let mut out: Vec<char> = Vec::new();
            extend_chars(&mut out, unit, 0, unit.len());
            extend_chars(&mut out, c, 0, len);
            assert(out@ =~= unit@ + c@);
            out
        },
        LineRewrite::Outdent(unit, tab_width) => {
            let from = if starts_with_at(c, 0, unit) {
                unit.len()
            } else if len > 0 && c[0] == '\t' {
                1
            } else {
                let mut k: usize = 0;
                assert(c@.skip(0) =~= c@);
                while k < len && k < *tab_width && c[k] == ' '
                    invariant
                        0 <= k <= len == c@.len(),
                        k <= *tab_width,
                        leading_spaces(c@, *tab_width as nat) == k + leading_spaces(
                            c@.skip(k as int),
                            (*tab_width - k) as nat,
                        ),
                    decreases len - k,
                {
                    assert(c@.skip(k as int).drop_first() =~= c@.skip(k + 1));
                    k = k + 1;
                }
                k
            };
            assert(c@.skip(0) =~= c@);
            let out = slice_chars(c, from, len);
            assert(out@ =~= strip_indent(c@, unit@, *tab_width as nat));
            out
        },
        LineRewrite::Comment(prefix) => {
            let k = leading_ws_count(c);
            if k == len {
                let out = slice_chars(c, 0, len);
                assert(out@ =~= c@);
                out
            } else {
                let mut out = slice_chars(c, 0, k);
                extend_chars(&mut out, prefix, 0, prefix.len());
                out.push(' ');
                extend_chars(&mut out, c, k, len);
                assert(out@ =~= commented(c@, prefix@));
                out
            }
        },
        LineRewrite::Uncomment(prefix) => {
            let k = leading_ws_count(c);
            let mut marker = slice_chars(prefix, 0, prefix.len());
            marker.push(' ');
            assert(marker@ =~= prefix@ + seq![' ']);
            let skip = if starts_with_at(c, k, &marker) {
                assert(c@.skip(k as int).skip(marker@.len() as int) =~= c@.skip(k + marker@.len()));
                marker.len()
            } else if starts_with_at(c, k, prefix) {
                assert(c@.skip(k as int).skip(prefix@.len() as int) =~= c@.skip(k + prefix@.len()));
                prefix.len()
            } else {
                let out = slice_chars(c, 0, len);
                assert(out@ =~= c@);
                return out;
            };
            let mut out = slice_chars(c, 0, k);
            extend_chars(&mut out, c, k + skip, len);
            assert(out@ =~= uncommented(c@, prefix@));
            out
        },
    }
}

/// Rewrites each line of `text`, keeping the line breaks.
pub fn rewrite_text(edit: &LineRewrite, text: &Vec<char>) -> (out: Vec<char>)
    ensures
        out@ == rewrite_lines(edit@, text@),
{
    let len = text.len();
    let mut out: Vec<char> = Vec::new();
    let mut i: usize = 0;
    assert(text@.skip(0) =~= text@);
    while i < len
        invariant
            len == text@.len(),
            0 <= i <= len,
            out@ + rewrite_lines(edit@, text@.skip(i as int)) == rewrite_lines(edit@, text@),
        decreases len - i,
    {
        let mut j = i;
        while j < len && text[j] != '\n'
            invariant
                i <= j <= len == text@.len(),
                forall|k: int| i <= k < j ==> text@[k] != '\n',
            decreases len - j,
        {
            j = j + 1;
        }
        proof {
            lemma_line_len_scan(text@, i as int, j as int);
        }
        let end = if j < len {
            j + 1
        } else {
            j
        };
        let content_end = if end - i >= 2 && text[end - 2] == '\r' && text[end - 1] == '\n' {
            end - 2
        } else if end - i >= 1 && text[end - 1] == '\n' {
            end - 1
        } else {
            end
        };
        let ghost t = text@.skip(i as int);
        let ghost line = t.take(line_len(t) as int);
        proof {
            assert(line =~= text@.subrange(i as int, end as int));
            assert(content_of(line) =~= text@.subrange(i as int, content_end as int));
            assert(line.skip(content_of(line).len() as int) =~= text@.subrange(content_end as int, end as int));
            assert(t.skip(line_len(t) as int) =~= text@.skip(end as int));
        }
        let content = slice_chars(text, i, content_end);
        let rewritten_line = rewrite_content(edit, &content);
        let ghost before = out@;
        extend_chars(&mut out, &rewritten_line, 0, rewritten_line.len());
        extend_chars(&mut out, text, content_end, end);
        proof {
            assert(rewritten_line@.subrange(0, rewritten_line@.len() as int) =~= rewritten_line@);
            assert(rewrite_lines(edit@, t) == rewritten(edit@, content_of(line)) + line.skip(
                content_of(line).len() as int,
            ) + rewrite_lines(edit@, t.skip(line_len(t) as int)));
            assert(out@ + rewrite_lines(edit@, text@.skip(end as int)) =~= before + rewrite_lines(edit@, t));
        }
        i = end;
    }
    out
}

} // verus!
