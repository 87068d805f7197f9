//! How a text is cut into rows for display: one row per line, each with
//! where it starts, where its visible text ends (before `\n` or `\r\n`) and
//! where the line ends, break included.

use vstd::prelude::*;
use vstd::string::StringSliceAdditionalSpecFns;

use crate::highlight::{HighlightKind, HighlightSpan};
use crate::rope::{byte_carriage_return, byte_newline};

verus! {

/// One row of a text on screen, as byte offsets into the text.
#[derive(Clone, Copy, Debug, PartialEq, Eq, Structural)]
pub struct VisualLine {
    pub start: usize,
    pub display_end: usize,
    pub full_end: usize,
}

/// Where the line starting at `p` ends: after its `\n`, or at the end.
pub open spec fn line_end_from(s: Seq<u8>, p: int) -> int
    decreases s.len() - p,
{
    if p < 0 || p >= s.len() {
        s.len() as int
    } else if s[p] == byte_newline() {
        p + 1
    } else {
        line_end_from(s, p + 1)
    }
}

pub proof fn lemma_line_end_from(s: Seq<u8>, p: int)
    requires
        0 <= p < s.len(),
    ensures
        p < line_end_from(s, p) <= s.len(),
        line_end_from(s, p) < s.len() ==> s[line_end_from(s, p) - 1] == byte_newline(),
        line_end_from(s, p) == s.len() && s.last() == byte_newline() ==> s[s.len() - 1] == byte_newline(),
    decreases s.len() - p,
{
    if s[p] != byte_newline() {
        if p + 1 < s.len() {
            lemma_line_end_from(s, p + 1);
        } else {
            assert(line_end_from(s, p + 1) == s.len());
        }
    }
}

/// The row of the line from `p` to `e`.
pub open spec fn row_of(s: Seq<u8>, p: int, e: int) -> VisualLine {
    let d0 = if e > p && s[e - 1] == byte_newline() {
        e - 1
    } else {
        e
    };
    let d = if d0 > p && s[d0 - 1] == byte_carriage_return() {
        d0 - 1
    } else {
        d0
    };
    VisualLine { start: p as usize, display_end: d as usize, full_end: e as usize }
}

/// The rows of the lines from `p` on.
pub open spec fn rows_from(s: Seq<u8>, p: int) -> Seq<VisualLine>
    decreases s.len() - p,
{
    if p < 0 || p >= s.len() {
        Seq::empty()
    } else {
        let e = line_end_from(s, p);
        proof {
            lemma_line_end_from(s, p);
        }
        seq![row_of(s, p, e)] + rows_from(s, e)
    }
}

/// The rows of a text: one empty row for an empty text, and an empty last
/// row after a final line break.
pub open spec fn spec_visual_lines(s: Seq<u8>) -> Seq<VisualLine> {
    if s.len() == 0 {
        seq![VisualLine { start: 0, display_end: 0, full_end: 0 }]
    } else if s.last() == byte_newline() {
        rows_from(s, 0) + seq![VisualLine { start: s.len() as usize, display_end: s.len() as usize, full_end: s.len() as usize }]
    } else {
        rows_from(s, 0)
    }
}

/// The rows of `content`.
pub fn visual_lines(content: &str) -> (lines: Vec<VisualLine>)
    ensures
        lines@ == spec_visual_lines(content.spec_bytes()),
{
    let bytes = content.as_bytes();
    let ghost s = bytes@;
    let len = bytes.len();
    if len == 0 {
        let mut lines: Vec<VisualLine> = Vec::new();
        lines.push(VisualLine { start: 0, display_end: 0, full_end: 0 });
        return lines;
    }
    let mut lines: Vec<VisualLine> = Vec::new();
    let mut start: usize = 0;
    while start < len
        invariant
            s == bytes@,
            len == s.len(),
            start <= len,
            lines@ + rows_from(s, start as int) == rows_from(s, 0),
        decreases len - start,
    {
        let mut end = start;
        while end < len && bytes[end] != 10u8
            invariant
                s == bytes@,
                len == s.len(),
                start <= end <= len,
                line_end_from(s, start as int) == line_end_from(s, end as int),
            decreases len - end,
        {
            end = end + 1;
        }
        let full_end = if end < len {
            end + 1
        } else {
            end
        };
        proof {
            lemma_line_end_from(s, start as int);
        }
        let d0 = if full_end > start && bytes[full_end - 1] == 10u8 {
            full_end - 1
        } else {
            full_end
        };
        let display_end = if d0 > start && bytes[d0 - 1] == 13u8 {
            d0 - 1
        } else {
            d0
        };
        let ghost before = lines@;
        lines.push(VisualLine { start, display_end, full_end });
        assert(lines@ + rows_from(s, full_end as int) =~= before + rows_from(s, start as int));
        start = full_end;
    }
    assert(lines@ =~= rows_from(s, 0));
    if bytes[len - 1] == 10u8 {
        lines.push(VisualLine { start: len, display_end: len, full_end: len });
    }
    lines
}

/// A stretch of a row drawn in one style: `len` bytes, in the color of a
/// highlight class or in the plain text color.
#[derive(Clone, Copy, Debug, PartialEq, Eq, Structural)]
pub struct StyledRun {
    pub len: usize,
    pub kind: Option<HighlightKind>,
}

/// Where the runs of a row have got to, and the runs so far, after one more
/// span: a span that touches the row's visible text adds a plain run up to
/// where it starts (if there is a gap) and a highlighted run over its part
/// of the row (if there is one).
pub open spec fn run_step(line: VisualLine, state: (int, Seq<StyledRun>), span: HighlightSpan) -> (
    int,
    Seq<StyledRun>,
) {
    let (run_start, runs) = state;
    if !(span.end > line.start && span.start < line.display_end) {
        state
    } else {
        let start = if span.start > run_start {
            span.start as int
        } else {
            run_start
        };
        let start = if start > line.start { start } else { line.start as int };
        let end = if span.end < line.display_end { span.end as int } else { line.display_end as int };
        let runs = if run_start < start {
            runs.push(StyledRun { len: (start - run_start) as usize, kind: None })
        } else {
            runs
        };
        if start < end {
            (end, runs.push(StyledRun { len: (end - start) as usize, kind: Some(span.kind) }))
        } else {
            (run_start, runs)
        }
    }
}

/// The state after all of `spans`, from the row's start.
pub open spec fn runs_through(line: VisualLine, spans: Seq<HighlightSpan>) -> (int, Seq<StyledRun>)
    decreases spans.len(),
{
    if spans.len() == 0 {
        (line.start as int, Seq::empty())
    } else {
        run_step(line, runs_through(line, spans.drop_last()), spans.last())
    }
}

/// The runs a row is drawn in: those the spans give, a plain run for the
/// rest of the row, and one plain run over the row when nothing else.
pub open spec fn spec_line_runs(line: VisualLine, spans: Seq<HighlightSpan>) -> Seq<StyledRun> {
    let (run_start, runs) = runs_through(line, spans);
    let runs = if run_start < line.display_end {
        runs.push(StyledRun { len: (line.display_end - run_start) as usize, kind: None })
    } else {
        runs
    };
    if runs.len() == 0 {
        seq![StyledRun { len: (line.display_end - line.start) as usize, kind: None }]
    } else {
        runs
    }
}

proof fn lemma_runs_through(line: VisualLine, spans: Seq<HighlightSpan>)
    requires
        line.start <= line.display_end,
    ensures
        line.start <= runs_through(line, spans).0,
        runs_through(line, spans).0 <= line.display_end,
    decreases spans.len(),
{
    if spans.len() > 0 {
        lemma_runs_through(line, spans.drop_last());
    }
}

/// The runs the row `line` is drawn in, given the highlighted spans.
pub fn line_runs(line: VisualLine, spans: &[HighlightSpan]) -> (runs: Vec<StyledRun>)
    requires
        line.start <= line.display_end,
    ensures
        runs@ == spec_line_runs(line, spans@),
{
    let mut runs: Vec<StyledRun> = Vec::new();
    let mut run_start = line.start;
    let mut i: usize = 0;
    assert(spans@.take(0) =~= Seq::<HighlightSpan>::empty());
    while i < spans.len()
        invariant
            line.start <= line.display_end,
            0 <= i <= spans@.len(),
            (run_start as int, runs@) == runs_through(line, spans@.take(i as int)),
        decreases spans@.len() - i,
    {
        let span = spans[i];
        assert(spans@.take(i + 1).drop_last() =~= spans@.take(i as int));
        proof {
            lemma_runs_through(line, spans@.take(i as int));
        }
        if span.end > line.start && span.start < line.display_end {
            let mut start = if span.start > run_start {
                span.start
            } else {
                run_start
            };
            if start < line.start {
                start = line.start;
            }
            let end = if span.end < line.display_end {
                span.end
            } else {
                line.display_end
            };
            if run_start < start {
                runs.push(StyledRun { len: start - run_start, kind: None });
            }
            if start < end {
                runs.push(StyledRun { len: end - start, kind: Some(span.kind) });
                run_start = end;
            }
        }
        i = i + 1;
    }
    assert(spans@.take(spans@.len() as int) =~= spans@);
    if run_start < line.display_end {
        runs.push(StyledRun { len: line.display_end - run_start, kind: None });
    }
    if runs.len() == 0 {
        runs.push(StyledRun { len: line.display_end - line.start, kind: None });
    }
    runs
}

/// How a selection shows on a row.
#[derive(Clone, Copy, Debug, PartialEq, Eq, Structural)]
pub enum RowSelection {
    /// The row shows no selection.
    Unselected,
    /// Bytes `start..end` of the row's visible text are selected (offsets
    /// from the row's start).
    Text { start: usize, end: usize },
    /// Only the row's line break is selected; it shows after the visible
    /// text, `at` bytes from the row's start.
    LineBreak { at: usize },
}

/// How the selection `sel_start..sel_end` shows on row `line`.
pub fn row_selection(line: VisualLine, sel_start: usize, sel_end: usize) -> (shown: RowSelection)
    requires
        line.start <= line.display_end <= line.full_end,
    ensures
        shown == ({
            let lo = if sel_start > line.start { sel_start } else { line.start };
            let hi = if sel_end < line.display_end { sel_end } else { line.display_end };
            if lo < hi {
                RowSelection::Text { start: (lo - line.start) as usize, end: (hi - line.start) as usize }
            } else if sel_start < line.full_end && sel_end > line.display_end {
                RowSelection::LineBreak { at: (line.display_end - line.start) as usize }
            } else {
                RowSelection::Unselected
            }
        }),
{
    let lo = if sel_start > line.start {
        sel_start
    } else {
        line.start
    };
    let hi = if sel_end < line.display_end {
        sel_end
    } else {
        line.display_end
    };
    if lo < hi {
        RowSelection::Text { start: lo - line.start, end: hi - line.start }
    } else if sel_start < line.full_end && sel_end > line.display_end {
        RowSelection::LineBreak { at: line.display_end - line.start }
    } else {
        RowSelection::Unselected
    }
}

/// Whether the caret at `cursor` sits on row `line` of a text of `len`
/// bytes: before the row's end, or at the end of the last row.
pub open spec fn on_row(line: VisualLine, cursor: int, len: int) -> bool {
    cursor < line.full_end || (line.full_end == len && cursor == line.full_end)
}

/// The caret's column on row `line`: its distance from the row's start, at
/// most the row's visible length.
pub open spec fn column_on(line: VisualLine, cursor: int) -> int {
    let from_start = if cursor > line.start { cursor - line.start } else { 0 };
    if from_start < line.display_end - line.start {
        from_start
    } else {
        line.display_end - line.start
    }
}

/// Where the caret shows among `lines`: on the first row it sits on, at its
/// column; else at the end of the last row; nowhere without rows.
pub fn caret_position(lines: &[VisualLine], cursor: usize, len: usize) -> (position: Option<(usize, usize)>)
    requires
        forall|i: int| 0 <= i < lines@.len() ==> (#[trigger] lines@[i]).start <= lines@[i].display_end,
    ensures
        match position {
            Some((row, column)) => {
                &&& row < lines@.len()
                &&& if on_row(lines@[row as int], cursor as int, len as int) {
                    &&& column == column_on(lines@[row as int], cursor as int)
                    &&& forall|j: int| 0 <= j < row ==> !on_row(#[trigger] lines@[j], cursor as int, len as int)
                } else {
                    &&& row == lines@.len() - 1
                    &&& column == lines@[row as int].display_end - lines@[row as int].start
                    &&& forall|j: int| 0 <= j < lines@.len() ==> !on_row(#[trigger] lines@[j], cursor as int, len as int)
                }
            },
            None => lines@.len() == 0,
        },
{
    let mut i: usize = 0;
    while i < lines.len()
        invariant
            0 <= i <= lines@.len(),
            forall|j: int| 0 <= j < lines@.len() ==> (#[trigger] lines@[j]).start <= lines@[j].display_end,
            forall|j: int| 0 <= j < i ==> !on_row(#[trigger] lines@[j], cursor as int, len as int),
        decreases lines@.len() - i,
    {
        let line = lines[i];
        if cursor < line.full_end || (line.full_end == len && cursor == line.full_end) {
            let from_start = if cursor > line.start {
                cursor - line.start
            } else {
                0
            };
            let visible = line.display_end - line.start;
            let column = if from_start < visible {
                from_start
            } else {
                visible
            };
            return Some((i, column));
        }
        i = i + 1;
    }
    if lines.len() == 0 {
        return None;
    }
    let last = lines[lines.len() - 1];
    Some((lines.len() - 1, last.display_end - last.start))
}

/// Whether byte `offset` belongs to row `index` of `count` rows: before the
/// row's end, or at the end of the last row.
pub open spec fn holds_offset(line: VisualLine, index: int, count: int, offset: int) -> bool {
    offset < line.full_end || (index == count - 1 && offset <= line.full_end)
}

/// The row holding byte `offset`, and the offset's column on it (at most
/// the row's visible length); none past the text.
pub fn row_for_offset(lines: &[VisualLine], offset: usize) -> (found: Option<(usize, usize)>)
    requires
        forall|i: int| 0 <= i < lines@.len() ==> (#[trigger] lines@[i]).start <= lines@[i].display_end,
    ensures
        match found {
            Some((row, column)) => {
                &&& row < lines@.len()
                &&& holds_offset(lines@[row as int], row as int, lines@.len() as int, offset as int)
                &&& forall|j: int|
                    0 <= j < row ==> !holds_offset(#[trigger] lines@[j], j, lines@.len() as int, offset as int)
                &&& column == column_on(lines@[row as int], offset as int)
            },
            None => forall|j: int|
                0 <= j < lines@.len() ==> !holds_offset(#[trigger] lines@[j], j, lines@.len() as int, offset as int),
        },
{
    let mut i: usize = 0;
    while i < lines.len()
        invariant
            0 <= i <= lines@.len(),
            forall|j: int| 0 <= j < lines@.len() ==> (#[trigger] lines@[j]).start <= lines@[j].display_end,
            forall|j: int|
                0 <= j < i ==> !holds_offset(#[trigger] lines@[j], j, lines@.len() as int, offset as int),
        decreases lines@.len() - i,
    {
        let line = lines[i];
        if offset < line.full_end || (i == lines.len() - 1 && offset <= line.full_end) {
            let from_start = if offset > line.start {
                offset - line.start
            } else {
                0
            };
            let visible = line.display_end - line.start;
            let column = if from_start < visible {
                from_start
            } else {
                visible
            };
            return Some((i, column));
        }
        i = i + 1;
    }
    None
}

/// The byte offset of column `column` on row `line`, the column held to the
/// row's visible length.
pub fn offset_in_row(line: VisualLine, column: usize) -> (offset: usize)
    requires
        line.start <= line.display_end,
    ensures
        offset == line.start + if column < line.display_end - line.start {
            column as int
        } else {
            line.display_end - line.start
        },
{
    let visible = line.display_end - line.start;
    if column < visible {
        line.start + column
    } else {
        line.display_end
    }
}

} // verus!
