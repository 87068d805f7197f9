//! Syntax highlighting: which names a highlighter is configured with, and
//! how its stream of events becomes a list of highlighted spans.

use vstd::prelude::*;

verus! {

/// The highlight classes the editor colors.
#[derive(Clone, Copy, Debug, PartialEq, Eq, Structural)]
pub enum HighlightKind {
    Attribute,
    Boolean,
    Comment,
    Constant,
    Constructor,
    Function,
    Keyword,
    Number,
    Operator,
    Property,
    Punctuation,
    String,
    Type,
    Variable,
}

/// The capture names a highlighter is configured with, in the order of
/// their indices.
pub const HIGHLIGHT_NAMES: [&'static str; 14] = [
    "attribute",
    "boolean",
    "comment",
    "constant",
    "constructor",
    "function",
    "keyword",
    "number",
    "operator",
    "property",
    "punctuation",
    "string",
    "type",
    "variable",
];

/// The class of the highlight name at `index` of `HIGHLIGHT_NAMES`.
pub open spec fn kind_at(index: int) -> HighlightKind {
    if index == 0 {
        HighlightKind::Attribute
    } else if index == 1 {
        HighlightKind::Boolean
    } else if index == 2 {
        HighlightKind::Comment
    } else if index == 3 {
        HighlightKind::Constant
    } else if index == 4 {
        HighlightKind::Constructor
    } else if index == 5 {
        HighlightKind::Function
    } else if index == 6 {
        HighlightKind::Keyword
    } else if index == 7 {
        HighlightKind::Number
    } else if index == 8 {
        HighlightKind::Operator
    } else if index == 9 {
        HighlightKind::Property
    } else if index == 10 {
        HighlightKind::Punctuation
    } else if index == 11 {
        HighlightKind::String
    } else if index == 12 {
        HighlightKind::Type
    } else {
        HighlightKind::Variable
    }
}

pub fn highlight_kind(index: usize) -> (kind: HighlightKind)
    requires
        index < 14,
    ensures
        kind == kind_at(index as int),
{
    match index {
        0 => HighlightKind::Attribute,
        1 => HighlightKind::Boolean,
        2 => HighlightKind::Comment,
        3 => HighlightKind::Constant,
        4 => HighlightKind::Constructor,
        5 => HighlightKind::Function,
        6 => HighlightKind::Keyword,
        7 => HighlightKind::Number,
        8 => HighlightKind::Operator,
        9 => HighlightKind::Property,
        10 => HighlightKind::Punctuation,
        11 => HighlightKind::String,
        12 => HighlightKind::Type,
        _ => HighlightKind::Variable,
    }
}

/// The color (as 0xRRGGBB) text of each class is drawn in.
pub open spec fn spec_highlight_color(kind: HighlightKind) -> u32 {
    match kind {
        HighlightKind::Attribute | HighlightKind::Property => 0x56b6c2,
        HighlightKind::Boolean | HighlightKind::Constant | HighlightKind::Number => 0xd19a66,
        HighlightKind::Comment => 0x7f848e,
        HighlightKind::Constructor | HighlightKind::Type => 0xe5c07b,
        HighlightKind::Function => 0x61afef,
        HighlightKind::Keyword => 0xc678dd,
        HighlightKind::Operator | HighlightKind::Punctuation | HighlightKind::Variable => 0xd7dae0,
        HighlightKind::String => 0x98c379,
    }
}

/// The color text of class `kind` is drawn in.
pub fn highlight_color(kind: HighlightKind) -> (color: u32)
    ensures
        color == spec_highlight_color(kind),
{
    match kind {
        HighlightKind::Attribute | HighlightKind::Property => 0x56b6c2,
        HighlightKind::Boolean | HighlightKind::Constant | HighlightKind::Number => 0xd19a66,
        HighlightKind::Comment => 0x7f848e,
        HighlightKind::Constructor | HighlightKind::Type => 0xe5c07b,
        HighlightKind::Function => 0x61afef,
        HighlightKind::Keyword => 0xc678dd,
        HighlightKind::Operator | HighlightKind::Punctuation | HighlightKind::Variable => 0xd7dae0,
        HighlightKind::String => 0x98c379,
    }
}

/// One event of a highlighter: a highlight (by name index) starts, the
/// innermost one ends, or a stretch of source bytes passes.
#[derive(Clone, Copy, Debug, PartialEq, Eq, Structural)]
pub enum HighlightEvent {
    Start(usize),
    End,
    Source { start: usize, end: usize },
}

/// Bytes `start..end` of the source take the color of `kind`.
#[derive(Clone, Copy, Debug, PartialEq, Eq, Structural)]
pub struct HighlightSpan {
    pub start: usize,
    pub end: usize,
    pub kind: HighlightKind,
}

/// Every highlight that starts names one of the configured classes.
pub open spec fn known_highlights(events: Seq<HighlightEvent>) -> bool {
    forall|i: int| 0 <= i < events.len() ==> (#[trigger] events[i] matches HighlightEvent::Start(h) ==> h < 14)
}

/// The open highlights and the spans so far, after one more event: a
/// stretch of source takes the innermost open highlight, and extends the
/// last span when it continues it with the same class; a stretch outside
/// any highlight is left uncolored.
pub open spec fn step(state: (Seq<HighlightKind>, Seq<HighlightSpan>), event: HighlightEvent) -> (
    Seq<HighlightKind>,
    Seq<HighlightSpan>,
) {
    let (open, spans) = state;
    match event {
        HighlightEvent::Start(h) => (open.push(kind_at(h as int)), spans),
        HighlightEvent::End => (if open.len() > 0 { open.drop_last() } else { open }, spans),
        HighlightEvent::Source { start, end } => if open.len() == 0 {
            (open, spans)
        } else if spans.len() > 0 && spans.last().end == start && spans.last().kind == open.last() {
            (open, spans.drop_last().push(HighlightSpan { end, ..spans.last() }))
        } else {
            (open, spans.push(HighlightSpan { start, end, kind: open.last() }))
        },
    }
}

/// The state after all of `events`.
pub open spec fn run(events: Seq<HighlightEvent>) -> (Seq<HighlightKind>, Seq<HighlightSpan>)
    decreases events.len(),
{
    if events.len() == 0 {
        (Seq::empty(), Seq::empty())
    } else {
        step(run(events.drop_last()), events.last())
    }
}

/// The highlighted spans of a stream of highlighter events.
pub fn spans_from_events(events: &Vec<HighlightEvent>) -> (spans: Vec<HighlightSpan>)
    requires
        known_highlights(events@),
    ensures
        spans@ == run(events@).1,
{
    let mut open: Vec<HighlightKind> = Vec::new();
    let mut spans: Vec<HighlightSpan> = Vec::new();
    let mut i: usize = 0;
    assert(events@.take(0) =~= Seq::<HighlightEvent>::empty());
    while i < events.len()
        invariant
            0 <= i <= events@.len(),
            known_highlights(events@),
            (open@, spans@) == run(events@.take(i as int)),
        decreases events@.len() - i,
    {
        let event = events[i];
        assert(events@.take(i + 1).drop_last() =~= events@.take(i as int));
        match event {
            HighlightEvent::Start(h) => {
                assert(events@[i as int] matches HighlightEvent::Start(h) ==> h < 14);
                open.push(highlight_kind(h));
            },
            HighlightEvent::End => {
                if open.len() > 0 {
                    open.pop();
                }
            },
            HighlightEvent::Source { start, end } => {
                if open.len() > 0 {
                    let kind = open[open.len() - 1];
                    let n = spans.len();
                    if n > 0 && spans[n - 1].end == start && spans[n - 1].kind == kind {
                        let last = spans[n - 1];
                        spans.set(n - 1, HighlightSpan { end, ..last });
                    } else {
                        spans.push(HighlightSpan { start, end, kind });
                    }
                }
            },
        }
        proof {
            assert(open@ =~= run(events@.take(i + 1)).0);
            assert(spans@ =~= run(events@.take(i + 1)).1);
        }
        i = i + 1;
    }
    assert(events@.take(events@.len() as int) =~= events@);
    spans
}

} // verus!
