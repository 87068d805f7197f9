//! Turning the captures of a language's tags query into symbol tags: which
//! capture names define or reference which kinds of symbols, and which
//! matches make a tag. Running the query is the caller's part.

use vstd::prelude::*;

use crate::lines::is_prefix;
use crate::strings::text_eq;
use crate::symbols::{tag_views, SymbolGraph, SymbolKind, SymbolRole, SymbolTag, TagView};
use crate::text::{ByteOffset, ByteRange};

verus! {

/// One capture of a query match: its capture name, the text and bytes it
/// covers, and the bytes of the node around it (its own, at the root).
pub struct Capture {
    pub name: String,
    pub text: String,
    pub start: usize,
    pub end: usize,
    pub scope: ByteRange,
}

/// The kind a `definition.*` capture name gives.
pub open spec fn kind_from_definition(c: Seq<char>) -> Option<SymbolKind> {
    if c == "definition.function"@ {
        Some(SymbolKind::Function)
    } else if c == "definition.method"@ {
        Some(SymbolKind::Method)
    } else if c == "definition.class"@ || c == "definition.type"@ || c == "definition.struct"@ || c
        == "definition.enum"@ {
        Some(SymbolKind::Type)
    } else if c == "definition.interface"@ {
        Some(SymbolKind::Interface)
    } else if c == "definition.module"@ || c == "definition.section"@ {
        Some(SymbolKind::Module)
    } else if c == "definition.macro"@ {
        Some(SymbolKind::Macro)
    } else if c == "definition.constant"@ {
        Some(SymbolKind::Constant)
    } else if c == "definition.field"@ {
        Some(SymbolKind::Field)
    } else if c == "definition.variable"@ {
        Some(SymbolKind::Variable)
    } else {
        None
    }
}

/// The kind a `reference.*` capture name gives.
pub open spec fn kind_from_reference(c: Seq<char>) -> Option<SymbolKind> {
    if c == "reference.call"@ {
        Some(SymbolKind::Function)
    } else if c == "reference.class"@ || c == "reference.implementation"@ {
        Some(SymbolKind::Type)
    } else {
        None
    }
}

pub fn symbol_kind_from_tag(capture: &str) -> (kind: Option<SymbolKind>)
    ensures
        kind == kind_from_definition(capture@),
{
    if text_eq(capture, "definition.function") {
        Some(SymbolKind::Function)
    } else if text_eq(capture, "definition.method") {
        Some(SymbolKind::Method)
    } else if text_eq(capture, "definition.class") || text_eq(capture, "definition.type") || text_eq(
        capture,
        "definition.struct",
    ) || text_eq(capture, "definition.enum") {
        Some(SymbolKind::Type)
    } else if text_eq(capture, "definition.interface") {
        Some(SymbolKind::Interface)
    } else if text_eq(capture, "definition.module") || text_eq(capture, "definition.section") {
        Some(SymbolKind::Module)
    } else if text_eq(capture, "definition.macro") {
        Some(SymbolKind::Macro)
    } else if text_eq(capture, "definition.constant") {
        Some(SymbolKind::Constant)
    } else if text_eq(capture, "definition.field") {
        Some(SymbolKind::Field)
    } else if text_eq(capture, "definition.variable") {
        Some(SymbolKind::Variable)
    } else {
        None
    }
}

pub fn symbol_kind_from_reference(capture: &str) -> (kind: Option<SymbolKind>)
    ensures
        kind == kind_from_reference(capture@),
{
    if text_eq(capture, "reference.call") {
        Some(SymbolKind::Function)
    } else if text_eq(capture, "reference.class") || text_eq(capture, "reference.implementation") {
        Some(SymbolKind::Type)
    } else {
        None
    }
}

/// Whether `s` starts with `p`.
pub fn starts_with(s: &str, p: &str) -> (yes: bool)
    ensures
        yes == is_prefix(p@, s@),
{
    let n = s.unicode_len();
    let m = p.unicode_len();
    if n < m {
        return false;
    }
    let mut i: usize = 0;
    while i < m
        invariant
            n == s@.len(),
            m == p@.len(),
            m <= n,
            0 <= i <= m,
            forall|k: int| 0 <= k < i ==> s@[k] == p@[k],
        decreases m - i,
    {
        if s.get_char(i) != p.get_char(i) {
            assert(s@.take(m as int)[i as int] != p@[i as int]);
            return false;
        }
        i = i + 1;
    }
    assert(s@.take(m as int) =~= p@);
    true
}

/// What the captures of one match have given so far.
pub struct MatchState {
    pub name: Option<Seq<char>>,
    pub name_range: Option<ByteRange>,
    pub definition: Option<SymbolKind>,
    pub reference: Option<SymbolKind>,
    pub range: Option<ByteRange>,
    pub scope: Option<ByteRange>,
}

pub open spec fn capture_range(c: Capture) -> ByteRange {
    ByteRange { start: ByteOffset(c.start), end: ByteOffset(c.end) }
}

/// The state once capture `c` is read: `name` gives the name and its
/// bytes; a `definition.*` or `reference.*` capture gives the kind, the
/// symbol's bytes and its scope; other captures give nothing.
pub open spec fn capture_step(state: MatchState, c: Capture) -> MatchState {
    if c.name@ == "name"@ {
        MatchState { name: Some(c.text@), name_range: Some(capture_range(c)), ..state }
    } else if is_prefix("definition."@, c.name@) {
        MatchState {
            definition: kind_from_definition(c.name@),
            range: Some(capture_range(c)),
            scope: Some(c.scope),
            ..state
        }
    } else if is_prefix("reference."@, c.name@) {
        MatchState {
            reference: kind_from_reference(c.name@),
            range: Some(capture_range(c)),
            scope: Some(c.scope),
            ..state
        }
    } else {
        state
    }
}

pub open spec fn match_state(captures: Seq<Capture>) -> MatchState
    decreases captures.len(),
{
    if captures.len() == 0 {
        MatchState { name: None, name_range: None, definition: None, reference: None, range: None, scope: None }
    } else {
        capture_step(match_state(captures.drop_last()), captures.last())
    }
}

/// The tag a match makes: with a name, its bytes, the symbol's bytes and a
/// scope, a definition when a definition kind was found, else a reference
/// when a reference kind was.
pub open spec fn match_tag(captures: Seq<Capture>) -> Option<TagView> {
    let s = match_state(captures);
    if s.name is Some && s.name_range is Some && s.range is Some && s.scope is Some {
        if s.definition is Some {
            Some(
                TagView {
                    name: s.name->0,
                    kind: s.definition->0,
                    role: SymbolRole::Definition,
                    name_range: s.name_range->0,
                    range: s.range->0,
                    scope: s.scope->0,
                },
            )
        } else if s.reference is Some {
            Some(
                TagView {
                    name: s.name->0,
                    kind: s.reference->0,
                    role: SymbolRole::Reference,
                    name_range: s.name_range->0,
                    range: s.range->0,
                    scope: s.scope->0,
                },
            )
        } else {
            None
        }
    } else {
        None
    }
}

/// The tags of all matches, in order.
pub open spec fn tags_of(matches: Seq<Vec<Capture>>) -> Seq<TagView>
    decreases matches.len(),
{
    if matches.len() == 0 {
        Seq::empty()
    } else {
        tags_of(matches.drop_last()) + match match_tag(matches.last()@) {
            Some(t) => seq![t],
            None => Seq::empty(),
        }
    }
}

proof fn lemma_tags_of_len(matches: Seq<Vec<Capture>>)
    ensures
        tags_of(matches).len() <= matches.len(),
    decreases matches.len(),
{
    if matches.len() > 0 {
        lemma_tags_of_len(matches.drop_last());
    }
}

/// The tag one match makes, if any.
pub fn tag_from_match(captures: &Vec<Capture>) -> (tag: Option<SymbolTag>)
    ensures
        match tag {
            Some(t) => match_tag(captures@) == Some(t@),
            None => match_tag(captures@) is None,
        },
{
    let mut name: Option<&str> = None;
    let mut name_range: Option<ByteRange> = None;
    let mut definition: Option<SymbolKind> = None;
    let mut reference: Option<SymbolKind> = None;
    let mut range: Option<ByteRange> = None;
    let mut scope: Option<ByteRange> = None;
    let mut i: usize = 0;
    assert(captures@.take(0) =~= Seq::<Capture>::empty());
    while i < captures.len()
        invariant
            0 <= i <= captures@.len(),
            ({
                let s = match_state(captures@.take(i as int));
                &&& s.name == match name {
                    Some(n) => Some(n@),
                    None => None::<Seq<char>>,
                }
                &&& s.name_range == name_range
                &&& s.definition == definition
                &&& s.reference == reference
                &&& s.range == range
                &&& s.scope == scope
            }),
        decreases captures@.len() - i,
    {
        let c = &captures[i];
        assert(captures@.take(i + 1).drop_last() =~= captures@.take(i as int));
        let here = ByteRange { start: ByteOffset(c.start), end: ByteOffset(c.end) };
        if text_eq(c.name.as_str(), "name") {
            name = Some(c.text.as_str());
            name_range = Some(here);
        } else if starts_with(c.name.as_str(), "definition.") {
            definition = symbol_kind_from_tag(c.name.as_str());
            range = Some(here);
            scope = Some(c.scope);
        } else if starts_with(c.name.as_str(), "reference.") {
            reference = symbol_kind_from_reference(c.name.as_str());
            range = Some(here);
            scope = Some(c.scope);
        }
        i = i + 1;
    }
    assert(captures@.take(captures@.len() as int) =~= captures@);
    match (name, name_range, range, scope) {
        (Some(name), Some(name_range), Some(range), Some(scope)) => match definition {
            Some(kind) => Some(SymbolTag::definition(name, kind, name_range, range, scope)),
            None => match reference {
                Some(kind) => Some(SymbolTag::reference(name, kind, name_range, range, scope)),
                None => None,
            },
        },
        _ => None,
    }
}

/// The tags of all matches, in order.
pub fn tags_from_matches(matches: &Vec<Vec<Capture>>) -> (tags: Vec<SymbolTag>)
    ensures
        tag_views(tags@) == tags_of(matches@),
{
    let mut tags: Vec<SymbolTag> = Vec::new();
    let mut i: usize = 0;
    assert(tag_views(tags@) =~= tags_of(matches@.take(0)));
    while i < matches.len()
        invariant
            0 <= i <= matches@.len(),
            tag_views(tags@) == tags_of(matches@.take(i as int)),
        decreases matches@.len() - i,
    {
        assert(matches@.take(i + 1).drop_last() =~= matches@.take(i as int));
        let ghost before = tags@;
        match tag_from_match(&matches[i]) {
            Some(tag) => {
                tags.push(tag);
                assert(tag_views(tags@) =~= tag_views(before) + seq![tags@.last()@]);
            },
            None => {},
        }
        assert(tag_views(tags@) =~= tags_of(matches@.take(i + 1)));
        i = i + 1;
    }
    assert(matches@.take(matches@.len() as int) =~= matches@);
    tags
}

/// The symbol graph of a file, from the matches of its tags query.
pub fn extract_symbols(matches: &Vec<Vec<Capture>>) -> (graph: SymbolGraph)
    requires
        matches@.len() < u32::MAX,
    ensures
        graph.wf(),
        crate::symbols::built_from(graph@, tags_of(matches@)),
{
    let tags = tags_from_matches(matches);
    proof {
        lemma_tags_of_len(matches@);
        assert(tag_views(tags@).len() == tags@.len());
    }
    SymbolGraph::from_tags(tags)
}

} // verus!
