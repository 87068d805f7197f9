//! Parsing, tags and highlighting with tree-sitter: the grammars the editor
//! knows, the syntax tree and in-file symbols of a document kept in step with
//! its revisions, and the highlighted spans of a text. What tree-sitter
//! computes is named here by the grammar's name, the query texts and the
//! source text it is computed from; everything done with its results is
//! verified.

use tree_sitter::{Language, Parser, Query, QueryCursor, StreamingIterator, Tree};
use tree_sitter_highlight::{HighlightConfiguration, Highlighter};
use vstd::prelude::*;
use vstd::string::StringSliceAdditionalSpecFns;
use vstd::utf8::*;

use crate::document::DocumentSnapshot;
use crate::highlight::{known_highlights, run, spans_from_events, HighlightEvent, HighlightSpan, HIGHLIGHT_NAMES};
use crate::rope::{is_boundary, lemma_boundary_is_char_boundary, lemma_str_bytes_valid, lemma_subrange_valid};
use crate::symbols::{built_from, tag_views, GraphView, SymbolGraph};
use crate::syntax::{from_preorder, listing, preorder, SyntaxNode, SyntaxTree};
use crate::tags::{tags_from_matches, tags_of, Capture};
use crate::text::{ByteOffset, ByteRange, Revision};

verus! {

#[verifier::external_type_specification]
#[verifier::external_body]
pub struct ExLanguage(Language);

#[verifier::external_type_specification]
#[verifier::external_body]
pub struct ExParser(Parser);

#[verifier::external_type_specification]
#[verifier::external_body]
pub struct ExTree(Tree);

#[verifier::external_type_specification]
#[verifier::external_body]
pub struct ExQuery(Query);

#[verifier::external_type_specification]
#[verifier::external_body]
pub struct ExHighlightConfiguration(HighlightConfiguration);

/// Whether a parser takes the grammar named `grammar`.
pub uninterp spec fn language_accepted(grammar: Seq<char>) -> bool;

/// Whether `query` compiles against the grammar named `grammar`.
pub uninterp spec fn query_accepted(grammar: Seq<char>, query: Seq<char>) -> bool;

/// The capture names of `query` compiled against `grammar`, by index.
pub uninterp spec fn capture_names_of(grammar: Seq<char>, query: Seq<char>) -> Seq<Seq<char>>;

/// The named nodes of the tree that a fresh parse of `source` by `grammar`
/// gives, in pre-order: kind, byte range and number of named children of
/// each.
pub uninterp spec fn tree_listing(grammar: Seq<char>, source: Seq<char>) -> Seq<(Seq<char>, usize, usize, usize)>;

/// The matches of `query` on the tree that a fresh parse of `source` by
/// `grammar` gives: for each capture, its index, its node's byte range, and
/// the byte range of the node's parent (its own at the root).
pub uninterp spec fn query_captures(grammar: Seq<char>, query: Seq<char>, source: Seq<char>) -> Seq<
    Seq<(u32, usize, usize, usize, usize)>,
>;

/// Whether the highlight, injection and locals queries compile against
/// `grammar`.
pub uninterp spec fn highlight_queries_accepted(
    grammar: Seq<char>,
    highlights: Seq<char>,
    injections: Seq<char>,
    locals: Seq<char>,
) -> bool;

/// The highlighter's events for `source` under these queries, with the
/// highlight classes of `HIGHLIGHT_NAMES`; none when highlighting fails.
pub uninterp spec fn highlight_events_of(
    grammar: Seq<char>,
    highlights: Seq<char>,
    injections: Seq<char>,
    locals: Seq<char>,
    source: Seq<char>,
) -> Option<Seq<HighlightEvent>>;

/// The Rust grammar (`tree_sitter_rust::LANGUAGE`).
#[verifier::external_body]
fn rust_language() -> Language {
    tree_sitter_rust::LANGUAGE.into()
}

/// The TOML grammar (`tree_sitter_toml_ng::LANGUAGE`).
#[verifier::external_body]
fn toml_language() -> Language {
    tree_sitter_toml_ng::LANGUAGE.into()
}

/// `tree_sitter_rust::HIGHLIGHTS_QUERY`.
#[verifier::external_body]
fn rust_highlights_query() -> &'static str {
    tree_sitter_rust::HIGHLIGHTS_QUERY
}

/// `tree_sitter_rust::INJECTIONS_QUERY`.
#[verifier::external_body]
fn rust_injections_query() -> &'static str {
    tree_sitter_rust::INJECTIONS_QUERY
}

/// `tree_sitter_rust::TAGS_QUERY`.
#[verifier::external_body]
fn rust_tags_query() -> &'static str {
    tree_sitter_rust::TAGS_QUERY
}

/// `tree_sitter_toml_ng::HIGHLIGHTS_QUERY`.
#[verifier::external_body]
fn toml_highlights_query() -> &'static str {
    tree_sitter_toml_ng::HIGHLIGHTS_QUERY
}

/// The tags query for TOML: keys and tables define names.
pub const TOML_TAGS_QUERY: &'static str = "
(pair (bare_key) @name) @definition.constant
(table (bare_key) @name) @definition.module
(table_array_element (bare_key) @name) @definition.module
";

/// A grammar, the name it goes by (each name stands for one grammar), and
/// the queries that come with it.
pub struct Grammar {
    language: Language,
    name: String,
    highlights: &'static str,
    injections: &'static str,
    locals: &'static str,
    tags: &'static str,
}

impl View for Grammar {
    type V = Seq<char>;

    closed spec fn view(&self) -> Seq<char> {
        self.name@
    }
}

impl Grammar {
    /// The queries that come with the grammar: highlights, injections,
    /// locals and tags.
    pub closed spec fn spec_queries(&self) -> (Seq<char>, Seq<char>, Seq<char>, Seq<char>) {
        (self.highlights@, self.injections@, self.locals@, self.tags@)
    }

    /// The Rust grammar, with its own highlight, injection and tags queries.
    pub fn rust() -> (grammar: Self)
        ensures
            grammar@ == "Rust"@,
            grammar.spec_queries().2 == ""@,
    {
        Grammar {
            language: rust_language(),
            name: "Rust".to_owned(),
            highlights: rust_highlights_query(),
            injections: rust_injections_query(),
            locals: "",
            tags: rust_tags_query(),
        }
    }

    /// The TOML grammar, with its own highlight query and the tags query
    /// `TOML_TAGS_QUERY`.
    pub fn toml() -> (grammar: Self)
        ensures
            grammar@ == "TOML"@,
            grammar.spec_queries().1 == ""@,
            grammar.spec_queries().2 == ""@,
            grammar.spec_queries().3 == TOML_TAGS_QUERY@,
    {
        Grammar {
            language: toml_language(),
            name: "TOML".to_owned(),
            highlights: toml_highlights_query(),
            injections: "",
            locals: "",
            tags: TOML_TAGS_QUERY,
        }
    }

    pub fn name(&self) -> (name: &str)
        ensures
            name@ == self@,
    {
        self.name.as_str()
    }

    /// The queries that come with the grammar: highlights, injections,
    /// locals and tags.
    pub fn queries(&self) -> (queries: (&'static str, &'static str, &'static str, &'static str))
        ensures
            (queries.0@, queries.1@, queries.2@, queries.3@) == self.spec_queries(),
    {
        (self.highlights, self.injections, self.locals, self.tags)
    }
}

/// A parser with a grammar set. Made only by `parser_for`, so the parser
/// inside has the language of the grammar it names.
pub struct GrammarParser {
    parser: Parser,
    grammar: String,
}

impl View for GrammarParser {
    type V = Seq<char>;

    closed spec fn view(&self) -> Seq<char> {
        self.grammar@
    }
}

/// `Parser::new` and `Parser::set_language`: a parser for the grammar, or why
/// the parser does not take it.
#[verifier::external_body]
fn parser_for(grammar: &Grammar) -> (parser: Result<GrammarParser, String>)
    ensures
        parser is Ok == language_accepted(grammar@),
        parser matches Ok(p) ==> p@ == grammar@,
{
    let mut parser = Parser::new();
    match parser.set_language(&grammar.language) {
        Ok(()) => Ok(GrammarParser { parser, grammar: grammar.name.clone() }),
        Err(error) => Err(format!("failed to set tree-sitter language: {error}")),
    }
}

/// `Parser::parse` with no previous tree: a fresh parse of `source`. The
/// parser has its grammar set and no timeout or cancellation flag, so a tree
/// is always returned.
#[verifier::external_body]
fn parse_fresh(parser: &mut GrammarParser, source: &str) -> (parsed: Option<ParsedTree>)
    ensures
        final(parser)@ == old(parser)@,
        parsed matches Some(t) && t@ == (old(parser)@, source@),
{
    let tree = parser.parser.parse(source, None)?;
    Some(ParsedTree { tree, grammar: parser.grammar.clone(), source: source.to_owned() })
}

/// A tree, and the grammar and text it was parsed from. Made only by
/// `parse_fresh`, so the tree is the grammar's parse of that text.
pub struct ParsedTree {
    tree: Tree,
    grammar: String,
    source: String,
}

impl View for ParsedTree {
    type V = (Seq<char>, Seq<char>);

    closed spec fn view(&self) -> (Seq<char>, Seq<char>) {
        (self.grammar@, self.source@)
    }
}

/// The named nodes of a parsed tree in pre-order (walking it with
/// `Node::named_child_count`, `Node::named_child`, `Node::kind`,
/// `Node::start_byte` and `Node::end_byte`). Each node is listed with as
/// many children as follow it, so the listing is that of one tree.
#[verifier::external_body]
fn tree_nodes(tree: &ParsedTree) -> (nodes: Vec<(String, usize, usize, usize)>)
    ensures
        listing(nodes@) == tree_listing(tree@.0, tree@.1),
        exists|n: SyntaxNode| preorder(n) == listing(nodes@),
{
    let mut nodes = Vec::new();
    let mut stack = vec![tree.tree.root_node()];
    while let Some(node) = stack.pop() {
        let count = node.named_child_count();
        nodes.push((node.kind().to_owned(), node.start_byte(), node.end_byte(), count));
        stack.extend((0..count).rev().filter_map(|i| node.named_child(i as u32)));
    }
    nodes
}

/// A tags query compiled against a grammar.
pub struct TagsQuery {
    query: Query,
    grammar: String,
    text: String,
}

impl View for TagsQuery {
    type V = (Seq<char>, Seq<char>);

    closed spec fn view(&self) -> (Seq<char>, Seq<char>) {
        (self.grammar@, self.text@)
    }
}

/// `Query::new`: the query compiled, or why it does not compile.
#[verifier::external_body]
fn compile_query(grammar: &Grammar, text: &str) -> (query: Result<Query, String>)
    ensures
        query is Ok == query_accepted(grammar@, text@),
{
    Query::new(&grammar.language, text).map_err(|error| format!("invalid tags query: {error}"))
}

/// `Query::capture_names`.
#[verifier::external_body]
fn capture_names(query: &TagsQuery) -> (names: Vec<String>)
    ensures
        names@.map_values(|n: String| n@) == capture_names_of(query@.0, query@.1),
{
    query.query.capture_names().iter().map(|name| name.to_string()).collect()
}

/// `QueryCursor::matches` over a tree of the query's grammar, each capture
/// given as its index, its node's range and its parent's range.
#[verifier::external_body]
fn run_query(query: &TagsQuery, tree: &ParsedTree) -> (found: Vec<Vec<(u32, usize, usize, usize, usize)>>)
    requires
        query@.0 == tree@.0,
    ensures
        found@.map_values(|m: Vec<(u32, usize, usize, usize, usize)>| m@) == query_captures(
            tree@.0,
            query@.1,
            tree@.1,
        ),
{
    let mut cursor = QueryCursor::new();
    let mut matches = cursor.matches(&query.query, tree.tree.root_node(), tree.source.as_bytes());
    let mut found = Vec::new();
    while let Some(m) = matches.next() {
        found.push(m.captures().iter().map(|c| {
            let scope = c.node.parent().unwrap_or(c.node);
            (c.index, c.node.start_byte(), c.node.end_byte(), scope.start_byte(), scope.end_byte())
        }).collect());
    }
    found
}

impl TagsQuery {
    /// Compiles `text` against `grammar`.
    pub fn new(grammar: &Grammar, text: &str) -> (query: Result<TagsQuery, String>)
        ensures
            query is Ok == query_accepted(grammar@, text@),
            query matches Ok(q) ==> q@ == (grammar@, text@),
    {
        match compile_query(grammar, text) {
            Ok(query) => Ok(TagsQuery { query, grammar: grammar.name.clone(), text: text.to_owned() }),
            Err(message) => Err(message),
        }
    }
}

/// The bytes `start..end` of `source`, when both ends are character
/// boundaries in order inside it; else none.
pub open spec fn piece_bytes(source: Seq<u8>, start: usize, end: usize) -> Seq<u8> {
    if start <= end <= source.len() && is_boundary(source, start as int) && is_boundary(source, end as int) {
        source.subrange(start as int, end as int)
    } else {
        Seq::empty()
    }
}

/// `c` is the capture `raw` of a match over `source`: the name its index
/// has (none past the names), the text of its node, its node's range and
/// its parent's range.
pub open spec fn capture_from(
    c: Capture,
    names: Seq<Seq<char>>,
    source: Seq<u8>,
    raw: (u32, usize, usize, usize, usize),
) -> bool {
    &&& c.name@ == if (raw.0 as int) < names.len() {
        names[raw.0 as int]
    } else {
        Seq::<char>::empty()
    }
    &&& encode_utf8(c.text@) == piece_bytes(source, raw.1, raw.2)
    &&& c.start == raw.1
    &&& c.end == raw.2
    &&& c.scope == (ByteRange { start: ByteOffset(raw.3), end: ByteOffset(raw.4) })
}

/// `m` holds the matches `raw` as captures.
pub open spec fn captures_from(
    m: Seq<Vec<Capture>>,
    names: Seq<Seq<char>>,
    source: Seq<u8>,
    raw: Seq<Seq<(u32, usize, usize, usize, usize)>>,
) -> bool {
    &&& m.len() == raw.len()
    &&& forall|i: int| 0 <= i < m.len() ==> (#[trigger] m[i])@.len() == raw[i].len()
    &&& forall|i: int, j: int|
        0 <= i < m.len() && 0 <= j < raw[i].len() ==> capture_from(#[trigger] m[i]@[j], names, source, raw[i][j])
}

/// The graph `g` is what the tags of a tags query's matches over `source`
/// make.
pub open spec fn symbols_from(g: GraphView, query: (Seq<char>, Seq<char>), source: Seq<char>) -> bool {
    exists|m: Seq<Vec<Capture>>|
        captures_from(
            m,
            capture_names_of(query.0, query.1),
            encode_utf8(source),
            query_captures(query.0, query.1, source),
        ) && built_from(g, tags_of(m))
}

/// The text of bytes `start..end` of `source`.
fn piece_of(source: &str, start: usize, end: usize) -> (text: String)
    ensures
        encode_utf8(text@) == piece_bytes(source.spec_bytes(), start, end),
{
    let bytes = source.as_bytes();
    let n = bytes.len();
    let starts = start == 0 || start == n || (start < n && !(0x80u8 <= bytes[start] && bytes[start] <= 0xbfu8));
    let ends = end == 0 || end == n || (end < n && !(0x80u8 <= bytes[end] && bytes[end] <= 0xbfu8));
    if start <= end && end <= n && starts && ends {
        let ghost all = source.spec_bytes();
        proof {
            lemma_str_bytes_valid(source);
            lemma_boundary_is_char_boundary(all, end as int);
            lemma_subrange_valid(all, 0, end as int);
            let head = all.subrange(0, end as int);
            assert(is_boundary(head, start as int)) by {
                if 0 < start < end {
                    assert(head[start as int] == all[start as int]);
                }
            }
            lemma_boundary_is_char_boundary(head, start as int);
        }
        let (head, _) = source.split_at(end);
        let (_, piece) = head.split_at(start);
        assert(piece.spec_bytes() =~= all.subrange(start as int, end as int));
        piece.to_owned()
    } else {
        assert(piece_bytes(source.spec_bytes(), start, end) =~= Seq::<u8>::empty());
        let empty = String::new();
        proof {
            crate::rope::lemma_encode_empty(empty@);
        }
        empty
    }
}

/// The captures of the matches `raw`, named by `names`, with their text
/// taken from `source`.
fn captures_of(
    names: &Vec<String>,
    raw: &Vec<Vec<(u32, usize, usize, usize, usize)>>,
    source: &str,
) -> (matches: Vec<Vec<Capture>>)
    ensures
        captures_from(
            matches@,
            names@.map_values(|n: String| n@),
            source.spec_bytes(),
            raw@.map_values(|m: Vec<(u32, usize, usize, usize, usize)>| m@),
        ),
{
    let ghost name_views = names@.map_values(|n: String| n@);
    let ghost raw_views = raw@.map_values(|m: Vec<(u32, usize, usize, usize, usize)>| m@);
    let ghost bytes = source.spec_bytes();
    let mut matches: Vec<Vec<Capture>> = Vec::new();
    let mut i: usize = 0;
    while i < raw.len()
        invariant
            0 <= i <= raw@.len(),
            name_views == names@.map_values(|n: String| n@),
            raw_views == raw@.map_values(|m: Vec<(u32, usize, usize, usize, usize)>| m@),
            bytes == source.spec_bytes(),
            captures_from(matches@, name_views, bytes, raw_views.take(i as int)),
        decreases raw@.len() - i,
    {
        let one = &raw[i];
        let mut captures: Vec<Capture> = Vec::new();
        let mut j: usize = 0;
        while j < one.len()
            invariant
                0 <= j <= one@.len(),
                one@ == raw_views[i as int],
                name_views == names@.map_values(|n: String| n@),
                bytes == source.spec_bytes(),
                captures@.len() == j,
                forall|k: int| 0 <= k < j ==> capture_from(#[trigger] captures@[k], name_views, bytes, one@[k]),
            decreases one@.len() - j,
        {
            let (index, start, end, scope_start, scope_end) = one[j];
            let name = if (index as usize) < names.len() {
                names[index as usize].clone()
            } else {
                String::new()
            };
            let text = piece_of(source, start, end);
            let capture = Capture {
                name,
                text,
                start,
                end,
                scope: ByteRange { start: ByteOffset(scope_start), end: ByteOffset(scope_end) },
            };
            captures.push(capture);
            j = j + 1;
        }
        let ghost before = matches@;
        matches.push(captures);
        proof {
            assert(raw_views.take(i + 1) =~= raw_views.take(i as int).push(raw_views[i as int]));
            assert forall|a: int| 0 <= a < matches@.len() implies (#[trigger] matches@[a])@.len()
                == raw_views.take(i + 1)[a].len() by {
                if a < i {
                    assert(matches@[a] == before[a]);
                }
            }
            assert forall|a: int, b: int|
                0 <= a < matches@.len() && 0 <= b < raw_views.take(i + 1)[a].len() implies capture_from(
                #[trigger] matches@[a]@[b],
                name_views,
                bytes,
                raw_views.take(i + 1)[a][b],
            ) by {
                if a < i {
                    assert(matches@[a] == before[a]);
                }
            }
        }
        i = i + 1;
    }
    assert(raw_views.take(raw@.len() as int) =~= raw_views);
    matches
}

/// The symbol graph that a tags query's matches over a tree make; none when
/// there are too many matches to number.
pub fn symbols_of(query: &TagsQuery, tree: &ParsedTree) -> (graph: Option<SymbolGraph>)
    requires
        query@.0 == tree@.0,
    ensures
        graph is Some <==> query_captures(tree@.0, query@.1, tree@.1).len() < u32::MAX,
        graph matches Some(g) ==> g.wf() && symbols_from(g@, query@, tree@.1),
{
    let names = capture_names(query);
    let raw = run_query(query, tree);
    if raw.len() >= 0xffff_ffff {
        return None;
    }
    let matches = captures_of(&names, &raw, tree.source.as_str());
    Some(crate::tags::extract_symbols(&matches))
}

/// A highlighter configuration for a grammar, its queries, and the
/// highlight classes of `HIGHLIGHT_NAMES`.
pub struct Highlighting {
    config: HighlightConfiguration,
    grammar: String,
    highlights: String,
    injections: String,
    locals: String,
}

impl View for Highlighting {
    type V = (Seq<char>, Seq<char>, Seq<char>, Seq<char>);

    closed spec fn view(&self) -> (Seq<char>, Seq<char>, Seq<char>, Seq<char>) {
        (self.grammar@, self.highlights@, self.injections@, self.locals@)
    }
}

/// `HighlightConfiguration::new`: the configuration, or why its queries do
/// not compile.
#[verifier::external_body]
fn new_highlight_configuration(
    grammar: &Grammar,
    highlights: &str,
    injections: &str,
    locals: &str,
) -> (config: Result<HighlightConfiguration, String>)
    ensures
        config is Ok == highlight_queries_accepted(grammar@, highlights@, injections@, locals@),
{
    HighlightConfiguration::new(grammar.language.clone(), grammar.name.as_str(), highlights, injections, locals)
        .map_err(|error| format!("invalid {} highlight queries: {error}", grammar.name))
}

/// `HighlightConfiguration::configure` with `HIGHLIGHT_NAMES`.
#[verifier::external_body]
fn configure_highlights(config: &mut HighlightConfiguration) {
    config.configure(&HIGHLIGHT_NAMES);
}

/// `Highlighter::highlight`, its events collected as plain values; none when
/// it fails. Each highlight that starts is an index into `HIGHLIGHT_NAMES`,
/// the names the configuration was given.
#[verifier::external_body]
fn run_highlighter(highlighting: &Highlighting, source: &str) -> (events: Option<Vec<HighlightEvent>>)
    ensures
        match events {
            Some(e) => highlight_events_of(
                highlighting@.0,
                highlighting@.1,
                highlighting@.2,
                highlighting@.3,
                source@,
            ) == Some(e@) && known_highlights(e@),
            None => highlight_events_of(
                highlighting@.0,
                highlighting@.1,
                highlighting@.2,
                highlighting@.3,
                source@,
            ) is None,
        },
{
    let mut highlighter = Highlighter::new();
    let found = highlighter.highlight(&highlighting.config, source.as_bytes(), None, None, |_| None).ok()?;
    let mut events = Vec::new();
    for event in found {
        events.push(match event.ok()? {
            tree_sitter_highlight::HighlightEvent::HighlightStart(h) => HighlightEvent::Start(h.0),
            tree_sitter_highlight::HighlightEvent::HighlightEnd => HighlightEvent::End,
            tree_sitter_highlight::HighlightEvent::Source { start, end } => HighlightEvent::Source { start, end },
        });
    }
    Some(events)
}

impl Highlighting {
    /// The highlighter for `grammar` with these queries.
    pub fn new(grammar: &Grammar, highlights: &str, injections: &str, locals: &str) -> (highlighting: Result<
        Highlighting,
        String,
    >)
        ensures
            highlighting is Ok == highlight_queries_accepted(grammar@, highlights@, injections@, locals@),
            highlighting matches Ok(h) ==> h@ == (grammar@, highlights@, injections@, locals@),
    {
        match new_highlight_configuration(grammar, highlights, injections, locals) {
            Ok(mut config) => {
                configure_highlights(&mut config);
                Ok(
                    Highlighting {
                        config,
                        grammar: grammar.name.clone(),
                        highlights: highlights.to_owned(),
                        injections: injections.to_owned(),
                        locals: locals.to_owned(),
                    },
                )
            },
            Err(message) => Err(message),
        }
    }

    /// The highlighted spans of `source`: the spans its highlighter events
    /// give; none when highlighting fails.
    pub fn highlight(&self, source: &str) -> (spans: Option<Vec<HighlightSpan>>)
        ensures
            match highlight_events_of(self@.0, self@.1, self@.2, self@.3, source@) {
                Some(events) => spans matches Some(s) && s@ == run(events).1,
                None => spans is None,
            },
    {
        match run_highlighter(self, source) {
            Some(events) => Some(spans_from_events(&events)),
            None => None,
        }
    }
}

/// What a syntax session holds: its grammar, its tags query, and the
/// revision, text, syntax tree and symbols of the last text it took in.
pub struct SessionView {
    pub grammar: Seq<char>,
    pub tags: Option<(Seq<char>, Seq<char>)>,
    pub revision: Option<u64>,
    pub source: Seq<char>,
    pub syntax: Option<SyntaxTree>,
    pub symbols: SymbolGraph,
}

/// A parser for one grammar that keeps a document's syntax tree and in-file
/// symbols in step with its revisions.
pub struct SyntaxSession {
    parser: GrammarParser,
    tags: Option<TagsQuery>,
    source: String,
    revision: Option<Revision>,
    syntax: Option<SyntaxTree>,
    symbols: SymbolGraph,
}

impl View for SyntaxSession {
    type V = SessionView;

    closed spec fn view(&self) -> SessionView {
        SessionView {
            grammar: self.parser@,
            tags: match self.tags {
                Some(q) => Some(q@),
                None => None,
            },
            revision: match self.revision {
                Some(r) => Some(r.0),
                None => None,
            },
            source: self.source@,
            syntax: self.syntax,
            symbols: self.symbols,
        }
    }
}

/// The symbols that go with `source`: those the tags query's matches make,
/// or none without a tags query.
pub open spec fn symbols_for(g: GraphView, tags: Option<(Seq<char>, Seq<char>)>, source: Seq<char>) -> bool {
    match tags {
        Some(q) => symbols_from(g, q, source),
        None => built_from(g, Seq::empty()),
    }
}

/// `v` has taken in `source` at revision `revision`: its tree lists the
/// nodes the grammar's parse of `source` has, and its symbols are those of
/// `source`.
pub open spec fn synced(v: SessionView, source: Seq<char>, revision: u64) -> bool {
    &&& v.revision == Some(revision)
    &&& v.source == source
    &&& v.syntax matches Some(t) && t.spec_revision() == Revision(revision) && preorder(t.spec_root())
        == tree_listing(v.grammar, source)
    &&& symbols_for(v.symbols@, v.tags, source)
}

/// Whether taking in `source` can give a symbol graph: the tags query's
/// matches, if there is a query, are few enough to number.
pub open spec fn symbols_fit(tags: Option<(Seq<char>, Seq<char>)>, source: Seq<char>) -> bool {
    tags matches Some(q) ==> query_captures(q.0, q.1, source).len() < u32::MAX
}

impl SyntaxSession {
    /// The session's own invariant: its query belongs to its grammar, its
    /// symbol graph is well formed, and once it has taken in a revision its
    /// tree and symbols are those of the text it took in.
    pub closed spec fn wf(&self) -> bool {
        &&& self.tags matches Some(q) ==> q@.0 == self.parser@
        &&& self.symbols.wf()
        &&& self@.revision matches Some(r) ==> synced(self@, self@.source, r)
        &&& self@.revision is None ==> self@.syntax is None
    }

    /// A session for `grammar` with the tags query `tags_query` (none when it
    /// is empty). It fails when the parser does not take the grammar or the
    /// query does not compile.
    pub fn new(grammar: &Grammar, tags_query: &str) -> (session: Result<SyntaxSession, String>)
        ensures
            session is Ok == (language_accepted(grammar@) && (tags_query@.len() == 0 || query_accepted(
                grammar@,
                tags_query@,
            ))),
            session matches Ok(s) ==> {
                &&& s.wf()
                &&& s@.grammar == grammar@
                &&& s@.tags == if tags_query@.len() == 0 {
                    None
                } else {
                    Some((grammar@, tags_query@))
                }
                &&& s@.revision is None
                &&& s@.syntax is None
                &&& built_from(s@.symbols@, Seq::empty())
            },
    {
        let parser = match parser_for(grammar) {
            Ok(parser) => parser,
            Err(message) => {
                return Err(message);
            },
        };
        let tags = if tags_query.unicode_len() == 0 {
            None
        } else {
            match TagsQuery::new(grammar, tags_query) {
                Ok(query) => Some(query),
                Err(message) => {
                    return Err(message);
                },
            }
        };
        let empty: Vec<crate::symbols::SymbolTag> = Vec::new();
        assert(tag_views(empty@) =~= Seq::empty());
        let symbols = SymbolGraph::from_tags(empty);
        Ok(SyntaxSession { parser, tags, source: String::new(), revision: None, syntax: None, symbols })
    }

    /// Takes in the snapshot's text, unless the session is already at its
    /// revision: parses it, and rebuilds the syntax tree and the symbols. It
    /// fails only when the tags query matches too often to number the
    /// matches, and then the session keeps what it had.
    pub fn sync(&mut self, snapshot: &DocumentSnapshot) -> (result: Result<(), String>)
        requires
            old(self).wf(),
            snapshot.wf(),
        ensures
            final(self).wf(),
            final(self)@.grammar == old(self)@.grammar,
            final(self)@.tags == old(self)@.tags,
            old(self)@.revision == Some(snapshot@.revision) ==> result is Ok && final(self)@ == old(self)@,
            old(self)@.revision != Some(snapshot@.revision) ==> (result is Ok <==> symbols_fit(
                old(self)@.tags,
                decode_utf8(snapshot@.bytes),
            )),
            old(self)@.revision != Some(snapshot@.revision) && result is Ok ==> final(self)@.source == decode_utf8(
                snapshot@.bytes,
            ),
            result is Ok ==> synced(final(self)@, final(self)@.source, snapshot@.revision),
            result is Err ==> final(self)@ == old(self)@,
    {
        let revision = snapshot.revision();
        if let Some(r) = self.revision {
            if r == revision {
                return Ok(());
            }
        }
        let source = snapshot.text();
        let parsed = match parse_fresh(&mut self.parser, source.as_str()) {
            Some(parsed) => parsed,
            None => {
                return Err("tree-sitter produced no tree".to_owned());
            },
        };
        let nodes = tree_nodes(&parsed);
        let root = match from_preorder(&nodes) {
            Some(root) => root,
            None => {
                return Err("tree-sitter produced nodes that do not form one tree".to_owned());
            },
        };
        let symbols = match &self.tags {
            Some(query) => match symbols_of(query, &parsed) {
                Some(graph) => graph,
                None => {
                    return Err("too many symbol matches".to_owned());
                },
            },
            None => {
                let empty: Vec<crate::symbols::SymbolTag> = Vec::new();
                assert(tag_views(empty@) =~= Seq::empty());
                SymbolGraph::from_tags(empty)
            },
        };
        self.syntax = Some(SyntaxTree::new(revision, root));
        self.symbols = symbols;
        self.source = source;
        self.revision = Some(revision);
        Ok(())
    }

    /// The syntax tree of the last text taken in.
    pub fn syntax(&self) -> (syntax: Option<&SyntaxTree>)
        ensures
            match syntax {
                Some(t) => self@.syntax == Some(*t),
                None => self@.syntax is None,
            },
    {
        match &self.syntax {
            Some(t) => Some(t),
            None => None,
        }
    }

    /// The in-file symbols of the last text taken in.
    pub fn symbols(&self) -> (symbols: &SymbolGraph)
        ensures
            *symbols == self@.symbols,
    {
        &self.symbols
    }
}

} // verus!
