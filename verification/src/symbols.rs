//! In-file definitions and references, built from tags that a language layer
//! extracts, with go-to-definition and find-references over them.

use vstd::prelude::*;

use crate::strings::{chars_le, lemma_chars_le_total, lemma_chars_le_trans, str_le, text_eq};
use crate::text::{ByteOffset, ByteRange};

verus! {

/// Stable identity for a definition inside one document's symbol graph: its
/// index in the graph's definitions.
#[derive(Clone, Copy, Debug, PartialEq, Eq, Structural, Hash)]
pub struct DefinitionId(pub u32);

impl DefinitionId {
    pub fn get(self) -> (value: u32)
        ensures
            value == self.0,
    {
        self.0
    }
}

/// Language-agnostic classification for a named symbol.
#[derive(Clone, Copy, Debug, PartialEq, Eq, Structural, Hash)]
pub enum SymbolKind {
    Function,
    Method,
    Type,
    Interface,
    Module,
    Macro,
    Constant,
    Field,
    Variable,
}

/// Whether a tag marks a binding site or a use.
#[derive(Clone, Copy, Debug, PartialEq, Eq, Structural, Hash)]
pub enum SymbolRole {
    Definition,
    Reference,
}

/// What a tag holds.
pub struct TagView {
    pub name: Seq<char>,
    pub kind: SymbolKind,
    pub role: SymbolRole,
    pub name_range: ByteRange,
    pub range: ByteRange,
    pub scope: ByteRange,
}

/// What a definition holds; `id` and `container` are definition indices.
pub struct DefinitionView {
    pub id: u32,
    pub name: Seq<char>,
    pub kind: SymbolKind,
    pub name_range: ByteRange,
    pub range: ByteRange,
    pub scope: ByteRange,
    pub container: Option<u32>,
}

/// What a reference holds; `definition` is a definition index.
pub struct ReferenceView {
    pub name: Seq<char>,
    pub kind: SymbolKind,
    pub name_range: ByteRange,
    pub range: ByteRange,
    pub definition: Option<u32>,
}

/// What a duplicate-definition group holds.
pub struct DuplicateView {
    pub name: Seq<char>,
    pub kind: SymbolKind,
    pub ids: Seq<u32>,
}

/// What a symbol graph holds.
pub struct GraphView {
    pub definitions: Seq<DefinitionView>,
    pub references: Seq<ReferenceView>,
    pub duplicates: Seq<DuplicateView>,
}

/// A raw definition or reference extracted by a language layer.
#[derive(Clone, Debug, PartialEq, Eq)]
pub struct SymbolTag {
    name: String,
    kind: SymbolKind,
    role: SymbolRole,
    name_range: ByteRange,
    range: ByteRange,
    scope: ByteRange,
}

impl View for SymbolTag {
    type V = TagView;

    closed spec fn view(&self) -> TagView {
        TagView {
            name: self.name@,
            kind: self.kind,
            role: self.role,
            name_range: self.name_range,
            range: self.range,
            scope: self.scope,
        }
    }
}

impl SymbolTag {
    pub fn definition(
        name: &str,
        kind: SymbolKind,
        name_range: ByteRange,
        range: ByteRange,
        scope: ByteRange,
    ) -> (tag: Self)
        ensures
            tag@ == (TagView {
                name: name@,
                kind,
                role: SymbolRole::Definition,
                name_range,
                range,
                scope,
            }),
    {
        SymbolTag {
            name: name.to_owned(),
            kind,
            role: SymbolRole::Definition,
            name_range,
            range,
            scope,
        }
    }

    pub fn reference(
        name: &str,
        kind: SymbolKind,
        name_range: ByteRange,
        range: ByteRange,
        scope: ByteRange,
    ) -> (tag: Self)
        ensures
            tag@ == (TagView {
                name: name@,
                kind,
                role: SymbolRole::Reference,
                name_range,
                range,
                scope,
            }),
    {
        SymbolTag {
            name: name.to_owned(),
            kind,
            role: SymbolRole::Reference,
            name_range,
            range,
            scope,
        }
    }

    pub fn name(&self) -> (name: &str)
        ensures
            name@ == self@.name,
    {
        self.name.as_str()
    }

    pub fn kind(&self) -> (kind: SymbolKind)
        ensures
            kind == self@.kind,
    {
        self.kind
    }

    pub fn role(&self) -> (role: SymbolRole)
        ensures
            role == self@.role,
    {
        self.role
    }

    pub fn name_range(&self) -> (range: ByteRange)
        ensures
            range == self@.name_range,
    {
        self.name_range
    }

    pub fn range(&self) -> (range: ByteRange)
        ensures
            range == self@.range,
    {
        self.range
    }

    pub fn scope(&self) -> (scope: ByteRange)
        ensures
            scope == self@.scope,
    {
        self.scope
    }

    fn duplicate(&self) -> (copy: Self)
        ensures
            copy@ == self@,
    {
        SymbolTag {
            name: self.name.clone(),
            kind: self.kind,
            role: self.role,
            name_range: self.name_range,
            range: self.range,
            scope: self.scope,
        }
    }
}

/// A named binding site in a document.
#[derive(Clone, Debug, PartialEq, Eq)]
pub struct Definition {
    id: DefinitionId,
    name: String,
    kind: SymbolKind,
    name_range: ByteRange,
    range: ByteRange,
    scope: ByteRange,
    container: Option<DefinitionId>,
}

impl View for Definition {
    type V = DefinitionView;

    closed spec fn view(&self) -> DefinitionView {
        DefinitionView {
            id: self.id.0,
            name: self.name@,
            kind: self.kind,
            name_range: self.name_range,
            range: self.range,
            scope: self.scope,
            container: match self.container {
                Some(id) => Some(id.0),
                None => None,
            },
        }
    }
}

impl Definition {
    pub fn id(&self) -> (id: DefinitionId)
        ensures
            id.0 == self@.id,
    {
        self.id
    }

    pub fn name(&self) -> (name: &str)
        ensures
            name@ == self@.name,
    {
        self.name.as_str()
    }

    pub fn kind(&self) -> (kind: SymbolKind)
        ensures
            kind == self@.kind,
    {
        self.kind
    }

    pub fn name_range(&self) -> (range: ByteRange)
        ensures
            range == self@.name_range,
    {
        self.name_range
    }

    pub fn range(&self) -> (range: ByteRange)
        ensures
            range == self@.range,
    {
        self.range
    }

    pub fn scope(&self) -> (scope: ByteRange)
        ensures
            scope == self@.scope,
    {
        self.scope
    }

    pub fn container(&self) -> (container: Option<DefinitionId>)
        ensures
            container matches Some(id) ==> self@.container == Some(id.0),
            container is None ==> self@.container is None,
    {
        self.container
    }
}

/// A use of a name, optionally bound to a definition in the same file.
#[derive(Clone, Debug, PartialEq, Eq)]
pub struct Reference {
    name: String,
    kind: SymbolKind,
    name_range: ByteRange,
    range: ByteRange,
    definition: Option<DefinitionId>,
}

impl View for Reference {
    type V = ReferenceView;

    closed spec fn view(&self) -> ReferenceView {
        ReferenceView {
            name: self.name@,
            kind: self.kind,
            name_range: self.name_range,
            range: self.range,
            definition: match self.definition {
                Some(id) => Some(id.0),
                None => None,
            },
        }
    }
}

impl Reference {
    pub fn name(&self) -> (name: &str)
        ensures
            name@ == self@.name,
    {
        self.name.as_str()
    }

    pub fn kind(&self) -> (kind: SymbolKind)
        ensures
            kind == self@.kind,
    {
        self.kind
    }

    pub fn name_range(&self) -> (range: ByteRange)
        ensures
            range == self@.name_range,
    {
        self.name_range
    }

    pub fn range(&self) -> (range: ByteRange)
        ensures
            range == self@.range,
    {
        self.range
    }

    pub fn definition(&self) -> (definition: Option<DefinitionId>)
        ensures
            definition matches Some(id) ==> self@.definition == Some(id.0),
            definition is None ==> self@.definition is None,
    {
        self.definition
    }
}

/// Multiple definitions of the same name in the same scope.
#[derive(Clone, Debug, PartialEq, Eq)]
pub struct DuplicateDefinitions {
    name: String,
    kind: SymbolKind,
    definition_ids: Vec<DefinitionId>,
}

pub open spec fn id_values(ids: Seq<DefinitionId>) -> Seq<u32> {
    ids.map_values(|id: DefinitionId| id.0)
}

impl View for DuplicateDefinitions {
    type V = DuplicateView;

    closed spec fn view(&self) -> DuplicateView {
        DuplicateView { name: self.name@, kind: self.kind, ids: id_values(self.definition_ids@) }
    }
}

impl DuplicateDefinitions {
    pub fn name(&self) -> (name: &str)
        ensures
            name@ == self@.name,
    {
        self.name.as_str()
    }

    pub fn kind(&self) -> (kind: SymbolKind)
        ensures
            kind == self@.kind,
    {
        self.kind
    }

    pub fn definition_ids(&self) -> (ids: &[DefinitionId])
        ensures
            id_values(ids@) == self@.ids,
    {
        self.definition_ids.as_slice()
    }
}

/// Result of asking for the definition under the caret.
#[derive(Debug, PartialEq, Eq)]
pub enum DefinitionLookup {
    Found(ByteRange),
    Unresolved(String),
    Missing,
}

/// Result of asking for in-file uses of the symbol under the caret.
#[derive(Debug, PartialEq, Eq)]
pub enum ReferenceLookup {
    Found(Vec<ByteRange>),
    Unresolved(String),
    Missing,
}

/// `a` sorts before or with `b` when ranges are ordered by start, then end.
pub open spec fn range_key_le(a: ByteRange, b: ByteRange) -> bool {
    a.lo() < b.lo() || (a.lo() == b.lo() && a.hi() <= b.hi())
}

/// `a` sorts strictly before `b` when ranges are ordered by start, then end.
pub open spec fn range_key_lt(a: ByteRange, b: ByteRange) -> bool {
    a.lo() < b.lo() || (a.lo() == b.lo() && a.hi() < b.hi())
}

/// The range that `next_after` moves to from `offset`: the one after the first
/// range holding the offset (wrapping around), else the first range starting
/// after the offset, else the first range.
pub open spec fn spec_next_after(ranges: Seq<ByteRange>, offset: ByteOffset) -> Option<ByteRange> {
    if ranges.len() == 0 {
        None
    } else if exists|i: int| 0 <= i < ranges.len() && ranges[i].spec_contains_offset(offset) {
        let i = choose|i: int|
            0 <= i < ranges.len() && ranges[i].spec_contains_offset(offset) && forall|j: int|
                0 <= j < i ==> !ranges[j].spec_contains_offset(offset);
        Some(ranges[(i + 1) % (ranges.len() as int)])
    } else if exists|i: int| 0 <= i < ranges.len() && ranges[i].lo() > offset.0 {
        let i = choose|i: int|
            0 <= i < ranges.len() && ranges[i].lo() > offset.0 && forall|j: int|
                0 <= j < i ==> ranges[j].lo() <= offset.0;
        Some(ranges[i])
    } else {
        Some(ranges[0])
    }
}

impl ReferenceLookup {
    pub fn next_after(&self, offset: ByteOffset) -> (next: Option<ByteRange>)
        ensures
            match self {
                ReferenceLookup::Found(ranges) => next == spec_next_after(ranges@, offset),
                _ => next is None,
            },
    {
        match self {
            ReferenceLookup::Found(ranges) => Self::next_in(ranges, offset),
            _ => None,
        }
    }

    fn next_in(ranges: &Vec<ByteRange>, offset: ByteOffset) -> (next: Option<ByteRange>)
        ensures
            next == spec_next_after(ranges@, offset),
    {
        if ranges.len() == 0 {
            return None;
        }
        let mut index: usize = 0;
        while index < ranges.len()
            invariant
                0 <= index <= ranges@.len(),
                forall|j: int| 0 <= j < index ==> !ranges@[j].spec_contains_offset(offset),
            decreases ranges@.len() - index,
        {
            if ranges[index].contains_offset(offset) {
                let next = ranges[(index + 1) % ranges.len()];
                proof {
                    let i = index as int;
                    assert(0 <= i < ranges@.len() && ranges@[i].spec_contains_offset(offset));
                    let c = choose|c: int|
                        0 <= c < ranges@.len() && ranges@[c].spec_contains_offset(offset)
                            && forall|j: int| 0 <= j < c ==> !ranges@[j].spec_contains_offset(offset);
                    assert(c == i);
                }
                return Some(next);
            }
            index = index + 1;
        }
        let mut later: usize = 0;
        while later < ranges.len()
            invariant
                0 <= later <= ranges@.len(),
                forall|j: int| 0 <= j < ranges@.len() ==> !ranges@[j].spec_contains_offset(offset),
                forall|j: int| 0 <= j < later ==> ranges@[j].lo() <= offset.0,
            decreases ranges@.len() - later,
        {
            if ranges[later].start.0 > offset.0 {
                proof {
                    let i = later as int;
                    assert(0 <= i < ranges@.len() && ranges@[i].lo() > offset.0);
                    let c = choose|c: int|
                        0 <= c < ranges@.len() && ranges@[c].lo() > offset.0 && forall|j: int|
                            0 <= j < c ==> ranges@[j].lo() <= offset.0;
                    assert(c == i);
                }
                return Some(ranges[later]);
            }
            later = later + 1;
        }
        Some(ranges[0])
    }
}

pub open spec fn spec_kind_priority(kind: SymbolKind) -> int {
    match kind {
        SymbolKind::Method => 2,
        SymbolKind::Function => 1,
        _ => 0,
    }
}

fn kind_priority(kind: SymbolKind) -> (priority: u8)
    ensures
        priority == spec_kind_priority(kind),
{
    match kind {
        SymbolKind::Method => 2,
        SymbolKind::Function => 1,
        _ => 0,
    }
}

/// Whether a reference of kind `reference` may bind to a definition of kind
/// `definition`: calls reach functions, methods and macros, type uses reach
/// types, interfaces and modules, other kinds only their own kind.
pub open spec fn spec_kinds_compatible(reference: SymbolKind, definition: SymbolKind) -> bool {
    match reference {
        SymbolKind::Function => definition == SymbolKind::Function || definition
            == SymbolKind::Method || definition == SymbolKind::Macro,
        SymbolKind::Type => definition == SymbolKind::Type || definition == SymbolKind::Interface
            || definition == SymbolKind::Module,
        _ => reference == definition,
    }
}

fn kinds_compatible(reference: SymbolKind, definition: SymbolKind) -> (compatible: bool)
    ensures
        compatible == spec_kinds_compatible(reference, definition),
{
    match reference {
        SymbolKind::Function => definition == SymbolKind::Function || definition
            == SymbolKind::Method || definition == SymbolKind::Macro,
        SymbolKind::Type => definition == SymbolKind::Type || definition == SymbolKind::Interface
            || definition == SymbolKind::Module,
        _ => reference == definition,
    }
}


pub open spec fn tag_views(tags: Seq<SymbolTag>) -> Seq<TagView> {
    tags.map_values(|t: SymbolTag| t@)
}

/// Adds definition tag `t` to the definitions kept so far: a tag whose name
/// range is already taken replaces the kept tag only when its kind has a
/// higher priority (methods over functions over the rest).
pub open spec fn merge_definition(kept: Seq<TagView>, t: TagView) -> Seq<TagView> {
    if exists|j: int| 0 <= j < kept.len() && kept[j].name_range == t.name_range {
        let j = choose|j: int| 0 <= j < kept.len() && kept[j].name_range == t.name_range;
        if spec_kind_priority(t.kind) > spec_kind_priority(kept[j].kind) {
            kept.update(j, t)
        } else {
            kept
        }
    } else {
        kept.push(t)
    }
}

/// The definition tags that survive, one per name range, in the order their
/// name ranges first appear.
pub open spec fn definition_tags(tags: Seq<TagView>) -> Seq<TagView>
    decreases tags.len(),
{
    if tags.len() == 0 {
        Seq::empty()
    } else {
        let kept = definition_tags(tags.drop_last());
        if tags.last().role == SymbolRole::Definition {
            merge_definition(kept, tags.last())
        } else {
            kept
        }
    }
}

/// The reference tags, in input order.
pub open spec fn reference_tags(tags: Seq<TagView>) -> Seq<TagView>
    decreases tags.len(),
{
    if tags.len() == 0 {
        Seq::empty()
    } else {
        let kept = reference_tags(tags.drop_last());
        if tags.last().role == SymbolRole::Reference {
            kept.push(tags.last())
        } else {
            kept
        }
    }
}

pub open spec fn distinct_name_ranges(tags: Seq<TagView>) -> bool {
    forall|a: int, b: int|
        0 <= a < tags.len() && 0 <= b < tags.len() && a != b ==> tags[a].name_range
            != tags[b].name_range
}

/// The tag a definition was made from.
pub open spec fn tag_of(d: DefinitionView) -> TagView {
    TagView {
        name: d.name,
        kind: d.kind,
        role: SymbolRole::Definition,
        name_range: d.name_range,
        range: d.range,
        scope: d.scope,
    }
}

pub open spec fn definition_ranges(defs: Seq<DefinitionView>) -> Seq<ByteRange> {
    defs.map_values(|d: DefinitionView| d.range)
}

/// Definition `j` strictly encloses definition `i`.
pub open spec fn encloses(ranges: Seq<ByteRange>, i: int, j: int) -> bool {
    &&& 0 <= j < ranges.len()
    &&& j != i
    &&& ranges[j].spec_contains_range(ranges[i])
    &&& ranges[j] != ranges[i]
}

/// `container` is the innermost definition enclosing definition `i`: the
/// shortest enclosing range, the first of several equally short ones.
pub open spec fn is_container_of(ranges: Seq<ByteRange>, i: int, container: Option<u32>) -> bool {
    match container {
        None => forall|j: int| !encloses(ranges, i, j),
        Some(c) => {
            &&& encloses(ranges, i, c as int)
            &&& forall|k: int|
                encloses(ranges, i, k) ==> ranges[c as int].spec_len() < ranges[k].spec_len() || (
                ranges[c as int].spec_len() == ranges[k].spec_len() && c <= k)
        },
    }
}

/// Two definitions of one name and kind in one scope.
pub open spec fn same_group(a: DefinitionView, b: DefinitionView) -> bool {
    a.name == b.name && a.kind == b.kind && a.scope == b.scope
}

/// The identities, in order, of the definitions before `upto` that share
/// definition `i`'s group.
pub open spec fn group_ids(defs: Seq<DefinitionView>, i: int, upto: int) -> Seq<u32>
    decreases upto,
{
    if upto <= 0 {
        Seq::empty()
    } else {
        let earlier = group_ids(defs, i, upto - 1);
        if same_group(defs[upto - 1], defs[i]) {
            earlier.push(defs[upto - 1].id)
        } else {
            earlier
        }
    }
}

/// Definition `i` is the first of its group.
pub open spec fn group_leader(defs: Seq<DefinitionView>, i: int) -> bool {
    forall|j: int| 0 <= j < i ==> !same_group(defs[j], defs[i])
}

pub open spec fn duplicate_of(defs: Seq<DefinitionView>, i: int) -> DuplicateView {
    DuplicateView { name: defs[i].name, kind: defs[i].kind, ids: group_ids(defs, i, defs.len() as int) }
}

/// Definition `i` starts a group of two or more definitions.
pub open spec fn starts_duplicate_group(defs: Seq<DefinitionView>, i: int) -> bool {
    0 <= i < defs.len() && group_leader(defs, i) && group_ids(defs, i, defs.len() as int).len() > 1
}

/// Definition `j` is one that reference tag `t` may bind to.
pub open spec fn resolves(defs: Seq<DefinitionView>, t: TagView, j: int) -> bool {
    0 <= j < defs.len() && defs[j].name == t.name && spec_kinds_compatible(t.kind, defs[j].kind)
}

/// A reference binds to a definition when exactly one definition may take it.
pub open spec fn resolution(defs: Seq<DefinitionView>, t: TagView) -> Option<u32> {
    if exists|j: int| resolves(defs, t, j) && forall|k: int| resolves(defs, t, k) ==> k == j {
        Some(
            (choose|j: int| resolves(defs, t, j) && forall|k: int| resolves(defs, t, k) ==> k == j) as u32,
        )
    } else {
        None
    }
}

pub open spec fn reference_of(defs: Seq<DefinitionView>, t: TagView) -> ReferenceView {
    ReferenceView {
        name: t.name,
        kind: t.kind,
        name_range: t.name_range,
        range: t.range,
        definition: resolution(defs, t),
    }
}

/// The definitions are the surviving definition tags, ordered by range and
/// numbered by position, each linked to its innermost enclosing definition.
pub open spec fn definitions_built(defs: Seq<DefinitionView>, kept: Seq<TagView>) -> bool {
    &&& defs.len() == kept.len()
    &&& forall|i: int| 0 <= i < defs.len() ==> kept.contains(#[trigger] tag_of(defs[i]))
    &&& forall|t: TagView| kept.contains(t) ==> exists|i: int| 0 <= i < defs.len() && #[trigger] tag_of(defs[i]) == t
    &&& forall|i: int, j: int|
        0 <= i < j < defs.len() ==> range_key_le(defs[i].range, defs[j].range)
    &&& forall|i: int| 0 <= i < defs.len() ==> #[trigger] defs[i].id == i
    &&& forall|i: int|
        0 <= i < defs.len() ==> is_container_of(definition_ranges(defs), i, #[trigger] defs[i].container)
}

/// Each reference tag, in order, bound by `resolution`.
pub open spec fn references_built(refs: Seq<ReferenceView>, defs: Seq<DefinitionView>, tags: Seq<TagView>) -> bool {
    &&& refs.len() == tags.len()
    &&& forall|k: int| 0 <= k < tags.len() ==> #[trigger] refs[k] == reference_of(defs, tags[k])
}

/// One group for each definition that starts a group of two or more, ordered
/// by name.
pub open spec fn duplicates_built(dups: Seq<DuplicateView>, defs: Seq<DefinitionView>) -> bool {
    &&& forall|k: int|
        0 <= k < dups.len() ==> exists|i: int| starts_duplicate_group(defs, i) && #[trigger] dups[k] == duplicate_of(defs, i)
    &&& forall|i: int|
        starts_duplicate_group(defs, i) ==> exists|k: int| 0 <= k < dups.len() && #[trigger] dups[k] == duplicate_of(defs, i)
    &&& forall|a: int, b: int| 0 <= a < b < dups.len() ==> dups[a] != dups[b]
    &&& forall|a: int, b: int| 0 <= a < b < dups.len() ==> chars_le(dups[a].name, dups[b].name)
}

/// The graph that `SymbolGraph::from_tags` builds from `tags`.
pub open spec fn built_from(g: GraphView, tags: Seq<TagView>) -> bool {
    &&& definitions_built(g.definitions, definition_tags(tags))
    &&& references_built(g.references, g.definitions, reference_tags(tags))
    &&& duplicates_built(g.duplicates, g.definitions)
}

fn range_key_le_exec(a: ByteRange, b: ByteRange) -> (le: bool)
    ensures
        le == range_key_le(a, b),
{
    a.start.0 < b.start.0 || (a.start.0 == b.start.0 && a.end.0 <= b.end.0)
}

/// Splits the tags into the surviving definition tags and the reference tags.
fn collect_tags(tags: &Vec<SymbolTag>) -> (split: (Vec<SymbolTag>, Vec<SymbolTag>))
    ensures
        tag_views(split.0@) == definition_tags(tag_views(tags@)),
        tag_views(split.1@) == reference_tags(tag_views(tags@)),
        distinct_name_ranges(tag_views(split.0@)),
        forall|i: int| 0 <= i < split.0@.len() ==> (#[trigger] split.0@[i])@.role == SymbolRole::Definition,
{
    let ghost all = tag_views(tags@);
    let mut kept: Vec<SymbolTag> = Vec::new();
    let mut references: Vec<SymbolTag> = Vec::new();
    let mut i: usize = 0;
    assert(all.take(0) =~= Seq::<TagView>::empty());
    while i < tags.len()
        invariant
            0 <= i <= tags@.len(),
            all == tag_views(tags@),
            tag_views(kept@) == definition_tags(all.take(i as int)),
            tag_views(references@) == reference_tags(all.take(i as int)),
            distinct_name_ranges(tag_views(kept@)),
            forall|a: int| 0 <= a < kept@.len() ==> (#[trigger] kept@[a])@.role == SymbolRole::Definition,
        decreases tags@.len() - i,
    {
        let tag = &tags[i];
        let ghost before = all.take(i as int);
        proof {
            assert(all.take(i + 1).drop_last() =~= before);
            assert(all.take(i + 1).last() == tag@);
        }
        if tag.role == SymbolRole::Definition {
            let mut j: usize = 0;
            while j < kept.len() && kept[j].name_range != tag.name_range
                invariant
                    0 <= j <= kept@.len(),
                    forall|a: int| 0 <= a < j ==> kept@[a]@.name_range != tag@.name_range,
                decreases kept@.len() - j,
            {
                j = j + 1;
            }
            let ghost old_views = tag_views(kept@);
            if j < kept.len() {
                proof {
                    assert(old_views[j as int].name_range == tag@.name_range);
                    let c = choose|c: int|
                        0 <= c < old_views.len() && old_views[c].name_range == tag@.name_range;
                    assert(c == j);
                }
                if kind_priority(tag.kind) > kind_priority(kept[j].kind) {
                    let copy = tag.duplicate();
                    kept.set(j, copy);
                    assert(tag_views(kept@) =~= old_views.update(j as int, tag@));
                }
            } else {
                proof {
                    assert(!(exists|c: int|
                        0 <= c < old_views.len() && old_views[c].name_range == tag@.name_range));
                }
                kept.push(tag.duplicate());
                assert(tag_views(kept@) =~= old_views.push(tag@));
            }
        } else {
            let ghost old_refs = tag_views(references@);
            references.push(tag.duplicate());
            assert(tag_views(references@) =~= old_refs.push(tag@));
        }
        i = i + 1;
    }
    assert(all.take(tags@.len() as int) =~= all);
    (kept, references)
}

pub open spec fn ranges_of(tags: Seq<SymbolTag>) -> Seq<ByteRange> {
    tags.map_values(|t: SymbolTag| t@.range)
}

pub open spec fn key_sorted(ranges: Seq<ByteRange>) -> bool {
    forall|a: int, b: int| 0 <= a < b < ranges.len() ==> range_key_le(ranges[a], ranges[b])
}

proof fn lemma_insert_keeps_key_sorted(s: Seq<ByteRange>, p: int, x: ByteRange)
    requires
        key_sorted(s),
        0 <= p <= s.len(),
        forall|a: int| 0 <= a < p ==> range_key_le(s[a], x),
        p < s.len() ==> !range_key_le(s[p], x),
    ensures
        key_sorted(s.insert(p, x)),
{
    s.insert_ensures(p, x);
    let t = s.insert(p, x);
    assert forall|a: int, b: int| 0 <= a < b < t.len() implies range_key_le(t[a], t[b]) by {
        if b < p {
        } else if b == p {
        } else if a < p {
            assert(range_key_le(s[p], s[b - 1]) || p == b - 1);
        } else if a == p {
            assert(range_key_le(s[p], s[b - 1]) || p == b - 1);
        } else {
            assert(range_key_le(s[a - 1], s[b - 1]));
        }
    }
}

/// The same tags ordered by range start, then range end.
fn sort_by_range(kept: &Vec<SymbolTag>) -> (sorted: Vec<SymbolTag>)
    requires
        forall|a: int| 0 <= a < kept@.len() ==> (#[trigger] kept@[a])@.role == SymbolRole::Definition,
    ensures
        forall|a: int| 0 <= a < sorted@.len() ==> (#[trigger] sorted@[a])@.role == SymbolRole::Definition,
        tag_views(sorted@).to_multiset() == tag_views(kept@).to_multiset(),
        sorted@.len() == kept@.len(),
        key_sorted(ranges_of(sorted@)),
{
    broadcast use vstd::seq_lib::to_multiset_build, vstd::seq_lib::to_multiset_insert;

    let mut sorted: Vec<SymbolTag> = Vec::new();
    let mut k: usize = 0;
    assert(tag_views(kept@).take(0) =~= Seq::<TagView>::empty());
    assert(tag_views(sorted@) =~= Seq::<TagView>::empty());
    while k < kept.len()
        invariant
            0 <= k <= kept@.len(),
            sorted@.len() == k,
            tag_views(sorted@).to_multiset() == tag_views(kept@).take(k as int).to_multiset(),
            key_sorted(ranges_of(sorted@)),
            forall|a: int| 0 <= a < kept@.len() ==> (#[trigger] kept@[a])@.role == SymbolRole::Definition,
            forall|a: int| 0 <= a < sorted@.len() ==> (#[trigger] sorted@[a])@.role == SymbolRole::Definition,
        decreases kept@.len() - k,
    {
        let item = kept[k].duplicate();
        let mut p: usize = 0;
        while p < sorted.len() && range_key_le_exec(sorted[p].range, item.range)
            invariant
                0 <= p <= sorted@.len(),
                forall|a: int| 0 <= a < p ==> range_key_le(ranges_of(sorted@)[a], item@.range),
            decreases sorted@.len() - p,
        {
            p = p + 1;
        }
        let ghost old_sorted = sorted@;
        proof {
            assert(tag_views(kept@).take(k + 1) =~= tag_views(kept@).take(k as int).push(kept@[k as int]@));
            lemma_insert_keeps_key_sorted(ranges_of(old_sorted), p as int, item@.range);
        }
        sorted.insert(p, item);
        proof {
            assert(tag_views(sorted@) =~= tag_views(old_sorted).insert(p as int, item@));
            assert(ranges_of(sorted@) =~= ranges_of(old_sorted).insert(p as int, item@.range));
            old_sorted.insert_ensures(p as int, item);
            vstd::seq_lib::to_multiset_insert(tag_views(old_sorted), p as int, item@);
            vstd::seq_lib::to_multiset_build(tag_views(kept@).take(k as int), kept@[k as int]@);
        }
        k = k + 1;
    }
    assert(tag_views(kept@).take(kept@.len() as int) =~= tag_views(kept@));
    sorted
}


pub open spec fn opt_id(id: Option<DefinitionId>) -> Option<u32> {
    match id {
        Some(id) => Some(id.0),
        None => None,
    }
}

/// The innermost definition strictly enclosing definition `i`.
fn innermost_container(sorted: &Vec<SymbolTag>, i: usize) -> (container: Option<DefinitionId>)
    requires
        sorted@.len() < u32::MAX,
        i < sorted@.len(),
    ensures
        is_container_of(ranges_of(sorted@), i as int, opt_id(container)),
{
    let ghost ranges = ranges_of(sorted@);
    let range = sorted[i].range;
    let mut best: Option<usize> = None;
    let mut best_len: usize = 0;
    let mut j: usize = 0;
    while j < sorted.len()
        invariant
            0 <= j <= sorted@.len(),
            sorted@.len() < u32::MAX,
            i < sorted@.len(),
            ranges == ranges_of(sorted@),
            range == ranges[i as int],
            best matches Some(c) ==> c < j && encloses(ranges, i as int, c as int) && best_len
                == ranges[c as int].spec_len() && forall|k: int|
                0 <= k < j && encloses(ranges, i as int, k) ==> ranges[c as int].spec_len()
                    < ranges[k].spec_len() || (ranges[c as int].spec_len() == ranges[k].spec_len()
                    && c <= k),
            best is None ==> forall|k: int| 0 <= k < j ==> !encloses(ranges, i as int, k),
        decreases sorted@.len() - j,
    {
        let other = sorted[j].range;
        assert(other == ranges[j as int]);
        if j != i && other.contains_range(range) && other != range {
            let length = other.len();
            match best {
                None => {
                    best = Some(j);
                    best_len = length;
                },
                Some(_) => {
                    if length < best_len {
                        best = Some(j);
                        best_len = length;
                    }
                },
            }
        }
        j = j + 1;
    }
    match best {
        Some(c) => Some(DefinitionId(c as u32)),
        None => None,
    }
}

pub open spec fn definition_views(defs: Seq<Definition>) -> Seq<DefinitionView> {
    defs.map_values(|d: Definition| d@)
}

/// Numbers the sorted definition tags and links each to its container.
fn number_definitions(sorted: &Vec<SymbolTag>) -> (defs: Vec<Definition>)
    requires
        sorted@.len() < u32::MAX,
        forall|a: int| 0 <= a < sorted@.len() ==> (#[trigger] sorted@[a])@.role == SymbolRole::Definition,
    ensures
        defs@.len() == sorted@.len(),
        forall|a: int| 0 <= a < defs@.len() ==> tag_of(#[trigger] defs@[a]@) == sorted@[a]@,
        forall|a: int| 0 <= a < defs@.len() ==> (#[trigger] defs@[a])@.id == a,
        definition_ranges(definition_views(defs@)) == ranges_of(sorted@),
        forall|a: int|
            0 <= a < defs@.len() ==> is_container_of(ranges_of(sorted@), a, (#[trigger] defs@[a])@.container),
{
    let mut defs: Vec<Definition> = Vec::new();
    let mut i: usize = 0;
    while i < sorted.len()
        invariant
            0 <= i <= sorted@.len(),
            sorted@.len() < u32::MAX,
            forall|a: int| 0 <= a < sorted@.len() ==> (#[trigger] sorted@[a])@.role == SymbolRole::Definition,
            defs@.len() == i,
            forall|a: int| 0 <= a < i ==> tag_of(#[trigger] defs@[a]@) == sorted@[a]@,
            forall|a: int| 0 <= a < i ==> (#[trigger] defs@[a])@.id == a,
            forall|a: int|
                0 <= a < i ==> is_container_of(ranges_of(sorted@), a, (#[trigger] defs@[a])@.container),
        decreases sorted@.len() - i,
    {
        let tag = &sorted[i];
        let container = innermost_container(sorted, i);
        let definition = Definition {
            id: DefinitionId(i as u32),
            name: tag.name.clone(),
            kind: tag.kind,
            name_range: tag.name_range,
            range: tag.range,
            scope: tag.scope,
            container,
        };
        assert(definition@.container == opt_id(container));
        defs.push(definition);
        i = i + 1;
    }
    assert(definition_ranges(definition_views(defs@)) =~= ranges_of(sorted@)) by {
        assert forall|a: int| 0 <= a < defs@.len() implies definition_ranges(definition_views(defs@))[a]
            == ranges_of(sorted@)[a] by {
            assert(tag_of(defs@[a]@) == sorted@[a]@);
        }
    }
    defs
}

fn same_group_exec(a: &Definition, b: &Definition) -> (same: bool)
    ensures
        same == same_group(a@, b@),
{
    text_eq(a.name.as_str(), b.name.as_str()) && a.kind == b.kind && a.scope == b.scope
}

proof fn lemma_group_empty_before(defs: Seq<DefinitionView>, i: int, upto: int)
    requires
        0 <= i < defs.len(),
        upto <= i,
        group_leader(defs, i),
    ensures
        group_ids(defs, i, upto).len() == 0,
    decreases upto,
{
    if upto > 0 {
        lemma_group_empty_before(defs, i, upto - 1);
    }
}

proof fn lemma_group_starts_with_leader(defs: Seq<DefinitionView>, i: int, upto: int)
    requires
        0 <= i < upto <= defs.len(),
        group_leader(defs, i),
        forall|a: int| 0 <= a < defs.len() ==> #[trigger] defs[a].id == a,
    ensures
        group_ids(defs, i, upto).len() >= 1,
        group_ids(defs, i, upto)[0] == i,
    decreases upto,
{
    if upto == i + 1 {
        lemma_group_empty_before(defs, i, i);
    } else {
        lemma_group_starts_with_leader(defs, i, upto - 1);
    }
}

pub open spec fn duplicate_views(dups: Seq<DuplicateDefinitions>) -> Seq<DuplicateView> {
    dups.map_values(|d: DuplicateDefinitions| d@)
}

/// One group per definition that starts a group of two or more, in
/// definition order; `leaders` holds the starting definitions.
fn collect_duplicates(defs: &Vec<Definition>) -> (found: (Vec<DuplicateDefinitions>, Ghost<Seq<int>>))
    requires
        defs@.len() < u32::MAX,
        forall|a: int| 0 <= a < defs@.len() ==> (#[trigger] defs@[a])@.id == a,
    ensures
        found.0@.len() == found.1@.len(),
        forall|k: int| 0 <= k < found.0@.len() ==> starts_duplicate_group(definition_views(defs@), #[trigger] found.1@[k]),
        forall|k: int| 0 <= k < found.0@.len() ==> (#[trigger] found.0@[k])@ == duplicate_of(definition_views(defs@), found.1@[k]),
        forall|a: int, b: int| 0 <= a < b < found.1@.len() ==> found.1@[a] < found.1@[b],
        forall|i: int| starts_duplicate_group(definition_views(defs@), i) ==> found.1@.contains(i),
{
    let ghost dv = definition_views(defs@);
    let n = defs.len();
    let mut dups: Vec<DuplicateDefinitions> = Vec::new();
    let ghost mut leaders: Seq<int> = Seq::empty();
    let mut i: usize = 0;
    while i < n
        invariant
            n == defs@.len(),
            n < u32::MAX,
            dv == definition_views(defs@),
            forall|a: int| 0 <= a < n ==> (#[trigger] defs@[a])@.id == a,
            0 <= i <= n,
            dups@.len() == leaders.len(),
            forall|k: int| 0 <= k < dups@.len() ==> starts_duplicate_group(dv, #[trigger] leaders[k]),
            forall|k: int| 0 <= k < dups@.len() ==> (#[trigger] dups@[k])@ == duplicate_of(dv, leaders[k]),
            forall|a: int, b: int| 0 <= a < b < leaders.len() ==> leaders[a] < leaders[b],
            forall|k: int| 0 <= k < leaders.len() ==> leaders[k] < i,
            forall|j: int| 0 <= j < i && starts_duplicate_group(dv, j) ==> leaders.contains(j),
        decreases n - i,
    {
        let mut j: usize = 0;
        while j < i && !same_group_exec(&defs[j], &defs[i])
            invariant
                0 <= j <= i < n,
                n == defs@.len(),
                dv == definition_views(defs@),
                forall|a: int| 0 <= a < j ==> !same_group(dv[a], dv[i as int]),
            decreases i - j,
        {
            j = j + 1;
        }
        if j == i {
            let mut ids: Vec<DefinitionId> = Vec::new();
            let mut m: usize = 0;
            while m < n
                invariant
                    0 <= m <= n,
                    i < n,
                    n == defs@.len(),
                    dv == definition_views(defs@),
                    id_values(ids@) == group_ids(dv, i as int, m as int),
                decreases n - m,
            {
                let ghost before = ids@;
                if same_group_exec(&defs[m], &defs[i]) {
                    ids.push(defs[m].id);
                    assert(id_values(ids@) =~= id_values(before).push(dv[m as int].id));
                }
                m = m + 1;
            }
            if ids.len() > 1 {
                let duplicate = DuplicateDefinitions {
                    name: defs[i].name.clone(),
                    kind: defs[i].kind,
                    definition_ids: ids,
                };
                let ghost old_leaders = leaders;
                dups.push(duplicate);
                proof {
                    leaders = leaders.push(i as int);
                    assert(leaders[leaders.len() - 1] == i);
                    assert forall|x: int| old_leaders.contains(x) implies leaders.contains(x) by {
                        let w = choose|w: int| 0 <= w < old_leaders.len() && old_leaders[w] == x;
                        assert(leaders[w] == x);
                    }
                }
                assert(leaders.contains(i as int));
            } else {
                assert(!starts_duplicate_group(dv, i as int));
            }
        } else {
            assert(same_group(dv[j as int], dv[i as int]));
            assert(!starts_duplicate_group(dv, i as int));
        }
        assert(starts_duplicate_group(dv, i as int) ==> leaders.contains(i as int));
        i = i + 1;
    }
    (dups, Ghost(leaders))
}

/// The groups ordered by name.
fn sort_by_name(dups: Vec<DuplicateDefinitions>) -> (sorted: Vec<DuplicateDefinitions>)
    ensures
        duplicate_views(sorted@).to_multiset() == duplicate_views(dups@).to_multiset(),
        sorted@.len() == dups@.len(),
        forall|a: int, b: int| 0 <= a < b < sorted@.len() ==> chars_le(sorted@[a]@.name, sorted@[b]@.name),
{
    let mut sorted: Vec<DuplicateDefinitions> = Vec::new();
    let mut rest = dups;
    let ghost all = duplicate_views(rest@);
    let mut k: usize = 0;
    assert(all.take(0) =~= Seq::<DuplicateView>::empty());
    assert(duplicate_views(sorted@) =~= Seq::<DuplicateView>::empty());
    // Move groups out from the back, so that each move takes one pop.
    let mut taken: Vec<DuplicateDefinitions> = Vec::new();
    while rest.len() > 0
        invariant
            duplicate_views(taken@) + duplicate_views(rest@).reverse() =~= all.reverse(),
        decreases rest@.len(),
    {
        let ghost before_rest = rest@;
        let ghost before_taken = taken@;
        let item = rest.pop().unwrap();
        taken.push(item);
        proof {
            assert(duplicate_views(rest@) =~= duplicate_views(before_rest).drop_last());
            assert(duplicate_views(taken@) =~= duplicate_views(before_taken).push(item@));
            assert(duplicate_views(before_rest).reverse() =~= seq![item@] + duplicate_views(rest@).reverse());
        }
    }
    assert(duplicate_views(taken@) =~= all.reverse());
    proof {
        all.lemma_reverse_to_multiset();
    }
    let ghost order = duplicate_views(taken@);
    assert(order.take(0) =~= Seq::<DuplicateView>::empty());
    while k < taken.len()
        invariant
            0 <= k <= taken@.len(),
            order == duplicate_views(taken@),
            sorted@.len() == k,
            duplicate_views(sorted@).to_multiset() == order.take(k as int).to_multiset(),
            forall|a: int, b: int| 0 <= a < b < sorted@.len() ==> chars_le(sorted@[a]@.name, sorted@[b]@.name),
        decreases taken@.len() - k,
    {
        let item_name = taken[k].name.as_str();
        let mut p: usize = 0;
        while p < sorted.len() && str_le(sorted[p].name.as_str(), item_name)
            invariant
                0 <= p <= sorted@.len(),
                k < taken@.len(),
                item_name@ == taken@[k as int]@.name,
                forall|a: int| 0 <= a < p ==> chars_le(sorted@[a]@.name, item_name@),
            decreases sorted@.len() - p,
        {
            p = p + 1;
        }
        let item = DuplicateDefinitions {
            name: taken[k].name.clone(),
            kind: taken[k].kind,
            definition_ids: taken[k].definition_ids.clone(),
        };
        proof {
            assert(id_values(item.definition_ids@) =~= id_values(taken@[k as int].definition_ids@));
        }
        let ghost old_sorted = sorted@;
        proof {
            assert(order.take(k + 1) =~= order.take(k as int).push(order[k as int]));
            duplicate_views(old_sorted).insert_ensures(p as int, item@);
            if p < old_sorted.len() {
                lemma_chars_le_total(old_sorted[p as int]@.name, item_name@);
            }
        }
        sorted.insert(p, item);
        proof {
            assert(duplicate_views(sorted@) =~= duplicate_views(old_sorted).insert(p as int, item@));
            vstd::seq_lib::to_multiset_insert(duplicate_views(old_sorted), p as int, item@);
            vstd::seq_lib::to_multiset_build(order.take(k as int), order[k as int]);
            assert forall|a: int, b: int| 0 <= a < b < sorted@.len() implies chars_le(
                sorted@[a]@.name,
                sorted@[b]@.name,
            ) by {
                if b < p {
                } else if b == p {
                } else if a < p {
                    if p < b - 1 {
                        lemma_chars_le_trans(item_name@, old_sorted[p as int]@.name, old_sorted[b - 1]@.name);
                    }
                    lemma_chars_le_trans(old_sorted[a]@.name, item_name@, old_sorted[b - 1]@.name);
                } else if a == p {
                    if p < b - 1 {
                        lemma_chars_le_trans(item_name@, old_sorted[p as int]@.name, old_sorted[b - 1]@.name);
                    }
                } else {
                }
            }
        }
        k = k + 1;
    }
    assert(order.take(taken@.len() as int) =~= order);
    sorted
}

pub open spec fn reference_views(refs: Seq<Reference>) -> Seq<ReferenceView> {
    refs.map_values(|r: Reference| r@)
}

proof fn lemma_resolution_unique(defs: Seq<DefinitionView>, t: TagView, f: int)
    requires
        resolves(defs, t, f),
        forall|k: int| resolves(defs, t, k) ==> k == f,
    ensures
        resolution(defs, t) == Some(f as u32),
{

}

proof fn lemma_resolution_ambiguous(defs: Seq<DefinitionView>, t: TagView, a: int, b: int)
    requires
        resolves(defs, t, a),
        resolves(defs, t, b),
        a != b,
    ensures
        resolution(defs, t) is None,
{

}

proof fn lemma_resolution_none(defs: Seq<DefinitionView>, t: TagView)
    requires
        forall|j: int| !resolves(defs, t, j),
    ensures
        resolution(defs, t) is None,
{

}

/// Binds a reference tag to the one definition that may take it, if exactly
/// one may.
fn resolve_reference(defs: &Vec<Definition>, tag: &SymbolTag) -> (reference: Reference)
    requires
        defs@.len() < u32::MAX,
        forall|a: int| 0 <= a < defs@.len() ==> (#[trigger] defs@[a])@.id == a,
    ensures
        reference@ == reference_of(definition_views(defs@), tag@),
{
    let ghost dv = definition_views(defs@);
    let mut count: usize = 0;
    let mut first: usize = 0;
    let mut m: usize = 0;
    while m < defs.len()
        invariant
            0 <= m <= defs@.len(),
            defs@.len() < u32::MAX,
            dv == definition_views(defs@),
            count <= 2,
            count == 0 ==> forall|a: int| 0 <= a < m ==> !resolves(dv, tag@, a),
            count >= 1 ==> first < m && resolves(dv, tag@, first as int) && forall|a: int|
                0 <= a < first ==> !resolves(dv, tag@, a),
            count == 1 ==> forall|a: int| 0 <= a < m && resolves(dv, tag@, a) ==> a == first,
            count == 2 ==> exists|a: int| 0 <= a < m && a != first && resolves(dv, tag@, a),
        decreases defs@.len() - m,
    {
        let definition = &defs[m];
        if text_eq(definition.name.as_str(), tag.name.as_str()) && kinds_compatible(
            tag.kind,
            definition.kind,
        ) {
            assert(resolves(dv, tag@, m as int));
            if count == 0 {
                first = m;
                count = 1;
            } else if count == 1 {
                count = 2;
            }
        }
        m = m + 1;
    }
    let definition = if count == 1 {
        Some(DefinitionId(first as u32))
    } else {
        None
    };
    proof {
        if count == 1 {
            lemma_resolution_unique(dv, tag@, first as int);
        } else if count == 2 {
            let a = choose|a: int| 0 <= a < defs@.len() && a != first && resolves(dv, tag@, a);
            lemma_resolution_ambiguous(dv, tag@, first as int, a);
        } else {
            lemma_resolution_none(dv, tag@);
        }
    }
    Reference {
        name: tag.name.clone(),
        kind: tag.kind,
        name_range: tag.name_range,
        range: tag.range,
        definition,
    }
}

proof fn lemma_definition_tags_len(tags: Seq<TagView>)
    ensures
        definition_tags(tags).len() <= tags.len(),
    decreases tags.len(),
{
    if tags.len() > 0 {
        lemma_definition_tags_len(tags.drop_last());
    }
}

proof fn lemma_reference_tags_len(tags: Seq<TagView>)
    ensures
        reference_tags(tags).len() <= tags.len(),
    decreases tags.len(),
{
    if tags.len() > 0 {
        lemma_reference_tags_len(tags.drop_last());
    }
}

proof fn lemma_definitions_built(
    kept: Seq<TagView>,
    sorted: Seq<TagView>,
    ranges: Seq<ByteRange>,
    defs: Seq<DefinitionView>,
)
    requires
        sorted.to_multiset() == kept.to_multiset(),
        sorted.len() == kept.len(),
        defs.len() == sorted.len(),
        key_sorted(ranges),
        definition_ranges(defs) == ranges,
        forall|a: int| 0 <= a < defs.len() ==> tag_of(#[trigger] defs[a]) == sorted[a],
        forall|a: int| 0 <= a < defs.len() ==> #[trigger] defs[a].id == a,
        forall|a: int| 0 <= a < defs.len() ==> is_container_of(ranges, a, (#[trigger] defs[a]).container),
    ensures
        definitions_built(defs, kept),
{
    broadcast use vstd::seq_lib::to_multiset_contains;

    assert forall|i: int| 0 <= i < defs.len() implies kept.contains(#[trigger] tag_of(defs[i])) by {
        assert(sorted.contains(sorted[i]));
        assert(sorted.to_multiset().count(sorted[i]) > 0);
    }
    assert forall|t: TagView| kept.contains(t) implies exists|i: int|
        0 <= i < defs.len() && #[trigger] tag_of(defs[i]) == t by {
        assert(kept.to_multiset().count(t) > 0);
        assert(sorted.contains(t));
        let w = choose|w: int| 0 <= w < sorted.len() && sorted[w] == t;
        assert(tag_of(defs[w]) == t);
    }
    assert forall|i: int, j: int| 0 <= i < j < defs.len() implies range_key_le(defs[i].range, defs[j].range) by {
        assert(ranges[i] == defs[i].range);
        assert(ranges[j] == defs[j].range);
    }
}

proof fn lemma_duplicates_built(
    unsorted: Seq<DuplicateView>,
    sorted: Seq<DuplicateView>,
    defs: Seq<DefinitionView>,
    leaders: Seq<int>,
)
    requires
        sorted.to_multiset() == unsorted.to_multiset(),
        sorted.len() == unsorted.len(),
        unsorted.len() == leaders.len(),
        forall|a: int| 0 <= a < defs.len() ==> #[trigger] defs[a].id == a,
        forall|k: int| 0 <= k < unsorted.len() ==> starts_duplicate_group(defs, #[trigger] leaders[k]),
        forall|k: int| 0 <= k < unsorted.len() ==> #[trigger] unsorted[k] == duplicate_of(defs, leaders[k]),
        forall|a: int, b: int| 0 <= a < b < leaders.len() ==> leaders[a] < leaders[b],
        forall|i: int| starts_duplicate_group(defs, i) ==> leaders.contains(i),
        forall|a: int, b: int| 0 <= a < b < sorted.len() ==> chars_le(sorted[a].name, sorted[b].name),
    ensures
        duplicates_built(sorted, defs),
{
    broadcast use vstd::seq_lib::to_multiset_contains;

    assert forall|k: int| 0 <= k < sorted.len() implies exists|i: int|
        starts_duplicate_group(defs, i) && #[trigger] sorted[k] == duplicate_of(defs, i) by {
        assert(sorted.contains(sorted[k]));
        assert(sorted.to_multiset().count(sorted[k]) > 0);
        assert(unsorted.contains(sorted[k]));
        let w = choose|w: int| 0 <= w < unsorted.len() && unsorted[w] == sorted[k];
        assert(starts_duplicate_group(defs, leaders[w]));
    }
    assert forall|i: int| starts_duplicate_group(defs, i) implies exists|k: int|
        0 <= k < sorted.len() && #[trigger] sorted[k] == duplicate_of(defs, i) by {
        let w = choose|w: int| 0 <= w < leaders.len() && leaders[w] == i;
        assert(unsorted[w] == duplicate_of(defs, i));
        assert(unsorted.contains(unsorted[w]));
        assert(unsorted.to_multiset().count(unsorted[w]) > 0);
        assert(sorted.contains(unsorted[w]));
    }
    assert(unsorted.no_duplicates()) by {
        assert forall|a: int, b: int| 0 <= a < unsorted.len() && 0 <= b < unsorted.len() && a != b implies unsorted[a]
            != unsorted[b] by {
            lemma_group_starts_with_leader(defs, leaders[a], defs.len() as int);
            lemma_group_starts_with_leader(defs, leaders[b], defs.len() as int);
            assert(unsorted[a].ids[0] == leaders[a]);
            assert(unsorted[b].ids[0] == leaders[b]);
        }
    }
    unsorted.lemma_multiset_has_no_duplicates();
    sorted.lemma_multiset_has_no_duplicates_conv();
}

/// In-file definitions, references, and duplicate-name groups.
#[derive(Clone, Debug, PartialEq, Eq)]
pub struct SymbolGraph {
    definitions: Vec<Definition>,
    references: Vec<Reference>,
    duplicates: Vec<DuplicateDefinitions>,
}

impl View for SymbolGraph {
    type V = GraphView;

    closed spec fn view(&self) -> GraphView {
        GraphView {
            definitions: definition_views(self.definitions@),
            references: reference_views(self.references@),
            duplicates: duplicate_views(self.duplicates@),
        }
    }
}

impl Default for SymbolGraph {
    fn default() -> (graph: Self)
        ensures
            graph.wf(),
            graph@.definitions.len() == 0,
            graph@.references.len() == 0,
            graph@.duplicates.len() == 0,
    {
        SymbolGraph { definitions: Vec::new(), references: Vec::new(), duplicates: Vec::new() }
    }
}

impl SymbolGraph {
    /// Definitions are numbered by position and references bind only to
    /// existing definitions.
    pub open spec fn wf(self) -> bool {
        &&& self@.definitions.len() < u32::MAX
        &&& forall|i: int| 0 <= i < self@.definitions.len() ==> #[trigger] self@.definitions[i].id == i
        &&& forall|k: int|
            0 <= k < self@.references.len() ==> ((#[trigger] self@.references[k]).definition matches Some(
                id,
            ) ==> id < self@.definitions.len())
    }

    /// Builds the graph: one definition per name range (methods preferred over
    /// functions over the rest), ordered by range and numbered by position,
    /// each linked to its innermost enclosing definition; one group per name,
    /// kind and scope with two or more definitions, ordered by name; each
    /// reference bound to the only definition it may bind to, if there is one.
    pub fn from_tags(tags: Vec<SymbolTag>) -> (graph: Self)
        requires
            tags@.len() < u32::MAX,
        ensures
            graph.wf(),
            built_from(graph@, tag_views(tags@)),
    {
        let ghost tv = tag_views(tags@);
        let (kept, use_tags) = collect_tags(&tags);
        proof {
            lemma_definition_tags_len(tv);
            lemma_reference_tags_len(tv);
        }
        let sorted = sort_by_range(&kept);
        let definitions = number_definitions(&sorted);
        let ghost dv = definition_views(definitions@);
        let (unsorted, Ghost(leaders)) = collect_duplicates(&definitions);
        let duplicates = sort_by_name(unsorted);
        let mut references: Vec<Reference> = Vec::new();
        let mut k: usize = 0;
        while k < use_tags.len()
            invariant
                0 <= k <= use_tags@.len(),
                definitions@.len() < u32::MAX,
                dv == definition_views(definitions@),
                forall|a: int| 0 <= a < definitions@.len() ==> (#[trigger] definitions@[a])@.id == a,
                references@.len() == k,
                forall|j: int| 0 <= j < k ==> (#[trigger] references@[j])@ == reference_of(dv, use_tags@[j]@),
            decreases use_tags@.len() - k,
        {
            let reference = resolve_reference(&definitions, &use_tags[k]);
            references.push(reference);
            k = k + 1;
        }
        proof {
            lemma_definitions_built(tag_views(kept@), tag_views(sorted@), ranges_of(sorted@), dv);
            assert(references_built(reference_views(references@), dv, tag_views(use_tags@))) by {
                assert forall|j: int| 0 <= j < use_tags@.len() implies #[trigger] reference_views(references@)[j]
                    == reference_of(dv, tag_views(use_tags@)[j]) by {
                    assert(references@[j]@ == reference_of(dv, use_tags@[j]@));
                }
            }
            lemma_duplicates_built(duplicate_views(unsorted@), duplicate_views(duplicates@), dv, leaders);
        }
        let graph = SymbolGraph { definitions, references, duplicates };
        graph
    }
}

/// What the caret is on: a definition (by index) or a reference (by index).
#[derive(Clone, Copy, PartialEq, Eq, Structural)]
pub enum Hit {
    Definition(u32),
    Reference(usize),
}

/// The best candidate so far: length of its range, whether that range is a
/// name, and what it belongs to.
pub type Best = Option<(nat, bool, Hit)>;

/// Takes `range` into account: a range holding the offset wins when it is
/// shorter than the best so far, or as long but a name where the best is not.
pub open spec fn consider(best: Best, offset: ByteOffset, range: ByteRange, is_name: bool, hit: Hit) -> Best {
    if !range.spec_contains_offset(offset) {
        best
    } else {
        match best {
            None => Some((range.spec_len(), is_name, hit)),
            Some((length, best_is_name, _)) => {
                if range.spec_len() < length || (range.spec_len() == length && is_name && !best_is_name) {
                    Some((range.spec_len(), is_name, hit))
                } else {
                    best
                }
            },
        }
    }
}

/// The best candidate among the names and ranges of the first `upto`
/// definitions, each name taken before its range.
pub open spec fn best_in_definitions(defs: Seq<DefinitionView>, offset: ByteOffset, upto: int) -> Best
    decreases upto,
{
    if upto <= 0 {
        None
    } else {
        let d = defs[upto - 1];
        let before = best_in_definitions(defs, offset, upto - 1);
        consider(
            consider(before, offset, d.name_range, true, Hit::Definition(d.id)),
            offset,
            d.range,
            false,
            Hit::Definition(d.id),
        )
    }
}

/// The best candidate after also taking the first `upto` references.
pub open spec fn best_in_references(start: Best, refs: Seq<ReferenceView>, offset: ByteOffset, upto: int) -> Best
    decreases upto,
{
    if upto <= 0 {
        start
    } else {
        let r = refs[upto - 1];
        let before = best_in_references(start, refs, offset, upto - 1);
        consider(
            consider(before, offset, r.name_range, true, Hit::Reference((upto - 1) as usize)),
            offset,
            r.range,
            false,
            Hit::Reference((upto - 1) as usize),
        )
    }
}

/// The symbol under `offset`: the definition or reference owning the shortest
/// name or range that holds it, names preferred on equal length, the earliest
/// (definitions before references) among equals.
pub open spec fn spec_hit(g: GraphView, offset: ByteOffset) -> Option<Hit> {
    let defs = best_in_definitions(g.definitions, offset, g.definitions.len() as int);
    match best_in_references(defs, g.references, offset, g.references.len() as int) {
        Some((_, _, hit)) => Some(hit),
        None => None,
    }
}

/// The definition that the symbol under `offset` names, if any: `Ok(Some(i))`
/// for definition `i`, `Ok(None)` when nothing is there, `Err(k)` when it is
/// reference `k` that binds to no definition.
pub open spec fn target_of(g: GraphView, offset: ByteOffset) -> Result<Option<int>, int> {
    match spec_hit(g, offset) {
        None => Ok(None),
        Some(Hit::Definition(id)) => Ok(Some(id as int)),
        Some(Hit::Reference(k)) => match g.references[k as int].definition {
            Some(id) => Ok(Some(id as int)),
            None => Err(k as int),
        },
    }
}

fn consider_exec(
    best: &mut Option<(usize, bool, Hit)>,
    offset: ByteOffset,
    range: ByteRange,
    is_name: bool,
    hit: Hit,
)
    ensures
        best_spec(*final(best)) == consider(best_spec(*old(best)), offset, range, is_name, hit),
        *final(best) == *old(best) || (*final(best) matches Some((_, _, h)) && h == hit),
{
    if !range.contains_offset(offset) {
        return;
    }
    let length = range.len();
    let replace = match *best {
        None => true,
        Some((best_length, best_is_name, _)) => length < best_length || (length == best_length
            && is_name && !best_is_name),
    };
    if replace {
        *best = Some((length, is_name, hit));
    }
}

pub open spec fn best_spec(best: Option<(usize, bool, Hit)>) -> Best {
    match best {
        Some((length, is_name, hit)) => Some((length as nat, is_name, hit)),
        None => None,
    }
}

impl SymbolGraph {
    pub fn definitions(&self) -> (definitions: &[Definition])
        ensures
            definition_views(definitions@) == self@.definitions,
    {
        self.definitions.as_slice()
    }

    pub fn references(&self) -> (references: &[Reference])
        ensures
            reference_views(references@) == self@.references,
    {
        self.references.as_slice()
    }

    pub fn duplicates(&self) -> (duplicates: &[DuplicateDefinitions])
        ensures
            duplicate_views(duplicates@) == self@.duplicates,
    {
        self.duplicates.as_slice()
    }

    /// The definitions named `name`, in order.
    pub fn definitions_named(&self, name: &str) -> (named: Vec<&Definition>)
        ensures
            named@.map_values(|d: &Definition| d@) == self@.definitions.filter(
                |d: DefinitionView| d.name == name@,
            ),
    {
        let ghost all = self@.definitions;
        let ghost keep = |d: DefinitionView| d.name == name@;
        let mut named: Vec<&Definition> = Vec::new();
        let mut i: usize = 0;
        assert(all.take(0) =~= Seq::<DefinitionView>::empty());
        assert(all.take(0).filter(keep) =~= Seq::<DefinitionView>::empty());
        while i < self.definitions.len()
            invariant
                0 <= i <= all.len(),
                all == self@.definitions,
                keep == (|d: DefinitionView| d.name == name@),
                named@.map_values(|d: &Definition| d@) == all.take(i as int).filter(keep),
            decreases all.len() - i,
        {
            let ghost before = named@;
            let definition = &self.definitions[i];
            proof {
                reveal_with_fuel(Seq::filter, 1);
                assert(all.take(i + 1).drop_last() =~= all.take(i as int));
                assert(all[i as int] == definition@);
            }
            if text_eq(definition.name.as_str(), name) {
                named.push(definition);
                assert(named@.map_values(|d: &Definition| d@) =~= before.map_values(|d: &Definition| d@).push(definition@));
            } else {
                assert(named@ == before);
            }
            i = i + 1;
        }
        assert(all.take(all.len() as int) =~= all);
        named
    }

    /// The references bound to definition `id`, in order.
    pub fn references_to(&self, id: DefinitionId) -> (bound: Vec<&Reference>)
        ensures
            bound@.map_values(|r: &Reference| r@) == self@.references.filter(
                |r: ReferenceView| r.definition == Some(id.0),
            ),
    {
        let ghost all = self@.references;
        let ghost keep = |r: ReferenceView| r.definition == Some(id.0);
        let mut bound: Vec<&Reference> = Vec::new();
        let mut i: usize = 0;
        assert(all.take(0) =~= Seq::<ReferenceView>::empty());
        assert(all.take(0).filter(keep) =~= Seq::<ReferenceView>::empty());
        while i < self.references.len()
            invariant
                0 <= i <= all.len(),
                all == self@.references,
                keep == (|r: ReferenceView| r.definition == Some(id.0)),
                bound@.map_values(|r: &Reference| r@) == all.take(i as int).filter(keep),
            decreases all.len() - i,
        {
            let ghost before = bound@;
            let reference = &self.references[i];
            proof {
                reveal_with_fuel(Seq::filter, 1);
                assert(all.take(i + 1).drop_last() =~= all.take(i as int));
                assert(all[i as int] == reference@);
            }
            if reference.definition == Some(id) {
                bound.push(reference);
                assert(bound@.map_values(|r: &Reference| r@) =~= before.map_values(|r: &Reference| r@).push(reference@));
            } else {
                assert(bound@ == before);
            }
            i = i + 1;
        }
        assert(all.take(all.len() as int) =~= all);
        bound
    }

    pub fn definition(&self, id: DefinitionId) -> (definition: Option<&Definition>)
        ensures
            match definition {
                Some(d) => id.0 < self@.definitions.len() && d@ == self@.definitions[id.0 as int],
                None => id.0 >= self@.definitions.len(),
            },
    {
        if (id.0 as usize) < self.definitions.len() {
            Some(&self.definitions[id.0 as usize])
        } else {
            None
        }
    }

    fn hit(&self, offset: ByteOffset) -> (hit: Option<Hit>)
        requires
            self.wf(),
        ensures
            hit == spec_hit(self@, offset),
            hit matches Some(Hit::Definition(id)) ==> id < self@.definitions.len(),
            hit matches Some(Hit::Reference(k)) ==> k < self@.references.len(),
    {
        let ghost g = self@;
        let mut best: Option<(usize, bool, Hit)> = None;
        let mut i: usize = 0;
        while i < self.definitions.len()
            invariant
                0 <= i <= g.definitions.len(),
                g == self@,
                self.wf(),
                best_spec(best) == best_in_definitions(g.definitions, offset, i as int),
                best matches Some((_, _, h)) ==> h matches Hit::Definition(id) && id < i,
            decreases g.definitions.len() - i,
        {
            let definition = &self.definitions[i];
            assert(g.definitions[i as int] == definition@);
            assert(g.definitions[i as int].id == i);
            assert(definition.id.0 == i);
            consider_exec(&mut best, offset, definition.name_range, true, Hit::Definition(definition.id.0));
            consider_exec(&mut best, offset, definition.range, false, Hit::Definition(definition.id.0));
            i = i + 1;
        }
        let ghost after_definitions = best_spec(best);
        let mut k: usize = 0;
        while k < self.references.len()
            invariant
                0 <= k <= g.references.len(),
                g == self@,
                after_definitions == best_in_definitions(g.definitions, offset, g.definitions.len() as int),
                best_spec(best) == best_in_references(after_definitions, g.references, offset, k as int),
                best matches Some((_, _, h)) ==> (h matches Hit::Definition(id) ==> id < g.definitions.len()),
                best matches Some((_, _, h)) ==> (h matches Hit::Reference(r) ==> r < k),
            decreases g.references.len() - k,
        {
            let reference = &self.references[k];
            assert(g.references[k as int] == reference@);
            consider_exec(&mut best, offset, reference.name_range, true, Hit::Reference(k));
            consider_exec(&mut best, offset, reference.range, false, Hit::Reference(k));
            k = k + 1;
        }
        match best {
            Some((_, _, hit)) => Some(hit),
            None => None,
        }
    }

    /// Jumps from the symbol under `offset` to the name of its definition.
    pub fn go_to_definition(&self, offset: ByteOffset) -> (lookup: DefinitionLookup)
        requires
            self.wf(),
        ensures
            match target_of(self@, offset) {
                Ok(Some(i)) => lookup == DefinitionLookup::Found(self@.definitions[i].name_range),
                Ok(None) => lookup == DefinitionLookup::Missing,
                Err(k) => lookup matches DefinitionLookup::Unresolved(name) && name@
                    == self@.references[k].name,
            },
    {
        match self.hit(offset) {
            None => DefinitionLookup::Missing,
            Some(Hit::Definition(id)) => {
                assert(self@.definitions[id as int].id == id);
                DefinitionLookup::Found(self.definitions[id as usize].name_range)
            },
            Some(Hit::Reference(index)) => {
                assert(index < self@.references.len());
                let reference = &self.references[index];
                assert(self@.references[index as int] == reference@);
                match reference.definition {
                    Some(id) => DefinitionLookup::Found(self.definitions[id.0 as usize].name_range),
                    None => DefinitionLookup::Unresolved(reference.name.clone()),
                }
            },
        }
    }
}

pub open spec fn strictly_key_sorted(ranges: Seq<ByteRange>) -> bool {
    forall|a: int, b: int| 0 <= a < b < ranges.len() ==> range_key_lt(ranges[a], ranges[b])
}

/// The ranges that find-references reports for definition `id`: its name and
/// the names of the references bound to it.
pub open spec fn in_reference_set(g: GraphView, id: int, r: ByteRange) -> bool {
    ||| (0 <= id < g.definitions.len() && r == g.definitions[id].name_range)
    ||| exists|k: int|
        0 <= k < g.references.len() && g.references[k].definition == Some(id as u32)
            && #[trigger] g.references[k].name_range == r
}

/// Adds `r` to a strictly ordered list of ranges, unless it is already there.
fn insert_sorted_unique(ranges: &mut Vec<ByteRange>, r: ByteRange)
    requires
        strictly_key_sorted(old(ranges)@),
    ensures
        strictly_key_sorted(final(ranges)@),
        forall|x: ByteRange| final(ranges)@.contains(x) <==> (old(ranges)@.contains(x) || x == r),
{
    let mut p: usize = 0;
    while p < ranges.len() && (ranges[p].start.0 < r.start.0 || (ranges[p].start.0 == r.start.0
        && ranges[p].end.0 < r.end.0))
        invariant
            0 <= p <= ranges@.len(),
            forall|a: int| 0 <= a < p ==> range_key_lt(ranges@[a], r),
        decreases ranges@.len() - p,
    {
        p = p + 1;
    }
    if p < ranges.len() && ranges[p] == r {
        assert(ranges@.contains(r));
        return ;
    }
    let ghost old_ranges = ranges@;
    proof {
        old_ranges.insert_ensures(p as int, r);
    }
    ranges.insert(p, r);
    proof {
        assert forall|a: int, b: int| 0 <= a < b < ranges@.len() implies range_key_lt(
            ranges@[a],
            ranges@[b],
        ) by {
            if b < p {
            } else if b == p {
            } else if a < p {
                assert(range_key_lt(old_ranges[p as int], old_ranges[b - 1]) || p == b - 1);
            } else if a == p {
                assert(range_key_lt(old_ranges[p as int], old_ranges[b - 1]) || p == b - 1);
            } else {
                assert(range_key_lt(old_ranges[a - 1], old_ranges[b - 1]));
            }
        }
        assert forall|x: ByteRange| ranges@.contains(x) <==> (old_ranges.contains(x) || x == r) by {
            if ranges@.contains(x) {
                let w = choose|w: int| 0 <= w < ranges@.len() && ranges@[w] == x;
                if w < p {
                    assert(old_ranges[w] == x);
                } else if w > p {
                    assert(old_ranges[w - 1] == x);
                }
            }
            if old_ranges.contains(x) {
                let w = choose|w: int| 0 <= w < old_ranges.len() && old_ranges[w] == x;
                if w < p {
                    assert(ranges@[w] == x);
                } else {
                    assert(ranges@[w + 1] == x);
                }
            }
            if x == r {
                assert(ranges@[p as int] == x);
            }
        }
    }
}

impl SymbolGraph {
    /// The name of the definition under `offset`, or that the reference under
    /// it binds to, and the names of all references bound to it, ordered by
    /// position without repeats.
    pub fn find_references(&self, offset: ByteOffset) -> (lookup: ReferenceLookup)
        requires
            self.wf(),
        ensures
            match target_of(self@, offset) {
                Ok(Some(id)) => lookup matches ReferenceLookup::Found(ranges) && strictly_key_sorted(
                    ranges@,
                ) && forall|r: ByteRange| ranges@.contains(r) <==> in_reference_set(self@, id, r),
                Ok(None) => lookup == ReferenceLookup::Missing,
                Err(k) => lookup matches ReferenceLookup::Unresolved(name) && name@
                    == self@.references[k].name,
            },
    {
        let ghost g = self@;
        let id = match self.hit(offset) {
            None => return ReferenceLookup::Missing,
            Some(Hit::Definition(id)) => id,
            Some(Hit::Reference(index)) => {
                let reference = &self.references[index];
                assert(g.references[index as int] == reference@);
                match reference.definition {
                    Some(id) => id.0,
                    None => return ReferenceLookup::Unresolved(reference.name.clone()),
                }
            },
        };
        assert(target_of(g, offset) == Ok::<Option<int>, int>(Some(id as int)));
        let mut ranges: Vec<ByteRange> = Vec::new();
        if (id as usize) < self.definitions.len() {
            let name_range = self.definitions[id as usize].name_range;
            assert(g.definitions[id as int].name_range == name_range);
            insert_sorted_unique(&mut ranges, name_range);
        }
        let mut k: usize = 0;
        while k < self.references.len()
            invariant
                0 <= k <= g.references.len(),
                g == self@,
                strictly_key_sorted(ranges@),
                forall|r: ByteRange|
                    ranges@.contains(r) <==> ((0 <= id < g.definitions.len() && r
                        == g.definitions[id as int].name_range) || exists|j: int|
                        0 <= j < k && g.references[j].definition == Some(id) && #[trigger] g.references[j].name_range == r),
            decreases g.references.len() - k,
        {
            let reference = &self.references[k];
            assert(g.references[k as int] == reference@);
            if reference.definition == Some(DefinitionId(id)) {
                insert_sorted_unique(&mut ranges, reference.name_range);
            }
            proof {
                assert forall|r: ByteRange|
                    ranges@.contains(r) <==> ((0 <= id < g.definitions.len() && r
                        == g.definitions[id as int].name_range) || exists|j: int|
                        0 <= j < k + 1 && g.references[j].definition == Some(id) && #[trigger] g.references[j].name_range == r) by {
                    if g.references[k as int].definition == Some(id) && g.references[k as int].name_range == r {
                        assert(0 <= k < k + 1);
                    }
                }
            }
            k = k + 1;
        }
        ReferenceLookup::Found(ranges)
    }
}
/// Each of `kept` is one of the definition tags of `tags`.
pub open spec fn drawn_from(kept: Seq<TagView>, tags: Seq<TagView>) -> bool {
    forall|k: int|
        0 <= k < kept.len() ==> exists|x: int|
            0 <= x < tags.len() && tags[x].role == SymbolRole::Definition && #[trigger] kept[k] == tags[x]
}

/// `kept` has a tag with `range` as its name range.
pub open spec fn has_name_range(kept: Seq<TagView>, range: ByteRange) -> bool {
    exists|k: int| 0 <= k < kept.len() && (#[trigger] kept[k]).name_range == range
}

proof fn lemma_definition_tags(tags: Seq<TagView>)
    ensures
        distinct_name_ranges(definition_tags(tags)),
        drawn_from(definition_tags(tags), tags),
        forall|x: int|
            0 <= x < tags.len() && tags[x].role == SymbolRole::Definition ==> has_name_range(
                definition_tags(tags),
                #[trigger] tags[x].name_range,
            ),
    decreases tags.len(),
{
    if tags.len() > 0 {
        let rest = tags.drop_last();
        let t = tags.last();
        lemma_definition_tags(rest);
        let kept = definition_tags(rest);
        let now = definition_tags(tags);
        assert forall|x: int| 0 <= x < rest.len() implies #[trigger] rest[x] == tags[x] by {}
        if t.role == SymbolRole::Definition {
            if exists|j: int| 0 <= j < kept.len() && kept[j].name_range == t.name_range {
                let j = choose|j: int| 0 <= j < kept.len() && kept[j].name_range == t.name_range;
                assert forall|x: int|
                    0 <= x < tags.len() && tags[x].role == SymbolRole::Definition implies has_name_range(
                    now,
                    #[trigger] tags[x].name_range,
                ) by {
                    if x < rest.len() {
                        assert(rest[x] == tags[x]);
                        let k = choose|k: int| 0 <= k < kept.len() && (#[trigger] kept[k]).name_range == rest[x].name_range;
                        assert(now[k].name_range == tags[x].name_range);
                    } else {
                        assert(now[j].name_range == t.name_range);
                    }
                }
                assert forall|k: int| 0 <= k < now.len() implies exists|x: int|
                    0 <= x < tags.len() && tags[x].role == SymbolRole::Definition && #[trigger] now[k] == tags[x] by {
                    if now[k] == t {
                        assert(tags[tags.len() - 1] == t);
                    } else {
                        assert(now[k] == kept[k]);
                        let x = choose|x: int|
                            0 <= x < rest.len() && rest[x].role == SymbolRole::Definition && #[trigger] kept[k] == rest[x];
                        assert(tags[x] == rest[x]);
                    }
                }
            } else {
                assert(now == kept.push(t));
                assert forall|x: int|
                    0 <= x < tags.len() && tags[x].role == SymbolRole::Definition implies has_name_range(
                    now,
                    #[trigger] tags[x].name_range,
                ) by {
                    if x < rest.len() {
                        assert(rest[x] == tags[x]);
                        let k = choose|k: int| 0 <= k < kept.len() && (#[trigger] kept[k]).name_range == rest[x].name_range;
                        assert(now[k].name_range == tags[x].name_range);
                    } else {
                        assert(now[kept.len() as int].name_range == t.name_range);
                    }
                }
                assert forall|k: int| 0 <= k < now.len() implies exists|x: int|
                    0 <= x < tags.len() && tags[x].role == SymbolRole::Definition && #[trigger] now[k] == tags[x] by {
                    if k == kept.len() {
                        assert(tags[tags.len() - 1] == t);
                    } else {
                        assert(now[k] == kept[k]);
                        let x = choose|x: int|
                            0 <= x < rest.len() && rest[x].role == SymbolRole::Definition && #[trigger] kept[k] == rest[x];
                        assert(tags[x] == rest[x]);
                    }
                }
            }
        } else {
            assert forall|x: int|
                0 <= x < tags.len() && tags[x].role == SymbolRole::Definition implies has_name_range(
                now,
                #[trigger] tags[x].name_range,
            ) by {
                assert(x < rest.len());
                assert(rest[x] == tags[x]);
            }
            assert forall|k: int| 0 <= k < now.len() implies exists|x: int|
                0 <= x < tags.len() && tags[x].role == SymbolRole::Definition && #[trigger] now[k] == tags[x] by {
                let x = choose|x: int|
                    0 <= x < rest.len() && rest[x].role == SymbolRole::Definition && #[trigger] kept[k] == rest[x];
                assert(tags[x] == rest[x]);
            }
        }
    }
}

/// A graph built from `tags` has exactly one definition per name range of
/// its definition tags: no two definitions share a name range, every
/// definition tag's name range is some definition's, and every definition
/// is one of the definition tags.
#[verifier::spinoff_prover]
pub proof fn lemma_one_definition_per_name_range(g: GraphView, tags: Seq<TagView>)
    requires
        built_from(g, tags),
    ensures
        forall|i: int, j: int|
            0 <= i < j < g.definitions.len() ==> (#[trigger] g.definitions[i]).name_range
                != (#[trigger] g.definitions[j]).name_range,
        forall|x: int|
            0 <= x < tags.len() && tags[x].role == SymbolRole::Definition ==> exists|i: int|
                0 <= i < g.definitions.len() && (#[trigger] g.definitions[i]).name_range == #[trigger] tags[x].name_range,
        forall|i: int|
            0 <= i < g.definitions.len() ==> exists|x: int|
                0 <= x < tags.len() && tags[x].role == SymbolRole::Definition && tag_of(#[trigger] g.definitions[i])
                    == tags[x],
{
    let defs = g.definitions;
    let kept = definition_tags(tags);
    lemma_definition_tags(tags);
    assert forall|i: int| 0 <= i < defs.len() implies exists|x: int|
        0 <= x < tags.len() && tags[x].role == SymbolRole::Definition && tag_of(#[trigger] defs[i]) == tags[x] by {
        assert(kept.contains(tag_of(defs[i])));
        let k = choose|k: int| 0 <= k < kept.len() && kept[k] == tag_of(defs[i]);
        assert(kept[k] == tag_of(defs[i]));
    }
    assert forall|x: int| 0 <= x < tags.len() && tags[x].role == SymbolRole::Definition implies exists|i: int|
        0 <= i < defs.len() && (#[trigger] defs[i]).name_range == #[trigger] tags[x].name_range by {
        assert(has_name_range(kept, tags[x].name_range));
        let k = choose|k: int| 0 <= k < kept.len() && (#[trigger] kept[k]).name_range == tags[x].name_range;
        assert(kept.contains(kept[k]));
        let i = choose|i: int| 0 <= i < defs.len() && #[trigger] tag_of(defs[i]) == kept[k];
        assert(defs[i].name_range == tags[x].name_range);
    }
    let m = defs.map_values(|d: DefinitionView| tag_of(d));
    assert(kept.no_duplicates()) by {
        assert forall|a: int, b: int| 0 <= a < kept.len() && 0 <= b < kept.len() && a != b implies kept[a] != kept[b] by {
            assert(kept[a].name_range != kept[b].name_range);
        }
    }
    kept.unique_seq_to_set();
    assert forall|i: int, j: int| 0 <= i < j < defs.len() implies (#[trigger] defs[i]).name_range
        != (#[trigger] defs[j]).name_range by {
        if defs[i].name_range == defs[j].name_range {
            assert(kept.contains(tag_of(defs[i])));
            assert(kept.contains(tag_of(defs[j])));
            let a = choose|a: int| 0 <= a < kept.len() && kept[a] == tag_of(defs[i]);
            let b = choose|b: int| 0 <= b < kept.len() && kept[b] == tag_of(defs[j]);
            if a != b {
                assert(kept[a].name_range != kept[b].name_range);
            }
            assert(m[i] == m[j]);
            let r = m.remove(j);
            assert forall|t: TagView| kept.to_set().contains(t) implies r.to_set().contains(t) by {
                assert(kept.contains(t));
                let k = choose|k: int| 0 <= k < kept.len() && kept[k] == t;
                let e = choose|e: int| 0 <= e < defs.len() && #[trigger] tag_of(defs[e]) == kept[k];
                if e < j {
                    assert(r[e] == m[e]);
                } else if e == j {
                    assert(r[i] == m[i]);
                } else {
                    assert(r[e - 1] == m[e]);
                }
            }
            assert(kept.to_set().subset_of(r.to_set()));
            vstd::seq_lib::seq_to_set_is_finite(r);
            vstd::set_lib::lemma_len_subset(kept.to_set(), r.to_set());
            r.lemma_cardinality_of_set();
            assert(false);
        }
    }
}

/// The identities of a group, gathered up to `upto`, are positions before
/// `upto` when every definition's identity is its position.
proof fn lemma_group_ids_below(defs: Seq<DefinitionView>, i: int, upto: int)
    requires
        upto <= defs.len(),
        forall|k: int| 0 <= k < defs.len() ==> #[trigger] defs[k].id == k,
    ensures
        forall|m: int| 0 <= m < group_ids(defs, i, upto).len() ==> (#[trigger] group_ids(defs, i, upto)[m]) < upto,
    decreases upto,
{
    if upto > 0 {
        lemma_group_ids_below(defs, i, upto - 1);
        assert(defs[upto - 1].id == upto - 1);
        let earlier = group_ids(defs, i, upto - 1);
        let now = group_ids(defs, i, upto);
        assert forall|m: int| 0 <= m < now.len() implies (#[trigger] now[m]) < upto by {
            if m < earlier.len() {
                assert(now[m] == earlier[m]);
            }
        }
    }
}

/// Every definition identity that a graph built from `tags` holds names one
/// of its definitions: each definition's own identity is its position, and
/// every container, every reference's definition and every identity in a
/// duplicate group is below the number of definitions.
pub proof fn lemma_held_ids_in_range(g: GraphView, tags: Seq<TagView>)
    requires
        built_from(g, tags),
    ensures
        forall|i: int| 0 <= i < g.definitions.len() ==> #[trigger] g.definitions[i].id == i,
        forall|i: int|
            0 <= i < g.definitions.len() ==> ((#[trigger] g.definitions[i]).container matches Some(c) ==> c
                < g.definitions.len()),
        forall|k: int|
            0 <= k < g.references.len() ==> ((#[trigger] g.references[k]).definition matches Some(d) ==> d
                < g.definitions.len()),
        forall|k: int, m: int|
            0 <= k < g.duplicates.len() && 0 <= m < g.duplicates[k].ids.len() ==> (#[trigger] g.duplicates[k].ids[m])
                < g.definitions.len(),
{
    let defs = g.definitions;
    let n = defs.len();
    assert forall|i: int| 0 <= i < n implies ((#[trigger] defs[i]).container matches Some(c) ==> c < n) by {
        assert(is_container_of(definition_ranges(defs), i, defs[i].container));
    }
    let rtags = reference_tags(tags);
    assert forall|k: int| 0 <= k < g.references.len() implies ((#[trigger] g.references[k]).definition matches Some(
        d,
    ) ==> d < n) by {
        assert(g.references[k] == reference_of(defs, rtags[k]));
        let t = rtags[k];
        if exists|j: int| resolves(defs, t, j) && forall|k2: int| resolves(defs, t, k2) ==> k2 == j {
            let j = choose|j: int| resolves(defs, t, j) && forall|k2: int| resolves(defs, t, k2) ==> k2 == j;
            assert(0 <= j < n);
            if j <= u32::MAX {
                assert((j as u32) as int == j);
            }
        }
    }
    assert forall|k: int, m: int| 0 <= k < g.duplicates.len() && 0 <= m < g.duplicates[k].ids.len() implies (
    #[trigger] g.duplicates[k].ids[m]) < n by {
        let i = choose|i: int| starts_duplicate_group(defs, i) && #[trigger] g.duplicates[k] == duplicate_of(defs, i);
        lemma_group_ids_below(defs, i, n as int);
        assert(g.duplicates[k].ids == group_ids(defs, i, n as int));
    }
}

/// Among the definition tags of `tags`, each surviving tag is the first of
/// the highest priority for its name range: no definition tag with that
/// name range has a higher priority, and none before it has as high a one.
pub open spec fn first_of_highest_priority(tags: Seq<TagView>, x: int) -> bool {
    &&& 0 <= x < tags.len()
    &&& tags[x].role == SymbolRole::Definition
    &&& forall|y: int|
        0 <= y < tags.len() && tags[y].role == SymbolRole::Definition && tags[y].name_range == tags[x].name_range
            ==> spec_kind_priority(#[trigger] tags[y].kind) <= spec_kind_priority(tags[x].kind) && (y < x
            ==> spec_kind_priority(tags[y].kind) < spec_kind_priority(tags[x].kind))
}

proof fn lemma_definition_tags_first(tags: Seq<TagView>)
    ensures
        forall|k: int|
            0 <= k < definition_tags(tags).len() ==> exists|x: int|
                first_of_highest_priority(tags, x) && #[trigger] definition_tags(tags)[k] == tags[x],
    decreases tags.len(),
{
    if tags.len() > 0 {
        let rest = tags.drop_last();
        let last = tags.len() - 1;
        let t = tags.last();
        lemma_definition_tags_first(rest);
        lemma_definition_tags(rest);
        let kept = definition_tags(rest);
        let now = definition_tags(tags);
        assert forall|x: int| 0 <= x < rest.len() implies #[trigger] rest[x] == tags[x] by {}
        // A tag that was first of highest priority among the earlier tags stays so
        // unless the last tag has the same name range and a higher priority.
        assert forall|x: int|
            first_of_highest_priority(rest, x) && !(t.role == SymbolRole::Definition && t.name_range
                == rest[x].name_range && spec_kind_priority(t.kind) > spec_kind_priority(
                rest[x].kind,
            )) implies first_of_highest_priority(tags, x) by {
            assert forall|y: int|
                0 <= y < tags.len() && tags[y].role == SymbolRole::Definition && tags[y].name_range
                    == tags[x].name_range implies spec_kind_priority(#[trigger] tags[y].kind) <= spec_kind_priority(
                tags[x].kind,
            ) && (y < x ==> spec_kind_priority(tags[y].kind) < spec_kind_priority(tags[x].kind)) by {
                if y < last {
                    assert(rest[y] == tags[y]);
                }
            }
        }
        if t.role == SymbolRole::Definition {
            if exists|j: int| 0 <= j < kept.len() && kept[j].name_range == t.name_range {
                let j = choose|j: int| 0 <= j < kept.len() && kept[j].name_range == t.name_range;
                assert forall|k: int| 0 <= k < now.len() implies exists|x: int|
                    first_of_highest_priority(tags, x) && #[trigger] now[k] == tags[x] by {
                    if k == j && spec_kind_priority(t.kind) > spec_kind_priority(kept[j].kind) {
                        assert(now[k] == t);
                        let x0 = choose|x: int| first_of_highest_priority(rest, x) && #[trigger] kept[j] == rest[x];
                        assert forall|y: int|
                            0 <= y < tags.len() && tags[y].role == SymbolRole::Definition && tags[y].name_range
                                == tags[last].name_range implies spec_kind_priority(#[trigger] tags[y].kind)
                            <= spec_kind_priority(tags[last].kind) && (y < last ==> spec_kind_priority(tags[y].kind)
                            < spec_kind_priority(tags[last].kind)) by {
                            if y < last {
                                assert(rest[y] == tags[y]);
                                assert(rest[y].name_range == rest[x0].name_range);
                            }
                        }
                        assert(first_of_highest_priority(tags, last));
                    } else {
                        assert(now[k] == kept[k]);
                        let x0 = choose|x: int| first_of_highest_priority(rest, x) && #[trigger] kept[k] == rest[x];
                        if k != j {
                            assert(kept[k].name_range != kept[j].name_range);
                        }
                        assert(first_of_highest_priority(tags, x0));
                    }
                }
            } else {
                assert(now == kept.push(t));
                assert forall|k: int| 0 <= k < now.len() implies exists|x: int|
                    first_of_highest_priority(tags, x) && #[trigger] now[k] == tags[x] by {
                    if k == kept.len() {
                        assert forall|y: int|
                            0 <= y < tags.len() && tags[y].role == SymbolRole::Definition && tags[y].name_range
                                == tags[last].name_range implies spec_kind_priority(#[trigger] tags[y].kind)
                            <= spec_kind_priority(tags[last].kind) && (y < last ==> spec_kind_priority(tags[y].kind)
                            < spec_kind_priority(tags[last].kind)) by {
                            if y < last {
                                assert(rest[y] == tags[y]);
                                assert(has_name_range(kept, rest[y].name_range));
                                let k2 = choose|k2: int| 0 <= k2 < kept.len() && (#[trigger] kept[k2]).name_range
                                    == rest[y].name_range;
                                assert(kept[k2].name_range == t.name_range);
                            }
                        }
                        assert(first_of_highest_priority(tags, last));
                    } else {
                        assert(now[k] == kept[k]);
                        let x0 = choose|x: int| first_of_highest_priority(rest, x) && #[trigger] kept[k] == rest[x];
                        assert(kept[k].name_range != t.name_range);
                        assert(first_of_highest_priority(tags, x0));
                    }
                }
            }
        } else {
            assert forall|k: int| 0 <= k < now.len() implies exists|x: int|
                first_of_highest_priority(tags, x) && #[trigger] now[k] == tags[x] by {
                let x0 = choose|x: int| first_of_highest_priority(rest, x) && #[trigger] kept[k] == rest[x];
                assert(first_of_highest_priority(tags, x0));
            }
        }
    }
}

/// Each definition of a graph built from `tags` is made from the first
/// definition tag of the highest kind priority (methods, then functions,
/// then the rest) among those with its name range: it has that tag's name,
/// kind, ranges and scope.
pub proof fn lemma_definition_is_first_of_highest_priority(g: GraphView, tags: Seq<TagView>)
    requires
        built_from(g, tags),
    ensures
        forall|i: int|
            0 <= i < g.definitions.len() ==> exists|x: int|
                first_of_highest_priority(tags, x) && tag_of(#[trigger] g.definitions[i]) == tags[x],
{
    let kept = definition_tags(tags);
    lemma_definition_tags_first(tags);
    assert forall|i: int| 0 <= i < g.definitions.len() implies exists|x: int|
        first_of_highest_priority(tags, x) && tag_of(#[trigger] g.definitions[i]) == tags[x] by {
        assert(kept.contains(tag_of(g.definitions[i])));
        let k = choose|k: int| 0 <= k < kept.len() && kept[k] == tag_of(g.definitions[i]);
        assert(kept[k] == tag_of(g.definitions[i]));
    }
}

/// In a graph built from `tags`, a reference is bound to a definition when
/// that definition is the only one with the reference's name whose kind the
/// reference may reach: a call (function reference) reaches functions,
/// methods and macros, a type use reaches types, interfaces and modules, and
/// any other reference only its own kind. In particular a call to the only
/// method of its name is bound to that method.
pub proof fn lemma_reference_bound_to_sole_candidate(g: GraphView, tags: Seq<TagView>, k: int, j: int)
    requires
        built_from(g, tags),
        0 <= k < g.references.len(),
        0 <= j < g.definitions.len(),
        g.definitions[j].name == g.references[k].name,
        match g.references[k].kind {
            SymbolKind::Function => g.definitions[j].kind == SymbolKind::Function || g.definitions[j].kind
                == SymbolKind::Method || g.definitions[j].kind == SymbolKind::Macro,
            SymbolKind::Type => g.definitions[j].kind == SymbolKind::Type || g.definitions[j].kind
                == SymbolKind::Interface || g.definitions[j].kind == SymbolKind::Module,
            _ => g.definitions[j].kind == g.references[k].kind,
        },
        forall|i: int|
            0 <= i < g.definitions.len() && (#[trigger] g.definitions[i]).name == g.references[k].name && (match g.references[k].kind {
                SymbolKind::Function => g.definitions[i].kind == SymbolKind::Function || g.definitions[i].kind
                    == SymbolKind::Method || g.definitions[i].kind == SymbolKind::Macro,
                SymbolKind::Type => g.definitions[i].kind == SymbolKind::Type || g.definitions[i].kind
                    == SymbolKind::Interface || g.definitions[i].kind == SymbolKind::Module,
                _ => g.definitions[i].kind == g.references[k].kind,
            }) ==> i == j,
    ensures
        g.references[k].definition == Some(j as u32),
{
    let defs = g.definitions;
    let t = reference_tags(tags)[k];
    assert(g.references[k] == reference_of(defs, t));
    assert(resolves(defs, t, j));
    assert forall|i: int| resolves(defs, t, i) implies i == j by {
        assert(defs[i].name == g.references[k].name);
    }
    let c = choose|c: int| resolves(defs, t, c) && forall|i: int| resolves(defs, t, i) ==> i == c;
    assert(c == j);
}

/// In a graph built from `tags`, a reference bound to a definition is bound
/// to the only definition with its name whose kind it may reach (calls reach
/// functions, methods and macros; type uses reach types, interfaces and
/// modules; other references their own kind).
pub proof fn lemma_bound_reference_is_sole_candidate(g: GraphView, tags: Seq<TagView>, k: int)
    requires
        built_from(g, tags),
        0 <= k < g.references.len(),
        g.definitions.len() < u32::MAX,
    ensures
        g.references[k].definition matches Some(d) ==> {
            &&& d < g.definitions.len()
            &&& g.definitions[d as int].name == g.references[k].name
            &&& match g.references[k].kind {
                SymbolKind::Function => g.definitions[d as int].kind == SymbolKind::Function || g.definitions[d as int].kind
                    == SymbolKind::Method || g.definitions[d as int].kind == SymbolKind::Macro,
                SymbolKind::Type => g.definitions[d as int].kind == SymbolKind::Type || g.definitions[d as int].kind
                    == SymbolKind::Interface || g.definitions[d as int].kind == SymbolKind::Module,
                _ => g.definitions[d as int].kind == g.references[k].kind,
            }
            &&& forall|i: int|
                0 <= i < g.definitions.len() && (#[trigger] g.definitions[i]).name == g.references[k].name && (match g.references[k].kind {
                    SymbolKind::Function => g.definitions[i].kind == SymbolKind::Function || g.definitions[i].kind
                        == SymbolKind::Method || g.definitions[i].kind == SymbolKind::Macro,
                    SymbolKind::Type => g.definitions[i].kind == SymbolKind::Type || g.definitions[i].kind
                        == SymbolKind::Interface || g.definitions[i].kind == SymbolKind::Module,
                    _ => g.definitions[i].kind == g.references[k].kind,
                }) ==> i == d
        },
{
    let defs = g.definitions;
    let t = reference_tags(tags)[k];
    assert(g.references[k] == reference_of(defs, t));
    if exists|j: int| resolves(defs, t, j) && forall|i: int| resolves(defs, t, i) ==> i == j {
        let j = choose|j: int| resolves(defs, t, j) && forall|i: int| resolves(defs, t, i) ==> i == j;
        assert((j as u32) as int == j);
        assert forall|i: int|
            0 <= i < defs.len() && (#[trigger] defs[i]).name == g.references[k].name && (match g.references[k].kind {
                SymbolKind::Function => defs[i].kind == SymbolKind::Function || defs[i].kind == SymbolKind::Method
                    || defs[i].kind == SymbolKind::Macro,
                SymbolKind::Type => defs[i].kind == SymbolKind::Type || defs[i].kind == SymbolKind::Interface
                    || defs[i].kind == SymbolKind::Module,
                _ => defs[i].kind == g.references[k].kind,
            }) implies i == j by {
            assert(resolves(defs, t, i));
        }
    }
}

} // verus!
