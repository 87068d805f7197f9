//! A directory opened as a project: its tree of entries, which names it
//! leaves out, and the order entries are listed in. Reading the directory is
//! the caller's part.

use vstd::prelude::*;

use crate::chars::{lowercase, to_lowercase};
use crate::files::{file_name_of, spec_file_name};
use crate::paths::{join_path, joined};
use crate::strings::{chars_le, lemma_chars_le_antisym, lemma_chars_le_total, lemma_chars_le_trans, str_le, text_eq};

verus! {

/// Directory created at a project root for the editor's own project files.
pub const PROJECT_METADATA_DIR: &'static str = ".atelier";

/// The navigable kind of a project entry.
#[derive(Clone, Copy, Debug, PartialEq, Eq, Structural)]
pub enum ProjectEntryKind {
    Directory,
    File,
}

/// One file or directory in a project tree.
pub struct ProjectEntry {
    name: String,
    path: String,
    kind: ProjectEntryKind,
    children: Vec<ProjectEntry>,
}

impl ProjectEntry {
    pub closed spec fn spec_name(self) -> Seq<char> {
        self.name@
    }

    pub closed spec fn spec_path(self) -> Seq<char> {
        self.path@
    }

    pub closed spec fn spec_kind(self) -> ProjectEntryKind {
        self.kind
    }

    pub closed spec fn spec_children(self) -> Seq<ProjectEntry> {
        self.children@
    }

    /// An entry keeps its shape: its name is its path's file name, a file
    /// has no children, and the children are listed in order, none of them
    /// ignored, each directly inside the entry under its own name.
    #[verifier::type_invariant]
    spec fn shaped(self) -> bool {
        &&& spec_file_name(self.path@) == Some(self.name@)
        &&& self.kind == ProjectEntryKind::File ==> self.children@.len() == 0
        &&& well_listed(self.children@)
        &&& all_in(self.children@, self.path@)
    }

    /// The file at `path`; none when the path names no file.
    pub fn file(path: String) -> (entry: Option<Self>)
        ensures
            match entry {
                Some(e) => {
                    &&& spec_file_name(path@) == Some(e.spec_name())
                    &&& e.spec_path() == path@
                    &&& e.spec_kind() == ProjectEntryKind::File
                    &&& e.spec_children().len() == 0
                },
                None => spec_file_name(path@) is None,
            },
    {
        let name = match file_name_of(path.as_str()) {
            Some(name) => name.to_owned(),
            None => {
                return None;
            },
        };
        let children: Vec<ProjectEntry> = Vec::new();
        Some(ProjectEntry { name, path, kind: ProjectEntryKind::File, children })
    }

    /// The directory at `path` holding `contents`: the contents not ignored,
    /// in listing order. None when the path names no directory or an entry
    /// of `contents` does not sit directly in it under its own name.
    pub fn directory(path: String, contents: Vec<ProjectEntry>) -> (entry: Option<Self>)
        ensures
            entry is Some == (spec_file_name(path@) is Some && all_in(contents@, path@)),
            entry matches Some(e) ==> {
                &&& spec_file_name(path@) == Some(e.spec_name())
                &&& e.spec_path() == path@
                &&& e.spec_kind() == ProjectEntryKind::Directory
                &&& e.spec_children().to_multiset() == shown(contents@).to_multiset()
                &&& well_listed(e.spec_children())
            },
    {
        let name = match file_name_of(path.as_str()) {
            Some(name) => name.to_owned(),
            None => {
                return None;
            },
        };
        let children = match listed_contents(path.as_str(), contents) {
            Some(children) => children,
            None => {
                return None;
            },
        };
        Some(ProjectEntry { name, path, kind: ProjectEntryKind::Directory, children })
    }

    pub fn name(&self) -> (name: &str)
        ensures
            name@ == self.spec_name(),
            spec_file_name(self.spec_path()) == Some(name@),
    {
        proof {
            use_type_invariant(self);
        }
        self.name.as_str()
    }

    pub fn path(&self) -> (path: &str)
        ensures
            path@ == self.spec_path(),
    {
        self.path.as_str()
    }

    pub fn kind(&self) -> (kind: ProjectEntryKind)
        ensures
            kind == self.spec_kind(),
    {
        self.kind
    }

    pub fn children(&self) -> (children: &[ProjectEntry])
        ensures
            children@ == self.spec_children(),
            self.spec_kind() == ProjectEntryKind::File ==> children@.len() == 0,
            well_listed(children@),
            all_in(children@, self.spec_path()),
    {
        proof {
            use_type_invariant(self);
        }
        self.children.as_slice()
    }
}

/// A directory opened as a project.
pub struct Project {
    root: String,
    entries: Vec<ProjectEntry>,
}

impl Project {
    pub closed spec fn spec_root(self) -> Seq<char> {
        self.root@
    }

    pub closed spec fn spec_entries(self) -> Seq<ProjectEntry> {
        self.entries@
    }

    /// The entries are listed in order, none ignored, each directly in the
    /// root under its own name.
    #[verifier::type_invariant]
    spec fn shaped(self) -> bool {
        well_listed(self.entries@) && all_in(self.entries@, self.root@)
    }

    /// The project at `root` holding `contents`: the contents not ignored,
    /// in listing order. None when an entry of `contents` does not sit
    /// directly in the root under its own name.
    pub fn new(root: String, contents: Vec<ProjectEntry>) -> (project: Option<Self>)
        ensures
            project is Some == all_in(contents@, root@),
            project matches Some(p) ==> {
                &&& p.spec_root() == root@
                &&& p.spec_entries().to_multiset() == shown(contents@).to_multiset()
                &&& well_listed(p.spec_entries())
            },
    {
        match listed_contents(root.as_str(), contents) {
            Some(entries) => Some(Project { root, entries }),
            None => None,
        }
    }

    pub fn root(&self) -> (root: &str)
        ensures
            root@ == self.spec_root(),
    {
        self.root.as_str()
    }

    pub fn entries(&self) -> (entries: &[ProjectEntry])
        ensures
            entries@ == self.spec_entries(),
            well_listed(entries@),
            all_in(entries@, self.spec_root()),
    {
        proof {
            use_type_invariant(self);
        }
        self.entries.as_slice()
    }
}

/// Repository and build internals, and the editor's own metadata, stay out
/// of the tree.
pub open spec fn spec_is_ignored(name: Seq<char>) -> bool {
    name == ".git"@ || name == "target"@ || name == PROJECT_METADATA_DIR@
}

pub fn is_ignored(name: &str) -> (ignored: bool)
    ensures
        ignored == spec_is_ignored(name@),
{
    text_eq(name, ".git") || text_eq(name, "target") || text_eq(name, PROJECT_METADATA_DIR)
}

pub open spec fn kind_rank(kind: ProjectEntryKind) -> int {
    match kind {
        ProjectEntryKind::Directory => 0,
        ProjectEntryKind::File => 1,
    }
}

/// `a` may be listed before `b`: directories first, then by name ignoring
/// case, then by name.
pub open spec fn listed_before(a: ProjectEntry, b: ProjectEntry) -> bool {
    let (la, lb) = (lowercase(a.spec_name()), lowercase(b.spec_name()));
    ||| kind_rank(a.spec_kind()) < kind_rank(b.spec_kind())
    ||| kind_rank(a.spec_kind()) == kind_rank(b.spec_kind()) && la != lb && chars_le(la, lb)
    ||| kind_rank(a.spec_kind()) == kind_rank(b.spec_kind()) && la == lb && chars_le(a.spec_name(), b.spec_name())
}

pub proof fn lemma_listed_before_total(a: ProjectEntry, b: ProjectEntry)
    ensures
        listed_before(a, b) || listed_before(b, a),
{
    lemma_chars_le_total(lowercase(a.spec_name()), lowercase(b.spec_name()));
    lemma_chars_le_total(a.spec_name(), b.spec_name());
}

pub proof fn lemma_listed_before_trans(a: ProjectEntry, b: ProjectEntry, c: ProjectEntry)
    requires
        listed_before(a, b),
        listed_before(b, c),
    ensures
        listed_before(a, c),
{
    let (la, lb, lc) = (lowercase(a.spec_name()), lowercase(b.spec_name()), lowercase(c.spec_name()));
    if chars_le(la, lb) && chars_le(lb, lc) {
        lemma_chars_le_trans(la, lb, lc);
    }
    if chars_le(a.spec_name(), b.spec_name()) && chars_le(b.spec_name(), c.spec_name()) {
        lemma_chars_le_trans(a.spec_name(), b.spec_name(), c.spec_name());
    }
    if la == lc && la != lb && chars_le(la, lb) && chars_le(lb, lc) {
        lemma_chars_le_antisym(la, lb);
    }
}

/// The entries are listed in order.
pub open spec fn is_listed(entries: Seq<ProjectEntry>) -> bool {
    forall|i: int, j: int| 0 <= i < j < entries.len() ==> listed_before(entries[i], entries[j])
}

fn comes_before(a: &ProjectEntry, b: &ProjectEntry) -> (yes: bool)
    ensures
        yes == listed_before(*a, *b),
{
    let ra: u8 = match a.kind {
        ProjectEntryKind::Directory => 0,
        ProjectEntryKind::File => 1,
    };
    let rb: u8 = match b.kind {
        ProjectEntryKind::Directory => 0,
        ProjectEntryKind::File => 1,
    };
    if ra != rb {
        return ra < rb;
    }
    let la = to_lowercase(a.name.as_str());
    let lb = to_lowercase(b.name.as_str());
    if !text_eq(la.as_str(), lb.as_str()) {
        return str_le(la.as_str(), lb.as_str());
    }
    str_le(a.name.as_str(), b.name.as_str())
}

/// The entries in listing order: directories first, then by name ignoring
/// case, then by name.
pub fn sort_entries(entries: Vec<ProjectEntry>) -> (sorted: Vec<ProjectEntry>)
    ensures
        sorted@.to_multiset() == entries@.to_multiset(),
        is_listed(sorted@),
{
    let ghost all = entries@;
    let mut rest = entries;
    let mut sorted: Vec<ProjectEntry> = Vec::new();
    let ghost mut taken: int = 0;
    assert(all.skip(0) =~= all);
    assert(all.take(0) =~= sorted@);
    while rest.len() > 0
        invariant
            0 <= taken <= all.len(),
            rest@ == all.skip(taken),
            sorted@.to_multiset() == all.take(taken).to_multiset(),
            is_listed(sorted@),
        decreases rest@.len(),
    {
        let entry = rest.remove(0);
        let mut k: usize = 0;
        while k < sorted.len() && comes_before(&sorted[k], &entry)
            invariant
                0 <= k <= sorted@.len(),
                forall|i: int| 0 <= i < k ==> listed_before(#[trigger] sorted@[i], entry),
            decreases sorted@.len() - k,
        {
            k = k + 1;
        }
        let ghost before = sorted@;
        sorted.insert(k, entry);
        proof {
            if k < before.len() {
                lemma_listed_before_total(before[k as int], entry);
                assert forall|j: int| k <= j < before.len() implies listed_before(entry, before[j]) by {
                    if j > k {
                        lemma_listed_before_trans(entry, before[k as int], before[j]);
                    }
                }
            }
            assert forall|i: int, j: int| 0 <= i < j < sorted@.len() implies listed_before(sorted@[i], sorted@[j]) by {
                if i < k && j == k {
                } else if i < k && j > k {
                    lemma_listed_before_trans(sorted@[i], entry, sorted@[j]);
                }
            }
            vstd::seq_lib::to_multiset_insert(before, k as int, entry);
            assert(all.take(taken + 1) =~= all.take(taken).push(all[taken]));
            vstd::seq_lib::to_multiset_build(all.take(taken), all[taken]);
            assert(rest@ =~= all.skip(taken + 1));
            taken = taken + 1;
        }
    }
    assert(all.take(taken) =~= all);
    sorted
}

/// Whether an entry is shown: its name is not one left out.
pub open spec fn shown_entry() -> spec_fn(ProjectEntry) -> bool {
    |e: ProjectEntry| !spec_is_ignored(e.spec_name())
}

/// The entries of `entries` that are shown, in order.
pub open spec fn shown(entries: Seq<ProjectEntry>) -> Seq<ProjectEntry> {
    entries.filter(shown_entry())
}

/// The entries are listed in order and none of them is left out.
pub open spec fn well_listed(entries: Seq<ProjectEntry>) -> bool {
    &&& is_listed(entries)
    &&& forall|i: int| 0 <= i < entries.len() ==> !spec_is_ignored(#[trigger] entries[i].spec_name())
}

/// Each entry sits directly in `dir` under its own name.
pub open spec fn all_in(entries: Seq<ProjectEntry>, dir: Seq<char>) -> bool {
    forall|i: int| 0 <= i < entries.len() ==> (#[trigger] entries[i]).spec_path() == joined(dir, entries[i].spec_name())
}

/// The shown entries of `contents`, in listing order, when each sits
/// directly in `dir` under its own name.
fn listed_contents(dir: &str, contents: Vec<ProjectEntry>) -> (listed: Option<Vec<ProjectEntry>>)
    ensures
        listed is Some == all_in(contents@, dir@),
        listed matches Some(l) ==> {
            &&& l@.to_multiset() == shown(contents@).to_multiset()
            &&& well_listed(l@)
            &&& all_in(l@, dir@)
        },
{
    let ghost all = contents@;
    let mut i: usize = 0;
    while i < contents.len()
        invariant
            0 <= i <= contents@.len(),
            forall|j: int| 0 <= j < i ==> (#[trigger] contents@[j]).spec_path() == joined(dir@, contents@[j].spec_name()),
        decreases contents@.len() - i,
    {
        let expected = join_path(dir, contents[i].name());
        if !text_eq(contents[i].path(), expected.as_str()) {
            return None;
        }
        i = i + 1;
    }
    let ghost pred = shown_entry();
    let mut rest = contents;
    let mut kept: Vec<ProjectEntry> = Vec::new();
    let ghost mut taken: int = 0;
    assert(all.take(0).filter(pred) =~= Seq::<ProjectEntry>::empty()) by {
        reveal_with_fuel(Seq::filter, 1);
    }
    assert(all.skip(0) =~= all);
    while rest.len() > 0
        invariant
            0 <= taken <= all.len(),
            rest@ == all.skip(taken),
            kept@ == all.take(taken).filter(pred),
            pred == shown_entry(),
        decreases rest@.len(),
    {
        let entry = rest.remove(0);
        proof {
            assert(entry == all[taken]);
            assert(all.take(taken + 1) =~= all.take(taken).push(all[taken]));
            all.take(taken).lemma_filter_push(all[taken], pred);
            assert(rest@ =~= all.skip(taken + 1));
        }
        if !is_ignored(entry.name()) {
            kept.push(entry);
        }
        proof {
            taken = taken + 1;
        }
    }
    assert(all.take(taken) =~= all);
    let ghost filtered = kept@;
    proof {
        all.filter_lemma(pred);
    }
    let sorted = sort_entries(kept);
    proof {
        sorted@.to_multiset_ensures();
        filtered.to_multiset_ensures();
        assert(filtered == all.filter(pred));
        assert forall|k: int| 0 <= k < sorted@.len() implies filtered.contains(#[trigger] sorted@[k]) by {
            assert(sorted@.contains(sorted@[k]));
            assert(sorted@.to_multiset().count(sorted@[k]) > 0);
            assert(filtered.to_multiset().count(sorted@[k]) > 0);
        }
        assert forall|k: int| 0 <= k < sorted@.len() implies !spec_is_ignored(#[trigger] sorted@[k].spec_name())
            && sorted@[k].spec_path() == joined(dir@, sorted@[k].spec_name()) by {
            let x = sorted@[k];
            assert(filtered.contains(x));
            let a = choose|a: int| 0 <= a < filtered.len() && filtered[a] == x;
            all.lemma_filter_pred(pred, a);
            all.lemma_filter_contains_rev(pred, x);
            assert(all.contains(x));
            let b = choose|b: int| 0 <= b < all.len() && all[b] == x;
            assert(all[b].spec_path() == joined(dir@, all[b].spec_name()));
        }
    }
    Some(sorted)
}

/// One row of the project explorer: an entry and how deeply it is nested.
pub struct FlatEntry {
    pub path: String,
    pub name: String,
    pub depth: usize,
    pub is_directory: bool,
}

/// What a row holds, as plain values: name, path, depth, and whether it is
/// a directory.
pub open spec fn row_view(row: FlatEntry) -> (Seq<char>, Seq<char>, nat, bool) {
    (row.name@, row.path@, row.depth as nat, row.is_directory)
}

/// The rows of a sequence of rows, as plain values.
pub open spec fn rows_view(rows: Seq<FlatEntry>) -> Seq<(Seq<char>, Seq<char>, nat, bool)> {
    rows.map_values(|row: FlatEntry| row_view(row))
}

/// The rows for `entries` nested `depth` deep, in order: each entry, then
/// the rows of its children one level deeper.
pub closed spec fn flat_rows(entries: Seq<ProjectEntry>, depth: nat) -> Seq<(Seq<char>, Seq<char>, nat, bool)>
    decreases entries,
{
    if entries.len() == 0 {
        Seq::empty()
    } else {
        entry_rows(entries[0], depth) + flat_rows(entries.drop_first(), depth)
    }
}

/// The row of `entry` at `depth`, then the rows of its children.
pub closed spec fn entry_rows(entry: ProjectEntry, depth: nat) -> Seq<(Seq<char>, Seq<char>, nat, bool)>
    decreases entry,
{
    seq![(entry.name@, entry.path@, depth, entry.kind == ProjectEntryKind::Directory)] + flat_rows(
        entry.children@,
        depth + 1,
    )
}

/// How many entries the trees of `entries` hold, all levels counted.
pub closed spec fn tree_size(entries: Seq<ProjectEntry>) -> nat
    decreases entries,
{
    if entries.len() == 0 {
        0
    } else {
        entry_size(entries[0]) + tree_size(entries.drop_first())
    }
}

/// `entry` and everything below it.
pub closed spec fn entry_size(entry: ProjectEntry) -> nat
    decreases entry,
{
    1 + tree_size(entry.children@)
}

proof fn lemma_flat_rows_concat(a: Seq<ProjectEntry>, b: Seq<ProjectEntry>, depth: nat)
    ensures
        flat_rows(a + b, depth) == flat_rows(a, depth) + flat_rows(b, depth),
    decreases a.len(),
{
    if a.len() == 0 {
        assert(a + b =~= b);
        assert(flat_rows(a, depth) =~= Seq::empty());
    } else {
        assert((a + b).drop_first() =~= a.drop_first() + b);
        lemma_flat_rows_concat(a.drop_first(), b, depth);
        assert(flat_rows(a + b, depth) =~= flat_rows(a, depth) + flat_rows(b, depth));
    }
}

proof fn lemma_size_holds_each(s: Seq<ProjectEntry>, i: int)
    requires
        0 <= i < s.len(),
    ensures
        entry_size(s[i]) <= tree_size(s),
    decreases s.len(),
{
    if i > 0 {
        lemma_size_holds_each(s.drop_first(), i - 1);
        assert(s.drop_first()[i - 1] == s[i]);
    }
}

/// Appends the rows of `entries` at `depth` to `output`.
fn append_rows(entries: &[ProjectEntry], depth: usize, output: &mut Vec<FlatEntry>)
    requires
        depth + tree_size(entries@) <= usize::MAX,
    ensures
        rows_view(final(output)@) == rows_view(old(output)@) + flat_rows(entries@, depth as nat),
    decreases tree_size(entries@),
{
    let mut i: usize = 0;
    assert(entries@.take(0) =~= Seq::<ProjectEntry>::empty());
    assert(rows_view(output@) =~= rows_view(old(output)@) + flat_rows(entries@.take(0), depth as nat));
    while i < entries.len()
        invariant
            0 <= i <= entries@.len(),
            depth + tree_size(entries@) <= usize::MAX,
            rows_view(output@) == rows_view(old(output)@) + flat_rows(entries@.take(i as int), depth as nat),
        decreases entries@.len() - i,
    {
        let entry = &entries[i];
        proof {
            lemma_size_holds_each(entries@, i as int);
            assert(entries@.take(i + 1) =~= entries@.take(i as int) + seq![entries@[i as int]]);
            lemma_flat_rows_concat(entries@.take(i as int), seq![entries@[i as int]], depth as nat);
            let one = seq![entries@[i as int]];
            assert(one.drop_first() =~= Seq::<ProjectEntry>::empty());
            assert(flat_rows(Seq::<ProjectEntry>::empty(), depth as nat) =~= Seq::empty());
            assert(flat_rows(one, depth as nat) =~= entry_rows(*entry, depth as nat));
        }
        let ghost before = output@;
        output.push(
            FlatEntry {
                path: entry.path.clone(),
                name: entry.name.clone(),
                depth,
                is_directory: entry.kind == ProjectEntryKind::Directory,
            },
        );
        assert(rows_view(output@) =~= rows_view(before).push(row_view(output@.last())));
        append_rows(entry.children.as_slice(), depth + 1, output);
        assert(rows_view(output@) =~= rows_view(old(output)@) + flat_rows(entries@.take(i + 1), depth as nat));
        i = i + 1;
    }
    assert(entries@.take(entries@.len() as int) =~= entries@);
}

impl Project {
    /// Every entry of the tree, one row each, in the order the explorer
    /// shows them: each entry, then its children one level deeper.
    pub fn flattened_entries(&self) -> (rows: Vec<FlatEntry>)
        requires
            tree_size(self.spec_entries()) <= usize::MAX,
        ensures
            rows_view(rows@) == flat_rows(self.spec_entries(), 0),
    {
        let mut rows: Vec<FlatEntry> = Vec::new();
        append_rows(self.entries.as_slice(), 0, &mut rows);
        assert(rows_view(Seq::<FlatEntry>::empty()) =~= Seq::empty());
        rows
    }
}

} // verus!
