//! Language-agnostic syntax trees with byte ranges.

use vstd::prelude::*;

use crate::strings::text_eq;
use crate::text::{ByteRange, Revision};

verus! {

/// A language-agnostic named syntax node with UTF-8 byte ranges.
#[derive(Debug, PartialEq, Eq)]
pub struct SyntaxNode {
    kind: String,
    range: ByteRange,
    children: Vec<SyntaxNode>,
}

/// The first node of kind `kind` in pre-order (the node itself, then each
/// child's subtree in turn).
pub open spec fn spec_find(n: SyntaxNode, kind: Seq<char>) -> Option<SyntaxNode>
    decreases n,
{
    if n.spec_kind() == kind {
        Some(n)
    } else {
        spec_find_in(n.spec_children(), kind)
    }
}

/// The first node of kind `kind` in the subtrees of `nodes`, in order.
pub open spec fn spec_find_in(nodes: Seq<SyntaxNode>, kind: Seq<char>) -> Option<SyntaxNode>
    decreases nodes,
{
    if nodes.len() == 0 {
        None
    } else {
        proof {
            assert(decreases_to!(nodes => nodes[0]));
            assert(decreases_to!(nodes => nodes.subrange(1, nodes.len() as int)));
        }
        match spec_find(nodes[0], kind) {
            Some(found) => Some(found),
            None => spec_find_in(nodes.subrange(1, nodes.len() as int), kind),
        }
    }
}

/// The number of nodes in the tree rooted at `n`.
pub open spec fn spec_count(n: SyntaxNode) -> nat
    decreases n,
{
    1 + spec_count_in(n.spec_children())
}

/// The number of nodes in the subtrees of `nodes`.
pub open spec fn spec_count_in(nodes: Seq<SyntaxNode>) -> nat
    decreases nodes,
{
    if nodes.len() == 0 {
        0
    } else {
        proof {
            assert(decreases_to!(nodes => nodes[0]));
            assert(decreases_to!(nodes => nodes.subrange(1, nodes.len() as int)));
        }
        spec_count(nodes[0]) + spec_count_in(nodes.subrange(1, nodes.len() as int))
    }
}

impl SyntaxNode {
    pub closed spec fn spec_kind(self) -> Seq<char> {
        self.kind@
    }

    pub closed spec fn spec_range(self) -> ByteRange {
        self.range
    }

    pub closed spec fn spec_children(self) -> Seq<SyntaxNode> {
        self.children@
    }

    pub broadcast proof fn lemma_children_decrease(self)
        ensures
            #[trigger] decreases_to!(self => self.spec_children()),
    {
        assert(decreases_to!(self => self.children));
        assert(decreases_to!(self.children => self.children@));
    }

    pub fn new(kind: &str, range: ByteRange, children: Vec<Self>) -> (node: Self)
        ensures
            node.spec_kind() == kind@,
            node.spec_range() == range,
            node.spec_children() == children@,
    {
        SyntaxNode { kind: kind.to_owned(), range, children }
    }

    pub fn kind(&self) -> (kind: &str)
        ensures
            kind@ == self.spec_kind(),
    {
        self.kind.as_str()
    }

    pub fn range(&self) -> (range: ByteRange)
        ensures
            range == self.spec_range(),
    {
        self.range
    }

    pub fn children(&self) -> (children: &[SyntaxNode])
        ensures
            children@ == self.spec_children(),
    {
        self.children.as_slice()
    }

    /// The first node of kind `kind` in pre-order.
    pub fn find_kind(&self, kind: &str) -> (found: Option<&SyntaxNode>)
        ensures
            match found {
                Some(node) => spec_find(*self, kind@) == Some(*node),
                None => spec_find(*self, kind@) is None,
            },
        decreases *self,
    {
        if text_eq(self.kind.as_str(), kind) {
            return Some(self);
        }
        let mut i: usize = 0;
        assert(self.children@.subrange(0, self.children@.len() as int) =~= self.children@);
        while i < self.children.len()
            invariant
                0 <= i <= self.children@.len(),
                self.spec_kind() != kind@,
                spec_find(*self, kind@) == spec_find_in(self.children@.subrange(i as int, self.children@.len() as int), kind@),
            decreases self.children@.len() - i,
        {
            let ghost rest = self.children@.subrange(i as int, self.children@.len() as int);
            assert(rest[0] == self.children@[i as int]);
            assert(rest.subrange(1, rest.len() as int) =~= self.children@.subrange(i + 1, self.children@.len() as int));
            proof {
                assert(decreases_to!(self => self.children));
                assert(decreases_to!(self.children => self.children@));
                assert(decreases_to!(self.children@ => self.children@[i as int]));
            }
            match self.children[i].find_kind(kind) {
                Some(found) => return Some(found),
                None => {},
            }
            i = i + 1;
        }
        None
    }

    /// The number of nodes in this subtree.
    pub fn named_node_count(&self) -> (count: usize)
        requires
            spec_count(*self) <= usize::MAX,
        ensures
            count == spec_count(*self),
        decreases *self,
    {
        let mut total: usize = 1;
        let mut i: usize = 0;
        proof {
            assert(self.children@.subrange(0, self.children@.len() as int) =~= self.children@);
        }
        while i < self.children.len()
            invariant
                0 <= i <= self.children@.len(),
                spec_count(*self) <= usize::MAX,
                spec_count(*self) == total + spec_count_in(self.children@.subrange(i as int, self.children@.len() as int)),
            decreases self.children@.len() - i,
        {
            let ghost rest = self.children@.subrange(i as int, self.children@.len() as int);
            assert(rest[0] == self.children@[i as int]);
            assert(rest.subrange(1, rest.len() as int) =~= self.children@.subrange(i + 1, self.children@.len() as int));
            proof {
                assert(decreases_to!(self => self.children));
                assert(decreases_to!(self.children => self.children@));
                assert(decreases_to!(self.children@ => self.children@[i as int]));
            }
            let sub = self.children[i].named_node_count();
            total = total + sub;
            i = i + 1;
        }
        total
    }
}

/// A syntax tree for one document revision.
#[derive(Clone, Debug, PartialEq, Eq)]
pub struct SyntaxTree {
    revision: Revision,
    root: SyntaxNode,
}

impl SyntaxTree {
    pub closed spec fn spec_revision(self) -> Revision {
        self.revision
    }

    pub closed spec fn spec_root(self) -> SyntaxNode {
        self.root
    }

    pub fn new(revision: Revision, root: SyntaxNode) -> (tree: Self)
        ensures
            tree.spec_revision() == revision,
            tree.spec_root() == root,
    {
        SyntaxTree { revision, root }
    }

    pub fn revision(&self) -> (revision: Revision)
        ensures
            revision == self.spec_revision(),
    {
        self.revision
    }

    pub fn root(&self) -> (root: &SyntaxNode)
        ensures
            *root == self.spec_root(),
    {
        &self.root
    }
}

/// One node as a pre-order listing gives it: its kind, its byte range and
/// how many children it has.
pub open spec fn entry_of(n: SyntaxNode) -> (Seq<char>, usize, usize, usize) {
    (n.spec_kind(), n.spec_range().start.0, n.spec_range().end.0, n.spec_children().len() as usize)
}

/// The tree rooted at `n` in pre-order: the node, then each child's subtree
/// in turn.
pub open spec fn preorder(n: SyntaxNode) -> Seq<(Seq<char>, usize, usize, usize)>
    decreases n,
{
    seq![entry_of(n)] + preorder_all(n.spec_children())
}

/// The subtrees of `nodes` in pre-order, one after another.
pub open spec fn preorder_all(nodes: Seq<SyntaxNode>) -> Seq<(Seq<char>, usize, usize, usize)>
    decreases nodes,
{
    if nodes.len() == 0 {
        Seq::empty()
    } else {
        proof {
            assert(decreases_to!(nodes => nodes[nodes.len() - 1]));
            assert(decreases_to!(nodes => nodes.subrange(0, nodes.len() - 1)));
        }
        preorder_all(nodes.subrange(0, nodes.len() - 1)) + preorder(nodes[nodes.len() - 1])
    }
}

/// A pre-order listing as plain values.
pub open spec fn listing(nodes: Seq<(String, usize, usize, usize)>) -> Seq<(Seq<char>, usize, usize, usize)> {
    nodes.map_values(|e: (String, usize, usize, usize)| (e.0@, e.1, e.2, e.3))
}

/// The tree rooted at `n` is what `l` lists from `i` on.
pub open spec fn lists_at(n: SyntaxNode, l: Seq<(Seq<char>, usize, usize, usize)>, i: int) -> bool {
    &&& 0 <= i
    &&& i + preorder(n).len() <= l.len()
    &&& l.subrange(i, i + preorder(n).len()) == preorder(n)
}

/// Listing the first `k + 1` subtrees is listing the first `k`, then the
/// subtree at `k`.
proof fn lemma_preorder_all_step(nodes: Seq<SyntaxNode>, k: int)
    requires
        0 <= k < nodes.len(),
    ensures
        preorder_all(nodes.take(k + 1)) == preorder_all(nodes.take(k)) + preorder(nodes[k]),
{
    assert(nodes.take(k + 1).subrange(0, k) =~= nodes.take(k));
}

/// The listing of the first `k` subtrees starts the listing of them all.
proof fn lemma_preorder_all_prefix(nodes: Seq<SyntaxNode>, k: int)
    requires
        0 <= k <= nodes.len(),
    ensures
        preorder_all(nodes.take(k)).len() <= preorder_all(nodes).len(),
        preorder_all(nodes).subrange(0, preorder_all(nodes.take(k)).len() as int) == preorder_all(nodes.take(k)),
    decreases nodes.len() - k,
{
    if k == nodes.len() {
        assert(nodes.take(k) =~= nodes);
        assert(preorder_all(nodes).subrange(0, preorder_all(nodes).len() as int) =~= preorder_all(nodes));
    } else {
        lemma_preorder_all_prefix(nodes, k + 1);
        lemma_preorder_all_step(nodes, k);
        let short = preorder_all(nodes.take(k));
        let long = preorder_all(nodes.take(k + 1));
        assert(preorder_all(nodes).subrange(0, short.len() as int) =~= long.subrange(0, short.len() as int));
        assert(long.subrange(0, short.len() as int) =~= short);
    }
}

/// Builds the subtree whose listing starts at `i`; returns it and where its
/// listing ends. Where `model` is a tree listed from `i` on, its listing
/// ends where the model's does.
fn build_at(nodes: &Vec<(String, usize, usize, usize)>, i: usize, Ghost(model): Ghost<Option<SyntaxNode>>) -> (built:
    Option<(SyntaxNode, usize)>)
    ensures
        built matches Some((n, next)) ==> i < next <= nodes@.len() && preorder(n) == listing(nodes@).subrange(
            i as int,
            next as int,
        ),
        model is Some && lists_at(model->0, listing(nodes@), i as int) ==> (built matches Some((_, next)) && next
            == i + preorder(model->0).len()),
    decreases nodes@.len() - i,
{
    let ghost l = listing(nodes@);
    let ghost fits = model is Some && lists_at(model->0, l, i as int);
    let ghost m = model->0;
    let ghost kids = m.spec_children();
    if i >= nodes.len() {
        return None;
    }
    let count = nodes[i].3;
    proof {
        if fits {
            assert(preorder(m)[0] == entry_of(m));
            assert(l[i as int] == l.subrange(i as int, i + preorder(m).len())[0]);
            assert(m.children.len() == m.children@.len());
            assert(count == kids.len());
            assert(kids.take(0) =~= Seq::<SyntaxNode>::empty());
        }
    }
    let mut children: Vec<SyntaxNode> = Vec::new();
    let mut pos = i + 1;
    let mut c: usize = 0;
    assert(children@.len() == 0);
    assert(preorder_all(children@) =~= listing(nodes@).subrange(i + 1, pos as int));
    while c < count
        invariant
            i < pos <= nodes@.len(),
            children@.len() == c,
            c <= count,
            l == listing(nodes@),
            fits == (model is Some && lists_at(model->0, l, i as int)),
            preorder_all(children@) == listing(nodes@).subrange(i + 1, pos as int),
            fits ==> model == Some(m) && lists_at(m, l, i as int) && kids == m.spec_children() && count == kids.len()
                && pos == i + 1 + preorder_all(kids.take(c as int)).len(),
        decreases count - c,
    {
        let ghost hint: Option<SyntaxNode> = if fits {
            Some(kids[c as int])
        } else {
            None
        };
        proof {
            if fits {
                let child = kids[c as int];
                let whole = preorder(m);
                let before = preorder_all(kids.take(c as int));
                let after = preorder_all(kids.take(c + 1));
                lemma_preorder_all_step(kids, c as int);
                lemma_preorder_all_prefix(kids, c + 1);
                assert(whole == seq![entry_of(m)] + preorder_all(kids));
                assert forall|t: int| 0 <= t < preorder(child).len() implies l[pos + t] == preorder(child)[t] by {
                    assert(after[before.len() + t] == preorder(child)[t]);
                    assert(preorder_all(kids)[before.len() + t] == after[before.len() + t]);
                    assert(whole[1 + before.len() + t] == preorder_all(kids)[before.len() + t]);
                    assert(l.subrange(i as int, i + whole.len())[1 + before.len() + t] == whole[1 + before.len() + t]);
                }
                assert(l.subrange(pos as int, pos + preorder(child).len()) =~= preorder(child));
                assert(lists_at(child, l, pos as int));
            }
        }
        match build_at(nodes, pos, Ghost(hint)) {
            Some((child, next)) => {
                let ghost before = children@;
                children.push(child);
                assert(children@.subrange(0, children@.len() - 1) =~= before);
                assert(listing(nodes@).subrange(i + 1, next as int) =~= listing(nodes@).subrange(i + 1, pos as int)
                    + listing(nodes@).subrange(pos as int, next as int));
                proof {
                    if fits {
                        lemma_preorder_all_step(kids, c as int);
                    }
                }
                pos = next;
            },
            None => {
                return None;
            },
        }
        c = c + 1;
    }
    proof {
        if fits {
            assert(kids.take(count as int) =~= kids);
        }
    }
    let node = SyntaxNode::new(
        nodes[i].0.as_str(),
        ByteRange { start: crate::text::ByteOffset(nodes[i].1), end: crate::text::ByteOffset(nodes[i].2) },
        children,
    );
    assert(listing(nodes@).subrange(i as int, pos as int) =~= seq![entry_of(node)] + listing(nodes@).subrange(
        i + 1,
        pos as int,
    ));
    Some((node, pos))
}

/// The tree a pre-order listing describes (kind, byte range and number of
/// children of each node): there is one exactly when the listing is the
/// pre-order of some tree.
pub fn from_preorder(nodes: &Vec<(String, usize, usize, usize)>) -> (tree: Option<SyntaxNode>)
    ensures
        tree matches Some(n) ==> preorder(n) == listing(nodes@),
        tree is Some <==> exists|n: SyntaxNode| preorder(n) == listing(nodes@),
{
    let ghost l = listing(nodes@);
    let ghost model: Option<SyntaxNode> = if exists|n: SyntaxNode| preorder(n) == l {
        Some(choose|n: SyntaxNode| preorder(n) == l)
    } else {
        None
    };
    proof {
        if model is Some {
            assert(l.subrange(0, preorder(model->0).len() as int) =~= l);
        }
    }
    match build_at(nodes, 0, Ghost(model)) {
        Some((node, next)) => {
            if next == nodes.len() {
                assert(listing(nodes@).subrange(0, next as int) =~= listing(nodes@));
                Some(node)
            } else {
                None
            }
        },
        None => None,
    }
}

/// A copy of the tree rooted at `n`.
fn copy_tree(n: &SyntaxNode) -> (copy: SyntaxNode)
    ensures
        preorder(copy) == preorder(*n),
    decreases *n,
{
    let mut children: Vec<SyntaxNode> = Vec::new();
    let mut i: usize = 0;
    while i < n.children.len()
        invariant
            0 <= i <= n.children@.len(),
            children@.len() == i,
            preorder_all(children@) == preorder_all(n.children@.subrange(0, i as int)),
        decreases n.children@.len() - i,
    {
        proof {
            assert(decreases_to!(*n => n.children));
            assert(decreases_to!(n.children => n.children@));
            assert(decreases_to!(n.children@ => n.children@[i as int]));
        }
        let child = copy_tree(&n.children[i]);
        let ghost before = children@;
        children.push(child);
        assert(children@.subrange(0, children@.len() - 1) =~= before);
        assert(n.children@.subrange(0, i + 1).subrange(0, i as int) =~= n.children@.subrange(0, i as int));
        i = i + 1;
    }
    assert(n.children@.subrange(0, n.children@.len() as int) =~= n.children@);
    SyntaxNode { kind: n.kind.clone(), range: n.range, children }
}

impl Clone for SyntaxNode {
    /// A copy of the whole tree.
    fn clone(&self) -> (copy: Self)
        ensures
            preorder(copy) == preorder(*self),
    {
        copy_tree(self)
    }
}

} // verus!
