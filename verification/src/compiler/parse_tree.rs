//! The parse tree: an append-only arena of nodes with integer refs.
//!
//! A node is a terminal that wraps one token or a non-terminal that owns an
//! ordered list of child refs. Nodes are never removed or moved, so a ref
//! stays valid for as long as the tree lives.
//!
//! The mathematical value of an arena is the sequence of its nodes. The
//! first half of this file says over such sequences what a forest is, what
//! the pre-order of a subtree is and what an insertion does to both; the
//! second half holds the arena itself, `PTree`, and the handles by which a
//! finished tree is walked.

use crate::compiler::errors::StructuralViolation;
use crate::compiler::lexer::{Token, TokenView};
use vstd::prelude::*;

verus! {

/// The kinds of non-terminal nodes.
#[derive(Clone, Copy, Debug, PartialEq, Eq, Structural)]
pub enum NonTerminalType {
    Root,
    List,
}

/// What a node is, without its children: the token of a terminal or the kind
/// of a non-terminal.
#[derive(Debug, PartialEq, Eq)]
pub enum PTNodeType {
    Terminal(Token),
    NonTerminal(NonTerminalType),
}

/// The mathematical value of a `PTNodeType`.
pub enum NodeKind {
    Terminal(TokenView),
    NonTerminal(NonTerminalType),
}

impl View for PTNodeType {
    type V = NodeKind;

    open spec fn view(&self) -> NodeKind {
        match self {
            PTNodeType::Terminal(token) => NodeKind::Terminal(token@),
            PTNodeType::NonTerminal(node_type) => NodeKind::NonTerminal(*node_type),
        }
    }
}

/// A node to insert, with its subtree written out inline.
#[derive(Debug)]
pub enum PTNode {
    Terminal(Token),
    NonTerminal(PTNonTerminal),
}

/// A non-terminal to insert. `None` for the children means none.
#[derive(Debug)]
pub struct PTNonTerminal {
    node_type: NonTerminalType,
    children: Option<Vec<PTNode>>,
}

/// The mathematical value of a `PTNode`: a finite tree.
pub enum Subtree {
    Terminal(TokenView),
    NonTerminal(NonTerminalType, Seq<Subtree>),
}

impl View for PTNode {
    type V = Subtree;

    open spec fn view(&self) -> Subtree
        decreases self,
    {
        match self {
            PTNode::Terminal(token) => Subtree::Terminal(token@),
            PTNode::NonTerminal(non_terminal) => non_terminal@,
        }
    }
}

impl View for PTNonTerminal {
    type V = Subtree;

    closed spec fn view(&self) -> Subtree
        decreases self,
    {
        Subtree::NonTerminal(self.node_type, inline_views(self.children))
    }
}

/// The values of the nodes in an optional list of inline children, in order;
/// none for `None`.
pub open spec fn inline_views(children: Option<Vec<PTNode>>) -> Seq<Subtree>
    decreases children,
{
    match children {
        Some(children) => Seq::new(
            children.len() as nat,
            |i: int|
                if 0 <= i < children.len() {
                    children[i]@
                } else {
                    Subtree::NonTerminal(NonTerminalType::List, Seq::empty())
                },
        ),
        None => Seq::empty(),
    }
}

impl PTNonTerminal {
    /// A non-terminal of the given kind with the given inline children.
    pub fn new(node_type: NonTerminalType, children: Option<Vec<PTNode>>) -> (non_terminal:
        PTNonTerminal)
        ensures
            non_terminal@ == Subtree::NonTerminal(node_type, inline_views(children)),
    {
        PTNonTerminal { node_type, children }
    }
}

impl Subtree {
    /// The number of nodes in the tree.
    pub open spec fn size(self) -> nat
        decreases self, 0nat,
    {
        match self {
            Subtree::Terminal(_) => 1,
            Subtree::NonTerminal(_, children) => Self::sizes(children, children.len()) + 1,
        }
    }

    /// The number of nodes in the first `count` of `trees`.
    pub open spec fn sizes(trees: Seq<Subtree>, count: nat) -> nat
        decreases trees, count,
    {
        if 0 < count <= trees.len() {
            Self::sizes(trees, (count - 1) as nat) + trees[count - 1].size()
        } else {
            0
        }
    }

    /// The ref that the root of `trees[index]` gets when the trees are laid
    /// out one behind the other from `base` on: the last place of its block.
    pub open spec fn root_ref(trees: Seq<Subtree>, base: nat, index: int) -> nat {
        (base + Self::sizes(trees, (index + 1) as nat) - 1) as nat
    }

    /// The arena nodes that inserting the tree appends when the arena holds
    /// `base` nodes: first those of each child's subtree, in order, then the
    /// node itself, whose children are the refs of the children's roots.
    pub open spec fn flatten(self, base: nat) -> Seq<NodeView>
        decreases self, 0nat,
    {
        match self {
            Subtree::Terminal(token) => seq![NodeView::Terminal(token)],
            Subtree::NonTerminal(node_type, children) => Self::flatten_first(
                children,
                children.len(),
                base,
            ).push(
                NodeView::NonTerminal {
                    node_type,
                    children: Seq::new(
                        children.len(),
                        |i: int| Self::root_ref(children, base, i) as usize,
                    ),
                },
            ),
        }
    }

    /// The arena nodes of the first `count` of `trees`, laid out one behind
    /// the other from `base` on.
    pub open spec fn flatten_first(trees: Seq<Subtree>, count: nat, base: nat) -> Seq<NodeView>
        decreases trees, count,
    {
        if 0 < count <= trees.len() {
            Self::flatten_first(trees, (count - 1) as nat, base) + trees[count - 1].flatten(
                base + Self::sizes(trees, (count - 1) as nat),
            )
        } else {
            Seq::empty()
        }
    }

    /// The nodes of the tree in depth-first pre-order, each with its depth,
    /// where the root has depth `depth`.
    pub open spec fn preorder(self, depth: nat) -> Seq<(NodeKind, nat)>
        decreases self, 0nat,
    {
        match self {
            Subtree::Terminal(token) => seq![(NodeKind::Terminal(token), depth)],
            Subtree::NonTerminal(node_type, children) => seq![
                (NodeKind::NonTerminal(node_type), depth),
            ] + Self::preorder_first(children, children.len(), depth + 1),
        }
    }

    /// The pre-orders of the first `count` of `trees`, one behind the other,
    /// each root at depth `depth`.
    pub open spec fn preorder_first(trees: Seq<Subtree>, count: nat, depth: nat) -> Seq<
        (NodeKind, nat),
    >
        decreases trees, count,
    {
        if 0 < count <= trees.len() {
            Self::preorder_first(trees, (count - 1) as nat, depth) + trees[count - 1].preorder(
                depth,
            )
        } else {
            Seq::empty()
        }
    }

    /// A tree is laid out in as many arena nodes as it has nodes.
    pub proof fn lemma_flatten_len(self, base: nat)
        ensures
            self.flatten(base).len() == self.size(),
            self.size() >= 1,
        decreases self, 0nat,
    {
        match self {
            Subtree::Terminal(_) => {},
            Subtree::NonTerminal(_, children) => {
                Self::lemma_flatten_first_len(children, children.len(), base);
            },
        }
    }

    /// The first `count` trees are laid out in as many arena nodes as they
    /// have nodes.
    pub proof fn lemma_flatten_first_len(trees: Seq<Subtree>, count: nat, base: nat)
        ensures
            Self::flatten_first(trees, count, base).len() == Self::sizes(trees, count),
        decreases trees, count,
    {
        if 0 < count <= trees.len() {
            Self::lemma_flatten_first_len(trees, (count - 1) as nat, base);
            trees[count - 1].lemma_flatten_len(base + Self::sizes(trees, (count - 1) as nat));
        }
    }
}

/// A non-terminal as the arena holds it: its kind and the refs of its
/// children, in the order in which they were inserted.
#[derive(Debug)]
pub struct PTNonTerminalInternal {
    pub node_type: NonTerminalType,
    pub children: Vec<usize>,
}

/// A node as the arena holds it.
#[derive(Debug)]
pub enum PTNodeInternal {
    Terminal(Token),
    NonTerminal(PTNonTerminalInternal),
}

/// The mathematical value of an arena node.
pub enum NodeView {
    Terminal(TokenView),
    NonTerminal { node_type: NonTerminalType, children: Seq<usize> },
}

impl NodeView {
    /// The node without its children.
    pub open spec fn kind(self) -> NodeKind {
        match self {
            NodeView::Terminal(token) => NodeKind::Terminal(token),
            NodeView::NonTerminal { node_type, .. } => NodeKind::NonTerminal(node_type),
        }
    }
}

impl View for PTNonTerminalInternal {
    type V = NodeView;

    open spec fn view(&self) -> NodeView {
        NodeView::NonTerminal { node_type: self.node_type, children: self.children@ }
    }
}

impl View for PTNodeInternal {
    type V = NodeView;

    open spec fn view(&self) -> NodeView {
        match self {
            PTNodeInternal::Terminal(token) => NodeView::Terminal(token@),
            PTNodeInternal::NonTerminal(non_terminal) => non_terminal@,
        }
    }
}

/// The children of the node at `node_ref`, in insertion order; none for a
/// terminal.
pub open spec fn children_of(nodes: Seq<NodeView>, node_ref: int) -> Seq<usize> {
    match nodes[node_ref] {
        NodeView::Terminal(_) => Seq::empty(),
        NodeView::NonTerminal { children, .. } => children,
    }
}

/// The `index`-th child of the node at `node_ref`.
pub open spec fn child(nodes: Seq<NodeView>, node_ref: int, index: int) -> usize {
    children_of(nodes, node_ref)[index]
}

/// Whether the node at `node_ref` has an `index`-th child.
pub open spec fn has_child(nodes: Seq<NodeView>, node_ref: int, index: int) -> bool {
    0 <= node_ref < nodes.len() && 0 <= index < children_of(nodes, node_ref).len()
}

/// What shows that an arena is a forest: for each node its depth below the
/// root of its tree and the place where it hangs, which is its parent's ref
/// and its index among the parent's children, and a bound on the depths.
struct Shape {
    depth: Seq<nat>,
    parent: Seq<Option<(nat, nat)>>,
    bound: nat,
}

/// Whether `shape` fits `nodes`: every child ref is in range and hangs
/// where the shape says, one level below its parent, and nothing else hangs
/// anywhere.
spec fn shaped(nodes: Seq<NodeView>, shape: Shape) -> bool {
    &&& shape.depth.len() == nodes.len()
    &&& shape.parent.len() == nodes.len()
    &&& forall|p: int, i: int| #[trigger]
        has_child(nodes, p, i) ==> {
            let c = child(nodes, p, i);
            &&& c < nodes.len()
            &&& shape.parent[c as int] == Some((p as nat, i as nat))
            &&& shape.depth[c as int] == shape.depth[p] + 1
        }
    &&& forall|c: int|
        0 <= c < nodes.len() ==> (#[trigger] shape.parent[c] matches Some((p, i)) ==> has_child(
            nodes,
            p as int,
            i as int,
        ) && child(nodes, p as int, i as int) == c)
    &&& forall|n: int| 0 <= n < nodes.len() ==> #[trigger] shape.depth[n] <= shape.bound
}

/// The arena is a forest: every child ref is in range, every node hangs in
/// at most one place, and no node is its own ancestor.
pub closed spec fn is_forest(nodes: Seq<NodeView>) -> bool {
    exists|shape: Shape| shaped(nodes, shape)
}

/// A shape that fits a forest.
spec fn shape_of(nodes: Seq<NodeView>) -> Shape {
    choose|shape: Shape| shaped(nodes, shape)
}

/// The depth of the node at `node_ref` below the root of its tree.
pub closed spec fn depth_of(nodes: Seq<NodeView>, node_ref: int) -> nat {
    shape_of(nodes).depth[node_ref]
}

/// The place where the node at `node_ref` hangs: its parent's ref and its
/// index among the parent's children. `None` for a root.
pub closed spec fn parent_of(nodes: Seq<NodeView>, node_ref: int) -> Option<(nat, nat)> {
    shape_of(nodes).parent[node_ref]
}

/// The arena is one tree with its root at ref 0: that node hangs nowhere and
/// every other node hangs somewhere.
pub closed spec fn is_rooted(nodes: Seq<NodeView>) -> bool {
    &&& nodes.len() > 0
    &&& parent_of(nodes, 0) is None
    &&& forall|n: int| 1 <= n < nodes.len() ==> (#[trigger] parent_of(nodes, n)) is Some
}

/// How far the node at `node_ref` is above the deepest level: the measure by
/// which walks down the tree end.
pub closed spec fn rank(nodes: Seq<NodeView>, node_ref: int) -> nat {
    if is_forest(nodes) && 0 <= node_ref < nodes.len() {
        (shape_of(nodes).bound - shape_of(nodes).depth[node_ref]) as nat
    } else {
        0
    }
}

/// Where nodes hang is decided by the nodes: two shapes that fit agree on it.
proof fn lemma_parent_unique(nodes: Seq<NodeView>, first: Shape, second: Shape)
    requires
        shaped(nodes, first),
        shaped(nodes, second),
    ensures
        first.parent == second.parent,
{
}

/// A child's ref is in range, and the child lies one level below its parent
/// and hangs there and nowhere else.
pub proof fn lemma_child(nodes: Seq<NodeView>, node_ref: int, index: int)
    requires
        is_forest(nodes),
        has_child(nodes, node_ref, index),
    ensures
        child(nodes, node_ref, index) < nodes.len(),
        depth_of(nodes, child(nodes, node_ref, index) as int) == depth_of(nodes, node_ref) + 1,
        parent_of(nodes, child(nodes, node_ref, index) as int) == Some(
            (node_ref as nat, index as nat),
        ),
        rank(nodes, child(nodes, node_ref, index) as int) < rank(nodes, node_ref),
{
}

/// No ref is a child in two places.
pub proof fn lemma_one_parent(nodes: Seq<NodeView>, first: int, i: int, second: int, j: int)
    requires
        is_forest(nodes),
        has_child(nodes, first, i),
        has_child(nodes, second, j),
        child(nodes, first, i) == child(nodes, second, j),
    ensures
        first == second,
        i == j,
{
}

/// In a tree rooted at ref 0 every other node is the child of some node, and
/// the root of none.
pub proof fn lemma_rooted(nodes: Seq<NodeView>, node_ref: int)
    requires
        is_forest(nodes),
        is_rooted(nodes),
        0 <= node_ref < nodes.len(),
    ensures
        node_ref != 0 ==> exists|p: int, i: int| #[trigger]
            has_child(nodes, p, i) && child(nodes, p, i) == node_ref,
        forall|p: int, i: int| #[trigger] has_child(nodes, p, i) ==> child(nodes, p, i) != 0,
{
    if node_ref != 0 {
        let (p, i) = parent_of(nodes, node_ref)->0;
        assert(has_child(nodes, p as int, i as int) && child(nodes, p as int, i as int)
            == node_ref);
    }
}

/// The nodes of the subtree at `node_ref` in depth-first pre-order, each with
/// its depth, where the node at `node_ref` has depth `depth`. Empty for a ref
/// out of range.
pub open spec fn preorder(nodes: Seq<NodeView>, node_ref: int, depth: nat) -> Seq<(NodeKind, nat)>
    decreases rank(nodes, node_ref), 1nat, 0nat,
{
    if is_forest(nodes) && 0 <= node_ref < nodes.len() {
        seq![(nodes[node_ref].kind(), depth)] + preorder_first(
            nodes,
            node_ref,
            children_of(nodes, node_ref).len(),
            depth + 1,
        )
    } else {
        Seq::empty()
    }
}

/// The pre-orders of the first `count` children of the node at `node_ref`,
/// one behind the other, each child at depth `depth`.
pub open spec fn preorder_first(nodes: Seq<NodeView>, node_ref: int, count: nat, depth: nat) -> Seq<
    (NodeKind, nat),
>
    decreases rank(nodes, node_ref), 0nat, count,
{
    if is_forest(nodes) && has_child(nodes, node_ref, count - 1) {
        preorder_first(nodes, node_ref, (count - 1) as nat, depth) + preorder(
            nodes,
            child(nodes, node_ref, count - 1) as int,
            depth,
        )
    } else {
        Seq::empty()
    }
}

/// Nodes appended to the arena leave the pre-order of every subtree that was
/// there as it was.
pub proof fn lemma_preorder_kept(
    nodes: Seq<NodeView>,
    later: Seq<NodeView>,
    node_ref: int,
    depth: nat,
)
    requires
        is_forest(nodes),
        is_forest(later),
        nodes.len() <= later.len(),
        forall|n: int| 0 <= n < nodes.len() ==> (#[trigger] later[n]) == nodes[n],
        0 <= node_ref < nodes.len(),
    ensures
        preorder(later, node_ref, depth) == preorder(nodes, node_ref, depth),
    decreases rank(nodes, node_ref), 1nat, 0nat,
{
    lemma_preorder_first_kept(
        nodes,
        later,
        node_ref,
        children_of(nodes, node_ref).len(),
        depth + 1,
    );
}

/// The same for the first `count` children of a node.
pub proof fn lemma_preorder_first_kept(
    nodes: Seq<NodeView>,
    later: Seq<NodeView>,
    node_ref: int,
    count: nat,
    depth: nat,
)
    requires
        is_forest(nodes),
        is_forest(later),
        nodes.len() <= later.len(),
        forall|n: int| 0 <= n < nodes.len() ==> (#[trigger] later[n]) == nodes[n],
        0 <= node_ref < nodes.len(),
        count <= children_of(nodes, node_ref).len(),
    ensures
        preorder_first(later, node_ref, count, depth) == preorder_first(
            nodes,
            node_ref,
            count,
            depth,
        ),
    decreases rank(nodes, node_ref), 0nat, count,
{
    if count > 0 {
        assert(has_child(nodes, node_ref, count - 1));
        lemma_preorder_first_kept(nodes, later, node_ref, (count - 1) as nat, depth);
        lemma_preorder_kept(nodes, later, child(nodes, node_ref, count - 1) as int, depth);
    }
}

/// The pre-order under a node that was just pushed on top of `inner`: where
/// each of its first `count` children shows the tree that it was made from,
/// so do the children together.
proof fn lemma_fresh_preorder(
    nodes: Seq<NodeView>,
    inner: Seq<NodeView>,
    trees: Seq<Subtree>,
    count: nat,
    depth: nat,
)
    requires
        is_forest(nodes),
        is_forest(inner),
        nodes.len() == inner.len() + 1,
        forall|n: int| 0 <= n < inner.len() ==> (#[trigger] nodes[n]) == inner[n],
        count <= trees.len(),
        children_of(nodes, inner.len() as int).len() == trees.len(),
        forall|j: int|
            0 <= j < trees.len() ==> (#[trigger] child(nodes, inner.len() as int, j)) < inner.len(),
        forall|j: int|
            0 <= j < trees.len() ==> (#[trigger] trees[j]).preorder(depth) == preorder(
                inner,
                child(nodes, inner.len() as int, j) as int,
                depth,
            ),
    ensures
        preorder_first(nodes, inner.len() as int, count, depth) == Subtree::preorder_first(
            trees,
            count,
            depth,
        ),
    decreases count,
{
    if count > 0 {
        let top = inner.len() as int;
        lemma_fresh_preorder(nodes, inner, trees, (count - 1) as nat, depth);
        lemma_preorder_kept(inner, nodes, child(nodes, top, count - 1) as int, depth);
    }
}

/// The arena `nodes` after `tree` was inserted as the last child of the
/// non-terminal at `parent`: the tree's nodes are appended, and the ref of
/// its root, the last of them, is appended to the parent's children.
pub open spec fn graft(nodes: Seq<NodeView>, parent: int, tree: Subtree) -> Seq<NodeView> {
    (nodes + tree.flatten(nodes.len())).update(
        parent,
        NodeView::NonTerminal {
            node_type: nodes[parent]->node_type,
            children: nodes[parent]->children.push((nodes.len() + tree.size() - 1) as usize),
        },
    )
}

/// `later` is a later state of `nodes`: every ref of `nodes` is a ref of
/// `later` and names what it named, the same token or a non-terminal of the
/// same kind with the children that it had, in their order, before any that
/// came after.
pub open spec fn grows_into(nodes: Seq<NodeView>, later: Seq<NodeView>) -> bool {
    &&& nodes.len() <= later.len()
    &&& forall|node_ref: int|
        0 <= node_ref < nodes.len() ==> (#[trigger] later[node_ref]).kind()
            == nodes[node_ref].kind() && children_of(nodes, node_ref).is_prefix_of(
            children_of(later, node_ref),
        )
}

/// Refs stay valid over any number of insertions: a later state of a later
/// state is a later state.
pub proof fn lemma_grows_into_transitive(
    nodes: Seq<NodeView>,
    middle: Seq<NodeView>,
    later: Seq<NodeView>,
)
    requires
        grows_into(nodes, middle),
        grows_into(middle, later),
    ensures
        grows_into(nodes, later),
{
}

/// `later` is `nodes` after `tree` was inserted as the last child of the
/// non-terminal at `parent`, with `child` the ref of the tree's root.
pub open spec fn grafted(
    nodes: Seq<NodeView>,
    later: Seq<NodeView>,
    parent: int,
    tree: Subtree,
    child: usize,
) -> bool {
    &&& 0 <= parent < nodes.len()
    &&& nodes[parent] is NonTerminal
    &&& child == nodes.len() + tree.size() - 1
    &&& later == graft(nodes, parent, tree)
}

/// An insertion under a node leads to a later state.
pub proof fn lemma_grafted_grows(
    nodes: Seq<NodeView>,
    later: Seq<NodeView>,
    parent: int,
    tree: Subtree,
    child: usize,
)
    requires
        grafted(nodes, later, parent, tree, child),
    ensures
        grows_into(nodes, later),
        later.len() == nodes.len() + tree.size(),
        nodes.len() <= child < later.len(),
{
    tree.lemma_flatten_len(nodes.len());
}

/// Whether, in the forest that `shape` fits, the node at `above` is the node
/// at `node_ref` or one of its ancestors.
spec fn reaches(nodes: Seq<NodeView>, shape: Shape, above: int, node_ref: int) -> bool
    decreases shape.depth[node_ref],
{
    if shaped(nodes, shape) && 0 <= node_ref < nodes.len() {
        above == node_ref || (shape.parent[node_ref] matches Some((p, _)) && reaches(
            nodes,
            shape,
            above,
            p as int,
        ))
    } else {
        false
    }
}

/// An ancestor lies above its descendants: it is no deeper, and as deep only
/// if it is the node itself.
proof fn lemma_reaches_depth(nodes: Seq<NodeView>, shape: Shape, above: int, node_ref: int)
    requires
        reaches(nodes, shape, above, node_ref),
    ensures
        0 <= above < nodes.len(),
        shape.depth[above] <= shape.depth[node_ref],
        shape.depth[above] == shape.depth[node_ref] ==> above == node_ref,
    decreases shape.depth[node_ref],
{
    if above != node_ref {
        let (p, i) = shape.parent[node_ref]->0;
        lemma_reaches_depth(nodes, shape, above, p as int);
    }
}

/// A node has one ancestor on each level.
proof fn lemma_reaches_unique(nodes: Seq<NodeView>, shape: Shape, a: int, b: int, node_ref: int)
    requires
        reaches(nodes, shape, a, node_ref),
        reaches(nodes, shape, b, node_ref),
        shape.depth[a] == shape.depth[b],
    ensures
        a == b,
    decreases shape.depth[node_ref],
{
    lemma_reaches_depth(nodes, shape, a, node_ref);
    lemma_reaches_depth(nodes, shape, b, node_ref);
    if a != node_ref && b != node_ref {
        let (p, i) = shape.parent[node_ref]->0;
        lemma_reaches_unique(nodes, shape, a, b, p as int);
    }
}

/// The parent of an ancestor is an ancestor.
proof fn lemma_reaches_parent(nodes: Seq<NodeView>, shape: Shape, p: int, i: int, node_ref: int)
    requires
        shaped(nodes, shape),
        has_child(nodes, p, i),
        reaches(nodes, shape, child(nodes, p, i) as int, node_ref),
    ensures
        reaches(nodes, shape, p, node_ref),
    decreases shape.depth[node_ref],
{
    let c = child(nodes, p, i) as int;
    if c == node_ref {
        assert(reaches(nodes, shape, p, p));
    } else {
        let (q, k) = shape.parent[node_ref]->0;
        lemma_reaches_parent(nodes, shape, p, i, q as int);
    }
}

/// Where `later` differs from `nodes` only by nodes appended and by the
/// children of the node at `changed`, the pre-order of a subtree that does
/// not hold that node is as it was.
proof fn lemma_preorder_apart(
    nodes: Seq<NodeView>,
    later: Seq<NodeView>,
    shape: Shape,
    changed: int,
    node_ref: int,
    depth: nat,
)
    requires
        shaped(nodes, shape),
        is_forest(later),
        nodes.len() <= later.len(),
        forall|n: int| 0 <= n < nodes.len() && n != changed ==> (#[trigger] later[n]) == nodes[n],
        0 <= node_ref < nodes.len(),
        0 <= changed < nodes.len(),
        !reaches(nodes, shape, node_ref, changed),
    ensures
        preorder(later, node_ref, depth) == preorder(nodes, node_ref, depth),
    decreases shape.bound - shape.depth[node_ref], 1nat, 0nat,
{
    assert forall|j: int| 0 <= j < children_of(nodes, node_ref).len() implies !reaches(
        nodes,
        shape,
        #[trigger] child(nodes, node_ref, j) as int,
        changed,
    ) by {
        if reaches(nodes, shape, child(nodes, node_ref, j) as int, changed) {
            lemma_reaches_parent(nodes, shape, node_ref, j, changed);
        }
    }
    lemma_preorder_first_apart(
        nodes,
        later,
        shape,
        changed,
        node_ref,
        children_of(nodes, node_ref).len(),
        depth + 1,
    );
}

/// The same for the first `count` children of a node, where `later` has them
/// as `nodes` has and none of them holds the node at `changed`.
proof fn lemma_preorder_first_apart(
    nodes: Seq<NodeView>,
    later: Seq<NodeView>,
    shape: Shape,
    changed: int,
    node_ref: int,
    count: nat,
    depth: nat,
)
    requires
        shaped(nodes, shape),
        is_forest(later),
        nodes.len() <= later.len(),
        forall|n: int| 0 <= n < nodes.len() && n != changed ==> (#[trigger] later[n]) == nodes[n],
        0 <= node_ref < nodes.len(),
        0 <= changed < nodes.len(),
        count <= children_of(nodes, node_ref).len(),
        count <= children_of(later, node_ref).len(),
        forall|j: int|
            0 <= j < count ==> (#[trigger] child(later, node_ref, j)) == child(nodes, node_ref, j),
        forall|j: int|
            0 <= j < count ==> !reaches(
                nodes,
                shape,
                #[trigger] child(nodes, node_ref, j) as int,
                changed,
            ),
    ensures
        preorder_first(later, node_ref, count, depth) == preorder_first(
            nodes,
            node_ref,
            count,
            depth,
        ),
    decreases shape.bound - shape.depth[node_ref], 0nat, count,
{
    if count > 0 {
        assert(has_child(nodes, node_ref, count - 1));
        let c = child(nodes, node_ref, count - 1) as int;
        lemma_preorder_first_apart(
            nodes,
            later,
            shape,
            changed,
            node_ref,
            (count - 1) as nat,
            depth,
        );
        lemma_preorder_apart(nodes, later, shape, changed, c, depth);
    }
}

/// Whether `path[index + 1]` is the last child of `path[index]`.
pub open spec fn steps_down(nodes: Seq<NodeView>, path: Seq<usize>, index: int) -> bool {
    children_of(nodes, path[index] as int).len() > 0 && children_of(
        nodes,
        path[index] as int,
    ).last() == path[index + 1]
}

/// Whether `path` leads down the tree through last children: it is not
/// empty, holds non-terminals only, and each of its nodes but the first is
/// the last child of the one before it.
pub open spec fn is_last_child_path(nodes: Seq<NodeView>, path: Seq<usize>) -> bool {
    &&& path.len() > 0
    &&& forall|j: int|
        0 <= j < path.len() ==> (#[trigger] path[j]) < nodes.len()
            && nodes[path[j] as int] is NonTerminal
    &&& forall|j: int| 0 <= j < path.len() - 1 ==> #[trigger] steps_down(nodes, path, j)
}

/// Along a path through last children every node is an ancestor of the
/// path's end, as many levels above it as the path has steps between them.
proof fn lemma_path_reaches(nodes: Seq<NodeView>, shape: Shape, path: Seq<usize>, index: int)
    requires
        shaped(nodes, shape),
        is_last_child_path(nodes, path),
        0 <= index < path.len(),
    ensures
        reaches(nodes, shape, path[index] as int, path.last() as int),
        shape.depth[path.last() as int] == shape.depth[path[index] as int] + (path.len() - 1
            - index),
    decreases path.len() - index,
{
    if index < path.len() - 1 {
        lemma_path_reaches(nodes, shape, path, index + 1);
        assert(steps_down(nodes, path, index));
        let last = children_of(nodes, path[index] as int).len() - 1;
        assert(has_child(nodes, path[index] as int, last));
        lemma_reaches_parent(nodes, shape, path[index] as int, last, path.last() as int);
    }
}

/// The pre-order of the node `path[index]` after a tree was inserted under
/// the end of the path: as before, with the new tree's pre-order behind it.
proof fn lemma_graft_preorder_from(
    nodes: Seq<NodeView>,
    later: Seq<NodeView>,
    shape: Shape,
    path: Seq<usize>,
    tree: Subtree,
    child_ref: usize,
    index: int,
    depth: nat,
)
    requires
        shaped(nodes, shape),
        is_forest(later),
        is_last_child_path(nodes, path),
        grafted(nodes, later, path.last() as int, tree, child_ref),
        forall|d: nat| #[trigger] preorder(later, child_ref as int, d) == tree.preorder(d),
        0 <= index < path.len(),
    ensures
        preorder(later, path[index] as int, depth) == preorder(nodes, path[index] as int, depth)
            + tree.preorder((depth + path.len() - index) as nat),
    decreases path.len() - index,
{
    let here = path[index] as int;
    let end = path.last() as int;
    let count = children_of(nodes, here).len();
    lemma_path_reaches(nodes, shape, path, index);
    if index == path.len() - 1 {
        assert forall|j: int| 0 <= j < count implies !reaches(
            nodes,
            shape,
            #[trigger] child(nodes, here, j) as int,
            end,
        ) by {
            assert(has_child(nodes, here, j));
            if reaches(nodes, shape, child(nodes, here, j) as int, end) {
                lemma_reaches_depth(nodes, shape, child(nodes, here, j) as int, end);
            }
        }
        lemma_preorder_first_apart(nodes, later, shape, end, here, count, depth + 1);
        assert(preorder_first(later, here, count + 1, depth + 1) == preorder_first(
            later,
            here,
            count,
            depth + 1,
        ) + preorder(later, child_ref as int, depth + 1));
        assert(preorder(later, here, depth) =~= preorder(nodes, here, depth) + tree.preorder(
            depth + 1,
        ));
    } else {
        assert(steps_down(nodes, path, index));
        let next = path[index + 1] as int;
        assert(has_child(nodes, here, count - 1));
        assert forall|j: int| 0 <= j < count - 1 implies !reaches(
            nodes,
            shape,
            #[trigger] child(nodes, here, j) as int,
            end,
        ) by {
            let sibling = child(nodes, here, j) as int;
            assert(has_child(nodes, here, j));
            if reaches(nodes, shape, sibling, end) {
                lemma_path_reaches(nodes, shape, path, index + 1);
                lemma_reaches_unique(nodes, shape, sibling, next, end);
            }
        }
        lemma_preorder_first_apart(
            nodes,
            later,
            shape,
            end,
            here,
            (count - 1) as nat,
            depth + 1,
        );
        lemma_graft_preorder_from(nodes, later, shape, path, tree, child_ref, index + 1, depth + 1);
        assert(preorder(later, here, depth) =~= preorder(nodes, here, depth) + tree.preorder(
            (depth + path.len() - index) as nat,
        ));
    }
}

/// Inserting a tree under the end of a path through last children appends
/// the tree's pre-order to the pre-order of the path's start.
pub proof fn lemma_graft_preorder(
    nodes: Seq<NodeView>,
    later: Seq<NodeView>,
    path: Seq<usize>,
    tree: Subtree,
    child_ref: usize,
    depth: nat,
)
    requires
        is_forest(nodes),
        is_forest(later),
        is_last_child_path(nodes, path),
        grafted(nodes, later, path.last() as int, tree, child_ref),
        forall|d: nat| #[trigger] preorder(later, child_ref as int, d) == tree.preorder(d),
    ensures
        preorder(later, path[0] as int, depth) == preorder(nodes, path[0] as int, depth)
            + tree.preorder(depth + path.len()),
{
    lemma_graft_preorder_from(nodes, later, shape_of(nodes), path, tree, child_ref, 0, depth);
}

/// A path through last children stays one when its end is left off.
pub proof fn lemma_path_prefix(nodes: Seq<NodeView>, path: Seq<usize>, len: int)
    requires
        is_last_child_path(nodes, path),
        0 < len <= path.len(),
    ensures
        is_last_child_path(nodes, path.take(len)),
{
    let prefix = path.take(len);
    assert forall|j: int| 0 <= j < prefix.len() - 1 implies #[trigger] steps_down(
        nodes,
        prefix,
        j,
    ) by {
        assert(steps_down(nodes, path, j));
    }
}

/// After a tree was inserted under the end of a path through last children,
/// the path is still one, its nodes are of the kinds they were of, and where
/// the tree's root is a non-terminal the path goes on to it.
pub proof fn lemma_graft_path(
    nodes: Seq<NodeView>,
    later: Seq<NodeView>,
    path: Seq<usize>,
    tree: Subtree,
    child_ref: usize,
)
    requires
        is_forest(nodes),
        is_last_child_path(nodes, path),
        grafted(nodes, later, path.last() as int, tree, child_ref),
    ensures
        is_last_child_path(later, path),
        forall|j: int|
            0 <= j < path.len() ==> (#[trigger] later[path[j] as int]).kind()
                == nodes[path[j] as int].kind(),
        child_ref == later.len() - 1,
        later[child_ref as int].kind() == tree.preorder(0)[0].0,
        tree is NonTerminal ==> is_last_child_path(later, path.push(child_ref)),
{
    let shape = shape_of(nodes);
    tree.lemma_flatten_len(nodes.len());
    assert forall|j: int| 0 <= j < path.len() - 1 implies #[trigger] steps_down(
        later,
        path,
        j,
    ) by {
        assert(steps_down(nodes, path, j));
        lemma_path_reaches(nodes, shape, path, j);
    }
    if tree is NonTerminal {
        let longer = path.push(child_ref);
        assert forall|j: int| 0 <= j < longer.len() - 1 implies #[trigger] steps_down(
            later,
            longer,
            j,
        ) by {
            if j < path.len() - 1 {
                assert(steps_down(later, path, j));
            }
        }
    }
}

/// What a walk visited, as mathematical values.
pub open spec fn visit_views(visits: Seq<(PTNodeType, usize)>) -> Seq<(NodeKind, nat)> {
    visits.map_values(|visit: (PTNodeType, usize)| (visit.0@, visit.1 as nat))
}

/// `later` is the shape `shape` grown: it agrees with it on the nodes that
/// `shape` knows.
spec fn shape_kept(shape: Shape, later: Shape) -> bool {
    &&& shape.depth.len() <= later.depth.len()
    &&& shape.parent.len() <= later.parent.len()
    &&& forall|n: int| 0 <= n < shape.depth.len() ==> (#[trigger] later.depth[n]) == shape.depth[n]
    &&& forall|n: int|
        0 <= n < shape.parent.len() ==> (#[trigger] later.parent[n]) == shape.parent[n]
}

/// The arena: the nodes in the order of their insertion. The ref of a node is
/// its place in that order.
#[derive(Debug)]
pub struct PTree {
    nodes: Vec<PTNodeInternal>,
}

impl View for PTree {
    type V = Seq<NodeView>;

    closed spec fn view(&self) -> Seq<NodeView> {
        self.nodes@.map_values(|node: PTNodeInternal| node@)
    }
}

impl PTree {
    /// The arena is a forest.
    pub open spec fn wf(&self) -> bool {
        is_forest(self@)
    }

    /// An arena holds no more nodes than there are refs.
    pub proof fn lemma_len(&self)
        ensures
            self@.len() <= usize::MAX,
    {
        assert(self@.len() == self.nodes.len());
    }

    /// The ref of the root of a tree that a parser built.
    pub const ROOT_NODE_REF: usize = 0;

    /// An empty arena.
    pub fn new() -> (tree: PTree)
        ensures
            tree.wf(),
            tree@ == Seq::<NodeView>::empty(),
    {
        let tree = PTree { nodes: Vec::new() };
        proof {
            assert(shaped(tree@, Shape { depth: Seq::empty(), parent: Seq::empty(), bound: 0 }));
        }
        tree
    }

    /// The number of nodes. The valid refs are those below it.
    pub fn len(&self) -> (len: usize)
        ensures
            len == self@.len(),
    {
        self.nodes.len()
    }

    /// The node at `node_ref`.
    pub fn get_node(&self, node_ref: usize) -> (node: &PTNodeInternal)
        requires
            node_ref < self@.len(),
        ensures
            node@ == self@[node_ref as int],
    {
        &self.nodes[node_ref]
    }

    /// The token of the terminal at `node_ref`.
    pub fn get_terminal(&self, node_ref: usize) -> (token: &Token)
        requires
            node_ref < self@.len(),
            self@[node_ref as int] is Terminal,
        ensures
            self@[node_ref as int] == NodeView::Terminal(token@),
    {
        match self.get_node(node_ref) {
            PTNodeInternal::Terminal(token) => token,
            PTNodeInternal::NonTerminal(_) => vstd::pervasive::unreached(),
        }
    }

    /// The non-terminal at `node_ref`.
    pub fn get_non_terminal(&self, node_ref: usize) -> (non_terminal: &PTNonTerminalInternal)
        requires
            node_ref < self@.len(),
            self@[node_ref as int] is NonTerminal,
        ensures
            self@[node_ref as int] == non_terminal@,
    {
        match self.get_node(node_ref) {
            PTNodeInternal::NonTerminal(non_terminal) => non_terminal,
            PTNodeInternal::Terminal(_) => vstd::pervasive::unreached(),
        }
    }

    /// What the node at `node_ref` is, or `NotFound` where the ref is out of
    /// range.
    pub fn get_node_type(&self, node_ref: usize) -> (node_type: Result<
        PTNodeType,
        StructuralViolation,
    >)
        ensures
            node_ref < self@.len() ==> node_type is Ok && node_type->Ok_0@
                == self@[node_ref as int].kind(),
            node_ref >= self@.len() ==> node_type == Err::<PTNodeType, StructuralViolation>(
                StructuralViolation::NotFound,
            ),
    {
        if node_ref >= self.nodes.len() {
            return Err(StructuralViolation::NotFound);
        }
        match self.get_node(node_ref) {
            PTNodeInternal::Terminal(token) => Ok(PTNodeType::Terminal(token.clone())),
            PTNodeInternal::NonTerminal(non_terminal) => Ok(
                PTNodeType::NonTerminal(non_terminal.node_type),
            ),
        }
    }

    /// Appends `node` with its subtree, the node itself last, as a root at
    /// the given depth. `shape` fits the arena before, the shape that comes
    /// back fits it after.
    fn add_subtree(
        &mut self,
        node: &PTNode,
        Ghost(depth): Ghost<nat>,
        Ghost(shape): Ghost<Shape>,
    ) -> (added: (usize, Ghost<Shape>))
        requires
            shaped(old(self)@, shape),
        ensures
            shaped(final(self)@, added.1@),
            shape_kept(shape, added.1@),
            final(self)@ == old(self)@ + node@.flatten(old(self)@.len()),
            added.0 == final(self)@.len() - 1,
            added.1@.parent[added.0 as int] is None,
            added.1@.depth[added.0 as int] == depth,
            forall|n: int|
                old(self)@.len() <= n < added.0 ==> (#[trigger] added.1@.parent[n]) is Some,
            forall|d: nat| #[trigger]
                preorder(final(self)@, added.0 as int, d) == node@.preorder(d),
        decreases node,
    {
        let ghost before = self@;
        let ghost mut now = shape;
        match node {
            PTNode::Terminal(token) => {
                self.nodes.push(PTNodeInternal::Terminal(token.clone()));
                proof {
                    now = Shape {
                        depth: shape.depth.push(depth),
                        parent: shape.parent.push(None),
                        bound: if shape.bound < depth {
                            depth
                        } else {
                            shape.bound
                        },
                    };
                    assert forall|p: int, i: int| #[trigger] has_child(self@, p, i) implies {
                        let c = child(self@, p, i);
                        &&& c < self@.len()
                        &&& now.parent[c as int] == Some((p as nat, i as nat))
                        &&& now.depth[c as int] == now.depth[p] + 1
                    } by {
                        assert(has_child(before, p, i));
                    }
                    assert(shaped(self@, now));
                }
            },
            PTNode::NonTerminal(non_terminal) => {
                let ghost trees = inline_views(non_terminal.children);
                let ghost base = before.len();
                let ghost mut links: Map<int, nat> = Map::empty();
                let mut refs: Vec<usize> = Vec::new();
                match &non_terminal.children {
                    Some(children) => {
                        let mut index: usize = 0;
                        while index < children.len()
                            invariant
                                index <= children.len(),
                                trees.len() == children.len(),
                                forall|j: int|
                                    0 <= j < children.len() ==> #[trigger] trees[j]
                                        == children[j]@,
                                shaped(self@, now),
                                shape_kept(shape, now),
                                shape.depth.len() == base,
                                shape.parent.len() == base,
                                base == before.len(),
                                self@ == before + Subtree::flatten_first(trees, index as nat, base),
                                refs@.len() == index,
                                forall|j: int|
                                    0 <= j < index ==> {
                                        &&& #[trigger] refs@[j] == Subtree::root_ref(trees, base, j)
                                        &&& refs@[j] < self@.len()
                                        &&& links.contains_key(refs@[j] as int)
                                        &&& links[refs@[j] as int] == j
                                        &&& now.parent[refs@[j] as int] is None
                                        &&& now.depth[refs@[j] as int] == depth + 1
                                    },
                                forall|j: int, d: nat|
                                    0 <= j < index ==> #[trigger] preorder(self@, refs@[j] as int, d)
                                        == trees[j].preorder(d),
                                forall|c: int| #[trigger]
                                    links.contains_key(c) ==> base <= c && links[c] < index
                                        && refs@[links[c] as int] == c,
                                forall|n: int|
                                    base <= n < self@.len() ==> (#[trigger] now.parent[n]) is Some
                                        || links.contains_key(n),
                                decreases_to!(node => children),
                            decreases children.len() - index,
                        {
                            let ghost earlier = self@;
                            proof {
                                Subtree::lemma_flatten_first_len(trees, index as nat, base);
                                trees[index as int].lemma_flatten_len(earlier.len());
                            }
                            let added = self.add_subtree(
                                &children[index],
                                Ghost(depth + 1),
                                Ghost(now),
                            );
                            refs.push(added.0);
                            proof {
                                now = added.1@;
                                links = links.insert(added.0 as int, index as nat);
                                assert forall|j: int, d: nat| 0 <= j < index + 1 implies #[trigger]
                                    preorder(self@, refs@[j] as int, d) == trees[j].preorder(d) by {
                                    if j < index {
                                        lemma_preorder_kept(earlier, self@, refs@[j] as int, d);
                                    }
                                }
                            }
                            index = index + 1;
                        }
                    },
                    None => {},
                }
                let ghost inner = self@;
                let ghost inner_shape = now;
                let ghost refs_view = refs@;
                self.nodes.push(
                    PTNodeInternal::NonTerminal(
                        PTNonTerminalInternal { node_type: non_terminal.node_type, children: refs },
                    ),
                );
                proof {
                    now = Shape {
                        depth: inner_shape.depth.push(depth),
                        parent: Seq::new(
                            inner.len() + 1,
                            |c: int|
                                if links.contains_key(c) {
                                    Some((inner.len(), links[c]))
                                } else if c < inner.len() {
                                    inner_shape.parent[c]
                                } else {
                                    None
                                },
                        ),
                        bound: if inner_shape.bound < depth {
                            depth
                        } else {
                            inner_shape.bound
                        },
                    };
                    Subtree::lemma_flatten_first_len(trees, trees.len(), base);
                    assert(refs_view =~= Seq::new(
                        trees.len(),
                        |i: int| Subtree::root_ref(trees, base, i) as usize,
                    ));
                    let pushed = NodeView::NonTerminal {
                        node_type: non_terminal.node_type,
                        children: refs_view,
                    };
                    assert(self@ =~= inner.push(pushed));
                    let top = inner.len() as int;
                    assert forall|p: int, i: int| #[trigger] has_child(self@, p, i) implies {
                        let c = child(self@, p, i);
                        &&& c < self@.len()
                        &&& now.parent[c as int] == Some((p as nat, i as nat))
                        &&& now.depth[c as int] == now.depth[p] + 1
                    } by {
                        if p < top {
                            assert(has_child(inner, p, i));
                        }
                    }
                    assert(shaped(self@, now));
                    assert forall|d: nat| #[trigger]
                        preorder(self@, top, d) == node@.preorder(d) by {
                        lemma_fresh_preorder(self@, inner, trees, trees.len(), d + 1);
                    }
                }
            },
        }
        (self.nodes.len() - 1, Ghost(now))
    }

    /// Inserts `node` with its inline subtree as a new root: the nodes of
    /// each child's subtree first, in order, then the node itself. Returns the
    /// ref of `node`, the last one handed out and greater than every ref
    /// handed out before it; every node that was there keeps its ref and its
    /// content.
    pub fn add_node(&mut self, node: &PTNode) -> (node_ref: usize)
        requires
            old(self).wf(),
        ensures
            final(self).wf(),
            final(self)@ == old(self)@ + node@.flatten(old(self)@.len()),
            node_ref == final(self)@.len() - 1,
            node_ref >= old(self)@.len(),
            grows_into(old(self)@, final(self)@),
            forall|d: nat| #[trigger] preorder(final(self)@, node_ref as int, d) == node@.preorder(d),
            old(self)@.len() == 0 && node@.size() == 1 ==> is_rooted(final(self)@),
    {
        let ghost before = self@;
        let ghost shape = shape_of(before);
        proof {
            node@.lemma_flatten_len(before.len());
        }
        let added = self.add_subtree(node, Ghost(0), Ghost(shape));
        added.0
    }

    /// Inserts `node` with its inline subtree and appends it to the children
    /// of the non-terminal at `node_ref`. Returns the new child's ref.
    /// Fails with `NotFound` where `node_ref` is out of range and with
    /// `InvalidNodeKind` where the node there is a terminal; the arena is
    /// then unchanged.
    pub fn add_to_node(&mut self, node_ref: usize, node: PTNode) -> (child: Result<
        usize,
        StructuralViolation,
    >)
        requires
            old(self).wf(),
        ensures
            final(self).wf(),
            grows_into(old(self)@, final(self)@),
            match child {
                Ok(child_ref) => {
                    &&& grafted(old(self)@, final(self)@, node_ref as int, node@, child_ref)
                    &&& child_ref == final(self)@.len() - 1
                    &&& child_ref >= old(self)@.len()
                    &&& forall|d: nat| #[trigger]
                        preorder(final(self)@, child_ref as int, d) == node@.preorder(d)
                    &&& is_rooted(old(self)@) ==> is_rooted(final(self)@)
                },
                Err(StructuralViolation::NotFound) => node_ref >= old(self)@.len() && *final(self)
                    == *old(self),
                Err(StructuralViolation::InvalidNodeKind) => node_ref < old(self)@.len() && old(
                    self,
                )@[node_ref as int] is Terminal && *final(self) == *old(self),
            },
    {
        if node_ref >= self.nodes.len() {
            return Err(StructuralViolation::NotFound);
        }
        match &self.nodes[node_ref] {
            PTNodeInternal::Terminal(_) => {
                return Err(StructuralViolation::InvalidNodeKind);
            },
            PTNodeInternal::NonTerminal(_) => {},
        }
        let ghost before = self@;
        let ghost shape = shape_of(before);
        let ghost place = children_of(before, node_ref as int).len();
        let added = self.add_subtree(
            &node,
            Ghost((shape.depth[node_ref as int] + 1) as nat),
            Ghost(shape),
        );
        let child_ref = added.0;
        let ghost inner = self@;
        let ghost inner_shape = added.1@;
        match &mut self.nodes[node_ref] {
            PTNodeInternal::NonTerminal(non_terminal) => {
                non_terminal.children.push(child_ref);
            },
            PTNodeInternal::Terminal(_) => {},
        }
        proof {
            let now = Shape {
                depth: inner_shape.depth,
                parent: inner_shape.parent.update(
                    child_ref as int,
                    Some((node_ref as nat, place)),
                ),
                bound: inner_shape.bound,
            };
            node@.lemma_flatten_len(before.len());
            assert(inner[node_ref as int] == before[node_ref as int]);
            assert(self@ =~= inner.update(
                node_ref as int,
                NodeView::NonTerminal {
                    node_type: before[node_ref as int]->node_type,
                    children: children_of(before, node_ref as int).push(child_ref),
                },
            ));
            assert forall|p: int, i: int| #[trigger] has_child(self@, p, i) implies {
                let c = child(self@, p, i);
                &&& c < self@.len()
                &&& now.parent[c as int] == Some((p as nat, i as nat))
                &&& now.depth[c as int] == now.depth[p] + 1
            } by {
                if p != node_ref || i < place {
                    assert(has_child(inner, p, i));
                }
            }
            assert(shaped(self@, now));
            assert forall|d: nat| #[trigger]
                preorder(self@, child_ref as int, d) == node@.preorder(d) by {
                if reaches(inner, inner_shape, child_ref as int, node_ref as int) {
                    lemma_reaches_depth(inner, inner_shape, child_ref as int, node_ref as int);
                }
                lemma_preorder_apart(
                    inner,
                    self@,
                    inner_shape,
                    node_ref as int,
                    child_ref as int,
                    d,
                );
            }
            if is_rooted(before) {
                lemma_parent_unique(self@, now, shape_of(self@));
                assert forall|n: int| 1 <= n < self@.len() implies (#[trigger] parent_of(
                    self@,
                    n,
                )) is Some by {
                    if n < before.len() {
                        assert(parent_of(before, n) is Some);
                    }
                }
            }
        }
        Ok(child_ref)
    }

    /// The node at `node_ref` with its depth, then its descendants in
    /// depth-first pre-order, appended to `visits`.
    fn traverse_node(&self, node_ref: usize, depth: usize, visits: &mut Vec<(PTNodeType, usize)>)
        requires
            self.wf(),
            node_ref < self@.len(),
            depth <= old(visits)@.len(),
        ensures
            visit_views(final(visits)@) == visit_views(old(visits)@) + preorder(
                self@,
                node_ref as int,
                depth as nat,
            ),
            old(visits)@.len() <= final(visits)@.len(),
        decreases rank(self@, node_ref as int),
    {
        let ghost before = visit_views(visits@);
        match &self.nodes[node_ref] {
            PTNodeInternal::Terminal(token) => {
                visits.push((PTNodeType::Terminal(token.clone()), depth));
                proof {
                    assert(preorder_first(self@, node_ref as int, 0, (depth + 1) as nat)
                        =~= Seq::empty());
                    assert(visit_views(visits@) =~= before + preorder(
                        self@,
                        node_ref as int,
                        depth as nat,
                    ));
                }
            },
            PTNodeInternal::NonTerminal(non_terminal) => {
                visits.push((PTNodeType::NonTerminal(non_terminal.node_type), depth));
                let ghost head = seq![(self@[node_ref as int].kind(), depth as nat)];
                let mut index: usize = 0;
                while index < non_terminal.children.len()
                    invariant
                        self.wf(),
                        node_ref < self@.len(),
                        self@[node_ref as int] == non_terminal@,
                        index <= non_terminal.children.len(),
                        depth < visits@.len(),
                        visit_views(visits@) == before + head + preorder_first(
                            self@,
                            node_ref as int,
                            index as nat,
                            (depth + 1) as nat,
                        ),
                    decreases non_terminal.children.len() - index,
                {
                    proof {
                        lemma_child(self@, node_ref as int, index as int);
                    }
                    let visited = visits.len();
                    self.traverse_node(non_terminal.children[index], depth + 1, visits);
                    index = index + 1;
                    assert(visit_views(visits@) =~= before + head + preorder_first(
                        self@,
                        node_ref as int,
                        index as nat,
                        (depth + 1) as nat,
                    ));
                }
                assert(visit_views(visits@) =~= before + preorder(
                    self@,
                    node_ref as int,
                    depth as nat,
                ));
            },
        }
    }

    /// Walks the subtree at `node_ref` depth-first in pre-order and returns
    /// what it visits: the node itself at depth 0, its children at depth 1,
    /// and so on, each node before its children and the children in
    /// insertion order. Nothing is visited where `node_ref` is out of range.
    pub fn traverse(&self, node_ref: usize) -> (visits: Vec<(PTNodeType, usize)>)
        requires
            self.wf(),
        ensures
            visit_views(visits@) == preorder(self@, node_ref as int, 0),
    {
        let mut visits: Vec<(PTNodeType, usize)> = Vec::new();
        if node_ref < self.nodes.len() {
            self.traverse_node(node_ref, 0, &mut visits);
        }
        visits
    }

    /// A handle on the non-terminal at `node_ref`, from which its children
    /// can be walked.
    pub fn get_parent_node<'a>(&'a self, node_ref: usize) -> (handle: PTParentNode<'a>)
        requires
            self.wf(),
            node_ref < self@.len(),
            self@[node_ref as int] is NonTerminal,
        ensures
            handle.wf(),
            handle.nodes() == self@,
            handle.node_ref() == node_ref,
    {
        PTParentNode { internal: self.get_non_terminal(node_ref), tree: self, node_ref }
    }
}

/// A handle on a non-terminal of a tree that is no longer being changed: the
/// node's record, and the tree, by which its children are found.
#[derive(Clone, Copy, Debug)]
pub struct PTParentNode<'a> {
    pub internal: &'a PTNonTerminalInternal,
    tree: &'a PTree,
    node_ref: usize,
}

/// A child as a walk over the children shows it: a terminal's token by value,
/// or a handle on a non-terminal.
#[derive(Debug)]
pub enum PTDynamicNode<'a> {
    Terminal(Token),
    NonTerminal(PTParentNode<'a>),
}

impl<'a> PTDynamicNode<'a> {
    /// Whether this is what a walk shows of the node at `node_ref` of the
    /// arena `nodes`: the token of a terminal, or a handle on a non-terminal
    /// at that ref of that arena.
    pub open spec fn shows(&self, nodes: Seq<NodeView>, node_ref: usize) -> bool {
        match self {
            PTDynamicNode::Terminal(token) => nodes[node_ref as int] == NodeView::Terminal(token@),
            PTDynamicNode::NonTerminal(handle) => handle.wf() && handle.nodes() == nodes
                && handle.node_ref() == node_ref,
        }
    }

    /// The token of a terminal.
    pub fn as_terminal(&self) -> (token: Token)
        requires
            self is Terminal,
        ensures
            token == self->Terminal_0,
    {
        match self {
            PTDynamicNode::Terminal(token) => token.clone(),
            PTDynamicNode::NonTerminal(_) => vstd::pervasive::unreached(),
        }
    }

    /// The handle of a non-terminal.
    pub fn as_non_terminal(&self) -> (handle: PTParentNode<'a>)
        requires
            self is NonTerminal,
        ensures
            handle == self->NonTerminal_0,
    {
        match self {
            PTDynamicNode::NonTerminal(handle) => *handle,
            PTDynamicNode::Terminal(_) => vstd::pervasive::unreached(),
        }
    }
}

impl<'a> PTParentNode<'a> {
    /// The arena that the handle points into.
    pub closed spec fn nodes(&self) -> Seq<NodeView> {
        self.tree@
    }

    /// The ref of the node that the handle stands for.
    pub closed spec fn node_ref(&self) -> usize {
        self.node_ref
    }

    /// The record of the node that the handle holds.
    pub closed spec fn record(&self) -> NodeView {
        self.internal@
    }

    /// The handle stands for a node of a forest, and the record that it
    /// holds is that of the node, a non-terminal.
    pub open spec fn wf(&self) -> bool {
        &&& is_forest(self.nodes())
        &&& self.node_ref() < self.nodes().len()
        &&& self.nodes()[self.node_ref() as int] == self.record()
        &&& self.record() is NonTerminal
    }

    /// The kind of the node in the record that the handle holds.
    pub fn node_type(&self) -> (node_type: NonTerminalType)
        ensures
            self.record() is NonTerminal,
            node_type == self.record()->node_type,
    {
        self.internal.node_type
    }

    /// Whether `shown` shows the children of the handle's node, each as a
    /// walk shows it, in insertion order.
    pub open spec fn yields(&self, shown: Seq<PTDynamicNode<'a>>) -> bool {
        &&& shown.len() == children_of(self.nodes(), self.node_ref() as int).len()
        &&& forall|i: int|
            0 <= i < shown.len() ==> (#[trigger] shown[i]).shows(
                self.nodes(),
                child(self.nodes(), self.node_ref() as int, i),
            )
    }

    /// The children of the handle's node, in insertion order.
    pub fn children_iter(self) -> (shown: Vec<PTDynamicNode<'a>>)
        requires
            self.wf(),
        ensures
            self.yields(shown@),
    {
        let mut shown: Vec<PTDynamicNode<'a>> = Vec::new();
        let mut index: usize = 0;
        while index < self.internal.children.len()
            invariant
                self.wf(),
                index <= self.internal.children@.len(),
                shown@.len() == index,
                forall|i: int|
                    0 <= i < index ==> (#[trigger] shown@[i]).shows(
                        self.nodes(),
                        child(self.nodes(), self.node_ref() as int, i),
                    ),
            decreases self.internal.children@.len() - index,
        {
            let child_ref = self.internal.children[index];
            proof {
                lemma_child(self.tree@, self.node_ref as int, index as int);
            }
            let node = match self.tree.get_node(child_ref) {
                PTNodeInternal::Terminal(token) => PTDynamicNode::Terminal(token.clone()),
                PTNodeInternal::NonTerminal(_) => PTDynamicNode::NonTerminal(
                    self.tree.get_parent_node(child_ref),
                ),
            };
            shown.push(node);
            index = index + 1;
        }
        shown
    }

    /// A walk over the children can be started again: two walks show the
    /// same nodes in the same order, terminals with equal tokens and
    /// non-terminals by handles on the same node.
    pub proof fn lemma_children_iter_restartable(
        &self,
        first: Seq<PTDynamicNode<'a>>,
        second: Seq<PTDynamicNode<'a>>,
    )
        requires
            self.yields(first),
            self.yields(second),
        ensures
            first.len() == second.len(),
            forall|i: int|
                0 <= i < first.len() ==> match (#[trigger] first[i], second[i]) {
                    (PTDynamicNode::Terminal(a), PTDynamicNode::Terminal(b)) => a@ == b@,
                    (PTDynamicNode::NonTerminal(a), PTDynamicNode::NonTerminal(b)) => a.node_ref()
                        == b.node_ref() && a.nodes() == b.nodes(),
                    _ => false,
                },
    {
    }
}

} // verus!
