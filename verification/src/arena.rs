//! Nodes held by an arena and named by ids: the shape of a tree and its bookkeeping.
//!
//! The threads, the extreme nodes and the parent links of the layout point at arbitrary
//! nodes elsewhere in the tree, so nodes live in an [`Arena`] and refer to one another by
//! [`NodeId`]. What a node carries besides its place in the tree (its box, its
//! coordinates and whatever a layout engine accumulates) is the payload `G`.
use vstd::prelude::*;

verus! {

/// A handle on a node held by an [`Arena`].
///
/// Ids are only meaningful for the arena that produced them.
#[derive(Debug, Clone, Copy, PartialEq, Eq, Structural, PartialOrd, Ord, Hash)]
pub struct NodeId(usize);

impl NodeId {
    /// The position of the node in its arena.
    pub closed spec fn spec_index(self) -> usize {
        self.0
    }

    /// The id of the node at position `i`.
    pub closed spec fn at(i: usize) -> NodeId {
        NodeId(i)
    }

    /// The position of the node in its arena, in creation order.
    #[verifier::when_used_as_spec(spec_index)]
    pub fn index(self) -> (r: usize)
        ensures
            r == self.spec_index(),
    {
        self.0
    }

    pub(crate) fn new(i: usize) -> (r: NodeId)
        ensures
            r == NodeId::at(i),
            r.index() == i,
    {
        NodeId(i)
    }

    /// An id is its position, and a position its id.
    pub broadcast proof fn lemma_at_index(i: usize)
        ensures
            #[trigger] NodeId::at(i).index() == i,
    {
    }

    /// Two ids at the same position are the same id.
    pub broadcast proof fn lemma_index_injective(a: NodeId, b: NodeId)
        ensures
            #[trigger] a.index() == #[trigger] b.index() ==> a == b,
    {
    }
}

/// A node of a hierarchy that acts as a tree.
///
/// `idx` and `isdummy` are the caller's; `level`, `childno`, `centeredxy` and `parent` are
/// bookkeeping that [`Arena::setup`] and a layout fill in; `geo` is the payload.
#[derive(Debug, Clone)]
pub struct Node<G> {
    /// A caller-chosen label, one-based for the flat API.
    pub idx: usize,
    /// Distance from the root; the root is at level 0.
    pub level: usize,
    /// Position among the parent's children; 0 for the root.
    pub childno: usize,
    /// Whether the coordinates denote the middle of the box rather than its corner.
    pub centeredxy: bool,
    /// Marks a node inserted only to take up space.
    pub isdummy: bool,
    /// The parent, once [`Arena::setup`] has run; `None` for the root.
    pub parent: Option<NodeId>,
    /// The children, in left to right order.
    pub children: Vec<NodeId>,
    /// What the node carries besides its place in the tree.
    pub geo: G,
}

impl<G> Node<G> {
    /// The children, in left to right order.
    pub fn children(&self) -> (r: &[NodeId])
        ensures
            r@ == self.children@,
    {
        self.children.as_slice()
    }
}

/// A step of [`Arena::setup`]: one write into the bookkeeping of one node.
pub enum Visit {
    /// The node is at this level, and its coordinates are its corner for now.
    Level(NodeId, usize),
    /// The node is the child of this parent, at this position; the root of the setup has
    /// no parent and is at position 0.
    Link(NodeId, Option<NodeId>, usize),
}

/// What one step of [`Arena::setup`] does to the nodes.
pub open spec fn apply_visit<G>(nodes: Seq<Node<G>>, v: Visit) -> Seq<Node<G>> {
    match v {
        Visit::Level(t, l) => {
            let i = t.index() as int;
            if i < nodes.len() {
                nodes.update(i, Node { level: l, centeredxy: false, ..nodes[i] })
            } else {
                nodes
            }
        },
        Visit::Link(c, p, k) => {
            let i = c.index() as int;
            if i < nodes.len() {
                nodes.update(i, Node { parent: p, childno: k, ..nodes[i] })
            } else {
                nodes
            }
        },
    }
}

/// What a run of steps of [`Arena::setup`] does to the nodes, in order.
pub open spec fn apply_visits<G>(nodes: Seq<Node<G>>, vs: Seq<Visit>) -> Seq<Node<G>>
    decreases vs.len(),
{
    if vs.len() == 0 {
        nodes
    } else {
        apply_visit(apply_visits(nodes, vs.drop_last()), vs.last())
    }
}

/// The positions of a run of ids.
pub open spec fn ids_of(s: Seq<NodeId>) -> Seq<usize> {
    s.map_values(|t: NodeId| t.index())
}

/// A node as [`Arena::add_node`] leaves it: labelled, carrying its payload, and with its
/// bookkeeping at rest.
pub open spec fn fresh_node<G>(a: Arena<G>, i: int, idx: int, geo: G, isdummy: bool) -> bool {
    let nd = a@[i];
    &&& nd.idx == idx
    &&& nd.geo == geo
    &&& nd.isdummy == isdummy
    &&& nd.level == 0
    &&& nd.childno == 0
    &&& nd.centeredxy == false
    &&& nd.parent is None
}

/// Running two runs of steps one after the other is running the two together.
pub proof fn lemma_apply_visits_append<G>(nodes: Seq<Node<G>>, a: Seq<Visit>, b: Seq<Visit>)
    ensures
        apply_visits(nodes, a + b) == apply_visits(apply_visits(nodes, a), b),
    decreases b.len(),
{
    if b.len() == 0 {
        assert(a + b =~= a);
    } else {
        assert((a + b).drop_last() =~= a + b.drop_last());
        assert((a + b).last() == b.last());
        lemma_apply_visits_append(nodes, a, b.drop_last());
    }
}

/// The steps of [`Arena::setup`] write bookkeeping only: the shape, the labels and the
/// payloads stay as they are.
pub proof fn lemma_apply_visits_keeps_shape<G>(nodes: Seq<Node<G>>, vs: Seq<Visit>)
    ensures
        apply_visits(nodes, vs).len() == nodes.len(),
        forall|i: int|
            0 <= i < nodes.len() ==> {
                let (o, n) = (nodes[i], #[trigger] apply_visits(nodes, vs)[i]);
                &&& n.children == o.children
                &&& n.idx == o.idx
                &&& n.isdummy == o.isdummy
                &&& n.geo == o.geo
            },
    decreases vs.len(),
{
    if vs.len() > 0 {
        lemma_apply_visits_keeps_shape(nodes, vs.drop_last());
    }
}

/// The nodes of one or more trees.
///
/// Nodes are added with [`Arena::add_node`], wired together with
/// [`Arena::set_children`] or [`Arena::push_child`], and freed all at once when the arena
/// is dropped. Nothing stops a caller from wiring a cycle; the walks over a subtree ask
/// for one that is finite ([`Arena::is_tree_at`]).
#[derive(Debug, Clone)]
pub struct Arena<G> {
    nodes: Vec<Node<G>>,
}

impl<G> View for Arena<G> {
    type V = Seq<Node<G>>;

    closed spec fn view(&self) -> Seq<Node<G>> {
        self.nodes@
    }
}

impl<G> Arena<G> {
    /// Whether `t` names a node of this arena.
    pub open spec fn valid(self, t: NodeId) -> bool {
        t.index() < self@.len()
    }

    /// The children of `t`, in left to right order.
    pub open spec fn kids(self, t: NodeId) -> Seq<NodeId> {
        self@[t.index() as int].children@
    }

    /// Every path down from `t` names nodes of the arena and is shorter than `d`.
    pub open spec fn finite_below(self, t: NodeId, d: nat) -> bool
        decreases d,
    {
        &&& d > 0
        &&& self.valid(t)
        &&& forall|k: int|
            0 <= k < self.kids(t).len() ==> self.finite_below(#[trigger] self.kids(t)[k], (d - 1) as nat)
    }

    /// The nodes below `t` form a finite tree (or a finite shared hierarchy) of the arena.
    pub open spec fn is_tree_at(self, t: NodeId) -> bool {
        exists|d: nat| self.finite_below(t, d)
    }

    /// A bound on the length of the paths down from `t`, when there is one.
    pub open spec fn depth_bound(self, t: NodeId) -> nat {
        choose|d: nat| self.finite_below(t, d)
    }

    /// The subtree of `t` in preorder, for paths shorter than `d`.
    pub open spec fn pre(self, t: NodeId, d: nat) -> Seq<NodeId>
        decreases d, 0nat,
    {
        if d == 0 {
            seq![]
        } else {
            seq![t] + self.pre_list(self.kids(t), (d - 1) as nat, self.kids(t).len())
        }
    }

    /// The subtrees of the first `n` of `cs` in preorder, one after the other.
    pub open spec fn pre_list(self, cs: Seq<NodeId>, d: nat, n: nat) -> Seq<NodeId>
        decreases d, n + 1,
    {
        if n == 0 {
            seq![]
        } else {
            self.pre_list(cs, d, (n - 1) as nat) + self.pre(cs[n - 1], d)
        }
    }

    /// The ids of the subtree rooted at `t`, in preorder.
    pub open spec fn preorder_of(self, t: NodeId) -> Seq<NodeId> {
        self.pre(t, self.depth_bound(t))
    }

    /// The writes of [`Arena::setup`] under `t`, which it puts at `level`, in order.
    pub open spec fn visits(self, t: NodeId, level: int, d: nat) -> Seq<Visit>
        decreases d, 0nat,
    {
        if d == 0 {
            seq![]
        } else {
            seq![Visit::Level(t, level as usize)] + self.visits_list(
                t,
                level,
                (d - 1) as nat,
                self.kids(t).len(),
            )
        }
    }

    /// The writes of [`Arena::setup`] for the first `n` children of `t`, in order.
    pub open spec fn visits_list(self, t: NodeId, level: int, d: nat, n: nat) -> Seq<Visit>
        decreases d, n + 1,
    {
        if n == 0 {
            seq![]
        } else {
            let c = self.kids(t)[n - 1];
            self.visits_list(t, level, d, (n - 1) as nat) + seq![
                Visit::Link(c, Some(t), (n - 1) as usize),
            ] + self.visits(c, level + 1, d)
        }
    }

    /// The preorder does not depend on the bound, once the bound holds.
    pub proof fn lemma_pre_stable(self, t: NodeId, d: nat, e: nat)
        requires
            self.finite_below(t, d),
            d <= e,
        ensures
            self.pre(t, d) == self.pre(t, e),
        decreases d, 0nat,
    {
        let cs = self.kids(t);
        self.lemma_pre_list_stable(cs, (d - 1) as nat, (e - 1) as nat, cs.len());
    }

    /// [`Arena::lemma_pre_stable`], for the subtrees of a list of children.
    pub proof fn lemma_pre_list_stable(self, cs: Seq<NodeId>, d: nat, e: nat, n: nat)
        requires
            n <= cs.len(),
            forall|k: int| 0 <= k < n ==> self.finite_below(#[trigger] cs[k], d),
            d <= e,
        ensures
            self.pre_list(cs, d, n) == self.pre_list(cs, e, n),
        decreases d, n + 1,
    {
        if n > 0 {
            self.lemma_pre_list_stable(cs, d, e, (n - 1) as nat);
            self.lemma_pre_stable(cs[n - 1], d, e);
        }
    }

    /// Every node from `lo` to `hi` has its children after itself and before `hi`.
    pub open spec fn closed_range(self, lo: int, hi: int) -> bool {
        &&& 0 <= lo <= hi <= self@.len()
        &&& forall|j: int, k: int|
            lo <= j < hi && 0 <= k < self@[j].children@.len() ==> j < (
            #[trigger] self@[j].children@[k]).index() < hi
    }

    /// The subtree of a node in a closed range reads nothing outside the range: two arenas
    /// that wire the range the same way agree on it.
    pub proof fn lemma_frame(self, b: Arena<G>, lo: int, hi: int, t: NodeId, d: nat)
        requires
            self.closed_range(lo, hi),
            b@.len() >= hi,
            forall|j: int| lo <= j < hi ==> (#[trigger] b@[j]).children == self@[j].children,
            lo <= t.index() < hi,
        ensures
            self.pre(t, d) == b.pre(t, d),
            self.finite_below(t, d) == b.finite_below(t, d),
        decreases d, 0nat,
    {
        if d > 0 {
            let cs = self.kids(t);
            assert(b.kids(t) == cs);
            self.lemma_frame_list(b, lo, hi, t, (d - 1) as nat, cs.len());
            assert forall|k: int| 0 <= k < cs.len() implies self.finite_below(#[trigger] cs[k], (d - 1) as nat)
                == b.finite_below(cs[k], (d - 1) as nat) by {
                assert(t.index() < cs[k].index() < hi);
                self.lemma_frame(b, lo, hi, cs[k], (d - 1) as nat);
            }
            if self.finite_below(t, d) {
                assert forall|k: int| 0 <= k < b.kids(t).len() implies b.finite_below(
                    #[trigger] b.kids(t)[k],
                    (d - 1) as nat,
                ) by {
                    assert(self.finite_below(cs[k], (d - 1) as nat));
                }
            }
            if b.finite_below(t, d) {
                assert forall|k: int| 0 <= k < cs.len() implies self.finite_below(
                    #[trigger] self.kids(t)[k],
                    (d - 1) as nat,
                ) by {
                    assert(b.finite_below(b.kids(t)[k], (d - 1) as nat));
                }
            }
        }
    }

    /// [`Arena::lemma_frame`], for the subtrees of the first `n` children of `t`.
    pub proof fn lemma_frame_list(self, b: Arena<G>, lo: int, hi: int, t: NodeId, d: nat, n: nat)
        requires
            self.closed_range(lo, hi),
            b@.len() >= hi,
            forall|j: int| lo <= j < hi ==> (#[trigger] b@[j]).children == self@[j].children,
            lo <= t.index() < hi,
            n <= self.kids(t).len(),
        ensures
            self.pre_list(self.kids(t), d, n) == b.pre_list(self.kids(t), d, n),
        decreases d, n + 1,
    {
        if n > 0 {
            let cs = self.kids(t);
            self.lemma_frame_list(b, lo, hi, t, d, (n - 1) as nat);
            assert(t.index() < cs[n - 1].index() < hi);
            self.lemma_frame(b, lo, hi, cs[n - 1], d);
        }
    }


    /// An empty arena.
    pub fn new() -> (r: Self)
        ensures
            r@ == Seq::<Node<G>>::empty(),
    {
        Arena { nodes: Vec::new() }
    }

    /// An empty arena with room for `capacity` nodes.
    pub fn with_capacity(capacity: usize) -> (r: Self)
        ensures
            r@ == Seq::<Node<G>>::empty(),
    {
        Arena { nodes: Vec::with_capacity(capacity) }
    }

    /// Adds a childless node labelled `idx` and carrying `geo`.
    ///
    /// `idx` is carried through to the output and is not interpreted, except by the flat
    /// API where it has to be the one-based position of the node.
    pub fn add_node(&mut self, idx: usize, geo: G, isdummy: bool) -> (r: NodeId)
        ensures
            r.index() == old(self)@.len(),
            final(self)@.len() == old(self)@.len() + 1,
            final(self)@.drop_last() == old(self)@,
            final(self)@.last().idx == idx,
            final(self)@.last().level == 0,
            final(self)@.last().childno == 0,
            final(self)@.last().centeredxy == false,
            final(self)@.last().isdummy == isdummy,
            final(self)@.last().parent is None,
            final(self)@.last().children@ == Seq::<NodeId>::empty(),
            final(self)@.last().geo == geo,
            final(self)@.len() <= usize::MAX,
    {
        let node = Node {
            idx,
            level: 0,
            childno: 0,
            centeredxy: false,
            isdummy,
            parent: None,
            children: Vec::new(),
            geo,
        };
        self.nodes.push(node);
        proof {
            assert(self.nodes@.drop_last() =~= old(self).nodes@);
        }
        NodeId::new(self.nodes.len() - 1)
    }

    /// Appends one child to `parent`.
    pub fn push_child(&mut self, parent: NodeId, child: NodeId)
        requires
            old(self).valid(parent),
        ensures
            final(self)@.len() == old(self)@.len(),
            forall|i: int|
                0 <= i < old(self)@.len() && i != parent.index() ==> final(self)@[i] == old(
                    self,
                )@[i],
            final(self).kids(parent) == old(self).kids(parent).push(child),
            ({
                let (o, n) = (old(self)@[parent.index() as int], final(self)@[parent.index() as int]);
                &&& n.idx == o.idx
                &&& n.level == o.level
                &&& n.childno == o.childno
                &&& n.centeredxy == o.centeredxy
                &&& n.isdummy == o.isdummy
                &&& n.parent == o.parent
                &&& n.geo == o.geo
            }),
    {
        let node = self.node_mut(parent);
        node.children.push(child);
    }

    /// Replaces the children of `parent`, in left to right order.
    pub fn set_children(&mut self, parent: NodeId, children: &[NodeId])
        requires
            old(self).valid(parent),
        ensures
            final(self)@.len() == old(self)@.len(),
            forall|i: int|
                0 <= i < old(self)@.len() && i != parent.index() ==> final(self)@[i] == old(
                    self,
                )@[i],
            final(self).kids(parent) == children@,
            ({
                let (o, n) = (old(self)@[parent.index() as int], final(self)@[parent.index() as int]);
                &&& n.idx == o.idx
                &&& n.level == o.level
                &&& n.childno == o.childno
                &&& n.centeredxy == o.centeredxy
                &&& n.isdummy == o.isdummy
                &&& n.parent == o.parent
                &&& n.geo == o.geo
            }),
    {
        let mut v: Vec<NodeId> = Vec::new();
        let mut i: usize = 0;
        while i < children.len()
            invariant
                i <= children@.len(),
                v@ == children@.subrange(0, i as int),
            decreases children@.len() - i,
        {
            v.push(children[i]);
            i = i + 1;
            proof {
                assert(v@ =~= children@.subrange(0, i as int));
            }
        }
        proof {
            assert(v@ =~= children@);
        }
        let node = self.node_mut(parent);
        node.children = v;
    }

    /// The children of `t`, in left to right order.
    pub fn children(&self, t: NodeId) -> (r: &[NodeId])
        requires
            self.valid(t),
        ensures
            r@ == self.kids(t),
    {
        self.nodes[t.index()].children.as_slice()
    }

    /// The node named `t`.
    pub fn node(&self, t: NodeId) -> (r: &Node<G>)
        requires
            self.valid(t),
        ensures
            *r == self@[t.index() as int],
    {
        &self.nodes[t.index()]
    }

    /// The node named `t`, to be changed in place.
    pub fn node_mut(&mut self, t: NodeId) -> (r: &mut Node<G>)
        requires
            old(self).valid(t),
        ensures
            *r == old(self)@[t.index() as int],
            final(self)@ == old(self)@.update(t.index() as int, *final(r)),
    {
        &mut self.nodes[t.index()]
    }

    /// How many nodes the arena holds.
    pub fn len(&self) -> (r: usize)
        ensures
            r == self@.len(),
    {
        self.nodes.len()
    }

    /// Whether the arena holds no node at all.
    pub fn is_empty(&self) -> (r: bool)
        ensures
            r == (self@.len() == 0),
    {
        self.nodes.len() == 0
    }

    /// The nodes, in creation order.
    pub fn iter(&self) -> (r: &[Node<G>])
        ensures
            r@ == self@,
    {
        self.nodes.as_slice()
    }

    pub(crate) fn child(&self, t: NodeId, i: usize) -> (r: NodeId)
        requires
            self.valid(t),
            i < self.kids(t).len(),
        ensures
            r == self.kids(t)[i as int],
    {
        self.nodes[t.index()].children[i]
    }

    pub(crate) fn nchildren(&self, t: NodeId) -> (r: usize)
        requires
            self.valid(t),
        ensures
            r == self.kids(t).len(),
    {
        self.nodes[t.index()].children.len()
    }

    /// The ids of the subtree rooted at `t`, in preorder.
    pub fn preorder(&self, t: NodeId) -> (r: Vec<NodeId>)
        requires
            self.is_tree_at(t),
        ensures
            r@ == self.preorder_of(t),
    {
        let ghost d = self.depth_bound(t);
        let mut out = Vec::new();
        self.preorder_into(t, &mut out, Ghost(d));
        proof {
            assert(out@ =~= self.pre(t, d));
        }
        out
    }

    fn preorder_into(&self, t: NodeId, out: &mut Vec<NodeId>, Ghost(d): Ghost<nat>)
        requires
            self.finite_below(t, d),
        ensures
            final(out)@ == old(out)@ + self.pre(t, d),
        decreases d,
    {
        let ghost start = out@;
        out.push(t);
        let n = self.nchildren(t);
        let mut i: usize = 0;
        while i < n
            invariant
                self.finite_below(t, d),
                n == self.kids(t).len(),
                i <= n,
                out@ == start + seq![t] + self.pre_list(self.kids(t), (d - 1) as nat, i as nat),
            decreases n - i,
        {
            let c = self.child(t, i);
            assert(self.finite_below(self.kids(t)[i as int], (d - 1) as nat));
            self.preorder_into(c, out, Ghost((d - 1) as nat));
            proof {
                assert(self.pre_list(self.kids(t), (d - 1) as nat, (i + 1) as nat) == self.pre_list(
                    self.kids(t),
                    (d - 1) as nat,
                    i as nat,
                ) + self.pre(c, (d - 1) as nat));
                assert(out@ =~= start + seq![t] + self.pre_list(
                    self.kids(t),
                    (d - 1) as nat,
                    (i + 1) as nat,
                ));
            }
            i = i + 1;
        }
        proof {
            assert(out@ =~= start + self.pre(t, d));
        }
    }

    /// Two arenas with the same nodes wired the same way.
    pub open spec fn same_shape(self, other: Arena<G>) -> bool {
        &&& self@.len() == other@.len()
        &&& forall|i: int| 0 <= i < self@.len() ==> (#[trigger] self@[i]).children == other@[i].children
    }

    /// The writes of [`Arena::setup`] under `root`: the root loses its parent, then the
    /// subtree is visited.
    pub open spec fn setup_visits(self, root: NodeId) -> Seq<Visit> {
        seq![Visit::Link(root, None, 0)] + self.visits(root, 0, usize::MAX as nat)
    }

    /// Fills in the bookkeeping of the subtree rooted at `root`: `level`, counted from the
    /// root; `childno` and `parent`, `None` and 0 for the root, which is where a layout
    /// starts; and `centeredxy`, cleared, since the walks of a layout start from corner
    /// coordinates.
    ///
    /// This is the part of `setup_walk` that does not depend on the boxes. Where the
    /// hierarchy shares a node between parents, the node is visited once per path, and
    /// the last visit in preorder is the one that stays.
    pub fn setup(&mut self, root: NodeId)
        requires
            old(self).finite_below(root, usize::MAX as nat),
        ensures
            final(self)@ == apply_visits(old(self)@, old(self).setup_visits(root)),
            final(self).same_shape(*old(self)),
    {
        let ghost orig = *self;
        let ghost start = self@;
        let ghost link = Visit::Link(root, None, 0);
        let node = self.node_mut(root);
        node.parent = None;
        node.childno = 0;
        proof {
            assert(self@ == apply_visit(start, link));
            assert(seq![link].drop_last() =~= Seq::<Visit>::empty());
            assert(apply_visits(start, seq![link]) == apply_visit(
                apply_visits(start, seq![link].drop_last()),
                link,
            ));
            assert(self.same_shape(orig));
            lemma_apply_visits_append(start, seq![link], orig.visits(root, 0, usize::MAX as nat));
        }
        self.setup_rec(root, 0, Ghost(orig), Ghost(usize::MAX as nat));
    }

    fn setup_rec(&mut self, t: NodeId, level: usize, Ghost(orig): Ghost<Arena<G>>, Ghost(d): Ghost<nat>)
        requires
            orig.finite_below(t, d),
            level + d <= usize::MAX,
            old(self).same_shape(orig),
        ensures
            final(self)@ == apply_visits(old(self)@, orig.visits(t, level as int, d)),
            final(self).same_shape(orig),
        decreases d,
    {
        let ghost start = self@;
        proof {
            lemma_apply_visits_keeps_shape(start, orig.visits(t, level as int, d));
        }
        let node = self.node_mut(t);
        node.level = level;
        node.centeredxy = false;
        proof {
            assert(self@ == apply_visit(start, Visit::Level(t, level)));
            assert(apply_visits(start, seq![Visit::Level(t, level)]) == apply_visit(
                apply_visits(start, seq![Visit::Level(t, level)].drop_last()),
                Visit::Level(t, level),
            ));
            assert(seq![Visit::Level(t, level)].drop_last() =~= Seq::<Visit>::empty());
            assert(self@ =~= apply_visits(start, seq![Visit::Level(t, level)] + orig.visits_list(t, level as int, (d - 1) as nat, 0)));
            lemma_apply_visits_keeps_shape(start, seq![Visit::Level(t, level)]);
        }
        let n = self.nchildren(t);
        let mut i: usize = 0;
        while i < n
            invariant
                orig.finite_below(t, d),
                level + d <= usize::MAX,
                self.same_shape(orig),
                n == orig.kids(t).len(),
                i <= n,
                self@ == apply_visits(
                    start,
                    seq![Visit::Level(t, level)] + orig.visits_list(t, level as int, (d - 1) as nat, i as nat),
                ),
            decreases n - i,
        {
            let ghost before = self@;
            let c = self.child(t, i);
            assert(c == orig.kids(t)[i as int]);
            assert(orig.finite_below(orig.kids(t)[i as int], (d - 1) as nat));
            let cn = self.node_mut(c);
            cn.childno = i;
            cn.parent = Some(t);
            proof {
                assert(self@ == apply_visit(before, Visit::Link(c, Some(t), i)));
                assert(self.same_shape(orig));
            }
            let ghost linked = self@;
            self.setup_rec(c, level + 1, Ghost(orig), Ghost((d - 1) as nat));
            proof {
                let pre = seq![Visit::Level(t, level)] + orig.visits_list(t, level as int, (d - 1) as nat, i as nat);
                let link = seq![Visit::Link(c, Some(t), i)];
                let sub = orig.visits(c, level + 1, (d - 1) as nat);
                assert(apply_visits(before, link) == apply_visit(apply_visits(before, link.drop_last()), Visit::Link(c, Some(t), i)));
                assert(link.drop_last() =~= Seq::<Visit>::empty());
                lemma_apply_visits_append(start, pre, link);
                lemma_apply_visits_append(start, pre + link, sub);
                assert(orig.visits_list(t, level as int, (d - 1) as nat, (i + 1) as nat) == orig.visits_list(
                    t,
                    level as int,
                    (d - 1) as nat,
                    i as nat,
                ) + link + sub);
                assert(pre + link + sub =~= seq![Visit::Level(t, level)] + orig.visits_list(
                    t,
                    level as int,
                    (d - 1) as nat,
                    (i + 1) as nat,
                ));
            }
            i = i + 1;
        }
        proof {
            assert(orig.visits(t, level as int, d) == seq![Visit::Level(t, level)] + orig.visits_list(t, level as int, (d - 1) as nat, n as nat));
        }
    }
}

} // verus!
