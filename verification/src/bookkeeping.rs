//! What [`Arena::setup`] leaves in the bookkeeping of the nodes.
//!
//! Setting up is a run of writes ([`Visit`]), each of which puts fixed values into fixed
//! fields of one node. The consequences stated here: running the writes twice is running
//! them once; on a tree, where no node is reached twice, every node ends up knowing its
//! parent, its position among its siblings and its level; and the breadth-first mirror of
//! the flat layout holds the same nodes and agrees with that bookkeeping.
use vstd::prelude::*;

use crate::arena::{apply_visit, apply_visits, lemma_apply_visits_append, lemma_apply_visits_keeps_shape, Arena, Node, NodeId, Visit};
use crate::flat::{kids_fn, lemma_bfs_covered, lemma_child_level, lemma_level_of, valid_fn, Mirror};

verus! {

/// The level that the last `Level` write to node `i` in `vs` puts there, if any.
pub open spec fn last_level(vs: Seq<Visit>, i: int) -> Option<usize>
    decreases vs.len(),
{
    if vs.len() == 0 {
        None
    } else {
        match vs.last() {
            Visit::Level(t, l) => if t.index() == i {
                Some(l)
            } else {
                last_level(vs.drop_last(), i)
            },
            Visit::Link(_, _, _) => last_level(vs.drop_last(), i),
        }
    }
}

/// The parent and position that the last `Link` write to node `i` in `vs` puts there, if
/// any.
pub open spec fn last_link(vs: Seq<Visit>, i: int) -> Option<(Option<NodeId>, usize)>
    decreases vs.len(),
{
    if vs.len() == 0 {
        None
    } else {
        match vs.last() {
            Visit::Link(c, p, k) => if c.index() == i {
                Some((p, k))
            } else {
                last_link(vs.drop_last(), i)
            },
            Visit::Level(_, _) => last_link(vs.drop_last(), i),
        }
    }
}

/// Node `n`, at position `i`, after the writes `vs`: each field holds what the last write to
/// it put there, or what it held before when nothing was written to it.
pub open spec fn written<G>(n: Node<G>, vs: Seq<Visit>, i: int) -> Node<G> {
    let leveled = match last_level(vs, i) {
        Some(l) => Node { level: l, centeredxy: false, ..n },
        None => n,
    };
    match last_link(vs, i) {
        Some((p, k)) => Node { parent: p, childno: k, ..leveled },
        None => leveled,
    }
}

/// A run of writes acts on each node by itself: what it leaves at a position depends only on
/// the node that was there and on the writes to it.
pub proof fn lemma_apply_visits_at<G>(nodes: Seq<Node<G>>, vs: Seq<Visit>, i: int)
    requires
        0 <= i < nodes.len(),
    ensures
        apply_visits(nodes, vs).len() == nodes.len(),
        apply_visits(nodes, vs)[i] == written(nodes[i], vs, i),
    decreases vs.len(),
{
    lemma_apply_visits_keeps_shape(nodes, vs);
    if vs.len() > 0 {
        lemma_apply_visits_at(nodes, vs.drop_last(), i);
    }
}

/// Setting up twice with the same writes is setting up once: every write puts back what the
/// first run left.
pub proof fn lemma_apply_visits_twice<G>(nodes: Seq<Node<G>>, vs: Seq<Visit>)
    ensures
        apply_visits(apply_visits(nodes, vs), vs) == apply_visits(nodes, vs),
{
    let once = apply_visits(nodes, vs);
    let twice = apply_visits(once, vs);
    lemma_apply_visits_keeps_shape(nodes, vs);
    lemma_apply_visits_keeps_shape(once, vs);
    assert forall|i: int| 0 <= i < nodes.len() implies twice[i] == once[i] by {
        lemma_apply_visits_at(nodes, vs, i);
        lemma_apply_visits_at(once, vs, i);
    }
    assert(twice =~= once);
}

/// Two arenas wired the same way make the same writes under a node of finite depth, and
/// bound its depth alike.
pub proof fn lemma_same_shape_visits<G>(a: Arena<G>, b: Arena<G>, t: NodeId, level: int, d: nat)
    requires
        a.same_shape(b),
        a.finite_below(t, d),
    ensures
        b.finite_below(t, d),
        a.visits(t, level, d) == b.visits(t, level, d),
    decreases d, 0nat,
{
    assert(a@[t.index() as int].children == b@[t.index() as int].children);
    assert(a.kids(t) == b.kids(t));
    lemma_same_shape_visits_list(a, b, t, level, (d - 1) as nat, a.kids(t).len());
    assert forall|k: int| 0 <= k < b.kids(t).len() implies b.finite_below(
        #[trigger] b.kids(t)[k],
        (d - 1) as nat,
    ) by {
        assert(a.finite_below(a.kids(t)[k], (d - 1) as nat));
        lemma_same_shape_visits(a, b, a.kids(t)[k], level + 1, (d - 1) as nat);
    }
}

/// [`lemma_same_shape_visits`], for the first `n` children of `t`.
pub proof fn lemma_same_shape_visits_list<G>(a: Arena<G>, b: Arena<G>, t: NodeId, level: int, d: nat, n: nat)
    requires
        a.same_shape(b),
        a.valid(t),
        n <= a.kids(t).len(),
        forall|k: int| 0 <= k < n ==> a.finite_below(#[trigger] a.kids(t)[k], d),
    ensures
        a.visits_list(t, level, d, n) == b.visits_list(t, level, d, n),
    decreases d, n + 1,
{
    assert(a@[t.index() as int].children == b@[t.index() as int].children);
    assert(a.kids(t) == b.kids(t));
    if n > 0 {
        lemma_same_shape_visits_list(a, b, t, level, d, (n - 1) as nat);
        lemma_same_shape_visits(a, b, a.kids(t)[n - 1], level + 1, d);
    }
}

/// Setting up twice is setting up once.
///
/// The first run leaves the children as they were, so the second finds the same tree,
/// makes the same writes, and writes what is already there: a layout can be applied to the
/// same tree again.
pub proof fn law_setup_twice_is_setup_once<G>(before: Arena<G>, after: Arena<G>, root: NodeId)
    requires
        before.finite_below(root, usize::MAX as nat),
        after@ == apply_visits(before@, before.setup_visits(root)),
    ensures
        after.finite_below(root, usize::MAX as nat),
        after.setup_visits(root) == before.setup_visits(root),
        apply_visits(after@, after.setup_visits(root)) == after@,
{
    lemma_apply_visits_keeps_shape(before@, before.setup_visits(root));
    assert(before.same_shape(after));
    lemma_same_shape_visits(before, after, root, 0, usize::MAX as nat);
    assert(after.setup_visits(root) =~= before.setup_visits(root));
    lemma_apply_visits_twice(before@, before.setup_visits(root));
}

/// The children of `u` know it as their parent, know their positions among its children, and
/// are one level below it, in the nodes `r`.
pub open spec fn links_down<G>(a: Arena<G>, r: Seq<Node<G>>, u: NodeId) -> bool {
    forall|k: int|
        0 <= k < a.kids(u).len() ==> {
            &&& r[(#[trigger] a.kids(u)[k]).index() as int].parent == Some(u)
            &&& r[a.kids(u)[k].index() as int].childno == k as usize
            &&& r[a.kids(u)[k].index() as int].level == r[u.index() as int].level + 1
        }
}

/// A sequence without repeats splits into two without repeats that share nothing.
proof fn lemma_no_dup_split<A>(a: Seq<A>, b: Seq<A>)
    requires
        (a + b).no_duplicates(),
    ensures
        a.no_duplicates(),
        b.no_duplicates(),
        forall|x: A| a.contains(x) ==> !b.contains(x),
{
    let s = a + b;
    assert forall|i: int, j: int| 0 <= i < a.len() && 0 <= j < a.len() && i != j implies a[i] != a[j] by {
        assert(s[i] == a[i] && s[j] == a[j]);
    }
    assert forall|i: int, j: int| 0 <= i < b.len() && 0 <= j < b.len() && i != j implies b[i] != b[j] by {
        assert(s[a.len() + i] == b[i] && s[a.len() + j] == b[j]);
    }
    assert forall|x: A| a.contains(x) implies !b.contains(x) by {
        if b.contains(x) {
            let i = choose|i: int| 0 <= i < a.len() && a[i] == x;
            let j = choose|j: int| 0 <= j < b.len() && b[j] == x;
            assert(s[i] == x && s[a.len() + j] == x);
        }
    }
}

impl<G> Arena<G> {
    /// What the subtrees of the first `n` of `cs` hold is what one of them holds.
    pub proof fn lemma_pre_list_contains(self, cs: Seq<NodeId>, d: nat, n: nat, x: NodeId)
        requires
            n <= cs.len(),
        ensures
            self.pre_list(cs, d, n).contains(x) <==> exists|k: int|
                0 <= k < n && #[trigger] self.pre(cs[k], d).contains(x),
        decreases n,
    {
        broadcast use vstd::seq_lib::lemma_seq_concat_contains_all_elements;

        if n > 0 {
            self.lemma_pre_list_contains(cs, d, (n - 1) as nat, x);
            if self.pre(cs[n - 1], d).contains(x) {
                assert(exists|k: int| 0 <= k < n && #[trigger] self.pre(cs[k], d).contains(x));
            }
            if exists|k: int| 0 <= k < n && #[trigger] self.pre(cs[k], d).contains(x) {
                let k = choose|k: int| 0 <= k < n && #[trigger] self.pre(cs[k], d).contains(x);
                if k < n - 1 {
                    assert(exists|k: int| 0 <= k < n - 1 && #[trigger] self.pre(cs[k], d).contains(x));
                }
            }
        }
    }

    /// A node starts its own subtree.
    pub proof fn lemma_pre_starts_with(self, t: NodeId, d: nat)
        requires
            d > 0,
        ensures
            self.pre(t, d).contains(t),
    {
        assert(self.pre(t, d)[0] == t);
    }

    /// The subtree of a node holds the children of each of its nodes.
    pub proof fn lemma_pre_closed(self, t: NodeId, d: nat, u: NodeId, k: int)
        requires
            self.finite_below(t, d),
            self.pre(t, d).contains(u),
            0 <= k < self.kids(u).len(),
        ensures
            self.pre(t, d).contains(self.kids(u)[k]),
        decreases d,
    {
        broadcast use vstd::seq_lib::lemma_seq_concat_contains_all_elements;

        let cs = self.kids(t);
        let rest = self.pre_list(cs, (d - 1) as nat, cs.len());
        assert(self.pre(t, d) == seq![t] + rest);
        if u == t {
            let c = cs[k];
            assert(self.finite_below(c, (d - 1) as nat));
            self.lemma_pre_starts_with(c, (d - 1) as nat);
            self.lemma_pre_list_contains(cs, (d - 1) as nat, cs.len(), c);
        } else {
            assert(rest.contains(u));
            self.lemma_pre_list_contains(cs, (d - 1) as nat, cs.len(), u);
            let j = choose|j: int| 0 <= j < cs.len() && #[trigger] self.pre(cs[j], (d - 1) as nat).contains(u);
            assert(self.finite_below(cs[j], (d - 1) as nat));
            self.lemma_pre_closed(cs[j], (d - 1) as nat, u, k);
            self.lemma_pre_list_contains(cs, (d - 1) as nat, cs.len(), self.kids(u)[k]);
        }
    }

    /// The subtree of a node of finite depth holds nodes of the arena only.
    pub proof fn lemma_pre_valid(self, t: NodeId, d: nat, x: NodeId)
        requires
            self.finite_below(t, d),
            self.pre(t, d).contains(x),
        ensures
            self.valid(x),
        decreases d,
    {
        broadcast use vstd::seq_lib::lemma_seq_concat_contains_all_elements;

        let cs = self.kids(t);
        let rest = self.pre_list(cs, (d - 1) as nat, cs.len());
        assert(self.pre(t, d) == seq![t] + rest);
        if x != t {
            assert(rest.contains(x));
            self.lemma_pre_list_contains(cs, (d - 1) as nat, cs.len(), x);
            let j = choose|j: int| 0 <= j < cs.len() && #[trigger] self.pre(cs[j], (d - 1) as nat).contains(x);
            assert(self.finite_below(cs[j], (d - 1) as nat));
            self.lemma_pre_valid(cs[j], (d - 1) as nat, x);
        }
    }

    /// [`Arena::lemma_pre_closed`], for the subtrees of the first `n` of `cs`.
    pub proof fn lemma_pre_list_closed(self, cs: Seq<NodeId>, d: nat, n: nat, u: NodeId, k: int)
        requires
            n <= cs.len(),
            forall|j: int| 0 <= j < n ==> self.finite_below(#[trigger] cs[j], d),
            self.pre_list(cs, d, n).contains(u),
            0 <= k < self.kids(u).len(),
        ensures
            self.pre_list(cs, d, n).contains(self.kids(u)[k]),
    {
        self.lemma_pre_list_contains(cs, d, n, u);
        let j = choose|j: int| 0 <= j < n && #[trigger] self.pre(cs[j], d).contains(u);
        self.lemma_pre_closed(cs[j], d, u, k);
        self.lemma_pre_list_contains(cs, d, n, self.kids(u)[k]);
    }
}

/// The writes under `t`, which is put at `level`, on a subtree where no node is reached
/// twice: `t` gets its level and keeps its links, every node of the subtree links down to its
/// children, and nothing outside the subtree is written.
proof fn lemma_visits_of_tree<G>(a: Arena<G>, nodes: Seq<Node<G>>, t: NodeId, level: int, d: nat)
    requires
        a.finite_below(t, d),
        a.pre(t, d).no_duplicates(),
        nodes.len() == a@.len(),
        0 <= level,
        level + d <= usize::MAX + 1,
    ensures
        ({
            let r = apply_visits(nodes, a.visits(t, level, d));
            &&& r.len() == nodes.len()
            &&& r[t.index() as int].level == level
            &&& r[t.index() as int].centeredxy == false
            &&& r[t.index() as int].parent == nodes[t.index() as int].parent
            &&& r[t.index() as int].childno == nodes[t.index() as int].childno
            &&& forall|x: NodeId|
                a.valid(x) && !(#[trigger] a.pre(t, d).contains(x)) ==> r[x.index() as int]
                    == nodes[x.index() as int]
            &&& forall|u: NodeId|
                #[trigger] a.pre(t, d).contains(u) ==> links_down(a, r, u) && r[u.index()
                    as int].centeredxy == false
        }),
    decreases d, 0nat,
{
    broadcast use vstd::seq_lib::lemma_seq_concat_contains_all_elements;
    broadcast use NodeId::lemma_index_injective;

    let cs = a.kids(t);
    let nk = cs.len();
    let rest = a.pre_list(cs, (d - 1) as nat, nk);
    assert(a.pre(t, d) == seq![t] + rest);
    lemma_no_dup_split(seq![t], rest);
    assert(seq![t][0] == t);
    let v = Visit::Level(t, level as usize);
    let n1 = apply_visit(nodes, v);
    let lst = a.visits_list(t, level, (d - 1) as nat, nk);
    assert(a.visits(t, level, d) == seq![v] + lst);
    lemma_apply_visits_append(nodes, seq![v], lst);
    assert(seq![v].drop_last() =~= Seq::<Visit>::empty());
    assert(apply_visits(nodes, Seq::<Visit>::empty()) == nodes);
    assert(apply_visits(nodes, seq![v]) == apply_visit(apply_visits(nodes, seq![v].drop_last()), v));
    assert(apply_visits(nodes, seq![v]) == n1);
    assert forall|k: int| 0 <= k < nk implies a.finite_below(#[trigger] cs[k], (d - 1) as nat) by {}
    lemma_visits_list_of_tree(a, n1, t, level, (d - 1) as nat, nk);
    let r = apply_visits(n1, lst);
    assert(!rest.contains(t));
    assert forall|x: NodeId| a.valid(x) && !(#[trigger] a.pre(t, d).contains(x)) implies r[x.index() as int]
        == nodes[x.index() as int] by {
        assert(!rest.contains(x));
        assert(x != t);
    }
    assert forall|u: NodeId| #[trigger] a.pre(t, d).contains(u) implies links_down(a, r, u) && r[u.index()
        as int].centeredxy == false by {
        if u != t {
            assert(rest.contains(u));
        } else {
            assert forall|k: int| 0 <= k < a.kids(u).len() implies {
                &&& r[(#[trigger] a.kids(u)[k]).index() as int].parent == Some(u)
                &&& r[a.kids(u)[k].index() as int].childno == k as usize
                &&& r[a.kids(u)[k].index() as int].level == r[u.index() as int].level + 1
            } by {
                assert(r[cs[k].index() as int].level == level + 1);
            }
        }
    }
}

/// The writes for the first `n` children of `t`, which is at `level`, where no node under
/// them is reached twice: each of those children links up to `t` at its position one level
/// below, every node of their subtrees links down to its children, and nothing outside
/// those subtrees is written.
proof fn lemma_visits_list_of_tree<G>(a: Arena<G>, nodes: Seq<Node<G>>, t: NodeId, level: int, d: nat, n: nat)
    requires
        n <= a.kids(t).len(),
        forall|k: int| 0 <= k < n ==> a.finite_below(#[trigger] a.kids(t)[k], d),
        a.pre_list(a.kids(t), d, n).no_duplicates(),
        nodes.len() == a@.len(),
        0 <= level,
        level + 1 + d <= usize::MAX + 1,
    ensures
        ({
            let s = apply_visits(nodes, a.visits_list(t, level, d, n));
            &&& s.len() == nodes.len()
            &&& forall|x: NodeId|
                a.valid(x) && !(#[trigger] a.pre_list(a.kids(t), d, n).contains(x))
                    ==> s[x.index() as int] == nodes[x.index() as int]
            &&& forall|k: int|
                0 <= k < n ==> {
                    &&& s[(#[trigger] a.kids(t)[k]).index() as int].parent == Some(t)
                    &&& s[a.kids(t)[k].index() as int].childno == k as usize
                    &&& s[a.kids(t)[k].index() as int].level == level + 1
                }
            &&& forall|u: NodeId|
                #[trigger] a.pre_list(a.kids(t), d, n).contains(u) ==> links_down(a, s, u)
                    && s[u.index() as int].centeredxy == false
        }),
    decreases d, n + 1,
{
    broadcast use vstd::seq_lib::lemma_seq_concat_contains_all_elements;
    broadcast use NodeId::lemma_index_injective;

    let cs = a.kids(t);
    if n == 0 {
        lemma_apply_visits_keeps_shape(nodes, a.visits_list(t, level, d, n));
        assert(a.visits_list(t, level, d, n) =~= Seq::<Visit>::empty());
        assert forall|u: NodeId| !(#[trigger] a.pre_list(a.kids(t), d, n).contains(u)) by {}
    } else {
        let c = cs[n - 1];
        let before = a.pre_list(cs, d, (n - 1) as nat);
        let sub = a.pre(c, d);
        assert(a.pre_list(cs, d, n) == before + sub);
        lemma_no_dup_split(before, sub);
        lemma_visits_list_of_tree(a, nodes, t, level, d, (n - 1) as nat);
        let w = a.visits_list(t, level, d, (n - 1) as nat);
        let s1 = apply_visits(nodes, w);
        let link = Visit::Link(c, Some(t), (n - 1) as usize);
        let s2 = apply_visit(s1, link);
        let vc = a.visits(c, level + 1, d);
        assert(a.visits_list(t, level, d, n) == w + seq![link] + vc);
        lemma_apply_visits_append(nodes, w, seq![link]);
        lemma_apply_visits_append(nodes, w + seq![link], vc);
        assert(seq![link].drop_last() =~= Seq::<Visit>::empty());
        assert(apply_visits(s1, Seq::<Visit>::empty()) == s1);
        assert(apply_visits(s1, seq![link]) == apply_visit(apply_visits(s1, seq![link].drop_last()), link));
        assert(apply_visits(s1, seq![link]) == s2);
        assert(a.finite_below(c, d));
        assert(a.valid(c));
        lemma_visits_of_tree(a, s2, c, level + 1, d);
        let s = apply_visits(s2, vc);
        a.lemma_pre_starts_with(c, d);
        assert(!before.contains(c));
        assert forall|x: NodeId| a.valid(x) && !(#[trigger] a.pre_list(a.kids(t), d, n).contains(x)) implies s[x.index()
            as int] == nodes[x.index() as int] by {
            assert(!sub.contains(x));
            assert(!before.contains(x));
            assert(x != c);
        }
        assert forall|k: int| 0 <= k < n implies {
            &&& s[(#[trigger] a.kids(t)[k]).index() as int].parent == Some(t)
            &&& s[a.kids(t)[k].index() as int].childno == k as usize
            &&& s[a.kids(t)[k].index() as int].level == level + 1
        } by {
            if k == n - 1 {
                assert(s2[c.index() as int].parent == Some(t));
                assert(s2[c.index() as int].childno == (n - 1) as usize);
            } else {
                let ck = cs[k];
                a.lemma_pre_starts_with(ck, d);
                a.lemma_pre_list_contains(cs, d, (n - 1) as nat, ck);
                assert(before.contains(ck));
                assert(!sub.contains(ck));
                assert(ck != c);
                assert(a.valid(ck));
                assert(s[ck.index() as int] == s2[ck.index() as int]);
                assert(s2[ck.index() as int] == s1[ck.index() as int]);
            }
        }
        assert forall|u: NodeId| #[trigger] a.pre_list(a.kids(t), d, n).contains(u) implies links_down(a, s, u)
            && s[u.index() as int].centeredxy == false by {
            if !sub.contains(u) {
                assert(before.contains(u));
                assert(u != c);
                a.lemma_pre_list_contains(cs, d, (n - 1) as nat, u);
                let ju = choose|j: int| 0 <= j < n - 1 && #[trigger] a.pre(cs[j], d).contains(u);
                a.lemma_pre_valid(cs[ju], d, u);
                assert(s[u.index() as int] == s2[u.index() as int]);
                assert(s2[u.index() as int] == s1[u.index() as int]);
                assert(links_down(a, s1, u));
                assert forall|k: int| 0 <= k < a.kids(u).len() implies {
                    &&& s[(#[trigger] a.kids(u)[k]).index() as int].parent == Some(u)
                    &&& s[a.kids(u)[k].index() as int].childno == k as usize
                    &&& s[a.kids(u)[k].index() as int].level == s[u.index() as int].level + 1
                } by {
                    let w = a.kids(u)[k];
                    a.lemma_pre_list_closed(cs, d, (n - 1) as nat, u, k);
                    assert(before.contains(w));
                    assert(!sub.contains(w));
                    assert(w != c);
                    a.lemma_pre_list_contains(cs, d, (n - 1) as nat, w);
                    let j = choose|j: int| 0 <= j < n - 1 && #[trigger] a.pre(cs[j], d).contains(w);
                    a.lemma_pre_valid(cs[j], d, w);
                    assert(s[w.index() as int] == s2[w.index() as int]);
                    assert(s2[w.index() as int] == s1[w.index() as int]);
                }
            }
        }
    }
}

/// What setting up leaves in the bookkeeping of a tree.
///
/// Where no node is reached twice from `root`, after [`Arena::setup`] the root is at level
/// 0, with no parent and at position 0; every node of the tree has corner coordinates,
/// and each of its children knows it as its parent, knows its position among its siblings
/// and is one level below it, so that every level counts the steps down from the root; and
/// every node outside the tree is as it was.
pub proof fn law_setup_fills_in_the_bookkeeping<G>(before: Arena<G>, after: Arena<G>, root: NodeId)
    requires
        before.finite_below(root, usize::MAX as nat),
        before.preorder_of(root).no_duplicates(),
        after@ == apply_visits(before@, before.setup_visits(root)),
    ensures
        after@.len() == before@.len(),
        after@[root.index() as int].level == 0,
        after@[root.index() as int].centeredxy == false,
        after@[root.index() as int].parent is None,
        after@[root.index() as int].childno == 0,
        forall|u: NodeId|
            #[trigger] before.preorder_of(root).contains(u) ==> links_down(before, after@, u)
                && after@[u.index() as int].centeredxy == false,
        forall|x: NodeId|
            before.valid(x) && !(#[trigger] before.preorder_of(root).contains(x))
                ==> after@[x.index() as int] == before@[x.index() as int],
{
    broadcast use NodeId::lemma_index_injective;

    let m = usize::MAX as nat;
    let link = Visit::Link(root, None, 0);
    let n1 = apply_visit(before@, link);
    lemma_preorder_of_bounded(before, root);
    lemma_apply_visits_append(before@, seq![link], before.visits(root, 0, m));
    assert(seq![link].drop_last() =~= Seq::<Visit>::empty());
    assert(apply_visits(before@, Seq::<Visit>::empty()) == before@);
    assert(apply_visits(before@, seq![link]) == apply_visit(apply_visits(before@, seq![link].drop_last()), link));
    assert(apply_visits(before@, seq![link]) == n1);
    lemma_visits_of_tree(before, n1, root, 0, m);
    before.lemma_pre_starts_with(root, m);
    assert forall|x: NodeId|
        before.valid(x) && !(#[trigger] before.preorder_of(root).contains(x)) implies after@[x.index() as int]
            == before@[x.index() as int] by {
        assert(x != root);
        assert(!before.pre(root, m).contains(x));
    }
}

/// Under a bound on the depth that setting up uses, the preorder is the whole subtree.
proof fn lemma_preorder_of_bounded<G>(a: Arena<G>, root: NodeId)
    requires
        a.finite_below(root, usize::MAX as nat),
    ensures
        a.preorder_of(root) == a.pre(root, usize::MAX as nat),
{
    let m = usize::MAX as nat;
    let db = a.depth_bound(root);
    assert(a.finite_below(root, db));
    if db <= m {
        a.lemma_pre_stable(root, db, m);
    } else {
        a.lemma_pre_stable(root, m, db);
    }
}

/// Entry `e` of the breadth-first mirror of a tree stands for a node of the tree, which
/// setting up leaves at the level of `e`.
proof fn lemma_mirror_entry<G>(before: Arena<G>, after: Arena<G>, root: NodeId, m: Mirror<NodeId>, e: int)
    requires
        before.finite_below(root, usize::MAX as nat),
        before.preorder_of(root).no_duplicates(),
        after@ == apply_visits(before@, before.setup_visits(root)),
        m.is_bfs_of(kids_fn(before), valid_fn(before), root),
        0 <= e < m.size(),
    ensures
        before.preorder_of(root).contains(m.origin@[e]),
        after@[m.origin@[e].index() as int].level == m.level_of(e),
    decreases e,
{
    let kids = kids_fn(before);
    let valid = valid_fn(before);
    law_setup_fills_in_the_bookkeeping(before, after, root);
    lemma_preorder_of_bounded(before, root);
    lemma_level_of(m, kids, valid, root, e);
    if e == 0 {
        before.lemma_pre_starts_with(root, usize::MAX as nat);
        assert(m.levels@[0] <= 0 < m.levels@[1]);
    } else {
        let (j, k) = lemma_bfs_covered(m, kids, valid, root, e, 0);
        lemma_mirror_entry(before, after, root, m, j);
        assert(m.kid_placed(kids, j, k));
        let u = m.origin@[j];
        assert(kids(u) == before.kids(u));
        assert(m.counted(kids, j));
        before.lemma_pre_closed(root, usize::MAX as nat, u, k);
        assert(links_down(before, after@, u));
        assert(before.kids(u)[k] == m.origin@[e]);
        lemma_child_level(m, kids, valid, root, j, k);
    }
}

/// Entry `e` of the breadth-first mirror of a tree, the root aside, stands for a node that
/// setting up links to the node of the parent entry, at the position of `e`.
proof fn lemma_mirror_link<G>(before: Arena<G>, after: Arena<G>, root: NodeId, m: Mirror<NodeId>, e: int)
    requires
        before.finite_below(root, usize::MAX as nat),
        before.preorder_of(root).no_duplicates(),
        after@ == apply_visits(before@, before.setup_visits(root)),
        m.is_bfs_of(kids_fn(before), valid_fn(before), root),
        1 <= e < m.size(),
    ensures
        m.parent@[e] matches Some(j) && after@[m.origin@[e].index() as int].parent == Some(
            m.origin@[j as int],
        ) && after@[m.origin@[e].index() as int].childno == m.childno@[e],
{
    let kids = kids_fn(before);
    let valid = valid_fn(before);
    let (j, k) = lemma_bfs_covered(m, kids, valid, root, e, 0);
    lemma_mirror_entry(before, after, root, m, j);
    let u = m.origin@[j];
    assert(links_down(before, after@, u)) by {
        law_setup_fills_in_the_bookkeeping(before, after, root);
    }
    assert(m.kid_placed(kids, j, k));
    assert(m.counted(kids, j));
    assert(kids(u) == before.kids(u));
    assert(0 <= k < before.kids(u).len());
    let c = before.kids(u)[k];
    assert(c == m.origin@[e]);
    assert(after@[c.index() as int].parent == Some(u));
    assert(after@[c.index() as int].childno == k as usize);
}

/// Every node of the subtree of an entry's node is the node of some entry.
proof fn lemma_subtree_in_mirror<G>(a: Arena<G>, root: NodeId, m: Mirror<NodeId>, t: NodeId, d: nat, j: int, x: NodeId)
    requires
        m.is_bfs_of(kids_fn(a), valid_fn(a), root),
        a.finite_below(t, d),
        0 <= j < m.size(),
        m.origin@[j] == t,
        a.pre(t, d).contains(x),
    ensures
        exists|e: int| 0 <= e < m.size() && m.origin@[e] == x,
    decreases d,
{
    broadcast use vstd::seq_lib::lemma_seq_concat_contains_all_elements;

    let kids = kids_fn(a);
    let cs = a.kids(t);
    let rest = a.pre_list(cs, (d - 1) as nat, cs.len());
    assert(a.pre(t, d) == seq![t] + rest);
    if x == t {
        assert(m.origin@[j] == x);
    } else {
        assert(rest.contains(x));
        a.lemma_pre_list_contains(cs, (d - 1) as nat, cs.len(), x);
        let k = choose|k: int| 0 <= k < cs.len() && #[trigger] a.pre(cs[k], (d - 1) as nat).contains(x);
        assert(m.counted(kids, j));
        assert(kids(t) == cs);
        assert(m.kid_placed(kids, j, k));
        let e = m.first_child@[j] + k;
        assert(a.finite_below(cs[k], (d - 1) as nat));
        lemma_subtree_in_mirror(a, root, m, cs[k], (d - 1) as nat, e, x);
    }
}

/// Every entry of a breadth-first mirror stands for a node of the subtree.
proof fn lemma_mirror_in_subtree<G>(a: Arena<G>, root: NodeId, m: Mirror<NodeId>, e: int)
    requires
        a.is_tree_at(root),
        m.is_bfs_of(kids_fn(a), valid_fn(a), root),
        0 <= e < m.size(),
    ensures
        a.preorder_of(root).contains(m.origin@[e]),
    decreases e,
{
    let kids = kids_fn(a);
    let valid = valid_fn(a);
    let db = a.depth_bound(root);
    assert(a.finite_below(root, db));
    if e == 0 {
        a.lemma_pre_starts_with(root, db);
    } else {
        let (j, k) = lemma_bfs_covered(m, kids, valid, root, e, 0);
        lemma_mirror_in_subtree(a, root, m, j);
        assert(m.kid_placed(kids, j, k));
        assert(m.counted(kids, j));
        let u = m.origin@[j];
        assert(kids(u) == a.kids(u));
        a.lemma_pre_closed(root, db, u, k);
    }
}

/// The mirror holds the subtree, and nothing else: a node is the node of some entry of the
/// breadth-first mirror of `root` exactly when it is in the subtree of `root`, so that the
/// flat layout writes back every node the recursive one lays out, and no other.
pub proof fn law_mirror_holds_the_subtree<G>(a: Arena<G>, root: NodeId, m: Mirror<NodeId>)
    requires
        a.is_tree_at(root),
        m.is_bfs_of(kids_fn(a), valid_fn(a), root),
    ensures
        forall|x: NodeId|
            (exists|e: int| 0 <= e < m.size() && m.origin@[e] == x) <==> #[trigger] a.preorder_of(
                root,
            ).contains(x),
{
    let db = a.depth_bound(root);
    assert forall|x: NodeId|
        (exists|e: int| 0 <= e < m.size() && m.origin@[e] == x) <==> #[trigger] a.preorder_of(
            root,
        ).contains(x) by {
        if exists|e: int| 0 <= e < m.size() && m.origin@[e] == x {
            let e = choose|e: int| 0 <= e < m.size() && m.origin@[e] == x;
            lemma_mirror_in_subtree(a, root, m, e);
        }
        if a.preorder_of(root).contains(x) {
            assert(a.finite_below(root, db));
            lemma_subtree_in_mirror(a, root, m, root, db, 0, x);
        }
    }
}

/// The mirror and the recursion fill in the same bookkeeping.
///
/// On a tree, where no node is reached twice from `root`, every entry of the breadth-first
/// mirror stands for a node that [`Arena::setup`] leaves at the level of the entry, every
/// entry but the root for one that it leaves with the node of the parent entry as its
/// parent and the position of the entry among its siblings as its own, and the root entry
/// for one that it leaves with no parent at position 0, as the mirror has it: what the flat
/// layout writes back from its mirror is what the recursive layout writes.
pub proof fn law_mirror_agrees_with_setup<G>(before: Arena<G>, after: Arena<G>, root: NodeId, m: Mirror<NodeId>)
    requires
        before.finite_below(root, usize::MAX as nat),
        before.preorder_of(root).no_duplicates(),
        after@ == apply_visits(before@, before.setup_visits(root)),
        m.is_bfs_of(kids_fn(before), valid_fn(before), root),
    ensures
        forall|e: int|
            0 <= e < m.size() ==> after@[(#[trigger] m.origin@[e]).index() as int].level
                == m.level_of(e),
        forall|e: int|
            1 <= e < m.size() ==> (#[trigger] m.parent@[e] matches Some(j) && after@[m.origin@[e].index() as int].parent
                == Some(m.origin@[j as int]) && after@[m.origin@[e].index() as int].childno
                == m.childno@[e]),
        after@[m.origin@[0].index() as int].parent is None,
        after@[m.origin@[0].index() as int].childno == m.childno@[0],
{
    law_setup_fills_in_the_bookkeeping(before, after, root);
    let kids = kids_fn(before);
    let valid = valid_fn(before);
    assert forall|e: int| 0 <= e < m.size() implies after@[(#[trigger] m.origin@[e]).index() as int].level
        == m.level_of(e) by {
        lemma_mirror_entry(before, after, root, m, e);
    }
    assert forall|e: int|
        1 <= e < m.size() implies (#[trigger] m.parent@[e] matches Some(j) && after@[m.origin@[e].index() as int].parent
            == Some(m.origin@[j as int]) && after@[m.origin@[e].index() as int].childno
            == m.childno@[e]) by {
        lemma_mirror_link(before, after, root, m, e);
    }
}

} // verus!
