//! The walks behind the fringe helpers: which nodes lie below a node, or between two
//! nodes, up to a target.
//!
//! The deepest point of such a region is the largest bottom over the nodes these walks
//! visit; the walks say which nodes those are, in the order they are met, and the caller
//! compares their bottoms.
use vstd::prelude::*;

use crate::arena::{Arena, NodeId};

verus! {

/// The first position from `lo` on where `q` holds `to`, or the length of `q` when it
/// holds `to` nowhere from `lo` on.
pub open spec fn first_index(q: Seq<NodeId>, to: NodeId, lo: int) -> int
    decreases q.len() - lo,
{
    if lo >= q.len() {
        q.len() as int
    } else if q[lo] == to {
        lo
    } else {
        first_index(q, to, lo + 1)
    }
}

/// [`first_index`] is the first position from `lo` on that holds `to`.
pub proof fn lemma_first_index(q: Seq<NodeId>, to: NodeId, lo: int)
    requires
        0 <= lo <= q.len(),
    ensures
        lo <= first_index(q, to, lo) <= q.len(),
        first_index(q, to, lo) < q.len() ==> q[first_index(q, to, lo)] == to,
        forall|i: int| lo <= i < first_index(q, to, lo) ==> q[i] != to,
    decreases q.len() - lo,
{
    if lo < q.len() && q[lo] != to {
        lemma_first_index(q, to, lo + 1);
    }
}

/// Where `to` first shows in two sequences one after the other.
pub proof fn lemma_first_index_concat(q1: Seq<NodeId>, q2: Seq<NodeId>, to: NodeId, lo: int)
    requires
        0 <= lo <= q1.len(),
    ensures
        first_index(q1 + q2, to, lo) == if first_index(q1, to, lo) < q1.len() {
            first_index(q1, to, lo)
        } else {
            q1.len() + first_index(q2, to, 0)
        },
    decreases q1.len() - lo,
{
    let q = q1 + q2;
    if lo < q1.len() {
        assert(q[lo] == q1[lo]);
        if q1[lo] != to {
            lemma_first_index_concat(q1, q2, to, lo + 1);
        }
    } else {
        lemma_first_index_shift(q1, q2, to, 0);
    }
}

/// Past the end of `q1`, searching `q1 + q2` is searching `q2`.
proof fn lemma_first_index_shift(q1: Seq<NodeId>, q2: Seq<NodeId>, to: NodeId, k: int)
    requires
        0 <= k <= q2.len(),
    ensures
        first_index(q1 + q2, to, q1.len() + k) == q1.len() + first_index(q2, to, k),
    decreases q2.len() - k,
{
    if k < q2.len() {
        assert((q1 + q2)[q1.len() + k] == q2[k]);
        if q2[k] != to {
            lemma_first_index_shift(q1, q2, to, k + 1);
        }
    }
}

/// The subtrees of `cs`, each in preorder, one after the other.
pub open spec fn preorders<G>(a: Arena<G>, cs: Seq<NodeId>) -> Seq<NodeId>
    decreases cs.len(),
{
    if cs.len() == 0 {
        seq![]
    } else {
        preorders(a, cs.drop_last()) + a.preorder_of(cs.last())
    }
}

/// The parent links climb from `x` to a root in fewer than `d` steps, and every parent met
/// on the way is a node with a finite subtree.
pub open spec fn climbs<G>(a: Arena<G>, x: NodeId, d: nat) -> bool
    decreases d,
{
    &&& d > 0
    &&& a.valid(x)
    &&& match a@[x.index() as int].parent {
        None => true,
        Some(p) => a.valid(p) && a.is_tree_at(p) && climbs(a, p, (d - 1) as nat),
    }
}

/// The siblings after `x` under its parent `p`.
pub open spec fn later_siblings<G>(a: Arena<G>, p: NodeId, x: NodeId) -> Seq<NodeId> {
    let cs = a.kids(p);
    let from = a@[x.index() as int].childno + 1;
    if from < cs.len() {
        cs.subrange(from, cs.len() as int)
    } else {
        seq![]
    }
}

/// What [`max_bottom_between_walk`] visits from `x` up, within `d` steps: the subtrees of
/// the siblings after `x`, in order, up to `to`; and, when `to` is not among them, the same
/// again from the parent.
pub open spec fn between_walk<G>(a: Arena<G>, x: NodeId, to: NodeId, d: nat) -> Seq<NodeId>
    decreases d,
{
    if d == 0 {
        seq![]
    } else {
        match a@[x.index() as int].parent {
            None => seq![],
            Some(p) => {
                let q = preorders(a, later_siblings(a, p, x));
                let j = first_index(q, to, 0);
                if j < q.len() {
                    q.take(j)
                } else {
                    q + between_walk(a, p, to, (d - 1) as nat)
                }
            },
        }
    }
}

/// Climbing from `x` within `d` steps, the subtrees of the siblings after each node on the
/// way, in order, with no target to stop at.
pub open spec fn climb_walk<G>(a: Arena<G>, x: NodeId, d: nat) -> Seq<NodeId>
    decreases d,
{
    if d == 0 {
        seq![]
    } else {
        match a@[x.index() as int].parent {
            None => seq![],
            Some(p) => preorders(a, later_siblings(a, p, x)) + climb_walk(a, p, (d - 1) as nat),
        }
    }
}

/// The walk between `x` and `to` is the whole climb from `x` cut just before the first
/// place `to` shows in it, wherever that is: among the later siblings, deep inside the
/// subtree of one of them, or higher up. So it never holds `to`, and nothing met after
/// `to` is looked at.
pub proof fn law_between_walk_stops_at_to<G>(a: Arena<G>, x: NodeId, to: NodeId, d: nat)
    ensures
        between_walk(a, x, to, d) == climb_walk(a, x, d).take(first_index(climb_walk(a, x, d), to, 0)),
        !between_walk(a, x, to, d).contains(to),
    decreases d,
{
    let f = climb_walk(a, x, d);
    lemma_first_index(f, to, 0);
    if d > 0 {
        match a@[x.index() as int].parent {
            None => {},
            Some(p) => {
                let q = preorders(a, later_siblings(a, p, x));
                let fp = climb_walk(a, p, (d - 1) as nat);
                assert(f == q + fp);
                lemma_first_index(q, to, 0);
                lemma_first_index(fp, to, 0);
                lemma_first_index_concat(q, fp, to, 0);
                let j = first_index(q, to, 0);
                if j < q.len() {
                    assert(f.take(j) =~= q.take(j));
                } else {
                    law_between_walk_stops_at_to(a, p, to, (d - 1) as nat);
                    let k = first_index(fp, to, 0);
                    assert(f.take(q.len() + k) =~= q + fp.take(k));
                }
            },
        }
    }
    let w = between_walk(a, x, to, d);
    assert(w == f.take(first_index(f, to, 0)));
    if w.contains(to) {
        let i = choose|i: int| 0 <= i < w.len() && w[i] == to;
        assert(f[i] == to);
    }
}

/// A bound on the climb from `x` to its root, when there is one.
pub open spec fn climb_bound<G>(a: Arena<G>, x: NodeId) -> nat {
    choose|d: nat| climbs(a, x, d)
}

/// The nodes whose bottoms `max_bottom` compares: the subtree of `t` in preorder, up to
/// the first node below `t` that is `to`, which is left out, as is everything after it.
///
/// `found` is set when `to` is met, and a walk that starts with `found` set looks at `t`
/// alone.
pub fn max_bottom_walk<G>(a: &Arena<G>, t: NodeId, to: NodeId, found: &mut bool, out: &mut Vec<NodeId>)
    requires
        a.is_tree_at(t),
    ensures
        ({
            let p = a.preorder_of(t);
            let j = first_index(p, to, 1);
            if *old(found) {
                &&& final(out)@ == old(out)@.push(t)
                &&& *final(found)
            } else {
                &&& final(out)@ == old(out)@ + p.take(j)
                &&& *final(found) == (j < p.len())
            }
        }),
{
    let ghost d = a.depth_bound(t);
    walk_below(a, t, to, found, out, Ghost(d));
}

/// [`max_bottom_walk`], with a bound on the depth of the subtree.
fn walk_below<G>(a: &Arena<G>, t: NodeId, to: NodeId, found: &mut bool, out: &mut Vec<NodeId>, Ghost(d): Ghost<nat>)
    requires
        a.finite_below(t, d),
    ensures
        ({
            let p = a.pre(t, d);
            let j = first_index(p, to, 1);
            if *old(found) {
                &&& final(out)@ == old(out)@.push(t)
                &&& *final(found)
            } else {
                &&& final(out)@ == old(out)@ + p.take(j)
                &&& *final(found) == (j < p.len())
            }
        }),
    decreases d,
{
    let ghost start = out@;
    let ghost was_found = *found;
    let ghost cs = a.kids(t);
    let ghost p = a.pre(t, d);
    proof {
        assert(p == seq![t] + a.pre_list(cs, (d - 1) as nat, cs.len()));
        assert(p[0] == t);
        assert(p.take(p.len() as int) =~= p);
    }
    out.push(t);
    let n = a.nchildren(t);
    let mut i: usize = 0;
    while !*found && i < n
        invariant_except_break
            a.finite_below(t, d),
            n == cs.len(),
            cs == a.kids(t),
            p == seq![t] + a.pre_list(cs, (d - 1) as nat, cs.len()),
            p.take(p.len() as int) == p,
            i <= n,
            was_found ==> *found && out@ == start.push(t),
            !was_found ==> {
                let q = seq![t] + a.pre_list(cs, (d - 1) as nat, i as nat);
                &&& !*found
                &&& out@ == start + q
                &&& first_index(q, to, 1) == q.len()
            },
        ensures
            was_found ==> *found && out@ == start.push(t),
            !was_found ==> {
                let j = first_index(p, to, 1);
                &&& out@ == start + p.take(j)
                &&& *found == (j < p.len())
            },
        decreases n - i,
    {
        let c = a.child(t, i);
        let ghost q = seq![t] + a.pre_list(cs, (d - 1) as nat, i as nat);
        let ghost rest = a.pre_list(cs, (d - 1) as nat, cs.len());
        proof {
            assert(a.finite_below(cs[i as int], (d - 1) as nat));
            lemma_pre_list_split(*a, cs, (d - 1) as nat, i as nat);
        }
        let ghost tail = a.pre_list_from(cs, (d - 1) as nat, i as nat);
        let ghost pc = a.pre(c, (d - 1) as nat);
        proof {
            assert(rest == a.pre_list(cs, (d - 1) as nat, i as nat) + tail);
            assert(tail == pc + a.pre_list_from(cs, (d - 1) as nat, (i + 1) as nat));
            assert(p =~= q + tail);
            assert(pc[0] == c);
            lemma_first_index_concat(q, tail, to, 1);
        }
        if c == to {
            *found = true;
            proof {
                assert(first_index(tail, to, 0) == 0);
                assert(p.take(q.len() as int) =~= q);
            }
            break;
        }
        let ghost before = out@;
        walk_below(a, c, to, found, out, Ghost((d - 1) as nat));
        proof {
            let jc = first_index(pc, to, 1);
            let rest_after = a.pre_list_from(cs, (d - 1) as nat, (i + 1) as nat);
            lemma_first_index(pc, to, 1);
            assert(first_index(tail, to, 0) == first_index(tail, to, 1));
            lemma_first_index_concat(pc, rest_after, to, 1);
            let q2 = seq![t] + a.pre_list(cs, (d - 1) as nat, (i + 1) as nat);
            assert(a.pre_list(cs, (d - 1) as nat, (i + 1) as nat) == a.pre_list(cs, (d - 1) as nat, i as nat) + pc);
            assert(q2 =~= q + pc);
            if *found {
                assert(p.take(q.len() + jc) =~= q + pc.take(jc));
            } else {
                assert(pc.take(jc) =~= pc);
                assert(first_index(pc, to, 0) == first_index(pc, to, 1));
                lemma_first_index_concat(q, pc, to, 1);
            }
        }
        if *found {
            break;
        }
        i = i + 1;
    }
}

/// The subtrees of the first `n` of `cs`, and those of the rest, make up all of them.
proof fn lemma_pre_list_split<G>(a: Arena<G>, cs: Seq<NodeId>, d: nat, n: nat)
    requires
        n <= cs.len(),
    ensures
        a.pre_list(cs, d, cs.len()) == a.pre_list(cs, d, n) + a.pre_list_from(cs, d, n),
        n < cs.len() ==> a.pre_list_from(cs, d, n) == a.pre(cs[n as int], d) + a.pre_list_from(
            cs,
            d,
            n + 1,
        ),
    decreases cs.len() - n,
{
    if n < cs.len() {
        lemma_pre_list_split(a, cs, d, n + 1);
        assert(a.pre_list(cs, d, n + 1) == a.pre_list(cs, d, n) + a.pre(cs[n as int], d));
    } else {
        assert(a.pre_list(cs, d, n) + a.pre_list_from(cs, d, n) =~= a.pre_list(cs, d, n));
    }
}

/// The subtrees of two runs of nodes, one after the other, are those of the two runs
/// together.
pub proof fn lemma_preorders_concat<G>(a: Arena<G>, cs1: Seq<NodeId>, cs2: Seq<NodeId>)
    ensures
        preorders(a, cs1 + cs2) == preorders(a, cs1) + preorders(a, cs2),
    decreases cs2.len(),
{
    if cs2.len() == 0 {
        assert(cs1 + cs2 =~= cs1);
        assert(preorders(a, cs1) + preorders(a, cs2) =~= preorders(a, cs1));
    } else {
        assert((cs1 + cs2).drop_last() =~= cs1 + cs2.drop_last());
        assert((cs1 + cs2).last() == cs2.last());
        lemma_preorders_concat(a, cs1, cs2.drop_last());
        assert(preorders(a, cs1 + cs2) =~= preorders(a, cs1) + preorders(a, cs2));
    }
}

/// The children of a node with a finite subtree have finite subtrees, each starting with
/// the child itself.
proof fn lemma_child_is_tree<G>(a: Arena<G>, p: NodeId, k: int)
    requires
        a.is_tree_at(p),
        0 <= k < a.kids(p).len(),
    ensures
        a.is_tree_at(a.kids(p)[k]),
        a.preorder_of(a.kids(p)[k]).len() > 0,
        a.preorder_of(a.kids(p)[k])[0] == a.kids(p)[k],
{
    let d = a.depth_bound(p);
    let c = a.kids(p)[k];
    assert(a.finite_below(c, (d - 1) as nat));
    let dc = a.depth_bound(c);
    assert(a.finite_below(c, dc));
    assert(a.preorder_of(c) == seq![c] + a.pre_list(a.kids(c), (dc - 1) as nat, a.kids(c).len()));
}

/// The nodes whose bottoms `max_bottom_between` compares: climbing from `from`, the
/// subtrees of the siblings after each node on the way, in order, up to the first that is or
/// holds `to`, which is left out, as is everything after it.
pub fn max_bottom_between_walk<G>(a: &Arena<G>, from: NodeId, to: NodeId, out: &mut Vec<NodeId>)
    requires
        exists|d: nat| climbs(*a, from, d),
    ensures
        final(out)@ == old(out)@ + between_walk(*a, from, to, climb_bound(*a, from)),
        ({
            let f = climb_walk(*a, from, climb_bound(*a, from));
            final(out)@ == old(out)@ + f.take(first_index(f, to, 0))
        }),
{
    let ghost d = climb_bound(*a, from);
    walk_between(a, from, to, out, Ghost(d));
    proof {
        law_between_walk_stops_at_to(*a, from, to, d);
    }
}

/// [`max_bottom_between_walk`], with a bound on the climb.
fn walk_between<G>(a: &Arena<G>, x: NodeId, to: NodeId, out: &mut Vec<NodeId>, Ghost(d): Ghost<nat>)
    requires
        climbs(*a, x, d),
    ensures
        final(out)@ == old(out)@ + between_walk(*a, x, to, d),
    decreases d,
{
    let ghost start = out@;
    let node = a.node(x);
    let p = match node.parent {
        Some(p) => p,
        None => {
            proof {
                assert(out@ =~= start + between_walk(*a, x, to, d));
            }
            return;
        },
    };
    let ghost cs = a.kids(p);
    let nch = a.nchildren(p);
    let s0 = if node.childno < nch {
        node.childno + 1
    } else {
        nch
    };
    let ghost sibs = cs.subrange(s0 as int, nch as int);
    let ghost q = preorders(*a, sibs);
    proof {
        assert(later_siblings(*a, p, x) =~= sibs);
        assert(cs.subrange(s0 as int, s0 as int) =~= Seq::<NodeId>::empty());
        assert(out@ =~= start + preorders(*a, cs.subrange(s0 as int, s0 as int)));
    }
    let mut found = false;
    let mut i: usize = s0;
    while !found && i < nch
        invariant_except_break
            a.is_tree_at(p),
            a.valid(p),
            cs == a.kids(p),
            nch == cs.len(),
            s0 <= i <= nch,
            sibs == cs.subrange(s0 as int, nch as int),
            q == preorders(*a, sibs),
            !found,
            out@ == start + preorders(*a, cs.subrange(s0 as int, i as int)),
            first_index(preorders(*a, cs.subrange(s0 as int, i as int)), to, 0) == preorders(
                *a,
                cs.subrange(s0 as int, i as int),
            ).len(),
        ensures
            found ==> {
                &&& first_index(q, to, 0) < q.len()
                &&& out@ == start + q.take(first_index(q, to, 0))
            },
            !found ==> {
                &&& first_index(q, to, 0) == q.len()
                &&& out@ == start + q
            },
        decreases nch - i,
    {
        let c = a.child(p, i);
        let ghost qi = preorders(*a, cs.subrange(s0 as int, i as int));
        let ghost pc = a.preorder_of(c);
        let ghost rest = preorders(*a, cs.subrange(i + 1, nch as int));
        proof {
            lemma_child_is_tree(*a, p, i as int);
            assert(sibs =~= cs.subrange(s0 as int, i as int) + seq![c] + cs.subrange(i + 1, nch as int));
            lemma_preorders_concat(*a, cs.subrange(s0 as int, i as int) + seq![c], cs.subrange(i + 1, nch as int));
            lemma_preorders_concat(*a, cs.subrange(s0 as int, i as int), seq![c]);
            assert(seq![c].drop_last() =~= Seq::<NodeId>::empty());
            assert(preorders(*a, Seq::<NodeId>::empty()) =~= Seq::<NodeId>::empty());
            assert(seq![c].last() == c);
            assert(preorders(*a, seq![c]) =~= pc);
            assert(q =~= qi + (pc + rest));
            lemma_first_index_concat(qi, pc + rest, to, 0);
            assert((pc + rest)[0] == c);
        }
        if c == to {
            found = true;
            proof {
                assert(q.take(qi.len() as int) =~= qi);
            }
            break;
        }
        max_bottom_walk(a, c, to, &mut found, out);
        proof {
            let jc = first_index(pc, to, 1);
            lemma_first_index(pc, to, 1);
            assert(first_index(pc + rest, to, 0) == first_index(pc + rest, to, 1));
            lemma_first_index_concat(pc, rest, to, 1);
            assert(cs.subrange(s0 as int, i + 1) =~= cs.subrange(s0 as int, i as int) + seq![c]);
            if found {
                assert(q.take(qi.len() + jc) =~= qi + pc.take(jc));
            } else {
                assert(pc.take(jc) =~= pc);
                assert(first_index(pc, to, 0) == first_index(pc, to, 1));
                lemma_first_index_concat(qi, pc, to, 0);
            }
        }
        if found {
            break;
        }
        i = i + 1;
    }
    proof {
        if !found {
            assert(q.take(q.len() as int) =~= q);
        }
    }
    if !found {
        walk_between(a, p, to, out, Ghost((d - 1) as nat));
        proof {
            assert(out@ =~= start + between_walk(*a, x, to, d));
        }
    } else {
        proof {
            assert(out@ =~= start + between_walk(*a, x, to, d));
        }
    }
}

impl<G> Arena<G> {
    /// The subtrees of `cs` from the `n`-th on, one after the other.
    pub open spec fn pre_list_from(self, cs: Seq<NodeId>, d: nat, n: nat) -> Seq<NodeId>
        decreases cs.len() - n,
    {
        if n >= cs.len() {
            seq![]
        } else {
            self.pre(cs[n as int], d) + self.pre_list_from(cs, d, n + 1)
        }
    }
}

} // verus!
