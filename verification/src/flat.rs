//! The tree transposed into breadth-first order, which is what the sweeps of the flat
//! layout run over, and the choice of kernels for the elementwise sweeps.
//!
//! Copying the tree in breadth-first order makes the children of a node a contiguous
//! range of entries and every level of the tree a contiguous range too, so that each walk
//! of the layout becomes a sweep over arrays, forwards or backwards, with no recursion. This
//! module builds that order; the arithmetic of the sweeps is done over it elsewhere.
use vstd::prelude::*;

use crate::arena::{Arena, NodeId};

verus! {

/// Something whose elements have children, in order: an [`Arena`], or the arrays of the
/// flat API.
pub trait Shape {
    /// What names an element.
    type Key: Copy;

    /// Whether the whole is ready to be read.
    spec fn spec_ready(&self) -> bool;

    /// Whether `x` names an element.
    spec fn spec_valid(&self, x: Self::Key) -> bool;

    /// The children of `x`, in left to right order.
    spec fn spec_kids(&self, x: Self::Key) -> Seq<Self::Key>;

    /// Whether `x` names an element.
    fn is_valid(&self, x: Self::Key) -> (r: bool)
        requires
            self.spec_ready(),
        ensures
            r == self.spec_valid(x),
    ;

    /// How many children `x` has.
    fn kid_count(&self, x: Self::Key) -> (r: usize)
        requires
            self.spec_ready(),
            self.spec_valid(x),
        ensures
            r == self.spec_kids(x).len(),
    ;

    /// The `k`-th child of `x`.
    fn kid(&self, x: Self::Key, k: usize) -> (r: Self::Key)
        requires
            self.spec_ready(),
            self.spec_valid(x),
            k < self.spec_kids(x).len(),
        ensures
            r == self.spec_kids(x)[k as int],
    ;
}

/// Every path down from `x` names valid elements and is shorter than `d`.
pub open spec fn finite_in<K>(kids: spec_fn(K) -> Seq<K>, valid: spec_fn(K) -> bool, x: K, d: nat) -> bool
    decreases d,
{
    &&& d > 0
    &&& valid(x)
    &&& forall|k: int|
        0 <= k < kids(x).len() ==> finite_in(kids, valid, #[trigger] kids(x)[k], (d - 1) as nat)
}

/// Every path down from `x` names elements of `s` and is shorter than `d`.
pub open spec fn finite_under<S: Shape>(s: S, x: S::Key, d: nat) -> bool {
    finite_in(kids_fn(s), valid_fn(s), x, d)
}

/// The children of each element of `s`, as a function.
pub open spec fn kids_fn<S: Shape>(s: S) -> spec_fn(S::Key) -> Seq<S::Key> {
    |x: S::Key| s.spec_kids(x)
}

/// Which keys name elements of `s`, as a function.
pub open spec fn valid_fn<S: Shape>(s: S) -> spec_fn(S::Key) -> bool {
    |x: S::Key| s.spec_valid(x)
}

impl<G> Shape for Arena<G> {
    type Key = NodeId;

    open spec fn spec_ready(&self) -> bool {
        true
    }

    open spec fn spec_valid(&self, x: NodeId) -> bool {
        self.valid(x)
    }

    open spec fn spec_kids(&self, x: NodeId) -> Seq<NodeId> {
        self.kids(x)
    }

    fn is_valid(&self, x: NodeId) -> (r: bool) {
        x.index() < self.len()
    }

    fn kid_count(&self, x: NodeId) -> (r: usize) {
        self.nchildren(x)
    }

    fn kid(&self, x: NodeId, k: usize) -> (r: NodeId) {
        self.child(x, k)
    }
}

/// The two bounds on the paths of an arena say the same thing.
pub proof fn lemma_finite_under_arena<G>(a: Arena<G>, t: NodeId, d: nat)
    ensures
        finite_under(a, t, d) == a.finite_below(t, d),
    decreases d,
{
    let kf = kids_fn(a);
    let vf = valid_fn(a);
    if d > 0 {
        assert(kf(t) == a.kids(t));
        assert forall|k: int| 0 <= k < a.kids(t).len() implies finite_in(
            kf,
            vf,
            #[trigger] a.kids(t)[k],
            (d - 1) as nat,
        ) == a.finite_below(a.kids(t)[k], (d - 1) as nat) by {
            lemma_finite_under_arena(a, a.kids(t)[k], (d - 1) as nat);
        }
        if finite_in(kf, vf, t, d) {
            assert forall|k: int| 0 <= k < a.kids(t).len() implies a.finite_below(
                #[trigger] a.kids(t)[k],
                (d - 1) as nat,
            ) by {
                assert(finite_in(kf, vf, kf(t)[k], (d - 1) as nat));
            }
        }
        if a.finite_below(t, d) {
            assert forall|k: int| 0 <= k < kf(t).len() implies finite_in(
                kf,
                vf,
                #[trigger] kf(t)[k],
                (d - 1) as nat,
            ) by {
                assert(a.finite_below(a.kids(t)[k], (d - 1) as nat));
            }
        }
    }
}

/// Whether every path down from `root` names nodes of `a` and is shorter than `bound`: a
/// tree, or a hierarchy that shares nodes, whose walks end.
///
/// Where it is, it is also within any bound larger than `bound`, `usize::MAX` among them.
pub fn is_tree_within<G>(a: &Arena<G>, root: NodeId, bound: usize) -> (r: bool)
    ensures
        r == a.finite_below(root, bound as nat),
        r ==> a.finite_below(root, usize::MAX as nat),
{
    let mut m: Mirror<NodeId> = Mirror::new();
    let r = m.rebuild_within(a, root, bound);
    proof {
        lemma_finite_under_arena(*a, root, bound as nat);
        lemma_finite_under_arena(*a, root, usize::MAX as nat);
        if r {
            lemma_finite_in_mono(kids_fn(*a), valid_fn(*a), root, bound as nat, usize::MAX as nat);
        }
    }
    r
}

/// The sum of the first `j` values of `s`.
pub open spec fn sum_prefix(s: Seq<usize>, j: int) -> int
    decreases j,
{
    if j <= 0 {
        0
    } else {
        sum_prefix(s, j - 1) + s[j - 1]
    }
}

/// A prefix sum reads nothing past its prefix.
pub proof fn lemma_sum_prefix_agree(s: Seq<usize>, t: Seq<usize>, j: int)
    requires
        0 <= j <= s.len(),
        j <= t.len(),
        forall|k: int| 0 <= k < j ==> s[k] == t[k],
    ensures
        sum_prefix(s, j) == sum_prefix(t, j),
    decreases j,
{
    if j > 0 {
        lemma_sum_prefix_agree(s, t, j - 1);
    }
}

/// Prefix sums of counts never decrease.
pub proof fn lemma_sum_prefix_mono(s: Seq<usize>, i: int, j: int)
    requires
        0 <= i <= j,
    ensures
        sum_prefix(s, i) <= sum_prefix(s, j),
    decreases j,
{
    if i < j {
        lemma_sum_prefix_mono(s, i, j - 1);
    }
}

/// A tree in breadth-first order.
///
/// Entry 0 is the root. The children of entry `i` are the `child_count[i]` entries from
/// `first_child[i]` on, in order, and level `l` of the tree is the entries from
/// `levels[l]` to `levels[l + 1]`.
#[derive(Debug)]
pub struct Mirror<K> {
    /// What each entry stands for: a node of the arena, or an element of the arrays.
    pub origin: Vec<K>,
    /// The entry of the parent; `None` for the root.
    pub parent: Vec<Option<usize>>,
    /// The position of the entry among its parent's children; 0 for the root.
    pub childno: Vec<usize>,
    /// Where the children of each entry start.
    pub first_child: Vec<usize>,
    /// How many children each entry has.
    pub child_count: Vec<usize>,
    /// Level `l` spans `levels[l]..levels[l + 1]`.
    pub levels: Vec<usize>,
}

impl<K> Mirror<K> {
    /// How many entries the mirror holds.
    pub open spec fn size(self) -> int {
        self.origin@.len() as int
    }

    /// Entry `j` has as many children as what it stands for, and they start right after
    /// the children of every entry before it.
    pub open spec fn counted(self, kids: spec_fn(K) -> Seq<K>, j: int) -> bool {
        &&& self.child_count@[j] == kids(self.origin@[j]).len()
        &&& self.first_child@[j] == 1 + sum_prefix(self.child_count@, j)
    }

    /// The `k`-th child of entry `j` is in place: it stands for the `k`-th child of what
    /// `j` stands for, and it knows its parent and its position.
    pub open spec fn kid_placed(self, kids: spec_fn(K) -> Seq<K>, j: int, k: int) -> bool {
        let e = self.first_child@[j] + k;
        &&& e < self.size()
        &&& self.origin@[e] == kids(self.origin@[j])[k]
        &&& self.parent@[e] == Some(j as usize)
        &&& self.childno@[e] == k
    }

    /// Level `l` holds the children of level `l - 1`, the root being level 0.
    pub open spec fn levels_ok(self) -> bool {
        &&& self.levels@.len() >= 2
        &&& self.levels@[0] == 0
        &&& self.levels@.last() == self.size()
        &&& forall|l: int|
            0 <= l < self.levels@.len() - 1 ==> #[trigger] self.levels@[l] < self.levels@[l + 1]
                && self.levels@[l + 1] == 1 + sum_prefix(self.child_count@, self.levels@[l] as int)
    }

    /// The entries are the tree under `root` in `s`, in breadth-first order.
    pub open spec fn is_bfs_of(self, kids: spec_fn(K) -> Seq<K>, valid: spec_fn(K) -> bool, root: K) -> bool {
        let n = self.size();
        &&& self.expanded(kids, n)
        &&& n >= 1
        &&& self.origin@[0] == root
        &&& self.parent@[0] is None
        &&& self.childno@[0] == 0
        &&& forall|i: int| 0 <= i < n ==> valid(#[trigger] self.origin@[i])
        &&& self.levels_ok()
    }

    /// The five per-entry vectors have one value per entry.
    pub open spec fn lens_agree(self) -> bool {
        let n = self.size();
        &&& self.parent@.len() == n
        &&& self.childno@.len() == n
        &&& self.first_child@.len() == n
        &&& self.child_count@.len() == n
    }

    /// The first `i` entries have had their children pushed, in order, and nothing else
    /// has been pushed.
    pub open spec fn expanded(self, kids: spec_fn(K) -> Seq<K>, i: int) -> bool {
        &&& self.lens_agree()
        &&& 0 <= i <= self.size()
        &&& forall|j: int| 0 <= j < i ==> #[trigger] self.counted(kids, j)
        &&& forall|j: int, k: int|
            0 <= j < i && 0 <= k < self.child_count@[j] ==> #[trigger] self.kid_placed(kids, j, k)
        &&& self.size() == 1 + sum_prefix(self.child_count@, i)
    }
}

impl<K: Copy> Mirror<K> {
    /// An empty mirror, to be filled by [`Mirror::rebuild`].
    pub fn new() -> (r: Self)
        ensures
            r.origin@.len() == 0,
            r.parent@.len() == 0,
            r.childno@.len() == 0,
            r.first_child@.len() == 0,
            r.child_count@.len() == 0,
            r.levels@.len() == 0,
    {
        Mirror {
            origin: Vec::new(),
            parent: Vec::new(),
            childno: Vec::new(),
            first_child: Vec::new(),
            child_count: Vec::new(),
            levels: Vec::new(),
        }
    }

    /// What [`Mirror::expand`] does keeps the first entries expanded, and one more.
    #[verifier::rlimit(40)]
    proof fn lemma_expand_step(o: Self, w: Self, kids: spec_fn(K) -> Seq<K>, i: int)
        requires
            o.expanded(kids, i),
            0 <= i < o.size(),
            w.lens_agree(),
            w.size() == o.size() + kids(o.origin@[i]).len(),
            kids(o.origin@[i]).len() <= usize::MAX,
            o.size() <= usize::MAX,
            forall|j: int|
                0 <= j < o.size() ==> #[trigger] w.origin@[j] == o.origin@[j] && w.child_count@[j]
                    == (if j == i {
                    kids(o.origin@[i]).len() as usize
                } else {
                    o.child_count@[j]
                }) && w.first_child@[j] == (if j == i {
                    o.size() as usize
                } else {
                    o.first_child@[j]
                }) && w.parent@[j] == o.parent@[j] && w.childno@[j] == o.childno@[j],
            forall|kk: int|
                0 <= kk < kids(o.origin@[i]).len() ==> #[trigger] w.origin@[o.size() + kk]
                    == kids(o.origin@[i])[kk] && w.parent@[o.size() + kk] == Some(
                    i as usize,
                ) && w.childno@[o.size() + kk] == kk,
        ensures
            w.expanded(kids, i + 1),
    {
        let x = o.origin@[i];
        let count = kids(x).len();
        let here = o.size();
        let cc = w.child_count@;
        assert forall|j: int| 0 <= j < i implies #[trigger] cc[j] == o.child_count@[j] by {
            assert(w.origin@[j] == o.origin@[j]);
        }
        assert(w.origin@[i] == o.origin@[i]);
        lemma_sum_prefix_agree(o.child_count@, cc, i);
        assert(cc[i] == count);
        assert(sum_prefix(cc, i + 1) == sum_prefix(cc, i) + count);
        assert forall|j: int| 0 <= j < i + 1 implies #[trigger] w.counted(kids, j) by {
            assert(w.origin@[j] == o.origin@[j]);
            if j < i {
                assert(o.counted(kids, j));
                assert(cc[j] == o.child_count@[j]);
            }
            lemma_sum_prefix_agree(o.child_count@, cc, j);
        }
        assert forall|j: int, k: int|
            0 <= j < i + 1 && 0 <= k < w.child_count@[j] implies #[trigger] w.kid_placed(kids, j, k) by {
            assert(w.origin@[j] == o.origin@[j]);
            if j < i {
                assert(o.child_count@[j] == cc[j]);
                assert(o.kid_placed(kids, j, k));
                let e = o.first_child@[j] + k;
                assert(w.origin@[e] == o.origin@[e]);
            } else {
                assert(w.origin@[here + k] == kids(x)[k]);
                assert(w.parent@[here + k] == Some(i as usize));
            }
        }
    }

    /// Whether entries are expanded does not depend on the levels.
    proof fn lemma_expanded_same_entries(a: Self, b: Self, kids: spec_fn(K) -> Seq<K>, i: int)
        requires
            a.expanded(kids, i),
            a.origin == b.origin,
            a.parent == b.parent,
            a.childno == b.childno,
            a.first_child == b.first_child,
            a.child_count == b.child_count,
        ensures
            b.expanded(kids, i),
    {
        assert forall|j: int| 0 <= j < i implies #[trigger] b.counted(kids, j) by {
            assert(a.counted(kids, j));
        }
        assert forall|j: int, k: int|
            0 <= j < i && 0 <= k < b.child_count@[j] implies #[trigger] b.kid_placed(kids, j, k) by {
            assert(a.kid_placed(kids, j, k));
        }
    }

    /// Pushes the children of entry `i`, which is the next one to expand.
    fn expand<S: Shape<Key = K>>(&mut self, s: &S, i: usize)
        requires
            s.spec_ready(),
            old(self).expanded(kids_fn(*s), i as int),
            i < old(self).size(),
            s.spec_valid(old(self).origin@[i as int]),
        ensures
            final(self).expanded(kids_fn(*s), i + 1),
            final(self).origin@ == old(self).origin@ + s.spec_kids(old(self).origin@[i as int]),
            forall|j: int|
                0 <= j < old(self).size() ==> final(self).parent@[j] == old(self).parent@[j]
                    && final(self).childno@[j] == old(self).childno@[j],
            forall|j: int|
                0 <= j < old(self).size() && j != i ==> final(self).child_count@[j] == old(
                    self,
                ).child_count@[j] && final(self).first_child@[j] == old(self).first_child@[j],
            final(self).levels == old(self).levels,
    {
        let ghost o = *self;
        let x = self.origin[i];
        let count = s.kid_count(x);
        let here = self.origin.len();
        self.first_child.set(i, here);
        self.child_count.set(i, count);
        proof {
            lemma_sum_prefix_agree(o.child_count@, self.child_count@, i as int);
        }
        let mut k: usize = 0;
        while k < count
            invariant
                s.spec_ready(),
                k <= count,
                count == s.spec_kids(x).len(),
                x == o.origin@[i as int],
                s.spec_valid(x),
                i < o.size(),
                here == o.size(),
                self.lens_agree(),
                self.origin@ == o.origin@ + s.spec_kids(x).subrange(0, k as int),
                self.parent@ == o.parent@ + Seq::new(k as nat, |kk: int| Some(i)),
                self.childno@ == o.childno@ + Seq::new(k as nat, |kk: int| kk as usize),
                self.first_child@ == o.first_child@.update(i as int, here) + Seq::new(
                    k as nat,
                    |kk: int| 0usize,
                ),
                self.child_count@ == o.child_count@.update(i as int, count) + Seq::new(
                    k as nat,
                    |kk: int| 0usize,
                ),
                self.levels == o.levels,
            decreases count - k,
        {
            let c = s.kid(x, k);
            self.origin.push(c);
            self.parent.push(Some(i));
            self.childno.push(k);
            self.first_child.push(0);
            self.child_count.push(0);
            k = k + 1;
            proof {
                assert(self.origin@ =~= o.origin@ + s.spec_kids(x).subrange(0, k as int));
                assert(self.parent@ =~= o.parent@ + Seq::new(k as nat, |kk: int| Some(i)));
                assert(self.childno@ =~= o.childno@ + Seq::new(k as nat, |kk: int| kk as usize));
                assert(self.first_child@ =~= o.first_child@.update(i as int, here) + Seq::new(
                    k as nat,
                    |kk: int| 0usize,
                ));
                assert(self.child_count@ =~= o.child_count@.update(i as int, count) + Seq::new(
                    k as nat,
                    |kk: int| 0usize,
                ));
            }
        }
        proof {
            assert(s.spec_kids(x).subrange(0, count as int) =~= s.spec_kids(x));
            assert forall|j: int| 0 <= j < o.size() implies #[trigger] self.origin@[j] == o.origin@[j]
                && self.child_count@[j] == (if j == i {
                s.spec_kids(o.origin@[i as int]).len() as usize
            } else {
                o.child_count@[j]
            }) && self.first_child@[j] == (if j == i {
                o.size() as usize
            } else {
                o.first_child@[j]
            }) && self.parent@[j] == o.parent@[j] && self.childno@[j] == o.childno@[j] by {}
            assert forall|kk: int| 0 <= kk < count implies #[trigger] self.origin@[o.size() + kk]
                == s.spec_kids(x)[kk] && self.parent@[o.size() + kk] == Some(i) && self.childno@[o.size() + kk] == kk by {}
            Self::lemma_expand_step(o, *self, kids_fn(*s), i as int);
        }
    }

    /// Entry `e` stands for a child of what one of the entries `start..end` stands for.
    pub open spec fn child_of_range(self, kids: spec_fn(K) -> Seq<K>, start: int, end: int, e: int) -> bool {
        exists|j: int, k: int|
            start <= j < end && 0 <= k < kids(self.origin@[j]).len() && self.origin@[e] == #[trigger] kids(
                self.origin@[j],
            )[k]
    }

    /// Expands the entries `start..end`, one level of the tree.
    fn expand_level<S: Shape<Key = K>>(&mut self, s: &S, start: usize, end: usize)
        requires
            s.spec_ready(),
            old(self).expanded(kids_fn(*s), start as int),
            old(self).size() == end,
            start <= end,
            forall|j: int| start <= j < end ==> s.spec_valid(#[trigger] old(self).origin@[j]),
        ensures
            final(self).expanded(kids_fn(*s), end as int),
            final(self).size() >= end,
            forall|j: int| 0 <= j < end ==> final(self).origin@[j] == old(self).origin@[j],
            forall|j: int| 0 <= j < end ==> final(self).parent@[j] == old(self).parent@[j],
            forall|j: int| 0 <= j < end ==> final(self).childno@[j] == old(self).childno@[j],
            forall|j: int| 0 <= j < start ==> final(self).child_count@[j] == old(self).child_count@[j],
            forall|e: int|
                end <= e < final(self).size() ==> #[trigger] final(self).child_of_range(
                    kids_fn(*s),
                    start as int,
                    end as int,
                    e,
                ),
            final(self).levels == old(self).levels,
    {
        let ghost o = *self;
        let ghost kids = kids_fn(*s);
        let mut i: usize = start;
        while i < end
            invariant
                s.spec_ready(),
                start <= i <= end,
                kids == kids_fn(*s),
                self.expanded(kids, i as int),
                self.size() >= end,
                forall|j: int| 0 <= j < end ==> self.origin@[j] == o.origin@[j],
                forall|j: int| 0 <= j < end ==> self.parent@[j] == o.parent@[j],
                forall|j: int| 0 <= j < end ==> self.childno@[j] == o.childno@[j],
                forall|j: int| 0 <= j < start ==> self.child_count@[j] == o.child_count@[j],
                forall|j: int| start <= j < end ==> s.spec_valid(#[trigger] o.origin@[j]),
                forall|e: int|
                    end <= e < self.size() ==> #[trigger] self.child_of_range(kids, start as int, i as int, e),
                self.levels == o.levels,
            decreases end - i,
        {
            let ghost before = *self;
            assert(self.origin@[i as int] == o.origin@[i as int]);
            self.expand(s, i);
            proof {
                let x = before.origin@[i as int];
                assert(kids(x) == s.spec_kids(x));
                assert forall|e: int| end <= e < self.size() implies #[trigger] self.child_of_range(
                    kids,
                    start as int,
                    i + 1,
                    e,
                ) by {
                    if e >= before.size() {
                        let k = e - before.size();
                        assert(self.origin@[e] == s.spec_kids(x)[k]);
                        assert(self.origin@[i as int] == x);
                        assert(self.origin@[e] == kids(self.origin@[i as int])[k]);
                    } else {
                        assert(before.child_of_range(kids, start as int, i as int, e));
                        let (j, k) = choose|j: int, k: int|
                            start <= j < i && 0 <= k < kids(before.origin@[j]).len() && before.origin@[e]
                                == #[trigger] kids(before.origin@[j])[k];
                        assert(self.origin@[e] == before.origin@[e]);
                        assert(self.origin@[j] == before.origin@[j]);
                        assert(self.origin@[e] == kids(self.origin@[j])[k]);
                    }
                }
                assert forall|j: int| 0 <= j < end implies self.origin@[j] == o.origin@[j] by {
                    assert(self.origin@[j] == before.origin@[j]);
                }
            }
            i = i + 1;
        }
    }

    /// The entries a level expands into are as finite as the level, one step less.
    proof fn lemma_level_finite<S: Shape<Key = K>>(self, s: S, start: int, end: int, lvl: nat)
        requires
            forall|j: int| start <= j < end ==> finite_under(s, #[trigger] self.origin@[j], lvl),
        ensures
            forall|e: int|
                #![trigger self.origin@[e]]
                self.child_of_range(kids_fn(s), start, end, e) ==> finite_under(
                    s,
                    self.origin@[e],
                    (lvl - 1) as nat,
                ),
    {
        let kids = kids_fn(s);
        assert forall|e: int| #![trigger self.origin@[e]] self.child_of_range(kids, start, end, e) implies finite_under(
            s,
            self.origin@[e],
            (lvl - 1) as nat,
        ) by {
            let (j, k) = choose|j: int, k: int|
                start <= j < end && 0 <= k < kids(self.origin@[j]).len() && self.origin@[e]
                    == #[trigger] kids(self.origin@[j])[k];
            assert(finite_under(s, self.origin@[j], lvl));
            assert(finite_in(kids, valid_fn(s), kids(self.origin@[j])[k], (lvl - 1) as nat));
        }
    }

    /// Refills the mirror with the tree under `root` in `s`, in breadth-first order,
    /// keeping whatever it already allocated.
    ///
    /// Breadth-first, one level at a time: parents are visited before their children,
    /// so the children of an entry are the contiguous range they were pushed into and the
    /// entries of a level are adjacent.
    pub fn rebuild<S: Shape<Key = K>>(&mut self, s: &S, root: K)
        requires
            s.spec_ready(),
            exists|d: nat| finite_under(*s, root, d),
        ensures
            final(self).is_bfs_of(kids_fn(*s), valid_fn(*s), root),
    {
        let ghost dd: nat = choose|d: nat| finite_under(*s, root, d);
        self.origin.clear();
        self.parent.clear();
        self.childno.clear();
        self.first_child.clear();
        self.child_count.clear();
        self.levels.clear();
        self.levels.push(0);
        self.levels.push(1);

        self.origin.push(root);
        self.parent.push(None);
        self.childno.push(0);
        self.first_child.push(0);
        self.child_count.push(0);

        let mut start: usize = 0;
        let mut end: usize = 1;
        proof {
            assert(self.levels@[0] == 0 && self.levels@[1] == 1);
            assert(sum_prefix(self.child_count@, 0) == 0);
            assert(self.expanded(kids_fn(*s), 0));
        }
        while start < end
            invariant
                s.spec_ready(),
                self.expanded(kids_fn(*s), start as int),
                self.size() == end,
                start <= end,
                self.origin@[0] == root,
                self.parent@[0] is None,
                self.childno@[0] == 0,
                self.levels@.len() >= 2,
                self.levels@[0] == 0,
                self.levels@.last() == end,
                self.levels@[self.levels@.len() - 2] == start || start == end,
                forall|l: int|
                    0 <= l < self.levels@.len() - 1 ==> #[trigger] self.levels@[l]
                        < self.levels@[l + 1] && self.levels@[l + 1] == 1 + sum_prefix(
                        self.child_count@,
                        self.levels@[l] as int,
                    ),
                forall|l: int| 0 <= l < self.levels@.len() - 1 ==> #[trigger] self.levels@[l] <= start,
                self.levels@.len() <= dd + 1,
                forall|j: int| 0 <= j < end ==> s.spec_valid(#[trigger] self.origin@[j]),
                forall|j: int|
                    start <= j < end ==> finite_under(
                        *s,
                        #[trigger] self.origin@[j],
                        (dd + 2 - self.levels@.len()) as nat,
                    ),
            decreases (dd + 2 - self.levels@.len()) as nat, end - start,
        {
            let ghost lvl: nat = (dd + 2 - self.levels@.len()) as nat;
            let ghost c0 = self.child_count@;
            let ghost pre_level = *self;
            proof {
                assert forall|j: int| start <= j < end implies s.spec_valid(#[trigger] self.origin@[j]) by {}
            }
            self.expand_level(s, start, end);
            proof {
                assert forall|j: int| start <= j < end implies finite_under(*s, #[trigger] self.origin@[j], lvl) by {
                    assert(self.origin@[j] == pre_level.origin@[j]);
                }
                self.lemma_level_finite(*s, start as int, end as int, lvl);
                assert forall|e: int| end <= e < self.size() implies finite_under(
                    *s,
                    #[trigger] self.origin@[e],
                    (lvl - 1) as nat,
                ) by {
                    assert(self.child_of_range(kids_fn(*s), start as int, end as int, e));
                }
            }
            let ghost old_levels = self.levels@;
            let ghost old_end = end;
            let ghost old_start = start;
            proof {
                assert forall|l: int| 0 <= l < old_levels.len() - 1 implies sum_prefix(
                    self.child_count@,
                    old_levels[l] as int,
                ) == sum_prefix(c0, old_levels[l] as int) by {
                    assert(old_levels[l] <= old_start);
                    lemma_sum_prefix_agree(self.child_count@, c0, old_levels[l] as int);
                }
            }
            start = end;
            end = self.origin.len();
            if start < end {
                let ghost pre_push = *self;
                self.levels.push(end);
                proof {
                    Self::lemma_expanded_same_entries(pre_push, *self, kids_fn(*s), start as int);
                    assert(finite_under(*s, self.origin@[start as int], (lvl - 1) as nat));
                    assert forall|l: int|
                        0 <= l < self.levels@.len() - 1 implies #[trigger] self.levels@[l]
                            < self.levels@[l + 1] && self.levels@[l + 1] == 1 + sum_prefix(
                            self.child_count@,
                            self.levels@[l] as int,
                        ) by {
                        if l < old_levels.len() - 1 {
                            assert(self.levels@[l] == old_levels[l]);
                            assert(self.levels@[l + 1] == old_levels[l + 1]);
                        } else {
                            assert(self.levels@[l] == old_end);
                        }
                    }
                }
            }
        }
        proof {
            assert(self.levels@[self.levels@.len() - 1] == end);
        }
    }

    /// Refills the mirror with the tree under `root` in `s`, in breadth-first order, when
    /// every path down from `root` names elements and is shorter than `bound`; says
    /// whether it is.
    ///
    /// Where the answer is no, what the mirror holds is left unsaid.
    pub fn rebuild_within<S: Shape<Key = K>>(&mut self, s: &S, root: K, bound: usize) -> (r: bool)
        requires
            s.spec_ready(),
        ensures
            r == finite_under(*s, root, bound as nat),
            r ==> final(self).is_bfs_of(kids_fn(*s), valid_fn(*s), root),
    {
        let r = self.fill_within(s, root, bound);
        proof {
            if r {
                lemma_bfs_finite(*self, kids_fn(*s), valid_fn(*s), root);
                lemma_finite_in_mono(
                    kids_fn(*s),
                    valid_fn(*s),
                    root,
                    (self.levels@.len() - 1) as nat,
                    bound as nat,
                );
            }
        }
        r
    }

    /// [`Mirror::rebuild_within`], saying that the levels stay within the bound.
    fn fill_within<S: Shape<Key = K>>(&mut self, s: &S, root: K, bound: usize) -> (r: bool)
        requires
            s.spec_ready(),
        ensures
            r ==> final(self).is_bfs_of(kids_fn(*s), valid_fn(*s), root),
            r ==> final(self).levels@.len() <= bound + 1,
            finite_under(*s, root, bound as nat) ==> r,
    {
        let ghost fin = finite_under(*s, root, bound as nat);
        if bound == 0 {
            return false;
        }
        self.origin.clear();
        self.parent.clear();
        self.childno.clear();
        self.first_child.clear();
        self.child_count.clear();
        self.levels.clear();
        self.levels.push(0);
        self.levels.push(1);

        self.origin.push(root);
        self.parent.push(None);
        self.childno.push(0);
        self.first_child.push(0);
        self.child_count.push(0);

        let mut start: usize = 0;
        let mut end: usize = 1;
        proof {
            assert(self.levels@[0] == 0 && self.levels@[1] == 1);
            assert(sum_prefix(self.child_count@, 0) == 0);
            assert(self.expanded(kids_fn(*s), 0));
        }
        while start < end
            invariant
                s.spec_ready(),
                fin == finite_under(*s, root, bound as nat),
                self.expanded(kids_fn(*s), start as int),
                self.size() == end,
                start <= end,
                self.origin@[0] == root,
                self.parent@[0] is None,
                self.childno@[0] == 0,
                self.levels@.len() >= 2,
                self.levels@[0] == 0,
                self.levels@.last() == end,
                self.levels@[self.levels@.len() - 2] == start || start == end,
                forall|l: int|
                    0 <= l < self.levels@.len() - 1 ==> #[trigger] self.levels@[l]
                        < self.levels@[l + 1] && self.levels@[l + 1] == 1 + sum_prefix(
                        self.child_count@,
                        self.levels@[l] as int,
                    ),
                forall|l: int| 0 <= l < self.levels@.len() - 1 ==> #[trigger] self.levels@[l] <= start,
                self.levels@.len() <= bound + 1,
                forall|j: int| 0 <= j < start ==> s.spec_valid(#[trigger] self.origin@[j]),
                fin ==> forall|j: int|
                    start <= j < end ==> finite_under(
                        *s,
                        #[trigger] self.origin@[j],
                        (bound + 2 - self.levels@.len()) as nat,
                    ),
            decreases (bound + 2 - self.levels@.len()) as nat, end - start,
        {
            let ghost lvl: nat = (bound + 2 - self.levels@.len()) as nat;
            let mut j: usize = start;
            while j < end
                invariant
                    s.spec_ready(),
                    fin == finite_under(*s, root, bound as nat),
                    start <= j <= end,
                    self.size() == end,
                    forall|q: int| 0 <= q < j ==> s.spec_valid(#[trigger] self.origin@[q]),
                    fin ==> forall|q: int|
                        start <= q < end ==> finite_under(*s, #[trigger] self.origin@[q], lvl),
                decreases end - j,
            {
                if !s.is_valid(self.origin[j]) {
                    proof {
                        if fin {
                            assert(finite_under(*s, self.origin@[j as int], lvl));
                        }
                    }
                    return false;
                }
                j = j + 1;
            }
            let ghost c0 = self.child_count@;
            let ghost pre_level = *self;
            self.expand_level(s, start, end);
            proof {
                if fin {
                    assert forall|q: int| start <= q < end implies finite_under(*s, #[trigger] self.origin@[q], lvl) by {
                        assert(self.origin@[q] == pre_level.origin@[q]);
                    }
                    self.lemma_level_finite(*s, start as int, end as int, lvl);
                    assert forall|e: int| end <= e < self.size() implies finite_under(
                        *s,
                        #[trigger] self.origin@[e],
                        (lvl - 1) as nat,
                    ) by {
                        assert(self.child_of_range(kids_fn(*s), start as int, end as int, e));
                    }
                }
                assert forall|q: int| 0 <= q < end implies s.spec_valid(#[trigger] self.origin@[q]) by {
                    assert(self.origin@[q] == pre_level.origin@[q]);
                }
            }
            let ghost old_levels = self.levels@;
            let ghost old_end = end;
            let ghost old_start = start;
            proof {
                assert forall|l: int| 0 <= l < old_levels.len() - 1 implies sum_prefix(
                    self.child_count@,
                    old_levels[l] as int,
                ) == sum_prefix(c0, old_levels[l] as int) by {
                    assert(old_levels[l] <= old_start);
                    lemma_sum_prefix_agree(self.child_count@, c0, old_levels[l] as int);
                }
            }
            start = end;
            end = self.origin.len();
            if start < end {
                if self.levels.len() > bound {
                    proof {
                        if fin {
                            assert(finite_under(*s, self.origin@[start as int], (lvl - 1) as nat));
                        }
                    }
                    return false;
                }
                let ghost pre_push = *self;
                self.levels.push(end);
                proof {
                    Self::lemma_expanded_same_entries(pre_push, *self, kids_fn(*s), start as int);
                    assert forall|l: int|
                        0 <= l < self.levels@.len() - 1 implies #[trigger] self.levels@[l]
                            < self.levels@[l + 1] && self.levels@[l + 1] == 1 + sum_prefix(
                            self.child_count@,
                            self.levels@[l] as int,
                        ) by {
                        if l < old_levels.len() - 1 {
                            assert(self.levels@[l] == old_levels[l]);
                            assert(self.levels@[l + 1] == old_levels[l + 1]);
                        } else {
                            assert(self.levels@[l] == old_end);
                        }
                    }
                }
            }
        }
        proof {
            assert(self.levels@[self.levels@.len() - 1] == end);
        }
        true
    }
}

/// Every entry of a breadth-first mirror pushes its children after itself.
pub proof fn lemma_bfs_first_child_after<K>(
    m: Mirror<K>,
    kids: spec_fn(K) -> Seq<K>,
    valid: spec_fn(K) -> bool,
    root: K,
    j: int,
)
    requires
        m.is_bfs_of(kids, valid, root),
        0 <= j < m.size(),
    ensures
        1 + sum_prefix(m.child_count@, j) > j,
{
    let l = lemma_bfs_level_of(m, kids, valid, root, j, 0);
    let lv = m.levels@;
    assert(lv[l] < lv[l + 1] && lv[l + 1] == 1 + sum_prefix(m.child_count@, lv[l] as int));
    lemma_sum_prefix_mono(m.child_count@, lv[l] as int, j);
}

/// Every entry of a breadth-first mirror is on some level: the level `l >= from` with
/// `levels[l] <= j < levels[l + 1]`, when `levels[from] <= j`.
pub proof fn lemma_bfs_level_of<K>(
    m: Mirror<K>,
    kids: spec_fn(K) -> Seq<K>,
    valid: spec_fn(K) -> bool,
    root: K,
    j: int,
    from: int,
) -> (l: int)
    requires
        m.is_bfs_of(kids, valid, root),
        0 <= j < m.size(),
        0 <= from < m.levels@.len() - 1,
        m.levels@[from] <= j,
    ensures
        from <= l < m.levels@.len() - 1,
        m.levels@[l] <= j < m.levels@[l + 1],
    decreases m.levels@.len() - from,
{
    let lv = m.levels@;
    assert(lv[from] < lv[from + 1]);
    if j < lv[from + 1] {
        from
    } else {
        if from + 1 == lv.len() - 1 {
            assert(lv[from + 1] == m.size());
            assert(false);
        }
        lemma_bfs_level_of(m, kids, valid, root, j, from + 1)
    }
}

/// Every entry of a breadth-first mirror but the root is the child of an earlier entry.
pub proof fn lemma_bfs_covered<K>(
    m: Mirror<K>,
    kids: spec_fn(K) -> Seq<K>,
    valid: spec_fn(K) -> bool,
    root: K,
    e: int,
    j0: int,
) -> (jk: (int, int))
    requires
        m.is_bfs_of(kids, valid, root),
        1 <= e < m.size(),
        0 <= j0 < m.size(),
        1 + sum_prefix(m.child_count@, j0) <= e,
    ensures
        j0 <= jk.0 < e,
        0 <= jk.1 < m.child_count@[jk.0],
        m.first_child@[jk.0] + jk.1 == e,
    decreases m.size() - j0,
{
    let cc = m.child_count@;
    assert(m.counted(kids, j0));
    lemma_bfs_first_child_after(m, kids, valid, root, j0);
    if e < 1 + sum_prefix(cc, j0 + 1) {
        assert(sum_prefix(cc, j0 + 1) == sum_prefix(cc, j0) + cc[j0]);
        (j0, e - m.first_child@[j0])
    } else {
        if j0 + 1 == m.size() {
            assert(false);
        }
        lemma_bfs_covered(m, kids, valid, root, e, j0 + 1)
    }
}

impl<K> Mirror<K> {
    /// The level of entry `e`: the `l` with `levels[l] <= e < levels[l + 1]`.
    pub open spec fn level_of(self, e: int) -> int {
        choose|l: int|
            0 <= l < self.levels@.len() - 1 && self.levels@[l] <= e < #[trigger] self.levels@[l + 1]
    }
}

/// Levels further down start further on.
proof fn lemma_levels_increase<K>(m: Mirror<K>, l1: int, l2: int)
    requires
        m.levels_ok(),
        0 <= l1 < l2 < m.levels@.len(),
    ensures
        m.levels@[l1] < m.levels@[l2],
    decreases l2 - l1,
{
    assert(m.levels@[l1] < m.levels@[l1 + 1]);
    if l1 + 1 < l2 {
        lemma_levels_increase(m, l1 + 1, l2);
    }
}

/// Every entry of a breadth-first mirror is on exactly one level.
pub proof fn lemma_level_of<K>(
    m: Mirror<K>,
    kids: spec_fn(K) -> Seq<K>,
    valid: spec_fn(K) -> bool,
    root: K,
    e: int,
)
    requires
        m.is_bfs_of(kids, valid, root),
        0 <= e < m.size(),
    ensures
        0 <= m.level_of(e) < m.levels@.len() - 1,
        m.levels@[m.level_of(e)] <= e < m.levels@[m.level_of(e) + 1],
        forall|l: int|
            0 <= l < m.levels@.len() - 1 && m.levels@[l] <= e < #[trigger] m.levels@[l + 1] ==> l
                == m.level_of(e),
{
    let l0 = lemma_bfs_level_of(m, kids, valid, root, e, 0);
    let l = m.level_of(e);
    assert forall|l2: int|
        0 <= l2 < m.levels@.len() - 1 && m.levels@[l2] <= e < #[trigger] m.levels@[l2 + 1] implies l2 == l by {
        if l2 < l {
            lemma_levels_increase(m, l2 + 1, l + 1);
            if l2 + 1 < l {
                lemma_levels_increase(m, l2 + 1, l);
            }
        } else if l < l2 {
            lemma_levels_increase(m, l + 1, l2 + 1);
            if l + 1 < l2 {
                lemma_levels_increase(m, l + 1, l2);
            }
        }
    }
}

/// The `k`-th child of entry `j` is one level below it.
pub proof fn lemma_child_level<K>(
    m: Mirror<K>,
    kids: spec_fn(K) -> Seq<K>,
    valid: spec_fn(K) -> bool,
    root: K,
    j: int,
    k: int,
)
    requires
        m.is_bfs_of(kids, valid, root),
        0 <= j < m.size(),
        0 <= k < m.child_count@[j],
    ensures
        m.level_of(m.first_child@[j] + k) == m.level_of(j) + 1,
{
    let cc = m.child_count@;
    let lv = m.levels@;
    let e = m.first_child@[j] + k;
    assert(m.counted(kids, j));
    assert(m.kid_placed(kids, j, k));
    lemma_level_of(m, kids, valid, root, j);
    let l = m.level_of(j);
    assert(lv[l] < lv[l + 1] && lv[l + 1] == 1 + sum_prefix(cc, lv[l] as int));
    lemma_sum_prefix_mono(cc, lv[l] as int, j);
    assert(sum_prefix(cc, j + 1) == sum_prefix(cc, j) + cc[j]);
    if l + 2 >= lv.len() {
        assert(lv[l + 1] == m.size());
        lemma_sum_prefix_mono(cc, j + 1, m.size());
        assert(false);
    }
    assert(lv[l + 1] < lv[l + 2] && lv[l + 2] == 1 + sum_prefix(cc, lv[l + 1] as int));
    lemma_sum_prefix_mono(cc, j + 1, lv[l + 1] as int);
    lemma_level_of(m, kids, valid, root, e);
    assert(lv[l + 1] <= e < lv[l + 2]);
}

/// Paths shorter than `d` are also shorter than any `e >= d`.
pub proof fn lemma_finite_in_mono<K>(kids: spec_fn(K) -> Seq<K>, valid: spec_fn(K) -> bool, x: K, d: nat, e: nat)
    requires
        finite_in(kids, valid, x, d),
        d <= e,
    ensures
        finite_in(kids, valid, x, e),
    decreases d,
{
    assert forall|k: int| 0 <= k < kids(x).len() implies finite_in(
        kids,
        valid,
        #[trigger] kids(x)[k],
        (e - 1) as nat,
    ) by {
        lemma_finite_in_mono(kids, valid, kids(x)[k], (d - 1) as nat, (e - 1) as nat);
    }
}

/// The node of an entry on level `l` of a breadth-first mirror has no path down longer
/// than the levels below it.
proof fn lemma_bfs_entry_finite<K>(
    m: Mirror<K>,
    kids: spec_fn(K) -> Seq<K>,
    valid: spec_fn(K) -> bool,
    root: K,
    e: int,
)
    requires
        m.is_bfs_of(kids, valid, root),
        0 <= e < m.size(),
    ensures
        finite_in(kids, valid, m.origin@[e], (m.levels@.len() - 1 - m.level_of(e)) as nat),
    decreases m.levels@.len() - m.level_of(e),
{
    lemma_level_of(m, kids, valid, root, e);
    let x = m.origin@[e];
    let d = (m.levels@.len() - 1 - m.level_of(e)) as nat;
    assert(m.counted(kids, e));
    assert forall|k: int| 0 <= k < kids(x).len() implies finite_in(
        kids,
        valid,
        #[trigger] kids(x)[k],
        (d - 1) as nat,
    ) by {
        assert(m.kid_placed(kids, e, k));
        let c = m.first_child@[e] + k;
        lemma_child_level(m, kids, valid, root, e, k);
        lemma_level_of(m, kids, valid, root, c);
        lemma_bfs_entry_finite(m, kids, valid, root, c);
    }
}

/// A breadth-first mirror bounds the paths down from its root by its number of levels.
pub proof fn lemma_bfs_finite<K>(m: Mirror<K>, kids: spec_fn(K) -> Seq<K>, valid: spec_fn(K) -> bool, root: K)
    requires
        m.is_bfs_of(kids, valid, root),
    ensures
        finite_in(kids, valid, root, (m.levels@.len() - 1) as nat),
{
    lemma_bfs_entry_finite(m, kids, valid, root, 0);
    lemma_level_of(m, kids, valid, root, 0);
    assert(m.levels@[0] <= 0 < m.levels@[1]);
}

/// Two mirrors agree on their first `e` entries, `f` mapping what the first stands for to
/// what the second does.
pub open spec fn mirrors_agree_below<K1, K2>(m1: Mirror<K1>, m2: Mirror<K2>, f: spec_fn(K1) -> K2, e: int) -> bool {
    &&& e <= m1.size()
    &&& e <= m2.size()
    &&& forall|i: int|
        0 <= i < e ==> {
            &&& f(#[trigger] m1.origin@[i]) == m2.origin@[i]
            &&& m1.child_count@[i] == m2.child_count@[i]
            &&& m1.parent@[i] == m2.parent@[i]
            &&& m1.childno@[i] == m2.childno@[i]
        }
}

/// What two mirrors agree on below `e`, one entry at a time.
proof fn lemma_agree_entries<K1, K2>(m1: Mirror<K1>, m2: Mirror<K2>, f: spec_fn(K1) -> K2, e: int)
    requires
        mirrors_agree_below(m1, m2, f, e),
    ensures
        forall|k: int| 0 <= k < e ==> #[trigger] m1.child_count@[k] == m2.child_count@[k],
        forall|k: int| 0 <= k < e ==> #[trigger] m1.parent@[k] == m2.parent@[k],
        forall|k: int| 0 <= k < e ==> #[trigger] m1.childno@[k] == m2.childno@[k],
{
    assert forall|k: int| 0 <= k < e implies #[trigger] m1.child_count@[k] == m2.child_count@[k] by {
        assert(f(m1.origin@[k]) == m2.origin@[k]);
    }
    assert forall|k: int| 0 <= k < e implies #[trigger] m1.parent@[k] == m2.parent@[k] by {
        assert(f(m1.origin@[k]) == m2.origin@[k]);
    }
    assert forall|k: int| 0 <= k < e implies #[trigger] m1.childno@[k] == m2.childno@[k] by {
        assert(f(m1.origin@[k]) == m2.origin@[k]);
    }
}

/// The first `e` entries of two mirrors of corresponding trees agree.
#[verifier::rlimit(40)]
proof fn lemma_bfs_prefix_agree<K1, K2>(
    m1: Mirror<K1>,
    k1: spec_fn(K1) -> Seq<K1>,
    v1: spec_fn(K1) -> bool,
    r1: K1,
    m2: Mirror<K2>,
    k2: spec_fn(K2) -> Seq<K2>,
    v2: spec_fn(K2) -> bool,
    r2: K2,
    f: spec_fn(K1) -> K2,
    e: int,
)
    requires
        m1.is_bfs_of(k1, v1, r1),
        m2.is_bfs_of(k2, v2, r2),
        f(r1) == r2,
        forall|x: K1| #[trigger] v1(x) ==> k2(f(x)) == k1(x).map_values(f),
        0 <= e <= m1.size(),
    ensures
        mirrors_agree_below(m1, m2, f, e),
    decreases e,
{
    if e > 0 {
        lemma_bfs_prefix_agree(m1, k1, v1, r1, m2, k2, v2, r2, f, e - 1);
        lemma_agree_entries(m1, m2, f, e - 1);
        let i = e - 1;
        let o1i = m1.origin@[i];
        if i == 0 {
            assert(v1(r1));
            assert(m1.counted(k1, 0));
            assert(m2.counted(k2, 0));
            assert(k1(r1).map_values(f).len() == k1(r1).len());
        } else {
            let (j, k) = lemma_bfs_covered(m1, k1, v1, r1, i, 0);
            assert(m1.counted(k1, j));
            assert(m2.counted(k2, j));
            assert(m1.kid_placed(k1, j, k));
            let o1 = m1.origin@[j];
            assert(v1(o1));
            assert(f(o1) == m2.origin@[j]);
            assert(m1.child_count@[j] == m2.child_count@[j]);
            lemma_sum_prefix_agree(m1.child_count@, m2.child_count@, j);
            assert(m2.first_child@[j] == m1.first_child@[j]);
            assert(m2.kid_placed(k2, j, k));
            assert(k1(o1).map_values(f)[k] == f(k1(o1)[k]));
            assert(f(o1i) == m2.origin@[i]);
            assert(i < m2.size());
            assert(v1(o1i));
            assert(m1.counted(k1, i));
            assert(m2.counted(k2, i));
            assert(k1(o1i).map_values(f).len() == k1(o1i).len());
        }
        assert forall|ii: int| 0 <= ii < e implies {
            &&& f(#[trigger] m1.origin@[ii]) == m2.origin@[ii]
            &&& m1.child_count@[ii] == m2.child_count@[ii]
            &&& m1.parent@[ii] == m2.parent@[ii]
            &&& m1.childno@[ii] == m2.childno@[ii]
        } by {
            if ii < i {
                assert(mirrors_agree_below(m1, m2, f, e - 1));
            }
        }
    }
}

/// Two breadth-first mirrors of corresponding trees are the same mirror: where the trees'
/// children correspond under `f`, so do the entries, in the same order, with the same
/// children, parents, positions and levels.
pub proof fn lemma_bfs_unique<K1, K2>(
    m1: Mirror<K1>,
    k1: spec_fn(K1) -> Seq<K1>,
    v1: spec_fn(K1) -> bool,
    r1: K1,
    m2: Mirror<K2>,
    k2: spec_fn(K2) -> Seq<K2>,
    v2: spec_fn(K2) -> bool,
    r2: K2,
    f: spec_fn(K1) -> K2,
)
    requires
        m1.is_bfs_of(k1, v1, r1),
        m2.is_bfs_of(k2, v2, r2),
        f(r1) == r2,
        forall|x: K1| #[trigger] v1(x) ==> k2(f(x)) == k1(x).map_values(f),
    ensures
        m1.size() == m2.size(),
        forall|i: int| 0 <= i < m1.size() ==> f(#[trigger] m1.origin@[i]) == m2.origin@[i],
        m1.parent@ == m2.parent@,
        m1.childno@ == m2.childno@,
        m1.child_count@ == m2.child_count@,
        m1.first_child@ == m2.first_child@,
        m1.levels@ == m2.levels@,
{
    let n1 = m1.size();
    let n2 = m2.size();
    lemma_bfs_prefix_agree(m1, k1, v1, r1, m2, k2, v2, r2, f, n1);
    lemma_agree_entries(m1, m2, f, n1);
    let cc1 = m1.child_count@;
    let cc2 = m2.child_count@;
    lemma_sum_prefix_agree(cc1, cc2, n1);
    if n2 > n1 {
        let (j, k) = lemma_bfs_covered(m2, k2, v2, r2, n1, 0);
        assert(m2.counted(k2, j));
        lemma_sum_prefix_mono(cc2, j + 1, n1);
        assert(sum_prefix(cc2, j + 1) == sum_prefix(cc2, j) + cc2[j]);
        assert(false);
    }
    assert(cc1 =~= cc2);
    assert forall|i: int| 0 <= i < n1 implies #[trigger] m1.first_child@[i] == m2.first_child@[i] by {
        assert(m1.counted(k1, i));
        assert(m2.counted(k2, i));
    }
    assert(m1.first_child@ =~= m2.first_child@);
    assert(m1.parent@ =~= m2.parent@);
    assert(m1.childno@ =~= m2.childno@);
    lemma_levels_agree(m1, m2, 0);
}

/// A mirror is determined by the tree: two breadth-first mirrors of the same tree are
/// equal, whatever either held before [`Mirror::rebuild`] refilled it.
pub proof fn law_mirror_is_determined_by_the_tree<K>(
    m1: Mirror<K>,
    m2: Mirror<K>,
    kids: spec_fn(K) -> Seq<K>,
    valid: spec_fn(K) -> bool,
    root: K,
)
    requires
        m1.is_bfs_of(kids, valid, root),
        m2.is_bfs_of(kids, valid, root),
    ensures
        m1.origin@ == m2.origin@,
        m1.parent@ == m2.parent@,
        m1.childno@ == m2.childno@,
        m1.child_count@ == m2.child_count@,
        m1.first_child@ == m2.first_child@,
        m1.levels@ == m2.levels@,
{
    let f = |x: K| x;
    assert forall|x: K| #[trigger] valid(x) implies kids(f(x)) == kids(x).map_values(f) by {
        assert(kids(x).map_values(f) =~= kids(x));
    }
    lemma_bfs_unique(m1, kids, valid, root, m2, kids, valid, root, f);
    assert(m1.origin@ =~= m2.origin@);
}

/// Two mirrors with the same counts and size have the same levels, from level `l` on.
proof fn lemma_levels_agree<K1, K2>(m1: Mirror<K1>, m2: Mirror<K2>, l: int)
    requires
        m1.levels_ok(),
        m2.levels_ok(),
        m1.size() == m2.size(),
        m1.child_count@ == m2.child_count@,
        0 <= l < m1.levels@.len(),
        0 <= l < m2.levels@.len(),
        forall|i: int| 0 <= i <= l ==> #[trigger] m1.levels@[i] == m2.levels@[i],
    ensures
        m1.levels@ == m2.levels@,
    decreases m1.levels@.len() - l,
{
    let (a, b) = (m1.levels@, m2.levels@);
    let n = m1.size();
    if l + 1 < a.len() && l + 1 < b.len() {
        assert(a[l] < a[l + 1] && a[l + 1] == 1 + sum_prefix(m1.child_count@, a[l] as int));
        assert(b[l] < b[l + 1] && b[l + 1] == 1 + sum_prefix(m2.child_count@, b[l] as int));
        lemma_levels_agree(m1, m2, l + 1);
    } else if l + 1 < a.len() {
        assert(b[l] == n);
        assert(a[l] < a[l + 1]);
        lemma_levels_below_size(m1, l + 1);
        assert(false);
    } else if l + 1 < b.len() {
        assert(a[l] == n);
        assert(b[l] < b[l + 1]);
        lemma_levels_below_size(m2, l + 1);
        assert(false);
    } else {
        assert(a =~= b);
    }
}

/// The levels never go past the size of the mirror.
proof fn lemma_levels_below_size<K>(m: Mirror<K>, l: int)
    requires
        m.levels_ok(),
        0 <= l < m.levels@.len(),
    ensures
        m.levels@[l] <= m.size(),
    decreases m.levels@.len() - l,
{
    if l + 1 < m.levels@.len() {
        lemma_levels_below_size(m, l + 1);
        assert(m.levels@[l] < m.levels@[l + 1]);
    }
}

/// The elementwise sweeps, scalar or vectorized.
///
/// Every kernel is elementwise or a `min` reduction, which is why widening them cannot
/// change a result: elementwise operations do not reassociate, and `min` is exact under any
/// association.
#[derive(Debug, Clone, Copy, PartialEq, Eq, Structural)]
pub struct Kernels {
    simd: bool,
}

impl Default for Kernels {
    /// Plain loops, as [`Kernels::scalar`].
    fn default() -> (r: Kernels)
        ensures
            !r.spec_is_simd(),
    {
        Kernels::scalar()
    }
}

impl Kernels {
    /// Whether the vectorized kernels are the ones in use.
    pub closed spec fn spec_is_simd(self) -> bool {
        self.simd
    }

    /// Plain loops, which the compiler is free to vectorize on its own.
    pub fn scalar() -> (r: Kernels)
        ensures
            !r.spec_is_simd(),
    {
        Kernels { simd: false }
    }

    /// AVX2 where the CPU has it, plain loops otherwise: `cpu_has_avx2` is what probing
    /// the CPU reported.
    pub fn detect(cpu_has_avx2: bool) -> (r: Kernels)
        ensures
            r.spec_is_simd() == cpu_has_avx2,
    {
        Kernels { simd: cpu_has_avx2 }
    }

    /// Whether the vectorized kernels are the ones in use.
    #[verifier::when_used_as_spec(spec_is_simd)]
    pub fn is_simd(self) -> (r: bool)
        ensures
            r == self.spec_is_simd(),
    {
        self.simd
    }
}

/// The name of the kernels in use, for the trace.
pub fn kernel_name(k: Kernels) -> (r: &'static str)
    ensures
        r == (if k.spec_is_simd() {
            "avx2"
        } else {
            "scalar"
        }),
{
    if k.is_simd() {
        "avx2"
    } else {
        "scalar"
    }
}

/// Makes `v` hold `n` copies of `zero`, keeping what it already allocated.
pub fn reset<T: Copy>(v: &mut Vec<T>, n: usize, zero: T)
    ensures
        final(v)@ == Seq::new(n as nat, |i: int| zero),
{
    v.clear();
    let mut i: usize = 0;
    while i < n
        invariant
            i <= n,
            v@ == Seq::new(i as nat, |j: int| zero),
        decreases n - i,
    {
        v.push(zero);
        i = i + 1;
        proof {
            assert(v@ =~= Seq::new(i as nat, |j: int| zero));
        }
    }
}

} // verus!
