//! The tree of the flat API, given as parallel arrays.
//!
//! The array layouts:
//!
//! * `wh`: `3n` values, `[w_0..w_n-1, h_0..h_n-1, margin_0..margin_n-1]`;
//! * `whg`: `2n` values, the width and height of the invisible gap node inserted above
//!   every node, which is what produces the spacing between levels;
//! * `children`: `n` counts followed by the adjacency, one-based, grouped by parent;
//! * `rooti`: the one-based index of the root.
//!
//! Node `i` of the tree is element `i` and the gap node above it is element `i + n`: the
//! children of element `i` are the gap nodes above its children, and the one child of
//! element `i + n` is element `i`. The root of the whole is the gap node above the root.
use vstd::prelude::*;

use crate::arena::{fresh_node, ids_of, Arena, NodeId};
use crate::flat::{
    finite_in, kids_fn, lemma_bfs_unique, lemma_sum_prefix_mono, sum_prefix, valid_fn, Mirror, Shape,
};

verus! {

/// Where the adjacency of node `x` starts in `children`.
pub open spec fn adjacency_start(children: Seq<usize>, n: int, x: int) -> int {
    n + sum_prefix(children, x)
}

/// The adjacency is as long as the `n` counts promise.
pub open spec fn arrays_ok(children: Seq<usize>, n: int) -> bool {
    &&& 0 <= n <= children.len()
    &&& adjacency_start(children, n, n) <= children.len()
}

/// The adjacency entries of node `x` name nodes: they are between 1 and `n`.
pub open spec fn entries_ok(children: Seq<usize>, n: int, x: int) -> bool {
    forall|k: int|
        0 <= k < children[x] ==> 1 <= #[trigger] children[adjacency_start(children, n, x) + k] <= n
}

/// Every adjacency entry names a node.
pub open spec fn all_entries_ok(children: Seq<usize>, n: int) -> bool {
    forall|x: int| 0 <= x < n ==> #[trigger] entries_ok(children, n, x)
}

/// The children of element `x`: the gap nodes above the children of node `x`, or node
/// `x - n` below gap node `x`.
pub open spec fn flat_kids(children: Seq<usize>, n: int, x: int) -> Seq<usize> {
    if x < n {
        Seq::new(
            children[x] as nat,
            |k: int| (children[adjacency_start(children, n, x) + k] - 1 + n) as usize,
        )
    } else {
        seq![(x - n) as usize]
    }
}

/// [`flat_kids`], as a function.
pub open spec fn flat_kids_fn(children: Seq<usize>, n: int) -> spec_fn(usize) -> Seq<usize> {
    |x: usize| flat_kids(children, n, x as int)
}

/// Which elements there are: the `2n` nodes and gap nodes, with nodes whose adjacency
/// entries name nodes.
pub open spec fn flat_valid_fn(children: Seq<usize>, n: int) -> spec_fn(usize) -> bool {
    |x: usize| x < 2 * n && (x < n ==> entries_ok(children, n, x as int))
}

/// The offset of every node's adjacency is at most where the adjacency ends.
pub proof fn lemma_adjacency_in_bounds(children: Seq<usize>, n: int, x: int, k: int)
    requires
        arrays_ok(children, n),
        0 <= x < n,
        0 <= k < children[x],
    ensures
        adjacency_start(children, n, x) + k < children.len(),
{
    lemma_sum_prefix_mono(children, x + 1, n);
}

/// The node whose adjacency holds position `j`, for `j` in the adjacency: the `x < n`
/// with `adjacency_start(x) <= j < adjacency_start(x + 1)`.
proof fn lemma_owner_of(children: Seq<usize>, n: int, j: int, from: int) -> (x: int)
    requires
        0 <= from < n <= children.len(),
        adjacency_start(children, n, from) <= j < adjacency_start(children, n, n),
    ensures
        from <= x < n,
        adjacency_start(children, n, x) <= j < adjacency_start(children, n, x) + children[x],
    decreases n - from,
{
    assert(sum_prefix(children, from + 1) == sum_prefix(children, from) + children[from]);
    if j < adjacency_start(children, n, from + 1) {
        from
    } else {
        if from + 1 == n {
            assert(false);
        }
        lemma_owner_of(children, n, j, from + 1)
    }
}

/// Where the adjacency ends, when `children` holds the `n` counts and as long an adjacency
/// as they promise; `None` otherwise.
pub fn adjacency_end(n: usize, children: &[usize]) -> (r: Option<usize>)
    ensures
        r is Some <==> arrays_ok(children@, n as int),
        r matches Some(end) ==> end == adjacency_start(children@, n as int, n as int),
{
    let len = children.len();
    if n > len {
        return None;
    }
    let mut acc: usize = n;
    let mut i: usize = 0;
    while i < n
        invariant
            i <= n <= len,
            len == children@.len(),
            acc == adjacency_start(children@, n as int, i as int),
            acc <= len,
        decreases n - i,
    {
        let c = children[i];
        if c > len - acc {
            proof {
                assert(sum_prefix(children@, i + 1) == sum_prefix(children@, i as int) + c);
                lemma_sum_prefix_mono(children@, i + 1, n as int);
            }
            return None;
        }
        acc = acc + c;
        i = i + 1;
    }
    Some(acc)
}

/// Whether `children` is well formed for `n` nodes: the adjacency is as long as the `n`
/// counts promise, and each of its entries names a node.
pub fn arrays_well_formed(n: usize, children: &[usize]) -> (r: bool)
    ensures
        r == (arrays_ok(children@, n as int) && all_entries_ok(children@, n as int)),
{
    let len = children.len();
    let acc = match adjacency_end(n, children) {
        Some(end) => end,
        None => return false,
    };
    assert(arrays_ok(children@, n as int));
    proof {
        lemma_sum_prefix_mono(children@, 0, n as int);
    }
    let mut j: usize = n;
    while j < acc
        invariant
            n <= j <= acc <= len,
            len == children@.len(),
            arrays_ok(children@, n as int),
            acc == adjacency_start(children@, n as int, n as int),
            forall|q: int| n <= q < j ==> 1 <= #[trigger] children@[q] <= n,
        decreases acc - j,
    {
        let c = children[j];
        if c < 1 || c > n {
            proof {
                assert(sum_prefix(children@, 0) == 0);
                let x = lemma_owner_of(children@, n as int, j as int, 0);
                let k = j - adjacency_start(children@, n as int, x);
                assert(!entries_ok(children@, n as int, x)) by {
                    assert(children@[adjacency_start(children@, n as int, x) + k] == c);
                }
            }
            return false;
        }
        j = j + 1;
    }
    proof {
        assert forall|x: int| 0 <= x < n implies #[trigger] entries_ok(children@, n as int, x) by {
            assert forall|k: int| 0 <= k < children@[x] implies 1 <= #[trigger] children@[adjacency_start(
                children@,
                n as int,
                x,
            ) + k] <= n by {
                lemma_sum_prefix_mono(children@, 0, x);
                lemma_sum_prefix_mono(children@, x + 1, n as int);
                assert(sum_prefix(children@, x + 1) == sum_prefix(children@, x) + children@[x]);
            }
        }
    }
    true
}

/// The arrays of the flat API, read as a tree of `2n` elements.
pub struct FlatShape<'a> {
    /// How many nodes; there are as many gap nodes.
    pub n: usize,
    /// The counts and the adjacency.
    pub children: &'a [usize],
    /// Where the adjacency of each node starts.
    pub off: Vec<usize>,
}

impl<'a> FlatShape<'a> {
    /// The offsets are those of the counts, and the adjacency is long enough.
    pub open spec fn wf(self) -> bool {
        &&& arrays_ok(self.children@, self.n as int)
        &&& self.off@.len() == self.n
        &&& forall|x: int|
            0 <= x < self.n ==> #[trigger] self.off@[x] == adjacency_start(
                self.children@,
                self.n as int,
                x,
            )
        &&& 2 * self.n < usize::MAX
        &&& self.children@.len() <= usize::MAX
    }

    /// Reads the arrays, working out where each node's adjacency starts.
    pub fn new(n: usize, children: &'a [usize]) -> (r: Self)
        requires
            arrays_ok(children@, n as int),
            2 * n < usize::MAX,
        ensures
            r.wf(),
            r.n == n,
            r.children@ == children@,
    {
        let _len = children.len();
        let mut off: Vec<usize> = Vec::with_capacity(n);
        let mut acc: usize = n;
        let mut i: usize = 0;
        while i < n
            invariant
                i <= n,
                n <= children@.len(),
                arrays_ok(children@, n as int),
                acc == adjacency_start(children@, n as int, i as int),
                off@.len() == i,
                forall|x: int|
                    0 <= x < i ==> #[trigger] off@[x] == adjacency_start(children@, n as int, x),
            decreases n - i,
        {
            off.push(acc);
            proof {
                lemma_sum_prefix_mono(children@, i + 1, n as int);
            }
            acc = acc + children[i];
            i = i + 1;
        }
        FlatShape { n, children, off }
    }
}

impl<'a> Shape for FlatShape<'a> {
    type Key = usize;

    open spec fn spec_ready(&self) -> bool {
        self.wf()
    }

    open spec fn spec_valid(&self, x: usize) -> bool {
        &&& self.wf()
        &&& x < 2 * self.n
        &&& x < self.n ==> entries_ok(self.children@, self.n as int, x as int)
    }

    open spec fn spec_kids(&self, x: usize) -> Seq<usize> {
        flat_kids(self.children@, self.n as int, x as int)
    }

    fn is_valid(&self, x: usize) -> (r: bool) {
        if x >= 2 * self.n {
            return false;
        }
        if x >= self.n {
            return true;
        }
        let count = self.children[x];
        let start = self.off[x];
        let mut k: usize = 0;
        while k < count
            invariant
                self.wf(),
                x < self.n,
                count == self.children@[x as int],
                start == adjacency_start(self.children@, self.n as int, x as int),
                k <= count,
                forall|q: int|
                    0 <= q < k ==> 1 <= #[trigger] self.children@[adjacency_start(
                        self.children@,
                        self.n as int,
                        x as int,
                    ) + q] <= self.n,
            decreases count - k,
        {
            proof {
                lemma_adjacency_in_bounds(self.children@, self.n as int, x as int, k as int);
            }
            let c = self.children[start + k];
            if c < 1 || c > self.n {
                return false;
            }
            k = k + 1;
        }
        true
    }

    fn kid_count(&self, x: usize) -> (r: usize) {
        if x < self.n {
            self.children[x]
        } else {
            1
        }
    }

    fn kid(&self, x: usize, k: usize) -> (r: usize) {
        if x < self.n {
            proof {
                lemma_adjacency_in_bounds(self.children@, self.n as int, x as int, k as int);
            }
            assert(self.off@[x as int] == adjacency_start(self.children@, self.n as int, x as int));
            let c = self.children[self.off[x] + k];
            assert(1 <= self.children@[adjacency_start(self.children@, self.n as int, x as int) + k]);
            c - 1 + self.n
        } else {
            x - self.n
        }
    }
}

/// Fills `mirror` straight from the arrays of the flat API, gap nodes included, without
/// building a tree of nodes: entry `e` stands for element `mirror.origin[e]`.
///
/// The mirror starts at the gap node above the root, element `rooti - 1 + n`. A node the
/// root cannot reach is left out, and so are its adjacency entries, which are not read.
pub fn mirror_from_arrays(mirror: &mut Mirror<usize>, n: usize, children: &[usize], rooti: usize)
    requires
        arrays_ok(children@, n as int),
        2 * n < usize::MAX,
        1 <= rooti <= n,
        exists|d: nat|
            #[trigger] finite_in(
                flat_kids_fn(children@, n as int),
                flat_valid_fn(children@, n as int),
                (rooti - 1 + n) as usize,
                d,
            ),
    ensures
        final(mirror).is_bfs_of(
            flat_kids_fn(children@, n as int),
            flat_valid_fn(children@, n as int),
            (rooti - 1 + n) as usize,
        ),
{
    let shape = FlatShape::new(n, children);
    proof {
        assert(kids_fn(shape) =~= flat_kids_fn(children@, n as int));
        assert(valid_fn(shape) =~= flat_valid_fn(children@, n as int));
        let d = choose|d: nat|
            #[trigger] finite_in(
                flat_kids_fn(children@, n as int),
                flat_valid_fn(children@, n as int),
                (rooti - 1 + n) as usize,
                d,
            );
        assert(crate::flat::finite_under(shape, (rooti - 1 + n) as usize, d));
    }
    mirror.rebuild(&shape, rooti - 1 + n);
}

/// Fills `mirror` straight from the arrays of the flat API, as [`mirror_from_arrays`] does,
/// when they describe a tree from `rooti`; says whether they do.
///
/// They do when the adjacency is as long as the counts promise, `rooti` names one of the
/// `n` nodes, and every path down from the gap node above it names elements and is
/// shorter than `2n + 1`, which no path through `2n` elements without a repeat can reach.
/// Where they do not, what the mirror holds is left unsaid.
pub fn mirror_from_arrays_within(mirror: &mut Mirror<usize>, n: usize, children: &[usize], rooti: usize) -> (r: bool)
    ensures
        r == (arrays_ok(children@, n as int) && 2 * n < usize::MAX && 1 <= rooti <= n && finite_in(
            flat_kids_fn(children@, n as int),
            flat_valid_fn(children@, n as int),
            (rooti - 1 + n) as usize,
            (2 * n + 1) as nat,
        )),
        r ==> final(mirror).is_bfs_of(
            flat_kids_fn(children@, n as int),
            flat_valid_fn(children@, n as int),
            (rooti - 1 + n) as usize,
        ),
{
    if adjacency_end(n, children).is_none() {
        return false;
    }
    if n > usize::MAX / 2 || rooti < 1 || rooti > n {
        return false;
    }
    let shape = FlatShape::new(n, children);
    proof {
        assert(kids_fn(shape) =~= flat_kids_fn(children@, n as int));
        assert(valid_fn(shape) =~= flat_valid_fn(children@, n as int));
    }
    mirror.rebuild_within(&shape, rooti - 1 + n, 2 * n + 1)
}

/// How many of `s` are below `n`.
pub open spec fn count_below(s: Seq<usize>, n: usize) -> nat
    decreases s.len(),
{
    if s.len() == 0 {
        0
    } else {
        count_below(s.drop_last(), n) + if s.last() < n {
            1nat
        } else {
            0nat
        }
    }
}

/// How many nodes, not gap nodes, a mirror of the arrays of `n` nodes reached: the entries
/// of `origin` below `n`.
pub fn content_reached(origin: &[usize], n: usize) -> (r: usize)
    ensures
        r == count_below(origin@, n),
{
    let mut count: usize = 0;
    let mut i: usize = 0;
    while i < origin.len()
        invariant
            i <= origin@.len(),
            count == count_below(origin@.take(i as int), n),
            count <= i,
        decreases origin@.len() - i,
    {
        proof {
            assert(origin@.take(i + 1).drop_last() =~= origin@.take(i as int));
            assert(origin@.take(i + 1).last() == origin@[i as int]);
        }
        if origin[i] < n {
            count = count + 1;
        }
        i = i + 1;
    }
    proof {
        assert(origin@.take(origin@.len() as int) =~= origin@);
    }
    count
}

/// Builds the arena of the flat description, with `content[i]` the payload of node `i` and
/// `gaps[i]` that of the gap node above it.
///
/// Every node gets an invisible gap node inserted above it, which is what produces the
/// spacing between levels: node `i` is `nodes[i]` and its gap node is `nodes[i + n]`, so
/// the root of the resulting tree is `nodes[rooti - 1 + n]`.
pub fn reify_flat_chunks<G: Copy>(n: usize, content: &[G], gaps: &[G], children: &[usize]) -> (r: (Arena<G>, Vec<NodeId>))
    requires
        content@.len() >= n,
        gaps@.len() >= n,
        arrays_ok(children@, n as int),
        all_entries_ok(children@, n as int),
        2 * n < usize::MAX,
    ensures
        wired_as(r.0, r.1@, children@, n as int),
        forall|i: int| 0 <= i < n ==> #[trigger] fresh_node(r.0, i, i + 1, content@[i], false),
        forall|i: int| 0 <= i < n ==> #[trigger] fresh_node(r.0, n + i, n + i + 1, gaps@[i], true),
{
    broadcast use NodeId::lemma_at_index, NodeId::lemma_index_injective;
    let mut arena: Arena<G> = Arena::with_capacity(2 * n);
    let mut nodes: Vec<NodeId> = Vec::with_capacity(2 * n);
    let mut i: usize = 0;
    while i < n
        invariant
            i <= n,
            2 * n < usize::MAX,
            content@.len() >= n,
            arena@.len() == i,
            nodes@.len() == i,
            forall|j: int| 0 <= j < i ==> (#[trigger] nodes@[j]).index() == j,
            forall|j: int| 0 <= j < i ==> #[trigger] fresh_node(arena, j, j + 1, content@[j], false),
            forall|j: int| 0 <= j < i ==> (#[trigger] arena.kids(nodes@[j])).len() == 0,
        decreases n - i,
    {
        let ghost before = arena;
        let id = arena.add_node(i + 1, content[i], false);
        nodes.push(id);
        proof {
            assert forall|j: int| 0 <= j < i implies arena@[j] == before@[j] by {
                assert(arena@.drop_last()[j] == arena@[j]);
            }
            assert forall|j: int| 0 <= j < i implies #[trigger] fresh_node(arena, j, j + 1, content@[j], false) by {
                assert(fresh_node(before, j, j + 1, content@[j], false));
            }
            assert forall|j: int| 0 <= j <= i implies (#[trigger] arena.kids(nodes@[j])).len() == 0 by {
                if j < i {
                    assert(before.kids(nodes@[j]).len() == 0);
                }
            }
            assert(fresh_node(arena, i as int, i + 1, content@[i as int], false));
        }
        i = i + 1;
    }
    let mut i: usize = 0;
    while i < n
        invariant
            i <= n,
            2 * n < usize::MAX,
            content@.len() >= n,
            gaps@.len() >= n,
            arena@.len() == n + i,
            nodes@.len() == n + i,
            forall|j: int| 0 <= j < n + i ==> (#[trigger] nodes@[j]).index() == j,
            forall|j: int| 0 <= j < n ==> #[trigger] fresh_node(arena, j, j + 1, content@[j], false),
            forall|j: int| 0 <= j < i ==> #[trigger] fresh_node(arena, n + j, n + j + 1, gaps@[j], true),
            forall|j: int| 0 <= j < n ==> (#[trigger] arena.kids(nodes@[j])).len() == 0,
            forall|j: int|
                0 <= j < i ==> #[trigger] ids_of(arena.kids(nodes@[n + j])) == seq![j as usize],
        decreases n - i,
    {
        let ghost before = arena;
        let gap = arena.add_node(i + 1 + n, gaps[i], true);
        let ghost added = arena;
        let child = nodes[i];
        arena.push_child(gap, child);
        nodes.push(gap);
        proof {
            assert forall|j: int| 0 <= j < n + i implies arena@[j] == before@[j] by {
                assert(added@.drop_last()[j] == added@[j]);
            }
            assert(fresh_node(arena, n + i, n + i + 1, gaps@[i as int], true));
            assert(arena.kids(nodes@[n + i]) == seq![child]);
            assert(ids_of(seq![child]) =~= seq![i]);
            assert forall|j: int| 0 <= j < n implies #[trigger] fresh_node(arena, j, j + 1, content@[j], false) by {
                assert(fresh_node(before, j, j + 1, content@[j], false));
            }
            assert forall|j: int| 0 <= j < i implies #[trigger] fresh_node(arena, n + j, n + j + 1, gaps@[j], true) by {
                assert(fresh_node(before, n + j, n + j + 1, gaps@[j], true));
            }
            assert forall|j: int| 0 <= j < n implies (#[trigger] arena.kids(nodes@[j])).len() == 0 by {
                assert(before.kids(nodes@[j]).len() == 0);
            }
            assert forall|j: int| 0 <= j < i + 1 implies #[trigger] ids_of(arena.kids(nodes@[n + j])) == seq![j as usize] by {
                if j < i {
                    assert(ids_of(before.kids(nodes@[n + j])) == seq![j as usize]);
                }
            }
        }
        i = i + 1;
    }
    let mut nedges: usize = n;
    let mut i: usize = 0;
    while i < n
        invariant
            i <= n,
            2 * n < usize::MAX,
            content@.len() >= n,
            gaps@.len() >= n,
            arrays_ok(children@, n as int),
            all_entries_ok(children@, n as int),
            arena@.len() == 2 * n,
            nodes@.len() == 2 * n,
            forall|j: int| 0 <= j < 2 * n ==> (#[trigger] nodes@[j]).index() == j,
            forall|j: int| 0 <= j < n ==> #[trigger] fresh_node(arena, j, j + 1, content@[j], false),
            forall|j: int| 0 <= j < n ==> #[trigger] fresh_node(arena, n + j, n + j + 1, gaps@[j], true),
            forall|j: int| i <= j < n ==> (#[trigger] arena.kids(nodes@[j])).len() == 0,
            forall|j: int|
                0 <= j < i ==> #[trigger] ids_of(arena.kids(nodes@[j])) == flat_kids(
                    children@,
                    n as int,
                    j,
                ),
            forall|j: int|
                0 <= j < n ==> #[trigger] ids_of(arena.kids(nodes@[n + j])) == seq![j as usize],
            nedges == adjacency_start(children@, n as int, i as int),
        decreases n - i,
    {
        let count = children[i];
        let parent = nodes[i];
        let ghost start = arena;
        proof {
            lemma_sum_prefix_mono(children@, i + 1, n as int);
        }
        let mut k: usize = 0;
        while k < count
            invariant
                k <= count,
                i < n,
                count == children@[i as int],
                parent == nodes@[i as int],
                2 * n < usize::MAX,
                arrays_ok(children@, n as int),
                all_entries_ok(children@, n as int),
                nedges == adjacency_start(children@, n as int, i as int) + k,
                adjacency_start(children@, n as int, i as int) + count <= children@.len(),
                arena@.len() == 2 * n,
                nodes@.len() == 2 * n,
                forall|j: int| 0 <= j < 2 * n ==> (#[trigger] nodes@[j]).index() == j,
                forall|j: int| 0 <= j < 2 * n && j != i ==> arena@[j] == start@[j],
                fresh_node(arena, i as int, i + 1, content@[i as int], false),
                ids_of(arena.kids(nodes@[i as int])) == flat_kids(children@, n as int, i as int).take(k as int),
            decreases count - k,
        {
            assert(entries_ok(children@, n as int, i as int));
            assert(1 <= children@[adjacency_start(children@, n as int, i as int) + k] <= n);
            let c = children[nedges];
            nedges = nedges + 1;
            let target = nodes[c - 1 + n];
            let ghost prev = arena;
            arena.push_child(parent, target);
            proof {
                let fk = flat_kids(children@, n as int, i as int);
                assert(arena.kids(nodes@[i as int]) == prev.kids(nodes@[i as int]).push(target));
                assert(target.index() == c - 1 + n);
                assert(fk[k as int] == c - 1 + n);
                assert(fk.take(k + 1) =~= fk.take(k as int).push(fk[k as int]));
                assert(ids_of(prev.kids(nodes@[i as int]).push(target)) =~= ids_of(prev.kids(nodes@[i as int])).push(target.index()));
                assert(ids_of(arena.kids(nodes@[i as int])) =~= fk.take(k + 1));
            }
            k = k + 1;
        }
        proof {
            assert(flat_kids(children@, n as int, i as int).take(count as int) =~= flat_kids(children@, n as int, i as int));
            assert(sum_prefix(children@, i + 1) == sum_prefix(children@, i as int) + count);
            assert forall|j: int| 0 <= j < n implies #[trigger] fresh_node(arena, j, j + 1, content@[j], false) by {
                if j != i {
                    assert(arena@[j] == start@[j]);
                    assert(fresh_node(start, j, j + 1, content@[j], false));
                }
            }
            assert forall|j: int| 0 <= j < n implies #[trigger] fresh_node(arena, n + j, n + j + 1, gaps@[j], true) by {
                assert(arena@[n + j] == start@[n + j]);
                assert(fresh_node(start, n + j, n + j + 1, gaps@[j], true));
            }
            assert forall|j: int| i + 1 <= j < n implies (#[trigger] arena.kids(nodes@[j])).len() == 0 by {
                assert(nodes@[j].index() == j);
                assert(arena@[j] == start@[j]);
                assert(start.kids(nodes@[j]).len() == 0);
            }
            assert forall|j: int| 0 <= j < i + 1 implies #[trigger] ids_of(arena.kids(nodes@[j])) == flat_kids(
                children@,
                n as int,
                j,
            ) by {
                assert(nodes@[j].index() == j);
                if j < i {
                    assert(arena@[j] == start@[j]);
                    assert(ids_of(start.kids(nodes@[j])) == flat_kids(children@, n as int, j));
                }
            }
            assert forall|j: int| 0 <= j < n implies #[trigger] ids_of(arena.kids(nodes@[n + j])) == seq![j as usize] by {
                assert(nodes@[n + j].index() == n + j);
                assert(arena@[n + j] == start@[n + j]);
                assert(ids_of(start.kids(nodes@[n + j])) == seq![j as usize]);
            }
        }
        i = i + 1;
    }
    proof {
        assert forall|x: int| 0 <= x < 2 * n implies ids_of(#[trigger] arena.kids(nodes@[x])) == flat_kids(
            children@,
            n as int,
            x,
        ) by {
            if x >= n {
                assert(ids_of(arena.kids(nodes@[n + (x - n)])) == seq![(x - n) as usize]);
                assert(flat_kids(children@, n as int, x) =~= seq![(x - n) as usize]);
            }
        }
    }
    (arena, nodes)
}

/// The arena of the flat description is wired as the arrays say: node `x` is `nodes[x]`,
/// and its children are the elements `flat_kids` names.
pub open spec fn wired_as<G>(a: Arena<G>, nodes: Seq<NodeId>, children: Seq<usize>, n: int) -> bool {
    &&& a@.len() == 2 * n
    &&& nodes.len() == 2 * n
    &&& forall|i: int| 0 <= i < 2 * n ==> (#[trigger] nodes[i]).index() == i
    &&& forall|x: int|
        0 <= x < 2 * n ==> ids_of(#[trigger] a.kids(nodes[x])) == flat_kids(children, n, x)
}

/// The two ways into the flat layout meet: the breadth-first mirror filled straight from
/// the arrays ([`mirror_from_arrays`]) and the one rebuilt from the arena that
/// [`reify_flat_chunks`] makes of the same arrays are the same mirror. They have the same
/// entries in the same order, each standing for the same element (entry `e` of the first
/// stands for element `origin[e]`, and of the second for the node at that position), with
/// the same children, parents, positions among siblings, and levels.
pub proof fn law_flat_mirror_matches_arena<G>(
    children: Seq<usize>,
    n: int,
    a: Arena<G>,
    nodes: Seq<NodeId>,
    rooti: int,
    from_arena: Mirror<NodeId>,
    from_arrays: Mirror<usize>,
)
    requires
        wired_as(a, nodes, children, n),
        1 <= rooti <= n,
        from_arena.is_bfs_of(kids_fn(a), valid_fn(a), nodes[rooti - 1 + n]),
        from_arrays.is_bfs_of(
            flat_kids_fn(children, n),
            flat_valid_fn(children, n),
            (rooti - 1 + n) as usize,
        ),
    ensures
        from_arena.size() == from_arrays.size(),
        forall|e: int|
            0 <= e < from_arena.size() ==> (#[trigger] from_arena.origin@[e]).index()
                == from_arrays.origin@[e],
        from_arena.parent@ == from_arrays.parent@,
        from_arena.childno@ == from_arrays.childno@,
        from_arena.child_count@ == from_arrays.child_count@,
        from_arena.first_child@ == from_arrays.first_child@,
        from_arena.levels@ == from_arrays.levels@,
{
    broadcast use NodeId::lemma_index_injective;
    let f = |t: NodeId| t.index();
    let k1 = kids_fn(a);
    let v1 = valid_fn(a);
    let k2 = flat_kids_fn(children, n);
    assert forall|x: NodeId| #[trigger] v1(x) implies k2(f(x)) == k1(x).map_values(f) by {
        let i = x.index() as int;
        assert(nodes[i].index() == x.index());
        assert(nodes[i] == x);
        assert(ids_of(a.kids(nodes[i])) == flat_kids(children, n, i));
        assert(k1(x) == a.kids(x));
        assert(k1(x).map_values(f) =~= ids_of(a.kids(x)));
    }
    assert(f(nodes[rooti - 1 + n]) == (rooti - 1 + n) as usize);
    lemma_bfs_unique(from_arena, k1, v1, nodes[rooti - 1 + n], from_arrays, k2, flat_valid_fn(children, n), (rooti - 1 + n) as usize, f);
}

} // verus!
