//! A deterministic generator of random trees.
//!
//! The trees are identified by their seed alone, so the sequence of draws must not
//! drift: other builds of the same generator draw the very same trees. It draws
//! integers; the sizes it hands out are whole numbers, which a layout reads as lengths.
use vstd::prelude::*;

use crate::arena::{fresh_node, ids_of, Arena, NodeId};
use crate::flat::{
    kids_fn, lemma_bfs_covered, lemma_sum_prefix_agree, lemma_sum_prefix_mono, sum_prefix, valid_fn, Mirror,
};
use crate::flatapi::{adjacency_start, all_entries_ok, arrays_ok, entries_ok, flat_kids};

verus! {

/// The multiplier of the linear congruential generator.
pub const LCG_MUL: u64 = 6364136223846793005;

/// The increment of the linear congruential generator.
pub const LCG_INC: u64 = 1442695040888963407;

/// One step of the generator: `state * LCG_MUL + LCG_INC`, modulo 2^64.
#[verifier::opaque]
pub open spec fn lcg_step(state: u64) -> u64 {
    vstd::wrapping::u64_specs::wrapping_add(
        vstd::wrapping::u64_specs::wrapping_mul(state, LCG_MUL),
        LCG_INC,
    )
}

/// The value of a draw in `0..n` made from `state`: the high bits of the next state.
#[verifier::opaque]
pub open spec fn draw_value(state: u64, n: u64) -> u64 {
    ((lcg_step(state) >> 33u64) % n) as u64
}

/// A draw in `0..n` is below `n`.
pub proof fn lemma_draw_below(state: u64, n: u64)
    requires
        n > 0,
    ensures
        draw_value(state, n) < n,
{
    reveal(draw_value);
    let x = lcg_step(state) >> 33u64;
    vstd::arithmetic::div_mod::lemma_mod_pos_bound(x as int, n as int);
}

/// A deterministic PRNG, so that a failing case is reproducible from its seed alone.
#[derive(Debug, Clone)]
pub struct Rng {
    state: u64,
}

impl View for Rng {
    type V = u64;

    closed spec fn view(&self) -> u64 {
        self.state
    }
}

impl Rng {
    /// Seeds the generator.
    pub fn new(seed: u64) -> (r: Rng)
        ensures
            r@ == seed,
    {
        Rng { state: seed }
    }

    /// A pseudo random value in `0..n`.
    pub fn rand(&mut self, n: u64) -> (r: u64)
        requires
            n > 0,
        ensures
            final(self)@ == lcg_step(old(self)@),
            r == draw_value(old(self)@, n),
            r < n,
    {
        proof {
            reveal(lcg_step);
            reveal(draw_value);
        }
        self.state = self.state.wrapping_mul(LCG_MUL).wrapping_add(LCG_INC);
        (self.state >> 33) % n
    }
}

/// The sizes the generator hands out: a box and a margin, in whole units.
#[derive(Debug, Clone, Copy, PartialEq, Eq, Structural)]
pub struct Sizes {
    /// Width of the box.
    pub w: u64,
    /// Height of the box.
    pub h: u64,
    /// Extra separation kept to the right of the subtree.
    pub margin: u64,
}

/// Size regimes.
///
/// [`Regime::Coarse`] matters more than it looks: multiples of ten make exactly-touching
/// siblings common, which is the regime that exposes a contour pair at distance zero.
#[derive(Debug, Clone, Copy, PartialEq, Eq, Structural)]
pub enum Regime {
    /// Multiples of ten, no margin.
    Coarse,
    /// Every node identical.
    Uniform,
    /// A wide spread of sizes, with margins.
    Varied,
    /// Small integers.
    Tiny,
}

/// The regimes in their fixed order, which the seeds depend on.
pub const REGIMES: [Regime; 4] = [Regime::Coarse, Regime::Uniform, Regime::Varied, Regime::Tiny];

/// The regimes, in the order of [`REGIMES`].
pub open spec fn regimes_seq() -> Seq<Regime> {
    seq![Regime::Coarse, Regime::Uniform, Regime::Varied, Regime::Tiny]
}

/// The sizes drawn from `state` in `regime`, and the state after the draws.
pub open spec fn draw_sizes(regime: Regime, state: u64) -> (Sizes, u64) {
    match regime {
        Regime::Uniform => (Sizes { w: 10, h: 10, margin: 0 }, state),
        Regime::Varied => {
            let s1 = lcg_step(state);
            let s2 = lcg_step(s1);
            let s3 = lcg_step(s2);
            (
                Sizes {
                    w: (5 + draw_value(state, 40)) as u64,
                    h: (5 + draw_value(s1, 30)) as u64,
                    margin: draw_value(s2, 6),
                },
                s3,
            )
        },
        Regime::Tiny => {
            let s1 = lcg_step(state);
            let s2 = lcg_step(s1);
            let s3 = lcg_step(s2);
            (
                Sizes {
                    w: (1 + draw_value(state, 4)) as u64,
                    h: (1 + draw_value(s1, 4)) as u64,
                    margin: draw_value(s2, 2),
                },
                s3,
            )
        },
        Regime::Coarse => {
            let s1 = lcg_step(state);
            let s2 = lcg_step(s1);
            (
                Sizes {
                    w: (10 * (1 + draw_value(state, 3))) as u64,
                    h: (10 * (1 + draw_value(s1, 3))) as u64,
                    margin: 0,
                },
                s2,
            )
        },
    }
}

/// The draws of the sizes come in a fixed order from the incoming state: the width from
/// the first, the height from the second, the margin (where the regime has one) from the
/// third, each the high bits of the next state modulo the range of that size.
pub proof fn law_sizes_draw_order(regime: Regime, s: u64)
    ensures
        ({
            let (z, after) = draw_sizes(regime, s);
            let s1 = lcg_step(s);
            let s2 = lcg_step(s1);
            let s3 = lcg_step(s2);
            match regime {
                Regime::Uniform => z.w == 10 && z.h == 10 && z.margin == 0 && after == s,
                Regime::Varied => {
                    &&& z.w == 5 + (s1 >> 33u64) % 40
                    &&& z.h == 5 + (s2 >> 33u64) % 30
                    &&& z.margin == (s3 >> 33u64) % 6
                    &&& after == s3
                },
                Regime::Tiny => {
                    &&& z.w == 1 + (s1 >> 33u64) % 4
                    &&& z.h == 1 + (s2 >> 33u64) % 4
                    &&& z.margin == (s3 >> 33u64) % 2
                    &&& after == s3
                },
                Regime::Coarse => {
                    &&& z.w == 10 * (1 + (s1 >> 33u64) % 3)
                    &&& z.h == 10 * (1 + (s2 >> 33u64) % 3)
                    &&& z.margin == 0
                    &&& after == s2
                },
            }
        }),
{
    reveal(draw_value);
}

/// The sizes a regime can hand out.
pub open spec fn sizes_in(regime: Regime, s: Sizes) -> bool {
    match regime {
        Regime::Uniform => s.w == 10 && s.h == 10 && s.margin == 0,
        Regime::Varied => 5 <= s.w < 45 && 5 <= s.h < 35 && s.margin < 6,
        Regime::Tiny => 1 <= s.w < 5 && 1 <= s.h < 5 && s.margin < 2,
        Regime::Coarse => (s.w == 10 || s.w == 20 || s.w == 30) && (s.h == 10 || s.h == 20
            || s.h == 30) && s.margin == 0,
    }
}

impl Regime {
    /// The position of the regime in [`REGIMES`].
    pub fn index(self) -> (r: usize)
        ensures
            r < 4,
            regimes_seq()[r as int] == self,
    {
        match self {
            Regime::Coarse => 0,
            Regime::Uniform => 1,
            Regime::Varied => 2,
            Regime::Tiny => 3,
        }
    }

    /// The sizes of one node, drawn from `rng`.
    pub fn sizes(self, rng: &mut Rng) -> (r: Sizes)
        ensures
            (r, final(rng)@) == draw_sizes(self, old(rng)@),
            sizes_in(self, r),
            ({
                let s0 = old(rng)@;
                let s1 = lcg_step(s0);
                let s2 = lcg_step(s1);
                match self {
                    Regime::Uniform => r == Sizes { w: 10, h: 10, margin: 0 } && final(rng)@ == s0,
                    Regime::Varied => {
                        &&& r.w == 5 + draw_value(s0, 40)
                        &&& r.h == 5 + draw_value(s1, 30)
                        &&& r.margin == draw_value(s2, 6)
                        &&& final(rng)@ == lcg_step(s2)
                    },
                    Regime::Tiny => {
                        &&& r.w == 1 + draw_value(s0, 4)
                        &&& r.h == 1 + draw_value(s1, 4)
                        &&& r.margin == draw_value(s2, 2)
                        &&& final(rng)@ == lcg_step(s2)
                    },
                    Regime::Coarse => {
                        &&& r.w == 10 * (1 + draw_value(s0, 3))
                        &&& r.h == 10 * (1 + draw_value(s1, 3))
                        &&& r.margin == 0
                        &&& final(rng)@ == s2
                    },
                }
            }),
    {
        match self {
            Regime::Uniform => Sizes { w: 10, h: 10, margin: 0 },
            Regime::Varied => {
                let w = 5 + rng.rand(40);
                let h = 5 + rng.rand(30);
                let m = rng.rand(6);
                Sizes { w, h, margin: m }
            },
            Regime::Tiny => {
                let w = 1 + rng.rand(4);
                let h = 1 + rng.rand(4);
                let m = rng.rand(2);
                Sizes { w, h, margin: m }
            },
            Regime::Coarse => {
                let w = 10 * (1 + rng.rand(3));
                let h = 10 * (1 + rng.rand(3));
                Sizes { w, h, margin: 0 }
            },
        }
    }
}

/// Rewiring a node after its children keeps the preorder of the children it already had.
proof fn lemma_pre_list_prefix(before: Arena<Sizes>, after: Arena<Sizes>, t: NodeId, d: nat, n: nat, lo: int, hi: int)
    requires
        before.closed_range(lo, hi),
        after@.len() >= hi,
        forall|j: int| lo <= j < hi ==> (#[trigger] after@[j]).children == before@[j].children,
        n <= before.kids(t).len(),
        before.kids(t).len() <= after.kids(t).len(),
        before.kids(t) == after.kids(t).take(before.kids(t).len() as int),
        forall|k: int| 0 <= k < n ==> lo <= (#[trigger] before.kids(t)[k]).index() < hi,
    ensures
        before.pre_list(before.kids(t), d, n) == after.pre_list(after.kids(t), d, n),
    decreases n,
{
    if n > 0 {
        lemma_pre_list_prefix(before, after, t, d, (n - 1) as nat, lo, hi);
        let c = before.kids(t)[n - 1];
        assert(after.kids(t).take(before.kids(t).len() as int)[n - 1] == after.kids(t)[n - 1]);
        assert(after.kids(t)[n - 1] == c);
        before.lemma_frame(after, lo, hi, c, d);
    }
}

/// A chain of `depth` nodes, each the only child of the previous one, labelled from `idx`;
/// the first of them, when there is one.
///
/// Built iteratively: a chain is exactly the shape that would run a recursive builder out
/// of stack.
pub fn chain<G: Copy>(arena: &mut Arena<G>, idx: usize, depth: usize, geo: G) -> (r: Option<NodeId>)
    requires
        idx + depth <= usize::MAX + 1,
    ensures
        ({
            let l = old(arena)@.len();
            &&& final(arena)@.len() == l + depth
            &&& (r is None) == (depth == 0)
            &&& r matches Some(t) ==> t.index() == l
            &&& forall|j: int| 0 <= j < l ==> final(arena)@[j] == old(arena)@[j]
            &&& forall|k: int| 0 <= k < depth ==> #[trigger] fresh_node(*final(arena), l + k, idx + k, geo, false)
            &&& forall|k: int|
                0 <= k < depth - 1 ==> ids_of(#[trigger] final(arena)@[l + k].children@) == seq![(l + k + 1) as usize]
            &&& depth > 0 ==> final(arena)@[l + depth - 1].children@.len() == 0
        }),
{
    if depth == 0 {
        return None;
    }
    let ghost l = arena@.len() as int;
    let ghost start = *arena;
    let top = arena.add_node(idx, geo, false);
    let mut prev = top;
    let mut k: usize = 1;
    proof {
        assert forall|j: int| 0 <= j < l implies arena@[j] == start@[j] by {
            assert(arena@.drop_last()[j] == arena@[j]);
        }
    }
    while k < depth
        invariant
            1 <= k,
            k <= depth,
            idx + depth <= usize::MAX + 1,
            arena@.len() == l + k,
            prev.index() == l + k - 1,
            l == start@.len(),
            forall|j: int| 0 <= j < l ==> arena@[j] == start@[j],
            forall|j: int| 0 <= j < k ==> #[trigger] fresh_node(*arena, l + j, idx + j, geo, false),
            forall|j: int|
                0 <= j < k - 1 ==> ids_of(#[trigger] arena@[l + j].children@) == seq![(l + j + 1) as usize],
            arena@[l + k - 1].children@.len() == 0,
        decreases depth - k,
    {
        let ghost before = *arena;
        let node = arena.add_node(idx + k, geo, false);
        let ghost added = *arena;
        arena.push_child(prev, node);
        proof {
            assert forall|j: int| 0 <= j < l + k implies added@[j] == before@[j] by {
                assert(added@.drop_last()[j] == added@[j]);
            }
            assert forall|j: int| 0 <= j < l implies arena@[j] == start@[j] by {
                assert(arena@[j] == added@[j]);
            }
            assert(fresh_node(added, l + k, idx + k, geo, false));
            assert forall|j: int| 0 <= j < k + 1 implies #[trigger] fresh_node(*arena, l + j, idx + j, geo, false) by {
                if j < k {
                    assert(fresh_node(before, l + j, idx + j, geo, false));
                    assert(added@.drop_last()[l + j] == added@[l + j]);
                    assert(added@[l + j] == before@[l + j]);
                    assert(fresh_node(added, l + j, idx + j, geo, false));
                    if j < k - 1 {
                        assert(arena@[l + j] == added@[l + j]);
                    }
                } else {
                    assert(arena@[l + k] == added@[l + k]);
                }
            }
            assert(arena@[l + k].children@.len() == 0) by {
                assert(arena@[l + k] == added@[l + k]);
            }
            assert(added@[l + k - 1].children@.len() == 0);
            assert(arena@[l + k - 1].children@ == added@[l + k - 1].children@.push(node));
            assert(ids_of(arena@[l + k - 1].children@) =~= seq![(l + k) as usize]);
            assert forall|j: int| 0 <= j < k implies ids_of(#[trigger] arena@[l + j].children@) == seq![(l + j + 1) as usize] by {
                if j < k - 1 {
                    assert(arena@[l + j] == added@[l + j]);
                    assert(added@.drop_last()[l + j] == added@[l + j]);
                    assert(added@[l + j] == before@[l + j]);
                }
            }
        }
        prev = node;
        k = k + 1;
    }
    Some(top)
}

/// Gathers the nodes of the subtree in preorder.
pub fn collect<G>(arena: &Arena<G>, root: NodeId) -> (r: Vec<NodeId>)
    requires
        arena.is_tree_at(root),
    ensures
        r@ == arena.preorder_of(root),
{
    arena.preorder(root)
}

/// The size of the next handout: `1 + rand(maxkids)`, or what is left if that is less.
pub open spec fn bench_take(remaining: nat, maxkids: u64, state: u64) -> nat {
    let v = 1 + draw_value(state, maxkids);
    if v < remaining {
        v as nat
    } else {
        remaining
    }
}

/// How many children each node gets, in breadth-first order, while `remaining` nodes are
/// left to hand out: `1 + rand(maxkids)` at a time, the last parent taking what is left.
pub open spec fn bench_counts(remaining: nat, maxkids: u64, state: u64) -> Seq<usize>
    decreases remaining,
{
    if remaining == 0 || maxkids == 0 {
        seq![]
    } else {
        let c = bench_take(remaining, maxkids, state);
        seq![c as usize] + bench_counts((remaining - c) as nat, maxkids, lcg_step(state))
    }
}

/// The state of the generator once [`bench_counts`] has drawn.
pub open spec fn bench_counts_state(remaining: nat, maxkids: u64, state: u64) -> u64
    decreases remaining,
{
    if remaining == 0 || maxkids == 0 {
        state
    } else {
        let c = bench_take(remaining, maxkids, state);
        bench_counts_state((remaining - c) as nat, maxkids, lcg_step(state))
    }
}

/// The box and margin of a benchmark node, drawn from `state`.
pub open spec fn bench_draw(state: u64) -> Sizes {
    let s1 = lcg_step(state);
    let s2 = lcg_step(s1);
    Sizes {
        w: (10 + draw_value(state, 40)) as u64,
        h: (10 + draw_value(s1, 20)) as u64,
        margin: draw_value(s2, 4),
    }
}

/// The sizes of `k` benchmark nodes in a row, drawn from `state`.
pub open spec fn bench_sizes(k: nat, state: u64) -> Seq<Sizes>
    decreases k,
{
    if k == 0 {
        seq![]
    } else {
        seq![bench_draw(state)] + bench_sizes((k - 1) as nat, lcg_step(lcg_step(lcg_step(state))))
    }
}

/// There are as many sizes as nodes.
pub proof fn lemma_bench_sizes_len(k: nat, state: u64)
    ensures
        bench_sizes(k, state).len() == k,
    decreases k,
{
    if k > 0 {
        lemma_bench_sizes_len((k - 1) as nat, lcg_step(lcg_step(lcg_step(state))));
    }
}

/// The children counts of the `n` nodes of a benchmark tree, zero past the last parent.
pub open spec fn bench_tree_counts(n: nat, maxkids: u64, seed: u64) -> Seq<usize> {
    let cs = bench_counts((n - 1) as nat, maxkids, seed);
    Seq::new(n, |i: int| if i < cs.len() { cs[i] } else { 0usize })
}

/// The sizes of the `n` nodes of a benchmark tree, drawn after the counts.
pub open spec fn bench_tree_sizes(n: nat, maxkids: u64, seed: u64) -> Seq<Sizes> {
    bench_sizes(n, bench_counts_state((n - 1) as nat, maxkids, seed))
}

/// The counts hand out exactly the nodes that were left, between 1 and `maxkids` at a time.
pub proof fn lemma_bench_counts(remaining: nat, maxkids: u64, state: u64)
    requires
        maxkids > 0,
        remaining <= usize::MAX,
    ensures
        sum_prefix(bench_counts(remaining, maxkids, state), bench_counts(remaining, maxkids, state).len() as int) == remaining,
        bench_counts(remaining, maxkids, state).len() <= remaining,
        forall|i: int|
            0 <= i < bench_counts(remaining, maxkids, state).len() ==> 1 <= #[trigger] bench_counts(
                remaining,
                maxkids,
                state,
            )[i] <= maxkids,
    decreases remaining,
{
    if remaining > 0 {
        let c = bench_take(remaining, maxkids, state);
        lemma_draw_below(state, maxkids);
        assert(1 <= c <= maxkids);
        lemma_bench_counts((remaining - c) as nat, maxkids, lcg_step(state));
        let rest = bench_counts((remaining - c) as nat, maxkids, lcg_step(state));
        let cs = bench_counts(remaining, maxkids, state);
        assert(cs == seq![c as usize] + rest);
        assert(cs.len() == rest.len() + 1);
        assert(cs[0] == c);
        lemma_sum_prefix_shift(c as usize, rest, rest.len() as int);
        assert forall|i: int| 0 <= i < cs.len() implies 1 <= #[trigger] cs[i] <= maxkids by {
            if i > 0 {
                assert(cs[i] == rest[i - 1]);
            }
        }
    }
}

/// Summing a run with one more value in front adds that value.
pub proof fn lemma_sum_prefix_shift(c: usize, rest: Seq<usize>, j: int)
    requires
        0 <= j <= rest.len(),
    ensures
        sum_prefix(seq![c] + rest, j + 1) == c + sum_prefix(rest, j),
    decreases j,
{
    if j > 0 {
        lemma_sum_prefix_shift(c, rest, j - 1);
        assert((seq![c] + rest)[j] == rest[j - 1]);
        assert(sum_prefix(seq![c] + rest, j + 1) == sum_prefix(seq![c] + rest, j) + (seq![c] + rest)[j]);
        assert(sum_prefix(rest, j) == sum_prefix(rest, j - 1) + rest[j - 1]);
    } else {
        assert(sum_prefix(seq![c] + rest, 1) == sum_prefix(seq![c] + rest, 0) + (seq![c] + rest)[0]);
        assert((seq![c] + rest)[0] == c);
    }
}

/// The state of the generator after `k` steps from `state`.
pub open spec fn lcg_steps(state: u64, k: nat) -> u64
    decreases k,
{
    if k == 0 {
        state
    } else {
        lcg_steps(lcg_step(state), (k - 1) as nat)
    }
}

/// A handout is one more than the draw from `state`, cut down to what is left.
proof fn lemma_take_is_draw(remaining: nat, maxkids: u64, state: u64)
    requires
        maxkids > 0,
    ensures
        ({
            let v = 1 + (lcg_steps(state, 1) >> 33u64) % maxkids;
            bench_take(remaining, maxkids, state) == if v < remaining { v } else { remaining as int }
        }),
{
    reveal(draw_value);
    assert(lcg_steps(state, 1) == lcg_step(state)) by {
        assert(lcg_steps(state, 1) == lcg_steps(lcg_step(state), 0));
    }
}

/// Handout `i` of the counts from `state`, by induction on `i`.
proof fn lemma_handout_at(remaining: nat, maxkids: u64, state: u64, i: int)
    requires
        maxkids > 0,
        remaining <= usize::MAX,
        0 <= i < bench_counts(remaining, maxkids, state).len(),
    ensures
        ({
            let cs = bench_counts(remaining, maxkids, state);
            let left = remaining - sum_prefix(cs, i);
            let v = 1 + (lcg_steps(state, (i + 1) as nat) >> 33u64) % maxkids;
            &&& left > 0
            &&& cs[i] == if v < left { v } else { left }
        }),
    decreases i,
{
    let cs = bench_counts(remaining, maxkids, state);
    let c = bench_take(remaining, maxkids, state);
    let rest = bench_counts((remaining - c) as nat, maxkids, lcg_step(state));
    assert(remaining > 0);
    assert(cs == seq![c as usize] + rest);
    if i == 0 {
        lemma_take_is_draw(remaining, maxkids, state);
        assert(sum_prefix(cs, 0) == 0);
        assert(cs[0] == c);
    } else {
        lemma_handout_at((remaining - c) as nat, maxkids, lcg_step(state), i - 1);
        assert(cs[i] == rest[i - 1]);
        lemma_sum_prefix_shift(c as usize, rest, i - 1);
        assert(lcg_steps(state, (i + 1) as nat) == lcg_steps(lcg_step(state), i as nat));
    }
}

/// Handout `i` of the counts is one more than the `i`-th draw in `0..maxkids` (the high
/// bits of the generator after `i + 1` steps, modulo `maxkids`), cut down to what is still
/// left to hand out; the handouts go on while anything is left, and add up to all of it.
pub proof fn law_bench_handouts(remaining: nat, maxkids: u64, state: u64)
    requires
        maxkids > 0,
        remaining <= usize::MAX,
    ensures
        ({
            let cs = bench_counts(remaining, maxkids, state);
            &&& sum_prefix(cs, cs.len() as int) == remaining
            &&& forall|i: int| 0 <= i < cs.len() ==> #[trigger] sum_prefix(cs, i) < remaining
            &&& forall|i: int|
                0 <= i < cs.len() ==> {
                    let left = remaining - sum_prefix(cs, i);
                    let v = 1 + (lcg_steps(state, (i + 1) as nat) >> 33u64) % maxkids;
                    #[trigger] cs[i] == if v < left { v } else { left }
                }
        }),
{
    let cs = bench_counts(remaining, maxkids, state);
    assert(sum_prefix(cs, cs.len() as int) == remaining) by {
        lemma_bench_counts(remaining, maxkids, state);
    }
    assert forall|i: int| 0 <= i < cs.len() implies #[trigger] sum_prefix(cs, i) < remaining by {
        lemma_handout_at(remaining, maxkids, state, i);
    }
    assert forall|i: int| 0 <= i < cs.len() implies {
        let left = remaining - sum_prefix(cs, i);
        let v = 1 + (lcg_steps(state, (i + 1) as nat) >> 33u64) % maxkids;
        #[trigger] cs[i] == if v < left { v } else { left }
    } by {
        lemma_handout_at(remaining, maxkids, state, i);
    }
}

/// Stepping `a` times and then `b` times is stepping `a + b` times.
pub proof fn lemma_lcg_steps_add(state: u64, a: nat, b: nat)
    ensures
        lcg_steps(lcg_steps(state, a), b) == lcg_steps(state, a + b),
    decreases a,
{
    if a > 0 {
        lemma_lcg_steps_add(lcg_step(state), (a - 1) as nat, b);
    }
}

/// Handing out the counts steps the generator once per handout.
pub proof fn lemma_bench_counts_state(remaining: nat, maxkids: u64, state: u64)
    ensures
        bench_counts_state(remaining, maxkids, state) == lcg_steps(
            state,
            bench_counts(remaining, maxkids, state).len(),
        ),
    decreases remaining,
{
    if remaining > 0 && maxkids > 0 {
        let c = bench_take(remaining, maxkids, state);
        lemma_draw_below(state, maxkids);
        lemma_bench_counts_state((remaining - c) as nat, maxkids, lcg_step(state));
        let rest = bench_counts((remaining - c) as nat, maxkids, lcg_step(state));
        assert(bench_counts(remaining, maxkids, state) == seq![c as usize] + rest);
        assert(lcg_steps(state, rest.len() + 1) == lcg_steps(lcg_step(state), rest.len()));
    }
}

/// Benchmark node `i` of a run drawn from `state` takes its width, height and margin from
/// draws `3i`, `3i + 1` and `3i + 2`, in that order: `10 + rand(40)`, `10 + rand(20)` and
/// `rand(4)`.
pub proof fn law_bench_sizes_are_draws(k: nat, state: u64)
    ensures
        bench_sizes(k, state).len() == k,
        forall|i: int|
            0 <= i < k ==> #[trigger] bench_sizes(k, state)[i] == (Sizes {
                w: (10 + (lcg_steps(state, (3 * i + 1) as nat) >> 33u64) % 40) as u64,
                h: (10 + (lcg_steps(state, (3 * i + 2) as nat) >> 33u64) % 20) as u64,
                margin: ((lcg_steps(state, (3 * i + 3) as nat) >> 33u64) % 4) as u64,
            }),
    decreases k,
{
    lemma_bench_sizes_len(k, state);
    if k > 0 {
        let s3 = lcg_step(lcg_step(lcg_step(state)));
        law_bench_sizes_are_draws((k - 1) as nat, s3);
        let sz = bench_sizes(k, state);
        let rest = bench_sizes((k - 1) as nat, s3);
        assert(sz == seq![bench_draw(state)] + rest);
        assert(lcg_steps(state, 3) == s3) by {
            reveal_with_fuel(lcg_steps, 4);
        }
        assert forall|i: int| 0 <= i < k implies #[trigger] sz[i] == (Sizes {
            w: (10 + (lcg_steps(state, (3 * i + 1) as nat) >> 33u64) % 40) as u64,
            h: (10 + (lcg_steps(state, (3 * i + 2) as nat) >> 33u64) % 20) as u64,
            margin: ((lcg_steps(state, (3 * i + 3) as nat) >> 33u64) % 4) as u64,
        }) by {
            if i == 0 {
                reveal(draw_value);
                reveal_with_fuel(lcg_steps, 4);
            } else {
                assert(sz[i] == rest[i - 1]);
                lemma_lcg_steps_add(state, 3, (3 * (i - 1) + 1) as nat);
                lemma_lcg_steps_add(state, 3, (3 * (i - 1) + 2) as nat);
                lemma_lcg_steps_add(state, 3, (3 * (i - 1) + 3) as nat);
            }
        }
    }
}

/// The sizes of a benchmark tree are drawn after all the handouts of its counts: with `m`
/// handouts, node `i` takes its width, height and margin from draws `m + 3i`, `m + 3i + 1`
/// and `m + 3i + 2` from the seed.
pub proof fn law_bench_tree_sizes_are_draws(n: nat, maxkids: u64, seed: u64)
    ensures
        ({
            let m = bench_counts((n - 1) as nat, maxkids, seed).len();
            let sizes = bench_tree_sizes(n, maxkids, seed);
            &&& sizes.len() == n
            &&& forall|i: int|
                0 <= i < n ==> #[trigger] sizes[i] == (Sizes {
                    w: (10 + (lcg_steps(seed, (m + 3 * i + 1) as nat) >> 33u64) % 40) as u64,
                    h: (10 + (lcg_steps(seed, (m + 3 * i + 2) as nat) >> 33u64) % 20) as u64,
                    margin: ((lcg_steps(seed, (m + 3 * i + 3) as nat) >> 33u64) % 4) as u64,
                })
        }),
{
    let m = bench_counts((n - 1) as nat, maxkids, seed).len();
    let st = bench_counts_state((n - 1) as nat, maxkids, seed);
    lemma_bench_counts_state((n - 1) as nat, maxkids, seed);
    law_bench_sizes_are_draws(n, st);
    let sizes = bench_tree_sizes(n, maxkids, seed);
    assert forall|i: int| 0 <= i < n implies #[trigger] sizes[i] == (Sizes {
        w: (10 + (lcg_steps(seed, (m + 3 * i + 1) as nat) >> 33u64) % 40) as u64,
        h: (10 + (lcg_steps(seed, (m + 3 * i + 2) as nat) >> 33u64) % 20) as u64,
        margin: ((lcg_steps(seed, (m + 3 * i + 3) as nat) >> 33u64) % 4) as u64,
    }) by {
        assert(sizes[i] == bench_sizes(n, st)[i]);
        lemma_lcg_steps_add(seed, m, (3 * i + 1) as nat);
        lemma_lcg_steps_add(seed, m, (3 * i + 2) as nat);
        lemma_lcg_steps_add(seed, m, (3 * i + 3) as nat);
    }
}

/// The children counts of a benchmark tree of `n` nodes, node by node in breadth-first
/// order: node `i` gets one more than the `i`-th draw in `0..maxkids`, cut down to the
/// nodes not handed out yet, and no child at all once every node has been handed out.
pub proof fn law_bench_tree_counts_are_draws(n: nat, maxkids: u64, seed: u64)
    requires
        n > 0,
        n > 1 ==> maxkids > 0,
        n <= usize::MAX,
    ensures
        ({
            let counts = bench_tree_counts(n, maxkids, seed);
            &&& counts.len() == n
            &&& sum_prefix(counts, n as int) == n - 1
            &&& forall|i: int|
                0 <= i < n ==> {
                    let left = n - 1 - sum_prefix(counts, i);
                    let v = 1 + (lcg_steps(seed, (i + 1) as nat) >> 33u64) % maxkids;
                    #[trigger] counts[i] == if left == 0 {
                        0
                    } else if v < left {
                        v
                    } else {
                        left
                    }
                }
        }),
{
    lemma_bench_tree_counts(n, maxkids, seed);
    let cs = bench_counts((n - 1) as nat, maxkids, seed);
    let counts = bench_tree_counts(n, maxkids, seed);
    if n > 1 {
        law_bench_handouts((n - 1) as nat, maxkids, seed);
        lemma_bench_counts((n - 1) as nat, maxkids, seed);
    }
    assert forall|i: int| 0 <= i < n implies {
        let left = n - 1 - sum_prefix(counts, i);
        let v = 1 + (lcg_steps(seed, (i + 1) as nat) >> 33u64) % maxkids;
        #[trigger] counts[i] == if left == 0 {
            0
        } else if v < left {
            v
        } else {
            left
        }
    } by {
        lemma_sum_prefix_padded(cs, counts, i);
        if i < cs.len() {
            assert(counts[i] == cs[i]);
        } else {
            assert(counts[i] == 0);
            if n > 1 {
                assert(sum_prefix(cs, cs.len() as int) == n - 1);
            }
        }
    }
}

/// Draws the counts of a benchmark tree of `n` nodes.
fn bench_counts_into(rng: &mut Rng, n: usize, maxkids: usize) -> (r: Vec<usize>)
    requires
        n > 0,
        n > 1 ==> maxkids > 0,
    ensures
        r@ == bench_tree_counts(n as nat, maxkids as u64, old(rng)@),
        final(rng)@ == bench_counts_state((n - 1) as nat, maxkids as u64, old(rng)@),
{
    let ghost seed = rng@;
    let ghost mk = maxkids as u64;
    let mut counts: Vec<usize> = Vec::new();
    let mut j: usize = 0;
    while j < n
        invariant
            j <= n,
            counts@.len() == j,
            forall|x: int| 0 <= x < j ==> counts@[x] == 0,
        decreases n - j,
    {
        counts.push(0);
        j = j + 1;
    }
    let mut remaining: usize = n - 1;
    let mut i: usize = 0;
    while remaining > 0
        invariant
            n > 0,
            n > 1 ==> maxkids > 0,
            mk == maxkids as u64,
            counts@.len() == n,
            i + remaining <= n - 1,
            remaining <= n - 1,
            bench_counts((n - 1) as nat, mk, seed) == counts@.take(i as int) + bench_counts(
                remaining as nat,
                mk,
                rng@,
            ),
            bench_counts_state((n - 1) as nat, mk, seed) == bench_counts_state(
                remaining as nat,
                mk,
                rng@,
            ),
            forall|x: int| i <= x < n ==> counts@[x] == 0,
        decreases remaining,
    {
        let ghost st = rng@;
        let v = rng.rand(maxkids as u64);
        let c0: usize = 1 + v as usize;
        let c = if c0 < remaining {
            c0
        } else {
            remaining
        };
        proof {
            assert(c == bench_take(remaining as nat, mk, st));
            assert(bench_counts(remaining as nat, mk, st) == seq![c] + bench_counts(
                (remaining - c) as nat,
                mk,
                rng@,
            ));
        }
        let ghost before = counts@;
        counts.set(i, c);
        proof {
            assert(counts@.take(i + 1) =~= before.take(i as int) + seq![c]);
            assert(counts@.take(i as int) + seq![c] + bench_counts((remaining - c) as nat, mk, rng@)
                =~= before.take(i as int) + (seq![c] + bench_counts((remaining - c) as nat, mk, rng@)));
        }
        remaining = remaining - c;
        i = i + 1;
    }
    proof {
        let cs = bench_counts((n - 1) as nat, mk, seed);
        assert(cs =~= counts@.take(i as int));
        assert(counts@ =~= bench_tree_counts(n as nat, mk, seed));
    }
    counts
}

/// Sums over a run padded with zeros are sums over the run.
pub proof fn lemma_sum_prefix_padded(cs: Seq<usize>, padded: Seq<usize>, j: int)
    requires
        cs.len() <= padded.len(),
        0 <= j <= padded.len(),
        forall|i: int| 0 <= i < padded.len() ==> #[trigger] padded[i] == if i < cs.len() { cs[i] } else { 0usize },
    ensures
        sum_prefix(padded, j) == sum_prefix(cs, if j < cs.len() { j } else { cs.len() as int }),
    decreases j,
{
    if j > 0 {
        lemma_sum_prefix_padded(cs, padded, j - 1);
    }
}

/// A tree of exactly `n` nodes in breadth-first order, labelled from 1.
///
/// Every node but the root is handed to a parent in breadth-first order, `1 +
/// rand(maxkids)` at a time, so the size is exact and the shape still irregular; then the
/// sizes of the nodes are drawn, in order. Node `i` is at position `l + i` of the arena,
/// `l` being where the arena ended, and its children are the nodes handed to it.
pub fn bench_tree(arena: &mut Arena<Sizes>, n: usize, maxkids: usize, seed: u64) -> (r: NodeId)
    requires
        n > 0,
        n > 1 ==> maxkids > 0,
    ensures
        ({
            let l = old(arena)@.len();
            let counts = bench_tree_counts(n as nat, maxkids as u64, seed);
            let sizes = bench_tree_sizes(n as nat, maxkids as u64, seed);
            &&& final(arena)@.len() == l + n
            &&& r.index() == l
            &&& forall|j: int| 0 <= j < l ==> final(arena)@[j] == old(arena)@[j]
            &&& forall|i: int| 0 <= i < n ==> #[trigger] fresh_node(*final(arena), l + i, i + 1, sizes[i], false)
            &&& forall|i: int|
                0 <= i < n ==> ids_of(#[trigger] final(arena)@[l + i].children@) == Seq::new(
                    counts[i] as nat,
                    |k: int| (l + 1 + sum_prefix(counts, i) + k) as usize,
                )
        }),
{
    let ghost l = arena@.len() as int;
    let ghost start = *arena;
    let ghost mk = maxkids as u64;
    let mut rng = Rng::new(seed);
    let counts = bench_counts_into(&mut rng, n, maxkids);
    let ghost st0 = rng@;
    let ghost sizes = bench_sizes(n as nat, st0);
    let mut ids: Vec<NodeId> = Vec::new();
    let mut i: usize = 0;
    while i < n
        invariant
            i <= n,
            l == start@.len(),
            arena@.len() == l + i,
            ids@.len() == i,
            sizes == bench_sizes(n as nat, st0),
            bench_sizes(n as nat, st0) == sizes.take(i as int) + bench_sizes((n - i) as nat, rng@),
            forall|j: int| 0 <= j < l ==> arena@[j] == start@[j],
            forall|j: int| 0 <= j < i ==> (#[trigger] ids@[j]).index() == l + j,
            forall|j: int| 0 <= j < i ==> #[trigger] fresh_node(*arena, l + j, j + 1, sizes[j], false),
            forall|j: int| 0 <= j < i ==> (#[trigger] arena@[l + j]).children@.len() == 0,
        decreases n - i,
    {
        let ghost st = rng@;
        let ghost before = *arena;
        let w = 10 + rng.rand(40);
        let h = 10 + rng.rand(20);
        let m = rng.rand(4);
        let sz = Sizes { w, h, margin: m };
        proof {
            assert(sz == bench_draw(st));
            assert(bench_sizes((n - i) as nat, st) == seq![sz] + bench_sizes((n - i - 1) as nat, rng@));
            lemma_bench_sizes_len(n as nat, st0);
            assert((sizes.take(i as int) + bench_sizes((n - i) as nat, st))[i as int] == sz);
            assert(sizes[i as int] == sz);
            assert(sizes.take(i + 1) =~= sizes.take(i as int) + seq![sz]);
        }
        let id = arena.add_node(i + 1, sz, false);
        ids.push(id);
        proof {
            assert forall|j: int| 0 <= j < l + i implies arena@[j] == before@[j] by {
                assert(arena@.drop_last()[j] == arena@[j]);
            }
            assert forall|j: int| 0 <= j < i + 1 implies #[trigger] fresh_node(*arena, l + j, j + 1, sizes[j], false) by {
                if j < i {
                    assert(fresh_node(before, l + j, j + 1, sizes[j], false));
                }
            }
            assert forall|j: int| 0 <= j < i + 1 implies (#[trigger] arena@[l + j]).children@.len() == 0 by {
                if j < i {
                    assert(before@[l + j].children@.len() == 0);
                }
            }
        }
        i = i + 1;
    }
    proof {
        let cs = bench_counts((n - 1) as nat, mk, seed);
        if n > 1 {
            lemma_bench_counts((n - 1) as nat, mk, seed);
        }
        lemma_sum_prefix_padded(cs, counts@, n as int);
        assert(sum_prefix(counts@, n as int) == n - 1);
    }
    let mut next: usize = 1;
    let mut i: usize = 0;
    while i < n
        invariant
            i <= n,
            l == start@.len(),
            arena@.len() == l + n,
            ids@.len() == n,
            counts@.len() == n,
            counts@ == bench_tree_counts(n as nat, mk, seed),
            sum_prefix(counts@, n as int) == n - 1,
            next == 1 + sum_prefix(counts@, i as int),
            forall|j: int| 0 <= j < l ==> arena@[j] == start@[j],
            forall|j: int| 0 <= j < n ==> (#[trigger] ids@[j]).index() == l + j,
            forall|j: int| 0 <= j < n ==> #[trigger] fresh_node(*arena, l + j, j + 1, sizes[j], false),
            forall|j: int| i <= j < n ==> (#[trigger] arena@[l + j]).children@.len() == 0,
            forall|j: int|
                0 <= j < i ==> ids_of(#[trigger] arena@[l + j].children@) == Seq::new(
                    counts@[j] as nat,
                    |k: int| (l + 1 + sum_prefix(counts@, j) + k) as usize,
                ),
        decreases n - i,
    {
        let count = counts[i];
        let parent = ids[i];
        let ghost before = *arena;
        proof {
            vstd::arithmetic::div_mod::lemma_mod_pos_bound(0, 1);
            crate::flat::lemma_sum_prefix_mono(counts@, i + 1, n as int);
            assert(sum_prefix(counts@, i + 1) == sum_prefix(counts@, i as int) + count);
        }
        let mut k: usize = 0;
        while k < count
            invariant
                k <= count,
                i < n,
                count == counts@[i as int],
                parent == ids@[i as int],
                l == start@.len(),
                arena@.len() == l + n,
                ids@.len() == n,
                next == 1 + sum_prefix(counts@, i as int) + k,
                1 + sum_prefix(counts@, i as int) + count <= n,
                forall|j: int| 0 <= j < n ==> (#[trigger] ids@[j]).index() == l + j,
                forall|j: int| 0 <= j < l + n && j != l + i ==> arena@[j] == before@[j],
                fresh_node(*arena, l + i, i + 1, sizes[i as int], false),
                ids_of(arena@[l + i].children@) == Seq::new(
                    k as nat,
                    |kk: int| (l + 1 + sum_prefix(counts@, i as int) + kk) as usize,
                ),
            decreases count - k,
        {
            let child = ids[next];
            let ghost prev = *arena;
            arena.push_child(parent, child);
            proof {
                assert(arena@[l + i].children@ == prev@[l + i].children@.push(child));
                assert(ids_of(prev@[l + i].children@.push(child)) =~= ids_of(prev@[l + i].children@).push(child.index()));
                assert(ids_of(arena@[l + i].children@) =~= Seq::new(
                    (k + 1) as nat,
                    |kk: int| (l + 1 + sum_prefix(counts@, i as int) + kk) as usize,
                ));
            }
            next = next + 1;
            k = k + 1;
        }
        proof {
            assert forall|j: int| 0 <= j < n implies #[trigger] fresh_node(*arena, l + j, j + 1, sizes[j], false) by {
                if j != i {
                    assert(arena@[l + j] == before@[l + j]);
                    assert(fresh_node(before, l + j, j + 1, sizes[j], false));
                }
            }
            assert forall|j: int| 0 <= j < l implies arena@[j] == start@[j] by {
                assert(arena@[j] == before@[j]);
            }
            assert forall|j: int| i + 1 <= j < n implies (#[trigger] arena@[l + j]).children@.len() == 0 by {
                assert(arena@[l + j] == before@[l + j]);
            }
            assert forall|j: int| 0 <= j < i + 1 implies ids_of(#[trigger] arena@[l + j].children@) == Seq::new(
                counts@[j] as nat,
                |k: int| (l + 1 + sum_prefix(counts@, j) + k) as usize,
            ) by {
                if j < i {
                    assert(arena@[l + j] == before@[l + j]);
                }
            }
        }
        i = i + 1;
    }
    ids[0]
}

/// Draws the sizes of `n` benchmark nodes, in order.
fn bench_sizes_into(rng: &mut Rng, n: usize) -> (r: Vec<Sizes>)
    ensures
        r@ == bench_sizes(n as nat, old(rng)@),
{
    let ghost st0 = rng@;
    let mut szs: Vec<Sizes> = Vec::new();
    let mut i: usize = 0;
    proof {
        lemma_bench_sizes_len(n as nat, st0);
    }
    while i < n
        invariant
            i <= n,
            bench_sizes(n as nat, st0).len() == n,
            bench_sizes(n as nat, st0) == szs@ + bench_sizes((n - i) as nat, rng@),
        decreases n - i,
    {
        let ghost st = rng@;
        let w = 10 + rng.rand(40);
        let h = 10 + rng.rand(20);
        let m = rng.rand(4);
        let sz = Sizes { w, h, margin: m };
        proof {
            assert(sz == bench_draw(st));
            assert(bench_sizes((n - i) as nat, st) == seq![sz] + bench_sizes((n - i - 1) as nat, rng@));
            assert(szs@.push(sz) + bench_sizes((n - i - 1) as nat, rng@) =~= szs@ + (seq![sz]
                + bench_sizes((n - i - 1) as nat, rng@)));
        }
        szs.push(sz);
        i = i + 1;
    }
    proof {
        assert(bench_sizes(0, rng@) =~= Seq::<Sizes>::empty());
        assert(szs@ + bench_sizes(0, rng@) =~= szs@);
    }
    szs
}

/// The counts followed by the adjacency `2, 3, ..., n` of a benchmark tree.
pub open spec fn bench_children(n: nat, maxkids: u64, seed: u64) -> Seq<usize> {
    let counts = bench_tree_counts(n, maxkids, seed);
    Seq::new((2 * n - 1) as nat, |i: int| if i < n { counts[i] } else { (i - n + 2) as usize })
}

/// What `wh` holds at position `j`: the widths, then the heights, then the margins.
pub open spec fn wh_value(sizes: Seq<Sizes>, n: int, j: int) -> u64 {
    if j < n {
        sizes[j].w
    } else if j < 2 * n {
        sizes[j - n].h
    } else {
        sizes[j - 2 * n].margin
    }
}

/// What `whg` holds at position `j`: the widths of the nodes, then a height of 5.
pub open spec fn whg_value(sizes: Seq<Sizes>, n: int, j: int) -> u64 {
    if j < n {
        sizes[j].w
    } else {
        5
    }
}

/// The same tree as [`bench_tree`], in the parallel arrays of the flat API.
///
/// Because the generator hands the nodes out in breadth-first order, the adjacency is
/// simply `2, 3, ..., n`: node 0 takes the first few, node 1 the next few, and so on.
/// Returns `(wh, whg, children)`: the sizes as `[w.., h.., margin..]`, the gap nodes as
/// wide as their nodes and 5 high, and the counts followed by the adjacency.
pub fn bench_arrays(n: usize, maxkids: usize, seed: u64) -> (r: (Vec<u64>, Vec<u64>, Vec<usize>))
    requires
        n > 0,
        n > 1 ==> maxkids > 0,
        3 * n <= usize::MAX,
    ensures
        ({
            let counts = bench_tree_counts(n as nat, maxkids as u64, seed);
            let sizes = bench_tree_sizes(n as nat, maxkids as u64, seed);
            let (wh, whg, children) = r;
            &&& wh@.len() == 3 * n
            &&& whg@.len() == 2 * n
            &&& children@.len() == 2 * n - 1
            &&& forall|j: int| 0 <= j < 3 * n ==> #[trigger] wh@[j] == wh_value(sizes, n as int, j)
            &&& forall|j: int| 0 <= j < 2 * n ==> #[trigger] whg@[j] == whg_value(sizes, n as int, j)
            &&& forall|i: int| 0 <= i < n ==> #[trigger] children@[i] == counts[i]
            &&& forall|i: int| 1 <= i < n ==> #[trigger] children@[n + i - 1] == i + 1
            &&& children@ == bench_children(n as nat, maxkids as u64, seed)
        }),
{
    let mut rng = Rng::new(seed);
    let mut children = bench_counts_into(&mut rng, n, maxkids);
    let szs = bench_sizes_into(&mut rng, n);
    let ghost sizes = szs@;
    proof {
        lemma_bench_sizes_len(n as nat, bench_counts_state((n - 1) as nat, maxkids as u64, seed));
        assert(sizes == bench_tree_sizes(n as nat, maxkids as u64, seed));
    }
    let mut wh: Vec<u64> = Vec::new();
    let mut whg: Vec<u64> = Vec::new();
    let mut i: usize = 0;
    while i < 3 * n
        invariant
            i <= 3 * n,
            3 * n <= usize::MAX,
            szs@ == sizes,
            sizes.len() == n,
            wh@.len() == i,
            whg@.len() == if i < 2 * n { i as int } else { 2 * n as int },
            forall|j: int| 0 <= j < i ==> #[trigger] wh@[j] == wh_value(sizes, n as int, j),
            forall|j: int| 0 <= j < i && j < 2 * n ==> #[trigger] whg@[j] == whg_value(sizes, n as int, j),
        decreases 3 * n - i,
    {
        if i < n {
            wh.push(szs[i].w);
            whg.push(szs[i].w);
        } else if i < 2 * n {
            wh.push(szs[i - n].h);
            whg.push(5);
        } else {
            wh.push(szs[i - 2 * n].margin);
        }
        i = i + 1;
    }
    let mut i: usize = 1;
    while i < n
        invariant
            1 <= i <= n,
            children@.len() == n + i - 1,
            children@.subrange(0, n as int) == bench_tree_counts(n as nat, maxkids as u64, seed),
            forall|j: int| 1 <= j < i ==> #[trigger] children@[n + j - 1] == j + 1,
        decreases n - i,
    {
        let ghost before = children@;
        children.push(i + 1);
        proof {
            assert(children@.subrange(0, n as int) =~= before.subrange(0, n as int));
        }
        i = i + 1;
    }
    proof {
        let counts = bench_tree_counts(n as nat, maxkids as u64, seed);
        assert forall|j: int| 0 <= j < n implies #[trigger] children@[j] == counts[j] by {
            assert(children@.subrange(0, n as int)[j] == children@[j]);
        }
        assert forall|j: int| 0 <= j < 2 * n - 1 implies #[trigger] children@[j] == bench_children(
            n as nat,
            maxkids as u64,
            seed,
        )[j] by {
            if j >= n {
                assert(children@[n + (j - n + 1) - 1] == (j - n + 1) + 1);
            }
        }
        assert(children@ =~= bench_children(n as nat, maxkids as u64, seed));
    }
    (wh, whg, children)
}

/// The nodes from `lo` to `hi` are labelled from `first` on, carry sizes of `regime`, have
/// at most `maxkids` children each, and are fresh but for their children.
pub open spec fn generated(a: Arena<Sizes>, lo: int, hi: int, first: int, maxkids: int, regime: Regime) -> bool {
    forall|j: int|
        lo <= j < hi ==> {
            &&& #[trigger] a@[j].idx == first + (j - lo)
            &&& sizes_in(regime, a@[j].geo)
            &&& a@[j].isdummy == false
            &&& a@[j].level == 0
            &&& a@[j].childno == 0
            &&& a@[j].centeredxy == false
            &&& a@[j].parent is None
            &&& a@[j].children@.len() <= maxkids
        }
}

/// The draws of a random subtree with `h` levels left below its root, from `state`: for
/// each of its nodes in preorder, how many children it gets and its sizes; and the state
/// after the last draw.
///
/// A node with levels left below it first draws how many children it gets,
/// `rand(maxkids + 1)`, and any node then draws its sizes; its subtrees follow, in order.
pub open spec fn tree_draws(state: u64, h: nat, maxkids: u64, regime: Regime) -> (Seq<(nat, Sizes)>, u64)
    decreases h, 1nat, 0nat,
{
    if h == 0 {
        let (sz, s1) = draw_sizes(regime, state);
        (seq![(0nat, sz)], s1)
    } else {
        let cs = draw_value(state, (maxkids + 1) as u64) as nat;
        let (sz, s2) = draw_sizes(regime, lcg_step(state));
        let (rest, s3) = forest_draws(s2, (h - 1) as nat, maxkids, regime, cs);
        (seq![(cs, sz)] + rest, s3)
    }
}

/// The draws of `n` random subtrees one after the other, each with `h` levels left below
/// its root, from `state`.
pub open spec fn forest_draws(state: u64, h: nat, maxkids: u64, regime: Regime, n: nat) -> (Seq<(nat, Sizes)>, u64)
    decreases h, 2nat, n,
{
    if n == 0 {
        (seq![], state)
    } else {
        let (first, s1) = forest_draws(state, h, maxkids, regime, (n - 1) as nat);
        let (last, s2) = tree_draws(s1, h, maxkids, regime);
        (first + last, s2)
    }
}

/// The root of a random subtree draws first: with levels left below it, its number of
/// children is the first draw, in `0..=maxkids`, and its sizes come from the draws after;
/// with none left it draws no number of children, has none, and its sizes come first.
pub proof fn law_tree_draws_root_first(state: u64, h: nat, maxkids: u64, regime: Regime)
    requires
        maxkids < u64::MAX,
    ensures
        ({
            let ds = tree_draws(state, h, maxkids, regime).0;
            &&& ds.len() > 0
            &&& h == 0 ==> ds[0] == (0nat, draw_sizes(regime, state).0)
            &&& h > 0 ==> ds[0].0 == (lcg_step(state) >> 33u64) % ((maxkids + 1) as u64)
            &&& h > 0 ==> ds[0].1 == draw_sizes(regime, lcg_step(state)).0
        }),
{
    reveal(draw_value);
    if h > 0 {
        let cs = draw_value(state, (maxkids + 1) as u64) as nat;
        let (sz, s2) = draw_sizes(regime, lcg_step(state));
        let (rest, s3) = forest_draws(s2, (h - 1) as nat, maxkids, regime, cs);
        assert(tree_draws(state, h, maxkids, regime).0 == seq![(cs, sz)] + rest);
    }
}

/// The nodes from `l` on are the draws `ds`: each has the sizes drawn for it and as many
/// children as it drew.
pub open spec fn drawn_as(a: Arena<Sizes>, l: int, ds: Seq<(nat, Sizes)>) -> bool {
    &&& l + ds.len() <= a@.len()
    &&& forall|i: int|
        l <= i < l + ds.len() ==> {
            &&& (#[trigger] a@[i]).geo == ds[i - l].1
            &&& a@[i].children@.len() == ds[i - l].0
        }
}

/// The subtree of a random tree, rooted `depth` levels down.
#[verifier::spinoff_prover]
#[verifier::rlimit(30)]
fn build_rec(
    arena: &mut Arena<Sizes>,
    rng: &mut Rng,
    idx: &mut usize,
    depth: usize,
    maxdepth: usize,
    maxkids: usize,
    regime: Regime,
) -> (r: NodeId)
    requires
        depth <= maxdepth,
        depth < maxdepth ==> (maxkids as u64) < u64::MAX,
        *old(idx) <= old(arena)@.len(),
    ensures
        ({
            let l = old(arena)@.len() as int;
            let e = final(arena)@.len() as int;
            let h = (maxdepth - depth + 1) as nat;
            &&& e > l
            &&& r.index() == l
            &&& *final(idx) == *old(idx) + (e - l)
            &&& forall|j: int| 0 <= j < l ==> final(arena)@[j] == old(arena)@[j]
            &&& generated(*final(arena), l, e, *old(idx) + 1, maxkids as int, regime)
            &&& final(arena).closed_range(l, e)
            &&& final(arena).finite_below(r, h)
            &&& ids_of(final(arena).pre(r, h)) == Seq::new((e - l) as nat, |k: int| (l + k) as usize)
            &&& {
                let (ds, after) = tree_draws(old(rng)@, (maxdepth - depth) as nat, maxkids as u64, regime);
                &&& final(rng)@ == after
                &&& e - l == ds.len()
                &&& drawn_as(*final(arena), l, ds)
            }
        }),
    decreases maxdepth - depth,
{
    let ghost l = arena@.len() as int;
    let ghost start = *arena;
    let ghost h = (maxdepth - depth + 1) as nat;
    let ghost state0 = rng@;
    let ghost hk: nat = if depth < maxdepth {
        (maxdepth - depth - 1) as nat
    } else {
        0
    };
    let cs: usize = if depth >= maxdepth {
        0
    } else {
        let v = rng.rand(maxkids as u64 + 1);
        v as usize
    };
    let sizes = regime.sizes(rng);
    let ghost s2 = rng@;
    let t = arena.add_node(0, sizes, false);
    *idx = *idx + 1;
    let label = *idx;
    let node = arena.node_mut(t);
    node.idx = label;
    proof {
        assert forall|j: int| 0 <= j < l implies arena@[j] == start@[j] by {
            assert(arena@[j] == start@.push(arena@[l])[j]);
        }
        assert(arena.closed_range(l, l + 1));
    }
    let mut i: usize = 0;
    while i < cs
        invariant
            i <= cs,
            cs <= maxkids,
            depth < maxdepth || cs == 0,
            depth <= maxdepth,
            depth < maxdepth ==> (maxkids as u64) < u64::MAX,
            h == maxdepth - depth + 1,
            t.index() == l,
            l == start@.len(),
            arena@.len() > l,
            *idx == label + (arena@.len() - l - 1),
            *idx <= arena@.len(),
            forall|j: int| 0 <= j < l ==> arena@[j] == start@[j],
            arena@[l].idx == label,
            sizes_in(regime, arena@[l].geo),
            arena@[l].isdummy == false,
            arena@[l].level == 0,
            arena@[l].childno == 0,
            arena@[l].centeredxy == false,
            arena@[l].parent is None,
            arena@[l].children@.len() == i,
            arena@[l].geo == sizes,
            depth < maxdepth ==> hk == maxdepth - depth - 1,
            ({
                let (fs, after) = forest_draws(s2, hk, maxkids as u64, regime, i as nat);
                &&& rng@ == after
                &&& arena@.len() - l - 1 == fs.len()
                &&& drawn_as(*arena, l + 1, fs)
            }),
            generated(*arena, l + 1, arena@.len() as int, label + 1, maxkids as int, regime),
            arena.closed_range(l, arena@.len() as int),
            forall|k: int| 0 <= k < i ==> arena.finite_below(#[trigger] arena.kids(t)[k], (h - 1) as nat),
            ids_of(arena.pre_list(arena.kids(t), (h - 1) as nat, i as nat)) == Seq::new(
                (arena@.len() - l - 1) as nat,
                |k: int| (l + 1 + k) as usize,
            ),
        decreases cs - i,
    {
        let ghost before = *arena;
        let ghost s = arena@.len() as int;
        let ghost si = rng@;
        let c = build_rec(arena, rng, idx, depth + 1, maxdepth, maxkids, regime);
        let ghost built = *arena;
        let ghost e = arena@.len() as int;
        arena.push_child(t, c);
        proof {
            assert({
                let (fs1, after1) = forest_draws(s2, hk, maxkids as u64, regime, (i + 1) as nat);
                &&& rng@ == after1
                &&& arena@.len() - l - 1 == fs1.len()
                &&& drawn_as(*arena, l + 1, fs1)
            }) by {
                let (fs, _) = forest_draws(s2, hk, maxkids as u64, regime, i as nat);
                let (dc, after) = tree_draws(si, hk, maxkids as u64, regime);
                assert(forest_draws(s2, hk, maxkids as u64, regime, (i + 1) as nat) == (fs + dc, after));
                assert forall|x: int| l + 1 <= x < l + 1 + (fs + dc).len() implies {
                    &&& (#[trigger] arena@[x]).geo == (fs + dc)[x - (l + 1)].1
                    &&& arena@[x].children@.len() == (fs + dc)[x - (l + 1)].0
                } by {
                    assert(arena@[x] == built@[x]);
                    if x < s {
                        assert(built@[x] == before@[x]);
                        assert(before@[x].geo == fs[x - (l + 1)].1);
                    } else {
                        assert(built@[x].geo == dc[x - s].1);
                    }
                }
            }
            // the new subtree is untouched by the push, which only rewires `t`
            assert forall|j: int| s <= j < e implies (#[trigger] arena@[j]).children == built@[j].children by {}
            built.lemma_frame(*arena, s, e, c, (h - 1) as nat);
            // the earlier subtrees are untouched by the new one and by the push
            assert forall|j: int| l + 1 <= j < s implies (#[trigger] arena@[j]).children == before@[j].children by {
                assert(built@[j] == before@[j]);
            }
            assert(arena.closed_range(l, e)) by {
                assert forall|j: int, k: int|
                    l <= j < e && 0 <= k < arena@[j].children@.len() implies j < (
                    #[trigger] arena@[j].children@[k]).index() < e by {
                    if j == l {
                        if k < i {
                            assert(arena@[l].children@[k] == before@[l].children@[k]);
                        }
                    } else if j < s {
                        assert(built@[j] == before@[j]);
                    }
                }
            }
            assert forall|k: int| 0 <= k < i + 1 implies arena.finite_below(#[trigger] arena.kids(t)[k], (h - 1) as nat) by {
                if k < i {
                    let ck = before.kids(t)[k];
                    assert(arena.kids(t)[k] == ck);
                    assert(l < ck.index() < s);
                    before.lemma_frame(*arena, l + 1, s, ck, (h - 1) as nat);
                }
            }
            // the preorder of the first `i` children is the same in the new arena
            assert(arena.kids(t) == before.kids(t).push(c));
            assert(before.kids(t) =~= arena.kids(t).take(before.kids(t).len() as int));
            lemma_pre_list_prefix(before, *arena, t, (h - 1) as nat, i as nat, l + 1, s);
            assert(arena.pre_list(arena.kids(t), (h - 1) as nat, (i + 1) as nat) == arena.pre_list(
                arena.kids(t),
                (h - 1) as nat,
                i as nat,
            ) + arena.pre(c, (h - 1) as nat));
            let prev_ids = ids_of(arena.pre_list(arena.kids(t), (h - 1) as nat, i as nat));
            let new_ids = ids_of(arena.pre(c, (h - 1) as nat));
            assert(ids_of(arena.pre_list(arena.kids(t), (h - 1) as nat, i as nat) + arena.pre(c, (h - 1) as nat))
                =~= prev_ids + new_ids);
            assert(ids_of(arena.pre_list(arena.kids(t), (h - 1) as nat, (i + 1) as nat)) =~= Seq::new(
                (e - l - 1) as nat,
                |k: int| (l + 1 + k) as usize,
            ));
            assert(generated(*arena, l + 1, e, label + 1, maxkids as int, regime)) by {
                assert forall|j: int| l + 1 <= j < e implies {
                    &&& #[trigger] arena@[j].idx == label + 1 + (j - l - 1)
                    &&& sizes_in(regime, arena@[j].geo)
                    &&& arena@[j].isdummy == false
                    &&& arena@[j].level == 0
                    &&& arena@[j].childno == 0
                    &&& arena@[j].centeredxy == false
                    &&& arena@[j].parent is None
                    &&& arena@[j].children@.len() <= maxkids
                } by {
                    assert(arena@[j] == built@[j]);
                    if j < s {
                        assert(built@[j] == before@[j]);
                    }
                }
            }
        }
        i = i + 1;
    }
    proof {
        let e = arena@.len() as int;
        let (fs, after) = forest_draws(s2, hk, maxkids as u64, regime, cs as nat);
        let (ds, after2) = tree_draws(state0, (maxdepth - depth) as nat, maxkids as u64, regime);
        if depth >= maxdepth {
            assert(forest_draws(s2, hk, maxkids as u64, regime, 0) == (Seq::<(nat, Sizes)>::empty(), s2));
            assert(ds =~= seq![(0nat, sizes)]);
        } else {
            assert(ds =~= seq![(cs as nat, sizes)] + fs);
        }
        assert(after2 == rng@);
        assert forall|x: int| l <= x < l + ds.len() implies {
            &&& (#[trigger] arena@[x]).geo == ds[x - l].1
            &&& arena@[x].children@.len() == ds[x - l].0
        } by {
            if x > l {
                assert(arena@[x].geo == fs[x - (l + 1)].1);
            }
        }
        assert(arena.pre(t, h) == seq![t] + arena.pre_list(arena.kids(t), (h - 1) as nat, cs as nat));
        let rest = arena.pre_list(arena.kids(t), (h - 1) as nat, cs as nat);
        assert(ids_of(seq![t] + rest) =~= seq![t.index()] + ids_of(rest));
        assert(ids_of(arena.pre(t, h)) =~= Seq::new((e - l) as nat, |k: int| (l + k) as usize));
    }
    t
}

/// The preorder of a node does not depend on which bound of its paths is used.
pub proof fn lemma_preorder_of_bound<G>(a: Arena<G>, t: NodeId, d: nat)
    requires
        a.finite_below(t, d),
    ensures
        a.preorder_of(t) == a.pre(t, d),
{
    let d0 = a.depth_bound(t);
    assert(a.finite_below(t, d0));
    if d0 <= d {
        a.lemma_pre_stable(t, d0, d);
    } else {
        a.lemma_pre_stable(t, d, d0);
    }
}

/// A random tree added to an existing arena, labelled from 1 in preorder.
///
/// Each node above `maxdepth` draws how many children it gets, `rand(maxkids + 1)`, then
/// its sizes; the children follow, each a random subtree one level further down. The
/// nodes come out in preorder, from where the arena ended, each with the sizes and the
/// number of children [`tree_draws`] says, which with the preorder fixes the whole tree.
pub fn build_into(arena: &mut Arena<Sizes>, seed: u64, maxdepth: usize, maxkids: usize, regime: Regime) -> (r: NodeId)
    requires
        maxdepth > 0 ==> (maxkids as u64) < u64::MAX,
    ensures
        ({
            let l = old(arena)@.len() as int;
            let e = final(arena)@.len() as int;
            &&& e > l
            &&& r.index() == l
            &&& forall|j: int| 0 <= j < l ==> final(arena)@[j] == old(arena)@[j]
            &&& generated(*final(arena), l, e, 1, maxkids as int, regime)
            &&& final(arena).closed_range(l, e)
            &&& final(arena).finite_below(r, (maxdepth + 1) as nat)
            &&& ids_of(final(arena).preorder_of(r)) == Seq::new((e - l) as nat, |k: int| (l + k) as usize)
            &&& e - l == tree_draws(seed, maxdepth as nat, maxkids as u64, regime).0.len()
            &&& drawn_as(*final(arena), l, tree_draws(seed, maxdepth as nat, maxkids as u64, regime).0)
        }),
{
    let mut rng = Rng::new(seed);
    let mut idx: usize = 0;
    let r = build_rec(arena, &mut rng, &mut idx, 0, maxdepth, maxkids, regime);
    proof {
        lemma_preorder_of_bound(*arena, r, (maxdepth + 1) as nat);
    }
    r
}

/// A random tree in a fresh arena, labelled from 1 in preorder.
pub fn build(seed: u64, maxdepth: usize, maxkids: usize, regime: Regime) -> (r: (Arena<Sizes>, NodeId))
    requires
        maxdepth > 0 ==> (maxkids as u64) < u64::MAX,
    ensures
        ({
            let (a, root) = r;
            let e = a@.len() as int;
            &&& e > 0
            &&& root.index() == 0
            &&& generated(a, 0, e, 1, maxkids as int, regime)
            &&& a.closed_range(0, e)
            &&& a.finite_below(root, (maxdepth + 1) as nat)
            &&& ids_of(a.preorder_of(root)) == Seq::new(e as nat, |k: int| k as usize)
            &&& e == tree_draws(seed, maxdepth as nat, maxkids as u64, regime).0.len()
            &&& drawn_as(a, 0, tree_draws(seed, maxdepth as nat, maxkids as u64, regime).0)
        }),
{
    let mut arena: Arena<Sizes> = Arena::new();
    let root = build_into(&mut arena, seed, maxdepth, maxkids, regime);
    proof {
        assert(Seq::new(arena@.len() as nat, |k: int| (0 + k) as usize) =~= Seq::new(
            arena@.len() as nat,
            |k: int| k as usize,
        ));
    }
    (arena, root)
}

/// The counts of a benchmark tree add up to one less than its nodes: every node but the
/// root is handed out once.
pub proof fn lemma_bench_tree_counts(n: nat, maxkids: u64, seed: u64)
    requires
        n > 0,
        n > 1 ==> maxkids > 0,
        n <= usize::MAX,
    ensures
        bench_tree_counts(n, maxkids, seed).len() == n,
        sum_prefix(bench_tree_counts(n, maxkids, seed), n as int) == n - 1,
{
    let cs = bench_counts((n - 1) as nat, maxkids, seed);
    let counts = bench_tree_counts(n, maxkids, seed);
    if n > 1 {
        lemma_bench_counts((n - 1) as nat, maxkids, seed);
    } else {
        assert(cs.len() == 0);
    }
    lemma_sum_prefix_padded(cs, counts, n as int);
}

/// A prefix sum of counts that are each at least one is at least as long as the prefix.
proof fn lemma_sum_prefix_at_least(s: Seq<usize>, i: int)
    requires
        0 <= i <= s.len(),
        forall|j: int| 0 <= j < i ==> 1 <= #[trigger] s[j],
    ensures
        sum_prefix(s, i) >= i,
    decreases i,
{
    if i > 0 {
        lemma_sum_prefix_at_least(s, i - 1);
    }
}

/// Every node of a benchmark tree but the root is handed out before its own children are:
/// the children of node `i` start past `i`.
proof fn lemma_bench_handed_out_in_time(n: nat, maxkids: u64, seed: u64, i: int)
    requires
        n > 0,
        n > 1 ==> maxkids > 0,
        n <= usize::MAX,
        0 <= i < n,
    ensures
        sum_prefix(bench_tree_counts(n, maxkids, seed), i) >= i,
{
    let cs = bench_counts((n - 1) as nat, maxkids, seed);
    let counts = bench_tree_counts(n, maxkids, seed);
    lemma_bench_tree_counts(n, maxkids, seed);
    if n > 1 {
        lemma_bench_counts((n - 1) as nat, maxkids, seed);
    } else {
        assert(cs.len() == 0);
    }
    lemma_sum_prefix_padded(cs, counts, i);
    if i <= cs.len() {
        lemma_sum_prefix_at_least(cs, i);
    }
}

/// The first `e + 1` entries of the breadth-first mirror of a benchmark tree stand for the
/// first `e + 1` nodes.
proof fn lemma_bench_mirror_prefix(
    a: Arena<Sizes>,
    n: nat,
    maxkids: u64,
    seed: u64,
    root: NodeId,
    m: Mirror<NodeId>,
    e: int,
)
    requires
        n > 0,
        n > 1 ==> maxkids > 0,
        n <= usize::MAX,
        a@.len() == n,
        root.index() == 0,
        forall|i: int|
            0 <= i < n ==> ids_of(#[trigger] a@[i].children@) == Seq::new(
                bench_tree_counts(n, maxkids, seed)[i] as nat,
                |k: int| (1 + sum_prefix(bench_tree_counts(n, maxkids, seed), i) + k) as usize,
            ),
        m.is_bfs_of(kids_fn(a), valid_fn(a), root),
        0 <= e < m.size(),
    ensures
        forall|i: int| 0 <= i <= e ==> (#[trigger] m.origin@[i]).index() == i,
        forall|i: int| 0 <= i <= e ==> #[trigger] m.child_count@[i] == bench_tree_counts(n, maxkids, seed)[i],
    decreases e,
{
    let counts = bench_tree_counts(n, maxkids, seed);
    let kids = kids_fn(a);
    let valid = valid_fn(a);
    lemma_bench_tree_counts(n, maxkids, seed);
    if e > 0 {
        lemma_bench_mirror_prefix(a, n, maxkids, seed, root, m, e - 1);
        let (j, k) = lemma_bfs_covered(m, kids, valid, root, e, 0);
        assert(m.counted(kids, j));
        assert(m.kid_placed(kids, j, k));
        let u = m.origin@[j];
        assert(kids(u) == a.kids(u));
        assert(u.index() == j);
        lemma_sum_prefix_agree(m.child_count@, counts, j);
        assert(ids_of(a@[j].children@)[k] == a.kids(u)[k].index());
        assert(m.origin@[e].index() == e);
    }
    let x = m.origin@[e];
    assert(valid(x));
    assert(m.counted(kids, e));
    assert(kids(x) == a.kids(x));
    assert(ids_of(a@[e].children@).len() == counts[e]);
}

/// A benchmark tree is in breadth-first order: its breadth-first mirror is the arena
/// itself, entry `e` standing for node `e`, all `n` of them.
pub proof fn law_bench_tree_is_breadth_first(
    a: Arena<Sizes>,
    n: nat,
    maxkids: u64,
    seed: u64,
    root: NodeId,
    m: Mirror<NodeId>,
)
    requires
        n > 0,
        n > 1 ==> maxkids > 0,
        n <= usize::MAX,
        a@.len() == n,
        root.index() == 0,
        forall|i: int|
            0 <= i < n ==> ids_of(#[trigger] a@[i].children@) == Seq::new(
                bench_tree_counts(n, maxkids, seed)[i] as nat,
                |k: int| (1 + sum_prefix(bench_tree_counts(n, maxkids, seed), i) + k) as usize,
            ),
        m.is_bfs_of(kids_fn(a), valid_fn(a), root),
    ensures
        m.size() == n,
        forall|e: int| 0 <= e < n ==> (#[trigger] m.origin@[e]).index() == e,
{
    let counts = bench_tree_counts(n, maxkids, seed);
    let s = m.size();
    lemma_bench_mirror_prefix(a, n, maxkids, seed, root, m, s - 1);
    assert(valid_fn(a)(m.origin@[s - 1]));
    assert(s <= n);
    lemma_sum_prefix_agree(m.child_count@, counts, s);
    if s < n {
        lemma_bench_handed_out_in_time(n, maxkids, seed, s);
        assert(false);
    }
}

/// The arrays of [`bench_arrays`] describe the tree of [`bench_tree`].
///
/// They are well formed for the flat API, and node `i` of the arrays has for children the
/// gap nodes above exactly the nodes that the benchmark tree hands to node `i`:
/// `1 + sum(counts[..i])` on, `counts[i]` of them.
pub proof fn law_bench_arrays_is_bench_tree(n: nat, maxkids: u64, seed: u64)
    requires
        n > 0,
        n > 1 ==> maxkids > 0,
        3 * n <= usize::MAX,
    ensures
        arrays_ok(bench_children(n, maxkids, seed), n as int),
        all_entries_ok(bench_children(n, maxkids, seed), n as int),
        forall|i: int|
            0 <= i < n ==> #[trigger] flat_kids(bench_children(n, maxkids, seed), n as int, i) == Seq::new(
                bench_tree_counts(n, maxkids, seed)[i] as nat,
                |k: int| (n + 1 + sum_prefix(bench_tree_counts(n, maxkids, seed), i) + k) as usize,
            ),
{
    let counts = bench_tree_counts(n, maxkids, seed);
    let children = bench_children(n, maxkids, seed);
    lemma_bench_tree_counts(n, maxkids, seed);
    assert forall|j: int| 0 <= j <= n implies sum_prefix(children, j) == sum_prefix(counts, j) by {
        lemma_sum_prefix_agree(children, counts, j);
    }
    assert(adjacency_start(children, n as int, n as int) == 2 * n - 1);
    assert forall|i: int, k: int|
        0 <= i < n && 0 <= k < children[i] implies #[trigger] children[adjacency_start(children, n as int, i) + k]
        == sum_prefix(counts, i) + k + 2 && 1 <= children[adjacency_start(children, n as int, i) + k] <= n by {
        lemma_sum_prefix_mono(counts, i + 1, n as int);
        lemma_sum_prefix_mono(counts, 0, i);
        assert(sum_prefix(counts, i + 1) == sum_prefix(counts, i) + counts[i]);
        assert(children[i] == counts[i]);
        assert(sum_prefix(children, i) == sum_prefix(counts, i));
        let idx = n + sum_prefix(counts, i) + k;
        assert(adjacency_start(children, n as int, i) + k == idx);
        assert(n <= idx < 2 * n - 1);
        assert(children[idx] == (idx - n + 2) as usize);
    }
    assert forall|x: int| 0 <= x < n implies #[trigger] entries_ok(children, n as int, x) by {
        assert forall|k: int| 0 <= k < children[x] implies 1 <= #[trigger] children[adjacency_start(children, n as int, x) + k] <= n by {
            assert(children[adjacency_start(children, n as int, x) + k] == sum_prefix(counts, x) + k + 2);
        }
    }
    assert forall|i: int| 0 <= i < n implies #[trigger] flat_kids(children, n as int, i) == Seq::new(
        counts[i] as nat,
        |k: int| (n + 1 + sum_prefix(counts, i) + k) as usize,
    ) by {
        assert forall|k: int| 0 <= k < counts[i] implies #[trigger] flat_kids(children, n as int, i)[k] == (n + 1
            + sum_prefix(counts, i) + k) as usize by {
            assert(children[adjacency_start(children, n as int, i) + k] == sum_prefix(counts, i) + k + 2);
        }
        assert(flat_kids(children, n as int, i) =~= Seq::new(
            counts[i] as nat,
            |k: int| (n + 1 + sum_prefix(counts, i) + k) as usize,
        ));
    }
}

} // verus!
