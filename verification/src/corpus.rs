//! The corpus of random trees that the differential dump lays out: which shapes, in which
//! order, and the seed of each.
use vstd::prelude::*;

use crate::treegen::{regimes_seq, Regime};

verus! {

/// How many shapes the corpus has per trial: 4 regimes, 6 depths, 4 fan-outs, and both
/// orientations and centrings.
pub const SHAPES_PER_TRIAL: usize = 384;

/// One tree of the corpus.
#[derive(Debug, Clone, Copy, PartialEq, Eq, Structural)]
pub struct CorpusShape {
    /// The sizes of the boxes.
    pub regime: Regime,
    /// How deep the random tree may go, from 1 to 6.
    pub maxdepth: usize,
    /// How many children a node may draw, from 2 to 5.
    pub maxkids: usize,
    /// Whether the tree is laid out top down.
    pub vert: bool,
    /// Whether the coordinates are the middles of the boxes.
    pub cent: bool,
    /// Which trial of the shape this is.
    pub k: usize,
}

/// The position of `r` in the order of the regimes.
pub open spec fn regime_index(r: Regime) -> int {
    match r {
        Regime::Coarse => 0,
        Regime::Uniform => 1,
        Regime::Varied => 2,
        Regime::Tiny => 3,
    }
}

/// The number of a regime is its position in [`crate::treegen::REGIMES`], so every regime
/// has its own number and the seeds follow the order of the regimes.
pub proof fn law_regime_index_is_position(r: Regime)
    ensures
        0 <= regime_index(r) < 4,
        regimes_seq()[regime_index(r)] == r,
        forall|i: int| 0 <= i < 4 && #[trigger] regimes_seq()[i] == r ==> i == regime_index(r),
{
}

/// The shape at position `i` of the corpus of `trials` trials per shape: the regimes in
/// their order, then the depths from 1, the fan-outs from 2, the orientation and the
/// centring, false first, and the trials from 0, the last varying fastest.
pub open spec fn corpus_at(trials: int, i: int) -> CorpusShape {
    let k = i % trials;
    let q1 = i / trials;
    let q2 = q1 / 2;
    let q3 = q2 / 2;
    let q4 = q3 / 4;
    CorpusShape {
        regime: regimes_seq()[q4 / 6],
        maxdepth: (1 + q4 % 6) as usize,
        maxkids: (2 + q3 % 4) as usize,
        vert: q2 % 2 == 1,
        cent: q1 % 2 == 1,
        k: k as usize,
    }
}

/// Where a shape stands in the corpus of `trials` trials per shape: the regimes in their
/// order, then the depths from 1, the fan-outs from 2, the orientation, the centring, and
/// the trials, the last varying fastest. Every shape of the sweep, each trial of it, stands
/// at exactly this position.
pub proof fn law_corpus_position(trials: int, ri: int, maxdepth: int, maxkids: int, vert: bool, cent: bool, k: int)
    requires
        0 <= k < trials,
        0 <= ri < 4,
        1 <= maxdepth <= 6,
        2 <= maxkids <= 5,
    ensures
        ({
            let v: int = if vert { 1 } else { 0 };
            let c: int = if cent { 1 } else { 0 };
            let pos = ((((ri * 6 + maxdepth - 1) * 4 + maxkids - 2) * 2 + v) * 2 + c) * trials + k;
            &&& 0 <= pos < 384 * trials
            &&& corpus_at(trials, pos) == (CorpusShape {
                regime: regimes_seq()[ri],
                maxdepth: maxdepth as usize,
                maxkids: maxkids as usize,
                vert,
                cent,
                k: k as usize,
            })
        }),
{
    let v: int = if vert { 1 } else { 0 };
    let c: int = if cent { 1 } else { 0 };
    let q4 = ri * 6 + maxdepth - 1;
    let q3 = q4 * 4 + maxkids - 2;
    let q2 = q3 * 2 + v;
    let q1 = q2 * 2 + c;
    let pos = q1 * trials + k;
    assert(0 <= q1 < 384);
    assert(0 <= pos < 384 * trials) by (nonlinear_arith)
        requires
            0 <= q1 < 384,
            0 <= k < trials,
            pos == q1 * trials + k,
    ;
    vstd::arithmetic::div_mod::lemma_fundamental_div_mod_converse(pos, trials, q1, k);
    vstd::arithmetic::div_mod::lemma_fundamental_div_mod_converse(q1, 2, q2, c);
    vstd::arithmetic::div_mod::lemma_fundamental_div_mod_converse(q2, 2, q3, v);
    vstd::arithmetic::div_mod::lemma_fundamental_div_mod_converse(q3, 4, q4, maxkids - 2);
    vstd::arithmetic::div_mod::lemma_fundamental_div_mod_converse(q4, 6, ri, maxdepth - 1);
}

/// The seed of the tree of a shape: `1000003 k + 7 (100 regime + 10 maxdepth + maxkids)`.
pub open spec fn seed_of(s: CorpusShape) -> int {
    1000003 * s.k + 7 * (regime_index(s.regime) * 100 + s.maxdepth * 10 + s.maxkids)
}

impl CorpusShape {
    /// The seed the tree of this shape is built from.
    pub fn seed(&self) -> (r: u64)
        requires
            regime_index(self.regime) * 100 + self.maxdepth * 10 + self.maxkids <= usize::MAX,
            seed_of(*self) <= u64::MAX,
        ensures
            r == seed_of(*self),
            forall|i: int|
                0 <= i < 4 && #[trigger] regimes_seq()[i] == self.regime ==> r == 1000003 * self.k + 7 * (i
                    * 100 + self.maxdepth * 10 + self.maxkids),
    {
        let ri = self.regime.index();
        proof {
            assert(ri == regime_index(self.regime));
            assert(1000003 * self.k <= seed_of(*self));
            assert(ri * 100 + self.maxdepth * 10 <= usize::MAX);
        }
        let mix = ri * 100 + self.maxdepth * 10 + self.maxkids;
        1000003 * (self.k as u64) + 7 * (mix as u64)
    }
}

/// The shapes of the corpus, `trials` trials of each, in order.
pub fn corpus(trials: usize) -> (r: Vec<CorpusShape>)
    requires
        SHAPES_PER_TRIAL * trials <= usize::MAX,
    ensures
        r@.len() == SHAPES_PER_TRIAL * trials,
        forall|i: int| 0 <= i < r@.len() ==> #[trigger] r@[i] == corpus_at(trials as int, i),
{
    let total = SHAPES_PER_TRIAL * trials;
    let mut out: Vec<CorpusShape> = Vec::with_capacity(total);
    let mut i: usize = 0;
    while i < total
        invariant
            total == SHAPES_PER_TRIAL * trials,
            i <= total,
            out@.len() == i,
            forall|j: int| 0 <= j < i ==> #[trigger] out@[j] == corpus_at(trials as int, j),
        decreases total - i,
    {
        proof {
            assert(trials > 0) by (nonlinear_arith)
                requires
                    i < total,
                    total == 384 * trials,
            ;
        }
        let q1 = i / trials;
        let q2 = q1 / 2;
        let q3 = q2 / 2;
        let q4 = q3 / 4;
        proof {
            assert(q1 < 384) by (nonlinear_arith)
                requires
                    i < 384 * trials,
                    q1 == i / trials,
                    trials > 0,
            ;
        }
        let regime = if q4 / 6 == 0 {
            Regime::Coarse
        } else if q4 / 6 == 1 {
            Regime::Uniform
        } else if q4 / 6 == 2 {
            Regime::Varied
        } else {
            Regime::Tiny
        };
        let shape = CorpusShape {
            regime,
            maxdepth: 1 + q4 % 6,
            maxkids: 2 + q3 % 4,
            vert: q2 % 2 == 1,
            cent: q1 % 2 == 1,
            k: i % trials,
        };
        proof {
            assert(q4 / 6 < 4);
            assert(shape == corpus_at(trials as int, i as int));
        }
        out.push(shape);
        i = i + 1;
    }
    out
}

} // verus!
