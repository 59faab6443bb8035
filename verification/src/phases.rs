//! How long each phase of a flat layout took.
//!
//! A stopwatch reading is held as whole seconds and the nanoseconds past them, the way the
//! standard library keeps a duration, so that adding readings up is exact integer
//! arithmetic.
use vstd::prelude::*;

verus! {

/// Nanoseconds in a second.
pub const NANOS_PER_SEC: u32 = 1_000_000_000;

/// The longest span an [`Elapsed`] can hold, in nanoseconds.
pub open spec fn max_nanos() -> int {
    (u64::MAX + 1) * NANOS_PER_SEC - 1
}

/// A span of time, as whole seconds and the nanoseconds past them.
#[derive(Debug, Clone, Copy, PartialEq, Eq, Structural)]
pub struct Elapsed {
    secs: u64,
    nanos: u32,
}

impl View for Elapsed {
    type V = int;

    /// The span in nanoseconds.
    closed spec fn view(&self) -> int {
        self.secs * NANOS_PER_SEC + self.nanos
    }
}

impl Elapsed {
    /// The nanoseconds past the whole seconds are fewer than a second.
    #[verifier::type_invariant]
    closed spec fn inv(self) -> bool {
        self.nanos < NANOS_PER_SEC
    }

    /// Nothing at all.
    pub fn zero() -> (r: Elapsed)
        ensures
            r@ == 0,
    {
        Elapsed { secs: 0, nanos: 0 }
    }

    /// `secs` seconds and `nanos` nanoseconds; nanoseconds past a second carry into the
    /// seconds.
    pub fn new(secs: u64, nanos: u32) -> (r: Elapsed)
        requires
            secs + nanos / NANOS_PER_SEC <= u64::MAX,
        ensures
            r@ == secs * NANOS_PER_SEC + nanos,
    {
        let carry = nanos / NANOS_PER_SEC;
        let rest = nanos % NANOS_PER_SEC;
        proof {
            assert(nanos == carry * NANOS_PER_SEC + rest);
            assert((secs + carry) * 1_000_000_000 == secs * 1_000_000_000 + carry * 1_000_000_000) by (nonlinear_arith);
        }
        Elapsed { secs: secs + carry as u64, nanos: rest }
    }

    /// The whole seconds of the span.
    pub fn as_secs(&self) -> (r: u64)
        ensures
            r == self@ / NANOS_PER_SEC as int,
    {
        proof {
            use_type_invariant(self);
            lemma_split(self.secs as int, self.nanos as int);
        }
        self.secs
    }

    /// The nanoseconds past the whole seconds.
    pub fn subsec_nanos(&self) -> (r: u32)
        ensures
            r == self@ % NANOS_PER_SEC as int,
            r < NANOS_PER_SEC,
    {
        proof {
            use_type_invariant(self);
            lemma_split(self.secs as int, self.nanos as int);
        }
        self.nanos
    }

    /// The two spans one after the other.
    pub fn add(self, other: Elapsed) -> (r: Elapsed)
        requires
            self@ + other@ <= max_nanos(),
        ensures
            r@ == self@ + other@,
    {
        proof {
            use_type_invariant(self);
            use_type_invariant(other);
        }
        let nanos = self.nanos + other.nanos;
        let (carry, rest): (u64, u32) = if nanos >= NANOS_PER_SEC {
            (1, nanos - NANOS_PER_SEC)
        } else {
            (0, nanos)
        };
        proof {
            let (a, b, c) = (self.secs as int, other.secs as int, carry as int);
            let total = a + b + c;
            assert(self@ + other@ == total * 1_000_000_000 + rest) by (nonlinear_arith)
                requires
                    self@ == a * 1_000_000_000 + self.nanos,
                    other@ == b * 1_000_000_000 + other.nanos,
                    self.nanos + other.nanos == c * 1_000_000_000 + rest,
                    total == a + b + c,
            ;
            assert(total <= u64::MAX) by (nonlinear_arith)
                requires
                    total * 1_000_000_000 + rest <= (u64::MAX + 1) * 1_000_000_000 - 1,
                    0 <= rest,
            ;
        }
        Elapsed { secs: self.secs + other.secs + carry, nanos: rest }
    }
}

/// A span of whole seconds `s` and nanoseconds `n` below a second splits back into them.
proof fn lemma_split(s: int, n: int)
    requires
        0 <= n < 1_000_000_000,
        0 <= s,
    ensures
        (s * 1_000_000_000 + n) / 1_000_000_000 == s,
        (s * 1_000_000_000 + n) % 1_000_000_000 == n,
{
    assert((s * 1_000_000_000 + n) / 1_000_000_000 == s) by (nonlinear_arith)
        requires
            0 <= n < 1_000_000_000,
            0 <= s,
    ;
    assert((s * 1_000_000_000 + n) % 1_000_000_000 == n) by (nonlinear_arith)
        requires
            0 <= n < 1_000_000_000,
            0 <= s,
    ;
}

impl Default for Elapsed {
    fn default() -> (r: Elapsed)
        ensures
            r@ == 0,
    {
        Elapsed::zero()
    }
}

/// How long each phase of a flat layout took.
#[derive(Debug, Clone, Copy, PartialEq, Eq, Structural)]
pub struct Phases {
    /// Building the mirror: allocation, and one copy in.
    pub build: Elapsed,
    /// The depth axis sweep.
    pub setup: Elapsed,
    /// The contour walk, which is the algorithm proper.
    pub first: Elapsed,
    /// The modifier sums, the coordinates and the child spacing.
    pub second: Elapsed,
    /// Normalizing the drawing to the origin.
    pub third: Elapsed,
    /// Copying the coordinates back into the arena.
    pub write_back: Elapsed,
}

impl Default for Phases {
    fn default() -> (r: Phases)
        ensures
            r.span() == 0,
            r.build@ == 0 && r.setup@ == 0 && r.first@ == 0,
            r.second@ == 0 && r.third@ == 0 && r.write_back@ == 0,
    {
        Phases {
            build: Elapsed::zero(),
            setup: Elapsed::zero(),
            first: Elapsed::zero(),
            second: Elapsed::zero(),
            third: Elapsed::zero(),
            write_back: Elapsed::zero(),
        }
    }
}

impl Phases {
    /// The phases with their names, in the order they run.
    pub open spec fn named(self) -> Seq<(&'static str, Elapsed)> {
        seq![
            ("build", self.build),
            ("setup", self.setup),
            ("first", self.first),
            ("second", self.second),
            ("third", self.third),
            ("write", self.write_back),
        ]
    }

    /// The phases added up, in nanoseconds.
    pub open spec fn span(self) -> int {
        self.build@ + self.setup@ + self.first@ + self.second@ + self.third@ + self.write_back@
    }

    /// The phases as `(name, duration)`, in the order they run.
    pub fn iter(&self) -> (r: Vec<(&'static str, Elapsed)>)
        ensures
            r@ == self.named(),
    {
        let r = vec![
            ("build", self.build),
            ("setup", self.setup),
            ("first", self.first),
            ("second", self.second),
            ("third", self.third),
            ("write", self.write_back),
        ];
        proof {
            assert(r@ =~= self.named());
        }
        r
    }

    /// The sum of the phases.
    pub fn total(&self) -> (r: Elapsed)
        requires
            self.span() <= max_nanos(),
        ensures
            r@ == self.span(),
            r@ == self.build@ + self.setup@ + self.first@ + self.second@ + self.third@ + self.write_back@,
    {
        let phases = self.iter();
        let mut sum = Elapsed::zero();
        let mut i: usize = 0;
        while i < phases.len()
            invariant
                phases@ == self.named(),
                i <= phases@.len(),
                self.span() <= max_nanos(),
                sum@ == self.partial(i as int),
            decreases phases@.len() - i,
        {
            proof {
                self.lemma_partial_bounded(i + 1);
            }
            sum = sum.add(phases[i].1);
            i = i + 1;
        }
        proof {
            self.lemma_partial_bounded(6);
        }
        sum
    }

    /// The first `i` phases added up.
    pub open spec fn partial(self, i: int) -> int
        decreases i,
    {
        if i <= 0 {
            0
        } else if i > 6 {
            self.partial(6)
        } else {
            self.partial(i - 1) + self.named()[i - 1].1@
        }
    }

    /// The total is every phase that [`Phases::iter`] lists, each counted once: the six of
    /// them, the write-back included.
    pub proof fn law_total_is_every_listed_phase(self)
        ensures
            self.named().len() == 6,
            self.span() == self.named()[0].1@ + self.named()[1].1@ + self.named()[2].1@
                + self.named()[3].1@ + self.named()[4].1@ + self.named()[5].1@,
            self.named()[5].1 == self.write_back,
            self.span() == self.build@ + self.setup@ + self.first@ + self.second@ + self.third@
                + self.write_back@,
    {
    }

    /// Lengthening one phase lengthens the total by as much, whichever phase it is: no
    /// phase is left out of the sum, and none is counted twice.
    pub proof fn law_total_follows_each_phase(self, other: Phases, k: int)
        requires
            0 <= k < 6,
            forall|i: int| 0 <= i < 6 && i != k ==> #[trigger] other.named()[i].1@ == self.named()[i].1@,
        ensures
            other.span() - self.span() == other.named()[k].1@ - self.named()[k].1@,
    {
        assert(other.named()[0].1@ == self.named()[0].1@ || k == 0);
        assert(other.named()[1].1@ == self.named()[1].1@ || k == 1);
        assert(other.named()[2].1@ == self.named()[2].1@ || k == 2);
        assert(other.named()[3].1@ == self.named()[3].1@ || k == 3);
        assert(other.named()[4].1@ == self.named()[4].1@ || k == 4);
        assert(other.named()[5].1@ == self.named()[5].1@ || k == 5);
    }

    /// The first phases add up to no more than all of them.
    proof fn lemma_partial_bounded(self, i: int)
        requires
            0 <= i <= 6,
        ensures
            0 <= self.partial(i) <= self.span(),
            i == 6 ==> self.partial(i) == self.span(),
    {
        assert(self.build@ >= 0 && self.setup@ >= 0 && self.first@ >= 0);
        assert(self.second@ >= 0 && self.third@ >= 0 && self.write_back@ >= 0);
        reveal_with_fuel(Phases::partial, 7);
    }
}

} // verus!
