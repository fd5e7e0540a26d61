//! The search over a candidate's input amount: golden-section narrowing of
//! an interval, driven by profit evaluations made outside.
use vstd::prelude::*;

verus! {

/// The lower probe of `[lo, hi]`, about 38.2% of the way in.
pub open spec fn low_probe(lo: int, hi: int) -> int {
    lo + (hi - lo) * 382 / 1000
}

/// The upper probe of `[lo, hi]`, about 61.8% of the way in.
pub open spec fn high_probe(lo: int, hi: int) -> int {
    lo + (hi - lo) * 618 / 1000
}

/// The interval kept after comparing the profits at the two probes: the
/// part above the lower probe when the upper probe earns more, else the part
/// below the upper probe.
pub open spec fn narrowed(lo: int, hi: int, f1: int, f2: int) -> (int, int) {
    if f1 < f2 {
        (low_probe(lo, hi), hi)
    } else {
        (lo, high_probe(lo, hi))
    }
}

/// `f` rises strictly up to `m` and falls strictly after it, on `[lo, hi]`.
pub open spec fn strictly_unimodal(f: spec_fn(int) -> int, m: int, lo: int, hi: int) -> bool {
    &&& lo <= m <= hi
    &&& forall|a: int, b: int| lo <= a < b <= m ==> #[trigger] f(a) < #[trigger] f(b)
    &&& forall|a: int, b: int| m <= a < b <= hi ==> #[trigger] f(a) > #[trigger] f(b)
}

/// `x * k / 1000` computed without overflow for any `x`.
fn scale(x: u128, k: u128) -> (r: u128)
    requires
        k <= 1000,
    ensures
        r == x * k / 1000,
{
    let q = x / 1000;
    let rem = x % 1000;
    proof {
        assert(x == 1000 * q + rem) by (nonlinear_arith)
            requires q == x / 1000, rem == x % 1000;
        assert(x * k == 1000 * (q * k) + rem * k) by (nonlinear_arith)
            requires x == 1000 * q + rem;
        assert(rem * k < 1000 * 1000) by (nonlinear_arith)
            requires rem < 1000, k <= 1000;
        assert((1000 * (q * k) + rem * k) / 1000 == q * k + (rem * k) / 1000) by (nonlinear_arith)
            requires rem * k >= 0;
        assert(q * k <= 1000 * q) by (nonlinear_arith)
            requires k <= 1000, q >= 0;
        assert((rem * k) / 1000 <= rem) by (nonlinear_arith)
            requires k <= 1000, rem >= 0;
    }
    q * k + (rem * k) / 1000
}

/// The two probes of `[lo, hi]`.
pub fn golden_probes(lo: u128, hi: u128) -> (r: (u128, u128))
    requires
        lo <= hi,
    ensures
        r.0 == low_probe(lo as int, hi as int),
        r.1 == high_probe(lo as int, hi as int),
        lo <= r.0 <= r.1 <= hi,
{
    let d = hi - lo;
    let a = scale(d, 382);
    let b = scale(d, 618);
    proof {
        assert(d * 382 / 1000 <= d * 618 / 1000) by (nonlinear_arith)
            requires d >= 0;
        assert(d * 618 / 1000 <= d) by (nonlinear_arith)
            requires d >= 0;
    }
    (lo + a, lo + b)
}

/// One narrowing step, given the profits `f1` and `f2` at the two probes.
pub fn golden_narrow(lo: u128, hi: u128, f1: i128, f2: i128) -> (r: (u128, u128))
    requires
        lo <= hi,
    ensures
        (r.0 as int, r.1 as int) == narrowed(lo as int, hi as int, f1 as int, f2 as int),
        lo <= r.0 <= r.1 <= hi,
{
    let (x1, x2) = golden_probes(lo, hi);
    if f1 < f2 {
        (x1, hi)
    } else {
        (lo, x2)
    }
}

/// While the two probes differ, a narrowing step keeps the peak of a strictly
/// unimodal profit, and the interval it keeps is at most 61.8% of the old
/// one, plus one.
pub proof fn lemma_narrow_keeps_peak(f: spec_fn(int) -> int, m: int, lo: int, hi: int)
    requires
        strictly_unimodal(f, m, lo, hi),
        low_probe(lo, hi) < high_probe(lo, hi),
    ensures
        ({
            let r = narrowed(lo, hi, f(low_probe(lo, hi)), f(high_probe(lo, hi)));
            &&& r.0 <= m <= r.1
            &&& lo <= r.0 <= r.1 <= hi
            &&& (r.1 - r.0) * 1000 <= (hi - lo) * 618 + 1000
        }),
{
    let d = hi - lo;
    let x1 = low_probe(lo, hi);
    let x2 = high_probe(lo, hi);
    assert(d * 382 / 1000 <= d * 618 / 1000) by (nonlinear_arith)
        requires d >= 0;
    assert(d * 618 / 1000 <= d) by (nonlinear_arith)
        requires d >= 0;
    assert(d * 618 / 1000 * 1000 <= d * 618) by (nonlinear_arith)
        requires d >= 0;
    assert(d * 382 / 1000 * 1000 > d * 382 - 1000) by (nonlinear_arith)
        requires d >= 0;
    if f(x1) < f(x2) {
        if m <= x1 {
            if x1 < x2 {
                assert(f(x1) > f(x2));
            }
        }
    } else {
        if m >= x2 {
            if x1 < x2 {
                assert(f(x1) < f(x2));
            }
        }
    }
}

/// A golden-section search over `[lo, hi]`, run by feeding it the profits at
/// the probes it asks for, for at most `max_steps` narrowing steps.
pub struct GoldenSearch {
    pub lo: u128,
    pub hi: u128,
    pub steps: u32,
    pub max_steps: u32,
}

impl GoldenSearch {
    pub open spec fn wf(&self) -> bool {
        self.lo <= self.hi
    }

    /// The search is over: the step budget is spent or the probes coincide.
    pub open spec fn finished(&self) -> bool {
        self.steps >= self.max_steps || low_probe(self.lo as int, self.hi as int) >= high_probe(
            self.lo as int,
            self.hi as int,
        )
    }

    /// A search of `[in_min, in_max]` with at most `max_steps` steps.
    pub fn new(in_min: u128, in_max: u128, max_steps: u32) -> (r: GoldenSearch)
        requires
            in_min <= in_max,
        ensures
            r.wf(),
            r.lo == in_min,
            r.hi == in_max,
            r.steps == 0,
            r.max_steps == max_steps,
    {
        GoldenSearch { lo: in_min, hi: in_max, steps: 0, max_steps }
    }

    /// The amounts whose profits the next step needs, or `None` when the
    /// search is over.
    pub fn next_probes(&self) -> (r: Option<(u128, u128)>)
        requires
            self.wf(),
        ensures
            r is None <==> self.finished(),
            r matches Some((x1, x2)) ==> x1 == low_probe(self.lo as int, self.hi as int) && x2 == high_probe(
                self.lo as int,
                self.hi as int,
            ),
    {
        if self.steps >= self.max_steps {
            return None;
        }
        let (x1, x2) = golden_probes(self.lo, self.hi);
        if x1 >= x2 {
            None
        } else {
            Some((x1, x2))
        }
    }

    /// Narrows the interval with the profits `f1` and `f2` at the probes.
    pub fn observe(&mut self, f1: i128, f2: i128)
        requires
            old(self).wf(),
            !old(self).finished(),
        ensures
            final(self).wf(),
            (final(self).lo as int, final(self).hi as int) == narrowed(
                old(self).lo as int,
                old(self).hi as int,
                f1 as int,
                f2 as int,
            ),
            final(self).steps == old(self).steps + 1,
            final(self).max_steps == old(self).max_steps,
    {
        let (lo, hi) = golden_narrow(self.lo, self.hi, f1, f2);
        self.lo = lo;
        self.hi = hi;
        self.steps = self.steps + 1;
    }

    /// The amount the search settles on: the middle of its interval.
    pub fn best_amount(&self) -> (r: u128)
        requires
            self.wf(),
        ensures
            self.lo <= r <= self.hi,
            r == self.lo + (self.hi - self.lo) / 2,
    {
        self.lo + (self.hi - self.lo) / 2
    }
}

} // verus!
