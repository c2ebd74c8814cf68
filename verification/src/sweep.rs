//! The frequency sweep: sample points spaced evenly on a logarithmic axis.
//!
//! A sweep runs from `10^start` to `10^end` radians per second, both
//! included, in `points` samples. On the logarithmic axis sample `i` sits at
//! the exponent `start + i * (end - start) / (points - 1)`; the grid of those
//! exponents is exact here. Raising ten to them is left to whoever holds the
//! machine's arithmetic, and the points that come back are checked here
//! before anything is computed from them.
use crate::double::Double;
use crate::error::BodeError;
use vstd::prelude::*;

verus! {

/// The first decade of the default sweep.
pub const DEFAULT_START: i32 = -3;

/// The last decade of the default sweep.
pub const DEFAULT_END: i32 = 5;

/// The number of samples of the default sweep.
pub const DEFAULT_POINTS: usize = 1000;

/// The range and density of a sweep.
#[derive(Clone, Copy, Debug)]
pub struct SweepConfig {
    start: i32,
    end: i32,
    points: usize,
}

/// The exponent of sample `i`, times `points - 1`.
pub open spec fn grid_numerator(start: int, end: int, points: int, i: int) -> int {
    start * (points - 1) + i * (end - start)
}

/// Every element is a finite number above zero, and each is below all that
/// follow it.
pub open spec fn ascending(points: Seq<Double>) -> bool {
    &&& forall|i: int|
        0 <= i < points.len() ==> (#[trigger] points[i]).positive() && points[i].finite()
    &&& forall|i: int, j: int|
        0 <= i < j < points.len() ==> (#[trigger] points[i]).below(#[trigger] points[j])
}

impl SweepConfig {
    /// The exponent of ten at which the sweep starts.
    pub closed spec fn spec_start(&self) -> int {
        self.start as int
    }

    /// The exponent of ten at which the sweep ends.
    pub closed spec fn spec_end(&self) -> int {
        self.end as int
    }

    /// The number of samples.
    pub closed spec fn spec_points(&self) -> int {
        self.points as int
    }

    /// A sweep has two distinct ends and a sample at each.
    pub open spec fn wf(&self) -> bool {
        self.spec_start() < self.spec_end() && self.spec_points() >= 2
    }

    /// The exponent of sample `i`, times `points - 1`.
    pub open spec fn spec_position(&self, i: int) -> int {
        grid_numerator(self.spec_start(), self.spec_end(), self.spec_points(), i)
    }

    /// `points` is a sweep of this density: as many points as asked for, each
    /// a finite number above zero, in strictly ascending order.
    pub open spec fn admitted(&self, points: Seq<Double>) -> bool {
        points.len() == self.spec_points() && ascending(points)
    }

    /// A sweep of `points` samples from `10^start` to `10^end`. It needs two
    /// samples at least and an end above its start.
    pub fn new(start: i32, end: i32, points: usize) -> (r: Result<SweepConfig, BodeError>)
        ensures
            r is Ok <==> start < end && points >= 2,
            r is Err ==> r->Err_0 == BodeError::InvalidParameter,
            r is Ok ==> {
                &&& r->Ok_0.wf()
                &&& r->Ok_0.spec_start() == start
                &&& r->Ok_0.spec_end() == end
                &&& r->Ok_0.spec_points() == points
            },
    {
        if start < end && points >= 2 {
            Ok(SweepConfig { start, end, points })
        } else {
            Err(BodeError::InvalidParameter)
        }
    }

    /// The exponent of ten at which the sweep starts.
    pub fn start(&self) -> (r: i32)
        ensures
            r == self.spec_start(),
    {
        self.start
    }

    /// The exponent of ten at which the sweep ends.
    pub fn end(&self) -> (r: i32)
        ensures
            r == self.spec_end(),
    {
        self.end
    }

    /// The number of samples.
    pub fn points(&self) -> (r: usize)
        ensures
            r == self.spec_points(),
    {
        self.points
    }

    /// Where sample `i` sits on the logarithmic axis, as a fraction: the
    /// sample's frequency is ten to the power `r.0 / r.1`.
    pub fn position(&self, i: usize) -> (r: (i128, i128))
        requires
            self.wf(),
            i < self.spec_points(),
        ensures
            r.0 == self.spec_position(i as int),
            r.1 == self.spec_points() - 1,
    {
        let steps: i128 = (self.points - 1) as i128;
        let span: i128 = self.end as i128 - self.start as i128;
        let index: i128 = i as i128;
        assert(-0x8000_0000 * steps <= (self.start as i128) * steps <= 0x8000_0000 * steps
            && 0 <= index * span <= steps * 0x1_0000_0000) by (nonlinear_arith)
            requires
                -0x8000_0000 <= self.start as i128 <= 0x8000_0000,
                0 <= steps,
                0 <= index <= steps,
                0 <= span <= 0x1_0000_0000,
        ;
        ((self.start as i128) * steps + index * span, steps)
    }

    /// Whether `points` is a sweep of this density.
    pub fn admits(&self, points: &Vec<Double>) -> (r: bool)
        ensures
            r == self.admitted(points@),
    {
        points.len() == self.points && is_ascending(points)
    }
}

/// Whether every element is a finite number above zero and each is below all
/// that follow it.
pub fn is_ascending(points: &Vec<Double>) -> (r: bool)
    ensures
        r == ascending(points@),
{
    let mut i: usize = 0;
    while i < points.len()
        invariant
            i <= points.len(),
            ascending(points@.subrange(0, i as int)),
        decreases points.len() - i,
    {
        let here: Double = points[i];
        if !here.is_positive() || !here.is_finite() {
            return false;
        }
        if i > 0 && !points[i - 1].lt(&here) {
            assert(!points@[i - 1].below(points@[i as int]));
            return false;
        }
        proof {
            let before = points@.subrange(0, i as int);
            let after = points@.subrange(0, i + 1);
            assert forall|a: int, b: int| 0 <= a < b < after.len() implies (#[trigger] after[a]).below(
                #[trigger] after[b],
            ) by {
                if b < i {
                    assert(before[a].below(before[b]));
                } else if a < i - 1 {
                    assert(before[a].below(before[i - 1]));
                }
            }
            assert forall|a: int| 0 <= a < after.len() implies (#[trigger] after[a]).positive()
                && after[a].finite() by {
                if a < i {
                    assert(before[a].positive());
                }
            }
        }
        i += 1;
    }
    assert(points@.subrange(0, i as int) =~= points@);
    true
}

impl Default for SweepConfig {
    /// A thousand samples from `10^-3` to `10^5` radians per second.
    fn default() -> (r: SweepConfig)
        ensures
            r.wf(),
            r.spec_start() == DEFAULT_START,
            r.spec_end() == DEFAULT_END,
            r.spec_points() == DEFAULT_POINTS,
    {
        SweepConfig { start: DEFAULT_START, end: DEFAULT_END, points: DEFAULT_POINTS }
    }
}

/// The grid is logarithmic: the first sample sits at `10^start`, the last at
/// `10^end`, and the exponent grows by the same amount, `(end - start) /
/// (points - 1)`, from each sample to the next, so that the ratio of
/// consecutive frequencies is constant and above one.
pub proof fn lemma_grid_is_logarithmic(config: SweepConfig, i: int)
    requires
        config.wf(),
        0 <= i < config.spec_points() - 1,
    ensures
        config.spec_position(0) == config.spec_start() * (config.spec_points() - 1),
        config.spec_position(config.spec_points() - 1) == config.spec_end() * (
        config.spec_points() - 1),
        config.spec_position(i + 1) - config.spec_position(i) == config.spec_end()
            - config.spec_start(),
        config.spec_position(i) < config.spec_position(i + 1),
{
    let (s, e, n) = (config.spec_start(), config.spec_end(), config.spec_points());
    assert(s * (n - 1) + (n - 1) * (e - s) == e * (n - 1)) by (nonlinear_arith);
    assert((i + 1) * (e - s) - i * (e - s) == e - s) by (nonlinear_arith);
}

} // verus!
