//! The response over a sweep, and Bode data: magnitude and phase over
//! frequency, checked before it is used.
//!
//! The response at each point of a sweep is computed here. Its magnitude in
//! decibels and its phase in degrees take the logarithm of a modulus and an
//! arc tangent, which are left to the machine's library; the conversion to
//! decibels and degrees is done here again. Nothing that is not a finite
//! number gets into `BodeData`, so a chart is never drawn from an infinity or
//! from a value that is not a number.
use crate::arithmetic::product;
use crate::arithmetic::quotient;
use crate::double::Double;
use crate::double::MINUS_STRAIGHT_BITS;
use crate::double::PI_BITS;
use crate::double::STRAIGHT_BITS;
use crate::double::TWENTY_BITS;
use crate::double::TWO_PI_BITS;
use crate::error::BodeError;
use crate::evaluation::Complex;
use crate::sweep::ascending;
use crate::sweep::is_ascending;
use crate::sweep::SweepConfig;
use crate::transfer_function::response;
use crate::transfer_function::singular_at;
use crate::transfer_function::Coefficients;
use crate::transfer_function::TransferFunction;
use vstd::prelude::*;

verus! {

/// The frequency in hertz of the angular frequency `w`: `w / (2 * pi)`,
/// rounded.
pub open spec fn hertz(w: Double) -> Double {
    quotient(w, Double { bits: TWO_PI_BITS })
}

/// The magnitude in decibels of a modulus given by its logarithm to base ten:
/// twenty times the logarithm, rounded.
pub open spec fn decibels(log_modulus: Double) -> Double {
    product(Double { bits: TWENTY_BITS }, log_modulus)
}

/// The angle in degrees of an angle in radians: the angle times one hundred
/// and eighty, over pi, each rounded.
pub open spec fn degrees(radians: Double) -> Double {
    quotient(product(radians, Double { bits: STRAIGHT_BITS }), Double { bits: PI_BITS })
}

/// The model has no response at some point of the sweep.
pub open spec fn singular_on(c: Coefficients, points: Seq<Double>) -> bool {
    exists|i: int| 0 <= i < points.len() && #[trigger] singular_at(c, points[i])
}

/// The response of a model at each point of a sweep: the frequencies in
/// hertz, and at each the complex value of the response.
#[derive(Debug)]
pub struct SweptResponse {
    pub frequency_hz: Vec<Double>,
    pub values: Vec<Complex>,
}

/// The response of `tf` at each of `points`, the angular frequencies of a
/// sweep in radians per second. Points that the sweep `config` does not
/// admit are refused as an invalid parameter. A model without a response at
/// one of the points has a singular response, and nothing is returned for
/// the other points either.
#[verifier::rlimit(40)]
pub fn sweep_response(tf: &TransferFunction, config: &SweepConfig, points: &Vec<Double>) -> (r:
    Result<SweptResponse, BodeError>)
    ensures
        !config.admitted(points@) ==> r is Err && r->Err_0 == BodeError::InvalidParameter,
        config.admitted(points@) && singular_on(tf@, points@) ==> r is Err && r->Err_0
            == BodeError::SingularResponse,
        config.admitted(points@) && !singular_on(tf@, points@) ==> {
            &&& r is Ok
            &&& r->Ok_0.frequency_hz@.len() == points@.len()
            &&& r->Ok_0.values@.len() == points@.len()
            &&& forall|i: int|
                0 <= i < points@.len() ==> (#[trigger] r->Ok_0.values@[i]) == response(
                    tf@,
                    points@[i],
                ) && r->Ok_0.frequency_hz@[i] == hertz(points@[i])
        },
{
    if !config.admits(points) {
        return Err(BodeError::InvalidParameter);
    }
    let two_pi = Double::from_bits(TWO_PI_BITS);
    let mut frequency_hz: Vec<Double> = Vec::with_capacity(points.len());
    let mut values: Vec<Complex> = Vec::with_capacity(points.len());
    let mut i: usize = 0;
    while i < points.len()
        invariant
            i <= points.len(),
            config.admitted(points@),
            two_pi.bits == TWO_PI_BITS,
            frequency_hz@.len() == i,
            values@.len() == i,
            forall|k: int| 0 <= k < i ==> !#[trigger] singular_at(tf@, points@[k]),
            forall|k: int|
                0 <= k < i ==> (#[trigger] values@[k]) == response(tf@, points@[k])
                    && frequency_hz@[k] == hertz(points@[k]),
        decreases points.len() - i,
    {
        let w: Double = points[i];
        match tf.response_at(w) {
            Ok(h) => {
                values.push(h);
                frequency_hz.push(w.over(&two_pi));
            },
            Err(_) => {
                assert(singular_at(tf@, points@[i as int]));
                return Err(BodeError::SingularResponse);
            },
        }
        i += 1;
    }
    Ok(SweptResponse { frequency_hz, values })
}

/// One point of a response.
#[derive(Clone, Copy, Debug)]
pub struct BodeSample {
    /// Frequency in hertz.
    pub frequency_hz: Double,
    /// Magnitude in decibels.
    pub magnitude_db: Double,
    /// Phase in degrees.
    pub phase_deg: Double,
}

/// The response of one model over one sweep, as three parallel columns in
/// ascending order of frequency.
#[derive(Debug)]
pub struct BodeData {
    frequency_hz: Vec<Double>,
    magnitude_db: Vec<Double>,
    phase_deg: Vec<Double>,
}

/// What `BodeData` is: its three columns.
pub struct Columns {
    pub frequency_hz: Seq<Double>,
    pub magnitude_db: Seq<Double>,
    pub phase_deg: Seq<Double>,
}

/// Every element is a number and not an infinity.
pub open spec fn all_finite(values: Seq<Double>) -> bool {
    forall|i: int| 0 <= i < values.len() ==> (#[trigger] values[i]).finite()
}

/// Every element is an angle of the principal range, from minus one hundred
/// and eighty to one hundred and eighty degrees.
pub open spec fn principal(values: Seq<Double>) -> bool {
    forall|i: int|
        0 <= i < values.len() ==> !(#[trigger] values[i]).below(
            Double { bits: MINUS_STRAIGHT_BITS },
        ) && !(Double { bits: STRAIGHT_BITS }).below(values[i])
}

/// Why three columns are no Bode data, if they are not. Columns of different
/// lengths do not belong together; a magnitude or phase that is not finite
/// marks a singular response; phases have to lie in the principal range, and
/// frequencies have to be finite, above zero and strictly ascending.
pub open spec fn defect(
    frequency_hz: Seq<Double>,
    magnitude_db: Seq<Double>,
    phase_deg: Seq<Double>,
) -> Option<BodeError> {
    if frequency_hz.len() != magnitude_db.len() || frequency_hz.len() != phase_deg.len() {
        Some(BodeError::InvalidParameter)
    } else if !all_finite(magnitude_db) || !all_finite(phase_deg) {
        Some(BodeError::SingularResponse)
    } else if !principal(phase_deg) || !ascending(frequency_hz) {
        Some(BodeError::InvalidParameter)
    } else {
        None
    }
}

/// `values[at]` is the first smallest number of `values`: nothing before it is
/// as small, nothing after it is smaller. Values that are not numbers do not
/// count.
pub open spec fn first_least(values: Seq<Double>, at: int) -> bool {
    &&& 0 <= at < values.len()
    &&& !values[at].nan()
    &&& forall|k: int|
        0 <= k < at && !(#[trigger] values[k]).nan() ==> values[at].scaled() < values[k].scaled()
    &&& forall|k: int|
        at < k < values.len() && !(#[trigger] values[k]).nan() ==> values[at].scaled()
            <= values[k].scaled()
}

/// `values[at]` is the first largest number of `values`.
pub open spec fn first_greatest(values: Seq<Double>, at: int) -> bool {
    &&& 0 <= at < values.len()
    &&& !values[at].nan()
    &&& forall|k: int|
        0 <= k < at && !(#[trigger] values[k]).nan() ==> values[k].scaled() < values[at].scaled()
    &&& forall|k: int|
        at < k < values.len() && !(#[trigger] values[k]).nan() ==> values[k].scaled()
            <= values[at].scaled()
}

/// No element of `values` is a number.
pub open spec fn no_numbers(values: Seq<Double>) -> bool {
    forall|k: int| 0 <= k < values.len() ==> (#[trigger] values[k]).nan()
}

/// Whether every element is a finite number.
pub fn is_all_finite(values: &Vec<Double>) -> (r: bool)
    ensures
        r == all_finite(values@),
{
    let mut i: usize = 0;
    while i < values.len()
        invariant
            i <= values.len(),
            forall|k: int| 0 <= k < i ==> (#[trigger] values@[k]).finite(),
        decreases values.len() - i,
    {
        if !values[i].is_finite() {
            return false;
        }
        i += 1;
    }
    true
}

/// The magnitudes in decibels of moduli given by their logarithms to base
/// ten.
pub fn in_decibels(log_modulus: &Vec<Double>) -> (r: Vec<Double>)
    ensures
        r@ == log_modulus@.map_values(|x: Double| decibels(x)),
{
    let twenty = Double::from_bits(TWENTY_BITS);
    let mut out: Vec<Double> = Vec::with_capacity(log_modulus.len());
    let mut i: usize = 0;
    while i < log_modulus.len()
        invariant
            i <= log_modulus.len(),
            twenty.bits == TWENTY_BITS,
            out@.len() == i,
            forall|k: int| 0 <= k < i ==> #[trigger] out@[k] == decibels(log_modulus@[k]),
        decreases log_modulus.len() - i,
    {
        out.push(twenty.times(&log_modulus[i]));
        i += 1;
    }
    assert(out@ =~= log_modulus@.map_values(|x: Double| decibels(x)));
    out
}

/// The angles in degrees of angles in radians.
pub fn in_degrees(radians: &Vec<Double>) -> (r: Vec<Double>)
    ensures
        r@ == radians@.map_values(|x: Double| degrees(x)),
{
    let straight = Double::from_bits(STRAIGHT_BITS);
    let pi = Double::from_bits(PI_BITS);
    let mut out: Vec<Double> = Vec::with_capacity(radians.len());
    let mut i: usize = 0;
    while i < radians.len()
        invariant
            i <= radians.len(),
            straight.bits == STRAIGHT_BITS,
            pi.bits == PI_BITS,
            out@.len() == i,
            forall|k: int| 0 <= k < i ==> #[trigger] out@[k] == degrees(radians@[k]),
        decreases radians.len() - i,
    {
        out.push(radians[i].times(&straight).over(&pi));
        i += 1;
    }
    assert(out@ =~= radians@.map_values(|x: Double| degrees(x)));
    out
}

/// Whether every element is an angle of the principal range.
pub fn is_principal(values: &Vec<Double>) -> (r: bool)
    ensures
        r == principal(values@),
{
    let low = Double::from_bits(MINUS_STRAIGHT_BITS);
    let high = Double::from_bits(STRAIGHT_BITS);
    let mut i: usize = 0;
    while i < values.len()
        invariant
            i <= values.len(),
            low.bits == MINUS_STRAIGHT_BITS,
            high.bits == STRAIGHT_BITS,
            forall|k: int|
                0 <= k < i ==> !(#[trigger] values@[k]).below(low) && !high.below(values@[k]),
        decreases values.len() - i,
    {
        if values[i].lt(&low) || high.lt(&values[i]) {
            return false;
        }
        i += 1;
    }
    true
}

/// The smallest and the largest number among `values`, for the range of an
/// axis: `None` where there is no number at all, else the places of the first
/// smallest and of the first largest one.
#[verifier::rlimit(40)]
pub fn extent(values: &Vec<Double>) -> (r: Option<(usize, usize)>)
    ensures
        r is None <==> no_numbers(values@),
        r is Some ==> first_least(values@, r->Some_0.0 as int) && first_greatest(
            values@,
            r->Some_0.1 as int,
        ),
{
    let mut i: usize = 0;
    while i < values.len() && values[i].is_nan()
        invariant
            i <= values.len(),
            forall|k: int| 0 <= k < i ==> (#[trigger] values@[k]).nan(),
        decreases values.len() - i,
    {
        i += 1;
    }
    if i == values.len() {
        return None;
    }
    let mut low: usize = i;
    let mut high: usize = i;
    i += 1;
    while i < values.len()
        invariant
            low < i <= values.len(),
            high < i,
            first_least(values@.subrange(0, i as int), low as int),
            first_greatest(values@.subrange(0, i as int), high as int),
        decreases values.len() - i,
    {
        let ghost before = values@.subrange(0, i as int);
        let ghost after = values@.subrange(0, i + 1);
        let ghost old_low = low;
        let ghost old_high = high;
        if values[i].lt(&values[low]) {
            low = i;
        }
        if values[high].lt(&values[i]) {
            high = i;
        }
        proof {
            assert forall|k: int| 0 <= k < i implies after[k] == before[k] by {}
            assert(after[i as int] == values@[i as int]);
            assert(first_least(before, old_low as int));
            assert(first_greatest(before, old_high as int));
            assert(first_least(after, low as int)) by {
                assert forall|k: int| 0 <= k < low && !(#[trigger] after[k]).nan() implies after[low as int].scaled()
                    < after[k].scaled() by {
                    assert(before[k] == after[k]);
                    if k < old_low {
                    } else if k > old_low {
                        assert(before[old_low as int].scaled() <= before[k].scaled());
                    }
                }
                assert forall|k: int|
                    low < k < after.len() && !(#[trigger] after[k]).nan() implies after[low as int].scaled()
                    <= after[k].scaled() by {
                    if k < i {
                        assert(before[k] == after[k]);
                    }
                }
            }
            assert(first_greatest(after, high as int)) by {
                assert forall|k: int| 0 <= k < high && !(#[trigger] after[k]).nan() implies after[k].scaled()
                    < after[high as int].scaled() by {
                    assert(before[k] == after[k]);
                    if k < old_high {
                    } else if k > old_high {
                        assert(before[k].scaled() <= before[old_high as int].scaled());
                    }
                }
                assert forall|k: int|
                    high < k < after.len() && !(#[trigger] after[k]).nan() implies after[k].scaled()
                    <= after[high as int].scaled() by {
                    if k < i {
                        assert(before[k] == after[k]);
                    }
                }
            }
        }
        i += 1;
    }
    assert(values@.subrange(0, i as int) =~= values@);
    Some((low, high))
}

/// The smallest and the largest number among `values`, `None` where there is
/// no number at all. The range they span is never inverted; it has no width
/// where all numbers are equal, so an axis drawn from it needs a margin.
pub fn bounds(values: &Vec<Double>) -> (r: Option<(Double, Double)>)
    ensures
        r is None <==> no_numbers(values@),
        r is Some ==> {
            &&& exists|at: int| first_least(values@, at) && values@[at] == r->Some_0.0
            &&& exists|at: int| first_greatest(values@, at) && values@[at] == r->Some_0.1
            &&& !r->Some_0.0.nan() && !r->Some_0.1.nan()
            &&& r->Some_0.0.scaled() <= r->Some_0.1.scaled()
        },
{
    match extent(values) {
        None => None,
        Some((low, high)) => {
            assert(first_least(values@, low as int));
            assert(first_greatest(values@, high as int));
            Some((values[low], values[high]))
        },
    }
}

impl View for BodeData {
    type V = Columns;

    closed spec fn view(&self) -> Columns {
        Columns {
            frequency_hz: self.frequency_hz@,
            magnitude_db: self.magnitude_db@,
            phase_deg: self.phase_deg@,
        }
    }
}

impl BodeData {
    /// What every value of the type satisfies: columns of one length, finite
    /// magnitudes, finite phases of the principal range, finite positive
    /// ascending frequencies.
    pub open spec fn wf(&self) -> bool {
        defect(self@.frequency_hz, self@.magnitude_db, self@.phase_deg) is None
    }

    /// The number of samples.
    pub open spec fn spec_len(&self) -> nat {
        self@.frequency_hz.len()
    }

    /// Sample `i`.
    pub open spec fn spec_sample(&self, i: int) -> BodeSample {
        BodeSample {
            frequency_hz: self@.frequency_hz[i],
            magnitude_db: self@.magnitude_db[i],
            phase_deg: self@.phase_deg[i],
        }
    }

    /// Bode data from its three columns: frequency in hertz, magnitude in
    /// decibels and phase in degrees. Fails where `defect` names a reason,
    /// and with that reason.
    pub fn from_columns(
        frequency_hz: Vec<Double>,
        magnitude_db: Vec<Double>,
        phase_deg: Vec<Double>,
    ) -> (r: Result<BodeData, BodeError>)
        ensures
            match defect(frequency_hz@, magnitude_db@, phase_deg@) {
                Some(e) => r == Err::<BodeData, BodeError>(e),
                None => r is Ok && r->Ok_0.wf() && r->Ok_0@ == (Columns {
                    frequency_hz: frequency_hz@,
                    magnitude_db: magnitude_db@,
                    phase_deg: phase_deg@,
                }),
            },
    {
        if frequency_hz.len() != magnitude_db.len() || frequency_hz.len() != phase_deg.len() {
            return Err(BodeError::InvalidParameter);
        }
        if !is_all_finite(&magnitude_db) || !is_all_finite(&phase_deg) {
            return Err(BodeError::SingularResponse);
        }
        if !is_principal(&phase_deg) || !is_ascending(&frequency_hz) {
            return Err(BodeError::InvalidParameter);
        }
        Ok(BodeData { frequency_hz, magnitude_db, phase_deg })
    }

    /// Bode data from the frequencies in hertz and, at each, the logarithm to
    /// base ten of the modulus of the response and its argument in radians.
    /// The magnitudes in decibels and the phases in degrees are computed
    /// from them; the data fails where `defect` names a reason for these.
    pub fn from_polar(
        frequency_hz: Vec<Double>,
        log_modulus: Vec<Double>,
        argument: Vec<Double>,
    ) -> (r: Result<BodeData, BodeError>)
        ensures
            match defect(
                frequency_hz@,
                log_modulus@.map_values(|x: Double| decibels(x)),
                argument@.map_values(|x: Double| degrees(x)),
            ) {
                Some(e) => r == Err::<BodeData, BodeError>(e),
                None => r is Ok && r->Ok_0.wf() && r->Ok_0@ == (Columns {
                    frequency_hz: frequency_hz@,
                    magnitude_db: log_modulus@.map_values(|x: Double| decibels(x)),
                    phase_deg: argument@.map_values(|x: Double| degrees(x)),
                }),
            },
    {
        let magnitude_db: Vec<Double> = in_decibels(&log_modulus);
        let phase_deg: Vec<Double> = in_degrees(&argument);
        BodeData::from_columns(frequency_hz, magnitude_db, phase_deg)
    }

    /// The number of samples.
    pub fn len(&self) -> (r: usize)
        requires
            self.wf(),
        ensures
            r == self.spec_len(),
    {
        self.frequency_hz.len()
    }

    /// Sample `i`.
    pub fn sample(&self, i: usize) -> (r: BodeSample)
        requires
            self.wf(),
            i < self.spec_len(),
        ensures
            r == self.spec_sample(i as int),
    {
        BodeSample {
            frequency_hz: self.frequency_hz[i],
            magnitude_db: self.magnitude_db[i],
            phase_deg: self.phase_deg[i],
        }
    }

    /// The smallest and the largest magnitude, `None` where there is no
    /// sample.
    pub fn magnitude_bounds(&self) -> (r: Option<(Double, Double)>)
        requires
            self.wf(),
        ensures
            r is None <==> self.spec_len() == 0,
            r is Some ==> {
                &&& exists|at: int|
                    first_least(self@.magnitude_db, at) && self@.magnitude_db[at] == r->Some_0.0
                &&& exists|at: int|
                    first_greatest(self@.magnitude_db, at) && self@.magnitude_db[at]
                        == r->Some_0.1
                &&& r->Some_0.0.finite() && r->Some_0.1.finite()
                &&& r->Some_0.0.scaled() <= r->Some_0.1.scaled()
            },
    {
        proof {
            lemma_finite_numbers(self@.magnitude_db);
        }
        bounds(&self.magnitude_db)
    }

    /// The smallest and the largest phase, `None` where there is no sample.
    pub fn phase_bounds(&self) -> (r: Option<(Double, Double)>)
        requires
            self.wf(),
        ensures
            r is None <==> self.spec_len() == 0,
            r is Some ==> {
                &&& exists|at: int|
                    first_least(self@.phase_deg, at) && self@.phase_deg[at] == r->Some_0.0
                &&& exists|at: int|
                    first_greatest(self@.phase_deg, at) && self@.phase_deg[at] == r->Some_0.1
                &&& r->Some_0.0.finite() && r->Some_0.1.finite()
                &&& r->Some_0.0.scaled() <= r->Some_0.1.scaled()
            },
    {
        proof {
            lemma_finite_numbers(self@.phase_deg);
        }
        bounds(&self.phase_deg)
    }

    /// The first and the last frequency, which are the smallest and the
    /// largest; `None` where there is no sample.
    pub fn frequency_bounds(&self) -> (r: Option<(Double, Double)>)
        requires
            self.wf(),
        ensures
            r is None <==> self.spec_len() == 0,
            r is Some ==> {
                &&& r->Some_0.0 == self@.frequency_hz[0]
                &&& r->Some_0.1 == self@.frequency_hz[self.spec_len() - 1]
                &&& forall|i: int|
                    0 <= i < self.spec_len() ==> r->Some_0.0.scaled() <= (
                    #[trigger] self@.frequency_hz[i]).scaled() <= r->Some_0.1.scaled()
            },
    {
        let n: usize = self.frequency_hz.len();
        if n == 0 {
            return None;
        }
        let first: Double = self.frequency_hz[0];
        let last: Double = self.frequency_hz[n - 1];
        assert forall|i: int| 0 <= i < n implies first.scaled() <= (
        #[trigger] self@.frequency_hz[i]).scaled() <= last.scaled() by {
            if 0 < i {
                assert(self@.frequency_hz[0].below(self@.frequency_hz[i]));
            }
            if i < n - 1 {
                assert(self@.frequency_hz[i].below(self@.frequency_hz[n - 1]));
            }
        }
        Some((first, last))
    }

    /// The frequencies, in hertz.
    pub fn frequency_hz(&self) -> (r: &Vec<Double>)
        ensures
            r@ == self@.frequency_hz,
    {
        &self.frequency_hz
    }

    /// The magnitudes, in decibels.
    pub fn magnitude_db(&self) -> (r: &Vec<Double>)
        ensures
            r@ == self@.magnitude_db,
    {
        &self.magnitude_db
    }

    /// The phases, in degrees.
    pub fn phase_deg(&self) -> (r: &Vec<Double>)
        ensures
            r@ == self@.phase_deg,
    {
        &self.phase_deg
    }
}

/// A finite value is a number: among finite values only the empty sequence
/// holds no number.
pub proof fn lemma_finite_numbers(values: Seq<Double>)
    requires
        all_finite(values),
    ensures
        no_numbers(values) <==> values.len() == 0,
        forall|i: int| 0 <= i < values.len() ==> !(#[trigger] values[i]).nan(),
{
    if values.len() > 0 {
        assert(values[0].finite());
    }
}

} // verus!
