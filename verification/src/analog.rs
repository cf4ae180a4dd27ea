//! Digitizing a sampled waveform: the choices a caller makes, the sampling
//! instants, and the one entry point that dispatches on the modulation.
//!
//! The waveform itself is evaluated by the caller. This module works on the
//! waveform's values at the sampling instants, as integers.

pub mod modulation;

use vstd::prelude::*;
use vstd::arithmetic::div_mod::lemma_fundamental_div_mod;
use vstd::arithmetic::mul::{lemma_mul_inequality, lemma_mul_is_commutative};
use crate::analog::modulation::{dm_symbols, dm_symbols_of, pcm_symbols, pcm_symbols_of};

verus! {

/// The waveform families that can be sampled.
#[derive(Copy, Clone, Debug, PartialEq, Eq, Structural)]
pub enum AnalogSignal {
    Sine,
    SawTooth,
    Square,
    Sinc,
}

/// The ways to digitize a sampled waveform.
#[derive(Copy, Clone, Debug, PartialEq, Eq, Structural)]
pub enum Modulation {
    DM,
    PCM,
}

/// A parameter is zero or negative where it must be positive.
#[derive(Copy, Clone, Debug, PartialEq, Eq, Structural)]
pub struct DegenerateParameters;

/// A rate as a fraction: `count` events in every `span` units of time.
#[derive(Copy, Clone, Debug, PartialEq, Eq, Structural)]
pub struct Rate {
    pub count: u32,
    pub span: u32,
}

impl Rate {
    /// The rate is a positive number.
    pub open spec fn positive(&self) -> bool {
        self.count > 0 && self.span > 0
    }

    /// Whether the rate is a positive number.
    pub fn is_positive(&self) -> (positive: bool)
        ensures
            positive == self.positive(),
    {
        self.count > 0 && self.span > 0
    }
}

/// The parameters of a waveform and of its modulation.
#[derive(Copy, Clone, Debug, PartialEq, Eq, Structural)]
pub struct Parameters {
    /// The amplitude of the waveform, in the unit of the samples.
    pub amplitude: i32,
    /// The cycles of the waveform per unit of time.
    pub frequency: Rate,
    /// The step of delta modulation, in the unit of the samples.
    pub delta: i32,
    /// The sampling instants per unit of time.
    pub sampling_rate: Rate,
}

impl Parameters {
    /// The frequency, the step and the sampling rate are positive.
    pub open spec fn valid(&self) -> bool {
        self.frequency.positive() && self.delta > 0 && self.sampling_rate.positive()
    }

    /// Tests the parameters before any sampling.
    pub fn check(&self) -> (r: Result<(), DegenerateParameters>)
        ensures
            r is Ok <==> self.valid(),
    {
        if self.frequency.is_positive() && self.delta > 0 && self.sampling_rate.is_positive() {
            Ok(())
        } else {
            Err(DegenerateParameters)
        }
    }
}

/// Whether instant `i`, at time `i / rate`, lies before `duration`.
pub open spec fn is_instant(i: int, rate: Rate, duration: int) -> bool {
    0 <= i && i * rate.span < duration * rate.count
}

/// The number of sampling instants before `duration`.
pub open spec fn instants(rate: Rate, duration: int) -> nat {
    if duration <= 0 || rate.span == 0 {
        0
    } else {
        ((duration * rate.count + rate.span - 1) / (rate.span as int)) as nat
    }
}

/// `instants` counts the sampling instants: instant `i` lies before
/// `duration` exactly when `i` is below the count.
pub proof fn lemma_instants_counts(rate: Rate, duration: int, i: int)
    requires
        rate.count > 0,
        rate.span > 0,
        0 <= i,
    ensures
        is_instant(i, rate, duration) <==> i < instants(rate, duration),
{
    let span = rate.span as int;
    let reach = duration * rate.count;
    if duration <= 0 {
        assert(reach <= 0) by (nonlinear_arith)
            requires
                duration <= 0,
                rate.count > 0,
                reach == duration * rate.count,
        ;
        assert(i * span >= 0) by (nonlinear_arith)
            requires
                i >= 0,
                span > 0,
        ;
    } else {
        assert(reach >= 1) by (nonlinear_arith)
            requires
                duration >= 1,
                rate.count >= 1,
                reach == duration * rate.count,
        ;
        let q = (reach + span - 1) / span;
        lemma_fundamental_div_mod(reach + span - 1, span);
        lemma_mul_is_commutative(span, q);
        if i < q {
            lemma_mul_inequality(i, q - 1, span);
            assert((q - 1) * span == q * span - span) by (nonlinear_arith);
        } else {
            lemma_mul_inequality(q, i, span);
        }
    }
}

/// Counts the sampling instants `0, 1, 2, ..` at times `i / rate` that lie
/// before `to`; none where `to` is zero or negative.
pub fn sample_count(parameters: &Parameters, to: i32) -> (r: Result<u64, DegenerateParameters>)
    ensures
        r is Ok <==> parameters.valid(),
        r matches Ok(n) ==> n == instants(parameters.sampling_rate, to as int),
        r is Ok && to <= 0 ==> r == Ok::<u64, DegenerateParameters>(0),
{
    if parameters.check().is_err() {
        return Err(DegenerateParameters);
    }
    if to <= 0 {
        return Ok(0);
    }
    let count = parameters.sampling_rate.count as u64;
    let span = parameters.sampling_rate.span as u64;
    let duration = to as u64;
    assert(duration * count <= 0x7fff_ffff * 0xffff_ffff) by (nonlinear_arith)
        requires
            duration <= 0x7fff_ffff,
            count <= 0xffff_ffff,
    ;
    Ok((duration * count + span - 1) / span)
}

/// The samples that a modulation reads: of the values given, one for each
/// sampling instant before `duration`.
pub open spec fn sampled(samples: Seq<i32>, rate: Rate, duration: int) -> Seq<i32> {
    if instants(rate, duration) < samples.len() {
        samples.take(instants(rate, duration) as int)
    } else {
        samples
    }
}

/// The symbols that `scheme` makes of `samples`.
pub open spec fn modulated(scheme: Modulation, samples: Seq<i32>, delta: int) -> Seq<i8> {
    match scheme {
        Modulation::DM => dm_symbols(samples, delta),
        Modulation::PCM => pcm_symbols(samples),
    }
}

/// What digitizing under `scheme` owes: a refusal exactly of degenerate
/// parameters, else the symbols of the samples taken before `to`, which are
/// none where `to` is zero or negative.
pub open spec fn modulation_outcome(
    scheme: Modulation,
    parameters: Parameters,
    samples: Seq<i32>,
    to: int,
    r: Result<Vec<i8>, DegenerateParameters>,
) -> bool {
    &&& r is Ok <==> parameters.valid()
    &&& r matches Ok(symbols) ==> symbols@ == modulated(
        scheme,
        sampled(samples, parameters.sampling_rate, to),
        parameters.delta as int,
    )
    &&& r matches Ok(symbols) ==> (to <= 0 ==> symbols@.len() == 0)
}

/// Without duration there is nothing to send: where `duration` is zero or
/// negative no sample is read, and either modulation gives no symbol.
pub proof fn lemma_no_duration_no_symbols(
    scheme: Modulation,
    samples: Seq<i32>,
    rate: Rate,
    delta: int,
    duration: int,
)
    requires
        duration <= 0,
    ensures
        sampled(samples, rate, duration).len() == 0,
        modulated(scheme, sampled(samples, rate, duration), delta).len() == 0,
{
}

/// Digitizes a waveform under `scheme`. `samples[i]` is the waveform's value
/// at sampling instant `i`; the values at instants that do not lie before
/// `to` are not read. Degenerate parameters are refused before anything is
/// read. Where `to` is zero or negative the result is empty.
pub fn modulate(scheme: Modulation, parameters: &Parameters, samples: &Vec<i32>, to: i32) -> (r:
    Result<Vec<i8>, DegenerateParameters>)
    ensures
        modulation_outcome(scheme, *parameters, samples@, to as int, r),
{
    match sample_count(parameters, to) {
        Err(e) => Err(e),
        Ok(count) => {
            let used: usize = if count < samples.len() as u64 {
                count as usize
            } else {
                samples.len()
            };
            assert(samples@.take(used as int) =~= sampled(
                samples@,
                parameters.sampling_rate,
                to as int,
            ));
            Ok(
                match scheme {
                    Modulation::DM => dm_symbols_of(samples, used, parameters.delta),
                    Modulation::PCM => pcm_symbols_of(samples, used),
                },
            )
        },
    }
}

} // verus!
