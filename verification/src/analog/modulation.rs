//! Delta modulation and pulse code modulation of integer samples.

use vstd::prelude::*;
use vstd::arithmetic::power2::{
    lemma2_to64, lemma_pow2_pos, lemma_pow2_strictly_increases, lemma_pow2_unfold, pow2,
};
use crate::analog::{modulate, modulation_outcome, DegenerateParameters, Modulation, Parameters};

verus! {

/// The approximation that delta modulation holds after `samples`: it starts
/// at `0` and takes one step of `delta` towards each sample, upwards where the
/// sample is above it and downwards where it is not.
pub open spec fn dm_cursor(samples: Seq<i32>, delta: int) -> int
    decreases samples.len(),
{
    if samples.len() == 0 {
        0
    } else {
        let cursor = dm_cursor(samples.drop_last(), delta);
        if samples.last() > cursor {
            cursor + delta
        } else {
            cursor - delta
        }
    }
}

/// The symbols of delta modulation: `+1` for a sample above the approximation
/// that the samples before it left, `-1` for any other.
pub open spec fn dm_symbols(samples: Seq<i32>, delta: int) -> Seq<i8> {
    Seq::new(
        samples.len(),
        |i: int| if samples[i] > dm_cursor(samples.take(i), delta) { 1i8 } else { -1i8 },
    )
}

/// The smallest power of two that is at least `m`, and at least `1`.
pub open spec fn round_up_pow2(m: nat) -> nat
    decreases m,
{
    if m <= 1 {
        1
    } else {
        2 * round_up_pow2((m + 1) / 2)
    }
}

/// The magnitude `m` rounded to the nearer of the smallest power of two that
/// is at least `m` and the half of that power; the larger one where both are
/// equally near.
pub open spec fn nearest_magnitude(m: nat) -> nat {
    let hi = round_up_pow2(m);
    let lo = hi / 2;
    if hi - m <= m - lo { hi } else { lo }
}

/// `n` rounded to the nearest power of two in magnitude, with the sign of
/// `n`. Zero stays zero.
pub open spec fn nearest_pow2(n: int) -> int {
    if n < 0 {
        -(nearest_magnitude((-n) as nat) as int)
    } else {
        nearest_magnitude(n as nat) as int
    }
}

/// The highest level that pulse code modulation represents.
pub const MAX_LEVEL: i64 = 256;

/// The level that pulse code modulation gives a sample: the nearest power of
/// two, clamped to `MAX_LEVEL` in magnitude.
pub open spec fn pcm_level(n: int) -> int {
    let level = nearest_pow2(n);
    if level > MAX_LEVEL {
        MAX_LEVEL as int
    } else if level < -MAX_LEVEL {
        -MAX_LEVEL
    } else {
        level
    }
}

/// The weight of bit `k` of an eight-bit code, the most significant first.
pub open spec fn bit_weight(k: int) -> int {
    pow2((7 - k) as nat) as int
}

/// The eight-bit code of `level`: the low eight bits of its two's complement
/// form, the most significant first, each as `0` or `1`.
pub open spec fn pcm_code(level: int) -> Seq<i8> {
    Seq::new(8, |k: int| (((level % 256) / bit_weight(k)) % 2) as i8)
}

/// The symbols of pulse code modulation: the eight-bit codes of the samples'
/// levels, one after the other.
pub open spec fn pcm_symbols(samples: Seq<i32>) -> Seq<i8> {
    Seq::new(8 * samples.len(), |j: int| pcm_code(pcm_level(samples[j / 8] as int))[j % 8])
}

/// A power of two whose half lies below `m`, and which is at least `m`, is
/// the one that `round_up_pow2` gives.
pub proof fn lemma_round_up_pow2_unique(m: nat, k: nat)
    requires
        pow2(k) / 2 < m <= pow2(k),
    ensures
        round_up_pow2(m) == pow2(k),
    decreases k,
{
    lemma2_to64();
    if k > 0 {
        let j = (k - 1) as nat;
        lemma_pow2_unfold(k);
        lemma_pow2_pos(j);
        lemma_round_up_pow2_unique((m + 1) / 2, j);
    }
}

/// `round_up_pow2(m)` is a power of two and at least `m`, and its half lies
/// below a positive `m`.
pub proof fn lemma_round_up_pow2_bounds(m: nat)
    ensures
        exists|j: nat| round_up_pow2(m) == pow2(j),
        round_up_pow2(m) >= m,
        m >= 1 ==> round_up_pow2(m) / 2 < m,
    decreases m,
{
    lemma2_to64();
    if m > 1 {
        let h = (m + 1) / 2;
        lemma_round_up_pow2_bounds(h);
        let j = choose|j: nat| round_up_pow2(h) == pow2(j);
        lemma_pow2_unfold(j + 1);
        if j > 0 {
            lemma_pow2_unfold(j);
        }
        assert(round_up_pow2(m) == pow2(j + 1));
    }
}

/// No power of two that is at least `m` is smaller than `round_up_pow2(m)`.
pub proof fn lemma_round_up_pow2_is_least(m: nat, k: nat)
    requires
        pow2(k) >= m,
    ensures
        pow2(k) >= round_up_pow2(m),
{
    lemma_round_up_pow2_bounds(m);
    lemma_pow2_pos(k);
    let j = choose|j: nat| round_up_pow2(m) == pow2(j);
    if k < j {
        lemma_below_power_is_at_most_half(k, j);
    } else if k > j {
        lemma_pow2_strictly_increases(j, k);
    }
}

/// A power of two below another is at most the half of it.
proof fn lemma_below_power_is_at_most_half(k: nat, j: nat)
    requires
        k < j,
    ensures
        pow2(k) <= pow2(j) / 2,
{
    lemma_pow2_unfold(j);
    if k < j - 1 {
        lemma_pow2_strictly_increases(k, (j - 1) as nat);
    }
}

/// How far `a` and `b` are apart.
pub open spec fn distance(a: int, b: int) -> int {
    if a <= b { b - a } else { a - b }
}

/// The magnitude that a positive `m` is rounded to is a power of two, and no
/// power of two is nearer to `m`.
pub proof fn lemma_nearest_magnitude_is_nearest(m: nat, k: nat)
    requires
        m >= 1,
    ensures
        exists|j: nat| nearest_magnitude(m) == pow2(j),
        distance(nearest_magnitude(m) as int, m as int) <= distance(pow2(k) as int, m as int),
{
    lemma2_to64();
    lemma_round_up_pow2_bounds(m);
    let hi = round_up_pow2(m);
    let j = choose|j: nat| round_up_pow2(m) == pow2(j);
    if m > 1 {
        assert(j > 0);
        lemma_pow2_unfold(j);
        assert(hi / 2 == pow2((j - 1) as nat));
        if pow2(k) >= m {
            lemma_round_up_pow2_is_least(m, k);
        } else if k > j {
            lemma_pow2_strictly_increases(j, k);
        } else if k < j {
            lemma_below_power_is_at_most_half(k, j);
        }
    } else {
        lemma_pow2_pos(k);
    }
}

/// Delta modulation.
#[derive(Debug)]
pub struct DM;

/// Pulse code modulation.
#[derive(Debug)]
pub struct PCM;

/// Delta-modulates the first `used` of `samples`.
pub(crate) fn dm_symbols_of(samples: &Vec<i32>, used: usize, delta: i32) -> (symbols: Vec<i8>)
    requires
        used <= samples.len(),
        delta > 0,
    ensures
        symbols@ == dm_symbols(samples@.take(used as int), delta as int),
{
    let ghost read = samples@.take(used as int);
    let mut symbols: Vec<i8> = Vec::new();
    let mut cursor: i64 = 0;
    let mut i: usize = 0;
    while i < used
        invariant
            i <= used <= samples.len(),
            delta > 0,
            read == samples@.take(used as int),
            cursor == dm_cursor(read.take(i as int), delta as int),
            i32::MIN - delta <= cursor <= i32::MAX + delta,
            symbols@.len() == i,
            forall|k: int| 0 <= k < i ==> symbols@[k] == dm_symbols(read, delta as int)[k],
        decreases used - i,
    {
        assert(read.take(i + 1).drop_last() =~= read.take(i as int));
        let sample = samples[i] as i64;
        if sample > cursor {
            symbols.push(1);
            cursor += delta as i64;
        } else {
            symbols.push(-1);
            cursor -= delta as i64;
        }
        i += 1;
    }
    assert(symbols@ =~= dm_symbols(read, delta as int));
    symbols
}

impl PCM {
    /// Rounds `n` to the nearest power of two in magnitude and keeps its sign.
    /// The smallest power of two that is at least the magnitude is found by
    /// smearing the bits of the magnitude less one to the right and adding
    /// one.
    pub fn nearest_pow_of_two(&self, n: i32) -> (r: i64)
        ensures
            r == nearest_pow2(n as int),
    {
        let wide = n as i64;
        let m: i64 = if wide < 0 { -wide } else { wide };
        let v: u32 = if m == 0 { 0 } else { (m - 1) as u32 };
        let s1: u32 = v | (v >> 1);
        let s2: u32 = s1 | (s1 >> 2);
        let s4: u32 = s2 | (s2 >> 4);
        let s8: u32 = s4 | (s4 >> 8);
        let s: u32 = s8 | (s8 >> 16);
        let i: i64 = s as i64 + 1;
        let p: i64 = i / 2;
        proof {
            lemma_smear(v, s1, s2, s4, s8, s);
            lemma2_to64();
            let k = choose|k: nat| k <= 32 && pow2(k) == i;
            lemma_round_up_pow2_unique(if m == 0 { 1 } else { m as nat }, k);
        }
        let magnitude = if i - m <= m - p { i } else { p };
        if n < 0 { -magnitude } else { magnitude }
    }

    /// The eight-bit code of the level of sample `n`, appended to `symbols`.
    fn push_code(&self, symbols: &mut Vec<i8>, n: i32)
        ensures
            final(symbols)@ == old(symbols)@ + pcm_code(pcm_level(n as int)),
    {
        let mut level = self.nearest_pow_of_two(n);
        if level > MAX_LEVEL {
            level = MAX_LEVEL;
        } else if level < -MAX_LEVEL {
            level = -MAX_LEVEL;
        }
        let byte: i64 = (level + 256) % 256;
        proof {
            lemma2_to64();
        }
        let mut weight: i64 = 128;
        let mut k: usize = 0;
        while k < 8
            invariant
                k <= 8,
                0 <= byte < 256,
                byte == pcm_level(n as int) % 256,
                k < 8 ==> weight == bit_weight(k as int),
                symbols@ == old(symbols)@ + pcm_code(pcm_level(n as int)).take(k as int),
            decreases 8 - k,
        {
            proof {
                lemma2_to64();
            }
            symbols.push(((byte / weight) % 2) as i8);
            proof {
                assert(symbols@ =~= old(symbols)@ + pcm_code(pcm_level(n as int)).take(k + 1));
            }
            weight = weight / 2;
            k += 1;
        }
        assert(pcm_code(pcm_level(n as int)).take(8) =~= pcm_code(pcm_level(n as int)));
    }
}

/// What smearing the bits of `v` to the right leaves: all ones up to the
/// highest set bit of `v`.
proof fn lemma_smear(v: u32, s1: u32, s2: u32, s4: u32, s8: u32, s: u32)
    requires
        s1 == v | (v >> 1),
        s2 == s1 | (s1 >> 2),
        s4 == s2 | (s2 >> 4),
        s8 == s4 | (s4 >> 8),
        s == s8 | (s8 >> 16),
    ensures
        s >= v,
        v == 0 ==> s == 0,
        v > 0 ==> s % 2 == 1 && s / 2 < v,
        exists|k: nat| k <= 32 && pow2(k) == s + 1,
{
    assert(s >= v && (v == 0 ==> s == 0) && (v > 0 ==> s % 2 == 1 && s / 2 < v) && (s == 0 || s == 0x1 || s == 0x3 || s == 0x7 || s
        == 0xf || s == 0x1f || s == 0x3f || s == 0x7f || s == 0xff || s == 0x1ff || s == 0x3ff
        || s == 0x7ff || s == 0xfff || s == 0x1fff || s == 0x3fff || s == 0x7fff || s == 0xffff
        || s == 0x1ffff || s == 0x3ffff || s == 0x7ffff || s == 0xfffff || s == 0x1fffff || s
        == 0x3fffff || s == 0x7fffff || s == 0xffffff || s == 0x1ffffff || s == 0x3ffffff || s
        == 0x7ffffff || s == 0xfffffff || s == 0x1fffffff || s == 0x3fffffff || s == 0x7fffffff
        || s == 0xffffffff)) by (bit_vector)
        requires
            s1 == v | (v >> 1),
            s2 == s1 | (s1 >> 2),
            s4 == s2 | (s2 >> 4),
            s8 == s4 | (s4 >> 8),
            s == s8 | (s8 >> 16),
    ;
    lemma2_to64();
    assert(pow2(0) == s + 1 || pow2(1) == s + 1 || pow2(2) == s + 1 || pow2(3) == s + 1 || pow2(4)
        == s + 1 || pow2(5) == s + 1 || pow2(6) == s + 1 || pow2(7) == s + 1 || pow2(8) == s + 1
        || pow2(9) == s + 1 || pow2(10) == s + 1 || pow2(11) == s + 1 || pow2(12) == s + 1
        || pow2(13) == s + 1 || pow2(14) == s + 1 || pow2(15) == s + 1 || pow2(16) == s + 1
        || pow2(17) == s + 1 || pow2(18) == s + 1 || pow2(19) == s + 1 || pow2(20) == s + 1
        || pow2(21) == s + 1 || pow2(22) == s + 1 || pow2(23) == s + 1 || pow2(24) == s + 1
        || pow2(25) == s + 1 || pow2(26) == s + 1 || pow2(27) == s + 1 || pow2(28) == s + 1
        || pow2(29) == s + 1 || pow2(30) == s + 1 || pow2(31) == s + 1 || pow2(32) == s + 1);
}

/// Pulse-code-modulates the first `used` of `samples`.
pub(crate) fn pcm_symbols_of(samples: &Vec<i32>, used: usize) -> (symbols: Vec<i8>)
    requires
        used <= samples.len(),
    ensures
        symbols@ == pcm_symbols(samples@.take(used as int)),
{
    let ghost read = samples@.take(used as int);
    let mut symbols: Vec<i8> = Vec::new();
    let mut i: usize = 0;
    while i < used
        invariant
            i <= used <= samples.len(),
            read == samples@.take(used as int),
            symbols@ == pcm_symbols(read.take(i as int)),
        decreases used - i,
    {
        PCM.push_code(&mut symbols, samples[i]);
        i += 1;
        assert(symbols@ =~= pcm_symbols(read.take(i as int)));
    }
    assert(read.take(i as int) =~= read);
    symbols
}

/// `n` samples of a signal that stays at zero.
pub open spec fn silence(n: nat) -> Seq<i32> {
    Seq::new(n, |i: int| 0i32)
}

/// Delta modulation does not diverge: where the samples stay between `lo`
/// and `hi`, a range that holds the starting point `0`, the approximation
/// leaves that range by no more than one step.
pub proof fn lemma_dm_cursor_bounded(samples: Seq<i32>, delta: int, lo: int, hi: int)
    requires
        delta > 0,
        lo <= 0 <= hi,
        forall|i: int| 0 <= i < samples.len() ==> lo <= #[trigger] samples[i] <= hi,
    ensures
        lo - delta <= dm_cursor(samples, delta) <= hi + delta,
    decreases samples.len(),
{
    if samples.len() > 0 {
        lemma_dm_cursor_bounded(samples.drop_last(), delta, lo, hi);
    }
}

/// On a signal that stays at zero the approximation swings between `-delta`
/// and `0`.
pub proof fn lemma_dm_silence_cursor(n: nat, delta: int)
    requires
        delta > 0,
    ensures
        dm_cursor(silence(n), delta) == if n % 2 == 0 { 0 } else { -delta },
    decreases n,
{
    if n > 0 {
        assert(silence(n).drop_last() =~= silence((n - 1) as nat));
        lemma_dm_silence_cursor((n - 1) as nat, delta);
    }
}

/// On a signal that stays at zero delta modulation sends `-1` and `+1` in
/// turn, starting with `-1`, whatever the positive step.
pub proof fn lemma_dm_silence_alternates(n: nat, delta: int)
    requires
        delta > 0,
    ensures
        dm_symbols(silence(n), delta).len() == n,
        forall|i: int|
            0 <= i < n ==> dm_symbols(silence(n), delta)[i] == if i % 2 == 0 { -1i8 } else { 1i8 },
{
    assert forall|i: int| 0 <= i < n implies dm_symbols(silence(n), delta)[i] == if i % 2 == 0 {
        -1i8
    } else {
        1i8
    } by {
        assert(silence(n).take(i) =~= silence(i as nat));
        lemma_dm_silence_cursor(i as nat, delta);
    }
}

/// The approximation is the step times the sum of the symbols sent so far.
pub proof fn lemma_dm_cursor_is_sum(samples: Seq<i32>, delta: int)
    ensures
        dm_cursor(samples, delta) == delta * symbol_sum(dm_symbols(samples, delta)),
    decreases samples.len(),
{
    if samples.len() > 0 {
        let shorter = samples.drop_last();
        lemma_dm_cursor_is_sum(shorter, delta);
        assert(dm_symbols(samples, delta).drop_last() =~= dm_symbols(shorter, delta)) by {
            assert forall|i: int| 0 <= i < shorter.len() implies dm_symbols(samples, delta)[i]
                == dm_symbols(shorter, delta)[i] by {
                assert(samples.take(i) =~= shorter.take(i));
            }
        }
        assert(samples.take(samples.len() - 1) =~= shorter);
        let before = symbol_sum(dm_symbols(shorter, delta));
        assert(delta * (before + 1) == delta * before + delta) by (nonlinear_arith);
        assert(delta * (before - 1) == delta * before - delta) by (nonlinear_arith);
    }
}

/// The sum of a sequence of symbols.
pub open spec fn symbol_sum(symbols: Seq<i8>) -> int
    decreases symbols.len(),
{
    if symbols.len() == 0 {
        0
    } else {
        symbol_sum(symbols.drop_last()) + symbols.last()
    }
}

/// Pulse code modulation sends eight symbols per sample, each `0` or `1`.
pub proof fn lemma_pcm_symbols_are_bits(samples: Seq<i32>, j: int)
    requires
        0 <= j < 8 * samples.len(),
    ensures
        pcm_symbols(samples).len() == 8 * samples.len(),
        pcm_symbols(samples)[j] == 0 || pcm_symbols(samples)[j] == 1,
{
    lemma2_to64();
}

/// A way of digitizing a sampled waveform.
pub trait Modulate {
    /// Which of the modulations this is.
    spec fn scheme(&self) -> Modulation;

    /// Digitizes the samples taken before `to`; see `modulate`.
    fn modulate(&self, parameters: &Parameters, samples: &Vec<i32>, to: i32) -> (r: Result<
        Vec<i8>,
        DegenerateParameters,
    >)
        ensures
            modulation_outcome(self.scheme(), *parameters, samples@, to as int, r),
    ;
}

impl Modulate for DM {
    open spec fn scheme(&self) -> Modulation {
        Modulation::DM
    }

    fn modulate(&self, parameters: &Parameters, samples: &Vec<i32>, to: i32) -> (r: Result<
        Vec<i8>,
        DegenerateParameters,
    >) {
        modulate(Modulation::DM, parameters, samples, to)
    }
}

impl Modulate for PCM {
    open spec fn scheme(&self) -> Modulation {
        Modulation::PCM
    }

    fn modulate(&self, parameters: &Parameters, samples: &Vec<i32>, to: i32) -> (r: Result<
        Vec<i8>,
        DegenerateParameters,
    >) {
        modulate(Modulation::PCM, parameters, samples, to)
    }
}

} // verus!
