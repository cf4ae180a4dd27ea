//! The five line codes on parsed bits, and the mathematical model that the
//! rest of the crate states its contracts over.

use vstd::prelude::*;

verus! {

/// The line codes that a bit string can be sent under.
#[derive(Copy, Clone, Debug, PartialEq, Eq, Structural)]
pub enum Encodings {
    NRZL,
    NRZI,
    Manchester,
    ManchesterDifferential,
    AMI,
}

/// The number of marks (one-bits) in `bits`.
pub open spec fn marks(bits: Seq<bool>) -> nat
    decreases bits.len(),
{
    if bits.len() == 0 {
        0
    } else {
        marks(bits.drop_last()) + if bits.last() { 1nat } else { 0nat }
    }
}

/// Whether the bipolar toggle stands at the positive pulse after `bits`: it
/// starts negative and every mark flips it.
pub open spec fn bipolar(bits: Seq<bool>) -> bool {
    marks(bits) % 2 == 1
}

/// The level of a pulse: `+1` or `-1`.
pub open spec fn pulse(positive: bool) -> i8 {
    if positive { 1i8 } else { -1i8 }
}

/// NRZ-L: a mark is sent as `+1`, a space as `-1`.
pub open spec fn nrzl_levels(bits: Seq<bool>) -> Seq<i8> {
    Seq::new(bits.len(), |i: int| pulse(bits[i]))
}

/// NRZI: the line starts at `+1` and changes sign at every mark, before the
/// mark's own level is sent. The level of bit `i` is therefore `+1` exactly
/// when the bits up to and including `i` hold an even number of marks.
pub open spec fn nrzi_levels(bits: Seq<bool>) -> Seq<i8> {
    Seq::new(bits.len(), |i: int| pulse(!bipolar(bits.take(i + 1))))
}

/// Manchester: a mark is sent as `[-1, +1]`, a space as `[+1, -1]`.
pub open spec fn manchester_levels(bits: Seq<bool>) -> Seq<i8> {
    Seq::new(2 * bits.len(), |j: int| pulse(bits[j / 2] == (j % 2 == 1)))
}

/// The line sense, `0` or `1`, that differential Manchester holds after
/// `bits`: it starts at `0` and every mark flips it.
pub open spec fn sense(bits: Seq<bool>) -> i8 {
    if bipolar(bits) { 1i8 } else { 0i8 }
}

/// Differential Manchester, written in line senses `0` and `1`. With `t` the
/// sense before a bit, a space is sent as `[t, 1 - t]` and leaves the sense as
/// it is; a mark is sent as `[1 - t, t]` and flips it. In both cases the pair
/// is `[s, 1 - s]` with `s` the sense after the bit.
pub open spec fn manchester_differential_levels(bits: Seq<bool>) -> Seq<i8> {
    Seq::new(
        2 * bits.len(),
        |j: int|
            if j % 2 == 0 {
                sense(bits.take(j / 2 + 1))
            } else {
                (1 - sense(bits.take(j / 2 + 1))) as i8
            },
    )
}

/// AMI: a space is sent as `0`; marks are sent as pulses of alternating sign,
/// the first of them positive.
pub open spec fn ami_levels(bits: Seq<bool>) -> Seq<i8> {
    Seq::new(bits.len(), |i: int| if bits[i] { pulse(bipolar(bits.take(i + 1))) } else { 0i8 })
}

/// Extending a prefix by one bit adds that bit to the count of marks.
pub proof fn lemma_marks_step(bits: Seq<bool>, i: int)
    requires
        0 <= i < bits.len(),
    ensures
        marks(bits.take(i + 1)) == marks(bits.take(i)) + if bits[i] { 1nat } else { 0nat },
        bipolar(bits.take(i + 1)) == (bipolar(bits.take(i)) != bits[i]),
{
    assert(bits.take(i + 1).drop_last() =~= bits.take(i));
}

/// Encodes `bin_data` in NRZ-L.
pub fn nrzl_encoder(bin_data: &Vec<bool>) -> (encoded_data: Vec<i8>)
    ensures
        encoded_data@ == nrzl_levels(bin_data@),
{
    let mut encoded_data: Vec<i8> = Vec::new();
    let mut i: usize = 0;
    while i < bin_data.len()
        invariant
            i <= bin_data.len(),
            encoded_data@ == nrzl_levels(bin_data@.take(i as int)),
        decreases bin_data.len() - i,
    {
        encoded_data.push(if bin_data[i] { 1 } else { -1 });
        i += 1;
        assert(encoded_data@ =~= nrzl_levels(bin_data@.take(i as int)));
    }
    assert(bin_data@.take(i as int) =~= bin_data@);
    encoded_data
}

/// Encodes `bin_data` in NRZI. The output has one level per bit, and it
/// starts at `+1` whenever the first bit is a space.
pub fn nrzi_encoder(bin_data: &Vec<bool>) -> (encoded_data: Vec<i8>)
    ensures
        encoded_data@ == nrzi_levels(bin_data@),
        encoded_data@.len() == bin_data@.len(),
        bin_data@.len() > 0 && !bin_data@[0] ==> encoded_data@[0] == 1,
{
    let mut encoded_data: Vec<i8> = Vec::new();
    let mut positive = true;
    let mut i: usize = 0;
    while i < bin_data.len()
        invariant
            i <= bin_data.len(),
            positive == !bipolar(bin_data@.take(i as int)),
            encoded_data@.len() == i,
            forall|k: int| 0 <= k < i ==> encoded_data@[k] == nrzi_levels(bin_data@)[k],
        decreases bin_data.len() - i,
    {
        proof {
            lemma_marks_step(bin_data@, i as int);
        }
        if bin_data[i] {
            positive = !positive;
        }
        encoded_data.push(if positive { 1 } else { -1 });
        i += 1;
    }
    assert(encoded_data@ =~= nrzi_levels(bin_data@));
    proof {
        if bin_data@.len() > 0 && !bin_data@[0] {
            lemma_marks_step(bin_data@, 0);
        }
    }
    encoded_data
}

/// Encodes `bin_data` in Manchester code: two levels per bit.
pub fn manchester_encoder(bin_data: &Vec<bool>) -> (encoded_data: Vec<i8>)
    ensures
        encoded_data@ == manchester_levels(bin_data@),
        encoded_data@.len() == 2 * bin_data@.len(),
{
    let mut encoded_data: Vec<i8> = Vec::new();
    let mut i: usize = 0;
    while i < bin_data.len()
        invariant
            i <= bin_data.len(),
            encoded_data@.len() == 2 * i,
            forall|k: int| 0 <= k < 2 * i ==> encoded_data@[k] == manchester_levels(bin_data@)[k],
        decreases bin_data.len() - i,
    {
        if bin_data[i] {
            encoded_data.push(-1);
            encoded_data.push(1);
        } else {
            encoded_data.push(1);
            encoded_data.push(-1);
        }
        i += 1;
    }
    assert(encoded_data@ =~= manchester_levels(bin_data@));
    encoded_data
}

/// Encodes `bin_data` in differential Manchester code: two line senses per
/// bit.
pub fn manchester_differential_encoder(bin_data: &Vec<bool>) -> (encoded_data: Vec<i8>)
    ensures
        encoded_data@ == manchester_differential_levels(bin_data@),
        encoded_data@.len() == 2 * bin_data@.len(),
{
    let mut encoded_data: Vec<i8> = Vec::new();
    let mut prev: i8 = 0;
    let mut i: usize = 0;
    while i < bin_data.len()
        invariant
            i <= bin_data.len(),
            prev == sense(bin_data@.take(i as int)),
            encoded_data@.len() == 2 * i,
            forall|k: int|
                0 <= k < 2 * i ==> encoded_data@[k] == manchester_differential_levels(
                    bin_data@,
                )[k],
        decreases bin_data.len() - i,
    {
        proof {
            lemma_marks_step(bin_data@, i as int);
        }
        if bin_data[i] {
            encoded_data.push(1 - prev);
            encoded_data.push(prev);
            prev = 1 - prev;
        } else {
            encoded_data.push(prev);
            encoded_data.push(1 - prev);
        }
        i += 1;
    }
    assert(encoded_data@ =~= manchester_differential_levels(bin_data@));
    encoded_data
}

/// Encodes `bin_data` in AMI without zero substitution.
pub fn ami_encoder(bin_data: &Vec<bool>) -> (encoded_data: Vec<i8>)
    ensures
        encoded_data@ == ami_levels(bin_data@),
        encoded_data@.len() == bin_data@.len(),
{
    let mut encoded_data: Vec<i8> = Vec::new();
    let mut prev_polarity: i8 = 1;
    let mut i: usize = 0;
    while i < bin_data.len()
        invariant
            i <= bin_data.len(),
            prev_polarity == pulse(!bipolar(bin_data@.take(i as int))),
            encoded_data@.len() == i,
            forall|k: int| 0 <= k < i ==> encoded_data@[k] == ami_levels(bin_data@)[k],
        decreases bin_data.len() - i,
    {
        proof {
            lemma_marks_step(bin_data@, i as int);
        }
        if bin_data[i] {
            encoded_data.push(prev_polarity);
            prev_polarity = -prev_polarity;
        } else {
            encoded_data.push(0);
        }
        i += 1;
    }
    assert(encoded_data@ =~= ami_levels(bin_data@));
    encoded_data
}

/// NRZI sends one level per bit, and starts at `+1` whenever the first bit is
/// a space.
pub proof fn lemma_nrzi_starts_high(bits: Seq<bool>)
    ensures
        nrzi_levels(bits).len() == bits.len(),
        bits.len() > 0 && !bits[0] ==> nrzi_levels(bits)[0] == 1,
{
    if bits.len() > 0 {
        lemma_marks_step(bits, 0);
    }
}

/// Manchester and differential Manchester send two levels per bit.
pub proof fn lemma_manchester_doubles(bits: Seq<bool>)
    ensures
        manchester_levels(bits).len() == 2 * bits.len(),
        manchester_differential_levels(bits).len() == 2 * bits.len(),
{
}

/// Both Manchester codes change level in the middle of every bit.
pub proof fn lemma_manchester_mid_bit_change(bits: Seq<bool>, i: int)
    requires
        0 <= i < bits.len(),
    ensures
        manchester_levels(bits)[2 * i] != manchester_levels(bits)[2 * i + 1],
        manchester_differential_levels(bits)[2 * i] != manchester_differential_levels(bits)[2 * i
            + 1],
{
}

/// Differential Manchester changes sense at the boundary before bit `i + 1`
/// exactly when that bit is a mark.
pub proof fn lemma_manchester_differential_boundary(bits: Seq<bool>, i: int)
    requires
        0 <= i,
        i + 1 < bits.len(),
    ensures
        bits[i + 1] <==> manchester_differential_levels(bits)[2 * i]
            != manchester_differential_levels(bits)[2 * i + 2],
{
    lemma_marks_step(bits, i + 1);
}

} // verus!
