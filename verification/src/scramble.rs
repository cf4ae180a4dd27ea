//! Zero substitution for AMI on parsed bits: B8ZS and HDB3.
//!
//! Both codes send marks as pulses of alternating sign and rewrite the tail of
//! what was already sent whenever a run of spaces reaches the code's block
//! length. The module `laws` holds what follows of the two signals.

pub mod laws;

use vstd::prelude::*;
use crate::encoding::{bipolar, lemma_marks_step, pulse};

verus! {

/// The length of the run of spaces that `bits` ends in.
pub open spec fn zero_run(bits: Seq<bool>) -> nat
    decreases bits.len(),
{
    if bits.len() == 0 || bits.last() {
        0
    } else {
        zero_run(bits.drop_last()) + 1
    }
}

/// Whether the last bit of `bits` is a space that completes a block of
/// `block` spaces.
pub open spec fn closes_block(bits: Seq<bool>, block: nat) -> bool {
    bits.len() > 0 && !bits.last() && zero_run(bits) % block == 0
}

/// The block that B8ZS puts in place of eight spaces, with `positive` the
/// toggle at the time: `[0, 0, 0, t, -t, 0, -t, t]`.
pub open spec fn b8zs_block(positive: bool) -> Seq<i8> {
    seq![
        0i8,
        0i8,
        0i8,
        pulse(positive),
        pulse(!positive),
        0i8,
        pulse(!positive),
        pulse(positive),
    ]
}

/// The B8ZS line signal of `bits`. A mark flips the toggle and is sent as the
/// toggle's pulse. A space is sent as `0`; when it is the eighth of its run,
/// or the sixteenth, and so on, the last eight levels are replaced by the
/// block of the toggle, which the block leaves as it is.
pub open spec fn b8zs_levels(bits: Seq<bool>) -> Seq<i8>
    decreases bits.len(),
{
    if bits.len() == 0 {
        Seq::empty()
    } else {
        let before = b8zs_levels(bits.drop_last());
        if bits.last() {
            before.push(pulse(bipolar(bits)))
        } else if closes_block(bits, 8) {
            before.take(before.len() - 7) + b8zs_block(bipolar(bits))
        } else {
            before.push(0i8)
        }
    }
}

/// The state that HDB3 carries from bit to bit.
pub struct Hdb3State {
    /// Whether the toggle stands at the positive pulse.
    pub positive: bool,
    /// The parity flag, which names the two cases of substitution: set at the
    /// start and after every substitution, flipped by every mark.
    pub odd: bool,
}

/// The block that HDB3 puts in place of four spaces: `[-t, 0, 0, -t]` in the
/// odd case, `[0, 0, 0, -t]` in the even case, with `t` the toggle before.
pub open spec fn hdb3_block(state: Hdb3State) -> Seq<i8> {
    if state.odd {
        seq![pulse(!state.positive), 0i8, 0i8, pulse(!state.positive)]
    } else {
        seq![0i8, 0i8, 0i8, pulse(!state.positive)]
    }
}

/// The state of HDB3 after `bits`. It starts with a negative toggle and the
/// odd flag set. A mark flips both. A substitution in the odd case flips the
/// toggle; one in the even case sets the odd flag.
pub open spec fn hdb3_state(bits: Seq<bool>) -> Hdb3State
    decreases bits.len(),
{
    if bits.len() == 0 {
        Hdb3State { positive: false, odd: true }
    } else {
        let before = hdb3_state(bits.drop_last());
        if bits.last() {
            Hdb3State { positive: !before.positive, odd: !before.odd }
        } else if closes_block(bits, 4) {
            if before.odd {
                Hdb3State { positive: !before.positive, odd: true }
            } else {
                Hdb3State { positive: before.positive, odd: true }
            }
        } else {
            before
        }
    }
}

/// The HDB3 line signal of `bits`. A mark is sent as the pulse of the flipped
/// toggle. A space is sent as `0`; when it is the fourth of its run, or the
/// eighth, and so on, the last four levels are replaced by the block of the
/// state before it.
pub open spec fn hdb3_levels(bits: Seq<bool>) -> Seq<i8>
    decreases bits.len(),
{
    if bits.len() == 0 {
        Seq::empty()
    } else {
        let before = hdb3_levels(bits.drop_last());
        let state = hdb3_state(bits.drop_last());
        if bits.last() {
            before.push(pulse(!state.positive))
        } else if closes_block(bits, 4) {
            before.take(before.len() - 3) + hdb3_block(state)
        } else {
            before.push(0i8)
        }
    }
}

/// A run of spaces is no longer than the bits that hold it.
pub proof fn lemma_zero_run_bound(bits: Seq<bool>)
    ensures
        zero_run(bits) <= bits.len(),
    decreases bits.len(),
{
    if bits.len() > 0 && !bits.last() {
        lemma_zero_run_bound(bits.drop_last());
    }
}

/// B8ZS sends one level per bit.
pub proof fn lemma_b8zs_len(bits: Seq<bool>)
    ensures
        b8zs_levels(bits).len() == bits.len(),
    decreases bits.len(),
{
    if bits.len() > 0 {
        lemma_b8zs_len(bits.drop_last());
        lemma_zero_run_bound(bits);
    }
}

/// HDB3 sends one level per bit.
pub proof fn lemma_hdb3_len(bits: Seq<bool>)
    ensures
        hdb3_levels(bits).len() == bits.len(),
    decreases bits.len(),
{
    if bits.len() > 0 {
        lemma_hdb3_len(bits.drop_last());
        lemma_zero_run_bound(bits);
    }
}

/// Encodes `bin_data` in AMI with B8ZS zero substitution.
pub fn b8zs_encoder(bin_data: &Vec<bool>) -> (encoded_data: Vec<i8>)
    ensures
        encoded_data@ == b8zs_levels(bin_data@),
        encoded_data@.len() == bin_data@.len(),
{
    let mut encoded_data: Vec<i8> = Vec::new();
    let mut cnt: u8 = 0;
    let mut positive = false;
    let mut i: usize = 0;
    while i < bin_data.len()
        invariant
            i <= bin_data.len(),
            cnt < 8,
            cnt as nat == zero_run(bin_data@.take(i as int)) % 8,
            positive == bipolar(bin_data@.take(i as int)),
            encoded_data@ == b8zs_levels(bin_data@.take(i as int)),
            encoded_data@.len() == i,
        decreases bin_data.len() - i,
    {
        let ghost before = bin_data@.take(i as int);
        let ghost now = bin_data@.take(i + 1);
        proof {
            lemma_marks_step(bin_data@, i as int);
            assert(now.drop_last() =~= before);
            lemma_zero_run_bound(now);
        }
        if bin_data[i] {
            positive = !positive;
            encoded_data.push(if positive { 1 } else { -1 });
            cnt = 0;
        } else {
            encoded_data.push(0);
            cnt += 1;
            if cnt == 8 {
                cnt = 0;
                let n = encoded_data.len();
                let t: i8 = if positive { 1 } else { -1 };
                let u: i8 = if positive { -1 } else { 1 };
                encoded_data.set(n - 5, t);
                encoded_data.set(n - 4, u);
                encoded_data.set(n - 2, u);
                encoded_data.set(n - 1, t);
                proof {
                    lemma_b8zs_tail_zero(before);
                    assert(encoded_data@ =~= b8zs_levels(before).take(i - 7) + b8zs_block(
                        positive,
                    ));
                }
            }
        }
        i += 1;
    }
    assert(bin_data@.take(i as int) =~= bin_data@);
    encoded_data
}

/// While a block is filling, the spaces of the run that are not yet part of a
/// block stand in the B8ZS signal as `0`.
pub proof fn lemma_b8zs_tail_zero(bits: Seq<bool>)
    ensures
        b8zs_levels(bits).len() == bits.len(),
        forall|k: int|
            bits.len() - zero_run(bits) % 8 <= k < bits.len() ==> b8zs_levels(bits)[k] == 0,
    decreases bits.len(),
{
    lemma_b8zs_len(bits);
    lemma_zero_run_bound(bits);
    if bits.len() > 0 && !bits.last() && zero_run(bits) % 8 != 0 {
        let before = bits.drop_last();
        lemma_b8zs_tail_zero(before);
        assert forall|k: int|
            bits.len() - zero_run(bits) % 8 <= k < bits.len() implies b8zs_levels(bits)[k]
            == 0 by {
            if k < before.len() {
                assert(b8zs_levels(bits)[k] == b8zs_levels(before)[k]);
            }
        }
    }
}

/// While a block is filling, the spaces of the run that are not yet part of a
/// block stand in the HDB3 signal as `0`.
pub proof fn lemma_hdb3_tail_zero(bits: Seq<bool>)
    ensures
        hdb3_levels(bits).len() == bits.len(),
        forall|k: int|
            bits.len() - zero_run(bits) % 4 <= k < bits.len() ==> hdb3_levels(bits)[k] == 0,
    decreases bits.len(),
{
    lemma_hdb3_len(bits);
    lemma_zero_run_bound(bits);
    if bits.len() > 0 && !bits.last() && zero_run(bits) % 4 != 0 {
        let before = bits.drop_last();
        lemma_hdb3_tail_zero(before);
        assert forall|k: int|
            bits.len() - zero_run(bits) % 4 <= k < bits.len() implies hdb3_levels(bits)[k]
            == 0 by {
            if k < before.len() {
                assert(hdb3_levels(bits)[k] == hdb3_levels(before)[k]);
            }
        }
    }
}

/// Encodes `bin_data` in AMI with HDB3 zero substitution.
pub fn hdb3_encoder(bin_data: &Vec<bool>) -> (encoded_data: Vec<i8>)
    ensures
        encoded_data@ == hdb3_levels(bin_data@),
        encoded_data@.len() == bin_data@.len(),
{
    let mut encoded_data: Vec<i8> = Vec::new();
    let mut cnt: u8 = 0;
    let mut positive = false;
    let mut odd = true;
    let mut i: usize = 0;
    while i < bin_data.len()
        invariant
            i <= bin_data.len(),
            cnt < 4,
            cnt as nat == zero_run(bin_data@.take(i as int)) % 4,
            hdb3_state(bin_data@.take(i as int)) == (Hdb3State { positive, odd }),
            encoded_data@ == hdb3_levels(bin_data@.take(i as int)),
            encoded_data@.len() == i,
        decreases bin_data.len() - i,
    {
        let ghost before = bin_data@.take(i as int);
        let ghost now = bin_data@.take(i + 1);
        proof {
            assert(now.drop_last() =~= before);
            lemma_zero_run_bound(now);
        }
        if bin_data[i] {
            odd = !odd;
            positive = !positive;
            encoded_data.push(if positive { 1 } else { -1 });
            cnt = 0;
        } else {
            encoded_data.push(0);
            cnt += 1;
            if cnt == 4 {
                cnt = 0;
                let n = encoded_data.len();
                let v: i8 = if positive { -1 } else { 1 };
                if odd {
                    encoded_data.set(n - 4, v);
                    encoded_data.set(n - 1, v);
                    positive = !positive;
                } else {
                    encoded_data.set(n - 1, v);
                    odd = true;
                }
                proof {
                    lemma_hdb3_tail_zero(before);
                    assert(encoded_data@ =~= hdb3_levels(before).take(i - 3) + hdb3_block(
                        hdb3_state(before),
                    ));
                }
            }
        }
        i += 1;
    }
    assert(bin_data@.take(i as int) =~= bin_data@);
    encoded_data
}

} // verus!
