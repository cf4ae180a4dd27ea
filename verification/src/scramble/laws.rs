//! What holds of the B8ZS and HDB3 signals: each level read off the bits,
//! the balance of a block, the line never resting for a block's length, and
//! the parity rule of HDB3.

use vstd::prelude::*;
use crate::encoding::{bipolar, marks, pulse};
use crate::scramble::{
    b8zs_block, b8zs_levels, closes_block, hdb3_block, hdb3_levels, hdb3_state, lemma_b8zs_len,
    lemma_hdb3_len, lemma_zero_run_bound, zero_run,
};

verus! {

/// `n` spaces and no mark.
pub open spec fn spaces(n: nat) -> Seq<bool> {
    Seq::new(n, |i: int| false)
}

/// The sum of the levels of a signal.
pub open spec fn net_level(signal: Seq<i8>) -> int
    decreases signal.len(),
{
    if signal.len() == 0 {
        0
    } else {
        net_level(signal.drop_last()) + signal.last()
    }
}

/// A B8ZS block adds nothing to the line's mean level: its four pulses cancel
/// in pairs, whichever way the toggle stands.
pub proof fn lemma_b8zs_block_balanced(positive: bool)
    ensures
        b8zs_block(positive).len() == 8,
        net_level(b8zs_block(positive)) == 0,
{
    let b = b8zs_block(positive);
    assert(b.take(0).len() == 0);
    assert(b.take(1).drop_last() =~= b.take(0));
    assert(b.take(2).drop_last() =~= b.take(1));
    assert(b.take(3).drop_last() =~= b.take(2));
    assert(b.take(4).drop_last() =~= b.take(3));
    assert(b.take(5).drop_last() =~= b.take(4));
    assert(b.take(6).drop_last() =~= b.take(5));
    assert(b.take(7).drop_last() =~= b.take(6));
    assert(b.drop_last() =~= b.take(7));
    assert(net_level(b.take(0)) == 0);
    assert(net_level(b.take(1)) == 0);
    assert(net_level(b.take(2)) == 0);
    assert(net_level(b.take(3)) == 0);
    assert(net_level(b.take(4)) == pulse(positive));
    assert(net_level(b.take(5)) == 0);
    assert(net_level(b.take(6)) == 0);
    assert(net_level(b.take(7)) == pulse(!positive));
}

/// A string of spaces is one run, and leaves the toggle where it started.
pub proof fn lemma_spaces_run(n: nat)
    ensures
        zero_run(spaces(n)) == n,
        !bipolar(spaces(n)),
    decreases n,
{
    if n > 0 {
        assert(spaces(n).drop_last() =~= spaces((n - 1) as nat));
        lemma_spaces_run((n - 1) as nat);
    }
}

/// Of a string of spaces B8ZS replaces every full eight by one block, that of
/// the negative toggle, and leaves the spaces that remain as `0`.
pub proof fn lemma_b8zs_spaces(n: nat)
    ensures
        b8zs_levels(spaces(n)).len() == n,
        forall|i: int|
            0 <= i < n ==> b8zs_levels(spaces(n))[i] == if i < 8 * (n / 8) {
                b8zs_block(false)[i % 8]
            } else {
                0i8
            },
    decreases n,
{
    lemma_b8zs_len(spaces(n));
    if n > 0 {
        let shorter = spaces((n - 1) as nat);
        assert(spaces(n).drop_last() =~= shorter);
        lemma_spaces_run(n);
        lemma_b8zs_spaces((n - 1) as nat);
        lemma_b8zs_len(shorter);
        assert forall|i: int| 0 <= i < n implies b8zs_levels(spaces(n))[i] == if i < 8 * (n / 8) {
            b8zs_block(false)[i % 8]
        } else {
            0i8
        } by {
            if n % 8 == 0 {
                if i >= n - 8 {
                    assert(b8zs_levels(spaces(n))[i] == b8zs_block(false)[i - (n - 8)]);
                } else {
                    assert(b8zs_levels(spaces(n))[i] == b8zs_levels(shorter)[i]);
                }
            } else {
                if i < n - 1 {
                    assert(b8zs_levels(spaces(n))[i] == b8zs_levels(shorter)[i]);
                }
            }
        }
    }
}

/// Whether HDB3 substitutes at bit `i` of `bits`: the bit is a space that
/// completes four.
pub open spec fn hdb3_substitutes(bits: Seq<bool>, i: int) -> bool {
    0 <= i < bits.len() && closes_block(bits.take(i + 1), 4)
}

/// Whether HDB3 substitutes at bit `i` of `bits` in the even case, the one
/// that corrects the parity flag and leaves the toggle alone.
pub open spec fn hdb3_corrects_parity(bits: Seq<bool>, i: int) -> bool {
    hdb3_substitutes(bits, i) && !hdb3_state(bits.take(i)).odd
}

/// Spaces do not clear the odd flag of HDB3: only a mark does.
pub proof fn lemma_hdb3_odd_stays(bits: Seq<bool>, from: int, to: int)
    requires
        0 <= from <= to <= bits.len(),
        hdb3_state(bits.take(from)).odd,
        forall|k: int| from <= k < to ==> !bits[k],
    ensures
        hdb3_state(bits.take(to)).odd,
    decreases to - from,
{
    if from < to {
        lemma_hdb3_odd_stays(bits, from, to - 1);
        assert(bits.take(to).drop_last() =~= bits.take(to - 1));
    }
}

/// Every HDB3 substitution leaves the odd flag set.
pub proof fn lemma_hdb3_substitution_sets_odd(bits: Seq<bool>, i: int)
    requires
        hdb3_substitutes(bits, i),
    ensures
        hdb3_state(bits.take(i + 1)).odd,
{
    assert(bits.take(i + 1).drop_last() =~= bits.take(i));
}

/// HDB3 never corrects the parity twice in a row: between a substitution and
/// a later one of the even case stands a mark. Two substitutions of the odd
/// case can follow each other directly, as in a run of eight spaces.
pub proof fn lemma_hdb3_corrections_apart(bits: Seq<bool>, i: int, j: int)
    requires
        i < j,
        hdb3_substitutes(bits, i),
        hdb3_corrects_parity(bits, j),
    ensures
        exists|k: int| i < k < j && bits[k],
{
    if forall|k: int| i < k < j ==> !bits[k] {
        lemma_hdb3_substitution_sets_odd(bits, i);
        lemma_hdb3_odd_stays(bits, i + 1, j);
    }
}

/// Between an HDB3 substitution and the next one, the odd flag tells the
/// parity of the marks in between: it is set after the substitution, and each
/// mark flips it.
pub proof fn lemma_hdb3_parity_between(bits: Seq<bool>, i: int, j: int)
    requires
        i < j <= bits.len(),
        hdb3_substitutes(bits, i),
        forall|k: int| i < k < j ==> !hdb3_substitutes(bits, k),
    ensures
        hdb3_state(bits.take(j)).odd == (marks(bits.subrange(i + 1, j)) % 2 == 0),
    decreases j - i,
{
    if j == i + 1 {
        lemma_hdb3_substitution_sets_odd(bits, i);
        assert(bits.subrange(i + 1, j).len() == 0);
    } else {
        lemma_hdb3_parity_between(bits, i, j - 1);
        assert(bits.take(j).drop_last() =~= bits.take(j - 1));
        assert(bits.subrange(i + 1, j).drop_last() =~= bits.subrange(i + 1, j - 1));
        assert(!hdb3_substitutes(bits, j - 1));
    }
}

/// An HDB3 substitution that corrects the parity comes an odd number of
/// marks after the substitution before it.
pub proof fn lemma_hdb3_correction_needs_odd_marks(bits: Seq<bool>, i: int, j: int)
    requires
        i < j,
        hdb3_substitutes(bits, i),
        hdb3_corrects_parity(bits, j),
        forall|k: int| i < k < j ==> !hdb3_substitutes(bits, k),
    ensures
        marks(bits.subrange(i + 1, j)) % 2 == 1,
{
    lemma_hdb3_parity_between(bits, i, j);
}

/// The place, from `0` on, that the space at bit `i` has in its block of
/// `block` spaces, counted from the start of its run.
pub open spec fn block_place(bits: Seq<bool>, i: int, block: nat) -> int {
    (zero_run(bits.take(i + 1)) - 1) % (block as int)
}

/// Whether the block of `block` spaces that the space at bit `i` falls into
/// is full: the run goes on to the block's last place.
pub open spec fn in_full_block(bits: Seq<bool>, i: int, block: nat) -> bool {
    let end = i + (block - 1 - block_place(bits, i, block));
    &&& end < bits.len()
    &&& zero_run(bits.take(end + 1)) == zero_run(bits.take(i + 1)) + (end - i)
}

/// The B8ZS level of bit `i`, read off the bits themselves: a mark is the
/// pulse of alternate mark inversion; a space in a full block of eight is its
/// place in the block of the toggle; any other space is `0`.
pub open spec fn b8zs_level_at(bits: Seq<bool>, i: int) -> i8 {
    if bits[i] {
        pulse(bipolar(bits.take(i + 1)))
    } else if in_full_block(bits, i, 8) {
        b8zs_block(bipolar(bits.take(i + 1)))[block_place(bits, i, 8)]
    } else {
        0i8
    }
}

/// Inside the run of spaces that `bits` ends in, `j` places from the end:
/// the bit is a space, the run is `j` shorter there, and no mark follows.
pub proof fn lemma_zero_run_inside(bits: Seq<bool>, j: int)
    requires
        0 <= j < zero_run(bits),
    ensures
        j < bits.len(),
        !bits[bits.len() - 1 - j],
        zero_run(bits.take(bits.len() - j)) == zero_run(bits) - j,
        marks(bits.take(bits.len() - j)) == marks(bits),
    decreases j,
{
    lemma_zero_run_bound(bits);
    if j == 0 {
        assert(bits.take(bits.len() as int) =~= bits);
    } else {
        lemma_zero_run_inside(bits.drop_last(), j - 1);
        assert(bits.drop_last().take(bits.len() - 1 - (j - 1)) =~= bits.take(bits.len() - j));
    }
}

/// The last eight bits of a run that just filled a block stand at the
/// places of that block, which is full.
proof fn lemma_b8zs_level_in_last_block(bits: Seq<bool>, i: int)
    requires
        bits.len() > 0,
        !bits.last(),
        zero_run(bits) % 8 == 0,
        bits.len() - 8 <= i < bits.len(),
    ensures
        0 <= i,
        b8zs_level_at(bits, i) == b8zs_block(bipolar(bits))[i - (bits.len() - 8)],
{
    let n = bits.len() as int;
    lemma_zero_run_bound(bits);
    lemma_zero_run_inside(bits, n - 1 - i);
    assert(bits.take(n) =~= bits);
    let run = zero_run(bits.take(i + 1)) as int;
    assert(run == zero_run(bits) - (n - 1 - i));
    assert(block_place(bits, i, 8) == i - (n - 8));
    assert(i + (8 - 1 - block_place(bits, i, 8)) == n - 1);
    assert(in_full_block(bits, i, 8));
}

/// One more bit changes the level read off at an earlier bit only where it
/// fills that bit's block.
proof fn lemma_b8zs_level_at_grows(bits: Seq<bool>, i: int)
    requires
        0 <= i < bits.len() - 1,
        bits.last() || zero_run(bits) % 8 != 0 || i < bits.len() - 8,
    ensures
        b8zs_level_at(bits, i) == b8zs_level_at(bits.drop_last(), i),
{
    let n = bits.len() as int;
    let shorter = bits.drop_last();
    assert(bits.take(i + 1) =~= shorter.take(i + 1));
    assert(bits.take(n) =~= bits);
    let run = zero_run(bits.take(i + 1)) as int;
    let place = block_place(bits, i, 8);
    assert(place == block_place(shorter, i, 8));
    let end = i + (7 - place);
    if !bits[i] {
        assert(run >= 1);
        assert(0 <= place < 8);
        if end < n - 1 {
            assert(bits.take(end + 1) =~= shorter.take(end + 1));
            assert(in_full_block(bits, i, 8) == in_full_block(shorter, i, 8));
        } else if end == n - 1 {
            assert((run + 7 - place) % 8 == 0);
            assert(!in_full_block(bits, i, 8));
            assert(!in_full_block(shorter, i, 8));
        } else {
            assert(!in_full_block(bits, i, 8));
            assert(!in_full_block(shorter, i, 8));
        }
    }
}

/// The level read off at the last bit is the one that B8ZS sends there.
proof fn lemma_b8zs_pointwise_last(bits: Seq<bool>)
    requires
        bits.len() > 0,
    ensures
        b8zs_levels(bits).len() == bits.len(),
        b8zs_levels(bits)[bits.len() - 1] == b8zs_level_at(bits, bits.len() - 1),
{
    let n = bits.len() as int;
    lemma_b8zs_len(bits);
    lemma_b8zs_len(bits.drop_last());
    lemma_zero_run_bound(bits);
    assert(bits.take(n) =~= bits);
    if !bits.last() {
        let run = zero_run(bits) as int;
        if run % 8 == 0 {
            lemma_b8zs_level_in_last_block(bits, n - 1);
            assert(b8zs_levels(bits)[n - 1] == b8zs_block(bipolar(bits))[7]);
        } else {
            assert(block_place(bits, n - 1, 8) < 7);
            assert(!in_full_block(bits, n - 1, 8));
        }
    }
}

/// The B8ZS signal, level by level: what the retroactive substitution leaves
/// at bit `i` is what `b8zs_level_at` reads off the bits.
pub proof fn lemma_b8zs_pointwise(bits: Seq<bool>, i: int)
    requires
        0 <= i < bits.len(),
    ensures
        b8zs_levels(bits).len() == bits.len(),
        b8zs_levels(bits)[i] == b8zs_level_at(bits, i),
    decreases bits.len(),
{
    let n = bits.len() as int;
    let shorter = bits.drop_last();
    lemma_b8zs_len(bits);
    lemma_b8zs_len(shorter);
    lemma_zero_run_bound(bits);
    if i == n - 1 {
        lemma_b8zs_pointwise_last(bits);
    } else if !bits.last() && zero_run(bits) % 8 == 0 && i >= n - 8 {
        lemma_b8zs_level_in_last_block(bits, i);
        assert(b8zs_levels(bits)[i] == b8zs_block(bipolar(bits))[i - (n - 8)]);
    } else {
        lemma_b8zs_pointwise(shorter, i);
        lemma_b8zs_level_at_grows(bits, i);
        assert(b8zs_levels(bits)[i] == b8zs_levels(shorter)[i]);
    }
}

/// B8ZS keeps the line alive: its signal never rests at `0` for eight levels
/// in a row.
pub proof fn lemma_b8zs_no_eight_zeros(bits: Seq<bool>, i: int)
    requires
        0 <= i,
        i + 8 <= bits.len(),
    ensures
        b8zs_levels(bits).len() == bits.len(),
        exists|k: int| i <= k < i + 8 && b8zs_levels(bits)[k] != 0,
{
    lemma_b8zs_len(bits);
    if forall|k: int| i <= k < i + 8 ==> !bits[k] {
        let run = zero_run(bits.take(i + 1)) as int;
        assert(bits.take(i + 1).last() == bits[i]);
        assert(run >= 1);
        let last = i + (7 - block_place(bits, i, 8));
        lemma_spaces_extend_run(bits, i, last + 1);
        assert(block_place(bits, last, 8) == 7);
        assert(in_full_block(bits, last, 8));
        lemma_b8zs_pointwise(bits, last);
        assert(b8zs_levels(bits)[last] != 0);
    } else {
        let k = choose|k: int| i <= k < i + 8 && bits[k];
        lemma_b8zs_pointwise(bits, k);
    }
}

/// A stretch of spaces from bit `from` on lengthens the run that bit `from`
/// stands in by one for each space.
pub proof fn lemma_spaces_extend_run(bits: Seq<bool>, from: int, to: int)
    requires
        0 <= from < to <= bits.len(),
        forall|k: int| from <= k < to ==> !bits[k],
    ensures
        zero_run(bits.take(to)) == zero_run(bits.take(from + 1)) + (to - from - 1),
    decreases to - from,
{
    if to > from + 1 {
        lemma_spaces_extend_run(bits, from, to - 1);
        assert(bits.take(to).drop_last() =~= bits.take(to - 1));
    }
}

/// The HDB3 level of bit `i`, read off the bits and the state: a mark is the
/// pulse of the flipped toggle; a space in a full block of four is its place
/// in the block of the state that the block began in; any other space is `0`.
pub open spec fn hdb3_level_at(bits: Seq<bool>, i: int) -> i8 {
    if bits[i] {
        pulse(!hdb3_state(bits.take(i)).positive)
    } else if in_full_block(bits, i, 4) {
        hdb3_block(hdb3_state(bits.take(i - block_place(bits, i, 4))))[block_place(bits, i, 4)]
    } else {
        0i8
    }
}

/// Spaces that fill no block leave the state of HDB3 as it is.
pub proof fn lemma_hdb3_state_rests(bits: Seq<bool>, from: int, to: int)
    requires
        0 <= from <= to <= bits.len(),
        forall|k: int| from <= k < to ==> !hdb3_substitutes(bits, k) && !bits[k],
    ensures
        hdb3_state(bits.take(to)) == hdb3_state(bits.take(from)),
    decreases to - from,
{
    if from < to {
        lemma_hdb3_state_rests(bits, from, to - 1);
        assert(bits.take(to).drop_last() =~= bits.take(to - 1));
        assert(!hdb3_substitutes(bits, to - 1));
    }
}

/// The last four bits of a run that just filled a block stand at the places
/// of that block, which is full, and the state has rested since it began.
proof fn lemma_hdb3_level_in_last_block(bits: Seq<bool>, i: int)
    requires
        bits.len() > 0,
        !bits.last(),
        zero_run(bits) % 4 == 0,
        bits.len() - 4 <= i < bits.len(),
    ensures
        0 <= i,
        hdb3_level_at(bits, i) == hdb3_block(hdb3_state(bits.drop_last()))[i - (bits.len() - 4)],
{
    let n = bits.len() as int;
    lemma_zero_run_bound(bits);
    lemma_zero_run_inside(bits, n - 1 - i);
    assert(bits.take(n) =~= bits);
    let run = zero_run(bits.take(i + 1)) as int;
    assert(run == zero_run(bits) - (n - 1 - i));
    assert(block_place(bits, i, 4) == i - (n - 4));
    assert(i + (4 - 1 - block_place(bits, i, 4)) == n - 1);
    assert(in_full_block(bits, i, 4));
    assert forall|k: int| n - 4 <= k < n - 1 implies !hdb3_substitutes(bits, k) && !bits[k] by {
        lemma_zero_run_inside(bits, n - 1 - k);
    }
    lemma_hdb3_state_rests(bits, n - 4, n - 1);
    assert(bits.take(n - 1) =~= bits.drop_last());
}

/// One more bit changes the level read off at an earlier bit only where it
/// fills that bit's block.
proof fn lemma_hdb3_level_at_grows(bits: Seq<bool>, i: int)
    requires
        0 <= i < bits.len() - 1,
        bits.last() || zero_run(bits) % 4 != 0 || i < bits.len() - 4,
    ensures
        hdb3_level_at(bits, i) == hdb3_level_at(bits.drop_last(), i),
{
    let n = bits.len() as int;
    let shorter = bits.drop_last();
    assert(bits.take(i + 1) =~= shorter.take(i + 1));
    assert(bits.take(i) =~= shorter.take(i));
    assert(bits.take(n) =~= bits);
    let run = zero_run(bits.take(i + 1)) as int;
    let place = block_place(bits, i, 4);
    assert(place == block_place(shorter, i, 4));
    let end = i + (3 - place);
    if !bits[i] {
        assert(run >= 1);
        assert(0 <= place < 4);
        lemma_zero_run_bound(bits.take(i + 1));
        assert(bits.take(i - place) =~= shorter.take(i - place));
        if end < n - 1 {
            assert(bits.take(end + 1) =~= shorter.take(end + 1));
            assert(in_full_block(bits, i, 4) == in_full_block(shorter, i, 4));
        } else if end == n - 1 {
            assert((run + 3 - place) % 4 == 0);
            assert(!in_full_block(bits, i, 4));
            assert(!in_full_block(shorter, i, 4));
        } else {
            assert(!in_full_block(bits, i, 4));
            assert(!in_full_block(shorter, i, 4));
        }
    }
}

/// The level read off at the last bit is the one that HDB3 sends there.
proof fn lemma_hdb3_pointwise_last(bits: Seq<bool>)
    requires
        bits.len() > 0,
    ensures
        hdb3_levels(bits).len() == bits.len(),
        hdb3_levels(bits)[bits.len() - 1] == hdb3_level_at(bits, bits.len() - 1),
{
    let n = bits.len() as int;
    lemma_hdb3_len(bits);
    lemma_hdb3_len(bits.drop_last());
    lemma_zero_run_bound(bits);
    assert(bits.take(n) =~= bits);
    assert(bits.take(n - 1) =~= bits.drop_last());
    if !bits.last() {
        let run = zero_run(bits) as int;
        if run % 4 == 0 {
            lemma_hdb3_level_in_last_block(bits, n - 1);
            assert(hdb3_levels(bits)[n - 1] == hdb3_block(hdb3_state(bits.drop_last()))[3]);
        } else {
            assert(block_place(bits, n - 1, 4) < 3);
            assert(!in_full_block(bits, n - 1, 4));
        }
    }
}

/// The HDB3 signal, level by level: what the retroactive substitution leaves
/// at bit `i` is what `hdb3_level_at` reads off the bits and the state.
pub proof fn lemma_hdb3_pointwise(bits: Seq<bool>, i: int)
    requires
        0 <= i < bits.len(),
    ensures
        hdb3_levels(bits).len() == bits.len(),
        hdb3_levels(bits)[i] == hdb3_level_at(bits, i),
    decreases bits.len(),
{
    let n = bits.len() as int;
    let shorter = bits.drop_last();
    lemma_hdb3_len(bits);
    lemma_hdb3_len(shorter);
    lemma_zero_run_bound(bits);
    if i == n - 1 {
        lemma_hdb3_pointwise_last(bits);
    } else if !bits.last() && zero_run(bits) % 4 == 0 && i >= n - 4 {
        lemma_hdb3_level_in_last_block(bits, i);
        assert(hdb3_levels(bits)[i] == hdb3_block(hdb3_state(shorter))[i - (n - 4)]);
    } else {
        lemma_hdb3_pointwise(shorter, i);
        lemma_hdb3_level_at_grows(bits, i);
        assert(hdb3_levels(bits)[i] == hdb3_levels(shorter)[i]);
    }
}

/// HDB3 keeps the line alive: its signal never rests at `0` for four levels
/// in a row.
pub proof fn lemma_hdb3_no_four_zeros(bits: Seq<bool>, i: int)
    requires
        0 <= i,
        i + 4 <= bits.len(),
    ensures
        hdb3_levels(bits).len() == bits.len(),
        exists|k: int| i <= k < i + 4 && hdb3_levels(bits)[k] != 0,
{
    lemma_hdb3_len(bits);
    if forall|k: int| i <= k < i + 4 ==> !bits[k] {
        let run = zero_run(bits.take(i + 1)) as int;
        assert(bits.take(i + 1).last() == bits[i]);
        assert(run >= 1);
        let last = i + (3 - block_place(bits, i, 4));
        lemma_spaces_extend_run(bits, i, last + 1);
        assert(block_place(bits, last, 4) == 3);
        assert(in_full_block(bits, last, 4));
        lemma_hdb3_pointwise(bits, last);
        assert(hdb3_levels(bits)[last] != 0);
    } else {
        let k = choose|k: int| i <= k < i + 4 && bits[k];
        lemma_hdb3_pointwise(bits, k);
    }
}

} // verus!
