//! Line coding of bit strings: reading the text, and the one entry point that
//! dispatches on the line code.

pub mod encoding;
pub mod scramble;

use vstd::prelude::*;
use vstd::string::StrSliceExecFns;
use vstd::std_specs::iter::IteratorSpec;
use crate::encoding::{
    ami_encoder, ami_levels, manchester_differential_encoder, manchester_differential_levels,
    manchester_encoder, manchester_levels, nrzi_encoder, nrzi_levels, nrzl_encoder, nrzl_levels,
    Encodings,
};
use crate::scramble::{b8zs_encoder, b8zs_levels, hdb3_encoder, hdb3_levels};
use crate::digital::scramble::Scrambling;

verus! {

/// A bit string held a character other than `'0'` and `'1'`.
#[derive(Copy, Clone, Debug, PartialEq, Eq, Structural)]
pub struct InvalidSymbol {
    /// The index, in characters, of the first such character.
    pub position: usize,
}

/// What the user chose for the digital signal. The line codes of
/// `digital::encoding` read the bit string and the zero substitution from it
/// and encode under their own rule, whatever `encoding` names.
pub struct DigitalSettings {
    pub binary_stream: String,
    pub encoding: Encodings,
    pub scrambling: Scrambling,
}

/// Whether `c` is one of the two symbols of a bit string.
pub open spec fn is_bit(c: char) -> bool {
    c == '0' || c == '1'
}

/// Whether `text` is a bit string.
pub open spec fn valid_bits(text: Seq<char>) -> bool {
    forall|i: int| 0 <= i < text.len() ==> is_bit(#[trigger] text[i])
}

/// The bits that `text` spells: a mark for each `'1'`.
pub open spec fn bits_of(text: Seq<char>) -> Seq<bool> {
    Seq::new(text.len(), |i: int| text[i] == '1')
}

/// Whether `position` is where `text` first leaves the alphabet of bits.
pub open spec fn first_invalid(text: Seq<char>, position: int) -> bool {
    &&& 0 <= position < text.len()
    &&& !is_bit(text[position])
    &&& valid_bits(text.take(position))
}

/// What reading `text` owes: its bits when it is a bit string, else the place
/// of its first foreign character.
pub open spec fn parsed(text: Seq<char>, r: Result<Vec<bool>, InvalidSymbol>) -> bool {
    match r {
        Ok(bits) => valid_bits(text) && bits@ == bits_of(text),
        Err(e) => first_invalid(text, e.position as int),
    }
}

/// What encoding `text` owes: `levels` when it is a bit string, else the
/// place of its first foreign character.
pub open spec fn encoded(
    text: Seq<char>,
    levels: Seq<i8>,
    r: Result<Vec<i8>, InvalidSymbol>,
) -> bool {
    match r {
        Ok(signal) => valid_bits(text) && signal@ == levels,
        Err(e) => first_invalid(text, e.position as int),
    }
}

/// A text with a first foreign character is no bit string.
pub proof fn lemma_first_invalid_excludes_valid(text: Seq<char>, position: int)
    requires
        first_invalid(text, position),
    ensures
        !valid_bits(text),
{
}

/// A text leaves the alphabet of bits for the first time at one place only,
/// so the error that reading it gives is determined.
pub proof fn lemma_first_invalid_unique(text: Seq<char>, p: int, q: int)
    requires
        first_invalid(text, p),
        first_invalid(text, q),
    ensures
        p == q,
{
    if p < q {
        assert(text.take(q)[p] == text[p]);
    } else if q < p {
        assert(text.take(p)[q] == text[q]);
    }
}

/// Reads a bit string.
pub fn parse_bits(data: &str) -> (r: Result<Vec<bool>, InvalidSymbol>)
    ensures
        parsed(data@, r),
        r is Ok <==> valid_bits(data@),
{
    broadcast use vstd::string::group_string_axioms;

    let n = data.unicode_len();
    let mut bits: Vec<bool> = Vec::new();
    let mut chars = data.chars();
    let mut i: usize = 0;
    while i < n
        invariant
            i <= n,
            n == data@.len(),
            chars.obeys_prophetic_iter_laws(),
            chars.remaining() == data@.skip(i as int),
            valid_bits(data@.take(i as int)),
            bits@ == bits_of(data@.take(i as int)),
        decreases n - i,
    {
        match chars.next() {
            Some(c) => {
                if c == '1' {
                    bits.push(true);
                } else if c == '0' {
                    bits.push(false);
                } else {
                    return Err(InvalidSymbol { position: i });
                }
                proof {
                    assert(data@.skip(i as int).drop_first() =~= data@.skip(i + 1));
                    assert(bits@ =~= bits_of(data@.take(i + 1)));
                }
            },
            None => {
                // Not reached: the iterator holds a character for every index below `n`.
                return Err(InvalidSymbol { position: i });
            },
        }
        i += 1;
    }
    assert(data@.take(i as int) =~= data@);
    Ok(bits)
}

/// The line signal of `bits` under `scheme`; `scrambling` bears on AMI only.
pub open spec fn line_levels(bits: Seq<bool>, scheme: Encodings, scrambling: Scrambling) -> Seq<
    i8,
> {
    match scheme {
        Encodings::NRZL => nrzl_levels(bits),
        Encodings::NRZI => nrzi_levels(bits),
        Encodings::Manchester => manchester_levels(bits),
        Encodings::ManchesterDifferential => manchester_differential_levels(bits),
        Encodings::AMI => scrambled_levels(bits, scrambling),
    }
}

/// The AMI line signal of `bits` under `scheme`.
pub open spec fn scrambled_levels(bits: Seq<bool>, scheme: Scrambling) -> Seq<i8> {
    match scheme {
        Scrambling::Off => ami_levels(bits),
        Scrambling::B8ZS => b8zs_levels(bits),
        Scrambling::HDB3 => hdb3_levels(bits),
    }
}

/// Encodes parsed bits in AMI under `scheme`.
pub fn scramble_bits(bits: &Vec<bool>, scheme: Scrambling) -> (signal: Vec<i8>)
    ensures
        signal@ == scrambled_levels(bits@, scheme),
        signal@.len() == bits@.len(),
{
    match scheme {
        Scrambling::Off => ami_encoder(bits),
        Scrambling::B8ZS => b8zs_encoder(bits),
        Scrambling::HDB3 => hdb3_encoder(bits),
    }
}

/// Encodes the bit string `bits` under `scheme`. Fails, without a signal, on
/// a text that is no bit string; the empty string gives the empty signal.
pub fn encode(bits: &str, scheme: Encodings, scrambling: Scrambling) -> (r: Result<
    Vec<i8>,
    InvalidSymbol,
>)
    ensures
        encoded(bits@, line_levels(bits_of(bits@), scheme, scrambling), r),
        r is Ok <==> valid_bits(bits@),
{
    match parse_bits(bits) {
        Err(e) => Err(e),
        Ok(parsed) => Ok(
            match scheme {
                Encodings::NRZL => nrzl_encoder(&parsed),
                Encodings::NRZI => nrzi_encoder(&parsed),
                Encodings::Manchester => manchester_encoder(&parsed),
                Encodings::ManchesterDifferential => manchester_differential_encoder(&parsed),
                Encodings::AMI => scramble_bits(&parsed, scrambling),
            },
        ),
    }
}

impl DigitalSettings {
    /// Encodes the bit string of these settings under the line code and the
    /// zero substitution that they name.
    pub fn encode(&self) -> (r: Result<Vec<i8>, InvalidSymbol>)
        ensures
            encoded(
                self.binary_stream@,
                line_levels(bits_of(self.binary_stream@), self.encoding, self.scrambling),
                r,
            ),
            r is Ok <==> valid_bits(self.binary_stream@),
    {
        encode(self.binary_stream.as_str(), self.encoding, self.scrambling)
    }
}

} // verus!
