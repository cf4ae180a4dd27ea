//! Zero substitution for AMI on bit strings.

use vstd::prelude::*;
use crate::digital::{
    bits_of, encoded, parse_bits, scramble_bits, scrambled_levels, valid_bits, InvalidSymbol,
};
use crate::digital::encoding::AMI;
use crate::scramble::{b8zs_encoder, b8zs_levels, hdb3_encoder, hdb3_levels};

verus! {

/// The zero-substitution schemes that AMI can be sent with; `Off` is plain AMI.
#[derive(Clone, Copy, Debug, PartialEq, Eq, Structural)]
pub enum Scrambling {
    B8ZS,
    HDB3,
    Off,
}

/// A line code that can be sent with zero substitution.
pub trait Scramble {
    /// Encodes the bit string `data` under `scheme`.
    fn scramble(&self, data: &str, scheme: Scrambling) -> (r: Result<Vec<i8>, InvalidSymbol>)
        ensures
            encoded(data@, scrambled_levels(bits_of(data@), scheme), r),
            r is Ok <==> valid_bits(data@),
    ;
}

impl Scramble for AMI {
    fn scramble(&self, data: &str, scheme: Scrambling) -> (r: Result<Vec<i8>, InvalidSymbol>) {
        match parse_bits(data) {
            Err(e) => Err(e),
            Ok(bits) => Ok(scramble_bits(&bits, scheme)),
        }
    }
}

/// Encodes the bit string `data` in AMI with B8ZS zero substitution.
pub fn b8zs(data: &str) -> (r: Result<Vec<i8>, InvalidSymbol>)
    ensures
        encoded(data@, b8zs_levels(bits_of(data@)), r),
        r is Ok <==> valid_bits(data@),
{
    match parse_bits(data) {
        Err(e) => Err(e),
        Ok(bits) => Ok(b8zs_encoder(&bits)),
    }
}

/// Encodes the bit string `data` in AMI with HDB3 zero substitution.
pub fn hdb3(data: &str) -> (r: Result<Vec<i8>, InvalidSymbol>)
    ensures
        encoded(data@, hdb3_levels(bits_of(data@)), r),
        r is Ok <==> valid_bits(data@),
{
    match parse_bits(data) {
        Err(e) => Err(e),
        Ok(bits) => Ok(hdb3_encoder(&bits)),
    }
}

} // verus!
