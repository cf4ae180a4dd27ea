//! The five line codes on bit strings.

use vstd::prelude::*;
use crate::digital::{
    bits_of, encode, encoded, line_levels, valid_bits, DigitalSettings, InvalidSymbol,
};
use crate::encoding::Encodings;

verus! {

/// A line code: a rule that turns a bit string into line levels.
pub trait Encode {
    /// Which of the line codes this is.
    spec fn scheme(&self) -> Encodings;

    /// Encodes the bit string of `settings` with their choice of zero
    /// substitution, which bears on AMI only.
    fn encode(&self, settings: &DigitalSettings) -> (r: Result<Vec<i8>, InvalidSymbol>)
        ensures
            encoded(
                settings.binary_stream@,
                line_levels(bits_of(settings.binary_stream@), self.scheme(), settings.scrambling),
                r,
            ),
            r is Ok <==> valid_bits(settings.binary_stream@),
    ;
}

#[derive(Debug)]
pub struct NRZL;

#[derive(Debug)]
pub struct NRZI;

#[derive(Debug)]
pub struct Manchester;

#[derive(Debug)]
pub struct ManchesterDifferential;

#[derive(Debug)]
pub struct AMI;

impl Encode for NRZL {
    open spec fn scheme(&self) -> Encodings {
        Encodings::NRZL
    }

    fn encode(&self, settings: &DigitalSettings) -> (r: Result<Vec<i8>, InvalidSymbol>) {
        encode(settings.binary_stream.as_str(), Encodings::NRZL, settings.scrambling)
    }
}

impl Encode for NRZI {
    open spec fn scheme(&self) -> Encodings {
        Encodings::NRZI
    }

    fn encode(&self, settings: &DigitalSettings) -> (r: Result<Vec<i8>, InvalidSymbol>) {
        encode(settings.binary_stream.as_str(), Encodings::NRZI, settings.scrambling)
    }
}

impl Encode for Manchester {
    open spec fn scheme(&self) -> Encodings {
        Encodings::Manchester
    }

    fn encode(&self, settings: &DigitalSettings) -> (r: Result<Vec<i8>, InvalidSymbol>) {
        encode(settings.binary_stream.as_str(), Encodings::Manchester, settings.scrambling)
    }
}

impl Encode for ManchesterDifferential {
    open spec fn scheme(&self) -> Encodings {
        Encodings::ManchesterDifferential
    }

    fn encode(&self, settings: &DigitalSettings) -> (r: Result<Vec<i8>, InvalidSymbol>) {
        encode(
            settings.binary_stream.as_str(),
            Encodings::ManchesterDifferential,
            settings.scrambling,
        )
    }
}

impl Encode for AMI {
    open spec fn scheme(&self) -> Encodings {
        Encodings::AMI
    }

    fn encode(&self, settings: &DigitalSettings) -> (r: Result<Vec<i8>, InvalidSymbol>) {
        encode(settings.binary_stream.as_str(), Encodings::AMI, settings.scrambling)
    }
}

} // verus!
