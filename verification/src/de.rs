//! The encodings that a decoder can be asked for.
use vstd::prelude::*;

verus! {

/// An encoding, or a set of encodings, of valuable values.
#[derive(Debug, PartialEq, Eq, Clone, Copy, Structural)]
pub enum Encoding {
    /// The canonic encoding: the one compact encoding of each value that is canonic.
    Canonic,
    /// The compact encoding.
    Compact,
    /// The human-readable encoding.
    HumanReadable,
    /// The human-readable syntax together with what the compact encodings allow.
    Hybrid,
}

impl Encoding {
    /// Whether whitespace and comments may stand before a value.
    pub open spec fn spec_allows_whitespace(self) -> bool {
        self == Encoding::HumanReadable || self == Encoding::Hybrid
    }

    /// Whether whitespace and comments may stand before a value.
    #[verifier::when_used_as_spec(spec_allows_whitespace)]
    pub fn allows_whitespace(self) -> (r: bool)
        ensures
            r == self.spec_allows_whitespace(),
    {
        match self {
            Encoding::Canonic => false,
            Encoding::Compact => false,
            Encoding::HumanReadable => true,
            Encoding::Hybrid => true,
        }
    }

    /// Whether the encoding is the canonic one.
    pub fn is_canonic(self) -> (r: bool)
        ensures
            r == (self == Encoding::Canonic),
    {
        match self {
            Encoding::Canonic => true,
            _ => false,
        }
    }
}

} // verus!
