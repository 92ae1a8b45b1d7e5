use vstd::prelude::*;

verus! {

/// How the distance between two vectors is measured. In every case a smaller
/// distance ranks as a closer match.
#[derive(Debug, Clone, Copy, PartialEq, Eq, Structural)]
pub enum DistanceMetric {
    /// `1 - cos(a, b)`.
    Cosine,
    /// The L2 norm of `a - b`.
    Euclidean,
    /// `-<a, b>`.
    DotProduct,
}

impl DistanceMetric {
    /// Whether the raw similarity behind this metric grows with closeness.
    pub fn higher_is_better(&self) -> (r: bool)
        ensures
            r <==> (*self == DistanceMetric::Cosine || *self == DistanceMetric::DotProduct),
    {
        match self {
            DistanceMetric::Cosine => true,
            DistanceMetric::Euclidean => false,
            DistanceMetric::DotProduct => true,
        }
    }
}


/// The rank of a single-precision bit pattern in the total order of IEEE-754
/// values: negative values (sign bit set) rank below positive ones, and among
/// negatives a larger magnitude ranks lower.
pub open spec fn order_key_spec(bits: u32) -> u32 {
    if bits >= 0x8000_0000u32 {
        (0xFFFF_FFFFu32 - bits) as u32
    } else {
        (bits + 0x8000_0000u32) as u32
    }
}

/// Maps a distance, given as its bit pattern, to an integer whose order is the
/// order of the distances.
pub fn order_key(bits: u32) -> (r: u32)
    ensures
        r == order_key_spec(bits),
{
    if bits >= 0x8000_0000u32 {
        0xFFFF_FFFFu32 - bits
    } else {
        bits + 0x8000_0000u32
    }
}

/// Whether a bit pattern encodes a finite value: its exponent field is not all ones.
pub open spec fn is_finite_bits(bits: u32) -> bool {
    (bits / 0x80_0000u32) % 0x100 != 0xFF
}

/// Tests whether a bit pattern encodes a finite value (neither infinite nor NaN).
pub fn bits_are_finite(bits: u32) -> (r: bool)
    ensures
        r == is_finite_bits(bits),
{
    (bits / 0x80_0000u32) % 0x100 != 0xFF
}

} // verus!
