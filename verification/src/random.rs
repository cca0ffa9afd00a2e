//! Random draws, taken from the `rand` crate's standard generator.
//!
//! The generator yields 32-bit words. The library uses the top 24 bits of
//! a word as a fraction of the unit interval, which is the resolution at
//! which the generator's own single-precision sampling works.

use vstd::prelude::*;
use rand::rngs::StdRng;
use rand::Rng;

verus! {

/// `rand::rngs::StdRng`, carried through verified code as an opaque value.
#[verifier::external_type_specification]
#[verifier::external_body]
pub struct ExStdRng(rand::rngs::StdRng);

/// One more than the largest fraction: a fraction `k` stands for the
/// number `k / UNIT` of the half-open unit interval.
pub const UNIT: u32 = 0x100_0000;

/// Draws after which the search for a random point in a ball or a disc
/// gives up and takes the centre. A draw fails with a probability below
/// one half, so the centre is all but never taken.
pub const MAX_DRAWS: u32 = 128;

/// Trusted: calls `rand::Rng::gen::<u32>` on the generator, which hands
/// out the generator's next 32-bit word. Nothing is claimed of the word.
#[verifier::external_body]
pub(crate) fn next_word(rng: &mut StdRng) -> (word: u32) {
    rng.gen::<u32>()
}

/// The fraction that a generator word stands for: its top 24 bits.
pub open spec fn fraction(word: u32) -> u32 {
    (word / 256) as u32
}

/// Takes the fraction of a generator word.
pub fn fraction_of_word(word: u32) -> (k: u32)
    ensures
        k == fraction(word),
        k < UNIT,
{
    assert(word >> 8 == word / 256) by (bit_vector);
    word >> 8
}

/// A displacement on the lattice whose step is `1 / UNIT` along each axis.
#[derive(Clone, Copy, Debug, PartialEq, Eq, Structural)]
pub struct Offset {
    pub x: i32,
    pub y: i32,
    pub z: i32,
}

impl Offset {
    /// The squared length, in squared lattice steps.
    pub open spec fn squared_length(&self) -> int {
        self.x * self.x + self.y * self.y + self.z * self.z
    }

    /// Whether the displacement is shorter than one: strictly inside the
    /// unit ball.
    pub open spec fn in_unit_ball(&self) -> bool {
        self.squared_length() < 0x1_0000_0000_0000
    }

    /// Decides whether the displacement is shorter than one.
    pub fn is_in_unit_ball(&self) -> (r: bool)
        ensures
            r == self.in_unit_ball(),
    {
        let x: i128 = self.x as i128;
        let y: i128 = self.y as i128;
        let z: i128 = self.z as i128;
        assert(0 <= x * x <= 0x4000_0000_0000_0000) by (nonlinear_arith)
            requires
                -0x8000_0000 <= x <= 0x8000_0000,
        ;
        assert(0 <= y * y <= 0x4000_0000_0000_0000) by (nonlinear_arith)
            requires
                -0x8000_0000 <= y <= 0x8000_0000,
        ;
        assert(0 <= z * z <= 0x4000_0000_0000_0000) by (nonlinear_arith)
            requires
                -0x8000_0000 <= z <= 0x8000_0000,
        ;
        let limit: i128 = 0x100_0000 * 0x100_0000;
        x * x + y * y + z * z < limit
    }
}

/// The coordinate that a generator word stands for: its fraction
/// stretched from the unit interval to the interval from -1 to 1, in
/// lattice steps.
pub open spec fn coordinate(word: u32) -> int {
    2 * fraction(word) - UNIT
}

/// Turns a generator word into a coordinate between -1 and 1.
pub fn coordinate_of_word(word: u32) -> (c: i32)
    ensures
        c == coordinate(word),
        -UNIT <= c < UNIT,
{
    let k = fraction_of_word(word);
    let c: i32 = 2 * (k as i32) - 0x100_0000;
    c
}

/// Draws a fraction of the unit interval.
pub fn rnd_fraction(rng: &mut StdRng) -> (k: u32)
    ensures
        k < UNIT,
{
    let word = next_word(rng);
    fraction_of_word(word)
}

} // verus!
