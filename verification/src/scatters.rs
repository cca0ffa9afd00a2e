//! What a material does with a ray, and the random point it may need.
//!
//! A diffuse surface always scatters. A metal scatters the mirrored ray
//! unless fuzz has bent it into the surface. Glass mirrors the ray where
//! it cannot refract it, and otherwise mirrors it with the probability
//! that its reflectance gives and refracts it else.

use vstd::prelude::*;
use vstd::arithmetic::power2::pow2;
use rand::rngs::StdRng;
use crate::random::{
    coordinate, coordinate_of_word, fraction, fraction_of_word, next_word, Offset, MAX_DRAWS,
};
use crate::scalar::{value, Scalar};

verus! {

/// The point of the cube from -1 to 1 that three generator words stand
/// for.
pub open spec fn cube_point(wx: u32, wy: u32, wz: u32) -> Offset {
    Offset { x: coordinate(wx) as i32, y: coordinate(wy) as i32, z: coordinate(wz) as i32 }
}

/// The point that three generator words offer to the search: their cube
/// point if it lies strictly inside the unit ball, else nothing.
pub open spec fn ball_point(wx: u32, wy: u32, wz: u32) -> Option<Offset> {
    if cube_point(wx, wy, wz).in_unit_ball() {
        Some(cube_point(wx, wy, wz))
    } else {
        None
    }
}

/// One step of rejection sampling in the unit ball.
pub fn sphere_candidate(wx: u32, wy: u32, wz: u32) -> (r: Option<Offset>)
    ensures
        r == ball_point(wx, wy, wz),
{
    let p = Offset {
        x: coordinate_of_word(wx),
        y: coordinate_of_word(wy),
        z: coordinate_of_word(wz),
    };
    if p.is_in_unit_ball() {
        Some(p)
    } else {
        None
    }
}

/// Draws a random point strictly inside the unit ball, by rejection from
/// the enclosing cube.
pub fn rnd_vec_in_sphere(rng: &mut StdRng) -> (p: Offset)
    ensures
        p.in_unit_ball(),
        exists|wx: u32, wy: u32, wz: u32| #[trigger] ball_point(wx, wy, wz) == Some(p),
{
    let mut draws: u32 = 0;
    while draws < MAX_DRAWS
        invariant
            draws <= MAX_DRAWS,
        decreases MAX_DRAWS - draws,
    {
        let wx = next_word(rng);
        let wy = next_word(rng);
        let wz = next_word(rng);
        match sphere_candidate(wx, wy, wz) {
            Some(p) => {
                return p;
            },
            None => {},
        }
        draws = draws + 1;
    }
    let centre = Offset { x: 0, y: 0, z: 0 };
    proof {
        let half: u32 = 0x8000_0000;
        assert(coordinate(half) == 0);
        assert(cube_point(half, half, half) == centre);
        assert(centre.in_unit_ball());
        assert(ball_point(half, half, half) == Some(centre));
    }
    centre
}

/// What the outcome of a material depends on, as far as numbers decide
/// it.
#[derive(Clone, Copy, Debug)]
pub enum Encounter {
    /// A diffuse surface.
    Lambertian,
    /// A metal, with the dot product of the outgoing direction and the
    /// surface normal.
    Metal { facing: Scalar },
    /// Glass, with the discriminant of the refraction and the reflectance
    /// at the angle of incidence.
    Dielectric { discriminant: Scalar, reflectance: Scalar },
}

/// What becomes of a ray at a surface.
#[derive(Clone, Copy, Debug, PartialEq, Eq, Structural)]
pub enum Scatter {
    /// The ray ends here.
    Absorbed,
    /// The ray leaves in a random direction about the normal.
    Diffused,
    /// The ray leaves mirrored.
    Reflected,
    /// The ray passes through, bent.
    Refracted,
}

/// Whether the fraction of a generator word, as a number of the unit
/// interval, is smaller than `limit`.
pub open spec fn draw_below(word: u32, limit: Scalar) -> bool {
    limit.is_number() && fraction(word) * pow2(125) < value(limit@)
}

/// The rule of the materials. The word is looked at only by glass that
/// can refract.
pub open spec fn scatter_rule(encounter: Encounter, word: u32) -> Scatter {
    match encounter {
        Encounter::Lambertian => Scatter::Diffused,
        Encounter::Metal { facing } => if facing.positive() {
            Scatter::Reflected
        } else {
            Scatter::Absorbed
        },
        Encounter::Dielectric { discriminant, reflectance } => if !discriminant.positive() {
            Scatter::Reflected
        } else if draw_below(word, reflectance) {
            Scatter::Reflected
        } else {
            Scatter::Refracted
        },
    }
}

/// Applies the rule of the materials with a given generator word.
pub fn scatter_with(encounter: Encounter, word: u32) -> (s: Scatter)
    ensures
        s == scatter_rule(encounter, word),
{
    match encounter {
        Encounter::Lambertian => Scatter::Diffused,
        Encounter::Metal { facing } => {
            if facing.is_positive() {
                Scatter::Reflected
            } else {
                Scatter::Absorbed
            }
        },
        Encounter::Dielectric { discriminant, reflectance } => {
            if !discriminant.is_positive() {
                Scatter::Reflected
            } else {
                let draw = Scalar::fraction(fraction_of_word(word));
                if draw.lt(&reflectance) {
                    Scatter::Reflected
                } else {
                    Scatter::Refracted
                }
            }
        },
    }
}

/// Applies the rule of the materials, drawing from the generator where
/// the rule asks for chance.
pub fn scatter(rng: &mut StdRng, encounter: Encounter) -> (s: Scatter)
    ensures
        exists|word: u32| s == #[trigger] scatter_rule(encounter, word),
{
    let word = match encounter {
        Encounter::Dielectric { discriminant, .. } => {
            if discriminant.is_positive() {
                next_word(rng)
            } else {
                0
            }
        },
        _ => 0,
    };
    let s = scatter_with(encounter, word);
    assert(s == scatter_rule(encounter, word));
    s
}

/// Law: a diffuse surface always scatters, whatever the chance.
pub proof fn lemma_lambertian_scatters(word: u32)
    ensures
        scatter_rule(Encounter::Lambertian, word) == Scatter::Diffused,
{
}

/// Law: a metal absorbs exactly the rays that do not leave its surface.
pub proof fn lemma_metal_absorbs(facing: Scalar, word: u32)
    ensures
        scatter_rule(Encounter::Metal { facing }, word) == Scatter::Absorbed <==> !facing.positive(),
        scatter_rule(Encounter::Metal { facing }, word) == Scatter::Reflected <==> facing.positive(),
{
}

/// Law: glass never absorbs, and where refraction is impossible it
/// reflects whatever the chance.
pub proof fn lemma_dielectric_reflects(discriminant: Scalar, reflectance: Scalar, word: u32)
    ensures
        scatter_rule(Encounter::Dielectric { discriminant, reflectance }, word)
            != Scatter::Absorbed,
        !discriminant.positive() ==> scatter_rule(
            Encounter::Dielectric { discriminant, reflectance },
            word,
        ) == Scatter::Reflected,
{
}

} // verus!
