//! The random point on the lens from which a camera ray starts.

use vstd::prelude::*;
use rand::rngs::StdRng;
use crate::random::{coordinate, coordinate_of_word, next_word, Offset, MAX_DRAWS};

verus! {

/// The point that two generator words offer to the search: the point of
/// the square from -1 to 1 that they stand for, if it lies strictly
/// inside the unit disc, else nothing.
pub open spec fn disc_point(wx: u32, wy: u32) -> Option<Offset> {
    let p = Offset { x: coordinate(wx) as i32, y: coordinate(wy) as i32, z: 0 };
    if p.in_unit_ball() {
        Some(p)
    } else {
        None
    }
}

/// One step of rejection sampling in the unit disc.
pub fn disc_candidate(wx: u32, wy: u32) -> (r: Option<Offset>)
    ensures
        r == disc_point(wx, wy),
{
    let p = Offset { x: coordinate_of_word(wx), y: coordinate_of_word(wy), z: 0 };
    if p.is_in_unit_ball() {
        Some(p)
    } else {
        None
    }
}

/// Draws a random point strictly inside the unit disc of the lens plane,
/// by rejection from the enclosing square.
pub fn rnd_vec_in_disc(rng: &mut StdRng) -> (p: Offset)
    ensures
        p.z == 0,
        p.in_unit_ball(),
        exists|wx: u32, wy: u32| #[trigger] disc_point(wx, wy) == Some(p),
{
    let mut draws: u32 = 0;
    while draws < MAX_DRAWS
        invariant
            draws <= MAX_DRAWS,
        decreases MAX_DRAWS - draws,
    {
        let wx = next_word(rng);
        let wy = next_word(rng);
        match disc_candidate(wx, wy) {
            Some(p) => {
                return p;
            },
            None => {},
        }
        draws = draws + 1;
    }
    let centre = Offset { x: 0, y: 0, z: 0 };
    proof {
        let half: u32 = 0x8000_0000;
        assert(coordinate(half) == 0);
        assert(centre.in_unit_ball());
        assert(disc_point(half, half) == Some(centre));
    }
    centre
}

} // verus!
