//! Which intersection a ray reports, and the random scene.
//!
//! A sphere offers a ray up to two crossing distances, and the scene offers
//! one candidate for each of its spheres; the rules that pick among them
//! work on the distances as numbers, with nothing rounded.
//!
//! A scene is planned from a stream of generator words. Every quantity of
//! the plan is a whole number: a grid cell, or a fraction of the unit
//! interval counted in steps of `1 / UNIT`. Whoever renders the plan turns
//! the fractions into coordinates and colours.

use vstd::prelude::*;
use rand::rngs::StdRng;
use crate::random::{fraction, fraction_of_word, next_word, UNIT};
use crate::scalar::Scalar;

verus! {

/// Whether `t` lies strictly inside the open interval from `t_min` to
/// `t_max`.
pub open spec fn inside(t: Scalar, t_min: Scalar, t_max: Scalar) -> bool {
    t_min.below(t) && t.below(t_max)
}

/// The crossing that a sphere reports for a ray: none unless the
/// discriminant of the crossing equation is positive; else the nearer
/// root if it lies inside the interval; else the farther root if that one
/// does; else none.
pub open spec fn reported_root(
    discriminant: Scalar,
    near: Scalar,
    far: Scalar,
    t_min: Scalar,
    t_max: Scalar,
) -> Option<Scalar> {
    if !discriminant.positive() {
        None
    } else if inside(near, t_min, t_max) {
        Some(near)
    } else if inside(far, t_min, t_max) {
        Some(far)
    } else {
        None
    }
}

/// Picks the crossing distance that a sphere reports, given the
/// discriminant and the two roots in increasing order.
pub fn select_root(
    discriminant: Scalar,
    near: Scalar,
    far: Scalar,
    t_min: Scalar,
    t_max: Scalar,
) -> (r: Option<Scalar>)
    ensures
        r == reported_root(discriminant, near, far, t_min, t_max),
{
    if !discriminant.is_positive() {
        None
    } else if t_min.lt(&near) && near.lt(&t_max) {
        Some(near)
    } else if t_min.lt(&far) && far.lt(&t_max) {
        Some(far)
    } else {
        None
    }
}

/// Whether a candidate is a hit: a distance that is a number.
pub open spec fn is_hit(candidate: Option<Scalar>) -> bool {
    candidate matches Some(t) && t.is_number()
}

/// Whether index `i` holds the nearest hit among the candidates: a hit
/// that no other hit undercuts, and the first such.
pub open spec fn is_nearest(candidates: Seq<Option<Scalar>>, i: int) -> bool {
    &&& 0 <= i < candidates.len()
    &&& is_hit(candidates[i])
    &&& forall|j: int|
        0 <= j < candidates.len() && is_hit(#[trigger] candidates[j]) ==> !candidates[j]->0.below(
            candidates[i]->0,
        )
    &&& forall|j: int|
        0 <= j < i && is_hit(#[trigger] candidates[j]) ==> candidates[i]->0.below(candidates[j]->0)
}

/// Finds the nearest hit among the candidates of a scene, one candidate
/// for each sphere in the order of the spheres. Distances are compared as
/// they are, however close. Among equal distances the first wins.
pub fn nearest(candidates: &Vec<Option<Scalar>>) -> (r: Option<usize>)
    ensures
        match r {
            Some(i) => is_nearest(candidates@, i as int),
            None => forall|j: int| 0 <= j < candidates.len() ==> !is_hit(#[trigger] candidates[j]),
        },
{
    let mut best: Option<usize> = None;
    let mut k: usize = 0;
    while k < candidates.len()
        invariant
            k <= candidates.len(),
            match best {
                Some(i) => i < k && is_nearest(candidates@.take(k as int), i as int),
                None => forall|j: int| 0 <= j < k ==> !is_hit(#[trigger] candidates[j]),
            },
        decreases candidates.len() - k,
    {
        let ghost before = candidates@.take(k as int);
        let ghost after = candidates@.take(k + 1);
        assert(forall|j: int| 0 <= j < k ==> before[j] == after[j]);
        let wins = match candidates[k] {
            Some(t) => !t.is_nan() && match best {
                Some(i) => match candidates[i] {
                    Some(least) => t.lt(&least),
                    None => false,
                },
                None => true,
            },
            None => false,
        };
        if wins {
            best = Some(k);
        }
        assert(best matches Some(i) ==> is_nearest(after, i as int));
        k = k + 1;
    }
    assert(candidates@.take(k as int) == candidates@);
    best
}

/// The closed set of materials.
#[derive(Clone, Copy, Debug, PartialEq, Eq, Structural)]
pub enum MaterialKind {
    Lambertian,
    Metal,
    Dielectric,
}

/// Cells of the grid of small spheres, which has 22 cells along each side.
pub const GRID_CELLS: usize = 484;

/// Generator words that a whole scene takes: nine for each cell, whether
/// the cell uses them or not, and one for the large metal sphere.
pub const SCENE_WORDS: usize = 4357;

/// Where a small sphere sits: in the cell `(cell_x, cell_z)`, moved from the
/// cell's corner by nine tenths of each shift fraction. Its centre is at
/// `x = cell_x + 0.9 * shift_x / UNIT`, `z = cell_z + 0.9 * shift_z / UNIT`,
/// at the height of the small spheres' radius.
#[derive(Clone, Copy, Debug, PartialEq, Eq, Structural)]
pub struct Placement {
    pub cell_x: i32,
    pub cell_z: i32,
    pub shift_x: u32,
    pub shift_z: u32,
}

impl Placement {
    /// The centre's `x`, in units of `1 / (10 * UNIT)`.
    pub open spec fn scaled_x(&self) -> int {
        0xa00_0000 * self.cell_x + 9 * self.shift_x
    }

    /// The centre's `z`, in units of `1 / (10 * UNIT)`.
    pub open spec fn scaled_z(&self) -> int {
        0xa00_0000 * self.cell_z + 9 * self.shift_z
    }

    /// The exclusion rule: the centre lies farther than nine tenths from
    /// the spot `(4, 0)` that is reserved for a large sphere. In the units
    /// of the scaled coordinates the spot lies at `40 * UNIT` and the
    /// distance is `9 * UNIT`.
    pub open spec fn clear(&self) -> bool {
        let dx = self.scaled_x() - 0x2800_0000;
        let dz = self.scaled_z();
        dx * dx + dz * dz > 0x51_0000_0000_0000
    }

    /// Decides the exclusion rule.
    pub fn is_clear(&self) -> (r: bool)
        ensures
            r == self.clear(),
    {
        let cx: i128 = self.cell_x as i128;
        let cz: i128 = self.cell_z as i128;
        let sx: i128 = self.shift_x as i128;
        let sz: i128 = self.shift_z as i128;
        let dx: i128 = 0xa00_0000 * cx + 9 * sx - 0x2800_0000;
        let dz: i128 = 0xa00_0000 * cz + 9 * sz;
        assert(-0x1000_0000_0000_0000 < dx < 0x1000_0000_0000_0000);
        assert(-0x1000_0000_0000_0000 < dz < 0x1000_0000_0000_0000);
        assert(0 <= dx * dx < 0x100_0000_0000_0000_0000_0000_0000_0000) by (nonlinear_arith)
            requires
                -0x1000_0000_0000_0000 < dx < 0x1000_0000_0000_0000,
        ;
        assert(0 <= dz * dz < 0x100_0000_0000_0000_0000_0000_0000_0000) by (nonlinear_arith)
            requires
                -0x1000_0000_0000_0000 < dz < 0x1000_0000_0000_0000,
        ;
        let limit: i128 = 0x900_0000 * 0x900_0000;
        dx * dx + dz * dz > limit
    }
}

/// Which material a choice fraction selects: a diffuse one below eight
/// tenths, a metal below ninety-five hundredths, glass from there on.
pub open spec fn material_for(choice: u32) -> MaterialKind {
    if 5 * choice < 4 * 0x100_0000 {
        MaterialKind::Lambertian
    } else if 20 * choice < 19 * 0x100_0000 {
        MaterialKind::Metal
    } else {
        MaterialKind::Dielectric
    }
}

/// Selects the material for a choice fraction.
pub fn choose_material(choice: u32) -> (kind: MaterialKind)
    ensures
        kind == material_for(choice),
{
    let c: u64 = choice as u64;
    if 5 * c < 4 * 0x100_0000 {
        MaterialKind::Lambertian
    } else if 20 * c < 19 * 0x100_0000 {
        MaterialKind::Metal
    } else {
        MaterialKind::Dielectric
    }
}

/// The fractions from which a small sphere's material is made up.
#[derive(Clone, Copy, Debug, PartialEq, Eq, Structural)]
pub enum Coating {
    /// Each colour channel is the product of its two fractions.
    Lambertian { red_a: u32, red_b: u32, green_a: u32, green_b: u32, blue_a: u32, blue_b: u32 },
    /// Each colour channel is half of one plus its fraction; the fuzz is
    /// half of its fraction.
    Metal { red: u32, green: u32, blue: u32, fuzz: u32 },
    /// Glass, which has nothing to draw.
    Dielectric,
}

impl Coating {
    /// The material that this coating belongs to.
    pub open spec fn kind(&self) -> MaterialKind {
        match self {
            Coating::Lambertian { .. } => MaterialKind::Lambertian,
            Coating::Metal { .. } => MaterialKind::Metal,
            Coating::Dielectric => MaterialKind::Dielectric,
        }
    }

    /// Tells the material of this coating.
    pub fn material(&self) -> (kind: MaterialKind)
        ensures
            kind == self.kind(),
    {
        match self {
            Coating::Lambertian { .. } => MaterialKind::Lambertian,
            Coating::Metal { .. } => MaterialKind::Metal,
            Coating::Dielectric => MaterialKind::Dielectric,
        }
    }
}

/// One small sphere of the plan.
#[derive(Clone, Copy, Debug, PartialEq, Eq, Structural)]
pub struct SmallSphere {
    pub placement: Placement,
    /// The fraction that selected the material.
    pub choice: u32,
    pub coating: Coating,
}

/// The coating that six material words give for a material.
pub open spec fn coating_for(kind: MaterialKind, w: Seq<u32>) -> Coating {
    match kind {
        MaterialKind::Lambertian => Coating::Lambertian {
            red_a: fraction(w[0]),
            red_b: fraction(w[1]),
            green_a: fraction(w[2]),
            green_b: fraction(w[3]),
            blue_a: fraction(w[4]),
            blue_b: fraction(w[5]),
        },
        MaterialKind::Metal => Coating::Metal {
            red: fraction(w[0]),
            green: fraction(w[1]),
            blue: fraction(w[2]),
            fuzz: fraction(w[3]),
        },
        MaterialKind::Dielectric => Coating::Dielectric,
    }
}

/// The placement that the words give to cell number `c`. Cells are
/// numbered row by row, and both cell coordinates run from -11 to 10.
pub open spec fn cell_placement(words: Seq<u32>, c: int) -> Placement {
    Placement {
        cell_x: (c / 22 - 11) as i32,
        cell_z: (c % 22 - 11) as i32,
        shift_x: fraction(words[9 * c]),
        shift_z: fraction(words[9 * c + 1]),
    }
}

/// What the words make of cell number `c`: nothing where the placement
/// breaks the exclusion rule, else a sphere whose material the third word
/// selects and the last six words fill in.
pub open spec fn cell_sphere(words: Seq<u32>, c: int) -> Option<SmallSphere> {
    let placement = cell_placement(words, c);
    let choice = fraction(words[9 * c + 2]);
    if placement.clear() {
        Some(
            SmallSphere {
                placement,
                choice,
                coating: coating_for(material_for(choice), words.subrange(9 * c + 3, 9 * c + 9)),
            },
        )
    } else {
        None
    }
}

/// The small spheres of the first `n` cells, in the order of the cells.
pub open spec fn planned_spheres(words: Seq<u32>, n: nat) -> Seq<SmallSphere>
    decreases n,
{
    if n == 0 {
        Seq::empty()
    } else {
        let before = planned_spheres(words, (n - 1) as nat);
        match cell_sphere(words, n - 1) {
            Some(sphere) => before.push(sphere),
            None => before,
        }
    }
}

/// The number of the cell that a placement sits in.
pub open spec fn cell_number(p: Placement) -> int {
    (p.cell_x + 11) * 22 + (p.cell_z + 11)
}

/// What holds of every sphere that the first `n` cells can give: it sits
/// in one of those cells, its shifts and its choice are fractions, it
/// keeps clear of the reserved spot, and its coating is of the material
/// that its choice selects.
pub open spec fn sound_sphere(sphere: SmallSphere, n: nat) -> bool {
    &&& -11 <= sphere.placement.cell_x <= 10
    &&& -11 <= sphere.placement.cell_z <= 10
    &&& cell_number(sphere.placement) < n
    &&& sphere.placement.shift_x < UNIT
    &&& sphere.placement.shift_z < UNIT
    &&& sphere.placement.clear()
    &&& sphere.choice < UNIT
    &&& sphere.coating.kind() == material_for(sphere.choice)
}

/// Law: whatever the words, a plan holds at most one sphere for each
/// cell, in the order of the cells, and every sphere of it keeps clear of
/// the reserved spot.
pub proof fn lemma_plan_sound(words: Seq<u32>, n: nat)
    requires
        n <= GRID_CELLS,
    ensures
        planned_spheres(words, n).len() <= n,
        forall|i: int|
            0 <= i < planned_spheres(words, n).len() ==> sound_sphere(
                #[trigger] planned_spheres(words, n)[i],
                n,
            ),
        forall|i: int, j: int|
            0 <= i < j < planned_spheres(words, n).len() ==> cell_number(
                (#[trigger] planned_spheres(words, n)[i]).placement,
            ) < cell_number((#[trigger] planned_spheres(words, n)[j]).placement),
    decreases n,
{
    if n > 0 {
        let c = (n - 1) as int;
        lemma_plan_sound(words, (n - 1) as nat);
        let before = planned_spheres(words, (n - 1) as nat);
        match cell_sphere(words, c) {
            Some(sphere) => {
                assert(cell_number(sphere.placement) == c);
                assert(sound_sphere(sphere, n));
            },
            None => {},
        }
    }
}

/// Law: a plan leaves out no cell whose placement keeps clear of the
/// reserved spot.
pub proof fn lemma_plan_complete(words: Seq<u32>, n: nat, c: int)
    requires
        0 <= c < n,
        cell_sphere(words, c) is Some,
    ensures
        exists|i: int|
            0 <= i < planned_spheres(words, n).len() && #[trigger] planned_spheres(words, n)[i]
                == cell_sphere(words, c)->0,
    decreases n,
{
    let before = planned_spheres(words, (n - 1) as nat);
    let all = planned_spheres(words, n);
    if c == n - 1 {
        assert(all[all.len() - 1] == cell_sphere(words, c)->0);
    } else {
        lemma_plan_complete(words, (n - 1) as nat, c);
        let i = choose|i: int|
            0 <= i < before.len() && #[trigger] before[i] == cell_sphere(words, c)->0;
        assert(all[i] == before[i]);
    }
}

/// A planned scene: the small spheres, and the fraction whose half is the
/// fuzz of the large metal sphere. The other large spheres are fixed.
#[derive(Debug)]
pub struct ScenePlan {
    pub small: Vec<SmallSphere>,
    pub feature_fuzz: u32,
}

/// The scene that a stream of words stands for.
pub open spec fn planned(words: Seq<u32>, plan: ScenePlan) -> bool {
    &&& plan.small@ == planned_spheres(words, GRID_CELLS as nat)
    &&& plan.feature_fuzz == fraction(words[SCENE_WORDS - 1])
}

/// Works out one cell.
fn plan_cell(words: &Vec<u32>, c: usize) -> (r: Option<SmallSphere>)
    requires
        c < GRID_CELLS,
        words.len() >= SCENE_WORDS,
    ensures
        r == cell_sphere(words@, c as int),
{
    let base: usize = 9 * c;
    let cell_x: i32 = (c / 22) as i32 - 11;
    let cell_z: i32 = (c % 22) as i32 - 11;
    let placement = Placement {
        cell_x,
        cell_z,
        shift_x: fraction_of_word(words[base]),
        shift_z: fraction_of_word(words[base + 1]),
    };
    if !placement.is_clear() {
        return None;
    }
    let choice = fraction_of_word(words[base + 2]);
    let coating = match choose_material(choice) {
        MaterialKind::Lambertian => Coating::Lambertian {
            red_a: fraction_of_word(words[base + 3]),
            red_b: fraction_of_word(words[base + 4]),
            green_a: fraction_of_word(words[base + 5]),
            green_b: fraction_of_word(words[base + 6]),
            blue_a: fraction_of_word(words[base + 7]),
            blue_b: fraction_of_word(words[base + 8]),
        },
        MaterialKind::Metal => Coating::Metal {
            red: fraction_of_word(words[base + 3]),
            green: fraction_of_word(words[base + 4]),
            blue: fraction_of_word(words[base + 5]),
            fuzz: fraction_of_word(words[base + 6]),
        },
        MaterialKind::Dielectric => Coating::Dielectric,
    };
    Some(SmallSphere { placement, choice, coating })
}

/// Plans a scene from a stream that is long enough.
fn plan_words(words: &Vec<u32>) -> (plan: ScenePlan)
    requires
        words.len() >= SCENE_WORDS,
    ensures
        planned(words@, plan),
{
    let mut small: Vec<SmallSphere> = Vec::new();
    let mut c: usize = 0;
    while c < GRID_CELLS
        invariant
            c <= GRID_CELLS,
            words.len() >= SCENE_WORDS,
            small@ == planned_spheres(words@, c as nat),
        decreases GRID_CELLS - c,
    {
        match plan_cell(words, c) {
            Some(sphere) => {
                small.push(sphere);
            },
            None => {},
        }
        c = c + 1;
    }
    let feature_fuzz = fraction_of_word(words[SCENE_WORDS - 1]);
    ScenePlan { small, feature_fuzz }
}

/// Plans the scene that a stream of generator words stands for. The stream
/// has to hold `SCENE_WORDS` words; what follows them is not looked at.
pub fn plan_scene(words: &Vec<u32>) -> (r: Option<ScenePlan>)
    ensures
        r is Some <==> words.len() >= SCENE_WORDS,
        r matches Some(plan) ==> planned(words@, plan),
{
    if words.len() < SCENE_WORDS {
        None
    } else {
        Some(plan_words(words))
    }
}

/// Draws the words of a scene from the generator and plans it.
pub fn generate(rng: &mut StdRng) -> (plan: ScenePlan)
    ensures
        exists|words: Seq<u32>| words.len() == SCENE_WORDS && #[trigger] planned(words, plan),
{
    let mut words: Vec<u32> = Vec::new();
    let mut i: usize = 0;
    while i < SCENE_WORDS
        invariant
            i <= SCENE_WORDS,
            words.len() == i,
        decreases SCENE_WORDS - i,
    {
        let word = next_word(rng);
        words.push(word);
        i = i + 1;
    }
    plan_words(&words)
}

} // verus!
