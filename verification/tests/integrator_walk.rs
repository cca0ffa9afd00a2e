use rust_raytracer::integrator::{Phase, Tracer, MAX_DEPTH};

#[test]
fn the_walk_starts_casting_at_level_zero() {
    let t = Tracer::start();
    assert_eq!(t, Tracer { phase: Phase::Casting, depth: 0 });
    assert!(!t.is_done());
}

#[test]
fn a_ray_that_escapes_sees_the_background() {
    let t = Tracer::start().advance(false);
    assert_eq!(t, Tracer { phase: Phase::Background, depth: 0 });
    assert!(t.is_done());
}

#[test]
fn a_ray_that_is_absorbed_is_black() {
    let t = Tracer::start().advance(true);
    assert_eq!(t, Tracer { phase: Phase::Shading, depth: 0 });
    let t = t.advance(false);
    assert_eq!(t, Tracer { phase: Phase::Black, depth: 0 });
    assert!(t.is_done());
}

#[test]
fn a_scattered_ray_is_cast_one_level_deeper() {
    let t = Tracer::start().advance(true).advance(true);
    assert_eq!(t, Tracer { phase: Phase::Casting, depth: 1 });
    let t = t.advance(true).advance(true).advance(false);
    assert_eq!(t, Tracer { phase: Phase::Background, depth: 2 });
}

#[test]
fn a_walk_that_has_ended_stays_where_it_is() {
    let black = Tracer { phase: Phase::Black, depth: 7 };
    assert_eq!(black.advance(true), black);
    assert_eq!(black.advance(false), black);
    let sky = Tracer { phase: Phase::Background, depth: 3 };
    assert_eq!(sky.advance(true), sky);
    assert_eq!(sky.advance(false), sky);
}

#[test]
fn facing_mirrors_end_in_black_at_the_deepest_level() {
    let mut t = Tracer::start();
    let mut answers = 0;
    let mut scatters = 0;
    let mut deepest = 0;
    while !t.is_done() {
        if t.phase == Phase::Shading {
            scatters += 1;
        }
        t = t.advance(true);
        answers += 1;
        deepest = deepest.max(t.depth);
        assert!(answers <= 2 * MAX_DEPTH + 1);
    }
    assert_eq!(t, Tracer { phase: Phase::Black, depth: MAX_DEPTH });
    assert_eq!(answers, 2 * MAX_DEPTH + 1);
    assert_eq!(scatters, MAX_DEPTH);
    assert_eq!(deepest, MAX_DEPTH);
    assert_eq!(MAX_DEPTH, 50);
}

#[test]
fn a_hit_at_the_deepest_level_is_black_without_scattering() {
    let t = Tracer { phase: Phase::Casting, depth: MAX_DEPTH };
    assert_eq!(t.advance(true), Tracer { phase: Phase::Black, depth: MAX_DEPTH });
    assert_eq!(t.advance(false), Tracer { phase: Phase::Background, depth: MAX_DEPTH });
    let t = Tracer { phase: Phase::Casting, depth: MAX_DEPTH - 1 };
    assert_eq!(t.advance(true), Tracer { phase: Phase::Shading, depth: MAX_DEPTH - 1 });
}

#[test]
fn no_walk_goes_deeper_than_the_limit() {
    let mut seed: u32 = 12345;
    for _ in 0..2_000 {
        let mut t = Tracer::start();
        let mut answers = 0;
        while !t.is_done() {
            seed = seed.wrapping_mul(1_664_525).wrapping_add(1_013_904_223);
            t = t.advance(seed >> 28 != 0);
            answers += 1;
            assert!(t.depth <= MAX_DEPTH);
        }
        assert!(answers <= 2 * MAX_DEPTH + 1);
    }
}

#[test]
fn states_beyond_the_limit_end_at_once() {
    let t = Tracer { phase: Phase::Shading, depth: MAX_DEPTH };
    assert_eq!(t.advance(true), Tracer { phase: Phase::Black, depth: MAX_DEPTH });
    let t = Tracer { phase: Phase::Casting, depth: u32::MAX };
    assert_eq!(t.advance(true), Tracer { phase: Phase::Black, depth: u32::MAX });
    let t = Tracer { phase: Phase::Shading, depth: u32::MAX };
    assert_eq!(t.advance(true), Tracer { phase: Phase::Black, depth: u32::MAX });
}
