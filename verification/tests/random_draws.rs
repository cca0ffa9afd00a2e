use rand::rngs::StdRng;
use rand::Rng;
use rand::SeedableRng;
use rust_raytracer::random::{coordinate_of_word, fraction_of_word, rnd_fraction, Offset, UNIT};
use rust_raytracer::scalar::Scalar;

#[test]
fn fraction_is_the_top_24_bits() {
    assert_eq!(fraction_of_word(0), 0);
    assert_eq!(fraction_of_word(255), 0);
    assert_eq!(fraction_of_word(256), 1);
    assert_eq!(fraction_of_word(0x8000_0000), 0x80_0000);
    assert_eq!(fraction_of_word(u32::MAX), 0xff_ffff);
    assert_eq!(fraction_of_word(0x1234_5678), 0x12_3456);
}

#[test]
fn coordinate_spans_minus_one_to_one() {
    assert_eq!(coordinate_of_word(0), -16_777_216);
    assert_eq!(coordinate_of_word(0x8000_0000), 0);
    assert_eq!(coordinate_of_word(u32::MAX), 16_777_214);
    assert_eq!(coordinate_of_word(0x4000_0000), -8_388_608);
}

#[test]
fn unit_is_two_to_the_24() {
    assert_eq!(UNIT, 1 << 24);
}

#[test]
fn drawn_fractions_lie_in_the_unit_interval() {
    let mut rng = StdRng::seed_from_u64(1);
    for _ in 0..10_000 {
        assert!(rnd_fraction(&mut rng) < UNIT);
    }
}

#[test]
fn drawn_fractions_are_the_generators_own_samples() {
    let mut ours = StdRng::seed_from_u64(2024);
    let mut theirs = ours.clone();
    for _ in 0..2_000 {
        let k = rnd_fraction(&mut ours);
        let x: f32 = theirs.gen();
        assert_eq!(Scalar::from_fraction(k).unwrap().to_bits(), x.to_bits());
    }
}

#[test]
fn drawing_moves_the_generator_on() {
    let mut rng = StdRng::seed_from_u64(5);
    let before = rng.clone();
    let _ = rnd_fraction(&mut rng);
    assert_ne!(rng, before);
}

#[test]
fn the_same_seed_gives_the_same_fractions() {
    let mut a = StdRng::seed_from_u64(99);
    let mut b = StdRng::seed_from_u64(99);
    for _ in 0..500 {
        assert_eq!(rnd_fraction(&mut a), rnd_fraction(&mut b));
    }
}

#[test]
fn unit_ball_membership() {
    assert!(Offset { x: 0, y: 0, z: 0 }.is_in_unit_ball());
    assert!(Offset { x: 16_777_215, y: 0, z: 0 }.is_in_unit_ball());
    assert!(!Offset { x: 16_777_216, y: 0, z: 0 }.is_in_unit_ball());
    assert!(!Offset { x: -16_777_216, y: 0, z: 0 }.is_in_unit_ball());
    assert!(!Offset { x: 16_777_215, y: 5793, z: 0 }.is_in_unit_ball());
    assert!(Offset { x: 16_777_215, y: 5792, z: 0 }.is_in_unit_ball());
    assert!(Offset { x: 9_686_330, y: 9_686_330, z: 9_686_330 }.is_in_unit_ball());
    assert!(!Offset { x: 9_686_331, y: 9_686_331, z: 9_686_331 }.is_in_unit_ball());
    assert!(!Offset { x: i32::MIN, y: i32::MIN, z: i32::MIN }.is_in_unit_ball());
    assert!(!Offset { x: i32::MAX, y: i32::MAX, z: i32::MAX }.is_in_unit_ball());
}
