use rust_raytracer::image::{Image, Rgb};
use rust_raytracer::ppm::{parse_ppm, push_decimal, push_header, push_line, push_signed};

fn rgb(r: i32, g: i32, b: i32) -> Rgb {
    Rgb { r, g, b }
}

fn decimal(n: u64) -> String {
    let mut out = Vec::new();
    push_decimal(&mut out, n);
    String::from_utf8(out).unwrap()
}

fn signed(v: i32) -> String {
    let mut out = Vec::new();
    push_signed(&mut out, v);
    String::from_utf8(out).unwrap()
}

#[test]
fn decimal_digits() {
    assert_eq!(decimal(0), "0");
    assert_eq!(decimal(7), "7");
    assert_eq!(decimal(10), "10");
    assert_eq!(decimal(255), "255");
    assert_eq!(decimal(1_000_000), "1000000");
    assert_eq!(decimal(u64::MAX), "18446744073709551615");
    for n in [9u64, 99, 100, 101, 4_294_967_295, 4_294_967_296, 12_345_678_901_234] {
        assert_eq!(decimal(n), n.to_string());
    }
}

#[test]
fn signed_numbers() {
    assert_eq!(signed(0), "0");
    assert_eq!(signed(-1), "-1");
    assert_eq!(signed(255), "255");
    assert_eq!(signed(i32::MAX), "2147483647");
    assert_eq!(signed(i32::MIN), "-2147483648");
    for v in [-10, -9, 9, 10, -255, 100_000, -100_000] {
        assert_eq!(signed(v), v.to_string());
    }
}

#[test]
fn numbers_are_appended() {
    let mut out = b"x=".to_vec();
    push_decimal(&mut out, 42);
    push_signed(&mut out, -3);
    assert_eq!(out, b"x=42-3".to_vec());
}

#[test]
fn the_opening_lines() {
    let mut out = Vec::new();
    push_header(&mut out, 800, 400);
    assert_eq!(out, b"P3\n800 400\n255\n".to_vec());
}

#[test]
fn a_pixel_line() {
    let mut out = Vec::new();
    push_line(&mut out, rgb(1, 22, 333));
    push_line(&mut out, rgb(-4, 0, 5));
    assert_eq!(out, b"1 22 333\n-4 0 5\n".to_vec());
}

fn parses(text: &str) -> bool {
    let bytes = text.as_bytes().to_vec();
    let parsed = parse_ppm(&bytes);
    assert_eq!(parsed.is_some(), Image::from_ppm(&bytes).is_some());
    parsed.is_some()
}

#[test]
fn well_formed_texts_are_read() {
    assert!(parses("P3\n1 1\n255\n1 2 3\n"));
    assert!(parses("P3\n0 0\n255\n"));
    assert!(parses("P3\n0 7\n255\n"));
    assert!(parses("P3\n2 1\n255\n-1 0 300\n0 0 0\n"));
    assert!(parses("P3\n1 1\n255\n-2147483648 2147483647 0\n"));
}

#[test]
fn a_wrong_opening_is_refused() {
    assert!(!parses(""));
    assert!(!parses("P3"));
    assert!(!parses("P6\n1 1\n255\n1 2 3\n"));
    assert!(!parses("p3\n1 1\n255\n1 2 3\n"));
    assert!(!parses("P3 1 1\n255\n1 2 3\n"));
    assert!(!parses("P3\n1 1\n256\n1 2 3\n"));
    assert!(!parses("P3\n1 1\n255 1 2 3\n"));
    assert!(!parses("P3\n1  1\n255\n1 2 3\n"));
    assert!(!parses("P3\n1\n1\n255\n1 2 3\n"));
    assert!(!parses("P3\n 1 1\n255\n1 2 3\n"));
    assert!(!parses("P3\n1 1\n255"));
    assert!(!parses("P3\n1 1\n25"));
    assert!(!parses("P3\n-1 1\n255\n"));
    assert!(!parses("P3\n\n255\n"));
}

#[test]
fn padded_numbers_are_refused() {
    assert!(!parses("P3\n01 1\n255\n1 2 3\n"));
    assert!(!parses("P3\n1 01\n255\n1 2 3\n"));
    assert!(!parses("P3\n1 1\n255\n01 2 3\n"));
    assert!(!parses("P3\n1 1\n255\n1 2 03\n"));
    assert!(!parses("P3\n1 1\n255\n00 2 3\n"));
    assert!(!parses("P3\n1 1\n255\n+1 2 3\n"));
    assert!(!parses("P3\n1 1\n255\n-0 2 3\n"));
    assert!(!parses("P3\n1 1\n255\n- 2 3\n"));
    assert!(!parses("P3\n1 1\n255\n--1 2 3\n"));
    assert!(!parses("P3\n1 1\n255\n1 2 3 \n"));
    assert!(!parses("P3\n1 1\n255\n 1 2 3\n"));
    assert!(!parses("P3\n1 1\n255\n1  2 3\n"));
    assert!(!parses("P3\n1 1\n255\n1\t2 3\n"));
    assert!(!parses("P3\n1 1\n255\n1 2 3\r\n"));
    assert!(!parses("P3\n1 1\n255\n1 2 a\n"));
    assert!(!parses("P3\n1 1\n255\n1.0 2 3\n"));
}

#[test]
fn numbers_out_of_range_are_refused() {
    assert!(!parses("P3\n1 1\n255\n2147483648 0 0\n"));
    assert!(!parses("P3\n1 1\n255\n0 -2147483649 0\n"));
    assert!(!parses("P3\n1 1\n255\n0 0 99999999999999999999999999999999\n"));
    assert!(!parses("P3\n0 99999999999999999999999999999999\n255\n"));
    assert!(!parses("P3\n99999999999999999999999999999999 0\n255\n"));
    assert!(!parses("P3\n18446744073709551616 0\n255\n"));
    assert!(!parses("P3\n4294967296 4294967296\n255\n"));
}

#[test]
fn a_wrong_number_of_lines_is_refused() {
    assert!(!parses("P3\n1 1\n255\n"));
    assert!(!parses("P3\n2 1\n255\n1 2 3\n"));
    assert!(!parses("P3\n1 1\n255\n1 2 3\n4 5 6\n"));
    assert!(!parses("P3\n1 1\n255\n1 2 3\n\n"));
    assert!(!parses("P3\n1 1\n255\n1 2 3"));
    assert!(!parses("P3\n1 1\n255\n1 2\n"));
    assert!(!parses("P3\n1 1\n255\n1 2 3 4\n"));
    assert!(!parses("P3\n0 0\n255\n1 2 3\n"));
    assert!(!parses("P3\n0 0\n255\n\n"));
}

#[test]
fn every_text_that_is_read_is_written_back_letter_for_letter() {
    let texts = [
        "P3\n1 1\n255\n1 2 3\n",
        "P3\n3 1\n255\n0 0 0\n-5 5 -5\n1000 2000 3000\n",
        "P3\n1 3\n255\n9 8 7\n6 5 4\n3 2 1\n",
        "P3\n0 0\n255\n",
        "P3\n10 0\n255\n",
    ];
    for text in texts {
        let bytes = text.as_bytes().to_vec();
        let img = Image::from_ppm(&bytes).expect(text);
        assert_eq!(img.to_ppm(), bytes);
    }
}
