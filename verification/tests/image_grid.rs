use rust_raytracer::image::{Image, Pixel, Rgb};
use rust_raytracer::ppm::parse_ppm;
use rust_raytracer::tiling::partition;

fn rgb(r: i32, g: i32, b: i32) -> Rgb {
    Rgb { r, g, b }
}

fn place(img: &Image, i: usize) -> Option<(usize, usize)> {
    img.pixel(i).map(|p| (p.x, p.y))
}

#[test]
fn pixels_run_row_by_row_from_the_top() {
    let img = Image::new(3, 2);
    assert_eq!(img.width(), 3);
    assert_eq!(img.height(), 2);
    assert_eq!(img.len(), 6);
    assert_eq!(place(&img, 0), Some((0, 1)));
    assert_eq!(place(&img, 1), Some((1, 1)));
    assert_eq!(place(&img, 2), Some((2, 1)));
    assert_eq!(place(&img, 3), Some((0, 0)));
    assert_eq!(place(&img, 5), Some((2, 0)));
    assert_eq!(place(&img, 6), None);
}

#[test]
fn a_new_image_is_not_rendered() {
    let img = Image::new(2, 2);
    assert!(!img.is_rendered());
    for i in 0..4 {
        assert_eq!(img.pixel(i).unwrap().color, None);
    }
}

#[test]
fn an_image_without_pixels() {
    let img = Image::new(0, 5);
    assert_eq!(img.len(), 0);
    assert!(img.is_rendered());
    assert_eq!(img.to_ppm(), b"P3\n0 5\n255\n".to_vec());
    let img = Image::new(4, 0);
    assert_eq!(img.len(), 0);
    assert_eq!(img.to_ppm(), b"P3\n4 0\n255\n".to_vec());
}

#[test]
fn a_new_pixel_has_no_colour() {
    let p = Pixel::new(3, 4);
    assert_eq!((p.x, p.y, p.color), (3, 4, None));
}

#[test]
fn a_pixel_takes_the_colour_of_its_place() {
    let mut p = Pixel::new(3, 4);
    p.render(&|x: usize, y: usize| rgb(x as i32, y as i32, 9));
    assert_eq!((p.x, p.y), (3, 4));
    assert_eq!(p.color, Some(rgb(3, 4, 9)));
}

#[test]
fn render_shades_every_pixel_at_its_place() {
    let mut img = Image::new(3, 2);
    img.render(|x: usize, y: usize| rgb(x as i32, y as i32, (10 * x + y) as i32));
    assert!(img.is_rendered());
    assert_eq!(img.width(), 3);
    assert_eq!(img.height(), 2);
    assert_eq!(img.pixel(0).unwrap().color, Some(rgb(0, 1, 1)));
    assert_eq!(img.pixel(2).unwrap().color, Some(rgb(2, 1, 21)));
    assert_eq!(img.pixel(3).unwrap().color, Some(rgb(0, 0, 0)));
    assert_eq!(img.pixel(5).unwrap().color, Some(rgb(2, 0, 20)));
    assert_eq!(place(&img, 4), Some((1, 0)));
}

#[test]
fn store_fills_a_chunk_and_leaves_the_rest() {
    let mut img = Image::new(2, 2);
    assert!(img.store(1, &vec![rgb(1, 2, 3), rgb(4, 5, 6)]));
    assert_eq!(img.pixel(0).unwrap().color, None);
    assert_eq!(img.pixel(1).unwrap().color, Some(rgb(1, 2, 3)));
    assert_eq!(img.pixel(2).unwrap().color, Some(rgb(4, 5, 6)));
    assert_eq!(img.pixel(3).unwrap().color, None);
    assert_eq!(place(&img, 2), Some((0, 0)));
    assert!(!img.is_rendered());
    assert!(img.store(0, &vec![rgb(7, 7, 7)]));
    assert!(img.store(3, &vec![rgb(8, 8, 8)]));
    assert!(img.is_rendered());
    assert!(img.store(4, &Vec::new()));
}

#[test]
fn store_refuses_what_does_not_fit() {
    let mut img = Image::new(2, 2);
    assert!(!img.store(3, &vec![rgb(1, 1, 1), rgb(2, 2, 2)]));
    assert!(!img.store(5, &Vec::new()));
    assert!(!img.store(usize::MAX, &vec![rgb(1, 1, 1)]));
    for i in 0..4 {
        assert_eq!(img.pixel(i).unwrap().color, None);
    }
}

#[test]
fn the_text_of_a_small_image() {
    let mut img = Image::new(2, 1);
    assert!(img.store(0, &vec![rgb(255, 0, 0), rgb(0, 128, 255)]));
    assert_eq!(img.to_ppm(), b"P3\n2 1\n255\n255 0 0\n0 128 255\n".to_vec());
}

#[test]
fn channels_are_written_as_they_are() {
    let mut img = Image::new(1, 2);
    assert!(img.store(0, &vec![rgb(-1, 256, 1000), rgb(i32::MIN, i32::MAX, 0)]));
    assert_eq!(
        img.to_ppm(),
        b"P3\n1 2\n255\n-1 256 1000\n-2147483648 2147483647 0\n".to_vec()
    );
}

#[test]
fn the_text_of_an_image_is_what_formatting_gives() {
    let mut img = Image::new(7, 5);
    img.render(|x: usize, y: usize| rgb(37 * x as i32 - 100, 1000 * y as i32, (x * y) as i32));
    let mut expected = format!("P3\n{} {}\n255\n", 7, 5);
    for i in 0..img.len() {
        let c = img.pixel(i).unwrap().color.unwrap();
        expected.push_str(&format!("{} {} {}\n", c.r, c.g, c.b));
    }
    assert_eq!(img.to_ppm(), expected.into_bytes());
}

fn triples(img: &Image) -> Vec<Option<Rgb>> {
    (0..img.len()).map(|i| img.pixel(i).unwrap().color).collect()
}

#[test]
fn writing_and_reading_gives_the_image_back() {
    let mut img = Image::new(4, 3);
    img.render(|x: usize, y: usize| rgb(255 - x as i32, 64 * y as i32, -(x as i32) * 1_000_000));
    let text = img.to_ppm();
    let back = Image::from_ppm(&text).expect("an image");
    assert_eq!(back.width(), 4);
    assert_eq!(back.height(), 3);
    assert!(back.is_rendered());
    assert_eq!(triples(&back), triples(&img));
    for i in 0..img.len() {
        assert_eq!(place(&back, i), place(&img, i));
    }
    assert_eq!(back.to_ppm(), text);
}

#[test]
fn known_triples_come_back_from_their_text() {
    let text = b"P3\n2 2\n255\n0 0 0\n255 255 255\n12 34 56\n-7 300 1\n".to_vec();
    let (width, height, colors) = parse_ppm(&text).expect("an image");
    assert_eq!((width, height), (2, 2));
    assert_eq!(colors, vec![rgb(0, 0, 0), rgb(255, 255, 255), rgb(12, 34, 56), rgb(-7, 300, 1)]);
    let img = Image::from_ppm(&text).unwrap();
    assert_eq!(img.pixel(3).unwrap().color, Some(rgb(-7, 300, 1)));
    assert_eq!(place(&img, 3), Some((1, 0)));
    assert_eq!(img.to_ppm(), text);
}

#[test]
fn rendering_in_chunks_gives_the_same_image_for_any_number_of_workers() {
    let shade = |x: usize, y: usize| rgb((x * x) as i32, (y * 3) as i32, (x + y) as i32);
    let mut whole = Image::new(9, 7);
    whole.render(shade);
    let expected = whole.to_ppm();
    for workers in 1..12 {
        let mut img = Image::new(9, 7);
        let chunks = partition(img.len(), workers).unwrap();
        let mut parts: Vec<(usize, Vec<Rgb>)> = Vec::new();
        for chunk in chunks.iter().rev() {
            let colors = (chunk.start..chunk.end)
                .map(|i| {
                    let p = img.pixel(i).unwrap();
                    shade(p.x, p.y)
                })
                .collect();
            parts.push((chunk.start, colors));
        }
        for (start, colors) in parts.iter() {
            assert!(img.store(*start, colors));
        }
        assert!(img.is_rendered());
        assert_eq!(img.to_ppm(), expected, "{} workers", workers);
    }
}

#[test]
fn gather_takes_one_part_for_each_chunk() {
    let mut img = Image::new(3, 2);
    let chunks = partition(6, 4).unwrap();
    let parts = vec![
        vec![rgb(0, 0, 0), rgb(1, 1, 1)],
        vec![rgb(2, 2, 2), rgb(3, 3, 3)],
        vec![rgb(4, 4, 4)],
        vec![rgb(5, 5, 5)],
    ];
    assert!(img.gather(&chunks, &parts));
    assert!(img.is_rendered());
    for i in 0..6 {
        let p = img.pixel(i).unwrap();
        assert_eq!(p.color, Some(rgb(i as i32, i as i32, i as i32)));
        assert_eq!((p.x, p.y), (i % 3, 1 - i / 3));
    }
}

#[test]
fn gather_refuses_parts_that_do_not_fit() {
    let chunks = partition(4, 2).unwrap();
    let one = rgb(1, 1, 1);
    let cases: Vec<Vec<Vec<Rgb>>> = vec![
        vec![vec![one, one]],
        vec![vec![one, one], vec![one]],
        vec![vec![one], vec![one, one, one]],
        vec![vec![one, one], vec![one, one], vec![]],
        vec![],
    ];
    for parts in cases {
        let mut img = Image::new(2, 2);
        assert!(!img.gather(&chunks, &parts));
        for i in 0..4 {
            assert_eq!(img.pixel(i).unwrap().color, None);
        }
    }
}

#[test]
fn gather_refuses_chunks_that_do_not_tile() {
    use_chunks(vec![(0, 2), (3, 4)], vec![2, 1], false);
    use_chunks(vec![(0, 2), (1, 4)], vec![2, 3], false);
    use_chunks(vec![(1, 4)], vec![3], false);
    use_chunks(vec![(0, 3)], vec![3], false);
    use_chunks(vec![(0, 5)], vec![5], false);
    use_chunks(vec![(2, 4), (0, 2)], vec![2, 2], false);
    use_chunks(vec![(0, 4)], vec![4], true);
    use_chunks(vec![(0, 0), (0, 4), (4, 4)], vec![0, 4, 0], true);
    use_chunks(vec![(0, 1), (1, 2), (2, 3), (3, 4)], vec![1, 1, 1, 1], true);
}

fn use_chunks(bounds: Vec<(usize, usize)>, sizes: Vec<usize>, expected: bool) {
    use_chunks_on(Image::new(2, 2), bounds, sizes, expected);
}

fn use_chunks_on(mut img: Image, bounds: Vec<(usize, usize)>, sizes: Vec<usize>, expected: bool) {
    let chunks = bounds
        .iter()
        .map(|(start, end)| rust_raytracer::tiling::Chunk { start: *start, end: *end })
        .collect();
    let parts = sizes.iter().map(|n| vec![rgb(9, 9, 9); *n]).collect();
    assert_eq!(img.gather(&chunks, &parts), expected, "{:?}", bounds);
    assert_eq!(img.is_rendered(), expected);
}

#[test]
fn gather_on_an_image_without_pixels() {
    use_chunks_on(Image::new(0, 3), vec![], vec![], true);
    use_chunks_on(Image::new(0, 3), vec![(0, 0)], vec![0], true);
    use_chunks_on(Image::new(2, 2), vec![], vec![], false);
}

#[test]
fn channels_are_cut_down_but_not_clamped() {
    let bits = |x: f32| rust_raytracer::scalar::Scalar::from_bits(x.to_bits());
    assert_eq!(Rgb::from_channels(bits(255.99), bits(0.0), bits(127.5)), rgb(255, 0, 127));
    assert_eq!(Rgb::from_channels(bits(256.0), bits(-3.9), bits(1.0e6)), rgb(256, -3, 1_000_000));
    assert_eq!(
        Rgb::from_channels(bits(f32::INFINITY), bits(f32::NAN), bits(-1.0e20)),
        rgb(i32::MAX, 0, i32::MIN)
    );
    let full = (1.0f32).sqrt() * 255.99;
    assert_eq!(Rgb::from_channels(bits(full), bits(full), bits(full)), rgb(255, 255, 255));
}

#[test]
fn index_of_is_the_inverse_of_the_places() {
    let img = Image::new(5, 3);
    for i in 0..img.len() {
        let p = img.pixel(i).unwrap();
        assert_eq!(img.index_of(p.x, p.y), Some(i));
    }
    assert_eq!(img.index_of(0, 2), Some(0));
    assert_eq!(img.index_of(4, 2), Some(4));
    assert_eq!(img.index_of(0, 0), Some(10));
    assert_eq!(img.index_of(4, 0), Some(14));
    assert_eq!(img.index_of(5, 0), None);
    assert_eq!(img.index_of(0, 3), None);
    assert_eq!(img.index_of(usize::MAX, usize::MAX), None);
    assert_eq!(Image::new(0, 4).index_of(0, 0), None);
}
