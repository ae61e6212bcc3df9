use quartet_splitter::detect::{Band, Cut, PageBands, Protrusion, StripShape};
use quartet_splitter::image::GrayImage;
use quartet_splitter::picture::{draw_debug_image, Rgb};
use quartet_splitter::pipeline::{render_size, process_page, Score};
use quartet_splitter::single::Single;

fn s(x: f32) -> Single {
    Single { bits: x.to_bits() }
}

fn shape(top: f32, bot: f32, protrusions: &[(f32, f32, f32, f32)]) -> StripShape {
    StripShape {
        base: Band { y_top: s(top), y_bot: s(bot) },
        protrusions: protrusions
            .iter()
            .map(|p| Protrusion { x_left: s(p.0), x_right: s(p.1), y_top: s(p.2), y_bot: s(p.3) })
            .collect(),
    }
}

fn empty() -> StripShape {
    shape(0.0, 0.0, &[])
}

/// Paints one pixel after the other.
fn painted(
    img: &GrayImage,
    systems: &[[StripShape; 4]],
    height: f32,
    dpi: u32,
) -> Vec<(u8, u8, u8)> {
    let (w, h) = (img.width, img.height);
    let per_pixel = 72.0 / dpi as f32;
    let mut out: Vec<(u8, u8, u8)> = img.pixels.iter().map(|&v| (v, v, v)).collect();
    let colors = [(255, 50, 50), (50, 200, 50), (50, 100, 255), (200, 50, 200)];
    let dim = [(180, 80, 80), (80, 150, 80), (80, 100, 180), (150, 80, 150)];
    let f = |x: Single| f32::from_bits(x.bits);
    let row = |y: Single| (((height - f(y)) / per_pixel).round() as u32).min(h - 1);
    let col = |x: Single| ((f(x) / per_pixel).round() as u32).min(w - 1);
    for system in systems {
        for (inst, shape) in system.iter().enumerate() {
            for y in [shape.base.y_top, shape.base.y_bot] {
                for dy in 0..3 {
                    for x in 0..w {
                        out[((row(y) + dy).min(h - 1) * w + x) as usize] = colors[inst];
                    }
                }
            }
            for p in &shape.protrusions {
                let (top, bot) = (row(p.y_top), row(p.y_bot));
                let (left, right) = (col(p.x_left), col(p.x_right));
                for r in [top, bot] {
                    for dy in 0..2 {
                        for x in left..=right {
                            out[((r + dy).min(h - 1) * w + x) as usize] = dim[inst];
                        }
                    }
                }
                for y in top..=bot {
                    for c in [left, right] {
                        for dx in 0..2 {
                            out[(y * w + (c + dx).min(w - 1)) as usize] = dim[inst];
                        }
                    }
                }
            }
        }
    }
    out
}

#[test]
fn bands_and_protrusions_are_marked() {
    let img = GrayImage {
        width: 60,
        height: 80,
        pixels: (0..4800u32).map(|i| (i % 251) as u8).collect(),
    };
    let systems = vec![
        [
            shape(76.0, 66.0, &[(10.0, 20.0, 79.0, 76.0)]),
            shape(60.0, 50.0, &[(5.0, 8.0, 50.0, 44.0), (30.0, 70.0, 64.0, 60.0)]),
            shape(40.0, 30.0, &[(20.0, 10.0, 45.0, 40.0)]),
            shape(20.0, 12.0, &[(20.0, 30.0, 4.0, 12.0)]),
        ],
        [shape(10.0, 0.0, &[]), empty(), shape(-5.0, 200.0, &[]), shape(33.3, 32.9, &[])],
    ];
    for (height, dpi) in [(80.0, 72), (80.0, 70), (40.0, 144), (80.0, 0)] {
        let got = draw_debug_image(&img, &systems, s(height), dpi);
        assert_eq!((got.width, got.height), (60, 80));
        let want = painted(&img, &systems, height, dpi);
        let got: Vec<(u8, u8, u8)> = got.pixels.iter().map(|c| (c.r, c.g, c.b)).collect();
        assert!(got == want);
    }
}

#[test]
fn without_systems_the_picture_is_grey() {
    let img = GrayImage { width: 3, height: 1, pixels: vec![0, 128, 255] };
    let got = draw_debug_image(&img, &Vec::new(), s(1.0), 72);
    assert_eq!(
        got.pixels,
        vec![
            Rgb { r: 0, g: 0, b: 0 },
            Rgb { r: 128, g: 128, b: 128 },
            Rgb { r: 255, g: 255, b: 255 }
        ]
    );
    let none = GrayImage { width: 0, height: 0, pixels: Vec::new() };
    assert!(draw_debug_image(&none, &Vec::new(), s(1.0), 72).pixels.is_empty());
}

#[test]
fn pages_are_rendered_at_the_resolution() {
    assert_eq!(render_size(s(595.0), s(842.0), 150), (1239, 1754));
    assert_eq!(render_size(s(-10.0), s(f32::NAN), 72), (-10, 0));
    assert_eq!(render_size(s(f32::INFINITY), s(f32::NEG_INFINITY), 1), (i32::MAX, i32::MIN));
}

fn systems_of(n: usize) -> PageBands {
    let systems = (0..n)
        .map(|k| {
            let t = 800.0 - 100.0 * k as f32;
            [
                shape(t, t - 10.0, &[]),
                shape(t - 20.0, t - 30.0, &[]),
                shape(t - 40.0, t - 50.0, &[]),
                shape(t - 60.0, t - 70.0, &[]),
            ]
        })
        .collect();
    PageBands::Systems { systems, header: shape(842.0, 810.0, &[]) }
}

fn assert_strip(cut: &Cut, want: &StripShape) {
    match cut {
        Cut::Page => panic!("a whole page"),
        Cut::Strip(shape) => {
            assert_eq!(shape.base, want.base);
            assert_eq!(shape.protrusions, want.protrusions);
        }
    }
}

#[test]
fn strips_are_collected_page_by_page() {
    let mut score = Score::new();
    score.add_bands(0, &systems_of(2));
    score.add_bands(1, &PageBands::FullPage);
    score.add_bands(2, &systems_of(1));
    let (entries, header) = score.into_entries();
    assert_eq!(header.unwrap().base, Band { y_top: s(842.0), y_bot: s(810.0) });
    for (i, list) in entries.iter().enumerate() {
        let pages: Vec<u32> = list.iter().map(|e| e.0).collect();
        assert_eq!(pages, vec![0, 0, 1, 2]);
        let top = 800.0 - 20.0 * i as f32;
        assert_strip(&list[0].1, &shape(top, top - 10.0, &[]));
        assert_strip(&list[1].1, &shape(top - 100.0, top - 110.0, &[]));
        assert!(matches!(list[2].1, Cut::Page));
        assert_strip(&list[3].1, &shape(top, top - 10.0, &[]));
    }
}

#[test]
fn strips_keep_what_reaches_out_of_them() {
    let spot = (10.0, 20.0, 101.0, 100.0);
    let system = [shape(100.0, 90.0, &[spot]), shape(80.0, 70.0, &[]), empty(), empty()];
    let bands = PageBands::Systems {
        systems: vec![system],
        header: shape(200.0, 150.0, &[(1.0, 2.0, 150.0, 140.0)]),
    };
    let mut score = Score::new();
    score.add_bands(0, &bands);
    let (entries, header) = score.into_entries();
    assert_strip(&entries[0][0].1, &shape(100.0, 90.0, &[spot]));
    assert_eq!(header.unwrap().protrusions.len(), 1);
}

#[test]
fn the_header_is_that_of_the_first_page() {
    let mut score = Score::new();
    score.add_bands(0, &PageBands::FullPage);
    score.add_bands(1, &systems_of(1));
    assert!(score.into_entries().1.is_none());
}

#[test]
fn a_page_is_processed() {
    let mut img = GrayImage { width: 400, height: 600, pixels: vec![255; 240_000] };
    for staff in 0..4u32 {
        for line in 0..5u32 {
            for (i, v) in [195u8, 95, 0, 95, 195].into_iter().enumerate() {
                let y = 100 + 100 * staff + 10 * line + i as u32 - 2;
                for x in 40..360 {
                    img.pixels[(y * 400 + x) as usize] = v;
                }
            }
        }
    }
    let mut score = Score::new();
    let bands = process_page(&mut score, 0, &img, s(288.0), s(192.0), 150, s(2.0)).unwrap();
    let (entries, header) = score.into_entries();
    match &bands {
        PageBands::FullPage => panic!("no systems"),
        PageBands::Systems { systems, .. } => {
            assert_eq!(entries[2].len(), 1);
            assert_eq!(entries[2][0].0, 0);
            assert_strip(&entries[2][0].1, &systems[0][2]);
        }
    }
    assert!(header.is_some());
    // A blank page goes to every part.
    let blank = GrayImage { width: 400, height: 600, pixels: vec![255; 240_000] };
    let mut score = Score::new();
    let bands = process_page(&mut score, 0, &blank, s(288.0), s(192.0), 150, s(2.0));
    assert!(matches!(bands, Some(PageBands::FullPage)));
    // One with systems and no height goes to none.
    assert!(process_page(&mut score, 1, &img, s(-1.0), s(192.0), 150, s(2.0)).is_none());
    for list in score.into_entries().0.iter() {
        assert!(matches!(list[..], [(0, Cut::Page)]));
    }
}
