use quartet_splitter::detect::{
    detect, detect_in_spectrum, find_staves, part_names, try_detect, Band, PageBands, Protrusion,
    StripShape,
};
use quartet_splitter::image::{gray_from_rgb, luma, GrayImage};
use quartet_splitter::protrusions::{scan_protrusions_in_region, Region};
use quartet_splitter::pruning::remove_false_staves;
use quartet_splitter::signal::{pick_spacing, row_signal, staff_line_spacing};
use quartet_splitter::single::Single;
use quartet_splitter::staves::{comb_convolve, non_max_suppress};
use quartet_splitter::whitespace::{find_gap_edges, find_widest};

fn s(x: f32) -> Single {
    Single { bits: x.to_bits() }
}

fn f(x: Single) -> f32 {
    f32::from_bits(x.bits)
}

fn singles(v: &[f32]) -> Vec<Single> {
    v.iter().map(|&x| s(x)).collect()
}

fn floats(v: &[Single]) -> Vec<f32> {
    v.iter().map(|&x| f(x)).collect()
}

fn blank(width: u32, height: u32) -> GrayImage {
    GrayImage { width, height, pixels: vec![255; (width * height) as usize] }
}

fn fill(img: &mut GrayImage, x0: u32, x1: u32, y0: u32, y1: u32, v: u8) {
    for y in y0..y1 {
        for x in x0..x1 {
            img.pixels[(y * img.width + x) as usize] = v;
        }
    }
}

/// A page with staves at these rows, their lines this far apart.
fn page(width: u32, height: u32, tops: &[u32], spacing: u32) -> GrayImage {
    let mut img = blank(width, height);
    // A line is dark in its middle and fades out on both sides.
    for &t in tops {
        for line in 0..5 {
            for (i, v) in [195, 95, 0, 95, 195].into_iter().enumerate() {
                let y = t + line * spacing + i as u32 - 2;
                fill(&mut img, width / 10, width - width / 10, y, y + 1, v);
            }
        }
    }
    img
}

/// The steps of the detection in the machine's own numbers.
struct Plain<'a> {
    img: &'a GrayImage,
}

impl<'a> Plain<'a> {
    fn at(&self, x: u32, y: u32) -> u8 {
        self.img.pixels[(y * self.img.width + x) as usize]
    }

    fn signal(&self) -> Vec<f32> {
        let (w, h) = (self.img.width, self.img.height);
        let (x0, x1) = (w / 5, w * 4 / 5);
        (0..h)
            .map(|y| {
                (x0..x1).map(|x| 255.0 - self.at(x, y) as f32).sum::<f32>() / (x1 - x0) as f32
            })
            .collect()
    }

    fn edges(&self, bot: f32, top: f32) -> (f32, f32) {
        let (w, h) = (self.img.width, self.img.height);
        let start = (bot.ceil() as u32).min(h - 1);
        let end = (top.floor() as u32).min(h - 1);
        let mid = (bot + top) / 2.0;
        if start >= end {
            return (mid, mid);
        }
        let counts: Vec<u32> = (start..=end)
            .map(|y| (w / 20..w - w / 20).filter(|&x| self.at(x, y) < 200).count() as u32)
            .collect();
        let n = counts.len();
        let empty: Vec<bool> = (0..n)
            .map(|i| {
                let (lo, hi) = (i.saturating_sub(2), (i + 3).min(n));
                counts[lo..hi].iter().sum::<u32>() as f32 / (hi - lo) as f32 <= 2.0
            })
            .collect();
        let mut best = (0, 0);
        for i in 0..n {
            let len = empty[i..].iter().take_while(|&&e| e).count();
            if len > best.1 {
                best = (i, len);
            }
        }
        if best.1 == 0 {
            return (mid, mid);
        }
        let top = start as f32 + best.0 as f32;
        (top, top + best.1 as f32)
    }

    fn scan(&self, top: f32, bot: f32, cw: u32, pad: f32, up: bool) -> Vec<(u32, u32, f32, f32)> {
        let (w, h) = (self.img.width, self.img.height);
        let gap = (pad * 0.75).max(4.0) as u32;
        let r_top = (top.ceil() as u32).min(h - 1);
        let r_bot = (bot.floor() as u32).min(h - 1);
        if r_top >= r_bot {
            return Vec::new();
        }
        let x_end = w - w / 20;
        let mut cols: Vec<(u32, u32, f32)> = Vec::new();
        let mut x = w / 20;
        while x < x_end {
            let right = (x + cw).min(x_end);
            let rows: Vec<u32> =
                if up { (r_top..r_bot).rev().collect() } else { (r_top..r_bot).collect() };
            let mut last = None;
            let mut count = 0;
            for y in rows {
                if (x..right).filter(|&c| self.at(c, y) < 200).count() >= 2 {
                    last = Some(y);
                    count = 0;
                } else {
                    count += 1;
                    if last.is_some() && count > gap {
                        break;
                    }
                }
            }
            if let Some(y) = last {
                cols.push((x, right, y as f32));
            }
            x = right;
        }
        let mut r = Vec::new();
        let mut i = 0;
        while i < cols.len() {
            let mut e = i;
            let mut far = cols[i].2;
            while e + 1 < cols.len() && cols[e + 1].0 - cols[e].1 <= cw {
                e += 1;
                far = if up { far.min(cols[e].2) } else { far.max(cols[e].2) };
            }
            let left = cols[i].0.saturating_sub(cw / 2);
            let right = (cols[e].1 + cw / 2).min(w);
            if up {
                r.push((left, right, (far - pad).max(0.0), bot));
            } else {
                r.push((left, right, top, (far + pad).min(h as f32)));
            }
            i = e + 1;
        }
        r
    }

    fn band(&self, top: f32, bot: f32, height: f32, ppp: f32) -> Band {
        Band {
            y_top: s((height - top * ppp).clamp(0.0, height)),
            y_bot: s((height - bot * ppp).clamp(0.0, height)),
        }
    }

    fn points(&self, v: &[(u32, u32, f32, f32)], height: f32, ppp: f32) -> Vec<Protrusion> {
        v.iter()
            .map(|b| Protrusion {
                x_left: s(b.0 as f32 * ppp),
                x_right: s(b.1 as f32 * ppp),
                y_top: s((height - b.2 * ppp).clamp(0.0, height)),
                y_bot: s((height - b.3 * ppp).clamp(0.0, height)),
            })
            .collect()
    }

    /// The shapes of staves at these rows, and the header's.
    fn shapes(
        &self,
        tops: &[f32],
        ls: f32,
        height: f32,
        dpi: u32,
        factor: f32,
    ) -> (Vec<StripShape>, StripShape) {
        let h = self.img.height as f32;
        let ppp = 72.0 / dpi as f32;
        let span = 4.0 * ls;
        let pad = factor * ls;
        let cw = (ls.round() as u32).max(4);
        let n = tops.len();
        let mids: Vec<f32> = (0..n - 1)
            .map(|k| {
                let (a, b) = self.edges(tops[k] + span, tops[k + 1]);
                (a + b) / 2.0
            })
            .collect();
        let mut shapes = Vec::new();
        for k in 0..n {
            let bot = tops[k] + span;
            let high = if k == 0 { (tops[0] - 4.5 * ls).max(0.0) } else { mids[k - 1] };
            let low = if k == n - 1 { (bot + 3.0 * ls).min(h) } else { mids[k] };
            let base_top = if high < tops[k] - 2.5 * ls { tops[k] - 2.5 * ls } else { high };
            let base_bot = if low > bot + 2.5 * ls { bot + 2.5 * ls } else { low };
            let mut boxes = Vec::new();
            let up = if k == 0 { base_top } else { high.min(base_top) };
            if base_top > up {
                boxes.extend(self.scan(up, base_top, cw, pad, true));
            }
            let down = if k == n - 1 { low } else { low.max(base_bot) };
            if down > base_bot {
                boxes.extend(self.scan(base_bot, down, cw, pad, false));
            }
            shapes.push(StripShape {
                base: self.band(base_top, base_bot, height, ppp),
                protrusions: self.points(&boxes, height, ppp),
            });
        }
        let end = (tops[0] - 4.5 * ls).max(0.0);
        let scan_end = (tops[0] - 1.5 * ls).max(end);
        let mut boxes = Vec::new();
        if scan_end > end + 2.0 {
            for (l, r, t, b) in self.scan(end, scan_end, cw, pad, false) {
                boxes.push((l, r, t, b.min(scan_end)));
            }
        }
        let header = StripShape {
            base: Band {
                y_top: s(height),
                y_bot: s((height - end * ppp).clamp(0.0, height)),
            },
            protrusions: self.points(&boxes, height, ppp),
        };
        (shapes, header)
    }
}

fn assert_shape(got: &StripShape, want: &StripShape) {
    assert_eq!(got.base, want.base);
    assert_eq!(got.protrusions, want.protrusions);
}

fn assert_page(img: &GrayImage, height: f32, dpi: u32, factor: f32, tops: &[f32], ls: f32) {
    let plain = Plain { img };
    let (shapes, want_header) = plain.shapes(tops, ls, height, dpi, factor);
    match detect(img, s(height), s(595.0), dpi, s(factor)) {
        PageBands::FullPage => panic!("no systems"),
        PageBands::Systems { systems, header } => {
            assert_eq!(systems.len() * 4, shapes.len());
            for (k, want) in shapes.iter().enumerate() {
                assert_shape(&systems[k / 4][k % 4], want);
            }
            assert_shape(&header, &want_header);
        }
    }
}

#[test]
fn darkness_is_averaged_over_the_middle_columns() {
    let mut img = blank(50, 3);
    fill(&mut img, 0, 50, 1, 2, 0);
    fill(&mut img, 10, 20, 2, 3, 55);
    let got = row_signal(&img);
    assert_eq!(floats(&got), vec![0.0, 255.0, 200.0 * 10.0 / 30.0]);
    assert_eq!(floats(&got), Plain { img: &img }.signal());
}

#[test]
fn grey_values_are_weighted_and_cut() {
    for r in (0..256).step_by(15) {
        for g in (0..256).step_by(17) {
            for b in (0..256).step_by(51) {
                let want = (0.299 * r as f32 + 0.587 * g as f32 + 0.114 * b as f32) as u8;
                assert_eq!(luma(r as u8, g as u8, b as u8), want);
            }
        }
    }
    assert_eq!(luma(255, 255, 255), 255);
    assert_eq!(luma(255, 0, 0), 76);
    let img = gray_from_rgb(2, 1, &vec![255, 255, 255, 0, 255, 0]);
    assert_eq!(img.pixels, vec![255, 149]);
}

/// Darkness that comes and goes over so many rows.
fn wave(n: usize, d: f32) -> Vec<f32> {
    (0..n).map(|y| 100.0 + 100.0 * (y as f32 * std::f32::consts::TAU / d).cos()).collect()
}

#[test]
fn the_spacing_is_found_in_the_spectrum() {
    assert_eq!(staff_line_spacing(&singles(&wave(600, 10.0))), Some(s(10.0)));
    // Where the second harmonic is as strong, twice the distance is taken.
    let lines: Vec<f32> = (0..600).map(|y| if y % 10 == 0 { 200.0 } else { 0.0 }).collect();
    assert_eq!(staff_line_spacing(&singles(&lines)), Some(s(20.0)));
    let flat: Vec<f32> = vec![7.0; 600];
    assert_eq!(staff_line_spacing(&singles(&flat[..8])), None);
    assert_eq!(staff_line_spacing(&Vec::new()), None);
}

#[test]
fn spectra_of_pages_differ() {
    for d in [9.0, 12.0, 15.0, 18.0] {
        assert_eq!(staff_line_spacing(&singles(&wave(720, d))), Some(s(d)));
    }
}

#[test]
fn the_strongest_bin_gives_the_spacing() {
    let n = 400;
    let mut mags = vec![1.0f32; n / 2 + 1];
    mags[40] = 100.0;
    assert_eq!(pick_spacing(n, &singles(&mags)), Some(s(10.0)));
    // A strong harmonic doubles the spacing, while it stays plausible.
    mags[80] = 90.0;
    assert_eq!(pick_spacing(n, &singles(&mags)), Some(s(20.0)));
    mags[80] = 79.0;
    assert_eq!(pick_spacing(n, &singles(&mags)), Some(s(10.0)));
    mags[40] = 1.0;
    mags[30] = 100.0;
    mags[60] = 90.0;
    assert_eq!(pick_spacing(n, &singles(&mags)), Some(s(400.0 / 30.0)));
    // Nothing stands out.
    assert_eq!(pick_spacing(n, &singles(&vec![1.0; n / 2 + 1])), None);
    assert_eq!(pick_spacing(15, &singles(&vec![1.0; 8])), None);
}

#[test]
fn the_comb_adds_five_lines() {
    let v: Vec<f32> = (0..12).map(|i| i as f32).collect();
    let got = comb_convolve(&singles(&v), s(2.2));
    assert_eq!(
        floats(&got),
        vec![20.0, 25.0, 30.0, 35.0, 28.0, 32.0, 24.0, 27.0, 18.0, 20.0, 10.0, 11.0]
    );
}

#[test]
fn peaks_are_kept_apart() {
    let mut v = vec![0.0f32; 40];
    v[5] = 10.0;
    v[7] = 9.0;
    v[20] = 8.0;
    v[30] = 12.0;
    let got = non_max_suppress(&singles(&v), s(5.0));
    assert_eq!(floats(&got), vec![5.0, 20.0, 30.0]);
    let near = non_max_suppress(&singles(&v), s(2.0));
    assert_eq!(floats(&near), vec![5.0, 7.0, 20.0, 30.0]);
}

#[test]
fn false_staves_are_removed() {
    let conv = |marks: &[(usize, f32)]| -> Vec<Single> {
        let mut v = vec![0.0f32; 1200];
        for &(i, x) in marks {
            v[i] = x;
        }
        singles(&v)
    };
    // One too close to another: the weaker of the two goes.
    let tops = singles(&[100.0, 200.0, 230.0, 300.0, 400.0]);
    let c = conv(&[(100, 9.0), (200, 9.0), (230, 5.0), (300, 9.0), (400, 9.0)]);
    assert_eq!(floats(&remove_false_staves(tops.clone(), &c)), vec![100.0, 200.0, 300.0, 400.0]);
    // A weak one at the front.
    let tops = singles(&[100.0, 200.0, 300.0, 400.0, 500.0]);
    let c = conv(&[(100, 2.0), (200, 9.0), (300, 9.0), (400, 9.0), (500, 9.0)]);
    assert_eq!(floats(&remove_false_staves(tops.clone(), &c)), vec![200.0, 300.0, 400.0, 500.0]);
    // A weak one at the back.
    let c = conv(&[(100, 9.0), (200, 9.0), (300, 9.0), (400, 9.0), (500, 2.0)]);
    assert_eq!(floats(&remove_false_staves(tops.clone(), &c)), vec![100.0, 200.0, 300.0, 400.0]);
    // A remote one at the front.
    let tops = singles(&[10.0, 300.0, 400.0, 500.0, 600.0]);
    let c = conv(&[(10, 9.0), (300, 9.0), (400, 9.0), (500, 9.0), (600, 9.0)]);
    assert_eq!(floats(&remove_false_staves(tops, &c)), vec![300.0, 400.0, 500.0, 600.0]);
    // A remote one at the back.
    let tops = singles(&[100.0, 200.0, 300.0, 400.0, 700.0]);
    let c = conv(&[(100, 9.0), (200, 9.0), (300, 9.0), (400, 9.0), (700, 9.0)]);
    assert_eq!(floats(&remove_false_staves(tops, &c)), vec![100.0, 200.0, 300.0, 400.0]);
    // No outlier, and a count that fits already.
    let tops = singles(&[100.0, 200.0, 300.0, 400.0, 500.0]);
    let c = conv(&[(100, 9.0), (200, 9.0), (300, 9.0), (400, 9.0), (500, 9.0)]);
    assert_eq!(remove_false_staves(tops.clone(), &c), tops);
    let four = singles(&[1.0, 2.0, 600.0, 700.0]);
    assert_eq!(remove_false_staves(four.clone(), &c), four);
}

#[test]
fn the_widest_gap_is_found() {
    assert_eq!(find_widest(&vec![true, false, true, false, false, true, false, false]), (3, 2));
    assert_eq!(find_widest(&vec![true, true]).1, 0);
    let mut img = blank(100, 100);
    fill(&mut img, 10, 90, 40, 45, 0);
    for (bot, top) in [(20.0, 80.0), (20.5, 60.25), (41.0, 44.0), (50.0, 50.0), (90.0, 300.0)] {
        let got = find_gap_edges(&img, s(bot), s(top));
        assert_eq!((f(got.0), f(got.1)), Plain { img: &img }.edges(bot, top));
    }
    let got = find_gap_edges(&img, s(20.0), s(80.0));
    assert_eq!((f(got.0), f(got.1)), (47.0, 81.0));
    // Without any empty row there is only the middle.
    fill(&mut img, 0, 100, 0, 100, 0);
    let got = find_gap_edges(&img, s(20.0), s(80.0));
    assert_eq!((f(got.0), f(got.1)), (50.0, 50.0));
}

#[test]
fn ink_beyond_a_band_is_boxed() {
    let mut img = blank(200, 100);
    fill(&mut img, 50, 58, 30, 45, 0);
    fill(&mut img, 150, 154, 40, 60, 0);
    fill(&mut img, 150, 154, 5, 8, 0);
    for up in [true, false] {
        for (top, bot) in [(10.0, 60.0), (0.5, 59.5), (35.0, 36.0), (99.0, 150.0)] {
            let region =
                Region { top: s(top), bot: s(bot), col_width: 8, pad: s(6.0), upwards: up };
            let got = scan_protrusions_in_region(&img, region);
            let want = Plain { img: &img }.scan(top, bot, 8, 6.0, up);
            assert_eq!(got.len(), want.len());
            for (g, w) in got.iter().zip(&want) {
                assert_eq!((g.x_left, g.x_right, f(g.y_top), f(g.y_bot)), *w);
            }
        }
    }
    let region = Region { top: s(10.0), bot: s(60.0), col_width: 8, pad: s(6.0), upwards: true };
    let got = scan_protrusions_in_region(&img, region);
    assert_eq!(got.len(), 2);
    assert_eq!((f(got[0].y_top), f(got[0].y_bot)), (24.0, 60.0));
    assert_eq!((f(got[1].y_top), f(got[1].y_bot)), (34.0, 60.0));
}

#[test]
fn staves_are_found_in_order() {
    let img = page(400, 600, &[100, 200, 300, 400], 10);
    let signal = row_signal(&img);
    let tops = find_staves(&img, &signal, s(10.0));
    assert_eq!(floats(&tops), vec![100.0, 200.0, 300.0, 400.0]);
}

#[test]
fn one_system_is_detected() {
    let img = page(400, 600, &[100, 200, 300, 400], 10);
    assert_page(&img, 288.0, 150, 2.0, &[100.0, 200.0, 300.0, 400.0], 10.0);
    match detect(&img, s(288.0), s(192.0), 150, s(2.0)) {
        PageBands::FullPage => panic!("no systems"),
        PageBands::Systems { systems, header } => {
            assert_eq!(systems.len(), 1);
            // 25 pixels above the staff and 25 below it.
            assert_eq!(f(systems[0][0].base.y_top), 288.0 - 75.0 * (72.0 / 150.0));
            assert_eq!(f(systems[0][0].base.y_bot), 288.0 - 165.0 * (72.0 / 150.0));
            assert_eq!(f(header.base.y_top), 288.0);
            assert_eq!(f(header.base.y_bot), 288.0 - 55.0 * (72.0 / 150.0));
        }
    }
}

#[test]
fn two_systems_with_ink_around_them_are_detected() {
    let tops = [120, 210, 300, 390, 620, 710, 800, 890];
    let mut img = page(420, 1200, &tops, 10);
    fill(&mut img, 100, 110, 90, 118, 0);
    fill(&mut img, 200, 215, 255, 275, 40);
    fill(&mut img, 60, 75, 345, 380, 0);
    fill(&mut img, 300, 330, 440, 470, 90);
    fill(&mut img, 310, 318, 560, 600, 0);
    fill(&mut img, 90, 140, 940, 962, 0);
    fill(&mut img, 150, 260, 20, 40, 0);
    fill(&mut img, 150, 180, 80, 96, 0);
    let want: Vec<f32> = tops.iter().map(|&t| t as f32).collect();
    let signal = row_signal(&img);
    let ls = staff_line_spacing(&signal).unwrap();
    assert_eq!(floats(&find_staves(&img, &signal, ls)), want);
    assert_page(&img, 576.0, 150, 2.0, &want, f(ls));
    assert_page(&img, 576.0, 200, 0.5, &want, f(ls));
    assert_page(&img, 100.0, 72, 3.25, &want, f(ls));
}

#[test]
fn neighbouring_bands_do_not_overlap() {
    let tops = [120, 200, 280, 360, 440, 520, 600, 680];
    let img = page(420, 900, &tops, 10);
    match detect(&img, s(576.0), s(200.0), 100, s(2.0)) {
        PageBands::FullPage => panic!("no systems"),
        PageBands::Systems { systems, header } => {
            let all: Vec<&StripShape> = systems.iter().flat_map(|x| x.iter()).collect();
            assert_eq!(all.len(), 8);
            assert!(f(header.base.y_bot) >= f(all[0].base.y_top));
            for k in 0..7 {
                assert!(f(all[k].base.y_bot) >= f(all[k + 1].base.y_top));
            }
        }
    }
}

#[test]
fn too_few_staves_mean_the_full_page() {
    let img = page(400, 600, &[100, 250, 400], 10);
    assert!(matches!(detect(&img, s(288.0), s(192.0), 150, s(2.0)), PageBands::FullPage));
    // A page that is too low for any staff, blank or not.
    let low = blank(400, 15);
    assert!(matches!(detect(&low, s(10.0), s(192.0), 150, s(2.0)), PageBands::FullPage));
}

#[test]
fn a_given_spectrum_decides() {
    let img = page(400, 600, &[100, 200, 300, 400], 10);
    let mut mags = vec![1.0f32; 301];
    assert!(matches!(
        detect_in_spectrum(&img, &singles(&mags), s(288.0), 150, s(2.0)),
        PageBands::FullPage
    ));
    mags[60] = 100.0;
    match detect_in_spectrum(&img, &singles(&mags), s(288.0), 150, s(2.0)) {
        PageBands::FullPage => panic!("no systems"),
        PageBands::Systems { systems, .. } => assert_eq!(systems.len(), 1),
    }
}

#[test]
fn blank_pages_are_full_pages() {
    let img = blank(100, 200);
    assert!(matches!(detect(&img, s(200.0), s(100.0), 72, s(2.0)), PageBands::FullPage));
    let mut mags = vec![1.0f32; 101];
    mags[20] = 100.0;
    assert!(matches!(
        detect_in_spectrum(&img, &singles(&mags), s(200.0), 72, s(2.0)),
        PageBands::FullPage
    ));
    assert!(matches!(detect(&img, s(-200.0), s(100.0), 72, s(2.0)), PageBands::FullPage));
}

#[test]
fn heights_are_needed_where_there_are_systems() {
    let found = |img: &GrayImage, height: f32| try_detect(img, s(height), s(192.0), 150, s(2.0));
    let img = page(400, 600, &[100, 200, 300, 400], 10);
    assert!(matches!(found(&img, 0.0), Some(PageBands::Systems { .. })));
    assert!(found(&img, -1.0).is_none());
    assert!(found(&img, f32::NAN).is_none());
    // Without systems no height is needed.
    let few = page(400, 600, &[100, 250, 400], 10);
    assert!(matches!(found(&few, -1.0), Some(PageBands::FullPage)));
    assert!(matches!(found(&blank(400, 600), -1.0), Some(PageBands::FullPage)));
    assert!(matches!(found(&blank(400, 15), f32::NAN), Some(PageBands::FullPage)));
}

#[test]
fn shapes_stand_upright() {
    let tops = [120, 210, 300, 390, 620, 710, 800, 890];
    let mut img = page(420, 940, &tops, 10);
    fill(&mut img, 200, 215, 255, 275, 40);
    fill(&mut img, 60, 75, 345, 380, 0);
    fill(&mut img, 300, 330, 440, 470, 90);
    fill(&mut img, 150, 180, 70, 100, 0);
    for pad in [0.0, 0.3, 2.0, 50.0, f32::NAN, f32::INFINITY] {
        match detect(&img, s(576.0), s(200.0), 150, s(pad)) {
            PageBands::FullPage => panic!("no systems"),
            PageBands::Systems { systems, header } => {
                assert!(!header.protrusions.is_empty());
                for shape in systems.iter().flat_map(|x| x.iter()).chain([&header]) {
                    assert!(f(shape.base.y_bot) <= f(shape.base.y_top));
                    for p in &shape.protrusions {
                        assert!(f(p.y_bot) <= f(p.y_top));
                    }
                }
            }
        }
    }
}

#[test]
fn more_padding_gives_no_less_clearance() {
    let mut img = blank(200, 100);
    fill(&mut img, 50, 58, 30, 45, 0);
    fill(&mut img, 52, 56, 20, 24, 0);
    fill(&mut img, 150, 154, 40, 60, 0);
    fill(&mut img, 150, 154, 5, 8, 0);
    for upwards in [true, false] {
        let mut before: Option<Vec<(u32, u32, f32, f32)>> = None;
        for pad in [0.0, 1.0, 6.0, 9.5, 12.0, 40.0, 1000.0] {
            let region =
                Region { top: s(2.0), bot: s(90.0), col_width: 8, pad: s(pad), upwards };
            let now: Vec<(u32, u32, f32, f32)> = scan_protrusions_in_region(&img, region)
                .iter()
                .map(|b| (b.x_left, b.x_right, f(b.y_top), f(b.y_bot)))
                .collect();
            if let Some(old) = before {
                assert_eq!(old.len(), now.len());
                for (a, b) in old.iter().zip(&now) {
                    assert_eq!((a.0, a.1), (b.0, b.1));
                    assert!(b.2 <= a.2 && a.3 <= b.3);
                }
            }
            before = Some(now);
        }
        assert_eq!(before.unwrap().len(), 2);
    }
}

#[test]
fn wide_columns_cover_narrow_pages() {
    let mut img = blank(30, 40);
    fill(&mut img, 5, 10, 12, 14, 0);
    let region =
        Region { top: s(5.0), bot: s(30.0), col_width: u32::MAX, pad: s(2.0), upwards: true };
    let got = scan_protrusions_in_region(&img, region);
    assert_eq!(got.len(), 1);
    assert_eq!((got[0].x_left, got[0].x_right), (0, 30));
    assert_eq!((f(got[0].y_top), f(got[0].y_bot)), (10.0, 30.0));
}

#[test]
fn bases_do_not_depend_on_the_padding() {
    let tops = [120, 210, 300, 390];
    let mut img = page(420, 700, &tops, 10);
    fill(&mut img, 200, 215, 255, 275, 40);
    fill(&mut img, 60, 75, 345, 380, 0);
    let mut mags = vec![1.0f32; 351];
    mags[70] = 100.0;
    let mags = singles(&mags);
    let find = |pad: f32| match detect_in_spectrum(&img, &mags, s(576.0), 150, s(pad)) {
        PageBands::FullPage => panic!("no systems"),
        PageBands::Systems { systems, header } => (systems, header),
    };
    let (first, header) = find(2.0);
    assert!(first[0].iter().any(|x| !x.protrusions.is_empty()));
    for pad in [0.0, 0.5, 7.0] {
        let (other, top) = find(pad);
        assert_eq!(top.base, header.base);
        assert_eq!(other.len(), first.len());
        for (a, b) in first[0].iter().zip(&other[0]) {
            assert_eq!(a.base, b.base);
            let columns = |x: &StripShape| -> Vec<(Single, Single)> {
                x.protrusions.iter().map(|p| (p.x_left, p.x_right)).collect()
            };
            assert_eq!(columns(a), columns(b));
        }
    }
    let (again, _) = find(2.0);
    assert_eq!(again[0][0].protrusions, first[0][0].protrusions);
}

#[test]
fn gaps_depend_on_ink_alone() {
    let mut a = blank(100, 100);
    fill(&mut a, 10, 90, 40, 45, 0);
    let mut b = blank(100, 100);
    fill(&mut b, 10, 90, 40, 45, 199);
    // Shades of white, and ink in the margins.
    fill(&mut b, 20, 60, 60, 70, 200);
    fill(&mut b, 0, 5, 0, 100, 0);
    fill(&mut b, 95, 100, 0, 100, 0);
    for (bot, top) in [(20.0, 80.0), (20.5, 60.25), (41.0, 44.0)] {
        assert_eq!(find_gap_edges(&a, s(bot), s(top)), find_gap_edges(&b, s(bot), s(top)));
    }
}

#[test]
fn the_parts_have_names() {
    assert_eq!(part_names(), ["violin1", "violin2", "viola", "cello"]);
}
