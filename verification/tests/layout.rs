use quartet_splitter::detect::{Band, Protrusion, StripShape};
use quartet_splitter::layout::{compute_page_breaks, find_gap, group_strips, write_page, StripRef};
use quartet_splitter::single::Single;
use quartet_splitter::text::{
    name_text, write_drawing, write_operators, write_rectangle, Placement, Rect,
};

fn s(x: f32) -> Single {
    Single { bits: x.to_bits() }
}

fn singles(v: &[f32]) -> Vec<Single> {
    v.iter().map(|&x| s(x)).collect()
}

fn shape(top: f32, bot: f32) -> StripShape {
    StripShape { base: Band { y_top: s(top), y_bot: s(bot) }, protrusions: Vec::new() }
}

fn strip(form: u32, shape: &StripShape, scale: f32) -> StripRef<'_> {
    let top = f32::from_bits(shape.base.y_top.bits);
    let bot = f32::from_bits(shape.base.y_bot.bits);
    StripRef {
        form: (form, 0),
        shape: Some(shape),
        scale: s(scale),
        width: s(595.0),
        height: s((top - bot) * scale),
    }
}

fn whole(form: u32, width: f32, height: f32) -> StripRef<'static> {
    StripRef { form: (form, 0), shape: None, scale: s(1.0), width: s(width), height: s(height) }
}

fn forms(pages: &[Vec<StripRef<'_>>]) -> Vec<Vec<u32>> {
    pages.iter().map(|p| p.iter().map(|x| x.form.0).collect()).collect()
}

fn breaks(heights: &[f32], header: Option<f32>) -> Vec<bool> {
    compute_page_breaks(&singles(heights), header.map(s))
}

#[test]
fn pages_break_where_strips_no_longer_fit() {
    assert_eq!(breaks(&[], None), Vec::<bool>::new());
    assert_eq!(breaks(&[900.0], None), vec![true]);
    // 770 points: 250 + 10 + 250 + 10 + 250 fit exactly.
    assert_eq!(breaks(&[250.0, 250.0, 250.0], None), vec![true, false, false]);
    assert_eq!(breaks(&[250.0, 250.0, 250.5], None), vec![true, false, true]);
    // The header takes room on the first page only.
    assert_eq!(breaks(&[250.0, 250.0, 250.0], Some(10.0)), vec![true, false, true]);
    assert_eq!(breaks(&[380.0, 380.0, 380.0, 380.0], Some(1.0)), vec![true, true, false, true]);
    assert_eq!(breaks(&[0.0, 760.0, 0.0], None), vec![true, false, true]);
}

#[test]
fn no_strip_is_lost_on_the_way_to_its_page() {
    let shapes = [
        shape(700.0, 600.0),
        shape(500.0, 500.0),
        shape(400.0, 300.0),
        shape(200.0, 300.0),
        shape(90.0, 40.0),
    ];
    let strips = vec![
        strip(1, &shapes[0], 1.0),
        strip(1, &shapes[1], 1.0),
        strip(2, &shapes[2], 2.0),
        strip(2, &shapes[3], 2.0),
        strip(3, &shapes[4], 1.5),
    ];
    let header = shape(842.0, 742.0);
    let pages = group_strips(&strips, Some(&header), &vec![true, false, true, true, false]);
    assert_eq!(forms(&pages), vec![vec![1, 1], vec![2], vec![3]]);
    assert_eq!(pages[0][0].height, s(100.0));
    assert_eq!(pages[0][0].shape.unwrap().base, header.base);
    assert_eq!(pages[0][1].shape.unwrap().base, shapes[0].base);
    // A header without height is left out, and so is none.
    let flat = shape(742.0, 742.0);
    let pages = group_strips(&strips, Some(&flat), &vec![true, false, false, false, false]);
    assert_eq!(pages.len(), 1);
    assert_eq!(pages[0].len(), 3);
    let pages = group_strips(&strips, None, &vec![true, true, false, true, true]);
    let lens: Vec<usize> = pages.iter().map(|p| p.len()).collect();
    assert_eq!(lens, vec![1, 1, 0, 1]);
}

#[test]
fn a_whole_page_stands_alone() {
    let one = shape(700.0, 600.0);
    let strips = vec![
        whole(1, 500.0, 700.0),
        strip(2, &one, 1.0),
        strip(2, &one, 1.0),
        whole(3, 612.0, 792.0),
        whole(4, 612.0, 792.0),
        strip(5, &one, 1.0),
    ];
    let none = vec![false; 6];
    let header = shape(842.0, 742.0);
    let pages = group_strips(&strips, Some(&header), &none);
    assert_eq!(forms(&pages), vec![vec![1], vec![2, 2], vec![3], vec![4], vec![5]]);
    // It is shown as it is.
    let text = String::from_utf8(write_page(&pages[0], 7)).unwrap();
    assert_eq!(text, "q\n0 0 500 700 re W n\n1 0 0 1 0 0 cm\n/X7 Do\nQ");
}

#[test]
fn the_gap_spreads_strips_within_limits() {
    let gap = |heights: &[f32]| -> f32 {
        let shapes: Vec<StripShape> = heights.iter().map(|&h| shape(h, 0.0)).collect();
        let strips: Vec<StripRef> = shapes.iter().map(|x| strip(1, x, 1.0)).collect();
        f32::from_bits(find_gap(&strips).bits)
    };
    assert_eq!(gap(&[100.0]), 0.0);
    assert_eq!(gap(&[100.0, 100.0]), 25.0);
    assert_eq!(gap(&[380.0, 375.0]), 15.0);
    assert_eq!(gap(&[380.0, 389.0]), 10.0);
    assert_eq!(gap(&[250.0, 250.0, 231.0]), 19.5);
    assert_eq!(gap(&[800.0, 800.0]), 10.0);
}

#[test]
fn a_page_is_written_out() {
    let shapes = [shape(700.0, 600.0), shape(400.0, 350.0)];
    let strips = vec![strip(5, &shapes[0], 1.0), strip(6, &shapes[1], 0.5)];
    let text = String::from_utf8(write_page(&strips, 3)).unwrap();
    assert_eq!(
        text,
        "q\n36 706 523 100 re W n\n1 0 0 1 36 106 cm\n/X3 Do\nQ\n\
         q\n36 656 523 25 re W n\n0.5 0 0 0.5 36 481 cm\n/X4 Do\nQ"
    );
    assert_eq!(write_page(&Vec::new(), 0), Vec::<u8>::new());
}

#[test]
fn protrusions_belong_to_the_clip() {
    let mut one = shape(700.0, 600.0);
    one.protrusions.push(Protrusion {
        x_left: s(100.0),
        x_right: s(120.0),
        y_top: s(710.0),
        y_bot: s(700.0),
    });
    one.protrusions.push(Protrusion {
        x_left: s(8.0),
        x_right: s(24.0),
        y_top: s(600.0),
        y_bot: s(592.0),
    });
    let strips = vec![strip(5, &one, 0.5)];
    assert_eq!(
        String::from_utf8(write_page(&strips, 0)).unwrap(),
        "q\n36 756 523 50 re 86 806 10 5 re 40 752 8 4 re W n\n0.5 0 0 0.5 36 456 cm\n/X0 Do\nQ"
    );
}

#[test]
fn the_strips_of_a_page_do_not_overlap() {
    let shapes: Vec<StripShape> = (1..7).map(|k| shape(100.0 + k as f32 / 3.0, 0.1)).collect();
    let strips: Vec<StripRef> = shapes.iter().map(|x| strip(1, x, 0.9)).collect();
    let text = String::from_utf8(write_page(&strips, 0)).unwrap();
    let mut last = 806.0;
    for line in text.lines().filter(|l| l.ends_with(" re W n")) {
        let n: Vec<f32> = line.split(' ').take(4).map(|x| x.parse().unwrap()).collect();
        assert!(n[1] + n[3] <= last + 0.001);
        last = n[1] - 10.0;
    }
}

#[test]
fn names_are_numbered() {
    for (n, want) in [(0, "X0"), (9, "X9"), (10, "X10"), (405, "X405"), (usize::MAX, "")] {
        let got = String::from_utf8(name_text(n)).unwrap();
        if n == usize::MAX {
            assert_eq!(got, format!("X{}", usize::MAX));
        } else {
            assert_eq!(got, want);
        }
    }
    assert_ne!(name_text(12), name_text(21));
}

#[test]
fn numbers_are_written_in_decimal_digits() {
    let rects = vec![
        Rect { left: s(36.0), bottom: s(-0.25), width: s(523.0), height: s(0.1) },
        Rect { left: s(1.5), bottom: s(2.5), width: s(0.0), height: s(3.0) },
    ];
    let at = Placement { scale: s(1.0e10), move_x: s(1.0e-7), move_y: s(16777217.0) };
    assert_eq!(
        String::from_utf8(write_drawing(&rects, at, &b"X7".to_vec())).unwrap(),
        format!(
            "q\n{} {} {} {} re 1.5 2.5 0 3 re W n\n{} 0 0 {} {} {} cm\n/X7 Do\nQ",
            36.0f32, -0.25f32, 523.0f32, 0.1f32, 1.0e10f32, 1.0e10f32, 1.0e-7f32, 16777217.0f32
        )
    );
    let path = write_rectangle(&b"a".to_vec(), &b"b".to_vec(), &b"c".to_vec(), &b"d".to_vec());
    assert_eq!(path, b"a b c d re".to_vec());
    assert_eq!(
        write_operators(
            &path,
            &b"e".to_vec(),
            &b"f".to_vec(),
            &b"g".to_vec(),
            &b"N".to_vec()
        ),
        b"q\na b c d re W n\ne 0 0 e f g cm\n/N Do\nQ".to_vec()
    );
}
