//! A picture of what was detected on a page: the page in grey, with the
//! bands and protrusions marked in colours.
use crate::detect::{StripShape, INCH};
use crate::image::{lemma_offset, GrayImage};
use crate::single::{whole, Single};
use vstd::prelude::*;

verus! {

/// A colour.
#[derive(Clone, Copy, Debug, PartialEq, Eq, Structural)]
pub struct Rgb {
    pub r: u8,
    pub g: u8,
    pub b: u8,
}

/// A picture in colours, row by row from the top.
pub struct RgbImage {
    pub width: u32,
    pub height: u32,
    pub pixels: Vec<Rgb>,
}

/// A rectangle of one colour: columns from `left` up to before `right`,
/// rows from `top` up to before `bottom`.
#[derive(Clone, Copy, Debug, PartialEq, Eq, Structural)]
pub struct Mark {
    pub left: u32,
    pub right: u32,
    pub top: u32,
    pub bottom: u32,
    pub color: Rgb,
}

impl RgbImage {
    /// One colour for each pixel.
    pub open spec fn wf(&self) -> bool {
        self.pixels@.len() == self.width * self.height
    }

    /// The colour in column `x` of row `y`.
    pub open spec fn pixel(&self, x: int, y: int) -> Rgb {
        self.pixels@[y * self.width + x]
    }
}

impl Mark {
    pub open spec fn covers(self, x: int, y: int) -> bool {
        self.left <= x < self.right && self.top <= y < self.bottom
    }
}

/// The colour of each instrument's bands.
pub open spec fn band_color(inst: int) -> Rgb {
    if inst == 0 {
        Rgb { r: 255, g: 50, b: 50 }
    } else if inst == 1 {
        Rgb { r: 50, g: 200, b: 50 }
    } else if inst == 2 {
        Rgb { r: 50, g: 100, b: 255 }
    } else {
        Rgb { r: 200, g: 50, b: 200 }
    }
}

/// The dimmer colour of each instrument's protrusions.
pub open spec fn protrusion_color(inst: int) -> Rgb {
    if inst == 0 {
        Rgb { r: 180, g: 80, b: 80 }
    } else if inst == 1 {
        Rgb { r: 80, g: 150, b: 80 }
    } else if inst == 2 {
        Rgb { r: 80, g: 100, b: 180 }
    } else {
        Rgb { r: 150, g: 80, b: 150 }
    }
}

/// The smaller of two numbers.
pub open spec fn at_most(n: int, limit: int) -> int {
    if n < limit {
        n
    } else {
        limit
    }
}

/// The pixel nearest to a length in points, inside a picture of this size.
pub open spec fn pixel_at(length: Single, per_pixel: Single, size: u32) -> int {
    at_most(length.over(per_pixel).nearest_whole(u32::MAX as int), size - 1)
}

/// A line across the picture, three rows high where there is room.
pub open spec fn line_mark(img: &GrayImage, y: int, color: Rgb) -> Mark {
    Mark {
        left: 0,
        right: img.width,
        top: y as u32,
        bottom: (at_most(y + 2, img.height - 1) + 1) as u32,
        color,
    }
}

/// The two lines of a shape's band.
pub open spec fn band_marks(
    img: &GrayImage,
    shape: &StripShape,
    inst: int,
    height: Single,
    per_pixel: Single,
) -> Seq<Mark> {
    seq![
        line_mark(
            img,
            pixel_at(height.minus(shape.base.y_top), per_pixel, img.height),
            band_color(inst),
        ),
        line_mark(
            img,
            pixel_at(height.minus(shape.base.y_bot), per_pixel, img.height),
            band_color(inst),
        ),
    ]
}

/// The outline of protrusion `k` of a shape: its top, bottom, left and
/// right edge, each two pixels wide where there is room.
pub open spec fn outline_marks(
    img: &GrayImage,
    shape: &StripShape,
    inst: int,
    height: Single,
    per_pixel: Single,
    k: int,
) -> Seq<Mark> {
    let p = shape.protrusions@[k];
    let top = pixel_at(height.minus(p.y_top), per_pixel, img.height);
    let bot = pixel_at(height.minus(p.y_bot), per_pixel, img.height);
    let left = pixel_at(p.x_left, per_pixel, img.width);
    let right = pixel_at(p.x_right, per_pixel, img.width);
    let color = protrusion_color(inst);
    let across = Mark {
        left: left as u32,
        right: (right + 1) as u32,
        top: top as u32,
        bottom: (at_most(top + 1, img.height - 1) + 1) as u32,
        color,
    };
    let down = Mark {
        left: left as u32,
        right: (at_most(left + 1, img.width - 1) + 1) as u32,
        top: top as u32,
        bottom: (bot + 1) as u32,
        color,
    };
    seq![
        across,
        Mark {
            top: bot as u32,
            bottom: (at_most(bot + 1, img.height - 1) + 1) as u32,
            ..across
        },
        down,
        Mark {
            left: right as u32,
            right: (at_most(right + 1, img.width - 1) + 1) as u32,
            ..down
        },
    ]
}

/// The marks of a shape with its first `k` protrusions.
pub open spec fn shape_marks(
    img: &GrayImage,
    shape: &StripShape,
    inst: int,
    height: Single,
    per_pixel: Single,
    k: int,
) -> Seq<Mark>
    decreases k,
{
    if k <= 0 {
        band_marks(img, shape, inst, height, per_pixel)
    } else {
        shape_marks(img, shape, inst, height, per_pixel, k - 1) + outline_marks(
            img,
            shape,
            inst,
            height,
            per_pixel,
            k - 1,
        )
    }
}

/// The marks of the first `k` shapes, counted through all systems.
pub open spec fn system_marks(
    img: &GrayImage,
    systems: Seq<[StripShape; 4]>,
    height: Single,
    per_pixel: Single,
    k: int,
) -> Seq<Mark>
    decreases k,
{
    if k <= 0 {
        Seq::empty()
    } else {
        let inst = (k - 1) % 4;
        let shape = systems[(k - 1) / 4]@[inst];
        system_marks(img, systems, height, per_pixel, k - 1) + shape_marks(
            img,
            &shape,
            inst,
            height,
            per_pixel,
            shape.protrusions@.len() as int,
        )
    }
}

/// The colour of a pixel: that of the last mark that covers it, or the grey
/// of the page.
pub open spec fn color_at(img: &GrayImage, marks: Seq<Mark>, x: int, y: int) -> Rgb
    decreases marks.len(),
{
    if marks.len() == 0 {
        let v = img.pixel(x, y);
        Rgb { r: v, g: v, b: v }
    } else if marks.last().covers(x, y) {
        marks.last().color
    } else {
        color_at(img, marks.drop_last(), x, y)
    }
}

/// Marks lie inside the picture.
pub open spec fn inside(img: &GrayImage, m: Mark) -> bool {
    m.right <= img.width && m.bottom <= img.height
}

fn find_band_color(inst: usize) -> (r: Rgb)
    requires
        inst < 4,
    ensures
        r == band_color(inst as int),
{
    if inst == 0 {
        Rgb { r: 255, g: 50, b: 50 }
    } else if inst == 1 {
        Rgb { r: 50, g: 200, b: 50 }
    } else if inst == 2 {
        Rgb { r: 50, g: 100, b: 255 }
    } else {
        Rgb { r: 200, g: 50, b: 200 }
    }
}

fn find_protrusion_color(inst: usize) -> (r: Rgb)
    requires
        inst < 4,
    ensures
        r == protrusion_color(inst as int),
{
    if inst == 0 {
        Rgb { r: 180, g: 80, b: 80 }
    } else if inst == 1 {
        Rgb { r: 80, g: 150, b: 80 }
    } else if inst == 2 {
        Rgb { r: 80, g: 100, b: 180 }
    } else {
        Rgb { r: 150, g: 80, b: 150 }
    }
}

fn find_pixel(length: Single, per_pixel: Single, size: u32) -> (r: u32)
    requires
        size > 0,
    ensures
        r == pixel_at(length, per_pixel, size),
        r < size,
{
    let p: u32 = length.over(per_pixel).round_to_u32();
    if p < size - 1 {
        p
    } else {
        size - 1
    }
}

/// One pixel after those from `n` on, so many more where there is room.
fn end_after(n: u32, more: u32, size: u32) -> (r: u32)
    requires
        n < size,
        n + more <= u32::MAX,
    ensures
        r == at_most(n + more, size - 1) + 1,
        r <= size,
{
    if n + more < size - 1 {
        n + more + 1
    } else {
        size
    }
}

/// Adds the marks of a shape.
fn mark_shape(
    img: &GrayImage,
    shape: &StripShape,
    inst: usize,
    height: Single,
    per_pixel: Single,
    marks: &mut Vec<Mark>,
)
    requires
        inst < 4,
        0 < img.height < u32::MAX,
        img.width < u32::MAX,
        shape.protrusions@.len() > 0 ==> img.width > 0,
        forall|j: int| 0 <= j < old(marks)@.len() ==> inside(img, #[trigger] old(marks)@[j]),
    ensures
        final(marks)@ == old(marks)@ + shape_marks(
            img,
            shape,
            inst as int,
            height,
            per_pixel,
            shape.protrusions@.len() as int,
        ),
        forall|j: int| 0 <= j < final(marks)@.len() ==> inside(img, #[trigger] final(marks)@[j]),
{
    let color = find_band_color(inst);
    let top: u32 = find_pixel(height.minus(shape.base.y_top), per_pixel, img.height);
    let bot: u32 = find_pixel(height.minus(shape.base.y_bot), per_pixel, img.height);
    marks.push(
        Mark { left: 0, right: img.width, top, bottom: end_after(top, 2, img.height), color },
    );
    marks.push(
        Mark { left: 0, right: img.width, top: bot, bottom: end_after(bot, 2, img.height), color },
    );
    proof {
        assert(marks@ =~= old(marks)@ + band_marks(img, shape, inst as int, height, per_pixel));
    }
    let dim = find_protrusion_color(inst);
    let mut k: usize = 0;
    while k < shape.protrusions.len()
        invariant
            inst < 4,
            0 < img.height < u32::MAX,
            img.width < u32::MAX,
            shape.protrusions@.len() > 0 ==> img.width > 0,
            dim == protrusion_color(inst as int),
            k <= shape.protrusions@.len(),
            marks@ == old(marks)@ + shape_marks(
                img,
                shape,
                inst as int,
                height,
                per_pixel,
                k as int,
            ),
            forall|j: int| 0 <= j < marks@.len() ==> inside(img, #[trigger] marks@[j]),
        decreases shape.protrusions@.len() - k,
    {
        let p = shape.protrusions[k];
        let top: u32 = find_pixel(height.minus(p.y_top), per_pixel, img.height);
        let bot: u32 = find_pixel(height.minus(p.y_bot), per_pixel, img.height);
        let left: u32 = find_pixel(p.x_left, per_pixel, img.width);
        let right: u32 = find_pixel(p.x_right, per_pixel, img.width);
        let ghost before = marks@;
        marks.push(
            Mark { left, right: right + 1, top, bottom: end_after(top, 1, img.height), color: dim },
        );
        marks.push(
            Mark {
                left,
                right: right + 1,
                top: bot,
                bottom: end_after(bot, 1, img.height),
                color: dim,
            },
        );
        marks.push(
            Mark { left, right: end_after(left, 1, img.width), top, bottom: bot + 1, color: dim },
        );
        marks.push(
            Mark {
                left: right,
                right: end_after(right, 1, img.width),
                top,
                bottom: bot + 1,
                color: dim,
            },
        );
        proof {
            assert(marks@ =~= before + outline_marks(
                img,
                shape,
                inst as int,
                height,
                per_pixel,
                k as int,
            ));
            assert(marks@ =~= old(marks)@ + shape_marks(
                img,
                shape,
                inst as int,
                height,
                per_pixel,
                k + 1,
            ));
        }
        k = k + 1;
    }
}

/// Paints a mark.
fn paint(picture: &mut RgbImage, mark: Mark)
    requires
        old(picture).wf(),
        mark.right <= old(picture).width,
        mark.bottom <= old(picture).height,
    ensures
        final(picture).wf(),
        final(picture).width == old(picture).width,
        final(picture).height == old(picture).height,
        forall|x: int, y: int|
            0 <= x < old(picture).width && 0 <= y < old(picture).height ==> (
            #[trigger] final(picture).pixel(x, y)) == (if mark.covers(x, y) {
                mark.color
            } else {
                old(picture).pixel(x, y)
            }),
{
    let width: u32 = picture.width;
    let height: u32 = picture.height;
    let ghost first = picture.pixels@;
    let mut pixels: Vec<Rgb> = Vec::new();
    std::mem::swap(&mut pixels, &mut picture.pixels);
    let mut y: u32 = mark.top;
    while y < mark.bottom
        invariant
            mark.right <= width,
            mark.bottom <= height,
            first.len() == width * height,
            pixels@.len() == first.len(),
            mark.top <= y,
            y <= mark.bottom || y == mark.top,
            forall|i: int, j: int|
                0 <= i < width && 0 <= j < height ==> #[trigger] pixels@[j * width + i] == (
                if mark.covers(i, j) && j < y {
                    mark.color
                } else {
                    first[j * width + i]
                }),
        decreases mark.bottom - y,
    {
        let mut x: u32 = mark.left;
        while x < mark.right
            invariant
                mark.right <= width,
                mark.bottom <= height,
                mark.top <= y < mark.bottom,
                first.len() == width * height,
                pixels@.len() == first.len(),
                pixels@.len() == pixels.len(),
                mark.left <= x,
                x <= mark.right || x == mark.left,
                forall|i: int, j: int|
                    0 <= i < width && 0 <= j < height ==> #[trigger] pixels@[j * width + i] == (
                    if mark.covers(i, j) && (j < y || (j == y && i < x)) {
                        mark.color
                    } else {
                        first[j * width + i]
                    }),
            decreases mark.right - x,
        {
            proof {
                lemma_offset(x as int, y as int, width as int, height as int);
            }
            let at: usize = (y as usize) * (width as usize) + (x as usize);
            let ghost before = pixels@;
            pixels.set(at, mark.color);
            proof {
                assert forall|i: int, j: int| 0 <= i < width && 0 <= j < height implies (
                #[trigger] pixels@[j * width + i]) == (if mark.covers(i, j) && (j < y || (j == y
                    && i < x + 1)) {
                    mark.color
                } else {
                    first[j * width + i]
                }) by {
                    lemma_offset(i, j, width as int, height as int);
                    let old_value = before[j * width + i];
                    if j * width + i == at {
                        lemma_same_place(i, j, x as int, y as int, width as int);
                    } else {
                        assert(pixels@[j * width + i] == old_value);
                    }
                }
            }
            x = x + 1;
        }
        y = y + 1;
    }
    std::mem::swap(&mut pixels, &mut picture.pixels);
}

/// Different pixels have different places.
proof fn lemma_same_place(i: int, j: int, x: int, y: int, w: int)
    requires
        0 <= i < w,
        0 <= x < w,
        j * w + i == y * w + x,
    ensures
        i == x,
        j == y,
{
    assert(j == y) by (nonlinear_arith)
        requires
            0 <= i < w,
            0 <= x < w,
            j * w + i == y * w + x,
    ;
}

/// Draws what was detected on a page.
pub fn draw_debug_image(
    img: &GrayImage,
    systems: &Vec<[StripShape; 4]>,
    page_height_pts: Single,
    dpi: u32,
) -> (picture: RgbImage)
    requires
        img.wf(),
        img.width < u32::MAX,
        img.height < u32::MAX,
        systems@.len() > 0 ==> img.height > 0,
        4 * systems@.len() <= usize::MAX,
        forall|s: int, i: int|
            0 <= s < systems@.len() && 0 <= i < 4 && (
            #[trigger] systems@[s]@[i]).protrusions@.len() > 0 ==> img.width > 0,
    ensures
        picture.wf(),
        picture.width == img.width,
        picture.height == img.height,
        forall|x: int, y: int|
            0 <= x < img.width && 0 <= y < img.height ==> #[trigger] picture.pixel(x, y)
                == color_at(
                img,
                system_marks(
                    img,
                    systems@,
                    page_height_pts,
                    Single { bits: INCH }.over(whole(dpi as int)),
                    4 * systems@.len() as int,
                ),
                x,
                y,
            ),
{
    let per_pixel = Single { bits: INCH }.over(Single::from_u32(dpi));
    let mut marks: Vec<Mark> = Vec::new();
    let total: usize = 4 * systems.len();
    let mut k: usize = 0;
    while k < total
        invariant
            total == 4 * systems@.len(),
            img.width < u32::MAX,
            img.height < u32::MAX,
            systems@.len() > 0 ==> img.height > 0,
            forall|s: int, i: int|
                0 <= s < systems@.len() && 0 <= i < 4 && (
                #[trigger] systems@[s]@[i]).protrusions@.len() > 0 ==> img.width > 0,
            k <= total,
            marks@ == system_marks(img, systems@, page_height_pts, per_pixel, k as int),
            forall|j: int| 0 <= j < marks@.len() ==> inside(img, #[trigger] marks@[j]),
        decreases total - k,
    {
        let s: usize = k / 4;
        let inst: usize = k % 4;
        let system = &systems[s];
        let shape = &system[inst];
        assert(systems@[s as int]@[inst as int] == *shape);
        mark_shape(img, shape, inst, page_height_pts, per_pixel, &mut marks);
        k = k + 1;
    }
    let mut pixels: Vec<Rgb> = Vec::new();
    let mut i: usize = 0;
    while i < img.pixels.len()
        invariant
            i <= img.pixels@.len(),
            pixels@.len() == i,
            forall|j: int|
                0 <= j < i ==> #[trigger] pixels@[j] == (Rgb {
                    r: img.pixels@[j],
                    g: img.pixels@[j],
                    b: img.pixels@[j],
                }),
        decreases img.pixels@.len() - i,
    {
        let v: u8 = img.pixels[i];
        pixels.push(Rgb { r: v, g: v, b: v });
        i = i + 1;
    }
    let mut picture = RgbImage { width: img.width, height: img.height, pixels };
    proof {
        assert(marks@.take(0) =~= Seq::<Mark>::empty());
        assert forall|x: int, y: int|
            0 <= x < img.width && 0 <= y < img.height implies #[trigger] picture.pixel(x, y)
            == color_at(img, marks@.take(0), x, y) by {
            lemma_offset(x, y, img.width as int, img.height as int);
        }
    }
    let mut m: usize = 0;
    while m < marks.len()
        invariant
            m <= marks@.len(),
            picture.wf(),
            picture.width == img.width,
            picture.height == img.height,
            forall|j: int| 0 <= j < marks@.len() ==> inside(img, #[trigger] marks@[j]),
            forall|x: int, y: int|
                0 <= x < img.width && 0 <= y < img.height ==> #[trigger] picture.pixel(x, y)
                    == color_at(img, marks@.take(m as int), x, y),
        decreases marks@.len() - m,
    {
        let mark = marks[m];
        proof {
            assert(inside(img, marks@[m as int]));
            assert(marks@.take(m + 1).drop_last() =~= marks@.take(m as int));
        }
        paint(&mut picture, mark);
        m = m + 1;
    }
    assert(marks@.take(m as int) =~= marks@);
    picture
}

} // verus!
