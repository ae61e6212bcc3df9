//! Which pixels of a picture are marked, and how.
use crate::detect::{Protrusion, StripShape};
use crate::image::GrayImage;
use crate::picture::{
    band_color, band_marks, color_at, outline_marks, pixel_at, protrusion_color, shape_marks,
    system_marks, Mark, Rgb,
};
use crate::single::Single;
use vstd::prelude::*;

verus! {

/// A row lies on one of the two lines of a band: at the row of its upper or
/// of its lower edge, or in the two rows below.
pub open spec fn on_lines(
    img: &GrayImage,
    shape: StripShape,
    height: Single,
    per_pixel: Single,
    y: int,
) -> bool {
    let top = pixel_at(height.minus(shape.base.y_top), per_pixel, img.height);
    let bot = pixel_at(height.minus(shape.base.y_bot), per_pixel, img.height);
    top <= y <= top + 2 || bot <= y <= bot + 2
}

/// A pixel lies on the outline of a rectangle, which is two pixels wide.
pub open spec fn on_outline(
    img: &GrayImage,
    p: Protrusion,
    height: Single,
    per_pixel: Single,
    x: int,
    y: int,
) -> bool {
    let top = pixel_at(height.minus(p.y_top), per_pixel, img.height);
    let bot = pixel_at(height.minus(p.y_bot), per_pixel, img.height);
    let left = pixel_at(p.x_left, per_pixel, img.width);
    let right = pixel_at(p.x_right, per_pixel, img.width);
    ||| left <= x <= right && (top <= y <= top + 1 || bot <= y <= bot + 1)
    ||| top <= y <= bot && (left <= x <= left + 1 || right <= x <= right + 1)
}

/// A pixel lies on the outline of one of the first `k` rectangles of a
/// shape.
pub open spec fn on_some_outline(
    img: &GrayImage,
    shape: StripShape,
    height: Single,
    per_pixel: Single,
    k: int,
    x: int,
    y: int,
) -> bool {
    exists|j: int|
        0 <= j < k && #[trigger] on_outline(img, shape.protrusions@[j], height, per_pixel, x, y)
}

/// Marks after others decide the colour of a pixel only where they cover
/// it.
proof fn lemma_color_of_more(img: &GrayImage, a: Seq<Mark>, b: Seq<Mark>, x: int, y: int, c: Rgb)
    requires
        forall|i: int| 0 <= i < b.len() && (#[trigger] b[i]).covers(x, y) ==> b[i].color == c,
    ensures
        (exists|i: int| 0 <= i < b.len() && (#[trigger] b[i]).covers(x, y)) ==> color_at(
            img,
            a + b,
            x,
            y,
        ) == c,
        (forall|i: int| 0 <= i < b.len() ==> !(#[trigger] b[i]).covers(x, y)) ==> color_at(
            img,
            a + b,
            x,
            y,
        ) == color_at(img, a, x, y),
    decreases b.len(),
{
    if b.len() == 0 {
        assert(a + b =~= a);
    } else {
        let t = b.drop_last();
        assert((a + b).drop_last() =~= a + t);
        assert((a + b).last() == b.last());
        assert forall|i: int| 0 <= i < t.len() && (#[trigger] t[i]).covers(x, y) implies t[i].color
            == c by {
            assert(t[i] == b[i]);
        }
        lemma_color_of_more(img, a, t, x, y, c);
        assert(b[b.len() - 1] == b.last());
        if !b.last().covers(x, y) {
            if exists|i: int| 0 <= i < b.len() && (#[trigger] b[i]).covers(x, y) {
                let i = choose|i: int| 0 <= i < b.len() && (#[trigger] b[i]).covers(x, y);
                assert(t[i] == b[i]);
            }
            if forall|i: int| 0 <= i < b.len() ==> !(#[trigger] b[i]).covers(x, y) {
                assert forall|i: int| 0 <= i < t.len() implies !(#[trigger] t[i]).covers(x, y) by {
                    assert(t[i] == b[i]);
                }
            }
        }
    }
}

/// The colour of a pixel after the marks of a shape.
proof fn lemma_color_of_shape(
    img: &GrayImage,
    a: Seq<Mark>,
    shape: &StripShape,
    inst: int,
    height: Single,
    per_pixel: Single,
    k: int,
    x: int,
    y: int,
)
    requires
        0 < img.width < u32::MAX,
        0 < img.height < u32::MAX,
        0 <= k <= shape.protrusions@.len(),
        0 <= x < img.width,
        0 <= y < img.height,
    ensures
        color_at(img, a + shape_marks(img, shape, inst, height, per_pixel, k), x, y) == (
        if on_some_outline(img, *shape, height, per_pixel, k, x, y) {
            protrusion_color(inst)
        } else if on_lines(img, *shape, height, per_pixel, y) {
            band_color(inst)
        } else {
            color_at(img, a, x, y)
        }),
    decreases k,
{
    if k == 0 {
        let b = band_marks(img, shape, inst, height, per_pixel);
        assert(b.len() == 2);
        let top = pixel_at(height.minus(shape.base.y_top), per_pixel, img.height);
        let bot = pixel_at(height.minus(shape.base.y_bot), per_pixel, img.height);
        assert(b[0].covers(x, y) == (top <= y <= top + 2));
        assert(b[1].covers(x, y) == (bot <= y <= bot + 2));
        lemma_color_of_more(img, a, b, x, y, band_color(inst));
    } else {
        lemma_color_of_shape(img, a, shape, inst, height, per_pixel, k - 1, x, y);
        let before = shape_marks(img, shape, inst, height, per_pixel, k - 1);
        let b = outline_marks(img, shape, inst, height, per_pixel, k - 1);
        let p = shape.protrusions@[k - 1];
        assert(b.len() == 4);
        let top = pixel_at(height.minus(p.y_top), per_pixel, img.height);
        let bot = pixel_at(height.minus(p.y_bot), per_pixel, img.height);
        let left = pixel_at(p.x_left, per_pixel, img.width);
        let right = pixel_at(p.x_right, per_pixel, img.width);
        assert(b[0].covers(x, y) == (left <= x <= right && top <= y <= top + 1));
        assert(b[1].covers(x, y) == (left <= x <= right && bot <= y <= bot + 1));
        assert(b[2].covers(x, y) == (left <= x <= left + 1 && top <= y <= bot));
        assert(b[3].covers(x, y) == (right <= x <= right + 1 && top <= y <= bot));
        lemma_color_of_more(img, a + before, b, x, y, protrusion_color(inst));
        assert(a + shape_marks(img, shape, inst, height, per_pixel, k) =~= (a + before) + b);
        let here = on_outline(img, p, height, per_pixel, x, y);
        if on_some_outline(img, *shape, height, per_pixel, k, x, y) && !here {
            let j = choose|j: int|
                0 <= j < k && #[trigger] on_outline(
                    img,
                    shape.protrusions@[j],
                    height,
                    per_pixel,
                    x,
                    y,
                );
            assert(0 <= j < k - 1);
        }
    }
}

/// Nothing on a page is painted over but the lines of the bands and the
/// outlines of the protrusions, and each of these is in the colour of its
/// instrument: the last shape that a pixel lies on decides, its protrusions
/// before its band. Any other pixel keeps the grey of the page.
pub proof fn lemma_only_shapes_are_marked(
    img: &GrayImage,
    systems: Seq<[StripShape; 4]>,
    height: Single,
    per_pixel: Single,
    n: int,
    k: int,
    x: int,
    y: int,
)
    requires
        0 < img.width < u32::MAX,
        0 < img.height < u32::MAX,
        0 <= x < img.width,
        0 <= y < img.height,
        -1 <= k < n <= 4 * systems.len(),
        forall|j: int| #![trigger systems[j / 4]@[j % 4]]
            k < j < n ==> !on_lines(img, systems[j / 4]@[j % 4], height, per_pixel, y)
                && !on_some_outline(
                img,
                systems[j / 4]@[j % 4],
                height,
                per_pixel,
                systems[j / 4]@[j % 4].protrusions@.len() as int,
                x,
                y,
            ),
        k >= 0 ==> on_lines(img, systems[k / 4]@[k % 4], height, per_pixel, y) || on_some_outline(
            img,
            systems[k / 4]@[k % 4],
            height,
            per_pixel,
            systems[k / 4]@[k % 4].protrusions@.len() as int,
            x,
            y,
        ),
    ensures
        ({
            let color = color_at(img, system_marks(img, systems, height, per_pixel, n), x, y);
            let v = img.pixel(x, y);
            if k < 0 {
                color == (Rgb { r: v, g: v, b: v })
            } else if on_some_outline(
                img,
                systems[k / 4]@[k % 4],
                height,
                per_pixel,
                systems[k / 4]@[k % 4].protrusions@.len() as int,
                x,
                y,
            ) {
                color == protrusion_color(k % 4)
            } else {
                color == band_color(k % 4)
            }
        }),
    decreases n,
{
    if n > 0 {
        let inst = (n - 1) % 4;
        let shape = systems[(n - 1) / 4]@[inst];
        let before = system_marks(img, systems, height, per_pixel, n - 1);
        lemma_color_of_shape(
            img,
            before,
            &shape,
            inst,
            height,
            per_pixel,
            shape.protrusions@.len() as int,
            x,
            y,
        );
        if k < n - 1 {
            assert(systems[(n - 1) / 4]@[(n - 1) % 4] == shape);
            lemma_only_shapes_are_marked(img, systems, height, per_pixel, n - 1, k, x, y);
        }
    }
}

/// The instruments are told apart by colour, and from the grey of the page.
pub proof fn lemma_colours_differ(i: int, j: int)
    requires
        0 <= i < 4,
        0 <= j < 4,
    ensures
        i != j ==> band_color(i) != band_color(j),
        i != j ==> protrusion_color(i) != protrusion_color(j),
        band_color(i) != protrusion_color(j),
        !(band_color(i).r == band_color(i).g == band_color(i).b),
        !(protrusion_color(i).r == protrusion_color(i).g == protrusion_color(i).b),
        band_color(0).r > band_color(0).g && band_color(0).r > band_color(0).b,
        band_color(1).g > band_color(1).r && band_color(1).g > band_color(1).b,
        band_color(2).b > band_color(2).r && band_color(2).b > band_color(2).g,
        band_color(3).r == band_color(3).b && band_color(3).r > band_color(3).g,
{
}

} // verus!
