//! Laying out the strips of a part on pages.
use crate::bounds::lemma_minus_shrinks;
use crate::detect::{Band, Protrusion, StripShape};
use crate::order::{sum, sum_range};
use crate::pages::{PAGE_H, PAGE_W};
use crate::signal::TWO;
use crate::single::{whole, Single};
use crate::text::{
    append_bytes, drawing_text, form_name, name_text, write_drawing, Placement, Rect,
};
use vstd::prelude::*;
use vstd::string::*;

verus! {

/// 36, the margin of a page in points.
pub const MARGIN: u32 = 0x4210_0000;

/// 10, the least distance between strips in points.
pub const MIN_GAP: u32 = 0x4120_0000;

/// 25, the greatest distance between strips in points: two and a half times
/// the least.
pub const MAX_GAP: u32 = 0x41c8_0000;

/// 1.
pub const ONE: u32 = 0x3f80_0000;

/// The width that a page has between its margins.
pub open spec fn inner_width() -> Single {
    (Single { bits: PAGE_W }).minus((Single { bits: TWO }).times(Single { bits: MARGIN }))
}

/// The height that a page has between its margins.
pub open spec fn inner_height() -> Single {
    (Single { bits: PAGE_H }).minus((Single { bits: TWO }).times(Single { bits: MARGIN }))
}

/// The height of a band, scaled.
pub open spec fn scaled_height(band: Band, scale: Single) -> Single {
    band.y_top.minus(band.y_bot).times(scale)
}

/// What is filled of a page after the first `k` strips.
pub open spec fn filled(heights: Seq<Single>, header: Option<Single>, k: int) -> Single
    decreases k,
{
    let gap = Single { bits: MIN_GAP };
    if k <= 0 {
        match header {
            Some(h) => h.plus(gap),
            None => Single { bits: 0 },
        }
    } else {
        let h = heights[k - 1];
        let before = filled(heights, header, k - 1);
        if k == 1 {
            before.plus(h)
        } else if inner_height().lt(before.plus(gap).plus(h)) {
            h
        } else {
            before.plus(gap.plus(h))
        }
    }
}

/// Strip `k` starts a page: it is the first, or it does not fit below the
/// strips before it.
pub open spec fn starts_page(heights: Seq<Single>, header: Option<Single>, k: int) -> bool {
    k == 0 || inner_height().lt(
        filled(heights, header, k).plus(Single { bits: MIN_GAP }).plus(heights[k]),
    )
}

/// The page breaks for strips of these heights.
pub open spec fn page_breaks(heights: Seq<Single>, header: Option<Single>) -> Seq<bool> {
    Seq::new(heights.len(), |k: int| starts_page(heights, header, k))
}

pub(crate) fn find_inner_width() -> (r: Single)
    ensures
        r == inner_width(),
{
    Single { bits: PAGE_W }.minus(Single { bits: TWO }.times(Single { bits: MARGIN }))
}

pub(crate) fn find_inner_height() -> (r: Single)
    ensures
        r == inner_height(),
{
    Single { bits: PAGE_H }.minus(Single { bits: TWO }.times(Single { bits: MARGIN }))
}

/// Finds which strips start a new page.
pub fn compute_page_breaks(strip_heights: &Vec<Single>, header_h: Option<Single>) -> (r: Vec<bool>)
    ensures
        r@ == page_breaks(strip_heights@, header_h),
{
    let gap = Single { bits: MIN_GAP };
    let avail = find_inner_height();
    let mut breaks: Vec<bool> = Vec::new();
    let mut cur = match header_h {
        Some(h) => h.plus(gap),
        None => Single { bits: 0 },
    };
    let mut i: usize = 0;
    while i < strip_heights.len()
        invariant
            gap == (Single { bits: MIN_GAP }),
            avail == inner_height(),
            i <= strip_heights@.len(),
            cur == filled(strip_heights@, header_h, i as int),
            breaks@.len() == i,
            forall|k: int|
                0 <= k < i ==> #[trigger] breaks@[k] == starts_page(strip_heights@, header_h, k),
        decreases strip_heights@.len() - i,
    {
        let h = strip_heights[i];
        if i == 0 {
            breaks.push(true);
            cur = cur.plus(h);
        } else if avail.lt(cur.plus(gap).plus(h)) {
            breaks.push(true);
            cur = h;
        } else {
            breaks.push(false);
            cur = cur.plus(gap.plus(h));
        }
        i = i + 1;
    }
    assert(breaks@ =~= page_breaks(strip_heights@, header_h));
    breaks
}

/// A strip of a source page, to be shown on a page of a part.
#[verifier::ext_equal]
pub struct Strip {
    /// The form that shows the source page.
    pub form: (u32, u16),
    /// What to show of it: this band, and what reaches out of it.
    pub band: Band,
    pub protrusions: Seq<Protrusion>,
    /// How much larger it is shown.
    pub scale: Single,
    /// How high the band is then.
    pub height: Single,
    /// The width and the height of the source page, where it is shown whole.
    pub page: Option<(Single, Single)>,
}

/// A strip with a reference to the shape that it shows; one without shows
/// the whole source page, which is so wide and so high.
#[derive(Clone, Copy)]
pub struct StripRef<'a> {
    pub form: (u32, u16),
    pub shape: Option<&'a StripShape>,
    pub scale: Single,
    pub width: Single,
    pub height: Single,
}

/// The strip that shows a whole page of this size.
pub open spec fn whole_page(form: (u32, u16), width: Single, height: Single) -> Strip {
    Strip {
        form,
        band: Band { y_top: height, y_bot: Single { bits: 0 } },
        protrusions: Seq::empty(),
        scale: Single { bits: ONE },
        height,
        page: Some((width, height)),
    }
}

impl<'a> StripRef<'a> {
    pub open spec fn view(&self) -> Strip {
        match self.shape {
            Some(shape) => Strip {
                form: self.form,
                band: shape.base,
                protrusions: shape.protrusions@,
                scale: self.scale,
                height: self.height,
                page: None,
            },
            None => whole_page(self.form, self.width, self.height),
        }
    }
}

/// What strips are.
pub open spec fn strips_in(strips: Seq<StripRef>) -> Seq<Strip> {
    strips.map_values(|s: StripRef| s@)
}

/// The strips of each page.
pub open spec fn views(pages: Seq<Vec<StripRef>>) -> Seq<Seq<Strip>> {
    pages.map_values(|v: Vec<StripRef>| strips_in(v@))
}

/// A strip that is shown: one with a height, or a whole page.
pub open spec fn shown(s: Strip) -> bool {
    s.page is Some || (Single { bits: 0 }).lt(s.height)
}

/// The header as a strip before the strip `s`, where it has a height. A
/// whole page has its own.
pub open spec fn header_strip(header: Option<(Band, Seq<Protrusion>)>, s: Strip) -> Seq<Strip> {
    match header {
        Some((band, protrusions)) => {
            let height = scaled_height(band, s.scale);
            if s.page is None && (Single { bits: 0 }).lt(height) {
                seq![Strip { band, protrusions, height, ..s }]
            } else {
                Seq::empty()
            }
        },
        None => Seq::empty(),
    }
}

/// Strip `k` starts a page: there is a break, or it is a whole page, or one
/// comes before it.
pub open spec fn starts(strips: Seq<Strip>, breaks: Seq<bool>, k: int) -> bool {
    breaks[k] || strips[k].page is Some || (k > 0 && strips[k - 1].page is Some)
}

/// The first `k` strips on their pages. The header comes before the first
/// strip, a whole page stands alone, and a strip without height is left
/// out.
pub open spec fn paged(
    strips: Seq<Strip>,
    header: Option<(Band, Seq<Protrusion>)>,
    breaks: Seq<bool>,
    k: int,
) -> Seq<Seq<Strip>>
    decreases k,
{
    if k <= 0 {
        Seq::empty()
    } else {
        let open = opened_at(strips, header, breaks, k);
        let s = strips[k - 1];
        if shown(s) {
            open.update(open.len() - 1, open.last().push(s))
        } else {
            open
        }
    }
}

/// The pages that are there when strip `k - 1` is put on one.
pub open spec fn opened_at(
    strips: Seq<Strip>,
    header: Option<(Band, Seq<Protrusion>)>,
    breaks: Seq<bool>,
    k: int,
) -> Seq<Seq<Strip>>
    decreases k, 0nat,
    when k > 0
{
    let before = paged(strips, header, breaks, k - 1);
    if starts(strips, breaks, k - 1) {
        before.push(
            if k == 1 {
                header_strip(header, strips[k - 1])
            } else {
                Seq::empty()
            },
        )
    } else {
        before
    }
}

/// Every strip that is shown has a page to stand on.
pub open spec fn opened(strips: Seq<Strip>, breaks: Seq<bool>) -> bool {
    forall|k: int|
        0 <= k < strips.len() && shown(#[trigger] strips[k]) ==> exists|j: int|
            0 <= j <= k && #[trigger] starts(strips, breaks, j)
}

/// Pages are opened where strips start them.
pub(crate) proof fn lemma_paged_len(
    strips: Seq<Strip>,
    header: Option<(Band, Seq<Protrusion>)>,
    breaks: Seq<bool>,
    k: int,
)
    requires
        0 <= k <= strips.len(),
        exists|j: int| 0 <= j < k && #[trigger] starts(strips, breaks, j),
    ensures
        paged(strips, header, breaks, k).len() > 0,
        opened_at(strips, header, breaks, k).len() > 0,
    decreases k,
{
    if !starts(strips, breaks, k - 1) {
        let j = choose|j: int| 0 <= j < k && #[trigger] starts(strips, breaks, j);
        assert(0 <= j < k - 1 && starts(strips, breaks, j));
        lemma_paged_len(strips, header, breaks, k - 1);
    }
}

/// A strip that is shown finds a page.
pub(crate) proof fn lemma_page_is_open(
    strips: Seq<Strip>,
    header: Option<(Band, Seq<Protrusion>)>,
    breaks: Seq<bool>,
    k: int,
)
    requires
        0 < k <= strips.len(),
        opened(strips, breaks),
        shown(strips[k - 1]),
    ensures
        opened_at(strips, header, breaks, k).len() > 0,
{
    let j = choose|j: int| 0 <= j <= k - 1 && #[trigger] starts(strips, breaks, j);
    assert(0 <= j < k && starts(strips, breaks, j));
    lemma_paged_len(strips, header, breaks, k);
}

/// What a header is.
pub open spec fn header_of(header: Option<&StripShape>) -> Option<(Band, Seq<Protrusion>)> {
    match header {
        Some(shape) => Some((shape.base, shape.protrusions@)),
        None => None,
    }
}

/// The header as a strip, where it has a height.
fn make_header_strip<'a>(header: Option<&'a StripShape>, s: StripRef<'a>) -> (r: Vec<StripRef<'a>>)
    ensures
        strips_in(r@) == header_strip(header_of(header), s@),
{
    let mut r: Vec<StripRef<'a>> = Vec::new();
    if let Some(shape) = header {
        let height = shape.base.y_top.minus(shape.base.y_bot).times(s.scale);
        if s.shape.is_some() && Single::lt(Single { bits: 0 }, height) {
            r.push(
                StripRef {
                    form: s.form,
                    shape: Some(shape),
                    scale: s.scale,
                    width: s.width,
                    height,
                },
            );
        }
    }
    assert(strips_in(r@) =~= header_strip(header_of(header), s@));
    r
}

/// Puts strips on their pages.
pub fn group_strips<'a>(
    strips: &Vec<StripRef<'a>>,
    header: Option<&'a StripShape>,
    breaks: &Vec<bool>,
) -> (r: Vec<Vec<StripRef<'a>>>)
    requires
        breaks@.len() >= strips@.len(),
        opened(strips_in(strips@), breaks@),
    ensures
        views(r@) == paged(
            strips_in(strips@),
            header_of(header),
            breaks@,
            strips@.len() as int,
        ),
{
    let ghost h = header_of(header);
    let ghost seen = strips_in(strips@);
    let mut pages: Vec<Vec<StripRef<'a>>> = Vec::new();
    let mut i: usize = 0;
    assert(views(pages@) =~= Seq::<Seq<Strip>>::empty());
    while i < strips.len()
        invariant
            h == header_of(header),
            seen == strips_in(strips@),
            seen.len() == strips@.len(),
            breaks@.len() >= strips@.len(),
            opened(seen, breaks@),
            i <= strips@.len(),
            views(pages@) == paged(seen, h, breaks@, i as int),
        decreases strips@.len() - i,
    {
        let s = strips[i];
        let ghost before = pages@;
        assert(seen[i as int] == s@);
        assert(i > 0 ==> seen[i - 1] == strips@[i - 1]@);
        if breaks[i] || s.shape.is_none() || (i > 0 && strips[i - 1].shape.is_none()) {
            let start = if i == 0 {
                make_header_strip(header, s)
            } else {
                Vec::new()
            };
            proof {
                if i > 0 {
                    assert(strips_in(start@) =~= Seq::<Strip>::empty());
                }
                assert(views(before.push(start)) =~= views(before).push(strips_in(start@)));
            }
            pages.push(start);
        }
        let ghost open = pages@;
        assert(views(open) == opened_at(seen, h, breaks@, i + 1));
        if s.shape.is_none() || Single::lt(Single { bits: 0 }, s.height) {
            proof {
                lemma_page_is_open(seen, h, breaks@, i + 1);
                assert(views(open).len() == open.len());
            }
            let mut page = pages.pop().unwrap();
            let ghost was = page@;
            page.push(s);
            pages.push(page);
            proof {
                assert(strips_in(was.push(s)) =~= strips_in(was).push(s@));
                assert(views(pages@) =~= views(open).update(
                    views(open).len() - 1,
                    views(open).last().push(s@),
                ));
            }
        }
        i = i + 1;
    }
    pages
}

/// The heights of strips.
pub open spec fn heights(strips: Seq<Strip>) -> Seq<Single> {
    strips.map_values(|s: Strip| s.height)
}

/// The distance between the strips of a page: what spreads them over the
/// page, kept between the least and the greatest.
pub open spec fn gap_of(strips: Seq<Strip>) -> Single {
    if strips.len() > 1 {
        inner_height().minus(sum(heights(strips))).over(whole(strips.len() - 1)).clamp(
            Single { bits: MIN_GAP },
            Single { bits: MAX_GAP },
        )
    } else {
        Single { bits: 0 }
    }
}

/// Where strip `i` of a page starts, from the bottom of the page.
pub open spec fn top_of(strips: Seq<Strip>, i: int) -> Single
    decreases i,
{
    if i <= 0 {
        (Single { bits: PAGE_H }).minus(Single { bits: MARGIN })
    } else {
        top_of(strips, i - 1).minus(strips[i - 1].height).minus(gap_of(strips))
    }
}

/// Where strip `i` of a page ends.
pub open spec fn bottom_of(strips: Seq<Strip>, i: int) -> Single {
    top_of(strips, i).minus(strips[i].height)
}

/// How the form of strip `i` of a page is placed: its band lands between
/// its top and its bottom. A whole page stays where it is.
pub open spec fn placement_of(strips: Seq<Strip>, i: int) -> Placement {
    let s = strips[i];
    if s.page is Some {
        Placement { scale: s.scale, move_x: Single { bits: 0 }, move_y: Single { bits: 0 } }
    } else {
        Placement {
            scale: s.scale,
            move_x: Single { bits: MARGIN },
            move_y: bottom_of(strips, i).minus(s.band.y_bot.times(s.scale)),
        }
    }
}

/// Where a protrusion lands.
pub open spec fn placed(p: Protrusion, at: Placement) -> Rect {
    Rect {
        left: at.move_x.plus(p.x_left.times(at.scale)),
        bottom: at.move_y.plus(p.y_bot.times(at.scale)),
        width: p.x_right.minus(p.x_left).times(at.scale),
        height: p.y_top.minus(p.y_bot).times(at.scale),
    }
}

/// What strip `i` of a page is clipped to: the band from margin to margin,
/// and each protrusion; or the whole page.
pub open spec fn clip_of(strips: Seq<Strip>, i: int) -> Seq<Rect> {
    let s = strips[i];
    match s.page {
        Some((width, height)) => seq![
            Rect { left: Single { bits: 0 }, bottom: Single { bits: 0 }, width, height },
        ],
        None => seq![
            Rect {
                left: Single { bits: MARGIN },
                bottom: bottom_of(strips, i),
                width: inner_width(),
                height: s.height,
            },
        ] + s.protrusions.map_values(|p: Protrusion| placed(p, placement_of(strips, i))),
    }
}

/// The text of a page with the first `k` of these strips, on which the
/// forms are numbered from `first`.
pub open spec fn page_text(strips: Seq<Strip>, first: nat, k: int) -> Seq<u8>
    decreases k,
{
    if k <= 0 {
        Seq::empty()
    } else {
        let text = drawing_text(
            clip_of(strips, k - 1),
            placement_of(strips, k - 1),
            form_name((first + k - 1) as nat),
        );
        if k == 1 {
            text
        } else {
            page_text(strips, first, k - 1) + "\n".spec_bytes() + text
        }
    }
}

/// The size of a page with these strips: that of the whole page that it
/// shows, or the usual one.
pub open spec fn size_of(strips: Seq<Strip>) -> (Single, Single) {
    match strips[0].page {
        Some(size) => size,
        None => (Single { bits: PAGE_W }, Single { bits: PAGE_H }),
    }
}

/// Finds the distance between the strips of a page.
pub fn find_gap(strips: &Vec<StripRef>) -> (r: Single)
    ensures
        r == gap_of(strips_in(strips@)),
{
    let n: usize = strips.len();
    if n <= 1 {
        return Single { bits: 0 };
    }
    let mut list: Vec<Single> = Vec::new();
    let mut i: usize = 0;
    while i < n
        invariant
            n == strips@.len(),
            i <= n,
            list@.len() == i,
            forall|k: int| 0 <= k < i ==> #[trigger] list@[k] == strips@[k]@.height,
        decreases n - i,
    {
        list.push(strips[i].height);
        i = i + 1;
    }
    let total = sum_range(&list, 0, n);
    assert(list@.subrange(0, n as int) =~= heights(strips_in(strips@)));
    let spread = find_inner_height().minus(total).over(Single::from_usize(n - 1));
    spread.clamp(Single { bits: MIN_GAP }, Single { bits: MAX_GAP })
}

/// Finds the size of a page with these strips.
pub(crate) fn find_size(strips: &Vec<StripRef>) -> (r: (Single, Single))
    requires
        strips@.len() > 0,
    ensures
        r == size_of(strips_in(strips@)),
{
    let s = strips[0];
    assert(strips_in(strips@)[0] == s@);
    if s.shape.is_none() {
        (s.width, s.height)
    } else {
        (Single { bits: PAGE_W }, Single { bits: PAGE_H })
    }
}

/// The rectangles that a strip is clipped to, `bottom` being where its band
/// ends.
fn find_clip(s: StripRef, at: Placement, bottom: Single, Ghost(strips): Ghost<Seq<Strip>>, Ghost(
    i,
): Ghost<int>) -> (r: Vec<Rect>)
    requires
        0 <= i < strips.len(),
        strips[i] == s@,
        at == placement_of(strips, i),
        bottom == bottom_of(strips, i),
    ensures
        r@ == clip_of(strips, i),
{
    let mut r: Vec<Rect> = Vec::new();
    match s.shape {
        None => {
            let zero = Single { bits: 0 };
            r.push(Rect { left: zero, bottom: zero, width: s.width, height: s.height });
            assert(r@ =~= clip_of(strips, i));
        },
        Some(shape) => {
            r.push(
                Rect {
                    left: Single { bits: MARGIN },
                    bottom,
                    width: find_inner_width(),
                    height: s.height,
                },
            );
            let mut k: usize = 0;
            while k < shape.protrusions.len()
                invariant
                    0 <= i < strips.len(),
                    strips[i].protrusions == shape.protrusions@,
                    strips[i].page is None,
                    at == placement_of(strips, i),
                    k <= shape.protrusions@.len(),
                    clip_of(strips, i).len() == 1 + shape.protrusions@.len(),
                    r@ == clip_of(strips, i).take(k + 1),
                decreases shape.protrusions@.len() - k,
            {
                let p = shape.protrusions[k];
                let c = Rect {
                    left: at.move_x.plus(p.x_left.times(at.scale)),
                    bottom: at.move_y.plus(p.y_bot.times(at.scale)),
                    width: p.x_right.minus(p.x_left).times(at.scale),
                    height: p.y_top.minus(p.y_bot).times(at.scale),
                };
                r.push(c);
                proof {
                    assert(clip_of(strips, i)[k + 1] == c);
                    assert(r@ =~= clip_of(strips, i).take(k + 2));
                }
                k = k + 1;
            }
            assert(clip_of(strips, i).take(k + 1) =~= clip_of(strips, i));
        },
    }
    r
}

/// Writes the text of a page with these strips.
pub fn write_page(strips: &Vec<StripRef>, first: usize) -> (r: Vec<u8>)
    requires
        first + strips@.len() <= usize::MAX,
    ensures
        r@ == page_text(strips_in(strips@), first as nat, strips@.len() as int),
{
    let ghost seen = strips_in(strips@);
    let gap = find_gap(strips);
    let margin = Single { bits: MARGIN };
    let mut top = Single { bits: PAGE_H }.minus(margin);
    let mut r: Vec<u8> = Vec::new();
    let mut i: usize = 0;
    while i < strips.len()
        invariant
            first + strips@.len() <= usize::MAX,
            seen == strips_in(strips@),
            seen.len() == strips@.len(),
            gap == gap_of(seen),
            margin == (Single { bits: MARGIN }),
            i <= strips@.len(),
            top == top_of(seen, i as int),
            r@ == page_text(seen, first as nat, i as int),
        decreases strips@.len() - i,
    {
        let s = strips[i];
        assert(seen[i as int] == s@);
        let bottom = top.minus(s.height);
        let at = match s.shape {
            None => Placement {
                scale: Single { bits: ONE },
                move_x: Single { bits: 0 },
                move_y: Single { bits: 0 },
            },
            Some(shape) => Placement {
                scale: s.scale,
                move_x: margin,
                move_y: bottom.minus(shape.base.y_bot.times(s.scale)),
            },
        };
        let clip = find_clip(s, at, bottom, Ghost(seen), Ghost(i as int));
        let name = name_text(first + i);
        let text = write_drawing(&clip, at, &name);
        if i > 0 {
            append_bytes(&mut r, "\n".as_bytes());
        }
        append_bytes(&mut r, text.as_slice());
        proof {
            if i == 0 {
                assert(r@ =~= text@);
            }
        }
        top = bottom.minus(gap);
        i = i + 1;
    }
    r
}

/// The strips of all pages, one after the other.
pub open spec fn in_sequence(groups: Seq<Seq<Strip>>) -> Seq<Strip>
    decreases groups.len(),
{
    if groups.len() == 0 {
        Seq::empty()
    } else {
        in_sequence(groups.drop_last()) + groups.last()
    }
}

/// The strips that are shown.
pub open spec fn visible(strips: Seq<Strip>) -> Seq<Strip> {
    strips.filter(|s: Strip| shown(s))
}

/// No strip is lost, none comes twice and none changes places: read page by
/// page, there is the header, and then every strip that is shown, in order.
pub proof fn lemma_nothing_is_lost(
    strips: Seq<Strip>,
    header: Option<(Band, Seq<Protrusion>)>,
    breaks: Seq<bool>,
    k: int,
)
    requires
        0 <= k <= strips.len(),
        breaks.len() >= strips.len(),
        strips.len() > 0 ==> breaks[0],
    ensures
        in_sequence(paged(strips, header, breaks, k)) == (if k > 0 {
            header_strip(header, strips[0])
        } else {
            Seq::empty()
        }) + visible(strips.take(k)),
    decreases k,
{
    reveal(Seq::filter);
    if k == 0 {
        assert(strips.take(0) =~= Seq::<Strip>::empty());
    } else {
        lemma_nothing_is_lost(strips, header, breaks, k - 1);
        let before = paged(strips, header, breaks, k - 1);
        let after = paged(strips, header, breaks, k);
        let open = opened_at(strips, header, breaks, k);
        let s = strips[k - 1];
        let start = if k == 1 {
            header_strip(header, s)
        } else {
            Seq::empty()
        };
        if starts(strips, breaks, k - 1) {
            assert(open.drop_last() =~= before);
            assert(in_sequence(open) =~= in_sequence(before) + start);
        }
        assert(strips.take(k).drop_last() =~= strips.take(k - 1));
        assert(strips.take(k).last() == s);
        assert(starts(strips, breaks, 0));
        lemma_paged_len(strips, header, breaks, k);
        if shown(s) {
            assert(after.drop_last() =~= open.drop_last());
            assert(after.last() == open.last().push(s));
            assert(in_sequence(after) =~= in_sequence(open).push(s));
            assert(visible(strips.take(k)) =~= visible(strips.take(k - 1)).push(s));
        } else {
            assert(visible(strips.take(k)) =~= visible(strips.take(k - 1)));
        }
        assert(in_sequence(after) =~= (header_strip(header, strips[0])) + visible(strips.take(k)));
    }
}

/// A page that is shown whole has a page of its own: nothing else stands on
/// it.
pub proof fn lemma_whole_pages_stand_alone(
    strips: Seq<Strip>,
    header: Option<(Band, Seq<Protrusion>)>,
    breaks: Seq<bool>,
    k: int,
    g: int,
    i: int,
)
    requires
        0 <= k <= strips.len(),
        opened(strips, breaks),
        0 <= g < paged(strips, header, breaks, k).len(),
        0 <= i < paged(strips, header, breaks, k)[g].len(),
        paged(strips, header, breaks, k)[g][i].page is Some,
    ensures
        paged(strips, header, breaks, k)[g].len() == 1,
    decreases k,
{
    let before = paged(strips, header, breaks, k - 1);
    let open = opened_at(strips, header, breaks, k);
    if shown(strips[k - 1]) {
        lemma_page_is_open(strips, header, breaks, k);
    }
    if g < before.len() && i < before[g].len() && before[g][i].page is Some {
        lemma_whole_pages_stand_alone(strips, header, breaks, k - 1, g, i);
        if g == before.len() - 1 && !starts(strips, breaks, k - 1) {
            lemma_last_is_whole(strips, header, breaks, k - 1, i);
        }
    }
}

/// Where a whole page is on the last page so far, it came last.
proof fn lemma_last_is_whole(
    strips: Seq<Strip>,
    header: Option<(Band, Seq<Protrusion>)>,
    breaks: Seq<bool>,
    k: int,
    i: int,
)
    requires
        0 <= k <= strips.len(),
        opened(strips, breaks),
        paged(strips, header, breaks, k).len() > 0,
        0 <= i < paged(strips, header, breaks, k).last().len(),
        paged(strips, header, breaks, k).last()[i].page is Some,
    ensures
        k > 0,
        strips[k - 1].page is Some,
    decreases k,
{
    if k > 0 && strips[k - 1].page is None {
        let before = paged(strips, header, breaks, k - 1);
        if shown(strips[k - 1]) {
            lemma_page_is_open(strips, header, breaks, k);
        }
        if !starts(strips, breaks, k - 1) {
            lemma_last_is_whole(strips, header, breaks, k - 1, i);
        }
    }
}

/// A page starts with a strip that would not fit on the page before, and
/// every other strip fits.
pub proof fn lemma_pages_break_when_full(heights: Seq<Single>, header: Option<Single>, k: int)
    requires
        0 < k < heights.len(),
    ensures
        page_breaks(heights, header)[k] <==> inner_height().lt(
            filled(heights, header, k).plus(Single { bits: MIN_GAP }).plus(heights[k]),
        ),
        page_breaks(heights, header)[0],
{
}

/// The strips of a page are never closer than the least distance, nor
/// farther apart than the greatest.
pub proof fn lemma_gap_is_bounded(strips: Seq<Strip>)
    requires
        strips.len() > 1,
    ensures
        !gap_of(strips).nan() ==> (Single { bits: MIN_GAP }).le(gap_of(strips)) && gap_of(
            strips,
        ).le(Single { bits: MAX_GAP }),
{
}

/// The bands on a page lie one below the other: each ends above the next.
pub proof fn lemma_strips_do_not_overlap(strips: Seq<Strip>, i: int)
    requires
        0 <= i < strips.len() - 1,
        (Single { bits: 0 }).lt(strips[i].height),
        !top_of(strips, i + 1).nan(),
    ensures
        bottom_of(strips, i).le(top_of(strips, i)),
        top_of(strips, i + 1).le(bottom_of(strips, i)),
{
    let gap = gap_of(strips);
    let bottom = bottom_of(strips, i);
    assert(top_of(strips, i + 1) == bottom.minus(gap));
    assert(gap.neg().mag() == gap.mag());
    assert(strips[i].height.neg().mag() == strips[i].height.mag());
    lemma_gap_is_bounded(strips);
    lemma_minus_shrinks(top_of(strips, i), strips[i].height);
    lemma_minus_shrinks(bottom, gap);
}

/// Every strip on a page is one that is shown.
pub proof fn lemma_strips_on_pages_are_shown(
    strips: Seq<Strip>,
    header: Option<(Band, Seq<Protrusion>)>,
    breaks: Seq<bool>,
    k: int,
    g: int,
    i: int,
)
    requires
        0 <= k <= strips.len(),
        opened(strips, breaks),
        0 <= g < paged(strips, header, breaks, k).len(),
        0 <= i < paged(strips, header, breaks, k)[g].len(),
    ensures
        shown(paged(strips, header, breaks, k)[g][i]),
    decreases k,
{
    let before = paged(strips, header, breaks, k - 1);
    if shown(strips[k - 1]) {
        lemma_page_is_open(strips, header, breaks, k);
    }
    if g < before.len() && i < before[g].len() {
        lemma_strips_on_pages_are_shown(strips, header, breaks, k - 1, g, i);
    }
}

} // verus!
