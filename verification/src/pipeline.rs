//! From the pages of a score to the strips of the parts.
use crate::detect::{
    detectable, is_detection, try_detect, Band, Cut, CutView, PageBands, Protrusion, StripShape,
    INCH,
};
use crate::image::GrayImage;
use crate::parts::cuts;
use crate::single::{whole, Single};
use vstd::prelude::*;

verus! {

/// The strips of each part, each with the index of its page and its shape on
/// it, and the shape of the header.
pub struct Score {
    pub violin1: Vec<(u32, Cut)>,
    pub violin2: Vec<(u32, Cut)>,
    pub viola: Vec<(u32, Cut)>,
    pub cello: Vec<(u32, Cut)>,
    pub header: Option<StripShape>,
}

/// What a page adds to a part: a strip for each system, or the whole page.
pub open spec fn page_strips(bands: PageBands, page: u32, inst: int) -> Seq<(u32, CutView)> {
    match bands {
        PageBands::Systems { systems, header } => Seq::new(
            systems@.len(),
            |s: int|
                (
                    page,
                    CutView::Strip(
                        systems@[s]@[inst].base,
                        systems@[s]@[inst].protrusions@,
                    ),
                ),
        ),
        PageBands::FullPage => seq![(page, CutView::Page)],
    }
}

/// The header after a page: that of the first page, where systems were
/// found on it.
pub open spec fn header_after(
    header: Option<(Band, Seq<Protrusion>)>,
    bands: PageBands,
    page: u32,
) -> Option<(Band, Seq<Protrusion>)> {
    match bands {
        PageBands::Systems { systems, header: shape } => if page == 0 && header is None {
            Some((shape.base, shape.protrusions@))
        } else {
            header
        },
        PageBands::FullPage => header,
    }
}

/// The strips of an instrument after a page with systems: those from before,
/// and for each system the strip that this instrument has in it.
pub open spec fn continued(
    before: Seq<(u32, Cut)>,
    after: Seq<(u32, Cut)>,
    page: u32,
    systems: Seq<[StripShape; 4]>,
    inst: int,
) -> bool {
    &&& after.len() == before.len() + systems.len()
    &&& forall|k: int| 0 <= k < before.len() ==> #[trigger] after[k] == before[k]
    &&& forall|k: int|
        before.len() <= k < after.len() ==> (#[trigger] after[k]).0 == page && after[k].1@
            == CutView::Strip(
            systems[k - before.len()]@[inst].base,
            systems[k - before.len()]@[inst].protrusions@,
        )
}

/// A page has systems, or counts as a full page.
pub open spec fn told(bands: PageBands) -> bool {
    match bands {
        PageBands::Systems { systems, header } => systems@.len() > 0,
        PageBands::FullPage => true,
    }
}

impl Score {
    /// The strips of a part.
    pub open spec fn entries(&self, inst: int) -> Seq<(u32, CutView)> {
        if inst == 0 {
            cuts(self.violin1@)
        } else if inst == 1 {
            cuts(self.violin2@)
        } else if inst == 2 {
            cuts(self.viola@)
        } else {
            cuts(self.cello@)
        }
    }

    /// The band and the protrusions of the header.
    pub open spec fn heading(&self) -> Option<(Band, Seq<Protrusion>)> {
        match self.header {
            Some(shape) => Some((shape.base, shape.protrusions@)),
            None => None,
        }
    }

    /// The parts keep step: they have strips of the same pages, in the same
    /// order. There is a header only where there are strips.
    pub open spec fn wf(&self) -> bool {
        &&& forall|i: int, k: int|
            0 <= i < 4 && 0 <= k < self.entries(0).len() ==> (#[trigger] self.entries(i)[k]).0
                == self.entries(0)[k].0
        &&& forall|i: int| 0 <= i < 4 ==> (#[trigger] self.entries(i)).len() == self.entries(0).len()
        &&& self.header is Some ==> self.entries(0).len() > 0
    }

    /// A score without pages.
    pub fn new() -> (r: Score)
        ensures
            r.wf(),
            forall|i: int|
                0 <= i < 4 ==> #[trigger] r.entries(i) == Seq::<(u32, CutView)>::empty(),
            r.header is None,
    {
        let r = Score {
            violin1: Vec::new(),
            violin2: Vec::new(),
            viola: Vec::new(),
            cello: Vec::new(),
            header: None,
        };
        assert(r.entries(0) =~= Seq::<(u32, CutView)>::empty());
        assert(r.entries(1) =~= Seq::<(u32, CutView)>::empty());
        assert(r.entries(2) =~= Seq::<(u32, CutView)>::empty());
        assert(r.entries(3) =~= Seq::<(u32, CutView)>::empty());
        r
    }

    /// Adds what was detected on a page.
    pub fn add_bands(&mut self, page: u32, bands: &PageBands)
        requires
            old(self).wf(),
            told(*bands),
        ensures
            final(self).wf(),
            forall|i: int|
                0 <= i < 4 ==> (#[trigger] final(self).entries(i)) == old(self).entries(i)
                    + page_strips(*bands, page, i),
            final(self).heading() == header_after(old(self).heading(), *bands, page),
            page != 0 ==> final(self).heading() == old(self).heading(),
            old(self).heading() is Some ==> final(self).heading() == old(self).heading(),
            match *bands {
                PageBands::Systems { systems, header } => {
                    &&& page == 0 && old(self).heading() is None ==> final(self).heading() == Some(
                        (header.base, header.protrusions@),
                    )
                    &&& continued(old(self).violin1@, final(self).violin1@, page, systems@, 0)
                    &&& continued(old(self).violin2@, final(self).violin2@, page, systems@, 1)
                    &&& continued(old(self).viola@, final(self).viola@, page, systems@, 2)
                    &&& continued(old(self).cello@, final(self).cello@, page, systems@, 3)
                },
                PageBands::FullPage => {
                    &&& final(self).heading() == old(self).heading()
                    &&& final(self).violin1@ == old(self).violin1@.push((page, Cut::Page))
                    &&& final(self).violin2@ == old(self).violin2@.push((page, Cut::Page))
                    &&& final(self).viola@ == old(self).viola@.push((page, Cut::Page))
                    &&& final(self).cello@ == old(self).cello@.push((page, Cut::Page))
                },
            },
    {
        match bands {
            PageBands::Systems { systems, header } => {
                if page == 0 && self.header.is_none() {
                    self.header = Some(header.copy());
                }
                let n: usize = systems.len();
                let mut s: usize = 0;
                proof {
                    assert forall|i: int| 0 <= i < 4 implies (#[trigger] self.entries(i)) == old(
                        self,
                    ).entries(i) + page_strips(*bands, page, i).take(0) by {
                        assert(self.entries(i) =~= old(self).entries(i) + page_strips(
                            *bands,
                            page,
                            i,
                        ).take(0));
                    }
                }
                while s < n
                    invariant
                        n == systems@.len(),
                        s <= n,
                        forall|i: int|
                            0 <= i < 4 ==> (#[trigger] self.entries(i)) == old(self).entries(i)
                                + page_strips(*bands, page, i).take(s as int),
                        bands matches PageBands::Systems { systems: all, header: _ } && all@
                            == systems@,
                        self.heading() == header_after(old(self).heading(), *bands, page),
                        continued(old(self).violin1@, self.violin1@, page, systems@.take(s as int), 0),
                        continued(old(self).violin2@, self.violin2@, page, systems@.take(s as int), 1),
                        continued(old(self).viola@, self.viola@, page, systems@.take(s as int), 2),
                        continued(old(self).cello@, self.cello@, page, systems@.take(s as int), 3),
                    decreases n - s,
                {
                    let ghost before = *self;
                    let system = &systems[s];
                    let violin1 = (page, Cut::Strip(system[0].copy()));
                    let violin2 = (page, Cut::Strip(system[1].copy()));
                    let viola = (page, Cut::Strip(system[2].copy()));
                    let cello = (page, Cut::Strip(system[3].copy()));
                    proof {
                        lemma_cuts_push(self.violin1@, violin1);
                        lemma_cuts_push(self.violin2@, violin2);
                        lemma_cuts_push(self.viola@, viola);
                        lemma_cuts_push(self.cello@, cello);
                    }
                    self.violin1.push(violin1);
                    self.violin2.push(violin2);
                    self.viola.push(viola);
                    self.cello.push(cello);
                    proof {
                        assert forall|i: int| 0 <= i < 4 implies (#[trigger] self.entries(i))
                            == old(self).entries(i) + page_strips(*bands, page, i).take(
                            s + 1,
                        ) by {
                            let added = page_strips(*bands, page, i);
                            assert(before.entries(i) == old(self).entries(i) + added.take(
                                s as int,
                            ));
                            assert(self.entries(i) == before.entries(i).push(added[s as int]));
                            assert(added.take(s + 1) =~= added.take(s as int).push(
                                added[s as int],
                            ));
                        }
                    }
                    s = s + 1;
                }
                proof {
                    assert forall|i: int| 0 <= i < 4 implies (#[trigger] self.entries(i)) == old(
                        self,
                    ).entries(i) + page_strips(*bands, page, i) by {
                        let added = page_strips(*bands, page, i);
                        assert(added.take(n as int) =~= added);
                    }
                    assert(systems@.take(n as int) =~= systems@);
                }
            },
            PageBands::FullPage => {
                proof {
                    lemma_cuts_push(self.violin1@, (page, Cut::Page));
                    lemma_cuts_push(self.violin2@, (page, Cut::Page));
                    lemma_cuts_push(self.viola@, (page, Cut::Page));
                    lemma_cuts_push(self.cello@, (page, Cut::Page));
                }
                self.violin1.push((page, Cut::Page));
                self.violin2.push((page, Cut::Page));
                self.viola.push((page, Cut::Page));
                self.cello.push((page, Cut::Page));
                proof {
                    assert forall|i: int| 0 <= i < 4 implies (#[trigger] self.entries(i)) == old(
                        self,
                    ).entries(i) + page_strips(*bands, page, i) by {
                        assert(self.entries(i) =~= old(self).entries(i) + page_strips(
                            *bands,
                            page,
                            i,
                        ));
                    }
                }
            },
        }
        proof {
            self.lemma_in_step(*old(self), *bands, page);
        }
    }

    /// Pages keep the parts in step.
    proof fn lemma_in_step(self, before: Score, bands: PageBands, page: u32)
        requires
            before.wf(),
            told(bands),
            forall|i: int|
                0 <= i < 4 ==> (#[trigger] self.entries(i)) == before.entries(i) + page_strips(
                    bands,
                    page,
                    i,
                ),
            self.heading() == header_after(before.heading(), bands, page),
        ensures
            self.wf(),
    {
        assert forall|i: int, k: int| 0 <= i < 4 && 0 <= k < self.entries(0).len() implies (
        #[trigger] self.entries(i)[k]).0 == self.entries(0)[k].0 by {
            assert(self.entries(i) == before.entries(i) + page_strips(bands, page, i));
            assert(self.entries(0) == before.entries(0) + page_strips(bands, page, 0));
            assert(before.entries(i).len() == before.entries(0).len());
            if k < before.entries(0).len() {
                assert(before.entries(i)[k].0 == before.entries(0)[k].0);
            }
        }
        assert forall|i: int| 0 <= i < 4 implies (#[trigger] self.entries(i)).len() == self.entries(
            0,
        ).len() by {
            assert(self.entries(0) == before.entries(0) + page_strips(bands, page, 0));
            assert(before.entries(i).len() == before.entries(0).len());
        }
        assert(self.entries(0) == before.entries(0) + page_strips(bands, page, 0));
    }

    /// The strips of all parts, in their order, and the header.
    pub fn into_entries(self) -> (r: ([Vec<(u32, Cut)>; 4], Option<StripShape>))
        ensures
            forall|i: int| 0 <= i < 4 ==> cuts((#[trigger] r.0@[i])@) == self.entries(i),
            r.1 == self.header,
            r.0@[0] == self.violin1,
            r.0@[1] == self.violin2,
            r.0@[2] == self.viola,
            r.0@[3] == self.cello,
    {
        ([self.violin1, self.violin2, self.viola, self.cello], self.header)
    }
}

/// The header after the first `k` of the pages that were looked at, each
/// with its index.
pub open spec fn header_so_far(
    pages: Seq<(u32, PageBands)>,
    k: int,
) -> Option<(Band, Seq<Protrusion>)>
    decreases k,
{
    if k <= 0 {
        None
    } else {
        header_after(header_so_far(pages, k - 1), pages[k - 1].1, pages[k - 1].0)
    }
}

/// The header is that of the first page, whatever comes after it, and there
/// is none where no systems were found on that page.
pub proof fn lemma_header_is_of_first_page(pages: Seq<(u32, PageBands)>, k: int)
    requires
        0 < k <= pages.len(),
        forall|j: int| 0 <= j < pages.len() ==> (#[trigger] pages[j]).0 == j,
    ensures
        header_so_far(pages, k) == (match pages[0].1 {
            PageBands::Systems { systems, header } => Some((header.base, header.protrusions@)),
            PageBands::FullPage => None,
        }),
    decreases k,
{
    assert(pages[k - 1].0 == k - 1);
    if k > 1 {
        lemma_header_is_of_first_page(pages, k - 1);
    } else {
        assert(header_so_far(pages, 0) is None);
    }
}

/// No page but the one with index 0 ever gives the header, and the header
/// that was given once stays.
pub proof fn lemma_header_stays(
    header: Option<(Band, Seq<Protrusion>)>,
    bands: PageBands,
    page: u32,
)
    ensures
        page != 0 ==> header_after(header, bands, page) == header,
        header is Some ==> header_after(header, bands, page) == header,
        bands is FullPage ==> header_after(header, bands, page) == header,
        page == 0 && header is None && bands is Systems ==> header_after(header, bands, page)
            is Some,
{
}

/// A page adds as much to every part: one strip for each of its systems,
/// top to bottom, or itself.
pub proof fn lemma_pages_add_to_all_parts(bands: PageBands, page: u32, inst: int)
    ensures
        forall|s: int|
            0 <= s < page_strips(bands, page, inst).len() ==> (#[trigger] page_strips(
                bands,
                page,
                inst,
            )[s]).0 == page,
        match bands {
            PageBands::Systems { systems, header } => {
                &&& page_strips(bands, page, inst).len() == systems@.len()
                &&& forall|s: int|
                    0 <= s < systems@.len() ==> (#[trigger] page_strips(bands, page, inst)[s]).1
                        == CutView::Strip(
                        systems@[s]@[inst].base,
                        systems@[s]@[inst].protrusions@,
                    )
            },
            PageBands::FullPage => page_strips(bands, page, inst).len() == 1 && page_strips(
                bands,
                page,
                inst,
            )[0].1 is Page,
        },
{
}

proof fn lemma_cuts_push(entries: Seq<(u32, Cut)>, e: (u32, Cut))
    ensures
        cuts(entries.push(e)) == cuts(entries).push((e.0, e.1@)),
{
    assert(cuts(entries.push(e)) =~= cuts(entries).push((e.0, e.1@)));
}

/// The pixels that a length in points takes at a resolution.
pub open spec fn pixels_for(length: Single, dpi: u32) -> int {
    length.times(whole(dpi as int)).over(Single { bits: INCH }).truncated(
        i32::MIN as int,
        i32::MAX as int,
    )
}

/// The width and the height at which a page is rendered.
pub fn render_size(width_pts: Single, height_pts: Single, dpi: u32) -> (r: (i32, i32))
    ensures
        r.0 == pixels_for(width_pts, dpi),
        r.1 == pixels_for(height_pts, dpi),
{
    let scale = Single::from_u32(dpi);
    let inch = Single { bits: INCH };
    (width_pts.times(scale).over(inch).to_i32(), height_pts.times(scale).over(inch).to_i32())
}

/// Detects the systems of a page and adds their strips to the score.
/// Returns what was detected; nothing, and the score stays as it is, where
/// there are systems on a page whose height is not known.
pub fn process_page(
    score: &mut Score,
    page: u32,
    img: &GrayImage,
    height_pts: Single,
    width_pts: Single,
    dpi: u32,
    min_padding_factor: Single,
) -> (r: Option<PageBands>)
    requires
        old(score).wf(),
        img.wf(),
    ensures
        final(score).wf(),
        is_detection(r, img, height_pts, dpi, min_padding_factor),
        detectable(img, height_pts) ==> r is Some,
        match r {
            Some(bands) => {
                &&& forall|i: int|
                    0 <= i < 4 ==> (#[trigger] final(score).entries(i)) == old(score).entries(i)
                        + page_strips(bands, page, i)
                &&& final(score).heading() == header_after(old(score).heading(), bands, page)
                &&& page != 0 ==> final(score).heading() == old(score).heading()
                &&& old(score).heading() is Some ==> final(score).heading() == old(score).heading()
            },
            None => *final(score) == *old(score),
        },
{
    match try_detect(img, height_pts, width_pts, dpi, min_padding_factor) {
        Some(bands) => {
            score.add_bands(page, &bands);
            Some(bands)
        },
        None => None,
    }
}

} // verus!
