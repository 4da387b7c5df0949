//! Timing bookkeeping and palette expansion.

use vstd::prelude::*;
use std::time::Instant;
use crate::raster::{GrayRaster, gray_pixels, gray_dims, gray_dimensions, gray_raw};

verus! {

/// `std::time::Instant`, opaque.
#[verifier::external_type_specification]
#[verifier::external_body]
pub struct ExInstant(Instant);

/// `Instant::now()`. Nothing is claimed of the result: it is the time.
#[verifier::external_body]
fn instant_now() -> (r: Instant)
{
    Instant::now()
}

struct TimingSection {
    name: &'static str,
    start: Instant,
}

/// Keeps track of the time taken by an operation from its start, and of the
/// time spent in its sub-sections: at most one section is active, and a new
/// section starts when the previous one ends.
pub struct Timing {
    name: &'static str,
    start: Instant,
    current_section: Option<TimingSection>,
    /// The end of the last section that was ended.
    last_end: Ghost<Option<Instant>>,
}

impl Timing {
    /// The name of the timed operation.
    pub closed spec fn spec_name(&self) -> Seq<char> {
        self.name@
    }

    /// The name of the active section, if any.
    pub closed spec fn section_name(&self) -> Option<Seq<char>> {
        match self.current_section {
            Some(s) => Some(s.name@),
            None => None,
        }
    }

    /// The start of the active section, if any.
    pub closed spec fn section_start(&self) -> Option<Instant> {
        match self.current_section {
            Some(s) => Some(s.start),
            None => None,
        }
    }

    /// When the timing started.
    pub closed spec fn start_time(&self) -> Instant {
        self.start
    }

    /// The end of the last section that was ended, if any.
    pub closed spec fn last_end(&self) -> Option<Instant> {
        self.last_end@
    }

    /// Start a new timing from now, with no active section.
    pub fn start_now(name: &'static str) -> (r: Self)
        ensures
            r.spec_name() == name@,
            r.section_name() is None,
            r.last_end() is None,
    {
        Timing { name, start: instant_now(), current_section: None, last_end: Ghost(None) }
    }

    /// Start a new timing section. This ends the active section, if any, and
    /// the new one starts at its end; otherwise it starts now.
    pub fn start_section(&mut self, name: &'static str)
        ensures
            final(self).spec_name() == old(self).spec_name(),
            final(self).start_time() == old(self).start_time(),
            final(self).section_name() == Some(name@),
            old(self).section_name() is Some ==> final(self).last_end() is Some
                && final(self).section_start() == final(self).last_end(),
            old(self).section_name() is None ==> final(self).last_end() == old(self).last_end(),
    {
        let ended = self.end_section();
        let now = match ended {
            Some(t) => t,
            None => instant_now(),
        };
        self.current_section = Some(TimingSection { name, start: now });
    }

    /// Ends the active section and returns its end time, or does nothing and
    /// returns `None` if no section is active.
    pub fn end_section(&mut self) -> (r: Option<Instant>)
        ensures
            final(self).spec_name() == old(self).spec_name(),
            final(self).start_time() == old(self).start_time(),
            final(self).section_name() is None,
            r is Some <==> old(self).section_name() is Some,
            r is Some ==> final(self).last_end() == r,
            r is None ==> final(self).last_end() == old(self).last_end(),
    {
        match self.current_section.take() {
            Some(_s) => {
                let now = instant_now();
                proof {
                    self.last_end@ = Some(now);
                }
                Some(now)
            },
            None => None,
        }
    }

    /// The name of the timed operation.
    pub fn name(&self) -> (r: &'static str)
        ensures
            r@ == self.spec_name(),
    {
        self.name
    }

    /// When the timing started.
    pub fn started_at(&self) -> (r: Instant)
        ensures
            r == self.start_time(),
    {
        self.start
    }

    /// The name and start of the active section, if any.
    pub fn current_section(&self) -> (r: Option<(&'static str, Instant)>)
        ensures
            r is Some <==> self.section_name() is Some,
            r matches Some((n, t)) ==> Some(n@) == self.section_name() && Some(t) == self.section_start(),
    {
        match &self.current_section {
            Some(s) => Some((s.name, s.start)),
            None => None,
        }
    }
}

/// Expands a grayscale / indexed image using a palette: the pixels of the
/// expanded image, row by row, each the palette entry of the index of the
/// pixel at the same place. Every index must be an entry of the palette.
pub fn expand_palette<P: Copy>(img: &GrayRaster, palette: &[P]) -> (r: Vec<P>)
    requires
        forall|i: int|
            0 <= i < gray_dims(*img).0 * gray_dims(*img).1 ==> (#[trigger] gray_pixels(*img)[i])
                < palette@.len(),
    ensures
        r@.len() == gray_dims(*img).0 * gray_dims(*img).1,
        forall|i: int| 0 <= i < r@.len() ==> #[trigger] r@[i] == palette@[gray_pixels(*img)[i] as int],
{
    let (w, h) = gray_dimensions(img);
    let raw = gray_raw(img);
    let n: usize = raw.len();
    let total: u64 = (w as u64) * (h as u64);
    let count: usize = if (total as u128) < (n as u128) { total as usize } else { n };
    assert(count == w * h);
    let mut out: Vec<P> = Vec::new();
    let mut i: usize = 0;
    while i < count
        invariant
            raw@ == gray_pixels(*img),
            count == w * h,
            count <= raw@.len(),
            (w, h) == gray_dims(*img),
            i <= count,
            out@.len() == i,
            forall|j: int| 0 <= j < w * h ==> (#[trigger] gray_pixels(*img)[j]) < palette@.len(),
            forall|j: int| 0 <= j < i ==> #[trigger] out@[j] == palette@[raw@[j] as int],
        decreases count - i,
    {
        let idx = raw[i];
        assert(gray_pixels(*img)[i as int] == idx);
        out.push(palette[idx as usize]);
        i = i + 1;
    }
    out
}

} // verus!
