use vstd::prelude::*;

use crate::colour::{
    capacities_match, colour_after, keys_covered, ColourRange, HistogramColouring,
};
use crate::compaction::{
    batch_valid, compact, lemma_snapshot_after_cases, snapshot_after, CompactError,
};
use crate::histogram::{has_key, hist_incorporate, lemma_hist_incorporate_keys, pixels_have_key};
use crate::pixel::{create_pixels, Pixel};
use crate::screen::Size;

verus! {

/// Everything one exploration accumulates between view changes: the screen
/// size, the all-pixels snapshot, the unescaped working set, the most recent
/// frame's newly escaped list, the colour buffer, and the histogram
/// colouring engine. The frame loop owns one of these and mutates it through
/// `reset` and `process_readback` only.
pub struct FrameState {
    pub size: Size,
    pub all_pixels: Vec<Pixel>,
    pub unescaped_pixels: Vec<Pixel>,
    pub newly_escaped_pixels: Vec<Pixel>,
    pub colour_ranges: Vec<ColourRange>,
    pub histogram_colouring: HistogramColouring,
}

impl FrameState {
    /// The cross-frame invariant: snapshot and colour buffer cover the
    /// screen, the working set never exceeds the screen, the engine is
    /// well formed, and every escaped snapshot cell already has its bucket.
    pub open spec fn wf(self) -> bool {
        &&& self.size.area() <= usize::MAX
        &&& self.all_pixels@.len() == self.size.area()
        &&& self.colour_ranges@.len() == self.size.area()
        &&& self.unescaped_pixels@.len() <= self.size.area()
        &&& self.histogram_colouring.wf()
        &&& forall|i: int|
            0 <= i < self.all_pixels@.len() && (#[trigger] self.all_pixels@[i]).escaped == 1
                ==> has_key(
                self.histogram_colouring.buckets@,
                self.all_pixels@[i].iteration_count,
            )
    }

    /// A freshly reset exploration: the full grid fresh in the snapshot and
    /// in the working set, no newly escaped pixels, every colour cell
    /// unescaped, and an empty histogram.
    pub open spec fn is_reset(self, size: Size) -> bool {
        &&& self.size == size
        &&& self.all_pixels@.len() == size.area()
        &&& forall|i: int|
            0 <= i < self.all_pixels@.len() ==> #[trigger] self.all_pixels@[i] == Pixel::initial(
                (i % (size.width as int)) as u32,
                (i / (size.width as int)) as u32,
            )
        &&& self.unescaped_pixels@ == self.all_pixels@
        &&& self.newly_escaped_pixels@.len() == 0
        &&& self.colour_ranges@.len() == size.area()
        &&& forall|i: int|
            0 <= i < self.colour_ranges@.len() ==> #[trigger] self.colour_ranges@[i]
                == ColourRange::unescaped()
        &&& self.histogram_colouring.is_cleared()
    }

    pub fn new(size: Size) -> (s: FrameState)
        requires
            size.area() <= usize::MAX,
        ensures
            s.wf(),
            s.is_reset(size),
    {
        let all_pixels = create_pixels(size);
        let unescaped_pixels = create_pixels(size);
        let n: usize = size.cell_count() as usize;
        let mut colour_ranges: Vec<ColourRange> = Vec::new();
        let mut i: usize = 0;
        while i < n
            invariant
                i <= n,
                colour_ranges@.len() == i,
                forall|t: int|
                    0 <= t < i ==> #[trigger] colour_ranges@[t] == ColourRange::unescaped(),
            decreases n - i,
        {
            colour_ranges.push(ColourRange::default());
            i = i + 1;
        }
        let s = FrameState {
            size,
            all_pixels,
            unescaped_pixels,
            newly_escaped_pixels: Vec::new(),
            colour_ranges,
            histogram_colouring: HistogramColouring::new(),
        };
        proof {
            assert(s.unescaped_pixels@ =~= s.all_pixels@);
        }
        s
    }

    /// Discards every per-exploration artifact, as a view change or resize
    /// demands. The outcome depends on the new size alone, so resetting
    /// twice in a row equals resetting once.
    pub fn reset(&mut self, size: Size)
        requires
            size.area() <= usize::MAX,
        ensures
            final(self).wf(),
            final(self).is_reset(size),
    {
        *self = FrameState::new(size);
    }

    /// One frame's host-side step once the device results are readable:
    /// compacts the first `count` read-back records into the next working
    /// set, the newly escaped list and the snapshot, then folds the newly
    /// escaped pixels into the histogram colouring. The next working set
    /// never outgrows `count`, so the dispatched work shrinks frame over
    /// frame as pixels escape.
    pub fn process_readback(&mut self, read_back: &Vec<Pixel>, count: usize) -> (result: Result<
        (),
        CompactError,
    >)
        requires
            old(self).wf(),
            count <= read_back@.len(),
            count <= old(self).unescaped_pixels@.len(),
            old(self).histogram_colouring.total_samples + count <= u64::MAX,
        ensures
            final(self).wf(),
            final(self).size == old(self).size,
            result is Ok <==> batch_valid(read_back@.take(count as int), old(self).size),
            result is Err ==> {
                &&& result == Err::<(), CompactError>(CompactError::InvalidRecord)
                &&& final(self).size == old(self).size
                &&& final(self).all_pixels@ == old(self).all_pixels@
                &&& final(self).unescaped_pixels@ == old(self).unescaped_pixels@
                &&& final(self).newly_escaped_pixels@ == old(self).newly_escaped_pixels@
                &&& final(self).colour_ranges@ == old(self).colour_ranges@
                &&& final(self).histogram_colouring == old(self).histogram_colouring
            },
            result is Ok ==> {
                let batch = read_back@.take(count as int);
                let newly = batch.filter(|p: Pixel| p.escaped == 1);
                &&& final(self).unescaped_pixels@ == batch.filter(|p: Pixel| p.escaped != 1)
                &&& final(self).newly_escaped_pixels@ == newly
                &&& final(self).all_pixels@ == snapshot_after(
                    old(self).all_pixels@,
                    batch,
                    old(self).size.width,
                )
                &&& final(self).unescaped_pixels@.len() + newly.len() == count
                &&& final(self).unescaped_pixels@.len() <= old(self).unescaped_pixels@.len()
                &&& final(self).histogram_colouring.buckets@ == hist_incorporate(
                    old(self).histogram_colouring.buckets@,
                    newly,
                )
                &&& final(self).histogram_colouring.total_samples
                    == old(self).histogram_colouring.total_samples + newly.len()
                &&& final(self).colour_ranges@.len() == old(self).colour_ranges@.len()
                &&& newly.len() > 0 ==> forall|i: int|
                    0 <= i < final(self).colour_ranges@.len()
                        ==> #[trigger] final(self).colour_ranges@[i] == colour_after(
                        old(self).colour_ranges@[i],
                        final(self).all_pixels@[i],
                        i,
                        newly,
                        final(self).histogram_colouring.buckets@,
                        final(self).histogram_colouring.total_samples,
                        old(self).size.width,
                    )
                &&& newly.len() == 0 ==> final(self).colour_ranges@ == old(self).colour_ranges@
                    && final(self).histogram_colouring == old(self).histogram_colouring
            },
    {
        let ghost batch = read_back@.take(count as int);
        let ghost newly = batch.filter(|p: Pixel| p.escaped == 1);
        let ghost snapshot0 = self.all_pixels@;
        let ghost buckets0 = self.histogram_colouring.buckets@;
        let size = self.size;
        let compacted = compact(
            read_back,
            count,
            size,
            &mut self.all_pixels,
            &mut self.unescaped_pixels,
            &mut self.newly_escaped_pixels,
        );
        match compacted {
            Err(e) => {
                proof {
                    assert(e != CompactError::CapacityMismatch);
                }
                return Err(e);
            },
            Ok(()) => {},
        }
        proof {
            // The snapshot still covers the screen, and every escaped cell's
            // key is either already in the histogram or among the new samples.
            assert forall|i: int|
                0 <= i < self.all_pixels@.len() && (#[trigger] self.all_pixels@[i]).escaped == 1
                    implies (has_key(buckets0, self.all_pixels@[i].iteration_count)
                || pixels_have_key(newly, self.all_pixels@[i].iteration_count)) by {
                lemma_snapshot_after_cases(snapshot0, batch, size, i);
                if self.all_pixels@[i] != snapshot0[i] {
                    let q = choose|q: int|
                        0 <= q < batch.len() && (#[trigger] batch[q]).escaped == 1
                            && self.all_pixels@[i] == batch[q];
                    batch.lemma_filter_contains(|p: Pixel| p.escaped == 1, q);
                    let w = choose|w: int| 0 <= w < newly.len() && newly[w] == batch[q];
                    assert(newly[w].iteration_count == self.all_pixels@[i].iteration_count);
                }
            }
        }
        let coloured = self.histogram_colouring.update_colours(
            size,
            &self.all_pixels,
            &self.newly_escaped_pixels,
            &mut self.colour_ranges,
        );
        match coloured {
            Err(_) => {
                proof {
                    assert(capacities_match(size, self.all_pixels@, self.colour_ranges@));
                    assert forall|k: int| 0 <= k < self.newly_escaped_pixels@.len() implies (
                    #[trigger] self.newly_escaped_pixels@[k]).in_bounds(size) by {
                        assert(self.newly_escaped_pixels@[k].valid(size));
                    }
                    assert(keys_covered(buckets0, self.all_pixels@, self.newly_escaped_pixels@));
                    assert(false);
                }
                Err(CompactError::InvalidRecord)
            },
            Ok(()) => {
                proof {
                    assert forall|i: int|
                        0 <= i < self.all_pixels@.len() && (#[trigger] self.all_pixels@[i]).escaped
                            == 1 implies has_key(
                        self.histogram_colouring.buckets@,
                        self.all_pixels@[i].iteration_count,
                    ) by {
                        lemma_hist_incorporate_keys(
                            buckets0,
                            newly,
                            self.all_pixels@[i].iteration_count,
                        );
                    }
                    if newly.len() == 0 {
                        assert(hist_incorporate(buckets0, newly) == buckets0);
                    }
                }
                Ok(())
            },
        }
    }
}

} // verus!
