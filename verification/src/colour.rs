use vstd::prelude::*;

use crate::histogram::{
    buckets_positive, buckets_sorted, contains_key, count_below, find_bucket, has_key,
    hist_incorporate, hist_insert, insert_sample, lemma_count_below_bounds,
    lemma_count_below_lt_sum, lemma_hist_incorporate_step, lemma_hist_insert_has_key,
    lemma_hist_insert_props, lemma_prefix_sum_is_count_below,
    lemma_sum_take_le, lemma_sum_take_monotonic, lemma_sum_take_succ, pixels_contain_key,
    pixels_have_key, sum_counts, Bucket,
};
use crate::pixel::{lemma_snapshot_index_in_area, Pixel};
use crate::screen::Size;

verus! {

/// Per-cell colour output record: whether the cell has escaped and, if it
/// has, its cumulative rank `rank_numerator / rank_denominator`, a fraction
/// in [0, 1): the share of escaped samples with a strictly smaller iteration
/// count. A cell that has not escaped keeps rank 0/1.
#[derive(Clone, Copy, PartialEq, Eq, Structural, Debug)]
pub struct ColourRange {
    pub escaped: u32,
    pub rank_numerator: u64,
    pub rank_denominator: u64,
}

impl ColourRange {
    /// The marker a cell starts with: not escaped, rank zero.
    pub open spec fn unescaped() -> ColourRange {
        ColourRange { escaped: 0, rank_numerator: 0, rank_denominator: 1 }
    }
}

impl Default for ColourRange {
    fn default() -> (c: ColourRange)
        ensures
            c == ColourRange::unescaped(),
    {
        ColourRange { escaped: 0, rank_numerator: 0, rank_denominator: 1 }
    }
}

/// Why an incorporation call was rejected. A rejected call leaves the
/// histogram and the colour buffer untouched.
#[derive(Clone, Copy, PartialEq, Eq, Structural, Debug)]
pub enum ColourError {
    /// Snapshot or colour buffer length does not match the screen cell count.
    CapacityMismatch,
    /// A newly escaped record carries coordinates outside the screen.
    CoordinateOutOfRange,
    /// An escaped snapshot cell's iteration count has no histogram bucket,
    /// not even among the newly escaped samples.
    MissingBucket,
}

/// Both per-cell arrays cover the screen exactly.
pub open spec fn capacities_match(
    size: Size,
    all_pixels: Seq<Pixel>,
    colours: Seq<ColourRange>,
) -> bool {
    all_pixels.len() == size.area() && colours.len() == size.area()
}

/// Every newly escaped record lies on the screen.
pub open spec fn newly_in_bounds(newly: Seq<Pixel>, size: Size) -> bool {
    forall|k: int| 0 <= k < newly.len() ==> #[trigger] newly[k].in_bounds(size)
}

/// Every escaped snapshot cell's iteration count has a bucket, once the new
/// samples are counted in.
pub open spec fn keys_covered(
    buckets: Seq<Bucket>,
    all_pixels: Seq<Pixel>,
    newly: Seq<Pixel>,
) -> bool {
    forall|i: int|
        0 <= i < all_pixels.len() && (#[trigger] all_pixels[i]).escaped == 1 ==> (has_key(
            buckets,
            all_pixels[i].iteration_count,
        ) || pixels_have_key(newly, all_pixels[i].iteration_count))
}

/// A colour buffer cell after the marking pass: flagged escaped if some
/// listed record maps to its slot, its rank value untouched either way.
pub open spec fn mark_after(old_c: ColourRange, i: int, newly: Seq<Pixel>, width: u32) -> ColourRange {
    if exists|q: int| 0 <= q < newly.len() && (#[trigger] newly[q]).snapshot_index(width) == i {
        ColourRange {
            escaped: 1,
            rank_numerator: old_c.rank_numerator,
            rank_denominator: old_c.rank_denominator,
        }
    } else {
        old_c
    }
}

/// A colour buffer cell after the whole incorporation: an escaped snapshot
/// cell reads its bucket's cumulative rank over the updated histogram; any
/// other cell is at most marked escaped.
pub open spec fn colour_after(
    old_c: ColourRange,
    p: Pixel,
    i: int,
    newly: Seq<Pixel>,
    buckets: Seq<Bucket>,
    total: u64,
    width: u32,
) -> ColourRange {
    if p.escaped == 1 {
        ColourRange {
            escaped: 1,
            rank_numerator: count_below(buckets, p.iteration_count) as u64,
            rank_denominator: total,
        }
    } else {
        mark_after(old_c, i, newly, width)
    }
}

/// The histogram colouring engine: a running histogram over the iteration
/// counts of escaped pixels, its sample total, and the cumulative-rank table
/// `ranks[j]`, the number of samples in buckets before slot j.
pub struct HistogramColouring {
    pub buckets: Vec<Bucket>,
    pub ranks: Vec<u64>,
    pub total_samples: u64,
}

impl HistogramColouring {
    /// The engine's invariant: buckets sorted by key with no duplicates and
    /// no empty bucket, counts summing to the sample total, and one
    /// cumulative rank per bucket, each the prefix sum of the counts before
    /// its bucket.
    pub open spec fn wf(self) -> bool {
        &&& buckets_sorted(self.buckets@)
        &&& buckets_positive(self.buckets@)
        &&& sum_counts(self.buckets@) == self.total_samples as int
        &&& self.ranks@.len() == self.buckets@.len()
        &&& forall|j: int|
            0 <= j < self.ranks@.len() ==> #[trigger] self.ranks@[j] as int == sum_counts(
                self.buckets@.take(j),
            )
    }

    /// The state reset leaves behind: no buckets, no ranks, no samples.
    pub open spec fn is_cleared(self) -> bool {
        self.buckets@.len() == 0 && self.ranks@.len() == 0 && self.total_samples == 0
    }

    pub fn new() -> (h: HistogramColouring)
        ensures
            h.wf(),
            h.is_cleared(),
    {
        let h = HistogramColouring { buckets: Vec::new(), ranks: Vec::new(), total_samples: 0 };
        proof {
            assert(sum_counts(h.buckets@) == 0);
        }
        h
    }

    /// Clears every accumulated sample; the result does not depend on the
    /// state before the call, so resetting twice equals resetting once.
    pub fn reset(&mut self)
        ensures
            final(self).wf(),
            final(self).is_cleared(),
    {
        self.buckets.clear();
        self.ranks.clear();
        self.total_samples = 0;
        proof {
            assert(sum_counts(self.buckets@) == 0);
        }
    }

    /// Folds one frame's newly escaped pixels into the histogram and rewrites
    /// the colour buffer: each newly escaped cell is marked escaped, and
    /// every escaped cell of the snapshot gets the cumulative rank of its
    /// iteration-count bucket. An empty list is a no-op, so the colours of a
    /// quiet frame survive. Bad capacities, off-screen records, or an escaped
    /// snapshot cell without a bucket reject the call and change nothing.
    #[verifier::loop_isolation(false)]
    pub fn update_colours(
        &mut self,
        size: Size,
        all_pixels: &Vec<Pixel>,
        newly_escaped: &Vec<Pixel>,
        colour_ranges: &mut Vec<ColourRange>,
    ) -> (result: Result<(), ColourError>)
        requires
            old(self).wf(),
            old(self).total_samples + newly_escaped@.len() <= u64::MAX,
        ensures
            final(self).wf(),
            sum_counts(final(self).buckets@) == final(self).total_samples as int,
            buckets_sorted(final(self).buckets@),
            result is Ok <==> (newly_escaped@.len() == 0 || (capacities_match(
                size,
                all_pixels@,
                old(colour_ranges)@,
            ) && newly_in_bounds(newly_escaped@, size) && keys_covered(
                old(self).buckets@,
                all_pixels@,
                newly_escaped@,
            ))),
            result == Err::<(), ColourError>(ColourError::CapacityMismatch) <==> (
            newly_escaped@.len() > 0 && !capacities_match(size, all_pixels@, old(colour_ranges)@)),
            result == Err::<(), ColourError>(ColourError::CoordinateOutOfRange) <==> (
            newly_escaped@.len() > 0 && capacities_match(size, all_pixels@, old(colour_ranges)@)
                && !newly_in_bounds(newly_escaped@, size)),
            result == Err::<(), ColourError>(ColourError::MissingBucket) <==> (newly_escaped@.len()
                > 0 && capacities_match(size, all_pixels@, old(colour_ranges)@) && newly_in_bounds(
                newly_escaped@,
                size,
            ) && !keys_covered(old(self).buckets@, all_pixels@, newly_escaped@)),
            newly_escaped@.len() == 0 ==> *final(self) == *old(self),
            result is Err ==> *final(self) == *old(self),
            result is Err || newly_escaped@.len() == 0 ==> final(colour_ranges)@ == old(
                colour_ranges,
            )@,
            result is Ok && newly_escaped@.len() > 0 ==> {
                &&& final(self).buckets@ == hist_incorporate(old(self).buckets@, newly_escaped@)
                &&& final(self).total_samples == old(self).total_samples + newly_escaped@.len()
                &&& final(colour_ranges)@.len() == old(colour_ranges)@.len()
                &&& forall|i: int|
                    0 <= i < final(colour_ranges)@.len() ==> #[trigger] final(colour_ranges)@[i]
                        == colour_after(
                        old(colour_ranges)@[i],
                        all_pixels@[i],
                        i,
                        newly_escaped@,
                        final(self).buckets@,
                        final(self).total_samples,
                        size.width,
                    )
                &&& forall|i: int|
                    0 <= i < all_pixels@.len() && (#[trigger] all_pixels@[i]).escaped == 1
                        ==> final(colour_ranges)@[i].rank_numerator
                        < final(colour_ranges)@[i].rank_denominator
            },
    {
        if newly_escaped.len() == 0 {
            return Ok(());
        }
        let area = size.cell_count();
        if all_pixels.len() as u64 != area || colour_ranges.len() as u64 != area {
            return Err(ColourError::CapacityMismatch);
        }
        let m = newly_escaped.len();
        let mut k: usize = 0;
        while k < m
            invariant
                k <= m,
                forall|t: int| 0 <= t < k ==> #[trigger] newly_escaped@[t].in_bounds(size),
            decreases m - k,
        {
            let p = newly_escaped[k];
            if !(p.x < size.width && p.y < size.height) {
                proof {
                    assert(!newly_escaped@[k as int].in_bounds(size));
                }
                return Err(ColourError::CoordinateOutOfRange);
            }
            k = k + 1;
        }
        let n_all = all_pixels.len();
        let mut i: usize = 0;
        while i < n_all
            invariant
                i <= n_all,
                forall|t: int|
                    0 <= t < i && (#[trigger] all_pixels@[t]).escaped == 1 ==> (has_key(
                        old(self).buckets@,
                        all_pixels@[t].iteration_count,
                    ) || pixels_have_key(newly_escaped@, all_pixels@[t].iteration_count)),
            decreases n_all - i,
        {
            let p = all_pixels[i];
            if p.escaped == 1 {
                let in_hist = contains_key(&self.buckets, p.iteration_count);
                if !in_hist {
                    let in_newly = pixels_contain_key(newly_escaped, p.iteration_count);
                    if !in_newly {
                        proof {
                            assert(all_pixels@[i as int].escaped == 1);
                            assert(!keys_covered(old(self).buckets@, all_pixels@, newly_escaped@));
                        }
                        return Err(ColourError::MissingBucket);
                    }
                }
            }
            i = i + 1;
        }
        // Every check has passed: from here on the call cannot fail.
        let ghost buckets0 = self.buckets@;
        let ghost colours0 = colour_ranges@;
        let total0 = self.total_samples;
        proof {
            assert(newly_escaped@.take(0) =~= Seq::<Pixel>::empty());
        }
        let mut k: usize = 0;
        while k < m
            invariant
                k <= m,
                self.buckets@ == hist_incorporate(buckets0, newly_escaped@.take(k as int)),
                buckets_sorted(self.buckets@),
                buckets_positive(self.buckets@),
                sum_counts(self.buckets@) == total0 + k,
                self.total_samples == total0,
                forall|key: u32| has_key(buckets0, key) ==> has_key(self.buckets@, key),
                forall|t: int|
                    0 <= t < k ==> has_key(
                        self.buckets@,
                        (#[trigger] newly_escaped@[t]).iteration_count,
                    ),
                colour_ranges@.len() == colours0.len(),
                forall|slot: int|
                    0 <= slot < colours0.len() ==> #[trigger] colour_ranges@[slot] == mark_after(
                        colours0[slot],
                        slot,
                        newly_escaped@.take(k as int),
                        size.width,
                    ),
            decreases m - k,
        {
            let ghost pre_buckets = self.buckets@;
            let ghost pre_colours = colour_ranges@;
            let p = newly_escaped[k];
            let ghost slot_k = p.snapshot_index(size.width);
            proof {
                assert(newly_escaped@[k as int].in_bounds(size));
                lemma_snapshot_index_in_area(
                    p.x as int,
                    p.y as int,
                    size.width as int,
                    size.height as int,
                );
            }
            let idx64: u64 = p.y as u64 * size.width as u64 + p.x as u64;
            proof {
                assert(idx64 as int == slot_k);
                assert(idx64 < area);
            }
            let idx: usize = idx64 as usize;
            let c = colour_ranges[idx];
            colour_ranges[idx] = ColourRange {
                escaped: 1,
                rank_numerator: c.rank_numerator,
                rank_denominator: c.rank_denominator,
            };
            proof {
                lemma_hist_insert_props(pre_buckets, p.iteration_count);
            }
            insert_sample(&mut self.buckets, p.iteration_count);
            k = k + 1;
            proof {
                lemma_hist_incorporate_step(buckets0, newly_escaped@, k - 1);
                assert forall|t: int| 0 <= t < k implies has_key(
                    self.buckets@,
                    (#[trigger] newly_escaped@[t]).iteration_count,
                ) by {
                    if t < k - 1 {
                        assert(has_key(pre_buckets, newly_escaped@[t].iteration_count));
                    } else {
                        assert(newly_escaped@[t] == p);
                        lemma_hist_insert_has_key(pre_buckets, p.iteration_count);
                        assert(self.buckets@ == hist_insert(pre_buckets, p.iteration_count));
                    }
                }
                assert forall|slot: int| 0 <= slot < colours0.len() implies #[trigger] colour_ranges@[slot]
                    == mark_after(
                    colours0[slot],
                    slot,
                    newly_escaped@.take(k as int),
                    size.width,
                ) by {
                    let taken = newly_escaped@.take(k as int);
                    let prev = newly_escaped@.take(k - 1);
                    assert(taken[k - 1] == newly_escaped@[k - 1]);
                    assert(taken[k - 1].snapshot_index(size.width) == slot_k);
                    if slot == slot_k {
                        assert(colour_ranges@[slot] == (ColourRange {
                            escaped: 1,
                            rank_numerator: pre_colours[slot].rank_numerator,
                            rank_denominator: pre_colours[slot].rank_denominator,
                        }));
                        assert(pre_colours[slot] == mark_after(
                            colours0[slot],
                            slot,
                            prev,
                            size.width,
                        ));
                    } else {
                        assert(colour_ranges@[slot] == pre_colours[slot]);
                        if exists|q: int|
                            0 <= q < taken.len() && (#[trigger] taken[q]).snapshot_index(size.width)
                                == slot {
                            let q = choose|q: int|
                                0 <= q < taken.len() && (#[trigger] taken[q]).snapshot_index(
                                    size.width,
                                ) == slot;
                            assert(q != k - 1);
                            assert(prev[q] == taken[q]);
                            assert(exists|q2: int|
                                0 <= q2 < prev.len() && (#[trigger] prev[q2]).snapshot_index(
                                    size.width,
                                ) == slot);
                        } else {
                            if exists|q: int|
                                0 <= q < prev.len() && (#[trigger] prev[q]).snapshot_index(
                                    size.width,
                                ) == slot {
                                let q = choose|q: int|
                                    0 <= q < prev.len() && (#[trigger] prev[q]).snapshot_index(
                                        size.width,
                                    ) == slot;
                                assert(taken[q] == prev[q]);
                            }
                        }
                    }
                }
            }
        }
        proof {
            assert(newly_escaped@.take(m as int) =~= newly_escaped@);
        }
        self.total_samples = total0 + m as u64;
        // Recompute the cumulative-rank table with one prefix-sum pass.
        self.ranks.clear();
        let b_len = self.buckets.len();
        let mut acc: u64 = 0;
        let mut j: usize = 0;
        while j < b_len
            invariant
                j <= b_len,
                b_len == self.buckets@.len(),
                self.buckets@ == hist_incorporate(buckets0, newly_escaped@),
                buckets_sorted(self.buckets@),
                buckets_positive(self.buckets@),
                sum_counts(self.buckets@) == self.total_samples as int,
                self.total_samples == total0 + m,
                self.ranks@.len() == j,
                acc as int == sum_counts(self.buckets@.take(j as int)),
                forall|t: int|
                    0 <= t < j ==> #[trigger] self.ranks@[t] as int == sum_counts(
                        self.buckets@.take(t),
                    ),
            decreases b_len - j,
        {
            self.ranks.push(acc);
            let cnt = self.buckets[j].count;
            proof {
                lemma_sum_take_succ(self.buckets@, j as int);
                lemma_sum_take_le(self.buckets@, j as int + 1);
            }
            acc = acc + cnt;
            j = j + 1;
        }
        proof {
            assert forall|t: int|
                0 <= t < n_all && (#[trigger] all_pixels@[t]).escaped == 1 implies has_key(
                self.buckets@,
                all_pixels@[t].iteration_count,
            ) by {
                if !has_key(buckets0, all_pixels@[t].iteration_count) {
                    assert(pixels_have_key(newly_escaped@, all_pixels@[t].iteration_count));
                    let q = choose|q: int|
                        0 <= q < newly_escaped@.len() && newly_escaped@[q].iteration_count
                            == all_pixels@[t].iteration_count;
                    assert(has_key(self.buckets@, newly_escaped@[q].iteration_count));
                }
            }
        }
        // Rewrite the rank of every escaped cell of the snapshot.
        let ghost marked = colour_ranges@;
        let total = self.total_samples;
        let mut i: usize = 0;
        while i < n_all
            invariant
                i <= n_all,
                self.buckets@ == hist_incorporate(buckets0, newly_escaped@),
                buckets_sorted(self.buckets@),
                buckets_positive(self.buckets@),
                sum_counts(self.buckets@) == self.total_samples as int,
                self.total_samples == total0 + m,
                total == self.total_samples,
                self.ranks@.len() == self.buckets@.len(),
                forall|t: int|
                    0 <= t < self.ranks@.len() ==> #[trigger] self.ranks@[t] as int == sum_counts(
                        self.buckets@.take(t),
                    ),
                colour_ranges@.len() == marked.len(),
                forall|slot: int|
                    i <= slot < marked.len() ==> #[trigger] colour_ranges@[slot] == marked[slot],
                forall|slot: int|
                    0 <= slot < i ==> #[trigger] colour_ranges@[slot] == colour_after(
                        colours0[slot],
                        all_pixels@[slot],
                        slot,
                        newly_escaped@,
                        self.buckets@,
                        self.total_samples,
                        size.width,
                    ),
                forall|slot: int|
                    0 <= slot < i && (#[trigger] all_pixels@[slot]).escaped == 1 ==> colour_ranges@[
                        slot
                    ].rank_numerator < colour_ranges@[slot].rank_denominator,
            decreases n_all - i,
        {
            let p = all_pixels[i];
            if p.escaped == 1 {
                proof {
                    assert(has_key(self.buckets@, p.iteration_count));
                }
                let b_slot = find_bucket(&self.buckets, p.iteration_count);
                let numer = self.ranks[b_slot];
                proof {
                    lemma_prefix_sum_is_count_below(self.buckets@, b_slot as int);
                    lemma_count_below_lt_sum(self.buckets@, p.iteration_count);
                    lemma_count_below_bounds(self.buckets@, p.iteration_count);
                }
                colour_ranges[i] = ColourRange {
                    escaped: 1,
                    rank_numerator: numer,
                    rank_denominator: total,
                };
            }
            i = i + 1;
        }
        Ok(())
    }
}

/// Law: in a well-formed engine the cumulative ranks are ordered as the
/// bucket keys are, and each is a fraction in [0, 1) of the sample total.
pub proof fn lemma_cumulative_rank_monotonic(h: HistogramColouring, j1: int, j2: int)
    requires
        h.wf(),
        0 <= j1 <= j2 < h.buckets@.len(),
    ensures
        h.ranks@[j1] <= h.ranks@[j2],
        h.ranks@[j2] < h.total_samples,
{
    lemma_sum_take_monotonic(h.buckets@, j1, j2);
    lemma_prefix_sum_is_count_below(h.buckets@, j2);
    assert(has_key(h.buckets@, h.buckets@[j2].iterations)) by {
        assert(h.buckets@[j2].iterations == h.buckets@[j2].iterations);
    }
    lemma_count_below_lt_sum(h.buckets@, h.buckets@[j2].iterations);
}

} // verus!
