use vstd::prelude::*;

use crate::pixel::Pixel;

verus! {

/// One histogram bucket: how many pixels escaped at exactly `iterations`
/// escape-time steps.
#[derive(Clone, Copy, PartialEq, Eq, Structural, Debug)]
pub struct Bucket {
    pub iterations: u32,
    pub count: u64,
}

/// Bucket keys are strictly ascending, hence pairwise distinct.
pub open spec fn buckets_sorted(s: Seq<Bucket>) -> bool {
    forall|i: int, j: int| 0 <= i < j < s.len() ==> s[i].iterations < s[j].iterations
}

/// Every bucket holds at least one sample.
pub open spec fn buckets_positive(s: Seq<Bucket>) -> bool {
    forall|i: int| 0 <= i < s.len() ==> s[i].count >= 1
}

/// Total number of samples over all buckets.
pub open spec fn sum_counts(s: Seq<Bucket>) -> int
    decreases s.len(),
{
    if s.len() == 0 {
        0
    } else {
        sum_counts(s.drop_last()) + s.last().count
    }
}

/// Whether some bucket carries this key.
pub open spec fn has_key(s: Seq<Bucket>, key: u32) -> bool {
    exists|i: int| 0 <= i < s.len() && s[i].iterations == key
}

/// Number of samples in buckets whose key is strictly below `key`.
pub open spec fn count_below(s: Seq<Bucket>, key: u32) -> int
    decreases s.len(),
{
    if s.len() == 0 {
        0
    } else {
        count_below(s.drop_last(), key) + if s.last().iterations < key {
            s.last().count as int
        } else {
            0
        }
    }
}

/// The histogram after one more sample with this key: the matching bucket
/// grown by one, or a fresh unit bucket placed so the keys stay ascending.
pub open spec fn hist_insert(s: Seq<Bucket>, key: u32) -> Seq<Bucket>
    decreases s.len(),
{
    if s.len() == 0 {
        seq![Bucket { iterations: key, count: 1 }]
    } else if s.last().iterations < key {
        s.push(Bucket { iterations: key, count: 1 })
    } else if s.last().iterations == key {
        s.update(s.len() - 1, Bucket { iterations: key, count: (s.last().count + 1) as u64 })
    } else {
        hist_insert(s.drop_last(), key).push(s.last())
    }
}

/// The histogram after one sample per listed pixel, keyed by each pixel's
/// iteration count, in list order.
pub open spec fn hist_incorporate(s: Seq<Bucket>, pixels: Seq<Pixel>) -> Seq<Bucket>
    decreases pixels.len(),
{
    if pixels.len() == 0 {
        s
    } else {
        hist_insert(hist_incorporate(s, pixels.drop_last()), pixels.last().iteration_count)
    }
}

/// Whether some listed pixel has this iteration count.
pub open spec fn pixels_have_key(pixels: Seq<Pixel>, key: u32) -> bool {
    exists|i: int| 0 <= i < pixels.len() && pixels[i].iteration_count == key
}

pub proof fn lemma_sum_counts_nonneg(s: Seq<Bucket>)
    ensures
        sum_counts(s) >= 0,
    decreases s.len(),
{
    if s.len() > 0 {
        lemma_sum_counts_nonneg(s.drop_last());
    }
}

pub proof fn lemma_count_le_sum(s: Seq<Bucket>, i: int)
    requires
        0 <= i < s.len(),
    ensures
        s[i].count <= sum_counts(s),
    decreases s.len(),
{
    if i == s.len() - 1 {
        lemma_sum_counts_nonneg(s.drop_last());
    } else {
        lemma_count_le_sum(s.drop_last(), i);
    }
}

/// Extending a prefix by one bucket adds that bucket's count to its sum.
pub proof fn lemma_sum_take_succ(s: Seq<Bucket>, j: int)
    requires
        0 <= j < s.len(),
    ensures
        sum_counts(s.take(j + 1)) == sum_counts(s.take(j)) + s[j].count,
{
    assert(s.take(j + 1).drop_last() =~= s.take(j));
}

/// A prefix never holds more samples than the whole histogram.
pub proof fn lemma_sum_take_le(s: Seq<Bucket>, j: int)
    requires
        0 <= j <= s.len(),
    ensures
        sum_counts(s.take(j)) <= sum_counts(s),
    decreases s.len() - j,
{
    if j == s.len() {
        assert(s.take(j) =~= s);
    } else {
        lemma_sum_take_succ(s, j);
        lemma_sum_take_le(s, j + 1);
    }
}

/// Prefix sums grow with the prefix.
pub proof fn lemma_sum_take_monotonic(s: Seq<Bucket>, j1: int, j2: int)
    requires
        0 <= j1 <= j2 <= s.len(),
    ensures
        sum_counts(s.take(j1)) <= sum_counts(s.take(j2)),
    decreases j2 - j1,
{
    if j1 < j2 {
        lemma_sum_take_succ(s, j2 - 1);
        lemma_sum_take_monotonic(s, j1, j2 - 1);
    }
}

pub proof fn lemma_count_below_bounds(s: Seq<Bucket>, key: u32)
    ensures
        0 <= count_below(s, key) <= sum_counts(s),
    decreases s.len(),
{
    if s.len() > 0 {
        lemma_count_below_bounds(s.drop_last(), key);
    }
}

/// A key that is present leaves its own bucket out of its rank, so the rank
/// stays strictly below the total.
pub proof fn lemma_count_below_lt_sum(s: Seq<Bucket>, key: u32)
    requires
        buckets_sorted(s),
        buckets_positive(s),
        has_key(s, key),
    ensures
        count_below(s, key) < sum_counts(s),
    decreases s.len(),
{
    let w = choose|i: int| 0 <= i < s.len() && s[i].iterations == key;
    if s.last().iterations == key {
        lemma_count_below_bounds(s.drop_last(), key);
    } else {
        assert(w < s.len() - 1);
        assert(s.drop_last()[w] == s[w]);
        assert(has_key(s.drop_last(), key));
        lemma_count_below_lt_sum(s.drop_last(), key);
    }
}

/// When every bucket key lies below the probe, the rank is the whole sum.
pub proof fn lemma_count_below_all(s: Seq<Bucket>, key: u32)
    requires
        forall|i: int| 0 <= i < s.len() ==> s[i].iterations < key,
    ensures
        count_below(s, key) == sum_counts(s),
    decreases s.len(),
{
    if s.len() > 0 {
        lemma_count_below_all(s.drop_last(), key);
    }
}

/// In a sorted histogram, the samples before slot j are exactly the samples
/// in buckets keyed strictly below slot j's key.
pub proof fn lemma_prefix_sum_is_count_below(s: Seq<Bucket>, j: int)
    requires
        buckets_sorted(s),
        0 <= j < s.len(),
    ensures
        sum_counts(s.take(j)) == count_below(s, s[j].iterations),
    decreases s.len(),
{
    let key = s[j].iterations;
    if j == s.len() - 1 {
        assert(s.take(j) =~= s.drop_last());
        assert(forall|i: int| 0 <= i < s.drop_last().len() ==> s.drop_last()[i].iterations < key);
        lemma_count_below_all(s.drop_last(), key);
    } else {
        assert(s.drop_last().take(j) =~= s.take(j));
        lemma_prefix_sum_is_count_below(s.drop_last(), j);
        assert(s.last().iterations > key);
    }
}

/// The inserted key always ends up present.
pub proof fn lemma_hist_insert_has_key(s: Seq<Bucket>, key: u32)
    ensures
        has_key(hist_insert(s, key), key),
    decreases s.len(),
{
    let r = hist_insert(s, key);
    if s.len() == 0 {
        assert(r[0].iterations == key);
    } else if s.last().iterations < key {
        assert(r[s.len() as int].iterations == key);
    } else if s.last().iterations == key {
        assert(r[s.len() - 1].iterations == key);
    } else {
        let dl = s.drop_last();
        lemma_hist_insert_has_key(dl, key);
        let rd = hist_insert(dl, key);
        let w = choose|w: int| 0 <= w < rd.len() && rd[w].iterations == key;
        assert(r[w] == rd[w]);
        assert(r[w].iterations == key);
    }
}

/// What one inserted sample does to the histogram: order, positivity, the
/// total, and the key set.
pub proof fn lemma_hist_insert_props(s: Seq<Bucket>, key: u32)
    requires
        buckets_sorted(s),
        buckets_positive(s),
        sum_counts(s) < u64::MAX,
    ensures
        buckets_sorted(hist_insert(s, key)),
        buckets_positive(hist_insert(s, key)),
        sum_counts(hist_insert(s, key)) == sum_counts(s) + 1,
        forall|k: u32| has_key(hist_insert(s, key), k) <==> (has_key(s, k) || k == key),
    decreases s.len(),
{
    let r = hist_insert(s, key);
    lemma_sum_counts_nonneg(s);
    if s.len() == 0 {
        assert(r =~= seq![Bucket { iterations: key, count: 1 }]);
        assert(r.drop_last() =~= Seq::<Bucket>::empty());
        assert(sum_counts(Seq::<Bucket>::empty()) == 0);
        assert(sum_counts(r) == 1);
        assert forall|k: u32| has_key(r, k) <==> (has_key(s, k) || k == key) by {
            if k == key {
                assert(r[0].iterations == key);
            }
        }
    } else if s.last().iterations < key {
        assert(r == s.push(Bucket { iterations: key, count: 1 }));
        assert(r.drop_last() =~= s);
        assert(sum_counts(r) == sum_counts(s) + 1);
        assert forall|k: u32| has_key(r, k) <==> (has_key(s, k) || k == key) by {
            if has_key(r, k) {
                let i = choose|i: int| 0 <= i < r.len() && r[i].iterations == k;
                if i < s.len() {
                    assert(has_key(s, k));
                } else {
                    assert(k == key);
                }
            }
            if has_key(s, k) {
                let i = choose|i: int| 0 <= i < s.len() && s[i].iterations == k;
                assert(r[i].iterations == k);
            }
            if k == key {
                assert(r[s.len() as int].iterations == key);
            }
        }
    } else if s.last().iterations == key {
        let last = s.len() - 1;
        lemma_count_le_sum(s, last);
        assert(r == s.update(last, Bucket { iterations: key, count: (s.last().count + 1) as u64 }));
        assert(r.drop_last() =~= s.drop_last());
        assert(sum_counts(r) == sum_counts(s) + 1);
        assert forall|k: u32| has_key(r, k) <==> (has_key(s, k) || k == key) by {
            if has_key(r, k) {
                let i = choose|i: int| 0 <= i < r.len() && r[i].iterations == k;
                assert(s[i].iterations == k);
            }
            if has_key(s, k) {
                let i = choose|i: int| 0 <= i < s.len() && s[i].iterations == k;
                assert(r[i].iterations == k);
            }
            if k == key {
                assert(r[last].iterations == key);
            }
        }
    } else {
        let dl = s.drop_last();
        assert(sum_counts(dl) <= sum_counts(s)) by {
            lemma_sum_counts_nonneg(dl);
        }
        lemma_hist_insert_props(dl, key);
        let rd = hist_insert(dl, key);
        assert(r == rd.push(s.last()));
        assert(r.drop_last() =~= rd);
        assert(r.last() == s.last());
        assert(sum_counts(r) == sum_counts(rd) + s.last().count);
        // order: everything in rd has a key at most max(key, keys of dl), all below s.last()
        assert forall|i: int, j: int| 0 <= i < j < r.len() implies r[i].iterations
            < r[j].iterations by {
            if j < r.len() - 1 {
                assert(rd[i].iterations < rd[j].iterations);
            } else {
                assert(has_key(rd, r[i].iterations));
                let w = choose|w: int| 0 <= w < rd.len() && rd[w].iterations == r[i].iterations;
                if has_key(dl, r[i].iterations) {
                    let v = choose|v: int| 0 <= v < dl.len() && dl[v].iterations == r[i].iterations;
                    assert(s[v].iterations < s.last().iterations);
                } else {
                    assert(r[i].iterations == key);
                }
            }
        }
        assert forall|k: u32| has_key(r, k) <==> (has_key(s, k) || k == key) by {
            if has_key(r, k) {
                let i = choose|i: int| 0 <= i < r.len() && r[i].iterations == k;
                if i < rd.len() {
                    assert(rd[i] == r[i]);
                    assert(has_key(rd, k));
                    if has_key(dl, k) {
                        let v = choose|v: int| 0 <= v < dl.len() && dl[v].iterations == k;
                        assert(s[v].iterations == k);
                    }
                } else {
                    assert(s.last().iterations == k);
                    assert(s[s.len() - 1].iterations == k);
                }
            }
            if has_key(s, k) {
                let i = choose|i: int| 0 <= i < s.len() && s[i].iterations == k;
                if i < s.len() - 1 {
                    assert(dl[i].iterations == k);
                    assert(has_key(dl, k));
                    assert(has_key(rd, k) <==> (has_key(dl, k) || k == key));
                    let w = choose|w: int| 0 <= w < rd.len() && rd[w].iterations == k;
                    assert(r[w] == rd[w]);
                    assert(r[w].iterations == k);
                } else {
                    assert(r[r.len() - 1].iterations == k);
                }
            }
            if k == key {
                lemma_hist_insert_has_key(dl, key);
                assert(has_key(rd, key));
                let w = choose|w: int| 0 <= w < rd.len() && rd[w].iterations == key;
                assert(r[w] == rd[w]);
                assert(r[w].iterations == key);
            }
        }
    }
}

/// Inserting a sample adds its key to the key set and nothing else.
pub proof fn lemma_hist_insert_keys(s: Seq<Bucket>, key: u32, k: u32)
    ensures
        has_key(hist_insert(s, key), k) <==> (has_key(s, k) || k == key),
    decreases s.len(),
{
    let r = hist_insert(s, key);
    if s.len() == 0 {
        if has_key(r, k) {
            let i = choose|i: int| 0 <= i < r.len() && r[i].iterations == k;
            assert(i == 0);
        }
        if k == key {
            assert(r[0].iterations == k);
        }
    } else if s.last().iterations < key {
        if has_key(r, k) {
            let i = choose|i: int| 0 <= i < r.len() && r[i].iterations == k;
            if i < s.len() {
                assert(s[i].iterations == k);
            }
        }
        if has_key(s, k) {
            let i = choose|i: int| 0 <= i < s.len() && s[i].iterations == k;
            assert(r[i].iterations == k);
        }
        if k == key {
            assert(r[s.len() as int].iterations == k);
        }
    } else if s.last().iterations == key {
        if has_key(r, k) {
            let i = choose|i: int| 0 <= i < r.len() && r[i].iterations == k;
            assert(s[i].iterations == k);
        }
        if has_key(s, k) {
            let i = choose|i: int| 0 <= i < s.len() && s[i].iterations == k;
            assert(r[i].iterations == k);
        }
        if k == key {
            assert(r[s.len() - 1].iterations == k);
        }
    } else {
        let dl = s.drop_last();
        let rd = hist_insert(dl, key);
        lemma_hist_insert_keys(dl, key, k);
        assert(r == rd.push(s.last()));
        if has_key(r, k) {
            let i = choose|i: int| 0 <= i < r.len() && r[i].iterations == k;
            if i < rd.len() {
                assert(rd[i] == r[i]);
                assert(has_key(rd, k));
                if has_key(dl, k) {
                    let v = choose|v: int| 0 <= v < dl.len() && dl[v].iterations == k;
                    assert(s[v].iterations == k);
                }
            } else {
                assert(s[s.len() - 1].iterations == k);
            }
        }
        if has_key(s, k) {
            let i = choose|i: int| 0 <= i < s.len() && s[i].iterations == k;
            if i < s.len() - 1 {
                assert(dl[i].iterations == k);
                assert(has_key(dl, k));
                let w = choose|w: int| 0 <= w < rd.len() && rd[w].iterations == k;
                assert(r[w] == rd[w]);
                assert(r[w].iterations == k);
            } else {
                assert(r[r.len() - 1].iterations == k);
            }
        }
        if k == key {
            let w = choose|w: int| 0 <= w < rd.len() && rd[w].iterations == k;
            assert(r[w] == rd[w]);
            assert(r[w].iterations == k);
        }
    }
}

/// Incorporation's key set: the old keys plus the listed iteration counts.
pub proof fn lemma_hist_incorporate_keys(s: Seq<Bucket>, pixels: Seq<Pixel>, k: u32)
    ensures
        has_key(hist_incorporate(s, pixels), k) <==> (has_key(s, k) || pixels_have_key(pixels, k)),
    decreases pixels.len(),
{
    if pixels.len() == 0 {
        if pixels_have_key(pixels, k) {
            let i = choose|i: int| 0 <= i < pixels.len() && pixels[i].iteration_count == k;
            assert(false);
        }
    } else {
        let dl = pixels.drop_last();
        lemma_hist_incorporate_keys(s, dl, k);
        lemma_hist_insert_keys(hist_incorporate(s, dl), pixels.last().iteration_count, k);
        if pixels_have_key(dl, k) {
            let i = choose|i: int| 0 <= i < dl.len() && dl[i].iteration_count == k;
            assert(pixels[i].iteration_count == k);
        }
        if pixels.last().iteration_count == k {
            assert(pixels[pixels.len() - 1].iteration_count == k);
        }
        if pixels_have_key(pixels, k) && pixels.last().iteration_count != k {
            let i = choose|i: int| 0 <= i < pixels.len() && pixels[i].iteration_count == k;
            assert(i < pixels.len() - 1);
            assert(dl[i].iteration_count == k);
            assert(pixels_have_key(dl, k));
        }
    }
}

/// Where the inserted sample lands, in terms of the slot `idx` that an
/// in-order search stops at: either the matching bucket is grown in place or
/// a unit bucket is inserted at `idx`.
pub proof fn lemma_hist_insert_position(s: Seq<Bucket>, key: u32, idx: int)
    requires
        buckets_sorted(s),
        0 <= idx <= s.len(),
        forall|m: int| 0 <= m < idx ==> s[m].iterations < key,
        idx < s.len() ==> s[idx].iterations >= key,
    ensures
        idx < s.len() && s[idx].iterations == key ==> hist_insert(s, key) == s.update(
            idx,
            Bucket { iterations: key, count: (s[idx].count + 1) as u64 },
        ),
        !(idx < s.len() && s[idx].iterations == key) ==> hist_insert(s, key) == s.insert(
            idx,
            Bucket { iterations: key, count: 1 },
        ),
    decreases s.len(),
{
    let unit = Bucket { iterations: key, count: 1 };
    if s.len() == 0 {
        assert(hist_insert(s, key) =~= s.insert(0, unit));
    } else if s.last().iterations < key {
        // every key is below the probe, so the search ran off the end
        assert(forall|m: int|
            0 <= m < s.len() - 1 ==> #[trigger] s[m].iterations < s[s.len() - 1].iterations);
        assert(idx == s.len());
        assert(hist_insert(s, key) =~= s.insert(idx, unit));
    } else if s.last().iterations == key {
        assert(idx == s.len() - 1) by {
            if idx < s.len() - 1 {
                assert(s[idx].iterations < s[s.len() - 1].iterations);
            }
            if idx == s.len() {
                assert(s[s.len() - 1].iterations < key);
            }
        }
        assert(hist_insert(s, key) == s.update(
            idx,
            Bucket { iterations: key, count: (s[idx].count + 1) as u64 },
        ));
    } else {
        // s.last().iterations > key: the sample lands inside the prefix
        let dl = s.drop_last();
        assert(idx < s.len()) by {
            if idx == s.len() {
                assert(s[s.len() - 1].iterations < key);
            }
        }
        assert(idx < s.len() - 1 ==> dl[idx].iterations >= key);
        lemma_hist_insert_position(dl, key, idx);
        if idx < s.len() - 1 && s[idx].iterations == key {
            let grown = Bucket { iterations: key, count: (s[idx].count + 1) as u64 };
            assert(hist_insert(s, key) == hist_insert(dl, key).push(s.last()));
            assert(hist_insert(dl, key) == dl.update(idx, grown));
            assert(dl.update(idx, grown).push(s.last()) =~= s.update(idx, grown));
        } else {
            assert(idx < s.len() && s[idx].iterations == key ==> idx == s.len() - 1
                && s.last().iterations == key);
            assert(!(idx < s.len() && s[idx].iterations == key));
            assert(hist_insert(s, key) == hist_insert(dl, key).push(s.last()));
            assert(hist_insert(dl, key) == dl.insert(idx, unit));
            dl.insert_ensures(idx, unit);
            s.insert_ensures(idx, unit);
            assert(dl.insert(idx, unit).push(s.last()) =~= s.insert(idx, unit));
        }
    }
}

/// Folding one more pixel into the running incorporation.
pub proof fn lemma_hist_incorporate_step(s: Seq<Bucket>, pixels: Seq<Pixel>, k: int)
    requires
        0 <= k < pixels.len(),
    ensures
        hist_incorporate(s, pixels.take(k + 1)) == hist_insert(
            hist_incorporate(s, pixels.take(k)),
            pixels[k].iteration_count,
        ),
{
    assert(pixels.take(k + 1).drop_last() =~= pixels.take(k));
    assert(pixels.take(k + 1).last() == pixels[k]);
}

/// Adds one sample with this key to a sorted histogram, keeping it sorted.
pub fn insert_sample(buckets: &mut Vec<Bucket>, key: u32)
    requires
        buckets_sorted(old(buckets)@),
        buckets_positive(old(buckets)@),
        sum_counts(old(buckets)@) < u64::MAX,
    ensures
        final(buckets)@ == hist_insert(old(buckets)@, key),
{
    let ghost s0 = buckets@;
    let n = buckets.len();
    let mut idx: usize = 0;
    while idx < n && buckets[idx].iterations < key
        invariant
            buckets@ == s0,
            n == s0.len(),
            idx <= n,
            forall|m: int| 0 <= m < idx ==> s0[m].iterations < key,
        decreases n - idx,
    {
        idx = idx + 1;
    }
    proof {
        lemma_hist_insert_position(s0, key, idx as int);
    }
    if idx < n && buckets[idx].iterations == key {
        let c = buckets[idx].count;
        proof {
            lemma_count_le_sum(s0, idx as int);
        }
        buckets[idx] = Bucket { iterations: key, count: c + 1 };
    } else {
        buckets.insert(idx, Bucket { iterations: key, count: 1 });
    }
}

/// Whether the histogram has a bucket for this key.
pub fn contains_key(buckets: &Vec<Bucket>, key: u32) -> (b: bool)
    ensures
        b == has_key(buckets@, key),
{
    let n = buckets.len();
    let mut j: usize = 0;
    while j < n
        invariant
            n == buckets@.len(),
            j <= n,
            forall|m: int| 0 <= m < j ==> buckets@[m].iterations != key,
        decreases n - j,
    {
        if buckets[j].iterations == key {
            return true;
        }
        j = j + 1;
    }
    false
}

/// Whether some listed pixel carries this iteration count.
pub fn pixels_contain_key(pixels: &Vec<Pixel>, key: u32) -> (b: bool)
    ensures
        b == pixels_have_key(pixels@, key),
{
    let n = pixels.len();
    let mut j: usize = 0;
    while j < n
        invariant
            n == pixels@.len(),
            j <= n,
            forall|m: int| 0 <= m < j ==> pixels@[m].iteration_count != key,
        decreases n - j,
    {
        if pixels[j].iteration_count == key {
            return true;
        }
        j = j + 1;
    }
    false
}

/// Finds the slot of a key that is known to be present in a sorted histogram.
pub fn find_bucket(buckets: &Vec<Bucket>, key: u32) -> (j: usize)
    requires
        has_key(buckets@, key),
    ensures
        j < buckets@.len(),
        buckets@[j as int].iterations == key,
{
    let n = buckets.len();
    let mut j: usize = 0;
    loop
        invariant
            has_key(buckets@, key),
            n == buckets@.len(),
            j <= n,
            forall|m: int| 0 <= m < j ==> buckets@[m].iterations != key,
        ensures
            j < buckets@.len(),
            buckets@[j as int].iterations == key,
        decreases buckets@.len() - j,
    {
        proof {
            let w = choose|i: int| 0 <= i < buckets@.len() && buckets@[i].iterations == key;
            assert(j <= w);
        }
        if buckets[j].iterations == key {
            break;
        }
        proof {
            assert(j < buckets@.len());
        }
        j = j + 1;
    }
    j
}

} // verus!
