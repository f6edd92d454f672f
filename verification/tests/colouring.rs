use wgpu_mandelbrot::colour::{ColourError, ColourRange, HistogramColouring};
use wgpu_mandelbrot::pixel::{Complex, Pixel};
use wgpu_mandelbrot::screen::Size;

fn pixel(x: u32, y: u32, escaped: u32, iteration_count: u32) -> Pixel {
    Pixel { x, y, current_value: Complex::zero(), escaped, iteration_count }
}

fn blank_colours(n: usize) -> Vec<ColourRange> {
    let mut v = Vec::new();
    for _ in 0..n {
        v.push(ColourRange::default());
    }
    v
}

#[test]
fn colour_range_default_is_unescaped_zero() {
    let c = ColourRange::default();
    assert_eq!(c.escaped, 0);
    assert_eq!(c.rank_numerator, 0);
    assert_eq!(c.rank_denominator, 1);
}

#[test]
fn complex_zero_has_zero_bits() {
    let z = Complex::zero();
    assert_eq!(z.re_bits, 0);
    assert_eq!(z.im_bits, 0);
}

#[test]
fn new_engine_is_empty() {
    let h = HistogramColouring::new();
    assert_eq!(h.buckets.len(), 0);
    assert_eq!(h.ranks.len(), 0);
    assert_eq!(h.total_samples, 0);
}

#[test]
fn histogram_counts_sum_to_total_and_keys_distinct() {
    let size = Size { width: 3, height: 1 };
    let all = vec![pixel(0, 0, 1, 7), pixel(1, 0, 1, 3), pixel(2, 0, 1, 7)];
    let newly = all.clone();
    let mut colours = blank_colours(3);
    let mut h = HistogramColouring::new();
    let r = h.update_colours(size, &all, &newly, &mut colours);
    assert!(r.is_ok());
    let sum: u64 = h.buckets.iter().map(|b| b.count).sum();
    assert_eq!(sum, h.total_samples);
    assert_eq!(h.total_samples, 3);
    for i in 0..h.buckets.len() {
        for j in i + 1..h.buckets.len() {
            assert_ne!(h.buckets[i].iterations, h.buckets[j].iterations);
        }
    }
    assert_eq!(h.buckets.len(), 2);
    assert_eq!((h.buckets[0].iterations, h.buckets[0].count), (3, 1));
    assert_eq!((h.buckets[1].iterations, h.buckets[1].count), (7, 2));
}

#[test]
fn cumulative_ranks_non_decreasing_and_below_total() {
    let size = Size { width: 4, height: 1 };
    let all = vec![pixel(0, 0, 1, 9), pixel(1, 0, 1, 2), pixel(2, 0, 1, 9), pixel(3, 0, 1, 4)];
    let newly = all.clone();
    let mut colours = blank_colours(4);
    let mut h = HistogramColouring::new();
    assert!(h.update_colours(size, &all, &newly, &mut colours).is_ok());
    assert_eq!(h.ranks.len(), h.buckets.len());
    for j in 1..h.ranks.len() {
        assert!(h.ranks[j - 1] <= h.ranks[j]);
    }
    for j in 0..h.ranks.len() {
        assert!(h.ranks[j] < h.total_samples);
    }
    // keys 2, 4, 9 carry 1, 1, 2 samples: prefix sums 0, 1, 2 of 4.
    assert_eq!(h.ranks, vec![0, 1, 2]);
    assert_eq!(h.total_samples, 4);
}

#[test]
fn incorporate_empty_list_changes_nothing() {
    let size = Size { width: 2, height: 1 };
    let all = vec![pixel(0, 0, 1, 5), pixel(1, 0, 0, 0)];
    let newly = vec![pixel(0, 0, 1, 5)];
    let mut colours = blank_colours(2);
    let mut h = HistogramColouring::new();
    assert!(h.update_colours(size, &all, &newly, &mut colours).is_ok());
    let buckets_before: Vec<_> = h.buckets.clone();
    let ranks_before: Vec<_> = h.ranks.clone();
    let total_before = h.total_samples;
    let colours_before: Vec<ColourRange> = colours.clone();
    let empty: Vec<Pixel> = Vec::new();
    let r = h.update_colours(size, &all, &empty, &mut colours);
    assert!(r.is_ok());
    assert_eq!(h.buckets, buckets_before);
    assert_eq!(h.ranks, ranks_before);
    assert_eq!(h.total_samples, total_before);
    assert_eq!(colours, colours_before);
}

#[test]
fn capacity_mismatch_is_rejected_unchanged() {
    let size = Size { width: 2, height: 2 };
    let all = vec![pixel(0, 0, 0, 0); 4];
    let newly = vec![pixel(0, 0, 1, 5)];
    let mut colours = blank_colours(3);
    let colours_before = colours.clone();
    let mut h = HistogramColouring::new();
    let r = h.update_colours(size, &all, &newly, &mut colours);
    assert_eq!(r, Err(ColourError::CapacityMismatch));
    assert_eq!(colours, colours_before);
    assert_eq!(h.total_samples, 0);
    assert_eq!(h.buckets.len(), 0);
}

#[test]
fn off_screen_record_is_rejected_unchanged() {
    let size = Size { width: 2, height: 2 };
    let all = vec![pixel(0, 0, 0, 0); 4];
    let newly = vec![pixel(5, 0, 1, 5)];
    let mut colours = blank_colours(4);
    let colours_before = colours.clone();
    let mut h = HistogramColouring::new();
    let r = h.update_colours(size, &all, &newly, &mut colours);
    assert_eq!(r, Err(ColourError::CoordinateOutOfRange));
    assert_eq!(colours, colours_before);
    assert_eq!(h.total_samples, 0);
}

#[test]
fn escaped_cell_without_bucket_is_rejected() {
    let size = Size { width: 2, height: 1 };
    // The snapshot claims a cell escaped at iteration 9, but no sample with
    // key 9 was ever incorporated and none arrives in this batch.
    let all = vec![pixel(0, 0, 1, 9), pixel(1, 0, 0, 0)];
    let newly = vec![pixel(1, 0, 1, 5)];
    let mut colours = blank_colours(2);
    let colours_before = colours.clone();
    let mut h = HistogramColouring::new();
    let r = h.update_colours(size, &all, &newly, &mut colours);
    assert_eq!(r, Err(ColourError::MissingBucket));
    assert_eq!(colours, colours_before);
    assert_eq!(h.total_samples, 0);
}

#[test]
fn reset_clears_and_is_idempotent() {
    let size = Size { width: 2, height: 1 };
    let all = vec![pixel(0, 0, 1, 5), pixel(1, 0, 0, 0)];
    let newly = vec![pixel(0, 0, 1, 5)];
    let mut colours = blank_colours(2);
    let mut h = HistogramColouring::new();
    assert!(h.update_colours(size, &all, &newly, &mut colours).is_ok());
    assert_eq!(h.total_samples, 1);
    h.reset();
    assert_eq!(h.buckets.len(), 0);
    assert_eq!(h.ranks.len(), 0);
    assert_eq!(h.total_samples, 0);
    h.reset();
    assert_eq!(h.buckets.len(), 0);
    assert_eq!(h.ranks.len(), 0);
    assert_eq!(h.total_samples, 0);
}
