use wgpu_mandelbrot::compaction::{compact, CompactError};
use wgpu_mandelbrot::double_buffer::DoubleBuffer;
use wgpu_mandelbrot::frame::FrameState;
use wgpu_mandelbrot::pixel::{create_pixels, Complex, Pixel};
use wgpu_mandelbrot::screen::Size;

fn pixel(x: u32, y: u32, escaped: u32, iteration_count: u32) -> Pixel {
    Pixel { x, y, current_value: Complex::zero(), escaped, iteration_count }
}

#[test]
fn create_pixels_fills_grid_row_major() {
    let size = Size { width: 3, height: 2 };
    let pixels = create_pixels(size);
    assert_eq!(pixels.len(), 6);
    for y in 0..2u32 {
        for x in 0..3u32 {
            let p = pixels[(y * 3 + x) as usize];
            assert_eq!(p.x, x);
            assert_eq!(p.y, y);
            assert_eq!(p.current_value, Complex::zero());
            assert_eq!(p.escaped, 0);
            assert_eq!(p.iteration_count, 0);
        }
    }
}

#[test]
fn create_pixels_empty_screen() {
    let pixels = create_pixels(Size { width: 0, height: 7 });
    assert_eq!(pixels.len(), 0);
}

#[test]
fn reset_restores_fresh_exploration() {
    let size = Size { width: 4, height: 4 };
    let mut state = FrameState::new(size);
    // Let two pixels escape, then reset.
    let mut read_back = create_pixels(size);
    read_back[3] = pixel(3, 0, 1, 6);
    read_back[9] = pixel(1, 2, 1, 8);
    assert!(state.process_readback(&read_back, 16).is_ok());
    assert_eq!(state.unescaped_pixels.len(), 14);
    assert_eq!(state.histogram_colouring.total_samples, 2);

    state.reset(size);
    assert_eq!(state.unescaped_pixels.len(), 16);
    assert_eq!(state.all_pixels.len(), 16);
    for p in state.all_pixels.iter() {
        assert_eq!(p.escaped, 0);
        assert_eq!(p.iteration_count, 0);
    }
    for p in state.unescaped_pixels.iter() {
        assert_eq!(p.escaped, 0);
        assert_eq!(p.iteration_count, 0);
    }
    assert_eq!(state.newly_escaped_pixels.len(), 0);
    assert_eq!(state.histogram_colouring.total_samples, 0);
    assert_eq!(state.histogram_colouring.buckets.len(), 0);
    for c in state.colour_ranges.iter() {
        assert_eq!(c.escaped, 0);
    }

    // Resetting again leaves the very same observable state.
    let snapshot = state.all_pixels.clone();
    let colours = state.colour_ranges.clone();
    state.reset(size);
    assert_eq!(state.all_pixels, snapshot);
    assert_eq!(state.colour_ranges, colours);
    assert_eq!(state.unescaped_pixels.len(), 16);
    assert_eq!(state.histogram_colouring.total_samples, 0);
}

#[test]
fn working_set_never_grows_across_frames() {
    let size = Size { width: 4, height: 2 };
    let mut state = FrameState::new(size);
    let mut previous = state.unescaped_pixels.len();
    assert_eq!(previous, 8);

    // Frame 1: two pixels escape.
    let mut read_back = create_pixels(size);
    read_back[0] = pixel(0, 0, 1, 3);
    read_back[5] = pixel(1, 1, 1, 4);
    assert!(state.process_readback(&read_back, previous).is_ok());
    assert!(state.unescaped_pixels.len() <= previous);
    assert_eq!(state.unescaped_pixels.len(), 6);
    previous = state.unescaped_pixels.len();

    // Frame 2: nothing escapes.
    let read_back = state.unescaped_pixels.clone();
    assert!(state.process_readback(&read_back, previous).is_ok());
    assert!(state.unescaped_pixels.len() <= previous);
    assert_eq!(state.unescaped_pixels.len(), 6);
    previous = state.unescaped_pixels.len();

    // Frame 3: one more escapes.
    let mut read_back = state.unescaped_pixels.clone();
    let p = read_back[2];
    read_back[2] = pixel(p.x, p.y, 1, 9);
    assert!(state.process_readback(&read_back, previous).is_ok());
    assert!(state.unescaped_pixels.len() <= previous);
    assert_eq!(state.unescaped_pixels.len(), 5);
}

#[test]
fn histogram_colouring_end_to_end() {
    // 16 cells; 3 escape at iteration 5, 2 at iteration 10, 11 never escape.
    let size = Size { width: 4, height: 4 };
    let mut state = FrameState::new(size);
    let mut read_back = create_pixels(size);
    read_back[0] = pixel(0, 0, 1, 5);
    read_back[7] = pixel(3, 1, 1, 5);
    read_back[12] = pixel(0, 3, 1, 5);
    read_back[3] = pixel(3, 0, 1, 10);
    read_back[10] = pixel(2, 2, 1, 10);
    assert!(state.process_readback(&read_back, 16).is_ok());

    let h = &state.histogram_colouring;
    assert_eq!(h.total_samples, 5);
    assert_eq!(h.buckets.len(), 2);
    assert_eq!((h.buckets[0].iterations, h.buckets[0].count), (5, 3));
    assert_eq!((h.buckets[1].iterations, h.buckets[1].count), (10, 2));
    // Bucket 5 ranks 0/5 = 0.0; bucket 10 ranks 3/5 = 0.6.
    assert_eq!(h.ranks, vec![0, 3]);

    let mut escaped_cells = 0;
    for (i, c) in state.colour_ranges.iter().enumerate() {
        match i {
            0 | 7 | 12 => {
                assert_eq!(c.escaped, 1);
                assert_eq!(c.rank_numerator, 0);
                assert_eq!(c.rank_denominator, 5);
                escaped_cells += 1;
            },
            3 | 10 => {
                assert_eq!(c.escaped, 1);
                assert_eq!(c.rank_numerator, 3);
                assert_eq!(c.rank_denominator, 5);
                escaped_cells += 1;
            },
            _ => {
                assert_eq!(c.escaped, 0);
            },
        }
    }
    assert_eq!(escaped_cells, 5);
    assert_eq!(state.unescaped_pixels.len(), 11);
}

#[test]
fn earlier_escapes_are_recoloured_when_ranks_shift() {
    let size = Size { width: 2, height: 1 };
    let mut state = FrameState::new(size);

    // Frame 1: the cell at (1, 0) escapes at iteration 10; as the only
    // sample it ranks 0 of 1.
    let read_back = vec![pixel(0, 0, 0, 7), pixel(1, 0, 1, 10)];
    assert!(state.process_readback(&read_back, 2).is_ok());
    let c = state.colour_ranges[1];
    assert_eq!((c.escaped, c.rank_numerator, c.rank_denominator), (1, 0, 1));

    // Frame 2: the cell at (0, 0) escapes at the smaller iteration 5. Half
    // the samples now rank below iteration 10, so the first cell's colour
    // moves from 0/1 to 1/2.
    let read_back = vec![pixel(0, 0, 1, 5)];
    assert!(state.process_readback(&read_back, 1).is_ok());
    let first = state.colour_ranges[0];
    assert_eq!((first.escaped, first.rank_numerator, first.rank_denominator), (1, 0, 2));
    let second = state.colour_ranges[1];
    assert_eq!((second.escaped, second.rank_numerator, second.rank_denominator), (1, 1, 2));
    assert_eq!(state.unescaped_pixels.len(), 0);
    assert_eq!(state.histogram_colouring.total_samples, 2);
}

#[test]
fn compaction_partitions_batch() {
    // 10 read-back records; those at batch indices 2 and 5 report escaped.
    let size = Size { width: 4, height: 4 };
    let mut all_pixels = create_pixels(size);
    let mut unescaped: Vec<Pixel> = Vec::new();
    let mut newly_escaped: Vec<Pixel> = Vec::new();
    let mut read_back = Vec::new();
    for i in 0..10u32 {
        let escaped = if i == 2 || i == 5 { 1 } else { 0 };
        read_back.push(pixel(i % 4, i / 4, escaped, if escaped == 1 { 20 + i } else { 0 }));
    }
    let r = compact(&read_back, 10, size, &mut all_pixels, &mut unescaped, &mut newly_escaped);
    assert!(r.is_ok());
    assert_eq!(newly_escaped.len(), 2);
    assert!(newly_escaped.contains(&read_back[2]));
    assert!(newly_escaped.contains(&read_back[5]));
    assert_eq!(unescaped.len(), 8);
    for (i, p) in read_back.iter().enumerate() {
        if i == 2 || i == 5 {
            assert!(!unescaped.contains(p));
        } else {
            assert!(unescaped.contains(p));
        }
    }
    // The two escaped records landed in the snapshot at their slots.
    assert_eq!(all_pixels[(read_back[2].y * 4 + read_back[2].x) as usize], read_back[2]);
    assert_eq!(all_pixels[(read_back[5].y * 4 + read_back[5].x) as usize], read_back[5]);
}

#[test]
fn compaction_ignores_records_past_count() {
    let size = Size { width: 4, height: 1 };
    let mut all_pixels = create_pixels(size);
    let mut unescaped: Vec<Pixel> = Vec::new();
    let mut newly_escaped: Vec<Pixel> = Vec::new();
    // Only the first two records are this frame's; the stale third one
    // claims an escape that must not be read.
    let read_back = vec![pixel(0, 0, 0, 0), pixel(1, 0, 0, 0), pixel(2, 0, 1, 33)];
    let r = compact(&read_back, 2, size, &mut all_pixels, &mut unescaped, &mut newly_escaped);
    assert!(r.is_ok());
    assert_eq!(newly_escaped.len(), 0);
    assert_eq!(unescaped.len(), 2);
    assert_eq!(all_pixels[2].escaped, 0);
}

#[test]
fn compaction_rejects_bad_flag() {
    let size = Size { width: 2, height: 1 };
    let mut all_pixels = create_pixels(size);
    let snapshot_before = all_pixels.clone();
    let mut unescaped = vec![pixel(0, 0, 0, 0)];
    let mut newly_escaped: Vec<Pixel> = Vec::new();
    let read_back = vec![pixel(0, 0, 2, 0)];
    let r = compact(&read_back, 1, size, &mut all_pixels, &mut unescaped, &mut newly_escaped);
    assert_eq!(r, Err(CompactError::InvalidRecord));
    assert_eq!(all_pixels, snapshot_before);
    assert_eq!(unescaped.len(), 1);
}

#[test]
fn compaction_rejects_wrong_snapshot_size() {
    let size = Size { width: 2, height: 2 };
    let mut all_pixels = create_pixels(Size { width: 2, height: 1 });
    let mut unescaped: Vec<Pixel> = Vec::new();
    let mut newly_escaped: Vec<Pixel> = Vec::new();
    let read_back = vec![pixel(0, 0, 0, 0)];
    let r = compact(&read_back, 1, size, &mut all_pixels, &mut unescaped, &mut newly_escaped);
    assert_eq!(r, Err(CompactError::CapacityMismatch));
    assert_eq!(all_pixels.len(), 2);
}

#[test]
fn double_buffer_swap_exchanges_roles() {
    let mut buffers = DoubleBuffer { input: vec![1, 2, 3], output: vec![4, 5, 6] };
    buffers.swap();
    assert_eq!(buffers.input, vec![4, 5, 6]);
    assert_eq!(buffers.output, vec![1, 2, 3]);
    buffers.swap();
    assert_eq!(buffers.input, vec![1, 2, 3]);
    assert_eq!(buffers.output, vec![4, 5, 6]);
}

#[test]
fn frame_rejects_invalid_readback_unchanged() {
    let size = Size { width: 2, height: 2 };
    let mut state = FrameState::new(size);
    let colours_before = state.colour_ranges.clone();
    let read_back = vec![pixel(9, 9, 1, 5)];
    let r = state.process_readback(&read_back, 1);
    assert_eq!(r, Err(CompactError::InvalidRecord));
    assert_eq!(state.unescaped_pixels.len(), 4);
    assert_eq!(state.colour_ranges, colours_before);
    assert_eq!(state.histogram_colouring.total_samples, 0);
}
