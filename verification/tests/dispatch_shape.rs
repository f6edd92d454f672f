use wgpu_mandelbrot::compute::{
    mandelbrot_dispatch_size, MAX_DISPATCH_PER_DIMENSION, WORKGROUP_SIZE, Y_WORKGROUPS,
};

#[test]
fn dispatch_shape_zero_work() {
    let (x, y, z) = mandelbrot_dispatch_size(0);
    assert_eq!((x, y, z), (1, 1024, 1));
}

#[test]
fn dispatch_shape_one_work_item() {
    let (x, y, z) = mandelbrot_dispatch_size(1);
    assert_eq!((x, y, z), (1, 1024, 1));
}

#[test]
fn dispatch_shape_exact_boundary() {
    // 65536 work items are one invocation more than a single x-slice covers.
    let (x, y, z) = mandelbrot_dispatch_size(65536);
    assert_eq!((x, y, z), (2, 1024, 1));
}

#[test]
fn dispatch_shape_just_below_boundary() {
    let (x, y, z) = mandelbrot_dispatch_size(65535);
    assert_eq!((x, y, z), (1, 1024, 1));
}

#[test]
fn dispatch_shape_covers_work_within_limits() {
    for &work in &[0usize, 1, 63, 64, 65, 65535, 65536, 1920 * 1080, 4096 * 4096] {
        let (x, y, z) = mandelbrot_dispatch_size(work);
        let covered = x as u64 * y as u64 * WORKGROUP_SIZE as u64;
        assert!(covered >= work as u64);
        assert!(x >= 1);
        assert!(x <= MAX_DISPATCH_PER_DIMENSION);
        assert!(y <= MAX_DISPATCH_PER_DIMENSION);
        assert_eq!(y, Y_WORKGROUPS);
        assert_eq!(z, 1);
    }
}

#[test]
fn dispatch_shape_largest_supported_work() {
    let work: usize = 65535 * 65536 - 1;
    let (x, y, z) = mandelbrot_dispatch_size(work);
    assert_eq!((x, y, z), (65535, 1024, 1));
    assert!(x as u64 * y as u64 * WORKGROUP_SIZE as u64 >= work as u64);
}
