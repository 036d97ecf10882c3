use mandelbrot::bands::{plan_bands, rows_per_band, Band};

fn assert_tiles(width: usize, height: usize, workers: usize) {
    let bands = plan_bands(width, height, workers);
    assert!(!bands.is_empty());
    assert!(bands.len() <= workers);
    let rows = rows_per_band(height, workers);
    let mut owner = vec![0usize; width * height];
    for (i, b) in bands.iter().enumerate() {
        assert_eq!(b.top, i * rows);
        assert_eq!(b.start, b.top * width);
        assert_eq!(b.len, b.height * width);
        assert!(b.height >= 1 && b.height <= rows);
        for p in b.start..b.start + b.len {
            owner[p] += 1;
        }
    }
    assert!(owner.iter().all(|&n| n == 1));
}

#[test]
fn rows_per_band_rounds_up() {
    assert_eq!(rows_per_band(750, 8), 94);
    assert_eq!(rows_per_band(800, 8), 100);
    assert_eq!(rows_per_band(7, 8), 1);
    assert_eq!(rows_per_band(1, 64), 1);
    assert_eq!(rows_per_band(10, 1), 10);
    assert_eq!(rows_per_band(0, 3), 0);
}

#[test]
fn plan_for_reference_image() {
    let bands = plan_bands(1000, 750, 8);
    assert_eq!(bands.len(), 8);
    assert_eq!(bands[0], Band { top: 0, height: 94, start: 0, len: 94_000 });
    assert_eq!(bands[7], Band { top: 658, height: 92, start: 658_000, len: 92_000 });
}

#[test]
fn short_last_band() {
    let bands = plan_bands(3, 10, 4);
    let heights: Vec<usize> = bands.iter().map(|b| b.height).collect();
    assert_eq!(heights, vec![3, 3, 3, 1]);
    assert_eq!(bands[3], Band { top: 9, height: 1, start: 27, len: 3 });
}

#[test]
fn fewer_bands_than_workers() {
    let bands = plan_bands(5, 6, 4);
    assert_eq!(bands.len(), 3);
    let bands = plan_bands(2, 1, 64);
    assert_eq!(bands, vec![Band { top: 0, height: 1, start: 0, len: 2 }]);
}

#[test]
fn one_worker_takes_whole_image() {
    let bands = plan_bands(4, 3, 1);
    assert_eq!(bands, vec![Band { top: 0, height: 3, start: 0, len: 12 }]);
}

#[test]
fn bands_cover_every_pixel_once() {
    for width in [1usize, 3, 7] {
        for height in [1usize, 2, 9, 10, 17, 64, 65] {
            for workers in 1..=64 {
                assert_tiles(width, height, workers);
            }
        }
    }
}
