use mandel::bands::{band_plan, check_request, rows_per_band, split_bands, Band, RenderError};

fn band(index: usize, top: usize, rows: usize, width: usize) -> Band {
    Band { index, top, rows, start: top * width, len: rows * width }
}

fn assert_rows_covered_once(bands: &[Band], height: usize) {
    let mut seen = vec![0usize; height];
    for b in bands {
        assert!(b.rows >= 1);
        for r in b.top..b.top + b.rows {
            seen[r] += 1;
        }
    }
    assert!(seen.iter().all(|&n| n == 1));
}

#[test]
fn plan_uneven_height() {
    // 10 rows over 3 workers: 4 rows per band.
    let plan = band_plan((5, 10), 3).unwrap();
    assert_eq!(plan, vec![band(0, 0, 4, 5), band(1, 4, 4, 5), band(2, 8, 2, 5)]);
    assert_rows_covered_once(&plan, 10);
}

#[test]
fn plan_even_height_overshoots() {
    // 4 rows over 2 workers: 3 rows per band, the last band takes one row.
    let plan = band_plan((2, 4), 2).unwrap();
    assert_eq!(plan, vec![band(0, 0, 3, 2), band(1, 3, 1, 2)]);
    assert_rows_covered_once(&plan, 4);
}

#[test]
fn plan_more_workers_than_rows() {
    let plan = band_plan((7, 3), 8).unwrap();
    assert_eq!(plan, vec![band(0, 0, 1, 7), band(1, 1, 1, 7), band(2, 2, 1, 7)]);
    assert!(plan.len() <= 8);
    assert_rows_covered_once(&plan, 3);
}

#[test]
fn plan_single_worker_is_whole_buffer() {
    let plan = band_plan((100, 200), 1).unwrap();
    assert_eq!(plan, vec![band(0, 0, 200, 100)]);
}

#[test]
fn plan_many_shapes_cover_every_row() {
    for height in 1..40 {
        for threads in 1..50 {
            let plan = band_plan((3, height), threads).unwrap();
            assert!(plan.len() <= threads);
            assert_rows_covered_once(&plan, height);
            assert_eq!(plan[0].start, 0);
            let last = plan[plan.len() - 1];
            assert_eq!(last.start + last.len, 3 * height);
        }
    }
}

#[test]
fn plan_rejects_degenerate_requests() {
    assert_eq!(band_plan((0, 10), 2), Err(RenderError::InvalidArgument));
    assert_eq!(band_plan((10, 0), 2), Err(RenderError::InvalidArgument));
    assert_eq!(band_plan((10, 10), 0), Err(RenderError::InvalidArgument));
    assert_eq!(check_request((1, 1), 1), Ok(()));
    assert_eq!(check_request((1, 1), 0), Err(RenderError::InvalidArgument));
}

#[test]
fn rows_per_band_formula() {
    assert_eq!(rows_per_band(1500, 8), 188);
    assert_eq!(rows_per_band(4, 2), 3);
    assert_eq!(rows_per_band(3, 8), 1);
}

#[test]
fn split_bands_gives_disjoint_slices() {
    let mut pixels: Vec<u8> = (0..30).collect();
    let plan = band_plan((3, 10), 3).unwrap();
    let slices = split_bands(&mut pixels, &plan, (3, 10), 3);
    assert_eq!(slices.len(), 3);
    assert_eq!(&*slices[0], &(0..12).collect::<Vec<u8>>()[..]);
    assert_eq!(&*slices[1], &(12..24).collect::<Vec<u8>>()[..]);
    assert_eq!(&*slices[2], &(24..30).collect::<Vec<u8>>()[..]);
    for s in slices {
        for b in s.iter_mut() {
            *b += 100;
        }
    }
    assert_eq!(pixels, (100..130).collect::<Vec<u8>>());
}
