use mandel::bands::{band_plan, split_bands};
use mandel::queue::WorkQueue;
use mandel::render::{intensity, render_with, ESCAPE_LIMIT};

fn shade(c: usize, r: usize) -> u8 {
    ((c * 31 + r * 17) % 251) as u8
}

#[test]
fn intensity_values() {
    assert_eq!(intensity(None), 0);
    assert_eq!(intensity(Some(1)), 254);
    assert_eq!(intensity(Some(0)), 255);
    assert_eq!(intensity(Some(254)), 1);
    assert_eq!(intensity(Some(256)), 255);
    assert_eq!(ESCAPE_LIMIT, 255);
}

#[test]
fn render_with_writes_row_major() {
    let mut pixels = vec![0u8; 6];
    render_with(&mut pixels, (3, 2), |c, r| (10 * r + c) as u8);
    assert_eq!(pixels, vec![0, 1, 2, 10, 11, 12]);
}

fn whole(width: usize, height: usize) -> Vec<u8> {
    let mut pixels = vec![0u8; width * height];
    render_with(&mut pixels, (width, height), shade);
    pixels
}

fn by_bands(width: usize, height: usize, threads: usize) -> Vec<u8> {
    let mut pixels = vec![0u8; width * height];
    let plan = band_plan((width, height), threads).unwrap();
    let slices = split_bands(&mut pixels, &plan, (width, height), threads);
    for (b, s) in plan.iter().zip(slices) {
        let top = b.top;
        render_with(s, (width, b.rows), |c, r| shade(c, top + r));
    }
    pixels
}

fn by_queue(width: usize, height: usize, threads: usize) -> Vec<u8> {
    let mut pixels = vec![0u8; width * height];
    let plan = band_plan((width, height), threads).unwrap();
    let slices = split_bands(&mut pixels, &plan, (width, height), threads);
    let mut q = WorkQueue::new(slices);
    while let Some((i, s)) = q.pull() {
        let top = plan[i].top;
        render_with(s, (width, plan[i].rows), |c, r| shade(c, top + r));
    }
    pixels
}

#[test]
fn banded_and_queued_renders_match_whole() {
    for (w, h) in [(1, 1), (5, 7), (16, 9), (3, 40)] {
        let expected = whole(w, h);
        for threads in 1..12 {
            assert_eq!(by_bands(w, h, threads), expected);
            assert_eq!(by_queue(w, h, threads), expected);
        }
    }
}

#[test]
fn single_worker_matches_whole() {
    assert_eq!(by_bands(20, 15, 1), whole(20, 15));
    assert_eq!(by_queue(20, 15, 1), whole(20, 15));
}
