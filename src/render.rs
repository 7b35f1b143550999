use vstd::prelude::*;
use crate::bands::{is_plan, Band};

verus! {

/// Iteration cap of the escape-time test; it matches the range of one
/// 8-bit intensity channel.
pub const ESCAPE_LIMIT: usize = 255;

/// Grey level of a pixel whose point escaped after `escape` iterations,
/// or never escaped (`None`).
pub open spec fn spec_intensity(escape: Option<usize>) -> u8 {
    match escape {
        None => 0u8,
        Some(count) => (255 - count % 256) as u8,
    }
}

/// Maps an escape count to a grey level: points that never escape are
/// black, and the sooner a point escapes the brighter it is.
pub fn intensity(escape: Option<usize>) -> (r: u8)
    ensures
        r == spec_intensity(escape),
{
    match escape {
        None => 0,
        Some(count) => 255 - (count % 256) as u8,
    }
}

/// Column and row of byte `k` of a row-major buffer `width` bytes wide.
pub open spec fn pixel_of(width: int, k: int) -> (usize, usize) {
    ((k % width) as usize, (k / width) as usize)
}

/// The row-major picture of a `width` by `height` grid whose pixel at
/// column `c` and row `r` is `pf(c, r)`.
pub open spec fn image(width: int, height: int, pf: spec_fn(int, int) -> u8) -> Seq<u8> {
    Seq::new((width * height) as nat, |k: int| pf(k % width, k / width))
}

/// `pf` seen from a band whose first row is `top`.
pub open spec fn shifted(pf: spec_fn(int, int) -> u8, top: int) -> spec_fn(int, int) -> u8 {
    |c: int, r: int| pf(c, top + r)
}

/// Fills a row-major `width` by `height` buffer, giving the pixel at
/// column `c` and row `r` the value `shade(c, r)`.
pub fn render_with<F: Fn(usize, usize) -> u8>(pixels: &mut [u8], bounds: (usize, usize), shade: F)
    requires
        old(pixels)@.len() == bounds.0 * bounds.1,
        forall|c: usize, r: usize| c < bounds.0 && r < bounds.1 ==> #[trigger] shade.requires((c, r)),
    ensures
        final(pixels)@.len() == old(pixels)@.len(),
        forall|k: int| 0 <= k < final(pixels)@.len()
            ==> shade.ensures(pixel_of(bounds.0 as int, k), #[trigger] final(pixels)@[k]),
{
    let (width, height) = bounds;
    let total = pixels.len();
    let mut row: usize = 0;
    while row < height
        invariant
            pixels@.len() == width * height,
            total == width * height,
            row <= height,
            forall|c: usize, r: usize| c < width && r < height ==> #[trigger] shade.requires((c, r)),
            forall|k: int| 0 <= k < row * width ==> shade.ensures(pixel_of(width as int, k), #[trigger] pixels@[k]),
        decreases height - row,
    {
        let mut column: usize = 0;
        while column < width
            invariant
                pixels@.len() == width * height,
                total == width * height,
            total == width * height,
                row < height,
                column <= width,
                forall|c: usize, r: usize| c < width && r < height ==> #[trigger] shade.requires((c, r)),
                forall|k: int| 0 <= k < row * width + column
                    ==> shade.ensures(pixel_of(width as int, k), #[trigger] pixels@[k]),
            decreases width - column,
        {
            proof {
                assert(row * width + column < width * height) by (nonlinear_arith)
                    requires row < height, column < width;
                vstd::arithmetic::div_mod::lemma_fundamental_div_mod_converse(
                    row * width + column, width as int, row as int, column as int);
            }
            let k = row * width + column;
            let value = shade(column, row);
            pixels[k] = value;
            column = column + 1;
        }
        proof {
            assert(row * width + width == (row + 1) * width) by (nonlinear_arith);
        }
        row = row + 1;
    }
}

/// A buffer in which each byte holds what a deterministic `shade` gives for
/// that byte's pixel is the picture of `shade`.
pub proof fn lemma_rendered_is_image<F: Fn(usize, usize) -> u8>(
    pixels: Seq<u8>,
    width: int,
    height: int,
    shade: F,
    pf: spec_fn(int, int) -> u8,
)
    requires
        width > 0,
        height >= 0,
        width * height <= usize::MAX,
        pixels.len() == width * height,
        forall|k: int| 0 <= k < pixels.len() ==> shade.ensures(pixel_of(width, k), #[trigger] pixels[k]),
        forall|c: usize, r: usize, v: u8| #[trigger] shade.ensures((c, r), v) ==> v == pf(c as int, r as int),
    ensures
        pixels == image(width, height, pf),
{
    assert forall|k: int| 0 <= k < pixels.len() implies #[trigger] pixels[k] == image(width, height, pf)[k] by {
        vstd::arithmetic::div_mod::lemma_mod_bound(k, width);
        vstd::arithmetic::div_mod::lemma_div_pos_is_pos(k, width);
        vstd::arithmetic::div_mod::lemma_div_is_ordered(k, width * height, width);
        vstd::arithmetic::div_mod::lemma_div_by_multiple(height, width);
        assert(width * height == height * width) by (nonlinear_arith);
        assert(k / width <= k) by {
            vstd::arithmetic::div_mod::lemma_div_is_ordered_by_denominator(k, 1, width);
        }
        vstd::arithmetic::div_mod::lemma_fundamental_div_mod(k, width);
        assert(k % width <= k) by (nonlinear_arith)
            requires k == width * (k / width) + k % width, k / width >= 0, width > 0;
        let c = (k % width) as usize;
        let r = (k / width) as usize;
        assert(c as int == k % width && r as int == k / width);
        assert(shade.ensures((c, r), pixels[k]));
    }
    assert(pixels =~= image(width, height, pf));
}

/// The bytes of the whole picture that a band covers are the picture of
/// that band alone, drawn with its rows counted from the band's top. So
/// rendering each band of a plan into its own slice, in any order and on
/// any worker, gives the same buffer as rendering the whole at once.
pub proof fn lemma_band_image(
    bands: Seq<Band>,
    width: int,
    height: int,
    threads: int,
    pf: spec_fn(int, int) -> u8,
    i: int,
)
    requires
        width > 0,
        height > 0,
        threads > 0,
        is_plan(bands, width, height, threads),
        0 <= i < bands.len(),
    ensures
        image(width, height, pf).subrange(bands[i].start as int, bands[i].start + bands[i].len)
            == image(width, bands[i].rows as int, shifted(pf, bands[i].top as int)),
{
    crate::bands::lemma_plan_tiles_buffer(bands, width, height, threads);
    let b = bands[i];
    let whole = image(width, height, pf);
    let part = image(width, b.rows as int, shifted(pf, b.top as int));
    assert(b.top + b.rows <= height) by {
        if i < bands.len() - 1 {
            crate::bands::lemma_plan_covers_each_row_once(bands, width, height, threads, b.top as int);
        }
    }
    assert(b.start + b.len <= width * height) by (nonlinear_arith)
        requires b.start == b.top * width, b.len == b.rows * width, b.top + b.rows <= height, width > 0;
    assert(width * b.rows == b.rows * width) by (nonlinear_arith);
    assert(part.len() == b.len);
    assert forall|k: int| 0 <= k < part.len() implies whole[b.start + k] == #[trigger] part[k] by {
        vstd::arithmetic::div_mod::lemma_fundamental_div_mod(k, width);
        vstd::arithmetic::div_mod::lemma_mod_bound(k, width);
        assert(b.start + k == (b.top + k / width) * width + k % width) by (nonlinear_arith)
            requires b.start == b.top * width, k == width * (k / width) + k % width;
        vstd::arithmetic::div_mod::lemma_fundamental_div_mod_converse(
            b.start + k, width, b.top + k / width, k % width);
        assert(0 <= b.start + k < width * height);
    }
    assert(whole.subrange(b.start as int, b.start + b.len) =~= part);
}

/// The first `n` band pictures, joined, are the picture's bytes up to the
/// end of band `n - 1`.
proof fn lemma_band_prefix(
    bands: Seq<Band>,
    width: int,
    height: int,
    threads: int,
    pf: spec_fn(int, int) -> u8,
    parts: Seq<Seq<u8>>,
    n: int,
)
    requires
        width > 0,
        height > 0,
        threads > 0,
        is_plan(bands, width, height, threads),
        parts.len() == bands.len(),
        forall|i: int| 0 <= i < parts.len()
            ==> #[trigger] parts[i] == image(width, bands[i].rows as int, shifted(pf, bands[i].top as int)),
        0 <= n <= parts.len(),
    ensures
        parts.take(n).flatten_alt() == image(width, height, pf).subrange(
            0,
            if n == 0 { 0 } else { bands[n - 1].start + bands[n - 1].len },
        ),
    decreases n,
{
    let whole = image(width, height, pf);
    crate::bands::lemma_plan_tiles_buffer(bands, width, height, threads);
    if n == 0 {
        assert(parts.take(0).flatten_alt() =~= whole.subrange(0, 0));
    } else {
        lemma_band_prefix(bands, width, height, threads, pf, parts, n - 1);
        lemma_band_image(bands, width, height, threads, pf, n - 1);
        let b = bands[n - 1];
        let begin = if n - 1 == 0 { 0 } else { bands[n - 2].start + bands[n - 2].len };
        if n >= 2 {
            assert(bands[(n - 2) + 1].start == bands[n - 2].start + bands[n - 2].len);
        }
        assert(begin == b.start);
        assert(parts.take(n).drop_last() =~= parts.take(n - 1));
        assert(parts.take(n).last() == parts[n - 1]);
        assert(whole.subrange(0, b.start as int) + whole.subrange(b.start as int, b.start + b.len)
            =~= whole.subrange(0, b.start + b.len));
    }
}

/// Rendering every band of a plan on its own, with the pixel rule counted
/// from the band's top row, and joining the band buffers in plan order gives
/// the picture of the whole buffer byte for byte, whatever the number of
/// workers: banded and whole renders agree.
pub proof fn lemma_banded_render_matches_whole(
    bands: Seq<Band>,
    width: int,
    height: int,
    threads: int,
    pf: spec_fn(int, int) -> u8,
    parts: Seq<Seq<u8>>,
)
    requires
        width > 0,
        height > 0,
        threads > 0,
        is_plan(bands, width, height, threads),
        parts.len() == bands.len(),
        forall|i: int| 0 <= i < parts.len()
            ==> #[trigger] parts[i] == image(width, bands[i].rows as int, shifted(pf, bands[i].top as int)),
    ensures
        parts.flatten() == image(width, height, pf),
{
    crate::bands::lemma_plan_tiles_buffer(bands, width, height, threads);
    lemma_band_prefix(bands, width, height, threads, pf, parts, parts.len() as int);
    parts.lemma_flatten_and_flatten_alt_are_equivalent();
    assert(parts.take(parts.len() as int) =~= parts);
    let whole = image(width, height, pf);
    assert(whole.subrange(0, whole.len() as int) =~= whole);
}

/// With a single worker the one band's picture is the whole picture.
pub proof fn lemma_single_worker_matches_whole(
    bands: Seq<Band>,
    width: int,
    height: int,
    pf: spec_fn(int, int) -> u8,
)
    requires
        width > 0,
        height > 0,
        is_plan(bands, width, height, 1),
    ensures
        bands.len() == 1,
        image(width, bands[0].rows as int, shifted(pf, bands[0].top as int)) == image(width, height, pf),
{
    crate::bands::lemma_single_worker_plan(bands, width, height);
    assert(image(width, bands[0].rows as int, shifted(pf, bands[0].top as int)) =~= image(width, height, pf));
}

} // verus!
