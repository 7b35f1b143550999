use vstd::prelude::*;

verus! {

/// Why a render request was turned down before any work started.
#[derive(Clone, Copy, Debug, PartialEq, Eq, Structural)]
pub enum RenderError {
    /// Zero width, zero height or zero workers.
    InvalidArgument,
}

/// A contiguous run of rows of the pixel buffer, handed to one worker.
#[derive(Clone, Copy, Debug, PartialEq, Eq, Structural)]
pub struct Band {
    /// Position of the band in top-to-bottom order.
    pub index: usize,
    /// First row of the band.
    pub top: usize,
    /// Number of rows in the band.
    pub rows: usize,
    /// Offset of the band's first byte in the row-major buffer.
    pub start: usize,
    /// Number of bytes in the band.
    pub len: usize,
}

/// Rows in every band but possibly the last one.
pub open spec fn spec_rows_per_band(height: int, threads: int) -> int {
    height / threads + 1
}

/// Number of bands needed to cover `height` rows, `rpb` rows at a time.
pub open spec fn spec_band_count(height: int, rpb: int) -> int {
    (height + rpb - 1) / rpb
}

/// Whether `b` is the `i`-th band of a `width` by `height` buffer cut
/// every `rpb` rows.
pub open spec fn is_band(b: Band, width: int, height: int, rpb: int, i: int) -> bool {
    let top = i * rpb;
    let rows = if height - top < rpb { height - top } else { rpb };
    &&& b.index == i
    &&& b.top == top
    &&& b.rows == rows
    &&& b.start == top * width
    &&& b.len == rows * width
}

/// Band `i` starts inside the buffer exactly when `i` is below the band count.
pub proof fn lemma_band_count(height: int, rpb: int, i: int)
    requires
        height >= 0,
        rpb >= 1,
        i >= 0,
    ensures
        i * rpb < height <==> i < spec_band_count(height, rpb),
{
    let c = spec_band_count(height, rpb);
    vstd::arithmetic::div_mod::lemma_fundamental_div_mod(height + rpb - 1, rpb);
    let m = (height + rpb - 1) % rpb;
    assert(0 <= m < rpb) by {
        vstd::arithmetic::div_mod::lemma_mod_bound(height + rpb - 1, rpb);
    }
    if i < c {
        assert(i * rpb < height) by (nonlinear_arith)
            requires i + 1 <= c, height + rpb - 1 == rpb * c + m, m >= 0, rpb >= 1;
    } else {
        assert(i * rpb >= height) by (nonlinear_arith)
            requires i >= c, height + rpb - 1 == rpb * c + m, m < rpb, rpb >= 1;
    }
}

/// Whether `bands` is the full band list of a `width` by `height` buffer
/// shared among `threads` workers.
pub open spec fn is_plan(bands: Seq<Band>, width: int, height: int, threads: int) -> bool {
    let rpb = spec_rows_per_band(height, threads);
    &&& bands.len() == spec_band_count(height, rpb)
    &&& forall|i: int| 0 <= i < bands.len() ==> is_band(#[trigger] bands[i], width, height, rpb, i)
}

/// Whether a request with these dimensions and worker count can be served.
pub open spec fn valid_request(bounds: (usize, usize), threads: usize) -> bool {
    bounds.0 > 0 && bounds.1 > 0 && threads > 0
}

/// Rejects degenerate geometry and a worker count of zero.
pub fn check_request(bounds: (usize, usize), threads: usize) -> (r: Result<(), RenderError>)
    ensures
        r.is_ok() <==> valid_request(bounds, threads),
        r.is_err() ==> r == Err::<(), RenderError>(RenderError::InvalidArgument),
{
    if bounds.0 == 0 || bounds.1 == 0 || threads == 0 {
        Err(RenderError::InvalidArgument)
    } else {
        Ok(())
    }
}

/// Rows per band when `height` rows are shared among `threads` workers.
pub fn rows_per_band(height: usize, threads: usize) -> (r: usize)
    requires
        threads > 0,
        height < usize::MAX,
    ensures
        r == spec_rows_per_band(height as int, threads as int),
{
    height / threads + 1
}

/// Cuts a `width` by `height` buffer into consecutive row bands, one band
/// per `height / threads + 1` rows; the last band takes what is left.
pub fn band_plan(bounds: (usize, usize), threads: usize) -> (r: Result<Vec<Band>, RenderError>)
    requires
        bounds.0 * bounds.1 <= isize::MAX,
    ensures
        r.is_err() <==> !valid_request(bounds, threads),
        r.is_err() ==> r == Err::<Vec<Band>, RenderError>(RenderError::InvalidArgument),
        r matches Ok(v) ==> is_plan(v@, bounds.0 as int, bounds.1 as int, threads as int),
{
    check_request(bounds, threads)?;
    let (width, height) = bounds;
    assert(height <= width * height) by (nonlinear_arith)
        requires width > 0, height > 0;
    let rpb = rows_per_band(height, threads);
    let ghost count = spec_band_count(height as int, rpb as int);
    let mut bands: Vec<Band> = Vec::new();
    let mut top: usize = 0;
    let mut index: usize = 0;
    while top < height
        invariant
            width > 0,
            height > 0,
            width * height <= isize::MAX,
            rpb == spec_rows_per_band(height as int, threads as int),
            rpb >= 1,
            count == spec_band_count(height as int, rpb as int),
            top == if index * rpb < height { index * rpb } else { height as int },
            index <= count,
            bands.len() == index,
            forall|i: int| 0 <= i < index ==> is_band(#[trigger] bands@[i], width as int, height as int, rpb as int, i),
        decreases height - top,
    {
        proof {
            lemma_band_count(height as int, rpb as int, index as int);
            assert(index <= index * rpb) by (nonlinear_arith)
                requires rpb >= 1, index >= 0;
            assert((index + 1) * rpb == index * rpb + rpb) by (nonlinear_arith);
        }
        let rows: usize = if height - top < rpb { height - top } else { rpb };
        proof {
            assert(top * width <= width * height) by (nonlinear_arith)
                requires top < height, width > 0;
            assert(rows * width <= width * height) by (nonlinear_arith)
                requires rows <= height, width > 0;
        }
        bands.push(Band { index, top, rows, start: top * width, len: rows * width });
        proof {
            assert(is_band(bands@[index as int], width as int, height as int, rpb as int, index as int));
        }
        top = top + rows;
        index = index + 1;
    }
    proof {
        lemma_band_count(height as int, rpb as int, index as int);
    }
    Ok(bands)
}

/// Cuts the buffer into one writable slice per band of `bands`, in order,
/// so that each band can go to its own worker.
pub fn split_bands<'a>(pixels: &'a mut [u8], bands: &Vec<Band>, bounds: (usize, usize), threads: usize)
    -> (r: Vec<&'a mut [u8]>)
    requires
        valid_request(bounds, threads),
        old(pixels)@.len() == bounds.0 * bounds.1,
        is_plan(bands@, bounds.0 as int, bounds.1 as int, threads as int),
    ensures
        r.len() == bands.len(),
        forall|i: int| #![trigger r@[i]] 0 <= i < r.len() ==> r@[i]@
            == old(pixels)@.subrange(bands[i].start as int, bands[i].start + bands[i].len),
{
    proof {
        lemma_plan_tiles_buffer(bands@, bounds.0 as int, bounds.1 as int, threads as int);
    }
    let ghost all = pixels@;
    let mut rest: &'a mut [u8] = pixels;
    let mut out: Vec<&'a mut [u8]> = Vec::new();
    let mut i: usize = 0;
    while i < bands.len()
        invariant
            i <= bands.len(),
            out.len() == i,
            all.len() == bounds.0 * bounds.1,
            bands@.len() >= 1,
            bands@[0].start == 0,
            forall|j: int| 0 <= j < bands.len() - 1 ==> #[trigger] bands@[j + 1].start == bands@[j].start + bands@[j].len,
            bands@.last().start + bands@.last().len == all.len(),
            forall|j: int| 0 <= j < bands.len() ==> #[trigger] bands@[j].start + bands@[j].len <= all.len(),
            i < bands.len() ==> rest@ == all.subrange(bands@[i as int].start as int, all.len() as int),
            forall|j: int| #![trigger out@[j]] 0 <= j < i ==> out@[j]@
                == all.subrange(bands@[j].start as int, bands@[j].start + bands@[j].len),
        decreases bands.len() - i,
    {
        let len = bands[i].len;
        let whole = rest;
        let (head, tail) = whole.split_at_mut(len);
        out.push(head);
        rest = tail;
        i = i + 1;
    }
    out
}

/// Whether row `r` lies in `band`.
pub open spec fn band_holds_row(band: Band, r: int) -> bool {
    band.top <= r < band.top + band.rows
}

/// Every row of the buffer lies in exactly one band of the plan, whether or
/// not `threads` divides `height` and however many workers there are.
pub proof fn lemma_plan_covers_each_row_once(bands: Seq<Band>, width: int, height: int, threads: int, r: int)
    requires
        width > 0,
        height > 0,
        threads > 0,
        is_plan(bands, width, height, threads),
        0 <= r < height,
    ensures
        0 <= r / spec_rows_per_band(height, threads) < bands.len(),
        band_holds_row(bands[r / spec_rows_per_band(height, threads)], r),
        forall|j: int| 0 <= j < bands.len() && #[trigger] band_holds_row(bands[j], r)
            ==> j == r / spec_rows_per_band(height, threads),
{
    let rpb = spec_rows_per_band(height, threads);
    let i = r / rpb;
    vstd::arithmetic::div_mod::lemma_fundamental_div_mod(r, rpb);
    vstd::arithmetic::div_mod::lemma_mod_bound(r, rpb);
    assert(i >= 0) by {
        vstd::arithmetic::div_mod::lemma_div_pos_is_pos(r, rpb);
    }
    assert(i * rpb <= r) by (nonlinear_arith)
        requires r == rpb * i + r % rpb, r % rpb >= 0;
    lemma_band_count(height, rpb, i);
    assert(r < i * rpb + rpb) by (nonlinear_arith)
        requires r == rpb * i + r % rpb, r % rpb < rpb;
    assert forall|j: int| 0 <= j < bands.len() && #[trigger] band_holds_row(bands[j], r) implies j == i by {
        lemma_band_count(height, rpb, j);
        if j < i {
            assert(j * rpb + rpb <= i * rpb) by (nonlinear_arith)
                requires j < i, rpb >= 1;
        } else if j > i {
            assert(i * rpb + rpb <= j * rpb) by (nonlinear_arith)
                requires j > i, rpb >= 1;
        }
    }
}

/// The bands tile the buffer's bytes in order: the first starts at zero,
/// each starts where the one before it ends, the last ends at the buffer's
/// length, and none is empty.
pub proof fn lemma_plan_tiles_buffer(bands: Seq<Band>, width: int, height: int, threads: int)
    requires
        width > 0,
        height > 0,
        threads > 0,
        is_plan(bands, width, height, threads),
    ensures
        bands.len() >= 1,
        bands[0].start == 0,
        forall|i: int| 0 <= i < bands.len() ==> #[trigger] bands[i].rows >= 1 && bands[i].len == bands[i].rows * width
            && bands[i].start == bands[i].top * width && bands[i].index == i
            && bands[i].top + bands[i].rows <= height && bands[i].start + bands[i].len <= width * height,
        forall|i: int| 0 <= i < bands.len() - 1 ==> #[trigger] bands[i + 1].top == bands[i].top + bands[i].rows,
        forall|i: int| 0 <= i < bands.len() - 1 ==> #[trigger] bands[i + 1].start == bands[i].start + bands[i].len,
        bands.last().top + bands.last().rows == height,
        bands.last().start + bands.last().len == width * height,
{
    let rpb = spec_rows_per_band(height, threads);
    let n = bands.len() as int;
    lemma_band_count(height, rpb, 0);
    assert forall|i: int| 0 <= i < n implies #[trigger] bands[i].rows >= 1 && bands[i].len == bands[i].rows * width
        && bands[i].start == bands[i].top * width && bands[i].index == i
        && bands[i].top + bands[i].rows <= height && bands[i].start + bands[i].len <= width * height by {
        lemma_band_count(height, rpb, i);
        let b = bands[i];
        assert(b.start + b.len <= width * height) by (nonlinear_arith)
            requires b.start == b.top * width, b.len == b.rows * width, b.top + b.rows <= height, width > 0;
        assert(i * rpb * width <= width * height) by (nonlinear_arith)
            requires i * rpb < height, width > 0;
        assert(height * width <= width * height) by (nonlinear_arith);
        assert(rpb * width <= width * height + width) by (nonlinear_arith)
            requires rpb <= height + 1, width > 0;
    }
    assert forall|i: int| 0 <= i < n - 1 implies #[trigger] bands[i + 1].top == bands[i].top + bands[i].rows by {
        lemma_band_count(height, rpb, i + 1);
        assert((i + 1) * rpb == i * rpb + rpb) by (nonlinear_arith);
    }
    assert forall|i: int| 0 <= i < n - 1 implies #[trigger] bands[i + 1].start == bands[i].start + bands[i].len by {
        lemma_band_count(height, rpb, i + 1);
        assert((i + 1) * rpb == i * rpb + rpb) by (nonlinear_arith);
        assert((i * rpb + rpb) * width == i * rpb * width + rpb * width) by (nonlinear_arith);
    }
    lemma_band_count(height, rpb, n - 1);
    lemma_band_count(height, rpb, n);
    assert((n - 1) * rpb + rpb == n * rpb) by (nonlinear_arith);
    assert(((n - 1) * rpb + (height - (n - 1) * rpb)) * width == (n - 1) * rpb * width + (height - (n - 1) * rpb) * width)
        by (nonlinear_arith);
}

/// There are never more bands than workers.
pub proof fn lemma_plan_fits_workers(bands: Seq<Band>, width: int, height: int, threads: int)
    requires
        width > 0,
        height > 0,
        threads > 0,
        is_plan(bands, width, height, threads),
    ensures
        bands.len() <= threads,
{
    let rpb = spec_rows_per_band(height, threads);
    vstd::arithmetic::div_mod::lemma_fundamental_div_mod(height, threads);
    vstd::arithmetic::div_mod::lemma_mod_bound(height, threads);
    assert(threads * rpb > height) by (nonlinear_arith)
        requires height == threads * (height / threads) + height % threads, height % threads < threads,
            rpb == height / threads + 1;
    lemma_band_count(height, rpb, threads);
}

/// With a single worker the plan is one band that holds the whole buffer.
pub proof fn lemma_single_worker_plan(bands: Seq<Band>, width: int, height: int)
    requires
        width > 0,
        height > 0,
        is_plan(bands, width, height, 1),
    ensures
        bands.len() == 1,
        bands[0].top == 0,
        bands[0].rows == height,
        bands[0].start == 0,
        bands[0].len == width * height,
{
    lemma_plan_fits_workers(bands, width, height, 1);
    lemma_plan_tiles_buffer(bands, width, height, 1);
}

} // verus!
