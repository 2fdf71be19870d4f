//! Filling a raster of grey levels, one byte for each pixel, row after row.
//!
//! The renderer does not know how a pixel's escape count is found: it is
//! handed a function from a pixel's column and row to that count, and turns
//! each count into a grey level.

use vstd::prelude::*;
use vstd::arithmetic::div_mod::{lemma_fundamental_div_mod, lemma_fundamental_div_mod_converse};
use vstd::arithmetic::mul::lemma_mul_is_commutative;
use crate::band::{
    band_count, band_height, band_holds, band_of, bands, is_band_plan,
    lemma_bands_are_consecutive, lemma_bands_partition, lemma_ceil_div_bounds,
    lemma_spans_tile_the_buffer, Band,
};

verus! {

/// The largest number of steps for which an escape count still fits a byte.
pub const ESCAPE_LIMIT: usize = 255;

/// Why a raster was not rendered.
#[derive(Clone, Copy, Debug, PartialEq, Eq)]
pub enum RenderError {
    /// The raster has no columns.
    ZeroWidth,
    /// The raster has no rows.
    ZeroHeight,
    /// No worker was asked for.
    ZeroWorkers,
    /// The buffer does not hold one byte for each pixel.
    BufferLength,
    /// A worker stopped before its band was done.
    WorkerFailure,
}

/// The grey level of a pixel: black where the point did not escape, else
/// the lighter the sooner it did. Counts wrap around at 256.
pub open spec fn shade_of(escape: Option<usize>) -> u8 {
    match escape {
        None => 0u8,
        Some(count) => (255 - count % 256) as u8,
    }
}

/// The grey level of a pixel with the given escape count. A point that
/// escaped within `ESCAPE_LIMIT` steps is never black.
pub fn shade(escape: Option<usize>) -> (level: u8)
    ensures
        level == shade_of(escape),
        escape matches Some(count) ==> (count <= 255 ==> level == 255 - count),
        escape matches Some(count) ==> (count < ESCAPE_LIMIT ==> level >= 1),
{
    match escape {
        None => 0,
        Some(count) => {
            let low: u8 = (count % 256) as u8;
            255 - low
        },
    }
}

/// The byte at `index` is the grey level of some count that `escape` may
/// give for the pixel stored there, in a raster `width` pixels wide.
pub open spec fn byte_shaded<F: Fn(usize, usize) -> Option<usize>>(
    buffer: Seq<u8>,
    width: usize,
    escape: F,
    index: int,
) -> bool {
    exists|count: Option<usize>|
        escape.ensures(
            ((index % (width as int)) as usize, (index / (width as int)) as usize),
            count,
        ) && buffer[index] == shade_of(count)
}

/// The pixel in column `column` of row `row` holds the grey level of some
/// count that `escape` may give for it.
pub open spec fn pixel_shaded<F: Fn(usize, usize) -> Option<usize>>(
    buffer: Seq<u8>,
    width: usize,
    escape: F,
    column: usize,
    row: usize,
) -> bool {
    exists|count: Option<usize>|
        escape.ensures((column, row), count) && buffer[row * width + column] == shade_of(count)
}

/// The buffer is a finished raster of `bounds.0` columns and `bounds.1` rows.
pub open spec fn is_rendered<F: Fn(usize, usize) -> Option<usize>>(
    buffer: Seq<u8>,
    bounds: (usize, usize),
    escape: F,
) -> bool {
    &&& buffer.len() == bounds.0 * bounds.1
    &&& forall|column: usize, row: usize|
        column < bounds.0 && row < bounds.1 ==> #[trigger] pixel_shaded(
            buffer,
            bounds.0,
            escape,
            column,
            row,
        )
}

/// `escape` may be called on every pixel of the raster.
pub open spec fn covers<F: Fn(usize, usize) -> Option<usize>>(
    escape: F,
    bounds: (usize, usize),
) -> bool {
    forall|column: usize, row: usize|
        column < bounds.0 && row < bounds.1 ==> #[trigger] escape.requires((column, row))
}

/// `escape` gives one count for each pixel, whenever it is asked.
pub open spec fn single_valued<F: Fn(usize, usize) -> Option<usize>>(escape: F) -> bool {
    forall|column: usize, row: usize, a: Option<usize>, b: Option<usize>|
        #[trigger] escape.ensures((column, row), a) && #[trigger] escape.ensures((column, row), b)
            ==> a == b
}

/// A pixel's place in the buffer names its column and row again.
pub proof fn lemma_pixel_index(width: usize, column: usize, row: usize)
    requires
        column < width,
    ensures
        (row * width + column) % (width as int) == column,
        (row * width + column) / (width as int) == row,
        row * width + column < (row + 1) * width,
        row * width + width == (row + 1) * width,
{
    assert(row * width == (row as int) * (width as int));
    assert(row * width + column == (row as int) * (width as int) + column);
    lemma_fundamental_div_mod_converse(
        row * width + column,
        width as int,
        row as int,
        column as int,
    );
    assert(row * width + width == (row + 1) * width) by (nonlinear_arith);
}

/// Fills rows `top` to `top + rows` of a raster `width` pixels wide, and
/// leaves every other byte of the buffer as it was.
fn fill_rows<F: Fn(usize, usize) -> Option<usize>>(
    pixels: &mut [u8],
    width: usize,
    top: usize,
    rows: usize,
    escape: &F,
)
    requires
        width > 0,
        (top + rows) * width <= old(pixels)@.len(),
        forall|column: usize, row: usize|
            column < width && top <= row < top + rows ==> #[trigger] escape.requires(
                (column, row),
            ),
    ensures
        final(pixels)@.len() == old(pixels)@.len(),
        forall|i: int|
            0 <= i < top * width || (top + rows) * width <= i < old(pixels)@.len()
                ==> final(pixels)@[i] == old(pixels)@[i],
        forall|i: int|
            top * width <= i < (top + rows) * width ==> #[trigger] byte_shaded(
                final(pixels)@,
                width,
                *escape,
                i,
            ),
{
    let len: usize = pixels.len();
    proof {
        assert(top + rows <= (top + rows) * width) by (nonlinear_arith)
            requires
                width > 0,
        ;
    }
    let end: usize = top + rows;
    let mut row: usize = top;
    while row < end
        invariant
            width > 0,
            end == top + rows,
            top <= row <= end,
            end * width <= pixels@.len(),
            pixels@.len() == old(pixels)@.len(),
            pixels@.len() == len,
            forall|column: usize, r: usize|
                column < width && top <= r < end ==> #[trigger] escape.requires((column, r)),
            forall|i: int|
                0 <= i < top * width || end * width <= i < pixels@.len()
                    ==> pixels@[i] == old(pixels)@[i],
            forall|i: int|
                top * width <= i < row * width ==> #[trigger] byte_shaded(
                    pixels@,
                    width,
                    *escape,
                    i,
                ),
        decreases end - row,
    {
        proof {
            assert((row + 1) * width <= end * width) by (nonlinear_arith)
                requires
                    row < end,
            ;
            assert(top * width <= row * width) by (nonlinear_arith)
                requires
                    top <= row,
            ;
            assert((row + 1) * width == row * width + width) by (nonlinear_arith);
        }
        let start: usize = row * width;
        let mut column: usize = 0;
        while column < width
            invariant
                width > 0,
                end == top + rows,
                top <= row < end,
                column <= width,
                start == row * width,
                top * width <= start,
                start + width <= end * width,
                end * width <= pixels@.len(),
                pixels@.len() == old(pixels)@.len(),
                pixels@.len() == len,
                forall|c: usize, r: usize|
                    c < width && top <= r < end ==> #[trigger] escape.requires((c, r)),
                forall|i: int|
                    0 <= i < top * width || end * width <= i < pixels@.len()
                        ==> pixels@[i] == old(pixels)@[i],
                forall|i: int|
                    top * width <= i < start + column ==> #[trigger] byte_shaded(
                        pixels@,
                        width,
                        *escape,
                        i,
                    ),
            decreases width - column,
        {
            let count = escape(column, row);
            let index: usize = start + column;
            let ghost before = pixels@;
            pixels[index] = shade(count);
            proof {
                lemma_pixel_index(width, column, row);
                assert(byte_shaded(pixels@, width, *escape, index as int));
                assert forall|i: int|
                    top * width <= i < start + column + 1 implies #[trigger] byte_shaded(
                    pixels@,
                    width,
                    *escape,
                    i,
                ) by {
                    if i < index {
                        assert(byte_shaded(before, width, *escape, i));
                        assert(pixels@[i] == before[i]);
                    }
                }
            }
            column = column + 1;
        }
        row = row + 1;
    }
}

/// What stands in the way of rendering into a buffer of `len` bytes, if
/// anything: the first of these that holds.
pub open spec fn render_fault(len: nat, bounds: (usize, usize), workers: usize) -> Option<
    RenderError,
> {
    if bounds.0 == 0 {
        Some(RenderError::ZeroWidth)
    } else if bounds.1 == 0 {
        Some(RenderError::ZeroHeight)
    } else if workers == 0 {
        Some(RenderError::ZeroWorkers)
    } else if len != bounds.0 * bounds.1 {
        Some(RenderError::BufferLength)
    } else {
        None
    }
}

/// Every band of `plan` lies within a buffer of `len` bytes that holds rows
/// of `width` pixels.
pub open spec fn plan_fits(plan: Seq<Band>, width: nat, len: nat) -> bool {
    forall|i: int|
        0 <= i < plan.len() ==> ((#[trigger] plan[i]).top + plan[i].rows) * width <= len
}

/// Checks what a render is asked to do, and cuts the raster into bands.
///
/// Fails, before anything is cut, where the raster has no columns or no
/// rows, where no worker is asked for, or where `len` is not the number of
/// pixels.
pub fn plan_render(len: usize, bounds: (usize, usize), workers: usize) -> (res: Result<
    Vec<Band>,
    RenderError,
>)
    ensures
        match render_fault(len as nat, bounds, workers) {
            Some(fault) => res == Err::<Vec<Band>, RenderError>(fault),
            None => res matches Ok(plan) && is_band_plan(
                plan@,
                bounds.1 as nat,
                workers as nat,
            ) && 1 <= plan@.len() <= workers && plan_fits(plan@, bounds.0 as nat, len as nat),
        },
{
    if bounds.0 == 0 {
        return Err(RenderError::ZeroWidth);
    }
    if bounds.1 == 0 {
        return Err(RenderError::ZeroHeight);
    }
    if workers == 0 {
        return Err(RenderError::ZeroWorkers);
    }
    match bounds.0.checked_mul(bounds.1) {
        Some(area) if area == len => {
            let plan = bands(bounds.1, workers);
            proof {
                let height = bounds.1 as nat;
                let crew = workers as nat;
                lemma_mul_is_commutative(bounds.0 as int, bounds.1 as int);
                lemma_ceil_div_bounds(height, crew);
                lemma_ceil_div_bounds(height, band_height(height, crew));
                assert forall|i: int| 0 <= i < plan@.len() implies ((#[trigger] plan@[i]).top
                    + plan@[i].rows) * bounds.0 <= len by {
                    lemma_spans_tile_the_buffer(height, crew, bounds.0 as nat, i as nat);
                }
            }
            Ok(plan)
        },
        _ => Err(RenderError::BufferLength),
    }
}

/// Fills one band: a buffer that holds `bounds.1` rows of `bounds.0` pixels
/// and nothing else. `escape` is asked for each pixel by its column and its
/// row within the band.
pub fn render_band<F: Fn(usize, usize) -> Option<usize>>(
    pixels: &mut [u8],
    bounds: (usize, usize),
    escape: F,
)
    requires
        old(pixels)@.len() == bounds.0 * bounds.1,
        covers(escape, bounds),
    ensures
        is_rendered(final(pixels)@, bounds, escape),
{
    if bounds.0 > 0 {
        proof {
            lemma_mul_is_commutative(bounds.0 as int, bounds.1 as int);
        }
        fill_rows(pixels, bounds.0, 0, bounds.1, &escape);
        proof {
            lemma_bytes_to_pixels(pixels@, bounds, escape);
        }
    }
}

/// A buffer whose every byte is shaded is a finished raster.
pub proof fn lemma_bytes_to_pixels<F: Fn(usize, usize) -> Option<usize>>(
    buffer: Seq<u8>,
    bounds: (usize, usize),
    escape: F,
)
    requires
        bounds.0 > 0,
        buffer.len() == bounds.0 * bounds.1,
        forall|i: int|
            0 <= i < bounds.1 * bounds.0 ==> #[trigger] byte_shaded(buffer, bounds.0, escape, i),
    ensures
        is_rendered(buffer, bounds, escape),
{
    assert forall|column: usize, row: usize|
        column < bounds.0 && row < bounds.1 implies #[trigger] pixel_shaded(
        buffer,
        bounds.0,
        escape,
        column,
        row,
    ) by {
        lemma_pixel_index(bounds.0, column, row);
        let i = row * bounds.0 + column;
        assert((row + 1) * bounds.0 <= bounds.1 * bounds.0) by (nonlinear_arith)
            requires
                row < bounds.1,
        ;
        assert(byte_shaded(buffer, bounds.0, escape, i));
    }
}

/// Every worker brought its band to an end.
pub open spec fn all_finished(finished: Seq<bool>) -> bool {
    forall|i: int| 0 <= i < finished.len() ==> finished[i]
}

/// The outcome of a render whose bands were handed out to workers, once
/// each of them has been waited for: `finished` tells of each worker whether
/// it brought its band to an end. One that did not fails the whole render.
pub fn join_workers(finished: &[bool]) -> (res: Result<(), RenderError>)
    ensures
        all_finished(finished@) ==> res is Ok,
        !all_finished(finished@) ==> res == Err::<(), RenderError>(RenderError::WorkerFailure),
{
    let mut i: usize = 0;
    while i < finished.len()
        invariant
            i <= finished@.len(),
            forall|k: int| 0 <= k < i ==> finished@[k],
        decreases finished@.len() - i,
    {
        if !finished[i] {
            return Err(RenderError::WorkerFailure);
        }
        i = i + 1;
    }
    Ok(())
}

/// A band that was rendered on its own has its place in the whole raster.
///
/// `buffer` holds the raster, and its rows from `band.top` on, taken alone,
/// are a finished raster of `band.rows` rows for `local`. Where `local`, asked
/// for a row of the band, gives what `whole` gives for that row of the raster,
/// every pixel of the band is shaded in the raster too.
pub proof fn lemma_band_in_place<
    F: Fn(usize, usize) -> Option<usize>,
    G: Fn(usize, usize) -> Option<usize>,
>(buffer: Seq<u8>, width: usize, band: Band, whole: F, local: G)
    requires
        (band.top + band.rows) * width <= buffer.len(),
        band.top + band.rows <= usize::MAX,
        is_rendered(
            buffer.subrange(band.top * width, (band.top + band.rows) * width),
            (width, band.rows),
            local,
        ),
        forall|column: usize, row: usize, count: Option<usize>|
            column < width && row < band.rows && #[trigger] local.ensures((column, row), count)
                ==> whole.ensures((column, (band.top + row) as usize), count),
    ensures
        forall|column: usize, row: usize|
            column < width && band.top <= row < band.top + band.rows ==> #[trigger] pixel_shaded(
                buffer,
                width,
                whole,
                column,
                row,
            ),
{
    let from = band.top * width;
    let part = buffer.subrange(from, (band.top + band.rows) * width);
    assert forall|column: usize, row: usize|
        column < width && band.top <= row < band.top + band.rows implies #[trigger] pixel_shaded(
        buffer,
        width,
        whole,
        column,
        row,
    ) by {
        let inner = (row - band.top) as usize;
        assert(pixel_shaded(part, width, local, column, inner));
        let count = choose|count: Option<usize>|
            local.ensures((column, inner), count) && part[inner * width + column] == shade_of(
                count,
            );
        assert(row * width + column == from + (inner * width + column)) by (nonlinear_arith)
            requires
                row == band.top + inner,
                from == band.top * width,
        ;
        assert(0 <= inner * width + column < band.rows * width) by (nonlinear_arith)
            requires
                inner < band.rows,
                column < width,
        ;
        assert((band.top + band.rows) * width == from + band.rows * width) by (nonlinear_arith)
            requires
                from == band.top * width,
        ;
        assert(part[inner * width + column] == buffer[row * width + column]);
        assert(whole.ensures((column, row), count));
    }
}

/// A raster whose every band is shaded is finished.
pub proof fn lemma_bands_make_the_raster<F: Fn(usize, usize) -> Option<usize>>(
    buffer: Seq<u8>,
    bounds: (usize, usize),
    workers: usize,
    escape: F,
)
    requires
        workers >= 1,
        buffer.len() == bounds.0 * bounds.1,
        forall|i: nat, column: usize, row: usize|
            i < band_count(bounds.1 as nat, workers as nat) && column < bounds.0
                && #[trigger] band_holds(bounds.1 as nat, workers as nat, i, row as nat)
                ==> #[trigger] pixel_shaded(buffer, bounds.0, escape, column, row),
    ensures
        is_rendered(buffer, bounds, escape),
{
    lemma_bands_partition(bounds.1 as nat, workers as nat);
    assert forall|column: usize, row: usize|
        column < bounds.0 && row < bounds.1 implies #[trigger] pixel_shaded(
        buffer,
        bounds.0,
        escape,
        column,
        row,
    ) by {
        let i = band_of(bounds.1 as nat, workers as nat, row as nat);
        assert(band_holds(bounds.1 as nat, workers as nat, i, row as nat));
    }
}

/// A finished raster is fixed by its bounds and by what `escape` gives:
/// where `escape` gives one count for each pixel, two finished rasters are
/// equal byte for byte. So the number of workers that a raster was cut for
/// leaves no trace in it.
pub proof fn lemma_rendering_is_unique<F: Fn(usize, usize) -> Option<usize>>(
    first: Seq<u8>,
    second: Seq<u8>,
    bounds: (usize, usize),
    escape: F,
)
    requires
        is_rendered(first, bounds, escape),
        is_rendered(second, bounds, escape),
        single_valued(escape),
    ensures
        first == second,
{
    assert forall|i: int| 0 <= i < first.len() implies first[i] == second[i] by {
        let width = bounds.0 as int;
        assert(width > 0) by (nonlinear_arith)
            requires
                0 <= i < width * bounds.1,
                width >= 0,
        ;
        let q = i / width;
        let r = i % width;
        lemma_fundamental_div_mod(i, width);
        assert(0 <= q < bounds.1) by (nonlinear_arith)
            requires
                i == width * q + r,
                0 <= i < width * bounds.1,
                0 <= r < width,
        ;
        let column = r as usize;
        let row = q as usize;
        assert(row * bounds.0 + column == i) by (nonlinear_arith)
            requires
                i == width * q + r,
                width == bounds.0,
                row == q,
                column == r,
        ;
        assert(pixel_shaded(first, bounds.0, escape, column, row));
        assert(pixel_shaded(second, bounds.0, escape, column, row));
    }
    assert(first =~= second);
}

/// Renders a whole raster, band after band.
///
/// The raster is cut into bands for `workers` workers and each band is
/// filled in turn; `escape` is asked for each pixel by its column and its row
/// in the raster. Where the request is at fault nothing is written.
pub fn render<F: Fn(usize, usize) -> Option<usize>>(
    pixels: &mut [u8],
    bounds: (usize, usize),
    workers: usize,
    escape: F,
) -> (res: Result<(), RenderError>)
    requires
        covers(escape, bounds),
    ensures
        match render_fault(old(pixels)@.len(), bounds, workers) {
            Some(fault) => res == Err::<(), RenderError>(fault) && final(pixels)@ == old(pixels)@,
            None => res is Ok && is_rendered(final(pixels)@, bounds, escape),
        },
{
    let plan = match plan_render(pixels.len(), bounds, workers) {
        Ok(plan) => plan,
        Err(fault) => {
            return Err(fault);
        },
    };
    let width: usize = bounds.0;
    let ghost height = bounds.1 as nat;
    let ghost crew = workers as nat;
    let mut done: usize = 0;
    let mut i: usize = 0;
    proof {
        lemma_mul_is_commutative(bounds.0 as int, bounds.1 as int);
        lemma_ceil_div_bounds(height, crew);
        lemma_ceil_div_bounds(height, band_height(height, crew));
    }
    while i < plan.len()
        invariant
            width == bounds.0,
            width > 0,
            height == bounds.1,
            crew == workers,
            crew >= 1,
            is_band_plan(plan@, height, crew),
            covers(escape, bounds),
            pixels@.len() == height * width,
            i <= plan@.len(),
            done <= height,
            i < plan@.len() ==> done == plan@[i as int].top,
            i == plan@.len() ==> done == height,
            forall|k: int|
                0 <= k < done * width ==> #[trigger] byte_shaded(pixels@, width, escape, k),
        decreases plan@.len() - i,
    {
        let band = plan[i];
        let ghost before = pixels@;
        proof {
            lemma_bands_are_consecutive(height, crew, i as nat);
            assert((band.top + band.rows) * width <= height * width) by (nonlinear_arith)
                requires
                    band.top + band.rows <= height,
            ;
        }
        fill_rows(pixels, width, band.top, band.rows, &escape);
        proof {
            assert forall|k: int|
                0 <= k < (band.top + band.rows) * width implies #[trigger] byte_shaded(
                pixels@,
                width,
                escape,
                k,
            ) by {
                if k < band.top * width {
                    assert(byte_shaded(before, width, escape, k));
                    assert(pixels@[k] == before[k]);
                }
            }
        }
        done = band.top + band.rows;
        i = i + 1;
    }
    proof {
        lemma_bytes_to_pixels(pixels@, bounds, escape);
    }
    Ok(())
}

} // verus!
