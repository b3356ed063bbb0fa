//! Font-grid extraction: partitions a spritesheet raster into an ordered,
//! flat sequence of glyph cells.  The sheet is walked row-major in strides
//! of `tile_size - border`, stripping `border` pixels from each tile edge so
//! only the inner `char_width × char_height` content remains; any partial
//! tile at the right or bottom edge is truncated, not padded.  Cell index is
//! the byte value the cell stands for.

use vstd::prelude::*;

use crate::raster::{Raster, Rgb};

verus! {

pub open spec fn min2(a: int, b: int) -> int {
    if a <= b {
        a
    } else {
        b
    }
}

/// How many strides of length `stride` start inside `[start, end)`.
pub open spec fn grid_steps(start: int, end: int, stride: int) -> int {
    if start >= end || stride <= 0 {
        0
    } else {
        (end - start - 1) / stride + 1
    }
}

/// Number of tile columns the walk visits on `sheet`.
pub open spec fn sheet_cols(sheet: Raster, rect_width: int, border: int) -> int {
    grid_steps(border, sheet.width - 1 - border, rect_width - border)
}

/// Number of tile rows the walk visits on `sheet`.
pub open spec fn sheet_rows(sheet: Raster, rect_height: int, border: int) -> int {
    grid_steps(border, sheet.height - 1 - border, rect_height - border)
}

/// The pixels of the `nrows × ncols` rectangle of `sheet` whose top-left
/// corner is `(x0, y0)`, row-major.
pub open spec fn cell_rect(sheet: Raster, x0: int, y0: int, ncols: int, nrows: int) -> Seq<Rgb> {
    Seq::new(
        (nrows * ncols) as nat,
        |k: int| sheet.pixels@[(y0 + k / ncols) * sheet.width as int + (x0 + k % ncols)],
    )
}

/// The (possibly edge-truncated) glyph cell at tile row `r`, tile column `c`.
pub open spec fn cell_pixels(
    sheet: Raster,
    rect_width: int,
    rect_height: int,
    border: int,
    r: int,
    c: int,
) -> Seq<Rgb> {
    let x0 = border + c * (rect_width - border);
    let y0 = border + r * (rect_height - border);
    let ncols = min2(rect_width - 2 * border, sheet.width as int - border - x0);
    let nrows = min2(rect_height - 2 * border, sheet.height as int - border - y0);
    cell_rect(sheet, x0, y0, ncols, nrows)
}

/// The cells of tile row `r` from tile column `c` on, concatenated.
pub open spec fn row_cells_from(
    sheet: Raster,
    rect_width: int,
    rect_height: int,
    border: int,
    r: int,
    c: int,
) -> Seq<Rgb>
    decreases sheet_cols(sheet, rect_width, border) - c,
{
    if c >= sheet_cols(sheet, rect_width, border) {
        Seq::empty()
    } else {
        cell_pixels(sheet, rect_width, rect_height, border, r, c) + row_cells_from(
            sheet,
            rect_width,
            rect_height,
            border,
            r,
            c + 1,
        )
    }
}

/// The tile rows of the sheet from row `r` on, concatenated.
pub open spec fn grid_rows_from(
    sheet: Raster,
    rect_width: int,
    rect_height: int,
    border: int,
    r: int,
) -> Seq<Rgb>
    decreases sheet_rows(sheet, rect_height, border) - r,
{
    if r >= sheet_rows(sheet, rect_height, border) {
        Seq::empty()
    } else {
        row_cells_from(sheet, rect_width, rect_height, border, r, 0) + grid_rows_from(
            sheet,
            rect_width,
            rect_height,
            border,
            r + 1,
        )
    }
}

/// The whole font grid read off `sheet`: every glyph cell, row-major over
/// the tiles, each cell's pixels row-major, one flat sequence.
pub open spec fn image_grid_spec(
    sheet: Raster,
    rect_width: int,
    rect_height: int,
    border: int,
) -> Seq<Rgb> {
    grid_rows_from(sheet, rect_width, rect_height, border, 0)
}

/// `start + r * stride` stays below `end` exactly for the first
/// `grid_steps(start, end, stride)` values of `r`.
proof fn lemma_steps_iff(start: int, end: int, stride: int, r: int)
    requires
        stride > 0,
        r >= 0,
    ensures
        (start + r * stride < end) <==> (r < grid_steps(start, end, stride)),
{
    if start >= end {
        assert(r * stride >= 0) by (nonlinear_arith)
            requires
                r >= 0 && stride > 0,
        ;
    } else {
        let n = end - start - 1;
        let q = n / stride;
        vstd::arithmetic::div_mod::lemma_fundamental_div_mod(n, stride);
        let rem = n % stride;
        assert(n == stride * q + rem);
        if r <= q {
            assert(r * stride <= stride * q) by (nonlinear_arith)
                requires
                    r <= q && stride > 0,
            ;
        } else {
            assert(r * stride >= stride * q + stride) by (nonlinear_arith)
                requires
                    r >= q + 1 && stride > 0,
            ;
        }
    }
}

/// Appends to `out` the pixels of the `nrows × ncols` rectangle of `sheet`
/// at `(x0, y0)`, row-major.
fn copy_rect(sheet: &Raster, x0: u32, y0: u32, ncols: u32, nrows: u32, out: &mut Vec<Rgb>)
    requires
        sheet.wf(),
        ncols >= 1,
        x0 + ncols <= sheet.width,
        y0 + nrows <= sheet.height,
    ensures
        final(out)@ == old(out)@ + cell_rect(
            *sheet,
            x0 as int,
            y0 as int,
            ncols as int,
            nrows as int,
        ),
{
    let ghost cell = cell_rect(*sheet, x0 as int, y0 as int, ncols as int, nrows as int);
    let mut jj: u32 = 0;
    while jj < nrows
        invariant
            sheet.wf(),
            ncols >= 1,
            x0 + ncols <= sheet.width,
            y0 + nrows <= sheet.height,
            jj <= nrows,
            cell == cell_rect(*sheet, x0 as int, y0 as int, ncols as int, nrows as int),
            out@ == old(out)@ + cell.subrange(0, jj as int * ncols as int),
        decreases nrows - jj,
    {
        let mut ii: u32 = 0;
        while ii < ncols
            invariant
                sheet.wf(),
                ncols >= 1,
                x0 + ncols <= sheet.width,
                y0 + nrows <= sheet.height,
                jj < nrows,
                ii <= ncols,
                cell == cell_rect(*sheet, x0 as int, y0 as int, ncols as int, nrows as int),
                out@ == old(out)@ + cell.subrange(0, jj as int * ncols as int + ii as int),
            decreases ncols - ii,
        {
            proof {
                let k = jj as int * ncols as int + ii as int;
                vstd::arithmetic::div_mod::lemma_fundamental_div_mod_converse(
                    k,
                    ncols as int,
                    jj as int,
                    ii as int,
                );
                assert(0 <= k < nrows as int * ncols as int) by (nonlinear_arith)
                    requires
                        0 <= jj < nrows && 0 <= ii < ncols && k == jj * ncols + ii,
                ;
                assert(cell[k] == sheet.spec_pixel(x0 as int + ii as int, y0 as int + jj as int));
            }
            let p = sheet.get_pixel(x0 + ii, y0 + jj);
            out.push(p);
            proof {
                let k = jj as int * ncols as int + ii as int;
                assert(out@ =~= old(out)@ + cell.subrange(0, k + 1));
            }
            ii = ii + 1;
        }
        proof {
            assert((jj + 1) as int * ncols as int == jj as int * ncols as int + ncols as int)
                by (nonlinear_arith);
        }
        jj = jj + 1;
    }
    proof {
        assert(cell.subrange(0, nrows as int * ncols as int) =~= cell);
    }
}

/// Partitions a spritesheet raster into the flat font grid: glyph cells in
/// row-major sheet order, so the cell at index `i` is the glyph for byte
/// value `i`.  Partial tiles at the sheet's right or bottom edge are
/// truncated.
pub fn load_image_grid(
    sheet: &Raster,
    rect_width: u32,
    rect_height: u32,
    border_width: u32,
) -> (grid: Vec<Rgb>)
    requires
        sheet.wf(),
        border_width as int + 1 <= sheet.width as int,
        border_width as int + 1 <= sheet.height as int,
        2 * (border_width as int) < rect_width as int,
        2 * (border_width as int) < rect_height as int,
        sheet.width as int + rect_width as int <= u32::MAX as int,
        sheet.height as int + rect_height as int <= u32::MAX as int,
    ensures
        grid@ == image_grid_spec(
            *sheet,
            rect_width as int,
            rect_height as int,
            border_width as int,
        ),
{
    let ghost rw = rect_width as int;
    let ghost rh = rect_height as int;
    let ghost bw = border_width as int;
    let ghost whole = image_grid_spec(*sheet, rw, rh, bw);
    let b = border_width;
    let end_x = sheet.width - 1 - b;
    let end_y = sheet.height - 1 - b;
    let stride_x = rect_width - b;
    let stride_y = rect_height - b;
    let cw = rect_width - 2 * b;
    let ch = rect_height - 2 * b;
    let mut grid: Vec<Rgb> = Vec::new();
    let mut r: u32 = 0;
    let mut y: u32 = b;
    proof {
        lemma_steps_iff(bw, end_y as int, rh - bw, 0);
    }
    while y < end_y
        invariant
            rw == rect_width as int && rh == rect_height as int && bw == border_width as int,
            whole == image_grid_spec(*sheet, rw, rh, bw),
            sheet.wf(),
            bw + 1 <= sheet.width as int,
            bw + 1 <= sheet.height as int,
            2 * bw < rw,
            2 * bw < rh,
            sheet.width as int + rw <= u32::MAX as int,
            sheet.height as int + rh <= u32::MAX as int,
            b == border_width && cw == rw - 2 * bw && ch == rh - 2 * bw,
            stride_x == rw - bw && stride_y == rh - bw,
            end_x as int == sheet.width as int - 1 - bw,
            end_y as int == sheet.height as int - 1 - bw,
            y as int == bw + r as int * (rh - bw),
            r as int <= sheet_rows(*sheet, rh, bw),
            whole == grid@ + grid_rows_from(*sheet, rw, rh, bw, r as int),
        decreases sheet_rows(*sheet, rh, bw) - r as int,
    {
        proof {
            lemma_steps_iff(bw, end_y as int, rh - bw, r as int);
            assert((r as int) < sheet_rows(*sheet, rh, bw));
        }
        let rows_c = if ch < end_y - y + 1 {
            ch
        } else {
            end_y - y + 1
        };
        let mut c: u32 = 0;
        let mut x: u32 = b;
        while x < end_x
            invariant
                rw == rect_width as int && rh == rect_height as int && bw == border_width as int,
                whole == image_grid_spec(*sheet, rw, rh, bw),
                sheet.wf(),
                bw + 1 <= sheet.width as int,
                bw + 1 <= sheet.height as int,
                2 * bw < rw,
                2 * bw < rh,
                sheet.width as int + rw <= u32::MAX as int,
                sheet.height as int + rh <= u32::MAX as int,
                b == border_width && cw == rw - 2 * bw && ch == rh - 2 * bw,
                stride_x == rw - bw && stride_y == rh - bw,
                end_x as int == sheet.width as int - 1 - bw,
                end_y as int == sheet.height as int - 1 - bw,
                y as int == bw + r as int * (rh - bw),
                y < end_y,
                (r as int) < sheet_rows(*sheet, rh, bw),
                rows_c as int == min2(rh - 2 * bw, sheet.height as int - bw - y as int),
                x as int == bw + c as int * (rw - bw),
                c as int <= sheet_cols(*sheet, rw, bw),
                whole == grid@ + row_cells_from(*sheet, rw, rh, bw, r as int, c as int)
                    + grid_rows_from(*sheet, rw, rh, bw, r as int + 1),
            decreases sheet_cols(*sheet, rw, bw) - c as int,
        {
            proof {
                lemma_steps_iff(bw, end_x as int, rw - bw, c as int);
                assert((c as int) < sheet_cols(*sheet, rw, bw));
            }
            let cols_c = if cw < end_x - x + 1 {
                cw
            } else {
                end_x - x + 1
            };
            proof {
                assert(cell_pixels(*sheet, rw, rh, bw, r as int, c as int) == cell_rect(
                    *sheet,
                    x as int,
                    y as int,
                    cols_c as int,
                    rows_c as int,
                ));
            }
            copy_rect(sheet, x, y, cols_c, rows_c, &mut grid);
            proof {
                assert(row_cells_from(*sheet, rw, rh, bw, r as int, c as int) == cell_pixels(
                    *sheet,
                    rw,
                    rh,
                    bw,
                    r as int,
                    c as int,
                ) + row_cells_from(*sheet, rw, rh, bw, r as int, c as int + 1));
                assert(whole =~= grid@ + row_cells_from(*sheet, rw, rh, bw, r as int, c as int + 1)
                    + grid_rows_from(*sheet, rw, rh, bw, r as int + 1));
            }
            proof {
                lemma_steps_iff(bw, end_x as int, rw - bw, c as int + 1);
            }
            proof {
                assert((c as int + 1) * (rw - bw) == c as int * (rw - bw) + (rw - bw))
                    by (nonlinear_arith);
            }
            c = c + 1;
            x = x + stride_x;
        }
        proof {
            lemma_steps_iff(bw, end_x as int, rw - bw, c as int);
            assert(c as int >= sheet_cols(*sheet, rw, bw));
            assert(row_cells_from(*sheet, rw, rh, bw, r as int, c as int) =~= Seq::<Rgb>::empty());
            assert(grid@ + row_cells_from(*sheet, rw, rh, bw, r as int, c as int) =~= grid@);
        }
        proof {
            lemma_steps_iff(bw, end_y as int, rh - bw, r as int + 1);
        }
        proof {
            assert((r as int + 1) * (rh - bw) == r as int * (rh - bw) + (rh - bw))
                by (nonlinear_arith);
        }
        r = r + 1;
        y = y + stride_y;
    }
    proof {
        lemma_steps_iff(bw, end_y as int, rh - bw, r as int);
        assert(r as int >= sheet_rows(*sheet, rh, bw));
        assert(grid_rows_from(*sheet, rw, rh, bw, r as int) =~= Seq::<Rgb>::empty());
        assert(whole =~= grid@);
    }
    grid
}

/// The `i`-th `size`-pixel chunk of a flat grid, padded with black pixels
/// where the grid ends inside the chunk.
pub open spec fn chunk_of(grid: Seq<Rgb>, size: int, i: int) -> Seq<Rgb> {
    Seq::new(
        size as nat,
        |j: int|
            if i * size + j < grid.len() {
                grid[i * size + j]
            } else {
                (0u8, 0u8, 0u8)
            },
    )
}

/// How many chunks a grid of `len` pixels splits into.
pub open spec fn num_chunks(len: int, size: int) -> int {
    len / size + if len % size == 0 {
        0int
    } else {
        1int
    }
}

/// A chunk that exists starts inside the grid.
proof fn lemma_chunk_base(n: int, sz: int, i: int)
    requires
        sz >= 1,
        n >= 0,
        0 <= i < num_chunks(n, sz),
    ensures
        i * sz < n,
{
    let q = n / sz;
    let rem = n % sz;
    vstd::arithmetic::div_mod::lemma_fundamental_div_mod(n, sz);
    assert(n == sz * q + rem);
    if rem == 0 {
        assert(i <= q - 1);
        assert(i * sz <= (q - 1) * sz) by (nonlinear_arith)
            requires
                i <= q - 1 && sz >= 1,
        ;
        assert((q - 1) * sz == sz * q - sz) by (nonlinear_arith);
    } else {
        assert(i <= q);
        assert(i * sz <= sz * q) by (nonlinear_arith)
            requires
                i <= q && sz >= 1,
        ;
    }
}

/// Splits a flat font grid into its glyph cells, one small raster per cell,
/// in grid order.  A trailing partial cell is padded with black pixels.
pub fn read_image_grid(image_grid: Vec<Rgb>, char_width: u32, char_height: u32) -> (cells: Vec<
    Raster,
>)
    requires
        char_width >= 1,
        char_height >= 1,
        char_width as int * char_height as int <= u32::MAX as int,
    ensures
        cells@.len() == num_chunks(image_grid@.len() as int, char_width as int * char_height as int),
        forall|i: int|
            0 <= i < cells@.len() ==> {
                &&& (#[trigger] cells@[i]).wf()
                &&& cells@[i].width == char_width
                &&& cells@[i].height == char_height
                &&& cells@[i].pixels@ == chunk_of(
                    image_grid@,
                    char_width as int * char_height as int,
                    i,
                )
            },
{
    let ghost sz = char_width as int * char_height as int;
    let ghost nn = image_grid@.len() as int;
    let size: usize = (char_width as usize) * (char_height as usize);
    proof {
        assert(sz >= 1) by (nonlinear_arith)
            requires
                char_width >= 1 && char_height >= 1 && sz == char_width as int * char_height as int,
        ;
    }
    let n: usize = image_grid.len();
    let q: usize = n / size;
    let rem: usize = n % size;
    proof {
        vstd::arithmetic::div_mod::lemma_fundamental_div_mod(n as int, sz);
        if rem != 0 {
            assert(q as int <= sz * (q as int)) by (nonlinear_arith)
                requires
                    sz >= 1 && q as int >= 0,
            ;
        }
    }
    let nchunks: usize = if rem == 0 {
        q
    } else {
        q + 1
    };
    assert(nchunks as int == num_chunks(nn, sz));
    let mut cells: Vec<Raster> = Vec::new();
    let mut i: usize = 0;
    while i < nchunks
        invariant
            sz == char_width as int * char_height as int,
            size as int == sz,
            1 <= sz <= u32::MAX as int,
            nn == image_grid@.len(),
            n == image_grid@.len(),
            nchunks as int == num_chunks(nn, sz),
            i <= nchunks,
            cells@.len() == i,
            forall|ci: int|
                0 <= ci < cells@.len() ==> {
                    &&& (#[trigger] cells@[ci]).wf()
                    &&& cells@[ci].width == char_width
                    &&& cells@[ci].height == char_height
                    &&& cells@[ci].pixels@ == chunk_of(image_grid@, sz, ci)
                },
        decreases nchunks - i,
    {
        proof {
            lemma_chunk_base(nn, sz, i as int);
        }
        let base: usize = i * size;
        let remaining: usize = n - base;
        let mut pixels: Vec<Rgb> = Vec::new();
        let mut j: usize = 0;
        while j < size
            invariant
                sz == char_width as int * char_height as int,
                size as int == sz,
                nn == image_grid@.len(),
                n == image_grid@.len(),
                base as int == i as int * sz,
                base < n,
                remaining == n - base,
                j <= size,
                pixels@ == chunk_of(image_grid@, sz, i as int).subrange(0, j as int),
            decreases size - j,
        {
            if j < remaining {
                pixels.push(image_grid[base + j]);
            } else {
                pixels.push((0, 0, 0));
            }
            proof {
                assert(pixels@ =~= chunk_of(image_grid@, sz, i as int).subrange(0, j as int + 1));
            }
            j = j + 1;
        }
        proof {
            assert(pixels@ =~= chunk_of(image_grid@, sz, i as int));
        }
        let cell = Raster { width: char_width, height: char_height, pixels };
        cells.push(cell);
        i = i + 1;
    }
    cells
}

} // verus!
