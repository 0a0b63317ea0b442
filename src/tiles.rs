//! Cutting a raster into the cells of a grid, and writing a list of cells onto
//! the cells of another grid.

use vstd::prelude::*;
use vstd::arithmetic::div_mod::{
    lemma_div_by_multiple,
    lemma_div_is_ordered,
    lemma_fundamental_div_mod,
    lemma_mod_pos_bound,
};
use crate::raster::{
    at,
    PixelFormat,
    in_rect,
    is_crop_of,
    lemma_index_below,
    lemma_index_unique,
    lemma_product_fits,
    lemma_row_within,
    placed,
    Raster,
};
use crate::resample::{can_resample, resize_exact};

verus! {

/// Position of the cell at `row`, `col` in the row-major order of a grid with
/// `columns` columns.
pub open spec fn row_major(columns: nat, row: int, col: int) -> int {
    row * columns + col
}

/// Leading edge, in pixels, of cell `index` when `size` pixels are cut into
/// `count` cells: the indexed floor division.
pub open spec fn cell_edge(size: nat, count: nat, index: int) -> int {
    index * size / count as int
}

/// `cell` is a well-formed raster of the pixel format of `image` and of the
/// cell size of `grid` over it.
pub open spec fn same_size_cell(cell: Raster, image: Raster, grid: (u32, u32)) -> bool {
    &&& cell.wf()
    &&& cell.format == image.format
    &&& cell.width == image.width / grid.0
    &&& cell.height == image.height / grid.1
}

/// `cells` are the cells of `image` under `grid` (columns, rows), in row-major
/// order: cell `(row, col)` starts at `(col * width / columns, row * height /
/// rows)` and is `width / columns` by `height / rows` pixels.
pub open spec fn slices_of(image: Raster, grid: (u32, u32), cells: Seq<Raster>) -> bool {
    let columns = grid.0 as nat;
    let rows = grid.1 as nat;
    &&& cells.len() == columns * rows
    &&& forall|i: int| 0 <= i < cells.len() ==> same_size_cell(#[trigger] cells[i], image, grid)
    &&& forall|row: int, col: int|
        0 <= row < rows && 0 <= col < columns ==> is_crop_of(
            #[trigger] cells[row_major(columns, row, col)],
            image,
            cell_edge(image.width as nat, columns, col),
            cell_edge(image.height as nat, rows, row),
            (image.width / grid.0) as int,
            (image.height / grid.1) as int,
        )
}

/// Byte `kk` of row `rr` of the tile at `row`, `col`, for tiles `th` rows high
/// and `tb` bytes wide.
pub open spec fn tile_byte(img: Raster, th: nat, tb: nat, row: int, col: int, rr: int, kk: int) -> u8 {
    img.byte(row * th + rr, col * tb + kk)
}

/// `after` is the canvas `before` with `cells`, each already of the cell size,
/// written onto `grid` (columns, rows): each grid cell is `before.width /
/// columns` by `before.height / rows`; the grid cell at row-major position `i`
/// holds the bytes of `cells[i]` where `i < cells.len()`; every other byte is as
/// it was.
pub open spec fn filled(before: Raster, cells: Seq<Raster>, grid: (u32, u32), after: Raster) -> bool {
    let columns = grid.0 as nat;
    let rows = grid.1 as nat;
    let tw = before.width / grid.0;
    let th = before.height / grid.1;
    let tb = tw as nat * before.format.channel_count();
    &&& after.wf()
    &&& after.width == before.width
    &&& after.height == before.height
    &&& after.format == before.format
    &&& forall|row: int, col: int, rr: int, kk: int|
        0 <= row < rows && 0 <= col < columns && 0 <= rr < th && 0 <= kk < tb
            ==> #[trigger] tile_byte(after, th as nat, tb, row, col, rr, kk) == if row_major(
            columns,
            row,
            col,
        ) < cells.len() {
            at(cells[row_major(columns, row, col)].data@, tb, rr, kk)
        } else {
            tile_byte(before, th as nat, tb, row, col, rr, kk)
        }
    &&& forall|r: int, k: int|
        0 <= r < before.height && 0 <= k < before.row_len() && (r >= rows * th || k >= columns
            * tb) ==> #[trigger] after.byte(r, k) == before.byte(r, k)
}

/// `cell` is a well-formed `width` by `height` raster of `format`.
pub open spec fn fits_cell(cell: Raster, width: nat, height: nat, format: PixelFormat) -> bool {
    &&& cell.wf()
    &&& cell.width == width
    &&& cell.height == height
    &&& cell.format == format
}

/// Number of cells the compositor writes: as many as there are, up to the
/// number of cells of `grid`.
pub open spec fn placed_count(len: nat, grid: (u32, u32)) -> nat {
    let room = grid.0 as nat * grid.1 as nat;
    if len < room {
        len
    } else {
        room
    }
}

/// `resized` holds the first `count` of `cells`, each brought to `width` by
/// `height` in `format`; a cell that already has that size is kept byte for
/// byte.
pub open spec fn resized_cells(
    cells: Seq<Raster>,
    resized: Seq<Raster>,
    count: nat,
    width: nat,
    height: nat,
    format: PixelFormat,
) -> bool {
    &&& resized.len() == count
    &&& count <= cells.len()
    &&& forall|i: int|
        0 <= i < count ==> {
            &&& fits_cell(#[trigger] resized[i], width, height, format)
            &&& (cells[i].width == width && cells[i].height == height ==> resized[i].data@
                == cells[i].data@)
        }
}

/// A cell `size / count` wide that starts at the indexed edge of `index` ends
/// within `size`.
pub proof fn lemma_cell_fits(size: nat, count: nat, index: nat)
    requires
        index < count,
    ensures
        cell_edge(size, count, index as int) + size / count <= size,
        cell_edge(size, count, index as int) >= 0,
{
    let s = size as int;
    let c = count as int;
    let a: int = index as int * s;
    let q: int = a / c + s / c;
    lemma_fundamental_div_mod(a, c);
    lemma_fundamental_div_mod(s, c);
    lemma_mod_pos_bound(a, c);
    lemma_mod_pos_bound(s, c);
    assert(c * q <= a + s) by (nonlinear_arith)
        requires
            a == c * (a / c) + a % c,
            s == c * (s / c) + s % c,
            a % c >= 0,
            s % c >= 0,
            q == a / c + s / c,
    ;
    assert(a + s <= c * s) by (nonlinear_arith)
        requires
            a == index * s,
            index + 1 <= c,
            s >= 0,
    ;
    assert(a / c >= 0 && s / c >= 0) by (nonlinear_arith)
        requires
            a >= 0,
            s >= 0,
            c > 0,
    ;
    lemma_div_by_multiple(q, c);
    assert(q * c == c * q) by (nonlinear_arith);
    lemma_div_is_ordered(q * c, a + s, c);
    lemma_div_is_ordered(a + s, c * s, c);
    assert(s * c == c * s) by (nonlinear_arith);
    lemma_div_by_multiple(s, c);
}

/// `count` tiles of `size / count` fit in `size`.
pub proof fn lemma_tiles_fit(size: nat, count: nat)
    requires
        count >= 1,
    ensures
        count * (size / count) <= size,
{
    lemma_fundamental_div_mod(size as int, count as int);
    lemma_mod_pos_bound(size as int, count as int);
}

/// Cuts `image` into the `columns * rows` cells of `grid`, in row-major order.
///
/// A cell is `width / columns` by `height / rows` pixels and starts at
/// `(col * width / columns, row * height / rows)`; where the size does not
/// divide evenly, a strip at the right or bottom edge belongs to no cell.
#[verifier::loop_isolation(false)]
pub fn split_images(image: &Raster, grid: (u32, u32)) -> (cells: Vec<Raster>)
    requires
        image.wf(),
        grid.0 >= 1,
        grid.1 >= 1,
    ensures
        slices_of(*image, grid, cells@),
{
    let columns = grid.0;
    let rows = grid.1;
    let cell_width = image.width / columns;
    let cell_height = image.height / rows;
    let ghost c = columns as nat;
    let mut cells: Vec<Raster> = Vec::new();
    let mut y: u32 = 0;
    while y < rows
        invariant
            y <= rows,
            cells@.len() == y * c,
            forall|i: int| 0 <= i < cells@.len() ==> same_size_cell(#[trigger] cells@[i], *image, grid),
            forall|row: int, col: int|
                0 <= row < y && 0 <= col < c ==> is_crop_of(
                    #[trigger] cells@[row_major(c, row, col)],
                    *image,
                    cell_edge(image.width as nat, c, col),
                    cell_edge(image.height as nat, rows as nat, row),
                    cell_width as int,
                    cell_height as int,
                ),
        decreases rows - y,
    {
        let mut x: u32 = 0;
        while x < columns
            invariant
                x <= columns,
                y < rows,
                cells@.len() == y * c + x,
                forall|i: int| 0 <= i < cells@.len() ==> same_size_cell(#[trigger] cells@[i], *image, grid),
                forall|row: int, col: int|
                    (0 <= row < y && 0 <= col < c) || (row == y && 0 <= col < x) ==> is_crop_of(
                        #[trigger] cells@[row_major(c, row, col)],
                        *image,
                        cell_edge(image.width as nat, c, col),
                        cell_edge(image.height as nat, rows as nat, row),
                        cell_width as int,
                        cell_height as int,
                    ),
            decreases columns - x,
        {
            proof {
                lemma_cell_fits(image.width as nat, c, x as nat);
                lemma_cell_fits(image.height as nat, rows as nat, y as nat);
            }
            proof {
                lemma_product_fits(x as nat, image.width as nat);
            }
            proof {
                lemma_product_fits(y as nat, image.height as nat);
            }
            let left = (x as u64 * image.width as u64 / columns as u64) as u32;
            let top = (y as u64 * image.height as u64 / rows as u64) as u32;
            let cell = image.crop(left, top, cell_width, cell_height);
            let ghost before = cells@;
            cells.push(cell);
            proof {
                assert forall|row: int, col: int|
                    (0 <= row < y && 0 <= col < c) || (row == y && 0 <= col < x + 1) implies is_crop_of(
                        #[trigger] cells@[row_major(c, row, col)],
                        *image,
                        cell_edge(image.width as nat, c, col),
                        cell_edge(image.height as nat, rows as nat, row),
                        cell_width as int,
                        cell_height as int,
                    ) by {
                    if row == y && col == x {
                    } else if row < y {
                        lemma_row_within(row, c as int, y as int);
                        assert(cells@[row_major(c, row, col)] == before[row_major(c, row, col)]);
                    } else {
                        assert(cells@[row_major(c, row, col)] == before[row_major(c, row, col)]);
                    }
                }
            }
            x = x + 1;
        }
        assert((y + 1) * c == y * c + c) by (nonlinear_arith);
        y = y + 1;
    }
    assert(cells@.len() == c * rows) by (nonlinear_arith)
        requires
            cells@.len() == rows * c,
    ;
    cells
}

/// Writes `images`, each already of the cell size `(width / columns, height /
/// rows)` of `grid` over `image`, onto the cells of `grid` in row-major order.
/// Stops when either the cells or the images run out; what it does not write
/// keeps its old value.
#[verifier::loop_isolation(false)]
pub fn place_cells(image: &mut Raster, images: Vec<Raster>, grid: (u32, u32))
    requires
        old(image).wf(),
        grid.0 >= 1,
        grid.1 >= 1,
        forall|i: int|
            0 <= i < images@.len() ==> fits_cell(
                #[trigger] images@[i],
                (old(image).width / grid.0) as nat,
                (old(image).height / grid.1) as nat,
                old(image).format,
            ),
    ensures
        filled(*old(image), images@, grid, *final(image)),
{
    let ghost start = *image;
    let columns = grid.0 as u64;
    let rows = grid.1 as u64;
    let tw = image.width / grid.0;
    let th = image.height / grid.1;
    let ghost c = grid.0 as int;
    let ghost r = grid.1 as int;
    let ghost ch = start.format.channel_count() as int;
    let ghost tb = tw as int * ch;
    let ghost rl = start.row_len() as int;
    proof {
        lemma_tiles_fit(start.width as nat, c as nat);
        lemma_tiles_fit(start.height as nat, r as nat);
        assert(c * tb <= rl) by (nonlinear_arith)
            requires
                c * tw <= start.width,
                tb == tw * ch,
                rl == start.width * ch,
                ch >= 1,
        ;
    }
    proof {
        lemma_product_fits(columns as nat, rows as nat);
    }
    let total = columns * rows;
    let count = if (images.len() as u64) < total {
        images.len() as u64
    } else {
        total
    };
    let mut i: u64 = 0;
    while i < count
        invariant
            i <= count,
            count <= images@.len(),
            count <= c * r,
            image.wf(),
            image.width == start.width,
            image.height == start.height,
            image.format == start.format,
            forall|row: int, col: int, rr: int, kk: int|
                0 <= row < r && 0 <= col < c && 0 <= rr < th && 0 <= kk < tb
                    ==> #[trigger] tile_byte(*image, th as nat, tb as nat, row, col, rr, kk) == if row_major(
                    c as nat,
                    row,
                    col,
                ) < i {
                    at(images@[row_major(c as nat, row, col)].data@, tb as nat, rr, kk)
                } else {
                    tile_byte(start, th as nat, tb as nat, row, col, rr, kk)
                },
            forall|p: int, q: int|
                0 <= p < start.height && 0 <= q < rl && (p >= r * th || q >= c * tb)
                    ==> #[trigger] image.byte(p, q) == start.byte(p, q),
        decreases count - i,
    {
        let row = i / columns;
        let col = i % columns;
        proof {
            lemma_fundamental_div_mod(i as int, c);
            lemma_mod_pos_bound(i as int, c);
            assert(row < r) by (nonlinear_arith)
                requires
                    i == c * row + col,
                    col >= 0,
                    i < c * r,
                    c >= 1,
            ;
            assert(c * row == row * c) by (nonlinear_arith);
            lemma_row_within(col as int, tw as int, c);
            lemma_row_within(row as int, th as int, r);
            lemma_row_within(col as int, tb, c);
        }
        let resized = &images[i as usize];
        let ghost before = *image;
        let x = (col * tw as u64) as u32;
        let y = (row * th as u64) as u32;
        let placed_ok = image.copy_from(resized, x, y);
        proof {
            assert(placed_ok is Ok);
            assert(placed(before, *resized, x as int, y as int, *image));
            assert(i == row_major(c as nat, row as int, col as int));
            assert(x * ch == col * tb) by (nonlinear_arith)
                requires
                    x == col * tw,
                    tb == tw * ch,
            ;
            assert forall|row2: int, col2: int, rr: int, kk: int|
                0 <= row2 < r && 0 <= col2 < c && 0 <= rr < th && 0 <= kk < tb
                    implies #[trigger] tile_byte(*image, th as nat, tb as nat, row2, col2, rr, kk) == if row_major(
                    c as nat,
                    row2,
                    col2,
                ) < i + 1 {
                    at(images@[row_major(c as nat, row2, col2)].data@, tb as nat, rr, kk)
                } else {
                    tile_byte(start, th as nat, tb as nat, row2, col2, rr, kk)
                } by {
                let p = row2 * th + rr;
                let q = col2 * tb + kk;
                lemma_index_below(row2, rr, th as int, r);
                lemma_index_below(col2, kk, tb, c);
                assert(tile_byte(*image, th as nat, tb as nat, row2, col2, rr, kk) == image.byte(p, q));
                if row2 == row && col2 == col {
                    assert(in_rect(p, q, y as int, th as int, x * ch, tb));
                    assert(resized.byte(rr, kk) == at(resized.data@, tb as nat, rr, kk));
                    assert(image.byte(p, q) == resized.byte(rr, kk));
                } else {
                    if in_rect(p, q, y as int, th as int, x * ch, tb) {
                        lemma_index_unique(row2, rr, row as int, p - y, th as int);
                        lemma_index_unique(col2, kk, col as int, q - x * ch, tb);
                    }
                    assert(!in_rect(p, q, y as int, th as int, x * ch, tb));
                    assert(image.byte(p, q) == before.byte(p, q));
                    assert(tile_byte(before, th as nat, tb as nat, row2, col2, rr, kk) == before.byte(p, q));
                    if row_major(c as nat, row2, col2) == i {
                        lemma_index_unique(row2, col2, row as int, col as int, c);
                    }
                }
            }
            assert forall|p: int, q: int|
                0 <= p < start.height && 0 <= q < rl && (p >= r * th || q >= c * tb)
                    implies #[trigger] image.byte(p, q) == start.byte(p, q) by {
                assert(!in_rect(p, q, y as int, th as int, x * ch, tb));
                assert(image.byte(p, q) == before.byte(p, q));
            }
        }
        i = i + 1;
    }
    proof {
        assert forall|row2: int, col2: int|
            0 <= row2 < r && 0 <= col2 < c implies #[trigger] row_major(c as nat, row2, col2) < c * r by {
            lemma_index_below(row2, col2, c, r);
            assert(r * c == c * r) by (nonlinear_arith);
        }
    }
}

/// Brings each of `images`, in order, to the cell size `(width / columns,
/// height / rows)` of `grid` over `image` by Gaussian resampling, and writes
/// them onto the cells of `grid` in row-major order. Stops when either the
/// cells or the images run out; what it does not write keeps its old value.
pub fn fill_images(image: &mut Raster, images: Vec<Raster>, grid: (u32, u32))
    requires
        old(image).wf(),
        grid.0 >= 1,
        grid.1 >= 1,
        forall|i: int|
            0 <= i < images@.len() ==> {
                &&& (#[trigger] images@[i]).wf()
                &&& images@[i].format == old(image).format
                &&& can_resample(
                    images@[i],
                    (old(image).width / grid.0) as nat,
                    (old(image).height / grid.1) as nat,
                )
            },
    ensures
        exists|resized: Seq<Raster>|
            {
                &&& resized_cells(
                    images@,
                    resized,
                    placed_count(images@.len(), grid),
                    (old(image).width / grid.0) as nat,
                    (old(image).height / grid.1) as nat,
                    old(image).format,
                )
                &&& filled(*old(image), resized, grid, *final(image))
            },
{
    let tw = image.width / grid.0;
    let th = image.height / grid.1;
    proof {
        lemma_product_fits(grid.0 as nat, grid.1 as nat);
    }
    let room = grid.0 as u64 * grid.1 as u64;
    let count = if (images.len() as u64) < room {
        images.len() as u64
    } else {
        room
    };
    let mut resized: Vec<Raster> = Vec::new();
    let mut i: u64 = 0;
    while i < count
        invariant
            i <= count,
            count == placed_count(images@.len(), grid),
            tw == image.width / grid.0,
            th == image.height / grid.1,
            image.wf(),
            grid.0 >= 1,
            grid.1 >= 1,
            forall|j: int|
                0 <= j < images@.len() ==> {
                    &&& (#[trigger] images@[j]).wf()
                    &&& images@[j].format == image.format
                    &&& can_resample(images@[j], tw as nat, th as nat)
                },
            resized_cells(images@.subrange(0, i as int), resized@, i as nat, tw as nat, th as nat, image.format),
        decreases count - i,
    {
        let cell = resize_exact(&images[i as usize], tw, th);
        resized.push(cell);
        proof {
            assert forall|j: int| 0 <= j < i + 1 implies #[trigger] images@.subrange(0, i + 1)[j] == images@[j] by {}
            assert forall|j: int| 0 <= j < i implies #[trigger] images@.subrange(0, i as int)[j] == images@[j] by {}
        }
        i = i + 1;
    }
    proof {
        assert forall|j: int| 0 <= j < count implies #[trigger] images@.subrange(0, count as int)[j] == images@[j] by {}
    }
    place_cells(image, resized, grid);
}

/// Compositing a list of cells onto a grid with more cells than the list
/// leaves every grid cell from row-major position `cells.len()` on exactly as
/// it was on the canvas before, whatever the resampling made of the cells.
pub proof fn lemma_unfilled_cells_kept(
    before: Raster,
    cells: Seq<Raster>,
    resized: Seq<Raster>,
    grid: (u32, u32),
    after: Raster,
)
    requires
        resized_cells(
            cells,
            resized,
            placed_count(cells.len(), grid),
            (before.width / grid.0) as nat,
            (before.height / grid.1) as nat,
            before.format,
        ),
        filled(before, resized, grid, after),
    ensures
        forall|row: int, col: int, rr: int, kk: int|
            0 <= row < grid.1 && 0 <= col < grid.0 && 0 <= rr < before.height / grid.1 && 0 <= kk
                < (before.width / grid.0) as nat * before.format.channel_count() && row_major(
                grid.0 as nat,
                row,
                col,
            ) >= cells.len() ==> #[trigger] tile_byte(
                after,
                (before.height / grid.1) as nat,
                (before.width / grid.0) as nat * before.format.channel_count(),
                row,
                col,
                rr,
                kk,
            ) == tile_byte(
                before,
                (before.height / grid.1) as nat,
                (before.width / grid.0) as nat * before.format.channel_count(),
                row,
                col,
                rr,
                kk,
            ),
{
}

/// Two rasters of one size and format that agree on every byte are equal in
/// their buffers.
pub proof fn lemma_same_bytes(a: Raster, b: Raster)
    requires
        a.wf(),
        b.wf(),
        a.width == b.width,
        a.height == b.height,
        a.format == b.format,
        forall|r: int, k: int| 0 <= r < a.height && 0 <= k < a.row_len() ==> #[trigger] a.byte(r, k) == b.byte(r, k),
    ensures
        a.data@ == b.data@,
{
    let rl = a.row_len() as int;
    assert forall|j: int| 0 <= j < a.data@.len() implies a.data@[j] == b.data@[j] by {
        let r = j / rl;
        let k = j % rl;
        assert(rl > 0) by (nonlinear_arith)
            requires
                j < a.height * rl,
                j >= 0,
                rl >= 0,
        ;
        lemma_fundamental_div_mod(j, rl);
        lemma_mod_pos_bound(j, rl);
        assert(r * rl == rl * r) by (nonlinear_arith);
        assert(r < a.height) by (nonlinear_arith)
            requires
                j == rl * r + k,
                k >= 0,
                j < a.height * rl,
                rl > 0,
        ;
        assert(a.byte(r, k) == b.byte(r, k));
    }
    assert(a.data@ =~= b.data@);
}

/// Cutting a raster with a one-by-one grid, then compositing the result with a
/// one-by-one grid onto a canvas of the raster's own size and format, gives
/// back the raster itself.
pub proof fn lemma_single_cell_round_trip(
    image: Raster,
    cells: Seq<Raster>,
    resized: Seq<Raster>,
    canvas: Raster,
    out: Raster,
)
    requires
        image.wf(),
        canvas.wf(),
        canvas.width == image.width,
        canvas.height == image.height,
        canvas.format == image.format,
        slices_of(image, (1, 1), cells),
        resized_cells(
            cells,
            resized,
            placed_count(cells.len(), (1, 1)),
            image.width as nat,
            image.height as nat,
            image.format,
        ),
        filled(canvas, resized, (1, 1), out),
    ensures
        out.width == image.width,
        out.height == image.height,
        out.format == image.format,
        out.data@ == image.data@,
{
    let rl = image.row_len();
    assert(row_major(1, 0, 0) == 0);
    let cell = cells[0];
    assert(is_crop_of(cell, image, cell_edge(image.width as nat, 1, 0), cell_edge(image.height as nat, 1, 0), image.width as int, image.height as int));
    assert(cell_edge(image.width as nat, 1, 0) == 0);
    assert(cell_edge(image.height as nat, 1, 0) == 0);
    assert(resized[0].data@ == cell.data@);
    assert forall|r: int, k: int| 0 <= r < out.height && 0 <= k < out.row_len() implies #[trigger] out.byte(r, k) == image.byte(r, k) by {
        assert(tile_byte(out, image.height as nat, rl, 0, 0, r, k) == out.byte(r, k));
        assert(cell.byte(r, k) == image.byte(r, 0 * image.format.channel_count() + k));
    }
    lemma_same_bytes(out, image);
}

/// When the grid divides the raster evenly, its cells cover the raster
/// exactly, with no strip left over: byte `k` of row `r` of the raster is byte
/// `k % cb` of row `r % ch` of the cell at row `r / ch`, column `k / cb`, for
/// cells `ch` rows high and `cb` bytes wide.
pub proof fn lemma_even_split_covers(image: Raster, grid: (u32, u32), cells: Seq<Raster>)
    requires
        image.wf(),
        grid.0 >= 1,
        grid.1 >= 1,
        image.width % grid.0 == 0,
        image.height % grid.1 == 0,
        slices_of(image, grid, cells),
    ensures
        forall|r: int, k: int|
            0 <= r < image.height && 0 <= k < image.row_len() ==> #[trigger] image.byte(r, k)
                == cells[row_major(
                grid.0 as nat,
                r / (image.height / grid.1) as int,
                k / ((image.width / grid.0) as nat * image.format.channel_count()) as int,
            )].byte(
                r % (image.height / grid.1) as int,
                k % ((image.width / grid.0) as nat * image.format.channel_count()) as int,
            ),
{
    let c = grid.0 as int;
    let rows = grid.1 as int;
    let ch = image.format.channel_count() as int;
    let cw = (image.width / grid.0) as int;
    let chh = (image.height / grid.1) as int;
    let cb = cw * ch;
    lemma_fundamental_div_mod(image.width as int, c);
    lemma_fundamental_div_mod(image.height as int, rows);
    assert forall|r: int, k: int|
        0 <= r < image.height && 0 <= k < image.row_len() implies #[trigger] image.byte(r, k)
            == cells[row_major(grid.0 as nat, r / chh, k / cb)].byte(r % chh, k % cb) by {
        assert(chh > 0) by (nonlinear_arith)
            requires
                image.height == rows * chh,
                r < image.height,
                r >= 0,
                rows >= 1,
        ;
        assert(image.row_len() == c * cb) by (nonlinear_arith)
            requires
                image.row_len() == image.width * ch,
                image.width == c * cw,
                cb == cw * ch,
        ;
        assert(cb > 0) by (nonlinear_arith)
            requires
                k < c * cb,
                k >= 0,
                c >= 1,
        ;
        let row = r / chh;
        let rr = r % chh;
        let col = k / cb;
        let kk = k % cb;
        lemma_fundamental_div_mod(r, chh);
        lemma_mod_pos_bound(r, chh);
        lemma_fundamental_div_mod(k, cb);
        lemma_mod_pos_bound(k, cb);
        assert(0 <= row < rows) by (nonlinear_arith)
            requires
                r == chh * row + rr,
                0 <= rr < chh,
                0 <= r < rows * chh,
        ;
        assert(0 <= col < c) by (nonlinear_arith)
            requires
                k == cb * col + kk,
                0 <= kk < cb,
                0 <= k < c * cb,
        ;
        assert(col * image.width == (col * cw) * c) by (nonlinear_arith)
            requires
                image.width == c * cw,
        ;
        assert(row * image.height == (row * chh) * rows) by (nonlinear_arith)
            requires
                image.height == rows * chh,
        ;
        assert(col * cw >= 0 && row * chh >= 0) by (nonlinear_arith)
            requires
                col >= 0,
                row >= 0,
                cw >= 0,
                chh >= 0,
        ;
        lemma_div_by_multiple(col * cw, c);
        lemma_div_by_multiple(row * chh, rows);
        assert(cell_edge(image.width as nat, c as nat, col) == col * cw);
        assert(cell_edge(image.height as nat, rows as nat, row) == row * chh);
        assert((col * cw) * ch == col * cb) by (nonlinear_arith)
            requires
                cb == cw * ch,
        ;
        let cell = cells[row_major(grid.0 as nat, row, col)];
        assert(cell.row_len() == cb);
        assert(cell.byte(rr, kk) == image.byte(row * chh + rr, (col * cw) * ch + kk));
        assert(row * chh + rr == r && col * cb + kk == k) by (nonlinear_arith)
            requires
                r == chh * row + rr,
                k == cb * col + kk,
        ;
    }
}

} // verus!
