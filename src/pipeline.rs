//! The decisions of one re-tiling run: reading and checking the three grid
//! descriptors, choosing the canvas, and running the slicer and compositor.

use vstd::prelude::*;
use vstd::utf8::encode_utf8;
use crate::grid::{grid_of, read_grid, GridError};
use crate::raster::{lemma_product_fits, PixelFormat, Raster};
use crate::resample::can_resample;
use crate::tiles::{
    fill_images,
    filled,
    placed_count,
    resized_cells,
    same_size_cell,
    slices_of,
    split_images,
};

verus! {

/// Why a run stops before it writes anything.
#[derive(Debug, Clone, Copy, PartialEq, Eq, Structural)]
pub enum RegridError {
    /// A grid or size descriptor does not parse.
    Grid(GridError),
    /// The output grid has fewer cells than the input grid.
    OutputGridTooSmall,
    /// A grid has no columns or no rows.
    EmptyGrid,
    /// The canvas, or a buffer needed to resample onto it, is too large to
    /// address.
    TooLarge,
}

impl RegridError {
    /// A message for the user.
    pub fn message(&self) -> (r: &'static str)
        ensures
            *self == RegridError::Grid(GridError::Separator) ==> r@
                == "Grid must be written as <columns>x<rows>"@,
            *self == RegridError::Grid(GridError::Number) ==> r@ == "Grid size is not a valid number"@,
            *self == RegridError::OutputGridTooSmall ==> r@ == "Output grid is too small"@,
            *self == RegridError::EmptyGrid ==> r@ == "Grid must have at least one column and one row"@,
            *self == RegridError::TooLarge ==> r@ == "Output image is too large"@,
    {
        match self {
            RegridError::Grid(GridError::Separator) => "Grid must be written as <columns>x<rows>",
            RegridError::Grid(GridError::Number) => "Grid size is not a valid number",
            RegridError::OutputGridTooSmall => "Output grid is too small",
            RegridError::EmptyGrid => "Grid must have at least one column and one row",
            RegridError::TooLarge => "Output image is too large",
        }
    }
}

/// The checked settings of a run.
#[derive(Debug, Clone, Copy)]
pub struct Plan {
    /// Columns and rows of the input sheet.
    pub input_grid: (u32, u32),
    /// Columns and rows of the output sheet.
    pub output_grid: (u32, u32),
    /// Width and height of the output sheet, where given.
    pub output_size: Option<(u32, u32)>,
}

pub open spec fn cell_count(grid: (u32, u32)) -> nat {
    grid.0 as nat * grid.1 as nat
}

pub open spec fn usable(grid: (u32, u32)) -> bool {
    grid.0 >= 1 && grid.1 >= 1
}

impl Plan {
    /// Both grids can divide a raster.
    pub open spec fn wf(self) -> bool {
        usable(self.input_grid) && usable(self.output_grid)
    }
}

/// The checks of a run, once its descriptors have been read: the output grid
/// must have room for every input cell, and both grids must have cells.
pub open spec fn checked(input: (u32, u32), output: (u32, u32), size: Option<(u32, u32)>) -> Result<
    Plan,
    RegridError,
> {
    if cell_count(input) > cell_count(output) {
        Err(RegridError::OutputGridTooSmall)
    } else if !usable(input) || !usable(output) {
        Err(RegridError::EmptyGrid)
    } else {
        Ok(Plan { input_grid: input, output_grid: output, output_size: size })
    }
}

/// The outcome of reading the descriptors, given as UTF-8 bytes, in order:
/// input grid, output grid, output size; then the checks.
pub open spec fn plan_of(input: Seq<u8>, output: Seq<u8>, size: Option<Seq<u8>>) -> Result<
    Plan,
    RegridError,
> {
    match grid_of(input) {
        Err(e) => Err(RegridError::Grid(e)),
        Ok(ig) => match grid_of(output) {
            Err(e) => Err(RegridError::Grid(e)),
            Ok(og) => match size {
                None => checked(ig, og, None),
                Some(t) => match grid_of(t) {
                    Err(e) => Err(RegridError::Grid(e)),
                    Ok(sz) => checked(ig, og, Some(sz)),
                },
            },
        },
    }
}

pub open spec fn bytes_of(s: Option<String>) -> Option<Seq<u8>> {
    match s {
        Some(t) => Some(encode_utf8(t@)),
        None => None,
    }
}

fn check_grids(input: (u32, u32), output: (u32, u32), size: Option<(u32, u32)>) -> (r: Result<
    Plan,
    RegridError,
>)
    ensures
        r == checked(input, output, size),
{
    proof {
        lemma_product_fits(input.0 as nat, input.1 as nat);
        lemma_product_fits(output.0 as nat, output.1 as nat);
    }
    let have = input.0 as u64 * input.1 as u64;
    let room = output.0 as u64 * output.1 as u64;
    if have > room {
        Err(RegridError::OutputGridTooSmall)
    } else if input.0 == 0 || input.1 == 0 || output.0 == 0 || output.1 == 0 {
        Err(RegridError::EmptyGrid)
    } else {
        Ok(Plan { input_grid: input, output_grid: output, output_size: size })
    }
}

/// Reads the input grid, the output grid and the optional output size, and
/// checks that every input cell has an output cell.
pub fn parse_request(spritesheet_grid: String, output_grid: String, output_size: Option<String>) -> (r:
    Result<Plan, RegridError>)
    ensures
        r == plan_of(encode_utf8(spritesheet_grid@), encode_utf8(output_grid@), bytes_of(output_size)),
        r matches Ok(plan) ==> plan.wf(),
{
    let input = match read_grid(spritesheet_grid) {
        Ok(g) => g,
        Err(e) => return Err(RegridError::Grid(e)),
    };
    let output = match read_grid(output_grid) {
        Ok(g) => g,
        Err(e) => return Err(RegridError::Grid(e)),
    };
    let size = match output_size {
        None => None,
        Some(text) => match read_grid(text) {
            Ok(g) => Some(g),
            Err(e) => return Err(RegridError::Grid(e)),
        },
    };
    check_grids(input, output, size)
}

/// Width and height of the output sheet: the size asked for, else the input's.
pub open spec fn canvas_size(plan: Plan, input: Raster) -> (u32, u32) {
    match plan.output_size {
        Some(size) => size,
        None => (input.width, input.height),
    }
}

/// The buffers of a run can be addressed: the canvas, and those that
/// resampling an input cell to an output cell allocates.
pub open spec fn addressable(plan: Plan, input: Raster) -> bool {
    let (w, h) = canvas_size(plan, input);
    &&& w as nat * h as nat * input.format.channel_count() <= usize::MAX
    &&& input.width as nat * h as nat * 4 <= usize::MAX
}

/// `canvas` is a `width` by `height` raster of `format` with every byte zero.
pub open spec fn is_blank(canvas: Raster, width: u32, height: u32, format: PixelFormat) -> bool {
    &&& canvas.wf()
    &&& canvas.width == width
    &&& canvas.height == height
    &&& canvas.format == format
    &&& forall|i: int| 0 <= i < canvas.data@.len() ==> #[trigger] canvas.data@[i] == 0
}

/// Re-tiles `input`: cuts it into the cells of the input grid, and writes them
/// in order onto a blank canvas of the chosen size, laid out on the output
/// grid.
pub fn regrid(input: &Raster, plan: &Plan) -> (r: Result<Raster, RegridError>)
    requires
        input.wf(),
        plan.wf(),
    ensures
        r is Err <==> !addressable(*plan, *input),
        r is Err ==> r == Err::<Raster, RegridError>(RegridError::TooLarge),
        r matches Ok(out) ==> {
            &&& out.wf()
            &&& out.width == canvas_size(*plan, *input).0
            &&& out.height == canvas_size(*plan, *input).1
            &&& out.format == input.format
        },
        r matches Ok(out) ==> exists|canvas: Raster, cells: Seq<Raster>, resized: Seq<Raster>|
            {
                &&& is_blank(canvas, canvas_size(*plan, *input).0, canvas_size(*plan, *input).1, input.format)
                &&& slices_of(*input, plan.input_grid, cells)
                &&& resized_cells(
                    cells,
                    resized,
                    placed_count(cells.len(), plan.output_grid),
                    (canvas.width / plan.output_grid.0) as nat,
                    (canvas.height / plan.output_grid.1) as nat,
                    input.format,
                )
                &&& filled(canvas, resized, plan.output_grid, out)
            },
{
    let (width, height) = match plan.output_size {
        Some(size) => size,
        None => (input.width, input.height),
    };
    proof {
        lemma_product_fits(input.width as nat, height as nat);
    }
    if input.width as u128 * height as u128 * 4 > usize::MAX as u128 {
        return Err(RegridError::TooLarge);
    }
    let mut canvas = match Raster::new_blank(width, height, input.format) {
        Some(c) => c,
        None => return Err(RegridError::TooLarge),
    };
    let ghost blank = canvas;
    let cells = split_images(input, plan.input_grid);
    proof {
        let (columns, rows) = plan.output_grid;
        let tw = width / columns;
        let th = height / rows;
        let ch = input.format.channel_count();
        assert(tw <= width && th <= height) by (nonlinear_arith)
            requires
                columns >= 1,
                rows >= 1,
                tw == width / columns,
                th == height / rows,
        ;
        assert(tw as nat * th as nat * ch <= width as nat * height as nat * ch) by (nonlinear_arith)
            requires
                tw <= width,
                th <= height,
                ch >= 1,
        ;
        assert forall|i: int| 0 <= i < cells@.len() implies can_resample(
            #[trigger] cells@[i],
            tw as nat,
            th as nat,
        ) by {
            let cell = cells@[i];
            assert(cell.width <= input.width) by (nonlinear_arith)
                requires
                    cell.width == input.width / plan.input_grid.0,
                    plan.input_grid.0 >= 1,
            ;
            assert(cell.width as nat * th as nat * 4 <= input.width as nat * height as nat * 4)
                by (nonlinear_arith)
                requires
                    cell.width <= input.width,
                    th <= height,
            ;
        }
    }
    let ghost sliced = cells@;
    fill_images(&mut canvas, cells, plan.output_grid);
    proof {
        let resized = choose|resized: Seq<Raster>|
            {
                &&& resized_cells(
                    sliced,
                    resized,
                    placed_count(sliced.len(), plan.output_grid),
                    (blank.width / plan.output_grid.0) as nat,
                    (blank.height / plan.output_grid.1) as nat,
                    blank.format,
                )
                &&& filled(blank, resized, plan.output_grid, canvas)
            };
        assert(is_blank(blank, width, height, input.format));
        assert(slices_of(*input, plan.input_grid, sliced));
    }
    Ok(canvas)
}

} // verus!
