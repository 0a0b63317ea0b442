use sprite_regrid::grid::{parse_grid_bytes, read_grid, GridError};
use sprite_regrid::pipeline::{parse_request, regrid, Plan, RegridError};
use sprite_regrid::raster::{PixelFormat, PlacementError, Raster};
use sprite_regrid::tiles::{fill_images, place_cells, split_images};

fn luma(width: u32, height: u32, data: Vec<u8>) -> Raster {
    Raster::from_raw(width, height, PixelFormat::Luma, data).unwrap()
}

fn counting(width: u32, height: u32, format: PixelFormat) -> Raster {
    let n = width as usize * height as usize * format.channels();
    let data: Vec<u8> = (0..n).map(|i| (i % 251) as u8).collect();
    Raster::from_raw(width, height, format, data).unwrap()
}

#[test]
fn reads_a_grid() {
    assert_eq!(read_grid("4x2".to_string()), Ok((4, 2)));
    assert_eq!(read_grid("10x1".to_string()), Ok((10, 1)));
    assert_eq!(read_grid("+3x05".to_string()), Ok((3, 5)));
    assert_eq!(read_grid("4294967295x0".to_string()), Ok((u32::MAX, 0)));
}

#[test]
fn rejects_a_grid_without_one_separator() {
    assert_eq!(read_grid("4".to_string()), Err(GridError::Separator));
    assert_eq!(read_grid("".to_string()), Err(GridError::Separator));
    assert_eq!(read_grid("1x2x3".to_string()), Err(GridError::Separator));
    assert_eq!(read_grid("4X2".to_string()), Err(GridError::Separator));
}

#[test]
fn rejects_a_grid_with_a_bad_number() {
    assert_eq!(read_grid("ax2".to_string()), Err(GridError::Number));
    assert_eq!(read_grid("4x".to_string()), Err(GridError::Number));
    assert_eq!(read_grid("x4".to_string()), Err(GridError::Number));
    assert_eq!(read_grid("-1x4".to_string()), Err(GridError::Number));
    assert_eq!(read_grid("+x4".to_string()), Err(GridError::Number));
    assert_eq!(read_grid(" 4x4".to_string()), Err(GridError::Number));
    assert_eq!(read_grid("4294967296x1".to_string()), Err(GridError::Number));
    assert_eq!(parse_grid_bytes(b"2x99999999999999999999"), Err(GridError::Number));
}

#[test]
fn crops_a_rectangle() {
    let img = luma(4, 3, (0..12).collect());
    let c = img.crop(1, 1, 2, 2);
    assert_eq!((c.width, c.height, c.format), (2, 2, PixelFormat::Luma));
    assert_eq!(c.data, vec![5, 6, 9, 10]);
    let empty = img.crop(4, 0, 0, 3);
    assert_eq!((empty.width, empty.height), (0, 3));
    assert!(empty.data.is_empty());
}

#[test]
fn copies_into_place_and_refuses_to_overflow() {
    let mut canvas = luma(3, 2, vec![0; 6]);
    let src = luma(2, 1, vec![8, 9]);
    assert_eq!(canvas.copy_from(&src, 1, 1), Ok(()));
    assert_eq!(canvas.data, vec![0, 0, 0, 0, 8, 9]);
    assert_eq!(canvas.copy_from(&src, 2, 0), Err(PlacementError::OutOfBounds));
    assert_eq!(canvas.copy_from(&src, 0, 2), Err(PlacementError::OutOfBounds));
    assert_eq!(canvas.data, vec![0, 0, 0, 0, 8, 9]);
}

#[test]
fn builds_rasters() {
    assert!(Raster::from_raw(2, 2, PixelFormat::Rgb, vec![0; 11]).is_none());
    let blank = Raster::new_blank(3, 2, PixelFormat::LumaAlpha).unwrap();
    assert_eq!(blank.data, vec![0; 12]);
    assert!(Raster::new_blank(u32::MAX, u32::MAX, PixelFormat::Rgba).is_none());
}

#[test]
fn splits_into_row_major_cells() {
    let img = luma(4, 4, (0..16).collect());
    let cells = split_images(&img, (2, 2));
    assert_eq!(cells.len(), 4);
    assert_eq!(cells[0].data, vec![0, 1, 4, 5]);
    assert_eq!(cells[1].data, vec![2, 3, 6, 7]);
    assert_eq!(cells[2].data, vec![8, 9, 12, 13]);
    assert_eq!(cells[3].data, vec![10, 11, 14, 15]);
}

#[test]
fn splitting_leaves_an_uneven_strip_unsliced() {
    let img = luma(5, 5, (0..25).collect());
    let cells = split_images(&img, (2, 2));
    assert_eq!(cells.len(), 4);
    for c in &cells {
        assert_eq!((c.width, c.height), (2, 2));
    }
    assert_eq!(cells[1].data, vec![2, 3, 7, 8]);
    assert_eq!(cells[3].data, vec![12, 13, 17, 18]);
}

#[test]
fn splitting_tolerates_empty_cells() {
    let img = luma(2, 1, vec![1, 2]);
    let cells = split_images(&img, (3, 2));
    assert_eq!(cells.len(), 6);
    for c in &cells {
        assert_eq!((c.width, c.height), (0, 0));
        assert!(c.data.is_empty());
    }
}

#[test]
fn unfilled_cells_keep_the_canvas() {
    let mut canvas = luma(4, 2, vec![7; 8]);
    let cell = luma(2, 2, vec![1, 2, 3, 4]);
    fill_images(&mut canvas, vec![cell], (2, 1));
    assert_eq!(canvas.data, vec![1, 2, 7, 7, 3, 4, 7, 7]);
}

#[test]
fn extra_images_are_not_placed() {
    let mut canvas = luma(2, 1, vec![0; 2]);
    let cells = vec![luma(1, 1, vec![5]), luma(1, 1, vec![6]), luma(1, 1, vec![9])];
    fill_images(&mut canvas, cells, (2, 1));
    assert_eq!(canvas.data, vec![5, 6]);
}

#[test]
fn single_cell_round_trip() {
    let img = counting(3, 2, PixelFormat::Rgba);
    let cells = split_images(&img, (1, 1));
    let mut canvas = Raster::new_blank(3, 2, PixelFormat::Rgba).unwrap();
    fill_images(&mut canvas, cells, (1, 1));
    assert_eq!(canvas.data, img.data);
}

#[test]
fn resizes_cells_to_the_output_cell() {
    let img = luma(2, 2, vec![200; 4]);
    let plan = Plan { input_grid: (1, 1), output_grid: (1, 1), output_size: Some((4, 4)) };
    let out = regrid(&img, &plan).unwrap();
    assert_eq!((out.width, out.height), (4, 4));
    assert_eq!(out.data, vec![200; 16]);
}

#[test]
fn scenario_same_grid_keeps_the_image() {
    let img = counting(64, 64, PixelFormat::Rgb);
    let plan = parse_request("2x2".to_string(), "2x2".to_string(), None).unwrap();
    let out = regrid(&img, &plan).unwrap();
    assert_eq!((out.width, out.height, out.format), (64, 64, PixelFormat::Rgb));
    assert_eq!(out.data, img.data);
}

#[test]
fn scenario_one_cell_onto_a_wider_sheet() {
    let img = counting(32, 32, PixelFormat::Rgba);
    let plan =
        parse_request("1x1".to_string(), "4x1".to_string(), Some("128x32".to_string())).unwrap();
    let out = regrid(&img, &plan).unwrap();
    assert_eq!((out.width, out.height), (128, 32));
    let row = 128 * 4;
    for y in 0..32usize {
        let line = &out.data[y * row..(y + 1) * row];
        assert_eq!(&line[..32 * 4], &img.data[y * 32 * 4..(y + 1) * 32 * 4]);
        assert!(line[32 * 4..].iter().all(|b| *b == 0));
    }
}

#[test]
fn scenario_output_grid_too_small() {
    let r = parse_request("3x3".to_string(), "2x2".to_string(), None);
    assert_eq!(r.unwrap_err(), RegridError::OutputGridTooSmall);
    assert_eq!(RegridError::OutputGridTooSmall.message(), "Output grid is too small");
}

#[test]
fn request_errors() {
    let e = parse_request("2x2".to_string(), "bad".to_string(), None).unwrap_err();
    assert_eq!(e, RegridError::Grid(GridError::Separator));
    let e = parse_request("2x2".to_string(), "2x2".to_string(), Some("1xq".to_string())).unwrap_err();
    assert_eq!(e, RegridError::Grid(GridError::Number));
    let e = parse_request("0x2".to_string(), "1x1".to_string(), None).unwrap_err();
    assert_eq!(e, RegridError::EmptyGrid);
    let plan = parse_request("2x1".to_string(), "1x2".to_string(), Some("8x8".to_string())).unwrap();
    assert_eq!((plan.input_grid, plan.output_grid, plan.output_size), ((2, 1), (1, 2), Some((8, 8))));
}

#[test]
fn too_large_a_canvas_is_refused() {
    let img = Raster::from_raw(1, 1, PixelFormat::Rgba, vec![3; 4]).unwrap();
    let plan = Plan { input_grid: (1, 1), output_grid: (1, 1), output_size: Some((u32::MAX, u32::MAX)) };
    assert_eq!(regrid(&img, &plan).unwrap_err(), RegridError::TooLarge);
}

#[test]
fn places_cells_of_the_cell_size() {
    let mut canvas = luma(4, 2, vec![9; 8]);
    let cells = vec![luma(2, 1, vec![1, 2]), luma(2, 1, vec![3, 4]), luma(2, 1, vec![5, 6])];
    place_cells(&mut canvas, cells, (2, 2));
    assert_eq!(canvas.data, vec![1, 2, 3, 4, 5, 6, 9, 9]);
}

#[test]
fn messages_name_the_failure() {
    assert_eq!(RegridError::TooLarge.message(), "Output image is too large");
    assert_eq!(RegridError::Grid(GridError::Number).message(), "Grid size is not a valid number");
}

#[test]
fn rejects_non_ascii_separators_and_digits() {
    assert_eq!(read_grid("4×2".to_string()), Err(GridError::Separator));
    assert_eq!(read_grid("４x2".to_string()), Err(GridError::Number));
    assert_eq!(read_grid("éxéx".to_string()), Err(GridError::Separator));
}

#[test]
fn even_split_covers_the_image() {
    let img = counting(6, 4, PixelFormat::Rgb);
    let cells = split_images(&img, (3, 2));
    let (cw, ch) = (2usize, 2usize);
    let row_len = 6 * 3;
    let cell_row = cw * 3;
    for r in 0..4usize {
        for k in 0..row_len {
            let cell = &cells[(r / ch) * 3 + k / cell_row];
            assert_eq!(img.data[r * row_len + k], cell.data[(r % ch) * cell_row + k % cell_row]);
        }
    }
}
