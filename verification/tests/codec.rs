use runemat::color::pick_color;
use runemat::grid::{load_image_grid, read_image_grid};
use runemat::mat::{Mat, MatError};
use runemat::raster::{ix2d, Raster, Rgb};
use runemat::spiral::spiral_walker;

/// A 16x16 font whose glyph for byte `v` carries `v` in the eight corner
/// sample pixels, has ink at the cell center and background at (1, 2).
fn test_font() -> Vec<Rgb> {
    let mut font: Vec<Rgb> = Vec::new();
    for v in 0..256usize {
        for py in 0..16usize {
            for px in 0..16usize {
                let ink = (px == 8 && py == 8)
                    || (px == 1 && py == 0 && (v >> 4) & 1 == 1)
                    || (px == 1 && py == 1 && (v >> 5) & 1 == 1)
                    || (px == 1 && py == 14 && (v >> 6) & 1 == 1)
                    || (px == 1 && py == 15 && (v >> 7) & 1 == 1)
                    || (px == 14 && py == 0 && v & 1 == 1)
                    || (px == 14 && py == 1 && (v >> 1) & 1 == 1)
                    || (px == 14 && py == 14 && (v >> 2) & 1 == 1)
                    || (px == 14 && py == 15 && (v >> 3) & 1 == 1);
                if ink {
                    font.push((0xff, 0xff, 0xff));
                } else {
                    font.push((0, 0, 0));
                }
            }
        }
    }
    font
}

#[test]
fn spiral_dim3_is_the_fixed_clockwise_inward_order() {
    let path = spiral_walker(3);
    let expected: Vec<(u32, u32)> = vec![
        (2, 0),
        (1, 0),
        (0, 0),
        (0, 1),
        (0, 2),
        (1, 2),
        (2, 2),
        (2, 1),
        (1, 1),
    ];
    assert_eq!(path, expected);
}

#[test]
fn spiral_small_dims() {
    assert_eq!(spiral_walker(0), Vec::<(u32, u32)>::new());
    assert_eq!(spiral_walker(1), vec![(0, 0)]);
    assert_eq!(spiral_walker(2), vec![(1, 0), (0, 0), (0, 1), (1, 1)]);
}

#[test]
fn spiral_dim4_visits_every_cell_once() {
    let path = spiral_walker(4);
    assert_eq!(path.len(), 16);
    for col in 0..4u32 {
        for row in 0..4u32 {
            assert_eq!(path.iter().filter(|p| **p == (col, row)).count(), 1);
        }
    }
}

#[test]
fn pick_color_of_empty_input_is_black() {
    assert_eq!(pick_color(&[]), (0, 0, 0));
}

#[test]
fn pick_color_is_deterministic() {
    let a = pick_color(b"hello");
    let b = pick_color(b"hello");
    assert_eq!(a, b);
}

#[test]
fn pick_color_of_hello_matches_sha256() {
    // SHA-256("hello") starts 2cf24d...
    assert_eq!(pick_color(b"hello"), (0x2c, 0xf2, 0x4d));
}

#[test]
fn distinct_inputs_of_equal_length_get_distinct_colors() {
    assert_ne!(pick_color(b"aaaa"), pick_color(b"bbbb"));
}

#[test]
fn round_trip_perfect_square() {
    let mut mat = Mat::new(test_font(), 16, 16).unwrap();
    mat.input(b"test".to_vec());
    let img = mat.export().unwrap();
    assert_eq!(img.width, 32);
    assert_eq!(img.height, 32);
    let out = mat.decode(&img).unwrap();
    assert_eq!(out, b"test".to_vec());
}

#[test]
fn round_trip_with_padding_keeps_trailing_space() {
    let mut mat = Mat::new(test_font(), 16, 16).unwrap();
    mat.input(b"abc".to_vec());
    let img = mat.export().unwrap();
    let out = mat.decode(&img).unwrap();
    assert_eq!(out, b"abc ".to_vec());
}

#[test]
fn round_trip_single_byte() {
    let mut mat = Mat::new(test_font(), 16, 16).unwrap();
    mat.input(b"x".to_vec());
    let img = mat.export().unwrap();
    assert_eq!(img.width, 16);
    let out = mat.decode(&img).unwrap();
    assert_eq!(out, b"x".to_vec());
}

#[test]
fn round_trip_every_byte_value() {
    let mut mat = Mat::new(test_font(), 16, 16).unwrap();
    let all: Vec<u8> = (0..=255u8).collect();
    mat.input(all.clone());
    let img = mat.export().unwrap();
    let out = mat.decode(&img).unwrap();
    assert_eq!(out, all);
}

#[test]
fn read_restores_layout_and_colors() {
    let mut mat = Mat::new(test_font(), 16, 16).unwrap();
    mat.input(b"test".to_vec());
    let expected_primary = mat.primary;
    let expected_secondary = mat.secondary;
    let img = mat.export().unwrap();

    let mut other = Mat::new(test_font(), 16, 16).unwrap();
    let out = other.read(&img).unwrap();
    assert_eq!(out, b"test".to_vec());
    assert_eq!(other.dim, 2);
    assert_eq!(other.primary, expected_primary);
    assert_eq!(other.secondary, expected_secondary);
}

#[test]
fn export_of_empty_input_is_a_no_op() {
    let mut mat = Mat::new(test_font(), 16, 16).unwrap();
    mat.input(Vec::new());
    assert_eq!(mat.dim, 0);
    assert!(mat.export().is_none());
}

#[test]
fn decode_rejects_width_not_multiple_of_cell() {
    let mat = Mat::new(test_font(), 16, 16).unwrap();
    let img = Raster { width: 17, height: 16, pixels: vec![(0, 0, 0); 17 * 16] };
    assert_eq!(mat.decode(&img), Err(MatError::GeometryMismatch));
}

#[test]
fn decode_rejects_height_not_multiple_of_cell() {
    let mat = Mat::new(test_font(), 16, 16).unwrap();
    let img = Raster { width: 16, height: 15, pixels: vec![(0, 0, 0); 16 * 15] };
    assert_eq!(mat.decode(&img), Err(MatError::GeometryMismatch));
}

#[test]
fn decode_rejects_disagreeing_cell_counts() {
    let mat = Mat::new(test_font(), 16, 16).unwrap();
    let img = Raster { width: 32, height: 16, pixels: vec![(0, 0, 0); 32 * 16] };
    assert_eq!(mat.decode(&img), Err(MatError::GeometryMismatch));
}

#[test]
fn read_leaves_the_mat_unchanged_on_geometry_error() {
    let mut mat = Mat::new(test_font(), 16, 16).unwrap();
    let img = Raster { width: 17, height: 16, pixels: vec![(0, 0, 0); 17 * 16] };
    assert_eq!(mat.read(&img), Err(MatError::GeometryMismatch));
    assert_eq!(mat.dim, 0);
    assert_eq!(mat.primary, (0, 0, 0));
}

#[test]
fn new_rejects_a_short_font() {
    let font = vec![(0u8, 0u8, 0u8); 255 * 16 * 16];
    assert_eq!(
        Mat::new(font, 16, 16).map(|_| ()),
        Err(MatError::IncompleteFont)
    );
}

#[test]
fn input_derives_name_dim_and_colors() {
    let mut mat = Mat::new(test_font(), 16, 16).unwrap();
    mat.input(b"ab c".to_vec());
    assert_eq!(mat.get_name(), b"ab_c.rune".to_vec());
    assert_eq!(mat.dim, 2);
    assert_eq!(mat.get_input(), &b"ab c".to_vec());
    let primary = pick_color(b"ab c");
    assert_eq!(mat.primary, primary);
    assert_eq!(
        mat.secondary,
        (255 - primary.0, 255 - primary.1, 255 - primary.2)
    );
}

#[test]
fn dim_is_ceil_sqrt_of_input_length() {
    let mut mat = Mat::new(test_font(), 16, 16).unwrap();
    mat.input(vec![b'a'; 9]);
    assert_eq!(mat.dim, 3);
    mat.input(vec![b'a'; 10]);
    assert_eq!(mat.dim, 4);
    mat.input(vec![b'a'; 1]);
    assert_eq!(mat.dim, 1);
}

#[test]
fn ix2d_is_row_major() {
    assert_eq!(ix2d(5, 2, 3), 17);
    assert_eq!(ix2d(16, 0, 0), 0);
    assert_eq!(ix2d(16, 15, 1), 31);
}

#[test]
fn load_image_grid_strips_borders_and_walks_in_strides() {
    // An 8x8 sheet of 4x4 tiles with a 1-pixel shared border: 2x2 tiles of
    // 2x2 inner content each.  Pixel (x, y) is marked with y*8+x in red.
    let mut pixels: Vec<Rgb> = Vec::new();
    for y in 0..8u32 {
        for x in 0..8u32 {
            pixels.push(((y * 8 + x) as u8, 0, 0));
        }
    }
    let sheet = Raster { width: 8, height: 8, pixels };
    let grid = load_image_grid(&sheet, 4, 4, 1);
    let reds: Vec<u8> = grid.iter().map(|p| p.0).collect();
    assert_eq!(
        reds,
        vec![9, 10, 17, 18, 12, 13, 20, 21, 33, 34, 41, 42, 36, 37, 44, 45]
    );
}

#[test]
fn read_image_grid_splits_into_cells_and_pads_the_last() {
    let grid: Vec<Rgb> = (0..10u8).map(|i| (i, i, i)).collect();
    let cells = read_image_grid(grid, 2, 2);
    assert_eq!(cells.len(), 3);
    for cell in &cells {
        assert_eq!(cell.width, 2);
        assert_eq!(cell.height, 2);
    }
    assert_eq!(cells[0].pixels, vec![(0, 0, 0), (1, 1, 1), (2, 2, 2), (3, 3, 3)]);
    assert_eq!(cells[2].pixels, vec![(8, 8, 8), (9, 9, 9), (0, 0, 0), (0, 0, 0)]);
}

#[test]
fn exported_mat_background_is_complement_of_primary() {
    let mut mat = Mat::new(test_font(), 16, 16).unwrap();
    mat.input(b"test".to_vec());
    let img = mat.export().unwrap();
    // Pixel (1, 2) of the top-left cell is glyph background.
    let idx = ix2d(img.width, 1, 2);
    assert_eq!(img.pixels[idx], mat.secondary);
    // The center of the top-left cell is glyph ink.
    let idx = ix2d(img.width, 8, 8);
    assert_eq!(img.pixels[idx], mat.primary);
}
