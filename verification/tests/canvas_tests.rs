use piet::canvas::{Canvas, CanvasError, Codel, PictureFormat};
use piet::palette::{rgba, PietColour};
use piet::palette::PietColour::{
    Black, Blue, Cyan, DarkBlue, DarkCyan, DarkGreen, DarkMagenta, DarkRed, DarkYellow, Green, LightBlue, LightCyan,
    LightGreen, LightMagenta, LightRed, LightYellow, Magenta, Red, White, Yellow,
};

const ALL_COLOURS: [PietColour; 20] = [
    PietColour::White,
    PietColour::Black,
    PietColour::LightRed,
    PietColour::Red,
    PietColour::DarkRed,
    PietColour::LightYellow,
    PietColour::Yellow,
    PietColour::DarkYellow,
    PietColour::LightGreen,
    PietColour::Green,
    PietColour::DarkGreen,
    PietColour::LightCyan,
    PietColour::Cyan,
    PietColour::DarkCyan,
    PietColour::LightBlue,
    PietColour::Blue,
    PietColour::DarkBlue,
    PietColour::LightMagenta,
    PietColour::Magenta,
    PietColour::DarkMagenta,
];

/// The RGBA pixels, row by row, of an image whose codels of `size` pixels
/// have the colours `rows`.
fn pixels_of(rows: &[Vec<PietColour>], size: usize) -> Vec<u8> {
    let mut pixels: Vec<u8> = Vec::new();
    for row in rows {
        for _ in 0..size {
            for colour in row {
                for _ in 0..size {
                    pixels.extend_from_slice(&rgba(*colour));
                }
            }
        }
    }
    pixels
}

/// The bytes of a PNG file of an image whose codels of `size` pixels have
/// the colours `rows`.
fn png_of(rows: &[Vec<PietColour>], size: usize) -> Vec<u8> {
    let width = (rows[0].len() * size) as u32;
    let height = (rows.len() * size) as u32;
    let img = image::RgbaImage::from_raw(width, height, pixels_of(rows, size)).expect("pixels fit");
    let mut bytes: Vec<u8> = Vec::new();
    img.write_to(&mut std::io::Cursor::new(&mut bytes), image::ImageFormat::Png).expect("encodes");
    bytes
}

fn canvas_of(rows: &[Vec<PietColour>]) -> Canvas {
    let pixels = pixels_of(rows, 1);
    Canvas::from_rgba(rows[0].len() as u32, rows.len() as u32, &pixels, 1).expect("Failed to build canvas")
}

fn black_10x10() -> Vec<u8> {
    png_of(&[vec![PietColour::Black]], 10)
}

#[test]
fn image_loads() {
    let codel_size = 10;
    let canvas = Canvas::new(&black_10x10(), PictureFormat::Png, codel_size);
    assert!(matches!(canvas, Ok(_)))
}

#[test]
fn error_on_malformed_filepath() {
    let error = Canvas::new("not a filepath".as_bytes(), PictureFormat::Png, 1);
    assert!(matches!(error, Err(_)))
}

#[test]
fn error_on_wrong_codel_size() {
    let error = Canvas::new(&black_10x10(), PictureFormat::Png, 3);
    assert!(matches!(error, Err(_)))
}

#[test]
fn uses_codel_size() {
    let image = black_10x10();
    let canvas_1x1 = Canvas::new(&image, PictureFormat::Png, 10).expect("Failed to load canvas");
    let canvas_10x10 = Canvas::new(&image, PictureFormat::Png, 1).expect("Failed to load canvas");
    assert_eq!((1, 1), canvas_1x1.dimensions());
    assert_eq!((10, 10), canvas_10x10.dimensions());
}

#[test]
fn reads_palette() {
    let image = png_of(
        &[
            vec![LightRed, LightYellow, LightGreen, LightCyan, LightBlue, LightMagenta, White],
            vec![Red, Yellow, Green, Cyan, Blue, Magenta, Black],
            vec![DarkRed, DarkYellow, DarkGreen, DarkCyan, DarkBlue, DarkMagenta, White],
        ],
        1,
    );
    let canvas = Canvas::new(&image, PictureFormat::Png, 1).expect("Failed to load canvas");
    assert!(canvas.is_colour((0, 0), PietColour::LightRed));
    assert!(canvas.is_colour((0, 1), PietColour::Red));
    assert!(canvas.is_colour((0, 2), PietColour::DarkRed));
    assert!(canvas.is_colour((1, 0), PietColour::LightYellow));
    assert!(canvas.is_colour((1, 1), PietColour::Yellow));
    assert!(canvas.is_colour((1, 2), PietColour::DarkYellow));
    assert!(canvas.is_colour((2, 0), PietColour::LightGreen));
    assert!(canvas.is_colour((2, 1), PietColour::Green));
    assert!(canvas.is_colour((2, 2), PietColour::DarkGreen));
    assert!(canvas.is_colour((3, 0), PietColour::LightCyan));
    assert!(canvas.is_colour((3, 1), PietColour::Cyan));
    assert!(canvas.is_colour((3, 2), PietColour::DarkCyan));
    assert!(canvas.is_colour((4, 0), PietColour::LightBlue));
    assert!(canvas.is_colour((4, 1), PietColour::Blue));
    assert!(canvas.is_colour((4, 2), PietColour::DarkBlue));
    assert!(canvas.is_colour((5, 0), PietColour::LightMagenta));
    assert!(canvas.is_colour((5, 1), PietColour::Magenta));
    assert!(canvas.is_colour((5, 2), PietColour::DarkMagenta));
    assert!(canvas.is_colour((6, 0), PietColour::White));
    assert!(canvas.is_colour((6, 1), PietColour::Black));
    assert!(!canvas.is_colour((6, 2), PietColour::Black));
}

#[test]
fn wrong_codel_size_is_a_size_error() {
    let pixels = pixels_of(&[vec![PietColour::Red, PietColour::Red, PietColour::Red]], 1);
    let result = Canvas::from_rgba(3, 1, &pixels, 2);
    assert!(matches!(result, Err(CanvasError::CodelSizeMismatch)));
}

#[test]
fn bytes_that_are_no_image_give_a_decoding_error() {
    let result = Canvas::new(&[1u8, 2, 3, 4], PictureFormat::Png, 1);
    assert!(matches!(result, Err(CanvasError::Image(_))));
    assert!(matches!(Canvas::checked_new(&[1u8, 2, 3, 4], PictureFormat::Png, 1), Some(Err(CanvasError::Image(_)))));
}

#[test]
fn checked_new_reads_like_new() {
    let canvas = Canvas::checked_new(&black_10x10(), PictureFormat::Png, 5).expect("readable").expect("loads");
    assert_eq!(canvas.dimensions(), (2, 2));
}

#[test]
fn a_codel_is_read_from_its_north_west_pixel() {
    // One codel of 2x2 pixels: red at its north-west pixel, blue elsewhere.
    let mut pixels: Vec<u8> = Vec::new();
    pixels.extend_from_slice(&rgba(PietColour::Red));
    pixels.extend_from_slice(&rgba(PietColour::Blue));
    pixels.extend_from_slice(&rgba(PietColour::Blue));
    pixels.extend_from_slice(&rgba(PietColour::Blue));
    let canvas = Canvas::from_rgba(2, 2, &pixels, 2).expect("Failed to build canvas");
    assert_eq!(canvas.dimensions(), (1, 1));
    assert!(canvas.is_colour((0, 0), PietColour::Red));
}

#[test]
fn unknown_colours_read_as_black() {
    let pixels: Vec<u8> = vec![12, 34, 56, 255];
    let canvas = Canvas::from_rgba(1, 1, &pixels, 1).expect("Failed to build canvas");
    assert!(canvas.is_colour((0, 0), PietColour::Black));
}

#[test]
fn every_colour_reads_back_from_its_rgba() {
    for colour in ALL_COLOURS {
        assert_eq!(Codel::from_rgba(rgba(colour)).colour_name(), colour);
        assert_eq!(Codel::new(colour).colour_name(), colour);
    }
}

#[test]
fn rgba_values() {
    assert_eq!(rgba(PietColour::LightRed), [255, 192, 192, 255]);
    assert_eq!(rgba(PietColour::DarkBlue), [0, 0, 192, 255]);
    assert_eq!(rgba(PietColour::Black), [0, 0, 0, 255]);
    assert_eq!(rgba(PietColour::White), [255, 255, 255, 255]);
}

#[test]
fn hue_and_lightness_differences() {
    let red = Codel::new(PietColour::Red);
    let yellow = Codel::new(PietColour::Yellow);
    let dark_magenta = Codel::new(PietColour::DarkMagenta);
    let light_red = Codel::new(PietColour::LightRed);
    assert_eq!(red.hue_difference(yellow), Some(1));
    assert_eq!(yellow.hue_difference(red), Some(5));
    assert_eq!(red.hue_difference(dark_magenta), Some(5));
    assert_eq!(light_red.light_difference(red), Some(1));
    assert_eq!(red.light_difference(light_red), Some(2));
    assert_eq!(red.hue_difference(Codel::White), None);
    assert_eq!(Codel::Black.light_difference(red), None);
    assert!(red.is_any_colour());
    assert!(!Codel::White.is_any_colour());
    assert!(red.no_index());
}

#[test]
fn groks_simple_block() {
    let canvas = canvas_of(&[
        vec![Red, Red, Red, Black],
        vec![Red, Red, Red, Blue],
        vec![Red, Red, Red, Blue],
    ]);
    let block = canvas.get_block((1, 1)).expect("Failed to build block");
    assert_eq!(block.size(), 9);
    assert_eq!(block.index(), 0);
    assert_eq!(
        [block.northmost_west(), block.northmost_east(),
        block.eastmost_north(), block.eastmost_south(),
        block.southmost_east(), block.southmost_west(),
        block.westmost_south(), block.westmost_north()],
        [(0, 0), (2, 0), (2, 0), (2, 2), (2, 2), (0, 2), (0, 2), (0, 0)]
    );
    let blue = canvas.get_block((3, 2)).expect("Failed to build block");
    assert_eq!(blue.size(), 2);
    assert_eq!(blue.index(), 1);
    assert_eq!(canvas.blocks().len(), 2);
    assert!(canvas.get_block((3, 0)).is_none());
}

#[test]
fn groks_complex_block() {
    // A U of green around a black hole, with a tail to the east.
    let canvas = canvas_of(&[
        vec![Green, Black, Green, White],
        vec![Green, Black, Green, Green],
        vec![Green, Green, Green, White],
    ]);
    let block = canvas.get_block((0, 0)).expect("Failed to build block");
    assert_eq!(block.size(), 8);
    assert_eq!(block.index(), 0);
    assert_eq!(
        [block.northmost_west(), block.northmost_east(),
        block.eastmost_north(), block.eastmost_south(),
        block.southmost_east(), block.southmost_west(),
        block.westmost_south(), block.westmost_north()],
        [(0, 0), (2, 0), (3, 1), (3, 1), (2, 2), (0, 2), (0, 2), (0, 0)]
    );
    assert_eq!(canvas.get_block((3, 1)).map(|b| b.index()), Some(0));
}

#[test]
fn blocks_are_numbered_column_by_column() {
    let canvas = canvas_of(&[
        vec![Red, Blue, Red],
        vec![Green, Blue, Yellow],
    ]);
    let indices: Vec<Option<usize>> = [(0, 0), (0, 1), (1, 0), (1, 1), (2, 0), (2, 1)]
        .iter()
        .map(|c| canvas.get_block(*c).map(|b| b.index()))
        .collect();
    assert_eq!(indices, vec![Some(0), Some(1), Some(2), Some(2), Some(3), Some(4)]);
    assert_eq!(canvas.get_block((1, 0)).map(|b| b.size()), Some(2));
}

#[test]
fn boundaries() {
    let canvas = canvas_of(&[vec![PietColour::Red, PietColour::Red], vec![PietColour::Red, PietColour::Red]]);
    assert!(canvas.is_northmost((1, 0)));
    assert!(!canvas.is_northmost((1, 1)));
    assert!(canvas.is_eastmost((1, 0)));
    assert!(!canvas.is_eastmost((0, 0)));
    assert!(canvas.is_southmost((0, 1)));
    assert!(canvas.is_westmost((0, 1)));
    assert!(matches!(canvas.get_codel((1, 1)), Codel::Colour(_)));
}

/// Adjacent codels of one colour share a block, on every image of 4x3 codels
/// in red and black.
#[test]
fn small_images_have_maximal_blocks() {
    let (w, h) = (4usize, 3usize);
    for mask in 0u32..(1u32 << (w * h)) {
        let rows: Vec<Vec<PietColour>> = (0..h)
            .map(|y| (0..w).map(|x| if mask & (1 << (y * w + x)) != 0 { PietColour::Red } else { PietColour::Black }).collect())
            .collect();
        let canvas = canvas_of(&rows);
        for x in 0..w {
            for y in 0..h {
                if rows[y][x] != PietColour::Red {
                    continue;
                }
                let block = canvas.get_block((x, y)).map(|b| b.index());
                assert!(block.is_some());
                for (nx, ny) in [(x + 1, y), (x, y + 1)] {
                    if nx < w && ny < h && rows[ny][nx] == PietColour::Red {
                        assert_eq!(canvas.get_block((nx, ny)).map(|b| b.index()), block, "image {mask}");
                    }
                }
            }
        }
    }
}

#[test]
fn image_decodes_in_the_format_given() {
    let png = black_10x10();
    assert!(matches!(Canvas::new(&png, PictureFormat::Png, 10), Ok(_)));
    assert!(matches!(Canvas::new(&png, PictureFormat::Bmp, 10), Err(CanvasError::Image(_))));
    assert!(matches!(Canvas::checked_new(&png, PictureFormat::Gif, 10), Some(Err(CanvasError::Image(_)))));
}

#[test]
fn a_region_the_scan_line_fill_leaves_unfinished_is_one_block() {
    // The scan-line fill from the north-west codel does not reach the red
    // codel at (2, 1); the search that completes each block gives it to the
    // same block as the other red codels.
    let rows: Vec<Vec<PietColour>> = ["RRRRR", "RKRKR", "RRKKR", "KRRRR", "KKRKK"]
        .iter()
        .map(|r| r.chars().map(|ch| if ch == 'R' { PietColour::Red } else { PietColour::Black }).collect())
        .collect();
    let canvas = canvas_of(&rows);
    assert_eq!(canvas.blocks().len(), 1);
    let block = canvas.get_block((0, 0)).expect("red codels have a block");
    assert_eq!(block.size(), 16);
    for (y, row) in rows.iter().enumerate() {
        for (x, colour) in row.iter().enumerate() {
            if *colour == PietColour::Red {
                assert_eq!(canvas.get_block((x, y)).map(|b| b.index()), Some(0));
            }
        }
    }
}

#[test]
fn a_block_is_numbered_by_its_first_codel() {
    let rows = vec![
        vec![PietColour::Red, PietColour::Green, PietColour::Blue],
        vec![PietColour::Green, PietColour::Green, PietColour::Red],
    ];
    let canvas = canvas_of(&rows);
    let index = |c: (usize, usize)| canvas.get_block(c).map(|b| b.index());
    assert_eq!(index((0, 0)), Some(0));
    assert_eq!(index((0, 1)), Some(1));
    assert_eq!(index((1, 0)), Some(1));
    assert_eq!(index((1, 1)), Some(1));
    assert_eq!(index((2, 0)), Some(2));
    assert_eq!(index((2, 1)), Some(3));
    assert_eq!(canvas.blocks().len(), 4);
}

#[test]
fn a_codel_is_coloured_exactly_when_neither_white_nor_black() {
    for colour in [PietColour::White, PietColour::Black, PietColour::LightRed, PietColour::DarkMagenta, PietColour::Cyan] {
        let codel = Codel::new(colour);
        assert_eq!(codel.colour_name(), colour);
        assert_eq!(codel.is_any_colour(), colour != PietColour::White && colour != PietColour::Black);
    }
}
