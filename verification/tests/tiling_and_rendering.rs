use qr_tiles::pattern::{write_alignment_blocks, write_position_blocks};
use qr_tiles::raster::Canvas;
use qr_tiles::render::{
    canvas_possible, encode, is_square, render, render_matrix, tile_matrix, RenderError, Tiler,
};
use qr_tiles::tiler::{BaseTiler, BouncyTiler, Tilers, SPRITE_SIZE};

const BLACK: (u8, u8, u8, u8) = (0, 0, 0, 255);
const WHITE: (u8, u8, u8, u8) = (255, 255, 255, 255);

fn sheet() -> Canvas {
    let mut s = Canvas::blank(128, 32).unwrap();
    for x in 0..128u32 {
        for y in 0..32u32 {
            assert!(s.set_pixel(x, y, (x as u8, y as u8, (x / 32) as u8, 255)));
        }
    }
    s
}

fn frame_pixel(bounce: bool, value: bool, dx: u32, dy: u32) -> (u8, u8, u8, u8) {
    let x0 = (if bounce { 64 } else { 0 }) + (if value { 32 } else { 0 });
    ((x0 + dx) as u8, dy as u8, (x0 / 32) as u8, 255)
}

fn finder_dark(mx: u32, my: u32) -> bool {
    let ring = mx == 0 || my == 0 || mx == 6 || my == 6;
    let core = (2..5).contains(&mx) && (2..5).contains(&my);
    ring || core
}

fn same_pixels(a: &Canvas, b: &Canvas) -> bool {
    if (a.width(), a.height()) != (b.width(), b.height()) {
        return false;
    }
    for x in 0..a.width() {
        for y in 0..a.height() {
            if a.pixel(x, y) != b.pixel(x, y) {
                return false;
            }
        }
    }
    true
}

#[test]
fn style_names() {
    assert_eq!(Tilers::Base.to_string(), "base");
    assert_eq!(Tilers::Bouncy.to_string(), "bounce");
}

#[test]
fn base_tiler_canvas_has_the_exact_size() {
    let t = BaseTiler::new(5, 21);
    assert_eq!((t.image.width(), t.image.height()), (105, 105));
    assert_eq!(t.block_size, 5);
    assert_eq!(t.image.pixel(0, 0), Some((0, 0, 0, 0)));
    let e = BaseTiler::new(7, 0);
    assert_eq!((e.image.width(), e.image.height()), (0, 0));
}

#[test]
fn base_tile_paints_one_block() {
    let bs = 4u32;
    let mut t = BaseTiler::new(bs, 3);
    t.tile(1, 2, true);
    t.tile(2, 0, false);
    let image = t.finalize();
    for x in 0..12u32 {
        for y in 0..12u32 {
            let want = if (x / bs, y / bs) == (1, 2) {
                BLACK
            } else if (x / bs, y / bs) == (2, 0) {
                WHITE
            } else {
                (0, 0, 0, 0)
            };
            assert_eq!(image.pixel(x, y), Some(want), "at {:?}", (x, y));
        }
    }
    assert_eq!(image.pixel(4, 8), Some(BLACK));
    assert_eq!(image.pixel(3, 8), Some((0, 0, 0, 0)));
}

#[test]
fn base_finalize_is_a_copy() {
    let mut t = BaseTiler::new(2, 2);
    let first = t.finalize();
    t.tile(0, 0, true);
    assert_eq!(first.pixel(0, 0), Some((0, 0, 0, 0)));
    assert_eq!(t.finalize().pixel(0, 0), Some(BLACK));
}

#[test]
fn bouncy_tiler_starts_low_and_toggles() {
    let mut t = BouncyTiler::new(3, sheet());
    assert_eq!(t.block_size, 32);
    assert_eq!(SPRITE_SIZE, 32);
    assert_eq!((t.image.width(), t.image.height()), (96, 96));
    assert!(!t.bounce);
    let values = [true, true, false, false, true, false, true, true, false];
    for k in 0..9u32 {
        assert_eq!(t.bounce, k % 2 == 1);
        t.tile(k % 3, k / 3, values[k as usize]);
    }
    assert_eq!(t.bounce, true);
    let image = t.finalize();
    for x in 0..96u32 {
        for y in 0..96u32 {
            let k = (y / 32) * 3 + x / 32;
            let want = frame_pixel(k % 2 == 1, values[k as usize], x % 32, y % 32);
            assert_eq!(image.pixel(x, y), Some(want), "at {:?}", (x, y));
        }
    }
}

#[test]
fn bouncy_frames_by_phase_and_value() {
    let mut t = BouncyTiler::new(2, sheet());
    t.tile(0, 0, false);
    t.tile(1, 0, false);
    t.tile(0, 1, true);
    t.tile(1, 1, true);
    assert_eq!(t.image.pixel(0, 0), Some((0, 0, 0, 255)));
    assert_eq!(t.image.pixel(32, 0), Some((64, 0, 2, 255)));
    assert_eq!(t.image.pixel(0, 32), Some((32, 0, 1, 255)));
    assert_eq!(t.image.pixel(32, 32), Some((96, 0, 3, 255)));
    assert_eq!(t.image.pixel(63, 63), Some((127, 31, 3, 255)));
}

#[test]
fn tile_matrix_draws_rows_from_the_top() {
    let matrix = vec![vec![true, false], vec![false, false]];
    let mut tiler = Tiler::Base(BaseTiler::new(2, 2));
    tile_matrix(&mut tiler, &matrix);
    let image = tiler.finalize();
    assert_eq!(image.pixel(0, 0), Some(BLACK));
    assert_eq!(image.pixel(1, 1), Some(BLACK));
    assert_eq!(image.pixel(2, 0), Some(WHITE));
    assert_eq!(image.pixel(0, 2), Some(WHITE));
    assert_eq!(image.pixel(3, 3), Some(WHITE));
}

#[test]
fn tile_matrix_leaves_the_phase_at_the_parity_of_the_count() {
    let odd = vec![vec![true, false, true], vec![false, true, false], vec![true, true, true]];
    let mut tiler = Tiler::Bouncy(BouncyTiler::new(3, sheet()));
    tile_matrix(&mut tiler, &odd);
    match &tiler {
        Tiler::Bouncy(t) => assert!(t.bounce),
        Tiler::Base(_) => unreachable!(),
    }
    let image = tiler.finalize();
    assert_eq!(image.pixel(32, 0), Some(frame_pixel(true, false, 0, 0)));
    assert_eq!(image.pixel(0, 32), Some(frame_pixel(true, false, 0, 0)));
    assert_eq!(image.pixel(33, 34), Some(frame_pixel(false, true, 1, 2)));
    let even = vec![vec![true, false], vec![false, true]];
    let mut tiler = Tiler::Bouncy(BouncyTiler::new(2, sheet()));
    tile_matrix(&mut tiler, &even);
    match &tiler {
        Tiler::Bouncy(t) => assert!(!t.bounce),
        Tiler::Base(_) => unreachable!(),
    }
}

#[test]
fn square_matrices() {
    assert!(!is_square(&Vec::new()));
    assert!(is_square(&vec![vec![true]]));
    assert!(!is_square(&vec![vec![true, false]]));
    assert!(!is_square(&vec![vec![true, false], vec![true]]));
    assert!(is_square(&vec![vec![true, false], vec![true, true]]));
}

#[test]
fn canvas_sizes() {
    assert!(canvas_possible(21, 32));
    assert!(canvas_possible(0, u32::MAX));
    assert!(!canvas_possible(2, u32::MAX));
    assert!(!canvas_possible(u32::MAX, u32::MAX));
}

#[test]
fn render_refuses_bad_matrices() {
    let empty: Vec<Vec<bool>> = Vec::new();
    assert_eq!(render_matrix(&empty, Tilers::Base, 4, None).err(), Some(RenderError::GeometryPrecondition));
    let ragged = vec![vec![true, false], vec![true]];
    assert_eq!(render_matrix(&ragged, Tilers::Base, 4, None).err(), Some(RenderError::GeometryPrecondition));
    assert_eq!(
        render_matrix(&ragged, Tilers::Bouncy, 4, Some(sheet())).err(),
        Some(RenderError::GeometryPrecondition)
    );
    let one = vec![vec![true]];
    assert_eq!(
        render_matrix(&one, Tilers::Base, u32::MAX, None).err(),
        Some(RenderError::GeometryPrecondition)
    );
    assert_eq!(
        render_matrix(&one, Tilers::Bouncy, 32, Some(sheet())).err(),
        Some(RenderError::GeometryPrecondition)
    );
}

#[test]
fn render_needs_a_sheet_for_the_sprite_style() {
    let one = vec![vec![true]];
    assert_eq!(render_matrix(&one, Tilers::Bouncy, 32, None).err(), Some(RenderError::AssetLoadFailure));
    let small = Canvas::blank(127, 32).unwrap();
    assert_eq!(
        render_matrix(&one, Tilers::Bouncy, 32, Some(small)).err(),
        Some(RenderError::AssetLoadFailure)
    );
    let low = Canvas::blank(128, 31).unwrap();
    assert_eq!(
        render_matrix(&one, Tilers::Bouncy, 32, Some(low)).err(),
        Some(RenderError::AssetLoadFailure)
    );
}

#[test]
fn flat_render_of_a_small_matrix() {
    let matrix = vec![vec![true, false, true], vec![false, false, true], vec![true, true, false]];
    let image = render_matrix(&matrix, Tilers::Base, 3, None).unwrap();
    assert_eq!((image.width(), image.height()), (9, 9));
    for x in 0..9u32 {
        for y in 0..9u32 {
            let dark = matrix[(y / 3) as usize][(x / 3) as usize];
            assert_eq!(image.pixel(x, y), Some(if dark { BLACK } else { WHITE }));
        }
    }
}

#[test]
fn flat_render_ignores_the_sheet_and_block_zero_is_empty() {
    let matrix = vec![vec![true]];
    let image = render_matrix(&matrix, Tilers::Base, 2, Some(sheet())).unwrap();
    assert_eq!(image.pixel(1, 1), Some(BLACK));
    let empty = render_matrix(&matrix, Tilers::Base, 0, None).unwrap();
    assert_eq!((empty.width(), empty.height()), (0, 0));
}

#[test]
fn encode_gives_a_square_matrix() {
    let matrix = encode("Lucas").unwrap();
    assert_eq!(matrix.len(), 21);
    assert!(is_square(&matrix));
    for mx in 0..7u32 {
        for my in 0..7u32 {
            assert_eq!(matrix[my as usize][mx as usize], finder_dark(mx, my));
            assert_eq!(matrix[my as usize][14 + mx as usize], finder_dark(mx, my));
            assert_eq!(matrix[14 + my as usize][mx as usize], finder_dark(mx, my));
        }
    }
    assert_ne!(encode("Lucas").unwrap(), encode("lucas").unwrap());
}

#[test]
fn encode_refuses_long_content() {
    let long = "x".repeat(5000);
    assert_eq!(encode(&long).err(), Some(RenderError::EncodingCapacityExceeded));
    assert_eq!(render(&long, Tilers::Base, 1, None).err(), Some(RenderError::EncodingCapacityExceeded));
}

#[test]
fn lucas_flat_at_block_size_32() {
    let matrix = encode("Lucas").unwrap();
    let image = render("Lucas", Tilers::Base, 32, None).unwrap();
    assert_eq!(image.width(), image.height());
    assert_eq!(image.width(), 21 * 32);
    for x in 0..image.width() {
        for y in 0..image.height() {
            let dark = matrix[(y / 32) as usize][(x / 32) as usize];
            assert_eq!(image.pixel(x, y), Some(if dark { BLACK } else { WHITE }));
        }
    }
}

#[test]
fn stamping_leaves_a_flat_symbol_as_it_is() {
    let content = "a longer text, so that the symbol has an alignment marker";
    let image = render(content, Tilers::Base, 2, None).unwrap();
    assert!(image.width() / 2 >= 25);
    let mut stamped = image.duplicate();
    write_position_blocks(&mut stamped, 2);
    write_alignment_blocks(&mut stamped, 2);
    assert!(same_pixels(&image, &stamped));
}

#[test]
fn lucas_in_sprites_has_crisp_finders() {
    let matrix = encode("Lucas").unwrap();
    let image = render("Lucas", Tilers::Bouncy, 7, Some(sheet())).unwrap();
    assert_eq!((image.width(), image.height()), (21 * 32, 21 * 32));
    for x in 0..image.width() {
        for y in 0..image.height() {
            let (mx, my) = (x / 32, y / 32);
            let in_finder = (mx < 7 && my < 7) || (mx >= 14 && my < 7) || (mx < 7 && my >= 14);
            let want = if in_finder {
                if matrix[my as usize][mx as usize] { BLACK } else { WHITE }
            } else {
                let k = my * 21 + mx;
                frame_pixel(k % 2 == 1, matrix[my as usize][mx as usize], x % 32, y % 32)
            };
            assert_eq!(image.pixel(x, y), Some(want), "at {:?}", (x, y));
        }
    }
}

#[test]
fn rendering_twice_gives_the_same_picture() {
    let a = render("Lucas", Tilers::Bouncy, 32, Some(sheet())).unwrap();
    let b = render("Lucas", Tilers::Bouncy, 32, Some(sheet())).unwrap();
    assert!(same_pixels(&a, &b));
}

#[test]
fn sprites_with_an_alignment_marker() {
    let content = "a longer text, so that the symbol has an alignment marker";
    let matrix = encode(content).unwrap();
    let n = matrix.len() as u32;
    let image = render(content, Tilers::Bouncy, 32, Some(sheet())).unwrap();
    assert_eq!(image.width(), n * 32);
    let flat = render(content, Tilers::Base, 32, None).unwrap();
    let c = n - 7;
    for x in (c - 2) * 32..(c + 3) * 32 {
        for y in (c - 2) * 32..(c + 3) * 32 {
            assert_eq!(image.pixel(x, y), flat.pixel(x, y));
        }
    }
    assert_eq!(image.pixel(c * 32, c * 32), Some(BLACK));
    assert_eq!(image.pixel((c - 3) * 32, c * 32).unwrap().3, 255);
    assert_ne!(image.pixel((c - 3) * 32, c * 32), flat.pixel((c - 3) * 32, c * 32));
}
