use qr_tiles::pattern::{
    alignment_coord_list, create_alignment_block, create_position_block, markers_fit,
    write_alignment_blocks, write_position_blocks,
};
use qr_tiles::raster::{copy_paste, Canvas};

const BLACK: (u8, u8, u8, u8) = (0, 0, 0, 255);
const WHITE: (u8, u8, u8, u8) = (255, 255, 255, 255);
const GREY: (u8, u8, u8, u8) = (90, 90, 90, 255);

fn finder_dark(mx: u32, my: u32) -> bool {
    let ring = mx == 0 || my == 0 || mx == 6 || my == 6;
    let core = (2..5).contains(&mx) && (2..5).contains(&my);
    ring || core
}

fn alignment_dark(mx: u32, my: u32) -> bool {
    let ring = mx == 0 || my == 0 || mx == 4 || my == 4;
    ring || (mx == 2 && my == 2)
}

fn shade(dark: bool) -> (u8, u8, u8, u8) {
    if dark {
        BLACK
    } else {
        WHITE
    }
}

#[test]
fn blank_canvas_is_transparent() {
    let c = Canvas::blank(3, 2).unwrap();
    assert_eq!(c.width(), 3);
    assert_eq!(c.height(), 2);
    for x in 0..3 {
        for y in 0..2 {
            assert_eq!(c.pixel(x, y), Some((0, 0, 0, 0)));
        }
    }
    assert_eq!(c.pixel(3, 0), None);
    assert_eq!(c.pixel(0, 2), None);
}

#[test]
fn filled_canvas_has_one_colour() {
    let c = Canvas::filled(2, 4, GREY).unwrap();
    assert_eq!((c.width(), c.height()), (2, 4));
    for x in 0..2 {
        for y in 0..4 {
            assert_eq!(c.pixel(x, y), Some(GREY));
        }
    }
}

#[test]
fn oversized_canvas_is_refused() {
    assert!(!Canvas::can_hold(u32::MAX, u32::MAX));
    assert!(Canvas::blank(u32::MAX, u32::MAX).is_none());
    assert!(Canvas::filled(u32::MAX, u32::MAX, GREY).is_none());
    assert!(Canvas::can_hold(0, u32::MAX));
    assert!(Canvas::can_hold(672, 672));
}

#[test]
fn set_pixel_changes_one_pixel() {
    let mut c = Canvas::filled(3, 3, WHITE).unwrap();
    assert!(c.set_pixel(1, 2, (1, 2, 3, 4)));
    assert!(!c.set_pixel(3, 0, BLACK));
    assert!(!c.set_pixel(0, 3, BLACK));
    for x in 0..3 {
        for y in 0..3 {
            let want = if (x, y) == (1, 2) { (1, 2, 3, 4) } else { WHITE };
            assert_eq!(c.pixel(x, y), Some(want));
        }
    }
}

#[test]
fn duplicate_is_independent() {
    let mut c = Canvas::filled(2, 2, WHITE).unwrap();
    let d = c.duplicate();
    assert!(c.set_pixel(0, 0, BLACK));
    assert_eq!(d.pixel(0, 0), Some(WHITE));
    assert_eq!(c.pixel(0, 0), Some(BLACK));
    assert_eq!((d.width(), d.height()), (2, 2));
}

#[test]
fn copy_paste_copies_the_rectangle_only() {
    let mut src = Canvas::blank(4, 4).unwrap();
    for x in 0..4u32 {
        for y in 0..4u32 {
            assert!(src.set_pixel(x, y, (x as u8, y as u8, 7, 255)));
        }
    }
    let mut dst = Canvas::filled(6, 5, GREY).unwrap();
    copy_paste(&src, &mut dst, 1, 2, 3, 2, 2, 1);
    for x in 0..6u32 {
        for y in 0..5u32 {
            let inside = (2..5).contains(&x) && (1..3).contains(&y);
            let want = if inside { ((x - 2 + 1) as u8, (y - 1 + 2) as u8, 7, 255) } else { GREY };
            assert_eq!(dst.pixel(x, y), Some(want), "at {:?}", (x, y));
        }
    }
    assert_eq!((dst.width(), dst.height()), (6, 5));
}

#[test]
fn copy_paste_of_nothing_changes_nothing() {
    let src = Canvas::filled(2, 2, BLACK).unwrap();
    let mut dst = Canvas::filled(2, 2, WHITE).unwrap();
    copy_paste(&src, &mut dst, 2, 2, 0, 0, 2, 2);
    for x in 0..2 {
        for y in 0..2 {
            assert_eq!(dst.pixel(x, y), Some(WHITE));
        }
    }
}

#[test]
fn position_block_is_the_finder_pattern() {
    let bs = 3;
    let block = create_position_block(bs);
    assert_eq!((block.width(), block.height()), (21, 21));
    for x in 0..21 {
        for y in 0..21 {
            assert_eq!(block.pixel(x, y), Some(shade(finder_dark(x / bs, y / bs))));
        }
    }
    assert_eq!(block.pixel(0, 0), Some(BLACK));
    assert_eq!(block.pixel(3, 3), Some(WHITE));
    assert_eq!(block.pixel(6, 6), Some(BLACK));
    assert_eq!(block.pixel(17, 10), Some(WHITE));
}

#[test]
fn alignment_block_is_the_alignment_pattern() {
    let bs = 2;
    let block = create_alignment_block(bs);
    assert_eq!((block.width(), block.height()), (10, 10));
    for x in 0..10 {
        for y in 0..10 {
            assert_eq!(block.pixel(x, y), Some(shade(alignment_dark(x / bs, y / bs))));
        }
    }
    assert_eq!(block.pixel(4, 4), Some(BLACK));
    assert_eq!(block.pixel(2, 4), Some(WHITE));
    assert_eq!(block.pixel(9, 0), Some(BLACK));
}

#[test]
fn empty_pattern_blocks() {
    let p = create_position_block(0);
    assert_eq!((p.width(), p.height()), (0, 0));
    let a = create_alignment_block(0);
    assert_eq!((a.width(), a.height()), (0, 0));
}

#[test]
fn finders_go_to_three_corners() {
    let bs = 2u32;
    let n = 21u32;
    let mut image = Canvas::filled(n * bs, n * bs, GREY).unwrap();
    write_position_blocks(&mut image, bs);
    for x in 0..n * bs {
        for y in 0..n * bs {
            let (mx, my) = (x / bs, y / bs);
            let want = if mx < 7 && my < 7 {
                shade(finder_dark(mx, my))
            } else if mx >= n - 7 && my < 7 {
                shade(finder_dark(mx - (n - 7), my))
            } else if mx < 7 && my >= n - 7 {
                shade(finder_dark(mx, my - (n - 7)))
            } else {
                GREY
            };
            assert_eq!(image.pixel(x, y), Some(want), "at {:?}", (x, y));
        }
    }
    assert_eq!(image.pixel(n * bs - 1, n * bs - 1), Some(GREY));
}

#[test]
fn finder_stamping_twice_is_stamping_once() {
    let mut once = Canvas::filled(50, 50, GREY).unwrap();
    write_position_blocks(&mut once, 3);
    let mut twice = once.duplicate();
    write_position_blocks(&mut twice, 3);
    for x in 0..50 {
        for y in 0..50 {
            assert_eq!(once.pixel(x, y), twice.pixel(x, y));
        }
    }
}

#[test]
fn coords_of_version_one_are_empty() {
    assert_eq!(alignment_coord_list(1, 21), Vec::<u32>::new());
    assert_eq!(alignment_coord_list(1, 0), Vec::<u32>::new());
}

#[test]
fn coords_of_version_two() {
    assert_eq!(alignment_coord_list(2, 25), vec![6, 18]);
}

#[test]
fn coords_follow_the_reference_table() {
    assert_eq!(alignment_coord_list(3, 29), vec![6, 22]);
    assert_eq!(alignment_coord_list(6, 41), vec![6, 34]);
    assert_eq!(alignment_coord_list(7, 45), vec![6, 22, 38]);
    assert_eq!(alignment_coord_list(10, 57), vec![6, 28, 50]);
    assert_eq!(alignment_coord_list(14, 73), vec![6, 26, 46, 66]);
    assert_eq!(alignment_coord_list(32, 145), vec![6, 34, 60, 86, 112, 138]);
    assert_eq!(alignment_coord_list(40, 177), vec![6, 30, 58, 86, 114, 142, 170]);
}

#[test]
fn coords_of_version_zero() {
    assert_eq!(alignment_coord_list(0, 17), vec![6, 10]);
    assert_eq!(alignment_coord_list(0, 13), vec![6, 6]);
}

#[test]
fn markers_fit_for_symbol_sizes() {
    assert!(!markers_fit(0));
    assert!(!markers_fit(16));
    let mut version = 1;
    while version <= 40 {
        assert!(markers_fit(17 + 4 * version));
        version += 1;
    }
    assert!(markers_fit(17));
    assert!(!markers_fit(u32::MAX));
}

#[test]
fn alignment_markers_skip_the_finders() {
    let bs = 2u32;
    let n = 25u32;
    let mut image = Canvas::filled(n * bs, n * bs, GREY).unwrap();
    write_alignment_blocks(&mut image, bs);
    for x in 0..n * bs {
        for y in 0..n * bs {
            let (mx, my) = (x / bs, y / bs);
            let inside = (16..21).contains(&mx) && (16..21).contains(&my);
            let want = if inside { shade(alignment_dark(mx - 16, my - 16)) } else { GREY };
            assert_eq!(image.pixel(x, y), Some(want), "at {:?}", (x, y));
        }
    }
    assert_eq!(image.pixel(6 * bs, 6 * bs), Some(GREY));
    assert_eq!(image.pixel(6 * bs, 18 * bs), Some(GREY));
    assert_eq!(image.pixel(18 * bs, 6 * bs), Some(GREY));
    assert_eq!(image.pixel(18 * bs, 18 * bs), Some(BLACK));
}

#[test]
fn alignment_markers_of_version_seven() {
    let bs = 1u32;
    let n = 45u32;
    let mut image = Canvas::filled(n, n, GREY).unwrap();
    write_alignment_blocks(&mut image, bs);
    let lines = [6u32, 22, 38];
    for &cx in &lines {
        for &cy in &lines {
            let skipped = (cx, cy) == (6, 6) || (cx, cy) == (6, 38) || (cx, cy) == (38, 6);
            let want = if skipped { GREY } else { BLACK };
            assert_eq!(image.pixel(cx, cy), Some(want), "centre {:?}", (cx, cy));
            let ring = if skipped { GREY } else { WHITE };
            assert_eq!(image.pixel(cx + 1, cy), Some(ring));
            let edge = if skipped { GREY } else { BLACK };
            assert_eq!(image.pixel(cx - 2, cy + 2), Some(edge));
        }
    }
    assert_eq!(image.pixel(22 + 3, 22), Some(GREY));
}

#[test]
fn version_one_canvas_gets_no_alignment_marker() {
    let mut image = Canvas::filled(21 * 4, 21 * 4, GREY).unwrap();
    write_alignment_blocks(&mut image, 4);
    for x in 0..84 {
        for y in 0..84 {
            assert_eq!(image.pixel(x, y), Some(GREY));
        }
    }
}
