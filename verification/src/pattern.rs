use crate::raster::{copy_paste, fits, in_rect, Canvas, Color};
use vstd::prelude::*;

verus! {

pub open spec fn opaque_black() -> Color {
    (0u8, 0u8, 0u8, 255u8)
}

pub open spec fn opaque_white() -> Color {
    (255u8, 255u8, 255u8, 255u8)
}

/// The colour of a dark or a light module.
pub open spec fn shade(dark: bool) -> Color {
    if dark {
        opaque_black()
    } else {
        opaque_white()
    }
}

/// Whether the module `(mx, my)` of the 7×7 finder pattern is dark: the outer
/// ring and the 3×3 centre are, the ring between them is not.
pub open spec fn finder_dark(mx: int, my: int) -> bool {
    !(1 <= mx < 6 && 1 <= my < 6) || (2 <= mx < 5 && 2 <= my < 5)
}

/// Whether the module `(mx, my)` of the 5×5 alignment pattern is dark: the
/// outer ring and the centre module are.
pub open spec fn alignment_dark(mx: int, my: int) -> bool {
    !(1 <= mx < 4 && 1 <= my < 4) || (mx == 2 && my == 2)
}

/// Whether the pixel `(px, py)` lies in one of the modules `[lo, hi) × [lo, hi)`
/// of a grid with modules of `bs` pixels.
pub open spec fn in_cells(px: int, py: int, bs: int, lo: int, hi: int) -> bool {
    bs > 0 && lo <= px / bs < hi && lo <= py / bs < hi
}

/// A pixel coordinate lies in the module `m` exactly when it lies in the `bs`
/// pixels that start at `m * bs`.
pub proof fn lemma_cell_of_pixel(p: int, bs: int, m: int)
    requires
        bs > 0,
    ensures
        (m * bs <= p < m * bs + bs) <==> p / bs == m,
{
    vstd::arithmetic::div_mod::lemma_fundamental_div_mod(p, bs);
    vstd::arithmetic::div_mod::lemma_mod_bound(p, bs);
    let q = p / bs;
    let r = p % bs;
    assert(p == bs * q + r);
    if m < q {
        assert(m * bs + bs <= q * bs) by (nonlinear_arith)
            requires
                m + 1 <= q,
                bs > 0,
        ;
    }
    if m > q {
        assert(q * bs + bs <= m * bs) by (nonlinear_arith)
            requires
                q + 1 <= m,
                bs > 0,
        ;
    }
    assert(bs * q == q * bs) by (nonlinear_arith);
}

/// Paints the modules `[lo, hi) × [lo, hi)` of `dst` with copies of `tile`, a
/// block of one colour and of one module's size.
fn fill_cells(
    dst: &mut Canvas,
    tile: &Canvas,
    block_size: u32,
    lo: u32,
    hi: u32,
    Ghost(color): Ghost<Color>,
)
    requires
        lo <= hi,
        hi * block_size <= old(dst).spec_width(),
        hi * block_size <= old(dst).spec_height(),
        tile.spec_width() == block_size,
        tile.spec_height() == block_size,
        tile.solid(color),
    ensures
        final(dst).same_size(*old(dst)),
        forall|px: int, py: int|
            #![trigger final(dst).at(px, py)]
            final(dst).at(px, py) == if in_cells(px, py, block_size as int, lo as int, hi as int) {
                color
            } else {
                old(dst).at(px, py)
            },
{
    let ghost bs = block_size as int;
    let mut y: u32 = lo;
    while y < hi
        invariant
            lo <= y <= hi,
            bs == block_size,
            hi * block_size <= dst.spec_width(),
            hi * block_size <= dst.spec_height(),
            tile.spec_width() == block_size,
            tile.spec_height() == block_size,
            tile.solid(color),
            dst.same_size(*old(dst)),
            forall|px: int, py: int|
                #![trigger dst.at(px, py)]
                dst.at(px, py) == if bs > 0 && lo <= px / bs < hi && lo <= py / bs < y {
                    color
                } else {
                    old(dst).at(px, py)
                },
        decreases hi - y,
    {
        let mut x: u32 = lo;
        while x < hi
            invariant
                lo <= x <= hi,
                lo <= y < hi,
                bs == block_size,
                hi * block_size <= dst.spec_width(),
                hi * block_size <= dst.spec_height(),
                tile.spec_width() == block_size,
                tile.spec_height() == block_size,
                tile.solid(color),
                dst.same_size(*old(dst)),
                forall|px: int, py: int|
                    #![trigger dst.at(px, py)]
                    dst.at(px, py) == if bs > 0 && ((lo <= px / bs < hi && lo <= py / bs < y) || (lo
                        <= px / bs < x && py / bs == y)) {
                        color
                    } else {
                        old(dst).at(px, py)
                    },
            decreases hi - x,
        {
            proof {
                assert(x * block_size + block_size <= hi * block_size) by (nonlinear_arith)
                    requires
                        x + 1 <= hi,
                        block_size >= 0,
                ;
                assert(y * block_size + block_size <= hi * block_size) by (nonlinear_arith)
                    requires
                        y + 1 <= hi,
                        block_size >= 0,
                ;
            }
            let ghost prev = *dst;
            copy_paste(tile, dst, 0, 0, block_size, block_size, x * block_size, y * block_size);
            proof {
                assert forall|px: int, py: int|
                    #![trigger dst.at(px, py)]
                    dst.at(px, py) == if bs > 0 && ((lo <= px / bs < hi && lo <= py / bs < y) || (lo
                        <= px / bs < x + 1 && py / bs == y)) {
                        color
                    } else {
                        old(dst).at(px, py)
                    } by {
                    if bs > 0 {
                        lemma_cell_of_pixel(px, bs, x as int);
                        lemma_cell_of_pixel(py, bs, y as int);
                    }
                    let _ = prev.at(px, py);
                    if in_rect(px, py, x * block_size, y * block_size, bs, bs) {
                        assert(tile.holds(px - x * block_size, py - y * block_size));
                    }
                }
            }
            x += 1;
        }
        y += 1;
    }
}

/// The 7×7-module finder pattern in black and white, each module
/// `block_size` pixels wide and high.
pub fn create_position_block(block_size: u32) -> (block: Canvas)
    requires
        fits(7 * block_size, 7 * block_size),
        7 * block_size <= u32::MAX,
    ensures
        block.spec_width() == 7 * block_size,
        block.spec_height() == 7 * block_size,
        forall|px: int, py: int|
            block.holds(px, py) ==> #[trigger] block.at(px, py) == shade(
                finder_dark(px / (block_size as int), py / (block_size as int)),
            ),
{
    proof {
        assert(fits(block_size as int, block_size as int)) by (nonlinear_arith)
            requires
                fits(7 * block_size, 7 * block_size),
                block_size >= 0,
        ;
    }
    let black = Canvas::filled(block_size, block_size, (0, 0, 0, 255)).unwrap();
    let white = Canvas::filled(block_size, block_size, (255, 255, 255, 255)).unwrap();
    let mut position_block = Canvas::blank(7 * block_size, 7 * block_size).unwrap();
    fill_cells(&mut position_block, &black, block_size, 0, 7, Ghost(opaque_black()));
    fill_cells(&mut position_block, &white, block_size, 1, 6, Ghost(opaque_white()));
    fill_cells(&mut position_block, &black, block_size, 2, 5, Ghost(opaque_black()));
    proof {
        let bs = block_size as int;
        assert forall|px: int, py: int| position_block.holds(px, py) implies #[trigger]
            position_block.at(px, py) == shade(finder_dark(px / bs, py / bs)) by {
            lemma_cell_range(px, bs, 7);
            lemma_cell_range(py, bs, 7);
        }
    }
    position_block
}

/// A coordinate below `n * bs` lies in one of the modules `0 .. n`.
pub proof fn lemma_cell_range(p: int, bs: int, n: int)
    requires
        0 <= n,
        0 <= p < n * bs,
    ensures
        bs > 0,
        0 <= p / bs < n,
{
    assert(bs > 0) by (nonlinear_arith)
        requires
            0 < n * bs,
            0 <= n,
    ;
    lemma_cell_of_pixel(p, bs, p / bs);
    let q = p / bs;
    if q >= n {
        assert(n * bs <= q * bs) by (nonlinear_arith)
            requires
                n <= q,
                bs > 0,
        ;
    }
    if q < 0 {
        assert(q * bs + bs <= 0) by (nonlinear_arith)
            requires
                q + 1 <= 0,
                bs > 0,
        ;
    }
}

/// The 5×5-module alignment pattern in black and white, each module
/// `block_size` pixels wide and high.
pub fn create_alignment_block(block_size: u32) -> (block: Canvas)
    requires
        fits(5 * block_size, 5 * block_size),
        5 * block_size <= u32::MAX,
    ensures
        block.spec_width() == 5 * block_size,
        block.spec_height() == 5 * block_size,
        forall|px: int, py: int|
            block.holds(px, py) ==> #[trigger] block.at(px, py) == shade(
                alignment_dark(px / (block_size as int), py / (block_size as int)),
            ),
{
    proof {
        assert(fits(block_size as int, block_size as int)) by (nonlinear_arith)
            requires
                fits(5 * block_size, 5 * block_size),
                block_size >= 0,
        ;
    }
    let black = Canvas::filled(block_size, block_size, (0, 0, 0, 255)).unwrap();
    let white = Canvas::filled(block_size, block_size, (255, 255, 255, 255)).unwrap();
    let mut alignment_block = Canvas::blank(5 * block_size, 5 * block_size).unwrap();
    fill_cells(&mut alignment_block, &black, block_size, 0, 5, Ghost(opaque_black()));
    fill_cells(&mut alignment_block, &white, block_size, 1, 4, Ghost(opaque_white()));
    fill_cells(&mut alignment_block, &black, block_size, 2, 3, Ghost(opaque_black()));
    proof {
        let bs = block_size as int;
        assert forall|px: int, py: int| alignment_block.holds(px, py) implies #[trigger]
            alignment_block.at(px, py) == shade(alignment_dark(px / bs, py / bs)) by {
            lemma_cell_range(px, bs, 5);
            lemma_cell_range(py, bs, 5);
        }
    }
    alignment_block
}

/// The colour that the finder pattern with its top-left pixel at `(x0, y0)`
/// has at the pixel `(px, py)`.
pub open spec fn finder_at(px: int, py: int, x0: int, y0: int, bs: int) -> Color {
    shade(finder_dark((px - x0) / bs, (py - y0) / bs))
}

/// `after` is `before` with the finder pattern in its top-left, top-right and
/// bottom-left corner. Where the canvas is so small that two of them overlap,
/// the bottom-left one lies over the top-right one, and that over the top-left one.
pub open spec fn finders_stamped(before: Canvas, after: Canvas, bs: int) -> bool {
    let w = before.spec_width() as int;
    let h = before.spec_height() as int;
    &&& after.same_size(before)
    &&& forall|px: int, py: int|
        #![trigger after.at(px, py)]
        after.at(px, py) == if in_rect(px, py, 0, h - 7 * bs, 7 * bs, 7 * bs) {
            finder_at(px, py, 0, h - 7 * bs, bs)
        } else if in_rect(px, py, w - 7 * bs, 0, 7 * bs, 7 * bs) {
            finder_at(px, py, w - 7 * bs, 0, bs)
        } else if in_rect(px, py, 0, 0, 7 * bs, 7 * bs) {
            finder_at(px, py, 0, 0, bs)
        } else {
            before.at(px, py)
        }
}

/// Stamps the finder pattern over three corners of the canvas: top-left,
/// top-right and bottom-left. The canvas is at least one pattern wide and high.
pub fn write_position_blocks(image: &mut Canvas, block_size: u32)
    requires
        7 * block_size <= old(image).spec_width(),
        7 * block_size <= old(image).spec_height(),
        fits(7 * block_size, 7 * block_size),
    ensures
        finders_stamped(*old(image), *final(image), block_size as int),
{
    let side: u32 = 7 * block_size;
    let right: u32 = image.width() - side;
    let bottom: u32 = image.height() - side;
    let position_block = create_position_block(block_size);
    let ghost first = *image;
    copy_paste(&position_block, image, 0, 0, side, side, 0, 0);
    let ghost second = *image;
    copy_paste(&position_block, image, 0, 0, side, side, right, 0);
    let ghost third = *image;
    copy_paste(&position_block, image, 0, 0, side, side, 0, bottom);
    proof {
        let bs = block_size as int;
        assert forall|px: int, py: int|
            #![trigger image.at(px, py)]
            image.at(px, py) == if in_rect(px, py, 0, bottom as int, 7 * bs, 7 * bs) {
                finder_at(px, py, 0, bottom as int, bs)
            } else if in_rect(px, py, right as int, 0, 7 * bs, 7 * bs) {
                finder_at(px, py, right as int, 0, bs)
            } else if in_rect(px, py, 0, 0, 7 * bs, 7 * bs) {
                finder_at(px, py, 0, 0, bs)
            } else {
                first.at(px, py)
            } by {
            let _ = third.at(px, py);
            let _ = second.at(px, py);
            if in_rect(px, py, 0, bottom as int, 7 * bs, 7 * bs) {
                assert(position_block.holds(px, py - bottom));
            } else if in_rect(px, py, right as int, 0, 7 * bs, 7 * bs) {
                assert(position_block.holds(px - right, py));
            } else if in_rect(px, py, 0, 0, 7 * bs, 7 * bs) {
                assert(position_block.holds(px, py));
            }
        }
    }
}

/// The number of alignment coordinates of a version.
pub open spec fn division_count(version: int) -> int {
    2 + version / 7
}

/// The distance between neighbouring alignment coordinates after the first
/// gap: always even.
pub open spec fn alignment_step(version: int, size: int) -> int {
    let divisor = 2 * (division_count(version) - 1);
    ((size - 13 + divisor / 2 + 1) / divisor) * 2
}

/// The grid lines on which alignment markers centre, for a version and a
/// grid of `size` modules per side: none for version 1; otherwise 6, and then
/// the lines that end at `size - 7` and lie one step apart.
pub open spec fn alignment_coords(version: int, size: int) -> Seq<int> {
    if version == 1 {
        Seq::empty()
    } else {
        let divs = division_count(version);
        let step = alignment_step(version, size);
        Seq::new(
            divs as nat,
            |k: int|
                if k == 0 {
                    6
                } else {
                    size - 7 - (divs - 1 - k) * step
                },
        )
    }
}

/// Whether the coordinates can be computed in 32 bits: the grid has room for
/// two finder patterns less one module, the rounding does not overflow, and
/// no coordinate falls below zero.
pub open spec fn coords_defined(version: int, size: int) -> bool {
    version == 1 || {
        let divs = division_count(version);
        &&& size >= 13
        &&& size - 13 + (divs - 1) + 1 <= u32::MAX
        &&& (divs - 2) * alignment_step(version, size) <= size - 7
    }
}

/// Whether `list` holds exactly the numbers of `coords`, in order.
pub open spec fn same_coords(list: Seq<u32>, coords: Seq<int>) -> bool {
    list.len() == coords.len() && forall|k: int| 0 <= k < list.len() ==> list[k] == coords[k]
}

/// The alignment coordinates of a version, on a grid of `size` modules per side.
pub fn alignment_coord_list(version: u32, size: u32) -> (coords: Vec<u32>)
    requires
        coords_defined(version as int, size as int),
    ensures
        same_coords(coords@, alignment_coords(version as int, size as int)),
{
    if version == 1 {
        return Vec::new();
    }
    let divs: u32 = 2 + version / 7;
    let total_dist: u32 = size - 7 - 6;
    let divisor: u32 = 2 * (divs - 1);
    assert(divisor / 2 == divs - 1);
    proof {
        vstd::arithmetic::div_mod::lemma_div_is_ordered_by_denominator(
            total_dist + divisor / 2 + 1,
            2,
            divisor as int,
        );
    }
    let step: u32 = ((total_dist + divisor / 2 + 1) / divisor) * 2;
    assert(step == alignment_step(version as int, size as int));
    let mut coords: Vec<u32> = Vec::new();
    coords.push(6);
    let mut i: u32 = divs - 1;
    while i > 0
        invariant
            divs == division_count(version as int),
            step == alignment_step(version as int, size as int),
            version != 1,
            0 <= i <= divs - 1,
            (divs - 2) * step <= size - 7,
            coords@.len() == divs - i,
            forall|k: int|
                0 <= k < coords@.len() ==> coords@[k] == alignment_coords(
                    version as int,
                    size as int,
                )[k],
        decreases i,
    {
        i -= 1;
        assert(i * step <= (divs - 2) * step) by (nonlinear_arith)
            requires
                i <= divs - 2,
                step >= 0,
        ;
        coords.push(size - 7 - i * step);
    }
    coords
}

/// The version of a symbol with `size` modules per side.
pub open spec fn version_of(size: int) -> int {
    (size - 17) / 4
}

/// Whether the marker centred on `(x, y)` would lie on a finder pattern.
pub open spec fn on_finder(x: int, y: int, size: int) -> bool {
    (x == 6 && y == 6) || (x == 6 && y == size - 7) || (x == size - 7 && y == 6)
}

/// The centres of the alignment markers in the order in which they are
/// stamped, up to the pair of the `i`-th and the `j`-th coordinate: every
/// pair of coordinates but those on a finder pattern, the first coordinate
/// changing slowest.
pub open spec fn marker_centres(coords: Seq<int>, size: int, i: int, j: int) -> Seq<(int, int)>
    decreases i, j,
{
    if i < 0 || j < 0 {
        Seq::empty()
    } else if j == 0 {
        if i == 0 {
            Seq::empty()
        } else {
            marker_centres(coords, size, i - 1, coords.len() as int)
        }
    } else {
        let before = marker_centres(coords, size, i, j - 1);
        if on_finder(coords[i], coords[j - 1], size) {
            before
        } else {
            before.push((coords[i], coords[j - 1]))
        }
    }
}

/// The colour of the pixel `(px, py)` once the markers centred on `centres`
/// have been stamped over `base`, the last of them on top.
pub open spec fn after_markers(base: Canvas, centres: Seq<(int, int)>, bs: int, px: int, py: int)
    -> Color
    decreases centres.len(),
{
    if centres.len() == 0 {
        base.at(px, py)
    } else {
        let x0 = (centres.last().0 - 2) * bs;
        let y0 = (centres.last().1 - 2) * bs;
        if in_rect(px, py, x0, y0, 5 * bs, 5 * bs) {
            shade(alignment_dark((px - x0) / bs, (py - y0) / bs))
        } else {
            after_markers(base, centres.drop_last(), bs, px, py)
        }
    }
}

/// Whether every alignment marker of a grid of `size` modules lies inside it:
/// the grid is at least the smallest symbol, its coordinates can be
/// computed, and none is nearer than two modules to the left or upper edge.
pub open spec fn markers_inside(size: int) -> bool {
    let v = version_of(size);
    &&& size >= 17
    &&& coords_defined(v, size)
    &&& (v != 1 ==> (division_count(v) - 2) * alignment_step(v, size) + 9 <= size)
}

/// `after` is `before` with an alignment marker on every pair of alignment
/// coordinates that does not lie on a finder pattern.
pub open spec fn markers_stamped(before: Canvas, after: Canvas, bs: int) -> bool {
    let size = before.spec_width() as int / bs;
    let coords = alignment_coords(version_of(size), size);
    let centres = marker_centres(coords, size, coords.len() as int, 0);
    &&& after.same_size(before)
    &&& forall|px: int, py: int|
        #![trigger after.at(px, py)]
        after.at(px, py) == after_markers(before, centres, bs, px, py)
}

/// Under `markers_inside` every alignment coordinate leaves two modules before
/// it and seven from it on.
pub proof fn lemma_coords_inside(size: int, k: int)
    requires
        markers_inside(size),
        0 <= k < alignment_coords(version_of(size), size).len(),
    ensures
        2 <= alignment_coords(version_of(size), size)[k] <= size - 7,
{
    let v = version_of(size);
    let divs = division_count(v);
    let step = alignment_step(v, size);
    let divisor = 2 * (divs - 1);
    if k > 0 {
        assert(divs >= 2);
        vstd::arithmetic::div_mod::lemma_div_pos_is_pos(size - 13 + divisor / 2 + 1, divisor);
        assert(step >= 0);
        assert(0 <= (divs - 1 - k) * step <= (divs - 2) * step) by (nonlinear_arith)
            requires
                0 <= divs - 1 - k <= divs - 2,
                step >= 0,
        ;
    }
}

/// Stamps an alignment marker, centred, on every pair of alignment
/// coordinates of the canvas's grid, but for the three pairs that lie on a
/// finder pattern. The canvas is square.
pub fn write_alignment_blocks(image: &mut Canvas, block_size: u32)
    requires
        block_size > 0,
        old(image).spec_height() == old(image).spec_width(),
        markers_inside(old(image).spec_width() as int / block_size as int),
        fits(5 * block_size, 5 * block_size),
    ensures
        markers_stamped(*old(image), *final(image), block_size as int),
{
    let size: u32 = image.width();
    let data_size: u32 = size / block_size;
    let version: u32 = (data_size - 17) / 4;
    let coords = alignment_coord_list(version, data_size);
    let ghost bs = block_size as int;
    let ghost ds = data_size as int;
    let ghost lines = alignment_coords(version as int, ds);
    proof {
        vstd::arithmetic::div_mod::lemma_fundamental_div_mod(size as int, bs);
        vstd::arithmetic::div_mod::lemma_mod_bound(size as int, bs);
        assert(ds * bs <= size) by (nonlinear_arith)
            requires
                size == bs * ds + (size as int % bs),
                0 <= size as int % bs,
        ;
        assert(17 * bs <= ds * bs) by (nonlinear_arith)
            requires
                17 <= ds,
                bs > 0,
        ;
    }
    let alignment_block = create_alignment_block(block_size);
    let n: usize = coords.len();
    let ghost centres: Seq<(int, int)> = Seq::empty();
    let mut i: usize = 0;
    while i < n
        invariant
            0 <= i <= n,
            n == coords@.len(),
            bs == block_size,
            bs > 0,
            ds == data_size,
            ds * bs <= size,
            17 * bs <= ds * bs,
            size == image.spec_width(),
            markers_inside(ds),
            version == version_of(ds),
            lines == alignment_coords(version as int, ds),
            same_coords(coords@, lines),
            image.same_size(*old(image)),
            image.spec_height() == image.spec_width(),
            alignment_block.spec_width() == 5 * block_size,
            alignment_block.spec_height() == 5 * block_size,
            forall|px: int, py: int|
                alignment_block.holds(px, py) ==> #[trigger] alignment_block.at(px, py) == shade(
                    alignment_dark(px / bs, py / bs),
                ),
            centres == marker_centres(lines, ds, i as int, 0),
            forall|px: int, py: int|
                #![trigger image.at(px, py)]
                image.at(px, py) == after_markers(*old(image), centres, bs, px, py),
        decreases n - i,
    {
        let x: u32 = coords[i];
        let mut j: usize = 0;
        while j < n
            invariant
                0 <= i < n,
                0 <= j <= n,
                n == coords@.len(),
                x == coords@[i as int],
                bs == block_size,
                bs > 0,
                ds == data_size,
                ds * bs <= size,
                17 * bs <= ds * bs,
                size == image.spec_width(),
                markers_inside(ds),
                version == version_of(ds),
                lines == alignment_coords(version as int, ds),
                same_coords(coords@, lines),
                image.same_size(*old(image)),
                image.spec_height() == image.spec_width(),
                alignment_block.spec_width() == 5 * block_size,
                alignment_block.spec_height() == 5 * block_size,
                forall|px: int, py: int|
                    alignment_block.holds(px, py) ==> #[trigger] alignment_block.at(px, py)
                        == shade(alignment_dark(px / bs, py / bs)),
                j == 0 ==> centres == marker_centres(lines, ds, i as int, 0),
                j > 0 ==> centres == marker_centres(lines, ds, i as int, j as int),
                forall|px: int, py: int|
                    #![trigger image.at(px, py)]
                    image.at(px, py) == after_markers(*old(image), centres, bs, px, py),
            decreases n - j,
        {
            let y: u32 = coords[j];
            proof {
                lemma_coords_inside(ds, i as int);
                lemma_coords_inside(ds, j as int);
                assert(x * bs <= (ds - 7) * bs && y * bs <= (ds - 7) * bs && 2 * bs <= x * bs && 2
                    * bs <= y * bs) by (nonlinear_arith)
                    requires
                        2 <= x <= ds - 7,
                        2 <= y <= ds - 7,
                        bs > 0,
                ;
                assert((ds - 7) * bs == ds * bs - 7 * bs) by (nonlinear_arith);
                assert((x - 2) * bs == x * bs - 2 * bs) by (nonlinear_arith);
                assert((y - 2) * bs == y * bs - 2 * bs) by (nonlinear_arith);
            }
            let ghost before_centres = centres;
            if (x == 6 && y == 6) || (x == 6 && y == data_size - 7) || (x == data_size - 7 && y
                == 6) {
                assert(on_finder(lines[i as int], lines[j as int], ds));
            } else {
                let top_left_x: u32 = x * block_size - (4 * block_size) / 2;
                let top_left_y: u32 = y * block_size - (4 * block_size) / 2;
                let ghost prev = *image;
                copy_paste(
                    &alignment_block,
                    image,
                    0,
                    0,
                    5 * block_size,
                    5 * block_size,
                    top_left_x,
                    top_left_y,
                );
                proof {
                    assert(!on_finder(lines[i as int], lines[j as int], ds));
                    centres = before_centres.push((x as int, y as int));
                    assert(centres.drop_last() =~= before_centres);
                    assert(centres.last() == (x as int, y as int));
                    assert forall|px: int, py: int|
                        #![trigger image.at(px, py)]
                        image.at(px, py) == after_markers(*old(image), centres, bs, px, py) by {
                        let _ = prev.at(px, py);
                        if in_rect(px, py, top_left_x as int, top_left_y as int, 5 * bs, 5 * bs) {
                            assert(alignment_block.holds(px - top_left_x, py - top_left_y));
                        }
                    }
                }
            }
            j += 1;
            assert(centres == marker_centres(lines, ds, i as int, j as int));
        }
        i += 1;
        proof {
            if n > 0 {
                assert(centres == marker_centres(lines, ds, i as int - 1, n as int));
            }
            assert(centres == marker_centres(lines, ds, i as int, 0));
        }
    }
}

/// Whether every alignment marker of a grid of `size` modules lies inside it.
pub fn markers_fit(size: u32) -> (ok: bool)
    ensures
        ok == markers_inside(size as int),
{
    if size < 17 {
        return false;
    }
    let version: u32 = (size - 17) / 4;
    if version == 1 {
        return true;
    }
    let divs: u64 = 2 + (version as u64) / 7;
    let divisor: u64 = 2 * (divs - 1);
    let rounded: u64 = (size as u64) - 13 + (divs - 1) + 1;
    assert(divisor as int / 2 == divs - 1);
    if rounded > 0xFFFF_FFFF {
        return false;
    }
    proof {
        vstd::arithmetic::div_mod::lemma_div_is_ordered_by_denominator(
            rounded as int,
            2,
            divisor as int,
        );
    }
    let step: u64 = (rounded / divisor) * 2;
    assert(step == alignment_step(version as int, size as int));
    assert((divs - 2) * step <= 0x4000_0000 * 0x1_0000_0000) by (nonlinear_arith)
        requires
            0 <= divs - 2 <= 0x4000_0000,
            0 <= step <= 0x1_0000_0000,
    ;
    (divs - 2) * step + 9 <= size as u64
}

/// No alignment marker is centred on a finder pattern: on `(6, 6)`, on
/// `(6, size - 7)` or on `(size - 7, 6)`.
pub proof fn lemma_no_marker_on_finder(coords: Seq<int>, size: int, i: int, j: int, k: int)
    requires
        0 <= k < marker_centres(coords, size, i, j).len(),
    ensures
        !on_finder(
            marker_centres(coords, size, i, j)[k].0,
            marker_centres(coords, size, i, j)[k].1,
            size,
        ),
        marker_centres(coords, size, i, j)[k] != (6int, 6int),
        marker_centres(coords, size, i, j)[k] != (6int, size - 7),
        marker_centres(coords, size, i, j)[k] != (size - 7, 6int),
    decreases i, j,
{
    if i < 0 || j < 0 {
    } else if j == 0 {
        if i > 0 {
            lemma_no_marker_on_finder(coords, size, i - 1, coords.len() as int, k);
        }
    } else {
        let before = marker_centres(coords, size, i, j - 1);
        if k < before.len() {
            lemma_no_marker_on_finder(coords, size, i, j - 1, k);
        }
    }
}

/// Every pair of coordinates that does not lie on a finder pattern is the
/// centre of a marker.
pub proof fn lemma_every_other_pair_is_marked(coords: Seq<int>, size: int, a: int, b: int)
    requires
        0 <= a < coords.len(),
        0 <= b < coords.len(),
        !on_finder(coords[a], coords[b], size),
    ensures
        marker_centres(coords, size, coords.len() as int, 0).contains((coords[a], coords[b])),
{
    lemma_marked_from(coords, size, a, b, a, b + 1);
    lemma_marked_later(coords, size, a, b, coords.len() as int, 0);
}

/// The pair of the `a`-th and the `b`-th coordinate is marked as soon as the
/// stamping has passed it.
proof fn lemma_marked_from(coords: Seq<int>, size: int, a: int, b: int, i: int, j: int)
    requires
        0 <= a < coords.len(),
        0 <= b < coords.len(),
        !on_finder(coords[a], coords[b], size),
        i == a,
        j == b + 1,
    ensures
        marker_centres(coords, size, i, j).contains((coords[a], coords[b])),
{
    let before = marker_centres(coords, size, i, j - 1);
    assert(before.push((coords[a], coords[b])).last() == (coords[a], coords[b]));
}

/// A pair that is marked stays marked while the stamping goes on.
proof fn lemma_marked_later(coords: Seq<int>, size: int, a: int, b: int, i: int, j: int)
    requires
        0 <= a < coords.len(),
        0 <= b < coords.len(),
        !on_finder(coords[a], coords[b], size),
        0 <= j <= coords.len(),
        (i == a && b < j) || a < i,
    ensures
        marker_centres(coords, size, i, j).contains((coords[a], coords[b])),
    decreases i, j,
{
    if i == a && j == b + 1 {
        lemma_marked_from(coords, size, a, b, i, j);
    } else if j == 0 {
        lemma_marked_later(coords, size, a, b, i - 1, coords.len() as int);
    } else {
        lemma_marked_later(coords, size, a, b, i, j - 1);
        let before = marker_centres(coords, size, i, j - 1);
        let k = choose|k: int| 0 <= k < before.len() && before[k] == (coords[a], coords[b]);
        if !on_finder(coords[i], coords[j - 1], size) {
            assert(before.push((coords[i], coords[j - 1]))[k] == (coords[a], coords[b]));
        }
    }
}

/// Moving a pixel coordinate by whole modules moves its module by as many.
pub proof fn lemma_cell_shift(p: int, bs: int, m: int)
    requires
        bs > 0,
    ensures
        (p - m * bs) / bs == p / bs - m,
{
    let q = p / bs;
    lemma_cell_of_pixel(p, bs, q);
    assert((q - m) * bs == q * bs - m * bs) by (nonlinear_arith);
    lemma_cell_of_pixel(p - m * bs, bs, q - m);
}

/// On every grid from 17 to 180 modules per side, which are the sizes of
/// the symbol versions up to 40, every alignment marker lies inside the grid.
pub proof fn lemma_symbol_sizes_fit(size: int)
    requires
        17 <= size <= 180,
    ensures
        markers_inside(size),
{
    let v = version_of(size);
    let divs = division_count(v);
    let step = alignment_step(v, size);
    let gaps = divs - 2;
    assert(0 <= v <= 40);
    assert(2 <= divs <= 7);
    if divs == 2 {
        assert(gaps * step == 0) by (nonlinear_arith)
            requires
                gaps == 0,
        ;
    } else if divs == 3 {
        assert(step == ((size - 13 + 2 + 1) / 4) * 2);
        assert(gaps * step == step) by (nonlinear_arith)
            requires
                gaps == 1,
        ;
    } else if divs == 4 {
        assert(step == ((size - 13 + 3 + 1) / 6) * 2);
        assert(gaps * step == 2 * step) by (nonlinear_arith)
            requires
                gaps == 2,
        ;
    } else if divs == 5 {
        assert(step == ((size - 13 + 4 + 1) / 8) * 2);
        assert(gaps * step == 3 * step) by (nonlinear_arith)
            requires
                gaps == 3,
        ;
    } else if divs == 6 {
        assert(step == ((size - 13 + 5 + 1) / 10) * 2);
        assert(gaps * step == 4 * step) by (nonlinear_arith)
            requires
                gaps == 4,
        ;
    } else {
        assert(step == ((size - 13 + 6 + 1) / 12) * 2);
        assert(gaps * step == 5 * step) by (nonlinear_arith)
            requires
                gaps == 5,
        ;
    }
}

/// On every grid from 17 to 180 modules per side the alignment coordinates
/// ascend, and where there are any the first is 6 and the last `size - 7`.
pub proof fn lemma_coords_ascend(size: int, k: int)
    requires
        17 <= size <= 180,
        0 <= k < alignment_coords(version_of(size), size).len(),
    ensures
        k == 0 ==> alignment_coords(version_of(size), size)[k] == 6,
        k == alignment_coords(version_of(size), size).len() - 1 ==> alignment_coords(
            version_of(size),
            size,
        )[k] == size - 7,
        k > 0 ==> alignment_coords(version_of(size), size)[k - 1] < alignment_coords(
            version_of(size),
            size,
        )[k],
{
    let v = version_of(size);
    let divs = division_count(v);
    let step = alignment_step(v, size);
    let gaps = divs - 2;
    let spans = divs - 1;
    let rounded = size - 13 + spans + 1;
    let half = rounded / (2 * spans);
    assert(0 <= v <= 40 && v != 1);
    assert(2 <= divs <= 7);
    assert((2 * spans) / 2 == spans);
    assert(step == half * 2);
    vstd::arithmetic::div_mod::lemma_fundamental_div_mod(rounded, 2 * spans);
    vstd::arithmetic::div_mod::lemma_mod_bound(rounded, 2 * spans);
    assert(gaps * step == 2 * (spans * half) - 2 * half && (2 * spans) * half == 2 * (spans * half))
        by (nonlinear_arith)
        requires
            gaps == spans - 1,
            step == half * 2,
    ;
    if spans == 1 {
        assert(half == rounded / 2);
    } else {
        assert(half >= spans) by (nonlinear_arith)
            requires
                rounded == 2 * (spans * half) + rounded % (2 * spans),
                rounded % (2 * spans) < 2 * spans,
                rounded >= 14 * spans,
                2 <= spans <= 6,
        ;
    }
    let here = divs - 1 - k;
    if k > 1 {
        assert((here + 1) * step == here * step + step) by (nonlinear_arith);
    }
    if k == 1 {
        assert(here * step == gaps * step);
    }
    if k == divs - 1 {
        assert(here * step == 0) by (nonlinear_arith)
            requires
                here == 0,
        ;
    }
}

} // verus!
