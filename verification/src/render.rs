use crate::pattern::{
    after_markers, alignment_coords, alignment_dark, finder_dark, finders_stamped,
    lemma_cell_of_pixel, lemma_cell_range, lemma_cell_shift, marker_centres, markers_fit,
    markers_inside, markers_stamped, shade, version_of, write_alignment_blocks,
    write_position_blocks,
};
use crate::raster::{fits, in_rect, Canvas, Color};
use crate::tiler::{frame_origin, phase_after, BaseTiler, BouncyTiler, Tilers, SPRITE_SIZE};
use vstd::prelude::*;

verus! {

/// Why no picture was made.
#[derive(Debug, Copy, Clone, PartialEq, Eq, Structural)]
pub enum RenderError {
    /// The content is too long for a symbol at the error-correction level used.
    EncodingCapacityExceeded,
    /// The sprite sheet is missing, or too small to hold its four frames.
    AssetLoadFailure,
    /// The picture could not be written.
    OutputWriteFailure,
    /// The module matrix is empty or not square, or the picture or one of
    /// its markers would not fit.
    GeometryPrecondition,
}

/// The modules of a matrix, row by row.
pub open spec fn grid(matrix: &Vec<Vec<bool>>) -> Seq<Seq<bool>> {
    Seq::new(matrix@.len(), |i: int| matrix@[i]@)
}

/// Whether the matrix has at least one row and as many columns in every row
/// as it has rows.
pub open spec fn square(g: Seq<Seq<bool>>) -> bool {
    g.len() > 0 && forall|i: int| 0 <= i < g.len() ==> (#[trigger] g[i]).len() == g.len()
}

/// Whether a canvas for `n` modules per side, each of `bs` pixels, can be made.
pub open spec fn canvas_fits(n: int, bs: int) -> bool {
    n * bs <= u32::MAX && fits(n * bs, n * bs)
}

/// The two ways of drawing modules. One value draws a whole matrix.
pub enum Tiler {
    Base(BaseTiler),
    Bouncy(BouncyTiler),
}

impl Tiler {
    pub open spec fn wf(&self) -> bool {
        match self {
            Tiler::Base(t) => t.wf(),
            Tiler::Bouncy(t) => t.wf(),
        }
    }

    /// The canvas drawn so far.
    pub open spec fn image(&self) -> Canvas {
        match self {
            Tiler::Base(t) => t.image,
            Tiler::Bouncy(t) => t.image,
        }
    }

    /// The side of a module in pixels.
    pub open spec fn block(&self) -> int {
        match self {
            Tiler::Base(t) => t.block_size as int,
            Tiler::Bouncy(t) => t.block_size as int,
        }
    }

    /// The phase in which the next module is drawn. The flat style has one phase.
    pub open spec fn phase(&self) -> bool {
        match self {
            Tiler::Base(_) => false,
            Tiler::Bouncy(t) => t.bounce,
        }
    }

    /// The phase in which the module after `count` others is drawn.
    pub open spec fn phase_at(&self, count: int) -> bool {
        match self {
            Tiler::Base(_) => false,
            Tiler::Bouncy(t) => phase_after(t.bounce, count),
        }
    }

    /// The colour that a module of the given value, drawn in the given
    /// phase, gets at the offset `(dx, dy)` from its top-left pixel.
    pub open spec fn ink(&self, phase: bool, value: bool, dx: int, dy: int) -> Color {
        match self {
            Tiler::Base(_) => shade(value),
            Tiler::Bouncy(t) => t.sheet.at(frame_origin(phase, value) + dx, dy),
        }
    }

    /// Whether the two draw modules in the same way: in the same style, with
    /// the same module size and from the same sheet.
    pub open spec fn same_style(&self, other: Tiler) -> bool {
        match (*self, other) {
            (Tiler::Base(a), Tiler::Base(b)) => a.block_size == b.block_size,
            (Tiler::Bouncy(a), Tiler::Bouncy(b)) => a.block_size == b.block_size && a.sheet
                == b.sheet,
            _ => false,
        }
    }

    /// Draws the module `(x, y)`.
    pub fn tile(&mut self, x: u32, y: u32, value: bool)
        requires
            old(self).wf(),
            x * old(self).block() + old(self).block() <= old(self).image().spec_width(),
            y * old(self).block() + old(self).block() <= old(self).image().spec_height(),
        ensures
            final(self).wf(),
            final(self).same_style(*old(self)),
            final(self).phase() == old(self).phase_at(1),
            final(self).image().same_size(old(self).image()),
            forall|px: int, py: int|
                #![trigger final(self).image().at(px, py)]
                final(self).image().at(px, py) == if in_rect(
                    px,
                    py,
                    x * old(self).block(),
                    y * old(self).block(),
                    old(self).block(),
                    old(self).block(),
                ) {
                    old(self).ink(
                        old(self).phase(),
                        value,
                        px - x * old(self).block(),
                        py - y * old(self).block(),
                    )
                } else {
                    old(self).image().at(px, py)
                },
    {
        match self {
            Tiler::Base(t) => t.tile(x, y, value),
            Tiler::Bouncy(t) => t.tile(x, y, value),
        }
    }

    /// A copy of the canvas as it stands.
    pub fn finalize(&self) -> (image: Canvas)
        ensures
            image.same_size(self.image()),
            forall|x: int, y: int| #[trigger] image.at(x, y) == self.image().at(x, y),
    {
        match self {
            Tiler::Base(t) => t.finalize(),
            Tiler::Bouncy(t) => t.finalize(),
        }
    }
}

/// `picture` shows the matrix `g` as `start` draws it, module after module,
/// row by row from the top and in each row from the left.
pub open spec fn drawn(start: Tiler, g: Seq<Seq<bool>>, picture: Canvas) -> bool {
    let bs = start.block();
    let n = g.len() as int;
    &&& picture.spec_width() == n * bs
    &&& picture.spec_height() == n * bs
    &&& forall|px: int, py: int|
        picture.holds(px, py) ==> #[trigger] picture.at(px, py) == start.ink(
            start.phase_at((py / bs) * n + px / bs),
            g[py / bs][px / bs],
            px - (px / bs) * bs,
            py - (py / bs) * bs,
        )
}

/// Draws every module of the matrix, row by row from the top and in each
/// row from the left.
pub fn tile_matrix(tiler: &mut Tiler, matrix: &Vec<Vec<bool>>)
    requires
        old(tiler).wf(),
        square(grid(matrix)),
        matrix@.len() <= u32::MAX,
        old(tiler).image().spec_width() == matrix@.len() * old(tiler).block(),
        old(tiler).image().spec_height() == matrix@.len() * old(tiler).block(),
    ensures
        final(tiler).wf(),
        final(tiler).same_style(*old(tiler)),
        final(tiler).phase() == old(tiler).phase_at((matrix@.len() * matrix@.len()) as int),
        drawn(*old(tiler), grid(matrix), final(tiler).image()),
{
    let n: usize = matrix.len();
    let ghost start = *tiler;
    let ghost bs = start.block();
    let ghost g = grid(matrix);
    let mut y: usize = 0;
    while y < n
        invariant
            0 <= y <= n,
            n == matrix@.len(),
            n <= u32::MAX,
            g == grid(matrix),
            square(g),
            bs == start.block(),
            bs >= 0,
            tiler.wf(),
            tiler.same_style(start),
            tiler.image().same_size(start.image()),
            start.image().spec_width() == n * bs,
            start.image().spec_height() == n * bs,
            tiler.phase() == start.phase_at(y * n),
            forall|px: int, py: int|
                #![trigger tiler.image().at(px, py)]
                tiler.image().at(px, py) == if bs > 0 && 0 <= px / bs < n && 0 <= py / bs < y {
                    start.ink(
                        start.phase_at((py / bs) * n + px / bs),
                        g[py / bs][px / bs],
                        px - (px / bs) * bs,
                        py - (py / bs) * bs,
                    )
                } else {
                    start.image().at(px, py)
                },
        decreases n - y,
    {
        assert(g[y as int].len() == n);
        let row = &matrix[y];
        let mut x: usize = 0;
        while x < n
            invariant
                0 <= x <= n,
                0 <= y < n,
                n == matrix@.len(),
                n <= u32::MAX,
                row@ == g[y as int],
                row@.len() == n,
                g == grid(matrix),
                bs == start.block(),
                bs >= 0,
                tiler.wf(),
                tiler.same_style(start),
                tiler.image().same_size(start.image()),
                start.image().spec_width() == n * bs,
                start.image().spec_height() == n * bs,
                tiler.phase() == start.phase_at(y * n + x),
                forall|px: int, py: int|
                    #![trigger tiler.image().at(px, py)]
                    tiler.image().at(px, py) == if bs > 0 && 0 <= px / bs < n && (0 <= py / bs < y
                        || (py / bs == y && px / bs < x)) {
                        start.ink(
                            start.phase_at((py / bs) * n + px / bs),
                            g[py / bs][px / bs],
                            px - (px / bs) * bs,
                            py - (py / bs) * bs,
                        )
                    } else {
                        start.image().at(px, py)
                    },
            decreases n - x,
        {
            let value: bool = row[x];
            let ghost prev = *tiler;
            proof {
                assert(x * bs + bs <= n * bs && y * bs + bs <= n * bs) by (nonlinear_arith)
                    requires
                        x + 1 <= n,
                        y + 1 <= n,
                        bs >= 0,
                ;
            }
            tiler.tile(x as u32, y as u32, value);
            proof {
                assert forall|px: int, py: int|
                    #![trigger tiler.image().at(px, py)]
                    tiler.image().at(px, py) == if bs > 0 && 0 <= px / bs < n && (0 <= py / bs < y
                        || (py / bs == y && px / bs < x + 1)) {
                        start.ink(
                            start.phase_at((py / bs) * n + px / bs),
                            g[py / bs][px / bs],
                            px - (px / bs) * bs,
                            py - (py / bs) * bs,
                        )
                    } else {
                        start.image().at(px, py)
                    } by {
                    let _ = prev.image().at(px, py);
                    if bs > 0 {
                        lemma_cell_of_pixel(px, bs, x as int);
                        lemma_cell_of_pixel(py, bs, y as int);
                    }
                }
            }
            x += 1;
        }
        proof {
            assert(y * n + n == (y + 1) * n) by (nonlinear_arith);
        }
        y += 1;
    }
    proof {
        assert forall|px: int, py: int| tiler.image().holds(px, py) implies #[trigger]
            tiler.image().at(px, py) == start.ink(
            start.phase_at((py / bs) * n + px / bs),
            g[py / bs][px / bs],
            px - (px / bs) * bs,
            py - (py / bs) * bs,
        ) by {
            lemma_cell_range(px, bs, n as int);
            lemma_cell_range(py, bs, n as int);
        }
    }
}

/// The picture of the matrix `g` in the flat style: `bs` pixels per module,
/// black for a dark module and white for a light one.
pub open spec fn flat_picture(g: Seq<Seq<bool>>, bs: int, picture: Canvas) -> bool {
    let n = g.len() as int;
    &&& picture.spec_width() == n * bs
    &&& picture.spec_height() == n * bs
    &&& forall|px: int, py: int|
        picture.holds(px, py) ==> #[trigger] picture.at(px, py) == shade(g[py / bs][px / bs])
}

/// The picture of the matrix `g` in the sprite style, before any marker is
/// stamped: each module shows the frame for its value, in the lower phase
/// where an even number of modules comes before it in its row and the rows
/// above, and in the raised phase otherwise.
pub open spec fn sprite_picture(g: Seq<Seq<bool>>, sheet: Canvas, picture: Canvas) -> bool {
    let n = g.len() as int;
    &&& picture.spec_width() == n * 32
    &&& picture.spec_height() == n * 32
    &&& forall|px: int, py: int|
        picture.holds(px, py) ==> #[trigger] picture.at(px, py) == sheet.at(
            frame_origin(phase_after(false, (py / 32) * n + px / 32), g[py / 32][px / 32]) + px - (
            px / 32) * 32,
            py - (py / 32) * 32,
        )
}

/// Whether the sheet is there and holds four frames side by side.
pub open spec fn sheet_usable(sheet: Option<Canvas>) -> bool {
    sheet is Some && sheet->0.spec_width() >= 4 * SPRITE_SIZE && sheet->0.spec_height()
        >= SPRITE_SIZE
}

/// The reason for which no picture of `g` is made, if there is one.
pub open spec fn render_failure(
    g: Seq<Seq<bool>>,
    style: Tilers,
    block_size: int,
    sheet: Option<Canvas>,
) -> Option<RenderError> {
    let n = g.len() as int;
    if !square(g) || n > u32::MAX {
        Some(RenderError::GeometryPrecondition)
    } else {
        match style {
            Tilers::Base => if canvas_fits(n, block_size) && fits(block_size, block_size) {
                None
            } else {
                Some(RenderError::GeometryPrecondition)
            },
            Tilers::Bouncy => if !sheet_usable(sheet) {
                Some(RenderError::AssetLoadFailure)
            } else if canvas_fits(n, 32) && markers_inside(n) {
                None
            } else {
                Some(RenderError::GeometryPrecondition)
            },
        }
    }
}

/// `r` is what rendering the matrix `g` gives: the failure, where there is a
/// reason for one; otherwise the flat picture, or the sprite picture with
/// the finder patterns and then the alignment markers stamped over it.
pub open spec fn rendered(
    g: Seq<Seq<bool>>,
    style: Tilers,
    block_size: int,
    sheet: Option<Canvas>,
    r: Result<Canvas, RenderError>,
) -> bool {
    match render_failure(g, style, block_size, sheet) {
        Some(e) => r is Err && r->Err_0 == e,
        None => r is Ok && match style {
            Tilers::Base => flat_picture(g, block_size, r->Ok_0),
            Tilers::Bouncy => exists|tiled: Canvas, mid: Canvas|
                #![trigger finders_stamped(tiled, mid, 32)]
                sprite_picture(g, sheet->0, tiled) && finders_stamped(tiled, mid, 32)
                    && markers_stamped(mid, r->Ok_0, 32),
        },
    }
}

/// Whether the matrix has at least one row, no more rows than a canvas can
/// have pixels per side, and as many columns in every row as it has rows.
pub fn is_square(matrix: &Vec<Vec<bool>>) -> (ok: bool)
    ensures
        ok == (square(grid(matrix)) && matrix@.len() <= u32::MAX),
{
    let n: usize = matrix.len();
    if n == 0 || n > 0xFFFF_FFFF {
        return false;
    }
    let mut i: usize = 0;
    while i < n
        invariant
            0 <= i <= n,
            n == matrix@.len(),
            forall|k: int| 0 <= k < i ==> (#[trigger] grid(matrix)[k]).len() == n,
        decreases n - i,
    {
        if matrix[i].len() != n {
            assert(grid(matrix)[i as int].len() != n);
            return false;
        }
        i += 1;
    }
    true
}

/// Whether a canvas for `n` modules per side, each of `block_size` pixels,
/// can be made.
pub fn canvas_possible(n: u32, block_size: u32) -> (ok: bool)
    ensures
        ok == canvas_fits(n as int, block_size as int),
{
    assert((n as u64) * (block_size as u64) <= 0xFFFF_FFFFu64 * 0xFFFF_FFFFu64)
        by (nonlinear_arith)
        requires
            n <= 0xFFFF_FFFFu64,
            block_size <= 0xFFFF_FFFFu64,
    ;
    let side: u64 = (n as u64) * (block_size as u64);
    if side > 0xFFFF_FFFF {
        return false;
    }
    Canvas::can_hold(side as u32, side as u32)
}

/// Renders a module matrix in the chosen style. The flat style draws
/// modules of `block_size` pixels and needs no sheet. The sprite style draws
/// from `sheet`, with modules of the sheet's frame size whatever `block_size`
/// is, and then stamps finder patterns and alignment markers over the picture.
pub fn render_matrix(
    matrix: &Vec<Vec<bool>>,
    style: Tilers,
    block_size: u32,
    sheet: Option<Canvas>,
) -> (r: Result<Canvas, RenderError>)
    ensures
        rendered(grid(matrix), style, block_size as int, sheet, r),
{
    if !is_square(matrix) {
        return Err(RenderError::GeometryPrecondition);
    }
    let width: u32 = matrix.len() as u32;
    let ghost g = grid(matrix);
    match style {
        Tilers::Base => {
            if !canvas_possible(width, block_size) || !Canvas::can_hold(block_size, block_size) {
                return Err(RenderError::GeometryPrecondition);
            }
            let mut tiler = Tiler::Base(BaseTiler::new(block_size, width));
            tile_matrix(&mut tiler, matrix);
            let image = tiler.finalize();
            assert(flat_picture(g, block_size as int, image));
            Ok(image)
        },
        Tilers::Bouncy => {
            let sheet = match sheet {
                Some(s) => s,
                None => {
                    return Err(RenderError::AssetLoadFailure);
                },
            };
            if sheet.width() < 4 * SPRITE_SIZE || sheet.height() < SPRITE_SIZE {
                return Err(RenderError::AssetLoadFailure);
            }
            if !canvas_possible(width, SPRITE_SIZE) || !markers_fit(width) {
                return Err(RenderError::GeometryPrecondition);
            }
            let mut tiler = Tiler::Bouncy(BouncyTiler::new(width, sheet));
            tile_matrix(&mut tiler, matrix);
            let mut image = tiler.finalize();
            let ghost tiled = image;
            assert(sprite_picture(g, sheet, tiled));
            write_position_blocks(&mut image, SPRITE_SIZE);
            let ghost mid = image;
            write_alignment_blocks(&mut image, SPRITE_SIZE);
            assert(finders_stamped(tiled, mid, 32) && markers_stamped(mid, image, 32));
            Ok(image)
        },
    }
}

/// The error type of the `qrcode_generator` crate, carried from the encoder
/// to the place where it is turned into a `RenderError`.
#[verifier::external_type_specification]
#[verifier::external_body]
pub struct ExQRCodeError(qrcode_generator::QRCodeError);

/// The module matrix that the encoder makes of a text at the quartile
/// error-correction level, or `None` where the text is too long for any symbol.
pub uninterp spec fn quartile_matrix(content: Seq<char>) -> Option<Seq<Seq<bool>>>;

/// `qrcode_generator::to_matrix` at the quartile level. The encoder is a
/// function of the text alone; what it returns is not described here but named.
#[verifier::external_body]
fn to_matrix(content: &str) -> (r: Result<Vec<Vec<bool>>, qrcode_generator::QRCodeError>)
    ensures
        match r {
            Ok(m) => quartile_matrix(content@) == Some(grid(&m)),
            Err(_) => quartile_matrix(content@) is None,
        },
{
    qrcode_generator::to_matrix(content, qrcode_generator::QrCodeEcc::Quartile)
}

/// The module matrix of a text, or `EncodingCapacityExceeded` where the text
/// is too long.
pub fn encode(content: &str) -> (r: Result<Vec<Vec<bool>>, RenderError>)
    ensures
        match quartile_matrix(content@) {
            Some(g) => r is Ok && grid(&r->Ok_0) == g,
            None => r is Err && r->Err_0 == RenderError::EncodingCapacityExceeded,
        },
{
    match to_matrix(content) {
        Ok(matrix) => Ok(matrix),
        Err(_) => Err(RenderError::EncodingCapacityExceeded),
    }
}

/// Encodes a text and renders its module matrix in the chosen style.
pub fn render(content: &str, style: Tilers, block_size: u32, sheet: Option<Canvas>) -> (r: Result<
    Canvas,
    RenderError,
>)
    ensures
        match quartile_matrix(content@) {
            Some(g) => rendered(g, style, block_size as int, sheet, r),
            None => r is Err && r->Err_0 == RenderError::EncodingCapacityExceeded,
        },
{
    match encode(content) {
        Ok(matrix) => render_matrix(&matrix, style, block_size, sheet),
        Err(e) => Err(e),
    }
}

/// The module in column `x` and row `y` of a matrix.
pub open spec fn module_at(g: Seq<Seq<bool>>, x: int, y: int) -> bool {
    g[y][x]
}

/// Whether the matrix shows the finder pattern with its top-left module at `(x0, y0)`.
pub open spec fn finder_shown(g: Seq<Seq<bool>>, x0: int, y0: int) -> bool {
    forall|x: int, y: int|
        x0 <= x < x0 + 7 && y0 <= y < y0 + 7 ==> #[trigger] module_at(g, x, y) == finder_dark(
            x - x0,
            y - y0,
        )
}

/// Whether the matrix shows the alignment pattern round the centre `(cx, cy)`.
pub open spec fn marker_shown(g: Seq<Seq<bool>>, cx: int, cy: int) -> bool {
    forall|x: int, y: int|
        cx - 2 <= x < cx + 3 && cy - 2 <= y < cy + 3 ==> #[trigger] module_at(g, x, y)
            == alignment_dark(x - (cx - 2), y - (cy - 2))
}

/// Whether the matrix is laid out as a symbol is: with a finder pattern in
/// three corners and an alignment pattern round every marker centre of its size.
pub open spec fn symbol_layout(g: Seq<Seq<bool>>) -> bool {
    let n = g.len() as int;
    let coords = alignment_coords(version_of(n), n);
    let centres = marker_centres(coords, n, coords.len() as int, 0);
    &&& n >= 7
    &&& finder_shown(g, 0, 0)
    &&& finder_shown(g, n - 7, 0)
    &&& finder_shown(g, 0, n - 7)
    &&& forall|k: int|
        0 <= k < centres.len() ==> marker_shown(g, (#[trigger] centres[k]).0, centres[k].1)
}

/// Markers stamped over the flat picture of a matrix that shows the
/// alignment pattern round each of their centres change no pixel.
pub proof fn lemma_markers_keep_flat_picture(
    g: Seq<Seq<bool>>,
    bs: int,
    base: Canvas,
    centres: Seq<(int, int)>,
    px: int,
    py: int,
)
    requires
        bs > 0,
        flat_picture(g, bs, base),
        base.holds(px, py),
        forall|k: int|
            0 <= k < centres.len() ==> marker_shown(g, (#[trigger] centres[k]).0, centres[k].1),
    ensures
        after_markers(base, centres, bs, px, py) == base.at(px, py),
    decreases centres.len(),
{
    if centres.len() > 0 {
        let c = centres.last();
        let x0 = (c.0 - 2) * bs;
        let y0 = (c.1 - 2) * bs;
        if in_rect(px, py, x0, y0, 5 * bs, 5 * bs) {
            lemma_cell_shift(px, bs, c.0 - 2);
            lemma_cell_shift(py, bs, c.1 - 2);
            lemma_cell_range(px - x0, bs, 5);
            lemma_cell_range(py - y0, bs, 5);
            assert(marker_shown(g, centres[centres.len() - 1].0, centres[centres.len() - 1].1));
            assert(module_at(g, px / bs, py / bs) == alignment_dark(
                px / bs - (c.0 - 2),
                py / bs - (c.1 - 2),
            ));
        } else {
            let rest = centres.drop_last();
            assert forall|k: int| 0 <= k < rest.len() implies marker_shown(
                g,
                (#[trigger] rest[k]).0,
                rest[k].1,
            ) by {
                assert(rest[k] == centres[k]);
            }
            lemma_markers_keep_flat_picture(g, bs, base, rest, px, py);
        }
    }
}

/// Stamping the finder patterns and then the alignment markers over the flat
/// picture of a matrix that is laid out as a symbol changes no pixel.
pub proof fn lemma_stamping_keeps_flat_symbol(
    g: Seq<Seq<bool>>,
    bs: int,
    picture: Canvas,
    mid: Canvas,
    stamped: Canvas,
)
    requires
        bs > 0,
        symbol_layout(g),
        flat_picture(g, bs, picture),
        finders_stamped(picture, mid, bs),
        markers_stamped(mid, stamped, bs),
    ensures
        mid.same_picture(picture),
        stamped.same_picture(picture),
{
    let n = g.len() as int;
    let w = picture.spec_width() as int;
    assert((n - 7) * bs == n * bs - 7 * bs) by (nonlinear_arith);
    assert forall|px: int, py: int| mid.holds(px, py) implies #[trigger] mid.at(px, py)
        == picture.at(px, py) by {
        lemma_cell_range(px, bs, n);
        lemma_cell_range(py, bs, n);
        if in_rect(px, py, 0, w - 7 * bs, 7 * bs, 7 * bs) {
            lemma_cell_shift(py, bs, n - 7);
            lemma_cell_range(px, bs, 7);
            lemma_cell_range(py - (n - 7) * bs, bs, 7);
            assert(module_at(g, px / bs, py / bs) == finder_dark(px / bs, py / bs - (n - 7)));
        } else if in_rect(px, py, w - 7 * bs, 0, 7 * bs, 7 * bs) {
            lemma_cell_shift(px, bs, n - 7);
            lemma_cell_range(py, bs, 7);
            lemma_cell_range(px - (n - 7) * bs, bs, 7);
            assert(module_at(g, px / bs, py / bs) == finder_dark(px / bs - (n - 7), py / bs));
        } else if in_rect(px, py, 0, 0, 7 * bs, 7 * bs) {
            lemma_cell_range(px, bs, 7);
            lemma_cell_range(py, bs, 7);
            assert(module_at(g, px / bs, py / bs) == finder_dark(px / bs, py / bs));
        }
    }
    assert(flat_picture(g, bs, mid));
    lemma_cell_shift(n * bs, bs, n);
    assert(mid.spec_width() as int / bs == n);
    let coords = alignment_coords(version_of(n), n);
    let centres = marker_centres(coords, n, coords.len() as int, 0);
    assert forall|px: int, py: int| stamped.holds(px, py) implies #[trigger] stamped.at(px, py)
        == picture.at(px, py) by {
        lemma_markers_keep_flat_picture(g, bs, mid, centres, px, py);
    }
}

/// One tiler draws one matrix in one way only: two pictures of the same
/// matrix from the same start are the same picture.
pub proof fn lemma_drawing_is_determined(start: Tiler, g: Seq<Seq<bool>>, a: Canvas, b: Canvas)
    requires
        drawn(start, g, a),
        drawn(start, g, b),
    ensures
        a.same_picture(b),
{
    assert forall|x: int, y: int| a.holds(x, y) implies #[trigger] a.at(x, y) == b.at(x, y) by {
        assert(b.holds(x, y));
    }
}

} // verus!
