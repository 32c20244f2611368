use vstd::prelude::*;

verus! {

/// One pixel: red, green, blue and alpha channel.
pub type Color = (u8, u8, u8, u8);

/// A two-dimensional pixel buffer, kept in an `image::RgbaImage`.
///
/// The buffer belongs to the `image` crate, so nothing inside it is visible to
/// the verifier: its size and its pixels are known through `canvas_width`,
/// `canvas_height` and `canvas_pixels` alone.
#[verifier::external_body]
pub struct Canvas {
    inner: image::RgbaImage,
}

/// The number of pixel columns of a canvas.
pub uninterp spec fn canvas_width(c: Canvas) -> u32;

/// The number of pixel rows of a canvas.
pub uninterp spec fn canvas_height(c: Canvas) -> u32;

/// The pixels of a canvas by column and row, `(x, y)`.
pub uninterp spec fn canvas_pixels(c: Canvas) -> Map<(int, int), Color>;

/// Whether a buffer of this size can be allocated: four bytes for each pixel,
/// no more than `isize::MAX` bytes in all.
pub open spec fn fits(w: int, h: int) -> bool {
    w * h * 4 <= isize::MAX
}

/// Whether the point lies in the rectangle of the given origin and size.
pub open spec fn in_rect(x: int, y: int, x0: int, y0: int, w: int, h: int) -> bool {
    x0 <= x < x0 + w && y0 <= y < y0 + h
}

/// `after` is `before` with the rectangle `(sx, sy, w, h)` of `src` copied to `(dx, dy)`.
pub open spec fn pasted(
    before: Canvas,
    after: Canvas,
    src: Canvas,
    sx: int,
    sy: int,
    w: int,
    h: int,
    dx: int,
    dy: int,
) -> bool {
    &&& after.same_size(before)
    &&& forall|x: int, y: int|
        #![trigger after.at(x, y)]
        after.at(x, y) == if in_rect(x, y, dx, dy, w, h) {
            src.at(x - dx + sx, y - dy + sy)
        } else {
            before.at(x, y)
        }
}

/// `ImageBuffer::new`: a buffer of the given size whose channels are all zero.
/// It panics where the byte length overflows, which `fits` excludes.
#[verifier::external_body]
fn raw_new(w: u32, h: u32) -> (c: Canvas)
    requires
        fits(w as int, h as int),
    ensures
        canvas_width(c) == w,
        canvas_height(c) == h,
        forall|x: int, y: int|
            0 <= x < w && 0 <= y < h ==> #[trigger] canvas_pixels(c)[(x, y)] == (0u8, 0u8, 0u8, 0u8),
{
    Canvas { inner: image::RgbaImage::new(w, h) }
}

/// `ImageBuffer::from_pixel`: a buffer of the given size, every pixel the given one.
#[verifier::external_body]
fn raw_from_pixel(w: u32, h: u32, color: Color) -> (c: Canvas)
    requires
        fits(w as int, h as int),
    ensures
        canvas_width(c) == w,
        canvas_height(c) == h,
        forall|x: int, y: int|
            0 <= x < w && 0 <= y < h ==> #[trigger] canvas_pixels(c)[(x, y)] == color,
{
    Canvas { inner: image::RgbaImage::from_pixel(w, h, image::Rgba([color.0, color.1, color.2, color.3])) }
}

/// `ImageBuffer::width`.
#[verifier::external_body]
fn raw_width(c: &Canvas) -> (w: u32)
    ensures
        w == canvas_width(*c),
{
    c.inner.width()
}

/// `ImageBuffer::height`.
#[verifier::external_body]
fn raw_height(c: &Canvas) -> (h: u32)
    ensures
        h == canvas_height(*c),
{
    c.inner.height()
}

/// `ImageBuffer::get_pixel`: the four channels of the pixel at `(x, y)`.
/// It panics outside the buffer.
#[verifier::external_body]
fn raw_get_pixel(c: &Canvas, x: u32, y: u32) -> (color: Color)
    requires
        x < canvas_width(*c),
        y < canvas_height(*c),
    ensures
        color == canvas_pixels(*c)[(x as int, y as int)],
{
    let p = c.inner.get_pixel(x, y);
    (p.0[0], p.0[1], p.0[2], p.0[3])
}

/// `ImageBuffer::get_pixel_mut`, written through: the pixel at `(x, y)` becomes
/// the given one, every other pixel and the size stay. It panics outside the buffer.
#[verifier::external_body]
fn raw_set_pixel(c: &mut Canvas, x: u32, y: u32, color: Color)
    requires
        x < canvas_width(*old(c)),
        y < canvas_height(*old(c)),
    ensures
        canvas_width(*final(c)) == canvas_width(*old(c)),
        canvas_height(*final(c)) == canvas_height(*old(c)),
        canvas_pixels(*final(c)) == canvas_pixels(*old(c)).insert((x as int, y as int), color),
{
    *c.inner.get_pixel_mut(x, y) = image::Rgba([color.0, color.1, color.2, color.3]);
}

/// `Clone::clone` of the buffer: a second buffer of the same size and pixels.
#[verifier::external_body]
fn raw_clone(c: &Canvas) -> (copy: Canvas)
    ensures
        canvas_width(copy) == canvas_width(*c),
        canvas_height(copy) == canvas_height(*c),
        canvas_pixels(copy) == canvas_pixels(*c),
{
    Canvas { inner: c.inner.clone() }
}

/// Sets one pixel of the canvas; every other pixel stays.
fn put(c: &mut Canvas, x: u32, y: u32, color: Color)
    requires
        old(c).holds(x as int, y as int),
    ensures
        final(c).same_size(*old(c)),
        forall|px: int, py: int|
            #![trigger final(c).at(px, py)]
            final(c).at(px, py) == if px == x && py == y {
                color
            } else {
                old(c).at(px, py)
            },
{
    raw_set_pixel(c, x, y, color);
    proof {
        assert forall|px: int, py: int|
            #![trigger c.at(px, py)]
            c.at(px, py) == if px == x && py == y {
                color
            } else {
                old(c).at(px, py)
            } by {
            if !(px == x && py == y) {
                assert((px, py) != (x as int, y as int));
            }
        }
    }
}

impl Canvas {
    /// The pixel at column `x`, row `y`.
    pub open spec fn at(&self, x: int, y: int) -> Color {
        canvas_pixels(*self)[(x, y)]
    }

    pub open spec fn spec_width(&self) -> nat {
        canvas_width(*self) as nat
    }

    pub open spec fn spec_height(&self) -> nat {
        canvas_height(*self) as nat
    }

    /// Whether `(x, y)` is a pixel of this canvas.
    pub open spec fn holds(&self, x: int, y: int) -> bool {
        0 <= x < self.spec_width() && 0 <= y < self.spec_height()
    }

    pub open spec fn same_size(&self, other: Canvas) -> bool {
        self.spec_width() == other.spec_width() && self.spec_height() == other.spec_height()
    }

    /// Whether the two canvases have the same size and the same pixels.
    pub open spec fn same_picture(&self, other: Canvas) -> bool {
        self.same_size(other) && forall|x: int, y: int|
            self.holds(x, y) ==> #[trigger] self.at(x, y) == other.at(x, y)
    }

    /// Whether every pixel of the canvas has this colour.
    pub open spec fn solid(&self, color: Color) -> bool {
        forall|x: int, y: int| self.holds(x, y) ==> #[trigger] self.at(x, y) == color
    }

    /// Whether a canvas of this size can be made.
    pub fn can_hold(w: u32, h: u32) -> (ok: bool)
        ensures
            ok == fits(w as int, h as int),
    {
        assert((w as u64) * (h as u64) <= 0xFFFF_FFFFu64 * 0xFFFF_FFFFu64) by (nonlinear_arith)
            requires
                w <= 0xFFFF_FFFFu64,
                h <= 0xFFFF_FFFFu64,
        ;
        let area: u64 = (w as u64) * (h as u64);
        let limit: u64 = (isize::MAX as u64) / 4;
        area <= limit
    }

    /// A canvas of the given size with every channel of every pixel zero,
    /// or `None` where that size cannot be allocated.
    pub fn blank(w: u32, h: u32) -> (c: Option<Canvas>)
        ensures
            c is Some <==> fits(w as int, h as int),
            c is Some ==> c->0.spec_width() == w && c->0.spec_height() == h && c->0.solid(
                (0u8, 0u8, 0u8, 0u8),
            ),
    {
        if Canvas::can_hold(w, h) {
            Some(raw_new(w, h))
        } else {
            None
        }
    }

    /// A canvas of the given size and of one colour, or `None` where that size
    /// cannot be allocated.
    pub fn filled(w: u32, h: u32, color: Color) -> (c: Option<Canvas>)
        ensures
            c is Some <==> fits(w as int, h as int),
            c is Some ==> c->0.spec_width() == w && c->0.spec_height() == h && c->0.solid(color),
    {
        if Canvas::can_hold(w, h) {
            Some(raw_from_pixel(w, h, color))
        } else {
            None
        }
    }

    pub fn width(&self) -> (w: u32)
        ensures
            w == self.spec_width(),
    {
        raw_width(self)
    }

    pub fn height(&self) -> (h: u32)
        ensures
            h == self.spec_height(),
    {
        raw_height(self)
    }

    /// The pixel at `(x, y)`, or `None` outside the canvas.
    pub fn pixel(&self, x: u32, y: u32) -> (p: Option<Color>)
        ensures
            p == if self.holds(x as int, y as int) {
                Some(self.at(x as int, y as int))
            } else {
                None
            },
    {
        if x < raw_width(self) && y < raw_height(self) {
            Some(raw_get_pixel(self, x, y))
        } else {
            None
        }
    }

    /// Sets the pixel at `(x, y)` and says whether it did: outside the canvas
    /// nothing changes.
    pub fn set_pixel(&mut self, x: u32, y: u32, color: Color) -> (done: bool)
        ensures
            done == old(self).holds(x as int, y as int),
            final(self).same_size(*old(self)),
            forall|px: int, py: int|
                #![trigger final(self).at(px, py)]
                final(self).at(px, py) == if done && px == x && py == y {
                    color
                } else {
                    old(self).at(px, py)
                },
    {
        if x < raw_width(self) && y < raw_height(self) {
            put(self, x, y, color);
            true
        } else {
            false
        }
    }

    /// A second canvas with the same size and pixels.
    pub fn duplicate(&self) -> (copy: Canvas)
        ensures
            copy.same_size(*self),
            forall|x: int, y: int| #[trigger] copy.at(x, y) == self.at(x, y),
    {
        raw_clone(self)
    }
}

/// Copies the rectangle of `src` with origin `(srcx0, srcy0)` and the given
/// size onto `dst` at `(dstx0, dsty0)`, channel for channel. Both rectangles
/// lie inside their canvases.
pub fn copy_paste(
    src: &Canvas,
    dst: &mut Canvas,
    srcx0: u32,
    srcy0: u32,
    srcwidth: u32,
    srcheight: u32,
    dstx0: u32,
    dsty0: u32,
)
    requires
        srcx0 + srcwidth <= src.spec_width(),
        srcy0 + srcheight <= src.spec_height(),
        dstx0 + srcwidth <= old(dst).spec_width(),
        dsty0 + srcheight <= old(dst).spec_height(),
    ensures
        pasted(
            *old(dst),
            *final(dst),
            *src,
            srcx0 as int,
            srcy0 as int,
            srcwidth as int,
            srcheight as int,
            dstx0 as int,
            dsty0 as int,
        ),
{
    let mut x: u32 = 0;
    while x < srcwidth
        invariant
            x <= srcwidth,
            srcx0 + srcwidth <= src.spec_width(),
            srcy0 + srcheight <= src.spec_height(),
            dstx0 + srcwidth <= dst.spec_width(),
            dsty0 + srcheight <= dst.spec_height(),
            pasted(
                *old(dst),
                *dst,
                *src,
                srcx0 as int,
                srcy0 as int,
                x as int,
                srcheight as int,
                dstx0 as int,
                dsty0 as int,
            ),
        decreases srcwidth - x,
    {
        let mut y: u32 = 0;
        while y < srcheight
            invariant
                x < srcwidth,
                y <= srcheight,
                srcx0 + srcwidth <= src.spec_width(),
                srcy0 + srcheight <= src.spec_height(),
                dstx0 + srcwidth <= dst.spec_width(),
                dsty0 + srcheight <= dst.spec_height(),
                dst.same_size(*old(dst)),
                forall|px: int, py: int|
                    #![trigger dst.at(px, py)]
                    dst.at(px, py) == if in_rect(
                        px,
                        py,
                        dstx0 as int,
                        dsty0 as int,
                        x as int,
                        srcheight as int,
                    ) || in_rect(px, py, dstx0 + x, dsty0 as int, 1, y as int) {
                        src.at(px - dstx0 + srcx0, py - dsty0 + srcy0)
                    } else {
                        old(dst).at(px, py)
                    },
            decreases srcheight - y,
        {
            let color = raw_get_pixel(src, srcx0 + x, srcy0 + y);
            put(dst, dstx0 + x, dsty0 + y, color);
            y += 1;
        }
        x += 1;
    }
}

} // verus!
