use crate::pattern::shade;
use crate::raster::{copy_paste, fits, in_rect, Canvas};
use vstd::prelude::*;

verus! {

/// The tile styles that can be chosen.
#[derive(Debug, Copy, Clone, PartialEq, Eq, Structural)]
pub enum Tilers {
    Base,
    Bouncy,
}

impl Tilers {
    /// The name by which the style is chosen.
    pub fn to_string(&self) -> (name: String)
        ensures
            name@ == match *self {
                Tilers::Base => "base"@,
                Tilers::Bouncy => "bounce"@,
            },
    {
        match self {
            Tilers::Base => "base".to_owned(),
            Tilers::Bouncy => "bounce".to_owned(),
        }
    }
}

/// The side of one frame of the sprite sheet, in pixels.
pub const SPRITE_SIZE: u32 = 32;

/// The column of the sprite sheet at which the frame for a phase and a module's
/// value starts. The left half of the sheet holds the two frames of the lower
/// phase, the right half those of the raised phase; in each half the light
/// frame comes first and the dark one after it.
pub open spec fn frame_origin(bounce: bool, value: bool) -> int {
    (if bounce {
        64int
    } else {
        0int
    }) + (if value {
        32int
    } else {
        0int
    })
}

/// The phase after `count` more tiles: it changes with every tile.
pub open spec fn phase_after(start: bool, count: int) -> bool {
    start != (count % 2 == 1)
}

/// Draws every module as a square of black or of white.
pub struct BaseTiler {
    pub block_size: u32,
    pub image: Canvas,
    pub black: Canvas,
    pub white: Canvas,
}

impl BaseTiler {
    /// The two blocks have the size of a module and are black and white.
    pub open spec fn wf(&self) -> bool {
        &&& self.black.spec_width() == self.block_size
        &&& self.black.spec_height() == self.block_size
        &&& self.white.spec_width() == self.block_size
        &&& self.white.spec_height() == self.block_size
        &&& self.black.solid(shade(true))
        &&& self.white.solid(shade(false))
    }

    /// A tiler for a grid of `width` modules per side, on a canvas of
    /// `width * block_size` pixels per side that is still transparent.
    pub fn new(block_size: u32, width: u32) -> (tiler: BaseTiler)
        requires
            width * block_size <= u32::MAX,
            fits(width * block_size, width * block_size),
            fits(block_size as int, block_size as int),
        ensures
            tiler.wf(),
            tiler.block_size == block_size,
            tiler.image.spec_width() == width * block_size,
            tiler.image.spec_height() == width * block_size,
            tiler.image.solid((0u8, 0u8, 0u8, 0u8)),
    {
        let image = Canvas::blank(width * block_size, width * block_size).unwrap();
        let black = Canvas::filled(block_size, block_size, (0, 0, 0, 255)).unwrap();
        let white = Canvas::filled(block_size, block_size, (255, 255, 255, 255)).unwrap();
        BaseTiler { block_size, image, black, white }
    }

    /// Paints the module `(x, y)`: black where `value` holds, else white.
    pub fn tile(&mut self, x: u32, y: u32, value: bool)
        requires
            old(self).wf(),
            x * old(self).block_size + old(self).block_size <= old(self).image.spec_width(),
            y * old(self).block_size + old(self).block_size <= old(self).image.spec_height(),
        ensures
            final(self).wf(),
            final(self).block_size == old(self).block_size,
            final(self).black == old(self).black,
            final(self).white == old(self).white,
            final(self).image.same_size(old(self).image),
            forall|px: int, py: int|
                #![trigger final(self).image.at(px, py)]
                final(self).image.at(px, py) == if in_rect(
                    px,
                    py,
                    x * old(self).block_size,
                    y * old(self).block_size,
                    old(self).block_size as int,
                    old(self).block_size as int,
                ) {
                    shade(value)
                } else {
                    old(self).image.at(px, py)
                },
    {
        let dstx: u32 = x * self.block_size;
        let dsty: u32 = y * self.block_size;
        let ghost before = self.image;
        if value {
            copy_paste(
                &self.black,
                &mut self.image,
                0,
                0,
                self.block_size,
                self.block_size,
                dstx,
                dsty,
            );
        } else {
            copy_paste(
                &self.white,
                &mut self.image,
                0,
                0,
                self.block_size,
                self.block_size,
                dstx,
                dsty,
            );
        }
        proof {
            let bs = self.block_size as int;
            assert forall|px: int, py: int|
                #![trigger self.image.at(px, py)]
                self.image.at(px, py) == if in_rect(px, py, dstx as int, dsty as int, bs, bs) {
                    shade(value)
                } else {
                    before.at(px, py)
                } by {
                if in_rect(px, py, dstx as int, dsty as int, bs, bs) {
                    assert(self.black.holds(px - dstx, py - dsty));
                    assert(self.white.holds(px - dstx, py - dsty));
                }
            }
        }
    }

    /// A copy of the canvas as it stands; the tiler keeps its own.
    pub fn finalize(&self) -> (image: Canvas)
        ensures
            image.same_size(self.image),
            forall|x: int, y: int| #[trigger] image.at(x, y) == self.image.at(x, y),
    {
        self.image.duplicate()
    }
}

/// Draws every module from a sheet of four frames, and changes between the
/// two phases of the sheet with every module drawn.
pub struct BouncyTiler {
    pub block_size: u32,
    pub image: Canvas,
    pub sheet: Canvas,
    pub bounce: bool,
}

impl BouncyTiler {
    /// The modules have the size of a frame, and the sheet holds four frames
    /// side by side.
    pub open spec fn wf(&self) -> bool {
        &&& self.block_size == SPRITE_SIZE
        &&& self.sheet.spec_width() >= 4 * SPRITE_SIZE
        &&& self.sheet.spec_height() >= SPRITE_SIZE
    }

    /// A tiler for a grid of `width` modules per side that draws from
    /// `sheet`, in the lower phase, on a canvas that is still transparent.
    pub fn new(width: u32, sheet: Canvas) -> (tiler: BouncyTiler)
        requires
            sheet.spec_width() >= 4 * SPRITE_SIZE,
            sheet.spec_height() >= SPRITE_SIZE,
            width * SPRITE_SIZE <= u32::MAX,
            fits(width * SPRITE_SIZE, width * SPRITE_SIZE),
        ensures
            tiler.wf(),
            tiler.sheet == sheet,
            !tiler.bounce,
            tiler.image.spec_width() == width * SPRITE_SIZE,
            tiler.image.spec_height() == width * SPRITE_SIZE,
            tiler.image.solid((0u8, 0u8, 0u8, 0u8)),
    {
        let block_size: u32 = SPRITE_SIZE;
        BouncyTiler {
            block_size,
            image: Canvas::blank(width * block_size, width * block_size).unwrap(),
            sheet,
            bounce: false,
        }
    }

    /// Paints the module `(x, y)` with the frame of the current phase for
    /// `value`, and changes the phase.
    pub fn tile(&mut self, x: u32, y: u32, value: bool)
        requires
            old(self).wf(),
            x * SPRITE_SIZE + SPRITE_SIZE <= old(self).image.spec_width(),
            y * SPRITE_SIZE + SPRITE_SIZE <= old(self).image.spec_height(),
        ensures
            final(self).wf(),
            final(self).block_size == old(self).block_size,
            final(self).sheet == old(self).sheet,
            final(self).bounce == !old(self).bounce,
            final(self).image.same_size(old(self).image),
            forall|px: int, py: int|
                #![trigger final(self).image.at(px, py)]
                final(self).image.at(px, py) == if in_rect(
                    px,
                    py,
                    x * SPRITE_SIZE,
                    y * SPRITE_SIZE,
                    SPRITE_SIZE as int,
                    SPRITE_SIZE as int,
                ) {
                    old(self).sheet.at(
                        frame_origin(old(self).bounce, value) + px - x * SPRITE_SIZE,
                        py - y * SPRITE_SIZE,
                    )
                } else {
                    old(self).image.at(px, py)
                },
    {
        let mut x0: u32 = if self.bounce {
            64
        } else {
            0
        };
        x0 = if value {
            x0 + 32
        } else {
            x0
        };
        let dst_x: u32 = x * self.block_size;
        let dst_y: u32 = y * self.block_size;
        copy_paste(
            &self.sheet,
            &mut self.image,
            x0,
            0,
            self.block_size,
            self.block_size,
            dst_x,
            dst_y,
        );
        self.bounce = !self.bounce;
    }

    /// A copy of the canvas as it stands; the tiler keeps its own.
    pub fn finalize(&self) -> (image: Canvas)
        ensures
            image.same_size(self.image),
            forall|x: int, y: int| #[trigger] image.at(x, y) == self.image.at(x, y),
    {
        self.image.duplicate()
    }
}

/// The phase after `count` tiles, changed once for each of them.
pub open spec fn toggled(start: bool, count: nat) -> bool
    decreases count,
{
    if count == 0 {
        start
    } else {
        !toggled(start, (count - 1) as nat)
    }
}

/// A tiler that starts in the lower phase and changes its phase with every
/// tile is in the raised phase after `count` tiles exactly when `count` is
/// odd; from any start, the phase after `count` tiles is `phase_after`.
pub proof fn lemma_phase_is_parity(start: bool, count: nat)
    ensures
        toggled(start, count) == phase_after(start, count as int),
        toggled(false, count) == (count % 2 == 1),
    decreases count,
{
    if count > 0 {
        lemma_phase_is_parity(start, (count - 1) as nat);
        lemma_phase_is_parity(false, (count - 1) as nat);
    }
}

} // verus!
