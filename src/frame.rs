use vstd::prelude::*;

use crate::tiles::{
    blit, blitted, box_count, box_index_of, box_total, boxes_along, lemma_box_of, lemma_grid_cell,
    lemma_grid_index, lemma_tiles_partition_frame, span, tile_at, Tile,
};
use vstd::arithmetic::div_mod::lemma_fundamental_div_mod_converse;

verus! {

/// How many of the flags are still unset.
pub open spec fn unset_count(flags: Seq<bool>) -> nat
    decreases flags.len(),
{
    if flags.len() == 0 {
        0
    } else {
        unset_count(flags.drop_last()) + if flags.last() {
            0nat
        } else {
            1nat
        }
    }
}

proof fn lemma_unset_count_zero(flags: Seq<bool>)
    ensures
        unset_count(flags) == 0 <==> forall|i: int| 0 <= i < flags.len() ==> #[trigger] flags[i],
    decreases flags.len(),
{
    if flags.len() > 0 {
        let rest = flags.drop_last();
        lemma_unset_count_zero(rest);
        if unset_count(flags) == 0 {
            assert forall|i: int| 0 <= i < flags.len() implies #[trigger] flags[i] by {
                if i < rest.len() {
                    assert(rest[i] == flags[i]);
                }
            }
        }
        if forall|i: int| 0 <= i < flags.len() ==> #[trigger] flags[i] {
            assert forall|i: int| 0 <= i < rest.len() implies #[trigger] rest[i] by {
                assert(flags[i]);
            }
            assert(flags[flags.len() - 1]);
        }
    }
}

proof fn lemma_unset_count_all(n: nat)
    ensures
        unset_count(Seq::new(n, |i: int| false)) == n,
    decreases n,
{
    if n > 0 {
        assert(Seq::new(n, |i: int| false).drop_last() =~= Seq::new((n - 1) as nat, |i: int| false));
        lemma_unset_count_all((n - 1) as nat);
    }
}

proof fn lemma_unset_count_set(flags: Seq<bool>, i: int)
    requires
        0 <= i < flags.len(),
        !flags[i],
    ensures
        unset_count(flags.update(i, true)) + 1 == unset_count(flags),
    decreases flags.len(),
{
    if i < flags.len() - 1 {
        assert(flags.update(i, true).drop_last() =~= flags.drop_last().update(i, true));
        lemma_unset_count_set(flags.drop_last(), i);
    } else {
        assert(flags.update(i, true).drop_last() =~= flags.drop_last());
    }
}

/// What a frame under construction holds: its size, the edge of its boxes, its pixels row by
/// row, which boxes, counted row by row, have been placed, and the pixels each placed box brought.
pub struct FrameView {
    pub width: nat,
    pub height: nat,
    pub side: nat,
    pub pixels: Seq<u32>,
    pub placed: Seq<bool>,
    pub blocks: Seq<Seq<u32>>,
}

/// What pixel `(x, y)` of the frame should show: its value in the buffer of the box that covers
/// it, once that box has been placed, and black before.
pub open spec fn shown(v: FrameView, x: int, y: int) -> u32 {
    let w = v.width as int;
    let s = v.side as int;
    let b = box_index_of(w, s, x, y);
    let bx = x / s;
    let by = y / s;
    if v.placed[b] {
        v.blocks[b][(y - by * s) * span(w, s, bx) + (x - bx * s)]
    } else {
        0
    }
}

/// Why a rendered box could not be placed in the frame.
#[derive(Clone, Copy, Debug, PartialEq, Eq, Structural)]
pub enum PlaceError {
    /// The box lies outside the grid of boxes.
    OutOfFrame,
    /// The box's pixel count does not match its clipped size.
    BlockSize,
    /// The box was placed before.
    Repeated,
}

/// The full frame, into which rendered boxes are copied as they arrive, in any order.
pub struct Frame {
    width: usize,
    height: usize,
    side: usize,
    pixels: Vec<u32>,
    placed: Vec<bool>,
    blocks: Ghost<Seq<Seq<u32>>>,
    remaining: usize,
}

impl View for Frame {
    type V = FrameView;

    closed spec fn view(&self) -> FrameView {
        FrameView {
            width: self.width as nat,
            height: self.height as nat,
            side: self.side as nat,
            pixels: self.pixels@,
            placed: self.placed@,
            blocks: self.blocks@,
        }
    }
}

impl Frame {
    /// The frame's fields agree: one pixel per position, one flag and one recorded buffer per box,
    /// a count of the boxes still missing, and each pixel showing what its box brought.
    pub closed spec fn wf(&self) -> bool {
        &&& self.side > 0
        &&& self.pixels@.len() == self.width * self.height
        &&& self.placed@.len() == box_total(self.width as int, self.height as int, self.side as int)
        &&& self.blocks@.len() == self.placed@.len()
        &&& self.remaining == unset_count(self.placed@)
        &&& forall|i: int|
            0 <= i < self.pixels@.len() ==> #[trigger] self.pixels@[i] == shown(
                self@,
                i % self.width as int,
                i / self.width as int,
            )
    }

    /// A black `width` by `height` frame cut into boxes of edge `side`, none of them placed yet.
    pub fn new(width: usize, height: usize, side: usize) -> (f: Frame)
        requires
            side > 0,
            width * height <= usize::MAX,
        ensures
            f.wf(),
            f@.width == width,
            f@.height == height,
            f@.side == side,
            f@.pixels == Seq::new((width * height) as nat, |i: int| 0u32),
            f@.placed == Seq::new(box_total(width as int, height as int, side as int) as nat, |i: int| false),
    {
        let columns = box_count(width, side);
        let rows = box_count(height, side);
        proof {
            assert(columns * rows <= width * height) by (nonlinear_arith)
                requires
                    0 <= columns <= width,
                    0 <= rows <= height,
            ;
        }
        let total = columns * rows;
        let pixels: Vec<u32> = vec![0u32; width * height];
        let placed: Vec<bool> = vec![false; total];
        proof {
            assert(pixels@ =~= Seq::new((width * height) as nat, |i: int| 0u32));
            assert(placed@ =~= Seq::new(total as nat, |i: int| false));
            lemma_unset_count_all(total as nat);
        }
        let f = Frame {
            width,
            height,
            side,
            pixels,
            placed,
            blocks: Ghost(Seq::new(total as nat, |i: int| Seq::empty())),
            remaining: total,
        };
        proof {
            lemma_tiles_partition_frame(width as int, height as int, side as int);
            assert forall|i: int| 0 <= i < f.pixels@.len() implies #[trigger] f.pixels@[i] == shown(
                f@,
                i % width as int,
                i / width as int,
            ) by {
                assert(width > 0) by (nonlinear_arith)
                    requires
                        0 <= i < width * height,
                        0 <= height,
                ;
                lemma_grid_cell(width as int, height as int, i);
            }
        }
        f
    }

    proof fn lemma_placed_box_shown(&self, before: FrameView, t: Tile, index: int, block: Seq<u32>)
        requires
            self.side > 0,
            before.width == self.width,
            before.height == self.height,
            before.side == self.side,
            before.pixels.len() == self.width * self.height,
            before.placed.len() == box_total(self.width as int, self.height as int, self.side as int),
            0 <= index < before.placed.len(),
            before.blocks.len() == before.placed.len(),
            t.is_box(self.width as int, self.height as int, self.side as int, index),
            forall|x: int, y: int|
                #[trigger] t.covers(x, y) == crate::tiles::in_box(
                    self.width as int,
                    self.height as int,
                    self.side as int,
                    index,
                    x,
                    y,
                ),
            forall|i: int|
                0 <= i < before.pixels.len() ==> #[trigger] before.pixels[i] == shown(
                    before,
                    i % self.width as int,
                    i / self.width as int,
                ),
            self.pixels@ == blitted(before.pixels, self.width as int, t, block),
            self.placed@ == before.placed.update(index, true),
            self.blocks@ == before.blocks.update(index, block),
        ensures
            forall|i: int|
                0 <= i < self.pixels@.len() ==> #[trigger] self.pixels@[i] == shown(
                    self@,
                    i % self.width as int,
                    i / self.width as int,
                ),
    {
        let w = self.width as int;
        let h = self.height as int;
        let s = self.side as int;
        lemma_tiles_partition_frame(w, h, s);
        assert forall|i: int| 0 <= i < self.pixels@.len() implies #[trigger] self.pixels@[i] == shown(
            self@,
            i % w,
            i / w,
        ) by {
            assert(w > 0) by (nonlinear_arith)
                requires
                    0 <= i < w * h,
                    0 <= h,
            ;
            lemma_grid_cell(w, h, i);
            let x = i % w;
            let y = i / w;
            let b = box_index_of(w, s, x, y);
            lemma_box_of(w, s, x);
            lemma_box_of(h, s, y);
            lemma_grid_index(boxes_along(w, s), boxes_along(h, s), x / s, y / s);
            assert(before.pixels[i] == shown(before, x, y));
            assert(0 <= b < before.placed.len());
            if t.covers(x, y) {
                assert(crate::tiles::in_box(w, h, s, index, x, y));
                assert(index == b);
            } else {
                assert(crate::tiles::in_box(w, h, s, b, x, y));
                assert(b != index);
            }
        }
    }

    /// The number of boxes not placed yet.
    pub fn remaining(&self) -> (n: usize)
        requires
            self.wf(),
        ensures
            n == unset_count(self@.placed),
            n == 0 <==> forall|b: int| 0 <= b < self@.placed.len() ==> #[trigger] self@.placed[b],
    {
        proof {
            lemma_unset_count_zero(self.placed@);
            assert(self@.placed == self.placed@);
        }
        self.remaining
    }

    /// The frame's pixels, row by row, as packed `0x00RRGGBB` words.
    pub fn pixels(&self) -> (p: &Vec<u32>)
        ensures
            p@ == self@.pixels,
    {
        &self.pixels
    }

    /// Copies the rendered box in column `box_x` and row `box_y` of the grid of boxes into the
    /// frame. Returns whether the frame is complete afterwards. A box outside the grid, a buffer
    /// whose length is not the box's clipped area, or a box placed before is refused, and the
    /// frame is left as it was.
    pub fn place(&mut self, box_x: usize, box_y: usize, block: &Vec<u32>) -> (r: Result<bool, PlaceError>)
        requires
            old(self).wf(),
        ensures
            final(self).wf(),
            final(self)@.width == old(self)@.width,
            final(self)@.height == old(self)@.height,
            final(self)@.side == old(self)@.side,
            ({
                let w = old(self)@.width as int;
                let h = old(self)@.height as int;
                let s = old(self)@.side as int;
                let i = box_y * boxes_along(w, s) + box_x;
                let t = Tile {
                    box_x,
                    box_y,
                    min_x: (box_x * s) as usize,
                    min_y: (box_y * s) as usize,
                    width: (if w - box_x * s < s { w - box_x * s } else { s }) as usize,
                    height: (if h - box_y * s < s { h - box_y * s } else { s }) as usize,
                };
                if box_x >= boxes_along(w, s) || box_y >= boxes_along(h, s) {
                    r == Err::<bool, PlaceError>(PlaceError::OutOfFrame) && final(self)@ == old(self)@
                } else if block@.len() != t.width * t.height {
                    r == Err::<bool, PlaceError>(PlaceError::BlockSize) && final(self)@ == old(self)@
                } else if old(self)@.placed[i] {
                    r == Err::<bool, PlaceError>(PlaceError::Repeated) && final(self)@ == old(self)@
                } else {
                    &&& final(self)@.pixels == blitted(old(self)@.pixels, w, t, block@)
                    &&& final(self)@.placed == old(self)@.placed.update(i, true)
                    &&& final(self)@.blocks == old(self)@.blocks.update(i, block@)
                    &&& r == Ok::<bool, PlaceError>(
                        forall|b: int| 0 <= b < final(self)@.placed.len() ==> #[trigger] final(self)@.placed[b],
                    )
                }
            }),
    {
        let columns = box_count(self.width, self.side);
        let rows = box_count(self.height, self.side);
        if box_x >= columns || box_y >= rows {
            return Err(PlaceError::OutOfFrame);
        }
        proof {
            lemma_grid_index(columns as int, rows as int, box_x as int, box_y as int);
        }
        let total = self.placed.len();
        assert(box_y * columns + box_x < total);
        let index = box_y * columns + box_x;
        let t = tile_at(self.width, self.height, self.side, index);
        let area = self.pixels.len();
        assert(t.width * t.height <= area) by (nonlinear_arith)
            requires
                t.width <= self.width,
                t.height <= self.height,
                area == self.width * self.height,
        ;
        if block.len() != t.width * t.height {
            return Err(PlaceError::BlockSize);
        }
        if self.placed[index] {
            return Err(PlaceError::Repeated);
        }
        proof {
            assert((t.min_y + t.height) * self.width <= self.width * self.height) by (nonlinear_arith)
                requires
                    t.min_y + t.height <= self.height,
            ;
            lemma_unset_count_set(self.placed@, index as int);
        }
        let ghost before = self@;
        blit(&mut self.pixels, self.width, &t, block);
        self.placed.set(index, true);
        self.blocks = Ghost(self.blocks@.update(index as int, block@));
        self.remaining = self.remaining - 1;
        proof {
            self.lemma_placed_box_shown(before, t, index as int, block@);
            lemma_unset_count_zero(self.placed@);
            assert(self@.placed == self.placed@);
        }
        Ok(self.remaining == 0)
    }
}

/// Each pixel of a frame shows what the box covering it rendered, once that box has been placed,
/// and black before: boxes arriving in any order are composited each into its own region.
pub proof fn lemma_frame_shows_boxes(f: &Frame)
    requires
        f.wf(),
    ensures
        f@.side > 0,
        f@.pixels.len() == f@.width * f@.height,
        f@.placed.len() == box_total(f@.width as int, f@.height as int, f@.side as int),
        f@.blocks.len() == f@.placed.len(),
        forall|x: int, y: int|
            0 <= x < f@.width && 0 <= y < f@.height ==> f@.pixels[y * f@.width + x] == #[trigger] shown(
                f@,
                x,
                y,
            ),
{
    assert forall|x: int, y: int| 0 <= x < f@.width && 0 <= y < f@.height implies f@.pixels[y
        * f@.width + x] == #[trigger] shown(f@, x, y) by {
        let w = f@.width as int;
        lemma_fundamental_div_mod_converse(y * w + x, w, y, x);
        assert(y * w + x < w * f@.height) by (nonlinear_arith)
            requires
                0 <= x < w,
                0 <= y < f@.height,
        ;
        assert(f.pixels@[y * w + x] == shown(f@, (y * w + x) % w, (y * w + x) / w));
    }
}

} // verus!
