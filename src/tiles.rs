use vstd::prelude::*;

use rand::Rng;

use vstd::arithmetic::div_mod::{lemma_fundamental_div_mod, lemma_fundamental_div_mod_converse};

verus! {

#[verifier::external_type_specification]
#[verifier::external_body]
pub struct ExXorShiftRng(rand::XorShiftRng);

/// How many boxes of edge `side` it takes to cover `extent` pixels along one axis; the last box
/// is clipped when `side` does not divide `extent`.
pub open spec fn boxes_along(extent: int, side: int) -> int {
    extent / side + if extent % side != 0 {
        1int
    } else {
        0int
    }
}

/// The number of boxes that cover a frame.
pub open spec fn box_total(width: int, height: int, side: int) -> int {
    boxes_along(width, side) * boxes_along(height, side)
}

/// The length, along one axis, of box number `b`: `side`, or what is left of the frame.
pub open spec fn span(extent: int, side: int, b: int) -> int {
    if extent - b * side < side {
        extent - b * side
    } else {
        side
    }
}

/// Box number `index`, counted row by row, covers pixel `(x, y)`.
pub open spec fn in_box(width: int, height: int, side: int, index: int, x: int, y: int) -> bool {
    let bx = index % boxes_along(width, side);
    let by = index / boxes_along(width, side);
    &&& bx * side <= x < bx * side + span(width, side, bx)
    &&& by * side <= y < by * side + span(height, side, by)
}

/// The number of the box that holds pixel `(x, y)`.
pub open spec fn box_index_of(width: int, side: int, x: int, y: int) -> int {
    (y / side) * boxes_along(width, side) + x / side
}

/// A rectangular region of the frame, rendered as one unit of work.
#[derive(Clone, Copy, Debug, PartialEq, Eq, Structural)]
pub struct Tile {
    /// Column of the box in the grid of boxes.
    pub box_x: usize,
    /// Row of the box in the grid of boxes.
    pub box_y: usize,
    /// Leftmost pixel column of the box.
    pub min_x: usize,
    /// Topmost pixel row of the box.
    pub min_y: usize,
    /// Width in pixels, clipped to the frame.
    pub width: usize,
    /// Height in pixels, clipped to the frame.
    pub height: usize,
}

impl Tile {
    /// The tile is box number `index` of a `width` by `height` frame cut into boxes of edge `side`.
    pub open spec fn is_box(self, width: int, height: int, side: int, index: int) -> bool {
        let bx = index % boxes_along(width, side);
        let by = index / boxes_along(width, side);
        &&& self.box_x == bx
        &&& self.box_y == by
        &&& self.min_x == bx * side
        &&& self.min_y == by * side
        &&& self.width == span(width, side, bx)
        &&& self.height == span(height, side, by)
    }

    /// Pixel `(x, y)` lies in the tile.
    pub open spec fn covers(self, x: int, y: int) -> bool {
        &&& self.min_x <= x < self.min_x + self.width
        &&& self.min_y <= y < self.min_y + self.height
    }
}

proof fn lemma_box_start(extent: int, side: int, b: int)
    requires
        0 <= extent,
        0 < side,
        0 <= b < boxes_along(extent, side),
    ensures
        b * side < extent,
        0 < span(extent, side, b) <= side,
{
    lemma_fundamental_div_mod(extent, side);
    let q = extent / side;
    if extent % side == 0 {
        assert(b * side + side <= q * side) by (nonlinear_arith)
            requires
                b < q,
                0 < side,
        ;
    } else {
        assert(b * side <= q * side) by (nonlinear_arith)
            requires
                b <= q,
                0 < side,
        ;
    }
}

proof fn lemma_box_unique(side: int, b: int, x: int)
    requires
        0 < side,
        b * side <= x < b * side + side,
    ensures
        x / side == b,
        x % side == x - b * side,
{
    lemma_fundamental_div_mod_converse(x, side, b, x - b * side);
}

pub(crate) proof fn lemma_box_of(extent: int, side: int, x: int)
    requires
        0 < side,
        0 <= x < extent,
    ensures
        0 <= x / side < boxes_along(extent, side),
        (x / side) * side <= x < (x / side) * side + span(extent, side, x / side),
{
    lemma_fundamental_div_mod(x, side);
    lemma_fundamental_div_mod(extent, side);
    let b = x / side;
    let q = extent / side;
    assert(0 <= b) by (nonlinear_arith)
        requires
            x == side * b + x % side,
            0 <= x % side < side,
            0 <= x,
    ;
    assert(b <= q) by (nonlinear_arith)
        requires
            x == side * b + x % side,
            extent == side * q + extent % side,
            0 <= x % side < side,
            0 <= extent % side < side,
            x < extent,
    ;
    if extent % side == 0 {
        assert(b < q) by (nonlinear_arith)
            requires
                x == side * b + x % side,
                extent == side * q,
                0 <= x % side,
                x < extent,
                0 < side,
        ;
    }
    assert(b * side == side * b) by (nonlinear_arith);
}

pub(crate) proof fn lemma_grid_index(columns: int, rows: int, bx: int, by: int)
    requires
        0 <= bx < columns,
        0 <= by < rows,
    ensures
        0 <= by * columns + bx < columns * rows,
        (by * columns + bx) % columns == bx,
        (by * columns + bx) / columns == by,
{
    assert(0 <= by * columns + bx < columns * rows) by (nonlinear_arith)
        requires
            0 <= bx < columns,
            0 <= by < rows,
    ;
    lemma_fundamental_div_mod_converse(by * columns + bx, columns, by, bx);
}

pub(crate) proof fn lemma_grid_cell(columns: int, rows: int, i: int)
    requires
        0 < columns,
        0 <= i < columns * rows,
    ensures
        0 <= i % columns < columns,
        0 <= i / columns < rows,
        i == (i / columns) * columns + i % columns,
{
    lemma_fundamental_div_mod(i, columns);
    let q = i / columns;
    let r = i % columns;
    assert(0 <= q < rows) by (nonlinear_arith)
        requires
            i == columns * q + r,
            0 <= r < columns,
            0 <= i < columns * rows,
    ;
    assert(columns * q == q * columns) by (nonlinear_arith);
}

/// The boxes of a frame partition it: every pixel of a box lies in the frame and in no other box,
/// and every pixel of the frame lies in a box. Holds for any frame size and box edge, whether or
/// not the edge divides the frame's sides.
pub proof fn lemma_tiles_partition_frame(width: int, height: int, side: int)
    requires
        0 <= width,
        0 <= height,
        0 < side,
    ensures
        forall|i: int, x: int, y: int|
            0 <= i < box_total(width, height, side) && #[trigger] in_box(width, height, side, i, x, y)
                ==> 0 <= x < width && 0 <= y < height && i == box_index_of(width, side, x, y),
        forall|x: int, y: int|
            0 <= x < width && 0 <= y < height ==> {
                let i = #[trigger] box_index_of(width, side, x, y);
                &&& 0 <= i < box_total(width, height, side)
                &&& in_box(width, height, side, i, x, y)
            },
{
    let columns = boxes_along(width, side);
    let rows = boxes_along(height, side);
    assert forall|i: int, x: int, y: int|
        0 <= i < box_total(width, height, side) && #[trigger] in_box(width, height, side, i, x, y)
            implies 0 <= x < width && 0 <= y < height && i == box_index_of(width, side, x, y) by {
        assert(width / side >= 0 && height / side >= 0) by (nonlinear_arith)
            requires
                0 <= width,
                0 <= height,
                0 < side,
        ;
        assert(columns > 0) by (nonlinear_arith)
            requires
                0 <= i < columns * rows,
                0 <= columns,
                0 <= rows,
        ;
        lemma_grid_cell(columns, rows, i);
        let bx = i % columns;
        let by = i / columns;
        lemma_box_start(width, side, bx);
        lemma_box_start(height, side, by);
        lemma_box_unique(side, bx, x);
        lemma_box_unique(side, by, y);
        assert(0 <= bx * side && 0 <= by * side) by (nonlinear_arith)
            requires
                0 <= bx,
                0 <= by,
                0 < side,
        ;
    }
    assert forall|x: int, y: int| 0 <= x < width && 0 <= y < height implies {
        let i = #[trigger] box_index_of(width, side, x, y);
        &&& 0 <= i < box_total(width, height, side)
        &&& in_box(width, height, side, i, x, y)
    } by {
        lemma_box_of(width, side, x);
        lemma_box_of(height, side, y);
        lemma_grid_index(columns, rows, x / side, y / side);
    }
}

/// The total length of the first `n` boxes along an axis.
pub open spec fn spans_sum(extent: int, side: int, n: int) -> int
    decreases n,
{
    if n <= 0 {
        0
    } else {
        spans_sum(extent, side, n - 1) + span(extent, side, n - 1)
    }
}

/// The total area of the first `n` boxes of a row of boxes whose height is `row_height`.
pub open spec fn row_area(width: int, side: int, row_height: int, n: int) -> int
    decreases n,
{
    if n <= 0 {
        0
    } else {
        row_area(width, side, row_height, n - 1) + span(width, side, n - 1) * row_height
    }
}

/// The total area of the boxes in the first `m` rows of boxes.
pub open spec fn grid_area(width: int, height: int, side: int, m: int) -> int
    decreases m,
{
    if m <= 0 {
        0
    } else {
        grid_area(width, height, side, m - 1) + row_area(
            width,
            side,
            span(height, side, m - 1),
            boxes_along(width, side),
        )
    }
}

proof fn lemma_spans_sum(extent: int, side: int, n: int)
    requires
        0 <= extent,
        0 < side,
        0 <= n <= boxes_along(extent, side),
    ensures
        spans_sum(extent, side, n) == if n * side < extent {
            n * side
        } else {
            extent
        },
    decreases n,
{
    if n > 0 {
        lemma_spans_sum(extent, side, n - 1);
        lemma_box_start(extent, side, n - 1);
        assert((n - 1) * side + side == n * side) by (nonlinear_arith);
        assert(spans_sum(extent, side, n) == (n - 1) * side + span(extent, side, n - 1));
    } else {
        assert(n * side == 0) by (nonlinear_arith)
            requires
                n == 0,
        ;
    }
}

proof fn lemma_spans_sum_whole(extent: int, side: int)
    requires
        0 <= extent,
        0 < side,
    ensures
        spans_sum(extent, side, boxes_along(extent, side)) == extent,
{
    lemma_fundamental_div_mod(extent, side);
    let q = extent / side;
    assert(0 <= q) by (nonlinear_arith)
        requires
            extent == side * q + extent % side,
            0 <= extent % side < side,
            0 <= extent,
    ;
    lemma_spans_sum(extent, side, boxes_along(extent, side));
    assert(boxes_along(extent, side) * side >= extent) by (nonlinear_arith)
        requires
            extent == side * q + extent % side,
            0 <= extent % side < side,
            boxes_along(extent, side) == q + if extent % side != 0 {
                1int
            } else {
                0int
            },
    ;
}

proof fn lemma_row_area(width: int, side: int, row_height: int, n: int)
    ensures
        row_area(width, side, row_height, n) == row_height * spans_sum(width, side, n),
    decreases n,
{
    if n > 0 {
        lemma_row_area(width, side, row_height, n - 1);
        let a = spans_sum(width, side, n - 1);
        let b = span(width, side, n - 1);
        assert(row_height * a + b * row_height == row_height * (a + b)) by (nonlinear_arith);
    }
}

proof fn lemma_grid_area(width: int, height: int, side: int, m: int)
    requires
        0 <= width,
        0 < side,
    ensures
        grid_area(width, height, side, m) == width * spans_sum(height, side, m),
    decreases m,
{
    if m > 0 {
        lemma_grid_area(width, height, side, m - 1);
        let r = span(height, side, m - 1);
        lemma_row_area(width, side, r, boxes_along(width, side));
        lemma_spans_sum_whole(width, side);
        let a = spans_sum(height, side, m - 1);
        assert(width * a + r * width == width * (a + r)) by (nonlinear_arith);
    }
}

/// The areas of the boxes, summed row of boxes by row of boxes, add up to the frame's area: with
/// no gaps and no overlaps, clipping the last row and column takes away exactly what lies beyond
/// the frame.
pub proof fn lemma_box_areas_sum(width: int, height: int, side: int)
    requires
        0 <= width,
        0 <= height,
        0 < side,
    ensures
        grid_area(width, height, side, boxes_along(height, side)) == width * height,
{
    lemma_grid_area(width, height, side, boxes_along(height, side));
    lemma_spans_sum_whole(height, side);
}

/// The number of boxes of edge `side` along an axis of `extent` pixels.
pub fn box_count(extent: usize, side: usize) -> (n: usize)
    requires
        side > 0,
    ensures
        n == boxes_along(extent as int, side as int),
        n <= extent,
{
    proof {
        lemma_fundamental_div_mod(extent as int, side as int);
        let q = extent as int / side as int;
        assert(0 <= q && q * side <= extent && (side >= 2 ==> 2 * q <= extent)) by (nonlinear_arith)
            requires
                extent == side * q + extent as int % side as int,
                0 <= extent as int % side as int,
                0 <= extent,
                0 < side,
        ;
        if extent % side != 0 {
            assert(side >= 2);
            assert(q < extent) by (nonlinear_arith)
                requires
                    extent == side * q + extent as int % side as int,
                    0 < extent as int % side as int,
                    0 <= q,
                    0 < side,
            ;
        } else {
            assert(q <= extent) by (nonlinear_arith)
                requires
                    q * side <= extent,
                    0 <= q,
                    0 < side,
            ;
        }
    }
    extent / side + if extent % side != 0 {
        1
    } else {
        0
    }
}

/// Box number `index` of a `width` by `height` frame cut into boxes of edge `side`, counted row
/// by row from the top left.
pub fn tile_at(width: usize, height: usize, side: usize, index: usize) -> (t: Tile)
    requires
        side > 0,
        index < box_total(width as int, height as int, side as int),
    ensures
        t.is_box(width as int, height as int, side as int, index as int),
        t.min_x + t.width <= width,
        t.min_y + t.height <= height,
        t.width > 0,
        t.height > 0,
        forall|x: int, y: int|
            #[trigger] t.covers(x, y) == in_box(width as int, height as int, side as int, index as int, x, y),
{
    let columns = box_count(width, side);
    let rows = box_count(height, side);
    proof {
        assert(columns > 0) by (nonlinear_arith)
            requires
                index < columns * rows,
                0 <= rows,
        ;
        lemma_grid_cell(columns as int, rows as int, index as int);
        lemma_box_start(width as int, side as int, index as int % columns as int);
        lemma_box_start(height as int, side as int, index as int / columns as int);
    }
    let box_x = index % columns;
    let box_y = index / columns;
    let min_x = box_x * side;
    let min_y = box_y * side;
    let rest_x = width - min_x;
    let rest_y = height - min_y;
    Tile {
        box_x,
        box_y,
        min_x,
        min_y,
        width: if rest_x < side {
            rest_x
        } else {
            side
        },
        height: if rest_y < side {
            rest_y
        } else {
            side
        },
    }
}

/// Every box of a `width` by `height` frame, in row order.
pub fn tiles(width: usize, height: usize, side: usize) -> (ts: Vec<Tile>)
    requires
        side > 0,
        width * height <= usize::MAX,
    ensures
        ts@.len() == box_total(width as int, height as int, side as int),
        forall|i: int|
            0 <= i < ts@.len() ==> #[trigger] ts@[i].is_box(width as int, height as int, side as int, i),
{
    let columns = box_count(width, side);
    let rows = box_count(height, side);
    proof {
        assert(columns * rows <= width * height) by (nonlinear_arith)
            requires
                0 <= columns <= width,
                0 <= rows <= height,
        ;
    }
    let total = columns * rows;
    let mut ts: Vec<Tile> = Vec::with_capacity(total);
    let mut i: usize = 0;
    while i < total
        invariant
            i <= total,
            total == box_total(width as int, height as int, side as int),
            side > 0,
            ts@.len() == i,
            forall|k: int|
                0 <= k < i ==> #[trigger] ts@[k].is_box(width as int, height as int, side as int, k),
        decreases total - i,
    {
        ts.push(tile_at(width, height, side, i));
        i += 1;
    }
    ts
}

/// Relies on rand's `Rng::shuffle`, which only swaps elements: the result holds the same
/// elements as before, in some order drawn from the generator.
#[verifier::external_body]
fn shuffle(rng: &mut rand::XorShiftRng, values: &mut Vec<usize>)
    ensures
        final(values)@.to_multiset() == old(values)@.to_multiset(),
{
    rng.shuffle(values.as_mut_slice());
}

/// The numbers `0 .. count` in an order drawn from `rng`: the order in which boxes are rendered.
/// Each box comes exactly once.
pub fn tile_order(rng: &mut rand::XorShiftRng, count: usize) -> (order: Vec<usize>)
    ensures
        order@.len() == count,
        order@.no_duplicates(),
        forall|i: int| 0 <= i < order@.len() ==> #[trigger] order@[i] < count,
        forall|k: usize| k < count ==> #[trigger] order@.contains(k),
{
    let mut order: Vec<usize> = Vec::with_capacity(count);
    let mut k: usize = 0;
    while k < count
        invariant
            k <= count,
            order@ =~= Seq::new(k as nat, |j: int| j as usize),
        decreases count - k,
    {
        order.push(k);
        k += 1;
    }
    let ghost before = order@;
    proof {
        assert(before.no_duplicates());
        before.lemma_multiset_has_no_duplicates();
    }
    shuffle(rng, &mut order);
    proof {
        broadcast use vstd::seq_lib::group_to_multiset_ensures;

        let after = order@;
        assert(after.len() == before.len()) by {
            assert(after.len() == after.to_multiset().len());
            assert(before.len() == before.to_multiset().len());
        }
        after.lemma_multiset_has_no_duplicates_conv();
        assert forall|i: int| 0 <= i < after.len() implies #[trigger] after[i] < count by {
            assert(after.contains(after[i]));
            assert(after.to_multiset().count(after[i]) > 0);
            assert(before.contains(after[i]));
        }
        assert forall|k: usize| k < count implies #[trigger] after.contains(k) by {
            assert(before[k as int] == k);
            assert(before.contains(k));
            assert(before.to_multiset().count(k) > 0);
            assert(after.to_multiset().count(k) > 0);
        }
    }
    order
}

/// The frame after the pixels of `t` have been copied from `block`, which holds the tile's
/// pixels row by row; the frame is `frame_width` pixels wide and stored row by row.
pub open spec fn blitted(screen: Seq<u32>, frame_width: int, t: Tile, block: Seq<u32>) -> Seq<u32> {
    blitted_rows(screen, frame_width, t, block, t.height as int, 0)
}

/// The frame after the first `rows` rows of `t`, and the first `columns` pixels of the row after
/// them, have been copied from `block`.
pub open spec fn blitted_rows(
    screen: Seq<u32>,
    frame_width: int,
    t: Tile,
    block: Seq<u32>,
    rows: int,
    columns: int,
) -> Seq<u32> {
    Seq::new(
        screen.len(),
        |i: int|
            {
                let dx = i % frame_width - t.min_x;
                let dy = i / frame_width - t.min_y;
                if t.covers(i % frame_width, i / frame_width) && (dy < rows || (dy == rows && dx
                    < columns)) {
                    block[dy * t.width + dx]
                } else {
                    screen[i]
                }
            },
    )
}

proof fn lemma_blit_step(
    screen: Seq<u32>,
    frame_width: int,
    t: Tile,
    block: Seq<u32>,
    dy: int,
    dx: int,
)
    requires
        0 <= dy < t.height,
        0 <= dx < t.width,
        t.min_x + t.width <= frame_width,
        (t.min_y + dy) * frame_width + t.min_x + dx < screen.len(),
    ensures
        ({
            let p = (t.min_y + dy) * frame_width + t.min_x + dx;
            blitted_rows(screen, frame_width, t, block, dy, dx + 1) =~= blitted_rows(
                screen,
                frame_width,
                t,
                block,
                dy,
                dx,
            ).update(p, block[dy * t.width + dx])
        }),
{
    let p = (t.min_y + dy) * frame_width + t.min_x + dx;
    lemma_fundamental_div_mod_converse(p, frame_width, t.min_y + dy, t.min_x + dx);
    assert forall|i: int| 0 <= i < screen.len() && i != p implies #[trigger] blitted_rows(
        screen,
        frame_width,
        t,
        block,
        dy,
        dx + 1,
    )[i] == blitted_rows(screen, frame_width, t, block, dy, dx)[i] by {
        lemma_fundamental_div_mod(i, frame_width);
        if i / frame_width - t.min_y == dy && i % frame_width - t.min_x == dx {
            assert(i == frame_width * (t.min_y + dy) + t.min_x + dx);
            assert(frame_width * (t.min_y + dy) == (t.min_y + dy) * frame_width) by (nonlinear_arith);
        }
    }
}

/// Copies a rendered tile into the frame. `block` holds the tile's pixels row by row; the frame
/// is `frame_width` pixels wide and stored row by row. Pixels outside the tile are kept.
pub fn blit(screen: &mut Vec<u32>, frame_width: usize, t: &Tile, block: &Vec<u32>)
    requires
        t.min_x + t.width <= frame_width,
        (t.min_y + t.height) * frame_width <= old(screen)@.len(),
        block@.len() == t.width * t.height,
    ensures
        final(screen)@ == blitted(old(screen)@, frame_width as int, *t, block@),
{
    let ghost original = screen@;
    let len = screen.len();
    let block_len = block.len();
    let mut dy: usize = 0;
    while dy < t.height
        invariant
            dy <= t.height,
            t.min_x + t.width <= frame_width,
            (t.min_y + t.height) * frame_width <= original.len(),
            screen@.len() == original.len(),
            original.len() == len,
            block@.len() == block_len,
            block@.len() == t.width * t.height,
            screen@ == blitted_rows(original, frame_width as int, *t, block@, dy as int, 0),
        decreases t.height - dy,
    {
        let mut dx: usize = 0;
        while dx < t.width
            invariant
                dy < t.height,
                dx <= t.width,
                t.min_x + t.width <= frame_width,
                (t.min_y + t.height) * frame_width <= original.len(),
                screen@.len() == original.len(),
                original.len() == len,
                block@.len() == block_len,
                block@.len() == t.width * t.height,
                screen@ == blitted_rows(original, frame_width as int, *t, block@, dy as int, dx as int),
            decreases t.width - dx,
        {
            proof {
                assert((t.min_y + dy) * frame_width + t.min_x + dx < (t.min_y + t.height) * frame_width)
                    by (nonlinear_arith)
                    requires
                        dy < t.height,
                        t.min_x + dx < frame_width,
                ;
                assert(t.min_y + dy <= (t.min_y + dy) * frame_width <= (t.min_y + t.height)
                    * frame_width) by (nonlinear_arith)
                    requires
                        dy < t.height,
                        0 < frame_width,
                ;
                assert(dy * t.width + dx < t.width * t.height) by (nonlinear_arith)
                    requires
                        dy < t.height,
                        dx < t.width,
                ;
                lemma_blit_step(original, frame_width as int, *t, block@, dy as int, dx as int);
            }
            let p = (t.min_y + dy) * frame_width + t.min_x + dx;
            screen[p] = block[dy * t.width + dx];
            dx += 1;
        }
        proof {
            let lhs = blitted_rows(original, frame_width as int, *t, block@, dy as int, dx as int);
            let rhs = blitted_rows(original, frame_width as int, *t, block@, dy as int + 1, 0);
            assert(lhs =~= rhs);
        }
        dy += 1;
    }
    proof {
        let lhs = blitted_rows(original, frame_width as int, *t, block@, dy as int, 0);
        let rhs = blitted(original, frame_width as int, *t, block@);
        assert(lhs =~= rhs);
    }
}

/// The next position in a shared table of random sample offsets, which is read two entries at a
/// time (one for each screen axis): two entries on, or back to the start when no whole pair is left.
pub fn next_offset(cursor: usize, table_len: usize) -> (next: usize)
    requires
        cursor + 1 < table_len,
    ensures
        next == if cursor + 3 < table_len {
            cursor + 2
        } else {
            0
        },
        next + 1 < table_len,
{
    if table_len - cursor > 3 {
        cursor + 2
    } else {
        0
    }
}

/// Where the pixel `dx` columns right of and `dy` rows below a tile's corner sits in the tile's
/// own buffer, which holds its pixels row by row.
pub open spec fn block_index(t: Tile, dx: int, dy: int) -> int {
    dy * t.width + dx
}

/// Renders a tile: the pixel at frame position `(x, y)` gets the value `shade(x, y)`, and the
/// tile's buffer holds its pixels row by row.
pub fn render_tile<F: Fn(usize, usize) -> u32>(t: &Tile, shade: &F) -> (block: Vec<u32>)
    requires
        t.min_x + t.width <= usize::MAX,
        t.min_y + t.height <= usize::MAX,
        t.width * t.height <= usize::MAX,
        forall|x: usize, y: usize| shade.requires((x, y)),
    ensures
        block@.len() == t.width * t.height,
        forall|dx: int, dy: int|
            0 <= dx < t.width && 0 <= dy < t.height ==> shade.ensures(
                ((t.min_x + dx) as usize, (t.min_y + dy) as usize),
                #[trigger] block@[block_index(*t, dx, dy)],
            ),
{
    let mut block: Vec<u32> = Vec::new();
    let mut dy: usize = 0;
    while dy < t.height
        invariant
            dy <= t.height,
            t.min_x + t.width <= usize::MAX,
            t.min_y + t.height <= usize::MAX,
            t.width * t.height <= usize::MAX,
            forall|x: usize, y: usize| shade.requires((x, y)),
            block@.len() == dy * t.width,
            forall|dx: int, ry: int|
                0 <= dx < t.width && 0 <= ry < dy ==> shade.ensures(
                    ((t.min_x + dx) as usize, (t.min_y + ry) as usize),
                    #[trigger] block@[block_index(*t, dx, ry)],
                ),
        decreases t.height - dy,
    {
        let mut dx: usize = 0;
        while dx < t.width
            invariant
                dy < t.height,
                dx <= t.width,
                t.min_x + t.width <= usize::MAX,
                t.min_y + t.height <= usize::MAX,
                t.width * t.height <= usize::MAX,
                forall|x: usize, y: usize| shade.requires((x, y)),
                block@.len() == dy * t.width + dx,
                forall|cx: int, ry: int|
                    0 <= cx < t.width && 0 <= ry < dy ==> shade.ensures(
                        ((t.min_x + cx) as usize, (t.min_y + ry) as usize),
                        #[trigger] block@[block_index(*t, cx, ry)],
                    ),
                forall|cx: int|
                    0 <= cx < dx ==> shade.ensures(
                        ((t.min_x + cx) as usize, (t.min_y + dy) as usize),
                        #[trigger] block@[block_index(*t, cx, dy as int)],
                    ),
            decreases t.width - dx,
        {
            let v = shade(t.min_x + dx, t.min_y + dy);
            proof {
                assert(dy * t.width + dx < t.width * t.height) by (nonlinear_arith)
                    requires
                        dy < t.height,
                        dx < t.width,
                ;
                assert forall|cx: int, ry: int| 0 <= cx < t.width && 0 <= ry < dy implies block_index(
                    *t,
                    cx,
                    ry,
                ) < dy * t.width by {
                    assert(ry * t.width + cx < dy * t.width) by (nonlinear_arith)
                        requires
                            ry < dy,
                            cx < t.width,
                    ;
                }
            }
            block.push(v);
            dx += 1;
        }
        proof {
            assert(block@.len() == (dy + 1) * t.width) by (nonlinear_arith)
                requires
                    block@.len() == dy * t.width + t.width,
            ;
        }
        dy += 1;
    }
    assert(t.height * t.width == t.width * t.height) by (nonlinear_arith);
    block
}

} // verus!
