use vstd::prelude::*;

pub mod tv;

use crate::util::{rect_height, rect_points, rect_width, Point, Rect};

verus! {

pub type AnsiColor = u8;

pub const DARK_GREY: AnsiColor = 234;

pub const LIGHT_GREY: AnsiColor = 236;

pub const WHITE: AnsiColor = 255;

/// One character cell of the terminal, with its colours.
#[derive(Debug, Clone, Copy, PartialEq, Eq, Structural)]
pub struct Cell {
    pub pos: Point,
    pub c: char,
    pub fg: AnsiColor,
    pub bg: AnsiColor,
}

/// A blank cell at `pos`.
pub open spec fn blank(pos: Point) -> Cell {
    Cell { pos, c: ' ', fg: WHITE, bg: DARK_GREY }
}

impl Cell {
    pub fn new(pos: Point, c: char) -> (r: Cell)
        ensures
            r == (Cell { pos, c, fg: WHITE, bg: DARK_GREY }),
    {
        Cell { pos, c, fg: WHITE, bg: DARK_GREY }
    }

    /// Blanks the cell, keeping its position.
    pub fn clear(&mut self)
        ensures
            *final(self) == blank(old(self).pos),
    {
        self.c = ' ';
        self.fg = WHITE;
        self.bg = DARK_GREY;
    }
}

/// Whether `p` lies on a grid of the given size.
pub open spec fn on_grid(size: Point, p: Point) -> bool {
    0 <= p.x < size.x && 0 <= p.y < size.y
}

/// Where the cell at `p` is kept: row by row.
pub open spec fn grid_index(size: Point, p: Point) -> int {
    p.x + p.y * size.x
}

/// The position of the cell kept at index `i`.
pub open spec fn grid_pos(size: Point, i: int) -> Point {
    Point { x: (i % size.x as int) as i32, y: (i / size.x as int) as i32 }
}

/// Every point of `r` lies on a grid of the given size (an empty `r` does).
pub open spec fn rect_on_grid(size: Point, r: &Rect) -> bool {
    rect_width(r) == 0 || (0 <= r.min.x && r.max.x < size.x && 0 <= r.min.y && r.max.y < size.y)
}

/// Whether `p` lies in `r`.
pub open spec fn in_rect(r: &Rect, p: Point) -> bool {
    r.min.x <= p.x <= r.max.x && r.min.y <= p.y <= r.max.y
}

proof fn lemma_grid_index(size: Point, p: Point)
    requires
        on_grid(size, p),
    ensures
        0 <= grid_index(size, p) < size.x * size.y,
        0 <= p.y * size.x,
        grid_pos(size, grid_index(size, p)) == p,
{
    let w = size.x as int;
    let h = size.y as int;
    assert(p.y * w + p.x < w * h) by (nonlinear_arith)
        requires 0 <= p.x < w, 0 <= p.y < h;
    assert(0 <= p.y * w) by (nonlinear_arith)
        requires 0 <= p.y, 0 <= w;
    vstd::arithmetic::div_mod::lemma_fundamental_div_mod_converse(p.x + p.y * w, w, p.y as int, p.x as int);
}

/// The place of `p` in the row-by-row order of the points of `r`.
pub open spec fn rect_rank(r: &Rect, p: Point) -> int {
    (p.y - r.min.y) * rect_width(r) + (p.x - r.min.x)
}

proof fn lemma_grid_pos(size: Point, i: int)
    requires
        size.x > 0,
        size.y >= 0,
        0 <= i < size.x * size.y,
    ensures
        on_grid(size, grid_pos(size, i)),
        grid_index(size, grid_pos(size, i)) == i,
{
    let w = size.x as int;
    let h = size.y as int;
    vstd::arithmetic::div_mod::lemma_fundamental_div_mod(i, w);
    vstd::arithmetic::div_mod::lemma_div_pos_is_pos(i, w);
    vstd::arithmetic::div_mod::lemma_mod_bound(i, w);
    let q = i / w;
    assert(w * q == q * w) by (nonlinear_arith);
    assert(q < h) by (nonlinear_arith)
        requires q * w <= i, i < w * h, w > 0;
}

proof fn lemma_rect_rank(r: &Rect, k: int)
    requires
        0 <= k < rect_width(r) * rect_height(r),
    ensures
        in_rect(r, rect_points(r)[k]),
        rect_rank(r, rect_points(r)[k]) == k,
        forall|p: Point| in_rect(r, p) && rect_rank(r, p) == k ==> p == rect_points(r)[k],
{
    let w = rect_width(r);
    let h = rect_height(r);
    assert(w > 0 && h > 0) by (nonlinear_arith)
        requires 0 <= k < w * h, w >= 0, h >= 0;
    vstd::arithmetic::div_mod::lemma_fundamental_div_mod(k, w);
    vstd::arithmetic::div_mod::lemma_div_pos_is_pos(k, w);
    vstd::arithmetic::div_mod::lemma_mod_bound(k, w);
    let q = k / w;
    assert(w * q == q * w) by (nonlinear_arith);
    assert(q < h) by (nonlinear_arith)
        requires q * w <= k, k < w * h, w > 0;
    assert forall|p: Point| in_rect(r, p) && rect_rank(r, p) == k implies p == rect_points(r)[k] by {
        vstd::arithmetic::div_mod::lemma_fundamental_div_mod_converse(k, w, p.y - r.min.y, p.x - r.min.x);
    }
}

/// A grid of cells that a client paints and a terminal shows.
#[derive(Debug)]
pub struct Frame {
    size: Point,
    cells: Vec<Cell>,
}

impl Frame {
    pub closed spec fn spec_size(&self) -> Point {
        self.size
    }

    pub closed spec fn spec_cells(&self) -> Seq<Cell> {
        self.cells@
    }

    /// A frame keeps one cell per point of its grid, row by row, and each
    /// cell knows its position.
    pub open spec fn wf(&self) -> bool {
        &&& self.spec_size().x >= 0
        &&& self.spec_size().y >= 0
        &&& self.spec_cells().len() == self.spec_size().x * self.spec_size().y
        &&& forall|i: int|
            0 <= i < self.spec_cells().len() ==> (#[trigger] self.spec_cells()[i]).pos == grid_pos(
                self.spec_size(),
                i,
            )
    }

    /// A blank frame of the given size.
    pub fn new(size: Point) -> (r: Frame)
        requires
            size.x >= 0,
            size.y >= 0,
            size.x * size.y <= usize::MAX,
        ensures
            r.wf(),
            r.spec_size() == size,
            forall|i: int| 0 <= i < r.spec_cells().len() ==> #[trigger] r.spec_cells()[i] == blank(grid_pos(size, i)),
    {
        let mut cells: Vec<Cell> = Vec::new();
        if size.x == 0 || size.y == 0 {
            proof {
                assert(size.x * size.y == 0) by (nonlinear_arith)
                    requires size.x == 0 || size.y == 0;
            }
            return Frame { size, cells };
        }
        let ghost w = size.x as int;
        let ghost h = size.y as int;
        let mut y: i32 = 0;
        while y < size.y
            invariant
                w == size.x,
                h == size.y,
                w > 0,
                h > 0,
                w * h <= usize::MAX,
                0 <= y <= h,
                cells@.len() == y * w,
                forall|k: int| 0 <= k < cells@.len() ==> #[trigger] cells@[k] == blank(grid_pos(size, k)),
            decreases h - y,
        {
            let mut x: i32 = 0;
            while x < size.x
                invariant
                    w == size.x,
                    h == size.y,
                    w > 0,
                    h > 0,
                    w * h <= usize::MAX,
                    0 <= y < h,
                    0 <= x <= w,
                    cells@.len() == y * w + x,
                    forall|k: int| 0 <= k < cells@.len() ==> #[trigger] cells@[k] == blank(grid_pos(size, k)),
                decreases w - x,
            {
                proof {
                    lemma_grid_index(size, Point { x, y });
                }
                cells.push(Cell::new(Point::new(x, y), ' '));
                x = x + 1;
            }
            proof {
                assert(cells@.len() == (y + 1) * w) by (nonlinear_arith)
                    requires cells@.len() == y * w + w;
            }
            y = y + 1;
        }
        proof {
            assert(w * h == h * w) by (nonlinear_arith);
        }
        Frame { size, cells }
    }

    pub fn size(&self) -> (r: Point)
        ensures
            r == self.spec_size(),
    {
        self.size
    }

    /// Blanks every cell of `rect`.
    pub fn clear_rect(&mut self, rect: &Rect)
        requires
            old(self).wf(),
            rect_on_grid(old(self).spec_size(), rect),
            rect_width(rect) * rect_height(rect) <= usize::MAX,
        ensures
            final(self).wf(),
            final(self).spec_size() == old(self).spec_size(),
            forall|i: int|
                0 <= i < final(self).spec_cells().len() ==> #[trigger] final(self).spec_cells()[i] == if in_rect(
                    rect,
                    grid_pos(old(self).spec_size(), i),
                ) {
                    blank(grid_pos(old(self).spec_size(), i))
                } else {
                    old(self).spec_cells()[i]
                },
    {
        let points = rect.points();
        let ghost size = self.size;
        if points.len() == 0 {
            proof {
                assert forall|i: int| 0 <= i < self.cells@.len() implies !in_rect(rect, grid_pos(size, i)) by {
                    if in_rect(rect, grid_pos(size, i)) {
                        assert(rect_width(rect) > 0 && rect_height(rect) > 0);
                        assert(rect_width(rect) * rect_height(rect) > 0) by (nonlinear_arith)
                            requires rect_width(rect) > 0 && rect_height(rect) > 0;
                    }
                }
            }
            return;
        }
        let ghost c0 = self.cells@;
        let mut k: usize = 0;
        while k < points.len()
            invariant
                self.wf(),
                self.size == size,
                points@ == rect_points(rect),
                rect_on_grid(size, rect),
                0 <= k <= points@.len(),
                c0.len() == self.cells@.len(),
                forall|i: int|
                    0 <= i < self.cells@.len() ==> #[trigger] self.cells@[i] == if in_rect(
                        rect,
                        grid_pos(size, i),
                    ) && rect_rank(rect, grid_pos(size, i)) < k {
                        blank(grid_pos(size, i))
                    } else {
                        c0[i]
                    },
            decreases points.len() - k,
        {
            let p = points[k];
            let ghost c1 = self.cells@;
            proof {
                lemma_rect_rank(rect, k as int);
                assert(on_grid(size, p));
                lemma_grid_index(size, p);
            }
            self.cell_mut(p).clear();
            proof {
                let idx = grid_index(size, p);
                assert(self.cells@ == c1.update(idx, blank(c1[idx].pos)));
                assert forall|i: int| 0 <= i < self.cells@.len() implies #[trigger] self.cells@[i] == if in_rect(
                    rect,
                    grid_pos(size, i),
                ) && rect_rank(rect, grid_pos(size, i)) < k + 1 {
                    blank(grid_pos(size, i))
                } else {
                    c0[i]
                } by {
                    lemma_grid_pos(size, i);
                    if i != idx {
                        if in_rect(rect, grid_pos(size, i)) && rect_rank(rect, grid_pos(size, i)) == k {
                            assert(grid_pos(size, i) == p);
                        }
                    }
                }
            }
            k = k + 1;
        }
        proof {
            assert forall|i: int| 0 <= i < self.cells@.len() implies #[trigger] self.cells@[i] == if in_rect(
                rect,
                grid_pos(size, i),
            ) {
                blank(grid_pos(size, i))
            } else {
                c0[i]
            } by {
                if in_rect(rect, grid_pos(size, i)) {
                    let q = grid_pos(size, i);
                    assert(rect_width(rect) > 0);
                    assert(rect_rank(rect, q) < rect_width(rect) * rect_height(rect)) by (nonlinear_arith)
                        requires
                            rect_rank(rect, q) == (q.y - rect.min.y) * rect_width(rect) + (q.x - rect.min.x),
                            rect_width(rect) == rect.max.x - rect.min.x + 1,
                            rect_height(rect) == rect.max.y - rect.min.y + 1,
                            rect.min.x <= q.x <= rect.max.x,
                            rect.min.y <= q.y <= rect.max.y;
                }
            }
        }
    }

    /// The cell at `pos`.
    pub fn cell_mut(&mut self, pos: Point) -> (r: &mut Cell)
        requires
            old(self).wf(),
            on_grid(old(self).spec_size(), pos),
        ensures
            *r == old(self).spec_cells()[grid_index(old(self).spec_size(), pos)],
            final(self).spec_size() == old(self).spec_size(),
            final(self).spec_cells() == old(self).spec_cells().update(grid_index(old(self).spec_size(), pos), *final(r)),
    {
        proof {
            lemma_grid_index(self.size, pos);
        }
        let count = self.cells.len();
        let i = pos.x as usize + pos.y as usize * self.size.x as usize;
        assert(i < count);
        &mut self.cells[i]
    }

    /// Every cell, row by row.
    pub fn cells(&self) -> (r: &Vec<Cell>)
        ensures
            r@ == self.spec_cells(),
    {
        &self.cells
    }

    /// Puts `cell` at its own position.
    pub fn add(&mut self, cell: Cell)
        requires
            old(self).wf(),
            on_grid(old(self).spec_size(), cell.pos),
        ensures
            final(self).wf(),
            final(self).spec_size() == old(self).spec_size(),
            final(self).spec_cells() == old(self).spec_cells().update(grid_index(old(self).spec_size(), cell.pos), cell),
    {
        proof {
            lemma_grid_index(self.size, cell.pos);
        }
        let pos = cell.pos;
        let count = self.cells.len();
        let i = pos.x as usize + pos.y as usize * self.size.x as usize;
        assert(i < count);
        self.cells.set(i, cell);
    }
}

/// `r` spans whole rows and columns of a grid of the given size; it may be
/// empty.
pub open spec fn rect_fits(size: Point, r: &Rect) -> bool {
    &&& 0 <= r.min.x <= r.max.x + 1
    &&& r.max.x < size.x
    &&& 0 <= r.min.y <= r.max.y + 1
    &&& r.max.y < size.y
}

/// Something that paints itself into a rectangle of a frame.
pub trait Draw {
    /// The state the methods below keep.
    spec fn draw_inv(&self) -> bool;

    fn draw(&mut self, rect: &Rect, frame: &mut Frame)
        requires
            old(self).draw_inv(),
            old(frame).wf(),
            rect_fits(old(frame).spec_size(), rect),
        ensures
            final(self).draw_inv(),
            final(frame).wf(),
            final(frame).spec_size() == old(frame).spec_size(),
    ;

    /// Whether something changed since the last `draw`.
    fn dirty(&self) -> bool;
}

/// Something that renders rows and reacts to key presses.
pub trait Client {
    /// The state the methods below keep.
    spec fn client_inv(&self) -> bool;

    /// The rows as they are shown now.
    fn gen_lines(&mut self) -> (r: Vec<String>)
        requires
            old(self).client_inv(),
        ensures
            final(self).client_inv(),
    ;

    /// Reacts to a key press.
    fn handle_char(&mut self, c: char)
        requires
            old(self).client_inv(),
        ensures
            final(self).client_inv(),
    ;
}

} // verus!
