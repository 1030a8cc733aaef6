use vstd::prelude::*;

verus! {

/// A position or an extent on the terminal grid.
#[derive(Debug, Clone, Copy, PartialEq, Eq, Structural)]
pub struct Point {
    pub x: i32,
    pub y: i32,
}

impl Point {
    pub fn new(x: i32, y: i32) -> (r: Point)
        ensures
            r.x == x,
            r.y == y,
    {
        Point { x, y }
    }

    /// Component-wise sum.
    pub fn add(self, rhs: Point) -> (r: Point)
        requires
            i32::MIN <= self.x + rhs.x <= i32::MAX,
            i32::MIN <= self.y + rhs.y <= i32::MAX,
        ensures
            r.x == self.x + rhs.x,
            r.y == self.y + rhs.y,
    {
        Point::new(self.x + rhs.x, self.y + rhs.y)
    }

    /// Component-wise sum, in place.
    pub fn add_assign(&mut self, rhs: Point)
        requires
            i32::MIN <= old(self).x + rhs.x <= i32::MAX,
            i32::MIN <= old(self).y + rhs.y <= i32::MAX,
        ensures
            final(self).x == old(self).x + rhs.x,
            final(self).y == old(self).y + rhs.y,
    {
        self.x = self.x + rhs.x;
        self.y = self.y + rhs.y;
    }

    /// Component-wise difference.
    pub fn sub(self, rhs: Point) -> (r: Point)
        requires
            i32::MIN <= self.x - rhs.x <= i32::MAX,
            i32::MIN <= self.y - rhs.y <= i32::MAX,
        ensures
            r.x == self.x - rhs.x,
            r.y == self.y - rhs.y,
    {
        Point::new(self.x - rhs.x, self.y - rhs.y)
    }
}

/// An axis-aligned rectangle; both corners belong to it.
#[derive(Debug)]
pub struct Rect {
    pub min: Point,
    pub max: Point,
}

/// Number of columns of a rectangle (zero when it is empty).
pub open spec fn rect_width(r: &Rect) -> int {
    if r.min.x <= r.max.x && r.min.y <= r.max.y {
        r.max.x - r.min.x + 1
    } else {
        0
    }
}

/// Number of rows of a rectangle (zero when it is empty).
pub open spec fn rect_height(r: &Rect) -> int {
    if r.min.x <= r.max.x && r.min.y <= r.max.y {
        r.max.y - r.min.y + 1
    } else {
        0
    }
}

/// The points of a rectangle, row by row, each row from left to right.
pub open spec fn rect_points(r: &Rect) -> Seq<Point> {
    Seq::new(
        (rect_width(r) * rect_height(r)) as nat,
        |k: int| Point { x: (r.min.x + k % rect_width(r)) as i32, y: (r.min.y + k / rect_width(r)) as i32 },
    )
}

impl Rect {
    pub fn new(min: Point, max: Point) -> (r: Rect)
        ensures
            r.min == min,
            r.max == max,
    {
        Rect { min, max }
    }

    /// Every point of the rectangle, row by row.
    pub fn points(&self) -> (r: Vec<Point>)
        requires
            rect_width(self) * rect_height(self) <= usize::MAX,
        ensures
            r@ == rect_points(self),
    {
        let mut out: Vec<Point> = Vec::new();
        if self.min.x > self.max.x || self.min.y > self.max.y {
            assert(out@ =~= rect_points(self));
            return out;
        }
        let ghost w = rect_width(self);
        let ghost h = rect_height(self);
        let mut y: i64 = self.min.y as i64;
        while y <= self.max.y as i64
            invariant
                w == self.max.x - self.min.x + 1,
                h == self.max.y - self.min.y + 1,
                w > 0,
                h > 0,
                w * h <= usize::MAX,
                self.min.y <= y <= self.max.y + 1,
                out@.len() == (y - self.min.y) * w,
                forall|k: int|
                    0 <= k < out@.len() ==> #[trigger] out@[k] == rect_points(self)[k],
            decreases self.max.y + 1 - y,
        {
            let mut x: i64 = self.min.x as i64;
            while x <= self.max.x as i64
                invariant
                    w == self.max.x - self.min.x + 1,
                    h == self.max.y - self.min.y + 1,
                    w > 0,
                    h > 0,
                    w * h <= usize::MAX,
                    self.min.y <= y <= self.max.y,
                    self.min.x <= x <= self.max.x + 1,
                    out@.len() == (y - self.min.y) * w + (x - self.min.x),
                    forall|k: int|
                        0 <= k < out@.len() ==> #[trigger] out@[k] == rect_points(self)[k],
                decreases self.max.x + 1 - x,
            {
                let ghost k = out@.len() as int;
                proof {
                    let dy = y - self.min.y;
                    let dx = x - self.min.x;
                    assert(k < w * h) by (nonlinear_arith)
                        requires k == dy * w + dx, 0 <= dx < w, 0 <= dy < h;
                    vstd::arithmetic::div_mod::lemma_fundamental_div_mod_converse(k, w, dy, dx);
                }
                out.push(Point::new(x as i32, y as i32));
                x = x + 1;
            }
            proof {
                assert(out@.len() == (y + 1 - self.min.y) * w) by (nonlinear_arith)
                    requires out@.len() == (y - self.min.y) * w + w;
            }
            y = y + 1;
        }
        proof {
            assert(out@.len() == w * h) by (nonlinear_arith)
                requires out@.len() == (y - self.min.y) * w, y - self.min.y == h;
        }
        assert(out@ =~= rect_points(self));
        out
    }
}

} // verus!
