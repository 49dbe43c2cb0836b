use vstd::prelude::*;

verus! {

/// Position and size of a cell on the canvas, in whole pixels.
///
/// The right and bottom edges must be representable (`wf`).
#[derive(Debug, Clone, Copy, PartialEq, Eq, Structural)]
pub struct Rectangle {
    pub x: i64,
    pub y: i64,
    pub width: u64,
    pub height: u64,
}

/// A split ratio `numerator / denominator`; valid when strictly between 0 and 1.
#[derive(Debug, Clone, Copy, PartialEq, Eq, Structural)]
pub struct SplitRatio {
    pub numerator: u32,
    pub denominator: u32,
}

/// Direction for cell splitting.
#[derive(Debug, Clone, Copy, PartialEq, Eq, Structural)]
pub enum SplitDirection {
    /// Top / bottom halves: the split runs along the y axis.
    Horizontal,
    /// Left / right halves: the split runs along the x axis.
    Vertical,
}

impl SplitRatio {
    pub open spec fn is_valid(self) -> bool {
        0 < self.numerator && self.numerator < self.denominator
    }

    /// Is the ratio strictly between 0 and 1?
    pub fn valid(&self) -> (r: bool)
        ensures
            r == self.is_valid(),
    {
        0 < self.numerator && self.numerator < self.denominator
    }
}

impl Rectangle {
    pub open spec fn right_spec(self) -> int {
        self.x + self.width
    }

    pub open spec fn bottom_spec(self) -> int {
        self.y + self.height
    }

    /// The right and bottom edges fit in an `i64`.
    pub open spec fn wf(self) -> bool {
        self.right_spec() <= i64::MAX && self.bottom_spec() <= i64::MAX
    }

    /// Create a new rectangle.
    pub fn new(x: i64, y: i64, width: u64, height: u64) -> (r: Rectangle)
        requires
            x + width <= i64::MAX,
            y + height <= i64::MAX,
        ensures
            r == (Rectangle { x, y, width, height }),
            r.wf(),
    {
        Rectangle { x, y, width, height }
    }

    /// The right edge of the rectangle.
    pub fn right(&self) -> (r: i64)
        requires
            self.wf(),
        ensures
            r == self.right_spec(),
    {
        (self.x as i128 + self.width as i128) as i64
    }

    /// The bottom edge of the rectangle.
    pub fn bottom(&self) -> (r: i64)
        requires
            self.wf(),
        ensures
            r == self.bottom_spec(),
    {
        (self.y as i128 + self.height as i128) as i64
    }

    pub open spec fn intersects_spec(self, other: Rectangle) -> bool {
        !(self.right_spec() <= other.x || other.right_spec() <= self.x
            || self.bottom_spec() <= other.y || other.bottom_spec() <= self.y)
    }

    /// Do the interiors of the two rectangles overlap?
    pub fn intersects(&self, other: &Rectangle) -> (r: bool)
        requires
            self.wf(),
            other.wf(),
        ensures
            r == self.intersects_spec(*other),
    {
        !(self.right() <= other.x || other.right() <= self.x || self.bottom() <= other.y
            || other.bottom() <= self.y)
    }

    pub open spec fn contains_point_spec(self, px: int, py: int) -> bool {
        self.x <= px <= self.right_spec() && self.y <= py <= self.bottom_spec()
    }

    /// Does the closed rectangle contain the point?
    pub fn contains_point(&self, px: i64, py: i64) -> (r: bool)
        requires
            self.wf(),
        ensures
            r == self.contains_point_spec(px as int, py as int),
    {
        px >= self.x && px <= self.right() && py >= self.y && py <= self.bottom()
    }

    /// Two rectangles are adjacent when an edge coordinate matches exactly
    /// and the perpendicular spans overlap.
    pub open spec fn adjacent_spec(self, other: Rectangle) -> bool {
        ((self.right_spec() == other.x || other.right_spec() == self.x)
            && !(self.bottom_spec() <= other.y || other.bottom_spec() <= self.y))
        || ((self.bottom_spec() == other.y || other.bottom_spec() == self.y)
            && !(self.right_spec() <= other.x || other.right_spec() <= self.x))
    }

    /// Are the two rectangles adjacent (sharing part of an edge)?
    pub fn adjacent(&self, other: &Rectangle) -> (r: bool)
        requires
            self.wf(),
            other.wf(),
        ensures
            r == self.adjacent_spec(*other),
    {
        let (r1, b1, r2, b2) = (self.right(), self.bottom(), other.right(), other.bottom());
        let horizontal = (r1 == other.x || r2 == self.x) && !(b1 <= other.y || b2 <= self.y);
        let vertical = (b1 == other.y || b2 == self.y) && !(r1 <= other.x || r2 <= self.x);
        horizontal || vertical
    }
}

/// Distance from the start of a span of `len` to the split line.
pub open spec fn split_offset(len: u64, ratio: SplitRatio) -> int
    recommends
        ratio.is_valid(),
{
    (len as int * ratio.numerator as int) / ratio.denominator as int
}

/// The two parts of `r` when split in `direction` at `ratio`.
pub open spec fn split_parts_spec(r: Rectangle, direction: SplitDirection, ratio: SplitRatio) -> (
    Rectangle,
    Rectangle,
) {
    match direction {
        SplitDirection::Horizontal => {
            let off = split_offset(r.height, ratio);
            (
                Rectangle { x: r.x, y: r.y, width: r.width, height: off as u64 },
                Rectangle {
                    x: r.x,
                    y: (r.y + off) as i64,
                    width: r.width,
                    height: (r.height - off) as u64,
                },
            )
        },
        SplitDirection::Vertical => {
            let off = split_offset(r.width, ratio);
            (
                Rectangle { x: r.x, y: r.y, width: off as u64, height: r.height },
                Rectangle {
                    x: (r.x + off) as i64,
                    y: r.y,
                    width: (r.width - off) as u64,
                    height: r.height,
                },
            )
        },
    }
}

proof fn lemma_split_offset_bounds(len: u64, ratio: SplitRatio)
    requires
        ratio.is_valid(),
    ensures
        0 <= split_offset(len, ratio) <= len,
{
    let n = ratio.numerator as int;
    let d = ratio.denominator as int;
    let l = len as int;
    assert(0 <= l * n <= l * d) by (nonlinear_arith)
        requires
            0 <= l,
            0 < n < d,
    ;
    assert((l * n) / d <= l) by (nonlinear_arith)
        requires
            0 <= l * n <= l * d,
            0 < d,
    ;
    assert(0 <= (l * n) / d) by (nonlinear_arith)
        requires
            0 <= l * n,
            0 < d,
    ;
}

fn offset_of(len: u64, ratio: &SplitRatio) -> (off: u64)
    requires
        ratio.is_valid(),
    ensures
        off == split_offset(len, *ratio),
        off <= len,
{
    proof {
        lemma_split_offset_bounds(len, *ratio);
        let (l, n) = (len as int, ratio.numerator as int);
        assert(0 <= l * n <= u64::MAX * u32::MAX) by (nonlinear_arith)
            requires
                0 <= l <= u64::MAX,
                0 <= n <= u32::MAX,
        ;
    }
    ((len as u128 * ratio.numerator as u128) / ratio.denominator as u128) as u64
}

/// Split `r` into two parts along `direction`; the first part takes
/// `ratio` of the span (rounded down), the second the rest.
pub fn split_parts(r: &Rectangle, direction: SplitDirection, ratio: &SplitRatio) -> (res: (
    Rectangle,
    Rectangle,
))
    requires
        r.wf(),
        ratio.is_valid(),
    ensures
        res == split_parts_spec(*r, direction, *ratio),
        res.0.wf(),
        res.1.wf(),
{
    match direction {
        SplitDirection::Horizontal => {
            let off = offset_of(r.height, ratio);
            (
                Rectangle { x: r.x, y: r.y, width: r.width, height: off },
                Rectangle {
                    x: r.x,
                    y: (r.y as i128 + off as i128) as i64,
                    width: r.width,
                    height: r.height - off,
                },
            )
        },
        SplitDirection::Vertical => {
            let off = offset_of(r.width, ratio);
            (
                Rectangle { x: r.x, y: r.y, width: off, height: r.height },
                Rectangle {
                    x: (r.x as i128 + off as i128) as i64,
                    y: r.y,
                    width: r.width - off,
                    height: r.height,
                },
            )
        },
    }
}

/// Splitting a well-formed rectangle at any ratio strictly between 0 and 1
/// yields two parts that tile it exactly: they share the untouched span,
/// the first starts where the original starts, the second starts where the
/// first ends, and the second ends where the original ends.
pub proof fn lemma_split_partitions(r: Rectangle, direction: SplitDirection, ratio: SplitRatio)
    requires
        r.wf(),
        ratio.is_valid(),
    ensures
        ({
            let (a, b) = split_parts_spec(r, direction, ratio);
            match direction {
                SplitDirection::Horizontal => {
                    &&& a.x == r.x && b.x == r.x && a.width == r.width && b.width == r.width
                    &&& a.y == r.y
                    &&& b.y == a.bottom_spec()
                    &&& b.bottom_spec() == r.bottom_spec()
                    &&& a.height + b.height == r.height
                },
                SplitDirection::Vertical => {
                    &&& a.y == r.y && b.y == r.y && a.height == r.height && b.height == r.height
                    &&& a.x == r.x
                    &&& b.x == a.right_spec()
                    &&& b.right_spec() == r.right_spec()
                    &&& a.width + b.width == r.width
                },
            }
        }),
{
    lemma_split_offset_bounds(r.height, ratio);
    lemma_split_offset_bounds(r.width, ratio);
}

/// The smallest rectangle covering every rectangle of `rs`, as
/// (left, top, right, bottom) edges.
pub open spec fn cover_edges(rs: Seq<Rectangle>) -> (int, int, int, int)
    decreases rs.len(),
{
    if rs.len() <= 1 {
        if rs.len() == 0 {
            (0, 0, 0, 0)
        } else {
            (rs[0].x as int, rs[0].y as int, rs[0].right_spec(), rs[0].bottom_spec())
        }
    } else {
        let (l, t, rt, b) = cover_edges(rs.drop_last());
        let last = rs.last();
        (
            if last.x < l { last.x as int } else { l },
            if last.y < t { last.y as int } else { t },
            if last.right_spec() > rt { last.right_spec() } else { rt },
            if last.bottom_spec() > b { last.bottom_spec() } else { b },
        )
    }
}

/// The minimal rectangle covering all of `rs` (non-empty).
pub open spec fn cover_spec(rs: Seq<Rectangle>) -> Rectangle {
    let (l, t, rt, b) = cover_edges(rs);
    Rectangle { x: l as i64, y: t as i64, width: (rt - l) as u64, height: (b - t) as u64 }
}

pub open spec fn all_wf(rs: Seq<Rectangle>) -> bool {
    forall|i: int| 0 <= i < rs.len() ==> #[trigger] rs[i].wf()
}

/// Every rectangle lies inside the covering edges, and each edge is attained.
pub proof fn lemma_cover_edges(rs: Seq<Rectangle>)
    requires
        rs.len() > 0,
        all_wf(rs),
    ensures
        ({
            let (l, t, rt, b) = cover_edges(rs);
            &&& forall|i: int|
                0 <= i < rs.len() ==> l <= #[trigger] rs[i].x && t <= rs[i].y && rs[i].right_spec()
                    <= rt && rs[i].bottom_spec() <= b
            &&& exists|i: int| 0 <= i < rs.len() && #[trigger] rs[i].x == l
            &&& exists|i: int| 0 <= i < rs.len() && #[trigger] rs[i].y == t
            &&& exists|i: int| 0 <= i < rs.len() && #[trigger] rs[i].right_spec() == rt
            &&& exists|i: int| 0 <= i < rs.len() && #[trigger] rs[i].bottom_spec() == b
            &&& l <= rt <= i64::MAX
            &&& t <= b <= i64::MAX
        }),
    decreases rs.len(),
{
    if rs.len() > 1 {
        let d = rs.drop_last();
        assert(all_wf(d)) by {
            assert forall|i: int| 0 <= i < d.len() implies #[trigger] d[i].wf() by {
                assert(d[i] == rs[i]);
            }
        }
        lemma_cover_edges(d);
        let (l, t, rt, b) = cover_edges(d);
        assert forall|i: int| 0 <= i < d.len() implies #[trigger] rs[i] == d[i] by {}
        assert(rs.last().wf());
        let (l2, t2, rt2, b2) = cover_edges(rs);
        if rs.last().x < l {
            assert(rs[rs.len() - 1].x == l2);
        } else {
            let i = choose|i: int| 0 <= i < d.len() && #[trigger] d[i].x == l;
            assert(rs[i].x == l2);
        }
        if rs.last().y < t {
            assert(rs[rs.len() - 1].y == t2);
        } else {
            let i = choose|i: int| 0 <= i < d.len() && #[trigger] d[i].y == t;
            assert(rs[i].y == t2);
        }
        if rs.last().right_spec() > rt {
            assert(rs[rs.len() - 1].right_spec() == rt2);
        } else {
            let i = choose|i: int| 0 <= i < d.len() && #[trigger] d[i].right_spec() == rt;
            assert(rs[i].right_spec() == rt2);
        }
        if rs.last().bottom_spec() > b {
            assert(rs[rs.len() - 1].bottom_spec() == b2);
        } else {
            let i = choose|i: int| 0 <= i < d.len() && #[trigger] d[i].bottom_spec() == b;
            assert(rs[i].bottom_spec() == b2);
        }
        assert forall|i: int| 0 <= i < rs.len() implies l2 <= #[trigger] rs[i].x && t2 <= rs[i].y
            && rs[i].right_spec() <= rt2 && rs[i].bottom_spec() <= b2 by {
            if i < d.len() {
                assert(rs[i] == d[i]);
            }
        }
    } else {
        assert(rs[0].wf());
        let (l2, t2, rt2, b2) = cover_edges(rs);
        assert(rs[0].x == l2 && rs[0].y == t2 && rs[0].right_spec() == rt2 && rs[0].bottom_spec() == b2);
    }
}

/// The covering rectangle is the minimal one: it contains every input, and
/// each of its four edges touches some input.
pub proof fn lemma_cover_minimal(rs: Seq<Rectangle>)
    requires
        rs.len() > 0,
        all_wf(rs),
    ensures
        cover_spec(rs).wf(),
        forall|i: int|
            0 <= i < rs.len() ==> cover_spec(rs).x <= #[trigger] rs[i].x && cover_spec(rs).y
                <= rs[i].y && rs[i].right_spec() <= cover_spec(rs).right_spec()
                && rs[i].bottom_spec() <= cover_spec(rs).bottom_spec(),
        exists|i: int| 0 <= i < rs.len() && #[trigger] rs[i].x == cover_spec(rs).x,
        exists|i: int| 0 <= i < rs.len() && #[trigger] rs[i].y == cover_spec(rs).y,
        exists|i: int| 0 <= i < rs.len() && #[trigger] rs[i].right_spec() == cover_spec(rs).right_spec(),
        exists|i: int| 0 <= i < rs.len() && #[trigger] rs[i].bottom_spec() == cover_spec(rs).bottom_spec(),
{
    lemma_cover_edges(rs);
    let (l, t, rt, b) = cover_edges(rs);
    let i = choose|i: int| 0 <= i < rs.len() && #[trigger] rs[i].x == l;
    let j = choose|i: int| 0 <= i < rs.len() && #[trigger] rs[i].y == t;
    assert(rs[i].wf() && rs[j].wf());
}

} // verus!
