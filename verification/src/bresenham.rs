use vstd::prelude::*;
use vstd::arithmetic::div_mod::lemma_fundamental_div_mod_converse;
use crate::geometry::Point;

verus! {

/// The eight symmetric sectors of the plane, counted counter-clockwise from
/// the positive x axis.
#[derive(Copy, Clone, Debug, PartialEq, Eq, Structural)]
pub enum Octant {
    One,
    Two,
    Three,
    Four,
    Five,
    Six,
    Seven,
    Eight,
}

/// Which octant the direction vector (dx, dy) falls in. When |dx| == |dy| the
/// tie goes to the octant whose transform reads the y axis as dominant; for
/// the exactly diagonal direction that choice is arbitrary but fixed.
pub open spec fn octant_of(dx: int, dy: int) -> Octant {
    if dx >= 0 {
        if dy >= 0 {
            if dx > dy {
                Octant::One
            } else {
                Octant::Two
            }
        } else {
            if dx > -dy {
                Octant::Eight
            } else {
                Octant::Seven
            }
        }
    } else {
        if dy >= 0 {
            if -dx > dy {
                Octant::Four
            } else {
                Octant::Three
            }
        } else {
            if -dx > -dy {
                Octant::Five
            } else {
                Octant::Six
            }
        }
    }
}

/// x coordinate of (x, y) carried into the first octant's frame.
pub open spec fn fwd_x(o: Octant, x: int, y: int) -> int {
    match o {
        Octant::One => x,
        Octant::Two => y,
        Octant::Three => y,
        Octant::Four => -x,
        Octant::Five => -x,
        Octant::Six => -y,
        Octant::Seven => -y,
        Octant::Eight => x,
    }
}

/// y coordinate of (x, y) carried into the first octant's frame.
pub open spec fn fwd_y(o: Octant, x: int, y: int) -> int {
    match o {
        Octant::One => y,
        Octant::Two => x,
        Octant::Three => -x,
        Octant::Four => y,
        Octant::Five => -y,
        Octant::Six => -x,
        Octant::Seven => x,
        Octant::Eight => -y,
    }
}

/// x coordinate of (x, y) carried back out of the first octant's frame.
pub open spec fn inv_x(o: Octant, x: int, y: int) -> int {
    match o {
        Octant::One => x,
        Octant::Two => y,
        Octant::Three => -y,
        Octant::Four => -x,
        Octant::Five => -x,
        Octant::Six => -y,
        Octant::Seven => y,
        Octant::Eight => x,
    }
}

/// y coordinate of (x, y) carried back out of the first octant's frame.
pub open spec fn inv_y(o: Octant, x: int, y: int) -> int {
    match o {
        Octant::One => y,
        Octant::Two => x,
        Octant::Three => x,
        Octant::Four => y,
        Octant::Five => -y,
        Octant::Six => -x,
        Octant::Seven => -x,
        Octant::Eight => -y,
    }
}

/// Law: for every octant the two coordinate transforms are exact inverses.
pub proof fn lemma_octant_round_trip(o: Octant, x: int, y: int)
    ensures
        inv_x(o, fwd_x(o, x, y), fwd_y(o, x, y)) == x,
        inv_y(o, fwd_x(o, x, y), fwd_y(o, x, y)) == y,
        fwd_x(o, inv_x(o, x, y), inv_y(o, x, y)) == x,
        fwd_y(o, inv_x(o, x, y), inv_y(o, x, y)) == y,
{
}

/// In the frame of its own octant a direction vector has a positive run and
/// a rise between zero and that run.
pub proof fn lemma_octant_canonical(dx: int, dy: int)
    requires
        dx != 0,
    ensures
        0 < fwd_x(octant_of(dx, dy), dx, dy),
        0 <= fwd_y(octant_of(dx, dy), dx, dy) <= fwd_x(octant_of(dx, dy), dx, dy),
{
}

/// Both transforms act coordinate-wise by sign changes and swaps, so they
/// commute with differences.
pub proof fn lemma_fwd_linear(o: Octant, ax: int, ay: int, bx: int, by: int)
    ensures
        fwd_x(o, bx, by) - fwd_x(o, ax, ay) == fwd_x(o, bx - ax, by - ay),
        fwd_y(o, bx, by) - fwd_y(o, ax, ay) == fwd_y(o, bx - ax, by - ay),
{
}

/// Rise of the i-th rasterized point in the first-octant frame. The error
/// accumulator starts at one half and grows by dy/dx per column, so after i
/// columns the point has climbed by ceil((2*i*dy - dx) / (2*dx)) cells,
/// written here as a floor division of non-negative terms.
pub open spec fn step_y(dx: int, dy: int, i: int) -> int
    recommends
        0 < dx,
        0 <= dy <= dx,
        0 <= i,
{
    (2 * (i * dy) + dx - 1) / (2 * dx)
}

/// Number of points rasterized for the segment from (ax, ay) to (bx, by):
/// the length of the half-open dominant-axis range.
pub open spec fn line_len(ax: int, ay: int, bx: int, by: int) -> int {
    if ax == bx {
        if ay <= by {
            by - ay
        } else {
            ay - by
        }
    } else {
        let o = octant_of(bx - ax, by - ay);
        fwd_x(o, bx, by) - fwd_x(o, ax, ay)
    }
}

/// x coordinate of the i-th rasterized point of the segment from (ax, ay)
/// to (bx, by).
pub open spec fn line_x(ax: int, ay: int, bx: int, by: int, i: int) -> int {
    if ax == bx {
        ax
    } else {
        let o = octant_of(bx - ax, by - ay);
        let cax = fwd_x(o, ax, ay);
        let cay = fwd_y(o, ax, ay);
        let dx = fwd_x(o, bx, by) - cax;
        let dy = fwd_y(o, bx, by) - cay;
        inv_x(o, cax + i, cay + step_y(dx, dy, i))
    }
}

/// y coordinate of the i-th rasterized point of the segment from (ax, ay)
/// to (bx, by). A vertical segment is walked from the smaller y upward.
pub open spec fn line_y(ax: int, ay: int, bx: int, by: int, i: int) -> int {
    if ax == bx {
        (if ay <= by {
            ay
        } else {
            by
        }) + i
    } else {
        let o = octant_of(bx - ax, by - ay);
        let cax = fwd_x(o, ax, ay);
        let cay = fwd_y(o, ax, ay);
        let dx = fwd_x(o, bx, by) - cax;
        let dy = fwd_y(o, bx, by) - cay;
        inv_y(o, cax + i, cay + step_y(dx, dy, i))
    }
}

/// Classify the direction from the origin toward `p`.
pub fn determine_octant(p: Point) -> (o: Octant)
    ensures
        o == octant_of(p.x as int, p.y as int),
{
    octant_for(p.x as i64, p.y as i64)
}

/// Classifier on wide integers, so coordinate differences need no bound.
fn octant_for(x: i64, y: i64) -> (o: Octant)
    requires
        x > i64::MIN,
        y > i64::MIN,
    ensures
        o == octant_of(x as int, y as int),
{
    if x >= 0 {
        if y >= 0 {
            if x > y {
                Octant::One
            } else {
                Octant::Two
            }
        } else {
            if x > -y {
                Octant::Eight
            } else {
                Octant::Seven
            }
        }
    } else {
        if y >= 0 {
            if -x > y {
                Octant::Four
            } else {
                Octant::Three
            }
        } else {
            if -x > -y {
                Octant::Five
            } else {
                Octant::Six
            }
        }
    }
}

/// Map `p` into the first octant's frame.
pub fn to_first_octant(octant: Octant, p: Point) -> (q: Point)
    requires
        p.x > i32::MIN,
        p.y > i32::MIN,
    ensures
        q.x == fwd_x(octant, p.x as int, p.y as int),
        q.y == fwd_y(octant, p.x as int, p.y as int),
{
    match octant {
        Octant::One => p,
        Octant::Two => Point { x: p.y, y: p.x },
        Octant::Three => Point { x: p.y, y: -p.x },
        Octant::Four => Point { x: -p.x, y: p.y },
        Octant::Five => Point { x: -p.x, y: -p.y },
        Octant::Six => Point { x: -p.y, y: -p.x },
        Octant::Seven => Point { x: -p.y, y: p.x },
        Octant::Eight => Point { x: p.x, y: -p.y },
    }
}

/// Map `p` back out of the first octant's frame.
pub fn from_first_octant(octant: Octant, p: Point) -> (q: Point)
    requires
        p.x > i32::MIN,
        p.y > i32::MIN,
    ensures
        q.x == inv_x(octant, p.x as int, p.y as int),
        q.y == inv_y(octant, p.x as int, p.y as int),
{
    match octant {
        Octant::One => p,
        Octant::Two => Point { x: p.y, y: p.x },
        Octant::Three => Point { x: -p.y, y: p.x },
        Octant::Four => Point { x: -p.x, y: p.y },
        Octant::Five => Point { x: -p.x, y: -p.y },
        Octant::Six => Point { x: -p.y, y: -p.x },
        Octant::Seven => Point { x: p.y, y: -p.x },
        Octant::Eight => Point { x: p.x, y: -p.y },
    }
}

/// Forward transform on wide integers.
fn fwd_pt(o: Octant, x: i64, y: i64) -> (r: (i64, i64))
    requires
        -0x8000_0000 <= x <= 0x8000_0000,
        -0x8000_0000 <= y <= 0x8000_0000,
    ensures
        r.0 == fwd_x(o, x as int, y as int),
        r.1 == fwd_y(o, x as int, y as int),
{
    match o {
        Octant::One => (x, y),
        Octant::Two => (y, x),
        Octant::Three => (y, -x),
        Octant::Four => (-x, y),
        Octant::Five => (-x, -y),
        Octant::Six => (-y, -x),
        Octant::Seven => (-y, x),
        Octant::Eight => (x, -y),
    }
}

/// Inverse transform on wide integers.
fn inv_pt(o: Octant, x: i64, y: i64) -> (r: (i64, i64))
    requires
        -0x8000_0000 <= x <= 0x8000_0000,
        -0x8000_0000 <= y <= 0x8000_0000,
    ensures
        r.0 == inv_x(o, x as int, y as int),
        r.1 == inv_y(o, x as int, y as int),
{
    match o {
        Octant::One => (x, y),
        Octant::Two => (y, x),
        Octant::Three => (-y, x),
        Octant::Four => (-x, y),
        Octant::Five => (-x, -y),
        Octant::Six => (-y, -x),
        Octant::Seven => (y, -x),
        Octant::Eight => (x, -y),
    }
}

/// Carrying a point back out of the first octant's frame keeps each
/// coordinate between the matching coordinates of the segment's endpoints.
proof fn lemma_inv_in_box(o: Octant, ax: int, ay: int, bx: int, by: int, cx: int, cy: int)
    requires
        fwd_x(o, ax, ay) <= cx <= fwd_x(o, bx, by),
        fwd_y(o, ax, ay) <= cy <= fwd_y(o, bx, by),
    ensures
        (if ax <= bx {
            ax
        } else {
            bx
        }) <= inv_x(o, cx, cy),
        inv_x(o, cx, cy) <= (if ax <= bx {
            bx
        } else {
            ax
        }),
        (if ay <= by {
            ay
        } else {
            by
        }) <= inv_y(o, cx, cy),
        inv_y(o, cx, cy) <= (if ay <= by {
            by
        } else {
            ay
        }),
{
}

proof fn lemma_mul_succ(a: int, b: int)
    ensures
        (a + 1) * b == a * b + b,
{
    assert((a + 1) * b == a * b + b) by (nonlinear_arith);
}

proof fn lemma_mul_two(a: int, b: int)
    ensures
        a * (2 * b) == 2 * (a * b),
        (2 * a) * b == 2 * (a * b),
{
    assert(a * (2 * b) == 2 * (a * b) && (2 * a) * b == 2 * (a * b)) by (nonlinear_arith);
}

/// Rasterize the segment from `a` to `b`: the ordered grid points that
/// approximate the straight line between them, one per unit step of the
/// dominant axis, excluding the final dominant-axis position (half-open).
#[verifier::loop_isolation(false)]
pub fn bresenham(a: Point, b: Point) -> (line: Vec<Point>)
    ensures
        line@.len() == line_len(a.x as int, a.y as int, b.x as int, b.y as int),
        forall|i: int|
            0 <= i < line@.len() ==> (#[trigger] line@[i]).x == line_x(
                a.x as int,
                a.y as int,
                b.x as int,
                b.y as int,
                i,
            ) && line@[i].y == line_y(a.x as int, a.y as int, b.x as int, b.y as int, i),
{
    let mut line: Vec<Point> = Vec::new();
    let ax = a.x as i64;
    let ay = a.y as i64;
    let bx = b.x as i64;
    let by = b.y as i64;

    // A vertical segment has no dominant-axis run to walk, so it is stepped
    // directly from the smaller y to the larger, half-open, at fixed x.
    if a.x == b.x {
        let top: i64 = if ay < by {
            ay
        } else {
            by
        };
        let bot: i64 = if ay < by {
            by
        } else {
            ay
        };
        let mut y: i64 = top;
        while y < bot
            invariant
                top <= y <= bot,
                line@.len() == y - top,
                forall|i: int|
                    0 <= i < line@.len() ==> (#[trigger] line@[i]).x == a.x && line@[i].y == top
                        + i,
            decreases bot - y,
        {
            line.push(Point { x: a.x, y: y as i32 });
            y = y + 1;
        }
        return line;
    }

    let octant = octant_for(bx - ax, by - ay);
    let (cax, cay) = fwd_pt(octant, ax, ay);
    let (cbx, cby) = fwd_pt(octant, bx, by);
    proof {
        lemma_octant_canonical(bx as int - ax as int, by as int - ay as int);
        lemma_fwd_linear(octant, ax as int, ay as int, bx as int, by as int);
    }
    let dx = cbx - cax;
    let dy = cby - cay;

    let mut x: i64 = cax;
    let mut y: i64 = cay;
    let mut err: i64 = dx;
    let ghost mut acc: int = 0;  // (x - cax) * dy
    let ghost mut kdx: int = 0;  // (y - cay) * dx

    while x < cbx
        invariant
            cax <= x <= cbx,
            cay <= y,
            y - cay <= dy,
            acc == (x - cax) * dy,
            kdx == (y - cay) * dx,
            err == dx + 2 * acc - 2 * kdx,
            0 < err <= 2 * dx,
            line@.len() == x - cax,
            forall|i: int|
                0 <= i < line@.len() ==> (#[trigger] line@[i]).x == line_x(
                    a.x as int,
                    a.y as int,
                    b.x as int,
                    b.y as int,
                    i,
                ) && line@[i].y == line_y(a.x as int, a.y as int, b.x as int, b.y as int, i),
        decreases cbx - x,
    {
        proof {
            lemma_mul_two((y - cay) as int, dx as int);
            lemma_fundamental_div_mod_converse(
                2 * acc + dx - 1,
                2 * (dx as int),
                (y - cay) as int,
                err - 1,
            );
            assert(step_y(dx as int, dy as int, (x - cax) as int) == y - cay);
            lemma_inv_in_box(
                octant,
                ax as int,
                ay as int,
                bx as int,
                by as int,
                x as int,
                y as int,
            );
        }
        let (ox, oy) = inv_pt(octant, x, y);
        line.push(Point { x: ox as i32, y: oy as i32 });
        err = err + 2 * dy;
        if err > 2 * dx {
            err = err - 2 * dx;
            y = y + 1;
            proof {
                kdx = kdx + dx;
                lemma_mul_succ((y - 1 - cay) as int, dx as int);
                lemma_mul_succ((x - cax) as int, dy as int);
                assert(y - cay <= dy) by (nonlinear_arith)
                    requires
                        0 < dx,
                        0 <= dy <= dx,
                        x - cax + 1 <= dx,
                        0 < dx + 2 * ((x - cax + 1) * dy) - 2 * ((y - cay) * dx),
                        acc + dy == (x - cax + 1) * dy,
                        kdx == (y - cay) * dx,
                        err == dx + 2 * (acc + dy) - 2 * kdx;
            }
        }
        x = x + 1;
        proof {
            acc = acc + dy;
            lemma_mul_succ((x - 1 - cax) as int, dy as int);
        }
    }
    line
}

/// Law: a vertical query rasterizes to exactly the half-open run from the
/// smaller y to the larger at the shared x.
pub proof fn lemma_vertical_run(ax: int, ay: int, by: int)
    ensures
        line_len(ax, ay, ax, by) == (if ay <= by {
            by - ay
        } else {
            ay - by
        }),
        forall|i: int|
            0 <= i < line_len(ax, ay, ax, by) ==> #[trigger] line_x(ax, ay, ax, by, i) == ax
                && line_y(ax, ay, ax, by, i) == (if ay <= by {
                ay
            } else {
                by
            }) + i,
{
}

/// Law: no two rasterized points of one segment share their position along
/// the dominant axis — x when the run strictly exceeds the rise in magnitude,
/// y otherwise, matching the octant tie-break.
pub proof fn lemma_dominant_axis_distinct(ax: int, ay: int, bx: int, by: int, i: int, j: int)
    requires
        0 <= i < line_len(ax, ay, bx, by),
        0 <= j < line_len(ax, ay, bx, by),
        i != j,
    ensures
        (if (if bx >= ax {
            bx - ax
        } else {
            ax - bx
        }) > (if by >= ay {
            by - ay
        } else {
            ay - by
        }) {
            line_x(ax, ay, bx, by, i) != line_x(ax, ay, bx, by, j)
        } else {
            line_y(ax, ay, bx, by, i) != line_y(ax, ay, bx, by, j)
        }),
{
}

} // verus!
