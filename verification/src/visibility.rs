use vstd::prelude::*;
use vstd::arithmetic::div_mod::lemma_fundamental_div_mod;
use vstd::arithmetic::div_mod::lemma_fundamental_div_mod_converse;
use crate::bresenham::bresenham;
use crate::bresenham::fwd_x;
use crate::bresenham::fwd_y;
use crate::bresenham::inv_x;
use crate::bresenham::inv_y;
use crate::bresenham::lemma_fwd_linear;
use crate::bresenham::lemma_octant_canonical;
use crate::bresenham::lemma_octant_round_trip;
use crate::bresenham::line_len;
use crate::bresenham::line_x;
use crate::bresenham::line_y;
use crate::bresenham::octant_of;
use crate::bresenham::step_y;
use crate::geometry::rect_contains;
use crate::geometry::Point;
use crate::geometry::Rect;

verus! {

/// No rasterized sample of the segment from (ax, ay) to (bx, by) lies inside
/// any of the obstacles.
pub open spec fn sight_clear(ax: int, ay: int, bx: int, by: int, obs: Seq<Rect>) -> bool {
    forall|i: int, j: int|
        0 <= i < line_len(ax, ay, bx, by) && 0 <= j < obs.len() ==> !(#[trigger] rect_contains(
            obs[j],
            line_x(ax, ay, bx, by, i),
            line_y(ax, ay, bx, by, i),
        ))
}

/// True iff every rasterized sample between `a` and `b` avoids every
/// obstacle.
#[verifier::loop_isolation(false)]
pub fn has_line_of_sight(a: Point, b: Point, obstacles: &Vec<Rect>) -> (clear: bool)
    ensures
        clear == sight_clear(a.x as int, a.y as int, b.x as int, b.y as int, obstacles@),
{
    let line = bresenham(a, b);
    let mut j: usize = 0;
    while j < obstacles.len()
        invariant
            0 <= j <= obstacles@.len(),
            forall|i2: int, j2: int|
                0 <= i2 < line@.len() && 0 <= j2 < j ==> !(#[trigger] rect_contains(
                    obstacles@[j2],
                    line@[i2].x as int,
                    line@[i2].y as int,
                )),
        decreases obstacles@.len() - j,
    {
        let mut i: usize = 0;
        while i < line.len()
            invariant
                0 <= i <= line@.len(),
                forall|i2: int|
                    0 <= i2 < i ==> !rect_contains(
                        obstacles@[j as int],
                        #[trigger] line@[i2].x as int,
                        line@[i2].y as int,
                    ),
            decreases line@.len() - i,
        {
            if obstacles[j].contains(line[i]) {
                proof {
                    assert(rect_contains(
                        obstacles@[j as int],
                        line_x(a.x as int, a.y as int, b.x as int, b.y as int, i as int),
                        line_y(a.x as int, a.y as int, b.x as int, b.y as int, i as int),
                    ));
                }
                return false;
            }
            i = i + 1;
        }
        j = j + 1;
    }
    proof {
        assert forall|i2: int, j2: int|
            0 <= i2 < line_len(a.x as int, a.y as int, b.x as int, b.y as int) && 0 <= j2
                < obstacles@.len() implies !(#[trigger] rect_contains(
            obstacles@[j2],
            line_x(a.x as int, a.y as int, b.x as int, b.y as int, i2),
            line_y(a.x as int, a.y as int, b.x as int, b.y as int, i2),
        )) by {
            assert(!rect_contains(obstacles@[j2], line@[i2].x as int, line@[i2].y as int));
        }
    }
    true
}

/// Law: with no obstacles, every pair of points has line of sight.
pub proof fn lemma_sight_clear_no_obstacles(ax: int, ay: int, bx: int, by: int)
    ensures
        sight_clear(ax, ay, bx, by, Seq::<Rect>::empty()),
{
}

/// Law: when the midpoint of a segment between two distinct points falls on
/// the grid, an obstacle that covers it blocks line of sight between them.
pub proof fn lemma_midpoint_blocks(ax: int, ay: int, bx: int, by: int, obs: Seq<Rect>, j: int)
    requires
        !(ax == bx && ay == by),
        (ax + bx) % 2 == 0,
        (ay + by) % 2 == 0,
        0 <= j < obs.len(),
        rect_contains(obs[j], (ax + bx) / 2, (ay + by) / 2),
    ensures
        !sight_clear(ax, ay, bx, by, obs),
{
    let mx = (ax + bx) / 2;
    let my = (ay + by) / 2;
    lemma_fundamental_div_mod(ax + bx, 2);
    lemma_fundamental_div_mod(ay + by, 2);
    assert(2 * mx == ax + bx);
    assert(2 * my == ay + by);
    if ax == bx {
        let lo = if ay <= by {
            ay
        } else {
            by
        };
        let i = my - lo;
        assert(0 <= i < line_len(ax, ay, bx, by));
        assert(line_x(ax, ay, bx, by, i) == mx && line_y(ax, ay, bx, by, i) == my);
        assert(rect_contains(obs[j], line_x(ax, ay, bx, by, i), line_y(ax, ay, bx, by, i)));
    } else {
        let o = octant_of(bx - ax, by - ay);
        lemma_octant_canonical(bx - ax, by - ay);
        lemma_fwd_linear(o, ax, ay, bx, by);
        lemma_octant_round_trip(o, mx, my);
        let cax = fwd_x(o, ax, ay);
        let cay = fwd_y(o, ax, ay);
        let dx = fwd_x(o, bx, by) - cax;
        let dy = fwd_y(o, bx, by) - cay;
        let cmx = fwd_x(o, mx, my);
        let cmy = fwd_y(o, mx, my);
        // The transforms are coordinate-wise sign changes and swaps, so the
        // canonical midpoint is the midpoint of the canonical endpoints.
        assert(2 * cmx == fwd_x(o, ax, ay) + fwd_x(o, bx, by));
        assert(2 * cmy == fwd_y(o, ax, ay) + fwd_y(o, bx, by));
        let i = cmx - cax;
        let k = cmy - cay;
        assert(2 * i == dx && 2 * k == dy);
        assert(1 <= i < dx);
        // The stepping formula lands exactly on the midpoint's rise: the
        // division's numerator is k * (2 * dx) plus a remainder of dx - 1.
        assert(2 * (i * dy) == k * (2 * dx) + dx - 1 - (dx - 1)) by (nonlinear_arith)
            requires
                2 * i == dx,
                2 * k == dy;
        lemma_fundamental_div_mod_converse(2 * (i * dy) + dx - 1, 2 * dx, k, dx - 1);
        assert(step_y(dx, dy, i) == k);
        assert(line_x(ax, ay, bx, by, i) == inv_x(o, cmx, cmy));
        assert(line_y(ax, ay, bx, by, i) == inv_y(o, cmx, cmy));
        assert(rect_contains(obs[j], line_x(ax, ay, bx, by, i), line_y(ax, ay, bx, by, i)));
    }
}

} // verus!
