use vstd::prelude::*;
use vstd::arithmetic::div_mod::lemma_multiply_divide_lt;
use crate::geometry::rect_contains;
use crate::geometry::rect_corners;
use crate::geometry::Dimensions;
use crate::geometry::Point;
use crate::geometry::Rect;

verus! {

/// The largest grid or window extent the scene accepts: squares and
/// row-major indices of dimensions this size still fit the machine integers
/// the renderer computes with.
pub const MAX_EXTENT: i32 = 46340;

/// A point light source.
#[derive(Copy, Clone, Debug, PartialEq, Eq, Structural)]
pub struct Light {
    pub on: bool,
    pub point: Point,
    pub size: i32,
}

/// Fixed parameters of the surrounding display: the window size in screen
/// coordinates.
#[derive(Copy, Clone, Debug, PartialEq, Eq, Structural)]
pub struct Settings {
    pub window: Dimensions,
}

/// Which mouse button an input event reports.
#[derive(Copy, Clone, Debug, PartialEq, Eq, Structural)]
pub enum MouseButton {
    Left,
    Right,
    Other,
}

/// The whole scene: grid size, the light, the placed obstacles, and the
/// obstacle being dragged, if any.
#[derive(Clone, Debug, PartialEq, Eq)]
pub struct State {
    pub started: bool,
    pub grid: Dimensions,
    pub light: Light,
    pub obstacles: Vec<Rect>,
    pub new_obstacle_start: Option<Point>,
    pub new_obstacle: Option<Rect>,
}

/// Dimensions the scene can work with: at least one cell each way, and small
/// enough that every row-major index fits.
pub open spec fn wf_dims(g: Dimensions) -> bool {
    1 <= g.width <= MAX_EXTENT && 1 <= g.height <= MAX_EXTENT
}

/// The rectangle lies inside the grid and is canonical.
pub open spec fn rect_in_grid(r: Rect, g: Dimensions) -> bool {
    0 <= r.x && 0 <= r.y && 0 <= r.w && 0 <= r.h && r.x + r.w <= g.width && r.y + r.h <= g.height
}

/// The point names a cell of the grid.
pub open spec fn in_grid(g: Dimensions, p: Point) -> bool {
    0 <= p.x < g.width && 0 <= p.y < g.height
}

/// Scene invariant: the grid is workable, the light's radius is bounded, and
/// every stored obstacle and drag point lies on the grid.
pub open spec fn wf_state(s: State) -> bool {
    wf_dims(s.grid) && 0 <= s.light.size <= MAX_EXTENT && (forall|j: int|
        0 <= j < s.obstacles@.len() ==> rect_in_grid(#[trigger] s.obstacles@[j], s.grid)) && (match s.new_obstacle_start {
        Some(p) => in_grid(s.grid, p),
        None => true,
    }) && (match s.new_obstacle {
        Some(r) => rect_in_grid(r, s.grid),
        None => true,
    })
}

/// Grid column under window coordinate x.
pub open spec fn grid_x(grid: Dimensions, window: Dimensions, x: int) -> int {
    (x * grid.width) / (window.width as int)
}

/// Grid row under window coordinate y.
pub open spec fn grid_y(grid: Dimensions, window: Dimensions, y: int) -> int {
    (y * grid.height) / (window.height as int)
}

/// The grid cell under window coordinates (x, y).
pub open spec fn grid_point(grid: Dimensions, window: Dimensions, x: int, y: int) -> Point {
    Point { x: grid_x(grid, window, x) as i32, y: grid_y(grid, window, y) as i32 }
}

/// The settings describe a usable window.
pub open spec fn wf_settings(s: Settings) -> bool {
    1 <= s.window.width <= MAX_EXTENT && 1 <= s.window.height <= MAX_EXTENT
}

/// Given a mouse position inside the window, the cell of the scene's grid
/// under it.
pub fn logical_point(state: &State, settings: &Settings, x: i32, y: i32) -> (p: Point)
    requires
        wf_settings(*settings),
        wf_dims(state.grid),
        0 <= x < settings.window.width,
        0 <= y < settings.window.height,
    ensures
        p == grid_point(state.grid, settings.window, x as int, y as int),
        p.x as int == grid_x(state.grid, settings.window, x as int),
        p.y as int == grid_y(state.grid, settings.window, y as int),
        in_grid(state.grid, p),
{
    proof {
        assert(0 <= (x as int) * (state.grid.width as int) < (settings.window.width as int) * (
        state.grid.width as int)) by (nonlinear_arith)
            requires
                0 <= x < settings.window.width,
                0 < state.grid.width,
        ;
        assert((settings.window.width as int) * (state.grid.width as int) <= 46340 * 46340)
            by (nonlinear_arith)
            requires
                0 < settings.window.width <= 46340,
                0 < state.grid.width <= 46340,
        ;
        lemma_multiply_divide_lt(
            (x as int) * (state.grid.width as int),
            settings.window.width as int,
            state.grid.width as int,
        );
        assert(0 <= (y as int) * (state.grid.height as int) < (settings.window.height as int) * (
        state.grid.height as int)) by (nonlinear_arith)
            requires
                0 <= y < settings.window.height,
                0 < state.grid.height,
        ;
        assert((settings.window.height as int) * (state.grid.height as int) <= 46340 * 46340)
            by (nonlinear_arith)
            requires
                0 < settings.window.height <= 46340,
                0 < state.grid.height <= 46340,
        ;
        lemma_multiply_divide_lt(
            (y as int) * (state.grid.height as int),
            settings.window.height as int,
            state.grid.height as int,
        );
    }
    let gx = (x as u64 * state.grid.width as u64) / (settings.window.width as u64);
    let gy = (y as u64 * state.grid.height as u64) / (settings.window.height as u64);
    Point { x: gx as i32, y: gy as i32 }
}

/// Moving the mouse starts the scene, moves the light to the cell under the
/// cursor, and, while an obstacle is being dragged, re-spans it from its
/// anchor to that cell.
pub fn handle_mouse_move(state: &mut State, settings: &Settings, x: i32, y: i32)
    requires
        wf_state(*old(state)),
        wf_settings(*settings),
        0 <= x < settings.window.width,
        0 <= y < settings.window.height,
    ensures
        wf_state(*final (state)),
        final (state).started == true,
        final (state).light.point == grid_point(
            old(state).grid,
            settings.window,
            x as int,
            y as int,
        ),
        final (state).light.on == old(state).light.on,
        final (state).light.size == old(state).light.size,
        final (state).grid == old(state).grid,
        final (state).obstacles@ == old(state).obstacles@,
        final (state).new_obstacle_start == old(state).new_obstacle_start,
        final (state).new_obstacle == (match old(state).new_obstacle_start {
            Some(anchor) => Some(
                rect_corners(
                    anchor,
                    grid_point(old(state).grid, settings.window, x as int, y as int),
                ),
            ),
            None => old(state).new_obstacle,
        }),
{
    state.started = true;
    let cursor = logical_point(state, settings, x, y);
    state.light.point = cursor;

    if let Some(anchor) = state.new_obstacle_start {
        let new_obstacle = Rect::from_points(anchor, cursor);
        state.new_obstacle = Some(new_obstacle);
    }
}

/// The rectangles that do not cover (px, py); removal keeps the others in
/// their original order.
pub open spec fn avoiding(px: int, py: int) -> spec_fn(Rect) -> bool {
    |r: Rect| !rect_contains(r, px, py)
}

/// Pressing the left button turns the light off and anchors a new obstacle
/// at the cell under the cursor; pressing the right button removes every
/// obstacle covering that cell; other buttons change nothing.
#[verifier::loop_isolation(false)]
pub fn handle_mouse_down(state: &mut State, settings: &Settings, x: i32, y: i32, btn: MouseButton)
    requires
        wf_state(*old(state)),
        wf_settings(*settings),
        0 <= x < settings.window.width,
        0 <= y < settings.window.height,
    ensures
        wf_state(*final (state)),
        final (state).started == old(state).started,
        final (state).grid == old(state).grid,
        final (state).light.point == old(state).light.point,
        final (state).light.size == old(state).light.size,
        final (state).new_obstacle == old(state).new_obstacle,
        btn == MouseButton::Left ==> final (state).light.on == false && final (
        state).new_obstacle_start == Some(
            grid_point(old(state).grid, settings.window, x as int, y as int),
        ) && final (state).obstacles@ == old(state).obstacles@,
        btn == MouseButton::Right ==> final (state).light.on == old(state).light.on && final (
        state).new_obstacle_start == old(state).new_obstacle_start && final (state).obstacles@
            == old(state).obstacles@.filter(
            avoiding(
                grid_x(old(state).grid, settings.window, x as int),
                grid_y(old(state).grid, settings.window, y as int),
            ),
        ),
        btn == MouseButton::Other ==> *final (state) == *old(state),
{
    let cursor = logical_point(state, settings, x, y);

    match btn {
        MouseButton::Left => {
            state.light.on = false;
            state.new_obstacle_start = Some(cursor);
        },
        MouseButton::Right => {
            let ghost pred = avoiding(cursor.x as int, cursor.y as int);
            let mut kept: Vec<Rect> = Vec::new();
            let mut i: usize = 0;
            while i < state.obstacles.len()
                invariant
                    0 <= i <= state.obstacles@.len(),
                    state.obstacles@ == old(state).obstacles@,
                    kept@ == old(state).obstacles@.subrange(0, i as int).filter(pred),
                    forall|k: int|
                        0 <= k < kept@.len() ==> rect_in_grid(#[trigger] kept@[k], old(state).grid),
                decreases state.obstacles@.len() - i,
            {
                let r = state.obstacles[i];
                proof {
                    assert(old(state).obstacles@.subrange(0, i as int + 1) =~= old(
                        state,
                    ).obstacles@.subrange(0, i as int).push(r));
                    old(state).obstacles@.subrange(0, i as int).lemma_filter_push(r, pred);
                }
                if !r.contains(cursor) {
                    kept.push(r);
                }
                i = i + 1;
            }
            proof {
                assert(old(state).obstacles@.subrange(0, old(state).obstacles@.len() as int) =~= old(
                    state,
                ).obstacles@);
            }
            state.obstacles = kept;
        },
        MouseButton::Other => {},
    }
}

/// Releasing the mouse finishes any obstacle being dragged — it is kept only
/// if it has positive area — turns the light back on, and clears the drag.
pub fn handle_mouse_up(state: &mut State, settings: &Settings, x: i32, y: i32)
    requires
        wf_state(*old(state)),
        wf_settings(*settings),
        0 <= x < settings.window.width,
        0 <= y < settings.window.height,
    ensures
        wf_state(*final (state)),
        final (state).started == old(state).started,
        final (state).grid == old(state).grid,
        final (state).light.point == old(state).light.point,
        final (state).light.size == old(state).light.size,
        final (state).light.on == true,
        final (state).new_obstacle_start is None,
        final (state).new_obstacle is None,
        final (state).obstacles@ == (match old(state).new_obstacle_start {
            Some(anchor) => {
                let r = rect_corners(
                    anchor,
                    grid_point(old(state).grid, settings.window, x as int, y as int),
                );
                if r.w * r.h > 0 {
                    old(state).obstacles@.push(r)
                } else {
                    old(state).obstacles@
                }
            },
            None => old(state).obstacles@,
        }),
{
    if let Some(anchor) = state.new_obstacle_start {
        let end = logical_point(state, settings, x, y);
        let new_obstacle = Rect::from_points(anchor, end);
        proof {
            assert(0 <= new_obstacle.w * new_obstacle.h <= 46340 * 46340) by (nonlinear_arith)
                requires
                    0 <= new_obstacle.w <= 46340,
                    0 <= new_obstacle.h <= 46340,
            ;
        }
        if new_obstacle.area() > 0 {
            state.obstacles.push(new_obstacle);
        }
    }

    state.light.on = true;
    state.new_obstacle_start = None;
    state.new_obstacle = None;
}

} // verus!
