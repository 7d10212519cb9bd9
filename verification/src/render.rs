use vstd::prelude::*;
use vstd::arithmetic::div_mod::lemma_fundamental_div_mod;
use vstd::arithmetic::div_mod::lemma_fundamental_div_mod_converse;
use crate::geometry::rect_contains;
use crate::geometry::Dimensions;
use crate::geometry::Point;
use crate::geometry::Rect;
use crate::scene::wf_dims;
use crate::scene::wf_state;
use crate::scene::Light;
use crate::scene::State;
use crate::visibility::has_line_of_sight;
use crate::visibility::sight_clear;

verus! {

/// Background color byte.
pub const BLACK: u8 = 0u8;

/// Obstacle fill color byte.
pub const RED: u8 = 224u8;

/// Row-major pixel buffer with one intensity byte per grid cell.
#[derive(Clone, Debug, PartialEq, Eq)]
pub struct Bitmap {
    pub pixels: Vec<u8>,
}

/// Quantized brightness for a cell at squared distance `d2` from a light of
/// radius `size`: the linear falloff 1 - sqrt(d2)/size scaled by the six
/// steps between the seven levels and truncated, stated by comparing 36*d2
/// against squared thresholds so that no square root is needed.
pub open spec fn intensity_level(d2: int, size: int) -> int {
    let s2 = size * size;
    if 36 * d2 <= 0 {
        6
    } else if 36 * d2 <= s2 {
        5
    } else if 36 * d2 <= 4 * s2 {
        4
    } else if 36 * d2 <= 9 * s2 {
        3
    } else if 36 * d2 <= 16 * s2 {
        2
    } else if 36 * d2 <= 25 * s2 {
        1
    } else {
        0
    }
}

/// The color byte written for a lit cell: the quantized level mapped onto
/// the green ramp 4, 8, ..., 28.
pub open spec fn lit_color(light: Light, x: int, y: int) -> u8 {
    let dx = x - light.point.x;
    let dy = y - light.point.y;
    (4 * (intensity_level(dx * dx + dy * dy, light.size as int) + 1)) as u8
}

/// A cell is lit when it lies strictly inside the light's circular radius
/// and the light can see it past the obstacles.
pub open spec fn lit(light: Light, obs: Seq<Rect>, x: int, y: int) -> bool {
    let dx = x - light.point.x;
    let dy = y - light.point.y;
    dx * dx + dy * dy < light.size * light.size && sight_clear(
        light.point.x as int,
        light.point.y as int,
        x,
        y,
        obs,
    )
}

/// Some obstacle covers the cell.
pub open spec fn covered(obs: Seq<Rect>, x: int, y: int) -> bool {
    exists|j: int| 0 <= j < obs.len() && rect_contains(#[trigger] obs[j], x, y)
}

/// The rectangles drawn on top of the light: the placed obstacles plus the
/// one being dragged, if any.
pub open spec fn drawn_obstacles(s: State) -> Seq<Rect> {
    match s.new_obstacle {
        Some(r) => s.obstacles@.push(r),
        None => s.obstacles@,
    }
}

/// The color of cell (x, y) in a rendered frame: obstacles on top, then the
/// light's contribution once the scene has started and the light is on, then
/// the background.
pub open spec fn render_pixel(s: State, x: int, y: int) -> u8 {
    if covered(drawn_obstacles(s), x, y) {
        RED
    } else if s.started && s.light.on && lit(s.light, s.obstacles@, x, y) {
        lit_color(s.light, x, y)
    } else {
        BLACK
    }
}

/// Row-major index of cell (x, y).
pub open spec fn cell_index(g: Dimensions, x: int, y: int) -> int {
    y * g.width + x
}

/// `bm` is a correct rendering of scene `s`.
pub open spec fn is_render_of(s: State, bm: Bitmap) -> bool {
    bm.pixels@.len() == s.grid.width * s.grid.height && forall|x: int, y: int|
        0 <= x < s.grid.width && 0 <= y < s.grid.height ==> bm.pixels@[#[trigger] cell_index(
            s.grid,
            x,
            y,
        )] == render_pixel(s, x, y)
}

/// Two distinct cells of one grid never share a row-major index.
proof fn lemma_cell_index_injective(g: Dimensions, x1: int, y1: int, x2: int, y2: int)
    requires
        0 < g.width,
        0 <= x1 < g.width,
        0 <= x2 < g.width,
        cell_index(g, x1, y1) == cell_index(g, x2, y2),
    ensures
        x1 == x2 && y1 == y2,
{
    lemma_fundamental_div_mod_converse(cell_index(g, x1, y1), g.width as int, y1, x1);
    lemma_fundamental_div_mod_converse(cell_index(g, x2, y2), g.width as int, y2, x2);
}

/// Color byte for a lit cell at squared distance `d2` from a light of
/// radius `size`.
fn green(d2: i64, size: i64) -> (c: u8)
    requires
        0 <= d2 <= 0x10_0000_0000,
        0 <= size <= 46340,
    ensures
        c == 4 * (intensity_level(d2 as int, size as int) + 1),
{
    proof {
        assert(0 <= size * size <= 46340 * 46340) by (nonlinear_arith)
            requires
                0 <= size <= 46340,
        ;
    }
    let s2 = size * size;
    let t = 36 * d2;
    if t <= 0 {
        28
    } else if t <= s2 {
        24
    } else if t <= 4 * s2 {
        20
    } else if t <= 9 * s2 {
        16
    } else if t <= 16 * s2 {
        12
    } else if t <= 25 * s2 {
        8
    } else {
        4
    }
}

/// Fill one obstacle's cells with the obstacle color, leaving every other
/// byte of the buffer unchanged.
#[verifier::loop_isolation(false)]
fn render_obstacle(pixels: &mut Vec<u8>, grid_width: i32, obstacle: &Rect)
    requires
        1 <= grid_width <= 46340,
        0 <= obstacle.x,
        0 <= obstacle.y,
        0 <= obstacle.w,
        0 <= obstacle.h,
        obstacle.x + obstacle.w <= grid_width,
        (obstacle.y + obstacle.h) * (grid_width as int) <= old(pixels)@.len(),
        old(pixels)@.len() <= 46340 * 46340,
    ensures
        final (pixels)@.len() == old(pixels)@.len(),
        forall|k: int|
            0 <= k < old(pixels)@.len() ==> #[trigger] final (pixels)@[k] == (if rect_contains(
                *obstacle,
                k % (grid_width as int),
                k / (grid_width as int),
            ) {
                RED
            } else {
                old(pixels)@[k]
            }),
{
    let ghost gwi = grid_width as int;
    let ghost buflen: int = old(pixels)@.len() as int;
    proof {
        assert(obstacle.y + obstacle.h <= buflen) by (nonlinear_arith)
            requires
                0 < gwi,
                0 <= obstacle.y + obstacle.h,
                (obstacle.y + obstacle.h) * gwi <= buflen,
        ;
    }
    let gw = grid_width as usize;
    let mut yo: i32 = 0;
    while yo < obstacle.h
        invariant
            0 <= yo <= obstacle.h,
            pixels@.len() == old(pixels)@.len(),
            forall|k: int|
                0 <= k < old(pixels)@.len() ==> #[trigger] pixels@[k] == (if rect_contains(
                    *obstacle,
                    k % gwi,
                    k / gwi,
                ) && k / gwi < obstacle.y + yo {
                    RED
                } else {
                    old(pixels)@[k]
                }),
        decreases obstacle.h - yo,
    {
        let row = (obstacle.y + yo) as usize;
        let mut xo: i32 = 0;
        while xo < obstacle.w
            invariant
                0 <= xo <= obstacle.w,
                pixels@.len() == old(pixels)@.len(),
                forall|k: int|
                    0 <= k < old(pixels)@.len() ==> #[trigger] pixels@[k] == (if rect_contains(
                        *obstacle,
                        k % gwi,
                        k / gwi,
                    ) && (k / gwi < obstacle.y + yo || (k / gwi == obstacle.y + yo && k % gwi
                        < obstacle.x + xo)) {
                        RED
                    } else {
                        old(pixels)@[k]
                    }),
            decreases obstacle.w - xo,
        {
            let col = (obstacle.x + xo) as usize;
            proof {
                assert((obstacle.y as int + yo) * gwi + (obstacle.x + xo) < buflen && (obstacle.y
                    as int + yo) * gwi >= 0) by (nonlinear_arith)
                    requires
                        0 < gwi,
                        0 <= yo < obstacle.h,
                        0 <= obstacle.y,
                        0 <= obstacle.x,
                        0 <= xo < obstacle.w,
                        obstacle.x + obstacle.w <= gwi,
                        (obstacle.y + obstacle.h) * gwi <= buflen,
                ;
            }
            let idx = row * gw + col;
            proof {
                lemma_fundamental_div_mod_converse(
                    idx as int,
                    gwi,
                    obstacle.y as int + yo,
                    obstacle.x as int + xo,
                );
            }
            pixels[idx] = RED;
            proof {
                assert forall|k: int| 0 <= k < old(pixels)@.len() implies #[trigger] pixels@[k] == (
                if rect_contains(*obstacle, k % gwi, k / gwi) && (k / gwi < obstacle.y + yo || (k
                    / gwi == obstacle.y + yo && k % gwi < obstacle.x + xo + 1)) {
                    RED
                } else {
                    old(pixels)@[k]
                }) by {
                    lemma_fundamental_div_mod(k, gwi);
                    lemma_fundamental_div_mod(idx as int, gwi);
                    if 0 <= k < old(pixels)@.len() && k / gwi == obstacle.y + yo && k % gwi
                        == obstacle.x + xo {
                        assert(k == idx);
                    }
                }
            }
            xo = xo + 1;
        }
        yo = yo + 1;
    }
}

/// Paint the light's contribution: every cell of the grid that the light
/// reaches gets its quantized green level; every other byte is unchanged.
#[verifier::loop_isolation(false)]
fn render_light(pixels: &mut Vec<u8>, grid: &Dimensions, obstacles: &Vec<Rect>, light: &Light)
    requires
        wf_dims(*grid),
        0 <= light.size <= 46340,
        old(pixels)@.len() == grid.width * grid.height,
        old(pixels)@.len() <= 46340 * 46340,
    ensures
        final (pixels)@.len() == old(pixels)@.len(),
        forall|x: int, y: int|
            0 <= x < grid.width && 0 <= y < grid.height ==> final (pixels)@[#[trigger] cell_index(
                *grid,
                x,
                y,
            )] == (if lit(*light, obstacles@, x, y) {
                lit_color(*light, x, y)
            } else {
                old(pixels)@[cell_index(*grid, x, y)]
            }),
{
    let size = light.size as i64;
    let px = light.point.x as i64;
    let py = light.point.y as i64;
    let gw = grid.width as i64;
    let gh = grid.height as i64;
    proof {
        assert(0 <= (size as int) * (size as int) <= 46340 * 46340) by (nonlinear_arith)
            requires
                0 <= size <= 46340,
        ;
        assert forall|x2: int, y2: int|
            0 <= x2 < grid.width && 0 <= y2 < grid.height implies 0 <= #[trigger] cell_index(
            *grid,
            x2,
            y2,
        ) < old(pixels)@.len() by {
            lemma_cell_in_range(*grid, x2, y2);
        }
        // A lit cell lies strictly inside the light's bounding square, so
        // the offset walk below reaches every lit cell.
        assert forall|x2: int, y2: int|
            0 <= x2 < grid.width && 0 <= y2 < grid.height && #[trigger] lit(
                *light,
                obstacles@,
                x2,
                y2,
            ) implies -size < x2 - px < size && -size < y2 - py < size by {
            lemma_within_radius(x2 - px, y2 - py, size as int);
        }
    }

    let mut yoff: i64 = -size;
    while yoff <= size
        invariant
            -size <= yoff <= size + 1,
            pixels@.len() == old(pixels)@.len(),
            forall|x: int, y: int|
                0 <= x < grid.width && 0 <= y < grid.height ==> pixels@[#[trigger] cell_index(
                    *grid,
                    x,
                    y,
                )] == (if lit(*light, obstacles@, x, y) && y - py < yoff {
                    lit_color(*light, x, y)
                } else {
                    old(pixels)@[cell_index(*grid, x, y)]
                }),
        decreases size + 1 - yoff,
    {
        let mut xoff: i64 = -size;
        while xoff <= size
            invariant
                -size <= xoff <= size + 1,
                pixels@.len() == old(pixels)@.len(),
                forall|x: int, y: int|
                    0 <= x < grid.width && 0 <= y < grid.height ==> pixels@[#[trigger] cell_index(
                        *grid,
                        x,
                        y,
                    )] == (if lit(*light, obstacles@, x, y) && (y - py < yoff || (y - py == yoff
                        && x - px < xoff)) {
                        lit_color(*light, x, y)
                    } else {
                        old(pixels)@[cell_index(*grid, x, y)]
                    }),
            decreases size + 1 - xoff,
        {
            proof {
                assert(0 <= xoff * xoff <= 46340 * 46340 && 0 <= yoff * yoff <= 46340 * 46340)
                    by (nonlinear_arith)
                    requires
                        -46340 <= xoff <= 46340,
                        -46340 <= yoff <= 46340,
                ;
            }
            let x = px + xoff;
            let y = py + yoff;
            let d2 = xoff * xoff + yoff * yoff;
            let mut wrote: bool = false;
            if d2 < size * size {
                if 0 <= x && x < gw && 0 <= y && y < gh {
                    let candidate = Point { x: x as i32, y: y as i32 };
                    if has_line_of_sight(light.point, candidate, obstacles) {
                        proof {
                            assert((y as int) * (grid.width as int) + x < (grid.width as int) * (
                            grid.height as int) && (y as int) * (grid.width as int) >= 0)
                                by (nonlinear_arith)
                                requires
                                    0 <= x < grid.width as int,
                                    0 <= y < grid.height as int,
                            ;
                        }
                        let idx = (y as usize) * (grid.width as usize) + (x as usize);
                        let c = green(d2, size);
                        pixels[idx] = c;
                        wrote = true;
                        proof {
                            assert(idx as int == cell_index(*grid, x as int, y as int));
                            assert(lit(*light, obstacles@, x as int, y as int));
                            assert(c == lit_color(*light, x as int, y as int));
                            assert forall|x2: int, y2: int|
                                0 <= x2 < grid.width && 0 <= y2 < grid.height && cell_index(
                                    *grid,
                                    x2,
                                    y2,
                                ) == idx implies x2 == x as int && y2 == y as int by {
                                lemma_cell_index_injective(
                                    *grid,
                                    x2,
                                    y2,
                                    x as int,
                                    y as int,
                                );
                            }
                        }
                    }
                }
            }
            proof {
                if !wrote {
                    // Whatever test failed shows the candidate cell is not
                    // lit, or names no cell of the grid at all.
                    assert forall|x2: int, y2: int|
                        0 <= x2 < grid.width && 0 <= y2 < grid.height && y2 - py == yoff && x2 - px
                            == xoff implies !lit(*light, obstacles@, x2, y2) by {
                    }
                }
            }
            xoff = xoff + 1;
        }
        yoff = yoff + 1;
    }
}

/// A point strictly inside a circle lies strictly inside its bounding
/// square.
proof fn lemma_within_radius(dx: int, dy: int, s: int)
    requires
        0 <= s,
        dx * dx + dy * dy < s * s,
    ensures
        -s < dx < s,
        -s < dy < s,
{
    assert(-s < dx < s && -s < dy < s) by (nonlinear_arith)
        requires
            0 <= s,
            dx * dx + dy * dy < s * s,
    ;
}

/// Create a Bitmap showing the scene: background, then the light's
/// contribution when the scene has started and the light is on, then every
/// obstacle, then the obstacle being dragged.
#[verifier::loop_isolation(false)]
pub fn render(state: &State) -> (bitmap: Bitmap)
    requires
        wf_state(*state),
    ensures
        is_render_of(*state, bitmap),
{
    proof {
        assert((state.grid.width as int) * (state.grid.height as int) <= 46340 * 46340 && 0 < (
        state.grid.width as int) * (state.grid.height as int)) by (nonlinear_arith)
            requires
                0 < state.grid.width as int <= 46340,
                0 < state.grid.height as int <= 46340,
        ;
    }
    let npixels = (state.grid.width as usize) * (state.grid.height as usize);
    let mut pixels: Vec<u8> = Vec::new();
    while pixels.len() < npixels
        invariant
            pixels@.len() <= npixels,
            forall|k: int| 0 <= k < pixels@.len() ==> pixels@[k] == BLACK,
        decreases npixels - pixels@.len(),
    {
        pixels.push(BLACK);
    }

    if state.started && state.light.on {
        render_light(&mut pixels, &state.grid, &state.obstacles, &state.light);
    }
    let ghost base = pixels@;
    proof {
        assert forall|x: int, y: int| 0 <= x < state.grid.width && 0 <= y < state.grid.height
            implies 0 <= #[trigger] cell_index(state.grid, x, y) < base.len() by {
            lemma_cell_in_range(state.grid, x, y);
        }
    }

    let mut i: usize = 0;
    while i < state.obstacles.len()
        invariant
            0 <= i <= state.obstacles@.len(),
            pixels@.len() == base.len(),
            forall|x: int, y: int|
                0 <= x < state.grid.width && 0 <= y < state.grid.height ==> pixels@[
                    #[trigger] cell_index(state.grid, x, y)] == (if covered(
                    state.obstacles@.subrange(0, i as int),
                    x,
                    y,
                ) {
                    RED
                } else {
                    base[cell_index(state.grid, x, y)]
                }),
        decreases state.obstacles@.len() - i,
    {
        let ghost before = pixels@;
        proof {
            lemma_rows_fit(
                state.grid,
                state.obstacles@[i as int].y + state.obstacles@[i as int].h,
            );
        }
        render_obstacle(&mut pixels, state.grid.width, &state.obstacles[i]);
        proof {
            lemma_overlay_step(
                *state,
                before,
                pixels@,
                base,
                state.obstacles@[i as int],
                i as int,
            );
        }
        i = i + 1;
    }
    proof {
        assert(state.obstacles@.subrange(0, state.obstacles@.len() as int) =~= state.obstacles@);
    }

    if let Some(pending) = &state.new_obstacle {
        let ghost before = pixels@;
        proof {
            lemma_rows_fit(state.grid, pending.y + pending.h);
        }
        render_obstacle(&mut pixels, state.grid.width, pending);
        proof {
            assert forall|x: int, y: int|
                0 <= x < state.grid.width && 0 <= y < state.grid.height implies pixels@[
                #[trigger] cell_index(state.grid, x, y)] == (if covered(drawn_obstacles(*state), x, y) {
                RED
            } else {
                base[cell_index(state.grid, x, y)]
            }) by {
                lemma_cell_in_range(state.grid, x, y);
                let k = cell_index(state.grid, x, y);
                lemma_fundamental_div_mod_converse(k, state.grid.width as int, y, x);
                assert(covered(drawn_obstacles(*state), x, y) == (covered(state.obstacles@, x, y)
                    || rect_contains(*pending, x, y))) by {
                    lemma_covered_push(state.obstacles@, *pending, x, y);
                }
            }
        }
    }

    proof {
        if state.new_obstacle is None {
            assert(drawn_obstacles(*state) == state.obstacles@);
        }
        assert forall|x: int, y: int|
            0 <= x < state.grid.width && 0 <= y < state.grid.height implies pixels@[
            #[trigger] cell_index(state.grid, x, y)] == render_pixel(*state, x, y) by {
        }
    }
    Bitmap { pixels }
}

/// A prefix of the grid's rows fits in a buffer holding the whole grid.
proof fn lemma_rows_fit(g: Dimensions, rows: int)
    requires
        0 <= rows <= g.height,
        0 < g.width,
    ensures
        rows * (g.width as int) <= (g.width as int) * (g.height as int),
{
    assert(rows * (g.width as int) <= (g.width as int) * (g.height as int)) by (nonlinear_arith)
        requires
            0 <= rows <= g.height,
            0 < g.width,
    ;
}

/// The row-major index of a grid cell is a position in a buffer of the
/// grid's size.
proof fn lemma_cell_in_range(g: Dimensions, x: int, y: int)
    requires
        0 <= x < g.width,
        0 <= y < g.height,
    ensures
        0 <= cell_index(g, x, y) < g.width * g.height,
{
    assert(0 <= y * g.width + x < g.width * g.height) by (nonlinear_arith)
        requires
            0 <= x < g.width,
            0 <= y < g.height,
    ;
}

/// Pushing one more rectangle onto the overlay covers a cell exactly when
/// the rectangle covers it or the earlier ones already did.
proof fn lemma_covered_push(obs: Seq<Rect>, r: Rect, x: int, y: int)
    ensures
        covered(obs.push(r), x, y) == (covered(obs, x, y) || rect_contains(r, x, y)),
{
    if covered(obs, x, y) {
        let j = choose|j: int| 0 <= j < obs.len() && rect_contains(obs[j], x, y);
        assert(obs.push(r)[j] == obs[j]);
        assert(covered(obs.push(r), x, y));
    }
    if rect_contains(r, x, y) {
        assert(obs.push(r)[obs.len() as int] == r);
        assert(covered(obs.push(r), x, y));
    }
    if covered(obs.push(r), x, y) {
        let j = choose|j: int| 0 <= j < obs.push(r).len() && rect_contains(obs.push(r)[j], x, y);
        if j < obs.len() {
            assert(obs.push(r)[j] == obs[j]);
            assert(covered(obs, x, y));
        } else {
            assert(obs.push(r)[j] == r);
        }
    }
}

/// One step of the obstacle overlay: after painting obstacle `i` on top of a
/// buffer that showed the first `i` obstacles over `base`, the buffer shows
/// the first `i + 1` obstacles over `base`.
proof fn lemma_overlay_step(
    s: State,
    before: Seq<u8>,
    after: Seq<u8>,
    base: Seq<u8>,
    r: Rect,
    i: int,
)
    requires
        wf_state(s),
        0 <= i < s.obstacles@.len(),
        r == s.obstacles@[i],
        before.len() == base.len(),
        after.len() == before.len(),
        base.len() == s.grid.width * s.grid.height,
        forall|x: int, y: int|
            0 <= x < s.grid.width && 0 <= y < s.grid.height ==> before[#[trigger] cell_index(
                s.grid,
                x,
                y,
            )] == (if covered(s.obstacles@.subrange(0, i), x, y) {
                RED
            } else {
                base[cell_index(s.grid, x, y)]
            }),
        forall|k: int|
            0 <= k < before.len() ==> #[trigger] after[k] == (if rect_contains(
                r,
                k % (s.grid.width as int),
                k / (s.grid.width as int),
            ) {
                RED
            } else {
                before[k]
            }),
    ensures
        forall|x: int, y: int|
            0 <= x < s.grid.width && 0 <= y < s.grid.height ==> after[#[trigger] cell_index(
                s.grid,
                x,
                y,
            )] == (if covered(s.obstacles@.subrange(0, i + 1), x, y) {
                RED
            } else {
                base[cell_index(s.grid, x, y)]
            }),
{
    assert(s.obstacles@.subrange(0, i + 1) =~= s.obstacles@.subrange(0, i).push(r));
    assert forall|x: int, y: int| 0 <= x < s.grid.width && 0 <= y < s.grid.height implies after[
    #[trigger] cell_index(s.grid, x, y)] == (if covered(s.obstacles@.subrange(0, i + 1), x, y) {
        RED
    } else {
        base[cell_index(s.grid, x, y)]
    }) by {
        lemma_cell_in_range(s.grid, x, y);
        let k = cell_index(s.grid, x, y);
        lemma_fundamental_div_mod_converse(k, s.grid.width as int, y, x);
        lemma_covered_push(s.obstacles@.subrange(0, i), r, x, y);
    }
}

/// Law: rendering is deterministic — two bitmaps that render the same scene
/// are byte-identical.
pub proof fn lemma_render_deterministic(s: State, b1: Bitmap, b2: Bitmap)
    requires
        wf_state(s),
        is_render_of(s, b1),
        is_render_of(s, b2),
    ensures
        b1.pixels@ == b2.pixels@,
{
    assert forall|k: int| 0 <= k < b1.pixels@.len() implies b1.pixels@[k] == b2.pixels@[k] by {
        let w = s.grid.width as int;
        let h = s.grid.height as int;
        lemma_fundamental_div_mod(k, w);
        vstd::arithmetic::div_mod::lemma_mod_bound(k, w);
        lemma_row_major_decompose(k, w, h, k % w, k / w);
        assert(b1.pixels@[cell_index(s.grid, k % w, k / w)] == render_pixel(s, k % w, k / w));
        assert(b2.pixels@[cell_index(s.grid, k % w, k / w)] == render_pixel(s, k % w, k / w));
    }
    assert(b1.pixels@ =~= b2.pixels@);
}

/// Recover a cell from its row-major index: the quotient and remainder by
/// the width name a cell of the grid, and its index is the given one.
proof fn lemma_row_major_decompose(k: int, w: int, h: int, x: int, y: int)
    requires
        0 < w,
        0 <= k < w * h,
        k == w * y + x,
        0 <= x < w,
    ensures
        0 <= y < h,
        y * w + x == k,
{
    assert(0 <= y < h && y * w + x == k) by (nonlinear_arith)
        requires
            0 < w,
            0 <= k < w * h,
            k == w * y + x,
            0 <= x < w,
    ;
}

} // verus!
