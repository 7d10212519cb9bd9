use lightcast::bresenham::bresenham;
use lightcast::bresenham::determine_octant;
use lightcast::bresenham::from_first_octant;
use lightcast::bresenham::to_first_octant;
use lightcast::bresenham::Octant;
use lightcast::geometry::Dimensions;
use lightcast::geometry::Point;
use lightcast::geometry::Rect;
use lightcast::render::render;
use lightcast::scene::handle_mouse_down;
use lightcast::scene::handle_mouse_move;
use lightcast::scene::handle_mouse_up;
use lightcast::scene::logical_point;
use lightcast::scene::Light;
use lightcast::scene::MouseButton;
use lightcast::scene::Settings;
use lightcast::scene::State;
use lightcast::visibility::has_line_of_sight;

fn pt(x: i32, y: i32) -> Point {
    Point { x, y }
}

fn pts(line: &[Point]) -> Vec<(i32, i32)> {
    line.iter().map(|p| (p.x, p.y)).collect()
}

fn scene(grid_w: i32, grid_h: i32, light: Light, obstacles: Vec<Rect>) -> State {
    State {
        started: true,
        grid: Dimensions { width: grid_w, height: grid_h },
        light,
        obstacles,
        new_obstacle_start: None,
        new_obstacle: None,
    }
}

const BACKGROUND: u8 = 0;
const OBSTACLE_FILL: u8 = 224;

#[test]
fn vertical_line_is_half_open_run() {
    let line = bresenham(pt(3, 7), pt(3, 2));
    assert_eq!(pts(&line), vec![(3, 2), (3, 3), (3, 4), (3, 5), (3, 6)]);
    let line = bresenham(pt(3, 2), pt(3, 7));
    assert_eq!(pts(&line), vec![(3, 2), (3, 3), (3, 4), (3, 5), (3, 6)]);
}

#[test]
fn degenerate_line_is_empty() {
    assert!(bresenham(pt(5, 5), pt(5, 5)).is_empty());
}

#[test]
fn shallow_line_first_octant() {
    let line = bresenham(pt(0, 0), pt(5, 2));
    assert_eq!(pts(&line), vec![(0, 0), (1, 0), (2, 1), (3, 1), (4, 2)]);
}

#[test]
fn shallow_line_reversed() {
    let line = bresenham(pt(5, 2), pt(0, 0));
    assert_eq!(pts(&line), vec![(5, 2), (4, 2), (3, 1), (2, 1), (1, 0)]);
}

#[test]
fn diagonal_line_takes_second_octant() {
    let line = bresenham(pt(0, 0), pt(3, 3));
    assert_eq!(pts(&line), vec![(0, 0), (1, 1), (2, 2)]);
}

#[test]
fn falling_diagonal_line() {
    let line = bresenham(pt(0, 0), pt(3, -3));
    assert_eq!(pts(&line), vec![(0, 0), (1, -1), (2, -2)]);
}

#[test]
fn no_duplicate_dominant_coordinates() {
    let cases = [
        (pt(0, 0), pt(7, 3)),
        (pt(0, 0), pt(3, 7)),
        (pt(2, 9), pt(-5, 1)),
        (pt(-4, -4), pt(6, -9)),
    ];
    for (a, b) in cases {
        let line = bresenham(a, b);
        let dominant: Vec<i32> = if (b.x - a.x).abs() > (b.y - a.y).abs() {
            line.iter().map(|p| p.x).collect()
        } else {
            line.iter().map(|p| p.y).collect()
        };
        let mut seen = dominant.clone();
        seen.sort();
        seen.dedup();
        assert_eq!(seen.len(), dominant.len(), "duplicate dominant coordinate for {:?} {:?}", a, b);
    }
}

#[test]
fn octant_transforms_round_trip() {
    let octants = [
        Octant::One,
        Octant::Two,
        Octant::Three,
        Octant::Four,
        Octant::Five,
        Octant::Six,
        Octant::Seven,
        Octant::Eight,
    ];
    let p = pt(17, -4);
    for o in octants {
        let q = from_first_octant(o, to_first_octant(o, p));
        assert_eq!((q.x, q.y), (p.x, p.y));
    }
}

#[test]
fn classifier_picks_first_octant_for_shallow_positive_direction() {
    assert!(matches!(determine_octant(pt(5, 2)), Octant::One));
    assert!(matches!(determine_octant(pt(2, 5)), Octant::Two));
    assert!(matches!(determine_octant(pt(3, 3)), Octant::Two));
}

#[test]
fn rect_from_corners_is_order_independent() {
    let a = pt(7, 1);
    let b = pt(2, 5);
    let r1 = Rect::from_points(a, b);
    let r2 = Rect::from_points(b, a);
    let r3 = Rect::from_points(pt(a.x, b.y), pt(b.x, a.y));
    assert_eq!(r1, Rect { x: 2, y: 1, w: 5, h: 4 });
    assert_eq!(r1, r2);
    assert_eq!(r1, r3);
    assert!(r1.w >= 0 && r1.h >= 0);
    assert_eq!(r1.area(), 20);
}

#[test]
fn degenerate_rect_has_zero_area() {
    let r = Rect::from_points(pt(4, 2), pt(4, 9));
    assert_eq!(r.area(), 0);
}

#[test]
fn contains_is_half_open() {
    let r = Rect { x: 0, y: 0, w: 2, h: 2 };
    assert!(r.contains(pt(0, 0)));
    assert!(r.contains(pt(1, 1)));
    assert!(!r.contains(pt(2, 0)));
    assert!(!r.contains(pt(0, 2)));
}

#[test]
fn sight_is_clear_without_obstacles() {
    let cases = [
        (pt(0, 0), pt(9, 4)),
        (pt(3, 3), pt(3, 3)),
        (pt(-7, 2), pt(4, -8)),
    ];
    for (a, b) in cases {
        assert!(has_line_of_sight(a, b, &vec![]));
    }
}

#[test]
fn obstacle_on_midpoint_blocks_sight() {
    let a = pt(0, 0);
    let b = pt(4, 4);
    let mid_block = vec![Rect { x: 2, y: 2, w: 1, h: 1 }];
    assert!(!has_line_of_sight(a, b, &mid_block));

    let a = pt(1, 6);
    let b = pt(1, 0);
    let mid_block = vec![Rect { x: 1, y: 3, w: 1, h: 1 }];
    assert!(!has_line_of_sight(a, b, &mid_block));
}

#[test]
fn render_is_deterministic() {
    let state = scene(
        12,
        9,
        Light { on: true, point: pt(6, 4), size: 4 },
        vec![Rect { x: 8, y: 3, w: 2, h: 2 }],
    );
    let first = render(&state);
    let second = render(&state);
    assert_eq!(first.pixels, second.pixels);
}

#[test]
fn light_center_is_brightest_and_far_corner_dark() {
    let state = scene(10, 10, Light { on: true, point: pt(5, 5), size: 3 }, vec![]);
    let bitmap = render(&state);
    assert_eq!(bitmap.pixels.len(), 100);
    // The center gets the top quantized level of the green ramp.
    assert_eq!(bitmap.pixels[5 * 10 + 5], 28);
    // Distance from (5,5) to (9,9) is about 5.66, beyond the radius.
    assert_eq!(bitmap.pixels[9 * 10 + 9], BACKGROUND);
}

#[test]
fn quantized_level_falls_off_with_distance() {
    let state = scene(17, 17, Light { on: true, point: pt(8, 8), size: 6 }, vec![]);
    let bitmap = render(&state);
    // Squared distance 1 of 36: level 5 of 6, byte 4 * (5 + 1).
    assert_eq!(bitmap.pixels[9 * 17 + 8], 24);
    // Squared distance 25 of 36: level 1 of 6, byte 4 * (1 + 1).
    assert_eq!(bitmap.pixels[8 * 17 + 13], 8);
    // Squared distance 36 is not strictly inside the radius.
    assert_eq!(bitmap.pixels[8 * 17 + 14], BACKGROUND);
}

#[test]
fn obstacle_between_light_and_cell_leaves_it_dark() {
    // An obstacle on the segment from the light at (5,5) toward (5,9)
    // shadows (5,9) even though that cell is within the radius.
    let blocker = Rect { x: 5, y: 6, w: 1, h: 1 };
    let state = scene(10, 10, Light { on: true, point: pt(5, 5), size: 5 }, vec![blocker]);
    let bitmap = render(&state);
    assert_eq!(bitmap.pixels[9 * 10 + 5], BACKGROUND);
    // The obstacle itself is drawn with the fill color.
    assert_eq!(bitmap.pixels[6 * 10 + 5], OBSTACLE_FILL);
    // A cell the obstacle does not shadow is still lit.
    assert_ne!(bitmap.pixels[5 * 10 + 6], BACKGROUND);
}

#[test]
fn obstacles_draw_over_the_light() {
    let block = Rect { x: 4, y: 4, w: 2, h: 1 };
    let state = scene(10, 10, Light { on: true, point: pt(4, 4), size: 3 }, vec![block]);
    let bitmap = render(&state);
    assert_eq!(bitmap.pixels[4 * 10 + 4], OBSTACLE_FILL);
    assert_eq!(bitmap.pixels[4 * 10 + 5], OBSTACLE_FILL);
}

#[test]
fn pending_obstacle_is_drawn_too() {
    let mut state = scene(10, 10, Light { on: false, point: pt(0, 0), size: 3 }, vec![]);
    state.new_obstacle = Some(Rect { x: 2, y: 2, w: 3, h: 1 });
    let bitmap = render(&state);
    assert_eq!(bitmap.pixels[2 * 10 + 2], OBSTACLE_FILL);
    assert_eq!(bitmap.pixels[2 * 10 + 4], OBSTACLE_FILL);
    assert_eq!(bitmap.pixels[2 * 10 + 5], BACKGROUND);
}

#[test]
fn light_off_renders_background_only() {
    let state = scene(8, 8, Light { on: false, point: pt(4, 4), size: 3 }, vec![]);
    let bitmap = render(&state);
    assert!(bitmap.pixels.iter().all(|&c| c == BACKGROUND));
}

#[test]
fn unstarted_scene_renders_background_only() {
    let mut state = scene(8, 8, Light { on: true, point: pt(4, 4), size: 3 }, vec![]);
    state.started = false;
    let bitmap = render(&state);
    assert!(bitmap.pixels.iter().all(|&c| c == BACKGROUND));
}

#[test]
fn logical_point_scales_window_to_grid() {
    let settings = Settings { window: Dimensions { width: 640, height: 480 } };
    let state = scene(160, 120, Light { on: true, point: pt(0, 0), size: 15 }, vec![]);
    let p = logical_point(&state, &settings, 320, 240);
    assert_eq!((p.x, p.y), (80, 60));
    let p = logical_point(&state, &settings, 639, 479);
    assert_eq!((p.x, p.y), (159, 119));
}

#[test]
fn mouse_move_starts_scene_and_moves_light() {
    let settings = Settings { window: Dimensions { width: 640, height: 480 } };
    let mut state = scene(160, 120, Light { on: true, point: pt(0, 0), size: 15 }, vec![]);
    state.started = false;
    handle_mouse_move(&mut state, &settings, 320, 240);
    assert!(state.started);
    assert_eq!((state.light.point.x, state.light.point.y), (80, 60));
    assert!(state.new_obstacle.is_none());
}

#[test]
fn drag_spans_obstacle_from_anchor() {
    let settings = Settings { window: Dimensions { width: 640, height: 480 } };
    let mut state = scene(160, 120, Light { on: true, point: pt(0, 0), size: 15 }, vec![]);
    handle_mouse_down(&mut state, &settings, 320, 240, MouseButton::Left);
    assert!(!state.light.on);
    assert_eq!(state.new_obstacle_start, Some(pt(80, 60)));
    handle_mouse_move(&mut state, &settings, 400, 200);
    assert_eq!(state.new_obstacle, Some(Rect { x: 80, y: 50, w: 20, h: 10 }));
    handle_mouse_up(&mut state, &settings, 400, 200);
    assert!(state.light.on);
    assert_eq!(state.new_obstacle_start, None);
    assert_eq!(state.new_obstacle, None);
    assert_eq!(state.obstacles, vec![Rect { x: 80, y: 50, w: 20, h: 10 }]);
}

#[test]
fn releasing_a_degenerate_drag_adds_nothing() {
    let settings = Settings { window: Dimensions { width: 640, height: 480 } };
    let mut state = scene(160, 120, Light { on: true, point: pt(0, 0), size: 15 }, vec![]);
    handle_mouse_down(&mut state, &settings, 320, 240, MouseButton::Left);
    handle_mouse_up(&mut state, &settings, 320, 240);
    assert!(state.obstacles.is_empty());
}

#[test]
fn right_click_removes_covering_obstacles() {
    let settings = Settings { window: Dimensions { width: 160, height: 120 } };
    let covering = Rect { x: 70, y: 50, w: 20, h: 20 };
    let elsewhere = Rect { x: 0, y: 0, w: 5, h: 5 };
    let mut state = scene(
        160,
        120,
        Light { on: true, point: pt(0, 0), size: 15 },
        vec![covering, elsewhere],
    );
    handle_mouse_down(&mut state, &settings, 80, 60, MouseButton::Right);
    assert_eq!(state.obstacles, vec![elsewhere]);
}
