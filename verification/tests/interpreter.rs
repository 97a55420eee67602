use lsystem::geometry::{BoundingBox, Vec2};
use lsystem::interpreter::{LSystem, LSystemBuilder};

/// The direction provider the library is designed around: one
/// displacement per reported heading, at `step` world units scaled into
/// fixed-point integer coordinates by `scale`.  Headings are in degrees
/// here; the library itself never fixes the unit.
fn dirs_for(headings: &Vec<i64>, step: f64, scale: f64) -> Vec<Vec2> {
    let mut dirs: Vec<Vec2> = Vec::new();
    for h in headings {
        let rad = (*h as f64).to_radians();
        dirs.push(Vec2 {
            x: (step * scale * rad.cos()).round() as i64,
            y: (step * scale * rad.sin()).round() as i64,
        });
    }
    dirs
}

fn seg_len(seg: &(Vec2, Vec2)) -> f64 {
    let dx = (seg.1.x - seg.0.x) as f64;
    let dy = (seg.1.y - seg.0.y) as f64;
    (dx * dx + dy * dy).sqrt()
}

fn run(
    system: &LSystem,
    start: Vec2,
    start_heading: i64,
    scale: f64,
) -> (Vec<(Vec2, Vec2)>, BoundingBox) {
    let mut headings: Vec<i64> = Vec::new();
    let instructions = system.initiator.clone();
    system.headings(&instructions, start_heading, 0, &mut headings);
    let dirs = dirs_for(&headings, system.line_len as f64, scale);
    let mut segments: Vec<(Vec2, Vec2)> = Vec::new();
    let mut bbox = BoundingBox::new();
    let used = system.draw(&instructions, start, 0, &dirs, &mut segments, &mut bbox);
    assert_eq!(used, dirs.len());
    (segments, bbox)
}

fn koch_island() -> LSystem {
    LSystemBuilder::new(String::from("F+F+F+F"))
        .line_len(10)
        .max_iterations(2)
        .angle_change(90)
        .rule('F', "F+F-F-FF+F+F-F")
        .build()
}

#[test]
fn koch_island_terminates_nonempty() {
    let system = koch_island();
    let scale: f64 = 1000.0;
    let (segments, _) = run(
        &system,
        Vec2 { x: 100_000, y: 100_000 },
        0,
        scale,
    );
    assert!(segments.len() > 0);
}

#[test]
fn koch_island_segment_count_is_m_pow_k_times_initiator() {
    // 4 forward symbols in the initiator, 8 in the rule, 2 levels:
    // 4 * 8^2 terminal segments.
    let system = koch_island();
    let (segments, _) = run(&system, Vec2 { x: 100_000, y: 100_000 }, 0, 1000.0);
    assert_eq!(segments.len(), 4 * 8 * 8);
}

#[test]
fn koch_island_segments_have_step_length() {
    // Every move is axis-aligned (all headings are multiples of 90
    // degrees), so each segment has length exactly 10 world units.
    let system = koch_island();
    let scale: f64 = 1000.0;
    let (segments, _) = run(&system, Vec2 { x: 100_000, y: 100_000 }, 0, scale);
    for seg in &segments {
        let len = seg_len(seg) / scale;
        assert!((len - 10.0).abs() < 1e-6);
    }
}

#[test]
fn koch_island_bbox_contains_start() {
    let system = koch_island();
    let scale: f64 = 1000.0;
    let start = Vec2 { x: 100_000, y: 100_000 };
    let (segments, bbox) = run(&system, start, 0, scale);
    assert!(bbox.min.x <= start.x && start.x <= bbox.max.x);
    assert!(bbox.min.y <= start.y && start.y <= bbox.max.y);
    // Bounding-box soundness on the emitted geometry as well.
    for seg in &segments {
        for p in [seg.0, seg.1] {
            assert!(bbox.min.x <= p.x && p.x <= bbox.max.x);
            assert!(bbox.min.y <= p.y && p.y <= bbox.max.y);
        }
    }
}

#[test]
fn zero_iterations_draws_initiator_as_square() {
    // With no expansion levels the initiator itself is drawn: exactly
    // four segments of the step length, closing into a square under
    // quarter turns, whatever rules the grammar holds.
    let system = LSystemBuilder::new(String::from("F+F+F+F"))
        .line_len(10)
        .max_iterations(0)
        .angle_change(90)
        .rule('F', "F+F-F-FF+F+F-F")
        .build();
    let start = Vec2 { x: 100, y: 100 };
    let (segments, bbox) = run(&system, start, 0, 1.0);
    assert_eq!(segments.len(), 4);
    for seg in &segments {
        assert!((seg_len(seg) - 10.0).abs() < 1e-9);
    }
    // The walk chains and closes.
    for k in 0..3 {
        assert_eq!(segments[k].1, segments[k + 1].0);
    }
    assert_eq!(segments[3].1, segments[0].0);
    assert_eq!(bbox.min, Vec2 { x: 100, y: 100 });
    assert_eq!(bbox.max, Vec2 { x: 110, y: 110 });
}

#[test]
fn missing_rule_forces_terminal_moves() {
    // No rule for 'F': depth never grows, every 'F' is one terminal
    // move and the polyline chains, even with levels to spare.
    let system = LSystemBuilder::new(String::from("FF-F"))
        .line_len(5)
        .max_iterations(7)
        .angle_change(90)
        .build();
    let (segments, _) = run(&system, Vec2 { x: 0, y: 0 }, 0, 1.0);
    assert_eq!(segments.len(), 3);
    assert_eq!(segments[0].0, Vec2 { x: 0, y: 0 });
    assert_eq!(segments[0].1, Vec2 { x: 5, y: 0 });
    assert_eq!(segments[1].1, Vec2 { x: 10, y: 0 });
    // After the right turn the third move heads toward negative y.
    assert_eq!(segments[2].1, Vec2 { x: 10, y: -5 });
}

#[test]
fn heading_accumulates_turn_by_turn() {
    // Three '+' at 30 degrees each, then a move: the single reported
    // heading is the initial one plus 90.
    let system = LSystemBuilder::new(String::from("+++F"))
        .angle_change(30)
        .max_iterations(0)
        .build();
    let mut headings: Vec<i64> = Vec::new();
    system.headings(&system.initiator.clone(), 15, 0, &mut headings);
    assert_eq!(headings, vec![15 + 3 * 30]);
}

#[test]
fn turns_subtract_and_unknown_symbols_are_ignored() {
    let system = LSystemBuilder::new(String::from("x+-yz-F"))
        .angle_change(45)
        .max_iterations(0)
        .build();
    let mut headings: Vec<i64> = Vec::new();
    system.headings(&system.initiator.clone(), 0, 0, &mut headings);
    assert_eq!(headings, vec![-45]);
}

#[test]
fn expansion_headings_stay_local_to_the_replacement() {
    // The rule turns inside its replacement, but the parent's heading
    // is unchanged after the descent: the second initiator move is
    // still reported at the parent's heading.
    let system = LSystemBuilder::new(String::from("FF"))
        .angle_change(90)
        .max_iterations(1)
        .rule('F', "+F")
        .build();
    let mut headings: Vec<i64> = Vec::new();
    system.headings(&system.initiator.clone(), 0, 0, &mut headings);
    // Each initiator 'F' is reported at heading 0, each replacement
    // move after its local '+' at 90.
    assert_eq!(headings, vec![0, 90, 0, 90]);
}

#[test]
fn expansion_continues_from_the_pre_move_point() {
    // One expanded move: the drawing descends from the pre-move point,
    // and the turtle stays there afterwards, so both expanded moves of
    // "FF" start from the same point.
    let system = LSystemBuilder::new(String::from("FF"))
        .line_len(1)
        .angle_change(90)
        .max_iterations(1)
        .rule('F', "F")
        .build();
    let (segments, _) = run(&system, Vec2 { x: 0, y: 0 }, 0, 1.0);
    assert_eq!(segments.len(), 2);
    assert_eq!(segments[0].0, Vec2 { x: 0, y: 0 });
    assert_eq!(segments[0].1, Vec2 { x: 1, y: 0 });
    assert_eq!(segments[1].0, Vec2 { x: 0, y: 0 });
    assert_eq!(segments[1].1, Vec2 { x: 1, y: 0 });
}

#[test]
fn no_forward_symbols_draw_nothing() {
    let system = LSystemBuilder::new(String::from("++--xyz")).angle_change(10).build();
    let (segments, bbox) = run(&system, Vec2 { x: 3, y: 4 }, 0, 1.0);
    assert_eq!(segments.len(), 0);
    assert_eq!(bbox, BoundingBox::new());
}

#[test]
fn builder_defaults() {
    let system = LSystemBuilder::new(String::from("F")).build();
    assert_eq!(system.line_len, 1);
    assert_eq!(system.max_iterations, 1);
    assert_eq!(system.angle_change, 0);
    assert_eq!(system.initiator, "F");
    assert!(system.rule_for('F').is_none());
}

#[test]
fn builder_overrides_and_rule_shadowing() {
    let system = LSystemBuilder::new(String::from("F"))
        .initiator("F+F")
        .line_len(7)
        .max_iterations(3)
        .angle_change(60)
        .rule('F', "FF")
        .rule('G', "G")
        .rule('F', "F-F")
        .build();
    assert_eq!(system.initiator, "F+F");
    assert_eq!(system.line_len, 7);
    assert_eq!(system.max_iterations, 3);
    assert_eq!(system.angle_change, 60);
    assert_eq!(system.rule_for('F').unwrap(), "F-F");
    assert_eq!(system.rule_for('G').unwrap(), "G");
    assert!(system.rule_for('X').is_none());
}

#[test]
fn direction_provider_magnitude_matches_step() {
    // The trigonometric conversion the library's callers use keeps the
    // step length: |from_angle(L, h)| is L up to fixed-point rounding.
    let scale: f64 = 100_000.0;
    for h in [0i64, 17, 30, 45, 90, 123, 180, 271, 359, -77] {
        let headings = vec![h];
        let dirs = dirs_for(&headings, 10.0, scale);
        let dx = dirs[0].x as f64;
        let dy = dirs[0].y as f64;
        let magnitude = (dx * dx + dy * dy).sqrt() / scale;
        assert!((magnitude - 10.0).abs() < 1e-4);
    }
}
