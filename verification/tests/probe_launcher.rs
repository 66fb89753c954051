//! Worked examples for target parsing and probe trajectories.

use submarine::trickshot::{
    find_all_hits, max_height_in_trajectory, max_height_trajectory, parse_input, trajectory, Span,
};

#[test]
fn test_parsing() {
    let input: Vec<String> = vec!["target area: x=240..292, y=-90..-57".to_string()];
    assert_eq!(
        (
            Span { start: 240, end: 292 + 1 },
            Span { start: -90, end: -57 + 1 }
        ),
        parse_input(&input[0])
    );

    assert_eq!(
        (
            Span { start: 20, end: 30 + 1 },
            Span { start: -10, end: -5 + 1 }
        ),
        parse_input(&String::from("target area: x=20..30, y=-10..-5"))
    );

    // sanity check on inclusive bounds expressed as half-open spans
    let test_range = Span { start: -10, end: -5 + 1 };
    assert!(test_range.contains(-10));
    assert!(test_range.contains(-5));
    assert!(!test_range.contains(-11));
    assert!(!test_range.contains(-4));
}

#[test]
fn test_trajectory() {
    let target = (
        Span { start: 20, end: 30 + 1 },
        Span { start: -10, end: -5 + 1 },
    );
    let _hit = trajectory((7, 2), (0, 0), &target).unwrap();
    let _hit = trajectory((6, 3), (0, 0), &target).unwrap();
    let _hit = trajectory((9, 0), (0, 0), &target).unwrap();
    let _hit = trajectory((6, 9), (0, 0), &target).unwrap();
    assert!(match trajectory((17, -4), (0, 0), &target) {
        Ok(_) => false,
        Err(_) => true,
    });
}

#[test]
fn test_max_in_traj() {
    let traj = vec![(0, 0), (0, 2), (-1, 3), (32, 4), (2, 3), (2, -12)];
    assert_eq!(4, max_height_in_trajectory(&traj));
}

#[test]
fn test_max_height_trajectory() {
    let target = (
        Span { start: 20, end: 30 + 1 },
        Span { start: -10, end: -5 + 1 },
    );
    assert_eq!(45, max_height_trajectory(&target));
}

#[test]
fn test_all_hits() {
    let target = (
        Span { start: 20, end: 30 + 1 },
        Span { start: -10, end: -5 + 1 },
    );
    assert_eq!(112, find_all_hits(&target));
}
