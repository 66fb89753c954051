//! Command parsing, course plotting, and crab alignment costs.

use submarine::crabs::{best_alignment, cost_part1, cost_part2, median};
use submarine::dive::{
    aimed_course_fits_check, course_fits_check, travel, travel_with_aim, Command, Direction,
    MyError,
};

#[test]
fn parses_commands() {
    let c = Command::from_string(String::from("forward 5")).unwrap();
    assert_eq!(c.direction, Direction::Forward);
    assert_eq!(c.magnitude, 5);

    let c = Command::from_string(String::from("  Down  3 ")).unwrap();
    assert_eq!(c.direction, Direction::Down);
    assert_eq!(c.magnitude, 3);

    let c = Command::from_string(String::from("UP -2")).unwrap();
    assert_eq!(c.direction, Direction::Up);
    assert_eq!(c.magnitude, -2);
}

#[test]
fn rejects_bad_commands() {
    assert_eq!(
        Command::from_string(String::from("sideways 5")),
        Err(MyError::InvalidDirection)
    );
    assert_eq!(
        Command::from_string(String::from("forward five")),
        Err(MyError::InvalidIntParse)
    );
    assert_eq!(
        Command::from_string(String::from("forward 99999999999999999999")),
        Err(MyError::InvalidIntParse)
    );
}

#[test]
fn error_messages() {
    assert_eq!(MyError::InvalidDirection.message(), "Invalid Direction");
    assert_eq!(MyError::InvalidIntParse.message(), "i64 Parsing Error");
}

fn sample_course() -> Vec<Command> {
    ["forward 5", "down 5", "forward 8", "up 3", "down 8", "forward 2"]
        .iter()
        .map(|line| Command::from_string(String::from(*line)).unwrap())
        .collect()
}

#[test]
fn plots_direct_course() {
    let (forward, depth) = travel(&sample_course());
    assert_eq!(forward, 15);
    assert_eq!(depth, 10);
    assert_eq!(forward * depth, 150);
}

#[test]
fn plots_aimed_course() {
    let (forward, depth, _aim) = travel_with_aim(&sample_course());
    assert_eq!(forward, 15);
    assert_eq!(depth, 60);
    assert_eq!(forward * depth, 900);
}

#[test]
fn course_overflow_is_detected() {
    let ok = sample_course();
    assert!(course_fits_check(&ok));
    assert!(aimed_course_fits_check(&ok));

    let huge = vec![
        Command { direction: Direction::Down, magnitude: i64::MAX },
        Command { direction: Direction::Down, magnitude: i64::MAX },
    ];
    assert!(!course_fits_check(&huge));
    assert!(!aimed_course_fits_check(&huge));
}

#[test]
fn crab_costs() {
    let positions: Vec<u32> = vec![16, 1, 2, 0, 4, 2, 7, 1, 2, 14];
    assert_eq!(cost_part1(2, &positions), 37);
    assert_eq!(cost_part1(10, &positions), 71);
    assert_eq!(cost_part2(5, &positions), 168);
    assert_eq!(cost_part2(2, &positions), 206);
}

#[test]
fn crab_median() {
    let positions: Vec<u32> = vec![16, 1, 2, 0, 4, 2, 7, 1, 2, 14];
    assert_eq!(median(&positions), 2);
    assert_eq!(cost_part1(median(&positions), &positions), 37);
}

#[test]
fn crab_best_alignment() {
    let positions: Vec<u32> = vec![16, 1, 2, 0, 4, 2, 7, 1, 2, 14];
    let (target, fuel) = best_alignment(&positions, 0, 16);
    assert_eq!(target, 5);
    assert_eq!(fuel, 168);
}
