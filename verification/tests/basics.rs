//! The arithmetic sanity check of the shared helper crate, and small
//! checks of the depth-scan counters.

use submarine::sonar::{count_increases, count_window_increases};

#[test]
fn it_works() {
    let result = 2 + 2;
    assert_eq!(result, 4);
}

#[test]
fn depth_increases() {
    let data: Vec<i64> = vec![199, 200, 208, 210, 200, 207, 240, 269, 260, 263];
    assert_eq!(count_increases(&data), 7);
}

#[test]
fn window_increases() {
    let data: Vec<i64> = vec![199, 200, 208, 210, 200, 207, 240, 269, 260, 263];
    assert_eq!(count_window_increases(&data), 5);
}

#[test]
fn no_increase_when_falling() {
    let data: Vec<i64> = vec![10, 9, 8];
    assert_eq!(count_increases(&data), 0);
}

#[test]
fn single_reading_has_no_increase() {
    let data: Vec<i64> = vec![5];
    assert_eq!(count_increases(&data), 0);
}
