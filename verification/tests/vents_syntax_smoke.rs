//! Vent-line overlaps, bracket syntax scores, and height-map low points.

use submarine::smoke::{basin, largest_basins, low_points, risk_sum};
use submarine::syntax::{
    check_line, completion_score, line_wf, middle_score, syntax_error_score, LineCheck,
};
use submarine::vents::{axis_aligned, Line, Point, VentGrid};

fn vent_lines() -> Vec<Line> {
    [
        ((0, 9), (5, 9)),
        ((8, 0), (0, 8)),
        ((9, 4), (3, 4)),
        ((2, 2), (2, 1)),
        ((7, 0), (7, 4)),
        ((6, 4), (2, 0)),
        ((0, 9), (2, 9)),
        ((3, 4), (1, 4)),
        ((0, 0), (8, 8)),
        ((5, 5), (8, 2)),
    ]
    .iter()
    .map(|&((x1, y1), (x2, y2))| Line {
        start: Point { x: x1, y: y1 },
        end: Point { x: x2, y: y2 },
    })
    .collect()
}

#[test]
fn straight_vent_overlaps() {
    let mut grid = VentGrid::new(10, 10);
    for line in vent_lines() {
        if axis_aligned(&line) {
            grid.mark_line(&line);
        }
    }
    assert_eq!(grid.overlap_count(), 5);
}

#[test]
fn diagonal_vent_overlaps() {
    let mut grid = VentGrid::new(10, 10);
    for line in vent_lines() {
        grid.mark_line(&line);
    }
    assert_eq!(grid.overlap_count(), 12);
}

#[test]
fn corrupted_lines_score() {
    let lines = [
        "[({(<(())[]>[[{[]{<()<>>",
        "[(()[<>])]({[<{<<[]>>(",
        "{([(<{}[<>[]}>{[]{[(<()>",
        "(((({<>}<{<{<>}{[]{[]{}",
        "[[<[([]))<([[{}[[()]]]",
        "[{[{({}]{}}([{[{{{}}([]",
        "{<[[]]>}<{[{[{[]{()[[[]",
        "[<(<(<(<{}))><([]([]()",
        "<{([([[(<>()){}]>(<<{{",
        "<{([{{}}[<[[[<>{}]]]>[]]",
    ];
    let mut corrupted: Vec<char> = Vec::new();
    let mut completion_scores: Vec<u64> = Vec::new();
    for line in lines {
        let chars: Vec<char> = line.chars().collect();
        match check_line(&chars) {
            LineCheck::Corrupted(c) => corrupted.push(c),
            LineCheck::Incomplete(comp) => completion_scores.push(completion_score(&comp)),
            LineCheck::Legal => {}
        }
    }
    assert_eq!(corrupted, vec!['}', ')', ']', ')', '>']);
    assert_eq!(syntax_error_score(&corrupted), 26397);

    assert_eq!(middle_score(&completion_scores), 288957);
}

#[test]
fn rejects_nonsense_lines() {
    let good: Vec<char> = "([])".chars().collect();
    assert!(line_wf(&good));
    let stray_close: Vec<char> = ")(".chars().collect();
    assert!(!line_wf(&stray_close));
    let letters: Vec<char> = "(a)".chars().collect();
    assert!(!line_wf(&letters));
}

#[test]
fn completion_of_unfinished_line() {
    let chars: Vec<char> = "[({(<(())[]>[[{[]{<()<>>".chars().collect();
    match check_line(&chars) {
        LineCheck::Incomplete(comp) => {
            let s: String = comp.iter().collect();
            assert_eq!(s, "}}]])})]");
            assert_eq!(completion_score(&comp), 288957);
        }
        _ => panic!("expected an incomplete line"),
    }
}

#[test]
fn height_map_low_points() {
    let map: Vec<Vec<u32>> = [
        "2199943210", "3987894921", "9856789892", "8767896789", "9899965678",
    ]
    .iter()
    .map(|s| s.chars().map(|c| c.to_digit(10).unwrap()).collect())
    .collect();
    let lows = low_points(&map);
    assert_eq!(lows, vec![(0, 1), (0, 9), (2, 2), (4, 6)]);
    assert_eq!(risk_sum(&map, &lows), 15);
}

#[test]
fn basin_sizes() {
    let map: Vec<Vec<u32>> = [
        "2199943210", "3987894921", "9856789892", "8767896789", "9899965678",
    ]
    .iter()
    .map(|s| s.chars().map(|c| c.to_digit(10).unwrap()).collect())
    .collect();
    let mut sizes: Vec<usize> = low_points(&map).iter().map(|&p| basin(&map, p).len()).collect();
    assert_eq!(largest_basins(&sizes), 1134);
    sizes.sort();
    assert_eq!(sizes, vec![3, 9, 9, 14]);
}
