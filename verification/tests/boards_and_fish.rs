//! Bingo boards and the spawning fish population.

use submarine::bingo::{play, BingoBoard};
use submarine::lanternfish::{run_day, run_day_binned, total_count, Fish};

fn sample_board() -> BingoBoard {
    let mut b = BingoBoard::new();
    b.board = vec![
        vec![1, 2, 3, 4, 5],
        vec![6, 7, 8, 9, 10],
        vec![11, 12, 13, 14, 15],
        vec![16, 17, 18, 19, 20],
        vec![21, 22, 23, 24, 25],
    ];
    b
}

#[test]
fn marking_finds_hits() {
    let mut b = sample_board();
    assert!(b.mark(7));
    assert!(!b.mark(99));
    assert_eq!(b.marks.len(), 1);
    assert_eq!(b.marks[0].row, 1);
    assert_eq!(b.marks[0].col, 1);
}

#[test]
fn no_win_with_few_marks() {
    let mut b = sample_board();
    b.mark(1);
    b.mark(2);
    assert!(b.winning_values().is_none());
}

#[test]
fn row_win_and_score() {
    let mut b = sample_board();
    for n in [1, 2, 3, 4, 5] {
        b.mark(n);
    }
    let vals = b.winning_values().unwrap();
    assert_eq!(vals, vec![1, 2, 3, 4, 5]);
    // all cells sum to 325; the marked row sums to 15; the last call was 5
    assert_eq!(b.score(), (325 - 15) * 5);
}

#[test]
fn column_win() {
    let mut b = sample_board();
    for n in [3, 8, 13, 18, 23] {
        b.mark(n);
    }
    let vals = b.winning_values().unwrap();
    assert_eq!(vals, vec![3, 8, 13, 18, 23]);
}

#[test]
fn whole_game() {
    // the worked bingo example: first winner scores 4512, last 1924
    let rows: [[u32; 5]; 15] = [
        [22, 13, 17, 11, 0], [8, 2, 23, 4, 24], [21, 9, 14, 16, 7], [6, 10, 3, 18, 5],
        [1, 12, 20, 15, 19],
        [3, 15, 0, 2, 22], [9, 18, 13, 17, 5], [19, 8, 7, 25, 23], [20, 11, 10, 24, 4],
        [14, 21, 16, 12, 6],
        [14, 21, 17, 24, 4], [10, 16, 15, 9, 19], [18, 8, 23, 26, 20], [22, 11, 13, 6, 5],
        [2, 0, 12, 3, 7],
    ];
    let mut boards: Vec<BingoBoard> = Vec::new();
    for chunk in rows.chunks(5) {
        let mut b = BingoBoard::new();
        for r in chunk {
            b.board.push(r.to_vec());
        }
        boards.push(b);
    }
    let callouts: Vec<u32> = vec![
        7, 4, 9, 5, 11, 17, 23, 2, 0, 14, 21, 24, 10, 16, 13, 6, 15, 25, 12, 22, 18, 20, 8, 19,
        3, 26, 1,
    ];
    let winners = play(&mut boards, &callouts);
    assert_eq!(winners.first().map(|w| w.score), Some(4512));
    assert_eq!(winners.last().map(|w| w.score), Some(1924));
    assert_eq!(
        winners.first().map(|w| w.win_marks.clone()),
        Some(vec![14, 21, 17, 24, 4])
    );
}

#[test]
fn fish_counter_cycles() {
    let mut f = Fish::new();
    assert_eq!(f.days, 8);
    f.days = 0;
    assert!(f.spawn());
    assert_eq!(f.days, 6);
    assert!(!f.spawn());
    assert_eq!(f.days, 5);
}

#[test]
fn population_one_day() {
    let mut fishes: Vec<Fish> = [3u32, 4, 3, 1, 2].iter().map(|&d| Fish { days: d }).collect();
    let spawned = run_day(&mut fishes);
    assert_eq!(spawned, 0);
    let days: Vec<u32> = fishes.iter().map(|f| f.days).collect();
    assert_eq!(days, vec![2, 3, 2, 0, 1]);
}

#[test]
fn binned_population_grows() {
    // ages 3,4,3,1,2 of the worked example
    let mut bins: Vec<u64> = vec![0, 1, 1, 2, 1, 0, 0, 0, 0];
    for _ in 0..18 {
        run_day_binned(&mut bins);
    }
    assert_eq!(total_count(&bins), 26);
    for _ in 18..80 {
        run_day_binned(&mut bins);
    }
    assert_eq!(total_count(&bins), 5934);
    for _ in 80..256 {
        run_day_binned(&mut bins);
    }
    assert_eq!(total_count(&bins), 26984457539);
}
