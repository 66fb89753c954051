//! Diagnostic reports, octopus flashes, cave paths and chiton paths.

use submarine::caves::{dfs, CaveGraph};
use submarine::chiton::{dijkstra, expand_map, Point};
use submarine::diagnostic::{find_vec, get_most_common, power_rates, Commonality, Criterion};
use submarine::octopus::{flash, inc_push, step, Node, OctoGrid};

fn report() -> Vec<Vec<char>> {
    [
        "00100", "11110", "10110", "10111", "10101", "01111", "00111", "11100", "10000", "11001",
        "00010", "01010",
    ]
    .iter()
    .map(|s| s.chars().collect())
    .collect()
}

#[test]
fn power_rates_of_report() {
    let (gamma, epsilon) = power_rates(&report());
    assert_eq!(gamma, 22);
    assert_eq!(epsilon, 9);
    assert_eq!(gamma * epsilon, 198);
}

#[test]
fn column_criteria() {
    let grid = report();
    assert_eq!(get_most_common(0, &grid), Criterion::High);
    assert_eq!(get_most_common(1, &grid), Criterion::Low);
}

#[test]
fn life_support_ratings() {
    // split by the first column's most common bit, as the rating search
    // expects, then decode the remaining columns
    let grid = report();
    let first = get_most_common(0, &grid);
    let o2_first = match first {
        Criterion::Low => '0',
        _ => '1',
    };
    let mut o2: Vec<Vec<char>> = Vec::new();
    let mut co2: Vec<Vec<char>> = Vec::new();
    for row in grid {
        if row[0] == o2_first {
            o2.push(row);
        } else {
            co2.push(row);
        }
    }
    let o2_rating = find_vec(1, Commonality::Most, &mut o2);
    let co2_rating = find_vec(0, Commonality::Least, &mut co2);
    assert_eq!(o2_rating, 23);
    assert_eq!(co2_rating, 10);
    assert_eq!(o2_rating * co2_rating, 230);
}

#[test]
fn octopus_bumps_and_flashes() {
    let mut grid = OctoGrid { cells: vec![Node { value: 9, flashed: false }, Node { value: 5, flashed: false }], rows: 1, cols: 2 };
    let mut stack: Vec<(usize, usize)> = Vec::new();
    inc_push(&mut grid, &mut stack, 0, 0);
    assert_eq!(grid.cells[0].value, 10);
    assert_eq!(stack, vec![(0, 0)]);

    let mut stack2: Vec<(usize, usize)> = Vec::new();
    let did = flash(&mut grid, &mut stack2, 0, 0);
    assert_eq!(did, 1);
    assert!(grid.cells[0].flashed);
    assert_eq!(grid.cells[1].value, 6);
    assert!(stack2.is_empty());

    // a second flash of the same cell does nothing
    let did_again = flash(&mut grid, &mut stack2, 0, 0);
    assert_eq!(did_again, 0);
}

#[test]
fn octopus_steps_of_small_grid() {
    // the five-by-five worked example: 9 flashes after the first step
    let lines = ["11111", "19991", "19191", "19991", "11111"];
    let cells: Vec<Node> = lines
        .iter()
        .flat_map(|l| l.chars())
        .map(|c| Node { value: c.to_digit(10).unwrap(), flashed: false })
        .collect();
    let mut grid = OctoGrid { cells, rows: 5, cols: 5 };
    assert_eq!(step(&mut grid), 9);
    let after: Vec<u32> = grid.cells.iter().map(|n| n.value).collect();
    let want: Vec<u32> = ["34543", "40004", "50005", "40004", "34543"]
        .iter()
        .flat_map(|l| l.chars())
        .map(|c| c.to_digit(10).unwrap())
        .collect();
    assert_eq!(after, want);
    assert_eq!(step(&mut grid), 0);
}

fn sample_caves() -> CaveGraph {
    // start, A, b, c, d, end
    let edges: Vec<(usize, usize)> = vec![(0, 1), (0, 2), (1, 3), (1, 2), (2, 4), (1, 5), (2, 5)];
    let mut adj: Vec<Vec<usize>> = vec![Vec::new(); 6];
    for (u, v) in edges {
        adj[u].push(v);
        adj[v].push(u);
    }
    CaveGraph { adj, small: vec![true, false, true, true, true, true], start: 0, end: 5 }
}

#[test]
fn cave_paths_once() {
    assert_eq!(dfs(&sample_caves(), false), 10);
}

#[test]
fn cave_paths_with_token() {
    assert_eq!(dfs(&sample_caves(), true), 36);
}

#[test]
fn chiton_lowest_risk() {
    let map: Vec<Vec<u32>> = [
        "1163751742", "1381373672", "2136511328", "3694931569", "7463417111", "1319128137",
        "1359912421", "3125421639", "1293138521", "2311944581",
    ]
    .iter()
    .map(|s| s.chars().map(|c| c.to_digit(10).unwrap()).collect())
    .collect();
    let start = Point { row_index: 0, col_index: 0 };
    let end = Point { row_index: 9, col_index: 9 };
    assert_eq!(dijkstra(&map, start, end), Some(40));
}

#[test]
fn chiton_tiled_lowest_risk() {
    let map: Vec<Vec<u32>> = [
        "1163751742", "1381373672", "2136511328", "3694931569", "7463417111", "1319128137",
        "1359912421", "3125421639", "1293138521", "2311944581",
    ]
    .iter()
    .map(|s| s.chars().map(|c| c.to_digit(10).unwrap()).collect())
    .collect();
    let big = expand_map(&map);
    assert_eq!(big[0][10], 2);
    assert_eq!(big.len(), 50);
    let start = Point { row_index: 0, col_index: 0 };
    let end = Point { row_index: 49, col_index: 49 };
    assert_eq!(dijkstra(&big, start, end), Some(315));
}

#[test]
fn chiton_edges_of_corner() {
    let map: Vec<Vec<u32>> = vec![vec![1, 2], vec![3, 4]];
    let p = Point { row_index: 0, col_index: 0 };
    let edges = p.edges(&map);
    assert_eq!(edges.len(), 2);
    assert_eq!(edges[0].point, Point { row_index: 1, col_index: 0 });
    assert_eq!(edges[0].cost, 3);
    assert_eq!(edges[1].point, Point { row_index: 0, col_index: 1 });
    assert_eq!(edges[1].cost, 2);
}
