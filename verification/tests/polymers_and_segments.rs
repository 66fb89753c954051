//! Polymer growth, seven-segment decoding, and origami folds.

use submarine::origami::{dedup_dots, fold_all, Dot, Fold, FoldDirection};
use submarine::polymer::{diff, expand_step, initial_pairs, pair_histogram_diff, part1, part2};
use submarine::segments::DigitSet;

fn sample_rules() -> Vec<((char, char), char)> {
    [
        ("CH", 'B'), ("HH", 'N'), ("CB", 'H'), ("NH", 'C'), ("HB", 'C'), ("HC", 'B'),
        ("HN", 'C'), ("NN", 'C'), ("BH", 'H'), ("NC", 'B'), ("NB", 'B'), ("BN", 'B'),
        ("BB", 'N'), ("BC", 'B'), ("CC", 'N'), ("CN", 'C'),
    ]
    .iter()
    .map(|(k, v)| {
        let mut cs = k.chars();
        ((cs.next().unwrap(), cs.next().unwrap()), *v)
    })
    .collect()
}

#[test]
fn polymer_one_step() {
    let template: Vec<char> = "NNCB".chars().collect();
    let grownup = expand_step(&template, &sample_rules());
    let s: String = grownup.iter().collect();
    assert_eq!(s, "NCNBCHB");
}

#[test]
fn polymer_ten_steps_diff() {
    let template: Vec<char> = "NNCB".chars().collect();
    let grownup = part1(&template, &sample_rules(), 10);
    assert_eq!(grownup.len(), 3073);
    assert_eq!(diff(&grownup), 1588);
}

#[test]
fn polymer_forty_steps_by_pairs() {
    let template: Vec<char> = "NNCB".chars().collect();
    let pairs = initial_pairs(&template);
    let table = part2(&pairs, &sample_rules(), 40).unwrap();
    let last = *template.last().unwrap();
    assert_eq!(pair_histogram_diff(&table, last), Some(2188189693529));
}

#[test]
fn decodes_scrambled_display() {
    let line = String::from(
        "acedgfb cdfbe gcdfa fbcad dab cefabd cdfgeb eafb cagbd ab | cdfeb fcadb cdfeb cdbaf",
    );
    let set = DigitSet::from_pattern(&line);
    assert_eq!(set.display.len(), 4);
    assert_eq!(set.to_number(), 5353);
}

#[test]
fn digit_by_digit() {
    let line = String::from(
        "acedgfb cdfbe gcdfa fbcad dab cefabd cdfgeb eafb cagbd ab | cdfeb fcadb cdfeb cdbaf",
    );
    let set = DigitSet::from_pattern(&line);
    assert_eq!(set.digit_number(&String::from("ab")), Some(1));
    assert_eq!(set.digit_number(&String::from("dab")), Some(7));
    assert_eq!(set.digit_number(&String::from("eafb")), Some(4));
    assert_eq!(set.digit_number(&String::from("acedgfb")), Some(8));
    assert_eq!(set.digit_number(&String::from("xy")), None);
}

#[test]
fn fold_direction_names() {
    assert_eq!(FoldDirection::from_str("fold along x"), Some(FoldDirection::X));
    assert_eq!(FoldDirection::from_str("fold along y"), Some(FoldDirection::Y));
    assert_eq!(FoldDirection::from_str("fold along z"), None);
    assert_eq!(FoldDirection::from_str(""), None);
}

#[test]
fn dot_reflects() {
    let mut d = Dot { x: 0, y: 10 };
    d.fold(&Fold { direction: FoldDirection::Y, location: 7 });
    assert_eq!(d, Dot { x: 0, y: 4 });

    let mut d2 = Dot { x: 3, y: 2 };
    d2.fold(&Fold { direction: FoldDirection::Y, location: 7 });
    assert_eq!(d2, Dot { x: 3, y: 2 });
}

#[test]
fn first_fold_of_sample_sheet() {
    let coords: [(u32, u32); 18] = [
        (6, 10), (0, 14), (9, 10), (0, 3), (10, 4), (4, 11), (6, 0), (6, 12), (4, 1), (0, 13),
        (10, 12), (3, 4), (3, 0), (8, 4), (1, 10), (2, 14), (8, 10), (9, 0),
    ];
    let mut dots: Vec<Dot> = coords.iter().map(|&(x, y)| Dot { x, y }).collect();
    fold_all(&mut dots, &Fold { direction: FoldDirection::Y, location: 7 });
    let dots = dedup_dots(&dots);
    assert_eq!(dots.len(), 17);
}
