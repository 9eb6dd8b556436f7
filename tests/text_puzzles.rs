use aoc2023::calibration::pt1_calibration_sum;
use aoc2023::mirrors::{Pattern, Puzzle};

#[test]
fn calibration_sample() {
    let lines: Vec<String> =
        vec!["1abc2", "pqr3stu8vwx", "a1b2c3d4e5f", "treb7uchet"].into_iter().map(|s| s.to_string()).collect();
    assert_eq!(pt1_calibration_sum(lines), 142);
    assert_eq!(pt1_calibration_sum(vec![]), 0);
}

const FIRST: &str = "#.##..##.\n..#.##.#.\n##......#\n##......#\n..#.##.#.\n..##..##.\n#.#.##.#.\n";

const SECOND: &str = "#...##..#\n#....#..#\n..##..###\n#####.##.\n#####.##.\n..##..###\n#....#..#\n";

#[test]
fn test_reflection() {
    let a = Pattern::load(FIRST.to_string());
    assert_eq!(a.rows.len(), 7);
    assert_eq!(a.cols.len(), 9);
    assert_eq!(a.cols[0], "#.##..#");
    assert_eq!(a.reflection_rows(), Vec::<usize>::new());
    assert_eq!(a.reflection_cols(), vec![5]);
    assert_eq!(a.summary(), 5);
    let b = Pattern::load(SECOND.to_string());
    assert_eq!(b.reflection_rows(), vec![4]);
    assert_eq!(b.reflection_cols(), Vec::<usize>::new());
    assert_eq!(b.summary(), 400);
    assert_eq!(b.reflection_indices(&b.rows), vec![3]);
}

#[test]
fn day13_test_part1() {
    let puzzle = Puzzle { patterns: vec![Pattern::load(FIRST.to_string()), Pattern::load(SECOND.to_string())] };
    assert_eq!(puzzle.part1(), 405);
}

use aoc2023::schematic::{pt1_sum, Part, PartKind, Schematic};

fn num(x: usize, y: usize, n: u16) -> Part {
    Part { x, y, kind: PartKind::Number(n) }
}

fn sym(x: usize, y: usize, c: char) -> Part {
    Part { x, y, kind: PartKind::Symbol(c) }
}

#[test]
fn day3_gear_ratios() {
    let s = Schematic {
        parts: vec![
            num(0, 0, 467), num(5, 0, 114), sym(3, 1, '*'), num(2, 2, 35), num(6, 2, 633),
            sym(6, 3, '#'), num(0, 4, 617), sym(3, 4, '*'), sym(5, 5, '+'), num(7, 5, 58),
            num(2, 6, 592), num(6, 7, 755), sym(3, 8, '$'), sym(5, 8, '*'), num(1, 9, 664),
            num(5, 9, 598),
        ],
    };
    assert_eq!(s.gear_ratio_sum(), 467835);
    assert_eq!(s.neighbour_parts(&sym(3, 1, '*')), vec![num(0, 0, 467), num(2, 2, 35)]);
    assert_eq!(num(6, 2, 633).x_right(), 8);
    assert_eq!(num(0, 0, 0).x_right(), 0);
    assert!(sym(3, 1, '*').is_neighbour(&num(0, 0, 467)));
    assert!(!sym(3, 1, '*').is_neighbour(&num(5, 0, 114)));
    assert!(num(2, 2, 35).eq(&sym(2, 2, '#')));
}

use aoc2023::springs::{Puzzle as SpringPuzzle, Record};

#[test]
fn day12_test_part1() {
    assert_eq!(Record::load("???.### 1,1,3").arrangements(), 1);
    assert_eq!(Record::load(".??..??...?##. 1,1,3").arrangements(), 4);
    assert_eq!(Record::load("?#?#?#?#?#?#?#? 1,3,1,6").arrangements(), 1);
    assert_eq!(Record::load("????.#...#... 4,1,1").arrangements(), 1);
    assert_eq!(Record::load("????.######..#####. 1,6,5").arrangements(), 4);
    assert_eq!(Record::load("?###???????? 3,2,1").arrangements(), 10);
    let text = "???.### 1,1,3\n.??..??...?##. 1,1,3\n?#?#?#?#?#?#?#? 1,3,1,6\n????.#...#... 4,1,1\n????.######..#####. 1,6,5\n?###???????? 3,2,1\n";
    assert_eq!(SpringPuzzle::load(text.to_string()).part1(), 21);
}

#[test]
fn records_expand_and_match() {
    let r = Record::load("?.# 1,1");
    assert_eq!(r.groups, vec![1, 1]);
    let seqs: Vec<String> = r.expand().into_iter().map(|x| x.sequence).collect();
    assert_eq!(seqs, vec!["..#".to_string(), "#.#".to_string()]);
    assert!(Record { sequence: "#.#".to_string(), groups: vec![1, 1] }.is_match());
    assert!(!Record { sequence: "##.".to_string(), groups: vec![1, 1] }.is_match());
}

use aoc2023::calibration::pt2_calibration_sum;

#[test]
fn calibration_spelled_out() {
    let lines: Vec<String> = vec![
        "two1nine", "eightwothree", "abcone2threexyz", "xtwone3four", "4nineeightseven2", "zoneight234", "7pqrstsixteen",
    ]
    .into_iter()
    .map(|s| s.to_string())
    .collect();
    assert_eq!(pt2_calibration_sum(lines), 281);
    assert_eq!(pt2_calibration_sum(vec!["oneight".to_string()]), 18);
}

const ENGINE: &str = "467..114..\n...*......\n..35..633.\n......#...\n617*......\n.....+.58.\n..592.....\n......755.\n...$.*....\n.664.598..\n";

#[test]
fn day3_test_part2() {
    let s = Schematic::load(ENGINE.to_string());
    assert_eq!(s.parts.len(), 16);
    assert_eq!(s.parts[0], num(0, 0, 467));
    assert_eq!(s.parts[2], sym(3, 1, '*'));
    assert_eq!(s.gear_ratio_sum(), 467835);
}

#[test]
fn day3_test_part1() {
    assert_eq!(pt1_sum(ENGINE.to_string()), 4361);
    assert_eq!(pt1_sum("12*\n..7\n".to_string()), 19);
    assert_eq!(pt1_sum("5..\n...\n..#\n".to_string()), 0);
}

#[test]
fn day13_patterns_from_text() {
    let text = format!("{}\n{}", FIRST, SECOND);
    let puzzle = Puzzle::load(text);
    assert_eq!(puzzle.patterns.len(), 2);
    assert_eq!(puzzle.patterns[1].rows.len(), 7);
    assert_eq!(puzzle.part1(), 405);
}

#[test]
fn day13_test_part2() {
    let a = Pattern::load(FIRST.to_string());
    let (value, fixed) = a.fix_smudge();
    assert_eq!(value, 300);
    assert_eq!(fixed.rows[0], "..##..##.");
    assert_eq!(Pattern::load(SECOND.to_string()).fix_smudge().0, 100);
    let puzzle = Puzzle::load(format!("{}\n{}", FIRST, SECOND));
    assert_eq!(puzzle.part2(), 400);
}
