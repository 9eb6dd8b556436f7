use aoc2023::oasis::{Report, Sequence};

#[test]
fn test_sequence() {
    assert_eq!(Sequence { numbers: vec![0, 3, 6, 9, 12, 15] }.increments().numbers, vec![3, 3, 3, 3, 3]);
    assert_eq!(Sequence { numbers: vec![3, 3, 3, 3, 3] }.increments().numbers, vec![0, 0, 0, 0]);
    assert_eq!(Sequence { numbers: vec![0, 3, 6, 9, 12, 15] }.next_num(), 18);
    assert_eq!(Sequence { numbers: vec![10, 13, 16, 21, 30, 45] }.next_num(), 68);
    assert_eq!(Sequence { numbers: vec![0, 3, 6, 9, 12, 15] }.prev_num(), -3);
    assert_eq!(Sequence { numbers: vec![0, 3, 6, 9, 12, 15] }.prev_num(), -3);
    assert_eq!(Sequence { numbers: vec![1, 3, 6, 10, 15, 21] }.prev_num(), 0);
    assert_eq!(Sequence { numbers: vec![10, 13, 16, 21, 30, 45] }.prev_num(), 5);
}

const SAMPLE: &str = "0 3 6 9 12 15\n1 3 6 10 15 21\n10 13 16 21 30 45\n";

#[test]
fn day9_test_part1() {
    assert_eq!(Report::load(SAMPLE.to_string()).part1(), 114);
}

#[test]
fn day9_test_part2() {
    assert_eq!(Report::load(SAMPLE.to_string()).part2(), 2);
}

#[test]
fn stack_of_differences() {
    let s = Sequence { numbers: vec![1, 3, 6, 10, 15, 21] };
    let rows: Vec<Vec<i64>> = s.increments_stack().into_iter().map(|q| q.numbers).collect();
    assert_eq!(rows, vec![vec![2, 3, 4, 5, 6], vec![1, 1, 1, 1]]);
}

#[test]
fn negative_numbers_are_read() {
    let r = Report::load("-4  -2 0\n7\n".to_string());
    assert_eq!(r.sequences[0].numbers, vec![-4, -2, 0]);
    assert_eq!(r.sequences[1].numbers, vec![7]);
    assert_eq!(r.sequences[0].next_num(), 2);
}
