use aoc2023::almanac::{Almanac, MapEntry, RangeMap};
use aoc2023::races::{Puzzle as RacePuzzle, Race};
use aoc2023::scratchcards::{Puzzle as CardPuzzle, ScratchCard};
use std::collections::HashMap;

#[test]
fn day4_test_common() {
    assert_eq!(
        ScratchCard { card_number: 1, win_numbers: vec![1, 2, 3, 4, 5, 6, 7], card_numbers: vec![2, 4, 5, 9] }
            .points(),
        4
    );
    assert_eq!(
        ScratchCard { card_number: 10, win_numbers: vec![1, 2, 3, 4, 5, 6, 7], card_numbers: vec![1, 2, 3, 4, 5] }
            .won_card_numbers(),
        vec![11, 12, 13, 14, 15]
    );
}

fn sample_cards() -> CardPuzzle {
    let rows: Vec<(u32, Vec<u32>, Vec<u32>)> = vec![
        (1, vec![41, 48, 83, 86, 17], vec![83, 86, 6, 31, 17, 9, 48, 53]),
        (2, vec![13, 32, 20, 16, 61], vec![61, 30, 68, 82, 17, 32, 24, 19]),
        (3, vec![1, 21, 53, 59, 44], vec![69, 82, 63, 72, 16, 21, 14, 1]),
        (4, vec![41, 92, 73, 84, 69], vec![59, 84, 76, 51, 58, 5, 54, 83]),
        (5, vec![87, 83, 26, 28, 32], vec![88, 30, 70, 12, 93, 22, 82, 36]),
        (6, vec![31, 18, 13, 56, 72], vec![74, 77, 10, 23, 35, 67, 36, 11]),
    ];
    CardPuzzle {
        cards: rows
            .into_iter()
            .map(|(n, w, c)| ScratchCard { card_number: n, win_numbers: w, card_numbers: c })
            .collect(),
    }
}

#[test]
fn scratchcard_copies_add_up() {
    let p = sample_cards();
    let mut counts = HashMap::new();
    let mut total = p.cards.len() as u32;
    for card in &p.cards {
        total += p.count_won_cards(card, &mut counts);
    }
    assert_eq!(total, 30);
    assert_eq!(counts.get(&6), Some(&0));
    assert!(p.card_by_number(7).is_none());
    assert_eq!(p.card_by_number(3).unwrap().card_number, 3);
    let points: u32 = p.cards.iter().map(|c| c.points()).sum();
    assert_eq!(points, 13);
    assert_eq!(p.cards[0].matches(), vec![83, 86, 17, 48]);
}

#[test]
fn day5_test_common() {
    let e = MapEntry { dest_start: 52, source_start: 50, range: 48 };
    assert_eq!(e.convert(53), 55);
    assert_eq!(e.convert(10), 10);
    assert_eq!(e.convert(97), 99);
    assert_eq!(e.convert(98), 98);
    assert!(e.is_applicable(50));
    assert!(!e.is_applicable(98));
}

fn entries(rows: &[(u64, u64, u64)]) -> RangeMap {
    RangeMap {
        name: String::new(),
        entries: rows.iter().map(|&(d, s, r)| MapEntry { dest_start: d, source_start: s, range: r }).collect(),
    }
}

fn sample_almanac() -> Almanac {
    Almanac {
        seeds: vec![79, 14, 55, 13],
        maps: vec![
            entries(&[(50, 98, 2), (52, 50, 48)]),
            entries(&[(0, 15, 37), (37, 52, 2), (39, 0, 15)]),
            entries(&[(49, 53, 8), (0, 11, 42), (42, 0, 7), (57, 7, 4)]),
            entries(&[(88, 18, 7), (18, 25, 70)]),
            entries(&[(45, 77, 23), (81, 45, 19), (68, 64, 13)]),
            entries(&[(0, 69, 1), (1, 0, 69)]),
            entries(&[(60, 56, 37), (56, 93, 4)]),
        ],
    }
}

#[test]
fn day5_test_part1() {
    let a = sample_almanac();
    assert_eq!(a.to_location(&79), 82);
    assert_eq!(a.to_location(&14), 43);
    assert_eq!(a.to_location(&55), 86);
    assert_eq!(a.to_location(&13), 35);
    assert_eq!(a.pt1(), 35);
}

#[test]
fn day5_test_part2() {
    assert_eq!(sample_almanac().pt2(), 46);
}

#[test]
fn first_matching_entry_decides() {
    let m = entries(&[(100, 0, 10), (200, 5, 10)]);
    assert_eq!(m.convert(7), 107);
    assert_eq!(m.convert(12), 207);
    assert_eq!(m.convert(40), 40);
}

#[test]
fn day6_test_part1() {
    let puzzle = RacePuzzle::load_sample_pt1();
    assert_eq!(Race { time: 7, dist: 9 }.ways_to_win(), 4);
    assert_eq!(Race { time: 15, dist: 40 }.ways_to_win(), 8);
    assert_eq!(Race { time: 30, dist: 200 }.ways_to_win(), 9);
    assert_eq!(puzzle.ways_to_win(), 288);
}

#[test]
fn day6_test_part2() {
    let puzzle = RacePuzzle::load_sample_pt2();
    assert_eq!(puzzle.ways_to_win(), 71503);
}

#[test]
fn races_without_a_win() {
    assert_eq!(Race { time: 0, dist: 0 }.ways_to_win(), 0);
    assert_eq!(Race { time: 4, dist: 4 }.ways_to_win(), 0);
    assert_eq!(Race { time: 4, dist: 3 }.ways_to_win(), 1);
    assert_eq!(RacePuzzle::load_input_pt1().races.len(), 4);
    assert_eq!(RacePuzzle::load_input_pt2().races[0].time, 47707566);
}

#[test]
fn day4_test_part1() {
    assert_eq!(sample_cards().pt1(), 13);
}

#[test]
fn day4_test_part2() {
    assert_eq!(sample_cards().pt2(), 30);
}

const ALMANAC: &str = "seeds: 79 14 55 13\n\nseed-to-soil map:\n50 98 2\n52 50 48\n\nsoil-to-fertilizer map:\n0 15 37\n37 52 2\n39 0 15\n\nfertilizer-to-water map:\n49 53 8\n0 11 42\n42 0 7\n57 7 4\n\nwater-to-light map:\n88 18 7\n18 25 70\n\nlight-to-temperature map:\n45 77 23\n81 45 19\n68 64 13\n\ntemperature-to-humidity map:\n0 69 1\n1 0 69\n\nhumidity-to-location map:\n60 56 37\n56 93 4\n";

#[test]
fn almanac_text_is_read() {
    let a = Almanac::load(ALMANAC.to_string());
    assert_eq!(a.seeds, vec![79, 14, 55, 13]);
    assert_eq!(a.maps.len(), 7);
    assert_eq!(a.maps[0].name, "seed-to-soil map:");
    assert_eq!(a.maps[1].entries[2].dest_start, 39);
    assert_eq!(a.maps[1].entries[2].source_start, 0);
    assert_eq!(a.maps[1].entries[2].range, 15);
    assert_eq!(a.pt1(), 35);
    assert_eq!(a.pt2(), 46);
}

const CARDS: &str = "Card 1: 41 48 83 86 17 | 83 86  6 31 17  9 48 53\nCard 2: 13 32 20 16 61 | 61 30 68 82 17 32 24 19\nCard 3:  1 21 53 59 44 | 69 82 63 72 16 21 14  1\nCard 4: 41 92 73 84 69 | 59 84 76 51 58  5 54 83\nCard 5: 87 83 26 28 32 | 88 30 70 12 93 22 82 36\nCard 6: 31 18 13 56 72 | 74 77 10 23 35 67 36 11\n";

#[test]
fn scratchcards_from_text() {
    let p = CardPuzzle::load(CARDS.to_string());
    assert_eq!(p.cards.len(), 6);
    assert_eq!(p.cards[2].card_number, 3);
    assert_eq!(p.cards[2].win_numbers, vec![1, 21, 53, 59, 44]);
    assert_eq!(p.cards[0].card_numbers, vec![83, 86, 6, 31, 17, 9, 48, 53]);
    assert_eq!(p.pt1(), 13);
    assert_eq!(p.pt2(), 30);
}
