use aoc2023::cubes::{CubeGame, CubeSet, State};
use aoc2023::galaxies::{Galaxy, Universe};
use aoc2023::lenses::{Operation, Sequence, Step};
use aoc2023::network::{Direction, Node, NodeMap};
use aoc2023::platform::Platform;

fn set(red: u32, green: u32, blue: u32) -> CubeSet {
    CubeSet { red, green, blue }
}

fn cube_state() -> State {
    State {
        games: vec![
            CubeGame { id: 1, sets: vec![set(4, 0, 3), set(1, 2, 6), set(0, 2, 0)] },
            CubeGame { id: 2, sets: vec![set(0, 2, 1), set(1, 3, 4), set(0, 1, 1)] },
            CubeGame { id: 3, sets: vec![set(20, 8, 6), set(4, 13, 5), set(1, 5, 0)] },
            CubeGame { id: 4, sets: vec![set(3, 1, 6), set(6, 3, 0), set(14, 3, 15)] },
            CubeGame { id: 5, sets: vec![set(6, 3, 1), set(1, 2, 2)] },
        ],
    }
}

#[test]
fn cube_games() {
    let s = cube_state();
    assert_eq!(s.sum_possible_game_ids(set(12, 13, 14)), 8);
    assert_eq!(s.sum_game_powers(), 2286);
    assert_eq!(s.games[0].superset(), set(4, 2, 6));
    assert_eq!(set(4, 2, 6).power(), 48);
    assert_eq!(set(0, 2, 6).power(), 0);
}

#[test]
fn galaxy_paths() {
    let u = Universe {
        galaxies: vec![
            Galaxy { number: 1, x: 1, y: 6 },
            Galaxy { number: 2, x: 5, y: 11 },
            Galaxy { number: 3, x: 4, y: 0 },
        ],
        width: 13,
        height: 12,
    };
    assert_eq!(u.get_galaxy(2).shortest_path(u.get_galaxy(1)), 9);
    assert_eq!(u.sum_shortest_paths(), 9 + 9 + 12);
}

const STEPS: &str = "rn=1,cm-,qp=3,cm=2,qp-,pc=4,ot=9,ab=5,pc-,pc=6,ot=7\n";

#[test]
fn day15_test_part1() {
    let s = Sequence::load(STEPS.to_string());
    assert_eq!(s.hash("HASH"), 52);
    assert_eq!(s.hash("rn=1"), 30);
    assert_eq!(s.hash("cm-"), 253);
    assert_eq!(s.hash("qp=3"), 97);
    assert_eq!(s.hash("cm=2"), 47);
    assert_eq!(s.hash("qp-"), 14);
    assert_eq!(s.hash("pc=4"), 180);
    assert_eq!(s.hash("ot=9"), 9);
    assert_eq!(s.hash("ab=5"), 197);
    assert_eq!(s.hash("pc-"), 48);
    assert_eq!(s.hash("pc=6"), 214);
    assert_eq!(s.hash("ot=7"), 231);
    assert_eq!(s.part1(), 1320);
}

#[test]
fn day15_test_part2() {
    assert_eq!(Step::load("rn=1").operation(), Operation::Insert { label: "rn".to_string(), focal_length: 1 });
    assert_eq!(Step::load("cm-").operation(), Operation::Remove { label: "cm".to_string() });
    assert_eq!(Sequence::load(STEPS.to_string()).part2(), 145);
}

#[test]
fn node_directions() {
    let n = Node { label: "AAA".to_string(), left: "BBB".to_string(), right: "CCC".to_string() };
    assert_eq!(n.direction_label(&Direction::Left), "BBB");
    assert_eq!(n.direction_label(&Direction::Right), "CCC");
}

const PLATFORM: &str = "O....#....\nO.OO#....#\n.....##...\nOO.#O....O\n.O.....O#.\nO.#..O.#.#\n..O..#O..O\n.......O..\n#....###..\n#OO..#....\n";

const TILTED: &str = "OOOO.#.O..\nOO..#....#\nOO..O##..O\nO..#.OO...\n........#.\n..#....#.#\n..O..#.O.O\n..O.......\n#....###..\n#....#....\n";

#[test]
fn platform_load_and_rotation() {
    let p = Platform::load(PLATFORM.to_string());
    assert_eq!(p.rows.len(), 10);
    assert_eq!(Platform::load(TILTED.to_string()).total_load_north(), 136);
    let ccw = p.rotate_ccw();
    assert_eq!(ccw.rows[0], ".#.O.#O...");
    let back = ccw.rotate_cw();
    assert_eq!(back.rows, p.rows);
    let small = Platform::load("ab\ncd\n".to_string());
    assert_eq!(small.rotate_cw().rows, vec!["ca".to_string(), "db".to_string()]);
    assert_eq!(small.rotate_ccw().rows, vec!["bd".to_string(), "ac".to_string()]);
}

#[test]
fn day14_test_part1() {
    let tilted = Platform::load(PLATFORM.to_string()).slide_north();
    assert_eq!(tilted.rows, Platform::load(TILTED.to_string()).rows);
    assert_eq!(tilted.total_load_north(), 136);
}

#[test]
fn rocks_roll_left_until_a_cube() {
    let p = Platform { rows: vec![".O#..O.O".to_string(), "#.O".to_string()] };
    assert_eq!(p.move_boulders_left().rows, vec!["O.#OO...".to_string(), "#O.".to_string()]);
}

const NETWORK_A: &str = "RL\n\nAAA = (BBB, CCC)\nBBB = (DDD, EEE)\nCCC = (ZZZ, GGG)\nDDD = (DDD, DDD)\nEEE = (EEE, EEE)\nGGG = (GGG, GGG)\nZZZ = (ZZZ, ZZZ)\n";

const NETWORK_B: &str = "LLR\n\nAAA = (BBB, BBB)\nBBB = (AAA, ZZZ)\nZZZ = (ZZZ, ZZZ)\n";

const NETWORK_C: &str = "LR\n\n11A = (11B, XXX)\n11B = (XXX, 11Z)\n11Z = (11B, XXX)\n22A = (22B, XXX)\n22B = (22C, 22C)\n22C = (22Z, 22Z)\n22Z = (22B, 22B)\nXXX = (XXX, XXX)\n";

#[test]
fn day8_test_part1() {
    assert_eq!(NodeMap::load(NETWORK_A.to_string()).part1(), 2);
    assert_eq!(NodeMap::load(NETWORK_B.to_string()).part1(), 6);
}

#[test]
fn day8_test_part2() {
    assert_eq!(NodeMap::load(NETWORK_C.to_string()).part2(), 6);
}

#[test]
fn network_steps() {
    let m = NodeMap::load(NETWORK_C.to_string());
    assert_eq!(m.directions, vec![Direction::Left, Direction::Right]);
    let a = m.node(&"22A".to_string()).unwrap();
    assert_eq!(m.steps_pt2(a), 3);
    assert_eq!(m.next_node(a, &Direction::Left).label, "22B");
    assert_eq!(m.apply_directions(a).label, "22C");
    assert!(m.node(&"33A".to_string()).is_none());
    let b = NodeMap::load(NETWORK_B.to_string());
    assert_eq!(b.steps_pt1(b.node(&"AAA".to_string()).unwrap()), 6);
}

const SKY: &str = "...#......\n.......#..\n#.........\n..........\n......#...\n.#........\n.........#\n..........\n.......#..\n#...#.....\n";

#[test]
fn day11_test_part1() {
    let mut u = Universe::load(SKY.to_string());
    assert_eq!(u.galaxies.len(), 9);
    assert_eq!((u.width, u.height), (10, 9));
    assert_eq!(u.get_galaxy(1), &Galaxy { number: 1, x: 3, y: 0 });
    u.expand(2);
    assert_eq!(u.get_galaxy(5).shortest_path(u.get_galaxy(9)), 9);
    assert_eq!(u.get_galaxy(1).shortest_path(u.get_galaxy(7)), 15);
    assert_eq!(u.get_galaxy(3).shortest_path(u.get_galaxy(6)), 17);
    assert_eq!(u.get_galaxy(8).shortest_path(u.get_galaxy(9)), 5);
    assert_eq!(u.sum_shortest_paths(), 374);
}

#[test]
fn day11_test_part2() {
    let mut u = Universe::load(SKY.to_string());
    u.expand(10);
    assert_eq!(u.sum_shortest_paths(), 1030);
    let mut v = Universe::load(SKY.to_string());
    v.expand(100);
    assert_eq!(v.sum_shortest_paths(), 8410);
}

#[test]
fn day14_test_part2() {
    let p = Platform::load(PLATFORM.to_string());
    assert_eq!(p.slide_cycle(1000000000).total_load_north(), 64);
    let once = p.slide_cycle(1);
    let expected = Platform::load(".....#....\n....#...O#\n...OO##...\n.OO#......\n.....OOO#.\n.O#...O#.#\n....O#....\n......OOOO\n#...O###..\n#..OO#....\n".to_string());
    assert_eq!(once.rows, expected.rows);
}

const GAMES: &str = "Game 1: 3 blue, 4 red; 1 red, 2 green, 6 blue; 2 green\nGame 2: 1 blue, 2 green; 3 green, 4 blue, 1 red; 1 green, 1 blue\nGame 3: 8 green, 6 blue, 20 red; 5 blue, 4 red, 13 green; 5 green, 1 red\nGame 4: 1 green, 3 red, 6 blue; 3 green, 6 red; 3 green, 15 blue, 14 red\nGame 5: 6 red, 1 blue, 3 green; 2 blue, 1 red, 2 green\n";

#[test]
fn cube_games_from_text() {
    let s = State::from_string(GAMES.to_string());
    assert_eq!(s.games.len(), 5);
    assert_eq!(s.games[2].id, 3);
    assert_eq!(s.games[0].sets, vec![set(4, 0, 3), set(1, 2, 6), set(0, 2, 0)]);
    assert_eq!(s.sum_possible_game_ids(set(12, 13, 14)), 8);
    assert_eq!(s.sum_game_powers(), 2286);
}
