use aoc2023::pipes::{GridError, PipeMap, Tile};

fn grid(text: &str) -> PipeMap {
    match PipeMap::load(text.to_string()) {
        Ok(m) => m,
        Err(e) => panic!("grid refused: {:?}", e),
    }
}

#[test]
fn test_tile() {
    assert_eq!(
        Tile { kind: '7', x: 91, y: 21 }.connects_to(&Tile { kind: '-', x: 90, y: 20 }),
        true
    );
}

#[test]
fn tile_loc_and_vertical_connection() {
    let a = Tile { kind: '|', x: 3, y: 4 };
    assert_eq!(a.loc(), (3, 4));
    assert!(a.connects_to(&Tile { kind: 'F', x: 3, y: 3 }));
    assert!(a.connects_to(&Tile { kind: 'S', x: 3, y: 5 }));
    assert!(!a.connects_to(&Tile { kind: '-', x: 3, y: 3 }));
    assert!(!Tile { kind: '.', x: 0, y: 0 }.connects_to(&Tile { kind: '|', x: 0, y: 1 }));
}

const SQUARE: &str = ".....\n.S-7.\n.|.|.\n.L-J.\n.....\n";

const BENDY: &str = "..F7.\n.FJ|.\nSJ.L7\n|F--J\nLJ...\n";

const SQUEEZE: &str = "...........\n.S-------7.\n.|F-----7|.\n.||.....||.\n.||.....||.\n.|L-7.F-J|.\n.|..|.|..|.\n.L--J.L--J.\n...........\n";

const NARROW: &str = "..........\n.S------7.\n.|F----7|.\n.||....||.\n.||....||.\n.|L-7F-J|.\n.|..||..|.\n.L--JL--J.\n..........\n";

const PERIMETER: &str = "S---7\n|...|\n|...|\n|...|\nL---J\n";

const CORNER_START: &str = ".S7.\n.||.\n.LJ.\n";

#[test]
fn day10_test_part1() {
    assert_eq!(grid(SQUARE).furthest_tile(), Ok(4));
    assert_eq!(grid(BENDY).furthest_tile(), Ok(8));
}

#[test]
fn day10_test_part2() {
    assert_eq!(grid(SQUEEZE).enclosed_tiles(), Ok(4));
    assert_eq!(grid(NARROW).enclosed_tiles(), Ok(4));
}

#[test]
fn square_loop_encloses_its_centre() {
    let m = grid(SQUARE);
    assert_eq!(m.enclosed_tiles(), Ok(1));
    let e = m.enclosed_map().unwrap();
    assert_eq!(e[2][2], Some(true));
    assert_eq!(e[0][0], Some(false));
    assert_eq!(e[1][1], None);
}

#[test]
fn perimeter_loop_of_sixteen_tiles() {
    let m = grid(PERIMETER);
    assert_eq!(m.trace_loop(false).unwrap().len(), 16);
    assert_eq!(m.furthest_tile(), Ok(8));
    assert_eq!(m.enclosed_tiles(), Ok(9));
}

#[test]
fn start_between_bend_and_straight() {
    let m = grid(CORNER_START);
    assert_eq!(m.start_tile(), Tile { x: 1, y: 0, kind: 'S' });
    let firsts = m.connecting_pipes(&m.start_tile());
    assert_eq!(firsts.len(), 2);
    assert_eq!(m.furthest_tile(), Ok(3));
    assert_eq!(m.enclosed_tiles(), Ok(0));
}

#[test]
fn both_directions_visit_the_same_tiles() {
    let m = grid(BENDY);
    let mut a: Vec<(usize, usize)> = m.trace_loop(false).unwrap().iter().map(|t| t.loc()).collect();
    let mut b: Vec<(usize, usize)> = m.trace_loop(true).unwrap().iter().map(|t| t.loc()).collect();
    assert_eq!(a.len() % 2, 0);
    a.sort();
    b.sort();
    assert_eq!(a, b);
    assert_eq!(m.steps_map().unwrap(), m.steps_map().unwrap());
}

#[test]
fn loading_twice_gives_the_same_maps() {
    let a = grid(SQUEEZE);
    let b = grid(SQUEEZE);
    assert_eq!(a.steps_map(), b.steps_map());
    assert_eq!(a.enclosed_map(), b.enclosed_map());
    assert_eq!(a.direction_map(), b.direction_map());
}

#[test]
fn distances_and_tangents_on_the_square() {
    let m = grid(SQUARE);
    let d = m.steps_map().unwrap();
    assert_eq!(d[1][1], Some(0));
    assert_eq!(d[1][2], Some(1));
    assert_eq!(d[3][3], Some(4));
    assert_eq!(d[0][0], None);
    let t = m.direction_map().unwrap();
    // S goes down first and comes back from the right: an anticlockwise loop.
    assert_eq!(t[1][2], Some((-1, 0)));
    assert_eq!(t[1][3], Some((-1, -1)));
    assert_eq!(t[2][1], Some((0, 1)));
    assert!(!m.is_clockwise(&t));
    let origin = Tile { x: 0, y: 2, kind: '.' };
    assert_eq!(m.find_right_boundary(&origin, &t), Some(Tile { x: 1, y: 2, kind: '|' }));
    let past = Tile { x: 4, y: 2, kind: '.' };
    assert_eq!(m.find_right_boundary(&past, &t), None);
}

#[test]
fn reversed_walk_starts_the_other_way() {
    let m = grid(SQUARE);
    let forward = m.trace_loop(false).unwrap();
    let backward = m.trace_loop(true).unwrap();
    assert_eq!(forward[1].loc(), (1, 2));
    assert_eq!(backward[1].loc(), (2, 1));
    assert_eq!(backward.len(), 8);
}

#[test]
fn neighbours_of_a_corner_tile() {
    let m = grid(SQUARE);
    let adj = m.get_adj_tiles(&Tile { x: 0, y: 0, kind: '.' });
    let locs: Vec<(usize, usize)> = adj.iter().map(|t| t.loc()).collect();
    assert_eq!(locs, vec![(0, 0), (0, 1), (0, 0), (1, 0)]);
    let some = m.get_tiles(vec![(1, 1), (9, 9), (3, 3)]);
    assert_eq!(some, vec![Tile { x: 1, y: 1, kind: 'S' }, Tile { x: 3, y: 3, kind: 'J' }]);
}

#[test]
fn malformed_grids_are_refused() {
    assert_eq!(PipeMap::load("".to_string()).err(), Some(GridError::MalformedGrid));
    assert_eq!(PipeMap::load("S-7\n|.\n".to_string()).err(), Some(GridError::MalformedGrid));
    assert_eq!(PipeMap::load("S-x\n".to_string()).err(), Some(GridError::MalformedGrid));
    assert_eq!(PipeMap::load("F-7\nL-J\n".to_string()).err(), Some(GridError::NoOrigin));
}

#[test]
fn broken_and_degenerate_loops() {
    assert_eq!(grid(".....\n.S-..\n.....\n").furthest_tile(), Err(GridError::DegenerateOrigin));
    assert_eq!(grid("S-7\n|.|\nL-.\n").furthest_tile(), Err(GridError::BrokenLoop));
}
