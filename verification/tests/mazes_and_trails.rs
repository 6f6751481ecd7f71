use advent_of_code::puzzles::d10::tile_set::TileSet;
use advent_of_code::puzzles::d10::Maze;
use advent_of_code::puzzles::d23::TrailMap;
use advent_of_code::days::{day10, day23};

const SMALL_LOOP: &str = ".....\n.S-7.\n.|.|.\n.L-J.\n.....\n";
const LONGER_LOOP: &str = "..F7.\n.FJ|.\nSJ.L7\n|F--J\nLJ...\n";
const CLUTTERED: &str = "7-F7-\n.FJ|7\nSJLL7\n|F--J\nLJ.LJ\n";
const WIDE: &str = "...........\n.S-------7.\n.|F-----7|.\n.||.....||.\n.||.....||.\n.|L-7.F-J|.\n.|..|.|..|.\n.L--J.L--J.\n...........\n...........\n...........\n";
const SQUEEZED: &str = "..........\n.S------7.\n.|F----7|.\n.||....||.\n.||....||.\n.|L-7F-J|.\n.|..||..|.\n.L--JL--J.\n..........\n..........\n";

const FOREST: &str = "#.#####################\n#.......#########...###\n#######.#########.#.###\n###.....#.>.>.###.#.###\n###v#####.#v#.###.#.###\n###.>...#.#.#.....#...#\n###v###.#.#.#########.#\n###...#.#.#.......#...#\n#####.#.#.#######.#.###\n#.....#.#.#.......#...#\n#.#####.#.#.#########v#\n#.#...#...#...###...>.#\n#.#.#v#######v###.###v#\n#...#.>.#...>.>.#.###.#\n#####v#.#.###v#.#.###.#\n#.....#...#...#.#.#...#\n#.#########.###.#.#.###\n#...###...#...#...#.###\n###.###.#.###v#####v###\n#...#...#.#.>.>.#.>.###\n#.###.###.#.###.#.#v###\n#.....###...###...#...#\n#####################.#\n";

#[test]
fn day10_test_part_one() {
    let maze = Maze::parse(SMALL_LOOP).unwrap();
    assert_eq!(maze.side(), 5);
    assert_eq!(maze.loop_len().map(|l| l / 2), Some(4));
    let maze = Maze::parse(LONGER_LOOP).unwrap();
    assert_eq!(maze.loop_len(), Some(16));
    let maze = Maze::parse(CLUTTERED).unwrap();
    assert_eq!(maze.loop_len().map(|l| l / 2), Some(8));
}

#[test]
fn day10_test_part_two() {
    assert_eq!(Maze::parse(SMALL_LOOP).unwrap().enclosed_area(), Some(1));
    assert_eq!(Maze::parse(LONGER_LOOP).unwrap().enclosed_area(), Some(1));
    assert_eq!(Maze::parse(CLUTTERED).unwrap().enclosed_area(), Some(1));
    assert_eq!(Maze::parse(WIDE).unwrap().enclosed_area(), Some(4));
    assert_eq!(Maze::parse(SQUEEZED).unwrap().enclosed_area(), Some(4));
}

#[test]
fn maze_walk_goes_from_pipe_to_pipe() {
    let maze = Maze::parse(SMALL_LOOP).unwrap();
    let w = maze.first_walker();
    assert_eq!((w.y, w.x, w.dy, w.dx), (1, 1, 0, 1));
    assert_eq!(maze.ahead(w), Some((1, 2)));
    let w = maze.step(w).unwrap();
    assert_eq!((w.y, w.x, w.dy, w.dx), (1, 2, 0, 1));
    let w = maze.step(w).unwrap();
    assert_eq!((w.y, w.x, w.dy, w.dx), (1, 3, 1, 0));
    let w = maze.step(w).unwrap();
    assert_eq!((w.y, w.x, w.dy, w.dx), (2, 3, 1, 0));
    let w = maze.step(w).unwrap();
    assert_eq!((w.y, w.x, w.dy, w.dx), (3, 3, 0, -1));
}

#[test]
fn maze_without_a_loop_has_no_length() {
    let open = Maze::parse("S-\n..\n").unwrap();
    assert_eq!(open.loop_len(), None);
    assert_eq!(open.enclosed_area(), None);
    let lost = Maze::parse("S.\n..\n").unwrap();
    assert_eq!(lost.loop_len(), None);
    let never = Maze::parse("..\n..\n").unwrap();
    assert_eq!(never.loop_len(), None);
}

#[test]
fn mazes_that_cannot_be_read() {
    assert!(Maze::parse("S-7").is_err());
    assert!(Maze::parse("\nS-7\n").is_err());
    assert!(Maze::parse("S-7\n|.|\n").is_err());
    assert!(Maze::parse("S-7\n|.|\nL-J\n").is_ok());
    assert!(Maze::parse("S-7\n| |\nL-J\n").is_err());
}

#[test]
fn tiles_go_in_and_come_out_row_by_row() {
    let mut set = TileSet::new((3, 4));
    assert_eq!(set.len(), 0);
    set.push((2, 1));
    set.push((0, 3));
    set.push((1, 0));
    set.push((0, 3));
    assert_eq!(set.len(), 3);
    assert!(set.contains(&(2, 1)));
    assert!(!set.contains(&(2, 2)));
    set.remove(&(1, 0));
    set.remove(&(1, 1));
    assert_eq!(set.len(), 2);
    assert_eq!(set.pop(), (0, 3));
    assert_eq!(set.pop(), (2, 1));
    assert_eq!(set.len(), 0);
}

#[test]
fn day23_test_part_one() {
    let map = TrailMap::parse(FOREST).unwrap();
    assert_eq!(map.longest_path_len_directed(), Some(94));
}

#[test]
fn day23_test_part_two() {
    let map = TrailMap::parse(FOREST).unwrap();
    assert_eq!(map.n_vertices(), 9);
    assert_eq!(map.longest_path_len_undirected(), Some(154));
}

#[test]
fn forest_with_one_trail() {
    let map = TrailMap::parse("#.###\n#...#\n###.#\n").unwrap();
    assert_eq!(map.n_vertices(), 2);
    assert_eq!(map.longest_path_len_directed(), Some(4));
    assert_eq!(map.longest_path_len_undirected(), Some(4));
}

#[test]
fn forest_with_a_slope_against_the_walk() {
    // The slope can be walked from the exit, which gives the edge that the
    // walk in both directions takes.
    let map = TrailMap::parse("#.###\n#.<.#\n###.#\n").unwrap();
    assert_eq!(map.longest_path_len_directed(), None);
    assert_eq!(map.longest_path_len_undirected(), Some(4));
    let map = TrailMap::parse("#.###\n#.^.#\n###.#\n").unwrap();
    assert_eq!(map.longest_path_len_directed(), None);
    assert_eq!(map.longest_path_len_undirected(), Some(0));
    let map = TrailMap::parse("#.###\n#.>.#\n###.#\n").unwrap();
    assert_eq!(map.longest_path_len_directed(), Some(4));
    assert_eq!(map.longest_path_len_undirected(), Some(4));
}

#[test]
fn forest_with_two_ways_takes_the_longer() {
    let text = "#.#####\n#.....#\n#.###.#\n#.....#\n#####.#\n";
    let map = TrailMap::parse(text).unwrap();
    assert_eq!(map.n_vertices(), 4);
    assert_eq!(map.longest_path_len_directed(), Some(8));
    assert_eq!(map.longest_path_len_undirected(), Some(8));
}

#[test]
fn forests_that_cannot_be_read() {
    assert!(TrailMap::parse("").is_err());
    assert!(TrailMap::parse("#.#\n").is_err());
    assert!(TrailMap::parse("#.###\n#.x.#\n###.#\n").is_err());
    assert!(TrailMap::parse("#.###\n#..#\n###.#\n").is_err());
}

#[test]
fn answers_of_day_10() {
    assert_eq!(day10::part_one(SMALL_LOOP), Some(4));
    assert_eq!(day10::part_one(LONGER_LOOP), Some(8));
    assert_eq!(day10::part_two(SMALL_LOOP), Some(1));
    assert_eq!(day10::part_two(WIDE), Some(4));
    assert_eq!(day10::part_one("S-7"), None);
    assert_eq!(day10::part_two("S.\n..\n"), None);
    let maze = Maze::parse(LONGER_LOOP).unwrap();
    assert_eq!(day10::far_end(&maze), Some(8));
}

#[test]
fn answers_of_day_23() {
    assert_eq!(day23::part_one(FOREST), Some(94));
    assert_eq!(day23::part_two(FOREST), Some(154));
    assert_eq!(day23::part_one("#.#\n"), None);
    assert_eq!(day23::part_two("#.###\n#.x.#\n###.#\n"), None);
}
