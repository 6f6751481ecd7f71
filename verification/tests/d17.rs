use advent_of_code::puzzles::d17::nodes::{Crucible, Node, UltraCrucible};
use advent_of_code::puzzles::d17::rules::Direction;
use advent_of_code::puzzles::d17::text::FormatError;
use advent_of_code::puzzles::d17::CityMap;
use advent_of_code::days::day17;

const CITY: &str = "2413432311323
3215453535623
3255245654254
3446585845452
4546657867536
1438598798454
4457876987766
3637877979653
4654967986887
4564679986453
1224686865563
2546548887735
4322674655533
";

const CORRIDOR: &str = "111111111111
999999999991
999999999991
999999999991
999999999991
";

fn part_one(input: &str) -> Option<u32> {
    let map: CityMap = input.parse().unwrap();
    map.cheapest_path_cost_normal()
}

fn part_two(input: &str) -> Option<u32> {
    let map: CityMap = input.parse().unwrap();
    map.cheapest_path_cost_ultra()
}

#[test]
fn day17_test_part_one() {
    let result = part_one(CITY);
    assert_eq!(result, Some(102));
}

#[test]
fn day17_test_part_two() {
    let result = part_two(CITY);
    assert_eq!(result, Some(94));

    let result = part_two(CORRIDOR);
    assert_eq!(result, Some(71));
}

#[test]
fn city_has_thirteen_rows_and_columns() {
    let map = CityMap::parse(CITY).unwrap();
    assert_eq!(map.height(), 13);
    assert_eq!(map.width(), 13);
    assert_eq!(map.target(), (12, 12));
    assert_eq!(map.cost_at((0, 0)), 2);
    assert_eq!(map.cost_at((0, 1)), 4);
    assert_eq!(map.cost_at((1, 0)), 3);
    assert_eq!(map.cost_at((12, 12)), 3);
    assert!(map.in_bounds((12, 12)));
    assert!(!map.in_bounds((13, 0)));
    assert!(!map.in_bounds((0, 13)));
}

#[test]
fn last_line_end_is_optional() {
    let with = CityMap::parse("12\n34\n").unwrap();
    let without = CityMap::parse("12\n34").unwrap();
    assert_eq!(with.height(), 2);
    assert_eq!(without.height(), 2);
    assert_eq!(with.width(), 2);
    assert_eq!(without.cost_at((1, 1)), 4);
    assert_eq!(with.cheapest_path_cost_normal(), without.cheapest_path_cost_normal());
}

#[test]
fn single_cell_costs_nothing_or_cannot_stop() {
    let map = CityMap::parse("7").unwrap();
    assert_eq!(map.cheapest_path_cost_normal(), Some(0));
    assert_eq!(map.cheapest_path_cost_ultra(), None);
}

#[test]
fn small_grid_by_hand() {
    // From the top left: right, down, right costs 2 + 1 + 1; down first costs 9.
    let map = CityMap::parse("12\n91\n").unwrap();
    assert_eq!(map.cheapest_path_cost_normal(), Some(3));
    // A run of four is needed before a stop: no path fits in two columns.
    assert_eq!(map.cheapest_path_cost_ultra(), None);
}

#[test]
fn straight_line_needs_turns_under_bounded_run() {
    // One row: the mover must go East eight times, but may go only three
    // times in a row and has nowhere to turn.
    let map = CityMap::parse("111111111").unwrap();
    assert_eq!(map.cheapest_path_cost_normal(), None);
    // Under the minimum-run rule eight steps in a row are fine.
    assert_eq!(map.cheapest_path_cost_ultra(), Some(8));
    let short = CityMap::parse("1234").unwrap();
    assert_eq!(short.cheapest_path_cost_normal(), Some(9));
    assert_eq!(short.cheapest_path_cost_ultra(), None);
    let five = CityMap::parse("12345").unwrap();
    assert_eq!(five.cheapest_path_cost_ultra(), Some(14));
    let twelve = CityMap::parse("111111111111").unwrap();
    assert_eq!(twelve.cheapest_path_cost_ultra(), None);
}

#[test]
fn heuristic_is_least_walk_cost() {
    let map = CityMap::parse("19\n11\n").unwrap();
    assert_eq!(map.heuristic_at((1, 1)), 0);
    assert_eq!(map.heuristic_at((1, 0)), 1);
    assert_eq!(map.heuristic_at((0, 1)), 1);
    assert_eq!(map.heuristic_at((0, 0)), 2);
    let city = CityMap::parse(CITY).unwrap();
    // Without a rule on runs the cheapest way is no dearer than with one.
    assert!(city.heuristic_at((0, 0)) <= 102);
    assert!(city.heuristic_at((0, 0)) <= 94);
}

#[test]
fn raising_a_cost_never_lowers_the_answer() {
    let low = CityMap::parse("1111\n1111\n1111\n").unwrap();
    let high = CityMap::parse("1111\n1911\n1111\n").unwrap();
    assert!(low.cheapest_path_cost_normal().unwrap() <= high.cheapest_path_cost_normal().unwrap());
    let low = CityMap::parse(CITY).unwrap();
    let high = CityMap::parse(&CITY.replacen("3215453535623", "9215453535623", 1)).unwrap();
    assert!(low.cheapest_path_cost_normal().unwrap() <= high.cheapest_path_cost_normal().unwrap());
    assert!(low.cheapest_path_cost_ultra().unwrap() <= high.cheapest_path_cost_ultra().unwrap());
}

#[test]
fn search_gives_the_same_answer_twice() {
    let map = CityMap::parse(CITY).unwrap();
    assert_eq!(map.cheapest_path_cost_normal(), map.cheapest_path_cost_normal());
    assert_eq!(map.cheapest_path_cost_ultra(), map.cheapest_path_cost_ultra());
    assert_eq!(map.cheapest_path_cost::<Crucible>(), Some(102));
    assert_eq!(map.cheapest_path_cost::<UltraCrucible>(), Some(94));
}

#[test]
fn malformed_text_is_rejected() {
    assert_eq!(CityMap::parse("").err(), Some(FormatError::Empty));
    assert_eq!(CityMap::parse("\n\n").err(), Some(FormatError::Empty));
    assert_eq!(CityMap::parse("12\n3x\n").err(), Some(FormatError::InvalidCharacter));
    assert_eq!(CityMap::parse("12 \n34 \n").err(), Some(FormatError::InvalidCharacter));
    assert_eq!(CityMap::parse("123\n45\n").err(), Some(FormatError::Ragged));
    assert_eq!(CityMap::parse("12\n345\n").err(), Some(FormatError::Ragged));
    assert_eq!(CityMap::parse("12\n\n34\n").err(), Some(FormatError::Ragged));
    assert_eq!(CityMap::parse("\n12\n").err(), Some(FormatError::Ragged));
    assert_eq!(CityMap::parse("12\n34\n\n").err(), Some(FormatError::Ragged));
    assert_eq!(CityMap::from_bytes(b"12\n3\xff\n").err(), Some(FormatError::InvalidCharacter));
}

#[test]
fn oversized_grid_is_rejected() {
    let line = "1".repeat(4000);
    let mut text = String::new();
    for _ in 0..2501 {
        text.push_str(&line);
        text.push('\n');
    }
    assert_eq!(CityMap::parse(&text).err(), Some(FormatError::TooLarge));
}

#[test]
fn directions_turn_and_move() {
    assert_eq!(Direction::North.opposite(), Direction::South);
    assert_eq!(Direction::East.opposite(), Direction::West);
    assert_eq!(Direction::South.opposite(), Direction::North);
    assert_eq!(Direction::West.opposite(), Direction::East);
    assert_eq!((Direction::North.dy(), Direction::North.dx()), (-1, 0));
    assert_eq!((Direction::East.dy(), Direction::East.dx()), (0, 1));
    assert_eq!((Direction::South.dy(), Direction::South.dx()), (1, 0));
    assert_eq!((Direction::West.dy(), Direction::West.dx()), (0, -1));
}

#[test]
fn neighbours_stay_on_the_grid() {
    let map = CityMap::parse("123\n456\n").unwrap();
    assert_eq!(map.get_neighbour_pos((0, 0), Direction::North), None);
    assert_eq!(map.get_neighbour_pos((0, 0), Direction::West), None);
    assert_eq!(map.get_neighbour_pos((0, 0), Direction::East), Some((0, 1)));
    assert_eq!(map.get_neighbour_pos((0, 0), Direction::South), Some((1, 0)));
    assert_eq!(map.get_neighbour_pos((1, 2), Direction::South), None);
    assert_eq!(map.get_neighbour_pos((1, 2), Direction::East), None);
    assert_eq!(map.get_neighbour_pos((1, 2), Direction::North), Some((0, 2)));
}

#[test]
fn crucible_runs_at_most_three_steps() {
    let map = CityMap::parse("11111\n11111\n11111\n11111\n11111\n").unwrap();
    let start = Crucible::new((0, 0), Direction::South);
    assert_eq!(start.remaining_steps, 3);
    assert!(start.can_stop());
    assert_eq!(start.make_step(&map, Direction::North), None);
    assert_eq!(start.make_step(&map, Direction::West), None);
    let one = start.make_step(&map, Direction::South).unwrap();
    assert_eq!((one.pos, one.direction, one.remaining_steps), ((1, 0), Direction::South, 2));
    let two = one.make_step(&map, Direction::South).unwrap();
    let three = two.make_step(&map, Direction::South).unwrap();
    assert_eq!(three.remaining_steps, 0);
    assert_eq!(three.make_step(&map, Direction::South), None);
    let turned = three.make_step(&map, Direction::East).unwrap();
    assert_eq!((turned.pos, turned.direction, turned.remaining_steps), ((3, 1), Direction::East, 2));
    assert_eq!(turned.make_step(&map, Direction::West), None);
    assert_eq!(turned.heuristic(&map), 4);
    let all = turned.get_all_neighbours(&map);
    assert_eq!(all[0].map(|n| n.pos), Some((2, 1)));
    assert_eq!(all[1].map(|n| (n.pos, n.remaining_steps)), Some(((3, 2), 1)));
    assert_eq!(all[2].map(|n| n.pos), Some((4, 1)));
    assert_eq!(all[3], None);
}

#[test]
fn ultra_crucible_runs_four_to_ten_steps() {
    let line = "1".repeat(12);
    let text = format!("{line}\n{line}\n{line}\n{line}\n{line}\n{line}\n");
    let map = CityMap::parse(&text).unwrap();
    let start = UltraCrucible::new((0, 0), Direction::South);
    assert_eq!(start.consecutive_steps, 0);
    assert!(!start.can_stop());
    // The first step may turn at once.
    let east = start.make_step(&map, Direction::East).unwrap();
    assert_eq!((east.pos, east.direction, east.consecutive_steps), ((0, 1), Direction::East, 1));
    let south = start.make_step(&map, Direction::South).unwrap();
    assert_eq!(south.consecutive_steps, 1);
    // No turn before four steps are made.
    assert_eq!(east.make_step(&map, Direction::South), None);
    let mut node = east;
    for made in 2..=10 {
        node = node.make_step(&map, Direction::East).unwrap();
        assert_eq!(node.consecutive_steps, made);
        assert_eq!(node.can_stop(), made >= 4);
        assert_eq!(node.make_step(&map, Direction::South).is_some(), made >= 4);
    }
    // Ten steps are the most.
    assert_eq!(node.pos, (0, 10));
    assert_eq!(node.make_step(&map, Direction::East), None);
    let turned = node.make_step(&map, Direction::South).unwrap();
    assert_eq!(turned.consecutive_steps, 1);
    assert_eq!(turned.run(), 1);
    assert_eq!(turned.pos(), (1, 10));
    assert_eq!(turned.direction(), Direction::South);
}

#[test]
fn answers_of_day_17() {
    assert_eq!(day17::part_one(CITY), Some(102));
    assert_eq!(day17::part_two(CITY), Some(94));
    assert_eq!(day17::part_two(CORRIDOR), Some(71));
    assert_eq!(day17::part_one(""), None);
    assert_eq!(day17::part_one("12\n3\n"), None);
    assert_eq!(day17::part_one("1a\n"), None);
}
