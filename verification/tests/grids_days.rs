use advent_of_code::days::day02;
use advent_of_code::puzzles::d12::{Field, Springs};
use advent_of_code::puzzles::d13::{Pattern, Valley};
use advent_of_code::puzzles::d16::{Direction, MirrorGrid};
use advent_of_code::puzzles::d18::{DigPlan, Instruction};
use advent_of_code::text::InputError;
use advent_of_code::days::{day12, day13, day16};

const GAMES: &str = "Game 1: 3 blue, 4 red; 1 red, 2 green, 6 blue; 2 green
Game 2: 1 blue, 2 green; 3 green, 4 blue, 1 red; 1 green, 1 blue
Game 3: 8 green, 6 blue, 20 red; 5 blue, 4 red, 13 green; 5 green, 1 red
Game 4: 1 green, 3 red, 6 blue; 3 green, 6 red; 3 green, 15 blue, 14 red
Game 5: 6 red, 1 blue, 3 green; 2 blue, 1 red, 2 green
";

#[test]
fn day02_test_part_one() {
    assert_eq!(day02::part_one(GAMES), Some(8));
}

#[test]
fn day02_test_part_two() {
    assert_eq!(day02::part_two(GAMES), Some(2286));
}

#[test]
fn games_that_cannot_be_read() {
    assert_eq!(day02::parse_games("Game 1 3 blue").err(), Some(InputError::Syntax));
    assert_eq!(day02::parse_games("Game1: 3 blue").err(), Some(InputError::Syntax));
    assert_eq!(day02::parse_games("Game x: 3 blue").err(), Some(InputError::Number));
    assert_eq!(day02::parse_games("Game 1: 3blue").err(), Some(InputError::Syntax));
    assert_eq!(day02::parse_games("Game 1: x blue").err(), Some(InputError::Number));
    assert_eq!(day02::parse_games("Game 1: 300 blue").err(), Some(InputError::Number));
    assert_eq!(day02::parse_games("Game 1: 3 pink").err(), Some(InputError::Value));
    assert_eq!(day02::parse_games("Game 2: 3 blue").err(), Some(InputError::Value));
    assert_eq!(day02::part_one("Game 2: 3 blue"), None);
    assert_eq!(day02::part_two("Game 1: 3 pink"), None);
    let games = day02::parse_games("Game 1: 3 blue, 4 blue; 2 red\n").unwrap();
    // Where a colour comes twice, the last number counts.
    assert_eq!(games[0].cube_sets[0].blue, 4);
    assert_eq!(games[0].min_power(), 0);
    assert!(games[0].is_posible(&games[0].cube_sets[0]) == false);
}

const SPRINGS: &str = "???.### 1,1,3
.??..??...?##. 1,1,3
?#?#?#?#?#?#?#? 1,3,1,6
????.#...#... 4,1,1
????.######..#####. 1,6,5
?###???????? 3,2,1
";

#[test]
fn day12_test_part_one() {
    let field: Field = SPRINGS.parse().unwrap();
    assert_eq!(field.total_arrangement_count(), 21);
}

#[test]
fn day12_test_part_two() {
    let field: Field = SPRINGS.parse().unwrap();
    assert_eq!(field.total_arrangement_count_extended(), 525152);
}

#[test]
fn rows_of_springs_one_by_one() {
    let counts: Vec<u64> = SPRINGS
        .lines()
        .map(|l| Springs::from_bytes(l.as_bytes(), 0, l.len()).unwrap().arrangement_count())
        .collect();
    assert_eq!(counts, vec![1, 4, 1, 1, 4, 10]);
    let row = Springs::new(b".???.###".to_vec(), vec![1, 1, 3]);
    assert_eq!(row.arrangement_count(), 1);
    assert_eq!(row.extend().arrangement_count(), 1);
    let none = Springs::new(b".".to_vec(), vec![]);
    assert_eq!(none.arrangement_count(), 1);
    let short = Springs::new(b".#".to_vec(), vec![2]);
    assert_eq!(short.arrangement_count(), 0);
    assert_eq!("???.###".parse::<Field>().err(), Some(InputError::Syntax));
    assert_eq!("???.### 1,x".parse::<Field>().err(), Some(InputError::Number));
}

const VALLEY: &str = "#.##..##.
..#.##.#.
##......#
##......#
..#.##.#.
..##..##.
#.#.##.#.

#...##..#
#....#..#
..##..###
#####.##.
#####.##.
..##..###
#....#..#
";

#[test]
fn day13_test_part_one() {
    let valley = Valley::parse(VALLEY).unwrap();
    assert_eq!(valley.sum_symmetry_score(), 405);
}

#[test]
fn patterns_one_by_one() {
    let text = b"#.##..##.\n..#.##.#.\n##......#\n##......#\n..#.##.#.\n..##..##.\n#.#.##.#.\n";
    let first = Pattern::from_bytes(text, 0, text.len()).unwrap();
    assert_eq!(first.symmetry_score(), 5);
    assert!(first.has_vertical_symmetry_at(4));
    assert!(!first.has_vertical_symmetry_at(3));
    assert!(!first.has_horizontal_symmetry_at(2));
    let text = b"#.\n#.\n..\n";
    let rows = Pattern::from_bytes(text, 0, text.len()).unwrap();
    assert_eq!(rows.symmetry_score(), 100);
    let text = b"#.\n.#\n";
    let none = Pattern::from_bytes(text, 0, text.len()).unwrap();
    assert_eq!(none.symmetry_score(), 0);
    assert!(Pattern::from_bytes(b"#.\n#\n", 0, 5).is_err());
    assert!(Valley::parse("#.\n#\n").is_err());
}

const MIRRORS: &str = ".|...\\....
|.-.\\.....
.....|-...
........|.
..........
.........\\
..../.\\\\..
.-.-/..|..
.|....-|.\\
..//.|....
";

#[test]
fn day16_test_part_one() {
    let mirrors = MirrorGrid::parse(MIRRORS).unwrap();
    assert!(mirrors.is_sound());
    assert_eq!(mirrors.follow_beam((0, 0), Direction::East).num_energized(), 46);
}

#[test]
fn beams_in_small_grids() {
    let empty = MirrorGrid::parse("...\n...\n").unwrap();
    assert_eq!(empty.follow_beam((0, 0), Direction::East).num_energized(), 3);
    assert_eq!(empty.follow_beam((0, 0), Direction::South).num_energized(), 2);
    assert_eq!(empty.follow_beam((0, 0), Direction::West).num_energized(), 1);
    // A beam that starts off the grid is not followed.
    assert_eq!(empty.follow_beam((0, -1), Direction::East).num_energized(), 0);
    assert_eq!(empty.follow_beam((5, 5), Direction::North).num_energized(), 0);
    // A beam in a ring of mirrors comes to an end.
    let ring = MirrorGrid::parse("/-\\\n|.|\n\\-/\n").unwrap();
    assert_eq!(ring.follow_beam((0, 1), Direction::East).num_energized(), 8);
    let split = MirrorGrid::parse(".|.\n...\n").unwrap();
    assert_eq!(split.follow_beam((0, 0), Direction::East).num_energized(), 3);
    let odd = MirrorGrid::parse(".x.\n...\n").unwrap();
    assert!(!odd.is_sound());
    assert!(MirrorGrid::parse("...\n..\n").is_err());
    assert!(MirrorGrid::parse("").is_err());
}

const PLAN: &str = "R 6 (#70c710)
D 5 (#0dc571)
L 2 (#5713f0)
D 2 (#d2c081)
R 2 (#59c680)
D 2 (#411b91)
L 5 (#8ceee2)
U 2 (#caa173)
L 1 (#1b58a2)
U 2 (#caa171)
R 2 (#7807d2)
U 3 (#a77fa3)
L 2 (#015232)
U 2 (#7a21e3)
";

#[test]
fn day18_test_part_one() {
    let plan: DigPlan = PLAN.parse().unwrap();
    assert_eq!(plan.dig_terrain().interior_area(), 62);
}

#[test]
fn small_plans() {
    // A square of two by two tiles.
    let plan: DigPlan = "R 1 (#0)\nD 1 (#0)\nL 1 (#0)\nU 1 (#0)\n".parse().unwrap();
    assert_eq!(plan.dig_terrain().interior_area(), 4);
    let plan: DigPlan = "R 2 (#0)\nD 2 (#0)\nL 2 (#0)\nU 2 (#0)\n".parse().unwrap();
    assert_eq!(plan.dig_terrain().interior_area(), 9);
    let none = DigPlan::new(Vec::<Instruction>::new());
    assert_eq!(none.dig_terrain().interior_area(), 0);
    assert_eq!("R 6".parse::<DigPlan>().err(), Some(InputError::Syntax));
    assert_eq!("R 6 (#0) x".parse::<DigPlan>().err(), Some(InputError::Syntax));
    assert_eq!("RR 6 (#0)".parse::<DigPlan>().err(), Some(InputError::Syntax));
    assert_eq!("X 6 (#0)".parse::<DigPlan>().err(), Some(InputError::Value));
    assert_eq!("R x (#0)".parse::<DigPlan>().err(), Some(InputError::Number));
    assert_eq!("R 256 (#0)".parse::<DigPlan>().err(), Some(InputError::Number));
    assert_eq!("\n".parse::<DigPlan>().err(), Some(InputError::Syntax));
}

#[test]
fn beam_directions_travel() {
    assert_eq!(Direction::North.travel_from((3, 5)), (2, 5));
    assert_eq!(Direction::East.travel_from((3, 5)), (3, 6));
    assert_eq!(Direction::South.travel_from((3, 5)), (4, 5));
    assert_eq!(Direction::West.travel_from((3, 5)), (3, 4));
    assert_eq!(Direction::West.travel_from((0, 0)), (0, -1));
    assert_eq!(
        [Direction::North.bit(), Direction::East.bit(), Direction::South.bit(), Direction::West.bit()],
        [1, 2, 4, 8]
    );
}

#[test]
fn answers_of_day_12() {
    assert_eq!(day12::part_one(SPRINGS), Some(21));
    assert_eq!(day12::part_two(SPRINGS), Some(525152));
    assert_eq!(day12::part_one("???.### x"), None);
}

#[test]
fn answers_of_day_13() {
    assert_eq!(day13::part_one(VALLEY), Some(405));
    assert_eq!(day13::part_two(VALLEY), None);
    assert_eq!(day13::part_one("#.\n#\n"), None);
}

#[test]
fn answers_of_day_16() {
    assert_eq!(day16::part_one(MIRRORS), Some(46));
    assert_eq!(day16::part_two(MIRRORS), None);
    assert_eq!(day16::part_one("..\n.\n"), None);
    assert_eq!(day16::part_one(".x\n..\n"), None);
}
