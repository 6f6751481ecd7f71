use advent_of_code::puzzles::d08::{Network, Node};
use advent_of_code::puzzles::d14::{Platform, Tilt};
use advent_of_code::puzzles::d22::{Brick, BrickPile};
use advent_of_code::text::InputError;
use advent_of_code::days::{day08, day14, day22};

const TWO_STEPS: &str = "RL\n\nAAA = (BBB, CCC)\nBBB = (DDD, EEE)\nCCC = (ZZZ, GGG)\nDDD = (DDD, DDD)\nEEE = (EEE, EEE)\nGGG = (GGG, GGG)\nZZZ = (ZZZ, ZZZ)\n";
const SIX_STEPS: &str = "LLR\n\nAAA = (BBB, BBB)\nBBB = (AAA, ZZZ)\nZZZ = (ZZZ, ZZZ)\n";
const GHOSTS: &str = "LR\n\n11A = (11B, XXX)\n11B = (XXX, 11Z)\n11Z = (11B, XXX)\n22A = (22B, XXX)\n22B = (22C, 22C)\n22C = (22Z, 22Z)\n22Z = (22B, 22B)\nXXX = (XXX, XXX)\n";

const ROCKS: &str = "O....#....\nO.OO#....#\n.....##...\nOO.#O....O\n.O.....O#.\nO.#..O.#.#\n..O..#O..O\n.......O..\n#....###..\n#OO..#....\n";

const BRICKS: &str = "1,0,1~1,2,1\n0,0,2~2,0,2\n0,2,3~2,2,3\n0,0,4~0,2,4\n2,0,5~2,2,5\n0,1,6~2,1,6\n1,1,8~1,1,9\n";

fn node(name: &str) -> Node {
    let b = name.as_bytes();
    Node(b[0], b[1], b[2])
}

#[test]
fn network_is_walked_to_the_named_node() {
    let net = Network::parse(TWO_STEPS).unwrap();
    assert_eq!(net.n_steps_from_to_single(node("AAA"), node("ZZZ"), 1000), Some(2));
    let net = Network::parse(SIX_STEPS).unwrap();
    assert_eq!(net.n_steps_from_to_single(node("AAA"), node("ZZZ"), 1000), Some(6));
}

#[test]
fn network_walk_gives_up_at_the_bound() {
    let net = Network::parse(SIX_STEPS).unwrap();
    assert_eq!(net.n_steps_from_to_single(node("AAA"), node("ZZZ"), 5), None);
    assert_eq!(net.n_steps_from_to_single(node("AAA"), node("ZZZ"), 6), Some(6));
    assert_eq!(net.n_steps_from_to_single(node("AAA"), node("AAA"), 6), Some(0));
}

#[test]
fn network_walk_to_any_end_node() {
    let net = Network::parse(GHOSTS).unwrap();
    assert_eq!(net.n_steps_from_to_multiple(node("11A"), 100), Some(2));
    assert_eq!(net.n_steps_from_to_multiple(node("22A"), 100), Some(3));
    assert_eq!(net.n_steps_from_to(node("22A"), None, 100), Some(3));
    assert_eq!(net.n_steps_from_to(node("22A"), Some(node("22C")), 100), Some(2));
}

#[test]
fn network_start_nodes_end_in_a() {
    let net = Network::parse(GHOSTS).unwrap();
    let mut starts = net.start_nodes();
    starts.sort_by_key(|n| n.0);
    assert_eq!(starts.len(), 2);
    assert_eq!((starts[0].0, starts[0].1, starts[0].2), (b'1', b'1', b'A'));
    assert_eq!((starts[1].0, starts[1].1, starts[1].2), (b'2', b'2', b'A'));
}

#[test]
fn network_all_walks_meet_at_the_common_multiple() {
    let net = Network::parse(GHOSTS).unwrap();
    assert_eq!(net.n_steps_all_a_to_all_z(100), Some(6));
    assert_eq!(net.n_steps_all_a_to_all_z(2), None);
}

#[test]
fn network_rejects_broken_text() {
    assert!(Network::parse("").is_err());
    assert!(Network::parse("LXR\n\nAAA = (BBB, BBB)\n").is_err());
    assert!(Network::parse("LR\n\nAAA = BBB, BBB\n").is_err());
}

#[test]
fn platform_tilted_north_carries_the_known_load() {
    let mut p = Platform::from_bytes(ROCKS.as_bytes()).unwrap();
    assert!(p.is_sound());
    p.slide_north();
    assert_eq!(p.total_load(), 136);
}

#[test]
fn platform_untilted_load_counts_rows_to_the_south_edge() {
    let p = Platform::from_bytes(b"O.\n.O\n#O\n").unwrap();
    assert!(p.is_sound());
    assert_eq!(p.total_load(), 3 + 2 + 1);
}

#[test]
fn platform_spin_skips_to_the_same_end() {
    let mut p = Platform::from_bytes(ROCKS.as_bytes()).unwrap();
    p.spin(1_000_000_000);
    assert_eq!(p.total_load(), 64);
}

#[test]
fn platform_spin_is_that_many_cycles() {
    let mut spun = Platform::from_bytes(ROCKS.as_bytes()).unwrap();
    spun.spin(3);
    let mut cycled = Platform::from_bytes(ROCKS.as_bytes()).unwrap();
    cycled.cycle();
    cycled.cycle();
    cycled.cycle();
    assert_eq!(spun.total_load(), cycled.total_load());
    assert_eq!(spun.total_load(), 69);
}

#[test]
fn platform_cycle_is_four_tilts() {
    let mut a = Platform::from_bytes(ROCKS.as_bytes()).unwrap();
    a.cycle();
    let mut b = Platform::from_bytes(ROCKS.as_bytes()).unwrap();
    b.slide(Tilt::North);
    b.slide(Tilt::West);
    b.slide(Tilt::South);
    b.slide(Tilt::East);
    assert_eq!(a.total_load(), b.total_load());
    assert_eq!(a.total_load(), 87);
}

#[test]
fn platform_rejects_ragged_pictures_and_strange_tiles() {
    assert!(Platform::from_bytes(b"O.\n.\n").is_err());
    assert!(Platform::from_bytes(b"").is_err());
    let p = Platform::from_bytes(b"Ox\n..\n").unwrap();
    assert!(!p.is_sound());
}

#[test]
fn bricks_that_carry_nothing_alone_can_go() {
    let pile = BrickPile::parse(BRICKS).unwrap();
    assert_eq!(pile.n_bricks_destroyable(), 5);
}

#[test]
fn bricks_falling_are_summed() {
    let pile = BrickPile::parse(BRICKS).unwrap();
    assert_eq!(pile.sum_falling_count(), 7);
}

#[test]
fn bricks_are_sorted_before_they_fall() {
    let shuffled = "1,1,8~1,1,9\n0,0,4~0,2,4\n1,0,1~1,2,1\n0,1,6~2,1,6\n0,2,3~2,2,3\n2,0,5~2,2,5\n0,0,2~2,0,2\n";
    let pile = BrickPile::parse(shuffled).unwrap();
    assert_eq!(pile.n_bricks_destroyable(), 5);
    assert_eq!(pile.sum_falling_count(), 7);
}

#[test]
fn bricks_fall_onto_what_lies_under_them() {
    let mut bricks = vec![
        Brick { lfb: (0, 0, 5), rbt: (2, 0, 5) },
        Brick { lfb: (1, 0, 9), rbt: (1, 0, 11) },
        Brick { lfb: (5, 5, 20), rbt: (5, 5, 20) },
    ];
    BrickPile::drop_bricks(&mut bricks);
    assert_eq!((bricks[0].lfb, bricks[0].rbt), ((0, 0, 1), (2, 0, 1)));
    assert_eq!((bricks[1].lfb, bricks[1].rbt), ((1, 0, 2), (1, 0, 4)));
    assert_eq!((bricks[2].lfb, bricks[2].rbt), ((5, 5, 1), (5, 5, 1)));
}

#[test]
fn bricks_overlap_on_shared_coordinates() {
    let a = Brick { lfb: (0, 0, 1), rbt: (2, 0, 1) };
    let b = Brick { lfb: (2, 0, 2), rbt: (4, 3, 2) };
    let c = Brick { lfb: (3, 1, 2), rbt: (4, 3, 2) };
    assert!(a.overlaps_x(&b) && b.overlaps_x(&a));
    assert!(a.overlaps_y(&b));
    assert!(!a.overlaps_x(&c));
    assert!(!a.overlaps_y(&c));
}

#[test]
fn bricks_rejects_broken_lines() {
    assert_eq!(BrickPile::parse("1,0,1-1,2,1\n").err(), Some(InputError::Syntax));
    assert_eq!(BrickPile::parse("1,0~1,2,1\n").err(), Some(InputError::Syntax));
    assert_eq!(BrickPile::parse("1,0,a~1,2,1\n").err(), Some(InputError::Number));
    assert_eq!(BrickPile::parse("1,3,1~1,2,1\n").err(), Some(InputError::Value));
    assert_eq!(BrickPile::parse("1,0,0~1,2,1\n").err(), Some(InputError::Value));
}

#[test]
fn answers_of_day_08() {
    assert_eq!(day08::part_one(TWO_STEPS), Some(2));
    assert_eq!(day08::part_one(SIX_STEPS), Some(6));
    assert_eq!(day08::part_two(GHOSTS), Some(6));
    assert_eq!(day08::part_one(""), None);
}

#[test]
fn answers_of_day_14() {
    assert_eq!(day14::part_one(ROCKS), Some(136));
    assert_eq!(day14::part_two(ROCKS), Some(64));
    assert_eq!(day14::part_one("O.\n.\n"), None);
    assert_eq!(day14::part_one("Ox\n..\n"), None);
}

#[test]
fn platform_load_is_checked() {
    let mut p = Platform::from_bytes(ROCKS.as_bytes()).unwrap();
    p.slide_north();
    assert_eq!(p.checked_total_load(), Some(136));
}

#[test]
fn answers_of_day_22() {
    assert_eq!(day22::part_one(BRICKS), Some(5));
    assert_eq!(day22::part_two(BRICKS), Some(7));
    assert_eq!(day22::part_one("1,0,1-1,2,1\n"), None);
    assert_eq!(day22::part_two("1,0,1-1,2,1\n"), None);
    let pile = BrickPile::parse(BRICKS).unwrap();
    assert_eq!(pile.len(), 7);
    assert_eq!(day22::destroyable(&pile), Some(5));
    assert_eq!(day22::falling(&pile), Some(7));
}
