use advent_of_code::puzzles::d20::{Module, ModuleNetwork};
use advent_of_code::puzzles::d21::Garden;
use advent_of_code::text::InputError;
use advent_of_code::days::{day20, day21};

const FLIPS: &str = "broadcaster -> a, b, c\n%a -> b\n%b -> c\n%c -> inv\n&inv -> a\n";
const CONS: &str = "broadcaster -> a\n%a -> inv, con\n&inv -> b\n%b -> con\n&con -> output\n";
const WATCHED: &str = "broadcaster -> ks, kb, sx, jt\n%ks -> x\n%kb -> x\n%sx -> x\n%jt -> x\n";

const GARDEN: &str = "...........\n.....###.#.\n.###.##..#.\n..#.#...#..\n....#.#....\n.##..S####.\n.##..#...#.\n.......##..\n.##.#.####.\n.##..##.##.\n...........\n";

#[test]
fn day20_test_part_one() {
    let mut network: ModuleNetwork = FLIPS.parse().unwrap();
    let (n_low, n_high) = network.press_multiple_and_count_pulses(1000, 1000).unwrap();
    assert_eq!((n_low, n_high), (8000, 4000));
    assert_eq!(n_low * n_high, 32000000);

    let mut network: ModuleNetwork = CONS.parse().unwrap();
    let (n_low, n_high) = network.press_multiple_and_count_pulses(1000, 1000).unwrap();
    assert_eq!((n_low, n_high), (4250, 2750));
    assert_eq!(n_low * n_high, 11687500);
}

#[test]
fn one_press_sends_its_pulses() {
    let mut network: ModuleNetwork = FLIPS.parse().unwrap();
    assert_eq!(network.count_pulses_after_press(100), Some((8, 4)));
    assert_eq!(network.count_pulses_after_press(100), Some((8, 4)));
    let mut network: ModuleNetwork = CONS.parse().unwrap();
    assert_eq!(network.count_pulses_after_press(100), Some((4, 4)));
    assert_eq!(network.count_pulses_after_press(100), Some((4, 2)));
    assert_eq!(network.count_pulses_after_press(100), Some((5, 3)));
    assert_eq!(network.count_pulses_after_press(100), Some((4, 2)));
}

#[test]
fn pulses_are_counted_only_with_enough_fuel() {
    let mut network: ModuleNetwork = FLIPS.parse().unwrap();
    assert_eq!(network.count_pulses_after_press(11), None);
    let mut network: ModuleNetwork = FLIPS.parse().unwrap();
    assert_eq!(network.count_pulses_after_press(12), Some((8, 4)));
    let mut network: ModuleNetwork = FLIPS.parse().unwrap();
    assert_eq!(network.press_multiple_and_count_pulses(0, 0), Some((0, 0)));
    assert_eq!(network.press_multiple_and_count_pulses(3, 11), None);
}

#[test]
fn steps_arrive_one_by_one() {
    let mut network: ModuleNetwork = FLIPS.parse().unwrap();
    network.press_button();
    let first = network.step();
    assert_eq!((first.idx_rx_input, first.high), (0, false));
    assert_eq!(Some(first.idx_rx_module), network.index_of(b"broadcaster"));
    let second = network.step();
    assert_eq!(Some(second.idx_rx_module), network.index_of(b"a"));
    assert!(!second.high);
    assert_eq!(network.index_of(b"nowhere"), None);
}

#[test]
fn modules_answer_pulses() {
    let mut flip = Module::FlipFlop(false);
    assert_eq!(flip.process_pulse(0, true), None);
    assert_eq!(flip.process_pulse(0, false), Some(true));
    assert_eq!(flip.process_pulse(0, false), Some(false));
    let mut con = Module::Conjuction(vec![false, false]);
    assert_eq!(con.process_pulse(0, true), Some(true));
    assert_eq!(con.process_pulse(1, true), Some(false));
    assert_eq!(con.process_pulse(0, false), Some(true));
    let mut all = Module::BroadCast;
    assert_eq!(all.process_pulse(0, true), Some(true));
    assert_eq!(all.process_pulse(0, false), Some(false));
    let mut sink = Module::UnTyped;
    assert_eq!(sink.process_pulse(0, false), None);
}

#[test]
fn watched_modules_give_their_common_multiple() {
    let mut network: ModuleNetwork = WATCHED.parse().unwrap();
    let ks = network.index_of(b"ks").unwrap();
    assert_eq!(network.press_until_first_low_received(ks, 100), Some(1));
    network.reset();
    assert_eq!(network.steps_until_rx_first_low(1000), Some(1));
    assert_eq!(network.steps_until_rx_first_low(1), None);
    let mut other: ModuleNetwork = FLIPS.parse().unwrap();
    assert_eq!(other.steps_until_rx_first_low(1000), None);
}

#[test]
fn reset_forgets_what_was_remembered() {
    let mut network: ModuleNetwork = CONS.parse().unwrap();
    assert_eq!(network.count_pulses_after_press(100), Some((4, 4)));
    network.reset();
    assert_eq!(network.count_pulses_after_press(100), Some((4, 4)));
}

#[test]
fn networks_that_cannot_be_read() {
    assert_eq!("broadcaster a\n".parse::<ModuleNetwork>().err(), Some(InputError::Syntax));
    assert_eq!("a -> b\n".parse::<ModuleNetwork>().err(), Some(InputError::Syntax));
    assert_eq!("%a -> b\n".parse::<ModuleNetwork>().err(), Some(InputError::Value));
    assert_eq!(
        "broadcaster -> a\n%a -> b\n&a -> b\n".parse::<ModuleNetwork>().err(),
        Some(InputError::Value)
    );
}

#[test]
fn test_num_tiles_reacheable_after_wo_wrapping() {
    let garden = Garden::parse(GARDEN).unwrap();
    assert_eq!(garden.num_tiles_reacheable_after(6, false), 16);
}

#[test]
fn test_num_tiles_reacheable_after_with_wrapping() {
    let garden = Garden::parse(GARDEN).unwrap();

    assert_eq!(garden.num_tiles_reacheable_after(6, true), 16);
    assert_eq!(garden.num_tiles_reacheable_after(10, true), 50);
    assert_eq!(garden.num_tiles_reacheable_after(50, true), 1594);
    assert_eq!(garden.num_tiles_reacheable_after(100, true), 6536);
    assert_eq!(garden.num_tiles_reacheable_after(500, true), 167004);
}

#[test]
fn garden_first_steps() {
    let garden = Garden::parse(GARDEN).unwrap();
    assert_eq!(garden.num_tiles_reacheable_after(0, false), 1);
    assert_eq!(garden.num_tiles_reacheable_after(1, false), 2);
    assert_eq!(garden.num_tiles_reacheable_after(2, false), 4);
    assert_eq!(garden.num_tiles_reacheable_after(3, false), 6);
    assert_eq!(garden.num_tiles_reacheable_after(0, true), 1);
}

#[test]
fn garden_without_rocks_fills_a_diamond() {
    let garden = Garden::parse("...\n.S.\n...\n").unwrap();
    assert_eq!(garden.num_tiles_reacheable_after(1, false), 4);
    assert_eq!(garden.num_tiles_reacheable_after(2, false), 5);
    assert_eq!(garden.num_tiles_reacheable_after(9, false), 4);
    assert_eq!(garden.num_tiles_reacheable_after(1, true), 4);
    assert_eq!(garden.num_tiles_reacheable_after(2, true), 9);
    assert_eq!(garden.num_tiles_reacheable_after(3, true), 16);
    assert_eq!(garden.num_tiles_reacheable_after(10, true), 121);
}

#[test]
fn extrapolation_counts_short_walks_and_extends_long_ones() {
    let garden = Garden::parse("...\n.S.\n...\n").unwrap();
    assert_eq!(garden.num_tiles_reacheable_extrapolated(6), Some(49));
    assert_eq!(
        garden.num_tiles_reacheable_extrapolated(392),
        Some(garden.num_tiles_reacheable_after(392, true))
    );
    // Without rocks the reach is the square of one more than the steps, which
    // is a quadratic, so that the extension is exact.
    assert_eq!(garden.num_tiles_reacheable_extrapolated(393), Some(394 * 394));
    assert_eq!(garden.num_tiles_reacheable_extrapolated(1000), Some(1001 * 1001));
    assert_eq!(
        garden.num_tiles_reacheable_extrapolated(26501365),
        Some(26501366 * 26501366)
    );
}

#[test]
fn gardens_that_cannot_be_read() {
    assert!(Garden::parse("").is_err());
    assert!(Garden::parse("...\n..\n").is_err());
    assert!(Garden::parse("\n...\n").is_err());
}

#[test]
fn answers_of_day_20() {
    assert_eq!(day20::part_one(FLIPS), Some(32000000));
    assert_eq!(day20::part_one(CONS), Some(11687500));
    assert_eq!(day20::part_two(FLIPS), None);
    assert_eq!(day20::part_one("a -> b\n"), None);
}

#[test]
fn answers_of_day_21() {
    let garden = Garden::parse(GARDEN).unwrap();
    assert_eq!(day21::part_one(GARDEN), Some(garden.num_tiles_reacheable_after(64, false)));
    assert_eq!(day21::part_one(GARDEN), Some(42));
    assert_eq!(day21::part_one("...\n..\n"), None);
    assert_eq!(day21::part_two("...\n.S.\n...\n"), Some(26501366 * 26501366));
}
