use advent_of_code::days::day24;
use advent_of_code::puzzles::d08::Network;
use advent_of_code::puzzles::d20::ModuleNetwork;
use advent_of_code::puzzles::d24::{Hail, HailStone};
use advent_of_code::text::InputError;

#[test]
fn network_errors_name_what_is_wrong() {
    assert_eq!(Network::parse("").err(), Some(InputError::Syntax));
    assert_eq!(Network::parse("LXR\n\nAAA = (BBB, BBB)\n").err(), Some(InputError::Value));
    assert_eq!(Network::parse("LR\n\nAAA = BBB, BBB\n").err(), Some(InputError::Syntax));
    assert_eq!(
        Network::parse("LR\n\nAAA = (BBB, BBB)\nBBB = (AAA, AAA\n").err(),
        Some(InputError::Syntax)
    );
    assert!(Network::parse("LR\nthis line is passed over\nAAA = (BBB, BBB)\n").is_ok());
    assert!(Network::parse("LR\n").is_ok());
}

#[test]
fn a_module_may_be_described_once_only() {
    assert_eq!(
        ModuleNetwork::parse("broadcaster -> a\n%a -> a\n%a -> a\n").err(),
        Some(InputError::Value)
    );
    assert!(ModuleNetwork::parse("broadcaster -> a\n%a -> a\n").is_ok());
}

#[test]
fn the_button_needs_a_module_that_takes_its_pulse() {
    assert_eq!(ModuleNetwork::parse("").err(), Some(InputError::Value));
    assert_eq!(ModuleNetwork::parse("&broadcaster -> a\n").err(), Some(InputError::Value));
    assert!(ModuleNetwork::parse("&broadcaster -> broadcaster\n").is_ok());
    assert!(ModuleNetwork::parse("%a -> broadcaster\n").is_ok());
}

#[test]
fn a_throw_needs_two_stones_that_can_be_seen() {
    let near = HailStone { x: 19, y: 13, z: 30, vx: -2, vy: 1, vz: -2 };
    let other = HailStone { x: 18, y: 19, z: 22, vx: -1, vy: -1, vz: -2 };
    let far = HailStone { x: 2_000_000_000_000_000, y: 19, z: 22, vx: -1, vy: -1, vz: -2 };
    assert_eq!(day24::throw_place_sum(&Hail::new(vec![near])), None);
    assert_eq!(day24::throw_place_sum(&Hail::new(vec![near, far])), None);
    assert_eq!(day24::throw_place_sum(&Hail::new(Vec::new())), None);
    let third = HailStone { x: 20, y: 25, z: 34, vx: -2, vy: -2, vz: -4 };
    let fourth = HailStone { x: 12, y: 31, z: 28, vx: -1, vy: -2, vz: -1 };
    let fifth = HailStone { x: 20, y: 19, z: 15, vx: 1, vy: -5, vz: -3 };
    let hail = Hail::new(vec![near, other, third, fourth, fifth]);
    assert_eq!(day24::throw_place_sum(&hail), Some(47));
}
