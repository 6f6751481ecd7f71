use advent_of_code::puzzles::d05::map::RangeMap;
use advent_of_code::puzzles::d05::Almanac;
use advent_of_code::puzzles::d19::{Condition, Part, PartsRange, System};
use advent_of_code::puzzles::d24::{Hail, HailStone, SpiralCoords};
use advent_of_code::text::InputError;
use advent_of_code::days::{day05, day19, day24};

const ALMANAC: &str = "seeds: 79 14 55 13

seed-to-soil map:
50 98 2
52 50 48

soil-to-fertilizer map:
0 15 37
37 52 2
39 0 15

fertilizer-to-water map:
49 53 8
0 11 42
42 0 7
57 7 4

water-to-light map:
88 18 7
18 25 70

light-to-temperature map:
45 77 23
81 45 19
68 64 13

temperature-to-humidity map:
0 69 1
1 0 69

humidity-to-location map:
60 56 37
56 93 4
";

#[test]
fn day05_test_part_one() {
    let almanac: Almanac = ALMANAC.parse().unwrap();
    let mut min_location_num = u64::MAX;
    for &seed_num in almanac.seeds() {
        min_location_num = min_location_num.min(almanac.get_location_num(seed_num));
    }
    assert_eq!(min_location_num, 35);
    assert_eq!(almanac.get_location_num(79), 82);
    assert_eq!(almanac.get_location_num(14), 43);
    assert_eq!(almanac.get_location_num(55), 86);
    assert_eq!(almanac.get_location_num(13), 35);
}

#[test]
fn day05_test_part_two() {
    let almanac: Almanac = ALMANAC.parse().unwrap();
    let mut min_location_num = u64::MAX;
    for chunk in almanac.seeds().chunks(2) {
        let range = (chunk[0], chunk[0] + chunk[1]);
        min_location_num = min_location_num.min(almanac.get_min_location_for_range(range));
    }
    assert_eq!(min_location_num, 46);
    // The least place of a range is the least place of its seeds.
    let least = (79..93).map(|s| almanac.get_location_num(s)).min().unwrap();
    assert_eq!(almanac.get_min_location_for_range((79, 93)), least);
}

#[test]
fn test_map_transform_range() {
    let text = b"soil-to-fertilizer map:\n0 15 37\n37 55 2\n39 0 15\n";
    let map = RangeMap::from_bytes(text, 0, text.len()).unwrap();

    assert_eq!(map.transform_range((0, 15)), vec![(39, 54)]);
    assert_eq!(map.transform_range((0, 16)), vec![(39, 54), (0, 1)]);
    assert_eq!(map.transform_range((0, 52)), vec![(39, 54), (0, 37)]);
    assert_eq!(
        map.transform_range((0, 60)),
        vec![(39, 54), (0, 37), (52, 55), (37, 39), (57, 60)]
    );
    assert_eq!(map.transform_range((40, 56)), vec![(25, 37), (52, 55), (37, 38)]);
}

#[test]
fn maps_move_numbers_with_their_ranges() {
    let text = b"a-to-b map:\n50 98 2\n52 50 48\n";
    let map = RangeMap::from_bytes(text, 0, text.len()).unwrap();
    assert_eq!(map.transform(49), 49);
    assert_eq!(map.transform(50), 52);
    assert_eq!(map.transform(97), 99);
    assert_eq!(map.transform(98), 50);
    assert_eq!(map.transform(99), 51);
    assert_eq!(map.transform(100), 100);
    let text = b"a-to-b map:\n50 98 2\n52 97 48\n";
    assert_eq!(RangeMap::from_bytes(text, 0, text.len()).err(), Some(InputError::Value));
    let text = b"a-to-b map:\n50 98\n";
    assert_eq!(RangeMap::from_bytes(text, 0, text.len()).err(), Some(InputError::Syntax));
    let text = b"a-to-b map:\n50 98 x\n";
    assert_eq!(RangeMap::from_bytes(text, 0, text.len()).err(), Some(InputError::Number));
    let text = b"a-to-b map:\n50 98 0\n";
    assert_eq!(RangeMap::from_bytes(text, 0, text.len()).err(), Some(InputError::Value));
    assert_eq!("seeds: 1 x\n\nm:\n1 2 3\n".parse::<Almanac>().err(), Some(InputError::Number));
}

const SYSTEM: &str = "px{a<2006:qkq,m>2090:A,rfg}
pv{a>1716:R,A}
lnx{m>1548:A,A}
rfg{s<537:gd,x>2440:R,A}
qs{s>3448:A,lnx}
qkq{x<1416:A,crn}
crn{x>2662:A,R}
in{s<1351:px,qqz}
qqz{s>2770:qs,m<1801:hdj,R}
gd{a>3333:R,R}
hdj{m>838:A,pv}

{x=787,m=2655,a=1222,s=2876}
{x=1679,m=44,a=2067,s=496}
{x=2036,m=264,a=79,s=2244}
{x=2461,m=1339,a=466,s=291}
{x=2127,m=1623,a=2188,s=1013}
";

#[test]
fn day19_test_part_one() {
    let system: System = SYSTEM.parse().unwrap();
    assert_eq!(system.sum_accepted(), 19114);
}

#[test]
fn day19_test_part_two() {
    let system: System = SYSTEM.parse().unwrap();
    assert_eq!(system.n_distinct_accepted(), 167_409_079_868_000u64);
}

#[test]
fn parts_and_their_ranges() {
    let system: System = SYSTEM.parse().unwrap();
    let part = Part { x: 787, m: 2655, a: 1222, s: 2876 };
    assert_eq!(system.is_accepted(&part), Some(true));
    assert_eq!(system.is_accepted(&Part { x: 1679, m: 44, a: 2067, s: 496 }), Some(false));
    assert_eq!(part.get(b'x'), Some(787));
    assert_eq!(part.get(b's'), Some(2876));
    assert_eq!(part.get(b'q'), None);
    assert_eq!(part.categories_total(), 7540);
    let all = PartsRange::full_range();
    assert_eq!(all.n_distinct(), 256_000_000_000_000);
    let (met, other) = all.split_by(&Condition { category: b'a', operator: b'<', value: 2006 });
    assert_eq!((met.a, other.a), ((1, 2006), (2006, 4001)));
    assert_eq!(met.n_distinct() + other.n_distinct(), all.n_distinct());
    let (met, other) = all.split_by(&Condition { category: b'm', operator: b'>', value: 2090 });
    assert_eq!((met.m, other.m), ((2091, 4001), (1, 2091)));
    assert_eq!(PartsRange::restrict_single_range((1, 10), b'<', 20, true), (1, 10));
    assert_eq!(PartsRange::restrict_single_range((1, 10), b'<', 20, false), (20, 10));
    let none = PartsRange { x: (5, 5), ..all };
    assert_eq!(none.n_distinct(), 0);
    // A workflow that sends parts round in a circle gives no verdict.
    let circle: System = "in{x>1:in,A}\n\n{x=5,m=1,a=1,s=1}\n".parse().unwrap();
    assert_eq!(circle.is_accepted(&part), None);
    let lost: System = "in{x>1:out,A}\n\n{x=5,m=1,a=1,s=1}\n".parse().unwrap();
    assert_eq!(lost.is_accepted(&part), None);
    assert_eq!("in{q>1:A,R}\n\n{x=5,m=1,a=1,s=1}\n".parse::<System>().err(), Some(InputError::Value));
    assert_eq!("in{x>y:A,R}\n\n{x=5,m=1,a=1,s=1}\n".parse::<System>().err(), Some(InputError::Number));
    assert_eq!("in{x>1:A,R}\n".parse::<System>().err(), Some(InputError::Syntax));
    assert_eq!("in{x>1:A,R}\n\n{x=5,m=1}\n".parse::<System>().err(), Some(InputError::Syntax));
}

const HAIL: &str = "19, 13, 30 @ -2,  1, -2
18, 19, 22 @ -1, -1, -2
20, 25, 34 @ -2, -2, -4
12, 31, 28 @ -1, -2, -1
20, 19, 15 @  1, -5, -3
";

#[test]
fn day24_test_part_two() {
    let hail: Hail = HAIL.parse().unwrap();
    let pos = hail.find_perfect_throw_velocity_and_position(10_000).unwrap();
    assert_eq!(pos.0 + pos.1 + pos.2, 47);
    assert_eq!(pos, (24, 13, 10, -3, 1, 2));
    // With too few tries nothing is found.
    assert_eq!(hail.find_perfect_throw_velocity_and_position(3), None);
}

#[test]
fn stones_and_their_crossings() {
    let hail: Hail = HAIL.parse().unwrap();
    assert_eq!(hail.len(), 5);
    let a = hail.stone(0);
    assert_eq!(a, HailStone { x: 19, y: 13, z: 30, vx: -2, vy: 1, vz: -2 });
    assert_eq!(a.speed_squared_xy(), 5);
    let b = hail.stone(1);
    assert!(!a.is_parallel_to_xy(&b));
    assert!(b.is_parallel_to_xy(&hail.stone(2)));
    assert!(a.is_parallel_to_xy(&HailStone { x: 0, y: 0, z: 0, vx: 4, vy: -2, vz: 1 }));
    assert_eq!(b.intersection_at_integer_xy(&hail.stone(2)), None);
    // Seen from the throw, the first two stones cross at the place of the throw.
    let back = (3, -1, 0);
    assert_eq!(
        a.add_velocity(&back).intersection_at_integer_xy(&b.add_velocity(&back)),
        Some((24, 13))
    );
    let p = HailStone { x: 0, y: 0, z: 0, vx: 1, vy: 1, vz: 1 };
    let q = HailStone { x: 3, y: 0, z: 0, vx: -1, vy: 1, vz: 1 };
    // The lines cross at (1.5, 1.5).
    assert_eq!(p.intersection_at_integer_xy(&q), None);
    let q = HailStone { x: 4, y: 0, z: 0, vx: -1, vy: 1, vz: 1 };
    assert_eq!(p.intersection_at_integer_xy(&q), Some((2, 2)));
    assert_eq!(HailStone::whole_quotient(-6, 3), Some(-2));
    assert_eq!(HailStone::whole_quotient(6, -3), Some(-2));
    assert_eq!(HailStone::whole_quotient(-6, -3), Some(2));
    assert_eq!(HailStone::whole_quotient(7, 3), None);
    assert_eq!(HailStone::whole_quotient(0, 3), Some(0));
    assert_eq!("1, 2, 3 @ 1, 0, 1".parse::<Hail>().err(), Some(InputError::Value));
    assert_eq!("1, 2, 3 1, 1, 1".parse::<Hail>().err(), Some(InputError::Syntax));
    assert_eq!("1, 2 @ 1, 1, 1".parse::<Hail>().err(), Some(InputError::Syntax));
    assert_eq!("1, 2, 3, 4 @ 1, 1, 1".parse::<Hail>().err(), Some(InputError::Syntax));
    assert_eq!("1, x, 3 @ 1, 1, 1".parse::<Hail>().err(), Some(InputError::Number));
}

#[test]
fn spiral_walks_round_the_origin() {
    let mut spiral = SpiralCoords::new();
    let mut points = Vec::new();
    for _ in 0..10 {
        points.push(spiral.next());
    }
    assert_eq!(
        points,
        vec![(0, 0), (1, 0), (1, -1), (0, -1), (-1, -1), (-1, 0), (-1, 1), (0, 1), (1, 1), (2, 1)]
    );
}

#[test]
fn answers_of_day_05() {
    assert_eq!(day05::part_one(ALMANAC), Some(35));
    assert_eq!(day05::part_two(ALMANAC), Some(46));
    assert_eq!(day05::part_one("seeds: x"), None);
    assert_eq!(day05::part_two("seeds: 1 2 3\n\na-to-b map:\n5 1 2\n"), None);
    assert_eq!(day05::part_two("seeds: 1 0\n\na-to-b map:\n5 1 2\n"), None);
    assert_eq!(day05::part_two("seeds: 1 2\n\na-to-b map:\n5 1 2\n"), Some(5));
    assert_eq!(day05::part_one("seeds: 1 2\n\na-to-b map:\n5 1 2\n"), Some(5));
    assert_eq!(day05::part_one("seeds:\n\na-to-b map:\n5 1 2\n"), Some(u64::MAX));
}

#[test]
fn answers_of_day_19() {
    assert_eq!(day19::part_one(SYSTEM), Some(19114));
    assert_eq!(day19::part_two(SYSTEM), Some(167409079868000));
}

#[test]
fn answers_of_day_24() {
    assert_eq!(day24::part_two(HAIL), Some(47));
    assert_eq!(day24::part_two("1, 2, 3 @ 1, 1, 1\n"), None);
    assert_eq!(day24::part_two("1, 2, 3 @ 1, 1\n"), None);
}
