use advent_of_code::config::Settings;
use advent_of_code::puzzles::d04::CardGame;
use advent_of_code::puzzles::d06::{BoatRace, BoatTable};
use advent_of_code::puzzles::d09::{History, Report};
use advent_of_code::puzzles::d15::{Boxes, InitSequence, Instruction};
use advent_of_code::puzzles::d23::bitmap::BitMap64;
use advent_of_code::text::InputError;
use advent_of_code::days::{day04, day06, day09, day15};

#[test]
fn settings_hold_the_bag() {
    assert_eq!(Settings::new().day02.bag_contents, [12, 13, 14]);
    assert_eq!(Settings::default().day02.bag_contents, [12, 13, 14]);
}

#[test]
fn bitmap_sets_and_gets() {
    let mut map = BitMap64::new();
    for idx in 0..64 {
        assert!(!map.get(idx));
    }
    map.set_unchecked(0);
    map.set_unchecked(17);
    map.set_unchecked(63);
    map.set_unchecked(17);
    for idx in 0..64 {
        assert_eq!(map.get(idx), idx == 0 || idx == 17 || idx == 63);
    }
}

const CARDS: &str = "Card 1: 41 48 83 86 17 | 83 86  6 31 17  9 48 53
Card 2: 13 32 20 16 61 | 61 30 68 82 17 32 24 19
Card 3:  1 21 53 59 44 | 69 82 63 72 16 21 14  1
Card 4: 41 92 73 84 69 | 59 84 76 51 58  5 54 83
Card 5: 87 83 26 28 32 | 88 30 70 12 93 22 82 36
Card 6: 31 18 13 56 72 | 74 77 10 23 35 67 36 11";

#[test]
fn day04_test_part_one() {
    let mut total_points = 0;
    let mut matching = Vec::new();
    for line in CARDS.lines() {
        let game: CardGame = line.parse().unwrap();
        total_points += game.points();
        matching.push(game.n_matching());
    }
    assert_eq!(total_points, 13);
    assert_eq!(matching, vec![4, 2, 2, 1, 0, 0]);
}

#[test]
fn cards_that_cannot_be_read() {
    assert_eq!("Card 1 41 48 | 83".parse::<CardGame>().err(), Some(InputError::Syntax));
    assert_eq!("Card 1: 41 48 83".parse::<CardGame>().err(), Some(InputError::Syntax));
    assert_eq!("Card 1: 41 x8 | 83".parse::<CardGame>().err(), Some(InputError::Number));
    assert_eq!("Card 1: 41 48 | 256".parse::<CardGame>().err(), Some(InputError::Number));
    assert_eq!("Card 1: 41 48 | -3".parse::<CardGame>().err(), Some(InputError::Number));
    let card: CardGame = "Card 1: +7 255 | 255 7 7".parse().unwrap();
    assert_eq!(card.n_matching(), 3);
    assert_eq!(card.points(), 4);
}

const READINGS: &str = "0 3 6 9 12 15
1 3 6 10 15 21
10 13 16 21 30 45
";

#[test]
fn day09_test_part_one() {
    let report: Report = READINGS.parse().unwrap();
    assert_eq!(report.sum_extrapolated(), 114);
}

#[test]
fn day09_test_part_two() {
    let report: Report = READINGS.parse().unwrap();
    assert_eq!(report.sum_extrapolated_backwards(), 2);
}

#[test]
fn histories_one_by_one() {
    assert_eq!(History::new(vec![0, 3, 6, 9, 12, 15]).pred_next(), 18);
    assert_eq!(History::new(vec![1, 3, 6, 10, 15, 21]).pred_next(), 28);
    assert_eq!(History::new(vec![10, 13, 16, 21, 30, 45]).pred_next(), 68);
    assert_eq!(History::new(vec![10, 13, 16, 21, 30, 45]).pred_prev(), 5);
    assert_eq!(History::new(vec![0, 3, 6, 9, 12, 15]).pred_prev(), -3);
    assert_eq!(History::new(vec![7]).pred_next(), 7);
    assert_eq!(History::new(vec![7]).pred_prev(), 7);
    assert_eq!(History::new(vec![-4, -4, -4]).pred_next(), -4);
    assert_eq!(History::new(vec![5, 3]).pred_next(), 1);
    assert_eq!(History::new(vec![5, 3]).pred_prev(), 7);
}

#[test]
fn reports_that_cannot_be_read() {
    assert_eq!("1 2 3\n4 x 6\n".parse::<Report>().err(), Some(InputError::Number));
    assert_eq!("1 2 3\n\n4 5 6\n".parse::<Report>().err(), Some(InputError::Value));
    assert_eq!("1 2 3\n\n4 y 6\n".parse::<Report>().err(), Some(InputError::Number));
    assert_eq!("1 2 99999999999\n".parse::<Report>().err(), Some(InputError::Number));
    assert_eq!("".parse::<Report>().unwrap().sum_extrapolated(), 0);
    assert_eq!("-1 -2 -3\r\n".parse::<Report>().unwrap().sum_extrapolated(), -4);
}

const SEQUENCE: &str = "rn=1,cm-,qp=3,cm=2,qp-,pc=4,ot=9,ab=5,pc-,pc=6,ot=7\n";

#[test]
fn day15_test_part_one() {
    let sequence: InitSequence = SEQUENCE.parse().unwrap();
    assert_eq!(sequence.sum_hashes(), 1320);
}

#[test]
fn day15_test_part_two() {
    let sequence: InitSequence = SEQUENCE.parse().unwrap();
    assert_eq!(sequence.total_resulting_power(), 145);
}

#[test]
fn hashes_of_texts() {
    assert_eq!(Instruction::hash_bytes(&b"HASH".to_vec()), 52);
    assert_eq!(Instruction::hash_bytes(&b"".to_vec()), 0);
    assert_eq!(Instruction::hash_bytes(&b"rn=1".to_vec()), 30);
    let text = b"rn=1";
    let step = Instruction::from_bytes(text, 0, 4).unwrap();
    assert_eq!(step.label(), b"rn".to_vec());
    assert_eq!(step.hash_label(), 0);
    assert_eq!(step.hash_instruction(), 30);
    let text = b"qp-";
    let step = Instruction::from_bytes(text, 0, 3).unwrap();
    assert_eq!(step.label(), b"qp".to_vec());
    assert_eq!(step.hash_label(), 1);
}

#[test]
fn steps_that_cannot_be_read() {
    assert_eq!("rn1".parse::<InitSequence>().err(), Some(InputError::Syntax));
    assert_eq!("rn=".parse::<InitSequence>().err(), Some(InputError::Syntax));
    assert_eq!("rn=1,,cm-".parse::<InitSequence>().err(), Some(InputError::Syntax));
    assert_eq!("".parse::<InitSequence>().err(), Some(InputError::Syntax));
}

#[test]
fn boxes_keep_their_lenses_in_order() {
    let mut boxes = Boxes::new(256);
    assert_eq!(boxes.total_focusing_power(), 0);
    for text in ["rn=1", "cm-", "qp=3", "cm=2"] {
        let step = Instruction::from_bytes(text.as_bytes(), 0, text.len()).unwrap();
        boxes.apply(&step);
    }
    // rn=1 and cm=2 lie in box 0, qp=3 lies in box 1.
    assert_eq!(boxes.total_focusing_power(), 1 * (1 * 1 + 2 * 2) + 2 * (1 * 3));
    let step = Instruction::from_bytes(b"rn=9", 0, 4).unwrap();
    boxes.apply(&step);
    assert_eq!(boxes.total_focusing_power(), 1 * (1 * 9 + 2 * 2) + 2 * (1 * 3));
    let step = Instruction::from_bytes(b"rn-", 0, 3).unwrap();
    boxes.apply(&step);
    assert_eq!(boxes.total_focusing_power(), 1 * (1 * 2) + 2 * (1 * 3));
}

#[test]
fn day06_test_part_two() {
    let race: BoatRace =
        "Time:      7  15   30\nDistance:  9  40  200\n".parse().unwrap();
    assert_eq!(race.n_ways_to_win(), 71503);
}

#[test]
fn races_one_by_one() {
    assert_eq!(BoatRace::new(7, 9).n_ways_to_win(), 4);
    assert_eq!(BoatRace::new(15, 40).n_ways_to_win(), 8);
    assert_eq!(BoatRace::new(30, 200).n_ways_to_win(), 9);
    // Only holding for one of the two beats no distance at all.
    assert_eq!(BoatRace::new(2, 0).n_ways_to_win(), 1);
    let table: BoatTable = "Time:      7  15   30\nDistance:  9  40  200\n".parse().unwrap();
    assert_eq!(table.lens(), (3, 3));
    assert_eq!((table.time(0), table.time(1), table.time(2)), (7, 15, 30));
    assert_eq!((table.distance(0), table.distance(1), table.distance(2)), (9, 40, 200));
    assert_eq!("Time: 7 15\n".parse::<BoatTable>().err(), Some(InputError::Syntax));
    assert_eq!("Time: 7 x\nDistance: 1 2\n".parse::<BoatTable>().err(), Some(InputError::Number));
    assert_eq!("Time: 7 15\n".parse::<BoatRace>().err(), Some(InputError::Syntax));
    assert_eq!("Time: 7 15\nDistance:\n".parse::<BoatRace>().err(), Some(InputError::Number));
    assert_eq!("Time: 7 15\nDistance: 9 x\n".parse::<BoatRace>().err(), Some(InputError::Number));
}

#[test]
fn answers_of_day_04() {
    assert_eq!(day04::part_one(CARDS), Some(13));
    assert_eq!(day04::part_two(CARDS), Some(30));
    assert_eq!(day04::part_one("Card 1: 1 2 3"), None);
    assert_eq!(day04::part_two("Card 1: 1 2 3"), None);
    assert_eq!(day04::part_one(""), Some(0));
    assert_eq!(day04::part_two(""), Some(0));
}

#[test]
fn copies_of_cards_are_counted() {
    assert_eq!(day04::count_copies(&vec![4, 2, 2, 1, 0, 0]), Some(30));
    assert_eq!(day04::count_copies(&vec![]), Some(0));
    assert_eq!(day04::count_copies(&vec![0, 0, 0]), Some(3));
    assert_eq!(day04::count_copies(&vec![5]), Some(1));
    assert_eq!(day04::count_copies(&vec![1, 1, 1]), Some(1 + 2 + 3));
    assert_eq!(day04::count_copies(&vec![2, 1, 0]), Some(1 + 2 + 4));
    let doubling: Vec<u32> = (0..40).map(|i| 39 - i).collect();
    assert_eq!(day04::count_copies(&doubling), None);
    let doubling: Vec<u32> = (0..32).map(|i| 31 - i).collect();
    assert_eq!(day04::count_copies(&doubling), Some(u32::MAX));
}

#[test]
fn answers_of_day_06() {
    let text = "Time:      7  15   30\nDistance:  9  40  200\n";
    assert_eq!(day06::part_two(text), Some(71503));
    assert_eq!(day06::part_two("Time: 7\n"), None);
    assert_eq!(day06::part_two("Time: 7\nDistance: 100\n"), None);
    assert_eq!(day06::part_two("Time: 7\nDistance: 9\n"), Some(4));
    assert_eq!(day06::part_two("Time: 4294967296\nDistance: 9\n"), None);
}

#[test]
fn a_race_can_be_won_with_a_power_of_two() {
    assert!(BoatRace::new(7, 9).can_win());
    assert!(!BoatRace::new(7, 100).can_win());
    assert!(!BoatRace::new(0, 0).can_win());
    assert!(BoatRace::new(2, 0).can_win());
    assert_eq!(BoatRace::new(7, 9).race_time(), 7);
}

#[test]
fn answers_of_day_09() {
    assert_eq!(day09::part_one(READINGS), Some(114));
    assert_eq!(day09::part_two(READINGS), Some(2));
    assert_eq!(day09::part_one("1 2 x\n"), None);
    assert_eq!(day09::part_one("2147483647 -2147483648\n"), None);
    assert_eq!(day09::part_one("0 2147483647\n"), None);
    assert_eq!(day09::part_one("0 1073741823\n"), Some(2147483646));
    assert_eq!(day09::part_two("-2147483648 0\n"), None);
}

#[test]
fn answers_of_day_15() {
    assert_eq!(day15::part_one(SEQUENCE), Some(1320));
    assert_eq!(day15::part_two(SEQUENCE), Some(145));
}
