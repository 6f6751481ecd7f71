use advent_of_code::days::day01::{get_2_digits, part_one, part_two, replace_digits, replace_found, word2digit};
use advent_of_code::days::{day03, day13, day16, day20, day25};
use advent_of_code::puzzles::d07::{Card, Card1, Card2};
use advent_of_code::text::InputError;

#[test]
fn test_get_2_digits() {
    assert_eq!(get_2_digits("1abc2".as_bytes()).unwrap(), 12);
    assert_eq!(get_2_digits("pqr3stu8vwx".as_bytes()).unwrap(), 38);
    assert_eq!(get_2_digits("a1b2c3d4e5f".as_bytes()).unwrap(), 15);
    assert_eq!(get_2_digits("treb7uchet".as_bytes()).unwrap(), 77);
}

fn replaced(line: &str) -> String {
    String::from_utf8(replace_digits(line.as_bytes())).unwrap()
}

#[test]
fn written_numbers_are_replaced() {
    assert_eq!(replaced("two1nine"), "219");
    assert_eq!(replaced("eightwothree"), "8wo3");
    assert_eq!(replaced("abcone2threexyz"), "abc123xyz");
    assert_eq!(replaced("xtwone3four"), "x2ne34");
    // The first number is the digit at the start and the last the digit at
    // the end, so that no word is replaced.
    assert_eq!(replaced("4nineeightseven2"), "4nineeightseven2");
    assert_eq!(replaced("zoneight234"), "z1ight234");
    assert_eq!(replaced("7pqrstsixteen"), "7pqrst6teen");
    assert_eq!(replaced("abcde"), "abcde");
    assert_eq!(replaced("80073"), "80073");
    assert_eq!(replaced("two"), "2");
    assert_eq!(replaced("onene"), "1ne");
    assert_eq!(replaced("oneight"), "1ight");
}

#[test]
fn day01_test_part_one() {
    let result = part_one("1abc2\npqr3stu8vwx\na1b2c3d4e5f\ntreb7uchet\n");
    assert_eq!(result, Some(142));
}

#[test]
fn day01_test_part_two() {
    // Only digits
    let result = part_two("1abc2\npqr3stu8vwx\na1b2c3d4e5f\ntreb7uchet\n");
    assert_eq!(result, Some(142));

    // Digits and numbers
    let result = part_two(
        "two1nine\neightwothree\nabcone2threexyz\nxtwone3four\n4nineeightseven2\nzoneight234\n7pqrstsixteen\n",
    );
    assert_eq!(result, Some(281));
}

#[test]
fn lines_without_digits_have_no_value() {
    assert_eq!(get_2_digits(b"abc"), Err(InputError::Value));
    assert_eq!(get_2_digits(b""), Err(InputError::Value));
    assert_eq!(get_2_digits(b"x7y"), Ok(77));
    assert_eq!(part_one("1abc2\nxyz\n"), None);
    assert_eq!(part_one(""), Some(0));
    assert_eq!(part_two("one\nxyz\n"), None);
    assert_eq!(part_two("one\n"), Some(11));
}

#[test]
fn words_become_digits() {
    let words = ["one", "two", "three", "four", "five", "six", "seven", "eight", "nine"];
    for (i, word) in words.iter().enumerate() {
        assert_eq!(word2digit(word.as_bytes()), vec![b'1' + i as u8]);
    }
    assert_eq!(word2digit(b"7"), b"7".to_vec());
    assert_eq!(word2digit(b"ten"), b"ten".to_vec());
    assert_eq!(word2digit(b"on"), b"on".to_vec());
    assert_eq!(word2digit(b""), b"".to_vec());
}

#[test]
fn found_numbers_are_replaced() {
    let line = b"xtwone3four";
    assert_eq!(replace_found(line, Some(((1, 4), (7, 11))), None), b"x2ne34".to_vec());
    assert_eq!(replace_found(line, None, Some((1, 4))), b"x2ne3four".to_vec());
    assert_eq!(replace_found(line, None, None), line.to_vec());
    // Spans that do not lie in the line, or lie in the wrong order, are left alone.
    assert_eq!(replace_found(line, Some(((1, 4), (7, 12))), None), line.to_vec());
    assert_eq!(replace_found(line, Some(((7, 11), (1, 4))), None), line.to_vec());
    assert_eq!(replace_found(line, None, Some((4, 1))), line.to_vec());
}

#[test]
fn days_without_a_second_answer() {
    assert_eq!(day03::part_two("467..114.."), None);
    assert_eq!(day13::part_two("#.##..##."), None);
    assert_eq!(day16::part_two(".|...\\...."), None);
    assert_eq!(day20::part_two("broadcaster -> a"), None);
    assert_eq!(day25::part_two(""), Some(42));
}

#[test]
fn cards_and_their_values() {
    let names = ['2', '3', '4', '5', '6', '7', '8', '9', 'T', 'J', 'Q', 'K', 'A'];
    let with_jack = [2, 3, 4, 5, 6, 7, 8, 9, 10, 11, 12, 13, 14];
    let with_joker = [2, 3, 4, 5, 6, 7, 8, 9, 10, 1, 12, 13, 14];
    for i in 0..names.len() {
        assert_eq!(Card1::new(names[i]).unwrap().value(), with_jack[i]);
        assert_eq!(Card2::new(names[i]).unwrap().value(), with_joker[i]);
    }
    for c in ['1', '0', 'B', 'a', ' ', ':'] {
        assert_eq!(Card1::new(c), None);
        assert_eq!(Card2::new(c), None);
    }
}
