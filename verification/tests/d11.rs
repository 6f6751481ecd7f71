use advent_of_code::puzzles::d11::Galaxies;
use advent_of_code::text::InputError;
use advent_of_code::days::day11;

const UNIVERSE: &str = "...#......
.......#..
#.........
..........
......#...
.#........
.........#
..........
.......#..
#...#.....
";

#[test]
fn test_expansion_multipliers() {
    let input = UNIVERSE;

    let mut galaxies: Galaxies = input.parse().unwrap();
    galaxies.expand(10);
    assert_eq!(galaxies.sum_pairwise_dist(), 1030);

    let mut galaxies: Galaxies = input.parse().unwrap();
    galaxies.expand(100);
    assert_eq!(galaxies.sum_pairwise_dist(), 8410);
}

#[test]
fn day11_test_part_one() {
    let mut galaxies: Galaxies = UNIVERSE.parse().unwrap();
    galaxies.expand(2);
    assert_eq!(galaxies.sum_pairwise_dist(), 374);
}

#[test]
fn galaxies_without_expansion() {
    // Two galaxies, two columns and one row apart.
    let galaxies: Galaxies = "#..\n..#\n".parse().unwrap();
    assert_eq!(galaxies.sum_pairwise_dist(), 3);
    // Expanding by one changes nothing.
    let mut same: Galaxies = "#..\n..#\n".parse().unwrap();
    same.expand(1);
    assert_eq!(same.sum_pairwise_dist(), 3);
    // The one empty column becomes five.
    let mut wide: Galaxies = "#..\n..#\n".parse().unwrap();
    wide.expand(5);
    assert_eq!(wide.sum_pairwise_dist(), 7);
}

#[test]
fn sum_of_differences_of_sorted_numbers() {
    assert_eq!(Galaxies::sum_abs_diff(&vec![]), 0);
    assert_eq!(Galaxies::sum_abs_diff(&vec![5]), 0);
    assert_eq!(Galaxies::sum_abs_diff(&vec![1, 4]), 3);
    // |1-4| + |1-9| + |4-9|
    assert_eq!(Galaxies::sum_abs_diff(&vec![1, 4, 9]), 16);
    assert_eq!(Galaxies::sum_abs_diff(&vec![2, 2, 2]), 0);
}

#[test]
fn expanding_moves_what_lies_behind_a_gap() {
    let mut coords = vec![0, 1, 4, 4, 6];
    Galaxies::expand_arr(&mut coords, 10);
    // The two empty places before 4 become twenty, the one before 6 ten.
    assert_eq!(coords, vec![0, 1, 22, 22, 33]);
    let mut none: Vec<i64> = vec![];
    Galaxies::expand_arr(&mut none, 10);
    assert!(none.is_empty());
}

#[test]
fn columns_are_sorted_when_read() {
    // The galaxy of the second line stands left of the one of the first.
    let mut galaxies: Galaxies = "..#\n#..\n".parse().unwrap();
    galaxies.expand(3);
    // One empty column and no empty row: 2 + 2 columns apart, 1 row.
    assert_eq!(galaxies.sum_pairwise_dist(), 5);
    let empty: Result<Galaxies, InputError> = "".parse();
    assert_eq!(empty.unwrap().sum_pairwise_dist(), 0);
}

#[test]
fn answers_of_day_11() {
    assert_eq!(day11::part_one(UNIVERSE), Some(374));
    assert_eq!(day11::part_two(UNIVERSE), Some(82000210));
    assert_eq!(day11::sum_after_growth(UNIVERSE, 10), Some(1030));
    assert_eq!(day11::sum_after_growth(UNIVERSE, 100), Some(8410));
    assert_eq!(day11::part_one(""), Some(0));
}

#[test]
fn sums_that_do_not_fit_are_none() {
    assert_eq!(Galaxies::checked_sum_abs_diff(&vec![1, 3, 6]), Some(10));
    assert_eq!(Galaxies::checked_sum_abs_diff(&vec![0, i64::MAX]), Some(i64::MAX));
    assert_eq!(Galaxies::checked_sum_abs_diff(&vec![-2, i64::MAX]), None);
    assert_eq!(Galaxies::checked_sum_abs_diff(&vec![]), Some(0));
    let mut far = vec![0, i64::MAX / 2 + 2];
    assert!(!Galaxies::checked_expand_arr(&mut far, 3));
    let mut near = vec![0, 5, 6];
    assert!(Galaxies::checked_expand_arr(&mut near, 3));
    assert_eq!(near, vec![0, 13, 14]);
}
