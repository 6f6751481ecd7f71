use advent_of_code::days::{day03, day04, day08, day10, day13, day14, day16, day20, day22};

const ENGINE: &str = "467..114..\n...*......\n..35..633.\n......#...\n617*......\n.....+.58.\n..592.....\n......755.\n...$.*....\n.664.598..\n";
const CARDS: &str = "Card 1: 41 48 83 86 17 | 83 86  6 31 17  9 48 53
Card 2: 13 32 20 16 61 | 61 30 68 82 17 32 24 19
Card 3:  1 21 53 59 44 | 69 82 63 72 16 21 14  1
Card 4: 41 92 73 84 69 | 59 84 76 51 58  5 54 83
Card 5: 87 83 26 28 32 | 88 30 70 12 93 22 82 36
Card 6: 31 18 13 56 72 | 74 77 10 23 35 67 36 11";
const TWO_STEPS: &str = "RL\n\nAAA = (BBB, CCC)\nBBB = (DDD, EEE)\nCCC = (ZZZ, GGG)\nDDD = (DDD, DDD)\nEEE = (EEE, EEE)\nGGG = (GGG, GGG)\nZZZ = (ZZZ, ZZZ)\n";
const SIX_STEPS: &str = "LLR\n\nAAA = (BBB, BBB)\nBBB = (AAA, ZZZ)\nZZZ = (ZZZ, ZZZ)\n";
const GHOSTS: &str = "LR\n\n11A = (11B, XXX)\n11B = (XXX, 11Z)\n11Z = (11B, XXX)\n22A = (22B, XXX)\n22B = (22C, 22C)\n22C = (22Z, 22Z)\n22Z = (22B, 22B)\nXXX = (XXX, XXX)\n";
const VALLEY: &str = "#.##..##.
..#.##.#.
##......#
##......#
..#.##.#.
..##..##.
#.#.##.#.

#...##..#
#....#..#
..##..###
#####.##.
#####.##.
..##..###
#....#..#
";
const ROCKS: &str = "O....#....\nO.OO#....#\n.....##...\nOO.#O....O\n.O.....O#.\nO.#..O.#.#\n..O..#O..O\n.......O..\n#....###..\n#OO..#....\n";
const MIRRORS: &str = ".|...\\....
|.-.\\.....
.....|-...
........|.
..........
.........\\
..../.\\\\..
.-.-/..|..
.|....-|.\\
..//.|....
";
const FLIPS: &str = "broadcaster -> a, b, c\n%a -> b\n%b -> c\n%c -> inv\n&inv -> a\n";
const BRICKS: &str = "1,0,1~1,2,1\n0,0,2~2,0,2\n0,2,3~2,2,3\n0,0,4~0,2,4\n2,0,5~2,2,5\n0,1,6~2,1,6\n1,1,8~1,1,9\n";

const LARGER_LOOP: &str = ".F----7F7F7F7F-7....\n.|F--7||||||||FJ....\n.||.FJ||||||||L7....\nFJL7L7LJLJ||LJ.L-7..\nL--J.L7...LJS7F-7L7.\n....F-J..F7FJ|L7L7L7\n....L7.F7||L7|.L7L7|\n.....|FJLJ|FJ|F7|.LJ\n....FJL-7.||.||||...\n....L---J.LJ.LJLJ...\n....................\n....................\n....................\n....................\n....................\n....................\n....................\n....................\n....................\n....................\n";

const JUNK_LOOP: &str = "FF7FSF7F7F7F7F7F---7\nL|LJ||||||||||||F--J\nFL-7LJLJ||||||LJL-77\nF--JF--7||LJLJ7F7FJ-\nL---JF-JLJ.||-FJLJJ7\n|F|F-JF---7F7-L7L|7|\n|FFJF7L7F-JF7|JL---7\n7-L-JL7||F7|L7F-7F7|\nL.L7LFJ|||||FJL7||LJ\nL7JLJL-JLJLJL--JLJ.L\n....................\n....................\n....................\n....................\n....................\n....................\n....................\n....................\n....................\n....................\n";

#[test]
fn day03_test_part_one() {
    assert_eq!(day03::part_one(ENGINE), Some(4361));
}

#[test]
fn day03_test_part_two() {
    assert_eq!(day03::part_two(ENGINE), None);
}

#[test]
fn day04_test_part_two() {
    assert_eq!(day04::part_two(CARDS), Some(30));
}

#[test]
fn day08_test_part_one() {
    assert_eq!(day08::part_one(TWO_STEPS), Some(2));
    assert_eq!(day08::part_one(SIX_STEPS), Some(6));
}

#[test]
fn day08_test_part_two() {
    assert_eq!(day08::part_two(GHOSTS), Some(6));
}

#[test]
fn day10_larger_loops_enclose_more() {
    assert_eq!(day10::part_two(LARGER_LOOP), Some(8));
    assert_eq!(day10::part_two(JUNK_LOOP), Some(10));
}

#[test]
fn day13_test_part_two() {
    assert_eq!(day13::part_two(VALLEY), None);
}

#[test]
fn day14_test_part_one() {
    assert_eq!(day14::part_one(ROCKS), Some(136));
}

#[test]
fn day14_test_part_two() {
    assert_eq!(day14::part_two(ROCKS), Some(64));
}

#[test]
fn day16_test_part_two() {
    assert_eq!(day16::part_two(MIRRORS), None);
}

#[test]
fn day20_test_part_two() {
    assert_eq!(day20::part_two(FLIPS), None);
}

#[test]
fn day22_test_part_one() {
    assert_eq!(day22::part_one(BRICKS), Some(5));
}

#[test]
fn day22_test_part_two() {
    assert_eq!(day22::part_two(BRICKS), Some(7));
}
