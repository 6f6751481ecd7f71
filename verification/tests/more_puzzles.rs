use advent_of_code::puzzles::d03::tok::{TokenKind, Tokenizer};
use advent_of_code::puzzles::d03::{GridSlot, Number, Schematic, Symbol};
use advent_of_code::puzzles::d07::{Card1, Card2, Hand, HandsList};
use advent_of_code::puzzles::d25::union_find::UnionFind;
use advent_of_code::puzzles::d25::Wiring;
use advent_of_code::text::InputError;
use advent_of_code::days::{day03, day07, day25};

const ENGINE: &str = "467..114..\n...*......\n..35..633.\n......#...\n617*......\n.....+.58.\n..592.....\n......755.\n...$.*....\n.664.598..\n";

const HANDS: &str = "32T3K 765\nT55J5 684\nKK677 28\nKTJJT 220\nQQQJA 483\n";

const WIRES: &str = "jqt: rhn xhk nvd\nrsh: frs pzl lsr\nxhk: hfx\ncmg: qnr nvd lhk bvb\nrhn: xhk bvb hfx\nbvb: xhk hfx\npzl: lsr hfx nvd\nqnr: nvd\nntq: jqt hfx bvb xhk\nnvd: lhk\nlsr: lhk\nrzs: qnr cmg lsr rsh\nfrs: qnr lhk lsr\n";

#[test]
fn test_new_schematic() {
    let schematic = Schematic::new(ENGINE).unwrap();

    assert_eq!(schematic.grid(0, 0), Some(GridSlot::Number(0)));
    assert_eq!(schematic.grid(1, 0), Some(GridSlot::Number(0)));
    assert_eq!(schematic.grid(2, 0), Some(GridSlot::Number(0)));
    assert_eq!(schematic.grid(3, 0), Some(GridSlot::Empty));
    assert_eq!(schematic.grid(4, 0), Some(GridSlot::Empty));
    assert_eq!(schematic.grid(5, 0), Some(GridSlot::Number(1)));
    assert_eq!(schematic.grid(6, 3), Some(GridSlot::Symbol(1)));

    let expected_numbers = vec![
        Number { idx: 0, val: 467 },
        Number { idx: 1, val: 114 },
        Number { idx: 2, val: 35 },
        Number { idx: 3, val: 633 },
        Number { idx: 4, val: 617 },
        Number { idx: 5, val: 58 },
        Number { idx: 6, val: 592 },
        Number { idx: 7, val: 755 },
        Number { idx: 8, val: 664 },
        Number { idx: 9, val: 598 },
    ];
    assert_eq!(schematic.numbers(), &expected_numbers);

    let expected_symbols = vec![
        Symbol { idx: 0, x: 3, y: 1, char: '*' },
        Symbol { idx: 1, x: 6, y: 3, char: '#' },
        Symbol { idx: 2, x: 3, y: 4, char: '*' },
        Symbol { idx: 3, x: 5, y: 5, char: '+' },
        Symbol { idx: 4, x: 3, y: 8, char: '$' },
        Symbol { idx: 5, x: 5, y: 8, char: '*' },
    ];
    assert_eq!(schematic.symbols(), &expected_symbols);
}

#[test]
fn schematic_numbers_next_to_symbols_are_parts() {
    let schematic = Schematic::new(ENGINE).unwrap();
    let selected = schematic.select_part_number_idxs();
    assert_eq!(
        selected,
        vec![true, false, true, true, true, false, true, true, true, true]
    );
    let sum: u32 = schematic
        .numbers()
        .iter()
        .filter(|n| selected[n.idx])
        .map(|n| n.val)
        .sum();
    assert_eq!(sum, 4361);
}

#[test]
fn schematic_gears_touch_two_numbers() {
    let schematic = Schematic::new(ENGINE).unwrap();
    assert_eq!(schematic.total_gear_ratio(), 467835);
    assert_eq!(schematic.numbers_around(0), vec![0, 2]);
    assert_eq!(schematic.numbers_around(2), vec![4]);
    assert_eq!(schematic.number_near(0, 0), Some(0));
    assert_eq!(schematic.number_near(0, 4), None);
    assert_eq!(schematic.number_near(0, 6), Some(2));
}

#[test]
fn schematic_outside_the_grid_is_nothing() {
    let schematic = Schematic::new("1.\n.*\n").unwrap();
    assert_eq!(schematic.side(), 2);
    assert_eq!(schematic.grid(2, 0), None);
    assert_eq!(schematic.grid(0, 2), None);
    assert_eq!(schematic.grid(1, 1), Some(GridSlot::Symbol(0)));
    assert_eq!(schematic.select_part_number_idxs(), vec![true]);
    assert_eq!(schematic.total_gear_ratio(), 0);
}

#[test]
fn schematic_rejects_what_does_not_fit() {
    assert_eq!(Schematic::new("12..").err(), Some(InputError::Syntax));
    assert_eq!(Schematic::new("\n12\n").err(), Some(InputError::Syntax));
    assert_eq!(Schematic::new("..\n..\n.*\n").err(), Some(InputError::Syntax));
    assert_eq!(Schematic::new("..\n.123\n").err(), Some(InputError::Syntax));
    assert_eq!(
        Schematic::new("99999999999.\n............\n").err(),
        Some(InputError::Number)
    );
}

#[test]
fn tokenizer_gives_numbers_and_symbols_with_their_places() {
    let text = b"12.+\n..7.\n";
    let mut tk = Tokenizer::new(text).unwrap();
    assert_eq!(tk.line_len(), 4);
    let t = tk.next().unwrap();
    assert_eq!((t.kind, t.x, t.y, t.from, t.to), (TokenKind::NumTok, 0, 0, 0, 2));
    let t = tk.next().unwrap();
    assert_eq!((t.kind, t.x, t.y, t.from, t.to), (TokenKind::SymTok, 3, 0, 3, 4));
    let t = tk.next().unwrap();
    assert_eq!((t.kind, t.x, t.y, t.from, t.to), (TokenKind::NumTok, 2, 1, 7, 8));
    assert!(tk.next().is_none());
    assert!(tk.next().is_none());
    assert!(Tokenizer::new(b"12.+").is_none());
}

#[test]
fn day07_test_part_one() {
    let hands: HandsList<Card1> = HANDS.parse().unwrap();
    assert_eq!(hands.len(), 5);
    assert_eq!(hands.total_winnings(), 6440);
}

#[test]
fn day07_test_part_two() {
    let hands: HandsList<Card2> = HANDS.parse().unwrap();
    assert_eq!(hands.total_winnings(), 5905);
}

fn hand1(s: &str) -> Hand<Card1> {
    Hand::from_bytes(s.as_bytes(), 0, s.len()).unwrap()
}

fn hand2(s: &str) -> Hand<Card2> {
    Hand::from_bytes(s.as_bytes(), 0, s.len()).unwrap()
}

#[test]
fn hands_have_their_kinds() {
    assert_eq!(hand1("AAAAA").kind(), (5, 0));
    assert_eq!(hand1("AA8AA").kind(), (4, 0));
    assert_eq!(hand1("23332").kind(), (3, 2));
    assert_eq!(hand1("TTT98").kind(), (3, 1));
    assert_eq!(hand1("23432").kind(), (2, 2));
    assert_eq!(hand1("A23A4").kind(), (2, 1));
    assert_eq!(hand1("23456").kind(), (1, 0));
    assert_eq!(hand1("23456").sorted_counts(), (1, 1));
    assert_eq!(hand1("KTJJT").kind(), (2, 2));
}

#[test]
fn jokers_count_with_the_largest_group() {
    assert_eq!(hand2("KTJJT").kind(), (4, 0));
    assert_eq!(hand2("QJJQ2").kind(), (4, 0));
    assert_eq!(hand2("JJJJJ").kind(), (5, 0));
    assert_eq!(hand2("2345J").kind(), (2, 1));
    assert_eq!(hand2("2233J").kind(), (3, 2));
    assert_eq!(hand2("23456").kind(), (1, 0));
}

#[test]
fn hands_are_ordered_by_kind_and_then_by_cards() {
    assert!(hand1("2AAAA").is_weaker_than(&hand1("33332")));
    assert!(!hand1("33332").is_weaker_than(&hand1("2AAAA")));
    assert!(hand1("77788").is_weaker_than(&hand1("77888")));
    assert!(hand1("23456").is_weaker_than(&hand1("22345")));
    assert!(!hand1("23456").is_weaker_than(&hand1("23456")));
    assert!(hand1("T2222").is_weaker_than(&hand1("J2222")));
    assert!(hand2("T2222").is_weaker_than(&hand2("J2222")));
    assert!(hand2("JJJJJ").is_weaker_than(&hand2("22222")));
    assert!(hand2("JKKK2").is_weaker_than(&hand2("QQQQ2")));
}

#[test]
fn equal_hands_are_ranked_in_their_order() {
    let hands: HandsList<Card1> = "23456 10\n23456 1\n".parse().unwrap();
    assert_eq!(hands.rank_of(0), 1);
    assert_eq!(hands.rank_of(1), 2);
    assert_eq!(hands.total_winnings(), 10 + 2);
}

#[test]
fn hands_that_cannot_be_read() {
    assert_eq!("23456".parse::<HandsList<Card1>>().err(), Some(InputError::Syntax));
    assert_eq!("2345 6".parse::<HandsList<Card1>>().err(), Some(InputError::Syntax));
    assert_eq!("2345X 6".parse::<HandsList<Card1>>().err(), Some(InputError::Value));
    assert_eq!("23456 x".parse::<HandsList<Card2>>().err(), Some(InputError::Number));
    assert_eq!("".parse::<HandsList<Card2>>().unwrap().len(), 0);
}

#[test]
fn day25_test_part_one() {
    let wiring: Wiring = WIRES.parse().unwrap();
    assert_eq!(wiring.n_components(), 15);
    assert_eq!(wiring.n_connections(), 33);
    let cut = wiring.min_cut(100_000).unwrap();
    assert_eq!(cut.size(), 3);
    let sizes = cut.component_sizes();
    assert_eq!(sizes.0 * sizes.1, 54);
    assert_eq!(sizes.0 + sizes.1, 15);
}

#[test]
fn wiring_that_cannot_be_cut() {
    let one: Wiring = "".parse().unwrap();
    assert!(one.min_cut(10).is_none());
    let apart: Wiring = "a: b\nc: d\ne: f\n".parse().unwrap();
    assert!(apart.min_cut(10).is_none());
    let tight: Wiring = "a: b c d\nb: c d\nc: d\n".parse().unwrap();
    assert!(tight.min_cut(0).is_none());
    assert_eq!("a b c\n".parse::<Wiring>().err(), Some(InputError::Syntax));
}

#[test]
fn wiring_of_two_parts_needs_no_wire_taken() {
    let two: Wiring = "a: b\nc: d\n".parse().unwrap();
    let cut = two.min_cut(10).unwrap();
    assert_eq!(cut.size(), 0);
}

#[test]
fn sets_are_joined_and_counted() {
    let mut uf = UnionFind::from_elements(&vec![10, 20, 30, 40]);
    assert_eq!(uf.len(), 4);
    assert!(!uf.is_empty());
    assert_eq!(uf.n_sets(), 4);
    assert_eq!(uf.find_root(20), Some(20));
    assert_eq!(uf.find_root(50), None);
    assert_eq!(uf.size_of_set(20), Some(1));
    assert_eq!(uf.size_of_set(50), None);

    let joined = uf.union(10, 20).unwrap();
    assert!(joined == 10 || joined == 20);
    assert_eq!(uf.n_sets(), 3);
    assert_eq!(uf.find_root(10), uf.find_root(20));
    assert_eq!(uf.size_of_set(10), Some(2));
    assert_eq!(uf.size_of_set(30), Some(1));

    assert_eq!(uf.union(20, 10), None);
    assert_eq!(uf.union(20, 50), None);
    assert_eq!(uf.n_sets(), 3);

    assert_eq!(uf.union(30, 20), Some(joined));
    assert_eq!(uf.find_root_shorten(30), Some(joined));
    assert_eq!(uf.find_root(30), Some(joined));
    assert_eq!(uf.size_of_set(30), Some(3));
    assert_eq!(uf.size_of_set(40), Some(1));
    assert_eq!(uf.n_sets(), 2);
    assert!(UnionFind::from_elements(&vec![]).is_empty());
}

#[test]
fn answers_of_day_03() {
    assert_eq!(day03::part_one(ENGINE), Some(4361));
    assert_eq!(day03::part_two(ENGINE), None);
    assert_eq!(day03::part_one("12.."), None);
    let schematic = Schematic::new(ENGINE).unwrap();
    assert_eq!(day03::sum_part_numbers(&schematic), Some(4361));
    let big = Schematic::new("4294967295*1\n............\n").unwrap();
    assert_eq!(day03::sum_part_numbers(&big), None);
    let fits = Schematic::new("4294967294*1\n............\n").unwrap();
    assert_eq!(day03::sum_part_numbers(&fits), Some(u32::MAX));
}

#[test]
fn answers_of_day_07() {
    assert_eq!(day07::part_one(HANDS), Some(6440));
    assert_eq!(day07::part_two(HANDS), Some(5905));
    assert_eq!(day07::part_one("2345X 6"), None);
    assert_eq!(day07::part_one("23456 4294967295\n34567 1\n"), None);
    assert_eq!(day07::part_one("23456 4294967293\n34567 1\n"), Some(4294967295));
}

#[test]
fn answers_of_day_25() {
    assert_eq!(day25::part_one(WIRES), Some(54));
    assert_eq!(day25::part_two(WIRES), Some(42));
    assert_eq!(day25::part_one("a b"), None);
    assert_eq!(day25::part_one("a: b\nc: d\n"), None);
}
