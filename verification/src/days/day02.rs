//! Games with a bag of cubes: in every game handfuls of red, green and blue
//! cubes are shown.
use crate::config::Settings;
use crate::text::{
    lines, parse_unsigned, parts, same_as, split_at_each, split_lines, split_once,
    split_once_spec, unsigned_value, InputError,
};
use vstd::array::array_as_slice;
use vstd::prelude::*;
use vstd::string::StringSliceAdditionalSpecFns;

verus! {

/// A number of red, of green and of blue cubes.
#[derive(Clone, Copy, Debug, PartialEq, Eq, Structural)]
pub struct CubeSet {
    pub red: u8,
    pub green: u8,
    pub blue: u8,
}

/// A game: its number, and the handfuls that were shown.
#[derive(Debug)]
pub struct Game {
    pub idx: u32,
    pub cube_sets: Vec<CubeSet>,
}

/// The word `red`.
pub open spec fn red() -> Seq<u8> {
    seq![114u8, 101, 100]
}

/// The word `green`.
pub open spec fn green() -> Seq<u8> {
    seq![103u8, 114, 101, 101, 110]
}

/// The word `blue`.
pub open spec fn blue() -> Seq<u8> {
    seq![98u8, 108, 117, 101]
}

/// A blank.
pub open spec fn blank() -> Seq<u8> {
    seq![32u8]
}

/// A comma and a blank: what parts the colours of a handful.
pub open spec fn comma() -> Seq<u8> {
    seq![44u8, 32]
}

/// A semicolon and a blank: what parts the handfuls of a game.
pub open spec fn semicolon() -> Seq<u8> {
    seq![59u8, 32]
}

/// A colon and a blank: what parts the name of a game from its handfuls.
pub open spec fn colon() -> Seq<u8> {
    seq![58u8, 32]
}

/// The handful after one more of its parts, a number and a colour, has been
/// read: the number takes the place of what the handful had of that colour.
pub open spec fn with_part(set: CubeSet, part: Seq<u8>) -> Result<CubeSet, InputError> {
    match split_once_spec(part, blank()) {
        None => Err(InputError::Syntax),
        Some((number, colour)) => match unsigned_value(number, 255) {
            None => Err(InputError::Number),
            Some(n) => if colour == red() {
                Ok(CubeSet { red: n as u8, ..set })
            } else if colour == green() {
                Ok(CubeSet { green: n as u8, ..set })
            } else if colour == blue() {
                Ok(CubeSet { blue: n as u8, ..set })
            } else {
                Err(InputError::Value)
            },
        },
    }
}

/// The handful that the first `k` parts make.
pub open spec fn handful(ps: Seq<Seq<u8>>, k: int) -> Result<CubeSet, InputError>
    decreases k,
{
    if k <= 0 {
        Ok(CubeSet { red: 0, green: 0, blue: 0 })
    } else {
        match handful(ps, k - 1) {
            Err(e) => Err(e),
            Ok(set) => with_part(set, ps[k - 1]),
        }
    }
}

/// The handful that a text stands for: numbers with colours, parted by commas.
pub open spec fn cube_set_of(t: Seq<u8>) -> Result<CubeSet, InputError> {
    handful(parts(t, comma()), parts(t, comma()).len() as int)
}

/// The first `k` handfuls of a game.
pub open spec fn handfuls(ps: Seq<Seq<u8>>, k: int) -> Result<Seq<CubeSet>, InputError>
    decreases k,
{
    if k <= 0 {
        Ok(Seq::<CubeSet>::empty())
    } else {
        match handfuls(ps, k - 1) {
            Err(e) => Err(e),
            Ok(sets) => match cube_set_of(ps[k - 1]) {
                Err(e) => Err(e),
                Ok(set) => Ok(sets.push(set)),
            },
        }
    }
}

/// The game that a line stands for: a name that ends with the number of the
/// game, a colon, and the handfuls, parted by semicolons.
pub open spec fn game_of(t: Seq<u8>) -> Result<(nat, Seq<CubeSet>), InputError> {
    match split_once_spec(t, colon()) {
        None => Err(InputError::Syntax),
        Some((name, shown)) => match split_once_spec(name, blank()) {
            None => Err(InputError::Syntax),
            Some((_, number)) => match unsigned_value(number, u32::MAX as nat) {
                None => Err(InputError::Number),
                Some(idx) => match handfuls(
                    parts(shown, semicolon()),
                    parts(shown, semicolon()).len() as int,
                ) {
                    Err(e) => Err(e),
                    Ok(sets) => Ok((idx, sets)),
                },
            },
        },
    }
}

/// The first `k` games of a text, one on each line, numbered from one.
pub open spec fn games_of(ls: Seq<Seq<u8>>, k: int) -> Result<Seq<(nat, Seq<CubeSet>)>, InputError>
    decreases k,
{
    if k <= 0 {
        Ok(Seq::<(nat, Seq<CubeSet>)>::empty())
    } else {
        match games_of(ls, k - 1) {
            Err(e) => Err(e),
            Ok(games) => match game_of(ls[k - 1]) {
                Err(e) => Err(e),
                Ok(game) => if game.0 == k {
                    Ok(games.push(game))
                } else {
                    Err(InputError::Value)
                },
            },
        }
    }
}

/// Whether no colour has more cubes in `set` than in `other`.
pub open spec fn is_subset_spec(set: CubeSet, other: CubeSet) -> bool {
    set.red <= other.red && set.green <= other.green && set.blue <= other.blue
}

/// The larger of two numbers.
pub open spec fn larger(a: int, b: int) -> int {
    if a >= b {
        a
    } else {
        b
    }
}

/// The fewest cubes of each colour that the bag must hold for the first `k`
/// handfuls.
pub open spec fn fewest(sets: Seq<CubeSet>, k: int) -> (int, int, int)
    decreases k,
{
    if k <= 0 {
        (0, 0, 0)
    } else {
        (
            larger(fewest(sets, k - 1).0, sets[k - 1].red as int),
            larger(fewest(sets, k - 1).1, sets[k - 1].green as int),
            larger(fewest(sets, k - 1).2, sets[k - 1].blue as int),
        )
    }
}

/// The power of a game: the product of the fewest cubes of each colour that
/// the bag must hold.
pub open spec fn power(sets: Seq<CubeSet>) -> int {
    fewest(sets, sets.len() as int).0 * fewest(sets, sets.len() as int).1 * fewest(
        sets,
        sets.len() as int,
    ).2
}

/// The sum of the powers of the first `k` games.
pub open spec fn power_sum(games: Seq<(nat, Seq<CubeSet>)>, k: int) -> int
    decreases k,
{
    if k <= 0 {
        0
    } else {
        power_sum(games, k - 1) + power(games[k - 1].1)
    }
}

/// Whether every handful fits in the bag.
pub open spec fn is_possible(sets: Seq<CubeSet>, bag: CubeSet) -> bool {
    forall|i: int| 0 <= i < sets.len() ==> is_subset_spec(#[trigger] sets[i], bag)
}

/// The sum of the numbers of those of the first `k` games that are possible.
pub open spec fn possible_sum(games: Seq<(nat, Seq<CubeSet>)>, bag: CubeSet, k: int) -> int
    decreases k,
{
    if k <= 0 {
        0
    } else {
        possible_sum(games, bag, k - 1) + if is_possible(games[k - 1].1, bag) {
            games[k - 1].0 as int
        } else {
            0
        }
    }
}

/// The fewest cubes are at most 255 of each colour.
pub proof fn lemma_fewest_range(sets: Seq<CubeSet>, k: int)
    ensures
        0 <= fewest(sets, k).0 <= 255,
        0 <= fewest(sets, k).1 <= 255,
        0 <= fewest(sets, k).2 <= 255,
    decreases k,
{
    if k > 0 {
        lemma_fewest_range(sets, k - 1);
    }
}

/// A power is at most 255 to the third.
pub proof fn lemma_power_range(sets: Seq<CubeSet>)
    ensures
        0 <= power(sets) <= 16581375,
{
    lemma_fewest_range(sets, sets.len() as int);
    let f = fewest(sets, sets.len() as int);
    assert(0 <= f.0 * f.1 <= 65025) by (nonlinear_arith)
        requires
            0 <= f.0 <= 255,
            0 <= f.1 <= 255,
    ;
    assert(0 <= (f.0 * f.1) * f.2 <= 16581375) by (nonlinear_arith)
        requires
            0 <= f.0 * f.1 <= 65025,
            0 <= f.2 <= 255,
    ;
}

impl CubeSet {
    /// Whether no colour has more cubes here than in `other`.
    pub fn is_subset(&self, other: &CubeSet) -> (b: bool)
        ensures
            b == is_subset_spec(*self, *other),
    {
        self.red <= other.red && self.green <= other.green && self.blue <= other.blue
    }

    /// Reads a handful from the text between `from` and `to`.
    #[verifier::loop_isolation(false)]
    pub fn from_bytes(text: &[u8], from: usize, to: usize) -> (r: Result<CubeSet, InputError>)
        requires
            from <= to <= text.len(),
        ensures
            r == cube_set_of(text@.subrange(from as int, to as int)),
    {
        let sep: [u8; 2] = [44, 32];
        let space: [u8; 1] = [32];
        let word_red: [u8; 3] = [114, 101, 100];
        let word_green: [u8; 5] = [103, 114, 101, 101, 110];
        let word_blue: [u8; 4] = [98, 108, 117, 101];
        proof {
            assert(sep@ =~= comma());
            assert(space@ =~= blank());
            assert(word_red@ =~= red());
            assert(word_green@ =~= green());
            assert(word_blue@ =~= blue());
        }
        let found = split_at_each(text, from, to, array_as_slice(&sep));
        let ghost ps = parts(text@.subrange(from as int, to as int), comma());
        let mut set = CubeSet { red: 0, green: 0, blue: 0 };
        let mut i: usize = 0;
        while i < found.len()
            invariant
                i <= found.len(),
                to <= text.len(),
                crate::text::spans_hold(text@, from as int, to as int, found@, ps),
                handful(ps, i as int) == Ok::<CubeSet, InputError>(set),
                space@ == blank(),
                word_red@ == red(),
                word_green@ == green(),
                word_blue@ == blue(),
            decreases found.len() - i,
        {
            let (a, b) = found[i];
            let at = match split_once(text, a, b, array_as_slice(&space)) {
                Some(at) => at,
                None => {
                    proof {
                        lemma_handful_fails(ps, i + 1, ps.len() as int);
                    }
                    return Err(InputError::Syntax);
                },
            };
            let num = match parse_unsigned(text, a, at, 255) {
                Some(n) => n as u8,
                None => {
                    proof {
                        lemma_handful_fails(ps, i + 1, ps.len() as int);
                    }
                    return Err(InputError::Number);
                },
            };
            if same_as(text, at + 1, b, array_as_slice(&word_red)) {
                set.red = num;
            } else if same_as(text, at + 1, b, array_as_slice(&word_green)) {
                set.green = num;
            } else if same_as(text, at + 1, b, array_as_slice(&word_blue)) {
                set.blue = num;
            } else {
                proof {
                    lemma_handful_fails(ps, i + 1, ps.len() as int);
                }
                return Err(InputError::Value);
            }
            // Where a colour comes twice, the last number counts.
            i += 1;
        }
        Ok(set)
    }
}

/// Once a part could not be read, the handful cannot.
pub proof fn lemma_handful_fails(ps: Seq<Seq<u8>>, a: int, b: int)
    requires
        0 <= a <= b,
        handful(ps, a) is Err,
    ensures
        handful(ps, b) == handful(ps, a),
    decreases b,
{
    if a < b {
        lemma_handful_fails(ps, a, b - 1);
    }
}

/// Once a handful could not be read, the handfuls cannot.
pub proof fn lemma_handfuls_fail(ps: Seq<Seq<u8>>, a: int, b: int)
    requires
        0 <= a <= b,
        handfuls(ps, a) is Err,
    ensures
        handfuls(ps, b) == handfuls(ps, a),
    decreases b,
{
    if a < b {
        lemma_handfuls_fail(ps, a, b - 1);
    }
}

/// Once a game could not be read, the games cannot.
pub proof fn lemma_games_fail(ls: Seq<Seq<u8>>, a: int, b: int)
    requires
        0 <= a <= b,
        games_of(ls, a) is Err,
    ensures
        games_of(ls, b) == games_of(ls, a),
    decreases b,
{
    if a < b {
        lemma_games_fail(ls, a, b - 1);
    }
}

impl Game {
    /// The game as mathematics.
    pub open spec fn view(&self) -> (nat, Seq<CubeSet>) {
        (self.idx as nat, self.cube_sets@)
    }

    /// Whether every handful of the game fits in the bag.
    pub fn is_posible(&self, bag_contents: &CubeSet) -> (b: bool)
        ensures
            b == is_possible(self.cube_sets@, *bag_contents),
    {
        let mut i: usize = 0;
        while i < self.cube_sets.len()
            invariant
                i <= self.cube_sets.len(),
                forall|j: int| 0 <= j < i ==> is_subset_spec(#[trigger] self.cube_sets@[j], *bag_contents),
            decreases self.cube_sets.len() - i,
        {
            if !self.cube_sets[i].is_subset(bag_contents) {
                return false;
            }
            i += 1;
        }
        true
    }

    /// The power of the game.
    pub fn min_power(&self) -> (p: u32)
        ensures
            p == power(self.cube_sets@),
    {
        let mut min_r: u8 = 0;
        let mut min_g: u8 = 0;
        let mut min_b: u8 = 0;
        let mut i: usize = 0;
        while i < self.cube_sets.len()
            invariant
                i <= self.cube_sets.len(),
                fewest(self.cube_sets@, i as int) == (min_r as int, min_g as int, min_b as int),
            decreases self.cube_sets.len() - i,
        {
            let cs = self.cube_sets[i];
            if cs.red > min_r {
                min_r = cs.red;
            }
            if cs.green > min_g {
                min_g = cs.green;
            }
            if cs.blue > min_b {
                min_b = cs.blue;
            }
            i += 1;
        }
        proof {
            lemma_power_range(self.cube_sets@);
            assert(0 <= min_r * min_g <= 65025) by (nonlinear_arith)
                requires
                    0 <= min_r <= 255,
                    0 <= min_g <= 255,
            ;
        }
        min_r as u32 * min_g as u32 * min_b as u32
    }

    /// Reads a game from the text between `from` and `to`.
    #[verifier::loop_isolation(false)]
    pub fn from_bytes(text: &[u8], from: usize, to: usize) -> (r: Result<Game, InputError>)
        requires
            from <= to <= text.len(),
        ensures
            match (r, game_of(text@.subrange(from as int, to as int))) {
                (Ok(game), Ok(model)) => game.view() == model,
                (Err(e), Err(f)) => e == f,
                _ => false,
            },
    {
        let name_end: [u8; 2] = [58, 32];
        let space: [u8; 1] = [32];
        let sep: [u8; 2] = [59, 32];
        proof {
            assert(name_end@ =~= colon());
            assert(space@ =~= blank());
            assert(sep@ =~= semicolon());
        }
        let mut cube_sets: Vec<CubeSet> = Vec::new();
        let at = match split_once(text, from, to, array_as_slice(&name_end)) {
            Some(at) => at,
            None => {
                return Err(InputError::Syntax);
            },
        };
        // The name ends with the number of the game.
        let number_at = match split_once(text, from, at, array_as_slice(&space)) {
            Some(p) => p + 1,
            None => {
                return Err(InputError::Syntax);
            },
        };
        let idx = match parse_unsigned(text, number_at, at, 0xffff_ffff) {
            Some(v) => v as u32,
            None => {
                return Err(InputError::Number);
            },
        };
        let found = split_at_each(text, at + 2, to, array_as_slice(&sep));
        let ghost ps = parts(text@.subrange(at + 2, to as int), semicolon());
        let mut i: usize = 0;
        while i < found.len()
            invariant
                i <= found.len(),
                to <= text.len(),
                crate::text::spans_hold(text@, at + 2, to as int, found@, ps),
                handfuls(ps, i as int) == Ok::<Seq<CubeSet>, InputError>(cube_sets@),
            decreases found.len() - i,
        {
            let (a, b) = found[i];
            match CubeSet::from_bytes(text, a, b) {
                Ok(set) => {
                    cube_sets.push(set);
                },
                Err(e) => {
                    proof {
                        lemma_handfuls_fail(ps, i + 1, ps.len() as int);
                    }
                    return Err(e);
                },
            }
            i += 1;
        }
        Ok(Game { idx, cube_sets })
    }
}

/// The games as mathematics.
pub open spec fn game_views(games: Seq<Game>) -> Seq<(nat, Seq<CubeSet>)> {
    Seq::new(games.len(), |i: int| games[i].view())
}

/// Reads the games of a text, one on each line, numbered from one.
#[verifier::loop_isolation(false)]
pub fn parse_games(input: &str) -> (r: Result<Vec<Game>, InputError>)
    ensures
        match (r, games_of(lines(input.spec_bytes()), lines(input.spec_bytes()).len() as int)) {
            (Ok(games), Ok(model)) => game_views(games@) == model,
            (Err(e), Err(f)) => e == f,
            _ => false,
        },
{
    let text = input.as_bytes();
    let spans = split_lines(text);
    let ghost ls = lines(text@);
    let mut games: Vec<Game> = Vec::new();
    let mut i: usize = 0;
    proof {
        assert(game_views(games@) =~= Seq::<(nat, Seq<CubeSet>)>::empty());
    }
    while i < spans.len()
        invariant
            i <= spans.len(),
            spans.len() == ls.len(),
            ls == lines(text@),
            text@ == input.spec_bytes(),
            crate::text::spans_hold(text@, 0, text@.len() as int, spans@, ls),
            games_of(ls, i as int) == Ok::<Seq<(nat, Seq<CubeSet>)>, InputError>(
                game_views(games@),
            ),
            games.len() == i,
        decreases spans.len() - i,
    {
        let (a, b) = spans[i];
        let game = match Game::from_bytes(text, a, b) {
            Ok(game) => game,
            Err(e) => {
                proof {
                    lemma_games_fail(ls, i + 1, ls.len() as int);
                }
                return Err(e);
            },
        };
        if i >= 0xffff_ffff || game.idx != (i + 1) as u32 {
            proof {
                lemma_games_fail(ls, i + 1, ls.len() as int);
            }
            return Err(InputError::Value);
        }
        proof {
            assert(game_views(games@.push(game)) =~= game_views(games@).push(game.view()));
        }
        games.push(game);
        i += 1;
    }
    Ok(games)
}

/// The sum of the numbers of the games that are possible with the bag of the
/// settings; `None` where the text is no list of games or the sum does not fit
/// in 32 bits.
#[verifier::loop_isolation(false)]
pub fn part_one(input: &str) -> (r: Option<u32>)
    ensures
        r == (match games_of(lines(input.spec_bytes()), lines(input.spec_bytes()).len() as int) {
            Ok(model) => if possible_sum(
                model,
                CubeSet { red: 12, green: 13, blue: 14 },
                model.len() as int,
            ) <= u32::MAX {
                Some(
                    possible_sum(
                        model,
                        CubeSet { red: 12, green: 13, blue: 14 },
                        model.len() as int,
                    ) as u32,
                )
            } else {
                None
            },
            Err(_) => None,
        }),
{
    let bag_contents_ = Settings::new().day02.bag_contents;
    let bag_contents = CubeSet {
        red: bag_contents_[0],
        green: bag_contents_[1],
        blue: bag_contents_[2],
    };
    let games = match parse_games(input) {
        Ok(games) => games,
        Err(_) => {
            return None;
        },
    };
    let ghost model = game_views(games@);
    proof {
        lemma_games_numbered(
            lines(input.spec_bytes()),
            lines(input.spec_bytes()).len() as int,
        );
    }
    let mut n_possible: u64 = 0;
    let mut i: usize = 0;
    proof {
        lemma_possible_sum_grows(model, bag_contents, 0, model.len() as int);
    }
    while i < games.len()
        invariant
            i <= games.len(),
            model == game_views(games@),
            n_possible == possible_sum(model, bag_contents, i as int),
            n_possible <= u32::MAX,
            bag_contents == (CubeSet { red: 12, green: 13, blue: 14 }),
        decreases games.len() - i,
    {
        proof {
            assert(model[i as int] == games@[i as int].view());
            lemma_possible_sum_grows(model, bag_contents, i + 1, model.len() as int);
        }
        if games[i].is_posible(&bag_contents) {
            n_possible = n_possible + games[i].idx as u64;
            if n_possible > 0xffff_ffff {
                return None;
            }
        }
        i += 1;
    }
    Some(n_possible as u32)
}

/// The sum for the first games is no more than the sum for more of them.
pub proof fn lemma_possible_sum_grows(
    games: Seq<(nat, Seq<CubeSet>)>,
    bag: CubeSet,
    a: int,
    b: int,
)
    requires
        0 <= a <= b,
    ensures
        0 <= possible_sum(games, bag, a) <= possible_sum(games, bag, b),
    decreases b,
{
    if b > 0 {
        if a < b {
            lemma_possible_sum_grows(games, bag, a, b - 1);
        } else {
            lemma_possible_sum_grows(games, bag, a - 1, b - 1);
        }
    }
}

/// Games that were read are numbered from one.
pub proof fn lemma_games_numbered(ls: Seq<Seq<u8>>, k: int)
    requires
        games_of(ls, k) is Ok,
        0 <= k,
    ensures
        games_of(ls, k)->Ok_0.len() == k,
        forall|j: int| 0 <= j < k ==> (#[trigger] games_of(ls, k)->Ok_0[j]).0 == j + 1,
    decreases k,
{
    if k > 0 {
        lemma_games_numbered(ls, k - 1);
    }
}

/// The power sums grow.
pub proof fn lemma_power_sum_grows(games: Seq<(nat, Seq<CubeSet>)>, a: int, b: int)
    requires
        0 <= a <= b,
    ensures
        0 <= power_sum(games, a) <= power_sum(games, b),
    decreases b,
{
    if a < b {
        lemma_power_sum_grows(games, a, b - 1);
        lemma_power_range(games[b - 1].1);
    } else if a > 0 {
        lemma_power_sum_grows(games, a - 1, a - 1);
        lemma_power_range(games[a - 1].1);
    }
}

/// The sum of the powers of all games; `None` where the text is no list of
/// games or the sum does not fit in 32 bits.
#[verifier::loop_isolation(false)]
pub fn part_two(input: &str) -> (r: Option<u32>)
    ensures
        r == (match games_of(lines(input.spec_bytes()), lines(input.spec_bytes()).len() as int) {
            Ok(model) => if power_sum(model, model.len() as int) <= u32::MAX {
                Some(power_sum(model, model.len() as int) as u32)
            } else {
                None
            },
            Err(_) => None,
        }),
{
    let games = match parse_games(input) {
        Ok(games) => games,
        Err(_) => {
            return None;
        },
    };
    let ghost model = game_views(games@);
    proof {
        lemma_games_numbered(
            lines(input.spec_bytes()),
            lines(input.spec_bytes()).len() as int,
        );
    }
    let mut total: u64 = 0;
    let mut i: usize = 0;
    proof {
        lemma_power_sum_grows(model, 0, model.len() as int);
    }
    while i < games.len()
        invariant
            i <= games.len(),
            model == game_views(games@),
            total == power_sum(model, i as int),
            total <= u32::MAX,
        decreases games.len() - i,
    {
        proof {
            assert(model[i as int] == games@[i as int].view());
            lemma_power_range(games@[i as int].cube_sets@);
            lemma_power_sum_grows(model, i + 1, model.len() as int);
        }
        total = total + games[i].min_power() as u64;
        if total > 0xffff_ffff {
            return None;
        }
        i += 1;
    }
    Some(total as u32)
}

} // verus!
