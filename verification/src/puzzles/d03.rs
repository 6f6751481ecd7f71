//! A schematic of numbers and symbols on a square grid: which numbers touch a
//! symbol, and which symbols touch exactly two numbers.
use crate::grids::{ByteGrid, CountGrid};
use crate::text::{parse_unsigned, unsigned_value, InputError};
use vstd::prelude::*;
use vstd::string::StringSliceAdditionalSpecFns;

pub mod tok;

use tok::{first_line_feed, lemma_tokens_len, tokens, Token, TokenKind, Tokenizer};

verus! {

/// What a place of the grid holds: nothing, the symbol with the given index,
/// or a digit of the number with the given index.
#[derive(Clone, Copy, Debug, PartialEq, Eq)]
pub enum GridSlot {
    Empty,
    Symbol(usize),
    Number(usize),
}

/// A symbol: its index among the symbols, its place, and its character.
#[derive(Clone, Copy, Debug, PartialEq, Eq)]
pub struct Symbol {
    pub idx: usize,
    pub x: usize,
    pub y: usize,
    pub char: char,
}

/// A number: its index among the numbers, and its value.
#[derive(Clone, Copy, Debug, PartialEq, Eq)]
pub struct Number {
    pub idx: usize,
    pub val: u32,
}

/// A schematic: a square grid, as wide as the first line of its text is
/// long, with the symbols and numbers of the text.
pub struct Schematic {
    size: usize,
    kinds: ByteGrid,
    indexes: CountGrid,
    symbols: Vec<Symbol>,
    numbers: Vec<Number>,
    text: Ghost<Seq<u8>>,
}

/// Whether a token covers the place in column `x` of line `y`.
pub open spec fn covers(tok: Token, x: int, y: int) -> bool {
    tok.y == y && tok.x <= x < tok.x + (tok.to - tok.from)
}

/// How many of the first `k` tokens are of the given kind.
pub open spec fn count_kind(toks: Seq<Token>, kind: TokenKind, k: int) -> int
    decreases k,
{
    if k <= 0 {
        0
    } else {
        count_kind(toks, kind, k - 1) + if toks[k - 1].kind == kind {
            1int
        } else {
            0int
        }
    }
}

/// What the place in column `x` of line `y` holds after the first `k` tokens
/// have been put on the grid.
pub open spec fn slot_of(toks: Seq<Token>, k: int, x: int, y: int) -> GridSlot
    decreases k,
{
    if k <= 0 {
        GridSlot::Empty
    } else if covers(toks[k - 1], x, y) {
        let idx = count_kind(toks, toks[k - 1].kind, k - 1) as usize;
        match toks[k - 1].kind {
            TokenKind::SymTok => GridSlot::Symbol(idx),
            TokenKind::NumTok => GridSlot::Number(idx),
        }
    } else {
        slot_of(toks, k - 1, x, y)
    }
}

/// The symbols among the first `k` tokens.
pub open spec fn symbol_list(t: Seq<u8>, toks: Seq<Token>, k: int) -> Seq<Symbol>
    decreases k,
{
    if k <= 0 {
        Seq::<Symbol>::empty()
    } else if toks[k - 1].kind == TokenKind::SymTok {
        symbol_list(t, toks, k - 1).push(
            Symbol {
                idx: count_kind(toks, TokenKind::SymTok, k - 1) as usize,
                x: toks[k - 1].x,
                y: toks[k - 1].y,
                char: t[toks[k - 1].from as int] as char,
            },
        )
    } else {
        symbol_list(t, toks, k - 1)
    }
}

/// The value of a number token.
pub open spec fn value_of(t: Seq<u8>, tok: Token) -> Option<nat> {
    unsigned_value(t.subrange(tok.from as int, tok.to as int), u32::MAX as nat)
}

/// The numbers among the first `k` tokens.
pub open spec fn number_list(t: Seq<u8>, toks: Seq<Token>, k: int) -> Seq<Number>
    decreases k,
{
    if k <= 0 {
        Seq::<Number>::empty()
    } else if toks[k - 1].kind == TokenKind::NumTok {
        number_list(t, toks, k - 1).push(
            Number {
                idx: count_kind(toks, TokenKind::NumTok, k - 1) as usize,
                val: value_of(t, toks[k - 1]).unwrap() as u32,
            },
        )
    } else {
        number_list(t, toks, k - 1)
    }
}

/// What is wrong with a token on a grid of the given size: it does not lie
/// on the grid, or it is a number too large.
pub open spec fn token_fault(t: Seq<u8>, tok: Token, n: int) -> Option<InputError> {
    if tok.y >= n || tok.x >= n || tok.to - tok.from > n - tok.x {
        Some(InputError::Syntax)
    } else if tok.kind == TokenKind::NumTok && value_of(t, tok) is None {
        Some(InputError::Number)
    } else {
        None
    }
}

/// What is wrong with the first token, from the token `k` on, with which
/// something is wrong.
pub open spec fn fault(t: Seq<u8>, toks: Seq<Token>, n: int, k: int) -> Option<InputError>
    decreases toks.len() - k,
{
    if k < 0 || k >= toks.len() {
        None
    } else {
        match token_fault(t, toks[k], n) {
            Some(e) => Some(e),
            None => fault(t, toks, n, k + 1),
        }
    }
}

/// What is wrong with a text, if anything: it has no line feed, its first
/// line is empty or too long for a grid, or one of its tokens is at fault.
pub open spec fn text_fault(t: Seq<u8>) -> Option<InputError> {
    match first_line_feed(t, 0) {
        None => Some(InputError::Syntax),
        Some(n) => if n < 1 || n * n > isize::MAX {
            Some(InputError::Syntax)
        } else {
            fault(t, tokens(t), n, 0)
        },
    }
}

/// What a place holds, from the two numbers kept for it.
pub open spec fn decode(kind: u8, index: u64) -> GridSlot {
    if kind == 1 {
        GridSlot::Symbol(index as usize)
    } else if kind == 2 {
        GridSlot::Number(index as usize)
    } else {
        GridSlot::Empty
    }
}

/// The `k`-th place of the nine in and around the place (`x`, `y`).
pub open spec fn place_near(x: int, y: int, k: int) -> (int, int) {
    (x + k % 3 - 1, y + k / 3 - 1)
}

/// The counts of the kinds are within the number of tokens counted.
pub proof fn lemma_count_kind(toks: Seq<Token>, kind: TokenKind, k: int)
    requires
        0 <= k,
    ensures
        0 <= count_kind(toks, kind, k) <= k,
    decreases k,
{
    if k > 0 {
        lemma_count_kind(toks, kind, k - 1);
    }
}

/// The lists are as long as the counts say.
pub proof fn lemma_list_lengths(t: Seq<u8>, toks: Seq<Token>, k: int)
    requires
        0 <= k,
    ensures
        symbol_list(t, toks, k).len() == count_kind(toks, TokenKind::SymTok, k),
        number_list(t, toks, k).len() == count_kind(toks, TokenKind::NumTok, k),
    decreases k,
{
    if k > 0 {
        lemma_list_lengths(t, toks, k - 1);
    }
}

/// A place that holds a number holds one of the numbers counted.
pub proof fn lemma_slot_index(toks: Seq<Token>, k: int, x: int, y: int)
    requires
        0 <= k <= usize::MAX,
    ensures
        match slot_of(toks, k, x, y) {
            GridSlot::Empty => true,
            GridSlot::Symbol(i) => i < count_kind(toks, TokenKind::SymTok, k),
            GridSlot::Number(i) => i < count_kind(toks, TokenKind::NumTok, k),
        },
    decreases k,
{
    if k > 0 {
        lemma_count_kind(toks, TokenKind::SymTok, k - 1);
        lemma_count_kind(toks, TokenKind::NumTok, k - 1);
        lemma_slot_index(toks, k - 1, x, y);
    }
}

impl Schematic {
    /// The text from which the schematic was read.
    pub closed spec fn text(&self) -> Seq<u8> {
        self.text@
    }

    /// The width and height of the grid.
    pub closed spec fn size(&self) -> int {
        self.size as int
    }

    /// What the place in column `x` of line `y` holds.
    pub open spec fn slot_at(&self, x: int, y: int) -> GridSlot {
        slot_of(tokens(self.text()), tokens(self.text()).len() as int, x, y)
    }

    /// The symbols, in the order of the text.
    pub open spec fn symbol_seq(&self) -> Seq<Symbol> {
        symbol_list(self.text(), tokens(self.text()), tokens(self.text()).len() as int)
    }

    /// The numbers, in the order of the text.
    pub open spec fn number_seq(&self) -> Seq<Number> {
        number_list(self.text(), tokens(self.text()), tokens(self.text()).len() as int)
    }

    /// The grid, the symbols and the numbers are those of the text.
    pub closed spec fn wf(&self) -> bool {
        &&& self.size >= 1
        &&& Some(self.size as int) == first_line_feed(self.text@, 0)
        &&& tokens(self.text@).len() <= usize::MAX
        &&& self.kinds@.len() == self.size
        &&& self.indexes@.len() == self.size
        &&& forall|y: int| 0 <= y < self.size ==> (#[trigger] self.kinds@[y]).len() == self.size
        &&& forall|y: int| 0 <= y < self.size ==> (#[trigger] self.indexes@[y]).len() == self.size
        &&& forall|x: int, y: int|
            0 <= x < self.size && 0 <= y < self.size ==> decode(
                #[trigger] self.kinds@[y][x],
                self.indexes@[y][x],
            ) == self.slot_at(x, y)
        &&& self.symbols@ == self.symbol_seq()
        &&& self.numbers@ == self.number_seq()
    }

    /// Reads a schematic. The text must have a line feed; the grid is as wide
    /// and as high as the first line is long, and every token must lie on it.
    pub fn from_bytes(text: &[u8]) -> (r: Result<Schematic, InputError>)
        ensures
            match r {
                Ok(s) => text_fault(text@) is None && s.wf() && s.text() == text@,
                Err(e) => text_fault(text@) == Some(e),
            },
    {
        let ghost t = text@;
        let mut tk = match Tokenizer::new(text) {
            Some(tk) => tk,
            None => {
                return Err(InputError::Syntax);
            },
        };
        let n = tk.line_len();
        if n == 0 {
            return Err(InputError::Syntax);
        }
        match n.checked_mul(n) {
            None => {
                return Err(InputError::Syntax);
            },
            Some(cells) => {
                if cells > isize::MAX as usize {
                    return Err(InputError::Syntax);
                }
            },
        }
        let ghost toks = tokens(t);
        let mut kinds = ByteGrid::from_elem(n, n, 0);
        let mut indexes = CountGrid::zeros(n, n);
        let mut symbols: Vec<Symbol> = Vec::new();
        let mut numbers: Vec<Number> = Vec::new();
        let ghost mut k: int = 0;
        proof {
            assert(toks.skip(0) =~= toks);
            assert(t.len() == text.len());
            lemma_tokens_len(t, 0, 0, 0);
        }
        loop
            invariant_except_break
                tk.wf(),
                tk.text() == t,
                t == text@,
                toks == tokens(t),
                0 <= k <= toks.len(),
                toks.skip(k) == tk.rest(),
            invariant
                n >= 1,
                Some(n as int) == first_line_feed(t, 0),
                n * n <= isize::MAX,
                t == text@,
                toks == tokens(t),
                0 <= k <= toks.len(),
                toks.len() <= usize::MAX,
                fault(t, toks, n as int, 0) == fault(t, toks, n as int, k),
                symbols@ == symbol_list(t, toks, k),
                numbers@ == number_list(t, toks, k),
                kinds@.len() == n,
                indexes@.len() == n,
                forall|y: int| 0 <= y < n ==> (#[trigger] kinds@[y]).len() == n,
                forall|y: int| 0 <= y < n ==> (#[trigger] indexes@[y]).len() == n,
                forall|x: int, y: int|
                    0 <= x < n && 0 <= y < n ==> decode(#[trigger] kinds@[y][x], indexes@[y][x])
                        == slot_of(toks, k, x, y),
            ensures
                k == toks.len(),
            decreases toks.len() - k,
        {
            let token = match tk.next() {
                Some(token) => token,
                None => {
                    proof {
                        assert(toks.skip(k).len() == 0);
                    }
                    break ;
                },
            };
            proof {
                assert(toks.skip(k)[0] == token);
                assert(toks[k] == token);
                assert(toks.skip(k + 1) =~= toks.skip(k).skip(1));
                assert(toks.skip(k).skip(1) =~= tk.rest());
                lemma_list_lengths(t, toks, k);
                lemma_count_kind(toks, TokenKind::SymTok, k);
                lemma_count_kind(toks, TokenKind::NumTok, k);
                assert(symbols@.len() <= k);
                assert(numbers@.len() <= k);
            }
            if token.y >= n || token.x >= n || token.to - token.from > n - token.x {
                return Err(InputError::Syntax);
            }
            match token.kind {
                TokenKind::SymTok => {
                    let idx = symbols.len();
                    symbols.push(
                        Symbol { idx, x: token.x, y: token.y, char: text[token.from] as char },
                    );
                    kinds.set(token.y, token.x, 1);
                    indexes.set(token.y, token.x, idx as u64);
                    proof {
                        assert forall|x: int, y: int| 0 <= x < n && 0 <= y < n implies decode(
                            #[trigger] kinds@[y][x],
                            indexes@[y][x],
                        ) == slot_of(toks, k + 1, x, y) by {
                            if covers(token, x, y) {
                                assert(x == token.x && y == token.y);
                            }
                        }
                    }
                },
                TokenKind::NumTok => {
                    let val = match parse_unsigned(text, token.from, token.to, 0xffff_ffff) {
                        Some(v) => v as u32,
                        None => {
                            return Err(InputError::Number);
                        },
                    };
                    let idx = numbers.len();
                    numbers.push(Number { idx, val });
                    let end = token.x + (token.to - token.from);
                    let mut x: usize = token.x;
                    while x < end
                        invariant
                            token.x <= x <= end <= n,
                            token.y < n,
                            end == token.x + (token.to - token.from),
                            kinds@.len() == n,
                            indexes@.len() == n,
                            forall|y: int| 0 <= y < n ==> (#[trigger] kinds@[y]).len() == n,
                            forall|y: int| 0 <= y < n ==> (#[trigger] indexes@[y]).len() == n,
                            forall|cx: int, cy: int|
                                0 <= cx < n && 0 <= cy < n ==> decode(
                                    #[trigger] kinds@[cy][cx],
                                    indexes@[cy][cx],
                                ) == (if cy == token.y && token.x <= cx < x {
                                    GridSlot::Number(idx)
                                } else {
                                    slot_of(toks, k, cx, cy)
                                }),
                        decreases end - x,
                    {
                        kinds.set(token.y, x, 2);
                        indexes.set(token.y, x, idx as u64);
                        x += 1;
                    }
                },
            }
            proof {
                k = k + 1;
            }
        }
        proof {
            lemma_list_lengths(t, toks, k);
        }
        Ok(Schematic { size: n, kinds, indexes, symbols, numbers, text: Ghost(t) })
    }

    /// Reads a schematic.
    pub fn new(text: &str) -> (r: Result<Schematic, InputError>)
        ensures
            match r {
                Ok(s) => text_fault(text.spec_bytes()) is None && s.wf() && s.text()
                    == text.spec_bytes(),
                Err(e) => text_fault(text.spec_bytes()) == Some(e),
            },
    {
        Schematic::from_bytes(text.as_bytes())
    }

    /// The width and height of the grid.
    pub fn side(&self) -> (n: usize)
        requires
            self.wf(),
        ensures
            n == self.size(),
    {
        self.size
    }

    /// What the place in column `x` of line `y` holds; `None` outside the
    /// grid.
    pub fn grid(&self, x: usize, y: usize) -> (r: Option<GridSlot>)
        requires
            self.wf(),
        ensures
            r == if x < self.size() && y < self.size() {
                Some(self.slot_at(x as int, y as int))
            } else {
                None
            },
    {
        if x >= self.size || y >= self.size {
            return None;
        }
        let kind = self.kinds.get(y, x);
        let index = self.indexes.get(y, x);
        proof {
            assert(decode(self.kinds@[y as int][x as int], self.indexes@[y as int][x as int])
                == self.slot_at(x as int, y as int));
        }
        if kind == 1 {
            Some(GridSlot::Symbol(index as usize))
        } else if kind == 2 {
            Some(GridSlot::Number(index as usize))
        } else {
            Some(GridSlot::Empty)
        }
    }

    /// The symbols, in the order of the text.
    pub fn symbols(&self) -> (r: &Vec<Symbol>)
        requires
            self.wf(),
        ensures
            r@ == self.symbol_seq(),
    {
        &self.symbols
    }

    /// The numbers, in the order of the text.
    pub fn numbers(&self) -> (r: &Vec<Number>)
        requires
            self.wf(),
        ensures
            r@ == self.number_seq(),
    {
        &self.numbers
    }

    /// Whether the `k`-th of the nine places in and around symbol `s` holds a
    /// digit of number `i`.
    pub open spec fn hit(&self, s: int, k: int, i: int) -> bool {
        let sym = self.symbol_seq()[s];
        let p = place_near(sym.x as int, sym.y as int, k);
        0 <= p.0 < self.size() && 0 <= p.1 < self.size() && self.slot_at(p.0, p.1)
            == GridSlot::Number(i as usize)
    }

    /// Whether number `i` touches symbol `s`.
    pub open spec fn touches(&self, s: int, i: int) -> bool {
        exists|k: int| 0 <= k < 9 && self.hit(s, k, i)
    }

    /// Whether number `i` touches a symbol.
    pub open spec fn is_part(&self, i: int) -> bool {
        exists|s: int| 0 <= s < self.symbol_seq().len() && #[trigger] self.touches(s, i)
    }

    /// Whether the numbers `i` and `j`, and no others, touch symbol `s`.
    pub open spec fn is_pair(&self, s: int, i: int, j: int) -> bool {
        &&& 0 <= i < j < self.number_seq().len()
        &&& self.touches(s, i)
        &&& self.touches(s, j)
        &&& forall|m: int|
            0 <= m < self.number_seq().len() && #[trigger] self.touches(s, m) ==> m == i || m == j
    }

    /// The product of the two numbers that touch symbol `s`, where exactly two
    /// do; else zero.
    pub open spec fn gear_ratio(&self, s: int) -> int {
        if exists|i: int, j: int| self.is_pair(s, i, j) {
            let p = choose|p: (int, int)| self.is_pair(s, p.0, p.1);
            self.number_seq()[p.0].val * self.number_seq()[p.1].val
        } else {
            0
        }
    }

    /// The sum of the products for the first `k` symbols.
    pub open spec fn gear_sum(&self, k: int) -> int
        decreases k,
    {
        if k <= 0 {
            0
        } else {
            self.gear_sum(k - 1) + self.gear_ratio(k - 1)
        }
    }

    /// The sum for the first symbols is no more than the sum for more of
    /// them.
    pub proof fn lemma_gear_sum_grows(&self, k: int, m: int)
        requires
            0 <= k <= m,
        ensures
            0 <= self.gear_sum(k) <= self.gear_sum(m),
        decreases m,
    {
        if m > 0 {
            let z = m - 1;
            assert(self.gear_ratio(z) >= 0) by {
                if exists|i: int, j: int| self.is_pair(z, i, j) {
                    let p = choose|p: (int, int)| self.is_pair(z, p.0, p.1);
                    assert(self.number_seq()[p.0].val * self.number_seq()[p.1].val >= 0)
                        by (nonlinear_arith)
                        requires
                            self.number_seq()[p.0].val >= 0,
                            self.number_seq()[p.1].val >= 0,
                    ;
                }
            }
            if k < m {
                self.lemma_gear_sum_grows(k, m - 1);
            } else {
                self.lemma_gear_sum_grows(k - 1, m - 1);
            }
        }
    }

    /// The number of which a digit stands on the `k`-th of the nine places in
    /// and around symbol `s`, if there is one.
    pub fn number_near(&self, s: usize, k: usize) -> (r: Option<usize>)
        requires
            self.wf(),
            s < self.symbol_seq().len(),
            k < 9,
        ensures
            match r {
                Some(j) => j < self.number_seq().len() && self.hit(s as int, k as int, j as int),
                None => true,
            },
            forall|i: int|
                0 <= i < self.number_seq().len() && r != Some(i as usize) ==> !self.hit(
                    s as int,
                    k as int,
                    i,
                ),
    {
        let sym = self.symbols[s];
        let dx = k % 3;
        let dy = k / 3;
        if (dx == 0 && sym.x == 0) || (dy == 0 && sym.y == 0) {
            return None;
        }
        if (dx == 2 && sym.x == usize::MAX) || (dy == 2 && sym.y == usize::MAX) {
            return None;
        }
        let x = if dx == 0 {
            sym.x - 1
        } else if dx == 1 {
            sym.x
        } else {
            sym.x + 1
        };
        let y = if dy == 0 {
            sym.y - 1
        } else if dy == 1 {
            sym.y
        } else {
            sym.y + 1
        };
        proof {
            let toks = tokens(self.text());
            lemma_slot_index(toks, toks.len() as int, x as int, y as int);
            lemma_list_lengths(self.text(), toks, toks.len() as int);
        }
        match self.grid(x, y) {
            Some(GridSlot::Number(j)) => Some(j),
            _ => None,
        }
    }

    /// For each number, whether it touches a symbol.
    pub fn select_part_number_idxs(&self) -> (r: Vec<bool>)
        requires
            self.wf(),
        ensures
            r@.len() == self.number_seq().len(),
            forall|i: int| 0 <= i < r@.len() ==> (#[trigger] r@[i]) == self.is_part(i),
    {
        let n = self.numbers.len();
        let mut selected: Vec<bool> = Vec::new();
        let mut i: usize = 0;
        while i < n
            invariant
                i <= n,
                selected.len() == i,
                forall|j: int| 0 <= j < i ==> !(#[trigger] selected@[j]),
            decreases n - i,
        {
            selected.push(false);
            i += 1;
        }
        let mut s: usize = 0;
        while s < self.symbols.len()
            invariant
                self.wf(),
                s <= self.symbols.len(),
                n == self.number_seq().len(),
                selected.len() == n,
                forall|i: int|
                    0 <= i < n ==> (#[trigger] selected@[i]) == (exists|z: int|
                        0 <= z < s && #[trigger] self.touches(z, i)),
            decreases self.symbols.len() - s,
        {
            let mut k: usize = 0;
            while k < 9
                invariant
                    self.wf(),
                    s < self.symbols.len(),
                    k <= 9,
                    n == self.number_seq().len(),
                    selected.len() == n,
                    forall|i: int|
                        0 <= i < n ==> (#[trigger] selected@[i]) == ((exists|z: int|
                            0 <= z < s && #[trigger] self.touches(z, i)) || (exists|q: int|
                            0 <= q < k && #[trigger] self.hit(s as int, q, i))),
                decreases 9 - k,
            {
                let ghost before = selected@;
                match self.number_near(s, k) {
                    Some(j) => {
                        selected.set(j, true);
                    },
                    None => {},
                }
                proof {
                    assert forall|i: int| 0 <= i < n implies (#[trigger] selected@[i]) == ((exists|
                        z: int,
                    |
                        0 <= z < s && #[trigger] self.touches(z, i)) || (exists|q: int|
                        0 <= q < k + 1 && #[trigger] self.hit(s as int, q, i))) by {
                        if self.hit(s as int, k as int, i) {
                            assert(selected@[i]);
                        } else {
                            assert(selected@[i] == before[i]);
                            if exists|q: int| 0 <= q < k + 1 && #[trigger] self.hit(s as int, q, i) {
                                let q = choose|q: int|
                                    0 <= q < k + 1 && #[trigger] self.hit(s as int, q, i);
                                assert(q < k);
                            }
                        }
                    }
                }
                k += 1;
            }
            proof {
                assert forall|i: int| 0 <= i < n implies (#[trigger] selected@[i]) == (exists|z: int|
                    0 <= z < s + 1 && #[trigger] self.touches(z, i)) by {
                    if selected@[i] {
                        if exists|z: int| 0 <= z < s && #[trigger] self.touches(z, i) {
                            let z = choose|z: int| 0 <= z < s && #[trigger] self.touches(z, i);
                            assert(0 <= z < s + 1 && self.touches(z, i));
                        } else {
                            let q = choose|q: int|
                                0 <= q < 9 && #[trigger] self.hit(s as int, q, i);
                            assert(self.touches(s as int, i));
                        }
                    } else {
                        if exists|z: int| 0 <= z < s + 1 && #[trigger] self.touches(z, i) {
                            let z = choose|z: int| 0 <= z < s + 1 && #[trigger] self.touches(z, i);
                            if z == s {
                                let q = choose|q: int| 0 <= q < 9 && self.hit(s as int, q, i);
                                assert(self.hit(s as int, q, i));
                            }
                        }
                    }
                }
            }
            s += 1;
        }
        selected
    }

    /// The numbers that touch symbol `s`, each once.
    pub fn numbers_around(&self, s: usize) -> (r: Vec<usize>)
        requires
            self.wf(),
            s < self.symbol_seq().len(),
        ensures
            r@.no_duplicates(),
            forall|m: int| 0 <= m < r@.len() ==> (#[trigger] r@[m]) < self.number_seq().len(),
            forall|j: usize|
                j < self.number_seq().len() ==> #[trigger] r@.contains(j) == self.touches(
                    s as int,
                    j as int,
                ),
    {
        let mut near: Vec<usize> = Vec::new();
        let mut k: usize = 0;
        while k < 9
            invariant
                self.wf(),
                s < self.symbol_seq().len(),
                k <= 9,
                near@.no_duplicates(),
                forall|m: int| 0 <= m < near@.len() ==> (#[trigger] near@[m]) < self.number_seq().len(),
                forall|j: usize|
                    j < self.number_seq().len() ==> #[trigger] near@.contains(j) == (exists|q: int|
                        0 <= q < k && #[trigger] self.hit(s as int, q, j as int)),
            decreases 9 - k,
        {
            let ghost before = near@;
            match self.number_near(s, k) {
                Some(j) => {
                    let mut known = false;
                    let mut m: usize = 0;
                    while m < near.len()
                        invariant
                            m <= near.len(),
                            known == (exists|z: int| 0 <= z < m && near@[z] == j),
                        decreases near.len() - m,
                    {
                        if near[m] == j {
                            known = true;
                        }
                        m += 1;
                    }
                    if !known {
                        near.push(j);
                        proof {
                            assert forall|a: int, b: int|
                                0 <= a < near@.len() && 0 <= b < near@.len() && a != b implies near@[a]
                                != near@[b] by {
                                if a < before.len() && b < before.len() {
                                    assert(before[a] != before[b]);
                                }
                            }
                        }
                    }
                },
                None => {},
            }
            proof {
                assert forall|j: usize| j < self.number_seq().len() implies #[trigger] near@.contains(
                    j,
                ) == (exists|q: int| 0 <= q < k + 1 && #[trigger] self.hit(s as int, q, j as int)) by {
                    let i = j as int;
                    if self.hit(s as int, k as int, i) {
                        if near@.len() > before.len() {
                            assert(near@[before.len() as int] == j);
                        } else {
                            let z = choose|z: int| 0 <= z < before.len() && before[z] == j;
                            assert(near@[z] == j);
                        }
                    } else {
                        if near@.contains(j) {
                            let z = choose|z: int| 0 <= z < near@.len() && near@[z] == j;
                            assert(z < before.len());
                            assert(before[z] == j);
                            assert(before.contains(j));
                            let q = choose|q: int| 0 <= q < k && #[trigger] self.hit(s as int, q, i);
                            assert(0 <= q < k + 1 && self.hit(s as int, q, i));
                        }
                        if exists|q: int| 0 <= q < k + 1 && #[trigger] self.hit(s as int, q, i) {
                            let q = choose|q: int|
                                0 <= q < k + 1 && #[trigger] self.hit(s as int, q, i);
                            assert(q < k);
                            assert(before.contains(j));
                            let z = choose|z: int| 0 <= z < before.len() && before[z] == j;
                            assert(near@[z] == j);
                        }
                    }
                }
            }
            k += 1;
        }
        near
    }

    /// The sum, over the symbols that exactly two numbers touch, of the
    /// product of the two.
    pub fn total_gear_ratio(&self) -> (r: u32)
        requires
            self.wf(),
            self.gear_sum(self.symbol_seq().len() as int) <= u32::MAX,
        ensures
            r == self.gear_sum(self.symbol_seq().len() as int),
    {
        let mut total: u64 = 0;
        let mut s: usize = 0;
        let n = self.symbols.len();
        while s < n
            invariant
                self.wf(),
                s <= n,
                n == self.symbol_seq().len(),
                total == self.gear_sum(s as int),
                self.gear_sum(n as int) <= u32::MAX,
            decreases n - s,
        {
            let near = self.numbers_around(s);
            let count = self.numbers.len();
            proof {
                assert(self.number_seq().len() == count);
                self.lemma_gear_sum_grows(s as int, n as int);
                self.lemma_gear_sum_grows(s + 1, n as int);
            }
            if near.len() == 2 {
                let a = near[0];
                let b = near[1];
                let ghost lo = if a < b {
                    a as int
                } else {
                    b as int
                };
                let ghost hi = if a < b {
                    b as int
                } else {
                    a as int
                };
                proof {
                    assert(near@.contains(a) && near@.contains(b));
                    assert(a != b);
                    assert forall|m: int|
                        0 <= m < self.number_seq().len() && #[trigger] self.touches(
                            s as int,
                            m,
                        ) implies m == lo || m == hi by {
                        assert(near@.contains(m as usize));
                        let z = choose|z: int| 0 <= z < near@.len() && near@[z] == m as usize;
                        assert(z == 0 || z == 1);
                    }
                    assert(self.is_pair(s as int, lo, hi));
                    let p = choose|p: (int, int)| self.is_pair(s as int, p.0, p.1);
                    assert(self.is_pair(s as int, (lo, hi).0, (lo, hi).1));
                    assert(p.0 == lo && p.1 == hi);
                    assert(self.number_seq()[lo].val * self.number_seq()[hi].val
                        == self.number_seq()[a as int].val * self.number_seq()[b as int].val)
                        by (nonlinear_arith)
                        requires
                            (lo == a && hi == b) || (lo == b && hi == a),
                    ;
                }
                let va = self.numbers[a].val as u64;
                let vb = self.numbers[b].val as u64;
                proof {
                    assert(va * vb <= u32::MAX * u32::MAX) by (nonlinear_arith)
                        requires
                            va <= u32::MAX,
                            vb <= u32::MAX,
                    ;
                }
                total = total + va * vb;
            } else {
                proof {
                    if exists|i: int, j: int| self.is_pair(s as int, i, j) {
                        let (i, j) = choose|i: int, j: int| self.is_pair(s as int, i, j);
                        assert(near@.contains(i as usize) && near@.contains(j as usize));
                        let zi = choose|z: int| 0 <= z < near@.len() && near@[z] == i as usize;
                        let zj = choose|z: int| 0 <= z < near@.len() && near@[z] == j as usize;
                        assert(zi != zj);
                        assert(near@.len() >= 3);
                        assert(self.touches(s as int, near@[0] as int)) by {
                            assert(near@.contains(near@[0]));
                        }
                        assert(self.touches(s as int, near@[1] as int)) by {
                            assert(near@.contains(near@[1]));
                        }
                        assert(self.touches(s as int, near@[2] as int)) by {
                            assert(near@.contains(near@[2]));
                        }
                        assert(false);
                    }
                }
            }
            s += 1;
        }
        total as u32
    }
}

} // verus!
