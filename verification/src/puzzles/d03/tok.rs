//! The tokens of a schematic: numbers and symbols, each with its place.
use crate::text::{is_digit, LINE_FEED};
use vstd::prelude::*;

verus! {

/// The byte that stands for an empty place.
pub const PERIOD: u8 = 46;

/// What a token is.
#[derive(Clone, Copy, Debug, PartialEq, Eq)]
pub enum TokenKind {
    SymTok,
    NumTok,
}

/// A token: its kind, the column and the line at which it starts, and the
/// span of the text that it covers.
#[derive(Clone, Copy, Debug)]
pub struct Token {
    pub kind: TokenKind,
    pub x: usize,
    pub y: usize,
    pub from: usize,
    pub to: usize,
}

/// Cuts a text into its tokens, one at each call of `next`.
pub struct Tokenizer<'a> {
    txt: &'a [u8],
    line_len: usize,
    pos: usize,
    x: usize,
    y: usize,
}

/// Where the run of digits that starts at `pos` ends.
pub open spec fn digits_end(t: Seq<u8>, pos: int) -> int
    decreases t.len() - pos,
{
    if 0 <= pos < t.len() && is_digit(t[pos]) {
        digits_end(t, pos + 1)
    } else {
        pos
    }
}

/// The first token at or after `pos`, where `pos` is in column `x` of line
/// `y`: periods and line feeds are passed over, a run of digits is a number,
/// and any other byte is a symbol.
pub open spec fn next_token(t: Seq<u8>, pos: int, x: int, y: int) -> Option<Token>
    decreases t.len() - pos,
{
    if pos < 0 || pos >= t.len() {
        None
    } else if t[pos] == PERIOD {
        next_token(t, pos + 1, x + 1, y)
    } else if t[pos] == LINE_FEED {
        next_token(t, pos + 1, 0, y + 1)
    } else if is_digit(t[pos]) {
        Some(
            Token {
                kind: TokenKind::NumTok,
                x: x as usize,
                y: y as usize,
                from: pos as usize,
                to: digits_end(t, pos) as usize,
            },
        )
    } else {
        Some(
            Token {
                kind: TokenKind::SymTok,
                x: x as usize,
                y: y as usize,
                from: pos as usize,
                to: (pos + 1) as usize,
            },
        )
    }
}

/// The tokens at or after `pos`, in order.
pub open spec fn tokens_from(t: Seq<u8>, pos: int, x: int, y: int) -> Seq<Token>
    decreases t.len() - pos,
{
    match next_token(t, pos, x, y) {
        None => Seq::<Token>::empty(),
        Some(tok) => if pos < tok.to <= t.len() {
            seq![tok] + tokens_from(t, tok.to as int, tok.x + (tok.to - tok.from), tok.y as int)
        } else {
            Seq::<Token>::empty()
        },
    }
}

/// The tokens of a text.
pub open spec fn tokens(t: Seq<u8>) -> Seq<Token> {
    tokens_from(t, 0, 0, 0)
}

/// The length of the first line: the place of the first line feed.
pub open spec fn first_line_feed(t: Seq<u8>, k: int) -> Option<int>
    decreases t.len() - k,
{
    if k < 0 || k >= t.len() {
        None
    } else if t[k] == LINE_FEED {
        Some(k)
    } else {
        first_line_feed(t, k + 1)
    }
}

/// A run of digits ends after its start and within the text.
pub proof fn lemma_digits_end(t: Seq<u8>, pos: int)
    requires
        0 <= pos <= t.len(),
    ensures
        pos <= digits_end(t, pos) <= t.len(),
        pos < t.len() && is_digit(t[pos]) ==> pos < digits_end(t, pos),
        forall|i: int| pos <= i < digits_end(t, pos) ==> is_digit(#[trigger] t[i]),
    decreases t.len() - pos,
{
    if pos < t.len() && is_digit(t[pos]) {
        lemma_digits_end(t, pos + 1);
    }
}

/// A token lies at or after the place from which it was looked for, within
/// the text, and is not empty; its column and line are no greater than that
/// place reached with the columns and lines passed.
pub proof fn lemma_next_token(t: Seq<u8>, pos: int, x: int, y: int)
    requires
        0 <= pos <= t.len(),
        0 <= x <= pos,
        0 <= y <= pos,
        t.len() <= usize::MAX,
    ensures
        match next_token(t, pos, x, y) {
            None => true,
            Some(tok) => pos <= tok.from < tok.to <= t.len() && tok.x <= tok.from && tok.y
                <= tok.from && (tok.kind == TokenKind::NumTok ==> tok.to == digits_end(
                t,
                tok.from as int,
            ) && is_digit(t[tok.from as int])) && (tok.kind == TokenKind::SymTok ==> tok.to
                == tok.from + 1),
        },
    decreases t.len() - pos,
{
    if pos < t.len() {
        if t[pos] == PERIOD {
            lemma_next_token(t, pos + 1, x + 1, y);
        } else if t[pos] == LINE_FEED {
            lemma_next_token(t, pos + 1, 0, y + 1);
        } else if is_digit(t[pos]) {
            lemma_digits_end(t, pos);
        }
    }
}

/// There are no more tokens than bytes.
pub proof fn lemma_tokens_len(t: Seq<u8>, pos: int, x: int, y: int)
    requires
        0 <= pos <= t.len(),
        0 <= x <= pos,
        0 <= y <= pos,
        t.len() <= usize::MAX,
    ensures
        tokens_from(t, pos, x, y).len() <= t.len() - pos,
    decreases t.len() - pos,
{
    lemma_next_token(t, pos, x, y);
    match next_token(t, pos, x, y) {
        None => {},
        Some(tok) => {
            lemma_tokens_len(t, tok.to as int, tok.x + (tok.to - tok.from), tok.y as int);
        },
    }
}

impl<'a> Tokenizer<'a> {
    /// The text that is cut.
    pub closed spec fn text(&self) -> Seq<u8> {
        self.txt@
    }

    /// The tokens that are still to come.
    pub closed spec fn rest(&self) -> Seq<Token> {
        tokens_from(self.txt@, self.pos as int, self.x as int, self.y as int)
    }

    /// The place in the text is in the text, and its column and line are no
    /// greater than it.
    pub closed spec fn wf(&self) -> bool {
        self.pos <= self.txt@.len() && self.x <= self.pos && self.y <= self.pos
    }

    /// The length of the first line, as `new` found it.
    pub closed spec fn first_line(&self) -> int {
        self.line_len as int
    }

    /// A tokenizer at the start of the text; `None` where the text has no line
    /// feed.
    pub fn new(txt: &'a [u8]) -> (r: Option<Tokenizer<'a>>)
        ensures
            r is Some <==> first_line_feed(txt@, 0) is Some,
            r is Some ==> {
                let tk = r->Some_0;
                &&& tk.wf()
                &&& tk.text() == txt@
                &&& tk.rest() == tokens(txt@)
                &&& Some(tk.first_line()) == first_line_feed(txt@, 0)
            },
    {
        let mut k: usize = 0;
        while k < txt.len() && txt[k] != LINE_FEED
            invariant
                k <= txt.len(),
                first_line_feed(txt@, 0) == first_line_feed(txt@, k as int),
            decreases txt.len() - k,
        {
            k += 1;
        }
        if k == txt.len() {
            return None;
        }
        Some(Tokenizer { txt, line_len: k, pos: 0, x: 0, y: 0 })
    }

    /// The length of the first line.
    pub fn line_len(&self) -> (n: usize)
        ensures
            n == self.first_line(),
    {
        self.line_len
    }

    /// The next token, if there is one; after it, what is still to come is
    /// what was to come but for that token.
    pub fn next(&mut self) -> (r: Option<Token>)
        requires
            old(self).wf(),
        ensures
            final(self).wf(),
            final(self).text() == old(self).text(),
            final(self).first_line() == old(self).first_line(),
            match r {
                None => old(self).rest().len() == 0 && final(self).rest().len() == 0,
                Some(tok) => old(self).rest() == seq![tok] + final(self).rest() && tok.from < tok.to
                    <= final(self).text().len() && (tok.kind == TokenKind::SymTok ==> tok.to
                    == tok.from + 1),
            },
    {
        let ghost t = self.txt@;
        let ghost start = (self.pos as int, self.x as int, self.y as int);
        while self.pos < self.txt.len() && (self.txt[self.pos] == PERIOD || self.txt[self.pos]
            == LINE_FEED)
            invariant
                self.wf(),
                self.txt@ == t,
                self.line_len == old(self).line_len,
                start.0 <= self.pos,
                next_token(t, start.0, start.1, start.2) == next_token(
                    t,
                    self.pos as int,
                    self.x as int,
                    self.y as int,
                ),
            decreases self.txt.len() - self.pos,
        {
            if self.txt[self.pos] == PERIOD {
                self.x += 1;
            } else {
                self.y += 1;
                self.x = 0;
            }
            self.pos += 1;
        }
        if self.pos >= self.txt.len() {
            return None;
        }
        let from = self.pos;
        let tok = if self.txt[from] >= 48 && self.txt[from] <= 57 {
            let mut to: usize = from + 1;
            while to < self.txt.len() && self.txt[to] >= 48 && self.txt[to] <= 57
                invariant
                    from < to <= self.txt.len(),
                    self.txt@ == t,
                    digits_end(t, from as int) == digits_end(t, to as int),
                decreases self.txt.len() - to,
            {
                to += 1;
            }
            Token { kind: TokenKind::NumTok, x: self.x, y: self.y, from, to }
        } else {
            Token { kind: TokenKind::SymTok, x: self.x, y: self.y, from, to: from + 1 }
        };
        proof {
            assert(next_token(t, from as int, self.x as int, self.y as int) == Some(tok));
            assert(next_token(t, start.0, start.1, start.2) == Some(tok));
            assert(start.0 <= from);
            assert(old(self).rest() == seq![tok] + tokens_from(
                t,
                tok.to as int,
                tok.x + (tok.to - tok.from),
                tok.y as int,
            ));
        }
        self.pos = tok.to;
        self.x = self.x + (tok.to - tok.from);
        Some(tok)
    }
}

} // verus!
