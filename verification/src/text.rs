//! Reading puzzle input: lines, fields, words and numbers in a text of bytes.
//!
//! Pieces of a text are handed out as spans `(from, to)`: the bytes from place
//! `from` up to, not including, place `to`.
use vstd::prelude::*;

verus! {

/// Why a text could not be read.
#[derive(Clone, Copy, Debug, PartialEq, Eq, Structural)]
pub enum InputError {
    /// A part of the text, or a sign that parts it, is missing or is one too
    /// many.
    Syntax,
    /// What should be a number is not written as one, or is too large.
    Number,
    /// A number or a name is well written, but not one that may stand there.
    Value,
}

/// The byte that ends a line.
pub const LINE_FEED: u8 = 10;

/// The byte that may stand before a line feed.
pub const CARRIAGE_RETURN: u8 = 13;

/// Whether the byte is white space: a blank, a tab, a line feed, a vertical
/// tab, a form feed or a carriage return.
pub open spec fn is_space(b: u8) -> bool {
    b == 32 || (9 <= b <= 13)
}

/// Whether the byte is one of the digits `0` to `9`.
pub open spec fn is_digit(b: u8) -> bool {
    48 <= b <= 57
}

/// The fields of a text, read from left to right: a separator starts a new
/// field, and any other byte goes to the end of the last field.
pub open spec fn fields(t: Seq<u8>, sep: u8) -> Seq<Seq<u8>>
    decreases t.len(),
{
    if t.len() == 0 {
        seq![Seq::<u8>::empty()]
    } else {
        let before = fields(t.drop_last(), sep);
        if t.last() == sep {
            before.push(Seq::<u8>::empty())
        } else {
            before.drop_last().push(before.last().push(t.last()))
        }
    }
}

/// The words of a text, read from left to right: white space ends a word, and
/// any other byte goes to the end of the word that the byte before it belongs
/// to, or starts a new word.
pub open spec fn words(t: Seq<u8>) -> Seq<Seq<u8>>
    decreases t.len(),
{
    if t.len() == 0 {
        Seq::<Seq<u8>>::empty()
    } else {
        let before = words(t.drop_last());
        if is_space(t.last()) {
            before
        } else if t.len() >= 2 && !is_space(t[t.len() - 2]) {
            before.drop_last().push(before.last().push(t.last()))
        } else {
            before.push(seq![t.last()])
        }
    }
}

/// A line without the carriage return that may stand at its end.
pub open spec fn without_return(line: Seq<u8>) -> Seq<u8> {
    if line.len() > 0 && line.last() == CARRIAGE_RETURN {
        line.drop_last()
    } else {
        line
    }
}

/// The lines of a text: its fields between line feeds, each without a
/// carriage return at its end. What follows the last line feed is a line only
/// if it is not empty.
pub open spec fn lines(t: Seq<u8>) -> Seq<Seq<u8>> {
    let all = fields(t, LINE_FEED);
    let kept = if all.last().len() == 0 {
        all.drop_last()
    } else {
        all
    };
    Seq::new(kept.len(), |i: int| without_return(kept[i]))
}

/// The number that a run of digits stands for.
pub open spec fn decimal(digits: Seq<u8>) -> nat
    decreases digits.len(),
{
    if digits.len() == 0 {
        0
    } else {
        decimal(digits.drop_last()) * 10 + (digits.last() - 48) as nat
    }
}

/// Every byte is a digit, and there is at least one.
pub open spec fn is_number(t: Seq<u8>) -> bool {
    t.len() > 0 && forall|i: int| 0 <= i < t.len() ==> is_digit(#[trigger] t[i])
}

/// The number that a text stands for, as an unsigned number of at most `max`:
/// digits, with or without a plus sign before them.
pub open spec fn unsigned_value(t: Seq<u8>, max: nat) -> Option<nat> {
    let digits = if t.len() > 0 && t[0] == 43 {
        t.drop_first()
    } else {
        t
    };
    if is_number(digits) && decimal(digits) <= max {
        Some(decimal(digits))
    } else {
        None
    }
}

/// The number that a text stands for, as a signed number from `min` to `max`:
/// digits, with or without a plus or minus sign before them.
pub open spec fn signed_value(t: Seq<u8>, min: int, max: int) -> Option<int> {
    let negative = t.len() > 0 && t[0] == 45;
    let digits = if t.len() > 0 && (t[0] == 43 || t[0] == 45) {
        t.drop_first()
    } else {
        t
    };
    let value = if negative {
        -(decimal(digits) as int)
    } else {
        decimal(digits) as int
    };
    if is_number(digits) && min <= value <= max {
        Some(value)
    } else {
        None
    }
}

/// The spans are pieces of the text between `from` and `to`, and they hold
/// `pieces`, in that order.
pub open spec fn spans_hold(
    t: Seq<u8>,
    from: int,
    to: int,
    spans: Seq<(usize, usize)>,
    pieces: Seq<Seq<u8>>,
) -> bool {
    &&& spans.len() == pieces.len()
    &&& forall|i: int|
        0 <= i < spans.len() ==> from <= (#[trigger] spans[i]).0 <= spans[i].1 <= to && t.subrange(
            spans[i].0 as int,
            spans[i].1 as int,
        ) == pieces[i]
}

/// A number grows with its digits: more digits after the first that is not
/// zero make a number of at least ten times the size.
pub proof fn lemma_decimal_push(digits: Seq<u8>, d: u8)
    ensures
        decimal(digits.push(d)) == decimal(digits) * 10 + (d - 48) as nat,
{
    assert(digits.push(d).drop_last() =~= digits);
}

/// Splits the text between `from` and `to` at every byte `sep`.
pub fn split(text: &[u8], from: usize, to: usize, sep: u8) -> (r: Vec<(usize, usize)>)
    requires
        from <= to <= text.len(),
    ensures
        spans_hold(text@, from as int, to as int, r@, fields(text@.subrange(from as int, to as int), sep)),
        r.len() >= 1,
{
    let mut done: Vec<(usize, usize)> = Vec::new();
    let mut start = from;
    let mut pos = from;
    let ghost t = text@;
    while pos < to
        invariant
            from <= start <= pos <= to <= text.len(),
            t == text@,
            fields(t.subrange(from as int, pos as int), sep).len() == done.len() + 1,
            spans_hold(
                t,
                from as int,
                to as int,
                done@,
                fields(t.subrange(from as int, pos as int), sep).drop_last(),
            ),
            fields(t.subrange(from as int, pos as int), sep).last() == t.subrange(
                start as int,
                pos as int,
            ),
        decreases to - pos,
    {
        let ghost before = fields(t.subrange(from as int, pos as int), sep);
        let ghost now = fields(t.subrange(from as int, pos + 1), sep);
        proof {
            assert(t.subrange(from as int, pos + 1).drop_last() =~= t.subrange(
                from as int,
                pos as int,
            ));
        }
        if text[pos] == sep {
            done.push((start, pos));
            start = pos + 1;
            proof {
                assert(now =~= before.push(Seq::<u8>::empty()));
                assert(now.drop_last() =~= before);
                assert(t.subrange(start as int, pos + 1) =~= Seq::<u8>::empty());
            }
        } else {
            proof {
                assert(now =~= before.drop_last().push(before.last().push(t[pos as int])));
                assert(now.drop_last() =~= before.drop_last());
                assert(t.subrange(start as int, pos + 1) =~= before.last().push(t[pos as int]));
            }
        }
        pos += 1;
    }
    proof {
        let all = fields(t.subrange(from as int, to as int), sep);
        assert(all =~= all.drop_last().push(all.last()));
    }
    done.push((start, pos));
    done
}

/// Finds the words of the text between `from` and `to`: the longest runs of
/// bytes that are not white space.
pub fn split_whitespace(text: &[u8], from: usize, to: usize) -> (r: Vec<(usize, usize)>)
    requires
        from <= to <= text.len(),
    ensures
        spans_hold(text@, from as int, to as int, r@, words(text@.subrange(from as int, to as int))),
{
    let mut done: Vec<(usize, usize)> = Vec::new();
    let mut start = from;
    let mut pos = from;
    let ghost t = text@;
    while pos < to
        invariant
            from <= start <= pos <= to <= text.len(),
            t == text@,
            start < pos ==> !is_space(t[pos - 1]),
            start == pos ==> (pos == from || is_space(t[pos - 1])),
            words(t.subrange(from as int, pos as int)).len() == done.len() + (if start < pos {
                1int
            } else {
                0int
            }),
            spans_hold(
                t,
                from as int,
                to as int,
                done@,
                if start < pos {
                    words(t.subrange(from as int, pos as int)).drop_last()
                } else {
                    words(t.subrange(from as int, pos as int))
                },
            ),
            start < pos ==> words(t.subrange(from as int, pos as int)).last() == t.subrange(
                start as int,
                pos as int,
            ),
        decreases to - pos,
    {
        let ghost part = t.subrange(from as int, pos + 1);
        let ghost before = words(t.subrange(from as int, pos as int));
        let ghost now = words(part);
        proof {
            assert(part.drop_last() =~= t.subrange(from as int, pos as int));
            assert(part.last() == t[pos as int]);
            if part.len() >= 2 {
                assert(part[part.len() - 2] == t[pos - 1]);
            }
        }
        let b = text[pos];
        let space = b == 32 || (9 <= b && b <= 13);
        if space {
            if start < pos {
                done.push((start, pos));
                proof {
                    assert(before =~= before.drop_last().push(before.last()));
                }
            }
            start = pos + 1;
        } else {
            proof {
                if start < pos {
                    assert(now =~= before.drop_last().push(before.last().push(t[pos as int])));
                    assert(now.drop_last() =~= before.drop_last());
                    assert(t.subrange(start as int, pos + 1) =~= before.last().push(
                        t[pos as int],
                    ));
                } else {
                    assert(now =~= before.push(seq![t[pos as int]]));
                    assert(now.drop_last() =~= before);
                    assert(t.subrange(start as int, pos + 1) =~= seq![t[pos as int]]);
                }
            }
        }
        pos += 1;
    }
    if start < pos {
        proof {
            let all = words(t.subrange(from as int, to as int));
            assert(all =~= all.drop_last().push(all.last()));
        }
        done.push((start, pos));
    }
    done
}

/// Finds the lines of the text.
pub fn split_lines(text: &[u8]) -> (r: Vec<(usize, usize)>)
    ensures
        spans_hold(text@, 0, text@.len() as int, r@, lines(text@)),
{
    let mut all = split(text, 0, text.len(), LINE_FEED);
    let ghost t = text@;
    proof {
        assert(t.subrange(0, t.len() as int) =~= t);
    }
    let ghost pieces = fields(t, LINE_FEED);
    let last = all[all.len() - 1];
    if last.0 == last.1 {
        all.pop();
    }
    let ghost kept = if pieces.last().len() == 0 {
        pieces.drop_last()
    } else {
        pieces
    };
    assert(spans_hold(t, 0, t.len() as int, all@, kept));
    let mut i: usize = 0;
    while i < all.len()
        invariant
            i <= all.len(),
            t == text@,
            all.len() == kept.len(),
            forall|j: int|
                i <= j < all.len() ==> 0 <= (#[trigger] all@[j]).0 <= all@[j].1 <= t.len()
                    && t.subrange(all@[j].0 as int, all@[j].1 as int) == kept[j],
            forall|j: int|
                0 <= j < i ==> 0 <= (#[trigger] all@[j]).0 <= all@[j].1 <= t.len() && t.subrange(
                    all@[j].0 as int,
                    all@[j].1 as int,
                ) == without_return(kept[j]),
        decreases all.len() - i,
    {
        let (from, to) = all[i];
        if from < to && text[to - 1] == CARRIAGE_RETURN {
            all[i] = (from, to - 1);
            proof {
                assert(t.subrange(from as int, to - 1) =~= t.subrange(
                    from as int,
                    to as int,
                ).drop_last());
            }
        }
        i += 1;
    }
    assert(lines(t).len() == kept.len());
    all
}

/// Reads the text between `from` and `to` as an unsigned number.
pub fn parse_u64(text: &[u8], from: usize, to: usize) -> (r: Option<u64>)
    requires
        from <= to <= text.len(),
    ensures
        r is Some <==> unsigned_value(text@.subrange(from as int, to as int), u64::MAX as nat) is Some,
        r is Some ==> unsigned_value(text@.subrange(from as int, to as int), u64::MAX as nat)
            == Some(r->Some_0 as nat),
{
    let ghost t = text@.subrange(from as int, to as int);
    let first = if from < to && text[from] == 43 {
        from + 1
    } else {
        from
    };
    let ghost digits = text@.subrange(first as int, to as int);
    proof {
        if first > from {
            assert(t[0] == 43);
            assert(digits =~= t.drop_first());
        } else {
            assert(digits =~= t);
            if t.len() > 0 {
                assert(t[0] == text@[from as int]);
            }
        }
    }
    if first == to {
        return None;
    }
    let mut value: u64 = 0;
    let mut pos = first;
    while pos < to
        invariant
            first <= pos <= to <= text.len(),
            digits == text@.subrange(first as int, to as int),
            t == text@.subrange(from as int, to as int),
            digits == (if t.len() > 0 && t[0] == 43 {
                t.drop_first()
            } else {
                t
            }),
            forall|i: int| 0 <= i < pos - first ==> is_digit(#[trigger] digits[i]),
            value == decimal(digits.take(pos - first)),
        decreases to - pos,
    {
        let b = text[pos];
        if b < 48 || b > 57 {
            proof {
                assert(!is_digit(digits[pos - first]));
            }
            return None;
        }
        let d = (b - 48) as u64;
        proof {
            assert(digits.take(pos - first + 1) =~= digits.take(pos - first).push(b));
            lemma_decimal_push(digits.take(pos - first), b);
            if value > (u64::MAX - d) / 10 && is_number(digits) {
                lemma_decimal_grows(digits, pos - first + 1);
            }
        }
        if value > (u64::MAX - d) / 10 {
            return None;
        }
        value = value * 10 + d;
        pos += 1;
    }
    proof {
        assert(digits.take(to - first) =~= digits);
    }
    Some(value)
}

/// A number is at least the number that its first `n` digits stand for.
pub proof fn lemma_decimal_grows(digits: Seq<u8>, n: int)
    requires
        0 <= n <= digits.len(),
        forall|i: int| 0 <= i < digits.len() ==> 48 <= #[trigger] digits[i],
    ensures
        decimal(digits.take(n)) <= decimal(digits),
    decreases digits.len() - n,
{
    if n < digits.len() {
        lemma_decimal_grows(digits, n + 1);
        assert(digits.take(n + 1).drop_last() =~= digits.take(n));
    } else {
        assert(digits.take(n) =~= digits);
    }
}

/// Reads the text between `from` and `to` as a signed number.
pub fn parse_i64(text: &[u8], from: usize, to: usize) -> (r: Option<i64>)
    requires
        from <= to <= text.len(),
    ensures
        r is Some <==> signed_value(
            text@.subrange(from as int, to as int),
            i64::MIN as int,
            i64::MAX as int,
        ) is Some,
        r is Some ==> signed_value(
            text@.subrange(from as int, to as int),
            i64::MIN as int,
            i64::MAX as int,
        ) == Some(r->Some_0 as int),
{
    let ghost t = text@.subrange(from as int, to as int);
    let negative = from < to && text[from] == 45;
    let first = if from < to && (text[from] == 43 || text[from] == 45) {
        from + 1
    } else {
        from
    };
    let ghost digits = text@.subrange(first as int, to as int);
    proof {
        if t.len() > 0 {
            assert(t[0] == text@[from as int]);
        }
        if first > from {
            assert(digits =~= t.drop_first());
        } else {
            assert(digits =~= t);
        }
        if first < to {
            assert(digits[0] == text@[first as int]);
        }
    }
    if first == to {
        return None;
    }
    if text[first] == 43 {
        proof {
            assert(!is_digit(digits[0]));
        }
        return None;
    }
    let magnitude = parse_u64(text, first, to);
    proof {
        assert(digits.len() > 0 && digits[0] != 43);
    }
    match magnitude {
        None => None,
        Some(m) => {
            if negative {
                if m > 9_223_372_036_854_775_808 {
                    None
                } else if m == 9_223_372_036_854_775_808 {
                    Some(i64::MIN)
                } else {
                    Some(-(m as i64))
                }
            } else {
                if m > 9_223_372_036_854_775_807 {
                    None
                } else {
                    Some(m as i64)
                }
            }
        },
    }
}

/// Finds the first place between `from` and `to` where the bytes of `pattern`
/// stand.
pub fn find(text: &[u8], from: usize, to: usize, pattern: &[u8]) -> (r: Option<usize>)
    requires
        from <= to <= text.len(),
        pattern.len() >= 1,
    ensures
        r is Some ==> from <= r->Some_0 && r->Some_0 + pattern.len() <= to && text@.subrange(
            r->Some_0 as int,
            r->Some_0 + pattern.len(),
        ) == pattern@,
        forall|i: int|
            from <= i && i + pattern.len() <= to && (r is Some ==> i < r->Some_0)
                ==> #[trigger] text@.subrange(i, i + pattern.len()) != pattern@,
{
    let n = pattern.len();
    if to - from < n {
        return None;
    }
    let mut pos = from;
    while pos <= to - n
        invariant
            from <= pos,
            n == pattern.len(),
            n >= 1,
            n <= to - from,
            to <= text.len(),
            pos <= to - n + 1,
            forall|i: int| from <= i < pos ==> #[trigger] text@.subrange(i, i + n) != pattern@,
        decreases to - n + 1 - pos,
    {
        let mut k: usize = 0;
        while k < n && text[pos + k] == pattern[k]
            invariant
                k <= n,
                n == pattern.len(),
                pos + n <= to <= text.len(),
                forall|j: int| 0 <= j < k ==> text@[pos + j] == pattern@[j],
            decreases n - k,
        {
            k += 1;
        }
        if k == n {
            proof {
                assert(text@.subrange(pos as int, pos + n) =~= pattern@);
            }
            return Some(pos);
        }
        proof {
            assert(text@.subrange(pos as int, pos + n)[k as int] == text@[pos + k]);
        }
        pos += 1;
    }
    None
}

/// The bytes of `pattern` stand at place `i` of the text, and at no place
/// before it.
pub open spec fn is_first_match(t: Seq<u8>, pattern: Seq<u8>, i: int) -> bool {
    &&& 0 <= i
    &&& i + pattern.len() <= t.len()
    &&& t.subrange(i, i + pattern.len()) == pattern
    &&& forall|j: int| 0 <= j < i ==> #[trigger] t.subrange(j, j + pattern.len()) != pattern
}

/// What stands before and after the first place where `pattern` stands in the
/// text, if there is such a place.
pub open spec fn split_once_spec(t: Seq<u8>, pattern: Seq<u8>) -> Option<(Seq<u8>, Seq<u8>)> {
    if exists|i: int| is_first_match(t, pattern, i) {
        let i = choose|i: int| is_first_match(t, pattern, i);
        Some((t.take(i), t.skip(i + pattern.len())))
    } else {
        None
    }
}

/// Parts the text between `from` and `to` at the first place where `pattern`
/// stands: the result is the place where it starts, so that one part ends there
/// and the other starts behind the pattern.
pub fn split_once(text: &[u8], from: usize, to: usize, pattern: &[u8]) -> (r: Option<usize>)
    requires
        from <= to <= text.len(),
        pattern.len() >= 1,
    ensures
        r is Some <==> split_once_spec(text@.subrange(from as int, to as int), pattern@) is Some,
        r is Some ==> from <= r->Some_0 && r->Some_0 + pattern.len() <= to,
        r is Some ==> split_once_spec(text@.subrange(from as int, to as int), pattern@) == Some(
            (
                text@.subrange(from as int, r->Some_0 as int),
                text@.subrange(r->Some_0 + pattern.len(), to as int),
            ),
        ),
{
    let found = find(text, from, to, pattern);
    let ghost t = text@.subrange(from as int, to as int);
    let ghost n = pattern@.len() as int;
    proof {
        assert forall|j: int| 0 <= j && j + n <= t.len() implies #[trigger] t.subrange(j, j + n)
            =~= text@.subrange(from + j, from + j + n) by {}
        match found {
            Some(at) => {
                assert(is_first_match(t, pattern@, at - from));
                let i = choose|i: int| is_first_match(t, pattern@, i);
                if i < at - from {
                    assert(t.subrange(i, i + n) != pattern@);
                } else if i > at - from {
                    assert(t.subrange(at - from, at - from + n) != pattern@);
                }
                assert(t.take(i) =~= text@.subrange(from as int, at as int));
                assert(t.skip(i + n) =~= text@.subrange(at + n, to as int));
            },
            None => {
                assert forall|i: int| !is_first_match(t, pattern@, i) by {
                    if is_first_match(t, pattern@, i) {
                        assert(t.subrange(i, i + n) =~= text@.subrange(from + i, from + i + n));
                    }
                }
            },
        }
    }
    found
}

/// The numbers that the pieces stand for, each unsigned and at most `max`, if
/// every piece stands for such a number.
pub open spec fn unsigned_list(pieces: Seq<Seq<u8>>, max: nat) -> Option<Seq<nat>> {
    if forall|i: int| 0 <= i < pieces.len() ==> (#[trigger] unsigned_value(pieces[i], max)) is Some {
        Some(Seq::new(pieces.len(), |i: int| unsigned_value(pieces[i], max)->Some_0))
    } else {
        None
    }
}

/// The numbers that the pieces stand for, each signed and from `min` to `max`,
/// if every piece stands for such a number.
pub open spec fn signed_list(pieces: Seq<Seq<u8>>, min: int, max: int) -> Option<Seq<int>> {
    if forall|i: int|
        0 <= i < pieces.len() ==> (#[trigger] signed_value(pieces[i], min, max)) is Some {
        Some(Seq::new(pieces.len(), |i: int| signed_value(pieces[i], min, max)->Some_0))
    } else {
        None
    }
}

/// The numbers as mathematics.
pub open spec fn as_nats(v: Seq<u64>) -> Seq<nat> {
    Seq::new(v.len(), |i: int| v[i] as nat)
}

/// The numbers as mathematics.
pub open spec fn as_ints(v: Seq<i64>) -> Seq<int> {
    Seq::new(v.len(), |i: int| v[i] as int)
}

/// Reads the text between `from` and `to` as an unsigned number of at most
/// `max`.
pub fn parse_unsigned(text: &[u8], from: usize, to: usize, max: u64) -> (r: Option<u64>)
    requires
        from <= to <= text.len(),
    ensures
        r is Some <==> unsigned_value(text@.subrange(from as int, to as int), max as nat) is Some,
        r is Some ==> unsigned_value(text@.subrange(from as int, to as int), max as nat) == Some(
            r->Some_0 as nat,
        ),
{
    match parse_u64(text, from, to) {
        Some(v) => if v <= max {
            Some(v)
        } else {
            None
        },
        None => None,
    }
}

/// Reads the text between `from` and `to` as a signed number from `min` to
/// `max`.
pub fn parse_signed(text: &[u8], from: usize, to: usize, min: i64, max: i64) -> (r: Option<i64>)
    requires
        from <= to <= text.len(),
    ensures
        r is Some <==> signed_value(
            text@.subrange(from as int, to as int),
            min as int,
            max as int,
        ) is Some,
        r is Some ==> signed_value(text@.subrange(from as int, to as int), min as int, max as int)
            == Some(r->Some_0 as int),
{
    match parse_i64(text, from, to) {
        Some(v) => if min <= v && v <= max {
            Some(v)
        } else {
            None
        },
        None => None,
    }
}

/// Reads every span as an unsigned number of at most `max`.
pub fn parse_unsigned_spans(text: &[u8], spans: &Vec<(usize, usize)>, max: u64, Ghost(pieces): Ghost<
    Seq<Seq<u8>>,
>) -> (r: Option<Vec<u64>>)
    requires
        spans_hold(text@, 0, text@.len() as int, spans@, pieces),
    ensures
        r is Some <==> unsigned_list(pieces, max as nat) is Some,
        r is Some ==> unsigned_list(pieces, max as nat) == Some(as_nats(r->Some_0@)),
{
    let mut values: Vec<u64> = Vec::new();
    let mut i: usize = 0;
    while i < spans.len()
        invariant
            i <= spans.len(),
            spans_hold(text@, 0, text@.len() as int, spans@, pieces),
            values.len() == i,
            forall|j: int|
                0 <= j < i ==> (#[trigger] unsigned_value(pieces[j], max as nat)) == Some(
                    values@[j] as nat,
                ),
        decreases spans.len() - i,
    {
        let span = spans[i];
        match parse_unsigned(text, span.0, span.1, max) {
            Some(v) => {
                values.push(v);
            },
            None => {
                proof {
                    assert(unsigned_value(pieces[i as int], max as nat) is None);
                }
                return None;
            },
        }
        i += 1;
    }
    proof {
        assert(unsigned_list(pieces, max as nat)->Some_0 =~= as_nats(values@));
    }
    Some(values)
}

/// Reads every span as a signed number from `min` to `max`.
pub fn parse_signed_spans(
    text: &[u8],
    spans: &Vec<(usize, usize)>,
    min: i64,
    max: i64,
    Ghost(pieces): Ghost<Seq<Seq<u8>>>,
) -> (r: Option<Vec<i64>>)
    requires
        spans_hold(text@, 0, text@.len() as int, spans@, pieces),
    ensures
        r is Some <==> signed_list(pieces, min as int, max as int) is Some,
        r is Some ==> signed_list(pieces, min as int, max as int) == Some(as_ints(r->Some_0@)),
{
    let mut values: Vec<i64> = Vec::new();
    let mut i: usize = 0;
    while i < spans.len()
        invariant
            i <= spans.len(),
            spans_hold(text@, 0, text@.len() as int, spans@, pieces),
            values.len() == i,
            forall|j: int|
                0 <= j < i ==> (#[trigger] signed_value(pieces[j], min as int, max as int)) == Some(
                    values@[j] as int,
                ),
        decreases spans.len() - i,
    {
        let span = spans[i];
        match parse_signed(text, span.0, span.1, min, max) {
            Some(v) => {
                values.push(v);
            },
            None => {
                proof {
                    assert(signed_value(pieces[i as int], min as int, max as int) is None);
                }
                return None;
            },
        }
        i += 1;
    }
    proof {
        assert(signed_list(pieces, min as int, max as int)->Some_0 =~= as_ints(values@));
    }
    Some(values)
}

/// Whether the text between `from` and `to` is `word`.
pub fn same_as(text: &[u8], from: usize, to: usize, word: &[u8]) -> (same: bool)
    requires
        from <= to <= text.len(),
    ensures
        same == (text@.subrange(from as int, to as int) == word@),
{
    if to - from != word.len() {
        return false;
    }
    let mut i: usize = 0;
    while i < word.len()
        invariant
            i <= word.len(),
            to - from == word.len(),
            to <= text.len(),
            forall|j: int| 0 <= j < i ==> text@[from + j] == word@[j],
        decreases word.len() - i,
    {
        if text[from + i] != word[i] {
            proof {
                assert(text@.subrange(from as int, to as int)[i as int] == text@[from + i]);
            }
            return false;
        }
        i += 1;
    }
    proof {
        assert(text@.subrange(from as int, to as int) =~= word@);
    }
    true
}

/// The parts of a text between the places where `pattern` stands, taken from
/// left to right, so that no two of these places overlap.
pub open spec fn parts(t: Seq<u8>, pattern: Seq<u8>) -> Seq<Seq<u8>>
    decreases t.len(),
{
    if pattern.len() == 0 {
        seq![t]
    } else {
        match split_once_spec(t, pattern) {
            None => seq![t],
            Some((first, rest)) => if rest.len() < t.len() {
                seq![first] + parts(rest, pattern)
            } else {
                seq![t]
            },
        }
    }
}

/// Splits the text between `from` and `to` at every place where `pattern`
/// stands.
pub fn split_at_each(text: &[u8], from: usize, to: usize, pattern: &[u8]) -> (r: Vec<(usize, usize)>)
    requires
        from <= to <= text.len(),
        pattern.len() >= 1,
    ensures
        spans_hold(
            text@,
            from as int,
            to as int,
            r@,
            parts(text@.subrange(from as int, to as int), pattern@),
        ),
        r.len() >= 1,
{
    let mut done: Vec<(usize, usize)> = Vec::new();
    let mut start = from;
    let ghost whole = parts(text@.subrange(from as int, to as int), pattern@);
    loop
        invariant_except_break
            whole.len() == done.len() + parts(text@.subrange(start as int, to as int), pattern@).len(),
            forall|i: int|
                0 <= i < parts(text@.subrange(start as int, to as int), pattern@).len() ==> whole[done.len()
                    + i] == #[trigger] parts(text@.subrange(start as int, to as int), pattern@)[i],
        invariant
            from <= start <= to <= text.len(),
            pattern.len() >= 1,
            whole == parts(text@.subrange(from as int, to as int), pattern@),
            forall|i: int|
                0 <= i < done.len() ==> from <= (#[trigger] done@[i]).0 <= done@[i].1 <= to
                    && text@.subrange(done@[i].0 as int, done@[i].1 as int) == whole[i],
        ensures
            spans_hold(text@, from as int, to as int, done@, whole),
            done.len() >= 1,
        decreases to - start,
    {
        let ghost rest = text@.subrange(start as int, to as int);
        let ghost now = parts(rest, pattern@);
        match split_once(text, start, to, pattern) {
            Some(at) => {
                proof {
                    let tail = text@.subrange(at + pattern.len(), to as int);
                    assert(tail.len() < rest.len());
                    assert(now =~= seq![text@.subrange(start as int, at as int)] + parts(
                        tail,
                        pattern@,
                    ));
                    assert(whole[done.len() as int] == now[0]);
                    assert forall|i: int| 0 <= i < parts(tail, pattern@).len() implies whole[done.len()
                        + 1 + i] == #[trigger] parts(tail, pattern@)[i] by {
                        assert(now[i + 1] == parts(tail, pattern@)[i]);
                    }
                }
                done.push((start, at));
                start = at + pattern.len();
            },
            None => {
                proof {
                    assert(now =~= seq![rest]);
                    assert(whole[done.len() as int] == now[0]);
                }
                done.push((start, to));
                break ;
            },
        }
    }
    done
}

/// A text has at most one field more than it has bytes, and every byte of
/// the last field is one that no other field needs.
pub proof fn lemma_fields_len(t: Seq<u8>, sep: u8)
    ensures
        fields(t, sep).len() >= 1,
        fields(t, sep).len() + fields(t, sep).last().len() <= t.len() + 1,
    decreases t.len(),
{
    if t.len() > 0 {
        lemma_fields_len(t.drop_last(), sep);
    }
}

/// A text has at most as many lines as bytes.
pub proof fn lemma_lines_len(t: Seq<u8>)
    ensures
        lines(t).len() <= t.len(),
{
    lemma_fields_len(t, LINE_FEED);
}

/// Pieces that lie between `from` and `to` lie in the text.
pub proof fn lemma_spans_in_text(
    t: Seq<u8>,
    from: int,
    to: int,
    spans: Seq<(usize, usize)>,
    pieces: Seq<Seq<u8>>,
)
    requires
        0 <= from <= to <= t.len(),
        spans_hold(t, from, to, spans, pieces),
    ensures
        spans_hold(t, 0, t.len() as int, spans, pieces),
{
}

} // verus!
