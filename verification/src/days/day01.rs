//! Calibration values: the first and the last digit of every line make a
//! number of two digits.
use crate::patterns::{find_one_number, find_two_numbers, one_number, two_numbers};
use crate::text::{is_digit, lines, split_lines, InputError};
use vstd::prelude::*;
use vstd::slice::slice_subrange;
use vstd::string::StringSliceAdditionalSpecFns;

verus! {

/// The place of the first digit of a line, or the length of the line if it
/// has none.
pub open spec fn first_digit(line: Seq<u8>) -> int
    decreases line.len(),
{
    if line.len() == 0 {
        0
    } else if is_digit(line[0]) {
        0
    } else {
        1 + first_digit(line.drop_first())
    }
}

/// The place of the last digit of a line, or -1 if it has none.
pub open spec fn last_digit(line: Seq<u8>) -> int
    decreases line.len(),
{
    if line.len() == 0 {
        -1
    } else if is_digit(line.last()) {
        line.len() - 1
    } else {
        last_digit(line.drop_last())
    }
}

/// The calibration value of a line: ten times its first digit, plus its last
/// digit.
pub open spec fn calibration(line: Seq<u8>) -> Option<int> {
    if first_digit(line) < line.len() {
        Some((line[first_digit(line)] - 48) * 10 + (line[last_digit(line)] - 48))
    } else {
        None
    }
}

/// The sum of the calibration values of the first `k` lines, if each has one.
pub open spec fn calibration_sum(ls: Seq<Seq<u8>>, k: int) -> Option<int>
    decreases k,
{
    if k <= 0 {
        Some(0)
    } else {
        match (calibration_sum(ls, k - 1), calibration(ls[k - 1])) {
            (Some(sum), Some(value)) => Some(sum + value),
            _ => None,
        }
    }
}

/// The digit for a number that is written out, as a text; any other text as
/// it is.
pub open spec fn digit_for(written: Seq<u8>) -> Seq<u8> {
    if written == seq![111u8, 110, 101] {
        seq![49u8]
    } else if written == seq![116u8, 119, 111] {
        seq![50u8]
    } else if written == seq![116u8, 104, 114, 101, 101] {
        seq![51u8]
    } else if written == seq![102u8, 111, 117, 114] {
        seq![52u8]
    } else if written == seq![102u8, 105, 118, 101] {
        seq![53u8]
    } else if written == seq![115u8, 105, 120] {
        seq![54u8]
    } else if written == seq![115u8, 101, 118, 101, 110] {
        seq![55u8]
    } else if written == seq![101u8, 105, 103, 104, 116] {
        seq![56u8]
    } else if written == seq![110u8, 105, 110, 101] {
        seq![57u8]
    } else {
        written
    }
}

/// The line with the number between `span.0` and `span.1` written as a digit.
pub open spec fn with_digit(line: Seq<u8>, span: (usize, usize)) -> Seq<u8> {
    line.take(span.0 as int) + digit_for(line.subrange(span.0 as int, span.1 as int)) + line.skip(
        span.1 as int,
    )
}

/// The spans lie in the line, the first before the second.
pub open spec fn spans_fit(line: Seq<u8>, first: (usize, usize), second: (usize, usize)) -> bool {
    first.0 <= first.1 <= second.0 <= second.1 <= line.len()
}

/// The line with its first and its last number written as digits, where
/// `two` tells where they stand, or with its one number written as a digit,
/// where `one` tells where that stands. Spans that do not lie in the line
/// are left alone.
pub open spec fn replaced(
    line: Seq<u8>,
    two: Option<((usize, usize), (usize, usize))>,
    one: Option<(usize, usize)>,
) -> Seq<u8> {
    match two {
        Some((first, second)) => if spans_fit(line, first, second) {
            with_digit(with_digit(line, second), first)
        } else {
            line
        },
        None => match one {
            Some(span) => if span.0 <= span.1 <= line.len() {
                with_digit(line, span)
            } else {
                line
            },
            None => line,
        },
    }
}

/// The calibration values of the first `k` lines after their numbers were
/// written as digits, summed, if each line has a value.
pub open spec fn replaced_sum(ls: Seq<Seq<u8>>, k: int) -> Option<int>
    decreases k,
{
    if k <= 0 {
        Some(0)
    } else {
        match (
            replaced_sum(ls, k - 1),
            calibration(replaced(ls[k - 1], two_numbers(ls[k - 1]), one_number(ls[k - 1]))),
        ) {
            (Some(sum), Some(value)) => Some(sum + value),
            _ => None,
        }
    }
}

/// A calibration value has two digits.
pub proof fn lemma_calibration_range(line: Seq<u8>)
    ensures
        0 <= last_digit(line) < line.len() || first_digit(line) >= line.len(),
        0 <= first_digit(line) <= line.len(),
        first_digit(line) < line.len() ==> is_digit(line[first_digit(line)]) && is_digit(
            line[last_digit(line)],
        ),
        calibration(line) is Some ==> 0 <= calibration(line)->Some_0 <= 99,
    decreases line.len(),
{
    if line.len() > 0 {
        lemma_calibration_range(line.drop_first());
        lemma_calibration_range(line.drop_last());
        if !is_digit(line[0]) {
            let f = first_digit(line.drop_first());
            if f < line.len() - 1 {
                assert(line.drop_first()[f] == line[f + 1]);
            }
        }
        if !is_digit(line.last()) {
            lemma_last_digit_exists(line.drop_last());
            lemma_last_digit_exists(line);
            let l = last_digit(line.drop_last());
            if l >= 0 {
                assert(line.drop_last()[l] == line[l]);
            }
        }
    }
}

/// A line has a last digit if and only if it has a first one.
pub proof fn lemma_last_digit_exists(line: Seq<u8>)
    ensures
        last_digit(line) >= 0 <==> first_digit(line) < line.len(),
        -1 <= last_digit(line) < line.len(),
        last_digit(line) >= 0 ==> is_digit(line[last_digit(line)]),
        0 <= first_digit(line) <= line.len(),
        forall|i: int| 0 <= i < first_digit(line) ==> !is_digit(#[trigger] line[i]),
        forall|i: int| last_digit(line) < i < line.len() ==> !is_digit(#[trigger] line[i]),
    decreases line.len(),
{
    if line.len() > 0 {
        lemma_last_digit_exists(line.drop_first());
        lemma_last_digit_exists(line.drop_last());
        let front = line.drop_first();
        let back = line.drop_last();
        assert forall|i: int| 0 <= i < first_digit(line) implies !is_digit(#[trigger] line[i]) by {
            if i > 0 {
                assert(front[i - 1] == line[i]);
            }
        }
        assert forall|i: int| last_digit(line) < i < line.len() implies !is_digit(
            #[trigger] line[i],
        ) by {
            if i < line.len() - 1 {
                assert(back[i] == line[i]);
            }
        }
        if last_digit(line) >= 0 && first_digit(line) >= line.len() {
            assert(is_digit(line[last_digit(line)])) by {
                if !is_digit(line.last()) {
                    assert(back[last_digit(back)] == line[last_digit(back)]);
                }
            }
        }
        if first_digit(line) < line.len() && last_digit(line) < 0 {
            let f = first_digit(line);
            if f > 0 {
                assert(front[f - 1] == line[f]);
            }
            assert(is_digit(line[f]));
        }
        if last_digit(line) >= 0 && !is_digit(line.last()) {
            assert(back[last_digit(back)] == line[last_digit(back)]);
        }
    }
}

/// The calibration value of a line: the number made of its first and its last
/// digit.
pub fn get_2_digits(line: &[u8]) -> (r: Result<u32, InputError>)
    ensures
        r is Ok <==> calibration(line@) is Some,
        r is Ok ==> r->Ok_0 == calibration(line@)->Some_0,
        r is Err ==> r == Err::<u32, InputError>(InputError::Value),
{
    proof {
        lemma_last_digit_exists(line@);
        lemma_calibration_range(line@);
    }
    // The two digits, or zero where none was found.
    let mut first: u8 = 0;
    let mut last: u8 = 0;
    // forward search

    let mut i: usize = 0;
    while i < line.len()
        invariant_except_break
            first == 0,
        invariant
            i <= line.len(),
            forall|j: int| 0 <= j < i ==> !is_digit(#[trigger] line@[j]),
        ensures
            first == 0 ==> forall|j: int| 0 <= j < line.len() ==> !is_digit(#[trigger] line@[j]),
            first != 0 ==> i < line.len() && first == line@[i as int] && is_digit(line@[i as int]),
        decreases line.len() - i,
    {
        let c = line[i];
        if c >= 48 && c <= 57 {
            first = c;
            break ;
        }
        i += 1;
    }
    // backward search

    let mut k: usize = line.len();
    while k > 0
        invariant_except_break
            last == 0,
        invariant
            k <= line.len(),
            forall|j: int| k <= j < line.len() ==> !is_digit(#[trigger] line@[j]),
        ensures
            last == 0 ==> forall|j: int| 0 <= j < line.len() ==> !is_digit(#[trigger] line@[j]),
            last != 0 ==> 0 < k <= line.len() && last == line@[k - 1] && is_digit(line@[k - 1]),
        decreases k,
    {
        let c = line[k - 1];
        if c >= 48 && c <= 57 {
            last = c;
            break ;
        }
        k -= 1;
    }
    if first == 0 || last == 0 {
        proof {
            if first_digit(line@) < line@.len() {
                assert(is_digit(line@[last_digit(line@)]));
            }
        }
        return Err(InputError::Value);
    }
    proof {
        let f = first_digit(line@);
        let l = last_digit(line@);
        if f < line@.len() {
            assert(is_digit(line@[l]));
        } else {
            assert(!is_digit(line@[i as int]));
        }
        assert(f == i);
        assert(l == k - 1);
    }
    Ok((first - 48) as u32 * 10 + (last - 48) as u32)
}

/// The digit for a number that is written out; any other text as it is.
pub fn word2digit(written: &[u8]) -> (r: Vec<u8>)
    ensures
        r@ == digit_for(written@),
{
    let words: [(u8, [u8; 5], usize); 9] = [
        (49, [111, 110, 101, 0, 0], 3),
        (50, [116, 119, 111, 0, 0], 3),
        (51, [116, 104, 114, 101, 101], 5),
        (52, [102, 111, 117, 114, 0], 4),
        (53, [102, 105, 118, 101, 0], 4),
        (54, [115, 105, 120, 0, 0], 3),
        (55, [115, 101, 118, 101, 110], 5),
        (56, [101, 105, 103, 104, 116], 5),
        (57, [110, 105, 110, 101, 0], 4),
    ];
    let mut w: usize = 0;
    while w < 9
        invariant
            w <= 9,
            words@ == seq![
                (49u8, [111u8, 110, 101, 0, 0], 3usize),
                (50u8, [116u8, 119, 111, 0, 0], 3usize),
                (51u8, [116u8, 104, 114, 101, 101], 5usize),
                (52u8, [102u8, 111, 117, 114, 0], 4usize),
                (53u8, [102u8, 105, 118, 101, 0], 4usize),
                (54u8, [115u8, 105, 120, 0, 0], 3usize),
                (55u8, [115u8, 101, 118, 101, 110], 5usize),
                (56u8, [101u8, 105, 103, 104, 116], 5usize),
                (57u8, [110u8, 105, 110, 101, 0], 4usize),
            ],
            forall|j: int| 0 <= j < w ==> written@ != (#[trigger] words@[j]).1@.take(words@[j].2 as int),
        decreases 9 - w,
    {
        let (digit, letters, len) = words[w];
        let mut same = written.len() == len;
        let mut i: usize = 0;
        while same && i < len
            invariant
                i <= len <= 5,
                same ==> written.len() == len,
                same ==> forall|j: int| 0 <= j < i ==> written@[j] == letters@[j],
                !same ==> written@ != letters@.take(len as int),
            decreases len - i,
        {
            if written[i] != letters[i] {
                same = false;
                proof {
                    assert(letters@.take(len as int)[i as int] == letters@[i as int]);
                }
            }
            i += 1;
        }
        if same {
            proof {
                assert(written@ =~= letters@.take(len as int));
                lemma_words(written@);
            }
            let mut r: Vec<u8> = Vec::new();
            r.push(digit);
            return r;
        }
        w += 1;
    }
    proof {
        lemma_words(written@);
    }
    let mut r: Vec<u8> = Vec::new();
    let mut i: usize = 0;
    while i < written.len()
        invariant
            i <= written.len(),
            r@ == written@.take(i as int),
        decreases written.len() - i,
    {
        r.push(written[i]);
        proof {
            assert(written@.take(i + 1) =~= written@.take(i as int).push(written@[i as int]));
        }
        i += 1;
    }
    proof {
        assert(written@.take(written@.len() as int) =~= written@);
    }
    r
}

/// The words for the numbers, letter by letter.
pub proof fn lemma_words(written: Seq<u8>)
    ensures
        written == seq![111u8, 110, 101] <==> written == [111u8, 110, 101, 0, 0]@.take(3),
        written == seq![116u8, 119, 111] <==> written == [116u8, 119, 111, 0, 0]@.take(3),
        written == seq![116u8, 104, 114, 101, 101] <==> written == [116u8, 104, 114, 101, 101]@.take(5),
        written == seq![102u8, 111, 117, 114] <==> written == [102u8, 111, 117, 114, 0]@.take(4),
        written == seq![102u8, 105, 118, 101] <==> written == [102u8, 105, 118, 101, 0]@.take(4),
        written == seq![115u8, 105, 120] <==> written == [115u8, 105, 120, 0, 0]@.take(3),
        written == seq![115u8, 101, 118, 101, 110] <==> written == [115u8, 101, 118, 101, 110]@.take(5),
        written == seq![101u8, 105, 103, 104, 116] <==> written == [101u8, 105, 103, 104, 116]@.take(5),
        written == seq![110u8, 105, 110, 101] <==> written == [110u8, 105, 110, 101, 0]@.take(4),
{
    assert(seq![111u8, 110, 101] =~= [111u8, 110, 101, 0, 0]@.take(3));
    assert(seq![116u8, 119, 111] =~= [116u8, 119, 111, 0, 0]@.take(3));
    assert(seq![116u8, 104, 114, 101, 101] =~= [116u8, 104, 114, 101, 101]@.take(5));
    assert(seq![102u8, 111, 117, 114] =~= [102u8, 111, 117, 114, 0]@.take(4));
    assert(seq![102u8, 105, 118, 101] =~= [102u8, 105, 118, 101, 0]@.take(4));
    assert(seq![115u8, 105, 120] =~= [115u8, 105, 120, 0, 0]@.take(3));
    assert(seq![115u8, 101, 118, 101, 110] =~= [115u8, 101, 118, 101, 110]@.take(5));
    assert(seq![101u8, 105, 103, 104, 116] =~= [101u8, 105, 103, 104, 116]@.take(5));
    assert(seq![110u8, 105, 110, 101] =~= [110u8, 105, 110, 101, 0]@.take(4));
}

/// The line with the number in the span written as a digit.
pub fn replace_span(line: &Vec<u8>, span: (usize, usize)) -> (r: Vec<u8>)
    requires
        span.0 <= span.1 <= line.len(),
    ensures
        r@ == with_digit(line@, span),
{
    let mut r: Vec<u8> = Vec::new();
    let mut i: usize = 0;
    while i < span.0
        invariant
            i <= span.0 <= line.len(),
            r@ == line@.take(i as int),
        decreases span.0 - i,
    {
        r.push(line[i]);
        proof {
            assert(line@.take(i + 1) =~= line@.take(i as int).push(line@[i as int]));
        }
        i += 1;
    }
    let digit = word2digit(slice_subrange(line.as_slice(), span.0, span.1));
    let mut j: usize = 0;
    while j < digit.len()
        invariant
            j <= digit.len(),
            r@ == line@.take(span.0 as int) + digit@.take(j as int),
        decreases digit.len() - j,
    {
        r.push(digit[j]);
        proof {
            assert(digit@.take(j + 1) =~= digit@.take(j as int).push(digit@[j as int]));
        }
        j += 1;
    }
    proof {
        assert(digit@.take(digit@.len() as int) =~= digit@);
    }
    let mut k: usize = span.1;
    while k < line.len()
        invariant
            span.1 <= k <= line.len(),
            r@ == line@.take(span.0 as int) + digit@ + line@.subrange(span.1 as int, k as int),
        decreases line.len() - k,
    {
        r.push(line[k]);
        proof {
            assert(line@.subrange(span.1 as int, k + 1) =~= line@.subrange(
                span.1 as int,
                k as int,
            ).push(line@[k as int]));
        }
        k += 1;
    }
    proof {
        assert(line@.subrange(span.1 as int, line@.len() as int) =~= line@.skip(span.1 as int));
    }
    r
}

/// Writes the first and the last number of a line as digits, given where they
/// stand; or its one number, given where that stands.
pub fn replace_found(
    line: &[u8],
    two: Option<((usize, usize), (usize, usize))>,
    one: Option<(usize, usize)>,
) -> (r: Vec<u8>)
    ensures
        r@ == replaced(line@, two, one),
{
    let mut copy: Vec<u8> = Vec::new();
    let mut i: usize = 0;
    while i < line.len()
        invariant
            i <= line.len(),
            copy@ == line@.take(i as int),
        decreases line.len() - i,
    {
        copy.push(line[i]);
        proof {
            assert(line@.take(i + 1) =~= line@.take(i as int).push(line@[i as int]));
        }
        i += 1;
    }
    proof {
        assert(line@.take(line@.len() as int) =~= line@);
    }
    // First try two numbers.
    match two {
        Some((first, second)) => {
            if first.0 <= first.1 && first.1 <= second.0 && second.0 <= second.1 && second.1
                <= line.len() {
                let later = replace_span(&copy, second);
                return replace_span(&later, first);
            }
            copy
        },
        // There is at most one number.
        None => match one {
            Some(span) => {
                if span.0 <= span.1 && span.1 <= line.len() {
                    return replace_span(&copy, span);
                }
                copy
            },
            None => copy,
        },
    }
}

/// Writes the first and the last number of a line as digits, where they are
/// written out as words.
pub fn replace_digits(line: &[u8]) -> (r: Vec<u8>)
    ensures
        r@ == replaced(line@, two_numbers(line@), one_number(line@)),
{
    let two = find_two_numbers(line);
    let one = find_one_number(line);
    replace_found(line, two, one)
}

/// A sum, where there is one and it fits in 32 bits.
pub open spec fn fitting(sum: Option<int>) -> Option<u32> {
    match sum {
        Some(v) => if 0 <= v <= u32::MAX {
            Some(v as u32)
        } else {
            None
        },
        None => None,
    }
}

/// The sum of the calibration values of all lines, if every line has one and
/// the sum fits in 32 bits.
pub fn part_one(input: &str) -> (r: Option<u32>)
    ensures
        r == fitting(
            calibration_sum(lines(input.spec_bytes()), lines(input.spec_bytes()).len() as int),
        ),
{
    let text = input.as_bytes();
    let spans = split_lines(text);
    let ghost ls = lines(text@);
    let mut total: u64 = 0;
    let mut i: usize = 0;
    while i < spans.len()
        invariant
            i <= spans.len(),
            spans.len() == ls.len(),
            ls == lines(text@),
            text@ == input.spec_bytes(),
            crate::text::spans_hold(text@, 0, text@.len() as int, spans@, ls),
            calibration_sum(ls, i as int) == Some(total as int),
            total <= u32::MAX,
        decreases spans.len() - i,
    {
        let (from, to) = spans[i];
        proof {
            lemma_calibration_range(ls[i as int]);
            lemma_sum_grows(ls, i + 1, ls.len() as int);
        }
        match get_2_digits(slice_subrange(text, from, to)) {
            Ok(value) => {
                total = total + value as u64;
                if total > 0xffff_ffff {
                    return None;
                }
            },
            Err(_) => {
                proof {
                    lemma_sum_stays_none(ls, i + 1, ls.len() as int);
                }
                return None;
            },
        }
        i += 1;
    }
    Some(total as u32)
}

/// A sum of calibration values does not fall as lines join it.
pub proof fn lemma_sum_grows(ls: Seq<Seq<u8>>, a: int, b: int)
    requires
        0 <= a <= b,
    ensures
        match (calibration_sum(ls, a), calibration_sum(ls, b)) {
            (Some(x), Some(y)) => 0 <= x <= y,
            (Some(x), None) => 0 <= x,
            (None, later) => later is None,
        },
    decreases b,
{
    if b > 0 {
        lemma_calibration_range(ls[b - 1]);
        if a < b {
            lemma_sum_grows(ls, a, b - 1);
        } else {
            lemma_sum_grows(ls, a - 1, b - 1);
        }
    }
}

/// A sum of calibration values of lines with their written numbers replaced
/// does not fall as lines join it.
pub proof fn lemma_replaced_sum_grows(ls: Seq<Seq<u8>>, a: int, b: int)
    requires
        0 <= a <= b,
    ensures
        match (replaced_sum(ls, a), replaced_sum(ls, b)) {
            (Some(x), Some(y)) => 0 <= x <= y,
            (Some(x), None) => 0 <= x,
            (None, later) => later is None,
        },
    decreases b,
{
    if b > 0 {
        lemma_calibration_range(
            replaced(ls[b - 1], two_numbers(ls[b - 1]), one_number(ls[b - 1])),
        );
        if a < b {
            lemma_replaced_sum_grows(ls, a, b - 1);
        } else {
            lemma_replaced_sum_grows(ls, a - 1, b - 1);
        }
    }
}

/// A sum that has met a line without a value has no value.
pub proof fn lemma_sum_stays_none(ls: Seq<Seq<u8>>, a: int, b: int)
    requires
        0 <= a <= b,
        calibration_sum(ls, a) is None,
    ensures
        calibration_sum(ls, b) is None,
    decreases b,
{
    if a < b {
        lemma_sum_stays_none(ls, a, b - 1);
    }
}

/// A sum that has met a line without a value has no value.
pub proof fn lemma_replaced_sum_stays_none(ls: Seq<Seq<u8>>, a: int, b: int)
    requires
        0 <= a <= b,
        replaced_sum(ls, a) is None,
    ensures
        replaced_sum(ls, b) is None,
    decreases b,
{
    if a < b {
        lemma_replaced_sum_stays_none(ls, a, b - 1);
    }
}

/// The sum of the calibration values of all lines, where the first and the
/// last number of a line count also when they are written out as words;
/// `None` where a line has no value or the sum does not fit in 32 bits.
pub fn part_two(input: &str) -> (r: Option<u32>)
    ensures
        r == fitting(
            replaced_sum(lines(input.spec_bytes()), lines(input.spec_bytes()).len() as int),
        ),
{
    let text = input.as_bytes();
    let spans = split_lines(text);
    let ghost ls = lines(text@);
    let mut total: u64 = 0;
    let mut i: usize = 0;
    while i < spans.len()
        invariant
            i <= spans.len(),
            spans.len() == ls.len(),
            ls == lines(text@),
            text@ == input.spec_bytes(),
            crate::text::spans_hold(text@, 0, text@.len() as int, spans@, ls),
            replaced_sum(ls, i as int) == Some(total as int),
            total <= u32::MAX,
        decreases spans.len() - i,
    {
        let (from, to) = spans[i];
        let l = replace_digits(slice_subrange(text, from, to));
        proof {
            lemma_calibration_range(l@);
            lemma_replaced_sum_grows(ls, i + 1, ls.len() as int);
        }
        match get_2_digits(l.as_slice()) {
            Ok(value) => {
                total = total + value as u64;
                if total > 0xffff_ffff {
                    return None;
                }
            },
            Err(_) => {
                proof {
                    lemma_replaced_sum_stays_none(ls, i + 1, ls.len() as int);
                }
                return None;
            },
        }
        i += 1;
    }
    Some(total as u32)
}

} // verus!
