//! Histories of readings: the next and the previous value of each, found
//! from the differences between its values, and the differences between these,
//! down to differences that are all zero.
use crate::text::{
    as_ints, lemma_spans_in_text, lines, parse_signed_spans, signed_list, split_lines,
    split_whitespace, words, InputError,
};
use vstd::prelude::*;
use vstd::string::StringSliceAdditionalSpecFns;

verus! {

/// The histories of a report.
pub struct Report {
    histories: Vec<History>,
}

/// The values of one history, of which there is at least one.
pub struct History {
    nums: Vec<i32>,
}

/// The differences that are worked on, and room for the next ones.
pub struct HistoryDiffs {
    diffs: Vec<i32>,
    prev_diffs: Vec<i32>,
}

/// Whether the number fits in 32 bits with a sign.
pub open spec fn in_i32(v: int) -> bool {
    i32::MIN <= v <= i32::MAX
}

/// The numbers as mathematics.
pub open spec fn ints(s: Seq<i32>) -> Seq<int> {
    Seq::new(s.len(), |i: int| s[i] as int)
}

/// The differences between values that follow each other.
pub open spec fn differences(s: Seq<int>) -> Seq<int> {
    if s.len() == 0 {
        Seq::<int>::empty()
    } else {
        Seq::new((s.len() - 1) as nat, |i: int| s[i + 1] - s[i])
    }
}

/// Every value is zero.
pub open spec fn all_zero(s: Seq<int>) -> bool {
    forall|i: int| 0 <= i < s.len() ==> (#[trigger] s[i]) == 0
}

/// The value that follows the last: the last value, plus what follows the
/// last of the differences, unless these are all zero.
pub open spec fn next_value(s: Seq<int>) -> int
    decreases s.len(),
{
    if s.len() == 0 {
        0
    } else if all_zero(differences(s)) {
        s.last()
    } else {
        s.last() + next_value(differences(s))
    }
}

/// The value that comes before the first: the first value, less what comes
/// before the first of the differences, unless these are all zero.
pub open spec fn prev_value(s: Seq<int>) -> int
    decreases s.len(),
{
    if s.len() == 0 {
        0
    } else if all_zero(differences(s)) {
        s.first()
    } else {
        s.first() - prev_value(differences(s))
    }
}

/// Finding the next value is done within 32 bits: the differences fit, and so
/// does the sum of the last values, which has reached `sum` before the last of
/// `s` joins it.
pub open spec fn next_fits(s: Seq<int>, sum: int) -> bool
    decreases s.len(),
{
    if s.len() == 0 {
        true
    } else {
        &&& in_i32(sum + s.last())
        &&& forall|i: int| 0 <= i < s.len() - 1 ==> in_i32(#[trigger] differences(s)[i])
        &&& (all_zero(differences(s)) || next_fits(differences(s), sum + s.last()))
    }
}

/// Finding the previous value is done within 32 bits: the differences fit,
/// and so does the sum of the first values, taken with a sign that changes
/// from one to the next, which has reached `sum` before the first of `s` joins
/// it with `sign`.
pub open spec fn prev_fits(s: Seq<int>, sum: int, sign: int) -> bool
    decreases s.len(),
{
    if s.len() == 0 {
        true
    } else {
        &&& in_i32(sign * s.first())
        &&& in_i32(sum + sign * s.first())
        &&& forall|i: int| 0 <= i < s.len() - 1 ==> in_i32(#[trigger] differences(s)[i])
        &&& (all_zero(differences(s)) || prev_fits(differences(s), sum + sign * s.first(), -sign))
    }
}

/// The sum of the next values of the first `k` histories.
pub open spec fn sum_next(hs: Seq<Seq<int>>, k: int) -> int
    decreases k,
{
    if k <= 0 {
        0
    } else {
        sum_next(hs, k - 1) + next_value(hs[k - 1])
    }
}

/// The sum of the previous values of the first `k` histories.
pub open spec fn sum_prev(hs: Seq<Seq<int>>, k: int) -> int
    decreases k,
{
    if k <= 0 {
        0
    } else {
        sum_prev(hs, k - 1) + prev_value(hs[k - 1])
    }
}

/// The histories that a text stands for: one line for each, with its values
/// parted by white space; every line holds at least one value.
pub open spec fn report_of(t: Seq<u8>) -> Result<Seq<Seq<int>>, InputError> {
    let ls = lines(t);
    if exists|i: int|
        0 <= i < ls.len() && (#[trigger] signed_list(
            words(ls[i]),
            i32::MIN as int,
            i32::MAX as int,
        )) is None {
        Err(InputError::Number)
    } else if exists|i: int| 0 <= i < ls.len() && (#[trigger] words(ls[i])).len() == 0 {
        Err(InputError::Value)
    } else {
        Ok(
            Seq::new(
                ls.len(),
                |i: int| signed_list(words(ls[i]), i32::MIN as int, i32::MAX as int)->Some_0,
            ),
        )
    }
}

impl History {
    /// The values.
    pub closed spec fn view(&self) -> Seq<int> {
        ints(self.nums@)
    }

    /// A history of the given values.
    pub fn new(nums: Vec<i32>) -> (h: Self)
        requires
            nums.len() > 0,
        ensures
            h.view() == ints(nums@),
    {
        History { nums }
    }

    /// The value that follows the last, where every number on the way to it
    /// fits in 32 bits.
    #[verifier::loop_isolation(false)]
    pub fn checked_pred_next(self) -> (r: Option<i32>)
        requires
            self.view().len() > 0,
        ensures
            r == (if next_fits(self.view(), 0) {
                Some(next_value(self.view()) as i32)
            } else {
                None
            }),
            next_fits(self.view(), 0) ==> in_i32(next_value(self.view())),
    {
        let ghost all = self.view();
        let mut next = self.nums[self.nums.len() - 1];
        let mut hist_diffs = HistoryDiffs::new(self);
        loop
            invariant
                hist_diffs.values().len() > 0,
                next_value(all) == next - hist_diffs.values().last() + next_value(
                    hist_diffs.values(),
                ),
                next_fits(all, 0) == next_fits(
                    hist_diffs.values(),
                    next - hist_diffs.values().last(),
                ),
            decreases hist_diffs.values().len(),
        {
            let ghost vals = hist_diffs.values();
            let more = match hist_diffs.checked_next_diffs() {
                Some(more) => more,
                None => {
                    return None;
                },
            };
            if !more {
                return Some(next);
            }
            let diffs = hist_diffs.current();
            proof {
                let d = differences(vals);
                assert(d.len() > 0);
                assert(next_value(vals) == vals.last() + next_value(d));
                assert(ints(diffs@).last() == diffs@[diffs.len() - 1]);
                assert(next_fits(all, 0) == next_fits(d, next as int));
            }
            next = match next.checked_add(diffs[diffs.len() - 1]) {
                Some(sum) => sum,
                None => {
                    return None;
                },
            };
        }
    }

    /// The value that comes before the first, where every number on the way
    /// to it fits in 32 bits.
    #[verifier::loop_isolation(false)]
    pub fn checked_pred_prev(self) -> (r: Option<i32>)
        requires
            self.view().len() > 0,
        ensures
            r == (if prev_fits(self.view(), 0, 1) {
                Some(prev_value(self.view()) as i32)
            } else {
                None
            }),
            prev_fits(self.view(), 0, 1) ==> in_i32(prev_value(self.view())),
    {
        let ghost all = self.view();
        let mut prev = self.nums[0];
        let mut mult: i32 = 1;
        let mut hist_diffs = HistoryDiffs::new(self);
        loop
            invariant
                hist_diffs.values().len() > 0,
                mult == 1 || mult == -1,
                prev_value(all) == prev - mult * hist_diffs.values().first() + mult * prev_value(
                    hist_diffs.values(),
                ),
                in_i32(mult * hist_diffs.values().first()),
                prev_fits(all, 0, 1) == prev_fits(
                    hist_diffs.values(),
                    prev - mult * hist_diffs.values().first(),
                    mult as int,
                ),
            decreases hist_diffs.values().len(),
        {
            let ghost vals = hist_diffs.values();
            let more = match hist_diffs.checked_next_diffs() {
                Some(more) => more,
                None => {
                    return None;
                },
            };
            if !more {
                proof {
                    assert(mult * prev_value(vals) == mult * vals.first()) by (nonlinear_arith)
                        requires
                            prev_value(vals) == vals.first(),
                    ;
                }
                return Some(prev);
            }
            let ghost sign = mult as int;
            mult = -mult;
            let diffs = hist_diffs.current();
            proof {
                let d = differences(vals);
                assert(d.len() > 0);
                assert(prev_value(vals) == vals.first() - prev_value(d));
                assert(ints(diffs@).first() == diffs@[0]);
                assert(prev_fits(all, 0, 1) == prev_fits(d, prev as int, -sign));
                assert(sign * prev_value(vals) == sign * vals.first() - sign * prev_value(d))
                    by (nonlinear_arith)
                    requires
                        prev_value(vals) == vals.first() - prev_value(d),
                ;
                assert(-sign * prev_value(d) == mult * prev_value(d));
            }
            let step = match mult.checked_mul(diffs[0]) {
                Some(step) => step,
                None => {
                    return None;
                },
            };
            prev = match prev.checked_add(step) {
                Some(sum) => sum,
                None => {
                    return None;
                },
            };
        }
    }

    /// The value that follows the last.
    pub fn pred_next(self) -> (r: i32)
        requires
            self.view().len() > 0,
            next_fits(self.view(), 0),
        ensures
            r == next_value(self.view()),
    {
        let ghost all = self.view();
        let mut next = self.nums[self.nums.len() - 1];
        let mut hist_diffs = HistoryDiffs::new(self);
        loop
            invariant
                hist_diffs.values().len() > 0,
                next_value(all) == next - hist_diffs.values().last() + next_value(
                    hist_diffs.values(),
                ),
                next_fits(hist_diffs.values(), next - hist_diffs.values().last()),
            ensures
                next == next_value(all),
            decreases hist_diffs.values().len(),
        {
            let ghost vals = hist_diffs.values();
            if !hist_diffs.next_diffs() {
                break ;
            }
            let diffs = hist_diffs.current();
            proof {
                let d = differences(vals);
                assert(d.len() > 0);
                assert(next_fits(d, next as int));
                assert(next_value(vals) == vals.last() + next_value(d));
                assert(ints(diffs@).last() == diffs@[diffs.len() - 1]);
            }
            next = next + diffs[diffs.len() - 1];
        }
        next
    }

    /// The value that comes before the first.
    pub fn pred_prev(self) -> (r: i32)
        requires
            self.view().len() > 0,
            prev_fits(self.view(), 0, 1),
        ensures
            r == prev_value(self.view()),
    {
        let ghost all = self.view();
        let mut prev = self.nums[0];
        let mut mult: i32 = 1;
        let mut hist_diffs = HistoryDiffs::new(self);
        loop
            invariant
                hist_diffs.values().len() > 0,
                mult == 1 || mult == -1,
                prev_value(all) == prev - mult * hist_diffs.values().first() + mult * prev_value(
                    hist_diffs.values(),
                ),
                prev_fits(
                    hist_diffs.values(),
                    prev - mult * hist_diffs.values().first(),
                    mult as int,
                ),
            ensures
                prev == prev_value(all),
            decreases hist_diffs.values().len(),
        {
            let ghost vals = hist_diffs.values();
            if !hist_diffs.next_diffs() {
                break ;
            }
            let ghost sign = mult as int;
            mult = -mult;
            let diffs = hist_diffs.current();
            proof {
                let d = differences(vals);
                assert(d.len() > 0);
                assert(prev_fits(d, prev as int, -sign));
                assert(prev_value(vals) == vals.first() - prev_value(d));
                assert(ints(diffs@).first() == diffs@[0]);
                assert(in_i32(mult * d.first()));
                assert(sign * prev_value(vals) == sign * vals.first() - sign * prev_value(d))
                    by (nonlinear_arith)
                    requires
                        prev_value(vals) == vals.first() - prev_value(d),
                ;
                assert(-sign * prev_value(d) == mult * prev_value(d));
            }
            prev = prev + mult * diffs[0];
        }
        prev
    }
}

impl HistoryDiffs {
    /// The values that are worked on.
    pub closed spec fn values(&self) -> Seq<int> {
        ints(self.prev_diffs@)
    }

    /// Starts with the values of a history.
    pub fn new(history: History) -> (r: Self)
        ensures
            r.values() == history.view(),
    {
        let diffs = Vec::new();
        let prev_diffs = history.nums;
        HistoryDiffs { diffs, prev_diffs }
    }

    /// The values that are worked on.
    pub fn current(&self) -> (r: &Vec<i32>)
        ensures
            ints(r@) == self.values(),
    {
        &self.prev_diffs
    }

    /// Goes on to the differences of the values, unless they are all zero:
    /// the result tells whether it went on; it is `None` where a difference does
    /// not fit in 32 bits, and the values are then of no use.
    pub fn checked_next_diffs(&mut self) -> (r: Option<bool>)
        ensures
            r is Some <==> forall|i: int|
                0 <= i < old(self).values().len() - 1 ==> in_i32(
                    #[trigger] differences(old(self).values())[i],
                ),
            r is Some ==> r->Some_0 == !all_zero(differences(old(self).values())),
            r == Some(true) ==> final(self).values() == differences(old(self).values()),
            r == Some(false) ==> final(self).values() == old(self).values(),
    {
        self.diffs.clear();
        let ghost vals = self.values();
        if self.prev_diffs.len() == 0 {
            return Some(false);
        }
        let mut all_zeroes = true;
        let mut i: usize = 1;
        while i < self.prev_diffs.len()
            invariant
                1 <= i <= self.prev_diffs.len(),
                vals == ints(self.prev_diffs@),
                vals == old(self).values(),
                self.diffs.len() == i - 1,
                forall|j: int| 0 <= j < i - 1 ==> in_i32(#[trigger] differences(vals)[j]),
                forall|j: int| 0 <= j < i - 1 ==> self.diffs@[j] == differences(vals)[j],
                all_zeroes <==> forall|j: int|
                    0 <= j < i - 1 ==> (#[trigger] differences(vals)[j]) == 0,
            decreases self.prev_diffs.len() - i,
        {
            proof {
                assert(differences(vals)[i - 1] == vals[i as int] - vals[i - 1]);
            }
            let diff = match self.prev_diffs[i].checked_sub(self.prev_diffs[i - 1]) {
                Some(diff) => diff,
                None => {
                    proof {
                        assert(!in_i32(differences(vals)[i - 1]));
                    }
                    return None;
                },
            };
            self.diffs.push(diff);
            all_zeroes = all_zeroes && (diff == 0);
            i += 1;
        }
        proof {
            assert(differences(vals).len() == i - 1);
        }
        if all_zeroes {
            return Some(false);
        }
        proof {
            assert(ints(self.diffs@) =~= differences(vals));
        }
        std::mem::swap(&mut self.diffs, &mut self.prev_diffs);
        Some(true)
    }

    /// Goes on to the differences of the values, unless they are all zero:
    /// the result tells whether it went on.
    pub fn next_diffs(&mut self) -> (more: bool)
        requires
            forall|i: int|
                0 <= i < old(self).values().len() - 1 ==> in_i32(
                    #[trigger] differences(old(self).values())[i],
                ),
        ensures
            more == !all_zero(differences(old(self).values())),
            more ==> final(self).values() == differences(old(self).values()),
            !more ==> final(self).values() == old(self).values(),
    {
        self.diffs.clear();
        let ghost vals = self.values();
        if self.prev_diffs.len() == 0 {
            return false;
        }
        let mut all_zeroes = true;
        let mut i: usize = 1;
        while i < self.prev_diffs.len()
            invariant
                1 <= i <= self.prev_diffs.len(),
                vals == ints(self.prev_diffs@),
                vals == old(self).values(),
                self.diffs.len() == i - 1,
                forall|j: int|
                    0 <= j < vals.len() - 1 ==> in_i32(#[trigger] differences(old(self).values())[j]),
                forall|j: int| 0 <= j < i - 1 ==> self.diffs@[j] == differences(vals)[j],
                all_zeroes <==> forall|j: int|
                    0 <= j < i - 1 ==> (#[trigger] differences(vals)[j]) == 0,
            decreases self.prev_diffs.len() - i,
        {
            proof {
                assert(in_i32(differences(old(self).values())[i - 1]));
                assert(differences(vals)[i - 1] == vals[i as int] - vals[i - 1]);
            }
            let diff = self.prev_diffs[i] - self.prev_diffs[i - 1];
            self.diffs.push(diff);
            all_zeroes = all_zeroes && (diff == 0);
            i += 1;
        }
        proof {
            assert(differences(vals).len() == i - 1);
        }
        if all_zeroes {
            return false;
        }
        proof {
            assert(ints(self.diffs@) =~= differences(vals));
        }
        std::mem::swap(&mut self.diffs, &mut self.prev_diffs);
        true
    }
}

impl Report {
    /// The histories.
    pub closed spec fn view(&self) -> Seq<Seq<int>> {
        Seq::new(self.histories@.len(), |i: int| self.histories@[i].view())
    }

    /// The report is sound: every history has a value.
    pub closed spec fn wf(&self) -> bool {
        forall|i: int| 0 <= i < self.histories@.len() ==> (#[trigger] self.histories@[i]).view().len() > 0
    }

    /// The sum of the values that follow the last of each history,
    /// where every number on the way to it fits in 32 bits.
    #[verifier::loop_isolation(false)]
    pub fn checked_sum_extrapolated(self) -> (r: Option<i32>)
        requires
            self.wf(),
        ensures
            r == (if (forall|i: int|
                0 <= i < self.view().len() ==> next_fits(#[trigger] self.view()[i], 0))
                && (forall|k: int|
                0 <= k <= self.view().len() ==> in_i32(#[trigger] sum_next(self.view(), k))) {
                Some(sum_next(self.view(), self.view().len() as int) as i32)
            } else {
                None
            }),
    {
        let ghost hs = self.view();
        let mut histories = self.histories;
        let mut total: i32 = 0;
        let ghost n = histories.len() as int;
        let ghost mut k: int = 0;
        while histories.len() > 0
            invariant
                0 <= k <= n,
                histories.len() == n - k,
                n == hs.len(),
                forall|i: int|
                    0 <= i < histories.len() ==> (#[trigger] histories@[i]).view() == hs[k + i]
                        && hs[k + i].len() > 0,
                forall|i: int| 0 <= i < k ==> next_fits(#[trigger] hs[i], 0),
                forall|j: int| 0 <= j <= k ==> in_i32(#[trigger] sum_next(hs, j)),
                total == sum_next(hs, k),
            decreases histories.len(),
        {
            let ghost waiting = histories@;
            let h = histories.remove(0);
            proof {
                assert(h.view() == hs[k]);
                assert forall|i: int| 0 <= i < histories.len() implies (#[trigger] histories@[i]).view()
                    == hs[k + 1 + i] && hs[k + 1 + i].len() > 0 by {
                    assert(histories@[i] == waiting[i + 1]);
                }
            }
            let found = match h.checked_pred_next() {
                Some(found) => found,
                None => {
                    proof {
                        assert(!next_fits(hs[k], 0));
                    }
                    return None;
                },
            };
            total = match total.checked_add(found) {
                Some(sum) => sum,
                None => {
                    proof {
                        assert(!in_i32(sum_next(hs, k + 1)));
                    }
                    return None;
                },
            };
            proof {
                assert forall|j: int| 0 <= j <= k + 1 implies in_i32(#[trigger] sum_next(hs, j)) by {
                    if j == k + 1 {
                        assert(sum_next(hs, j) == total);
                    }
                }
                k = k + 1;
            }
        }
        proof {
            assert(k == n);
        }
        Some(total)
    }

    /// The sum of the values that come before the first of each history,
    /// where every number on the way to it fits in 32 bits.
    #[verifier::loop_isolation(false)]
    pub fn checked_sum_extrapolated_backwards(self) -> (r: Option<i32>)
        requires
            self.wf(),
        ensures
            r == (if (forall|i: int|
                0 <= i < self.view().len() ==> prev_fits(#[trigger] self.view()[i], 0, 1))
                && (forall|k: int|
                0 <= k <= self.view().len() ==> in_i32(#[trigger] sum_prev(self.view(), k))) {
                Some(sum_prev(self.view(), self.view().len() as int) as i32)
            } else {
                None
            }),
    {
        let ghost hs = self.view();
        let mut histories = self.histories;
        let mut total: i32 = 0;
        let ghost n = histories.len() as int;
        let ghost mut k: int = 0;
        while histories.len() > 0
            invariant
                0 <= k <= n,
                histories.len() == n - k,
                n == hs.len(),
                forall|i: int|
                    0 <= i < histories.len() ==> (#[trigger] histories@[i]).view() == hs[k + i]
                        && hs[k + i].len() > 0,
                forall|i: int| 0 <= i < k ==> prev_fits(#[trigger] hs[i], 0, 1),
                forall|j: int| 0 <= j <= k ==> in_i32(#[trigger] sum_prev(hs, j)),
                total == sum_prev(hs, k),
            decreases histories.len(),
        {
            let ghost waiting = histories@;
            let h = histories.remove(0);
            proof {
                assert(h.view() == hs[k]);
                assert forall|i: int| 0 <= i < histories.len() implies (#[trigger] histories@[i]).view()
                    == hs[k + 1 + i] && hs[k + 1 + i].len() > 0 by {
                    assert(histories@[i] == waiting[i + 1]);
                }
            }
            let found = match h.checked_pred_prev() {
                Some(found) => found,
                None => {
                    proof {
                        assert(!prev_fits(hs[k], 0, 1));
                    }
                    return None;
                },
            };
            total = match total.checked_add(found) {
                Some(sum) => sum,
                None => {
                    proof {
                        assert(!in_i32(sum_prev(hs, k + 1)));
                    }
                    return None;
                },
            };
            proof {
                assert forall|j: int| 0 <= j <= k + 1 implies in_i32(#[trigger] sum_prev(hs, j)) by {
                    if j == k + 1 {
                        assert(sum_prev(hs, j) == total);
                    }
                }
                k = k + 1;
            }
        }
        proof {
            assert(k == n);
        }
        Some(total)
    }

    /// The sum of the values that follow the last of each history.
    pub fn sum_extrapolated(self) -> (r: i32)
        requires
            self.wf(),
            forall|i: int| 0 <= i < self.view().len() ==> next_fits(#[trigger] self.view()[i], 0),
            forall|k: int|
                0 <= k <= self.view().len() ==> in_i32(#[trigger] sum_next(self.view(), k)),
        ensures
            r == sum_next(self.view(), self.view().len() as int),
    {
        let ghost hs = self.view();
        let mut histories = self.histories;
        let mut total: i32 = 0;
        let ghost n = histories.len() as int;
        let ghost mut k: int = 0;
        while histories.len() > 0
            invariant
                0 <= k <= n,
                histories.len() == n - k,
                n == hs.len(),
                forall|i: int|
                    0 <= i < histories.len() ==> (#[trigger] histories@[i]).view() == hs[k + i]
                        && hs[k + i].len() > 0,
                forall|i: int| 0 <= i < hs.len() ==> next_fits(#[trigger] hs[i], 0),
                forall|j: int| 0 <= j <= hs.len() ==> in_i32(#[trigger] sum_next(hs, j)),
                total == sum_next(hs, k),
            decreases histories.len(),
        {
            let ghost waiting = histories@;
            let h = histories.remove(0);
            proof {
                assert(h.view() == hs[k]);
                assert forall|i: int| 0 <= i < histories.len() implies (#[trigger] histories@[i]).view()
                    == hs[k + 1 + i] && hs[k + 1 + i].len() > 0 by {
                    assert(histories@[i] == waiting[i + 1]);
                }
                assert(in_i32(sum_next(hs, k + 1)));
                k = k + 1;
            }
            let next = h.pred_next();
            total = total + next;
        }
        proof {
            assert(k == n);
        }
        total
    }

    /// The sum of the values that come before the first of each history.
    pub fn sum_extrapolated_backwards(self) -> (r: i32)
        requires
            self.wf(),
            forall|i: int|
                0 <= i < self.view().len() ==> prev_fits(#[trigger] self.view()[i], 0, 1),
            forall|k: int|
                0 <= k <= self.view().len() ==> in_i32(#[trigger] sum_prev(self.view(), k)),
        ensures
            r == sum_prev(self.view(), self.view().len() as int),
    {
        let ghost hs = self.view();
        let mut histories = self.histories;
        let mut total: i32 = 0;
        let ghost n = histories.len() as int;
        let ghost mut k: int = 0;
        while histories.len() > 0
            invariant
                0 <= k <= n,
                histories.len() == n - k,
                n == hs.len(),
                forall|i: int|
                    0 <= i < histories.len() ==> (#[trigger] histories@[i]).view() == hs[k + i]
                        && hs[k + i].len() > 0,
                forall|i: int| 0 <= i < hs.len() ==> prev_fits(#[trigger] hs[i], 0, 1),
                forall|j: int| 0 <= j <= hs.len() ==> in_i32(#[trigger] sum_prev(hs, j)),
                total == sum_prev(hs, k),
            decreases histories.len(),
        {
            let ghost waiting = histories@;
            let h = histories.remove(0);
            proof {
                assert(h.view() == hs[k]);
                assert forall|i: int| 0 <= i < histories.len() implies (#[trigger] histories@[i]).view()
                    == hs[k + 1 + i] && hs[k + 1 + i].len() > 0 by {
                    assert(histories@[i] == waiting[i + 1]);
                }
                assert(in_i32(sum_prev(hs, k + 1)));
                k = k + 1;
            }
            let prev = h.pred_prev();
            total = total + prev;
        }
        proof {
            assert(k == n);
        }
        total
    }

    /// Reads a report: one line for each history, its values parted by white
    /// space.
    pub fn from_bytes(text: &[u8]) -> (r: Result<Report, InputError>)
        ensures
            match (r, report_of(text@)) {
                (Ok(report), Ok(model)) => report.view() == model && report.wf(),
                (Err(e), Err(f)) => e == f,
                _ => false,
            },
    {
        let ghost t = text@;
        let spans = split_lines(text);
        let ghost ls = lines(t);
        // Every line is read, so that a number that is badly written is found
        // before a line without numbers.
        let mut histories: Vec<History> = Vec::new();
        let mut empty_line = false;
        let mut y: usize = 0;
        while y < spans.len()
            invariant
                y <= spans.len(),
                t == text@,
                ls == lines(t),
                spans.len() == ls.len(),
                crate::text::spans_hold(t, 0, t.len() as int, spans@, ls),
                forall|i: int|
                    0 <= i < y ==> (#[trigger] signed_list(
                        words(ls[i]),
                        i32::MIN as int,
                        i32::MAX as int,
                    )) is Some,
                empty_line <==> exists|i: int| 0 <= i < y && (#[trigger] words(ls[i])).len() == 0,
                !empty_line ==> histories.len() == y,
                !empty_line ==> forall|i: int|
                    0 <= i < y ==> (#[trigger] histories@[i]).view() == signed_list(
                        words(ls[i]),
                        i32::MIN as int,
                        i32::MAX as int,
                    )->Some_0 && histories@[i].view().len() > 0,
            decreases spans.len() - y,
        {
            let (from, to) = spans[y];
            let found = split_whitespace(text, from, to);
            let ghost ws = words(ls[y as int]);
            proof {
                lemma_spans_in_text(t, from as int, to as int, found@, ws);
            }
            let values = match parse_signed_spans(
                text,
                &found,
                i32::MIN as i64,
                i32::MAX as i64,
                Ghost(ws),
            ) {
                Some(v) => v,
                None => {
                    proof {
                        assert(ws == words(ls[y as int]));
                        assert(signed_list(ws, i32::MIN as int, i32::MAX as int) is None);
                        assert(signed_list(words(ls[y as int]), i32::MIN as int, i32::MAX as int)
                            is None);
                        assert(ls == lines(t));
                        assert(report_of(t) == Err::<Seq<Seq<int>>, InputError>(
                            InputError::Number,
                        ));
                    }
                    return Err(InputError::Number);
                },
            };
            proof {
                assert(as_ints(values@).len() == ws.len());
                assert(words(ls[y as int]).len() == values.len());
            }
            if values.len() == 0 {
                empty_line = true;
            } else if !empty_line {
                let ghost model = signed_list(ws, i32::MIN as int, i32::MAX as int)->Some_0;
                let mut nums: Vec<i32> = Vec::new();
                let mut i: usize = 0;
                while i < values.len()
                    invariant
                        i <= values.len(),
                        nums.len() == i,
                        as_ints(values@) == model,
                        model.len() == values.len(),
                        forall|j: int| 0 <= j < model.len() ==> in_i32(#[trigger] model[j]),
                        forall|j: int| 0 <= j < i ==> nums@[j] == values@[j],
                    decreases values.len() - i,
                {
                    proof {
                        assert(model[i as int] == values@[i as int]);
                    }
                    nums.push(values[i] as i32);
                    i += 1;
                }
                proof {
                    assert(ints(nums@) =~= model);
                }
                histories.push(History::new(nums));
            }
            y += 1;
        }
        if empty_line {
            return Err(InputError::Value);
        }
        proof {
            assert forall|i: int| 0 <= i < ls.len() implies (#[trigger] words(ls[i])).len() != 0 by {}
        }
        let report = Report { histories };
        proof {
            assert(report.view() =~= report_of(t)->Ok_0);
        }
        Ok(report)
    }

    /// Reads a report.
    pub fn parse(s: &str) -> (r: Result<Report, InputError>)
        ensures
            match (r, report_of(s.spec_bytes())) {
                (Ok(report), Ok(model)) => report.view() == model && report.wf(),
                (Err(e), Err(f)) => e == f,
                _ => false,
            },
    {
        Report::from_bytes(s.as_bytes())
    }
}

impl std::str::FromStr for Report {
    type Err = InputError;

    fn from_str(s: &str) -> (r: Result<Self, Self::Err>) {
        Report::parse(s)
    }
}

} // verus!
