//! Rows of springs, some of them damaged, some of unknown state: in how many
//! ways the unknown ones can be damaged or not, so that the damaged springs
//! make groups of the given sizes.
use crate::grids::CountGrid;
use crate::text::{
    as_nats, fields, lemma_spans_in_text, lines, parse_unsigned_spans, split, split_lines,
    split_once, split_once_spec, unsigned_list, InputError,
};
use vstd::array::array_as_slice;
use vstd::prelude::*;
use vstd::string::StringSliceAdditionalSpecFns;

verus! {

/// The rows of a field.
pub struct Field {
    springs: Vec<Springs>,
}

/// A row of springs, with a spring that works put before it, and the sizes of
/// its groups of damaged springs.
pub struct Springs {
    row: Vec<u8>,
    groups: Vec<usize>,
}

/// A spring that works.
pub const WORKING: u8 = 46;

/// A spring that is damaged.
pub const DAMAGED: u8 = 35;

/// A spring of which nothing is known.
pub const UNKNOWN: u8 = 63;

/// The place of the first damaged spring of a row, or the length of the row.
pub open spec fn first_damaged(row: Seq<u8>) -> int
    decreases row.len(),
{
    if row.len() == 0 {
        0
    } else if row[0] == DAMAGED {
        0
    } else {
        1 + first_damaged(row.drop_first())
    }
}

/// The springs from place `from` up to place `to` may all be damaged.
pub open spec fn may_be_damaged(row: Seq<u8>, from: int, to: int) -> bool {
    forall|k: int| from <= k < to ==> (#[trigger] row[k]) == UNKNOWN || row[k] == DAMAGED
}

/// The number of ways in which the first `j` springs of the row can make the
/// first `i` groups. No groups are made in one way as long as no spring is
/// known to be damaged. Otherwise the last of the springs either works, and the
/// springs before it make the groups; or it ends the last group, which has
/// a working spring before it, and the springs before that make the groups
/// before the last.
pub open spec fn ways(row: Seq<u8>, groups: Seq<usize>, i: int, j: int) -> nat
    decreases i, j,
{
    if i <= 0 {
        if 0 <= j <= first_damaged(row) {
            1
        } else {
            0
        }
    } else if j <= 0 {
        0
    } else {
        let last = row[j - 1];
        let size = groups[i - 1] as int;
        let working: nat = if last == WORKING || last == UNKNOWN {
            ways(row, groups, i, j - 1)
        } else {
            0
        };
        let closing: nat = if j > size && (last == DAMAGED || last == UNKNOWN) && may_be_damaged(
            row,
            j - size,
            j,
        ) && (row[j - size - 1] == UNKNOWN || row[j - size - 1] == WORKING) {
            ways(row, groups, i - 1, j - size - 1)
        } else {
            0
        };
        working + closing
    }
}

/// Every number of ways that is met on the way fits in 64 bits.
pub open spec fn ways_fit(row: Seq<u8>, groups: Seq<usize>) -> bool {
    forall|i: int, j: int|
        0 <= i <= groups.len() && 0 <= j <= row.len() ==> (#[trigger] ways(row, groups, i, j))
            <= u64::MAX
}

/// The number of ways for a whole row.
pub open spec fn arrangements(row: Seq<u8>, groups: Seq<usize>) -> nat {
    ways(row, groups, groups.len() as int, row.len() as int)
}

/// A row unfolded: five times the row, with a spring of unknown state
/// between one and the next, and the spring that works before the first only.
pub open spec fn unfolded_row(row: Seq<u8>) -> Seq<u8> {
    let again = seq![UNKNOWN] + row.skip(1);
    row + again + again + again + again
}

/// The groups unfolded: five times the groups.
pub open spec fn unfolded_groups(groups: Seq<usize>) -> Seq<usize> {
    groups + groups + groups + groups + groups
}

/// The greatest number of entries of the table of a row.
pub const MAX_TABLE: usize = 0x7fff_ffff;

/// Whether the ways of a row can be counted: the table can be held, and every
/// number in it fits in 64 bits.
pub open spec fn can_count(m: RowModel) -> bool {
    (m.groups.len() + 1) * (m.row.len() + 1) <= MAX_TABLE && ways_fit(m.row, m.groups)
}

/// The row unfolded, as mathematics.
pub open spec fn unfolded(m: RowModel) -> RowModel {
    RowModel { row: unfolded_row(m.row), groups: unfolded_groups(m.groups) }
}

/// A row with its groups, as mathematics.
pub struct RowModel {
    pub row: Seq<u8>,
    pub groups: Seq<usize>,
}

/// The sum of the numbers of ways of the first `k` rows.
pub open spec fn total_ways(rows: Seq<RowModel>, k: int) -> nat
    decreases k,
{
    if k <= 0 {
        0
    } else {
        total_ways(rows, k - 1) + arrangements(rows[k - 1].row, rows[k - 1].groups)
    }
}

/// The sum of the numbers of ways of the first `k` rows, unfolded.
pub open spec fn total_unfolded_ways(rows: Seq<RowModel>, k: int) -> nat
    decreases k,
{
    if k <= 0 {
        0
    } else {
        total_unfolded_ways(rows, k - 1) + arrangements(
            unfolded_row(rows[k - 1].row),
            unfolded_groups(rows[k - 1].groups),
        )
    }
}

/// The sizes as mathematics.
pub open spec fn sizes(v: Seq<usize>) -> Seq<nat> {
    Seq::new(v.len(), |i: int| v[i] as nat)
}

/// The row that a line stands for: the springs, a blank, and the sizes of the
/// groups, parted by commas.
pub open spec fn row_of(t: Seq<u8>) -> Result<(Seq<u8>, Seq<nat>), InputError> {
    match split_once_spec(t, seq![32u8]) {
        None => Err(InputError::Syntax),
        Some((springs, numbers)) => match unsigned_list(fields(numbers, 44), usize::MAX as nat) {
            None => Err(InputError::Number),
            Some(groups) => Ok((seq![WORKING] + springs, groups)),
        },
    }
}

/// The totals grow with every row.
pub proof fn lemma_total_ways_grow(rows: Seq<RowModel>, a: int, b: int)
    requires
        0 <= a <= b,
    ensures
        total_ways(rows, a) <= total_ways(rows, b),
        total_unfolded_ways(rows, a) <= total_unfolded_ways(rows, b),
    decreases b,
{
    if a < b {
        lemma_total_ways_grow(rows, a, b - 1);
    }
}

impl Springs {
    /// The row and its groups.
    pub closed spec fn view(&self) -> RowModel {
        RowModel { row: self.row@, groups: self.groups@ }
    }

    /// The number of springs of the row.
    pub fn row_len(&self) -> (n: usize)
        ensures
            n == self.view().row.len(),
    {
        self.row.len()
    }

    /// A row of springs with the sizes of its groups. The first spring of the
    /// row is one that works, put there for the count's sake.
    pub fn new(row: Vec<u8>, groups: Vec<usize>) -> (r: Self)
        ensures
            r.view() == (RowModel { row: row@, groups: groups@ }),
    {
        Springs { row, groups }
    }

    /// The number of ways in which the springs of unknown state can be damaged
    /// or not, where the table of the numbers on the way can be held and every
    /// one of them fits in 64 bits.
    pub fn checked_arrangement_count(&self) -> (r: Option<u64>)
        ensures
            r == (if can_count(self.view()) {
                Some(arrangements(self.view().row, self.view().groups) as u64)
            } else {
                None
            }),
    {
        if self.groups.len() >= MAX_TABLE || self.row.len() >= MAX_TABLE {
            proof {
                let a = self.groups@.len() as int;
                let b = self.row@.len() as int;
                assert((a + 1) * (b + 1) > MAX_TABLE) by (nonlinear_arith)
                    requires
                        a >= 0,
                        b >= 0,
                        a >= MAX_TABLE || b >= MAX_TABLE,
                ;
            }
            return None;
        }
        proof {
            let a = self.groups@.len() as int;
            let b = self.row@.len() as int;
            assert((a + 1) * (b + 1) <= 0x8000_0000 * 0x8000_0000) by (nonlinear_arith)
                requires
                    0 <= a < 0x7fff_ffff,
                    0 <= b < 0x7fff_ffff,
            ;
        }
        if (self.groups.len() as u64 + 1) * (self.row.len() as u64 + 1) > MAX_TABLE as u64 {
            return None;
        }
        proof {
            let a = self.groups@.len() as int;
            let b = self.row@.len() as int;
            assert(a + 1 <= (a + 1) * (b + 1) && b + 1 <= (a + 1) * (b + 1)) by (nonlinear_arith)
                requires
                    a >= 0,
                    b >= 0,
            ;
        }
        // counts[(i, j)] holds the number of ways for groups[..i] and row[..j]
        let n = self.groups.len() + 1;
        let m = self.row.len() + 1;
        let ghost row = self.row@;
        let ghost groups = self.groups@;
        let mut counts = CountGrid::zeros(n, m);

        // The first row of the table: no groups.
        let mut first_spring: usize = 0;
        proof {
            assert(row.skip(0) =~= row);
        }
        while first_spring < self.row.len() && self.row[first_spring] != DAMAGED
            invariant
                first_spring <= self.row.len(),
                row == self.row@,
                first_damaged(row) == first_spring + first_damaged(row.skip(first_spring as int)),
            decreases self.row.len() - first_spring,
        {
            proof {
                assert(row.skip(first_spring as int)[0] == row[first_spring as int]);
                assert(row.skip(first_spring as int).drop_first() =~= row.skip(first_spring + 1));
            }
            first_spring += 1;
        }
        proof {
            if first_spring < row.len() {
                assert(row.skip(first_spring as int)[0] == row[first_spring as int]);
            }
            assert(first_damaged(row) == first_spring);
        }
        let mut j: usize = 0;
        while j <= first_spring
            invariant
                j <= first_spring + 1,
                first_spring < m,
                n >= 1,
                counts@.len() == n,
                forall|y: int| 0 <= y < n ==> (#[trigger] counts@[y]).len() == m,
                forall|y: int, x: int|
                    0 <= y < n && 0 <= x < m ==> (#[trigger] counts@[y][x]) == (if y == 0 && x < j {
                        1u64
                    } else {
                        0u64
                    }),
            decreases first_spring + 1 - j,
        {
            counts.set(0, j, 1);
            j += 1;
        }
        // The rest of the table, row by row.

        let mut i: usize = 1;
        while i < n
            invariant
                1 <= i <= n,
                n == groups.len() + 1,
                m == row.len() + 1,
                row == self.row@,
                groups == self.groups@,
                counts@.len() == n,
                forall|y: int| 0 <= y < n ==> (#[trigger] counts@[y]).len() == m,
                forall|y: int, x: int|
                    0 <= y < i && 0 <= x < m ==> (#[trigger] counts@[y][x]) == ways(
                        row,
                        groups,
                        y,
                        x,
                    ),
                forall|y: int, x: int| i <= y < n && 0 <= x < m ==> (#[trigger] counts@[y][x]) == 0,
            decreases n - i,
        {
            let mut j: usize = 1;
            while j < m
                invariant
                    1 <= j <= m,
                    1 <= i < n,
                    n == groups.len() + 1,
                    m == row.len() + 1,
                    row == self.row@,
                    groups == self.groups@,
                        counts@.len() == n,
                    forall|y: int| 0 <= y < n ==> (#[trigger] counts@[y]).len() == m,
                    forall|y: int, x: int|
                        0 <= y < i && 0 <= x < m ==> (#[trigger] counts@[y][x]) == ways(
                            row,
                            groups,
                            y,
                            x,
                        ),
                    forall|x: int|
                        0 <= x < j ==> (#[trigger] counts@[i as int][x]) == ways(
                            row,
                            groups,
                            i as int,
                            x,
                        ),
                    forall|y: int, x: int|
                        i < y < n && 0 <= x < m ==> (#[trigger] counts@[y][x]) == 0,
                decreases m - j,
            {
                let count = match self.checked_single_count(i, j, &counts) {
                    Some(count) => count,
                    None => {
                        proof {
                            assert(ways(row, groups, i as int, j as int) > u64::MAX);
                        }
                        return None;
                    },
                };
                counts.set(i, j, count);
                j += 1;
            }
            i += 1;
        }
        proof {
            assert forall|y: int, x: int|
                0 <= y <= groups.len() && 0 <= x <= row.len() implies (#[trigger] ways(
                row,
                groups,
                y,
                x,
            )) <= u64::MAX by {
                assert(counts@[y][x] == ways(row, groups, y, x));
            }
        }
        Some(counts.get(n - 1, m - 1))
    }

    /// The number of ways in which the springs of unknown state can be damaged
    /// or not.
    pub fn arrangement_count(&self) -> (r: u64)
        requires
            ways_fit(self.view().row, self.view().groups),
            (self.view().groups.len() + 1) * (self.view().row.len() + 1) <= isize::MAX,
        ensures
            r == arrangements(self.view().row, self.view().groups),
    {
        proof {
            let a = self.groups@.len() as int;
            let b = self.row@.len() as int;
            assert(a + 1 <= (a + 1) * (b + 1) && b + 1 <= (a + 1) * (b + 1)) by (nonlinear_arith)
                requires
                    a >= 0,
                    b >= 0,
            ;
        }
        // counts[(i, j)] holds the number of ways for groups[..i] and row[..j]
        let n = self.groups.len() + 1;
        let m = self.row.len() + 1;
        let ghost row = self.row@;
        let ghost groups = self.groups@;
        let mut counts = CountGrid::zeros(n, m);

        // The first row of the table: no groups.
        let mut first_spring: usize = 0;
        proof {
            assert(row.skip(0) =~= row);
        }
        while first_spring < self.row.len() && self.row[first_spring] != DAMAGED
            invariant
                first_spring <= self.row.len(),
                row == self.row@,
                first_damaged(row) == first_spring + first_damaged(row.skip(first_spring as int)),
            decreases self.row.len() - first_spring,
        {
            proof {
                assert(row.skip(first_spring as int)[0] == row[first_spring as int]);
                assert(row.skip(first_spring as int).drop_first() =~= row.skip(first_spring + 1));
            }
            first_spring += 1;
        }
        proof {
            if first_spring < row.len() {
                assert(row.skip(first_spring as int)[0] == row[first_spring as int]);
            }
            assert(first_damaged(row) == first_spring);
        }
        let mut j: usize = 0;
        while j <= first_spring
            invariant
                j <= first_spring + 1,
                first_spring < m,
                n >= 1,
                counts@.len() == n,
                forall|y: int| 0 <= y < n ==> (#[trigger] counts@[y]).len() == m,
                forall|y: int, x: int|
                    0 <= y < n && 0 <= x < m ==> (#[trigger] counts@[y][x]) == (if y == 0 && x < j {
                        1u64
                    } else {
                        0u64
                    }),
            decreases first_spring + 1 - j,
        {
            counts.set(0, j, 1);
            j += 1;
        }
        // The rest of the table, row by row.

        let mut i: usize = 1;
        while i < n
            invariant
                1 <= i <= n,
                n == groups.len() + 1,
                m == row.len() + 1,
                row == self.row@,
                groups == self.groups@,
                ways_fit(row, groups),
                counts@.len() == n,
                forall|y: int| 0 <= y < n ==> (#[trigger] counts@[y]).len() == m,
                forall|y: int, x: int|
                    0 <= y < i && 0 <= x < m ==> (#[trigger] counts@[y][x]) == ways(
                        row,
                        groups,
                        y,
                        x,
                    ),
                forall|y: int, x: int| i <= y < n && 0 <= x < m ==> (#[trigger] counts@[y][x]) == 0,
            decreases n - i,
        {
            let mut j: usize = 1;
            while j < m
                invariant
                    1 <= j <= m,
                    1 <= i < n,
                    n == groups.len() + 1,
                    m == row.len() + 1,
                    row == self.row@,
                    groups == self.groups@,
                    ways_fit(row, groups),
                    counts@.len() == n,
                    forall|y: int| 0 <= y < n ==> (#[trigger] counts@[y]).len() == m,
                    forall|y: int, x: int|
                        0 <= y < i && 0 <= x < m ==> (#[trigger] counts@[y][x]) == ways(
                            row,
                            groups,
                            y,
                            x,
                        ),
                    forall|x: int|
                        0 <= x < j ==> (#[trigger] counts@[i as int][x]) == ways(
                            row,
                            groups,
                            i as int,
                            x,
                        ),
                    forall|y: int, x: int|
                        i < y < n && 0 <= x < m ==> (#[trigger] counts@[y][x]) == 0,
                decreases m - j,
            {
                let count = self.calc_single_count(i, j, &counts);
                counts.set(i, j, count);
                j += 1;
            }
            i += 1;
        }
        counts.get(n - 1, m - 1)
    }

    /// The number of ways for the first `j` springs and the first `i` groups,
    /// from the numbers for fewer springs and groups.
    pub fn calc_single_count(&self, i: usize, j: usize, counts: &CountGrid) -> (r: u64)
        requires
            1 <= i <= self.view().groups.len(),
            1 <= j <= self.view().row.len(),
            ways_fit(self.view().row, self.view().groups),
            counts@.len() == self.view().groups.len() + 1,
            forall|y: int|
                0 <= y <= self.view().groups.len() ==> (#[trigger] counts@[y]).len()
                    == self.view().row.len() + 1,
            forall|y: int, x: int|
                0 <= y < i && 0 <= x <= self.view().row.len() ==> (#[trigger] counts@[y][x])
                    == ways(self.view().row, self.view().groups, y, x),
            forall|x: int|
                0 <= x < j ==> (#[trigger] counts@[i as int][x]) == ways(
                    self.view().row,
                    self.view().groups,
                    i as int,
                    x,
                ),
        ensures
            r == ways(self.view().row, self.view().groups, i as int, j as int),
    {
        let row_char = self.row[j - 1];
        let group_len = self.groups[i - 1];
        let ghost row = self.row@;
        let ghost groups = self.groups@;
        proof {
            assert(ways(row, groups, i as int, j as int) <= u64::MAX);
        }
        let mut answer: u64 = 0;
        if row_char == WORKING || row_char == UNKNOWN {
            answer = answer + counts.get(i, j - 1);
        }
        if j > group_len && (row_char == DAMAGED || row_char == UNKNOWN) {
            // The last `group_len` springs should be damaged
            let mut n_springs = true;
            let mut k: usize = j - group_len;
            while k < j
                invariant
                    j - group_len <= k <= j <= self.row.len(),
                    row == self.row@,
                    n_springs == may_be_damaged(row, j - group_len, k as int),
                decreases j - k,
            {
                let c = self.row[k];
                if !(c == UNKNOWN || c == DAMAGED) {
                    n_springs = false;
                }
                k += 1;
            }
            // and the one before them should not.
            let before = self.row[j - group_len - 1];
            let n_springs = n_springs && (before == UNKNOWN || before == WORKING);
            if n_springs {
                answer = answer + counts.get(i - 1, j - group_len - 1);
            }
        }
        answer
    }

    /// The number of ways for the first `i` groups and the first `j` springs,
    /// from the numbers for fewer groups or springs, where it fits in 64 bits.
    pub fn checked_single_count(&self, i: usize, j: usize, counts: &CountGrid) -> (r: Option<u64>)
        requires
            1 <= i <= self.view().groups.len(),
            1 <= j <= self.view().row.len(),
            counts@.len() == self.view().groups.len() + 1,
            forall|y: int|
                0 <= y <= self.view().groups.len() ==> (#[trigger] counts@[y]).len()
                    == self.view().row.len() + 1,
            forall|y: int, x: int|
                0 <= y < i && 0 <= x <= self.view().row.len() ==> (#[trigger] counts@[y][x])
                    == ways(self.view().row, self.view().groups, y, x),
            forall|x: int|
                0 <= x < j ==> (#[trigger] counts@[i as int][x]) == ways(
                    self.view().row,
                    self.view().groups,
                    i as int,
                    x,
                ),
        ensures
            r == (if ways(self.view().row, self.view().groups, i as int, j as int) <= u64::MAX {
                Some(ways(self.view().row, self.view().groups, i as int, j as int) as u64)
            } else {
                None
            }),
    {
        let row_char = self.row[j - 1];
        let group_len = self.groups[i - 1];
        let ghost row = self.row@;
        let ghost groups = self.groups@;
        let mut answer: u64 = 0;
        if row_char == WORKING || row_char == UNKNOWN {
            answer = answer + counts.get(i, j - 1);
        }
        if j > group_len && (row_char == DAMAGED || row_char == UNKNOWN) {
            // The last `group_len` springs should be damaged
            let mut n_springs = true;
            let mut k: usize = j - group_len;
            while k < j
                invariant
                    j - group_len <= k <= j <= self.row.len(),
                    row == self.row@,
                    n_springs == may_be_damaged(row, j - group_len, k as int),
                decreases j - k,
            {
                let c = self.row[k];
                if !(c == UNKNOWN || c == DAMAGED) {
                    n_springs = false;
                }
                k += 1;
            }
            // and the one before them should not.
            let before = self.row[j - group_len - 1];
            let n_springs = n_springs && (before == UNKNOWN || before == WORKING);
            if n_springs {
                answer = match answer.checked_add(counts.get(i - 1, j - group_len - 1)) {
                    Some(v) => v,
                    None => {
                        return None;
                    },
                };
            }
        }
        Some(answer)
    }


    /// The row unfolded to five times its length.
    pub fn extend(&self) -> (r: Self)
        requires
            self.view().row.len() >= 1,
        ensures
            r.view().row == unfolded_row(self.view().row),
            r.view().groups == unfolded_groups(self.view().groups),
    {
        let mut extended_row: Vec<u8> = Vec::new();
        let mut extended_groups: Vec<usize> = Vec::new();
        let ghost row = self.row@;
        let ghost groups = self.groups@;
        let ghost again = seq![UNKNOWN] + row.skip(1);
        let mut i: usize = 0;
        while i < self.row.len()
            invariant
                i <= self.row.len(),
                row == self.row@,
                extended_row@ == row.take(i as int),
            decreases self.row.len() - i,
        {
            extended_row.push(self.row[i]);
            proof {
                assert(row.take(i + 1) =~= row.take(i as int).push(row[i as int]));
            }
            i += 1;
        }
        proof {
            assert(row.take(row.len() as int) =~= row);
        }
        let mut times: usize = 0;
        let ghost mut so_far = row;
        while times < 4
            invariant
                times <= 4,
                row == self.row@,
                row.len() >= 1,
                again == seq![UNKNOWN] + row.skip(1),
                extended_row@ == so_far,
                times == 0 ==> so_far == row,
                times == 1 ==> so_far == row + again,
                times == 2 ==> so_far == row + again + again,
                times == 3 ==> so_far == row + again + again + again,
                times == 4 ==> so_far == row + again + again + again + again,
            decreases 4 - times,
        {
            let ghost start = extended_row@;
            extended_row.push(UNKNOWN);
            // The spring that was put before the row is left out.
            let mut i: usize = 1;
            while i < self.row.len()
                invariant
                    1 <= i <= self.row.len(),
                    row == self.row@,
                    extended_row@ == start + seq![UNKNOWN] + row.subrange(1, i as int),
                decreases self.row.len() - i,
            {
                extended_row.push(self.row[i]);
                proof {
                    assert(row.subrange(1, i + 1) =~= row.subrange(1, i as int).push(row[i as int]));
                }
                i += 1;
            }
            proof {
                assert(row.subrange(1, row.len() as int) =~= row.skip(1));
                assert(extended_row@ =~= start + again);
                so_far = start + again;
            }
            times += 1;
        }
        let mut times: usize = 0;
        let ghost mut so_far = Seq::<usize>::empty();
        while times < 5
            invariant
                times <= 5,
                groups == self.groups@,
                extended_groups@ == so_far,
                times == 0 ==> so_far == Seq::<usize>::empty(),
                times == 1 ==> so_far == groups,
                times == 2 ==> so_far == groups + groups,
                times == 3 ==> so_far == groups + groups + groups,
                times == 4 ==> so_far == groups + groups + groups + groups,
                times == 5 ==> so_far == groups + groups + groups + groups + groups,
            decreases 5 - times,
        {
            let ghost start = extended_groups@;
            let mut i: usize = 0;
            while i < self.groups.len()
                invariant
                    i <= self.groups.len(),
                    groups == self.groups@,
                    extended_groups@ == start + groups.take(i as int),
                decreases self.groups.len() - i,
            {
                extended_groups.push(self.groups[i]);
                proof {
                    assert(groups.take(i + 1) =~= groups.take(i as int).push(groups[i as int]));
                }
                i += 1;
            }
            proof {
                assert(groups.take(groups.len() as int) =~= groups);
                assert(Seq::<usize>::empty() + groups =~= groups);
                so_far = start + groups;
            }
            times += 1;
        }
        Springs { row: extended_row, groups: extended_groups }
    }

    /// Reads a row from the text between `from` and `to`.
    #[verifier::loop_isolation(false)]
    pub fn from_bytes(text: &[u8], from: usize, to: usize) -> (r: Result<Springs, InputError>)
        requires
            from <= to <= text.len(),
        ensures
            match (r, row_of(text@.subrange(from as int, to as int))) {
                (Ok(springs), Ok(model)) => springs.view().row == model.0 && sizes(
                    springs.view().groups,
                ) == model.1,
                (Err(e), Err(f)) => e == f,
                _ => false,
            },
    {
        let space: [u8; 1] = [32];
        proof {
            assert(space@ =~= seq![32u8]);
        }
        let at = match split_once(text, from, to, array_as_slice(&space)) {
            Some(at) => at,
            None => {
                return Err(InputError::Syntax);
            },
        };
        // A spring that works is put before the row.
        let mut row: Vec<u8> = Vec::new();
        row.push(WORKING);
        let mut i: usize = from;
        while i < at
            invariant
                from <= i <= at,
                row@ == seq![WORKING] + text@.subrange(from as int, i as int),
            decreases at - i,
        {
            row.push(text[i]);
            proof {
                assert(text@.subrange(from as int, i + 1) =~= text@.subrange(
                    from as int,
                    i as int,
                ).push(text@[i as int]));
            }
            i += 1;
        }
        let found = split(text, at + 1, to, 44);
        let ghost pieces = fields(text@.subrange(at + 1, to as int), 44);
        proof {
            lemma_spans_in_text(text@, at + 1, to as int, found@, pieces);
        }
        let max: u64 = usize::MAX as u64;
        let values = match parse_unsigned_spans(text, &found, max, Ghost(pieces)) {
            Some(v) => v,
            None => {
                return Err(InputError::Number);
            },
        };
        let ghost model = unsigned_list(pieces, max as nat)->Some_0;
        proof {
            assert(max as nat == usize::MAX as nat);
            assert(unsigned_list(pieces, max as nat) is Some);
            assert(model == as_nats(values@));
            assert(model.len() == pieces.len());
            assert forall|j: int| 0 <= j < pieces.len() implies (#[trigger] values@[j])
                <= usize::MAX by {
                assert(crate::text::unsigned_value(pieces[j], max as nat) is Some);
                assert(model[j] == values@[j] as nat);
            }
        }
        let mut groups: Vec<usize> = Vec::new();
        let mut k: usize = 0;
        while k < values.len()
            invariant
                k <= values.len(),
                groups.len() == k,
                forall|j: int| 0 <= j < k ==> groups@[j] == values@[j],
            decreases values.len() - k,
        {
            groups.push(values[k] as usize);
            k += 1;
        }
        proof {
            assert(sizes(groups@) =~= model);
        }
        Ok(Springs { row, groups })
    }
}

impl Field {
    /// The rows and their groups.
    pub closed spec fn view(&self) -> Seq<RowModel> {
        Seq::new(self.springs@.len(), |i: int| self.springs@[i].view())
    }

    /// The sum of the numbers of ways of the rows, where those of every row
    /// can be counted and the sum fits in 64 bits.
    pub fn checked_total_arrangement_count(&self) -> (r: Option<u64>)
        ensures
            r == (if (forall|i: int| 0 <= i < self.view().len() ==> can_count(#[trigger] self.view()[i]))
                && total_ways(self.view(), self.view().len() as int) <= u64::MAX {
                Some(total_ways(self.view(), self.view().len() as int) as u64)
            } else {
                None
            }),
    {
        let mut total: u64 = 0;
        let mut i: usize = 0;
        while i < self.springs.len()
            invariant
                i <= self.springs.len(),
                self.springs.len() == self.view().len(),
                forall|k: int| 0 <= k < i ==> can_count(#[trigger] self.view()[k]),
                total == total_ways(self.view(), i as int),
            decreases self.springs.len() - i,
        {
            proof {
                lemma_total_ways_grow(self.view(), i + 1, self.view().len() as int);
                assert(self.view()[i as int] == self.springs@[i as int].view());
            }
            let count = match self.springs[i].checked_arrangement_count() {
                Some(count) => count,
                None => {
                    proof {
                        assert(!can_count(self.view()[i as int]));
                    }
                    return None;
                },
            };
            total = match total.checked_add(count) {
                Some(sum) => sum,
                None => {
                    return None;
                },
            };
            i += 1;
        }
        Some(total)
    }

    /// The sum of the numbers of ways of the rows unfolded, where no row is
    /// empty, those of every row can be counted, and the sum fits in 64 bits.
    pub fn checked_total_arrangement_count_extended(&self) -> (r: Option<u64>)
        ensures
            r == (if (forall|i: int|
                0 <= i < self.view().len() ==> (#[trigger] self.view()[i]).row.len() >= 1
                    && can_count(unfolded(self.view()[i]))) && total_unfolded_ways(
                self.view(),
                self.view().len() as int,
            ) <= u64::MAX {
                Some(total_unfolded_ways(self.view(), self.view().len() as int) as u64)
            } else {
                None
            }),
    {
        let mut total: u64 = 0;
        let mut i: usize = 0;
        while i < self.springs.len()
            invariant
                i <= self.springs.len(),
                self.springs.len() == self.view().len(),
                forall|k: int|
                    0 <= k < i ==> (#[trigger] self.view()[k]).row.len() >= 1 && can_count(
                        unfolded(self.view()[k]),
                    ),
                total == total_unfolded_ways(self.view(), i as int),
            decreases self.springs.len() - i,
        {
            proof {
                lemma_total_ways_grow(self.view(), i + 1, self.view().len() as int);
                assert(self.view()[i as int] == self.springs@[i as int].view());
            }
            if self.springs[i].row_len() == 0 {
                proof {
                    assert(!(self.view()[i as int].row.len() >= 1));
                }
                return None;
            }
            let count = match self.springs[i].extend().checked_arrangement_count() {
                Some(count) => count,
                None => {
                    proof {
                        assert(!can_count(unfolded(self.view()[i as int])));
                    }
                    return None;
                },
            };
            total = match total.checked_add(count) {
                Some(sum) => sum,
                None => {
                    return None;
                },
            };
            i += 1;
        }
        Some(total)
    }

    /// The sum over all rows of the number of ways.
    pub fn total_arrangement_count(&self) -> (r: u64)
        requires
            forall|i: int|
                0 <= i < self.view().len() ==> ways_fit(
                    (#[trigger] self.view()[i]).row,
                    self.view()[i].groups,
                ) && (self.view()[i].groups.len() + 1) * (self.view()[i].row.len() + 1)
                    <= isize::MAX,
            total_ways(self.view(), self.view().len() as int) <= u64::MAX,
        ensures
            r == total_ways(self.view(), self.view().len() as int),
    {
        let mut total: u64 = 0;
        let mut i: usize = 0;
        while i < self.springs.len()
            invariant
                i <= self.springs.len(),
                self.springs.len() == self.view().len(),
                forall|i: int|
                    0 <= i < self.view().len() ==> ways_fit(
                        (#[trigger] self.view()[i]).row,
                        self.view()[i].groups,
                    ) && (self.view()[i].groups.len() + 1) * (self.view()[i].row.len() + 1)
                        <= isize::MAX,
                total_ways(self.view(), self.view().len() as int) <= u64::MAX,
                total == total_ways(self.view(), i as int),
            decreases self.springs.len() - i,
        {
            proof {
                lemma_total_ways_grow(self.view(), i + 1, self.view().len() as int);
                assert(self.view()[i as int] == self.springs@[i as int].view());
            }
            total = total + self.springs[i].arrangement_count();
            i += 1;
        }
        total
    }

    /// The sum over all rows of the number of ways, with every row unfolded to
    /// five times its length.
    pub fn total_arrangement_count_extended(&self) -> (r: u64)
        requires
            forall|i: int|
                0 <= i < self.view().len() ==> (#[trigger] self.view()[i]).row.len() >= 1
                    && ways_fit(
                    unfolded_row(self.view()[i].row),
                    unfolded_groups(self.view()[i].groups),
                ) && (unfolded_groups(self.view()[i].groups).len() + 1) * (unfolded_row(
                    self.view()[i].row,
                ).len() + 1) <= isize::MAX,
            total_unfolded_ways(self.view(), self.view().len() as int) <= u64::MAX,
        ensures
            r == total_unfolded_ways(self.view(), self.view().len() as int),
    {
        let mut total: u64 = 0;
        let mut i: usize = 0;
        while i < self.springs.len()
            invariant
                i <= self.springs.len(),
                self.springs.len() == self.view().len(),
                forall|i: int|
                    0 <= i < self.view().len() ==> (#[trigger] self.view()[i]).row.len() >= 1
                        && ways_fit(
                        unfolded_row(self.view()[i].row),
                        unfolded_groups(self.view()[i].groups),
                    ) && (unfolded_groups(self.view()[i].groups).len() + 1) * (unfolded_row(
                        self.view()[i].row,
                    ).len() + 1) <= isize::MAX,
                total_unfolded_ways(self.view(), self.view().len() as int) <= u64::MAX,
                total == total_unfolded_ways(self.view(), i as int),
            decreases self.springs.len() - i,
        {
            proof {
                lemma_total_ways_grow(self.view(), i + 1, self.view().len() as int);
                assert(self.view()[i as int] == self.springs@[i as int].view());
            }
            total = total + self.springs[i].extend().arrangement_count();
            i += 1;
        }
        total
    }

    /// Reads a field: one row on each line.
    #[verifier::loop_isolation(false)]
    pub fn from_bytes(text: &[u8]) -> (r: Result<Field, InputError>)
        ensures
            r is Ok <==> forall|i: int|
                0 <= i < lines(text@).len() ==> (#[trigger] row_of(lines(text@)[i])) is Ok,
            r is Ok ==> r->Ok_0.view().len() == lines(text@).len() && forall|i: int|
                0 <= i < lines(text@).len() ==> (#[trigger] r->Ok_0.view()[i]).row == row_of(
                    lines(text@)[i],
                )->Ok_0.0 && sizes(r->Ok_0.view()[i].groups) == row_of(lines(text@)[i])->Ok_0.1,
    {
        let spans = split_lines(text);
        let ghost ls = lines(text@);
        let mut springs: Vec<Springs> = Vec::new();
        let mut i: usize = 0;
        while i < spans.len()
            invariant
                i <= spans.len(),
                springs.len() == i,
                forall|j: int|
                    0 <= j < i ==> (#[trigger] row_of(ls[j])) is Ok && springs@[j].view().row
                        == row_of(ls[j])->Ok_0.0 && sizes(springs@[j].view().groups) == row_of(
                        ls[j],
                    )->Ok_0.1,
            decreases spans.len() - i,
        {
            let (a, b) = spans[i];
            match Springs::from_bytes(text, a, b) {
                Ok(s) => {
                    springs.push(s);
                },
                Err(e) => {
                    proof {
                        assert(row_of(ls[i as int]) is Err);
                    }
                    return Err(e);
                },
            }
            i += 1;
        }
        let field = Field { springs };
        proof {
            assert forall|i: int| 0 <= i < ls.len() implies (#[trigger] field.view()[i]).row
                == row_of(ls[i])->Ok_0.0 && sizes(field.view()[i].groups) == row_of(ls[i])->Ok_0.1 by {
                assert(row_of(ls[i]) is Ok);
            }
        }
        Ok(field)
    }

    /// Reads a field.
    pub fn parse(s: &str) -> (r: Result<Field, InputError>)
        ensures
            r is Ok <==> forall|i: int|
                0 <= i < lines(s.spec_bytes()).len() ==> (#[trigger] row_of(
                    lines(s.spec_bytes())[i],
                )) is Ok,
    {
        Field::from_bytes(s.as_bytes())
    }
}

impl std::str::FromStr for Field {
    type Err = InputError;

    fn from_str(s: &str) -> (r: Result<Self, Self::Err>) {
        Field::parse(s)
    }
}

} // verus!
