//! The distribution of the counts of a frequency table, in exact
//! integers.

use crate::freq::{precedes, table_sorted, table_total, FrequencyEntry};
use vstd::prelude::*;

verus! {

/// The counts of a table, line by line.
pub open spec fn counts_of(table: Seq<FrequencyEntry>) -> Seq<usize> {
    Seq::new(table.len(), |i: int| table[i].0)
}

/// The counts never rise from one to the next.
pub open spec fn never_rising(counts: Seq<usize>) -> bool {
    forall|i: int, j: int| 0 <= i < j < counts.len() ==> counts[i] >= counts[j]
}

/// The sum of the first `upto` counts.
pub open spec fn sum_upto(counts: Seq<usize>, upto: int) -> nat
    decreases upto,
{
    if upto <= 0 {
        0
    } else {
        sum_upto(counts, upto - 1) + counts[upto - 1] as nat
    }
}

/// The sum of the squares of the first `upto` counts.
pub open spec fn squares_upto(counts: Seq<usize>, upto: int) -> nat
    decreases upto,
{
    if upto <= 0 {
        0
    } else {
        squares_upto(counts, upto - 1) + (counts[upto - 1] as nat) * (counts[upto - 1] as nat)
    }
}

/// How many of the first `upto` counts equal `value`.
pub open spec fn times_upto(counts: Seq<usize>, value: usize, upto: int) -> nat
    decreases upto,
{
    if upto <= 0 {
        0
    } else {
        times_upto(counts, value, upto - 1) + if counts[upto - 1] == value {
            1nat
        } else {
            0nat
        }
    }
}

/// How many words have the count `value`.
pub open spec fn times(counts: Seq<usize>, value: usize) -> nat {
    times_upto(counts, value, counts.len() as int)
}

/// The largest number of words that share one of the first `upto` counts.
pub open spec fn most_times_upto(counts: Seq<usize>, upto: int) -> nat
    decreases upto,
{
    if upto <= 0 {
        0
    } else {
        let before = most_times_upto(counts, upto - 1);
        let here = times(counts, counts[upto - 1]);
        if here > before {
            here
        } else {
            before
        }
    }
}

/// The largest number of words that share a count.
pub open spec fn most_times(counts: Seq<usize>) -> nat {
    most_times_upto(counts, counts.len() as int)
}

/// Whether the count at `index` is a most common one, met here for the
/// first time.
pub open spec fn modal_first(counts: Seq<usize>, index: int) -> bool {
    &&& times(counts, counts[index]) == most_times(counts)
    &&& forall|j: int| 0 <= j < index ==> counts[j] != counts[index]
}

/// The sum of the distinct most common counts among the first `upto`.
pub open spec fn modal_sum_upto(counts: Seq<usize>, upto: int) -> nat
    decreases upto,
{
    if upto <= 0 {
        0
    } else {
        modal_sum_upto(counts, upto - 1) + if modal_first(counts, upto - 1) {
            counts[upto - 1] as nat
        } else {
            0nat
        }
    }
}

/// The number of distinct most common counts among the first `upto`.
pub open spec fn modal_ties_upto(counts: Seq<usize>, upto: int) -> nat
    decreases upto,
{
    if upto <= 0 {
        0
    } else {
        modal_ties_upto(counts, upto - 1) + if modal_first(counts, upto - 1) {
            1nat
        } else {
            0nat
        }
    }
}

/// The exact ingredients of the distribution statistics of a table's
/// counts. The mean is `total / entries`; the population variance is
/// `square_total / entries` less the square of the mean; the median is the
/// mean of `median_first` and `median_second`; the mode is `mode_total / mode_ties`. Of a table
/// without lines all of them are zero.
#[derive(Clone, Copy, Debug, PartialEq, Eq, Structural)]
pub struct Distribution {
    /// Number of counts.
    pub entries: usize,
    /// Sum of the counts.
    pub total: usize,
    /// Sum of the squares of the counts.
    pub square_total: u128,
    /// The earlier of the two central counts of the table; where the number
    /// of counts is odd, the central one.
    pub median_first: usize,
    /// The later of the two central counts of the table; where the number
    /// of counts is odd, the central one again.
    pub median_second: usize,
    /// Sum of the distinct counts that are shared by the most words.
    pub mode_total: usize,
    /// Number of distinct counts that are shared by the most words.
    pub mode_ties: usize,
}

/// The distribution of a sequence of counts.
pub open spec fn spec_distribution(counts: Seq<usize>) -> Distribution {
    let n = counts.len() as int;
    if n == 0 {
        Distribution {
            entries: 0,
            total: 0,
            square_total: 0,
            median_first: 0,
            median_second: 0,
            mode_total: 0,
            mode_ties: 0,
        }
    } else {
        Distribution {
            entries: n as usize,
            total: sum_upto(counts, n) as usize,
            square_total: squares_upto(counts, n) as u128,
            median_first: counts[(n - 1) / 2],
            median_second: counts[n / 2],
            mode_total: modal_sum_upto(counts, n) as usize,
            mode_ties: modal_ties_upto(counts, n) as usize,
        }
    }
}

impl Default for Distribution {
    /// The distribution of a table without lines.
    fn default() -> (zero: Self)
        ensures
            zero == spec_distribution(Seq::empty()),
    {
        Distribution {
            entries: 0,
            total: 0,
            square_total: 0,
            median_first: 0,
            median_second: 0,
            mode_total: 0,
            mode_ties: 0,
        }
    }
}

/// Sums over a shorter prefix are no larger.
pub proof fn lemma_sum_grows(counts: Seq<usize>, shorter: int, longer: int)
    requires
        shorter <= longer,
    ensures
        sum_upto(counts, shorter) <= sum_upto(counts, longer),
    decreases longer - shorter,
{
    if shorter < longer {
        lemma_sum_grows(counts, shorter, longer - 1);
    }
}

/// The sum of squares of non-negative numbers is at most the square of
/// their sum.
pub proof fn lemma_squares_bounded(counts: Seq<usize>, upto: int)
    ensures
        squares_upto(counts, upto) <= sum_upto(counts, upto) * sum_upto(counts, upto),
    decreases upto,
{
    if upto > 0 {
        lemma_squares_bounded(counts, upto - 1);
        let s = sum_upto(counts, upto - 1);
        let q = squares_upto(counts, upto - 1);
        let c = counts[upto - 1] as nat;
        assert(q + c * c <= (s + c) * (s + c)) by (nonlinear_arith)
            requires
                q <= s * s,
        ;
    }
}

/// In counts that never rise, a stretch of equal counts that can be
/// widened on neither side holds every occurrence of its value.
pub proof fn lemma_run_times(counts: Seq<usize>, start: int, end: int, upto: int)
    requires
        never_rising(counts),
        0 <= start < end <= counts.len(),
        forall|i: int| start <= i < end ==> counts[i] == counts[start],
        start == 0 || counts[start - 1] != counts[start],
        end == counts.len() || counts[end] != counts[start],
        0 <= upto <= counts.len(),
    ensures
        times_upto(counts, counts[start], upto) == if upto <= start {
            0
        } else if upto <= end {
            upto - start
        } else {
            end - start
        },
    decreases upto,
{
    if upto > 0 {
        lemma_run_times(counts, start, end, upto - 1);
        let at = upto - 1;
        if at < start {
            assert(counts[at] >= counts[start - 1] >= counts[start]);
        } else if at >= end {
            assert(counts[start] >= counts[end] >= counts[at]);
        }
    }
}

/// Over a stretch of equal counts the largest shared number seen so far
/// rises at most to the length of the stretch.
pub proof fn lemma_most_times_run(counts: Seq<usize>, start: int, end: int, upto: int)
    requires
        0 <= start < end <= counts.len(),
        forall|i: int| start <= i < end ==> counts[i] == counts[start],
        start <= upto <= end,
    ensures
        most_times_upto(counts, upto) == if upto == start || times(counts, counts[start])
            <= most_times_upto(counts, start) {
            most_times_upto(counts, start)
        } else {
            times(counts, counts[start])
        },
    decreases upto,
{
    if upto > start {
        lemma_most_times_run(counts, start, end, upto - 1);
    }
}

/// No count is shared by more words than the largest shared number.
pub proof fn lemma_most_times_bound(counts: Seq<usize>, index: int, upto: int)
    requires
        0 <= index < upto <= counts.len(),
    ensures
        times(counts, counts[index]) <= most_times_upto(counts, upto),
    decreases upto,
{
    if index < upto - 1 {
        lemma_most_times_bound(counts, index, upto - 1);
    }
}

/// Over a stretch of equal counts that starts with the first occurrence of
/// its value, only the first line can add to the modal sums.
pub proof fn lemma_modal_run(counts: Seq<usize>, start: int, end: int, upto: int)
    requires
        0 <= start < end <= counts.len(),
        forall|i: int| start <= i < end ==> counts[i] == counts[start],
        forall|j: int| 0 <= j < start ==> counts[j] != counts[start],
        start < upto <= end,
    ensures
        modal_sum_upto(counts, upto) == modal_sum_upto(counts, start) + if times(
            counts,
            counts[start],
        ) == most_times(counts) {
            counts[start] as nat
        } else {
            0nat
        },
        modal_ties_upto(counts, upto) == modal_ties_upto(counts, start) + if times(
            counts,
            counts[start],
        ) == most_times(counts) {
            1nat
        } else {
            0nat
        },
    decreases upto,
{
    if upto > start + 1 {
        lemma_modal_run(counts, start, end, upto - 1);
        assert(counts[start] == counts[upto - 1]);
        assert(!modal_first(counts, upto - 1));
    } else {
        assert(modal_sum_upto(counts, start + 1) == modal_sum_upto(counts, start) + if modal_first(
            counts,
            start,
        ) {
            counts[start] as nat
        } else {
            0nat
        });
    }
}

/// The modal sums stay below the plain sum and the number of lines.
pub proof fn lemma_modal_bounded(counts: Seq<usize>, upto: int)
    requires
        0 <= upto,
    ensures
        modal_sum_upto(counts, upto) <= sum_upto(counts, upto),
        modal_ties_upto(counts, upto) <= upto,
    decreases upto,
{
    if upto > 0 {
        lemma_modal_bounded(counts, upto - 1);
    }
}

/// Sums over prefixes that agree are equal.
pub proof fn lemma_sum_agrees(a: Seq<usize>, b: Seq<usize>, upto: int)
    requires
        upto <= a.len(),
        upto <= b.len(),
        forall|i: int| 0 <= i < upto ==> a[i] == b[i],
    ensures
        sum_upto(a, upto) == sum_upto(b, upto),
    decreases upto,
{
    if upto > 0 {
        lemma_sum_agrees(a, b, upto - 1);
    }
}

/// The total of a table is the sum of its counts, and in a sorted table
/// the counts never rise.
pub proof fn lemma_table_counts(table: Seq<FrequencyEntry>)
    ensures
        table_total(table) == sum_upto(counts_of(table), table.len() as int),
        table_sorted(table) ==> never_rising(counts_of(table)),
    decreases table.len(),
{
    if table.len() > 0 {
        lemma_table_counts(table.drop_last());
        lemma_sum_agrees(counts_of(table), counts_of(table.drop_last()), table.len() - 1);
    }
    if table_sorted(table) {
        assert forall|i: int, j: int| 0 <= i < j < table.len() implies counts_of(table)[i]
            >= counts_of(table)[j] by {
            assert(precedes(table[i], table[j]));
        }
    }
}

/// Some count among the first `upto` is shared by the largest number of
/// words seen among them.
pub proof fn lemma_most_times_met(counts: Seq<usize>, upto: int) -> (index: int)
    requires
        0 < upto <= counts.len(),
    ensures
        0 <= index < upto,
        times(counts, counts[index]) == most_times_upto(counts, upto),
    decreases upto,
{
    if upto == 1 {
        assert(most_times_upto(counts, 0) == 0);
        0
    } else {
        let before = lemma_most_times_met(counts, upto - 1);
        if times(counts, counts[upto - 1]) > most_times_upto(counts, upto - 1) {
            upto - 1
        } else {
            before
        }
    }
}

/// The first place at which the count of `index` stands.
pub proof fn lemma_first_place(counts: Seq<usize>, index: int) -> (first: int)
    requires
        0 <= index < counts.len(),
    ensures
        0 <= first <= index,
        counts[first] == counts[index],
        forall|j: int| 0 <= j < first ==> counts[j] != counts[index],
    decreases index,
{
    if exists|j: int| 0 <= j < index && counts[j] == counts[index] {
        let j = choose|j: int| 0 <= j < index && counts[j] == counts[index];
        lemma_first_place(counts, j)
    } else {
        index
    }
}

/// The modal sums never fall along the table.
pub proof fn lemma_modal_grows(counts: Seq<usize>, shorter: int, longer: int)
    requires
        shorter <= longer,
    ensures
        modal_ties_upto(counts, shorter) <= modal_ties_upto(counts, longer),
        modal_sum_upto(counts, shorter) <= modal_sum_upto(counts, longer),
    decreases longer - shorter,
{
    if shorter < longer {
        lemma_modal_grows(counts, shorter, longer - 1);
    }
}

/// Every division that the statistics ask for is defined: a table with
/// lines has a positive number of entries and at least one most common
/// count, and a table without lines has the distribution of zeros.
pub proof fn lemma_distribution_defined(counts: Seq<usize>)
    ensures
        counts.len() > 0 ==> modal_ties_upto(counts, counts.len() as int) >= 1,
        counts.len() == 0 ==> spec_distribution(counts) == spec_distribution(Seq::empty()),
{
    if counts.len() > 0 {
        let n = counts.len() as int;
        let met = lemma_most_times_met(counts, n);
        let first = lemma_first_place(counts, met);
        assert(modal_first(counts, first));
        assert(modal_ties_upto(counts, first + 1) >= 1);
        lemma_modal_grows(counts, first + 1, n);
    }
}

/// The end of the stretch of equal counts that starts at `start`.
fn run_end(table: &Vec<FrequencyEntry>, start: usize) -> (end: usize)
    requires
        never_rising(counts_of(table@)),
        start < table@.len(),
        start == 0 || table@[start - 1].0 != table@[start as int].0,
    ensures
        start < end <= table@.len(),
        forall|i: int| start <= i < end ==> counts_of(table@)[i] == counts_of(table@)[start as int],
        forall|j: int| 0 <= j < start ==> counts_of(table@)[j] != counts_of(table@)[start as int],
        end == table@.len() || table@[end as int].0 != table@[start as int].0,
        times(counts_of(table@), table@[start as int].0) == end - start,
{
    let n: usize = table.len();
    let value: usize = table[start].0;
    let mut end: usize = start + 1;
    while end < n && table[end].0 == value
        invariant
            n == table@.len(),
            start < end <= n,
            value == table@[start as int].0,
            forall|i: int| start <= i < end ==> (#[trigger] table@[i]).0 == value,
        decreases n - end,
    {
        end += 1;
    }
    proof {
        let counts = counts_of(table@);
        assert forall|i: int| start <= i < end implies counts[i] == counts[start as int] by {
            assert(table@[i].0 == value);
        }
        lemma_run_times(counts, start as int, end as int, counts.len() as int);
        assert forall|j: int| 0 <= j < start implies counts[j] != counts[start as int] by {
            assert(counts[j] >= counts[start - 1] >= counts[start as int]);
        }
    }
    end
}

/// The distribution of the counts of a table whose counts never rise.
pub fn distribution_of(table: &Vec<FrequencyEntry>) -> (distribution: Distribution)
    requires
        never_rising(counts_of(table@)),
        sum_upto(counts_of(table@), table@.len() as int) <= usize::MAX,
    ensures
        distribution == spec_distribution(counts_of(table@)),
{
    let n: usize = table.len();
    if n == 0 {
        return Distribution::default();
    }
    let ghost counts = counts_of(table@);
    let mut total: usize = 0;
    let mut square_total: u128 = 0;
    let mut index: usize = 0;
    while index < n
        invariant
            n == table@.len(),
            counts == counts_of(table@),
            index <= n,
            total == sum_upto(counts, index as int),
            square_total == squares_upto(counts, index as int),
            sum_upto(counts, n as int) <= usize::MAX,
        decreases n - index,
    {
        let count: usize = table[index].0;
        proof {
            lemma_sum_grows(counts, index + 1, n as int);
            lemma_squares_bounded(counts, index + 1);
            let s = sum_upto(counts, index + 1);
            assert(s * s <= 0xffff_ffff_ffff_ffff * 0xffff_ffff_ffff_ffff) by (nonlinear_arith)
                requires
                    s <= 0xffff_ffff_ffff_ffff,
            ;
            assert((count as nat) * (count as nat) <= squares_upto(counts, index + 1));
        }
        total = total + count;
        square_total = square_total + (count as u128) * (count as u128);
        index += 1;
    }
    let mut most: usize = 0;
    let mut start: usize = 0;
    while start < n
        invariant
            n == table@.len(),
            counts == counts_of(table@),
            never_rising(counts),
            start <= n,
            start == 0 || start == n || table@[start - 1].0 != table@[start as int].0,
            most == most_times_upto(counts, start as int),
        decreases n - start,
    {
        let end: usize = run_end(table, start);
        proof {
            lemma_most_times_run(counts, start as int, end as int, end as int);
        }
        if end - start > most {
            most = end - start;
        }
        start = end;
    }
    let mut mode_total: usize = 0;
    let mut mode_ties: usize = 0;
    start = 0;
    while start < n
        invariant
            n == table@.len(),
            counts == counts_of(table@),
            never_rising(counts),
            start <= n,
            start == 0 || start == n || table@[start - 1].0 != table@[start as int].0,
            most == most_times(counts),
            mode_total == modal_sum_upto(counts, start as int),
            mode_ties == modal_ties_upto(counts, start as int),
            sum_upto(counts, n as int) <= usize::MAX,
        decreases n - start,
    {
        let end: usize = run_end(table, start);
        proof {
            lemma_modal_run(counts, start as int, end as int, end as int);
            lemma_modal_bounded(counts, end as int);
            lemma_sum_grows(counts, end as int, n as int);
        }
        if end - start == most {
            mode_total = mode_total + table[start].0;
            mode_ties = mode_ties + 1;
        }
        start = end;
    }
    Distribution {
        entries: n,
        total,
        square_total,
        median_first: table[(n - 1) / 2].0,
        median_second: table[n / 2].0,
        mode_total,
        mode_ties,
    }
}

} // verus!
