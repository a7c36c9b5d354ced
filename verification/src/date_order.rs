//! The order of days and months in the dates of a log, found out from the
//! numbers alone.
//!
//! A date is a sequence of numbers: the two leading numbers in the order in
//! which they are written, and the year behind them. Three checks are tried
//! in a fixed order, and the first that comes to a conclusion decides: `true`
//! for days first, `false` for months first.

use vstd::prelude::*;
use vstd::laws_eq::obeys_concrete_eq;
use crate::grouping::{
    group_array_by_value_at_index, group_positions, is_copy_of, keys_at,
    lemma_consecutive_are_neighbours, lemma_group_of, lemma_neighbours_are_consecutive,
    neighbours, positions_of,
};

verus! {

/// Every date has `n` numbers or more.
pub open spec fn has_components(dates: Seq<Seq<i32>>, n: nat) -> bool {
    forall|i: int| 0 <= i < dates.len() ==> (#[trigger] dates[i]).len() >= n
}

// ---------------------------------------------------------------------
// Numbers above twelve
// ---------------------------------------------------------------------

/// Some date has a number above 12 at `col`.
pub open spec fn some_above_12(dates: Seq<Seq<i32>>, col: int) -> bool {
    exists|i: int| 0 <= i < dates.len() && (#[trigger] dates[i])[col] > 12
}

/// What numbers above 12 tell: a month is never above 12, so such a number
/// in front means days first, and one in second place means months first.
/// The number in front is looked at first.
pub open spec fn range_signal(dates: Seq<Seq<i32>>) -> Option<bool> {
    if some_above_12(dates, 0) {
        Some(true)
    } else if some_above_12(dates, 1) {
        Some(false)
    } else {
        None
    }
}

/// Returns `true` for a negative number, `false` otherwise.
pub fn is_negative(number: i32) -> (negative: bool)
    ensures
        negative == (number < 0),
{
    number < 0
}

/// Whether some date of the batch has a number above 12 at `col`.
fn any_above_12(numeric_dates: &[Vec<i32>], col: usize) -> (found: bool)
    requires
        has_components(numeric_dates.deep_view(), (col + 1) as nat),
    ensures
        found == some_above_12(numeric_dates.deep_view(), col as int),
{
    let ghost dates = numeric_dates.deep_view();
    let mut i: usize = 0;
    while i < numeric_dates.len()
        invariant
            i <= numeric_dates@.len(),
            dates == numeric_dates.deep_view(),
            has_components(dates, (col + 1) as nat),
            forall|j: int| 0 <= j < i ==> !((#[trigger] dates[j])[col as int] > 12),
        decreases numeric_dates@.len() - i,
    {
        assert(dates[i as int].len() >= col + 1);
        assert(dates[i as int][col as int] == numeric_dates@[i as int]@[col as int]);
        if numeric_dates[i][col] > 12 {
            return true;
        }
        i = i + 1;
    }
    false
}

/// Looks for numbers above 12: `Some(true)` (days first) if a date has one in
/// front, else `Some(false)` (months first) if a date has one in second
/// place, else `None`.
pub fn check_above_12(numeric_dates: &[Vec<i32>]) -> (order: Option<bool>)
    requires
        has_components(numeric_dates.deep_view(), 2),
    ensures
        order == range_signal(numeric_dates.deep_view()),
{
    if any_above_12(numeric_dates, 0) {
        return Some(true);
    }
    if any_above_12(numeric_dates, 1) {
        return Some(false);
    }
    None
}

// ---------------------------------------------------------------------
// How much the numbers change
// ---------------------------------------------------------------------

/// The distance between `a` and `b`.
pub open spec fn distance(a: int, b: int) -> int {
    if a >= b {
        a - b
    } else {
        b - a
    }
}

/// The distances between the numbers at `col` of each date and the date
/// before it, added up over the whole batch.
pub open spec fn total_change(dates: Seq<Seq<i32>>, col: int) -> int
    decreases dates.len(),
{
    if dates.len() < 2 {
        0
    } else {
        total_change(dates.drop_last(), col) + distance(
            dates[dates.len() - 1][col] as int,
            dates[dates.len() - 2][col] as int,
        )
    }
}

/// What the amount of change tells: a log runs through the days faster than
/// through the months, so the number that changes more is the day.
pub open spec fn frequency_signal(dates: Seq<Seq<i32>>) -> Option<bool> {
    if total_change(dates, 0) > total_change(dates, 1) {
        Some(true)
    } else if total_change(dates, 0) < total_change(dates, 1) {
        Some(false)
    } else {
        None
    }
}

/// The change of a batch is never negative, and 2^32 for each date at most.
pub proof fn lemma_total_change_bounds(dates: Seq<Seq<i32>>, col: int)
    requires
        has_components(dates, (col + 1) as nat),
        0 <= col,
    ensures
        0 <= total_change(dates, col) <= dates.len() * 0x1_0000_0000,
    decreases dates.len(),
{
    if dates.len() >= 2 {
        assert(has_components(dates.drop_last(), (col + 1) as nat)) by {
            assert forall|i: int| 0 <= i < dates.drop_last().len() implies (
            #[trigger] dates.drop_last()[i]).len() >= col + 1 by {
                assert(dates.drop_last()[i] == dates[i]);
            }
        }
        lemma_total_change_bounds(dates.drop_last(), col);
        assert((dates.len() - 1) * 0x1_0000_0000 + 0x1_0000_0000 == dates.len() * 0x1_0000_0000)
            by (nonlinear_arith);
    } else {
        assert(0 <= dates.len() * 0x1_0000_0000) by (nonlinear_arith);
    }
}

/// The change of the numbers at `col` over the batch.
fn sum_of_changes(numeric_dates: &[Vec<i32>], col: usize) -> (total: u128)
    requires
        has_components(numeric_dates.deep_view(), (col + 1) as nat),
    ensures
        total == total_change(numeric_dates.deep_view(), col as int),
{
    let ghost dates = numeric_dates.deep_view();
    let mut total: u128 = 0;
    if numeric_dates.len() < 2 {
        return total;
    }
    let mut i: usize = 1;
    proof {
        assert(dates.take(1).len() < 2);
    }
    while i < numeric_dates.len()
        invariant
            1 <= i <= numeric_dates@.len(),
            dates == numeric_dates.deep_view(),
            has_components(dates, (col + 1) as nat),
            total == total_change(dates.take(i as int), col as int),
        decreases numeric_dates@.len() - i,
    {
        assert(dates[i as int].len() >= col + 1 && dates[i - 1].len() >= col + 1);
        let here: i64 = numeric_dates[i][col] as i64;
        let before: i64 = numeric_dates[i - 1][col] as i64;
        let step: i64 = if here >= before {
            here - before
        } else {
            before - here
        };
        proof {
            let longer = dates.take(i + 1);
            assert(dates[i as int].len() >= col + 1);
            assert(dates[i - 1].len() >= col + 1);
            assert(longer.drop_last() =~= dates.take(i as int));
            assert(longer[longer.len() - 1] == dates[i as int]);
            assert(longer[longer.len() - 2] == dates[i - 1]);
            assert(has_components(longer, (col + 1) as nat));
            lemma_total_change_bounds(longer, col as int);
            assert(longer.len() * 0x1_0000_0000 <= 0xffff_ffff_ffff_ffff * 0x1_0000_0000)
                by (nonlinear_arith)
                requires
                    longer.len() <= 0xffff_ffff_ffff_ffff,
            ;
        }
        total = total + step as u128;
        i = i + 1;
    }
    assert(dates.take(dates.len() as int) =~= dates);
    total
}

/// Looks at which number changes more over the batch: `Some(true)` (days
/// first) if the number in front does, `Some(false)` (months first) if the
/// second does, `None` if both change alike.
pub fn change_frequency_analysis(numeric_dates: &[Vec<i32>]) -> (order: Option<bool>)
    requires
        has_components(numeric_dates.deep_view(), 2),
    ensures
        order == frequency_signal(numeric_dates.deep_view()),
{
    let first = sum_of_changes(numeric_dates, 0);
    let second = sum_of_changes(numeric_dates, 1);
    if first > second {
        return Some(true);
    }
    if first < second {
        return Some(false);
    }
    None
}

// ---------------------------------------------------------------------
// Numbers that go down within a year
// ---------------------------------------------------------------------

/// The dates at `i` and `j` are of the same year, `i` before `j`, with no
/// date of that year between them.
pub open spec fn year_neighbours(dates: Seq<Seq<i32>>, i: int, j: int) -> bool {
    &&& 0 <= i < j < dates.len()
    &&& dates[i][2] == dates[j][2]
    &&& forall|m: int| i < m < j ==> (#[trigger] dates[m])[2] != dates[i][2]
}

/// Somewhere the number at `col` goes down from a date to the next date of
/// the same year.
pub open spec fn goes_down_within_year(dates: Seq<Seq<i32>>, col: int) -> bool {
    exists|i: int, j: int| #[trigger]
        year_neighbours(dates, i, j) && dates[j][col] < dates[i][col]
}

/// What numbers that go down tell: within one year of a log the months
/// never go down, so a number that does is a day. The number in front is
/// looked at first, over all years, and the second number after it.
pub open spec fn monotonicity_signal(dates: Seq<Seq<i32>>) -> Option<bool> {
    if goes_down_within_year(dates, 0) {
        Some(true)
    } else if goes_down_within_year(dates, 1) {
        Some(false)
    } else {
        None
    }
}

/// Somewhere in `run` the number at `col` goes down from a date to the
/// next.
pub open spec fn goes_down(run: Seq<Seq<i32>>, col: int) -> bool {
    exists|k: int| 0 <= k && k + 1 < run.len() && (#[trigger] run[k + 1])[col] < run[k][col]
}

/// Whether the number at `col` goes down somewhere in `run`.
fn run_goes_down(run: &Vec<Vec<i32>>, col: usize) -> (found: bool)
    requires
        has_components(run.deep_view(), (col + 1) as nat),
    ensures
        found == goes_down(run.deep_view(), col as int),
{
    let ghost dates = run.deep_view();
    let mut k: usize = 1;
    while k < run.len()
        invariant
            1 <= k,
            dates == run.deep_view(),
            has_components(dates, (col + 1) as nat),
            forall|m: int|
                0 <= m && m + 1 < k && m + 1 < dates.len() ==> !((#[trigger] dates[m + 1])[col as int]
                    < dates[m][col as int]),
        decreases run@.len() - k,
    {
        assert(dates[k as int].len() >= col + 1 && dates[k - 1].len() >= col + 1);
        if run[k][col] < run[k - 1][col] {
            assert(dates[(k - 1) + 1][col as int] < dates[k - 1][col as int]);
            return true;
        }
        k = k + 1;
    }
    false
}

/// The years of the dates.
pub open spec fn years(dates: Seq<Seq<i32>>) -> Seq<i32> {
    Seq::new(dates.len(), |i: int| dates[i][2])
}

/// Looks for numbers that go down within a year: `Some(true)` (days first)
/// if the number in front goes down from one date to the next date of the
/// same year, in any year; else `Some(false)` (months first) if the second
/// number does; else `None`.
pub fn check_decreasing(numeric_dates: &[Vec<i32>]) -> (order: Option<bool>)
    requires
        has_components(numeric_dates.deep_view(), 3),
    ensures
        order == monotonicity_signal(numeric_dates.deep_view()),
{
    let ghost dates = numeric_dates.deep_view();
    let ghost keys = keys_at(numeric_dates@, 2);
    let ghost n = numeric_dates@.len();
    let ghost layout = group_positions(keys, n);
    proof {
        assert forall|i: int| 0 <= i < numeric_dates@.len() implies 2 < (
        #[trigger] numeric_dates@[i])@.len() by {
            assert(dates[i].len() >= 3);
        }
        assert(obeys_concrete_eq::<i32>()) by {
            reveal(obeys_concrete_eq);
        }
        assert(keys =~= years(dates)) by {
            assert forall|i: int| 0 <= i < keys.len() implies keys[i] == years(dates)[i] by {
                assert(dates[i].len() >= 3);
            }
        }
    }
    let dates_by_year = group_array_by_value_at_index(numeric_dates, 2);
    let ghost runs = dates_by_year.deep_view();
    proof {
        assert forall|g: int, k: int| 0 <= g < runs.len() && 0 <= k < runs[g].len() implies (
        #[trigger] runs[g][k]) == dates[layout[g][k]] by {
            lemma_group_members(keys, n, g, k);
            assert(is_copy_of(numeric_dates@[layout[g][k]], dates_by_year@[g]@[k]));
            assert(runs[g][k] =~= dates[layout[g][k]]);
        }
    }
    let mut days_first: bool = false;
    let mut days_second: bool = false;
    let mut g: usize = 0;
    while g < dates_by_year.len()
        invariant
            g <= dates_by_year@.len(),
            runs == dates_by_year.deep_view(),
            runs.len() == layout.len(),
            dates == numeric_dates.deep_view(),
            has_components(dates, 3),
            n == dates.len(),
            keys == years(dates),
            layout == group_positions(keys, n),
            forall|h: int| 0 <= h < runs.len() ==> (#[trigger] runs[h]).len() == layout[h].len(),
            forall|h: int, k: int|
                0 <= h < runs.len() && 0 <= k < runs[h].len() ==> (#[trigger] runs[h][k])
                    == dates[layout[h][k]],
            days_first ==> goes_down_within_year(dates, 0),
            days_second ==> goes_down_within_year(dates, 1),
            !days_first ==> forall|h: int| 0 <= h < g ==> !goes_down(#[trigger] runs[h], 0),
            !days_second ==> forall|h: int| 0 <= h < g ==> !goes_down(#[trigger] runs[h], 1),
        decreases dates_by_year@.len() - g,
    {
        let run = &dates_by_year[g];
        proof {
            assert(run.deep_view() == runs[g as int]);
            assert forall|k: int| 0 <= k < runs[g as int].len() implies (
            #[trigger] runs[g as int][k]).len() >= 3 by {
                lemma_group_members(keys, n, g as int, k);
                assert(runs[g as int][k] == dates[layout[g as int][k]]);
            }
        }
        if run_goes_down(run, 0) {
            proof {
                lemma_run_to_year(dates, g as int, runs[g as int], 0);
            }
            days_first = true;
        }
        if run_goes_down(run, 1) {
            proof {
                lemma_run_to_year(dates, g as int, runs[g as int], 1);
            }
            days_second = true;
        }
        g = g + 1;
    }
    proof {
        if !days_first && goes_down_within_year(dates, 0) {
            let h = lemma_year_to_run(dates, runs, 0);
            assert(goes_down(runs[h], 0));
        }
        if !days_second && goes_down_within_year(dates, 1) {
            let h = lemma_year_to_run(dates, runs, 1);
            assert(goes_down(runs[h], 1));
        }
    }
    if days_first {
        return Some(true);
    }
    if days_second {
        return Some(false);
    }
    None
}

/// The members of a group are positions of the sequence.
proof fn lemma_group_members(keys: Seq<i32>, n: nat, g: int, k: int)
    requires
        n <= keys.len(),
        0 <= g < group_positions(keys, n).len(),
        0 <= k < group_positions(keys, n)[g].len(),
    ensures
        0 <= group_positions(keys, n)[g][k] < n,
{
    let first = crate::grouping::first_positions(keys, n);
    crate::grouping::lemma_positions_of(keys, n, keys[first[g]]);
}

/// A step down in the run of one year is a step down between neighbours of
/// that year.
proof fn lemma_run_to_year(dates: Seq<Seq<i32>>, g: int, run: Seq<Seq<i32>>, col: int)
    requires
        0 <= g < group_positions(years(dates), dates.len()).len(),
        run.len() == group_positions(years(dates), dates.len())[g].len(),
        forall|k: int|
            0 <= k < run.len() ==> (#[trigger] run[k]) == dates[group_positions(
                years(dates),
                dates.len(),
            )[g][k]],
        goes_down(run, col),
    ensures
        goes_down_within_year(dates, col),
{
    let keys = years(dates);
    let n = dates.len();
    let first = crate::grouping::first_positions(keys, n);
    let key = keys[first[g]];
    let pos = positions_of(keys, n, key);
    assert(group_positions(keys, n)[g] == pos);
    let k = choose|k: int| 0 <= k && k + 1 < run.len() && (#[trigger] run[k + 1])[col] < run[k][col];
    lemma_consecutive_are_neighbours(keys, n, key, k);
    let i = pos[k];
    let j = pos[k + 1];
    assert(run[k] == dates[i]);
    assert(run[k + 1] == dates[j]);
    assert(year_neighbours(dates, i, j)) by {
        assert(neighbours(keys, i, j));
        assert forall|m: int| i < m < j implies (#[trigger] dates[m])[2] != dates[i][2] by {
            assert(keys[m] != keys[i]);
        }
    }
}

/// A step down between neighbours of a year is a step down in the run of
/// that year.
proof fn lemma_year_to_run(dates: Seq<Seq<i32>>, runs: Seq<Seq<Seq<i32>>>, col: int) -> (g: int)
    requires
        runs.len() == group_positions(years(dates), dates.len()).len(),
        forall|h: int|
            0 <= h < runs.len() ==> (#[trigger] runs[h]).len() == group_positions(
                years(dates),
                dates.len(),
            )[h].len(),
        forall|h: int, k: int|
            0 <= h < runs.len() && 0 <= k < runs[h].len() ==> (#[trigger] runs[h][k])
                == dates[group_positions(years(dates), dates.len())[h][k]],
        goes_down_within_year(dates, col),
    ensures
        0 <= g < runs.len(),
        goes_down(runs[g], col),
{
    let keys = years(dates);
    let n = dates.len();
    let (i, j) = choose|i: int, j: int| #[trigger]
        year_neighbours(dates, i, j) && dates[j][col] < dates[i][col];
    assert(neighbours(keys, i, j)) by {
        assert forall|m: int| i < m < j implies #[trigger] keys[m] != keys[i] by {
            assert(dates[m][2] != dates[i][2]);
        }
    }
    let g = lemma_group_of(keys, n, i);
    let a = lemma_neighbours_are_consecutive(keys, n, i, j);
    let run = runs[g];
    assert(run[a] == dates[i]);
    assert(run[a + 1] == dates[j]);
    assert(run[a + 1][col] < run[a][col]);
    g
}

// ---------------------------------------------------------------------
// The three checks together
// ---------------------------------------------------------------------

/// The order that the three checks find, tried in a fixed order: numbers
/// above 12, numbers that go down within a year, the amount of change. The
/// first check that comes to a conclusion decides.
pub open spec fn date_order_signal(dates: Seq<Seq<i32>>) -> Option<bool> {
    if range_signal(dates) is Some {
        range_signal(dates)
    } else if monotonicity_signal(dates) is Some {
        monotonicity_signal(dates)
    } else {
        frequency_signal(dates)
    }
}

/// Tries to tell whether the days come before the months: `Some(true)` if
/// they do, `Some(false)` if the months come first, `None` if no check comes
/// to a conclusion.
pub fn days_before_months(numeric_dates: &[Vec<i32>]) -> (order: Option<bool>)
    requires
        has_components(numeric_dates.deep_view(), 3),
    ensures
        order == date_order_signal(numeric_dates.deep_view()),
{
    let by_range = check_above_12(numeric_dates);
    if by_range.is_some() {
        return by_range;
    }
    let by_order = check_decreasing(numeric_dates);
    if by_order.is_some() {
        return by_order;
    }
    change_frequency_analysis(numeric_dates)
}

/// A conclusion from numbers above 12 stands, whatever the other two
/// checks find.
pub proof fn lemma_range_check_overrides(dates: Seq<Seq<i32>>)
    requires
        range_signal(dates) is Some,
    ensures
        date_order_signal(dates) == range_signal(dates),
{
}

/// Where the number in front goes down within one year, the check for
/// numbers that go down says days first, also if the second number goes
/// down within another year.
pub proof fn lemma_days_first_overrides(
    dates: Seq<Seq<i32>>,
    i: int,
    j: int,
    k: int,
    l: int,
)
    requires
        year_neighbours(dates, i, j),
        dates[j][0] < dates[i][0],
        year_neighbours(dates, k, l),
        dates[l][1] < dates[k][1],
        dates[k][2] != dates[i][2],
    ensures
        monotonicity_signal(dates) == Some(true),
{
}

/// Going down between neighbours of a year is the same as going down between
/// any two dates of a year, the earlier one first.
pub proof fn lemma_goes_down_any_pair(dates: Seq<Seq<i32>>, col: int)
    ensures
        goes_down_within_year(dates, col) <==> exists|i: int, j: int|
            0 <= i < j < dates.len() && (#[trigger] dates[i])[2] == (#[trigger] dates[j])[2]
                && dates[j][col] < dates[i][col],
{
    if goes_down_within_year(dates, col) {
        let (i, j) = choose|i: int, j: int| #[trigger]
            year_neighbours(dates, i, j) && dates[j][col] < dates[i][col];
        assert(0 <= i < j < dates.len() && dates[i][2] == dates[j][2] && dates[j][col]
            < dates[i][col]);
    }
    if exists|i: int, j: int|
        0 <= i < j < dates.len() && (#[trigger] dates[i])[2] == (#[trigger] dates[j])[2]
            && dates[j][col] < dates[i][col] {
        let (i, j) = choose|i: int, j: int|
            0 <= i < j < dates.len() && (#[trigger] dates[i])[2] == (#[trigger] dates[j])[2]
                && dates[j][col] < dates[i][col];
        lemma_pair_to_neighbours(dates, col, i, j);
    }
}

/// Between two dates of a year of which the later has the smaller number,
/// two neighbours of that year are found of which the later has the smaller
/// number.
proof fn lemma_pair_to_neighbours(dates: Seq<Seq<i32>>, col: int, i: int, j: int)
    requires
        0 <= i < j < dates.len(),
        dates[i][2] == dates[j][2],
        dates[j][col] < dates[i][col],
    ensures
        goes_down_within_year(dates, col),
    decreases j - i,
{
    if year_neighbours(dates, i, j) {
    } else {
        let m = choose|m: int| i < m < j && (#[trigger] dates[m])[2] == dates[i][2];
        if dates[m][col] < dates[i][col] {
            lemma_pair_to_neighbours(dates, col, i, m);
        } else {
            lemma_pair_to_neighbours(dates, col, m, j);
        }
    }
}

} // verus!
