//! Adaptive granularity.
//!
//! The decision is made **per node**: a library with one huge trip year and one
//! sparse year must not get uniform granularity.
//!
//! Adaptive layout is *not* stable across runs. Adding photos can push a node
//! over the threshold and reshuffle it. Use a fixed `--group` for incremental
//! workflows.

use crate::calendar::{exists_day, Date, Ymd};
use std::collections::HashMap;
use vstd::prelude::*;

verus! {

#[derive(Debug, Clone, Copy, PartialEq, Eq, Structural)]
pub enum Level {
    Year,
    Month,
    Week,
}

impl Level {
    pub open spec fn preset(self) -> Seq<char> {
        match self {
            Level::Year => "{year}"@,
            Level::Month => "{year}/{month:02}-{month_name}"@,
            Level::Week => "{year}/{month:02}-{month_name}/W{iso_week:02}"@,
        }
    }

    /// Weeks nest inside their month so the tree stays a tree.
    pub fn template_str(self) -> (r: &'static str)
        ensures
            r@ == self.preset(),
    {
        match self {
            Level::Year => "{year}",
            Level::Month => "{year}/{month:02}-{month_name}",
            Level::Week => "{year}/{month:02}-{month_name}/W{iso_week:02}",
        }
    }
}

pub open spec fn in_year(d: Option<Ymd>, year: int) -> bool {
    d matches Some(d) && d.year == year
}

pub open spec fn in_month(d: Option<Ymd>, year: int, month: int) -> bool {
    d matches Some(d) && d.year == year && d.month == month
}

/// How many of the dates are of the year.
pub open spec fn year_count(dates: Seq<Option<Ymd>>, year: int) -> nat
    decreases dates.len(),
{
    if dates.len() == 0 {
        0
    } else {
        year_count(dates.drop_last(), year) + (if in_year(dates.last(), year) {
            1nat
        } else {
            0nat
        })
    }
}

/// How many of the dates are of the month.
pub open spec fn month_count(dates: Seq<Option<Ymd>>, year: int, month: int) -> nat
    decreases dates.len(),
{
    if dates.len() == 0 {
        0
    } else {
        month_count(dates.drop_last(), year, month) + (if in_month(dates.last(), year, month) {
            1nat
        } else {
            0nat
        })
    }
}

/// The level of a date among dates: a year of more than `threshold` files splits
/// into months, and a month of more into weeks.
pub open spec fn level_of(dates: Seq<Option<Ymd>>, d: Option<Ymd>, threshold: nat) -> Level {
    match d {
        None => Level::Year,
        Some(d) => if year_count(dates, d.year) <= threshold {
            Level::Year
        } else if month_count(dates, d.year, d.month) <= threshold {
            Level::Month
        } else {
            Level::Week
        },
    }
}

pub open spec fn days(dates: Seq<Option<Date>>) -> Seq<Option<Ymd>> {
    dates.map_values(
        |d: Option<Date>|
            match d {
                Some(d) => Some(d@),
                None => None,
            },
    )
}

pub proof fn lemma_counts_bounded(dates: Seq<Option<Ymd>>, year: int, month: int)
    ensures
        month_count(dates, year, month) <= year_count(dates, year) <= dates.len(),
    decreases dates.len(),
{
    if dates.len() > 0 {
        lemma_counts_bounded(dates.drop_last(), year, month);
    }
}

/// Dates put behind others add to the counts.
proof fn lemma_counts_add(a: Seq<Option<Ymd>>, b: Seq<Option<Ymd>>, year: int, month: int)
    ensures
        year_count(a + b, year) == year_count(a, year) + year_count(b, year),
        month_count(a + b, year, month) == month_count(a, year, month) + month_count(
            b,
            year,
            month,
        ),
    decreases b.len(),
{
    if b.len() == 0 {
        assert(a + b =~= a);
    } else {
        lemma_counts_add(a, b.drop_last(), year, month);
        assert((a + b).drop_last() =~= a + b.drop_last());
    }
}

/// Unknown dates never influence a threshold: they count for no year and no
/// month, wherever they stand.
pub proof fn unknown_dates_do_not_count(
    dates: Seq<Option<Ymd>>,
    at: int,
    year: int,
    month: int,
)
    requires
        0 <= at <= dates.len(),
    ensures
        year_count(dates.insert(at, None), year) == year_count(dates, year),
        month_count(dates.insert(at, None), year, month) == month_count(dates, year, month),
{
    let (head, tail) = (dates.take(at), dates.skip(at));
    let none = seq![None::<Ymd>];
    lemma_counts_add(head, tail, year, month);
    lemma_counts_add(head + none, tail, year, month);
    lemma_counts_add(head, none, year, month);
    assert(dates =~= head + tail);
    assert(dates.insert(at, None) =~= head + none + tail);
    reveal_with_fuel(year_count, 2);
    reveal_with_fuel(month_count, 2);
    assert(none.last() is None);
}

/// The number of a month, counted from the first of year 0.
fn month_number(d: Date) -> (n: i32)
    ensures
        n == d@.year * 12 + d@.month - 1,
        exists_day(d@),
{
    d.year() * 12 + (d.month() as i32) - 1
}

/// Adds one to a count.
fn count(counts: &mut HashMap<i32, usize>, key: i32, limit: usize)
    requires
        old(counts)@.dom().contains(key) ==> old(counts)@[key] < limit,
        limit > 0,
    ensures
        final(counts)@ == old(counts)@.insert(
            key,
            (if old(counts)@.dom().contains(key) {
                old(counts)@[key] + 1
            } else {
                1
            }) as usize,
        ),
{
    let n: usize = match counts.get(&key) {
        Some(n) => *n,
        None => 0,
    };
    counts.insert(key, n + 1);
}

/// Whether the counts are those of the dates.
spec fn counted(
    dates: Seq<Option<Ymd>>,
    years: Map<i32, usize>,
    months: Map<i32, usize>,
) -> bool {
    &&& forall|y: i32|
        (if years.dom().contains(y) {
            years[y] as nat
        } else {
            0
        }) == #[trigger] year_count(dates, y as int)
    &&& forall|y: int, m: int|
        FIRST <= y <= LAST && 1 <= m <= 12 ==> (if months.dom().contains((y * 12 + m - 1) as i32) {
            months[(y * 12 + m - 1) as i32] as nat
        } else {
            0
        }) == #[trigger] month_count(dates, y, m)
}

proof fn lemma_counted(
    head: Seq<Option<Ymd>>,
    next: Option<Ymd>,
    d: Ymd,
    years: Map<i32, usize>,
    months: Map<i32, usize>,
    new_years: Map<i32, usize>,
    new_months: Map<i32, usize>,
)
    requires
        counted(head, years, months),
        next == Some(d),
        exists_day(d),
        head.len() < usize::MAX,
        new_years == years.insert(
            d.year as i32,
            (if years.dom().contains(d.year as i32) {
                years[d.year as i32] + 1
            } else {
                1
            }) as usize,
        ),
        new_months == months.insert(
            (d.year * 12 + d.month - 1) as i32,
            (if months.dom().contains((d.year * 12 + d.month - 1) as i32) {
                months[(d.year * 12 + d.month - 1) as i32] + 1
            } else {
                1
            }) as usize,
        ),
    ensures
        counted(head.push(next), new_years, new_months),
{
    let all = head.push(next);
    assert(all.drop_last() =~= head);
    lemma_counts_bounded(head, d.year, d.month);
    assert forall|y: i32|
        (if new_years.dom().contains(y) {
            new_years[y] as nat
        } else {
            0
        }) == #[trigger] year_count(all, y as int) by {
        assert(year_count(head, y as int) == (if years.dom().contains(y) {
            years[y] as nat
        } else {
            0
        }));
    }
    assert forall|y: int, m: int| FIRST <= y <= LAST && 1 <= m <= 12 implies (
    if new_months.dom().contains((y * 12 + m - 1) as i32) {
        new_months[(y * 12 + m - 1) as i32] as nat
    } else {
        0
    }) == #[trigger] month_count(all, y, m) by {
        assert(month_count(head, y, m) == (if months.dom().contains((y * 12 + m - 1) as i32) {
            months[(y * 12 + m - 1) as i32] as nat
        } else {
            0
        }));
        assert(in_month(next, y, m) <==> y * 12 + m - 1 == d.year * 12 + d.month - 1);
    }
}

proof fn lemma_counted_none(
    head: Seq<Option<Ymd>>,
    years: Map<i32, usize>,
    months: Map<i32, usize>,
)
    requires
        counted(head, years, months),
    ensures
        counted(head.push(None), years, months),
{
    assert forall|y: i32|
        (if years.dom().contains(y) {
            years[y] as nat
        } else {
            0
        }) == #[trigger] year_count(head.push(None), y as int) by {
        assert(head.insert(head.len() as int, None) =~= head.push(None));
        unknown_dates_do_not_count(head, head.len() as int, y as int, 1);
        assert(year_count(head, y as int) >= 0);
    }
    assert forall|y: int, m: int| FIRST <= y <= LAST && 1 <= m <= 12 implies (
    if months.dom().contains((y * 12 + m - 1) as i32) {
        months[(y * 12 + m - 1) as i32] as nat
    } else {
        0
    }) == #[trigger] month_count(head.push(None), y, m) by {
        assert(head.insert(head.len() as int, None) =~= head.push(None));
        unknown_dates_do_not_count(head, head.len() as int, y, m);
        assert(month_count(head, y, m) >= 0);
    }
}

const FIRST: i32 = crate::calendar::FIRST_YEAR;

const LAST: i32 = crate::calendar::LAST_YEAR;

/// Decide a level for every input date.
///
/// `dates[i] == None` (unknown date) never influences a threshold: those files
/// go to `unknown-date/` regardless of level.
pub fn decide(dates: &[Option<Date>], threshold: usize) -> (r: Vec<Level>)
    ensures
        r@.len() == dates@.len(),
        forall|i: int|
            0 <= i < r@.len() ==> #[trigger] r@[i] == level_of(
                days(dates@),
                days(dates@)[i],
                threshold as nat,
            ),
{
    let mut years: HashMap<i32, usize> = HashMap::new();
    let mut months: HashMap<i32, usize> = HashMap::new();
    let ghost all = days(dates@);
    let total = dates.len();
    let mut i: usize = 0;
    while i < dates.len()
        invariant
            all == days(dates@),
            total == dates@.len(),
            i <= dates@.len(),
            counted(all.take(i as int), years@, months@),
        decreases dates@.len() - i,
    {
        let ghost head = all.take(i as int);
        assert(all.take(i + 1).drop_last() =~= head);
        assert(all.take(i + 1).last() == all[i as int]);
        if let Some(d) = dates[i] {
            let year = d.year();
            let month = month_number(d);
            proof {
                lemma_counts_bounded(head, d@.year, d@.month);
                assert(year_count(head, year as int) <= head.len());
                assert(month_count(head, d@.year, d@.month) <= head.len());
            }
            let ghost (ys, ms) = (years@, months@);
            count(&mut years, year, total);
            count(&mut months, month, total);
            proof {
                lemma_counted(head, all[i as int], d@, ys, ms, years@, months@);
                assert(all.take(i + 1) =~= head.push(all[i as int]));
            }
        } else {
            proof {
                assert(all.take(i + 1) =~= head.push(None));
                lemma_counted_none(head, years@, months@);
            }
        }
        i += 1;
    }
    assert(all.take(i as int) =~= all);
    let mut levels: Vec<Level> = Vec::new();
    i = 0;
    while i < dates.len()
        invariant
            all == days(dates@),
            i <= dates@.len(),
            counted(all, years@, months@),
            levels@.len() == i,
            forall|k: int|
                0 <= k < i ==> #[trigger] levels@[k] == level_of(all, all[k], threshold as nat),
        decreases dates@.len() - i,
    {
        let level = match dates[i] {
            None => Level::Year,
            Some(d) => {
                let year = d.year();
                let month = month_number(d);
                assert(year_count(all, year as int) == year_count(all, d@.year));
                assert(month_count(all, d@.year, d@.month) >= 0);
                let in_year: usize = match years.get(&year) {
                    Some(n) => *n,
                    None => 0,
                };
                let in_month: usize = match months.get(&month) {
                    Some(n) => *n,
                    None => 0,
                };
                // Tie-break is defined: split when strictly greater than N.
                if in_year <= threshold {
                    Level::Year
                } else if in_month <= threshold {
                    Level::Month
                } else {
                    Level::Week
                }
            },
        };
        levels.push(level);
        i += 1;
    }
    levels
}

proof fn lemma_counts_are_those(dates: Seq<Option<Ymd>>, year: int, month: int)
    ensures
        year_count(dates, year) == dates.filter(
            |d: Option<Ymd>| d is Some && d.unwrap().year == year,
        ).len(),
        month_count(dates, year, month) == dates.filter(
            |d: Option<Ymd>| d is Some && d.unwrap().year == year && d.unwrap().month == month,
        ).len(),
    decreases dates.len(),
{
    reveal(Seq::filter);
    if dates.len() > 0 {
        lemma_counts_are_those(dates.drop_last(), year, month);
    }
}

/// A year with more dated files than the threshold is split into months, a month with
/// more is split into weeks, and nothing else is split.
pub proof fn only_full_folders_are_split(dates: Seq<Option<Ymd>>, d: Ymd, threshold: nat)
    ensures
        ({
            let same_year = dates.filter(|x: Option<Ymd>| x is Some && x.unwrap().year == d.year);
            let same_month = dates.filter(
                |x: Option<Ymd>|
                    x is Some && x.unwrap().year == d.year && x.unwrap().month == d.month,
            );
            let level = level_of(dates, Some(d), threshold);
            &&& level is Year <==> same_year.len() <= threshold
            &&& level is Month <==> same_year.len() > threshold && same_month.len() <= threshold
            &&& level is Week <==> same_year.len() > threshold && same_month.len() > threshold
        }),
{
    lemma_counts_are_those(dates, d.year, d.month);
    lemma_counts_bounded(dates, d.year, d.month);
}

/// Dates of one month share their level, and dates of one year are either all in the
/// folder of the year or all below it.
pub proof fn folders_are_split_as_a_whole(
    dates: Seq<Option<Ymd>>,
    a: Ymd,
    b: Ymd,
    threshold: nat,
)
    requires
        a.year == b.year,
    ensures
        level_of(dates, Some(a), threshold) is Year <==> level_of(
            dates,
            Some(b),
            threshold,
        ) is Year,
        a.month == b.month ==> level_of(dates, Some(a), threshold) == level_of(
            dates,
            Some(b),
            threshold,
        ),
{
}

} // verus!
