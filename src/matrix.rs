//! The return matrix: dated returns of an instrument group arranged as one
//! row per year and one column per period bucket, with an average row.
//!
//! Returns are held in hundredths of a percent, so "rounded to two decimals"
//! is exact integer arithmetic.

use crate::calendar::{day_of_year, day_of_year_spec, month_days, month_number, month_number_spec};
use crate::text::{
    decimal, find_char, index_of, lemma_seq_lt_total, parse_u32, parse_u32_or, push_decimal,
    seq_lt, str_eq, str_lt,
};
use vstd::prelude::*;
use vstd::string::{StrSliceExecFns, StringExecFns};

verus! {

/// One raw return from the data source.
pub struct ReturnMatrixAPI {
    /// The date, `DD/MM/YYYY`.
    pub date: String,
    /// The return in hundredths of a percent (the percentage times 100, rounded).
    pub value: i32,
}

/// One row of the matrix: a label (a year, or "Average") and one value per
/// column, in hundredths of a percent.
pub struct ReturnRowPure {
    pub ticker: String,
    pub values: Vec<i64>,
}

/// The reporting granularity of a matrix.
#[derive(PartialEq, Eq, Structural, Clone, Copy, Debug)]
pub enum Period {
    Daily,
    Weekly,
    Monthly,
    Quarterly,
    /// Any other period name: no columns, buckets by month.
    Other,
}

/// The period that a period name stands for.
pub open spec fn period_spec(name: Seq<char>) -> Period {
    if name == "daily"@ {
        Period::Daily
    } else if name == "weekly"@ {
        Period::Weekly
    } else if name == "monthly"@ {
        Period::Monthly
    } else if name == "quarterly"@ {
        Period::Quarterly
    } else {
        Period::Other
    }
}

/// The period named by `name`.
pub fn period_from(name: &str) -> (r: Period)
    ensures
        r == period_spec(name@),
{
    if str_eq(name, "daily") {
        Period::Daily
    } else if str_eq(name, "weekly") {
        Period::Weekly
    } else if str_eq(name, "monthly") {
        Period::Monthly
    } else if str_eq(name, "quarterly") {
        Period::Quarterly
    } else {
        Period::Other
    }
}

/// A date split at its first two '/': day, month and year numbers (1, 1 and
/// 2024 where a part is no number) and the year text as written.
pub open spec fn parse_date(d: Seq<char>) -> Option<(u32, u32, u32, Seq<char>)> {
    match find_char(d, '/') {
        None => None,
        Some(i) => {
            let rest = d.skip(i + 1);
            match find_char(rest, '/') {
                None => None,
                Some(j) => {
                    let y = rest.skip(j + 1);
                    Some(
                        (
                            parse_u32_or(d.take(i), 1),
                            parse_u32_or(rest.take(j), 1),
                            parse_u32_or(y, 2024),
                            y,
                        ),
                    )
                },
            }
        },
    }
}

/// The bucket of a day in a period, counting from 0: the quarter, the month,
/// the week of the year (by day of the year) or the day of the month. There
/// is none where the day or month it reads is 0, nor for a weekly date whose
/// month is past 12 (its day of the year would fall beyond week 52).
pub open spec fn bucket_spec(period: Period, day: u32, month: u32, year: u32) -> Option<int> {
    match period {
        Period::Quarterly => if month >= 1 {
            Some((month - 1) / 3)
        } else {
            None
        },
        Period::Monthly => if month >= 1 {
            Some(month - 1)
        } else {
            None
        },
        Period::Weekly => {
            let doy = day_of_year_spec(day as int, month as int, year as int);
            if 1 <= month <= 12 && doy >= 1 {
                Some((doy - 1) / 7)
            } else {
                None
            }
        },
        Period::Daily => if day >= 1 {
            Some(day - 1)
        } else {
            None
        },
        Period::Other => if month >= 1 {
            Some(month - 1)
        } else {
            None
        },
    }
}

/// What a raw return contributes, when its date has two '/' and, for a
/// daily matrix, lies in the selected month: its bucket (if it has one), its
/// year number and its year text.
pub open spec fn classify_spec(period: Period, sel: u32, e: ReturnMatrixAPI) -> Option<
    (Option<int>, u32, Seq<char>),
> {
    match parse_date(e.date@) {
        Some((day, month, year, label)) => {
            if period != Period::Daily || month == sel {
                Some((bucket_spec(period, day, month, year), year, label))
            } else {
                None
            }
        },
        None => None,
    }
}

/// Splits a date at its first two '/'.
fn split_date(d: &str) -> (r: Option<(u32, u32, u32, String)>)
    ensures
        r matches Some((day, month, year, label)) ==> parse_date(d@) == Some(
            (day, month, year, label@),
        ),
        r is None ==> parse_date(d@) is None,
{
    let n = d.unicode_len();
    match index_of(d, '/') {
        None => None,
        Some(i) => {
            let rest = d.substring_char(i + 1, n);
            assert(rest@ =~= d@.skip(i + 1));
            match index_of(rest, '/') {
                None => None,
                Some(j) => {
                    let rn = rest.unicode_len();
                    let day_s = d.substring_char(0, i);
                    let month_s = rest.substring_char(0, j);
                    let year_s = rest.substring_char(j + 1, rn);
                    assert(day_s@ =~= d@.take(i as int));
                    assert(month_s@ =~= rest@.take(j as int));
                    assert(year_s@ =~= rest@.skip(j + 1));
                    let day = match parse_u32(day_s) {
                        Some(v) => v,
                        None => 1,
                    };
                    let month = match parse_u32(month_s) {
                        Some(v) => v,
                        None => 1,
                    };
                    let year = match parse_u32(year_s) {
                        Some(v) => v,
                        None => 2024,
                    };
                    Some((day, month, year, String::from_str(year_s)))
                },
            }
        },
    }
}

/// The bucket (if any), year number and year text of a raw return, if it counts.
fn classify(period: Period, sel: u32, e: &ReturnMatrixAPI) -> (r: Option<(Option<u64>, u32, String)>)
    ensures
        r matches Some((b, y, label)) ==> classify_spec(period, sel, *e) == Some(
            (
                match b {
                    Some(v) => Some(v as int),
                    None => None,
                },
                y,
                label@,
            ),
        ),
        r is None ==> classify_spec(period, sel, *e) is None,
{
    match split_date(e.date.as_str()) {
        None => None,
        Some((day, month, year, label)) => {
            if period != Period::Daily || month == sel {
                let b: Option<u64> = match period {
                    Period::Quarterly => if month >= 1 {
                        Some(((month - 1) / 3) as u64)
                    } else {
                        None
                    },
                    Period::Monthly => if month >= 1 {
                        Some((month - 1) as u64)
                    } else {
                        None
                    },
                    Period::Weekly => if 1 <= month && month <= 12 {
                        let doy = day_of_year(day, month, year);
                        if doy >= 1 {
                            Some((doy - 1) / 7)
                        } else {
                            None
                        }
                    } else {
                        None
                    },
                    Period::Daily => if day >= 1 {
                        Some((day - 1) as u64)
                    } else {
                        None
                    },
                    Period::Other => if month >= 1 {
                        Some((month - 1) as u64)
                    } else {
                        None
                    },
                };
                Some((b, year, label))
            } else {
                None
            }
        },
    }
}

/// Whether raw return `e` counts and is dated in the year written `y`.
pub open spec fn label_is(period: Period, sel: u32, e: ReturnMatrixAPI, y: Seq<char>) -> bool {
    match classify_spec(period, sel, e) {
        Some((_, _, l)) => l == y,
        None => false,
    }
}

/// Whether some counted raw return is dated in the year written `y`.
pub open spec fn has_year(
    entries: Seq<ReturnMatrixAPI>,
    period: Period,
    sel: u32,
    y: Seq<char>,
) -> bool {
    exists|k: int| 0 <= k < entries.len() && #[trigger] label_is(period, sel, entries[k], y)
}

/// The greatest year number among the counted raw returns, if any counts.
pub open spec fn latest_year(entries: Seq<ReturnMatrixAPI>, period: Period, sel: u32) -> Option<
    u32,
>
    decreases entries.len(),
{
    if entries.len() == 0 {
        None
    } else {
        let prev = latest_year(entries.drop_last(), period, sel);
        match classify_spec(period, sel, entries.last()) {
            Some((_, y, _)) => match prev {
                Some(p) => Some(if y > p { y } else { p }),
                None => Some(y),
            },
            None => prev,
        }
    }
}

/// The year that decides the length of February: the latest year among the
/// counted raw returns, or 2024 when none counts.
pub open spec fn year_context(entries: Seq<ReturnMatrixAPI>, period: Period, sel: u32) -> u32 {
    match latest_year(entries, period, sel) {
        Some(y) => y,
        None => 2024,
    }
}

/// The value in the row of year `y` and column `c`: that of the last counted
/// raw return of that year in that bucket, or 0 when there is none.
pub open spec fn cell(
    entries: Seq<ReturnMatrixAPI>,
    period: Period,
    sel: u32,
    y: Seq<char>,
    c: int,
) -> int
    decreases entries.len(),
{
    if entries.len() == 0 {
        0
    } else {
        match classify_spec(period, sel, entries.last()) {
            Some((b, _, l)) => if l == y && b == Some(c) {
                entries.last().value as int
            } else {
                cell(entries.drop_last(), period, sel, y, c)
            },
            None => cell(entries.drop_last(), period, sel, y, c),
        }
    }
}

/// The English month names, January first.
pub open spec fn month_names() -> Seq<Seq<char>> {
    seq![
        "January"@, "February"@, "March"@, "April"@, "May"@, "June"@, "July"@, "August"@,
        "September"@, "October"@, "November"@, "December"@,
    ]
}

/// The column labels: quarters, month names, 52 weeks, or the days of the
/// selected month in the year `yctx`; none for another period.
pub open spec fn column_labels(period: Period, sel: u32, yctx: u32) -> Seq<Seq<char>> {
    match period {
        Period::Quarterly => seq!["Q1"@, "Q2"@, "Q3"@, "Q4"@],
        Period::Monthly => month_names(),
        Period::Weekly => Seq::new(52, |i: int| "Week "@ + decimal((i + 1) as nat)),
        Period::Daily => Seq::new(
            month_days(sel as int, yctx as int) as nat,
            |i: int| decimal((i + 1) as nat),
        ),
        Period::Other => Seq::empty(),
    }
}

/// The month that a daily matrix shows; 1 for the other periods, which
/// ignore it.
pub open spec fn selected_month(period: Period, month: Seq<char>) -> u32 {
    if period == Period::Daily {
        month_number_spec(month)
    } else {
        1
    }
}

/// The texts of a sequence of strings.
pub open spec fn texts(v: Seq<String>) -> Seq<Seq<char>> {
    v.map_values(|s: String| s@)
}

/// Each element of `ys` comes after the next in lexicographic order.
pub open spec fn sorted_desc(ys: Seq<Seq<char>>) -> bool {
    forall|i: int| 0 <= i < ys.len() - 1 ==> seq_lt(ys[i + 1], #[trigger] ys[i])
}

/// No two elements of `ys` are equal.
pub open spec fn all_distinct(ys: Seq<Seq<char>>) -> bool {
    forall|i: int, j: int| 0 <= i < j < ys.len() ==> ys[i] != ys[j]
}

/// Whether `y` is an element of `ys`.
pub open spec fn listed(ys: Seq<Seq<char>>, y: Seq<char>) -> bool {
    exists|i: int| 0 <= i < ys.len() && ys[i] == y
}

/// `ys` lists each year of the counted raw returns once, latest
/// (lexicographically greatest) first.
pub open spec fn years_listed(
    ys: Seq<Seq<char>>,
    entries: Seq<ReturnMatrixAPI>,
    period: Period,
    sel: u32,
) -> bool {
    &&& sorted_desc(ys)
    &&& all_distinct(ys)
    &&& forall|y: Seq<char>|
        #![trigger listed(ys, y)]
        #![trigger has_year(entries, period, sel, y)]
        listed(ys, y) <==> has_year(entries, period, sel, y)
}

/// The sum of column `c` over the first `n` rows.
pub open spec fn col_sum(rows: Seq<ReturnRowPure>, n: int, c: int) -> int
    decreases n,
{
    if n <= 0 {
        0
    } else {
        col_sum(rows, n - 1, c) + rows[n - 1].values@[c]
    }
}

/// `s / n` rounded to the nearest integer, halves away from zero.
pub open spec fn round_div(s: int, n: int) -> int {
    let a = if s < 0 {
        -s
    } else {
        s
    };
    let q = a / n + if 2 * (a % n) >= n {
        1int
    } else {
        0int
    };
    if s < 0 {
        -q
    } else {
        q
    }
}

/// The year labels of the first `n` rows.
pub open spec fn row_labels(rows: Seq<ReturnRowPure>, n: int) -> Seq<Seq<char>> {
    rows.take(n).map_values(|r: ReturnRowPure| r.ticker@)
}

/// `rows` and `cols` are the matrix of the raw returns `entries`: the
/// columns are the period's labels; one row per year of the counted returns,
/// latest first, holding per column the value of `cell`; then, when there is
/// a year, an "Average" row holding per column the mean of the year rows in
/// hundredths, rounded halves away from zero.
pub open spec fn matrix_spec(
    entries: Seq<ReturnMatrixAPI>,
    period: Period,
    sel: u32,
    rows: Seq<ReturnRowPure>,
    cols: Seq<String>,
) -> bool {
    let labels = column_labels(period, sel, year_context(entries, period, sel));
    let ny = rows.len() - 1;
    &&& texts(cols) == labels
    &&& rows.len() != 1
    &&& rows.len() == 0 ==> years_listed(Seq::empty(), entries, period, sel)
    &&& rows.len() > 1 ==> {
        &&& years_listed(row_labels(rows, ny), entries, period, sel)
        &&& forall|i: int|
            0 <= i < ny ==> #[trigger] rows[i].values@.len() == labels.len() && forall|c: int|
                0 <= c < labels.len() ==> rows[i].values@[c] == cell(
                    entries,
                    period,
                    sel,
                    rows[i].ticker@,
                    c,
                )
        &&& rows[ny].ticker@ == "Average"@
        &&& rows[ny].values@.len() == labels.len()
        &&& forall|c: int|
            0 <= c < labels.len() ==> #[trigger] rows[ny].values@[c] == round_div(
                col_sum(rows, ny, c),
                ny,
            )
    }
}

/// Adds `label` to a descending list of distinct years, unless it is there.
fn insert_year(years: &mut Vec<String>, label: String)
    requires
        sorted_desc(texts(old(years)@)),
        all_distinct(texts(old(years)@)),
    ensures
        sorted_desc(texts(final(years)@)),
        all_distinct(texts(final(years)@)),
        forall|y: Seq<char>|
            #[trigger] listed(texts(final(years)@), y) <==> (listed(texts(old(years)@), y) || y
                == label@),
{
    let ghost old_ys = texts(years@);
    let mut j: usize = 0;
    while j < years.len()
        invariant
            j <= years@.len(),
            years@ == old(years)@,
            old_ys == texts(years@),
            sorted_desc(old_ys),
            all_distinct(old_ys),
            forall|k: int| 0 <= k < j ==> years@[k]@ != label@,
        decreases years@.len() - j,
    {
        if str_eq(years[j].as_str(), label.as_str()) {
            assert(old_ys[j as int] == label@);
            return;
        }
        j = j + 1;
    }
    let mut i: usize = 0;
    let mut found = false;
    while i < years.len() && !found
        invariant
            i <= years@.len(),
            old_ys == texts(years@),
            sorted_desc(old_ys),
            all_distinct(old_ys),
            forall|k: int| 0 <= k < i ==> !seq_lt(old_ys[k], label@),
            forall|k: int| 0 <= k < years@.len() ==> old_ys[k] != label@,
            found ==> i < years@.len() && seq_lt(old_ys[i as int], label@),
        decreases years@.len() - i + (if found { 0int } else { 1int }),
    {
        assert(old_ys[i as int] == years@[i as int]@);
        if str_lt(years[i].as_str(), label.as_str()) {
            found = true;
        } else {
            i = i + 1;
        }
    }
    let ghost lv = label@;
    years.insert(i, label);
    assert(texts(years@) =~= old_ys.insert(i as int, lv));
    proof {
        lemma_insert_sorted(old_ys, i as int, lv);
    }
}

proof fn lemma_insert_sorted(old_ys: Seq<Seq<char>>, i: int, lv: Seq<char>)
    requires
        0 <= i <= old_ys.len(),
        sorted_desc(old_ys),
        all_distinct(old_ys),
        forall|k: int| 0 <= k < i ==> !seq_lt(old_ys[k], lv),
        forall|k: int| 0 <= k < old_ys.len() ==> old_ys[k] != lv,
        i < old_ys.len() ==> seq_lt(old_ys[i], lv),
    ensures
        sorted_desc(old_ys.insert(i, lv)),
        all_distinct(old_ys.insert(i, lv)),
        forall|y: Seq<char>| #[trigger]
            listed(old_ys.insert(i, lv), y) <==> (listed(old_ys, y) || y == lv),
{
    lemma_insert_keeps_order(old_ys, i, lv);
    lemma_insert_keeps_distinct(old_ys, i, lv);
    lemma_insert_lists(old_ys, i, lv);
}

proof fn lemma_insert_keeps_order(old_ys: Seq<Seq<char>>, i: int, lv: Seq<char>)
    requires
        0 <= i <= old_ys.len(),
        sorted_desc(old_ys),
        all_distinct(old_ys),
        forall|k: int| 0 <= k < i ==> !seq_lt(old_ys[k], lv),
        forall|k: int| 0 <= k < old_ys.len() ==> old_ys[k] != lv,
        i < old_ys.len() ==> seq_lt(old_ys[i], lv),
    ensures
        sorted_desc(old_ys.insert(i, lv)),
{
    let ys = old_ys.insert(i, lv);
    if i > 0 {
        assert(old_ys[i - 1] != lv);
        lemma_seq_lt_total(old_ys[i - 1], lv);
    }
    assert forall|k: int| 0 <= k < ys.len() - 1 implies seq_lt(ys[k + 1], #[trigger] ys[k]) by {
        if k + 1 < i {
            assert(ys[k] == old_ys[k] && ys[k + 1] == old_ys[k + 1]);
        } else if k + 1 == i {
            assert(ys[k] == old_ys[k] && ys[k + 1] == lv);
        } else if k == i {
            assert(ys[k] == lv && ys[k + 1] == old_ys[k]);
        } else {
            assert(ys[k] == old_ys[k - 1] && ys[k + 1] == old_ys[k]);
        }
    }
}

proof fn lemma_insert_keeps_distinct(old_ys: Seq<Seq<char>>, i: int, lv: Seq<char>)
    requires
        0 <= i <= old_ys.len(),
        sorted_desc(old_ys),
        all_distinct(old_ys),
        forall|k: int| 0 <= k < i ==> !seq_lt(old_ys[k], lv),
        forall|k: int| 0 <= k < old_ys.len() ==> old_ys[k] != lv,
        i < old_ys.len() ==> seq_lt(old_ys[i], lv),
    ensures
        all_distinct(old_ys.insert(i, lv)),
{
    let ys = old_ys.insert(i, lv);
    assert forall|a: int, b: int| 0 <= a < b < ys.len() implies ys[a] != ys[b] by {
        if a < i && b < i {
        } else if a < i && b == i {
        } else if a < i {
            assert(ys[b] == old_ys[b - 1]);
        } else if a == i {
            assert(ys[b] == old_ys[b - 1]);
        } else {
            assert(ys[a] == old_ys[a - 1] && ys[b] == old_ys[b - 1]);
        }
    }
}

proof fn lemma_insert_lists(old_ys: Seq<Seq<char>>, i: int, lv: Seq<char>)
    requires
        0 <= i <= old_ys.len(),
    ensures
        forall|y: Seq<char>| #[trigger]
            listed(old_ys.insert(i, lv), y) <==> (listed(old_ys, y) || y == lv),
{
    let ys = old_ys.insert(i, lv);
    assert forall|y: Seq<char>| #[trigger] listed(ys, y) <==> (listed(old_ys, y) || y == lv) by {
        if listed(ys, y) {
            let k = choose|k: int| 0 <= k < ys.len() && ys[k] == y;
            if k < i {
                assert(old_ys[k] == y);
            } else if k > i {
                assert(old_ys[k - 1] == y);
            }
        }
        if listed(old_ys, y) {
            let k = choose|k: int| 0 <= k < old_ys.len() && old_ys[k] == y;
            if k < i {
                assert(ys[k] == y);
            } else {
                assert(ys[k + 1] == y);
            }
        }
        if y == lv {
            assert(ys[i as int] == y);
        }
    }
}

/// The year membership of a prefix grows by the year of the next raw return.
proof fn lemma_has_year_step(
    entries: Seq<ReturnMatrixAPI>,
    k: int,
    period: Period,
    sel: u32,
    y: Seq<char>,
)
    requires
        0 <= k < entries.len(),
    ensures
        has_year(entries.take(k + 1), period, sel, y) <==> (has_year(
            entries.take(k),
            period,
            sel,
            y,
        ) || label_is(period, sel, entries[k], y)),
{
    let pre = entries.take(k);
    let post = entries.take(k + 1);
    if has_year(post, period, sel, y) {
        let t = choose|t: int| 0 <= t < post.len() && #[trigger] label_is(period, sel, post[t], y);
        if t < k {
            assert(pre[t] == post[t]);
        }
    }
    if has_year(pre, period, sel, y) {
        let t = choose|t: int| 0 <= t < pre.len() && #[trigger] label_is(period, sel, pre[t], y);
        assert(post[t] == pre[t]);
    }
    if label_is(period, sel, entries[k], y) {
        assert(post[k] == entries[k]);
    }
}

/// The years of the counted raw returns, latest first, and the greatest year number.
fn collect_years(entries: &Vec<ReturnMatrixAPI>, period: Period, sel: u32) -> (r: (
    Vec<String>,
    Option<u32>,
))
    ensures
        years_listed(texts(r.0@), entries@, period, sel),
        r.1 == latest_year(entries@, period, sel),
{
    let mut years: Vec<String> = Vec::new();
    let mut latest: Option<u32> = None;
    let mut k: usize = 0;
    assert(entries@.take(0) =~= Seq::<ReturnMatrixAPI>::empty());
    assert(texts(years@) =~= Seq::<Seq<char>>::empty());
    while k < entries.len()
        invariant
            k <= entries@.len(),
            years_listed(texts(years@), entries@.take(k as int), period, sel),
            latest == latest_year(entries@.take(k as int), period, sel),
        decreases entries@.len() - k,
    {
        let ghost pre = entries@.take(k as int);
        let ghost post = entries@.take(k + 1);
        let ghost old_ys = texts(years@);
        assert(post.drop_last() =~= pre);
        assert(post.last() == entries@[k as int]);
        match classify(period, sel, &entries[k]) {
            None => {
                assert forall|y: Seq<char>|
                    #![trigger listed(old_ys, y)]
                    #![trigger has_year(post, period, sel, y)]
                    listed(old_ys, y) <==> has_year(post, period, sel, y) by {
                    lemma_has_year_step(entries@, k as int, period, sel, y);
                }
            },
            Some((_, y, label)) => {
                latest = match latest {
                    Some(p) => Some(if y > p { y } else { p }),
                    None => Some(y),
                };
                let ghost lv = label@;
                insert_year(&mut years, label);
                let ghost ys = texts(years@);
                assert forall|y: Seq<char>|
                    #![trigger listed(ys, y)]
                    #![trigger has_year(post, period, sel, y)]
                    listed(ys, y) <==> has_year(post, period, sel, y) by {
                    lemma_has_year_step(entries@, k as int, period, sel, y);
                    assert(listed(old_ys, y) <==> has_year(pre, period, sel, y));
                    assert(listed(ys, y) <==> (listed(old_ys, y) || y == lv));
                }
            },
        }
        k = k + 1;
    }
    assert(entries@.take(k as int) =~= entries@);
    (years, latest)
}

/// The column labels of a matrix.
fn column_labels_exec(period: Period, sel: u32, yctx: u32) -> (r: Vec<String>)
    requires
        1 <= sel <= 12,
    ensures
        texts(r@) == column_labels(period, sel, yctx),
{
    let mut r: Vec<String> = Vec::new();
    match period {
        Period::Quarterly => {
            r.push(String::from_str("Q1"));
            r.push(String::from_str("Q2"));
            r.push(String::from_str("Q3"));
            r.push(String::from_str("Q4"));
            assert(texts(r@) =~= column_labels(period, sel, yctx));
        },
        Period::Monthly => {
            r.push(String::from_str("January"));
            r.push(String::from_str("February"));
            r.push(String::from_str("March"));
            r.push(String::from_str("April"));
            r.push(String::from_str("May"));
            r.push(String::from_str("June"));
            r.push(String::from_str("July"));
            r.push(String::from_str("August"));
            r.push(String::from_str("September"));
            r.push(String::from_str("October"));
            r.push(String::from_str("November"));
            r.push(String::from_str("December"));
            assert(texts(r@) =~= column_labels(period, sel, yctx));
        },
        Period::Weekly => {
            let mut w: u64 = 1;
            assert(texts(r@) =~= Seq::new(0, |i: int| "Week "@ + decimal((i + 1) as nat)));
            while w <= 52
                invariant
                    1 <= w <= 53,
                    texts(r@) == Seq::new((w - 1) as nat, |i: int| "Week "@ + decimal((i + 1) as nat)),
                decreases 53 - w,
            {
                let mut label = String::from_str("Week ");
                push_decimal(&mut label, w);
                let ghost before = texts(r@);
                let ghost lv = label@;
                r.push(label);
                assert(texts(r@) =~= before.push(lv));
                w = w + 1;
                assert(texts(r@) =~= Seq::new((w - 1) as nat, |i: int| "Week "@ + decimal((i + 1) as nat)));
            }
            assert(texts(r@) =~= column_labels(period, sel, yctx));
        },
        Period::Daily => {
            let n = crate::calendar::days_in_month(sel, yctx) as u64;
            let mut d: u64 = 1;
            assert(texts(r@) =~= Seq::new(0, |i: int| decimal((i + 1) as nat)));
            while d <= n
                invariant
                    1 <= d <= n + 1,
                    n <= 31,
                    texts(r@) == Seq::new((d - 1) as nat, |i: int| decimal((i + 1) as nat)),
                decreases n + 1 - d,
            {
                let mut label = String::new();
                push_decimal(&mut label, d);
                assert(label@ =~= decimal(d as nat));
                let ghost before = texts(r@);
                let ghost lv = label@;
                r.push(label);
                assert(texts(r@) =~= before.push(lv));
                d = d + 1;
                assert(texts(r@) =~= Seq::new((d - 1) as nat, |i: int| decimal((i + 1) as nat)));
            }
            assert(texts(r@) =~= column_labels(period, sel, yctx));
        },
        Period::Other => {
            assert(texts(r@) =~= column_labels(period, sel, yctx));
        },
    }
    r
}

/// Whether every value lies in the range of `i32`.
pub open spec fn in_i32_range(v: Seq<i64>) -> bool {
    forall|c: int| 0 <= c < v.len() ==> i32::MIN <= #[trigger] v[c] <= i32::MAX
}

/// The row of year `year`: per column, the value of `cell`.
fn year_values(
    entries: &Vec<ReturnMatrixAPI>,
    period: Period,
    sel: u32,
    year: &String,
    ncols: usize,
) -> (r: Vec<i64>)
    ensures
        r@.len() == ncols,
        forall|c: int| 0 <= c < ncols ==> #[trigger] r@[c] == cell(entries@, period, sel, year@, c),
        in_i32_range(r@),
{
    let mut vals: Vec<i64> = Vec::new();
    let mut c: usize = 0;
    while c < ncols
        invariant
            c <= ncols,
            vals@.len() == c,
            forall|j: int| 0 <= j < c ==> vals@[j] == 0,
        decreases ncols - c,
    {
        vals.push(0);
        c = c + 1;
    }
    let mut k: usize = 0;
    assert(entries@.take(0) =~= Seq::<ReturnMatrixAPI>::empty());
    while k < entries.len()
        invariant
            k <= entries@.len(),
            vals@.len() == ncols,
            forall|j: int|
                0 <= j < ncols ==> #[trigger] vals@[j] == cell(
                    entries@.take(k as int),
                    period,
                    sel,
                    year@,
                    j,
                ),
            in_i32_range(vals@),
        decreases entries@.len() - k,
    {
        let ghost pre = entries@.take(k as int);
        let ghost post = entries@.take(k + 1);
        assert(post.drop_last() =~= pre);
        assert(post.last() == entries@[k as int]);
        match classify(period, sel, &entries[k]) {
            Some((Some(b), _, label)) => {
                if b < ncols as u64 && str_eq(label.as_str(), year.as_str()) {
                    vals.set(b as usize, entries[k].value as i64);
                }
            },
            Some((None, _, _)) => {},
            None => {},
        }
        assert forall|j: int| 0 <= j < ncols implies #[trigger] vals@[j] == cell(
            post,
            period,
            sel,
            year@,
            j,
        ) by {
            assert(cell(pre, period, sel, year@, j) == cell(post.drop_last(), period, sel, year@, j));
        }
        k = k + 1;
    }
    assert(entries@.take(k as int) =~= entries@);
    vals
}

/// `a <= n * k` and `n > 0` give `a / n <= k`.
proof fn lemma_div_bound(a: int, n: int, k: int)
    requires
        0 <= a <= n * k,
        n > 0,
        k >= 0,
    ensures
        a / n <= k,
{
    assert(a / n <= k) by (nonlinear_arith)
        requires
            0 <= a <= n * k,
            n > 0,
            k >= 0,
    ;
}

/// Per column, the mean of the rows in hundredths, rounded halves away from zero.
pub fn average_row(rows: &Vec<ReturnRowPure>, ncols: usize) -> (r: Vec<i64>)
    requires
        rows@.len() > 0,
        forall|i: int|
            0 <= i < rows@.len() ==> #[trigger] rows@[i].values@.len() == ncols && in_i32_range(
                rows@[i].values@,
            ),
    ensures
        r@.len() == ncols,
        forall|c: int|
            0 <= c < ncols ==> #[trigger] r@[c] == round_div(
                col_sum(rows@, rows@.len() as int, c),
                rows@.len() as int,
            ),
{
    let n = rows.len();
    let mut avg: Vec<i64> = Vec::new();
    let mut c: usize = 0;
    while c < ncols
        invariant
            c <= ncols,
            n == rows@.len(),
            n > 0,
            avg@.len() == c,
            forall|i: int|
                0 <= i < rows@.len() ==> #[trigger] rows@[i].values@.len() == ncols
                    && in_i32_range(rows@[i].values@),
            forall|j: int|
                0 <= j < c ==> #[trigger] avg@[j] == round_div(
                    col_sum(rows@, n as int, j),
                    n as int,
                ),
        decreases ncols - c,
    {
        let mut sum: i128 = 0;
        let mut i: usize = 0;
        while i < n
            invariant
                i <= n,
                n == rows@.len(),
                c < ncols,
                forall|t: int|
                    0 <= t < rows@.len() ==> #[trigger] rows@[t].values@.len() == ncols
                        && in_i32_range(rows@[t].values@),
                sum == col_sum(rows@, i as int, c as int),
                -(i as int) * 0x8000_0000 <= sum <= (i as int) * 0x8000_0000,
            decreases n - i,
        {
            let v = rows[i].values[c];
            assert(in_i32_range(rows@[i as int].values@));
            assert(i32::MIN <= rows@[i as int].values@[c as int] <= i32::MAX);
            sum = sum + v as i128;
            i = i + 1;
        }
        let a: i128 = if sum < 0 {
            -sum
        } else {
            sum
        };
        let q = a / (n as i128);
        let rem = a % (n as i128);
        proof {
            lemma_div_bound(a as int, n as int, 0x8000_0000);
        }
        let q2 = if 2 * rem >= n as i128 {
            q + 1
        } else {
            q
        };
        let v: i64 = if sum < 0 {
            -(q2 as i64)
        } else {
            q2 as i64
        };
        avg.push(v);
        c = c + 1;
    }
    avg
}

/// Arranges raw returns as a matrix for `period` ("daily", "weekly",
/// "monthly", "quarterly"; another name gives no columns) and, for "daily",
/// the month `month` (a number or an English name; January when
/// unrecognised). A return whose date has no two '/', or, for "daily", lies
/// in another month, is left out; every other return gives its year a row,
/// and its value goes to its bucket when the bucket exists and is below the
/// column count. One row per year, latest first, then an "Average" row.
pub fn parse_return_matrix(api_data: &Vec<ReturnMatrixAPI>, period: &str, month: &str) -> (r: (
    Vec<ReturnRowPure>,
    Vec<String>,
))
    ensures
        matrix_spec(
            api_data@,
            period_spec(period@),
            selected_month(period_spec(period@), month@),
            r.0@,
            r.1@,
        ),
{
    let p = period_from(period);
    let sel: u32 = if p == Period::Daily {
        month_number(month)
    } else {
        1
    };
    let (years, latest) = collect_years(api_data, p, sel);
    let yctx: u32 = match latest {
        Some(y) => y,
        None => 2024,
    };
    let columns = column_labels_exec(p, sel, yctx);
    let ncols = columns.len();
    let ghost labels = column_labels(p, sel, yctx);
    assert(labels.len() == ncols);
    let ghost ys = texts(years@);
    let mut rows: Vec<ReturnRowPure> = Vec::new();
    let mut i: usize = 0;
    while i < years.len()
        invariant
            i <= years@.len(),
            ys == texts(years@),
            rows@.len() == i,
            row_labels(rows@, i as int) == ys.take(i as int),
            forall|t: int|
                0 <= t < i ==> #[trigger] rows@[t].values@.len() == ncols && in_i32_range(
                    rows@[t].values@,
                ) && forall|c: int|
                    0 <= c < ncols ==> rows@[t].values@[c] == cell(
                        api_data@,
                        p,
                        sel,
                        rows@[t].ticker@,
                        c,
                    ),
        decreases years@.len() - i,
    {
        let vals = year_values(api_data, p, sel, &years[i], ncols);
        let ghost old_rows = rows@;
        rows.push(ReturnRowPure { ticker: years[i].clone(), values: vals });
        proof {
            assert(rows@[i as int].ticker@ == ys[i as int]);
            assert(row_labels(rows@, i + 1) =~= row_labels(old_rows, i as int).push(ys[i as int]));
            assert(ys.take(i + 1) =~= ys.take(i as int).push(ys[i as int]));
            assert forall|t: int| 0 <= t < i + 1 implies #[trigger] rows@[t].values@.len() == ncols
                && in_i32_range(rows@[t].values@) && forall|c: int|
                0 <= c < ncols ==> rows@[t].values@[c] == cell(
                    api_data@,
                    p,
                    sel,
                    rows@[t].ticker@,
                    c,
                ) by {
                if t < i {
                    assert(rows@[t] == old_rows[t]);
                }
            }
        }
        i = i + 1;
    }
    assert(ys.take(i as int) =~= ys);
    if rows.len() > 0 {
        let ny = rows.len();
        let avg = average_row(&rows, ncols);
        let ghost year_rows = rows@;
        let ghost avg_v = avg@;
        rows.push(ReturnRowPure { ticker: String::from_str("Average"), values: avg });
        proof {
            assert(row_labels(rows@, ny as int) =~= row_labels(year_rows, ny as int));
            assert forall|c: int| 0 <= c < ncols implies col_sum(rows@, ny as int, c) == col_sum(
                year_rows,
                ny as int,
                c,
            ) by {
                lemma_col_sum_prefix(rows@, year_rows, ny as int, c);
            }
            assert forall|t: int| 0 <= t < ny implies rows@[t] == year_rows[t] by {}
            assert forall|t: int| 0 <= t < ny implies #[trigger] rows@[t].values@.len()
                == labels.len() && forall|c: int|
                0 <= c < labels.len() ==> rows@[t].values@[c] == cell(
                    api_data@,
                    p,
                    sel,
                    rows@[t].ticker@,
                    c,
                ) by {
                assert(rows@[t] == year_rows[t]);
                assert(year_rows[t].values@.len() == ncols);
            }
            assert forall|c: int| 0 <= c < labels.len() implies #[trigger] rows@[ny as int].values@[c]
                == round_div(col_sum(rows@, ny as int, c), ny as int) by {
                assert(rows@[ny as int].values@ == avg_v);
            }
            assert(rows@.len() - 1 == ny);
        }
    } else {
        assert(ys =~= Seq::<Seq<char>>::empty());
    }
    (rows, columns)
}

/// A column sum reads only the rows it sums.
proof fn lemma_col_sum_prefix(a: Seq<ReturnRowPure>, b: Seq<ReturnRowPure>, n: int, c: int)
    requires
        0 <= n <= a.len(),
        n <= b.len(),
        forall|t: int| 0 <= t < n ==> a[t] == b[t],
    ensures
        col_sum(a, n, c) == col_sum(b, n, c),
    decreases n,
{
    if n > 0 {
        lemma_col_sum_prefix(a, b, n - 1, c);
    }
}

} // verus!
