use aim::matrix::{average_row, parse_return_matrix, period_from, Period, ReturnMatrixAPI, ReturnRowPure};

fn raw(date: &str, value: i32) -> ReturnMatrixAPI {
    ReturnMatrixAPI { date: date.to_string(), value }
}

fn row(ticker: &str, values: Vec<i64>) -> ReturnRowPure {
    ReturnRowPure { ticker: ticker.to_string(), values }
}

fn tickers(rows: &[ReturnRowPure]) -> Vec<String> {
    rows.iter().map(|r| r.ticker.clone()).collect()
}

#[test]
fn average_of_two_rows() {
    let rows = vec![row("2024", vec![1000, 2000]), row("2023", vec![3000, 4000])];
    assert_eq!(average_row(&rows, 2), vec![2000, 3000]);
}

#[test]
fn average_rounds_halves_away_from_zero() {
    let rows = vec![row("2024", vec![75, -75, 1, -1]), row("2023", vec![0, 0, 0, 0])];
    assert_eq!(average_row(&rows, 4), vec![38, -38, 1, -1]);
    let rows = vec![row("a", vec![1]), row("b", vec![0]), row("c", vec![0])];
    assert_eq!(average_row(&rows, 1), vec![0]);
}

#[test]
fn quarterly_matrix() {
    let data = vec![
        raw("15/02/2023", 100),
        raw("20/05/2023", 200),
        raw("10/11/2024", -50),
        raw("01/12/2024", 75),
    ];
    let (rows, cols) = parse_return_matrix(&data, "quarterly", "");
    assert_eq!(cols, vec!["Q1", "Q2", "Q3", "Q4"]);
    assert_eq!(tickers(&rows), vec!["2024", "2023", "Average"]);
    assert_eq!(rows[0].values, vec![0, 0, 0, 75]);
    assert_eq!(rows[1].values, vec![100, 200, 0, 0]);
    assert_eq!(rows[2].values, vec![50, 100, 0, 38]);
}

#[test]
fn monthly_matrix_columns_and_rows() {
    let data = vec![raw("31/12/2024", 310), raw("01/01/2024", -20), raw("05/07/2022", 5)];
    let (rows, cols) = parse_return_matrix(&data, "monthly", "July");
    assert_eq!(cols.len(), 12);
    assert_eq!(cols[0], "January");
    assert_eq!(cols[6], "July");
    assert_eq!(cols[11], "December");
    assert_eq!(tickers(&rows), vec!["2024", "2022", "Average"]);
    assert_eq!(rows[0].values[0], -20);
    assert_eq!(rows[0].values[11], 310);
    assert_eq!(rows[1].values[6], 5);
    assert_eq!(rows[2].values[0], -10);
    assert_eq!(rows[2].values[6], 3);
    assert_eq!(rows[2].values[11], 155);
}

#[test]
fn later_return_overrides_earlier_in_same_bucket() {
    let data = vec![raw("01/01/2024", 1), raw("02/02/2024", 2), raw("03/03/2024", 3)];
    let (rows, _) = parse_return_matrix(&data, "quarterly", "");
    assert_eq!(rows[0].values, vec![3, 0, 0, 0]);
}

#[test]
fn weekly_bucket_of_eighth_of_january() {
    let data = vec![raw("08/01/2024", 123), raw("07/01/2024", 45)];
    let (rows, cols) = parse_return_matrix(&data, "weekly", "");
    assert_eq!(cols.len(), 52);
    assert_eq!(cols[0], "Week 1");
    assert_eq!(cols[1], "Week 2");
    assert_eq!(cols[51], "Week 52");
    assert_eq!(rows[0].ticker, "2024");
    assert_eq!(rows[0].values[0], 45);
    assert_eq!(rows[0].values[1], 123);
}

#[test]
fn weekly_counts_leap_day() {
    // 4 March is day 64 of 2024 (week index 9) and day 63 of 2023 (week index 8).
    let data = vec![raw("04/03/2024", 10), raw("04/03/2023", 20)];
    let (rows, _) = parse_return_matrix(&data, "weekly", "");
    assert_eq!(rows[0].ticker, "2024");
    assert_eq!(rows[0].values[9], 10);
    assert_eq!(rows[1].ticker, "2023");
    assert_eq!(rows[1].values[8], 20);
}

#[test]
fn daily_february_leap_year_has_29_columns() {
    let data = vec![raw("05/02/2024", 150), raw("05/03/2024", 999)];
    let (rows, cols) = parse_return_matrix(&data, "daily", "February");
    let expected: Vec<String> = (1..=29).map(|d| d.to_string()).collect();
    assert_eq!(cols, expected);
    assert_eq!(tickers(&rows), vec!["2024", "Average"]);
    assert_eq!(rows[0].values.len(), 29);
    assert_eq!(rows[0].values[4], 150);
    assert_eq!(rows[0].values.iter().sum::<i64>(), 150);
    assert_eq!(rows[1].values, rows[0].values);
}

#[test]
fn daily_february_common_year_has_28_columns() {
    let data = vec![raw("05/02/2023", 150)];
    let (rows, cols) = parse_return_matrix(&data, "daily", "2");
    let expected: Vec<String> = (1..=28).map(|d| d.to_string()).collect();
    assert_eq!(cols, expected);
    assert_eq!(rows[0].values.len(), 28);
}

#[test]
fn daily_filters_by_month_and_defaults_to_january() {
    let data = vec![raw("03/01/2024", 7), raw("03/04/2024", 8)];
    let (rows, cols) = parse_return_matrix(&data, "daily", "Nonsense");
    assert_eq!(cols.len(), 31);
    assert_eq!(tickers(&rows), vec!["2024", "Average"]);
    assert_eq!(rows[0].values[2], 7);
    let (rows, cols) = parse_return_matrix(&data, "daily", "April");
    assert_eq!(cols.len(), 30);
    assert_eq!(rows[0].values[2], 8);
    let (rows, _) = parse_return_matrix(&data, "daily", "May");
    assert!(rows.is_empty());
}

#[test]
fn unparsable_and_out_of_range_dates_are_skipped() {
    let data = vec![raw("2024-01-01", 1), raw("00/01/2024", 2), raw("01/13/2024", 3), raw("01/00/2024", 4)];
    let (rows, cols) = parse_return_matrix(&data, "monthly", "");
    assert_eq!(cols.len(), 12);
    assert_eq!(tickers(&rows), vec!["2024", "Average"]);
    let mut expected = vec![0i64; 12];
    expected[0] = 2;
    assert_eq!(rows[0].values, expected);
    // Only an out-of-range month: the year keeps a row of zeros.
    let (rows, _) = parse_return_matrix(&vec![raw("01/13/2023", 3)], "quarterly", "");
    assert_eq!(tickers(&rows), vec!["2023", "Average"]);
    assert_eq!(rows[0].values, vec![0, 0, 0, 0]);
}

#[test]
fn day_zero_still_counts_where_the_day_is_not_read() {
    let (rows, _) = parse_return_matrix(&vec![raw("00/05/2024", 100)], "monthly", "");
    assert_eq!(tickers(&rows), vec!["2024", "Average"]);
    assert_eq!(rows[0].values[4], 100);
    let data = vec![raw("00/05/2024", 100), raw("01/01/2024", 7)];
    let (rows, _) = parse_return_matrix(&data, "monthly", "");
    assert_eq!(rows[0].values[4], 100);
    assert_eq!(rows[0].values[0], 7);
    // Weekly: day 0 of February is day 31 of the year; day 0 of January has no week.
    let (rows, _) = parse_return_matrix(&vec![raw("00/02/2024", 5), raw("00/01/2024", 6)], "weekly", "");
    assert_eq!(tickers(&rows), vec!["2024", "Average"]);
    assert_eq!(rows[0].values[4], 5);
    assert_eq!(rows[0].values.iter().sum::<i64>(), 5);
    // Daily: day 0 has no column but its year keeps a row.
    let (rows, cols) = parse_return_matrix(&vec![raw("00/03/2023", 9)], "daily", "March");
    assert_eq!(cols.len(), 31);
    assert_eq!(tickers(&rows), vec!["2023", "Average"]);
    assert!(rows[0].values.iter().all(|v| *v == 0));
}

#[test]
fn unknown_parts_take_defaults() {
    // A day that is no number counts as day 1; the year text is kept as written.
    let data = vec![raw("xx/02/24", 9)];
    let (rows, _) = parse_return_matrix(&data, "daily", "February");
    assert_eq!(rows[0].ticker, "24");
    assert_eq!(rows[0].values[0], 9);
}

#[test]
fn other_period_has_no_columns() {
    let data = vec![raw("01/01/2024", 1), raw("01/01/2021", 2)];
    let (rows, cols) = parse_return_matrix(&data, "yearly", "");
    assert!(cols.is_empty());
    assert_eq!(tickers(&rows), vec!["2024", "2021", "Average"]);
    assert!(rows[2].values.is_empty());
}

#[test]
fn empty_input_gives_no_rows() {
    let (rows, cols) = parse_return_matrix(&Vec::new(), "quarterly", "");
    assert!(rows.is_empty());
    assert_eq!(cols.len(), 4);
}

#[test]
fn period_names() {
    assert_eq!(period_from("daily"), Period::Daily);
    assert_eq!(period_from("weekly"), Period::Weekly);
    assert_eq!(period_from("monthly"), Period::Monthly);
    assert_eq!(period_from("quarterly"), Period::Quarterly);
    assert_eq!(period_from("Daily"), Period::Other);
}
