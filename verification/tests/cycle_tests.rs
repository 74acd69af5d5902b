use airac_charts::calculate_cycle;
use airac_charts::calculate_cycle_dates;
use airac_charts::cycles_between_dates;
use airac_charts::first_cycle_of_year;
use airac_charts::is_cycle_date;
use airac_charts::number_of_cycles_in_year;
use airac_charts::split_year;

#[test]
fn tests() {
    assert_eq!(is_cycle_date("2023-12-28"), true);
    assert_ne!(is_cycle_date("2023-12-27"), true);

    assert_eq!(first_cycle_of_year(2023), "2023-01-26");

    assert_eq!(number_of_cycles_in_year(2023), 13);
    assert_eq!(number_of_cycles_in_year(2020), 14);

    assert_eq!(cycles_between_dates("2023-01-26", "2023-02-22"), 1);
    assert_eq!(cycles_between_dates("2023-01-26", "2023-02-23"), 2);

    let year: i64 = 2023;
    assert_eq!(split_year(&year), 23);

    assert_eq!(calculate_cycle("2023-01-26").unwrap(), "2301");
    assert_eq!(calculate_cycle("2023-01-01").unwrap(), "2213");
    assert_eq!(calculate_cycle("invaliddate"), None);

    let cycle = "2301".to_string();
    assert_eq!(
        calculate_cycle_dates(&cycle),
        ("2023-01-26".to_string(), "2023-02-22".to_string())
    );
}

#[test]
fn epoch_lattice() {
    assert!(is_cycle_date("2023-01-26"));
    assert!(is_cycle_date("2023-02-23"));
    assert!(is_cycle_date("2022-12-29"));
    assert!(is_cycle_date("2024-01-25"));
    assert!(!is_cycle_date("2023-01-27"));
    assert!(!is_cycle_date("2023-02-22"));
    assert!(!is_cycle_date("2023-01-26x"));
    assert!(!is_cycle_date("2023-13-01"));
    assert!(!is_cycle_date("2023-02-30"));
    assert!(!is_cycle_date(""));
}

#[test]
fn leap_year_handling() {
    assert!(is_cycle_date("2024-02-22"));
    assert_eq!(cycles_between_dates("2024-01-25", "2024-02-22"), 2);
    assert_eq!(calculate_cycle("2024-02-29").unwrap(), "2402");
    assert_eq!(first_cycle_of_year(2020), "2020-01-02");
    assert_eq!(first_cycle_of_year(2021), "2021-01-28");
}

#[test]
fn year_boundary_assignment() {
    assert_eq!(calculate_cycle("2024-01-24").unwrap(), "2313");
    assert_eq!(calculate_cycle("2024-01-25").unwrap(), "2401");
    assert_eq!(calculate_cycle("2023-12-31").unwrap(), "2313");
    assert_eq!(calculate_cycle("2023-06-15").unwrap(), "2306");
}

#[test]
fn malformed_and_out_of_era_dates() {
    assert_eq!(calculate_cycle(""), None);
    assert_eq!(calculate_cycle("2023-1-26"), None);
    assert_eq!(calculate_cycle("2023/01/26"), None);
    assert_eq!(calculate_cycle("abcd-01-26"), None);
    assert_eq!(calculate_cycle("2023-00-10"), None);
    assert_eq!(calculate_cycle("2023-02-29"), None);
    assert_eq!(calculate_cycle("1999-06-15"), None);
    assert_eq!(calculate_cycle("2101-06-15"), None);
}

#[test]
fn cycle_dates_cover_year_boundary() {
    let (start, end) = calculate_cycle_dates("2313");
    assert_eq!(start, "2023-12-28");
    assert_eq!(end, "2024-01-24");
    let (start, end) = calculate_cycle_dates("2402");
    assert_eq!(start, "2024-02-22");
    assert_eq!(end, "2024-03-20");
}

#[test]
fn round_trip_on_cycle_starts() {
    let starts = [
        "2023-01-26",
        "2023-12-28",
        "2024-01-25",
        "2024-12-26",
        "2025-01-23",
        "2026-12-24",
    ];
    for s in starts {
        assert!(is_cycle_date(s));
        let code = calculate_cycle(s).unwrap();
        let (start, _end) = calculate_cycle_dates(&code);
        assert_eq!(start, *s, "round trip through code {code}");
    }
}

#[test]
fn cycle_counts_are_13_or_14() {
    for y in 2000i64..=2060 {
        let n = number_of_cycles_in_year(y);
        assert!(n == 13 || n == 14, "year {y} has {n} cycles");
    }
}
