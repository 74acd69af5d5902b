//! Published cycle dates for 2024-2026 used as an external correctness
//! fixture against the computed engine.

use airac_charts::calculate_cycle;
use airac_charts::calculate_cycle_dates;
use airac_charts::get_cycle_for;
use airac_charts::is_cycle_date;
use airac_charts::Airac;
use airac_charts::Date;

fn table() -> Vec<(u16, &'static str)> {
    vec![
        (2401, "2024-01-25"),
        (2402, "2024-02-22"),
        (2403, "2024-03-21"),
        (2404, "2024-04-18"),
        (2405, "2024-05-16"),
        (2406, "2024-06-13"),
        (2407, "2024-07-11"),
        (2408, "2024-08-08"),
        (2409, "2024-09-05"),
        (2410, "2024-10-03"),
        (2411, "2024-10-31"),
        (2412, "2024-11-28"),
        (2413, "2024-12-26"),
        (2501, "2025-01-23"),
        (2502, "2025-02-20"),
        (2503, "2025-03-20"),
        (2504, "2025-04-17"),
        (2505, "2025-05-15"),
        (2506, "2025-06-12"),
        (2507, "2025-07-10"),
        (2508, "2025-08-07"),
        (2509, "2025-09-04"),
        (2510, "2025-10-02"),
        (2511, "2025-10-30"),
        (2512, "2025-11-27"),
        (2513, "2025-12-25"),
        (2601, "2026-01-22"),
        (2602, "2026-02-19"),
        (2603, "2026-03-19"),
        (2604, "2026-04-16"),
        (2605, "2026-05-14"),
        (2606, "2026-06-11"),
        (2607, "2026-07-09"),
        (2608, "2026-08-06"),
        (2609, "2026-09-03"),
        (2610, "2026-10-01"),
        (2611, "2026-10-29"),
        (2612, "2026-11-26"),
        (2613, "2026-12-24"),
    ]
}

#[test]
fn published_starts_are_cycle_dates() {
    for (_code, start) in table() {
        assert!(is_cycle_date(start), "{start} should be a cycle date");
    }
}

#[test]
fn codes_match_published_table() {
    for (code, start) in table() {
        let expected = format!("{:04}", code);
        assert_eq!(
            calculate_cycle(start).as_deref(),
            Some(expected.as_str()),
            "code for {start}"
        );
        let (s, _e) = calculate_cycle_dates(&expected);
        assert_eq!(s, start, "start for code {code}");
    }
}

#[test]
fn get_cycle_for_matches_table() {
    let a: Airac = get_cycle_for("2024-03-25").unwrap();
    assert_eq!(a.code, 2403);
    assert_eq!(a.start, Date { year: 2024, month: 3, day: 21 });
    assert_eq!(a.end, Date { year: 2024, month: 4, day: 17 });

    let b: Airac = get_cycle_for("2024-01-25").unwrap();
    assert_eq!(b.code, 2401);
    assert_eq!(b.start, Date { year: 2024, month: 1, day: 25 });

    assert!(get_cycle_for("invaliddate").is_none());
    assert!(get_cycle_for("1987-05-05").is_none());
}

#[test]
fn airac_new_fills_dates() {
    let a = Airac::new(2401, "2024-01-25");
    assert_eq!(a.code, 2401);
    assert_eq!(a.start, Date { year: 2024, month: 1, day: 25 });
    assert_eq!(a.end, Date { year: 2024, month: 2, day: 21 });
}
