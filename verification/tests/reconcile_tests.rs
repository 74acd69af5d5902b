use airac_charts::models::build_chart_records;
use airac_charts::models::classify;
use airac_charts::get_cycle_for;
use airac_charts::Airport;
use airac_charts::Chart;
use airac_charts::ChartRecord;
use airac_charts::ChartType;
use airac_charts::City;
use airac_charts::DigitalTpp;
use airac_charts::State;
use airac_charts::Store;

fn chart(code: &str, name: &str, pdf: &str) -> Chart {
    Chart {
        chart_code: code.to_string(),
        chart_name: name.to_string(),
        pdf_name: pdf.to_string(),
    }
}

fn airport(id: &str, apt: Option<&str>, records: Option<Vec<Chart>>) -> Airport {
    Airport {
        id: id.to_string(),
        apt_ident: apt.map(|s| s.to_string()),
        records,
    }
}

fn sample_doc() -> DigitalTpp {
    DigitalTpp {
        state_codes: vec![
            State {
                id: "CA".to_string(),
                city_names: vec![City {
                    id: "SAN FRANCISCO".to_string(),
                    airports: vec![
                        airport(
                            "1",
                            Some("SFO"),
                            Some(vec![
                                chart("IAP", "ILS OR LOC RWY 28L", "00375I28L.PDF"),
                                chart("STAR", "SERFR FOUR", "00375SERFR.PDF"),
                                chart("MIN", "TAKEOFF MINIMUMS", "00375MIN.PDF"),
                            ]),
                        ),
                        airport("2", None, Some(vec![chart("DP", "GONE ONE", "x.PDF")])),
                        airport("3", Some("OAK"), None),
                        airport("4", Some("SJC"), Some(vec![])),
                    ],
                }],
            },
            State {
                id: "NV".to_string(),
                city_names: vec![City {
                    id: "RENO".to_string(),
                    airports: vec![airport(
                        "5",
                        Some("RNO"),
                        Some(vec![chart("DP", "MUSTANG NINE", "00346MUSTANG.PDF")]),
                    )],
                }],
            },
        ],
    }
}

fn old_row(identity: &str, cycle: u16) -> ChartRecord {
    ChartRecord {
        identity: identity.to_string(),
        airport_id: "OLD".to_string(),
        cycle,
        from_date: "2023-11-30".to_string(),
        to_date: "2023-12-27".to_string(),
        chart_code: "IAP".to_string(),
        chart_name: "OLD CHART".to_string(),
        chart_url: "https://aeronav.faa.gov/d-tpp/2312/old.PDF".to_string(),
    }
}

#[test]
fn classification_is_closed() {
    assert_eq!(classify("DP"), ChartType::Dp);
    assert_eq!(classify("STAR"), ChartType::Star);
    assert_eq!(classify("IAP"), ChartType::Iap);
    assert_eq!(classify("MIN"), ChartType::Other);
    assert_eq!(classify(""), ChartType::Other);
    assert_eq!(classify("dp"), ChartType::Other);
}

#[test]
fn builder_produces_stamped_records() {
    let doc = sample_doc();
    let cycle = get_cycle_for("2023-12-28").unwrap();
    assert_eq!(cycle.code, 2313);
    let states = vec!["CA".to_string(), "NV".to_string()];
    let (records, chart_count, airport_count) = build_chart_records(&doc, &states, &cycle);
    assert_eq!(chart_count, 4);
    assert_eq!(airport_count, 2);
    assert_eq!(records.len(), 4);

    let r = &records[0];
    assert_eq!(r.identity, "FAA-SFO-IAP-ILS OR LOC RWY 28L");
    assert_eq!(r.airport_id, "SFO");
    assert_eq!(r.cycle, 2313);
    assert_eq!(r.from_date, "2023-12-28");
    assert_eq!(r.to_date, "2024-01-24");
    assert_eq!(r.chart_code, "IAP");
    assert_eq!(r.chart_name, "ILS OR LOC RWY 28L");
    assert_eq!(r.chart_url, "https://aeronav.faa.gov/d-tpp/2313/00375I28L.PDF");

    assert_eq!(records[1].identity, "FAA-SFO-STAR-SERFR FOUR");
    assert_eq!(records[2].identity, "FAA-SFO-OTHER-TAKEOFF MINIMUMS");
    assert_eq!(records[2].chart_code, "OTHER");
    assert_eq!(records[3].identity, "FAA-RNO-DP-MUSTANG NINE");
}

#[test]
fn allow_list_filters_jurisdictions() {
    let doc = sample_doc();
    let cycle = get_cycle_for("2023-12-28").unwrap();
    let only_nv = vec!["NV".to_string()];
    let (records, chart_count, airport_count) = build_chart_records(&doc, &only_nv, &cycle);
    assert_eq!(chart_count, 1);
    assert_eq!(airport_count, 1);
    assert_eq!(records[0].identity, "FAA-RNO-DP-MUSTANG NINE");

    let wildcard = vec!["ALL".to_string()];
    let (records, _, _) = build_chart_records(&doc, &wildcard, &cycle);
    assert_eq!(records.len(), 4);

    let none = vec!["TX".to_string()];
    let (records, chart_count, airport_count) = build_chart_records(&doc, &none, &cycle);
    assert!(records.is_empty());
    assert_eq!(chart_count, 0);
    assert_eq!(airport_count, 0);
}

#[test]
fn unusable_airports_contribute_nothing() {
    let doc = DigitalTpp {
        state_codes: vec![State {
            id: "CA".to_string(),
            city_names: vec![City {
                id: "X".to_string(),
                airports: vec![
                    airport("1", None, Some(vec![chart("DP", "A", "a.PDF")])),
                    airport("2", Some("AAA"), None),
                    airport("3", Some("BBB"), Some(vec![])),
                ],
            }],
        }],
    };
    let cycle = get_cycle_for("2023-12-28").unwrap();
    let states = vec!["ALL".to_string()];
    let (records, chart_count, airport_count) = build_chart_records(&doc, &states, &cycle);
    assert!(records.is_empty());
    assert_eq!(chart_count, 0);
    // An airport with a present but empty chart list is skipped too: it is
    // not counted toward the processed totals.
    assert_eq!(airport_count, 0);
}

#[test]
fn crafted_names_do_not_collide() {
    // With dash-free facility identifiers, triples that could be confused
    // through the separator still get distinct identities.
    let doc = DigitalTpp {
        state_codes: vec![State {
            id: "CA".to_string(),
            city_names: vec![City {
                id: "X".to_string(),
                airports: vec![airport(
                    "1",
                    Some("X"),
                    Some(vec![
                        chart("DP", "OTHER-Y", "a.PDF"),
                        chart("MIN", "Y", "b.PDF"),
                    ]),
                )],
            }],
        }],
    };
    let cycle = get_cycle_for("2023-12-28").unwrap();
    let states = vec!["ALL".to_string()];
    let (records, _, _) = build_chart_records(&doc, &states, &cycle);
    assert_eq!(records[0].identity, "FAA-X-DP-OTHER-Y");
    assert_eq!(records[1].identity, "FAA-X-OTHER-Y");
    assert_ne!(records[0].identity, records[1].identity);

    let mut store = Store::new();
    store.reconcile(&records, cycle.code);
    assert_eq!(store.len(), 2);
}

#[test]
fn upsert_updates_in_place() {
    let mut store = Store::new();
    store.upsert(old_row("FAA-X-IAP-SOME", 2312));
    assert_eq!(store.len(), 1);
    let mut newer = old_row("FAA-X-IAP-SOME", 2313);
    newer.chart_url = "https://aeronav.faa.gov/d-tpp/2313/new.PDF".to_string();
    store.upsert(newer);
    assert_eq!(store.len(), 1);
    let row = store.lookup("FAA-X-IAP-SOME").unwrap();
    assert_eq!(row.cycle, 2313);
    assert_eq!(row.chart_url, "https://aeronav.faa.gov/d-tpp/2313/new.PDF");
    assert!(store.lookup("FAA-Y-IAP-OTHER").is_none());
}

#[test]
fn reconcile_is_idempotent() {
    let doc = sample_doc();
    let cycle = get_cycle_for("2023-12-28").unwrap();
    let states = vec!["ALL".to_string()];
    let (records, _, _) = build_chart_records(&doc, &states, &cycle);

    let mut store = Store::new();
    store.reconcile(&records, cycle.code);
    assert_eq!(store.len(), 4);
    let url_once = store
        .lookup("FAA-SFO-STAR-SERFR FOUR")
        .unwrap()
        .chart_url
        .clone();

    store.reconcile(&records, cycle.code);
    assert_eq!(store.len(), 4);
    let url_twice = store
        .lookup("FAA-SFO-STAR-SERFR FOUR")
        .unwrap()
        .chart_url
        .clone();
    assert_eq!(url_once, url_twice);
    assert!(store.lookup("FAA-SFO-IAP-ILS OR LOC RWY 28L").is_some());
    assert!(store.lookup("FAA-RNO-DP-MUSTANG NINE").is_some());
}

#[test]
fn generation_sweep_removes_stale_rows() {
    let doc = sample_doc();
    let cycle = get_cycle_for("2023-12-28").unwrap();
    let states = vec!["ALL".to_string()];
    let (records, _, _) = build_chart_records(&doc, &states, &cycle);

    let mut store = Store::new();
    store.upsert(old_row("FAA-OLD-IAP-GONE", 2312));
    store.upsert(old_row("FAA-OLD-DP-ALSO GONE", 2311));
    assert_eq!(store.len(), 2);

    store.reconcile(&records, cycle.code);
    assert_eq!(store.len(), 4);
    assert!(store.lookup("FAA-OLD-IAP-GONE").is_none());
    assert!(store.lookup("FAA-OLD-DP-ALSO GONE").is_none());
    assert!(store.lookup("FAA-SFO-IAP-ILS OR LOC RWY 28L").is_some());
}

#[test]
fn failed_run_without_sweep_retains_unprocessed_rows() {
    let doc = sample_doc();
    let cycle = get_cycle_for("2023-12-28").unwrap();
    let states = vec!["ALL".to_string()];
    let (records, _, _) = build_chart_records(&doc, &states, &cycle);

    let mut store = Store::new();
    store.upsert(old_row("FAA-OLD-IAP-GONE", 2312));

    // A run that fails after the first two upserts never sweeps: the stale
    // row survives untouched.
    store.upsert(records[0].clone_record());
    store.upsert(records[1].clone_record());
    assert_eq!(store.len(), 3);
    let old = store.lookup("FAA-OLD-IAP-GONE").unwrap();
    assert_eq!(old.cycle, 2312);
    assert_eq!(old.chart_name, "OLD CHART");
}
