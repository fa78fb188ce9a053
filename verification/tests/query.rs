use facto_exporter::collect::query::{run_query, QueryError, QueryQuery};
use facto_exporter::collect::units::split_units;
use facto_exporter::collect::Data;
use facto_exporter::{CraftingLite, Observation};

fn obs(time: i64, records: &[(u32, u32, u32)]) -> Observation {
    Observation {
        time,
        inner: records
            .iter()
            .map(|&(unit_number, products_complete, status)| CraftingLite {
                unit_number,
                products_complete,
                status,
            })
            .collect(),
    }
}

#[test]
fn query_tail_deltas() {
    // five observations one second apart; unit 7's products are 10, 11, 13
    // in the last three
    let t = 1_000_000i64;
    let data = Data {
        inner: vec![
            obs(t - 4, &[(7, 8, 1)]),
            obs(t - 3, &[(7, 9, 1)]),
            obs(t - 2, &[(7, 10, 1)]),
            obs(t - 1, &[(7, 11, 1)]),
            obs(t, &[(7, 13, 1)]),
        ],
    };
    let resp = run_query(&data, vec![7], 3, 1, t).expect("data present");
    assert_eq!(resp.units, vec![7]);
    assert_eq!(resp.times, vec![t - 2, t - 1, t]);
    assert_eq!(resp.statuses, vec![vec![Some(1), Some(1), Some(1)]]);
    assert_eq!(resp.deltas, vec![vec![Some(1), Some(2)]]);
}

#[test]
fn query_missing_unit_gives_nulls() {
    let t = 500i64;
    let data = Data {
        inner: vec![obs(t - 1, &[(1, 5, 2)]), obs(t, &[(2, 6, 2)])],
    };
    let resp = run_query(&data, vec![1, 3], 2, 1, t).expect("data present");
    assert_eq!(resp.statuses, vec![vec![Some(2), None], vec![None, None]]);
    assert_eq!(resp.deltas, vec![vec![None], vec![None]]);
}

#[test]
fn query_clamps_past_end_to_newest() {
    let data = Data {
        inner: vec![obs(10, &[(1, 1, 1)]), obs(20, &[(1, 2, 1)])],
    };
    // end far beyond the newest observation: every slot clamps to it
    let resp = run_query(&data, vec![1], 2, 5, 1000).expect("data present");
    assert_eq!(resp.times, vec![20, 20]);
    assert_eq!(resp.statuses, vec![vec![Some(1), Some(1)]]);
    assert_eq!(resp.deltas, vec![vec![Some(0)]]);
}

#[test]
fn query_times_non_decreasing_and_present() {
    let data = Data {
        inner: vec![
            obs(30, &[(1, 3, 1)]),
            obs(10, &[(1, 1, 1)]),
            obs(20, &[(1, 2, 1)]),
        ],
    };
    let resp = run_query(&data, vec![1], 5, 7, 31).expect("data present");
    assert_eq!(resp.times.len(), 5);
    for w in resp.times.windows(2) {
        assert!(w[0] <= w[1]);
    }
    for t in &resp.times {
        assert!([10i64, 20, 30].contains(t));
    }
}

#[test]
fn query_empty_history_fails() {
    let data = Data { inner: vec![] };
    assert_eq!(run_query(&data, vec![1], 3, 1, 0), Err(QueryError::NoData));
}

#[test]
fn query_defaults_resolve() {
    let q = QueryQuery {
        steps: None,
        gap: Some(5),
        end: None,
        units: String::from("1"),
    };
    assert_eq!(q.resolve(42), (30, 5, 42));
}

#[test]
fn split_units_parses_sorts_dedups() {
    assert_eq!(split_units("1,2,3"), Some(vec![1, 2, 3]));
    assert_eq!(split_units("3,1,2,2"), Some(vec![1, 2, 3]));
    assert_eq!(split_units("+5"), Some(vec![5]));
    assert_eq!(split_units("4294967295"), Some(vec![u32::MAX]));
}

#[test]
fn split_units_rejects_bad_tokens() {
    assert_eq!(split_units(""), None);
    assert_eq!(split_units("x"), None);
    assert_eq!(split_units("1,,2"), None);
    assert_eq!(split_units("1,-2"), None);
    assert_eq!(split_units("4294967296"), None);
    assert_eq!(split_units("1,2,"), None);
}
