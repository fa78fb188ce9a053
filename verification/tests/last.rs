use facto_exporter::collect::last::{bulk_status, status_of, LastError, UnitData};
use facto_exporter::collect::Data;
use facto_exporter::{CraftingLite, Observation};

fn obs(time: i64, records: &[(u32, u32, u32)]) -> Observation {
    Observation {
        time,
        inner: records
            .iter()
            .map(|&(unit_number, products_complete, status)| CraftingLite {
                unit_number,
                products_complete,
                status,
            })
            .collect(),
    }
}

#[test]
fn last_status_change_picks_newest_transition() {
    // unit 9's statuses, newest to oldest: 2, 2, 5, 5
    let data = Data {
        inner: vec![
            obs(100, &[(9, 1, 5)]),
            obs(101, &[(9, 1, 5)]),
            obs(102, &[(9, 1, 2)]),
            obs(103, &[(9, 1, 2)]),
        ],
    };
    let ud = status_of(&data, 9);
    assert_eq!(ud.last_status, Some(2));
    assert_eq!(ud.previous_status, Some(5));
    // the scan records the newest observation whose status differs from the
    // record just newer than it: the newest 5
    assert_eq!(ud.last_status_change, Some(101));
    // production never changed
    assert_eq!(ud.produced_change, None);
}

#[test]
fn produced_change_is_newest_differing_observation() {
    // products newest to oldest: 7, 7, 6, 3
    let data = Data {
        inner: vec![
            obs(10, &[(4, 3, 1)]),
            obs(11, &[(4, 6, 1)]),
            obs(12, &[(4, 7, 1)]),
            obs(13, &[(4, 7, 1)]),
        ],
    };
    let ud = status_of(&data, 4);
    assert_eq!(ud.produced_change, Some(11));
    assert_eq!(ud.last_status, Some(1));
    assert_eq!(ud.last_status_change, None);
    assert_eq!(ud.previous_status, None);
}

#[test]
fn unit_absent_everywhere_gives_defaults() {
    let data = Data {
        inner: vec![obs(1, &[(2, 2, 2)])],
    };
    let ud = status_of(&data, 9);
    assert_eq!(ud, UnitData::default());
}

#[test]
fn observations_missing_the_unit_are_skipped() {
    let data = Data {
        inner: vec![
            obs(1, &[(4, 1, 1)]),
            obs(2, &[(5, 9, 9)]),
            obs(3, &[(4, 2, 1)]),
        ],
    };
    let ud = status_of(&data, 4);
    assert_eq!(ud.last_status, Some(1));
    assert_eq!(ud.produced_change, Some(1));
}

#[test]
fn bulk_status_lists_latest_units() {
    let data = Data {
        inner: vec![
            obs(1, &[(1, 5, 2), (2, 6, 2)]),
            obs(2, &[(1, 7, 3), (3, 1, 1)]),
        ],
    };
    let rows = bulk_status(&data).expect("data present");
    assert_eq!(rows.len(), 2);
    assert_eq!(rows[0].0, 1);
    assert_eq!(rows[0].1.last_status, Some(3));
    assert_eq!(rows[0].1.previous_status, Some(2));
    assert_eq!(rows[0].1.last_status_change, Some(1));
    assert_eq!(rows[0].1.produced_change, Some(1));
    assert_eq!(rows[1].0, 3);
    assert_eq!(rows[1].1.last_status, Some(1));
}

#[test]
fn bulk_status_empty_history_fails() {
    let data = Data { inner: vec![] };
    assert_eq!(bulk_status(&data).unwrap_err(), LastError::NoData);
}
