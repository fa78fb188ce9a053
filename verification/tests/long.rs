use facto_exporter::collect::long::{run_long, LongError};
use facto_exporter::collect::Data;
use facto_exporter::{CraftingLite, Observation};

fn obs(time: i64, records: &[(u32, u32, u32)]) -> Observation {
    Observation {
        time,
        inner: records
            .iter()
            .map(|&(unit_number, products_complete, status)| CraftingLite {
                unit_number,
                products_complete,
                status,
            })
            .collect(),
    }
}

#[test]
fn long_two_chunks() {
    let data = Data {
        inner: vec![
            obs(0, &[(1, 10, 1)]),
            obs(1, &[(1, 11, 1)]),
            obs(2, &[(1, 12, 1)]),
            obs(3, &[(1, 14, 2)]),
            obs(4, &[(1, 15, 1)]),
            obs(5, &[(1, 19, 1)]),
        ],
    };
    let (summary, cells) = run_long(&data, &vec![1], 2, 0, 10).expect("window cuts");
    assert_eq!(summary.len(), 2);
    assert_eq!(summary[0].observations, 3);
    assert_eq!(summary[1].observations, 3);
    assert_eq!(
        summary[0].dates,
        vec!["1970-01-01T00:00:00Z", "1970-01-01T00:00:02Z"]
    );
    assert_eq!(
        summary[1].dates,
        vec!["1970-01-01T00:00:03Z", "1970-01-01T00:00:05Z"]
    );
    assert_eq!(cells.len(), 2);
    assert_eq!(cells[0].len(), 1);
    // chunk 0: statuses 1,1,1; no previous chunk, so no delta
    assert_eq!(cells[0][0].statuses[1], 3);
    assert_eq!(cells[0][0].statuses[2], 0);
    assert_eq!(cells[0][0].products, 0);
    // chunk 1: statuses 2,1,1; delta = 19 - 12
    assert_eq!(cells[1][0].statuses[1], 2);
    assert_eq!(cells[1][0].statuses[2], 1);
    assert_eq!(cells[1][0].products, 7);
}

#[test]
fn long_dedups_equal_seconds() {
    let data = Data {
        inner: vec![
            obs(0, &[(1, 1, 1)]),
            obs(0, &[(1, 2, 1)]),
            obs(1, &[(1, 3, 1)]),
            obs(2, &[(1, 4, 1)]),
            obs(3, &[(1, 5, 1)]),
        ],
    };
    // four distinct seconds, two chunks of two
    let (summary, _cells) = run_long(&data, &vec![1], 2, 0, 10).expect("window cuts");
    assert_eq!(summary.len(), 2);
    assert_eq!(summary[0].observations, 2);
    assert_eq!(summary[1].observations, 2);
}

#[test]
fn long_rejects_zero_steps() {
    let data = Data {
        inner: vec![obs(0, &[]), obs(1, &[])],
    };
    assert_eq!(run_long(&data, &vec![1], 0, 0, 10), Err(LongError::ZeroSteps));
}

#[test]
fn long_rejects_empty_window() {
    let data = Data {
        inner: vec![obs(0, &[]), obs(1, &[])],
    };
    assert_eq!(
        run_long(&data, &vec![1], 2, 100, 200),
        Err(LongError::StepTooSmall)
    );
}

#[test]
fn long_rejects_single_chunk() {
    let data = Data {
        inner: vec![obs(0, &[]), obs(1, &[])],
    };
    // two observations, two steps: step = 1, two chunks -- fine; three steps
    // on two observations: step = 0
    assert_eq!(
        run_long(&data, &vec![1], 3, 0, 10),
        Err(LongError::StepTooSmall)
    );
}

#[test]
fn long_rejects_unrenderable_dates() {
    // seconds one year before year 0 have no RFC 3339 rendering
    let t = -62_167_219_200i64 - 365 * 86_400;
    let data = Data {
        inner: vec![
            obs(t, &[(1, 1, 1)]),
            obs(t + 1, &[(1, 1, 1)]),
            obs(t + 2, &[(1, 1, 1)]),
            obs(t + 3, &[(1, 1, 1)]),
        ],
    };
    assert_eq!(
        run_long(&data, &vec![1], 2, t - 10, t + 10),
        Err(LongError::TimeFormat)
    );
}

#[test]
fn long_renders_epoch_dates() {
    // the very first renderable second formats fine
    let t = -62_167_219_200i64;
    let data = Data {
        inner: vec![
            obs(t, &[(1, 1, 1)]),
            obs(t + 1, &[(1, 1, 1)]),
            obs(t + 2, &[(1, 2, 1)]),
            obs(t + 3, &[(1, 3, 1)]),
        ],
    };
    let (summary, _cells) = run_long(&data, &vec![1], 2, t - 10, t + 10).expect("renderable");
    assert_eq!(summary[0].dates[0], "0000-01-01T00:00:00Z");
}

#[test]
fn long_rejects_wide_status() {
    let data = Data {
        inner: vec![
            obs(0, &[(1, 1, 300)]),
            obs(1, &[(1, 1, 300)]),
            obs(2, &[(1, 1, 300)]),
            obs(3, &[(1, 1, 300)]),
        ],
    };
    assert_eq!(
        run_long(&data, &vec![1], 2, 0, 10),
        Err(LongError::StatusTooLarge)
    );
}
