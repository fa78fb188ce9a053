use facto_exporter::collect::metrics::{metrics_raw, status_name, u32_dec};
use facto_exporter::collect::Data;
use facto_exporter::{CraftingLite, Observation};

#[test]
fn metrics_raw_known_body() {
    let data = Data {
        inner: vec![Observation {
            time: 0,
            inner: vec![CraftingLite {
                unit_number: 1,
                products_complete: 42,
                status: 37,
            }],
        }],
    };
    let body = metrics_raw(&data);
    assert_eq!(
        body,
        "facto_products_complete{unit=\"1\"} 42\n# no_power\nfacto_status{unit=\"1\"} 37\n"
    );
}

#[test]
fn metrics_raw_uses_newest_observation_only() {
    let data = Data {
        inner: vec![
            Observation {
                time: 0,
                inner: vec![CraftingLite {
                    unit_number: 9,
                    products_complete: 9,
                    status: 9,
                }],
            },
            Observation {
                time: 1,
                inner: vec![CraftingLite {
                    unit_number: 3,
                    products_complete: 1,
                    status: 1,
                }],
            },
        ],
    };
    let body = metrics_raw(&data);
    assert_eq!(
        body,
        "facto_products_complete{unit=\"3\"} 1\n# working\nfacto_status{unit=\"3\"} 1\n"
    );
}

#[test]
fn metrics_raw_empty_history_is_empty() {
    let data = Data { inner: vec![] };
    assert_eq!(metrics_raw(&data), "");
}

#[test]
fn status_names_cover_known_codes() {
    assert_eq!(status_name(1), "working");
    assert_eq!(status_name(2), "normal");
    assert_eq!(status_name(37), "no_power");
    assert_eq!(status_name(12), "low_power");
    assert_eq!(status_name(36), "no_fuel");
    assert_eq!(status_name(38), "disabled_by_control_behaviour");
    assert_eq!(status_name(41), "disabled_by_script");
    assert_eq!(status_name(43), "marked_for_deconstruction");
    assert_eq!(status_name(15), "no_recipe");
    assert_eq!(status_name(20), "fluid_ingredient_shortage");
    assert_eq!(status_name(22), "full_output");
    assert_eq!(status_name(21), "item_ingredient_shortage");
    assert_eq!(status_name(0), "unknown");
    assert_eq!(status_name(999), "unknown");
}

#[test]
fn decimal_rendering() {
    assert_eq!(u32_dec(0), "0");
    assert_eq!(u32_dec(7), "7");
    assert_eq!(u32_dec(10), "10");
    assert_eq!(u32_dec(1234567890), "1234567890");
    assert_eq!(u32_dec(u32::MAX), "4294967295");
}
