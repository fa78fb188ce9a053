use facto_exporter::{pack_observation, unpack_observation, CodecError, CraftingLite, Observation};

fn rec(unit: u32, products: u32, status: u32) -> CraftingLite {
    CraftingLite {
        unit_number: unit,
        products_complete: products,
        status,
    }
}

#[test]
fn pack_known_bytes() {
    let obs = Observation {
        time: 1_700_000_000,
        inner: vec![rec(1, 10, 1), rec(2, 20, 2)],
    };
    let packed = pack_observation(&obs).expect("count fits");
    let expected: Vec<u8> = vec![
        0x02, 0x00, 0x00, 0x00, 0x00, 0x00, 0x00, 0x00, // record count
        0x00, 0xf1, 0x53, 0x65, 0x00, 0x00, 0x00, 0x00, // unix seconds
        0x01, 0x00, 0x00, 0x00, 0x0a, 0x00, 0x00, 0x00, 0x01, 0x00, 0x00, 0x00, // {1,10,1}
        0x02, 0x00, 0x00, 0x00, 0x14, 0x00, 0x00, 0x00, 0x02, 0x00, 0x00, 0x00, // {2,20,2}
    ];
    assert_eq!(packed, expected);
}

#[test]
fn pack_is_deterministic() {
    let a = pack_observation(&Observation {
        time: 55,
        inner: vec![rec(7, 8, 9)],
    })
    .unwrap();
    let b = pack_observation(&Observation {
        time: 55,
        inner: vec![rec(7, 8, 9)],
    })
    .unwrap();
    assert_eq!(a, b);
}

#[test]
fn roundtrip_preserves_observation() {
    let obs = Observation {
        time: -123_456_789,
        inner: vec![rec(3, 0, 41), rec(1, u32::MAX, 0), rec(9, 5, 37)],
    };
    let packed = pack_observation(&obs).unwrap();
    let back = unpack_observation(&packed).expect("roundtrip");
    assert_eq!(back.time, obs.time);
    assert_eq!(back.inner, obs.inner);
}

#[test]
fn roundtrip_empty_observation() {
    let obs = Observation {
        time: 0,
        inner: vec![],
    };
    let packed = pack_observation(&obs).unwrap();
    assert_eq!(packed.len(), 16);
    let back = unpack_observation(&packed).unwrap();
    assert_eq!(back.time, 0);
    assert!(back.inner.is_empty());
}

#[test]
fn unpack_rejects_short_buffer() {
    assert_eq!(
        unpack_observation(&[0u8; 15]).unwrap_err(),
        CodecError::LengthMismatch
    );
}

#[test]
fn unpack_rejects_huge_count() {
    let mut buf = vec![0u8; 16];
    // count = 2^32
    buf[4] = 1;
    assert_eq!(
        unpack_observation(&buf).unwrap_err(),
        CodecError::CountTooLarge
    );
}

#[test]
fn unpack_rejects_length_mismatch() {
    let mut buf = vec![0u8; 16 + 11];
    buf[0] = 1; // one record declared, 11 bytes of body
    assert_eq!(
        unpack_observation(&buf).unwrap_err(),
        CodecError::LengthMismatch
    );
    let mut long = vec![0u8; 16 + 13];
    long[0] = 1;
    assert_eq!(
        unpack_observation(&long).unwrap_err(),
        CodecError::LengthMismatch
    );
}
