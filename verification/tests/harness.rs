use facto_exporter::debug::fake::place;
use facto_exporter::debug::inject::{
    craftings_from_words, entry_in_addr, shared_region_image, shell_addresses, shell_code,
    validate_shell_output, CraftingLite, ShellError, SHELL_CAPACITY,
};
use facto_exporter::debug::pad_to_word;
use facto_exporter::extract::{
    decode_observation, harvest_read_len, note_insert, set_size_addr, shell_entry, tick,
    walk_step, BodyState, Symbols,
};

#[test]
fn test_place() {
    let mut heap = Vec::new();
    let vals = [1, 2, 3, 4, 5, 6, 7];
    let root = place(&mut heap, &vals);

    for i in 0..heap.len() {
        println!("{i}: {:?}", heap[i]);
    }

    // the layout here is arbitrary
    assert_eq!(root, Some(6));
    assert_eq!(heap.len(), 7);

    assert_eq!(heap[0], (None, None, 1));
    assert_eq!(heap[1], (None, None, 3));
    assert_eq!(heap[2], (Some(0), Some(1), 2));
    assert_eq!(heap[3], (None, None, 5));
    assert_eq!(heap[4], (None, None, 7));
    assert_eq!(heap[5], (Some(3), Some(4), 6));
    assert_eq!(heap[6], (Some(2), Some(5), 4));
}

#[test]
fn pad_to_word_pads_remainder() {
    assert_eq!(pad_to_word(&[1, 0, 0, 0, 0, 0, 0, 0], 0x90), vec![1]);
    assert_eq!(
        pad_to_word(&[1, 2, 3], 0x90),
        vec![u64::from_le_bytes([1, 2, 3, 0x90, 0x90, 0x90, 0x90, 0x90])]
    );
    assert_eq!(pad_to_word(&[], 0xcc), Vec::<u64>::new());
    assert_eq!(
        pad_to_word(&[0xaa; 9], 0x00),
        vec![
            u64::from_le_bytes([0xaa; 8]),
            u64::from_le_bytes([0xaa, 0, 0, 0, 0, 0, 0, 0])
        ]
    );
}

#[test]
fn entry_in_addr_finds_entry_line() {
    assert_eq!(entry_in_addr("0 entry\n"), Ok(0));
    assert_eq!(
        entry_in_addr("10 something\nabc entry\nff other\n"),
        Ok(0xabc)
    );
    assert_eq!(entry_in_addr("1F0 entry"), Ok(0x1f0));
    assert_eq!(entry_in_addr("  8 entry\r\nrest"), Ok(8));
}

#[test]
fn entry_in_addr_rejects_bad_listings() {
    assert_eq!(
        entry_in_addr("10 something\n20 other\n"),
        Err(ShellError::EntryNotFound)
    );
    assert_eq!(entry_in_addr(""), Err(ShellError::EntryNotFound));
    assert_eq!(entry_in_addr("zz entry\n"), Err(ShellError::BadNumber));
    assert_eq!(
        entry_in_addr("10000000000000000 entry\n"),
        Err(ShellError::BadNumber)
    );
}

#[test]
fn shell_code_concatenates_blobs() {
    let call_end = vec![0x11];
    let main_code = vec![0x22, 0x33];
    let mock = vec![0x44];
    let (mem, mock_off) = shell_code(&call_end, &main_code, &mock).expect("blob sizes");
    assert_eq!(mem, vec![0x11, 0x22, 0x33, 0x44]);
    assert_eq!(mock_off, 3);
    assert_eq!(
        shell_code(&vec![0x11, 0x12], &main_code, &mock),
        Err(ShellError::BlobSize)
    );
}

#[test]
fn shared_region_layout() {
    let img = shared_region_image(0x5000);
    assert_eq!(img, vec![0, 0x5000, SHELL_CAPACITY, 0]);
    assert_eq!(SHELL_CAPACITY, 60 * 1024 * 1024 / 16);
}

#[test]
fn shell_address_arithmetic() {
    assert_eq!(shell_addresses(0x1000, 4, 3), Some((0x1018, 0x1020)));
    assert_eq!(shell_addresses(u64::MAX - 8, 4, 0), None);
}

#[test]
fn craftings_decode_from_words() {
    // {unit 0x100, products 0x1000, status mock}, little-endian halves
    let mock = 0xf00dd00du32;
    let words = vec![
        0x100u64 | (0x1000u64 << 32),
        (mock as u64) | (7u64 << 32),
    ];
    let recs = craftings_from_words(&words, 1).expect("enough words");
    assert_eq!(
        recs,
        vec![CraftingLite {
            unit: 0x100,
            products: 0x1000,
            status: mock,
            _reserved: 7,
        }]
    );
    assert_eq!(
        craftings_from_words(&words, 2),
        Err(ShellError::ShortRead)
    );
}

#[test]
fn shell_output_validation() {
    assert!(validate_shell_output(0x7f0000000000, 4));
    // an address that small is a debug status code, not a buffer
    assert!(!validate_shell_output(900, 4));
    // an implausibly large count is refused
    assert!(!validate_shell_output(0x7f0000000000, 1024 * 1024));
    assert!(validate_shell_output(0x7f0000000000, 0));
}

#[test]
fn harvest_decodes_and_sorts() {
    // three 12-byte records, deliberately out of order by unit
    let mut buf = Vec::new();
    for (unit, products, status) in [(0x102u32, 0x1002u32, 7u32), (0x100, 0x1000, 7), (0x101, 0x1001, 7)] {
        buf.extend_from_slice(&unit.to_le_bytes());
        buf.extend_from_slice(&products.to_le_bytes());
        buf.extend_from_slice(&status.to_le_bytes());
    }
    let obs = decode_observation(&buf, 777);
    assert_eq!(obs.time, 777);
    let units: Vec<u32> = obs.inner.iter().map(|r| r.unit_number).collect();
    assert_eq!(units, vec![0x100, 0x101, 0x102]);
    assert_eq!(obs.inner[0].products_complete, 0x1000);
    assert_eq!(harvest_read_len(3), 36);
}

#[test]
fn tick_harvests_every_interval() {
    let mut st = BodyState {
        set_base: 0,
        set_size: 0,
        hits: 0,
    };
    // without a set root nothing harvests
    for _ in 0..1000 {
        assert!(!tick(&mut st));
    }
    note_insert(&mut st, 0xbeef, 12);
    assert_eq!(st.set_base, 0xbeef);
    assert_eq!(st.set_size, 12);
    st.hits = 0;
    let mut harvests = 0;
    for _ in 0..840 {
        if tick(&mut st) {
            harvests += 1;
        }
    }
    assert_eq!(harvests, 2);
}

#[test]
fn shell_entry_registers() {
    let sym = Symbols {
        shell: 1,
        malloc: 2,
        free: 3,
        crafting_status: 4,
    };
    let e = shell_entry(&sym, 0x99);
    assert_eq!((e.rip, e.rdi, e.rsi, e.rdx, e.rcx), (1, 0x99, 2, 3, 4));
}

#[test]
fn set_size_address() {
    assert_eq!(set_size_addr(100), Some(140));
    assert_eq!(set_size_addr(u64::MAX - 39), None);
}

#[test]
fn walk_step_pushes_children_and_data() {
    let mut stack = vec![9];
    let mut out = vec![];
    walk_step(5, 0, 77, &mut stack, &mut out);
    assert_eq!(stack, vec![9, 5]);
    assert_eq!(out, vec![77]);
    walk_step(0, 0, 0, &mut stack, &mut out);
    assert_eq!(stack, vec![9, 5]);
    assert_eq!(out, vec![77]);
}
