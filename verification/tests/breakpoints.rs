use facto_exporter::debug::ptrace::{
    debug_address_offset, dr7_apply, dr7_clear_all, which_breakpoints_flags, words_end,
    DR6_OFFSET, DR7_OFFSET,
};

fn enabled(dr7: u64) -> [bool; 4] {
    [
        dr7 & 0x1 != 0,
        dr7 & 0x4 != 0,
        dr7 & 0x10 != 0,
        dr7 & 0x40 != 0,
    ]
}

#[test]
fn breakpoint_lifecycle_bits() {
    // set slots {0: A, 2: B}, then read the enable bits
    let dr7 = dr7_apply(0, &[Some(0x1000), None, Some(0x2000), None]);
    assert_eq!(enabled(dr7), [true, false, true, false]);
    // clear all, read again
    let cleared = dr7_clear_all(dr7);
    assert_eq!(enabled(cleared), [false, false, false, false]);
}

#[test]
fn dr7_apply_preserves_other_bits() {
    // a control word with unrelated bits set keeps them across enable and
    // clear
    let dr7 = dr7_apply(0xdead00, &[None, Some(0x42), None, None]);
    assert_eq!(enabled(dr7), [false, true, false, false]);
    assert_eq!(dr7 & !0x55, 0xdead00 & !0x55);
    let cleared = dr7_clear_all(dr7);
    assert_eq!(cleared & !0x55, 0xdead00 & !0x55);
}

#[test]
fn status_word_flags() {
    assert_eq!(
        which_breakpoints_flags(0b0101),
        [true, false, true, false]
    );
    assert_eq!(
        which_breakpoints_flags(0b1010),
        [false, true, false, true]
    );
    assert_eq!(which_breakpoints_flags(0), [false, false, false, false]);
}

#[test]
fn register_offsets() {
    assert_eq!(debug_address_offset(0), 848);
    assert_eq!(debug_address_offset(1), 856);
    assert_eq!(debug_address_offset(2), 864);
    assert_eq!(debug_address_offset(3), 872);
    assert_eq!(DR6_OFFSET, 896);
    assert_eq!(DR7_OFFSET, 904);
}

#[test]
fn word_span_overflow_checked() {
    assert_eq!(words_end(0, 4), Some(32));
    assert_eq!(words_end(u64::MAX - 32, 4), Some(u64::MAX));
    assert_eq!(words_end(u64::MAX - 31, 4), None);
}
