//! Pure arithmetic of the per-thread debug registers: which user-area
//! offsets the four hardware breakpoint slots live at, how the control word
//! encodes which slots are enabled, and how the status word reports which
//! slot fired. The actual register reads and writes are process I/O and
//! happen outside this crate; callers hand the words in and out.

use vstd::prelude::*;

verus! {

/// User-area offset of the address register of breakpoint slot 0.
pub const DR0_OFFSET: u64 = 848;

/// User-area offset of the debug status word.
pub const DR6_OFFSET: u64 = 896;

/// User-area offset of the debug control word.
pub const DR7_OFFSET: u64 = 904;

/// Mask of the four local-enable bits of the control word: bit `2*slot`
/// per slot.
pub const DR7_LOCAL_ENABLE_MASK: u64 = 0x55;

/// User-area offset of the address register of a breakpoint slot.
pub fn debug_address_offset(slot: usize) -> (r: u64)
    requires
        slot < 4,
    ensures
        r == 848 + 8 * slot,
{
    DR0_OFFSET + 8 * (slot as u64)
}

/// Whether the control word has the local-enable bit of a slot set.
pub open spec fn spec_slot_enabled(dr7: u64, slot: int) -> bool {
    if slot == 0 {
        dr7 & 0x1u64 != 0
    } else if slot == 1 {
        dr7 & 0x4u64 != 0
    } else if slot == 2 {
        dr7 & 0x10u64 != 0
    } else {
        dr7 & 0x40u64 != 0
    }
}

/// The control word that enables exactly the requested slots: the
/// local-enable bit of each slot follows whether an address was requested
/// for it, and every other bit keeps its old value.
pub fn dr7_apply(dr7: u64, addrs: &[Option<u64>; 4]) -> (r: u64)
    ensures
        spec_slot_enabled(r, 0) == addrs[0] is Some,
        spec_slot_enabled(r, 1) == addrs[1] is Some,
        spec_slot_enabled(r, 2) == addrs[2] is Some,
        spec_slot_enabled(r, 3) == addrs[3] is Some,
        r & !DR7_LOCAL_ENABLE_MASK == dr7 & !DR7_LOCAL_ENABLE_MASK,
{
    let e0: u64 = if addrs[0].is_some() {
        0x1
    } else {
        0
    };
    let e1: u64 = if addrs[1].is_some() {
        0x4
    } else {
        0
    };
    let e2: u64 = if addrs[2].is_some() {
        0x10
    } else {
        0
    };
    let e3: u64 = if addrs[3].is_some() {
        0x40
    } else {
        0
    };
    let v = (dr7 & !DR7_LOCAL_ENABLE_MASK) | e0 | e1 | e2 | e3;
    proof {
        assert((((dr7 & !0x55u64) | e0 | e1 | e2 | e3) & 0x1u64 != 0) == (e0 == 0x1u64))
            by (bit_vector)
            requires
                e0 == 0x1u64 || e0 == 0u64,
                e1 == 0x4u64 || e1 == 0u64,
                e2 == 0x10u64 || e2 == 0u64,
                e3 == 0x40u64 || e3 == 0u64,
        ;
        assert((((dr7 & !0x55u64) | e0 | e1 | e2 | e3) & 0x4u64 != 0) == (e1 == 0x4u64))
            by (bit_vector)
            requires
                e0 == 0x1u64 || e0 == 0u64,
                e1 == 0x4u64 || e1 == 0u64,
                e2 == 0x10u64 || e2 == 0u64,
                e3 == 0x40u64 || e3 == 0u64,
        ;
        assert((((dr7 & !0x55u64) | e0 | e1 | e2 | e3) & 0x10u64 != 0) == (e2 == 0x10u64))
            by (bit_vector)
            requires
                e0 == 0x1u64 || e0 == 0u64,
                e1 == 0x4u64 || e1 == 0u64,
                e2 == 0x10u64 || e2 == 0u64,
                e3 == 0x40u64 || e3 == 0u64,
        ;
        assert((((dr7 & !0x55u64) | e0 | e1 | e2 | e3) & 0x40u64 != 0) == (e3 == 0x40u64))
            by (bit_vector)
            requires
                e0 == 0x1u64 || e0 == 0u64,
                e1 == 0x4u64 || e1 == 0u64,
                e2 == 0x10u64 || e2 == 0u64,
                e3 == 0x40u64 || e3 == 0u64,
        ;
        assert((((dr7 & !0x55u64) | e0 | e1 | e2 | e3) & !0x55u64) == dr7 & !0x55u64)
            by (bit_vector)
            requires
                e0 == 0x1u64 || e0 == 0u64,
                e1 == 0x4u64 || e1 == 0u64,
                e2 == 0x10u64 || e2 == 0u64,
                e3 == 0x40u64 || e3 == 0u64,
        ;
    }
    v
}

/// The control word with every breakpoint slot disabled and every other
/// bit kept: what cleanup writes back before detaching.
pub fn dr7_clear_all(dr7: u64) -> (r: u64)
    ensures
        !spec_slot_enabled(r, 0),
        !spec_slot_enabled(r, 1),
        !spec_slot_enabled(r, 2),
        !spec_slot_enabled(r, 3),
        r & !DR7_LOCAL_ENABLE_MASK == dr7 & !DR7_LOCAL_ENABLE_MASK,
{
    let none: [Option<u64>; 4] = [None, None, None, None];
    dr7_apply(dr7, &none)
}

/// Which slots the status word reports as fired: bit `slot` per slot.
pub fn which_breakpoints_flags(dr6: u64) -> (r: [bool; 4])
    ensures
        r[0] == (dr6 & 0x1u64 != 0),
        r[1] == (dr6 & 0x2u64 != 0),
        r[2] == (dr6 & 0x4u64 != 0),
        r[3] == (dr6 & 0x8u64 != 0),
{
    [dr6 & 0x1 != 0, dr6 & 0x2 != 0, dr6 & 0x4 != 0, dr6 & 0x8 != 0]
}

/// Whether the word read at the instruction pointer starts with the
/// software-trap opcode: how the tracer recognises that the shell reached
/// its exit trap.
pub fn is_software_trap(word: u64) -> (r: bool)
    ensures
        r == (word & 0xff == 0xcc),
{
    word & 0xff == 0xcc
}

/// The first address past `words` 64-bit words at `addr`, or nothing when
/// that arithmetic would overflow: the check every remote word access runs
/// before touching the tracee.
pub fn words_end(addr: u64, words: usize) -> (r: Option<u64>)
    ensures
        r matches Some(e) ==> e == addr + 8 * words,
        r is None <==> addr + 8 * words > u64::MAX,
{
    let e: u128 = (addr as u128) + 8 * (words as u128);
    if e > u64::MAX as u128 {
        None
    } else {
        Some(e as u64)
    }
}

} // verus!
