//! Decisions of the extraction loop. The loop itself alternates tracing
//! syscalls with these functions: the caller reports each stop (which
//! breakpoint fired, what the first-argument register held), and this module
//! keeps the cached set root and tick count, says when to harvest, lays out
//! the registers for entering the shell, and turns the shell's raw output
//! into a sorted observation.

use vstd::prelude::*;

verus! {

use crate::codec::{
    decode_records, sort_records, sorted_by_unit, spec_records_from, CraftingLite, Observation,
};

/// The tracee addresses the extractor resolves once at startup.
pub struct Symbols {
    /// Where the shell was written (the target's entry point, reused as
    /// scratch).
    pub shell: u64,
    /// A statically linked allocator the shell may call.
    pub malloc: u64,
    /// Its matching deallocator.
    pub free: u64,
    /// The member function that reports a machine's status.
    pub crafting_status: u64,
}

/// What the extraction loop remembers between stops.
pub struct BodyState {
    /// The set root last reported by the insertion breakpoint; zero until
    /// one fires.
    pub set_base: u64,
    /// The set size read beside the root.
    pub set_size: u64,
    /// How many stops have been seen.
    pub hits: u64,
}

/// Stops between harvests: one harvest every seven in-game seconds at
/// sixty updates per second.
pub const HARVEST_INTERVAL: u64 = 60 * 7;

/// Byte offset of the size field inside the target's set structure.
pub const SET_SIZE_OFFSET: u64 = 40;

/// Where the set's size field lives, if that address exists.
pub fn set_size_addr(set_base: u64) -> (r: Option<u64>)
    ensures
        r matches Some(a) ==> a == set_base + SET_SIZE_OFFSET,
        r is None <==> set_base + SET_SIZE_OFFSET > u64::MAX,
{
    if set_base > u64::MAX - SET_SIZE_OFFSET {
        None
    } else {
        Some(set_base + SET_SIZE_OFFSET)
    }
}

/// Record what the insertion breakpoint reported: the first-argument
/// register holds the new set root, and the size was re-read beside it.
pub fn note_insert(state: &mut BodyState, first_arg: u64, set_size: u64)
    ensures
        final(state).set_base == first_arg,
        final(state).set_size == set_size,
        final(state).hits == old(state).hits,
{
    state.set_base = first_arg;
    state.set_size = set_size;
}

/// Count one stop and say whether this stop harvests: every
/// `HARVEST_INTERVAL`th stop, and only once a set root is known.
pub fn tick(state: &mut BodyState) -> (r: bool)
    ensures
        final(state).hits == (if old(state).hits == u64::MAX {
            0u64
        } else {
            (old(state).hits + 1) as u64
        }),
        final(state).set_base == old(state).set_base,
        final(state).set_size == old(state).set_size,
        r == (final(state).hits % HARVEST_INTERVAL == 0 && final(state).set_base != 0),
{
    state.hits = if state.hits == u64::MAX {
        0
    } else {
        state.hits + 1
    };
    state.hits % HARVEST_INTERVAL == 0 && state.set_base != 0
}

/// The register file the tracer writes to enter the shell: instruction
/// pointer at the shell, the shared region (here: the set root) in the
/// first-argument register, and the helper addresses in the next three
/// argument registers.
pub struct ShellEntry {
    pub rip: u64,
    pub rdi: u64,
    pub rsi: u64,
    pub rdx: u64,
    pub rcx: u64,
}

/// Lay out the registers for entering the shell.
pub fn shell_entry(symbols: &Symbols, set_base: u64) -> (r: ShellEntry)
    ensures
        r.rip == symbols.shell,
        r.rdi == set_base,
        r.rsi == symbols.malloc,
        r.rdx == symbols.free,
        r.rcx == symbols.crafting_status,
{
    ShellEntry {
        rip: symbols.shell,
        rdi: set_base,
        rsi: symbols.malloc,
        rdx: symbols.free,
        rcx: symbols.crafting_status,
    }
}

/// How many bytes to read back for a validated record count.
pub fn harvest_read_len(count: u64) -> (r: usize)
    requires
        count < 1024 * 1024,
    ensures
        r == 12 * count,
{
    (count as usize) * 12
}

/// Decode a harvested byte buffer into an observation: one 12-byte record
/// per full chunk, sorted ascending by unit number. The result holds
/// exactly the decoded records; when the tracee's set gave every record its
/// own unit number, the order is strictly ascending.
pub fn decode_observation(buf: &[u8], time: i64) -> (r: Observation)
    ensures
        r.time == time,
        r.inner@.to_multiset() == spec_records_from(buf@, 0, buf@.len() as int / 12).to_multiset(),
        r.inner@.len() == buf@.len() as int / 12,
        sorted_by_unit(r.inner@),
        crate::codec::unique_units(spec_records_from(buf@, 0, buf@.len() as int / 12))
            ==> forall|i: int, j: int|
            0 <= i < j < r.inner@.len() ==> r.inner@[i].unit_number < r.inner@[j].unit_number,
{
    let mut inner = decode_records(buf);
    let ghost decoded = inner@;
    sort_records(&mut inner);
    proof {
        if crate::codec::unique_units(decoded) {
            crate::codec::lemma_unique_units_preserved(decoded, inner@);
            crate::codec::lemma_sorted_unique_strict(inner@);
        }
    }
    Observation { time, inner }
}

/// One step of the in-tracer set walk: a tree node's words are `color,
/// parent, left, right, data`; nonzero children are pushed for the search
/// and a nonzero data pointer is recorded.
pub fn walk_step(left: u64, right: u64, data: u64, stack: &mut Vec<u64>, out: &mut Vec<u64>)
    ensures
        final(stack)@ == old(stack)@ + (if left != 0 {
            seq![left]
        } else {
            Seq::empty()
        }) + (if right != 0 {
            seq![right]
        } else {
            Seq::empty()
        }),
        final(out)@ == old(out)@ + (if data != 0 {
            seq![data]
        } else {
            Seq::empty()
        }),
{
    if left != 0 {
        stack.push(left);
    }
    if right != 0 {
        stack.push(right);
    }
    if data != 0 {
        out.push(data);
    }
    proof {
        assert(stack@ =~= old(stack)@ + (if left != 0 {
            seq![left]
        } else {
            Seq::empty()
        }) + (if right != 0 {
            seq![right]
        } else {
            Seq::empty()
        }));
        assert(out@ =~= old(out)@ + (if data != 0 {
            seq![data]
        } else {
            Seq::empty()
        }));
    }
}

} // verus!
