//! Canonical crafting records and the binary framing used for archive items
//! and the collector's ingest endpoint.
//!
//! One observation is framed as: record count as a little-endian `u64`, the
//! wall-clock time as little-endian `i64` unix seconds, then one 12-byte body
//! per record holding `unit_number`, `products_complete` and `status` as
//! little-endian `u32` fields.

use vstd::prelude::*;

verus! {

use vstd::bytes::{
    spec_u32_to_le_bytes, spec_u32_from_le_bytes, spec_u64_to_le_bytes, spec_u64_from_le_bytes,
    u32_to_le_bytes, u32_from_le_bytes, u64_to_le_bytes, u64_from_le_bytes,
    lemma_auto_spec_u32_to_from_le_bytes, lemma_auto_spec_u64_to_from_le_bytes,
};
use vstd::slice::slice_subrange;

/// One unit's counters at a single instant.
#[derive(Clone, Copy, Debug, PartialEq, Eq, Structural)]
pub struct CraftingLite {
    pub unit_number: u32,
    pub products_complete: u32,
    pub status: u32,
}

/// A timestamped snapshot of every unit's record, as harvested from the
/// target in one stop.
#[derive(Debug)]
pub struct Observation {
    /// Unix seconds, UTC.
    pub time: i64,
    pub inner: Vec<CraftingLite>,
}

/// Why a byte buffer was rejected as an observation.
#[derive(Clone, Copy, Debug, PartialEq, Eq, Structural)]
pub enum CodecError {
    /// The declared record count does not fit in 32 bits.
    CountTooLarge,
    /// The buffer is not exactly as long as its header declares.
    LengthMismatch,
}

/// Number of bytes of one packed record body.
pub const RECORD_BYTES: usize = 12;

pub open spec fn spec_record_bytes(r: CraftingLite) -> Seq<u8> {
    spec_u32_to_le_bytes(r.unit_number) + spec_u32_to_le_bytes(r.products_complete)
        + spec_u32_to_le_bytes(r.status)
}

pub open spec fn spec_records_bytes(rs: Seq<CraftingLite>) -> Seq<u8>
    decreases rs.len(),
{
    if rs.len() == 0 {
        Seq::empty()
    } else {
        spec_records_bytes(rs.drop_last()) + spec_record_bytes(rs.last())
    }
}

/// The packed framing of one observation.
pub open spec fn spec_pack_observation(time: i64, rs: Seq<CraftingLite>) -> Seq<u8> {
    spec_u64_to_le_bytes(rs.len() as u64) + spec_u64_to_le_bytes(time as u64)
        + spec_records_bytes(rs)
}

/// The record decoded from one 12-byte body.
pub open spec fn spec_record_from(b: Seq<u8>) -> CraftingLite {
    CraftingLite {
        unit_number: spec_u32_from_le_bytes(b.subrange(0, 4)),
        products_complete: spec_u32_from_le_bytes(b.subrange(4, 8)),
        status: spec_u32_from_le_bytes(b.subrange(8, 12)),
    }
}

/// All records read from a buffer whose record bodies start at `start`.
pub open spec fn spec_records_from(b: Seq<u8>, start: int, n: int) -> Seq<CraftingLite> {
    Seq::new(n as nat, |k: int| spec_record_from(b.subrange(start + 12 * k, start + 12 * k + 12)))
}

/// The observation a byte buffer decodes to, if any: the buffer must hold the
/// 16-byte header, declare a count below 2^32, and be exactly as long as that
/// count requires.
pub open spec fn spec_unpack_observation(b: Seq<u8>) -> Option<(i64, Seq<CraftingLite>)> {
    if b.len() < 16 {
        None
    } else {
        let n = spec_u64_from_le_bytes(b.subrange(0, 8));
        let t = spec_u64_from_le_bytes(b.subrange(8, 16)) as i64;
        if n >= 0x1_0000_0000u64 {
            None
        } else if b.len() != 16 + 12 * (n as int) {
            None
        } else {
            Some((t, spec_records_from(b, 16, n as int)))
        }
    }
}

proof fn lemma_records_bytes_len(rs: Seq<CraftingLite>)
    ensures
        spec_records_bytes(rs).len() == 12 * rs.len(),
    decreases rs.len(),
{
    lemma_auto_spec_u32_to_from_le_bytes();
    if rs.len() > 0 {
        lemma_records_bytes_len(rs.drop_last());
    }
}

/// Record `k`'s body sits at bytes `12k .. 12k+12` of the packed record area.
proof fn lemma_records_bytes_index(rs: Seq<CraftingLite>, k: int)
    requires
        0 <= k < rs.len(),
    ensures
        spec_records_bytes(rs).subrange(12 * k, 12 * k + 12) == spec_record_bytes(rs[k]),
    decreases rs.len(),
{
    lemma_auto_spec_u32_to_from_le_bytes();
    lemma_records_bytes_len(rs);
    if k == rs.len() - 1 {
        lemma_records_bytes_len(rs.drop_last());
        assert(spec_records_bytes(rs).subrange(12 * k, 12 * k + 12) =~= spec_record_bytes(
            rs.last(),
        ));
    } else {
        lemma_records_bytes_len(rs.drop_last());
        lemma_records_bytes_index(rs.drop_last(), k);
        assert(spec_records_bytes(rs).subrange(12 * k, 12 * k + 12) =~= spec_records_bytes(
            rs.drop_last(),
        ).subrange(12 * k, 12 * k + 12));
        assert(rs.drop_last()[k] == rs[k]);
    }
}

proof fn lemma_record_roundtrip(r: CraftingLite)
    ensures
        spec_record_bytes(r).len() == 12,
        spec_record_from(spec_record_bytes(r)) == r,
{
    lemma_auto_spec_u32_to_from_le_bytes();
    let b = spec_record_bytes(r);
    assert(b.subrange(0, 4) =~= spec_u32_to_le_bytes(r.unit_number));
    assert(b.subrange(4, 8) =~= spec_u32_to_le_bytes(r.products_complete));
    assert(b.subrange(8, 12) =~= spec_u32_to_le_bytes(r.status));
}

/// Packing then unpacking an observation gives back the very same timestamp
/// and record sequence, for every observation whose record count fits the
/// frame header.
pub proof fn lemma_pack_unpack_roundtrip(time: i64, rs: Seq<CraftingLite>)
    requires
        rs.len() < 0x1_0000_0000,
    ensures
        spec_unpack_observation(spec_pack_observation(time, rs)) == Some((time, rs)),
{
    lemma_auto_spec_u64_to_from_le_bytes();
    lemma_records_bytes_len(rs);
    let b = spec_pack_observation(time, rs);
    assert(b.subrange(0, 8) =~= spec_u64_to_le_bytes(rs.len() as u64));
    assert(b.subrange(8, 16) =~= spec_u64_to_le_bytes(time as u64));
    let n = spec_u64_from_le_bytes(b.subrange(0, 8));
    assert(n == rs.len() as u64);
    assert(spec_u64_from_le_bytes(b.subrange(8, 16)) == time as u64);
    assert((time as u64) as i64 == time) by (bit_vector);
    assert(b.len() == 16 + 12 * rs.len());
    let decoded = spec_records_from(b, 16, n as int);
    assert forall|k: int| 0 <= k < rs.len() implies decoded[k] == rs[k] by {
        assert(b.subrange(16 + 12 * k, 16 + 12 * k + 12) =~= spec_records_bytes(rs).subrange(
            12 * k,
            12 * k + 12,
        ));
        lemma_records_bytes_index(rs, k);
        lemma_record_roundtrip(rs[k]);
    }
    assert(decoded =~= rs);
}

/// A history replayed from its packed items is the history itself: every
/// archived observation unpacks to exactly the timestamp and records it was
/// packed from, so a collector restarted over the same archives
/// reconstructs the same history, and its queries, being functions of the
/// history, answer the same.
pub proof fn lemma_history_roundtrip(history: Seq<(i64, Seq<CraftingLite>)>)
    requires
        forall|k: int| 0 <= k < history.len() ==> (#[trigger] history[k]).1.len() < 0x1_0000_0000,
    ensures
        forall|k: int|
            0 <= k < history.len() ==> spec_unpack_observation(
                spec_pack_observation((#[trigger] history[k]).0, history[k].1),
            ) == Some(history[k]),
{
    assert forall|k: int| 0 <= k < history.len() implies spec_unpack_observation(
        spec_pack_observation((#[trigger] history[k]).0, history[k].1),
    ) == Some(history[k]) by {
        lemma_pack_unpack_roundtrip(history[k].0, history[k].1);
    }
}

fn push_record_bytes(out: &mut Vec<u8>, r: &CraftingLite)
    ensures
        final(out)@ == old(out)@ + spec_record_bytes(*r),
{
    let mut a = u32_to_le_bytes(r.unit_number);
    let mut b = u32_to_le_bytes(r.products_complete);
    let mut c = u32_to_le_bytes(r.status);
    out.append(&mut a);
    out.append(&mut b);
    out.append(&mut c);
    assert(final(out)@ =~= old(out)@ + spec_record_bytes(*r));
}

/// Pack one observation into its on-disk and on-wire framing. Fails only when
/// the record count cannot be represented, i.e. does not fit in 32 bits.
pub fn pack_observation(obs: &Observation) -> (r: Result<Vec<u8>, CodecError>)
    ensures
        obs.inner@.len() < 0x1_0000_0000 ==> (r matches Ok(b) && b@ == spec_pack_observation(
            obs.time,
            obs.inner@,
        )),
        obs.inner@.len() >= 0x1_0000_0000 ==> r == Result::<Vec<u8>, CodecError>::Err(
            CodecError::CountTooLarge,
        ),
{
    if obs.inner.len() as u64 >= 0x1_0000_0000u64 {
        return Err(CodecError::CountTooLarge);
    }
    let mut out = u64_to_le_bytes(obs.inner.len() as u64);
    let mut t = u64_to_le_bytes(obs.time as u64);
    out.append(&mut t);
    let n = obs.inner.len();
    for i in 0..n
        invariant
            n == obs.inner@.len(),
            out@ == spec_u64_to_le_bytes(n as u64) + spec_u64_to_le_bytes(obs.time as u64)
                + spec_records_bytes(obs.inner@.take(i as int)),
    {
        push_record_bytes(&mut out, &obs.inner[i]);
        proof {
            assert(obs.inner@.take(i + 1).drop_last() =~= obs.inner@.take(i as int));
            assert(obs.inner@.take(i + 1).last() == obs.inner@[i as int]);
        }
    }
    proof {
        assert(obs.inner@.take(n as int) =~= obs.inner@);
    }
    Ok(out)
}

/// Decode the 12-byte record bodies that start at byte `start` of `buf`.
fn read_records(buf: &[u8], start: usize, n: usize) -> (r: Vec<CraftingLite>)
    requires
        start + 12 * n <= buf@.len(),
    ensures
        r@ == spec_records_from(buf@, start as int, n as int),
{
    let mut out: Vec<CraftingLite> = Vec::new();
    let len = buf.len();
    for i in 0..n
        invariant
            start + 12 * n <= buf@.len(),
            buf@.len() == len,
            out@ == spec_records_from(buf@, start as int, i as int),
    {
        let base = start + 12 * i;
        let rec = CraftingLite {
            unit_number: u32_from_le_bytes(slice_subrange(buf, base, base + 4)),
            products_complete: u32_from_le_bytes(slice_subrange(buf, base + 4, base + 8)),
            status: u32_from_le_bytes(slice_subrange(buf, base + 8, base + 12)),
        };
        proof {
            let body = buf@.subrange(base as int, base as int + 12);
            assert(buf@.subrange(base as int, base as int + 4) =~= body.subrange(0, 4));
            assert(buf@.subrange(base as int + 4, base as int + 8) =~= body.subrange(4, 8));
            assert(buf@.subrange(base as int + 8, base as int + 12) =~= body.subrange(8, 12));
        }
        out.push(rec);
        proof {
            assert(out@ =~= spec_records_from(buf@, start as int, i + 1));
        }
    }
    out
}

/// Unpack one observation from its framing. The buffer must hold the whole
/// frame and nothing else; a count of 2^32 or more and any length mismatch
/// are rejected.
pub fn unpack_observation(buf: &[u8]) -> (r: Result<Observation, CodecError>)
    ensures
        (spec_unpack_observation(buf@) matches Some(p) && r matches Ok(o) && o.time == p.0
            && o.inner@ == p.1) || (spec_unpack_observation(buf@) is None && r is Err),
        r matches Err(e) ==> e == (if buf@.len() >= 16 && spec_u64_from_le_bytes(
            buf@.subrange(0, 8),
        ) >= 0x1_0000_0000u64 {
            CodecError::CountTooLarge
        } else {
            CodecError::LengthMismatch
        }),
{
    if buf.len() < 16 {
        return Err(CodecError::LengthMismatch);
    }
    let n = u64_from_le_bytes(slice_subrange(buf, 0, 8));
    let t = u64_from_le_bytes(slice_subrange(buf, 8, 16));
    if n >= 0x1_0000_0000u64 {
        return Err(CodecError::CountTooLarge);
    }
    let n_usize = n as usize;
    if buf.len() as u64 != 16u64 + 12u64 * n {
        return Err(CodecError::LengthMismatch);
    }
    assert(buf@.len() == 16 + 12 * (n as int));
    let inner = read_records(buf, 16, n_usize);
    Ok(Observation { time: t as i64, inner })
}

/// Decode whole 12-byte record bodies from the front of a buffer; trailing
/// bytes that do not fill a record are ignored.
pub fn decode_records(buf: &[u8]) -> (r: Vec<CraftingLite>)
    ensures
        r@ == spec_records_from(buf@, 0, buf@.len() as int / 12),
{
    let n = buf.len() / 12;
    proof {
        assert(buf@.len() as int == 12 * (buf@.len() as int / 12) + buf@.len() as int % 12);
    }
    read_records(buf, 0, n)
}

/// Records in non-decreasing `unit_number` order.
pub open spec fn sorted_by_unit(s: Seq<CraftingLite>) -> bool {
    forall|i: int, j: int| 0 <= i < j < s.len() ==> s[i].unit_number <= s[j].unit_number
}

/// No two records share a `unit_number`.
pub open spec fn unique_units(s: Seq<CraftingLite>) -> bool {
    forall|i: int, j: int| 0 <= i < j < s.len() ==> s[i].unit_number != s[j].unit_number
}

/// Sort records by `unit_number`, keeping exactly the records that were
/// there (as a multiset).
pub fn sort_records(v: &mut Vec<CraftingLite>)
    ensures
        final(v)@.len() == old(v)@.len(),
        final(v)@.to_multiset() == old(v)@.to_multiset(),
        sorted_by_unit(final(v)@),
{
    let n = v.len();
    for i in 0..n
        invariant
            n == v@.len(),
            v@.to_multiset() == old(v)@.to_multiset(),
            sorted_by_unit(v@.take(i as int)),
    {
        let mut j = i;
        proof {
            assert forall|a: int, b: int| 0 <= a < b <= i && b != j implies v@[a].unit_number
                <= v@[b].unit_number by {
                assert(v@.take(i as int)[a] == v@[a]);
                assert(v@.take(i as int)[b] == v@[b]);
            }
        }
        while j > 0 && v[j - 1].unit_number > v[j].unit_number
            invariant
                n == v@.len(),
                0 <= j <= i < n,
                v@.to_multiset() == old(v)@.to_multiset(),
                forall|a: int, b: int|
                    0 <= a < b <= i && b != j ==> v@[a].unit_number <= v@[b].unit_number,
            decreases j,
        {
            let x = v[j - 1];
            let y = v[j];
            let ghost before = v@;
            v.set(j - 1, y);
            v.set(j, x);
            proof {
                assert(v@ =~= before.update(j - 1, before[j as int]).update(
                    j as int,
                    before[j - 1],
                ));
                lemma_swap_multiset(before, j - 1, j as int);
                assert forall|a: int, b: int|
                    0 <= a < b <= i && b != j - 1 implies v@[a].unit_number
                    <= v@[b].unit_number by {
                    if b == j {
                        if a < j - 1 {
                            assert(before[a].unit_number <= before[j - 1].unit_number);
                        }
                    } else if b > j {
                        if a == j - 1 {
                            assert(before[j as int].unit_number <= before[b].unit_number);
                        } else if a == j {
                            assert(before[j - 1].unit_number <= before[b].unit_number);
                        }
                    }
                }
            }
            j = j - 1;
        }
        proof {
            assert forall|a: int, b: int| 0 <= a < b <= i implies v@[a].unit_number
                <= v@[b].unit_number by {
                if b == j && j > 0 {
                    assert(v@[j - 1].unit_number <= v@[j as int].unit_number);
                    if a < j - 1 {
                        assert(v@[a].unit_number <= v@[j - 1].unit_number);
                    }
                }
            }
            assert(sorted_by_unit(v@.take(i + 1)));
        }
    }
    proof {
        assert(v@.take(n as int) =~= v@);
    }
}

/// Swapping two adjacent elements of a sequence preserves its multiset.
proof fn lemma_swap_multiset(s: Seq<CraftingLite>, a: int, b: int)
    requires
        0 <= a < b < s.len(),
        b == a + 1,
    ensures
        s.update(a, s[b]).update(b, s[a]).to_multiset() == s.to_multiset(),
{
    let t = s.update(a, s[b]).update(b, s[a]);
    let prefix = s.subrange(0, a);
    let mid = s.subrange(a, b + 1);
    let suffix = s.subrange(b + 1, s.len() as int);
    let mid_swapped = t.subrange(a, b + 1);
    assert(s =~= prefix + mid + suffix);
    assert(t =~= prefix + mid_swapped + suffix);
    vstd::seq_lib::lemma_multiset_commutative(prefix + mid, suffix);
    vstd::seq_lib::lemma_multiset_commutative(prefix, mid);
    vstd::seq_lib::lemma_multiset_commutative(prefix + mid_swapped, suffix);
    vstd::seq_lib::lemma_multiset_commutative(prefix, mid_swapped);
    assert(mid =~= seq![s[a], s[b]]);
    assert(mid_swapped =~= seq![s[b], s[a]]);
    assert(mid.to_multiset() =~= mid_swapped.to_multiset()) by {
        assert(seq![s[a], s[b]] =~= seq![s[a]].push(s[b]));
        assert(seq![s[b], s[a]] =~= seq![s[b]].push(s[a]));
        assert(seq![s[a]] =~= Seq::empty().push(s[a]));
        assert(seq![s[b]] =~= Seq::empty().push(s[b]));
        broadcast use vstd::seq_lib::group_to_multiset_ensures;

    }
    assert(t.to_multiset() =~= s.to_multiset());
}

/// Any reordering of records with pairwise distinct unit numbers again has
/// pairwise distinct unit numbers.
pub proof fn lemma_unique_units_preserved(a: Seq<CraftingLite>, b: Seq<CraftingLite>)
    requires
        a.to_multiset() == b.to_multiset(),
        unique_units(a),
    ensures
        unique_units(b),
{
    broadcast use vstd::seq_lib::group_to_multiset_ensures;

    assert(a.no_duplicates());
    assert forall|i: int, j: int| 0 <= i < j < b.len() implies b[i].unit_number
        != b[j].unit_number by {
        if b[i] == b[j] {
            let s0 = b.subrange(0, j);
            let s1 = b.subrange(j, b.len() as int);
            assert(b =~= s0 + s1);
            vstd::seq_lib::lemma_multiset_commutative(s0, s1);
            assert(s0.to_multiset().contains(b[i]));
            assert(s1.to_multiset().contains(b[j]));
            assert(b.to_multiset().count(b[i]) >= 2);
            a.lemma_multiset_has_no_duplicates();
            assert(a.to_multiset().contains(b[i]));
        } else {
            if b[i].unit_number == b[j].unit_number {
                assert(b.to_multiset().contains(b[i]));
                assert(b.to_multiset().contains(b[j]));
                assert(a.contains(b[i]));
                assert(a.contains(b[j]));
                let i1 = choose|k: int| 0 <= k < a.len() && a[k] == b[i];
                let j1 = choose|k: int| 0 <= k < a.len() && a[k] == b[j];
                assert(a[i1].unit_number == a[j1].unit_number && i1 != j1);
            }
        }
    }
}

/// After a harvest is sorted, records with pairwise distinct unit numbers
/// stand in strictly ascending `unit_number` order.
pub proof fn lemma_sorted_unique_strict(s: Seq<CraftingLite>)
    requires
        sorted_by_unit(s),
        unique_units(s),
    ensures
        forall|i: int, j: int| 0 <= i < j < s.len() ==> s[i].unit_number < s[j].unit_number,
{
}

} // verus!
