//! The long-window aggregation: sort and deduplicate the history by second,
//! slice it to a requested window, cut the window into equal chunks, and per
//! chunk and unit report status-code counts and the production delta between
//! chunk-last records.

use vstd::prelude::*;

verus! {

use crate::codec::Observation;
use crate::collect::Data;
use crate::collect::query::{
    build_time_order, find_unit, lemma_lb_bounds, lower_bound, spec_find_unit, spec_lb, time_order,
};

/// Parameters of `/api/long`: the window bounds arrive as timestamps in
/// unix seconds.
pub struct LongQuery {
    /// Comma-separated unit numbers.
    pub units: String,
    /// Number of chunks to cut the window into.
    pub steps: usize,
    /// Unix seconds of the window's start.
    pub start: i64,
    /// Unix seconds of the window's end.
    pub end: i64,
}

/// Why a long-window query failed.
#[derive(Clone, Copy, Debug, PartialEq, Eq, Structural)]
pub enum LongError {
    /// Zero chunks were requested.
    ZeroSteps,
    /// The window holds fewer observations than requested chunks.
    StepTooSmall,
    /// The window cuts into fewer than two chunks.
    NotEnoughObservations,
    /// A status code of a requested unit does not fit in one byte.
    StatusTooLarge,
    /// A chunk boundary timestamp cannot be rendered as a date.
    TimeFormat,
}

/// One chunk's share of the summary: how many observations it holds and its
/// first and last timestamp, rendered.
#[derive(Debug, PartialEq, Eq)]
pub struct GeneralOutput {
    pub observations: usize,
    pub dates: Vec<String>,
}

/// One chunk's result for one unit: how often each status code (index of
/// the vector) was seen, and the production delta against the previous
/// chunk.
#[derive(Debug, PartialEq, Eq)]
pub struct UnitOutput {
    /// 256 entries; entry `c` counts records with status code `c`.
    pub statuses: Vec<usize>,
    /// Chunk-last production minus the previous chunk-last production,
    /// clamped to zero; zero when either side is missing.
    pub products: u32,
}

/// The timestamp of a unix second rendered as an RFC 3339 UTC date, as the
/// time crate renders it.
pub uninterp spec fn rfc3339_of(secs: i64) -> Seq<char>;

/// The first unix second the date formatter renders: the start of year 0.
pub const RFC3339_MIN_SECS: i64 = -62167219200;

/// The last unix second the date formatter renders: the end of year 9999.
pub const RFC3339_MAX_SECS: i64 = 253402300799;

/// Relies on time's OffsetDateTime::from_unix_timestamp, which accepts
/// exactly the seconds of years -9999 through 9999, and its Rfc3339
/// formatter, which renders a UTC instant exactly when its year lies in 0
/// through 9999 (its only other failure modes concern non-UTC offsets and
/// a failing sink, neither of which arises here). So the call succeeds
/// exactly on the seconds of years 0 through 9999, and the rendering
/// depends on the second alone.
#[verifier::external_body]
fn format_rfc3339(secs: i64) -> (r: Option<String>)
    ensures
        r matches Some(s) ==> s@ == rfc3339_of(secs),
        r is Some <==> RFC3339_MIN_SECS <= secs <= RFC3339_MAX_SECS,
{
    let t = time::OffsetDateTime::from_unix_timestamp(secs).ok()?;
    t.format(&time::format_description::well_known::Rfc3339).ok()
}

/// The first pair of every run of equal seconds, in order.
pub open spec fn spec_dedup(p: Seq<(i64, usize)>) -> Seq<(i64, usize)>
    decreases p.len(),
{
    if p.len() == 0 {
        Seq::empty()
    } else if p.len() == 1 {
        p
    } else {
        spec_dedup(p.drop_last()) + (if p[p.len() - 2].0 != p.last().0 {
            seq![p.last()]
        } else {
            Seq::empty()
        })
    }
}

/// Drop all but the first observation of every second, given the sorted
/// time order of the history.
#[verifier::loop_isolation(false)]
fn dedup_seconds(p: &Vec<(i64, usize)>) -> (d: Vec<(i64, usize)>)
    requires
        forall|a: int, b: int| 0 <= a < b < p@.len() ==> (#[trigger] p@[a]).0 <= (#[trigger] p@[b]).0,
    ensures
        d@ == spec_dedup(p@),
        forall|a: int, b: int| 0 <= a < b < d@.len() ==> (#[trigger] d@[a]).0 < (#[trigger] d@[b]).0,
        forall|k: int|
            0 <= k < d@.len() ==> exists|j: int| 0 <= j < p@.len() && #[trigger] d@[k] == p@[j],
{
    let n = p.len();
    let mut d: Vec<(i64, usize)> = Vec::new();
    proof {
        assert(p@.take(0) =~= Seq::<(i64, usize)>::empty());
    }
    for i in 0..n
        invariant
            d@ == spec_dedup(p@.take(i as int)),
            forall|a: int, b: int| 0 <= a < b < d@.len() ==> (#[trigger] d@[a]).0 < (#[trigger] d@[b]).0,
            forall|k: int|
                0 <= k < d@.len() ==> exists|j: int| 0 <= j < i && #[trigger] d@[k] == p@[j],
            i > 0 ==> d@.len() > 0 && d@.last().0 == p@[i - 1].0,
    {
        proof {
            assert(p@.take(i + 1).drop_last() =~= p@.take(i as int));
            assert(p@.take(i + 1).last() == p@[i as int]);
            if i > 0 {
                assert(p@.take(i + 1)[i - 1] == p@[i - 1]);
            }
        }
        if i == 0 || p[i].0 != p[i - 1].0 {
            let ghost before = d@;
            d.push(p[i]);
            proof {
                if i == 0 {
                    assert(d@ =~= spec_dedup(p@.take(1)));
                } else {
                    assert(d@ =~= spec_dedup(p@.take(i as int)) + seq![p@[i as int]]);
                    assert(d@ =~= spec_dedup(p@.take(i + 1)));
                    assert(before.last().0 == p@[i - 1].0);
                    assert(p@[i - 1].0 <= p@[i as int].0);
                    assert forall|a: int, b: int|
                        0 <= a < b < d@.len() implies (#[trigger] d@[a]).0 < (
                    #[trigger] d@[b]).0 by {
                        if b == d@.len() - 1 {
                            assert(d@[a] == before[a]);
                            if a < before.len() - 1 {
                                assert(before[a].0 < before[before.len() - 1].0);
                            }
                        }
                    }
                }
                assert(d@.last() == p@[i as int]);
            }
        } else {
            proof {
                assert(d@ =~= spec_dedup(p@.take(i as int)) + Seq::<(i64, usize)>::empty());
                assert(d@ =~= spec_dedup(p@.take(i + 1)));
                assert(d@.last().0 == p@[i - 1].0);
            }
        }
    }
    proof {
        assert(p@.take(n as int) =~= p@);
    }
    d
}

/// The record of `unit` at the window position `j` of the deduplicated
/// order `d`.
pub open spec fn cell_at(
    data: Seq<Observation>,
    d: Seq<(i64, usize)>,
    j: int,
    unit: u32,
) -> Option<crate::codec::CraftingLite> {
    spec_find_unit(data[d[j].1 as int].inner@, unit)
}

/// The unit's record at window position `j` carries a status above one
/// byte.
pub open spec fn cell_is_wide(
    data: Seq<Observation>,
    d: Seq<(i64, usize)>,
    j: int,
    unit: u32,
) -> bool {
    match cell_at(data, d, j, unit) {
        Some(r) => r.status > 255,
        None => false,
    }
}

/// The unit carries a status above one byte somewhere in window positions
/// `lo..hi`.
pub open spec fn wide_status_in(
    data: Seq<Observation>,
    d: Seq<(i64, usize)>,
    lo: int,
    hi: int,
    unit: u32,
) -> bool {
    exists|j: int| lo <= j < hi && #[trigger] cell_is_wide(data, d, j, unit)
}

/// Some requested unit carries a status above one byte somewhere in window
/// positions `lo..hi`.
pub open spec fn any_wide_status(
    data: Seq<Observation>,
    d: Seq<(i64, usize)>,
    lo: int,
    hi: int,
    units: Seq<u32>,
) -> bool {
    exists|u: int|
        0 <= u < units.len() && #[trigger] wide_status_in(data, d, lo, hi, units[u])
}

/// How often `unit` was seen with status `code` in window positions
/// `lo..hi`.
pub open spec fn chunk_count(
    data: Seq<Observation>,
    d: Seq<(i64, usize)>,
    lo: int,
    hi: int,
    unit: u32,
    code: int,
) -> nat
    decreases hi - lo,
{
    if lo >= hi {
        0
    } else {
        chunk_count(data, d, lo, hi - 1, unit, code) + (match cell_at(data, d, hi - 1, unit) {
            Some(r) => if r.status == code {
                1nat
            } else {
                0nat
            },
            None => 0nat,
        })
    }
}

/// The start of chunk `c` in a window starting at `a` with chunk size
/// `step`.
pub open spec fn chunk_lo(a: int, step: int, c: int) -> int {
    a + c * step
}

/// The end of chunk `c` in window `a..b` with chunk size `step`.
pub open spec fn chunk_end(a: int, step: int, b: int, c: int) -> int {
    if a + (c + 1) * step < b {
        a + (c + 1) * step
    } else {
        b
    }
}

/// The unit's chunk-last production of the newest chunk before `c` whose
/// chunk-last observation carries the unit.
pub open spec fn prev_products(
    data: Seq<Observation>,
    d: Seq<(i64, usize)>,
    a: int,
    step: int,
    b: int,
    c: int,
    unit: u32,
) -> Option<u32>
    decreases c,
{
    if c <= 0 {
        None
    } else {
        match cell_at(data, d, chunk_end(a, step, b, c - 1) - 1, unit) {
            Some(r) => Some(r.products_complete),
            None => prev_products(data, d, a, step, b, c - 1, unit),
        }
    }
}

/// The production delta reported for chunk `c` and `unit`: chunk-last
/// production minus the previous chunk-last production, clamped to zero;
/// zero when the unit misses either side.
pub open spec fn products_delta(
    data: Seq<Observation>,
    d: Seq<(i64, usize)>,
    a: int,
    step: int,
    b: int,
    c: int,
    unit: u32,
) -> u32 {
    match (cell_at(data, d, chunk_end(a, step, b, c) - 1, unit), prev_products(
        data,
        d,
        a,
        step,
        b,
        c,
        unit,
    )) {
        (Some(cur), Some(pv)) => if cur.products_complete >= pv {
            (cur.products_complete - pv) as u32
        } else {
            0u32
        },
        _ => 0u32,
    }
}

/// Number of chunks the window cuts into.
pub open spec fn spec_nchunks(window: int, step: int) -> int {
    window / step + if window % step == 0 {
        0int
    } else {
        1int
    }
}

/// Count the statuses of `unit` over window positions `lo..hi`; fails on a
/// status above one byte.
#[verifier::loop_isolation(false)]
fn count_chunk(data: &Data, d: &Vec<(i64, usize)>, lo: usize, hi: usize, unit: u32) -> (r: Result<
    Vec<usize>,
    LongError,
>)
    requires
        lo <= hi <= d@.len(),
        forall|k: int| 0 <= k < d@.len() ==> (#[trigger] d@[k]).1 < data.inner@.len(),
    ensures
        r matches Ok(v) ==> {
            &&& v@.len() == 256
            &&& forall|code: int|
                0 <= code < 256 ==> #[trigger] v@[code] == chunk_count(
                    data.inner@,
                    d@,
                    lo as int,
                    hi as int,
                    unit,
                    code,
                )
        },
        r is Err ==> r == Result::<Vec<usize>, LongError>::Err(LongError::StatusTooLarge),
        r is Ok <==> !wide_status_in(data.inner@, d@, lo as int, hi as int, unit),
{
    let mut counts: Vec<usize> = Vec::new();
    for z in 0..256usize
        invariant
            counts@.len() == z,
            forall|code: int| 0 <= code < z ==> #[trigger] counts@[code] == 0,
    {
        counts.push(0);
    }
    let mut j = lo;
    while j < hi
        invariant
            lo <= j <= hi,
            counts@.len() == 256,
            forall|code: int|
                0 <= code < 256 ==> #[trigger] counts@[code] == chunk_count(
                    data.inner@,
                    d@,
                    lo as int,
                    j as int,
                    unit,
                    code,
                ) && counts@[code] <= j - lo,
            forall|jj: int|
                lo <= jj < j ==> !(#[trigger] cell_is_wide(data.inner@, d@, jj, unit)),
        decreases hi - j,
    {
        let oi = d[j].1;
        match find_unit(&data.inner[oi].inner, unit) {
            Some(r) => {
                if r.status > 255 {
                    proof {
                        assert(cell_is_wide(data.inner@, d@, j as int, unit));
                    }
                    return Err(LongError::StatusTooLarge);
                }
                let code = r.status as usize;
                let c = counts[code];
                counts.set(code, c + 1);
            },
            None => {},
        }
        j = j + 1;
    }
    Ok(counts)
}

/// The long-window query's failure, as a result value.
pub open spec fn long_err(e: LongError) -> Result<(Vec<GeneralOutput>, Vec<Vec<UnitOutput>>), LongError> {
    Err(e)
}

/// Cut the window into chunks and aggregate: per chunk the observation
/// count and its first and last date, and per chunk and unit the status
/// counts and the production delta. The window is `start..end` over the
/// deduplicated seconds of the history; it must cut into more than one
/// chunk. Exactly one of the listed failures or success occurs: zero
/// steps; a window too small for the steps; a single chunk; a window end
/// whose date cannot be rendered; a requested unit with a status above one
/// byte in the window; else the aggregation.
#[verifier::loop_isolation(false)]
#[verifier::rlimit(100)]
pub fn run_long(data: &Data, units: &Vec<u32>, steps: usize, start: i64, end: i64) -> (r: Result<
    (Vec<GeneralOutput>, Vec<Vec<UnitOutput>>),
    LongError,
>)
    ensures
        r == long_err(LongError::ZeroSteps) <==> steps == 0,
        ({
            let d = spec_dedup(time_order(data.inner@));
            let a = spec_lb(d, start as int);
            let b = spec_lb(d, end as int);
            let step = (b - a) / (steps as int);
            let nchunks = spec_nchunks(b - a, step);
            let chunked = steps > 0 && b > a && step > 0 && nchunks > 1;
            let dates_ok = RFC3339_MIN_SECS <= d[a].0 && d[b - 1].0 <= RFC3339_MAX_SECS;
            let wide = any_wide_status(data.inner@, d, a, b, units@);
            &&& (r == long_err(LongError::StepTooSmall) <==> steps > 0 && !(b > a && step > 0))
            &&& (r == long_err(LongError::NotEnoughObservations) <==> steps > 0 && b > a && step
                > 0 && nchunks <= 1)
            &&& (r == long_err(LongError::TimeFormat) <==> chunked && !dates_ok)
            &&& (r == long_err(LongError::StatusTooLarge) <==> chunked && dates_ok && wide)
            &&& (r is Ok <==> chunked && dates_ok && !wide)
        }),
        r matches Ok(out) ==> {
            let d = spec_dedup(time_order(data.inner@));
            let a = spec_lb(d, start as int);
            let b = spec_lb(d, end as int);
            let step = (b - a) / (steps as int);
            let nchunks = spec_nchunks(b - a, step);
            &&& steps > 0
            &&& step > 0
            &&& nchunks > 1
            &&& out.0@.len() == nchunks
            &&& forall|c: int|
                0 <= c < nchunks ==> {
                    let lo = chunk_lo(a, step, c);
                    let hi = chunk_end(a, step, b, c);
                    &&& (#[trigger] out.0@[c]).observations == hi - lo
                    &&& out.0@[c].dates@.len() == 2
                    &&& out.0@[c].dates@[0]@ == rfc3339_of(d[lo].0)
                    &&& out.0@[c].dates@[1]@ == rfc3339_of(d[hi - 1].0)
                }
            &&& out.1@.len() == nchunks
            &&& forall|c: int| 0 <= c < nchunks ==> (#[trigger] out.1@[c])@.len() == units@.len()
            &&& forall|c: int, u: int|
                0 <= c < nchunks && 0 <= u < units@.len() ==> {
                    let lo = chunk_lo(a, step, c);
                    let hi = chunk_end(a, step, b, c);
                    &&& (#[trigger] out.1@[c]@[u]).statuses@.len() == 256
                    &&& forall|code: int|
                        0 <= code < 256 ==> #[trigger] out.1@[c]@[u].statuses@[code] == chunk_count(
                            data.inner@,
                            d,
                            lo,
                            hi,
                            units@[u],
                            code,
                        )
                    &&& out.1@[c]@[u].products == products_delta(
                        data.inner@,
                        d,
                        a,
                        step,
                        b,
                        c,
                        units@[u],
                    )
                }
        },
{
    if steps == 0 {
        return Err(LongError::ZeroSteps);
    }
    let p = build_time_order(&data.inner);
    let d = dedup_seconds(&p);
    proof {
        assert forall|k: int| 0 <= k < d@.len() implies (#[trigger] d@[k]).1
            < data.inner@.len() by {
            let j = choose|j: int| 0 <= j < p@.len() && #[trigger] d@[k] == p@[j];
            assert(p@[j].1 < data.inner@.len());
        }
    }
    let a = lower_bound(&d, start as i128);
    let b = lower_bound(&d, end as i128);
    proof {
        lemma_lb_bounds(d@, start as int);
        lemma_lb_bounds(d@, end as int);
    }
    if b <= a {
        return Err(LongError::StepTooSmall);
    }
    let window = b - a;
    let step = window / steps;
    if step == 0 {
        return Err(LongError::StepTooSmall);
    }
    proof {
        vstd::arithmetic::div_mod::lemma_fundamental_div_mod(window as int, step as int);
        let q = window as int / step as int;
        let rr = window as int % step as int;
        assert(window as int == (step as int) * q + rr);
        if window % step != 0 {
            assert(q * (step as int) >= q) by (nonlinear_arith)
                requires
                    step as int >= 1,
                    q >= 0,
            ;
            assert((step as int) * q == q * (step as int)) by (nonlinear_arith);
            assert(q <= window as int - rr);
            assert(q < window as int);
        }
    }
    let nchunks = window / step + (if window % step == 0 {
        0
    } else {
        1
    });
    if nchunks <= 1 {
        return Err(LongError::NotEnoughObservations);
    }
    proof {
        vstd::arithmetic::div_mod::lemma_fundamental_div_mod(window as int, step as int);
        assert forall|c: int| 0 <= c < nchunks implies chunk_lo(a as int, step as int, c) < b
            && chunk_end(a as int, step as int, b as int, c) <= b && chunk_lo(
            a as int,
            step as int,
            c,
        ) < chunk_end(a as int, step as int, b as int, c) by {
            assert(c * (step as int) <= ((nchunks as int) - 1) * (step as int))
                by (nonlinear_arith)
                requires
                    c <= (nchunks as int) - 1,
                    step as int > 0,
            ;
            assert(((nchunks as int) - 1) * (step as int) < window as int) by (nonlinear_arith)
                requires
                    nchunks as int == spec_nchunks(window as int, step as int),
                    step as int > 0,
                    window as int > 0,
                    window as int == (step as int) * ((window as int) / (step as int)) + (
                    window as int) % (step as int),
                    0 <= (window as int) % (step as int) < (step as int),
            ;
            assert((c + 1) * (step as int) == c * (step as int) + (step as int))
                by (nonlinear_arith);
            assert(c * (step as int) >= 0) by (nonlinear_arith)
                requires
                    c >= 0,
                    step as int > 0,
            ;
        }
        assert((nchunks as int) * (step as int) >= window as int) by (nonlinear_arith)
            requires
                nchunks as int == spec_nchunks(window as int, step as int),
                step as int > 0,
                window as int > 0,
                window as int == (step as int) * ((window as int) / (step as int)) + (
                window as int) % (step as int),
                0 <= (window as int) % (step as int) < (step as int),
        ;
    }
    // every chunk boundary second lies between the window's first and last
    // second; refuse the window when either end has no rendered date
    if d[a].0 < RFC3339_MIN_SECS || d[b - 1].0 > RFC3339_MAX_SECS {
        return Err(LongError::TimeFormat);
    }
    let mut summary: Vec<GeneralOutput> = Vec::new();
    let mut cells: Vec<Vec<UnitOutput>> = Vec::new();
    let mut prev: Vec<Option<u32>> = Vec::new();
    let nu = units.len();
    for u in 0..nu
        invariant
            prev@.len() == u,
            forall|v: int| 0 <= v < u ==> (#[trigger] prev@[v]) is None,
    {
        prev.push(None);
    }
    let mut c: usize = 0;
    while c < nchunks
        invariant
            0 <= c <= nchunks,
            summary@.len() == c,
            cells@.len() == c,
            prev@.len() == units@.len(),
            forall|v: int|
                0 <= v < units@.len() ==> #[trigger] prev@[v] == prev_products(
                    data.inner@,
                    d@,
                    a as int,
                    step as int,
                    b as int,
                    c as int,
                    units@[v],
                ),
            forall|cc: int|
                0 <= cc < c ==> {
                    let lo = chunk_lo(a as int, step as int, cc);
                    let hi = chunk_end(a as int, step as int, b as int, cc);
                    &&& (#[trigger] summary@[cc]).observations == hi - lo
                    &&& summary@[cc].dates@.len() == 2
                    &&& summary@[cc].dates@[0]@ == rfc3339_of(d@[lo].0)
                    &&& summary@[cc].dates@[1]@ == rfc3339_of(d@[hi - 1].0)
                },
            forall|j: int, u: int|
                a <= j < (if c == 0 {
                    a as int
                } else {
                    chunk_end(a as int, step as int, b as int, c as int - 1)
                }) && 0 <= u < units@.len() ==> !(#[trigger] cell_is_wide(
                    data.inner@,
                    d@,
                    j,
                    units@[u],
                )),
            forall|cc: int| 0 <= cc < c ==> (#[trigger] cells@[cc])@.len() == units@.len(),
            forall|cc: int, u: int|
                0 <= cc < c && 0 <= u < units@.len() ==> {
                    let lo = chunk_lo(a as int, step as int, cc);
                    let hi = chunk_end(a as int, step as int, b as int, cc);
                    &&& (#[trigger] cells@[cc]@[u]).statuses@.len() == 256
                    &&& forall|code: int|
                        0 <= code < 256 ==> #[trigger] cells@[cc]@[u].statuses@[code]
                            == chunk_count(data.inner@, d@, lo, hi, units@[u], code)
                    &&& cells@[cc]@[u].products == products_delta(
                        data.inner@,
                        d@,
                        a as int,
                        step as int,
                        b as int,
                        cc,
                        units@[u],
                    )
                },
        decreases nchunks - c,
    {
        proof {
            assert(chunk_lo(a as int, step as int, c as int) < b);
            assert((c as int) * (step as int) >= 0) by (nonlinear_arith)
                requires
                    c as int >= 0 && step as int > 0,
            ;
            assert(((c as int) + 1) * (step as int) == (c as int) * (step as int) + (step as int))
                by (nonlinear_arith);
        }
        let lo = a + c * step;
        proof {
            assert(lo as int == chunk_lo(a as int, step as int, c as int));
        }
        let hi = if b - lo <= step {
            b
        } else {
            lo + step
        };
        proof {
            assert(hi as int == chunk_end(a as int, step as int, b as int, c as int));
            // the chunk's boundary seconds sit between the window's ends,
            // and those are renderable once the window passes its date check
            if lo > a {
                assert(d@[a as int].0 < d@[lo as int].0);
            }
            assert(d@[lo as int].0 <= d@[b - 1].0 || lo as int == b - 1);
            assert(RFC3339_MIN_SECS <= d@[lo as int].0 <= RFC3339_MAX_SECS);
            if hi - 1 > a {
                assert(d@[a as int].0 < d@[hi - 1].0);
            }
            assert(RFC3339_MIN_SECS <= d@[hi - 1].0 <= RFC3339_MAX_SECS);
        }
        let first_date = match format_rfc3339(d[lo].0) {
            Some(s) => s,
            None => {
                return Err(LongError::TimeFormat);
            },
        };
        let last_date = match format_rfc3339(d[hi - 1].0) {
            Some(s) => s,
            None => {
                return Err(LongError::TimeFormat);
            },
        };
        let mut dates: Vec<String> = Vec::new();
        dates.push(first_date);
        dates.push(last_date);
        summary.push(GeneralOutput { observations: hi - lo, dates });
        let mut row: Vec<UnitOutput> = Vec::new();
        for u in 0..nu
            invariant
                row@.len() == u,
                lo == chunk_lo(a as int, step as int, c as int),
                hi as int == chunk_end(a as int, step as int, b as int, c as int),
                lo < hi <= b,
                nu == units@.len() == prev@.len(),
                forall|v: int|
                    u <= v < units@.len() ==> #[trigger] prev@[v] == prev_products(
                        data.inner@,
                        d@,
                        a as int,
                        step as int,
                        b as int,
                        c as int,
                        units@[v],
                    ),
                forall|v: int|
                    0 <= v < u ==> #[trigger] prev@[v] == prev_products(
                        data.inner@,
                        d@,
                        a as int,
                        step as int,
                        b as int,
                        c as int + 1,
                        units@[v],
                    ),
                forall|v: int|
                    0 <= v < u ==> !(#[trigger] wide_status_in(
                        data.inner@,
                        d@,
                        lo as int,
                        hi as int,
                        units@[v],
                    )),
                forall|v: int|
                    0 <= v < u ==> {
                        &&& (#[trigger] row@[v]).statuses@.len() == 256
                        &&& forall|code: int|
                            0 <= code < 256 ==> #[trigger] row@[v].statuses@[code] == chunk_count(
                                data.inner@,
                                d@,
                                lo as int,
                                hi as int,
                                units@[v],
                                code,
                            )
                        &&& row@[v].products == products_delta(
                            data.inner@,
                            d@,
                            a as int,
                            step as int,
                            b as int,
                            c as int,
                            units@[v],
                        )
                    },
        {
            let unit = units[u];
            let counts = match count_chunk(data, &d, lo, hi, unit) {
                Ok(v) => v,
                Err(e) => {
                    proof {
                        let j = choose|j: int|
                            lo as int <= j < hi as int && #[trigger] cell_is_wide(
                                data.inner@,
                                d@,
                                j,
                                unit,
                            );
                        assert(a as int <= j < b as int);
                        assert(cell_is_wide(data.inner@, d@, j, units@[u as int]));
                        assert(wide_status_in(
                            data.inner@,
                            d@,
                            a as int,
                            b as int,
                            units@[u as int],
                        ));
                    }
                    return Err(e);
                },
            };
            let last_cell = find_unit(&data.inner[d[hi - 1].1].inner, unit);
            let products: u32 = match (last_cell, prev[u]) {
                (Some(cur), Some(pv)) => if cur.products_complete >= pv {
                    cur.products_complete - pv
                } else {
                    0
                },
                _ => 0,
            };
            match last_cell {
                Some(cur) => {
                    prev.set(u, Some(cur.products_complete));
                },
                None => {},
            }
            row.push(UnitOutput { statuses: counts, products });
        }
        cells.push(row);
        proof {
            assert forall|j: int, u2: int|
                a <= j < chunk_end(a as int, step as int, b as int, c as int) && 0 <= u2
                    < units@.len() implies !(#[trigger] cell_is_wide(
                data.inner@,
                d@,
                j,
                units@[u2],
            )) by {
                if j < lo {
                    if c == 0 {
                        assert((0int) * (step as int) == 0) by (nonlinear_arith);
                        assert(lo as int == a as int);
                    } else {
                        assert(chunk_lo(a as int, step as int, c as int) < b);
                        assert(chunk_end(a as int, step as int, b as int, c as int - 1) == lo);
                    }
                } else {
                    assert(!wide_status_in(data.inner@, d@, lo as int, hi as int, units@[u2]));
                    if cell_is_wide(data.inner@, d@, j, units@[u2]) {
                        assert(wide_status_in(data.inner@, d@, lo as int, hi as int, units@[u2]));
                    }
                }
            }
        }
        c = c + 1;
    }
    proof {
        assert(chunk_end(a as int, step as int, b as int, nchunks as int - 1) >= b);
        assert forall|u: int| 0 <= u < units@.len() implies !(#[trigger] wide_status_in(
            data.inner@,
            d@,
            a as int,
            b as int,
            units@[u],
        )) by {
            assert forall|j: int| a as int <= j < b as int implies !cell_is_wide(
                data.inner@,
                d@,
                j,
                units@[u],
            ) by {}
        }
        assert(!any_wide_status(data.inner@, d@, a as int, b as int, units@));
    }
    Ok((summary, cells))
}

} // verus!
