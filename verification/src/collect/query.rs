//! The range query: pick `steps` observations at `gap`-second spacing ending
//! at `end`, then report per-unit statuses and production deltas across the
//! selected window.

use vstd::prelude::*;

verus! {

use crate::codec::{CraftingLite, Observation};
use crate::collect::Data;

/// Parameters of `/api/query`, as they arrive from the request.
pub struct QueryQuery {
    /// Number of observations to return; 30 when absent.
    pub steps: Option<u32>,
    /// Seconds between observations; 60 when absent.
    pub gap: Option<u32>,
    /// Unix seconds of the window's end; the current time when absent.
    pub end: Option<i64>,
    /// Comma-separated unit numbers.
    pub units: String,
}

impl QueryQuery {
    /// The effective steps, gap and end once defaults are filled in.
    pub fn resolve(&self, now: i64) -> (r: (u32, u32, i64))
        ensures
            r.0 == match self.steps {
                Some(s) => s,
                None => 30u32,
            },
            r.1 == match self.gap {
                Some(g) => g,
                None => 60u32,
            },
            r.2 == match self.end {
                Some(e) => e,
                None => now,
            },
    {
        let steps = match self.steps {
            Some(s) => s,
            None => 30,
        };
        let gap = match self.gap {
            Some(g) => g,
            None => 60,
        };
        let end = match self.end {
            Some(e) => e,
            None => now,
        };
        (steps, gap, end)
    }
}

/// Why a range query failed.
#[derive(Clone, Copy, Debug, PartialEq, Eq, Structural)]
pub enum QueryError {
    /// The history holds no observation at all.
    NoData,
}

/// What the range query answers: for each requested unit one row of statuses
/// and one row of production deltas over the selected times.
#[derive(Debug, PartialEq, Eq)]
pub struct QueryResponse {
    pub units: Vec<u32>,
    pub times: Vec<i64>,
    pub deltas: Vec<Vec<Option<u32>>>,
    pub statuses: Vec<Vec<Option<u32>>>,
}

/// The first record of `rs` carrying `unit`, if any.
pub open spec fn spec_find_unit(rs: Seq<CraftingLite>, unit: u32) -> Option<CraftingLite>
    decreases rs.len(),
{
    if rs.len() == 0 {
        None
    } else if rs[0].unit_number == unit {
        Some(rs[0])
    } else {
        spec_find_unit(rs.drop_first(), unit)
    }
}

/// Find the first record of one observation carrying `unit`.
#[verifier::loop_isolation(false)]
pub fn find_unit(rs: &Vec<CraftingLite>, unit: u32) -> (r: Option<CraftingLite>)
    ensures
        r == spec_find_unit(rs@, unit),
{
    let n = rs.len();
    proof {
        assert(rs@.skip(0) =~= rs@);
    }
    for i in 0..n
        invariant
            spec_find_unit(rs@, unit) == spec_find_unit(rs@.skip(i as int), unit),
    {
        proof {
            assert(rs@.skip(i as int)[0] == rs@[i as int]);
            assert(rs@.skip(i as int).drop_first() =~= rs@.skip(i + 1));
        }
        if rs[i].unit_number == unit {
            return Some(rs[i]);
        }
    }
    proof {
        assert(rs@.skip(n as int) =~= Seq::<CraftingLite>::empty());
    }
    None
}

/// Strict lexicographic order on (unix second, history index).
pub open spec fn lex_lt(a: (i64, usize), b: (i64, usize)) -> bool {
    a.0 < b.0 || (a.0 == b.0 && a.1 < b.1)
}

/// Some entry of `p` stands for observation `i` of the history.
pub open spec fn covers_index(data: Seq<Observation>, p: Seq<(i64, usize)>, i: int) -> bool {
    exists|k: int| 0 <= k < p.len() && #[trigger] p[k] == (data[i].time, i as usize)
}

/// `p` lists (second, index) for every observation of `data`, in strictly
/// ascending lexicographic order: the history as sorted by timestamp, ties
/// kept in arrival order.
pub open spec fn is_time_order(data: Seq<Observation>, p: Seq<(i64, usize)>) -> bool {
    &&& p.len() == data.len()
    &&& forall|k: int|
        0 <= k < p.len() ==> (#[trigger] p[k]).1 < data.len() && p[k].0 == data[p[k].1 as int].time
    &&& forall|k: int, l: int| 0 <= k < l < p.len() ==> lex_lt(#[trigger] p[k], #[trigger] p[l])
    &&& forall|i: int| 0 <= i < data.len() ==> #[trigger] covers_index(data, p, i)
}

/// Insert `x` into `p` after every entry whose second is not above `x`'s:
/// insertion sort order, ties resolved towards earlier entries.
pub open spec fn insert_pair(p: Seq<(i64, usize)>, x: (i64, usize)) -> Seq<(i64, usize)>
    decreases p.len(),
{
    if p.len() == 0 {
        seq![x]
    } else if p[0].0 <= x.0 {
        seq![p[0]] + insert_pair(p.drop_first(), x)
    } else {
        seq![x] + p
    }
}

pub open spec fn time_order_prefix(data: Seq<Observation>, n: int) -> Seq<(i64, usize)>
    decreases n,
{
    if n <= 0 {
        Seq::empty()
    } else {
        insert_pair(time_order_prefix(data, n - 1), (data[n - 1].time, (n - 1) as usize))
    }
}

/// The history's (second, index) pairs sorted by second, ties in arrival
/// order: the order in which queries walk the history.
pub open spec fn time_order(data: Seq<Observation>) -> Seq<(i64, usize)> {
    time_order_prefix(data, data.len() as int)
}

/// Inserting `x` at the first position whose second exceeds `x`'s is what
/// `insert_pair` does.
proof fn lemma_insert_pair_at(p: Seq<(i64, usize)>, x: (i64, usize), pos: int)
    requires
        0 <= pos <= p.len(),
        forall|k: int| 0 <= k < pos ==> (#[trigger] p[k]).0 <= x.0,
        pos < p.len() ==> p[pos].0 > x.0,
    ensures
        insert_pair(p, x) == p.take(pos) + seq![x] + p.skip(pos),
    decreases p.len(),
{
    if p.len() == 0 {
        assert(insert_pair(p, x) =~= p.take(pos) + seq![x] + p.skip(pos));
    } else if pos == 0 {
        assert(insert_pair(p, x) =~= p.take(0) + seq![x] + p.skip(0));
    } else {
        assert(p[0].0 <= x.0);
        assert(forall|k: int| 0 <= k < pos - 1 ==> (#[trigger] p.drop_first()[k]).0 <= x.0);
        lemma_insert_pair_at(p.drop_first(), x, pos - 1);
        assert(insert_pair(p, x) =~= p.take(pos) + seq![x] + p.skip(pos));
    }
}

/// Number of leading entries of `p` whose second lies strictly before `t`.
/// On a sorted `p` this is the binary-search insertion point for `t`.
pub open spec fn spec_lb(p: Seq<(i64, usize)>, t: int) -> int
    decreases p.len(),
{
    if p.len() == 0 {
        0
    } else if p[0].0 < t {
        1 + spec_lb(p.drop_first(), t)
    } else {
        0
    }
}

/// The entry of `p` that answers the query for target time `t`: the first
/// observation not before `t`, clamped to the newest observation.
pub open spec fn spec_sel(p: Seq<(i64, usize)>, t: int) -> int {
    let lb = spec_lb(p, t);
    if lb >= p.len() {
        p.len() - 1
    } else {
        lb
    }
}

/// The target second of answer slot `k`: `gap` seconds per remaining step
/// back from `end`.
pub open spec fn spec_target(steps: int, gap: int, end: int, k: int) -> int {
    end - (steps - 1 - k) * gap
}

pub proof fn lemma_lb_bounds(p: Seq<(i64, usize)>, t: int)
    ensures
        0 <= spec_lb(p, t) <= p.len(),
    decreases p.len(),
{
    if p.len() > 0 && p[0].0 < t {
        lemma_lb_bounds(p.drop_first(), t);
    }
}

pub proof fn lemma_lb_monotone(p: Seq<(i64, usize)>, t1: int, t2: int)
    requires
        t1 <= t2,
    ensures
        spec_lb(p, t1) <= spec_lb(p, t2),
    decreases p.len(),
{
    if p.len() > 0 {
        lemma_lb_monotone(p.drop_first(), t1, t2);
        if !(p[0].0 < t1) {
            lemma_lb_bounds(p, t2);
        }
    }
}

/// The record of observation `oi` for `unit`.
pub open spec fn spec_cell(data: Seq<Observation>, oi: int, unit: u32) -> Option<CraftingLite> {
    spec_find_unit(data[oi].inner@, unit)
}

/// The production delta between two cells: defined only where both are
/// present and the newer value is not below the older one.
pub open spec fn spec_delta(a: Option<CraftingLite>, b: Option<CraftingLite>) -> Option<u32> {
    match (a, b) {
        (Some(x), Some(y)) => if y.products_complete >= x.products_complete {
            Some((y.products_complete - x.products_complete) as u32)
        } else {
            None
        },
        _ => None,
    }
}

/// The whole contract of a successful range query against the time order `p`.
pub open spec fn query_resp_ok(
    data: Seq<Observation>,
    units: Seq<u32>,
    steps: int,
    gap: int,
    end: int,
    p: Seq<(i64, usize)>,
    resp: QueryResponse,
) -> bool {
    &&& is_time_order(data, p)
    &&& resp.units@ == units
    &&& resp.times@.len() == steps
    &&& forall|k: int|
        0 <= k < steps ==> #[trigger] resp.times@[k] == p[spec_sel(
            p,
            spec_target(steps, gap, end, k),
        )].0
    &&& resp.statuses@.len() == units.len()
    &&& forall|u: int| 0 <= u < units.len() ==> (#[trigger] resp.statuses@[u])@.len() == steps
    &&& forall|u: int, k: int|
        0 <= u < units.len() && 0 <= k < steps ==> (#[trigger] resp.statuses@[u]@[k]) == match spec_cell(
            data,
            p[spec_sel(p, spec_target(steps, gap, end, k))].1 as int,
            units[u],
        ) {
            Some(r) => Some(r.status),
            None => None,
        }
    &&& resp.deltas@.len() == units.len()
    &&& forall|u: int|
        0 <= u < units.len() ==> (#[trigger] resp.deltas@[u])@.len() == (if steps == 0 {
            0int
        } else {
            steps - 1
        })
    &&& forall|u: int, k: int|
        0 <= u < units.len() && 0 <= k < steps - 1 ==> (#[trigger] resp.deltas@[u]@[k])
            == spec_delta(
            spec_cell(data, p[spec_sel(p, spec_target(steps, gap, end, k))].1 as int, units[u]),
            spec_cell(data, p[spec_sel(p, spec_target(steps, gap, end, k + 1))].1 as int, units[u]),
        )
}

/// Build the time order of the history: (second, index) pairs sorted by
/// second, ties in arrival order.
#[verifier::loop_isolation(false)]
pub fn build_time_order(data: &Vec<Observation>) -> (p: Vec<(i64, usize)>)
    ensures
        p@ == time_order(data@),
        is_time_order(data@, p@),
{
    let n = data.len();
    let mut p: Vec<(i64, usize)> = Vec::new();
    for i in 0..n
        invariant
            p@ == time_order_prefix(data@, i as int),
            p@.len() == i,
            forall|k: int|
                0 <= k < p@.len() ==> (#[trigger] p@[k]).1 < i && p@[k].0 == data@[p@[k].1 as int].time,
            forall|k: int, l: int| 0 <= k < l < p@.len() ==> lex_lt(#[trigger] p@[k], #[trigger] p@[l]),
            forall|j: int| 0 <= j < i ==> #[trigger] covers_index(data@, p@, j),
    {
        let t = data[i].time;
        let mut pos: usize = 0;
        while pos < p.len() && p[pos].0 <= t
            invariant
                0 <= pos <= p@.len(),
                forall|k: int| 0 <= k < pos ==> (#[trigger] p@[k]).0 <= t,
            decreases p@.len() - pos,
        {
            pos = pos + 1;
        }
        let ghost before = p@;
        p.insert(pos, (t, i));
        proof {
            assert(p@ =~= before.take(pos as int) + seq![(t, i as usize)] + before.skip(pos as int));
            lemma_insert_pair_at(before, (t, i as usize), pos as int);
            assert(p@ == time_order_prefix(data@, i + 1));
            assert forall|k: int, l: int| 0 <= k < l < p@.len() implies lex_lt(
                #[trigger] p@[k],
                #[trigger] p@[l],
            ) by {
                if l == pos {
                    assert(p@[k] == before[k]);
                } else if k == pos {
                    assert(p@[l] == before[l - 1]);
                    assert(before[l - 1].0 > t);
                } else if k < pos && l > pos {
                    assert(p@[k] == before[k] && p@[l] == before[l - 1]);
                    assert(lex_lt(before[k], before[l - 1]));
                }
            }
            assert forall|j: int| 0 <= j < i + 1 implies #[trigger] covers_index(
                data@,
                p@,
                j,
            ) by {
                if j == i {
                    assert(p@[pos as int] == (data@[j].time, j as usize));
                } else {
                    assert(covers_index(data@, before, j));
                    let k0 = choose|k: int|
                        0 <= k < before.len() && #[trigger] before[k] == (data@[j].time, j as usize);
                    if k0 < pos {
                        assert(p@[k0] == (data@[j].time, j as usize));
                    } else {
                        assert(p@[k0 + 1] == (data@[j].time, j as usize));
                    }
                }
            }
        }
    }
    p
}

/// First index of `p` whose second is not below `target`, or the length.
#[verifier::loop_isolation(false)]
pub fn lower_bound(p: &Vec<(i64, usize)>, target: i128) -> (r: usize)
    ensures
        r == spec_lb(p@, target as int),
{
    let n = p.len();
    let mut i: usize = 0;
    proof {
        assert(p@.skip(0) =~= p@);
    }
    while i < n && (p[i].0 as i128) < target
        invariant
            0 <= i <= n,
            spec_lb(p@, target as int) == i + spec_lb(p@.skip(i as int), target as int),
        decreases n - i,
    {
        proof {
            assert(p@.skip(i as int)[0] == p@[i as int]);
            assert(p@.skip(i as int).drop_first() =~= p@.skip(i + 1));
        }
        i = i + 1;
    }
    proof {
        if i < n {
            assert(p@.skip(i as int)[0] == p@[i as int]);
        } else {
            assert(p@.skip(i as int) =~= Seq::<(i64, usize)>::empty());
        }
    }
    i
}

/// `t` is the timestamp of some observation of the history.
pub open spec fn time_of_history(data: Seq<Observation>, t: i64) -> bool {
    exists|i: int| 0 <= i < data.len() && t == #[trigger] data[i].time
}

/// Answer a range query: `steps` samples `gap` seconds apart ending at
/// `end`, over the given (sorted, deduplicated) unit list. Fails exactly
/// when the history is empty. The returned times are non-decreasing and each
/// one is the timestamp of an observation of the history.
#[verifier::loop_isolation(false)]
#[verifier::rlimit(100)]
pub fn run_query(data: &Data, units: Vec<u32>, steps: u32, gap: u32, end: i64) -> (r: Result<
    QueryResponse,
    QueryError,
>)
    ensures
        data.inner@.len() == 0 <==> r == Result::<QueryResponse, QueryError>::Err(
            QueryError::NoData,
        ),
        r matches Ok(resp) ==> query_resp_ok(
            data.inner@,
            units@,
            steps as int,
            gap as int,
            end as int,
            time_order(data.inner@),
            resp,
        ),
        r matches Ok(resp) ==> {
            &&& forall|k: int, l: int|
                0 <= k < l < resp.times@.len() ==> #[trigger] resp.times@[k]
                    <= #[trigger] resp.times@[l]
            &&& forall|k: int|
                0 <= k < resp.times@.len() ==> time_of_history(
                    data.inner@,
                    #[trigger] resp.times@[k],
                )
        },
{
    if data.inner.len() == 0 {
        return Err(QueryError::NoData);
    }
    let p = build_time_order(&data.inner);
    let n = p.len();
    let steps_n = steps as usize;
    let mut sel: Vec<usize> = Vec::new();
    for k in 0..steps_n
        invariant
            sel@.len() == k,
            forall|m: int|
                0 <= m < k ==> #[trigger] sel@[m] == spec_sel(
                    p@,
                    spec_target(steps as int, gap as int, end as int, m),
                ) && sel@[m] < n,
    {
        let back = (steps as i128) - 1 - (k as i128);
        proof {
            assert(0 <= back <= u32::MAX);
            assert(back * (gap as i128) <= 0x1_0000_0000i128 * 0x1_0000_0000i128)
                by (nonlinear_arith)
                requires
                    0 <= back <= 0x1_0000_0000i128 && 0 <= (gap as i128) <= 0x1_0000_0000i128,
            ;
            assert(back * (gap as i128) >= 0) by (nonlinear_arith)
                requires
                    back >= 0 && (gap as i128) >= 0,
            ;
        }
        let target: i128 = (end as i128) - back * (gap as i128);
        proof {
            assert(target as int == spec_target(steps as int, gap as int, end as int, k as int));
        }
        let lb = lower_bound(&p, target);
        proof {
            lemma_lb_bounds(p@, target as int);
        }
        let idx = if lb >= n {
            n - 1
        } else {
            lb
        };
        sel.push(idx);
    }
    let mut times: Vec<i64> = Vec::new();
    for k in 0..steps_n
        invariant
            times@.len() == k,
            forall|m: int| 0 <= m < k ==> #[trigger] times@[m] == p@[sel@[m] as int].0,
    {
        times.push(p[sel[k]].0);
    }
    let nu = units.len();
    let mut statuses: Vec<Vec<Option<u32>>> = Vec::new();
    let mut deltas: Vec<Vec<Option<u32>>> = Vec::new();
    for u in 0..nu
        invariant
            statuses@.len() == u,
            deltas@.len() == u,
            forall|v: int| 0 <= v < u ==> (#[trigger] statuses@[v])@.len() == steps_n,
            forall|v: int, k: int|
                0 <= v < u && 0 <= k < steps_n ==> (#[trigger] statuses@[v]@[k]) == match spec_cell(
                    data.inner@,
                    p@[sel@[k] as int].1 as int,
                    units@[v],
                ) {
                    Some(r) => Some(r.status),
                    None => None,
                },
            forall|v: int|
                0 <= v < u ==> (#[trigger] deltas@[v])@.len() == (if steps_n == 0 {
                    0int
                } else {
                    steps_n - 1
                }),
            forall|v: int, k: int|
                0 <= v < u && 0 <= k < steps_n - 1 ==> (#[trigger] deltas@[v]@[k]) == spec_delta(
                    spec_cell(data.inner@, p@[sel@[k] as int].1 as int, units@[v]),
                    spec_cell(data.inner@, p@[sel@[k + 1] as int].1 as int, units@[v]),
                ),
    {
        let unit = units[u];
        let mut row_status: Vec<Option<u32>> = Vec::new();
        let mut row_cell: Vec<Option<CraftingLite>> = Vec::new();
        for k in 0..steps_n
            invariant
                row_status@.len() == k,
                row_cell@.len() == k,
                forall|m: int|
                    0 <= m < k ==> (#[trigger] row_cell@[m]) == spec_cell(
                        data.inner@,
                        p@[sel@[m] as int].1 as int,
                        unit,
                    ),
                forall|m: int|
                    0 <= m < k ==> (#[trigger] row_status@[m]) == match spec_cell(
                        data.inner@,
                        p@[sel@[m] as int].1 as int,
                        unit,
                    ) {
                        Some(r) => Some(r.status),
                        None => None,
                    },
        {
            let oi = p[sel[k]].1;
            let found = find_unit(&data.inner[oi].inner, unit);
            match found {
                Some(rec) => {
                    row_status.push(Some(rec.status));
                    row_cell.push(Some(rec));
                },
                None => {
                    row_status.push(None);
                    row_cell.push(None);
                },
            }
        }
        let mut row_delta: Vec<Option<u32>> = Vec::new();
        if steps_n > 0 {
            for k in 0..steps_n - 1
                invariant
                    steps_n > 0,
                    row_delta@.len() == k,
                    forall|m: int|
                        0 <= m < k ==> (#[trigger] row_delta@[m]) == spec_delta(
                            row_cell@[m],
                            row_cell@[m + 1],
                        ),
            {
                let d = match (&row_cell[k], &row_cell[k + 1]) {
                    (Some(a), Some(b)) => if b.products_complete >= a.products_complete {
                        Some(b.products_complete - a.products_complete)
                    } else {
                        None
                    },
                    _ => None,
                };
                row_delta.push(d);
            }
        }
        statuses.push(row_status);
        deltas.push(row_delta);
    }
    let resp = QueryResponse { units, times, deltas, statuses };
    proof {
        assert(query_resp_ok(
            data.inner@,
            resp.units@,
            steps as int,
            gap as int,
            end as int,
            p@,
            resp,
        ));
        assert forall|k: int, l: int| 0 <= k < l < resp.times@.len() implies #[trigger] resp.times@[k]
            <= #[trigger] resp.times@[l] by {
            let tk = spec_target(steps as int, gap as int, end as int, k);
            let tl = spec_target(steps as int, gap as int, end as int, l);
            assert((steps - 1 - k) * (gap as int) >= (steps - 1 - l) * (gap as int))
                by (nonlinear_arith)
                requires
                    k < l && (gap as int) >= 0,
            ;
            lemma_lb_monotone(p@, tk, tl);
            lemma_lb_bounds(p@, tk);
            lemma_lb_bounds(p@, tl);
            let sk = spec_sel(p@, tk);
            let sl = spec_sel(p@, tl);
            if sk < sl {
                assert(lex_lt(p@[sk], p@[sl]));
            }
        }
        assert forall|k: int| 0 <= k < resp.times@.len() implies time_of_history(
            data.inner@,
            #[trigger] resp.times@[k],
        ) by {
            let s = spec_sel(p@, spec_target(steps as int, gap as int, end as int, k));
            lemma_lb_bounds(p@, spec_target(steps as int, gap as int, end as int, k));
            assert(p@[s].1 < data.inner@.len() && p@[s].0 == data.inner@[p@[s].1 as int].time);
            assert(resp.times@[k] == data.inner@[p@[s].1 as int].time);
        }
    }
    Ok(resp)
}

} // verus!
