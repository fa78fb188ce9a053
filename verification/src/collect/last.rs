//! Last-change summaries: for one unit, scan the history newest-first and
//! report the newest production change and the newest status change.

use vstd::prelude::*;

verus! {

use crate::codec::{CraftingLite, Observation};
use crate::collect::Data;
use crate::collect::query::{find_unit, spec_find_unit};

/// Parameters of `/api/last`.
pub struct LastQuery {
    /// Comma-separated unit numbers.
    pub units: String,
}

/// What is known about one unit's recent changes. Every field is `None`
/// until the scan finds the observation that settles it.
#[derive(Clone, Copy, Debug, PartialEq, Eq)]
pub struct UnitData {
    /// Time of the newest observation whose production count differs from
    /// the observation just newer than it.
    pub produced_change: Option<i64>,
    /// Status in the newest observation that carries the unit.
    pub last_status: Option<u32>,
    /// Time of the newest observation whose status differs from the
    /// observation just newer than it.
    pub last_status_change: Option<i64>,
    /// The older status of that newest status change.
    pub previous_status: Option<u32>,
}

impl Default for UnitData {
    /// Nothing known yet.
    fn default() -> (r: UnitData)
        ensures
            r.produced_change is None,
            r.last_status is None,
            r.last_status_change is None,
            r.previous_status is None,
    {
        UnitData {
            produced_change: None,
            last_status: None,
            last_status_change: None,
            previous_status: None,
        }
    }
}

/// The unit's records, newest observation first: one `(time, record)` entry
/// per observation of `data` that carries the unit.
pub open spec fn series(data: Seq<Observation>, unit: u32) -> Seq<(i64, CraftingLite)>
    decreases data.len(),
{
    if data.len() == 0 {
        Seq::empty()
    } else {
        (match spec_find_unit(data.last().inner@, unit) {
            Some(r) => seq![(data.last().time, r)],
            None => Seq::empty(),
        }) + series(data.drop_last(), unit)
    }
}

/// The unit's `(time, products)` entries, newest first.
pub open spec fn prod_map(s: Seq<(i64, CraftingLite)>) -> Seq<(i64, u32)> {
    s.map_values(|x: (i64, CraftingLite)| (x.0, x.1.products_complete))
}

/// The unit's `(time, status)` entries, newest first.
pub open spec fn stat_map(s: Seq<(i64, CraftingLite)>) -> Seq<(i64, u32)> {
    s.map_values(|x: (i64, CraftingLite)| (x.0, x.1.status))
}

/// The first (i.e. newest) entry whose value differs from the entry just
/// before (newer than) it, scanning a newest-first series.
pub open spec fn spec_first_change(s: Seq<(i64, u32)>) -> Option<(i64, u32)>
    decreases s.len(),
{
    if s.len() < 2 {
        None
    } else if s[1].1 != s[0].1 {
        Some(s[1])
    } else {
        spec_first_change(s.drop_first())
    }
}

/// Everything the last-change scan reports about one unit.
pub open spec fn unit_data_spec(data: Seq<Observation>, unit: u32) -> UnitData {
    let s = series(data, unit);
    UnitData {
        produced_change: match spec_first_change(prod_map(s)) {
            Some(c) => Some(c.0),
            None => None,
        },
        last_status: if s.len() == 0 {
            None
        } else {
            Some(s[0].1.status)
        },
        last_status_change: match spec_first_change(stat_map(s)) {
            Some(c) => Some(c.0),
            None => None,
        },
        previous_status: match spec_first_change(stat_map(s)) {
            Some(c) => Some(c.1),
            None => None,
        },
    }
}

/// Splitting the history splits the series: the newer part's entries come
/// first.
proof fn lemma_series_concat(a: Seq<Observation>, b: Seq<Observation>, unit: u32)
    ensures
        series(a + b, unit) == series(b, unit) + series(a, unit),
    decreases b.len(),
{
    if b.len() == 0 {
        assert(a + b =~= a);
        assert(series(b, unit) + series(a, unit) =~= series(a, unit));
    } else {
        assert((a + b).last() == b.last());
        assert((a + b).drop_last() =~= a + b.drop_last());
        lemma_series_concat(a, b.drop_last(), unit);
        assert(series(a + b, unit) =~= series(b, unit) + series(a, unit));
    }
}

/// How one more (older) entry changes the scan: a change already found
/// stays; otherwise the new entry is the change exactly if its value
/// differs from the oldest value seen so far.
proof fn lemma_first_change_push(s: Seq<(i64, u32)>, e: (i64, u32))
    ensures
        spec_first_change(s) is Some ==> spec_first_change(s.push(e)) == spec_first_change(s),
        spec_first_change(s) is None && s.len() >= 1 ==> spec_first_change(s.push(e)) == (if e.1
            != s.last().1 {
            Some(e)
        } else {
            None
        }),
        s.len() == 0 ==> spec_first_change(s.push(e)) is None,
    decreases s.len(),
{
    if s.len() >= 2 {
        assert(s.push(e)[0] == s[0] && s.push(e)[1] == s[1]);
        lemma_first_change_push(s.drop_first(), e);
        assert(s.push(e).drop_first() =~= s.drop_first().push(e));
        if spec_first_change(s) is None {
            assert(s[1].1 == s[0].1);
            assert(spec_first_change(s.drop_first()) is None);
            assert(s.drop_first().last() == s.last());
            assert(spec_first_change(s.push(e)) == spec_first_change(s.drop_first().push(e)));
            assert(s.drop_first().len() >= 1);
        }
    } else if s.len() == 1 {
        assert(s.push(e)[0] == s[0] && s.push(e)[1] == e);
        assert(s.push(e).drop_first() =~= seq![e]);
        assert(spec_first_change(seq![e]) is None);
    }
}

/// Scan the history newest-first for one unit and report its last changes:
/// the newest production change, the newest status change with the older
/// status, and the unit's current status.
#[verifier::loop_isolation(false)]
pub fn status_of(data: &Data, unit: u32) -> (r: UnitData)
    ensures
        r == unit_data_spec(data.inner@, unit),
{
    let n = data.inner.len();
    let mut ud = UnitData::default();
    let mut produced_previous: Option<u32> = None;
    let mut status_previous: Option<u32> = None;
    let mut t = n;
    proof {
        assert(data.inner@.skip(n as int) =~= Seq::<Observation>::empty());
    }
    while t > 0
        invariant
            0 <= t <= n,
            ({
                let ps = series(data.inner@.skip(t as int), unit);
                &&& ud.last_status == (if ps.len() == 0 {
                    Option::<u32>::None
                } else {
                    Some(ps[0].1.status)
                })
                &&& ud.produced_change == (match spec_first_change(prod_map(ps)) {
                    Some(c) => Some(c.0),
                    None => None,
                })
                &&& ud.last_status_change == (match spec_first_change(stat_map(ps)) {
                    Some(c) => Some(c.0),
                    None => None,
                })
                &&& ud.previous_status == (match spec_first_change(stat_map(ps)) {
                    Some(c) => Some(c.1),
                    None => None,
                })
                &&& ud.produced_change is None ==> produced_previous == (if ps.len() == 0 {
                    Option::<u32>::None
                } else {
                    Some(ps.last().1.products_complete)
                })
                &&& ud.last_status_change is None ==> status_previous == (if ps.len() == 0 {
                    Option::<u32>::None
                } else {
                    Some(ps.last().1.status)
                })
            }),
        decreases t,
    {
        t = t - 1;
        let ghost ps = series(data.inner@.skip(t + 1), unit);
        let obs = &data.inner[t];
        let found = find_unit(&obs.inner, unit);
        proof {
            assert(data.inner@.skip(t as int) =~= seq![data.inner@[t as int]]
                + data.inner@.skip(t + 1));
            lemma_series_concat(seq![data.inner@[t as int]], data.inner@.skip(t + 1), unit);
            let single = series(seq![data.inner@[t as int]], unit);
            assert(seq![data.inner@[t as int]].last() == data.inner@[t as int]);
            assert(seq![data.inner@[t as int]].drop_last() =~= Seq::<Observation>::empty());
            match spec_find_unit(data.inner@[t as int].inner@, unit) {
                Some(r) => {
                    assert(single =~= seq![(data.inner@[t as int].time, r)]);
                    assert(series(data.inner@.skip(t as int), unit) =~= ps.push(
                        (data.inner@[t as int].time, r),
                    ));
                },
                None => {
                    assert(single =~= Seq::<(i64, CraftingLite)>::empty());
                    assert(series(data.inner@.skip(t as int), unit) =~= ps);
                },
            }
        }
        match found {
            None => {},
            Some(r) => {
                let time = obs.time;
                let ghost e = (time as i64, r);
                proof {
                    assert(prod_map(ps.push(e)) =~= prod_map(ps).push((e.0, r.products_complete)));
                    assert(stat_map(ps.push(e)) =~= stat_map(ps).push((e.0, r.status)));
                    if ps.len() > 0 {
                        assert(prod_map(ps).last() == (ps.last().0, ps.last().1.products_complete));
                        assert(stat_map(ps).last() == (ps.last().0, ps.last().1.status));
                    }
                    lemma_first_change_push(prod_map(ps), (e.0, r.products_complete));
                    lemma_first_change_push(stat_map(ps), (e.0, r.status));
                    assert(ps.push(e)[0] == (if ps.len() == 0 {
                        e
                    } else {
                        ps[0]
                    }));
                }
                if ud.produced_change.is_none() {
                    match produced_previous {
                        Some(pp) => if pp != r.products_complete {
                            ud.produced_change = Some(time);
                        },
                        None => {},
                    }
                    produced_previous = Some(r.products_complete);
                }
                if ud.last_status.is_none() {
                    ud.last_status = Some(r.status);
                }
                if ud.last_status_change.is_none() {
                    match status_previous {
                        Some(sp) => if sp != r.status {
                            ud.last_status_change = Some(time);
                            ud.previous_status = Some(r.status);
                        },
                        None => {},
                    }
                    status_previous = Some(r.status);
                }
            },
        }
    }
    proof {
        assert(data.inner@.skip(0) =~= data.inner@);
    }
    ud
}

/// Why a bulk status listing failed.
#[derive(Clone, Copy, Debug, PartialEq, Eq, Structural)]
pub enum LastError {
    /// The history holds no observation at all.
    NoData,
}

/// The last-change summary of every unit named by the newest observation,
/// in that observation's record order. Fails exactly when the history is
/// empty.
#[verifier::loop_isolation(false)]
pub fn bulk_status(data: &Data) -> (r: Result<Vec<(u32, UnitData)>, LastError>)
    ensures
        data.inner@.len() == 0 <==> r == Result::<Vec<(u32, UnitData)>, LastError>::Err(
            LastError::NoData,
        ),
        r matches Ok(v) ==> {
            let latest = data.inner@.last();
            &&& v@.len() == latest.inner@.len()
            &&& forall|k: int|
                0 <= k < v@.len() ==> (#[trigger] v@[k]).0 == latest.inner@[k].unit_number
                    && v@[k].1 == unit_data_spec(data.inner@, latest.inner@[k].unit_number)
        },
{
    let n = data.inner.len();
    if n == 0 {
        return Err(LastError::NoData);
    }
    let latest = n - 1;
    let m = data.inner[latest].inner.len();
    let mut out: Vec<(u32, UnitData)> = Vec::new();
    for k in 0..m
        invariant
            out@.len() == k,
            forall|j: int|
                0 <= j < k ==> (#[trigger] out@[j]).0
                    == data.inner@.last().inner@[j].unit_number && out@[j].1 == unit_data_spec(
                    data.inner@,
                    data.inner@.last().inner@[j].unit_number,
                ),
    {
        let unit = data.inner[latest].inner[k].unit_number;
        let ud = status_of(data, unit);
        out.push((unit, ud));
    }
    Ok(out)
}

} // verus!
