//! The metric exposition text: two lines per record of the newest
//! observation, with the status line annotated by the status's name.

use vstd::prelude::*;

verus! {

use crate::codec::CraftingLite;
use crate::collect::Data;
use vstd::string::StrSliceExecFns;
use vstd::string::StringExecFns;

/// The name of a status code; the twelve known codes have names, everything
/// else renders as unknown.
pub open spec fn spec_status_name(st: u32) -> Seq<char> {
    if st == 1 {
        "working"@
    } else if st == 2 {
        "normal"@
    } else if st == 37 {
        "no_power"@
    } else if st == 12 {
        "low_power"@
    } else if st == 36 {
        "no_fuel"@
    } else if st == 38 {
        "disabled_by_control_behaviour"@
    } else if st == 41 {
        "disabled_by_script"@
    } else if st == 43 {
        "marked_for_deconstruction"@
    } else if st == 15 {
        "no_recipe"@
    } else if st == 20 {
        "fluid_ingredient_shortage"@
    } else if st == 22 {
        "full_output"@
    } else if st == 21 {
        "item_ingredient_shortage"@
    } else {
        "unknown"@
    }
}

/// Name a status code.
pub fn status_name(st: u32) -> (r: &'static str)
    ensures
        r@ == spec_status_name(st),
{
    match st {
        1 => "working",
        2 => "normal",
        37 => "no_power",
        12 => "low_power",
        36 => "no_fuel",
        38 => "disabled_by_control_behaviour",
        41 => "disabled_by_script",
        43 => "marked_for_deconstruction",
        15 => "no_recipe",
        20 => "fluid_ingredient_shortage",
        22 => "full_output",
        21 => "item_ingredient_shortage",
        _ => "unknown",
    }
}

/// The character of one decimal digit.
pub open spec fn digit_char(d: nat) -> char {
    if d == 0 {
        '0'
    } else if d == 1 {
        '1'
    } else if d == 2 {
        '2'
    } else if d == 3 {
        '3'
    } else if d == 4 {
        '4'
    } else if d == 5 {
        '5'
    } else if d == 6 {
        '6'
    } else if d == 7 {
        '7'
    } else if d == 8 {
        '8'
    } else {
        '9'
    }
}

/// The decimal rendering of a number, most significant digit first, no
/// leading zeroes (a bare zero for zero).
pub open spec fn dec_chars(n: nat) -> Seq<char>
    decreases n,
{
    if n < 10 {
        seq![digit_char(n)]
    } else {
        dec_chars(n / 10).push(digit_char(n % 10))
    }
}

/// Render a number in decimal.
pub fn u32_dec(n: u32) -> (r: String)
    ensures
        r@ == dec_chars(n as nat),
    decreases n,
{
    let d = n % 10;
    let rest = n / 10;
    let digit: &'static str = match d {
        0 => "0",
        1 => "1",
        2 => "2",
        3 => "3",
        4 => "4",
        5 => "5",
        6 => "6",
        7 => "7",
        8 => "8",
        _ => "9",
    };
    proof {
        reveal_strlit("0");
        reveal_strlit("1");
        reveal_strlit("2");
        reveal_strlit("3");
        reveal_strlit("4");
        reveal_strlit("5");
        reveal_strlit("6");
        reveal_strlit("7");
        reveal_strlit("8");
        reveal_strlit("9");
        assert(digit@ =~= seq![digit_char(d as nat)]);
    }
    if rest == 0 {
        let r = digit.to_owned();
        proof {
            assert(r@ =~= dec_chars(n as nat));
        }
        r
    } else {
        let mut s = u32_dec(rest);
        s.append(digit);
        proof {
            assert(s@ =~= dec_chars(n as nat));
        }
        s
    }
}

/// The two metric lines of one record: the production counter, then the
/// status gauge under a comment naming the status.
pub open spec fn spec_metric_record(c: CraftingLite) -> Seq<char> {
    "facto_products_complete{unit=\""@ + dec_chars(c.unit_number as nat) + "\"} "@ + dec_chars(
        c.products_complete as nat,
    ) + "\n# "@ + spec_status_name(c.status) + "\nfacto_status{unit=\""@ + dec_chars(
        c.unit_number as nat,
    ) + "\"} "@ + dec_chars(c.status as nat) + "\n"@
}

/// The whole exposition text of one observation's records, in order.
pub open spec fn spec_metrics(rs: Seq<CraftingLite>) -> Seq<char>
    decreases rs.len(),
{
    if rs.len() == 0 {
        Seq::empty()
    } else {
        spec_metrics(rs.drop_last()) + spec_metric_record(rs.last())
    }
}

/// Render the newest observation in the metric exposition format; an empty
/// history renders as the empty string.
#[verifier::loop_isolation(false)]
pub fn metrics_raw(data: &Data) -> (r: String)
    ensures
        data.inner@.len() == 0 ==> r@ == Seq::<char>::empty(),
        data.inner@.len() > 0 ==> r@ == spec_metrics(data.inner@.last().inner@),
{
    let n = data.inner.len();
    if n == 0 {
        return String::new();
    }
    let obs = &data.inner[n - 1];
    let m = obs.inner.len();
    let mut s = String::new();
    proof {
        assert(obs.inner@.take(0) =~= Seq::<CraftingLite>::empty());
    }
    for k in 0..m
        invariant
            s@ == spec_metrics(obs.inner@.take(k as int)),
    {
        let rec = &obs.inner[k];
        let unit_s = u32_dec(rec.unit_number);
        let prod_s = u32_dec(rec.products_complete);
        let stat_s = u32_dec(rec.status);
        s.append("facto_products_complete{unit=\"");
        s.append(unit_s.as_str());
        s.append("\"} ");
        s.append(prod_s.as_str());
        s.append("\n# ");
        s.append(status_name(rec.status));
        s.append("\nfacto_status{unit=\"");
        s.append(unit_s.as_str());
        s.append("\"} ");
        s.append(stat_s.as_str());
        s.append("\n");
        proof {
            assert(obs.inner@.take(k + 1).drop_last() =~= obs.inner@.take(k as int));
            assert(obs.inner@.take(k + 1).last() == obs.inner@[k as int]);
            assert(s@ =~= spec_metrics(obs.inner@.take(k + 1)));
        }
    }
    proof {
        assert(obs.inner@.take(m as int) =~= obs.inner@);
    }
    s
}

} // verus!
