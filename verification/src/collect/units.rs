//! Parsing of the `units` request parameter: comma-separated decimal 32-bit
//! unit numbers. The parsed list is returned sorted and without duplicates;
//! any malformed token rejects the whole parameter.

use vstd::prelude::*;

verus! {

/// Code point of `,`.
pub const COMMA: u32 = 44;

/// Code point of `+`.
pub const PLUS: u32 = 43;

pub open spec fn is_digit(c: char) -> bool {
    48 <= c as u32 <= 57
}

pub open spec fn digit_val(c: char) -> int {
    c as u32 - 48
}

pub open spec fn all_digits(s: Seq<char>) -> bool {
    forall|i: int| 0 <= i < s.len() ==> is_digit(#[trigger] s[i])
}

/// The numeric value of a digit string read in base ten.
pub open spec fn dec_value(s: Seq<char>) -> int
    decreases s.len(),
{
    if s.len() == 0 {
        0
    } else {
        10 * dec_value(s.drop_last()) + digit_val(s.last())
    }
}

/// The value of one decimal token: an optional leading `+`, then at least
/// one digit, with a value that fits in 32 bits.
pub open spec fn spec_parse_u32(s: Seq<char>) -> Option<u32> {
    let body = if s.len() > 0 && s[0] as u32 == PLUS {
        s.drop_first()
    } else {
        s
    };
    if body.len() == 0 || !all_digits(body) || dec_value(body) > u32::MAX {
        None
    } else {
        Some(dec_value(body) as u32)
    }
}

proof fn lemma_dec_value_nonneg(s: Seq<char>)
    requires
        all_digits(s),
    ensures
        dec_value(s) >= 0,
    decreases s.len(),
{
    if s.len() > 0 {
        assert(all_digits(s.drop_last())) by {
            assert(forall|i: int| 0 <= i < s.len() - 1 ==> s.drop_last()[i] == s[i]);
        }
        lemma_dec_value_nonneg(s.drop_last());
    }
}

/// A digit string is worth at least any of its prefixes.
proof fn lemma_dec_value_prefix(s: Seq<char>, i: int)
    requires
        all_digits(s),
        0 <= i <= s.len(),
    ensures
        dec_value(s.take(i)) <= dec_value(s),
    decreases s.len(),
{
    if i == s.len() {
        assert(s.take(i) =~= s);
    } else {
        assert(all_digits(s.drop_last())) by {
            assert(forall|k: int| 0 <= k < s.len() - 1 ==> s.drop_last()[k] == s[k]);
        }
        assert(s.take(i) =~= s.drop_last().take(i));
        lemma_dec_value_prefix(s.drop_last(), i);
        lemma_dec_value_nonneg(s.drop_last());
    }
}

/// Parse the token `s[from..to]` as a decimal 32-bit number.
#[verifier::loop_isolation(false)]
pub fn parse_u32_token(s: &str, from: usize, to: usize) -> (r: Option<u32>)
    requires
        from <= to <= s@.len(),
    ensures
        r == spec_parse_u32(s@.subrange(from as int, to as int)),
{
    let ghost tok = s@.subrange(from as int, to as int);
    let mut i = from;
    if i < to && s.get_char(i) as u32 == PLUS {
        i = i + 1;
    }
    let ghost body = s@.subrange(i as int, to as int);
    proof {
        if tok.len() > 0 && tok[0] as u32 == PLUS {
            assert(body =~= tok.drop_first());
        } else {
            assert(body =~= tok);
        }
    }
    if i == to {
        return None;
    }
    let ghost bs = i as int;
    let mut acc: u64 = 0;
    while i < to
        invariant
            from <= bs <= i <= to <= s@.len(),
            body == s@.subrange(bs, to as int),
            all_digits(s@.subrange(bs, i as int)),
            acc == dec_value(s@.subrange(bs, i as int)),
            acc <= u32::MAX,
        decreases to - i,
    {
        let c = s.get_char(i);
        let cu = c as u32;
        let ghost pre = s@.subrange(bs, i as int);
        if cu < 48 || cu > 57 {
            proof {
                assert(body[i - bs] == c);
                assert(!all_digits(body));
            }
            return None;
        }
        let d = cu - 48;
        let next = acc * 10 + d as u64;
        proof {
            assert(s@.subrange(bs, i + 1).drop_last() =~= pre);
            assert(s@.subrange(bs, i + 1).last() == c);
            assert(all_digits(s@.subrange(bs, i + 1)));
            assert(next == dec_value(s@.subrange(bs, i + 1)));
        }
        if next > u32::MAX as u64 {
            proof {
                if all_digits(body) {
                    assert(body.take(i + 1 - bs) =~= s@.subrange(bs, i + 1));
                    lemma_dec_value_prefix(body, i + 1 - bs);
                }
            }
            return None;
        }
        acc = next;
        i = i + 1;
    }
    proof {
        assert(s@.subrange(bs, to as int) =~= body);
        lemma_dec_value_nonneg(body);
    }
    Some(acc as u32)
}

/// Index of the first comma, or -1 when there is none.
pub open spec fn first_comma(s: Seq<char>) -> int
    decreases s.len(),
{
    if s.len() == 0 {
        -1
    } else if s[0] as u32 == COMMA {
        0
    } else {
        let r = first_comma(s.drop_first());
        if r < 0 {
            -1
        } else {
            r + 1
        }
    }
}

pub proof fn lemma_first_comma_bounds(s: Seq<char>)
    ensures
        -1 <= first_comma(s) < s.len(),
        first_comma(s) >= 0 ==> s[first_comma(s)] as u32 == COMMA,
    decreases s.len(),
{
    if s.len() > 0 && s[0] as u32 != COMMA {
        lemma_first_comma_bounds(s.drop_first());
    }
}

/// `first_comma` is exactly the scan that stops at the first comma.
proof fn lemma_first_comma_char(t: Seq<char>, k: int)
    requires
        0 <= k <= t.len(),
        forall|j: int| 0 <= j < k ==> (#[trigger] t[j]) as u32 != COMMA,
        k < t.len() ==> t[k] as u32 == COMMA,
    ensures
        first_comma(t) == if k == t.len() {
            -1int
        } else {
            k
        },
    decreases t.len(),
{
    if t.len() == 0 {
    } else if t[0] as u32 == COMMA {
    } else {
        assert(k >= 1);
        assert(forall|j: int| 0 <= j < k - 1 ==> (#[trigger] t.drop_first()[j]) as u32 != COMMA);
        lemma_first_comma_char(t.drop_first(), k - 1);
    }
}

/// The values of all comma-separated tokens, or nothing if any token is
/// malformed.
pub open spec fn spec_parse_units(s: Seq<char>) -> Option<Seq<u32>>
    decreases s.len(),
    via spec_parse_units_decreases
{
    let k = first_comma(s);
    if k < 0 {
        match spec_parse_u32(s) {
            Some(v) => Some(seq![v]),
            None => None,
        }
    } else {
        match (spec_parse_u32(s.take(k)), spec_parse_units(s.skip(k + 1))) {
            (Some(v), Some(rest)) => Some(seq![v] + rest),
            _ => None,
        }
    }
}

#[via_fn]
proof fn spec_parse_units_decreases(s: Seq<char>) {
    lemma_first_comma_bounds(s);
}

pub open spec fn strictly_increasing(s: Seq<u32>) -> bool {
    forall|a: int, b: int| 0 <= a < b < s.len() ==> s[a] < s[b]
}

/// Insert `x` into a sorted deduplicated list, keeping it sorted and
/// deduplicated.
fn insert_sorted_unique(v: &mut Vec<u32>, x: u32)
    requires
        strictly_increasing(old(v)@),
    ensures
        strictly_increasing(final(v)@),
        forall|y: u32| final(v)@.contains(y) <==> (old(v)@.contains(y) || y == x),
{
    let mut i: usize = 0;
    while i < v.len() && v[i] < x
        invariant
            0 <= i <= v@.len(),
            v@ == old(v)@,
            forall|k: int| 0 <= k < i ==> v@[k] < x,
        decreases v@.len() - i,
    {
        i = i + 1;
    }
    if i < v.len() && v[i] == x {
        proof {
            assert(old(v)@.contains(x));
        }
        return;
    }
    let ghost before = v@;
    v.insert(i, x);
    proof {
        assert(v@ =~= before.take(i as int) + seq![x] + before.skip(i as int));
        assert forall|a: int, b: int| 0 <= a < b < v@.len() implies v@[a] < v@[b] by {
            if i < before.len() {
                assert(before[i as int] > x);
            }
        }
        assert forall|y: u32| v@.contains(y) <==> (before.contains(y) || y == x) by {
            if v@.contains(y) {
                let k = choose|k: int| 0 <= k < v@.len() && v@[k] == y;
                if k < i {
                    assert(before[k] == y);
                } else if k > i {
                    assert(before[k - 1] == y);
                }
            }
            if before.contains(y) {
                let k = choose|k: int| 0 <= k < before.len() && before[k] == y;
                if k < i {
                    assert(v@[k] == y);
                } else {
                    assert(v@[k + 1] == y);
                }
            }
            if y == x {
                assert(v@[i as int] == y);
            }
        }
    }
}

/// Split a comma-separated list of decimal unit numbers; the result is
/// sorted, deduplicated, and present exactly when every token parses.
#[verifier::loop_isolation(false)]
pub fn split_units(units: &str) -> (r: Option<Vec<u32>>)
    ensures
        match r {
            Some(v) => {
                &&& spec_parse_units(units@) matches Some(vals) && (forall|x: u32|
                    v@.contains(x) <==> vals.contains(x))
                &&& strictly_increasing(v@)
            },
            None => spec_parse_units(units@) is None,
        },
{
    let n = units.unicode_len();
    let mut out: Vec<u32> = Vec::new();
    let mut start: usize = 0;
    let ghost mut prefix_vals: Seq<u32> = Seq::empty();
    proof {
        assert(units@.skip(0) =~= units@);
        assert(Seq::<u32>::empty() + spec_parse_units(units@)->Some_0 =~= spec_parse_units(
            units@,
        )->Some_0);
    }
    loop
        invariant
            0 <= start <= n == units@.len(),
            strictly_increasing(out@),
            forall|x: u32| out@.contains(x) <==> prefix_vals.contains(x),
            match spec_parse_units(units@.skip(start as int)) {
                Some(rest) => spec_parse_units(units@) matches Some(all) && all == prefix_vals
                    + rest,
                None => spec_parse_units(units@) is None,
            },
        decreases n - start + 1,
    {
        let mut i = start;
        while i < n && units.get_char(i) as u32 != COMMA
            invariant
                start <= i <= n == units@.len(),
                forall|j: int| start <= j < i ==> (#[trigger] units@[j]) as u32 != COMMA,
            decreases n - i,
        {
            i = i + 1;
        }
        let ghost rest = units@.skip(start as int);
        proof {
            assert(forall|j: int|
                0 <= j < i - start ==> (#[trigger] rest[j]) as u32 != COMMA);
            if i < n {
                assert(rest[i - start] as u32 == COMMA);
            }
            lemma_first_comma_char(rest, i - start);
        }
        let tok = parse_u32_token(units, start, i);
        proof {
            if i == n {
                assert(units@.subrange(start as int, i as int) =~= rest);
            } else {
                assert(units@.subrange(start as int, i as int) =~= rest.take(i - start));
            }
        }
        let v = match tok {
            Some(v) => v,
            None => {
                return None;
            },
        };
        insert_sorted_unique(&mut out, v);
        let ghost old_prefix = prefix_vals;
        proof {
            prefix_vals = prefix_vals.push(v);
            assert forall|y: u32| prefix_vals.contains(y) <==> (old_prefix.contains(y) || y
                == v) by {
                if prefix_vals.contains(y) {
                    let k = choose|k: int| 0 <= k < prefix_vals.len() && prefix_vals[k] == y;
                    if k < old_prefix.len() {
                        assert(old_prefix[k] == y);
                    }
                }
                if old_prefix.contains(y) {
                    let k = choose|k: int| 0 <= k < old_prefix.len() && old_prefix[k] == y;
                    assert(prefix_vals[k] == y);
                }
                assert(prefix_vals[old_prefix.len() as int] == v);
            }
        }
        if i == n {
            proof {
                assert(spec_parse_units(rest) == Some(seq![v]));
                let all = spec_parse_units(units@)->Some_0;
                assert(all == old_prefix + seq![v]);
                assert(all =~= prefix_vals);
            }
            return Some(out);
        }
        proof {
            assert(rest.skip(i - start + 1) =~= units@.skip(i + 1));
            match spec_parse_units(units@.skip(i + 1)) {
                Some(r2) => {
                    assert(spec_parse_units(rest) == Some(seq![v] + r2));
                    let all = spec_parse_units(units@)->Some_0;
                    assert(all == old_prefix + (seq![v] + r2));
                    assert(all =~= prefix_vals + r2);
                },
                None => {
                    assert(spec_parse_units(rest) is None);
                },
            }
        }
        start = i + 1;
    }
}

} // verus!
