//! The memory-map listing: find the first executable mapping in the text of
//! a process's map table. Each line starts with `from-to perms offset dev
//! inode path`; the executable mapping is the first whose permission field
//! holds an `x`.

use vstd::prelude::*;

verus! {

use vstd::string::StrSliceExecFns;
use crate::debug::inject::{
    first_from, is_ws, is_ws_char, lemma_first_from_char, parse_u64_hex_token, spec_parse_u64_hex,
};

/// Why no executable mapping was returned.
#[derive(Clone, Copy, Debug, PartialEq, Eq, Structural)]
pub enum MapsError {
    /// A line holds no address range token.
    NoAddrs,
    /// A line holds no permission token.
    NoPerms,
    /// The executable line lacks the offset, device, inode or path token.
    ShortLine,
    /// The address range has no dash.
    NoDash,
    /// An address or offset is not a hexadecimal number that fits 64 bits.
    BadNumber,
    /// No line describes an executable mapping.
    NoExecutableMap,
}

/// Some character of `s` is `c`.
pub open spec fn has_char(s: Seq<char>, c: char) -> bool {
    exists|k: int| 0 <= k < s.len() && #[trigger] s[k] == c
}

/// The bounds of the next whitespace-separated token of `line` at or after
/// `from`: start and end, or nothing when only whitespace remains.
pub open spec fn spec_token(line: Seq<char>, from: int) -> Option<(int, int)> {
    let a = first_from(line, from, |c: char| !is_ws(c));
    if a < 0 {
        None
    } else {
        let b = first_from(line, a, |c: char| is_ws(c));
        Some((a, (if b < 0 {
            line.len() as int
        } else {
            b
        })))
    }
}

/// Whether the device, inode and path tokens all follow position `from`.
pub open spec fn spec_has_tail_tokens(line: Seq<char>, from: int) -> bool {
    match spec_token(line, from) {
        None => false,
        Some((a3, b3)) => match spec_token(line, b3) {
            None => false,
            Some((a4, b4)) => spec_token(line, b4) is Some,
        },
    }
}

/// The range and offset of an executable line, once its tokens are known.
pub open spec fn spec_line_numbers(addrs: Seq<char>, offset: Seq<char>) -> Result<
    (u64, u64, u64),
    MapsError,
> {
    let dash = first_from(addrs, 0, |c: char| c == '-');
    if dash < 0 {
        Err(MapsError::NoDash)
    } else {
        match (
            spec_parse_u64_hex(addrs.take(dash)),
            spec_parse_u64_hex(addrs.skip(dash + 1)),
            spec_parse_u64_hex(offset),
        ) {
            (Some(f), Some(t), Some(o)) => Ok((f, t, o)),
            _ => Err(MapsError::BadNumber),
        }
    }
}

/// What one line of the listing means: nothing when it describes a
/// non-executable mapping, otherwise the parsed `(from, to, offset)` triple
/// or the malformation that stopped the parse.
pub open spec fn spec_maps_line(line: Seq<char>) -> Option<Result<(u64, u64, u64), MapsError>> {
    match spec_token(line, 0) {
        None => Some(Err(MapsError::NoAddrs)),
        Some((a0, b0)) => match spec_token(line, b0) {
            None => Some(Err(MapsError::NoPerms)),
            Some((a1, b1)) => {
                if !has_char(line.subrange(a1, b1), 'x') {
                    None
                } else {
                    match spec_token(line, b1) {
                        None => Some(Err(MapsError::ShortLine)),
                        Some((a2, b2)) => {
                            if !spec_has_tail_tokens(line, b2) {
                                Some(Err(MapsError::ShortLine))
                            } else {
                                Some(
                                    spec_line_numbers(
                                        line.subrange(a0, b0),
                                        line.subrange(a2, b2),
                                    ),
                                )
                            }
                        },
                    }
                }
            },
        },
    }
}

/// What the whole listing yields: the first line that speaks, i.e. the
/// first malformed line or the first executable mapping.
pub open spec fn spec_find_exec_map(s: Seq<char>) -> Result<(u64, u64, u64), MapsError>
    decreases s.len(), 1int,
{
    if s.len() == 0 {
        Err(MapsError::NoExecutableMap)
    } else {
        spec_find_exec_map_line(s)
    }
}

/// One nonempty remainder of the listing: its first line, then the rest.
pub open spec fn spec_find_exec_map_line(s: Seq<char>) -> Result<(u64, u64, u64), MapsError>
    decreases s.len(), 0int,
    via spec_find_exec_map_line_decreases
{
    let k = first_from(s, 0, |c: char| c == '\n');
    let line = if k < 0 {
        s
    } else {
        s.take(k)
    };
    match spec_maps_line(line) {
        Some(r) => r,
        None => if k < 0 {
            Err(MapsError::NoExecutableMap)
        } else {
            spec_find_exec_map(s.skip(k + 1))
        },
    }
}

#[via_fn]
proof fn spec_find_exec_map_line_decreases(s: Seq<char>) {
    crate::debug::inject::lemma_first_from_bounds(s, 0, |c: char| c == '\n');
}

/// Find the next whitespace-separated token of the line `s[start..end]` at
/// or after `from`, as absolute bounds.
#[verifier::loop_isolation(false)]
fn token_in(s: &str, start: usize, from: usize, end: usize) -> (r: Option<(usize, usize)>)
    requires
        start <= from <= end <= s@.len(),
    ensures
        ({
            let line = s@.subrange(start as int, end as int);
            match spec_token(line, from - start) {
                Some((a, b)) => r matches Some(p) && p.0 - start == a && p.1 - start == b && from
                    <= p.0 < p.1 <= end,
                None => r is None,
            }
        }),
{
    let ghost line = s@.subrange(start as int, end as int);
    let mut a = from;
    while a < end && is_ws_char(s.get_char(a))
        invariant
            from <= a <= end,
            forall|j: int| from <= j < a ==> is_ws(#[trigger] s@[j]),
        decreases end - a,
    {
        a = a + 1;
    }
    proof {
        let nonws = |c: char| !is_ws(c);
        assert(forall|j: int| from - start <= j < a - start ==> !nonws(#[trigger] line[j]));
        if a < end {
            assert(nonws(line[a - start]));
        }
        lemma_first_from_char(line, from - start, a - start, nonws);
    }
    if a == end {
        return None;
    }
    let mut b = a;
    while b < end && !is_ws_char(s.get_char(b))
        invariant
            a <= b <= end,
            forall|j: int| a <= j < b ==> !is_ws(#[trigger] s@[j]),
        decreases end - b,
    {
        b = b + 1;
    }
    proof {
        let ws = |c: char| is_ws(c);
        assert(forall|j: int| a - start <= j < b - start ==> !ws(#[trigger] line[j]));
        if b < end {
            assert(ws(line[b - start]));
        }
        lemma_first_from_char(line, a - start, b - start, ws);
    }
    Some((a, b))
}

/// Read one line of the listing (the span `s[start..end]`).
#[verifier::loop_isolation(false)]
#[verifier::rlimit(100)]
fn maps_line(s: &str, start: usize, end: usize) -> (r: Option<Result<(u64, u64, u64), MapsError>>)
    requires
        start <= end <= s@.len(),
    ensures
        r == spec_maps_line(s@.subrange(start as int, end as int)),
{
    let ghost line = s@.subrange(start as int, end as int);
    let (a0, b0) = match token_in(s, start, start, end) {
        Some(p) => p,
        None => {
            return Some(Err(MapsError::NoAddrs));
        },
    };
    let (a1, b1) = match token_in(s, start, b0, end) {
        Some(p) => p,
        None => {
            return Some(Err(MapsError::NoPerms));
        },
    };
    // does the permission token hold an x?
    let mut has_x = false;
    let mut k = a1;
    while k < b1
        invariant
            a1 <= k <= b1 <= end <= s@.len(),
            has_x == exists|j: int| a1 <= j < k && #[trigger] s@[j] == 'x',
        decreases b1 - k,
    {
        if s.get_char(k) == 'x' {
            has_x = true;
        }
        k = k + 1;
    }
    proof {
        let perms = line.subrange(a1 - start, b1 - start);
        assert(forall|j: int| a1 <= j < b1 ==> perms[j - a1 - start + start] == s@[j]);
        if has_x {
            let j = choose|j: int| a1 <= j < b1 && #[trigger] s@[j] == 'x';
            assert(perms[j - a1] == 'x');
            assert(has_char(perms, 'x'));
        } else {
            if has_char(perms, 'x') {
                let j = choose|j: int| 0 <= j < perms.len() && #[trigger] perms[j] == 'x';
                assert(s@[j + a1] == 'x');
            }
        }
    }
    if !has_x {
        return None;
    }
    let (a2, b2) = match token_in(s, start, b1, end) {
        Some(p) => p,
        None => {
            return Some(Err(MapsError::ShortLine));
        },
    };
    let (_a3, b3) = match token_in(s, start, b2, end) {
        Some(p) => p,
        None => {
            return Some(Err(MapsError::ShortLine));
        },
    };
    let (_a4, b4) = match token_in(s, start, b3, end) {
        Some(p) => p,
        None => {
            return Some(Err(MapsError::ShortLine));
        },
    };
    match token_in(s, start, b4, end) {
        Some(_) => {},
        None => {
            return Some(Err(MapsError::ShortLine));
        },
    }
    // split the address range at its dash
    let mut dash = a0;
    while dash < b0 && s.get_char(dash) != '-'
        invariant
            a0 <= dash <= b0 <= end <= s@.len(),
            forall|j: int| a0 <= j < dash ==> (#[trigger] s@[j]) != '-',
        decreases b0 - dash,
    {
        dash = dash + 1;
    }
    let ghost addrs = line.subrange(a0 - start, b0 - start);
    proof {
        let isdash = |c: char| c == '-';
        assert(forall|j: int| 0 <= j < dash - a0 ==> !isdash(#[trigger] addrs[j]));
        if dash < b0 {
            assert(isdash(addrs[dash - a0]));
        }
        lemma_first_from_char(addrs, 0, dash - a0, isdash);
    }
    if dash == b0 {
        return Some(Err(MapsError::NoDash));
    }
    proof {
        assert(addrs.take(dash - a0) =~= s@.subrange(a0 as int, dash as int));
        assert(addrs.skip(dash - a0 + 1) =~= s@.subrange(dash + 1, b0 as int));
        assert(line.subrange(a2 - start, b2 - start) =~= s@.subrange(a2 as int, b2 as int));
    }
    let from_v = parse_u64_hex_token(s, a0, dash);
    let to_v = parse_u64_hex_token(s, dash + 1, b0);
    let off_v = parse_u64_hex_token(s, a2, b2);
    match (from_v, to_v, off_v) {
        (Some(f), Some(t), Some(o)) => Some(Ok((f, t, o))),
        _ => Some(Err(MapsError::BadNumber)),
    }
}

/// Find the first executable mapping in a map listing: its start and end
/// addresses in virtual memory, and the file offset its symbols are laid
/// out against.
#[verifier::loop_isolation(false)]
#[verifier::rlimit(100)]
pub fn find_executable_map_in(maps: &str) -> (r: Result<(u64, u64, u64), MapsError>)
    ensures
        r == spec_find_exec_map(maps@),
{
    let n = maps.unicode_len();
    let mut start: usize = 0;
    proof {
        assert(maps@.skip(0) =~= maps@);
    }
    loop
        invariant
            0 <= start <= n == maps@.len(),
            spec_find_exec_map(maps@) == spec_find_exec_map(maps@.skip(start as int)),
        decreases n - start + 1,
    {
        let ghost rest = maps@.skip(start as int);
        if start == n {
            proof {
                assert(rest =~= Seq::<char>::empty());
            }
            return Err(MapsError::NoExecutableMap);
        }
        let mut i = start;
        while i < n && maps.get_char(i) != '\n'
            invariant
                start <= i <= n,
                forall|j: int| start <= j < i ==> (#[trigger] maps@[j]) != '\n',
            decreases n - i,
        {
            i = i + 1;
        }
        proof {
            let isnl = |c: char| c == '\n';
            assert(forall|j: int| 0 <= j < i - start ==> !isnl(#[trigger] rest[j]));
            if i < n {
                assert(isnl(rest[i - start]));
            }
            lemma_first_from_char(rest, 0, i - start, isnl);
            if i == n {
                assert(rest =~= maps@.subrange(start as int, i as int));
            } else {
                assert(rest.take(i - start) =~= maps@.subrange(start as int, i as int));
            }
        }
        match maps_line(maps, start, i) {
            Some(r) => {
                return r;
            },
            None => {},
        }
        if i == n {
            return Err(MapsError::NoExecutableMap);
        }
        proof {
            assert(rest.skip(i - start + 1) =~= maps@.skip(i + 1));
        }
        start = i + 1;
    }
}

} // verus!
