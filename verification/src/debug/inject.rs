//! The injected shell's data: the memory image the loader writes into the
//! tracee's scratch mapping, the shared-region layout, the decoding of the
//! shell's output records, and the parser for a blob's address listing.
//!
//! The shell itself is an opaque position-independent machine-code blob; the
//! loader concatenates a one-word trampoline, the domain body and a mock
//! status getter, and refuses to assemble the image when a blob's declared
//! entry offset is not zero (the trampoline could not reach it).

use vstd::prelude::*;

verus! {

use vstd::string::StrSliceExecFns;

/// One record as the shell writes it: three counters and a reserved
/// alignment word.
#[derive(Clone, Copy, Debug, PartialEq, Eq, Structural)]
pub struct CraftingLite {
    pub unit: u32,
    pub products: u32,
    pub status: u32,
    pub _reserved: u32,
}

/// Offset of the set-root pointer in the shared region.
pub const S_SET: u64 = 0;

/// Offset of the status-getter address in the shared region.
pub const S_GET_STATUS: u64 = 8;

/// Offset of the capacity bound in the shared region.
pub const S_CAPACITY: u64 = 16;

/// Offset of the shell's record count in the shared region.
pub const S_COUNT: u64 = 24;

/// Offset of the record array in the shared region.
pub const S_DATA: u64 = 32;

/// How many records the output buffer can hold: the stage-1 mapping
/// reserves sixty mebibytes, sixteen bytes per record.
pub const SHELL_CAPACITY: u64 = 60 * 1024 * 1024 / 16;

/// Why a shell image could not be assembled or its output not decoded.
#[derive(Clone, Copy, Debug, PartialEq, Eq, Structural)]
pub enum ShellError {
    /// A blob that must fit one word does not.
    BlobSize,
    /// No line of the address listing ends in the entry marker.
    EntryNotFound,
    /// The entry line holds no offset token.
    NoOffset,
    /// The offset token is not a hexadecimal number that fits 64 bits.
    BadNumber,
    /// The shell reported more records than were read back.
    ShortRead,
}

/// The low half of a little-endian word: its first four bytes.
pub open spec fn low32(w: u64) -> u32 {
    (w & 0xffff_ffff) as u32
}

/// The high half of a little-endian word: its last four bytes.
pub open spec fn high32(w: u64) -> u32 {
    (w >> 32) as u32
}

/// The record two consecutive output words spell.
pub open spec fn spec_crafting_from(w0: u64, w1: u64) -> CraftingLite {
    CraftingLite {
        unit: low32(w0),
        products: high32(w0),
        status: low32(w1),
        _reserved: high32(w1),
    }
}

/// Decode `count` records from the words read out of the shell's output
/// array; fails when fewer words were read than the count requires.
pub fn craftings_from_words(words: &Vec<u64>, count: usize) -> (r: Result<
    Vec<CraftingLite>,
    ShellError,
>)
    ensures
        count * 2 <= words@.len() ==> (r matches Ok(v) && v@.len() == count && forall|k: int|
            0 <= k < count ==> #[trigger] v@[k] == spec_crafting_from(
                words@[2 * k],
                words@[2 * k + 1],
            )),
        count * 2 > words@.len() ==> r == Result::<Vec<CraftingLite>, ShellError>::Err(
            ShellError::ShortRead,
        ),
{
    if words.len() / 2 < count {
        proof {
            assert(words@.len() as int == 2 * (words@.len() as int / 2) + words@.len() as int % 2);
        }
        return Err(ShellError::ShortRead);
    }
    proof {
        assert(words@.len() as int == 2 * (words@.len() as int / 2) + words@.len() as int % 2);
        assert(usize::MAX as int == 2 * (usize::MAX as int / 2) + usize::MAX as int % 2);
    }
    let mut out: Vec<CraftingLite> = Vec::new();
    for k in 0..count
        invariant
            2 * count <= words@.len(),
            count <= usize::MAX / 2,
            out@.len() == k,
            forall|j: int|
                0 <= j < k ==> #[trigger] out@[j] == spec_crafting_from(
                    words@[2 * j],
                    words@[2 * j + 1],
                ),
    {
        proof {
            assert(2 * k + 1 < words@.len());
        }
        let w0 = words[2 * k];
        let w1 = words[2 * k + 1];
        proof {
            assert(w0 & 0xffff_ffff <= 0xffff_ffffu64) by (bit_vector);
            assert(w0 >> 32 <= 0xffff_ffffu64) by (bit_vector);
            assert(w1 & 0xffff_ffff <= 0xffff_ffffu64) by (bit_vector);
            assert(w1 >> 32 <= 0xffff_ffffu64) by (bit_vector);
        }
        let rec = CraftingLite {
            unit: (w0 & 0xffff_ffff) as u32,
            products: (w0 >> 32) as u32,
            status: (w1 & 0xffff_ffff) as u32,
            _reserved: (w1 >> 32) as u32,
        };
        out.push(rec);
    }
    Ok(out)
}

/// Whether the shell's reported output passes the tracer's sanity bounds:
/// the output address must not look like a debug status code, and the
/// count must be plausible and within the declared capacity.
pub fn validate_shell_output(addr: u64, count: u64) -> (r: bool)
    ensures
        r == (addr > 1000 && count < 1024 * 1024 && count <= SHELL_CAPACITY),
{
    addr > 1000 && count < 1024 * 1024 && count <= SHELL_CAPACITY
}

/// Assemble the shell image: the one-word trampoline, the domain body, then
/// the mock status getter. Refuses blobs whose shape the trampoline cannot
/// serve. Returns the image and the mock getter's offset in words.
pub fn shell_code(call_end: &Vec<u64>, main_code: &Vec<u64>, mock_get_status: &Vec<u64>) -> (r:
    Result<(Vec<u64>, usize), ShellError>)
    ensures
        (call_end@.len() == 1 && mock_get_status@.len() == 1) ==> (r matches Ok(p) && p.0@
            == call_end@ + main_code@ + mock_get_status@ && p.1 == 1 + main_code@.len()),
        !(call_end@.len() == 1 && mock_get_status@.len() == 1) ==> r == Result::<
            (Vec<u64>, usize),
            ShellError,
        >::Err(ShellError::BlobSize),
{
    if call_end.len() != 1 || mock_get_status.len() != 1 {
        return Err(ShellError::BlobSize);
    }
    let mut mem: Vec<u64> = Vec::new();
    let mut a = call_end.clone();
    let mut b = main_code.clone();
    let mut c = mock_get_status.clone();
    mem.append(&mut a);
    mem.append(&mut b);
    let mock_off = mem.len();
    mem.append(&mut c);
    Ok((mem, mock_off))
}

/// The shared region's four header words as the loader first writes them:
/// no set root yet, the mock status getter, the capacity bound, no records
/// yet.
pub fn shared_region_image(mock_get_status_addr: u64) -> (r: Vec<u64>)
    ensures
        r@ == seq![0u64, mock_get_status_addr, SHELL_CAPACITY, 0u64],
{
    let mut v: Vec<u64> = Vec::new();
    v.push(0);
    v.push(mock_get_status_addr);
    v.push(SHELL_CAPACITY);
    v.push(0);
    proof {
        assert(v@ =~= seq![0u64, mock_get_status_addr, SHELL_CAPACITY, 0u64]);
    }
    v
}

/// Where the mock getter and the shared region land once the image sits at
/// `map_addr`: fails when that address arithmetic would overflow.
pub fn shell_addresses(map_addr: u64, code_words: usize, mock_off: usize) -> (r: Option<
    (u64, u64),
>)
    requires
        mock_off <= code_words,
    ensures
        r matches Some(p) ==> p.0 == map_addr + 8 * mock_off && p.1 == map_addr + 8 * code_words,
        r is None <==> map_addr + 8 * code_words > u64::MAX,
{
    match crate::debug::ptrace::words_end(map_addr, code_words) {
        Some(shared) => {
            match crate::debug::ptrace::words_end(map_addr, mock_off) {
                Some(mock) => Some((mock, shared)),
                None => None,
            }
        },
        None => None,
    }
}

/// Whitespace as the address listing uses it between a line's fields.
pub open spec fn is_ws(c: char) -> bool {
    c == ' ' || c == '\t' || c == '\r'
}

pub fn is_ws_char(c: char) -> (r: bool)
    ensures
        r == is_ws(c),
{
    c == ' ' || c == '\t' || c == '\r'
}

pub open spec fn is_hex_digit(c: char) -> bool {
    (48 <= c as u32 <= 57) || (97 <= c as u32 <= 102) || (65 <= c as u32 <= 70)
}

pub open spec fn hex_val(c: char) -> int {
    if 48 <= c as u32 <= 57 {
        c as u32 - 48
    } else if 97 <= c as u32 <= 102 {
        c as u32 - 87
    } else {
        c as u32 - 55
    }
}

pub open spec fn all_hex(s: Seq<char>) -> bool {
    forall|i: int| 0 <= i < s.len() ==> is_hex_digit(#[trigger] s[i])
}

/// The numeric value of a hex digit string.
pub open spec fn hex_value(s: Seq<char>) -> int
    decreases s.len(),
{
    if s.len() == 0 {
        0
    } else {
        16 * hex_value(s.drop_last()) + hex_val(s.last())
    }
}

/// The value of one hexadecimal token: an optional leading `+`, then at
/// least one hex digit, with a value that fits 64 bits.
pub open spec fn spec_parse_u64_hex(s: Seq<char>) -> Option<u64> {
    let body = if s.len() > 0 && s[0] as u32 == 43 {
        s.drop_first()
    } else {
        s
    };
    if body.len() == 0 || !all_hex(body) || hex_value(body) > u64::MAX {
        None
    } else {
        Some(hex_value(body) as u64)
    }
}

proof fn lemma_hex_value_nonneg(s: Seq<char>)
    requires
        all_hex(s),
    ensures
        hex_value(s) >= 0,
    decreases s.len(),
{
    if s.len() > 0 {
        assert(all_hex(s.drop_last())) by {
            assert(forall|i: int| 0 <= i < s.len() - 1 ==> s.drop_last()[i] == s[i]);
        }
        lemma_hex_value_nonneg(s.drop_last());
    }
}

proof fn lemma_hex_value_prefix(s: Seq<char>, i: int)
    requires
        all_hex(s),
        0 <= i <= s.len(),
    ensures
        hex_value(s.take(i)) <= hex_value(s),
    decreases s.len(),
{
    if i == s.len() {
        assert(s.take(i) =~= s);
    } else {
        assert(all_hex(s.drop_last())) by {
            assert(forall|k: int| 0 <= k < s.len() - 1 ==> s.drop_last()[k] == s[k]);
        }
        assert(s.take(i) =~= s.drop_last().take(i));
        lemma_hex_value_prefix(s.drop_last(), i);
        lemma_hex_value_nonneg(s.drop_last());
    }
}

/// Parse the token `s[from..to]` as a hexadecimal 64-bit number.
#[verifier::loop_isolation(false)]
pub fn parse_u64_hex_token(s: &str, from: usize, to: usize) -> (r: Option<u64>)
    requires
        from <= to <= s@.len(),
    ensures
        r == spec_parse_u64_hex(s@.subrange(from as int, to as int)),
{
    let ghost tok = s@.subrange(from as int, to as int);
    let mut i = from;
    if i < to && s.get_char(i) as u32 == 43 {
        i = i + 1;
    }
    let ghost body = s@.subrange(i as int, to as int);
    proof {
        if tok.len() > 0 && tok[0] as u32 == 43 {
            assert(body =~= tok.drop_first());
        } else {
            assert(body =~= tok);
        }
    }
    if i == to {
        return None;
    }
    let ghost bs = i as int;
    let mut acc: u64 = 0;
    while i < to
        invariant
            from <= bs <= i <= to <= s@.len(),
            body == s@.subrange(bs, to as int),
            all_hex(s@.subrange(bs, i as int)),
            acc == hex_value(s@.subrange(bs, i as int)),
        decreases to - i,
    {
        let c = s.get_char(i);
        let cu = c as u32;
        let ghost pre = s@.subrange(bs, i as int);
        let d: u32 = if cu >= 48 && cu <= 57 {
            cu - 48
        } else if cu >= 97 && cu <= 102 {
            cu - 87
        } else if cu >= 65 && cu <= 70 {
            cu - 55
        } else {
            proof {
                assert(body[i - bs] == c);
                assert(!all_hex(body));
            }
            return None;
        };
        proof {
            assert(s@.subrange(bs, i + 1).drop_last() =~= pre);
            assert(s@.subrange(bs, i + 1).last() == c);
            assert(all_hex(s@.subrange(bs, i + 1)));
        }
        if acc > (u64::MAX - (d as u64)) / 16 {
            proof {
                lemma_hex_value_nonneg(pre);
                assert(16 * (acc as int) + d > u64::MAX);
                if all_hex(body) {
                    assert(body.take(i + 1 - bs) =~= s@.subrange(bs, i + 1));
                    lemma_hex_value_prefix(body, i + 1 - bs);
                }
            }
            return None;
        }
        proof {
            assert(16 * (acc as int) + d <= u64::MAX);
        }
        acc = acc * 16 + d as u64;
        i = i + 1;
    }
    proof {
        assert(s@.subrange(bs, to as int) =~= body);
        lemma_hex_value_nonneg(body);
    }
    Some(acc)
}

/// Index of the first character satisfying `f` at or after `from`, or -1.
pub open spec fn first_from(s: Seq<char>, from: int, f: spec_fn(char) -> bool) -> int
    decreases s.len() - from,
{
    if from < 0 || from >= s.len() {
        -1
    } else if f(s[from]) {
        from
    } else {
        first_from(s, from + 1, f)
    }
}

pub proof fn lemma_first_from_bounds(s: Seq<char>, from: int, f: spec_fn(char) -> bool)
    requires
        0 <= from,
    ensures
        first_from(s, from, f) == -1 || from <= first_from(s, from, f) < s.len(),
        first_from(s, from, f) >= 0 ==> f(s[first_from(s, from, f)]),
        forall|j: int|
            from <= j < s.len() && (first_from(s, from, f) == -1 || j < first_from(s, from, f))
                ==> !f(#[trigger] s[j]),
    decreases s.len() - from,
{
    if from < s.len() && !f(s[from]) {
        lemma_first_from_bounds(s, from + 1, f);
    }
}

/// `first_from` is the scan that stops at the first match.
pub proof fn lemma_first_from_char(s: Seq<char>, from: int, k: int, f: spec_fn(char) -> bool)
    requires
        0 <= from <= k <= s.len(),
        forall|j: int| from <= j < k ==> !f(#[trigger] s[j]),
        k < s.len() ==> f(s[k]),
    ensures
        first_from(s, from, f) == if k == s.len() {
            -1int
        } else {
            k
        },
    decreases k - from,
{
    if from < k {
        lemma_first_from_char(s, from + 1, k, f);
    }
}

/// The line ends with the entry marker.
pub open spec fn ends_with_entry(line: Seq<char>) -> bool {
    line.len() >= 5 && line.subrange(line.len() - 5, line.len() as int) == "entry"@
}

/// The offset the entry line declares: its first whitespace-separated
/// token, read as hex.
pub open spec fn spec_line_offset(line: Seq<char>) -> Result<u64, ShellError> {
    let t0 = first_from(line, 0, |c: char| !is_ws(c));
    if t0 < 0 {
        Err(ShellError::NoOffset)
    } else {
        let t1_raw = first_from(line, t0, |c: char| is_ws(c));
        let t1 = if t1_raw < 0 {
            line.len() as int
        } else {
            t1_raw
        };
        match spec_parse_u64_hex(line.subrange(t0, t1)) {
            Some(v) => Ok(v),
            None => Err(ShellError::BadNumber),
        }
    }
}

/// One line as the listing's line iterator hands it out: up to the newline,
/// with a trailing carriage return stripped.
pub open spec fn strip_cr(line: Seq<char>) -> Seq<char> {
    if line.len() > 0 && line.last() == '\r' {
        line.drop_last()
    } else {
        line
    }
}

/// What the whole listing declares as the entry offset: the first token of
/// the first line that ends with the entry marker.
pub open spec fn spec_entry_in_addr(s: Seq<char>) -> Result<u64, ShellError>
    decreases s.len(),
    via spec_entry_in_addr_decreases
{
    let k = first_from(s, 0, |c: char| c == '\n');
    let line = strip_cr(
        if k < 0 {
            s
        } else {
            s.take(k)
        },
    );
    if ends_with_entry(line) {
        spec_line_offset(line)
    } else if k < 0 {
        Err(ShellError::EntryNotFound)
    } else {
        spec_entry_in_addr(s.skip(k + 1))
    }
}

#[via_fn]
proof fn spec_entry_in_addr_decreases(s: Seq<char>) {
    lemma_first_from_bounds(s, 0, |c: char| c == '\n');
}

/// Does the given span of the listing end with the entry marker?
#[verifier::loop_isolation(false)]
fn line_ends_with_entry(s: &str, start: usize, line_end: usize) -> (r: bool)
    requires
        start <= line_end <= s@.len(),
    ensures
        r == ends_with_entry(s@.subrange(start as int, line_end as int)),
{
    let ghost line = s@.subrange(start as int, line_end as int);
    if line_end - start < 5 {
        return false;
    }
    let c0 = s.get_char(line_end - 5);
    let c1 = s.get_char(line_end - 4);
    let c2 = s.get_char(line_end - 3);
    let c3 = s.get_char(line_end - 2);
    let c4 = s.get_char(line_end - 1);
    let r = c0 == 'e' && c1 == 'n' && c2 == 't' && c3 == 'r' && c4 == 'y';
    proof {
        reveal_strlit("entry");
        let tail = line.subrange(line.len() - 5, line.len() as int);
        assert(tail[0] == c0 && tail[1] == c1 && tail[2] == c2 && tail[3] == c3 && tail[4] == c4);
        if r {
            assert(tail =~= "entry"@);
        } else {
            assert(tail != "entry"@);
        }
    }
    r
}

/// Read the first whitespace-separated token of the given line span as a
/// hexadecimal offset.
#[verifier::loop_isolation(false)]
fn line_offset(s: &str, start: usize, line_end: usize) -> (r: Result<u64, ShellError>)
    requires
        start <= line_end <= s@.len(),
    ensures
        r == spec_line_offset(s@.subrange(start as int, line_end as int)),
{
    let ghost line = s@.subrange(start as int, line_end as int);
    let mut t0 = start;
    while t0 < line_end && is_ws_char(s.get_char(t0))
        invariant
            start <= t0 <= line_end,
            forall|j: int| start <= j < t0 ==> is_ws(#[trigger] s@[j]),
        decreases line_end - t0,
    {
        t0 = t0 + 1;
    }
    proof {
        let nonws = |c: char| !is_ws(c);
        assert(forall|j: int| 0 <= j < t0 - start ==> !nonws(#[trigger] line[j]));
        if t0 < line_end {
            assert(nonws(line[t0 - start]));
        }
        lemma_first_from_char(line, 0, t0 - start, nonws);
    }
    if t0 == line_end {
        return Err(ShellError::NoOffset);
    }
    let mut t1 = t0;
    while t1 < line_end && !is_ws_char(s.get_char(t1))
        invariant
            t0 <= t1 <= line_end,
            forall|j: int| t0 <= j < t1 ==> !is_ws(#[trigger] s@[j]),
        decreases line_end - t1,
    {
        t1 = t1 + 1;
    }
    proof {
        let ws = |c: char| is_ws(c);
        assert(forall|j: int| t0 - start <= j < t1 - start ==> !ws(#[trigger] line[j]));
        if t1 < line_end {
            assert(ws(line[t1 - start]));
        }
        lemma_first_from_char(line, t0 - start, t1 - start, ws);
        assert(line.subrange(t0 - start, t1 - start) =~= s@.subrange(t0 as int, t1 as int));
    }
    match parse_u64_hex_token(s, t0, t1) {
        Some(v) => Ok(v),
        None => Err(ShellError::BadNumber),
    }
}

/// Find the blob's declared entry offset in its address listing: the first
/// whitespace-separated token, read as hex, of the first line that ends in
/// the entry marker.
#[verifier::loop_isolation(false)]
#[verifier::rlimit(100)]
pub fn entry_in_addr(addr_file: &str) -> (r: Result<u64, ShellError>)
    ensures
        r == spec_entry_in_addr(addr_file@),
{
    let n = addr_file.unicode_len();
    let mut start: usize = 0;
    proof {
        assert(addr_file@.skip(0) =~= addr_file@);
    }
    loop
        invariant
            0 <= start <= n == addr_file@.len(),
            spec_entry_in_addr(addr_file@) == spec_entry_in_addr(addr_file@.skip(start as int)),
        decreases n - start + 1,
    {
        let ghost rest = addr_file@.skip(start as int);
        let mut i = start;
        while i < n && addr_file.get_char(i) != '\n'
            invariant
                start <= i <= n,
                forall|j: int| start <= j < i ==> (#[trigger] addr_file@[j]) != '\n',
            decreases n - i,
        {
            i = i + 1;
        }
        proof {
            let isnl = |c: char| c == '\n';
            assert(forall|j: int| 0 <= j < i - start ==> !isnl(#[trigger] rest[j]));
            if i < n {
                assert(isnl(rest[i - start]));
            }
            lemma_first_from_char(rest, 0, i - start, isnl);
        }
        // the raw line is addr_file[start..i]; strip a trailing CR
        let mut line_end = i;
        if line_end > start && addr_file.get_char(line_end - 1) == '\r' {
            line_end = line_end - 1;
        }
        let ghost raw = if i == n {
            rest
        } else {
            rest.take(i - start)
        };
        let ghost line = strip_cr(raw);
        proof {
            assert(raw =~= addr_file@.subrange(start as int, i as int));
            assert(line =~= addr_file@.subrange(start as int, line_end as int));
        }
        if line_ends_with_entry(addr_file, start, line_end) {
            return line_offset(addr_file, start, line_end);
        }
        if i == n {
            return Err(ShellError::EntryNotFound);
        }
        proof {
            assert(rest.skip(i - start + 1) =~= addr_file@.skip(i + 1));
        }
        start = i + 1;
    }
}

} // verus!
