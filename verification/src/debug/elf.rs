//! The target binary's symbol table and the resolution of human-readable
//! names to mangled symbols. The table is parsed out of the binary's bytes
//! by the elf crate; every lookup and the demangling fallback scan are
//! verified here.

use vstd::prelude::*;

verus! {

use vstd::string::StringExecFns;

/// One symbol: its raw (possibly mangled) name, address, and size.
#[derive(Debug)]
pub struct SymbolTable {
    pub entries: Vec<(String, u64, u64)>,
}

/// Why a symbol could not be loaded or resolved.
#[derive(Clone, Copy, Debug, PartialEq, Eq, Structural)]
pub enum ElfError {
    /// The binary could not be parsed, or it lacks a symbol or string
    /// table.
    Unparseable,
    /// No symbol matches the requested name, verbatim or demangled.
    NotFound,
}

/// The view of a symbol list: names as character sequences.
pub open spec fn entries_view(v: Seq<(String, u64, u64)>) -> Seq<(Seq<char>, u64, u64)> {
    v.map_values(|e: (String, u64, u64)| (e.0@, e.1, e.2))
}

/// The symbol list the elf crate reads out of a binary: name, value and
/// size of each symbol-table entry, in table order; nothing when the bytes
/// do not parse as an ELF file with a symbol table and a string table.
pub uninterp spec fn elf_symbols_of(data: Seq<u8>) -> Option<Seq<(Seq<char>, u64, u64)>>;

/// Relies on the elf crate: ElfBytes::minimal_parse, find_common_data, and
/// the symbol and string table accessors. Hands back each symbol's name,
/// value and size; the result is a function of the bytes alone.
#[verifier::external_body]
fn parse_elf_symbols(data: &[u8]) -> (r: Option<Vec<(String, u64, u64)>>)
    ensures
        r matches Some(v) ==> elf_symbols_of(data@) == Some(entries_view(v@)),
        r is None ==> elf_symbols_of(data@) is None,
{
    let f = elf::ElfBytes::<elf::endian::AnyEndian>::minimal_parse(data).ok()?;
    let common = f.find_common_data().ok()?;
    let (symtab, strtab) = match (common.symtab, common.symtab_strs) {
        (Some(s), Some(t)) => (s, t),
        _ => return None,
    };
    let mut out = Vec::with_capacity(symtab.len());
    for sym in symtab {
        let name = strtab.get(usize::try_from(sym.st_name).ok()?).ok()?;
        out.push((name.to_string(), sym.st_value, sym.st_size));
    }
    Some(out)
}

/// Parse a binary's full symbol table; fails exactly when the elf crate
/// finds no symbol and string table in the bytes.
pub fn symbol_table_from_bytes(data: &[u8]) -> (r: Result<SymbolTable, ElfError>)
    ensures
        r matches Ok(t) ==> elf_symbols_of(data@) == Some(entries_view(t.entries@)),
        r is Err <==> elf_symbols_of(data@) is None,
        r matches Err(e) ==> e == ElfError::Unparseable,
{
    match parse_elf_symbols(data) {
        Some(entries) => Ok(SymbolTable { entries }),
        None => Err(ElfError::Unparseable),
    }
}

/// The first entry carrying exactly this name.
pub open spec fn spec_find_name(entries: Seq<(String, u64, u64)>, name: Seq<char>) -> Option<int>
    decreases entries.len(),
{
    if entries.len() == 0 {
        None
    } else if entries[0].0@ == name {
        Some(0int)
    } else {
        match spec_find_name(entries.drop_first(), name) {
            Some(i) => Some(i + 1),
            None => None,
        }
    }
}

impl SymbolTable {
    /// Address and size of the symbol with exactly this name.
    #[verifier::loop_isolation(false)]
    pub fn get(&self, name: &str) -> (r: Option<(u64, u64)>)
        ensures
            match spec_find_name(self.entries@, name@) {
                Some(i) => r == Some((self.entries@[i].1, self.entries@[i].2)),
                None => r is None,
            },
    {
        let needle = name.to_owned();
        let n = self.entries.len();
        proof {
            assert(self.entries@.skip(0) =~= self.entries@);
        }
        for i in 0..n
            invariant
                ({
                    let rest = spec_find_name(self.entries@.skip(i as int), name@);
                    match spec_find_name(self.entries@, name@) {
                        Some(j) => rest == Some(j - i),
                        None => rest is None,
                    }
                }),
        {
            proof {
                assert(self.entries@.skip(i as int)[0] == self.entries@[i as int]);
                assert(self.entries@.skip(i as int).drop_first() =~= self.entries@.skip(i + 1));
            }
            if self.entries[i].0 == needle {
                return Some((self.entries[i].1, self.entries[i].2));
            }
        }
        proof {
            assert(self.entries@.skip(n as int) =~= Seq::<(String, u64, u64)>::empty());
        }
        None
    }
}

/// `needle` occurs contiguously inside `hay`.
pub open spec fn contains_sub(hay: Seq<char>, needle: Seq<char>) -> bool {
    exists|i: int|
        0 <= i <= hay.len() - needle.len() && #[trigger] hay.subrange(i, i + needle.len() as int)
            == needle
}

/// Does `needle` occur contiguously inside `hay`?
#[verifier::loop_isolation(false)]
pub fn str_contains_sub(hay: &str, needle: &str) -> (r: bool)
    ensures
        r == contains_sub(hay@, needle@),
{
    let n = hay.unicode_len();
    let m = needle.unicode_len();
    if m > n {
        proof {
            assert(!contains_sub(hay@, needle@));
        }
        return false;
    }
    if m == 0 {
        proof {
            assert(hay@.subrange(0, 0 + needle@.len() as int) =~= needle@);
        }
        return true;
    }
    for i in 0..n - m + 1
        invariant
            m <= n,
            forall|j: int|
                0 <= j < i ==> #[trigger] hay@.subrange(j, j + needle@.len() as int) != needle@,
    {
        let mut k: usize = 0;
        while k < m && hay.get_char(i + k) == needle.get_char(k)
            invariant
                0 <= k <= m,
                i + m <= n,
                forall|l: int| 0 <= l < k ==> hay@[i + l] == needle@[l],
            decreases m - k,
        {
            k = k + 1;
        }
        if k == m {
            proof {
                assert(hay@.subrange(i as int, i + needle@.len() as int) =~= needle@);
            }
            return true;
        }
        proof {
            assert(hay@.subrange(i as int, i + needle@.len() as int)[k as int] == hay@[i + k]);
            assert(hay@.subrange(i as int, i + needle@.len() as int) != needle@);
        }
    }
    proof {
        assert forall|j: int|
            0 <= j <= hay@.len() - needle@.len() implies #[trigger] hay@.subrange(
            j,
            j + needle@.len() as int,
        ) != needle@ by {}
    }
    false
}

/// The short demangling of a raw symbol name: the demangled form with
/// parameters and return type stripped; nothing when the name does not
/// parse as a mangled C++ symbol.
pub uninterp spec fn demangled_short_of(raw: Seq<char>) -> Option<Seq<char>>;

/// Relies on cpp_demangle's Symbol::new and demangle_with_options with
/// no_params and no_return_type: the result depends on the raw name alone.
#[verifier::external_body]
fn demangle_short(raw: &str) -> (r: Option<String>)
    ensures
        r matches Some(s) ==> demangled_short_of(raw@) == Some(s@),
        r is None ==> demangled_short_of(raw@) is None,
{
    let sym = cpp_demangle::Symbol::new(raw).ok()?;
    let opts = cpp_demangle::DemangleOptions::default().no_params().no_return_type();
    sym.demangle_with_options(&opts).ok()
}

/// The first entry whose raw name contains `name` and demangles, short
/// form, to exactly `name`.
pub open spec fn spec_find_demangled(
    entries: Seq<(String, u64, u64)>,
    name: Seq<char>,
) -> Option<int>
    decreases entries.len(),
{
    if entries.len() == 0 {
        None
    } else if contains_sub(entries[0].0@, name) && demangled_short_of(entries[0].0@) == Some(name) {
        Some(0int)
    } else {
        match spec_find_demangled(entries.drop_first(), name) {
            Some(i) => Some(i + 1),
            None => None,
        }
    }
}

/// Resolve a human-readable name to a symbol: the name verbatim when the
/// table has it, else the first symbol that contains the name and whose
/// short demangled form equals it.
#[verifier::loop_isolation(false)]
pub fn find_function(table: &SymbolTable, name: &str) -> (r: Result<(String, u64, u64), ElfError>)
    ensures
        match spec_find_name(table.entries@, name@) {
            Some(i) => r matches Ok(f) && f.0@ == name@ && f.1 == table.entries@[i].1 && f.2
                == table.entries@[i].2,
            None => match spec_find_demangled(table.entries@, name@) {
                Some(j) => r matches Ok(f) && f.0@ == table.entries@[j].0@ && f.1
                    == table.entries@[j].1 && f.2 == table.entries@[j].2,
                None => r == Result::<(String, u64, u64), ElfError>::Err(ElfError::NotFound),
            },
        },
{
    match table.get(name) {
        Some((addr, size)) => {
            return Ok((name.to_owned(), addr, size));
        },
        None => {},
    }
    let needle = name.to_owned();
    let n = table.entries.len();
    proof {
        assert(table.entries@.skip(0) =~= table.entries@);
    }
    for i in 0..n
        invariant
            spec_find_name(table.entries@, name@) is None,
            ({
                let rest = spec_find_demangled(table.entries@.skip(i as int), name@);
                match spec_find_demangled(table.entries@, name@) {
                    Some(j) => rest == Some(j - i),
                    None => rest is None,
                }
            }),
    {
        proof {
            assert(table.entries@.skip(i as int)[0] == table.entries@[i as int]);
            assert(table.entries@.skip(i as int).drop_first() =~= table.entries@.skip(i + 1));
        }
        let raw = &table.entries[i].0;
        if str_contains_sub(raw.as_str(), name) {
            match demangle_short(raw.as_str()) {
                Some(short) => {
                    if short == needle {
                        return Ok((raw.clone(), table.entries[i].1, table.entries[i].2));
                    }
                },
                None => {},
            }
        }
    }
    proof {
        assert(table.entries@.skip(n as int) =~= Seq::<(String, u64, u64)>::empty());
    }
    Err(ElfError::NotFound)
}

} // verus!
