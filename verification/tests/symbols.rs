use facto_exporter::debug::elf::{
    find_function, str_contains_sub, symbol_table_from_bytes, ElfError, SymbolTable,
};

fn table(entries: &[(&str, u64, u64)]) -> SymbolTable {
    SymbolTable {
        entries: entries
            .iter()
            .map(|&(n, a, s)| (n.to_owned(), a, s))
            .collect(),
    }
}

#[test]
fn get_finds_verbatim_names() {
    let t = table(&[("main", 0x100, 8), ("CRYPTO_malloc", 0x200, 16)]);
    assert_eq!(t.get("main"), Some((0x100, 8)));
    assert_eq!(t.get("CRYPTO_malloc"), Some((0x200, 16)));
    assert_eq!(t.get("missing"), None);
}

#[test]
fn find_function_prefers_verbatim() {
    let t = table(&[("step", 0x10, 4), ("_ZN5space3fooEibc", 0x20, 4)]);
    let (name, addr, size) = find_function(&t, "step").expect("present");
    assert_eq!((name.as_str(), addr, size), ("step", 0x10, 4));
}

#[test]
fn find_function_demangles_candidates() {
    // the raw symbol demangles (without parameters) to foo
    let t = table(&[("unrelated", 1, 1), ("_Z3foov", 0x40, 12)]);
    let (name, addr, size) = find_function(&t, "foo").expect("demangles");
    assert_eq!((name.as_str(), addr, size), ("_Z3foov", 0x40, 12));
    // the qualified spelling is not a substring of the mangled name
    assert_eq!(
        find_function(&t, "space::foo").unwrap_err(),
        ElfError::NotFound
    );
}

#[test]
fn find_function_fails_without_candidates() {
    let t = table(&[("main", 0x100, 8)]);
    assert_eq!(find_function(&t, "step").unwrap_err(), ElfError::NotFound);
}

#[test]
fn substring_search() {
    assert!(str_contains_sub("hello world", "lo wo"));
    assert!(str_contains_sub("abc", ""));
    assert!(str_contains_sub("abc", "abc"));
    assert!(!str_contains_sub("abc", "abcd"));
    assert!(!str_contains_sub("abc", "ac"));
}

#[test]
fn garbage_is_not_an_elf() {
    assert_eq!(
        symbol_table_from_bytes(b"not an elf at all").unwrap_err(),
        ElfError::Unparseable
    );
}
