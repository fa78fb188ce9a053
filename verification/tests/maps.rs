use facto_exporter::debug::maps::{find_executable_map_in, MapsError};
use facto_exporter::debug::ptrace::is_software_trap;

#[test]
fn finds_first_executable_mapping() {
    let maps = "\
00400000-00452000 r--p 00000000 08:02 173521 /usr/bin/target
00452000-005a2000 r-xp 00052000 08:02 173521 /usr/bin/target
005a2000-005b0000 rw-p 001a2000 08:02 173521 /usr/bin/target
";
    assert_eq!(
        find_executable_map_in(maps),
        Ok((0x452000, 0x5a2000, 0x52000))
    );
}

#[test]
fn skips_non_executable_lines() {
    let maps = "10-20 rw-p 0 08:02 1 /a\n30-40 r-xp 8 08:02 1 /b\n";
    assert_eq!(find_executable_map_in(maps), Ok((0x30, 0x40, 0x8)));
}

#[test]
fn no_executable_mapping() {
    let maps = "10-20 rw-p 0 08:02 1 /a\n30-40 r--p 8 08:02 1 /b\n";
    assert_eq!(
        find_executable_map_in(maps),
        Err(MapsError::NoExecutableMap)
    );
}

#[test]
fn malformed_lines_are_reported() {
    assert_eq!(find_executable_map_in(""), Err(MapsError::NoExecutableMap));
    assert_eq!(
        find_executable_map_in("\n10-20 r-xp 0 08:02 1 /a\n"),
        Err(MapsError::NoAddrs)
    );
    assert_eq!(find_executable_map_in("10-20\n"), Err(MapsError::NoPerms));
    assert_eq!(
        find_executable_map_in("10-20 r-xp 0\n"),
        Err(MapsError::ShortLine)
    );
    assert_eq!(
        find_executable_map_in("1020 r-xp 0 08:02 1 /a\n"),
        Err(MapsError::NoDash)
    );
    assert_eq!(
        find_executable_map_in("10-2z r-xp 0 08:02 1 /a\n"),
        Err(MapsError::BadNumber)
    );
}

#[test]
fn trap_opcode_detection() {
    assert!(is_software_trap(0xcc));
    assert!(is_software_trap(0x90909090_909090cc));
    assert!(!is_software_trap(0x90));
    assert!(!is_software_trap(0xcc00));
}
