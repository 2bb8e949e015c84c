use sherlock::maps::parse_maps;
use sherlock::maps::parse_range;
use sherlock::maps::Region;
use sherlock::paths::plain_path;
use sherlock::resolver::Resolver;
use sherlock::resolver::Step;
use sherlock::symbols::compute_load_base;
use sherlock::symbols::frame_label;
use sherlock::symbols::load_base;
use sherlock::symbols::names_from;
use sherlock::symbols::RawFrame;

#[test]
fn parse_range_handles_hex_bounds() {
    assert_eq!(parse_range("5500-5600"), Some((0x5500, 0x5600)));
    assert_eq!(parse_range("garbage"), None);
}

#[test]
fn ranges_at_the_edge() {
    assert_eq!(parse_range("0-ffffffffffffffff"), Some((0, u64::MAX)));
    assert_eq!(parse_range("0-10000000000000000"), None);
    assert_eq!(parse_range("-5"), None);
    assert_eq!(parse_range("5-"), None);
    assert_eq!(parse_range("1-2-3"), None);
    assert_eq!(parse_range("AB-cd"), Some((0xab, 0xcd)));
}

#[test]
fn path_for_dispatches_to_the_containing_region() {
    let resolver = Resolver::from_regions(vec![
        Region {
            start: 0x1000,
            end: 0x2000,
            path: "/a".to_string(),
        },
        Region {
            start: 0x3000,
            end: 0x4000,
            path: "/b".to_string(),
        },
    ]);

    assert_eq!(resolver.path_for(0x1500), Some("/a".to_string()));
    assert_eq!(resolver.path_for(0x3000), Some("/b".to_string()));
    assert_eq!(resolver.path_for(0x3fff), Some("/b".to_string()));
    assert_eq!(resolver.path_for(0x2500), None);
    assert_eq!(resolver.path_for(0x9000), None);
    assert_eq!(resolver.path_for(0x0500), None);
}

const MAPS: &str = "\
7f00-7f80 r--p 00000000 08:01 11 /lib/libc.so.6
5000-5100 r-xp 00001000 08:01 22    /usr/bin/app
4000-5000 r--p 00000000 08:01 22    /usr/bin/app
6000-6100 rw-p 00000000 00:00 0
6100-6200 rw-p 00000000 00:00 0 [heap]
8000-8100 r--p 00000000 08:01 33 /tmp/gone (deleted)
zzzz-9100 r--p 00000000 08:01 44 /odd\r
";

#[test]
fn maps_list_the_mapped_files_only() {
    let regions = parse_maps(MAPS);
    let found: Vec<(u64, u64, &str)> =
        regions.iter().map(|r| (r.start, r.end, r.path.as_str())).collect();
    assert_eq!(
        found,
        vec![
            (0x7f00, 0x7f80, "/lib/libc.so.6"),
            (0x5000, 0x5100, "/usr/bin/app"),
            (0x4000, 0x5000, "/usr/bin/app"),
        ]
    );
    assert!(parse_maps("").is_empty());
    assert!(parse_maps("\n\n   \n").is_empty());
    assert_eq!(parse_maps("1-2 a b c d /x\r\n3-4 a b c d /y").len(), 2);
}

#[test]
fn an_address_is_resolved_step_by_step() {
    let mut r = Resolver::new(MAPS);
    assert_eq!(r.path_for(0x5080), Some("/usr/bin/app".to_string()));
    match r.step(0x5080) {
        Step::Load { path, lowest_start } => {
            assert_eq!(path, "/usr/bin/app");
            assert_eq!(lowest_start, 0x4000);
        }
        _ => panic!("the file has not been read"),
    }
    r.file_loaded("/usr/bin/app", Some(0x4000));
    match r.step(0x5080) {
        Step::Find { path, static_addr } => {
            assert_eq!(path, "/usr/bin/app");
            assert_eq!(static_addr, 0x1080);
        }
        _ => panic!("the address has not been looked up"),
    }
    assert!(r.resolve(0x5080).is_empty());
    r.answer(0x5080, Vec::new(), Some("start".to_string()));
    assert!(matches!(r.step(0x5080), Step::Done));
    assert_eq!(r.resolve(0x5080), vec!["start"]);
}

#[test]
fn a_file_is_tried_once() {
    let mut r = Resolver::new(MAPS);
    r.file_loaded("/lib/libc.so.6", None);
    assert!(matches!(r.step(0x7f10), Step::Done));
    r.file_loaded("/lib/libc.so.6", Some(0));
    assert!(matches!(r.step(0x7f10), Step::Done));
    r.file_loaded("/not/mapped", Some(0));
    assert!(matches!(r.step(0x6000), Step::Done));
    r.file_loaded("/usr/bin/app", Some(0x6000));
    assert!(matches!(r.step(0x5080), Step::Done));
}

#[test]
fn labels_name_function_and_location() {
    let some = |s: &str| Some(s.to_string());
    assert_eq!(frame_label(some("f"), some("a.c"), Some(7)), some("f (a.c:7)"));
    assert_eq!(frame_label(some("f"), None, Some(7)), some("f (?:7)"));
    assert_eq!(frame_label(some("f"), some("a.c"), None), some("f"));
    assert_eq!(frame_label(None, some("a.c"), Some(7)), some("a.c:7"));
    assert_eq!(frame_label(None, some("a.c"), None), None);
}

fn raw(name: Option<&str>, language: Option<u16>, line: Option<u32>) -> RawFrame {
    RawFrame {
        name: name.map(|n| n.to_string()),
        language,
        file: Some("src/x".to_string()),
        line,
    }
}

#[test]
fn names_are_demangled_by_language() {
    let mangled = "_ZN4core3fmt5Write9write_fmt17h0123456789abcdefE";
    let names = names_from(
        vec![
            raw(Some(mangled), Some(0x1c), Some(3)),
            raw(Some("_Z3fooi"), Some(0x04), None),
            raw(Some("_Z3fooi"), Some(0x02), None),
            raw(Some("_Z3fooi"), None, None),
            raw(None, None, None),
            raw(None, None, Some(9)),
        ],
        Some("unused".to_string()),
    );
    assert_eq!(
        names,
        vec![
            "core::fmt::Write::write_fmt (src/x:3)",
            "foo(int)",
            "_Z3fooi",
            "foo(int)",
            "src/x:9",
        ]
    );
    assert_eq!(names_from(vec![raw(None, None, None)], Some("sym".to_string())), vec!["sym"]);
    assert!(names_from(Vec::new(), None).is_empty());
}

#[test]
fn the_load_base_undoes_the_mapping() {
    assert_eq!(load_base(&vec![0x400000, 0x401000], 0x400000), 0);
    assert_eq!(load_base(&vec![0x2000, 0], 0x7f00_0000), 0x7f00_0000);
    assert_eq!(load_base(&vec![0x1000], 0x7f00_1000), 0x7f00_0000);
    assert_eq!(load_base(&vec![], 0x5000), 0x5000);
    assert_eq!(load_base(&vec![0x9000], 0x5000), 0);
}

/// A little-endian 64-bit ELF file with one loaded segment per address.
fn elf(addresses: &[u64]) -> Vec<u8> {
    let mut out = vec![0x7f, b'E', b'L', b'F', 2, 1, 1, 0];
    out.extend([0u8; 8]);
    out.extend(3u16.to_le_bytes());
    out.extend(62u16.to_le_bytes());
    out.extend(1u32.to_le_bytes());
    out.extend(0u64.to_le_bytes());
    out.extend(64u64.to_le_bytes());
    out.extend(0u64.to_le_bytes());
    out.extend(0u32.to_le_bytes());
    out.extend(64u16.to_le_bytes());
    out.extend(56u16.to_le_bytes());
    out.extend((addresses.len() as u16).to_le_bytes());
    out.extend(64u16.to_le_bytes());
    out.extend(0u16.to_le_bytes());
    out.extend(0u16.to_le_bytes());
    for &address in addresses {
        out.extend(1u32.to_le_bytes());
        out.extend(4u32.to_le_bytes());
        out.extend(0u64.to_le_bytes());
        out.extend(address.to_le_bytes());
        out.extend(address.to_le_bytes());
        out.extend(0u64.to_le_bytes());
        out.extend(0u64.to_le_bytes());
        out.extend(0x1000u64.to_le_bytes());
    }
    out
}

#[test]
fn segments_are_read_from_the_file() {
    assert_eq!(compute_load_base(&elf(&[0x402000, 0x400000]), 0x400000), Ok(0));
    assert_eq!(compute_load_base(&elf(&[0]), 0x5555_0000), Ok(0x5555_0000));
    assert_eq!(compute_load_base(&elf(&[]), 0x5555_0000), Ok(0x5555_0000));
    let moved = compute_load_base(&elf(&[0x3000]), 0x5555_3000).unwrap();
    assert_eq!(0x5555_4242 - moved, 0x4242);
}

#[test]
fn a_file_that_is_no_object_is_an_error() {
    let message = compute_load_base(b"#!/bin/sh\necho no object file at all\n", 0x1000).unwrap_err();
    assert!(!message.is_empty());
    assert!(compute_load_base(&[], 0x1000).is_err());
}

#[test]
fn a_path_may_hold_blanks() {
    let r = Resolver::new("1000-2000 r-xp 00000000 08:01 7 /opt/my app/x\n");
    assert_eq!(r.path_for(0x1800), Some("/opt/my app/x".to_string()));
    let text = "1000-2000 r-xp 0 08:01 7                  /opt/my app/x\n\
                2000-3000 r-xp 0 08:01 8                  /opt/my other\n\
                3000-4000 r-xp 0 08:01 9                  /opt/my gone (deleted)\n";
    let mut r = Resolver::new(text);
    assert_eq!(r.path_for(0x2800), Some("/opt/my other".to_string()));
    assert_eq!(r.path_for(0x3800), None);
    r.file_loaded("/opt/my app/x", None);
    match r.step(0x2800) {
        Step::Load { path, lowest_start } => {
            assert_eq!(path, "/opt/my other");
            assert_eq!(lowest_start, 0x2000);
        }
        _ => panic!("each file is read for itself"),
    }
}

#[test]
fn spellings_of_one_path_are_one_file() {
    assert_eq!(plain_path("/a//b/./c/"), "/a/b/c");
    assert_eq!(plain_path("//"), "/");
    assert_eq!(plain_path("/./.a/../b"), "/.a/../b");
    assert_eq!(plain_path("./a/."), "./a");
    assert_eq!(plain_path(""), "");
    for (a, b) in [("/a/b", "/a//b"), ("/a/b", "/a/b/."), ("./a", "a"), ("/a", "a"), ("/a/..", "/")] {
        let same = std::path::Path::new(a) == std::path::Path::new(b);
        assert_eq!(plain_path(a) == plain_path(b), same);
    }

    let text = "1000-2000 r-xp 0 08:01 7 /a/b\n3000-4000 r-xp 0 08:01 7 /a//b\n";
    let mut r = Resolver::new(text);
    assert_eq!(r.path_for(0x3800), Some("/a//b".to_string()));
    match r.step(0x3800) {
        Step::Load { path, lowest_start } => {
            assert_eq!(path, "/a//b");
            assert_eq!(lowest_start, 0x1000);
        }
        _ => panic!("the file has not been read"),
    }
    r.file_loaded("/a/b", Some(0x1000));
    match r.step(0x3800) {
        Step::Find { static_addr, .. } => assert_eq!(static_addr, 0x2800),
        _ => panic!("the file has been read"),
    }
}
