use class_walker::module::{CallbackContext, Module, ModuleInfo, Segment, LOADABLE_SEGMENT};
use class_walker::pattern::{first_match, parse_pattern, regex_source_of};

fn module_at(address: usize, size: usize) -> Module {
    Module { address, size, name: String::from("libtarget.so") }
}

#[test]
fn parses_bytes_and_wildcards() {
    assert_eq!(
        parse_pattern("AA bb ? ?? 0f"),
        Some(vec![Some(0xAA), Some(0xBB), None, None, Some(0x0F)])
    );
    assert_eq!(parse_pattern("  \t "), Some(vec![]));
}

#[test]
fn rejects_malformed_tokens() {
    assert_eq!(parse_pattern("AA ZZ"), None);
    assert_eq!(parse_pattern("AAA"), None);
    assert_eq!(parse_pattern("A"), None);
    assert_eq!(parse_pattern("???"), None);
}

#[test]
fn writes_the_search_expression() {
    let pat = vec![Some(0x4A), None, Some(0x05)];
    assert_eq!(regex_source_of(&pat), b"(?s-u)\\x4A.\\x05".to_vec());
}

#[test]
fn end_to_end_signature_example() {
    let pat = parse_pattern("AA BB ? ? CC").unwrap();
    assert_eq!(first_match(&pat, &[0xAA, 0xBB, 0x01, 0x02, 0xCC, 0xDD]), Some(0));
    assert_eq!(first_match(&pat, &[0xAA, 0xBB, 0x01, 0x02, 0xCE]), None);

    let m = module_at(0x4000, 6);
    let mem = [0xAA, 0xBB, 0x01, 0x02, 0xCC, 0xDD];
    assert_eq!(m.find_pattern(&mem, "AA BB ? ? CC"), Some(0x4000));
    let m5 = module_at(0x4000, 5);
    assert_eq!(m5.find_pattern(&[0xAA, 0xBB, 0x01, 0x02, 0xCE], "AA BB ? ? CC"), None);
}

#[test]
fn exact_pattern_finds_lowest_occurrence() {
    let pat = parse_pattern("01 02").unwrap();
    assert_eq!(first_match(&pat, &[0x00, 0x01, 0x02, 0x01, 0x02]), Some(1));
    assert_eq!(first_match(&pat, &[0x02, 0x01, 0x00, 0x01]), None);
    assert_eq!(first_match(&pat, &[]), None);
}

#[test]
fn wildcard_matches_every_byte_value() {
    let pat = parse_pattern("10 ? 30").unwrap();
    for b in 0u16..=255 {
        let hay = [0x00, 0x10, b as u8, 0x30];
        assert_eq!(first_match(&pat, &hay), Some(1));
    }
    assert_eq!(first_match(&pat, &[0x10, 0x20, 0x31]), None);
}

#[test]
fn module_find_pattern_returns_address() {
    let m = module_at(0x7000, 8);
    let mem = [0x91, 0x48, 0x8B, 0x05, 0x11, 0x22, 0x33, 0x44];
    assert_eq!(m.find_pattern(&mem, "48 8B 05 ? ? ? ?"), Some(0x7001));
    assert_eq!(m.find_pattern(&mem, "48 8B ZZ"), None);
    assert_eq!(m.find_pattern(&mem, "48 8C"), None);
}

#[test]
fn module_size_is_page_rounded_end_of_loadable_segments() {
    let info = ModuleInfo {
        address: 0x10000,
        name: Some(String::from("libfoo.so")),
        segments: vec![
            Segment { kind: LOADABLE_SEGMENT, vaddr: 0, memsz: 0x1234 },
            Segment { kind: LOADABLE_SEGMENT, vaddr: 0x2000, memsz: 0x10 },
            Segment { kind: 2, vaddr: 0, memsz: 0x99999 },
        ],
    };
    let m = Module::new(&info, 0x1000).unwrap();
    assert_eq!(m.address, 0x10000);
    assert_eq!(m.size, 0x3000);
    assert_eq!(m.name, "libfoo.so");

    let aligned = ModuleInfo {
        address: 0,
        name: Some(String::new()),
        segments: vec![Segment { kind: LOADABLE_SEGMENT, vaddr: 0x1000, memsz: 0x1000 }],
    };
    assert_eq!(Module::new(&aligned, 0x1000).unwrap().size, 0x2000);
}

#[test]
fn module_without_name_or_loadable_segment_is_skipped() {
    let unnamed = ModuleInfo {
        address: 0,
        name: None,
        segments: vec![Segment { kind: LOADABLE_SEGMENT, vaddr: 0, memsz: 1 }],
    };
    assert!(Module::new(&unnamed, 4096).is_none());
    let empty = ModuleInfo { address: 0, name: Some(String::from("x")), segments: vec![] };
    assert!(Module::new(&empty, 4096).is_none());
    let wraps = ModuleInfo {
        address: 0,
        name: Some(String::from("x")),
        segments: vec![Segment { kind: LOADABLE_SEGMENT, vaddr: usize::MAX - 1, memsz: 1 }],
    };
    assert!(Module::new(&wraps, 4096).is_none());
}

#[test]
fn registry_sizes_are_page_multiples_and_newest_first() {
    let mut ctx = CallbackContext::new(4096);
    let infos = [("first.so", 0x10), ("", 0x2001), ("target_client.so", 0x5000)];
    for (name, memsz) in infos.iter() {
        let info = ModuleInfo {
            address: 0x100000,
            name: Some(String::from(*name)),
            segments: vec![Segment { kind: LOADABLE_SEGMENT, vaddr: 0, memsz: *memsz }],
        };
        assert!(ctx.add_module(&info));
    }
    let skipped = ModuleInfo { address: 0, name: None, segments: vec![] };
    assert!(!ctx.add_module(&skipped));
    assert_eq!(ctx.modules.len(), 3);
    for m in ctx.modules.iter() {
        assert_eq!(m.size % 4096, 0);
    }
    assert_eq!(ctx.modules[0].name, "target_client.so");
    assert_eq!(ctx.modules[2].name, "first.so");
    assert_eq!(ctx.modules[1].size, 0x3000);
    assert_eq!(ctx.find_module("client.so"), Some(0));
    assert_eq!(ctx.find_module("missing.so"), None);
}

#[test]
fn find_pattern_returns_lowest_of_two_matches() {
    let m = module_at(0x9000, 5);
    let mem = [0x00, 0xAA, 0xBB, 0xAA, 0xBB];
    assert_eq!(m.find_pattern(&mem, "AA BB"), Some(0x9001));
    assert_eq!(m.find_pattern(&mem, "AA ?"), Some(0x9001));
    assert_eq!(m.find_pattern(&mem, "? BB"), Some(0x9001));
}
