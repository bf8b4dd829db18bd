use memscan::{
    binary_search, capture_block, compare_values, decode_block, decode_hex, encode_hex,
    frame_reads, parse_pc, parse_region_line, plan_scan, read_le, regex_is_match, resolve_step,
    summarize, watch_type_code, Candidate, DataType, FilterError, FilterMethod, FindType,
    MemoryFilterRequest, MemoryScanRequest, ModuleInfo, ResolveError, ResolveStep, ScanError,
    SessionStore,
};

fn req(pattern: &str, ranges: Vec<(usize, usize)>, find: &str, dt: &str, align: usize) -> MemoryScanRequest {
    MemoryScanRequest {
        pattern: pattern.to_string(),
        address_ranges: ranges,
        find_type: find.to_string(),
        data_type: dt.to_string(),
        scan_id: "id".to_string(),
        align,
        return_as_json: true,
        do_suspend: false,
    }
}

fn scan_mem(r: &MemoryScanRequest, mem: &[u8]) -> Vec<(usize, String)> {
    let plan = match plan_scan(r) {
        Ok(p) => p,
        Err(_) => panic!("plan refused"),
    };
    let reads: Vec<Option<Vec<u8>>> =
        plan.chunks.iter().map(|c| Some(mem[c.start..c.start + c.read_len].to_vec())).collect();
    let mut store = SessionStore::new();
    let res = store.scan(&r.scan_id, plan, &reads);
    res.matched_addresses.iter().map(|c| (c.address, c.value.clone())).collect()
}

#[test]
fn hex_encode_and_decode() {
    assert_eq!(encode_hex(&[0xde, 0xad, 0x01]), "dead01");
    assert_eq!(decode_hex("DeAd01"), Some(vec![0xde, 0xad, 0x01]));
    assert_eq!(decode_hex("abc"), None);
    assert_eq!(decode_hex("zz"), None);
    let x = vec![0u8, 1, 0x7f, 0x80, 0xff];
    let h = encode_hex(&x);
    assert_eq!(encode_hex(&decode_hex(&h).unwrap()), h);
}

#[test]
fn binary_search_overlapping_and_stepped() {
    let buf = [1u8, 1, 1, 2, 1, 1];
    assert_eq!(binary_search(&buf, &[1, 1], 1), vec![0, 1, 4]);
    assert_eq!(binary_search(&buf, &[1, 1], 2), vec![0, 4]);
    assert_eq!(binary_search(&buf, &[3], 1), Vec::<usize>::new());
    assert_eq!(binary_search(&[], &[3], 1), Vec::<usize>::new());
}

#[test]
fn little_endian_reading() {
    assert_eq!(read_le(&[0x78, 0x56, 0x34, 0x12]), 0x12345678);
    assert_eq!(read_le(&[0xff; 8]), u64::MAX);
    assert_eq!(read_le(&[]), 0);
}

#[test]
fn integer_comparisons() {
    let minus_one = (-1i32).to_le_bytes();
    let plus_one = 1i32.to_le_bytes();
    assert!(compare_values(DataType::Int32, FilterMethod::Increased, &minus_one, &plus_one));
    assert!(!compare_values(DataType::Uint32, FilterMethod::Increased, &minus_one, &plus_one));
    assert!(compare_values(DataType::Uint32, FilterMethod::Decreased, &minus_one, &plus_one));
    assert!(compare_values(DataType::Int8, FilterMethod::Changed, &[0x80], &[0x7f]));
    assert!(compare_values(DataType::Int8, FilterMethod::Increased, &[0x80], &[0x7f]));
    assert!(!compare_values(DataType::Int32, FilterMethod::Unchanged, &[1, 0], &[1, 0]));
    assert!(compare_values(DataType::Uint16, FilterMethod::Unchanged, &[1, 2], &[1, 2]));
    assert!(!compare_values(DataType::Int64, FilterMethod::Exact, &[0; 8], &[0; 8]));
}

#[test]
fn float_comparisons_and_nan() {
    let nan = f32::NAN.to_le_bytes();
    let one = 1.0f32.to_le_bytes();
    let two = 2.0f32.to_le_bytes();
    let neg = (-3.5f32).to_le_bytes();
    assert!(!compare_values(DataType::Float, FilterMethod::Unchanged, &nan, &nan));
    assert!(compare_values(DataType::Float, FilterMethod::Changed, &nan, &nan));
    assert!(!compare_values(DataType::Float, FilterMethod::Increased, &one, &nan));
    assert!(!compare_values(DataType::Float, FilterMethod::Decreased, &nan, &one));
    assert!(compare_values(DataType::Float, FilterMethod::Increased, &one, &two));
    assert!(compare_values(DataType::Float, FilterMethod::Decreased, &one, &neg));
    assert!(compare_values(DataType::Float, FilterMethod::Unchanged, &0.0f32.to_le_bytes(), &(-0.0f32).to_le_bytes()));
    let dn = f64::NAN.to_le_bytes();
    assert!(!compare_values(DataType::Double, FilterMethod::Unchanged, &dn, &dn));
    assert!(compare_values(DataType::Double, FilterMethod::Increased, &(-1.0f64).to_le_bytes(), &f64::INFINITY.to_le_bytes()));
}

#[test]
fn text_and_byte_comparisons() {
    assert!(compare_values(DataType::Utf8, FilterMethod::Unchanged, "héllo".as_bytes(), "héllo".as_bytes()));
    assert!(compare_values(DataType::Utf8, FilterMethod::Changed, b"abc", b"abd"));
    assert!(compare_values(DataType::Utf8, FilterMethod::Unchanged, &[0xff], &[0xff]));
    assert!(compare_values(DataType::Utf8, FilterMethod::Changed, &[0xff], b"a"));
    assert!(!compare_values(DataType::Utf8, FilterMethod::Unchanged, &[0xff], &[0xfe]));
    assert!(compare_values(DataType::Utf16, FilterMethod::Unchanged, &[1, 0, 9], &[1, 0, 7]));
    assert!(compare_values(DataType::Aob, FilterMethod::Changed, &[1, 0, 9], &[1, 0, 7]));
    assert!(!compare_values(DataType::Aob, FilterMethod::Increased, &[1], &[2]));
}

#[test]
fn type_names() {
    assert_eq!(DataType::from_name("utf-16"), Some(DataType::Utf16));
    assert_eq!(DataType::from_name("int"), None);
    assert_eq!(DataType::Double.width(), 8);
    assert_eq!(DataType::Aob.width(), 1);
    assert_eq!(FindType::from_name("unknown"), Some(FindType::Unknown));
    assert_eq!(FilterMethod::from_name("decreased"), Some(FilterMethod::Decreased));
    assert_eq!(FilterMethod::from_name("bigger"), None);
}

#[test]
fn plan_errors() {
    assert!(matches!(plan_scan(&req("00", vec![], "exact", "int128", 1)), Err(ScanError::UnknownDataType)));
    assert!(matches!(plan_scan(&req("00", vec![], "fuzzy", "int8", 1)), Err(ScanError::UnknownFindType)));
    assert!(matches!(plan_scan(&req("00", vec![(9, 3)], "exact", "int8", 1)), Err(ScanError::InvalidRange)));
    let p = match plan_scan(&req("00", vec![(0, 10)], "exact", "int32", 0)) {
        Ok(p) => p,
        Err(_) => panic!("plan refused"),
    };
    assert_eq!(p.align, 4);
}

#[test]
fn default_alignment_is_type_width() {
    let mut mem = vec![0u8; 64];
    mem[6..10].copy_from_slice(&[0xaa, 0xbb, 0xcc, 0xdd]);
    mem[16..20].copy_from_slice(&[0xaa, 0xbb, 0xcc, 0xdd]);
    let found = scan_mem(&req("aabbccdd", vec![(0, 64)], "exact", "int32", 0), &mem);
    assert_eq!(found, vec![(16, "aabbccdd".to_string())]);
    let found = scan_mem(&req("aabbccdd", vec![(0, 64)], "exact", "int32", 1), &mem);
    assert_eq!(found.iter().map(|p| p.0).collect::<Vec<_>>(), vec![6, 16]);
}

#[test]
fn every_candidate_is_aligned() {
    let mem = vec![0u8; 256];
    for align in [1usize, 2, 3, 4, 8] {
        let found = scan_mem(&req("0000", vec![(5, 250)], "exact", "int16", align), &mem);
        assert!(!found.is_empty());
        assert!(found.iter().all(|(a, _)| a % align == 0));
    }
}

#[test]
fn invalid_patterns_find_nothing() {
    let mem = vec![0u8; 32];
    assert!(scan_mem(&req("0g", vec![(0, 32)], "exact", "aob", 1), &mem).is_empty());
    assert!(scan_mem(&req("(", vec![(0, 32)], "exact", "regex", 1), &mem).is_empty());
}

fn freq(pattern: &str, dt: &str, id: &str, m: &str) -> MemoryFilterRequest {
    MemoryFilterRequest {
        pattern: pattern.to_string(),
        data_type: dt.to_string(),
        scan_id: id.to_string(),
        filter_method: m.to_string(),
        return_as_json: false,
        do_suspend: false,
    }
}

fn store_with(cands: Vec<(usize, &str)>) -> SessionStore {
    let r = req("00", vec![], "exact", "uint8", 1);
    let plan = match plan_scan(&r) {
        Ok(p) => p,
        Err(_) => panic!("plan refused"),
    };
    let mut store = SessionStore::new();
    store.scan(&"id".to_string(), plan, &vec![]);
    store.sessions[0].candidates =
        cands.into_iter().map(|(a, v)| Candidate { address: a, value: v.to_string() }).collect();
    store
}

#[test]
fn filter_errors() {
    let mut store = store_with(vec![(8, "01")]);
    let one = vec![Some(vec![1u8])];
    assert!(matches!(store.filter(&freq("", "uint8", "nope", "changed"), &one), Err(FilterError::ScanIdNotFound)));
    assert!(matches!(store.filter(&freq("", "uint9", "id", "changed"), &one), Err(FilterError::UnknownDataType)));
    assert!(matches!(store.filter(&freq("", "uint8", "id", "moved"), &one), Err(FilterError::UnknownFilterMethod)));
    assert!(matches!(store.filter(&freq("xy", "uint8", "id", "exact"), &one), Err(FilterError::InvalidHex)));
    assert!(matches!(store.filter(&freq("", "uint8", "id", "changed"), &vec![]), Err(FilterError::ReadsMismatch)));
    let mut bad = store_with(vec![(8, "0")]);
    assert!(matches!(bad.filter(&freq("", "uint8", "id", "changed"), &one), Err(FilterError::InvalidHex)));
    assert_eq!(store.sessions[0].candidates[0].value, "01");
}

#[test]
fn filter_keeps_a_subset() {
    let mut store = store_with(vec![(8, "01"), (9, "02"), (10, "03"), (11, "04")]);
    let reads = vec![Some(vec![1u8]), Some(vec![5u8]), None, Some(vec![4u8])];
    let res = match store.filter(&freq("", "uint8", "id", "unchanged"), &reads) {
        Ok(r) => r,
        Err(_) => panic!("filter failed"),
    };
    let got: Vec<(usize, String)> = res.matched_addresses.iter().map(|c| (c.address, c.value.clone())).collect();
    assert_eq!(got, vec![(8, "01".to_string()), (11, "04".to_string())]);
    assert_eq!(res.found, 2);
    let res = match store.filter(&freq("04", "uint8", "id", "exact"), &vec![Some(vec![3u8]), Some(vec![4u8])]) {
        Ok(r) => r,
        Err(_) => panic!("filter failed"),
    };
    assert_eq!(res.matched_addresses.len(), 1);
    assert_eq!(res.matched_addresses[0].address, 11);
}

#[test]
fn unchanged_memory_keeps_every_candidate() {
    let mut store = store_with(vec![(0, "0a000000"), (4, "FFFFFFFF"), (8, "00000080")]);
    let reads = vec![Some(vec![10, 0, 0, 0]), Some(vec![0xff; 4]), Some(vec![0, 0, 0, 0x80])];
    let res = match store.filter(&freq("", "int32", "id", "unchanged"), &reads) {
        Ok(r) => r,
        Err(_) => panic!("filter failed"),
    };
    let addrs: Vec<usize> = res.matched_addresses.iter().map(|c| c.address).collect();
    assert_eq!(addrs, vec![0, 4, 8]);
    assert_eq!(res.matched_addresses[1].value, "ffffffff");
}

#[test]
fn regex_filter_on_fresh_bytes() {
    let mut store = store_with(vec![(0, "6869"), (2, "6869")]);
    let reads = vec![Some(b"hi".to_vec()), Some(b"ho".to_vec())];
    let res = match store.filter(&freq("h[i]", "regex", "id", "changed"), &reads) {
        Ok(r) => r,
        Err(_) => panic!("filter failed"),
    };
    assert_eq!(res.matched_addresses.len(), 1);
    assert_eq!(res.matched_addresses[0].address, 0);
    assert!(regex_is_match("o$", b"ho"));
    assert!(!regex_is_match("[", b"ho"));
}

#[test]
fn summary_caps_and_rounds() {
    let many: Vec<Candidate> = (0..100_005).map(|i| Candidate { address: i, value: String::new() }).collect();
    let r = summarize(many, 100_005, false);
    assert_eq!(r.matched_addresses.len(), 100_000);
    assert!(r.is_rounded);
    let few: Vec<Candidate> = (0..3).map(|i| Candidate { address: i, value: String::new() }).collect();
    let r = summarize(few, 3, false);
    assert!(!r.is_rounded);
    assert_eq!(r.matched_addresses.len(), r.found);
    let r = summarize(Vec::new(), 2_000_000, true);
    assert!(r.is_rounded);
    let r = summarize(Vec::new(), 500_000, true);
    assert!(r.is_rounded);
    let r = summarize(Vec::new(), 0, true);
    assert!(!r.is_rounded);
}

#[test]
fn snapshot_blocks_round_trip() {
    let data: Vec<u8> = (0..5000u32).map(|i| (i % 7) as u8).collect();
    let b = capture_block(0x9000, &data);
    assert_ne!(b.compressed_data, data);
    assert_eq!(b.uncompressed_data_size, 5000);
    assert_eq!(decode_block(&b), Some(data));
}

#[test]
fn read_frames_layout() {
    let reads = vec![Some(vec![7u8; 100]), None];
    let out = frame_reads(&reads);
    assert_eq!(&out[0..4], &[1, 0, 0, 0]);
    let n = u32::from_le_bytes([out[4], out[5], out[6], out[7]]) as usize;
    let body = &out[8..8 + n];
    assert_eq!(lz4_flex::block::decompress_size_prepended(body).unwrap(), vec![7u8; 100]);
    assert_eq!(&out[8 + n..], &[0, 0, 0, 0]);
}

#[test]
fn watch_types() {
    assert_eq!(watch_type_code("r"), Some(1));
    assert_eq!(watch_type_code("w"), Some(2));
    assert_eq!(watch_type_code("a"), None);
    assert_eq!(watch_type_code("rw"), Some(3));
    assert_eq!(watch_type_code("x"), None);
}

#[test]
fn program_counter_text() {
    assert_eq!(parse_pc("0x1f00"), Some(0x1f00));
    assert_eq!(parse_pc("DEAD"), Some(0xdead));
    assert_eq!(parse_pc("0x"), None);
    assert_eq!(parse_pc("0x10000000000000000"), None);
    assert_eq!(parse_pc("12g"), None);
}

#[test]
fn region_lines() {
    let r = parse_region_line("7f00-7f80 r-xp 00000000 08:01 1234   /usr/lib/my lib.so").unwrap();
    assert_eq!(r.start_address, "7f00");
    assert_eq!(r.end_address, "7f80");
    assert_eq!(r.protection, "r-xp");
    assert_eq!(r.file_path, Some("/usr/lib/my lib.so".to_string()));
    let r = parse_region_line("1000-2000 rw-p 0 00:00 0").unwrap();
    assert_eq!(r.file_path, None);
    assert!(parse_region_line("1000-2000 rw-p 0 00:00").is_none());
    assert!(parse_region_line("1000 rw-p 0 00:00 0").is_none());
    assert!(parse_region_line("1-2-3 rw-p 0 00:00 0").is_none());
    let r = parse_region_line("a-b\x0cr--p\x0b0 0:0 0 /x").unwrap();
    assert_eq!(r.protection, "r--p");
    assert_eq!(r.file_path, Some("/x".to_string()));
}

#[test]
fn resolver_arithmetic_and_errors() {
    let mods = vec![
        ModuleInfo { base: 0x4000, size: 1, is_64bit: true, modulename: "C:\\app\\Main.EXE".to_string() },
        ModuleInfo { base: 0x9000, size: 1, is_64bit: true, modulename: "libc.so".to_string() },
    ];
    let none: Vec<u64> = vec![];
    assert_eq!(resolve_step(" main.exe + 0x10 - 2 ", &mods, &none), ResolveStep::Done(0x400e));
    assert_eq!(resolve_step("LIBC.SO+16", &mods, &none), ResolveStep::Done(0x9010));
    assert_eq!(resolve_step("0-1", &mods, &none), ResolveStep::Done(u64::MAX));
    assert_eq!(resolve_step("nothere+1", &mods, &none), ResolveStep::Failed(ResolveError::UnknownModule));
    assert_eq!(resolve_step("0x1g", &mods, &none), ResolveStep::Failed(ResolveError::InvalidNumber));
    assert_eq!(resolve_step("[0x10", &mods, &none), ResolveStep::Failed(ResolveError::UnbalancedBrackets));
    assert_eq!(resolve_step("1+", &mods, &none), ResolveStep::Failed(ResolveError::MissingTerm));
    assert_eq!(resolve_step("[[8]+1]", &mods, &none), ResolveStep::Read(8));
    assert_eq!(resolve_step("[[8]+1]", &mods, &vec![100]), ResolveStep::Read(101));
    assert_eq!(resolve_step("[[8]+1]", &mods, &vec![100, 5]), ResolveStep::Done(5));
}

#[test]
fn directory_listing_entries() {
    let text = "dir:root\n  file:a.txt,10,1700\n  dir:sub\n    file:b,x,-5\r\nfile:top,1,2\nbogus\n  file:bad,1\n";
    let items = memscan::parse_directory_structure(text);
    let view: Vec<(String, String, Option<i64>, Option<i64>, Option<usize>)> = items
        .iter()
        .map(|f| (f.item_type.clone(), f.name.clone(), f.size, f.last_opened, f.parent))
        .collect();
    assert_eq!(
        view,
        vec![
            ("directory".to_string(), "root".to_string(), None, None, None),
            ("file".to_string(), "a.txt".to_string(), Some(10), Some(1700), Some(0)),
            ("directory".to_string(), "sub".to_string(), None, None, Some(0)),
            ("file".to_string(), "b".to_string(), None, Some(-5), Some(2)),
            ("file".to_string(), "top".to_string(), Some(1), Some(2), None),
        ]
    );
    assert!(memscan::parse_directory_structure("").is_empty());
}

#[test]
fn release_and_read_targets() {
    let mut store = store_with(vec![(8, "0102"), (12, "03")]);
    assert_eq!(store.read_targets("id", "aob"), Some(vec![(8, 2), (12, 1)]));
    assert_eq!(store.read_targets("id", "int32"), Some(vec![(8, 4), (12, 4)]));
    assert_eq!(store.read_targets("id", "uint16"), Some(vec![(8, 2), (12, 2)]));
    assert_eq!(store.read_targets("other", "aob"), None);
    assert!(store.release("id"));
    assert!(!store.release("id"));
    assert_eq!(store.read_targets("id", "aob"), None);
}

#[test]
fn unchanged_snapshot_keeps_every_aligned_offset() {
    let mem: Vec<u8> = (0..40u8).collect();
    let r = MemoryScanRequest {
        pattern: String::new(),
        address_ranges: vec![(0x1002, 0x1002 + 40)],
        find_type: "unknown".to_string(),
        data_type: "int32".to_string(),
        scan_id: "snap".to_string(),
        align: 0,
        return_as_json: true,
        do_suspend: false,
    };
    let plan = match plan_scan(&r) {
        Ok(p) => p,
        Err(_) => panic!("plan refused"),
    };
    let mut store = SessionStore::new();
    let res = store.scan(&r.scan_id, plan, &vec![Some(mem.clone())]);
    assert_eq!(res.found, 10);
    assert_eq!(store.read_targets("snap", "int32"), Some(vec![(0x1002, 40)]));
    let res = match store.filter(&freq("", "int32", "snap", "unchanged"), &vec![Some(mem.clone())]) {
        Ok(r) => r,
        Err(_) => panic!("filter failed"),
    };
    let addrs: Vec<usize> = res.matched_addresses.iter().map(|c| c.address).collect();
    assert_eq!(addrs, vec![0x1004, 0x1008, 0x100c, 0x1010, 0x1014, 0x1018, 0x101c, 0x1020, 0x1024]);
    assert_eq!(res.matched_addresses[0].value, "02030405");
    assert!(addrs.iter().all(|a| a % 4 == 0));
}

#[test]
fn failed_reads_leave_snapshot_blocks() {
    let r = MemoryScanRequest {
        pattern: String::new(),
        address_ranges: vec![(0, 16)],
        find_type: "unknown".to_string(),
        data_type: "uint8".to_string(),
        scan_id: "skip".to_string(),
        align: 1,
        return_as_json: true,
        do_suspend: false,
    };
    let plan = match plan_scan(&r) {
        Ok(p) => p,
        Err(_) => panic!("plan refused"),
    };
    let mut store = SessionStore::new();
    store.scan(&r.scan_id, plan, &vec![Some(vec![0u8; 16])]);
    let res = match store.filter(&freq("", "uint8", "skip", "changed"), &vec![None]) {
        Ok(r) => r,
        Err(_) => panic!("filter failed"),
    };
    assert_eq!(res.found, 0);
    assert!(res.matched_addresses.is_empty());
    assert!(!store.sessions[0].in_snapshots);
}

#[test]
fn upper_case_pattern_is_stored_as_hex_of_its_bytes() {
    let mut mem = vec![0u8; 32];
    mem[8..12].copy_from_slice(&[0xde, 0xad, 0xbe, 0xef]);
    let found = scan_mem(&req("DEADBEEF", vec![(0, 32)], "exact", "int32", 4), &mem);
    assert_eq!(found, vec![(8, "deadbeef".to_string())]);
}

#[test]
fn nan_never_matches_exact() {
    let nan = f32::NAN.to_le_bytes();
    assert!(!memscan::exact_matches(DataType::Float, &nan, &nan));
    assert!(memscan::exact_matches(DataType::Float, &0.0f32.to_le_bytes(), &(-0.0f32).to_le_bytes()));
    assert!(memscan::exact_matches(DataType::Aob, &[1, 2], &[1, 2]));
    let hex_nan = encode_hex(&nan);
    let mut store = store_with(vec![(0, hex_nan.as_str())]);
    let res = match store.filter(&freq(&hex_nan, "float", "id", "exact"), &vec![Some(nan.to_vec())]) {
        Ok(r) => r,
        Err(_) => panic!("filter failed"),
    };
    assert!(res.matched_addresses.is_empty());
}

#[test]
fn regex_has_no_ordering() {
    let mut store = store_with(vec![(0, "6869")]);
    let res = match store.filter(&freq("h", "regex", "id", "increased"), &vec![Some(b"hi".to_vec())]) {
        Ok(r) => r,
        Err(_) => panic!("filter failed"),
    };
    assert!(res.matched_addresses.is_empty());
}

#[test]
fn full_module_name_wins_over_basename() {
    let mods = vec![
        ModuleInfo { base: 0x1000, size: 1, is_64bit: true, modulename: "/a/lib.so".to_string() },
        ModuleInfo { base: 0x2000, size: 1, is_64bit: true, modulename: "lib.so".to_string() },
    ];
    assert_eq!(resolve_step("lib.so", &mods, &vec![]), ResolveStep::Done(0x2000));
    assert_eq!(resolve_step("/a/lib.so+1", &mods, &vec![]), ResolveStep::Done(0x1001));
}

#[test]
fn overlapping_ranges_materialize_each_address_once() {
    let r = MemoryScanRequest {
        pattern: String::new(),
        address_ranges: vec![(0, 8), (4, 12)],
        find_type: "unknown".to_string(),
        data_type: "uint8".to_string(),
        scan_id: "ov".to_string(),
        align: 1,
        return_as_json: true,
        do_suspend: false,
    };
    let plan = match plan_scan(&r) {
        Ok(p) => p,
        Err(_) => panic!("plan refused"),
    };
    let mem = vec![5u8; 12];
    let reads: Vec<Option<Vec<u8>>> =
        plan.chunks.iter().map(|c| Some(mem[c.start..c.start + c.read_len].to_vec())).collect();
    let mut store = SessionStore::new();
    store.scan(&r.scan_id, plan, &reads);
    let targets = store.read_targets("ov", "uint8").unwrap();
    let reads: Vec<Option<Vec<u8>>> = targets.iter().map(|&(a, n)| Some(mem[a..a + n].to_vec())).collect();
    let res = match store.filter(&freq("", "uint8", "ov", "unchanged"), &reads) {
        Ok(r) => r,
        Err(_) => panic!("filter failed"),
    };
    let addrs: Vec<usize> = res.matched_addresses.iter().map(|c| c.address).collect();
    assert_eq!(addrs, (0..12).collect::<Vec<usize>>());
    assert_eq!(res.found, 12);
    assert!(!res.is_rounded);
}
