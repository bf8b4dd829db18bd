use memscan::{
    plan_scan, Candidate, EventQueue, FilterError, MemoryFilterRequest, MemoryScanRequest,
    ModuleInfo, PassGuard, ResolveStep, ScanPlan, SessionStore, resolve_step, CHUNK_SIZE,
    MAX_RESULTS,
};

fn scan_request(
    pattern: &str,
    ranges: Vec<(usize, usize)>,
    find_type: &str,
    data_type: &str,
    scan_id: &str,
    align: usize,
) -> MemoryScanRequest {
    MemoryScanRequest {
        pattern: pattern.to_string(),
        address_ranges: ranges,
        find_type: find_type.to_string(),
        data_type: data_type.to_string(),
        scan_id: scan_id.to_string(),
        align,
        return_as_json: true,
        do_suspend: false,
    }
}

fn filter_request(pattern: &str, data_type: &str, scan_id: &str, method: &str) -> MemoryFilterRequest {
    MemoryFilterRequest {
        pattern: pattern.to_string(),
        data_type: data_type.to_string(),
        scan_id: scan_id.to_string(),
        filter_method: method.to_string(),
        return_as_json: true,
        do_suspend: false,
    }
}

/// Reads each chunk of a plan from `mem`, which holds the target's bytes
/// from address `base` on.
fn read_chunks(plan: &ScanPlan, mem: &[u8], base: usize) -> Vec<Option<Vec<u8>>> {
    plan.chunks
        .iter()
        .map(|c| {
            let from = c.start - base;
            Some(mem[from..from + c.read_len].to_vec())
        })
        .collect()
}

fn read_targets(store: &SessionStore, id: &str, dt: &str, mem: &[u8], base: usize) -> Vec<Option<Vec<u8>>> {
    store
        .read_targets(id, dt)
        .unwrap()
        .iter()
        .map(|&(a, n)| Some(mem[a - base..a - base + n].to_vec()))
        .collect()
}

fn pairs(v: &[Candidate]) -> Vec<(usize, String)> {
    v.iter().map(|c| (c.address, c.value.clone())).collect()
}

#[test]
fn exact_hex_find_then_unchanged() {
    let mut mem = vec![0u8; 0x2000];
    mem[0x1000..0x1004].copy_from_slice(&[0xde, 0xad, 0xbe, 0xef]);
    let req = scan_request("deadbeef", vec![(0, 0x2000)], "exact", "int32", "s1", 4);
    let plan = match plan_scan(&req) {
        Ok(p) => p,
        Err(_) => panic!("plan refused"),
    };
    let reads = read_chunks(&plan, &mem, 0);
    let mut store = SessionStore::new();
    let res = store.scan(&req.scan_id, plan, &reads);
    assert!(res.found >= 1);
    assert!(pairs(&res.matched_addresses).contains(&(0x1000, "deadbeef".to_string())));

    let freq = filter_request("", "int32", "s1", "unchanged");
    let reads = read_targets(&store, "s1", "int32", &mem, 0);
    let res = match store.filter(&freq, &reads) {
        Ok(r) => r,
        Err(_) => panic!("filter failed"),
    };
    assert!(pairs(&res.matched_addresses).contains(&(0x1000, "deadbeef".to_string())));
}

#[test]
fn unknown_then_decreased() {
    let base = 0x2000;
    let mut mem = vec![0x0a, 0, 0, 0, 0x05, 0, 0, 0, 0xff, 0xff, 0xff, 0xff, 0, 0, 0, 0];
    let req = scan_request("", vec![(0x2000, 0x2010)], "unknown", "int32", "s2", 4);
    let plan = match plan_scan(&req) {
        Ok(p) => p,
        Err(_) => panic!("plan refused"),
    };
    let reads = read_chunks(&plan, &mem, base);
    let mut store = SessionStore::new();
    let res = store.scan(&req.scan_id, plan, &reads);
    assert_eq!(res.found, 4);
    assert!(res.matched_addresses.is_empty());
    assert!(res.is_rounded);

    mem[0] = 7;
    let freq = filter_request("", "int32", "s2", "decreased");
    let reads = read_targets(&store, "s2", "int32", &mem, base);
    let res = match store.filter(&freq, &reads) {
        Ok(r) => r,
        Err(_) => panic!("filter failed"),
    };
    assert_eq!(pairs(&res.matched_addresses), vec![(0x2000, "07000000".to_string())]);
    assert_eq!(res.found, 1);
    assert!(!res.is_rounded);
}

#[test]
fn regex_over_bytes() {
    let base = 0x3000;
    let mut mem = vec![0u8; 0x100];
    mem[0..11].copy_from_slice(b"hello world");
    let req = scan_request("hel{2}o", vec![(0x3000, 0x3100)], "exact", "regex", "s3", 1);
    let plan = match plan_scan(&req) {
        Ok(p) => p,
        Err(_) => panic!("plan refused"),
    };
    let reads = read_chunks(&plan, &mem, base);
    let mut store = SessionStore::new();
    let res = store.scan(&req.scan_id, plan, &reads);
    assert_eq!(pairs(&res.matched_addresses), vec![(0x3000, hex::encode("hello"))]);
    assert_eq!(res.matched_addresses[0].value, "68656c6c6f");
}

#[test]
fn resolver_nested_dereference() {
    let modules = vec![ModuleInfo {
        base: 0x100000,
        size: 0x1000,
        is_64bit: true,
        modulename: "/system/lib/game".to_string(),
    }];
    let expr = "[game+0x400]+0x20";
    let step = resolve_step(expr, &modules, &vec![]);
    assert_eq!(step, ResolveStep::Read(0x100400));
    let step = resolve_step(expr, &modules, &vec![0x7FFF00]);
    assert_eq!(step, ResolveStep::Done(0x7FFF20));
}

#[test]
fn suspend_resume_on_corrupt_snapshot() {
    let mem = vec![1u8; 64];
    let req = scan_request("", vec![(0x4000, 0x4040)], "unknown", "int32", "s5", 4);
    let plan = match plan_scan(&req) {
        Ok(p) => p,
        Err(_) => panic!("plan refused"),
    };
    let reads = read_chunks(&plan, &mem, 0x4000);
    let mut store = SessionStore::new();
    store.scan(&req.scan_id, plan, &reads);
    store.sessions[0].blocks[0].compressed_data = vec![0xff, 0xff, 0xff];

    let mut resumes = 0;
    let mut guard = PassGuard::new(true);
    if guard.wants_suspend() {
        guard.record_suspend(true);
    }
    let freq = filter_request("", "int32", "s5", "unchanged");
    let reads = read_targets(&store, "s5", "int32", &mem, 0x4000);
    let outcome = store.filter(&freq, &reads);
    assert!(matches!(outcome, Err(FilterError::CorruptSnapshot)));
    if guard.finish(true) {
        resumes += 1;
    }
    if guard.finish(true) {
        resumes += 1;
    }
    assert_eq!(resumes, 1);
    assert!(store.sessions[0].in_snapshots);
    assert_eq!(store.sessions[0].blocks[0].compressed_data, vec![0xff, 0xff, 0xff]);
}

#[test]
fn materialization_threshold() {
    let base = 0x10_0000;
    let len = 1_600_000;
    let mut mem = vec![3u8; len];
    let req = scan_request("", vec![(base, base + len)], "unknown", "uint8", "s6", 1);
    let plan = match plan_scan(&req) {
        Ok(p) => p,
        Err(_) => panic!("plan refused"),
    };
    let reads = read_chunks(&plan, &mem, base);
    let mut store = SessionStore::new();
    store.scan(&req.scan_id, plan, &reads);

    let freq = filter_request("", "uint8", "s6", "unchanged");
    let reads = read_targets(&store, "s6", "uint8", &mem, base);
    let res = match store.filter(&freq, &reads) {
        Ok(r) => r,
        Err(_) => panic!("filter failed"),
    };
    assert!(res.found >= 1_500_000);
    assert!(res.is_rounded);
    assert!(res.matched_addresses.is_empty());
    assert!(store.sessions[0].in_snapshots);

    for b in mem.iter_mut().take(700_000) {
        *b = 9;
    }
    let reads = read_targets(&store, "s6", "uint8", &mem, base);
    let res = match store.filter(&freq, &reads) {
        Ok(r) => r,
        Err(_) => panic!("filter failed"),
    };
    assert_eq!(res.found, 900_000);
    assert!(!store.sessions[0].in_snapshots);
    assert_eq!(res.is_rounded, res.found > 100_000);
    assert_eq!(res.matched_addresses.len(), MAX_RESULTS);
    let addrs: Vec<usize> = res.matched_addresses.iter().map(|c| c.address).collect();
    assert!(addrs.windows(2).all(|w| w[0] < w[1]));
    assert_eq!(addrs[0], base + 700_000);
    assert_eq!(store.sessions[0].candidates.len(), 900_000);
}

#[test]
fn chunk_boundary_pattern_is_found() {
    let len = CHUNK_SIZE + 16;
    let mut mem = vec![0u8; len];
    let at = CHUNK_SIZE - 2;
    mem[at..at + 4].copy_from_slice(&[0x11, 0x22, 0x33, 0x44]);
    let req = scan_request("11223344", vec![(0, len)], "exact", "aob", "s7", 1);
    let plan = match plan_scan(&req) {
        Ok(p) => p,
        Err(_) => panic!("plan refused"),
    };
    assert_eq!(plan.chunks.len(), 2);
    assert_eq!(plan.chunks[0].read_len, CHUNK_SIZE + 3);
    let reads = read_chunks(&plan, &mem, 0);
    let mut store = SessionStore::new();
    let res = store.scan(&req.scan_id, plan, &reads);
    assert_eq!(pairs(&res.matched_addresses), vec![(at, "11223344".to_string())]);
}

#[test]
fn empty_range_yields_nothing() {
    let req = scan_request("00", vec![(0x500, 0x500)], "exact", "uint8", "s8", 1);
    let plan = match plan_scan(&req) {
        Ok(p) => p,
        Err(_) => panic!("plan refused"),
    };
    assert!(plan.chunks.is_empty());
    let mut store = SessionStore::new();
    let res = store.scan(&req.scan_id, plan, &vec![]);
    assert_eq!(res.found, 0);
    assert!(res.matched_addresses.is_empty());
    assert!(!res.is_rounded);
}

#[test]
fn event_queue_drops_oldest() {
    let mut q = EventQueue::new(2);
    q.push("a".to_string());
    q.push("b".to_string());
    q.push("c".to_string());
    assert_eq!(q.drain(), vec!["b".to_string(), "c".to_string()]);
    assert!(q.drain().is_empty());
}
