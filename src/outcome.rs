use vstd::prelude::*;
use crate::scan::{
    all_aligned, chunk_candidates, range_chunks, plan_chunks, scan_chunk, spec_min, view_candidates,
    ChunkScan, ScanPlan, CHUNK_SIZE,
};
use crate::kinds::spec_width;
use crate::snapshot::{lz4_block, Candidate, SnapshotBlock};

verus! {

/// Most candidates that a result lists.
pub const MAX_RESULTS: usize = 100_000;

/// Below this many survivors an unknown-value session turns its snapshots
/// into candidates.
pub const MATERIALIZE_LIMIT: usize = 1_000_000;

/// Every chunk lies inside the address space, and the alignment is positive.
pub open spec fn plan_wf(p: &ScanPlan) -> bool {
    &&& p.align > 0
    &&& forall|i: int|
        0 <= i < p.chunks@.len() ==> (#[trigger] p.chunks@[i]).start + p.chunks@[i].len
            <= usize::MAX
}

proof fn lemma_range_chunks_bounded(s: int, e: int, ov: nat)
    ensures
        forall|i: int|
            0 <= i < range_chunks(s, e, ov).len() ==> (#[trigger] range_chunks(s, e, ov)[i]).start
                + range_chunks(s, e, ov)[i].len <= e,
    decreases e - s,
{
    if s < e && s >= 0 {
        let len = spec_min(CHUNK_SIZE as int, e - s);
        lemma_range_chunks_bounded(s + len, e, ov);
        let rest = range_chunks(s + len, e, ov);
        assert forall|i: int|
            0 <= i < range_chunks(s, e, ov).len() implies (#[trigger] range_chunks(s, e, ov)[i]).start
            + range_chunks(s, e, ov)[i].len <= e by {
            if i > 0 {
                assert(range_chunks(s, e, ov)[i] == rest[i - 1]);
            }
        }
    }
}

/// The chunks of ranges inside the address space lie inside it.
pub proof fn lemma_plan_chunks_bounded(ranges: Seq<(usize, usize)>, ov: nat)
    ensures
        forall|i: int|
            0 <= i < plan_chunks(ranges, ov).len() ==> (#[trigger] plan_chunks(ranges, ov)[i]).start
                + plan_chunks(ranges, ov)[i].len <= usize::MAX,
    decreases ranges.len(),
{
    if ranges.len() > 0 {
        lemma_plan_chunks_bounded(ranges.drop_last(), ov);
        let a = plan_chunks(ranges.drop_last(), ov);
        let b = range_chunks(ranges.last().0 as int, ranges.last().1 as int, ov);
        lemma_range_chunks_bounded(ranges.last().0 as int, ranges.last().1 as int, ov);
        assert forall|i: int|
            0 <= i < plan_chunks(ranges, ov).len() implies (#[trigger] plan_chunks(ranges, ov)[i]).start
            + plan_chunks(ranges, ov)[i].len <= usize::MAX by {
            if i >= a.len() {
                assert(plan_chunks(ranges, ov)[i] == b[i - a.len()]);
            } else {
                assert(plan_chunks(ranges, ov)[i] == a[i]);
            }
        }
    }
}

/// The candidates that the first `n` chunks give, chunk after chunk; a
/// chunk that could not be read gives none.
pub open spec fn scanned_candidates(p: &ScanPlan, reads: Seq<Option<Vec<u8>>>, n: int) -> Seq<
    (nat, Seq<char>),
>
    decreases n,
{
    if n <= 0 {
        Seq::empty()
    } else {
        let rest = scanned_candidates(p, reads, n - 1);
        match reads[n - 1] {
            Some(b) => rest + chunk_candidates(p, p.chunks@[n - 1], b@),
            None => rest,
        }
    }
}

/// For a snapshot plan, the chunks of the first `n` that were read, with
/// their start and bytes.
pub open spec fn scanned_captures(p: &ScanPlan, reads: Seq<Option<Vec<u8>>>, n: int) -> Seq<
    (usize, Seq<u8>),
>
    decreases n,
{
    if n <= 0 {
        Seq::empty()
    } else {
        let rest = scanned_captures(p, reads, n - 1);
        match reads[n - 1] {
            Some(b) => rest.push((p.chunks@[n - 1].start, b@)),
            None => rest,
        }
    }
}

/// The found count of the first `n` chunks: one per candidate, or for a
/// snapshot plan one per type width of each chunk read.
pub open spec fn scanned_found(p: &ScanPlan, reads: Seq<Option<Vec<u8>>>, n: int) -> nat
    decreases n,
{
    if n <= 0 {
        0
    } else {
        let rest = scanned_found(p, reads, n - 1);
        match reads[n - 1] {
            Some(b) => if p.matcher is Snapshot {
                rest + b@.len() / spec_width(p.data_type)
            } else {
                rest + chunk_candidates(p, p.chunks@[n - 1], b@).len()
            },
            None => rest,
        }
    }
}

/// The blocks capture these chunks, in order, none filtered yet.
pub open spec fn blocks_capture(blocks: Seq<SnapshotBlock>, caps: Seq<(usize, Seq<u8>)>) -> bool {
    &&& blocks.len() == caps.len()
    &&& forall|i: int|
        0 <= i < blocks.len() ==> {
            &&& (#[trigger] blocks[i]).base_address == caps[i].0
            &&& blocks[i].compressed_data@ == lz4_block(caps[i].1)
            &&& blocks[i].uncompressed_data_size == caps[i].1.len()
            &&& blocks[i].offsets@.len() == 0
            &&& blocks[i].is_first
        }
}

/// What a first pass over every chunk gives.
pub struct ScanOutcome {
    pub candidates: Vec<Candidate>,
    pub blocks: Vec<SnapshotBlock>,
    pub found: usize,
}

/// Scans every chunk of a plan; `reads[i]` holds the bytes read for chunk
/// `i`, or `None` where the read failed.
pub fn run_scan(p: &ScanPlan, reads: &Vec<Option<Vec<u8>>>) -> (r: ScanOutcome)
    requires
        plan_wf(p),
        reads@.len() == p.chunks@.len(),
    ensures
        view_candidates(r.candidates@) == scanned_candidates(p, reads@, reads@.len() as int),
        p.matcher is Snapshot ==> blocks_capture(
            r.blocks@,
            scanned_captures(p, reads@, reads@.len() as int),
        ),
        !(p.matcher is Snapshot) ==> r.blocks@.len() == 0,
        r.found == spec_min(scanned_found(p, reads@, reads@.len() as int) as int, usize::MAX as int),
        all_aligned(r.candidates@, p.align as nat),
{
    let mut cands: Vec<Candidate> = Vec::new();
    let mut blocks: Vec<SnapshotBlock> = Vec::new();
    let mut found: usize = 0;
    let mut i: usize = 0;
    proof {
        assert(view_candidates(cands@) =~= Seq::empty());
    }
    while i < reads.len()
        invariant
            i <= reads@.len(),
            plan_wf(p),
            reads@.len() == p.chunks@.len(),
            view_candidates(cands@) == scanned_candidates(p, reads@, i as int),
            p.matcher is Snapshot ==> blocks_capture(blocks@, scanned_captures(p, reads@, i as int)),
            !(p.matcher is Snapshot) ==> blocks@.len() == 0,
            found == spec_min(scanned_found(p, reads@, i as int) as int, usize::MAX as int),
            all_aligned(cands@, p.align as nat),
        decreases reads@.len() - i,
    {
        match &reads[i] {
            Some(bytes) => {
                let c = p.chunks[i];
                assert(p.chunks@[i as int].start + p.chunks@[i as int].len <= usize::MAX);
                let cs = scan_chunk(p, &c, bytes.as_slice());
                let ChunkScan { candidates: mut more, block, found: n } = cs;
                let ghost old_cands = cands@;
                let ghost more_view = view_candidates(more@);
                cands.append(&mut more);
                proof {
                    assert(view_candidates(cands@) =~= view_candidates(old_cands) + more_view);
                }
                match block {
                    Some(b) => {
                        let ghost old_blocks = blocks@;
                        blocks.push(b);
                        proof {
                            let caps = scanned_captures(p, reads@, i as int);
                            assert(scanned_captures(p, reads@, i + 1) == caps.push((c.start, bytes@)));
                            assert forall|k: int| 0 <= k < blocks@.len() implies {
                                &&& (#[trigger] blocks@[k]).base_address == caps.push((c.start, bytes@))[k].0
                                &&& blocks@[k].compressed_data@ == lz4_block(caps.push((c.start, bytes@))[k].1)
                                &&& blocks@[k].uncompressed_data_size == caps.push((c.start, bytes@))[k].1.len()
                                &&& blocks@[k].offsets@.len() == 0
                                &&& blocks@[k].is_first
                            } by {
                                if k < old_blocks.len() {
                                    assert(blocks@[k] == old_blocks[k]);
                                }
                            }
                        }
                    },
                    None => {},
                }
                found = if found > usize::MAX - n {
                    usize::MAX
                } else {
                    found + n
                };
            },
            None => {},
        }
        i += 1;
    }
    ScanOutcome { candidates: cands, blocks, found }
}

/// What a scan or filter reports: the first candidates, how many were
/// found, and whether the list is cut short or the count approximate.
pub struct ScanResult {
    pub matched_addresses: Vec<Candidate>,
    pub found: usize,
    pub is_rounded: bool,
}

/// The report for a candidate list: at most `MAX_RESULTS` of them, the
/// count, and whether it is rounded; when it is not, it lists as many
/// addresses as it counts.
pub open spec fn summarized(
    positions: Seq<Candidate>,
    found: nat,
    in_snapshots: bool,
    r: &ScanResult,
) -> bool {
    &&& view_candidates(r.matched_addresses@) == view_candidates(positions).take(
        spec_min(MAX_RESULTS as int, positions.len() as int),
    )
    &&& r.found == found
    &&& r.is_rounded == rounded(positions.len(), found, in_snapshots)
    &&& !r.is_rounded ==> r.matched_addresses@.len() == r.found
}

/// Whether a report is rounded: the list was cut, the count is not the
/// list's length (as for a session in snapshot form, which lists nothing),
/// or a session still in snapshot form counts `MATERIALIZE_LIMIT` or more.
pub open spec fn rounded(listed: nat, found: nat, in_snapshots: bool) -> bool {
    listed > MAX_RESULTS || found != listed || (in_snapshots && found >= MATERIALIZE_LIMIT)
}

/// Builds the report for a candidate list.
pub fn summarize(positions: Vec<Candidate>, found: usize, in_snapshots: bool) -> (r: ScanResult)
    ensures
        summarized(positions@, found as nat, in_snapshots, &r),
{
    let total = positions.len();
    let ghost all = positions@;
    let mut positions = positions;
    if total > MAX_RESULTS {
        positions.truncate(MAX_RESULTS);
    }
    proof {
        assert(positions@ =~= all.take(spec_min(MAX_RESULTS as int, total as int)));
        assert(view_candidates(positions@) =~= view_candidates(all).take(
            spec_min(MAX_RESULTS as int, total as int),
        ));
    }
    ScanResult {
        matched_addresses: positions,
        found,
        is_rounded: total > MAX_RESULTS || found != total || (in_snapshots && found
            >= MATERIALIZE_LIMIT),
    }
}

/// A report that is not marked rounded lists as many addresses as it
/// counts.
pub proof fn lemma_unrounded_lists_all(
    positions: Seq<Candidate>,
    found: nat,
    in_snapshots: bool,
    r: &ScanResult,
)
    requires
        summarized(positions, found, in_snapshots, r),
    ensures
        !r.is_rounded ==> r.matched_addresses@.len() == r.found,
{
    assert(view_candidates(r.matched_addresses@).len() == r.matched_addresses@.len());
}

/// A report of a session still in snapshot form whose count reached
/// `MATERIALIZE_LIMIT`, as every filter pass that keeps the snapshots
/// reports, is marked rounded.
pub proof fn lemma_snapshot_report_is_rounded(positions: Seq<Candidate>, found: nat, r: &ScanResult)
    requires
        summarized(positions, found, true, r),
        found >= MATERIALIZE_LIMIT,
    ensures
        r.is_rounded,
{
}

} // verus!
