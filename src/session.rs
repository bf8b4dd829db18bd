use vstd::prelude::*;
use crate::filter::{
    blocks_refiltered, candidate_invalid, filter_blocks, filter_candidates, kept_candidates,
    some_block_corrupt, spec_min_count, survivor_count, usable, FilterError,
};
use crate::hexcode::{decode_hex, hex_value, is_hex_text};
use crate::kinds::{
    filter_method_name, spec_width, data_type_name, DataType, FilterMethod, };
use crate::outcome::{plan_wf, summarized, ScanOutcome, ScanResult, MATERIALIZE_LIMIT, MAX_RESULTS};
use crate::scan::{all_aligned, spec_min, view_candidates, ScanPlan};
use crate::snapshot::{
    lz4_block, append_block_candidates, block_candidates, candidate_view, surviving_offsets, Candidate,
    SnapshotBlock,
};

verus! {

/// What a client asks a filter pass for.
pub struct MemoryFilterRequest {
    pub pattern: String,
    pub data_type: String,
    pub scan_id: String,
    pub filter_method: String,
    pub return_as_json: bool,
    pub do_suspend: bool,
}

/// All state of one scan id: the plan of its scan, and either its
/// candidates or, while it is in snapshot form, its snapshot blocks.
pub struct ScanSession {
    pub scan_id: String,
    pub plan: ScanPlan,
    pub candidates: Vec<Candidate>,
    pub blocks: Vec<SnapshotBlock>,
    pub in_snapshots: bool,
}

/// Every surviving offset of every block lies at an address that is a
/// multiple of `align`.
pub open spec fn blocks_aligned(blocks: Seq<SnapshotBlock>, align: nat) -> bool {
    forall|i: int, k: int|
        0 <= i < blocks.len() && 0 <= k < blocks[i].offsets@.len() ==> (blocks[i].base_address
            + #[trigger] blocks[i].offsets@[k]) % (align as int) == 0
}

/// The block holds the compression of as many bytes as it records.
pub open spec fn holds_data(b: SnapshotBlock) -> bool {
    exists|d: Seq<u8>| lz4_block(d) == b.compressed_data@ && d.len() == b.uncompressed_data_size
}

/// Every block holds the compression of as many bytes as it records.
pub open spec fn blocks_hold_data(blocks: Seq<SnapshotBlock>) -> bool {
    forall|i: int| 0 <= i < blocks.len() ==> holds_data(#[trigger] blocks[i])
}

/// A session holds candidates or snapshot blocks, never both; its blocks
/// hold compressed data of their recorded size; and every address it holds
/// is a multiple of its alignment.
pub open spec fn session_wf(s: &ScanSession) -> bool {
    &&& plan_wf(&s.plan)
    &&& s.in_snapshots ==> s.candidates@.len() == 0
    &&& !s.in_snapshots ==> s.blocks@.len() == 0
    &&& blocks_hold_data(s.blocks@)
    &&& all_aligned(s.candidates@, s.plan.align as nat)
    &&& blocks_aligned(s.blocks@, s.plan.align as nat)
}

/// The sessions of every scan id.
pub struct SessionStore {
    pub sessions: Vec<ScanSession>,
}

/// Every session is well formed and no two share a scan id.
pub open spec fn store_wf(st: &SessionStore) -> bool {
    &&& forall|i: int| 0 <= i < st.sessions@.len() ==> session_wf(&#[trigger] st.sessions@[i])
    &&& forall|i: int, j: int|
        0 <= i < j < st.sessions@.len() ==> (#[trigger] st.sessions@[i]).scan_id@
            != (#[trigger] st.sessions@[j]).scan_id@
}

/// The index of the session with this scan id, if there is one.
pub open spec fn session_of(st: &SessionStore, id: Seq<char>) -> Option<int> {
    if exists|i: int| 0 <= i < st.sessions@.len() && st.sessions@[i].scan_id@ == id {
        Some(choose|i: int| 0 <= i < st.sessions@.len() && st.sessions@[i].scan_id@ == id)
    } else {
        None
    }
}

/// The same candidates, ordered by address.
pub open spec fn sorted_permutation(v: Seq<Candidate>, of: Seq<(nat, Seq<char>)>) -> bool {
    &&& view_candidates(v).to_multiset() == of.to_multiset()
    &&& forall|i: int, j: int| 0 <= i < j < v.len() ==> v[i].address <= v[j].address
}

/// Candidates in strictly increasing order of address, each one of `of`,
/// and every address of `of` among them: `of` sorted, one entry per
/// address.
pub open spec fn sorted_unique_from(v: Seq<Candidate>, of: Seq<(nat, Seq<char>)>) -> bool {
    &&& forall|i: int, j: int| 0 <= i < j < v.len() ==> v[i].address < v[j].address
    &&& forall|k: int| 0 <= k < v.len() ==> of.contains(candidate_view(&#[trigger] v[k]))
    &&& forall|j: int|
        0 <= j < of.len() ==> exists|k: int| 0 <= k < v.len() && v[k].address == (#[trigger] of[j]).0
}

/// Keeps the first candidate of each address of a list sorted by address.
fn dedup_sorted(v: &Vec<Candidate>, of: Ghost<Seq<(nat, Seq<char>)>>) -> (r: Vec<Candidate>)
    requires
        sorted_permutation(v@, of@),
    ensures
        sorted_unique_from(r@, of@),
{
    broadcast use vstd::seq_lib::group_to_multiset_ensures;

    let mut out: Vec<Candidate> = Vec::new();
    let mut i: usize = 0;
    while i < v.len()
        invariant
            i <= v@.len(),
            sorted_permutation(v@, of@),
            forall|a: int, b: int| 0 <= a < b < out@.len() ==> out@[a].address < out@[b].address,
            forall|k: int|
                0 <= k < out@.len() ==> view_candidates(v@).contains(candidate_view(&#[trigger] out@[k])),
            forall|j: int|
                0 <= j < i ==> exists|k: int|
                    0 <= k < out@.len() && out@[k].address == (#[trigger] v@[j]).address,
            i > 0 ==> out@.len() > 0 && out@.last().address == v@[i - 1].address,
            i == 0 ==> out@.len() == 0,
        decreases v@.len() - i,
    {
        let c = &v[i];
        if out.len() == 0 || out[out.len() - 1].address < c.address {
            let ghost before = out@;
            let nc = copy_candidate(c);
            out.push(nc);
            proof {
                assert(view_candidates(v@)[i as int] == candidate_view(&v@[i as int]));
                assert forall|j: int| 0 <= j < i + 1 implies exists|k: int|
                    0 <= k < out@.len() && out@[k].address == (#[trigger] v@[j]).address by {
                    if j < i {
                        let k = choose|k: int|
                            0 <= k < before.len() && before[k].address == v@[j].address;
                        assert(out@[k] == before[k]);
                    } else {
                        assert(out@[out@.len() - 1].address == v@[j].address);
                    }
                }
            }
        } else {
            proof {
                assert(out@.last().address == v@[i as int].address);
                assert(out@[out@.len() - 1].address == v@[i as int].address);
            }
        }
        i += 1;
    }
    proof {
        assert forall|k: int| 0 <= k < out@.len() implies of@.contains(
            candidate_view(&#[trigger] out@[k]),
        ) by {
            let x = candidate_view(&out@[k]);
            assert(view_candidates(v@).contains(x));
            assert(view_candidates(v@).to_multiset().count(x) > 0);
        }
        assert forall|j: int| 0 <= j < of@.len() implies exists|k: int|
            0 <= k < out@.len() && out@[k].address == (#[trigger] of@[j]).0 by {
            let x = of@[j];
            assert(of@.contains(x));
            assert(of@.to_multiset().count(x) > 0);
            assert(view_candidates(v@).contains(x));
            let q = choose|q: int| 0 <= q < view_candidates(v@).len() && view_candidates(v@)[q] == x;
            assert(v@[q].address == x.0);
            let k = choose|k: int| 0 <= k < out@.len() && out@[k].address == v@[q].address;
        }
    }
    out
}

/// Relies on slice::sort_by_key: a sort keyed here by address, which
/// reorders the candidates and keeps each of them.
#[verifier::external_body]
fn sort_by_address(v: &mut Vec<Candidate>)
    ensures
        view_candidates(final(v)@).to_multiset() == view_candidates(old(v)@).to_multiset(),
        forall|i: int, j: int|
            0 <= i < j < final(v)@.len() ==> final(v)@[i].address <= final(v)@[j].address,
{
    v.sort_by_key(|c| c.address);
}

/// The candidates that the survivors of the first `n` blocks stand for,
/// with the bytes read at each block whose read could be used.
pub open spec fn materialized(
    blocks: Seq<SnapshotBlock>,
    reads: Seq<Option<Vec<u8>>>,
    w: nat,
    n: int,
) -> Seq<(nat, Seq<char>)>
    decreases n,
{
    if n <= 0 {
        Seq::empty()
    } else {
        let rest = materialized(blocks, reads, w, n - 1);
        if usable(reads[n - 1], blocks[n - 1]) {
            rest + block_candidates(
                blocks[n - 1].base_address as nat,
                blocks[n - 1].offsets@,
                reads[n - 1].unwrap()@,
                w,
            )
        } else {
            rest
        }
    }
}

fn materialize(blocks: &Vec<SnapshotBlock>, reads: &Vec<Option<Vec<u8>>>, w: usize) -> (r: Vec<
    Candidate,
>)
    requires
        blocks@.len() == reads@.len(),
        forall|i: int, k: int|
            0 <= i < blocks@.len() && usable(reads@[i], blocks@[i]) && 0 <= k
                < blocks@[i].offsets@.len() ==> #[trigger] blocks@[i].offsets@[k] + w
                <= reads@[i].unwrap()@.len(),
    ensures
        view_candidates(r@) == materialized(blocks@, reads@, w as nat, blocks@.len() as int),
{
    let mut out: Vec<Candidate> = Vec::new();
    let mut i: usize = 0;
    proof {
        assert(view_candidates(out@) =~= Seq::empty());
    }
    while i < blocks.len()
        invariant
            i <= blocks@.len(),
            blocks@.len() == reads@.len(),
            forall|i: int, k: int|
                0 <= i < blocks@.len() && usable(reads@[i], blocks@[i]) && 0 <= k
                    < blocks@[i].offsets@.len() ==> #[trigger] blocks@[i].offsets@[k] + w
                    <= reads@[i].unwrap()@.len(),
            view_candidates(out@) == materialized(blocks@, reads@, w as nat, i as int),
        decreases blocks@.len() - i,
    {
        let b = &blocks[i];
        match &reads[i] {
            Some(nb) => {
                if nb.len() == b.uncompressed_data_size && b.base_address <= usize::MAX
                    - b.uncompressed_data_size {
                    let ghost before = out@;
                    proof {
                        assert forall|k: int| 0 <= k < b.offsets@.len() implies b.offsets@[k] + w
                            <= nb@.len() && b.base_address + b.offsets@[k] <= usize::MAX by {
                            assert(blocks@[i as int].offsets@[k] + w <= reads@[i as int].unwrap()@.len());
                        }
                    }
                    append_block_candidates(&mut out, b.base_address, &b.offsets, nb.as_slice(), w);
                    proof {
                        let add = block_candidates(
                            b.base_address as nat,
                            b.offsets@,
                            nb@,
                            w as nat,
                        );
                        assert(view_candidates(out@) =~= view_candidates(before) + add) by {
                            assert forall|k: int| 0 <= k < out@.len() implies view_candidates(out@)[k]
                                == (view_candidates(before) + add)[k] by {
                                if k >= before.len() {
                                    assert(candidate_view(&out@[before.len() + (k - before.len())])
                                        == add[k - before.len()]);
                                }
                            }
                        }
                    }
                }
            },
            None => {},
        }
        i += 1;
    }
    out
}

/// Every offset that survives a pass was among those it started from, and
/// leaves room for `w` bytes in both the old and the new bytes.
pub proof fn lemma_survivors_come_from_start(
    offs: Seq<usize>,
    t: DataType,
    m: FilterMethod,
    exact: Seq<u8>,
    old: Seq<u8>,
    new: Seq<u8>,
    w: nat,
)
    ensures
        forall|k: int|
            0 <= k < surviving_offsets(offs, t, m, exact, old, new, w).len() ==> offs.contains(
                #[trigger] surviving_offsets(offs, t, m, exact, old, new, w)[k],
            ) && surviving_offsets(offs, t, m, exact, old, new, w)[k] + w <= new.len()
                && surviving_offsets(offs, t, m, exact, old, new, w)[k] + w <= old.len(),
    decreases offs.len(),
{
    if offs.len() > 0 {
        let rest = surviving_offsets(offs.drop_last(), t, m, exact, old, new, w);
        lemma_survivors_come_from_start(offs.drop_last(), t, m, exact, old, new, w);
        let s = surviving_offsets(offs, t, m, exact, old, new, w);
        assert forall|k: int| 0 <= k < s.len() implies offs.contains(#[trigger] s[k]) && s[k] + w
            <= new.len() && s[k] + w <= old.len() by {
            if k < rest.len() {
                assert(s[k] == rest[k]);
                assert(offs.drop_last().contains(rest[k]));
                let x = choose|x: int| 0 <= x < offs.drop_last().len() && offs.drop_last()[x] == rest[k];
                assert(offs[x] == rest[k]);
            } else {
                assert(s[k] == offs.last());
                assert(offs[offs.len() - 1] == offs.last());
            }
        }
    }
}

/// Where the caller reads before a filter pass, as (address, length)
/// pairs: each block's base and size while in snapshot form, else each
/// candidate's address and `width`, or the length of its stored value
/// where `width` is `None`.
pub open spec fn read_targets_of(s: &ScanSession, width: Option<usize>) -> Seq<(usize, usize)> {
    if s.in_snapshots {
        Seq::new(
            s.blocks@.len(),
            |i: int| (s.blocks@[i].base_address, s.blocks@[i].uncompressed_data_size),
        )
    } else {
        Seq::new(
            s.candidates@.len(),
            |i: int|
                (
                    s.candidates@[i].address,
                    match width {
                        Some(w) => w,
                        None => (s.candidates@[i].value@.len() / 2) as usize,
                    },
                ),
        )
    }
}

/// How many bytes a filter of the named type reads at each candidate: the
/// width of a numeric type; `None` where the length of the stored value
/// decides.
pub open spec fn read_width(name: Seq<char>) -> Option<usize> {
    if (exists|t: DataType| data_type_name(t) == name) && crate::kinds::spec_is_numeric(
        named_type(name),
    ) {
        Some(spec_width(named_type(name)) as usize)
    } else {
        None
    }
}

/// The data type of this name.
pub open spec fn named_type(name: Seq<char>) -> DataType {
    choose|t: DataType| data_type_name(t) == name
}

/// The filter method of this name.
pub open spec fn named_method(name: Seq<char>) -> FilterMethod {
    choose|m: FilterMethod| filter_method_name(m) == name
}

/// The error a filter request meets on a session before any comparison,
/// checked in this order: unknown data type, unknown method, an `exact`
/// pattern that is not hex text, reads that do not match the session.
pub open spec fn request_error(
    s: &ScanSession,
    req: &MemoryFilterRequest,
    reads: Seq<Option<Vec<u8>>>,
) -> Option<FilterError> {
    if forall|t: DataType| data_type_name(t) != req.data_type@ {
        Some(FilterError::UnknownDataType)
    } else if forall|m: FilterMethod| filter_method_name(m) != req.filter_method@ {
        Some(FilterError::UnknownFilterMethod)
    } else if named_method(req.filter_method@) == FilterMethod::Exact && named_type(req.data_type@)
        != DataType::Regex && !is_hex_text(req.pattern@) {
        Some(FilterError::InvalidHex)
    } else if reads.len() != read_targets_of(s, None).len() {
        Some(FilterError::ReadsMismatch)
    } else {
        None
    }
}

/// What a pass over a session in snapshot form does, given the blocks it
/// filtered into `news`: below `MATERIALIZE_LIMIT` survivors the session
/// turns into their candidates, sorted by address with one per address,
/// and reports how many there are; otherwise it keeps the new blocks.
pub open spec fn snapshot_pass(
    s: &ScanSession,
    n: &ScanSession,
    t: DataType,
    m: FilterMethod,
    pattern: Seq<char>,
    reads: Seq<Option<Vec<u8>>>,
    r: &ScanResult,
    news: Seq<SnapshotBlock>,
) -> bool {
    let exact = if m == FilterMethod::Exact && is_hex_text(pattern) {
        hex_value(pattern)
    } else {
        Seq::empty()
    };
    let count = survivor_count(s.blocks@, news, reads, reads.len() as int);
    &&& blocks_refiltered(s.blocks@, news, reads, t, m, exact, s.plan.align as nat)
    &&& if count < MATERIALIZE_LIMIT {
        &&& !n.in_snapshots
        &&& n.blocks@.len() == 0
        &&& sorted_unique_from(
            n.candidates@,
            materialized(news, reads, spec_width(t), news.len() as int),
        )
        &&& summarized(n.candidates@, n.candidates@.len() as nat, true, r)
    } else {
        &&& n.in_snapshots
        &&& n.blocks@ == news
        &&& n.candidates@.len() == 0
        &&& summarized(n.candidates@, spec_min_count(count), true, r)
    }
}

/// What a filter pass that passed its checks does to a session, with the
/// type and method it names.
pub open spec fn session_filtered(
    s: &ScanSession,
    n: &ScanSession,
    t: DataType,
    m: FilterMethod,
    pattern: Seq<char>,
    reads: Seq<Option<Vec<u8>>>,
    r: &ScanResult,
) -> bool {
    &&& n.scan_id@ == s.scan_id@
    &&& n.plan == s.plan
    &&& if s.in_snapshots {
        exists|news: Seq<SnapshotBlock>| snapshot_pass(s, n, t, m, pattern, reads, r, news)
    } else {
        &&& !n.in_snapshots
        &&& n.blocks@.len() == 0
        &&& view_candidates(n.candidates@) == kept_candidates(
            s.candidates@,
            reads,
            t,
            m,
            pattern,
            reads.len() as int,
        )
        &&& summarized(n.candidates@, n.candidates@.len() as nat, false, r)
    }
}

fn copy_candidate(c: &Candidate) -> (r: Candidate)
    ensures
        candidate_view(&r) == candidate_view(c),
        r.address == c.address,
        r.value@ == c.value@,
{
    Candidate { address: c.address, value: c.value.clone() }
}

/// The report for a candidate list, copying its first entries.
pub fn report(positions: &Vec<Candidate>, found: usize, in_snapshots: bool) -> (r: ScanResult)
    ensures
        view_candidates(r.matched_addresses@) == view_candidates(positions@).take(
            spec_min(MAX_RESULTS as int, positions@.len() as int),
        ),
        r.found == found,
        r.is_rounded == crate::outcome::rounded(positions@.len(), found as nat, in_snapshots),
        !r.is_rounded ==> r.matched_addresses@.len() == r.found,
{
    let n = if positions.len() > MAX_RESULTS {
        MAX_RESULTS
    } else {
        positions.len()
    };
    let mut out: Vec<Candidate> = Vec::new();
    let mut i: usize = 0;
    while i < n
        invariant
            i <= n,
            n == spec_min(MAX_RESULTS as int, positions@.len() as int),
            out@.len() == i,
            forall|j: int|
                0 <= j < i ==> candidate_view(&#[trigger] out@[j]) == candidate_view(&positions@[j]),
        decreases n - i,
    {
        out.push(copy_candidate(&positions[i]));
        i += 1;
    }
    proof {
        assert(view_candidates(out@) =~= view_candidates(positions@).take(n as int));
    }
    ScanResult {
        matched_addresses: out,
        found,
        is_rounded: positions.len() > MAX_RESULTS || found != positions.len() || (in_snapshots
            && found >= MATERIALIZE_LIMIT),
    }
}

proof fn lemma_kept_aligned(
    olds: Seq<Candidate>,
    reads: Seq<Option<Vec<u8>>>,
    t: DataType,
    m: FilterMethod,
    pattern: Seq<char>,
    news: Seq<Candidate>,
    align: nat,
)
    requires
        olds.len() == reads.len(),
        all_aligned(olds, align),
        view_candidates(news) == kept_candidates(olds, reads, t, m, pattern, olds.len() as int),
    ensures
        all_aligned(news, align),
{
    crate::laws::lemma_kept_candidates_were_candidates(olds, reads, t, m, pattern, olds.len() as int);
    assert forall|k: int| 0 <= k < news.len() implies (#[trigger] news[k]).address as int % (
    align as int) == 0 by {
        let kept = kept_candidates(olds, reads, t, m, pattern, olds.len() as int);
        assert(view_candidates(news)[k] == kept[k]);
        let i = choose|i: int| 0 <= i < olds.len() && olds[i].address == (#[trigger] kept[k]).0;
        assert(olds[i].address as int % (align as int) == 0);
    }
}

proof fn lemma_refiltered_aligned(
    olds: Seq<SnapshotBlock>,
    news: Seq<SnapshotBlock>,
    reads: Seq<Option<Vec<u8>>>,
    t: DataType,
    m: FilterMethod,
    exact: Seq<u8>,
    align: nat,
)
    requires
        blocks_refiltered(olds, news, reads, t, m, exact, align),
        blocks_aligned(olds, align),
    ensures
        blocks_aligned(news, align),
{
    assert forall|i: int, k: int|
        0 <= i < news.len() && 0 <= k < news[i].offsets@.len() implies (news[i].base_address
        + #[trigger] news[i].offsets@[k]) % (align as int) == 0 by {
        let b = olds[i];
        let w = spec_width(t);
        if usable(reads[i], b) {
            let start = crate::snapshot::pass_offsets(&b, w, align);
            lemma_survivors_come_from_start(
                start,
                t,
                m,
                exact,
                crate::snapshot::block_bytes(&b).unwrap(),
                reads[i].unwrap()@,
                w,
            );
            let o = news[i].offsets@[k];
            assert(start.contains(o));
            let x = choose|x: int| 0 <= x < start.len() && start[x] == o;
            if b.is_first {
                crate::laws::lemma_walk_is_aligned(
                    b.base_address as nat,
                    b.uncompressed_data_size as nat,
                    w,
                    align,
                    b.uncompressed_data_size as nat,
                );
                assert(start[x] == crate::snapshot::walk_prefix(
                    b.base_address as nat,
                    b.uncompressed_data_size as nat,
                    w,
                    align,
                    b.uncompressed_data_size as nat,
                )[x]);
            } else {
                assert(b.offsets@[x] == o);
            }
        } else {
            assert(news[i].offsets@[k] == b.offsets@[k]);
        }
    }
}

proof fn lemma_materialized_aligned(
    blocks: Seq<SnapshotBlock>,
    reads: Seq<Option<Vec<u8>>>,
    w: nat,
    align: nat,
    n: int,
)
    requires
        0 <= n <= blocks.len(),
        n <= reads.len(),
        blocks_aligned(blocks, align),
    ensures
        forall|k: int|
            0 <= k < materialized(blocks, reads, w, n).len() ==> (#[trigger] materialized(
                blocks,
                reads,
                w,
                n,
            )[k]).0 as int % (align as int) == 0,
    decreases n,
{
    if n > 0 {
        lemma_materialized_aligned(blocks, reads, w, align, n - 1);
        let rest = materialized(blocks, reads, w, n - 1);
        let all = materialized(blocks, reads, w, n);
        let b = blocks[n - 1];
        assert forall|k: int| 0 <= k < all.len() implies (#[trigger] all[k]).0 as int % (
        align as int) == 0 by {
            if k >= rest.len() && usable(reads[n - 1], b) {
                let add = block_candidates(
                    b.base_address as nat,
                    b.offsets@,
                    reads[n - 1].unwrap()@,
                    w,
                );
                assert(all[k] == add[k - rest.len()]);
                assert((b.base_address + b.offsets@[k - rest.len()]) % (align as int) == 0);
            } else {
                assert(all[k] == rest[k]);
            }
        }
    }
}

proof fn lemma_sorted_aligned(v: Seq<Candidate>, of: Seq<(nat, Seq<char>)>, align: nat)
    requires
        sorted_unique_from(v, of),
        forall|k: int| 0 <= k < of.len() ==> (#[trigger] of[k]).0 as int % (align as int) == 0,
    ensures
        all_aligned(v, align),
{
    assert forall|k: int| 0 <= k < v.len() implies (#[trigger] v[k]).address as int % (
    align as int) == 0 by {
        let x = candidate_view(&v[k]);
        assert(of.contains(x));
        let j = choose|j: int| 0 <= j < of.len() && of[j] == x;
        assert(of[j].0 as int % (align as int) == 0);
    }
}

/// The store still holds this session under its id.
pub open spec fn still_held(st: &SessionStore, s: ScanSession) -> bool {
    session_of(st, s.scan_id@) matches Some(k) && st.sessions@[k] == s
}

/// For a snapshot plan a scan yields no candidates.
proof fn lemma_snapshot_scan_has_no_candidates(p: &ScanPlan, reads: Seq<Option<Vec<u8>>>, n: int)
    requires
        p.matcher is Snapshot,
    ensures
        crate::outcome::scanned_candidates(p, reads, n).len() == 0,
    decreases n,
{
    if n > 0 {
        lemma_snapshot_scan_has_no_candidates(p, reads, n - 1);
    }
}

/// The session that a store holds for an id, if any, is the only one.
proof fn lemma_session_of(st: &SessionStore, id: Seq<char>, k: int)
    requires
        store_wf(st),
        0 <= k < st.sessions@.len(),
        st.sessions@[k].scan_id@ == id,
    ensures
        session_of(st, id) == Some(k),
{
    let c = choose|i: int| 0 <= i < st.sessions@.len() && st.sessions@[i].scan_id@ == id;
    if c != k {
        if c < k {
            assert(st.sessions@[c].scan_id@ != st.sessions@[k].scan_id@);
        } else {
            assert(st.sessions@[k].scan_id@ != st.sessions@[c].scan_id@);
        }
    }
}

impl SessionStore {
    /// A store without sessions.
    pub fn new() -> (r: SessionStore)
        ensures
            r.sessions@.len() == 0,
            store_wf(&r),
    {
        SessionStore { sessions: Vec::new() }
    }

    /// The index of the session with this scan id.
    pub fn find(&self, scan_id: &str) -> (r: Option<usize>)
        requires
            store_wf(self),
        ensures
            r matches Some(k) ==> session_of(self, scan_id@) == Some(k as int),
            r is None ==> session_of(self, scan_id@) is None,
    {
        let mut i: usize = 0;
        while i < self.sessions.len()
            invariant
                i <= self.sessions@.len(),
                store_wf(self),
                forall|j: int| 0 <= j < i ==> self.sessions@[j].scan_id@ != scan_id@,
            decreases self.sessions@.len() - i,
        {
            if crate::kinds::same_text(self.sessions[i].scan_id.as_str(), scan_id) {
                proof {
                    lemma_session_of(self, scan_id@, i as int);
                }
                return Some(i);
            }
            i += 1;
        }
        None
    }

    /// Runs the first pass of a scan over the chunks of `plan` and makes it
    /// the session of `scan_id`, replacing whatever that id held. `reads[i]`
    /// holds the bytes read for chunk `i`, or `None` where the read failed.
    pub fn scan(&mut self, scan_id: &String, plan: ScanPlan, reads: &Vec<Option<Vec<u8>>>) -> (r:
        ScanResult)
        requires
            store_wf(old(self)),
            plan_wf(&plan),
            reads@.len() == plan.chunks@.len(),
        ensures
            store_wf(final(self)),
            session_of(final(self), scan_id@) matches Some(k) && {
                let s = final(self).sessions@[k];
                &&& s.plan == plan
                &&& s.in_snapshots == plan.matcher is Snapshot
                &&& view_candidates(s.candidates@) == crate::outcome::scanned_candidates(
                    &plan,
                    reads@,
                    reads@.len() as int,
                )
                &&& plan.matcher is Snapshot ==> crate::outcome::blocks_capture(
                    s.blocks@,
                    crate::outcome::scanned_captures(&plan, reads@, reads@.len() as int),
                )
                &&& r.found == spec_min(
                    crate::outcome::scanned_found(&plan, reads@, reads@.len() as int) as int,
                    usize::MAX as int,
                )
                &&& summarized(s.candidates@, r.found as nat, s.in_snapshots, &r)
            },
            forall|i: int|
                0 <= i < old(self).sessions@.len() && old(self).sessions@[i].scan_id@ != scan_id@
                    ==> still_held(final(self), #[trigger] old(self).sessions@[i]),
    {
        let outcome = crate::outcome::run_scan(&plan, reads);
        let in_snapshots = match &plan.matcher {
            crate::scan::Matcher::Snapshot => true,
            _ => false,
        };
        proof {
            if in_snapshots {
                lemma_snapshot_scan_has_no_candidates(&plan, reads@, reads@.len() as int);
            }
        }
        let r = report(&outcome.candidates, outcome.found, in_snapshots);
        proof {
            assert(blocks_aligned(outcome.blocks@, plan.align as nat));
            if in_snapshots {
                let caps = crate::outcome::scanned_captures(&plan, reads@, reads@.len() as int);
                assert forall|i: int| 0 <= i < outcome.blocks@.len() implies holds_data(
                    #[trigger] outcome.blocks@[i],
                ) by {
                    assert(lz4_block(caps[i].1) == outcome.blocks@[i].compressed_data@);
                    assert(caps[i].1.len() == outcome.blocks@[i].uncompressed_data_size);
                }
                assert(blocks_hold_data(outcome.blocks@));
            } else {
                assert(outcome.blocks@.len() == 0);
                assert(blocks_hold_data(outcome.blocks@));
            }
        }
        let ScanOutcome { candidates, blocks, found: _ } = outcome;
        let s = ScanSession { scan_id: scan_id.clone(), plan, candidates, blocks, in_snapshots };
        proof {
            assert(session_wf(&s));
        }
        let ghost olds = self.sessions@;
        match self.find(scan_id.as_str()) {
            Some(k) => {
                self.sessions.remove(k);
                self.sessions.insert(k, s);
                proof {
                    assert(self.sessions@ =~= olds.update(k as int, s));
                    assert forall|i: int, j: int|
                        0 <= i < j < self.sessions@.len() implies (#[trigger] self.sessions@[i]).scan_id@
                        != (#[trigger] self.sessions@[j]).scan_id@ by {
                        if i != k && j != k {
                            assert(olds[i].scan_id@ != olds[j].scan_id@);
                        } else if i == k {
                            assert(olds[k as int].scan_id@ != olds[j].scan_id@);
                        } else {
                            assert(olds[i].scan_id@ != olds[k as int].scan_id@);
                        }
                    }
                    lemma_session_of(self, scan_id@, k as int);
                    assert forall|i: int|
                        0 <= i < olds.len() && olds[i].scan_id@ != scan_id@ implies still_held(self, #[trigger] olds[i]) by {
                        lemma_session_of(self, olds[i].scan_id@, i);
                    }
                }
            },
            None => {
                self.sessions.push(s);
                proof {
                    assert forall|i: int, j: int|
                        0 <= i < j < self.sessions@.len() implies (#[trigger] self.sessions@[i]).scan_id@
                        != (#[trigger] self.sessions@[j]).scan_id@ by {
                        if j == olds.len() {
                            if olds[i].scan_id@ == scan_id@ {
                                lemma_session_of(&*old(self), scan_id@, i);
                            }
                        } else {
                            assert(olds[i].scan_id@ != olds[j].scan_id@);
                        }
                    }
                    lemma_session_of(self, scan_id@, olds.len() as int);
                    assert forall|i: int|
                        0 <= i < olds.len() && olds[i].scan_id@ != scan_id@ implies still_held(self, #[trigger] olds[i]) by {
                        lemma_session_of(self, olds[i].scan_id@, i);
                    }
                }
            },
        }
        r
    }

    /// Runs one filter pass on the session of `req.scan_id`; `reads` holds
    /// what was read at `read_targets` of that session, `None` where a read
    /// failed. On any error the store is left as it was.
    pub fn filter(&mut self, req: &MemoryFilterRequest, reads: &Vec<Option<Vec<u8>>>) -> (r: Result<
        ScanResult,
        FilterError,
    >)
        requires
            store_wf(old(self)),
        ensures
            store_wf(final(self)),
            filter_done(old(self), final(self), req, reads@, r),
    {
        let k = match self.find(req.scan_id.as_str()) {
            Some(k) => k,
            None => {
                return Err(FilterError::ScanIdNotFound);
            },
        };
        let t = match DataType::from_name(req.data_type.as_str()) {
            Some(t) => t,
            None => {
                return Err(FilterError::UnknownDataType);
            },
        };
        let m = match FilterMethod::from_name(req.filter_method.as_str()) {
            Some(m) => m,
            None => {
                return Err(FilterError::UnknownFilterMethod);
            },
        };
        proof {
            lemma_names_unique(t, m, req.data_type@, req.filter_method@);
        }
        let exact: Vec<u8> = if m == FilterMethod::Exact {
            match decode_hex(req.pattern.as_str()) {
                Some(b) => b,
                None => {
                    if t != DataType::Regex {
                        return Err(FilterError::InvalidHex);
                    }
                    Vec::new()
                },
            }
        } else {
            Vec::new()
        };
        let expected = if self.sessions[k].in_snapshots {
            self.sessions[k].blocks.len()
        } else {
            self.sessions[k].candidates.len()
        };
        if reads.len() != expected {
            return Err(FilterError::ReadsMismatch);
        }
        let ghost olds = self.sessions@;
        let ghost s0 = self.sessions@[k as int];
        assert(session_wf(&s0));
        let mut s = self.sessions.remove(k);
        if s.in_snapshots {
            let align = s.plan.align;
            let w = t.width();
            match filter_blocks(&mut s.blocks, reads, t, m, exact.as_slice(), align) {
                Err(e) => {
                    self.sessions.insert(k, s);
                    proof {
                        assert(self.sessions@ =~= olds);
                    }
                    return Err(e);
                },
                Ok(count) => {
                    let ghost news = s.blocks@;
                    let ghost sc = survivor_count(s0.blocks@, news, reads@, reads@.len() as int);
                    proof {
                        assert(exact@ == (if m == FilterMethod::Exact && is_hex_text(req.pattern@) {
                            hex_value(req.pattern@)
                        } else {
                            Seq::empty()
                        }));
                        assert(count < MATERIALIZE_LIMIT ==> count == sc);
                        assert(count >= MATERIALIZE_LIMIT ==> sc >= MATERIALIZE_LIMIT);
                        assert forall|i: int| 0 <= i < news.len() implies usable(reads@[i], news[i])
                            == usable(reads@[i], s0.blocks@[i]) by {}
                        assert forall|i: int, q: int|
                            0 <= i < news.len() && usable(reads@[i], news[i]) && 0 <= q
                                < news[i].offsets@.len() implies #[trigger] news[i].offsets@[q] + w
                            <= reads@[i].unwrap()@.len() by {
                            let b = s0.blocks@[i];
                            lemma_survivors_come_from_start(
                                crate::snapshot::pass_offsets(&b, w as nat, align as nat),
                                t,
                                m,
                                exact@,
                                crate::snapshot::block_bytes(&b).unwrap(),
                                reads@[i].unwrap()@,
                                w as nat,
                            );
                        }
                    }
                    proof {
                        lemma_refiltered_aligned(s0.blocks@, news, reads@, t, m, exact@, align as nat);
                        assert forall|i: int| 0 <= i < news.len() implies holds_data(
                            #[trigger] news[i],
                        ) by {
                            if usable(reads@[i], s0.blocks@[i]) {
                                assert(lz4_block(reads@[i].unwrap()@) == news[i].compressed_data@);
                            } else {
                                assert(holds_data(s0.blocks@[i]));
                                let d = choose|d: Seq<u8>|
                                    lz4_block(d) == s0.blocks@[i].compressed_data@ && d.len()
                                        == s0.blocks@[i].uncompressed_data_size;
                                assert(lz4_block(d) == news[i].compressed_data@);
                            }
                        }
                    }
                    if count < MATERIALIZE_LIMIT {
                        let mut all = materialize(&s.blocks, reads, w);
                        sort_by_address(&mut all);
                        let cands = dedup_sorted(
                            &all,
                            Ghost(materialized(news, reads@, w as nat, news.len() as int)),
                        );
                        proof {
                            lemma_materialized_aligned(news, reads@, w as nat, align as nat, news.len() as int);
                            lemma_sorted_aligned(
                                cands@,
                                materialized(news, reads@, w as nat, news.len() as int),
                                align as nat,
                            );
                        }
                        let res = report(&cands, cands.len(), true);
                        s.candidates = cands;
                        s.blocks = Vec::new();
                        s.in_snapshots = false;
                        let ghost sv = s;
                        self.sessions.insert(k, s);
                        proof {
                            self.lemma_updated(olds, k as int);
                            assert(self.sessions@[k as int] == sv);
                            assert(sorted_unique_from(sv.candidates@, materialized(news, reads@, spec_width(t), news.len() as int)));
                            assert(summarized(sv.candidates@, sv.candidates@.len() as nat, true, &res));
                            assert(blocks_refiltered(s0.blocks@, news, reads@, t, m, exact@, s0.plan.align as nat));
                            assert(snapshot_pass(&s0, &self.sessions@[k as int], t, m, req.pattern@, reads@, &res, news));
                        }
                        Ok(res)
                    } else {
                        let res = report(&s.candidates, count, true);
                        let ghost sv = s;
                        self.sessions.insert(k, s);
                        proof {
                            self.lemma_updated(olds, k as int);
                            assert(self.sessions@[k as int] == sv);
                            assert(sv.blocks@ == news);
                            assert(summarized(sv.candidates@, spec_min_count(sc), true, &res));
                            assert(blocks_refiltered(s0.blocks@, news, reads@, t, m, exact@, s0.plan.align as nat));
                            assert(snapshot_pass(&s0, &self.sessions@[k as int], t, m, req.pattern@, reads@, &res, news));
                        }
                        Ok(res)
                    }
                },
            }
        } else {
            match filter_candidates(&s.candidates, reads, t, m, req.pattern.as_str()) {
                Err(e) => {
                    self.sessions.insert(k, s);
                    proof {
                        assert(self.sessions@ =~= olds);
                    }
                    Err(e)
                },
                Ok(v) => {
                    let n = v.len();
                    let res = report(&v, n, false);
                    proof {
                        lemma_kept_aligned(
                            s0.candidates@,
                            reads@,
                            t,
                            m,
                            req.pattern@,
                            v@,
                            s0.plan.align as nat,
                        );
                    }
                    s.candidates = v;
                    self.sessions.insert(k, s);
                    proof {
                        self.lemma_updated(olds, k as int);
                        assert(session_filtered(&s0, &self.sessions@[k as int], t, m, req.pattern@, reads@, &res));
                    }
                    Ok(res)
                },
            }
        }
    }

    /// Where the caller must read before a filter pass of the named data
    /// type on `scan_id`, as (address, length) pairs in the order the pass
    /// takes its reads.
    pub fn read_targets(&self, scan_id: &str, data_type: &str) -> (r: Option<Vec<(usize, usize)>>)
        requires
            store_wf(self),
        ensures
            r is None <==> session_of(self, scan_id@) is None,
            r matches Some(v) ==> v@ == read_targets_of(
                &self.sessions@[session_of(self, scan_id@)->Some_0],
                read_width(data_type@),
            ),
    {
        let k = match self.find(scan_id) {
            Some(k) => k,
            None => {
                return None;
            },
        };
        let width: Option<usize> = match DataType::from_name(data_type) {
            Some(t) => {
                proof {
                    lemma_type_name_injective(named_type(data_type@), t);
                }
                match t {
                    DataType::Utf8 | DataType::Utf16 | DataType::Aob | DataType::Regex => None,
                    _ => Some(t.width()),
                }
            },
            None => None,
        };
        let ghost wv = read_width(data_type@);
        assert(width == wv);
        let s = &self.sessions[k];
        let mut out: Vec<(usize, usize)> = Vec::new();
        if s.in_snapshots {
            let mut i: usize = 0;
            while i < s.blocks.len()
                invariant
                    width == wv,
                    i <= s.blocks@.len(),
                    s.in_snapshots,
                    out@ =~= read_targets_of(s, width).take(i as int),
                decreases s.blocks@.len() - i,
            {
                out.push((s.blocks[i].base_address, s.blocks[i].uncompressed_data_size));
                i += 1;
            }
        } else {
            let mut i: usize = 0;
            while i < s.candidates.len()
                invariant
                    width == wv,
                    i <= s.candidates@.len(),
                    !s.in_snapshots,
                    out@ =~= read_targets_of(s, width).take(i as int),
                decreases s.candidates@.len() - i,
            {
                let c = &s.candidates[i];
                let n = match width {
                    Some(w) => w,
                    None => c.value.unicode_len() / 2,
                };
                out.push((c.address, n));
                i += 1;
            }
        }
        proof {
            assert(read_targets_of(s, width).take(read_targets_of(s, width).len() as int) =~= read_targets_of(s, width));
        }
        Some(out)
    }

    /// Drops the session of `scan_id`; false when there was none.
    pub fn release(&mut self, scan_id: &str) -> (r: bool)
        requires
            store_wf(old(self)),
        ensures
            store_wf(final(self)),
            r == session_of(old(self), scan_id@) is Some,
            session_of(final(self), scan_id@) is None,
            forall|i: int|
                0 <= i < old(self).sessions@.len() && old(self).sessions@[i].scan_id@ != scan_id@
                    ==> still_held(final(self), #[trigger] old(self).sessions@[i]),
    {
        match self.find(scan_id) {
            Some(k) => {
                let ghost olds = self.sessions@;
                self.sessions.remove(k);
                proof {
                    assert(self.sessions@ =~= olds.remove(k as int));
                    assert forall|i: int, j: int|
                        0 <= i < j < self.sessions@.len() implies (#[trigger] self.sessions@[i]).scan_id@
                        != (#[trigger] self.sessions@[j]).scan_id@ by {
                        let oi = if i < k { i } else { i + 1 };
                        let oj = if j < k { j } else { j + 1 };
                        assert(olds[oi].scan_id@ != olds[oj].scan_id@);
                    }
                    assert forall|i: int| 0 <= i < self.sessions@.len() implies session_wf(
                        &#[trigger] self.sessions@[i],
                    ) by {
                        let oi = if i < k { i } else { i + 1 };
                        assert(session_wf(&olds[oi]));
                    }
                    assert forall|i: int| 0 <= i < self.sessions@.len() implies self.sessions@[i].scan_id@
                        != scan_id@ by {
                        let oi = if i < k { i } else { i + 1 };
                        assert(olds[oi].scan_id@ != olds[k as int].scan_id@);
                    }
                    assert forall|i: int|
                        0 <= i < olds.len() && olds[i].scan_id@ != scan_id@ implies still_held(
                        self,
                        #[trigger] olds[i],
                    ) by {
                        let ni = if i < k { i } else { i - 1 };
                        assert(self.sessions@[ni] == olds[i]);
                        lemma_session_of(self, olds[i].scan_id@, ni);
                    }
                }
                true
            },
            None => {
                proof {
                    assert forall|i: int|
                        0 <= i < self.sessions@.len() && self.sessions@[i].scan_id@ != scan_id@ implies still_held(
                        self,
                        #[trigger] self.sessions@[i],
                    ) by {
                        lemma_session_of(self, self.sessions@[i].scan_id@, i);
                    }
                }
                false
            },
        }
    }

    proof fn lemma_updated(&self, olds: Seq<ScanSession>, k: int)
        requires
            0 <= k < olds.len(),
            self.sessions@.len() == olds.len(),
            forall|i: int| 0 <= i < olds.len() && i != k ==> self.sessions@[i] == olds[i],
            self.sessions@[k].scan_id@ == olds[k].scan_id@,
            session_wf(&self.sessions@[k]),
            forall|i: int| 0 <= i < olds.len() ==> session_wf(&#[trigger] olds[i]),
            forall|i: int, j: int|
                0 <= i < j < olds.len() ==> (#[trigger] olds[i]).scan_id@
                    != (#[trigger] olds[j]).scan_id@,
        ensures
            store_wf(self),
    {
        assert forall|i: int, j: int|
            0 <= i < j < self.sessions@.len() implies (#[trigger] self.sessions@[i]).scan_id@
            != (#[trigger] self.sessions@[j]).scan_id@ by {
            assert(olds[i].scan_id@ != olds[j].scan_id@);
        }
        assert forall|i: int| 0 <= i < self.sessions@.len() implies session_wf(
            &#[trigger] self.sessions@[i],
        ) by {
            if i != k {
                assert(session_wf(&olds[i]));
            }
        }
    }
}

/// The data type that a name stands for, if any.
pub open spec fn type_of_name(name: Seq<char>) -> Option<DataType> {
    if name == "int8"@ {
        Some(DataType::Int8)
    } else if name == "uint8"@ {
        Some(DataType::Uint8)
    } else if name == "int16"@ {
        Some(DataType::Int16)
    } else if name == "uint16"@ {
        Some(DataType::Uint16)
    } else if name == "int32"@ {
        Some(DataType::Int32)
    } else if name == "uint32"@ {
        Some(DataType::Uint32)
    } else if name == "int64"@ {
        Some(DataType::Int64)
    } else if name == "uint64"@ {
        Some(DataType::Uint64)
    } else if name == "float"@ {
        Some(DataType::Float)
    } else if name == "double"@ {
        Some(DataType::Double)
    } else if name == "utf-8"@ {
        Some(DataType::Utf8)
    } else if name == "utf-16"@ {
        Some(DataType::Utf16)
    } else if name == "aob"@ {
        Some(DataType::Aob)
    } else if name == "regex"@ {
        Some(DataType::Regex)
    } else {
        None
    }
}

proof fn lemma_type_of_name(x: DataType)
    ensures
        type_of_name(data_type_name(x)) == Some(x),
{
    match x {
        DataType::Int8 => {
            reveal_strlit("int8");
        },
        DataType::Uint8 => {
            reveal_strlit("int8");
            reveal_strlit("uint8");
            assert("uint8"@.len() != "int8"@.len());
        },
        DataType::Int16 => {
            reveal_strlit("int8");
            reveal_strlit("uint8");
            reveal_strlit("int16");
            assert("int16"@.len() != "int8"@.len());
            assert("int16"@[0] != "uint8"@[0]);
        },
        DataType::Uint16 => {
            reveal_strlit("int8");
            reveal_strlit("uint8");
            reveal_strlit("int16");
            reveal_strlit("uint16");
            assert("uint16"@.len() != "int8"@.len());
            assert("uint16"@.len() != "uint8"@.len());
            assert("uint16"@.len() != "int16"@.len());
        },
        DataType::Int32 => {
            reveal_strlit("int8");
            reveal_strlit("uint8");
            reveal_strlit("int16");
            reveal_strlit("uint16");
            reveal_strlit("int32");
            assert("int32"@.len() != "int8"@.len());
            assert("int32"@[0] != "uint8"@[0]);
            assert("int32"@[3] != "int16"@[3]);
            assert("int32"@.len() != "uint16"@.len());
        },
        DataType::Uint32 => {
            reveal_strlit("int8");
            reveal_strlit("uint8");
            reveal_strlit("int16");
            reveal_strlit("uint16");
            reveal_strlit("int32");
            reveal_strlit("uint32");
            assert("uint32"@.len() != "int8"@.len());
            assert("uint32"@.len() != "uint8"@.len());
            assert("uint32"@.len() != "int16"@.len());
            assert("uint32"@[4] != "uint16"@[4]);
            assert("uint32"@.len() != "int32"@.len());
        },
        DataType::Int64 => {
            reveal_strlit("int8");
            reveal_strlit("uint8");
            reveal_strlit("int16");
            reveal_strlit("uint16");
            reveal_strlit("int32");
            reveal_strlit("uint32");
            reveal_strlit("int64");
            assert("int64"@.len() != "int8"@.len());
            assert("int64"@[0] != "uint8"@[0]);
            assert("int64"@[3] != "int16"@[3]);
            assert("int64"@.len() != "uint16"@.len());
            assert("int64"@[3] != "int32"@[3]);
            assert("int64"@.len() != "uint32"@.len());
        },
        DataType::Uint64 => {
            reveal_strlit("int8");
            reveal_strlit("uint8");
            reveal_strlit("int16");
            reveal_strlit("uint16");
            reveal_strlit("int32");
            reveal_strlit("uint32");
            reveal_strlit("int64");
            reveal_strlit("uint64");
            assert("uint64"@.len() != "int8"@.len());
            assert("uint64"@.len() != "uint8"@.len());
            assert("uint64"@.len() != "int16"@.len());
            assert("uint64"@[4] != "uint16"@[4]);
            assert("uint64"@.len() != "int32"@.len());
            assert("uint64"@[4] != "uint32"@[4]);
            assert("uint64"@.len() != "int64"@.len());
        },
        DataType::Float => {
            reveal_strlit("int8");
            reveal_strlit("uint8");
            reveal_strlit("int16");
            reveal_strlit("uint16");
            reveal_strlit("int32");
            reveal_strlit("uint32");
            reveal_strlit("int64");
            reveal_strlit("uint64");
            reveal_strlit("float");
            assert("float"@.len() != "int8"@.len());
            assert("float"@[0] != "uint8"@[0]);
            assert("float"@[0] != "int16"@[0]);
            assert("float"@.len() != "uint16"@.len());
            assert("float"@[0] != "int32"@[0]);
            assert("float"@.len() != "uint32"@.len());
            assert("float"@[0] != "int64"@[0]);
            assert("float"@.len() != "uint64"@.len());
        },
        DataType::Double => {
            reveal_strlit("int8");
            reveal_strlit("uint8");
            reveal_strlit("int16");
            reveal_strlit("uint16");
            reveal_strlit("int32");
            reveal_strlit("uint32");
            reveal_strlit("int64");
            reveal_strlit("uint64");
            reveal_strlit("float");
            reveal_strlit("double");
            assert("double"@.len() != "int8"@.len());
            assert("double"@.len() != "uint8"@.len());
            assert("double"@.len() != "int16"@.len());
            assert("double"@[0] != "uint16"@[0]);
            assert("double"@.len() != "int32"@.len());
            assert("double"@[0] != "uint32"@[0]);
            assert("double"@.len() != "int64"@.len());
            assert("double"@[0] != "uint64"@[0]);
            assert("double"@.len() != "float"@.len());
        },
        DataType::Utf8 => {
            reveal_strlit("int8");
            reveal_strlit("uint8");
            reveal_strlit("int16");
            reveal_strlit("uint16");
            reveal_strlit("int32");
            reveal_strlit("uint32");
            reveal_strlit("int64");
            reveal_strlit("uint64");
            reveal_strlit("float");
            reveal_strlit("double");
            reveal_strlit("utf-8");
            assert("utf-8"@.len() != "int8"@.len());
            assert("utf-8"@[1] != "uint8"@[1]);
            assert("utf-8"@[0] != "int16"@[0]);
            assert("utf-8"@.len() != "uint16"@.len());
            assert("utf-8"@[0] != "int32"@[0]);
            assert("utf-8"@.len() != "uint32"@.len());
            assert("utf-8"@[0] != "int64"@[0]);
            assert("utf-8"@.len() != "uint64"@.len());
            assert("utf-8"@[0] != "float"@[0]);
            assert("utf-8"@.len() != "double"@.len());
        },
        DataType::Utf16 => {
            reveal_strlit("int8");
            reveal_strlit("uint8");
            reveal_strlit("int16");
            reveal_strlit("uint16");
            reveal_strlit("int32");
            reveal_strlit("uint32");
            reveal_strlit("int64");
            reveal_strlit("uint64");
            reveal_strlit("float");
            reveal_strlit("double");
            reveal_strlit("utf-8");
            reveal_strlit("utf-16");
            assert("utf-16"@.len() != "int8"@.len());
            assert("utf-16"@.len() != "uint8"@.len());
            assert("utf-16"@.len() != "int16"@.len());
            assert("utf-16"@[1] != "uint16"@[1]);
            assert("utf-16"@.len() != "int32"@.len());
            assert("utf-16"@[1] != "uint32"@[1]);
            assert("utf-16"@.len() != "int64"@.len());
            assert("utf-16"@[1] != "uint64"@[1]);
            assert("utf-16"@.len() != "float"@.len());
            assert("utf-16"@[0] != "double"@[0]);
            assert("utf-16"@.len() != "utf-8"@.len());
        },
        DataType::Aob => {
            reveal_strlit("int8");
            reveal_strlit("uint8");
            reveal_strlit("int16");
            reveal_strlit("uint16");
            reveal_strlit("int32");
            reveal_strlit("uint32");
            reveal_strlit("int64");
            reveal_strlit("uint64");
            reveal_strlit("float");
            reveal_strlit("double");
            reveal_strlit("utf-8");
            reveal_strlit("utf-16");
            reveal_strlit("aob");
            assert("aob"@.len() != "int8"@.len());
            assert("aob"@.len() != "uint8"@.len());
            assert("aob"@.len() != "int16"@.len());
            assert("aob"@.len() != "uint16"@.len());
            assert("aob"@.len() != "int32"@.len());
            assert("aob"@.len() != "uint32"@.len());
            assert("aob"@.len() != "int64"@.len());
            assert("aob"@.len() != "uint64"@.len());
            assert("aob"@.len() != "float"@.len());
            assert("aob"@.len() != "double"@.len());
            assert("aob"@.len() != "utf-8"@.len());
            assert("aob"@.len() != "utf-16"@.len());
        },
        DataType::Regex => {
            reveal_strlit("int8");
            reveal_strlit("uint8");
            reveal_strlit("int16");
            reveal_strlit("uint16");
            reveal_strlit("int32");
            reveal_strlit("uint32");
            reveal_strlit("int64");
            reveal_strlit("uint64");
            reveal_strlit("float");
            reveal_strlit("double");
            reveal_strlit("utf-8");
            reveal_strlit("utf-16");
            reveal_strlit("aob");
            reveal_strlit("regex");
            assert("regex"@.len() != "int8"@.len());
            assert("regex"@[0] != "uint8"@[0]);
            assert("regex"@[0] != "int16"@[0]);
            assert("regex"@.len() != "uint16"@.len());
            assert("regex"@[0] != "int32"@[0]);
            assert("regex"@.len() != "uint32"@.len());
            assert("regex"@[0] != "int64"@[0]);
            assert("regex"@.len() != "uint64"@.len());
            assert("regex"@[0] != "float"@[0]);
            assert("regex"@.len() != "double"@.len());
            assert("regex"@[0] != "utf-8"@[0]);
            assert("regex"@.len() != "utf-16"@.len());
            assert("regex"@.len() != "aob"@.len());
        },
    }
}

/// The filter method that a name stands for, if any.
pub open spec fn method_of_name(name: Seq<char>) -> Option<FilterMethod> {
    if name == "exact"@ {
        Some(FilterMethod::Exact)
    } else if name == "changed"@ {
        Some(FilterMethod::Changed)
    } else if name == "unchanged"@ {
        Some(FilterMethod::Unchanged)
    } else if name == "increased"@ {
        Some(FilterMethod::Increased)
    } else if name == "decreased"@ {
        Some(FilterMethod::Decreased)
    } else {
        None
    }
}

proof fn lemma_method_of_name(x: FilterMethod)
    ensures
        method_of_name(filter_method_name(x)) == Some(x),
{
    match x {
        FilterMethod::Exact => {
            reveal_strlit("exact");
        },
        FilterMethod::Changed => {
            reveal_strlit("exact");
            reveal_strlit("changed");
            assert("changed"@.len() != "exact"@.len());
        },
        FilterMethod::Unchanged => {
            reveal_strlit("exact");
            reveal_strlit("changed");
            reveal_strlit("unchanged");
            assert("unchanged"@.len() != "exact"@.len());
            assert("unchanged"@.len() != "changed"@.len());
        },
        FilterMethod::Increased => {
            reveal_strlit("exact");
            reveal_strlit("changed");
            reveal_strlit("unchanged");
            reveal_strlit("increased");
            assert("increased"@.len() != "exact"@.len());
            assert("increased"@.len() != "changed"@.len());
            assert("increased"@[0] != "unchanged"@[0]);
        },
        FilterMethod::Decreased => {
            reveal_strlit("exact");
            reveal_strlit("changed");
            reveal_strlit("unchanged");
            reveal_strlit("increased");
            reveal_strlit("decreased");
            assert("decreased"@.len() != "exact"@.len());
            assert("decreased"@.len() != "changed"@.len());
            assert("decreased"@[0] != "unchanged"@[0]);
            assert("decreased"@[0] != "increased"@[0]);
        },
    }
}

/// No two data types share a name.
pub proof fn lemma_type_name_injective(a: DataType, b: DataType)
    requires
        data_type_name(a) == data_type_name(b),
    ensures
        a == b,
{
    lemma_type_of_name(a);
    lemma_type_of_name(b);
}

/// No two filter methods share a name.
pub proof fn lemma_method_name_injective(a: FilterMethod, b: FilterMethod)
    requires
        filter_method_name(a) == filter_method_name(b),
    ensures
        a == b,
{
    lemma_method_of_name(a);
    lemma_method_of_name(b);
}

proof fn lemma_names_unique(t: DataType, m: FilterMethod, tn: Seq<char>, mn: Seq<char>)
    requires
        data_type_name(t) == tn,
        filter_method_name(m) == mn,
    ensures
        named_type(tn) == t,
        named_method(mn) == m,
{
    lemma_type_name_injective(named_type(tn), t);
    lemma_method_name_injective(named_method(mn), m);
}

/// What a filter pass on the store does: fails on an unknown scan id, then
/// on a request error, then on a corrupt snapshot or a stored value that is
/// not hex text, leaving the store as it was; otherwise it filters the
/// session of that id and leaves the others.
pub open spec fn filter_done(
    old: &SessionStore,
    new: &SessionStore,
    req: &MemoryFilterRequest,
    reads: Seq<Option<Vec<u8>>>,
    r: Result<ScanResult, FilterError>,
) -> bool {
    match session_of(old, req.scan_id@) {
        None => r == Err::<ScanResult, FilterError>(FilterError::ScanIdNotFound) && new.sessions@
            == old.sessions@,
        Some(k) => {
            let s = old.sessions@[k];
            let t = named_type(req.data_type@);
            let m = named_method(req.filter_method@);
            match request_error(&s, req, reads) {
                Some(e) => r == Err::<ScanResult, FilterError>(e) && new.sessions@ == old.sessions@,
                None => if s.in_snapshots && some_block_corrupt(s.blocks@) {
                    r == Err::<ScanResult, FilterError>(FilterError::CorruptSnapshot)
                        && new.sessions@ == old.sessions@
                } else if !s.in_snapshots && exists|j: int|
                    0 <= j < s.candidates@.len() && candidate_invalid(
                        s.candidates@[j],
                        reads[j],
                        t,
                        m,
                    ) {
                    r == Err::<ScanResult, FilterError>(FilterError::InvalidHex) && new.sessions@
                        == old.sessions@
                } else {
                    &&& r is Ok
                    &&& new.sessions@.len() == old.sessions@.len()
                    &&& forall|i: int|
                        0 <= i < old.sessions@.len() && i != k ==> new.sessions@[i]
                            == old.sessions@[i]
                    &&& session_filtered(&s, &new.sessions@[k], t, m, req.pattern@, reads, &r->Ok_0)
                },
            }
        },
    }
}

} // verus!
