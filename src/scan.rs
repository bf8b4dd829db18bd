use vstd::prelude::*;
use crate::hexcode::{decode_hex, encode_hex, hex_text, hex_value, is_hex_text};
use crate::kinds::{spec_width, DataType, FindType};
use crate::search::{binary_search, search_positions};
use crate::snapshot::{capture_block, candidate_view, lz4_block, Candidate, SnapshotBlock};

verus! {

/// Size of the chunks that a range is read in.
pub const CHUNK_SIZE: usize = 16 * 1024 * 1024;

/// What a client asks a scan for.
pub struct MemoryScanRequest {
    pub pattern: String,
    pub address_ranges: Vec<(usize, usize)>,
    pub find_type: String,
    pub data_type: String,
    pub scan_id: String,
    pub align: usize,
    pub return_as_json: bool,
    pub do_suspend: bool,
}

/// Why a scan request cannot be planned.
#[derive(Clone, Copy, Debug, PartialEq, Eq, Structural)]
pub enum ScanError {
    UnknownDataType,
    UnknownFindType,
    /// A range whose start lies after its end.
    InvalidRange,
}

/// How each chunk is searched.
pub enum Matcher {
    /// Every occurrence of these bytes.
    Bytes(Vec<u8>),
    /// Every match of this regular expression over the bytes.
    Pattern(String),
    /// A pattern that is not hex text: nothing matches.
    Nothing,
    /// No search: each chunk is captured whole.
    Snapshot,
}

/// One chunk of a range: `len` bytes from `start` belong to it, and
/// `read_len` bytes are read so that a pattern that starts inside it and
/// runs past its end is still seen whole.
#[derive(Clone, Copy, Debug, PartialEq, Eq, Structural)]
pub struct Chunk {
    pub start: usize,
    pub len: usize,
    pub read_len: usize,
}

/// A checked scan request: its types, alignment, matcher and chunks.
pub struct ScanPlan {
    pub find_type: FindType,
    pub data_type: DataType,
    pub align: usize,
    pub pattern: String,
    pub matcher: Matcher,
    pub chunks: Vec<Chunk>,
}

/// The alignment in effect: the one asked for, or the type's width where
/// none (0) was given.
pub open spec fn effective_align(align: nat, t: DataType) -> nat {
    if align == 0 {
        spec_width(t)
    } else {
        align
    }
}

pub open spec fn spec_min(a: int, b: int) -> int {
    if a <= b {
        a
    } else {
        b
    }
}

/// The chunks of `[s, e)`: consecutive pieces of `CHUNK_SIZE` bytes, the
/// last one shorter, each read `overlap` bytes further where the range
/// allows.
pub open spec fn range_chunks(s: int, e: int, overlap: nat) -> Seq<Chunk>
    decreases e - s,
{
    if s >= e || s < 0 {
        Seq::empty()
    } else {
        let len = spec_min(CHUNK_SIZE as int, e - s);
        seq![
            Chunk {
                start: s as usize,
                len: len as usize,
                read_len: spec_min(len + overlap, e - s) as usize,
            },
        ] + range_chunks(s + len, e, overlap)
    }
}

/// The chunks of every range, range after range.
pub open spec fn plan_chunks(ranges: Seq<(usize, usize)>, overlap: nat) -> Seq<Chunk>
    decreases ranges.len(),
{
    if ranges.len() == 0 {
        Seq::empty()
    } else {
        plan_chunks(ranges.drop_last(), overlap) + range_chunks(
            ranges.last().0 as int,
            ranges.last().1 as int,
            overlap,
        )
    }
}

/// How far chunks are read past their end for regular expressions, whose
/// matches have no fixed length: a match that starts in a chunk and is at
/// most this much longer than the rest of the chunk is still seen whole.
pub const REGEX_OVERLAP: usize = 64 * 1024;

/// How far chunks overlap: one byte short of a byte pattern, or
/// `REGEX_OVERLAP` for a regular expression.
pub open spec fn matcher_overlap(find: FindType, t: DataType, pattern: Seq<char>) -> nat {
    if find == FindType::Exact && t == DataType::Regex {
        REGEX_OVERLAP as nat
    } else if find == FindType::Exact && is_hex_text(pattern) && hex_value(pattern).len() > 0 {
        (hex_value(pattern).len() - 1) as nat
    } else {
        0
    }
}

/// What a well-formed request asks for, in a plan.
pub open spec fn plan_matches(req: &MemoryScanRequest, p: &ScanPlan) -> bool {
    &&& data_type_named(p.data_type, req.data_type@)
    &&& find_type_named(p.find_type, req.find_type@)
    &&& p.align == effective_align(req.align as nat, p.data_type)
    &&& p.pattern@ == req.pattern@
    &&& p.chunks@ == plan_chunks(
        req.address_ranges@,
        matcher_overlap(p.find_type, p.data_type, req.pattern@),
    )
    &&& match p.matcher {
        Matcher::Snapshot => p.find_type == FindType::Unknown,
        Matcher::Pattern(s) => p.find_type == FindType::Exact && p.data_type == DataType::Regex
            && s@ == req.pattern@,
        Matcher::Bytes(b) => p.find_type == FindType::Exact && p.data_type != DataType::Regex
            && is_hex_text(req.pattern@) && b@ == hex_value(req.pattern@),
        Matcher::Nothing => p.find_type == FindType::Exact && p.data_type != DataType::Regex
            && !is_hex_text(req.pattern@),
    }
}

pub open spec fn data_type_named(t: DataType, name: Seq<char>) -> bool {
    crate::kinds::data_type_name(t) == name
}

pub open spec fn find_type_named(t: FindType, name: Seq<char>) -> bool {
    crate::kinds::find_type_name(t) == name
}

pub open spec fn ranges_valid(ranges: Seq<(usize, usize)>) -> bool {
    forall|i: int| 0 <= i < ranges.len() ==> ranges[i].0 <= ranges[i].1
}

fn chunks_of_range(out: &mut Vec<Chunk>, s: usize, e: usize, overlap: usize)
    requires
        s <= e,
    ensures
        final(out)@ == old(out)@ + range_chunks(s as int, e as int, overlap as nat),
{
    let mut cur: usize = s;
    let ghost before = out@;
    while cur < e
        invariant
            s <= cur <= e,
            before + range_chunks(s as int, e as int, overlap as nat) == out@ + range_chunks(
                cur as int,
                e as int,
                overlap as nat,
            ),
        decreases e - cur,
    {
        let len = if CHUNK_SIZE <= e - cur {
            CHUNK_SIZE
        } else {
            e - cur
        };
        let read_len = if overlap >= (e - cur) - len {
            e - cur
        } else {
            len + overlap
        };
        let c = Chunk { start: cur, len, read_len };
        proof {
            let rest = range_chunks((cur + len) as int, e as int, overlap as nat);
            assert(range_chunks(cur as int, e as int, overlap as nat) == seq![c] + rest);
            assert(out@ + (seq![c] + rest) =~= out@.push(c) + rest);
        }
        out.push(c);
        cur = cur + len;
    }
    proof {
        assert(out@ + range_chunks(cur as int, e as int, overlap as nat) =~= out@);
    }
}

/// Checks a scan request and turns it into a plan: its types, its
/// alignment, how chunks are searched, and the chunks of every range.
pub fn plan_scan(req: &MemoryScanRequest) -> (r: Result<ScanPlan, ScanError>)
    ensures
        r matches Ok(p) ==> plan_matches(req, &p) && crate::outcome::plan_wf(&p),
        r matches Err(e) ==> (e == ScanError::UnknownDataType <==> forall|t: DataType|
            !data_type_named(t, req.data_type@)),
        r matches Err(e) ==> (e == ScanError::UnknownFindType <==> (exists|t: DataType|
            data_type_named(t, req.data_type@)) && forall|t: FindType|
            !find_type_named(t, req.find_type@)),
        r is Err <==> (forall|t: DataType| !data_type_named(t, req.data_type@)) || (forall|
            t: FindType,
        | !find_type_named(t, req.find_type@)) || !ranges_valid(req.address_ranges@),
{
    let t = match DataType::from_name(req.data_type.as_str()) {
        Some(t) => t,
        None => {
            return Err(ScanError::UnknownDataType);
        },
    };
    let f = match FindType::from_name(req.find_type.as_str()) {
        Some(f) => f,
        None => {
            proof {
                assert(data_type_named(t, req.data_type@));
            }
            return Err(ScanError::UnknownFindType);
        },
    };
    let align = if req.align == 0 {
        t.width()
    } else {
        req.align
    };
    let matcher = match f {
        FindType::Unknown => Matcher::Snapshot,
        FindType::Exact => {
            if t == DataType::Regex {
                Matcher::Pattern(req.pattern.clone())
            } else {
                match decode_hex(req.pattern.as_str()) {
                    Some(b) => Matcher::Bytes(b),
                    None => Matcher::Nothing,
                }
            }
        },
    };
    let overlap: usize = match &matcher {
        Matcher::Bytes(b) => if b.len() > 0 {
            b.len() - 1
        } else {
            0
        },
        Matcher::Pattern(_) => REGEX_OVERLAP,
        _ => 0,
    };
    let mut chunks: Vec<Chunk> = Vec::new();
    let mut i: usize = 0;
    while i < req.address_ranges.len()
        invariant
            i <= req.address_ranges@.len(),
            data_type_named(t, req.data_type@),
            find_type_named(f, req.find_type@),
            forall|j: int| 0 <= j < i ==> req.address_ranges@[j].0 <= req.address_ranges@[j].1,
            chunks@ == plan_chunks(req.address_ranges@.take(i as int), overlap as nat),
        decreases req.address_ranges@.len() - i,
    {
        let (s, e) = req.address_ranges[i];
        if s > e {
            proof {
                assert(!ranges_valid(req.address_ranges@));
                assert(data_type_named(t, req.data_type@));
                assert(find_type_named(f, req.find_type@));
            }
            return Err(ScanError::InvalidRange);
        }
        proof {
            assert(req.address_ranges@.take(i + 1).drop_last() =~= req.address_ranges@.take(
                i as int,
            ));
        }
        chunks_of_range(&mut chunks, s, e, overlap);
        i += 1;
    }
    proof {
        assert(req.address_ranges@.take(i as int) =~= req.address_ranges@);
        assert(data_type_named(t, req.data_type@));
        assert(find_type_named(f, req.find_type@));
    }
    proof {
        crate::outcome::lemma_plan_chunks_bounded(req.address_ranges@, overlap as nat);
    }
    let p = ScanPlan {
        find_type: f,
        data_type: t,
        align,
        pattern: req.pattern.clone(),
        matcher,
        chunks,
    };
    Ok(p)
}

/// The regular-expression matches over some bytes, as (start, end) spans,
/// or `None` when the pattern does not compile.
pub uninterp spec fn regex_find_all(pattern: Seq<char>, hay: Seq<u8>) -> Option<Seq<(usize, usize)>>;

/// Relies on regex::bytes::Regex::new, which fails on a pattern that does
/// not compile, and Regex::find_iter: successive non-overlapping matches,
/// each a span of the haystack.
#[verifier::external_body]
fn regex_spans(pattern: &str, hay: &[u8]) -> (r: Option<Vec<(usize, usize)>>)
    ensures
        r.is_some() == regex_find_all(pattern@, hay@).is_some(),
        r.is_some() ==> r.unwrap()@ == regex_find_all(pattern@, hay@).unwrap(),
        r.is_some() ==> forall|i: int|
            0 <= i < r.unwrap()@.len() ==> (#[trigger] r.unwrap()@[i]).0 <= r.unwrap()@[i].1 <= hay@.len(),
{
    match regex::bytes::Regex::new(pattern) {
        Ok(re) => Some(re.find_iter(hay).map(|m| (m.start(), m.end())).collect()),
        Err(_) => None,
    }
}

/// Whether a regular expression matches anywhere in some bytes; false when
/// it does not compile.
pub open spec fn regex_matches(pattern: Seq<char>, hay: Seq<u8>) -> bool {
    regex_find_all(pattern, hay) matches Some(s) && s.len() > 0
}

/// Whether a regular expression matches anywhere in `hay`.
pub fn regex_is_match(pattern: &str, hay: &[u8]) -> (r: bool)
    ensures
        r == regex_matches(pattern@, hay@),
{
    match regex_spans(pattern, hay) {
        Some(s) => s.len() > 0,
        None => false,
    }
}

/// The candidates for the hits of a byte search in a chunk that starts at
/// `base` and owns its first `len` bytes: the positions inside it whose
/// address is a multiple of `align`, each with `text`, the hex text of the
/// pattern's bytes.
pub open spec fn byte_hits(
    ps: Seq<int>,
    base: nat,
    len: nat,
    align: nat,
    text: Seq<char>,
) -> Seq<(nat, Seq<char>)>
    decreases ps.len(),
{
    if ps.len() == 0 {
        Seq::empty()
    } else {
        let rest = byte_hits(ps.drop_last(), base, len, align, text);
        let p = ps.last();
        if 0 <= p < len && (base + p) % (align as int) == 0 {
            rest.push(((base + p) as nat, text))
        } else {
            rest
        }
    }
}

/// The candidates for regex matches in a chunk: the matches that start
/// inside it at an address that is a multiple of `align`, each with the hex
/// text of the bytes it matched.
pub open spec fn span_hits(
    spans: Seq<(usize, usize)>,
    bytes: Seq<u8>,
    base: nat,
    len: nat,
    align: nat,
) -> Seq<(nat, Seq<char>)>
    decreases spans.len(),
{
    if spans.len() == 0 {
        Seq::empty()
    } else {
        let rest = span_hits(spans.drop_last(), bytes, base, len, align);
        let (s, e) = spans.last();
        if s < len && (base + s) % (align as int) == 0 {
            rest.push(((base + s) as nat, hex_text(bytes.subrange(s as int, e as int))))
        } else {
            rest
        }
    }
}

/// The candidates that a chunk read as `bytes` yields under a plan.
pub open spec fn chunk_candidates(p: &ScanPlan, c: Chunk, bytes: Seq<u8>) -> Seq<(nat, Seq<char>)> {
    match p.matcher {
        Matcher::Bytes(b) => if b@.len() > 0 {
            byte_hits(
                search_positions(bytes, b@, 1, 0),
                c.start as nat,
                c.len as nat,
                p.align as nat,
                hex_text(b@),
            )
        } else {
            Seq::empty()
        },
        Matcher::Pattern(s) => match regex_find_all(s@, bytes) {
            Some(spans) => span_hits(spans, bytes, c.start as nat, c.len as nat, p.align as nat),
            None => Seq::empty(),
        },
        _ => Seq::empty(),
    }
}

/// What scanning one chunk gives.
pub struct ChunkScan {
    pub candidates: Vec<Candidate>,
    pub block: Option<SnapshotBlock>,
    pub found: usize,
}

pub open spec fn view_candidates(v: Seq<Candidate>) -> Seq<(nat, Seq<char>)> {
    Seq::new(v.len(), |i: int| candidate_view(&v[i]))
}

/// What a chunk scan holds: the chunk's candidates, or for a snapshot
/// plan the chunk captured whole and a found count of one per type width.
pub open spec fn chunk_scanned(p: &ScanPlan, c: Chunk, bytes: Seq<u8>, r: &ChunkScan) -> bool {
    if p.matcher is Snapshot {
        &&& r.candidates@.len() == 0
        &&& r.block matches Some(b) && b.base_address == c.start && b.compressed_data@ == lz4_block(
            bytes,
        ) && b.uncompressed_data_size == bytes.len() && b.offsets@.len() == 0 && b.is_first
        &&& r.found == bytes.len() / spec_width(p.data_type)
    } else {
        &&& view_candidates(r.candidates@) == chunk_candidates(p, c, bytes)
        &&& r.block is None
        &&& r.found == r.candidates@.len()
    }
}

/// Every candidate address is a multiple of `align`.
pub open spec fn all_aligned(v: Seq<Candidate>, align: nat) -> bool {
    forall|i: int| 0 <= i < v.len() ==> (#[trigger] v[i]).address as int % (align as int) == 0
}

fn collect_byte_hits(
    ps: &Vec<usize>,
    base: usize,
    len: usize,
    align: usize,
    text: &String,
) -> (r: Vec<Candidate>)
    requires
        align > 0,
        base + len <= usize::MAX,
    ensures
        view_candidates(r@) == byte_hits(
            ps@.map_values(|p: usize| p as int),
            base as nat,
            len as nat,
            align as nat,
            text@,
        ),
        all_aligned(r@, align as nat),
{
    let mut r: Vec<Candidate> = Vec::new();
    let mut i: usize = 0;
    let ghost all = ps@.map_values(|p: usize| p as int);
    while i < ps.len()
        invariant
            i <= ps@.len(),
            align > 0,
            base + len <= usize::MAX,
            all == ps@.map_values(|p: usize| p as int),
            view_candidates(r@) == byte_hits(all.take(i as int), base as nat, len as nat, align as nat, text@),
            all_aligned(r@, align as nat),
        decreases ps@.len() - i,
    {
        let p = ps[i];
        proof {
            assert(all.take(i + 1).drop_last() =~= all.take(i as int));
            assert(all.take(i + 1).last() == p as int);
        }
        if p < len && ((base as u128) + (p as u128)) % (align as u128) == 0 {
            let c = Candidate { address: base + p, value: text.clone() };
            proof {
                assert(view_candidates(r@.push(c)) =~= view_candidates(r@).push(candidate_view(&c)));
            }
            r.push(c);
        }
        i += 1;
    }
    proof {
        assert(all.take(ps@.len() as int) =~= all);
    }
    r
}

fn collect_span_hits(
    spans: &Vec<(usize, usize)>,
    bytes: &[u8],
    base: usize,
    len: usize,
    align: usize,
) -> (r: Vec<Candidate>)
    requires
        align > 0,
        base + len <= usize::MAX,
        forall|i: int| 0 <= i < spans@.len() ==> (#[trigger] spans@[i]).0 <= spans@[i].1 <= bytes@.len(),
    ensures
        view_candidates(r@) == span_hits(spans@, bytes@, base as nat, len as nat, align as nat),
        all_aligned(r@, align as nat),
{
    let mut r: Vec<Candidate> = Vec::new();
    let mut i: usize = 0;
    while i < spans.len()
        invariant
            i <= spans@.len(),
            align > 0,
            base + len <= usize::MAX,
            forall|j: int| 0 <= j < spans@.len() ==> (#[trigger] spans@[j]).0 <= spans@[j].1 <= bytes@.len(),
            view_candidates(r@) == span_hits(spans@.take(i as int), bytes@, base as nat, len as nat, align as nat),
            all_aligned(r@, align as nat),
        decreases spans@.len() - i,
    {
        let (s, e) = spans[i];
        proof {
            assert(spans@.take(i + 1).drop_last() =~= spans@.take(i as int));
            assert(spans@.take(i + 1).last() == spans@[i as int]);
        }
        if s < len && ((base as u128) + (s as u128)) % (align as u128) == 0 {
            let c = Candidate { address: base + s, value: encode_hex(&bytes[s..e]) };
            proof {
                assert(view_candidates(r@.push(c)) =~= view_candidates(r@).push(candidate_view(&c)));
            }
            r.push(c);
        }
        i += 1;
    }
    proof {
        assert(spans@.take(spans@.len() as int) =~= spans@);
    }
    r
}

/// Scans one chunk, read as `bytes`: its candidates, or its snapshot.
pub fn scan_chunk(p: &ScanPlan, c: &Chunk, bytes: &[u8]) -> (r: ChunkScan)
    requires
        p.align > 0,
        c.start + c.len <= usize::MAX,
    ensures
        chunk_scanned(p, *c, bytes@, &r),
        all_aligned(r.candidates@, p.align as nat),
{
    proof {
        assert(view_candidates(Seq::<Candidate>::empty()) =~= Seq::empty());
    }
    match &p.matcher {
        Matcher::Snapshot => {
            let w = p.data_type.width();
            let block = capture_block(c.start, bytes);
            ChunkScan { candidates: Vec::new(), block: Some(block), found: bytes.len() / w }
        },
        Matcher::Bytes(b) => {
            if b.len() == 0 {
                return ChunkScan { candidates: Vec::new(), block: None, found: 0 };
            }
            let ps = binary_search(bytes, b.as_slice(), 1);
            proof {
                assert(ps@.map_values(|q: usize| q as int) =~= search_positions(bytes@, b@, 1, 0));
            }
            let text = encode_hex(b.as_slice());
            let cands = collect_byte_hits(&ps, c.start, c.len, p.align, &text);
            let n = cands.len();
            ChunkScan { candidates: cands, block: None, found: n }
        },
        Matcher::Pattern(s) => {
            match regex_spans(s.as_str(), bytes) {
                Some(spans) => {
                    let cands = collect_span_hits(&spans, bytes, c.start, c.len, p.align);
                    let n = cands.len();
                    ChunkScan { candidates: cands, block: None, found: n }
                },
                None => ChunkScan { candidates: Vec::new(), block: None, found: 0 },
            }
        },
        Matcher::Nothing => ChunkScan { candidates: Vec::new(), block: None, found: 0 },
    }
}

} // verus!
