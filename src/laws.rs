use vstd::prelude::*;
use crate::compare::{is_nan_bits, le_value, passes};
use crate::filter::{candidate_kept, kept_candidates};
use crate::hexcode::{hex_value, is_hex_text};
use crate::kinds::{spec_is_float, spec_is_numeric, spec_width, DataType, FilterMethod};
use crate::scan::{byte_hits, effective_align, plan_chunks, range_chunks, spec_min, CHUNK_SIZE};
use crate::search::{lemma_search_finds_every_occurrence, occurs_at, search_positions};
use crate::snapshot::{surviving_offsets, walk_prefix, Candidate};

verus! {

/// Every candidate a filter pass keeps was a candidate before: the pass
/// only narrows the set of addresses.
pub proof fn lemma_kept_candidates_were_candidates(
    cands: Seq<Candidate>,
    reads: Seq<Option<Vec<u8>>>,
    t: DataType,
    m: FilterMethod,
    pattern: Seq<char>,
    n: int,
)
    requires
        0 <= n <= cands.len(),
        n <= reads.len(),
    ensures
        forall|k: int|
            0 <= k < kept_candidates(cands, reads, t, m, pattern, n).len() ==> exists|i: int|
                0 <= i < n && cands[i].address == (#[trigger] kept_candidates(
                    cands,
                    reads,
                    t,
                    m,
                    pattern,
                    n,
                )[k]).0,
    decreases n,
{
    if n > 0 {
        lemma_kept_candidates_were_candidates(cands, reads, t, m, pattern, n - 1);
        let rest = kept_candidates(cands, reads, t, m, pattern, n - 1);
        let all = kept_candidates(cands, reads, t, m, pattern, n);
        assert forall|k: int| 0 <= k < all.len() implies exists|i: int|
            0 <= i < n && cands[i].address == (#[trigger] all[k]).0 by {
            if k < rest.len() {
                assert(all[k] == rest[k]);
                let i = choose|i: int| 0 <= i < n - 1 && cands[i].address == (#[trigger] rest[k]).0;
                assert(cands[i].address == all[k].0);
            } else {
                assert(cands[n - 1].address == all[k].0);
            }
        }
    }
}

/// Whether `unchanged` holds between a value and itself under type `t`:
/// everywhere but for a regex, a number of the wrong width, or a NaN.
pub open spec fn compares_to_itself(t: DataType, b: Seq<u8>) -> bool {
    &&& t != DataType::Regex
    &&& spec_is_numeric(t) ==> b.len() == spec_width(t)
    &&& spec_is_float(t) ==> !is_nan_bits(le_value(b), t == DataType::Double)
}

proof fn lemma_unchanged_on_itself(t: DataType, b: Seq<u8>)
    requires
        compares_to_itself(t, b),
    ensures
        passes(t, FilterMethod::Unchanged, b, b),
{
}

/// The read at a candidate gives back the value it stores, which is hex
/// text and compares to itself.
pub open spec fn reads_back(c: Candidate, read: Option<Vec<u8>>, t: DataType) -> bool {
    is_hex_text(c.value@) && read is Some && read.unwrap()@ == hex_value(c.value@)
        && compares_to_itself(t, read.unwrap()@)
}

/// A filter with method `unchanged` over candidates whose memory still
/// holds the stored values keeps every candidate, in order.
pub proof fn lemma_unchanged_filter_keeps_candidates(
    cands: Seq<Candidate>,
    reads: Seq<Option<Vec<u8>>>,
    t: DataType,
    pattern: Seq<char>,
    n: int,
)
    requires
        0 <= n <= cands.len(),
        n <= reads.len(),
        forall|i: int|
            0 <= i < n ==> reads_back(#[trigger] cands[i], reads[i], t),
    ensures
        kept_candidates(cands, reads, t, FilterMethod::Unchanged, pattern, n).len() == n,
        forall|i: int|
            0 <= i < n ==> (#[trigger] kept_candidates(
                cands,
                reads,
                t,
                FilterMethod::Unchanged,
                pattern,
                n,
            )[i]).0 == cands[i].address,
    decreases n,
{
    if n > 0 {
        lemma_unchanged_filter_keeps_candidates(cands, reads, t, pattern, n - 1);
        let v = reads[n - 1].unwrap();
        assert(is_hex_text(cands[n - 1].value@));
        lemma_unchanged_on_itself(t, v@);
        assert(candidate_kept(cands[n - 1], reads[n - 1], t, FilterMethod::Unchanged, pattern));
    }
}

/// A filter with method `unchanged` over a block whose memory did not
/// change keeps every offset it starts from that has room for a value.
pub proof fn lemma_unchanged_filter_keeps_offsets(
    offs: Seq<usize>,
    t: DataType,
    d: Seq<u8>,
    w: nat,
)
    requires
        w == spec_width(t),
        forall|k: int|
            0 <= k < offs.len() ==> #[trigger] offs[k] + w <= d.len() && compares_to_itself(
                t,
                d.subrange(offs[k] as int, offs[k] + w),
            ),
    ensures
        surviving_offsets(offs, t, FilterMethod::Unchanged, Seq::empty(), d, d, w) == offs,
    decreases offs.len(),
{
    if offs.len() > 0 {
        let o = offs.last();
        assert(offs[offs.len() - 1] == o);
        lemma_unchanged_filter_keeps_offsets(offs.drop_last(), t, d, w);
        lemma_unchanged_on_itself(t, d.subrange(o as int, o + w));
        assert(offs.drop_last().push(o) =~= offs);
    }
}

/// The offsets a first pass walks are aligned: each address `base + o` is a
/// multiple of `align`, with room for `w` bytes.
pub proof fn lemma_walk_is_aligned(base: nat, len: nat, w: nat, align: nat, n: nat)
    requires
        len <= usize::MAX,
    ensures
        forall|k: int|
            0 <= k < walk_prefix(base, len, w, align, n).len() ==> (base + #[trigger] walk_prefix(
                base,
                len,
                w,
                align,
                n,
            )[k]) % (align as int) == 0 && walk_prefix(base, len, w, align, n)[k] + w <= len,
    decreases n,
{
    if n > 0 {
        lemma_walk_is_aligned(base, len, w, align, (n - 1) as nat);
        let rest = walk_prefix(base, len, w, align, (n - 1) as nat);
        let all = walk_prefix(base, len, w, align, n);
        assert forall|k: int| 0 <= k < all.len() implies (base + #[trigger] all[k]) % (align as int)
            == 0 && all[k] + w <= len by {
            if k < rest.len() {
                assert(all[k] == rest[k]);
            } else {
                assert(all[k] == (n - 1) as usize);
            }
        }
    }
}

/// An empty range `[a, a)` has no chunks, so a scan over it finds nothing.
pub proof fn lemma_empty_range_has_no_chunks(a: usize, overlap: nat)
    ensures
        range_chunks(a as int, a as int, overlap).len() == 0,
        plan_chunks(seq![(a, a)], overlap).len() == 0,
{
    let r = seq![(a, a)];
    assert(r.drop_last() =~= Seq::<(usize, usize)>::empty());
    assert(r.last() == (a, a));
    assert(plan_chunks(r.drop_last(), overlap).len() == 0);
}

/// Without an alignment (0) the type's width is used; an alignment of 1
/// lets every address through.
pub proof fn lemma_default_alignment(t: DataType, address: nat)
    ensures
        effective_align(0, t) == spec_width(t),
        effective_align(1, t) == 1,
        address % effective_align(1, t) == 0,
{
}

proof fn lemma_byte_hits_contains(
    ps: Seq<int>,
    base: nat,
    len: nat,
    align: nat,
    text: Seq<char>,
    p: int,
)
    requires
        ps.contains(p),
        0 <= p < len,
        (base + p) % (align as int) == 0,
    ensures
        byte_hits(ps, base, len, align, text).contains(((base + p) as nat, text)),
    decreases ps.len(),
{
    let rest = byte_hits(ps.drop_last(), base, len, align, text);
    if ps.last() == p {
        assert(byte_hits(ps, base, len, align, text) == rest.push(((base + p) as nat, text)));
        assert(rest.push(((base + p) as nat, text))[rest.len() as int] == ((base + p) as nat, text));
    } else {
        let k = choose|k: int| 0 <= k < ps.len() && ps[k] == p;
        assert(k != ps.len() - 1);
        assert(ps.drop_last()[k] == p);
        lemma_byte_hits_contains(ps.drop_last(), base, len, align, text, p);
        let j = choose|j: int| 0 <= j < rest.len() && rest[j] == ((base + p) as nat, text);
        let all = byte_hits(ps, base, len, align, text);
        assert(all[j] == rest[j]);
    }
}

/// The hits of a chunk read from a range whose memory, from `s0` on, is
/// `mem`: the pattern positions in the bytes it reads that it owns.
pub open spec fn chunk_hits(
    s0: int,
    mem: Seq<u8>,
    c: crate::scan::Chunk,
    pat: Seq<u8>,
    align: nat,
    text: Seq<char>,
) -> Seq<(nat, Seq<char>)> {
    byte_hits(
        search_positions(
            mem.subrange(c.start - s0, c.start - s0 + c.read_len),
            pat,
            1,
            0,
        ),
        c.start as nat,
        c.len as nat,
        align,
        text,
    )
}

/// A byte pattern that occurs at an aligned address of a range is found by
/// the chunk that holds its first byte, also where it runs past that
/// chunk's end into the next one: chunks are read one byte short of the
/// pattern further than they reach.
pub proof fn lemma_straddling_pattern_is_found(
    s0: int,
    s: int,
    e: int,
    mem: Seq<u8>,
    pat: Seq<u8>,
    q: int,
    align: nat,
    text: Seq<char>,
)
    requires
        0 <= s0 <= s <= e <= usize::MAX,
        mem.len() == e - s0,
        pat.len() > 0,
        occurs_at(mem, pat, q),
        s <= s0 + q,
        align > 0,
        (s0 + q) % (align as int) == 0,
    ensures
        exists|i: int|
            0 <= i < range_chunks(s, e, (pat.len() - 1) as nat).len() && #[trigger] chunk_hits(
                s0,
                mem,
                range_chunks(s, e, (pat.len() - 1) as nat)[i],
                pat,
                align,
                text,
            ).contains(((s0 + q) as nat, text)),
    decreases e - s,
{
    let ov = (pat.len() - 1) as nat;
    let a = s0 + q;
    let len = spec_min(CHUNK_SIZE as int, e - s);
    let rest = range_chunks(s + len, e, ov);
    let all = range_chunks(s, e, ov);
    assert(all == seq![all[0]] + rest);
    let c = all[0];
    if a < s + len {
        assert(c.start == s && c.len == len && c.read_len == spec_min(len + ov, e - s));
        assert(a - s + pat.len() <= c.read_len);
        let w = mem.subrange(s - s0, s - s0 + c.read_len);
        assert(w.subrange(a - s, a - s + pat.len()) =~= mem.subrange(q, q + pat.len()));
        assert(occurs_at(w, pat, a - s));
        lemma_search_finds_every_occurrence(w, pat, 0, a - s);
        lemma_byte_hits_contains(search_positions(w, pat, 1, 0), s as nat, len as nat, align, text, a - s);
        assert(chunk_hits(s0, mem, all[0], pat, align, text).contains((a as nat, text)));
    } else {
        lemma_straddling_pattern_is_found(s0, s + len, e, mem, pat, q, align, text);
        let i = choose|i: int|
            0 <= i < rest.len() && #[trigger] chunk_hits(s0, mem, rest[i], pat, align, text).contains(
                (a as nat, text),
            );
        assert(all[i + 1] == rest[i]);
    }
}

/// In a well-formed store, which scans and filters keep well formed, every
/// candidate address is a multiple of its session's alignment.
pub proof fn lemma_store_candidates_aligned(st: &crate::session::SessionStore, i: int, k: int)
    requires
        crate::session::store_wf(st),
        0 <= i < st.sessions@.len(),
        0 <= k < st.sessions@[i].candidates@.len(),
    ensures
        st.sessions@[i].candidates@[k].address as int % (st.sessions@[i].plan.align as int) == 0,
{
    assert(crate::session::session_wf(&st.sessions@[i]));
}

/// `part` stands in `all` from position `off` on.
pub open spec fn chunks_at(all: Seq<crate::scan::Chunk>, off: int, part: Seq<crate::scan::Chunk>) -> bool {
    &&& 0 <= off
    &&& off + part.len() <= all.len()
    &&& forall|q: int| 0 <= q < part.len() ==> all[off + q] == #[trigger] part[q]
}

proof fn lemma_range_chunks_in_plan(ranges: Seq<(usize, usize)>, ov: nat, r: int)
    requires
        0 <= r < ranges.len(),
    ensures
        exists|off: int|
            chunks_at(
                plan_chunks(ranges, ov),
                off,
                range_chunks(ranges[r].0 as int, ranges[r].1 as int, ov),
            ),
    decreases ranges.len(),
{
    let front = plan_chunks(ranges.drop_last(), ov);
    let last = range_chunks(ranges.last().0 as int, ranges.last().1 as int, ov);
    assert(plan_chunks(ranges, ov) == front + last);
    let rc = range_chunks(ranges[r].0 as int, ranges[r].1 as int, ov);
    if r == ranges.len() - 1 {
        let off = front.len() as int;
        assert forall|q: int| 0 <= q < rc.len() implies plan_chunks(ranges, ov)[off + q]
            == #[trigger] rc[q] by {}
        assert(chunks_at(plan_chunks(ranges, ov), off, rc));
    } else {
        assert(ranges.drop_last()[r] == ranges[r]);
        lemma_range_chunks_in_plan(ranges.drop_last(), ov, r);
        let off = choose|off: int| chunks_at(front, off, rc);
        assert forall|q: int| 0 <= q < rc.len() implies plan_chunks(ranges, ov)[off + q]
            == #[trigger] rc[q] by {
            assert(front[off + q] == rc[q]);
        }
        assert(chunks_at(plan_chunks(ranges, ov), off, rc));
    }
}

proof fn lemma_scanned_includes_chunk(
    p: &crate::scan::ScanPlan,
    reads: Seq<Option<Vec<u8>>>,
    n: int,
    i: int,
    x: (nat, Seq<char>),
)
    requires
        0 <= i < n <= reads.len(),
        reads[i] is Some,
        crate::scan::chunk_candidates(p, p.chunks@[i], reads[i].unwrap()@).contains(x),
    ensures
        crate::outcome::scanned_candidates(p, reads, n).contains(x),
    decreases n,
{
    let rest = crate::outcome::scanned_candidates(p, reads, n - 1);
    if i < n - 1 {
        lemma_scanned_includes_chunk(p, reads, n - 1, i, x);
        let k = choose|k: int| 0 <= k < rest.len() && rest[k] == x;
        match reads[n - 1] {
            Some(b) => {
                let all = rest + crate::scan::chunk_candidates(p, p.chunks@[n - 1], b@);
                assert(all[k] == x);
            },
            None => {},
        }
    } else {
        let add = crate::scan::chunk_candidates(p, p.chunks@[i], reads[i].unwrap()@);
        let k = choose|k: int| 0 <= k < add.len() && add[k] == x;
        assert((rest + add)[rest.len() + k] == x);
    }
}

/// Every chunk of the plan was read from `mem`, which holds the target's
/// bytes by address.
pub open spec fn reads_from(p: &crate::scan::ScanPlan, reads: Seq<Option<Vec<u8>>>, mem: Seq<u8>) -> bool {
    &&& reads.len() == p.chunks@.len()
    &&& forall|i: int|
        0 <= i < reads.len() ==> (#[trigger] reads[i]) is Some && p.chunks@[i].start
            + p.chunks@[i].read_len <= mem.len() && reads[i].unwrap()@ == mem.subrange(
            p.chunks@[i].start as int,
            p.chunks@[i].start + p.chunks@[i].read_len,
        )
}

/// A byte-pattern scan whose chunks were all read finds every occurrence of
/// the pattern inside a requested range at an address that is a multiple
/// of the plan's alignment (the type's width unless one was given; with 1,
/// every address), including one that straddles two chunks, and records
/// it with the hex text of the pattern's bytes.
pub proof fn lemma_scan_finds_every_aligned_occurrence(
    req: &crate::scan::MemoryScanRequest,
    p: &crate::scan::ScanPlan,
    reads: Seq<Option<Vec<u8>>>,
    mem: Seq<u8>,
    r: int,
    a: int,
)
    requires
        crate::scan::plan_matches(req, p),
        p.matcher is Bytes,
        p.align > 0,
        reads_from(p, reads, mem),
        0 <= r < req.address_ranges@.len(),
        req.address_ranges@[r].0 <= a,
        a + hex_value(req.pattern@).len() <= req.address_ranges@[r].1 <= mem.len(),
        hex_value(req.pattern@).len() > 0,
        occurs_at(mem, hex_value(req.pattern@), a),
        a % (p.align as int) == 0,
    ensures
        crate::outcome::scanned_candidates(p, reads, reads.len() as int).contains(
            (a as nat, crate::hexcode::hex_text(hex_value(req.pattern@))),
        ),
{
    let pat = hex_value(req.pattern@);
    let text = crate::hexcode::hex_text(pat);
    let (s, e) = req.address_ranges@[r];
    let ov = (pat.len() - 1) as nat;
    assert(crate::scan::matcher_overlap(p.find_type, p.data_type, req.pattern@) == ov);
    let sub = mem.subrange(s as int, e as int);
    assert(sub.subrange(a - s, a - s + pat.len()) =~= mem.subrange(a, a + pat.len()));
    lemma_straddling_pattern_is_found(s as int, s as int, e as int, sub, pat, a - s, p.align as nat, text);
    let rc = range_chunks(s as int, e as int, ov);
    let q = choose|q: int|
        0 <= q < rc.len() && #[trigger] chunk_hits(s as int, sub, rc[q], pat, p.align as nat, text).contains(
            (a as nat, text),
        );
    lemma_range_chunks_in_plan(req.address_ranges@, ov, r);
    let off = choose|off: int| chunks_at(plan_chunks(req.address_ranges@, ov), off, rc);
    let i = off + q;
    let c = rc[q];
    assert(p.chunks@[i] == c);
    assert(reads[i] is Some);
    let bytes = reads[i].unwrap()@;
    assert(c.start + c.read_len <= mem.len());
    lemma_chunk_window(s as int, e as int, ov, q);
    assert(sub.subrange(c.start - s, c.start - s + c.read_len) =~= bytes);
    assert(crate::scan::chunk_candidates(p, c, bytes) == chunk_hits(
        s as int,
        sub,
        c,
        pat,
        p.align as nat,
        text,
    ));
    lemma_scanned_includes_chunk(p, reads, reads.len() as int, i, (a as nat, text));
}

proof fn lemma_chunk_window(s: int, e: int, ov: nat, q: int)
    requires
        0 <= s <= e <= usize::MAX,
        0 <= q < range_chunks(s, e, ov).len(),
    ensures
        s <= range_chunks(s, e, ov)[q].start,
        range_chunks(s, e, ov)[q].start + range_chunks(s, e, ov)[q].read_len <= e,
    decreases e - s,
{
    let len = spec_min(CHUNK_SIZE as int, e - s);
    let rest = range_chunks(s + len, e, ov);
    assert(range_chunks(s, e, ov) == seq![range_chunks(s, e, ov)[0]] + rest);
    if q > 0 {
        lemma_chunk_window(s + len, e, ov, q - 1);
        assert(range_chunks(s, e, ov)[q] == rest[q - 1]);
    }
}

/// After `SessionStore::scan` of a byte pattern whose chunks were all read,
/// the session holds every aligned occurrence of the pattern in the
/// requested ranges.
pub proof fn lemma_scanned_session_holds_every_occurrence(
    st: &crate::session::SessionStore,
    k: int,
    req: &crate::scan::MemoryScanRequest,
    p: &crate::scan::ScanPlan,
    reads: Seq<Option<Vec<u8>>>,
    mem: Seq<u8>,
    r: int,
    a: int,
)
    requires
        0 <= k < st.sessions@.len(),
        crate::scan::view_candidates(st.sessions@[k].candidates@)
            == crate::outcome::scanned_candidates(p, reads, reads.len() as int),
        crate::scan::plan_matches(req, p),
        p.matcher is Bytes,
        p.align > 0,
        reads_from(p, reads, mem),
        0 <= r < req.address_ranges@.len(),
        req.address_ranges@[r].0 <= a,
        a + hex_value(req.pattern@).len() <= req.address_ranges@[r].1 <= mem.len(),
        hex_value(req.pattern@).len() > 0,
        occurs_at(mem, hex_value(req.pattern@), a),
        a % (p.align as int) == 0,
    ensures
        exists|j: int|
            0 <= j < st.sessions@[k].candidates@.len() && crate::snapshot::candidate_view(
                &st.sessions@[k].candidates@[j],
            ) == (a as nat, crate::hexcode::hex_text(hex_value(req.pattern@))),
{
    lemma_scan_finds_every_aligned_occurrence(req, p, reads, mem, r, a);
    let all = crate::outcome::scanned_candidates(p, reads, reads.len() as int);
    let x = (a as nat, crate::hexcode::hex_text(hex_value(req.pattern@)));
    let j = choose|j: int| 0 <= j < all.len() && all[j] == x;
    assert(crate::scan::view_candidates(st.sessions@[k].candidates@)[j] == x);
}

/// A filter pass on a session in candidate form keeps only addresses that
/// were candidates before it.
pub proof fn lemma_filter_narrows_candidates(
    old: &crate::session::SessionStore,
    new: &crate::session::SessionStore,
    req: &crate::session::MemoryFilterRequest,
    reads: Seq<Option<Vec<u8>>>,
    r: Result<crate::outcome::ScanResult, crate::filter::FilterError>,
    k: int,
)
    requires
        crate::session::filter_done(old, new, req, reads, r),
        r is Ok,
        crate::session::session_of(old, req.scan_id@) == Some(k),
        !old.sessions@[k].in_snapshots,
    ensures
        forall|j: int|
            0 <= j < new.sessions@[k].candidates@.len() ==> exists|i: int|
                0 <= i < old.sessions@[k].candidates@.len() && old.sessions@[k].candidates@[i].address
                    == (#[trigger] new.sessions@[k].candidates@[j]).address,
{
    let s = old.sessions@[k];
    let n = new.sessions@[k];
    let t = crate::session::named_type(req.data_type@);
    let m = crate::session::named_method(req.filter_method@);
    assert(reads.len() == s.candidates@.len()) by {
        assert(crate::session::read_targets_of(&s, None).len() == s.candidates@.len());
    }
    lemma_kept_candidates_were_candidates(s.candidates@, reads, t, m, req.pattern@, reads.len() as int);
    assert forall|j: int| 0 <= j < n.candidates@.len() implies exists|i: int|
        0 <= i < s.candidates@.len() && s.candidates@[i].address
            == (#[trigger] n.candidates@[j]).address by {
        let kept = kept_candidates(s.candidates@, reads, t, m, req.pattern@, reads.len() as int);
        assert(crate::scan::view_candidates(n.candidates@)[j] == kept[j]);
        let i = choose|i: int| 0 <= i < reads.len() && s.candidates@[i].address == (#[trigger] kept[j]).0;
    }
}

/// A filter pass on a session in snapshot form keeps, in each block, only
/// offsets it started from: every offset before a first pass, the
/// survivors of the last pass afterwards.
pub proof fn lemma_filter_narrows_offsets(
    olds: Seq<crate::snapshot::SnapshotBlock>,
    news: Seq<crate::snapshot::SnapshotBlock>,
    reads: Seq<Option<Vec<u8>>>,
    t: DataType,
    m: FilterMethod,
    exact: Seq<u8>,
    align: nat,
    i: int,
    q: int,
)
    requires
        crate::filter::blocks_refiltered(olds, news, reads, t, m, exact, align),
        0 <= i < olds.len(),
        0 <= q < news[i].offsets@.len(),
    ensures
        crate::filter::usable(reads[i], olds[i]) ==> crate::snapshot::pass_offsets(
            &olds[i],
            spec_width(t),
            align,
        ).contains(news[i].offsets@[q]),
        !crate::filter::usable(reads[i], olds[i]) ==> news[i].offsets@ == olds[i].offsets@,
{
    if crate::filter::usable(reads[i], olds[i]) {
        crate::session::lemma_survivors_come_from_start(
            crate::snapshot::pass_offsets(&olds[i], spec_width(t), align),
            t,
            m,
            exact,
            crate::snapshot::block_bytes(&olds[i]).unwrap(),
            reads[i].unwrap()@,
            spec_width(t),
        );
    }
}

} // verus!
