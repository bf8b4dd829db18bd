use vstd::prelude::*;
use crate::compare::{compare_values, exact_passes, passes};
use crate::hexcode::{decode_hex, encode_hex, hex_text, hex_value, is_hex_text};
use crate::kinds::{spec_width, DataType, FilterMethod};
use crate::scan::{regex_is_match, regex_matches, view_candidates};
use crate::snapshot::{
    block_bytes, candidate_view, decode_block,
    refilter_block, refiltered, Candidate, SnapshotBlock,
};

verus! {

/// Why a filter pass fails; the session is then left as it was.
#[derive(Clone, Copy, Debug, PartialEq, Eq, Structural)]
pub enum FilterError {
    ScanIdNotFound,
    UnknownDataType,
    UnknownFilterMethod,
    /// The pattern of an `exact` filter, or a stored value, is not hex text.
    InvalidHex,
    /// A snapshot block does not decode to its recorded size.
    CorruptSnapshot,
    /// The reads handed in do not match the session's candidates or blocks.
    ReadsMismatch,
}

/// Whether a candidate, read again as `read`, stays: for `regex` the pattern
/// matches the new bytes (no ordering method applies to a regex); for `exact` the new bytes are the pattern's; else
/// the method holds from the stored value to the new one.
pub open spec fn candidate_kept(
    c: Candidate,
    read: Option<Vec<u8>>,
    t: DataType,
    m: FilterMethod,
    pattern: Seq<char>,
) -> bool {
    match read {
        None => false,
        Some(nb) => if t == DataType::Regex {
            m != FilterMethod::Increased && m != FilterMethod::Decreased && regex_matches(
                pattern,
                nb@,
            )
        } else if m == FilterMethod::Exact {
            exact_passes(t, hex_value(pattern), nb@)
        } else {
            is_hex_text(c.value@) && passes(t, m, hex_value(c.value@), nb@)
        },
    }
}

/// Whether a candidate that was read holds a stored value that is not hex
/// text where the method needs it.
pub open spec fn candidate_invalid(
    c: Candidate,
    read: Option<Vec<u8>>,
    t: DataType,
    m: FilterMethod,
) -> bool {
    read is Some && t != DataType::Regex && m != FilterMethod::Exact && !is_hex_text(c.value@)
}

/// The first `n` candidates that stay, each with the hex text of its new
/// bytes.
pub open spec fn kept_candidates(
    cands: Seq<Candidate>,
    reads: Seq<Option<Vec<u8>>>,
    t: DataType,
    m: FilterMethod,
    pattern: Seq<char>,
    n: int,
) -> Seq<(nat, Seq<char>)>
    decreases n,
{
    if n <= 0 {
        Seq::empty()
    } else {
        let rest = kept_candidates(cands, reads, t, m, pattern, n - 1);
        if candidate_kept(cands[n - 1], reads[n - 1], t, m, pattern) {
            rest.push((cands[n - 1].address as nat, hex_text(reads[n - 1].unwrap()@)))
        } else {
            rest
        }
    }
}

/// One filter pass over a candidate list; `reads[i]` holds the bytes read
/// again at candidate `i`, or `None` where that read failed.
pub fn filter_candidates(
    cands: &Vec<Candidate>,
    reads: &Vec<Option<Vec<u8>>>,
    t: DataType,
    m: FilterMethod,
    pattern: &str,
) -> (r: Result<Vec<Candidate>, FilterError>)
    requires
        reads@.len() == cands@.len(),
        m == FilterMethod::Exact && t != DataType::Regex ==> is_hex_text(pattern@),
    ensures
        r is Err <==> exists|i: int|
            0 <= i < cands@.len() && candidate_invalid(cands@[i], reads@[i], t, m),
        r matches Err(e) ==> e == FilterError::InvalidHex,
        r matches Ok(v) ==> view_candidates(v@) == kept_candidates(
            cands@,
            reads@,
            t,
            m,
            pattern@,
            cands@.len() as int,
        ),
{
    let exact: Vec<u8> = if m == FilterMethod::Exact && t != DataType::Regex {
        match decode_hex(pattern) {
            Some(b) => b,
            None => Vec::new(),
        }
    } else {
        Vec::new()
    };
    let mut out: Vec<Candidate> = Vec::new();
    let mut i: usize = 0;
    proof {
        assert(view_candidates(out@) =~= Seq::empty());
    }
    while i < cands.len()
        invariant
            i <= cands@.len(),
            reads@.len() == cands@.len(),
            m == FilterMethod::Exact && t != DataType::Regex ==> exact@ == hex_value(pattern@),
            forall|j: int| 0 <= j < i ==> !candidate_invalid(cands@[j], reads@[j], t, m),
            view_candidates(out@) == kept_candidates(cands@, reads@, t, m, pattern@, i as int),
        decreases cands@.len() - i,
    {
        let c = &cands[i];
        match &reads[i] {
            None => {},
            Some(nb) => {
                let keep = if t == DataType::Regex {
                    m != FilterMethod::Increased && m != FilterMethod::Decreased && regex_is_match(
                        pattern,
                        nb.as_slice(),
                    )
                } else if m == FilterMethod::Exact {
                    crate::compare::exact_matches(t, exact.as_slice(), nb.as_slice())
                } else {
                    match decode_hex(c.value.as_str()) {
                        Some(prior) => compare_values(t, m, prior.as_slice(), nb.as_slice()),
                        None => {
                            return Err(FilterError::InvalidHex);
                        },
                    }
                };
                if keep {
                    let nc = Candidate { address: c.address, value: encode_hex(nb.as_slice()) };
                    proof {
                        assert(view_candidates(out@.push(nc)) =~= view_candidates(out@).push(
                            candidate_view(&nc),
                        ));
                    }
                    out.push(nc);
                }
            },
        }
        i += 1;
    }
    Ok(out)
}

/// Whether a read of a block can be used: it has the block's size and the
/// block lies inside the address space.
pub open spec fn usable(read: Option<Vec<u8>>, b: SnapshotBlock) -> bool {
    read matches Some(nb) && nb@.len() == b.uncompressed_data_size && b.base_address
        + b.uncompressed_data_size <= usize::MAX
}

pub open spec fn same_block(a: SnapshotBlock, b: SnapshotBlock) -> bool {
    &&& a.base_address == b.base_address
    &&& a.compressed_data@ == b.compressed_data@
    &&& a.uncompressed_data_size == b.uncompressed_data_size
    &&& a.offsets@ == b.offsets@
    &&& a.is_first == b.is_first
}

fn copy_block(b: &SnapshotBlock) -> (r: SnapshotBlock)
    ensures
        same_block(r, *b),
{
    let data = b.compressed_data.clone();
    let offsets = b.offsets.clone();
    proof {
        assert(data@ =~= b.compressed_data@);
        assert(offsets@ =~= b.offsets@);
    }
    SnapshotBlock {
        base_address: b.base_address,
        compressed_data: data,
        uncompressed_data_size: b.uncompressed_data_size,
        offsets,
        is_first: b.is_first,
    }
}

/// The survivors that the first `n` blocks count after a pass: those of
/// each block whose read could be used.
pub open spec fn survivor_count(
    olds: Seq<SnapshotBlock>,
    news: Seq<SnapshotBlock>,
    reads: Seq<Option<Vec<u8>>>,
    n: int,
) -> nat
    decreases n,
{
    if n <= 0 {
        0
    } else {
        survivor_count(olds, news, reads, n - 1) + if usable(reads[n - 1], olds[n - 1]) {
            news[n - 1].offsets@.len()
        } else {
            0
        }
    }
}

/// What a pass over snapshot blocks leaves: each block whose read can be
/// used is filtered against it from the bytes it holds; the others stay
/// as they were.
pub open spec fn blocks_refiltered(
    olds: Seq<SnapshotBlock>,
    news: Seq<SnapshotBlock>,
    reads: Seq<Option<Vec<u8>>>,
    t: DataType,
    m: FilterMethod,
    exact: Seq<u8>,
    align: nat,
) -> bool {
    &&& news.len() == olds.len()
    &&& forall|i: int|
        #![trigger news[i]]
        0 <= i < olds.len() ==> if usable(reads[i], olds[i]) {
            refiltered(
                &olds[i],
                &news[i],
                t,
                m,
                exact,
                align,
                block_bytes(&olds[i]).unwrap(),
                reads[i].unwrap()@,
                spec_width(t),
            )
        } else {
            same_block(news[i], olds[i])
        }
}

pub open spec fn some_block_corrupt(blocks: Seq<SnapshotBlock>) -> bool {
    exists|i: int| 0 <= i < blocks.len() && block_bytes(&blocks[i]) is None
}

/// One filter pass over snapshot blocks; `reads[i]` holds the bytes read
/// again at block `i`'s base. Fails, changing nothing, when a block does not
/// decode; otherwise returns the survivor count.
pub fn filter_blocks(
    blocks: &mut Vec<SnapshotBlock>,
    reads: &Vec<Option<Vec<u8>>>,
    t: DataType,
    m: FilterMethod,
    exact: &[u8],
    align: usize,
) -> (r: Result<usize, FilterError>)
    requires
        old(blocks)@.len() == reads@.len(),
        align > 0,
    ensures
        r is Err <==> some_block_corrupt(old(blocks)@),
        r matches Err(e) ==> e == FilterError::CorruptSnapshot && *final(blocks) == *old(blocks),
        r matches Ok(n) ==> blocks_refiltered(
            old(blocks)@,
            final(blocks)@,
            reads@,
            t,
            m,
            exact@,
            align as nat,
        ) && n == spec_min_count(
            survivor_count(old(blocks)@, final(blocks)@, reads@, reads@.len() as int),
        ),
{
    let mut news: Vec<SnapshotBlock> = Vec::new();
    let mut total: usize = 0;
    let mut i: usize = 0;
    while i < blocks.len()
        invariant
            i <= blocks@.len(),
            blocks@ == old(blocks)@,
            blocks@.len() == reads@.len(),
            align > 0,
            news@.len() == i,
            forall|j: int| 0 <= j < i ==> block_bytes(&blocks@[j]) is Some,
            forall|j: int|
                #![trigger news@[j]]
                0 <= j < i ==> if usable(reads@[j], blocks@[j]) {
                    refiltered(
                        &blocks@[j],
                        &news@[j],
                        t,
                        m,
                        exact@,
                        align as nat,
                        block_bytes(&blocks@[j]).unwrap(),
                        reads@[j].unwrap()@,
                        spec_width(t),
                    )
                } else {
                    same_block(news@[j], blocks@[j])
                },
            total == spec_min_count(survivor_count(blocks@, news@, reads@, i as int)),
        decreases blocks@.len() - i,
    {
        let b = &blocks[i];
        let old_bytes = match decode_block(b) {
            Some(d) => d,
            None => {
                return Err(FilterError::CorruptSnapshot);
            },
        };
        let ghost before = news@;
        let usable_read = match &reads[i] {
            Some(nb) => nb.len() == b.uncompressed_data_size && b.base_address <= usize::MAX
                - b.uncompressed_data_size,
            None => false,
        };
        if usable_read {
            let nb = reads[i].as_ref().unwrap();
            let nblock = refilter_block(b, old_bytes.as_slice(), nb.as_slice(), t, m, exact, align);
            let k = nblock.offsets.len();
            news.push(nblock);
            total = if total > usize::MAX - k {
                usize::MAX
            } else {
                total + k
            };
        } else {
            news.push(copy_block(b));
        }
        proof {
            assert forall|j: int| 0 <= j < i implies #[trigger] news@[j] == before[j] by {}
            assert(survivor_count(blocks@, news@, reads@, i as int) == survivor_count(
                blocks@,
                before,
                reads@,
                i as int,
            )) by {
                lemma_survivor_count_prefix(blocks@, before, news@, reads@, i as int);
            }
        }
        i += 1;
    }
    *blocks = news;
    Ok(total)
}

/// A count as a `usize` holds it: capped at the largest `usize`.
pub open spec fn spec_min_count(n: nat) -> nat {
    if n <= usize::MAX {
        n
    } else {
        usize::MAX as nat
    }
}

proof fn lemma_survivor_count_prefix(
    olds: Seq<SnapshotBlock>,
    a: Seq<SnapshotBlock>,
    b: Seq<SnapshotBlock>,
    reads: Seq<Option<Vec<u8>>>,
    n: int,
)
    requires
        n <= a.len(),
        n <= b.len(),
        forall|j: int| 0 <= j < n ==> a[j] == b[j],
    ensures
        survivor_count(olds, a, reads, n) == survivor_count(olds, b, reads, n),
    decreases n,
{
    if n > 0 {
        lemma_survivor_count_prefix(olds, a, b, reads, n - 1);
    }
}

} // verus!
