use vstd::prelude::*;
use crate::compare::{compare_values, exact_passes, passes};
use crate::hexcode::{encode_hex, hex_text};
use crate::kinds::{DataType, FilterMethod};

verus! {

/// The LZ4 block encoding of some bytes.
pub uninterp spec fn lz4_block(data: Seq<u8>) -> Seq<u8>;

/// What decoding an LZ4 block into at most `size` bytes gives, if it
/// succeeds.
pub uninterp spec fn lz4_unblock(data: Seq<u8>, size: nat) -> Option<Seq<u8>>;

/// Relies on lz4_flex::block::compress: the LZ4 block encoding of the input.
#[verifier::external_body]
fn lz4_compress(data: &[u8]) -> (r: Vec<u8>)
    ensures
        r@ == lz4_block(data@),
{
    lz4_flex::block::compress(data)
}

/// Relies on lz4_flex::block::decompress, with the default checked decoding:
/// a malformed block or one that needs more than `size` bytes is an error;
/// otherwise the decoded bytes, at most `size` of them. A block that
/// `compress` made decodes, given the length of its input, to that input.
#[verifier::external_body]
fn lz4_decompress(data: &[u8], size: usize) -> (r: Option<Vec<u8>>)
    ensures
        r.is_some() == lz4_unblock(data@, size as nat).is_some(),
        r.is_some() ==> r.unwrap()@ == lz4_unblock(data@, size as nat).unwrap(),
        r.is_some() ==> r.unwrap()@.len() <= size,
        forall|d: Seq<u8>|
            lz4_block(d) == data@ && d.len() == size ==> r.is_some() && r.unwrap()@ == d,
{
    lz4_flex::block::decompress(data, size).ok()
}

/// The captured state of one chunk of an unknown-value scan.
pub struct SnapshotBlock {
    /// Absolute start of the block in the target.
    pub base_address: usize,
    /// The captured bytes, LZ4-compressed.
    pub compressed_data: Vec<u8>,
    /// How many bytes were captured.
    pub uncompressed_data_size: usize,
    /// Offsets within the block that still survive; meaningful once a
    /// filter pass has run.
    pub offsets: Vec<usize>,
    /// True until the first filter pass, which walks every aligned offset.
    pub is_first: bool,
}

/// A candidate address with the bytes last seen there, as hex text.
pub struct Candidate {
    pub address: usize,
    pub value: String,
}

/// What a block decodes to, if it decodes to exactly its recorded size.
pub open spec fn block_bytes(b: &SnapshotBlock) -> Option<Seq<u8>> {
    match lz4_unblock(b.compressed_data@, b.uncompressed_data_size as nat) {
        Some(d) => if d.len() == b.uncompressed_data_size {
            Some(d)
        } else {
            None
        },
        None => None,
    }
}

/// The first `n` offsets of a block of `len` bytes that a first pass
/// walks: those whose address `base + o` is a multiple of `align` and that
/// leave room for `w` bytes.
pub open spec fn walk_prefix(base: nat, len: nat, w: nat, align: nat, n: nat) -> Seq<usize>
    decreases n,
{
    if n == 0 {
        Seq::empty()
    } else {
        let o = (n - 1) as nat;
        let rest = walk_prefix(base, len, w, align, o);
        if (base + o) % align == 0 && o + w <= len {
            rest.push(o as usize)
        } else {
            rest
        }
    }
}

/// The offsets that a first pass walks over a block of `len` bytes.
pub open spec fn walk_offsets(base: nat, len: nat, w: nat, align: nat) -> Seq<usize> {
    walk_prefix(base, len, w, align, len)
}

/// Whether the value at offset `o` passes: for `exact`, the new bytes equal
/// the pattern under the type; otherwise method `m` under type `t` from old to new.
pub open spec fn offset_passes(
    t: DataType,
    m: FilterMethod,
    exact: Seq<u8>,
    old: Seq<u8>,
    new: Seq<u8>,
    o: int,
    w: int,
) -> bool {
    if m == FilterMethod::Exact {
        exact_passes(t, exact, new.subrange(o, o + w))
    } else {
        passes(t, m, old.subrange(o, o + w), new.subrange(o, o + w))
    }
}

/// The offsets among `offs` that leave room for `w` bytes in `len` bytes and
/// pass.
pub open spec fn surviving_offsets(
    offs: Seq<usize>,
    t: DataType,
    m: FilterMethod,
    exact: Seq<u8>,
    old: Seq<u8>,
    new: Seq<u8>,
    w: nat,
) -> Seq<usize>
    decreases offs.len(),
{
    if offs.len() == 0 {
        Seq::empty()
    } else {
        let o = offs.last();
        let rest = surviving_offsets(offs.drop_last(), t, m, exact, old, new, w);
        if o + w <= old.len() && o + w <= new.len() && offset_passes(
            t,
            m,
            exact,
            old,
            new,
            o as int,
            w as int,
        ) {
            rest.push(o)
        } else {
            rest
        }
    }
}

/// The offsets a pass starts from: every walked offset on the first pass,
/// the survivors afterwards.
pub open spec fn pass_offsets(b: &SnapshotBlock, w: nat, align: nat) -> Seq<usize> {
    if b.is_first {
        walk_offsets(b.base_address as nat, b.uncompressed_data_size as nat, w, align)
    } else {
        b.offsets@
    }
}

/// Compresses a captured chunk into a block that no pass has filtered yet.
pub fn capture_block(base_address: usize, data: &[u8]) -> (r: SnapshotBlock)
    ensures
        r.base_address == base_address,
        r.compressed_data@ == lz4_block(data@),
        r.uncompressed_data_size == data@.len(),
        r.offsets@.len() == 0,
        r.is_first,
{
    let compressed = lz4_compress(data);
    let r = SnapshotBlock {
        base_address,
        compressed_data: compressed,
        uncompressed_data_size: data.len(),
        offsets: Vec::new(),
        is_first: true,
    };
    r
}

/// The bytes a block holds, or `None` when it does not decode to its
/// recorded size.
pub fn decode_block(b: &SnapshotBlock) -> (r: Option<Vec<u8>>)
    ensures
        r.is_some() == block_bytes(b).is_some(),
        r.is_some() ==> r.unwrap()@ == block_bytes(b).unwrap(),
        forall|d: Seq<u8>|
            lz4_block(d) == b.compressed_data@ && d.len() == b.uncompressed_data_size
                ==> r.is_some() && r.unwrap()@ == d,
{
    match lz4_decompress(&b.compressed_data, b.uncompressed_data_size) {
        Some(d) => {
            if d.len() == b.uncompressed_data_size {
                Some(d)
            } else {
                None
            }
        },
        None => None,
    }
}

fn walk(base: usize, n: usize, w: usize, align: usize) -> (r: Vec<usize>)
    requires
        align > 0,
    ensures
        r@ == walk_offsets(base as nat, n as nat, w as nat, align as nat),
{
    let mut r: Vec<usize> = Vec::new();
    let mut o: usize = 0;
    while o < n
        invariant
            o <= n,
            align > 0,
            r@ == walk_prefix(base as nat, n as nat, w as nat, align as nat, o as nat),
        decreases n - o,
    {
        let aligned = ((base as u128) + (o as u128)) % (align as u128) == 0;
        if aligned && w <= n - o {
            r.push(o);
        }
        o += 1;
    }
    r
}

/// Keeps the offsets of `offs` whose value passes, moving from `old` to
/// `new`.
pub fn filter_offsets(
    offs: &Vec<usize>,
    t: DataType,
    m: FilterMethod,
    exact: &[u8],
    old: &[u8],
    new: &[u8],
    w: usize,
) -> (r: Vec<usize>)
    ensures
        r@ == surviving_offsets(offs@, t, m, exact@, old@, new@, w as nat),
{
    let mut r: Vec<usize> = Vec::new();
    let mut i: usize = 0;
    while i < offs.len()
        invariant
            i <= offs@.len(),
            r@ == surviving_offsets(offs@.take(i as int), t, m, exact@, old@, new@, w as nat),
        decreases offs@.len() - i,
    {
        let o = offs[i];
        proof {
            assert(offs@.take(i + 1).drop_last() =~= offs@.take(i as int));
            assert(offs@.take(i + 1).last() == o);
        }
        if w <= old.len() && o <= old.len() - w && w <= new.len() && o <= new.len() - w {
            let a = &old[o..o + w];
            let b = &new[o..o + w];
            let keep = if m == FilterMethod::Exact {
                crate::compare::exact_matches(t, exact, b)
            } else {
                compare_values(t, m, a, b)
            };
            if keep {
                r.push(o);
            }
        }
        i += 1;
    }
    proof {
        assert(offs@.take(offs@.len() as int) =~= offs@);
    }
    r
}

/// The new state of a block after a pass that read `new` at its base: the
/// new bytes, compressed, and the offsets whose value passed.
pub open spec fn refiltered(
    b: &SnapshotBlock,
    r: &SnapshotBlock,
    t: DataType,
    m: FilterMethod,
    exact: Seq<u8>,
    align: nat,
    old: Seq<u8>,
    new: Seq<u8>,
    w: nat,
) -> bool {
    &&& r.base_address == b.base_address
    &&& r.compressed_data@ == lz4_block(new)
    &&& r.uncompressed_data_size == new.len()
    &&& !r.is_first
    &&& r.offsets@ == surviving_offsets(pass_offsets(b, w, align), t, m, exact, old, new, w)
}

/// One filter pass over a block whose decoded bytes are `old`, against the
/// bytes `new` read again at its base.
pub fn refilter_block(
    b: &SnapshotBlock,
    old: &[u8],
    new: &[u8],
    t: DataType,
    m: FilterMethod,
    exact: &[u8],
    align: usize,
) -> (r: SnapshotBlock)
    requires
        align > 0,
        old@.len() == b.uncompressed_data_size,
    ensures
        refiltered(b, &r, t, m, exact@, align as nat, old@, new@, crate::kinds::spec_width(t)),
{
    let w = t.width();
    let start = if b.is_first {
        walk(b.base_address, b.uncompressed_data_size, w, align)
    } else {
        b.offsets.clone()
    };
    proof {
        assert(start@ == pass_offsets(b, w as nat, align as nat));
    }
    let offsets = filter_offsets(&start, t, m, exact, old, new, w);
    let compressed = lz4_compress(new);
    let r = SnapshotBlock {
        base_address: b.base_address,
        compressed_data: compressed,
        uncompressed_data_size: new.len(),
        offsets,
        is_first: false,
    };
    r
}

/// The candidates that a block's survivors stand for: each surviving offset
/// at its absolute address, with the `w` bytes the block holds there.
pub open spec fn block_candidates(base: nat, offs: Seq<usize>, bytes: Seq<u8>, w: nat) -> Seq<(
    nat,
    Seq<char>,
)> {
    Seq::new(
        offs.len(),
        |i: int| ((base + offs[i]) as nat, hex_text(bytes.subrange(offs[i] as int, offs[i] + w))),
    )
}

pub open spec fn candidate_view(c: &Candidate) -> (nat, Seq<char>) {
    (c.address as nat, c.value@)
}

/// Appends to `out` the candidates that a filtered block's survivors stand
/// for, reading their values from the bytes the block holds.
pub fn append_block_candidates(
    out: &mut Vec<Candidate>,
    base: usize,
    offs: &Vec<usize>,
    bytes: &[u8],
    w: usize,
)
    requires
        forall|i: int|
            0 <= i < offs@.len() ==> offs@[i] + w <= bytes@.len() && base + offs@[i]
                <= usize::MAX,
    ensures
        final(out)@.len() == old(out)@.len() + offs@.len(),
        forall|i: int| 0 <= i < old(out)@.len() ==> final(out)@[i] == old(out)@[i],
        forall|i: int|
            0 <= i < offs@.len() ==> candidate_view(&final(out)@[old(out)@.len() + i])
                == block_candidates(base as nat, offs@, bytes@, w as nat)[i],
{
    let ghost start = out@.len();
    let mut i: usize = 0;
    while i < offs.len()
        invariant
            i <= offs@.len(),
            start == old(out)@.len(),
            out@.len() == start + i,
            forall|j: int|
                0 <= j < offs@.len() ==> offs@[j] + w <= bytes@.len() && base + offs@[j]
                    <= usize::MAX,
            forall|j: int| 0 <= j < start ==> out@[j] == old(out)@[j],
            forall|j: int|
                0 <= j < i ==> candidate_view(&out@[start + j]) == block_candidates(
                    base as nat,
                    offs@,
                    bytes@,
                    w as nat,
                )[j],
        decreases offs@.len() - i,
    {
        let o = offs[i];
        assert(offs@[i as int] + w <= bytes@.len());
        let blen = bytes.len();
        assert(o + w <= blen);
        let value = encode_hex(&bytes[o..o + w]);
        out.push(Candidate { address: base + o, value });
        i += 1;
    }
}

} // verus!
