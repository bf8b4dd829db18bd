use vstd::prelude::*;

verus! {

/// The LZ4 block of some bytes, after their length as a little-endian u32.
pub uninterp spec fn lz4_sized_block(data: Seq<u8>) -> Seq<u8>;

/// Relies on lz4_flex::block::compress_prepend_size: the input's length as
/// a little-endian u32, then its LZ4 block encoding.
#[verifier::external_body]
fn lz4_compress_sized(data: &[u8]) -> (r: Vec<u8>)
    ensures
        r@ == lz4_sized_block(data@),
{
    lz4_flex::block::compress_prepend_size(data)
}

/// A number below 2^32 as four little-endian bytes.
pub open spec fn le32(n: nat) -> Seq<u8> {
    seq![
        (n % 0x100) as u8,
        ((n / 0x100) % 0x100) as u8,
        ((n / 0x1_0000) % 0x100) as u8,
        ((n / 0x100_0000) % 0x100) as u8,
    ]
}

/// The frame of one read of a multiple read: flag 1, the length of the
/// compressed bytes (modulo 2^32), and the bytes; or flag 0 alone where
/// the read failed.
pub open spec fn read_frame(read: Option<Seq<u8>>) -> Seq<u8> {
    match read {
        Some(d) => le32(1) + le32(lz4_sized_block(d).len() % 0x1_0000_0000) + lz4_sized_block(d),
        None => le32(0),
    }
}

/// The frames of the first `n` reads, one after another.
pub open spec fn read_frames(reads: Seq<Option<Vec<u8>>>, n: int) -> Seq<u8>
    decreases n,
{
    if n <= 0 {
        Seq::empty()
    } else {
        read_frames(reads, n - 1) + read_frame(
            match reads[n - 1] {
                Some(v) => Some(v@),
                None => None,
            },
        )
    }
}

fn push_le32(out: &mut Vec<u8>, n: u32)
    ensures
        final(out)@ == old(out)@ + le32(n as nat),
{
    out.push((n % 0x100) as u8);
    out.push(((n / 0x100) % 0x100) as u8);
    out.push(((n / 0x1_0000) % 0x100) as u8);
    out.push(((n / 0x100_0000) % 0x100) as u8);
    proof {
        assert(out@ =~= old(out)@ + le32(n as nat));
    }
}

/// Appends the frame of one read to `out`.
pub fn push_read_frame(out: &mut Vec<u8>, read: Option<&[u8]>)
    ensures
        final(out)@ == old(out)@ + read_frame(
            match read {
                Some(d) => Some(d@),
                None => None,
            },
        ),
{
    match read {
        Some(d) => {
            let mut c = lz4_compress_sized(d);
            let n = c.len();
            push_le32(out, 1);
            push_le32(out, ((n as u64) % 0x1_0000_0000) as u32);
            out.append(&mut c);
            proof {
                assert(out@ =~= old(out)@ + read_frame(Some(d@)));
            }
        },
        None => {
            push_le32(out, 0);
        },
    }
}

/// The answer to a multiple read: the frame of each read in order.
pub fn frame_reads(reads: &Vec<Option<Vec<u8>>>) -> (r: Vec<u8>)
    ensures
        r@ == read_frames(reads@, reads@.len() as int),
{
    let mut out: Vec<u8> = Vec::new();
    let mut i: usize = 0;
    while i < reads.len()
        invariant
            i <= reads@.len(),
            out@ == read_frames(reads@, i as int),
        decreases reads@.len() - i,
    {
        match &reads[i] {
            Some(v) => push_read_frame(&mut out, Some(v.as_slice())),
            None => push_read_frame(&mut out, None),
        }
        i += 1;
    }
    out
}

/// The code of a watchpoint type: `r` reads, `w` writes, `rw` both.
pub open spec fn watch_code(t: Seq<char>) -> Option<i32> {
    if t == "r"@ {
        Some(1)
    } else if t == "w"@ {
        Some(2)
    } else if t == "rw"@ {
        Some(3)
    } else {
        None
    }
}

/// The code of a watchpoint type, if it is one.
pub fn watch_type_code(t: &str) -> (r: Option<i32>)
    ensures
        r == watch_code(t@),
{
    if crate::kinds::same_text(t, "r") {
        Some(1)
    } else if crate::kinds::same_text(t, "w") {
        Some(2)
    } else if crate::kinds::same_text(t, "rw") {
        Some(3)
    } else {
        None
    }
}

} // verus!
