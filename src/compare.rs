use vstd::prelude::*;
use crate::kinds::{spec_is_float, spec_is_numeric, spec_is_signed, spec_width, DataType, FilterMethod};

verus! {

pub open spec fn pow256(n: nat) -> nat
    decreases n,
{
    if n == 0 {
        1
    } else {
        256 * pow256((n - 1) as nat)
    }
}

/// The unsigned value of little-endian bytes.
pub open spec fn le_value(b: Seq<u8>) -> nat
    decreases b.len(),
{
    if b.len() == 0 {
        0
    } else {
        b[0] as nat + 256 * le_value(b.drop_first())
    }
}

/// The two's-complement value of little-endian bytes.
pub open spec fn le_signed(b: Seq<u8>) -> int {
    if le_value(b) * 2 >= pow256(b.len()) {
        le_value(b) - pow256(b.len())
    } else {
        le_value(b) as int
    }
}

/// Whether the bits of a float (4 bytes) or double (8 bytes) encode NaN:
/// every exponent bit set and a non-zero fraction.
pub open spec fn is_nan_bits(bits: nat, wide: bool) -> bool {
    if wide {
        (bits / 0x10_0000_0000_0000) % 0x800 == 0x7ff && bits % 0x10_0000_0000_0000 != 0
    } else {
        (bits / 0x80_0000) % 0x100 == 0xff && bits % 0x80_0000 != 0
    }
}

/// An integer that orders the non-NaN floats as IEEE-754 does: sign and
/// magnitude, with both zeros at 0.
pub open spec fn float_key(bits: nat, wide: bool) -> int {
    let sign: nat = if wide { 0x8000_0000_0000_0000 } else { 0x8000_0000 };
    if bits >= sign {
        -((bits - sign) as int)
    } else {
        bits as int
    }
}

/// The number that the bytes of an integer type stand for.
pub open spec fn int_reading(t: DataType, b: Seq<u8>) -> int {
    if spec_is_signed(t) {
        le_signed(b)
    } else {
        le_value(b) as int
    }
}

/// The code units that `utf-16` compares: whole pairs of bytes, a trailing
/// odd byte left out.
pub open spec fn utf16_reading(b: Seq<u8>) -> Seq<u8> {
    b.subrange(0, 2 * (b.len() / 2) as int)
}

pub open spec fn order_passes(m: FilterMethod, old: int, new: int) -> bool {
    match m {
        FilterMethod::Changed => new != old,
        FilterMethod::Unchanged => new == old,
        FilterMethod::Increased => new > old,
        FilterMethod::Decreased => new < old,
        FilterMethod::Exact => false,
    }
}

pub open spec fn equality_passes(m: FilterMethod, old: Seq<u8>, new: Seq<u8>) -> bool {
    match m {
        FilterMethod::Changed => new != old,
        FilterMethod::Unchanged => new == old,
        _ => false,
    }
}

/// Whether a value that was `old` and now is `new` passes method `m` under
/// type `t`. Numbers are little-endian of the type's width; floats follow
/// IEEE-754, where NaN equals nothing and is neither greater nor less.
/// Texts and byte arrays support only `changed` and `unchanged`; `utf-8`
/// compares the bytes, which on valid text is code-point equality; the
/// method `exact` and the type `regex` are decided elsewhere.
pub open spec fn passes(t: DataType, m: FilterMethod, old: Seq<u8>, new: Seq<u8>) -> bool {
    if spec_is_numeric(t) {
        if old.len() != spec_width(t) || new.len() != spec_width(t) {
            false
        } else if spec_is_float(t) {
            let wide = t == DataType::Double;
            let (a, b) = (le_value(old), le_value(new));
            if is_nan_bits(a, wide) || is_nan_bits(b, wide) {
                m == FilterMethod::Changed
            } else {
                order_passes(m, float_key(a, wide), float_key(b, wide))
            }
        } else {
            order_passes(m, int_reading(t, old), int_reading(t, new))
        }
    } else {
        match t {
            DataType::Utf8 => equality_passes(m, old, new),
            DataType::Utf16 => equality_passes(m, utf16_reading(old), utf16_reading(new)),
            DataType::Aob => equality_passes(m, old, new),
            _ => false,
        }
    }
}

proof fn lemma_le_value_bound(b: Seq<u8>)
    ensures
        le_value(b) < pow256(b.len()),
    decreases b.len(),
{
    if b.len() > 0 {
        lemma_le_value_bound(b.drop_first());
        assert(pow256(b.len()) == 256 * pow256((b.len() - 1) as nat));
    }
}

proof fn lemma_pow256_values()
    ensures
        pow256(1) == 0x100,
        pow256(2) == 0x1_0000,
        pow256(4) == 0x1_0000_0000,
        pow256(8) == 0x1_0000_0000_0000_0000,
{
    reveal_with_fuel(pow256, 9);
}

proof fn lemma_pow256_mono(a: nat, b: nat)
    requires
        a <= b,
    ensures
        pow256(a) <= pow256(b),
    decreases b,
{
    if a < b {
        lemma_pow256_mono(a, (b - 1) as nat);
    }
}

/// The unsigned value of up to eight little-endian bytes.
pub fn read_le(b: &[u8]) -> (r: u64)
    requires
        b@.len() <= 8,
    ensures
        r == le_value(b@),
{
    let n = b.len();
    let mut v: u64 = 0;
    let mut i: usize = n;
    proof {
        assert(b@.subrange(n as int, n as int) =~= Seq::<u8>::empty());
    }
    while i > 0
        invariant
            n == b@.len(),
            n <= 8,
            i <= n,
            v == le_value(b@.subrange(i as int, n as int)),
        decreases i,
    {
        let ghost rest = b@.subrange(i as int, n as int);
        let ghost next = b@.subrange(i - 1, n as int);
        proof {
            assert(next.drop_first() =~= rest);
            lemma_le_value_bound(rest);
            lemma_pow256_mono(rest.len(), 7);
            reveal_with_fuel(pow256, 8);
            assert(v < 0x100_0000_0000_0000);
        }
        v = v * 256 + b[i - 1] as u64;
        i = i - 1;
    }
    proof {
        assert(b@.subrange(0, n as int) =~= b@);
    }
    v
}

fn same_bytes(a: &[u8], b: &[u8]) -> (r: bool)
    ensures
        r == (a@ == b@),
{
    if a.len() != b.len() {
        return false;
    }
    let mut i: usize = 0;
    while i < a.len()
        invariant
            a@.len() == b@.len(),
            i <= a@.len(),
            forall|j: int| 0 <= j < i ==> a@[j] == b@[j],
        decreases a@.len() - i,
    {
        if a[i] != b[i] {
            return false;
        }
        i += 1;
    }
    assert(a@ =~= b@);
    true
}

/// Whether two byte strings are equal.
pub fn bytes_equal(a: &[u8], b: &[u8]) -> (r: bool)
    ensures
        r == (a@ == b@),
{
    same_bytes(a, b)
}

fn order_check(m: FilterMethod, old: i128, new: i128) -> (r: bool)
    ensures
        r == order_passes(m, old as int, new as int),
{
    match m {
        FilterMethod::Changed => new != old,
        FilterMethod::Unchanged => new == old,
        FilterMethod::Increased => new > old,
        FilterMethod::Decreased => new < old,
        FilterMethod::Exact => false,
    }
}

fn equality_check(m: FilterMethod, old: &[u8], new: &[u8]) -> (r: bool)
    ensures
        r == equality_passes(m, old@, new@),
{
    match m {
        FilterMethod::Changed => !same_bytes(new, old),
        FilterMethod::Unchanged => same_bytes(new, old),
        _ => false,
    }
}

fn signed_reading(b: &[u8]) -> (r: i128)
    requires
        b@.len() == 1 || b@.len() == 2 || b@.len() == 4 || b@.len() == 8,
    ensures
        r == le_signed(b@),
{
    let v = read_le(b);
    let full: u128 = if b.len() == 1 {
        0x100
    } else if b.len() == 2 {
        0x1_0000
    } else if b.len() == 4 {
        0x1_0000_0000
    } else {
        0x1_0000_0000_0000_0000
    };
    proof {
        lemma_pow256_values();
        assert(full == pow256(b@.len()));
    }
    if (v as u128) * 2 >= full {
        v as i128 - full as i128
    } else {
        v as i128
    }
}

fn float_reading(b: &[u8], wide: bool) -> (r: (bool, i128))
    requires
        b@.len() <= 8,
        !wide ==> b@.len() == 4,
    ensures
        r.0 == is_nan_bits(le_value(b@), wide),
        r.1 == float_key(le_value(b@), wide),
{
    let v = read_le(b);
    proof {
        if !wide {
            lemma_le_value_bound(b@);
            lemma_pow256_values();
        }
    }
    let nan = if wide {
        (v / 0x10_0000_0000_0000) % 0x800 == 0x7ff && v % 0x10_0000_0000_0000 != 0
    } else {
        (v / 0x80_0000) % 0x100 == 0xff && v % 0x80_0000 != 0
    };
    let sign: u64 = if wide { 0x8000_0000_0000_0000 } else { 0x8000_0000 };
    let key: i128 = if v >= sign { -((v - sign) as i128) } else { v as i128 };
    (nan, key)
}

/// Applies method `m` under type `t` to the value that was `old` and now is
/// `new`.
pub fn compare_values(t: DataType, m: FilterMethod, old: &[u8], new: &[u8]) -> (r: bool)
    ensures
        r == passes(t, m, old@, new@),
{
    match t {
        DataType::Utf8 => equality_check(m, old, new),
        DataType::Utf16 => {
            let a = &old[0..2 * (old.len() / 2)];
            let b = &new[0..2 * (new.len() / 2)];
            equality_check(m, a, b)
        },
        DataType::Aob => equality_check(m, old, new),
        DataType::Regex => false,
        _ => {
            let w = t.width();
            if old.len() != w || new.len() != w {
                return false;
            }
            if t == DataType::Float || t == DataType::Double {
                let wide = t == DataType::Double;
                let (nan_a, key_a) = float_reading(old, wide);
                let (nan_b, key_b) = float_reading(new, wide);
                if nan_a || nan_b {
                    m == FilterMethod::Changed
                } else {
                    order_check(m, key_a, key_b)
                }
            } else if t == DataType::Int8 || t == DataType::Int16 || t == DataType::Int32
                || t == DataType::Int64 {
                order_check(m, signed_reading(old), signed_reading(new))
            } else {
                order_check(m, read_le(old) as i128, read_le(new) as i128)
            }
        },
    }
}

/// A NaN on either side makes `unchanged`, `increased` and `decreased`
/// fail, and `changed` hold, for `float` and `double`.
pub proof fn lemma_nan_never_equal_or_ordered(t: DataType, old: Seq<u8>, new: Seq<u8>)
    requires
        spec_is_float(t),
        old.len() == spec_width(t),
        new.len() == spec_width(t),
        is_nan_bits(le_value(old), t == DataType::Double) || is_nan_bits(
            le_value(new),
            t == DataType::Double,
        ),
    ensures
        !passes(t, FilterMethod::Unchanged, old, new),
        !passes(t, FilterMethod::Increased, old, new),
        !passes(t, FilterMethod::Decreased, old, new),
        passes(t, FilterMethod::Changed, old, new),
{
}

/// Whether the new bytes equal an `exact` pattern: for numbers by value of
/// the type (so a NaN equals nothing and the two zeros are equal), for the
/// other types byte for byte.
pub open spec fn exact_passes(t: DataType, pattern: Seq<u8>, new: Seq<u8>) -> bool {
    if spec_is_numeric(t) {
        passes(t, FilterMethod::Unchanged, pattern, new)
    } else {
        new == pattern
    }
}

/// Whether the new bytes equal an `exact` pattern under type `t`.
pub fn exact_matches(t: DataType, pattern: &[u8], new: &[u8]) -> (r: bool)
    ensures
        r == exact_passes(t, pattern@, new@),
{
    match t {
        DataType::Utf8 | DataType::Utf16 | DataType::Aob | DataType::Regex => same_bytes(new, pattern),
        _ => compare_values(t, FilterMethod::Unchanged, pattern, new),
    }
}

/// A NaN never equals an `exact` pattern of type `float` or `double`.
pub proof fn lemma_nan_never_exact(t: DataType, pattern: Seq<u8>, new: Seq<u8>)
    requires
        spec_is_float(t),
        is_nan_bits(le_value(pattern), t == DataType::Double) || is_nan_bits(
            le_value(new),
            t == DataType::Double,
        ),
    ensures
        !exact_passes(t, pattern, new),
{
}

} // verus!
