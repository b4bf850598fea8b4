//! The binary codec: `dehydrate` writes a leaf value's fixed-width
//! little-endian form into a buffer's front, `hydrate` reconstructs a
//! value from a descriptor and raw bytes alone, with no live instance.

use vstd::prelude::*;
use vstd::arithmetic::div_mod::{lemma_div_denominator, lemma_fundamental_div_mod,
    lemma_multiply_divide_lt};
use crate::leaf::{LeafKind, LeafVal, kind_of, width_of, leaf_kind, leaf_width};
use crate::shape::Shape;
use crate::descriptor::{Getter, getter_fits};
use crate::value::Value;
use crate::access::Error;

verus! {

/// `256^w`: the number of values a `w`-byte field can hold.
pub open spec fn pow256(w: nat) -> nat
    decreases w,
{
    if w == 0 {
        1
    } else {
        256 * pow256((w - 1) as nat)
    }
}

/// The values of `pow256` at the widths the codec uses.
pub proof fn lemma_pow256_values()
    ensures
        pow256(0) == 1,
        pow256(1) == 0x100,
        pow256(2) == 0x1_0000,
        pow256(4) == 0x1_0000_0000,
        pow256(8) == 0x1_0000_0000_0000_0000,
{
    assert(pow256(0) == 1);
    assert(pow256(1) == 0x100);
    assert(pow256(2) == 0x1_0000);
    assert(pow256(3) == 0x100_0000);
    assert(pow256(4) == 0x1_0000_0000);
    assert(pow256(5) == 0x100_0000_0000);
    assert(pow256(6) == 0x1_0000_0000_0000);
    assert(pow256(7) == 0x100_0000_0000_0000);
    assert(pow256(8) == 0x1_0000_0000_0000_0000);
}

/// `pow256` is positive.
pub proof fn lemma_pow256_pos(w: nat)
    ensures
        pow256(w) > 0,
    decreases w,
{
    if w > 0 {
        lemma_pow256_pos((w - 1) as nat);
    }
}

/// `pow256` grows with the width.
pub proof fn lemma_pow256_mono(a: nat, b: nat)
    requires
        a <= b,
    ensures
        pow256(a) <= pow256(b),
    decreases b,
{
    if a < b && b > 0 {
        lemma_pow256_mono(a, (b - 1) as nat);
    }
}

/// The bit pattern of a leaf value, as a natural number below
/// `256^width`: unsigned values are themselves, signed values use two's
/// complement, the unit value is zero.
pub open spec fn leaf_bits(v: LeafVal) -> nat {
    match v {
        LeafVal::U8(x) => x as nat,
        LeafVal::U16(x) => x as nat,
        LeafVal::U32(x) => x as nat,
        LeafVal::U64(x) => x as nat,
        LeafVal::I8(x) => if x >= 0 {
            x as nat
        } else {
            (x + 0x100) as nat
        },
        LeafVal::I16(x) => if x >= 0 {
            x as nat
        } else {
            (x + 0x1_0000) as nat
        },
        LeafVal::I32(x) => if x >= 0 {
            x as nat
        } else {
            (x + 0x1_0000_0000) as nat
        },
        LeafVal::I64(x) => if x >= 0 {
            x as nat
        } else {
            (x + 0x1_0000_0000_0000_0000) as nat
        },
        LeafVal::Unit => 0,
    }
}

/// The bit pattern fits in the kind's width.
pub proof fn lemma_leaf_bits_bound(v: LeafVal)
    ensures
        leaf_bits(v) < pow256(width_of(kind_of(v))),
{
    lemma_pow256_values();
}

/// The leaf value a kind assigns to a bit pattern (the inverse of
/// [`leaf_bits`]).
pub open spec fn value_of_bits(k: LeafKind, bits: nat) -> LeafVal
    recommends
        bits < pow256(width_of(k)),
{
    match k {
        LeafKind::U8 => LeafVal::U8(bits as u8),
        LeafKind::U16 => LeafVal::U16(bits as u16),
        LeafKind::U32 => LeafVal::U32(bits as u32),
        LeafKind::U64 => LeafVal::U64(bits as u64),
        LeafKind::I8 => if bits < 0x80 {
            LeafVal::I8(bits as i8)
        } else {
            LeafVal::I8((bits - 0x100) as i8)
        },
        LeafKind::I16 => if bits < 0x8000 {
            LeafVal::I16(bits as i16)
        } else {
            LeafVal::I16((bits - 0x1_0000) as i16)
        },
        LeafKind::I32 => if bits < 0x8000_0000 {
            LeafVal::I32(bits as i32)
        } else {
            LeafVal::I32((bits - 0x1_0000_0000) as i32)
        },
        LeafKind::I64 => if bits < 0x8000_0000_0000_0000 {
            LeafVal::I64(bits as i64)
        } else {
            LeafVal::I64((bits - 0x1_0000_0000_0000_0000) as i64)
        },
        LeafKind::Unit => LeafVal::Unit,
    }
}

/// Bit patterns round-trip: decoding a value's own bits gives the value.
pub proof fn lemma_value_of_bits_roundtrip(v: LeafVal)
    ensures
        value_of_bits(kind_of(v), leaf_bits(v)) == v,
{
}

/// The little-endian bytes of a bit pattern, `w` bytes long.
pub open spec fn spec_le(bits: nat, w: nat) -> Seq<u8>
    decreases w,
{
    if w == 0 {
        Seq::empty()
    } else {
        seq![(bits % 256) as u8] + spec_le(bits / 256, (w - 1) as nat)
    }
}

/// The bit pattern a little-endian byte sequence denotes.
pub open spec fn spec_de(s: Seq<u8>) -> nat
    decreases s.len(),
{
    if s.len() == 0 {
        0
    } else {
        (s[0] as nat) + 256 * spec_de(s.subrange(1, s.len() as int))
    }
}

/// The little-endian bytes of a leaf value, `width_of(kind_of(v))` long.
pub open spec fn spec_leaf_bytes(v: LeafVal) -> Seq<u8> {
    spec_le(leaf_bits(v), width_of(kind_of(v)))
}

/// Shape and indices of the little-endian encoding: byte `j` holds
/// `(bits / 256^j) % 256`.
pub proof fn lemma_spec_le_index(bits: nat, w: nat)
    ensures
        spec_le(bits, w).len() == w,
        forall|j: int|
            0 <= j < w ==> spec_le(bits, w)[j] == ((bits / pow256(j as nat)) % 256) as u8,
    decreases w,
{
    if w > 0 {
        lemma_spec_le_index(bits / 256, (w - 1) as nat);
        assert forall|j: int|
            0 <= j < w implies spec_le(bits, w)[j] == ((bits / pow256(j as nat)) % 256) as u8 by {
            if j == 0 {
                assert(pow256(0) == 1);
                assert(bits / 1 == bits);
            } else {
                assert(spec_le(bits, w)[j] == spec_le(bits / 256, (w - 1) as nat)[j - 1]);
                lemma_pow256_pos((j - 1) as nat);
                lemma_div_denominator(bits as int, 256, pow256((j - 1) as nat) as int);
                assert(256 * pow256((j - 1) as nat) == pow256(j as nat));
            }
        }
    }
}

/// Decoded values are bounded by the byte count.
pub proof fn lemma_spec_de_bound(s: Seq<u8>)
    ensures
        spec_de(s) < pow256(s.len()),
    decreases s.len(),
{
    if s.len() > 0 {
        lemma_spec_de_bound(s.subrange(1, s.len() as int));
    }
}

/// The byte codec round-trips: decoding the `w`-byte little-endian form
/// of a bit pattern below `256^w` gives the pattern back.
pub proof fn lemma_le_de_roundtrip(bits: nat, w: nat)
    requires
        bits < pow256(w),
    ensures
        spec_de(spec_le(bits, w)) == bits,
    decreases w,
{
    if w == 0 {
    } else {
        let tail = spec_le(bits / 256, (w - 1) as nat);
        lemma_spec_le_index(bits, w);
        assert(spec_le(bits, w).subrange(1, spec_le(bits, w).len() as int) =~= tail);
        assert(pow256(w) == 256 * pow256((w - 1) as nat));
        lemma_multiply_divide_lt(bits as int, 256, pow256((w - 1) as nat) as int);
        lemma_le_de_roundtrip(bits / 256, (w - 1) as nat);
        lemma_fundamental_div_mod(bits as int, 256);
    }
}

/// The bit pattern of a leaf value, as a machine word.
pub fn to_bits(v: &LeafVal) -> (b: u64)
    ensures
        b as nat == leaf_bits(*v),
{
    match v {
        LeafVal::U8(x) => *x as u64,
        LeafVal::U16(x) => *x as u64,
        LeafVal::U32(x) => *x as u64,
        LeafVal::U64(x) => *x,
        LeafVal::I8(x) => if *x >= 0 {
            *x as u64
        } else {
            ((*x as i16) + 0x100) as u64
        },
        LeafVal::I16(x) => if *x >= 0 {
            *x as u64
        } else {
            ((*x as i32) + 0x1_0000) as u64
        },
        LeafVal::I32(x) => if *x >= 0 {
            *x as u64
        } else {
            ((*x as i64) + 0x1_0000_0000) as u64
        },
        LeafVal::I64(x) => if *x >= 0 {
            *x as u64
        } else {
            ((*x as i128) + 0x1_0000_0000_0000_0000) as u64
        },
        LeafVal::Unit => 0,
    }
}

/// The leaf value of a kind and a bit pattern.
pub fn from_bits(k: LeafKind, bits: u64) -> (v: LeafVal)
    requires
        (bits as nat) < pow256(width_of(k)),
    ensures
        v == value_of_bits(k, bits as nat),
        kind_of(v) == k,
{
    proof {
        lemma_pow256_values();
    }
    match k {
        LeafKind::U8 => LeafVal::U8(bits as u8),
        LeafKind::U16 => LeafVal::U16(bits as u16),
        LeafKind::U32 => LeafVal::U32(bits as u32),
        LeafKind::U64 => LeafVal::U64(bits),
        LeafKind::I8 => if bits < 0x80 {
            LeafVal::I8(bits as i8)
        } else {
            LeafVal::I8(((bits as i16) - 0x100) as i8)
        },
        LeafKind::I16 => if bits < 0x8000 {
            LeafVal::I16(bits as i16)
        } else {
            LeafVal::I16(((bits as i32) - 0x1_0000) as i16)
        },
        LeafKind::I32 => if bits < 0x8000_0000 {
            LeafVal::I32(bits as i32)
        } else {
            LeafVal::I32(((bits as i64) - 0x1_0000_0000) as i32)
        },
        LeafKind::I64 => if bits < 0x8000_0000_0000_0000 {
            LeafVal::I64(bits as i64)
        } else {
            LeafVal::I64(((bits as i128) - 0x1_0000_0000_0000_0000) as i64)
        },
        LeafKind::Unit => LeafVal::Unit,
    }
}

/// Writes a value's leaf into the buffer's front, little-endian and
/// fixed-width, leaving the rest of the buffer untouched.  Returns how
/// many bytes were written, or `None`, writing nothing, when the buffer
/// is shorter than the leaf's width.  The unit value writes zero bytes.
pub fn dehydrate(v: &Value, buf: &mut Vec<u8>) -> (r: Option<usize>)
    requires
        *v is Leaf,
    ensures
        ({
            let lv = v->Leaf_0;
            let w = width_of(kind_of(lv));
            &&& old(buf)@.len() < w ==> r is None && final(buf)@ == old(buf)@
            &&& old(buf)@.len() >= w ==> r == Some(w as usize) && final(buf)@ == spec_leaf_bytes(
                lv,
            ) + old(buf)@.skip(w as int)
        }),
{
    let lv = match v {
        Value::Leaf(l) => l,
        Value::Tag(_) => {
            proof {
                assert(false);
            }
            return None;
        },
    };
    let w = leaf_width(leaf_kind(lv));
    if buf.len() < w {
        return None;
    }
    let ghost bits = leaf_bits(*lv);
    let mut x = to_bits(lv);
    proof {
        lemma_spec_le_index(bits, w as nat);
        lemma_leaf_bits_bound(*lv);
    }
    let mut i: usize = 0;
    while i < w
        invariant
            i <= w,
            w == width_of(kind_of(*lv)),
            bits == leaf_bits(*lv),
            buf@.len() == old(buf)@.len(),
            w <= buf@.len(),
            x as nat == bits / pow256(i as nat),
            spec_le(bits, w as nat).len() == w,
            forall|j: int|
                0 <= j < w ==> spec_le(bits, w as nat)[j] == ((bits / pow256(j as nat))
                    % 256) as u8,
            forall|j: int| 0 <= j < i ==> buf@[j] == spec_le(bits, w as nat)[j],
            forall|j: int| i <= j < buf@.len() ==> buf@[j] == old(buf)@[j],
        decreases w - i,
    {
        buf[i] = (x % 256) as u8;
        proof {
            lemma_pow256_pos(i as nat);
            lemma_div_denominator(bits as int, pow256(i as nat) as int, 256);
            assert(pow256(i as nat) * 256 == pow256((i + 1) as nat)) by {
                assert(pow256((i + 1) as nat) == 256 * pow256(i as nat));
            }
        }
        x = x / 256;
        i = i + 1;
    }
    proof {
        assert(buf@ =~= spec_leaf_bytes(*lv) + old(buf)@.skip(w as int));
    }
    Some(w)
}

/// Reads the `w`-byte little-endian bit pattern at the buffer's front.
fn read_bits(buf: &[u8], w: usize) -> (b: u64)
    requires
        w <= 8,
        w <= buf@.len(),
    ensures
        b as nat == spec_de(buf@.take(w as int)),
        (b as nat) < pow256(w as nat),
{
    proof {
        lemma_spec_de_bound(buf@.take(w as int));
        lemma_pow256_values();
        lemma_pow256_mono(w as nat, 8);
    }
    let mut k = w;
    let mut acc: u64 = 0;
    while k > 0
        invariant
            k <= w,
            w <= 8,
            w <= buf@.len(),
            acc as nat == spec_de(buf@.subrange(k as int, w as int)),
            (acc as nat) < pow256((w - k) as nat),
        decreases k,
    {
        proof {
            lemma_spec_de_bound(buf@.subrange(k as int, w as int));
            lemma_pow256_mono((w - k) as nat, 7);
            lemma_pow256_values();
            assert(buf@.subrange(k - 1, w as int).subrange(
                1,
                buf@.subrange(k - 1, w as int).len() as int,
            ) =~= buf@.subrange(k as int, w as int));
            assert(pow256((w - k + 1) as nat) == 256 * pow256((w - k) as nat));
        }
        let byte = buf[k - 1];
        acc = (byte as u64) + 256 * acc;
        k = k - 1;
    }
    proof {
        assert(buf@.subrange(0, w as int) =~= buf@.take(w as int));
    }
    acc
}

/// The getter ends at a scalar leaf (not at a union tag).
pub open spec fn leaf_terminated(g: Getter) -> bool
    decreases g,
{
    match g {
        Getter::Unspecified => false,
        Getter::Terminal => true,
        Getter::GetVariant => false,
        Getter::Field(_, c) => leaf_terminated(*c),
        Getter::Variant(_, c) => leaf_terminated(*c),
        Getter::Arr(a) => leaf_terminated((*a).r),
    }
}

/// The kind of the leaf a getter addresses within a shape, when its path
/// exists and ends at a leaf.
pub open spec fn addressed_kind(shape: Shape, g: Getter) -> Option<LeafKind>
    decreases g,
{
    match g {
        Getter::Unspecified => None,
        Getter::Terminal => match shape {
            Shape::Leaf(k) => Some(k),
            _ => None,
        },
        Getter::GetVariant => None,
        Getter::Field(i, c) => match shape {
            Shape::Record(fs) => if i < fs.len() {
                addressed_kind(fs[i as int].shape, *c)
            } else {
                None
            },
            _ => None,
        },
        Getter::Variant(i, c) => match shape {
            Shape::Union(vs) => if i < vs.len() {
                match vs[i as int].payload {
                    Some(p) => addressed_kind(p, *c),
                    None => None,
                }
            } else {
                None
            },
            _ => None,
        },
        Getter::Arr(a) => match shape {
            Shape::Array(t, _) => addressed_kind(*t, (*a).r),
            _ => None,
        },
    }
}

/// A fitting, leaf-terminated getter always addresses a kind.
pub proof fn lemma_addressed_kind_some(shape: Shape, g: Getter)
    requires
        getter_fits(shape, g),
        leaf_terminated(g),
    ensures
        addressed_kind(shape, g) is Some,
    decreases g,
{
    match g {
        Getter::Field(i, c) => {
            if let Shape::Record(fs) = shape {
                lemma_addressed_kind_some(fs[i as int].shape, *c);
            }
        },
        Getter::Variant(i, c) => {
            if let Shape::Union(vs) = shape {
                lemma_addressed_kind_some(vs[i as int].payload->Some_0, *c);
            }
        },
        Getter::Arr(a) => {
            if let Shape::Array(t, _) = shape {
                lemma_addressed_kind_some(*t, (*a).r);
            }
        },
        _ => {},
    }
}

/// Walks to the addressed leaf's kind.
pub fn leaf_kind_of_getter(shape: &Shape, g: &Getter) -> (k: LeafKind)
    requires
        getter_fits(*shape, *g),
        leaf_terminated(*g),
    ensures
        addressed_kind(*shape, *g) == Some(k),
    decreases *g,
{
    match g {
        Getter::Terminal => match shape {
            Shape::Leaf(k) => *k,
            _ => {
                proof {
                    assert(false);
                }
                LeafKind::Unit
            },
        },
        Getter::Field(i, c) => match shape {
            Shape::Record(fs) => leaf_kind_of_getter(&fs[*i].shape, &**c),
            _ => {
                proof {
                    assert(false);
                }
                LeafKind::Unit
            },
        },
        Getter::Variant(i, c) => match shape {
            Shape::Union(vs) => match &vs[*i].payload {
                Some(p) => leaf_kind_of_getter(p, &**c),
                None => {
                    proof {
                        assert(false);
                    }
                    LeafKind::Unit
                },
            },
            _ => {
                proof {
                    assert(false);
                }
                LeafKind::Unit
            },
        },
        Getter::Arr(a) => match shape {
            Shape::Array(t, _) => leaf_kind_of_getter(&**t, &(**a).r),
            _ => {
                proof {
                    assert(false);
                }
                LeafKind::Unit
            },
        },
        _ => {
            proof {
                assert(false);
            }
            LeafKind::Unit
        },
    }
}

/// What `hydrate` returns: the value that the addressed leaf's kind
/// assigns to the buffer's first `width` bytes, read little-endian, and
/// the width consumed; `TooShort` when the buffer has fewer bytes.
pub open spec fn spec_hydrate(shape: Shape, g: Getter, bytes: Seq<u8>) -> Result<
    (Value, nat),
    Error,
> {
    match addressed_kind(shape, g) {
        Some(k) => if bytes.len() >= width_of(k) {
            Ok((Value::Leaf(value_of_bits(k, spec_de(bytes.take(width_of(k) as int)))), width_of(k)))
        } else {
            Err(Error::TooShort)
        },
        None => Err(Error::PathMismatch),
    }
}

/// Reconstructs a value from a descriptor and raw bytes alone: the
/// addressed leaf's kind fixes the width, the buffer's front supplies the
/// little-endian bytes.  Fails only with `TooShort`, when the buffer has
/// fewer bytes than that width.
pub fn hydrate(shape: &Shape, g: &Getter, buf: &[u8]) -> (r: Result<(Value, usize), Error>)
    requires
        getter_fits(*shape, *g),
        leaf_terminated(*g),
    ensures
        match spec_hydrate(*shape, *g, buf@) {
            Ok(p) => r matches Ok(q) && q.0 == p.0 && q.1 == p.1,
            Err(e) => r == Err::<(Value, usize), Error>(e),
        },
{
    proof {
        lemma_addressed_kind_some(*shape, *g);
    }
    let k = leaf_kind_of_getter(shape, g);
    let w = leaf_width(k);
    if buf.len() < w {
        return Err(Error::TooShort);
    }
    let bits = read_bits(buf, w);
    Ok((Value::Leaf(from_bits(k, bits)), w))
}

/// Binary round-trip: hydrating the bytes that dehydrating a leaf value
/// wrote, through any getter addressing that value's kind, yields the
/// value back and consumes exactly its width, whatever follows those
/// bytes in the buffer.
pub proof fn lemma_binary_roundtrip(shape: Shape, g: Getter, v: LeafVal, rest: Seq<u8>)
    requires
        getter_fits(shape, g),
        leaf_terminated(g),
        addressed_kind(shape, g) == Some(kind_of(v)),
    ensures
        spec_hydrate(shape, g, spec_leaf_bytes(v) + rest) == Ok::<(Value, nat), Error>(
            (Value::Leaf(v), width_of(kind_of(v))),
        ),
{
    let w = width_of(kind_of(v));
    let bytes = spec_leaf_bytes(v) + rest;
    lemma_spec_le_index(leaf_bits(v), w);
    assert(bytes.take(w as int) =~= spec_leaf_bytes(v));
    lemma_leaf_bits_bound(v);
    lemma_le_de_roundtrip(leaf_bits(v), w);
    lemma_value_of_bits_roundtrip(v);
}

} // verus!
