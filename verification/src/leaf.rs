//! Scalar leaves: the kinds a leaf position can declare, the values it can
//! hold, and their fixed-width little-endian byte form.

use vstd::prelude::*;

verus! {

/// The scalar kind a leaf position declares: an unsigned or signed integer
/// of a fixed width, or the empty unit value.
#[derive(Clone, Copy, PartialEq, Eq, Structural, Debug)]
pub enum LeafKind {
    U8,
    U16,
    U32,
    U64,
    I8,
    I16,
    I32,
    I64,
    Unit,
}

/// A scalar leaf value, tagged with its kind.
#[derive(Clone, Copy, PartialEq, Eq, Structural, Hash, Debug)]
pub enum LeafVal {
    U8(u8),
    U16(u16),
    U32(u32),
    U64(u64),
    I8(i8),
    I16(i16),
    I32(i32),
    I64(i64),
    Unit,
}

/// The kind of a leaf value.
pub open spec fn kind_of(v: LeafVal) -> LeafKind {
    match v {
        LeafVal::U8(_) => LeafKind::U8,
        LeafVal::U16(_) => LeafKind::U16,
        LeafVal::U32(_) => LeafKind::U32,
        LeafVal::U64(_) => LeafKind::U64,
        LeafVal::I8(_) => LeafKind::I8,
        LeafVal::I16(_) => LeafKind::I16,
        LeafVal::I32(_) => LeafKind::I32,
        LeafVal::I64(_) => LeafKind::I64,
        LeafVal::Unit => LeafKind::Unit,
    }
}

/// The number of bytes the binary codec uses for a kind.
pub open spec fn width_of(k: LeafKind) -> nat {
    match k {
        LeafKind::U8 => 1,
        LeafKind::U16 => 2,
        LeafKind::U32 => 4,
        LeafKind::U64 => 8,
        LeafKind::I8 => 1,
        LeafKind::I16 => 2,
        LeafKind::I32 => 4,
        LeafKind::I64 => 8,
        LeafKind::Unit => 0,
    }
}

/// Executable kind of a leaf value.
pub fn leaf_kind(v: &LeafVal) -> (k: LeafKind)
    ensures
        k == kind_of(*v),
{
    match v {
        LeafVal::U8(_) => LeafKind::U8,
        LeafVal::U16(_) => LeafKind::U16,
        LeafVal::U32(_) => LeafKind::U32,
        LeafVal::U64(_) => LeafKind::U64,
        LeafVal::I8(_) => LeafKind::I8,
        LeafVal::I16(_) => LeafKind::I16,
        LeafVal::I32(_) => LeafKind::I32,
        LeafVal::I64(_) => LeafKind::I64,
        LeafVal::Unit => LeafKind::Unit,
    }
}

/// Executable width of a kind.
pub fn leaf_width(k: LeafKind) -> (w: usize)
    ensures
        w == width_of(k),
{
    match k {
        LeafKind::U8 => 1,
        LeafKind::U16 => 2,
        LeafKind::U32 => 4,
        LeafKind::U64 => 8,
        LeafKind::I8 => 1,
        LeafKind::I16 => 2,
        LeafKind::I32 => 4,
        LeafKind::I64 => 8,
        LeafKind::Unit => 0,
    }
}

} // verus!
