//! Shapes: the run-time description of a nested data layout, with
//! per-field and per-variant access policies.

use vstd::prelude::*;
use crate::leaf::LeafKind;

verus! {

/// Access policy of one field or variant.
///
/// `Skip` excludes it from both protocols, `ReadOnly` from the setter
/// protocol and `WriteOnly` from the getter protocol.
#[derive(Clone, Copy, PartialEq, Eq, Structural, Debug)]
pub enum Policy {
    Normal,
    Skip,
    ReadOnly,
    WriteOnly,
}

/// True when the getter protocol may address an item with policy `p`.
pub open spec fn getter_visible(p: Policy) -> bool {
    p == Policy::Normal || p == Policy::ReadOnly
}

/// True when the setter protocol may address an item with policy `p`.
pub open spec fn setter_visible(p: Policy) -> bool {
    p == Policy::Normal || p == Policy::WriteOnly
}

/// Executable test for [`getter_visible`].
pub fn is_getter_visible(p: Policy) -> (r: bool)
    ensures
        r == getter_visible(p),
{
    match p {
        Policy::Normal => true,
        Policy::ReadOnly => true,
        _ => false,
    }
}

/// Executable test for [`setter_visible`].
pub fn is_setter_visible(p: Policy) -> (r: bool)
    ensures
        r == setter_visible(p),
{
    match p {
        Policy::Normal => true,
        Policy::WriteOnly => true,
        _ => false,
    }
}

/// One named field of a record shape.
#[derive(Debug)]
pub struct FieldDef {
    pub name: Vec<u8>,
    pub policy: Policy,
    pub shape: Shape,
}

/// One named variant of a union shape: a unit variant carries no payload,
/// a newtype variant carries exactly one nested shape.
#[derive(Debug)]
pub struct VariantDef {
    pub name: Vec<u8>,
    pub policy: Policy,
    pub payload: Option<Shape>,
}

/// A statically-known nested data shape: a scalar leaf, a record of named
/// fields, a union of named variants, or a fixed-extent array of one
/// element shape.
#[derive(Debug)]
pub enum Shape {
    Leaf(LeafKind),
    Record(Vec<FieldDef>),
    Union(Vec<VariantDef>),
    Array(Box<Shape>, usize),
}

/// Bytes allowed in a field or variant name: ASCII letters, digits and `_`.
/// The path delimiters `.`, `:`, `[` and `]` are never identifier bytes.
pub open spec fn is_ident_byte(b: u8) -> bool {
    (97 <= b && b <= 122) || (65 <= b && b <= 90) || (48 <= b && b <= 57) || b == 95
}

/// A usable name: nonempty and made of identifier bytes only.
pub open spec fn wf_name(s: Seq<u8>) -> bool {
    0 < s.len() && (forall|i: int| 0 <= i < s.len() ==> is_ident_byte(s[i]))
}

/// `a` is a prefix of `b`.
pub open spec fn is_prefix_of(a: Seq<u8>, b: Seq<u8>) -> bool {
    a.len() <= b.len() && a == b.subrange(0, a.len() as int)
}

/// The names of a sibling list are well formed and prefix-free: no name is
/// a prefix of another (so in particular all are distinct).  Prefix
/// freedom is what makes textual path parsing unambiguous.
pub open spec fn names_ok(names: Seq<Seq<u8>>) -> bool {
    &&& forall|i: int| 0 <= i < names.len() ==> wf_name(#[trigger] names[i])
    &&& forall|i: int, j: int|
        0 <= i < names.len() && 0 <= j < names.len() && i != j ==> !is_prefix_of(
            #[trigger] names[i],
            #[trigger] names[j],
        )
}

/// The names of a record's fields, in declaration order.
pub open spec fn field_names(fs: Seq<FieldDef>) -> Seq<Seq<u8>> {
    Seq::new(fs.len(), |i: int| fs[i].name@)
}

/// The names of a union's variants, in declaration order.
pub open spec fn variant_names(vs: Seq<VariantDef>) -> Seq<Seq<u8>> {
    Seq::new(vs.len(), |i: int| vs[i].name@)
}

/// A well-formed shape: every sibling name list is well formed and
/// prefix-free, and every nested shape is well formed again.
pub open spec fn wf_shape(s: Shape) -> bool
    decreases s,
{
    match s {
        Shape::Leaf(_) => true,
        Shape::Record(fs) => {
            &&& names_ok(field_names(fs@))
            &&& forall|i: int| 0 <= i < fs.len() ==> wf_shape(#[trigger] fs[i].shape)
        },
        Shape::Union(vs) => {
            &&& names_ok(variant_names(vs@))
            &&& forall|i: int|
                0 <= i < vs.len() ==> match #[trigger] vs[i].payload {
                    Some(p) => wf_shape(p),
                    None => true,
                }
        },
        Shape::Array(t, _) => wf_shape(*t),
    }
}

} // verus!
