//! Descriptors: the getter and setter address types and their composition
//! rules over a shape.

use vstd::prelude::*;
use crate::leaf::{LeafVal, kind_of};
use crate::shape::{Shape, getter_visible, setter_visible};

verus! {

/// The array-descriptor pair: a child descriptor `r` for the element shape
/// together with the intrinsic element index `idx`.  Every array
/// descriptor carries its index; there is no "whole array" terminal.
#[derive(PartialEq, Eq, Hash, Debug)]
pub struct ArrHelper<T> {
    pub r: T,
    pub idx: usize,
}

impl<T> ArrHelper<T> {
    /// Pairs a child descriptor with an element index.
    pub fn new(r: T, idx: usize) -> (a: ArrHelper<T>)
        ensures
            a.r == r,
            a.idx == idx,
    {
        ArrHelper { r, idx }
    }
}

impl ArrHelper<Getter> {
    /// Builder for an array getter: selects element `idx` and descends
    /// with `r`.  The pair it is called on only fixes the element type;
    /// its content is discarded.
    pub fn arr_get(self, idx: usize, r: Getter) -> (a: ArrHelper<Getter>)
        ensures
            a.r == r,
            a.idx == idx,
    {
        ArrHelper::new(r, idx)
    }
}

impl ArrHelper<Setter> {
    /// Builder for an array setter: selects element `idx` and descends
    /// with `r`.  The pair it is called on only fixes the element type;
    /// its content is discarded.
    pub fn arr_set(self, idx: usize, r: Setter) -> (a: ArrHelper<Setter>)
        ensures
            a.r == r,
            a.idx == idx,
    {
        ArrHelper::new(r, idx)
    }
}

/// A getter descriptor: names one path through a shape, ending at a scalar
/// leaf (`Terminal`) or at a union's live tag (`GetVariant`).
///
/// `Unspecified` is the neutral default state.  It is distinct from every
/// addressable path and must never be handed to the resolution engine; the
/// engines require well-formed descriptors ([`wf_getter`]).
#[derive(PartialEq, Eq, Hash, Debug)]
pub enum Getter {
    Unspecified,
    Terminal,
    GetVariant,
    Field(usize, Box<Getter>),
    Variant(usize, Box<Getter>),
    Arr(Box<ArrHelper<Getter>>),
}

/// A setter descriptor: structurally a getter, but its terminal carries
/// the leaf value to write, and a union may also be replaced wholesale by
/// one of its unit variants (`VariantUnit`).
#[derive(PartialEq, Eq, Hash, Debug)]
pub enum Setter {
    Unspecified,
    Leaf(LeafVal),
    VariantUnit(usize),
    Field(usize, Box<Setter>),
    Variant(usize, Box<Setter>),
    Arr(Box<ArrHelper<Setter>>),
}

impl Default for Getter {
    /// The neutral "unspecified" state.
    fn default() -> (g: Getter)
        ensures
            g == Getter::Unspecified,
    {
        Getter::Unspecified
    }
}

impl Default for Setter {
    /// The neutral "unspecified" state.
    fn default() -> (s: Setter)
        ensures
            s == Setter::Unspecified,
    {
        Setter::Unspecified
    }
}

impl Getter {
    /// Builder: select field `i`, then continue as `child`.
    pub fn make_field(i: usize, child: Getter) -> (g: Getter)
        ensures
            g == Getter::Field(i, Box::new(child)),
    {
        Getter::Field(i, Box::new(child))
    }

    /// Builder: select the payload of variant `i`, then continue as `child`.
    pub fn make_variant(i: usize, child: Getter) -> (g: Getter)
        ensures
            g == Getter::Variant(i, Box::new(child)),
    {
        Getter::Variant(i, Box::new(child))
    }

    /// Builder: select a union's live tag.  This always resolves, whatever
    /// variant is live.
    pub fn make_var() -> (g: Getter)
        ensures
            g == Getter::GetVariant,
    {
        Getter::GetVariant
    }

    /// Builder: select array element `idx`, then continue as `child`.
    pub fn make_index(idx: usize, child: Getter) -> (g: Getter)
        ensures
            g == Getter::Arr(Box::new(ArrHelper { r: child, idx })),
    {
        Getter::Arr(Box::new(ArrHelper { r: child, idx }))
    }
}

impl Setter {
    /// Builder: select field `i`, then continue as `child`.
    pub fn make_field(i: usize, child: Setter) -> (s: Setter)
        ensures
            s == Setter::Field(i, Box::new(child)),
    {
        Setter::Field(i, Box::new(child))
    }

    /// Builder: select the payload of newtype variant `i`, then continue
    /// as `child`.
    pub fn make_variant(i: usize, child: Setter) -> (s: Setter)
        ensures
            s == Setter::Variant(i, Box::new(child)),
    {
        Setter::Variant(i, Box::new(child))
    }

    /// Builder: replace the union with unit variant `i`, discarding any
    /// previous payload.
    pub fn make_unit_variant(i: usize) -> (s: Setter)
        ensures
            s == Setter::VariantUnit(i),
    {
        Setter::VariantUnit(i)
    }

    /// Builder: select array element `idx`, then continue as `child`.
    pub fn make_index(idx: usize, child: Setter) -> (s: Setter)
        ensures
            s == Setter::Arr(Box::new(ArrHelper { r: child, idx })),
    {
        Setter::Arr(Box::new(ArrHelper { r: child, idx }))
    }
}

impl Clone for Getter {
    /// A deep copy equal to the original.
    fn clone(&self) -> (res: Getter)
        ensures
            res == *self,
        decreases *self,
    {
        match self {
            Getter::Unspecified => Getter::Unspecified,
            Getter::Terminal => Getter::Terminal,
            Getter::GetVariant => Getter::GetVariant,
            Getter::Field(i, c) => Getter::Field(*i, Box::new((**c).clone())),
            Getter::Variant(i, c) => Getter::Variant(*i, Box::new((**c).clone())),
            Getter::Arr(a) => Getter::Arr(
                Box::new(ArrHelper { r: (**a).r.clone(), idx: (**a).idx }),
            ),
        }
    }
}

impl Clone for Setter {
    /// A deep copy equal to the original.
    fn clone(&self) -> (res: Setter)
        ensures
            res == *self,
        decreases *self,
    {
        match self {
            Setter::Unspecified => Setter::Unspecified,
            Setter::Leaf(v) => Setter::Leaf(*v),
            Setter::VariantUnit(i) => Setter::VariantUnit(*i),
            Setter::Field(i, c) => Setter::Field(*i, Box::new((**c).clone())),
            Setter::Variant(i, c) => Setter::Variant(*i, Box::new((**c).clone())),
            Setter::Arr(a) => Setter::Arr(
                Box::new(ArrHelper { r: (**a).r.clone(), idx: (**a).idx }),
            ),
        }
    }
}

/// A well-formed getter: contains no `Unspecified` state anywhere.
pub open spec fn wf_getter(g: Getter) -> bool
    decreases g,
{
    match g {
        Getter::Unspecified => false,
        Getter::Terminal => true,
        Getter::GetVariant => true,
        Getter::Field(_, c) => wf_getter(*c),
        Getter::Variant(_, c) => wf_getter(*c),
        Getter::Arr(a) => wf_getter((*a).r),
    }
}

/// A well-formed setter: contains no `Unspecified` state anywhere.
pub open spec fn wf_setter(s: Setter) -> bool
    decreases s,
{
    match s {
        Setter::Unspecified => false,
        Setter::Leaf(_) => true,
        Setter::VariantUnit(_) => true,
        Setter::Field(_, c) => wf_setter(*c),
        Setter::Variant(_, c) => wf_setter(*c),
        Setter::Arr(a) => wf_setter((*a).r),
    }
}

/// The getter addresses a path that exists in `shape` and respects the
/// getter-side access policy at every step.
pub open spec fn getter_fits(shape: Shape, g: Getter) -> bool
    decreases g,
{
    match g {
        Getter::Unspecified => false,
        Getter::Terminal => shape is Leaf,
        Getter::GetVariant => shape is Union,
        Getter::Field(i, c) => {
            &&& shape matches Shape::Record(fs)
            &&& i < fs.len()
            &&& getter_visible(fs[i as int].policy)
            &&& getter_fits(fs[i as int].shape, *c)
        },
        Getter::Variant(i, c) => {
            &&& shape matches Shape::Union(vs)
            &&& i < vs.len()
            &&& getter_visible(vs[i as int].policy)
            &&& vs[i as int].payload matches Some(p)
            &&& getter_fits(p, *c)
        },
        Getter::Arr(a) => {
            &&& shape matches Shape::Array(t, n)
            &&& (*a).idx < n
            &&& getter_fits(*t, (*a).r)
        },
    }
}

/// The setter addresses a path that exists in `shape`, respects the
/// setter-side access policy at every step, and writes a value of the
/// addressed leaf's kind.
pub open spec fn setter_fits(shape: Shape, s: Setter) -> bool
    decreases s,
{
    match s {
        Setter::Unspecified => false,
        Setter::Leaf(v) => shape matches Shape::Leaf(k) && kind_of(v) == k,
        Setter::VariantUnit(i) => {
            &&& shape matches Shape::Union(vs)
            &&& i < vs.len()
            &&& setter_visible(vs[i as int].policy)
            &&& vs[i as int].payload is None
        },
        Setter::Field(i, c) => {
            &&& shape matches Shape::Record(fs)
            &&& i < fs.len()
            &&& setter_visible(fs[i as int].policy)
            &&& setter_fits(fs[i as int].shape, *c)
        },
        Setter::Variant(i, c) => {
            &&& shape matches Shape::Union(vs)
            &&& i < vs.len()
            &&& setter_visible(vs[i as int].policy)
            &&& vs[i as int].payload matches Some(p)
            &&& setter_fits(p, *c)
        },
        Setter::Arr(a) => {
            &&& shape matches Shape::Array(t, n)
            &&& (*a).idx < n
            &&& setter_fits(*t, (*a).r)
        },
    }
}

/// The getter follows the same path as the setter: same fields, variants
/// and indices, with the getter ending at the leaf (or, for a unit-variant
/// replacement, at the tag) that the setter writes.
pub open spec fn setter_matches_getter(s: Setter, g: Getter) -> bool
    decreases s,
{
    match (s, g) {
        (Setter::Leaf(_), Getter::Terminal) => true,
        (Setter::VariantUnit(_), Getter::GetVariant) => true,
        (Setter::Field(i, c), Getter::Field(j, d)) => i == j && setter_matches_getter(*c, *d),
        (Setter::Variant(i, c), Getter::Variant(j, d)) => i == j && setter_matches_getter(*c, *d),
        (Setter::Arr(a), Getter::Arr(b)) => (*a).idx == (*b).idx && setter_matches_getter(
            (*a).r,
            (*b).r,
        ),
        _ => false,
    }
}

/// The leaf value a setter carries at its terminal position (`Unit` for a
/// unit-variant replacement).
pub open spec fn setter_arg(s: Setter) -> LeafVal
    decreases s,
{
    match s {
        Setter::Leaf(v) => v,
        Setter::VariantUnit(_) => LeafVal::Unit,
        Setter::Field(_, c) => setter_arg(*c),
        Setter::Variant(_, c) => setter_arg(*c),
        Setter::Arr(a) => setter_arg((*a).r),
        Setter::Unspecified => LeafVal::Unit,
    }
}

/// The getter that reads back what a setter wrote: same path, terminal
/// where the setter carries its value, tag read where the setter replaces
/// a unit variant.
pub fn matching_getter(s: &Setter) -> (g: Getter)
    requires
        wf_setter(*s),
    ensures
        setter_matches_getter(*s, g),
        wf_getter(g),
    decreases *s,
{
    match s {
        Setter::Unspecified => Getter::Terminal,
        Setter::Leaf(_) => Getter::Terminal,
        Setter::VariantUnit(_) => Getter::GetVariant,
        Setter::Field(i, c) => Getter::Field(*i, Box::new(matching_getter(&**c))),
        Setter::Variant(i, c) => Getter::Variant(*i, Box::new(matching_getter(&**c))),
        Setter::Arr(a) => Getter::Arr(
            Box::new(ArrHelper { r: matching_getter(&(**a).r), idx: (**a).idx }),
        ),
    }
}

} // verus!
