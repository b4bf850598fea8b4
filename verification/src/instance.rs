//! Live instances: the runtime values that descriptors are resolved
//! against, and their mathematical model.

use vstd::prelude::*;
use crate::leaf::{LeafVal, kind_of};
use crate::shape::Shape;

verus! {

/// A live value of some shape: a scalar leaf, a record holding one child
/// per declared field (in declaration order), a union holding its live
/// variant's index and, for a newtype variant, its payload, or an array of
/// elements.
#[derive(PartialEq, Eq, Debug)]
pub enum Instance {
    Leaf(LeafVal),
    Record(Vec<Instance>),
    Union(usize, Option<Box<Instance>>),
    Array(Vec<Instance>),
}

/// The mathematical model of an [`Instance`]: the same tree with
/// mathematical sequences for children.
#[verifier::ext_equal]
pub enum InstV {
    Leaf(LeafVal),
    Record(Seq<InstV>),
    Union(usize, Option<Box<InstV>>),
    Array(Seq<InstV>),
}

/// Model of a sequence of child instances.
pub open spec fn insts_view(xs: Seq<Instance>) -> Seq<InstV>
    decreases xs,
{
    if xs.len() == 0 {
        Seq::empty()
    } else {
        insts_view(xs.subrange(0, xs.len() - 1)).push(inst_view(xs[xs.len() - 1]))
    }
}

/// Model of one instance.
pub open spec fn inst_view(x: Instance) -> InstV
    decreases x,
{
    match x {
        Instance::Leaf(v) => InstV::Leaf(v),
        Instance::Record(xs) => InstV::Record(insts_view(xs@)),
        Instance::Union(a, p) => InstV::Union(
            a,
            match p {
                Some(b) => Some(Box::new(inst_view(*b))),
                None => None,
            },
        ),
        Instance::Array(xs) => InstV::Array(insts_view(xs@)),
    }
}

impl View for Instance {
    type V = InstV;

    open spec fn view(&self) -> InstV {
        inst_view(*self)
    }
}

/// The model of a child sequence has the same length and models each
/// child pointwise.
pub proof fn lemma_insts_view_index(xs: Seq<Instance>)
    ensures
        insts_view(xs).len() == xs.len(),
        forall|i: int| 0 <= i < xs.len() ==> insts_view(xs)[i] == inst_view(#[trigger] xs[i]),
    decreases xs.len(),
{
    if xs.len() > 0 {
        let sub = xs.subrange(0, xs.len() - 1);
        lemma_insts_view_index(sub);
        assert forall|i: int| 0 <= i < xs.len() implies insts_view(xs)[i] == inst_view(
            #[trigger] xs[i],
        ) by {
            if i < xs.len() - 1 {
                assert(sub[i] == xs[i]);
                assert(insts_view(xs)[i] == insts_view(sub)[i]);
            }
        }
    }
}

/// Updating one child updates the model pointwise.
pub proof fn lemma_insts_view_update(xs: Seq<Instance>, i: int, e: Instance)
    requires
        0 <= i < xs.len(),
    ensures
        insts_view(xs.update(i, e)) == insts_view(xs).update(i, inst_view(e)),
{
    lemma_insts_view_index(xs);
    lemma_insts_view_index(xs.update(i, e));
    assert forall|j: int| 0 <= j < xs.len() implies insts_view(xs.update(i, e))[j] == insts_view(
        xs,
    ).update(i, inst_view(e))[j] by {
        if j == i {
            assert(xs.update(i, e)[j] == e);
        } else {
            assert(xs.update(i, e)[j] == xs[j]);
        }
    }
    assert(insts_view(xs.update(i, e)) =~= insts_view(xs).update(i, inst_view(e)));
}

/// The instance has exactly the nested structure that `shape` declares:
/// leaf kinds agree, records have one child per field, the union's live
/// variant index is in range and carries a payload exactly for a newtype
/// variant, and arrays have exactly the declared extent.
pub open spec fn conforms(iv: InstV, shape: Shape) -> bool
    decreases iv,
{
    match iv {
        InstV::Leaf(v) => shape matches Shape::Leaf(k) && kind_of(v) == k,
        InstV::Record(xs) => {
            &&& shape matches Shape::Record(fs)
            &&& xs.len() == fs.len()
            &&& forall|i: int| 0 <= i < xs.len() ==> conforms(#[trigger] xs[i], fs[i].shape)
        },
        InstV::Union(a, p) => {
            &&& shape matches Shape::Union(vs)
            &&& a < vs.len()
            &&& match vs[a as int].payload {
                Some(ps) => p matches Some(b) && conforms(*b, ps),
                None => p is None,
            }
        },
        InstV::Array(xs) => {
            &&& shape matches Shape::Array(t, n)
            &&& xs.len() == n
            &&& forall|i: int| 0 <= i < xs.len() ==> conforms(#[trigger] xs[i], *t)
        },
    }
}

} // verus!
