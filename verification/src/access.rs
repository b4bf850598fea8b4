//! The access resolution engine: walking a descriptor against a live
//! instance to read (`get`) or write (`set`) the addressed value.

use vstd::prelude::*;
use crate::leaf::{LeafVal, kind_of, leaf_kind};
use crate::descriptor::{Getter, Setter, wf_getter, wf_setter, setter_matches_getter};
use crate::instance::{Instance, InstV, inst_view, insts_view, lemma_insts_view_index,
    lemma_insts_view_update};
use crate::value::Value;
use crate::shape::Shape;

verus! {

/// Why an operation failed.
#[derive(Clone, Copy, PartialEq, Eq, Structural, Debug)]
pub enum Error {
    /// A union payload was addressed while a different variant is live.
    VariantMismatch,
    /// An array index is at or beyond the declared extent.
    IndexOutOfBounds,
    /// The descriptor's path does not exist in the value it was resolved
    /// against.
    PathMismatch,
    /// The value to write has a different kind than the addressed leaf.
    KindMismatch,
    /// The byte buffer is shorter than the addressed leaf's fixed width.
    TooShort,
}

/// What `get` returns, for every instance and every well-formed getter.
pub open spec fn spec_get(iv: InstV, g: Getter) -> Result<Value, Error>
    decreases g,
{
    match g {
        Getter::Unspecified => Err(Error::PathMismatch),
        Getter::Terminal => match iv {
            InstV::Leaf(v) => Ok(Value::Leaf(v)),
            _ => Err(Error::PathMismatch),
        },
        Getter::GetVariant => match iv {
            InstV::Union(a, _) => Ok(Value::Tag(a)),
            _ => Err(Error::PathMismatch),
        },
        Getter::Field(i, c) => match iv {
            InstV::Record(xs) => if i < xs.len() {
                spec_get(xs[i as int], *c)
            } else {
                Err(Error::PathMismatch)
            },
            _ => Err(Error::PathMismatch),
        },
        Getter::Variant(i, c) => match iv {
            InstV::Union(a, p) => if a == i {
                match p {
                    Some(b) => spec_get(*b, *c),
                    None => Err(Error::PathMismatch),
                }
            } else {
                Err(Error::VariantMismatch)
            },
            _ => Err(Error::PathMismatch),
        },
        Getter::Arr(a) => match iv {
            InstV::Array(xs) => if (*a).idx < xs.len() {
                spec_get(xs[(*a).idx as int], (*a).r)
            } else {
                Err(Error::IndexOutOfBounds)
            },
            _ => Err(Error::PathMismatch),
        },
    }
}

/// What `set` does, for every instance and every well-formed setter: the
/// updated instance, or the error that leaves it unchanged.
pub open spec fn spec_set(iv: InstV, s: Setter) -> Result<InstV, Error>
    decreases s,
{
    match s {
        Setter::Unspecified => Err(Error::PathMismatch),
        Setter::Leaf(v) => match iv {
            InstV::Leaf(w) => if kind_of(v) == kind_of(w) {
                Ok(InstV::Leaf(v))
            } else {
                Err(Error::KindMismatch)
            },
            _ => Err(Error::PathMismatch),
        },
        Setter::VariantUnit(i) => match iv {
            InstV::Union(_, _) => Ok(InstV::Union(i, None)),
            _ => Err(Error::PathMismatch),
        },
        Setter::Field(i, c) => match iv {
            InstV::Record(xs) => if i < xs.len() {
                match spec_set(xs[i as int], *c) {
                    Ok(n) => Ok(InstV::Record(xs.update(i as int, n))),
                    Err(e) => Err(e),
                }
            } else {
                Err(Error::PathMismatch)
            },
            _ => Err(Error::PathMismatch),
        },
        Setter::Variant(i, c) => match iv {
            InstV::Union(a, p) => if a == i {
                match p {
                    Some(b) => match spec_set(*b, *c) {
                        Ok(n) => Ok(InstV::Union(a, Some(Box::new(n)))),
                        Err(e) => Err(e),
                    },
                    None => Err(Error::PathMismatch),
                }
            } else {
                Err(Error::VariantMismatch)
            },
            _ => Err(Error::PathMismatch),
        },
        Setter::Arr(a) => match iv {
            InstV::Array(xs) => if (*a).idx < xs.len() {
                match spec_set(xs[(*a).idx as int], (*a).r) {
                    Ok(n) => Ok(InstV::Array(xs.update((*a).idx as int, n))),
                    Err(e) => Err(e),
                }
            } else {
                Err(Error::IndexOutOfBounds)
            },
            _ => Err(Error::PathMismatch),
        },
    }
}

/// Resolves a getter against an instance.
///
/// At a union step addressing a payload, a different live variant is a
/// `VariantMismatch`; an array index at or past the array's length is an
/// `IndexOutOfBounds`; a descriptor that does not match the instance's
/// structure is a `PathMismatch`.  The unspecified descriptor state must
/// never be resolved, so a well-formed getter is required.
pub fn get(inst: &Instance, g: &Getter) -> (r: Result<Value, Error>)
    requires
        wf_getter(*g),
    ensures
        r == spec_get(inst@, *g),
    decreases *g,
{
    match g {
        Getter::Unspecified => {
            proof {
                assert(false);
            }
            Err(Error::PathMismatch)
        },
        Getter::Terminal => match inst {
            Instance::Leaf(v) => Ok(Value::Leaf(*v)),
            _ => Err(Error::PathMismatch),
        },
        Getter::GetVariant => match inst {
            Instance::Union(a, _) => Ok(Value::Tag(*a)),
            _ => Err(Error::PathMismatch),
        },
        Getter::Field(i, c) => match inst {
            Instance::Record(xs) => {
                proof {
                    lemma_insts_view_index(xs@);
                }
                if *i < xs.len() {
                    get(&xs[*i], &**c)
                } else {
                    Err(Error::PathMismatch)
                }
            },
            _ => Err(Error::PathMismatch),
        },
        Getter::Variant(i, c) => match inst {
            Instance::Union(a, p) => {
                if *a == *i {
                    match p {
                        Some(b) => get(&**b, &**c),
                        None => Err(Error::PathMismatch),
                    }
                } else {
                    Err(Error::VariantMismatch)
                }
            },
            _ => Err(Error::PathMismatch),
        },
        Getter::Arr(a) => match inst {
            Instance::Array(xs) => {
                proof {
                    lemma_insts_view_index(xs@);
                }
                if (**a).idx < xs.len() {
                    get(&xs[(**a).idx], &(**a).r)
                } else {
                    Err(Error::IndexOutOfBounds)
                }
            },
            _ => Err(Error::PathMismatch),
        },
    }
}

/// Recursive worker for [`set`]: takes the instance by value and returns
/// it back, updated on success and untouched on error.
fn set_rec(inst: Instance, s: &Setter) -> (res: (Result<(), Error>, Instance))
    requires
        wf_setter(*s),
    ensures
        match spec_set(inst@, *s) {
            Ok(n) => res.0 == Ok::<(), Error>(()) && res.1@ == n,
            Err(e) => res.0 == Err::<(), Error>(e) && res.1@ == inst@,
        },
    decreases *s,
{
    match s {
        Setter::Unspecified => {
            proof {
                assert(false);
            }
            (Err(Error::PathMismatch), inst)
        },
        Setter::Leaf(v) => match inst {
            Instance::Leaf(w) => {
                if leaf_kind(v) == leaf_kind(&w) {
                    (Ok(()), Instance::Leaf(*v))
                } else {
                    (Err(Error::KindMismatch), Instance::Leaf(w))
                }
            },
            other => (Err(Error::PathMismatch), other),
        },
        Setter::VariantUnit(i) => match inst {
            Instance::Union(_, _) => (Ok(()), Instance::Union(*i, None)),
            other => (Err(Error::PathMismatch), other),
        },
        Setter::Field(i, c) => match inst {
            Instance::Record(mut xs) => {
                let ghost orig = xs@;
                proof {
                    lemma_insts_view_index(orig);
                }
                if *i < xs.len() {
                    let child = xs.remove(*i);
                    let (r, newc) = set_rec(child, &**c);
                    xs.insert(*i, newc);
                    proof {
                        assert(xs@ =~= orig.update(*i as int, newc));
                        lemma_insts_view_update(orig, *i as int, newc);
                        if r is Err {
                            assert(insts_view(orig).update(*i as int, inst_view(newc)) =~= insts_view(orig));
                        }
                    }
                    (r, Instance::Record(xs))
                } else {
                    (Err(Error::PathMismatch), Instance::Record(xs))
                }
            },
            other => (Err(Error::PathMismatch), other),
        },
        Setter::Variant(i, c) => match inst {
            Instance::Union(a, p) => {
                if a == *i {
                    match p {
                        Some(b) => {
                            let (r, newp) = set_rec(*b, &**c);
                            (r, Instance::Union(a, Some(Box::new(newp))))
                        },
                        None => (Err(Error::PathMismatch), Instance::Union(a, None)),
                    }
                } else {
                    (Err(Error::VariantMismatch), Instance::Union(a, p))
                }
            },
            other => (Err(Error::PathMismatch), other),
        },
        Setter::Arr(ah) => match inst {
            Instance::Array(mut xs) => {
                let ghost orig = xs@;
                proof {
                    lemma_insts_view_index(orig);
                }
                let idx = (**ah).idx;
                if idx < xs.len() {
                    let child = xs.remove(idx);
                    let (r, newc) = set_rec(child, &(**ah).r);
                    xs.insert(idx, newc);
                    proof {
                        assert(xs@ =~= orig.update(idx as int, newc));
                        lemma_insts_view_update(orig, idx as int, newc);
                        if r is Err {
                            assert(insts_view(orig).update(idx as int, inst_view(newc)) =~= insts_view(orig));
                        }
                    }
                    (r, Instance::Array(xs))
                } else {
                    (Err(Error::IndexOutOfBounds), Instance::Array(xs))
                }
            },
            other => (Err(Error::PathMismatch), other),
        },
    }
}

/// Resolves a setter against an instance, mutating it in place.
///
/// A leaf write requires the live leaf's kind to match; a newtype-variant
/// write requires that variant to be live (`VariantMismatch` otherwise);
/// a unit-variant write replaces the union wholesale and always succeeds
/// on a union.  On any error the instance is left unchanged.
pub fn set(inst: &mut Instance, s: &Setter) -> (r: Result<(), Error>)
    requires
        wf_setter(*s),
    ensures
        match spec_set(old(inst)@, *s) {
            Ok(n) => r == Ok::<(), Error>(()) && final(inst)@ == n,
            Err(e) => r == Err::<(), Error>(e) && final(inst)@ == old(inst)@,
        },
{
    let mut tmp = Instance::Leaf(LeafVal::Unit);
    core::mem::swap(inst, &mut tmp);
    let (r, newv) = set_rec(tmp, s);
    *inst = newv;
    r
}

/// The value a setter writes, as `get` reports it back: the terminal leaf
/// value, or the new tag for a unit-variant replacement.
pub open spec fn written_value(s: Setter) -> Value
    decreases s,
{
    match s {
        Setter::Leaf(v) => Value::Leaf(v),
        Setter::VariantUnit(i) => Value::Tag(i),
        Setter::Field(_, c) => written_value(*c),
        Setter::Variant(_, c) => written_value(*c),
        Setter::Arr(a) => written_value((*a).r),
        Setter::Unspecified => Value::Leaf(LeafVal::Unit),
    }
}

/// Get/set consistency: after a successful `set`, resolving the matching
/// getter on the updated instance yields exactly the written value.
pub proof fn lemma_set_then_get(iv: InstV, s: Setter, g: Getter)
    requires
        setter_matches_getter(s, g),
        spec_set(iv, s) is Ok,
    ensures
        spec_get(spec_set(iv, s)->Ok_0, g) == Ok::<Value, Error>(written_value(s)),
    decreases s,
{
    match s {
        Setter::Unspecified => {},
        Setter::Leaf(_) => {},
        Setter::VariantUnit(_) => {},
        Setter::Field(i, c) => {
            if let InstV::Record(xs) = iv {
                if let Getter::Field(j, d) = g {
                    lemma_set_then_get(xs[i as int], *c, *d);
                }
            }
        },
        Setter::Variant(i, c) => {
            if let InstV::Union(a, p) = iv {
                if let Getter::Variant(j, d) = g {
                    if a == i {
                        if let Some(b) = p {
                            lemma_set_then_get(*b, *c, *d);
                        }
                    }
                }
            }
        },
        Setter::Arr(ah) => {
            if let InstV::Array(xs) = iv {
                if let Getter::Arr(bh) = g {
                    lemma_set_then_get(xs[(*ah).idx as int], (*ah).r, (*bh).r);
                }
            }
        },
    }
}

/// Variant isolation, first half: addressing variant `i`'s payload while
/// a different variant is live fails with `VariantMismatch`, for `set`.
pub proof fn lemma_set_variant_mismatch(iv: InstV, i: usize, c: Setter)
    requires
        iv matches InstV::Union(a, _) && a != i,
    ensures
        spec_set(iv, Setter::Variant(i, Box::new(c))) == Err::<InstV, Error>(
            Error::VariantMismatch,
        ),
{
}

/// Variant isolation, first half, for `get`: reading variant `i`'s
/// payload while a different variant is live fails with `VariantMismatch`.
pub proof fn lemma_get_variant_mismatch(iv: InstV, i: usize, c: Getter)
    requires
        iv matches InstV::Union(a, _) && a != i,
    ensures
        spec_get(iv, Getter::Variant(i, Box::new(c))) == Err::<Value, Error>(
            Error::VariantMismatch,
        ),
{
}

/// Variant isolation, second half: a unit-variant setter always succeeds
/// on a union, whatever was live, and discards any prior payload.
pub proof fn lemma_set_unit_variant(iv: InstV, i: usize)
    requires
        iv is Union,
    ensures
        spec_set(iv, Setter::VariantUnit(i)) == Ok::<InstV, Error>(InstV::Union(i, None)),
{
}

/// Bounds at resolution time: an array index at or past the array's
/// length fails `get` with `IndexOutOfBounds`.
pub proof fn lemma_get_out_of_bounds(iv: InstV, a: crate::descriptor::ArrHelper<Getter>)
    requires
        iv matches InstV::Array(xs) && xs.len() <= a.idx,
    ensures
        spec_get(iv, Getter::Arr(Box::new(a))) == Err::<Value, Error>(Error::IndexOutOfBounds),
{
}

/// Bounds at resolution time: an array index at or past the array's
/// length fails `set` with `IndexOutOfBounds`, leaving the instance
/// unchanged.
pub proof fn lemma_set_out_of_bounds(iv: InstV, a: crate::descriptor::ArrHelper<Setter>)
    requires
        iv matches InstV::Array(xs) && xs.len() <= a.idx,
    ensures
        spec_set(iv, Setter::Arr(Box::new(a))) == Err::<InstV, Error>(Error::IndexOutOfBounds),
{
}


/// Every union step of a getter addresses the instance's live variant
/// (the only way resolution of a fitting getter on a conforming instance
/// can fail).
pub open spec fn getter_live(iv: InstV, g: Getter) -> bool
    decreases g,
{
    match (g, iv) {
        (Getter::Field(i, c), InstV::Record(xs)) => 0 <= i < xs.len() ==> getter_live(
            xs[i as int],
            *c,
        ),
        (Getter::Variant(i, c), InstV::Union(a, p)) => a == i && (match p {
            Some(b) => getter_live(*b, *c),
            None => true,
        }),
        (Getter::Arr(ah), InstV::Array(xs)) => (*ah).idx < xs.len() ==> getter_live(
            xs[(*ah).idx as int],
            (*ah).r,
        ),
        _ => true,
    }
}

/// Every newtype-variant step of a setter addresses the live variant; a
/// unit-variant replacement needs nothing of the prior state.
pub open spec fn setter_live(iv: InstV, s: Setter) -> bool
    decreases s,
{
    match (s, iv) {
        (Setter::Field(i, c), InstV::Record(xs)) => 0 <= i < xs.len() ==> setter_live(
            xs[i as int],
            *c,
        ),
        (Setter::Variant(i, c), InstV::Union(a, p)) => a == i && (match p {
            Some(b) => setter_live(*b, *c),
            None => true,
        }),
        (Setter::Arr(ah), InstV::Array(xs)) => (*ah).idx < xs.len() ==> setter_live(
            xs[(*ah).idx as int],
            (*ah).r,
        ),
        _ => true,
    }
}

/// When success is owed to `get`: on an instance conforming to a shape,
/// a fitting getter resolves successfully exactly when its union steps
/// follow the live variants; the one possible failure is
/// `VariantMismatch`.
pub proof fn lemma_get_succeeds(iv: InstV, shape: Shape, g: Getter)
    requires
        crate::instance::conforms(iv, shape),
        crate::descriptor::getter_fits(shape, g),
    ensures
        spec_get(iv, g) is Ok <==> getter_live(iv, g),
        !getter_live(iv, g) ==> spec_get(iv, g) == Err::<Value, Error>(Error::VariantMismatch),
    decreases g,
{
    match g {
        Getter::Field(i, c) => {
            if let Shape::Record(fs) = shape {
                if let InstV::Record(xs) = iv {
                    lemma_get_succeeds(xs[i as int], fs[i as int].shape, *c);
                }
            }
        },
        Getter::Variant(i, c) => {
            if let Shape::Union(vs) = shape {
                if let InstV::Union(a, p) = iv {
                    if a == i {
                        if let Some(b) = p {
                            lemma_get_succeeds(*b, vs[i as int].payload->Some_0, *c);
                        }
                    }
                }
            }
        },
        Getter::Arr(ah) => {
            if let Shape::Array(t, n) = shape {
                if let InstV::Array(xs) = iv {
                    lemma_get_succeeds(xs[(*ah).idx as int], *t, (*ah).r);
                }
            }
        },
        _ => {},
    }
}

/// When success is owed to `set`: on an instance conforming to a shape,
/// a fitting setter succeeds exactly when its newtype-variant steps
/// follow the live variants; the one possible failure is
/// `VariantMismatch`.
pub proof fn lemma_set_succeeds(iv: InstV, shape: Shape, s: Setter)
    requires
        crate::instance::conforms(iv, shape),
        crate::descriptor::setter_fits(shape, s),
    ensures
        spec_set(iv, s) is Ok <==> setter_live(iv, s),
        !setter_live(iv, s) ==> spec_set(iv, s) == Err::<InstV, Error>(Error::VariantMismatch),
    decreases s,
{
    match s {
        Setter::Field(i, c) => {
            if let Shape::Record(fs) = shape {
                if let InstV::Record(xs) = iv {
                    lemma_set_succeeds(xs[i as int], fs[i as int].shape, *c);
                }
            }
        },
        Setter::Variant(i, c) => {
            if let Shape::Union(vs) = shape {
                if let InstV::Union(a, p) = iv {
                    if a == i {
                        if let Some(b) = p {
                            lemma_set_succeeds(*b, vs[i as int].payload->Some_0, *c);
                        }
                    }
                }
            }
        },
        Setter::Arr(ah) => {
            if let Shape::Array(t, n) = shape {
                if let InstV::Array(xs) = iv {
                    lemma_set_succeeds(xs[(*ah).idx as int], *t, (*ah).r);
                }
            }
        },
        _ => {},
    }
}

/// A successful `set` preserves conformance: the updated instance still
/// has the shape the setter was checked against.
pub proof fn lemma_set_preserves_conforms(iv: InstV, shape: Shape, s: Setter)
    requires
        crate::instance::conforms(iv, shape),
        crate::descriptor::setter_fits(shape, s),
        spec_set(iv, s) is Ok,
    ensures
        crate::instance::conforms(spec_set(iv, s)->Ok_0, shape),
    decreases s,
{
    match s {
        Setter::Field(i, c) => {
            if let Shape::Record(fs) = shape {
                if let InstV::Record(xs) = iv {
                    lemma_set_preserves_conforms(xs[i as int], fs[i as int].shape, *c);
                    let n = spec_set(xs[i as int], *c)->Ok_0;
                    assert forall|k: int|
                        0 <= k < xs.update(i as int, n).len() implies crate::instance::conforms(
                        #[trigger] xs.update(i as int, n)[k],
                        fs[k].shape,
                    ) by {
                        if k != i {
                            assert(xs.update(i as int, n)[k] == xs[k]);
                        }
                    }
                }
            }
        },
        Setter::Variant(i, c) => {
            if let Shape::Union(vs) = shape {
                if let InstV::Union(a, p) = iv {
                    if a == i {
                        if let Some(b) = p {
                            lemma_set_preserves_conforms(*b, vs[i as int].payload->Some_0, *c);
                        }
                    }
                }
            }
        },
        Setter::Arr(ah) => {
            if let Shape::Array(t, n) = shape {
                if let InstV::Array(xs) = iv {
                    let idx = (*ah).idx as int;
                    lemma_set_preserves_conforms(xs[idx], *t, (*ah).r);
                    let nv = spec_set(xs[idx], (*ah).r)->Ok_0;
                    assert forall|k: int|
                        0 <= k < xs.update(idx, nv).len() implies crate::instance::conforms(
                        #[trigger] xs.update(idx, nv)[k],
                        *t,
                    ) by {
                        if k != idx {
                            assert(xs.update(idx, nv)[k] == xs[k]);
                        }
                    }
                }
            }
        },
        _ => {},
    }
}

} // verus!
