//! Introspection: the legal next path segments at a partial textual
//! path, for dynamic clients that know no shape statically.

use vstd::prelude::*;
use crate::shape::{Shape, FieldDef, VariantDef, getter_visible, is_prefix_of, field_names,
    variant_names};
use crate::text::{variant_keyword, match_index, find_byte, all_digits, digits_val, field_gvis,
    variant_gvis, lemma_match_index_some, lemma_match_index_none};

verus! {

/// What stands at a path position: the legal next field or variant
/// segments, the declared extent of an array, or a terminal with no
/// further descent.
#[derive(PartialEq, Eq, Debug)]
pub enum FieldsType {
    Fields(Vec<Vec<u8>>),
    Arr(usize),
    Terminal,
}

/// The mathematical model of a [`FieldsType`].
#[verifier::ext_equal]
pub enum FieldsV {
    Fields(Seq<Seq<u8>>),
    Arr(usize),
    Terminal,
}

impl View for FieldsType {
    type V = FieldsV;

    open spec fn view(&self) -> FieldsV {
        match self {
            FieldsType::Fields(v) => FieldsV::Fields(Seq::new(v@.len(), |i: int| v@[i]@)),
            FieldsType::Arr(n) => FieldsV::Arr(*n),
            FieldsType::Terminal => FieldsV::Terminal,
        }
    }
}

/// The getter-visible field segments of a record, from index `k` on,
/// each with its leading `.`.
pub open spec fn gfield_list_from(fs: Seq<FieldDef>, k: int) -> Seq<Seq<u8>>
    decreases fs.len() - k,
{
    if k < 0 || k >= fs.len() {
        Seq::empty()
    } else if getter_visible(fs[k].policy) {
        seq![seq![46u8] + fs[k].name@] + gfield_list_from(fs, k + 1)
    } else {
        gfield_list_from(fs, k + 1)
    }
}

/// The getter-visible newtype-variant segments of a union, from index
/// `k` on, each with its leading `::`.
pub open spec fn gvariant_list_from(vs: Seq<VariantDef>, k: int) -> Seq<Seq<u8>>
    decreases vs.len() - k,
{
    if k < 0 || k >= vs.len() {
        Seq::empty()
    } else if getter_visible(vs[k].policy) && vs[k].payload is Some {
        seq![seq![58u8, 58u8] + vs[k].name@] + gvariant_list_from(vs, k + 1)
    } else {
        gvariant_list_from(vs, k + 1)
    }
}

/// What stands at the root of a shape: its legal next segments, array
/// extent, or terminal.
pub open spec fn spec_position(shape: Shape) -> FieldsV {
    match shape {
        Shape::Leaf(_) => FieldsV::Terminal,
        Shape::Record(fs) => FieldsV::Fields(gfield_list_from(fs@, 0)),
        Shape::Union(vs) => FieldsV::Fields(
            gvariant_list_from(vs@, 0) + seq![variant_keyword()],
        ),
        Shape::Array(_, n) => FieldsV::Arr(n),
    }
}

/// What introspecting a partial path yields: the position it leads to,
/// or `None` when it is not a valid prefix.  Descends exactly as the
/// getter grammar does; the whole remainder `VARIANT` at a union is the
/// terminal tag position.
pub open spec fn spec_get_fields(shape: Shape, s: Seq<u8>) -> Option<FieldsV>
    decreases s.len(),
{
    if s.len() == 0 {
        Some(spec_position(shape))
    } else {
        match shape {
            Shape::Leaf(_) => None,
            Shape::Record(fs) => {
                if s[0] == 46 {
                    let rest = s.subrange(1, s.len() as int);
                    match match_index(field_names(fs@), field_gvis(fs@), rest) {
                        Some(i) => {
                            let nl = fs@[i].name@.len();
                            if nl <= rest.len() {
                                spec_get_fields(fs@[i].shape, rest.skip(nl as int))
                            } else {
                                None
                            }
                        },
                        None => None,
                    }
                } else {
                    None
                }
            },
            Shape::Union(vs) => {
                if s == variant_keyword() {
                    Some(FieldsV::Terminal)
                } else if s.len() >= 2 && s[0] == 58 && s[1] == 58 {
                    let rest = s.subrange(2, s.len() as int);
                    match match_index(variant_names(vs@), variant_gvis(vs@), rest) {
                        Some(i) => {
                            let nl = vs@[i].name@.len();
                            if nl <= rest.len() {
                                match vs@[i].payload {
                                    Some(p) => spec_get_fields(p, rest.skip(nl as int)),
                                    None => None,
                                }
                            } else {
                                None
                            }
                        },
                        None => None,
                    }
                } else {
                    None
                }
            },
            Shape::Array(t, n) => {
                if s[0] == 91 {
                    let rest = s.subrange(1, s.len() as int);
                    match find_byte(rest, 93) {
                        Some(j) => {
                            if 1 <= j < rest.len() {
                                let digits = rest.subrange(0, j);
                                if all_digits(digits) && digits_val(digits) < n {
                                    spec_get_fields(*t, rest.skip(j + 1))
                                } else {
                                    None
                                }
                            } else {
                                None
                            }
                        },
                        None => None,
                    }
                } else {
                    None
                }
            },
        }
    }
}

/// A name with a leading segment marker.
fn prefixed_name(marker: u8, two: bool, name: &Vec<u8>) -> (out: Vec<u8>)
    ensures
        !two ==> out@ == seq![marker] + name@,
        two ==> out@ == seq![marker, marker] + name@,
{
    let mut out: Vec<u8> = Vec::new();
    out.push(marker);
    if two {
        out.push(marker);
    }
    crate::text::push_bytes(&mut out, name);
    proof {
        if two {
            assert(out@ =~= seq![marker, marker] + name@);
        } else {
            assert(out@ =~= seq![marker] + name@);
        }
    }
    out
}

/// The model of a built name list.
pub open spec fn names_view(v: Seq<Vec<u8>>) -> Seq<Seq<u8>> {
    Seq::new(v.len(), |i: int| v[i]@)
}

/// The position report for a shape's root.
#[verifier::loop_isolation(false)]
fn position_of(shape: &Shape) -> (r: FieldsType)
    ensures
        r@ == spec_position(*shape),
{
    match shape {
        Shape::Leaf(_) => FieldsType::Terminal,
        Shape::Record(fs) => {
            let mut out: Vec<Vec<u8>> = Vec::new();
            let mut j: usize = 0;
            while j < fs.len()
                invariant
                    j <= fs@.len(),
                    names_view(out@) + gfield_list_from(fs@, j as int) =~= gfield_list_from(
                        fs@,
                        0,
                    ),
                decreases fs@.len() - j,
            {
                if crate::shape::is_getter_visible(fs[j].policy) {
                    let entry = prefixed_name(46, false, &fs[j].name);
                    out.push(entry);
                }
                j = j + 1;
                proof {
                    assert(names_view(out@) + gfield_list_from(fs@, j as int) =~= gfield_list_from(
                        fs@,
                        0,
                    ));
                }
            }
            proof {
                assert(names_view(out@) =~= gfield_list_from(fs@, 0));
            }
            FieldsType::Fields(out)
        },
        Shape::Union(vs) => {
            let mut out: Vec<Vec<u8>> = Vec::new();
            let mut j: usize = 0;
            while j < vs.len()
                invariant
                    j <= vs@.len(),
                    names_view(out@) + gvariant_list_from(vs@, j as int) =~= gvariant_list_from(
                        vs@,
                        0,
                    ),
                decreases vs@.len() - j,
            {
                if crate::shape::is_getter_visible(vs[j].policy) && vs[j].payload.is_some() {
                    let entry = prefixed_name(58, true, &vs[j].name);
                    out.push(entry);
                }
                j = j + 1;
                proof {
                    assert(names_view(out@) + gvariant_list_from(vs@, j as int)
                        =~= gvariant_list_from(vs@, 0));
                }
            }
            let mut kw: Vec<u8> = Vec::new();
            kw.push(86);
            kw.push(65);
            kw.push(82);
            kw.push(73);
            kw.push(65);
            kw.push(78);
            kw.push(84);
            proof {
                assert(kw@ =~= variant_keyword());
            }
            out.push(kw);
            proof {
                assert(names_view(out@) =~= gvariant_list_from(vs@, 0) + seq![variant_keyword()]);
            }
            FieldsType::Fields(out)
        },
        Shape::Array(_, n) => FieldsType::Arr(*n),
    }
}

/// Walks a partial path to its position.
#[verifier::loop_isolation(false)]
fn get_fields_at(shape: &Shape, s: &[u8], pos: usize) -> (r: Option<FieldsType>)
    requires
        pos <= s@.len(),
    ensures
        match r {
            Some(ft) => spec_get_fields(*shape, s@.skip(pos as int)) == Some(ft@),
            None => spec_get_fields(*shape, s@.skip(pos as int)) is None,
        },
    decreases s@.len() - pos,
{
    let ghost sp = s@.skip(pos as int);
    let slen = s.len();
    if pos == slen {
        return Some(position_of(shape));
    }
    match shape {
        Shape::Leaf(_) => None,
        Shape::Record(fs) => {
            if s[pos] == 46 {
                proof {
                    assert(sp[0] == s@[pos as int]);
                    assert(sp.subrange(1, sp.len() as int) =~= s@.skip(pos + 1));
                }
                let rest_pos = pos + 1;
                let ghost names = field_names(fs@);
                let ghost vis = field_gvis(fs@);
                let ghost rest = s@.skip(rest_pos as int);
                let mut j: usize = 0;
                while j < fs.len()
                    invariant
                        j <= fs@.len(),
                        forall|k: int|
                            0 <= k < j ==> !(vis[k] && is_prefix_of(#[trigger] names[k], rest)),
                    decreases fs@.len() - j,
                {
                    proof {
                        assert(names[j as int] == fs@[j as int].name@);
                        assert(vis[j as int] == getter_visible(fs@[j as int].policy));
                    }
                    if crate::shape::is_getter_visible(fs[j].policy) && crate::text::name_matches_at(
                        &fs[j].name,
                        s,
                        rest_pos,
                    ) {
                        proof {
                            lemma_match_index_some(names, vis, rest, j as int);
                        }
                        let nl = fs[j].name.len();
                        proof {
                            assert(rest.skip(nl as int) =~= s@.skip(rest_pos + nl));
                        }
                        return get_fields_at(&fs[j].shape, s, rest_pos + nl);
                    }
                    j = j + 1;
                }
                proof {
                    lemma_match_index_none(names, vis, rest);
                }
                None
            } else {
                proof {
                    assert(sp[0] == s@[pos as int]);
                }
                None
            }
        },
        Shape::Union(vs) => {
            if crate::text::keyword_matches_at(s, pos) {
                return Some(FieldsType::Terminal);
            }
            if slen - pos >= 2 && s[pos] == 58 && s[pos + 1] == 58 {
                proof {
                    assert(sp[0] == s@[pos as int]);
                    assert(sp[1] == s@[pos + 1]);
                    assert(sp.subrange(2, sp.len() as int) =~= s@.skip(pos + 2));
                }
                let rest_pos = pos + 2;
                let ghost names = variant_names(vs@);
                let ghost vis = variant_gvis(vs@);
                let ghost rest = s@.skip(rest_pos as int);
                let mut j: usize = 0;
                while j < vs.len()
                    invariant
                        j <= vs@.len(),
                        forall|k: int|
                            0 <= k < j ==> !(vis[k] && is_prefix_of(#[trigger] names[k], rest)),
                    decreases vs@.len() - j,
                {
                    proof {
                        assert(names[j as int] == vs@[j as int].name@);
                        assert(vis[j as int] == getter_visible(vs@[j as int].policy));
                    }
                    if crate::shape::is_getter_visible(vs[j].policy) && crate::text::name_matches_at(
                        &vs[j].name,
                        s,
                        rest_pos,
                    ) {
                        proof {
                            lemma_match_index_some(names, vis, rest, j as int);
                        }
                        let nl = vs[j].name.len();
                        proof {
                            assert(rest.skip(nl as int) =~= s@.skip(rest_pos + nl));
                        }
                        return match &vs[j].payload {
                            Some(p) => get_fields_at(p, s, rest_pos + nl),
                            None => None,
                        };
                    }
                    j = j + 1;
                }
                proof {
                    lemma_match_index_none(names, vis, rest);
                }
                None
            } else {
                proof {
                    assert(sp[0] == s@[pos as int]);
                    if slen - pos >= 2 {
                        assert(sp[1] == s@[pos + 1]);
                    }
                }
                None
            }
        },
        Shape::Array(t, n) => {
            if s[pos] == 91 {
                proof {
                    assert(sp[0] == s@[pos as int]);
                }
                match crate::text::scan_index_at(s, pos, *n) {
                    Some(p) => {
                        let (_idx, next) = p;
                        proof {
                            let rest = sp.subrange(1, sp.len() as int);
                            let j = next - pos - 2;
                            assert(rest.skip(j + 1) =~= s@.skip(next as int));
                        }
                        get_fields_at(&**t, s, next)
                    },
                    None => None,
                }
            } else {
                proof {
                    assert(sp[0] == s@[pos as int]);
                }
                None
            }
        },
    }
}

/// Reports the legal continuations of a partial textual path: the next
/// field segments of a record, the next variant segments of a union plus
/// the tag keyword, the extent of an array, or a terminal; `None` when
/// the path is not a valid prefix.
pub fn get_fields(shape: &Shape, path: &[u8]) -> (r: Option<FieldsType>)
    ensures
        match r {
            Some(ft) => spec_get_fields(*shape, path@) == Some(ft@),
            None => spec_get_fields(*shape, path@) is None,
        },
{
    proof {
        assert(path@.skip(0) =~= path@);
    }
    get_fields_at(shape, path, 0)
}

} // verus!
