//! The textual grammar: printing a descriptor as its canonical path
//! string (`.d.a`, `.e::B.a`, `.f[1]`, `VARIANT`) and parsing such a
//! string back, segment by segment, against a shape's policy-filtered
//! name lists.

use vstd::prelude::*;
use crate::leaf::{LeafVal, kind_of};
use crate::shape::{Shape, FieldDef, VariantDef, getter_visible, setter_visible, is_prefix_of,
    names_ok, field_names, variant_names, wf_shape};
use crate::descriptor::{Getter, Setter, ArrHelper, wf_getter, wf_setter, getter_fits, setter_fits,
    setter_arg};

verus! {

/// The bytes of the keyword that addresses a union's live tag.
pub open spec fn variant_keyword() -> Seq<u8> {
    seq![86u8, 65u8, 82u8, 73u8, 65u8, 78u8, 84u8]
}

/// An ASCII decimal digit.
pub open spec fn is_digit(b: u8) -> bool {
    48 <= b && b <= 57
}

/// Every byte is a decimal digit.
pub open spec fn all_digits(s: Seq<u8>) -> bool {
    forall|i: int| 0 <= i < s.len() ==> is_digit(#[trigger] s[i])
}

/// The number a digit string denotes, most significant digit first.
pub open spec fn digits_val(s: Seq<u8>) -> nat
    decreases s.len(),
{
    if s.len() == 0 {
        0
    } else {
        digits_val(s.subrange(0, s.len() - 1)) * 10 + (s[s.len() - 1] - 48) as nat
    }
}

/// The canonical decimal digits of a number (no leading zeros).
pub open spec fn dec_digits(n: nat) -> Seq<u8>
    decreases n,
{
    if n < 10 {
        seq![(48 + n) as u8]
    } else {
        dec_digits(n / 10).push((48 + n % 10) as u8)
    }
}

/// Canonical digits denote the number they were printed from, and are
/// digits.
pub proof fn lemma_dec_digits_ok(n: nat)
    ensures
        dec_digits(n).len() >= 1,
        all_digits(dec_digits(n)),
        digits_val(dec_digits(n)) == n,
    decreases n,
{
    if n < 10 {
        let d = dec_digits(n);
        assert(d =~= seq![(48 + n) as u8]);
        assert(d.subrange(0, 0) =~= Seq::<u8>::empty());
        assert(digits_val(d.subrange(0, 0)) == 0);
        assert(d[0] == (48 + n) as u8);
        assert(digits_val(d) == digits_val(d.subrange(0, 0)) * 10 + (d[0] - 48) as nat);
    } else {
        lemma_dec_digits_ok(n / 10);
        let d = dec_digits(n);
        assert(d == dec_digits(n / 10).push((48 + n % 10) as u8));
        assert(d.len() == dec_digits(n / 10).len() + 1);
        assert(d.subrange(0, d.len() - 1) =~= dec_digits(n / 10));
        assert(d[d.len() - 1] == (48 + n % 10) as u8);
        assert(digits_val(d) == digits_val(d.subrange(0, d.len() - 1)) * 10 + (d[d.len() - 1]
            - 48) as nat);
        vstd::arithmetic::div_mod::lemma_fundamental_div_mod(n as int, 10);
    }
}

/// A longer digit string denotes at least as much as any of its prefixes.
pub proof fn lemma_digits_val_prefix_le(s: Seq<u8>, k: int)
    requires
        0 <= k <= s.len(),
    ensures
        digits_val(s.subrange(0, k)) <= digits_val(s),
    decreases s.len() - k,
{
    if k < s.len() {
        lemma_digits_val_prefix_le(s, k + 1);
        let p = s.subrange(0, k + 1);
        assert(p.subrange(0, p.len() - 1) =~= s.subrange(0, k));
        assert(digits_val(s.subrange(0, k)) <= digits_val(p));
    } else {
        assert(s.subrange(0, k) =~= s);
    }
}

/// The position of the first occurrence of `b` in `s`.
pub open spec fn find_byte(s: Seq<u8>, b: u8) -> Option<int>
    decreases s.len(),
{
    if s.len() == 0 {
        None
    } else if s[0] == b {
        Some(0)
    } else {
        match find_byte(s.subrange(1, s.len() as int), b) {
            Some(j) => Some(j + 1),
            None => None,
        }
    }
}

/// What a found position means.
pub proof fn lemma_find_byte_char(s: Seq<u8>, b: u8)
    ensures
        match find_byte(s, b) {
            Some(j) => 0 <= j < s.len() && s[j] == b && (forall|k: int|
                0 <= k < j ==> s[k] != b),
            None => forall|k: int| 0 <= k < s.len() ==> s[k] != b,
        },
    decreases s.len(),
{
    if s.len() > 0 && s[0] != b {
        let tail = s.subrange(1, s.len() as int);
        lemma_find_byte_char(tail, b);
        match find_byte(tail, b) {
            Some(j) => {
                assert(s[j + 1] == tail[j]);
                assert forall|k: int| 0 <= k < j + 1 implies s[k] != b by {
                    if k > 0 {
                        assert(tail[k - 1] == s[k]);
                    }
                }
            },
            None => {
                assert forall|k: int| 0 <= k < s.len() implies s[k] != b by {
                    if k > 0 {
                        assert(tail[k - 1] == s[k]);
                    }
                }
            },
        }
    }
}

/// `find_byte` finds a position whose earlier bytes all differ from `b`.
pub proof fn lemma_find_byte_some(s: Seq<u8>, b: u8, j: int)
    requires
        0 <= j < s.len(),
        s[j] == b,
        forall|k: int| 0 <= k < j ==> s[k] != b,
    ensures
        find_byte(s, b) == Some(j),
    decreases s.len(),
{
    if j > 0 {
        lemma_find_byte_some(s.subrange(1, s.len() as int), b, j - 1);
    }
}

/// The first name in a policy-filtered list that is a prefix of the
/// remaining input.
pub open spec fn match_index(names: Seq<Seq<u8>>, vis: Seq<bool>, rest: Seq<u8>) -> Option<int>
    recommends
        names.len() == vis.len(),
    decreases names.len(),
{
    if names.len() == 0 {
        None
    } else if vis[0] && is_prefix_of(names[0], rest) {
        Some(0)
    } else {
        match match_index(
            names.subrange(1, names.len() as int),
            vis.subrange(1, vis.len() as int),
            rest,
        ) {
            Some(j) => Some(j + 1),
            None => None,
        }
    }
}

/// What a match means.
pub proof fn lemma_match_index_char(names: Seq<Seq<u8>>, vis: Seq<bool>, rest: Seq<u8>)
    requires
        names.len() == vis.len(),
    ensures
        match match_index(names, vis, rest) {
            Some(i) => 0 <= i < names.len() && vis[i] && is_prefix_of(names[i], rest) && (
            forall|j: int| 0 <= j < i ==> !(vis[j] && is_prefix_of(#[trigger] names[j], rest))),
            None => forall|j: int|
                0 <= j < names.len() ==> !(vis[j] && is_prefix_of(#[trigger] names[j], rest)),
        },
    decreases names.len(),
{
    if names.len() > 0 && !(vis[0] && is_prefix_of(names[0], rest)) {
        let tn = names.subrange(1, names.len() as int);
        let tv = vis.subrange(1, vis.len() as int);
        lemma_match_index_char(tn, tv, rest);
        match match_index(tn, tv, rest) {
            Some(i) => {
                assert(names[i + 1] == tn[i]);
                assert(vis[i + 1] == tv[i]);
                assert forall|j: int| 0 <= j < i + 1 implies !(vis[j] && is_prefix_of(
                    #[trigger] names[j],
                    rest,
                )) by {
                    if j > 0 {
                        assert(tn[j - 1] == names[j]);
                        assert(tv[j - 1] == vis[j]);
                    }
                }
            },
            None => {
                assert forall|j: int| 0 <= j < names.len() implies !(vis[j] && is_prefix_of(
                    #[trigger] names[j],
                    rest,
                )) by {
                    if j > 0 {
                        assert(tn[j - 1] == names[j]);
                        assert(tv[j - 1] == vis[j]);
                    }
                }
            },
        }
    }
}

/// A position that matches, none before it matching, is the match.
pub proof fn lemma_match_index_some(names: Seq<Seq<u8>>, vis: Seq<bool>, rest: Seq<u8>, i: int)
    requires
        names.len() == vis.len(),
        0 <= i < names.len(),
        vis[i],
        is_prefix_of(names[i], rest),
        forall|j: int| 0 <= j < i ==> !(vis[j] && is_prefix_of(#[trigger] names[j], rest)),
    ensures
        match_index(names, vis, rest) == Some(i),
    decreases names.len(),
{
    if i > 0 {
        lemma_match_index_some(
            names.subrange(1, names.len() as int),
            vis.subrange(1, vis.len() as int),
            rest,
            i - 1,
        );
    }
}

/// No matching position means no match.
pub proof fn lemma_match_index_none(names: Seq<Seq<u8>>, vis: Seq<bool>, rest: Seq<u8>)
    requires
        names.len() == vis.len(),
        forall|j: int|
            0 <= j < names.len() ==> !(vis[j] && is_prefix_of(#[trigger] names[j], rest)),
    ensures
        match_index(names, vis, rest) is None,
    decreases names.len(),
{
    if names.len() > 0 {
        lemma_match_index_none(
            names.subrange(1, names.len() as int),
            vis.subrange(1, vis.len() as int),
            rest,
        );
    }
}

/// A prefix of `b + rest` compares against `b` alone: the shorter of the
/// two is a prefix of the longer.
pub proof fn lemma_prefix_of_concat(a: Seq<u8>, b: Seq<u8>, rest: Seq<u8>)
    requires
        is_prefix_of(a, b + rest),
    ensures
        a.len() <= b.len() ==> is_prefix_of(a, b),
        a.len() > b.len() ==> is_prefix_of(b, a),
{
    if a.len() <= b.len() {
        assert forall|k: int| 0 <= k < a.len() implies b.subrange(0, a.len() as int)[k] == a[k] by {
            assert(a[k] == (b + rest).subrange(0, a.len() as int)[k]);
            assert((b + rest)[k] == b[k]);
        }
        assert(b.subrange(0, a.len() as int) =~= a);
    } else {
        assert forall|k: int| 0 <= k < b.len() implies a.subrange(0, b.len() as int)[k] == b[k] by {
            assert(a[k] == (b + rest).subrange(0, a.len() as int)[k]);
            assert((b + rest)[k] == b[k]);
        }
        assert(a.subrange(0, b.len() as int) =~= b);
    }
}

/// In a prefix-free name list, the input printed as `names[i] + rest`
/// matches exactly at `i` (when `i` passes the policy filter).
pub proof fn lemma_match_index_of_printed(
    names: Seq<Seq<u8>>,
    vis: Seq<bool>,
    i: int,
    rest: Seq<u8>,
)
    requires
        names.len() == vis.len(),
        0 <= i < names.len(),
        vis[i],
        names_ok(names),
    ensures
        match_index(names, vis, names[i] + rest) == Some(i),
{
    let input = names[i] + rest;
    assert(input.subrange(0, names[i].len() as int) =~= names[i]);
    assert(is_prefix_of(names[i], input));
    assert forall|j: int| 0 <= j < i implies !(vis[j] && is_prefix_of(
        #[trigger] names[j],
        input,
    )) by {
        if vis[j] && is_prefix_of(names[j], input) {
            lemma_prefix_of_concat(names[j], names[i], rest);
            assert(!is_prefix_of(names[j], names[i]));
            assert(!is_prefix_of(names[i], names[j]));
        }
    }
    lemma_match_index_some(names, vis, input, i);
}

/// Getter-side visibility of a record's fields.
pub open spec fn field_gvis(fs: Seq<FieldDef>) -> Seq<bool> {
    Seq::new(fs.len(), |i: int| getter_visible(fs[i].policy))
}

/// Setter-side visibility of a record's fields.
pub open spec fn field_svis(fs: Seq<FieldDef>) -> Seq<bool> {
    Seq::new(fs.len(), |i: int| setter_visible(fs[i].policy))
}

/// Getter-side visibility of a union's variants.
pub open spec fn variant_gvis(vs: Seq<VariantDef>) -> Seq<bool> {
    Seq::new(vs.len(), |i: int| getter_visible(vs[i].policy))
}

/// Setter-side visibility of a union's variants.
pub open spec fn variant_svis(vs: Seq<VariantDef>) -> Seq<bool> {
    Seq::new(vs.len(), |i: int| setter_visible(vs[i].policy))
}

/// What parsing a getter path yields, for every shape and input.
///
/// At a leaf, only the empty remainder is valid and addresses the leaf.
/// At a record, `.` must be followed by a getter-visible field name; at a
/// union, the whole remainder `VARIANT` addresses the tag, and `::` must
/// be followed by a getter-visible newtype variant's name; at an array,
/// `[` must be followed by a decimal index below the extent and `]`.
pub open spec fn spec_parse_getter(shape: Shape, s: Seq<u8>) -> Option<Getter>
    decreases s.len(),
{
    match shape {
        Shape::Leaf(_) => if s.len() == 0 {
            Some(Getter::Terminal)
        } else {
            None
        },
        Shape::Record(fs) => {
            if s.len() >= 1 && s[0] == 46 {
                let rest = s.subrange(1, s.len() as int);
                match match_index(field_names(fs@), field_gvis(fs@), rest) {
                    Some(i) => {
                        let nl = fs@[i].name@.len();
                        if nl <= rest.len() {
                            match spec_parse_getter(fs@[i].shape, rest.skip(nl as int)) {
                                Some(c) => Some(Getter::Field(i as usize, Box::new(c))),
                                None => None,
                            }
                        } else {
                            None
                        }
                    },
                    None => None,
                }
            } else {
                None
            }
        },
        Shape::Union(vs) => {
            if s == variant_keyword() {
                Some(Getter::GetVariant)
            } else if s.len() >= 2 && s[0] == 58 && s[1] == 58 {
                let rest = s.subrange(2, s.len() as int);
                match match_index(variant_names(vs@), variant_gvis(vs@), rest) {
                    Some(i) => {
                        let nl = vs@[i].name@.len();
                        if nl <= rest.len() {
                            match vs@[i].payload {
                                Some(p) => match spec_parse_getter(p, rest.skip(nl as int)) {
                                    Some(c) => Some(Getter::Variant(i as usize, Box::new(c))),
                                    None => None,
                                },
                                None => None,
                            }
                        } else {
                            None
                        }
                    },
                    None => None,
                }
            } else {
                None
            }
        },
        Shape::Array(t, n) => {
            if s.len() >= 1 && s[0] == 91 {
                let rest = s.subrange(1, s.len() as int);
                match find_byte(rest, 93) {
                    Some(j) => {
                        if 1 <= j < rest.len() {
                            let digits = rest.subrange(0, j);
                            if all_digits(digits) && digits_val(digits) < n {
                                match spec_parse_getter(*t, rest.skip(j + 1)) {
                                    Some(c) => Some(
                                        Getter::Arr(
                                            Box::new(
                                                ArrHelper {
                                                    r: c,
                                                    idx: digits_val(digits) as usize,
                                                },
                                            ),
                                        ),
                                    ),
                                    None => None,
                                }
                            } else {
                                None
                            }
                        } else {
                            None
                        }
                    },
                    None => None,
                }
            } else {
                None
            }
        },
    }
}

/// What parsing a setter path yields, for every shape, input and
/// terminal value `v`.
///
/// Like the getter grammar, except that the empty remainder at a leaf
/// accepts exactly a value of the leaf's kind, the tag keyword is not a
/// setter, and `::` followed by a unit variant's name alone (with the
/// unit value) replaces the union with that variant.
pub open spec fn spec_parse_setter(shape: Shape, s: Seq<u8>, v: LeafVal) -> Option<Setter>
    decreases s.len(),
{
    match shape {
        Shape::Leaf(k) => if s.len() == 0 && kind_of(v) == k {
            Some(Setter::Leaf(v))
        } else {
            None
        },
        Shape::Record(fs) => {
            if s.len() >= 1 && s[0] == 46 {
                let rest = s.subrange(1, s.len() as int);
                match match_index(field_names(fs@), field_svis(fs@), rest) {
                    Some(i) => {
                        let nl = fs@[i].name@.len();
                        if nl <= rest.len() {
                            match spec_parse_setter(fs@[i].shape, rest.skip(nl as int), v) {
                                Some(c) => Some(Setter::Field(i as usize, Box::new(c))),
                                None => None,
                            }
                        } else {
                            None
                        }
                    },
                    None => None,
                }
            } else {
                None
            }
        },
        Shape::Union(vs) => {
            if s.len() >= 2 && s[0] == 58 && s[1] == 58 {
                let rest = s.subrange(2, s.len() as int);
                match match_index(variant_names(vs@), variant_svis(vs@), rest) {
                    Some(i) => {
                        let nl = vs@[i].name@.len();
                        if nl <= rest.len() {
                            match vs@[i].payload {
                                Some(p) => match spec_parse_setter(p, rest.skip(nl as int), v) {
                                    Some(c) => Some(Setter::Variant(i as usize, Box::new(c))),
                                    None => None,
                                },
                                None => if nl == rest.len() && v is Unit {
                                    Some(Setter::VariantUnit(i as usize))
                                } else {
                                    None
                                },
                            }
                        } else {
                            None
                        }
                    },
                    None => None,
                }
            } else {
                None
            }
        },
        Shape::Array(t, n) => {
            if s.len() >= 1 && s[0] == 91 {
                let rest = s.subrange(1, s.len() as int);
                match find_byte(rest, 93) {
                    Some(j) => {
                        if 1 <= j < rest.len() {
                            let digits = rest.subrange(0, j);
                            if all_digits(digits) && digits_val(digits) < n {
                                match spec_parse_setter(*t, rest.skip(j + 1), v) {
                                    Some(c) => Some(
                                        Setter::Arr(
                                            Box::new(
                                                ArrHelper {
                                                    r: c,
                                                    idx: digits_val(digits) as usize,
                                                },
                                            ),
                                        ),
                                    ),
                                    None => None,
                                }
                            } else {
                                None
                            }
                        } else {
                            None
                        }
                    },
                    None => None,
                }
            } else {
                None
            }
        },
    }
}

/// The canonical path string of a fitting getter.
pub open spec fn spec_print_getter(shape: Shape, g: Getter) -> Seq<u8>
    decreases g,
{
    match g {
        Getter::Unspecified => Seq::empty(),
        Getter::Terminal => Seq::empty(),
        Getter::GetVariant => variant_keyword(),
        Getter::Field(i, c) => match shape {
            Shape::Record(fs) => if i < fs.len() {
                seq![46u8] + fs[i as int].name@ + spec_print_getter(fs[i as int].shape, *c)
            } else {
                Seq::empty()
            },
            _ => Seq::empty(),
        },
        Getter::Variant(i, c) => match shape {
            Shape::Union(vs) => if i < vs.len() {
                seq![58u8, 58u8] + vs[i as int].name@ + (match vs[i as int].payload {
                    Some(p) => spec_print_getter(p, *c),
                    None => Seq::empty(),
                })
            } else {
                Seq::empty()
            },
            _ => Seq::empty(),
        },
        Getter::Arr(a) => match shape {
            Shape::Array(t, _) => seq![91u8] + dec_digits((*a).idx as nat) + seq![93u8]
                + spec_print_getter(*t, (*a).r),
            _ => Seq::empty(),
        },
    }
}

/// The canonical path string of a fitting setter.
pub open spec fn spec_print_setter(shape: Shape, s: Setter) -> Seq<u8>
    decreases s,
{
    match s {
        Setter::Unspecified => Seq::empty(),
        Setter::Leaf(_) => Seq::empty(),
        Setter::VariantUnit(i) => match shape {
            Shape::Union(vs) => if i < vs.len() {
                seq![58u8, 58u8] + vs[i as int].name@
            } else {
                Seq::empty()
            },
            _ => Seq::empty(),
        },
        Setter::Field(i, c) => match shape {
            Shape::Record(fs) => if i < fs.len() {
                seq![46u8] + fs[i as int].name@ + spec_print_setter(fs[i as int].shape, *c)
            } else {
                Seq::empty()
            },
            _ => Seq::empty(),
        },
        Setter::Variant(i, c) => match shape {
            Shape::Union(vs) => if i < vs.len() {
                seq![58u8, 58u8] + vs[i as int].name@ + (match vs[i as int].payload {
                    Some(p) => spec_print_setter(p, *c),
                    None => Seq::empty(),
                })
            } else {
                Seq::empty()
            },
            _ => Seq::empty(),
        },
        Setter::Arr(a) => match shape {
            Shape::Array(t, _) => seq![91u8] + dec_digits((*a).idx as nat) + seq![93u8]
                + spec_print_setter(*t, (*a).r),
            _ => Seq::empty(),
        },
    }
}


/// No occurrence means no find.
pub proof fn lemma_find_byte_none(s: Seq<u8>, b: u8)
    requires
        forall|k: int| 0 <= k < s.len() ==> s[k] != b,
    ensures
        find_byte(s, b) is None,
    decreases s.len(),
{
    if s.len() > 0 {
        let tail = s.subrange(1, s.len() as int);
        assert forall|k: int| 0 <= k < tail.len() implies tail[k] != b by {
            assert(tail[k] == s[k + 1]);
        }
        lemma_find_byte_none(tail, b);
    }
}

/// A parsed getter is well formed and fits the shape it was parsed
/// against, policy included.
pub proof fn lemma_parse_getter_fits(shape: Shape, s: Seq<u8>)
    ensures
        spec_parse_getter(shape, s) matches Some(g) ==> getter_fits(shape, g) && wf_getter(g),
    decreases s.len(),
{
    match shape {
        Shape::Leaf(_) => {},
        Shape::Record(fs) => {
            if s.len() >= 1 && s[0] == 46 {
                let rest = s.subrange(1, s.len() as int);
                lemma_match_index_char(field_names(fs@), field_gvis(fs@), rest);
                match match_index(field_names(fs@), field_gvis(fs@), rest) {
                    Some(i) => {
                        assert(field_names(fs@)[i] == fs@[i].name@);
                        assert(field_gvis(fs@)[i] == getter_visible(fs@[i].policy));
                        assert(i < fs.len());
                        let nl = fs@[i].name@.len();
                        if nl <= rest.len() {
                            lemma_parse_getter_fits(fs@[i].shape, rest.skip(nl as int));
                        }
                    },
                    None => {},
                }
            }
        },
        Shape::Union(vs) => {
            if s == variant_keyword() {
            } else if s.len() >= 2 && s[0] == 58 && s[1] == 58 {
                let rest = s.subrange(2, s.len() as int);
                lemma_match_index_char(variant_names(vs@), variant_gvis(vs@), rest);
                match match_index(variant_names(vs@), variant_gvis(vs@), rest) {
                    Some(i) => {
                        assert(variant_names(vs@)[i] == vs@[i].name@);
                        assert(variant_gvis(vs@)[i] == getter_visible(vs@[i].policy));
                        assert(i < vs.len());
                        let nl = vs@[i].name@.len();
                        if nl <= rest.len() {
                            match vs@[i].payload {
                                Some(p) => {
                                    lemma_parse_getter_fits(p, rest.skip(nl as int));
                                },
                                None => {},
                            }
                        }
                    },
                    None => {},
                }
            }
        },
        Shape::Array(t, n) => {
            if s.len() >= 1 && s[0] == 91 {
                let rest = s.subrange(1, s.len() as int);
                match find_byte(rest, 93) {
                    Some(j) => {
                        if 1 <= j < rest.len() {
                            let digits = rest.subrange(0, j);
                            if all_digits(digits) && digits_val(digits) < n {
                                lemma_parse_getter_fits(*t, rest.skip(j + 1));
                            }
                        }
                    },
                    None => {},
                }
            }
        },
    }
}

/// A parsed setter is well formed, fits the shape it was parsed against,
/// policy and leaf kind included, and carries the value it was given.
pub proof fn lemma_parse_setter_fits(shape: Shape, s: Seq<u8>, v: LeafVal)
    ensures
        spec_parse_setter(shape, s, v) matches Some(st) ==> setter_fits(shape, st) && wf_setter(st)
            && setter_arg(st) == v,
    decreases s.len(),
{
    match shape {
        Shape::Leaf(_) => {},
        Shape::Record(fs) => {
            if s.len() >= 1 && s[0] == 46 {
                let rest = s.subrange(1, s.len() as int);
                lemma_match_index_char(field_names(fs@), field_svis(fs@), rest);
                match match_index(field_names(fs@), field_svis(fs@), rest) {
                    Some(i) => {
                        assert(field_names(fs@)[i] == fs@[i].name@);
                        assert(field_svis(fs@)[i] == setter_visible(fs@[i].policy));
                        assert(i < fs.len());
                        let nl = fs@[i].name@.len();
                        if nl <= rest.len() {
                            lemma_parse_setter_fits(fs@[i].shape, rest.skip(nl as int), v);
                            if let Some(c) = spec_parse_setter(fs@[i].shape, rest.skip(nl as int), v) {
                                assert(setter_fits(shape, Setter::Field(i as usize, Box::new(c))));
                            }
                        }
                    },
                    None => {},
                }
            }
        },
        Shape::Union(vs) => {
            if s.len() >= 2 && s[0] == 58 && s[1] == 58 {
                let rest = s.subrange(2, s.len() as int);
                lemma_match_index_char(variant_names(vs@), variant_svis(vs@), rest);
                match match_index(variant_names(vs@), variant_svis(vs@), rest) {
                    Some(i) => {
                        assert(variant_names(vs@)[i] == vs@[i].name@);
                        assert(variant_svis(vs@)[i] == setter_visible(vs@[i].policy));
                        assert(i < vs.len());
                        let nl = vs@[i].name@.len();
                        if nl <= rest.len() {
                            match vs@[i].payload {
                                Some(p) => {
                                    lemma_parse_setter_fits(p, rest.skip(nl as int), v);
                                    if let Some(c) = spec_parse_setter(p, rest.skip(nl as int), v) {
                                        assert(setter_fits(shape, Setter::Variant(i as usize, Box::new(c))));
                                    }
                                },
                                None => {
                                    if nl == rest.len() && v is Unit {
                                        assert(setter_fits(shape, Setter::VariantUnit(i as usize)));
                                    }
                                },
                            }
                        }
                    },
                    None => {},
                }
            }
        },
        Shape::Array(t, n) => {
            if s.len() >= 1 && s[0] == 91 {
                let rest = s.subrange(1, s.len() as int);
                match find_byte(rest, 93) {
                    Some(j) => {
                        if 1 <= j < rest.len() {
                            let digits = rest.subrange(0, j);
                            if all_digits(digits) && digits_val(digits) < n {
                                lemma_parse_setter_fits(*t, rest.skip(j + 1), v);
                                if let Some(c) = spec_parse_setter(*t, rest.skip(j + 1), v) {
                                    let a = ArrHelper { r: c, idx: digits_val(digits) as usize };
                                    assert(setter_fits(shape, Setter::Arr(Box::new(a))));
                                }
                            }
                        }
                    },
                    None => {},
                }
            }
        },
    }
}

/// Does `name` stand at position `pos` of `s`?
pub(crate) fn name_matches_at(name: &Vec<u8>, s: &[u8], pos: usize) -> (r: bool)
    requires
        pos <= s@.len(),
    ensures
        r == is_prefix_of(name@, s@.skip(pos as int)),
{
    let nl = name.len();
    let slen = s.len();
    if nl > slen - pos {
        return false;
    }
    let mut k: usize = 0;
    while k < nl
        invariant
            k <= nl,
            nl == name@.len(),
            pos + nl <= s@.len(),
            s@.len() == slen,
            forall|t: int| 0 <= t < k ==> name@[t] == s@[pos + t],
        decreases nl - k,
    {
        if s[pos + k] != name[k] {
            proof {
                let sk = s@.skip(pos as int);
                assert(sk[k as int] == s@[pos + k]);
                if is_prefix_of(name@, sk) {
                    assert(sk.subrange(0, name@.len() as int)[k as int] == sk[k as int]);
                }
            }
            return false;
        }
        k = k + 1;
    }
    proof {
        let sk = s@.skip(pos as int);
        assert forall|t: int| 0 <= t < name@.len() implies sk.subrange(0, name@.len() as int)[t]
            == name@[t] by {
            assert(sk[t] == s@[pos + t]);
        }
        assert(sk.subrange(0, name@.len() as int) =~= name@);
    }
    true
}

/// Is the remaining input exactly the tag keyword?
pub(crate) fn keyword_matches_at(s: &[u8], pos: usize) -> (r: bool)
    requires
        pos <= s@.len(),
    ensures
        r == (s@.skip(pos as int) == variant_keyword()),
{
    let kw: [u8; 7] = [86, 65, 82, 73, 65, 78, 84];
    let slen = s.len();
    if slen - pos != 7 {
        proof {
            assert(s@.skip(pos as int).len() != variant_keyword().len());
        }
        return false;
    }
    let mut k: usize = 0;
    while k < 7
        invariant
            k <= 7,
            pos + 7 == s@.len(),
            s@.len() == slen,
            kw@ =~= variant_keyword(),
            forall|t: int| 0 <= t < k ==> s@[pos + t] == variant_keyword()[t],
        decreases 7 - k,
    {
        if s[pos + k] != kw[k] {
            proof {
                let sk = s@.skip(pos as int);
                assert(sk[k as int] == s@[pos + k]);
            }
            return false;
        }
        k = k + 1;
    }
    proof {
        assert(s@.skip(pos as int) =~= variant_keyword());
    }
    true
}

/// Scans `[` digits `]` at `pos`: the digit run before the first `]`,
/// its value, and the position after the `]`, when the run is nonempty,
/// all digits, and its value is below `extent`; mirrors the array arm of
/// the parse grammar.
#[verifier::rlimit(30)]
pub(crate) fn scan_index_at(s: &[u8], pos: usize, extent: usize) -> (r: Option<(usize, usize)>)
    requires
        pos < s@.len(),
        s@[pos as int] == 91,
    ensures
        ({
            let rest = s@.skip(pos as int).subrange(1, s@.len() - pos);
            match r {
                Some(p) => {
                    &&& find_byte(rest, 93) matches Some(j)
                    &&& 1 <= j < rest.len()
                    &&& all_digits(rest.subrange(0, j))
                    &&& digits_val(rest.subrange(0, j)) < extent
                    &&& p.0 == digits_val(rest.subrange(0, j))
                    &&& pos + 1 + j + 1 == p.1
                    &&& p.1 <= s@.len()
                },
                None => match find_byte(rest, 93) {
                    Some(j) => !(1 <= j < rest.len() && all_digits(rest.subrange(0, j))
                        && digits_val(rest.subrange(0, j)) < extent),
                    None => true,
                },
            }
        }),
{
    let ghost rest = s@.skip(pos as int).subrange(1, s@.len() - pos);
    proof {
        assert forall|t: int| 0 <= t < rest.len() implies rest[t] == s@[pos + 1 + t] by {
            assert(rest[t] == s@.skip(pos as int)[t + 1]);
        }
    }
    let slen = s.len();
    let start = pos + 1;
    let mut j = start;
    while j < s.len() && s[j] != 93
        invariant
            start <= j <= s@.len(),
            start == pos + 1,
            pos < s@.len(),
            rest == s@.skip(pos as int).subrange(1, s@.len() - pos),
            forall|t: int| 0 <= t < rest.len() ==> rest[t] == s@[pos + 1 + t],
            forall|t: int| start <= t < j ==> s@[t] != 93,
        decreases s@.len() - j,
    {
        j = j + 1;
    }
    if j == s.len() {
        proof {
            assert forall|t: int| 0 <= t < rest.len() implies rest[t] != 93 by {
                assert(rest[t] == s@[pos + 1 + t]);
            }
            lemma_find_byte_none(rest, 93);
        }
        return None;
    }
    proof {
        assert(rest[j - start] == s@[j as int]);
        assert forall|t: int| 0 <= t < j - start implies rest[t] != 93 by {
            assert(rest[t] == s@[pos + 1 + t]);
        }
        lemma_find_byte_some(rest, 93, j - start);
    }
    if j == start {
        return None;
    }
    let ghost jrel = j - start;
    let ghost digits = rest.subrange(0, jrel);
    proof {
        assert forall|t: int| 0 <= t < digits.len() implies digits[t] == s@[pos + 1 + t] by {
            assert(digits[t] == rest[t]);
        }
    }
    let mut k = start;
    let mut acc: u128 = 0;
    while k < j
        invariant
            start <= k <= j,
            start == pos + 1,
            j < s@.len(),
            s@.len() == slen,
            jrel == j - start,
            rest == s@.skip(pos as int).subrange(1, s@.len() - pos),
            find_byte(rest, 93) == Some(jrel),
            digits == rest.subrange(0, jrel),
            digits.len() == jrel,
            forall|t: int| 0 <= t < digits.len() ==> digits[t] == s@[pos + 1 + t],
            forall|t: int| 0 <= t < k - start ==> is_digit(digits[t]),
            acc < 0x1_0000_0000_0000_0000u128,
            acc as nat == digits_val(digits.subrange(0, k - start)),
            k > start ==> acc < extent as u128,
        decreases j - k,
    {
        let d = s[k];
        proof {
            assert(digits[k - start] == s@[k as int]);
        }
        if d < 48 || d > 57 {
            proof {
                assert(!is_digit(digits[k - start]));
            }
            return None;
        }
        let acc2 = acc * 10 + ((d - 48) as u128);
        proof {
            let p1 = digits.subrange(0, k - start + 1);
            assert(p1.subrange(0, p1.len() - 1) =~= digits.subrange(0, k - start));
            assert(p1[p1.len() - 1] == digits[k - start]);
            assert(acc2 as nat == digits_val(p1));
        }
        if acc2 >= (extent as u128) {
            proof {
                lemma_digits_val_prefix_le(digits, k - start + 1);
                assert(digits_val(digits) >= extent);
            }
            return None;
        }
        acc = acc2;
        k = k + 1;
    }
    proof {
        assert(digits.subrange(0, jrel) =~= digits);
        assert(acc as nat == digits_val(digits));
        assert(acc < extent as u128);
    }
    Some((acc as usize, j + 1))
}


/// Parses a getter path at byte position `pos`.
#[verifier::loop_isolation(false)]
fn parse_getter_at(shape: &Shape, s: &[u8], pos: usize) -> (r: Option<Getter>)
    requires
        pos <= s@.len(),
    ensures
        r == spec_parse_getter(*shape, s@.skip(pos as int)),
    decreases s@.len() - pos,
{
    let ghost sp = s@.skip(pos as int);
    let slen = s.len();
    match shape {
        Shape::Leaf(_) => {
            if pos == slen {
                Some(Getter::Terminal)
            } else {
                None
            }
        },
        Shape::Record(fs) => {
            if pos < slen && s[pos] == 46 {
                proof {
                    assert(sp[0] == s@[pos as int]);
                    assert(sp.subrange(1, sp.len() as int) =~= s@.skip(pos + 1));
                }
                let rest_pos = pos + 1;
                let ghost names = field_names(fs@);
                let ghost vis = field_gvis(fs@);
                let ghost rest = s@.skip(rest_pos as int);
                let mut j: usize = 0;
                while j < fs.len()
                    invariant
                        j <= fs@.len(),
                        pos < s@.len(),
                        rest_pos == pos + 1,
                        slen == s@.len(),
                        names == field_names(fs@),
                        vis == field_gvis(fs@),
                        rest == s@.skip(rest_pos as int),
                        forall|k: int|
                            0 <= k < j ==> !(vis[k] && is_prefix_of(#[trigger] names[k], rest)),
                    decreases fs@.len() - j,
                {
                    proof {
                        assert(names[j as int] == fs@[j as int].name@);
                        assert(vis[j as int] == getter_visible(fs@[j as int].policy));
                    }
                    if crate::shape::is_getter_visible(fs[j].policy) && name_matches_at(
                        &fs[j].name,
                        s,
                        rest_pos,
                    ) {
                        proof {
                            lemma_match_index_some(names, vis, rest, j as int);
                        }
                        let nl = fs[j].name.len();
                        proof {
                            assert(rest.skip(nl as int) =~= s@.skip(rest_pos + nl));
                        }
                        let child = parse_getter_at(&fs[j].shape, s, rest_pos + nl);
                        return match child {
                            Some(c) => Some(Getter::Field(j, Box::new(c))),
                            None => None,
                        };
                    }
                    j = j + 1;
                }
                proof {
                    lemma_match_index_none(names, vis, rest);
                }
                None
            } else {
                proof {
                    if pos < slen {
                        assert(sp[0] == s@[pos as int]);
                    }
                }
                None
            }
        },
        Shape::Union(vs) => {
            if keyword_matches_at(s, pos) {
                return Some(Getter::GetVariant);
            }
            if slen - pos >= 2 && s[pos] == 58 && s[pos + 1] == 58 {
                proof {
                    assert(sp[0] == s@[pos as int]);
                    assert(sp[1] == s@[pos + 1]);
                    assert(sp.subrange(2, sp.len() as int) =~= s@.skip(pos + 2));
                }
                let rest_pos = pos + 2;
                let ghost names = variant_names(vs@);
                let ghost vis = variant_gvis(vs@);
                let ghost rest = s@.skip(rest_pos as int);
                let mut j: usize = 0;
                while j < vs.len()
                    invariant
                        j <= vs@.len(),
                        pos + 2 <= s@.len(),
                        rest_pos == pos + 2,
                        slen == s@.len(),
                        names == variant_names(vs@),
                        vis == variant_gvis(vs@),
                        rest == s@.skip(rest_pos as int),
                        forall|k: int|
                            0 <= k < j ==> !(vis[k] && is_prefix_of(#[trigger] names[k], rest)),
                    decreases vs@.len() - j,
                {
                    proof {
                        assert(names[j as int] == vs@[j as int].name@);
                        assert(vis[j as int] == getter_visible(vs@[j as int].policy));
                    }
                    if crate::shape::is_getter_visible(vs[j].policy) && name_matches_at(
                        &vs[j].name,
                        s,
                        rest_pos,
                    ) {
                        proof {
                            lemma_match_index_some(names, vis, rest, j as int);
                        }
                        let nl = vs[j].name.len();
                        proof {
                            assert(rest.skip(nl as int) =~= s@.skip(rest_pos + nl));
                        }
                        return match &vs[j].payload {
                            Some(p) => {
                                match parse_getter_at(p, s, rest_pos + nl) {
                                    Some(c) => Some(Getter::Variant(j, Box::new(c))),
                                    None => None,
                                }
                            },
                            None => None,
                        };
                    }
                    j = j + 1;
                }
                proof {
                    lemma_match_index_none(names, vis, rest);
                }
                None
            } else {
                proof {
                    if pos < slen {
                        assert(sp[0] == s@[pos as int]);
                    }
                    if slen - pos >= 2 {
                        assert(sp[1] == s@[pos + 1]);
                    }
                }
                None
            }
        },
        Shape::Array(t, n) => {
            if pos < slen && s[pos] == 91 {
                proof {
                    assert(sp[0] == s@[pos as int]);
                }
                match scan_index_at(s, pos, *n) {
                    Some(p) => {
                        let (idx, next) = p;
                        proof {
                            let rest = sp.subrange(1, sp.len() as int);
                            let j = next - pos - 2;
                            assert(rest.skip(j + 1) =~= s@.skip(next as int));
                        }
                        match parse_getter_at(&**t, s, next) {
                            Some(c) => Some(Getter::Arr(Box::new(ArrHelper { r: c, idx }))),
                            None => None,
                        }
                    },
                    None => None,
                }
            } else {
                proof {
                    if pos < slen {
                        assert(sp[0] == s@[pos as int]);
                    }
                }
                None
            }
        },
    }
}

/// Parses a setter path at byte position `pos`, with `v` as the value to
/// write at the terminal.
#[verifier::loop_isolation(false)]
fn parse_setter_at(shape: &Shape, s: &[u8], pos: usize, v: LeafVal) -> (r: Option<Setter>)
    requires
        pos <= s@.len(),
    ensures
        r == spec_parse_setter(*shape, s@.skip(pos as int), v),
    decreases s@.len() - pos,
{
    let ghost sp = s@.skip(pos as int);
    let slen = s.len();
    match shape {
        Shape::Leaf(k) => {
            if pos == slen && crate::leaf::leaf_kind(&v) == *k {
                Some(Setter::Leaf(v))
            } else {
                None
            }
        },
        Shape::Record(fs) => {
            if pos < slen && s[pos] == 46 {
                proof {
                    assert(sp[0] == s@[pos as int]);
                    assert(sp.subrange(1, sp.len() as int) =~= s@.skip(pos + 1));
                }
                let rest_pos = pos + 1;
                let ghost names = field_names(fs@);
                let ghost vis = field_svis(fs@);
                let ghost rest = s@.skip(rest_pos as int);
                let mut j: usize = 0;
                while j < fs.len()
                    invariant
                        j <= fs@.len(),
                        pos < s@.len(),
                        rest_pos == pos + 1,
                        slen == s@.len(),
                        names == field_names(fs@),
                        vis == field_svis(fs@),
                        rest == s@.skip(rest_pos as int),
                        forall|k: int|
                            0 <= k < j ==> !(vis[k] && is_prefix_of(#[trigger] names[k], rest)),
                    decreases fs@.len() - j,
                {
                    proof {
                        assert(names[j as int] == fs@[j as int].name@);
                        assert(vis[j as int] == setter_visible(fs@[j as int].policy));
                    }
                    if crate::shape::is_setter_visible(fs[j].policy) && name_matches_at(
                        &fs[j].name,
                        s,
                        rest_pos,
                    ) {
                        proof {
                            lemma_match_index_some(names, vis, rest, j as int);
                        }
                        let nl = fs[j].name.len();
                        proof {
                            assert(rest.skip(nl as int) =~= s@.skip(rest_pos + nl));
                        }
                        let child = parse_setter_at(&fs[j].shape, s, rest_pos + nl, v);
                        return match child {
                            Some(c) => Some(Setter::Field(j, Box::new(c))),
                            None => None,
                        };
                    }
                    j = j + 1;
                }
                proof {
                    lemma_match_index_none(names, vis, rest);
                }
                None
            } else {
                proof {
                    if pos < slen {
                        assert(sp[0] == s@[pos as int]);
                    }
                }
                None
            }
        },
        Shape::Union(vs) => {
            if slen - pos >= 2 && s[pos] == 58 && s[pos + 1] == 58 {
                proof {
                    assert(sp[0] == s@[pos as int]);
                    assert(sp[1] == s@[pos + 1]);
                    assert(sp.subrange(2, sp.len() as int) =~= s@.skip(pos + 2));
                }
                let rest_pos = pos + 2;
                let ghost names = variant_names(vs@);
                let ghost vis = variant_svis(vs@);
                let ghost rest = s@.skip(rest_pos as int);
                let mut j: usize = 0;
                while j < vs.len()
                    invariant
                        j <= vs@.len(),
                        pos + 2 <= s@.len(),
                        rest_pos == pos + 2,
                        slen == s@.len(),
                        names == variant_names(vs@),
                        vis == variant_svis(vs@),
                        rest == s@.skip(rest_pos as int),
                        forall|k: int|
                            0 <= k < j ==> !(vis[k] && is_prefix_of(#[trigger] names[k], rest)),
                    decreases vs@.len() - j,
                {
                    proof {
                        assert(names[j as int] == vs@[j as int].name@);
                        assert(vis[j as int] == setter_visible(vs@[j as int].policy));
                    }
                    if crate::shape::is_setter_visible(vs[j].policy) && name_matches_at(
                        &vs[j].name,
                        s,
                        rest_pos,
                    ) {
                        proof {
                            lemma_match_index_some(names, vis, rest, j as int);
                        }
                        let nl = vs[j].name.len();
                        proof {
                            assert(rest.skip(nl as int) =~= s@.skip(rest_pos + nl));
                        }
                        return match &vs[j].payload {
                            Some(p) => {
                                match parse_setter_at(p, s, rest_pos + nl, v) {
                                    Some(c) => Some(Setter::Variant(j, Box::new(c))),
                                    None => None,
                                }
                            },
                            None => {
                                if rest_pos + nl == slen && matches!(v, LeafVal::Unit) {
                                    Some(Setter::VariantUnit(j))
                                } else {
                                    None
                                }
                            },
                        };
                    }
                    j = j + 1;
                }
                proof {
                    lemma_match_index_none(names, vis, rest);
                }
                None
            } else {
                proof {
                    if pos < slen {
                        assert(sp[0] == s@[pos as int]);
                    }
                    if slen - pos >= 2 {
                        assert(sp[1] == s@[pos + 1]);
                    }
                }
                None
            }
        },
        Shape::Array(t, n) => {
            if pos < slen && s[pos] == 91 {
                proof {
                    assert(sp[0] == s@[pos as int]);
                }
                match scan_index_at(s, pos, *n) {
                    Some(p) => {
                        let (idx, next) = p;
                        proof {
                            let rest = sp.subrange(1, sp.len() as int);
                            let j = next - pos - 2;
                            assert(rest.skip(j + 1) =~= s@.skip(next as int));
                        }
                        match parse_setter_at(&**t, s, next, v) {
                            Some(c) => Some(Setter::Arr(Box::new(ArrHelper { r: c, idx }))),
                            None => None,
                        }
                    },
                    None => None,
                }
            } else {
                proof {
                    if pos < slen {
                        assert(sp[0] == s@[pos as int]);
                    }
                }
                None
            }
        },
    }
}

/// Parses a textual path into a getter descriptor against a shape.
///
/// Returns `None` on any unrecognized prefix, name absent from the
/// policy-filtered lists, or malformed or out-of-range index.  A parsed
/// getter is well formed and fits the shape.
pub fn parse_getter(shape: &Shape, path: &[u8]) -> (r: Option<Getter>)
    ensures
        r == spec_parse_getter(*shape, path@),
        r matches Some(g) ==> getter_fits(*shape, g) && wf_getter(g),
{
    proof {
        assert(path@.skip(0) =~= path@);
        lemma_parse_getter_fits(*shape, path@);
    }
    parse_getter_at(shape, path, 0)
}

/// Parses a textual path into a setter descriptor against a shape, with
/// `v` as the value to write.
///
/// The value's kind must equal the addressed leaf's declared kind (an
/// explicit tag comparison, not a byte-width comparison: two same-width
/// kinds are never confused); for a unit-variant path `v` must be the
/// unit value.  A parsed setter is well formed, fits the shape, and
/// carries `v`.
pub fn parse_setter(shape: &Shape, path: &[u8], v: LeafVal) -> (r: Option<Setter>)
    ensures
        r == spec_parse_setter(*shape, path@, v),
        r matches Some(st) ==> setter_fits(*shape, st) && wf_setter(st) && setter_arg(st) == v,
{
    proof {
        assert(path@.skip(0) =~= path@);
        lemma_parse_setter_fits(*shape, path@, v);
    }
    parse_setter_at(shape, path, 0, v)
}

/// Appends a name's bytes.
pub(crate) fn push_bytes(out: &mut Vec<u8>, bytes: &Vec<u8>)
    ensures
        final(out)@ == old(out)@ + bytes@,
{
    let mut k: usize = 0;
    while k < bytes.len()
        invariant
            k <= bytes@.len(),
            out@ =~= old(out)@ + bytes@.subrange(0, k as int),
        decreases bytes@.len() - k,
    {
        out.push(bytes[k]);
        k = k + 1;
    }
    proof {
        assert(bytes@.subrange(0, bytes@.len() as int) =~= bytes@);
        assert(out@ =~= old(out)@ + bytes@);
    }
}

/// Appends the canonical decimal digits of `n`.
fn push_digits(out: &mut Vec<u8>, n: usize)
    ensures
        final(out)@ == old(out)@ + dec_digits(n as nat),
    decreases n,
{
    if n < 10 {
        out.push(48 + (n as u8));
        proof {
            assert(out@ =~= old(out)@ + dec_digits(n as nat));
        }
    } else {
        push_digits(out, n / 10);
        out.push(48 + ((n % 10) as u8));
        proof {
            assert(out@ =~= old(out)@ + dec_digits(n as nat));
        }
    }
}

/// Prints a fitting getter as its canonical path string: `.` before a
/// field name, `::` before a variant name, a bracketed decimal index for
/// an array element, the tag keyword for a tag read, nothing for the
/// terminal.
pub fn print_getter(shape: &Shape, g: &Getter) -> (out: Vec<u8>)
    requires
        getter_fits(*shape, *g),
    ensures
        out@ == spec_print_getter(*shape, *g),
    decreases *g,
{
    match g {
        Getter::Unspecified => {
            proof {
                assert(false);
            }
            Vec::new()
        },
        Getter::Terminal => Vec::new(),
        Getter::GetVariant => {
            let mut out: Vec<u8> = Vec::new();
            out.push(86);
            out.push(65);
            out.push(82);
            out.push(73);
            out.push(65);
            out.push(78);
            out.push(84);
            proof {
                assert(out@ =~= variant_keyword());
            }
            out
        },
        Getter::Field(i, c) => match shape {
            Shape::Record(fs) => {
                let mut out: Vec<u8> = Vec::new();
                out.push(46);
                push_bytes(&mut out, &fs[*i].name);
                let mut tail = print_getter(&fs[*i].shape, &**c);
                out.append(&mut tail);
                proof {
                    assert(out@ =~= spec_print_getter(*shape, *g));
                }
                out
            },
            _ => {
                proof {
                    assert(false);
                }
                Vec::new()
            },
        },
        Getter::Variant(i, c) => match shape {
            Shape::Union(vs) => {
                let mut out: Vec<u8> = Vec::new();
                out.push(58);
                out.push(58);
                push_bytes(&mut out, &vs[*i].name);
                match &vs[*i].payload {
                    Some(p) => {
                        let mut tail = print_getter(p, &**c);
                        out.append(&mut tail);
                    },
                    None => {
                        proof {
                            assert(false);
                        }
                    },
                }
                proof {
                    assert(out@ =~= spec_print_getter(*shape, *g));
                }
                out
            },
            _ => {
                proof {
                    assert(false);
                }
                Vec::new()
            },
        },
        Getter::Arr(a) => match shape {
            Shape::Array(t, _) => {
                let mut out: Vec<u8> = Vec::new();
                out.push(91);
                push_digits(&mut out, (**a).idx);
                out.push(93);
                let mut tail = print_getter(&**t, &(**a).r);
                out.append(&mut tail);
                proof {
                    assert(out@ =~= spec_print_getter(*shape, *g));
                }
                out
            },
            _ => {
                proof {
                    assert(false);
                }
                Vec::new()
            },
        },
    }
}

/// Prints a fitting setter as its canonical path string; the terminal
/// value itself has no textual form, and a unit-variant replacement
/// prints as `::` and the variant's name.
pub fn print_setter(shape: &Shape, st: &Setter) -> (out: Vec<u8>)
    requires
        setter_fits(*shape, *st),
    ensures
        out@ == spec_print_setter(*shape, *st),
    decreases *st,
{
    match st {
        Setter::Unspecified => {
            proof {
                assert(false);
            }
            Vec::new()
        },
        Setter::Leaf(_) => Vec::new(),
        Setter::VariantUnit(i) => match shape {
            Shape::Union(vs) => {
                let mut out: Vec<u8> = Vec::new();
                out.push(58);
                out.push(58);
                push_bytes(&mut out, &vs[*i].name);
                proof {
                    assert(out@ =~= spec_print_setter(*shape, *st));
                }
                out
            },
            _ => {
                proof {
                    assert(false);
                }
                Vec::new()
            },
        },
        Setter::Field(i, c) => match shape {
            Shape::Record(fs) => {
                let mut out: Vec<u8> = Vec::new();
                out.push(46);
                push_bytes(&mut out, &fs[*i].name);
                let mut tail = print_setter(&fs[*i].shape, &**c);
                out.append(&mut tail);
                proof {
                    assert(out@ =~= spec_print_setter(*shape, *st));
                }
                out
            },
            _ => {
                proof {
                    assert(false);
                }
                Vec::new()
            },
        },
        Setter::Variant(i, c) => match shape {
            Shape::Union(vs) => {
                let mut out: Vec<u8> = Vec::new();
                out.push(58);
                out.push(58);
                push_bytes(&mut out, &vs[*i].name);
                match &vs[*i].payload {
                    Some(p) => {
                        let mut tail = print_setter(p, &**c);
                        out.append(&mut tail);
                    },
                    None => {
                        proof {
                            assert(false);
                        }
                    },
                }
                proof {
                    assert(out@ =~= spec_print_setter(*shape, *st));
                }
                out
            },
            _ => {
                proof {
                    assert(false);
                }
                Vec::new()
            },
        },
        Setter::Arr(a) => match shape {
            Shape::Array(t, _) => {
                let mut out: Vec<u8> = Vec::new();
                out.push(91);
                push_digits(&mut out, (**a).idx);
                out.push(93);
                let mut tail = print_setter(&**t, &(**a).r);
                out.append(&mut tail);
                proof {
                    assert(out@ =~= spec_print_setter(*shape, *st));
                }
                out
            },
            _ => {
                proof {
                    assert(false);
                }
                Vec::new()
            },
        },
    }
}


/// Textual round-trip for getters: over a well-formed shape, parsing a
/// printed descriptor yields the descriptor back, for every fitting
/// descriptor.
pub proof fn lemma_getter_roundtrip(shape: Shape, g: Getter)
    requires
        wf_shape(shape),
        getter_fits(shape, g),
    ensures
        spec_parse_getter(shape, spec_print_getter(shape, g)) == Some(g),
    decreases g,
{
    let s = spec_print_getter(shape, g);
    match g {
        Getter::Unspecified => {},
        Getter::Terminal => {},
        Getter::GetVariant => {},
        Getter::Field(i, c) => {
            if let Shape::Record(fs) = shape {
                let name = fs[i as int].name@;
                let rest = spec_print_getter(fs[i as int].shape, *c);
                assert(s == seq![46u8] + name + rest);
                assert(s[0] == 46);
                let srest = s.subrange(1, s.len() as int);
                assert(srest =~= name + rest);
                assert(field_names(fs@)[i as int] == name);
                assert(field_gvis(fs@)[i as int] == getter_visible(fs@[i as int].policy));
                lemma_match_index_of_printed(
                    field_names(fs@),
                    field_gvis(fs@),
                    i as int,
                    rest,
                );
                assert(match_index(field_names(fs@), field_gvis(fs@), srest) == Some(i as int));
                assert(name.len() <= srest.len());
                assert(srest.skip(name.len() as int) =~= rest);
                assert(wf_shape(fs[i as int].shape));
                lemma_getter_roundtrip(fs[i as int].shape, *c);
            }
        },
        Getter::Variant(i, c) => {
            if let Shape::Union(vs) = shape {
                if let Some(p) = vs[i as int].payload {
                    let name = vs[i as int].name@;
                    let rest = spec_print_getter(p, *c);
                    assert(s == seq![58u8, 58u8] + name + rest);
                    assert(s[0] == 58);
                    assert(s[1] == 58);
                    assert(variant_keyword()[0] == 86);
                    assert(s != variant_keyword());
                    let srest = s.subrange(2, s.len() as int);
                    assert(srest =~= name + rest);
                    assert(variant_names(vs@)[i as int] == name);
                    assert(variant_gvis(vs@)[i as int] == getter_visible(vs@[i as int].policy));
                    lemma_match_index_of_printed(
                        variant_names(vs@),
                        variant_gvis(vs@),
                        i as int,
                        rest,
                    );
                    assert(match_index(variant_names(vs@), variant_gvis(vs@), srest) == Some(
                        i as int,
                    ));
                    assert(name.len() <= srest.len());
                    assert(srest.skip(name.len() as int) =~= rest);
                    assert(wf_shape(p));
                    lemma_getter_roundtrip(p, *c);
                }
            }
        },
        Getter::Arr(a) => {
            if let Shape::Array(t, n) = shape {
                let idx = (*a).idx;
                let dd = dec_digits(idx as nat);
                let rest = spec_print_getter(*t, (*a).r);
                lemma_dec_digits_ok(idx as nat);
                assert(s == seq![91u8] + dd + seq![93u8] + rest);
                assert(s[0] == 91);
                let srest = s.subrange(1, s.len() as int);
                assert(srest =~= dd + seq![93u8] + rest);
                assert(srest[dd.len() as int] == 93);
                assert forall|k: int| 0 <= k < dd.len() implies srest[k] != 93 by {
                    assert(srest[k] == dd[k]);
                    assert(is_digit(dd[k]));
                }
                lemma_find_byte_some(srest, 93, dd.len() as int);
                let digits = srest.subrange(0, dd.len() as int);
                assert(digits =~= dd);
                assert(srest.skip(dd.len() as int + 1) =~= rest);
                lemma_getter_roundtrip(*t, (*a).r);
                assert(ArrHelper { r: (*a).r, idx: (*a).idx } == *a);
            }
        },
    }
}

/// Textual round-trip for setters: over a well-formed shape, parsing a
/// printed setter with the value it carries yields the setter back, for
/// every fitting setter.
pub proof fn lemma_setter_roundtrip(shape: Shape, st: Setter)
    requires
        wf_shape(shape),
        setter_fits(shape, st),
    ensures
        spec_parse_setter(shape, spec_print_setter(shape, st), setter_arg(st)) == Some(st),
    decreases st,
{
    let s = spec_print_setter(shape, st);
    let v = setter_arg(st);
    match st {
        Setter::Unspecified => {},
        Setter::Leaf(_) => {},
        Setter::VariantUnit(i) => {
            if let Shape::Union(vs) = shape {
                let name = vs[i as int].name@;
                assert(s == seq![58u8, 58u8] + name);
                assert(s[0] == 58);
                assert(s[1] == 58);
                let srest = s.subrange(2, s.len() as int);
                assert(srest =~= name + Seq::<u8>::empty());
                assert(srest =~= name);
                assert(variant_names(vs@)[i as int] == name);
                assert(variant_svis(vs@)[i as int] == setter_visible(vs@[i as int].policy));
                lemma_match_index_of_printed(
                    variant_names(vs@),
                    variant_svis(vs@),
                    i as int,
                    Seq::<u8>::empty(),
                );
                assert(match_index(variant_names(vs@), variant_svis(vs@), srest) == Some(
                    i as int,
                ));
            }
        },
        Setter::Field(i, c) => {
            if let Shape::Record(fs) = shape {
                let name = fs[i as int].name@;
                let rest = spec_print_setter(fs[i as int].shape, *c);
                assert(s == seq![46u8] + name + rest);
                assert(s[0] == 46);
                let srest = s.subrange(1, s.len() as int);
                assert(srest =~= name + rest);
                assert(field_names(fs@)[i as int] == name);
                assert(field_svis(fs@)[i as int] == setter_visible(fs@[i as int].policy));
                lemma_match_index_of_printed(
                    field_names(fs@),
                    field_svis(fs@),
                    i as int,
                    rest,
                );
                assert(match_index(field_names(fs@), field_svis(fs@), srest) == Some(i as int));
                assert(name.len() <= srest.len());
                assert(srest.skip(name.len() as int) =~= rest);
                assert(wf_shape(fs[i as int].shape));
                lemma_setter_roundtrip(fs[i as int].shape, *c);
            }
        },
        Setter::Variant(i, c) => {
            if let Shape::Union(vs) = shape {
                if let Some(p) = vs[i as int].payload {
                    let name = vs[i as int].name@;
                    let rest = spec_print_setter(p, *c);
                    assert(s == seq![58u8, 58u8] + name + rest);
                    assert(s[0] == 58);
                    assert(s[1] == 58);
                    let srest = s.subrange(2, s.len() as int);
                    assert(srest =~= name + rest);
                    assert(variant_names(vs@)[i as int] == name);
                    assert(variant_svis(vs@)[i as int] == setter_visible(vs@[i as int].policy));
                    lemma_match_index_of_printed(
                        variant_names(vs@),
                        variant_svis(vs@),
                        i as int,
                        rest,
                    );
                    assert(match_index(variant_names(vs@), variant_svis(vs@), srest) == Some(
                        i as int,
                    ));
                    assert(name.len() <= srest.len());
                    assert(srest.skip(name.len() as int) =~= rest);
                    assert(wf_shape(p));
                    lemma_setter_roundtrip(p, *c);
                }
            }
        },
        Setter::Arr(a) => {
            if let Shape::Array(t, n) = shape {
                let idx = (*a).idx;
                let dd = dec_digits(idx as nat);
                let rest = spec_print_setter(*t, (*a).r);
                lemma_dec_digits_ok(idx as nat);
                assert(s == seq![91u8] + dd + seq![93u8] + rest);
                assert(s[0] == 91);
                let srest = s.subrange(1, s.len() as int);
                assert(srest =~= dd + seq![93u8] + rest);
                assert(srest[dd.len() as int] == 93);
                assert forall|k: int| 0 <= k < dd.len() implies srest[k] != 93 by {
                    assert(srest[k] == dd[k]);
                    assert(is_digit(dd[k]));
                }
                lemma_find_byte_some(srest, 93, dd.len() as int);
                let digits = srest.subrange(0, dd.len() as int);
                assert(digits =~= dd);
                assert(srest.skip(dd.len() as int + 1) =~= rest);
                lemma_setter_roundtrip(*t, (*a).r);
                assert(ArrHelper { r: (*a).r, idx: (*a).idx } == *a);
            }
        },
    }
}


/// Bounds at parse time: an array segment whose index is at or past the
/// declared extent is refused, whatever follows it.
pub proof fn lemma_parse_rejects_out_of_bounds(t: Shape, n: usize, idx: usize, rest: Seq<u8>)
    requires
        n <= idx,
    ensures
        spec_parse_getter(
            Shape::Array(Box::new(t), n),
            seq![91u8] + dec_digits(idx as nat) + seq![93u8] + rest,
        ) is None,
{
    let s = seq![91u8] + dec_digits(idx as nat) + seq![93u8] + rest;
    let dd = dec_digits(idx as nat);
    lemma_dec_digits_ok(idx as nat);
    assert(s[0] == 91);
    let srest = s.subrange(1, s.len() as int);
    assert(srest =~= dd + seq![93u8] + rest);
    assert(srest[dd.len() as int] == 93);
    assert forall|k: int| 0 <= k < dd.len() implies srest[k] != 93 by {
        assert(srest[k] == dd[k]);
        assert(is_digit(dd[k]));
    }
    lemma_find_byte_some(srest, 93, dd.len() as int);
    assert(srest.subrange(0, dd.len() as int) =~= dd);
}

} // verus!
