use remote_obj::access::{get, Error};
use remote_obj::descriptor::{Getter, Setter};
use remote_obj::fields::{get_fields, FieldsType};
use remote_obj::instance::Instance;
use remote_obj::leaf::{LeafKind, LeafVal};
use remote_obj::shape::{FieldDef, Policy, Shape, VariantDef};
use remote_obj::text::{parse_getter, parse_setter};
use remote_obj::value::Value;

fn i8_leaf() -> Shape {
    Shape::Leaf(LeafKind::I8)
}

fn field(name: &str, policy: Policy, shape: Shape) -> FieldDef {
    FieldDef { name: name.as_bytes().to_vec(), policy, shape }
}

fn policy_shape() -> Shape {
    Shape::Record(vec![
        field("open", Policy::Normal, i8_leaf()),
        field("hidden", Policy::Skip, i8_leaf()),
        field("frozen", Policy::ReadOnly, i8_leaf()),
        field("blind", Policy::WriteOnly, i8_leaf()),
    ])
}

fn union_shape() -> Shape {
    Shape::Union(vec![
        VariantDef { name: b"A".to_vec(), policy: Policy::Normal, payload: None },
        VariantDef { name: b"B".to_vec(), policy: Policy::Normal, payload: Some(i8_leaf()) },
    ])
}

fn i8v(x: i8) -> Instance {
    Instance::Leaf(LeafVal::I8(x))
}

#[test]
fn policy_filters_both_protocols() {
    let shape = policy_shape();

    // a skipped field exists in neither protocol
    assert_eq!(parse_getter(&shape, b".hidden"), None);
    assert_eq!(parse_setter(&shape, b".hidden", LeafVal::I8(0)), None);

    // a read-only field is gettable, not settable
    assert!(parse_getter(&shape, b".frozen").is_some());
    assert_eq!(parse_setter(&shape, b".frozen", LeafVal::I8(0)), None);

    // a write-only field is settable, not gettable
    assert_eq!(parse_getter(&shape, b".blind"), None);
    assert!(parse_setter(&shape, b".blind", LeafVal::I8(0)).is_some());

    // the visible-field listing filters the same way
    assert_eq!(
        get_fields(&shape, b""),
        Some(FieldsType::Fields(vec![b".open".to_vec(), b".frozen".to_vec()]))
    );
}

#[test]
fn parse_failures_return_none() {
    let shape = policy_shape();
    assert_eq!(parse_getter(&shape, b".nosuch"), None);
    assert_eq!(parse_getter(&shape, b"open"), None);
    assert_eq!(parse_getter(&shape, b"::open"), None);
    assert_eq!(parse_getter(&shape, b".open.more"), None);
    assert_eq!(parse_getter(&shape, b""), None);

    let arr = Shape::Array(Box::new(i8_leaf()), 4);
    assert_eq!(parse_getter(&arr, b"[]"), None);
    assert_eq!(parse_getter(&arr, b"[1x]"), None);
    assert_eq!(parse_getter(&arr, b"[1"), None);
    assert_eq!(parse_getter(&arr, b"1]"), None);
    assert_eq!(parse_getter(&arr, b"[-1]"), None);

    let un = union_shape();
    // a unit variant has no payload position in the getter protocol
    assert_eq!(parse_getter(&un, b"::A"), None);
    // the keyword must be the whole remainder
    assert_eq!(parse_getter(&un, b"VARIANTx"), None);
    assert!(parse_getter(&un, b"VARIANT").is_some());
}

#[test]
fn variant_mismatch() {
    let mut u = Instance::Union(0, None);
    // reading the other variant's payload while A is live
    let g = Getter::make_variant(1, Getter::Terminal);
    assert_eq!(get(&u, &g), Err(Error::VariantMismatch));
    // writing it fails too, and leaves the instance unchanged
    let s = Setter::make_variant(1, Setter::Leaf(LeafVal::I8(1)));
    assert_eq!(remote_obj::access::set(&mut u, &s), Err(Error::VariantMismatch));
    assert_eq!(u, Instance::Union(0, None));
    // the tag read still succeeds whatever is live
    assert_eq!(get(&u, &Getter::make_var()), Ok(Value::Tag(0)));
    // a unit-variant replacement always succeeds and discards the payload
    let mut u = Instance::Union(1, Some(Box::new(i8v(5))));
    assert_eq!(remote_obj::access::set(&mut u, &Setter::make_unit_variant(0)), Ok(()));
    assert_eq!(u, Instance::Union(0, None));
}

#[test]
fn path_and_kind_mismatch() {
    // a field step on a leaf instance is a path mismatch
    let leaf = i8v(1);
    let g = Getter::make_field(0, Getter::Terminal);
    assert_eq!(get(&leaf, &g), Err(Error::PathMismatch));

    // writing a value of another kind is refused, not reinterpreted,
    // even though an i8 and a u8 have the same byte width
    let mut leaf = i8v(1);
    assert_eq!(remote_obj::access::set(&mut leaf, &Setter::Leaf(LeafVal::U8(3))), Err(Error::KindMismatch));
    assert_eq!(leaf, i8v(1));
    assert_eq!(remote_obj::access::set(&mut leaf, &Setter::Leaf(LeafVal::I16(3))), Err(Error::KindMismatch));
    assert_eq!(leaf, i8v(1));

    // the same tag check guards the textual setter
    let shape = Shape::Leaf(LeafKind::I8);
    assert_eq!(parse_setter(&shape, b"", LeafVal::U8(3)), None);
    assert!(parse_setter(&shape, b"", LeafVal::I8(3)).is_some());

    // a record step out of range is a path mismatch
    let rec = Instance::Record(vec![i8v(0)]);
    assert_eq!(get(&rec, &Getter::make_field(1, Getter::Terminal)), Err(Error::PathMismatch));
}
