use remote_obj::access::get;
use remote_obj::fields::{get_fields, FieldsType};
use remote_obj::instance::Instance;
use remote_obj::leaf::{LeafKind, LeafVal};
use remote_obj::shape::{FieldDef, Policy, Shape, VariantDef};
use remote_obj::text::{parse_getter, parse_setter, print_getter, print_setter};
use remote_obj::value::Value;

fn i8_leaf() -> Shape {
    Shape::Leaf(LeafKind::I8)
}

fn field(name: &str, shape: Shape) -> FieldDef {
    FieldDef { name: name.as_bytes().to_vec(), policy: Policy::Normal, shape }
}

fn nested_shape() -> Shape {
    Shape::Record(vec![field("a", i8_leaf()), field("b", i8_leaf())])
}

fn test_shape() -> Shape {
    Shape::Record(vec![
        field("a", i8_leaf()),
        field("b", nested_shape()),
        field(
            "c",
            Shape::Union(vec![
                VariantDef { name: b"A".to_vec(), policy: Policy::Normal, payload: None },
                VariantDef {
                    name: b"B".to_vec(),
                    policy: Policy::Normal,
                    payload: Some(nested_shape()),
                },
            ]),
        ),
        field("d", Shape::Array(Box::new(i8_leaf()), 8)),
    ])
}

fn i8v(x: i8) -> Instance {
    Instance::Leaf(LeafVal::I8(x))
}

fn pair(a: i8, b: i8) -> Instance {
    Instance::Record(vec![i8v(a), i8v(b)])
}

#[test]
fn test_dynamic() {
    let shape = test_shape();
    let mut test = Instance::Record(vec![
        i8v(0),
        pair(0, 0),
        Instance::Union(1, Some(Box::new(pair(0, 0)))),
        Instance::Array((0..8).map(|_| i8v(0)).collect()),
    ]);

    let path = b".a";
    let x = 1i8;
    let setter = parse_setter(&shape, path, LeafVal::I8(x)).unwrap();
    assert_eq!(print_setter(&shape, &setter), path.to_vec());
    remote_obj::access::set(&mut test, &setter).unwrap();
    let getter = parse_getter(&shape, path).unwrap();
    assert_eq!(print_getter(&shape, &getter), path.to_vec());
    let value = get(&test, &getter).unwrap();
    assert_eq!(value, Value::Leaf(LeafVal::I8(x)));

    let path = b".b.a";
    let x = 2i8;
    let setter = parse_setter(&shape, path, LeafVal::I8(x)).unwrap();
    assert_eq!(print_setter(&shape, &setter), path.to_vec());
    remote_obj::access::set(&mut test, &setter).unwrap();
    let getter = parse_getter(&shape, path).unwrap();
    assert_eq!(print_getter(&shape, &getter), path.to_vec());
    let value = get(&test, &getter).unwrap();
    assert_eq!(value, Value::Leaf(LeafVal::I8(x)));

    let path = b".c::B.a";
    let x = 3i8;
    let setter = parse_setter(&shape, path, LeafVal::I8(x)).unwrap();
    assert_eq!(print_setter(&shape, &setter), path.to_vec());
    remote_obj::access::set(&mut test, &setter).unwrap();
    let getter = parse_getter(&shape, path).unwrap();
    assert_eq!(print_getter(&shape, &getter), path.to_vec());
    let value = get(&test, &getter).unwrap();
    assert_eq!(value, Value::Leaf(LeafVal::I8(x)));

    let setter = parse_setter(&shape, b".c::A", LeafVal::Unit).unwrap();
    remote_obj::access::set(&mut test, &setter).unwrap();
    match &test {
        Instance::Record(xs) => match &xs[2] {
            Instance::Union(1, _) => {
                unreachable!();
            },
            Instance::Union(0, payload) => {
                assert!(payload.is_none());
            },
            _ => {
                unreachable!();
            },
        },
        _ => {
            unreachable!();
        },
    }

    let path = b".d[4]";
    let x = 4i8;
    let setter = parse_setter(&shape, path, LeafVal::I8(x)).unwrap();
    assert_eq!(print_setter(&shape, &setter), path.to_vec());
    remote_obj::access::set(&mut test, &setter).unwrap();
    let getter = parse_getter(&shape, path).unwrap();
    assert_eq!(print_getter(&shape, &getter), path.to_vec());
    let value = get(&test, &getter).unwrap();
    assert_eq!(value, Value::Leaf(LeafVal::I8(x)));

    assert_eq!(
        Some(FieldsType::Fields(vec![
            b".a".to_vec(),
            b".b".to_vec(),
            b".c".to_vec(),
            b".d".to_vec(),
        ])),
        get_fields(&shape, b"")
    );
    assert_eq!(
        Some(FieldsType::Fields(vec![b"::B".to_vec(), b"VARIANT".to_vec()])),
        get_fields(&shape, b".c")
    );
    assert_eq!(
        Some(FieldsType::Fields(vec![b".a".to_vec(), b".b".to_vec()])),
        get_fields(&shape, b".c::B")
    );
    assert_eq!(Some(FieldsType::Terminal), get_fields(&shape, b".c::B.a"));
    assert_eq!(Some(FieldsType::Arr(8)), get_fields(&shape, b".d"));
}
