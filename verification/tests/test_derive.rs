use remote_obj::access::get;
use remote_obj::descriptor::{Getter, Setter};
use remote_obj::instance::Instance;
use remote_obj::leaf::{LeafKind, LeafVal};
use remote_obj::shape::{FieldDef, Policy, Shape, VariantDef};
use remote_obj::value::Value;

fn i8_leaf() -> Shape {
    Shape::Leaf(LeafKind::I8)
}

fn field(name: &str, policy: Policy, shape: Shape) -> FieldDef {
    FieldDef { name: name.as_bytes().to_vec(), policy, shape }
}

fn test_shape() -> Shape {
    Shape::Record(vec![
        field("a", Policy::Normal, i8_leaf()),
        field("b", Policy::Normal, i8_leaf()),
    ])
}

fn config_shape() -> Shape {
    Shape::Record(vec![
        field("a", Policy::Normal, i8_leaf()),
        field("b", Policy::ReadOnly, i8_leaf()),
        field("c", Policy::WriteOnly, i8_leaf()),
        field("d", Policy::Normal, test_shape()),
        field(
            "e",
            Policy::Normal,
            Shape::Union(vec![
                VariantDef { name: b"A".to_vec(), policy: Policy::Normal, payload: None },
                VariantDef {
                    name: b"B".to_vec(),
                    policy: Policy::Normal,
                    payload: Some(test_shape()),
                },
            ]),
        ),
        field("f", Policy::Normal, Shape::Array(Box::new(i8_leaf()), 8)),
    ])
}

fn i8v(x: i8) -> Instance {
    Instance::Leaf(LeafVal::I8(x))
}

fn pair(a: i8, b: i8) -> Instance {
    Instance::Record(vec![i8v(a), i8v(b)])
}

#[test]
fn test_derive() {
    let _shape = config_shape();
    let mut config = Instance::Record(vec![
        i8v(0),
        i8v(0),
        i8v(0),
        pair(0, 0),
        Instance::Union(1, Some(Box::new(pair(0, 0)))),
        Instance::Array((0..8).map(|_| i8v(0)).collect()),
    ]);

    // field set
    remote_obj::access::set(&mut config, &Setter::make_field(0, Setter::Leaf(LeafVal::I8(1)))).unwrap();

    // field get
    let v = get(&config, &Getter::make_field(0, Getter::Terminal)).unwrap();
    assert_eq!(v, Value::Leaf(LeafVal::I8(1)));

    // nested field set
    remote_obj::access::set(
        &mut config,
        &Setter::make_field(3, Setter::make_field(0, Setter::Leaf(LeafVal::I8(2)))),
    )
    .unwrap();

    // nested field get
    let v = get(&config, &Getter::make_field(3, Getter::make_field(0, Getter::Terminal))).unwrap();
    assert_eq!(v, Value::Leaf(LeafVal::I8(2)));

    // enum variant set inner field
    remote_obj::access::set(
        &mut config,
        &Setter::make_field(
            4,
            Setter::make_variant(1, Setter::make_field(0, Setter::Leaf(LeafVal::I8(3)))),
        ),
    )
    .unwrap();

    // enum variant get inner field
    let v = get(
        &config,
        &Getter::make_field(4, Getter::make_variant(1, Getter::make_field(0, Getter::Terminal))),
    )
    .unwrap();
    assert_eq!(v, Value::Leaf(LeafVal::I8(3)));

    // enum set variant (unit replacement)
    remote_obj::access::set(&mut config, &Setter::make_field(4, Setter::make_unit_variant(0))).unwrap();

    // enum no longer allows a write to the other variant's inner field
    assert!(remote_obj::access::set(
        &mut config,
        &Setter::make_field(
            4,
            Setter::make_variant(1, Setter::make_field(0, Setter::Leaf(LeafVal::I8(2)))),
        ),
    )
    .is_err());

    // enum get variant
    let v = get(&config, &Getter::make_field(4, Getter::make_var())).unwrap();
    assert_eq!(v, Value::Tag(0));

    // array field set
    remote_obj::access::set(
        &mut config,
        &Setter::make_field(5, Setter::make_index(1, Setter::Leaf(LeafVal::I8(1)))),
    )
    .unwrap();

    // array field get
    let v = get(&config, &Getter::make_field(5, Getter::make_index(1, Getter::Terminal))).unwrap();
    assert_eq!(v, Value::Leaf(LeafVal::I8(1)));
}
