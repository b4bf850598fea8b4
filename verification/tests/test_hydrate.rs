use remote_obj::access::get;
use remote_obj::codec::{dehydrate, hydrate};
use remote_obj::descriptor::{Getter, Setter};
use remote_obj::instance::Instance;
use remote_obj::leaf::{LeafKind, LeafVal};
use remote_obj::shape::{FieldDef, Policy, Shape};
use remote_obj::value::Value;

fn i8_leaf() -> Shape {
    Shape::Leaf(LeafKind::I8)
}

fn field(name: &str, shape: Shape) -> FieldDef {
    FieldDef { name: name.as_bytes().to_vec(), policy: Policy::Normal, shape }
}

fn test_shape() -> Shape {
    Shape::Record(vec![field("a", i8_leaf()), field("b", i8_leaf())])
}

fn nested_test_shape() -> Shape {
    Shape::Record(vec![field("a", test_shape()), field("b", test_shape())])
}

fn i8v(x: i8) -> Instance {
    Instance::Leaf(LeafVal::I8(x))
}

fn pair(a: i8, b: i8) -> Instance {
    Instance::Record(vec![i8v(a), i8v(b)])
}

#[test]
fn test_hydrate() {
    let shape = nested_test_shape();
    let mut nested = Instance::Record(vec![pair(0, 0), pair(0, 0)]);

    remote_obj::access::set(
        &mut nested,
        &Setter::make_field(0, Setter::make_field(0, Setter::Leaf(LeafVal::I8(1)))),
    )
    .unwrap();
    let g = Getter::make_field(0, Getter::make_field(0, Getter::Terminal));
    let v = get(&nested, &g).unwrap();

    let mut buf = vec![0u8, 0, 0, 0];
    let raw_v = dehydrate(&v, &mut buf).unwrap();
    assert_eq!(buf[0], 1);
    assert_eq!(raw_v, 1);

    let g = Getter::make_field(0, Getter::make_field(0, Getter::Terminal));
    let (rehydrated_v, length) = hydrate(&shape, &g, &buf).unwrap();
    assert_eq!(length, 1);
    assert_eq!(rehydrated_v, Value::Leaf(LeafVal::I8(1)));
}
