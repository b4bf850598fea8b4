use remote_obj::access::get;
use remote_obj::descriptor::{Getter, Setter};
use remote_obj::instance::Instance;
use remote_obj::leaf::LeafVal;
use remote_obj::value::Value;

fn i8v(x: i8) -> Instance {
    Instance::Leaf(LeafVal::I8(x))
}

#[test]
fn test_ref() {
    let mut test = Instance::Record(vec![
        i8v(0),
        i8v(0),
        Instance::Union(0, Some(Box::new(Instance::Record(vec![i8v(0), i8v(0)])))),
    ]);

    remote_obj::access::set(&mut test, &Setter::make_field(0, Setter::Leaf(LeafVal::I8(1)))).unwrap();
    let v = get(&test, &Getter::make_field(0, Getter::Terminal)).unwrap();
    assert_eq!(v, Value::Leaf(LeafVal::I8(1)));

    remote_obj::access::set(
        &mut test,
        &Setter::make_field(
            2,
            Setter::make_variant(0, Setter::make_field(0, Setter::Leaf(LeafVal::I8(1)))),
        ),
    )
    .unwrap();
    let v = get(
        &test,
        &Getter::make_field(2, Getter::make_variant(0, Getter::make_field(0, Getter::Terminal))),
    )
    .unwrap();
    assert_eq!(v, Value::Leaf(LeafVal::I8(1)));
}
