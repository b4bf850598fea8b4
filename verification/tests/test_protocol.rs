use remote_obj::access::get;
use remote_obj::codec::{dehydrate, hydrate};
use remote_obj::descriptor::{ArrHelper, Getter, Setter};
use remote_obj::fields::{get_fields, FieldsType};
use remote_obj::instance::Instance;
use remote_obj::leaf::{LeafKind, LeafVal};
use remote_obj::shape::{FieldDef, Policy, Shape, VariantDef};
use remote_obj::text::{parse_getter, parse_setter, print_getter, print_setter};
use remote_obj::value::Value;

fn i8_leaf() -> Shape {
    Shape::Leaf(LeafKind::I8)
}

fn field(name: &str, policy: Policy, shape: Shape) -> FieldDef {
    FieldDef { name: name.as_bytes().to_vec(), policy, shape }
}

fn nested_shape() -> Shape {
    Shape::Record(vec![
        field("a", Policy::Normal, i8_leaf()),
        field("b", Policy::Normal, i8_leaf()),
    ])
}

fn config_shape() -> Shape {
    Shape::Record(vec![
        field("a", Policy::Normal, i8_leaf()),
        field("d", Policy::Normal, nested_shape()),
        field(
            "e",
            Policy::Normal,
            Shape::Union(vec![
                VariantDef { name: b"A".to_vec(), policy: Policy::Normal, payload: None },
                VariantDef {
                    name: b"B".to_vec(),
                    policy: Policy::Normal,
                    payload: Some(nested_shape()),
                },
            ]),
        ),
        field("f", Policy::Normal, Shape::Array(Box::new(i8_leaf()), 8)),
    ])
}

fn i8v(x: i8) -> Instance {
    Instance::Leaf(LeafVal::I8(x))
}

fn pair(a: i8, b: i8) -> Instance {
    Instance::Record(vec![i8v(a), i8v(b)])
}

fn config_instance() -> Instance {
    Instance::Record(vec![
        i8v(0),
        pair(0, 0),
        Instance::Union(1, Some(Box::new(pair(0, 0)))),
        Instance::Array((0..8).map(|_| i8v(0)).collect()),
    ])
}

#[test]
fn scenario_config() {
    let shape = config_shape();
    let mut config = config_instance();

    // parse ".d.a", set it to 2, read it back through ".d.a"
    let s = parse_setter(&shape, b".d.a", LeafVal::I8(2)).unwrap();
    remote_obj::access::set(&mut config, &s).unwrap();
    let g = parse_getter(&shape, b".d.a").unwrap();
    assert_eq!(get(&config, &g), Ok(Value::Leaf(LeafVal::I8(2))));

    // ".e::B.a" set to 3 while e is on B succeeds
    let s = parse_setter(&shape, b".e::B.a", LeafVal::I8(3)).unwrap();
    assert_eq!(remote_obj::access::set(&mut config, &s), Ok(()));
    let g = parse_getter(&shape, b".e::B.a").unwrap();
    assert_eq!(get(&config, &g), Ok(Value::Leaf(LeafVal::I8(3))));

    // switch e to A, then ".e::B.a" fails
    let s = parse_setter(&shape, b".e::A", LeafVal::Unit).unwrap();
    remote_obj::access::set(&mut config, &s).unwrap();
    let s = parse_setter(&shape, b".e::B.a", LeafVal::I8(3)).unwrap();
    assert!(remote_obj::access::set(&mut config, &s).is_err());

    // getter for ".f[1]" set to 1, read back, and round-trip the byte
    let s = parse_setter(&shape, b".f[1]", LeafVal::I8(1)).unwrap();
    remote_obj::access::set(&mut config, &s).unwrap();
    let g = parse_getter(&shape, b".f[1]").unwrap();
    let v = get(&config, &g).unwrap();
    assert_eq!(v, Value::Leaf(LeafVal::I8(1)));
    let mut buf = vec![0u8; 4];
    assert_eq!(dehydrate(&v, &mut buf), Some(1));
    assert_eq!(buf[0], 1);
    let (rv, n) = hydrate(&shape, &g, &buf).unwrap();
    assert_eq!(n, 1);
    assert_eq!(rv, v);
}

#[test]
fn string_round_trip() {
    let shape = config_shape();
    for path in [
        b".a".as_slice(),
        b".d.a",
        b".d.b",
        b".e::B.a",
        b".e::B.b",
        b".f[0]",
        b".f[7]",
    ] {
        let g = parse_getter(&shape, path).unwrap();
        let printed = print_getter(&shape, &g);
        assert_eq!(printed, path.to_vec());
        assert_eq!(parse_getter(&shape, &printed), Some(g));
    }

    // tag getter round-trips through the keyword form
    let g = parse_getter(&shape, b".eVARIANT").unwrap();
    assert_eq!(g, Getter::make_field(2, Getter::make_var()));
    assert_eq!(print_getter(&shape, &g), b".eVARIANT".to_vec());
    assert_eq!(parse_getter(&shape, b".eVARIANT"), Some(g));

    // setter round-trip carries the terminal value back in
    let st = parse_setter(&shape, b".d.b", LeafVal::I8(9)).unwrap();
    let printed = print_setter(&shape, &st);
    assert_eq!(printed, b".d.b".to_vec());
    assert_eq!(parse_setter(&shape, &printed, LeafVal::I8(9)), Some(st));

    // unit-variant setter round-trip
    let st = parse_setter(&shape, b".e::A", LeafVal::Unit).unwrap();
    let printed = print_setter(&shape, &st);
    assert_eq!(printed, b".e::A".to_vec());
    assert_eq!(parse_setter(&shape, &printed, LeafVal::Unit), Some(st));
}

#[test]
fn set_then_get_matches() {
    let shape = config_shape();
    let mut config = config_instance();
    for (path, x) in
        [(b".a".as_slice(), 5i8), (b".d.a", -7), (b".d.b", 127), (b".f[3]", -128), (b".e::B.b", 1)]
    {
        let s = parse_setter(&shape, path, LeafVal::I8(x)).unwrap();
        remote_obj::access::set(&mut config, &s).unwrap();
        // the matching getter reads back exactly what the setter wrote
        let g = remote_obj::descriptor::matching_getter(&s);
        assert_eq!(g, parse_getter(&shape, path).unwrap());
        assert_eq!(get(&config, &g), Ok(Value::Leaf(LeafVal::I8(x))));
    }

    // a unit-variant setter's matching getter is the tag read
    let s = parse_setter(&shape, b".e::A", LeafVal::Unit).unwrap();
    remote_obj::access::set(&mut config, &s).unwrap();
    let g = remote_obj::descriptor::matching_getter(&s);
    assert_eq!(get(&config, &g), Ok(Value::Tag(0)));
}

#[test]
fn array_builders_and_bounds() {
    let shape = config_shape();
    let mut config = config_instance();

    // the array descriptor pair built by hand
    let ah = ArrHelper::new(Getter::Terminal, 0).arr_get(1, Getter::Terminal);
    let g = Getter::make_field(3, Getter::Arr(Box::new(ah)));
    assert_eq!(g, parse_getter(&shape, b".f[1]").unwrap());
    let sh = ArrHelper::new(Setter::Unspecified, 0).arr_set(6, Setter::Leaf(LeafVal::I8(9)));
    let s = Setter::make_field(3, Setter::Arr(Box::new(sh)));
    assert_eq!(remote_obj::access::set(&mut config, &s), Ok(()));
    assert_eq!(
        get(&config, &parse_getter(&shape, b".f[6]").unwrap()),
        Ok(Value::Leaf(LeafVal::I8(9)))
    );

    // parse-time bounds: an index at or past the extent is refused
    assert_eq!(parse_getter(&shape, b".f[8]"), None);
    assert_eq!(parse_getter(&shape, b".f[9]"), None);
    assert_eq!(parse_setter(&shape, b".f[8]", LeafVal::I8(0)), None);
    // a huge index is refused, not wrapped
    assert_eq!(parse_getter(&shape, b".f[99999999999999999999999]"), None);
    // leading zeros are accepted on an in-range index
    assert_eq!(
        parse_getter(&shape, b".f[007]"),
        Some(Getter::make_field(3, Getter::make_index(7, Getter::Terminal)))
    );

    // resolution-time bounds: a built descriptor past the extent fails
    let g = Getter::make_field(3, Getter::make_index(8, Getter::Terminal));
    assert_eq!(get(&config, &g), Err(remote_obj::access::Error::IndexOutOfBounds));
    let s = Setter::make_field(3, Setter::make_index(8, Setter::Leaf(LeafVal::I8(0))));
    assert_eq!(remote_obj::access::set(&mut config, &s), Err(remote_obj::access::Error::IndexOutOfBounds));
}

#[test]
fn descriptors_key_a_lookup_table() {
    let shape = config_shape();
    let mut table = std::collections::HashMap::new();
    let g1 = parse_getter(&shape, b".d.a").unwrap();
    let g2 = parse_getter(&shape, b".f[1]").unwrap();
    table.insert(g1.clone(), 1);
    table.insert(g2.clone(), 2);
    assert_eq!(table.get(&g1), Some(&1));
    assert_eq!(table.get(&parse_getter(&shape, b".d.a").unwrap()), Some(&1));
    assert_eq!(table.get(&parse_getter(&shape, b".f[1]").unwrap()), Some(&2));
    assert_eq!(table.get(&parse_getter(&shape, b".f[2]").unwrap()), None);
}

#[test]
fn introspection_reports_positions() {
    let shape = config_shape();
    assert_eq!(
        get_fields(&shape, b""),
        Some(FieldsType::Fields(vec![
            b".a".to_vec(),
            b".d".to_vec(),
            b".e".to_vec(),
            b".f".to_vec(),
        ]))
    );
    assert_eq!(
        get_fields(&shape, b".e"),
        Some(FieldsType::Fields(vec![b"::B".to_vec(), b"VARIANT".to_vec()]))
    );
    assert_eq!(get_fields(&shape, b".f"), Some(FieldsType::Arr(8)));
    assert_eq!(get_fields(&shape, b".f[0]"), Some(FieldsType::Terminal));
    assert_eq!(get_fields(&shape, b".a"), Some(FieldsType::Terminal));
    assert_eq!(get_fields(&shape, b".eVARIANT"), Some(FieldsType::Terminal));
    assert_eq!(get_fields(&shape, b".x"), None);
    assert_eq!(get_fields(&shape, b".f[8]"), None);
    assert_eq!(get_fields(&shape, b"::A"), None);
}
