use remote_obj::access::Error;
use remote_obj::codec::{dehydrate, hydrate};
use remote_obj::descriptor::Getter;
use remote_obj::leaf::{LeafKind, LeafVal};
use remote_obj::shape::Shape;
use remote_obj::value::Value;

fn bytes_of(v: LeafVal, cap: usize) -> (Option<usize>, Vec<u8>) {
    let mut buf = vec![0u8; cap];
    let n = dehydrate(&Value::Leaf(v), &mut buf);
    (n, buf)
}

#[test]
fn little_endian_fixed_width() {
    let (n, buf) = bytes_of(LeafVal::U8(0xab), 8);
    assert_eq!(n, Some(1));
    assert_eq!(&buf[..1], &[0xab]);

    let (n, buf) = bytes_of(LeafVal::U16(0x1234), 8);
    assert_eq!(n, Some(2));
    assert_eq!(&buf[..2], &[0x34, 0x12]);

    let (n, buf) = bytes_of(LeafVal::U32(0x0102_0304), 8);
    assert_eq!(n, Some(4));
    assert_eq!(&buf[..4], &[4, 3, 2, 1]);

    let (n, buf) = bytes_of(LeafVal::U64(0x0102_0304_0506_0708), 8);
    assert_eq!(n, Some(8));
    assert_eq!(&buf[..8], &[8, 7, 6, 5, 4, 3, 2, 1]);

    // two's complement for signed values
    let (n, buf) = bytes_of(LeafVal::I8(-2), 8);
    assert_eq!(n, Some(1));
    assert_eq!(&buf[..1], &[0xfe]);

    let (n, buf) = bytes_of(LeafVal::I16(-1), 8);
    assert_eq!(n, Some(2));
    assert_eq!(&buf[..2], &[0xff, 0xff]);

    let (n, buf) = bytes_of(LeafVal::I32(i32::MIN), 8);
    assert_eq!(n, Some(4));
    assert_eq!(&buf[..4], &[0, 0, 0, 0x80]);

    let (n, buf) = bytes_of(LeafVal::I64(-2), 8);
    assert_eq!(n, Some(8));
    assert_eq!(&buf[..8], &[0xfe, 0xff, 0xff, 0xff, 0xff, 0xff, 0xff, 0xff]);

    // the unit value writes zero bytes
    let (n, buf) = bytes_of(LeafVal::Unit, 2);
    assert_eq!(n, Some(0));
    assert_eq!(buf, vec![0, 0]);
}

#[test]
fn dehydrate_keeps_the_tail() {
    let mut buf = vec![9u8, 9, 9, 9];
    assert_eq!(dehydrate(&Value::Leaf(LeafVal::U16(0x0102)), &mut buf), Some(2));
    assert_eq!(buf, vec![2, 1, 9, 9]);
}

#[test]
fn dehydrate_short_buffer() {
    let mut buf = vec![7u8];
    assert_eq!(dehydrate(&Value::Leaf(LeafVal::U32(1)), &mut buf), None);
    assert_eq!(buf, vec![7]);
}

#[test]
fn hydrate_round_trips_every_kind() {
    let vals = [
        LeafVal::U8(0),
        LeafVal::U8(255),
        LeafVal::U16(0xfffe),
        LeafVal::U32(0xdead_beef),
        LeafVal::U64(u64::MAX),
        LeafVal::I8(-128),
        LeafVal::I8(127),
        LeafVal::I16(-300),
        LeafVal::I32(-1),
        LeafVal::I64(i64::MIN),
        LeafVal::I64(i64::MAX),
        LeafVal::Unit,
    ];
    for v in vals {
        let kind = match v {
            LeafVal::U8(_) => LeafKind::U8,
            LeafVal::U16(_) => LeafKind::U16,
            LeafVal::U32(_) => LeafKind::U32,
            LeafVal::U64(_) => LeafKind::U64,
            LeafVal::I8(_) => LeafKind::I8,
            LeafVal::I16(_) => LeafKind::I16,
            LeafVal::I32(_) => LeafKind::I32,
            LeafVal::I64(_) => LeafKind::I64,
            LeafVal::Unit => LeafKind::Unit,
        };
        let shape = Shape::Leaf(kind);
        let mut buf = vec![0u8; 8];
        let n = dehydrate(&Value::Leaf(v), &mut buf).unwrap();
        let (rv, m) = hydrate(&shape, &Getter::Terminal, &buf).unwrap();
        assert_eq!(m, n);
        assert_eq!(rv, Value::Leaf(v));
    }
}

#[test]
fn hydrate_too_short() {
    let shape = Shape::Leaf(LeafKind::U64);
    let buf = vec![0u8; 7];
    assert_eq!(hydrate(&shape, &Getter::Terminal, &buf), Err(Error::TooShort));
}
