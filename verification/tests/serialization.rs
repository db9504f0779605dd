use chat_base::error::NetError;
use chat_base::serialization::{serialize_slice, ReadWrite, Serializable, Test};

fn write_all<T: Serializable>(value: &mut T) -> Vec<u8> {
    let mut direction = ReadWrite::writing();
    value.serialize(&mut direction).unwrap();
    direction.flush()
}

fn read_back<T: Serializable>(bytes: Vec<u8>, into: &mut T) -> (Result<(), NetError>, ReadWrite) {
    let mut direction = ReadWrite::reading(bytes);
    let r = into.serialize(&mut direction);
    (r, direction)
}

#[test]
fn macro_test() -> Result<(), NetError> {
    let mut from = Test { name: "Correct".to_string(), age: 42 };
    let mut to = Test { name: "Incorrect".to_string(), age: -42 };

    let mut write = ReadWrite::writing();
    from.serialize(&mut write)?;

    let mut read = ReadWrite::reading(write.flush());
    to.serialize(&mut read)?;

    assert_eq!(to.name, from.name);
    assert_eq!(to.age, from.age);
    Ok(())
}

#[test]
fn test_bytes_of_test_struct() {
    let mut t = Test { name: "ab".to_string(), age: -2 };
    assert_eq!(write_all(&mut t), vec![2, 0, 0, 0, b'a', b'b', 0xfe, 0xff, 0xff, 0xff]);
}

#[test]
fn integers_are_little_endian() {
    assert_eq!(write_all(&mut 0x0102u16), vec![2, 1]);
    assert_eq!(write_all(&mut 0x0102_0304u32), vec![4, 3, 2, 1]);
    assert_eq!(write_all(&mut 0x0102_0304_0506_0708u64), vec![8, 7, 6, 5, 4, 3, 2, 1]);
    let mut big: u128 = 1u128 << 120;
    let mut expected = vec![0u8; 16];
    expected[15] = 1;
    assert_eq!(write_all(&mut big), expected);
    assert_eq!(write_all(&mut -1i8), vec![0xff]);
    assert_eq!(write_all(&mut -2i16), vec![0xfe, 0xff]);
    assert_eq!(write_all(&mut i32::MIN), vec![0, 0, 0, 0x80]);
    assert_eq!(write_all(&mut -1i64), vec![0xff; 8]);
    let mut min128 = i128::MIN;
    let mut expected = vec![0u8; 16];
    expected[15] = 0x80;
    assert_eq!(write_all(&mut min128), expected);
    assert_eq!(write_all(&mut 7u8), vec![7]);
}

#[test]
fn integers_round_trip() {
    let mut values: Vec<i64> = vec![0, 1, -1, i64::MIN, i64::MAX, 123456789];
    for v in values.iter_mut() {
        let bytes = write_all(v);
        let mut back: i64 = 99;
        let (r, _) = read_back(bytes, &mut back);
        assert_eq!(r, Ok(()));
        assert_eq!(back, *v);
    }
    let mut x: i128 = -170141183460469231731687303715884105728;
    let bytes = write_all(&mut x);
    let mut back: i128 = 0;
    assert_eq!(read_back(bytes, &mut back).0, Ok(()));
    assert_eq!(back, x);
    let mut y: u128 = u128::MAX;
    let bytes = write_all(&mut y);
    let mut back: u128 = 0;
    assert_eq!(read_back(bytes, &mut back).0, Ok(()));
    assert_eq!(back, u128::MAX);
}

#[test]
fn bool_bytes_and_reading() {
    assert_eq!(write_all(&mut true), vec![1]);
    assert_eq!(write_all(&mut false), vec![0]);
    let mut b = false;
    assert_eq!(read_back(vec![7], &mut b).0, Ok(()));
    assert!(b);
    assert_eq!(read_back(vec![0], &mut b).0, Ok(()));
    assert!(!b);
}

#[test]
fn vec_has_u32_length_prefix() {
    let mut v: Vec<u16> = vec![1, 2];
    assert_eq!(write_all(&mut v), vec![2, 0, 0, 0, 1, 0, 2, 0]);
    let mut back: Vec<u16> = vec![9, 9, 9];
    let (r, _) = read_back(vec![2, 0, 0, 0, 1, 0, 2, 0], &mut back);
    assert_eq!(r, Ok(()));
    assert_eq!(back, vec![1, 2]);
}

#[test]
fn string_is_length_and_utf8() {
    let mut s = "hé".to_string();
    assert_eq!(write_all(&mut s), vec![3, 0, 0, 0, b'h', 0xc3, 0xa9]);
    let mut back = String::new();
    let (r, _) = read_back(vec![3, 0, 0, 0, b'h', 0xc3, 0xa9, 42], &mut back);
    assert_eq!(r, Ok(()));
    assert_eq!(back, "hé");
}

#[test]
fn invalid_utf8_is_invalid_data_after_its_bytes() {
    let mut back = "keep".to_string();
    let mut direction = ReadWrite::reading(vec![1, 0, 0, 0, 0xff, 5]);
    let r = back.serialize(&mut direction);
    assert_eq!(r, Err(NetError::InvalidData));
    assert_eq!(back, "keep");
    // the string's bytes were consumed: the next byte is the one after them
    assert_eq!(direction.position(), 5);
    let mut b: u8 = 0;
    assert_eq!(b.serialize(&mut direction), Ok(()));
    assert_eq!(b, 5);
}

#[test]
fn too_few_bytes_is_unexpected_eof_after_consuming_them() {
    let mut n: u32 = 5;
    let mut direction = ReadWrite::reading(vec![1, 2, 3]);
    assert_eq!(n.serialize(&mut direction), Err(NetError::UnexpectedEof));
    assert_eq!(n, 5);
    assert_eq!(direction.position(), 3);
    direction.rewind(0);
    direction.receive(&[4]);
    assert_eq!(n.serialize(&mut direction), Ok(()));
    assert_eq!(n, 0x0403_0201);
}

#[test]
fn failed_vector_read_resizes_and_fills_a_prefix() {
    let mut v: Vec<u8> = vec![7, 7, 7, 7, 7];
    let (r, direction) = read_back(vec![2, 0, 0, 0, 9], &mut v);
    assert_eq!(r, Err(NetError::UnexpectedEof));
    assert_eq!(v, vec![9, 7]);
    assert_eq!(direction.position(), 5);

    let mut w: Vec<u8> = vec![7];
    let (r, _) = read_back(vec![3, 0, 0, 0, 1, 2], &mut w);
    assert_eq!(r, Err(NetError::UnexpectedEof));
    assert_eq!(w, vec![1, 2, 0]);

    let mut u: Vec<u16> = vec![4];
    let (r, _) = read_back(vec![1, 0], &mut u);
    assert_eq!(r, Err(NetError::UnexpectedEof));
    assert_eq!(u, vec![4]);
}

#[test]
fn failed_test_read_keeps_the_name_read() {
    let mut t = Test { name: "old".to_string(), age: 3 };
    let (r, direction) = read_back(vec![2, 0, 0, 0, b'n', b'w', 1, 2], &mut t);
    assert_eq!(r, Err(NetError::UnexpectedEof));
    assert_eq!(t.name, "nw");
    assert_eq!(t.age, 3);
    assert_eq!(direction.position(), 8);
}

#[test]
fn option_has_presence_flag() {
    let mut some: Option<u16> = Some(0x0102);
    assert_eq!(write_all(&mut some), vec![1, 2, 1]);
    let mut none: Option<u16> = None;
    assert_eq!(write_all(&mut none), vec![0]);
    let mut back: Option<u16> = None;
    assert_eq!(read_back(vec![1, 5, 0], &mut back).0, Ok(()));
    assert_eq!(back, Some(5));
    assert_eq!(read_back(vec![0], &mut back).0, Ok(()));
    assert_eq!(back, None);
    let mut back: Option<u16> = Some(3);
    let (r, direction) = read_back(vec![1, 5], &mut back);
    assert_eq!(r, Err(NetError::UnexpectedEof));
    assert_eq!(back, Some(3));
    assert_eq!(direction.position(), 2);
}

#[test]
fn discarding_consumed_bytes_keeps_the_rest() {
    let mut direction = ReadWrite::reading(vec![1, 2, 3]);
    let mut b: u8 = 0;
    b.serialize(&mut direction).unwrap();
    direction.discard_consumed();
    assert_eq!(direction.position(), 0);
    b.serialize(&mut direction).unwrap();
    assert_eq!(b, 2);
}

#[test]
fn flush_hands_over_and_empties() {
    let mut direction = ReadWrite::writing();
    let mut a: u8 = 1;
    a.serialize(&mut direction).unwrap();
    assert_eq!(direction.flush(), vec![1]);
    assert_eq!(direction.flush(), Vec::<u8>::new());
    let mut r = ReadWrite::reading(vec![1, 2]);
    assert_eq!(r.flush(), Vec::<u8>::new());
    assert!(!r.is_write());
    assert!(direction.is_write());
}

#[test]
fn slices_go_without_length() {
    let mut items: [u16; 2] = [1, 0x0203];
    let mut direction = ReadWrite::writing();
    assert_eq!(serialize_slice(&mut items, &mut direction), Ok(()));
    assert_eq!(direction.flush(), vec![1, 0, 3, 2]);

    let mut back: [u16; 3] = [0; 3];
    let mut reading = ReadWrite::reading(vec![5, 0, 6, 0, 7]);
    assert_eq!(serialize_slice(&mut back, &mut reading), Err(NetError::UnexpectedEof));
    assert_eq!(back, [5, 6, 0]);
    assert_eq!(reading.position(), 5);
}
