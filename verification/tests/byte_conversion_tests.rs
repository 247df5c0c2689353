use grid2d::ByteConversion;
use std::fmt::Debug;

fn check_round_trips<T: ByteConversion + PartialEq + Debug + Copy>(
    start: T,
    steps: usize,
    next: fn(T, usize) -> T,
) {
    let mut value: T = start;
    for bit_index in 0..steps {
        assert_eq!(value, T::from_bytes(&value.as_bytes()).unwrap());
        assert_eq!(value, T::from_consume_bytes(&mut value.as_bytes()).unwrap());
        value = next(value, bit_index);
    }
}

#[test]
fn test_type_byte_conversion_u8() {
    check_round_trips::<u8>(1, 8, |value, bit_index| (value << 1) ^ (if bit_index % 4 == 0 { 1 } else { 0 }));
}

#[test]
fn test_type_byte_conversion_u16() {
    check_round_trips::<u16>(1, 2 * 8, |value, bit_index| {
        (value << 1) ^ (if bit_index % 4 == 0 { 1 } else { 0 })
    });
}

#[test]
fn test_type_byte_conversion_u32() {
    check_round_trips::<u32>(1, 4 * 8, |value, bit_index| {
        (value << 1) ^ (if bit_index % 4 == 0 { 1 } else { 0 })
    });
}

#[test]
fn test_type_byte_conversion_u64() {
    check_round_trips::<u64>(1, 8 * 8, |value, bit_index| {
        (value << 1) ^ (if bit_index % 4 == 0 { 1 } else { 0 })
    });
}

#[test]
fn test_type_byte_conversion_u128() {
    check_round_trips::<u128>(1, 16 * 8, |value, bit_index| {
        (value << 1) ^ (if bit_index % 4 == 0 { 1 } else { 0 })
    });
}

#[test]
fn test_type_byte_conversion_i8() {
    check_round_trips::<i8>(1, 8, |value, bit_index| (value << 1) ^ (if bit_index % 4 == 0 { 1 } else { 0 }));
}

#[test]
fn test_type_byte_conversion_i16() {
    check_round_trips::<i16>(1, 2 * 8, |value, bit_index| {
        (value << 1) ^ (if bit_index % 4 == 0 { 1 } else { 0 })
    });
}

#[test]
fn test_type_byte_conversion_i32() {
    check_round_trips::<i32>(1, 4 * 8, |value, bit_index| {
        (value << 1) ^ (if bit_index % 4 == 0 { 1 } else { 0 })
    });
}

#[test]
fn test_type_byte_conversion_i64() {
    check_round_trips::<i64>(1, 8 * 8, |value, bit_index| {
        (value << 1) ^ (if bit_index % 4 == 0 { 1 } else { 0 })
    });
}

#[test]
fn test_type_byte_conversion_i128() {
    check_round_trips::<i128>(1, 16 * 8, |value, bit_index| {
        (value << 1) ^ (if bit_index % 4 == 0 { 1 } else { 0 })
    });
}

#[test]
fn test_type_byte_conversion_f32() {
    const MIN: f32 = 0.0000000001;
    const MAX: f32 = 1000000000.0;

    let mut value: f32 = MIN;
    while value < MAX {
        assert_eq!(value, f32::from_bits(u32::from_bytes(&value.to_bits().as_bytes()).unwrap()));
        assert_eq!(
            value,
            f32::from_bits(u32::from_consume_bytes(&mut value.to_bits().as_bytes()).unwrap())
        );
        assert_eq!(value.to_bits().as_bytes(), value.to_be_bytes().to_vec());
        value = (value * 10.0) + MIN;
    }
}

#[test]
fn test_type_byte_conversion_f64() {
    const MIN: f64 = 0.0000000001;
    const MAX: f64 = 1000000000.0;

    let mut value: f64 = MIN;
    while value < MAX {
        assert_eq!(value, f64::from_bits(u64::from_bytes(&value.to_bits().as_bytes()).unwrap()));
        assert_eq!(
            value,
            f64::from_bits(u64::from_consume_bytes(&mut value.to_bits().as_bytes()).unwrap())
        );
        assert_eq!(value.to_bits().as_bytes(), value.to_be_bytes().to_vec());
        value = (value * 10.0) + MIN;
    }
}

#[test]
fn test_type_byte_conversion_bool() {
    for value in [true, false] {
        assert_eq!(value, bool::from_bytes(&value.as_bytes()).unwrap());
        assert_eq!(value, bool::from_consume_bytes(&mut value.as_bytes()).unwrap());
    }
}

#[test]
fn test_type_byte_conversion_string() {
    for value in [
        "test_lowercase",
        "TEST_UPPERCASE",
        "TEST_MIXED_CASE",
        "TEST_SPECIAL_CASE 1234567890!@#$%^&*()-_=+[]{};':\",>\\",
    ] {
        assert_eq!(value, String::from_bytes(&ByteConversion::as_bytes(&value.to_string())).unwrap());
        assert_eq!(
            value,
            String::from_consume_bytes(&mut ByteConversion::as_bytes(&value.to_string())).unwrap()
        );
    }
}

#[test]
fn test_type_byte_conversion_array() {
    let numbers_list: [u16; 25] =
        (0..25).map(|index| index * 25).collect::<Vec<u16>>().try_into().unwrap();
    assert_eq!(numbers_list, <[u16; 25]>::from_bytes(&numbers_list.as_bytes()).unwrap());
    assert_eq!(numbers_list, <[u16; 25]>::from_consume_bytes(&mut numbers_list.as_bytes()).unwrap());
}

#[test]
fn test_type_byte_conversion_list() {
    let numbers_list: Vec<u16> = (0..25).map(|index| index * 25).collect();
    assert_eq!(numbers_list, Vec::<u16>::from_bytes(&numbers_list.as_bytes()).unwrap());
    assert_eq!(numbers_list, Vec::<u16>::from_consume_bytes(&mut numbers_list.as_bytes()).unwrap());
}

#[test]
fn test_type_byte_conversion_recursive_list() {
    let numbers_list: Vec<Vec<u16>> = (0..2).map(|y| (0..3).map(|x| y * 10 + x).collect()).collect();
    assert_eq!(numbers_list, Vec::<Vec<u16>>::from_bytes(&numbers_list.as_bytes()).unwrap());
    assert_eq!(numbers_list, Vec::<Vec<u16>>::from_consume_bytes(&mut numbers_list.as_bytes()).unwrap());
}

#[test]
fn test_exact_bytes_of_numbers() {
    assert_eq!(0x0102u16.as_bytes(), vec![1, 2]);
    assert_eq!(0x01020304u32.as_bytes(), vec![1, 2, 3, 4]);
    assert_eq!((-2i16).as_bytes(), vec![0xFF, 0xFE]);
    assert_eq!(i32::MIN.as_bytes(), vec![0x80, 0, 0, 0]);
    assert_eq!((-1i128).as_bytes(), vec![0xFF; 16]);
    assert_eq!(i8::from_bytes(&[0x80]), Some(-128));
    assert_eq!(i64::from_bytes(&[0xFF; 8]), Some(-1));
    assert_eq!(u32::from_bytes(&[1, 2, 3]), None);
    assert_eq!(u32::bytes_size(&[]), 4);
    assert_eq!(true.as_bytes(), vec![1]);
    assert_eq!(bool::from_bytes(&[7]), Some(true));
    assert_eq!(bool::from_bytes(&[]), None);
}

#[test]
fn test_consume_leaves_the_rest() {
    let mut bytes: Vec<u8> = vec![0, 5, 9, 9];
    assert_eq!(u16::from_consume_bytes(&mut bytes), Some(5));
    assert_eq!(bytes, vec![9, 9]);
    assert_eq!(u32::from_consume_bytes(&mut bytes), None);
    assert_eq!(bytes, vec![9, 9]);
    assert_eq!(bool::from_consume_bytes(&mut bytes), Some(true));
    assert_eq!(bytes, vec![9]);
}

#[test]
fn test_exact_bytes_of_lists() {
    let list: Vec<u16> = vec![1, 2];
    assert_eq!(list.as_bytes(), vec![0, 0, 0, 2, 0, 1, 0, 2]);
    assert_eq!(Vec::<u16>::bytes_size(&[0, 0, 0, 1, 0, 7, 99, 99]), 6);
    assert_eq!(Vec::<u16>::bytes_size(&[0, 0, 0, 2, 0, 7]), 0);
    assert_eq!(Vec::<u16>::from_bytes(&[0, 0, 0, 1, 0, 7, 99]), None);
    assert_eq!(Vec::<u16>::from_bytes(&[0, 0, 0, 2, 0, 7]), None);
    assert_eq!(<[u16; 2]>::from_bytes(&[0, 0, 0, 1, 0, 7]), None);
    assert_eq!(ByteConversion::as_bytes(&"ab".to_string()), vec![0, 0, 0, 2, 97, 98]);
}

#[test]
fn test_nested_list_with_empty_last_list() {
    let lists: Vec<Vec<u16>> = vec![vec![1], vec![]];
    assert_eq!(lists, Vec::<Vec<u16>>::from_bytes(&lists.as_bytes()).unwrap());
    let empty: Vec<u8> = Vec::new();
    assert_eq!(empty, Vec::<u8>::from_bytes(&empty.as_bytes()).unwrap());
}
