use cw_storage_plus::codec::{decode_i128, decode_i16, decode_i32, decode_i64, decode_i8, decode_u128, decode_u16, decode_u32, decode_u64, decode_u8};

#[test]
fn deserialize_naked_integer_works() {
    assert_eq!(decode_u8(&[1]).unwrap(), 1u8);
    assert_eq!(decode_i8(&[127]).unwrap(), -1i8);
    assert_eq!(decode_i8(&[128]).unwrap(), 0i8);

    assert_eq!(decode_u16(&[1, 0]).unwrap(), 256u16);
    assert_eq!(decode_i16(&[128, 0]).unwrap(), 0i16);
    assert_eq!(decode_i16(&[127, 255]).unwrap(), -1i16);

    assert_eq!(decode_u32(&[1, 0, 0, 0]).unwrap(), 16777216u32);
    assert_eq!(decode_i32(&[128, 0, 0, 0]).unwrap(), 0i32);
    assert_eq!(decode_i32(&[127, 255, 255, 255]).unwrap(), -1i32);

    assert_eq!(
        decode_u64(&[1, 0, 0, 0, 0, 0, 0, 0]).unwrap(),
        72057594037927936u64
    );
    assert_eq!(decode_i64(&[128, 0, 0, 0, 0, 0, 0, 0]).unwrap(), 0i64);
    assert_eq!(
        decode_i64(&[127, 255, 255, 255, 255, 255, 255, 255]).unwrap(),
        -1i64
    );

    assert_eq!(
        decode_u128(&[1, 0, 0, 0, 0, 0, 0, 0, 0, 0, 0, 0, 0, 0, 0, 0]).unwrap(),
        1329227995784915872903807060280344576u128
    );
    assert_eq!(
        decode_i128(&[128, 0, 0, 0, 0, 0, 0, 0, 0, 0, 0, 0, 0, 0, 0, 0]).unwrap(),
        0i128
    );
    assert_eq!(
        decode_i128(&[
            127, 255, 255, 255, 255, 255, 255, 255, 255, 255, 255, 255, 255, 255, 255, 255
        ])
        .unwrap(),
        -1i128
    );
    assert_eq!(
        decode_i128(&[
            255, 255, 255, 255, 255, 255, 255, 255, 255, 255, 255, 255, 255, 255, 255, 255
        ])
        .unwrap(),
        170141183460469231731687303715884105727i128,
    );
}

use cw_storage_plus::codec::{
    decode_fixed, decode_text, encode_i32, encode_i64, encode_i8, encode_text, encode_u16, encode_u32,
    encode_u64, encode_u8, join_key, split_first_key, split_key,
};
use cw_storage_plus::StorageError;

const BYTES: &[u8] = b"Hello";
const STRING: &str = "Hello";

#[test]
fn deserialize_empty_works() {
    assert_eq!(split_key(0, BYTES).unwrap(), Vec::<Vec<u8>>::new());
}

#[test]
fn deserialize_bytes_works() {
    assert_eq!(split_key(1, BYTES).unwrap(), vec![BYTES.to_vec()]);
    assert_eq!(decode_fixed(BYTES, 5).unwrap(), BYTES);
    assert_eq!(decode_fixed(BYTES, 4), Err(StorageError::Decode));
}

#[test]
fn deserialize_string_works() {
    assert_eq!(decode_text(BYTES).unwrap(), STRING);
}

#[test]
fn decode_text_rejects_invalid_utf8() {
    assert_eq!(decode_text(b"\xc3"), Err(StorageError::Decode));
    assert_eq!(decode_text(b"\xddim"), Err(StorageError::Decode));
}

#[test]
fn deserialize_tuple_works() {
    let joined = join_key(&vec![BYTES.to_vec(), encode_text(STRING)]);
    let atoms = split_key(2, &joined).unwrap();
    assert_eq!(atoms[0], BYTES.to_vec());
    assert_eq!(decode_text(&atoms[1]).unwrap(), STRING.to_string());
}

#[test]
fn deserialize_tuple_of_tuples_works() {
    let joined = join_key(&vec![
        BYTES.to_vec(),
        encode_text(STRING),
        BYTES.to_vec(),
        encode_text(STRING),
    ]);
    let (first, second) = split_first_key(2, &joined).unwrap();
    let first = split_key(2, &first).unwrap();
    let second = split_key(2, &second).unwrap();
    assert_eq!(
        (
            (first[0].clone(), decode_text(&first[1]).unwrap()),
            (second[0].clone(), decode_text(&second[1]).unwrap())
        ),
        (
            (BYTES.to_vec(), STRING.to_string()),
            (BYTES.to_vec(), STRING.to_string())
        )
    );
}

#[test]
fn deserialize_tuple_of_triples_works() {
    let joined = join_key(&vec![
        BYTES.to_vec(),
        encode_text(STRING),
        encode_u32(1234),
        BYTES.to_vec(),
        encode_text(STRING),
        encode_u16(567),
    ]);
    let (first, second) = split_first_key(3, &joined).unwrap();
    let first = split_key(3, &first).unwrap();
    let second = split_key(3, &second).unwrap();
    assert_eq!(
        (
            (first[0].clone(), decode_text(&first[1]).unwrap(), decode_u32(&first[2]).unwrap()),
            (second[0].clone(), decode_text(&second[1]).unwrap(), decode_u16(&second[2]).unwrap())
        ),
        (
            (BYTES.to_vec(), STRING.to_string(), 1234),
            (BYTES.to_vec(), STRING.to_string(), 567)
        )
    );
}

#[test]
fn deserialize_triple_of_tuples_works() {
    let joined = join_key(&vec![
        encode_u32(1234),
        encode_text(STRING),
        encode_text(STRING),
        BYTES.to_vec(),
        encode_i32(1234),
        encode_i32(567),
    ]);
    let (first, rest) = split_first_key(2, &joined).unwrap();
    let (second, third) = split_first_key(2, &rest).unwrap();
    let first = split_key(2, &first).unwrap();
    let second = split_key(2, &second).unwrap();
    let third = split_key(2, &third).unwrap();
    assert_eq!(
        (
            (decode_u32(&first[0]).unwrap(), decode_text(&first[1]).unwrap()),
            (decode_text(&second[0]).unwrap(), second[1].clone()),
            (decode_i32(&third[0]).unwrap(), decode_i32(&third[1]).unwrap())
        ),
        (
            (1234, STRING.to_string()),
            (STRING.to_string(), BYTES.to_vec()),
            (1234, 567)
        )
    );
}

#[test]
fn deserialize_triple_of_triples_works() {
    let joined = join_key(&vec![
        encode_u32(1234),
        encode_text(STRING),
        encode_text(STRING),
        encode_text(STRING),
        BYTES.to_vec(),
        encode_u8(123),
        encode_i32(4567),
        encode_u8(89),
        encode_i32(10),
    ]);
    let (first, rest) = split_first_key(3, &joined).unwrap();
    let (second, third) = split_first_key(3, &rest).unwrap();
    let first = split_key(3, &first).unwrap();
    let second = split_key(3, &second).unwrap();
    let third = split_key(3, &third).unwrap();
    assert_eq!(
        (
            (decode_u32(&first[0]).unwrap(), decode_text(&first[1]).unwrap(), decode_text(&first[2]).unwrap()),
            (decode_text(&second[0]).unwrap(), second[1].clone(), decode_u8(&second[2]).unwrap()),
            (decode_i32(&third[0]).unwrap(), decode_u8(&third[1]).unwrap(), decode_i32(&third[2]).unwrap())
        ),
        (
            (1234, STRING.to_string(), STRING.to_string()),
            (STRING.to_string(), BYTES.to_vec(), 123),
            (4567, 89, 10)
        )
    );
}

#[test]
fn deserialize_triple_works() {
    let joined = join_key(&vec![BYTES.to_vec(), encode_u32(1234), encode_text(STRING)]);
    let atoms = split_key(3, &joined).unwrap();
    assert_eq!(
        (atoms[0].clone(), decode_u32(&atoms[1]).unwrap(), decode_text(&atoms[2]).unwrap()),
        (BYTES.to_vec(), 1234, STRING.to_string())
    );
}

#[test]
fn integer_encodings_are_exact() {
    assert_eq!(encode_u32(16777216), vec![1, 0, 0, 0]);
    assert_eq!(encode_i8(-1), vec![127]);
    assert_eq!(encode_i8(i8::MIN), vec![0]);
    assert_eq!(encode_i8(i8::MAX), vec![255]);
    assert_eq!(encode_i32(0), vec![128, 0, 0, 0]);
    assert_eq!(encode_i64(-1), vec![127, 255, 255, 255, 255, 255, 255, 255]);
    assert_eq!(encode_u64(1), vec![0, 0, 0, 0, 0, 0, 0, 1]);
}

#[test]
fn integer_round_trips() {
    for v in [i32::MIN, -70000, -1, 0, 1, 255, 70000, i32::MAX] {
        assert_eq!(decode_i32(&encode_i32(v)).unwrap(), v);
    }
    for v in [0u64, 1, 256, u64::MAX] {
        assert_eq!(decode_u64(&encode_u64(v)).unwrap(), v);
    }
    for v in [i8::MIN, -1, 0, i8::MAX] {
        assert_eq!(decode_i8(&encode_i8(v)).unwrap(), v);
    }
    assert_eq!(decode_text(&encode_text("grüße")).unwrap(), "grüße");
}

#[test]
fn integer_order_is_byte_order() {
    let values = [i64::MIN, -1000, -1, 0, 1, 1000, i64::MAX];
    for a in values {
        for b in values {
            assert_eq!(a < b, encode_i64(a) < encode_i64(b));
        }
    }
    let unsigned = [0u16, 1, 255, 256, u16::MAX];
    for a in unsigned {
        for b in unsigned {
            assert_eq!(a < b, encode_u16(a) < encode_u16(b));
        }
    }
}

#[test]
fn wrong_width_fails_to_decode() {
    assert_eq!(decode_u32(&[1, 2, 3]), Err(StorageError::Decode));
    assert_eq!(decode_i64(&[]), Err(StorageError::Decode));
}

#[test]
fn split_and_join_are_inverse() {
    let atoms = vec![b"owner".to_vec(), vec![], encode_u64(7)];
    let joined = join_key(&atoms);
    assert_eq!(joined, [vec![0, 5], b"owner".to_vec(), vec![0, 0], encode_u64(7)].concat());
    assert_eq!(split_key(3, &joined).unwrap(), atoms);
    assert_eq!(split_key(1, b"abc").unwrap(), vec![b"abc".to_vec()]);
}

#[test]
fn bad_length_header_fails_to_split() {
    assert_eq!(split_first_key(1, &[0, 9, 1, 2]), Err(StorageError::Decode));
    assert_eq!(split_first_key(1, &[0]), Err(StorageError::Decode));
    assert_eq!(split_key(2, &[0, 3, b'a']), Err(StorageError::Decode));
}

#[test]
fn error_messages() {
    assert_eq!(StorageError::NotFound.message(), "not found");
    assert_eq!(StorageError::Decode.message(), "invalid key encoding");
    assert_eq!(StorageError::UniqueConstraintViolation.message(), "unique constraint violated");
    assert_eq!(StorageError::InvariantViolation.message(), "storage invariant violated");
}
