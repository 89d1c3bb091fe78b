use blokhain::encoding::{bytes_equal, push_decimal, push_le_bytes};

#[test]
fn decimal_text_of_numbers() {
    let mut out = vec![7u8];
    push_decimal(&mut out, 1234);
    assert_eq!(out, vec![7, b'1', b'2', b'3', b'4']);
    let mut zero = Vec::new();
    push_decimal(&mut zero, 0);
    assert_eq!(zero, b"0".to_vec());
    let mut max = Vec::new();
    push_decimal(&mut max, u64::MAX);
    assert_eq!(max, u64::MAX.to_string().into_bytes());
}

#[test]
fn little_endian_bytes() {
    let mut out = vec![9u8];
    push_le_bytes(&mut out, 0x0102030405060708);
    assert_eq!(out, vec![9, 8, 7, 6, 5, 4, 3, 2, 1]);
    let mut max = Vec::new();
    push_le_bytes(&mut max, u64::MAX);
    assert_eq!(max, vec![255; 8]);
}

#[test]
fn byte_equality() {
    assert!(bytes_equal(&vec![1, 2], &vec![1, 2]));
    assert!(!bytes_equal(&vec![1, 2], &vec![1, 3]));
    assert!(!bytes_equal(&vec![1, 2], &vec![1]));
    assert!(bytes_equal(&vec![], &vec![]));
}
