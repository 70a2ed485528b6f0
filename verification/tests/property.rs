use combinatorial_coding::property::{
    decode_digits, decode_property, digit_of_char, encode_digits, encode_property,
};

const SEQ: [u8; 8] = [3, 6, 5, 7, 0, 2, 1, 4];
const PROP: [u8; 8] = [2, 0, 0, 1, 1, 0, 0, 2];

fn mapping(x: &u8) -> u8 {
    match *x {
        3 | 4 => 2,
        7 | 0 => 1,
        6 | 5 | 2 | 1 => 0,
        _ => panic!("should only be called with values from seq"),
    }
}

#[test]
fn test_encode_property() {
    // 2*3^6 + 0*3^5 + 0*3^4 + 1*3^3 +1*3^2 + 0*3^1 + 0*3^0 = 1494
    // The last ternary digit is not encoded as it can be reconstituted by parity:
    // the sum of all terms must be a multiple of the radix
    assert_eq!(Ok(1494), encode_property(&SEQ, &mapping, 3));
}

#[test]
fn test_encode_property_fails_with_too_small_type() {
    assert!(encode_property::<_, u8>(&SEQ, &mapping, 3).is_err());
}

#[test]
fn test_decode_property() {
    assert_eq!(Ok(PROP.to_vec()), decode_property(1494, 3, 8));
}

#[test]
fn property_digits_encode_by_place_value() {
    assert_eq!(encode_digits(&PROP[..7], 3), 1494);
    // 1*36 + 35
    assert_eq!(encode_digits(&[1, 35], 36), 71);
    assert_eq!(encode_digits(&[0, 0, 1], 2), 1);
    assert_eq!(encode_digits(&[], 7), 0);
}

#[test]
fn property_decode_pads_with_leading_zeros() {
    // 5 is "12" in base 3; the stored digits are 0,0,1,2 and 1+2 is a multiple of 3
    assert_eq!(decode_digits(5, 3, 5), vec![0, 0, 1, 2, 0]);
    assert_eq!(decode_digits(0, 3, 4), vec![0, 0, 0, 0]);
}

#[test]
fn property_decode_last_digit_completes_the_sum() {
    // 7 is "21" in base 3: 2 + 1 + 0 = 3
    assert_eq!(decode_digits(7, 3, 3), vec![2, 1, 0]);
    // 4 is "11" in base 3: 1 + 1 + 1 = 3
    assert_eq!(decode_digits(4, 3, 3), vec![1, 1, 1]);
    // 1 in base 2: 1 + 1 = 2
    assert_eq!(decode_digits(1, 2, 2), vec![1, 1]);
}

#[test]
fn property_decode_reads_letter_digits() {
    // 35*36 + 10 = 1270 is "za" in base 36; 35 + 10 + 27 = 72 = 2*36
    assert_eq!(decode_digits(1270, 36, 3), vec![35, 10, 27]);
    // 11 is "b" in base 12
    assert_eq!(decode_digits(11, 12, 2), vec![11, 1]);
    // bases that the formatter hands to the standard library
    assert_eq!(decode_digits(255, 16, 3), vec![15, 15, 2]);
    assert_eq!(decode_digits(19, 10, 3), vec![1, 9, 0]);
    assert_eq!(decode_digits(8, 8, 3), vec![1, 0, 7]);
    assert_eq!(decode_digits(6, 2, 4), vec![1, 1, 0, 0]);
}

#[test]
fn property_round_trip_on_ternary_digits() {
    for a in 0..3u8 {
        for b in 0..3u8 {
            for c in 0..3u8 {
                let last = (3 - (a + b + c) % 3) % 3;
                let digits = vec![a, b, c, last];
                let code = encode_digits(&digits[..3], 3);
                assert!(code < 27);
                assert_eq!(decode_digits(code, 3, 4), digits);
            }
        }
    }
}

#[test]
fn property_decode_reads_negative_code_as_error() {
    assert!(decode_property(-5i64, 3, 8).is_err());
}

#[test]
fn property_digit_of_char() {
    assert_eq!(digit_of_char('0'), 0);
    assert_eq!(digit_of_char('9'), 9);
    assert_eq!(digit_of_char('a'), 10);
    assert_eq!(digit_of_char('z'), 35);
}
