use combinatorial_coding::position::{decode_flags, decode_position, encode_flags, encode_position};

fn is_interesting(x: &u8) -> bool {
    *x != 0
}

fn examples() -> Vec<([u8; 12], usize)> {
    vec![
        ([0, 0, 0, 0, 0, 0, 0, 0, 1, 1, 1, 1], 0),
        ([0, 0, 0, 0, 0, 0, 0, 1, 0, 1, 1, 1], 1),
        ([0, 0, 0, 0, 0, 0, 1, 0, 0, 1, 1, 1], 2),
        ([1, 0, 0, 0, 0, 0, 0, 0, 0, 1, 1, 1], 8),
        ([0, 0, 0, 0, 0, 0, 0, 1, 1, 0, 1, 1], 9),
        ([0, 0, 0, 1, 0, 0, 1, 0, 0, 1, 0, 1], 62),
        ([1, 1, 1, 0, 0, 0, 0, 0, 0, 0, 0, 1], 164),
        ([0, 0, 0, 0, 0, 0, 0, 1, 1, 1, 1, 0], 165),
        ([0, 1, 0, 0, 1, 0, 0, 0, 1, 1, 0, 0], 305),
        ([1, 1, 1, 1, 0, 0, 0, 0, 0, 0, 0, 0], 494),
    ]
}

#[test]
fn test_encode_position() {
    for (data, position) in examples().iter() {
        assert_eq!(Ok(*position), encode_position(data, &is_interesting));
    }
}

#[test]
fn test_encode_position_fails_with_too_small_type() {
    assert!(
        encode_position::<_, u8>(&[1, 1, 1, 1, 0, 0, 0, 0, 0, 0, 0, 0], &is_interesting)
            .is_err()
    )
}

#[test]
fn test_decode_position() {
    for (data, position) in examples().iter() {
        let expected = data.iter().map(is_interesting).collect::<Vec<_>>();
        let num_interesting = expected.iter().filter(|x| **x).count();
        assert_eq!(
            Ok(expected),
            decode_position(*position, num_interesting, data.len())
        );
    }
}

#[test]
fn position_code_of_no_marks_is_zero() {
    assert_eq!(encode_flags(&[false, false, false]), 0);
    assert_eq!(decode_flags(0, 0, 3), vec![false, false, false]);
}

#[test]
fn position_code_of_empty_marking_is_zero() {
    assert_eq!(encode_flags(&[]), 0);
    assert_eq!(decode_flags(0, 0, 0), Vec::<bool>::new());
}

#[test]
fn position_code_ignores_places_before_the_first_mark() {
    // places 0 and 1 precede the first mark; place 3 adds C(3, 0) = 1
    assert_eq!(encode_flags(&[false, false, true, false]), 1);
    // place 1 adds C(1, 0) = 1, place 3 adds C(3, 1) = 3
    assert_eq!(encode_flags(&[true, false, true, false]), 4);
}

#[test]
fn position_codes_of_two_marks_in_four_places_are_all_distinct() {
    let mut seen = vec![false; 6];
    for a in 0..4usize {
        for b in (a + 1)..4usize {
            let mut flags = vec![false; 4];
            flags[a] = true;
            flags[b] = true;
            let code = encode_flags(&flags);
            assert!(code < 6);
            assert!(!seen[code]);
            seen[code] = true;
            assert_eq!(decode_flags(code, 2, 4), flags);
        }
    }
}

#[test]
fn position_decode_reads_negative_code_as_error() {
    assert!(decode_position(-1i32, 4, 12).is_err());
}

#[test]
fn position_decode_of_wide_code() {
    assert_eq!(
        decode_position(494u64, 4, 12),
        Ok(vec![true, true, true, true, false, false, false, false, false, false, false, false])
    );
}
