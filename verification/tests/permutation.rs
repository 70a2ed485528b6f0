use combinatorial_coding::permutation::{
    decode_permutation, encode_permutation, sorted_pool, PermutationCounts,
};
use rand::seq::SliceRandom;
use rand::thread_rng;

const SEQ: [u8; 8] = [3, 6, 5, 7, 0, 2, 1, 4];

#[test]
fn test_encode_permutation() {
    assert_eq!(Ok(21021), encode_permutation(&SEQ));
}

#[test]
fn test_encode_permutation_fails_with_too_small_type() {
    assert!(encode_permutation::<_, u8>(&SEQ).is_err());
}

#[test]
fn test_decode_permutation() {
    let seq = SEQ.to_vec();
    let mut rng = thread_rng();
    let mut shuffled = seq.clone();
    shuffled.shuffle(&mut rng);
    assert_eq!(decode_permutation(21021, &shuffled), Ok(seq));
}

#[test]
fn permutation_count_vector_of_the_example() {
    // shuffled: 3, 6, 5, 7, 0, 2, 1, 4
    // counts:   0, 1, 1, 3, 0, 1, 1, 4
    let counts = PermutationCounts::from_data(&SEQ);
    assert_eq!(counts.counts, vec![0, 1, 1, 3, 0, 1, 1, 4]);
    // 0*0! + 1*1! + 1*2! + 3*3! + 0*4! + 1*5! + 1*6! + 4*7! == 21021
    assert_eq!(counts.encode(), 21021);
}

#[test]
fn permutation_factorial_digits_of_the_example() {
    let counts = PermutationCounts::decode(21021, 8);
    assert_eq!(counts.counts, vec![0, 1, 1, 3, 0, 1, 1, 4]);
    assert_eq!(counts.apply(&[0u8, 1, 2, 3, 4, 5, 6, 7]), SEQ.to_vec());
}

#[test]
fn permutation_weight_of_a_count() {
    assert_eq!(PermutationCounts::encode_count((0, 0)), 0);
    assert_eq!(PermutationCounts::encode_count((3, 2)), 12);
    assert_eq!(PermutationCounts::encode_count((7, 4)), 20160);
    assert_eq!(PermutationCounts::encode_count((12, 1)), 479001600);
}

#[test]
fn permutation_digit_comes_off_the_code() {
    let mut rest: usize = 21021;
    assert_eq!(PermutationCounts::decode_count(7, &mut rest), 4);
    assert_eq!(rest, 861);
    assert_eq!(PermutationCounts::decode_count(6, &mut rest), 1);
    assert_eq!(rest, 141);
}

#[test]
fn permutation_count_of_smaller_entries_to_the_left() {
    assert_eq!(PermutationCounts::calculate_count(3, &7u8, &SEQ), 3);
    assert_eq!(PermutationCounts::calculate_count(7, &4u8, &SEQ), 4);
    assert_eq!(PermutationCounts::calculate_count(0, &4u8, &SEQ), 0);
    // more places than entries: all entries count
    assert_eq!(PermutationCounts::calculate_count(20, &4u8, &SEQ), 4);
}

#[test]
fn permutation_pool_is_sorted() {
    let pool = sorted_pool(&SEQ);
    let values: Vec<u8> = pool.iter().map(|x| **x).collect();
    assert_eq!(values, vec![0, 1, 2, 3, 4, 5, 6, 7]);
}

#[test]
fn permutation_nth_smallest_leaves_the_pool() {
    let mut pool = sorted_pool(&SEQ);
    assert_eq!(*PermutationCounts::nth_smallest(4, &mut pool), 4);
    assert_eq!(*PermutationCounts::nth_smallest(4, &mut pool), 5);
    assert_eq!(*PermutationCounts::nth_smallest(0, &mut pool), 0);
    assert_eq!(pool.len(), 5);
}

#[test]
fn permutation_sorted_ascending_has_the_highest_code() {
    // every count is as large as its place allows: 1*1! + 2*2! + 3*3! = 23 = 4! - 1
    assert_eq!(Ok(23u8), encode_permutation(&[10u32, 20, 30, 40]));
    assert_eq!(Ok(0u8), encode_permutation(&[40u32, 30, 20, 10]));
    assert_eq!(decode_permutation(23u8, &[30u32, 10, 40, 20]), Ok(vec![10, 20, 30, 40]));
    assert_eq!(decode_permutation(0u8, &[30u32, 10, 40, 20]), Ok(vec![40, 30, 20, 10]));
}

#[test]
fn permutation_of_nothing_and_of_one() {
    let nothing: [u8; 0] = [];
    assert_eq!(Ok(0usize), encode_permutation(&nothing));
    assert_eq!(decode_permutation(0usize, &nothing), Ok(vec![]));
    assert_eq!(Ok(0usize), encode_permutation(&["only"]));
    assert_eq!(decode_permutation(0usize, &["only"]), Ok(vec!["only"]));
}

#[test]
fn permutation_round_trip_over_all_orders_of_four() {
    let reference = [2u16, 9, 4, 7];
    let mut seen = vec![false; 24];
    for a in 0..4 {
        for b in 0..4 {
            for c in 0..4 {
                for d in 0..4 {
                    if a == b || a == c || a == d || b == c || b == d || c == d {
                        continue;
                    }
                    let p = vec![reference[a], reference[b], reference[c], reference[d]];
                    let code: usize = encode_permutation(&p).unwrap();
                    assert!(code < 24);
                    assert!(!seen[code]);
                    seen[code] = true;
                    assert_eq!(decode_permutation(code, &reference), Ok(p));
                }
            }
        }
    }
}

#[test]
fn permutation_code_of_twelve_fits_32_bits() {
    let ascending: Vec<u8> = (0..12).collect();
    // 12! - 1
    assert_eq!(Ok(479001599u32), encode_permutation(&ascending));
    assert!(encode_permutation::<_, u16>(&ascending).is_err());
}

#[test]
fn permutation_decode_reads_negative_code_as_error() {
    assert!(decode_permutation(-1i64, &SEQ).is_err());
}

#[test]
fn permutation_decode_clones_strings() {
    let words = vec![String::from("pear"), String::from("apple"), String::from("fig")];
    // counts 0, 1, 0: code 1
    let order = vec![String::from("fig"), String::from("pear"), String::from("apple")];
    assert_eq!(Ok(1u8), encode_permutation(&order));
    assert_eq!(decode_permutation(1u8, &words), Ok(order));
}
