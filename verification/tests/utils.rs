use fourier::utils::{bit_reverse_copy, is_pow_of_two, reverse_bits};

#[test]
fn is_pow_of_two_accepts_powers() {
    assert!(is_pow_of_two(1));
    assert!(is_pow_of_two(2));
    assert!(is_pow_of_two(4));
    assert!(is_pow_of_two(1024));
}

#[test]
fn is_pow_of_two_rejects_others() {
    assert!(!is_pow_of_two(0));
    assert!(!is_pow_of_two(3));
    assert!(!is_pow_of_two(6));
    assert!(!is_pow_of_two(100));
}

#[test]
fn reverse_bits_two_bit_values() {
    assert_eq!(reverse_bits(0, 2), 0);
    assert_eq!(reverse_bits(1, 2), 2);
    assert_eq!(reverse_bits(2, 2), 1);
    assert_eq!(reverse_bits(3, 2), 3);
}

#[test]
fn reverse_bits_wider_values() {
    assert_eq!(reverse_bits(0, 0), 0);
    assert_eq!(reverse_bits(1, 3), 4);
    assert_eq!(reverse_bits(0b110, 3), 0b011);
    assert_eq!(reverse_bits(0b1101, 4), 0b1011);
    assert_eq!(reverse_bits(1, 32), 0x8000_0000);
    // bits above the reversed width are ignored
    assert_eq!(reverse_bits(0b100, 2), 0);
}

#[test]
fn bit_reverse_copy_length_four() {
    // indices 0,1,2,3 under 2-bit reversal: 0->0, 1->2, 2->1, 3->3
    let a = vec![10u64, 20, 30, 40];
    assert_eq!(bit_reverse_copy(a), vec![10, 30, 20, 40]);
}

#[test]
fn bit_reverse_copy_floats() {
    let a = vec![1.0f64, 2.0, 3.0, 4.0];
    assert_eq!(bit_reverse_copy(a), vec![1.0, 3.0, 2.0, 4.0]);
}

#[test]
fn bit_reverse_copy_small_lengths() {
    assert_eq!(bit_reverse_copy(vec![7u64]), vec![7]);
    assert_eq!(bit_reverse_copy(vec![7u64, 9]), vec![7, 9]);
}

#[test]
fn bit_reverse_copy_length_eight() {
    // 3-bit reversal sends index i to rev(i): 0,4,2,6,1,5,3,7
    let a = vec![0u64, 1, 2, 3, 4, 5, 6, 7];
    assert_eq!(bit_reverse_copy(a), vec![0, 4, 2, 6, 1, 5, 3, 7]);
}

#[test]
fn bit_reverse_copy_is_an_involution() {
    let a = vec![3u64, 1, 4, 1, 5, 9, 2, 6];
    let once = bit_reverse_copy(a.clone());
    assert_eq!(bit_reverse_copy(once), a);
}
