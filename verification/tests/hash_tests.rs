//! The hashing routine on concrete keys: determinism, the empty key, and
//! exact values of the rotate-XOR fold.

use dope::hash::Hashable;

#[test]
fn empty_text_key_hashes_to_zero() {
    let k = String::new();
    assert_eq!(k.hash(), 0);
}

#[test]
fn hash_is_deterministic_within_a_process() {
    let k = "some key".to_string();
    let first = k.hash();
    let second = k.hash();
    assert_eq!(first, second);
    let again = "some key".to_string();
    assert_eq!(again.hash(), first);
}

#[test]
fn hash_of_single_character_is_its_code_point() {
    // One round folds the code point into a zero accumulator.
    assert_eq!("a".to_string().hash(), 97);
    assert_eq!("z".to_string().hash(), 122);
}

#[test]
fn hash_of_two_characters_follows_the_fold() {
    // 'a' gives 97; then 97 << 5 = 3104, xor 'b' (98) = 3138.
    assert_eq!("ab".to_string().hash(), 3138);
}

#[test]
fn hash_of_four_bytes_follows_the_fold() {
    // 1 -> 1; 1<<5 ^ 2 = 34; 34<<5 ^ 3 = 1091; 1091<<5 ^ 4 = 34916.
    let k: [u8; 4] = [1, 2, 3, 4];
    assert_eq!(k.hash(), 34916);
    let zero: [u8; 4] = [0, 0, 0, 0];
    assert_eq!(zero.hash(), 0);
}
