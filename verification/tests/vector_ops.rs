use rand::Rng;

use hashtable::loops::{vector_increment_fissioned, vector_increment_unfissioned};
use hashtable::simd::{vector_add, Data32, DATA32_LENGTH};

const VECTOR_LENGTH: usize = 16;
const MIN: i32 = i32::MIN / 3;
const MAX: i32 = i32::MAX / 3;

/// Returns a Vector<i32> with random values.
fn gen_random_vector() -> Vec<i32> {
    let mut rng = rand::thread_rng();
    let mut v = vec![0; VECTOR_LENGTH];
    for i in 0..VECTOR_LENGTH {
        v[i] = rng.gen_range(MIN, MAX);
    }
    v
}

/// Returns true if the two vectors contain exactly the same values.
/// Otherwise, false.
fn vectors_are_equal(v1: &[i32], v2: &[i32]) -> bool {
    for (x1, x2) in v1.iter().zip(v2) {
        if *x1 != *x2 {
            return false;
        }
    }
    true
}

#[test]
fn vector_add_has_identity_zero() {
    let id = vec![0; VECTOR_LENGTH];
    let v1 = gen_random_vector();
    let mut result = vec![0; VECTOR_LENGTH];
    vector_add(&id, &v1, &mut result);

    assert!(vectors_are_equal(&v1, &result));
}

#[test]
fn vector_add_is_commutative() {
    let v1 = gen_random_vector();
    let v2 = gen_random_vector();
    let mut result1 = vec![0; VECTOR_LENGTH];
    let mut result2 = vec![0; VECTOR_LENGTH];
    vector_add(&v1, &v2, &mut result1);
    vector_add(&v2, &v1, &mut result2);

    assert!(vectors_are_equal(&result1, &result2));
}

#[test]
fn vector_add_is_associative() {
    let v1 = gen_random_vector();
    let v2 = gen_random_vector();
    let v3 = gen_random_vector();
    let mut interim_result = vec![0; VECTOR_LENGTH];
    let mut result1 = vec![0; VECTOR_LENGTH];
    let mut result2 = vec![0; VECTOR_LENGTH];

    vector_add(&v1, &v2, &mut interim_result);
    vector_add(&interim_result, &v3, &mut result1);

    vector_add(&v2, &v3, &mut interim_result);
    vector_add(&v1, &interim_result, &mut result2);

    assert!(vectors_are_equal(&result1, &result2));
}

#[test]
fn vector_add_exact_values() {
    let v1 = vec![1, 2, 3, -4];
    let v2 = vec![10, 20, 30, 40];
    let mut result = vec![0; 4];
    vector_add(&v1, &v2, &mut result);
    assert_eq!(result, vec![11, 22, 33, 36]);
}

#[test]
fn vector_add_stops_at_shortest() {
    let v1 = vec![1, 2, 3];
    let v2 = vec![10, 20];
    let mut result = vec![-1, -1, -1, -1];
    vector_add(&v1, &v2, &mut result);
    assert_eq!(result, vec![11, 22, -1, -1]);
}

#[test]
fn vector_increment_fissioned_exact_values() {
    let mut v1 = vec![0, 5, -3];
    let mut v2 = vec![7];
    vector_increment_fissioned(&mut v1, &mut v2);
    assert_eq!(v1, vec![1, 6, -2]);
    assert_eq!(v2, vec![8]);
}

#[test]
fn vector_increment_unfissioned_exact_values() {
    let mut v1 = vec![0, 5, -3];
    let mut v2 = vec![7, 9, 11];
    vector_increment_unfissioned(&mut v1, &mut v2);
    assert_eq!(v1, vec![1, 6, -2]);
    assert_eq!(v2, vec![8, 10, 12]);
}

#[test]
fn vector_increment_unfissioned_stops_at_shorter() {
    let mut v1 = vec![0, 5, -3];
    let mut v2 = vec![7];
    vector_increment_unfissioned(&mut v1, &mut v2);
    assert_eq!(v1, vec![1, 5, -3]);
    assert_eq!(v2, vec![8]);
}

#[test]
fn data32_new_is_all_zero() {
    let d = Data32::new();
    assert_eq!(d.0.len(), DATA32_LENGTH);
    assert!(d.0.iter().all(|x| *x == 0));
}
