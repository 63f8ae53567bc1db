use verhoeff::{build_group_elements, compose, find_label, perm_eq, pow};

const R: [u8; 5] = [1, 2, 3, 4, 0];
const S: [u8; 5] = [0, 4, 3, 2, 1];
const ID: [u8; 5] = [0, 1, 2, 3, 4];

#[test]
fn compose_applies_first_then_second() {
    assert_eq!(compose(&R, &S), [4, 3, 2, 1, 0]);
}

#[test]
fn compose_is_not_commutative() {
    assert_eq!(compose(&S, &R), [1, 0, 4, 3, 2]);
    assert_ne!(compose(&R, &S), compose(&S, &R));
}

#[test]
fn compose_with_identity() {
    assert_eq!(compose(&ID, &R), R);
    assert_eq!(compose(&R, &ID), R);
}

#[test]
fn compose_of_non_bijective_maps() {
    let c = [0u8, 0, 0, 0, 0];
    assert_eq!(compose(&c, &R), [1, 1, 1, 1, 1]);
    assert_eq!(compose(&R, &c), c);
}

#[test]
fn pow_zero_is_identity() {
    assert_eq!(pow(R, 0), ID);
    assert_eq!(pow(S, 0), ID);
}

#[test]
fn pow_of_rotation() {
    assert_eq!(pow(R, 1), R);
    assert_eq!(pow(R, 2), [2, 3, 4, 0, 1]);
    assert_eq!(pow(R, 3), [3, 4, 0, 1, 2]);
    assert_eq!(pow(R, 4), [4, 0, 1, 2, 3]);
    assert_eq!(pow(R, 5), ID);
    assert_eq!(pow(R, 7), [2, 3, 4, 0, 1]);
    assert_eq!(pow(R, 1_000_003), [3, 4, 0, 1, 2]);
}

#[test]
fn pow_matches_repeated_composition() {
    let base = [2u8, 0, 4, 1, 3];
    let mut acc = ID;
    for k in 0..12usize {
        assert_eq!(pow(base, k), acc);
        acc = compose(&acc, &base);
    }
}

#[test]
fn reflection_squared_is_identity() {
    assert_eq!(pow(S, 2), ID);
    assert_eq!(pow(S, 3), S);
}

#[test]
fn perm_eq_is_elementwise() {
    assert!(perm_eq(&R, &[1, 2, 3, 4, 0]));
    assert!(!perm_eq(&R, &[1, 2, 3, 0, 4]));
    assert!(!perm_eq(&R, &S));
}

#[test]
fn group_elements_in_label_order() {
    let e = build_group_elements();
    let expected: Vec<[u8; 5]> = vec![
        [0, 1, 2, 3, 4],
        [1, 2, 3, 4, 0],
        [2, 3, 4, 0, 1],
        [3, 4, 0, 1, 2],
        [4, 0, 1, 2, 3],
        [0, 4, 3, 2, 1],
        [4, 3, 2, 1, 0],
        [3, 2, 1, 0, 4],
        [2, 1, 0, 4, 3],
        [1, 0, 4, 3, 2],
    ];
    assert_eq!(e, expected);
}

#[test]
fn group_elements_are_distinct() {
    let e = build_group_elements();
    for i in 0..10 {
        for j in 0..10 {
            assert_eq!(perm_eq(&e[i], &e[j]), i == j);
        }
    }
}

#[test]
fn find_label_finds_each_element() {
    let e = build_group_elements();
    for i in 0..10 {
        assert_eq!(find_label(&e[i], &e), Some(i));
    }
}

#[test]
fn find_label_missing_is_none() {
    let e = build_group_elements();
    assert_eq!(find_label(&[1, 0, 2, 3, 4], &e), None);
    assert_eq!(find_label(&ID, &Vec::new()), None);
}

#[test]
fn find_label_takes_first_occurrence() {
    let e: Vec<[u8; 5]> = vec![R, ID, S, ID];
    assert_eq!(find_label(&ID, &e), Some(1));
}
