use algorithms::sequence::{edit_distance, lcs};

#[test]
fn both_sequences_empty() {
    assert_eq!(lcs(&[42; 0], &[42; 0]), 0);
}

#[test]
fn one_sequence_empty() {
    assert_eq!(lcs(&[42; 0], &[1, 2, 3]), 0);
    assert_eq!(lcs(&[1, 2, 3], &[42; 0]), 0);
}

#[test]
fn sequences_equal() {
    assert_eq!(lcs(&[1], &[1]), 1);
    assert_eq!(lcs(&[1, 2, 3], &[1, 2, 3]), 3);
}

#[test]
fn one_subsequence_of_other() {
    let a = [1, 2, 3, 4, 5, 6, 7];
    let b = [2, 4, 7];
    let ans = 3;
    assert_eq!(lcs(&a, &b), ans);
    assert_eq!(lcs(&b, &a), ans);
}

#[test]
fn general_case() {
    let a = [1, 2, 3, 0, 0, 0, 1, 2, 3, 4, 0, 0, 1, 2, 3];
    let b = [1, 2, 3, 9, 9, 9, 1, 2, 3, 9, 9, 4, 1, 2, 3];
    let ans = 10;
    assert_eq!(lcs(&a, &b), ans);
    assert_eq!(lcs(&b, &a), ans);
}

#[test]
fn sequence_both_sequences_empty() {
    let a: [i32; 0] = [];
    let b: [i32; 0] = [];
    assert_eq!(edit_distance(&a, &b), 0);
}

#[test]
fn sequence_one_sequence_empty() {
    let a = [1, 2, 3];
    let b: [i32; 0] = [];
    let ans = 3;
    assert_eq!(edit_distance(&a, &b), ans);
    assert_eq!(edit_distance(&b, &a), ans);
}

#[test]
fn sequence_one_subsequence_of_other() {
    let a = [1, 2, 3, 4, 5, 6, 7];
    let b = [2, 4, 7];
    let ans = 4;
    assert_eq!(edit_distance(&a, &b), ans);
    assert_eq!(edit_distance(&b, &a), ans);
}

#[test]
fn sequence_general_case() {
    let a = [1, 2, 3, 4, 5, 6];
    let b = [0, 1, 2, 4, 4, 6];
    let ans = 3;
    assert_eq!(edit_distance(&a, &b), ans);
    assert_eq!(edit_distance(&b, &a), ans);
}

#[test]
fn single_insert() {
    let a = [1, 2, 3, 4];
    let b = [1, 2, 4];
    let ans = 1;
    assert_eq!(edit_distance(&a, &b), ans);
}

#[test]
fn single_delete() {
    let a = [1, 2, 4];
    let b = [1, 2, 3, 4];
    let ans = 1;
    assert_eq!(edit_distance(&a, &b), ans);
}

#[test]
fn single_change() {
    let a = [1, 2, 3, 4];
    let b = [1, 2, 5, 4];
    let ans = 1;
    assert_eq!(edit_distance(&a, &b), ans);
    assert_eq!(edit_distance(&b, &a), ans);
}

#[test]
fn example_case() {
    let a = "hello".as_bytes();
    let b = "halo".as_bytes();
    let ans = 2;
    assert_eq!(edit_distance(&a, &b), ans);
    assert_eq!(edit_distance(&b, &a), ans);
}

#[test]
fn lcs_documented_example() {
    assert_eq!(lcs(&[1, 2, 3, 3], &[1, 2, 2, 0, 3]), 3);
}

#[test]
fn lcs_of_sequences_without_common_element() {
    assert_eq!(lcs(&[1, 2, 3], &[4, 5, 6, 7]), 0);
    assert_eq!(edit_distance(&[1, 2, 3], &[4, 5, 6, 7]), 4);
}

#[test]
fn edit_distance_of_classic_words() {
    assert_eq!(edit_distance("kitten".as_bytes(), "sitting".as_bytes()), 3);
    assert_eq!(edit_distance("sunday".as_bytes(), "saturday".as_bytes()), 3);
    assert_eq!(edit_distance("abc".as_bytes(), "abc".as_bytes()), 0);
}
