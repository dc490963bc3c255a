use balanced_ternary::matrix::{BctTer64, TernaryMatrix, TernaryVec, dot};

#[test]
fn bct_word_dot_product() {
    let a = BctTer64::new(0b0011, 0b0100);
    let b = BctTer64::new(0b0101, 0b0010);
    // trits: a = [+1, +1, -1, 0], b = [+1, -1, +1, 0] → 1 - 1 - 1 = -1
    assert_eq!(a.bct_dot_word(b), -1);
    assert_eq!(BctTer64::zero().bct_dot_word(a), 0);
    assert_eq!(a.pos_mask(), 0b0011);
    assert_eq!(a.neg_mask(), 0b0100);
}

#[test]
fn vector_set_get_and_dot() {
    let mut a = TernaryVec::zeros(100);
    let mut b = TernaryVec::zeros(100);
    assert_eq!(a.len(), 100);
    assert!(!a.is_empty());
    a.set(0, 1);
    a.set(70, -1);
    a.set(99, 1);
    b.set(0, 1);
    b.set(70, 1);
    b.set(99, 1);
    b.set(50, -1);
    assert_eq!(a.get(70), -1);
    assert_eq!(a.get(50), 0);
    assert_eq!(a.dot(&b), 1);
    assert_eq!(dot(&a, &b), 1);
    assert!(TernaryVec::zeros(0).is_empty());
}

#[test]
fn matrix_vector_product() {
    let mut m = TernaryMatrix::zeros(2, 3);
    // [ 1 -1  0 ]
    // [ 0  1  1 ]
    m.set(0, 0, 1);
    m.set(0, 1, -1);
    m.set(1, 1, 1);
    m.set(1, 2, 1);
    let mut x = TernaryVec::zeros(3);
    x.set(0, 1);
    x.set(1, -1);
    x.set(2, 1);
    assert_eq!(m.rows(), 2);
    assert_eq!(m.cols(), 3);
    assert_eq!(m.get(0, 1), -1);
    assert_eq!(m.matvec(&x), vec![2, 0]);
    let mut out = [0i32; 2];
    m.matvec_into(&x, &mut out);
    assert_eq!(out, [2, 0]);
}
