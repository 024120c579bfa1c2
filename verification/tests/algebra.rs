use hosh::Error;

fn identity() -> [u8; 34] {
    let mut p = [0u8; 34];
    for i in 0..34 {
        p[i] = i as u8;
    }
    p
}

fn sample_perm(n: u128) -> [u8; 34] {
    hosh::int_to_perm(&n).unwrap()
}

#[test]
fn mul_with_inverse_is_identity_both_sides() {
    for n in [1u128, 999, 123456789, 295232799039604140847618609643519999999] {
        let a = sample_perm(n);
        let ai = hosh::minv(&a).unwrap();
        assert_eq!(hosh::mul(&a, &ai).unwrap(), identity());
        assert_eq!(hosh::mul(&ai, &a).unwrap(), identity());
    }
}

#[test]
fn mul_is_associative() {
    let a = sample_perm(123);
    let b = sample_perm(987654321);
    let c = sample_perm(31415926535897932384626433);
    let left = hosh::mul(&hosh::mul(&a, &b).unwrap(), &c).unwrap();
    let right = hosh::mul(&a, &hosh::mul(&b, &c).unwrap()).unwrap();
    assert_eq!(left, right);
}

#[test]
fn mul_is_not_commutative() {
    let mut a = identity();
    a[0] = 1;
    a[1] = 0;
    let mut b = identity();
    b[0] = 1;
    b[1] = 2;
    b[2] = 0;
    let ab = hosh::mul(&a, &b).unwrap();
    let ba = hosh::mul(&b, &a).unwrap();
    assert_ne!(ab, ba);
}

#[test]
fn mul_composes_pointwise() {
    let a = sample_perm(424242);
    let b = sample_perm(777777);
    let p = hosh::mul(&a, &b).unwrap();
    for i in 0..34 {
        assert_eq!(p[i], a[b[i] as usize]);
    }
}

#[test]
fn div_is_mul_by_inverse() {
    let a = sample_perm(5);
    let b = sample_perm(10);
    let bi = hosh::minv(&b).unwrap();
    assert_eq!(hosh::div(&a, &b).unwrap(), hosh::mul(&a, &bi).unwrap());
    assert_eq!(hosh::div(&a, &a).unwrap(), identity());
}

#[test]
fn group_ops_reject_malformed_input() {
    let good = identity();
    let mut bad = identity();
    bad[0] = 99;
    assert_eq!(hosh::mul(&good, &bad), Err(Error::InvalidPermutation));
    assert_eq!(hosh::mul(&bad, &good), Err(Error::InvalidPermutation));
    assert_eq!(hosh::minv(&bad), Err(Error::InvalidPermutation));
    assert_eq!(hosh::div(&good, &bad), Err(Error::InvalidPermutation));
    assert_eq!(hosh::minv(&good[..5]), Err(Error::InvalidPermutation));
}

#[test]
fn muls_folds_left_to_right() {
    let a = sample_perm(11);
    let b = sample_perm(22);
    let c = sample_perm(33);
    let list = vec![a.to_vec(), b.to_vec(), c.to_vec()];
    let folded = hosh::muls(&list).unwrap();
    let expected = hosh::mul(&hosh::mul(&a, &b).unwrap(), &c).unwrap();
    assert_eq!(folded, expected);

    let single = hosh::muls(&vec![a.to_vec()]).unwrap();
    assert_eq!(single, a);
}

#[test]
fn muls_rejects_empty_and_malformed() {
    assert_eq!(hosh::muls(&Vec::new()), Err(Error::InvalidPermutation));
    let mut bad = identity();
    bad[3] = 2;
    let list = vec![identity().to_vec(), bad.to_vec()];
    assert_eq!(hosh::muls(&list), Err(Error::InvalidPermutation));
}

#[test]
fn mulpairs_multiplies_each_pair() {
    let a = sample_perm(100);
    let b = sample_perm(200);
    let c = sample_perm(300);
    let d = sample_perm(400);
    let list = vec![a.to_vec(), b.to_vec(), c.to_vec(), d.to_vec()];
    let out = hosh::mulpairs(&list).unwrap();
    assert_eq!(out.len(), 2);
    assert_eq!(out[0], hosh::mul(&a, &b).unwrap());
    assert_eq!(out[1], hosh::mul(&c, &d).unwrap());

    let empty: Vec<Vec<u8>> = Vec::new();
    assert_eq!(hosh::mulpairs(&empty).unwrap().len(), 0);
}

#[test]
fn mulpairs_rejects_odd_count() {
    let a = sample_perm(100);
    let list = vec![a.to_vec()];
    assert_eq!(hosh::mulpairs(&list), Err(Error::InvalidLength));
}

#[test]
fn add_wraps_around_modulus() {
    assert_eq!(hosh::add(&1, &2), 3);
    assert_eq!(hosh::add(&u128::MAX, &1), 0);
    assert_eq!(hosh::add(&u128::MAX, &5), 4);
}

#[test]
fn add_with_ainv_is_zero() {
    for a in [0u128, 1, 2, 12345678901234567890, u128::MAX] {
        assert_eq!(hosh::add(&a, &hosh::ainv(&a)), 0);
    }
}

#[test]
fn ainv_values() {
    assert_eq!(hosh::ainv(&0), 0);
    assert_eq!(hosh::ainv(&1), u128::MAX);
    assert_eq!(hosh::ainv(&u128::MAX), 1);
}
