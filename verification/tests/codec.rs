use hosh::Error;

const MAXN: u128 = 295232799039604140847618609643519999999;

fn identity() -> [u8; 34] {
    let mut p = [0u8; 34];
    for i in 0..34 {
        p[i] = i as u8;
    }
    p
}

#[test]
fn b62_zero_is_all_zero_symbols() {
    let s = hosh::to_b62(&0);
    assert_eq!(&s[..], b"0000000000000000000000");
}

#[test]
fn b62_maxn_matches_known_text() {
    let s = hosh::to_b62(&MAXN);
    assert_eq!(&s[..], b"6l6zBwhWj1aEJrTu8Ko2Rz");
}

#[test]
fn b62_round_trip_samples() {
    let samples: [u128; 6] = [0, 1, 61, 62, MAXN, u128::MAX];
    for n in samples {
        let s = hosh::to_b62(&n);
        assert_eq!(hosh::from_b62(&s), Ok(n));
    }
}

#[test]
fn b62_single_digit_values() {
    let s = hosh::to_b62(&61);
    assert_eq!(s[21], b'z');
    let s = hosh::to_b62(&10);
    assert_eq!(s[21], b'A');
    let s = hosh::to_b62(&36);
    assert_eq!(s[21], b'a');
}

#[test]
fn from_b62_rejects_non_alphabet_byte() {
    let mut s = *b"0000000000000000000000";
    s[5] = b' ';
    assert_eq!(hosh::from_b62(&s), Err(Error::InvalidSymbol));
}

#[test]
fn from_b62_rejects_wrong_length() {
    assert_eq!(hosh::from_b62(b"123"), Err(Error::InvalidLength));
    assert_eq!(hosh::from_b62(b""), Err(Error::InvalidLength));
    assert_eq!(hosh::from_b62(b"00000000000000000000000"), Err(Error::InvalidLength));
}

#[test]
fn from_b62_rejects_value_above_u128() {
    assert_eq!(hosh::from_b62(b"zzzzzzzzzzzzzzzzzzzzzz"), Err(Error::OutOfRange));
}

#[test]
fn perm_round_trip_from_int() {
    let samples: [u128; 5] = [0, 1, 42, 123456789123456789, MAXN];
    for n in samples {
        let p = hosh::int_to_perm(&n).unwrap();
        assert_eq!(hosh::perm_to_int(&p), Ok(n));
    }
}

#[test]
fn perm_round_trip_from_perm() {
    let mut rev = [0u8; 34];
    for i in 0..34 {
        rev[i] = (33 - i) as u8;
    }
    let n = hosh::perm_to_int(&rev).unwrap();
    assert_eq!(hosh::int_to_perm(&n).unwrap(), rev);

    let id = identity();
    assert_eq!(hosh::perm_to_int(&id), Ok(0));
    assert_eq!(hosh::int_to_perm(&0).unwrap(), id);
}

#[test]
fn int_to_perm_one_is_first_transposition() {
    let p = hosh::int_to_perm(&1).unwrap();
    let mut expected = identity();
    expected[0] = 1;
    expected[1] = 0;
    assert_eq!(p, expected);
}

#[test]
fn int_to_perm_rejects_one_past_maxn() {
    let too_big = MAXN + 1;
    assert_eq!(hosh::int_to_perm(&too_big), Err(Error::OutOfRange));
    assert_eq!(hosh::int_to_perm(&u128::MAX), Err(Error::OutOfRange));
}

#[test]
fn perm_to_int_rejects_malformed_input() {
    assert_eq!(hosh::perm_to_int(b"short"), Err(Error::InvalidPermutation));
    let mut dup = identity();
    dup[7] = 3;
    assert_eq!(hosh::perm_to_int(&dup), Err(Error::InvalidPermutation));
    let mut oob = identity();
    oob[7] = 34;
    assert_eq!(hosh::perm_to_int(&oob), Err(Error::InvalidPermutation));
}

#[test]
fn b62_to_str_prints_plain_symbols() {
    assert_eq!(hosh::b62_to_str(b"0Az9z"), "0Az9z");
}

#[test]
fn b62_to_str_escapes_control_bytes() {
    let bytes: [u8; 8] = [9, 10, 13, 92, 39, 34, 0, 255];
    assert_eq!(hosh::b62_to_str(&bytes), "\\t\\n\\r\\\\\\'\\\"\\x00\\xff");
}
