const MAXN: u128 = 295232799039604140847618609643519999999;
const TOP: u128 = 1u128 << 127;

#[test]
fn digest_matches_blake3_tail_with_masked_top_bit() {
    for blob in [&b""[..], &b"hello"[..], &[0x00u8][..]] {
        let h = hosh::digest(blob);
        let full = blake3::hash(blob);
        let mut expected = [0u8; 16];
        expected.copy_from_slice(&full.as_bytes()[16..32]);
        expected[0] &= 0x7f;
        assert_eq!(h, expected);
    }
}

#[test]
fn digest_is_deterministic_and_below_bound() {
    let h1 = hosh::digest(&[0x00]);
    let h2 = hosh::digest(&[0x00]);
    assert_eq!(h1, h2);
    let n = hosh::digest_to_int(&h1);
    assert!(n < TOP);
    assert!(n < MAXN);
}

#[test]
fn digest_distinguishes_inputs() {
    let a = hosh::digest(b"");
    let b = hosh::digest(&[0x00]);
    assert_ne!(a, b);
}

#[test]
fn digest_large_input_matches_single_threaded_hash() {
    let blob = vec![0xabu8; 130001];
    let h = hosh::digest(&blob);
    let full = blake3::hash(&blob);
    let mut expected = [0u8; 16];
    expected.copy_from_slice(&full.as_bytes()[16..32]);
    expected[0] &= 0x7f;
    assert_eq!(h, expected);
}

#[test]
fn digest_to_int_reads_big_endian() {
    let mut h = [0u8; 16];
    h[15] = 1;
    assert_eq!(hosh::digest_to_int(&h), 1);
    h = [0u8; 16];
    h[14] = 1;
    assert_eq!(hosh::digest_to_int(&h), 256);
    h = [0xffu8; 16];
    assert_eq!(hosh::digest_to_int(&h), u128::MAX);
}

#[test]
fn end_to_end_empty_blob_round_trip() {
    let h = hosh::digest(b"");
    let n = hosh::digest_to_int(&h);
    let perm = hosh::int_to_perm(&n).unwrap();
    let n2 = hosh::perm_to_int(&perm).unwrap();
    assert_eq!(n, n2);
    let id1 = hosh::to_b62(&n);
    let id2 = hosh::to_b62(&n2);
    assert_eq!(id1, id2);
    assert_eq!(id1.len(), 22);
}

#[test]
fn combined_flows_agree() {
    let blob = b"some content";
    let (n, bin, id) = hosh::n_bin_id_fromblob(blob);
    assert_eq!(n, hosh::digest_to_int(&hosh::digest(blob)));
    assert_eq!(bin, hosh::int_to_perm(&n).unwrap());
    assert_eq!(id.as_bytes(), &hosh::to_b62(&n)[..]);

    let (n2, id2) = hosh::n_id_fromperm(&bin).unwrap();
    assert_eq!(n2, n);
    assert_eq!(id2, id);

    let (bin3, id3) = hosh::bin_id_fromn(&n).unwrap();
    assert_eq!(bin3, bin);
    assert_eq!(id3, id);

    let (n4, bin4) = hosh::n_bin_fromid(id.as_bytes()).unwrap();
    assert_eq!(n4, n);
    assert_eq!(bin4, bin);
}

#[test]
fn n_bin_fromid_rejects_out_of_range_text() {
    let id = hosh::to_b62(&(MAXN + 1));
    assert_eq!(hosh::n_bin_fromid(&id), Err(hosh::Error::OutOfRange));
    assert_eq!(hosh::n_bin_fromid(b"x"), Err(hosh::Error::InvalidLength));
}

#[test]
fn bin_id_fromn_rejects_out_of_range() {
    assert_eq!(hosh::bin_id_fromn(&(MAXN + 1)), Err(hosh::Error::OutOfRange));
}
