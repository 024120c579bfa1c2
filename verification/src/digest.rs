//! Content digests: a BLAKE3-based 128-bit fingerprint of arbitrary bytes,
//! masked so that it always fits the permutation-convertible range.
//!
//! The digest is bytes 16..32 of the 32-byte BLAKE3 hash, read big-endian,
//! with the most significant bit cleared: the result is below 2^127 and
//! therefore always below 34! - 1.

use vstd::arithmetic::power::lemma_pow0;
use vstd::arithmetic::power::lemma_pow1;
use vstd::arithmetic::power::lemma_pow_adds;
use vstd::arithmetic::power::lemma_pow_increases;
use vstd::arithmetic::power::lemma_pow_positive;
use vstd::arithmetic::power::pow;
use vstd::prelude::*;

verus! {

/// Number of bytes in a digest value.
pub const NBYTES: usize = 16;

/// The 32-byte BLAKE3 hash of a byte sequence, a function of the bytes
/// alone.
pub uninterp spec fn blake3_hash(bytes: Seq<u8>) -> Seq<u8>;

/// The 16-byte digest: bytes 16..32 of the BLAKE3 hash, with the top bit
/// of the leading byte cleared.
pub open spec fn digest_bytes(bytes: Seq<u8>) -> Seq<u8> {
    Seq::new(
        16,
        |i: int|
            if i == 0 {
                blake3_hash(bytes)[16] & 0x7f
            } else {
                blake3_hash(bytes)[16 + i]
            },
    )
}

/// Big-endian value of a byte sequence.
pub open spec fn be_val(s: Seq<u8>) -> int
    decreases s.len(),
{
    if s.len() == 0 {
        0
    } else {
        be_val(s.drop_last()) * 256 + s.last()
    }
}

/// Relies on `blake3::hash`: the 32-byte BLAKE3 digest of the input,
/// determined by the input bytes alone.
#[verifier::external_body]
fn blake3_hash_serial(bytes: &[u8]) -> (r: Vec<u8>)
    ensures
        r@ == blake3_hash(bytes@),
        r@.len() == 32,
{
    blake3::hash(bytes).as_bytes().to_vec()
}

/// Relies on `blake3::Hasher::update_rayon` and `blake3::Hasher::finalize`:
/// the same BLAKE3 digest as `blake3::hash`, computed with a multi-threaded
/// tree strategy that is documented to be bit-identical to the
/// single-threaded path.
#[verifier::external_body]
fn blake3_hash_parallel(bytes: &[u8]) -> (r: Vec<u8>)
    ensures
        r@ == blake3_hash(bytes@),
        r@.len() == 32,
{
    let mut hasher = blake3::Hasher::new();
    hasher.update_rayon(bytes);
    hasher.finalize().as_bytes().to_vec()
}

/// Values of the powers of 256 that bound a digest.
proof fn lemma_pow256_vals()
    ensures
        pow(256, 15) == 1329227995784915872903807060280344576int,
        pow(256, 16) == 340282366920938463463374607431768211456int,
{
    lemma_pow1(256);
    lemma_pow_adds(256, 1, 1);
    assert(pow(256, 2) == 65536);
    lemma_pow_adds(256, 2, 2);
    assert(pow(256, 4) == 4294967296) by (nonlinear_arith)
        requires
            pow(256, 4) == pow(256, 2) * pow(256, 2),
            pow(256, 2) == 65536,
    ;
    lemma_pow_adds(256, 4, 4);
    assert(pow(256, 8) == 18446744073709551616) by (nonlinear_arith)
        requires
            pow(256, 8) == pow(256, 4) * pow(256, 4),
            pow(256, 4) == 4294967296,
    ;
    lemma_pow_adds(256, 8, 4);
    assert(pow(256, 12) == 79228162514264337593543950336) by (nonlinear_arith)
        requires
            pow(256, 12) == pow(256, 8) * pow(256, 4),
            pow(256, 8) == 18446744073709551616,
            pow(256, 4) == 4294967296,
    ;
    lemma_pow_adds(256, 12, 2);
    assert(pow(256, 14) == 5192296858534827628530496329220096) by (nonlinear_arith)
        requires
            pow(256, 14) == pow(256, 12) * pow(256, 2),
            pow(256, 12) == 79228162514264337593543950336,
            pow(256, 2) == 65536,
    ;
    lemma_pow_adds(256, 14, 1);
    assert(pow(256, 15) == 1329227995784915872903807060280344576int) by (nonlinear_arith)
        requires
            pow(256, 15) == pow(256, 14) * pow(256, 1),
            pow(256, 14) == 5192296858534827628530496329220096,
            pow(256, 1) == 256,
    ;
    lemma_pow_adds(256, 15, 1);
    assert(pow(256, 16) == 340282366920938463463374607431768211456int) by (nonlinear_arith)
        requires
            pow(256, 16) == pow(256, 15) * pow(256, 1),
            pow(256, 15) == 1329227995784915872903807060280344576int,
            pow(256, 1) == 256,
    ;
}

/// Bounds of a big-endian value: below 256 to the length, and within the
/// band that its leading byte allows.
proof fn lemma_be_val_bounds(s: Seq<u8>)
    ensures
        0 <= be_val(s) < pow(256, s.len()),
        s.len() > 0 ==> be_val(s) < (s[0] + 1) * pow(256, (s.len() - 1) as nat),
    decreases s.len(),
{
    lemma_pow_positive(256, s.len());
    if s.len() > 0 {
        let d = s.drop_last();
        lemma_be_val_bounds(d);
        lemma_pow_adds(256, (s.len() - 1) as nat, 1);
        lemma_pow1(256);
        assert(be_val(s) < pow(256, s.len())) by (nonlinear_arith)
            requires
                be_val(s) == be_val(d) * 256 + s.last(),
                0 <= be_val(d) < pow(256, (s.len() - 1) as nat),
                s.last() < 256,
                pow(256, s.len()) == pow(256, (s.len() - 1) as nat) * 256,
        ;
        if s.len() == 1 {
            assert(be_val(s) == s[0]);
            lemma_pow0(256);
            assert((s[0] + 1) * pow(256, 0) == s[0] + 1) by (nonlinear_arith)
                requires
                    pow(256, 0) == 1,
            ;
        } else {
            lemma_pow_positive(256, (s.len() - 2) as nat);
            lemma_pow_adds(256, (s.len() - 2) as nat, 1);
            assert(d[0] == s[0]);
            assert(be_val(s) < (s[0] + 1) * pow(256, (s.len() - 1) as nat)) by (nonlinear_arith)
                requires
                    be_val(s) == be_val(d) * 256 + s.last(),
                    be_val(d) < (s[0] + 1) * pow(256, (s.len() - 2) as nat),
                    0 <= be_val(d),
                    s.last() < 256,
                    pow(256, (s.len() - 1) as nat) == pow(256, (s.len() - 2) as nat) * 256,
                    pow(256, (s.len() - 2) as nat) >= 1,
            ;
        }
    }
}

/// Hash arbitrary bytes down to a 16-byte digest whose leading bit is
/// clear.
///
/// Inputs of at least 130000 bytes go through the multi-threaded hash
/// path, which returns the same bytes as the single-threaded one; the
/// choice is invisible in the result.
pub fn digest(bytes: &[u8]) -> (h: [u8; 16])
    ensures
        h@ == digest_bytes(bytes@),
        h@[0] < 128,
{
    let hash: Vec<u8> = if bytes.len() < 130000 {
        blake3_hash_serial(bytes)
    } else {
        blake3_hash_parallel(bytes)
    };
    let mut h: [u8; 16] = [0u8; 16];
    let mut i: usize = 0;
    while i < 16
        invariant
            i <= 16,
            hash@ == blake3_hash(bytes@),
            hash@.len() == 32,
            forall|t: int| 0 <= t < i ==> h@[t] == blake3_hash(bytes@)[16 + t],
        decreases 16 - i,
    {
        h[i] = hash[16 + i];
        i = i + 1;
    }
    let masked: u8 = h[0] & 127;
    proof {
        let b = h@[0];
        assert(b & 127 < 128) by (bit_vector);
    }
    h[0] = masked;
    proof {
        assert(h@ =~= digest_bytes(bytes@));
    }
    h
}

/// Read a 16-byte digest as a big-endian 128-bit integer.
///
/// A digest produced by `digest` has its top bit clear, so its value is
/// always below 2^127 and in particular below 34! - 1.
pub fn digest_to_int(h: &[u8; 16]) -> (n: u128)
    ensures
        n as int == be_val(h@),
        h@[0] < 128 ==> n < 0x80000000000000000000000000000000u128,
{
    proof {
        lemma_pow256_vals();
    }
    let mut n: u128 = 0;
    let mut i: usize = 0;
    proof {
        assert(h@.take(0) =~= Seq::<u8>::empty());
        lemma_pow0(256);
    }
    while i < 16
        invariant
            i <= 16,
            h@.len() == 16,
            n as int == be_val(h@.take(i as int)),
            (n as int) < pow(256, i as nat),
            pow(256, 16) == 340282366920938463463374607431768211456int,
        decreases 16 - i,
    {
        proof {
            let t = h@.take(i as int + 1);
            assert(t.drop_last() =~= h@.take(i as int));
            assert(t.last() == h@[i as int]);
            lemma_pow_adds(256, i as nat, 1);
            lemma_pow1(256);
            lemma_pow_increases(256, (i + 1) as nat, 16);
            assert((n as int) * 256 + h@[i as int] < pow(256, (i + 1) as nat)) by (nonlinear_arith)
                requires
                    (n as int) < pow(256, i as nat),
                    0 <= n as int,
                    h@[i as int] < 256,
                    pow(256, (i + 1) as nat) == pow(256, i as nat) * 256,
            ;
        }
        n = n * 256 + (h[i] as u128);
        i = i + 1;
    }
    proof {
        assert(h@.take(16) =~= h@);
        if h@[0] < 128 {
            lemma_be_val_bounds(h@);
            lemma_pow256_vals();
            assert(be_val(h@) < 128 * pow(256, 15)) by (nonlinear_arith)
                requires
                    be_val(h@) < (h@[0] + 1) * pow(256, 15),
                    h@[0] + 1 <= 128,
                    pow(256, 15) >= 1,
            ;
        }
    }
    n
}

} // verus!
