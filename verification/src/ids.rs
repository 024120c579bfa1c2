//! Combined identifier flows: the numeric, permutation and text forms of
//! one identifier, derived together from content bytes, from a number,
//! from a permutation, or from a text identifier.

use crate::b62::all_b62_symbols;
use crate::b62::b62_decode;
use crate::b62::b62_digits_of;
use crate::b62::chars_of_bytes;
use crate::b62::digits_string;
use crate::b62::from_b62;
use crate::b62::to_b62;
use crate::digest::be_val;
use crate::digest::digest;
use crate::digest::digest_bytes;
use crate::digest::digest_to_int;
use crate::error::Error;
use crate::perm::init_avail;
use crate::perm::int_to_perm;
use crate::perm::is_perm;
use crate::perm::lehmer_decode;
use crate::perm::lehmer_encode;
use crate::perm::perm_to_int;
use crate::perm::MAXN;
use crate::perm::PERM;
use vstd::prelude::*;

verus! {

/// Digest content bytes and hand back all three forms of the resulting
/// identifier: the number, its permutation, and its 22-symbol text.
pub fn n_bin_id_fromblob(blob: &[u8]) -> (r: (u128, PERM, String))
    ensures
        r.0 as int == be_val(digest_bytes(blob@)),
        r.0 <= MAXN,
        r.1@ == lehmer_decode(r.0 as int, init_avail()),
        is_perm(r.1@),
        r.2@ == chars_of_bytes(b62_digits_of(r.0 as int)),
{
    let h = digest(blob);
    let n = digest_to_int(&h);
    let bin = match int_to_perm(&n) {
        Ok(p) => p,
        Err(_) => {
            proof {
                assert(false);
            }
            [0u8; 34]
        },
    };
    let digits = to_b62(&n);
    let id = digits_string(&digits);
    (n, bin, id)
}

/// Recover the numeric identifier of a permutation, together with its
/// 22-symbol text form.
///
/// Fails with `InvalidPermutation` exactly when the input is malformed.
pub fn n_id_fromperm(a: &[u8]) -> (r: Result<(u128, String), Error>)
    ensures
        match r {
            Ok(t) => is_perm(a@) && t.0 as int == lehmer_encode(a@, init_avail()) && t.0 <= MAXN
                && t.1@ == chars_of_bytes(b62_digits_of(t.0 as int)),
            Err(e) => e == Error::InvalidPermutation && !is_perm(a@),
        },
{
    let n = match perm_to_int(a) {
        Ok(n) => n,
        Err(e) => {
            return Err(e);
        },
    };
    let digits = to_b62(&n);
    let id = digits_string(&digits);
    Ok((n, id))
}

/// Expand a numeric identifier into its permutation and its 22-symbol
/// text form.
///
/// Fails with `OutOfRange` exactly when the number exceeds 34! - 1.
pub fn bin_id_fromn(n: &u128) -> (r: Result<(PERM, String), Error>)
    ensures
        match r {
            Ok(t) => *n <= MAXN && t.0@ == lehmer_decode(*n as int, init_avail()) && is_perm(t.0@)
                && t.1@ == chars_of_bytes(b62_digits_of(*n as int)),
            Err(e) => e == Error::OutOfRange && *n > MAXN,
        },
{
    let bin = match int_to_perm(n) {
        Ok(p) => p,
        Err(e) => {
            return Err(e);
        },
    };
    let digits = to_b62(n);
    let id = digits_string(&digits);
    Ok((bin, id))
}

/// Decode a 22-symbol text identifier into its number and its
/// permutation.
///
/// Fails with `InvalidLength` or `InvalidSymbol` on malformed text, and
/// with `OutOfRange` when the decoded value exceeds 34! - 1.
pub fn n_bin_fromid(id: &[u8]) -> (r: Result<(u128, PERM), Error>)
    ensures
        match r {
            Ok(t) => id@.len() == 22 && all_b62_symbols(id@) && t.0 as int == b62_decode(id@)
                && t.0 <= MAXN && t.1@ == lehmer_decode(t.0 as int, init_avail()) && is_perm(t.1@),
            Err(e) => match e {
                Error::InvalidLength => id@.len() != 22,
                Error::InvalidSymbol => id@.len() == 22 && !all_b62_symbols(id@),
                Error::OutOfRange => id@.len() == 22 && all_b62_symbols(id@) && b62_decode(id@)
                    > MAXN,
                _ => false,
            },
        },
{
    let n = match from_b62(id) {
        Ok(n) => n,
        Err(e) => {
            return Err(e);
        },
    };
    let bin = match int_to_perm(&n) {
        Ok(p) => p,
        Err(_) => {
            return Err(Error::OutOfRange);
        },
    };
    Ok((n, bin))
}

} // verus!
