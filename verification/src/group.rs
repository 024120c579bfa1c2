//! Group operations on permutations: composition, inverse, the derived
//! quotient, and multi-operand combinations.
//!
//! Composition is the group operation of the symmetric group on 34
//! elements: associative, closed, but not commutative, so the order of
//! operands matters and multi-operand combination is a strict left fold.

use crate::error::Error;
use crate::perm::idx_of;
use crate::perm::init_avail;
use crate::perm::is_perm;
use crate::perm::lemma_idx_of_first;
use crate::perm::lemma_idx_of_props;
use crate::perm::lemma_perm_contains_all;
use crate::perm::PERM;
use vstd::array::array_as_slice;
use vstd::prelude::*;

verus! {

/// Pointwise composition: entry `i` of the product is `a[b[i]]`.
pub open spec fn compose(a: Seq<u8>, b: Seq<u8>) -> Seq<u8> {
    Seq::new(34, |i: int| a[b[i] as int])
}

/// The inverse arrangement: value `v` is sent to the position at which `a`
/// holds `v`.
pub open spec fn perm_inv(a: Seq<u8>) -> Seq<u8> {
    Seq::new(34, |v: int| idx_of(a, v as u8) as u8)
}

/// The views of a list of permutation buffers.
pub open spec fn perm_views(ps: Seq<Vec<u8>>) -> Seq<Seq<u8>> {
    Seq::new(ps.len(), |i: int| ps[i]@)
}

/// Strict left fold of composition: ((p0 . p1) . p2) . ...
pub open spec fn compose_all(ps: Seq<Seq<u8>>) -> Seq<u8>
    decreases ps.len(),
{
    if ps.len() == 0 {
        Seq::empty()
    } else if ps.len() == 1 {
        ps[0]
    } else {
        compose(compose_all(ps.drop_last()), ps.last())
    }
}

/// Law (closure): the composition of two permutations is a permutation.
pub proof fn lemma_compose_is_perm(a: Seq<u8>, b: Seq<u8>)
    requires
        is_perm(a),
        is_perm(b),
    ensures
        is_perm(compose(a, b)),
{
    let c = compose(a, b);
    assert forall|i: int, j: int|
        0 <= i < c.len() && 0 <= j < c.len() && i != j implies c[i] != c[j] by {
        assert(b[i] != b[j]);
        assert(c[i] == a[b[i] as int]);
        assert(c[j] == a[b[j] as int]);
    }
}

/// Law (closure): the inverse of a permutation is a permutation.
pub proof fn lemma_perm_inv_is_perm(a: Seq<u8>)
    requires
        is_perm(a),
    ensures
        is_perm(perm_inv(a)),
{
    lemma_perm_contains_all(a);
    let p = perm_inv(a);
    assert forall|v: int| 0 <= v < 34 implies (#[trigger] p[v]) < 34 by {
        assert(a.contains(v as u8));
        lemma_idx_of_props(a, v as u8);
    }
    assert forall|v1: int, v2: int|
        0 <= v1 < p.len() && 0 <= v2 < p.len() && v1 != v2 implies p[v1] != p[v2] by {
        assert(a.contains(v1 as u8));
        assert(a.contains(v2 as u8));
        lemma_idx_of_props(a, v1 as u8);
        lemma_idx_of_props(a, v2 as u8);
    }
}

/// Law: composing a permutation with its inverse, in either order, yields
/// the identity permutation 0, 1, ..., 33.
pub proof fn lemma_mul_minv_identity(a: Seq<u8>)
    requires
        is_perm(a),
    ensures
        compose(a, perm_inv(a)) == init_avail(),
        compose(perm_inv(a), a) == init_avail(),
{
    lemma_perm_contains_all(a);
    lemma_perm_inv_is_perm(a);
    assert forall|i: int| 0 <= i < 34 implies compose(a, perm_inv(a))[i] == init_avail()[i] by {
        assert(a.contains(i as u8));
        lemma_idx_of_props(a, i as u8);
        assert(perm_inv(a)[i] == idx_of(a, i as u8) as u8);
    }
    assert(compose(a, perm_inv(a)) =~= init_avail());
    assert forall|i: int| 0 <= i < 34 implies compose(perm_inv(a), a)[i] == init_avail()[i] by {
        lemma_idx_of_first(a, i);
        assert(compose(perm_inv(a), a)[i] == perm_inv(a)[a[i] as int]);
        assert(perm_inv(a)[a[i] as int] == idx_of(a, a[i]) as u8);
    }
    assert(compose(perm_inv(a), a) =~= init_avail());
}

/// Law: composition of permutations is associative.
pub proof fn lemma_mul_assoc(a: Seq<u8>, b: Seq<u8>, c: Seq<u8>)
    requires
        is_perm(a),
        is_perm(b),
        is_perm(c),
    ensures
        compose(compose(a, b), c) == compose(a, compose(b, c)),
{
    assert forall|i: int| 0 <= i < 34 implies compose(compose(a, b), c)[i] == compose(
        a,
        compose(b, c),
    )[i] by {
        assert(c[i] < 34);
        assert(b[c[i] as int] < 34);
        assert(compose(compose(a, b), c)[i] == compose(a, b)[c[i] as int]);
        assert(compose(a, compose(b, c))[i] == a[compose(b, c)[i] as int]);
    }
    assert(compose(compose(a, b), c) =~= compose(a, compose(b, c)));
}

/// Decide whether a byte slice is a well-formed permutation.
fn check_perm(a: &[u8]) -> (b: bool)
    ensures
        b == is_perm(a@),
{
    if a.len() != 34 {
        return false;
    }
    let mut seen: [bool; 34] = [false; 34];
    let mut i: usize = 0;
    while i < 34
        invariant
            i <= 34,
            a@.len() == 34,
            seen@.len() == 34,
            forall|t: int| 0 <= t < i ==> (#[trigger] a@[t]) < 34,
            forall|v: int|
                0 <= v < 34 ==> ((#[trigger] seen@[v]) <==> exists|t: int|
                    0 <= t < i && #[trigger] a@[t] == v as u8),
            forall|t1: int, t2: int| 0 <= t1 < t2 < i ==> a@[t1] != a@[t2],
        decreases 34 - i,
    {
        let v = a[i];
        if v >= 34 {
            proof {
                assert(a@[i as int] >= 34);
            }
            return false;
        }
        if seen[v as usize] {
            proof {
                let w = choose|t: int| 0 <= t < i && #[trigger] a@[t] == v;
                assert(a@[w] == a@[i as int]);
            }
            return false;
        }
        seen[v as usize] = true;
        i = i + 1;
        proof {
            assert forall|vv: int|
                0 <= vv < 34 implies ((#[trigger] seen@[vv]) <==> exists|t: int|
                    0 <= t < i && #[trigger] a@[t] == vv as u8) by {
                if vv == v as int {
                    assert(a@[i - 1] == vv as u8);
                } else {
                    if exists|t: int| 0 <= t < i && #[trigger] a@[t] == vv as u8 {
                        let w = choose|t: int| 0 <= t < i && #[trigger] a@[t] == vv as u8;
                        assert(w != i - 1);
                        assert(0 <= w < i - 1 && a@[w] == vv as u8);
                    }
                }
            }
            assert forall|t1: int, t2: int| 0 <= t1 < t2 < i implies a@[t1] != a@[t2] by {
                if t2 == i - 1 && a@[t1] == a@[t2] {
                    assert(false);
                }
            }
        }
    }
    proof {
        assert forall|t1: int, t2: int|
            0 <= t1 < a@.len() && 0 <= t2 < a@.len() && t1 != t2 implies a@[t1] != a@[t2] by {
            if t1 < t2 {
                assert(a@[t1] != a@[t2]);
            } else {
                assert(a@[t2] != a@[t1]);
            }
        }
    }
    true
}

/// Composition of two validated permutations.
fn mul_core(a: &[u8], b: &[u8]) -> (p: PERM)
    requires
        is_perm(a@),
        is_perm(b@),
    ensures
        p@ == compose(a@, b@),
        is_perm(p@),
{
    let mut p: PERM = [0u8; 34];
    let mut i: usize = 0;
    while i < 34
        invariant
            i <= 34,
            a@.len() == 34,
            b@.len() == 34,
            is_perm(a@),
            is_perm(b@),
            forall|t: int| 0 <= t < i ==> p@[t] == compose(a@, b@)[t],
        decreases 34 - i,
    {
        let idx = b[i];
        p[i] = a[idx as usize];
        i = i + 1;
    }
    proof {
        assert(p@ =~= compose(a@, b@));
        lemma_compose_is_perm(a@, b@);
    }
    p
}

/// Inverse of a validated permutation.
fn minv_core(a: &[u8]) -> (p: PERM)
    requires
        is_perm(a@),
    ensures
        p@ == perm_inv(a@),
        is_perm(p@),
        forall|i: int| 0 <= i < 34 ==> p@[a@[i] as int] == i as u8,
{
    let mut p: PERM = [0u8; 34];
    let mut i: usize = 0;
    while i < 34
        invariant
            i <= 34,
            a@.len() == 34,
            is_perm(a@),
            forall|t: int| 0 <= t < i ==> p@[a@[t] as int] == t as u8,
        decreases 34 - i,
    {
        let v = a[i];
        p[v as usize] = i as u8;
        i = i + 1;
        proof {
            assert forall|t: int| 0 <= t < i implies p@[a@[t] as int] == t as u8 by {
                if t < i - 1 {
                    assert(a@[t] != a@[i - 1]);
                }
            }
        }
    }
    proof {
        lemma_perm_contains_all(a@);
        assert forall|v: int| 0 <= v < 34 implies p@[v] == perm_inv(a@)[v] by {
            assert(a@.contains(v as u8));
            let w = choose|t: int| 0 <= t < a@.len() && a@[t] == v as u8;
            lemma_idx_of_first(a@, w);
            assert(p@[a@[w] as int] == w as u8);
        }
        assert(p@ =~= perm_inv(a@));
        lemma_perm_inv_is_perm(a@);
    }
    p
}

/// Compose two permutations: `mul(a, b)[i] == a[b[i]]`.
///
/// Fails with `InvalidPermutation` exactly when either operand is
/// malformed; the product of two permutations is always a permutation.
pub fn mul(a: &[u8], b: &[u8]) -> (r: Result<PERM, Error>)
    ensures
        match r {
            Ok(p) => is_perm(a@) && is_perm(b@) && p@ == compose(a@, b@) && is_perm(p@),
            Err(e) => e == Error::InvalidPermutation && !(is_perm(a@) && is_perm(b@)),
        },
{
    if !check_perm(a) {
        return Err(Error::InvalidPermutation);
    }
    if !check_perm(b) {
        return Err(Error::InvalidPermutation);
    }
    Ok(mul_core(a, b))
}

/// Invert a permutation: the result holds, at position `a[i]`, the value
/// `i`, so composing with it on either side yields the identity.
///
/// Fails with `InvalidPermutation` exactly when the operand is malformed.
pub fn minv(a: &[u8]) -> (r: Result<PERM, Error>)
    ensures
        match r {
            Ok(p) => is_perm(a@) && p@ == perm_inv(a@) && is_perm(p@),
            Err(e) => e == Error::InvalidPermutation && !is_perm(a@),
        },
{
    if !check_perm(a) {
        return Err(Error::InvalidPermutation);
    }
    Ok(minv_core(a))
}

/// Quotient of two permutations: `a` composed with the inverse of `b`.
///
/// Fails with `InvalidPermutation` exactly when either operand is
/// malformed.
pub fn div(a: &[u8], b: &[u8]) -> (r: Result<PERM, Error>)
    ensures
        match r {
            Ok(p) => is_perm(a@) && is_perm(b@) && p@ == compose(a@, perm_inv(b@)) && is_perm(p@),
            Err(e) => e == Error::InvalidPermutation && !(is_perm(a@) && is_perm(b@)),
        },
{
    if !check_perm(a) {
        return Err(Error::InvalidPermutation);
    }
    if !check_perm(b) {
        return Err(Error::InvalidPermutation);
    }
    let binv = minv_core(b);
    Ok(mul_core(a, array_as_slice(&binv)))
}

/// Combine an ordered list of permutations by a strict left fold of
/// composition: ((p0 . p1) . p2) . ...; operand order changes the result.
///
/// Fails with `InvalidPermutation` when the list is empty or any entry is
/// malformed.
pub fn muls(perms: &Vec<Vec<u8>>) -> (r: Result<PERM, Error>)
    ensures
        match r {
            Ok(p) => perms@.len() >= 1 && (forall|t: int|
                0 <= t < perms@.len() ==> is_perm(#[trigger] perms@[t]@)) && p@ == compose_all(
                perm_views(perms@),
            ) && is_perm(p@),
            Err(e) => e == Error::InvalidPermutation && (perms@.len() == 0 || exists|t: int|
                0 <= t < perms@.len() && !is_perm(#[trigger] perms@[t]@)),
        },
{
    if perms.len() == 0 {
        return Err(Error::InvalidPermutation);
    }
    if !check_perm(perms[0].as_slice()) {
        proof {
            assert(!is_perm(perms@[0]@));
        }
        return Err(Error::InvalidPermutation);
    }
    let mut p: PERM = [0u8; 34];
    let mut t: usize = 0;
    while t < 34
        invariant
            t <= 34,
            perms@.len() >= 1,
            is_perm(perms@[0]@),
            forall|s: int| 0 <= s < t ==> p@[s] == perms@[0]@[s],
        decreases 34 - t,
    {
        p[t] = perms[0][t];
        t = t + 1;
    }
    proof {
        assert(p@ =~= perms@[0]@);
        assert(perm_views(perms@).take(1) =~= seq![perms@[0]@]);
        assert(compose_all(perm_views(perms@).take(1)) == perms@[0]@);
    }
    let mut k: usize = 1;
    while k < perms.len()
        invariant
            1 <= k <= perms@.len(),
            forall|s: int| 0 <= s < k ==> is_perm(#[trigger] perms@[s]@),
            p@ == compose_all(perm_views(perms@).take(k as int)),
            is_perm(p@),
        decreases perms@.len() - k,
    {
        if !check_perm(perms[k].as_slice()) {
            proof {
                assert(!is_perm(perms@[k as int]@));
            }
            return Err(Error::InvalidPermutation);
        }
        let ghost old_p = p@;
        p = mul_core(array_as_slice(&p), perms[k].as_slice());
        k = k + 1;
        proof {
            let v = perm_views(perms@);
            assert(v.take(k as int).drop_last() =~= v.take(k as int - 1));
            assert(v.take(k as int).last() == perms@[k - 1]@);
            assert(compose_all(v.take(k as int)) == compose(old_p, perms@[k - 1]@));
        }
    }
    proof {
        assert(perm_views(perms@).take(perms@.len() as int) =~= perm_views(perms@));
    }
    Ok(p)
}

/// Compose each consecutive pair of an even-length list: entry `t` of the
/// result is the product of entries `2t` and `2t + 1`.
///
/// Fails with `InvalidLength` when the list has odd length, and with
/// `InvalidPermutation` when any entry is malformed.
pub fn mulpairs(perms: &Vec<Vec<u8>>) -> (r: Result<Vec<PERM>, Error>)
    ensures
        match r {
            Ok(v) => perms@.len() % 2 == 0 && (forall|t: int|
                0 <= t < perms@.len() ==> is_perm(#[trigger] perms@[t]@)) && v@.len() == perms@.len()
                / 2 && (forall|t: int|
                0 <= t < v@.len() ==> (#[trigger] v@[t])@ == compose(
                    perms@[2 * t]@,
                    perms@[2 * t + 1]@,
                )),
            Err(e) => match e {
                Error::InvalidLength => perms@.len() % 2 != 0,
                Error::InvalidPermutation => perms@.len() % 2 == 0 && (exists|t: int|
                    0 <= t < perms@.len() && !is_perm(#[trigger] perms@[t]@)),
                _ => false,
            },
        },
{
    if perms.len() % 2 != 0 {
        return Err(Error::InvalidLength);
    }
    let mut out: Vec<PERM> = Vec::new();
    let mut k: usize = 0;
    while k < perms.len() / 2
        invariant
            0 <= k <= perms@.len() / 2,
            perms@.len() % 2 == 0,
            out@.len() == k as int,
            forall|t: int| 0 <= t < 2 * k ==> is_perm(#[trigger] perms@[t]@),
            forall|t: int|
                0 <= t < k ==> (#[trigger] out@[t])@ == compose(perms@[2 * t]@, perms@[2 * t + 1]@),
        decreases perms@.len() / 2 - k,
    {
        if !check_perm(perms[2 * k].as_slice()) {
            proof {
                assert(!is_perm(perms@[2 * (k as int)]@));
            }
            return Err(Error::InvalidPermutation);
        }
        if !check_perm(perms[2 * k + 1].as_slice()) {
            proof {
                assert(!is_perm(perms@[2 * (k as int) + 1]@));
            }
            return Err(Error::InvalidPermutation);
        }
        let prod = mul_core(perms[2 * k].as_slice(), perms[2 * k + 1].as_slice());
        out.push(prod);
        k = k + 1;
        proof {
            assert forall|t: int| 0 <= t < 2 * k implies is_perm(#[trigger] perms@[t]@) by {
                if t == 2 * (k - 1) || t == 2 * (k - 1) + 1 {
                } else {
                    assert(t < 2 * (k - 1));
                }
            }
        }
    }
    proof {
        assert(forall|t: int| 0 <= t < perms@.len() ==> is_perm(#[trigger] perms@[t]@));
    }
    Ok(out)
}

} // verus!
