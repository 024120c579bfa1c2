//! The bijection between numeric identifiers in [0, 34! - 1] and
//! permutations of the 34 symbols 0..=33.
//!
//! An integer is decoded through the factorial number system (its Lehmer
//! code): the mixed radices 34, 33, ..., 1 pick, one after the other, an
//! element out of the shrinking list of still-available symbols.  Encoding
//! runs the same selection backwards.  The two directions are exact
//! inverses over the whole domain.

use crate::error::Error;
use vstd::arithmetic::div_mod::lemma_div_pos_is_pos;
use vstd::arithmetic::div_mod::lemma_fundamental_div_mod;
use vstd::arithmetic::div_mod::lemma_fundamental_div_mod_converse;
use vstd::arithmetic::div_mod::lemma_mod_pos_bound;
use vstd::arithmetic::div_mod::lemma_multiply_divide_lt;
use vstd::prelude::*;

verus! {

/// Number of symbols a permutation arranges.
pub const PERM_SIZE: usize = 34;

/// A permutation: the 34 byte values 0..=33, each exactly once.
pub type PERM = [u8; 34];

/// 34! - 1, the largest numeric identifier that has a permutation form.
pub const MAXN: u128 = 295232799039604140847618609643519999999;

/// k factorial.
pub open spec fn fact(k: nat) -> int
    decreases k,
{
    if k == 0 {
        1
    } else {
        k * fact((k - 1) as nat)
    }
}

/// The 34 symbols 0..=33 in ascending order: the initial available list of
/// the Lehmer selection, and also the identity permutation.
pub open spec fn init_avail() -> Seq<u8> {
    Seq::new(34, |i: int| i as u8)
}

/// A well-formed permutation: 34 values, all below 34, no value twice.
pub open spec fn is_perm(p: Seq<u8>) -> bool {
    &&& p.len() == 34
    &&& forall|i: int| 0 <= i < 34 ==> (#[trigger] p[i]) < 34
    &&& p.no_duplicates()
}

/// Index of the first occurrence of `x` in `s`, or `s.len()` when absent.
pub open spec fn idx_of(s: Seq<u8>, x: u8) -> int
    decreases s.len(),
{
    if s.len() == 0 {
        0
    } else if s[0] == x {
        0
    } else {
        1 + idx_of(s.drop_first(), x)
    }
}

/// Lehmer decoding of `n` against an available list: digit `n % k` picks
/// the next symbol out of the `k` still available ones.
pub open spec fn lehmer_decode(n: int, avail: Seq<u8>) -> Seq<u8>
    decreases avail.len(),
{
    if avail.len() == 0 {
        Seq::empty()
    } else {
        let k = avail.len() as int;
        let r = n % k;
        seq![avail[r]] + lehmer_decode(n / k, avail.remove(r))
    }
}

/// Lehmer encoding of a permutation against an available list: the inverse
/// selection, accumulating each position as a factorial-base digit.
pub open spec fn lehmer_encode(p: Seq<u8>, avail: Seq<u8>) -> int
    decreases p.len(),
{
    if p.len() == 0 {
        0
    } else {
        let i = idx_of(avail, p[0]);
        i + (avail.len() as int) * lehmer_encode(p.drop_first(), avail.remove(i))
    }
}

/// Factorials are positive.
proof fn lemma_fact_pos(k: nat)
    ensures
        fact(k) >= 1,
    decreases k,
{
    if k > 0 {
        lemma_fact_pos((k - 1) as nat);
        assert(k * fact((k - 1) as nat) >= 1) by (nonlinear_arith)
            requires
                k >= 1,
                fact((k - 1) as nat) >= 1,
        ;
    }
}

/// The value of 34 factorial; one past `MAXN`.
proof fn lemma_fact_34()
    ensures
        fact(34) == 295232799039604140847618609643520000000int,
{
    assert(fact(0) == 1);
    assert(fact(1) == 1);
    assert(fact(2) == 2);
    assert(fact(3) == 6);
    assert(fact(4) == 24);
    assert(fact(5) == 120);
    assert(fact(6) == 720);
    assert(fact(7) == 5040);
    assert(fact(8) == 40320);
    assert(fact(9) == 362880);
    assert(fact(10) == 3628800);
    assert(fact(11) == 39916800);
    assert(fact(12) == 479001600);
    assert(fact(13) == 6227020800);
    assert(fact(14) == 87178291200);
    assert(fact(15) == 1307674368000);
    assert(fact(16) == 20922789888000);
    assert(fact(17) == 355687428096000);
    assert(fact(18) == 6402373705728000);
    assert(fact(19) == 121645100408832000);
    assert(fact(20) == 2432902008176640000);
    assert(fact(21) == 51090942171709440000);
    assert(fact(22) == 1124000727777607680000);
    assert(fact(23) == 25852016738884976640000);
    assert(fact(24) == 620448401733239439360000);
    assert(fact(25) == 15511210043330985984000000);
    assert(fact(26) == 403291461126605635584000000);
    assert(fact(27) == 10888869450418352160768000000);
    assert(fact(28) == 304888344611713860501504000000);
    assert(fact(29) == 8841761993739701954543616000000);
    assert(fact(30) == 265252859812191058636308480000000);
    assert(fact(31) == 8222838654177922817725562880000000);
    assert(fact(32) == 263130836933693530167218012160000000);
    assert(fact(33) == 8683317618811886495518194401280000000);
    assert(fact(34) == 295232799039604140847618609643520000000);
}

/// What `idx_of` finds: a first occurrence when the element is present, the
/// length when it is not.
pub proof fn lemma_idx_of_props(s: Seq<u8>, x: u8)
    ensures
        s.contains(x) ==> 0 <= idx_of(s, x) < s.len() && s[idx_of(s, x)] == x,
        !s.contains(x) ==> idx_of(s, x) == s.len(),
    decreases s.len(),
{
    if s.len() > 0 && s[0] != x {
        let d = s.drop_first();
        lemma_idx_of_props(d, x);
        if s.contains(x) {
            let w = choose|i: int| 0 <= i < s.len() && s[i] == x;
            assert(d[w - 1] == x);
            assert(d.contains(x));
        }
        if d.contains(x) {
            let w = choose|i: int| 0 <= i < d.len() && d[i] == x;
            assert(s[w + 1] == x);
            assert(s.contains(x));
        }
    }
}

/// In a duplicate-free sequence, `idx_of` returns the exact position of
/// each element.
pub proof fn lemma_idx_of_first(s: Seq<u8>, r: int)
    requires
        s.no_duplicates(),
        0 <= r < s.len(),
    ensures
        idx_of(s, s[r]) == r,
    decreases s.len(),
{
    if r > 0 {
        let d = s.drop_first();
        assert forall|i: int, j: int|
            0 <= i < d.len() && 0 <= j < d.len() && i != j implies d[i] != d[j] by {
            assert(d[i] == s[i + 1]);
            assert(d[j] == s[j + 1]);
        }
        assert(d[r - 1] == s[r]);
        lemma_idx_of_first(d, r - 1);
    }
}

/// Removing one position from a duplicate-free sequence keeps it
/// duplicate-free and drops exactly the removed value.
proof fn lemma_remove_props(s: Seq<u8>, i: int)
    requires
        s.no_duplicates(),
        0 <= i < s.len(),
    ensures
        s.remove(i).no_duplicates(),
        forall|x: u8| s.remove(i).contains(x) <==> (s.contains(x) && x != s[i]),
{
    s.remove_ensures(i);
    let t = s.remove(i);
    assert forall|x: u8| t.contains(x) implies (s.contains(x) && x != s[i]) by {
        let w = choose|j: int| 0 <= j < t.len() && t[j] == x;
        if w < i {
            assert(s[w] == x);
        } else {
            assert(s[w + 1] == x);
        }
    }
    assert forall|x: u8| (s.contains(x) && x != s[i]) implies t.contains(x) by {
        let w = choose|j: int| 0 <= j < s.len() && s[j] == x;
        if w < i {
            assert(t[w] == x);
        } else {
            assert(t[w - 1] == x);
        }
    }
    assert forall|a: int, b: int|
        0 <= a < t.len() && 0 <= b < t.len() && a != b implies t[a] != t[b] by {
        if a < i {
            assert(t[a] == s[a]);
        } else {
            assert(t[a] == s[a + 1]);
        }
        if b < i {
            assert(t[b] == s[b]);
        } else {
            assert(t[b] == s[b + 1]);
        }
    }
}

/// Law: decoding a number in [0, k!-1] against a duplicate-free available
/// list of length k yields an arrangement of exactly those symbols, and
/// encoding it back returns the number.
pub proof fn lemma_lehmer_decode_props(n: int, avail: Seq<u8>)
    requires
        0 <= n < fact(avail.len()),
        avail.no_duplicates(),
    ensures
        lehmer_decode(n, avail).len() == avail.len(),
        lehmer_decode(n, avail).no_duplicates(),
        forall|x: u8| lehmer_decode(n, avail).contains(x) <==> avail.contains(x),
        lehmer_encode(lehmer_decode(n, avail), avail) == n,
    decreases avail.len(),
{
    let d = lehmer_decode(n, avail);
    if avail.len() == 0 {
        assert(d =~= Seq::<u8>::empty());
        assert forall|x: u8| !d.contains(x) && !avail.contains(x) by {}
    } else {
        let k = avail.len() as int;
        lemma_mod_pos_bound(n, k);
        let r = n % k;
        let avail1 = avail.remove(r);
        lemma_remove_props(avail, r);
        assert(fact(avail.len()) == k * fact((avail.len() - 1) as nat));
        lemma_multiply_divide_lt(n, k, fact((avail.len() - 1) as nat));
        lemma_div_pos_is_pos(n, k);
        lemma_lehmer_decode_props(n / k, avail1);
        let d1 = lehmer_decode(n / k, avail1);
        assert(d == seq![avail[r]] + d1);
        assert(d.len() == avail.len());
        assert(seq![avail[r]].no_duplicates());
        assert forall|i: int, j: int|
            0 <= i < 1 && 0 <= j < d1.len() implies seq![avail[r]][i] != d1[j] by {
            assert(d1.contains(d1[j]));
            assert(avail1.contains(d1[j]));
            assert(d1[j] != avail[r]);
            assert(seq![avail[r]][i] == avail[r]);
        }
        vstd::seq_lib::lemma_no_dup_in_concat(seq![avail[r]], d1);
        assert forall|x: u8| d.contains(x) implies avail.contains(x) by {
            let w = choose|j: int| 0 <= j < d.len() && d[j] == x;
            if w == 0 {
                assert(x == avail[r]);
            } else {
                assert(d1[w - 1] == x);
                assert(d1.contains(x));
            }
        }
        assert forall|x: u8| avail.contains(x) implies d.contains(x) by {
            if x == avail[r] {
                assert(d[0] == x);
            } else {
                assert(avail1.contains(x));
                assert(d1.contains(x));
                let w = choose|j: int| 0 <= j < d1.len() && d1[j] == x;
                assert(d[w + 1] == x);
            }
        }
        lemma_idx_of_first(avail, r);
        assert(d[0] == avail[r]);
        assert(d.drop_first() =~= d1);
        assert(lehmer_encode(d, avail) == r + k * (n / k));
        lemma_fundamental_div_mod(n, k);
    }
}

/// Law: encoding an arrangement of a duplicate-free available list yields a
/// number in [0, k!-1], and decoding that number returns the arrangement.
pub proof fn lemma_lehmer_encode_props(p: Seq<u8>, avail: Seq<u8>)
    requires
        avail.no_duplicates(),
        p.no_duplicates(),
        p.len() == avail.len(),
        forall|x: u8| p.contains(x) ==> avail.contains(x),
    ensures
        0 <= lehmer_encode(p, avail) < fact(p.len()),
        lehmer_decode(lehmer_encode(p, avail), avail) == p,
    decreases p.len(),
{
    if p.len() == 0 {
        assert(lehmer_decode(0, avail) =~= p);
    } else {
        let k = avail.len() as int;
        assert(p.contains(p[0]));
        lemma_idx_of_props(avail, p[0]);
        let i = idx_of(avail, p[0]);
        let avail1 = avail.remove(i);
        let p1 = p.drop_first();
        lemma_remove_props(avail, i);
        assert forall|a: int, b: int|
            0 <= a < p1.len() && 0 <= b < p1.len() && a != b implies p1[a] != p1[b] by {
            assert(p1[a] == p[a + 1]);
            assert(p1[b] == p[b + 1]);
        }
        assert forall|x: u8| p1.contains(x) implies avail1.contains(x) by {
            let w = choose|j: int| 0 <= j < p1.len() && p1[j] == x;
            assert(p[w + 1] == x);
            assert(p.contains(x));
            assert(x != p[0]);
        }
        lemma_lehmer_encode_props(p1, avail1);
        let e1 = lehmer_encode(p1, avail1);
        let e = i + k * e1;
        assert(lehmer_encode(p, avail) == e);
        let f1 = fact((p.len() - 1) as nat);
        assert(fact(p.len()) == k * f1);
        assert(0 <= e < k * f1) by (nonlinear_arith)
            requires
                0 <= i < k,
                0 <= e1 < f1,
                e == i + k * e1,
        ;
        lemma_fundamental_div_mod_converse(e, k, e1, i);
        assert(lehmer_decode(e, avail) == seq![avail[i]] + lehmer_decode(e1, avail1));
        assert(seq![p[0]] + p1 =~= p);
    }
}

/// The initial available list: 34 distinct symbols, exactly the byte values
/// below 34.
pub proof fn lemma_init_avail_props()
    ensures
        init_avail().len() == 34,
        init_avail().no_duplicates(),
        forall|x: u8| init_avail().contains(x) <==> x < 34,
{
    assert forall|x: u8| x < 34 implies init_avail().contains(x) by {
        assert(init_avail()[x as int] == x);
    }
}

/// Law: every numeric identifier up to 34! - 1 decodes to a well-formed
/// permutation, and encoding that permutation returns the identifier.
pub proof fn lemma_perm_round_trip_int(n: u128)
    requires
        n <= MAXN,
    ensures
        is_perm(lehmer_decode(n as int, init_avail())),
        lehmer_encode(lehmer_decode(n as int, init_avail()), init_avail()) == n as int,
{
    lemma_init_avail_props();
    lemma_fact_34();
    lemma_lehmer_decode_props(n as int, init_avail());
    let d = lehmer_decode(n as int, init_avail());
    assert forall|i: int| 0 <= i < 34 implies (#[trigger] d[i]) < 34 by {
        assert(d.contains(d[i]));
        assert(init_avail().contains(d[i]));
    }
}

/// Law: every well-formed permutation encodes to a numeric identifier at
/// most 34! - 1, and decoding that identifier returns the permutation.
pub proof fn lemma_perm_round_trip_perm(p: Seq<u8>)
    requires
        is_perm(p),
    ensures
        0 <= lehmer_encode(p, init_avail()) <= MAXN,
        lehmer_decode(lehmer_encode(p, init_avail()), init_avail()) == p,
{
    lemma_init_avail_props();
    lemma_fact_34();
    assert forall|x: u8| p.contains(x) implies init_avail().contains(x) by {
        let w = choose|j: int| 0 <= j < p.len() && p[j] == x;
        assert(p[w] < 34);
    }
    lemma_lehmer_encode_props(p, init_avail());
}

/// A well-formed permutation holds every symbol below 34.
pub proof fn lemma_perm_contains_all(p: Seq<u8>)
    requires
        is_perm(p),
    ensures
        forall|x: u8| x < 34 ==> p.contains(x),
{
    lemma_perm_round_trip_perm(p);
    lemma_init_avail_props();
    lemma_fact_34();
    let e = lehmer_encode(p, init_avail());
    lemma_lehmer_decode_props(e, init_avail());
    let d = lehmer_decode(e, init_avail());
    assert forall|x: u8| x < 34 implies p.contains(x) by {
        assert(init_avail().contains(x));
        assert(d.contains(x));
    }
}


/// Position of the first occurrence of `x` in a duplicate-free list.
fn find_index(avail: &Vec<u8>, x: u8) -> (r: Option<usize>)
    requires
        avail@.no_duplicates(),
    ensures
        match r {
            Some(j) => avail@.contains(x) && j < avail@.len() && avail@[j as int] == x && j as int
                == idx_of(avail@, x),
            None => !avail@.contains(x),
        },
{
    let mut j: usize = 0;
    while j < avail.len()
        invariant
            avail@.no_duplicates(),
            j <= avail@.len(),
            forall|t: int| 0 <= t < j ==> avail@[t] != x,
        decreases avail@.len() - j,
    {
        if avail[j] == x {
            proof {
                assert(avail@.contains(x));
                lemma_idx_of_first(avail@, j as int);
            }
            return Some(j);
        }
        j = j + 1;
    }
    proof {
        if avail@.contains(x) {
            let w = choose|t: int| 0 <= t < avail@.len() && avail@[t] == x;
            assert(false);
        }
    }
    None
}

/// The ascending list of the 34 symbols, as a vector.
fn fresh_avail() -> (avail: Vec<u8>)
    ensures
        avail@ == init_avail(),
{
    let mut avail: Vec<u8> = Vec::new();
    let mut i: u8 = 0;
    while i < 34
        invariant
            i <= 34,
            avail@.len() == i as int,
            forall|j: int| 0 <= j < i ==> avail@[j] == init_avail()[j],
        decreases 34 - i,
    {
        avail.push(i);
        i = i + 1;
    }
    proof {
        assert(avail@ =~= init_avail());
    }
    avail
}

/// Convert a numeric identifier to its 34-symbol permutation form.
///
/// Fails with `OutOfRange` exactly when `n` exceeds 34! - 1; every other
/// input decodes to a well-formed permutation.
pub fn int_to_perm(n: &u128) -> (r: Result<PERM, Error>)
    ensures
        match r {
            Ok(p) => *n <= MAXN && p@ == lehmer_decode(*n as int, init_avail()) && is_perm(p@),
            Err(e) => e == Error::OutOfRange && *n > MAXN,
        },
{
    if *n > MAXN {
        return Err(Error::OutOfRange);
    }
    proof {
        lemma_fact_34();
        lemma_init_avail_props();
    }
    let mut avail: Vec<u8> = fresh_avail();
    let mut perm: PERM = [0u8; 34];
    let mut quot: u128 = *n;
    let mut pos: usize = 0;
    proof {
        assert(perm@.take(0) =~= Seq::<u8>::empty());
        assert(perm@.take(0) + lehmer_decode(*n as int, avail@) =~= lehmer_decode(
            *n as int,
            init_avail(),
        ));
    }
    while pos < 34
        invariant
            pos <= 34,
            avail@.len() == 34 - pos,
            avail@.no_duplicates(),
            (quot as int) < fact((34 - pos) as nat),
            lehmer_decode(*n as int, init_avail()) == perm@.take(pos as int) + lehmer_decode(
                quot as int,
                avail@,
            ),
        decreases 34 - pos,
    {
        let radix: u128 = (34 - pos) as u128;
        let rem: u128 = quot % radix;
        proof {
            lemma_mod_pos_bound(quot as int, radix as int);
            assert(fact((34 - pos) as nat) == radix as int * fact((33 - pos) as nat));
            lemma_multiply_divide_lt(quot as int, radix as int, fact((33 - pos) as nat));
            lemma_div_pos_is_pos(quot as int, radix as int);
            lemma_remove_props(avail@, rem as int);
        }
        let ghost avail_old = avail@;
        let ghost quot_old = quot as int;
        let ghost take_old = perm@.take(pos as int);
        let picked = avail.remove(rem as usize);
        quot = quot / radix;
        perm[pos] = picked;
        pos = pos + 1;
        proof {
            assert(picked == avail_old[rem as int]);
            assert(lehmer_decode(quot_old, avail_old) == seq![picked] + lehmer_decode(
                quot as int,
                avail@,
            ));
            assert(perm@.take(pos as int) =~= take_old + seq![picked]);
            assert(take_old + (seq![picked] + lehmer_decode(quot as int, avail@)) =~= (take_old
                + seq![picked]) + lehmer_decode(quot as int, avail@));
        }
    }
    proof {
        assert(lehmer_decode(quot as int, avail@) =~= Seq::<u8>::empty());
        assert(perm@.take(34) =~= perm@);
        assert(perm@.take(34) + lehmer_decode(quot as int, avail@) =~= perm@);
        lemma_perm_round_trip_int(*n);
    }
    Ok(perm)
}

/// Convert a 34-symbol permutation to its numeric identifier.
///
/// Fails with `InvalidPermutation` exactly when the input is not a
/// permutation of the symbols 0..=33 (wrong length, value out of domain, or
/// a duplicate); the identifier of a well-formed permutation never exceeds
/// 34! - 1.
pub fn perm_to_int(p: &[u8]) -> (r: Result<u128, Error>)
    ensures
        match r {
            Ok(n) => is_perm(p@) && n as int == lehmer_encode(p@, init_avail()) && n <= MAXN,
            Err(e) => e == Error::InvalidPermutation && !is_perm(p@),
        },
{
    if p.len() != 34 {
        return Err(Error::InvalidPermutation);
    }
    proof {
        lemma_fact_34();
        lemma_init_avail_props();
    }
    let mut avail: Vec<u8> = fresh_avail();
    let mut acc: u128 = 0;
    let mut place: u128 = 1;
    let mut pos: usize = 0;
    proof {
        assert(p@.take(0) =~= Seq::<u8>::empty());
        assert(p@.skip(0) =~= p@);
        assert(lehmer_encode(p@, init_avail()) == 0 + 1 * lehmer_encode(p@.skip(0), avail@));
    }
    while pos < 34
        invariant
            pos <= 34,
            p@.len() == 34,
            avail@.len() == 34 - pos,
            avail@.no_duplicates(),
            forall|x: u8| avail@.contains(x) <==> (x < 34 && !p@.take(pos as int).contains(x)),
            forall|i: int| 0 <= i < pos ==> (#[trigger] p@[i]) < 34,
            forall|i: int, j: int| 0 <= i < j < pos ==> p@[i] != p@[j],
            place as int * fact((34 - pos) as nat) == fact(34),
            (acc as int) < place as int,
            lehmer_encode(p@, init_avail()) == acc as int + place as int * lehmer_encode(
                p@.skip(pos as int),
                avail@,
            ),
        decreases 34 - pos,
    {
        let radix: u128 = (34 - pos) as u128;
        match find_index(&avail, p[pos]) {
            None => {
                proof {
                    if is_perm(p@) {
                        assert(p@[pos as int] < 34);
                        if p@.take(pos as int).contains(p@[pos as int]) {
                            let w = choose|t: int|
                                0 <= t < pos && #[trigger] p@.take(pos as int)[t] == p@[pos as int];
                            assert(p@[w] == p@[pos as int]);
                            assert(false);
                        }
                        assert(avail@.contains(p@[pos as int]));
                        assert(false);
                    }
                }
                return Err(Error::InvalidPermutation);
            },
            Some(j) => {
                let ghost avail_old = avail@;
                let ghost place_old = place as int;
                let ghost acc_old = acc as int;
                let ghost e_rest = lehmer_encode(p@.skip(pos as int), avail_old);
                proof {
                    lemma_fact_34();
                    lemma_remove_props(avail@, j as int);
                    assert(p@.skip(pos as int)[0] == p@[pos as int]);
                    assert(p@.skip(pos as int).drop_first() =~= p@.skip(pos as int + 1));
                    lemma_fact_pos((33 - pos) as nat);
                    assert(fact((34 - pos) as nat) == radix as int * fact((33 - pos) as nat));
                    assert(place_old * radix as int <= fact(34)) by (nonlinear_arith)
                        requires
                            place_old * (radix as int * fact((33 - pos) as nat)) == fact(34),
                            fact((33 - pos) as nat) >= 1,
                            place_old >= 1,
                            radix as int >= 1,
                    ;
                }
                avail.remove(j);
                let ghost e_rest1 = lehmer_encode(p@.skip(pos as int + 1), avail@);
                proof {
                    assert(e_rest == j + radix as int * e_rest1);
                    assert(acc_old + (j as int) * place_old < place_old * radix as int)
                        by (nonlinear_arith)
                        requires
                            0 <= acc_old < place_old,
                            0 <= j as int <= radix as int - 1,
                            place_old >= 1,
                    ;
                }
                acc = acc + (j as u128) * place;
                place = place * radix;
                pos = pos + 1;
                proof {
                    assert(place as int * fact((34 - pos) as nat) == fact(34)) by (nonlinear_arith)
                        requires
                            place_old * (radix as int * fact((34 - pos) as nat)) == fact(34),
                            place as int == place_old * radix as int,
                    ;
                    assert(acc_old + place_old * (j + radix as int * e_rest1) == acc as int
                        + place as int * e_rest1) by (nonlinear_arith)
                        requires
                            acc as int == acc_old + (j as int) * place_old,
                            place as int == place_old * radix as int,
                    ;
                    assert forall|x: u8| avail@.contains(x) <==> (x < 34 && !p@.take(
                        pos as int,
                    ).contains(x)) by {
                        assert(p@.take(pos as int) =~= p@.take(pos as int - 1) + seq![
                            p@[pos as int - 1],
                        ]);
                        if avail@.contains(x) {
                            assert(avail_old.contains(x) && x != avail_old[j as int]);
                            if p@.take(pos as int).contains(x) {
                                let w = choose|t: int|
                                    0 <= t < pos && #[trigger] p@.take(pos as int)[t] == x;
                                if w < pos - 1 {
                                    assert(p@.take(pos as int - 1)[w] == x);
                                    assert(p@.take(pos as int - 1).contains(x));
                                    assert(false);
                                } else {
                                    assert(x == p@[pos as int - 1]);
                                    assert(false);
                                }
                            }
                        }
                        if x < 34 && !p@.take(pos as int).contains(x) {
                            assert(!p@.take(pos as int - 1).contains(x)) by {
                                if p@.take(pos as int - 1).contains(x) {
                                    let w = choose|t: int|
                                        0 <= t < pos - 1 && #[trigger] p@.take(pos as int - 1)[t] == x;
                                    assert(p@.take(pos as int)[w] == x);
                                    assert(false);
                                }
                            }
                            assert(avail_old.contains(x));
                            assert(x != p@[pos as int - 1]) by {
                                if x == p@[pos as int - 1] {
                                    assert(p@.take(pos as int)[pos - 1] == x);
                                    assert(false);
                                }
                            }
                            assert(avail@.contains(x));
                        }
                    }
                    assert forall|i: int, j2: int| 0 <= i < j2 < pos implies p@[i] != p@[j2] by {
                        if j2 == pos - 1 {
                            assert(avail_old.contains(p@[pos as int - 1]));
                            if p@[i] == p@[j2] {
                                assert(p@.take(pos as int - 1)[i] == p@[i]);
                                assert(p@.take(pos as int - 1).contains(p@[j2]));
                                assert(false);
                            }
                        }
                    }
                }
            },
        }
    }
    proof {
        assert(p@.take(34) =~= p@);
        assert(p@.skip(34) =~= Seq::<u8>::empty());
        assert(lehmer_encode(p@.skip(pos as int), avail@) == 0);
        assert(is_perm(p@)) by {
            assert forall|i: int, j: int|
                0 <= i < p@.len() && 0 <= j < p@.len() && i != j implies p@[i] != p@[j] by {
                if i < j {
                    assert(p@[i] != p@[j]);
                } else {
                    assert(p@[j] != p@[i]);
                }
            }
        }
    }
    Ok(acc)
}

} // verus!
