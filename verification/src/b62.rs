//! Fixed-width base-62 text codec for 128-bit numeric identifiers.
//!
//! A text identifier is exactly 22 symbols drawn from the alphabet
//! '0'-'9', 'A'-'Z', 'a'-'z' (in that order of numeric weight), with the
//! leftmost symbol most significant.  62^22 exceeds 2^128, so every 128-bit
//! integer has a unique 22-symbol form, padded with leading zero-symbols.

use crate::error::Error;
use vstd::arithmetic::div_mod::lemma_breakdown;
use vstd::arithmetic::div_mod::lemma_div_basics;
use vstd::arithmetic::div_mod::lemma_div_denominator;
use vstd::arithmetic::div_mod::lemma_small_mod;
use vstd::arithmetic::power::lemma_pow0;
use vstd::arithmetic::power::lemma_pow1;
use vstd::arithmetic::power::lemma_pow_adds;
use vstd::arithmetic::power::lemma_pow_positive;
use vstd::arithmetic::power::pow;
use vstd::prelude::*;

verus! {

/// Number of symbols in a text identifier.
pub const NDIGITS: usize = 22;

/// A text identifier: exactly 22 base-62 symbols.
pub type DIGITS = [u8; 22];

/// True for the bytes of the 62-symbol alphabet: '0'-'9', 'A'-'Z', 'a'-'z'.
pub open spec fn is_b62_symbol(c: u8) -> bool {
    (48 <= c && c <= 57) || (65 <= c && c <= 90) || (97 <= c && c <= 122)
}

/// Numeric weight of an alphabet byte: digits carry 0-9, uppercase letters
/// 10-35, lowercase letters 36-61.
pub open spec fn b62_val_of(c: u8) -> int {
    if 48 <= c && c <= 57 {
        c - 48
    } else if 65 <= c && c <= 90 {
        c - 55
    } else {
        c - 61
    }
}

/// Alphabet byte for a weight in [0, 62).
pub open spec fn b62_char_of(d: int) -> u8 {
    if d < 10 {
        (48 + d) as u8
    } else if d < 36 {
        (55 + d) as u8
    } else {
        (61 + d) as u8
    }
}

/// Digit of weight position `i` (0 is leftmost, most significant) in the
/// base-62 expansion of `n`.
pub open spec fn b62_digit(n: int, i: int) -> int {
    (n / pow(62, (21 - i) as nat)) % 62
}

/// The canonical 22-symbol base-62 encoding of `n`.
pub open spec fn b62_digits_of(n: int) -> Seq<u8> {
    Seq::new(22, |i: int| b62_char_of(b62_digit(n, i)))
}

/// True when every byte of `s` belongs to the base-62 alphabet.
pub open spec fn all_b62_symbols(s: Seq<u8>) -> bool {
    forall|i: int| 0 <= i < s.len() ==> is_b62_symbol(#[trigger] s[i])
}

/// Numeric value of a symbol sequence read in base 62, leftmost symbol most
/// significant (Horner's rule).
pub open spec fn b62_decode(s: Seq<u8>) -> int
    decreases s.len(),
{
    if s.len() == 0 {
        0
    } else {
        b62_decode(s.drop_last()) * 62 + b62_val_of(s.last())
    }
}

/// The alphabet byte of every weight in [0, 62) is a valid symbol and maps
/// back to that weight.
proof fn lemma_b62_char_val(d: int)
    requires
        0 <= d < 62,
    ensures
        is_b62_symbol(b62_char_of(d)),
        b62_val_of(b62_char_of(d)) == d,
{
}

/// A sequence of alphabet symbols decodes to a non-negative value.
proof fn lemma_b62_decode_nonneg(s: Seq<u8>)
    requires
        all_b62_symbols(s),
    ensures
        b62_decode(s) >= 0,
    decreases s.len(),
{
    if s.len() > 0 {
        assert(all_b62_symbols(s.drop_last()));
        lemma_b62_decode_nonneg(s.drop_last());
    }
}

/// Dropping symbols from the right can only lower the decoded value.
proof fn lemma_b62_decode_prefix_le(s: Seq<u8>, m: int)
    requires
        all_b62_symbols(s),
        0 <= m <= s.len(),
    ensures
        b62_decode(s.take(m)) <= b62_decode(s),
    decreases s.len() - m,
{
    if m == s.len() {
        assert(s.take(m) =~= s);
    } else {
        let t = s.take(m + 1);
        assert(t.drop_last() =~= s.take(m));
        assert(t.last() == s[m]);
        assert(all_b62_symbols(s.take(m)));
        lemma_b62_decode_nonneg(s.take(m));
        assert(b62_decode(t) == b62_decode(s.take(m)) * 62 + b62_val_of(s[m]));
        lemma_b62_decode_prefix_le(s, m + 1);
    }
}

/// The digit sequence of `m` in `len` base-62 positions decodes to
/// `m % 62^len`.
proof fn lemma_b62_digits_decode(m: int, len: nat)
    requires
        0 <= m,
    ensures
        b62_decode(Seq::new(len, |i: int| b62_char_of((m / pow(62, (len - 1 - i) as nat)) % 62)))
            == m % pow(62, len),
    decreases len,
{
    lemma_pow_positive(62, len);
    let s = Seq::new(len, |i: int| b62_char_of((m / pow(62, (len - 1 - i) as nat)) % 62));
    if len == 0 {
        lemma_pow0(62);
        lemma_small_mod(0, 1);
    } else {
        let len1 = (len - 1) as nat;
        lemma_pow_positive(62, len1);
        let q = m / 62;
        vstd::arithmetic::div_mod::lemma_div_pos_is_pos(m, 62);
        let s1 = Seq::new(len1, |i: int| b62_char_of((q / pow(62, (len1 - 1 - i) as nat)) % 62));
        assert(s.drop_last() =~= s1) by {
            assert forall|i: int| 0 <= i < len1 implies s[i] == s1[i] by {
                lemma_pow_positive(62, (len1 - 1 - i) as nat);
                lemma_div_denominator(m, 62, pow(62, (len1 - 1 - i) as nat));
                lemma_pow1(62);
                lemma_pow_adds(62, 1, (len1 - 1 - i) as nat);
                assert(pow(62, (len - 1 - i) as nat) == 62 * pow(62, (len1 - 1 - i) as nat));
            }
        }
        lemma_b62_digits_decode(q, len1);
        assert(s.last() == b62_char_of((m / pow(62, 0)) % 62));
        lemma_pow0(62);
        lemma_div_basics(m);
        lemma_b62_char_val(m % 62);
        assert(b62_decode(s) == (q % pow(62, len1)) * 62 + m % 62);
        lemma_breakdown(m, 62, pow(62, len1));
        lemma_pow1(62);
        lemma_pow_adds(62, 1, len1);
        assert(pow(62, len) == 62 * pow(62, len1));
    }
}

/// 62^22 exceeds 2^128, so a 22-symbol identifier can carry any 128-bit
/// integer.
proof fn lemma_pow62_22_exceeds_u128()
    ensures
        pow(62, 22) > 0x100000000000000000000000000000000int,
{
    lemma_pow1(62);
    lemma_pow_adds(62, 1, 1);
    assert(pow(62, 2) == 3844);
    lemma_pow_adds(62, 2, 2);
    assert(pow(62, 4) == 14776336) by (nonlinear_arith)
        requires
            pow(62, 4) == pow(62, 2) * pow(62, 2),
            pow(62, 2) == 3844,
    ;
    lemma_pow_adds(62, 4, 4);
    assert(pow(62, 8) == 218340105584896) by (nonlinear_arith)
        requires
            pow(62, 8) == pow(62, 4) * pow(62, 4),
            pow(62, 4) == 14776336,
    ;
    lemma_pow_adds(62, 8, 8);
    assert(pow(62, 16) == 47672401706823533450263330816) by (nonlinear_arith)
        requires
            pow(62, 16) == pow(62, 8) * pow(62, 8),
            pow(62, 8) == 218340105584896,
    ;
    lemma_pow_adds(62, 16, 4);
    assert(pow(62, 20) == 704423425546998022968330264616370176) by (nonlinear_arith)
        requires
            pow(62, 20) == pow(62, 16) * pow(62, 4),
            pow(62, 16) == 47672401706823533450263330816,
            pow(62, 4) == 14776336,
    ;
    lemma_pow_adds(62, 20, 2);
    assert(pow(62, 22) == 2707803647802660400290261537185326956544) by (nonlinear_arith)
        requires
            pow(62, 22) == pow(62, 20) * pow(62, 2),
            pow(62, 20) == 704423425546998022968330264616370176,
            pow(62, 2) == 3844,
    ;
}

/// Law: the canonical 22-symbol encoding of any 128-bit integer is made of
/// alphabet symbols and decodes back to that integer.
pub proof fn lemma_b62_round_trip(n: u128)
    ensures
        b62_digits_of(n as int).len() == 22,
        all_b62_symbols(b62_digits_of(n as int)),
        b62_decode(b62_digits_of(n as int)) == n as int,
{
    assert forall|i: int| 0 <= i < 22 implies is_b62_symbol(#[trigger] b62_digits_of(n as int)[i]) by {
        lemma_pow_positive(62, (21 - i) as nat);
        vstd::arithmetic::div_mod::lemma_mod_pos_bound(
            n as int / pow(62, (21 - i) as nat),
            62,
        );
        lemma_b62_char_val(b62_digit(n as int, i));
    }
    lemma_b62_digits_decode(n as int, 22);
    assert(b62_digits_of(n as int) =~= Seq::new(
        22,
        |i: int| b62_char_of((n as int / pow(62, (22 - 1 - i) as nat)) % 62),
    ));
    lemma_pow62_22_exceeds_u128();
    lemma_small_mod(n as nat, pow(62, 22) as nat);
}

/// Alphabet byte for a weight below 62.
fn b62_char(d: u128) -> (c: u8)
    requires
        d < 62,
    ensures
        c == b62_char_of(d as int),
{
    if d < 10 {
        48 + (d as u8)
    } else if d < 36 {
        55 + (d as u8)
    } else {
        61 + (d as u8)
    }
}

/// Weight of an alphabet byte, or `None` for a byte outside the alphabet.
fn b62_sym_val(c: u8) -> (r: Option<u8>)
    ensures
        match r {
            Some(v) => is_b62_symbol(c) && v as int == b62_val_of(c),
            None => !is_b62_symbol(c),
        },
{
    if 48 <= c && c <= 57 {
        Some(c - 48)
    } else if 65 <= c && c <= 90 {
        Some(c - 55)
    } else if 97 <= c && c <= 122 {
        Some(c - 61)
    } else {
        None
    }
}

/// Encode a 128-bit integer as its fixed-width 22-symbol base-62 text form.
///
/// Small values come out padded with leading zero-symbols; every input
/// succeeds, since 62^22 > 2^128.
pub fn to_b62(n: &u128) -> (s: DIGITS)
    ensures
        s@ == b62_digits_of(*n as int),
        all_b62_symbols(s@),
        b62_decode(s@) == *n as int,
{
    let mut s: DIGITS = [0u8; 22];
    let mut quot: u128 = *n;
    let mut i: usize = 22;
    proof {
        lemma_pow0(62);
        lemma_div_basics(*n as int);
    }
    while i > 0
        invariant
            i <= 22,
            quot as int == (*n as int) / pow(62, (22 - i) as nat),
            forall|j: int| i <= j < 22 ==> s@[j] == b62_char_of(b62_digit(*n as int, j)),
        decreases i,
    {
        proof {
            lemma_pow_positive(62, (22 - i) as nat);
        }
        i = i - 1;
        let rem: u128 = quot % 62;
        proof {
            assert((22 - (i + 1)) as nat == (21 - i) as nat);
            assert(rem as int == b62_digit(*n as int, i as int));
        }
        s[i] = b62_char(rem);
        quot = quot / 62;
        proof {
            lemma_div_denominator(*n as int, pow(62, (21 - i) as nat), 62);
            lemma_pow1(62);
            lemma_pow_adds(62, (21 - i) as nat, 1);
            assert(pow(62, (22 - i) as nat) == pow(62, (21 - i) as nat) * 62);
        }
    }
    proof {
        lemma_b62_round_trip(*n);
        assert(s@ =~= b62_digits_of(*n as int));
    }
    s
}

/// Decode a 22-symbol base-62 text identifier back to its 128-bit integer.
///
/// Fails with `InvalidLength` unless exactly 22 symbols are given, with
/// `InvalidSymbol` if any byte is outside the alphabet, and with
/// `OutOfRange` if the decoded value does not fit in 128 bits.
pub fn from_b62(digits: &[u8]) -> (r: Result<u128, Error>)
    ensures
        match r {
            Ok(n) => digits@.len() == 22 && all_b62_symbols(digits@) && n as int == b62_decode(
                digits@,
            ),
            Err(e) => match e {
                Error::InvalidLength => digits@.len() != 22,
                Error::InvalidSymbol => digits@.len() == 22 && !all_b62_symbols(digits@),
                Error::OutOfRange => digits@.len() == 22 && all_b62_symbols(digits@)
                    && b62_decode(digits@) > u128::MAX,
                _ => false,
            },
        },
{
    if digits.len() != 22 {
        return Err(Error::InvalidLength);
    }
    let mut k: usize = 0;
    while k < 22
        invariant
            k <= 22,
            digits@.len() == 22,
            forall|j: int| 0 <= j < k ==> is_b62_symbol(#[trigger] digits@[j]),
        decreases 22 - k,
    {
        match b62_sym_val(digits[k]) {
            None => {
                return Err(Error::InvalidSymbol);
            },
            Some(_) => {},
        }
        k = k + 1;
    }
    let mut acc: u128 = 0;
    let mut k: usize = 0;
    while k < 22
        invariant
            k <= 22,
            digits@.len() == 22,
            all_b62_symbols(digits@),
            acc as int == b62_decode(digits@.take(k as int)),
        decreases 22 - k,
    {
        let d: u8 = match b62_sym_val(digits[k]) {
            Some(v) => v,
            None => {
                proof {
                    assert(false);
                }
                0
            },
        };
        proof {
            let t = digits@.take(k + 1);
            assert(t.drop_last() =~= digits@.take(k as int));
            assert(t.last() == digits@[k as int]);
            assert(b62_decode(t) == acc * 62 + d);
            lemma_b62_decode_prefix_le(digits@, k + 1);
        }
        match acc.checked_mul(62) {
            None => {
                return Err(Error::OutOfRange);
            },
            Some(t) => {
                match t.checked_add(d as u128) {
                    None => {
                        return Err(Error::OutOfRange);
                    },
                    Some(v) => {
                        acc = v;
                    },
                }
            },
        }
        k = k + 1;
    }
    proof {
        assert(digits@.take(22) =~= digits@);
    }
    Ok(acc)
}


/// A printable lowercase hex digit for a value below 16.
pub open spec fn hex_digit(d: int) -> u8 {
    if d < 10 {
        (48 + d) as u8
    } else {
        (87 + d) as u8
    }
}

/// The printable expansion of one byte: tab, carriage return, line feed,
/// backslash and both quotes become two-character backslash escapes, other
/// printable ASCII stands for itself, and every remaining byte becomes a
/// four-character lowercase hex escape.
pub open spec fn escape_byte(b: u8) -> Seq<u8> {
    if b == 9 {
        seq![92u8, 116u8]
    } else if b == 13 {
        seq![92u8, 114u8]
    } else if b == 10 {
        seq![92u8, 110u8]
    } else if b == 92 {
        seq![92u8, 92u8]
    } else if b == 39 {
        seq![92u8, 39u8]
    } else if b == 34 {
        seq![92u8, 34u8]
    } else if 32 <= b && b <= 126 {
        seq![b]
    } else {
        seq![92u8, 120u8, hex_digit(b as int / 16), hex_digit(b as int % 16)]
    }
}

/// The printable expansion of a whole byte sequence.
pub open spec fn escape_bytes(s: Seq<u8>) -> Seq<u8>
    decreases s.len(),
{
    if s.len() == 0 {
        Seq::empty()
    } else {
        escape_bytes(s.drop_last()) + escape_byte(s.last())
    }
}

/// ASCII bytes read as characters.
pub open spec fn chars_of_bytes(s: Seq<u8>) -> Seq<char> {
    Seq::new(s.len(), |i: int| s[i] as char)
}

/// Every byte of a printable expansion is ASCII.
proof fn lemma_escape_bytes_ascii(s: Seq<u8>)
    ensures
        forall|i: int| 0 <= i < escape_bytes(s).len() ==> (#[trigger] escape_bytes(s)[i]) < 128,
    decreases s.len(),
{
    if s.len() > 0 {
        let pre = escape_bytes(s.drop_last());
        lemma_escape_bytes_ascii(s.drop_last());
        assert forall|i: int|
            0 <= i < escape_bytes(s).len() implies (#[trigger] escape_bytes(s)[i]) < 128 by {
            if i < pre.len() {
                assert(escape_bytes(s)[i] == pre[i]);
            } else {
                assert(escape_bytes(s)[i] == escape_byte(s.last())[i - pre.len()]);
            }
        }
    }
}

/// Relies on `String::from_utf8`: ASCII bytes decode to exactly those
/// characters.
#[verifier::external_body]
fn ascii_string(v: Vec<u8>) -> (r: String)
    requires
        forall|i: int| 0 <= i < v@.len() ==> v@[i] < 128,
    ensures
        r@ == Seq::new(v@.len(), |i: int| v@[i] as char),
{
    String::from_utf8(v).unwrap()
}

/// A lowercase hex digit for a value below 16.
fn hex_digit_exec(d: u8) -> (c: u8)
    requires
        d < 16,
    ensures
        c == hex_digit(d as int),
{
    if d < 10 {
        48 + d
    } else {
        87 + d
    }
}

/// Render a buffer of base-62 symbols as a text string.
pub fn digits_string(digits: &DIGITS) -> (r: String)
    requires
        all_b62_symbols(digits@),
    ensures
        r@ == chars_of_bytes(digits@),
{
    let mut v: Vec<u8> = Vec::new();
    let mut i: usize = 0;
    while i < 22
        invariant
            i <= 22,
            digits@.len() == 22,
            v@ == digits@.take(i as int),
        decreases 22 - i,
    {
        v.push(digits[i]);
        proof {
            assert(v@ =~= digits@.take(i as int + 1));
        }
        i = i + 1;
    }
    proof {
        assert(v@ =~= digits@);
    }
    ascii_string(v)
}

/// Render bytes as a printable string, one escape-style expansion per
/// byte.
pub fn b62_to_str(bytes: &[u8]) -> (r: String)
    ensures
        r@ == chars_of_bytes(escape_bytes(bytes@)),
{
    let mut out: Vec<u8> = Vec::new();
    let mut i: usize = 0;
    proof {
        assert(bytes@.take(0) =~= Seq::<u8>::empty());
    }
    while i < bytes.len()
        invariant
            i <= bytes@.len(),
            out@ == escape_bytes(bytes@.take(i as int)),
        decreases bytes@.len() - i,
    {
        let b = bytes[i];
        let ghost pre = out@;
        if b == 9 {
            out.push(92);
            out.push(116);
        } else if b == 13 {
            out.push(92);
            out.push(114);
        } else if b == 10 {
            out.push(92);
            out.push(110);
        } else if b == 92 {
            out.push(92);
            out.push(92);
        } else if b == 39 {
            out.push(92);
            out.push(39);
        } else if b == 34 {
            out.push(92);
            out.push(34);
        } else if 32 <= b && b <= 126 {
            out.push(b);
        } else {
            out.push(92);
            out.push(120);
            out.push(hex_digit_exec(b / 16));
            out.push(hex_digit_exec(b % 16));
        }
        i = i + 1;
        proof {
            let t = bytes@.take(i as int);
            assert(t.drop_last() =~= bytes@.take(i as int - 1));
            assert(t.last() == b);
            assert(out@ =~= pre + escape_byte(b));
        }
    }
    proof {
        assert(bytes@.take(bytes@.len() as int) =~= bytes@);
        lemma_escape_bytes_ascii(bytes@);
    }
    ascii_string(out)
}

} // verus!
