//! 256-bit EVM words and byte strings: their values, arithmetic and text forms.
//!
//! A word is held as four 64-bit limbs, least significant first. The
//! arithmetic that the `ruint` integers of `alloy-primitives` compute, and
//! Keccak-256, are called through the trusted wrappers of this module.

use vstd::prelude::*;
use alloy_primitives::U256;

verus! {

pub open spec fn pow2_64() -> nat {
    0x1_0000_0000_0000_0000nat
}

pub open spec fn pow2_256() -> nat {
    pow2_64() * pow2_64() * pow2_64() * pow2_64()
}

/// An EVM word: an unsigned 256-bit integer.
#[derive(Debug, Clone, Copy, PartialEq, Eq, Structural)]
pub struct Word {
    pub l0: u64,
    pub l1: u64,
    pub l2: u64,
    pub l3: u64,
}

/// The number a word denotes.
pub open spec fn val(w: Word) -> nat {
    (w.l0 + w.l1 * pow2_64() + w.l2 * pow2_64() * pow2_64() + w.l3 * pow2_64() * pow2_64()
        * pow2_64()) as nat
}

/// The number that the big-endian bytes `s` denote.
pub open spec fn be_value(s: Seq<u8>) -> nat
    decreases s.len(),
{
    if s.len() == 0 {
        0
    } else {
        be_value(s.drop_last()) * 256 + s.last() as nat
    }
}

pub open spec fn pow2(n: nat) -> nat
    decreases n,
{
    if n == 0 {
        1
    } else {
        2 * pow2((n - 1) as nat)
    }
}

pub open spec fn digit_char(d: nat) -> char {
    if d < 10 {
        ((d + '0' as nat) as u32) as char
    } else {
        ((d - 10 + 'a' as nat) as u32) as char
    }
}

/// Digits of `n` in base `b` (2 ≤ b ≤ 16), lowercase, without leading zeros;
/// `0` for zero.
pub open spec fn digits(n: nat, b: nat) -> Seq<char>
    decreases n,
{
    if b < 2 || n < b {
        seq![digit_char(n)]
    } else {
        proof {
            lemma_div_smaller(n, b);
        }
        digits(n / b, b) + seq![digit_char(n % b)]
    }
}

pub proof fn lemma_div_smaller(n: nat, b: nat)
    requires
        b >= 2,
        n >= b,
    ensures
        n / b < n,
{
    assert(n / b < n) by (nonlinear_arith)
        requires
            b >= 2,
            n >= b,
    ;
}

/// Decimal text of `n`, as `Display` writes it.
pub open spec fn dec_text(n: nat) -> Seq<char> {
    digits(n, 10)
}

/// Lowercase hexadecimal text of `n`, as `LowerHex` writes it.
pub open spec fn hex_text(n: nat) -> Seq<char> {
    digits(n, 16)
}

/// `s` padded on the left with `0` to at least `width` characters.
pub open spec fn pad_zeros(s: Seq<char>, width: nat) -> Seq<char> {
    if s.len() >= width {
        s
    } else {
        Seq::new((width - s.len()) as nat, |i: int| '0') + s
    }
}

/// Two lowercase hex digits per byte, as `hex::encode` writes them.
pub open spec fn hex_bytes(b: Seq<u8>) -> Seq<char>
    decreases b.len(),
{
    if b.len() == 0 {
        seq![]
    } else {
        hex_bytes(b.drop_last()) + seq![digit_char(b.last() as nat / 16), digit_char(b.last() as nat % 16)]
    }
}

/// The `k` low-order bytes of `n`, most significant first.
pub open spec fn be_bytes(n: nat, k: nat) -> Seq<u8>
    decreases k,
{
    if k == 0 {
        seq![]
    } else {
        be_bytes(n / 256, (k - 1) as nat).push((n % 256) as u8)
    }
}

pub proof fn lemma_be_bytes_len(n: nat, k: nat)
    ensures
        be_bytes(n, k).len() == k,
    decreases k,
{
    if k > 0 {
        lemma_be_bytes_len(n / 256, (k - 1) as nat);
    }
}

/// The value of a digit in bases up to 36 (`0`-`9`, then `a`-`z` or
/// `A`-`Z`); 36 for any other character.
pub open spec fn radix_digit(c: char) -> nat {
    if '0' <= c && c <= '9' {
        (c as nat - '0' as nat) as nat
    } else if 'a' <= c && c <= 'z' {
        (c as nat - 'a' as nat + 10) as nat
    } else if 'A' <= c && c <= 'Z' {
        (c as nat - 'A' as nat + 10) as nat
    } else {
        36
    }
}

/// Every character of `s` is a digit of base `radix` or an `_`.
pub open spec fn radix_ok(s: Seq<char>, radix: nat) -> bool {
    forall|i: int| 0 <= i < s.len() ==> (s[i] == '_' || radix_digit(#[trigger] s[i]) < radix)
}

/// The number the digits of `s` denote in base `radix`, `_` being skipped.
pub open spec fn radix_value(s: Seq<char>, radix: nat) -> nat
    decreases s.len(),
{
    if s.len() == 0 {
        0
    } else if s.last() == '_' {
        radix_value(s.drop_last(), radix)
    } else {
        radix_value(s.drop_last(), radix) * radix + radix_digit(s.last())
    }
}

/// What `Uint::from_str_radix` gives for `s`: the number its digits denote,
/// when all are digits (or `_`) and the number is below 2^256.
pub open spec fn radix_literal(s: Seq<char>, radix: nat) -> Option<nat> {
    if radix_ok(s, radix) && radix_value(s, radix) < pow2_256() {
        Some(radix_value(s, radix))
    } else {
        None
    }
}

/// What `str::parse::<U256>` gives for `s`: a `0x`, `0o` or `0b` prefix
/// (either case) selects base 16, 8 or 2; otherwise the base is 10.
pub open spec fn word_literal(s: Seq<char>) -> Option<nat> {
    if s.len() >= 2 && s[0] == '0' && (s[1] == 'x' || s[1] == 'X') {
        radix_literal(s.skip(2), 16)
    } else if s.len() >= 2 && s[0] == '0' && (s[1] == 'o' || s[1] == 'O') {
        radix_literal(s.skip(2), 8)
    } else if s.len() >= 2 && s[0] == '0' && (s[1] == 'b' || s[1] == 'B') {
        radix_literal(s.skip(2), 2)
    } else {
        radix_literal(s, 10)
    }
}

/// Keccak-256 of `data`, as computed by `alloy_primitives::keccak256`.
pub uninterp spec fn keccak256_spec(data: Seq<u8>) -> Seq<u8>;

pub open spec fn word_of(n: nat) -> Word
    recommends
        n < pow2_256(),
{
    Word {
        l0: (n % pow2_64()) as u64,
        l1: ((n / pow2_64()) % pow2_64()) as u64,
        l2: ((n / (pow2_64() * pow2_64())) % pow2_64()) as u64,
        l3: ((n / (pow2_64() * pow2_64() * pow2_64())) % pow2_64()) as u64,
    }
}

pub proof fn lemma_val_bounds(w: Word)
    ensures
        0 <= val(w) < pow2_256(),
        val(w) == 0 <==> (w.l0 == 0 && w.l1 == 0 && w.l2 == 0 && w.l3 == 0),
        val(w) < pow2_64() <==> (w.l1 == 0 && w.l2 == 0 && w.l3 == 0),
        w.l1 == 0 && w.l2 == 0 && w.l3 == 0 ==> val(w) == w.l0,
{
    assert(pow2_64() * pow2_64() == 0x1_0000_0000_0000_0000_0000_0000_0000_0000nat);
    assert(pow2_64() * pow2_64() * pow2_64() == 0x1_0000_0000_0000_0000_0000_0000_0000_0000_0000_0000_0000_0000nat);
    assert(w.l1 * pow2_64() <= 0xffff_ffff_ffff_ffff * pow2_64()) by (nonlinear_arith)
        requires
            w.l1 <= 0xffff_ffff_ffff_ffff,
    ;
    assert(w.l2 * pow2_64() * pow2_64() <= 0xffff_ffff_ffff_ffff * (pow2_64() * pow2_64()))
        by (nonlinear_arith)
        requires
            w.l2 <= 0xffff_ffff_ffff_ffff,
    ;
    assert(w.l3 * pow2_64() * pow2_64() * pow2_64() <= 0xffff_ffff_ffff_ffff * (pow2_64()
        * pow2_64() * pow2_64())) by (nonlinear_arith)
        requires
            w.l3 <= 0xffff_ffff_ffff_ffff,
    ;
    assert(w.l1 != 0 ==> w.l1 * pow2_64() >= pow2_64()) by (nonlinear_arith);
    assert(w.l2 != 0 ==> w.l2 * pow2_64() * pow2_64() >= pow2_64()) by (nonlinear_arith);
    assert(w.l3 != 0 ==> w.l3 * pow2_64() * pow2_64() * pow2_64() >= pow2_64())
        by (nonlinear_arith);
}

/// Distinct words denote distinct numbers.
pub proof fn lemma_val_injective(a: Word, b: Word)
    ensures
        val(a) == val(b) <==> a == b,
{
    if val(a) == val(b) {
        let p = pow2_64() as int;
        let ra = a.l1 + p * (a.l2 + p * a.l3);
        let rb = b.l1 + p * (b.l2 + p * b.l3);
        assert(val(a) == a.l0 + p * ra) by (nonlinear_arith)
            requires
                val(a) == a.l0 + a.l1 * p + a.l2 * p * p + a.l3 * p * p * p,
                ra == a.l1 + p * (a.l2 + p * a.l3),
        ;
        assert(val(b) == b.l0 + p * rb) by (nonlinear_arith)
            requires
                val(b) == b.l0 + b.l1 * p + b.l2 * p * p + b.l3 * p * p * p,
                rb == b.l1 + p * (b.l2 + p * b.l3),
        ;
        vstd::arithmetic::div_mod::lemma_fundamental_div_mod_converse(val(a) as int, p, ra, a.l0 as int);
        vstd::arithmetic::div_mod::lemma_fundamental_div_mod_converse(val(b) as int, p, rb, b.l0 as int);
        let sa = a.l2 + p * a.l3;
        let sb = b.l2 + p * b.l3;
        vstd::arithmetic::div_mod::lemma_fundamental_div_mod_converse(ra, p, sa, a.l1 as int);
        vstd::arithmetic::div_mod::lemma_fundamental_div_mod_converse(rb, p, sb, b.l1 as int);
        vstd::arithmetic::div_mod::lemma_fundamental_div_mod_converse(sa, p, a.l3 as int, a.l2 as int);
        vstd::arithmetic::div_mod::lemma_fundamental_div_mod_converse(sb, p, b.l3 as int, b.l2 as int);
    }
}

/// A word is the one `word_of` builds from its value.
pub proof fn lemma_word_of_val(w: Word)
    ensures
        word_of(val(w)) == w,
{
    let p = pow2_64() as int;
    let x = val(w) as int;
    let ra = w.l1 + p * (w.l2 + p * w.l3);
    let sa = w.l2 + p * w.l3;
    assert(x == ra * p + w.l0) by (nonlinear_arith)
        requires
            x == w.l0 + w.l1 * p + w.l2 * p * p + w.l3 * p * p * p,
            ra == w.l1 + p * (w.l2 + p * w.l3),
    ;
    assert(ra == sa * p + w.l1) by (nonlinear_arith)
        requires
            ra == w.l1 + p * sa,
    ;
    assert(sa == w.l3 * p + w.l2) by (nonlinear_arith)
        requires
            sa == w.l2 + p * w.l3,
    ;
    vstd::arithmetic::div_mod::lemma_fundamental_div_mod_converse(x, p, ra, w.l0 as int);
    vstd::arithmetic::div_mod::lemma_fundamental_div_mod_converse(ra, p, sa, w.l1 as int);
    vstd::arithmetic::div_mod::lemma_fundamental_div_mod_converse(sa, p, w.l3 as int, w.l2 as int);
    vstd::arithmetic::div_mod::lemma_fundamental_div_mod_converse(w.l3 as int, p, 0, w.l3 as int);
    assert(ra >= 0) by (nonlinear_arith)
        requires
            ra == w.l1 + p * (w.l2 + p * w.l3),
            p > 0,
    ;
    vstd::arithmetic::div_mod::lemma_div_denominator(x, p, p);
    vstd::arithmetic::div_mod::lemma_div_denominator(x, p * p, p);
    vstd::arithmetic::div_mod::lemma_fundamental_div_mod_converse(w.l2 as int, p, 0, w.l2 as int);
    vstd::arithmetic::div_mod::lemma_fundamental_div_mod_converse(w.l1 as int, p, 0, w.l1 as int);
    assert(sa >= 0) by (nonlinear_arith)
        requires
            sa == w.l2 + p * w.l3,
            p > 0,
    ;
    vstd::arithmetic::div_mod::lemma_div_denominator(ra, p, p);
}

impl Word {
    pub fn zero() -> (r: Word)
        ensures
            val(r) == 0,
    {
        proof {
            lemma_val_bounds(Word { l0: 0, l1: 0, l2: 0, l3: 0 });
        }
        Word { l0: 0, l1: 0, l2: 0, l3: 0 }
    }

    pub fn from_u64(x: u64) -> (r: Word)
        ensures
            val(r) == x,
    {
        let r = Word { l0: x, l1: 0, l2: 0, l3: 0 };
        proof {
            lemma_val_bounds(r);
        }
        r
    }

    pub fn is_zero(&self) -> (r: bool)
        ensures
            r == (val(*self) == 0),
    {
        proof {
            lemma_val_bounds(*self);
        }
        self.l0 == 0 && self.l1 == 0 && self.l2 == 0 && self.l3 == 0
    }

    /// The value, when it is below 2^64.
    pub fn to_u64(&self) -> (r: Option<u64>)
        ensures
            r matches Some(x) ==> x == val(*self),
            r is None <==> val(*self) >= pow2_64(),
    {
        proof {
            lemma_val_bounds(*self);
        }
        if self.l1 == 0 && self.l2 == 0 && self.l3 == 0 {
            Some(self.l0)
        } else {
            None
        }
    }

    pub fn bitand(&self, other: &Word) -> (r: Word)
        ensures
            r == (Word {
                l0: self.l0 & other.l0,
                l1: self.l1 & other.l1,
                l2: self.l2 & other.l2,
                l3: self.l3 & other.l3,
            }),
    {
        Word {
            l0: self.l0 & other.l0,
            l1: self.l1 & other.l1,
            l2: self.l2 & other.l2,
            l3: self.l3 & other.l3,
        }
    }

    pub fn bitor(&self, other: &Word) -> (r: Word)
        ensures
            r == (Word {
                l0: self.l0 | other.l0,
                l1: self.l1 | other.l1,
                l2: self.l2 | other.l2,
                l3: self.l3 | other.l3,
            }),
    {
        Word {
            l0: self.l0 | other.l0,
            l1: self.l1 | other.l1,
            l2: self.l2 | other.l2,
            l3: self.l3 | other.l3,
        }
    }

    pub fn bitxor(&self, other: &Word) -> (r: Word)
        ensures
            r == (Word {
                l0: self.l0 ^ other.l0,
                l1: self.l1 ^ other.l1,
                l2: self.l2 ^ other.l2,
                l3: self.l3 ^ other.l3,
            }),
    {
        Word {
            l0: self.l0 ^ other.l0,
            l1: self.l1 ^ other.l1,
            l2: self.l2 ^ other.l2,
            l3: self.l3 ^ other.l3,
        }
    }
}

/// `ruint`'s `wrapping_add`: the sum modulo 2^256.
#[verifier::external_body]
pub(crate) fn wrapping_add(a: Word, b: Word) -> (r: Word)
    ensures
        val(r) == (val(a) + val(b)) % pow2_256(),
{
    let x = U256::from_limbs([a.l0, a.l1, a.l2, a.l3]).wrapping_add(
        U256::from_limbs([b.l0, b.l1, b.l2, b.l3]),
    ).into_limbs();
    Word { l0: x[0], l1: x[1], l2: x[2], l3: x[3] }
}

/// `ruint`'s `wrapping_sub`: the difference modulo 2^256.
#[verifier::external_body]
pub(crate) fn wrapping_sub(a: Word, b: Word) -> (r: Word)
    ensures
        val(r) == (val(a) + pow2_256() - val(b)) % (pow2_256() as int),
{
    let x = U256::from_limbs([a.l0, a.l1, a.l2, a.l3]).wrapping_sub(
        U256::from_limbs([b.l0, b.l1, b.l2, b.l3]),
    ).into_limbs();
    Word { l0: x[0], l1: x[1], l2: x[2], l3: x[3] }
}

/// `ruint`'s `wrapping_mul`: the product modulo 2^256.
#[verifier::external_body]
pub(crate) fn wrapping_mul(a: Word, b: Word) -> (r: Word)
    ensures
        val(r) == (val(a) * val(b)) % pow2_256(),
{
    let x = U256::from_limbs([a.l0, a.l1, a.l2, a.l3]).wrapping_mul(
        U256::from_limbs([b.l0, b.l1, b.l2, b.l3]),
    ).into_limbs();
    Word { l0: x[0], l1: x[1], l2: x[2], l3: x[3] }
}

/// `ruint`'s `wrapping_div`: the quotient rounded down (it panics on a zero divisor).
#[verifier::external_body]
pub(crate) fn checked_quotient(a: Word, b: Word) -> (r: Word)
    requires
        val(b) != 0,
    ensures
        val(r) == val(a) / val(b),
{
    let x = U256::from_limbs([a.l0, a.l1, a.l2, a.l3]).wrapping_div(
        U256::from_limbs([b.l0, b.l1, b.l2, b.l3]),
    ).into_limbs();
    Word { l0: x[0], l1: x[1], l2: x[2], l3: x[3] }
}

/// `ruint`'s `wrapping_rem`: the remainder (it panics on a zero divisor).
#[verifier::external_body]
pub(crate) fn checked_remainder(a: Word, b: Word) -> (r: Word)
    requires
        val(b) != 0,
    ensures
        val(r) == val(a) % val(b),
{
    let x = U256::from_limbs([a.l0, a.l1, a.l2, a.l3]).wrapping_rem(
        U256::from_limbs([b.l0, b.l1, b.l2, b.l3]),
    ).into_limbs();
    Word { l0: x[0], l1: x[1], l2: x[2], l3: x[3] }
}

/// `ruint`'s `<<` by a bit count: `a · 2^shift` modulo 2^256.
#[verifier::external_body]
pub(crate) fn shift_left(a: Word, shift: usize) -> (r: Word)
    ensures
        val(r) == (val(a) * pow2(shift as nat)) % pow2_256(),
{
    let x = (U256::from_limbs([a.l0, a.l1, a.l2, a.l3]) << shift).into_limbs();
    Word { l0: x[0], l1: x[1], l2: x[2], l3: x[3] }
}

/// `ruint`'s `>>` by a bit count: `a / 2^shift` rounded down.
#[verifier::external_body]
pub(crate) fn shift_right(a: Word, shift: usize) -> (r: Word)
    ensures
        val(r) == val(a) / pow2(shift as nat),
{
    let x = (U256::from_limbs([a.l0, a.l1, a.l2, a.l3]) >> shift).into_limbs();
    Word { l0: x[0], l1: x[1], l2: x[2], l3: x[3] }
}

/// `ruint`'s `from_be_slice` on at most 32 bytes: the big-endian number they denote.
#[verifier::external_body]
pub(crate) fn word_from_be_slice(bytes: &[u8]) -> (r: Word)
    requires
        bytes@.len() <= 32,
    ensures
        val(r) == be_value(bytes@),
{
    let x = U256::from_be_slice(bytes).into_limbs();
    Word { l0: x[0], l1: x[1], l2: x[2], l3: x[3] }
}

/// `ruint`'s `to_be_bytes::<32>`: the 32 big-endian bytes of the word.
#[verifier::external_body]
pub(crate) fn word_to_be_bytes(a: Word) -> (r: Vec<u8>)
    ensures
        r@ == be_bytes(val(a), 32),
{
    U256::from_limbs([a.l0, a.l1, a.l2, a.l3]).to_be_bytes::<32>().to_vec()
}

/// `ruint`'s `Display`: the decimal text of the word.
#[verifier::external_body]
pub(crate) fn word_to_dec(a: Word) -> (r: String)
    ensures
        r@ == dec_text(val(a)),
{
    format!("{}", U256::from_limbs([a.l0, a.l1, a.l2, a.l3]))
}

/// `ruint`'s `LowerHex`: the lowercase hexadecimal text of the word.
#[verifier::external_body]
pub(crate) fn word_to_hex(a: Word) -> (r: String)
    ensures
        r@ == hex_text(val(a)),
{
    format!("{:x}", U256::from_limbs([a.l0, a.l1, a.l2, a.l3]))
}

/// `alloy_primitives::keccak256`: the 32-byte Keccak-256 hash of `data`.
#[verifier::external_body]
pub(crate) fn keccak256(data: &[u8]) -> (r: Vec<u8>)
    ensures
        r@ == keccak256_spec(data@),
        r@.len() == 32,
{
    alloy_primitives::keccak256(data).to_vec()
}

/// `alloy_primitives::hex::encode`: two lowercase hex digits per byte.
#[verifier::external_body]
pub(crate) fn hex_encode(data: &[u8]) -> (r: String)
    ensures
        r@ == hex_bytes(data@),
{
    alloy_primitives::hex::encode(data)
}

/// `ruint`'s `from_str_radix` in base 2, 8, 10 or 16: the number the digits
/// of `s` denote (case-insensitive, `_` skipped), or nothing when a character
/// is no digit or the number does not fit in 256 bits.
#[verifier::external_body]
pub(crate) fn word_from_str_radix(s: &str, radix: u64) -> (r: Option<Word>)
    requires
        radix == 2 || radix == 8 || radix == 10 || radix == 16,
    ensures
        match r {
            Some(w) => radix_literal(s@, radix as nat) == Some(val(w)),
            None => radix_literal(s@, radix as nat) is None,
        },
{
    match U256::from_str_radix(s, radix) {
        Ok(v) => {
            let x = v.into_limbs();
            Some(Word { l0: x[0], l1: x[1], l2: x[2], l3: x[3] })
        },
        Err(_) => None,
    }
}

/// `str::parse::<U256>` (`ruint`'s `FromStr`): a base prefix, then the
/// digits, as `word_literal` states.
#[verifier::external_body]
pub(crate) fn parse_word(s: &str) -> (r: Option<Word>)
    ensures
        match r {
            Some(w) => word_literal(s@) == Some(val(w)),
            None => word_literal(s@) is None,
        },
{
    match s.parse::<U256>() {
        Ok(v) => {
            let x = v.into_limbs();
            Some(Word { l0: x[0], l1: x[1], l2: x[2], l3: x[3] })
        },
        Err(_) => None,
    }
}

/// The value of a word as a `usize`, when it fits.
pub fn word_to_usize(w: &Word) -> (r: Option<usize>)
    ensures
        match r {
            Some(x) => x as nat == val(*w),
            None => val(*w) > usize::MAX,
        },
{
    proof {
        lemma_val_bounds(*w);
    }
    match w.to_u64() {
        Some(x) => {
            if x <= usize::MAX as u64 {
                Some(x as usize)
            } else {
                None
            }
        },
        None => None,
    }
}

} // verus!
