//! Building display text: character sequences for numbers, bytes and words.

use vstd::prelude::*;
use crate::text::{chars_to_string, str_chars};
use crate::word::{
    dec_text, digit_char, digits, hex_bytes, hex_text, pad_zeros, val, hex_encode, word_to_dec,
    word_to_hex, Word,
};

verus! {

/// `parts` joined with `sep` between consecutive parts.
pub open spec fn join(parts: Seq<Seq<char>>, sep: Seq<char>) -> Seq<char>
    decreases parts.len(),
{
    if parts.len() == 0 {
        seq![]
    } else if parts.len() == 1 {
        parts[0]
    } else {
        join(parts.drop_last(), sep) + sep + parts.last()
    }
}

/// Appends the characters of `lit`.
pub fn push_lit(out: &mut Vec<char>, lit: &str)
    ensures
        final(out)@ == old(out)@ + lit@,
{
    let mut l = str_chars(lit);
    out.append(&mut l);
}

/// Appends the characters of `s`.
pub fn push_string(out: &mut Vec<char>, s: &String)
    ensures
        final(out)@ == old(out)@ + s@,
{
    let mut l = str_chars(s.as_str());
    out.append(&mut l);
}

/// Appends the characters of `v`.
pub fn push_chars(out: &mut Vec<char>, v: &Vec<char>)
    ensures
        final(out)@ == old(out)@ + v@,
{
    let mut i: usize = 0;
    let ghost start = out@;
    while i < v.len()
        invariant
            i <= v@.len(),
            out@ == start + v@.subrange(0, i as int),
        decreases v.len() - i,
    {
        out.push(v[i]);
        i = i + 1;
        assert(out@ =~= start + v@.subrange(0, i as int));
    }
    assert(v@.subrange(0, v@.len() as int) =~= v@);
}

pub fn lit_chars(lit: &str) -> (r: Vec<char>)
    ensures
        r@ == lit@,
{
    str_chars(lit)
}

/// The digit `d` of a base up to 16, lowercase.
fn digit_of(d: u64) -> (r: char)
    requires
        d < 16,
    ensures
        r == digit_char(d as nat),
{
    if d < 10 {
        ((d as u8) + 48u8) as char
    } else {
        ((d as u8) + 87u8) as char
    }
}

/// The digits of `x` in base `b`, most significant first.
fn u64_digits(x: u64, b: u64) -> (r: Vec<char>)
    requires
        2 <= b <= 16,
    ensures
        r@ == digits(x as nat, b as nat),
    decreases x,
{
    if x < b {
        let mut r: Vec<char> = Vec::new();
        r.push(digit_of(x));
        assert(r@ =~= seq![digit_char(x as nat)]);
        r
    } else {
        proof {
            crate::word::lemma_div_smaller(x as nat, b as nat);
        }
        let mut r = u64_digits(x / b, b);
        r.push(digit_of(x % b));
        r
    }
}

pub fn dec_u64_chars(x: u64) -> (r: Vec<char>)
    ensures
        r@ == dec_text(x as nat),
{
    u64_digits(x, 10)
}

pub fn hex_u64_chars(x: u64) -> (r: Vec<char>)
    ensures
        r@ == hex_text(x as nat),
{
    u64_digits(x, 16)
}

pub fn dec_word_chars(w: Word) -> (r: Vec<char>)
    ensures
        r@ == dec_text(val(w)),
{
    let s = word_to_dec(w);
    str_chars(s.as_str())
}

pub fn hex_word_chars(w: Word) -> (r: Vec<char>)
    ensures
        r@ == hex_text(val(w)),
{
    let s = word_to_hex(w);
    str_chars(s.as_str())
}

pub fn hex_bytes_chars(b: &[u8]) -> (r: Vec<char>)
    ensures
        r@ == hex_bytes(b@),
{
    let s = hex_encode(b);
    str_chars(s.as_str())
}

/// `v` padded on the left with `0` to at least `width` characters.
pub fn pad_zeros_chars(v: &Vec<char>, width: usize) -> (r: Vec<char>)
    ensures
        r@ == pad_zeros(v@, width as nat),
{
    let mut r: Vec<char> = Vec::new();
    if v.len() < width {
        let k = width - v.len();
        let mut i: usize = 0;
        while i < k
            invariant
                i <= k,
                r@ == Seq::new(i as nat, |j: int| '0'),
            decreases k - i,
        {
            r.push('0');
            i = i + 1;
            assert(r@ =~= Seq::new(i as nat, |j: int| '0'));
        }
    }
    push_chars(&mut r, v);
    proof {
        if v@.len() >= width {
            assert(r@ =~= v@);
        }
    }
    r
}

/// The characters `parts` joined with `sep` between consecutive parts.
pub fn join_strings(parts: &Vec<Vec<char>>, sep: &str) -> (r: Vec<char>)
    ensures
        r@ == join(Seq::new(parts@.len(), |i: int| parts@[i]@), sep@),
{
    let ghost all = Seq::new(parts@.len(), |i: int| parts@[i]@);
    let mut r: Vec<char> = Vec::new();
    let mut i: usize = 0;
    while i < parts.len()
        invariant
            i <= parts@.len(),
            all == Seq::new(parts@.len(), |k: int| parts@[k]@),
            r@ == join(all.subrange(0, i as int), sep@),
        decreases parts.len() - i,
    {
        if i > 0 {
            push_lit(&mut r, sep);
        }
        push_chars(&mut r, &parts[i]);
        proof {
            let pre = all.subrange(0, i + 1);
            assert(pre.drop_last() =~= all.subrange(0, i as int));
            if i == 0 {
                assert(all.subrange(0, 0) =~= Seq::<Seq<char>>::empty());
            }
        }
        i = i + 1;
    }
    assert(all.subrange(0, parts@.len() as int) =~= all);
    r
}

pub fn string_of(v: &Vec<char>) -> (r: String)
    ensures
        r@ == v@,
{
    chars_to_string(v)
}

} // verus!
