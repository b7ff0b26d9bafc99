//! The UTF-8 model of text.
//!
//! A `&str` is viewed as its sequence of `char`s; its bytes as stored are
//! `encode_utf8` of that sequence. Byte offsets into the text, which the wrapper
//! and the hard binding speak in, are the lengths of encoded prefixes.

use vstd::prelude::*;
use vstd::utf8::*;

verus! {

broadcast use vstd::string::group_string_axioms;

/// The UTF-8 bytes of a character sequence, as stored.
pub open spec fn utf8(t: Seq<char>) -> Seq<u8> {
    encode_utf8(t)
}

/// Number of UTF-8 bytes that `c` occupies.
pub open spec fn char_width(c: char) -> nat {
    encode_scalar(c as u32).len()
}

/// Byte offset of the `i`-th character of `t` in its UTF-8 encoding.
pub open spec fn byte_offset(t: Seq<char>, i: int) -> nat {
    encode_utf8(t.subrange(0, i)).len()
}

pub proof fn lemma_utf8_concat(a: Seq<char>, b: Seq<char>)
    ensures
        encode_utf8(a + b) == encode_utf8(a) + encode_utf8(b),
    decreases a.len(),
{
    if a.len() == 0 {
        assert(a + b =~= b);
        assert(encode_utf8(a) =~= Seq::<u8>::empty());
        assert(encode_utf8(a) + encode_utf8(b) =~= encode_utf8(b));
    } else {
        lemma_utf8_concat(a.drop_first(), b);
        assert((a + b).drop_first() =~= a.drop_first() + b);
        assert((a + b)[0] == a[0]);
        assert(encode_utf8(a + b) =~= encode_scalar(a[0] as u32) + encode_utf8(a.drop_first() + b));
        assert(encode_utf8(a) + encode_utf8(b) =~= encode_scalar(a[0] as u32) + (encode_utf8(
            a.drop_first(),
        ) + encode_utf8(b)));
    }
}

pub proof fn lemma_utf8_single(c: char)
    ensures
        encode_utf8(seq![c]) == encode_scalar(c as u32),
{
    let s = seq![c];
    assert(s.drop_first() =~= Seq::<char>::empty());
    assert(s[0] == c);
    assert(encode_utf8(s.drop_first()) =~= Seq::<u8>::empty());
    assert(encode_utf8(s) == encode_scalar(s[0] as u32) + encode_utf8(s.drop_first()));
    assert(encode_scalar(c as u32) + Seq::<u8>::empty() =~= encode_scalar(c as u32));
}

pub proof fn lemma_utf8_injective(a: Seq<char>, b: Seq<char>)
    requires
        encode_utf8(a) == encode_utf8(b),
    ensures
        a == b,
{
    encode_utf8_decode_utf8(a);
    encode_utf8_decode_utf8(b);
}

/// Splitting a text at character `i` splits its bytes at `byte_offset(t, i)`.
pub proof fn lemma_utf8_split(t: Seq<char>, i: int)
    requires
        0 <= i <= t.len(),
    ensures
        encode_utf8(t) == encode_utf8(t.subrange(0, i)) + encode_utf8(t.subrange(i, t.len() as int)),
        byte_offset(t, i) <= encode_utf8(t).len(),
        encode_utf8(t).subrange(0, byte_offset(t, i) as int) == encode_utf8(t.subrange(0, i)),
        encode_utf8(t).subrange(byte_offset(t, i) as int, encode_utf8(t).len() as int)
            == encode_utf8(t.subrange(i, t.len() as int)),
{
    assert(t =~= t.subrange(0, i) + t.subrange(i, t.len() as int));
    lemma_utf8_concat(t.subrange(0, i), t.subrange(i, t.len() as int));
    let a = encode_utf8(t.subrange(0, i));
    let b = encode_utf8(t.subrange(i, t.len() as int));
    assert((a + b).subrange(0, a.len() as int) =~= a);
    assert((a + b).subrange(a.len() as int, (a + b).len() as int) =~= b);
}

/// Byte offsets grow by the width of each character.
pub proof fn lemma_byte_offset_step(t: Seq<char>, i: int)
    requires
        0 <= i < t.len(),
    ensures
        byte_offset(t, i + 1) == byte_offset(t, i) + char_width(t[i]),
{
    assert(t.subrange(0, i + 1) =~= t.subrange(0, i) + seq![t[i]]);
    lemma_utf8_concat(t.subrange(0, i), seq![t[i]]);
    lemma_utf8_single(t[i]);
}

pub proof fn lemma_byte_offset_ends(t: Seq<char>)
    ensures
        byte_offset(t, 0) == 0,
        byte_offset(t, t.len() as int) == encode_utf8(t).len(),
{
    assert(t.subrange(0, 0) =~= Seq::<char>::empty());
    assert(t.subrange(0, t.len() as int) =~= t);
}

/// The bytes between two character positions are the encoding of the characters between them.
pub proof fn lemma_utf8_between(t: Seq<char>, i: int, j: int)
    requires
        0 <= i <= j <= t.len(),
    ensures
        byte_offset(t, i) <= byte_offset(t, j) <= encode_utf8(t).len(),
        encode_utf8(t).subrange(byte_offset(t, i) as int, byte_offset(t, j) as int)
            == encode_utf8(t.subrange(i, j)),
{
    lemma_utf8_split(t, j);
    let pre = t.subrange(0, j);
    assert(pre.subrange(0, i) =~= t.subrange(0, i));
    assert(pre.subrange(i, pre.len() as int) =~= t.subrange(i, j));
    lemma_utf8_split(pre, i);
    let e = encode_utf8(t);
    let ep = encode_utf8(pre);
    assert(e.subrange(0, byte_offset(t, j) as int) == ep);
    assert(e.subrange(byte_offset(t, i) as int, byte_offset(t, j) as int) =~= ep.subrange(
        byte_offset(t, i) as int,
        ep.len() as int,
    ));
}

/// Every character position of a text falls on a UTF-8 character boundary of its bytes.
pub proof fn lemma_byte_offset_is_boundary(t: Seq<char>, i: int)
    requires
        0 <= i <= t.len(),
    ensures
        is_char_boundary(encode_utf8(t), byte_offset(t, i) as int),
    decreases i,
{
    encode_utf8_valid_utf8(t);
    if i == 0 {
        assert(t.subrange(0, 0) =~= Seq::<char>::empty());
    } else {
        let b = encode_utf8(t);
        let rest = t.drop_first();
        encode_utf8_first_scalar(t);
        assert(pop_first_scalar(b) =~= encode_utf8(rest));
        lemma_byte_offset_is_boundary(rest, i - 1);
        assert(t.subrange(0, i) =~= seq![t[0]] + rest.subrange(0, i - 1));
        lemma_utf8_concat(seq![t[0]], rest.subrange(0, i - 1));
        lemma_utf8_single(t[0]);
        encode_utf8_valid_utf8(rest);
        assert(b.len() >= byte_offset(t, i)) by {
            lemma_utf8_split(t, i);
        }
    }
}

/// `is_char_boundary` on the bytes of a text holds exactly at character offsets.
pub proof fn lemma_boundary_is_byte_offset(t: Seq<char>, k: int)
    requires
        is_char_boundary(encode_utf8(t), k),
    ensures
        exists|i: int| 0 <= i <= t.len() && byte_offset(t, i) == k,
    decreases t.len(),
{
    encode_utf8_valid_utf8(t);
    if k == 0 {
        lemma_byte_offset_ends(t);
    } else {
        let b = encode_utf8(t);
        assert(t.len() > 0) by {
            if t.len() == 0 {
                assert(b.len() == 0);
            }
        }
        let rest = t.drop_first();
        encode_utf8_first_scalar(t);
        assert(pop_first_scalar(b) =~= encode_utf8(rest));
        let w = length_of_first_scalar(b);
        lemma_utf8_single(t[0]);
        lemma_boundary_is_byte_offset(rest, k - w);
        let i = choose|i: int| 0 <= i <= rest.len() && byte_offset(rest, i) == k - w;
        assert(t.subrange(0, i + 1) =~= seq![t[0]] + rest.subrange(0, i));
        lemma_utf8_concat(seq![t[0]], rest.subrange(0, i));
        assert(byte_offset(t, i + 1) == k);
    }
}

/// Both ends of a range between character boundaries are boundaries of what follows its start.
pub proof fn lemma_boundary_in_suffix(t: Seq<char>, c: int, s: int)
    requires
        is_char_boundary(encode_utf8(t), c),
        is_char_boundary(encode_utf8(t), s),
        c <= s,
    ensures
        c <= s <= encode_utf8(t).len(),
        is_char_boundary(encode_utf8(t).subrange(c, encode_utf8(t).len() as int), s - c),
{
    lemma_boundary_is_byte_offset(t, c);
    lemma_boundary_is_byte_offset(t, s);
    let i = choose|i: int| 0 <= i <= t.len() && byte_offset(t, i) == c;
    let j = choose|j: int| 0 <= j <= t.len() && byte_offset(t, j) == s;
    lemma_utf8_split(t, i);
    lemma_utf8_split(t, j);
    let u = t.subrange(i, t.len() as int);
    if i <= j {
        lemma_utf8_between(t, i, j);
        assert(u.subrange(0, j - i) =~= t.subrange(i, j));
        lemma_byte_offset_is_boundary(u, j - i);
    } else {
        lemma_utf8_between(t, j, i);
        assert(c == s);
        encode_utf8_valid_utf8(u);
    }
}

/// The width in bytes of one character, from its scalar value.
pub fn utf8_width(c: char) -> (w: usize)
    ensures
        w == char_width(c),
        1 <= w <= 4,
{
    proof {
        char_is_scalar(c);
    }
    let v = c as u32;
    if v <= 0x7F {
        1
    } else if v <= 0x7FF {
        2
    } else if v <= 0xFFFF {
        3
    } else {
        4
    }
}

/// The characters of a text, in order.
pub fn text_chars(text: &str) -> (cs: Vec<char>)
    ensures
        cs@ == text@,
{
    let mut cs: Vec<char> = Vec::new();
    for c in it: text.chars()
        invariant
            it.seq() == text@,
            cs@ == it.seq().subrange(0, it.index() as int),
    {
        cs.push(c);
    }
    cs
}

/// `char::from_u32` from std: documented to return `Some(c)` with `c as u32 == v` exactly
/// when `v` is a Unicode scalar value, and `None` otherwise.
#[verifier::external_body]
pub(crate) fn char_from_u32(v: u32) -> (r: Option<char>)
    ensures
        r is Some <==> is_scalar(v),
        r matches Some(c) ==> c as u32 == v,
{
    char::from_u32(v)
}

/// `String`'s `FromIterator<&char>` from std, which collects the characters in order.
#[verifier::external_body]
pub(crate) fn string_from_chars(cs: &[char]) -> (s: String)
    ensures
        s@ == cs@,
{
    cs.iter().collect()
}

/// The decimal digit character for `d < 10`.
pub open spec fn digit_char(d: nat) -> char {
    (48 + d) as char
}

/// The decimal representation of `n`, most significant digit first, without leading zeros.
pub open spec fn decimal(n: nat) -> Seq<char>
    decreases n,
{
    if n < 10 {
        seq![digit_char(n)]
    } else {
        decimal(n / 10).push(digit_char(n % 10))
    }
}

fn push_decimal(out: &mut Vec<char>, n: usize)
    ensures
        final(out)@ == old(out)@ + decimal(n as nat),
    decreases n,
{
    if n >= 10 {
        push_decimal(out, n / 10);
    }
    let d = (n % 10) as u8;
    out.push((48u8 + d) as char);
    proof {
        if n >= 10 {
            assert(old(out)@ + decimal(n as nat) =~= old(out)@ + decimal((n / 10) as nat) + seq![
                digit_char((n % 10) as nat),
            ]);
        } else {
            assert(old(out)@ + decimal(n as nat) =~= old(out)@.push(digit_char(n as nat)));
        }
    }
}

/// The decimal representation of `n`, as `usize`'s `Display` writes it.
pub fn usize_to_decimal(n: usize) -> (s: String)
    ensures
        s@ == decimal(n as nat),
{
    let mut cs: Vec<char> = Vec::new();
    push_decimal(&mut cs, n);
    assert(cs@ =~= decimal(n as nat));
    string_from_chars(cs.as_slice())
}

/// Whether two byte slices hold the same bytes.
pub fn bytes_equal(a: &[u8], b: &[u8]) -> (r: bool)
    ensures
        r == (a@ == b@),
{
    if a.len() != b.len() {
        return false;
    }
    for k in 0..a.len()
        invariant
            a@.len() == b@.len(),
            forall|j: int| 0 <= j < k ==> a@[j] == b@[j],
    {
        if a[k] != b[k] {
            return false;
        }
    }
    assert(a@ =~= b@);
    true
}

/// Whether two texts hold the same characters.
pub fn str_equal(a: &str, b: &str) -> (r: bool)
    ensures
        r == (a@ == b@),
{
    let r = bytes_equal(a.as_bytes(), b.as_bytes());
    proof {
        if r {
            lemma_utf8_injective(a@, b@);
        }
    }
    r
}

} // verus!
