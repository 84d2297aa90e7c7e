//! Character-level helpers shared by the text-processing modules.
//!
//! Byte offsets in this crate are UTF-8 offsets: the offset of the `k`-th character of a
//! string is the length of the UTF-8 encoding of the characters before it.
use vstd::prelude::*;
use vstd::std_specs::iter::IteratorSpec;
use vstd::string::next_post;
use vstd::utf8::{encode_scalar, encode_utf8};

verus! {

/// Number of UTF-8 bytes that encode `s`.
pub open spec fn utf8_len(s: Seq<char>) -> nat {
    encode_utf8(s).len()
}

/// Number of UTF-8 bytes that encode the single character `c`.
pub open spec fn char_width(c: char) -> nat {
    encode_scalar(c as u32).len()
}

/// Byte offset of the character at index `k` of `s`.
pub open spec fn byte_offset(s: Seq<char>, k: int) -> nat {
    utf8_len(s.take(k))
}

pub proof fn lemma_encode_concat(a: Seq<char>, b: Seq<char>)
    ensures
        encode_utf8(a + b) == encode_utf8(a) + encode_utf8(b),
    decreases a.len(),
{
    if a.len() == 0 {
        assert(a + b =~= b);
    } else {
        assert((a + b).drop_first() =~= a.drop_first() + b);
        lemma_encode_concat(a.drop_first(), b);
        assert((a + b)[0] == a[0]);
    }
}

pub proof fn lemma_char_width_range(c: char)
    ensures
        1 <= char_width(c) <= 4,
        (c as u32) < 0x80 ==> char_width(c) == 1,
        0x80 <= (c as u32) < 0x800 ==> char_width(c) == 2,
        0x800 <= (c as u32) < 0x10000 ==> char_width(c) == 3,
        0x10000 <= (c as u32) ==> char_width(c) == 4,
{
    vstd::utf8::char_is_scalar(c);
}

pub proof fn lemma_single_width(c: char)
    ensures
        utf8_len(seq![c]) == char_width(c),
{
    assert(seq![c].drop_first() =~= Seq::<char>::empty());
    assert(encode_utf8(Seq::<char>::empty()) =~= Seq::<u8>::empty());
    assert(encode_utf8(seq![c]) =~= encode_scalar(c as u32) + encode_utf8(Seq::<char>::empty()));
}

/// Extending a prefix by one character adds that character's width.
pub proof fn lemma_offset_step(s: Seq<char>, k: int)
    requires
        0 <= k < s.len(),
    ensures
        byte_offset(s, k + 1) == byte_offset(s, k) + char_width(s[k]),
{
    assert(s.take(k + 1) =~= s.take(k) + seq![s[k]]);
    lemma_encode_concat(s.take(k), seq![s[k]]);
    lemma_single_width(s[k]);
}

pub proof fn lemma_offset_bounds(s: Seq<char>, k: int)
    requires
        0 <= k <= s.len(),
    ensures
        k <= byte_offset(s, k) <= byte_offset(s, s.len() as int),
        byte_offset(s, s.len() as int) == utf8_len(s),
        byte_offset(s, k) <= 4 * k,
    decreases s.len() - k,
{
    assert(s.take(s.len() as int) =~= s);
    if k < s.len() {
        lemma_offset_step(s, k);
        lemma_char_width_range(s[k]);
        lemma_offset_bounds(s, k + 1);
    }
    lemma_offset_lower(s, k);
}

proof fn lemma_offset_lower(s: Seq<char>, k: int)
    requires
        0 <= k <= s.len(),
    ensures
        k <= byte_offset(s, k) <= 4 * k,
    decreases k,
{
    if k > 0 {
        lemma_offset_lower(s, k - 1);
        lemma_offset_step(s, k - 1);
        lemma_char_width_range(s[k - 1]);
    } else {
        assert(s.take(0) =~= Seq::<char>::empty());
    }
}

/// Offsets grow strictly with the character index.
pub proof fn lemma_offset_monotonic(s: Seq<char>, i: int, j: int)
    requires
        0 <= i <= j <= s.len(),
    ensures
        byte_offset(s, i) + (j - i) <= byte_offset(s, j),
    decreases j - i,
{
    if i < j {
        lemma_offset_monotonic(s, i, j - 1);
        lemma_offset_step(s, j - 1);
        lemma_char_width_range(s[j - 1]);
    }
}

/// The UTF-8 width of one character.
pub fn utf8_width(c: char) -> (w: usize)
    ensures
        w == char_width(c),
        1 <= w <= 4,
{
    proof {
        lemma_char_width_range(c);
    }
    let v = c as u32;
    if v < 0x80 {
        1
    } else if v < 0x800 {
        2
    } else if v < 0x10000 {
        3
    } else {
        4
    }
}

/// The UTF-8 length of any string fits in a `usize`.
pub fn utf8_len_fits(text: &str)
    ensures
        utf8_len(text@) <= usize::MAX,
        byte_offset(text@, text@.len() as int) <= usize::MAX,
{
    let bytes = text.as_bytes();
    let n = bytes.len();
    proof {
        broadcast use vstd::slice::axiom_spec_len;
        assert(text@.take(text@.len() as int) =~= text@);
    }
}

/// Copies the characters of `text` into a vector, in order.
pub fn chars_of(text: &str) -> (chars: Vec<char>)
    ensures
        chars@ == text@,
{
    let mut out: Vec<char> = Vec::new();
    let mut it = text.chars();
    let ghost all = text@;
    proof {
        broadcast use vstd::string::group_string_axioms;
    }
    broadcast use vstd::string::next_postcondition;
    loop
        invariant
            it.remaining() == all.skip(out.len() as int),
            out@ == all.take(out.len() as int),
            out.len() <= all.len(),
        ensures
            out@ == all,
        decreases all.len() - out.len(),
    {
        let ghost before = it;
        match it.next() {
            Some(c) => {
                out.push(c);
                assert(out@ =~= all.take(out.len() as int));
            }
            None => {
                assert(next_post(&before, &it, None::<char>));
                assert(all.skip(out.len() as int).len() == 0);
                assert(out@ =~= all);
                break;
            }
        }
    }
    out
}

/// Appends one character to a string (`String::push`).
#[verifier::external_body]
pub fn push_char(s: &mut String, c: char)
    ensures
        final(s)@ == old(s)@.push(c),
{
    s.push(c);
}

/// Builds a string holding exactly the given characters.
pub fn string_from_chars(chars: &[char]) -> (s: String)
    ensures
        s@ == chars@,
{
    let mut s = String::new();
    let mut i: usize = 0;
    while i < chars.len()
        invariant
            i <= chars.len(),
            s@ == chars@.take(i as int),
        decreases chars.len() - i,
    {
        push_char(&mut s, chars[i]);
        i += 1;
        assert(s@ =~= chars@.take(i as int));
    }
    assert(chars@.take(chars.len() as int) =~= chars@);
    s
}

/// Appends every character of `extra` to `s`.
pub fn push_chars(s: &mut String, extra: &[char])
    ensures
        final(s)@ == old(s)@ + extra@,
{
    let mut i: usize = 0;
    while i < extra.len()
        invariant
            i <= extra.len(),
            s@ == old(s)@ + extra@.take(i as int),
        decreases extra.len() - i,
    {
        push_char(s, extra[i]);
        i += 1;
        assert(s@ =~= old(s)@ + extra@.take(i as int));
    }
    assert(extra@.take(extra.len() as int) =~= extra@);
}

/// Appends every character of `extra` to `s`.
pub fn push_str(s: &mut String, extra: &str)
    ensures
        final(s)@ == old(s)@ + extra@,
{
    let chars = chars_of(extra);
    push_chars(s, chars.as_slice());
}

/// ASCII lower-casing of one character; every other character is unchanged.
pub open spec fn ascii_lower(c: char) -> char {
    if 'A' <= c <= 'Z' {
        ((c as u32) + 32) as char
    } else {
        c
    }
}

pub fn ascii_lower_exec(c: char) -> (r: char)
    ensures
        r == ascii_lower(c),
{
    if 'A' <= c && c <= 'Z' {
        ((c as u8) + 32) as char
    } else {
        c
    }
}

/// ASCII whitespace as `char::is_ascii_whitespace` defines it.
pub open spec fn is_ascii_whitespace(c: char) -> bool {
    c == ' ' || c == '\t' || c == '\n' || c == '\x0C' || c == '\r'
}

/// Whether `a` and `b` hold the same characters.
pub fn chars_equal(a: &[char], b: &[char]) -> (r: bool)
    ensures
        r == (a@ == b@),
{
    if a.len() != b.len() {
        return false;
    }
    let mut i: usize = 0;
    while i < a.len()
        invariant
            a.len() == b.len(),
            i <= a.len(),
            forall|k: int| 0 <= k < i ==> a@[k] == b@[k],
        decreases a.len() - i,
    {
        if a[i] != b[i] {
            return false;
        }
        i += 1;
    }
    assert(a@ =~= b@);
    true
}

/// Whether two strings hold the same characters.
pub fn str_eq(a: &str, b: &str) -> (r: bool)
    ensures
        r == (a@ == b@),
{
    let x = chars_of(a);
    let y = chars_of(b);
    chars_equal(x.as_slice(), y.as_slice())
}

// ---------------------------------------------------------------------------------------
// Numbers as text
// ---------------------------------------------------------------------------------------

/// The decimal digit or uppercase hexadecimal digit for `d`.
pub open spec fn digit_char(d: nat) -> char {
    if d < 10 {
        (('0' as nat) + d) as char
    } else {
        (('A' as nat) + d - 10) as char
    }
}

fn digit_char_exec(d: u64) -> (c: char)
    requires
        d < 16,
    ensures
        c == digit_char(d as nat),
{
    if d < 10 {
        ((48 + d) as u8) as char
    } else {
        ((55 + d) as u8) as char
    }
}

/// The decimal representation of `v`, without leading zeros.
pub open spec fn decimal(v: nat) -> Seq<char>
    decreases v,
{
    if v < 10 {
        seq![digit_char(v)]
    } else {
        decimal(v / 10).push(digit_char(v % 10))
    }
}

/// The last `n` uppercase hexadecimal digits of `v`, zero-padded.
pub open spec fn hex_digits(v: nat, n: nat) -> Seq<char>
    decreases n,
{
    if n == 0 {
        Seq::empty()
    } else {
        hex_digits(v / 16, (n - 1) as nat).push(digit_char(v % 16))
    }
}

fn decimal_chars(v: u64) -> (out: Vec<char>)
    ensures
        out@ == decimal(v as nat),
    decreases v,
{
    if v < 10 {
        let mut out = Vec::new();
        out.push(digit_char_exec(v));
        out
    } else {
        let mut out = decimal_chars(v / 10);
        out.push(digit_char_exec(v % 10));
        out
    }
}

fn hex_chars(v: u64, n: usize) -> (out: Vec<char>)
    ensures
        out@ == hex_digits(v as nat, n as nat),
    decreases n,
{
    if n == 0 {
        Vec::new()
    } else {
        let mut out = hex_chars(v / 16, n - 1);
        out.push(digit_char_exec(v % 16));
        out
    }
}

/// Appends the decimal representation of `v`.
pub fn push_decimal(s: &mut String, v: u64)
    ensures
        final(s)@ == old(s)@ + decimal(v as nat),
{
    let digits = decimal_chars(v);
    push_chars(s, digits.as_slice());
}

/// Appends the last `n` uppercase hexadecimal digits of `v`, zero-padded.
pub fn push_hex(s: &mut String, v: u64, n: usize)
    ensures
        final(s)@ == old(s)@ + hex_digits(v as nat, n as nat),
{
    let digits = hex_chars(v, n);
    push_chars(s, digits.as_slice());
}

/// A new string holding the characters of `text`.
pub fn owned(text: &str) -> (s: String)
    ensures
        s@ == text@,
{
    text.to_owned()
}

/// The number of UTF-8 bytes of a text.
pub fn byte_len(text: &str) -> (n: usize)
    ensures
        n == utf8_len(text@),
{
    utf8_len_fits(text);
    text.len()
}

} // verus!
