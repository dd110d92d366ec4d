//! Strings: comparing them, building them from characters, writing numbers
//! and padding to a width.

use vstd::prelude::*;
use vstd::string::{StrSliceExecFns, StringExecFns};
use vstd::utf8::{decode_utf8, encode_utf8};

verus! {

broadcast use vstd::utf8::encode_utf8_decode_utf8;

/// `String::from_iter` on a slice of characters: the string made of those
/// characters in their order.
#[verifier::external_body]
pub(crate) fn collect_text(chars: &[char]) -> (text: String)
    ensures
        text@ == chars@,
{
    String::from_iter(chars)
}

/// Whether two strings hold the same characters.
pub fn same_text(a: &str, b: &str) -> (same: bool)
    ensures
        same == (a@ == b@),
{
    let x = a.as_bytes();
    let y = b.as_bytes();
    assert((a@ == b@) <==> (x@ == y@)) by {
        if x@ == y@ {
            assert(decode_utf8(encode_utf8(a@)) == decode_utf8(encode_utf8(b@)));
        }
    }
    if x.len() != y.len() {
        return false;
    }
    let mut i: usize = 0;
    while i < x.len()
        invariant
            i <= x@.len(),
            x@.len() == y@.len(),
            x@.take(i as int) == y@.take(i as int),
            (a@ == b@) <==> (x@ == y@),
        decreases x@.len() - i,
    {
        if x[i] != y[i] {
            assert(x@[i as int] != y@[i as int]);
            return false;
        }
        i += 1;
        assert(x@.take(i as int) =~= x@.take(i - 1).push(x@[i - 1]));
        assert(y@.take(i as int) =~= y@.take(i - 1).push(y@[i - 1]));
    }
    assert(x@.take(i as int) =~= x@);
    assert(y@.take(i as int) =~= y@);
    true
}

/// `a` followed by `b`.
pub fn join_text(a: &str, b: &str) -> (text: String)
    ensures
        text@ == a@ + b@,
{
    let mut text = a.to_owned();
    text.append(b);
    text
}

/// The digit that writes `d`.
pub open spec fn digit_char(d: int) -> char {
    ('0' as int + d) as char
}

/// The decimal digits of `n`, without leading zeros.
pub open spec fn decimal_digits(n: nat) -> Seq<char>
    decreases n,
{
    if n < 10 {
        seq![digit_char(n as int)]
    } else {
        decimal_digits(n / 10).push(digit_char((n % 10) as int))
    }
}

/// `v` in decimal, with a minus sign where it is negative.
pub open spec fn decimal(v: int) -> Seq<char> {
    if v < 0 {
        seq!['-'] + decimal_digits((-v) as nat)
    } else {
        decimal_digits(v as nat)
    }
}

/// `n` blanks.
pub open spec fn blanks(n: int) -> Seq<char> {
    Seq::new(if n > 0 { n as nat } else { 0 }, |i: int| ' ')
}

/// `s` with blanks behind it up to `width` characters; `s` itself where it is
/// as long or longer.
pub open spec fn padded(s: Seq<char>, width: int) -> Seq<char> {
    s + blanks(width - s.len())
}

/// Appends the decimal digits of `n`.
fn push_digits(buf: &mut Vec<char>, n: u64)
    ensures
        final(buf)@ == old(buf)@ + decimal_digits(n as nat),
    decreases n,
{
    if n >= 10 {
        push_digits(buf, n / 10);
    }
    let digit: u8 = (n % 10) as u8;
    let c: char = (48u8 + digit) as char;
    assert(c == digit_char((n % 10) as int));
    buf.push(c);
    assert(buf@ =~= old(buf)@ + decimal_digits(n as nat));
}

/// Writes `v` in decimal.
pub fn decimal_text(v: i64) -> (text: String)
    ensures
        text@ == decimal(v as int),
{
    let mut buf: Vec<char> = Vec::new();
    if v < 0 {
        buf.push('-');
        let magnitude: u64 = (-(v + 1)) as u64 + 1;
        push_digits(&mut buf, magnitude);
    } else {
        push_digits(&mut buf, v as u64);
    }
    assert(buf@ =~= decimal(v as int));
    collect_text(buf.as_slice())
}

/// Pads `text` with blanks up to `width` characters.
pub fn pad_text(text: &str, width: usize) -> (out: String)
    ensures
        out@ == padded(text@, width as int),
{
    let n = text.unicode_len();
    let mut out = text.to_owned();
    let mut k: usize = n;
    proof {
        reveal_strlit(" ");
    }
    assert(out@ =~= text@ + blanks(k - n));
    while k < width
        invariant
            n == text@.len(),
            n <= k,
            k <= width || k == n,
            out@ == text@ + blanks(k - n),
            " "@ == seq![' '],
        decreases width - k,
    {
        out.append(" ");
        k += 1;
        assert(out@ =~= text@ + blanks(k - n));
    }
    assert(blanks(k - n) =~= blanks(width - n));
    out
}

} // verus!
