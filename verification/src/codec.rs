//! The canonical record text encoding: strings with escapes, unsigned
//! numbers, and arrays of strings, each with an encoder, a parser, and a
//! round-trip proof.  Records are written one per line; parsers work on
//! character vectors with a cursor and are specified by suffix-style
//! specification parsers.

use vstd::prelude::*;

use crate::text::chars_to_string;

verus! {

broadcast use
    vstd::string::group_string_axioms,
    vstd::utf8::char_u32_cast,
    vstd::utf8::char_is_scalar,
;

/// A code point that a `char` can carry.
pub open spec fn scalar_u32(v: u32) -> bool {
    v < 0xD800 || (0xE000 <= v < 0x110000)
}

/// Relies on char::from_u32: every Unicode scalar value names a character.
#[verifier::external_body]
pub fn char_of_scalar(v: u32) -> (c: char)
    requires
        scalar_u32(v),
    ensures
        c as u32 == v,
{
    match char::from_u32(v) {
        Some(c) => c,
        None => ' ',
    }
}

/// The hexadecimal digit character for a value below sixteen.
pub open spec fn hex_char(d: u32) -> char {
    if d == 0 { '0' } else if d == 1 { '1' } else if d == 2 { '2' } else if d == 3 { '3' }
    else if d == 4 { '4' } else if d == 5 { '5' } else if d == 6 { '6' } else if d == 7 { '7' }
    else if d == 8 { '8' } else if d == 9 { '9' } else if d == 10 { 'a' } else if d == 11 { 'b' }
    else if d == 12 { 'c' } else if d == 13 { 'd' } else if d == 14 { 'e' } else { 'f' }
}

/// The value of a hexadecimal digit character, upper or lower case.
pub open spec fn hex_val(c: char) -> Option<u32> {
    if c == '0' { Some(0u32) } else if c == '1' { Some(1u32) } else if c == '2' { Some(2u32) }
    else if c == '3' { Some(3u32) } else if c == '4' { Some(4u32) } else if c == '5' { Some(5u32) }
    else if c == '6' { Some(6u32) } else if c == '7' { Some(7u32) } else if c == '8' { Some(8u32) }
    else if c == '9' { Some(9u32) } else if c == 'a' || c == 'A' { Some(10u32) }
    else if c == 'b' || c == 'B' { Some(11u32) } else if c == 'c' || c == 'C' { Some(12u32) }
    else if c == 'd' || c == 'D' { Some(13u32) } else if c == 'e' || c == 'E' { Some(14u32) }
    else if c == 'f' || c == 'F' { Some(15u32) } else { None }
}

/// Reads one hexadecimal digit.
pub fn hex_val_exec(c: char) -> (r: Option<u32>)
    ensures
        r == hex_val(c),
{
    if c == '0' { Some(0u32) } else if c == '1' { Some(1u32) } else if c == '2' { Some(2u32) }
    else if c == '3' { Some(3u32) } else if c == '4' { Some(4u32) } else if c == '5' { Some(5u32) }
    else if c == '6' { Some(6u32) } else if c == '7' { Some(7u32) } else if c == '8' { Some(8u32) }
    else if c == '9' { Some(9u32) } else if c == 'a' || c == 'A' { Some(10u32) }
    else if c == 'b' || c == 'B' { Some(11u32) } else if c == 'c' || c == 'C' { Some(12u32) }
    else if c == 'd' || c == 'D' { Some(13u32) } else if c == 'e' || c == 'E' { Some(14u32) }
    else if c == 'f' || c == 'F' { Some(15u32) } else { None }
}

/// Writes one hexadecimal digit.
pub fn hex_char_exec(d: u32) -> (r: char)
    requires
        d < 16,
    ensures
        r == hex_char(d),
{
    if d == 0 { '0' } else if d == 1 { '1' } else if d == 2 { '2' } else if d == 3 { '3' }
    else if d == 4 { '4' } else if d == 5 { '5' } else if d == 6 { '6' } else if d == 7 { '7' }
    else if d == 8 { '8' } else if d == 9 { '9' } else if d == 10 { 'a' } else if d == 11 { 'b' }
    else if d == 12 { 'c' } else if d == 13 { 'd' } else if d == 14 { 'e' } else { 'f' }
}

/// The escape of one character inside a quoted string.
pub open spec fn esc_char(c: char) -> Seq<char> {
    if c == '"' { seq!['\\', '"'] }
    else if c == '\\' { seq!['\\', '\\'] }
    else if c == '\n' { seq!['\\', 'n'] }
    else if c == '\r' { seq!['\\', 'r'] }
    else if c == '\t' { seq!['\\', 't'] }
    else if (c as u32) < 32 {
        seq!['\\', 'u', '0', '0', hex_char((c as u32) / 16), hex_char((c as u32) % 16)]
    } else { seq![c] }
}

/// The escaped form of a string's contents.
pub open spec fn esc_seq(s: Seq<char>) -> Seq<char>
    decreases s.len(),
{
    if s.len() == 0 {
        Seq::empty()
    } else {
        esc_char(s[0]) + esc_seq(s.drop_first())
    }
}

/// A quoted, escaped string.
pub open spec fn enc_str(s: Seq<char>) -> Seq<char> {
    seq!['"'] + esc_seq(s) + seq!['"']
}

/// Escaping distributes over pushing a character at the back.
pub proof fn lemma_esc_snoc(s: Seq<char>, c: char)
    ensures
        esc_seq(s.push(c)) == esc_seq(s) + esc_char(c),
    decreases s.len(),
{
    if s.len() == 0 {
        assert(s.push(c)[0] == c);
        assert(s.push(c).drop_first() =~= Seq::<char>::empty());
        assert(esc_seq(Seq::<char>::empty()) == Seq::<char>::empty());
        assert(esc_seq(s.push(c)) == esc_char(c) + Seq::<char>::empty());
        assert(esc_seq(s.push(c)) =~= esc_seq(s) + esc_char(c));
    } else {
        assert(s.push(c)[0] == s[0]);
        assert(s.push(c).drop_first() =~= s.drop_first().push(c));
        lemma_esc_snoc(s.drop_first(), c);
        assert(esc_char(s[0]) + (esc_seq(s.drop_first()) + esc_char(c)) =~= (esc_char(s[0])
            + esc_seq(s.drop_first())) + esc_char(c));
    }
}

/// Appends the escape of one character.
pub fn push_esc_char(out: &mut Vec<char>, c: char)
    ensures
        final(out)@ == old(out)@ + esc_char(c),
{
    if c == '"' {
        out.push('\\');
        out.push('"');
        proof { assert(out@ =~= old(out)@ + esc_char(c)); }
    } else if c == '\\' {
        out.push('\\');
        out.push('\\');
        proof { assert(out@ =~= old(out)@ + esc_char(c)); }
    } else if c == '\n' {
        out.push('\\');
        out.push('n');
        proof { assert(out@ =~= old(out)@ + esc_char(c)); }
    } else if c == '\r' {
        out.push('\\');
        out.push('r');
        proof { assert(out@ =~= old(out)@ + esc_char(c)); }
    } else if c == '\t' {
        out.push('\\');
        out.push('t');
        proof { assert(out@ =~= old(out)@ + esc_char(c)); }
    } else {
        let u = c as u32;
        if u < 32 {
            out.push('\\');
            out.push('u');
            out.push('0');
            out.push('0');
            out.push(hex_char_exec(u / 16));
            out.push(hex_char_exec(u % 16));
            proof { assert(out@ =~= old(out)@ + esc_char(c)); }
        } else {
            out.push(c);
            proof { assert(out@ =~= old(out)@ + esc_char(c)); }
        }
    }
}

/// Appends a quoted, escaped string.
pub fn push_quoted(out: &mut Vec<char>, s: &Vec<char>)
    ensures
        final(out)@ == old(out)@ + enc_str(s@),
{
    out.push('"');
    let ghost start = out@;
    let mut i: usize = 0;
    while i < s.len()
        invariant
            i <= s@.len(),
            start == old(out)@.push('"'),
            out@ == start + esc_seq(s@.subrange(0, i as int)),
        decreases s@.len() - i,
    {
        push_esc_char(out, s[i]);
        proof {
            assert(s@.subrange(0, i as int).push(s@[i as int]) =~= s@.subrange(0, (i + 1) as int));
            lemma_esc_snoc(s@.subrange(0, i as int), s@[i as int]);
            assert(start + (esc_seq(s@.subrange(0, i as int)) + esc_char(s@[i as int])) =~= (start
                + esc_seq(s@.subrange(0, i as int))) + esc_char(s@[i as int]));
        }
        i = i + 1;
    }
    out.push('"');
    proof {
        assert(s@.subrange(0, s@.len() as int) =~= s@);
        assert(out@ =~= old(out)@ + enc_str(s@));
    }
}

/// The decimal digit character for a value below ten.
pub open spec fn dig_char(d: u64) -> char {
    if d == 0 { '0' } else if d == 1 { '1' } else if d == 2 { '2' } else if d == 3 { '3' }
    else if d == 4 { '4' } else if d == 5 { '5' } else if d == 6 { '6' } else if d == 7 { '7' }
    else if d == 8 { '8' } else { '9' }
}

/// The value of a decimal digit character.
pub open spec fn dig_val(c: char) -> Option<u64> {
    if c == '0' { Some(0u64) } else if c == '1' { Some(1u64) } else if c == '2' { Some(2u64) }
    else if c == '3' { Some(3u64) } else if c == '4' { Some(4u64) } else if c == '5' { Some(5u64) }
    else if c == '6' { Some(6u64) } else if c == '7' { Some(7u64) } else if c == '8' { Some(8u64) }
    else if c == '9' { Some(9u64) } else { None }
}

/// Reads one decimal digit.
pub fn dig_val_exec(c: char) -> (r: Option<u64>)
    ensures
        r == dig_val(c),
{
    if c == '0' { Some(0u64) } else if c == '1' { Some(1u64) } else if c == '2' { Some(2u64) }
    else if c == '3' { Some(3u64) } else if c == '4' { Some(4u64) } else if c == '5' { Some(5u64) }
    else if c == '6' { Some(6u64) } else if c == '7' { Some(7u64) } else if c == '8' { Some(8u64) }
    else if c == '9' { Some(9u64) } else { None }
}

/// The decimal digits of an unsigned number, most significant first.
pub open spec fn digits(n: u64) -> Seq<char>
    decreases n,
{
    if n < 10 {
        seq![dig_char(n)]
    } else {
        digits(n / 10).push(dig_char(n % 10))
    }
}

/// Every character of `digits` is a decimal digit, with its value.
pub proof fn lemma_digits_are_digits(n: u64)
    ensures
        digits(n).len() >= 1,
        dig_val(digits(n)[0]) is Some,
    decreases n,
{
    if n >= 10 {
        lemma_digits_are_digits(n / 10);
        assert(digits(n)[0] == digits(n / 10)[0]);
    }
}

/// Appends the decimal digits of a number.
pub fn push_u64(out: &mut Vec<char>, n: u64)
    ensures
        final(out)@ == old(out)@ + digits(n),
    decreases n,
{
    if n < 10 {
        let d = n;
        let c = if d == 0 { '0' } else if d == 1 { '1' } else if d == 2 { '2' }
        else if d == 3 { '3' } else if d == 4 { '4' } else if d == 5 { '5' }
        else if d == 6 { '6' } else if d == 7 { '7' } else if d == 8 { '8' } else { '9' };
        assert(c == dig_char(n));
        out.push(c);
        proof { assert(out@ =~= old(out)@ + digits(n)); }
    } else {
        push_u64(out, n / 10);
        let d = n % 10;
        let c = if d == 0 { '0' } else if d == 1 { '1' } else if d == 2 { '2' }
        else if d == 3 { '3' } else if d == 4 { '4' } else if d == 5 { '5' }
        else if d == 6 { '6' } else if d == 7 { '7' } else if d == 8 { '8' } else { '9' };
        assert(c == dig_char(n % 10));
        out.push(c);
        proof { assert(out@ =~= old(out)@ + digits(n)); }
    }
}

/// Consumes a literal from the front, leaving the rest.
pub open spec fn p_lit(s: Seq<char>, lit: Seq<char>) -> Option<Seq<char>> {
    if lit.len() <= s.len() && s.take(lit.len() as int) == lit {
        Some(s.skip(lit.len() as int))
    } else {
        None
    }
}

/// A literal parses off the front of its own concatenation.
pub proof fn lemma_p_lit_rt(lit: Seq<char>, rest: Seq<char>)
    ensures
        p_lit(lit + rest, lit) == Some(rest),
{
    assert((lit + rest).take(lit.len() as int) =~= lit);
    assert((lit + rest).skip(lit.len() as int) =~= rest);
}

/// Consumes the body of a quoted string after the opening quote, unescaping
/// as it goes; yields the contents and the rest after the closing quote.
pub open spec fn p_body(s: Seq<char>) -> Option<(Seq<char>, Seq<char>)>
    decreases s.len(),
{
    if s.len() == 0 {
        None
    } else if s[0] == '"' {
        Some((Seq::empty(), s.drop_first()))
    } else if s[0] == '\\' {
        if s.len() < 2 {
            None
        } else {
            let e = s[1];
            if e == 'u' {
                if s.len() >= 6 && hex_val(s[2]) is Some && hex_val(s[3]) is Some && hex_val(s[4])
                    is Some && hex_val(s[5]) is Some {
                    let v = (hex_val(s[2])->Some_0 * 4096 + hex_val(s[3])->Some_0 * 256 + hex_val(
                        s[4],
                    )->Some_0 * 16 + hex_val(s[5])->Some_0) as u32;
                    if scalar_u32(v) {
                        match p_body(s.skip(6)) {
                            Some((t, r)) => Some((seq![v as char] + t, r)),
                            None => None,
                        }
                    } else {
                        None
                    }
                } else {
                    None
                }
            } else {
                match unesc(e) {
                    Some(u) => match p_body(s.skip(2)) {
                        Some((t, r)) => Some((seq![u] + t, r)),
                        None => None,
                    },
                    None => None,
                }
            }
        }
    } else {
        match p_body(s.skip(1)) {
            Some((t, r)) => Some((seq![s[0]] + t, r)),
            None => None,
        }
    }
}

/// The character named by a single-character escape.
pub open spec fn unesc(e: char) -> Option<char> {
    if e == '"' { Some('"') } else if e == '\\' { Some('\\') } else if e == '/' { Some('/') }
    else if e == 'n' { Some('\n') } else if e == 'r' { Some('\r') } else if e == 't' { Some('\t') }
    else if e == 'b' { Some('\u{0008}') } else if e == 'f' { Some('\u{000C}') } else { None }
}

/// Reads a single-character escape.
pub fn unesc_exec(e: char) -> (r: Option<char>)
    ensures
        r == unesc(e),
{
    if e == '"' { Some('"') } else if e == '\\' { Some('\\') } else if e == '/' { Some('/') }
    else if e == 'n' { Some('\n') } else if e == 'r' { Some('\r') } else if e == 't' { Some('\t') }
    else if e == 'b' { Some('\u{0008}') } else if e == 'f' { Some('\u{000C}') } else { None }
}

/// A quoted string: an opening quote, then the body.
pub open spec fn p_str(s: Seq<char>) -> Option<(Seq<char>, Seq<char>)> {
    if s.len() > 0 && s[0] == '"' {
        p_body(s.drop_first())
    } else {
        None
    }
}

/// Whatever the body parser consumes, the rest is shorter than the input.
pub proof fn lemma_p_body_shrinks(s: Seq<char>)
    ensures
        p_body(s) matches Some((t, r)) ==> r.len() < s.len(),
    decreases s.len(),
{
    if s.len() == 0 {
    } else if s[0] == '"' {
    } else if s[0] == '\\' {
        if s.len() >= 2 {
            if s[1] == 'u' {
                if s.len() >= 6 {
                    lemma_p_body_shrinks(s.skip(6));
                }
            } else {
                lemma_p_body_shrinks(s.skip(2));
            }
        }
    } else {
        lemma_p_body_shrinks(s.skip(1));
    }
}

/// The body parser undoes the escape of any contents.
pub proof fn lemma_p_body_rt(v: Seq<char>, rest: Seq<char>)
    ensures
        p_body(esc_seq(v) + seq!['"'] + rest) == Some((v, rest)),
    decreases v.len(),
{
    let s = esc_seq(v) + seq!['"'] + rest;
    if v.len() == 0 {
        assert(s[0] == '"');
        assert(s.drop_first() =~= rest);
    } else {
        let c = v[0];
        let tail = v.drop_first();
        lemma_p_body_rt(tail, rest);
        assert(esc_seq(v) == esc_char(c) + esc_seq(tail));
        let s2 = esc_seq(tail) + seq!['"'] + rest;
        if c == '"' || c == '\\' || c == '\n' || c == '\r' || c == '\t' {
            assert(s[0] == '\\');
            assert(s.len() >= 2);
            assert(s[1] == esc_char(c)[1]);
            assert(s.skip(2) =~= s2);
            assert(unesc(esc_char(c)[1]) == Some(c));
            assert(seq![c] + tail =~= v);
        } else if (c as u32) < 32 {
            let u = c as u32;
            assert(s[0] == '\\');
            assert(s.len() >= 6);
            assert(s[1] == 'u');
            assert(s[2] == '0');
            assert(s[3] == '0');
            assert(s[4] == hex_char(u / 16));
            assert(s[5] == hex_char(u % 16));
            assert(hex_val(hex_char(u / 16)) == Some(u / 16));
            assert(hex_val(hex_char(u % 16)) == Some(u % 16));
            assert((u / 16) * 16 + u % 16 == u);
            assert(scalar_u32(u));
            vstd::utf8::char_u32_cast(c, u);
            assert((u as char) == c);
            assert(s.skip(6) =~= s2);
            assert(seq![c] + tail =~= v);
        } else {
            assert(s[0] == c);
            assert(c != '"' && c != '\\');
            assert(s.skip(1) =~= s2);
            assert(seq![c] + tail =~= v);
        }
    }
}

/// The string parser undoes the string encoder.
pub proof fn lemma_p_str_rt(v: Seq<char>, rest: Seq<char>)
    ensures
        p_str(enc_str(v) + rest) == Some((v, rest)),
{
    let s = enc_str(v) + rest;
    assert(s[0] == '"');
    assert(s.drop_first() =~= esc_seq(v) + seq!['"'] + rest);
    lemma_p_body_rt(v, rest);
}

/// Consumes decimal digits, accumulating their value; stops before the first
/// non-digit, and fails only on overflow.
pub open spec fn p_digits(s: Seq<char>, acc: u64) -> Option<(u64, Seq<char>)>
    decreases s.len(),
{
    if s.len() == 0 || dig_val(s[0]) is None {
        Some((acc, s))
    } else {
        let d = dig_val(s[0])->Some_0;
        if acc > (u64::MAX - d) / 10 {
            None
        } else {
            p_digits(s.drop_first(), (acc * 10 + d) as u64)
        }
    }
}

/// A decimal number: at least one digit.
pub open spec fn p_u64(s: Seq<char>) -> Option<(u64, Seq<char>)> {
    if s.len() > 0 && dig_val(s[0]) is Some {
        p_digits(s, 0)
    } else {
        None
    }
}

/// Ten to the `k`.
pub open spec fn pow10(k: nat) -> int
    decreases k,
{
    if k == 0 {
        1
    } else {
        10 * pow10((k - 1) as nat)
    }
}

/// `digits` writes the usual positional notation.
pub proof fn lemma_digits_value(n: u64)
    ensures
        digits(n).len() >= 1,
        pow10(digits(n).len()) > n,
        pow10((digits(n).len() - 1) as nat) <= n || n == 0,
    decreases n,
{
    if n < 10 {
        assert(pow10(0) == 1);
        assert(pow10(1) == 10);
    } else {
        lemma_digits_value(n / 10);
        let k = digits(n / 10).len();
        assert(digits(n).len() == k + 1);
        assert(pow10(k + 1) == 10 * pow10(k));
        assert(pow10(k) > n / 10);
        assert(10 * pow10(k) >= 10 * (n / 10 + 1)) by (nonlinear_arith)
            requires
                pow10(k) >= n / 10 + 1,
        ;
        assert(10 * (n / 10) + 10 > n);
        assert(n / 10 >= 1);
        assert(pow10((k - 1) as nat) <= n / 10);
        assert(pow10(k) == 10 * pow10((k - 1) as nat));
        assert(10 * pow10((k - 1) as nat) <= 10 * (n / 10)) by (nonlinear_arith)
            requires
                pow10((k - 1) as nat) <= n / 10,
        ;
        assert(10 * (n / 10) <= n);
    }
}

/// Parsing digits over an encoded number folds its value into the
/// accumulator.
pub proof fn lemma_p_digits_rt(n: u64, acc: u64, rest: Seq<char>)
    requires
        acc * pow10(digits(n).len()) + n <= u64::MAX,
    ensures
        p_digits(digits(n) + rest, acc) == p_digits(rest, (acc * pow10(digits(n).len()) + n) as u64),
    decreases n,
{
    let s = digits(n) + rest;
    lemma_digits_value(n);
    if n < 10 {
        assert(s[0] == dig_char(n));
        assert(dig_val(dig_char(n)) == Some(n));
        assert(pow10(1) == 10);
        assert(acc * 10 + n <= u64::MAX);
        assert(acc <= (u64::MAX - n) / 10);
        assert(s.drop_first() =~= rest);
    } else {
        let hi = n / 10;
        let lo = n % 10;
        let k = digits(hi).len();
        assert(digits(n) == digits(hi).push(dig_char(lo)));
        assert(digits(n) + rest =~= digits(hi) + (seq![dig_char(lo)] + rest));
        let mid = acc * pow10(k) + hi;
        assert(acc * pow10(k + 1 as nat) + n == (acc * pow10(k) + hi) * 10 + lo) by (nonlinear_arith)
            requires
                pow10(k + 1 as nat) == 10 * pow10(k),
                n == 10 * hi + lo,
        ;
        assert(mid <= u64::MAX);
        lemma_p_digits_rt(hi, acc, seq![dig_char(lo)] + rest);
        let s2 = seq![dig_char(lo)] + rest;
        assert(s2[0] == dig_char(lo));
        assert(dig_val(dig_char(lo)) == Some(lo));
        assert(mid * 10 + lo <= u64::MAX);
        assert(mid <= (u64::MAX - lo) / 10);
        assert(s2.drop_first() =~= rest);
        assert(p_digits(s2, mid as u64) == p_digits(rest, (mid * 10 + lo) as u64));
    }
}

/// The number parser undoes the number encoder, up to the next non-digit.
pub proof fn lemma_p_u64_rt(n: u64, rest: Seq<char>)
    requires
        rest.len() == 0 || dig_val(rest[0]) is None,
    ensures
        p_u64(digits(n) + rest) == Some((n, rest)),
{
    let s = digits(n) + rest;
    lemma_digits_are_digits(n);
    assert(s[0] == digits(n)[0]);
    lemma_digits_value(n);
    assert(0 * pow10(digits(n).len()) == 0) by (nonlinear_arith);
    lemma_p_digits_rt(n, 0, rest);
}

/// Prepends characters to the contents of a string-parse result.
pub open spec fn opt_prepend(pre: Seq<char>, r: Option<(Seq<char>, Seq<char>)>) -> Option<
    (Seq<char>, Seq<char>),
> {
    match r {
        Some((t, rest)) => Some((pre + t, rest)),
        None => None,
    }
}

/// Prepending one more character folds into the prefix.
pub proof fn lemma_prepend_push(pre: Seq<char>, x: char, r: Option<(Seq<char>, Seq<char>)>)
    ensures
        opt_prepend(pre.push(x), r) == opt_prepend(pre, opt_prepend(seq![x], r)),
{
    match r {
        Some((t, rest)) => {
            assert(pre.push(x) + t =~= pre + (seq![x] + t));
        },
        None => {},
    }
}

/// Consumes the given literal at the cursor.
pub fn expect_lit(s: &Vec<char>, i: usize, lit: &str) -> (r: Option<usize>)
    requires
        i <= s@.len(),
    ensures
        match r {
            Some(j) => i <= j <= s@.len() && j - i == lit@.len() && p_lit(
                s@.skip(i as int),
                lit@,
            ) == Some(s@.skip(j as int)),
            None => p_lit(s@.skip(i as int), lit@) is None,
        },
{
    let n = lit.unicode_len();
    let sn = s.len();
    if n > sn - i {
        return None;
    }
    let mut k: usize = 0;
    while k < n
        invariant
            k <= n,
            n == lit@.len(),
            sn == s@.len(),
            i + n <= sn,
            forall|m: int| 0 <= m < k ==> s@[i + m] == lit@[m],
        decreases n - k,
    {
        if s[i + k] != lit.get_char(k) {
            proof {
                assert(s@.skip(i as int).take(n as int)[k as int] == s@[i + k]);
            }
            return None;
        }
        k = k + 1;
    }
    proof {
        assert(s@.skip(i as int).take(n as int) =~= lit@);
        assert(s@.skip(i as int).skip(n as int) =~= s@.skip((i + n) as int));
    }
    Some(i + n)
}

/// Parses a quoted string at the cursor, unescaping its contents.
pub fn parse_string_at(s: &Vec<char>, i: usize) -> (r: Option<(Vec<char>, usize)>)
    requires
        i <= s@.len(),
    ensures
        match r {
            Some((t, j)) => i < j <= s@.len() && p_str(s@.skip(i as int)) == Some(
                (t@, s@.skip(j as int)),
            ),
            None => p_str(s@.skip(i as int)) is None,
        },
{
    if i >= s.len() {
        return None;
    }
    if s[i] != '"' {
        return None;
    }
    proof {
        assert(s@.skip(i as int).drop_first() =~= s@.skip((i + 1) as int));
    }
    let mut out: Vec<char> = Vec::new();
    let mut j: usize = i + 1;
    loop
        invariant
            i + 1 <= j <= s@.len(),
            i < s@.len(),
            s@[i as int] == '"',
            s@.skip(i as int).drop_first() == s@.skip((i + 1) as int),
            p_body(s@.skip((i + 1) as int)) == opt_prepend(out@, p_body(s@.skip(j as int))),
        decreases s@.len() - j,
    {
        if j >= s.len() {
            proof {
                assert(s@.skip(j as int).len() == 0);
            }
            return None;
        }
        let c = s[j];
        proof {
            assert(s@.skip(j as int)[0] == s@[j as int]);
        }
        if c == '"' {
            proof {
                assert(s@.skip(j as int).drop_first() =~= s@.skip((j + 1) as int));
                assert(out@ + Seq::<char>::empty() =~= out@);
            }
            return Some((out, j + 1));
        }
        if c == '\\' {
            if j + 1 >= s.len() {
                proof {
                    assert(s@.skip(j as int).len() < 2);
                }
                return None;
            }
            let e = s[j + 1];
            proof {
                assert(s@.skip(j as int)[1] == s@[j + 1]);
            }
            if e == 'u' {
                if s.len() - j < 6 {
                    proof {
                        assert(s@.skip(j as int).len() < 6);
                    }
                    return None;
                }
                proof {
                    assert(s@.skip(j as int)[2] == s@[j + 2]);
                    assert(s@.skip(j as int)[3] == s@[j + 3]);
                    assert(s@.skip(j as int)[4] == s@[j + 4]);
                    assert(s@.skip(j as int)[5] == s@[j + 5]);
                }
                let h1 = hex_val_exec(s[j + 2]);
                let h2 = hex_val_exec(s[j + 3]);
                let h3 = hex_val_exec(s[j + 4]);
                let h4 = hex_val_exec(s[j + 5]);
                match (h1, h2, h3, h4) {
                    (Some(a), Some(b), Some(cc), Some(d)) => {
                        let v: u32 = a * 4096 + b * 256 + cc * 16 + d;
                        if v < 0xD800 || (0xE000 <= v && v < 0x110000) {
                            let ch = char_of_scalar(v);
                            let ghost pre = out@;
                            out.push(ch);
                            proof {
                                assert((v as char) == ch);
                                assert(s@.skip(j as int).skip(6) =~= s@.skip((j + 6) as int));
                                lemma_prepend_push(pre, ch, p_body(s@.skip((j + 6) as int)));
                            }
                            j = j + 6;
                        } else {
                            return None;
                        }
                    },
                    _ => {
                        return None;
                    },
                }
            } else {
                match unesc_exec(e) {
                    Some(u) => {
                        let ghost pre = out@;
                        out.push(u);
                        proof {
                            assert(s@.skip(j as int).skip(2) =~= s@.skip((j + 2) as int));
                            lemma_prepend_push(pre, u, p_body(s@.skip((j + 2) as int)));
                        }
                        j = j + 2;
                    },
                    None => {
                        return None;
                    },
                }
            }
        } else {
            let ghost pre = out@;
            out.push(c);
            proof {
                assert(s@.skip(j as int).skip(1) =~= s@.skip((j + 1) as int));
                lemma_prepend_push(pre, c, p_body(s@.skip((j + 1) as int)));
            }
            j = j + 1;
        }
    }
}

/// Parses a decimal number at the cursor.
pub fn parse_u64_at(s: &Vec<char>, i: usize) -> (r: Option<(u64, usize)>)
    requires
        i <= s@.len(),
    ensures
        match r {
            Some((n, j)) => i < j <= s@.len() && p_u64(s@.skip(i as int)) == Some(
                (n, s@.skip(j as int)),
            ),
            None => p_u64(s@.skip(i as int)) is None,
        },
{
    if i >= s.len() {
        return None;
    }
    proof {
        assert(s@.skip(i as int)[0] == s@[i as int]);
    }
    match dig_val_exec(s[i]) {
        None => {
            return None;
        },
        Some(_) => {},
    }
    let mut j: usize = i;
    let mut acc: u64 = 0;
    loop
        invariant
            i <= j <= s@.len(),
            i < s@.len(),
            dig_val(s@[i as int]) is Some,
            p_u64(s@.skip(i as int)) == p_digits(s@.skip(j as int), acc),
            j == i ==> acc == 0,
        decreases s@.len() - j,
    {
        if j >= s.len() {
            proof {
                assert(s@.skip(j as int).len() == 0);
            }
            return Some((acc, j));
        }
        proof {
            assert(s@.skip(j as int)[0] == s@[j as int]);
        }
        match dig_val_exec(s[j]) {
            None => {
                return Some((acc, j));
            },
            Some(d) => {
                if acc > (u64::MAX - d) / 10 {
                    return None;
                }
                proof {
                    assert(s@.skip(j as int).drop_first() =~= s@.skip((j + 1) as int));
                }
                acc = acc * 10 + d;
                j = j + 1;
            },
        }
    }
}

/// One array item followed by more items or the closing bracket.
pub open spec fn p_str_items(s: Seq<char>) -> Option<(Seq<Seq<char>>, Seq<char>)>
    decreases s.len(),
{
    match p_str(s) {
        None => None,
        Some((v, r)) => if r.len() < s.len() {
            if r.len() > 0 && r[0] == ',' {
                match p_str_items(r.drop_first()) {
                    Some((vs, r2)) => Some((seq![v] + vs, r2)),
                    None => None,
                }
            } else if r.len() > 0 && r[0] == ']' {
                Some((seq![v], r.drop_first()))
            } else {
                None
            }
        } else {
            None
        },
    }
}

/// An array of strings in brackets.
pub open spec fn p_str_array(s: Seq<char>) -> Option<(Seq<Seq<char>>, Seq<char>)> {
    if s.len() >= 2 && s[0] == '[' && s[1] == ']' {
        Some((Seq::empty(), s.skip(2)))
    } else if s.len() >= 1 && s[0] == '[' {
        p_str_items(s.drop_first())
    } else {
        None
    }
}

/// Parses the items of a string array after the opening bracket.
pub fn parse_str_items_at(s: &Vec<char>, i: usize) -> (r: Option<(Vec<String>, usize)>)
    requires
        i <= s@.len(),
    ensures
        match r {
            Some((vs, j)) => i < j <= s@.len() && p_str_items(s@.skip(i as int)) == Some(
                (vs.deep_view(), s@.skip(j as int)),
            ),
            None => p_str_items(s@.skip(i as int)) is None,
        },
    decreases s@.len() - i,
{
    match parse_string_at(s, i) {
        None => None,
        Some((t, j)) => {
            proof {
                assert(s@.skip(j as int).len() < s@.skip(i as int).len());
            }
            if j < s.len() && s[j] == ',' {
                proof {
                    assert(s@.skip(j as int)[0] == s@[j as int]);
                    assert(s@.skip(j as int).drop_first() =~= s@.skip((j + 1) as int));
                }
                match parse_str_items_at(s, j + 1) {
                    None => None,
                    Some((mut vs, k)) => {
                        let ghost old_dv = vs.deep_view();
                        vs.insert(0, chars_to_string(&t));
                        proof {
                            assert(vs.deep_view() =~= seq![t@] + old_dv);
                        }
                        Some((vs, k))
                    },
                }
            } else if j < s.len() && s[j] == ']' {
                proof {
                    assert(s@.skip(j as int)[0] == s@[j as int]);
                    assert(s@.skip(j as int).drop_first() =~= s@.skip((j + 1) as int));
                }
                let mut vs: Vec<String> = Vec::new();
                vs.push(chars_to_string(&t));
                proof {
                    assert(vs.deep_view() =~= seq![t@]);
                }
                Some((vs, j + 1))
            } else {
                proof {
                    if j < s.len() {
                        assert(s@.skip(j as int)[0] == s@[j as int]);
                    } else {
                        assert(s@.skip(j as int).len() == 0);
                    }
                }
                None
            }
        },
    }
}

/// Parses a bracketed array of strings at the cursor.
pub fn parse_str_array_at(s: &Vec<char>, i: usize) -> (r: Option<(Vec<String>, usize)>)
    requires
        i <= s@.len(),
    ensures
        match r {
            Some((vs, j)) => i < j <= s@.len() && p_str_array(s@.skip(i as int)) == Some(
                (vs.deep_view(), s@.skip(j as int)),
            ),
            None => p_str_array(s@.skip(i as int)) is None,
        },
{
    if i >= s.len() {
        return None;
    }
    proof {
        assert(s@.skip(i as int)[0] == s@[i as int]);
    }
    if s[i] != '[' {
        return None;
    }
    if i + 1 < s.len() && s[i + 1] == ']' {
        proof {
            assert(s@.skip(i as int)[1] == s@[i + 1]);
            assert(s@.skip(i as int).skip(2) =~= s@.skip((i + 2) as int));
        }
        let vs: Vec<String> = Vec::new();
        proof {
            assert(vs.deep_view() =~= Seq::<Seq<char>>::empty());
        }
        return Some((vs, i + 2));
    }
    proof {
        if i + 1 < s@.len() {
            assert(s@.skip(i as int)[1] == s@[i + 1]);
        }
        assert(s@.skip(i as int).drop_first() =~= s@.skip((i + 1) as int));
    }
    parse_str_items_at(s, i + 1)
}

/// The encoded items of a string array, comma separated.
pub open spec fn enc_str_items(a: Seq<Seq<char>>) -> Seq<char>
    decreases a.len(),
{
    if a.len() == 0 {
        Seq::empty()
    } else if a.len() == 1 {
        enc_str(a[0])
    } else {
        enc_str(a[0]) + seq![','] + enc_str_items(a.drop_first())
    }
}

/// A bracketed array of quoted strings.
pub open spec fn enc_str_array(a: Seq<Seq<char>>) -> Seq<char> {
    seq!['['] + enc_str_items(a) + seq![']']
}

/// Appends the encoded items of a string array from the given index on.
fn push_str_items(out: &mut Vec<char>, a: &Vec<String>, idx: usize)
    requires
        idx <= a@.len(),
    ensures
        final(out)@ == old(out)@ + enc_str_items(a.deep_view().skip(idx as int)),
    decreases a@.len() - idx,
{
    let ghost dv = a.deep_view();
    proof {
        assert(dv.len() == a@.len());
    }
    if idx >= a.len() {
        proof {
            assert(out@ =~= old(out)@ + enc_str_items(dv.skip(idx as int)));
        }
        return ;
    }
    let cs = crate::text::str_to_chars(a[idx].as_str());
    proof {
        assert(dv.skip(idx as int)[0] == dv[idx as int]);
    }
    if idx == a.len() - 1 {
        push_quoted(out, &cs);
        proof {
            assert(dv.skip(idx as int).len() == 1);
            assert(out@ =~= old(out)@ + enc_str_items(dv.skip(idx as int)));
        }
    } else {
        push_quoted(out, &cs);
        out.push(',');
        push_str_items(out, a, idx + 1);
        proof {
            assert(dv.skip(idx as int).drop_first() =~= dv.skip((idx + 1) as int));
            assert(old(out)@ + enc_str(dv[idx as int]) + seq![','] + enc_str_items(
                dv.skip((idx + 1) as int),
            ) =~= old(out)@ + enc_str_items(dv.skip(idx as int)));
        }
    }
}

/// Appends a bracketed array of quoted strings.
pub fn push_str_array(out: &mut Vec<char>, a: &Vec<String>)
    ensures
        final(out)@ == old(out)@ + enc_str_array(a.deep_view()),
{
    out.push('[');
    push_str_items(out, a, 0);
    out.push(']');
    proof {
        assert(a.deep_view().skip(0) =~= a.deep_view());
        assert(out@ =~= old(out)@ + enc_str_array(a.deep_view()));
    }
}

/// The items parser undoes the items encoder for a non-empty array.
pub proof fn lemma_p_str_items_rt(a: Seq<Seq<char>>, rest: Seq<char>)
    requires
        a.len() >= 1,
    ensures
        p_str_items(enc_str_items(a) + seq![']'] + rest) == Some((a, rest)),
    decreases a.len(),
{
    let s = enc_str_items(a) + seq![']'] + rest;
    if a.len() == 1 {
        let r = seq![']'] + rest;
        assert(s =~= enc_str(a[0]) + r);
        lemma_p_str_rt(a[0], r);
        assert(r.len() < s.len());
        assert(r[0] == ']');
        assert(r.drop_first() =~= rest);
        assert(seq![a[0]] =~= a);
    } else {
        let tail = a.drop_first();
        let x = enc_str_items(tail) + seq![']'] + rest;
        let r = seq![','] + x;
        assert(s =~= enc_str(a[0]) + r);
        lemma_p_str_rt(a[0], r);
        assert(r.len() < s.len());
        assert(r[0] == ',');
        assert(r.drop_first() =~= x);
        lemma_p_str_items_rt(tail, rest);
        assert(seq![a[0]] + tail =~= a);
    }
}

/// The array parser undoes the array encoder.
pub proof fn lemma_p_str_array_rt(a: Seq<Seq<char>>, rest: Seq<char>)
    ensures
        p_str_array(enc_str_array(a) + rest) == Some((a, rest)),
{
    let s = enc_str_array(a) + rest;
    assert(s[0] == '[');
    if a.len() == 0 {
        assert(enc_str_items(a) == Seq::<char>::empty());
        assert(s[1] == ']');
        assert(s.skip(2) =~= rest);
        assert(Seq::<Seq<char>>::empty() =~= a);
    } else {
        assert(enc_str_items(a)[0] == enc_str(a[0])[0]);
        assert(enc_str(a[0])[0] == '"');
        assert(s[1] == '"');
        assert(s.drop_first() =~= enc_str_items(a) + seq![']'] + rest);
        lemma_p_str_items_rt(a, rest);
    }
}

} // verus!
