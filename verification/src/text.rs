//! Characters and strings: white space, appending, decimal numerals.
use vstd::prelude::*;
use vstd::string::StringSliceAdditionalSpecFns;
use vstd::utf8::{decode_utf8, encode_utf8_decode_utf8, is_char_boundary};

verus! {

/// Whether `c` has the Unicode `White_Space` property, which is what
/// `char::is_whitespace` reports: the 25 code points U+0009 to U+000D, U+0020,
/// U+0085, U+00A0, U+1680, U+2000 to U+200A, U+2028, U+2029, U+202F, U+205F
/// and U+3000.
pub open spec fn is_white_space(c: char) -> bool {
    let v = c as u32;
    ||| 0x09 <= v <= 0x0d
    ||| v == 0x20
    ||| v == 0x85
    ||| v == 0xa0
    ||| v == 0x1680
    ||| 0x2000 <= v <= 0x200a
    ||| v == 0x2028
    ||| v == 0x2029
    ||| v == 0x202f
    ||| v == 0x205f
    ||| v == 0x3000
}

/// Decides `is_white_space`.
pub fn char_is_whitespace(c: char) -> (b: bool)
    ensures
        b == is_white_space(c),
{
    let v = c as u32;
    (0x09 <= v && v <= 0x0d) || v == 0x20 || v == 0x85 || v == 0xa0 || v == 0x1680 || (0x2000 <= v
        && v <= 0x200a) || v == 0x2028 || v == 0x2029 || v == 0x202f || v == 0x205f || v == 0x3000
}

/// `String::push`.  Claimed: the character is appended to the string.
#[verifier::external_body]
pub fn push_char(s: &mut String, c: char)
    ensures
        final(s)@ == old(s)@.push(c),
{
    s.push(c);
}

/// The decimal digit of `d`.
pub open spec fn digit_char(d: nat) -> char {
    (48 + d) as char
}

/// The decimal numeral of `n`, without leading zeros.
pub open spec fn decimal(n: nat) -> Seq<char>
    decreases n,
{
    if n < 10 {
        seq![digit_char(n)]
    } else {
        decimal(n / 10).push(digit_char(n % 10))
    }
}

fn digit(d: usize) -> (c: char)
    requires
        d < 10,
    ensures
        c == digit_char(d as nat),
{
    match d {
        0 => '0',
        1 => '1',
        2 => '2',
        3 => '3',
        4 => '4',
        5 => '5',
        6 => '6',
        7 => '7',
        8 => '8',
        _ => '9',
    }
}

/// The number that a string of decimal digits writes.
pub open spec fn numeral_value(digits: Seq<char>) -> int
    decreases digits.len(),
{
    if digits.len() == 0 {
        0
    } else {
        numeral_value(digits.drop_last()) * 10 + (digits.last() as int - 48)
    }
}

/// The decimal numeral of `n` is made of digits, writes `n`, and has no
/// leading zero.
pub proof fn lemma_decimal_writes_the_number(n: nat)
    ensures
        decimal(n).len() > 0,
        forall|i: int| 0 <= i < decimal(n).len() ==> '0' <= #[trigger] decimal(n)[i] <= '9',
        numeral_value(decimal(n)) == n,
        decimal(n).len() > 1 ==> decimal(n)[0] != '0',
    decreases n,
{
    if n < 10 {
        assert(decimal(n) =~= seq![digit_char(n)]);
        assert(digit_char(n) as int == 48 + n);
        assert(seq![digit_char(n)].drop_last() =~= Seq::<char>::empty());
        assert(numeral_value(Seq::<char>::empty()) == 0);
        assert(numeral_value(decimal(n)) == numeral_value(Seq::<char>::empty()) * 10 + (
        digit_char(n) as int - 48));
    } else {
        lemma_decimal_writes_the_number(n / 10);
        assert(digit_char(n % 10) as int == 48 + n % 10);
        let d = decimal(n);
        let init = decimal(n / 10);
        assert(d.drop_last() =~= init);
        assert(d[0] == init[0]);
        assert(n / 10 * 10 + n % 10 == n) by (nonlinear_arith);
        assert(numeral_value(d) == numeral_value(init) * 10 + (d.last() as int - 48));
        assert(d.last() == digit_char(n % 10));
        assert forall|i: int| 0 <= i < d.len() implies '0' <= #[trigger] d[i] <= '9' by {
            if i < init.len() {
                assert(d[i] == init[i]);
            }
        }
        if init.len() == 1 {
            assert(n / 10 > 0);
            assert(n / 10 < 10) by {
                if n / 10 >= 10 {
                    lemma_decimal_writes_the_number(n / 10 / 10);
                    assert(decimal(n / 10).len() > 1);
                }
            }
            assert(init[0] == digit_char(n / 10));
            assert(digit_char(n / 10) as int == 48 + n / 10);
        }
    }
}

/// Appends the decimal numeral of `n`, as `format!("{}", n)` writes it.
pub fn push_decimal(s: &mut String, n: usize)
    ensures
        final(s)@ == old(s)@ + decimal(n as nat),
    decreases n,
{
    if n >= 10 {
        push_decimal(s, n / 10);
    }
    push_char(s, digit(n % 10));
}

/// A preview of `text`: the text itself when it is at most `limit` bytes
/// long, and otherwise its first `limit` bytes followed by "...".
pub fn preview(text: &str, limit: usize) -> (shown: String)
    requires
        text.spec_bytes().len() <= usize::MAX,
        text.spec_bytes().len() > limit ==> is_char_boundary(text.spec_bytes(), limit as int),
    ensures
        text.spec_bytes().len() <= limit ==> shown@ == text@,
        text.spec_bytes().len() > limit ==> shown@ == decode_utf8(
            text.spec_bytes().subrange(0, limit as int),
        ) + "..."@,
{
    let mut shown = String::new();
    if text.len() > limit {
        let (head, _) = text.split_at(limit);
        proof {
            encode_utf8_decode_utf8(head@);
            assert(head.spec_bytes() =~= text.spec_bytes().subrange(0, limit as int));
            assert(decode_utf8(head.spec_bytes()) == head@);
            assert(decode_utf8(text.spec_bytes().subrange(0, limit as int)) == head@);
        }
        shown.append(head);
        shown.append("...");
        assert(shown@ =~= head@ + "..."@);
    } else {
        shown.append(text);
        assert(shown@ =~= text@);
    }
    shown
}

} // verus!
