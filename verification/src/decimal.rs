//! Integers written in decimal.

use crate::text::text_from_utf8;
use vstd::prelude::*;
use vstd::string::*;
use vstd::utf8::*;

verus! {

/// Whether `c` is one of the ten digits.
pub open spec fn is_digit(c: char) -> bool {
    '0' <= c <= '9'
}

/// The digit that stands for `d`, for `d` below ten.
pub open spec fn digit_char(d: nat) -> char {
    if d == 0 {
        '0'
    } else if d == 1 {
        '1'
    } else if d == 2 {
        '2'
    } else if d == 3 {
        '3'
    } else if d == 4 {
        '4'
    } else if d == 5 {
        '5'
    } else if d == 6 {
        '6'
    } else if d == 7 {
        '7'
    } else if d == 8 {
        '8'
    } else {
        '9'
    }
}

/// The number that the digit `c` stands for.
pub open spec fn digit_value(c: char) -> nat {
    (c as u32 - 48) as nat
}

/// The number that the digits `s` spell.
pub open spec fn digits_value(s: Seq<char>) -> nat
    decreases s.len(),
{
    if s.len() == 0 {
        0
    } else {
        10 * digits_value(s.drop_last()) + digit_value(s.last())
    }
}

/// Whether `s` holds digits only.
pub open spec fn all_digits(s: Seq<char>) -> bool {
    forall|i: int| 0 <= i < s.len() ==> is_digit(#[trigger] s[i])
}

/// The number that `s` spells: digits, at least one, after an optional `+`.
pub open spec fn parse_unsigned(s: Seq<char>) -> Option<nat> {
    let body = if s.len() > 0 && s[0] == '+' {
        s.drop_first()
    } else {
        s
    };
    if body.len() > 0 && all_digits(body) {
        Some(digits_value(body))
    } else {
        None
    }
}

/// The number that `s` spells: digits, at least one, after an optional `+`
/// or `-`.
pub open spec fn parse_signed(s: Seq<char>) -> Option<int> {
    if s.len() > 0 && s[0] == '-' {
        let body = s.drop_first();
        if body.len() > 0 && all_digits(body) {
            Some(-(digits_value(body) as int))
        } else {
            None
        }
    } else {
        match parse_unsigned(s) {
            Some(n) => Some(n as int),
            None => None,
        }
    }
}

/// The digits of `n`, without leading zeros.
pub open spec fn decimal(n: nat) -> Seq<char>
    decreases n,
{
    if n < 10 {
        seq![digit_char(n)]
    } else {
        decimal(n / 10).push(digit_char(n % 10))
    }
}

/// The digits of `v`, after a `-` if it is negative.
pub open spec fn signed_decimal(v: int) -> Seq<char> {
    if v < 0 {
        seq!['-'] + decimal((-v) as nat)
    } else {
        decimal(v as nat)
    }
}

/// The decimal digits of a number are digits, at least one, and spell the
/// number.
pub proof fn lemma_decimal_digits(n: nat)
    ensures
        decimal(n).len() > 0,
        all_digits(decimal(n)),
        digits_value(decimal(n)) == n,
        is_ascii_chars(decimal(n)),
    decreases n,
{
    if n < 10 {
        let s = decimal(n);
        assert(s.drop_last() =~= Seq::<char>::empty());
        assert(digits_value(s.drop_last()) == 0);
        assert(s.last() == digit_char(n));
    } else {
        let front = decimal(n / 10);
        let s = decimal(n);
        lemma_decimal_digits(n / 10);
        assert(s.drop_last() =~= front);
        assert(s.last() == digit_char(n % 10));
        assert forall|i: int| 0 <= i < s.len() implies is_digit(#[trigger] s[i]) by {
            if i < front.len() {
                assert(s[i] == front[i]);
            }
        }
        assert forall|i: int| 0 <= i < s.len() implies '\0' <= #[trigger] s[i] <= '\u{7f}' by {
            if i < front.len() {
                assert(s[i] == front[i]);
            }
        }
    }
}

/// What was written in decimal reads back as the same number.
pub proof fn lemma_parse_decimal(n: nat)
    ensures
        parse_unsigned(decimal(n)) == Some(n),
        parse_signed(decimal(n)) == Some(n as int),
{
    lemma_decimal_digits(n);
    assert(is_digit(decimal(n)[0]));
}

/// What was written in decimal with its sign reads back as the same number.
pub proof fn lemma_parse_signed_decimal(v: int)
    ensures
        parse_signed(signed_decimal(v)) == Some(v),
{
    if v < 0 {
        let body = decimal((-v) as nat);
        lemma_decimal_digits((-v) as nat);
        assert(signed_decimal(v).drop_first() =~= body);
    } else {
        lemma_parse_decimal(v as nat);
    }
}

/// Appends the digits of `n` to `out`.
fn push_decimal(out: &mut Vec<u8>, n: u128)
    ensures
        final(out)@.len() == old(out)@.len() + decimal(n as nat).len(),
        forall|i: int| 0 <= i < old(out)@.len() ==> final(out)@[i] == old(out)@[i],
        forall|i: int|
            0 <= i < decimal(n as nat).len() ==> final(out)@[old(out)@.len() + i] == decimal(
                n as nat,
            )[i] as u8,
    decreases n,
{
    if n >= 10 {
        push_decimal(out, n / 10);
    }
    out.push(48u8 + (n % 10) as u8);
}

/// Text from bytes that are all below 128.
fn ascii_text(bytes: Vec<u8>, Ghost(chars): Ghost<Seq<char>>) -> (r: String)
    requires
        is_ascii_chars(chars),
        chars.len() == bytes@.len(),
        forall|i: int| 0 <= i < chars.len() ==> bytes@[i] == chars[i] as u8,
    ensures
        r@ == chars,
{
    proof {
        is_ascii_chars_encode_utf8(chars);
        assert(encode_utf8(chars) =~= bytes@);
        encode_utf8_valid_utf8(chars);
        encode_utf8_decode_utf8(chars);
    }
    match text_from_utf8(bytes) {
        Some(s) => s,
        None => String::new(),
    }
}

/// `n` in decimal.
pub fn unsigned_to_decimal(n: u128) -> (r: String)
    ensures
        r@ == decimal(n as nat),
{
    let mut out: Vec<u8> = Vec::new();
    push_decimal(&mut out, n);
    proof {
        lemma_decimal_digits(n as nat);
    }
    ascii_text(out, Ghost(decimal(n as nat)))
}

/// `v` in decimal, after a `-` if it is negative.
pub fn signed_to_decimal(v: i128) -> (r: String)
    ensures
        r@ == signed_decimal(v as int),
{
    if v < 0 {
        let magnitude: u128 = if v == i128::MIN {
            0x8000_0000_0000_0000_0000_0000_0000_0000u128
        } else {
            (-v) as u128
        };
        let mut out: Vec<u8> = Vec::new();
        out.push(45u8);
        push_decimal(&mut out, magnitude);
        proof {
            let body = decimal(magnitude as nat);
            let all = signed_decimal(v as int);
            lemma_decimal_digits(magnitude as nat);
            assert(all =~= seq!['-'] + body);
            assert forall|i: int| 0 <= i < all.len() implies out@[i] == all[i] as u8 by {
                if i > 0 {
                    assert(all[i] == body[i - 1]);
                }
            }
            assert forall|i: int| 0 <= i < all.len() implies '\0' <= #[trigger] all[i] <= '\u{7f}' by {
                if i > 0 {
                    assert(all[i] == body[i - 1]);
                }
            }
        }
        ascii_text(out, Ghost(signed_decimal(v as int)))
    } else {
        unsigned_to_decimal(v as u128)
    }
}

/// The number that the digits of `s` from `from` on spell; `None` where they
/// are no digits or none at all, `Some(None)` where the number is too large.
fn read_digits(s: &str, from: usize) -> (r: Option<Option<u128>>)
    requires
        is_ascii(s),
        from <= s@.len(),
    ensures
        match r {
            None => !(s@.skip(from as int).len() > 0 && all_digits(s@.skip(from as int))),
            Some(v) => s@.skip(from as int).len() > 0 && all_digits(s@.skip(from as int)) && v == (
            if digits_value(s@.skip(from as int)) <= u128::MAX {
                Some(digits_value(s@.skip(from as int)) as u128)
            } else {
                None
            }),
        },
{
    let bytes = s.as_bytes();
    let ghost body = s@.skip(from as int);
    proof {
        is_ascii_spec_bytes(s);
    }
    assert(bytes@.len() == s@.len());
    if from == bytes.len() {
        return None;
    }
    let mut acc: Option<u128> = Some(0);
    let mut i: usize = from;
    while i < bytes.len()
        invariant
            from <= i <= bytes.len(),
            bytes@.len() == s@.len(),
            body == s@.skip(from as int),
            forall|k: int|
                0 <= k < s@.len() ==> bytes@[k] == #[trigger] s@[k] as u8 && '\0' <= s@[k]
                    <= '\u{7f}',
            all_digits(body.take(i - from)),
            acc == (if digits_value(body.take(i - from)) <= u128::MAX {
                Some(digits_value(body.take(i - from)) as u128)
            } else {
                None::<u128>
            }),
        decreases bytes.len() - i,
    {
        let b = bytes[i];
        let ghost c = s@[i as int];
        assert(body[i - from] == c);
        if b < 48 || b > 57 {
            assert(!is_digit(c));
            return None;
        }
        proof {
            let next = body.take(i - from + 1);
            assert(next.drop_last() =~= body.take(i - from));
            assert(next.last() == c);
            assert(is_digit(c));
            assert forall|k: int| 0 <= k < next.len() implies is_digit(#[trigger] next[k]) by {
                if k < i - from {
                    assert(next[k] == body.take(i - from)[k]);
                }
            }
        }
        acc = match acc {
            Some(a) => match a.checked_mul(10) {
                Some(t) => t.checked_add((b - 48) as u128),
                None => None,
            },
            None => None,
        };
        i += 1;
    }
    assert(body.take(i - from) =~= body);
    Some(acc)
}

/// The number that `s` spells, where it spells one that fits.
pub fn parse_u128(s: &str) -> (r: Option<u128>)
    ensures
        r == match parse_unsigned(s@) {
            Some(n) => if n <= u128::MAX {
                Some(n as u128)
            } else {
                None
            },
            None => None,
        },
{
    if !s.is_ascii() {
        proof {
            lemma_not_ascii_not_number(s@);
        }
        return None;
    }
    let bytes = s.as_bytes();
    proof {
        is_ascii_spec_bytes(s);
    }
    assert(bytes@.len() == s@.len());
    let from: usize = if bytes.len() > 0 && bytes[0] == 43 {
        1
    } else {
        0
    };
    assert(s@.skip(1) =~= s@.drop_first());
    assert(s@.skip(0) =~= s@);
    match read_digits(s, from) {
        Some(v) => v,
        None => None,
    }
}

/// The number that `s` spells, where it spells one that fits.
pub fn parse_i128(s: &str) -> (r: Option<i128>)
    ensures
        r == match parse_signed(s@) {
            Some(v) => if i128::MIN <= v <= i128::MAX {
                Some(v as i128)
            } else {
                None
            },
            None => None,
        },
{
    if !s.is_ascii() {
        proof {
            lemma_not_ascii_not_number(s@);
        }
        return None;
    }
    let bytes = s.as_bytes();
    proof {
        is_ascii_spec_bytes(s);
    }
    assert(bytes@.len() == s@.len());
    assert(s@.skip(1) =~= s@.drop_first());
    assert(s@.skip(0) =~= s@);
    if bytes.len() > 0 && bytes[0] == 45 {
        match read_digits(s, 1) {
            Some(Some(m)) => {
                if m <= 0x7fff_ffff_ffff_ffff_ffff_ffff_ffff_ffffu128 {
                    Some(-(m as i128))
                } else if m == 0x8000_0000_0000_0000_0000_0000_0000_0000u128 {
                    Some(i128::MIN)
                } else {
                    None
                }
            },
            _ => None,
        }
    } else {
        let from: usize = if bytes.len() > 0 && bytes[0] == 43 {
            1
        } else {
            0
        };
        match read_digits(s, from) {
            Some(Some(m)) => {
                if m <= 0x7fff_ffff_ffff_ffff_ffff_ffff_ffff_ffffu128 {
                    Some(m as i128)
                } else {
                    None
                }
            },
            _ => None,
        }
    }
}

/// Text with a character beyond ASCII spells no number.
pub proof fn lemma_not_ascii_not_number(s: Seq<char>)
    requires
        !is_ascii_chars(s),
    ensures
        parse_unsigned(s) is None,
        parse_signed(s) is None,
{
    let k = choose|k: int| 0 <= k < s.len() && !('\0' <= #[trigger] s[k] <= '\u{7f}');
    assert(!is_digit(s[k]));
    if k > 0 {
        assert(s.drop_first()[k - 1] == s[k]);
    }
}

} // verus!
