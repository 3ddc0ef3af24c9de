//! Decimal numerals: how an integer spells out, and how a run of digits
//! reads back as a value.

use vstd::prelude::*;

verus! {

/// An ASCII decimal digit.
pub open spec fn is_digit(c: char) -> bool {
    '0' <= c && c <= '9'
}

/// The value a digit character stands for.
pub open spec fn digit_value(c: char) -> nat {
    (c as u32 - '0' as u32) as nat
}

/// The character spelling a value below ten.
pub open spec fn digit_char(d: nat) -> char {
    (d + 48) as u32 as char
}

/// The decimal spelling of a natural number, most significant digit
/// first, with no leading zero.
pub open spec fn decimal(n: nat) -> Seq<char>
    decreases n,
{
    if n < 10 {
        seq![digit_char(n)]
    } else {
        decimal(n / 10).push(digit_char(n % 10))
    }
}

/// The decimal spelling of an integer: a leading `-` for a negative one,
/// then the digits of its magnitude.
pub open spec fn int_text(v: int) -> Seq<char> {
    if v < 0 {
        seq!['-'] + decimal((-v) as nat)
    } else {
        decimal(v as nat)
    }
}

/// Every character of `s` is a decimal digit.
pub open spec fn all_digits(s: Seq<char>) -> bool {
    forall|i: int| 0 <= i < s.len() ==> #[trigger] is_digit(s[i])
}

/// The value a run of decimal digits reads as.
pub open spec fn digits_value(s: Seq<char>) -> nat
    decreases s.len(),
{
    if s.len() == 0 {
        0
    } else {
        digits_value(s.drop_last()) * 10 + digit_value(s.last())
    }
}

/// A digit spelled out reads back as itself.
pub proof fn lemma_digit_char(d: nat)
    requires
        d < 10,
    ensures
        is_digit(digit_char(d)),
        digit_value(digit_char(d)) == d,
{
    let x = (d + 48) as u32;
    assert(x as char as u32 == x);
}

/// A decimal spelling is a nonempty run of digits that reads back as the
/// number it spells.
pub proof fn lemma_decimal(n: nat)
    ensures
        decimal(n).len() >= 1,
        all_digits(decimal(n)),
        digits_value(decimal(n)) == n,
    decreases n,
{
    if n < 10 {
        lemma_digit_char(n);
        assert(decimal(n).drop_last() =~= Seq::<char>::empty());
        assert(decimal(n).last() == digit_char(n));
        assert(digits_value(Seq::<char>::empty()) == 0);
    } else {
        lemma_decimal(n / 10);
        lemma_digit_char(n % 10);
        let s = decimal(n);
        assert(s.drop_last() =~= decimal(n / 10));
        assert(s.last() == digit_char(n % 10));
        assert(digits_value(s) == digits_value(decimal(n / 10)) * 10 + n % 10);
        assert((n / 10) * 10 + n % 10 == n);
        assert forall|i: int| 0 <= i < s.len() implies #[trigger] is_digit(s[i]) by {
            if i < s.len() - 1 {
                assert(s[i] == decimal(n / 10)[i]);
            }
        }
    }
}

/// Reading a longer run never yields less than reading its prefix.
pub proof fn lemma_digits_value_prefix(s: Seq<char>, i: int)
    requires
        0 <= i <= s.len(),
    ensures
        digits_value(s.take(i)) <= digits_value(s),
    decreases s.len() - i,
{
    if i < s.len() {
        lemma_digits_value_prefix(s, i + 1);
        assert(s.take(i + 1).drop_last() =~= s.take(i));
    } else {
        assert(s.take(i) =~= s);
    }
}

/// Append one character to a string.
#[verifier::external_body]
pub(crate) fn push_char(s: &mut String, c: char)
    ensures
        final(s)@ == old(s)@.push(c),
{
    s.push(c);
}

/// Append the decimal spelling of `value`.
pub fn push_decimal(out: &mut String, value: u64)
    ensures
        final(out)@ == old(out)@ + decimal(value as nat),
    decreases value,
{
    if value >= 10 {
        push_decimal(out, value / 10);
    }
    let d = value % 10;
    proof {
        lemma_digit_char(d as nat);
    }
    let c = ((d as u32) + 48) as u8 as char;
    assert(c == digit_char(d as nat)) by {
        assert(((d + 48) as u32) as u8 as char == ((d + 48) as u32) as char);
    }
    let ghost before = out@;
    push_char(out, c);
    assert(out@ == old(out)@ + decimal(value as nat)) by {
        if value >= 10 {
            assert(decimal(value as nat) == decimal((value / 10) as nat).push(c));
        } else {
            assert(decimal(value as nat) == seq![c]);
        }
    }
}

/// Append the decimal spelling of a signed integer.
pub fn push_int(out: &mut String, value: i64)
    ensures
        final(out)@ == old(out)@ + int_text(value as int),
{
    if value < 0 {
        push_char(out, '-');
        let magnitude: u64 = if value == i64::MIN {
            9223372036854775808u64
        } else {
            (-value) as u64
        };
        push_decimal(out, magnitude);
        assert(out@ == old(out)@ + int_text(value as int));
    } else {
        push_decimal(out, value as u64);
    }
}

/// Read a run of decimal digits as an `i64`, or `None` when the value is
/// past the largest one an `i64` holds.
pub fn digits_to_i64(digits: &str) -> (res: Option<i64>)
    requires
        all_digits(digits@),
    ensures
        match res {
            Some(v) => digits_value(digits@) <= i64::MAX && v == digits_value(digits@),
            None => digits_value(digits@) > i64::MAX,
        },
{
    let mut acc: i64 = 0;
    for c in it: digits.chars()
        invariant
            it.seq() == digits@,
            all_digits(digits@),
            acc == digits_value(digits@.take(it.index())),
    {
        let ghost i = it.index();
        proof {
            assert(digits@.take(i + 1).drop_last() =~= digits@.take(i));
            assert(is_digit(digits@[i]));
        }
        let d = (c as u32 - 48) as i64;
        let next = match acc.checked_mul(10) {
            Some(v) => v.checked_add(d),
            None => None,
        };
        match next {
            Some(v) => {
                acc = v;
            },
            None => {
                proof {
                    lemma_digits_value_prefix(digits@, i + 1);
                }
                return None;
            },
        }
    }
    proof {
        assert(digits@.take(digits@.len() as int) =~= digits@);
    }
    Some(acc)
}

} // verus!
