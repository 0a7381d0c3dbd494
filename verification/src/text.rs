//! Text building: decimal and hexadecimal numerals over `String`.

use vstd::prelude::*;

verus! {

/// `String::push` appends one character.
pub assume_specification[ String::push ](s: &mut String, c: char)
    ensures
        final(s)@ == old(s)@.push(c),
;

/// `String::push_str` appends the characters of a string slice.
pub assume_specification[ String::push_str ](s: &mut String, tail: &str)
    ensures
        final(s)@ == old(s)@ + tail@,
;

/// The decimal digit of `d`, for `d < 10`.
pub open spec fn digit(d: nat) -> char {
    (48 + d) as char
}

/// The decimal numeral of `n`, without leading zeros.
pub open spec fn decimal(n: nat) -> Seq<char>
    decreases n,
{
    if n < 10 {
        seq![digit(n)]
    } else {
        decimal(n / 10).push(digit(n % 10))
    }
}

/// The decimal numeral of `n`, with a leading minus sign where `n` is negative.
pub open spec fn signed_decimal(n: int) -> Seq<char> {
    if n < 0 {
        seq!['-'] + decimal((-n) as nat)
    } else {
        decimal(n as nat)
    }
}

/// The decimal numeral of `n`, padded with a zero to two characters.
pub open spec fn padded_decimal(n: nat) -> Seq<char> {
    if n < 10 {
        seq!['0', digit(n)]
    } else {
        decimal(n)
    }
}

/// The lower-case hexadecimal digit of `d`, for `d < 16`.
pub open spec fn hex_digit(d: nat) -> char {
    if d < 10 {
        (48 + d) as char
    } else {
        (87 + d) as char
    }
}

/// Two lower-case hexadecimal digits for every byte, in order.
pub open spec fn hex(bytes: Seq<u8>) -> Seq<char> {
    Seq::new(
        2 * bytes.len(),
        |i: int|
            if i % 2 == 0 {
                hex_digit(bytes[i / 2] as nat / 16)
            } else {
                hex_digit(bytes[i / 2] as nat % 16)
            },
    )
}

/// Appends the decimal numeral of `n`.
pub fn push_decimal(out: &mut String, n: u64)
    ensures
        final(out)@ == old(out)@ + decimal(n as nat),
    decreases n,
{
    if n >= 10 {
        push_decimal(out, n / 10);
    }
    out.push((48u8 + (n % 10) as u8) as char);
    assert(out@ =~= old(out)@ + decimal(n as nat));
}

/// Appends the signed decimal numeral of `n`.
pub fn push_signed_decimal(out: &mut String, n: i64)
    ensures
        final(out)@ == old(out)@ + signed_decimal(n as int),
{
    if n < 0 {
        out.push('-');
        if n == i64::MIN {
            push_decimal(out, 9223372036854775808);
        } else {
            push_decimal(out, (-n) as u64);
        }
        assert(out@ =~= old(out)@ + signed_decimal(n as int));
    } else {
        push_decimal(out, n as u64);
    }
}

/// Appends the decimal numeral of `n`, padded to two characters.
pub fn push_padded_decimal(out: &mut String, n: u64)
    ensures
        final(out)@ == old(out)@ + padded_decimal(n as nat),
{
    if n < 10 {
        out.push('0');
    }
    push_decimal(out, n);
    assert(out@ =~= old(out)@ + padded_decimal(n as nat));
}

fn hex_char(d: u8) -> (c: char)
    requires
        d < 16,
    ensures
        c == hex_digit(d as nat),
{
    if d < 10 {
        (48u8 + d) as char
    } else {
        (87u8 + d) as char
    }
}

/// The bytes as lower-case hexadecimal text.
pub fn bytes_to_hex(bytes: &[u8]) -> (out: String)
    ensures
        out@ == hex(bytes@),
{
    let mut out = String::new();
    for i in 0..bytes.len()
        invariant
            out@ == hex(bytes@.take(i as int)),
    {
        let b: u8 = bytes[i];
        out.push(hex_char(b / 16));
        out.push(hex_char(b % 16));
        assert(out@ =~= hex(bytes@.take(i + 1)));
    }
    assert(bytes@.take(bytes@.len() as int) =~= bytes@);
    out
}

/// Decimal numerals are unambiguous, padded or not.
pub proof fn law_numerals_are_unambiguous(a: nat, b: nat)
    ensures
        decimal(a) == decimal(b) ==> a == b,
        padded_decimal(a) == padded_decimal(b) ==> a == b,
    decreases a + b,
{
    lemma_numerals(a, b);
    lemma_numeral_head(a);
    lemma_numeral_head(b);
    if padded_decimal(a) == padded_decimal(b) {
        if a < 10 && b < 10 {
            assert(seq!['0', digit(a)][1] == seq!['0', digit(b)][1]);
        } else if a < 10 {
            assert(padded_decimal(a)[0] == '0');
        } else if b < 10 {
            assert(padded_decimal(b)[0] == '0');
        }
    }
}

/// Decimal numerals are unambiguous.
proof fn lemma_numerals(a: nat, b: nat)
    ensures
        decimal(a).len() > 0,
        decimal(a) == decimal(b) ==> a == b,
    decreases a,
{
    if a >= 10 {
        lemma_numerals(a / 10, b / 10);
    }
    if b >= 10 {
        lemma_numeral_head(b / 10);
    }
    if decimal(a) == decimal(b) {
        assert(decimal(a).last() == decimal(b).last());
        if a >= 10 && b >= 10 {
            assert(decimal(a).drop_last() =~= decimal(a / 10));
            assert(decimal(b).drop_last() =~= decimal(b / 10));
        } else if a >= 10 {
            assert(decimal(b).len() == 1);
        } else if b >= 10 {
            assert(decimal(a).len() == 1);
        }
    }
}

/// A numeral is not empty, and one of a positive number does not begin with a
/// zero.
proof fn lemma_numeral_head(n: nat)
    ensures
        decimal(n).len() > 0,
        n > 0 ==> decimal(n)[0] != '0',
    decreases n,
{
    if n >= 10 {
        lemma_numeral_head(n / 10);
    }
}

/// Hexadecimal digits are unambiguous.
proof fn lemma_hex_digit(d: nat, e: nat)
    requires
        d < 16,
        e < 16,
        hex_digit(d) == hex_digit(e),
    ensures
        d == e,
{
}

/// Hexadecimal texts are unambiguous.
pub proof fn law_hex_is_unambiguous(a: Seq<u8>, b: Seq<u8>)
    requires
        hex(a) == hex(b),
    ensures
        a == b,
{
    assert(hex(a).len() == 2 * a.len() && hex(b).len() == 2 * b.len());
    assert forall|i: int| 0 <= i < a.len() implies #[trigger] a[i] == b[i] by {
        let (even, odd) = (2 * i, 2 * i + 1);
        assert(even / 2 == i && even % 2 == 0 && odd / 2 == i && odd % 2 == 1);
        assert(hex(a)[even] == hex_digit(a[i] as nat / 16));
        assert(hex(b)[even] == hex_digit(b[i] as nat / 16));
        assert(hex(a)[odd] == hex_digit(a[i] as nat % 16));
        assert(hex(b)[odd] == hex_digit(b[i] as nat % 16));
        lemma_hex_digit(a[i] as nat / 16, b[i] as nat / 16);
        lemma_hex_digit(a[i] as nat % 16, b[i] as nat % 16);
    }
    assert(a =~= b);
}

/// What a character stands for as a decimal digit, or -1.
pub open spec fn digit_worth(c: char) -> int {
    if '0' <= c <= '9' {
        c as int - '0' as int
    } else {
        -1
    }
}

/// All characters are decimal digits.
pub open spec fn all_digits(s: Seq<char>) -> bool {
    forall|i: int| 0 <= i < s.len() ==> digit_worth(#[trigger] s[i]) >= 0
}

/// The number that decimal digits stand for, the last one being that of the ones.
pub open spec fn read_decimal(s: Seq<char>) -> int
    decreases s.len(),
{
    if s.len() == 0 {
        0
    } else {
        10 * read_decimal(s.drop_last()) + digit_worth(s.last())
    }
}

/// A numeral stands for its number: it consists of digits, which are read back as
/// the number, and it begins with a zero only where it is that of zero. With
/// padding it has two digits or more, and no more than that for the sake of
/// padding. A sign is written before the numeral of a negative number, and of no
/// other.
pub proof fn law_numerals_are_read_back(n: nat)
    ensures
        all_digits(decimal(n)),
        decimal(n).len() >= 1,
        read_decimal(decimal(n)) == n,
        decimal(n)[0] == '0' ==> n == 0 && decimal(n).len() == 1,
        all_digits(padded_decimal(n)),
        read_decimal(padded_decimal(n)) == n,
        n < 100 ==> padded_decimal(n).len() == 2,
        n >= 100 ==> padded_decimal(n)[0] != '0',
        signed_decimal(n as int) == decimal(n),
        n > 0 ==> signed_decimal(-n)[0] == '-' && signed_decimal(-n).skip(1) == decimal(n),
    decreases n,
{
    lemma_numeral_head(n);
    reveal_with_fuel(read_decimal, 3);
    reveal_with_fuel(decimal, 3);
    if n >= 10 {
        law_numerals_are_read_back(n / 10);
        assert(decimal(n).drop_last() =~= decimal(n / 10));
        assert forall|i: int| 0 <= i < decimal(n).len() implies digit_worth(
            #[trigger] decimal(n)[i],
        ) >= 0 by {
            if i < decimal(n / 10).len() {
                assert(decimal(n)[i] == decimal(n / 10)[i]);
            }
        }
    } else {
        assert(decimal(n).drop_last() =~= Seq::empty());
        assert(padded_decimal(n).drop_last() =~= seq!['0']);
        assert(seq!['0'].drop_last() =~= Seq::empty());
    }
    if n > 0 {
        assert(signed_decimal(-n).skip(1) =~= decimal(n));
    }
}

/// What a character stands for as a hexadecimal digit, or -1.
pub open spec fn hex_worth(c: char) -> int {
    if '0' <= c <= '9' {
        c as int - '0' as int
    } else if 'a' <= c <= 'f' {
        c as int - 'a' as int + 10
    } else {
        -1
    }
}

/// A hexadecimal text stands for its bytes: it has two digits for each, the higher
/// one first, in lower case.
pub proof fn law_hex_is_read_back(bytes: Seq<u8>, i: int)
    requires
        0 <= i < bytes.len(),
    ensures
        hex(bytes).len() == 2 * bytes.len(),
        0 <= hex_worth(hex(bytes)[2 * i]) < 16,
        0 <= hex_worth(hex(bytes)[2 * i + 1]) < 16,
        16 * hex_worth(hex(bytes)[2 * i]) + hex_worth(hex(bytes)[2 * i + 1]) == bytes[i],
{
    let (even, odd) = (2 * i, 2 * i + 1);
    assert(even / 2 == i && even % 2 == 0 && odd / 2 == i && odd % 2 == 1);
    assert(hex(bytes)[even] == hex_digit(bytes[i] as nat / 16));
    assert(hex(bytes)[odd] == hex_digit(bytes[i] as nat % 16));
}

} // verus!
