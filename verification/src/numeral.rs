//! Decimal numerals: how atom text reads as a 32-bit unsigned integer, and
//! how such an integer is written back as digits.

use vstd::prelude::*;
use vstd::string::StringExecFns;

verus! {

/// The ten decimal digit characters.
pub open spec fn is_digit(c: char) -> bool {
    c == '0' || c == '1' || c == '2' || c == '3' || c == '4' || c == '5' || c == '6' || c == '7'
        || c == '8' || c == '9'
}

/// The value of one digit character; zero on anything else.
pub open spec fn digit_val(c: char) -> nat {
    if c == '1' {
        1
    } else if c == '2' {
        2
    } else if c == '3' {
        3
    } else if c == '4' {
        4
    } else if c == '5' {
        5
    } else if c == '6' {
        6
    } else if c == '7' {
        7
    } else if c == '8' {
        8
    } else if c == '9' {
        9
    } else {
        0
    }
}

pub open spec fn all_digits(s: Seq<char>) -> bool {
    forall|i: int| 0 <= i < s.len() ==> is_digit(#[trigger] s[i])
}

/// The value of a character sequence read as a base-ten numeral.
pub open spec fn digits_val(s: Seq<char>) -> nat
    decreases s.len(),
{
    if s.len() == 0 {
        0
    } else {
        digits_val(s.drop_last()) * 10 + digit_val(s.last())
    }
}

/// The characters that numeral reading inspects: everything after an
/// optional leading plus sign.
pub open spec fn numeral_body(s: Seq<char>) -> Seq<char> {
    if s.len() > 0 && s[0] == '+' {
        s.drop_first()
    } else {
        s
    }
}

/// Whether `s` reads as a 32-bit unsigned integer: an optional plus sign,
/// then one or more decimal digits, with a value that fits in 32 bits.
pub open spec fn reads_as_u32(s: Seq<char>) -> bool {
    let b = numeral_body(s);
    b.len() > 0 && all_digits(b) && digits_val(b) <= u32::MAX
}

/// The integer that `s` reads as, meaningful when `reads_as_u32(s)` holds.
pub open spec fn u32_of_digits(s: Seq<char>) -> u32 {
    digits_val(numeral_body(s)) as u32
}

/// The digit value of one character, or `None` where it is not a digit.
pub fn digit_of(c: char) -> (r: Option<u32>)
    ensures
        r == (if is_digit(c) {
            Some(digit_val(c) as u32)
        } else {
            None::<u32>
        }),
{
    match c {
        '0' => Some(0),
        '1' => Some(1),
        '2' => Some(2),
        '3' => Some(3),
        '4' => Some(4),
        '5' => Some(5),
        '6' => Some(6),
        '7' => Some(7),
        '8' => Some(8),
        '9' => Some(9),
        _ => None,
    }
}

/// The character of one digit value; `'0'` on anything ten or above.
pub open spec fn digit_char(d: nat) -> char {
    if d == 1 {
        '1'
    } else if d == 2 {
        '2'
    } else if d == 3 {
        '3'
    } else if d == 4 {
        '4'
    } else if d == 5 {
        '5'
    } else if d == 6 {
        '6'
    } else if d == 7 {
        '7'
    } else if d == 8 {
        '8'
    } else if d == 9 {
        '9'
    } else {
        '0'
    }
}

/// The decimal text of `n`: most significant digit first, no sign, and no
/// leading zero.
pub open spec fn dec_digits(n: nat) -> Seq<char>
    decreases n,
{
    if n < 10 {
        seq![digit_char(n)]
    } else {
        dec_digits(n / 10).push(digit_char(n % 10))
    }
}

/// Decimal text is non-empty digits and reads back as the number it renders.
pub proof fn lemma_dec_digits(n: nat)
    ensures
        dec_digits(n).len() >= 1,
        all_digits(dec_digits(n)),
        digits_val(dec_digits(n)) == n,
    decreases n,
{
    if n < 10 {
        assert(dec_digits(n).drop_last() =~= Seq::<char>::empty());
        assert(dec_digits(n).last() == digit_char(n));
        assert(digit_val(digit_char(n)) == n);
        assert(digits_val(dec_digits(n)) == digits_val(Seq::<char>::empty()) * 10 + digit_val(
            digit_char(n),
        ));
    } else {
        lemma_dec_digits(n / 10);
        let prefix = dec_digits(n / 10);
        let c = digit_char(n % 10);
        assert(digit_val(c) == n % 10);
        assert(prefix.push(c).drop_last() =~= prefix);
        assert(digits_val(prefix.push(c)) == digits_val(prefix) * 10 + digit_val(c));
        assert(n / 10 * 10 + n % 10 == n) by {
            vstd::arithmetic::div_mod::lemma_fundamental_div_mod(n as int, 10);
        }
        assert(all_digits(prefix.push(c))) by {
            assert(forall|i: int|
                0 <= i < prefix.len() ==> #[trigger] prefix.push(c)[i] == prefix[i]);
        }
    }
}

/// Decimal text of a 32-bit number reads as that number again: the first
/// character is a digit, so no sign is stripped, and the value fits.
pub proof fn lemma_dec_digits_reads_back(n: u32)
    ensures
        reads_as_u32(dec_digits(n as nat)),
        u32_of_digits(dec_digits(n as nat)) == n,
{
    lemma_dec_digits(n as nat);
    let text = dec_digits(n as nat);
    assert(is_digit(text[0]));
    assert(text[0] != '+');
    assert(numeral_body(text) == text);
}

/// Append one digit character to the output.
fn push_digit_char(d: u32, out: &mut String)
    requires
        d < 10,
    ensures
        final(out)@ == old(out)@ + seq![digit_char(d as nat)],
{
    let piece: &str = match d {
        0 => "0",
        1 => "1",
        2 => "2",
        3 => "3",
        4 => "4",
        5 => "5",
        6 => "6",
        7 => "7",
        8 => "8",
        _ => "9",
    };
    proof {
        reveal_strlit("0");
        reveal_strlit("1");
        reveal_strlit("2");
        reveal_strlit("3");
        reveal_strlit("4");
        reveal_strlit("5");
        reveal_strlit("6");
        reveal_strlit("7");
        reveal_strlit("8");
        reveal_strlit("9");
        assert(piece@ =~= seq![digit_char(d as nat)]);
    }
    out.append(piece);
}

/// Append the decimal text of `n` to the output.
pub fn push_dec_digits(n: u32, out: &mut String)
    ensures
        final(out)@ == old(out)@ + dec_digits(n as nat),
    decreases n,
{
    if n >= 10 {
        push_dec_digits(n / 10, out);
    }
    push_digit_char(n % 10, out);
    proof {
        if n < 10 {
            assert(n % 10 == n);
        } else {
            assert(dec_digits(n as nat) == dec_digits(n as nat / 10).push(
                digit_char(n as nat % 10),
            ));
            assert(dec_digits(n as nat / 10).push(digit_char(n as nat % 10)) =~= dec_digits(
                n as nat / 10,
            ) + seq![digit_char(n as nat % 10)]);
        }
    }
}

/// Reading a longer numeral never yields a smaller value: the value of a
/// prefix is at most the value of the whole.
pub proof fn lemma_digits_val_prefix(s: Seq<char>, i: int)
    requires
        0 <= i <= s.len(),
    ensures
        digits_val(s.take(i)) <= digits_val(s),
    decreases s.len() - i,
{
    if i < s.len() {
        assert(s.take(i + 1).drop_last() =~= s.take(i));
        assert(s.take(i + 1).last() == s[i]);
        assert(digits_val(s.take(i + 1)) == digits_val(s.take(i)) * 10 + digit_val(s[i]));
        lemma_digits_val_prefix(s, i + 1);
    } else {
        assert(s.take(i) =~= s);
    }
}

} // verus!
