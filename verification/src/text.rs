//! Number and byte formatting, with what each format means.

use vstd::prelude::*;
use vstd::string::*;

verus! {

/// The lowercase hexadecimal digit for `d`.
pub open spec fn hex_digit(d: int) -> char {
    if d < 10 {
        (48 + d) as char
    } else {
        (87 + d) as char
    }
}

/// Two lowercase hexadecimal digits for each byte.
pub open spec fn hex_text(data: Seq<u8>) -> Seq<char> {
    Seq::new(
        2 * data.len(),
        |i: int|
            if i % 2 == 0 {
                hex_digit(data[i / 2] as int / 16)
            } else {
                hex_digit(data[i / 2] as int % 16)
            },
    )
}

/// The hexadecimal digits of `n`, without leading zeros.
pub open spec fn hex_number(n: nat) -> Seq<char>
    decreases n,
{
    if n < 16 {
        seq![hex_digit(n as int)]
    } else {
        hex_number(n / 16).push(hex_digit((n % 16) as int))
    }
}

/// The decimal digits of `n`, without leading zeros.
pub open spec fn decimal_number(n: nat) -> Seq<char>
    decreases n,
{
    if n < 10 {
        seq![hex_digit(n as int)]
    } else {
        decimal_number(n / 10).push(hex_digit((n % 10) as int))
    }
}

/// `text` with zeros in front of it, up to `width` characters.
pub open spec fn zero_padded(text: Seq<char>, width: nat) -> Seq<char> {
    if text.len() >= width {
        text
    } else {
        Seq::new((width - text.len()) as nat, |i: int| '0') + text
    }
}

/// The text of `digits` with "0x" in front.
pub open spec fn prefixed(digits: Seq<char>) -> Seq<char> {
    seq!['0', 'x'] + digits
}

/// `c`, with the letters `A` to `F` in lower case.
pub open spec fn lower_hex_char(c: char) -> char {
    if 'A' <= c && c <= 'F' {
        (c as u32 + 32) as char
    } else {
        c
    }
}

/// `text`, with the letters `A` to `F` in lower case.
pub open spec fn lower_hex(text: Seq<char>) -> Seq<char> {
    text.map_values(|c: char| lower_hex_char(c))
}

/// `text` without the `c`s at its end.
pub open spec fn trim_end(text: Seq<char>, c: char) -> Seq<char>
    decreases text.len(),
{
    if text.len() > 0 && text.last() == c {
        trim_end(text.drop_last(), c)
    } else {
        text
    }
}

/// A hexadecimal digit as a string.
fn digit_text(d: u64) -> (res: String)
    requires
        d < 16,
    ensures
        res@ == seq![hex_digit(d as int)],
{
    proof {
        reveal_strlit("0");
        reveal_strlit("1");
        reveal_strlit("2");
        reveal_strlit("3");
        reveal_strlit("4");
        reveal_strlit("5");
        reveal_strlit("6");
        reveal_strlit("7");
        reveal_strlit("8");
        reveal_strlit("9");
        reveal_strlit("a");
        reveal_strlit("b");
        reveal_strlit("c");
        reveal_strlit("d");
        reveal_strlit("e");
        reveal_strlit("f");
    }
    let text: &str = match d {
        0 => "0",
        1 => "1",
        2 => "2",
        3 => "3",
        4 => "4",
        5 => "5",
        6 => "6",
        7 => "7",
        8 => "8",
        9 => "9",
        10 => "a",
        11 => "b",
        12 => "c",
        13 => "d",
        14 => "e",
        _ => "f",
    };
    let res = text.to_owned();
    assert(res@ =~= seq![hex_digit(d as int)]);
    res
}

/// `n` in hexadecimal.
pub fn u64_hex(n: u64) -> (res: String)
    ensures
        res@ == hex_number(n as nat),
    decreases n,
{
    if n < 16 {
        digit_text(n)
    } else {
        let res = u64_hex(n / 16).concat(digit_text(n % 16).as_str());
        assert(res@ =~= hex_number(n as nat));
        res
    }
}

/// `n` in decimal.
pub fn u64_decimal(n: u64) -> (res: String)
    ensures
        res@ == decimal_number(n as nat),
    decreases n,
{
    if n < 10 {
        digit_text(n)
    } else {
        let res = u64_decimal(n / 10).concat(digit_text(n % 10).as_str());
        assert(res@ =~= decimal_number(n as nat));
        res
    }
}

/// `text` without the `c`s at its end.
pub fn trim_end_char(text: &str, c: char) -> (res: &str)
    ensures
        res@ == trim_end(text@, c),
{
    let mut n: usize = text.unicode_len();
    assert(text@.take(n as int) =~= text@);
    while n > 0 && text.get_char(n - 1) == c
        invariant
            n <= text@.len(),
            trim_end(text@.take(n as int), c) == trim_end(text@, c),
        decreases n,
    {
        assert(text@.take(n as int).drop_last() =~= text@.take(n - 1));
        n -= 1;
    }
    let res = text.substring_char(0, n);
    assert(res@ =~= text@.take(n as int));
    res
}

/// Trimming keeps a prefix that does not end in `c`, and drops only `c`s.
pub proof fn lemma_trim_end(text: Seq<char>, c: char)
    ensures
        trim_end(text, c).len() <= text.len(),
        trim_end(text, c) == text.take(trim_end(text, c).len() as int),
        forall|i: int| trim_end(text, c).len() <= i < text.len() ==> text[i] == c,
        trim_end(text, c).len() > 0 ==> trim_end(text, c).last() != c,
    decreases text.len(),
{
    if text.len() > 0 && text.last() == c {
        lemma_trim_end(text.drop_last(), c);
        assert(trim_end(text, c) =~= text.take(trim_end(text, c).len() as int));
        assert forall|i: int| trim_end(text, c).len() <= i < text.len() implies text[i] == c by {
            if i < text.len() - 1 {
                assert(text[i] == text.drop_last()[i]);
            }
        }
    } else {
        assert(text.take(text.len() as int) =~= text);
    }
}

/// Different byte strings of one length have different hexadecimal texts.
pub proof fn lemma_hex_text_injective(a: Seq<u8>, b: Seq<u8>)
    requires
        hex_text(a) == hex_text(b),
    ensures
        a == b,
{
    assert(hex_text(a).len() == 2 * a.len());
    assert(hex_text(b).len() == 2 * b.len());
    assert forall|i: int| 0 <= i < a.len() implies a[i] == b[i] by {
        assert(hex_text(a)[2 * i] == hex_digit(a[i] as int / 16));
        assert(hex_text(b)[2 * i] == hex_digit(b[i] as int / 16));
        assert(hex_text(a)[2 * i + 1] == hex_digit(a[i] as int % 16));
        assert(hex_text(b)[2 * i + 1] == hex_digit(b[i] as int % 16));
    }
    assert(a =~= b);
}

/// The number that hexadecimal digits stand for.
spec fn digits_value(digits: Seq<char>) -> nat
    decreases digits.len(),
{
    if digits.len() == 0 {
        0
    } else {
        let c = digits.last();
        16 * digits_value(digits.drop_last()) + (if c as int >= 87 {
            (c as int - 87) as nat
        } else {
            (c as int - 48) as nat
        })
    }
}

/// The digits of a number stand for it, with or without zeros in front.
proof fn lemma_digits_value(n: nat, width: nat)
    ensures
        digits_value(hex_number(n)) == n,
        digits_value(zero_padded(hex_number(n), width)) == n,
    decreases n,
{
    let digits = hex_number(n);
    if n >= 16 {
        lemma_digits_value(n / 16, 0);
        assert(digits.drop_last() =~= hex_number(n / 16));
        assert(digits.last() == hex_digit((n % 16) as int));
    } else {
        assert(digits.drop_last() =~= Seq::<char>::empty());
        assert(digits_value(digits.drop_last()) == 0);
        assert(digits.last() == hex_digit(n as int));
    }
    assert(digits_value(digits) == n);
    if digits.len() < width {
        lemma_leading_zeros((width - digits.len()) as nat, digits);
    }
}

/// Zeros in front do not change a number.
proof fn lemma_leading_zeros(zeros: nat, digits: Seq<char>)
    ensures
        digits_value(Seq::new(zeros, |i: int| '0') + digits) == digits_value(digits),
    decreases zeros + digits.len(),
{
    let front = Seq::new(zeros, |i: int| '0');
    let all = front + digits;
    if digits.len() > 0 {
        lemma_leading_zeros(zeros, digits.drop_last());
        assert(all.drop_last() =~= front + digits.drop_last());
    } else if zeros > 0 {
        let fewer = (zeros - 1) as nat;
        lemma_leading_zeros(fewer, digits);
        assert(all.drop_last() =~= Seq::new(fewer, |i: int| '0') + digits);
        assert(all.last() == '0');
    } else {
        assert(all =~= digits);
    }
}

/// Different numbers have different texts, with or without zeros in front.
pub proof fn lemma_hex_number_injective(a: nat, b: nat, width: nat)
    requires
        zero_padded(hex_number(a), width) == zero_padded(hex_number(b), width),
    ensures
        a == b,
{
    lemma_digits_value(a, width);
    lemma_digits_value(b, width);
}

/// The digits behind "0x" can be read off.
pub proof fn lemma_prefixed_injective(a: Seq<char>, b: Seq<char>)
    requires
        prefixed(a) == prefixed(b),
    ensures
        a == b,
{
    assert(prefixed(a).skip(2) =~= a);
    assert(prefixed(b).skip(2) =~= b);
}

/// The value of a lowercase hexadecimal digit, or of a decimal one.
pub open spec fn digit_value(c: char) -> Option<nat> {
    match c {
        '0' => Some(0),
        '1' => Some(1),
        '2' => Some(2),
        '3' => Some(3),
        '4' => Some(4),
        '5' => Some(5),
        '6' => Some(6),
        '7' => Some(7),
        '8' => Some(8),
        '9' => Some(9),
        'a' => Some(10),
        'b' => Some(11),
        'c' => Some(12),
        'd' => Some(13),
        'e' => Some(14),
        'f' => Some(15),
        _ => None,
    }
}

/// The text consists of digits of `base` and stands for `n`.
pub open spec fn reads_in(text: Seq<char>, base: nat, n: nat) -> bool
    decreases text.len(),
{
    if text.len() == 0 {
        n == 0
    } else {
        digit_value(text.last()) matches Some(d) && d < base && n % base == d && reads_in(
            text.drop_last(),
            base,
            n / base,
        )
    }
}

/// The text consists of lowercase hexadecimal digits and stands for `n`.
pub open spec fn reads_as(text: Seq<char>, n: nat) -> bool {
    reads_in(text, 16, n)
}

/// The digits zero to fifteen are written `0` to `9` and `a` to `f`.
proof fn lemma_hex_digit(d: nat)
    requires
        d < 16,
    ensures
        digit_value(hex_digit(d as int)) == Some(d),
{
}

/// The hexadecimal text of a number consists of lowercase digits, stands for
/// the number and has no leading zero.
pub proof fn law_hex_number_reads_back(n: nat)
    ensures
        reads_as(hex_number(n), n),
        hex_number(n).len() > 0,
        hex_number(n).len() > 1 ==> hex_number(n)[0] != '0',
        hex_number(n)[0] == '0' ==> n == 0,
    decreases n,
{
    let text = hex_number(n);
    if n < 16 {
        lemma_hex_digit(n);
        assert(text.drop_last() =~= Seq::<char>::empty());
        assert(n / 16 == 0);
        assert(reads_in(text.drop_last(), 16, 0));
        assert(text.last() == hex_digit(n as int));
    } else {
        law_hex_number_reads_back(n / 16);
        lemma_hex_digit(n % 16);
        assert(text.drop_last() =~= hex_number(n / 16));
        assert(text[0] == hex_number(n / 16)[0]);
    }
}

/// The decimal text of a number consists of digits, stands for the number and
/// has no leading zero.
pub proof fn law_decimal_number_reads_back(n: nat)
    ensures
        reads_in(decimal_number(n), 10, n),
        decimal_number(n).len() > 0,
        decimal_number(n).len() > 1 ==> decimal_number(n)[0] != '0',
        decimal_number(n)[0] == '0' ==> n == 0,
    decreases n,
{
    let text = decimal_number(n);
    if n < 10 {
        lemma_hex_digit(n);
        assert(text.drop_last() =~= Seq::<char>::empty());
        assert(n / 10 == 0);
        assert(reads_in(text.drop_last(), 10, 0));
        assert(text.last() == hex_digit(n as int));
    } else {
        law_decimal_number_reads_back(n / 10);
        lemma_hex_digit(n % 10);
        assert(text.drop_last() =~= decimal_number(n / 10));
        assert(text[0] == decimal_number(n / 10)[0]);
    }
}

/// Padding puts zeros in front of a text up to the width, and does not change
/// the number that it stands for.
pub proof fn law_zeros_in_front_change_nothing(text: Seq<char>, width: nat, n: nat)
    ensures
        zero_padded(text, width).len() == (if text.len() < width {
            width
        } else {
            text.len()
        }),
        text.len() >= width ==> zero_padded(text, width) == text,
        reads_as(text, n) ==> reads_as(zero_padded(text, width), n),
{
    if text.len() < width && reads_as(text, n) {
        lemma_zeros_read((width - text.len()) as nat, text, n);
    }
}

proof fn lemma_zeros_read(zeros: nat, text: Seq<char>, n: nat)
    requires
        reads_as(text, n),
    ensures
        reads_as(Seq::new(zeros, |i: int| '0') + text, n),
    decreases zeros + text.len(),
{
    let front = Seq::new(zeros, |i: int| '0');
    let all = front + text;
    if text.len() > 0 {
        lemma_zeros_read(zeros, text.drop_last(), n / 16);
        assert(all.drop_last() =~= front + text.drop_last());
        assert(all.last() == text.last());
    } else if zeros > 0 {
        let fewer = (zeros - 1) as nat;
        lemma_zeros_read(fewer, text, n);
        assert(all.drop_last() =~= Seq::new(fewer, |i: int| '0') + text);
        assert(all.last() == '0');
        assert(n == 0);
        assert(n / 16 == 0);
    } else {
        assert(all =~= text);
    }
}

/// The hexadecimal text of bytes has two digits for each byte, the first for
/// its high half and the second for its low half.
pub proof fn law_hex_text_spells_the_bytes(data: Seq<u8>, i: int)
    requires
        0 <= i < data.len(),
    ensures
        hex_text(data).len() == 2 * data.len(),
        digit_value(hex_text(data)[2 * i]) matches Some(high) && digit_value(
            hex_text(data)[2 * i + 1],
        ) matches Some(low) && high < 16 && low < 16 && 16 * high + low == data[i],
{
    let b = data[i] as nat;
    lemma_hex_digit(b / 16);
    lemma_hex_digit(b % 16);
    assert(hex_text(data)[2 * i] == hex_digit(data[i] as int / 16));
    assert(hex_text(data)[2 * i + 1] == hex_digit(data[i] as int % 16));
}

/// A prefixed text is "0x" and then the digits.
pub proof fn law_prefix_comes_first(digits: Seq<char>)
    ensures
        prefixed(digits) == "0x"@ + digits,
{
    reveal_strlit("0x");
    assert(prefixed(digits) =~= "0x"@ + digits);
}

} // verus!
