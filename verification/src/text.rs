//! Numbers as text: decimal and hexadecimal rendering, right alignment, and the value of a
//! string of digits.

use vstd::prelude::*;
use vstd::string::*;

verus! {

/// The character of a digit below sixteen, with lower-case letters above nine.
pub open spec fn digit_char(d: nat) -> char {
    if d < 10 {
        (48 + d) as char
    } else {
        (87 + d) as char
    }
}

/// The shortest decimal numeral of `n`.
pub open spec fn decimal(n: nat) -> Seq<char>
    decreases n,
{
    if n < 10 {
        seq![digit_char(n)]
    } else {
        decimal(n / 10).push(digit_char(n % 10))
    }
}

/// The two lower-case hexadecimal digits of a byte.
pub open spec fn hex_byte(b: u8) -> Seq<char> {
    seq![digit_char((b / 16) as nat), digit_char((b % 16) as nat)]
}

/// The lower-case hexadecimal digits of a sequence of bytes, two for each byte, in order.
pub open spec fn hex(bytes: Seq<u8>) -> Seq<char>
    decreases bytes.len(),
{
    if bytes.len() == 0 {
        seq![]
    } else {
        hex(bytes.drop_last()) + hex_byte(bytes.last())
    }
}

/// `text` with spaces before it until it is `width` characters long; `text` itself where it is
/// that long already.
pub open spec fn right_aligned(text: Seq<char>, width: nat) -> Seq<char> {
    if text.len() >= width {
        text
    } else {
        Seq::new((width - text.len()) as nat, |i: int| ' ') + text
    }
}

pub open spec fn is_digit(c: char) -> bool {
    '0' <= c <= '9'
}

/// The number that a string of decimal digits stands for.
pub open spec fn digits_value(digits: Seq<char>) -> nat
    decreases digits.len(),
{
    if digits.len() == 0 {
        0
    } else {
        digits_value(digits.drop_last()) * 10 + (digits.last() as nat - 48) as nat
    }
}

/// A decimal numeral consists of digits, is not empty, and its value is the number that it was
/// made from. So no two numbers have the same numeral.
pub proof fn lemma_decimal_value(n: nat)
    ensures
        digits_value(decimal(n)) == n,
        decimal(n).len() > 0,
        forall|i: int| 0 <= i < decimal(n).len() ==> is_digit(#[trigger] decimal(n)[i]),
    decreases n,
{
    if n < 10 {
        let one = seq![digit_char(n)];
        assert(one.drop_last() =~= Seq::<char>::empty());
        assert(digits_value(one.drop_last()) == 0);
        assert(digits_value(one) == n);
    } else {
        lemma_decimal_value(n / 10);
        let front = decimal(n / 10);
        let whole = front.push(digit_char(n % 10));
        assert(whole.drop_last() =~= front);
        assert(digits_value(whole) == n);
    }
}

/// Two sequences of bytes with the same hexadecimal digits are the same.
pub proof fn lemma_hex_injective(a: Seq<u8>, b: Seq<u8>)
    ensures
        hex(a) == hex(b) ==> a == b,
    decreases a.len(),
{
    lemma_hex_len(a);
    lemma_hex_len(b);
    if hex(a) == hex(b) {
        if a.len() == 0 {
            assert(a =~= b);
        } else {
            lemma_hex_injective(a.drop_last(), b.drop_last());
            let n = hex(a).len() as int;
            let x = hex(a.drop_last());
            let y = hex(b.drop_last());
            lemma_hex_len(a.drop_last());
            lemma_hex_len(b.drop_last());
            assert(x.len() == y.len());
            assert(hex(a).subrange(0, n - 2) =~= x);
            assert(hex(b).subrange(0, n - 2) =~= y);
            assert(hex(a)[n - 2] == digit_char((a.last() / 16) as nat));
            assert(hex(b)[n - 2] == digit_char((b.last() / 16) as nat));
            assert(hex(a)[n - 1] == digit_char((a.last() % 16) as nat));
            assert(hex(b)[n - 1] == digit_char((b.last() % 16) as nat));
            lemma_digit_char_injective((a.last() / 16) as nat, (b.last() / 16) as nat);
            lemma_digit_char_injective((a.last() % 16) as nat, (b.last() % 16) as nat);
            assert(a.last() == b.last());
            assert(a =~= a.drop_last().push(a.last()));
            assert(b =~= b.drop_last().push(b.last()));
        }
    }
}

/// Every byte takes two hexadecimal digits.
pub proof fn lemma_hex_len(bytes: Seq<u8>)
    ensures
        hex(bytes).len() == 2 * bytes.len(),
    decreases bytes.len(),
{
    if bytes.len() > 0 {
        lemma_hex_len(bytes.drop_last());
    }
}

proof fn lemma_digit_char_injective(d: nat, e: nat)
    requires
        d < 16,
        e < 16,
    ensures
        digit_char(d) == digit_char(e) ==> d == e,
{
}

/// The character of a digit below sixteen, as a string of one character.
fn digit_str(d: u8) -> (digit: &'static str)
    requires
        d < 16,
    ensures
        digit@ == seq![digit_char(d as nat)],
{
    proof {
        reveal_strlit("0");
        reveal_strlit("1");
        reveal_strlit("2");
        reveal_strlit("3");
        reveal_strlit("4");
        reveal_strlit("5");
        reveal_strlit("6");
        reveal_strlit("7");
        reveal_strlit("8");
        reveal_strlit("9");
        reveal_strlit("a");
        reveal_strlit("b");
        reveal_strlit("c");
        reveal_strlit("d");
        reveal_strlit("e");
        reveal_strlit("f");
    }
    let digit = match d {
        0 => "0",
        1 => "1",
        2 => "2",
        3 => "3",
        4 => "4",
        5 => "5",
        6 => "6",
        7 => "7",
        8 => "8",
        9 => "9",
        10 => "a",
        11 => "b",
        12 => "c",
        13 => "d",
        14 => "e",
        _ => "f",
    };
    assert(digit@ =~= seq![digit_char(d as nat)]);
    digit
}

/// Writes a number in decimal.
pub fn decimal_text(n: u64) -> (text: String)
    ensures
        text@ == decimal(n as nat),
    decreases n,
{
    if n < 10 {
        digit_str(n as u8).to_owned()
    } else {
        let mut text = decimal_text(n / 10);
        let ghost front = text@;
        text.append(digit_str((n % 10) as u8));
        assert(text@ =~= front.push(digit_char((n % 10) as nat)));
        text
    }
}

/// Writes bytes in lower-case hexadecimal.
pub fn hex_text(bytes: &[u8]) -> (text: String)
    ensures
        text@ == hex(bytes@),
{
    let mut text = String::new();
    let mut i: usize = 0;
    assert(bytes@.take(0) =~= seq![]);
    while i < bytes.len()
        invariant
            i <= bytes@.len(),
            text@ == hex(bytes@.take(i as int)),
        decreases bytes@.len() - i,
    {
        let b: u8 = bytes[i];
        let ghost front = text@;
        text.append(digit_str(b / 16));
        text.append(digit_str(b % 16));
        assert(text@ =~= front + hex_byte(b));
        assert(bytes@.take(i + 1).drop_last() =~= bytes@.take(i as int));
        i = i + 1;
    }
    assert(bytes@.take(i as int) =~= bytes@);
    text
}

/// Puts spaces before a text until it has the width that is asked for.
pub fn right_align(text: &str, width: usize) -> (aligned: String)
    ensures
        aligned@ == right_aligned(text@, width as nat),
{
    let mut aligned = String::new();
    let length: usize = text.unicode_len();
    let mut filled: usize = length;
    while filled < width
        invariant
            length <= filled,
            length <= width ==> filled <= width,
            length >= width ==> filled == length,
            aligned@ == Seq::new((filled - length) as nat, |i: int| ' '),
        decreases width - filled,
    {
        proof {
            reveal_strlit(" ");
        }
        aligned.append(" ");
        filled = filled + 1;
        assert(aligned@ =~= Seq::new((filled - length) as nat, |i: int| ' '));
    }
    aligned.append(text);
    assert(aligned@ =~= right_aligned(text@, width as nat));
    aligned
}

/// The characters of a text, one by one.
pub fn characters(text: &str) -> (chars: Vec<char>)
    ensures
        chars@ == text@,
{
    let mut chars: Vec<char> = Vec::new();
    for c in it: text.chars()
        invariant
            it.seq() == text@,
            chars@ == it.seq().take(it.index()),
    {
        chars.push(c);
        assert(it.seq().take(it.index() + 1) =~= it.seq().take(it.index()).push(c));
    }
    assert(chars@ =~= text@);
    chars
}

/// The texts of a vector of strings.
pub open spec fn texts(strings: Seq<String>) -> Seq<Seq<char>> {
    strings.map_values(|s: String| s@)
}

/// A copy of strings.
pub fn copy_strings(strings: &Vec<String>) -> (copy: Vec<String>)
    ensures
        texts(copy@) == texts(strings@),
        copy@.len() == strings@.len(),
        forall|n: int| 0 <= n < copy@.len() ==> (#[trigger] copy@[n])@ == strings@[n]@,
{
    let mut copy: Vec<String> = Vec::new();
    let mut i: usize = 0;
    while i < strings.len()
        invariant
            i <= strings@.len(),
            copy@.len() == i,
            forall|n: int| 0 <= n < i ==> (#[trigger] copy@[n])@ == strings@[n]@,
        decreases strings@.len() - i,
    {
        copy.push(strings[i].clone());
        i = i + 1;
    }
    assert(texts(copy@) =~= texts(strings@));
    copy
}

/// A digit more makes a number ten times as large, and adds the digit; no digits stand for zero.
pub proof fn lemma_digits_count_in_tens(digits: Seq<char>, d: nat)
    requires
        d < 10,
    ensures
        digits_value(Seq::<char>::empty()) == 0,
        digits_value(digits.push((48 + d) as char)) == 10 * digits_value(digits) + d,
{
    assert(digits.push((48 + d) as char).drop_last() =~= digits);
}

/// A decimal numeral is the shortest one: it starts with a zero only where it is that of zero. Its
/// last digit is the remainder by ten, and what stands before it is the numeral of the rest.
pub proof fn lemma_decimal_is_shortest(n: nat)
    ensures
        n > 0 ==> decimal(n)[0] != '0',
        n < 10 ==> decimal(n) == seq![(48 + n) as char],
        n >= 10 ==> decimal(n).drop_last() == decimal(n / 10) && decimal(n).last() == (48 + n
            % 10) as char,
    decreases n,
{
    if n >= 10 {
        lemma_decimal_is_shortest(n / 10);
        lemma_decimal_value(n / 10);
        assert(decimal(n).drop_last() =~= decimal(n / 10));
        assert(decimal(n)[0] == decimal(n / 10)[0]);
    }
}

/// The two digits of every byte are those of its upper and its lower half: `0` to `9`, then `a` to
/// `f`.
pub proof fn lemma_hex_digits(bytes: Seq<u8>, i: int)
    requires
        0 <= i < bytes.len(),
    ensures
        hex(bytes).len() == 2 * bytes.len(),
        ({
            let upper = bytes[i] as int / 16;
            let lower = bytes[i] as int % 16;
            &&& hex(bytes)[2 * i] as int == if upper < 10 {
                48 + upper
            } else {
                97 + upper - 10
            }
            &&& hex(bytes)[2 * i + 1] as int == if lower < 10 {
                48 + lower
            } else {
                97 + lower - 10
            }
        }),
    decreases bytes.len(),
{
    lemma_hex_len(bytes);
    let front = bytes.drop_last();
    lemma_hex_len(front);
    if i < front.len() {
        lemma_hex_digits(front, i);
        assert(hex(bytes)[2 * i] == hex(front)[2 * i]);
        assert(hex(bytes)[2 * i + 1] == hex(front)[2 * i + 1]);
    }
}

/// An aligned text is as wide as asked for or as the text, whichever is more; it ends with the text,
/// and nothing but spaces stand before it.
pub proof fn lemma_right_aligned(text: Seq<char>, width: nat)
    ensures
        right_aligned(text, width).len() == if text.len() >= width {
            text.len()
        } else {
            width
        },
        right_aligned(text, width).skip(right_aligned(text, width).len() - text.len()) == text,
        forall|i: int|
            0 <= i < right_aligned(text, width).len() - text.len() ==> #[trigger] right_aligned(
                text,
                width,
            )[i] == ' ',
{
    let aligned = right_aligned(text, width);
    assert(aligned.skip(aligned.len() - text.len()) =~= text);
}

/// There is one text for every string, and it is that of the string.
pub proof fn lemma_texts_are_those_of_the_strings(strings: Seq<String>)
    ensures
        texts(strings).len() == strings.len(),
        forall|i: int| 0 <= i < strings.len() ==> #[trigger] texts(strings)[i] == strings[i]@,
{
}

} // verus!
