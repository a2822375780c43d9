//! The argument that gives a size in bytes, such as `10gb`, `4kib` or `1000`.

use crate::text::{characters, decimal, digits_value, is_digit};
use vstd::arithmetic::power::pow;
use vstd::prelude::*;

verus! {

/// Why a size was refused.
#[derive(Clone, Copy, Debug, PartialEq, Eq, Structural)]
pub enum SizeError {
    /// The text does not start with a number, or the number does not fit in sixty-four bits.
    InvalidNumber,
    /// What follows the number is no known unit.
    InvalidSuffix,
}

impl SizeError {
    pub open spec fn spec_message(self) -> Seq<char> {
        match self {
            SizeError::InvalidNumber => "Invalid number supplied for minimum size"@,
            SizeError::InvalidSuffix => "Invalid suffix"@,
        }
    }

    /// What the user is told.
    pub fn message(&self) -> (message: String)
        ensures
            message@ == self.spec_message(),
            *self is InvalidNumber ==> message@ == "Invalid number supplied for minimum size"@,
            *self is InvalidSuffix ==> message@ == "Invalid suffix"@,
    {
        match self {
            SizeError::InvalidNumber => "Invalid number supplied for minimum size".to_owned(),
            SizeError::InvalidSuffix => "Invalid suffix".to_owned(),
        }
    }
}

/// How many digits a text starts with.
pub open spec fn digit_count(item: Seq<char>) -> nat
    decreases item.len(),
{
    if item.len() == 0 || !is_digit(item[0]) {
        0
    } else {
        1 + digit_count(item.drop_first())
    }
}

/// How many bytes a unit stands for. Units of a thousand are written with one letter or with a
/// `b` behind it, units of 1024 with `ib`; the first letter may be of either case.
pub open spec fn multiplier(suffix: Seq<char>) -> Option<u64> {
    if suffix == "M"@ || suffix == "m"@ || suffix == "mb"@ || suffix == "Mb"@ {
        Some(1_000_000)
    } else if suffix == "Mib"@ || suffix == "mib"@ {
        Some(1_048_576)
    } else if suffix == "K"@ || suffix == "k"@ || suffix == "kb"@ || suffix == "Kb"@ {
        Some(1_000)
    } else if suffix == "Kib"@ || suffix == "kib"@ {
        Some(1_024)
    } else if suffix == "G"@ || suffix == "g"@ || suffix == "gb"@ || suffix == "Gb"@ {
        Some(1_000_000_000)
    } else if suffix == "Gib"@ || suffix == "gib"@ {
        Some(1_073_741_824)
    } else if suffix == "Tb"@ || suffix == "tb"@ || suffix == "t"@ || suffix == "T"@ {
        Some(1_000_000_000_000)
    } else if suffix == "tib"@ || suffix == "Tib"@ {
        Some(1_099_511_627_776)
    } else if suffix == ""@ {
        Some(1)
    } else {
        None
    }
}

/// The number and the unit of a size, or why it is refused. The number is looked at first.
pub open spec fn size_parts(item: Seq<char>) -> Result<(u64, u64), SizeError> {
    let count = digit_count(item) as int;
    let number = digits_value(item.take(count));
    if count == 0 || number > u64::MAX {
        Err(SizeError::InvalidNumber)
    } else {
        match multiplier(item.skip(count)) {
            Some(unit) => Ok((number as u64, unit)),
            None => Err(SizeError::InvalidSuffix),
        }
    }
}

proof fn lemma_digit_count(item: Seq<char>, count: int)
    requires
        0 <= count <= item.len(),
        forall|j: int| 0 <= j < count ==> is_digit(#[trigger] item[j]),
        count < item.len() ==> !is_digit(item[count]),
    ensures
        digit_count(item) == count,
    decreases count,
{
    if count > 0 {
        let rest = item.drop_first();
        assert forall|j: int| 0 <= j < count - 1 implies is_digit(#[trigger] rest[j]) by {
            assert(rest[j] == item[j + 1]);
        }
        lemma_digit_count(rest, count - 1);
    }
}

/// Every number, written in decimal with a unit behind it, is read as that number of that unit.
pub proof fn lemma_numeral_with_unit(n: u64, suffix: Seq<char>)
    requires
        multiplier(suffix) is Some,
    ensures
        size_parts(decimal(n as nat) + suffix) == Ok::<(u64, u64), SizeError>(
            (n, multiplier(suffix)->0),
        ),
{
    let digits = decimal(n as nat);
    let item = digits + suffix;
    crate::text::lemma_decimal_value(n as nat);
    lemma_unit_starts_without_digit(suffix);
    assert forall|j: int| 0 <= j < digits.len() implies is_digit(#[trigger] item[j]) by {
        assert(item[j] == digits[j]);
    }
    lemma_digit_count(item, digits.len() as int);
    assert(item.take(digits.len() as int) =~= digits);
    assert(item.skip(digits.len() as int) =~= suffix);
}

proof fn lemma_unit_starts_without_digit(suffix: Seq<char>)
    requires
        multiplier(suffix) is Some,
    ensures
        suffix.len() > 0 ==> !is_digit(suffix[0]),
{
    reveal_strlit("M");
    reveal_strlit("m");
    reveal_strlit("mb");
    reveal_strlit("Mb");
    reveal_strlit("Mib");
    reveal_strlit("mib");
    reveal_strlit("K");
    reveal_strlit("k");
    reveal_strlit("kb");
    reveal_strlit("Kb");
    reveal_strlit("Kib");
    reveal_strlit("kib");
    reveal_strlit("G");
    reveal_strlit("g");
    reveal_strlit("gb");
    reveal_strlit("Gb");
    reveal_strlit("Gib");
    reveal_strlit("gib");
    reveal_strlit("Tb");
    reveal_strlit("tb");
    reveal_strlit("t");
    reveal_strlit("T");
    reveal_strlit("tib");
    reveal_strlit("Tib");
    reveal_strlit("");
}

/// Whether the characters from `from` on spell `word`.
fn spells(chars: &Vec<char>, from: usize, word: &str) -> (same: bool)
    requires
        from <= chars@.len(),
    ensures
        same == (chars@.skip(from as int) == word@),
{
    let letters = characters(word);
    let total: usize = chars.len();
    if total - from != letters.len() {
        return false;
    }
    let mut i: usize = 0;
    while i < letters.len()
        invariant
            letters@ == word@,
            total == chars@.len(),
            from <= total,
            total - from == letters@.len(),
            i <= letters@.len(),
            forall|j: int| 0 <= j < i ==> chars@[from + j] == #[trigger] letters@[j],
        decreases letters@.len() - i,
    {
        if chars[from + i] != letters[i] {
            assert(chars@.skip(from as int)[i as int] != word@[i as int]);
            return false;
        }
        i = i + 1;
    }
    assert(chars@.skip(from as int) =~= word@);
    true
}

/// Looks a unit up.
fn unit_of(chars: &Vec<char>, from: usize) -> (unit: Option<u64>)
    requires
        from <= chars@.len(),
    ensures
        unit == multiplier(chars@.skip(from as int)),
{
    if spells(chars, from, "M") || spells(chars, from, "m") || spells(chars, from, "mb") || spells(
        chars,
        from,
        "Mb",
    ) {
        Some(1_000_000)
    } else if spells(chars, from, "Mib") || spells(chars, from, "mib") {
        Some(1_048_576)
    } else if spells(chars, from, "K") || spells(chars, from, "k") || spells(chars, from, "kb")
        || spells(chars, from, "Kb") {
        Some(1_000)
    } else if spells(chars, from, "Kib") || spells(chars, from, "kib") {
        Some(1_024)
    } else if spells(chars, from, "G") || spells(chars, from, "g") || spells(chars, from, "gb")
        || spells(chars, from, "Gb") {
        Some(1_000_000_000)
    } else if spells(chars, from, "Gib") || spells(chars, from, "gib") {
        Some(1_073_741_824)
    } else if spells(chars, from, "Tb") || spells(chars, from, "tb") || spells(chars, from, "t")
        || spells(chars, from, "T") {
        Some(1_000_000_000_000)
    } else if spells(chars, from, "tib") || spells(chars, from, "Tib") {
        Some(1_099_511_627_776)
    } else if spells(chars, from, "") {
        Some(1)
    } else {
        None
    }
}

/// Takes a size apart into its number and the number of bytes of its unit.
pub fn split_size(item: &str) -> (parts: Result<(u64, u64), SizeError>)
    ensures
        parts == size_parts(item@),
{
    let chars = characters(item);
    let mut count: usize = 0;
    let mut number: u64 = 0;
    let mut fits: bool = true;
    assert(chars@.take(0) =~= seq![]);
    while count < chars.len() && '0' <= chars[count] && chars[count] <= '9'
        invariant
            count <= chars@.len(),
            forall|j: int| 0 <= j < count ==> is_digit(#[trigger] chars@[j]),
            fits ==> number == digits_value(chars@.take(count as int)),
            !fits ==> digits_value(chars@.take(count as int)) > u64::MAX,
        decreases chars@.len() - count,
    {
        let digit: u64 = chars[count] as u64 - 48;
        assert(chars@.take(count + 1).drop_last() =~= chars@.take(count as int));
        if fits {
            match number.checked_mul(10) {
                Some(shifted) => match shifted.checked_add(digit) {
                    Some(sum) => {
                        number = sum;
                    },
                    None => {
                        fits = false;
                    },
                },
                None => {
                    fits = false;
                },
            }
        }
        count = count + 1;
    }
    proof {
        lemma_digit_count(chars@, count as int);
    }
    if count == 0 || !fits {
        return Err(SizeError::InvalidNumber);
    }
    match unit_of(&chars, count) {
        Some(unit) => Ok((number, unit)),
        None => Err(SizeError::InvalidSuffix),
    }
}

/// Reads a size: a number of bytes, or a number and a unit. The product has to fit in
/// sixty-four bits; `split_size` gives its two factors for every text.
pub fn parse_size(item: &str) -> (size: Result<u64, SizeError>)
    requires
        size_parts(item@) matches Ok((number, unit)) ==> number * unit <= u64::MAX,
    ensures
        match size_parts(item@) {
            Ok((number, unit)) => size == Ok::<u64, SizeError>((number * unit) as u64),
            Err(e) => size == Err::<u64, SizeError>(e),
        },
{
    match split_size(item) {
        Ok((number, unit)) => Ok(number * unit),
        Err(e) => Err(e),
    }
}

/// The power of a unit by its letter, which may be of either case: one for `k`, two for `m`, three
/// for `g` and four for `t`.
pub open spec fn unit_power(letter: char) -> nat {
    if letter == 'k' || letter == 'K' {
        1
    } else if letter == 'm' || letter == 'M' {
        2
    } else if letter == 'g' || letter == 'G' {
        3
    } else if letter == 't' || letter == 'T' {
        4
    } else {
        0
    }
}

/// A unit is a letter, alone or with a `b` behind it, and stands for a power of a thousand; with
/// `ib` behind the letter it stands for a power of 1024. Nothing stands for one byte, and there is
/// no other unit.
pub proof fn lemma_units_are_powers(suffix: Seq<char>)
    ensures
        multiplier(suffix) matches Some(unit) ==> unit as int == if suffix.len() == 0 {
            1
        } else if suffix.len() == 3 {
            pow(1024, unit_power(suffix[0]))
        } else {
            pow(1000, unit_power(suffix[0]))
        },
        multiplier(suffix) is Some <==> suffix.len() == 0 || (unit_power(suffix[0]) > 0 && (
        suffix.len() == 1 || (suffix.len() == 2 && suffix[1] == 'b') || (suffix.len() == 3
            && suffix[1] == 'i' && suffix[2] == 'b'))),
{
    reveal_strlit("M");
    reveal_strlit("m");
    reveal_strlit("mb");
    reveal_strlit("Mb");
    reveal_strlit("Mib");
    reveal_strlit("mib");
    reveal_strlit("K");
    reveal_strlit("k");
    reveal_strlit("kb");
    reveal_strlit("Kb");
    reveal_strlit("Kib");
    reveal_strlit("kib");
    reveal_strlit("G");
    reveal_strlit("g");
    reveal_strlit("gb");
    reveal_strlit("Gb");
    reveal_strlit("Gib");
    reveal_strlit("gib");
    reveal_strlit("Tb");
    reveal_strlit("tb");
    reveal_strlit("t");
    reveal_strlit("T");
    reveal_strlit("tib");
    reveal_strlit("Tib");
    reveal_strlit("");
    reveal_with_fuel(pow, 5);
    assert(pow(1000, 1) == 1000);
    assert(pow(1000, 2) == 1_000_000);
    assert(pow(1000, 3) == 1_000_000_000);
    assert(pow(1000, 4) == 1_000_000_000_000);
    assert(pow(1024, 1) == 1024);
    assert(pow(1024, 2) == 1_048_576);
    assert(pow(1024, 3) == 1_073_741_824);
    assert(pow(1024, 4) == 1_099_511_627_776);
    if suffix.len() == 0 {
        assert(suffix =~= ""@);
    } else if suffix.len() == 1 {
        assert(suffix =~= seq![suffix[0]]);
    } else if suffix.len() == 2 {
        assert(suffix =~= seq![suffix[0], suffix[1]]);
    } else if suffix.len() == 3 {
        assert(suffix =~= seq![suffix[0], suffix[1], suffix[2]]);
    }
    lemma_literals(suffix);
}

/// The units, character by character.
proof fn lemma_literals(s: Seq<char>)
    ensures
        s == "M"@ <==> s == seq!['M'],
        s == "m"@ <==> s == seq!['m'],
        s == "mb"@ <==> s == seq!['m', 'b'],
        s == "Mb"@ <==> s == seq!['M', 'b'],
        s == "Mib"@ <==> s == seq!['M', 'i', 'b'],
        s == "mib"@ <==> s == seq!['m', 'i', 'b'],
        s == "K"@ <==> s == seq!['K'],
        s == "k"@ <==> s == seq!['k'],
        s == "kb"@ <==> s == seq!['k', 'b'],
        s == "Kb"@ <==> s == seq!['K', 'b'],
        s == "Kib"@ <==> s == seq!['K', 'i', 'b'],
        s == "kib"@ <==> s == seq!['k', 'i', 'b'],
        s == "G"@ <==> s == seq!['G'],
        s == "g"@ <==> s == seq!['g'],
        s == "gb"@ <==> s == seq!['g', 'b'],
        s == "Gb"@ <==> s == seq!['G', 'b'],
        s == "Gib"@ <==> s == seq!['G', 'i', 'b'],
        s == "gib"@ <==> s == seq!['g', 'i', 'b'],
        s == "Tb"@ <==> s == seq!['T', 'b'],
        s == "tb"@ <==> s == seq!['t', 'b'],
        s == "t"@ <==> s == seq!['t'],
        s == "T"@ <==> s == seq!['T'],
        s == "tib"@ <==> s == seq!['t', 'i', 'b'],
        s == "Tib"@ <==> s == seq!['T', 'i', 'b'],
        s == ""@ <==> s.len() == 0,
{
    reveal_strlit("M");
    reveal_strlit("m");
    reveal_strlit("mb");
    reveal_strlit("Mb");
    reveal_strlit("Mib");
    reveal_strlit("mib");
    reveal_strlit("K");
    reveal_strlit("k");
    reveal_strlit("kb");
    reveal_strlit("Kb");
    reveal_strlit("Kib");
    reveal_strlit("kib");
    reveal_strlit("G");
    reveal_strlit("g");
    reveal_strlit("gb");
    reveal_strlit("Gb");
    reveal_strlit("Gib");
    reveal_strlit("gib");
    reveal_strlit("Tb");
    reveal_strlit("tb");
    reveal_strlit("t");
    reveal_strlit("T");
    reveal_strlit("tib");
    reveal_strlit("Tib");
    reveal_strlit("");
    assert("M"@ =~= seq!['M'] && "m"@ =~= seq!['m'] && "mb"@ =~= seq!['m', 'b']);
    assert("Mb"@ =~= seq!['M', 'b'] && "Mib"@ =~= seq!['M', 'i', 'b']);
    assert("mib"@ =~= seq!['m', 'i', 'b']);
    assert("K"@ =~= seq!['K'] && "k"@ =~= seq!['k'] && "kb"@ =~= seq!['k', 'b']);
    assert("Kb"@ =~= seq!['K', 'b'] && "Kib"@ =~= seq!['K', 'i', 'b']);
    assert("kib"@ =~= seq!['k', 'i', 'b']);
    assert("G"@ =~= seq!['G'] && "g"@ =~= seq!['g'] && "gb"@ =~= seq!['g', 'b']);
    assert("Gb"@ =~= seq!['G', 'b'] && "Gib"@ =~= seq!['G', 'i', 'b']);
    assert("gib"@ =~= seq!['g', 'i', 'b']);
    assert("T"@ =~= seq!['T'] && "t"@ =~= seq!['t'] && "tb"@ =~= seq!['t', 'b']);
    assert("Tb"@ =~= seq!['T', 'b'] && "Tib"@ =~= seq!['T', 'i', 'b']);
    assert("tib"@ =~= seq!['t', 'i', 'b']);
    if s.len() == 0 {
        assert(s =~= ""@);
    }
}

/// A size is read as the digits that it starts with, however many, and what follows them: the
/// digits have to be there and to stand for a number that fits, and what follows has to be a unit.
pub proof fn lemma_size_is_digits_and_unit(digits: Seq<char>, suffix: Seq<char>)
    requires
        forall|i: int| 0 <= i < digits.len() ==> '0' <= #[trigger] digits[i] <= '9',
        suffix.len() > 0 ==> !('0' <= suffix[0] <= '9'),
    ensures
        size_parts(digits + suffix) == if digits.len() == 0 || digits_value(digits) > u64::MAX {
            Err::<(u64, u64), SizeError>(SizeError::InvalidNumber)
        } else {
            match multiplier(suffix) {
                Some(unit) => Ok((digits_value(digits) as u64, unit)),
                None => Err(SizeError::InvalidSuffix),
            }
        },
{
    let item = digits + suffix;
    let count = digits.len() as int;
    assert forall|j: int| 0 <= j < count implies is_digit(#[trigger] item[j]) by {
        assert(item[j] == digits[j]);
    }
    if count < item.len() {
        assert(item[count] == suffix[0]);
    }
    lemma_digit_count(item, count);
    assert(item.take(count) =~= digits);
    assert(item.skip(count) =~= suffix);
}

} // verus!
