//! What holds of numbers and words in every text.

use vstd::arithmetic::div_mod::lemma_div_denominator;
use vstd::arithmetic::power::{lemma_pow0, lemma_pow1, lemma_pow_adds, lemma_pow_positive, pow};
use vstd::prelude::*;

use crate::hex::{hex_bytes, hex_digit, hex_text};
use crate::text::{
    behind_digits, digit_run, digit_value, float_error, hex_number, is_decimal, is_exponent,
    is_float, is_separator, is_white_space, is_word, line_words, parse_hex, strip_colons,
    strip_prefixes, trim_end, trim_start, without_sign, words, AddressError, FloatError,
};

verus! {

/// The digit of a number to base sixteen at a place, counted from the last one.
pub open spec fn digit_at(number: int, place: nat) -> int {
    (number / pow(16, place)) % 16
}

/// The hexadecimal digits are those from `0` to `9` and from `a` to `f`, and are read in either
/// case. Nothing else is a digit.
pub proof fn law_digits(c: char, value: nat)
    requires
        value < 16,
    ensures
        hex_digit(value) == "0123456789abcdef"@[value as int],
        digit_value(c) == Some(value) <==> c == "0123456789abcdef"@[value as int] || c
            == "0123456789ABCDEF"@[value as int],
        digit_value(c) matches Some(digit) ==> digit < 16,
{
    reveal_strlit("0123456789abcdef");
    reveal_strlit("0123456789ABCDEF");
}

/// One more place of a number.
proof fn lemma_digit_at(number: int, digit: int, place: nat)
    requires
        number >= 0,
        0 <= digit < 16,
    ensures
        digit_at(number * 16 + digit, 0) == digit,
        digit_at(number * 16 + digit, place + 1) == digit_at(number, place),
        pow(16, place + 1) == 16 * pow(16, place),
        pow(16, place) > 0,
{
    lemma_pow0(16);
    lemma_pow1(16);
    lemma_pow_adds(16, 1, place);
    lemma_pow_positive(16, place);
    let more = number * 16 + digit;
    lemma_div_denominator(more, 16, pow(16, place));
    assert(more / 16 == number);
    assert(more % 16 == digit);
}

/// Some digits are read as the number of which they are the digits: each of them counts, at its
/// own place.
pub proof fn law_numbers_have_their_digits(digits: Seq<char>, index: int)
    requires
        hex_number(digits) is Ok,
        0 <= index < digits.len(),
    ensures
        digit_value(digits[index]) == Some(
            digit_at(hex_number(digits)->Ok_0 as int, (digits.len() - 1 - index) as nat) as nat,
        ),
        hex_number(digits)->Ok_0 < pow(16, digits.len()),
    decreases digits.len(),
{
    let before = digits.drop_last();
    let number = hex_number(before)->Ok_0 as int;
    let digit = digit_value(digits.last())->0 as int;
    lemma_pow0(16);
    if before.len() > 0 {
        law_numbers_have_their_digits(
            before,
            if index < before.len() {
                index
            } else {
                0
            },
        );
    }
    lemma_digit_at(number, digit, before.len());
    if index < before.len() {
        lemma_digit_at(number, digit, (before.len() - 1 - index) as nat);
        assert(before[index] == digits[index]);
    }
}

/// Every number that is an address is read from its digits, of either case and with any number of
/// zeros before them.
pub proof fn law_digits_are_read(digits: Seq<char>, number: usize)
    requires
        number < pow(16, digits.len()),
        forall|i: int|
            0 <= i < digits.len() ==> #[trigger] digit_value(digits[i]) == Some(
                digit_at(number as int, (digits.len() - 1 - i) as nat) as nat,
            ),
    ensures
        hex_number(digits) == Ok::<usize, AddressError>(number),
        digits.len() > 0 ==> parse_hex(digits) == Ok::<usize, AddressError>(number),
        digits.len() > 0 ==> parse_hex(seq!['+'] + digits) == Ok::<usize, AddressError>(number),
    decreases digits.len(),
{
    lemma_pow0(16);
    if digits.len() > 0 {
        let before = digits.drop_last();
        let rest = (number / 16) as usize;
        let last = (number % 16) as int;
        lemma_digit_at(rest as int, last, before.len());
        assert(rest < pow(16, before.len())) by (nonlinear_arith)
            requires
                number < 16 * pow(16, before.len()),
                rest == number / 16,
        ;
        assert forall|i: int| 0 <= i < before.len() implies #[trigger] digit_value(before[i])
            == Some(digit_at(rest as int, (before.len() - 1 - i) as nat) as nat) by {
            lemma_digit_at(rest as int, last, (before.len() - 1 - i) as nat);
            assert(digit_value(digits[i]) == Some(
                digit_at(number as int, (digits.len() - 1 - i) as nat) as nat,
            ));
        }
        law_digits_are_read(before, rest);
        assert(digit_value(digits[digits.len() - 1]) == Some(digit_at(number as int, 0) as nat));
        assert(digits[0] != '+') by {
            assert(digit_value(digits[0]) is Some);
        }
        assert((seq!['+'] + digits).drop_first() =~= digits);
    }
}

/// What comes behind a character that spoils a number does not matter. Such a character is no
/// digit, or one with which the number is too large.
pub proof fn law_first_wrong_character_counts(digits: Seq<char>, c: char, more: Seq<char>)
    requires
        hex_number(digits) is Ok,
    ensures
        digit_value(c) is None ==> hex_number(digits.push(c) + more) == Err::<usize, AddressError>(
            AddressError::InvalidDigit,
        ),
        (digit_value(c) matches Some(digit) && hex_number(digits)->Ok_0 * 16 + digit > usize::MAX)
            ==> hex_number(digits.push(c) + more) == Err::<usize, AddressError>(
            AddressError::TooLarge,
        ),
    decreases more.len(),
{
    if more.len() == 0 {
        assert(digits.push(c) + more =~= digits.push(c));
        assert(digits.push(c).drop_last() =~= digits);
    } else {
        law_first_wrong_character_counts(digits, c, more.drop_last());
        assert((digits.push(c) + more).drop_last() =~= digits.push(c) + more.drop_last());
    }
}

/// An address may follow one plus sign. There must be a digit.
pub proof fn law_signs_of_addresses(digits: Seq<char>)
    ensures
        parse_hex(Seq::empty()) == Err::<usize, AddressError>(AddressError::Empty),
        parse_hex(seq!['+']) == Err::<usize, AddressError>(AddressError::InvalidDigit),
        digits.len() > 0 && digits[0] != '+' ==> parse_hex(digits) == hex_number(digits),
        digits.len() > 0 ==> parse_hex(seq!['+'] + digits) == hex_number(digits),
{
    assert((seq!['+'] + digits).drop_first() =~= digits);
}

/// The text of a number has the digits of the number, all of them, and begins with none that is
/// zero, unless the number is.
pub proof fn law_texts_have_the_digits(value: nat)
    ensures
        ({
            let text = hex_text(value);
            &&& text.len() > 0
            &&& value < pow(16, text.len())
            &&& text.len() > 1 ==> value >= pow(16, (text.len() - 1) as nat)
            &&& text.len() > 1 ==> text[0] != '0'
            &&& forall|i: int|
                0 <= i < text.len() ==> #[trigger] text[i] == "0123456789abcdef"@[digit_at(
                    value as int,
                    (text.len() - 1 - i) as nat,
                )]
        }),
    decreases value,
{
    lemma_pow0(16);
    lemma_pow1(16);
    let text = hex_text(value);
    if value < 16 {
        law_digits('0', value);
        assert(digit_at(value as int, 0) == value);
    } else {
        let rest = value / 16;
        let before = hex_text(rest);
        law_texts_have_the_digits(rest);
        lemma_digit_at(rest as int, (value % 16) as int, before.len());
        lemma_digit_at(rest as int, (value % 16) as int, (before.len() - 1) as nat);
        law_digits('0', value % 16);
        assert(value == rest * 16 + value % 16);
        assert forall|i: int| 0 <= i < text.len() implies #[trigger] text[i]
            == "0123456789abcdef"@[digit_at(value as int, (text.len() - 1 - i) as nat)] by {
            if i < before.len() {
                lemma_digit_at(
                    rest as int,
                    (value % 16) as int,
                    (before.len() - 1 - i) as nat,
                );
                assert(text[i] == before[i]);
            }
        }
        assert(value < pow(16, text.len())) by (nonlinear_arith)
            requires
                rest < pow(16, before.len()),
                value == rest * 16 + value % 16,
                value % 16 < 16,
                pow(16, text.len()) == 16 * pow(16, before.len()),
        ;
        if before.len() > 1 {
            assert(value >= pow(16, (text.len() - 1) as nat)) by (nonlinear_arith)
                requires
                    rest >= pow(16, (before.len() - 1) as nat),
                    value == rest * 16 + value % 16,
                    value % 16 >= 0,
                    pow(16, (text.len() - 1) as nat) == 16 * pow(16, (before.len() - 1) as nat),
            ;
        } else {
            assert(text.len() == 2);
            assert(digit_at(rest as int, 0) == rest);
            reveal_strlit("0123456789abcdef");
        }
    }
}

/// An address is read back from its text.
pub proof fn law_addresses_are_read_back(address: usize)
    ensures
        parse_hex(hex_text(address as nat)) == Ok::<usize, AddressError>(address),
{
    let text = hex_text(address as nat);
    law_texts_have_the_digits(address as nat);
    assert forall|i: int| 0 <= i < text.len() implies #[trigger] digit_value(text[i]) == Some(
        digit_at(address as int, (text.len() - 1 - i) as nat) as nat,
    ) by {
        law_digits(text[i], digit_at(address as int, (text.len() - 1 - i) as nat) as nat);
    }
    law_digits_are_read(text, address);
}

/// Different numbers have different texts.
pub proof fn law_texts_tell_numbers_apart(left: nat, right: nat)
    requires
        hex_text(left) == hex_text(right),
    ensures
        left == right,
    decreases left,
{
    if left < 16 && right < 16 {
        assert(hex_text(left)[0] == hex_digit(left));
        assert(hex_text(right)[0] == hex_digit(right));
        law_digits(hex_digit(left), left);
        law_digits(hex_digit(left), right);
    } else {
        law_texts_have_the_digits(left);
        law_texts_have_the_digits(right);
        lemma_pow1(16);
        if left < 16 || right < 16 {
            assert(hex_text(left).len() == 1);
            assert(false);
        }
        let a = hex_text(left / 16);
        let b = hex_text(right / 16);
        assert(hex_text(left).drop_last() =~= a);
        assert(hex_text(right).drop_last() =~= b);
        law_texts_tell_numbers_apart(left / 16, right / 16);
        assert(hex_text(left).last() == hex_digit(left % 16));
        assert(hex_text(right).last() == hex_digit(right % 16));
        law_digits(hex_digit(left % 16), left % 16);
        law_digits(hex_digit(left % 16), right % 16);
    }
}

/// The text of some bytes has two digits for each of them: its upper four bits, then its lower
/// four bits.
pub proof fn law_bytes_have_two_digits(bytes: Seq<u8>, index: int)
    requires
        0 <= index < bytes.len(),
    ensures
        hex_bytes(bytes).len() == 2 * bytes.len(),
        hex_bytes(bytes)[2 * index] == "0123456789abcdef"@[bytes[index] as int / 16],
        hex_bytes(bytes)[2 * index + 1] == "0123456789abcdef"@[bytes[index] as int % 16],
    decreases bytes.len(),
{
    let before = bytes.drop_last();
    lemma_hex_bytes_len(before);
    if index < before.len() {
        law_bytes_have_two_digits(before, index);
        assert(before[index] == bytes[index]);
    } else {
        law_digits('0', bytes.last() as nat / 16);
        law_digits('0', bytes.last() as nat % 16);
    }
}

/// The text of some bytes is twice as long.
proof fn lemma_hex_bytes_len(bytes: Seq<u8>)
    ensures
        hex_bytes(bytes).len() == 2 * bytes.len(),
    decreases bytes.len(),
{
    if bytes.len() > 0 {
        lemma_hex_bytes_len(bytes.drop_last());
    }
}

/// Words are separated by spaces, tabs, line feeds, form feeds and carriage returns.
pub proof fn law_separators(c: char)
    ensures
        is_separator(c) <==> c as int == 32 || c as int == 9 || c as int == 10 || c as int == 12
            || c as int == 13,
{
}

/// The characters that Unicode counts among white space.
pub proof fn law_white_space(c: char)
    ensures
        is_white_space(c) <==> {
            ||| 0x9 <= c as int <= 0xd
            ||| c as int == 0x20
            ||| c as int == 0x85
            ||| c as int == 0xa0
            ||| c as int == 0x1680
            ||| 0x2000 <= c as int <= 0x200a
            ||| 0x2028 <= c as int <= 0x2029
            ||| c as int == 0x202f
            ||| c as int == 0x205f
            ||| c as int == 0x3000
        },
{
}

/// Whether all characters separate words.
pub open spec fn is_gap(text: Seq<char>) -> bool {
    forall|i: int| 0 <= i < text.len() ==> is_separator(#[trigger] text[i])
}

/// Whether a text is one word.
pub open spec fn is_one_word(text: Seq<char>) -> bool {
    &&& text.len() > 0
    &&& forall|i: int| 0 <= i < text.len() ==> !is_separator(#[trigger] text[i])
}

/// Some words, with a gap before each of them and one behind the last.
pub open spec fn spaced(list: Seq<Seq<char>>, gaps: Seq<Seq<char>>) -> Seq<char>
    decreases list.len(),
{
    if list.len() == 0 {
        gaps[0]
    } else {
        spaced(list.drop_last(), gaps.drop_last()) + list.last() + gaps.last()
    }
}

/// Whether some words can be told apart by the gaps around them.
pub open spec fn well_spaced(list: Seq<Seq<char>>, gaps: Seq<Seq<char>>) -> bool {
    &&& gaps.len() == list.len() + 1
    &&& forall|i: int| 0 <= i < list.len() ==> is_one_word(#[trigger] list[i])
    &&& forall|i: int| 0 <= i < gaps.len() ==> is_gap(#[trigger] gaps[i])
    &&& forall|i: int| 0 < i < list.len() ==> (#[trigger] gaps[i]).len() > 0
}

/// A gap ends a word, and adds none.
proof fn lemma_words_gap(text: Seq<char>, gap: Seq<char>)
    requires
        is_gap(gap),
    ensures
        words(text + gap) == words(text),
    decreases gap.len(),
{
    if gap.len() == 0 {
        assert(text + gap =~= text);
    } else {
        assert((text + gap).drop_last() =~= text + gap.drop_last());
        assert(gap[gap.len() - 1] == (text + gap).last());
        assert forall|i: int| 0 <= i < gap.drop_last().len() implies is_separator(
            #[trigger] gap.drop_last()[i],
        ) by {
            assert(gap[i] == gap.drop_last()[i]);
        }
        lemma_words_gap(text, gap.drop_last());
    }
}

/// A word behind a gap is one more.
proof fn lemma_words_word(text: Seq<char>, word: Seq<char>)
    requires
        is_one_word(word),
        text.len() == 0 || is_separator(text.last()),
    ensures
        words(text + word) == words(text).push(word),
    decreases word.len(),
{
    let all = text + word;
    let before = word.drop_last();
    assert(all.drop_last() =~= text + before);
    assert(word[word.len() - 1] == all.last());
    if before.len() == 0 {
        assert(all.drop_last() =~= text);
        assert(seq![word.last()] =~= word);
        if text.len() > 0 {
            assert(all[all.len() - 2] == text.last());
        }
    } else {
        assert forall|i: int| 0 <= i < before.len() implies !is_separator(
            #[trigger] before[i],
        ) by {
            assert(word[i] == before[i]);
        }
        lemma_words_word(text, before);
        assert(all[all.len() - 2] == word[word.len() - 2]);
        assert(words(text).push(before).drop_last() =~= words(text));
        assert(before.push(word.last()) =~= word);
    }
}

/// Words are read back, however many they are, however long they are, and whatever gaps are
/// around them.
pub proof fn law_words_are_read_back(list: Seq<Seq<char>>, gaps: Seq<Seq<char>>)
    requires
        well_spaced(list, gaps),
    ensures
        words(spaced(list, gaps)) == list,
    decreases list.len(),
{
    if list.len() == 0 {
        lemma_words_gap(Seq::empty(), gaps[0]);
        assert(Seq::empty() + gaps[0] =~= gaps[0]);
        assert(list =~= Seq::empty());
    } else {
        let fewer = list.drop_last();
        let before = gaps.drop_last();
        let text = spaced(fewer, before);
        assert forall|i: int| 0 <= i < fewer.len() implies is_one_word(#[trigger] fewer[i]) by {
            assert(fewer[i] == list[i]);
        }
        assert forall|i: int| 0 <= i < before.len() implies is_gap(#[trigger] before[i]) by {
            assert(before[i] == gaps[i]);
        }
        assert forall|i: int| 0 < i < fewer.len() implies (#[trigger] before[i]).len() > 0 by {
            assert(before[i] == gaps[i]);
        }
        law_words_are_read_back(fewer, before);
        let gap = gaps[list.len() - 1];
        assert(is_gap(gap));
        assert(before.last() == gap);
        if fewer.len() > 0 {
            assert(gap.len() > 0);
            assert(text.last() == gap.last());
            assert(is_separator(gap[gap.len() - 1]));
        } else {
            assert(text == gap);
            if gap.len() > 0 {
                assert(is_separator(gap[gap.len() - 1]));
            }
        }
        assert(is_one_word(list[list.len() - 1]));
        assert(is_gap(gaps[gaps.len() - 1]));
        lemma_words_word(text, list.last());
        lemma_words_gap(text + list.last(), gaps.last());
        assert(fewer.push(list.last()) =~= list);
    }
}

/// Whether all characters are white space.
pub open spec fn is_blank(text: Seq<char>) -> bool {
    forall|i: int| 0 <= i < text.len() ==> is_white_space(#[trigger] text[i])
}

/// Whether a text neither begins nor ends with white space.
pub open spec fn is_trimmed(text: Seq<char>) -> bool {
    text.len() > 0 ==> !is_white_space(text.first()) && !is_white_space(text.last())
}

/// White space at the start is trimmed.
proof fn lemma_trim_start(before: Seq<char>, rest: Seq<char>)
    requires
        is_blank(before),
    ensures
        trim_start(before + rest) == trim_start(rest),
    decreases before.len(),
{
    if before.len() == 0 {
        assert(before + rest =~= rest);
    } else {
        let fewer = before.drop_first();
        assert(before[0] == (before + rest).first());
        assert((before + rest).drop_first() =~= fewer + rest);
        assert forall|i: int| 0 <= i < fewer.len() implies is_white_space(
            #[trigger] fewer[i],
        ) by {
            assert(fewer[i] == before[i + 1]);
        }
        lemma_trim_start(fewer, rest);
    }
}

/// White space at the end is trimmed.
proof fn lemma_trim_end(rest: Seq<char>, after: Seq<char>)
    requires
        is_blank(after),
    ensures
        trim_end(rest + after) == trim_end(rest),
    decreases after.len(),
{
    if after.len() == 0 {
        assert(rest + after =~= rest);
    } else {
        let fewer = after.drop_last();
        assert(after[after.len() - 1] == (rest + after).last());
        assert((rest + after).drop_last() =~= rest + fewer);
        assert forall|i: int| 0 <= i < fewer.len() implies is_white_space(
            #[trigger] fewer[i],
        ) by {
            assert(fewer[i] == after[i]);
        }
        lemma_trim_end(rest, fewer);
    }
}

/// All white space around a text is trimmed, and nothing else.
pub proof fn law_white_space_is_trimmed(before: Seq<char>, text: Seq<char>, after: Seq<char>)
    requires
        is_blank(before),
        is_trimmed(text),
        is_blank(after),
    ensures
        trim_end(trim_start(before + text + after)) == text,
{
    assert(before + text + after =~= before + (text + after));
    lemma_trim_start(before, text + after);
    if text.len() == 0 {
        assert(text + after =~= after + text);
        lemma_trim_start(after, text);
        assert(text =~= Seq::empty());
    } else {
        assert((text + after).first() == text.first());
        lemma_trim_end(text, after);
    }
}

/// The words of a line are read back, whatever white space is around them.
pub proof fn law_lines_have_their_words(
    before: Seq<char>,
    list: Seq<Seq<char>>,
    gaps: Seq<Seq<char>>,
    after: Seq<char>,
)
    requires
        is_blank(before),
        well_spaced(list, gaps),
        is_trimmed(spaced(list, gaps)),
        is_blank(after),
    ensures
        line_words(before + spaced(list, gaps) + after) == list,
{
    law_white_space_is_trimmed(before, spaced(list, gaps), after);
    law_words_are_read_back(list, gaps);
}

/// A text, as often as given.
pub open spec fn repeated(text: Seq<char>, count: nat) -> Seq<char>
    decreases count,
{
    if count == 0 {
        Seq::empty()
    } else {
        text + repeated(text, (count - 1) as nat)
    }
}

/// A prefix is stripped as often as it is there, and nothing else.
pub proof fn law_prefixes_are_stripped(prefix: Seq<char>, count: nat, rest: Seq<char>)
    requires
        prefix.len() > 0,
        !prefix.is_prefix_of(rest),
    ensures
        strip_prefixes(repeated(prefix, count) + rest, prefix) == rest,
    decreases count,
{
    let text = repeated(prefix, count) + rest;
    if count == 0 {
        assert(text =~= rest);
    } else {
        law_prefixes_are_stripped(prefix, (count - 1) as nat, rest);
        assert(text =~= prefix + (repeated(prefix, (count - 1) as nat) + rest));
        assert(text.take(prefix.len() as int) =~= prefix);
        assert(text.skip(prefix.len() as int) =~= repeated(prefix, (count - 1) as nat) + rest);
    }
}

/// All colons at the end are stripped, and nothing else.
pub proof fn law_colons_are_stripped(text: Seq<char>, count: nat)
    requires
        text.len() > 0 ==> text.last() != ':',
    ensures
        strip_colons(text + Seq::new(count, |i: int| ':')) == text,
    decreases count,
{
    let all = text + Seq::new(count, |i: int| ':');
    if count == 0 {
        assert(all =~= text);
    } else {
        law_colons_are_stripped(text, (count - 1) as nat);
        assert(all.drop_last() =~= text + Seq::new((count - 1) as nat, |i: int| ':'));
    }
}

/// Whether all characters are decimal digits.
pub open spec fn all_digits(text: Seq<char>) -> bool {
    forall|i: int| 0 <= i < text.len() ==> '0' <= #[trigger] text[i] <= '9'
}

/// Whether a text is a sign, or nothing.
pub open spec fn is_sign(text: Seq<char>) -> bool {
    text.len() == 0 || text == seq!['+'] || text == seq!['-']
}

/// The parts of a decimal number.
pub struct DecimalParts {
    pub whole: Seq<char>,
    /// The digits behind the point, if there is one.
    pub fraction: Option<Seq<char>>,
    /// The letter, the sign and the digits of the exponent, if there is one.
    pub exponent: Option<(char, Seq<char>, Seq<char>)>,
}

impl DecimalParts {
    /// Whether the parts are what they must be. There is a digit before or behind the point, and
    /// one in the exponent.
    pub open spec fn wf(self) -> bool {
        &&& all_digits(self.whole)
        &&& match self.fraction {
            Some(fraction) => all_digits(fraction) && self.whole.len() + fraction.len() > 0,
            None => self.whole.len() > 0,
        }
        &&& match self.exponent {
            Some((letter, sign, digits)) => {
                &&& letter == 'e' || letter == 'E'
                &&& is_sign(sign)
                &&& all_digits(digits)
                &&& digits.len() > 0
            },
            None => true,
        }
    }

    /// The text of the exponent.
    pub open spec fn exponent_text(self) -> Seq<char> {
        match self.exponent {
            Some((letter, sign, digits)) => seq![letter] + sign + digits,
            None => Seq::empty(),
        }
    }

    /// The text of the fraction.
    pub open spec fn fraction_text(self) -> Seq<char> {
        match self.fraction {
            Some(fraction) => seq!['.'] + fraction,
            None => Seq::empty(),
        }
    }

    /// The text of the number.
    pub open spec fn text(self) -> Seq<char> {
        self.whole + self.fraction_text() + self.exponent_text()
    }
}

/// The digits at the start of a text are those before the first other character.
proof fn lemma_digit_run(digits: Seq<char>, rest: Seq<char>)
    requires
        all_digits(digits),
        rest.len() > 0 ==> !('0' <= rest[0] <= '9'),
    ensures
        digit_run(digits + rest) == digits.len(),
        behind_digits(digits + rest) == rest,
    decreases digits.len(),
{
    let text = digits + rest;
    if digits.len() == 0 {
        assert(text =~= rest);
    } else {
        let fewer = digits.drop_first();
        assert(text.first() == digits[0]);
        assert(text.drop_first() =~= fewer + rest);
        assert forall|i: int| 0 <= i < fewer.len() implies '0' <= #[trigger] fewer[i] <= '9' by {
            assert(fewer[i] == digits[i + 1]);
        }
        lemma_digit_run(fewer, rest);
    }
    assert(text.skip(digits.len() as int) =~= rest);
}

/// The digits at the start of a text are digits, and what is behind them begins with none.
proof fn lemma_digit_run_is_digits(text: Seq<char>)
    ensures
        digit_run(text) <= text.len(),
        all_digits(text.take(digit_run(text) as int)),
        behind_digits(text).len() > 0 ==> !('0' <= behind_digits(text)[0] <= '9'),
        text == text.take(digit_run(text) as int) + behind_digits(text),
    decreases text.len(),
{
    if text.len() > 0 && '0' <= text.first() <= '9' {
        let rest = text.drop_first();
        lemma_digit_run_is_digits(rest);
        let run = text.take(digit_run(text) as int);
        assert forall|i: int| 0 <= i < run.len() implies '0' <= #[trigger] run[i] <= '9' by {
            if i > 0 {
                assert(run[i] == rest.take(digit_run(rest) as int)[i - 1]);
            }
        }
        assert(behind_digits(text) =~= behind_digits(rest));
    } else {
        assert(behind_digits(text) =~= text);
    }
    assert(text =~= text.take(digit_run(text) as int) + behind_digits(text));
}

/// A sign before something that begins with none is taken off.
proof fn lemma_without_sign(sign: Seq<char>, rest: Seq<char>)
    requires
        is_sign(sign),
        sign.len() == 0 ==> (rest.len() == 0 || (rest[0] != '+' && rest[0] != '-')),
    ensures
        without_sign(sign + rest) == rest,
{
    if sign.len() == 0 {
        assert(sign + rest =~= rest);
    } else {
        assert((sign + rest).drop_first() =~= rest);
    }
}

/// The exponent of a decimal number is one.
proof fn lemma_exponent(parts: DecimalParts)
    requires
        parts.wf(),
    ensures
        is_exponent(parts.exponent_text()),
        parts.exponent_text().len() > 0 ==> !('0' <= parts.exponent_text()[0] <= '9')
            && parts.exponent_text()[0] != '.',
{
    if let Some((letter, sign, digits)) = parts.exponent {
        let text = parts.exponent_text();
        assert(text.drop_first() =~= sign + digits);
        lemma_without_sign(sign, digits);
        lemma_digit_run(digits, Seq::empty());
        assert(digits + Seq::empty() =~= digits);
    }
}

/// Every decimal number is taken for one.
proof fn lemma_decimals(parts: DecimalParts)
    requires
        parts.wf(),
    ensures
        is_decimal(parts.text()),
        parts.text().len() > 0,
        parts.text()[0] == '.' || '0' <= parts.text()[0] <= '9',
{
    let text = parts.text();
    let exponent = parts.exponent_text();
    lemma_exponent(parts);
    match parts.fraction {
        Some(fraction) => {
            let rest = parts.fraction_text() + exponent;
            assert(text =~= parts.whole + rest);
            lemma_digit_run(parts.whole, rest);
            assert(rest.drop_first() =~= fraction + exponent);
            lemma_digit_run(fraction, exponent);
        },
        None => {
            assert(text =~= parts.whole + exponent);
            lemma_digit_run(parts.whole, exponent);
        },
    }
    if parts.whole.len() > 0 {
        assert(text[0] == parts.whole[0]);
    }
}

/// A decimal number, an infinity and a NaN are taken for numbers, whatever sign they follow. The
/// letters of the latter may be of either case.
pub proof fn law_numbers_are_accepted(sign: Seq<char>, parts: DecimalParts, word: Seq<char>)
    requires
        is_sign(sign),
        parts.wf(),
        in_any_case(word, "inf"@, "INF"@) || in_any_case(word, "infinity"@, "INFINITY"@)
            || in_any_case(word, "nan"@, "NAN"@),
    ensures
        is_float(sign + parts.text()),
        is_float(sign + word),
        float_error(sign + parts.text()) is None,
        float_error(sign + word) is None,
{
    lemma_decimals(parts);
    lemma_without_sign(sign, parts.text());
    lemma_words_in_case(word);
    reveal_strlit("inf");
    reveal_strlit("infinity");
    reveal_strlit("nan");
    reveal_strlit("INF");
    reveal_strlit("INFINITY");
    reveal_strlit("NAN");
    lemma_without_sign(sign, word);
}

/// Whether each letter of a word is that of one of two words.
pub open spec fn in_any_case(word: Seq<char>, lower: Seq<char>, upper: Seq<char>) -> bool {
    &&& word.len() == lower.len()
    &&& forall|i: int|
        0 <= i < word.len() ==> #[trigger] word[i] == lower[i] || word[i] == upper[i]
}

/// The words for what is not a decimal number.
proof fn lemma_words_in_case(word: Seq<char>)
    ensures
        is_word(word, seq!['i', 'n', 'f']) == in_any_case(word, "inf"@, "INF"@),
        is_word(word, seq!['i', 'n', 'f', 'i', 'n', 'i', 't', 'y']) == in_any_case(
            word,
            "infinity"@,
            "INFINITY"@,
        ),
        is_word(word, seq!['n', 'a', 'n']) == in_any_case(word, "nan"@, "NAN"@),
{
    reveal_strlit("inf");
    reveal_strlit("infinity");
    reveal_strlit("nan");
    reveal_strlit("INF");
    reveal_strlit("INFINITY");
    reveal_strlit("NAN");
    assert("inf"@ =~= seq!['i', 'n', 'f']);
    assert("infinity"@ =~= seq!['i', 'n', 'f', 'i', 'n', 'i', 't', 'y']);
    assert("nan"@ =~= seq!['n', 'a', 'n']);
    assert(forall|i: int| 0 <= i < 3 ==> #[trigger] "inf"@[i] as int == "INF"@[i] as int + 32);
    assert(forall|i: int|
        0 <= i < 8 ==> #[trigger] "infinity"@[i] as int == "INFINITY"@[i] as int + 32);
    assert(forall|i: int| 0 <= i < 3 ==> #[trigger] "nan"@[i] as int == "NAN"@[i] as int + 32);
}

/// A text that ends with an exponent, or nothing, has the parts of one.
proof fn lemma_exponent_has_parts(text: Seq<char>) -> (exponent: Option<
    (char, Seq<char>, Seq<char>),
>)
    requires
        is_exponent(text),
    ensures
        match exponent {
            Some((letter, sign, digits)) => {
                &&& letter == 'e' || letter == 'E'
                &&& is_sign(sign)
                &&& all_digits(digits)
                &&& digits.len() > 0
                &&& text == seq![letter] + sign + digits
            },
            None => text == Seq::<char>::empty(),
        },
{
    if text.len() == 0 {
        assert(text =~= Seq::empty());
        None
    } else {
        let rest = text.drop_first();
        let digits = without_sign(rest);
        let sign = if digits == rest {
            Seq::empty()
        } else {
            seq![rest[0]]
        };
        lemma_digit_run_is_digits(digits);
        assert(digits.take(digit_run(digits) as int) =~= digits);
        assert(text =~= seq![text[0]] + sign + digits);
        Some((text[0], sign, digits))
    }
}

/// Whether a text is a sign and a decimal number.
pub open spec fn is_signed_decimal(text: Seq<char>, sign: Seq<char>, parts: DecimalParts) -> bool {
    is_sign(sign) && parts.wf() && text == sign + parts.text()
}

/// Whether a text is a sign and a word for what is not a decimal number.
pub open spec fn is_signed_word(text: Seq<char>, sign: Seq<char>, word: Seq<char>) -> bool {
    &&& is_sign(sign)
    &&& text == sign + word
    &&& in_any_case(word, "inf"@, "INF"@) || in_any_case(word, "infinity"@, "INFINITY"@)
        || in_any_case(word, "nan"@, "NAN"@)
}

/// Nothing else is taken for a number: what is has a sign or none, and then the parts of a decimal
/// number, or a word.
pub proof fn law_nothing_else_is_a_number(text: Seq<char>)
    requires
        is_float(text),
    ensures
        (exists|sign: Seq<char>, parts: DecimalParts| is_signed_decimal(text, sign, parts)) || (
        exists|sign: Seq<char>, word: Seq<char>| is_signed_word(text, sign, word)),
{
    let body = without_sign(text);
    let sign = if body == text {
        Seq::empty()
    } else {
        seq![text[0]]
    };
    assert(text =~= sign + body);
    assert(is_sign(sign));
    if is_decimal(body) {
        let whole = body.take(digit_run(body) as int);
        let rest = behind_digits(body);
        lemma_digit_run_is_digits(body);
        if rest.len() > 0 && rest[0] == '.' {
            let behind = rest.drop_first();
            let fraction = behind.take(digit_run(behind) as int);
            lemma_digit_run_is_digits(behind);
            let exponent = lemma_exponent_has_parts(behind_digits(behind));
            let parts = DecimalParts { whole, fraction: Some(fraction), exponent };
            assert(parts.exponent_text() =~= behind_digits(behind));
            assert(body =~= parts.text());
            assert(is_signed_decimal(text, sign, parts));
        } else {
            let exponent = lemma_exponent_has_parts(rest);
            let parts = DecimalParts { whole, fraction: None, exponent };
            assert(parts.exponent_text() =~= rest);
            assert(body =~= parts.text());
            assert(is_signed_decimal(text, sign, parts));
        }
    } else {
        lemma_words_in_case(body);
        assert(is_signed_word(text, sign, body));
    }
}

/// A text is refused as empty if and only if it is, and as invalid if it is not a number.
pub proof fn law_refused_numbers(text: Seq<char>)
    ensures
        float_error(text) is None <==> is_float(text),
        float_error(text) == Some(FloatError::Empty) <==> text.len() == 0,
        float_error(text) == Some(FloatError::Invalid) <==> text.len() > 0 && !is_float(text),
{
    if text.len() == 0 && is_float(text) {
        law_nothing_else_is_a_number(text);
        reveal_strlit("inf");
        reveal_strlit("infinity");
        reveal_strlit("nan");
        if exists|sign: Seq<char>, parts: DecimalParts| is_signed_decimal(text, sign, parts) {
            let (sign, parts) = choose|sign: Seq<char>, parts: DecimalParts|
                is_signed_decimal(text, sign, parts);
            lemma_decimals(parts);
            assert(text.len() == sign.len() + parts.text().len());
        } else {
            let (sign, word) = choose|sign: Seq<char>, word: Seq<char>|
                is_signed_word(text, sign, word);
            assert(text.len() == sign.len() + word.len());
        }
    }
}

} // verus!
