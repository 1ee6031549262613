//! Words and numbers in lines of text.

use vstd::prelude::*;

verus! {

/// Whether a character is white space, as Unicode has it.
pub open spec fn is_white_space(c: char) -> bool {
    ||| '\u{9}' <= c <= '\u{d}'
    ||| c == '\u{20}'
    ||| c == '\u{85}'
    ||| c == '\u{a0}'
    ||| c == '\u{1680}'
    ||| '\u{2000}' <= c <= '\u{200a}'
    ||| c == '\u{2028}'
    ||| c == '\u{2029}'
    ||| c == '\u{202f}'
    ||| c == '\u{205f}'
    ||| c == '\u{3000}'
}

/// Whether a character is ASCII white space, which separates words. A vertical tab is none.
pub open spec fn is_separator(c: char) -> bool {
    c == ' ' || c == '\t' || c == '\n' || c == '\u{c}' || c == '\r'
}

/// A text without the white space that it begins with.
pub open spec fn trim_start(text: Seq<char>) -> Seq<char>
    decreases text.len(),
{
    if text.len() > 0 && is_white_space(text.first()) {
        trim_start(text.drop_first())
    } else {
        text
    }
}

/// A text without the white space that it ends with.
pub open spec fn trim_end(text: Seq<char>) -> Seq<char>
    decreases text.len(),
{
    if text.len() > 0 && is_white_space(text.last()) {
        trim_end(text.drop_last())
    } else {
        text
    }
}

/// The words of a text: the longest runs of characters that do not separate words.
pub open spec fn words(text: Seq<char>) -> Seq<Seq<char>>
    decreases text.len(),
{
    if text.len() == 0 {
        Seq::empty()
    } else {
        let before = words(text.drop_last());
        if is_separator(text.last()) {
            before
        } else if text.len() == 1 || is_separator(text[text.len() - 2]) {
            before.push(seq![text.last()])
        } else {
            before.drop_last().push(before.last().push(text.last()))
        }
    }
}

/// The words of a line, whose ends are trimmed first.
pub open spec fn line_words(line: Seq<char>) -> Seq<Seq<char>> {
    words(trim_end(trim_start(line)))
}

/// A text without the prefix that it begins with, however often.
pub open spec fn strip_prefixes(text: Seq<char>, prefix: Seq<char>) -> Seq<char>
    decreases text.len(),
{
    if prefix.len() > 0 && prefix.is_prefix_of(text) {
        strip_prefixes(text.skip(prefix.len() as int), prefix)
    } else {
        text
    }
}

/// A text without the colons that it ends with.
pub open spec fn strip_colons(text: Seq<char>) -> Seq<char>
    decreases text.len(),
{
    if text.len() > 0 && text.last() == ':' {
        strip_colons(text.drop_last())
    } else {
        text
    }
}

/// The characters of a text.
pub(crate) fn to_chars(text: &str) -> (chars: Vec<char>)
    ensures
        chars@ == text@,
{
    let mut chars: Vec<char> = Vec::new();
    for c in iter: text.chars()
        invariant
            iter.seq() == text@,
            chars@ == text@.take(iter.index() as int),
    {
        chars.push(c);
        assert(text@.take(iter.index() + 1) =~= text@.take(iter.index() as int).push(c));
    }
    assert(text@.take(text@.len() as int) =~= text@);
    chars
}

/// The text of some characters.
pub(crate) fn to_text(chars: &Vec<char>) -> (text: String)
    ensures
        text@ == chars@,
{
    let mut text: String = String::new();
    let mut i: usize = 0;
    while i < chars.len()
        invariant
            i <= chars@.len(),
            text@ == chars@.take(i as int),
        decreases chars@.len() - i,
    {
        text.push(chars[i]);
        assert(chars@.take(i + 1) =~= chars@.take(i as int).push(chars@[i as int]));
        i += 1;
    }
    assert(chars@.take(i as int) =~= chars@);
    text
}

/// Whether a character is white space.
fn check_white_space(c: char) -> (result: bool)
    ensures
        result == is_white_space(c),
{
    ('\u{9}' <= c && c <= '\u{d}') || c == '\u{20}' || c == '\u{85}' || c == '\u{a0}' || c
        == '\u{1680}' || ('\u{2000}' <= c && c <= '\u{200a}') || c == '\u{2028}' || c
        == '\u{2029}' || c == '\u{202f}' || c == '\u{205f}' || c == '\u{3000}'
}

/// Whether a character separates words.
fn check_separator(c: char) -> (result: bool)
    ensures
        result == is_separator(c),
{
    c == ' ' || c == '\t' || c == '\n' || c == '\u{c}' || c == '\r'
}

/// The part of some characters between two positions.
fn part(chars: &Vec<char>, start: usize, end: usize) -> (part: Vec<char>)
    requires
        start <= end <= chars@.len(),
    ensures
        part@ == chars@.subrange(start as int, end as int),
{
    let mut part: Vec<char> = Vec::new();
    let mut i: usize = start;
    while i < end
        invariant
            start <= i <= end <= chars@.len(),
            part@ == chars@.subrange(start as int, i as int),
        decreases end - i,
    {
        part.push(chars[i]);
        assert(chars@.subrange(start as int, i + 1) =~= chars@.subrange(
            start as int,
            i as int,
        ).push(chars@[i as int]));
        i += 1;
    }
    part
}

/// Trims the ends of a text.
fn trim(chars: &Vec<char>) -> (trimmed: Vec<char>)
    ensures
        trimmed@ == trim_end(trim_start(chars@)),
{
    let mut start: usize = 0;
    assert(chars@.skip(0) =~= chars@);
    while start < chars.len() && check_white_space(chars[start])
        invariant
            start <= chars@.len(),
            trim_start(chars@) == trim_start(chars@.skip(start as int)),
        decreases chars@.len() - start,
    {
        assert(chars@.skip(start as int).drop_first() =~= chars@.skip(start + 1));
        start += 1;
    }
    let ghost rest = chars@.skip(start as int);
    assert(trim_start(chars@) == rest);
    let mut end: usize = chars.len();
    assert(rest =~= chars@.subrange(start as int, end as int));
    while end > start && check_white_space(chars[end - 1])
        invariant
            start <= end <= chars@.len(),
            trim_end(rest) == trim_end(chars@.subrange(start as int, end as int)),
        decreases end,
    {
        assert(chars@.subrange(start as int, end as int).drop_last() =~= chars@.subrange(
            start as int,
            end - 1,
        ));
        end -= 1;
    }
    part(chars, start, end)
}

/// The texts of some words.
pub open spec fn word_views(words: Seq<Vec<char>>) -> Seq<Seq<char>> {
    words.map_values(|word: Vec<char>| word@)
}

/// Splits a text into its words.
fn split(text: &Vec<char>) -> (result: Vec<Vec<char>>)
    ensures
        word_views(result@) == words(text@),
{
    let mut done: Vec<Vec<char>> = Vec::new();
    let mut start: usize = 0;
    let mut i: usize = 0;
    assert(word_views(done@) =~= words(text@.take(0)));
    while i < text.len()
        invariant
            start <= i <= text@.len(),
            i > 0 && !is_separator(text@[i - 1]) ==> start < i,
            i > 0 && is_separator(text@[i - 1]) ==> start == i,
            words(text@.take(i as int)) == if start < i {
                word_views(done@).push(text@.subrange(start as int, i as int))
            } else {
                word_views(done@)
            },
        decreases text@.len() - i,
    {
        let ghost prefix = text@.take(i + 1);
        assert(prefix.drop_last() =~= text@.take(i as int));
        if check_separator(text[i]) {
            if start < i {
                let ghost previous = word_views(done@);
                let word: Vec<char> = part(text, start, i);
                let ghost view = word@;
                done.push(word);
                assert(word_views(done@) =~= previous.push(view));
            }
            start = i + 1;
        } else if start < i {
            assert(text@.subrange(start as int, i + 1) =~= text@.subrange(
                start as int,
                i as int,
            ).push(text@[i as int]));
            assert(word_views(done@).push(text@.subrange(start as int, i as int)).drop_last()
                =~= word_views(done@));
        } else {
            assert(text@.subrange(start as int, i + 1) =~= seq![text@[i as int]]);
        }
        i += 1;
    }
    assert(text@.take(i as int) =~= text@);
    if start < i {
        let ghost previous = word_views(done@);
        let word: Vec<char> = part(text, start, i);
        let ghost view = word@;
        done.push(word);
        assert(word_views(done@) =~= previous.push(view));
    }
    done
}

/// Splits a line into its words.
pub(crate) fn split_line(line: &Vec<char>) -> (result: Vec<Vec<char>>)
    ensures
        word_views(result@) == line_words(line@),
{
    let trimmed: Vec<char> = trim(line);
    split(&trimmed)
}

/// Whether the characters at a position begin with the prefix.
fn starts_with(chars: &Vec<char>, start: usize, prefix: &Vec<char>) -> (result: bool)
    requires
        start <= chars@.len(),
    ensures
        result == prefix@.is_prefix_of(chars@.skip(start as int)),
{
    let len: usize = chars.len();
    if prefix.len() > len - start {
        return false;
    }
    let mut i: usize = 0;
    while i < prefix.len()
        invariant
            i <= prefix@.len(),
            start + prefix@.len() <= chars@.len() == len,
            forall|j: int| 0 <= j < i ==> prefix@[j] == chars@[start + j],
        decreases prefix@.len() - i,
    {
        if prefix[i] != chars[start + i] {
            assert(chars@.skip(start as int)[i as int] != prefix@[i as int]);
            return false;
        }
        i += 1;
    }
    assert(prefix@ =~= chars@.skip(start as int).take(prefix@.len() as int));
    true
}

/// Strips a prefix, however often the characters begin with it.
pub(crate) fn without_prefixes(chars: &Vec<char>, prefix: &str) -> (stripped: Vec<char>)
    ensures
        stripped@ == strip_prefixes(chars@, prefix@),
{
    let prefix: Vec<char> = to_chars(prefix);
    let len: usize = chars.len();
    let mut start: usize = 0;
    assert(chars@.skip(0) =~= chars@);
    while prefix.len() > 0 && starts_with(chars, start, &prefix)
        invariant
            start <= chars@.len() == len,
            strip_prefixes(chars@, prefix@) == strip_prefixes(chars@.skip(start as int), prefix@),
        decreases chars@.len() - start,
    {
        assert(chars@.skip(start as int).skip(prefix@.len() as int) =~= chars@.skip(
            start + prefix@.len(),
        ));
        start += prefix.len();
    }
    assert(chars@.skip(start as int) =~= chars@.subrange(start as int, chars@.len() as int));
    part(chars, start, len)
}

/// Strips the colons that the characters end with.
pub(crate) fn without_colons(chars: &Vec<char>) -> (stripped: Vec<char>)
    ensures
        stripped@ == strip_colons(chars@),
{
    let mut end: usize = chars.len();
    assert(chars@.take(end as int) =~= chars@);
    while end > 0 && chars[end - 1] == ':'
        invariant
            end <= chars@.len(),
            strip_colons(chars@) == strip_colons(chars@.take(end as int)),
        decreases end,
    {
        assert(chars@.take(end as int).drop_last() =~= chars@.take(end - 1));
        end -= 1;
    }
    assert(chars@.take(end as int) =~= chars@.subrange(0, end as int));
    part(chars, 0, end)
}

/// The value of a hexadecimal digit, of either case.
pub open spec fn digit_value(c: char) -> Option<nat> {
    if '0' <= c <= '9' {
        Some((c as int - 48) as nat)
    } else if 'a' <= c <= 'f' {
        Some((c as int - 87) as nat)
    } else if 'A' <= c <= 'F' {
        Some((c as int - 55) as nat)
    } else {
        None
    }
}

/// Why a text is not that of an address.
#[derive(Clone, Copy, Debug, PartialEq, Eq)]
pub enum AddressError {
    /// It is empty.
    Empty,
    /// A character is no hexadecimal digit, or there is but a sign.
    InvalidDigit,
    /// The number is too large for an address.
    TooLarge,
}

impl AddressError {
    /// What the error says.
    pub fn message(&self) -> (message: &'static str)
        ensures
            message@ == match self {
                AddressError::Empty => "cannot parse integer from empty string"@,
                AddressError::InvalidDigit => "invalid digit found in string"@,
                AddressError::TooLarge => "number too large to fit in target type"@,
            },
    {
        match self {
            AddressError::Empty => "cannot parse integer from empty string",
            AddressError::InvalidDigit => "invalid digit found in string",
            AddressError::TooLarge => "number too large to fit in target type",
        }
    }
}

/// The address that some hexadecimal digits stand for. The first character counts that is no
/// digit, or with which the number becomes too large.
pub open spec fn hex_number(digits: Seq<char>) -> Result<usize, AddressError>
    decreases digits.len(),
{
    if digits.len() == 0 {
        Ok(0)
    } else {
        match hex_number(digits.drop_last()) {
            Err(error) => Err(error),
            Ok(number) => match digit_value(digits.last()) {
                None => Err(AddressError::InvalidDigit),
                Some(digit) => if number * 16 + digit > usize::MAX {
                    Err(AddressError::TooLarge)
                } else {
                    Ok((number * 16 + digit) as usize)
                },
            },
        }
    }
}

/// The address that a text stands for: hexadecimal digits, which may follow a plus sign.
pub open spec fn parse_hex(text: Seq<char>) -> Result<usize, AddressError> {
    if text.len() == 0 {
        Err(AddressError::Empty)
    } else {
        let digits = if text[0] == '+' {
            text.drop_first()
        } else {
            text
        };
        if digits.len() == 0 {
            Err(AddressError::InvalidDigit)
        } else {
            hex_number(digits)
        }
    }
}

/// The value of a hexadecimal digit.
fn digit_of(c: char) -> (value: Option<u8>)
    ensures
        match value {
            Some(value) => value < 16 && digit_value(c) == Some(value as nat),
            None => digit_value(c) is None,
        },
{
    if '0' <= c && c <= '9' {
        Some((c as u32 - 48) as u8)
    } else if 'a' <= c && c <= 'f' {
        Some((c as u32 - 87) as u8)
    } else if 'A' <= c && c <= 'F' {
        Some((c as u32 - 55) as u8)
    } else {
        None
    }
}

/// Characters that are no number do not become one by more of them.
proof fn lemma_hex_number_fails(digits: Seq<char>, count: int)
    requires
        0 <= count <= digits.len(),
        hex_number(digits.take(count)) is Err,
    ensures
        hex_number(digits) == hex_number(digits.take(count)),
    decreases digits.len(),
{
    if count < digits.len() {
        assert(digits.drop_last().take(count) =~= digits.take(count));
        lemma_hex_number_fails(digits.drop_last(), count);
    } else {
        assert(digits.take(count) =~= digits);
    }
}

/// Reads an address.
pub(crate) fn read_hex(chars: &Vec<char>) -> (address: Result<usize, AddressError>)
    ensures
        address == parse_hex(chars@),
{
    if chars.len() == 0 {
        return Err(AddressError::Empty);
    }
    let start: usize = if chars[0] == '+' { 1 } else { 0 };
    if chars.len() == start {
        return Err(AddressError::InvalidDigit);
    }
    let ghost digits = chars@.skip(start as int);
    assert(digits =~= if start == 1 { chars@.drop_first() } else { chars@ });
    let mut number: usize = 0;
    let mut i: usize = start;
    assert(digits.take(0) =~= Seq::empty());
    while i < chars.len()
        invariant
            start <= i <= chars@.len(),
            digits == chars@.skip(start as int),
            parse_hex(chars@) == hex_number(digits),
            hex_number(digits.take(i - start)) == Ok::<usize, AddressError>(number),
        decreases chars@.len() - i,
    {
        let ghost next = digits.take(i + 1 - start);
        assert(next.drop_last() =~= digits.take(i - start));
        assert(next.last() == chars@[i as int]);
        match digit_of(chars[i]) {
            Some(digit) => {
                if number > (usize::MAX - digit as usize) / 16 {
                    assert(number * 16 + digit > usize::MAX);
                    proof {
                        lemma_hex_number_fails(digits, i + 1 - start);
                    }
                    return Err(AddressError::TooLarge);
                }
                number = number * 16 + digit as usize;
            },
            None => {
                proof {
                    lemma_hex_number_fails(digits, i + 1 - start);
                }
                return Err(AddressError::InvalidDigit);
            },
        }
        i += 1;
    }
    assert(digits.take(i - start) =~= digits);
    Ok(number)
}

/// The number of decimal digits that a text begins with.
pub open spec fn digit_run(text: Seq<char>) -> nat
    decreases text.len(),
{
    if text.len() > 0 && '0' <= text.first() <= '9' {
        1 + digit_run(text.drop_first())
    } else {
        0
    }
}

/// A text without the sign that it may begin with.
pub open spec fn without_sign(text: Seq<char>) -> Seq<char> {
    if text.len() > 0 && (text[0] == '+' || text[0] == '-') {
        text.drop_first()
    } else {
        text
    }
}

/// Whether a text is an exponent, or nothing.
pub open spec fn is_exponent(text: Seq<char>) -> bool {
    ||| text.len() == 0
    ||| {
        &&& text[0] == 'e' || text[0] == 'E'
        &&& without_sign(text.drop_first()).len() > 0
        &&& digit_run(without_sign(text.drop_first())) == without_sign(text.drop_first()).len()
    }
}

/// What follows the decimal digits that a text begins with.
pub open spec fn behind_digits(text: Seq<char>) -> Seq<char> {
    text.skip(digit_run(text) as int)
}

/// Whether a text is a decimal number: digits, with or without a point among or around them, and
/// maybe an exponent.
pub open spec fn is_decimal(text: Seq<char>) -> bool {
    let rest = behind_digits(text);
    if rest.len() > 0 && rest[0] == '.' {
        &&& digit_run(text) + digit_run(rest.drop_first()) > 0
        &&& is_exponent(behind_digits(rest.drop_first()))
    } else {
        digit_run(text) > 0 && is_exponent(rest)
    }
}

/// Whether a text is a word, in any case of its letters.
pub open spec fn is_word(text: Seq<char>, lower: Seq<char>) -> bool {
    &&& text.len() == lower.len()
    &&& forall|i: int|
        0 <= i < text.len() ==> #[trigger] text[i] == lower[i] || text[i] as int + 32
            == lower[i] as int
}

/// Whether a text is that of a double-precision number: a decimal number, an infinity or a NaN,
/// which may follow a sign.
pub open spec fn is_float(text: Seq<char>) -> bool {
    let body = without_sign(text);
    ||| is_decimal(body)
    ||| is_word(body, seq!['i', 'n', 'f'])
    ||| is_word(body, seq!['i', 'n', 'f', 'i', 'n', 'i', 't', 'y'])
    ||| is_word(body, seq!['n', 'a', 'n'])
}

/// Why a text is not that of a double-precision number.
#[derive(Clone, Copy, Debug, PartialEq, Eq)]
pub enum FloatError {
    /// It is empty.
    Empty,
    /// It is something else.
    Invalid,
}

impl FloatError {
    /// What the error says.
    pub fn message(&self) -> (message: &'static str)
        ensures
            message@ == match self {
                FloatError::Empty => "cannot parse float from empty string"@,
                FloatError::Invalid => "invalid float literal"@,
            },
    {
        match self {
            FloatError::Empty => "cannot parse float from empty string",
            FloatError::Invalid => "invalid float literal",
        }
    }
}

/// Why a text is not that of a double-precision number, or `None` if it is.
pub open spec fn float_error(text: Seq<char>) -> Option<FloatError> {
    if is_float(text) {
        None
    } else if text.len() == 0 {
        Some(FloatError::Empty)
    } else {
        Some(FloatError::Invalid)
    }
}

/// The number of decimal digits at a position.
fn count_digits(chars: &Vec<char>, start: usize) -> (count: usize)
    requires
        start <= chars@.len(),
    ensures
        count == digit_run(chars@.skip(start as int)),
        start + count <= chars@.len(),
{
    let mut i: usize = start;
    while i < chars.len() && '0' <= chars[i] && chars[i] <= '9'
        invariant
            start <= i <= chars@.len(),
            digit_run(chars@.skip(start as int)) == (i - start) + digit_run(chars@.skip(i as int)),
        decreases chars@.len() - i,
    {
        assert(chars@.skip(i as int).drop_first() =~= chars@.skip(i + 1));
        i += 1;
    }
    i - start
}

/// The position behind the sign that may be at a position.
fn skip_sign(chars: &Vec<char>, start: usize) -> (behind: usize)
    requires
        start <= chars@.len(),
    ensures
        start <= behind <= chars@.len(),
        chars@.skip(behind as int) == without_sign(chars@.skip(start as int)),
{
    if start < chars.len() && (chars[start] == '+' || chars[start] == '-') {
        assert(chars@.skip(start + 1) =~= chars@.skip(start as int).drop_first());
        start + 1
    } else {
        start
    }
}

/// Whether the characters from a position on are an exponent, or none are left.
fn check_exponent(chars: &Vec<char>, start: usize) -> (result: bool)
    requires
        start <= chars@.len(),
    ensures
        result == is_exponent(chars@.skip(start as int)),
{
    if start == chars.len() {
        return true;
    }
    if chars[start] != 'e' && chars[start] != 'E' {
        return false;
    }
    assert(chars@.skip(start + 1) =~= chars@.skip(start as int).drop_first());
    let digits: usize = skip_sign(chars, start + 1);
    digits < chars.len() && count_digits(chars, digits) == chars.len() - digits
}

/// Whether the characters from a position on are a decimal number.
fn check_decimal(chars: &Vec<char>, start: usize) -> (result: bool)
    requires
        start <= chars@.len(),
    ensures
        result == is_decimal(chars@.skip(start as int)),
{
    let len: usize = chars.len();
    let whole: usize = count_digits(chars, start);
    let point: usize = start + whole;
    assert(chars@.skip(point as int) =~= behind_digits(chars@.skip(start as int)));
    if point < len && chars[point] == '.' {
        assert(chars@.skip(point + 1) =~= chars@.skip(point as int).drop_first());
        let fraction: usize = count_digits(chars, point + 1);
        let behind: usize = point + 1 + fraction;
        assert(chars@.skip(behind as int) =~= behind_digits(chars@.skip(point + 1)));
        (whole > 0 || fraction > 0) && check_exponent(chars, behind)
    } else {
        whole > 0 && check_exponent(chars, point)
    }
}

/// Whether the characters from a position on are a word, in any case of its letters.
fn check_word(chars: &Vec<char>, start: usize, lower: &Vec<char>) -> (result: bool)
    requires
        start <= chars@.len(),
        forall|i: int| 0 <= i < lower@.len() ==> 'a' <= #[trigger] lower@[i] <= 'z',
    ensures
        result == is_word(chars@.skip(start as int), lower@),
{
    let ghost text = chars@.skip(start as int);
    let len: usize = chars.len();
    if len - start != lower.len() {
        return false;
    }
    let mut i: usize = 0;
    while i < lower.len()
        invariant
            i <= lower@.len(),
            text == chars@.skip(start as int),
            start + lower@.len() == chars@.len() == len,
            forall|j: int| 0 <= j < lower@.len() ==> 'a' <= #[trigger] lower@[j] <= 'z',
            forall|j: int|
                0 <= j < i ==> #[trigger] text[j] == lower@[j] || text[j] as int + 32
                    == lower@[j] as int,
        decreases lower@.len() - i,
    {
        let c: char = chars[start + i];
        assert(text[i as int] == c);
        let upper: bool = 'A' <= c && c <= 'Z' && c as u32 + 32 == lower[i] as u32;
        if c != lower[i] && !upper {
            return false;
        }
        i += 1;
    }
    true
}

/// Tells why a text is not that of a double-precision number, if it is not.
pub(crate) fn check_float(chars: &Vec<char>) -> (error: Option<FloatError>)
    ensures
        error == float_error(chars@),
{
    assert(chars@.skip(0) =~= chars@);
    let start: usize = skip_sign(chars, 0);
    let inf: Vec<char> = vec!['i', 'n', 'f'];
    let infinity: Vec<char> = vec!['i', 'n', 'f', 'i', 'n', 'i', 't', 'y'];
    let nan: Vec<char> = vec!['n', 'a', 'n'];
    assert(inf@ =~= seq!['i', 'n', 'f']);
    assert(infinity@ =~= seq!['i', 'n', 'f', 'i', 'n', 'i', 't', 'y']);
    assert(nan@ =~= seq!['n', 'a', 'n']);
    let valid: bool = check_decimal(chars, start) || check_word(chars, start, &inf)
        || check_word(chars, start, &infinity) || check_word(chars, start, &nan);
    if valid {
        None
    } else if chars.len() == 0 {
        Some(FloatError::Empty)
    } else {
        Some(FloatError::Invalid)
    }
}

} // verus!
