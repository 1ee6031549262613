//! The heap dumps of jemalloc.

use vstd::prelude::*;
use vstd::utf8::{decode_utf8, valid_utf8};

use crate::double::Double;
use crate::mappings::{copy_bytes, mapping_views, Mapping, MappingView};
use crate::profile::{StackProfile, StackView, WeightedStack};
use crate::text::{
    check_float, float_error, line_words, parse_hex, read_hex, split_line, strip_colons,
    strip_prefixes, to_chars, to_text, without_colons, without_prefixes, word_views, AddressError,
    FloatError,
};

verus! {

/// Why a heap dump could not be read.
#[derive(Clone, Copy, Debug, PartialEq, Eq)]
pub enum ParseError {
    /// Heap dump file was empty.
    Empty,
    /// The file could not be read to its end.
    Read,
    /// A line is not UTF-8.
    InvalidUtf8,
    /// The sampling rate is not a number.
    InvalidSamplingRate(FloatError),
    /// An address is not a hexadecimal number.
    InvalidAddress(AddressError),
    /// The number of sampled allocations is not a number.
    InvalidObjectCount(FloatError),
    /// The number of bytes of the sampled allocations is not a number.
    InvalidByteCount(FloatError),
    /// Stack without corresponding weight.
    StackWithoutWeight,
}

/// What an error about a double-precision number says.
pub open spec fn float_message(error: FloatError) -> Seq<char> {
    match error {
        FloatError::Empty => "cannot parse float from empty string"@,
        FloatError::Invalid => "invalid float literal"@,
    }
}

impl ParseError {
    /// What the error says.
    pub fn message(&self) -> (message: &'static str)
        ensures
            message@ == match *self {
                ParseError::Empty => "Heap dump file was empty"@,
                ParseError::Read => "the heap dump could not be read to its end"@,
                ParseError::InvalidUtf8 => "stream did not contain valid UTF-8"@,
                ParseError::InvalidSamplingRate(error) => float_message(error),
                ParseError::InvalidAddress(AddressError::Empty) => {
                    "cannot parse integer from empty string"@
                },
                ParseError::InvalidAddress(AddressError::InvalidDigit) => {
                    "invalid digit found in string"@
                },
                ParseError::InvalidAddress(AddressError::TooLarge) => {
                    "number too large to fit in target type"@
                },
                ParseError::InvalidObjectCount(error) => float_message(error),
                ParseError::InvalidByteCount(error) => float_message(error),
                ParseError::StackWithoutWeight => "Stack without corresponding weight!"@,
            },
    {
        match self {
            ParseError::Empty => "Heap dump file was empty",
            ParseError::Read => "the heap dump could not be read to its end",
            ParseError::InvalidUtf8 => "stream did not contain valid UTF-8",
            ParseError::InvalidSamplingRate(error) => error.message(),
            ParseError::InvalidAddress(error) => error.message(),
            ParseError::InvalidObjectCount(error) => error.message(),
            ParseError::InvalidByteCount(error) => error.message(),
            ParseError::StackWithoutWeight => "Stack without corresponding weight!",
        }
    }
}

/// A stack of a heap dump, with what was sampled on it.
#[derive(Debug, PartialEq, Eq)]
pub struct HeapSample {
    /// The addresses of the stack, the outermost one first.
    pub addrs: Vec<usize>,
    /// The number of sampled allocations. This is the text of a double-precision number.
    pub n_objs: String,
    /// The total number of bytes in those allocations. This is the text of a double-precision
    /// number.
    pub bytes_in_sampled_objs: String,
}

/// The values of a [`HeapSample`].
pub struct HeapSampleView {
    pub addrs: Seq<usize>,
    pub n_objs: Seq<char>,
    pub bytes_in_sampled_objs: Seq<char>,
}

impl View for HeapSample {
    type V = HeapSampleView;

    open spec fn view(&self) -> HeapSampleView {
        HeapSampleView {
            addrs: self.addrs@,
            n_objs: self.n_objs@,
            bytes_in_sampled_objs: self.bytes_in_sampled_objs@,
        }
    }
}

/// The values of some samples.
pub open spec fn heap_sample_views(samples: Seq<HeapSample>) -> Seq<HeapSampleView> {
    samples.map_values(|sample: HeapSample| sample@)
}

/// What a heap dump holds.
#[derive(Debug, PartialEq, Eq)]
pub struct HeapDump {
    /// The inverse probability of a byte being sampled. This is the text of a double-precision
    /// number.
    pub sampling_rate: String,
    pub samples: Vec<HeapSample>,
}

/// The values of a [`HeapDump`].
pub struct HeapDumpView {
    pub sampling_rate: Seq<char>,
    pub samples: Seq<HeapSampleView>,
}

impl View for HeapDump {
    type V = HeapDumpView;

    open spec fn view(&self) -> HeapDumpView {
        HeapDumpView {
            sampling_rate: self.sampling_rate@,
            samples: heap_sample_views(self.samples@),
        }
    }
}

/// A line without the carriage return that it may end with.
pub open spec fn without_return(line: Seq<u8>) -> Seq<u8> {
    if line.len() > 0 && line.last() == 13 {
        line.drop_last()
    } else {
        line
    }
}

/// The lines that end in a line feed, and what follows the last one.
pub open spec fn split_lines(contents: Seq<u8>) -> (Seq<Seq<u8>>, Seq<u8>)
    decreases contents.len(),
{
    if contents.len() == 0 {
        (Seq::empty(), Seq::empty())
    } else {
        let (lines, rest) = split_lines(contents.drop_last());
        if contents.last() == 10 {
            (lines.push(without_return(rest)), Seq::empty())
        } else {
            (lines, rest.push(contents.last()))
        }
    }
}

/// The lines of a file. What follows the last line feed is a line if there is anything, and the
/// file was read to its end.
pub open spec fn file_lines(contents: Seq<u8>, complete: bool) -> Seq<Seq<u8>> {
    let (lines, rest) = split_lines(contents);
    if complete && rest.len() > 0 {
        lines.push(rest)
    } else {
        lines
    }
}

/// The addresses that some words stand for. Each may follow the prefix of a hexadecimal number.
/// The first word counts that stands for none.
pub open spec fn parse_addresses(words: Seq<Seq<char>>) -> Result<Seq<usize>, AddressError>
    decreases words.len(),
{
    if words.len() == 0 {
        Ok(Seq::empty())
    } else {
        match parse_addresses(words.drop_last()) {
            Err(error) => Err(error),
            Ok(addresses) => match parse_hex(strip_prefixes(words.last(), "0x"@)) {
                Ok(address) => Ok(addresses.push(address)),
                Err(error) => Err(error),
            },
        }
    }
}

/// How far a dump is read: the stack whose weight is still to come, and the samples.
pub struct Progress {
    pub stack: Option<Seq<usize>>,
    pub samples: Seq<HeapSampleView>,
}

/// What one more line does.
///
/// A line that begins with `@` lists the addresses of a stack, the innermost one first. One that
/// begins with `t*:` holds its weight, summed up over all threads: the number of sampled
/// allocations, then the number of bytes in them. All other lines are skipped, and so is a weight
/// that no stack precedes.
pub open spec fn read_line(
    progress: Progress,
    line: Seq<char>,
) -> Result<Progress, ParseError> {
    let words = line_words(line);
    if words.len() > 0 && words[0] == "@"@ {
        if progress.stack is Some {
            Err(ParseError::StackWithoutWeight)
        } else {
            match parse_addresses(words.drop_first()) {
                Ok(addresses) => Ok(
                    Progress { stack: Some(addresses.reverse()), samples: progress.samples },
                ),
                Err(error) => Err(ParseError::InvalidAddress(error)),
            }
        }
    } else if words.len() > 2 && words[0] == "t*:"@ {
        match progress.stack {
            Some(addrs) => {
                let n_objs = strip_colons(words[1]);
                let bytes_in_sampled_objs = words[2];
                match (float_error(n_objs), float_error(bytes_in_sampled_objs)) {
                    (Some(error), _) => Err(ParseError::InvalidObjectCount(error)),
                    (None, Some(error)) => Err(ParseError::InvalidByteCount(error)),
                    (None, None) => {
                        let sample = HeapSampleView { addrs, n_objs, bytes_in_sampled_objs };
                        Ok(Progress { stack: None, samples: progress.samples.push(sample) })
                    },
                }
            },
            None => Ok(progress),
        }
    } else {
        Ok(progress)
    }
}

/// What some lines do, one after the other, up to the first one that fails.
pub open spec fn read_lines(lines: Seq<Seq<u8>>) -> Result<Progress, ParseError>
    decreases lines.len(),
{
    if lines.len() == 0 {
        Ok(Progress { stack: None, samples: Seq::empty() })
    } else {
        match read_lines(lines.drop_last()) {
            Ok(progress) => if valid_utf8(lines.last()) {
                read_line(progress, decode_utf8(lines.last()))
            } else {
                Err(ParseError::InvalidUtf8)
            },
            Err(error) => Err(error),
        }
    }
}

/// The sampling rate in the first line of a dump, which is for example `heap_v2/524288`.
pub open spec fn parse_rate(line: Seq<u8>) -> Result<Seq<char>, ParseError> {
    if !valid_utf8(line) {
        Err(ParseError::InvalidUtf8)
    } else {
        let rate = strip_prefixes(decode_utf8(line), "heap_v2/"@);
        match float_error(rate) {
            None => Ok(rate),
            Some(error) => Err(ParseError::InvalidSamplingRate(error)),
        }
    }
}

/// What the contents of a heap dump file are read as. The first error counts.
pub open spec fn parse_dump(
    contents: Seq<u8>,
    complete: bool,
) -> Result<HeapDumpView, ParseError> {
    let lines = file_lines(contents, complete);
    if lines.len() == 0 {
        if complete {
            Err(ParseError::Empty)
        } else {
            Err(ParseError::Read)
        }
    } else {
        match parse_rate(lines.first()) {
            Err(error) => Err(error),
            Ok(sampling_rate) => match read_lines(lines.drop_first()) {
                Err(error) => Err(error),
                Ok(progress) => if !complete {
                    Err(ParseError::Read)
                } else if progress.stack is Some {
                    Err(ParseError::StackWithoutWeight)
                } else {
                    Ok(HeapDumpView { sampling_rate, samples: progress.samples })
                },
            },
        }
    }
}

/// The bytes of some lines.
spec fn line_views(lines: Seq<Vec<u8>>) -> Seq<Seq<u8>> {
    lines.map_values(|line: Vec<u8>| line@)
}

/// Splits the contents of a file into its lines.
fn to_lines(contents: &[u8], complete: bool) -> (lines: Vec<Vec<u8>>)
    ensures
        line_views(lines@) == file_lines(contents@, complete),
{
    let mut lines: Vec<Vec<u8>> = Vec::new();
    let mut rest: Vec<u8> = Vec::new();
    let mut i: usize = 0;
    assert(line_views(lines@) =~= Seq::empty());
    while i < contents.len()
        invariant
            i <= contents@.len(),
            split_lines(contents@.take(i as int)) == (line_views(lines@), rest@),
        decreases contents@.len() - i,
    {
        let byte: u8 = contents[i];
        assert(contents@.take(i + 1).drop_last() =~= contents@.take(i as int));
        if byte == 10 {
            let ghost line = rest@;
            let ghost before = line_views(lines@);
            if rest.len() > 0 && rest[rest.len() - 1] == 13 {
                rest.pop();
            }
            assert(rest@ =~= without_return(line));
            lines.push(rest);
            assert(line_views(lines@) =~= before.push(without_return(line)));
            rest = Vec::new();
        } else {
            rest.push(byte);
        }
        i += 1;
    }
    assert(contents@.take(i as int) =~= contents@);
    if complete && rest.len() > 0 {
        let ghost before = line_views(lines@);
        let ghost line = rest@;
        lines.push(rest);
        assert(line_views(lines@) =~= before.push(line));
    }
    lines
}

/// Decodes a line, with `String::from_utf8`.
///
/// Claimed is that it gives the text of which the bytes are the UTF-8, and fails if they are the
/// UTF-8 of none.
#[verifier::external_body]
fn decode_line(line: Vec<u8>) -> (text: Option<String>)
    ensures
        match text {
            Some(text) => valid_utf8(line@) && text@ == decode_utf8(line@),
            None => !valid_utf8(line@),
        },
{
    String::from_utf8(line).ok()
}

/// Whether a word is the given one.
fn equals(word: &Vec<char>, text: &str) -> (result: bool)
    ensures
        result == (word@ == text@),
{
    let chars: Vec<char> = to_chars(text);
    if word.len() != chars.len() {
        return false;
    }
    let mut i: usize = 0;
    while i < word.len()
        invariant
            i <= word@.len(),
            chars@ == text@,
            word@.len() == chars@.len(),
            word@.take(i as int) == chars@.take(i as int),
        decreases word@.len() - i,
    {
        if word[i] != chars[i] {
            assert(word@[i as int] != chars@[i as int]);
            return false;
        }
        assert(word@.take(i + 1) =~= word@.take(i as int).push(word@[i as int]));
        assert(chars@.take(i + 1) =~= chars@.take(i as int).push(chars@[i as int]));
        i += 1;
    }
    assert(word@.take(i as int) =~= word@);
    assert(chars@.take(i as int) =~= text@);
    true
}

/// Reads the addresses of the words behind the first one.
fn read_addresses(words: &Vec<Vec<char>>) -> (addresses: Result<Vec<usize>, AddressError>)
    requires
        words@.len() > 0,
    ensures
        match addresses {
            Ok(addresses) => parse_addresses(word_views(words@).drop_first()) == Ok::<
                Seq<usize>,
                AddressError,
            >(addresses@),
            Err(error) => parse_addresses(word_views(words@).drop_first()) == Err::<
                Seq<usize>,
                AddressError,
            >(error),
        },
{
    let ghost all = word_views(words@).drop_first();
    let mut addresses: Vec<usize> = Vec::new();
    let mut i: usize = 1;
    assert(all.take(0) =~= Seq::empty());
    while i < words.len()
        invariant
            1 <= i <= words@.len(),
            all == word_views(words@).drop_first(),
            parse_addresses(all.take(i - 1)) == Ok::<Seq<usize>, AddressError>(addresses@),
        decreases words@.len() - i,
    {
        let raw: Vec<char> = without_prefixes(&words[i], "0x");
        assert(all.take(i as int).drop_last() =~= all.take(i - 1));
        assert(all.take(i as int).last() == words@[i as int]@);
        match read_hex(&raw) {
            Ok(address) => {
                addresses.push(address);
            },
            Err(error) => {
                proof {
                    lemma_addresses_fail(all, i as int);
                }
                return Err(error);
            },
        }
        i += 1;
    }
    assert(all.take(i - 1) =~= all);
    Ok(addresses)
}

/// Words that are no addresses do not become such by more of them.
proof fn lemma_addresses_fail(words: Seq<Seq<char>>, count: int)
    requires
        0 <= count <= words.len(),
        parse_addresses(words.take(count)) is Err,
    ensures
        parse_addresses(words) == parse_addresses(words.take(count)),
    decreases words.len(),
{
    if count < words.len() {
        assert(words.drop_last().take(count) =~= words.take(count));
        lemma_addresses_fail(words.drop_last(), count);
    } else {
        assert(words.take(count) =~= words);
    }
}

/// The items in reverse order.
fn reversed(items: Vec<usize>) -> (result: Vec<usize>)
    ensures
        result@ == items@.reverse(),
{
    let mut result: Vec<usize> = Vec::new();
    let len: usize = items.len();
    let mut i: usize = 0;
    while i < len
        invariant
            i <= len == items@.len(),
            result@ == items@.reverse().take(i as int),
        decreases len - i,
    {
        result.push(items[len - 1 - i]);
        assert(items@.reverse().take(i + 1) =~= items@.reverse().take(i as int).push(
            items@[len - 1 - i],
        ));
        i += 1;
    }
    assert(items@.reverse().take(i as int) =~= items@.reverse());
    result
}

/// What was read so far: the stack whose weight is still to come, and the samples.
struct Parser {
    cur_stack: Option<Vec<usize>>,
    samples: Vec<HeapSample>,
}

impl Parser {
    /// How far the dump is read.
    closed spec fn progress(self) -> Progress {
        Progress {
            stack: match self.cur_stack {
                Some(stack) => Some(stack@),
                None => None,
            },
            samples: heap_sample_views(self.samples@),
        }
    }

    /// Reads a line that lists the addresses of a stack.
    fn read_stack(&mut self, words: &Vec<Vec<char>>, Ghost(line): Ghost<Seq<char>>) -> (result:
        Result<(), ParseError>)
        requires
            word_views(words@) == line_words(line),
            words@.len() > 0,
            words@[0]@ == "@"@,
        ensures
            match result {
                Ok(_) => read_line(old(self).progress(), line) == Ok::<Progress, ParseError>(
                    final(self).progress(),
                ),
                Err(error) => read_line(old(self).progress(), line) == Err::<
                    Progress,
                    ParseError,
                >(error),
            },
    {
        assert(line_words(line)[0] == words@[0]@);
        if self.cur_stack.is_some() {
            return Err(ParseError::StackWithoutWeight);
        }
        match read_addresses(words) {
            Ok(addresses) => {
                self.cur_stack = Some(reversed(addresses));
                Ok(())
            },
            Err(error) => Err(ParseError::InvalidAddress(error)),
        }
    }

    /// Reads a line that holds the weight of a stack.
    fn read_weight(
        &mut self,
        words: &Vec<Vec<char>>,
        addrs: Vec<usize>,
        Ghost(line): Ghost<Seq<char>>,
    ) -> (result: Result<(), ParseError>)
        requires
            word_views(words@) == line_words(line),
            words@.len() > 2,
            words@[0]@ == "t*:"@,
        ensures
            match result {
                Ok(_) => read_line(
                    Progress { stack: Some(addrs@), samples: old(self).progress().samples },
                    line,
                ) == Ok::<Progress, ParseError>(
                    Progress { stack: None, samples: final(self).progress().samples },
                ),
                Err(error) => read_line(
                    Progress { stack: Some(addrs@), samples: old(self).progress().samples },
                    line,
                ) == Err::<Progress, ParseError>(error),
            },
            final(self).cur_stack == old(self).cur_stack,
    {
        assert("t*:"@ != "@"@) by {
            reveal_strlit("t*:");
            reveal_strlit("@");
            assert("t*:"@.len() != "@"@.len());
        }
        assert(line_words(line)[0] == words@[0]@);
        assert(line_words(line)[1] == words@[1]@);
        assert(line_words(line)[2] == words@[2]@);
        let n_objs: Vec<char> = without_colons(&words[1]);
        if let Some(error) = check_float(&n_objs) {
            return Err(ParseError::InvalidObjectCount(error));
        }
        if let Some(error) = check_float(&words[2]) {
            return Err(ParseError::InvalidByteCount(error));
        }
        let ghost before = heap_sample_views(self.samples@);
        let sample = HeapSample {
            addrs,
            n_objs: to_text(&n_objs),
            bytes_in_sampled_objs: to_text(&words[2]),
        };
        let ghost view = sample@;
        self.samples.push(sample);
        assert(heap_sample_views(self.samples@) =~= before.push(view));
        Ok(())
    }

    /// Reads one more line.
    fn read(&mut self, line: &str) -> (result: Result<(), ParseError>)
        ensures
            match result {
                Ok(_) => read_line(old(self).progress(), line@) == Ok::<Progress, ParseError>(
                    final(self).progress(),
                ),
                Err(error) => read_line(old(self).progress(), line@) == Err::<
                    Progress,
                    ParseError,
                >(error),
            },
    {
        let chars: Vec<char> = to_chars(line);
        let words: Vec<Vec<char>> = split_line(&chars);
        if words.len() > 0 {
            assert(word_views(words@)[0] == words@[0]@);
            if equals(&words[0], "@") {
                return self.read_stack(&words, Ghost(line@));
            }
            if words.len() > 2 && equals(&words[0], "t*:") {
                match self.cur_stack.take() {
                    Some(addrs) => {
                        return self.read_weight(&words, addrs, Ghost(line@));
                    },
                    None => {},
                }
            }
        }
        Ok(())
    }
}

/// Reads the sampling rate in the first line.
fn read_rate(line: Vec<u8>) -> (rate: Result<String, ParseError>)
    ensures
        match rate {
            Ok(rate) => parse_rate(line@) == Ok::<Seq<char>, ParseError>(rate@),
            Err(error) => parse_rate(line@) == Err::<Seq<char>, ParseError>(error),
        },
{
    match decode_line(line) {
        Some(text) => {
            let chars: Vec<char> = to_chars(text.as_str());
            let rate: Vec<char> = without_prefixes(&chars, "heap_v2/");
            match check_float(&rate) {
                None => Ok(to_text(&rate)),
                Some(error) => Err(ParseError::InvalidSamplingRate(error)),
            }
        },
        None => Err(ParseError::InvalidUtf8),
    }
}

/// Lines that cannot be read do not become readable by more of them.
proof fn lemma_read_fails(lines: Seq<Seq<u8>>, count: int)
    requires
        0 <= count <= lines.len(),
        read_lines(lines.take(count)) is Err,
    ensures
        read_lines(lines) == read_lines(lines.take(count)),
    decreases lines.len(),
{
    if count < lines.len() {
        assert(lines.drop_last().take(count) =~= lines.take(count));
        lemma_read_fails(lines.drop_last(), count);
    } else {
        assert(lines.take(count) =~= lines);
    }
}

/// Reads the lines behind the first one.
fn read_samples(lines: &Vec<Vec<u8>>) -> (parser: Result<Parser, ParseError>)
    requires
        lines@.len() > 0,
    ensures
        match parser {
            Ok(parser) => read_lines(line_views(lines@).drop_first()) == Ok::<
                Progress,
                ParseError,
            >(parser.progress()),
            Err(error) => read_lines(line_views(lines@).drop_first()) == Err::<
                Progress,
                ParseError,
            >(error),
        },
{
    let ghost all = line_views(lines@).drop_first();
    let mut parser = Parser { cur_stack: None, samples: Vec::new() };
    let mut i: usize = 1;
    assert(all.take(0) =~= Seq::empty());
    assert(parser.progress().samples =~= Seq::empty());
    while i < lines.len()
        invariant
            1 <= i <= lines@.len(),
            all == line_views(lines@).drop_first(),
            read_lines(all.take(i - 1)) == Ok::<Progress, ParseError>(parser.progress()),
        decreases lines@.len() - i,
    {
        assert(all.take(i as int).drop_last() =~= all.take(i - 1));
        assert(all.take(i as int).last() == lines@[i as int]@);
        let error: ParseError = match decode_line(copy_bytes(&lines[i])) {
            Some(text) => match parser.read(text.as_str()) {
                Ok(_) => {
                    i += 1;
                    continue ;
                },
                Err(error) => error,
            },
            None => ParseError::InvalidUtf8,
        };
        proof {
            lemma_read_fails(all, i as int);
        }
        return Err(error);
    }
    assert(all.take(i - 1) =~= all);
    Ok(parser)
}

/// Parse a jemalloc profile file, of which `contents` are the bytes that could be read. The flag
/// says whether these are all of the file, or reading it failed behind them.
pub fn parse_jeheap(contents: &[u8], complete: bool) -> (dump: Result<HeapDump, ParseError>)
    ensures
        match dump {
            Ok(dump) => parse_dump(contents@, complete) == Ok::<HeapDumpView, ParseError>(
                dump@,
            ),
            Err(error) => parse_dump(contents@, complete) == Err::<HeapDumpView, ParseError>(
                error,
            ),
        },
{
    let lines: Vec<Vec<u8>> = to_lines(contents, complete);
    if lines.len() == 0 {
        return if complete {
            Err(ParseError::Empty)
        } else {
            Err(ParseError::Read)
        };
    }
    assert(line_views(lines@)[0] == lines@[0]@);
    let sampling_rate: String = match read_rate(copy_bytes(&lines[0])) {
        Ok(rate) => rate,
        Err(error) => {
            return Err(error);
        },
    };
    match read_samples(&lines) {
        Ok(parser) => if !complete {
            Err(ParseError::Read)
        } else if parser.cur_stack.is_some() {
            Err(ParseError::StackWithoutWeight)
        } else {
            Ok(HeapDump { sampling_rate, samples: parser.samples })
        },
        Err(error) => Err(error),
    }
}

impl HeapDump {
    /// Makes the dump into a profile: one stack for each sample, with the weight at the same
    /// position, and the mappings if there are any.
    pub fn into_profile(self, weights: &[Double], mappings: Option<&[Mapping]>) -> (profile:
        StackProfile)
        requires
            weights@.len() == self.samples@.len(),
        ensures
            profile@.wf(),
            profile@.annotations == Seq::<Seq<char>>::empty(),
            profile@.stacks == Seq::new(
                self@.samples.len(),
                |i: int|
                    (
                        StackView { addrs: self@.samples[i].addrs, weight: weights@[i] },
                        None::<usize>,
                    ),
            ),
            profile@.mappings == match mappings {
                Some(mappings) => mapping_views(mappings@),
                None => Seq::<MappingView>::empty(),
            },
    {
        let mut profile = StackProfile::default();
        let ghost stacks = Seq::new(
            self@.samples.len(),
            |i: int|
                (
                    StackView { addrs: self@.samples[i].addrs, weight: weights@[i] },
                    None::<usize>,
                ),
        );
        let mut i: usize = 0;
        while i < self.samples.len()
            invariant
                i <= self.samples@.len(),
                weights@.len() == self.samples@.len(),
                stacks.len() == self.samples@.len(),
                forall|j: int|
                    0 <= j < stacks.len() ==> #[trigger] stacks[j] == (
                        StackView { addrs: self@.samples[j].addrs, weight: weights@[j] },
                        None::<usize>,
                    ),
                profile@.wf(),
                profile@.annotations == Seq::<Seq<char>>::empty(),
                profile@.stacks == stacks.take(i as int),
                profile@.mappings == Seq::<MappingView>::empty(),
            decreases self.samples@.len() - i,
        {
            let addrs: Vec<usize> = self.samples[i].addrs.clone();
            assert(addrs@ =~= self.samples@[i as int].addrs@);
            assert(self@.samples[i as int] == self.samples@[i as int]@);
            profile.push_stack(WeightedStack { addrs, weight: weights[i] }, None);
            assert(profile@.stacks =~= stacks.take(i + 1));
            i += 1;
        }
        assert(stacks.take(i as int) =~= stacks);
        if let Some(mappings) = mappings {
            let mut i: usize = 0;
            assert(mapping_views(mappings@).take(0) =~= Seq::empty());
            while i < mappings.len()
                invariant
                    i <= mappings@.len(),
                    profile@.wf(),
                    profile@.annotations == Seq::<Seq<char>>::empty(),
                    profile@.stacks == stacks,
                    profile@.mappings == mapping_views(mappings@).take(i as int),
                decreases mappings@.len() - i,
            {
                profile.push_mapping(mappings[i].clone());
                assert(profile@.mappings =~= mapping_views(mappings@).take(i + 1));
                i += 1;
            }
            assert(mapping_views(mappings@).take(i as int) =~= mapping_views(mappings@));
        }
        profile
    }
}

} // verus!
