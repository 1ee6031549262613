//! A writer of heap dumps, and that what it writes is read back.

use vstd::prelude::*;
use vstd::utf8::{encode_utf8, is_ascii_chars};

use crate::hex::hex_text;
use crate::jeheap::{
    parse_dump, read_lines, HeapDumpView, HeapSampleView, ParseError, Progress,
};
use crate::jeheap_laws::{
    join_lines, law_lines_are_read_back, law_lines_are_read_in_order,
    law_stack_and_weight_make_a_sample, law_words_with_addresses_are_read,
};
use crate::text::{
    is_float, is_separator, line_words, parse_hex, strip_prefixes, AddressError,
};
use crate::text_laws::{
    digit_at, is_gap, is_one_word, is_signed_decimal, is_signed_word, is_trimmed,
    law_addresses_are_read_back, law_colons_are_stripped, law_lines_have_their_words,
    law_nothing_else_is_a_number, law_prefixes_are_stripped, law_texts_have_the_digits, repeated,
    spaced, well_spaced, DecimalParts,
};

verus! {

/// Whether a character is one of those that numbers are made of: not white space, no colon, and
/// one of ASCII.
pub open spec fn is_plain(c: char) -> bool {
    33 <= c as int <= 126 && c != ':'
}

/// Whether all characters are such.
pub open spec fn all_plain(text: Seq<char>) -> bool {
    forall|i: int| 0 <= i < text.len() ==> is_plain(#[trigger] text[i])
}

/// The parts of a decimal number are plain.
proof fn lemma_decimal_is_plain(parts: DecimalParts)
    requires
        parts.wf(),
    ensures
        all_plain(parts.text()),
        parts.text().len() > 0,
        parts.text()[0] != 'h',
{
    let text = parts.text();
    let fraction = parts.fraction_text();
    let exponent = parts.exponent_text();
    assert(all_plain(fraction)) by {
        assert forall|i: int| 0 <= i < fraction.len() implies is_plain(#[trigger] fraction[i]) by {
            if i > 0 {
                assert(fraction[i] == parts.fraction->0[i - 1]);
            }
        }
    }
    assert(all_plain(exponent)) by {
        assert forall|i: int| 0 <= i < exponent.len() implies is_plain(#[trigger] exponent[i]) by {
            let (letter, sign, digits) = parts.exponent->0;
            if i > sign.len() {
                assert(exponent[i] == digits[i - 1 - sign.len()]);
            } else if i > 0 {
                assert(exponent[i] == sign[i - 1]);
            }
        }
    }
    assert forall|i: int| 0 <= i < text.len() implies is_plain(#[trigger] text[i]) by {
        if i < parts.whole.len() {
            assert(text[i] == parts.whole[i]);
        } else if i < parts.whole.len() + fraction.len() {
            assert(text[i] == fraction[i - parts.whole.len()]);
        } else {
            assert(text[i] == exponent[i - parts.whole.len() - fraction.len()]);
        }
    }
    if parts.whole.len() > 0 {
        assert(text[0] == parts.whole[0]);
    } else {
        assert(text[0] == fraction[0]);
    }
}

/// A number is not empty, is made of plain characters, and does not begin as the first line does.
proof fn lemma_float_is_plain(text: Seq<char>)
    requires
        is_float(text),
    ensures
        text.len() > 0,
        all_plain(text),
        text[0] != 'h',
{
    law_nothing_else_is_a_number(text);
    if exists|sign: Seq<char>, parts: DecimalParts| is_signed_decimal(text, sign, parts) {
        let (sign, parts) = choose|sign: Seq<char>, parts: DecimalParts|
            is_signed_decimal(text, sign, parts);
        lemma_decimal_is_plain(parts);
        assert forall|i: int| 0 <= i < text.len() implies is_plain(#[trigger] text[i]) by {
            if i < sign.len() {
                assert(text[i] == sign[i]);
            } else {
                assert(text[i] == parts.text()[i - sign.len()]);
            }
        }
        if sign.len() == 0 {
            assert(text[0] == parts.text()[0]);
        } else {
            assert(text[0] == sign[0]);
        }
    } else {
        let (sign, word) = choose|sign: Seq<char>, word: Seq<char>|
            is_signed_word(text, sign, word);
        reveal_strlit("inf");
        reveal_strlit("infinity");
        reveal_strlit("nan");
        reveal_strlit("INF");
        reveal_strlit("INFINITY");
        reveal_strlit("NAN");
        assert forall|i: int| 0 <= i < text.len() implies is_plain(#[trigger] text[i]) by {
            if i < sign.len() {
                assert(text[i] == sign[i]);
            } else {
                assert(text[i] == word[i - sign.len()]);
            }
        }
        if sign.len() == 0 {
            assert(text[0] == word[0]);
        } else {
            assert(text[0] == sign[0]);
        }
    }
}

/// A plain text is one word, and is not trimmed.
proof fn lemma_plain_is_a_word(text: Seq<char>)
    requires
        all_plain(text),
        text.len() > 0,
    ensures
        is_one_word(text),
        is_trimmed(text),
        text.last() != ':',
{
    assert(is_plain(text[0]));
    assert(is_plain(text[text.len() - 1]));
}

/// The word of an address.
pub open spec fn address_word(address: usize) -> Seq<char> {
    "0x"@ + hex_text(address as nat)
}

/// The word of an address stands for it.
proof fn lemma_address_word(address: usize)
    ensures
        parse_hex(strip_prefixes(address_word(address), "0x"@)) == Ok::<usize, AddressError>(
            address,
        ),
        all_plain(address_word(address)),
        address_word(address).len() > 0,
{
    let text = hex_text(address as nat);
    let word = address_word(address);
    let prefix = "0x"@;
    reveal_strlit("0x");
    reveal_strlit("0123456789abcdef");
    law_texts_have_the_digits(address as nat);
    law_addresses_are_read_back(address);
    assert forall|i: int| 0 <= i < text.len() implies is_plain(#[trigger] text[i]) && text[i]
        != 'x' by {
        let place = (text.len() - 1 - i) as nat;
        assert(text[i] == "0123456789abcdef"@[digit_at(address as int, place)]);
    }
    assert(!prefix.is_prefix_of(text)) by {
        if prefix.is_prefix_of(text) {
            assert(text[1] == prefix[1]);
        }
    }
    assert(repeated(prefix, 1) =~= prefix) by {
        reveal_with_fuel(repeated, 2);
    }
    law_prefixes_are_stripped(prefix, 1, text);
    assert forall|i: int| 0 <= i < word.len() implies is_plain(#[trigger] word[i]) by {
        if i >= 2 {
            assert(word[i] == text[i - 2]);
        }
    }
}

/// One space between two words each, and none around them.
pub open spec fn single_gaps(count: nat) -> Seq<Seq<char>> {
    Seq::new(
        (count + 1) as nat,
        |i: int|
            if 0 < i < count {
                seq![' ']
            } else {
                Seq::empty()
            },
    )
}

/// A line of words with one space between two of them each.
pub open spec fn line_of(list: Seq<Seq<char>>) -> Seq<char> {
    spaced(list, single_gaps(list.len()))
}

/// The first and the last character of a line of words are those of the first and the last word.
proof fn lemma_spaced_ends(list: Seq<Seq<char>>, gaps: Seq<Seq<char>>)
    requires
        well_spaced(list, gaps),
        list.len() > 0,
        gaps[0].len() == 0,
    ensures
        spaced(list, gaps).len() > 0,
        spaced(list, gaps).first() == list[0].first(),
        gaps.last().len() == 0 ==> spaced(list, gaps).last() == list.last().last(),
    decreases list.len(),
{
    let fewer = list.drop_last();
    let before = gaps.drop_last();
    assert(is_one_word(list[list.len() - 1]));
    if fewer.len() > 0 {
        assert forall|i: int| 0 <= i < fewer.len() implies is_one_word(#[trigger] fewer[i]) by {
            assert(fewer[i] == list[i]);
        }
        assert forall|i: int| 0 <= i < before.len() implies is_gap(#[trigger] before[i]) by {
            assert(before[i] == gaps[i]);
        }
        assert forall|i: int| 0 < i < fewer.len() implies (#[trigger] before[i]).len() > 0 by {
            assert(before[i] == gaps[i]);
        }
        lemma_spaced_ends(fewer, before);
    } else {
        assert(spaced(fewer, before) == gaps[0]);
    }
}

/// The characters of a line of words are those of the words, and spaces.
proof fn lemma_spaced_chars(list: Seq<Seq<char>>, gaps: Seq<Seq<char>>)
    requires
        gaps.len() == list.len() + 1,
        forall|i: int|
            0 <= i < list.len() ==> forall|j: int|
                0 <= j < (#[trigger] list[i]).len() ==> 33 <= #[trigger] list[i][j] as int <= 126,
        forall|i: int|
            0 <= i < gaps.len() ==> (#[trigger] gaps[i]).len() == 0 || gaps[i] == seq![' '],
    ensures
        forall|i: int|
            0 <= i < spaced(list, gaps).len() ==> 32 <= #[trigger] spaced(list, gaps)[i] as int
                <= 126,
    decreases list.len(),
{
    let text = spaced(list, gaps);
    if list.len() == 0 {
        assert(text == gaps[0]);
    } else {
        let fewer = list.drop_last();
        let gaps_before = gaps.drop_last();
        let before = spaced(fewer, gaps_before);
        assert forall|i: int| 0 <= i < fewer.len() implies (forall|j: int|
            0 <= j < (#[trigger] fewer[i]).len() ==> 33 <= #[trigger] fewer[i][j] as int
                <= 126) by {
            assert(fewer[i] == list[i]);
        }
        assert forall|i: int| 0 <= i < gaps_before.len() implies (
        #[trigger] gaps_before[i]).len() == 0 || gaps_before[i] == seq![' '] by {
            assert(gaps_before[i] == gaps[i]);
        }
        lemma_spaced_chars(fewer, gaps_before);
        let word = list[list.len() - 1];
        let gap = gaps[gaps.len() - 1];
        assert forall|i: int| 0 <= i < text.len() implies 32 <= #[trigger] text[i] as int
            <= 126 by {
            if i < before.len() {
                assert(text[i] == before[i]);
            } else if i < before.len() + word.len() {
                assert(text[i] == word[i - before.len()]);
            } else {
                assert(text[i] == gap[i - before.len() - word.len()]);
            }
        }
    }
}

/// Whether all characters of some words are those of ASCII that can be seen.
pub open spec fn visible_words(list: Seq<Seq<char>>) -> bool {
    &&& forall|i: int| 0 <= i < list.len() ==> (#[trigger] list[i]).len() > 0
    &&& forall|i: int|
        0 <= i < list.len() ==> forall|j: int|
            0 <= j < (#[trigger] list[i]).len() ==> 33 <= #[trigger] list[i][j] as int <= 126
}

/// A line of words has these words, and its bytes are such that it can be a line of a file.
proof fn lemma_line_of(list: Seq<Seq<char>>, before: Seq<char>)
    requires
        list.len() > 0,
        visible_words(list),
        forall|i: int| 0 <= i < before.len() ==> #[trigger] before[i] == ' ',
    ensures
        line_words(before + line_of(list)) == list,
        is_file_line(encode_utf8(before + line_of(list))),
{
    let gaps = single_gaps(list.len());
    let text = line_of(list);
    let none = Seq::<char>::empty();
    assert forall|i: int| 0 <= i < list.len() implies is_one_word(#[trigger] list[i]) by {
        assert forall|j: int| 0 <= j < list[i].len() implies !is_separator(
            #[trigger] list[i][j],
        ) by {
            assert(33 <= list[i][j] as int <= 126);
        }
    }
    assert(well_spaced(list, gaps));
    lemma_spaced_ends(list, gaps);
    lemma_spaced_chars(list, gaps);
    assert(is_one_word(list[0]));
    assert(is_one_word(list[list.len() - 1]));
    assert(33 <= list[0][0] as int <= 126);
    let last = list[list.len() - 1];
    assert(33 <= last[last.len() - 1] as int <= 126);
    assert(is_trimmed(text));
    law_lines_have_their_words(before, list, gaps, none);
    assert(before + text + none =~= before + text);
    lemma_file_line(before + text);
}

/// Whether some bytes can be a line of a file.
pub open spec fn is_file_line(line: Seq<u8>) -> bool {
    !line.contains(10) && (line.len() > 0 ==> line.last() != 13)
}

/// A text of visible characters and spaces can be a line of a file.
proof fn lemma_file_line(text: Seq<char>)
    requires
        forall|i: int| 0 <= i < text.len() ==> 32 <= #[trigger] text[i] as int <= 126,
    ensures
        is_file_line(encode_utf8(text)),
{
    let bytes = encode_utf8(text);
    assert(is_ascii_chars(text));
    vstd::utf8::is_ascii_chars_encode_utf8(text);
    if bytes.contains(10) {
        let i = choose|i: int| 0 <= i < bytes.len() && bytes[i] == 10;
        assert(text[i] as u8 == bytes[i]);
    }
    if bytes.len() > 0 {
        assert(text[bytes.len() - 1] as u8 == bytes.last());
    }
}

/// The words of the line that lists a stack, the innermost address first.
pub open spec fn stack_words(addrs: Seq<usize>) -> Seq<Seq<char>> {
    seq!["@"@] + addrs.reverse().map_values(|address: usize| address_word(address))
}

/// The words of the line with a weight.
pub open spec fn weight_words(sample: HeapSampleView) -> Seq<Seq<char>> {
    seq!["t*:"@, sample.n_objs.push(':'), sample.bytes_in_sampled_objs, "[0:"@, "0]"@]
}

/// The line that lists the stack of a sample.
pub open spec fn stack_line(sample: HeapSampleView) -> Seq<char> {
    line_of(stack_words(sample.addrs))
}

/// The line with the weight of a sample.
pub open spec fn weight_line(sample: HeapSampleView) -> Seq<char> {
    seq![' ', ' '] + line_of(weight_words(sample))
}

/// The lines of some samples.
pub open spec fn sample_lines(samples: Seq<HeapSampleView>) -> Seq<Seq<u8>>
    decreases samples.len(),
{
    if samples.len() == 0 {
        Seq::empty()
    } else {
        sample_lines(samples.drop_last()).push(encode_utf8(stack_line(samples.last()))).push(
            encode_utf8(weight_line(samples.last())),
        )
    }
}

/// The contents of a heap dump.
pub open spec fn dump_contents(dump: HeapDumpView) -> Seq<u8> {
    join_lines(
        seq![encode_utf8("heap_v2/"@ + dump.sampling_rate)] + sample_lines(dump.samples),
    )
}

/// The lines of a sample are read as it.
proof fn lemma_sample_is_read(progress: Progress, sample: HeapSampleView)
    requires
        progress.stack is None,
        is_float(sample.n_objs),
        is_float(sample.bytes_in_sampled_objs),
    ensures
        crate::jeheap::read_line(progress, stack_line(sample)) matches Ok(between)
            && crate::jeheap::read_line(between, weight_line(sample)) == Ok::<
            Progress,
            ParseError,
        >(Progress { stack: None, samples: progress.samples.push(sample) }),
        is_file_line(encode_utf8(stack_line(sample))),
        is_file_line(encode_utf8(weight_line(sample))),
{
    let stack = stack_words(sample.addrs);
    let weight = weight_words(sample);
    let reversed = sample.addrs.reverse();
    let none = Seq::<char>::empty();
    reveal_strlit("@");
    reveal_strlit("t*:");
    reveal_strlit("[0:");
    reveal_strlit("0]");
    lemma_float_is_plain(sample.n_objs);
    lemma_float_is_plain(sample.bytes_in_sampled_objs);
    assert forall|i: int| 0 <= i < stack.len() implies (#[trigger] stack[i]).len() > 0 && (forall|
        j: int,
    |
        0 <= j < stack[i].len() ==> 33 <= #[trigger] stack[i][j] as int <= 126) by {
        if i > 0 {
            lemma_address_word(reversed[i - 1]);
            assert(stack[i] == address_word(reversed[i - 1]));
            assert forall|j: int| 0 <= j < stack[i].len() implies 33
                <= #[trigger] stack[i][j] as int <= 126 by {
                assert(is_plain(address_word(reversed[i - 1])[j]));
            }
        }
    }
    assert(visible_words(stack));
    lemma_line_of(stack, none);
    assert(none + line_of(stack) =~= line_of(stack));
    let count = weight[1];
    assert forall|j: int| 0 <= j < count.len() implies 33 <= #[trigger] count[j] as int <= 126 by {
        if j < sample.n_objs.len() {
            assert(is_plain(sample.n_objs[j]));
        }
    }
    assert forall|j: int| 0 <= j < weight[2].len() implies 33 <= #[trigger] weight[2][j] as int
        <= 126 by {
        assert(is_plain(sample.bytes_in_sampled_objs[j]));
    }
    assert(visible_words(weight)) by {
        assert forall|i: int| 0 <= i < weight.len() implies (#[trigger] weight[i]).len() > 0
            && (forall|j: int|
            0 <= j < weight[i].len() ==> 33 <= #[trigger] weight[i][j] as int <= 126) by {
            assert(i == 0 || i == 1 || i == 2 || i == 3 || i == 4);
        }
    }
    lemma_line_of(weight, seq![' ', ' ']);
    let words = stack.drop_first();
    assert forall|i: int| 0 <= i < words.len() implies parse_hex(
        strip_prefixes(#[trigger] words[i], "0x"@),
    ) == Ok::<usize, AddressError>(reversed[i]) by {
        lemma_address_word(reversed[i]);
        assert(words[i] == address_word(reversed[i]));
    }
    law_words_with_addresses_are_read(words, reversed);
    assert(reversed.reverse() =~= sample.addrs);
    lemma_plain_is_a_word(sample.n_objs);
    law_colons_are_stripped(sample.n_objs, 1);
    assert(sample.n_objs + Seq::new(1, |i: int| ':') =~= sample.n_objs.push(':'));
    law_stack_and_weight_make_a_sample(progress, stack_line(sample), weight_line(sample));
}

/// The lines of some samples are read as these.
proof fn lemma_samples_are_read(samples: Seq<HeapSampleView>)
    requires
        forall|i: int|
            0 <= i < samples.len() ==> is_float((#[trigger] samples[i]).n_objs) && is_float(
                samples[i].bytes_in_sampled_objs,
            ),
    ensures
        read_lines(sample_lines(samples)) == Ok::<Progress, ParseError>(
            Progress { stack: None, samples },
        ),
        forall|i: int|
            0 <= i < sample_lines(samples).len() ==> is_file_line(
                #[trigger] sample_lines(samples)[i],
            ),
    decreases samples.len(),
{
    if samples.len() == 0 {
        law_lines_are_read_in_order(Seq::empty(), Seq::empty());
        assert(samples =~= Seq::empty());
    } else {
        let before = samples.drop_last();
        let sample = samples.last();
        let lines = sample_lines(before);
        assert forall|i: int| 0 <= i < before.len() implies is_float((#[trigger] before[i]).n_objs)
            && is_float(before[i].bytes_in_sampled_objs) by {
            assert(before[i] == samples[i]);
        }
        lemma_samples_are_read(before);
        assert(samples[samples.len() - 1] == sample);
        let progress = Progress { stack: None, samples: before };
        lemma_sample_is_read(progress, sample);
        let stack = encode_utf8(stack_line(sample));
        let weight = encode_utf8(weight_line(sample));
        vstd::utf8::encode_utf8_valid_utf8(stack_line(sample));
        vstd::utf8::encode_utf8_decode_utf8(stack_line(sample));
        vstd::utf8::encode_utf8_valid_utf8(weight_line(sample));
        vstd::utf8::encode_utf8_decode_utf8(weight_line(sample));
        law_lines_are_read_in_order(lines, stack);
        law_lines_are_read_in_order(lines.push(stack), weight);
        assert(before.push(sample) =~= samples);
    }
}

/// A heap dump is read back from its contents: its sampling rate, and every sample with all of its
/// addresses and both of its counts.
pub proof fn law_dump_is_read_back(dump: HeapDumpView)
    requires
        is_float(dump.sampling_rate),
        forall|i: int|
            0 <= i < dump.samples.len() ==> is_float((#[trigger] dump.samples[i]).n_objs)
                && is_float(dump.samples[i].bytes_in_sampled_objs),
    ensures
        parse_dump(dump_contents(dump), true) == Ok::<HeapDumpView, ParseError>(dump),
{
    let prefix = "heap_v2/"@;
    let rate = dump.sampling_rate;
    let first = prefix + rate;
    let rest = sample_lines(dump.samples);
    let lines = seq![encode_utf8(first)] + rest;
    reveal_strlit("heap_v2/");
    lemma_float_is_plain(rate);
    lemma_samples_are_read(dump.samples);
    assert forall|i: int| 0 <= i < first.len() implies 32 <= #[trigger] first[i] as int
        <= 126 by {
        if i >= prefix.len() {
            assert(is_plain(rate[i - prefix.len()]));
        }
    }
    lemma_file_line(first);
    assert forall|i: int| 0 <= i < lines.len() implies !(#[trigger] lines[i]).contains(10) by {
        if i > 0 {
            assert(is_file_line(rest[i - 1]));
        }
    }
    assert forall|i: int|
        0 <= i < lines.len() && (#[trigger] lines[i]).len() > 0 implies lines[i].last() != 13 by {
        if i > 0 {
            assert(is_file_line(rest[i - 1]));
        }
    }
    law_lines_are_read_back(lines);
    vstd::utf8::encode_utf8_valid_utf8(first);
    vstd::utf8::encode_utf8_decode_utf8(first);
    assert(!prefix.is_prefix_of(rate)) by {
        if prefix.is_prefix_of(rate) {
            assert(rate[0] == prefix[0]);
        }
    }
    assert(repeated(prefix, 1) =~= prefix) by {
        reveal_with_fuel(repeated, 2);
    }
    law_prefixes_are_stripped(prefix, 1, rate);
    crate::text_laws::law_refused_numbers(rate);
    assert(lines.first() == encode_utf8(first));
    assert(lines.drop_first() =~= rest);
}

} // verus!
