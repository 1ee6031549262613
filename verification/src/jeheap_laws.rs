//! What holds of every heap dump.

use vstd::prelude::*;
use vstd::utf8::decode_utf8;

use crate::jeheap::{
    file_lines, heap_sample_views, parse_addresses, parse_dump, parse_rate, read_line, read_lines,
    split_lines, HeapDump, HeapDumpView, HeapSample, HeapSampleView, ParseError, Progress,
};
use crate::text::{
    float_error, is_float, line_words, parse_hex, strip_colons, strip_prefixes, AddressError,
};

verus! {

/// Whether a line lists the addresses of a stack.
pub open spec fn is_stack_line(line: Seq<char>) -> bool {
    line_words(line).len() > 0 && line_words(line)[0] == "@"@
}

/// Whether a line holds the weight of a stack.
pub open spec fn is_weight_line(line: Seq<char>) -> bool {
    line_words(line).len() > 2 && line_words(line)[0] == "t*:"@
}

/// The stacks that some lines list, the outermost address of each first.
pub open spec fn listed_stacks(lines: Seq<Seq<u8>>) -> Seq<Seq<usize>>
    decreases lines.len(),
{
    if lines.len() == 0 {
        Seq::empty()
    } else {
        let line = decode_utf8(lines.last());
        let stacks = listed_stacks(lines.drop_last());
        match parse_addresses(line_words(line).drop_first()) {
            Ok(addresses) if is_stack_line(line) => stacks.push(addresses.reverse()),
            _ => stacks,
        }
    }
}

/// The addresses of some samples.
pub open spec fn sample_stacks(samples: Seq<HeapSampleView>) -> Seq<Seq<usize>> {
    samples.map_values(|sample: HeapSampleView| sample.addrs)
}

/// Whether the counts of a sample are numbers.
pub open spec fn has_numbers(sample: HeapSampleView) -> bool {
    is_float(sample.n_objs) && is_float(sample.bytes_in_sampled_objs)
}

/// No line both lists a stack and holds a weight.
proof fn lemma_markers_differ()
    ensures
        "t*:"@ != "@"@,
{
    reveal_strlit("t*:");
    reveal_strlit("@");
    assert("t*:"@.len() != "@"@.len());
}

/// A stack and the weight that follows it make one sample.
pub proof fn law_stack_and_weight_make_a_sample(
    progress: Progress,
    stack_line: Seq<char>,
    weight_line: Seq<char>,
)
    requires
        progress.stack is None,
        is_stack_line(stack_line),
        parse_addresses(line_words(stack_line).drop_first()) is Ok,
        is_weight_line(weight_line),
        is_float(strip_colons(line_words(weight_line)[1])),
        is_float(line_words(weight_line)[2]),
    ensures
        read_line(progress, stack_line) matches Ok(between) && read_line(between, weight_line)
            == Ok::<Progress, ParseError>(
            Progress {
                stack: None,
                samples: progress.samples.push(
                    HeapSampleView {
                        addrs: parse_addresses(
                            line_words(stack_line).drop_first(),
                        )->Ok_0.reverse(),
                        n_objs: strip_colons(line_words(weight_line)[1]),
                        bytes_in_sampled_objs: line_words(weight_line)[2],
                    },
                ),
            },
        ),
{
    lemma_markers_differ();
}

/// A line that neither lists a stack nor holds a weight is skipped. So is a weight that no stack
/// precedes.
pub proof fn law_other_lines_are_skipped(progress: Progress, line: Seq<char>)
    requires
        !is_stack_line(line),
        is_weight_line(line) ==> progress.stack is None,
    ensures
        read_line(progress, line) == Ok::<Progress, ParseError>(progress),
{
}

/// A stack that follows another one without its weight is refused.
pub proof fn law_stacks_need_weights(progress: Progress, line: Seq<char>)
    requires
        is_stack_line(line),
        progress.stack is Some,
    ensures
        read_line(progress, line) == Err::<Progress, ParseError>(
            ParseError::StackWithoutWeight,
        ),
{
}

/// What follows a line that cannot be read does not matter: the first error counts.
pub proof fn law_first_error_counts(lines: Seq<Seq<u8>>, more: Seq<Seq<u8>>)
    requires
        read_lines(lines) is Err,
    ensures
        read_lines(lines + more) == read_lines(lines),
    decreases more.len(),
{
    if more.len() == 0 {
        assert(lines + more =~= lines);
    } else {
        assert((lines + more).drop_last() =~= lines + more.drop_last());
        law_first_error_counts(lines, more.drop_last());
    }
}

/// What some lines that can be read amount to.
pub open spec fn accounts_for(progress: Progress, lines: Seq<Seq<u8>>) -> bool {
    &&& listed_stacks(lines) == match progress.stack {
        Some(stack) => sample_stacks(progress.samples).push(stack),
        None => sample_stacks(progress.samples),
    }
    &&& forall|i: int|
        0 <= i < progress.samples.len() ==> has_numbers(#[trigger] progress.samples[i])
}

/// One more line keeps the account.
proof fn lemma_line_accounts(before: Progress, lines: Seq<Seq<u8>>, progress: Progress)
    requires
        lines.len() > 0,
        accounts_for(before, lines.drop_last()),
        read_line(before, decode_utf8(lines.last())) == Ok::<Progress, ParseError>(progress),
    ensures
        accounts_for(progress, lines),
{
    let line = decode_utf8(lines.last());
    lemma_markers_differ();
    if is_stack_line(line) {
        assert(sample_stacks(progress.samples) =~= sample_stacks(before.samples));
    } else if is_weight_line(line) && before.stack is Some {
        assert(sample_stacks(progress.samples) =~= sample_stacks(before.samples).push(
            before.stack.unwrap(),
        ));
    }
}

/// Lines that can be read give one sample for each stack that they list, in their order, but for
/// a last one whose weight is still to come; and the counts of each sample are numbers.
pub proof fn law_one_sample_per_stack(lines: Seq<Seq<u8>>)
    ensures
        read_lines(lines) matches Ok(progress) ==> accounts_for(progress, lines),
    decreases lines.len(),
{
    if lines.len() == 0 {
        assert(sample_stacks(Seq::empty()) =~= Seq::empty());
    } else {
        law_one_sample_per_stack(lines.drop_last());
        match (read_lines(lines.drop_last()), read_lines(lines)) {
            (Ok(before), Ok(progress)) => {
                lemma_line_accounts(before, lines, progress);
            },
            _ => {},
        }
    }
}

/// A dump that can be read has one sample for each stack that it lists, in their order; and its
/// sampling rate and the counts of each sample are numbers.
pub proof fn law_dump_accounts_for_its_stacks(contents: Seq<u8>)
    ensures
        parse_dump(contents, true) matches Ok(dump) ==> {
            &&& is_float(dump.sampling_rate)
            &&& sample_stacks(dump.samples) == listed_stacks(
                file_lines(contents, true).drop_first(),
            )
            &&& forall|i: int|
                0 <= i < dump.samples.len() ==> has_numbers(#[trigger] dump.samples[i])
        },
{
    law_one_sample_per_stack(file_lines(contents, true).drop_first());
}

/// A dump that could not be read to its end is never accepted.
pub proof fn law_unfinished_dumps_are_refused(contents: Seq<u8>)
    ensures
        parse_dump(contents, false) is Err,
{
}

/// A file without contents is refused as such.
pub proof fn law_empty_dumps_are_refused()
    ensures
        parse_dump(Seq::empty(), true) == Err::<HeapDumpView, ParseError>(
            ParseError::Empty,
        ),
{
}

/// The lines of a file hold all of its bytes but the line ends: with each of them followed by a
/// line feed they are the lines of the file again.
pub proof fn law_lines_are_read_back(lines: Seq<Seq<u8>>)
    requires
        forall|i: int| 0 <= i < lines.len() ==> !(#[trigger] lines[i]).contains(10),
        forall|i: int|
            0 <= i < lines.len() && (#[trigger] lines[i]).len() > 0 ==> lines[i].last() != 13,
    ensures
        split_lines(join_lines(lines)) == (lines, Seq::<u8>::empty()),
        file_lines(join_lines(lines), true) == lines,
        file_lines(join_lines(lines), false) == lines,
    decreases lines.len(),
{
    if lines.len() > 0 {
        let line = lines.last();
        let before = join_lines(lines.drop_last());
        assert forall|i: int| 0 <= i < lines.drop_last().len() implies !(
        #[trigger] lines.drop_last()[i]).contains(10) by {
            assert(lines.drop_last()[i] == lines[i]);
        }
        assert forall|i: int|
            0 <= i < lines.drop_last().len() && (#[trigger] lines.drop_last()[i]).len()
                > 0 implies lines.drop_last()[i].last() != 13 by {
            assert(lines.drop_last()[i] == lines[i]);
        }
        law_lines_are_read_back(lines.drop_last());
        lemma_line_follows(before, line);
        assert(lines[lines.len() - 1] == line);
        assert((before + line).push(10).drop_last() =~= before + line);
        assert(Seq::<u8>::empty() + line =~= line);
        assert(lines.drop_last().push(line) =~= lines);
    } else {
        assert(lines =~= Seq::empty());
    }
}

/// Some lines, each of them followed by a line feed.
pub open spec fn join_lines(lines: Seq<Seq<u8>>) -> Seq<u8>
    decreases lines.len(),
{
    if lines.len() == 0 {
        Seq::empty()
    } else {
        (join_lines(lines.drop_last()) + lines.last()).push(10)
    }
}

/// Bytes without a line feed extend the last line.
proof fn lemma_line_follows(contents: Seq<u8>, line: Seq<u8>)
    requires
        !line.contains(10),
    ensures
        split_lines(contents + line) == (split_lines(contents).0, split_lines(contents).1 + line),
    decreases line.len(),
{
    if line.len() == 0 {
        assert(contents + line =~= contents);
        assert(split_lines(contents).1 + line =~= split_lines(contents).1);
    } else {
        assert(!line.drop_last().contains(10)) by {
            if line.drop_last().contains(10) {
                let i = choose|i: int|
                    0 <= i < line.drop_last().len() && line.drop_last()[i] == 10;
                assert(line[i] == 10);
            }
        }
        lemma_line_follows(contents, line.drop_last());
        assert((contents + line).drop_last() =~= contents + line.drop_last());
        assert((contents + line).last() == line.last());
        assert(line[line.len() - 1] == line.last());
        assert((split_lines(contents).1 + line.drop_last()).push(line.last())
            =~= split_lines(contents).1 + line);
    }
}

/// Every word gives one address: the number for which its hexadecimal digits stand, behind any
/// prefixes of such a number.
pub proof fn law_every_word_gives_its_address(words: Seq<Seq<char>>, index: int)
    requires
        parse_addresses(words) is Ok,
        0 <= index < words.len(),
    ensures
        parse_addresses(words)->Ok_0.len() == words.len(),
        parse_hex(strip_prefixes(words[index], "0x"@)) == Ok::<usize, AddressError>(
            parse_addresses(words)->Ok_0[index],
        ),
    decreases words.len(),
{
    let before = words.drop_last();
    lemma_address_count(before);
    if index < before.len() {
        law_every_word_gives_its_address(before, index);
        assert(before[index] == words[index]);
    }
}

/// There are as many addresses as words.
proof fn lemma_address_count(words: Seq<Seq<char>>)
    ensures
        parse_addresses(words) matches Ok(addresses) ==> addresses.len() == words.len(),
    decreases words.len(),
{
    if words.len() > 0 {
        lemma_address_count(words.drop_last());
    }
}

/// Words that all stand for addresses are read as these.
pub proof fn law_words_with_addresses_are_read(words: Seq<Seq<char>>, addresses: Seq<usize>)
    requires
        words.len() == addresses.len(),
        forall|i: int|
            0 <= i < words.len() ==> parse_hex(strip_prefixes(#[trigger] words[i], "0x"@)) == Ok::<
                usize,
                AddressError,
            >(addresses[i]),
    ensures
        parse_addresses(words) == Ok::<Seq<usize>, AddressError>(addresses),
    decreases words.len(),
{
    if words.len() > 0 {
        let before = words.drop_last();
        let fewer = addresses.drop_last();
        assert forall|i: int| 0 <= i < before.len() implies parse_hex(
            strip_prefixes(#[trigger] before[i], "0x"@),
        ) == Ok::<usize, AddressError>(fewer[i]) by {
            assert(before[i] == words[i]);
        }
        law_words_with_addresses_are_read(before, fewer);
        assert(words[words.len() - 1] == words.last());
        assert(fewer.push(addresses.last()) =~= addresses);
    } else {
        assert(addresses =~= Seq::empty());
    }
}

/// The first word that stands for no address is why a stack is refused.
pub proof fn law_first_wrong_address_counts(
    words: Seq<Seq<char>>,
    word: Seq<char>,
    more: Seq<Seq<char>>,
)
    requires
        parse_addresses(words) is Ok,
        parse_hex(strip_prefixes(word, "0x"@)) is Err,
    ensures
        parse_addresses(words.push(word) + more) == Err::<Seq<usize>, AddressError>(
            parse_hex(strip_prefixes(word, "0x"@))->Err_0,
        ),
    decreases more.len(),
{
    let all = words.push(word) + more;
    if more.len() == 0 {
        assert(all =~= words.push(word));
        assert(all.drop_last() =~= words);
    } else {
        assert(all.drop_last() =~= words.push(word) + more.drop_last());
        law_first_wrong_address_counts(words, word, more.drop_last());
    }
}

/// A line that lists a stack without a weight before it leaves the samples as they are, and keeps
/// every address, the last one first.
pub proof fn law_stacks_are_reversed(progress: Progress, line: Seq<char>, index: int)
    requires
        progress.stack is None,
        is_stack_line(line),
        read_line(progress, line) is Ok,
        0 <= index < line_words(line).len() - 1,
    ensures
        ({
            let after = read_line(progress, line)->Ok_0;
            let count = line_words(line).len() - 1;
            &&& after.samples == progress.samples
            &&& after.stack matches Some(stack)
            &&& stack.len() == count
            &&& parse_hex(strip_prefixes(line_words(line)[index + 1], "0x"@)) == Ok::<
                usize,
                AddressError,
            >(stack[count - 1 - index])
        }),
{
    let words = line_words(line).drop_first();
    law_every_word_gives_its_address(words, index);
    assert(words[index] == line_words(line)[index + 1]);
}

/// One more line is read where the lines before it end.
pub proof fn law_lines_are_read_in_order(lines: Seq<Seq<u8>>, line: Seq<u8>)
    requires
        read_lines(lines) is Ok,
    ensures
        vstd::utf8::valid_utf8(line) ==> read_lines(lines.push(line)) == read_line(
            read_lines(lines)->Ok_0,
            decode_utf8(line),
        ),
        !vstd::utf8::valid_utf8(line) ==> read_lines(lines.push(line)) == Err::<
            Progress,
            ParseError,
        >(ParseError::InvalidUtf8),
        read_lines(Seq::empty()) == Ok::<Progress, ParseError>(
            Progress { stack: None, samples: Seq::empty() },
        ),
{
    assert(lines.push(line).drop_last() =~= lines);
}

/// Some lines, each of them followed by a line feed, or by a carriage return and a line feed.
pub open spec fn ended_lines(lines: Seq<Seq<u8>>, crs: Seq<bool>) -> Seq<u8>
    decreases lines.len(),
{
    if lines.len() == 0 {
        Seq::empty()
    } else if crs.last() {
        (ended_lines(lines.drop_last(), crs.drop_last()) + lines.last()).push(13).push(10)
    } else {
        (ended_lines(lines.drop_last(), crs.drop_last()) + lines.last()).push(10)
    }
}

/// Lines are read back whichever ends they have. What follows the last end is a line if there is
/// anything and the file was read to its end, and keeps a carriage return.
pub proof fn law_line_ends(lines: Seq<Seq<u8>>, crs: Seq<bool>, rest: Seq<u8>)
    requires
        lines.len() == crs.len(),
        forall|i: int| 0 <= i < lines.len() ==> !(#[trigger] lines[i]).contains(10),
        forall|i: int|
            0 <= i < lines.len() && !crs[i] && (#[trigger] lines[i]).len() > 0
                ==> lines[i].last() != 13,
        !rest.contains(10),
    ensures
        split_lines(ended_lines(lines, crs) + rest) == (lines, rest),
        file_lines(ended_lines(lines, crs) + rest, true) == if rest.len() > 0 {
            lines.push(rest)
        } else {
            lines
        },
        file_lines(ended_lines(lines, crs) + rest, false) == lines,
    decreases lines.len(),
{
    let contents = ended_lines(lines, crs);
    let none = Seq::<u8>::empty();
    if lines.len() > 0 {
        let fewer = lines.drop_last();
        let ends = crs.drop_last();
        let line = lines.last();
        let before = ended_lines(fewer, ends);
        assert forall|i: int| 0 <= i < fewer.len() implies !(#[trigger] fewer[i]).contains(10) by {
            assert(fewer[i] == lines[i]);
        }
        assert forall|i: int|
            0 <= i < fewer.len() && !ends[i] && (#[trigger] fewer[i]).len()
                > 0 implies fewer[i].last() != 13 by {
            assert(fewer[i] == lines[i]);
        }
        assert(!none.contains(10));
        law_line_ends(fewer, ends, none);
        assert(before + none =~= before);
        assert(lines[lines.len() - 1] == line);
        let ended = if crs.last() {
            line.push(13)
        } else {
            line
        };
        assert(!ended.contains(10)) by {
            if ended.contains(10) {
                let i = choose|i: int| 0 <= i < ended.len() && ended[i] == 10;
                assert(line[i] == 10);
            }
        }
        lemma_line_follows(before, ended);
        assert(contents.drop_last() =~= before + ended);
        assert(contents.last() == 10);
        assert(none + ended =~= ended);
        assert(crs.last() ==> ended.drop_last() =~= line);
        assert(fewer.push(line) =~= lines);
        assert(split_lines(contents) == (lines, none));
    } else {
        assert(lines =~= Seq::empty());
    }
    lemma_line_follows(contents, rest);
    assert(none + rest =~= rest);
}

/// Once a dump is refused for what its finished lines hold, nothing that follows changes that.
pub proof fn law_refusals_stay(contents: Seq<u8>, more: Seq<u8>, complete: bool)
    requires
        contents.len() > 0,
        contents.last() == 10,
        parse_dump(contents, false) != Err::<HeapDumpView, ParseError>(ParseError::Read),
    ensures
        parse_dump(contents + more, complete) == parse_dump(contents, false),
{
    lemma_split_more(contents, more);
    let lines = split_lines(contents).0;
    let all = file_lines(contents + more, complete);
    let rest = all.skip(lines.len() as int);
    assert(split_lines(contents).1 == Seq::<u8>::empty());
    assert(all.take(lines.len() as int) =~= lines);
    assert(lines.len() > 0);
    assert(all.first() == lines.first());
    assert(all.drop_first() =~= lines.drop_first() + rest);
    if read_lines(lines.drop_first()) is Err {
        law_first_error_counts(lines.drop_first(), rest);
    }
}

/// What follows does not change the finished lines.
proof fn lemma_split_more(contents: Seq<u8>, more: Seq<u8>)
    ensures
        split_lines(contents).0.is_prefix_of(split_lines(contents + more).0),
        contents.len() > 0 && contents.last() == 10 ==> split_lines(contents).0.len() > 0,
    decreases more.len(),
{
    if more.len() == 0 {
        assert(contents + more =~= contents);
    } else {
        lemma_split_more(contents, more.drop_last());
        assert((contents + more).drop_last() =~= contents + more.drop_last());
    }
}

/// The views leave nothing out.
pub proof fn law_views(sample: HeapSample, samples: Seq<HeapSample>, dump: HeapDump)
    ensures
        sample@.addrs == sample.addrs@,
        sample@.n_objs == sample.n_objs@,
        sample@.bytes_in_sampled_objs == sample.bytes_in_sampled_objs@,
        heap_sample_views(samples).len() == samples.len(),
        forall|i: int|
            0 <= i < samples.len() ==> #[trigger] heap_sample_views(samples)[i] == samples[i]@,
        dump@.sampling_rate == dump.sampling_rate@,
        dump@.samples == heap_sample_views(dump.samples@),
{
}

/// A first line whose text, without any `heap_v2/` before it, is no number is refused as that.
pub proof fn law_wrong_rates_are_refused(first: Seq<u8>, rest: Seq<u8>, complete: bool)
    requires
        !first.contains(10),
        first.len() > 0 ==> first.last() != 13,
    ensures
        !vstd::utf8::valid_utf8(first) ==> parse_dump(first.push(10) + rest, complete) == Err::<
            HeapDumpView,
            ParseError,
        >(ParseError::InvalidUtf8),
        vstd::utf8::valid_utf8(first) ==> (float_error(
            strip_prefixes(decode_utf8(first), "heap_v2/"@),
        ) matches Some(error) ==> parse_dump(first.push(10) + rest, complete) == Err::<
            HeapDumpView,
            ParseError,
        >(ParseError::InvalidSamplingRate(error))),
{
    let none = Seq::<u8>::empty();
    let contents = first.push(10);
    lemma_split_more(contents, rest);
    assert(contents.drop_last() =~= first);
    lemma_line_follows(none, first);
    assert(none + first =~= first);
    assert(split_lines(contents).0 =~= seq![first]);
    assert(file_lines(contents + rest, complete).first() == seq![first][0]);
}

/// A weight is refused for its first count that is no number.
pub proof fn law_wrong_counts_are_refused(progress: Progress, line: Seq<char>)
    requires
        progress.stack is Some,
        is_weight_line(line),
    ensures
        ({
            let count = float_error(strip_colons(line_words(line)[1]));
            let bytes = float_error(line_words(line)[2]);
            &&& count matches Some(error) ==> read_line(progress, line) == Err::<
                Progress,
                ParseError,
            >(ParseError::InvalidObjectCount(error))
            &&& (count is None && bytes is Some) ==> read_line(progress, line) == Err::<
                Progress,
                ParseError,
            >(ParseError::InvalidByteCount(bytes->0))
        }),
{
    lemma_markers_differ();
}

/// A stack is refused for its first word that stands for no address.
pub proof fn law_wrong_stacks_are_refused(progress: Progress, line: Seq<char>)
    requires
        progress.stack is None,
        is_stack_line(line),
        parse_addresses(line_words(line).drop_first()) is Err,
    ensures
        read_line(progress, line) == Err::<Progress, ParseError>(
            ParseError::InvalidAddress(parse_addresses(line_words(line).drop_first())->Err_0),
        ),
{
}

/// A dump whose last stack has no weight is refused.
pub proof fn law_last_stacks_need_weights(contents: Seq<u8>)
    requires
        file_lines(contents, true).len() > 0,
        parse_rate(file_lines(contents, true).first()) is Ok,
        read_lines(file_lines(contents, true).drop_first()) is Ok,
    ensures
        parse_dump(contents, true) == match read_lines(
            file_lines(contents, true).drop_first(),
        )->Ok_0.stack {
            Some(_) => Err::<HeapDumpView, ParseError>(ParseError::StackWithoutWeight),
            None => Ok(
                HeapDumpView {
                    sampling_rate: parse_rate(file_lines(contents, true).first())->Ok_0,
                    samples: read_lines(file_lines(contents, true).drop_first())->Ok_0.samples,
                },
            ),
        },
{
}

} // verus!
