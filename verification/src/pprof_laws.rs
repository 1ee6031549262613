//! What holds of the message of every profile.

use vstd::prelude::*;

use crate::distinct::{
    distinct, lemma_distinct, lemma_distinct_prefix, lemma_distinct_push, lemma_distinct_twice,
    position,
};
use crate::hex::{hex_bytes, hex_digit, hex_text};
use crate::mappings::MappingView;
use crate::pprof::{
    convertible, entries_addresses, entries_strings, entry_strings, label_key, label_strings,
    lemma_profile_strings_len, lossy_text, mapping_comment, mapping_id, mapping_strings,
    mappings_strings, optional_string, pair_text, path_texts, profile_message, profile_strings,
    sample_value, stack_addresses, string_index, weight_fits,
};
use crate::profile::{StackProfileView, StackView};
use crate::proto::{Location, ProfileView};
use crate::text_laws::{
    digit_at, law_digits, law_texts_have_the_digits, law_texts_tell_numbers_apart,
};

verus! {

/// The string at an index of a table.
pub open spec fn string_at(strings: Seq<Seq<char>>, index: i64) -> Option<Seq<char>> {
    if 0 <= index < strings.len() {
        Some(strings[index as int])
    } else {
        None
    }
}

/// A string that occurs is at its index.
proof fn lemma_string_index(all: Seq<Seq<char>>, string: Seq<char>)
    requires
        all.contains(string),
        distinct(all).len() <= i64::MAX,
    ensures
        string_at(distinct(all), string_index(distinct(all), string)) == Some(string),
{
    lemma_distinct(all);
    assert(distinct(all).contains(string));
}

/// The strings of a mapping are among those of the mappings.
proof fn lemma_mappings_strings_contains(
    mappings: Seq<MappingView>,
    paths: Seq<Seq<char>>,
    index: int,
    string: Seq<char>,
)
    requires
        0 <= index < mappings.len(),
        mapping_strings(mappings[index], paths[index]).contains(string),
    ensures
        mappings_strings(mappings, paths).contains(string),
    decreases mappings.len(),
{
    let init = mappings_strings(mappings.drop_last(), paths);
    let last = mapping_strings(mappings.last(), paths[mappings.len() - 1]);
    if index < mappings.len() - 1 {
        lemma_mappings_strings_contains(mappings.drop_last(), paths, index, string);
        let i = choose|i: int| 0 <= i < init.len() && init[i] == string;
        assert((init + last)[i] == string);
    } else {
        let i = choose|i: int| 0 <= i < last.len() && last[i] == string;
        assert((init + last)[init.len() + i] == string);
    }
}

/// The strings of an annotated stack with addresses are among those of the stacks.
proof fn lemma_entries_strings_contains(
    entries: Seq<(StackView, Option<Seq<char>>)>,
    key: Seq<char>,
    index: int,
)
    requires
        0 <= index < entries.len(),
        entries[index].1 is Some,
        entries[index].0.addrs.len() > 0,
    ensures
        entries_strings(entries, key).contains(key),
        entries_strings(entries, key).contains(entries[index].1->0),
    decreases entries.len(),
{
    let init = entries_strings(entries.drop_last(), key);
    let last = entry_strings(entries.last(), key);
    if index < entries.len() - 1 {
        lemma_entries_strings_contains(entries.drop_last(), key, index);
        let i = choose|i: int| 0 <= i < init.len() && init[i] == key;
        assert((init + last)[i] == key);
        let j = choose|j: int| 0 <= j < init.len() && init[j] == entries[index].1->0;
        assert((init + last)[j] == entries[index].1->0);
    } else {
        let count = entries[index].0.addrs.len();
        let fewer = label_strings((count - 1) as nat, key, entries[index].1->0);
        assert(last == fewer.push(key).push(entries[index].1->0));
        assert((init + last)[(init.len() + fewer.len()) as int] == key);
        assert((init + last)[(init.len() + fewer.len() + 1) as int] == entries[index].1->0);
    }
}

/// A string of a part is one of all strings.
proof fn lemma_contains_part<A>(front: Seq<A>, part: Seq<A>, back: Seq<A>, item: A)
    requires
        part.contains(item),
    ensures
        (front + part + back).contains(item),
{
    let i = choose|i: int| 0 <= i < part.len() && part[i] == item;
    assert((front + part + back)[front.len() + i] == item);
}

/// Index zero of the string table is the empty string, and no string is listed twice.
pub proof fn law_string_table(
    profile: StackProfileView,
    paths: Seq<Seq<char>>,
    sample_type: (Seq<char>, Seq<char>),
    period_type: (Seq<char>, Seq<char>),
    key: Seq<char>,
    time_nanos: i64,
)
    ensures
        ({
            let strings = profile_message(
                profile,
                paths,
                sample_type,
                period_type,
                key,
                time_nanos,
            ).string_table;
            &&& string_at(strings, 0) == Some(Seq::<char>::empty())
            &&& strings.no_duplicates()
        }),
{
    let all = profile_strings(profile, paths, sample_type, period_type, key);
    lemma_distinct(all);
    let first = Seq::empty().push(all[0]);
    lemma_distinct_push(Seq::empty(), all[0]);
    assert(first.is_prefix_of(all));
    lemma_distinct_prefix(first, all);
    assert(distinct(first)[0] == all[0]);
}

/// The indices of the sample type and of the period type are those of the given names.
pub proof fn law_names_are_read_back(
    profile: StackProfileView,
    paths: Seq<Seq<char>>,
    sample_type: (Seq<char>, Seq<char>),
    period_type: (Seq<char>, Seq<char>),
    key: Seq<char>,
    time_nanos: i64,
)
    requires
        convertible(profile),
    ensures
        ({
            let message = profile_message(
                profile,
                paths,
                sample_type,
                period_type,
                key,
                time_nanos,
            );
            let strings = message.string_table;
            &&& message.sample_type.len() == 1
            &&& string_at(strings, message.sample_type[0].type_) == Some(sample_type.0)
            &&& string_at(strings, message.sample_type[0].unit) == Some(sample_type.1)
            &&& message.period_type matches Some(period)
            &&& string_at(strings, period.type_) == Some(period_type.0)
            &&& string_at(strings, period.unit) == Some(period_type.1)
        }),
{
    let all = profile_strings(profile, paths, sample_type, period_type, key);
    lemma_profile_strings_len(profile, paths, sample_type, period_type, key);
    assert(all[1] == sample_type.0);
    assert(all[2] == sample_type.1);
    assert(all[3] == period_type.0);
    assert(all[4] == period_type.1);
    lemma_string_index(all, sample_type.0);
    lemma_string_index(all, sample_type.1);
    lemma_string_index(all, period_type.0);
    lemma_string_index(all, period_type.1);
}

/// There is one message and exactly one comment for each mapping. The IDs of the mappings count
/// from one on, and the strings of a mapping are at its indices; one without a build ID has that
/// of the empty string.
pub proof fn law_mappings_are_read_back(
    profile: StackProfileView,
    paths: Seq<Seq<char>>,
    sample_type: (Seq<char>, Seq<char>),
    period_type: (Seq<char>, Seq<char>),
    key: Seq<char>,
    time_nanos: i64,
    index: int,
)
    requires
        convertible(profile),
        0 <= index < profile.mappings.len(),
    ensures
        ({
            let message = profile_message(
                profile,
                paths,
                sample_type,
                period_type,
                key,
                time_nanos,
            );
            let strings = message.string_table;
            let mapping = profile.mappings[index];
            &&& message.mapping.len() == profile.mappings.len()
            &&& message.comment.len() == profile.mappings.len()
            &&& message.mapping[index].id == index + 1
            &&& message.mapping[index].memory_start == mapping.memory_start
            &&& message.mapping[index].memory_limit == mapping.memory_end
            &&& message.mapping[index].file_offset == mapping.file_offset
            &&& string_at(strings, message.mapping[index].filename) == Some(paths[index])
            &&& string_at(strings, message.mapping[index].build_id) == match mapping.build_id {
                Some(build_id) => Some(hex_bytes(build_id)),
                None => Some(Seq::<char>::empty()),
            }
            &&& string_at(strings, message.comment[index]) == Some(mapping_comment(mapping))
            &&& mapping_comment(mapping) == "executableInfo=3;"@ + hex_text(
                mapping.file_offset as nat,
            ) + seq![';'] + hex_text(mapping.memory_offset as nat)
        }),
{
    lemma_comment(profile.mappings[index]);
    let all = profile_strings(profile, paths, sample_type, period_type, key);
    let names = seq![
        Seq::<char>::empty(),
        sample_type.0,
        sample_type.1,
        period_type.0,
        period_type.1,
    ];
    let mapping = profile.mappings[index];
    let own = mapping_strings(mapping, paths[index]);
    lemma_profile_strings_len(profile, paths, sample_type, period_type, key);
    assert forall|string: Seq<char>| own.contains(string) implies string_at(
        distinct(all),
        string_index(distinct(all), string),
    ) == Some(string) by {
        lemma_mappings_strings_contains(profile.mappings, paths, index, string);
        lemma_contains_part(
            names,
            mappings_strings(profile.mappings, paths),
            entries_strings(profile.entries(), key),
            string,
        );
        lemma_string_index(all, string);
    }
    assert(own[0] == paths[index]);
    assert(own.contains(paths[index]));
    assert(own.last() == mapping_comment(mapping));
    assert(own.contains(mapping_comment(mapping)));
    if let Some(build_id) = mapping.build_id {
        assert(own[1] == hex_bytes(build_id));
        assert(own.contains(hex_bytes(build_id)));
    } else {
        law_string_table(profile, paths, sample_type, period_type, key, time_nanos);
    }
}

/// The IDs of the locations are sequential, starting with one, and no address has two locations.
pub proof fn law_locations_are_sequential(
    profile: StackProfileView,
    paths: Seq<Seq<char>>,
    sample_type: (Seq<char>, Seq<char>),
    period_type: (Seq<char>, Seq<char>),
    key: Seq<char>,
    time_nanos: i64,
)
    requires
        convertible(profile),
    ensures
        ({
            let locations = profile_message(
                profile,
                paths,
                sample_type,
                period_type,
                key,
                time_nanos,
            ).location;
            &&& forall|i: int| 0 <= i < locations.len() ==> (#[trigger] locations[i]).id == i + 1
            &&& forall|i: int, j: int|
                0 <= i < j < locations.len() ==> (#[trigger] locations[i]).address != (
                #[trigger] locations[j]).address
        }),
{
    let addresses = distinct(entries_addresses(profile.entries()));
    lemma_distinct(entries_addresses(profile.entries()));
    lemma_addresses_fit(profile);
}

/// The addresses of the stacks can be counted.
proof fn lemma_addresses_fit(profile: StackProfileView)
    requires
        convertible(profile),
    ensures
        distinct(entries_addresses(profile.entries())).len() <= u64::MAX,
{
    let entries = profile.entries();
    let addresses = entries_addresses(entries);
    assert forall|i: int, j: int|
        0 <= i < entries.len() && 0 <= j < entries[i].0.addrs.len() implies (
    #[trigger] entries[i].0.addrs[j]) > 0 by {
        assert(profile.stacks[i].0.addrs[j] > 0);
    }
    crate::pprof::lemma_entries_addresses(entries);
    lemma_distinct(addresses);
    assert forall|i: int| 0 <= i < distinct(addresses).len() implies distinct(addresses)[i]
        < u64::MAX by {
        assert(distinct(addresses).contains(distinct(addresses)[i]));
        let j = choose|j: int| 0 <= j < addresses.len() && addresses[j] == distinct(addresses)[i];
        assert(addresses[j] < u64::MAX);
    }
    crate::pprof::lemma_addresses_len(distinct(addresses));
}

/// The ID of the mapping of an address is that of the first one that holds it, and zero if none
/// does.
pub proof fn law_mapping_of_an_address(mappings: Seq<MappingView>, address: u64)
    ensures
        ({
            let id = mapping_id(mappings, address);
            &&& 0 <= id <= mappings.len()
            &&& id > 0 ==> mappings[id - 1].memory_start <= address < mappings[id - 1].memory_end
            &&& forall|i: int|
                0 <= i < (if id > 0 {
                    id - 1
                } else {
                    mappings.len() as int
                }) ==> !((#[trigger] mappings[i]).memory_start <= address < mappings[i].memory_end)
        }),
    decreases mappings.len(),
{
    if mappings.len() > 0 {
        let init = mappings.drop_last();
        law_mapping_of_an_address(init, address);
        let id = mapping_id(mappings, address);
        assert forall|i: int|
            0 <= i < (if id > 0 {
                id - 1
            } else {
                mappings.len() as int
            }) implies !((#[trigger] mappings[i]).memory_start <= address
            < mappings[i].memory_end) by {
            if i < init.len() {
                assert(init[i] == mappings[i]);
            }
        }
    }
}

/// The addresses of a stack are among those of the stacks.
proof fn lemma_entries_addresses_contains(
    entries: Seq<(StackView, Option<Seq<char>>)>,
    index: int,
    address: u64,
)
    requires
        0 <= index < entries.len(),
        stack_addresses(entries[index].0.addrs).contains(address),
    ensures
        entries_addresses(entries).contains(address),
    decreases entries.len(),
{
    let init = entries_addresses(entries.drop_last());
    let last = stack_addresses(entries.last().0.addrs);
    if index < entries.len() - 1 {
        lemma_entries_addresses_contains(entries.drop_last(), index, address);
        let i = choose|i: int| 0 <= i < init.len() && init[i] == address;
        assert((init + last)[i] == address);
    } else {
        let i = choose|i: int| 0 <= i < last.len() && last[i] == address;
        assert((init + last)[init.len() + i] == address);
    }
}

/// There is one sample for each stack, in order. It has one value, which is the weight rounded
/// towards zero, and one location for each address. (A weight that rounds to two to the power of
/// 63 has the number before it.) If the stack is annotated, it has one label for each address too,
/// and otherwise none.
pub proof fn law_one_sample_per_stack(
    profile: StackProfileView,
    paths: Seq<Seq<char>>,
    sample_type: (Seq<char>, Seq<char>),
    period_type: (Seq<char>, Seq<char>),
    key: Seq<char>,
    time_nanos: i64,
    index: int,
)
    requires
        convertible(profile),
        0 <= index < profile.stacks.len(),
    ensures
        ({
            let samples = profile_message(
                profile,
                paths,
                sample_type,
                period_type,
                key,
                time_nanos,
            ).sample;
            let (stack, annotation) = profile.stacks[index];
            &&& samples.len() == profile.stacks.len()
            &&& samples[index].value == seq![sample_value(stack.weight)]
            &&& samples[index].value.len() == 1
            &&& stack.weight.is_finite()
            &&& -0x8000_0000_0000_0000 <= stack.weight.truncated() <= 0x8000_0000_0000_0000
            &&& samples[index].value[0] == if stack.weight.truncated() == 0x8000_0000_0000_0000 {
                0x7fff_ffff_ffff_ffff
            } else {
                stack.weight.truncated()
            }
            &&& samples[index].location_id.len() == stack.addrs.len()
            &&& samples[index].label.len() == if annotation is Some {
                stack.addrs.len()
            } else {
                0
            }
        }),
{
    assert(profile.entries()[index].0 == profile.stacks[index].0);
    assert(weight_fits(profile.stacks[index].0.weight));
}

/// The locations of a sample have the addresses before those of the stack, from the last to the
/// first, and the mappings of these addresses. The key and the string of each label of an
/// annotated stack are at its indices.
pub proof fn law_samples_are_read_back(
    profile: StackProfileView,
    paths: Seq<Seq<char>>,
    sample_type: (Seq<char>, Seq<char>),
    period_type: (Seq<char>, Seq<char>),
    key: Seq<char>,
    time_nanos: i64,
    index: int,
    depth: int,
)
    requires
        convertible(profile),
        0 <= index < profile.stacks.len(),
        0 <= depth < profile.stacks[index].0.addrs.len(),
    ensures
        ({
            let message = profile_message(
                profile,
                paths,
                sample_type,
                period_type,
                key,
                time_nanos,
            );
            let strings = message.string_table;
            let sample = message.sample[index];
            let (stack, annotation) = profile.entries()[index];
            let id = sample.location_id[depth];
            let address = stack.addrs[stack.addrs.len() - 1 - depth] - 1;
            &&& 1 <= id <= message.location.len()
            &&& message.location[id - 1].id == id
            &&& message.location[id - 1].address == address
            &&& message.location[id - 1].mapping_id == mapping_id(profile.mappings, address as u64)
            &&& match annotation {
                Some(annotation) => {
                    &&& string_at(strings, sample.label[depth].key) == Some(key)
                    &&& string_at(strings, sample.label[depth].str) == Some(annotation)
                },
                None => true,
            }
        }),
{
    let entries = profile.entries();
    let (stack, annotation) = entries[index];
    let all = profile_strings(profile, paths, sample_type, period_type, key);
    let addresses = entries_addresses(entries);
    let own = stack_addresses(stack.addrs);
    assert(profile.stacks[index].0.addrs[stack.addrs.len() - 1 - depth] > 0);
    assert(own.contains(own[depth]));
    lemma_entries_addresses_contains(entries, index, own[depth]);
    lemma_distinct(addresses);
    assert(distinct(addresses).contains(own[depth]));
    let found = position(distinct(addresses), own[depth]);
    assert(0 <= found < distinct(addresses).len() && distinct(addresses)[found] == own[depth]);
    lemma_addresses_fit(profile);
    law_mapping_of_an_address(profile.mappings, own[depth]);
    if annotation is Some {
        let names = seq![
            Seq::<char>::empty(),
            sample_type.0,
            sample_type.1,
            period_type.0,
            period_type.1,
        ];
        let front = names + mappings_strings(profile.mappings, paths);
        let part = entries_strings(entries, key);
        lemma_profile_strings_len(profile, paths, sample_type, period_type, key);
        lemma_entries_strings_contains(entries, key, index);
        assert(front + part + Seq::empty() =~= all);
        lemma_contains_part(front, part, Seq::empty(), key);
        lemma_contains_part(front, part, Seq::empty(), annotation->0);
        lemma_string_index(all, key);
        lemma_string_index(all, annotation->0);
    }
}

/// The comment about a mapping begins with the ELF type.
proof fn lemma_comment(mapping: MappingView)
    ensures
        mapping_comment(mapping) == "executableInfo=3;"@ + hex_text(mapping.file_offset as nat)
            + seq![';'] + hex_text(mapping.memory_offset as nat),
{
    reveal_strlit("executableInfo=");
    reveal_strlit("executableInfo=3;");
    reveal_strlit("0123456789abcdef");
    law_texts_have_the_digits(3);
    law_digits('0', 3);
    assert(hex_text(3) =~= seq!['3']) by {
        assert(hex_text(3) == seq![hex_digit(3)]);
    }
    assert("executableInfo="@ + hex_text(3) + seq![';'] =~= "executableInfo=3;"@);
}

/// The text of a number holds no semicolon.
proof fn lemma_no_semicolon(value: nat, index: int)
    requires
        0 <= index < hex_text(value).len(),
    ensures
        hex_text(value)[index] != ';',
{
    law_texts_have_the_digits(value);
    reveal_strlit("0123456789abcdef");
    let place = (hex_text(value).len() - 1 - index) as nat;
    assert(hex_text(value)[index] == "0123456789abcdef"@[digit_at(value as int, place)]);
}

/// The comments about mappings with different offsets, in the file or in memory, differ.
pub proof fn law_comments_tell_offsets_apart(left: MappingView, right: MappingView)
    requires
        mapping_comment(left) == mapping_comment(right),
    ensures
        left.file_offset == right.file_offset,
        left.memory_offset == right.memory_offset,
{
    lemma_comment(left);
    lemma_comment(right);
    let start = "executableInfo=3;"@.len() as int;
    let comment = mapping_comment(left);
    let a = hex_text(left.file_offset as nat);
    let b = hex_text(right.file_offset as nat);
    if a.len() < b.len() {
        assert(comment[start + a.len()] == ';');
        lemma_no_semicolon(right.file_offset as nat, a.len() as int);
        assert(comment[start + a.len()] == b[a.len() as int]);
    } else if b.len() < a.len() {
        assert(comment[start + b.len()] == ';');
        lemma_no_semicolon(left.file_offset as nat, b.len() as int);
        assert(comment[start + b.len()] == a[b.len() as int]);
    }
    assert(comment.subrange(start, start + a.len()) =~= a);
    assert(comment.subrange(start, start + a.len()) =~= b);
    law_texts_tell_numbers_apart(left.file_offset as nat, right.file_offset as nat);
    let rest = comment.skip(start + a.len() + 1);
    assert(rest =~= hex_text(left.memory_offset as nat));
    assert(rest =~= hex_text(right.memory_offset as nat));
    law_texts_tell_numbers_apart(left.memory_offset as nat, right.memory_offset as nat);
}

/// What is converted: every annotation index is that of an annotation, no address is zero, every
/// weight rounds to a number from `-2^63` to `2^63`, and there are not more strings than indices.
pub proof fn law_what_is_converted(profile: StackProfileView)
    ensures
        convertible(profile) <==> {
            &&& 5 + 3 * profile.mappings.len() + 2 * profile.stacks.len() <= 0x7fff_ffff_ffff_ffff
            &&& forall|i: int|
                0 <= i < profile.stacks.len() ==> {
                    let (stack, annotation) = #[trigger] profile.stacks[i];
                    &&& annotation matches Some(index) ==> index < profile.annotations.len()
                    &&& !stack.addrs.contains(0)
                    &&& stack.weight.is_finite()
                    &&& -0x8000_0000_0000_0000 <= stack.weight.truncated() <= 0x8000_0000_0000_0000
                }
        },
{
    if convertible(profile) {
        assert forall|i: int| 0 <= i < profile.stacks.len() implies {
            let (stack, annotation) = #[trigger] profile.stacks[i];
            &&& annotation matches Some(index) ==> index < profile.annotations.len()
            &&& !stack.addrs.contains(0)
            &&& stack.weight.is_finite()
            &&& -0x8000_0000_0000_0000 <= stack.weight.truncated() <= 0x8000_0000_0000_0000
        } by {
            assert(weight_fits(profile.stacks[i].0.weight));
            let addrs = profile.stacks[i].0.addrs;
            if addrs.contains(0) {
                let j = choose|j: int| 0 <= j < addrs.len() && addrs[j] == 0;
                assert(profile.stacks[i].0.addrs[j] > 0);
            }
        }
    }
    if forall|i: int|
        0 <= i < profile.stacks.len() ==> {
            let (stack, annotation) = #[trigger] profile.stacks[i];
            &&& annotation matches Some(index) ==> index < profile.annotations.len()
            &&& !stack.addrs.contains(0)
            &&& stack.weight.is_finite()
            &&& -0x8000_0000_0000_0000 <= stack.weight.truncated() <= 0x8000_0000_0000_0000
        } {
        assert forall|i: int, j: int|
            0 <= i < profile.stacks.len() && 0 <= j < profile.stacks[i].0.addrs.len() implies (
        #[trigger] profile.stacks[i].0.addrs[j]) > 0 by {
            let (stack, annotation) = profile.stacks[i];
            if stack.addrs[j] == 0 {
                assert(stack.addrs.contains(0));
            }
        }
    }
}

/// The time of the profile is the given one.
pub proof fn law_time_is_read_back(
    profile: StackProfileView,
    paths: Seq<Seq<char>>,
    sample_type: (Seq<char>, Seq<char>),
    period_type: (Seq<char>, Seq<char>),
    key: Seq<char>,
    time_nanos: i64,
)
    ensures
        profile_message(profile, paths, sample_type, period_type, key, time_nanos).time_nanos
            == time_nanos,
{
}

/// The addresses of the locations of a message.
pub open spec fn location_addresses(message: ProfileView) -> Seq<u64> {
    message.location.map_values(|location: Location| location.address)
}

/// A profile without stacks and mappings has the four names behind the empty string, each of them
/// once, and nothing else.
pub proof fn law_message_of_nothing(
    profile: StackProfileView,
    paths: Seq<Seq<char>>,
    sample_type: (Seq<char>, Seq<char>),
    period_type: (Seq<char>, Seq<char>),
    key: Seq<char>,
    time_nanos: i64,
)
    requires
        profile.stacks.len() == 0,
        profile.mappings.len() == 0,
    ensures
        ({
            let message = profile_message(
                profile,
                paths,
                sample_type,
                period_type,
                key,
                time_nanos,
            );
            &&& message.string_table == distinct(
                seq![
                    Seq::<char>::empty(),
                    sample_type.0,
                    sample_type.1,
                    period_type.0,
                    period_type.1,
                ],
            )
            &&& message.sample.len() == 0
            &&& message.mapping.len() == 0
            &&& message.location.len() == 0
            &&& message.comment.len() == 0
        }),
{
    let names = seq![
        Seq::<char>::empty(),
        sample_type.0,
        sample_type.1,
        period_type.0,
        period_type.1,
    ];
    assert(profile.entries() =~= Seq::empty());
    assert(profile_strings(profile, paths, sample_type, period_type, key) =~= names);
}

/// One more mapping of a profile without stacks adds, in this order and where they are missing,
/// its path, its build ID if there is one, and its comment to the strings.
pub proof fn law_mapping_adds_its_strings(
    profile: StackProfileView,
    mapping: MappingView,
    paths: Seq<Seq<char>>,
    sample_type: (Seq<char>, Seq<char>),
    period_type: (Seq<char>, Seq<char>),
    key: Seq<char>,
    time_nanos: i64,
)
    requires
        profile.stacks.len() == 0,
    ensures
        ({
            let more = StackProfileView {
                annotations: profile.annotations,
                stacks: profile.stacks,
                mappings: profile.mappings.push(mapping),
            };
            let path = paths[profile.mappings.len() as int];
            let comment = "executableInfo=3;"@ + hex_text(mapping.file_offset as nat) + seq![';']
                + hex_text(mapping.memory_offset as nat);
            profile_message(more, paths, sample_type, period_type, key, time_nanos).string_table
                == distinct(
                profile_message(
                    profile,
                    paths,
                    sample_type,
                    period_type,
                    key,
                    time_nanos,
                ).string_table + match mapping.build_id {
                    Some(build_id) => seq![path, hex_bytes(build_id), comment],
                    None => seq![path, comment],
                },
            )
        }),
{
    let more = StackProfileView {
        annotations: profile.annotations,
        stacks: profile.stacks,
        mappings: profile.mappings.push(mapping),
    };
    let before = profile_strings(profile, paths, sample_type, period_type, key);
    let own = mapping_strings(mapping, paths[profile.mappings.len() as int]);
    lemma_comment(mapping);
    assert(profile.entries() =~= Seq::empty());
    assert(more.entries() =~= Seq::empty());
    assert(more.mappings.drop_last() =~= profile.mappings);
    assert(profile_strings(more, paths, sample_type, period_type, key) =~= before + own);
    lemma_distinct_twice(before, own);
}

/// Labels with one key and one annotation are two strings.
proof fn lemma_labels_are_two_strings(
    before: Seq<Seq<char>>,
    count: nat,
    key: Seq<char>,
    annotation: Seq<char>,
)
    requires
        count > 0,
    ensures
        distinct(before + label_strings(count, key, annotation)) == distinct(
            before + seq![key, annotation],
        ),
    decreases count,
{
    let two = before + seq![key, annotation];
    if count == 1 {
        assert(label_strings(0, key, annotation) =~= Seq::empty());
        assert(label_strings(1, key, annotation) =~= seq![key, annotation]) by {
            reveal_with_fuel(label_strings, 2);
        }
    } else {
        let fewer = before + label_strings((count - 1) as nat, key, annotation);
        lemma_labels_are_two_strings(before, (count - 1) as nat, key, annotation);
        lemma_distinct(two);
        assert(two[before.len() as int] == key);
        assert(two[(before.len() + 1) as int] == annotation);
        assert(distinct(two).contains(key));
        assert(distinct(two).contains(annotation));
        lemma_distinct_push(fewer, key);
        lemma_distinct_push(fewer.push(key), annotation);
        assert(before + label_strings(count, key, annotation) =~= fewer.push(key).push(
            annotation,
        ));
    }
}

/// One more stack adds the addresses before its own, from the last to the first and where they are
/// missing, to the locations. If it is annotated and not empty, it adds the key and the annotation
/// to the strings; otherwise these stay as they are.
pub proof fn law_stack_adds_its_addresses_and_strings(
    profile: StackProfileView,
    stack: StackView,
    annotation: Option<usize>,
    paths: Seq<Seq<char>>,
    sample_type: (Seq<char>, Seq<char>),
    period_type: (Seq<char>, Seq<char>),
    key: Seq<char>,
    time_nanos: i64,
)
    ensures
        ({
            let more = StackProfileView {
                annotations: profile.annotations,
                stacks: profile.stacks.push((stack, annotation)),
                mappings: profile.mappings,
            };
            let before = profile_message(
                profile,
                paths,
                sample_type,
                period_type,
                key,
                time_nanos,
            );
            let after = profile_message(
                more,
                paths,
                sample_type,
                period_type,
                key,
                time_nanos,
            );
            let visited = Seq::new(
                stack.addrs.len(),
                |i: int| (stack.addrs[stack.addrs.len() - 1 - i] - 1) as u64,
            );
            &&& location_addresses(after) == distinct(location_addresses(before) + visited)
            &&& after.string_table == match annotation {
                Some(index) if stack.addrs.len() > 0 => distinct(
                    before.string_table + seq![key, profile.annotations[index as int]],
                ),
                _ => before.string_table,
            }
        }),
{
    let more = StackProfileView {
        annotations: profile.annotations,
        stacks: profile.stacks.push((stack, annotation)),
        mappings: profile.mappings,
    };
    let before = profile_message(profile, paths, sample_type, period_type, key, time_nanos);
    let after = profile_message(more, paths, sample_type, period_type, key, time_nanos);
    let visited = Seq::new(
        stack.addrs.len(),
        |i: int| (stack.addrs[stack.addrs.len() - 1 - i] - 1) as u64,
    );
    let addresses = entries_addresses(profile.entries());
    assert(more.entries().drop_last() =~= profile.entries());
    assert(more.entries().last().0 == stack);
    assert(stack_addresses(stack.addrs) =~= visited);
    assert(entries_addresses(more.entries()) == addresses + visited);
    lemma_distinct_twice(addresses, visited);
    assert(location_addresses(before) =~= distinct(addresses));
    assert(location_addresses(after) =~= distinct(addresses + visited));
    let strings = profile_strings(profile, paths, sample_type, period_type, key);
    let own = entry_strings(more.entries().last(), key);
    assert(profile_strings(more, paths, sample_type, period_type, key) =~= strings + own);
    match annotation {
        Some(index) if stack.addrs.len() > 0 => {
            let text = profile.annotations[index as int];
            lemma_labels_are_two_strings(strings, stack.addrs.len(), key, text);
            lemma_distinct_twice(strings, seq![key, text]);
        },
        _ => {
            assert(own =~= Seq::empty());
            assert(strings + own =~= strings);
        },
    }
}

/// The arguments count as they are: both names of a pair, the key of the labels if one is given
/// and `annotation` otherwise, and the whole path of each mapping.
pub proof fn law_arguments(names: (&str, &str), key: Option<String>, mappings: Seq<MappingView>)
    ensures
        pair_text(names) == (names.0@, names.1@),
        label_key(optional_string(key)) == match key {
            Some(key) => key@,
            None => "annotation"@,
        },
        path_texts(mappings).len() == mappings.len(),
        forall|i: int|
            0 <= i < mappings.len() ==> #[trigger] path_texts(mappings)[i] == lossy_text(
                mappings[i].pathname,
            ),
{
}

} // verus!
