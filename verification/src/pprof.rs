//! The conversion of a profile into the pprof format.

use std::collections::BTreeMap;

use vstd::prelude::*;
use vstd::utf8::{decode_utf8, valid_utf8};

use crate::cast::TryCastFrom;
use crate::distinct::{
    distinct, lemma_distinct, lemma_distinct_prefix, lemma_distinct_push, lemma_position, position,
};
use crate::double::Double;
use crate::hex::{hex_bytes, hex_text, push_hex};
use crate::mappings::{mapping_views, MappingView};
use crate::profile::{optional_text, StackProfile, StackProfileView, StackView, WeightedStack};
use crate::proto::{
    sample_views, Label, Location, Mapping, Profile, ProfileView, Sample, SampleView, ValueType,
};
use crate::string_table::{texts, StringTable};
use crate::wire::{compress_profile, gzip_bytes, profile_bytes};

verus! {

/// The ELF type of shared libraries and of position-independent executables.
pub const ELF_TYPE_DYN: u64 = 3;

/// The key of the labels, where none is asked for.
pub open spec fn label_key(anno_key: Option<Seq<char>>) -> Seq<char> {
    match anno_key {
        Some(key) => key,
        None => "annotation"@,
    }
}

/// The comment about a mapping, which holds what the format has no field for.
///
/// This is a Polar Signals-specific extension: For correct offline symbolization
/// they need access to the memory offset of mappings, but the pprof format only has a
/// field for the file offset.
pub open spec fn mapping_comment(mapping: MappingView) -> Seq<char> {
    "executableInfo="@ + hex_text(ELF_TYPE_DYN as nat) + seq![';'] + hex_text(
        mapping.file_offset as nat,
    ) + seq![';'] + hex_text(mapping.memory_offset as nat)
}

/// The strings that a mapping asks for: its path, its build ID if there is one, its comment.
pub open spec fn mapping_strings(mapping: MappingView, path: Seq<char>) -> Seq<Seq<char>> {
    match mapping.build_id {
        Some(build_id) => seq![path, hex_bytes(build_id), mapping_comment(mapping)],
        None => seq![path, mapping_comment(mapping)],
    }
}

/// The strings that some mappings ask for.
pub open spec fn mappings_strings(mappings: Seq<MappingView>, paths: Seq<Seq<char>>) -> Seq<
    Seq<char>,
>
    decreases mappings.len(),
{
    if mappings.len() == 0 {
        Seq::empty()
    } else {
        mappings_strings(mappings.drop_last(), paths) + mapping_strings(
            mappings.last(),
            paths[mappings.len() - 1],
        )
    }
}

/// The strings that some labels with one annotation ask for.
pub open spec fn label_strings(count: nat, key: Seq<char>, annotation: Seq<char>) -> Seq<Seq<char>>
    decreases count,
{
    if count == 0 {
        Seq::empty()
    } else {
        label_strings((count - 1) as nat, key, annotation).push(key).push(annotation)
    }
}

/// The strings that a stack asks for: those of one label for each address, if it is annotated.
pub open spec fn entry_strings(
    entry: (StackView, Option<Seq<char>>),
    key: Seq<char>,
) -> Seq<Seq<char>> {
    match entry.1 {
        Some(annotation) => label_strings(entry.0.addrs.len(), key, annotation),
        None => Seq::empty(),
    }
}

/// The strings that some stacks ask for.
pub open spec fn entries_strings(
    entries: Seq<(StackView, Option<Seq<char>>)>,
    key: Seq<char>,
) -> Seq<Seq<char>>
    decreases entries.len(),
{
    if entries.len() == 0 {
        Seq::empty()
    } else {
        entries_strings(entries.drop_last(), key) + entry_strings(entries.last(), key)
    }
}

/// All strings of a profile, in the order in which they are asked for, the empty one first.
pub open spec fn profile_strings(
    profile: StackProfileView,
    paths: Seq<Seq<char>>,
    sample_type: (Seq<char>, Seq<char>),
    period_type: (Seq<char>, Seq<char>),
    key: Seq<char>,
) -> Seq<Seq<char>> {
    seq![Seq::<char>::empty(), sample_type.0, sample_type.1, period_type.0, period_type.1]
        + mappings_strings(profile.mappings, paths) + entries_strings(profile.entries(), key)
}

/// The addresses of a stack, from the last one to the first. Each of them is one before the
/// address on the stack: that is a return address, which is one past the call itself.
pub open spec fn stack_addresses(addrs: Seq<usize>) -> Seq<u64> {
    Seq::new(addrs.len(), |i: int| (addrs[addrs.len() - 1 - i] - 1) as u64)
}

/// The addresses of some stacks, in the order in which they are visited.
pub open spec fn entries_addresses(entries: Seq<(StackView, Option<Seq<char>>)>) -> Seq<u64>
    decreases entries.len(),
{
    if entries.len() == 0 {
        Seq::empty()
    } else {
        entries_addresses(entries.drop_last()) + stack_addresses(entries.last().0.addrs)
    }
}

/// The ID of the first mapping that holds an address, or zero. The IDs count from one on.
pub open spec fn mapping_id(mappings: Seq<MappingView>, address: u64) -> int
    decreases mappings.len(),
{
    if mappings.len() == 0 {
        0
    } else {
        let before = mapping_id(mappings.drop_last(), address);
        if before != 0 {
            before
        } else if mappings.last().memory_start <= address < mappings.last().memory_end {
            mappings.len() as int
        } else {
            0
        }
    }
}

/// Whether a weight can be the value of a sample: whether it has a whole part, and that is none
/// of an exabyte heap.
pub open spec fn weight_fits(weight: Double) -> bool {
    weight.is_finite() && i64::MIN <= weight.truncated() <= i64::MAX + 1
}

/// The value of a sample: the whole part of its weight.
pub open spec fn sample_value(weight: Double) -> i64 {
    if weight.truncated() > i64::MAX {
        i64::MAX
    } else {
        weight.truncated() as i64
    }
}

/// The index of a string.
pub open spec fn string_index(strings: Seq<Seq<char>>, string: Seq<char>) -> i64 {
    position(strings, string) as i64
}

/// The ID of the location of an address. The IDs are sequential and count from one on.
pub open spec fn location_id(addresses: Seq<u64>, address: u64) -> u64 {
    (position(addresses, address) + 1) as u64
}

/// The mapping at an index, as a message.
pub open spec fn mapping_message(
    mappings: Seq<MappingView>,
    paths: Seq<Seq<char>>,
    strings: Seq<Seq<char>>,
    index: int,
) -> Mapping {
    Mapping {
        id: (index + 1) as u64,
        memory_start: mappings[index].memory_start as u64,
        memory_limit: mappings[index].memory_end as u64,
        file_offset: mappings[index].file_offset,
        filename: string_index(strings, paths[index]),
        build_id: match mappings[index].build_id {
            Some(build_id) => string_index(strings, hex_bytes(build_id)),
            None => 0,
        },
    }
}

/// The location at an index, as a message.
pub open spec fn location_message(
    mappings: Seq<MappingView>,
    addresses: Seq<u64>,
    index: int,
) -> Location {
    Location {
        id: (index + 1) as u64,
        mapping_id: mapping_id(mappings, addresses[index]) as u64,
        address: addresses[index],
    }
}

/// The sample of a stack, as a message.
pub open spec fn sample_message(
    entry: (StackView, Option<Seq<char>>),
    addresses: Seq<u64>,
    strings: Seq<Seq<char>>,
    key: Seq<char>,
) -> SampleView {
    SampleView {
        location_id: stack_addresses(entry.0.addrs).map_values(
            |address: u64| location_id(addresses, address),
        ),
        value: seq![sample_value(entry.0.weight)],
        label: match entry.1 {
            Some(annotation) => Seq::new(
                entry.0.addrs.len(),
                |i: int|
                    Label {
                        key: string_index(strings, key),
                        str: string_index(strings, annotation),
                    },
            ),
            None => Seq::empty(),
        },
    }
}

/// A pair of names, as a message.
pub open spec fn value_type(strings: Seq<Seq<char>>, names: (Seq<char>, Seq<char>)) -> ValueType {
    ValueType { type_: string_index(strings, names.0), unit: string_index(strings, names.1) }
}

/// The message of a profile.
///
/// The strings and the addresses are listed once each, in the order in which they first occur;
/// everything else refers to them by their positions.
pub open spec fn profile_message(
    profile: StackProfileView,
    paths: Seq<Seq<char>>,
    sample_type: (Seq<char>, Seq<char>),
    period_type: (Seq<char>, Seq<char>),
    key: Seq<char>,
    time_nanos: i64,
) -> ProfileView {
    let strings = distinct(profile_strings(profile, paths, sample_type, period_type, key));
    let addresses = distinct(entries_addresses(profile.entries()));
    ProfileView {
        sample_type: seq![value_type(strings, sample_type)],
        sample: profile.entries().map_values(
            |entry: (StackView, Option<Seq<char>>)| sample_message(entry, addresses, strings, key),
        ),
        mapping: Seq::new(
            profile.mappings.len(),
            |i: int| mapping_message(profile.mappings, paths, strings, i),
        ),
        location: Seq::new(
            addresses.len(),
            |i: int| location_message(profile.mappings, addresses, i),
        ),
        string_table: strings,
        time_nanos,
        period_type: Some(value_type(strings, period_type)),
        comment: Seq::new(
            profile.mappings.len(),
            |i: int| string_index(strings, mapping_comment(profile.mappings[i])),
        ),
    }
}

/// Labels with one key and one annotation add two strings at most.
proof fn lemma_label_strings_len(
    before: Seq<Seq<char>>,
    count: nat,
    key: Seq<char>,
    annotation: Seq<char>,
)
    ensures
        distinct(before + label_strings(count, key, annotation)).len() <= distinct(before).len()
            + 2,
        count > 0 ==> {
            &&& distinct(before + label_strings(count, key, annotation)).contains(key)
            &&& distinct(before + label_strings(count, key, annotation)).contains(annotation)
        },
    decreases count,
{
    if count == 0 {
        assert(before + label_strings(count, key, annotation) =~= before);
    } else {
        let fewer = before + label_strings((count - 1) as nat, key, annotation);
        lemma_label_strings_len(before, (count - 1) as nat, key, annotation);
        assert(before + label_strings(count, key, annotation) =~= fewer.push(key).push(
            annotation,
        ));
        lemma_distinct_push(fewer, key);
        lemma_distinct_push(fewer.push(key), annotation);
        lemma_distinct(fewer.push(key));
        lemma_distinct(fewer.push(key).push(annotation));
        assert(fewer.push(key).push(annotation).last() == annotation);
        assert(fewer.push(key).push(annotation)[fewer.len() as int] == key);
        if count == 1 {
            assert(fewer =~= before);
        }
        assert(distinct(fewer.push(key).push(annotation)).contains(key));
        assert(distinct(fewer.push(key).push(annotation)).contains(annotation));
    }
}

/// Stacks add two strings each at most.
proof fn lemma_entries_strings_len(
    before: Seq<Seq<char>>,
    entries: Seq<(StackView, Option<Seq<char>>)>,
    key: Seq<char>,
)
    ensures
        distinct(before + entries_strings(entries, key)).len() <= distinct(before).len() + 2
            * entries.len(),
    decreases entries.len(),
{
    if entries.len() == 0 {
        assert(before + entries_strings(entries, key) =~= before);
    } else {
        let init = before + entries_strings(entries.drop_last(), key);
        lemma_entries_strings_len(before, entries.drop_last(), key);
        assert(before + entries_strings(entries, key) =~= init + entry_strings(
            entries.last(),
            key,
        ));
        match entries.last().1 {
            Some(annotation) => {
                lemma_label_strings_len(init, entries.last().0.addrs.len(), key, annotation);
            },
            None => {
                assert(init + entry_strings(entries.last(), key) =~= init);
            },
        }
    }
}

/// Mappings ask for three strings each at most.
proof fn lemma_mappings_strings_len(mappings: Seq<MappingView>, paths: Seq<Seq<char>>)
    ensures
        mappings_strings(mappings, paths).len() <= 3 * mappings.len(),
    decreases mappings.len(),
{
    if mappings.len() > 0 {
        lemma_mappings_strings_len(mappings.drop_last(), paths);
    }
}

/// A bound on the number of different strings of a profile.
pub proof fn lemma_profile_strings_len(
    profile: StackProfileView,
    paths: Seq<Seq<char>>,
    sample_type: (Seq<char>, Seq<char>),
    period_type: (Seq<char>, Seq<char>),
    key: Seq<char>,
)
    ensures
        distinct(profile_strings(profile, paths, sample_type, period_type, key)).len() <= 5 + 3
            * profile.mappings.len() + 2 * profile.stacks.len(),
{
    let names = seq![
        Seq::<char>::empty(),
        sample_type.0,
        sample_type.1,
        period_type.0,
        period_type.1,
    ];
    let front = names + mappings_strings(profile.mappings, paths);
    lemma_mappings_strings_len(profile.mappings, paths);
    lemma_distinct(front);
    lemma_entries_strings_len(front, profile.entries(), key);
}

/// Distinct addresses below the greatest one are fewer than it.
pub(crate) proof fn lemma_addresses_len(addresses: Seq<u64>)
    requires
        addresses.no_duplicates(),
        forall|i: int| 0 <= i < addresses.len() ==> addresses[i] < u64::MAX,
    ensures
        addresses.len() <= u64::MAX,
{
    let numbers = addresses.map_values(|address: u64| address as int);
    assert(numbers.no_duplicates());
    numbers.unique_seq_to_set();
    let range = vstd::set_lib::set_int_range(0, u64::MAX as int);
    vstd::set_lib::lemma_int_range(0, u64::MAX as int);
    assert(numbers.to_set().subset_of(range));
    vstd::set_lib::lemma_len_subset(numbers.to_set(), range);
}

/// Asks a table for a string, as the next one of those that are asked for altogether.
fn intern(
    strings: &mut StringTable,
    string: &str,
    Ghost(before): Ghost<Seq<Seq<char>>>,
    Ghost(all): Ghost<Seq<Seq<char>>>,
) -> (index: i64)
    requires
        old(strings).wf(),
        old(strings)@ == distinct(before),
        before.push(string@).is_prefix_of(all),
        distinct(all).len() <= i64::MAX,
    ensures
        final(strings).wf(),
        final(strings)@ == distinct(before.push(string@)),
        index == string_index(distinct(all), string@),
{
    proof {
        assert(before.is_prefix_of(all));
        lemma_distinct_prefix(before, all);
        lemma_distinct_push(before, string@);
    }
    let index: i64 = strings.insert(string);
    proof {
        lemma_position(before.push(string@), all, index as int);
    }
    index
}

/// Whether some messages are those of the mappings, as far as an address is looked up in them.
spec fn mappings_match(messages: Seq<Mapping>, mappings: Seq<MappingView>) -> bool {
    &&& messages.len() == mappings.len()
    &&& forall|i: int|
        0 <= i < messages.len() ==> {
            &&& (#[trigger] messages[i]).id == i + 1
            &&& messages[i].memory_start == mappings[i].memory_start
            &&& messages[i].memory_limit == mappings[i].memory_end
        }
}

/// Whether some messages are those of the locations of the addresses.
spec fn locations_match(
    messages: Seq<Location>,
    mappings: Seq<MappingView>,
    addresses: Seq<u64>,
) -> bool {
    &&& messages.len() == addresses.len()
    &&& forall|i: int|
        0 <= i < messages.len() ==> #[trigger] messages[i] == location_message(
            mappings,
            addresses,
            i,
        )
}

/// Whether a map holds the IDs of the locations of the addresses.
spec fn ids_match(ids: Map<u64, u64>, addresses: Seq<u64>) -> bool {
    &&& forall|address: u64| #[trigger]
        ids.contains_key(address) <==> addresses.contains(address)
    &&& forall|i: int| 0 <= i < addresses.len() ==> ids[#[trigger] addresses[i]] == i + 1
}

/// The ID of a mapping is that of one of them, or zero.
proof fn lemma_mapping_id(mappings: Seq<MappingView>, address: u64)
    ensures
        0 <= mapping_id(mappings, address) <= mappings.len(),
    decreases mappings.len(),
{
    if mappings.len() > 0 {
        lemma_mapping_id(mappings.drop_last(), address);
    }
}

/// The ID of the first mapping that holds the address, or zero.
fn find_mapping(
    messages: &Vec<Mapping>,
    address: u64,
    Ghost(mappings): Ghost<Seq<MappingView>>,
) -> (id: u64)
    requires
        mappings_match(messages@, mappings),
    ensures
        id == mapping_id(mappings, address),
{
    let mut i: usize = 0;
    while i < messages.len()
        invariant
            mappings_match(messages@, mappings),
            i <= messages@.len(),
            mapping_id(mappings.take(i as int), address) == 0,
        decreases messages@.len() - i,
    {
        let message: &Mapping = &messages[i];
        assert(mappings.take(i + 1).drop_last() =~= mappings.take(i as int));
        if message.memory_start <= address && message.memory_limit > address {
            proof {
                lemma_mapping_id_found(mappings, address, i as int);
            }
            return message.id;
        }
        i += 1;
    }
    assert(mappings.take(i as int) =~= mappings);
    0
}

/// The first mapping that holds an address stays the first one.
proof fn lemma_mapping_id_found(mappings: Seq<MappingView>, address: u64, index: int)
    requires
        0 <= index < mappings.len(),
        mapping_id(mappings.take(index + 1), address) == index + 1,
    ensures
        mapping_id(mappings, address) == index + 1,
    decreases mappings.len(),
{
    if index + 1 < mappings.len() {
        assert(mappings.drop_last().take(index + 1) =~= mappings.take(index + 1));
        lemma_mapping_id_found(mappings.drop_last(), address, index);
    } else {
        assert(mappings.take(index + 1) =~= mappings);
    }
}

/// The ID of the location of the next address; the location is added if it is missing.
///
/// `pprof_types.proto` says the location id may be the address, but Polar Signals
/// insists that location ids are sequential, starting with 1.
fn visit_address(
    locations: &mut Vec<Location>,
    ids: &mut BTreeMap<u64, u64>,
    messages: &Vec<Mapping>,
    address: u64,
    Ghost(mappings): Ghost<Seq<MappingView>>,
    Ghost(before): Ghost<Seq<u64>>,
    Ghost(all): Ghost<Seq<u64>>,
) -> (id: u64)
    requires
        mappings_match(messages@, mappings),
        locations_match(old(locations)@, mappings, distinct(before)),
        ids_match(old(ids)@, distinct(before)),
        before.push(address).is_prefix_of(all),
        forall|i: int| 0 <= i < all.len() ==> all[i] < u64::MAX,
    ensures
        locations_match(final(locations)@, mappings, distinct(before.push(address))),
        ids_match(final(ids)@, distinct(before.push(address))),
        id == location_id(distinct(all), address),
{
    proof {
        lemma_distinct_push(before, address);
    }
    match ids.get(&address) {
        Some(id) => {
            proof {
                assert(ids@.contains_key(address));
                let i = position(distinct(before), address);
                assert(distinct(before)[i] == address);
                lemma_position(before.push(address), all, i);
            }
            *id
        },
        None => {
            proof {
                let seen = distinct(before.push(address));
                lemma_distinct(before.push(address));
                assert forall|i: int| 0 <= i < seen.len() implies seen[i] < u64::MAX by {
                    assert(seen.contains(seen[i]));
                    let j = choose|j: int|
                        0 <= j < before.push(address).len() && before.push(address)[j] == seen[i];
                    assert(all[j] == seen[i]);
                }
                lemma_addresses_len(seen);
            }
            let id: u64 = locations.len() as u64 + 1;
            let mapping_id: u64 = find_mapping(messages, address, Ghost(mappings));
            let ghost known = distinct(before);
            locations.push(Location { id, mapping_id, address });
            ids.insert(address, id);
            proof {
                assert(distinct(before.push(address)) == known.push(address));
                assert forall|i: int| 0 <= i < locations@.len() implies #[trigger] locations@[i]
                    == location_message(mappings, known.push(address), i) by {
                    if i < known.len() {
                        assert(location_message(mappings, known, i) == location_message(
                            mappings,
                            known.push(address),
                            i,
                        ));
                    }
                }
                assert forall|other: u64| #[trigger] ids@.contains_key(other) <==> known.push(
                    address,
                ).contains(other) by {
                    if known.contains(other) {
                        let i = choose|i: int| 0 <= i < known.len() && known[i] == other;
                        assert(known.push(address)[i] == other);
                    }
                    if other == address {
                        assert(known.push(address)[known.len() as int] == address);
                    }
                }
                lemma_position(before.push(address), all, known.len() as int);
            }
            id
        },
    }
}

/// Whether a profile can be converted: whether every annotation index is that of an annotation,
/// every address has one before it, every weight has a whole part that is none of an exabyte
/// heap, and the strings can be counted.
pub open spec fn convertible(profile: StackProfileView) -> bool {
    &&& profile.wf()
    &&& forall|i: int, j: int|
        0 <= i < profile.stacks.len() && 0 <= j < profile.stacks[i].0.addrs.len() ==> (
        #[trigger] profile.stacks[i].0.addrs[j]) > 0
    &&& forall|i: int|
        0 <= i < profile.stacks.len() ==> weight_fits((#[trigger] profile.stacks[i]).0.weight)
    &&& 5 + 3 * profile.mappings.len() + 2 * profile.stacks.len() <= i64::MAX
}

/// The comment about a mapping.
///
/// Takes a shortcut and assumes the ELF type is always `ET_DYN`. This is true for shared
/// libraries and for position-independent executables, so it should always be true for
/// any mappings there are.
fn comment_text(mapping: &crate::mappings::Mapping) -> (text: String)
    ensures
        text@ == mapping_comment(mapping@),
{
    let mut text: String = "executableInfo=".to_owned();
    push_hex(&mut text, ELF_TYPE_DYN);
    text.push(';');
    push_hex(&mut text, mapping.file_offset);
    text.push(';');
    push_hex(&mut text, mapping.memory_offset as u64);
    assert(text@ =~= mapping_comment(mapping@));
    text
}

/// The strings of fewer mappings are the first ones.
proof fn lemma_mappings_strings_prefix(
    mappings: Seq<MappingView>,
    paths: Seq<Seq<char>>,
    count: int,
)
    requires
        0 <= count <= mappings.len(),
    ensures
        mappings_strings(mappings.take(count), paths).is_prefix_of(
            mappings_strings(mappings, paths),
        ),
    decreases mappings.len(),
{
    if count < mappings.len() {
        lemma_mappings_strings_prefix(mappings.drop_last(), paths, count);
        assert(mappings.drop_last().take(count) =~= mappings.take(count));
    } else {
        assert(mappings.take(count) =~= mappings);
    }
}

/// The message of a mapping, and its comment.
fn one_mapping_message(
    mapping: &crate::mappings::Mapping,
    path: &str,
    id: u64,
    strings: &mut StringTable,
    Ghost(before): Ghost<Seq<Seq<char>>>,
    Ghost(all): Ghost<Seq<Seq<char>>>,
) -> (message: (Mapping, i64))
    requires
        old(strings).wf(),
        old(strings)@ == distinct(before),
        (before + mapping_strings(mapping@, path@)).is_prefix_of(all),
        distinct(all).len() <= i64::MAX,
    ensures
        final(strings).wf(),
        final(strings)@ == distinct(before + mapping_strings(mapping@, path@)),
        message.0.id == id,
        message.0.memory_start == mapping.memory_start,
        message.0.memory_limit == mapping.memory_end,
        message.0.file_offset == mapping.file_offset,
        message.0.filename == string_index(distinct(all), path@),
        message.0.build_id == match mapping@.build_id {
            Some(build_id) => string_index(distinct(all), hex_bytes(build_id)),
            None => 0,
        },
        message.1 == string_index(distinct(all), mapping_comment(mapping@)),
{
    let ghost after = before + mapping_strings(mapping@, path@);
    let ghost with_path = before.push(path@);
    assert(with_path.is_prefix_of(after));
    let filename: i64 = intern(strings, path, Ghost(before), Ghost(all));
    let ghost mut with_build_id = with_path;
    let build_id: i64 = match &mapping.build_id {
        Some(build_id) => {
            let text: String = build_id.to_text();
            proof {
                with_build_id = with_path.push(text@);
                assert(with_build_id.is_prefix_of(after));
            }
            intern(strings, text.as_str(), Ghost(with_path), Ghost(all))
        },
        None => 0,
    };
    let comment: String = comment_text(mapping);
    assert(with_build_id.push(comment@) =~= after);
    let comment_index: i64 = intern(strings, comment.as_str(), Ghost(with_build_id), Ghost(all));
    let message = Mapping {
        id,
        memory_start: mapping.memory_start as u64,
        memory_limit: mapping.memory_end as u64,
        file_offset: mapping.file_offset,
        filename,
        build_id,
    };
    (message, comment_index)
}

/// The messages of the mappings, and their comments.
fn mapping_messages(
    mappings: &Vec<crate::mappings::Mapping>,
    paths: &Vec<String>,
    strings: &mut StringTable,
    Ghost(front): Ghost<Seq<Seq<char>>>,
    Ghost(all): Ghost<Seq<Seq<char>>>,
) -> (messages: (Vec<Mapping>, Vec<i64>))
    requires
        paths@.len() == mappings@.len(),
        old(strings).wf(),
        old(strings)@ == distinct(front),
        (front + mappings_strings(mapping_views(mappings@), texts(paths@))).is_prefix_of(all),
        distinct(all).len() <= i64::MAX,
    ensures
        final(strings).wf(),
        final(strings)@ == distinct(
            front + mappings_strings(mapping_views(mappings@), texts(paths@)),
        ),
        messages.0@ == Seq::new(
            mappings@.len(),
            |i: int|
                mapping_message(mapping_views(mappings@), texts(paths@), distinct(all), i),
        ),
        messages.1@ == Seq::new(
            mappings@.len(),
            |i: int| string_index(distinct(all), mapping_comment(mapping_views(mappings@)[i])),
        ),
{
    let ghost views = mapping_views(mappings@);
    let ghost names = texts(paths@);
    let mut messages: Vec<Mapping> = Vec::new();
    let mut comments: Vec<i64> = Vec::new();
    let mut i: usize = 0;
    assert(views.take(0) =~= Seq::empty());
    assert(front + mappings_strings(views.take(0), names) =~= front);
    while i < mappings.len()
        invariant
            views == mapping_views(mappings@),
            names == texts(paths@),
            paths@.len() == mappings@.len(),
            i <= mappings@.len(),
            strings.wf(),
            strings@ == distinct(front + mappings_strings(views.take(i as int), names)),
            (front + mappings_strings(views, names)).is_prefix_of(all),
            distinct(all).len() <= i64::MAX,
            messages@.len() == i,
            comments@.len() == i,
            forall|j: int|
                0 <= j < i ==> #[trigger] messages@[j] == mapping_message(
                    views,
                    names,
                    distinct(all),
                    j,
                ),
            forall|j: int|
                0 <= j < i ==> #[trigger] comments@[j] == string_index(
                    distinct(all),
                    mapping_comment(views[j]),
                ),
        decreases mappings@.len() - i,
    {
        let mapping = &mappings[i];
        let ghost before = front + mappings_strings(views.take(i as int), names);
        let ghost after = front + mappings_strings(views.take(i + 1), names);
        proof {
            assert(views[i as int] == mapping@);
            assert(names[i as int] == paths@[i as int]@);
            assert(views.take(i + 1).drop_last() =~= views.take(i as int));
            lemma_mappings_strings_prefix(views, names, i + 1);
            assert(after =~= before + mapping_strings(mapping@, names[i as int]));
            assert(after.is_prefix_of(all));
        }
        let (message, comment) = one_mapping_message(
            mapping,
            paths[i].as_str(),
            i as u64 + 1,
            strings,
            Ghost(before),
            Ghost(all),
        );
        assert(message == mapping_message(views, names, distinct(all), i as int));
        messages.push(message);
        comments.push(comment);
        i += 1;
    }
    assert(views.take(i as int) =~= views);
    (messages, comments)
}

/// The strings of fewer labels are the first ones.
proof fn lemma_label_strings_prefix(
    fewer: nat,
    count: nat,
    key: Seq<char>,
    annotation: Seq<char>,
)
    requires
        fewer <= count,
    ensures
        label_strings(fewer, key, annotation).is_prefix_of(label_strings(count, key, annotation)),
    decreases count,
{
    if fewer < count {
        lemma_label_strings_prefix(fewer, (count - 1) as nat, key, annotation);
    }
}

/// The strings and the addresses of fewer stacks are the first ones.
proof fn lemma_entries_prefix(
    entries: Seq<(StackView, Option<Seq<char>>)>,
    key: Seq<char>,
    count: int,
)
    requires
        0 <= count <= entries.len(),
    ensures
        entries_strings(entries.take(count), key).is_prefix_of(entries_strings(entries, key)),
        entries_addresses(entries.take(count)).is_prefix_of(entries_addresses(entries)),
    decreases entries.len(),
{
    if count < entries.len() {
        lemma_entries_prefix(entries.drop_last(), key, count);
        assert(entries.drop_last().take(count) =~= entries.take(count));
    } else {
        assert(entries.take(count) =~= entries);
    }
}

/// Adds the label of one more address of an annotated stack.
fn push_label(
    labels: &mut Vec<Label>,
    strings: &mut StringTable,
    key: &str,
    annotation: &str,
    Ghost(front): Ghost<Seq<Seq<char>>>,
    Ghost(count): Ghost<nat>,
    Ghost(all): Ghost<Seq<Seq<char>>>,
)
    requires
        old(strings).wf(),
        old(strings)@ == distinct(front + label_strings(count, key@, annotation@)),
        (front + label_strings(count + 1, key@, annotation@)).is_prefix_of(all),
        distinct(all).len() <= i64::MAX,
    ensures
        final(strings).wf(),
        final(strings)@ == distinct(front + label_strings(count + 1, key@, annotation@)),
        final(labels)@ == old(labels)@.push(
            Label {
                key: string_index(distinct(all), key@),
                str: string_index(distinct(all), annotation@),
            },
        ),
{
    let ghost before = front + label_strings(count, key@, annotation@);
    let ghost after = front + label_strings(count + 1, key@, annotation@);
    assert(after =~= before.push(key@).push(annotation@));
    assert(before.push(key@).is_prefix_of(after));
    let key_index: i64 = intern(strings, key, Ghost(before), Ghost(all));
    let str_index: i64 = intern(strings, annotation, Ghost(before.push(key@)), Ghost(all));
    labels.push(Label { key: key_index, str: str_index });
}

/// The whole part of a weight that has one that fits.
fn weight_value(weight: Double) -> (value: i64)
    requires
        weight_fits(weight),
    ensures
        value == sample_value(weight),
{
    let whole: Double = weight.trunc();
    let value: Option<i64> = i64::try_cast_from(whole);
    value.unwrap()
}

/// The message of a stack.
fn one_sample_message(
    stack: &WeightedStack,
    annotation: Option<&str>,
    key: &str,
    strings: &mut StringTable,
    locations: &mut Vec<Location>,
    ids: &mut BTreeMap<u64, u64>,
    messages: &Vec<Mapping>,
    Ghost(mappings): Ghost<Seq<MappingView>>,
    Ghost(front): Ghost<Seq<Seq<char>>>,
    Ghost(all): Ghost<Seq<Seq<char>>>,
    Ghost(visited): Ghost<Seq<u64>>,
    Ghost(addresses): Ghost<Seq<u64>>,
) -> (sample: Sample)
    requires
        weight_fits(stack.weight),
        forall|j: int| 0 <= j < stack.addrs@.len() ==> stack.addrs@[j] > 0,
        old(strings).wf(),
        old(strings)@ == distinct(front),
        (front + entry_strings((stack@, optional_text(annotation)), key@)).is_prefix_of(all),
        distinct(all).len() <= i64::MAX,
        mappings_match(messages@, mappings),
        locations_match(old(locations)@, mappings, distinct(visited)),
        ids_match(old(ids)@, distinct(visited)),
        (visited + stack_addresses(stack.addrs@)).is_prefix_of(addresses),
        forall|i: int| 0 <= i < addresses.len() ==> addresses[i] < u64::MAX,
    ensures
        final(strings).wf(),
        final(strings)@ == distinct(
            front + entry_strings((stack@, optional_text(annotation)), key@),
        ),
        locations_match(
            final(locations)@,
            mappings,
            distinct(visited + stack_addresses(stack.addrs@)),
        ),
        ids_match(final(ids)@, distinct(visited + stack_addresses(stack.addrs@))),
        sample@ == sample_message(
            (stack@, optional_text(annotation)),
            distinct(addresses),
            distinct(all),
            key@,
        ),
{
    let value: i64 = weight_value(stack.weight);
    let mut values: Vec<i64> = Vec::new();
    values.push(value);
    let mut location_ids: Vec<u64> = Vec::new();
    let mut labels: Vec<Label> = Vec::new();
    let count: usize = stack.addrs.len();
    let ghost own = stack_addresses(stack.addrs@);
    let ghost entry = (stack@, optional_text(annotation));
    let ghost expected = sample_message(entry, distinct(addresses), distinct(all), key@);
    let mut i: usize = 0;
    proof {
        assert(own.take(0) =~= Seq::empty());
        assert(visited + own.take(0) =~= visited);
        if annotation is Some {
            assert(front + label_strings(0, key@, optional_text(annotation)->0) =~= front);
        }
    }
    while i < count
        invariant
            i <= count == stack.addrs@.len(),
            forall|j: int| 0 <= j < stack.addrs@.len() ==> stack.addrs@[j] > 0,
            own == stack_addresses(stack.addrs@),
            entry == (stack@, optional_text(annotation)),
            expected == sample_message(entry, distinct(addresses), distinct(all), key@),
            strings.wf(),
            match annotation {
                Some(annotation) => strings@ == distinct(
                    front + label_strings(i as nat, key@, annotation@),
                ),
                None => strings@ == distinct(front),
            },
            (front + entry_strings(entry, key@)).is_prefix_of(all),
            distinct(all).len() <= i64::MAX,
            mappings_match(messages@, mappings),
            locations_match(locations@, mappings, distinct(visited + own.take(i as int))),
            ids_match(ids@, distinct(visited + own.take(i as int))),
            (visited + own).is_prefix_of(addresses),
            forall|j: int| 0 <= j < addresses.len() ==> addresses[j] < u64::MAX,
            location_ids@ == expected.location_id.take(i as int),
            annotation is Some ==> labels@ == expected.label.take(i as int),
            annotation is None ==> labels@ == Seq::<Label>::empty(),
        decreases count - i,
    {
        let address: u64 = stack.addrs[count - 1 - i] as u64 - 1;
        let ghost before = visited + own.take(i as int);
        proof {
            assert(own[i as int] == address);
            assert(own.take(i + 1) =~= own.take(i as int).push(address));
            assert(visited + own.take(i + 1) =~= before.push(address));
            assert((visited + own.take(i + 1)).is_prefix_of(visited + own));
        }
        let id: u64 = visit_address(
            locations,
            ids,
            messages,
            address,
            Ghost(mappings),
            Ghost(before),
            Ghost(addresses),
        );
        location_ids.push(id);
        assert(expected.location_id.take(i + 1) =~= expected.location_id.take(i as int).push(id));
        match annotation {
            Some(annotation) => {
                proof {
                    lemma_label_strings_prefix((i + 1) as nat, count as nat, key@, annotation@);
                    assert((front + label_strings((i + 1) as nat, key@, annotation@)).is_prefix_of(
                        front + entry_strings(entry, key@),
                    ));
                }
                push_label(
                    &mut labels,
                    strings,
                    key,
                    annotation,
                    Ghost(front),
                    Ghost(i as nat),
                    Ghost(all),
                );
                assert(expected.label.take(i + 1) =~= expected.label.take(i as int).push(
                    expected.label[i as int],
                ));
            },
            None => {},
        }
        i += 1;
    }
    proof {
        assert(own.take(i as int) =~= own);
        assert(expected.location_id.take(i as int) =~= expected.location_id);
        if annotation is Some {
            assert(expected.label.take(i as int) =~= expected.label);
        } else {
            assert(front + entry_strings(entry, key@) =~= front);
        }
        assert(values@ =~= expected.value);
    }
    Sample { location_id: location_ids, value: values, label: labels }
}

/// What some bytes read as text: as UTF-8, with replacement characters for what is not.
pub uninterp spec fn lossy_text(bytes: Seq<u8>) -> Seq<char>;

/// Reads bytes as text, with `String::from_utf8_lossy`.
///
/// That the text is a function of the bytes is claimed, and that it is their decoding where they
/// are valid UTF-8. Which replacement characters stand for invalid bytes is left unsaid.
#[verifier::external_body]
fn to_string_lossy(bytes: &[u8]) -> (text: String)
    ensures
        text@ == lossy_text(bytes@),
        valid_utf8(bytes@) ==> text@ == decode_utf8(bytes@),
{
    String::from_utf8_lossy(bytes).into_owned()
}

/// The texts of the paths of some mappings.
pub open spec fn path_texts(mappings: Seq<MappingView>) -> Seq<Seq<char>> {
    mappings.map_values(|mapping: MappingView| lossy_text(mapping.pathname))
}

/// The text of an optional string.
pub open spec fn optional_string(string: Option<String>) -> Option<Seq<char>> {
    match string {
        Some(string) => Some(string@),
        None => None,
    }
}

/// The text of a pair of strings.
pub open spec fn pair_text(pair: (&str, &str)) -> (Seq<char>, Seq<char>) {
    (pair.0@, pair.1@)
}

/// Addresses of stacks are below the greatest one.
pub(crate) proof fn lemma_entries_addresses(entries: Seq<(StackView, Option<Seq<char>>)>)
    requires
        forall|i: int, j: int|
            0 <= i < entries.len() && 0 <= j < entries[i].0.addrs.len() ==> (
            #[trigger] entries[i].0.addrs[j]) > 0,
    ensures
        forall|i: int|
            0 <= i < entries_addresses(entries).len() ==> #[trigger] entries_addresses(entries)[i]
                < u64::MAX,
    decreases entries.len(),
{
    if entries.len() > 0 {
        let init = entries.drop_last();
        assert forall|i: int, j: int|
            0 <= i < init.len() && 0 <= j < init[i].0.addrs.len() implies (
        #[trigger] init[i].0.addrs[j]) > 0 by {
            assert(entries[i].0.addrs[j] > 0);
        }
        lemma_entries_addresses(init);
        let last = entries.last().0.addrs;
        assert forall|i: int| 0 <= i < stack_addresses(last).len() implies
            #[trigger] stack_addresses(last)[i] < u64::MAX by {
            assert(entries[entries.len() - 1].0.addrs[last.len() - 1 - i] > 0);
        }
        assert forall|i: int| 0 <= i < entries_addresses(entries).len() implies
            #[trigger] entries_addresses(entries)[i] < u64::MAX by {
            if i < entries_addresses(init).len() {
                assert(entries_addresses(entries)[i] == entries_addresses(init)[i]);
            } else {
                assert(entries_addresses(entries)[i] == stack_addresses(last)[i
                    - entries_addresses(init).len()]);
            }
        }
    }
}

impl StackProfile {
    /// The samples of the stacks, and their locations.
    fn sample_messages(
        &self,
        key: &str,
        strings: &mut StringTable,
        messages: &Vec<Mapping>,
        Ghost(front): Ghost<Seq<Seq<char>>>,
        Ghost(all): Ghost<Seq<Seq<char>>>,
    ) -> (samples: (Vec<Sample>, Vec<Location>))
        requires
            convertible(self@),
            old(strings).wf(),
            old(strings)@ == distinct(front),
            (front + entries_strings(self@.entries(), key@)).is_prefix_of(all),
            distinct(all).len() <= i64::MAX,
            mappings_match(messages@, self@.mappings),
        ensures
            final(strings)@ == distinct(front + entries_strings(self@.entries(), key@)),
            sample_views(samples.0@) == self@.entries().map_values(
                |entry: (StackView, Option<Seq<char>>)|
                    sample_message(
                        entry,
                        distinct(entries_addresses(self@.entries())),
                        distinct(all),
                        key@,
                    ),
            ),
            locations_match(
                samples.1@,
                self@.mappings,
                distinct(entries_addresses(self@.entries())),
            ),
    {
        let ghost entries = self@.entries();
        let ghost addresses = entries_addresses(entries);
        let ghost expected = entries.map_values(
            |entry: (StackView, Option<Seq<char>>)|
                sample_message(entry, distinct(addresses), distinct(all), key@),
        );
        let mut samples: Vec<Sample> = Vec::new();
        let mut locations: Vec<Location> = Vec::new();
        let mut ids: BTreeMap<u64, u64> = BTreeMap::new();
        let mut iter = self.iter();
        proof {
            assert forall|i: int, j: int|
                0 <= i < entries.len() && 0 <= j < entries[i].0.addrs.len() implies (
            #[trigger] entries[i].0.addrs[j]) > 0 by {
                assert(self@.stacks[i].0.addrs[j] > 0);
            }
            lemma_entries_addresses(entries);
            assert(entries.take(0) =~= Seq::empty());
            assert(front + entries_strings(entries.take(0), key@) =~= front);
            assert(sample_views(samples@) =~= expected.take(0));
        }
        loop
            invariant
                convertible(self@),
                entries == self@.entries(),
                addresses == entries_addresses(entries),
                expected == entries.map_values(
                    |entry: (StackView, Option<Seq<char>>)|
                        sample_message(entry, distinct(addresses), distinct(all), key@),
                ),
                forall|i: int| 0 <= i < addresses.len() ==> addresses[i] < u64::MAX,
                iter.profile() == *self,
                iter.position() <= entries.len(),
                strings.wf(),
                strings@ == distinct(
                    front + entries_strings(entries.take(iter.position() as int), key@),
                ),
                (front + entries_strings(entries, key@)).is_prefix_of(all),
                distinct(all).len() <= i64::MAX,
                mappings_match(messages@, self@.mappings),
                locations_match(
                    locations@,
                    self@.mappings,
                    distinct(entries_addresses(entries.take(iter.position() as int))),
                ),
                ids_match(
                    ids@,
                    distinct(entries_addresses(entries.take(iter.position() as int))),
                ),
                sample_views(samples@) == expected.take(iter.position() as int),
            ensures
                iter.position() == entries.len(),
            decreases entries.len() - iter.position(),
        {
            let ghost i = iter.position() as int;
            proof {
                if i < entries.len() {
                    assert(self@.stacks[i].1 matches Some(index) ==> index
                        < self@.annotations.len());
                }
            }
            match iter.next() {
                None => {
                    break;
                },
                Some((stack, annotation)) => {
                    let ghost before = front + entries_strings(entries.take(i), key@);
                    let ghost after = front + entries_strings(entries.take(i + 1), key@);
                    let ghost visited = entries_addresses(entries.take(i));
                    proof {
                        assert(entries[i] == (stack@, optional_text(annotation)));
                        assert(self@.stacks[i].0 == stack@);
                        assert forall|j: int| 0 <= j < stack.addrs@.len() implies
                            stack.addrs@[j] > 0 by {
                            assert(self@.stacks[i].0.addrs[j] > 0);
                        }
                        assert(entries.take(i + 1).drop_last() =~= entries.take(i));
                        assert(after =~= before + entry_strings(entries[i], key@));
                        lemma_entries_prefix(entries, key@, i + 1);
                        assert(after.is_prefix_of(front + entries_strings(entries, key@)));
                    }
                    let sample: Sample = one_sample_message(
                        stack,
                        annotation,
                        key,
                        strings,
                        &mut locations,
                        &mut ids,
                        messages,
                        Ghost(self@.mappings),
                        Ghost(before),
                        Ghost(all),
                        Ghost(visited),
                        Ghost(addresses),
                    );
                    let ghost previous = sample_views(samples@);
                    let ghost view = sample@;
                    samples.push(sample);
                    proof {
                        assert(sample_views(samples@) =~= previous.push(view));
                        assert(expected[i] == view);
                        assert(expected.take(i + 1) =~= expected.take(i).push(expected[i]));
                    }
                },
            }
        }
        proof {
            assert(entries.take(entries.len() as int) =~= entries);
            assert(expected.take(entries.len() as int) =~= expected);
        }
        (samples, locations)
    }

    /// The message of the profile, where the paths of its mappings read as the given texts.
    pub fn message_with_paths(
        &self,
        paths: &Vec<String>,
        sample_type: (&str, &str),
        period_type: (&str, &str),
        anno_key: Option<String>,
        time_nanos: i64,
    ) -> (message: Profile)
        requires
            convertible(self@),
            paths@.len() == self.mappings@.len(),
        ensures
            message@ == profile_message(
                self@,
                texts(paths@),
                pair_text(sample_type),
                pair_text(period_type),
                label_key(optional_string(anno_key)),
                time_nanos,
            ),
    {
        let ghost sample_names = pair_text(sample_type);
        let ghost period_names = pair_text(period_type);
        let ghost optional_key = optional_string(anno_key);
        let key: String = match anno_key {
            Some(key) => key,
            None => "annotation".to_owned(),
        };
        let ghost all = profile_strings(self@, texts(paths@), sample_names, period_names, key@);
        let ghost none = seq![Seq::<char>::empty()];
        let ghost names = seq![
            Seq::<char>::empty(),
            sample_names.0,
            sample_names.1,
            period_names.0,
            period_names.1,
        ];
        let ghost front = names + mappings_strings(self@.mappings, texts(paths@));
        let mut strings = StringTable::new();
        proof {
            lemma_profile_strings_len(self@, texts(paths@), sample_names, period_names, key@);
            lemma_distinct_push(Seq::<Seq<char>>::empty(), Seq::<char>::empty());
            assert(Seq::<Seq<char>>::empty().push(Seq::<char>::empty()) =~= none);
            assert(Seq::<Seq<char>>::empty().push(Seq::<char>::empty()) =~= strings@);
            let first = none.push(sample_names.0);
            let second = first.push(sample_names.1);
            let third = second.push(period_names.0);
            assert(names =~= third.push(period_names.1));
            assert(names.is_prefix_of(all));
            assert(first.is_prefix_of(names));
            assert(second.is_prefix_of(names));
            assert(third.is_prefix_of(names));
            assert(front.is_prefix_of(all));
        }
        let type_: i64 = intern(&mut strings, sample_type.0, Ghost(none), Ghost(all));
        let ghost asked = none.push(sample_names.0);
        let unit: i64 = intern(&mut strings, sample_type.1, Ghost(asked), Ghost(all));
        let ghost asked = asked.push(sample_names.1);
        let period: i64 = intern(&mut strings, period_type.0, Ghost(asked), Ghost(all));
        let ghost asked = asked.push(period_names.0);
        let period_unit: i64 = intern(&mut strings, period_type.1, Ghost(asked), Ghost(all));
        assert(asked.push(period_names.1) =~= names);
        let (mapping, comment) = mapping_messages(
            &self.mappings,
            paths,
            &mut strings,
            Ghost(names),
            Ghost(all),
        );
        let (sample, location) = self.sample_messages(
            key.as_str(),
            &mut strings,
            &mapping,
            Ghost(front),
            Ghost(all),
        );
        let mut value_types: Vec<ValueType> = Vec::new();
        value_types.push(ValueType { type_, unit });
        let message = Profile {
            sample_type: value_types,
            sample,
            mapping,
            location,
            string_table: strings.finish(),
            time_nanos,
            period_type: Some(ValueType { type_: period, unit: period_unit }),
            comment,
        };
        proof {
            let expected = profile_message(
                self@,
                texts(paths@),
                sample_names,
                period_names,
                key@,
                time_nanos,
            );
            assert(message@.sample_type =~= expected.sample_type);
            assert(message@.location =~= expected.location);
            assert(message@.mapping =~= expected.mapping);
            assert(message@.comment =~= expected.comment);
            assert(message@.sample =~= expected.sample);
        }
        message
    }

    /// The texts of the paths of the mappings.
    fn paths(&self) -> (paths: Vec<String>)
        ensures
            texts(paths@) == path_texts(self@.mappings),
    {
        let mut paths: Vec<String> = Vec::new();
        let mut i: usize = 0;
        while i < self.mappings.len()
            invariant
                i <= self.mappings@.len(),
                paths@.len() == i,
                forall|j: int|
                    0 <= j < i ==> (#[trigger] paths@[j])@ == lossy_text(
                        self.mappings@[j].pathname@,
                    ),
            decreases self.mappings@.len() - i,
        {
            let path: String = to_string_lossy(self.mappings[i].pathname.as_slice());
            paths.push(path);
            i += 1;
        }
        assert(texts(paths@) =~= path_texts(self@.mappings));
        paths
    }

    /// The message of the profile.
    pub fn message(
        &self,
        sample_type: (&str, &str),
        period_type: (&str, &str),
        anno_key: Option<String>,
        time_nanos: i64,
    ) -> (message: Profile)
        requires
            convertible(self@),
        ensures
            message@ == profile_message(
                self@,
                path_texts(self@.mappings),
                pair_text(sample_type),
                pair_text(period_type),
                label_key(optional_string(anno_key)),
                time_nanos,
            ),
    {
        let paths: Vec<String> = self.paths();
        assert(texts(paths@).len() == paths@.len());
        self.message_with_paths(&paths, sample_type, period_type, anno_key, time_nanos)
    }

    /// Whether the profile can be converted, as [`to_pprof`](Self::to_pprof) needs it.
    pub fn is_convertible(&self) -> (result: bool)
        ensures
            result == convertible(self@),
    {
        let count: u128 = 5 + 3 * self.mappings.len() as u128 + 2 * self.stacks.len() as u128;
        if count > i64::MAX as u128 {
            return false;
        }
        let mut i: usize = 0;
        while i < self.stacks.len()
            invariant
                i <= self.stacks@.len(),
                forall|k: int|
                    0 <= k < i ==> ((#[trigger] self@.stacks[k]).1 matches Some(index) ==> index
                        < self@.annotations.len()),
                forall|k: int, j: int|
                    0 <= k < i && 0 <= j < self@.stacks[k].0.addrs.len() ==> (
                    #[trigger] self@.stacks[k].0.addrs[j]) > 0,
                forall|k: int| 0 <= k < i ==> weight_fits((#[trigger] self@.stacks[k]).0.weight),
            decreases self.stacks@.len() - i,
        {
            let entry = &self.stacks[i];
            assert(self@.stacks[i as int] == (entry.0@, entry.1));
            if let Some(index) = entry.1 {
                if index >= self.annotations.len() {
                    return false;
                }
            }
            if !check_weight(entry.0.weight) {
                return false;
            }
            let mut j: usize = 0;
            while j < entry.0.addrs.len()
                invariant
                    i < self.stacks@.len(),
                    j <= entry.0.addrs@.len(),
                    self@.stacks[i as int] == (entry.0@, entry.1),
                    forall|k: int| 0 <= k < j ==> entry.0.addrs@[k] > 0,
                decreases entry.0.addrs@.len() - j,
            {
                if entry.0.addrs[j] == 0 {
                    assert(self@.stacks[i as int].0.addrs[j as int] == 0);
                    return false;
                }
                j += 1;
            }
            i += 1;
        }
        true
    }

    /// Converts the profile into the pprof format.
    ///
    /// pprof encodes profiles as gzipped protobuf messages of the Profile message type
    /// (see `pprof/profile.proto`). The time is that of the profile, in nanoseconds since the
    /// Unix epoch.
    pub fn to_pprof(
        &self,
        sample_type: (&str, &str),
        period_type: (&str, &str),
        anno_key: Option<String>,
        time_nanos: i64,
    ) -> (bytes: Vec<u8>)
        requires
            convertible(self@),
        ensures
            bytes@ == gzip_bytes(
                profile_bytes(
                    profile_message(
                        self@,
                        path_texts(self@.mappings),
                        pair_text(sample_type),
                        pair_text(period_type),
                        label_key(optional_string(anno_key)),
                        time_nanos,
                    ),
                ),
            ),
            seq![0x1fu8, 0x8b, 8, 0, 0, 0, 0, 0, 0, 255].is_prefix_of(bytes@),
    {
        let message: Profile = self.message(sample_type, period_type, anno_key, time_nanos);
        compress_profile(&message)
    }

    /// Converts a heap profile into the pprof format: what is in use, in bytes.
    pub fn heap_pprof(&self, time_nanos: i64) -> (bytes: Vec<u8>)
        requires
            convertible(self@),
        ensures
            bytes@ == gzip_bytes(
                profile_bytes(
                    profile_message(
                        self@,
                        path_texts(self@.mappings),
                        ("inuse_space"@, "bytes"@),
                        ("space"@, "bytes"@),
                        "annotation"@,
                        time_nanos,
                    ),
                ),
            ),
    {
        self.to_pprof(("inuse_space", "bytes"), ("space", "bytes"), None, time_nanos)
    }
}

/// Whether a weight can be the value of a sample.
fn check_weight(weight: Double) -> (result: bool)
    ensures
        result == weight_fits(weight),
{
    let value: Option<i64> = i64::try_cast_from(weight.trunc());
    value.is_some()
}

} // verus!
