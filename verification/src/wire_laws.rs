//! A reader of the protobuf format, and that it gets back what was encoded.

use vstd::prelude::*;
use vstd::utf8::{decode_utf8, encode_utf8, valid_utf8};

use crate::proto::{Label, Location, Mapping, ProfileView, SampleView, ValueType};
use crate::wire::{
    bytes_field, field_key, int64_field, int64_number, label_bytes, location_bytes, mapping_bytes,
    optional_item, packed_field, profile_bytes, repeated_field, sample_bytes, value_type_bytes,
    varint, varints, WireType,
};

verus! {

/// The number that starts at a position, and the position behind it.
pub open spec fn read_varint(bytes: Seq<u8>, at: int) -> Option<(nat, int)>
    decreases bytes.len() - at,
{
    if at < 0 || at >= bytes.len() {
        None
    } else if bytes[at] < 128 {
        Some((bytes[at] as nat, at + 1))
    } else {
        match read_varint(bytes, at + 1) {
            Some((rest, next)) => Some(((bytes[at] - 128 + 128 * rest) as nat, next)),
            None => None,
        }
    }
}

/// The value of a field.
pub enum FieldValue {
    Number(nat),
    Bytes(Seq<u8>),
}

/// A field of a message.
pub struct Field {
    pub tag: nat,
    pub value: FieldValue,
}

/// The field that starts at a position, and the position behind it.
pub open spec fn read_field(bytes: Seq<u8>, at: int) -> Option<(Field, int)> {
    match read_varint(bytes, at) {
        None => None,
        Some((key, behind_key)) => match read_varint(bytes, behind_key) {
            None => None,
            Some((number, next)) => if key % 8 == WireType::Varint.number() {
                Some((Field { tag: key / 8, value: FieldValue::Number(number) }, next))
            } else if key % 8 == WireType::LengthDelimited.number() && next + number
                <= bytes.len() {
                let contents = bytes.subrange(next, next + number);
                Some((Field { tag: key / 8, value: FieldValue::Bytes(contents) }, next + number))
            } else {
                None
            },
        },
    }
}

/// The fields of a message, from a position on.
pub open spec fn read_fields(bytes: Seq<u8>, at: int) -> Option<Seq<Field>>
    decreases bytes.len() - at,
{
    if at == bytes.len() {
        Some(Seq::empty())
    } else {
        match read_field(bytes, at) {
            None => None,
            Some((field, next)) => if next <= at || next > bytes.len() {
                None
            } else {
                match read_fields(bytes, next) {
                    Some(fields) => Some(seq![field] + fields),
                    None => None,
                }
            },
        }
    }
}

/// The encoding of a field.
pub open spec fn field_bytes(field: Field) -> Seq<u8> {
    match field.value {
        FieldValue::Number(number) => field_key(field.tag, WireType::Varint) + varint(number),
        FieldValue::Bytes(bytes) => bytes_field(field.tag, bytes),
    }
}

/// The encoding of some fields, one after the other.
pub open spec fn fields_bytes(fields: Seq<Field>) -> Seq<u8>
    decreases fields.len(),
{
    if fields.len() == 0 {
        Seq::empty()
    } else {
        fields_bytes(fields.drop_last()) + field_bytes(fields.last())
    }
}

/// A number is read back, wherever it is.
pub proof fn law_varint_is_read_back(before: Seq<u8>, number: nat, after: Seq<u8>)
    ensures
        read_varint(before + varint(number) + after, before.len() as int) == Some(
            (number, (before.len() + varint(number).len()) as int),
        ),
        varint(number).len() > 0,
    decreases number,
{
    let bytes = before + varint(number) + after;
    let at = before.len() as int;
    if number < 128 {
        assert(bytes[at] == number);
    } else {
        let first = (128 + number % 128) as u8;
        assert(bytes[at] == first);
        law_varint_is_read_back(before.push(first), number / 128, after);
        assert(before.push(first) + varint(number / 128) + after =~= bytes);
    }
}

/// A field is read back, wherever it is.
pub proof fn law_field_is_read_back(before: Seq<u8>, field: Field, after: Seq<u8>)
    ensures
        read_field(before + field_bytes(field) + after, before.len() as int) == Some(
            (field, (before.len() + field_bytes(field).len()) as int),
        ),
        field_bytes(field).len() > 0,
{
    let bytes = before + field_bytes(field) + after;
    match field.value {
        FieldValue::Number(number) => {
            let key = field_key(field.tag, WireType::Varint);
            law_varint_is_read_back(before, field.tag * 8, varint(number) + after);
            law_varint_is_read_back(before + key, number, after);
            assert(before + key + (varint(number) + after) =~= bytes);
            assert(before + key + varint(number) + after =~= bytes);
            assert((field.tag * 8) / 8 == field.tag);
        },
        FieldValue::Bytes(contents) => {
            let key = field_key(field.tag, WireType::LengthDelimited);
            let size = varint(contents.len());
            law_varint_is_read_back(before, field.tag * 8 + 2, size + contents + after);
            law_varint_is_read_back(before + key, contents.len(), contents + after);
            assert(before + key + (size + contents + after) =~= bytes);
            assert(before + key + size + (contents + after) =~= bytes);
            assert((field.tag * 8 + 2) / 8 == field.tag);
            let start = (before.len() + key.len() + size.len()) as int;
            assert(bytes.subrange(start, start + contents.len()) =~= contents);
        },
    }
}

/// The encodings of two lists of fields make that of both.
proof fn lemma_fields_append(left: Seq<Field>, right: Seq<Field>)
    ensures
        fields_bytes(left + right) == fields_bytes(left) + fields_bytes(right),
    decreases right.len(),
{
    if right.len() == 0 {
        assert(left + right =~= left);
        assert(fields_bytes(left) + fields_bytes(right) =~= fields_bytes(left));
    } else {
        assert((left + right).drop_last() =~= left + right.drop_last());
        lemma_fields_append(left, right.drop_last());
        assert(fields_bytes(left) + (fields_bytes(right.drop_last()) + field_bytes(right.last()))
            =~= (fields_bytes(left) + fields_bytes(right.drop_last())) + field_bytes(right.last()));
    }
}

/// [`law_fields_are_read_back`], behind some other bytes.
proof fn lemma_fields_are_read_back(before: Seq<u8>, fields: Seq<Field>)
    ensures
        read_fields(before + fields_bytes(fields), before.len() as int) == Some(fields),
    decreases fields.len(),
{
    let bytes = before + fields_bytes(fields);
    if fields.len() == 0 {
        assert(fields =~= Seq::empty());
        assert(bytes =~= before);
    } else {
        let field = fields.first();
        let rest = fields.drop_first();
        assert(fields =~= seq![field] + rest);
        lemma_fields_append(seq![field], rest);
        assert(seq![field].drop_last() =~= Seq::empty());
        assert(fields_bytes(seq![field]) =~= field_bytes(field)) by {
            reveal_with_fuel(fields_bytes, 2);
        }
        law_field_is_read_back(before, field, fields_bytes(rest));
        lemma_fields_are_read_back(before + field_bytes(field), rest);
        assert(before + field_bytes(field) + fields_bytes(rest) =~= bytes);
    }
}

/// The fields of a message are read back.
pub proof fn law_fields_are_read_back(fields: Seq<Field>)
    ensures
        read_fields(fields_bytes(fields), 0) == Some(fields),
{
    lemma_fields_are_read_back(Seq::empty(), fields);
    assert(Seq::<u8>::empty() + fields_bytes(fields) =~= fields_bytes(fields));
}

/// The numbers with a tag, in their order.
pub open spec fn numbers_of(fields: Seq<Field>, tag: nat) -> Seq<nat>
    decreases fields.len(),
{
    if fields.len() == 0 {
        Seq::empty()
    } else {
        match fields.last().value {
            FieldValue::Number(number) if fields.last().tag == tag => numbers_of(
                fields.drop_last(),
                tag,
            ).push(number),
            _ => numbers_of(fields.drop_last(), tag),
        }
    }
}

/// The bytes with a tag, in their order.
pub open spec fn bytes_of(fields: Seq<Field>, tag: nat) -> Seq<Seq<u8>>
    decreases fields.len(),
{
    if fields.len() == 0 {
        Seq::empty()
    } else {
        match fields.last().value {
            FieldValue::Bytes(bytes) if fields.last().tag == tag => bytes_of(
                fields.drop_last(),
                tag,
            ).push(bytes),
            _ => bytes_of(fields.drop_last(), tag),
        }
    }
}

/// The number with a tag. The last one counts, and a missing one is zero.
pub open spec fn number_of(fields: Seq<Field>, tag: nat) -> nat {
    if numbers_of(fields, tag).len() == 0 {
        0
    } else {
        numbers_of(fields, tag).last()
    }
}

/// The fields of a message with a common tag.
pub enum Section {
    /// A number, which is left out if it is zero.
    Number(nat, nat),
    /// Any number of items.
    Items(nat, Seq<Seq<u8>>),
}

impl Section {
    /// The common tag.
    pub open spec fn tag(self) -> nat {
        match self {
            Section::Number(tag, _) => tag,
            Section::Items(tag, _) => tag,
        }
    }

    /// The fields.
    pub open spec fn fields(self) -> Seq<Field> {
        match self {
            Section::Number(tag, number) => if number == 0 {
                Seq::empty()
            } else {
                seq![Field { tag, value: FieldValue::Number(number) }]
            },
            Section::Items(tag, items) => items.map_values(
                |item: Seq<u8>| Field { tag, value: FieldValue::Bytes(item) },
            ),
        }
    }
}

/// The fields of some sections, one after the other.
pub open spec fn sections_fields(sections: Seq<Section>) -> Seq<Field>
    decreases sections.len(),
{
    if sections.len() == 0 {
        Seq::empty()
    } else {
        sections_fields(sections.drop_last()) + sections.last().fields()
    }
}

/// What two lists of fields hold is what both hold.
proof fn lemma_select_append(left: Seq<Field>, right: Seq<Field>, tag: nat)
    ensures
        numbers_of(left + right, tag) == numbers_of(left, tag) + numbers_of(right, tag),
        bytes_of(left + right, tag) == bytes_of(left, tag) + bytes_of(right, tag),
    decreases right.len(),
{
    if right.len() == 0 {
        assert(left + right =~= left);
        assert(numbers_of(left, tag) + numbers_of(right, tag) =~= numbers_of(left, tag));
        assert(bytes_of(left, tag) + bytes_of(right, tag) =~= bytes_of(left, tag));
    } else {
        assert((left + right).drop_last() =~= left + right.drop_last());
        lemma_select_append(left, right.drop_last(), tag);
        assert(numbers_of(left + right, tag) =~= numbers_of(left, tag) + numbers_of(right, tag));
        assert(bytes_of(left + right, tag) =~= bytes_of(left, tag) + bytes_of(right, tag));
    }
}

/// What the fields of a section hold.
proof fn lemma_select_section(section: Section, tag: nat)
    ensures
        numbers_of(section.fields(), tag) == match section {
            Section::Number(own, number) => if own == tag && number != 0 {
                seq![number]
            } else {
                Seq::<nat>::empty()
            },
            Section::Items(_, _) => Seq::<nat>::empty(),
        },
        bytes_of(section.fields(), tag) == match section {
            Section::Items(own, items) => if own == tag {
                items
            } else {
                Seq::<Seq<u8>>::empty()
            },
            Section::Number(_, _) => Seq::<Seq<u8>>::empty(),
        },
    decreases section.fields().len(),
{
    match section {
        Section::Number(own, number) => {
            reveal_with_fuel(numbers_of, 2);
            reveal_with_fuel(bytes_of, 2);
            if number != 0 {
                assert(section.fields().drop_last() =~= Seq::empty());
                assert(Seq::<nat>::empty().push(number) =~= seq![number]);
            }
        },
        Section::Items(own, items) => {
            if items.len() > 0 {
                lemma_select_section(Section::Items(own, items.drop_last()), tag);
                assert(section.fields().drop_last() =~= Section::Items(
                    own,
                    items.drop_last(),
                ).fields());
                assert(items.drop_last().push(items.last()) =~= items);
            } else {
                assert(items =~= Seq::empty());
            }
        },
    }
}

/// Whether no two sections have the same tag.
pub open spec fn distinct_tags(sections: Seq<Section>) -> bool {
    forall|i: int, j: int|
        0 <= i < j < sections.len() ==> (#[trigger] sections[i]).tag() != (
        #[trigger] sections[j]).tag()
}

/// What the fields of some sections hold, where only one of them may have the tag.
proof fn lemma_select_sections(sections: Seq<Section>, index: int, tag: nat)
    requires
        forall|i: int|
            0 <= i < sections.len() && i != index ==> (#[trigger] sections[i]).tag() != tag,
    ensures
        0 <= index < sections.len() ==> {
            &&& numbers_of(sections_fields(sections), tag) == numbers_of(
                sections[index].fields(),
                tag,
            )
            &&& bytes_of(sections_fields(sections), tag) == bytes_of(sections[index].fields(), tag)
        },
        !(0 <= index < sections.len()) ==> {
            &&& numbers_of(sections_fields(sections), tag) == Seq::<nat>::empty()
            &&& bytes_of(sections_fields(sections), tag) == Seq::<Seq<u8>>::empty()
        },
    decreases sections.len(),
{
    if sections.len() > 0 {
        let before = sections.drop_last();
        let last = sections.len() - 1;
        assert forall|i: int| 0 <= i < before.len() && i != index implies (
        #[trigger] before[i]).tag() != tag by {
            assert(before[i] == sections[i]);
        }
        lemma_select_sections(before, index, tag);
        lemma_select_append(sections_fields(before), sections.last().fields(), tag);
        lemma_select_section(sections.last(), tag);
        assert(sections[last] == sections.last());
        assert(Seq::<nat>::empty() + numbers_of(sections.last().fields(), tag) =~= numbers_of(
            sections.last().fields(),
            tag,
        ));
        assert(Seq::<Seq<u8>>::empty() + bytes_of(sections.last().fields(), tag) =~= bytes_of(
            sections.last().fields(),
            tag,
        ));
        if index != last {
            assert(numbers_of(sections_fields(before), tag) + Seq::<nat>::empty() =~= numbers_of(
                sections_fields(before),
                tag,
            ));
            assert(bytes_of(sections_fields(before), tag) + Seq::<Seq<u8>>::empty() =~= bytes_of(
                sections_fields(before),
                tag,
            ));
        }
    }
}

/// What is read of a section of a message whose sections have different tags.
proof fn lemma_section_is_read_back(sections: Seq<Section>, index: int)
    requires
        distinct_tags(sections),
        0 <= index < sections.len(),
    ensures
        match sections[index] {
            Section::Number(tag, number) => number_of(sections_fields(sections), tag) == number,
            Section::Items(tag, items) => bytes_of(sections_fields(sections), tag) == items,
        },
{
    let tag = sections[index].tag();
    assert forall|i: int| 0 <= i < sections.len() && i != index implies (
    #[trigger] sections[i]).tag() != tag by {
        if i < index {
            assert(sections[i].tag() != sections[index].tag());
        } else {
            assert(sections[index].tag() != sections[i].tag());
        }
    }
    lemma_select_sections(sections, index, tag);
    lemma_select_section(sections[index], tag);
}

/// The encoding of the fields of a section.
proof fn lemma_section_bytes(section: Section)
    ensures
        fields_bytes(section.fields()) == match section {
            Section::Number(tag, number) => if number == 0 {
                Seq::<u8>::empty()
            } else {
                field_key(tag, WireType::Varint) + varint(number)
            },
            Section::Items(tag, items) => repeated_field(tag, items),
        },
    decreases section.fields().len(),
{
    match section {
        Section::Number(tag, number) => {
            reveal_with_fuel(fields_bytes, 2);
            if number != 0 {
                assert(section.fields().drop_last() =~= Seq::empty());
                assert(fields_bytes(section.fields()) =~= field_key(tag, WireType::Varint) + varint(
                    number,
                ));
            }
        },
        Section::Items(tag, items) => {
            if items.len() > 0 {
                lemma_section_bytes(Section::Items(tag, items.drop_last()));
                assert(section.fields().drop_last() =~= Section::Items(
                    tag,
                    items.drop_last(),
                ).fields());
            }
        },
    }
}

/// The encoding of the fields of some sections.
pub open spec fn sections_bytes(sections: Seq<Section>) -> Seq<u8> {
    fields_bytes(sections_fields(sections))
}

/// The encoding of one more section.
proof fn lemma_sections_push(sections: Seq<Section>, section: Section)
    ensures
        sections_bytes(sections.push(section)) == sections_bytes(sections) + fields_bytes(
            section.fields(),
        ),
{
    assert(sections.push(section).drop_last() =~= sections);
    lemma_fields_append(sections_fields(sections), section.fields());
}

/// The encoding of a first section.
proof fn lemma_first_section(section: Section)
    ensures
        sections_bytes(seq![section]) == fields_bytes(section.fields()),
{
    lemma_sections_push(Seq::empty(), section);
    assert(Seq::empty().push(section) =~= seq![section]);
    assert(sections_bytes(Seq::empty()) + fields_bytes(section.fields()) =~= fields_bytes(
        section.fields(),
    ));
}

/// The signed number that is encoded as another one: that is its two's complement.
pub open spec fn signed(number: nat) -> i64 {
    if number < 0x8000_0000_0000_0000 {
        number as i64
    } else {
        (number - 0x1_0000_0000_0000_0000) as i64
    }
}

/// A signed number is read back.
pub proof fn law_int64_is_read_back(value: i64)
    ensures
        signed(int64_number(value)) == value,
        int64_number(value) == 0 <==> value == 0,
        int64_number(value) <= u64::MAX,
{
}

/// Two signed numbers with the tags 1 and 2.
spec fn pair_sections(first: i64, second: i64) -> Seq<Section> {
    seq![Section::Number(1, int64_number(first)), Section::Number(2, int64_number(second))]
}

/// Two signed numbers are read back.
proof fn lemma_pair(first: i64, second: i64)
    ensures
        ({
            let fields = sections_fields(pair_sections(first, second));
            &&& read_fields(int64_field(1, first) + int64_field(2, second), 0) == Some(fields)
            &&& signed(number_of(fields, 1)) == first
            &&& signed(number_of(fields, 2)) == second
        }),
{
    let sections = pair_sections(first, second);
    lemma_section_bytes(sections[0]);
    lemma_section_bytes(sections[1]);
    lemma_first_section(sections[0]);
    lemma_sections_push(seq![sections[0]], sections[1]);
    assert(seq![sections[0]].push(sections[1]) =~= sections);
    assert(sections_bytes(sections) == int64_field(1, first) + int64_field(2, second));
    law_fields_are_read_back(sections_fields(sections));
    lemma_section_is_read_back(sections, 0);
    lemma_section_is_read_back(sections, 1);
}

/// Reads a [`ValueType`].
pub open spec fn decode_value_type(bytes: Seq<u8>) -> Option<ValueType> {
    match read_fields(bytes, 0) {
        Some(fields) => Some(
            ValueType { type_: signed(number_of(fields, 1)), unit: signed(number_of(fields, 2)) },
        ),
        None => None,
    }
}

/// A [`ValueType`] is read back.
pub proof fn law_value_type_is_read_back(value_type: ValueType)
    ensures
        decode_value_type(value_type_bytes(value_type)) == Some(value_type),
{
    lemma_pair(value_type.type_, value_type.unit);
}

/// Reads a [`Label`].
pub open spec fn decode_label(bytes: Seq<u8>) -> Option<Label> {
    match read_fields(bytes, 0) {
        Some(fields) => Some(
            Label { key: signed(number_of(fields, 1)), str: signed(number_of(fields, 2)) },
        ),
        None => None,
    }
}

/// A [`Label`] is read back.
pub proof fn law_label_is_read_back(label: Label)
    ensures
        decode_label(label_bytes(label)) == Some(label),
{
    lemma_pair(label.key, label.str);
}

/// Reads a [`Location`].
pub open spec fn decode_location(bytes: Seq<u8>) -> Option<Location> {
    match read_fields(bytes, 0) {
        Some(fields) => Some(
            Location {
                id: number_of(fields, 1) as u64,
                mapping_id: number_of(fields, 2) as u64,
                address: number_of(fields, 3) as u64,
            },
        ),
        None => None,
    }
}

/// A [`Location`] is read back.
pub proof fn law_location_is_read_back(location: Location)
    ensures
        decode_location(location_bytes(location)) == Some(location),
{
    let first = Section::Number(1, location.id as nat);
    let second = Section::Number(2, location.mapping_id as nat);
    let third = Section::Number(3, location.address as nat);
    let sections = seq![first, second, third];
    lemma_section_bytes(first);
    lemma_section_bytes(second);
    lemma_section_bytes(third);
    lemma_first_section(first);
    lemma_sections_push(seq![first], second);
    lemma_sections_push(seq![first].push(second), third);
    assert(seq![first].push(second).push(third) =~= sections);
    assert(sections_bytes(sections) == location_bytes(location));
    law_fields_are_read_back(sections_fields(sections));
    lemma_section_is_read_back(sections, 0);
    lemma_section_is_read_back(sections, 1);
    lemma_section_is_read_back(sections, 2);
}

/// Reads a [`Mapping`].
pub open spec fn decode_mapping(bytes: Seq<u8>) -> Option<Mapping> {
    match read_fields(bytes, 0) {
        Some(fields) => Some(
            Mapping {
                id: number_of(fields, 1) as u64,
                memory_start: number_of(fields, 2) as u64,
                memory_limit: number_of(fields, 3) as u64,
                file_offset: number_of(fields, 4) as u64,
                filename: signed(number_of(fields, 5)),
                build_id: signed(number_of(fields, 6)),
            },
        ),
        None => None,
    }
}

/// A [`Mapping`] is read back.
pub proof fn law_mapping_is_read_back(mapping: Mapping)
    ensures
        decode_mapping(mapping_bytes(mapping)) == Some(mapping),
{
    let first = Section::Number(1, mapping.id as nat);
    let second = Section::Number(2, mapping.memory_start as nat);
    let third = Section::Number(3, mapping.memory_limit as nat);
    let fourth = Section::Number(4, mapping.file_offset as nat);
    let fifth = Section::Number(5, int64_number(mapping.filename));
    let sixth = Section::Number(6, int64_number(mapping.build_id));
    let three = seq![first].push(second).push(third);
    let sections = seq![first, second, third, fourth, fifth, sixth];
    lemma_section_bytes(first);
    lemma_section_bytes(second);
    lemma_section_bytes(third);
    lemma_section_bytes(fourth);
    lemma_section_bytes(fifth);
    lemma_section_bytes(sixth);
    lemma_first_section(first);
    lemma_sections_push(seq![first], second);
    lemma_sections_push(seq![first].push(second), third);
    lemma_sections_push(three, fourth);
    lemma_sections_push(three.push(fourth), fifth);
    lemma_sections_push(three.push(fourth).push(fifth), sixth);
    assert(three.push(fourth).push(fifth).push(sixth) =~= sections);
    assert(sections_bytes(sections) == mapping_bytes(mapping));
    law_fields_are_read_back(sections_fields(sections));
    lemma_section_is_read_back(sections, 0);
    lemma_section_is_read_back(sections, 1);
    lemma_section_is_read_back(sections, 2);
    lemma_section_is_read_back(sections, 3);
    lemma_section_is_read_back(sections, 4);
    lemma_section_is_read_back(sections, 5);
}

/// The numbers from a position on.
pub open spec fn read_varints(bytes: Seq<u8>, at: int) -> Option<Seq<nat>>
    decreases bytes.len() - at,
{
    if at == bytes.len() {
        Some(Seq::empty())
    } else {
        match read_varint(bytes, at) {
            None => None,
            Some((number, next)) => if next <= at || next > bytes.len() {
                None
            } else {
                match read_varints(bytes, next) {
                    Some(numbers) => Some(seq![number] + numbers),
                    None => None,
                }
            },
        }
    }
}

/// The encodings of two lists of numbers make that of both.
proof fn lemma_varints_append(left: Seq<nat>, right: Seq<nat>)
    ensures
        varints(left + right) == varints(left) + varints(right),
    decreases right.len(),
{
    if right.len() == 0 {
        assert(left + right =~= left);
        assert(varints(left) + varints(right) =~= varints(left));
    } else {
        assert((left + right).drop_last() =~= left + right.drop_last());
        lemma_varints_append(left, right.drop_last());
        assert(varints(left) + (varints(right.drop_last()) + varint(right.last())) =~= (varints(
            left,
        ) + varints(right.drop_last())) + varint(right.last()));
    }
}

/// Numbers are read back, behind some other bytes.
proof fn lemma_varints_are_read_back(before: Seq<u8>, numbers: Seq<nat>)
    ensures
        read_varints(before + varints(numbers), before.len() as int) == Some(numbers),
    decreases numbers.len(),
{
    let bytes = before + varints(numbers);
    if numbers.len() == 0 {
        assert(numbers =~= Seq::empty());
        assert(bytes =~= before);
    } else {
        let number = numbers.first();
        let rest = numbers.drop_first();
        assert(numbers =~= seq![number] + rest);
        lemma_varints_append(seq![number], rest);
        assert(seq![number].drop_last() =~= Seq::empty());
        assert(varints(seq![number]) =~= varint(number)) by {
            reveal_with_fuel(varints, 2);
        }
        law_varint_is_read_back(before, number, varints(rest));
        lemma_varints_are_read_back(before + varint(number), rest);
        assert(before + varint(number) + varints(rest) =~= bytes);
    }
}

/// The numbers in some items, one item after the other.
pub open spec fn decode_packed(items: Seq<Seq<u8>>) -> Option<Seq<nat>>
    decreases items.len(),
{
    if items.len() == 0 {
        Some(Seq::empty())
    } else {
        match (decode_packed(items.drop_last()), read_varints(items.last(), 0)) {
            (Some(before), Some(numbers)) => Some(before + numbers),
            _ => None,
        }
    }
}

/// The items that hold some numbers: one, or none if there are none.
pub open spec fn packed_items(numbers: Seq<nat>) -> Seq<Seq<u8>> {
    if numbers.len() == 0 {
        Seq::empty()
    } else {
        seq![varints(numbers)]
    }
}

/// Packed numbers are read back.
pub proof fn law_packed_numbers_are_read_back(tag: nat, numbers: Seq<nat>)
    ensures
        packed_field(tag, numbers) == repeated_field(tag, packed_items(numbers)),
        decode_packed(packed_items(numbers)) == Some(numbers),
{
    reveal_with_fuel(repeated_field, 2);
    reveal_with_fuel(decode_packed, 2);
    let items = packed_items(numbers);
    if numbers.len() > 0 {
        assert(items.drop_last() =~= Seq::empty());
        assert(Seq::<u8>::empty() + bytes_field(tag, varints(numbers)) =~= bytes_field(
            tag,
            varints(numbers),
        ));
        lemma_varints_are_read_back(Seq::empty(), numbers);
        assert(Seq::<u8>::empty() + varints(numbers) =~= varints(numbers));
        assert(Seq::<nat>::empty() + numbers =~= numbers);
    } else {
        assert(numbers =~= Seq::empty());
    }
}

/// Reads some items, each of them in the same way.
pub open spec fn decode_all<T>(
    items: Seq<Seq<u8>>,
    decode: spec_fn(Seq<u8>) -> Option<T>,
) -> Option<Seq<T>>
    decreases items.len(),
{
    if items.len() == 0 {
        Some(Seq::empty())
    } else {
        match (decode_all(items.drop_last(), decode), decode(items.last())) {
            (Some(before), Some(value)) => Some(before.push(value)),
            _ => None,
        }
    }
}

/// Items are read back if each of them is.
proof fn lemma_items_are_read_back<T>(
    items: Seq<Seq<u8>>,
    decode: spec_fn(Seq<u8>) -> Option<T>,
    values: Seq<T>,
)
    requires
        items.len() == values.len(),
        forall|i: int| 0 <= i < items.len() ==> decode(#[trigger] items[i]) == Some(values[i]),
    ensures
        decode_all(items, decode) == Some(values),
    decreases items.len(),
{
    if items.len() > 0 {
        assert forall|i: int| 0 <= i < items.drop_last().len() implies decode(
            #[trigger] items.drop_last()[i],
        ) == Some(values.drop_last()[i]) by {
            assert(items.drop_last()[i] == items[i]);
        }
        lemma_items_are_read_back(items.drop_last(), decode, values.drop_last());
        assert(items[items.len() - 1] == items.last());
        assert(values.drop_last().push(values.last()) =~= values);
    } else {
        assert(values =~= Seq::empty());
    }
}

/// The unsigned numbers among some numbers.
pub open spec fn to_unsigned(numbers: Seq<nat>) -> Seq<u64> {
    numbers.map_values(|number: nat| number as u64)
}

/// The signed numbers that are encoded as some numbers.
pub open spec fn to_signed(numbers: Seq<nat>) -> Seq<i64> {
    numbers.map_values(|number: nat| signed(number))
}

/// Signed numbers are read back.
proof fn lemma_signed_numbers(values: Seq<i64>)
    ensures
        to_signed(values.map_values(|value: i64| int64_number(value))) == values,
{
    let numbers = values.map_values(|value: i64| int64_number(value));
    assert forall|i: int| 0 <= i < values.len() implies to_signed(numbers)[i] == values[i] by {
        law_int64_is_read_back(values[i]);
    }
    assert(to_signed(numbers) =~= values);
}

/// Reads a sample.
pub open spec fn decode_sample(bytes: Seq<u8>) -> Option<SampleView> {
    match read_fields(bytes, 0) {
        Some(fields) => match (
            decode_packed(bytes_of(fields, 1)),
            decode_packed(bytes_of(fields, 2)),
            decode_all(bytes_of(fields, 3), |item: Seq<u8>| decode_label(item)),
        ) {
            (Some(location_id), Some(value), Some(label)) => Some(
                SampleView {
                    location_id: to_unsigned(location_id),
                    value: to_signed(value),
                    label,
                },
            ),
            _ => None,
        },
        None => None,
    }
}

/// A sample is read back.
pub proof fn law_sample_is_read_back(sample: SampleView)
    ensures
        decode_sample(sample_bytes(sample)) == Some(sample),
{
    let ids = sample.location_id.map_values(|id: u64| id as nat);
    let values = sample.value.map_values(|value: i64| int64_number(value));
    let labels = sample.label.map_values(|label: Label| label_bytes(label));
    let first = Section::Items(1, packed_items(ids));
    let second = Section::Items(2, packed_items(values));
    let third = Section::Items(3, labels);
    let sections = seq![first, second, third];
    law_packed_numbers_are_read_back(1, ids);
    law_packed_numbers_are_read_back(2, values);
    lemma_section_bytes(first);
    lemma_section_bytes(second);
    lemma_section_bytes(third);
    lemma_first_section(first);
    lemma_sections_push(seq![first], second);
    lemma_sections_push(seq![first].push(second), third);
    assert(seq![first].push(second).push(third) =~= sections);
    assert(sections_bytes(sections) == sample_bytes(sample));
    law_fields_are_read_back(sections_fields(sections));
    lemma_section_is_read_back(sections, 0);
    lemma_section_is_read_back(sections, 1);
    lemma_section_is_read_back(sections, 2);
    let decode = |item: Seq<u8>| decode_label(item);
    assert forall|i: int| 0 <= i < labels.len() implies decode(#[trigger] labels[i]) == Some(
        sample.label[i],
    ) by {
        law_label_is_read_back(sample.label[i]);
    }
    lemma_items_are_read_back(labels, decode, sample.label);
    assert(to_unsigned(ids) =~= sample.location_id);
    lemma_signed_numbers(sample.value);
}

/// Reads a string.
pub open spec fn decode_string(bytes: Seq<u8>) -> Option<Seq<char>> {
    if valid_utf8(bytes) {
        Some(decode_utf8(bytes))
    } else {
        None
    }
}

/// Reads an optional message: the last one, if there is any.
pub open spec fn decode_optional(items: Seq<Seq<u8>>) -> Option<Option<ValueType>> {
    if items.len() == 0 {
        Some(None)
    } else {
        match decode_value_type(items.last()) {
            Some(value_type) => Some(Some(value_type)),
            None => None,
        }
    }
}

/// Reads a profile.
pub open spec fn decode_profile(bytes: Seq<u8>) -> Option<ProfileView> {
    match read_fields(bytes, 0) {
        Some(fields) => match (
            decode_all(bytes_of(fields, 1), |item: Seq<u8>| decode_value_type(item)),
            decode_all(bytes_of(fields, 2), |item: Seq<u8>| decode_sample(item)),
            decode_all(bytes_of(fields, 3), |item: Seq<u8>| decode_mapping(item)),
            decode_all(bytes_of(fields, 4), |item: Seq<u8>| decode_location(item)),
            decode_all(bytes_of(fields, 6), |item: Seq<u8>| decode_string(item)),
            decode_optional(bytes_of(fields, 11)),
            decode_packed(bytes_of(fields, 13)),
        ) {
            (
                Some(sample_type),
                Some(sample),
                Some(mapping),
                Some(location),
                Some(string_table),
                Some(period_type),
                Some(comment),
            ) => Some(
                ProfileView {
                    sample_type,
                    sample,
                    mapping,
                    location,
                    string_table,
                    time_nanos: signed(number_of(fields, 9)),
                    period_type,
                    comment: to_signed(comment),
                },
            ),
            _ => None,
        },
        None => None,
    }
}

/// The sections of a profile.
pub open spec fn profile_sections(profile: ProfileView) -> Seq<Section> {
    seq![
        Section::Items(
            1,
            profile.sample_type.map_values(|value_type: ValueType| value_type_bytes(value_type)),
        ),
        Section::Items(2, profile.sample.map_values(|sample: SampleView| sample_bytes(sample))),
        Section::Items(3, profile.mapping.map_values(|mapping: Mapping| mapping_bytes(mapping))),
        Section::Items(
            4,
            profile.location.map_values(|location: Location| location_bytes(location)),
        ),
        Section::Items(
            6,
            profile.string_table.map_values(|string: Seq<char>| encode_utf8(string)),
        ),
        Section::Number(9, int64_number(profile.time_nanos)),
        Section::Items(11, optional_item(profile.period_type)),
        Section::Items(
            13,
            packed_items(profile.comment.map_values(|index: i64| int64_number(index))),
        ),
    ]
}

/// The encoding of a profile is that of its sections.
proof fn lemma_profile_bytes(profile: ProfileView)
    ensures
        sections_bytes(profile_sections(profile)) == profile_bytes(profile),
{
    let sections = profile_sections(profile);
    law_packed_numbers_are_read_back(
        13,
        profile.comment.map_values(|index: i64| int64_number(index)),
    );
    lemma_sections_steps(sections);
    lemma_section_bytes(sections[0]);
    lemma_section_bytes(sections[1]);
    lemma_section_bytes(sections[2]);
    lemma_section_bytes(sections[3]);
    lemma_section_bytes(sections[4]);
    lemma_section_bytes(sections[5]);
    lemma_section_bytes(sections[6]);
    lemma_section_bytes(sections[7]);
}

/// The encoding of eight sections, one after the other.
proof fn lemma_sections_steps(sections: Seq<Section>)
    requires
        sections.len() == 8,
    ensures
        sections_bytes(sections) == fields_bytes(sections[0].fields()) + fields_bytes(
            sections[1].fields(),
        ) + fields_bytes(sections[2].fields()) + fields_bytes(sections[3].fields())
            + fields_bytes(sections[4].fields()) + fields_bytes(sections[5].fields())
            + fields_bytes(sections[6].fields()) + fields_bytes(sections[7].fields()),
{
    assert(sections.take(1) =~= seq![sections[0]]);
    lemma_first_section(sections[0]);
    lemma_sections_push(sections.take(1), sections[1]);
    assert(sections.take(2) =~= sections.take(1).push(sections[1]));
    lemma_sections_push(sections.take(2), sections[2]);
    assert(sections.take(3) =~= sections.take(2).push(sections[2]));
    lemma_sections_push(sections.take(3), sections[3]);
    assert(sections.take(4) =~= sections.take(3).push(sections[3]));
    lemma_sections_push(sections.take(4), sections[4]);
    assert(sections.take(5) =~= sections.take(4).push(sections[4]));
    lemma_sections_push(sections.take(5), sections[5]);
    assert(sections.take(6) =~= sections.take(5).push(sections[5]));
    lemma_sections_push(sections.take(6), sections[6]);
    assert(sections.take(7) =~= sections.take(6).push(sections[6]));
    lemma_sections_push(sections.take(7), sections[7]);
    assert(sections =~= sections.take(7).push(sections[7]));
}

/// The messages of a profile are read back.
proof fn lemma_messages(profile: ProfileView)
    ensures
        decode_all(
            profile.sample_type.map_values(|value_type: ValueType| value_type_bytes(value_type)),
            |item: Seq<u8>| decode_value_type(item),
        ) == Some(profile.sample_type),
        decode_all(
            profile.sample.map_values(|sample: SampleView| sample_bytes(sample)),
            |item: Seq<u8>| decode_sample(item),
        ) == Some(profile.sample),
        decode_all(
            profile.mapping.map_values(|mapping: Mapping| mapping_bytes(mapping)),
            |item: Seq<u8>| decode_mapping(item),
        ) == Some(profile.mapping),
        decode_all(
            profile.location.map_values(|location: Location| location_bytes(location)),
            |item: Seq<u8>| decode_location(item),
        ) == Some(profile.location),
        decode_all(
            profile.string_table.map_values(|string: Seq<char>| encode_utf8(string)),
            |item: Seq<u8>| decode_string(item),
        ) == Some(profile.string_table),
        decode_optional(optional_item(profile.period_type)) == Some(profile.period_type),
{
    let items = profile.sample_type.map_values(
        |value_type: ValueType| value_type_bytes(value_type),
    );
    let decode = |item: Seq<u8>| decode_value_type(item);
    assert forall|i: int| 0 <= i < items.len() implies decode(#[trigger] items[i]) == Some(
        profile.sample_type[i],
    ) by {
        law_value_type_is_read_back(profile.sample_type[i]);
    }
    lemma_items_are_read_back(items, decode, profile.sample_type);
    let items = profile.sample.map_values(|sample: SampleView| sample_bytes(sample));
    let decode = |item: Seq<u8>| decode_sample(item);
    assert forall|i: int| 0 <= i < items.len() implies decode(#[trigger] items[i]) == Some(
        profile.sample[i],
    ) by {
        law_sample_is_read_back(profile.sample[i]);
    }
    lemma_items_are_read_back(items, decode, profile.sample);
    let items = profile.mapping.map_values(|mapping: Mapping| mapping_bytes(mapping));
    let decode = |item: Seq<u8>| decode_mapping(item);
    assert forall|i: int| 0 <= i < items.len() implies decode(#[trigger] items[i]) == Some(
        profile.mapping[i],
    ) by {
        law_mapping_is_read_back(profile.mapping[i]);
    }
    lemma_items_are_read_back(items, decode, profile.mapping);
    let items = profile.location.map_values(|location: Location| location_bytes(location));
    let decode = |item: Seq<u8>| decode_location(item);
    assert forall|i: int| 0 <= i < items.len() implies decode(#[trigger] items[i]) == Some(
        profile.location[i],
    ) by {
        law_location_is_read_back(profile.location[i]);
    }
    lemma_items_are_read_back(items, decode, profile.location);
    let items = profile.string_table.map_values(|string: Seq<char>| encode_utf8(string));
    let decode = |item: Seq<u8>| decode_string(item);
    assert forall|i: int| 0 <= i < items.len() implies decode(#[trigger] items[i]) == Some(
        profile.string_table[i],
    ) by {
        vstd::utf8::encode_utf8_valid_utf8(profile.string_table[i]);
        vstd::utf8::encode_utf8_decode_utf8(profile.string_table[i]);
    }
    lemma_items_are_read_back(items, decode, profile.string_table);
    if let Some(value_type) = profile.period_type {
        law_value_type_is_read_back(value_type);
    }
}

/// A profile is read back from its encoding.
pub proof fn law_profile_is_read_back(profile: ProfileView)
    ensures
        decode_profile(profile_bytes(profile)) == Some(profile),
{
    let sections = profile_sections(profile);
    lemma_profile_bytes(profile);
    law_fields_are_read_back(sections_fields(sections));
    lemma_section_is_read_back(sections, 0);
    lemma_section_is_read_back(sections, 1);
    lemma_section_is_read_back(sections, 2);
    lemma_section_is_read_back(sections, 3);
    lemma_section_is_read_back(sections, 4);
    lemma_section_is_read_back(sections, 5);
    lemma_section_is_read_back(sections, 6);
    lemma_section_is_read_back(sections, 7);
    lemma_messages(profile);
    law_int64_is_read_back(profile.time_nanos);
    law_packed_numbers_are_read_back(
        13,
        profile.comment.map_values(|index: i64| int64_number(index)),
    );
    lemma_signed_numbers(profile.comment);
    assert(profile.comment.map_values(|index: i64| int64_number(index))
        =~= profile.comment.map_values(|value: i64| int64_number(value)));
}

/// Two profiles with the same encoding are the same.
pub proof fn law_encoding_is_injective(left: ProfileView, right: ProfileView)
    requires
        profile_bytes(left) == profile_bytes(right),
    ensures
        left == right,
{
    law_profile_is_read_back(left);
    law_profile_is_read_back(right);
}

/// A number is encoded as short as possible: only its last byte is below 128, and that is not zero
/// unless it is the only one.
pub proof fn law_varints_are_short(number: nat)
    ensures
        ({
            let bytes = varint(number);
            &&& bytes.len() > 0
            &&& bytes.last() < 128
            &&& bytes.len() > 1 ==> bytes.last() > 0
            &&& forall|i: int| 0 <= i < bytes.len() - 1 ==> #[trigger] bytes[i] >= 128
        }),
    decreases number,
{
    if number >= 128 {
        let rest = varint(number / 128);
        law_varints_are_short(number / 128);
        assert forall|i: int| 0 <= i < varint(number).len() - 1 implies #[trigger] varint(number)[i]
            >= 128 by {
            if i > 0 {
                assert(varint(number)[i] == rest[i - 1]);
            }
        }
        if rest.len() == 1 {
            assert(number / 128 < 128) by {
                if number / 128 >= 128 {
                    law_varints_are_short(number / 128 / 128);
                }
            }
        }
    }
}

/// The encoding of a profile holds its fields in the order of their tags, and no others.
pub proof fn law_profile_has_only_its_fields(profile: ProfileView)
    ensures
        read_fields(profile_bytes(profile), 0) == Some(sections_fields(profile_sections(profile))),
{
    lemma_profile_bytes(profile);
    law_fields_are_read_back(sections_fields(profile_sections(profile)));
}

/// The encoding of a sample holds its fields in the order of their tags, and no others.
pub proof fn law_sample_has_only_its_fields(sample: SampleView)
    ensures
        read_fields(sample_bytes(sample), 0) == Some(
            sections_fields(
                seq![
                    Section::Items(
                        1,
                        packed_items(sample.location_id.map_values(|id: u64| id as nat)),
                    ),
                    Section::Items(
                        2,
                        packed_items(sample.value.map_values(|value: i64| int64_number(value))),
                    ),
                    Section::Items(
                        3,
                        sample.label.map_values(|label: Label| label_bytes(label)),
                    ),
                ],
            ),
        ),
{
    let ids = sample.location_id.map_values(|id: u64| id as nat);
    let values = sample.value.map_values(|value: i64| int64_number(value));
    let first = Section::Items(1, packed_items(ids));
    let second = Section::Items(2, packed_items(values));
    let third = Section::Items(3, sample.label.map_values(|label: Label| label_bytes(label)));
    let sections = seq![first, second, third];
    law_packed_numbers_are_read_back(1, ids);
    law_packed_numbers_are_read_back(2, values);
    lemma_section_bytes(first);
    lemma_section_bytes(second);
    lemma_section_bytes(third);
    lemma_first_section(first);
    lemma_sections_push(seq![first], second);
    lemma_sections_push(seq![first].push(second), third);
    assert(seq![first].push(second).push(third) =~= sections);
    assert(sections_bytes(sections) == sample_bytes(sample));
    law_fields_are_read_back(sections_fields(sections));
}

/// The encodings of a value type, a label and a location hold their fields in the order of their
/// tags, and no others.
pub proof fn law_small_messages_have_only_their_fields(
    value_type: ValueType,
    label: Label,
    location: Location,
)
    ensures
        read_fields(value_type_bytes(value_type), 0) == Some(
            sections_fields(
                seq![
                    Section::Number(1, int64_number(value_type.type_)),
                    Section::Number(2, int64_number(value_type.unit)),
                ],
            ),
        ),
        read_fields(label_bytes(label), 0) == Some(
            sections_fields(
                seq![
                    Section::Number(1, int64_number(label.key)),
                    Section::Number(2, int64_number(label.str)),
                ],
            ),
        ),
        read_fields(location_bytes(location), 0) == Some(
            sections_fields(
                seq![
                    Section::Number(1, location.id as nat),
                    Section::Number(2, location.mapping_id as nat),
                    Section::Number(3, location.address as nat),
                ],
            ),
        ),
{
    lemma_pair(value_type.type_, value_type.unit);
    lemma_pair(label.key, label.str);
    let first = Section::Number(1, location.id as nat);
    let second = Section::Number(2, location.mapping_id as nat);
    let third = Section::Number(3, location.address as nat);
    let sections = seq![first, second, third];
    lemma_section_bytes(first);
    lemma_section_bytes(second);
    lemma_section_bytes(third);
    lemma_first_section(first);
    lemma_sections_push(seq![first], second);
    lemma_sections_push(seq![first].push(second), third);
    assert(seq![first].push(second).push(third) =~= sections);
    assert(sections_bytes(sections) == location_bytes(location));
    law_fields_are_read_back(sections_fields(sections));
}

/// The encoding of a mapping holds its fields in the order of their tags, and no others.
pub proof fn law_mapping_has_only_its_fields(mapping: Mapping)
    ensures
        read_fields(mapping_bytes(mapping), 0) == Some(
            sections_fields(
                seq![
                    Section::Number(1, mapping.id as nat),
                    Section::Number(2, mapping.memory_start as nat),
                    Section::Number(3, mapping.memory_limit as nat),
                    Section::Number(4, mapping.file_offset as nat),
                    Section::Number(5, int64_number(mapping.filename)),
                    Section::Number(6, int64_number(mapping.build_id)),
                ],
            ),
        ),
{
    let first = Section::Number(1, mapping.id as nat);
    let second = Section::Number(2, mapping.memory_start as nat);
    let third = Section::Number(3, mapping.memory_limit as nat);
    let fourth = Section::Number(4, mapping.file_offset as nat);
    let fifth = Section::Number(5, int64_number(mapping.filename));
    let sixth = Section::Number(6, int64_number(mapping.build_id));
    let three = seq![first].push(second).push(third);
    let sections = seq![first, second, third, fourth, fifth, sixth];
    lemma_section_bytes(first);
    lemma_section_bytes(second);
    lemma_section_bytes(third);
    lemma_section_bytes(fourth);
    lemma_section_bytes(fifth);
    lemma_section_bytes(sixth);
    lemma_first_section(first);
    lemma_sections_push(seq![first], second);
    lemma_sections_push(seq![first].push(second), third);
    lemma_sections_push(three, fourth);
    lemma_sections_push(three.push(fourth), fifth);
    lemma_sections_push(three.push(fourth).push(fifth), sixth);
    assert(three.push(fourth).push(fifth).push(sixth) =~= sections);
    assert(sections_bytes(sections) == mapping_bytes(mapping));
    law_fields_are_read_back(sections_fields(sections));
}

} // verus!
