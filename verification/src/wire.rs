//! The protobuf encoding of a profile, and its compression.

use std::io::Write;

use vstd::prelude::*;
use vstd::utf8::encode_utf8;

use crate::cast::ReinterpretCast;
use crate::mappings::copy_bytes;
use crate::proto::{
    sample_views, Label, Location, Mapping, Profile, ProfileView, Sample, SampleView, ValueType,
};
use crate::string_table::texts;

verus! {

/// A number in groups of seven bits, the lowest ones first. All bytes but the last have their
/// highest bit set.
pub open spec fn varint(number: nat) -> Seq<u8>
    decreases number,
{
    if number < 128 {
        seq![number as u8]
    } else {
        seq![(128 + number % 128) as u8] + varint(number / 128)
    }
}

/// What stands behind the key of a field.
#[derive(Clone, Copy, Debug, PartialEq, Eq)]
pub enum WireType {
    /// A number.
    Varint,
    /// A length, and as many bytes.
    LengthDelimited,
}

impl WireType {
    /// The number of the wire type.
    pub open spec fn number(self) -> nat {
        match self {
            WireType::Varint => 0,
            WireType::LengthDelimited => 2,
        }
    }
}

/// The key of a field: its tag and its wire type.
pub open spec fn field_key(tag: nat, wire_type: WireType) -> Seq<u8> {
    varint(tag * 8 + wire_type.number())
}

/// Appends a number, with `prost::encoding::encode_varint`.
///
/// Claimed is that it appends the groups of seven bits of the number, and changes nothing else.
#[verifier::external_body]
fn encode_varint(number: u64, buf: &mut Vec<u8>)
    ensures
        final(buf)@ == old(buf)@ + varint(number as nat),
{
    prost::encoding::encode_varint(number, buf)
}

/// Appends the key of a field, with `prost::encoding::encode_key`.
///
/// Claimed is that it appends, as a varint, eight times the tag plus the number of the wire type,
/// and changes nothing else.
#[verifier::external_body]
fn encode_key(tag: u32, wire_type: WireType, buf: &mut Vec<u8>)
    requires
        1 <= tag < 0x2000_0000,
    ensures
        final(buf)@ == old(buf)@ + field_key(tag as nat, wire_type),
{
    let wire_type = match wire_type {
        WireType::Varint => prost::encoding::WireType::Varint,
        WireType::LengthDelimited => prost::encoding::WireType::LengthDelimited,
    };
    prost::encoding::encode_key(tag, wire_type, buf)
}

/// A field that holds an unsigned number. A zero is left out.
pub open spec fn uint64_field(tag: nat, value: u64) -> Seq<u8> {
    if value == 0 {
        Seq::empty()
    } else {
        field_key(tag, WireType::Varint) + varint(value as nat)
    }
}

/// The number as which a signed number is encoded: its two's complement.
pub open spec fn int64_number(value: i64) -> nat {
    if value < 0 {
        (value + 0x1_0000_0000_0000_0000) as nat
    } else {
        value as nat
    }
}

/// A field that holds a signed number. A zero is left out.
pub open spec fn int64_field(tag: nat, value: i64) -> Seq<u8> {
    if value == 0 {
        Seq::empty()
    } else {
        field_key(tag, WireType::Varint) + varint(int64_number(value))
    }
}

/// A field that holds bytes.
pub open spec fn bytes_field(tag: nat, bytes: Seq<u8>) -> Seq<u8> {
    field_key(tag, WireType::LengthDelimited) + varint(bytes.len()) + bytes
}

/// A field that holds bytes, once for each item.
pub open spec fn repeated_field(tag: nat, items: Seq<Seq<u8>>) -> Seq<u8>
    decreases items.len(),
{
    if items.len() == 0 {
        Seq::empty()
    } else {
        repeated_field(tag, items.drop_last()) + bytes_field(tag, items.last())
    }
}

/// Numbers, one after the other.
pub open spec fn varints(numbers: Seq<nat>) -> Seq<u8>
    decreases numbers.len(),
{
    if numbers.len() == 0 {
        Seq::empty()
    } else {
        varints(numbers.drop_last()) + varint(numbers.last())
    }
}

/// A field that holds numbers. It is left out if there are none.
pub open spec fn packed_field(tag: nat, numbers: Seq<nat>) -> Seq<u8> {
    if numbers.len() == 0 {
        Seq::empty()
    } else {
        bytes_field(tag, varints(numbers))
    }
}

/// The encoding of a [`ValueType`].
pub open spec fn value_type_bytes(value_type: ValueType) -> Seq<u8> {
    int64_field(1, value_type.type_) + int64_field(2, value_type.unit)
}

/// The encoding of a [`Label`].
pub open spec fn label_bytes(label: Label) -> Seq<u8> {
    int64_field(1, label.key) + int64_field(2, label.str)
}

/// The encoding of a [`Sample`].
pub open spec fn sample_bytes(sample: SampleView) -> Seq<u8> {
    packed_field(1, sample.location_id.map_values(|id: u64| id as nat)) + packed_field(
        2,
        sample.value.map_values(|value: i64| int64_number(value)),
    ) + repeated_field(3, sample.label.map_values(|label: Label| label_bytes(label)))
}

/// The encoding of a [`Mapping`].
pub open spec fn mapping_bytes(mapping: Mapping) -> Seq<u8> {
    uint64_field(1, mapping.id) + uint64_field(2, mapping.memory_start) + uint64_field(
        3,
        mapping.memory_limit,
    ) + uint64_field(4, mapping.file_offset) + int64_field(5, mapping.filename) + int64_field(
        6,
        mapping.build_id,
    )
}

/// The encoding of a [`Location`].
pub open spec fn location_bytes(location: Location) -> Seq<u8> {
    uint64_field(1, location.id) + uint64_field(2, location.mapping_id) + uint64_field(
        3,
        location.address,
    )
}

/// The items of an optional message.
pub open spec fn optional_item(value_type: Option<ValueType>) -> Seq<Seq<u8>> {
    match value_type {
        Some(value_type) => seq![value_type_bytes(value_type)],
        None => Seq::empty(),
    }
}

/// The encoding of a [`Profile`].
pub open spec fn profile_bytes(profile: ProfileView) -> Seq<u8> {
    repeated_field(
        1,
        profile.sample_type.map_values(|value_type: ValueType| value_type_bytes(value_type)),
    ) + repeated_field(
        2,
        profile.sample.map_values(|sample: SampleView| sample_bytes(sample)),
    ) + repeated_field(
        3,
        profile.mapping.map_values(|mapping: Mapping| mapping_bytes(mapping)),
    ) + repeated_field(
        4,
        profile.location.map_values(|location: Location| location_bytes(location)),
    ) + repeated_field(
        6,
        profile.string_table.map_values(|string: Seq<char>| encode_utf8(string)),
    ) + int64_field(9, profile.time_nanos) + repeated_field(
        11,
        optional_item(profile.period_type),
    ) + packed_field(13, profile.comment.map_values(|index: i64| int64_number(index)))
}

/// Appends an unsigned number as a field.
fn encode_uint64(tag: u32, value: u64, buf: &mut Vec<u8>)
    requires
        1 <= tag < 0x2000_0000,
    ensures
        final(buf)@ == old(buf)@ + uint64_field(tag as nat, value),
{
    if value != 0 {
        let ghost before = buf@;
        encode_key(tag, WireType::Varint, buf);
        encode_varint(value, buf);
        assert(buf@ =~= before + uint64_field(tag as nat, value));
    } else {
        assert(buf@ =~= buf@ + uint64_field(tag as nat, value));
    }
}

/// The number as which a signed number is encoded.
fn to_number(value: i64) -> (number: u64)
    ensures
        number == int64_number(value),
{
    u64::reinterpret_cast(value)
}

/// Appends a signed number as a field.
fn encode_int64(tag: u32, value: i64, buf: &mut Vec<u8>)
    requires
        1 <= tag < 0x2000_0000,
    ensures
        final(buf)@ == old(buf)@ + int64_field(tag as nat, value),
{
    if value != 0 {
        let ghost before = buf@;
        encode_key(tag, WireType::Varint, buf);
        encode_varint(to_number(value), buf);
        assert(buf@ =~= before + int64_field(tag as nat, value));
    } else {
        assert(buf@ =~= buf@ + int64_field(tag as nat, value));
    }
}

/// Appends bytes as a field.
fn encode_bytes(tag: u32, bytes: Vec<u8>, buf: &mut Vec<u8>)
    requires
        1 <= tag < 0x2000_0000,
    ensures
        final(buf)@ == old(buf)@ + bytes_field(tag as nat, bytes@),
{
    let ghost before = buf@;
    let ghost view = bytes@;
    let mut bytes = bytes;
    encode_key(tag, WireType::LengthDelimited, buf);
    encode_varint(bytes.len() as u64, buf);
    buf.append(&mut bytes);
    assert(buf@ =~= before + bytes_field(tag as nat, view));
}

/// Appends numbers as a field.
fn encode_packed(tag: u32, numbers: &Vec<u64>, buf: &mut Vec<u8>)
    requires
        1 <= tag < 0x2000_0000,
    ensures
        final(buf)@ == old(buf)@ + packed_field(
            tag as nat,
            numbers@.map_values(|number: u64| number as nat),
        ),
{
    let ghost all = numbers@.map_values(|number: u64| number as nat);
    if numbers.len() == 0 {
        assert(buf@ =~= buf@ + packed_field(tag as nat, all));
        return;
    }
    let mut body: Vec<u8> = Vec::new();
    let mut i: usize = 0;
    while i < numbers.len()
        invariant
            i <= numbers@.len(),
            all == numbers@.map_values(|number: u64| number as nat),
            body@ == varints(all.take(i as int)),
        decreases numbers@.len() - i,
    {
        encode_varint(numbers[i], &mut body);
        assert(all.take(i + 1).drop_last() =~= all.take(i as int));
        i += 1;
    }
    assert(all.take(i as int) =~= all);
    encode_bytes(tag, body, buf);
}

/// The numbers as which signed numbers are encoded.
fn to_numbers(values: &Vec<i64>) -> (numbers: Vec<u64>)
    ensures
        numbers@.map_values(|number: u64| number as nat) == values@.map_values(
            |value: i64| int64_number(value),
        ),
{
    let mut numbers: Vec<u64> = Vec::new();
    let mut i: usize = 0;
    while i < values.len()
        invariant
            i <= values@.len(),
            numbers@.len() == i,
            forall|j: int| 0 <= j < i ==> #[trigger] numbers@[j] == int64_number(values@[j]),
        decreases values@.len() - i,
    {
        numbers.push(to_number(values[i]));
        i += 1;
    }
    assert(numbers@.map_values(|number: u64| number as nat) =~= values@.map_values(
        |value: i64| int64_number(value),
    ));
    numbers
}

/// Appends items as a field that is repeated.
fn encode_repeated(tag: u32, items: Vec<Vec<u8>>, buf: &mut Vec<u8>)
    requires
        1 <= tag < 0x2000_0000,
    ensures
        final(buf)@ == old(buf)@ + repeated_field(tag as nat, item_views(items@)),
{
    let ghost before = buf@;
    let ghost all = item_views(items@);
    let mut i: usize = 0;
    assert(buf@ =~= before + repeated_field(tag as nat, all.take(0)));
    while i < items.len()
        invariant
            1 <= tag < 0x2000_0000,
            i <= items@.len(),
            all == item_views(items@),
            buf@ == before + repeated_field(tag as nat, all.take(i as int)),
        decreases items@.len() - i,
    {
        let item: Vec<u8> = copy_bytes(&items[i]);
        encode_bytes(tag, item, buf);
        assert(all.take(i + 1).drop_last() =~= all.take(i as int));
        assert(buf@ =~= before + repeated_field(tag as nat, all.take(i + 1)));
        i += 1;
    }
    assert(all.take(i as int) =~= all);
}

/// The bytes of some items.
spec fn item_views(items: Seq<Vec<u8>>) -> Seq<Seq<u8>> {
    items.map_values(|item: Vec<u8>| item@)
}

/// Encodes a [`ValueType`].
fn encode_value_type(value_type: &ValueType) -> (bytes: Vec<u8>)
    ensures
        bytes@ == value_type_bytes(*value_type),
{
    let mut bytes: Vec<u8> = Vec::new();
    encode_int64(1, value_type.type_, &mut bytes);
    encode_int64(2, value_type.unit, &mut bytes);
    assert(bytes@ =~= value_type_bytes(*value_type));
    bytes
}

/// Encodes a [`Label`].
fn encode_label(label: &Label) -> (bytes: Vec<u8>)
    ensures
        bytes@ == label_bytes(*label),
{
    let mut bytes: Vec<u8> = Vec::new();
    encode_int64(1, label.key, &mut bytes);
    encode_int64(2, label.str, &mut bytes);
    assert(bytes@ =~= label_bytes(*label));
    bytes
}

/// Encodes a [`Mapping`].
fn encode_mapping(mapping: &Mapping) -> (bytes: Vec<u8>)
    ensures
        bytes@ == mapping_bytes(*mapping),
{
    let mut bytes: Vec<u8> = Vec::new();
    encode_uint64(1, mapping.id, &mut bytes);
    encode_uint64(2, mapping.memory_start, &mut bytes);
    encode_uint64(3, mapping.memory_limit, &mut bytes);
    encode_uint64(4, mapping.file_offset, &mut bytes);
    encode_int64(5, mapping.filename, &mut bytes);
    encode_int64(6, mapping.build_id, &mut bytes);
    assert(bytes@ =~= mapping_bytes(*mapping));
    bytes
}

/// Encodes a [`Location`].
fn encode_location(location: &Location) -> (bytes: Vec<u8>)
    ensures
        bytes@ == location_bytes(*location),
{
    let mut bytes: Vec<u8> = Vec::new();
    encode_uint64(1, location.id, &mut bytes);
    encode_uint64(2, location.mapping_id, &mut bytes);
    encode_uint64(3, location.address, &mut bytes);
    assert(bytes@ =~= location_bytes(*location));
    bytes
}

/// Encodes a [`Sample`].
fn encode_sample(sample: &Sample) -> (bytes: Vec<u8>)
    ensures
        bytes@ == sample_bytes(sample@),
{
    let mut labels: Vec<Vec<u8>> = Vec::new();
    let mut i: usize = 0;
    while i < sample.label.len()
        invariant
            i <= sample.label@.len(),
            labels@.len() == i,
            forall|j: int| 0 <= j < i ==> (#[trigger] labels@[j])@ == label_bytes(sample.label@[j]),
        decreases sample.label@.len() - i,
    {
        labels.push(encode_label(&sample.label[i]));
        i += 1;
    }
    assert(item_views(labels@) =~= sample@.label.map_values(|label: Label| label_bytes(label)));
    let mut bytes: Vec<u8> = Vec::new();
    encode_packed(1, &sample.location_id, &mut bytes);
    encode_packed(2, &to_numbers(&sample.value), &mut bytes);
    encode_repeated(3, labels, &mut bytes);
    assert(bytes@ =~= sample_bytes(sample@));
    bytes
}

/// Encodes the value types of a profile.
fn encode_value_types(value_types: &Vec<ValueType>) -> (items: Vec<Vec<u8>>)
    ensures
        item_views(items@) == value_types@.map_values(
            |value_type: ValueType| value_type_bytes(value_type),
        ),
{
    let mut items: Vec<Vec<u8>> = Vec::new();
    let mut i: usize = 0;
    while i < value_types.len()
        invariant
            i <= value_types@.len(),
            items@.len() == i,
            forall|j: int|
                0 <= j < i ==> (#[trigger] items@[j])@ == value_type_bytes(value_types@[j]),
        decreases value_types@.len() - i,
    {
        items.push(encode_value_type(&value_types[i]));
        i += 1;
    }
    assert(item_views(items@) =~= value_types@.map_values(
        |value_type: ValueType| value_type_bytes(value_type),
    ));
    items
}

/// Encodes the samples of a profile.
fn encode_samples(samples: &Vec<Sample>) -> (items: Vec<Vec<u8>>)
    ensures
        item_views(items@) == sample_views(samples@).map_values(
            |sample: SampleView| sample_bytes(sample),
        ),
{
    let mut items: Vec<Vec<u8>> = Vec::new();
    let mut i: usize = 0;
    while i < samples.len()
        invariant
            i <= samples@.len(),
            items@.len() == i,
            forall|j: int| 0 <= j < i ==> (#[trigger] items@[j])@ == sample_bytes(samples@[j]@),
        decreases samples@.len() - i,
    {
        items.push(encode_sample(&samples[i]));
        i += 1;
    }
    assert(item_views(items@) =~= sample_views(samples@).map_values(
        |sample: SampleView| sample_bytes(sample),
    ));
    items
}

/// Encodes the mappings of a profile.
fn encode_mappings(mappings: &Vec<Mapping>) -> (items: Vec<Vec<u8>>)
    ensures
        item_views(items@) == mappings@.map_values(|mapping: Mapping| mapping_bytes(mapping)),
{
    let mut items: Vec<Vec<u8>> = Vec::new();
    let mut i: usize = 0;
    while i < mappings.len()
        invariant
            i <= mappings@.len(),
            items@.len() == i,
            forall|j: int| 0 <= j < i ==> (#[trigger] items@[j])@ == mapping_bytes(mappings@[j]),
        decreases mappings@.len() - i,
    {
        items.push(encode_mapping(&mappings[i]));
        i += 1;
    }
    assert(item_views(items@) =~= mappings@.map_values(|mapping: Mapping| mapping_bytes(mapping)));
    items
}

/// Encodes the locations of a profile.
fn encode_locations(locations: &Vec<Location>) -> (items: Vec<Vec<u8>>)
    ensures
        item_views(items@) == locations@.map_values(|location: Location| location_bytes(location)),
{
    let mut items: Vec<Vec<u8>> = Vec::new();
    let mut i: usize = 0;
    while i < locations.len()
        invariant
            i <= locations@.len(),
            items@.len() == i,
            forall|j: int| 0 <= j < i ==> (#[trigger] items@[j])@ == location_bytes(locations@[j]),
        decreases locations@.len() - i,
    {
        items.push(encode_location(&locations[i]));
        i += 1;
    }
    assert(item_views(items@) =~= locations@.map_values(
        |location: Location| location_bytes(location),
    ));
    items
}

/// Encodes the strings of a profile.
fn encode_strings(strings: &Vec<String>) -> (items: Vec<Vec<u8>>)
    ensures
        item_views(items@) == texts(strings@).map_values(|string: Seq<char>| encode_utf8(string)),
{
    let mut items: Vec<Vec<u8>> = Vec::new();
    let mut i: usize = 0;
    while i < strings.len()
        invariant
            i <= strings@.len(),
            items@.len() == i,
            forall|j: int| 0 <= j < i ==> (#[trigger] items@[j])@ == encode_utf8(strings@[j]@),
        decreases strings@.len() - i,
    {
        items.push(vstd::slice::slice_to_vec(strings[i].as_str().as_bytes()));
        i += 1;
    }
    assert(item_views(items@) =~= texts(strings@).map_values(
        |string: Seq<char>| encode_utf8(string),
    ));
    items
}

/// Encodes a [`Profile`].
pub fn encode_profile(profile: &Profile) -> (bytes: Vec<u8>)
    ensures
        bytes@ == profile_bytes(profile@),
{
    let mut bytes: Vec<u8> = Vec::new();
    encode_repeated(1, encode_value_types(&profile.sample_type), &mut bytes);
    encode_repeated(2, encode_samples(&profile.sample), &mut bytes);
    encode_repeated(3, encode_mappings(&profile.mapping), &mut bytes);
    encode_repeated(4, encode_locations(&profile.location), &mut bytes);
    encode_repeated(6, encode_strings(&profile.string_table), &mut bytes);
    encode_int64(9, profile.time_nanos, &mut bytes);
    let mut period_types: Vec<Vec<u8>> = Vec::new();
    if let Some(period_type) = &profile.period_type {
        period_types.push(encode_value_type(period_type));
    }
    assert(item_views(period_types@) =~= optional_item(profile.period_type));
    encode_repeated(11, period_types, &mut bytes);
    encode_packed(13, &to_numbers(&profile.comment), &mut bytes);
    assert(bytes@ =~= profile_bytes(profile@));
    bytes
}

/// Some bytes, compressed by gzip at the default level.
pub uninterp spec fn gzip_bytes(data: Seq<u8>) -> Seq<u8>;

/// Compresses bytes, with `flate2::write::GzEncoder` at its default level: a new encoder over an
/// empty vector, `write_all` of the bytes, then `finish`.
///
/// Claimed is that the compressed bytes are a function of the given ones, which begins with the
/// ten bytes of the header that the encoder is made with. How the bytes between the header and
/// the checksum are compressed is left unsaid.
#[verifier::external_body]
fn gzip(data: &[u8]) -> (compressed: Vec<u8>)
    ensures
        compressed@ == gzip_bytes(data@),
        seq![0x1fu8, 0x8b, 8, 0, 0, 0, 0, 0, 0, 255].is_prefix_of(compressed@),
{
    let mut gz = flate2::write::GzEncoder::new(Vec::new(), flate2::Compression::default());
    gz.write_all(data).unwrap();
    gz.finish().unwrap()
}

/// Encodes a [`Profile`] as the pprof format has it: as a gzipped protobuf message.
pub fn compress_profile(profile: &Profile) -> (bytes: Vec<u8>)
    ensures
        bytes@ == gzip_bytes(profile_bytes(profile@)),
        seq![0x1fu8, 0x8b, 8, 0, 0, 0, 0, 0, 0, 255].is_prefix_of(bytes@),
{
    let encoded: Vec<u8> = encode_profile(profile);
    gzip(encoded.as_slice())
}

} // verus!
