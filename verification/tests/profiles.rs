use std::io::Read;

use jemalloc_pprof::double::Double;
use jemalloc_pprof::mappings::{BuildId, Mapping};
use jemalloc_pprof::profile::{StackProfile, WeightedStack};
use jemalloc_pprof::proto::{self, Label, Location, Profile, Sample, ValueType};
use jemalloc_pprof::string_table::StringTable;
use jemalloc_pprof::wire::{compress_profile, encode_profile};

fn stack(addrs: &[usize], weight: f64) -> WeightedStack {
    WeightedStack { addrs: addrs.to_vec(), weight: Double { bits: weight.to_bits() } }
}

fn mapping(memory_start: usize, memory_end: usize, pathname: &[u8]) -> Mapping {
    Mapping {
        memory_start,
        memory_end,
        memory_offset: 0xabc,
        file_offset: 0x1f0,
        pathname: pathname.to_vec(),
        build_id: None,
    }
}

fn decompress(bytes: &[u8]) -> Vec<u8> {
    let mut contents = Vec::new();
    flate2::read::GzDecoder::new(bytes).read_to_end(&mut contents).unwrap();
    contents
}

/// A profile with everything in it.
fn example() -> StackProfile {
    let mut profile = StackProfile::default();
    profile.push_mapping(Mapping {
        build_id: Some(BuildId(vec![0xbe, 0xef])),
        ..mapping(0x1000, 0x2000, b"/bin/main")
    });
    profile.push_mapping(mapping(0x1800, 0x3000, b"/lib/x.so"));
    profile.push_stack(stack(&[0x1001, 0x2001], 10.75), Some("thread a"));
    profile.push_stack(stack(&[0x2001, 0x9001], -3.5), None);
    profile.push_stack(stack(&[], 0.0), Some("thread b"));
    profile.push_stack(stack(&[0x1000], 1.0), Some("thread a"));
    profile
}

#[test]
fn annotations_are_listed_once() {
    let profile = example();
    assert_eq!(profile.annotations, vec!["thread a", "thread b"]);
    let indices: Vec<Option<usize>> = profile.stacks.iter().map(|(_, index)| *index).collect();
    assert_eq!(indices, vec![Some(0), None, Some(1), Some(0)]);
}

#[test]
fn stacks_are_walked_over() {
    let profile = example();
    let mut iter = profile.iter();
    let mut seen = Vec::new();
    while let Some((stack, annotation)) = iter.next() {
        seen.push((stack.addrs.clone(), f64::from_bits(stack.weight.bits), annotation));
    }
    assert_eq!(
        seen,
        vec![
            (vec![0x1001, 0x2001], 10.75, Some("thread a")),
            (vec![0x2001, 0x9001], -3.5, None),
            (vec![], 0.0, Some("thread b")),
            (vec![0x1000], 1.0, Some("thread a")),
        ]
    );
}

#[test]
fn a_profile_becomes_a_message() {
    let profile = example();
    assert!(profile.is_convertible());
    let message = profile.message(("inuse_space", "bytes"), ("space", "bytes"), None, 42);
    assert_eq!(
        message.string_table,
        vec![
            "",
            "inuse_space",
            "bytes",
            "space",
            "/bin/main",
            "beef",
            "executableInfo=3;1f0;abc",
            "/lib/x.so",
            "annotation",
            "thread a",
        ]
    );
    assert_eq!(message.sample_type, vec![ValueType { type_: 1, unit: 2 }]);
    assert_eq!(message.period_type, Some(ValueType { type_: 3, unit: 2 }));
    assert_eq!(message.time_nanos, 42);
    assert_eq!(message.comment, vec![6, 6]);
    assert_eq!(
        message.mapping,
        vec![
            proto::Mapping {
                id: 1,
                memory_start: 0x1000,
                memory_limit: 0x2000,
                file_offset: 0x1f0,
                filename: 4,
                build_id: 5,
            },
            proto::Mapping {
                id: 2,
                memory_start: 0x1800,
                memory_limit: 0x3000,
                file_offset: 0x1f0,
                filename: 7,
                build_id: 0,
            },
        ]
    );
    assert_eq!(
        message.location,
        vec![
            Location { id: 1, mapping_id: 2, address: 0x2000 },
            Location { id: 2, mapping_id: 1, address: 0x1000 },
            Location { id: 3, mapping_id: 0, address: 0x9000 },
            Location { id: 4, mapping_id: 0, address: 0xfff },
        ]
    );
    let label = Label { key: 8, str: 9 };
    assert_eq!(
        message.sample,
        vec![
            Sample { location_id: vec![1, 2], value: vec![10], label: vec![label, label] },
            Sample { location_id: vec![3, 1], value: vec![-3], label: vec![] },
            Sample { location_id: vec![], value: vec![0], label: vec![] },
            Sample { location_id: vec![4], value: vec![1], label: vec![label] },
        ]
    );
}

#[test]
fn labels_may_have_another_key() {
    let mut profile = StackProfile::default();
    profile.push_stack(stack(&[1], 1.0), Some("x"));
    let message = profile.message(("a", "b"), ("c", "d"), Some("key".to_string()), 0);
    assert_eq!(message.string_table, vec!["", "a", "b", "c", "d", "key", "x"]);
    assert_eq!(message.sample[0].label, vec![Label { key: 5, str: 6 }]);
}

#[test]
fn paths_may_not_be_text() {
    let mut profile = StackProfile::default();
    profile.push_mapping(mapping(1, 2, b"/a\xff/\xe2\x82b"));
    let message = profile.message(("", ""), ("", ""), None, 0);
    assert_eq!(message.string_table, vec!["", "/a\u{fffd}/\u{fffd}b", "executableInfo=3;1f0;abc"]);
    let paths = vec!["other".to_string()];
    let message = profile.message_with_paths(&paths, ("", ""), ("", ""), None, 0);
    assert_eq!(message.string_table, vec!["", "other", "executableInfo=3;1f0;abc"]);
}

#[test]
fn only_sensible_profiles_are_converted() {
    let mut profile = StackProfile::default();
    assert!(profile.is_convertible());
    // The address before zero.
    profile.push_stack(stack(&[1, 0], 1.0), None);
    assert!(!profile.is_convertible());
    // Exabyte heap sizes.
    for weight in [1e19, -1e19, f64::INFINITY, f64::NAN] {
        let mut profile = StackProfile::default();
        profile.push_stack(stack(&[], weight), None);
        assert!(!profile.is_convertible(), "{weight}");
    }
    for weight in [9.2e18, -9.2e18, 9223372036854775808.0, -9223372036854775808.0, 1e-300] {
        let mut profile = StackProfile::default();
        profile.push_stack(stack(&[], weight), None);
        assert!(profile.is_convertible(), "{weight}");
        let message = profile.message(("", ""), ("", ""), None, 0);
        assert_eq!(message.sample[0].value, vec![weight as i64]);
    }
    // An annotation that is none.
    let profile = StackProfile {
        annotations: vec![],
        stacks: vec![(stack(&[], 1.0), Some(0))],
        mappings: vec![],
    };
    assert!(!profile.is_convertible());
}

fn empty() -> Profile {
    Profile {
        sample_type: vec![],
        sample: vec![],
        mapping: vec![],
        location: vec![],
        string_table: vec![],
        time_nanos: 0,
        period_type: None,
        comment: vec![],
    }
}

#[test]
fn nothing_is_encoded_as_nothing() {
    assert_eq!(encode_profile(&empty()), Vec::<u8>::new());
}

#[test]
fn every_field_is_encoded() {
    let profile = Profile {
        sample_type: vec![ValueType { type_: 1, unit: 0 }],
        sample: vec![Sample {
            location_id: vec![1, 300],
            value: vec![-1, 0],
            label: vec![Label { key: 0, str: 2 }],
        }],
        mapping: vec![proto::Mapping {
            id: 1,
            memory_start: 128,
            memory_limit: u64::MAX,
            file_offset: 0,
            filename: 3,
            build_id: 0,
        }],
        location: vec![Location { id: 1, mapping_id: 1, address: 16384 }],
        string_table: vec!["".to_string(), "h\u{e9}".to_string()],
        time_nanos: 1,
        period_type: Some(ValueType { type_: 0, unit: 0 }),
        comment: vec![0, 127],
    };
    let mut expected = Vec::new();
    expected.extend([0x0a, 2, 0x08, 1]);
    expected.extend([0x12, 22, 0x0a, 3, 1, 0xac, 0x02]);
    expected.extend([0x12, 11]);
    expected.extend([0xff; 9]);
    expected.extend([0x01, 0x00]);
    expected.extend([0x1a, 2, 0x10, 2]);
    expected.extend([0x1a, 18, 0x08, 1, 0x10, 0x80, 0x01, 0x18]);
    expected.extend([0xff; 9]);
    expected.extend([0x01, 0x28, 3]);
    expected.extend([0x22, 8, 0x08, 1, 0x10, 1, 0x18, 0x80, 0x80, 0x01]);
    expected.extend([0x32, 0, 0x32, 3, b'h', 0xc3, 0xa9]);
    expected.extend([0x48, 1]);
    expected.extend([0x5a, 0]);
    expected.extend([0x6a, 2, 0, 127]);
    assert_eq!(encode_profile(&profile), expected);
}

#[test]
fn profiles_are_compressed() {
    let message = example().message(("a", "b"), ("c", "d"), None, 7);
    let encoded = encode_profile(&message);
    let compressed = compress_profile(&message);
    assert_ne!(compressed, encoded);
    assert_eq!(compressed[..10], [0x1f, 0x8b, 8, 0, 0, 0, 0, 0, 0, 255]);
    assert_eq!(decompress(&compressed), encoded);
}

#[test]
fn pprof_is_the_compressed_message() {
    let profile = example();
    let message = profile.message(("a", "b"), ("c", "d"), Some("k".to_string()), 7);
    let pprof = profile.to_pprof(("a", "b"), ("c", "d"), Some("k".to_string()), 7);
    assert_eq!(decompress(&pprof), encode_profile(&message));
}

#[test]
fn heap_profiles_have_their_names() {
    let profile = example();
    assert_eq!(
        profile.heap_pprof(9),
        profile.to_pprof(("inuse_space", "bytes"), ("space", "bytes"), None, 9)
    );
}

/// The number that starts at a position, and the position behind it.
fn read_varint(bytes: &[u8], at: usize) -> (u64, usize) {
    let mut rest = &bytes[at..];
    let number = prost::encoding::decode_varint(&mut rest).unwrap();
    (number, bytes.len() - rest.len())
}

/// The fields of a message: a number, or bytes.
fn read_fields(bytes: &[u8]) -> Vec<(u64, Result<u64, Vec<u8>>)> {
    let mut fields = Vec::new();
    let mut at = 0;
    while at < bytes.len() {
        let (key, behind_key) = read_varint(bytes, at);
        let (number, next) = read_varint(bytes, behind_key);
        if key % 8 == 0 {
            fields.push((key / 8, Ok(number)));
            at = next;
        } else {
            assert_eq!(key % 8, 2);
            at = next + number as usize;
            fields.push((key / 8, Err(bytes[next..at].to_vec())));
        }
    }
    fields
}

#[test]
fn messages_are_read_back() {
    let message = example().message(("a", "b"), ("c", "d"), None, -7);
    let fields = read_fields(&encode_profile(&message));
    let items = |tag: u64| -> Vec<Vec<u8>> {
        let of_tag = fields.iter().filter(|field| field.0 == tag);
        of_tag.map(|field| field.1.clone().unwrap_err()).collect()
    };
    let strings: Vec<String> =
        items(6).into_iter().map(|item| String::from_utf8(item).unwrap()).collect();
    assert_eq!(strings, message.string_table);
    assert_eq!(items(1).len(), 1);
    assert_eq!(items(2).len(), message.sample.len());
    assert_eq!(items(3).len(), message.mapping.len());
    assert_eq!(items(4).len(), message.location.len());
    for (item, location) in items(4).iter().zip(&message.location) {
        let mut expected = vec![(1, Ok(location.id))];
        if location.mapping_id != 0 {
            expected.push((2, Ok(location.mapping_id)));
        }
        expected.push((3, Ok(location.address)));
        assert_eq!(read_fields(item), expected);
    }
    let time = fields.iter().find(|field| field.0 == 9).unwrap();
    assert_eq!(time.1, Ok(-7i64 as u64));
    let sample = read_fields(&items(2)[1]);
    assert_eq!(sample[0], (1, Err(vec![3, 1])));
    assert_eq!(sample[1].0, 2);
    assert_eq!(read_varint(&sample[1].1.clone().unwrap_err(), 0), (-3i64 as u64, 10));
}

#[test]
fn strings_have_one_index() {
    let mut table = StringTable::new();
    assert_eq!(table.insert(""), 0);
    assert_eq!(table.insert("a"), 1);
    assert_eq!(table.insert("b"), 2);
    assert_eq!(table.insert("a"), 1);
    assert_eq!(table.insert(""), 0);
    assert_eq!(table.finish(), vec!["", "a", "b"]);
    assert_eq!(StringTable::new().finish(), vec![""]);
}

#[test]
fn tables_read_every_string_back() {
    let strings = ["b", "", "a", "b", "\u{e9}", "a", "c", ""];
    let mut table = StringTable::new();
    let indices: Vec<i64> = strings.iter().map(|string| table.insert(string)).collect();
    assert_eq!(indices, vec![1, 0, 2, 1, 3, 2, 4, 0]);
    let listed = table.finish();
    assert_eq!(listed, vec!["", "b", "a", "\u{e9}", "c"]);
    for (string, index) in strings.iter().zip(&indices) {
        assert_eq!(&listed[*index as usize], string);
    }
    for (left, i) in strings.iter().zip(&indices) {
        for (right, j) in strings.iter().zip(&indices) {
            assert_eq!(left == right, i == j);
        }
    }
}
