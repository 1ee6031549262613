use jemalloc_pprof::bytes::ByteOrder;
use jemalloc_pprof::elf::{
    align_up, assert_pointer_valid, describe_object, find_build_id, notes_address, CallbackState,
    CollectError, PointerError, ProgramHeader, Visit, CB_RESULT_ERROR, CB_RESULT_OK, PT_LOAD,
    PT_NOTE,
};
use jemalloc_pprof::mappings::{
    build_mappings, check_segments, BuildId, LoadedSegment, Mapping, SharedObject,
};

/// A note with padded parts.
fn note(n_type: u32, name: &[u8], description: &[u8], order: ByteOrder) -> Vec<u8> {
    let word = |number: u32| match order {
        ByteOrder::Little => number.to_le_bytes(),
        ByteOrder::Big => number.to_be_bytes(),
    };
    let mut bytes = Vec::new();
    bytes.extend(word(name.len() as u32));
    bytes.extend(word(description.len() as u32));
    bytes.extend(word(n_type));
    for part in [name, description] {
        bytes.extend(part);
        while bytes.len() % 4 != 0 {
            bytes.push(0);
        }
    }
    bytes
}

#[test]
fn alignment_is_least() {
    assert_eq!(align_up::<4>(0), 0);
    assert_eq!(align_up::<4>(1), 4);
    assert_eq!(align_up::<4>(3), 4);
    assert_eq!(align_up::<4>(4), 4);
    assert_eq!(align_up::<4>(5), 8);
    assert_eq!(align_up::<7>(15), 21);
    assert_eq!(align_up::<1>(usize::MAX), usize::MAX);
    for p in 0..100 {
        let aligned = align_up::<12>(p);
        assert_eq!(Some(aligned), (p..).find(|q| q % 12 == 0));
        assert_eq!(align_up::<12>(aligned), aligned);
    }
}

#[test]
fn pointers_are_checked() {
    assert_eq!(assert_pointer_valid(0, 1), Err(PointerError::Null));
    assert_eq!(assert_pointer_valid(6, 4), Err(PointerError::Unaligned));
    assert_eq!(assert_pointer_valid(8, 4), Ok(()));
    assert_eq!(PointerError::Null.message(), "null pointer");
    assert_eq!(PointerError::Unaligned.message(), "unaligned pointer");
}

#[test]
fn notes_have_an_address() {
    assert_eq!(notes_address(0x1000, 0x20, 15), Ok(None));
    assert_eq!(notes_address(0x1000, 0x20, 16), Ok(Some(0x1020)));
    assert_eq!(notes_address(0x1000, 0x22, 16), Err(PointerError::Unaligned));
    assert_eq!(notes_address(0, 0, 16), Err(PointerError::Null));
    // The offset may stand for a negative number.
    assert_eq!(notes_address(0x1000, usize::MAX - 0xff, 16), Ok(Some(0xf00)));
    assert_eq!(notes_address(1, usize::MAX, 16), Err(PointerError::Null));
}

#[test]
fn the_build_id_is_found() {
    for order in [ByteOrder::Little, ByteOrder::Big] {
        let mut segment = note(1, b"GNU\0", b"abi tag", order);
        segment.extend(note(3, b"stapsdt\0", b"x", order));
        segment.extend(note(3, b"GNU\0", b"", order));
        segment.extend(note(7, b"", b"", order));
        let at = segment.len() + 16;
        segment.extend(note(3, b"GNU\0", b"\x12\x34\x56", order));
        segment.extend(note(3, b"GNU\0", b"another", order));
        assert_eq!(find_build_id(&segment, order), Some((at, 3)));
        assert_eq!(&segment[at..at + 3], b"\x12\x34\x56");
    }
}

#[test]
fn segments_without_a_build_id_have_none() {
    let order = ByteOrder::Little;
    assert_eq!(find_build_id(&[], order), None);
    assert_eq!(find_build_id(&note(3, b"GNU\0", b"", order), order), None);
    assert_eq!(find_build_id(&note(3, b"GNUx", b"id", order), order), None);
    assert_eq!(find_build_id(&note(3, b"GNU\0\0", b"id", order), order), None);
    assert_eq!(find_build_id(&note(3, b"GNU\0", b"id", order), ByteOrder::Big), None);
    // A note whose sizes lead far beyond the segment ends the walk.
    let mut segment = vec![0xff; 12];
    segment.extend(note(3, b"GNU\0", b"id", order));
    assert_eq!(find_build_id(&segment, order), None);
}

#[test]
fn a_build_id_may_reach_beyond_its_segment() {
    let order = ByteOrder::Little;
    let memory = note(3, b"GNU\0", b"0123456789abcdef", order);
    assert_eq!(find_build_id(&memory[..16], order), Some((16, 16)));
    let header = ProgramHeader { p_type: PT_NOTE, p_offset: 0, p_vaddr: 0, p_memsz: 16, memory };
    let object = describe_object(1, b"x".to_vec(), &vec![header], order);
    assert_eq!(object.build_id, Some(BuildId(b"0123456789abcdef".to_vec())));
}

fn load(p_offset: u64, p_vaddr: usize, p_memsz: usize) -> ProgramHeader {
    ProgramHeader { p_type: PT_LOAD, p_offset, p_vaddr, p_memsz, memory: vec![] }
}

fn notes(memory: Vec<u8>) -> ProgramHeader {
    ProgramHeader { p_type: PT_NOTE, p_offset: 9, p_vaddr: 9, p_memsz: memory.len(), memory }
}

#[test]
fn objects_are_described() {
    let order = ByteOrder::Little;
    let headers = vec![
        load(0, 0, 0x1000),
        ProgramHeader { p_type: 6, p_offset: 1, p_vaddr: 2, p_memsz: 3, memory: vec![] },
        notes(note(3, b"GNU\0", b"first", order)),
        load(0x1000, 0x2000, 0x500),
        notes(note(3, b"GNU\0", b"second", order)),
        notes(vec![1, 2, 3]),
        notes(note(1, b"GNU\0", b"third", order)),
    ];
    let object = describe_object(0x7000, b"/lib/x.so".to_vec(), &headers, order);
    assert_eq!(
        object,
        SharedObject {
            base_address: 0x7000,
            path_name: b"/lib/x.so".to_vec(),
            build_id: Some(BuildId(b"second".to_vec())),
            loaded_segments: vec![
                LoadedSegment { file_offset: 0, memory_offset: 0, memory_size: 0x1000 },
                LoadedSegment { file_offset: 0x1000, memory_offset: 0x2000, memory_size: 0x500 },
            ],
        }
    );
    assert_eq!(object.clone(), object);
}

#[test]
fn the_first_object_is_the_current_executable() {
    let mut state = CallbackState::new();
    assert!(state.is_first());
    let visit = state.object_path(Some(b"".to_vec()), Ok(b"/bin/main".to_vec()));
    assert_eq!(visit, Visit::Describe(b"/bin/main".to_vec()));
    assert!(state.is_first());
    let code = state.push_object(1, b"/bin/main".to_vec(), &vec![], ByteOrder::Little);
    assert_eq!(code, CB_RESULT_OK);
    assert!(!state.is_first());
    let visit = state.object_path(Some(b"/lib/x.so".to_vec()), Err("unused".to_string()));
    assert_eq!(visit, Visit::Describe(b"/lib/x.so".to_vec()));
    let code = state.push_object(2, b"/lib/x.so".to_vec(), &vec![load(3, 4, 5)], ByteOrder::Big);
    assert_eq!(code, 0);
    let objects = state.result.unwrap();
    assert_eq!(objects.len(), 2);
    assert_eq!(objects[0].path_name, b"/bin/main");
    assert_eq!(objects[0].base_address, 1);
    assert_eq!(objects[1].path_name, b"/lib/x.so");
    assert_eq!(objects[1].loaded_segments[0].memory_size, 5);
}

#[test]
fn the_walk_stops_without_an_executable() {
    let mut state = CallbackState::new();
    let visit = state.object_path(None, Err("dladdr failed".to_string()));
    assert_eq!(visit, Visit::Return(CB_RESULT_ERROR));
    assert!(!state.is_first());
    let error = state.result.unwrap_err();
    assert_eq!(error, CollectError::CurrentExe("dladdr failed".to_string()));
    assert_eq!(error.message(), "failed to read the name of the current executable");
}

#[test]
fn objects_without_a_name_are_skipped() {
    let mut state = CallbackState::new();
    state.push_object(1, b"/bin/main".to_vec(), &vec![], ByteOrder::Little);
    let visit = state.object_path(None, Ok(b"/bin/main".to_vec()));
    assert_eq!(visit, Visit::Return(CB_RESULT_OK));
    assert_eq!(state.result.unwrap().len(), 1);
}

#[test]
fn every_segment_is_mapped() {
    let first = SharedObject {
        base_address: 0x1000,
        path_name: b"/bin/main".to_vec(),
        build_id: Some(BuildId(vec![1, 2])),
        loaded_segments: vec![
            LoadedSegment { file_offset: 7, memory_offset: 0x10, memory_size: 0x20 },
            // The offset stands for a negative number.
            LoadedSegment { file_offset: 8, memory_offset: usize::MAX - 0xf, memory_size: 4 },
        ],
    };
    let second = SharedObject {
        base_address: 0x9000,
        path_name: b"/lib/x.so".to_vec(),
        build_id: None,
        loaded_segments: vec![LoadedSegment { file_offset: 0, memory_offset: 0, memory_size: 1 }],
    };
    let objects = [first, second];
    assert!(check_segments(&objects));
    assert_eq!(
        build_mappings(&objects),
        vec![
            Mapping {
                memory_start: 0x1010,
                memory_end: 0x1030,
                memory_offset: 0x10,
                file_offset: 7,
                pathname: b"/bin/main".to_vec(),
                build_id: Some(BuildId(vec![1, 2])),
            },
            Mapping {
                memory_start: 0xff0,
                memory_end: 0xff4,
                memory_offset: usize::MAX - 0xf,
                file_offset: 8,
                pathname: b"/bin/main".to_vec(),
                build_id: Some(BuildId(vec![1, 2])),
            },
            Mapping {
                memory_start: 0x9000,
                memory_end: 0x9001,
                memory_offset: 0,
                file_offset: 0,
                pathname: b"/lib/x.so".to_vec(),
                build_id: None,
            },
        ]
    );
}

#[test]
fn segments_must_end_at_an_address() {
    let object = SharedObject {
        base_address: usize::MAX,
        path_name: vec![],
        build_id: None,
        loaded_segments: vec![LoadedSegment { file_offset: 0, memory_offset: 0, memory_size: 1 }],
    };
    assert!(!check_segments(&[object]));
    assert!(check_segments(&[]));
}

#[test]
fn build_ids_are_shown_in_hexadecimal() {
    assert_eq!(BuildId(vec![0, 0x1f, 0xab, 0xff]).to_text(), "001fabff");
    assert_eq!(BuildId(vec![]).to_text(), "");
}
