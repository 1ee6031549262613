use jemalloc_pprof::macho::{
    check_commands, check_image_infos, dyld_all_image_infos64, dyld_image_info64, get_image_infos,
    get_shared_object, load_command, mach_header64, missing_bytes, overruns, read_all_image_infos,
    read_mach_header, read_segment_command, segment_command64, ImageInfosError, LC_SEGMENT_64,
    LC_UUID,
};
use jemalloc_pprof::mappings::{build_mappings, BuildId, LoadedSegment};

/// A command with its size.
fn command(cmd: u32, body: &[u8]) -> Vec<u8> {
    let mut bytes = cmd.to_le_bytes().to_vec();
    bytes.extend((body.len() as u32 + 8).to_le_bytes());
    bytes.extend(body);
    bytes
}

/// A command that maps a segment.
fn named_segment(name: &[u8], vmaddr: u64, vmsize: u64, fileoff: u64, filesize: u64) -> Vec<u8> {
    let mut body = name.to_vec();
    body.resize(16, 0);
    for number in [vmaddr, vmsize, fileoff, filesize] {
        body.extend(number.to_le_bytes());
    }
    for number in [-1i32, 5] {
        body.extend(number.to_le_bytes());
    }
    for number in [6u32, 7] {
        body.extend(number.to_le_bytes());
    }
    command(LC_SEGMENT_64, &body)
}

/// A command that maps the segment with the header.
fn segment(vmaddr: u64, vmsize: u64, fileoff: u64) -> Vec<u8> {
    named_segment(b"__TEXT", vmaddr, vmsize, fileoff, 0x99)
}

/// The loaded segments of an object with some commands.
fn segments(commands: &[Vec<u8>]) -> Vec<LoadedSegment> {
    let bytes = commands.concat();
    let memory = image(commands.len() as u32, bytes.len() as u32, &bytes);
    assert!(check_commands(&memory));
    get_shared_object(&info(0x7000, 0), vec![], &memory).loaded_segments
}

/// The offsets of the loaded segments of an object with some commands.
fn offsets(commands: &[Vec<u8>]) -> Vec<usize> {
    segments(commands).iter().map(|segment| segment.memory_offset).collect()
}

/// A header and commands.
fn image(ncmds: u32, sizeofcmds: u32, commands: &[u8]) -> Vec<u8> {
    let mut bytes = Vec::new();
    for number in [0xfeedfacf, 1, 2, 3, ncmds, sizeofcmds, 4, 5u32] {
        bytes.extend(number.to_le_bytes());
    }
    bytes.extend(commands);
    bytes
}

fn info(load_address: u64, file_path: u64) -> dyld_image_info64 {
    dyld_image_info64 { load_address, file_path, file_mod_date: 0 }
}

#[test]
fn headers_are_read() {
    assert_eq!(
        read_mach_header(&image(6, 7, &[])),
        mach_header64 {
            magic: 0xfeedfacf,
            cputype: 1,
            cpusubtype: 2,
            filetype: 3,
            ncmds: 6,
            sizeofcmds: 7,
            flags: 4,
            reserved: 5,
        }
    );
    assert_eq!(load_command::default(), load_command { cmd: 0, cmdsize: 0 });
}

#[test]
fn segment_commands_are_read() {
    let mut bytes = vec![0xaa];
    bytes.extend(segment(0x1_0000_0000, 0x4000, 0x123));
    assert_eq!(
        read_segment_command(&bytes, 1),
        segment_command64 {
            cmd: 0x19,
            cmdsize: 72,
            segname: *b"__TEXT\0\0\0\0\0\0\0\0\0\0",
            vmaddr: 0x1_0000_0000,
            vmsize: 0x4000,
            fileoff: 0x123,
            filesize: 0x99,
            maxprot: -1,
            initprot: 5,
            nsects: 6,
            flags: 7,
        }
    );
}

#[test]
fn the_list_of_objects_is_checked() {
    assert_eq!(check_image_infos(0, 28), Ok(()));
    assert_eq!(check_image_infos(0, 27), Err(ImageInfosError::TooSmall(27)));
    assert_eq!(check_image_infos(5, 27), Err(ImageInfosError::TaskInfo(5)));
    assert_eq!(check_image_infos(-1, 28), Err(ImageInfosError::TaskInfo(-1)));
}

#[test]
fn the_list_of_objects_is_read() {
    let mut bytes = Vec::new();
    bytes.extend(15u32.to_le_bytes());
    bytes.extend(2u32.to_le_bytes());
    bytes.extend(0x1122334455667788u64.to_le_bytes());
    bytes.extend(9u64.to_le_bytes());
    bytes.extend([1, 0, 0, 0]);
    assert_eq!(
        read_all_image_infos(&bytes),
        dyld_all_image_infos64 {
            version: 15,
            infoArrayCount: 2,
            infoArray: 0x1122334455667788,
            notification: 9,
            processDetachedFromSharedRegion: true,
        }
    );
    let mut bytes = Vec::new();
    for number in [1u64, 2, 3, 4, 5, u64::MAX, 7] {
        bytes.extend(number.to_le_bytes());
    }
    assert_eq!(
        get_image_infos(&bytes, 2),
        vec![
            dyld_image_info64 { load_address: 1, file_path: 2, file_mod_date: 3 },
            dyld_image_info64 { load_address: 4, file_path: 5, file_mod_date: u64::MAX },
        ]
    );
    assert_eq!(get_image_infos(&[], 0), vec![]);
}

#[test]
fn objects_are_described_by_their_commands() {
    let mut commands = segment(0x1000, 0x2000, 0);
    commands.extend(command(0x32, b"build version"));
    commands.extend(command(LC_UUID, b"0123456789abcdef"));
    commands.extend(named_segment(b"__DATA", 0x3000, 0x4000, 0x2000, 0x4000));
    let memory = image(4, commands.len() as u32, &commands);
    assert_eq!(missing_bytes(&memory), 0);
    assert!(check_commands(&memory));
    let object = get_shared_object(&info(0x7000, 1), b"/usr/lib/x.dylib".to_vec(), &memory);
    assert_eq!(object.base_address, 0x7000);
    assert_eq!(object.path_name, b"/usr/lib/x.dylib");
    assert_eq!(object.build_id, Some(BuildId(b"0123456789abcdef".to_vec())));
    assert_eq!(
        object.loaded_segments,
        vec![
            LoadedSegment { file_offset: 0, memory_offset: 0, memory_size: 0x2000 },
            LoadedSegment { file_offset: 0x2000, memory_offset: 0x2000, memory_size: 0x4000 },
        ]
    );
    let mappings = build_mappings(&[object]);
    assert_eq!((mappings[0].memory_start, mappings[0].memory_end), (0x7000, 0x9000));
    assert_eq!((mappings[1].memory_start, mappings[1].memory_end), (0x9000, 0xd000));
}

#[test]
fn offsets_are_those_to_the_header() {
    let zero = named_segment(b"__PAGEZERO", 0, 0x1_0000_0000, 0, 0);
    let text = named_segment(b"__TEXT", 0x1_0000_0000, 0x4000, 0, 0x4000);
    let data = named_segment(b"__DATA", 0x1_0000_8000, 0x4000, 0x4000, 0x4000);
    assert_eq!(offsets(&[text.clone(), data.clone()]), vec![0, 0x8000]);
    // A segment before the header's one has an offset that stands for a negative number.
    let before = 0usize.wrapping_sub(0x1_0000_0000);
    assert_eq!(offsets(&[zero, text, data]), vec![before, 0, 0x8000]);
}

#[test]
fn the_header_is_found_by_its_place_or_its_name() {
    let other = named_segment(b"__DATA", 0x500, 0x10, 0x40, 0x10);
    // By the start of the file, which must not be empty.
    let start = named_segment(b"__START", 0x300, 0x10, 0, 1);
    assert_eq!(offsets(&[other.clone(), start.clone()]), vec![0x200, 0]);
    let empty = named_segment(b"__START", 0x300, 0x10, 0, 0);
    assert_eq!(offsets(&[other.clone(), empty]), vec![0x500, 0x300]);
    // By its name, wherever it is in the file.
    let text = named_segment(b"__TEXT", 0x100, 0x10, 0x9000, 0);
    assert_eq!(offsets(&[other.clone(), text.clone()]), vec![0x400, 0]);
    // The whole name counts.
    let long = named_segment(b"__TEXT_EXEC", 0x100, 0x10, 0x9000, 1);
    assert_eq!(offsets(&[other.clone(), long]), vec![0x500, 0x100]);
    let short = named_segment(b"__TEX", 0x100, 0x10, 0x9000, 1);
    assert_eq!(offsets(&[other.clone(), short]), vec![0x500, 0x100]);
    // The first one counts.
    assert_eq!(offsets(&[start.clone(), text.clone()]), vec![0, 0usize.wrapping_sub(0x200)]);
    assert_eq!(offsets(&[text, start]), vec![0, 0x200]);
    // Without one, the addresses themselves are the offsets.
    assert_eq!(offsets(&[other]), vec![0x500]);
}

#[test]
fn overruns_are_told() {
    let commands = command(LC_UUID, b"id");
    assert!(!overruns(&image(1, 10, &commands)));
    assert!(!overruns(&image(0, 10, &commands)));
    assert!(overruns(&image(2, 10, &commands)));
    assert!(overruns(&image(1, 9, &commands)));
    assert!(overruns(&image(1, 7, &commands)));
    assert!(!overruns(&image(0, 0, &[])));
}

#[test]
fn a_missing_path_is_empty() {
    let memory = image(0, 0, &[]);
    assert!(check_commands(&memory));
    let object = get_shared_object(&info(1, 0), b"unused".to_vec(), &memory);
    assert_eq!(object.path_name, b"");
    assert_eq!(object.build_id, None);
    assert_eq!(object.loaded_segments, vec![]);
}

#[test]
fn commands_beyond_the_end_are_left_out() {
    let mut commands = segment(1, 2, 3);
    commands.extend(command(LC_UUID, b"id"));
    commands.extend(command(LC_UUID, b"far"));
    // The third command does not fit, and the fourth is not reached.
    let memory = image(4, 72 + 10 + 10, &commands);
    assert!(check_commands(&memory));
    let object = get_shared_object(&info(1, 0), vec![], &memory);
    assert_eq!(object.build_id, Some(BuildId(b"id".to_vec())));
    assert_eq!(object.loaded_segments.len(), 1);
    // Nor does the start of the third one.
    let memory = image(4, 72 + 10 + 7, &commands);
    assert!(check_commands(&memory));
    let object = get_shared_object(&info(1, 0), vec![], &memory);
    assert_eq!(object.build_id, Some(BuildId(b"id".to_vec())));
    // Fewer commands are counted than there are.
    let memory = image(1, commands.len() as u32, &commands);
    let object = get_shared_object(&info(1, 0), vec![], &memory);
    assert_eq!(object.build_id, None);
}

#[test]
fn the_last_uuid_counts() {
    let mut commands = command(LC_UUID, b"first");
    commands.extend(command(LC_UUID, b""));
    let memory = image(2, commands.len() as u32, &commands);
    let object = get_shared_object(&info(1, 0), vec![], &memory);
    assert_eq!(object.build_id, Some(BuildId(vec![])));
}

#[test]
fn a_command_without_a_size_is_read_again() {
    let mut commands = segment(1, 2, 3);
    commands[4..8].copy_from_slice(&[0; 4]);
    let memory = image(3, commands.len() as u32, &commands);
    assert!(check_commands(&memory));
    let object = get_shared_object(&info(1, 0), vec![], &memory);
    assert_eq!(object.loaded_segments.len(), 3);
}

#[test]
fn small_commands_are_read_as_a_whole() {
    let whole = segment(0x10, 0x20, 0x30);
    let mut commands = whole[..12].to_vec();
    commands[4..8].copy_from_slice(&12u32.to_le_bytes());
    let memory = image(1, 12, &commands);
    assert_eq!(missing_bytes(&memory), 60);
    assert!(!check_commands(&memory));
    let mut memory = memory;
    memory.extend(&whole[12..]);
    assert_eq!(missing_bytes(&memory), 0);
    assert!(check_commands(&memory));
    let object = get_shared_object(&info(1, 0), vec![], &memory);
    assert_eq!(
        object.loaded_segments,
        vec![LoadedSegment { file_offset: 0x30, memory_offset: 0, memory_size: 0x20 }]
    );
}

#[test]
fn unreadable_commands_are_told() {
    // A header that is cut off.
    assert!(!check_commands(&image(0, 0, &[])[..31]));
    // Commands that are cut off.
    assert!(!check_commands(&image(0, 1, &[])));
    // A UUID that is smaller than the start of its command.
    let mut commands = command(LC_UUID, b"id");
    commands[4..8].copy_from_slice(&7u32.to_le_bytes());
    assert!(!check_commands(&image(1, 10, &commands)));
}
