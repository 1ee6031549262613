//! The shared objects of a process, as the dynamic linker of macOS lists them.

use vstd::prelude::*;

use crate::bytes::{copy_part, double_word, read_double_word, read_word, word, ByteOrder};
use crate::cast::{CastFrom, ReinterpretCast};
use crate::mappings::{
    address_at, build_id_bytes, law_offsets_lead_to_their_address, offset_to, BuildId,
    LoadedSegment, SharedObject, SharedObjectView,
};

verus! {

/// The order in which the bytes of a number lie in memory.
pub const ORDER: ByteOrder = ByteOrder::Little;

/// What `task_info` returns on success.
pub const KERN_SUCCESS: i32 = 0;

/// The command that maps a segment.
pub const LC_SEGMENT_64: u32 = 0x19;

/// The command that holds the UUID of the object.
pub const LC_UUID: u32 = 0x1b;

/// The size of a [`dyld_image_info64`] in memory.
pub const IMAGE_INFO_SIZE: usize = 24;

/// The size of a [`dyld_all_image_infos64`] in memory.
pub const ALL_IMAGE_INFOS_SIZE: usize = 28;

/// The size of a [`mach_header64`] in memory.
pub const MACH_HEADER_SIZE: usize = 32;

/// The size of a [`load_command`] in memory.
pub const LOAD_COMMAND_SIZE: usize = 8;

/// The size of a [`segment_command64`] in memory.
pub const SEGMENT_COMMAND_SIZE: usize = 72;

/// Where an object is loaded, and from which file.
#[allow(non_camel_case_types)]
#[derive(Clone, Copy, Debug, Default, PartialEq, Eq)]
pub struct dyld_image_info64 {
    pub load_address: u64,
    pub file_path: u64,
    pub file_mod_date: u64,
}

/// Where the list of all objects is.
#[allow(non_camel_case_types, non_snake_case)]
#[derive(Clone, Copy, Debug, Default, PartialEq, Eq)]
pub struct dyld_all_image_infos64 {
    pub version: u32,
    pub infoArrayCount: u32,
    // pointer to dyld_image_info
    pub infoArray: u64,
    pub notification: u64,
    pub processDetachedFromSharedRegion: bool,
}

/// The header of a loaded object.
#[allow(non_camel_case_types)]
#[derive(Clone, Copy, Debug, Default, PartialEq, Eq)]
pub struct mach_header64 {
    pub magic: u32,
    pub cputype: u32,
    pub cpusubtype: u32,
    pub filetype: u32,
    pub ncmds: u32,
    pub sizeofcmds: u32,
    pub flags: u32,
    pub reserved: u32,
}

/// The start of each command behind the header.
#[allow(non_camel_case_types)]
#[derive(Clone, Copy, Debug, Default, PartialEq, Eq)]
pub struct load_command {
    pub cmd: u32,
    pub cmdsize: u32,
}

/// A command that maps a segment.
#[allow(non_camel_case_types)]
#[derive(Clone, Copy, Debug, Default, PartialEq, Eq)]
pub struct segment_command64 {
    pub cmd: u32,
    pub cmdsize: u32,
    pub segname: [u8; 16],
    pub vmaddr: u64,
    pub vmsize: u64,
    pub fileoff: u64,
    pub filesize: u64,
    pub maxprot: i32,
    pub initprot: i32,
    pub nsects: u32,
    pub flags: u32,
}

/// The [`dyld_image_info64`] at a position.
pub open spec fn image_info_at(memory: Seq<u8>, at: int) -> dyld_image_info64 {
    dyld_image_info64 {
        load_address: double_word(memory, at, ORDER) as u64,
        file_path: double_word(memory, at + 8, ORDER) as u64,
        file_mod_date: double_word(memory, at + 16, ORDER) as u64,
    }
}

/// The [`dyld_all_image_infos64`] at the start of some bytes.
pub open spec fn all_image_infos(memory: Seq<u8>) -> dyld_all_image_infos64 {
    dyld_all_image_infos64 {
        version: word(memory, 0, ORDER) as u32,
        infoArrayCount: word(memory, 4, ORDER) as u32,
        infoArray: double_word(memory, 8, ORDER) as u64,
        notification: double_word(memory, 16, ORDER) as u64,
        processDetachedFromSharedRegion: memory[24] != 0,
    }
}

/// The [`mach_header64`] at the start of some bytes.
pub open spec fn mach_header(memory: Seq<u8>) -> mach_header64 {
    mach_header64 {
        magic: word(memory, 0, ORDER) as u32,
        cputype: word(memory, 4, ORDER) as u32,
        cpusubtype: word(memory, 8, ORDER) as u32,
        filetype: word(memory, 12, ORDER) as u32,
        ncmds: word(memory, 16, ORDER) as u32,
        sizeofcmds: word(memory, 20, ORDER) as u32,
        flags: word(memory, 24, ORDER) as u32,
        reserved: word(memory, 28, ORDER) as u32,
    }
}

/// The [`load_command`] at a position.
pub open spec fn load_command_at(memory: Seq<u8>, at: int) -> load_command {
    load_command {
        cmd: word(memory, at, ORDER) as u32,
        cmdsize: word(memory, at + 4, ORDER) as u32,
    }
}

/// Reads a [`mach_header64`].
pub fn read_mach_header(memory: &[u8]) -> (header: mach_header64)
    requires
        memory@.len() >= MACH_HEADER_SIZE,
    ensures
        header == mach_header(memory@),
{
    mach_header64 {
        magic: read_word(memory, 0, ORDER),
        cputype: read_word(memory, 4, ORDER),
        cpusubtype: read_word(memory, 8, ORDER),
        filetype: read_word(memory, 12, ORDER),
        ncmds: read_word(memory, 16, ORDER),
        sizeofcmds: read_word(memory, 20, ORDER),
        flags: read_word(memory, 24, ORDER),
        reserved: read_word(memory, 28, ORDER),
    }
}

/// Reads a [`load_command`].
fn read_load_command(memory: &[u8], at: usize) -> (command: load_command)
    requires
        at + LOAD_COMMAND_SIZE <= memory@.len(),
    ensures
        command == load_command_at(memory@, at as int),
{
    assert(at + LOAD_COMMAND_SIZE <= memory.len());
    load_command { cmd: read_word(memory, at, ORDER), cmdsize: read_word(memory, at + 4, ORDER) }
}

/// Why the list of all objects could not be read.
#[derive(Clone, Copy, Debug, PartialEq, Eq)]
pub enum ImageInfosError {
    /// `task_info` returned this number.
    TaskInfo(i32),
    /// The list's head is too small, with this size.
    TooSmall(u64),
}

/// Tells whether the head of the list can be read, by what `task_info` returned and the size that
/// it gave.
pub fn check_image_infos(ret: i32, size: u64) -> (result: Result<(), ImageInfosError>)
    ensures
        result == if ret != KERN_SUCCESS {
            Err::<(), ImageInfosError>(ImageInfosError::TaskInfo(ret))
        } else if size < ALL_IMAGE_INFOS_SIZE {
            Err(ImageInfosError::TooSmall(size))
        } else {
            Ok(())
        },
{
    if ret != KERN_SUCCESS {
        return Err(ImageInfosError::TaskInfo(ret));
    }
    if size < u64::cast_from(ALL_IMAGE_INFOS_SIZE) {
        return Err(ImageInfosError::TooSmall(size));
    }
    Ok(())
}

/// Reads the head of the list of all objects.
pub fn read_all_image_infos(memory: &[u8]) -> (infos: dyld_all_image_infos64)
    requires
        memory@.len() >= ALL_IMAGE_INFOS_SIZE,
    ensures
        infos == all_image_infos(memory@),
{
    dyld_all_image_infos64 {
        version: read_word(memory, 0, ORDER),
        infoArrayCount: read_word(memory, 4, ORDER),
        infoArray: read_double_word(memory, 8, ORDER),
        notification: read_double_word(memory, 16, ORDER),
        processDetachedFromSharedRegion: memory[24] != 0,
    }
}

/// Reads the list of all objects, one after the other.
pub fn get_image_infos(memory: &[u8], count: usize) -> (infos: Vec<dyld_image_info64>)
    requires
        count * IMAGE_INFO_SIZE <= memory@.len(),
    ensures
        infos@ == Seq::new(count as nat, |i: int| image_info_at(memory@, i * IMAGE_INFO_SIZE)),
{
    let ghost all = Seq::new(count as nat, |i: int| image_info_at(memory@, i * IMAGE_INFO_SIZE));
    let mut infos: Vec<dyld_image_info64> = Vec::new();
    let mut i: usize = 0;
    while i < count
        invariant
            i <= count,
            count * IMAGE_INFO_SIZE <= memory.len(),
            all == Seq::new(
                count as nat,
                |i: int| image_info_at(memory@, i * IMAGE_INFO_SIZE),
            ),
            infos@ == all.take(i as int),
        decreases count - i,
    {
        let at: usize = i * IMAGE_INFO_SIZE;
        infos.push(
            dyld_image_info64 {
                load_address: read_double_word(memory, at, ORDER),
                file_path: read_double_word(memory, at + 8, ORDER),
                file_mod_date: read_double_word(memory, at + 16, ORDER),
            },
        );
        assert(infos@ =~= all.take(i + 1));
        i += 1;
    }
    assert(all.take(i as int) =~= all);
    infos
}

/// The position behind the last command of an object.
pub open spec fn end_of_commands(memory: Seq<u8>) -> int {
    MACH_HEADER_SIZE + mach_header(memory).sizeofcmds
}

/// The positions of the first commands of an object, as far as they lie among the commands.
pub open spec fn commands(memory: Seq<u8>, count: nat) -> Seq<int>
    decreases count,
{
    if count == 0 {
        Seq::empty()
    } else {
        let before = commands(memory, (count - 1) as nat);
        let at = next_command(memory, before);
        if before.len() < count - 1 || at + LOAD_COMMAND_SIZE > end_of_commands(memory) || at
            + load_command_at(memory, at).cmdsize > end_of_commands(memory) {
            before
        } else {
            before.push(at)
        }
    }
}

/// The position behind some commands.
pub open spec fn next_command(memory: Seq<u8>, before: Seq<int>) -> int {
    if before.len() == 0 {
        MACH_HEADER_SIZE as int
    } else {
        before.last() + load_command_at(memory, before.last()).cmdsize
    }
}

/// The positions of the commands of an object. If one of them reaches beyond the others' end, it
/// is left out, and so are those behind it.
pub open spec fn all_commands(memory: Seq<u8>) -> Seq<int> {
    commands(memory, mach_header(memory).ncmds as nat)
}

/// Whether the command at a position maps a segment.
pub open spec fn maps_segment(memory: Seq<u8>, at: int) -> bool {
    load_command_at(memory, at).cmd == LC_SEGMENT_64
}

/// The address at which a command asks for its segment.
pub open spec fn segment_vmaddr(memory: Seq<u8>, at: int) -> int {
    double_word(memory, at + 24, ORDER)
}

/// The name of the segment that holds the header, with the zero byte behind it.
pub open spec fn text_segment_name() -> Seq<u8> {
    seq![0x5fu8, 0x5f, 0x54, 0x45, 0x58, 0x54, 0]
}

/// Whether the command at a position maps the segment that holds the header: it maps the start of
/// the file, or its name is `__TEXT`.
pub open spec fn maps_header(memory: Seq<u8>, at: int) -> bool {
    &&& maps_segment(memory, at)
    &&& {
        ||| double_word(memory, at + 40, ORDER) == 0 && double_word(memory, at + 48, ORDER) > 0
        ||| memory.subrange(at + 8, at + 15) == text_segment_name()
    }
}

/// The position of the first command, among those at some positions, that maps the header.
pub open spec fn header_command(memory: Seq<u8>, positions: Seq<int>) -> Option<int>
    decreases positions.len(),
{
    if positions.len() == 0 {
        None
    } else {
        match header_command(memory, positions.drop_last()) {
            Some(at) => Some(at),
            None => if maps_header(memory, positions.last()) {
                Some(positions.last())
            } else {
                None
            },
        }
    }
}

/// The address at which an object asks for its header, and zero if no command maps it. The
/// addresses of all segments are relative to it.
pub open spec fn link_address(memory: Seq<u8>, positions: Seq<int>) -> int {
    match header_command(memory, positions) {
        Some(at) => segment_vmaddr(memory, at),
        None => 0,
    }
}

/// The loaded segment that the command at a position maps, in an object with the given link
/// address.
pub open spec fn segment_at(memory: Seq<u8>, at: int, link_address: int) -> LoadedSegment {
    LoadedSegment {
        file_offset: double_word(memory, at + 40, ORDER) as u64,
        memory_offset: offset_to(link_address, segment_vmaddr(memory, at)) as usize,
        memory_size: double_word(memory, at + 32, ORDER) as usize,
    }
}

/// The loaded segments that the commands at some positions map, in an object with the given link
/// address.
pub open spec fn mapped_segments(
    memory: Seq<u8>,
    positions: Seq<int>,
    link_address: int,
) -> Seq<LoadedSegment>
    decreases positions.len(),
{
    if positions.len() == 0 {
        Seq::empty()
    } else {
        let before = mapped_segments(memory, positions.drop_last(), link_address);
        if maps_segment(memory, positions.last()) {
            before.push(segment_at(memory, positions.last(), link_address))
        } else {
            before
        }
    }
}

/// The UUID in the last of the commands at some positions that holds one.
pub open spec fn last_uuid(memory: Seq<u8>, positions: Seq<int>) -> Option<Seq<u8>>
    decreases positions.len(),
{
    if positions.len() == 0 {
        None
    } else {
        let at = positions.last();
        let command = load_command_at(memory, at);
        if command.cmd == LC_UUID {
            Some(memory.subrange(at + LOAD_COMMAND_SIZE, at + command.cmdsize))
        } else {
            last_uuid(memory, positions.drop_last())
        }
    }
}

/// Whether the command at a position can be read: one with a UUID is not smaller than its start,
/// and one that maps a segment lies in memory as a whole, with numbers that are addresses.
pub open spec fn readable_command(memory: Seq<u8>, at: int) -> bool {
    let command = load_command_at(memory, at);
    &&& command.cmd == LC_UUID ==> command.cmdsize >= LOAD_COMMAND_SIZE
    &&& maps_segment(memory, at) ==> {
        &&& at + SEGMENT_COMMAND_SIZE <= memory.len()
        &&& segment_vmaddr(memory, at) <= usize::MAX
        &&& double_word(memory, at + 32, ORDER) <= usize::MAX
    }
}

/// Whether the header of an object and its commands are in memory, and can be read.
pub open spec fn readable(memory: Seq<u8>) -> bool {
    &&& memory.len() >= MACH_HEADER_SIZE
    &&& memory.len() >= end_of_commands(memory)
    &&& forall|i: int|
        0 <= i < all_commands(memory).len() ==> readable_command(
            memory,
            #[trigger] all_commands(memory)[i],
        )
}

/// A signed number with the bits of an unsigned one.
pub open spec fn signed(number: int) -> int {
    if number < 0x8000_0000 {
        number
    } else {
        number - 0x1_0000_0000
    }
}

/// Reads a [`segment_command64`].
pub fn read_segment_command(memory: &[u8], at: usize) -> (command: segment_command64)
    requires
        at + SEGMENT_COMMAND_SIZE <= memory@.len(),
    ensures
        command.cmd == word(memory@, at as int, ORDER),
        command.cmdsize == word(memory@, at + 4, ORDER),
        command.segname@ == memory@.subrange(at + 8, at + 24),
        command.vmaddr == double_word(memory@, at + 24, ORDER),
        command.vmsize == double_word(memory@, at + 32, ORDER),
        command.fileoff == double_word(memory@, at + 40, ORDER),
        command.filesize == double_word(memory@, at + 48, ORDER),
        command.maxprot == signed(word(memory@, at + 56, ORDER)),
        command.initprot == signed(word(memory@, at + 60, ORDER)),
        command.nsects == word(memory@, at + 64, ORDER),
        command.flags == word(memory@, at + 68, ORDER),
{
    assert(at + SEGMENT_COMMAND_SIZE <= memory.len());
    let command = segment_command64 {
        cmd: read_word(memory, at, ORDER),
        cmdsize: read_word(memory, at + 4, ORDER),
        segname: [
            memory[at + 8],
            memory[at + 9],
            memory[at + 10],
            memory[at + 11],
            memory[at + 12],
            memory[at + 13],
            memory[at + 14],
            memory[at + 15],
            memory[at + 16],
            memory[at + 17],
            memory[at + 18],
            memory[at + 19],
            memory[at + 20],
            memory[at + 21],
            memory[at + 22],
            memory[at + 23],
        ],
        vmaddr: read_double_word(memory, at + 24, ORDER),
        vmsize: read_double_word(memory, at + 32, ORDER),
        fileoff: read_double_word(memory, at + 40, ORDER),
        filesize: read_double_word(memory, at + 48, ORDER),
        maxprot: i32::reinterpret_cast(read_word(memory, at + 56, ORDER)),
        initprot: i32::reinterpret_cast(read_word(memory, at + 60, ORDER)),
        nsects: read_word(memory, at + 64, ORDER),
        flags: read_word(memory, at + 68, ORDER),
    };
    assert(command.segname@ =~= memory@.subrange(at + 8, at + 24));
    command
}

/// As long as no command was left out, each has a position. Behind one that was left out there is
/// none.
proof fn lemma_commands(memory: Seq<u8>, few: nat, many: nat)
    requires
        few <= many,
    ensures
        commands(memory, few).len() <= few,
        commands(memory, few).len() < few ==> commands(memory, many) == commands(memory, few),
        commands(memory, few) == commands(memory, many).take(commands(memory, few).len() as int),
        commands(memory, few).len() <= commands(memory, many).len(),
    decreases many,
{
    if few < many {
        lemma_commands(memory, few, (many - 1) as nat);
        let before = commands(memory, (many - 1) as nat);
        let count = commands(memory, few).len() as int;
        assert(commands(memory, many).take(count) =~= before.take(count));
        lemma_commands(memory, (many - 1) as nat, (many - 1) as nat);
    } else {
        if many > 0 {
            lemma_commands(memory, (many - 1) as nat, (many - 1) as nat);
        }
        assert(commands(memory, many).take(commands(memory, many).len() as int) =~= commands(
            memory,
            many,
        ));
    }
}

/// Every command starts behind the header, and lies among the commands.
pub proof fn law_commands_are_in_bounds(memory: Seq<u8>, count: nat, index: int)
    requires
        0 <= index < commands(memory, count).len(),
    ensures
        commands(memory, count)[index] >= MACH_HEADER_SIZE,
        commands(memory, count)[index] + LOAD_COMMAND_SIZE <= end_of_commands(memory),
        commands(memory, count)[index] + load_command_at(
            memory,
            commands(memory, count)[index],
        ).cmdsize <= end_of_commands(memory),
    decreases count,
{
    if count > 0 {
        let before = commands(memory, (count - 1) as nat);
        if index < before.len() {
            law_commands_are_in_bounds(memory, (count - 1) as nat, index);
        } else if before.len() > 0 {
            law_commands_are_in_bounds(memory, (count - 1) as nat, before.len() - 1);
        }
    }
}

/// Reads the start of the command at a position, unless the command reaches beyond the end.
fn command_at(memory: &[u8], at: usize, end: usize) -> (command: Option<load_command>)
    requires
        at <= end <= memory@.len(),
    ensures
        match command {
            Some(command) => {
                &&& command == load_command_at(memory@, at as int)
                &&& at + LOAD_COMMAND_SIZE <= end
                &&& at + command.cmdsize <= end
            },
            None => at + LOAD_COMMAND_SIZE > end || at + load_command_at(
                memory@,
                at as int,
            ).cmdsize > end,
        },
{
    if end - at < LOAD_COMMAND_SIZE {
        return None;
    }
    let command = read_load_command(memory, at);
    if (command.cmdsize as usize) > end - at {
        return None;
    }
    Some(command)
}

/// Tells whether a command that maps a segment maps the one that holds the header.
fn check_header(segment: &segment_command64) -> (result: bool)
    ensures
        result == ((segment.fileoff == 0 && segment.filesize > 0) || segment.segname@.take(7)
            == text_segment_name()),
{
    let name: [u8; 16] = segment.segname;
    let text: bool = name[0] == 0x5f && name[1] == 0x5f && name[2] == 0x54 && name[3] == 0x45
        && name[4] == 0x58 && name[5] == 0x54 && name[6] == 0;
    let ghost front = name@.take(7);
    assert(front[0] == name@[0] && front[1] == name@[1] && front[2] == name@[2] && front[3]
        == name@[3] && front[4] == name@[4] && front[5] == name@[5] && front[6] == name@[6]);
    assert(text ==> front =~= text_segment_name());
    (segment.fileoff == 0 && segment.filesize > 0) || text
}

/// Behind the first command that maps the header, no other one takes its place.
proof fn lemma_header_command(memory: Seq<u8>, positions: Seq<int>, count: int)
    requires
        0 <= count <= positions.len(),
        header_command(memory, positions.take(count)) is Some,
    ensures
        header_command(memory, positions) == header_command(memory, positions.take(count)),
    decreases positions.len(),
{
    if count < positions.len() {
        assert(positions.drop_last().take(count) =~= positions.take(count));
        lemma_header_command(memory, positions.drop_last(), count);
    } else {
        assert(positions.take(count) =~= positions);
    }
}

/// Finds the address at which an object asks for its header.
fn find_link_address(memory: &[u8]) -> (link: usize)
    requires
        readable(memory@),
    ensures
        link == link_address(memory@, all_commands(memory@)),
{
    let header = read_mach_header(memory);
    let ghost all = all_commands(memory@);
    assert(end_of_commands(memory@) <= memory.len());
    let end: usize = MACH_HEADER_SIZE + header.sizeofcmds as usize;
    let mut at: usize = MACH_HEADER_SIZE;
    let mut i: u32 = 0;
    assert(all.take(0) =~= Seq::empty());
    assert(header.ncmds == 0 ==> all =~= Seq::empty());
    while i < header.ncmds
        invariant_except_break
            i <= header.ncmds,
            i == commands(memory@, i as nat).len(),
            i <= all.len(),
            at == next_command(memory@, commands(memory@, i as nat)),
            at <= end,
            header_command(memory@, all.take(i as int)) is None,
            i == header.ncmds ==> all.take(i as int) == all,
        invariant
            header == mach_header(memory@),
            readable(memory@),
            all == all_commands(memory@),
            end == end_of_commands(memory@),
            end <= memory@.len(),
        ensures
            header_command(memory@, all) is None,
        decreases header.ncmds - i,
    {
        proof {
            lemma_commands(memory@, i as nat, header.ncmds as nat);
            lemma_commands(memory@, (i + 1) as nat, header.ncmds as nat);
        }
        let command = match command_at(memory, at, end) {
            Some(command) => command,
            None => {
                assert(all.take(i as int) =~= all);
                break ;
            },
        };
        assert(commands(memory@, (i + 1) as nat)[i as int] == at);
        assert(all[i as int] == at);
        assert(all.take(i + 1).drop_last() =~= all.take(i as int));
        assert(readable_command(memory@, all[i as int]));
        if command.cmd == LC_SEGMENT_64 {
            let segment = read_segment_command(memory, at);
            assert(segment.segname@.take(7) =~= memory@.subrange(at + 8, at + 15));
            if check_header(&segment) {
                proof {
                    lemma_header_command(memory@, all, i + 1);
                }
                return usize::cast_from(segment.vmaddr);
            }
        }
        at += command.cmdsize as usize;
        i += 1;
        proof {
            if i == header.ncmds {
                lemma_commands(memory@, i as nat, i as nat);
                assert(all.take(i as int) =~= all);
            }
        }
    }
    0
}

/// Describes the object whose header and commands are at the start of some memory. The path is
/// the string to which the image's pointer leads, and counts only if that is not null.
pub fn get_shared_object(
    image: &dyld_image_info64,
    path: Vec<u8>,
    memory: &[u8],
) -> (object: SharedObject)
    requires
        image.load_address <= usize::MAX,
        readable(memory@),
    ensures
        object@ == (SharedObjectView {
            base_address: image.load_address as usize,
            path_name: if image.file_path != 0 {
                path@
            } else {
                Seq::empty()
            },
            build_id: last_uuid(memory@, all_commands(memory@)),
            loaded_segments: mapped_segments(
                memory@,
                all_commands(memory@),
                link_address(memory@, all_commands(memory@)),
            ),
        }),
{
    let header = read_mach_header(memory);
    let path_name: Vec<u8> = if image.file_path != 0 {
        path
    } else {
        Vec::new()
    };
    assert(image.file_path == 0 ==> path_name@ =~= Seq::empty());
    assert(end_of_commands(memory@) <= memory.len());
    let end: usize = MACH_HEADER_SIZE + header.sizeofcmds as usize;
    let link: usize = find_link_address(memory);
    let mut cmd_address: usize = MACH_HEADER_SIZE;
    let mut loaded_segments: Vec<LoadedSegment> = Vec::new();
    let mut build_id: Option<BuildId> = None;
    let ghost mut walked: nat = 0;
    let mut i: u32 = 0;
    while i < header.ncmds
        invariant_except_break
            i <= header.ncmds,
            i == commands(memory@, i as nat).len(),
            cmd_address == next_command(memory@, commands(memory@, i as nat)),
            cmd_address <= end,
            walked == i,
        invariant
            header == mach_header(memory@),
            readable(memory@),
            end == end_of_commands(memory@),
            end <= memory@.len(),
            link == link_address(memory@, all_commands(memory@)),
            loaded_segments@ == mapped_segments(
                memory@,
                commands(memory@, walked),
                link as int,
            ),
            build_id_bytes(build_id) == last_uuid(memory@, commands(memory@, walked)),
        ensures
            commands(memory@, walked) == all_commands(memory@),
        decreases header.ncmds - i,
    {
        proof {
            lemma_commands(memory@, (i + 1) as nat, header.ncmds as nat);
        }
        let command = match command_at(memory, cmd_address, end) {
            Some(command) => command,
            None => {
                proof {
                    walked = (i + 1) as nat;
                }
                break ;
            },
        };
        let ghost positions = commands(memory@, (i + 1) as nat);
        assert(positions.last() == cmd_address);
        assert(positions.drop_last() =~= commands(memory@, i as nat));
        assert(positions[i as int] == all_commands(memory@)[i as int]);
        assert(readable_command(memory@, cmd_address as int));
        if command.cmd == LC_SEGMENT_64 {
            let segment = read_segment_command(memory, cmd_address);
            loaded_segments.push(
                LoadedSegment {
                    file_offset: segment.fileoff,
                    memory_offset: usize::cast_from(segment.vmaddr).wrapping_sub(link),
                    memory_size: usize::cast_from(segment.vmsize),
                },
            );
        } else if command.cmd == LC_UUID {
            let uuid: Vec<u8> = copy_part(
                memory,
                cmd_address + LOAD_COMMAND_SIZE,
                command.cmdsize as usize - LOAD_COMMAND_SIZE,
            );
            build_id = Some(BuildId(uuid));
        }
        cmd_address += command.cmdsize as usize;
        i += 1;
        proof {
            walked = i as nat;
        }
    }
    SharedObject {
        base_address: usize::cast_from(image.load_address),
        path_name,
        build_id,
        loaded_segments,
    }
}

/// The number of bytes behind the given memory that are read too: a command that maps a segment
/// is read as a whole, even if it is smaller.
pub fn missing_bytes(memory: &[u8]) -> (missing: usize)
    requires
        memory@.len() >= MACH_HEADER_SIZE,
        memory@.len() >= end_of_commands(memory@),
    ensures
        forall|i: int|
            0 <= i < all_commands(memory@).len() && maps_segment(
                memory@,
                #[trigger] all_commands(memory@)[i],
            ) ==> all_commands(memory@)[i] + SEGMENT_COMMAND_SIZE <= memory@.len() + missing,
        missing > 0 ==> exists|i: int|
            0 <= i < all_commands(memory@).len() && maps_segment(
                memory@,
                #[trigger] all_commands(memory@)[i],
            ) && all_commands(memory@)[i] + SEGMENT_COMMAND_SIZE == memory@.len() + missing,
{
    let header = read_mach_header(memory);
    let ghost all = all_commands(memory@);
    assert(end_of_commands(memory@) <= memory.len());
    let end: usize = MACH_HEADER_SIZE + header.sizeofcmds as usize;
    let mut missing: usize = 0;
    let mut at: usize = MACH_HEADER_SIZE;
    let mut i: u32 = 0;
    while i < header.ncmds
        invariant_except_break
            i <= header.ncmds,
            i == commands(memory@, i as nat).len(),
            i <= all.len(),
            at == next_command(memory@, commands(memory@, i as nat)),
            at <= end,
            forall|j: int|
                0 <= j < i && maps_segment(memory@, #[trigger] all[j]) ==> all[j]
                    + SEGMENT_COMMAND_SIZE <= memory@.len() + missing,
        invariant
            header == mach_header(memory@),
            all == all_commands(memory@),
            end == end_of_commands(memory@),
            end <= memory@.len(),
            missing > 0 ==> exists|j: int|
                0 <= j < all.len() && maps_segment(memory@, #[trigger] all[j]) && all[j]
                    + SEGMENT_COMMAND_SIZE == memory@.len() + missing,
        ensures
            forall|j: int|
                0 <= j < all.len() && maps_segment(memory@, #[trigger] all[j]) ==> all[j]
                    + SEGMENT_COMMAND_SIZE <= memory@.len() + missing,
        decreases header.ncmds - i,
    {
        proof {
            lemma_commands(memory@, i as nat, header.ncmds as nat);
            lemma_commands(memory@, (i + 1) as nat, header.ncmds as nat);
        }
        let command = match command_at(memory, at, end) {
            Some(command) => command,
            None => {
                break ;
            },
        };
        assert(commands(memory@, (i + 1) as nat)[i as int] == at);
        assert(all[i as int] == at);
        if command.cmd == LC_SEGMENT_64 && memory.len() - at < SEGMENT_COMMAND_SIZE {
            let beyond: usize = SEGMENT_COMMAND_SIZE - (memory.len() - at);
            if beyond > missing {
                missing = beyond;
                assert(maps_segment(memory@, all[i as int]));
            }
        }
        at += command.cmdsize as usize;
        i += 1;
    }
    missing
}

/// Tells whether the header of an object and its commands can be read.
pub fn check_commands(memory: &[u8]) -> (result: bool)
    ensures
        result == readable(memory@),
{
    if memory.len() < MACH_HEADER_SIZE {
        return false;
    }
    let header = read_mach_header(memory);
    if memory.len() - MACH_HEADER_SIZE < header.sizeofcmds as usize {
        return false;
    }
    let ghost all = all_commands(memory@);
    assert(end_of_commands(memory@) <= memory.len());
    let end: usize = MACH_HEADER_SIZE + header.sizeofcmds as usize;
    let mut at: usize = MACH_HEADER_SIZE;
    let mut i: u32 = 0;
    while i < header.ncmds
        invariant_except_break
            i <= header.ncmds,
            i == commands(memory@, i as nat).len(),
            i <= all.len(),
            at == next_command(memory@, commands(memory@, i as nat)),
            at <= end,
            forall|j: int| 0 <= j < i ==> readable_command(memory@, #[trigger] all[j]),
        invariant
            header == mach_header(memory@),
            all == all_commands(memory@),
            end == end_of_commands(memory@),
            end <= memory@.len(),
        ensures
            forall|j: int| 0 <= j < all.len() ==> readable_command(memory@, #[trigger] all[j]),
        decreases header.ncmds - i,
    {
        proof {
            lemma_commands(memory@, i as nat, header.ncmds as nat);
            lemma_commands(memory@, (i + 1) as nat, header.ncmds as nat);
        }
        let command = match command_at(memory, at, end) {
            Some(command) => command,
            None => {
                break ;
            },
        };
        assert(commands(memory@, (i + 1) as nat)[i as int] == at);
        assert(all[i as int] == at);
        if command.cmd == LC_UUID && (command.cmdsize as usize) < LOAD_COMMAND_SIZE {
            return false;
        }
        if command.cmd == LC_SEGMENT_64 {
            if memory.len() - at < SEGMENT_COMMAND_SIZE {
                return false;
            }
            let segment = read_segment_command(memory, at);
            if segment.vmaddr > usize::MAX as u64 || segment.vmsize > usize::MAX as u64 {
                return false;
            }
        }
        at += command.cmdsize as usize;
        i += 1;
    }
    true
}

/// What lies behind the commands does not change them.
pub proof fn law_commands_stay(memory: Seq<u8>, more: Seq<u8>, count: nat)
    requires
        memory.len() >= MACH_HEADER_SIZE,
        memory.len() >= end_of_commands(memory),
    ensures
        mach_header(memory + more) == mach_header(memory),
        commands(memory + more, count) == commands(memory, count),
    decreases count,
{
    if count > 0 {
        law_commands_stay(memory, more, (count - 1) as nat);
        let before = commands(memory, (count - 1) as nat);
        if before.len() > 0 {
            law_commands_are_in_bounds(memory, (count - 1) as nat, before.len() - 1);
        }
    }
}

/// Tells whether a command reaches beyond the others' end, so that it and those behind it are left
/// out.
pub fn overruns(memory: &[u8]) -> (result: bool)
    requires
        memory@.len() >= MACH_HEADER_SIZE,
        memory@.len() >= end_of_commands(memory@),
    ensures
        result == (all_commands(memory@).len() < mach_header(memory@).ncmds),
{
    let header = read_mach_header(memory);
    assert(end_of_commands(memory@) <= memory.len());
    let end: usize = MACH_HEADER_SIZE + header.sizeofcmds as usize;
    let mut at: usize = MACH_HEADER_SIZE;
    let mut i: u32 = 0;
    while i < header.ncmds
        invariant
            i <= header.ncmds,
            i == commands(memory@, i as nat).len(),
            at == next_command(memory@, commands(memory@, i as nat)),
            at <= end,
            header == mach_header(memory@),
            end == end_of_commands(memory@),
            end <= memory@.len(),
        decreases header.ncmds - i,
    {
        proof {
            lemma_commands(memory@, (i + 1) as nat, header.ncmds as nat);
        }
        match command_at(memory, at, end) {
            Some(command) => {
                at += command.cmdsize as usize;
            },
            None => {
                return true;
            },
        }
        i += 1;
    }
    false
}

/// The command that maps the header is one of the commands, and maps a segment.
proof fn lemma_header_command_is_one(memory: Seq<u8>, positions: Seq<int>)
    ensures
        header_command(memory, positions) matches Some(at) ==> positions.contains(at)
            && maps_header(memory, at),
    decreases positions.len(),
{
    if positions.len() > 0 {
        let before = positions.drop_last();
        lemma_header_command_is_one(memory, before);
        match header_command(memory, before) {
            Some(at) => {
                let i = choose|i: int| 0 <= i < before.len() && before[i] == at;
                assert(positions[i] == at);
            },
            None => {
                assert(positions[positions.len() - 1] == positions.last());
            },
        }
    }
}

/// A command that maps a segment gives one of the loaded segments.
proof fn lemma_segment_is_mapped(memory: Seq<u8>, positions: Seq<int>, link: int, index: int)
    requires
        0 <= index < positions.len(),
        maps_segment(memory, positions[index]),
    ensures
        mapped_segments(memory, positions, link).contains(
            segment_at(memory, positions[index], link),
        ),
    decreases positions.len(),
{
    let before = mapped_segments(memory, positions.drop_last(), link);
    let all = mapped_segments(memory, positions, link);
    let segment = segment_at(memory, positions[index], link);
    if index < positions.len() - 1 {
        lemma_segment_is_mapped(memory, positions.drop_last(), link, index);
        let i = choose|i: int| 0 <= i < before.len() && before[i] == segment;
        assert(all[i] == segment);
    } else {
        assert(all[before.len() as int] == segment);
    }
}

/// The segment that holds the header lies at the address at which the object is loaded.
pub proof fn law_header_is_at_the_load_address(memory: Seq<u8>, base_address: usize)
    requires
        readable(memory),
        header_command(memory, all_commands(memory)) is Some,
    ensures
        ({
            let positions = all_commands(memory);
            let link = link_address(memory, positions);
            let segment = segment_at(memory, header_command(memory, positions)->0, link);
            &&& mapped_segments(memory, positions, link).contains(segment)
            &&& segment.memory_offset == 0
            &&& address_at(base_address, segment.memory_offset) == base_address
        }),
{
    let positions = all_commands(memory);
    lemma_header_command_is_one(memory, positions);
    let at = header_command(memory, positions)->0;
    let index = choose|index: int| 0 <= index < positions.len() && positions[index] == at;
    lemma_segment_is_mapped(memory, positions, link_address(memory, positions), index);
}

/// Every segment lies as far from the address at which the object is loaded as the address for
/// which it asks lies from the link address, modulo the number of addresses.
pub proof fn law_segments_are_slid_alike(memory: Seq<u8>, base_address: usize, index: int)
    requires
        readable(memory),
        0 <= index < all_commands(memory).len(),
        maps_segment(memory, all_commands(memory)[index]),
    ensures
        ({
            let positions = all_commands(memory);
            let link = link_address(memory, positions);
            let segment = segment_at(memory, positions[index], link);
            let start = address_at(base_address, segment.memory_offset);
            let distance = (start - base_address) - (segment_vmaddr(memory, positions[index])
                - link);
            &&& mapped_segments(memory, positions, link).contains(segment)
            &&& address_at(link as usize, segment.memory_offset) == segment_vmaddr(
                memory,
                positions[index],
            )
            &&& distance == 0 || distance == usize::MAX + 1 || distance == -(usize::MAX + 1)
        }),
{
    let positions = all_commands(memory);
    let link = link_address(memory, positions);
    let at = positions[index];
    lemma_segment_is_mapped(memory, positions, link, index);
    lemma_header_command_is_one(memory, positions);
    assert(readable_command(memory, at));
    if let Some(header) = header_command(memory, positions) {
        let i = choose|i: int| 0 <= i < positions.len() && positions[i] == header;
        assert(readable_command(memory, positions[i]));
        law_commands_are_in_bounds(memory, mach_header(memory).ncmds as nat, i);
    }
    law_commands_are_in_bounds(memory, mach_header(memory).ncmds as nat, index);
    law_offsets_lead_to_their_address(link as usize, segment_vmaddr(memory, at) as usize);
}

} // verus!
