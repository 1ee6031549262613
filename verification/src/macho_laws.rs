//! What holds of the commands of every object.

use vstd::prelude::*;

use crate::bytes::{double_word, word, ByteOrder};
use crate::elf_laws::{law_words_are_read_back, word_bytes};
use crate::macho::{
    all_commands, all_image_infos, commands, dyld_all_image_infos64, dyld_image_info64,
    end_of_commands, header_command, image_info_at, last_uuid, link_address, load_command_at,
    mach_header, mach_header64, mapped_segments, maps_header, maps_segment, next_command, readable,
    readable_command, segment_vmaddr, ALL_IMAGE_INFOS_SIZE, IMAGE_INFO_SIZE, LOAD_COMMAND_SIZE,
    MACH_HEADER_SIZE, ORDER,
};
use crate::mappings::LoadedSegment;

verus! {

/// Whether some bytes are a command, with its size in it.
pub open spec fn is_command(bytes: Seq<u8>) -> bool {
    bytes.len() >= LOAD_COMMAND_SIZE && word(bytes, 4, ORDER) == bytes.len()
}

/// Some commands, one after the other.
pub open spec fn joined(parts: Seq<Seq<u8>>) -> Seq<u8>
    decreases parts.len(),
{
    if parts.len() == 0 {
        Seq::empty()
    } else {
        joined(parts.drop_last()) + parts.last()
    }
}

/// Two lists of commands make one.
proof fn lemma_joined(left: Seq<Seq<u8>>, right: Seq<Seq<u8>>)
    ensures
        joined(left + right) == joined(left) + joined(right),
    decreases right.len(),
{
    if right.len() == 0 {
        assert(left + right =~= left);
        assert(joined(left) + joined(right) =~= joined(left));
    } else {
        assert((left + right).drop_last() =~= left + right.drop_last());
        lemma_joined(left, right.drop_last());
        assert(joined(left) + (joined(right.drop_last()) + right.last()) =~= (joined(left)
            + joined(right.drop_last())) + right.last());
    }
}

/// A command lies behind those before it.
proof fn lemma_part(header: Seq<u8>, parts: Seq<Seq<u8>>, after: Seq<u8>, index: int)
    requires
        0 <= index < parts.len(),
    ensures
        ({
            let memory = header + joined(parts) + after;
            let at = header.len() + joined(parts.take(index)).len();
            &&& at + parts[index].len() <= header.len() + joined(parts).len()
            &&& memory.subrange(at as int, (at + parts[index].len()) as int) == parts[index]
            &&& joined(parts.take(index + 1)) == joined(parts.take(index)) + parts[index]
        }),
{
    let memory = header + joined(parts) + after;
    let before = joined(parts.take(index));
    let at = (header.len() + before.len()) as int;
    assert(parts.take(index + 1).drop_last() =~= parts.take(index));
    assert(parts =~= parts.take(index + 1) + parts.skip(index + 1));
    lemma_joined(parts.take(index + 1), parts.skip(index + 1));
    assert(memory.subrange(at, at + parts[index].len()) =~= parts[index]);
}

/// The first commands are found where they are.
proof fn lemma_commands_are_found(
    header: Seq<u8>,
    parts: Seq<Seq<u8>>,
    after: Seq<u8>,
    count: nat,
)
    requires
        header.len() == MACH_HEADER_SIZE,
        mach_header(header).sizeofcmds >= joined(parts).len(),
        count <= parts.len(),
        forall|i: int| 0 <= i < parts.len() ==> is_command(#[trigger] parts[i]),
    ensures
        ({
            let memory = header + joined(parts) + after;
            &&& commands(memory, count).len() == count
            &&& next_command(memory, commands(memory, count)) == MACH_HEADER_SIZE + joined(
                parts.take(count as int),
            ).len()
            &&& forall|i: int|
                0 <= i < count ==> #[trigger] commands(memory, count)[i] == MACH_HEADER_SIZE
                    + joined(parts.take(i)).len()
        }),
    decreases count,
{
    let memory = header + joined(parts) + after;
    assert(mach_header(memory) == mach_header(header));
    if count > 0 {
        let index = count - 1;
        let at = MACH_HEADER_SIZE + joined(parts.take(index)).len();
        lemma_commands_are_found(header, parts, after, index as nat);
        lemma_part(header, parts, after, index);
        let part = memory.subrange(at, at + parts[index].len());
        assert(is_command(parts[index]));
        assert(part[4] == memory[at + 4]);
        assert(part[5] == memory[at + 5]);
        assert(part[6] == memory[at + 6]);
        assert(part[7] == memory[at + 7]);
        assert(load_command_at(memory, at).cmdsize == parts[index].len());
        assert(commands(memory, count) == commands(memory, index as nat).push(at));
    } else {
        assert(parts.take(0) =~= Seq::empty());
    }
}

/// The commands of an object whose header tells their number and their size are all found, where
/// they are.
pub proof fn law_commands_are_found(
    header: Seq<u8>,
    parts: Seq<Seq<u8>>,
    after: Seq<u8>,
    index: int,
)
    requires
        header.len() == MACH_HEADER_SIZE,
        mach_header(header).ncmds == parts.len(),
        mach_header(header).sizeofcmds == joined(parts).len(),
        forall|i: int| 0 <= i < parts.len() ==> is_command(#[trigger] parts[i]),
        0 <= index < parts.len(),
    ensures
        ({
            let memory = header + joined(parts) + after;
            let at = all_commands(memory)[index];
            &&& all_commands(memory).len() == parts.len()
            &&& at >= MACH_HEADER_SIZE
            &&& at + parts[index].len() <= end_of_commands(memory)
            &&& memory.subrange(at, at + parts[index].len()) == parts[index]
        }),
{
    let memory = header + joined(parts) + after;
    assert(mach_header(memory) == mach_header(header));
    lemma_commands_are_found(header, parts, after, parts.len());
    lemma_part(header, parts, after, index);
}

/// The bytes of a 32-bit number.
pub open spec fn small(number: u32) -> Seq<u8> {
    word_bytes(number as int, ByteOrder::Little)
}

/// The bytes of a 64-bit number: those of its lower half, then those of its upper half.
pub open spec fn large(number: u64) -> Seq<u8> {
    small((number % 0x1_0000_0000) as u32) + small((number / 0x1_0000_0000) as u32)
}

/// The sizes of numbers.
proof fn lemma_sizes(number: u32, other: u64)
    ensures
        small(number).len() == 4,
        large(other).len() == 8,
{
    reveal(word_bytes);
}

/// Numbers are read back, wherever they are.
pub proof fn law_numbers_are_read_back(memory: Seq<u8>, at: int, number: u32, other: u64)
    requires
        0 <= at,
    ensures
        at + 4 <= memory.len() && memory.subrange(at, at + 4) == small(number) ==> word(
            memory,
            at,
            ORDER,
        ) == number,
        at + 8 <= memory.len() && memory.subrange(at, at + 8) == large(other) ==> double_word(
            memory,
            at,
            ORDER,
        ) == other,
{
    lemma_sizes(number, other);
    if at + 4 <= memory.len() && memory.subrange(at, at + 4) == small(number) {
        law_words_are_read_back(memory, at, number as int, ByteOrder::Little);
    }
    if at + 8 <= memory.len() && memory.subrange(at, at + 8) == large(other) {
        let low = (other % 0x1_0000_0000) as u32;
        let high = (other / 0x1_0000_0000) as u32;
        lemma_sizes(low, other);
        lemma_sizes(high, other);
        assert(memory.subrange(at, at + 4) =~= memory.subrange(at, at + 8).take(4));
        assert(memory.subrange(at + 4, at + 8) =~= memory.subrange(at, at + 8).skip(4));
        assert(large(other).take(4) =~= small(low));
        assert(large(other).skip(4) =~= small(high));
        law_words_are_read_back(memory, at, low as int, ByteOrder::Little);
        law_words_are_read_back(memory, at + 4, high as int, ByteOrder::Little);
    }
}

/// A command.
pub enum Command {
    /// It maps a segment. What follows the sizes does not matter.
    Segment { name: Seq<u8>, vmaddr: u64, vmsize: u64, fileoff: u64, filesize: u64, rest: Seq<u8> },
    /// It holds the UUID.
    Uuid(Seq<u8>),
    /// It does something else.
    Other { cmd: u32, body: Seq<u8> },
}

impl Command {
    /// Whether the parts have the sizes that they must have.
    pub open spec fn wf(self) -> bool {
        &&& self.bytes().len() <= u32::MAX
        &&& match self {
            Command::Segment { name, rest, .. } => name.len() == 16 && rest.len() >= 16,
            Command::Uuid(_) => true,
            Command::Other { cmd, .. } => cmd != 0x19 && cmd != 0x1b,
        }
    }

    /// The number of the command.
    pub open spec fn cmd(self) -> u32 {
        match self {
            Command::Segment { .. } => 0x19,
            Command::Uuid(_) => 0x1b,
            Command::Other { cmd, .. } => cmd,
        }
    }

    /// What follows the start of the command.
    pub open spec fn body(self) -> Seq<u8> {
        match self {
            Command::Segment { name, vmaddr, vmsize, fileoff, filesize, rest } => name + large(
                vmaddr,
            ) + large(vmsize) + large(fileoff) + large(filesize) + rest,
            Command::Uuid(uuid) => uuid,
            Command::Other { body, .. } => body,
        }
    }

    /// The bytes of the command.
    pub open spec fn bytes(self) -> Seq<u8> {
        small(self.cmd()) + small((8 + self.body().len()) as u32) + self.body()
    }

    /// Whether the command maps the segment that holds the header: the start of the file, or what
    /// is named so.
    pub open spec fn holds_header(self) -> bool {
        match self {
            Command::Segment { name, fileoff, filesize, .. } => {
                ||| fileoff == 0 && filesize > 0
                ||| name.take(7) == seq![0x5fu8, 0x5f, 0x54, 0x45, 0x58, 0x54, 0]
            },
            _ => false,
        }
    }

    /// Whether the numbers of the command are addresses.
    pub open spec fn fits(self) -> bool {
        match self {
            Command::Segment { vmaddr, vmsize, .. } => vmaddr <= usize::MAX && vmsize <= usize::MAX,
            _ => true,
        }
    }
}

/// The address that is asked for in the first command that maps the header, or zero.
pub open spec fn asked_address(list: Seq<Command>) -> int
    decreases list.len(),
{
    if list.len() == 0 {
        0
    } else {
        match list.first() {
            Command::Segment { vmaddr, .. } if list.first().holds_header() => vmaddr as int,
            _ => asked_address(list.drop_first()),
        }
    }
}

/// Whether some loaded segments are those that some commands map: in their order, with their file
/// offset and their size, and with their distance to the given address, which wraps around.
pub open spec fn are_segments(
    segments: Seq<LoadedSegment>,
    list: Seq<Command>,
    address: int,
) -> bool
    decreases list.len(),
{
    if list.len() == 0 {
        segments.len() == 0
    } else {
        match list.last() {
            Command::Segment { vmaddr, vmsize, fileoff, .. } => {
                &&& segments.len() > 0
                &&& segments.last().file_offset == fileoff
                &&& segments.last().memory_size == vmsize
                &&& segments.last().memory_offset == vmaddr - address
                    || segments.last().memory_offset == vmaddr - address + usize::MAX + 1
                &&& are_segments(segments.drop_last(), list.drop_last(), address)
            },
            _ => are_segments(segments, list.drop_last(), address),
        }
    }
}

/// The UUID in the last command that holds one.
pub open spec fn held_uuid(list: Seq<Command>) -> Option<Seq<u8>>
    decreases list.len(),
{
    if list.len() == 0 {
        None
    } else {
        match list.last() {
            Command::Uuid(uuid) => Some(uuid),
            _ => held_uuid(list.drop_last()),
        }
    }
}

/// Whether the bytes of a command are at a position.
pub open spec fn stands_at(memory: Seq<u8>, at: int, command: Command) -> bool {
    &&& 0 <= at
    &&& at + command.bytes().len() <= memory.len()
    &&& memory.subrange(at, at + command.bytes().len()) == command.bytes()
}

/// A part of the bytes of a command is where it is expected.
proof fn lemma_part_of_command(
    memory: Seq<u8>,
    at: int,
    command: Command,
    from: int,
    part: Seq<u8>,
)
    requires
        stands_at(memory, at, command),
        0 <= from,
        from + part.len() <= command.bytes().len(),
        command.bytes().subrange(from, from + part.len()) == part,
    ensures
        memory.subrange(at + from, at + from + part.len()) == part,
{
    assert(memory.subrange(at + from, at + from + part.len()) =~= memory.subrange(
        at,
        at + command.bytes().len(),
    ).subrange(from, from + part.len()));
}

/// The parts of a segment's command.
proof fn lemma_segment_parts(
    name: Seq<u8>,
    vmaddr: u64,
    vmsize: u64,
    fileoff: u64,
    filesize: u64,
    rest: Seq<u8>,
)
    requires
        name.len() == 16,
    ensures
        ({
            let bytes = Command::Segment {
                name,
                vmaddr,
                vmsize,
                fileoff,
                filesize,
                rest,
            }.bytes();
            &&& bytes.len() == 56 + rest.len()
            &&& bytes.subrange(8, 15) == name.take(7)
            &&& bytes.subrange(24, 32) == large(vmaddr)
            &&& bytes.subrange(32, 40) == large(vmsize)
            &&& bytes.subrange(40, 48) == large(fileoff)
            &&& bytes.subrange(48, 56) == large(filesize)
        }),
{
    let command = Command::Segment { name, vmaddr, vmsize, fileoff, filesize, rest };
    let bytes = command.bytes();
    lemma_sizes(command.cmd(), vmaddr);
    lemma_sizes((8 + command.body().len()) as u32, vmsize);
    lemma_sizes(0, fileoff);
    lemma_sizes(0, filesize);
    assert(bytes.subrange(8, 15) =~= name.take(7));
    assert(bytes.subrange(24, 32) =~= large(vmaddr));
    assert(bytes.subrange(32, 40) =~= large(vmsize));
    assert(bytes.subrange(40, 48) =~= large(fileoff));
    assert(bytes.subrange(48, 56) =~= large(filesize));
}

/// What is read of a command.
proof fn lemma_command(memory: Seq<u8>, at: int, command: Command)
    requires
        command.wf(),
        stands_at(memory, at, command),
    ensures
        load_command_at(memory, at).cmd == command.cmd(),
        load_command_at(memory, at).cmdsize == command.bytes().len(),
        is_command(command.bytes()),
        maps_segment(memory, at) == (command is Segment),
        maps_header(memory, at) == command.holds_header(),
        readable_command(memory, at) == command.fits(),
        command matches Command::Uuid(uuid) ==> memory.subrange(
            at + 8,
            at + command.bytes().len(),
        ) == uuid,
        command matches Command::Segment { vmaddr, vmsize, fileoff, .. } ==> {
            &&& segment_vmaddr(memory, at) == vmaddr
            &&& double_word(memory, at + 32, ORDER) == vmsize
            &&& double_word(memory, at + 40, ORDER) == fileoff
        },
{
    let bytes = command.bytes();
    let size = (8 + command.body().len()) as u32;
    lemma_sizes(command.cmd(), 0);
    lemma_sizes(size, 0);
    assert(bytes.len() == 8 + command.body().len());
    assert(bytes.subrange(0, 4) =~= small(command.cmd()));
    assert(bytes.subrange(4, 8) =~= small(size));
    lemma_part_of_command(memory, at, command, 0, small(command.cmd()));
    lemma_part_of_command(memory, at, command, 4, small(size));
    law_numbers_are_read_back(memory, at, command.cmd(), 0);
    law_numbers_are_read_back(memory, at + 4, size, 0);
    law_numbers_are_read_back(bytes, 4, size, 0);
    match command {
        Command::Segment { name, vmaddr, vmsize, fileoff, filesize, rest } => {
            lemma_segment_parts(name, vmaddr, vmsize, fileoff, filesize, rest);
            lemma_sizes(0, vmaddr);
            lemma_sizes(0, vmsize);
            lemma_sizes(0, fileoff);
            lemma_sizes(0, filesize);
            lemma_part_of_command(memory, at, command, 8, name.take(7));
            lemma_part_of_command(memory, at, command, 24, large(vmaddr));
            lemma_part_of_command(memory, at, command, 32, large(vmsize));
            lemma_part_of_command(memory, at, command, 40, large(fileoff));
            lemma_part_of_command(memory, at, command, 48, large(filesize));
            law_numbers_are_read_back(memory, at + 24, 0, vmaddr);
            law_numbers_are_read_back(memory, at + 32, 0, vmsize);
            law_numbers_are_read_back(memory, at + 40, 0, fileoff);
            law_numbers_are_read_back(memory, at + 48, 0, filesize);
        },
        Command::Uuid(uuid) => {
            assert(bytes.subrange(8, (8 + uuid.len()) as int) =~= uuid);
            lemma_part_of_command(memory, at, command, 8, uuid);
        },
        Command::Other { cmd, body } => {},
    }
}

/// Whether the bytes of some commands are at some positions.
pub open spec fn stand_at(memory: Seq<u8>, positions: Seq<int>, list: Seq<Command>) -> bool {
    &&& positions.len() == list.len()
    &&& forall|i: int|
        0 <= i < list.len() ==> (#[trigger] list[i]).wf() && stands_at(
            memory,
            positions[i],
            list[i],
        )
}

/// Without the last command, the others are still where they are.
proof fn lemma_stand_at(memory: Seq<u8>, positions: Seq<int>, list: Seq<Command>)
    requires
        stand_at(memory, positions, list),
        list.len() > 0,
    ensures
        stand_at(memory, positions.drop_last(), list.drop_last()),
        stands_at(memory, positions.last(), list.last()),
        list.last().wf(),
{
    assert(list[list.len() - 1] == list.last());
    assert forall|i: int| 0 <= i < list.drop_last().len() implies (
    #[trigger] list.drop_last()[i]).wf() && stands_at(
        memory,
        positions.drop_last()[i],
        list.drop_last()[i],
    ) by {
        assert(list.drop_last()[i] == list[i]);
    }
}

/// The last command that holds a UUID counts.
proof fn lemma_uuid(memory: Seq<u8>, positions: Seq<int>, list: Seq<Command>)
    requires
        stand_at(memory, positions, list),
    ensures
        last_uuid(memory, positions) == held_uuid(list),
    decreases list.len(),
{
    if list.len() > 0 {
        lemma_stand_at(memory, positions, list);
        lemma_command(memory, positions.last(), list.last());
        lemma_uuid(memory, positions.drop_last(), list.drop_last());
    }
}

/// Whether none of some commands maps the header.
pub open spec fn none_holds_header(list: Seq<Command>) -> bool {
    forall|i: int| 0 <= i < list.len() ==> !(#[trigger] list[i]).holds_header()
}

/// One more command that maps no header, or follows one that does, changes nothing.
proof fn lemma_asked_push(before: Seq<Command>, last: Command)
    ensures
        none_holds_header(before.push(last)) == (none_holds_header(before)
            && !last.holds_header()),
        !none_holds_header(before) ==> asked_address(before.push(last)) == asked_address(before),
        none_holds_header(before) ==> asked_address(before) == 0 && asked_address(
            before.push(last),
        ) == match last {
            Command::Segment { vmaddr, .. } if last.holds_header() => vmaddr as int,
            _ => 0,
        },
    decreases before.len(),
{
    let list = before.push(last);
    assert(list[before.len() as int] == last);
    assert(forall|i: int| 0 <= i < before.len() ==> #[trigger] before[i] == list[i]);
    assert(none_holds_header(list) ==> none_holds_header(before)) by {
        if none_holds_header(list) {
            assert forall|i: int| 0 <= i < before.len() implies !(
            #[trigger] before[i]).holds_header() by {
                assert(!list[i].holds_header());
            }
        }
    }
    if before.len() > 0 {
        let rest = before.drop_first();
        lemma_asked_push(rest, last);
        assert(list.drop_first() =~= rest.push(last));
        assert(list.first() == before.first());
        assert(before[0] == before.first());
        assert(forall|i: int| 0 <= i < rest.len() ==> #[trigger] rest[i] == before[i + 1]);
        assert(none_holds_header(before) ==> none_holds_header(rest)) by {
            if none_holds_header(before) {
                assert forall|i: int| 0 <= i < rest.len() implies !(
                #[trigger] rest[i]).holds_header() by {
                    assert(!before[i + 1].holds_header());
                }
            }
        }
        if !none_holds_header(before) && !before.first().holds_header() {
            let i = choose|i: int| 0 <= i < before.len() && (#[trigger] before[i]).holds_header();
            assert(rest[i - 1].holds_header());
        }
    } else {
        assert(list.drop_first() =~= Seq::empty());
        assert(list.first() == last);
        reveal_with_fuel(asked_address, 2);
    }
}

/// The first command that maps the header gives the address.
proof fn lemma_asked_address(memory: Seq<u8>, positions: Seq<int>, list: Seq<Command>)
    requires
        stand_at(memory, positions, list),
    ensures
        link_address(memory, positions) == asked_address(list),
        header_command(memory, positions) is None == none_holds_header(list),
    decreases list.len(),
{
    if list.len() > 0 {
        let before = list.drop_last();
        lemma_stand_at(memory, positions, list);
        lemma_command(memory, positions.last(), list.last());
        lemma_asked_address(memory, positions.drop_last(), before);
        lemma_asked_push(before, list.last());
        assert(before.push(list.last()) =~= list);
    }
}

/// The commands map their segments.
proof fn lemma_segments(memory: Seq<u8>, positions: Seq<int>, list: Seq<Command>, link: int)
    requires
        stand_at(memory, positions, list),
        forall|i: int| 0 <= i < list.len() ==> (#[trigger] list[i]).fits(),
        0 <= link <= usize::MAX,
    ensures
        are_segments(mapped_segments(memory, positions, link), list, link),
    decreases list.len(),
{
    if list.len() > 0 {
        let before = list.drop_last();
        lemma_stand_at(memory, positions, list);
        lemma_command(memory, positions.last(), list.last());
        assert(list[list.len() - 1] == list.last());
        assert forall|i: int| 0 <= i < before.len() implies (#[trigger] before[i]).fits() by {
            assert(before[i] == list[i]);
        }
        lemma_segments(memory, positions.drop_last(), before, link);
        let segments = mapped_segments(memory, positions, link);
        if list.last() is Segment {
            assert(segments.drop_last() =~= mapped_segments(memory, positions.drop_last(), link));
        }
    }
}

/// The address that is asked for is one, if the numbers of all commands are.
proof fn lemma_asked_address_fits(list: Seq<Command>)
    requires
        forall|i: int| 0 <= i < list.len() ==> (#[trigger] list[i]).fits(),
    ensures
        0 <= asked_address(list) <= usize::MAX,
    decreases list.len(),
{
    if list.len() > 0 {
        let rest = list.drop_first();
        assert(list[0] == list.first());
        assert forall|i: int| 0 <= i < rest.len() implies (#[trigger] rest[i]).fits() by {
            assert(rest[i] == list[i + 1]);
        }
        lemma_asked_address_fits(rest);
    }
}

/// The bytes of some commands.
pub open spec fn command_parts(list: Seq<Command>) -> Seq<Seq<u8>> {
    list.map_values(|command: Command| command.bytes())
}

/// An object whose header tells the number and the size of its commands is described by them: its
/// loaded segments are those that they map, in order, with all of their sizes, and at their
/// distance to the address that is asked for in the command that maps the header; and its build ID
/// is the whole UUID of the last command that holds one.
pub proof fn law_objects_are_read_back(header: Seq<u8>, list: Seq<Command>, after: Seq<u8>)
    requires
        header.len() == 32,
        mach_header(header).ncmds == list.len(),
        mach_header(header).sizeofcmds == joined(command_parts(list)).len(),
        forall|i: int|
            0 <= i < list.len() ==> (#[trigger] list[i]).wf() && list[i].fits(),
    ensures
        ({
            let memory = header + joined(command_parts(list)) + after;
            let positions = all_commands(memory);
            let link = link_address(memory, positions);
            &&& readable(memory)
            &&& positions.len() == list.len()
            &&& link == asked_address(list)
            &&& are_segments(
                mapped_segments(memory, positions, link),
                list,
                asked_address(list),
            )
            &&& last_uuid(memory, positions) == held_uuid(list)
        }),
{
    let parts = command_parts(list);
    let memory = header + joined(parts) + after;
    let positions = all_commands(memory);
    assert forall|i: int| 0 <= i < parts.len() implies is_command(#[trigger] parts[i]) by {
        assert(list[i].wf());
        assert(parts[i].subrange(0, parts[i].len() as int) =~= parts[i]);
        assert(stands_at(parts[i], 0, list[i]));
        lemma_command(parts[i], 0, list[i]);
    }
    assert(mach_header(memory) == mach_header(header));
    lemma_commands_are_found(header, parts, after, parts.len());
    assert forall|i: int| 0 <= i < list.len() implies (#[trigger] list[i]).wf() && stands_at(
        memory,
        positions[i],
        list[i],
    ) by {
        law_commands_are_found(header, parts, after, i);
        assert(parts[i] == list[i].bytes());
    }
    assert(stand_at(memory, positions, list));
    assert forall|i: int| 0 <= i < positions.len() implies readable_command(
        memory,
        #[trigger] positions[i],
    ) by {
        assert(list[i].wf() && list[i].fits());
        lemma_command(memory, positions[i], list[i]);
    }
    lemma_uuid(memory, positions, list);
    lemma_asked_address(memory, positions, list);
    lemma_asked_address_fits(list);
    lemma_segments(memory, positions, list, asked_address(list));
}

/// The bytes of a header.
pub open spec fn header_bytes(header: mach_header64) -> Seq<u8> {
    small(header.magic) + small(header.cputype) + small(header.cpusubtype) + small(header.filetype)
        + small(header.ncmds) + small(header.sizeofcmds) + small(header.flags) + small(
        header.reserved,
    )
}

/// A header is read back.
pub proof fn law_header_is_read_back(header: mach_header64, more: Seq<u8>)
    ensures
        header_bytes(header).len() == MACH_HEADER_SIZE,
        mach_header(header_bytes(header) + more) == header,
{
    let memory = header_bytes(header) + more;
    lemma_sizes(header.magic, 0);
    lemma_sizes(header.cputype, 0);
    lemma_sizes(header.cpusubtype, 0);
    lemma_sizes(header.filetype, 0);
    lemma_sizes(header.ncmds, 0);
    lemma_sizes(header.sizeofcmds, 0);
    lemma_sizes(header.flags, 0);
    lemma_sizes(header.reserved, 0);
    assert(memory.subrange(0, 4) =~= small(header.magic));
    assert(memory.subrange(4, 8) =~= small(header.cputype));
    assert(memory.subrange(8, 12) =~= small(header.cpusubtype));
    assert(memory.subrange(12, 16) =~= small(header.filetype));
    assert(memory.subrange(16, 20) =~= small(header.ncmds));
    assert(memory.subrange(20, 24) =~= small(header.sizeofcmds));
    assert(memory.subrange(24, 28) =~= small(header.flags));
    assert(memory.subrange(28, 32) =~= small(header.reserved));
    law_numbers_are_read_back(memory, 0, header.magic, 0);
    law_numbers_are_read_back(memory, 4, header.cputype, 0);
    law_numbers_are_read_back(memory, 8, header.cpusubtype, 0);
    law_numbers_are_read_back(memory, 12, header.filetype, 0);
    law_numbers_are_read_back(memory, 16, header.ncmds, 0);
    law_numbers_are_read_back(memory, 20, header.sizeofcmds, 0);
    law_numbers_are_read_back(memory, 24, header.flags, 0);
    law_numbers_are_read_back(memory, 28, header.reserved, 0);
}

/// The bytes of the head of the list of all objects. Three more fill it up.
pub open spec fn list_head_bytes(infos: dyld_all_image_infos64, padding: Seq<u8>) -> Seq<u8> {
    small(infos.version) + small(infos.infoArrayCount) + large(infos.infoArray) + large(
        infos.notification,
    ) + seq![
        if infos.processDetachedFromSharedRegion {
            1u8
        } else {
            0
        },
    ] + padding
}

/// The head of the list of all objects is read back.
pub proof fn law_list_head_is_read_back(infos: dyld_all_image_infos64, padding: Seq<u8>)
    requires
        padding.len() == 3,
    ensures
        list_head_bytes(infos, padding).len() == ALL_IMAGE_INFOS_SIZE,
        all_image_infos(list_head_bytes(infos, padding)) == infos,
{
    let memory = list_head_bytes(infos, padding);
    lemma_sizes(infos.version, infos.infoArray);
    lemma_sizes(infos.infoArrayCount, infos.notification);
    assert(memory.subrange(0, 4) =~= small(infos.version));
    assert(memory.subrange(4, 8) =~= small(infos.infoArrayCount));
    assert(memory.subrange(8, 16) =~= large(infos.infoArray));
    assert(memory.subrange(16, 24) =~= large(infos.notification));
    law_numbers_are_read_back(memory, 0, infos.version, 0);
    law_numbers_are_read_back(memory, 4, infos.infoArrayCount, 0);
    law_numbers_are_read_back(memory, 8, 0, infos.infoArray);
    law_numbers_are_read_back(memory, 16, 0, infos.notification);
}

/// The bytes of where an object is.
pub open spec fn info_bytes(info: dyld_image_info64) -> Seq<u8> {
    large(info.load_address) + large(info.file_path) + large(info.file_mod_date)
}

/// The bytes of a list of objects.
pub open spec fn list_bytes(infos: Seq<dyld_image_info64>) -> Seq<u8> {
    joined(infos.map_values(|info: dyld_image_info64| info_bytes(info)))
}

/// Joined parts of the same size lie at multiples of it.
proof fn lemma_joined_size(parts: Seq<Seq<u8>>, size: nat)
    requires
        forall|i: int| 0 <= i < parts.len() ==> (#[trigger] parts[i]).len() == size,
    ensures
        joined(parts).len() == parts.len() * size,
    decreases parts.len(),
{
    if parts.len() > 0 {
        let before = parts.drop_last();
        assert forall|i: int| 0 <= i < before.len() implies (#[trigger] before[i]).len()
            == size by {
            assert(before[i] == parts[i]);
        }
        lemma_joined_size(before, size);
        assert(parts[parts.len() - 1] == parts.last());
        assert(parts.len() * size == before.len() * size + size) by (nonlinear_arith)
            requires
                parts.len() == before.len() + 1,
        ;
    }
}

/// Every object of a list is read back.
pub proof fn law_list_is_read_back(infos: Seq<dyld_image_info64>, more: Seq<u8>, index: int)
    requires
        0 <= index < infos.len(),
    ensures
        list_bytes(infos).len() == infos.len() * IMAGE_INFO_SIZE,
        image_info_at(list_bytes(infos) + more, index * IMAGE_INFO_SIZE) == infos[index],
{
    let parts = infos.map_values(|info: dyld_image_info64| info_bytes(info));
    let memory = list_bytes(infos) + more;
    let info = infos[index];
    let none = Seq::<u8>::empty();
    assert forall|i: int| 0 <= i < parts.len() implies (#[trigger] parts[i]).len() == 24 by {
        lemma_sizes(0, infos[i].load_address);
        lemma_sizes(0, infos[i].file_path);
        lemma_sizes(0, infos[i].file_mod_date);
    }
    lemma_joined_size(parts, 24);
    assert forall|i: int| 0 <= i < parts.take(index).len() implies (
    #[trigger] parts.take(index)[i]).len() == 24 by {
        assert(parts.take(index)[i] == parts[i]);
    }
    lemma_joined_size(parts.take(index), 24);
    lemma_part(none, parts, more, index);
    assert(none + joined(parts) + more =~= memory);
    let at = index * 24;
    let part = memory.subrange(at, at + 24);
    assert(part == info_bytes(info));
    lemma_sizes(0, info.load_address);
    lemma_sizes(0, info.file_path);
    lemma_sizes(0, info.file_mod_date);
    assert(memory.subrange(at, at + 8) =~= part.subrange(0, 8));
    assert(memory.subrange(at + 8, at + 16) =~= part.subrange(8, 16));
    assert(memory.subrange(at + 16, at + 24) =~= part.subrange(16, 24));
    assert(info_bytes(info).subrange(0, 8) =~= large(info.load_address));
    assert(info_bytes(info).subrange(8, 16) =~= large(info.file_path));
    assert(info_bytes(info).subrange(16, 24) =~= large(info.file_mod_date));
    law_numbers_are_read_back(memory, at, 0, info.load_address);
    law_numbers_are_read_back(memory, at + 8, 0, info.file_path);
    law_numbers_are_read_back(memory, at + 16, 0, info.file_mod_date);
}

/// A command that reaches beyond the end is left out, and so are those behind it, however many are
/// counted.
pub proof fn law_overrunning_commands_are_left_out(
    header: Seq<u8>,
    parts: Seq<Seq<u8>>,
    after: Seq<u8>,
    count: nat,
)
    requires
        header.len() == 32,
        joined(parts).len() <= mach_header(header).sizeofcmds,
        forall|i: int| 0 <= i < parts.len() ==> is_command(#[trigger] parts[i]),
        joined(parts).len() + 8 > mach_header(header).sizeofcmds || (after.len() >= 8
            && joined(parts).len() + word(after, 4, ORDER) > mach_header(header).sizeofcmds),
        count >= parts.len(),
    ensures
        ({
            let memory = header + joined(parts) + after;
            &&& commands(memory, count).len() == parts.len()
            &&& commands(memory, count) == commands(memory, parts.len())
        }),
    decreases count,
{
    let memory = header + joined(parts) + after;
    assert(mach_header(memory) == mach_header(header));
    lemma_commands_are_found(header, parts, after, parts.len());
    assert(parts.take(parts.len() as int) =~= parts);
    if count > parts.len() {
        law_overrunning_commands_are_left_out(header, parts, after, (count - 1) as nat);
        let at = MACH_HEADER_SIZE + joined(parts).len();
        if after.len() >= 8 {
            assert(memory[at + 4] == after[4]);
            assert(memory[at + 5] == after[5]);
            assert(memory[at + 6] == after[6]);
            assert(memory[at + 7] == after[7]);
        }
    }
}

/// The segments of some commands follow those of the commands before them.
pub proof fn law_segments_follow_one_another(
    memory: Seq<u8>,
    before: Seq<int>,
    after: Seq<int>,
    link: int,
)
    ensures
        mapped_segments(memory, before + after, link) == mapped_segments(memory, before, link)
            + mapped_segments(memory, after, link),
    decreases after.len(),
{
    if after.len() == 0 {
        assert(before + after =~= before);
    } else {
        law_segments_follow_one_another(memory, before, after.drop_last(), link);
        assert((before + after).drop_last() =~= before + after.drop_last());
    }
}

/// The last UUID counts.
pub proof fn law_last_uuid_counts(memory: Seq<u8>, before: Seq<int>, after: Seq<int>)
    ensures
        last_uuid(memory, before + after) == match last_uuid(memory, after) {
            Some(uuid) => Some(uuid),
            None => last_uuid(memory, before),
        },
    decreases after.len(),
{
    if after.len() == 0 {
        assert(before + after =~= before);
    } else {
        law_last_uuid_counts(memory, before, after.drop_last());
        assert((before + after).drop_last() =~= before + after.drop_last());
    }
}

/// The first command that maps the header counts.
pub proof fn law_first_header_counts(memory: Seq<u8>, before: Seq<int>, after: Seq<int>)
    ensures
        header_command(memory, before + after) == match header_command(memory, before) {
            Some(at) => Some(at),
            None => header_command(memory, after),
        },
    decreases after.len(),
{
    if after.len() == 0 {
        assert(before + after =~= before);
    } else {
        law_first_header_counts(memory, before, after.drop_last());
        assert((before + after).drop_last() =~= before + after.drop_last());
    }
}

/// A command of kind `0x19` maps the segment that it describes, at its distance from the link
/// address, and no other command maps one.
pub proof fn law_segment_of_one_command(memory: Seq<u8>, at: int, link: int)
    requires
        0 <= link <= usize::MAX,
        double_word(memory, at + 24, ByteOrder::Little) <= usize::MAX,
        double_word(memory, at + 32, ByteOrder::Little) <= usize::MAX,
    ensures
        ({
            let segments = mapped_segments(memory, seq![at], link);
            &&& word(memory, at, ByteOrder::Little) != 0x19 ==> segments.len() == 0
            &&& word(memory, at, ByteOrder::Little) == 0x19 ==> {
                let distance = double_word(memory, at + 24, ByteOrder::Little) - link;
                &&& segments.len() == 1
                &&& segments[0].file_offset == double_word(memory, at + 40, ByteOrder::Little)
                &&& segments[0].memory_size == double_word(memory, at + 32, ByteOrder::Little)
                &&& segments[0].memory_offset == distance || segments[0].memory_offset == distance
                    + usize::MAX + 1
            }
        }),
{
    reveal_with_fuel(mapped_segments, 2);
    assert(seq![at].drop_last() =~= Seq::<int>::empty());
}

/// A command of kind `0x1b` holds the UUID that is behind its kind and size, as far as its size
/// goes, and no other command holds one.
pub proof fn law_uuid_of_one_command(memory: Seq<u8>, at: int)
    ensures
        last_uuid(memory, seq![at]) == if word(memory, at, ByteOrder::Little) == 0x1b {
            Some(memory.subrange(at + 8, at + word(memory, at + 4, ByteOrder::Little)))
        } else {
            None::<Seq<u8>>
        },
{
    reveal_with_fuel(last_uuid, 2);
    assert(seq![at].drop_last() =~= Seq::<int>::empty());
}

/// The header is in the segment that starts with the file, or in the one that is named `__TEXT`.
pub proof fn law_header_of_one_command(memory: Seq<u8>, at: int)
    ensures
        header_command(memory, seq![at]) == if word(memory, at, ByteOrder::Little) == 0x19 && (
        double_word(memory, at + 40, ByteOrder::Little) == 0 && double_word(
            memory,
            at + 48,
            ByteOrder::Little,
        ) > 0 || memory.subrange(at + 8, at + 15) == seq![0x5fu8, 0x5f, 0x54, 0x45, 0x58, 0x54, 0])
        {
            Some(at)
        } else {
            None::<int>
        },
        link_address(memory, seq![at]) == if header_command(memory, seq![at]) is Some {
            double_word(memory, at + 24, ByteOrder::Little)
        } else {
            0
        },
{
    reveal_with_fuel(header_command, 2);
    assert(seq![at].drop_last() =~= Seq::<int>::empty());
}

} // verus!
