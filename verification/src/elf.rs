//! The shared objects of a process, as the dynamic linker of an ELF system lists them.

use vstd::prelude::*;

use crate::bytes::{copy_part, read_word, word, ByteOrder};
use crate::mappings::{
    address_at, build_id_bytes, object_views, BuildId, LoadedSegment, SharedObject,
    SharedObjectView,
};

verus! {

/// The type of a program header whose segment is loaded into memory.
pub const PT_LOAD: u32 = 1;

/// The type of a program header whose segment holds notes.
pub const PT_NOTE: u32 = 4;

/// The type of a note that holds a build ID.
pub const NT_GNU_BUILD_ID: u32 = 3;

/// The alignment of the parts of a note.
pub const ELF_NOTE_STRING_ALIGN: usize = 4;

/// The size of a note's header: the size of its name, the size of its description and its type.
pub const NOTE_HEADER_SIZE: usize = 12;

/// The alignment of a note's header.
pub const NOTE_HEADER_ALIGN: usize = 4;

/// The size of the name [`gnu_note_name`].
pub const GNU_NOTE_NAME_SIZE: usize = 4;

/// What the callback returns to go on.
pub const CB_RESULT_OK: i32 = 0;

/// What the callback returns to stop.
pub const CB_RESULT_ERROR: i32 = -1;

/// The least multiple of `n` that is not less than `p`.
pub open spec fn aligned_up(p: int, n: int) -> int {
    if p % n == 0 {
        p
    } else {
        p + (n - p % n)
    }
}

/// Increases `p` as little as possible (including possibly 0)
/// such that it becomes a multiple of `N`.
pub fn align_up<const N: usize>(p: usize) -> (aligned: usize)
    requires
        N > 0,
        aligned_up(p as int, N as int) <= usize::MAX,
    ensures
        aligned == aligned_up(p as int, N as int),
{
    if p % N == 0 {
        p
    } else {
        p + (N - (p % N))
    }
}

/// What [`align_up`] gives is a multiple of `n`, and not as far as `n` from `p`.
pub proof fn law_align_up(p: int, n: int)
    requires
        n > 0,
    ensures
        aligned_up(p, n) % n == 0,
        p <= aligned_up(p, n) < p + n,
{
    vstd::arithmetic::div_mod::lemma_fundamental_div_mod(p, n);
    vstd::arithmetic::div_mod::lemma_mod_bound(p, n);
    if p % n != 0 {
        assert(aligned_up(p, n) == (p / n + 1) * n) by (nonlinear_arith)
            requires
                aligned_up(p, n) == p + (n - p % n),
                p == n * (p / n) + p % n,
        ;
        vstd::arithmetic::div_mod::lemma_mod_multiples_basic(p / n + 1, n);
    }
}

/// No other multiple of `n` from `p` on is less than what [`align_up`] gives.
pub proof fn law_align_up_is_least(p: int, n: int, q: int)
    requires
        n > 0,
        q >= p,
        q % n == 0,
    ensures
        q >= aligned_up(p, n),
{
    law_align_up(p, n);
    if q < aligned_up(p, n) {
        // The distance between the two multiples is one too, and less than `n`.
        vstd::arithmetic::div_mod::lemma_sub_mod_noop(aligned_up(p, n), q, n);
        vstd::arithmetic::div_mod::lemma_small_mod((aligned_up(p, n) - q) as nat, n as nat);
        vstd::arithmetic::div_mod::lemma_small_mod(0, n as nat);
    }
}

/// Alignment changes nothing the second time.
pub proof fn law_align_up_once(p: int, n: int)
    requires
        n > 0,
    ensures
        aligned_up(aligned_up(p, n), n) == aligned_up(p, n),
{
    law_align_up(p, n);
}

/// Why a pointer cannot be followed.
#[derive(Clone, Copy, Debug, PartialEq, Eq)]
pub enum PointerError {
    /// It is a null pointer.
    Null,
    /// It is not properly aligned.
    Unaligned,
}

impl PointerError {
    /// What the error says.
    pub fn message(&self) -> (message: &'static str)
        ensures
            message@ == match self {
                PointerError::Null => "null pointer"@,
                PointerError::Unaligned => "unaligned pointer"@,
            },
    {
        match self {
            PointerError::Null => "null pointer",
            PointerError::Unaligned => "unaligned pointer",
        }
    }
}

/// Tells whether an address is that of a valid pointer to a value of the given alignment.
pub fn assert_pointer_valid(address: usize, align: usize) -> (result: Result<(), PointerError>)
    requires
        align > 0,
    ensures
        result == if address == 0 {
            Err::<(), PointerError>(PointerError::Null)
        } else if address % align != 0 {
            Err(PointerError::Unaligned)
        } else {
            Ok(())
        },
{
    if address == 0 {
        return Err(PointerError::Null);
    }
    if address % align != 0 {
        return Err(PointerError::Unaligned);
    }
    Ok(())
}

/// The name of a note that the GNU toolchain wrote: `GNU`, and a zero byte.
pub open spec fn gnu_note_name() -> Seq<u8> {
    seq![0x47u8, 0x4e, 0x55, 0]
}

/// The size of a note's name.
pub open spec fn name_size(segment: Seq<u8>, at: int, order: ByteOrder) -> int {
    word(segment, at, order)
}

/// The size of a note's description.
pub open spec fn description_size(segment: Seq<u8>, at: int, order: ByteOrder) -> int {
    word(segment, at + 4, order)
}

/// The size of a note.
pub open spec fn note_size(segment: Seq<u8>, at: int, order: ByteOrder) -> int {
    NOTE_HEADER_SIZE + aligned_up(
        name_size(segment, at, order),
        ELF_NOTE_STRING_ALIGN as int,
    ) + aligned_up(description_size(segment, at, order), ELF_NOTE_STRING_ALIGN as int)
}

/// Whether a note holds a build ID.
pub open spec fn is_build_id(segment: Seq<u8>, at: int, order: ByteOrder) -> bool {
    &&& word(segment, at + 8, order) == NT_GNU_BUILD_ID
    &&& description_size(segment, at, order) != 0
    &&& name_size(segment, at, order) == GNU_NOTE_NAME_SIZE
    &&& segment.subrange(at + NOTE_HEADER_SIZE, at + NOTE_HEADER_SIZE + GNU_NOTE_NAME_SIZE)
        == gnu_note_name()
}

/// The position and the size of the first build ID among the notes from a position on. Notes
/// follow one another as long as a header and the name of a build ID fit into the segment. The
/// build ID itself may reach beyond the segment.
pub open spec fn build_id_from(segment: Seq<u8>, at: int, order: ByteOrder) -> Option<(int, int)>
    decreases
            if at < segment.len() {
                segment.len() - at
            } else {
                0
            },
{
    if at < 0 || at + NOTE_HEADER_SIZE + GNU_NOTE_NAME_SIZE > segment.len() {
        None
    } else if is_build_id(segment, at, order) {
        Some(
            (
                at + NOTE_HEADER_SIZE + GNU_NOTE_NAME_SIZE,
                description_size(segment, at, order),
            ),
        )
    } else {
        proof {
            law_note_size(segment, at, order);
        }
        build_id_from(segment, at + note_size(segment, at, order), order)
    }
}

/// A note is at least as long as its header, its name and its description together.
pub proof fn law_note_size(segment: Seq<u8>, at: int, order: ByteOrder)
    requires
        0 <= at,
        at + NOTE_HEADER_SIZE <= segment.len(),
    ensures
        name_size(segment, at, order) >= 0,
        description_size(segment, at, order) >= 0,
        note_size(segment, at, order) >= NOTE_HEADER_SIZE + name_size(segment, at, order)
            + description_size(segment, at, order),
{
    law_align_up(name_size(segment, at, order), ELF_NOTE_STRING_ALIGN as int);
    law_align_up(description_size(segment, at, order), ELF_NOTE_STRING_ALIGN as int);
}

/// The distance to the note behind one with the given sizes, if it is not greater than `rest`.
fn next_note(name: usize, description: usize, rest: usize) -> (distance: Option<usize>)
    ensures
        ({
            let size = NOTE_HEADER_SIZE + aligned_up(name as int, ELF_NOTE_STRING_ALIGN as int)
                + aligned_up(description as int, ELF_NOTE_STRING_ALIGN as int);
            match distance {
                Some(distance) => distance == size && size <= rest,
                None => size > rest,
            }
        }),
{
    proof {
        law_align_up(name as int, ELF_NOTE_STRING_ALIGN as int);
        law_align_up(description as int, ELF_NOTE_STRING_ALIGN as int);
    }
    if rest < NOTE_HEADER_SIZE {
        return None;
    }
    let rest: usize = rest - NOTE_HEADER_SIZE;
    if name > rest || description > rest {
        return None;
    }
    let name: usize = align_up::<ELF_NOTE_STRING_ALIGN>(name);
    let description: usize = align_up::<ELF_NOTE_STRING_ALIGN>(description);
    if name > rest || description > rest - name {
        return None;
    }
    Some(NOTE_HEADER_SIZE + name + description)
}

/// Tells whether the note at a position holds a build ID.
fn check_build_id(segment: &[u8], at: usize, order: ByteOrder) -> (result: bool)
    requires
        at + NOTE_HEADER_SIZE + GNU_NOTE_NAME_SIZE <= segment@.len(),
    ensures
        result == is_build_id(segment@, at as int, order),
{
    assert(at + NOTE_HEADER_SIZE + GNU_NOTE_NAME_SIZE <= segment.len());
    if read_word(segment, at + 8, order) != NT_GNU_BUILD_ID {
        return false;
    }
    if read_word(segment, at + 4, order) == 0 {
        return false;
    }
    if read_word(segment, at, order) as usize != GNU_NOTE_NAME_SIZE {
        return false;
    }
    let name: usize = at + NOTE_HEADER_SIZE;
    let ghost bytes = segment@.subrange(name as int, name + GNU_NOTE_NAME_SIZE);
    assert(bytes[0] == segment@[name as int]);
    assert(bytes[1] == segment@[name + 1]);
    assert(bytes[2] == segment@[name + 2]);
    assert(bytes[3] == segment@[name + 3]);
    let result: bool = segment[name] == 0x47 && segment[name + 1] == 0x4e && segment[name + 2]
        == 0x55 && segment[name + 3] == 0;
    assert(result ==> bytes =~= gnu_note_name());
    result
}

/// Finds the first build ID among the notes of a segment: its position and its size. It may reach
/// beyond the segment.
pub fn find_build_id(segment: &[u8], order: ByteOrder) -> (found: Option<(usize, usize)>)
    ensures
        match found {
            Some((start, size)) => build_id_from(segment@, 0, order) == Some(
                (start as int, size as int),
            ),
            None => build_id_from(segment@, 0, order) is None,
        },
{
    let mut offset: usize = 0;
    while segment.len() - offset >= NOTE_HEADER_SIZE + GNU_NOTE_NAME_SIZE
        invariant
            offset <= segment@.len(),
            build_id_from(segment@, 0, order) == build_id_from(segment@, offset as int, order),
        decreases segment@.len() - offset,
    {
        let description: usize = read_word(segment, offset + 4, order) as usize;
        if check_build_id(segment, offset, order) {
            return Some((offset + NOTE_HEADER_SIZE + GNU_NOTE_NAME_SIZE, description));
        }
        let name: usize = read_word(segment, offset, order) as usize;
        proof {
            law_note_size(segment@, offset as int, order);
        }
        match next_note(name, description, segment.len() - offset) {
            Some(distance) => {
                offset += distance;
            },
            None => {
                assert(build_id_from(
                    segment@,
                    offset + note_size(segment@, offset as int, order),
                    order,
                ) is None);
                return None;
            },
        }
    }
    None
}

/// A program header, and what lies in memory where its segment is.
pub struct ProgramHeader {
    /// The type of the segment.
    pub p_type: u32,
    /// Offset of the segment in the file.
    pub p_offset: u64,
    /// Offset of the segment to the base address of its object.
    pub p_vaddr: usize,
    /// Size of the segment in memory.
    pub p_memsz: usize,
    /// The bytes from the start of the segment on. Only those of a segment with notes are looked
    /// at.
    pub memory: Vec<u8>,
}

/// The values of a [`ProgramHeader`].
pub struct ProgramHeaderView {
    pub p_type: u32,
    pub p_offset: u64,
    pub p_vaddr: usize,
    pub p_memsz: usize,
    pub memory: Seq<u8>,
}

impl View for ProgramHeader {
    type V = ProgramHeaderView;

    open spec fn view(&self) -> ProgramHeaderView {
        ProgramHeaderView {
            p_type: self.p_type,
            p_offset: self.p_offset,
            p_vaddr: self.p_vaddr,
            p_memsz: self.p_memsz,
            memory: self.memory@,
        }
    }
}

/// The values of some program headers.
pub open spec fn header_views(headers: Seq<ProgramHeader>) -> Seq<ProgramHeaderView> {
    headers.map_values(|header: ProgramHeader| header@)
}

impl ProgramHeaderView {
    /// The notes of the segment.
    pub open spec fn segment(self) -> Seq<u8> {
        self.memory.take(self.p_memsz as int)
    }

    /// Whether the segment is large enough for a note that holds a build ID.
    pub open spec fn has_notes(self) -> bool {
        self.p_memsz >= NOTE_HEADER_SIZE + GNU_NOTE_NAME_SIZE
    }

    /// Whether the notes can be read, and the build ID among them.
    pub open spec fn readable(self, order: ByteOrder) -> bool {
        self.has_notes() ==> {
            &&& self.p_memsz <= self.memory.len()
            &&& build_id_from(self.segment(), 0, order) matches Some((start, size)) ==> start
                + size <= self.memory.len()
        }
    }

    /// The build ID among the notes.
    pub open spec fn build_id(self, order: ByteOrder) -> Option<Seq<u8>> {
        match build_id_from(self.segment(), 0, order) {
            Some((start, size)) if self.has_notes() => Some(
                self.memory.subrange(start, start + size),
            ),
            _ => None,
        }
    }

    /// The loaded segment that the header describes.
    pub open spec fn loaded_segment(self) -> LoadedSegment {
        LoadedSegment {
            file_offset: self.p_offset,
            memory_offset: self.p_vaddr,
            memory_size: self.p_memsz,
        }
    }
}

/// The loaded segments that some program headers describe.
pub open spec fn loaded_segments(headers: Seq<ProgramHeaderView>) -> Seq<LoadedSegment>
    decreases headers.len(),
{
    if headers.len() == 0 {
        Seq::empty()
    } else if headers.last().p_type == PT_LOAD {
        loaded_segments(headers.drop_last()).push(headers.last().loaded_segment())
    } else {
        loaded_segments(headers.drop_last())
    }
}

/// The build ID in the segments of some program headers. The last segment that holds one counts,
/// and in it the first build ID.
pub open spec fn last_build_id(headers: Seq<ProgramHeaderView>, order: ByteOrder) -> Option<Seq<u8>>
    decreases headers.len(),
{
    if headers.len() == 0 {
        None
    } else if headers.last().p_type == PT_NOTE && headers.last().build_id(order) is Some {
        headers.last().build_id(order)
    } else {
        last_build_id(headers.drop_last(), order)
    }
}

/// The address from which the notes of a segment are to be read, or `None` if the segment is too
/// small for one that holds a build ID. The offset of the segment may stand for a negative number,
/// so the sum of the addresses wraps around.
pub fn notes_address(base_address: usize, p_vaddr: usize, p_memsz: usize) -> (address: Result<
    Option<usize>,
    PointerError,
>)
    ensures
        ({
            let start = address_at(base_address, p_vaddr);
            match address {
                Ok(None) => p_memsz < NOTE_HEADER_SIZE + GNU_NOTE_NAME_SIZE,
                Ok(Some(address)) => {
                    &&& p_memsz >= NOTE_HEADER_SIZE + GNU_NOTE_NAME_SIZE
                    &&& address == start && start != 0 && start % 4 == 0
                },
                Err(PointerError::Null) => {
                    &&& p_memsz >= NOTE_HEADER_SIZE + GNU_NOTE_NAME_SIZE
                    &&& start == 0
                },
                Err(PointerError::Unaligned) => {
                    &&& p_memsz >= NOTE_HEADER_SIZE + GNU_NOTE_NAME_SIZE
                    &&& start != 0 && start % 4 != 0
                },
            }
        }),
{
    if p_memsz < NOTE_HEADER_SIZE + GNU_NOTE_NAME_SIZE {
        return Ok(None);
    }
    let address: usize = base_address.wrapping_add(p_vaddr);
    match assert_pointer_valid(address, NOTE_HEADER_ALIGN) {
        Ok(_) => Ok(Some(address)),
        Err(error) => Err(error),
    }
}

/// Describes a shared object by its program headers.
pub fn describe_object(
    base_address: usize,
    path_name: Vec<u8>,
    headers: &Vec<ProgramHeader>,
    order: ByteOrder,
) -> (object: SharedObject)
    requires
        forall|i: int|
            0 <= i < headers@.len() && (#[trigger] headers@[i]).p_type == PT_NOTE
                ==> headers@[i]@.readable(order),
    ensures
        object@ == (SharedObjectView {
            base_address,
            path_name: path_name@,
            build_id: last_build_id(header_views(headers@), order),
            loaded_segments: loaded_segments(header_views(headers@)),
        }),
{
    let mut segments: Vec<LoadedSegment> = Vec::new();
    let mut build_id: Option<BuildId> = None;
    let ghost views = header_views(headers@);
    assert(views.take(0) =~= Seq::empty());
    let mut i: usize = 0;
    while i < headers.len()
        invariant
            i <= headers@.len(),
            views == header_views(headers@),
            forall|i: int|
                0 <= i < headers@.len() && (#[trigger] headers@[i]).p_type == PT_NOTE
                    ==> headers@[i]@.readable(order),
            segments@ == loaded_segments(views.take(i as int)),
            build_id_bytes(build_id) == last_build_id(views.take(i as int), order),
        decreases headers@.len() - i,
    {
        let header = &headers[i];
        assert(views.take(i + 1).drop_last() =~= views.take(i as int));
        assert(views.take(i + 1).last() == header@);
        if header.p_type == PT_LOAD {
            segments.push(
                LoadedSegment {
                    file_offset: header.p_offset,
                    memory_offset: header.p_vaddr,
                    memory_size: header.p_memsz,
                },
            );
        } else if header.p_type == PT_NOTE && header.p_memsz >= NOTE_HEADER_SIZE
            + GNU_NOTE_NAME_SIZE {
            let segment: Vec<u8> = copy_part(header.memory.as_slice(), 0, header.p_memsz);
            assert(segment@ =~= header@.segment());
            match find_build_id(segment.as_slice(), order) {
                Some((start, size)) => {
                    let id: Vec<u8> = copy_part(header.memory.as_slice(), start, size);
                    build_id = Some(BuildId(id));
                },
                None => {},
            }
        }
        i += 1;
    }
    assert(views.take(i as int) =~= views);
    SharedObject { base_address, path_name, build_id, loaded_segments: segments }
}

/// Why the shared objects could not be collected.
#[derive(Debug, PartialEq, Eq)]
pub enum CollectError {
    /// The name of the current executable could not be read, for the given reason.
    CurrentExe(String),
}

impl CollectError {
    /// What the error says.
    pub fn message(&self) -> (message: &'static str)
        ensures
            message@ == "failed to read the name of the current executable"@,
    {
        "failed to read the name of the current executable"
    }
}

/// What is to be done with an object.
#[derive(Debug, PartialEq, Eq)]
pub enum Visit {
    /// Nothing: the callback returns the number.
    Return(i32),
    /// It was loaded from the file of this path, and is to be described.
    Describe(Vec<u8>),
}

/// The shared objects that were collected so far, or the error at which the walk stopped.
pub struct CallbackState {
    pub result: Result<Vec<SharedObject>, CollectError>,
}

impl View for CallbackState {
    type V = Result<Seq<SharedObjectView>, Seq<char>>;

    open spec fn view(&self) -> Result<Seq<SharedObjectView>, Seq<char>> {
        match self.result {
            Ok(objects) => Ok(object_views(objects@)),
            Err(CollectError::CurrentExe(cause)) => Err(cause@),
        }
    }
}

impl CallbackState {
    /// No object was visited yet.
    pub fn new() -> (state: Self)
        ensures
            state@ == Ok::<Seq<SharedObjectView>, Seq<char>>(Seq::empty()),
    {
        let objects: Vec<SharedObject> = Vec::new();
        assert(object_views(objects@) =~= Seq::empty());
        CallbackState { result: Ok(objects) }
    }

    /// Whether the next object is the first one, which is the main program.
    pub fn is_first(&self) -> (first: bool)
        ensures
            first == (self@ == Ok::<Seq<SharedObjectView>, Seq<char>>(Seq::empty())),
    {
        match &self.result {
            Ok(objects) => {
                assert(objects@.len() == 0 ==> object_views(objects@) =~= Seq::empty());
                assert(object_views(objects@).len() == objects@.len());
                objects.len() == 0
            },
            Err(_) => false,
        }
    }

    /// Decides what is to be done with the next object, whose name is missing if the pointer to
    /// it is null. The first object is the main program, and its name is that of the current
    /// executable; an object behind it is skipped if its name is missing.
    pub fn object_path(
        &mut self,
        name: Option<Vec<u8>>,
        current_exe: Result<Vec<u8>, String>,
    ) -> (visit: Visit)
        ensures
            old(self)@ == Ok::<Seq<SharedObjectView>, Seq<char>>(
                Seq::empty(),
            ) ==> match current_exe {
                Ok(path) => visit == Visit::Describe(path) && final(self)@ == old(self)@,
                Err(cause) => visit == Visit::Return(CB_RESULT_ERROR) && final(self)@ == Err::<
                    Seq<SharedObjectView>,
                    Seq<char>,
                >(cause@),
            },
            old(self)@ != Ok::<Seq<SharedObjectView>, Seq<char>>(Seq::empty()) ==> final(self)@
                == old(self)@ && visit == match name {
                Some(path) => Visit::Describe(path),
                None => Visit::Return(CB_RESULT_OK),
            },
    {
        if self.is_first() {
            match current_exe {
                Ok(path) => Visit::Describe(path),
                Err(cause) => {
                    self.result = Err(CollectError::CurrentExe(cause));
                    Visit::Return(CB_RESULT_ERROR)
                },
            }
        } else {
            match name {
                Some(path) => Visit::Describe(path),
                None => Visit::Return(CB_RESULT_OK),
            }
        }
    }

    /// Adds the object with the given path and program headers, and returns what the callback
    /// returns.
    pub fn push_object(
        &mut self,
        base_address: usize,
        path_name: Vec<u8>,
        headers: &Vec<ProgramHeader>,
        order: ByteOrder,
    ) -> (code: i32)
        requires
            old(self)@ is Ok,
            forall|i: int|
                0 <= i < headers@.len() && (#[trigger] headers@[i]).p_type == PT_NOTE
                    ==> headers@[i]@.readable(order),
        ensures
            code == CB_RESULT_OK,
            final(self)@ == Ok::<Seq<SharedObjectView>, Seq<char>>(
                old(self)@->Ok_0.push(
                    SharedObjectView {
                        base_address,
                        path_name: path_name@,
                        build_id: last_build_id(header_views(headers@), order),
                        loaded_segments: loaded_segments(header_views(headers@)),
                    },
                ),
            ),
    {
        let object = describe_object(base_address, path_name, headers, order);
        let ghost view = object@;
        let ghost before = self@->Ok_0;
        match &mut self.result {
            Ok(objects) => {
                objects.push(object);
                assert(object_views(objects@) =~= before.push(view));
            },
            Err(_) => {},
        }
        CB_RESULT_OK
    }
}

} // verus!
