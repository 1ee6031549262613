//! What holds of the notes of every segment.

use vstd::prelude::*;

use crate::bytes::{word, ByteOrder};
use crate::elf::{
    aligned_up, build_id_from, description_size, header_views, is_build_id, last_build_id,
    law_align_up, loaded_segments, name_size, note_size, ProgramHeader, ProgramHeaderView,
    ELF_NOTE_STRING_ALIGN, GNU_NOTE_NAME_SIZE, NOTE_HEADER_SIZE,
};

verus! {

/// A note. Each part is followed by some bytes up to its alignment.
pub struct Note {
    pub n_type: u32,
    pub name: Seq<u8>,
    pub name_padding: Seq<u8>,
    pub description: Seq<u8>,
    pub description_padding: Seq<u8>,
}

impl Note {
    /// Whether the sizes of the parts can be written down, and each part is filled up to a multiple
    /// of four bytes with as few as possible.
    pub open spec fn wf(self) -> bool {
        &&& self.name.len() <= u32::MAX
        &&& self.description.len() <= u32::MAX
        &&& self.name_padding.len() < 4
        &&& (self.name.len() + self.name_padding.len()) % 4 == 0
        &&& self.description_padding.len() < 4
        &&& (self.description.len() + self.description_padding.len()) % 4 == 0
    }

    /// Whether the note holds a build ID.
    pub open spec fn holds_build_id(self) -> bool {
        &&& self.n_type == 3
        &&& self.name == seq![0x47u8, 0x4e, 0x55, 0]
        &&& self.description.len() > 0
    }

    /// The bytes of the note.
    #[verifier::opaque]
    pub open spec fn bytes(self, order: ByteOrder) -> Seq<u8> {
        word_bytes(self.name.len() as int, order) + word_bytes(
            self.description.len() as int,
            order,
        ) + word_bytes(self.n_type as int, order) + (self.name + self.name_padding) + (
        self.description + self.description_padding)
    }
}

/// The bytes of a 32-bit number.
#[verifier::opaque]
pub open spec fn word_bytes(number: int, order: ByteOrder) -> Seq<u8> {
    let first = (number % 0x100) as u8;
    let second = ((number / 0x100) % 0x100) as u8;
    let third = ((number / 0x1_0000) % 0x100) as u8;
    let fourth = ((number / 0x100_0000) % 0x100) as u8;
    match order {
        ByteOrder::Little => seq![first, second, third, fourth],
        ByteOrder::Big => seq![fourth, third, second, first],
    }
}

/// A part of a note, filled up with zero bytes to its alignment.
pub open spec fn padded(part: Seq<u8>) -> Seq<u8> {
    part + Seq::new(
        (aligned_up(part.len() as int, ELF_NOTE_STRING_ALIGN as int) - part.len()) as nat,
        |i: int| 0u8,
    )
}

/// The zero bytes that fill up a part of a note.
pub open spec fn zero_padding(part: Seq<u8>) -> Seq<u8> {
    Seq::new(((4 - part.len() as int % 4) % 4) as nat, |i: int| 0u8)
}

/// A note whose parts are filled up with zero bytes.
pub open spec fn zero_filled_note(n_type: u32, name: Seq<u8>, description: Seq<u8>) -> Note {
    Note {
        n_type,
        name,
        name_padding: zero_padding(name),
        description,
        description_padding: zero_padding(description),
    }
}

/// The bytes of some notes, one after the other.
pub open spec fn notes_bytes(notes: Seq<Note>, order: ByteOrder) -> Seq<u8>
    decreases notes.len(),
{
    if notes.len() == 0 {
        Seq::empty()
    } else {
        notes.first().bytes(order) + notes_bytes(notes.drop_first(), order)
    }
}

/// The first build ID that some notes hold.
pub open spec fn first_build_id(notes: Seq<Note>) -> Option<Seq<u8>>
    decreases notes.len(),
{
    if notes.len() == 0 {
        None
    } else if notes.first().holds_build_id() {
        Some(notes.first().description)
    } else {
        first_build_id(notes.drop_first())
    }
}

/// A 32-bit number is read back from its bytes, wherever they lie.
pub proof fn law_words_are_read_back(bytes: Seq<u8>, at: int, number: int, order: ByteOrder)
    requires
        0 <= number <= u32::MAX,
        0 <= at,
        at + 4 <= bytes.len(),
        bytes.subrange(at, at + 4) == word_bytes(number, order),
    ensures
        word(bytes, at, order) == number,
{
    reveal(word_bytes);
    let part = bytes.subrange(at, at + 4);
    assert(part[0] == bytes[at]);
    assert(part[1] == bytes[at + 1]);
    assert(part[2] == bytes[at + 2]);
    assert(part[3] == bytes[at + 3]);
    assert(number / 0x1_0000 == number / 0x100 / 0x100);
    assert(number / 0x100_0000 == number / 0x100 / 0x100 / 0x100);
}

/// The parts of a sequence are where they were put.
proof fn lemma_parts(
    before: Seq<u8>,
    sizes: (Seq<u8>, Seq<u8>, Seq<u8>),
    name: Seq<u8>,
    description: Seq<u8>,
    after: Seq<u8>,
)
    requires
        sizes.0.len() == 4,
        sizes.1.len() == 4,
        sizes.2.len() == 4,
    ensures
        ({
            let all = before + (sizes.0 + sizes.1 + sizes.2 + name + description) + after;
            let at = before.len() as int;
            &&& all.subrange(at, at + 4) == sizes.0
            &&& all.subrange(at + 4, at + 8) == sizes.1
            &&& all.subrange(at + 8, at + 12) == sizes.2
            &&& all.subrange(at + 12, at + 12 + name.len()) == name
            &&& all.subrange(
                at + 12 + name.len(),
                at + 12 + name.len() + description.len(),
            ) == description
        }),
{
    let all = before + (sizes.0 + sizes.1 + sizes.2 + name + description) + after;
    let at = before.len() as int;
    assert(all.subrange(at, at + 4) =~= sizes.0);
    assert(all.subrange(at + 4, at + 8) =~= sizes.1);
    assert(all.subrange(at + 8, at + 12) =~= sizes.2);
    assert(all.subrange(at + 12, at + 12 + name.len()) =~= name);
    assert(all.subrange(at + 12 + name.len(), at + 12 + name.len() + description.len())
        =~= description);
}

/// The size of a number.
proof fn lemma_word_bytes(number: int, order: ByteOrder)
    ensures
        word_bytes(number, order).len() == 4,
{
    reveal(word_bytes);
}

/// The size of a part, with what fills it up.
proof fn lemma_padding(size: int, padding: int)
    requires
        0 <= size,
        0 <= padding < 4,
        (size + padding) % 4 == 0,
    ensures
        size + padding == aligned_up(size, ELF_NOTE_STRING_ALIGN as int),
{
}

/// The size of a note.
proof fn lemma_note_bytes(note: Note, order: ByteOrder)
    requires
        note.wf(),
    ensures
        note.bytes(order).len() == NOTE_HEADER_SIZE + aligned_up(
            note.name.len() as int,
            ELF_NOTE_STRING_ALIGN as int,
        ) + aligned_up(note.description.len() as int, ELF_NOTE_STRING_ALIGN as int),
        note.bytes(order).len() >= NOTE_HEADER_SIZE + note.name.len() + note.description.len(),
{
    lemma_word_bytes(note.name.len() as int, order);
    lemma_word_bytes(note.description.len() as int, order);
    lemma_word_bytes(note.n_type as int, order);
    lemma_padding(note.name.len() as int, note.name_padding.len() as int);
    lemma_padding(note.description.len() as int, note.description_padding.len() as int);
    reveal(Note::bytes);
}

/// The parts of a note are where they are expected.
proof fn lemma_note(before: Seq<u8>, note: Note, after: Seq<u8>, order: ByteOrder)
    requires
        note.wf(),
    ensures
        ({
            let segment = before + note.bytes(order) + after;
            let at = before.len() as int;
            &&& name_size(segment, at, order) == note.name.len()
            &&& description_size(segment, at, order) == note.description.len()
            &&& word(segment, at + 8, order) == note.n_type
            &&& note_size(segment, at, order) == note.bytes(order).len()
            &&& segment.subrange(
                at + NOTE_HEADER_SIZE,
                at + NOTE_HEADER_SIZE + note.name.len(),
            ) == note.name
            &&& note.name.len() == GNU_NOTE_NAME_SIZE ==> {
                let start = at + NOTE_HEADER_SIZE + GNU_NOTE_NAME_SIZE;
                segment.subrange(start, start + note.description.len()) == note.description
            }
        }),
{
    let segment = before + note.bytes(order) + after;
    let at = before.len() as int;
    let sizes = (
        word_bytes(note.name.len() as int, order),
        word_bytes(note.description.len() as int, order),
        word_bytes(note.n_type as int, order),
    );
    let name = note.name + note.name_padding;
    let description = note.description + note.description_padding;
    lemma_note_bytes(note, order);
    law_align_up(note.name.len() as int, ELF_NOTE_STRING_ALIGN as int);
    law_align_up(note.description.len() as int, ELF_NOTE_STRING_ALIGN as int);
    lemma_word_bytes(note.name.len() as int, order);
    lemma_word_bytes(note.description.len() as int, order);
    lemma_word_bytes(note.n_type as int, order);
    assert(note.bytes(order) == sizes.0 + sizes.1 + sizes.2 + name + description) by {
        reveal(Note::bytes);
    }
    lemma_parts(before, sizes, name, description, after);
    law_words_are_read_back(segment, at, note.name.len() as int, order);
    law_words_are_read_back(segment, at + 4, note.description.len() as int, order);
    law_words_are_read_back(segment, at + 8, note.n_type as int, order);
    assert(segment.subrange(at + 12, at + 12 + note.name.len()) =~= segment.subrange(
        at + 12,
        at + 12 + name.len(),
    ).take(note.name.len() as int));
    assert(name.take(note.name.len() as int) =~= note.name);
    if note.name.len() == GNU_NOTE_NAME_SIZE {
        assert(name.len() == 4);
        assert(segment.subrange(at + 16, at + 16 + note.description.len()) =~= segment.subrange(
            at + 16,
            at + 16 + description.len(),
        ).take(note.description.len() as int));
        assert(description.take(note.description.len() as int) =~= note.description);
    }
}

/// [`law_build_id_is_found`], behind some other bytes.
proof fn lemma_build_id_is_found(before: Seq<u8>, notes: Seq<Note>, order: ByteOrder)
    requires
        forall|i: int| 0 <= i < notes.len() ==> (#[trigger] notes[i]).wf(),
    ensures
        ({
            let segment = before + notes_bytes(notes, order);
            match (first_build_id(notes), build_id_from(segment, before.len() as int, order)) {
                (Some(id), Some((start, size))) => {
                    &&& 0 <= start <= start + size <= segment.len()
                    &&& segment.subrange(start, start + size) == id
                },
                (None, None) => true,
                _ => false,
            }
        }),
    decreases notes.len(),
{
    let segment = before + notes_bytes(notes, order);
    let at = before.len() as int;
    if notes.len() > 0 {
        let note = notes.first();
        let rest = notes.drop_first();
        let after = notes_bytes(rest, order);
        assert(note == notes[0]);
        assert forall|i: int| 0 <= i < rest.len() implies (#[trigger] rest[i]).wf() by {
            assert(rest[i] == notes[i + 1]);
        }
        assert(segment =~= before + note.bytes(order) + after);
        lemma_note(before, note, after, order);
        lemma_note_bytes(note, order);
        assert((before + note.bytes(order)) + after =~= segment);
        lemma_build_id_is_found(before + note.bytes(order), rest, order);
        if note.holds_build_id() {
            assert(is_build_id(segment, at, order));
        } else if at + NOTE_HEADER_SIZE + GNU_NOTE_NAME_SIZE > segment.len() {
            // The note is but a header, and the last one.
            if rest.len() > 0 {
                assert(rest.first() == rest[0]);
                lemma_note_bytes(rest.first(), order);
                assert(after.len() >= NOTE_HEADER_SIZE);
            }
        } else {
            assert(!is_build_id(segment, at, order));
        }
    }
}

/// The first build ID that the notes of a segment hold is found, and none if they hold none.
pub proof fn law_build_id_is_found(notes: Seq<Note>, order: ByteOrder)
    requires
        forall|i: int| 0 <= i < notes.len() ==> (#[trigger] notes[i]).wf(),
    ensures
        ({
            let segment = notes_bytes(notes, order);
            match (first_build_id(notes), build_id_from(segment, 0, order)) {
                (Some(id), Some((start, size))) => {
                    &&& 0 <= start <= start + size <= segment.len()
                    &&& segment.subrange(start, start + size) == id
                },
                (None, None) => true,
                _ => false,
            }
        }),
{
    lemma_build_id_is_found(Seq::empty(), notes, order);
    assert(Seq::<u8>::empty() + notes_bytes(notes, order) =~= notes_bytes(notes, order));
}

/// The first build ID that some notes hold, as far as the header and the name of its note lie
/// within the given number of bytes.
pub open spec fn first_build_id_within(notes: Seq<Note>, order: ByteOrder, size: int) -> Option<
    Seq<u8>,
>
    decreases notes.len(),
{
    if notes.len() == 0 || size < 16 {
        None
    } else if notes.first().holds_build_id() {
        Some(notes.first().description)
    } else {
        first_build_id_within(
            notes.drop_first(),
            order,
            size - notes.first().bytes(order).len(),
        )
    }
}

/// [`law_build_id_is_found_within`], behind some other bytes.
proof fn lemma_build_id_is_found_within(
    before: Seq<u8>,
    notes: Seq<Note>,
    order: ByteOrder,
    size: int,
)
    requires
        forall|i: int| 0 <= i < notes.len() ==> (#[trigger] notes[i]).wf(),
        0 <= size <= before.len() + notes_bytes(notes, order).len(),
    ensures
        ({
            let memory = before + notes_bytes(notes, order);
            match (
                first_build_id_within(notes, order, size - before.len()),
                build_id_from(memory.take(size), before.len() as int, order),
            ) {
                (Some(id), Some((start, length))) => {
                    &&& 0 <= start <= start + length <= memory.len()
                    &&& memory.subrange(start, start + length) == id
                },
                (None, None) => true,
                _ => false,
            }
        }),
    decreases notes.len(),
{
    let memory = before + notes_bytes(notes, order);
    let segment = memory.take(size);
    let at = before.len() as int;
    if notes.len() > 0 {
        let note = notes.first();
        let rest = notes.drop_first();
        let after = notes_bytes(rest, order);
        assert(note == notes[0]);
        assert forall|i: int| 0 <= i < rest.len() implies (#[trigger] rest[i]).wf() by {
            assert(rest[i] == notes[i + 1]);
        }
        assert(memory =~= before + note.bytes(order) + after);
        lemma_note(before, note, after, order);
        lemma_note_bytes(note, order);
        assert((before + note.bytes(order)) + after =~= memory);
        if at + 16 <= size {
            lemma_same_note(memory, size, at, order);
            if note.holds_build_id() {
                assert(is_build_id(memory, at, order));
            } else {
                assert(!is_build_id(memory, at, order));
                lemma_build_id_is_found_within(before + note.bytes(order), rest, order, size);
            }
        }
    }
}

/// A note whose header and name lie within a part of the memory is the same in that part.
proof fn lemma_same_note(memory: Seq<u8>, size: int, at: int, order: ByteOrder)
    requires
        0 <= at,
        at + 16 <= size <= memory.len(),
    ensures
        is_build_id(memory.take(size), at, order) == is_build_id(memory, at, order),
        note_size(memory.take(size), at, order) == note_size(memory, at, order),
        description_size(memory.take(size), at, order) == description_size(memory, at, order),
{
    let segment = memory.take(size);
    assert(segment.subrange(at + 12, at + 16) =~= memory.subrange(at + 12, at + 16));
}

/// The first build ID that the notes of a segment hold is found if the header and the name of its
/// note lie within the segment, even if the rest of it lies behind.
pub proof fn law_build_id_is_found_within(notes: Seq<Note>, order: ByteOrder, size: int)
    requires
        forall|i: int| 0 <= i < notes.len() ==> (#[trigger] notes[i]).wf(),
        0 <= size <= notes_bytes(notes, order).len(),
    ensures
        ({
            let memory = notes_bytes(notes, order);
            match (
                first_build_id_within(notes, order, size),
                build_id_from(memory.take(size), 0, order),
            ) {
                (Some(id), Some((start, length))) => {
                    &&& 0 <= start <= start + length <= memory.len()
                    &&& memory.subrange(start, start + length) == id
                },
                (None, None) => true,
                _ => false,
            }
        }),
{
    lemma_build_id_is_found_within(Seq::empty(), notes, order, size);
    assert(Seq::<u8>::empty() + notes_bytes(notes, order) =~= notes_bytes(notes, order));
}

/// A program header of notes has the whole build ID that is the first among them, even if its
/// segment ends behind the name of that note; and its notes can be read.
pub proof fn law_headers_have_their_build_id(
    header: ProgramHeaderView,
    notes: Seq<Note>,
    more: Seq<u8>,
    order: ByteOrder,
)
    requires
        forall|i: int| 0 <= i < notes.len() ==> (#[trigger] notes[i]).wf(),
        header.p_type == 4,
        header.p_memsz <= notes_bytes(notes, order).len(),
        header.memory == notes_bytes(notes, order) + more,
    ensures
        header.readable(order),
        header.build_id(order) == first_build_id_within(notes, order, header.p_memsz as int),
        last_build_id(seq![header], order) == first_build_id_within(
            notes,
            order,
            header.p_memsz as int,
        ),
{
    let memory = notes_bytes(notes, order);
    let size = header.p_memsz as int;
    law_build_id_is_found_within(notes, order, size);
    assert(header.segment() =~= memory.take(size));
    match build_id_from(memory.take(size), 0, order) {
        Some((start, length)) => {
            assert(header.memory.subrange(start, start + length) =~= memory.subrange(
                start,
                start + length,
            ));
        },
        None => {},
    }
    assert(seq![header].drop_last() =~= Seq::empty());
    reveal_with_fuel(last_build_id, 2);
}

/// A segment that holds all of its notes has the first build ID among them.
pub proof fn law_whole_segments_have_the_first_build_id(
    notes: Seq<Note>,
    order: ByteOrder,
    size: int,
)
    requires
        forall|i: int| 0 <= i < notes.len() ==> (#[trigger] notes[i]).wf(),
        size >= notes_bytes(notes, order).len(),
    ensures
        first_build_id_within(notes, order, size) == first_build_id(notes),
    decreases notes.len(),
{
    if notes.len() > 0 {
        let note = notes.first();
        let rest = notes.drop_first();
        assert(note == notes[0]);
        assert forall|i: int| 0 <= i < rest.len() implies (#[trigger] rest[i]).wf() by {
            assert(rest[i] == notes[i + 1]);
        }
        lemma_note_bytes(note, order);
        if size < 16 {
            lemma_small_notes(notes, order);
        } else if !note.holds_build_id() {
            law_whole_segments_have_the_first_build_id(
                rest,
                order,
                size - note.bytes(order).len(),
            );
        }
    }
}

/// Notes of less than sixteen bytes hold no build ID.
proof fn lemma_small_notes(notes: Seq<Note>, order: ByteOrder)
    requires
        forall|i: int| 0 <= i < notes.len() ==> (#[trigger] notes[i]).wf(),
        notes_bytes(notes, order).len() < 16,
    ensures
        first_build_id(notes) is None,
    decreases notes.len(),
{
    if notes.len() > 0 {
        let rest = notes.drop_first();
        assert(notes.first() == notes[0]);
        assert forall|i: int| 0 <= i < rest.len() implies (#[trigger] rest[i]).wf() by {
            assert(rest[i] == notes[i + 1]);
        }
        lemma_note_bytes(notes.first(), order);
        lemma_small_notes(rest, order);
    }
}

/// The last program header that has a build ID counts. Only those of notes have one.
pub proof fn law_last_build_id_counts(
    left: Seq<ProgramHeaderView>,
    right: Seq<ProgramHeaderView>,
    order: ByteOrder,
)
    ensures
        last_build_id(left + right, order) == if last_build_id(right, order) is Some {
            last_build_id(right, order)
        } else {
            last_build_id(left, order)
        },
        (forall|i: int| 0 <= i < right.len() ==> (#[trigger] right[i]).p_type != 4)
            ==> last_build_id(right, order) is None,
    decreases right.len(),
{
    if right.len() == 0 {
        assert(left + right =~= left);
    } else {
        assert((left + right).drop_last() =~= left + right.drop_last());
        law_last_build_id_counts(left, right.drop_last(), order);
        assert(right[right.len() - 1] == right.last());
        if forall|i: int| 0 <= i < right.len() ==> (#[trigger] right[i]).p_type != 4 {
            assert forall|i: int| 0 <= i < right.drop_last().len() implies (
            #[trigger] right.drop_last()[i]).p_type != 4 by {
                assert(right.drop_last()[i] == right[i]);
            }
        }
    }
}

/// The object with some program headers has, as its build ID, the whole description of the first
/// such note in the last segment of notes that holds one.
pub proof fn law_objects_have_their_build_id(
    before: Seq<ProgramHeaderView>,
    header: ProgramHeaderView,
    after: Seq<ProgramHeaderView>,
    notes: Seq<Note>,
    more: Seq<u8>,
    order: ByteOrder,
)
    requires
        forall|i: int| 0 <= i < notes.len() ==> (#[trigger] notes[i]).wf(),
        header.p_type == 4,
        header.p_memsz == notes_bytes(notes, order).len(),
        header.memory == notes_bytes(notes, order) + more,
        first_build_id(notes) is Some,
        last_build_id(after, order) is None,
    ensures
        last_build_id(before + seq![header] + after, order) == first_build_id(notes),
{
    law_headers_have_their_build_id(header, notes, more, order);
    law_whole_segments_have_the_first_build_id(notes, order, header.p_memsz as int);
    law_last_build_id_counts(before, seq![header], order);
    law_last_build_id_counts(before + seq![header], after, order);
}

/// The loaded segments of some program headers follow those of the headers before them.
pub proof fn law_loaded_segments_follow_one_another(
    left: Seq<ProgramHeaderView>,
    right: Seq<ProgramHeaderView>,
)
    ensures
        loaded_segments(left + right) == loaded_segments(left) + loaded_segments(right),
    decreases right.len(),
{
    if right.len() == 0 {
        assert(left + right =~= left);
        assert(loaded_segments(left) + loaded_segments(right) =~= loaded_segments(left));
    } else {
        assert((left + right).drop_last() =~= left + right.drop_last());
        law_loaded_segments_follow_one_another(left, right.drop_last());
        assert(loaded_segments(left + right) =~= loaded_segments(left) + loaded_segments(right));
    }
}

/// A program header describes one loaded segment if its type says so, with its own offsets and its
/// own size, and none otherwise.
pub proof fn law_headers_have_their_segment(header: ProgramHeaderView)
    ensures
        ({
            let segments = loaded_segments(seq![header]);
            &&& segments.len() == if header.p_type == 1 {
                1nat
            } else {
                0
            }
            &&& header.p_type == 1 ==> {
                &&& segments[0].file_offset == header.p_offset
                &&& segments[0].memory_offset == header.p_vaddr
                &&& segments[0].memory_size == header.p_memsz
            }
        }),
        loaded_segments(Seq::empty()) == Seq::<crate::mappings::LoadedSegment>::empty(),
{
    assert(seq![header].drop_last() =~= Seq::empty());
    reveal_with_fuel(loaded_segments, 2);
}

/// Which notes can be read: all of a segment that is large enough for one with a build ID must be
/// in memory, and the build ID too.
pub proof fn law_which_notes_can_be_read(header: ProgramHeaderView, order: ByteOrder)
    ensures
        header.p_memsz < 16 ==> header.readable(order) && header.build_id(order) is None,
        header.p_memsz >= 16 && header.readable(order) ==> header.p_memsz <= header.memory.len(),
        header.p_memsz >= 16 && header.p_memsz <= header.memory.len() ==> (header.readable(order)
            <==> match build_id_from(header.memory.take(header.p_memsz as int), 0, order) {
            Some((start, size)) => start + size <= header.memory.len(),
            None => true,
        }),
{
}

/// The views leave nothing out.
pub proof fn law_views(header: ProgramHeader, headers: Seq<ProgramHeader>)
    ensures
        header@.p_type == header.p_type,
        header@.p_offset == header.p_offset,
        header@.p_vaddr == header.p_vaddr,
        header@.p_memsz == header.p_memsz,
        header@.memory == header.memory@,
        header_views(headers).len() == headers.len(),
        forall|i: int|
            0 <= i < headers.len() ==> #[trigger] header_views(headers)[i] == headers[i]@,
{
}

/// A note can be filled up with zero bytes: its parts then end at their alignment.
pub proof fn law_notes_can_be_filled_up_with_zeros(
    n_type: u32,
    name: Seq<u8>,
    description: Seq<u8>,
    order: ByteOrder,
)
    requires
        name.len() <= u32::MAX,
        description.len() <= u32::MAX,
    ensures
        zero_filled_note(n_type, name, description).wf(),
        zero_filled_note(n_type, name, description).bytes(order) == word_bytes(
            name.len() as int,
            order,
        ) + word_bytes(description.len() as int, order) + word_bytes(n_type as int, order) + padded(
            name,
        ) + padded(description),
{
    reveal(Note::bytes);
    assert(name + zero_padding(name) =~= padded(name));
    assert(description + zero_padding(description) =~= padded(description));
}

} // verus!
