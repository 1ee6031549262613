//! The memory mappings of a process: where its executable and its shared libraries are loaded.

use vstd::prelude::*;

use crate::hex::{bytes_to_hex, hex_bytes};

verus! {

/// Build ID of a shared object.
#[derive(Debug, PartialEq, Eq, PartialOrd, Ord)]
pub struct BuildId(pub Vec<u8>);

impl View for BuildId {
    type V = Seq<u8>;

    open spec fn view(&self) -> Seq<u8> {
        self.0@
    }
}

/// The bytes of an optional build ID.
pub open spec fn build_id_bytes(build_id: Option<BuildId>) -> Option<Seq<u8>> {
    match build_id {
        Some(build_id) => Some(build_id@),
        None => None,
    }
}

/// A copy of some bytes.
pub(crate) fn copy_bytes(bytes: &Vec<u8>) -> (copy: Vec<u8>)
    ensures
        copy@ == bytes@,
{
    let copy: Vec<u8> = bytes.clone();
    assert(copy@ =~= bytes@);
    copy
}

impl Clone for BuildId {
    fn clone(&self) -> (copy: Self)
        ensures
            copy@ == self@,
    {
        BuildId(copy_bytes(&self.0))
    }
}

impl BuildId {
    /// The build ID as text: two hexadecimal digits for each byte.
    pub fn to_text(&self) -> (text: String)
        ensures
            text@ == hex_bytes(self@),
    {
        bytes_to_hex(self.0.as_slice())
    }
}

/// Information about a shared object loaded into the current process.
#[derive(Debug, PartialEq, Eq, PartialOrd, Ord)]
pub struct SharedObject {
    /// The address at which the object is loaded.
    pub base_address: usize,
    /// The path of that file the object was loaded from, byte by byte.
    pub path_name: Vec<u8>,
    /// The build ID of the object, if found.
    pub build_id: Option<BuildId>,
    /// Loaded segments of the object.
    pub loaded_segments: Vec<LoadedSegment>,
}

/// A segment of a shared object that's loaded into memory.
#[derive(Clone, Copy, Debug, PartialEq, Eq, PartialOrd, Ord)]
pub struct LoadedSegment {
    /// Offset of the segment in the source file.
    pub file_offset: u64,
    /// Offset to the `SharedObject`'s `base_address`.
    pub memory_offset: usize,
    /// Size of the segment in memory.
    pub memory_size: usize,
}

/// The values of a [`SharedObject`].
pub struct SharedObjectView {
    pub base_address: usize,
    pub path_name: Seq<u8>,
    pub build_id: Option<Seq<u8>>,
    pub loaded_segments: Seq<LoadedSegment>,
}

impl View for SharedObject {
    type V = SharedObjectView;

    open spec fn view(&self) -> SharedObjectView {
        SharedObjectView {
            base_address: self.base_address,
            path_name: self.path_name@,
            build_id: build_id_bytes(self.build_id),
            loaded_segments: self.loaded_segments@,
        }
    }
}

/// A part of memory into which a part of a file is mapped.
#[derive(Debug, PartialEq, Eq)]
pub struct Mapping {
    /// The first address of the mapping.
    pub memory_start: usize,
    /// The address behind the last one of the mapping.
    pub memory_end: usize,
    /// Offset of the mapping to the base address of its shared object.
    pub memory_offset: usize,
    /// Offset of the mapping in the file.
    pub file_offset: u64,
    /// The path of the file, byte by byte.
    pub pathname: Vec<u8>,
    /// The build ID of the file, if found.
    pub build_id: Option<BuildId>,
}

/// The values of a [`Mapping`].
pub struct MappingView {
    pub memory_start: usize,
    pub memory_end: usize,
    pub memory_offset: usize,
    pub file_offset: u64,
    pub pathname: Seq<u8>,
    pub build_id: Option<Seq<u8>>,
}

impl View for Mapping {
    type V = MappingView;

    open spec fn view(&self) -> MappingView {
        MappingView {
            memory_start: self.memory_start,
            memory_end: self.memory_end,
            memory_offset: self.memory_offset,
            file_offset: self.file_offset,
            pathname: self.pathname@,
            build_id: build_id_bytes(self.build_id),
        }
    }
}

/// A copy of an optional build ID.
fn copy_build_id(build_id: &Option<BuildId>) -> (copy: Option<BuildId>)
    ensures
        build_id_bytes(copy) == build_id_bytes(*build_id),
{
    match build_id {
        Some(build_id) => Some(build_id.clone()),
        None => None,
    }
}

impl Clone for SharedObject {
    fn clone(&self) -> (copy: Self)
        ensures
            copy@ == self@,
    {
        let loaded_segments: Vec<LoadedSegment> = self.loaded_segments.clone();
        assert(loaded_segments@ =~= self.loaded_segments@);
        SharedObject {
            base_address: self.base_address,
            path_name: copy_bytes(&self.path_name),
            build_id: copy_build_id(&self.build_id),
            loaded_segments,
        }
    }
}

impl Clone for Mapping {
    fn clone(&self) -> (copy: Self)
        ensures
            copy@ == self@,
    {
        Mapping {
            memory_start: self.memory_start,
            memory_end: self.memory_end,
            memory_offset: self.memory_offset,
            file_offset: self.file_offset,
            pathname: copy_bytes(&self.pathname),
            build_id: copy_build_id(&self.build_id),
        }
    }
}

/// The values of some mappings.
pub open spec fn mapping_views(mappings: Seq<Mapping>) -> Seq<MappingView> {
    mappings.map_values(|mapping: Mapping| mapping@)
}

/// The values of some shared objects.
pub open spec fn object_views(objects: Seq<SharedObject>) -> Seq<SharedObjectView> {
    objects.map_values(|object: SharedObject| object@)
}

/// The address at an offset to another one. The offset may stand for a negative number, so the
/// sum wraps around.
pub open spec fn address_at(base_address: usize, offset: usize) -> int {
    let sum = base_address + offset;
    if sum > usize::MAX {
        sum - usize::MAX - 1
    } else {
        sum
    }
}

/// The offset of an address to another one. It may stand for a negative number, so the difference
/// wraps around.
pub open spec fn offset_to(base_address: int, address: int) -> int {
    if address < base_address {
        address - base_address + usize::MAX + 1
    } else {
        address - base_address
    }
}

/// The address at the offset of an address is that address.
pub proof fn law_offsets_lead_to_their_address(base_address: usize, address: usize)
    ensures
        0 <= offset_to(base_address as int, address as int) <= usize::MAX,
        address_at(
            base_address,
            offset_to(base_address as int, address as int) as usize,
        ) == address,
{
}

/// The first address of a segment of an object.
pub open spec fn segment_start(object: SharedObjectView, segment: LoadedSegment) -> int {
    address_at(object.base_address, segment.memory_offset)
}

/// The mapping of a segment of an object.
pub open spec fn segment_mapping(object: SharedObjectView, segment: LoadedSegment) -> MappingView {
    MappingView {
        memory_start: segment_start(object, segment) as usize,
        memory_end: (segment_start(object, segment) + segment.memory_size) as usize,
        memory_offset: segment.memory_offset,
        file_offset: segment.file_offset,
        pathname: object.path_name,
        build_id: object.build_id,
    }
}

/// The mappings of the segments of an object.
pub open spec fn object_mappings(object: SharedObjectView) -> Seq<MappingView> {
    object.loaded_segments.map_values(|segment: LoadedSegment| segment_mapping(object, segment))
}

/// The mappings of the segments of some objects, object after object.
pub open spec fn all_mappings(objects: Seq<SharedObjectView>) -> Seq<MappingView>
    decreases objects.len(),
{
    if objects.len() == 0 {
        Seq::empty()
    } else {
        all_mappings(objects.drop_last()) + object_mappings(objects.last())
    }
}

/// Whether a segment of an object ends at an address.
pub open spec fn segment_fits(object: SharedObjectView, segment: LoadedSegment) -> bool {
    segment_start(object, segment) + segment.memory_size <= usize::MAX
}

/// Whether every segment of every object ends at an address.
pub open spec fn segments_fit(objects: Seq<SharedObjectView>) -> bool {
    forall|i: int, j: int|
        0 <= i < objects.len() && 0 <= j < objects[i].loaded_segments.len() ==> segment_fits(
            objects[i],
            #[trigger] objects[i].loaded_segments[j],
        )
}

/// Whether every segment ends at an address, as [`build_mappings`] needs it.
pub fn check_segments(objects: &[SharedObject]) -> (fit: bool)
    ensures
        fit == segments_fit(object_views(objects@)),
{
    let mut i: usize = 0;
    while i < objects.len()
        invariant
            i <= objects@.len(),
            segments_fit(object_views(objects@).take(i as int)),
        decreases objects@.len() - i,
    {
        let object = &objects[i];
        let ghost views = object_views(objects@);
        let mut j: usize = 0;
        while j < object.loaded_segments.len()
            invariant
                i < objects@.len(),
                j <= object.loaded_segments@.len(),
                views == object_views(objects@),
                *object == objects@[i as int],
                forall|k: int|
                    0 <= k < j ==> segment_fits(object@, #[trigger] object.loaded_segments@[k]),
            decreases object.loaded_segments@.len() - j,
        {
            let segment: LoadedSegment = object.loaded_segments[j];
            let start: usize = object.base_address.wrapping_add(segment.memory_offset);
            if start > usize::MAX - segment.memory_size {
                assert(views[i as int].loaded_segments[j as int] == segment);
                return false;
            }
            j += 1;
        }
        assert forall|a: int, b: int|
            0 <= a < i + 1 && 0 <= b < views[a].loaded_segments.len() implies segment_fits(
            views.take(i + 1)[a],
            #[trigger] views.take(i + 1)[a].loaded_segments[b],
        ) by {
            if a < i {
                assert(views.take(i as int)[a] == views[a]);
                assert(segment_fits(
                    views.take(i as int)[a],
                    views.take(i as int)[a].loaded_segments[b],
                ));
            } else {
                assert(object.loaded_segments@[b] == views[a].loaded_segments[b]);
            }
        }
        i += 1;
    }
    assert(object_views(objects@).take(i as int) =~= object_views(objects@));
    true
}

/// Build a list of mappings for the passed shared objects.
pub fn build_mappings(objects: &[SharedObject]) -> (mappings: Vec<Mapping>)
    requires
        segments_fit(object_views(objects@)),
    ensures
        mapping_views(mappings@) == all_mappings(object_views(objects@)),
{
    let mut mappings: Vec<Mapping> = Vec::new();
    let ghost views = object_views(objects@);
    let mut i: usize = 0;
    assert(views.take(0) =~= Seq::empty());
    assert(mapping_views(mappings@) =~= Seq::empty());
    while i < objects.len()
        invariant
            i <= objects@.len(),
            views == object_views(objects@),
            segments_fit(views),
            mapping_views(mappings@) == all_mappings(views.take(i as int)),
        decreases objects@.len() - i,
    {
        let object = &objects[i];
        let ghost before = all_mappings(views.take(i as int));
        let ghost own = object_mappings(object@);
        let mut j: usize = 0;
        assert(own.take(0) =~= Seq::empty());
        assert(before + own.take(0) =~= before);
        while j < object.loaded_segments.len()
            invariant
                i < objects@.len(),
                *object == objects@[i as int],
                views == object_views(objects@),
                segments_fit(views),
                j <= object.loaded_segments@.len(),
                own == object_mappings(object@),
                mapping_views(mappings@) == before + own.take(j as int),
            decreases object.loaded_segments@.len() - j,
        {
            let segment: LoadedSegment = object.loaded_segments[j];
            let start: usize = object.base_address.wrapping_add(segment.memory_offset);
            assert(segment_fits(views[i as int], views[i as int].loaded_segments[j as int]));
            let ghost previous = mapping_views(mappings@);
            let mapping = Mapping {
                memory_start: start,
                memory_end: start + segment.memory_size,
                memory_offset: segment.memory_offset,
                file_offset: segment.file_offset,
                pathname: copy_bytes(&object.path_name),
                build_id: copy_build_id(&object.build_id),
            };
            assert(mapping@ == own[j as int]);
            mappings.push(mapping);
            assert(mapping_views(mappings@) =~= previous.push(mapping@));
            assert(own.take(j + 1) =~= own.take(j as int).push(own[j as int]));
            assert(before + own.take(j + 1) =~= (before + own.take(j as int)).push(
                own[j as int],
            ));
            j += 1;
        }
        assert(own.take(j as int) =~= own);
        assert(views.take(i + 1).drop_last() =~= views.take(i as int));
        i += 1;
    }
    assert(views.take(i as int) =~= views);
    mappings
}

/// The number of segments of some objects.
pub open spec fn segment_count(objects: Seq<SharedObjectView>) -> nat
    decreases objects.len(),
{
    if objects.len() == 0 {
        0
    } else {
        segment_count(objects.drop_last()) + objects.last().loaded_segments.len()
    }
}

/// There is one mapping for each loaded segment, in their order.
pub proof fn law_every_segment_is_mapped(
    objects: Seq<SharedObjectView>,
    index: int,
    segment: int,
)
    requires
        0 <= index < objects.len(),
        0 <= segment < objects[index].loaded_segments.len(),
    ensures
        all_mappings(objects).len() == segment_count(objects),
        segment_count(objects.take(index)) + segment < segment_count(objects),
        all_mappings(objects)[segment_count(objects.take(index)) + segment] == segment_mapping(
            objects[index],
            objects[index].loaded_segments[segment],
        ),
    decreases objects.len(),
{
    let before = objects.drop_last();
    lemma_mapping_count(before);
    if index < before.len() {
        law_every_segment_is_mapped(before, index, segment);
        assert(before.take(index) =~= objects.take(index));
    } else {
        assert(objects.take(index) =~= before);
    }
}

/// The mapping of a loaded segment starts at the segment's offset to the object, wrapping around,
/// and is as long as the segment. Its offsets are those of the segment, its path and its build ID
/// those of the object.
pub proof fn law_mappings_are_those_of_their_segments(
    objects: Seq<SharedObjectView>,
    index: int,
    segment: int,
)
    requires
        segments_fit(objects),
        0 <= index < objects.len(),
        0 <= segment < objects[index].loaded_segments.len(),
    ensures
        ({
            let mapping = all_mappings(objects)[segment_count(objects.take(index)) + segment];
            let object = objects[index];
            let loaded = object.loaded_segments[segment];
            &&& all_mappings(objects).len() == segment_count(objects)
            &&& segment_count(objects.take(index)) + segment < segment_count(objects)
            &&& mapping.memory_start == address_at(object.base_address, loaded.memory_offset)
            &&& mapping.memory_end - mapping.memory_start == loaded.memory_size
            &&& mapping.memory_offset == loaded.memory_offset
            &&& mapping.file_offset == loaded.file_offset
            &&& mapping.pathname == object.path_name
            &&& mapping.build_id == object.build_id
        }),
{
    law_every_segment_is_mapped(objects, index, segment);
    assert(segment_fits(objects[index], objects[index].loaded_segments[segment]));
}

/// The mappings of some objects follow those of the objects before them.
pub proof fn law_mappings_follow_one_another(
    left: Seq<SharedObjectView>,
    right: Seq<SharedObjectView>,
)
    ensures
        all_mappings(left + right) == all_mappings(left) + all_mappings(right),
        segment_count(left + right) == segment_count(left) + segment_count(right),
    decreases right.len(),
{
    if right.len() == 0 {
        assert(left + right =~= left);
        assert(all_mappings(left) + all_mappings(right) =~= all_mappings(left));
    } else {
        assert((left + right).drop_last() =~= left + right.drop_last());
        law_mappings_follow_one_another(left, right.drop_last());
        assert(all_mappings(left + right) =~= all_mappings(left) + all_mappings(right));
    }
}

/// The number of segments of an object alone is that of its list.
pub proof fn law_segments_of_one_object(object: SharedObjectView)
    ensures
        segment_count(seq![object]) == object.loaded_segments.len(),
        segment_count(Seq::empty()) == 0,
{
    assert(seq![object].drop_last() =~= Seq::empty());
    reveal_with_fuel(segment_count, 2);
}

/// The address at an offset is the sum of both, modulo the number of addresses.
pub proof fn law_addresses_wrap_around(base_address: usize, offset: usize)
    ensures
        0 <= address_at(base_address, offset) <= usize::MAX,
        address_at(base_address, offset) == base_address + offset || address_at(
            base_address,
            offset,
        ) == base_address + offset - usize::MAX - 1,
{
}

/// The segments fit if and only if each of them ends at an address.
pub proof fn law_which_segments_fit(objects: Seq<SharedObjectView>)
    ensures
        segments_fit(objects) <==> forall|i: int, j: int|
            0 <= i < objects.len() && 0 <= j < objects[i].loaded_segments.len() ==> {
                let segment = #[trigger] objects[i].loaded_segments[j];
                address_at(objects[i].base_address, segment.memory_offset) + segment.memory_size
                    <= usize::MAX
            },
{
    if segments_fit(objects) {
        assert forall|i: int, j: int|
            0 <= i < objects.len() && 0 <= j < objects[i].loaded_segments.len() implies {
            let segment = #[trigger] objects[i].loaded_segments[j];
            address_at(objects[i].base_address, segment.memory_offset) + segment.memory_size
                <= usize::MAX
        } by {
            assert(segment_fits(objects[i], objects[i].loaded_segments[j]));
        }
    }
}

/// The views leave nothing out.
pub proof fn law_views(
    build_id: BuildId,
    object: SharedObject,
    mapping: Mapping,
    objects: Seq<SharedObject>,
    mappings: Seq<Mapping>,
)
    ensures
        build_id@ == build_id.0@,
        object@.base_address == object.base_address,
        object@.path_name == object.path_name@,
        object@.loaded_segments == object.loaded_segments@,
        object@.build_id == match object.build_id {
            Some(id) => Some(id.0@),
            None => None,
        },
        mapping@.memory_start == mapping.memory_start,
        mapping@.memory_end == mapping.memory_end,
        mapping@.memory_offset == mapping.memory_offset,
        mapping@.file_offset == mapping.file_offset,
        mapping@.pathname == mapping.pathname@,
        mapping@.build_id == match mapping.build_id {
            Some(id) => Some(id.0@),
            None => None,
        },
        object_views(objects).len() == objects.len(),
        forall|i: int|
            0 <= i < objects.len() ==> #[trigger] object_views(objects)[i] == objects[i]@,
        mapping_views(mappings).len() == mappings.len(),
        forall|i: int|
            0 <= i < mappings.len() ==> #[trigger] mapping_views(mappings)[i] == mappings[i]@,
{
}

/// There are as many mappings as segments.
proof fn lemma_mapping_count(objects: Seq<SharedObjectView>)
    ensures
        all_mappings(objects).len() == segment_count(objects),
    decreases objects.len(),
{
    if objects.len() > 0 {
        lemma_mapping_count(objects.drop_last());
    }
}

} // verus!
