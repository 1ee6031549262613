//! The messages of the pprof format, with the fields that a heap profile sets.

use vstd::prelude::*;

use crate::string_table::texts;

verus! {

/// What a sample counts, and in which unit. Both are indices into the string table.
#[derive(Clone, Copy, Debug, PartialEq, Eq)]
pub struct ValueType {
    pub type_: i64,
    pub unit: i64,
}

/// A piece of information about a sample. Both are indices into the string table.
#[derive(Clone, Copy, Debug, PartialEq, Eq)]
pub struct Label {
    pub key: i64,
    pub str: i64,
}

/// A stack and its value.
#[derive(Debug, PartialEq, Eq)]
pub struct Sample {
    /// The IDs of the locations, the innermost one first.
    pub location_id: Vec<u64>,
    pub value: Vec<i64>,
    pub label: Vec<Label>,
}

/// The values of a [`Sample`].
pub struct SampleView {
    pub location_id: Seq<u64>,
    pub value: Seq<i64>,
    pub label: Seq<Label>,
}

impl View for Sample {
    type V = SampleView;

    open spec fn view(&self) -> SampleView {
        SampleView { location_id: self.location_id@, value: self.value@, label: self.label@ }
    }
}

/// A mapping of a file into memory.
#[derive(Clone, Copy, Debug, PartialEq, Eq)]
pub struct Mapping {
    pub id: u64,
    pub memory_start: u64,
    pub memory_limit: u64,
    pub file_offset: u64,
    /// An index into the string table.
    pub filename: i64,
    /// An index into the string table.
    pub build_id: i64,
}

/// A place in the code.
#[derive(Clone, Copy, Debug, PartialEq, Eq)]
pub struct Location {
    pub id: u64,
    /// The ID of the mapping that holds the address, or zero.
    pub mapping_id: u64,
    pub address: u64,
}

/// A profile.
#[derive(Debug, PartialEq, Eq)]
pub struct Profile {
    pub sample_type: Vec<ValueType>,
    pub sample: Vec<Sample>,
    pub mapping: Vec<Mapping>,
    pub location: Vec<Location>,
    pub string_table: Vec<String>,
    pub time_nanos: i64,
    pub period_type: Option<ValueType>,
    /// Indices into the string table.
    pub comment: Vec<i64>,
}

/// The values of a [`Profile`].
pub struct ProfileView {
    pub sample_type: Seq<ValueType>,
    pub sample: Seq<SampleView>,
    pub mapping: Seq<Mapping>,
    pub location: Seq<Location>,
    pub string_table: Seq<Seq<char>>,
    pub time_nanos: i64,
    pub period_type: Option<ValueType>,
    pub comment: Seq<i64>,
}

/// The values of some samples.
pub open spec fn sample_views(samples: Seq<Sample>) -> Seq<SampleView> {
    samples.map_values(|sample: Sample| sample@)
}

impl View for Profile {
    type V = ProfileView;

    open spec fn view(&self) -> ProfileView {
        ProfileView {
            sample_type: self.sample_type@,
            sample: sample_views(self.sample@),
            mapping: self.mapping@,
            location: self.location@,
            string_table: texts(self.string_table@),
            time_nanos: self.time_nanos,
            period_type: self.period_type,
            comment: self.comment@,
        }
    }
}

/// The views leave nothing out.
pub proof fn law_views(sample: Sample, samples: Seq<Sample>, profile: Profile)
    ensures
        sample@.location_id == sample.location_id@,
        sample@.value == sample.value@,
        sample@.label == sample.label@,
        sample_views(samples).len() == samples.len(),
        forall|i: int|
            0 <= i < samples.len() ==> #[trigger] sample_views(samples)[i] == samples[i]@,
        profile@.sample_type == profile.sample_type@,
        profile@.sample == sample_views(profile.sample@),
        profile@.mapping == profile.mapping@,
        profile@.location == profile.location@,
        profile@.string_table == texts(profile.string_table@),
        profile@.time_nanos == profile.time_nanos,
        profile@.period_type == profile.period_type,
        profile@.comment == profile.comment@,
{
}

} // verus!
