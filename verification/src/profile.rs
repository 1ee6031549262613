//! Stacks with their weights, as they are collected into a profile.

use vstd::prelude::*;

use crate::double::Double;
use crate::mappings::{mapping_views, Mapping, MappingView};
use crate::string_table::texts;

verus! {

/// A single sample in the profile. The stack is a list of addresses.
#[derive(Debug)]
pub struct WeightedStack {
    pub addrs: Vec<usize>,
    pub weight: Double,
}

/// The values of a [`WeightedStack`].
pub struct StackView {
    pub addrs: Seq<usize>,
    pub weight: Double,
}

impl View for WeightedStack {
    type V = StackView;

    open spec fn view(&self) -> StackView {
        StackView { addrs: self.addrs@, weight: self.weight }
    }
}

impl Clone for WeightedStack {
    fn clone(&self) -> (copy: Self)
        ensures
            copy@ == self@,
    {
        let addrs: Vec<usize> = self.addrs.clone();
        assert(addrs@ =~= self.addrs@);
        WeightedStack { addrs, weight: self.weight }
    }
}

/// A minimal representation of a profile that can be parsed from the jemalloc heap profile.
pub struct StackProfile {
    pub annotations: Vec<String>,
    // The second element is the index in `annotations`, if one exists.
    pub stacks: Vec<(WeightedStack, Option<usize>)>,
    pub mappings: Vec<Mapping>,
}

/// The values of a [`StackProfile`].
pub struct StackProfileView {
    pub annotations: Seq<Seq<char>>,
    pub stacks: Seq<(StackView, Option<usize>)>,
    pub mappings: Seq<MappingView>,
}

impl View for StackProfile {
    type V = StackProfileView;

    open spec fn view(&self) -> StackProfileView {
        StackProfileView {
            annotations: texts(self.annotations@),
            stacks: self.stacks@.map_values(
                |stack: (WeightedStack, Option<usize>)| (stack.0@, stack.1),
            ),
            mappings: mapping_views(self.mappings@),
        }
    }
}

impl StackProfileView {
    /// Every index of an annotation is that of one.
    pub open spec fn wf(self) -> bool {
        forall|i: int|
            0 <= i < self.stacks.len() ==> ((#[trigger] self.stacks[i]).1 matches Some(index)
                ==> index < self.annotations.len())
    }

    /// The annotation at an optional index.
    pub open spec fn annotation(self, index: Option<usize>) -> Option<Seq<char>> {
        match index {
            Some(index) => Some(self.annotations[index as int]),
            None => None,
        }
    }

    /// The stacks, each with its annotation.
    pub open spec fn entries(self) -> Seq<(StackView, Option<Seq<char>>)> {
        self.stacks.map_values(
            |stack: (StackView, Option<usize>)| (stack.0, self.annotation(stack.1)),
        )
    }
}

/// The text of an optional string.
pub open spec fn optional_text(text: Option<&str>) -> Option<Seq<char>> {
    match text {
        Some(text) => Some(text@),
        None => None,
    }
}

impl Default for StackProfile {
    fn default() -> (profile: Self)
        ensures
            profile@.annotations == Seq::<Seq<char>>::empty(),
            profile@.stacks == Seq::<(StackView, Option<usize>)>::empty(),
            profile@.mappings == Seq::<MappingView>::empty(),
    {
        let profile = StackProfile {
            annotations: Vec::new(),
            stacks: Vec::new(),
            mappings: Vec::new(),
        };
        assert(profile@.annotations =~= Seq::<Seq<char>>::empty());
        assert(profile@.stacks =~= Seq::<(StackView, Option<usize>)>::empty());
        assert(profile@.mappings =~= Seq::<MappingView>::empty());
        profile
    }
}

/// Walks over the stacks of a profile.
pub struct StackProfileIter<'a> {
    inner: &'a StackProfile,
    idx: usize,
}

impl<'a> StackProfileIter<'a> {
    /// The profile that is walked over.
    pub closed spec fn profile(self) -> StackProfile {
        *self.inner
    }

    /// The number of stacks that were handed out.
    pub closed spec fn position(self) -> nat {
        self.idx as nat
    }

    /// The next stack and its annotation, or `None` behind the last one.
    pub fn next(&mut self) -> (item: Option<(&'a WeightedStack, Option<&'a str>)>)
        requires
            old(self).position() < old(self).profile()@.stacks.len() ==> (old(
                self,
            ).profile()@.stacks[old(self).position() as int].1 matches Some(index) ==> index < old(
                self,
            ).profile()@.annotations.len()),
        ensures
            final(self).profile() == old(self).profile(),
            match item {
                Some((stack, annotation)) => {
                    &&& old(self).position() < old(self).profile()@.stacks.len()
                    &&& final(self).position() == old(self).position() + 1
                    &&& (stack@, optional_text(annotation)) == old(self).profile()@.entries()[old(
                        self,
                    ).position() as int]
                },
                None => {
                    &&& old(self).position() >= old(self).profile()@.stacks.len()
                    &&& final(self).position() == old(self).position()
                },
            },
    {
        if self.idx >= self.inner.stacks.len() {
            return None;
        }
        let idx: usize = self.idx;
        let inner = self.inner;
        let entry = &inner.stacks[idx];
        self.idx = idx + 1;
        assert(inner@.stacks[idx as int] == (entry.0@, entry.1));
        let annotation: Option<&'a str> = match entry.1 {
            Some(index) => Some(inner.annotations[index].as_str()),
            None => None,
        };
        Some((&entry.0, annotation))
    }
}

impl StackProfile {
    /// Adds a stack behind the others. An annotation that is not yet among those of the profile
    /// is added to them.
    pub fn push_stack(&mut self, stack: WeightedStack, annotation: Option<&str>)
        ensures
            final(self)@.mappings == old(self)@.mappings,
            ({
                let index = final(self)@.stacks.last().1;
                &&& final(self)@.stacks == old(self)@.stacks.push((stack@, index))
                &&& match optional_text(annotation) {
                    Some(text) => {
                        &&& index matches Some(index)
                        &&& index < final(self)@.annotations.len()
                        &&& final(self)@.annotations[index as int] == text
                        &&& forall|i: int| 0 <= i < index ==> final(self)@.annotations[i] != text
                        &&& final(self)@.annotations == if old(self)@.annotations.contains(text) {
                            old(self)@.annotations
                        } else {
                            old(self)@.annotations.push(text)
                        }
                    },
                    None => index is None && final(self)@.annotations == old(self)@.annotations,
                }
            }),
            old(self)@.wf() ==> final(self)@.wf() && final(self)@.entries() == old(
                self,
            )@.entries().push((stack@, optional_text(annotation))),
    {
        let ghost before = self@;
        let index: Option<usize> = match annotation {
            Some(annotation) => Some(self.annotation_index(annotation)),
            None => None,
        };
        let ghost view = stack@;
        self.stacks.push((stack, index));
        proof {
            assert(self@.stacks =~= before.stacks.push((view, index)));
            if before.wf() {
                assert forall|i: int| 0 <= i < self@.stacks.len() implies ((
                #[trigger] self@.stacks[i]).1 matches Some(index) ==> index
                    < self@.annotations.len()) by {
                    if i < before.stacks.len() {
                        assert(self@.stacks[i] == before.stacks[i]);
                    }
                }
                assert(self@.entries() =~= before.entries().push(
                    (view, optional_text(annotation)),
                ));
            }
        }
    }

    /// The first index of an annotation, which is added if it is missing.
    fn annotation_index(&mut self, annotation: &str) -> (index: usize)
        ensures
            final(self)@.stacks == old(self)@.stacks,
            final(self)@.mappings == old(self)@.mappings,
            index < final(self)@.annotations.len(),
            final(self)@.annotations[index as int] == annotation@,
            forall|i: int| 0 <= i < index ==> final(self)@.annotations[i] != annotation@,
            final(self)@.annotations == if old(self)@.annotations.contains(annotation@) {
                old(self)@.annotations
            } else {
                old(self)@.annotations.push(annotation@)
            },
    {
        let owned: String = annotation.to_owned();
        let mut i: usize = 0;
        while i < self.annotations.len()
            invariant
                *self == *old(self),
                owned@ == annotation@,
                i <= self.annotations@.len(),
                forall|j: int| 0 <= j < i ==> self@.annotations[j] != annotation@,
            decreases self.annotations@.len() - i,
        {
            assert(self@.annotations[i as int] == self.annotations@[i as int]@);
            if self.annotations[i] == owned {
                return i;
            }
            i += 1;
        }
        let ghost before = self@.annotations;
        self.annotations.push(owned);
        assert(self@.annotations =~= before.push(annotation@));
        i
    }

    /// Adds a mapping behind the others.
    pub fn push_mapping(&mut self, mapping: Mapping)
        ensures
            final(self)@.annotations == old(self)@.annotations,
            final(self)@.stacks == old(self)@.stacks,
            final(self)@.mappings == old(self)@.mappings.push(mapping@),
    {
        let ghost before = self@.mappings;
        let ghost view = mapping@;
        self.mappings.push(mapping);
        assert(self@.mappings =~= before.push(view));
    }

    /// Walks over the stacks, from the first one on.
    pub fn iter(&self) -> (iter: StackProfileIter<'_>)
        ensures
            iter.profile() == *self,
            iter.position() == 0,
    {
        StackProfileIter { inner: self, idx: 0 }
    }
}

/// The views leave nothing out, and every stack has the annotation at its index.
pub proof fn law_views(stack: WeightedStack, profile: StackProfile, text: Option<&str>, index: int)
    requires
        0 <= index < profile.stacks@.len(),
    ensures
        stack@.addrs == stack.addrs@,
        stack@.weight == stack.weight,
        profile@.stacks.len() == profile.stacks@.len(),
        profile@.stacks[index] == (profile.stacks@[index].0@, profile.stacks@[index].1),
        profile@.annotations == texts(profile.annotations@),
        profile@.mappings == mapping_views(profile.mappings@),
        profile@.entries().len() == profile.stacks@.len(),
        profile@.entries()[index] == (
            profile.stacks@[index].0@,
            match profile.stacks@[index].1 {
                Some(annotation) => Some(profile@.annotations[annotation as int]),
                None => None,
            },
        ),
        optional_text(text) == match text {
            Some(text) => Some(text@),
            None => None,
        },
{
}

} // verus!
