//! The string table of a profile.

use vstd::prelude::*;

use crate::distinct::{
    distinct, lemma_distinct, lemma_distinct_is_all, lemma_distinct_prefix, lemma_distinct_push,
    lemma_position, position,
};

verus! {

/// The texts of some strings.
pub open spec fn texts(strings: Seq<String>) -> Seq<Seq<char>> {
    strings.map_values(|string: String| string@)
}

/// Helper to build the `string_table` of the pprof format, in which every string has an index.
///
/// Viewed as the strings in the order of their indices.
pub struct StringTable {
    strings: Vec<String>,
}

impl View for StringTable {
    type V = Seq<Seq<char>>;

    closed spec fn view(&self) -> Seq<Seq<char>> {
        texts(self.strings@)
    }
}

impl StringTable {
    /// The empty string is at index zero, no string has two indices, and every index is an `i64`.
    pub open spec fn wf(&self) -> bool {
        &&& 0 < self@.len() <= i64::MAX + 1
        &&& self@[0] == Seq::<char>::empty()
        &&& self@.no_duplicates()
    }

    /// A table that holds the empty string, as the format demands of index zero, and nothing
    /// else.
    pub fn new() -> (table: Self)
        ensures
            table.wf(),
            table@ == seq![Seq::<char>::empty()],
    {
        let mut strings: Vec<String> = Vec::new();
        strings.push(String::new());
        let table = StringTable { strings };
        assert(table@ =~= seq![Seq::<char>::empty()]);
        table
    }

    /// The index of `s`, which becomes the last string of the table if it was not yet there.
    pub fn insert(&mut self, s: &str) -> (index: i64)
        requires
            old(self).wf(),
            old(self)@.contains(s@) || old(self)@.len() <= i64::MAX,
        ensures
            final(self).wf(),
            old(self)@.contains(s@) ==> final(self)@ == old(self)@,
            !old(self)@.contains(s@) ==> final(self)@ == old(self)@.push(s@),
            final(self)@ == distinct(old(self)@.push(s@)),
            0 <= index < final(self)@.len(),
            final(self)@[index as int] == s@,
            index == position(final(self)@, s@),
            !old(self)@.contains(s@) ==> index == old(self)@.len(),
    {
        let owned: String = s.to_owned();
        let mut i: usize = 0;
        while i < self.strings.len()
            invariant
                i <= self.strings@.len(),
                *self == *old(self),
                owned@ == s@,
                self.wf(),
                forall|j: int| 0 <= j < i ==> self@[j] != s@,
            decreases self.strings@.len() - i,
        {
            assert(self@[i as int] == self.strings@[i as int]@);
            if self.strings[i] == owned {
                assert(self@.contains(s@));
                proof {
                    lemma_distinct_is_all(self@);
                    lemma_distinct_push(self@, s@);
                }
                return i as i64;
            }
            i += 1;
        }
        assert(!self@.contains(s@));
        proof {
            lemma_distinct_is_all(self@);
            lemma_distinct_push(self@, s@);
        }
        let index: i64 = i as i64;
        let ghost before = self@;
        self.strings.push(owned);
        assert(self@ =~= before.push(s@));
        index
    }

    /// The strings of the table, each at its index.
    pub fn finish(self) -> (strings: Vec<String>)
        ensures
            texts(strings@) == self@,
    {
        self.strings
    }
}

/// The strings of a new table after some insertions, one after the other.
pub open spec fn table_after(insertions: Seq<Seq<char>>) -> Seq<Seq<char>>
    decreases insertions.len(),
{
    if insertions.len() == 0 {
        seq![Seq::<char>::empty()]
    } else {
        distinct(table_after(insertions.drop_last()).push(insertions.last()))
    }
}

/// The index that one of some insertions returns.
pub open spec fn insertion_index(insertions: Seq<Seq<char>>, which: int) -> int {
    position(table_after(insertions.take(which + 1)), insertions[which])
}

/// A table lists the empty string and the inserted ones in the order in which they first occur,
/// each of them once.
proof fn lemma_table(insertions: Seq<Seq<char>>)
    ensures
        table_after(insertions) == distinct(seq![Seq::<char>::empty()] + insertions),
    decreases insertions.len(),
{
    let first = seq![Seq::<char>::empty()];
    if insertions.len() == 0 {
        assert(first.no_duplicates());
        lemma_distinct_is_all(first);
        assert(first + insertions =~= first);
    } else {
        let before = insertions.drop_last();
        let last = insertions.last();
        lemma_table(before);
        lemma_distinct(first + before);
        lemma_distinct_is_all(table_after(before));
        lemma_distinct_push(table_after(before), last);
        lemma_distinct_push(first + before, last);
        assert((first + before).push(last) =~= first + insertions);
    }
}

/// After any insertions, the empty string is at index zero, no string has two indices, and the
/// strings are the empty one and the inserted ones, and nothing else. They are in the order in
/// which they first occur.
pub proof fn law_table_after_insertions(insertions: Seq<Seq<char>>)
    ensures
        table_after(insertions) == distinct(seq![Seq::<char>::empty()] + insertions),
        table_after(insertions).len() > 0,
        table_after(insertions)[0] == Seq::<char>::empty(),
        table_after(insertions).no_duplicates(),
        forall|string: Seq<char>| #[trigger]
            table_after(insertions).contains(string) <==> string == Seq::<char>::empty()
                || insertions.contains(string),
    decreases insertions.len(),
{
    let none = Seq::<char>::empty();
    let all = seq![none] + insertions;
    lemma_table(insertions);
    lemma_distinct(all);
    if insertions.len() > 0 {
        let before = insertions.drop_last();
        law_table_after_insertions(before);
        lemma_distinct_is_all(table_after(before));
        lemma_distinct_push(table_after(before), insertions.last());
    }
    assert forall|string: Seq<char>| #[trigger]
        table_after(insertions).contains(string) <==> string == none || insertions.contains(
            string,
        ) by {
        if insertions.contains(string) {
            let i = choose|i: int| 0 <= i < insertions.len() && insertions[i] == string;
            assert(all[i + 1] == string);
        }
        if string == none {
            assert(all[0] == string);
        }
        if all.contains(string) {
            let i = choose|i: int| 0 <= i < all.len() && all[i] == string;
            assert(i > 0 ==> insertions[i - 1] == string);
        }
    }
}

/// What is inserted later leaves the strings of a table at their indices.
proof fn lemma_table_grows(insertions: Seq<Seq<char>>, count: int)
    requires
        0 <= count <= insertions.len(),
    ensures
        table_after(insertions.take(count)).is_prefix_of(table_after(insertions)),
{
    let none = seq![Seq::<char>::empty()];
    lemma_table(insertions);
    lemma_table(insertions.take(count));
    assert((none + insertions.take(count)).is_prefix_of(none + insertions));
    lemma_distinct_prefix(none + insertions.take(count), none + insertions);
}

/// The index that an insertion returns is that of its string in the table, then and after all
/// later insertions.
pub proof fn law_indices_read_their_string_back(insertions: Seq<Seq<char>>, which: int)
    requires
        0 <= which < insertions.len(),
    ensures
        ({
            let index = insertion_index(insertions, which);
            &&& 0 <= index < table_after(insertions.take(which + 1)).len()
            &&& table_after(insertions.take(which + 1))[index] == insertions[which]
            &&& 0 <= index < table_after(insertions).len()
            &&& table_after(insertions)[index] == insertions[which]
            &&& index == position(table_after(insertions), insertions[which])
        }),
{
    let none = seq![Seq::<char>::empty()];
    let then = insertions.take(which + 1);
    law_table_after_insertions(then);
    assert(then[which] == insertions[which]);
    assert(then.contains(insertions[which]));
    assert(table_after(then).contains(insertions[which]));
    lemma_table_grows(insertions, which + 1);
    lemma_table(insertions);
    assert((none + then).is_prefix_of(none + insertions));
    lemma_position(none + then, none + insertions, insertion_index(insertions, which));
}

/// A string that is there returns the index that it has, and leaves the table as it is. Another
/// one becomes the last string, at the index behind the others.
pub proof fn law_insertion(insertions: Seq<Seq<char>>, string: Seq<char>)
    ensures
        ({
            let before = table_after(insertions);
            let after = table_after(insertions.push(string));
            let index = insertion_index(insertions.push(string), insertions.len() as int);
            if before.contains(string) {
                after == before && index == position(before, string)
            } else {
                after == before.push(string) && index == before.len()
            }
        }),
{
    let more = insertions.push(string);
    let before = table_after(insertions);
    law_table_after_insertions(insertions);
    law_table_after_insertions(more);
    lemma_distinct_is_all(before);
    lemma_distinct_push(before, string);
    assert(more.drop_last() =~= insertions);
    assert(more.take((insertions.len() + 1) as int) =~= more);
    if !before.contains(string) {
        law_indices_read_their_string_back(more, insertions.len() as int);
        let after = table_after(more);
        let index = insertion_index(more, insertions.len() as int);
        assert(after[before.len() as int] == string);
        assert(after[index] == string);
    }
}

/// Two insertions return the same index if and only if their strings are the same.
pub proof fn law_indices_tell_strings_apart(insertions: Seq<Seq<char>>, left: int, right: int)
    requires
        0 <= left < insertions.len(),
        0 <= right < insertions.len(),
    ensures
        insertion_index(insertions, left) == insertion_index(insertions, right)
            <==> insertions[left] == insertions[right],
{
    law_indices_read_their_string_back(insertions, left);
    law_indices_read_their_string_back(insertions, right);
}

/// The texts of some strings leave nothing out.
pub proof fn law_texts(strings: Seq<String>, index: int)
    requires
        0 <= index < strings.len(),
    ensures
        texts(strings).len() == strings.len(),
        texts(strings)[index] == strings[index]@,
{
}

} // verus!
