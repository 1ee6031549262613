//! Sequences without their repetitions, in the order of first occurrence.

use vstd::prelude::*;

verus! {

/// The items of `items` in the order in which they first occur, each of them once.
pub open spec fn distinct<A>(items: Seq<A>) -> Seq<A>
    decreases items.len(),
{
    if items.len() == 0 {
        Seq::empty()
    } else {
        let before = distinct(items.drop_last());
        if before.contains(items.last()) {
            before
        } else {
            before.push(items.last())
        }
    }
}

/// The position of `item` in `items`.
pub open spec fn position<A>(items: Seq<A>, item: A) -> int {
    items.index_of(item)
}

/// What one more item does to the distinct items.
pub proof fn lemma_distinct_push<A>(items: Seq<A>, item: A)
    ensures
        distinct(items).contains(item) ==> distinct(items.push(item)) == distinct(items),
        !distinct(items).contains(item) ==> distinct(items.push(item)) == distinct(items).push(
            item,
        ),
{
    assert(items.push(item).drop_last() =~= items);
}

/// Nothing occurs twice among the distinct items, they are the items that occur, and there are
/// no more of them than items.
pub proof fn lemma_distinct<A>(items: Seq<A>)
    ensures
        distinct(items).no_duplicates(),
        forall|item: A| #[trigger] distinct(items).contains(item) <==> items.contains(item),
        distinct(items).len() <= items.len(),
    decreases items.len(),
{
    if items.len() > 0 {
        let init = items.drop_last();
        let last = items.last();
        lemma_distinct(init);
        assert(init.push(last) =~= items);
        assert forall|item: A| #[trigger] distinct(items).contains(item) <==> items.contains(
            item,
        ) by {
            if items.contains(item) {
                let i = choose|i: int| 0 <= i < items.len() && items[i] == item;
                if i < init.len() {
                    assert(init[i] == item);
                    assert(init.contains(item));
                    assert(distinct(init).contains(item));
                    let j = choose|j: int|
                        0 <= j < distinct(init).len() && distinct(init)[j] == item;
                    assert(distinct(items)[j] == item);
                } else if !distinct(init).contains(last) {
                    assert(distinct(items)[distinct(init).len() as int] == item);
                }
            }
            if distinct(items).contains(item) {
                let j = choose|j: int|
                    0 <= j < distinct(items).len() && distinct(items)[j] == item;
                if j < distinct(init).len() {
                    assert(distinct(init)[j] == item);
                    assert(distinct(init).contains(item));
                    let i = choose|i: int| 0 <= i < init.len() && init[i] == item;
                    assert(items[i] == item);
                } else {
                    assert(items[items.len() - 1] == item);
                }
            }
        }
    }
}

/// The distinct items of a beginning are a beginning of the distinct items.
pub proof fn lemma_distinct_prefix<A>(front: Seq<A>, items: Seq<A>)
    requires
        front.is_prefix_of(items),
    ensures
        distinct(front).is_prefix_of(distinct(items)),
    decreases items.len(),
{
    if front.len() < items.len() {
        assert(front.is_prefix_of(items.drop_last()));
        lemma_distinct_prefix(front, items.drop_last());
    } else {
        assert(front =~= items);
    }
}

/// An item found at a position of a beginning of the distinct items is at that position of them
/// all.
pub proof fn lemma_position<A>(front: Seq<A>, items: Seq<A>, index: int)
    requires
        front.is_prefix_of(items),
        0 <= index < distinct(front).len(),
    ensures
        position(distinct(items), distinct(front)[index]) == index,
{
    lemma_distinct_prefix(front, items);
    lemma_distinct(items);
    let found = position(distinct(items), distinct(front)[index]);
    assert(distinct(items)[index] == distinct(front)[index]);
    assert(distinct(items).contains(distinct(front)[index]));
}

/// Where nothing occurs twice, the distinct items are the items.
pub proof fn lemma_distinct_is_all<A>(items: Seq<A>)
    requires
        items.no_duplicates(),
    ensures
        distinct(items) == items,
    decreases items.len(),
{
    if items.len() > 0 {
        let init = items.drop_last();
        lemma_distinct_is_all(init);
        assert(!init.contains(items.last()));
        assert(init.push(items.last()) =~= items);
    } else {
        assert(items =~= Seq::empty());
    }
}

/// Repetitions at the start can be left out first.
pub proof fn lemma_distinct_twice<A>(left: Seq<A>, right: Seq<A>)
    ensures
        distinct(distinct(left) + right) == distinct(left + right),
    decreases right.len(),
{
    if right.len() == 0 {
        assert(distinct(left) + right =~= distinct(left));
        assert(left + right =~= left);
        lemma_distinct(left);
        lemma_distinct_is_all(distinct(left));
    } else {
        let init = right.drop_last();
        lemma_distinct_twice(left, init);
        assert((distinct(left) + right).drop_last() =~= distinct(left) + init);
        assert((left + right).drop_last() =~= left + init);
    }
}

} // verus!
