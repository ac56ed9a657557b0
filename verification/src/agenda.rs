//! The agenda of candidate merges: a binary min-heap that hands out the
//! candidate with the lowest score first, and among equal scores the
//! leftmost.
use vstd::prelude::*;
use vstd::multiset::Multiset;
use vstd::seq_lib::{
    to_multiset_build, to_multiset_contains, to_multiset_len, to_multiset_remove,
    to_multiset_update,
};

verus! {

/// The order of the agenda: by score, then by position in the text.
pub open spec fn key_le(a: (i64, int), b: (i64, int)) -> bool {
    a.0 < b.0 || (a.0 == b.0 && a.1 <= b.1)
}

/// What an agenda holds after a candidate has been added.
pub proof fn lemma_insert_contains<T>(agenda: Multiset<T>, added: T, other: T)
    ensures
        agenda.insert(added).contains(other) <==> (other == added || agenda.contains(other)),
        agenda.insert(added).len() == agenda.len() + 1,
{
}

/// What an agenda holds after a candidate has been taken out.
pub proof fn lemma_remove_contains<T>(agenda: Multiset<T>, taken: T, other: T)
    requires
        agenda.contains(taken),
    ensures
        agenda.remove(taken).contains(other) ==> agenda.contains(other),
        other != taken ==> (agenda.remove(taken).contains(other) <==> agenda.contains(other)),
        agenda.remove(taken).len() == agenda.len() - 1,
{
}

/// What the agenda can hold: a candidate with a score and a position.
pub trait Candidate: Sized {
    /// The candidate's score and its position in the text.
    spec fn key(&self) -> (i64, int);

    /// True when `self` is to be merged no later than `other`.
    fn goes_before(&self, other: &Self) -> (before: bool)
        ensures
            before == key_le(self.key(), other.key()),
    ;
}

/// The index of the item above the item `i` in the heap.
pub open spec fn parent(i: int) -> int {
    (i - 1) / 2
}

/// Every item but the first goes no earlier than the item above it.
pub open spec fn heap_ordered<T: Candidate>(items: Seq<T>) -> bool {
    forall|i: int| 1 <= i < items.len() ==> key_le(items[parent(i)].key(), (#[trigger] items[i]).key())
}

/// The heap is in order but for the item at `hole`, which may go earlier
/// than the item above it; the items below it go no earlier than that one.
pub open spec fn ordered_but_above<T: Candidate>(items: Seq<T>, hole: int) -> bool {
    &&& forall|i: int|
        1 <= i < items.len() && i != hole ==> key_le(
            items[parent(i)].key(),
            (#[trigger] items[i]).key(),
        )
    &&& forall|i: int|
        1 <= i < items.len() && parent(i) == hole && hole >= 1 ==> key_le(
            items[parent(hole)].key(),
            (#[trigger] items[i]).key(),
        )
}

/// The heap is in order but for the item at `hole`, which may go later than
/// the items below it; those go no earlier than the item above it.
pub open spec fn ordered_but_below<T: Candidate>(items: Seq<T>, hole: int) -> bool {
    &&& forall|i: int|
        1 <= i < items.len() && parent(i) != hole ==> key_le(
            items[parent(i)].key(),
            (#[trigger] items[i]).key(),
        )
    &&& forall|i: int|
        1 <= i < items.len() && parent(i) == hole && hole >= 1 ==> key_le(
            items[parent(hole)].key(),
            (#[trigger] items[i]).key(),
        )
}

/// In a heap in order the first item goes no later than any other.
pub proof fn lemma_first_is_least<T: Candidate>(items: Seq<T>, i: int)
    requires
        heap_ordered(items),
        0 <= i < items.len(),
    ensures
        key_le(items[0].key(), items[i].key()),
    decreases i,
{
    if i > 0 {
        lemma_first_is_least(items, parent(i));
        assert(key_le(items[parent(i)].key(), items[i].key()));
    }
}

/// Exchanges two items.
fn swap_items<T: Candidate + Copy>(items: &mut Vec<T>, i: usize, j: usize)
    requires
        i < old(items)@.len(),
        j < old(items)@.len(),
    ensures
        final(items)@ == old(items)@.update(i as int, old(items)@[j as int]).update(
            j as int,
            old(items)@[i as int],
        ),
        final(items)@.len() == old(items)@.len(),
        final(items)@.to_multiset() == old(items)@.to_multiset(),
{
    let ghost before = items@;
    let first = items[i];
    let second = items[j];
    items.set(i, second);
    items.set(j, first);
    proof {
        let mid = before.update(i as int, second);
        to_multiset_update(before, i as int, second);
        to_multiset_update(mid, j as int, first);
        to_multiset_contains(before, first);
        to_multiset_contains(before, second);
        assert(before.contains(first)) by {
            assert(before[i as int] == first);
        }
        assert(before.contains(second)) by {
            assert(before[j as int] == second);
        }
        assert(items@.to_multiset() =~= before.to_multiset());
    }
}

/// Moves the item at `start` up until the item above it goes no later.
fn sift_up<T: Candidate + Copy>(items: &mut Vec<T>, start: usize)
    requires
        start < old(items)@.len(),
        ordered_but_above(old(items)@, start as int),
    ensures
        heap_ordered(final(items)@),
        final(items)@.to_multiset() == old(items)@.to_multiset(),
{
    let mut pos = start;
    while pos > 0
        invariant
            pos < items@.len(),
            ordered_but_above(items@, pos as int),
            items@.to_multiset() == old(items)@.to_multiset(),
        ensures
            heap_ordered(items@),
            items@.to_multiset() == old(items)@.to_multiset(),
        decreases pos,
    {
        let above = (pos - 1) / 2;
        if items[above].goes_before(&items[pos]) {
            break ;
        }
        let ghost before = items@;
        swap_items(items, above, pos);
        proof {
            assert forall|i: int| 1 <= i < items@.len() && i != above implies key_le(
                items@[parent(i)].key(),
                (#[trigger] items@[i]).key(),
            ) by {
                if i != pos {
                    assert(key_le(before[parent(i)].key(), before[i].key()));
                }
            }
            assert forall|i: int|
                1 <= i < items@.len() && parent(i) == above && above >= 1 implies key_le(
                items@[parent(above as int)].key(),
                (#[trigger] items@[i]).key(),
            ) by {
                assert(key_le(before[parent(above as int)].key(), before[above as int].key()));
                if i != pos {
                    assert(key_le(before[parent(i)].key(), before[i].key()));
                }
            }
        }
        pos = above;
    }
}

/// Moves the item at `start` down until the items below it go no earlier.
fn sift_down<T: Candidate + Copy>(items: &mut Vec<T>, start: usize)
    requires
        start < old(items)@.len(),
        ordered_but_below(old(items)@, start as int),
    ensures
        heap_ordered(final(items)@),
        final(items)@.to_multiset() == old(items)@.to_multiset(),
{
    let count = items.len();
    let mut pos = start;
    loop
        invariant
            pos < items@.len(),
            count == items@.len(),
            ordered_but_below(items@, pos as int),
            items@.to_multiset() == old(items)@.to_multiset(),
        ensures
            heap_ordered(items@),
            items@.to_multiset() == old(items)@.to_multiset(),
        decreases count - pos,
    {
        if pos >= count / 2 {
            break ;
        }
        let left = 2 * pos + 1;
        let right = left + 1;
        let below = if right < count && !items[left].goes_before(&items[right]) {
            right
        } else {
            left
        };
        if items[pos].goes_before(&items[below]) {
            proof {
                assert forall|i: int| 1 <= i < items@.len() implies key_le(
                    items@[parent(i)].key(),
                    (#[trigger] items@[i]).key(),
                ) by {
                    if parent(i) == pos {
                        assert(i == left || i == right);
                    }
                }
            }
            break ;
        }
        let ghost before = items@;
        swap_items(items, pos, below);
        proof {
            assert forall|i: int| 1 <= i < items@.len() && parent(i) != below implies key_le(
                items@[parent(i)].key(),
                (#[trigger] items@[i]).key(),
            ) by {
                if parent(i) == pos {
                    assert(i == left || i == right);
                } else if i == pos {
                    assert(key_le(before[parent(pos as int)].key(), before[below as int].key()));
                } else {
                    assert(key_le(before[parent(i)].key(), before[i].key()));
                }
            }
            assert forall|i: int|
                1 <= i < items@.len() && parent(i) == below && below >= 1 implies key_le(
                items@[parent(below as int)].key(),
                (#[trigger] items@[i]).key(),
            ) by {
                assert(key_le(before[parent(i)].key(), before[i].key()));
            }
        }
        pos = below;
    }
}

/// A priority queue of candidates, kept as a binary heap.
pub struct Agenda<T: Candidate> {
    items: Vec<T>,
}

impl<T: Candidate> View for Agenda<T> {
    type V = Multiset<T>;

    closed spec fn view(&self) -> Multiset<T> {
        self.items@.to_multiset()
    }
}

impl<T: Candidate> Agenda<T> {
    #[verifier::type_invariant]
    spec fn in_order(&self) -> bool {
        heap_ordered(self.items@)
    }
}

impl<T: Candidate + Copy> Agenda<T> {
    /// An empty agenda.
    pub fn new() -> (agenda: Self)
        ensures
            agenda@ == Multiset::<T>::empty(),
    {
        let agenda = Agenda { items: Vec::new() };
        proof {
            to_multiset_len(agenda.items@);
            assert(agenda@ =~= Multiset::<T>::empty());
        }
        agenda
    }

    /// The number of candidates waiting.
    pub fn len(&self) -> (n: usize)
        ensures
            n == self@.len(),
    {
        proof {
            to_multiset_len(self.items@);
        }
        self.items.len()
    }

    /// Adds a candidate.
    pub fn push(&mut self, item: T)
        ensures
            final(self)@ == old(self)@.insert(item),
    {
        proof {
            use_type_invariant(&*self);
        }
        let mut items: Vec<T> = Vec::new();
        std::mem::swap(&mut items, &mut self.items);
        let ghost before = items@;
        items.push(item);
        proof {
            to_multiset_build(before, item);
            assert forall|i: int| 1 <= i < items@.len() && i != before.len() implies key_le(
                items@[parent(i)].key(),
                (#[trigger] items@[i]).key(),
            ) by {
                assert(key_le(before[parent(i)].key(), before[i].key()));
            }
        }
        let last = items.len() - 1;
        sift_up(&mut items, last);
        self.items = items;
    }

    /// Takes out the candidate that goes before all others. `None` when the
    /// agenda is empty.
    pub fn pop(&mut self) -> (first: Option<T>)
        ensures
            match first {
                Some(item) => {
                    &&& old(self)@.contains(item)
                    &&& final(self)@ == old(self)@.remove(item)
                    &&& final(self)@.len() == old(self)@.len() - 1
                    &&& forall|other: T| #[trigger]
                        old(self)@.contains(other) ==> key_le(item.key(), other.key())
                },
                None => old(self)@.len() == 0 && final(self)@ == old(self)@,
            },
    {
        proof {
            use_type_invariant(&*self);
            to_multiset_len(self.items@);
        }
        if self.items.len() == 0 {
            return None;
        }
        let mut items: Vec<T> = Vec::new();
        std::mem::swap(&mut items, &mut self.items);
        let ghost before = items@;
        let last = items.len() - 1;
        swap_items(&mut items, 0, last);
        let ghost swapped = items@;
        let taken = items.pop();
        let item = taken.unwrap();
        proof {
            assert(items@ =~= swapped.remove(last as int));
            to_multiset_remove(swapped, last as int);
            to_multiset_len(items@);
            to_multiset_contains(before, item);
            assert(before.contains(item)) by {
                assert(before[0] == item);
            }
            assert forall|other: T| #[trigger] before.to_multiset().contains(other) implies key_le(
                item.key(),
                other.key(),
            ) by {
                to_multiset_contains(before, other);
                let j = choose|j: int| 0 <= j < before.len() && before[j] == other;
                lemma_first_is_least(before, j);
            }
            assert forall|i: int| 1 <= i < items@.len() && parent(i) != 0 implies key_le(
                items@[parent(i)].key(),
                (#[trigger] items@[i]).key(),
            ) by {
                assert(key_le(before[parent(i)].key(), before[i].key()));
            }
        }
        if items.len() > 0 {
            sift_down(&mut items, 0);
        }
        self.items = items;
        Some(item)
    }
}

} // verus!
