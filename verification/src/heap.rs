//! A binary min-heap of frontier entries, ordered by distance.

use vstd::multiset::Multiset;
use vstd::prelude::*;

verus! {

/// A node together with the tentative distance it was reached with.
#[derive(Clone, Copy, Debug, PartialEq, Eq, Structural)]
pub struct HeapEntry {
    pub distance: usize,
    pub node: usize,
}

/// The position above position `i` in the heap's tree.
spec fn parent(i: int) -> int {
    (i - 1) / 2
}

/// Whether no entry is nearer than the entry above it.
spec fn heap_ordered(entries: Seq<HeapEntry>) -> bool {
    forall|i: int| 0 < i < entries.len() ==> entries[parent(i)].distance <= (#[trigger] entries[i]).distance
}

/// Heap order but for the entry at `hole` moving up: it may be nearer than
/// the entry above it, and the entries below it are no nearer than the one
/// above it.
spec fn ordered_but_up(entries: Seq<HeapEntry>, hole: int) -> bool {
    &&& forall|i: int|
        0 < i < entries.len() && i != hole ==> entries[parent(i)].distance <= (
        #[trigger] entries[i]).distance
    &&& forall|i: int|
        0 < i < entries.len() && parent(i) == hole && hole > 0 ==> entries[parent(hole)].distance
            <= (#[trigger] entries[i]).distance
}

/// Heap order but for the entry at `hole` moving down: the entries below it
/// may be nearer, and they are no nearer than the one above it.
spec fn ordered_but_down(entries: Seq<HeapEntry>, hole: int) -> bool {
    &&& forall|i: int|
        0 < i < entries.len() && parent(i) != hole ==> entries[parent(i)].distance <= (
        #[trigger] entries[i]).distance
    &&& forall|i: int|
        0 < i < entries.len() && parent(i) == hole && hole > 0 ==> entries[parent(hole)].distance
            <= (#[trigger] entries[i]).distance
}

/// In heap order the first entry is a nearest one.
proof fn lemma_root_is_least(entries: Seq<HeapEntry>, i: int)
    requires
        heap_ordered(entries),
        0 <= i < entries.len(),
    ensures
        entries[0].distance <= entries[i].distance,
    decreases i,
{
    if i > 0 {
        lemma_root_is_least(entries, parent(i));
        assert(entries[parent(i)].distance <= entries[i].distance);
    }
}

/// Exchanging two entries keeps the collection of entries.
proof fn lemma_swap_keeps_entries(entries: Seq<HeapEntry>, i: int, j: int)
    requires
        0 <= i < entries.len(),
        0 <= j < entries.len(),
    ensures
        entries.update(i, entries[j]).update(j, entries[i]).to_multiset()
            == entries.to_multiset(),
{
    broadcast use vstd::seq_lib::group_to_multiset_ensures;

    let once = entries.update(i, entries[j]);
    assert(entries.to_multiset().count(entries[i]) > 0) by {
        assert(entries.contains(entries[i]));
    }
    assert(entries.to_multiset().count(entries[j]) > 0) by {
        assert(entries.contains(entries[j]));
    }
    assert(once.update(j, entries[i]).to_multiset() =~= entries.to_multiset());
}

fn swap_entries(entries: &mut Vec<HeapEntry>, i: usize, j: usize)
    requires
        i < old(entries).len(),
        j < old(entries).len(),
    ensures
        final(entries)@ == old(entries)@.update(i as int, old(entries)@[j as int]).update(
            j as int,
            old(entries)@[i as int],
        ),
        final(entries)@.to_multiset() == old(entries)@.to_multiset(),
{
    proof {
        lemma_swap_keeps_entries(entries@, i as int, j as int);
    }
    let first = entries[i];
    let second = entries[j];
    entries[i] = second;
    entries[j] = first;
}

/// Moves the entry at `from` up until the entry above it is no farther.
fn sift_up(entries: &mut Vec<HeapEntry>, from: usize)
    requires
        from < old(entries).len(),
        ordered_but_up(old(entries)@, from as int),
    ensures
        heap_ordered(final(entries)@),
        final(entries)@.to_multiset() == old(entries)@.to_multiset(),
{
    let mut hole = from;
    while hole > 0
        invariant
            hole < entries.len(),
            ordered_but_up(entries@, hole as int),
            entries@.to_multiset() == old(entries)@.to_multiset(),
        ensures
            heap_ordered(entries@),
            entries@.to_multiset() == old(entries)@.to_multiset(),
        decreases hole,
    {
        let above = (hole - 1) / 2;
        if entries[above].distance <= entries[hole].distance {
            break;
        }
        swap_entries(entries, hole, above);
        hole = above;
    }
}

/// Moves the first entry down until the entries below it are no nearer.
fn sift_down(entries: &mut Vec<HeapEntry>)
    requires
        ordered_but_down(old(entries)@, 0),
    ensures
        heap_ordered(final(entries)@),
        final(entries)@.to_multiset() == old(entries)@.to_multiset(),
{
    let len = entries.len();
    let mut hole: usize = 0;
    while hole < len / 2
        invariant
            len == entries.len(),
            ordered_but_down(entries@, hole as int),
            entries@.to_multiset() == old(entries)@.to_multiset(),
        ensures
            heap_ordered(entries@),
            entries@.to_multiset() == old(entries)@.to_multiset(),
        decreases len - hole,
    {
        let left = 2 * hole + 1;
        let right = left + 1;
        let mut nearest = left;
        if right < len && entries[right].distance < entries[left].distance {
            nearest = right;
        }
        if entries[hole].distance <= entries[nearest].distance {
            break;
        }
        swap_entries(entries, hole, nearest);
        hole = nearest;
    }
}

/// A min-priority queue of entries: the entry taken out is always one of
/// the nearest. Which of several equally near entries leaves first is not
/// fixed.
pub struct MinHeap {
    entries: Vec<HeapEntry>,
}

impl View for MinHeap {
    type V = Multiset<HeapEntry>;

    /// The entries held, each as often as it was put in and not yet taken
    /// out.
    closed spec fn view(&self) -> Multiset<HeapEntry> {
        self.entries@.to_multiset()
    }
}

impl MinHeap {
    /// Whether the entries are held in heap order. Every heap that `new`
    /// has made is, and `push` and `pop` keep it so.
    pub closed spec fn wf(&self) -> bool {
        heap_ordered(self.entries@)
    }

    /// The heap without entries.
    pub fn new() -> (heap: Self)
        ensures
            heap.wf(),
            heap@ == Multiset::<HeapEntry>::empty(),
    {
        let heap = MinHeap { entries: Vec::new() };
        assert(heap.entries@.to_multiset() =~= Multiset::<HeapEntry>::empty()) by {
            broadcast use vstd::seq_lib::group_to_multiset_ensures;

            assert(heap.entries@.to_multiset().len() == 0);
        }
        heap
    }

    /// The number of entries held, counting repeated ones.
    pub fn len(&self) -> (len: usize)
        ensures
            len == self@.len(),
    {
        broadcast use vstd::seq_lib::group_to_multiset_ensures;

        self.entries.len()
    }

    /// Whether the heap holds no entry.
    pub fn is_empty(&self) -> (empty: bool)
        ensures
            empty == (self@.len() == 0),
    {
        broadcast use vstd::seq_lib::group_to_multiset_ensures;

        self.entries.len() == 0
    }

    /// Puts `entry` into the heap.
    pub fn push(&mut self, entry: HeapEntry)
        requires
            old(self).wf(),
        ensures
            final(self).wf(),
            final(self)@ == old(self)@.insert(entry),
    {
        broadcast use vstd::seq_lib::group_to_multiset_ensures;

        self.entries.push(entry);
        let last = self.entries.len() - 1;
        sift_up(&mut self.entries, last);
    }

    /// Takes an entry of least distance out of the heap; `None` when the
    /// heap is empty.
    pub fn pop(&mut self) -> (least: Option<HeapEntry>)
        requires
            old(self).wf(),
        ensures
            final(self).wf(),
            match least {
                Some(entry) => {
                    &&& old(self)@.contains(entry)
                    &&& final(self)@ == old(self)@.remove(entry)
                    &&& forall|other: HeapEntry|
                        old(self)@.contains(other) ==> entry.distance <= other.distance
                },
                None => old(self)@.len() == 0 && final(self)@ == old(self)@,
            },
    {
        broadcast use vstd::seq_lib::group_to_multiset_ensures;

        let ghost before = self.entries@;
        match self.entries.pop() {
            None => None,
            Some(last) => {
                assert(self.entries@ =~= before.remove(before.len() - 1));
                assert(before.contains(last)) by {
                    assert(before[before.len() - 1] == last);
                }
                if self.entries.len() == 0 {
                    assert forall|other: HeapEntry|
                        before.to_multiset().contains(other) implies last.distance
                        <= other.distance by {
                        assert(before.contains(other));
                    }
                    Some(last)
                } else {
                    let least = self.entries[0];
                    assert(before.contains(least)) by {
                        assert(before[0] == least);
                    }
                    assert forall|other: HeapEntry|
                        before.to_multiset().contains(other) implies least.distance
                        <= other.distance by {
                        assert(before.contains(other));
                        let i = choose|i: int| 0 <= i < before.len() && before[i] == other;
                        lemma_root_is_least(before, i);
                    }
                    self.entries[0] = last;
                    assert(self.entries@.to_multiset() =~= before.to_multiset().remove(least));
                    sift_down(&mut self.entries);
                    Some(least)
                }
            },
        }
    }
}

} // verus!
