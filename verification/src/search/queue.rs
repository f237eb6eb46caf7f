//! A min-priority queue of search entries, kept as a binary heap.

use vstd::prelude::*;
use vstd::multiset::Multiset;

verus! {

/// One pending visit of a search: the node, the cost with which it was
/// reached, and the priority (cost plus estimate) by which it is served.
#[derive(Clone, Copy, Debug, PartialEq, Eq, Structural)]
pub struct QueueEntry {
    pub priority: u64,
    pub cost: u64,
    pub node: usize,
}

impl QueueEntry {
    /// The serving order: lower priority first; among equal priorities the
    /// entry that has come further (higher cost) first.
    pub open spec fn served_before(self, other: QueueEntry) -> bool {
        self.priority < other.priority || (self.priority == other.priority && self.cost
            > other.cost)
    }

    pub fn is_served_before(&self, other: &QueueEntry) -> (b: bool)
        ensures
            b == self.served_before(*other),
    {
        self.priority < other.priority || (self.priority == other.priority && self.cost
            > other.cost)
    }
}

/// The place above place `i` of a heap.
pub open spec fn parent(i: int) -> int {
    (i - 1) / 2
}

/// No entry is served before the entry above it, where `skip` is not the
/// lower of the two.
pub open spec fn ordered_except(items: Seq<QueueEntry>, skip: int) -> bool {
    forall|i: int|
        1 <= i < items.len() && i != skip ==> !(#[trigger] items[i]).served_before(items[parent(i)])
}

/// No entry is served before the entry above it, where `skip` is not the
/// upper of the two.
pub open spec fn ordered_below(items: Seq<QueueEntry>, skip: int) -> bool {
    forall|i: int|
        1 <= i < items.len() && parent(i) != skip ==> !(#[trigger] items[i]).served_before(
            items[parent(i)],
        )
}

/// No entry is served before the entry above it.
pub open spec fn heap_ordered(items: Seq<QueueEntry>) -> bool {
    ordered_except(items, 0)
}

/// In a heap no entry is served before the first.
pub proof fn lemma_first_is_least(items: Seq<QueueEntry>, i: int)
    requires
        heap_ordered(items),
        0 <= i < items.len(),
    ensures
        !items[i].served_before(items[0]),
    decreases i,
{
    if i > 0 {
        lemma_first_is_least(items, parent(i));
        assert(!items[i].served_before(items[parent(i)]));
    }
}

/// Two entries that change places leave the same bag.
pub proof fn lemma_swap_keeps_bag(items: Seq<QueueEntry>, i: int, j: int)
    requires
        0 <= i < items.len(),
        0 <= j < items.len(),
    ensures
        items.update(i, items[j]).update(j, items[i]).to_multiset() == items.to_multiset(),
{
    broadcast use vstd::seq_lib::group_to_multiset_ensures;
    broadcast use vstd::multiset::group_multiset_axioms;

    let mid = items.update(i, items[j]);
    vstd::seq_lib::to_multiset_update(items, i, items[j]);
    vstd::seq_lib::to_multiset_update(mid, j, items[i]);
    assert(items.to_multiset().count(items[i]) > 0) by {
        assert(items.contains(items[i]));
    }
    assert(items.to_multiset().count(items[j]) > 0) by {
        assert(items.contains(items[j]));
    }
    assert(mid.update(j, items[i]).to_multiset() =~= items.to_multiset());
}

/// A bag of entries from which the one that is served first can be taken.
pub struct MinQueue {
    items: Vec<QueueEntry>,
}

impl View for MinQueue {
    type V = Multiset<QueueEntry>;

    closed spec fn view(&self) -> Multiset<QueueEntry> {
        self.items@.to_multiset()
    }
}

impl MinQueue {
    /// The entries are kept as a heap.
    pub closed spec fn wf(&self) -> bool {
        heap_ordered(self.items@)
    }

    pub fn new() -> (q: MinQueue)
        ensures
            q.wf(),
            q@ == Multiset::<QueueEntry>::empty(),
            q@.len() == 0,
    {
        let q = MinQueue { items: Vec::new() };
        proof {
            broadcast use vstd::seq_lib::group_to_multiset_ensures;

            assert(q.items@ =~= Seq::<QueueEntry>::empty());
        }
        q
    }

    pub fn len(&self) -> (n: usize)
        ensures
            n == self@.len(),
    {
        proof {
            broadcast use vstd::seq_lib::group_to_multiset_ensures;

        }
        self.items.len()
    }

    pub fn is_empty(&self) -> (b: bool)
        ensures
            b == (self@.len() == 0),
    {
        proof {
            broadcast use vstd::seq_lib::group_to_multiset_ensures;

        }
        self.items.len() == 0
    }

    /// Exchanges the entries at two places.
    fn swap(&mut self, i: usize, j: usize)
        requires
            i < old(self).items@.len(),
            j < old(self).items@.len(),
        ensures
            final(self).items@ == old(self).items@.update(i as int, old(self).items@[j as int]).update(
                j as int,
                old(self).items@[i as int],
            ),
            final(self)@ == old(self)@,
    {
        proof {
            lemma_swap_keeps_bag(self.items@, i as int, j as int);
        }
        let a = self.items[i];
        let b = self.items[j];
        self.items.set(i, b);
        self.items.set(j, a);
    }

    pub fn push(&mut self, entry: QueueEntry)
        requires
            old(self).wf(),
        ensures
            final(self).wf(),
            final(self)@ == old(self)@.insert(entry),
            final(self)@.len() == old(self)@.len() + 1,
    {
        proof {
            broadcast use vstd::seq_lib::group_to_multiset_ensures;

        }
        self.items.push(entry);
        let mut i: usize = self.items.len() - 1;
        proof {
            assert forall|k: int| 1 <= k < self.items@.len() && k != i implies !(
            #[trigger] self.items@[k]).served_before(self.items@[parent(k)]) by {
                assert(!old(self).items@[k].served_before(old(self).items@[parent(k)]));
            }
        }
        while i > 0 && self.items[i].is_served_before(&self.items[(i - 1) / 2])
            invariant
                i < self.items@.len(),
                self@ == old(self)@.insert(entry),
                self.items@.len() == old(self).items@.len() + 1,
                ordered_except(self.items@, i as int),
                forall|k: int|
                    1 <= k < self.items@.len() && parent(k) == i && i > 0 ==> !(
                    #[trigger] self.items@[k]).served_before(self.items@[parent(i as int)]),
            decreases i,
        {
            let up = (i - 1) / 2;
            let ghost before = self.items@;
            self.swap(i, up);
            proof {
                let after = self.items@;
                assert forall|k: int| 1 <= k < after.len() && k != up implies !(
                #[trigger] after[k]).served_before(after[parent(k)]) by {
                    if k == i {
                    } else if parent(k) == i {
                        assert(!before[k].served_before(before[up as int]));
                    } else if parent(k) == up {
                        assert(!before[k].served_before(before[up as int]));
                    } else {
                        assert(!before[k].served_before(before[parent(k)]));
                    }
                }
                assert forall|k: int|
                    1 <= k < after.len() && parent(k) == up && up > 0 implies !(
                #[trigger] after[k]).served_before(after[parent(up as int)]) by {
                    assert(!before[up as int].served_before(before[parent(up as int)]));
                    if k != i {
                        assert(!before[k].served_before(before[up as int]));
                    }
                }
            }
            i = up;
        }
    }

    /// Lets the entry at the top sink to its place.
    fn sink(&mut self)
        requires
            ordered_below(old(self).items@, 0),
        ensures
            final(self).wf(),
            final(self)@ == old(self)@,
            final(self).items@.len() == old(self).items@.len(),
    {
        let n = self.items.len();
        let mut i: usize = 0;
        while i < n / 2
            invariant
                n == self.items@.len(),
                n == old(self).items@.len(),
                self@ == old(self)@,
                ordered_below(self.items@, i as int),
                i < n || n == 0,
                forall|k: int|
                    1 <= k < n && parent(k) == i && i > 0 ==> !(#[trigger] self.items@[k]).served_before(
                        self.items@[parent(i as int)],
                    ),
            decreases n - i,
        {
            let left = 2 * i + 1;
            let mut least = left;
            if left + 1 < n && self.items[left + 1].is_served_before(&self.items[left]) {
                least = left + 1;
            }
            if !self.items[least].is_served_before(&self.items[i]) {
                proof {
                    assert forall|k: int| 1 <= k < n implies !(#[trigger] self.items@[k]).served_before(
                        self.items@[parent(k)],
                    ) by {
                        if parent(k) == i {
                            assert(k == left || k == left + 1);
                        }
                    }
                }
                return ;
            }
            let ghost before = self.items@;
            self.swap(i, least);
            proof {
                let after = self.items@;
                assert forall|k: int|
                    1 <= k < n && parent(k) != least implies !(#[trigger] after[k]).served_before(
                        after[parent(k)],
                    ) by {
                    if k == i {
                        assert(!before[least as int].served_before(before[parent(i as int)]));
                    } else if parent(k) == i {
                        assert(k == left || k == left + 1);
                    } else if k == least {
                    } else {
                        assert(!before[k].served_before(before[parent(k)]));
                    }
                }
                assert forall|k: int| 1 <= k < n && parent(k) == least implies !(
                #[trigger] after[k]).served_before(after[parent(least as int)]) by {
                    assert(!before[k].served_before(before[least as int]));
                }
            }
            i = least;
        }
        proof {
            assert forall|k: int| 1 <= k < n implies !(#[trigger] self.items@[k]).served_before(
                self.items@[parent(k)],
            ) by {
                if parent(k) == i {
                    assert(k >= 2 * i + 1);
                }
            }
        }
    }

    /// Takes out an entry that no other entry is served before.
    pub fn pop(&mut self) -> (r: Option<QueueEntry>)
        requires
            old(self).wf(),
        ensures
            final(self).wf(),
            r is None <==> old(self)@.len() == 0,
            r is None ==> final(self)@ == old(self)@,
            r matches Some(e) ==> {
                &&& old(self)@.count(e) > 0
                &&& final(self)@ == old(self)@.remove(e)
                &&& final(self)@.len() + 1 == old(self)@.len()
                &&& forall|x: QueueEntry| #[trigger] old(self)@.count(x) > 0 ==> !x.served_before(e)
            },
    {
        proof {
            broadcast use vstd::seq_lib::group_to_multiset_ensures;

        }
        let n = self.items.len();
        if n == 0 {
            return None;
        }
        let ghost before = self.items@;
        let top = self.items[0];
        proof {
            assert(before.contains(top));
            assert forall|x: QueueEntry| #[trigger] before.to_multiset().count(x) > 0 implies !x.served_before(
                top,
            ) by {
                assert(before.contains(x));
                let j = choose|j: int| 0 <= j < before.len() && before[j] == x;
                lemma_first_is_least(before, j);
            }
        }
        self.swap(0, n - 1);
        let ghost swapped = self.items@;
        let taken = self.items.pop();
        proof {
            assert(self.items@ =~= swapped.remove(n - 1));
            assert(swapped[n - 1] == top);
            assert forall|k: int|
                1 <= k < self.items@.len() && parent(k) != 0 implies !(
            #[trigger] self.items@[k]).served_before(self.items@[parent(k)]) by {
                assert(!before[k].served_before(before[parent(k)]));
            }
        }
        self.sink();
        Some(top)
    }
}

} // verus!
