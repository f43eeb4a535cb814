//! An ordered set of layer items, kept as a strictly ascending vector.

use crate::item::LayerItem;
use crate::seq_facts::{lemma_insert_to_set, lemma_remove_to_set};
use vstd::prelude::*;

verus! {

/// Every element ranks strictly below the elements after it.
pub open spec fn strictly_ascending(s: Seq<LayerItem>) -> bool {
    forall|i: int, j: int| 0 <= i < j < s.len() ==> s[i].rank() < s[j].rank()
}

/// A strictly ascending sequence holds no item twice.
pub proof fn lemma_ascending_no_duplicates(s: Seq<LayerItem>)
    requires
        strictly_ascending(s),
    ensures
        s.no_duplicates(),
{
    assert forall|i: int, j: int| 0 <= i < s.len() && 0 <= j < s.len() && i != j implies s[i]
        != s[j] by {
        if i < j {
            assert(s[i].rank() < s[j].rank());
        } else {
            assert(s[j].rank() < s[i].rank());
        }
    }
}

/// A set of layer items that is walked in ascending order of rank.
pub struct ItemSet {
    items: Vec<LayerItem>,
}

impl View for ItemSet {
    type V = Set<LayerItem>;

    /// The items that the set holds.
    open spec fn view(&self) -> Set<LayerItem> {
        self.seq().to_set()
    }
}

impl ItemSet {
    /// The items of the set in the order in which they are walked.
    pub closed spec fn seq(&self) -> Seq<LayerItem> {
        self.items@
    }

    /// The set is well formed when its items stand in strictly ascending order,
    /// so that no item occurs twice.
    pub open spec fn wf(&self) -> bool {
        strictly_ascending(self.seq())
    }

    /// The empty set.
    pub fn new() -> (set: ItemSet)
        ensures
            set.wf(),
            set.seq() == Seq::<LayerItem>::empty(),
            set@ == Set::<LayerItem>::empty(),
    {
        let set = ItemSet { items: Vec::new() };
        assert(set.seq().to_set() =~= Set::<LayerItem>::empty());
        set
    }

    /// The number of items.
    pub fn len(&self) -> (n: usize)
        ensures
            n == self.seq().len(),
    {
        self.items.len()
    }

    /// The item at position `index` of the ascending walk.
    pub fn get(&self, index: usize) -> (item: LayerItem)
        requires
            index < self.seq().len(),
        ensures
            item == self.seq()[index as int],
    {
        self.items[index]
    }

    /// The items in ascending order.
    pub fn as_vec(&self) -> (items: &Vec<LayerItem>)
        ensures
            items@ == self.seq(),
    {
        &self.items
    }

    /// The position of the first item that does not rank below `item`.
    fn lower_bound(&self, item: &LayerItem) -> (p: usize)
        requires
            self.wf(),
        ensures
            p <= self.seq().len(),
            forall|i: int| 0 <= i < p ==> self.seq()[i].rank() < item.rank(),
            forall|i: int| p <= i < self.seq().len() ==> item.rank() <= self.seq()[i].rank(),
    {
        let mut lo: usize = 0;
        let mut hi: usize = self.items.len();
        while lo < hi
            invariant
                self.wf(),
                lo <= hi <= self.items.len(),
                forall|i: int| 0 <= i < lo ==> self.seq()[i].rank() < item.rank(),
                forall|i: int| hi <= i < self.seq().len() ==> item.rank() <= self.seq()[i].rank(),
            decreases hi - lo,
        {
            let mid: usize = lo + (hi - lo) / 2;
            if self.items[mid].less(item) {
                assert forall|i: int| 0 <= i < mid + 1 implies self.seq()[i].rank()
                    < item.rank() by {
                    if i < mid {
                        assert(self.seq()[i].rank() < self.seq()[mid as int].rank());
                    }
                }
                lo = mid + 1;
            } else {
                assert forall|i: int| mid <= i < self.seq().len() implies item.rank()
                    <= self.seq()[i].rank() by {
                    if mid < i {
                        assert(self.seq()[mid as int].rank() < self.seq()[i].rank());
                    }
                }
                hi = mid;
            }
        }
        lo
    }

    /// The position of `item` in the ascending walk, if the set holds it.
    pub fn index_of(&self, item: &LayerItem) -> (found: Option<usize>)
        requires
            self.wf(),
        ensures
            match found {
                Some(i) => i < self.seq().len() && self.seq()[i as int] == *item,
                None => !self@.contains(*item),
            },
    {
        let p = self.lower_bound(item);
        if p < self.items.len() && self.items[p].same(item) {
            Some(p)
        } else {
            proof {
                if self@.contains(*item) {
                    let i = choose|i: int| 0 <= i < self.seq().len() && self.seq()[i] == *item;
                    if i > p {
                        assert(self.seq()[p as int].rank() < self.seq()[i].rank());
                    }
                }
            }
            None
        }
    }

    /// Whether the set holds `item`.
    pub fn contains(&self, item: &LayerItem) -> (b: bool)
        requires
            self.wf(),
        ensures
            b == self@.contains(*item),
    {
        self.index_of(item).is_some()
    }

    /// Adds `item` to the set. Returns whether the set did not hold it before.
    pub fn insert(&mut self, item: LayerItem) -> (fresh: bool)
        requires
            old(self).wf(),
        ensures
            final(self).wf(),
            final(self)@ == old(self)@.insert(item),
            fresh == !old(self)@.contains(item),
    {
        let p = self.lower_bound(&item);
        if p < self.items.len() && self.items[p].same(&item) {
            assert(self.seq()[p as int] == item);
            assert(self@ =~= self@.insert(item));
            false
        } else {
            proof {
                let s = self.seq();
                if s.to_set().contains(item) {
                    let i = choose|i: int| 0 <= i < s.len() && s[i] == item;
                    if i > p {
                        assert(s[p as int].rank() < s[i].rank());
                    }
                    if i >= p && s[p as int].rank() == item.rank() {
                        LayerItem::lemma_rank_injective(s[p as int], item);
                    }
                }
                lemma_insert_to_set(s, p as int, item);
                let t = s.insert(p as int, item);
                assert forall|i: int, j: int| 0 <= i < j < t.len() implies t[i].rank()
                    < t[j].rank() by {
                    if p < s.len() && s[p as int].rank() == item.rank() {
                        LayerItem::lemma_rank_injective(s[p as int], item);
                    }
                    if i < p && j > p {
                        assert(t[i] == s[i]);
                        assert(t[j] == s[j - 1]);
                    }
                }
            }
            self.items.insert(p, item);
            true
        }
    }

    /// Takes `item` out of the set. Returns whether the set held it.
    pub fn remove(&mut self, item: &LayerItem) -> (found: bool)
        requires
            old(self).wf(),
        ensures
            final(self).wf(),
            final(self)@ == old(self)@.remove(*item),
            found == old(self)@.contains(*item),
    {
        match self.index_of(item) {
            Some(p) => {
                proof {
                    lemma_ascending_no_duplicates(self.seq());
                    lemma_remove_to_set(self.seq(), p as int);
                }
                self.items.remove(p);
                true
            },
            None => {
                assert(self@ =~= self@.remove(*item));
                false
            },
        }
    }

    /// The set of the items that `items` holds.
    pub fn from_items(items: &Vec<LayerItem>) -> (set: ItemSet)
        ensures
            set.wf(),
            set@ == items@.to_set(),
    {
        let mut set = ItemSet::new();
        let mut i: usize = 0;
        while i < items.len()
            invariant
                i <= items.len(),
                set.wf(),
                set@ == items@.take(i as int).to_set(),
            decreases items.len() - i,
        {
            set.insert(items[i]);
            proof {
                let a = items@.take(i as int);
                let b = items@.take(i + 1);
                assert(b =~= a.push(items@[i as int]));
                assert(b =~= a.insert(a.len() as int, items@[i as int]));
                lemma_insert_to_set(a, a.len() as int, items@[i as int]);
            }
            i += 1;
        }
        assert(items@.take(i as int) =~= items@);
        set
    }
}

} // verus!
