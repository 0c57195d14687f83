use vstd::prelude::*;
use crate::hmap::HMap;

verus! {

/// A deadline in milliseconds and the key that it expires.
pub struct HeapItem {
    pub value: u64,
    pub key: Vec<u8>,
}

impl HeapItem {
    pub fn new(value: u64, key: Vec<u8>) -> (r: Self)
        ensures
            r.value == value,
            r.key@ == key@,
    {
        HeapItem { value, key }
    }
}

pub fn heap_left(i: usize) -> (r: usize)
    requires
        i < usize::MAX / 2,
    ensures
        r == 2 * i + 1,
{
    i * 2 + 1
}

pub fn heap_right(i: usize) -> (r: usize)
    requires
        i < usize::MAX / 2,
    ensures
        r == 2 * i + 2,
{
    i * 2 + 2
}

pub fn heap_parent(i: usize) -> (r: usize)
    requires
        i > 0,
    ensures
        r == (i - 1) / 2,
{
    (i - 1) / 2
}

pub open spec fn parent(i: int) -> int {
    (i - 1) / 2
}

/// A min-heap of deadlines. Each key stands in the heap at most once, and
/// the slot of each key is kept in `slots`, so that the slot of a key is
/// found without a search and every move of an item updates it.
pub struct ExpHeap {
    items: Vec<HeapItem>,
    slots: HMap<usize>,
}

impl View for ExpHeap {
    type V = Map<Seq<u8>, u64>;

    /// The deadline of each key in the heap.
    closed spec fn view(&self) -> Map<Seq<u8>, u64> {
        Map::new(|k: Seq<u8>| self.slots@.contains_key(k), |k: Seq<u8>| self.items@[self.slots@[k] as int].value)
    }
}

impl ExpHeap {
    pub closed spec fn len(&self) -> nat {
        self.items@.len()
    }

    pub closed spec fn value_at(&self, i: int) -> u64 {
        self.items@[i].value
    }

    pub closed spec fn key_at(&self, i: int) -> Seq<u8> {
        self.items@[i].key@
    }

    /// The slot that the heap records for key `k`.
    pub closed spec fn slot_of(&self, k: Seq<u8>) -> Option<usize> {
        if self.slots@.contains_key(k) {
            Some(self.slots@[k])
        } else {
            None
        }
    }

    /// Every slot's key records that slot, and every recorded slot holds
    /// its key.
    pub closed spec fn links_ok(&self) -> bool {
        &&& self.slots.wf()
        &&& self.items@.len() + 2 < usize::MAX
        &&& forall|i: int| 0 <= i < self.items@.len() ==> #[trigger] self.slots@.contains_key(self.items@[i].key@)
            && self.slots@[self.items@[i].key@] == i
        &&& forall|k: Seq<u8>| #[trigger] self.slots@.contains_key(k) ==> self.slots@[k] < self.items@.len()
            && self.items@[self.slots@[k] as int].key@ == k
    }

    /// No parent deadline exceeds its child's.
    pub closed spec fn heap_ok(&self) -> bool {
        forall|i: int| 0 < i < self.items@.len() ==> self.items@[parent(i)].value <= (#[trigger] self.items@[i]).value
    }

    pub closed spec fn wf(&self) -> bool {
        self.links_ok() && self.heap_ok()
    }

    /// The order holds at every edge but those from `p` to its children,
    /// and the parent of `p` is no later than the children of `p`.
    closed spec fn hole_down(&self, p: int) -> bool {
        &&& forall|i: int| 0 < i < self.items@.len() && parent(i) != p ==> self.items@[parent(i)].value <= (#[trigger] self.items@[i]).value
        &&& forall|i: int| 0 < i < self.items@.len() && parent(i) == p && p > 0 ==> self.items@[parent(p)].value <= (#[trigger] self.items@[i]).value
    }

    /// The order holds at every edge but the one from the parent of `p` to
    /// `p`, and the parent of `p` is no later than the children of `p`.
    closed spec fn hole_up(&self, p: int) -> bool {
        &&& forall|i: int| 0 < i < self.items@.len() && i != p ==> self.items@[parent(i)].value <= (#[trigger] self.items@[i]).value
        &&& forall|i: int| 0 < i < self.items@.len() && parent(i) == p && p > 0 ==> self.items@[parent(p)].value <= (#[trigger] self.items@[i]).value
    }

    pub fn new() -> (r: Self)
        ensures
            r.wf(),
            r@ == Map::<Seq<u8>, u64>::empty(),
            r.len() == 0,
    {
        let r = ExpHeap { items: Vec::new(), slots: HMap::new() };
        assert(r@ =~= Map::<Seq<u8>, u64>::empty());
        r
    }

    pub fn len_exec(&self) -> (r: usize)
        ensures
            r == self.len(),
    {
        self.items.len()
    }

    pub fn is_empty(&self) -> (r: bool)
        ensures
            r == (self.len() == 0),
    {
        self.items.len() == 0
    }

    /// The heap holds as many items as keys.
    pub proof fn lemma_len(&self)
        requires
            self.wf(),
        ensures
            self@.dom().finite(),
            self@.dom().len() == self.len(),
    {
        self.lemma_view_len();
        self.slots.lemma_union();
    }

    proof fn lemma_view_len(&self)
        requires
            self.links_ok(),
        ensures
            self.slots@.dom().len() == self.items@.len(),
            self@.dom() == self.slots@.dom(),
    {
        self.slots.lemma_union();
        assert(self@.dom() =~= self.slots@.dom());
        // The slots form a bijection between the keys and 0 .. len.
        let f = |k: Seq<u8>| self.slots@[k] as int;
        let keys = self.slots@.dom();
        let idx = Set::new(|i: int| 0 <= i < self.items@.len());
        assert(idx =~= keys.map(f)) by {
            assert forall|i: int| idx.contains(i) implies keys.map(f).contains(i) by {
                let k = self.items@[i].key@;
                assert(self.slots@.contains_key(self.items@[i].key@));
                assert(keys.contains(k) && f(k) == i);
            }
        }
        assert(vstd::relations::injective_on(f, keys)) by {
            assert forall|a: Seq<u8>, b: Seq<u8>| keys.contains(a) && keys.contains(b) && #[trigger] f(a) == #[trigger] f(b) implies a == b by {
            }
        }
        vstd::set_lib::lemma_map_size(keys, idx, f);
        vstd::set_lib::lemma_int_range(0, self.items@.len() as int);
        assert(idx =~= vstd::set_lib::set_int_range(0, self.items@.len() as int));
    }

    /// Swaps the items of slots `i` and `j` and records their new slots.
    fn swap_slots(&mut self, i: usize, j: usize)
        requires
            old(self).links_ok(),
            i < old(self).items@.len(),
            j < old(self).items@.len(),
            i != j,
        ensures
            final(self).links_ok(),
            final(self).items@ == old(self).items@.update(i as int, old(self).items@[j as int]).update(
                j as int,
                old(self).items@[i as int],
            ),
            final(self)@ == old(self)@,
            final(self).slots@.dom() == old(self).slots@.dom(),
    {
        let ghost it0 = self.items@;
        let ghost sl0 = self.slots@;
        proof {
            self.lemma_view_len();
            self.slots.lemma_union();
        }
        let mut a = HeapItem { value: 0, key: Vec::new() };
        self.items.set_and_swap(i, &mut a);
        self.items.set_and_swap(j, &mut a);
        self.items.set(i, a);
        assert(self.items@ =~= it0.update(i as int, it0[j as int]).update(j as int, it0[i as int]));
        let ki = vstd::slice::slice_to_vec(self.items[i].key.as_slice());
        let kj = vstd::slice::slice_to_vec(self.items[j].key.as_slice());
        assert(sl0.contains_key(ki@) && sl0.contains_key(kj@));
        self.slots.insert(ki, i);
        proof {
            self.slots.lemma_union();
            assert(self.slots@.dom() =~= sl0.dom());
        }
        self.slots.insert(kj, j);
        proof {
            self.slots.lemma_union();
            assert(self.slots@.dom() =~= sl0.dom());
            assert(it0[i as int].key@ != it0[j as int].key@);
            assert forall|k: Seq<u8>| #[trigger] self.slots@.contains_key(k) implies self.slots@[k] < self.items@.len()
                && self.items@[self.slots@[k] as int].key@ == k by {
                if k != ki@ && k != kj@ {
                    assert(sl0[k] != i && sl0[k] != j);
                }
            }
            assert(self@ =~= old(self)@);
        }
    }

    /// Moves the item at `pos` up past later parents.
    fn heap_up(&mut self, pos: usize)
        requires
            old(self).links_ok(),
            pos < old(self).items@.len(),
            old(self).hole_up(pos as int),
        ensures
            final(self).wf(),
            final(self)@ == old(self)@,
            final(self).len() == old(self).len(),
    {
        let mut p = pos;
        while p > 0 && self.items[heap_parent(p)].value > self.items[p].value
            invariant
                self.links_ok(),
                p < self.items@.len(),
                self.hole_up(p as int),
                self@ == old(self)@,
                self.items@.len() == old(self).items@.len(),
            decreases p,
        {
            let q = heap_parent(p);
            let ghost a = self.items@;
            self.swap_slots(p, q);
            proof {
                let b = self.items@;
                assert forall|i: int| 0 < i < b.len() && i != q implies b[parent(i)].value <= (#[trigger] b[i]).value by {
                    if parent(i) == q && i != p {
                        assert(a[q as int].value <= a[i].value);
                    } else if i == p {
                    } else if parent(i) == p {
                        assert(a[q as int].value <= a[i].value);
                    } else if i != q {
                        assert(b[i] == a[i]);
                    }
                }
                assert forall|i: int| 0 < i < b.len() && parent(i) == q && q > 0 implies b[parent(q as int)].value <= (#[trigger] b[i]).value by {
                    assert(a[parent(q as int)].value <= a[q as int].value);
                    if i != p {
                        assert(a[q as int].value <= a[i].value);
                    }
                }
            }
            p = q;
        }
        proof {
            if p > 0 {
                assert forall|i: int| 0 < i < self.items@.len() implies self.items@[parent(i)].value <= (#[trigger] self.items@[i]).value by {
                }
            }
        }
    }

    /// Moves the item at `pos` down past earlier children.
    fn heap_down(&mut self, pos: usize)
        requires
            old(self).links_ok(),
            pos < old(self).items@.len(),
            old(self).hole_down(pos as int),
        ensures
            final(self).wf(),
            final(self)@ == old(self)@,
            final(self).len() == old(self).len(),
    {
        let mut p = pos;
        let len = self.items.len();
        loop
            invariant
                self.links_ok(),
                len == self.items@.len(),
                p < len,
                self.hole_down(p as int),
                self@ == old(self)@,
            ensures
                self.wf(),
                self@ == old(self)@,
                len == self.items@.len(),
            decreases len - p,
        {
            let mut m = p;
            if p < usize::MAX / 2 {
                let l = heap_left(p);
                let r = heap_right(p);
                if l < len && self.items[l].value < self.items[m].value {
                    m = l;
                }
                if r < len && self.items[r].value < self.items[m].value {
                    m = r;
                }
            }
            if m == p {
                proof {
                    assert forall|i: int| 0 < i < len implies self.items@[parent(i)].value <= (#[trigger] self.items@[i]).value by {
                        if parent(i) == p {
                            assert(i == 2 * p + 1 || i == 2 * p + 2);
                        }
                    }
                }
                break;
            }
            let ghost a = self.items@;
            self.swap_slots(p, m);
            proof {
                let b = self.items@;
                assert(parent(m as int) == p);
                assert forall|i: int| 0 < i < b.len() && parent(i) != m implies b[parent(i)].value <= (#[trigger] b[i]).value by {
                    if i == m {
                    } else if i == p {
                        assert(a[parent(p as int)].value <= a[m as int].value);
                    } else if parent(i) == p {
                        assert(i == 2 * p + 1 || i == 2 * p + 2);
                    } else if parent(i) == m {
                    } else {
                        assert(b[i] == a[i]);
                    }
                }
                assert forall|i: int| 0 < i < b.len() && parent(i) == m && m > 0 implies b[parent(m as int)].value <= (#[trigger] b[i]).value by {
                    assert(a[m as int].value <= a[i].value);
                }
            }
            p = m;
        }
    }

    /// Restores the order after the deadline at `pos` changed.
    fn heap_update(&mut self, pos: usize)
        requires
            old(self).links_ok(),
            pos < old(self).items@.len(),
            forall|i: int| 0 < i < old(self).items@.len() && i != pos && parent(i) != pos
                ==> old(self).items@[parent(i)].value <= (#[trigger] old(self).items@[i]).value,
            forall|i: int| 0 < i < old(self).items@.len() && parent(i) == pos && pos > 0
                ==> old(self).items@[parent(pos as int)].value <= (#[trigger] old(self).items@[i]).value,
        ensures
            final(self).wf(),
            final(self)@ == old(self)@,
            final(self).len() == old(self).len(),
    {
        if pos > 0 && self.items[heap_parent(pos)].value > self.items[pos].value {
            self.heap_up(pos);
        } else {
            self.heap_down(pos);
        }
    }

    /// The earliest deadline and its key.
    pub fn top(&self) -> (r: Option<(u64, &[u8])>)
        requires
            self.wf(),
        ensures
            r.is_none() == (self@.dom().len() == 0),
            r.is_some() ==> self@.contains_key(r.unwrap().1@) && self@[r.unwrap().1@] == r.unwrap().0,
            r.is_some() ==> forall|k: Seq<u8>| #[trigger] self@.contains_key(k) ==> r.unwrap().0 <= self@[k],
    {
        proof {
            self.lemma_view_len();
        }
        if self.items.len() == 0 {
            None
        } else {
            proof {
                assert forall|k: Seq<u8>| #[trigger] self@.contains_key(k) implies self.items@[0].value <= self@[k] by {
                    self.lemma_root_min(self.slots@[k] as int);
                }
            }
            Some((self.items[0].value, self.items[0].key.as_slice()))
        }
    }

    proof fn lemma_root_min(&self, i: int)
        requires
            self.heap_ok(),
            0 <= i < self.items@.len(),
        ensures
            self.items@[0].value <= self.items@[i].value,
        decreases i,
    {
        if i > 0 {
            self.lemma_root_min(parent(i));
        }
    }

    /// The deadline of `key`, if it has one.
    pub fn get(&self, key: &[u8]) -> (r: Option<u64>)
        requires
            self.wf(),
        ensures
            r.is_some() == self@.contains_key(key@),
            r.is_some() ==> r.unwrap() == self@[key@],
    {
        match self.slots.lookup(key) {
            Some(i) => Some(self.items[*i].value),
            None => None,
        }
    }

    /// The slot of `key`, if it is in the heap.
    pub fn slot(&self, key: &[u8]) -> (r: Option<usize>)
        requires
            self.wf(),
        ensures
            r == self.slot_of(key@),
            r.is_some() == self@.contains_key(key@),
    {
        match self.slots.lookup(key) {
            Some(i) => Some(*i),
            None => None,
        }
    }

    /// Gives `key` the deadline `value`, in its slot if it has one, else in
    /// a new slot.
    pub fn heap_upsert(&mut self, key: &[u8], value: u64)
        requires
            old(self).wf(),
            old(self).len() + 3 < usize::MAX,
        ensures
            final(self).wf(),
            final(self)@ == old(self)@.insert(key@, value),
    {
        proof {
            self.lemma_view_len();
        }
        match self.slots.lookup(key) {
            Some(i) => {
                let i = *i;
                let ghost a = self.items@;
                let k = vstd::slice::slice_to_vec(key);
                self.items.set(i, HeapItem { value, key: k });
                proof {
                    let b = self.items@;
                    assert(self@ =~= old(self)@.insert(key@, value));
                    assert forall|j: int| 0 < j < b.len() && parent(j) == i && i > 0
                        implies b[parent(i as int)].value <= (#[trigger] b[j]).value by {
                        assert(a[parent(i as int)].value <= a[i as int].value);
                    }
                }
                self.heap_update(i);
            },
            None => {
                let pos = self.items.len();
                let k = vstd::slice::slice_to_vec(key);
                let k2 = vstd::slice::slice_to_vec(key);
                self.items.push(HeapItem { value, key: k });
                self.slots.insert(k2, pos);
                proof {
                    self.slots.lemma_union();
                    assert forall|j: int| 0 <= j < self.items@.len() implies #[trigger] self.slots@.contains_key(self.items@[j].key@)
                        && self.slots@[self.items@[j].key@] == j by {
                        if j < pos {
                            assert(old(self).slots@.contains_key(self.items@[j].key@));
                        }
                    }
                    assert(self@ =~= old(self)@.insert(key@, value));
                }
                self.heap_update(pos);
            },
        }
    }

    /// Removes the item at `pos`; the last item takes its slot. A slot past
    /// the end leaves the heap as it is.
    pub fn heap_delete(&mut self, pos: usize)
        requires
            old(self).wf(),
        ensures
            final(self).wf(),
            pos >= old(self).len() ==> *final(self) == *old(self),
            pos < old(self).len() ==> final(self)@ == old(self)@.remove(old(self).key_at(pos as int)),
            pos < old(self).len() ==> final(self).slot_of(old(self).key_at(pos as int)) is None,
            pos < old(self).len() ==> final(self).len() + 1 == old(self).len(),
    {
        if pos >= self.items.len() {
            return;
        }
        proof {
            self.lemma_view_len();
        }
        let last = self.items.len() - 1;
        let ghost k = self.items@[pos as int].key@;
        if pos != last {
            self.swap_slots(pos, last);
        }
        let ghost a = self.items@;
        let item = self.items.pop().unwrap();
        let _ = self.slots.delete(item.key.as_slice());
        proof {
            self.slots.lemma_union();
            assert forall|j: int| 0 <= j < self.items@.len() implies #[trigger] self.slots@.contains_key(self.items@[j].key@)
                && self.slots@[self.items@[j].key@] == j by {
                assert(self.items@[j] == a[j]);
                assert(a[j].key@ != a[last as int].key@);
            }
            assert(self@ =~= old(self)@.remove(k));
        }
        if pos < self.items.len() {
            proof {
                let b = self.items@;
                let o = old(self).items@;
                assert forall|j: int| 0 < j < b.len() && parent(j) == pos && pos > 0
                    implies b[parent(pos as int)].value <= (#[trigger] b[j]).value by {
                    assert(o[parent(pos as int)].value <= o[pos as int].value);
                    assert(b[j] == o[j]);
                }
                assert forall|j: int| 0 < j < b.len() && j != pos && parent(j) != pos
                    implies b[parent(j)].value <= (#[trigger] b[j]).value by {
                    assert(b[j] == o[j]);
                    assert(b[parent(j)] == o[parent(j)]);
                }
            }
            self.heap_update(pos);
        } else {
            proof {
                let b = self.items@;
                let o = old(self).items@;
                assert forall|j: int| 0 < j < b.len() implies b[parent(j)].value <= (#[trigger] b[j]).value by {
                    assert(b[j] == o[j]);
                    assert(b[parent(j)] == o[parent(j)]);
                }
            }
        }
    }

    /// Removes `key` from the heap if it is there; returns whether it was.
    pub fn remove_key(&mut self, key: &[u8]) -> (r: bool)
        requires
            old(self).wf(),
        ensures
            final(self).wf(),
            final(self)@ == old(self)@.remove(key@),
            r == old(self)@.contains_key(key@),
    {
        match self.slot(key) {
            Some(i) => {
                self.heap_delete(i);
                true
            },
            None => {
                assert(old(self)@ =~= old(self)@.remove(key@));
                false
            },
        }
    }
}

} // verus!
