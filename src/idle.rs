use vstd::prelude::*;
use crate::buffer::Buffer;
use crate::heap::ExpHeap;

verus! {

/// A connection without activity for this long is closed.
pub const K_IDLE_TIMEOUT_MS: u64 = 5000;

/// A node of the idle list: its neighbours, and the connection id and time
/// of last activity that it carries.
#[derive(Clone, Copy)]
pub struct DNode {
    prev: usize,
    next: usize,
    id: u64,
    time: u64,
    live: bool,
}

/// Connections in order of last activity, least recent first: a circular
/// doubly linked list through an arena of nodes, with the sentinel at
/// slot 0. A connection keeps the slot of its node as a handle, so that
/// it is taken out without a search.
pub struct DList {
    nodes: Vec<DNode>,
    free: Vec<usize>,
    order: Ghost<Seq<usize>>,
}

/// The time recorded for activity at `now` appended after `s`: `now`, or
/// the tail's time if that is later, so that times never decrease.
pub open spec fn tail_time(s: Seq<(u64, u64)>, now: u64) -> u64 {
    if s.len() > 0 && s.last().1 > now {
        s.last().1
    } else {
        now
    }
}

/// Whether activity at time `t` is at least `K_IDLE_TIMEOUT_MS` old at `now`.
pub open spec fn idle_expired(t: u64, now: u64) -> bool {
    t + K_IDLE_TIMEOUT_MS <= now
}

pub open spec fn ids_of(s: Seq<(u64, u64)>) -> Seq<u64> {
    s.map_values(|p: (u64, u64)| p.0)
}

impl View for DList {
    type V = Seq<(u64, u64)>;

    /// Each connection id with its time of last activity, in list order.
    closed spec fn view(&self) -> Seq<(u64, u64)> {
        self.order@.map_values(|h: usize| (self.nodes@[h as int].id, self.nodes@[h as int].time))
    }
}

impl DList {
    /// The handles of the listed connections, in list order.
    pub closed spec fn handles(&self) -> Seq<usize> {
        self.order@
    }

    /// Number of free slots, reused before the arena grows.
    pub closed spec fn spare(&self) -> nat {
        self.free@.len()
    }

    /// The slots of the sentinel and then of the listed nodes.
    closed spec fn ring(&self) -> Seq<usize> {
        seq![0usize] + self.order@
    }

    /// The `i`-th node of the ring and the one after it link to each other.
    closed spec fn link_at(&self, i: int) -> bool {
        &&& self.nodes@[self.ring()[i] as int].next == self.ring()[i + 1]
        &&& self.nodes@[self.ring()[i + 1] as int].prev == self.ring()[i]
    }

    /// Each node links to the next one in order and back, the last one to
    /// the sentinel; free slots hold no listed node.
    pub closed spec fn links_ok(&self) -> bool {
        &&& self.nodes@.len() >= 1
        &&& self.nodes@.len() == 1 + self.order@.len() + self.free@.len()
        &&& self.order@.no_duplicates()
        &&& self.free@.no_duplicates()
        &&& forall|i: int| 0 <= i < self.order@.len() ==> 1 <= #[trigger] self.order@[i] < self.nodes@.len()
        &&& forall|i: int| 0 <= i < self.order@.len() ==> #[trigger] self.link_at(i)
        &&& self.nodes@[self.ring().last() as int].next == 0
        &&& self.nodes@[0].prev == self.ring().last()
        &&& forall|i: int| 0 <= i < self.free@.len() ==> 1 <= #[trigger] self.free@[i] < self.nodes@.len()
            && !self.order@.contains(self.free@[i])
        &&& forall|k: usize| 1 <= k < self.nodes@.len() ==> (#[trigger] self.nodes@[k as int].live <==> self.order@.contains(k))
    }

    /// Each connection once; activity times never decrease along the list.
    pub open spec fn wf(&self) -> bool {
        &&& self.links_ok()
        &&& ids_of(self@).no_duplicates()
        &&& forall|i: int, j: int| 0 <= i < j < self@.len() ==> (#[trigger] self@[i]).1 <= (#[trigger] self@[j]).1
    }

    /// The slot after the sentinel is the first listed node, or the
    /// sentinel itself for an empty list.
    proof fn lemma_first(&self)
        requires
            self.links_ok(),
        ensures
            self.order@.len() == 0 ==> self.nodes@[0].next == 0,
            self.order@.len() > 0 ==> self.nodes@[0].next == self.order@[0] && self.order@[0] != 0,
            self@.len() == self.order@.len(),
    {
        if self.order@.len() > 0 {
            assert(self.link_at(0));
            assert(self.ring()[1] == self.order@[0]);
        } else {
            assert(self.ring().last() == 0);
        }
    }

    pub fn new() -> (r: Self)
        ensures
            r.wf(),
            r@ == Seq::<(u64, u64)>::empty(),
            r.handles() == Seq::<usize>::empty(),
    {
        let mut nodes: Vec<DNode> = Vec::new();
        nodes.push(DNode { prev: 0, next: 0, id: 0, time: 0, live: false });
        let r = DList { nodes, free: Vec::new(), order: Ghost(Seq::empty()) };
        proof {
            assert(r.ring() =~= seq![0usize]);
            assert(r@ =~= Seq::<(u64, u64)>::empty());
            assert(ids_of(r@) =~= Seq::<u64>::empty());
        }
        r
    }

    pub fn dlist_empty(&self) -> (r: bool)
        requires
            self.links_ok(),
        ensures
            r == (self@.len() == 0),
    {
        proof {
            self.lemma_first();
        }
        self.nodes[0].next == 0
    }

    /// The least recently active connection: its id and time.
    pub fn head(&self) -> (r: Option<(u64, u64)>)
        requires
            self.links_ok(),
        ensures
            self@.len() == 0 ==> r.is_none(),
            self@.len() > 0 ==> r == Some(self@[0]),
    {
        proof {
            self.lemma_first();
        }
        let h = self.nodes[0].next;
        if h == 0 {
            None
        } else {
            let n = self.nodes[h];
            Some((n.id, n.time))
        }
    }

    /// Number of listed connections.
    pub fn len(&self) -> (r: usize)
        requires
            self.links_ok(),
        ensures
            r == self@.len(),
    {
        proof {
            self.lemma_first();
        }
        self.nodes.len() - 1 - self.free.len()
    }

    /// Number of free slots.
    pub fn spare_slots(&self) -> (r: usize)
        ensures
            r == self.spare(),
    {
        self.free.len()
    }

    /// Whether `h` is the handle of a listed connection.
    pub fn has_handle(&self, h: usize) -> (r: bool)
        requires
            self.links_ok(),
        ensures
            r == self.handles().contains(h),
    {
        proof {
            if self.order@.contains(h) {
                let q = choose|q: int| 0 <= q < self.order@.len() && self.order@[q] == h;
                assert(1 <= self.order@[q] < self.nodes@.len());
            }
        }
        h != 0 && h < self.nodes.len() && self.nodes[h].live
    }

    /// Whether connection `id` is listed.
    pub fn has_id(&self, id: u64) -> (r: bool)
        requires
            self.links_ok(),
        ensures
            r == ids_of(self@).contains(id),
    {
        proof {
            self.lemma_first();
            self.lemma_ring_distinct();
        }
        let ghost ord = self.order@;
        let cap = self.nodes.len();
        let mut c = self.nodes[0].next;
        let mut k: usize = 0;
        while c != 0
            invariant
                self.links_ok(),
                cap == self.nodes@.len(),
                ord == self.order@,
                k <= ord.len(),
                c == if k < ord.len() { ord[k as int] } else { 0usize },
                forall|i: int| 0 <= i < k ==> (#[trigger] self@[i]).0 != id,
            decreases ord.len() - k,
        {
            proof {
                if k >= ord.len() {
                    assert(c == 0);
                }
                assert(1 <= ord[k as int] < self.nodes@.len());
            }
            if self.nodes[c].id == id {
                proof {
                    assert(self@[k as int].0 == id);
                    assert(ids_of(self@)[k as int] == id);
                }
                return true;
            }
            proof {
                assert(self.ring()[k + 1] == ord[k as int]);
                if k + 1 < ord.len() {
                    assert(self.link_at(k + 1));
                    assert(self.ring()[k + 2] == ord[k + 1]);
                } else {
                    assert(self.ring().last() == ord[k as int]);
                }
            }
            c = self.nodes[c].next;
            k = k + 1;
        }
        proof {
            if k < ord.len() {
                assert(ord[k as int] != 0);
            }
            if ids_of(self@).contains(id) {
                let i = choose|i: int| 0 <= i < ids_of(self@).len() && ids_of(self@)[i] == id;
                assert(self@[i].0 == id);
            }
        }
        false
    }

    /// Puts connection `id`, active at `now_ms`, at the tail: just before
    /// the sentinel. A time earlier than the tail's counts as the tail's.
    /// Returns the handle of its node.
    pub fn dlist_insert_before(&mut self, id: u64, now_ms: u64) -> (h: usize)
        requires
            old(self).wf(),
            !ids_of(old(self)@).contains(id),
            old(self).spare() > 0 || old(self)@.len() + 2 < usize::MAX,
        ensures
            final(self).wf(),
            final(self).handles() == old(self).handles().push(h),
            !old(self).handles().contains(h),
            final(self)@.len() == old(self)@.len() + 1,
            final(self)@.subrange(0, old(self)@.len() as int) == old(self)@,
            final(self)@.last().0 == id,
            final(self)@.last().1 == tail_time(old(self)@, now_ms),
    {
        proof {
            self.lemma_first();
        }
        let ghost v0 = self@;
        let ghost ring0 = self.ring();
        let ghost ord0 = self.order@;
        let ghost nodes0 = self.nodes@;
        let ghost free0 = self.free@;
        let last = self.nodes[0].prev;
        proof {
            assert(ring0.last() == last);
            if ord0.len() > 0 {
                assert(last == ord0[ord0.len() - 1]);
            }
        }
        let t = if last != 0 && self.nodes[last].time > now_ms { self.nodes[last].time } else { now_ms };
        proof {
            if ord0.len() > 0 {
                assert(v0.last().1 == nodes0[last as int].time);
            }
            assert(t == tail_time(v0, now_ms));
        }
        let h = match self.free.pop() {
            Some(f) => {
                proof {
                    assert(free0[free0.len() - 1] == f);
                }
                self.nodes.set(f, DNode { prev: last, next: 0, id, time: t, live: true });
                f
            },
            None => {
                let n = self.nodes.len();
                self.nodes.push(DNode { prev: last, next: 0, id, time: t, live: true });
                n
            },
        };
        proof {
            assert(h != 0);
            assert(!ord0.contains(h)) by {
                if ord0.contains(h) {
                    let k = choose|k: int| 0 <= k < ord0.len() && ord0[k] == h;
                    assert(1 <= ord0[k] < nodes0.len());
                }
            }
        }
        let mut ln = self.nodes[last];
        ln.next = h;
        self.nodes.set(last, ln);
        let mut s0 = self.nodes[0];
        s0.prev = h;
        self.nodes.set(0, s0);
        proof {
            self.order@ = ord0.push(h);
            let ring = self.ring();
            assert(ring =~= ring0.push(h));
            // Nodes other than the new one, the old tail and the sentinel are unchanged.
            assert forall|k: int| 0 <= k < nodes0.len() && k != h && k != last && k != 0 implies self.nodes@[k] == nodes0[k] by {}
            assert forall|i: int| 0 <= i < self.order@.len() implies 1 <= #[trigger] self.order@[i] < self.nodes@.len() by {
                if i < ord0.len() {
                    assert(self.order@[i] == ord0[i]);
                }
            }
            assert forall|a: int, b: int| 0 <= a < b < self.order@.len() implies self.order@[a] != self.order@[b] by {
                if b == ord0.len() {
                    assert(self.order@[a] == ord0[a]);
                }
            }
            assert forall|i: int| 0 <= i < self.order@.len() implies #[trigger] self.link_at(i) by {
                if i < ord0.len() {
                    assert(old(self).link_at(i));
                    assert(ring[i] == ring0[i] && ring[i + 1] == ring0[i + 1]);
                    assert(ring0[i + 1] == ord0[i]);
                    if i > 0 {
                        assert(ring0[i] == ord0[i - 1]);
                        assert(ord0[i - 1] != ord0[ord0.len() - 1]);
                    } else {
                        assert(last != 0);
                    }
                } else {
                    assert(ring[i] == last);
                    assert(ring[i + 1] == h);
                }
            }
            assert forall|i: int| 0 <= i < self.free@.len() implies 1 <= #[trigger] self.free@[i] < self.nodes@.len()
                && !self.order@.contains(self.free@[i]) by {
                assert(self.free@[i] == free0[i]);
                if self.order@.contains(self.free@[i]) {
                    let k = choose|k: int| 0 <= k < self.order@.len() && self.order@[k] == self.free@[i];
                    if k < ord0.len() {
                        assert(ord0[k] == self.free@[i]);
                    } else {
                        assert(free0[i] != free0[free0.len() - 1]);
                    }
                }
            }
            assert forall|a: int, b: int| 0 <= a < b < self.free@.len() implies self.free@[a] != self.free@[b] by {
                assert(self.free@[a] == free0[a] && self.free@[b] == free0[b]);
            }
            assert forall|k: usize| 1 <= k < self.nodes@.len() implies (#[trigger] self.nodes@[k as int].live <==> self.order@.contains(k)) by {
                if k != h {
                    assert(self.nodes@[k as int].live == nodes0[k as int].live);
                    if self.order@.contains(k) {
                        let q = choose|q: int| 0 <= q < self.order@.len() && self.order@[q] == k;
                        if q < ord0.len() {
                            assert(ord0[q] == k);
                        }
                    }
                    if ord0.contains(k) {
                        let q = choose|q: int| 0 <= q < ord0.len() && ord0[q] == k;
                        assert(self.order@[q] == k);
                    }
                } else {
                    assert(self.order@[ord0.len() as int] == h);
                }
            }
            assert(self@ =~= v0.push((id, t)));
            assert(ids_of(self@) =~= ids_of(v0).push(id));
            assert forall|i: int, j: int| 0 <= i < j < self@.len() implies (#[trigger] self@[i]).1 <= (#[trigger] self@[j]).1 by {
                if j == v0.len() && i < v0.len() {
                    assert(v0[i].1 <= v0[v0.len() - 1].1 || i == v0.len() - 1);
                }
            }
            assert(self@.subrange(0, v0.len() as int) =~= v0);
        }
        h
    }

    proof fn lemma_ring_distinct(&self)
        requires
            self.links_ok(),
        ensures
            forall|a: int, b: int| 0 <= a < b < self.ring().len() ==> self.ring()[a] != self.ring()[b],
            forall|a: int| 0 <= a < self.ring().len() ==> self.ring()[a] < self.nodes@.len(),
            self.ring().len() == self.order@.len() + 1,
    {
        let ring = self.ring();
        assert forall|a: int, b: int| 0 <= a < b < ring.len() implies ring[a] != ring[b] by {
            assert(ring[b] == self.order@[b - 1]);
            if a > 0 {
                assert(ring[a] == self.order@[a - 1]);
            }
        }
        assert forall|a: int| 0 <= a < ring.len() implies ring[a] < self.nodes@.len() by {
            if a > 0 {
                assert(ring[a] == self.order@[a - 1]);
            }
        }
    }

    /// Takes the connection with handle `h` out of the list.
    #[verifier::rlimit(100)]
    pub fn dlist_detach(&mut self, h: usize)
        requires
            old(self).wf(),
            old(self).handles().contains(h),
        ensures
            final(self).wf(),
            final(self).handles() == old(self).handles().remove(old(self).handles().index_of(h)),
            final(self)@ == old(self)@.remove(old(self).handles().index_of(h)),
            final(self).spare() > 0,
    {
        let ghost ord0 = self.order@;
        let ghost ring0 = self.ring();
        let ghost v0 = self@;
        let ghost nodes0 = self.nodes@;
        let ghost free0 = self.free@;
        let ghost j = ord0.index_of(h);
        let ghost len = ord0.len() as int;
        proof {
            self.lemma_ring_distinct();
            assert(ord0.contains(h));
            assert(ord0[j] == h);
            assert(ring0[j + 1] == h);
            assert(self.link_at(j));
            if j + 1 < len {
                assert(self.link_at(j + 1));
            } else {
                assert(ring0.last() == h);
            }
        }
        let node = self.nodes[h];
        let p = node.prev;
        let n = node.next;
        proof {
            assert(p == ring0[j]);
            assert(j + 1 < len ==> n == ring0[j + 2]);
            assert(j + 1 == len ==> n == 0);
            assert(n < nodes0.len()) by {
                if j + 1 < len {
                    assert(ring0[j + 2] < nodes0.len());
                }
            }
        }
        let mut pn = self.nodes[p];
        pn.next = n;
        self.nodes.set(p, pn);
        let mut nn = self.nodes[n];
        nn.prev = p;
        self.nodes.set(n, nn);
        let mut hn = self.nodes[h];
        hn.live = false;
        self.nodes.set(h, hn);
        self.free.push(h);
        proof {
            self.order@ = ord0.remove(j);
            let ring = self.ring();
            assert(ring =~= ring0.remove(j + 1));
            assert(h != p && h != n);
            assert forall|k: int| 0 <= k < nodes0.len() && k != p && k != n && k != h implies self.nodes@[k] == nodes0[k] by {}
            assert forall|k: usize| 1 <= k < self.nodes@.len() implies (#[trigger] self.nodes@[k as int].live <==> self.order@.contains(k)) by {
                if k != h {
                    assert(self.nodes@[k as int].live == nodes0[k as int].live);
                    if self.order@.contains(k) {
                        let q = choose|q: int| 0 <= q < self.order@.len() && self.order@[q] == k;
                        let q0 = if q < j { q } else { q + 1 };
                        assert(ord0[q0] == k);
                    }
                    if ord0.contains(k) {
                        let q0 = choose|q0: int| 0 <= q0 < ord0.len() && ord0[q0] == k;
                        assert(ord0[j] == h);
                        assert(q0 != j);
                        let q = if q0 < j { q0 } else { q0 - 1 };
                        assert(self.order@[q] == k);
                    }
                } else {
                    if self.order@.contains(h) {
                        let q = choose|q: int| 0 <= q < self.order@.len() && self.order@[q] == h;
                        let q0 = if q < j { q } else { q + 1 };
                        assert(ord0[q0] == h);
                    }
                }
            }
            assert(self.nodes@[p as int].next == n);
            assert(self.nodes@[n as int].prev == p);
            assert forall|i: int| 0 <= i < self.order@.len() implies 1 <= #[trigger] self.order@[i] < self.nodes@.len() by {
                if i < j {
                    assert(self.order@[i] == ord0[i]);
                } else {
                    assert(self.order@[i] == ord0[i + 1]);
                }
            }
            assert forall|a: int, b: int| 0 <= a < b < self.order@.len() implies self.order@[a] != self.order@[b] by {
                let a0 = if a < j { a } else { a + 1 };
                let b0 = if b < j { b } else { b + 1 };
                assert(self.order@[a] == ord0[a0] && self.order@[b] == ord0[b0]);
            }
            assert forall|i: int| 0 <= i < self.order@.len() implies #[trigger] self.link_at(i) by {
                if i < j {
                    assert(old(self).link_at(i));
                    assert(ring[i] == ring0[i] && ring[i + 1] == ring0[i + 1]);
                    assert(ring0[i] != p);
                    assert(ring0[i + 1] != n) by {
                        if j + 1 < len {
                            assert(ring0[i + 1] != ring0[j + 2]);
                        } else {
                            assert(ring0[i + 1] != ring0[0]);
                        }
                    }
                    if ring0[i] == n {
                        assert(n == 0 && i == 0);
                    }
                    if ring0[i + 1] == p {
                        assert(i + 1 == j);
                    }
                } else if i == j {
                    assert(ring[i] == p);
                    assert(ring[i + 1] == ring0[j + 2]);
                } else {
                    assert(old(self).link_at(i + 1));
                    assert(ring[i] == ring0[i + 1] && ring[i + 1] == ring0[i + 2]);
                    assert(ring0[i + 1] != p);
                    assert(ring0[i + 2] != n);
                    assert(ring0[i + 2] != p);
                    if ring0[i + 1] == n {
                        assert(i == j + 1);
                    }
                }
            }
            if j + 1 < len {
                assert(ring.last() == ring0.last());
                assert(ring0.last() != p);
                assert(ring0.last() != n || j + 2 == len);
                assert(n != 0);
            } else {
                assert(ring.last() == p);
            }
            assert forall|i: int| 0 <= i < self.free@.len() implies 1 <= #[trigger] self.free@[i] < self.nodes@.len()
                && !self.order@.contains(self.free@[i]) by {
                if i < free0.len() {
                    assert(self.free@[i] == free0[i]);
                    if self.order@.contains(self.free@[i]) {
                        let k = choose|k: int| 0 <= k < self.order@.len() && self.order@[k] == self.free@[i];
                        let k0 = if k < j { k } else { k + 1 };
                        assert(ord0[k0] == self.free@[i]);
                    }
                } else {
                    assert(self.free@[i] == h);
                    if self.order@.contains(h) {
                        let k = choose|k: int| 0 <= k < self.order@.len() && self.order@[k] == h;
                        let k0 = if k < j { k } else { k + 1 };
                        assert(ord0[k0] == h);
                    }
                }
            }
            assert forall|a: int, b: int| 0 <= a < b < self.free@.len() implies self.free@[a] != self.free@[b] by {
                if b == free0.len() {
                    assert(self.free@[a] == free0[a]);
                    assert(!ord0.contains(free0[a]));
                } else {
                    assert(self.free@[a] == free0[a] && self.free@[b] == free0[b]);
                }
            }
            assert(self@ =~= v0.remove(j)) by {
                assert forall|i: int| 0 <= i < self.order@.len() implies self.nodes@[self.order@[i] as int].id
                    == nodes0[self.order@[i] as int].id && self.nodes@[self.order@[i] as int].time
                    == nodes0[self.order@[i] as int].time by {
                }
            }
            assert forall|a: int, b: int| 0 <= a < b < self@.len() implies (#[trigger] self@[a]).1 <= (#[trigger] self@[b]).1 by {
                let a0 = if a < j { a } else { a + 1 };
                let b0 = if b < j { b } else { b + 1 };
                assert(self@[a] == v0[a0] && self@[b] == v0[b0]);
            }
            assert forall|a: int, b: int| 0 <= a < b < self@.len() implies ids_of(self@)[a] != ids_of(self@)[b] by {
                let a0 = if a < j { a } else { a + 1 };
                let b0 = if b < j { b } else { b + 1 };
                assert(self@[a] == v0[a0] && self@[b] == v0[b0]);
                assert(ids_of(v0)[a0] != ids_of(v0)[b0]);
            }
        }
    }

    /// Records activity of the connection with handle `h` at `now_ms`: it
    /// moves to the tail. Returns its new handle.
    pub fn touch(&mut self, h: usize, now_ms: u64) -> (h2: usize)
        requires
            old(self).wf(),
            old(self).handles().contains(h),
        ensures
            final(self).wf(),
            final(self).handles() == old(self).handles().remove(old(self).handles().index_of(h)).push(h2),
            final(self)@.len() == old(self)@.len(),
            final(self)@.subrange(0, final(self)@.len() - 1) == old(self)@.remove(old(self).handles().index_of(h)),
            final(self)@.last().0 == old(self)@[old(self).handles().index_of(h)].0,
            final(self)@.last().1 == tail_time(old(self)@.remove(old(self).handles().index_of(h)), now_ms),
    {
        let ghost j = self.handles().index_of(h);
        let ghost v0 = self@;
        proof {
            self.lemma_first();
            assert(self.order@.contains(h));
            assert(self.order@[j] == h);
        }
        let id = self.nodes[h].id;
        proof {
            assert(self.order@[j] == h);
            assert(v0[j].0 == id);
        }
        self.dlist_detach(h);
        proof {
            if ids_of(self@).contains(id) {
                let k = choose|k: int| 0 <= k < ids_of(self@).len() && ids_of(self@)[k] == id;
                let k0 = if k < j { k } else { k + 1 };
                assert(self@[k] == v0[k0]);
                assert(ids_of(v0)[k0] == ids_of(v0)[j]);
            }
        }
        self.dlist_insert_before(id, now_ms)
    }

    /// Takes off the head connection if it has been idle for at least
    /// `K_IDLE_TIMEOUT_MS` at `now_ms`, and returns its id.
    pub fn pop_idle(&mut self, now_ms: u64) -> (r: Option<u64>)
        requires
            old(self).wf(),
        ensures
            final(self).wf(),
            old(self)@.len() > 0 && idle_expired(old(self)@[0].1, now_ms) ==> r == Some(old(self)@[0].0)
                && final(self)@ == old(self)@.drop_first() && final(self).handles() == old(self).handles().drop_first(),
            !(old(self)@.len() > 0 && idle_expired(old(self)@[0].1, now_ms)) ==> r.is_none()
                && final(self)@ == old(self)@ && final(self).handles() == old(self).handles(),
    {
        proof {
            self.lemma_first();
        }
        let h = self.nodes[0].next;
        if h == 0 {
            return None;
        }
        let id = self.nodes[h].id;
        let last = self.nodes[h].time;
        if now_ms >= K_IDLE_TIMEOUT_MS && last <= now_ms - K_IDLE_TIMEOUT_MS {
            proof {
                assert(self.order@[0] == h);
                assert(self.order@.index_of(h) == 0) by {
                    let k = self.order@.index_of(h);
                    assert(self.order@.contains(h));
                    assert(self.order@[k] == h);
                }
            }
            self.dlist_detach(h);
            proof {
                assert(old(self)@.remove(0) =~= old(self)@.drop_first());
                assert(old(self).handles().remove(0) =~= old(self).handles().drop_first());
            }
            Some(id)
        } else {
            None
        }
    }

    /// Takes off every connection idle for at least `K_IDLE_TIMEOUT_MS` at
    /// `now_ms`, least recently active first, and returns their ids; the
    /// others stay in order.
    pub fn pop_expired(&mut self, now_ms: u64) -> (r: Vec<u64>)
        requires
            old(self).wf(),
        ensures
            final(self).wf(),
            r@.len() <= old(self)@.len(),
            forall|i: int| 0 <= i < r@.len() ==> r@[i] == old(self)@[i].0 && idle_expired(old(self)@[i].1, now_ms),
            r@.len() < old(self)@.len() ==> !idle_expired(old(self)@[r@.len() as int].1, now_ms),
            final(self)@ == old(self)@.skip(r@.len() as int),
            final(self).handles() == old(self).handles().skip(r@.len() as int),
    {
        let mut r: Vec<u64> = Vec::new();
        proof {
            assert(old(self)@.skip(0) =~= old(self)@);
            assert(old(self).handles().skip(0) =~= old(self).handles());
        }
        loop
            invariant
                self.wf(),
                r@.len() <= old(self)@.len(),
                forall|i: int| 0 <= i < r@.len() ==> r@[i] == old(self)@[i].0 && idle_expired(old(self)@[i].1, now_ms),
                self@ == old(self)@.skip(r@.len() as int),
                self.handles() == old(self).handles().skip(r@.len() as int),
            ensures
                self.wf(),
                r@.len() <= old(self)@.len(),
                forall|i: int| 0 <= i < r@.len() ==> r@[i] == old(self)@[i].0 && idle_expired(old(self)@[i].1, now_ms),
                r@.len() < old(self)@.len() ==> !idle_expired(old(self)@[r@.len() as int].1, now_ms),
                self@ == old(self)@.skip(r@.len() as int),
                self.handles() == old(self).handles().skip(r@.len() as int),
            decreases self@.len(),
        {
            let ghost k = r@.len() as int;
            let ghost v = self@;
            let ghost hs = self.handles();
            match self.pop_idle(now_ms) {
                Some(id) => {
                    r.push(id);
                    proof {
                        assert(v[0] == old(self)@[k]);
                        assert(self@ =~= old(self)@.skip(k + 1));
                        assert(self.handles() =~= old(self).handles().skip(k + 1));
                    }
                },
                None => {
                    proof {
                        if k < old(self)@.len() {
                            assert(v[0] == old(self)@[k]);
                        }
                    }
                    break;
                },
            }
        }
        r
    }
}

/// When the next timer is due: the earlier of the idle deadline of the
/// least recently active connection and the earliest key deadline.
pub open spec fn next_deadline(idle: Seq<(u64, u64)>, ttl: Map<Seq<u8>, u64>, top: Option<u64>) -> Option<int> {
    let a: Option<int> = if idle.len() > 0 { Some(idle[0].1 + K_IDLE_TIMEOUT_MS) } else { None };
    match (a, top) {
        (None, None) => None,
        (Some(x), None) => Some(x),
        (None, Some(y)) => Some(y as int),
        (Some(x), Some(y)) => Some(if x <= y { x } else { y as int }),
    }
}

/// Milliseconds to wait for the next timer: -1 with no timer, 0 for one
/// already due, at most `i32::MAX`.
pub open spec fn wait_ms(next: Option<int>, now: u64) -> i32 {
    match next {
        None => -1i32,
        Some(t) => if t <= now {
            0i32
        } else if t - now > i32::MAX {
            i32::MAX
        } else {
            (t - now) as i32
        },
    }
}

pub fn next_timer_ms(idle: &DList, heap: &ExpHeap, now_ms: u64) -> (r: i32)
    requires
        idle.wf(),
        heap.wf(),
    ensures
        exists|top: Option<u64>| {
            &&& (top.is_none() <==> heap@.dom().len() == 0)
            &&& (top.is_some() ==> (exists|k: Seq<u8>| #[trigger] heap@.contains_key(k) && heap@[k] == top.unwrap())
                && forall|k: Seq<u8>| #[trigger] heap@.contains_key(k) ==> top.unwrap() <= heap@[k])
            &&& r == wait_ms(next_deadline(idle@, heap@, top), now_ms)
        },
{
    let mut next: u128 = 0;
    let mut have = false;
    match idle.head() {
        Some((_, last)) => {
            next = last as u128 + K_IDLE_TIMEOUT_MS as u128;
            have = true;
        },
        None => {},
    }
    let top = heap.top();
    let ghost topv: Option<u64> = match top {
        Some((v, _)) => Some(v),
        None => None,
    };
    match top {
        Some((v, _)) => {
            if !have || (v as u128) < next {
                next = v as u128;
            }
            have = true;
        },
        None => {},
    }
    let r: i32 = if !have {
        -1
    } else if next <= now_ms as u128 {
        0
    } else if next - now_ms as u128 > i32::MAX as u128 {
        i32::MAX
    } else {
        (next - now_ms as u128) as i32
    };
    proof {
        let nd = next_deadline(idle@, heap@, topv);
        assert(have ==> nd == Some(next as int));
        assert(!have ==> nd.is_none());
        assert(r == wait_ms(nd, now_ms));
        if topv.is_some() {
            assert(heap@.contains_key(top.unwrap().1@));
        }
    }
    r
}

/// A connection's buffers and what the event loop is to do with it next.
pub struct ConnState {
    pub want_read: bool,
    pub want_write: bool,
    pub want_close: bool,
    pub incoming: Buffer,
    pub outgoing: Buffer,
    pub last_active_ms: u64,
}

impl ConnState {
    pub open spec fn wf(&self) -> bool {
        self.incoming.wf() && self.outgoing.wf()
    }

    pub fn new(now_ms: u64) -> (r: Self)
        ensures
            r.wf(),
            r.want_read && !r.want_write && !r.want_close,
            r.incoming@.len() == 0,
            r.outgoing@.len() == 0,
            r.last_active_ms == now_ms,
    {
        ConnState {
            want_read: true,
            want_write: false,
            want_close: false,
            incoming: Buffer::new(),
            outgoing: Buffer::new(),
            last_active_ms: now_ms,
        }
    }

    /// Takes in what one read returned: nothing means the peer closed.
    pub fn on_read(&mut self, data: &[u8], now_ms: u64)
        requires
            old(self).wf(),
        ensures
            final(self).wf(),
            final(self).last_active_ms == now_ms,
            data@.len() == 0 ==> final(self).want_close && final(self).incoming@ == old(self).incoming@,
            data@.len() > 0 ==> final(self).want_close == old(self).want_close && final(self).incoming@
                == old(self).incoming@ + data@,
            final(self).outgoing@ == old(self).outgoing@,
            final(self).want_read == old(self).want_read,
            final(self).want_write == old(self).want_write,
    {
        self.last_active_ms = now_ms;
        if data.len() == 0 {
            self.want_close = true;
        } else {
            self.incoming.extend_from_slice(data);
        }
    }

    /// After the requests read so far were served: with replies pending,
    /// stop reading and start writing.
    pub fn after_requests(&mut self)
        requires
            old(self).wf(),
        ensures
            final(self).wf(),
            final(self).incoming@ == old(self).incoming@,
            final(self).outgoing@ == old(self).outgoing@,
            final(self).want_close == old(self).want_close,
            old(self).outgoing@.len() > 0 ==> !final(self).want_read && final(self).want_write,
            old(self).outgoing@.len() == 0 ==> final(self).want_read == old(self).want_read
                && final(self).want_write == old(self).want_write,
    {
        if !self.outgoing.is_empty() {
            self.want_read = false;
            self.want_write = true;
        }
    }

    /// Takes in how many bytes one write accepted: none means the peer is
    /// gone; once everything is written, reading resumes.
    pub fn on_written(&mut self, n: usize, now_ms: u64)
        requires
            old(self).wf(),
            n <= old(self).outgoing@.len(),
        ensures
            final(self).wf(),
            final(self).last_active_ms == now_ms,
            final(self).incoming@ == old(self).incoming@,
            n == 0 ==> final(self).want_close && final(self).outgoing@ == old(self).outgoing@,
            n > 0 ==> final(self).outgoing@ == old(self).outgoing@.subrange(n as int, old(self).outgoing@.len() as int),
            n > 0 && n == old(self).outgoing@.len() ==> final(self).want_read && !final(self).want_write,
            0 < n < old(self).outgoing@.len() ==> final(self).want_read == old(self).want_read
                && final(self).want_write == old(self).want_write,
            n > 0 ==> final(self).want_close == old(self).want_close,
            n == 0 ==> final(self).want_read == old(self).want_read && final(self).want_write == old(self).want_write,
    {
        self.last_active_ms = now_ms;
        if n == 0 {
            self.want_close = true;
            return;
        }
        self.outgoing.consume(n);
        if self.outgoing.is_empty() {
            self.want_write = false;
            self.want_read = true;
        }
    }
}

} // verus!
