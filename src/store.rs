use vstd::prelude::*;
use crate::hmap::HMap;
use crate::heap::ExpHeap;
use crate::zset::ZSet;

verus! {

/// Sorted sets with more members than this are handed out for teardown
/// off the request path when their key goes away.
pub const K_LARGE_CONTAINER_SIZE: usize = 1000;

/// Most keys that one timer tick expires.
pub const K_MAX_WORKS: usize = 2000;

#[derive(PartialEq, Eq, Structural, Clone, Copy, Debug)]
pub enum ValueType {
    Init,
    Str,
    ZSet,
}

pub enum Value {
    Init,
    Str(Vec<u8>),
    ZSet(ZSet),
}

/// What a stored value is, as the commands see it.
pub enum VModel {
    Init,
    Str(Seq<u8>),
    ZSet(Map<Seq<u8>, u64>),
}

impl Value {
    pub open spec fn model(&self) -> VModel {
        match self {
            Value::Init => VModel::Init,
            Value::Str(s) => VModel::Str(s@),
            Value::ZSet(z) => VModel::ZSet(z@),
        }
    }

    pub open spec fn wf(&self) -> bool {
        match self {
            Value::ZSet(z) => z.wf(),
            _ => true,
        }
    }

    pub fn value_type(&self) -> (r: ValueType)
        ensures
            r == match self {
                Value::Init => ValueType::Init,
                Value::Str(_) => ValueType::Str,
                Value::ZSet(_) => ValueType::ZSet,
            },
    {
        match self {
            Value::Init => ValueType::Init,
            Value::Str(..) => ValueType::Str,
            Value::ZSet(..) => ValueType::ZSet,
        }
    }
}

/// A keyspace record. Its key and hash code are held by the map, its
/// deadline, if any, by the expiration heap.
pub struct Entry {
    pub value: Value,
}

impl Entry {
    pub fn new(value: Value) -> (r: Self)
        ensures
            r.value == value,
    {
        Entry { value }
    }

    pub fn new_string(s: Vec<u8>) -> (r: Self)
        ensures
            r.value.model() == VModel::Str(s@),
    {
        Self::new(Value::Str(s))
    }

    pub fn new_zset(z: ZSet) -> (r: Self)
        ensures
            r.value.model() == VModel::ZSet(z@),
            z.wf() ==> r.value.wf(),
    {
        Self::new(Value::ZSet(z))
    }
}

/// A sorted set large enough that its teardown goes off the request path.
pub open spec fn is_large(v: VModel) -> bool {
    v is ZSet && v->ZSet_0.dom().len() > K_LARGE_CONTAINER_SIZE
}

/// One timer tick at `now` took keys `db` with deadlines `ttl` to `db2`
/// and `ttl2`, expiring `n` keys: at most `K_MAX_WORKS`, each with a
/// deadline before `now` and no later than any deadline left; fewer than
/// `K_MAX_WORKS` only when no deadline before `now` is left.
pub open spec fn tick_rel(db: Keys, ttl: Ttls, now: u64, db2: Keys, ttl2: Ttls, n: nat) -> bool {
    &&& n <= K_MAX_WORKS
    &&& ttl2.dom().len() + n == ttl.dom().len()
    &&& forall|k: Seq<u8>| #[trigger] ttl2.contains_key(k) ==> ttl.contains_key(k) && ttl2[k] == ttl[k]
    &&& forall|k: Seq<u8>| #[trigger] db2.contains_key(k) <==> (db.contains_key(k) && (ttl2.contains_key(k)
        || !ttl.contains_key(k)))
    &&& forall|k: Seq<u8>| #[trigger] db2.contains_key(k) ==> db2[k] == db[k]
    &&& forall|k: Seq<u8>| #[trigger] ttl.contains_key(k) && !ttl2.contains_key(k) ==> ttl[k] < now && forall|j: Seq<u8>|
        #[trigger] ttl2.contains_key(j) ==> ttl[k] <= ttl2[j]
    &&& n < K_MAX_WORKS ==> forall|k: Seq<u8>| #[trigger] ttl2.contains_key(k) ==> ttl2[k] >= now
}

/// The keyspace, its deadlines, and the values waiting to be torn down
/// elsewhere.
pub struct GData {
    pub db: HMap<Entry>,
    pub heap: ExpHeap,
    pub offload: Vec<Entry>,
}

pub type Keys = Map<Seq<u8>, VModel>;

pub type Ttls = Map<Seq<u8>, u64>;

impl GData {
    /// Each key's value.
    pub open spec fn keys(&self) -> Keys {
        Map::new(|k: Seq<u8>| self.db@.contains_key(k), |k: Seq<u8>| self.db@[k].value.model())
    }

    /// Each key's deadline.
    pub open spec fn ttls(&self) -> Ttls {
        self.heap@
    }

    pub open spec fn wf(&self) -> bool {
        &&& self.db.wf()
        &&& self.heap.wf()
        &&& forall|k: Seq<u8>| #[trigger] self.db@.contains_key(k) ==> self.db@[k].value.wf()
        &&& self.heap@.dom().subset_of(self.db@.dom())
        &&& self.db@.dom().len() + 8 < usize::MAX
    }

    pub fn new() -> (r: Self)
        ensures
            r.wf(),
            r.keys() == Keys::empty(),
            r.ttls() == Ttls::empty(),
    {
        let r = GData { db: HMap::new(), heap: ExpHeap::new(), offload: Vec::new() };
        proof {
            r.db.lemma_union();
            assert(r.keys() =~= Keys::empty());
        }
        r
    }

    pub proof fn lemma_keys(&self)
        ensures
            self.keys().dom() == self.db@.dom(),
            forall|k: Seq<u8>| #[trigger] self.keys().contains_key(k) == self.db@.contains_key(k),
    {
        assert(self.keys().dom() =~= self.db@.dom());
    }

    /// Storing entry `e` under `k` stores its value there.
    pub proof fn lemma_keys_insert(g0: &GData, g1: &GData, k: Seq<u8>, e: Entry)
        requires
            g1.db@ == g0.db@.insert(k, e),
        ensures
            g1.keys() == g0.keys().insert(k, e.value.model()),
    {
        assert(g1.keys() =~= g0.keys().insert(k, e.value.model()));
    }

    pub proof fn lemma_keys_remove(g0: &GData, g1: &GData, k: Seq<u8>)
        requires
            g1.db@ == g0.db@.remove(k),
        ensures
            g1.keys() == g0.keys().remove(k),
    {
        assert(g1.keys() =~= g0.keys().remove(k));
    }

    /// The heap holds no more keys than the keyspace.
    pub proof fn lemma_heap_len(&self)
        requires
            self.wf(),
        ensures
            self.heap.len() <= self.db@.dom().len(),
            self.db@.dom().finite(),
    {
        self.db.lemma_union();
        self.heap.lemma_len();
        vstd::set_lib::lemma_len_subset(self.heap@.dom(), self.db@.dom());
    }

    /// Removes `key` with its deadline; returns whether it was there. A
    /// large sorted set is kept for `take_offload` instead of being dropped.
    pub fn entry_del(&mut self, key: &[u8]) -> (r: bool)
        requires
            old(self).wf(),
        ensures
            final(self).wf(),
            final(self).keys() == old(self).keys().remove(key@),
            final(self).ttls() == old(self).ttls().remove(key@),
            r == old(self).keys().contains_key(key@),
            r && is_large(old(self).keys()[key@]) ==> {
                &&& final(self).offload@.len() == old(self).offload@.len() + 1
                &&& final(self).offload@.drop_last() == old(self).offload@
                &&& final(self).offload@.last().value.model() == old(self).keys()[key@]
            },
            !(r && is_large(old(self).keys()[key@])) ==> final(self).offload@ == old(self).offload@,
    {
        proof {
            self.db.lemma_union();
        }
        match self.db.delete_entry_and_return(key) {
            None => {
                proof {
                    assert(!self.heap@.contains_key(key@));
                    assert(self.keys() =~= old(self).keys().remove(key@));
                    assert(self.ttls() =~= old(self).ttls().remove(key@));
                }
                false
            },
            Some(e) => {
                let _ = self.heap.remove_key(key);
                let large = match &e.value {
                    Value::ZSet(z) => z.len() > K_LARGE_CONTAINER_SIZE,
                    _ => false,
                };
                let ghost ev = e.value.model();
                if large {
                    self.offload.push(e);
                }
                proof {
                    assert(old(self).keys()[key@] == ev);
                    if large {
                        assert(self.offload@.drop_last() =~= old(self).offload@);
                    }
                    self.db.lemma_union();
                    assert(self.keys() =~= old(self).keys().remove(key@));
                    assert forall|k: Seq<u8>| #[trigger] self.db@.contains_key(k) implies self.db@[k].value.wf() by {
                        assert(old(self).db@.contains_key(k));
                    }
                }
                true
            },
        }
    }

    /// The large values removed since the last call, for teardown off the
    /// request path.
    pub fn take_offload(&mut self) -> (r: Vec<Entry>)
        requires
            old(self).wf(),
        ensures
            final(self).wf(),
            r@ == old(self).offload@,
            final(self).offload@.len() == 0,
            final(self).keys() == old(self).keys(),
            final(self).ttls() == old(self).ttls(),
    {
        let mut v: Vec<Entry> = Vec::new();
        std::mem::swap(&mut v, &mut self.offload);
        v
    }

    /// Expires, earliest first, keys whose deadline is before `now_ms`, at
    /// most `K_MAX_WORKS` of them; returns how many.
    pub fn process_timers(&mut self, now_ms: u64) -> (n: usize)
        requires
            old(self).wf(),
        ensures
            final(self).wf(),
            tick_rel(old(self).keys(), old(self).ttls(), now_ms, final(self).keys(), final(self).ttls(), n as nat),
    {
        let mut nworks: usize = 0;
        proof {
            self.heap.lemma_len();
        }
        loop
            invariant
                self.wf(),
                nworks <= K_MAX_WORKS,
                self.ttls().dom().finite(),
                self.ttls().dom().len() + nworks == old(self).ttls().dom().len(),
                forall|k: Seq<u8>| #[trigger] self.ttls().contains_key(k) ==> old(self).ttls().contains_key(k)
                    && self.ttls()[k] == old(self).ttls()[k],
                forall|k: Seq<u8>| #[trigger] self.keys().contains_key(k) <==> (old(self).keys().contains_key(k)
                    && (self.ttls().contains_key(k) || !old(self).ttls().contains_key(k))),
                forall|k: Seq<u8>| #[trigger] self.keys().contains_key(k) ==> self.keys()[k] == old(self).keys()[k],
                forall|k: Seq<u8>| #[trigger] old(self).ttls().contains_key(k) && !self.ttls().contains_key(k)
                    ==> old(self).ttls()[k] < now_ms && forall|j: Seq<u8>| #[trigger] self.ttls().contains_key(j)
                    ==> old(self).ttls()[k] <= self.ttls()[j],
            ensures
                self.wf(),
                nworks <= K_MAX_WORKS,
                self.ttls().dom().len() + nworks == old(self).ttls().dom().len(),
                forall|k: Seq<u8>| #[trigger] self.ttls().contains_key(k) ==> old(self).ttls().contains_key(k)
                    && self.ttls()[k] == old(self).ttls()[k],
                forall|k: Seq<u8>| #[trigger] self.keys().contains_key(k) <==> (old(self).keys().contains_key(k)
                    && (self.ttls().contains_key(k) || !old(self).ttls().contains_key(k))),
                forall|k: Seq<u8>| #[trigger] self.keys().contains_key(k) ==> self.keys()[k] == old(self).keys()[k],
                forall|k: Seq<u8>| #[trigger] old(self).ttls().contains_key(k) && !self.ttls().contains_key(k)
                    ==> old(self).ttls()[k] < now_ms && forall|j: Seq<u8>| #[trigger] self.ttls().contains_key(j)
                    ==> old(self).ttls()[k] <= self.ttls()[j],
                nworks < K_MAX_WORKS ==> forall|k: Seq<u8>| #[trigger] self.ttls().contains_key(k) ==> self.ttls()[k] >= now_ms,
            decreases K_MAX_WORKS - nworks,
        {
            if nworks >= K_MAX_WORKS {
                break;
            }
            let key = match self.heap.top() {
                None => {
                    break;
                },
                Some((deadline, k)) => {
                    if deadline >= now_ms {
                        break;
                    }
                    vstd::slice::slice_to_vec(k)
                },
            };
            let ghost t0 = self.ttls();
            let ghost k0 = self.keys();
            let ghost top = t0[key@];
            proof {
                self.heap.lemma_len();
            }
            let _ = self.entry_del(key.as_slice());
            proof {
                self.heap.lemma_len();
                assert(t0.contains_key(key@));
                assert(self.ttls().dom() =~= t0.dom().remove(key@));
                assert forall|k: Seq<u8>| #[trigger] old(self).ttls().contains_key(k) && !self.ttls().contains_key(k)
                    implies old(self).ttls()[k] < now_ms && forall|j: Seq<u8>| #[trigger] self.ttls().contains_key(j)
                    ==> old(self).ttls()[k] <= self.ttls()[j] by {
                    if k == key@ {
                        assert forall|j: Seq<u8>| #[trigger] self.ttls().contains_key(j) implies old(self).ttls()[k] <= self.ttls()[j] by {
                            assert(t0.contains_key(j));
                        }
                    } else {
                        assert(!t0.contains_key(k));
                        assert forall|j: Seq<u8>| #[trigger] self.ttls().contains_key(j) implies old(self).ttls()[k] <= self.ttls()[j] by {
                            assert(t0.contains_key(j));
                        }
                    }
                }
            }
            nworks = nworks + 1;
        }
        nworks
    }
}

} // verus!
