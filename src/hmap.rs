use vstd::prelude::*;

verus! {

/// The hash code that the standard library's default hasher gives a byte
/// string.
pub uninterp spec fn hash_of(data: Seq<u8>) -> u64;

/// Relies on `BuildHasher::hash_one` over `BuildHasherDefault<DefaultHasher>`:
/// hashers made by `DefaultHasher::default` all start from the same state,
/// so the code depends on the bytes alone.
#[verifier::external_body]
pub(crate) fn hash_std(data: &[u8]) -> (r: u64)
    ensures
        r == hash_of(data@),
{
    std::hash::BuildHasher::hash_one(&std::hash::BuildHasherDefault::<std::collections::hash_map::DefaultHasher>::default(), data)
}

/// Largest number of entries that may share a bucket on average before
/// the table doubles.
pub const K_MAX_LOAD_FACTOR: usize = 8;

/// Entries moved from the old table to the new one per insertion.
pub const K_REHASHING_WORK: usize = 128;

pub open spec fn is_pow2(n: nat) -> bool
    decreases n,
{
    if n <= 1 {
        n == 1
    } else {
        n % 2 == 0 && is_pow2(n / 2)
    }
}

/// The bucket of a hash code in a table with the given mask.
pub open spec fn bucket_of(h: u64, mask: usize) -> int {
    (h & (mask as u64)) as int
}

proof fn lemma_and_le(h: u64, m: u64)
    ensures
        h & m <= m,
{
    assert(h & m <= m) by (bit_vector);
}

/// A keyspace record: a key with its cached hash code and its value.
pub struct HEntry<V> {
    hcode: u64,
    key: Vec<u8>,
    val: V,
}

/// A table of chained buckets, of a power-of-two capacity.
pub struct HashTable<V> {
    tab: Vec<Vec<HEntry<V>>>,
    mask: usize,
    size: usize,
    content: Ghost<Map<Seq<u8>, V>>,
}

impl<V> HashTable<V> {
    /// What the table holds.
    pub closed spec fn view(&self) -> Map<Seq<u8>, V> {
        self.content@
    }

    pub closed spec fn cap(&self) -> nat {
        self.tab@.len()
    }

    pub closed spec fn len(&self) -> nat {
        self.size as nat
    }

    pub closed spec fn key_at(&self, b: int, i: int) -> Seq<u8> {
        self.tab@[b]@[i].key@
    }

    pub closed spec fn bucket_len(&self, b: int) -> nat {
        self.tab@[b]@.len()
    }

    /// The bucket that a hash code selects.
    pub closed spec fn bucket(&self, h: u64) -> int {
        bucket_of(h, self.mask)
    }

    pub closed spec fn wf(&self) -> bool {
        &&& self.content@.dom().finite()
        &&& self.size as nat == self.content@.dom().len()
        &&& (self.tab@.len() == 0 ==> self.content@.dom().len() == 0)
        &&& (self.tab@.len() > 0 ==> self.tab@.len() == self.mask + 1 && is_pow2(self.tab@.len()))
        &&& forall|b: int, i: int|
            0 <= b < self.tab@.len() && 0 <= i < self.tab@[b]@.len() ==> {
                let e = #[trigger] self.tab@[b]@[i];
                &&& e.hcode == hash_of(e.key@)
                &&& bucket_of(e.hcode, self.mask) == b
                &&& self.content@.contains_key(e.key@)
                &&& self.content@[e.key@] == e.val
            }
        &&& forall|b: int, i: int, j: int|
            0 <= b < self.tab@.len() && 0 <= i < self.tab@[b]@.len() && 0 <= j < self.tab@[b]@.len()
                && i != j ==> (#[trigger] self.tab@[b]@[i]).key@ != (#[trigger] self.tab@[b]@[j]).key@
        &&& forall|k: Seq<u8>|
            #[trigger] self.content@.contains_key(k) ==> exists|i: int|
                0 <= i < self.tab@[bucket_of(hash_of(k), self.mask)]@.len() && (#[trigger] self.tab@[bucket_of(hash_of(k), self.mask)]@[i]).key@ == k
    }

    /// Buckets before `pos` are empty.
    pub closed spec fn drained_below(&self, pos: int) -> bool {
        forall|b: int| 0 <= b < pos && b < self.tab@.len() ==> (#[trigger] self.tab@[b])@.len() == 0
    }

    proof fn lemma_drained_empty(&self)
        requires
            self.wf(),
            self.drained_below(self.cap() as int),
        ensures
            self.len() == 0,
    {
        if self.content@.dom().len() > 0 {
            let k = self.content@.dom().choose();
            assert(self.content@.contains_key(k));
            lemma_and_le(hash_of(k), self.mask as u64);
            let b = bucket_of(hash_of(k), self.mask);
            assert(self.tab@[b]@.len() == 0);
        }
    }

    /// A table of `n` empty buckets.
    pub fn new(n: usize) -> (r: Self)
        requires
            n == 0 || is_pow2(n as nat),
        ensures
            r.wf(),
            r.view() == Map::<Seq<u8>, V>::empty(),
            r.cap() == n,
            r.drained_below(n as int),
    {
        let mut tab: Vec<Vec<HEntry<V>>> = Vec::with_capacity(n);
        let mut i: usize = 0;
        while i < n
            invariant
                i <= n,
                tab@.len() == i,
                forall|b: int| 0 <= b < i ==> (#[trigger] tab@[b])@.len() == 0,
            decreases n - i,
        {
            tab.push(Vec::new());
            i = i + 1;
        }
        let mask = if n == 0 { 0 } else { n - 1 };
        HashTable { tab, mask, size: 0, content: Ghost(Map::empty()) }
    }

    /// The bucket that a hash code selects.
    fn bucket_index(&self, hcode: u64) -> (b: usize)
        requires
            self.wf(),
            self.cap() > 0,
        ensures
            b == self.bucket(hcode),
            b < self.cap(),
    {
        proof {
            lemma_and_le(hcode, self.mask as u64);
        }
        (hcode & (self.mask as u64)) as usize
    }
}

/// Adds an entry whose key the table does not hold.
pub fn insert_hash<V>(htab: &mut HashTable<V>, hcode: u64, key: Vec<u8>, val: V)
    requires
        old(htab).wf(),
        old(htab).cap() > 0,
        hcode == hash_of(key@),
        !old(htab).view().contains_key(key@),
        old(htab).len() < usize::MAX,
    ensures
        final(htab).wf(),
        final(htab).view() == old(htab).view().insert(key@, val),
        final(htab).cap() == old(htab).cap(),
        final(htab).len() == old(htab).len() + 1,
        forall|pos: int| old(htab).drained_below(pos) && pos <= old(htab).bucket(hcode)
            ==> final(htab).drained_below(pos),
{
    let b = htab.bucket_index(hcode);
    let ghost k = key@;
    let ghost old_tab = htab.tab@;
    let mut bucket: Vec<HEntry<V>> = Vec::new();
    htab.tab.set_and_swap(b, &mut bucket);
    let ghost old_bucket = bucket@;
    bucket.push(HEntry { hcode, key, val });
    htab.tab.set(b, bucket);
    htab.size = htab.size + 1;
    proof {
        let c0 = htab.content@;
        htab.content@ = c0.insert(k, val);
        assert(htab.content@.dom() =~= c0.dom().insert(k));
        assert forall|b2: int, i: int|
            0 <= b2 < htab.tab@.len() && 0 <= i < htab.tab@[b2]@.len() implies {
                let e = #[trigger] htab.tab@[b2]@[i];
                &&& e.hcode == hash_of(e.key@)
                &&& bucket_of(e.hcode, htab.mask) == b2
                &&& htab.content@.contains_key(e.key@)
                &&& htab.content@[e.key@] == e.val
            } by {
            if b2 == b && i < old_bucket.len() {
                assert(htab.tab@[b2]@[i] == old_tab[b2]@[i]);
            } else if b2 != b {
                assert(htab.tab@[b2] == old_tab[b2]);
            }
        }
        assert forall|b2: int, i: int, j: int|
            0 <= b2 < htab.tab@.len() && 0 <= i < htab.tab@[b2]@.len() && 0 <= j < htab.tab@[b2]@.len()
                && i != j implies (#[trigger] htab.tab@[b2]@[i]).key@ != (#[trigger] htab.tab@[b2]@[j]).key@ by {
            if b2 == b {
                if i < old_bucket.len() {
                    assert(htab.tab@[b2]@[i] == old_tab[b2]@[i]);
                }
                if j < old_bucket.len() {
                    assert(htab.tab@[b2]@[j] == old_tab[b2]@[j]);
                }
            } else {
                assert(htab.tab@[b2] == old_tab[b2]);
            }
        }
        assert forall|k2: Seq<u8>| #[trigger] htab.content@.contains_key(k2) implies exists|i: int|
            0 <= i < htab.tab@[bucket_of(hash_of(k2), htab.mask)]@.len() && (#[trigger] htab.tab@[bucket_of(hash_of(k2), htab.mask)]@[i]).key@ == k2 by {
            let b2 = bucket_of(hash_of(k2), htab.mask);
            if k2 == k {
                assert(htab.tab@[b2]@[old_bucket.len() as int].key@ == k2);
            } else {
                lemma_and_le(hash_of(k2), htab.mask as u64);
                let i = choose|i: int| 0 <= i < old_tab[b2]@.len() && (#[trigger] old_tab[b2]@[i]).key@ == k2;
                if b2 == b {
                    assert(htab.tab@[b2]@[i] == old_tab[b2]@[i]);
                } else {
                    assert(htab.tab@[b2] == old_tab[b2]);
                }
            }
        }
        assert forall|pos: int| old(htab).drained_below(pos) && pos <= old(htab).bucket(hcode)
            implies htab.drained_below(pos) by {
            assert forall|b2: int| 0 <= b2 < pos && b2 < htab.tab@.len() implies (#[trigger] htab.tab@[b2])@.len() == 0 by {
                assert(htab.tab@[b2] == old_tab[b2]);
            }
        }
    }
}

/// The bucket of the entry with key `key` and its position there, if there
/// is one.
pub fn hash_lookup_cursor<V>(table: &HashTable<V>, key: &[u8], hcode: u64) -> (r: Option<(usize, usize)>)
    requires
        table.wf(),
        hcode == hash_of(key@),
    ensures
        match r {
            None => !table.view().contains_key(key@),
            Some((b, i)) => {
                &&& table.cap() > 0
                &&& b == table.bucket(hcode)
                &&& b < table.cap()
                &&& i < table.bucket_len(b as int)
                &&& table.key_at(b as int, i as int) == key@
            },
        },
{
    if table.tab.len() == 0 {
        return None;
    }
    let b = table.bucket_index(hcode);
    let bucket = &table.tab[b];
    let mut i: usize = 0;
    while i < bucket.len() && crate::avl::cmp_bytes(bucket[i].key.as_slice(), key) != 0
        invariant
            table.wf(),
            table.cap() > 0,
            b == bucket_of(hcode, table.mask),
            b < table.cap(),
            bucket@ == table.tab@[b as int]@,
            i <= bucket@.len(),
            forall|j: int| 0 <= j < i ==> (#[trigger] bucket@[j]).key@ != key@,
        decreases bucket@.len() - i,
    {
        i = i + 1;
    }
    if i < bucket.len() {
        assert(table.key_at(b as int, i as int) == key@);
        Some((b, i))
    } else {
        None
    }
}

/// The value stored under `key`, whose hash code is `hcode`.
pub fn hash_lookup<'a, V>(table: &'a HashTable<V>, key: &[u8], hcode: u64) -> (r: Option<&'a V>)
    requires
        table.wf(),
        hcode == hash_of(key@),
    ensures
        r.is_some() == table.view().contains_key(key@),
        r.is_some() ==> *r.unwrap() == table.view()[key@],
{
    match hash_lookup_cursor(table, key, hcode) {
        Some((b, i)) => {
            let e = &table.tab[b][i];
            Some(&e.val)
        },
        None => None,
    }
}

/// Removes the entry at position `i` of bucket `b` and returns its key and
/// value.
pub fn hash_delete<V>(htab: &mut HashTable<V>, b: usize, i: usize) -> (r: (u64, Vec<u8>, V))
    requires
        old(htab).wf(),
        b < old(htab).cap(),
        i < old(htab).bucket_len(b as int),
    ensures
        final(htab).wf(),
        r.0 == hash_of(r.1@),
        r.1@ == old(htab).key_at(b as int, i as int),
        old(htab).view().contains_key(r.1@),
        r.2 == old(htab).view()[r.1@],
        final(htab).view() == old(htab).view().remove(r.1@),
        final(htab).cap() == old(htab).cap(),
        final(htab).len() + 1 == old(htab).len(),
        forall|pos: int| old(htab).drained_below(pos) ==> final(htab).drained_below(pos),
{
    let ghost old_tab = htab.tab@;
    let mut bucket: Vec<HEntry<V>> = Vec::new();
    htab.tab.set_and_swap(b, &mut bucket);
    let ghost ob = bucket@;
    let e = bucket.swap_remove(i);
    let ghost nb = bucket@;
    htab.tab.set(b, bucket);
    let ghost k = e.key@;
    proof {
        let c0 = htab.content@;
        assert(c0.dom().contains(k));
        htab.content@ = c0.remove(k);
        assert(htab.content@.dom() =~= c0.dom().remove(k));
    }
    htab.size = htab.size - 1;
    proof {
        // Entries of the changed bucket other than the removed one.
        assert forall|j: int| 0 <= j < nb.len() implies exists|j0: int|
            0 <= j0 < ob.len() && j0 != i && #[trigger] nb[j] == ob[j0] by {
            if j == i {
                assert(nb[j] == ob[ob.len() - 1]);
            } else {
                assert(nb[j] == ob[j]);
            }
        }
        assert forall|b2: int, j: int|
            0 <= b2 < htab.tab@.len() && 0 <= j < htab.tab@[b2]@.len() implies {
                let e2 = #[trigger] htab.tab@[b2]@[j];
                &&& e2.hcode == hash_of(e2.key@)
                &&& bucket_of(e2.hcode, htab.mask) == b2
                &&& htab.content@.contains_key(e2.key@)
                &&& htab.content@[e2.key@] == e2.val
            } by {
            if b2 == b {
                let j0 = choose|j0: int| 0 <= j0 < ob.len() && j0 != i && #[trigger] nb[j] == ob[j0];
                assert(ob[j0].key@ != ob[i as int].key@);
            } else {
                assert(htab.tab@[b2] == old_tab[b2]);
            }
        }
        assert forall|b2: int, j1: int, j2: int|
            0 <= b2 < htab.tab@.len() && 0 <= j1 < htab.tab@[b2]@.len() && 0 <= j2 < htab.tab@[b2]@.len()
                && j1 != j2 implies (#[trigger] htab.tab@[b2]@[j1]).key@ != (#[trigger] htab.tab@[b2]@[j2]).key@ by {
            if b2 == b {
                let a1 = if j1 == i { ob.len() - 1 } else { j1 };
                let a2 = if j2 == i { ob.len() - 1 } else { j2 };
                assert(nb[j1] == ob[a1]);
                assert(nb[j2] == ob[a2]);
            } else {
                assert(htab.tab@[b2] == old_tab[b2]);
            }
        }
        assert forall|k2: Seq<u8>| #[trigger] htab.content@.contains_key(k2) implies exists|j: int|
            0 <= j < htab.tab@[bucket_of(hash_of(k2), htab.mask)]@.len() && (#[trigger] htab.tab@[bucket_of(hash_of(k2), htab.mask)]@[j]).key@ == k2 by {
            let b2 = bucket_of(hash_of(k2), htab.mask);
            lemma_and_le(hash_of(k2), htab.mask as u64);
            let j = choose|j: int| 0 <= j < old_tab[b2]@.len() && (#[trigger] old_tab[b2]@[j]).key@ == k2;
            if b2 == b {
                assert(old_tab[b2]@ == ob);
                assert(ob[i as int].key@ == k);
                assert(j != i);
                assert(htab.tab@[b2]@ == nb);
                if j == ob.len() - 1 {
                    assert(nb[i as int] == ob[j]);
                    assert(htab.tab@[b2]@[i as int].key@ == k2);
                } else {
                    assert(nb[j] == ob[j]);
                    assert(htab.tab@[b2]@[j].key@ == k2);
                }
            } else {
                assert(htab.tab@[b2] == old_tab[b2]);
            }
        }
        assert forall|pos: int| old(htab).drained_below(pos) implies htab.drained_below(pos) by {
            assert forall|b2: int| 0 <= b2 < pos && b2 < htab.tab@.len() implies (#[trigger] htab.tab@[b2])@.len() == 0 by {
                if b2 != b {
                    assert(htab.tab@[b2] == old_tab[b2]);
                }
            }
        }
    }
    (e.hcode, e.key, e.val)
}


pub open spec fn key_views(v: Seq<Vec<u8>>) -> Seq<Seq<u8>> {
    v.map_values(|x: Vec<u8>| x@)
}

/// Appends the keys of `t` to `out`.
fn table_keys<V>(t: &HashTable<V>, out: &mut Vec<Vec<u8>>)
    requires
        t.wf(),
        key_views(old(out)@).no_duplicates(),
        forall|x: Seq<u8>| key_views(old(out)@).contains(x) ==> !t.view().contains_key(x),
    ensures
        key_views(final(out)@).no_duplicates(),
        forall|x: Seq<u8>| key_views(final(out)@).contains(x) <==> (key_views(old(out)@).contains(x) || t.view().contains_key(x)),
{
    let ghost o0 = key_views(out@);
    let mut b: usize = 0;
    while b < t.tab.len()
        invariant
            t.wf(),
            b <= t.tab@.len(),
            o0 == key_views(old(out)@),
            o0.no_duplicates(),
            forall|x: Seq<u8>| o0.contains(x) ==> !t.view().contains_key(x),
            key_views(out@).no_duplicates(),
            key_views(out@).len() >= o0.len(),
            key_views(out@).subrange(0, o0.len() as int) == o0,
            forall|x: Seq<u8>| #[trigger] key_views(out@).contains(x) <==> (o0.contains(x) || (t.view().contains_key(x)
                && bucket_of(hash_of(x), t.mask) < b)),
        decreases t.tab@.len() - b,
    {
        let bucket = &t.tab[b];
        let mut i: usize = 0;
        while i < bucket.len()
            invariant
                t.wf(),
                b < t.tab@.len(),
                bucket@ == t.tab@[b as int]@,
                i <= bucket@.len(),
                o0.no_duplicates(),
                forall|x: Seq<u8>| o0.contains(x) ==> !t.view().contains_key(x),
                key_views(out@).no_duplicates(),
                key_views(out@).len() >= o0.len(),
                key_views(out@).subrange(0, o0.len() as int) == o0,
                forall|x: Seq<u8>| #[trigger] key_views(out@).contains(x) <==> (o0.contains(x) || (t.view().contains_key(x)
                    && bucket_of(hash_of(x), t.mask) < b) || (exists|j: int| 0 <= j < i && (#[trigger] bucket@[j]).key@ == x)),
            decreases bucket@.len() - i,
        {
            let k = vstd::slice::slice_to_vec(bucket[i].key.as_slice());
            let ghost kv = k@;
            let ghost before = key_views(out@);
            proof {
                let e = t.tab@[b as int]@[i as int];
                assert(e == bucket@[i as int]);
                assert(t.content@.contains_key(kv));
                if before.contains(kv) {
                    if exists|j: int| 0 <= j < i && (#[trigger] bucket@[j]).key@ == kv {
                        let j = choose|j: int| 0 <= j < i && (#[trigger] bucket@[j]).key@ == kv;
                        assert(t.tab@[b as int]@[j] == bucket@[j]);
                    }
                }
            }
            out.push(k);
            proof {
                assert(key_views(out@) =~= before.push(kv));
                assert forall|x: Seq<u8>| #[trigger] key_views(out@).contains(x) <==> (o0.contains(x) || (t.view().contains_key(x)
                    && bucket_of(hash_of(x), t.mask) < b) || (exists|j: int| 0 <= j < i + 1 && (#[trigger] bucket@[j]).key@ == x)) by {
                    let nv = key_views(out@);
                    if x == kv {
                        assert(bucket@[i as int].key@ == x);
                        assert(nv[before.len() as int] == x);
                    } else if before.contains(x) {
                        let j = choose|j: int| 0 <= j < before.len() && before[j] == x;
                        assert(nv[j] == x);
                    } else if nv.contains(x) {
                        let j = choose|j: int| 0 <= j < nv.len() && nv[j] == x;
                        assert(j < before.len());
                        assert(before[j] == x);
                    }
                    if exists|j: int| 0 <= j < i + 1 && (#[trigger] bucket@[j]).key@ == x {
                        let j = choose|j: int| 0 <= j < i + 1 && (#[trigger] bucket@[j]).key@ == x;
                        if j < i {
                            assert(exists|j: int| 0 <= j < i && (#[trigger] bucket@[j]).key@ == x);
                        }
                    }
                }
                assert(key_views(out@).subrange(0, o0.len() as int) =~= before.subrange(0, o0.len() as int));
            }
            i = i + 1;
        }
        proof {
            assert forall|x: Seq<u8>| #[trigger] key_views(out@).contains(x) <==> (o0.contains(x) || (t.view().contains_key(x)
                && bucket_of(hash_of(x), t.mask) < b + 1)) by {
                if t.view().contains_key(x) && bucket_of(hash_of(x), t.mask) == b {
                    let j = choose|j: int| 0 <= j < t.tab@[bucket_of(hash_of(x), t.mask)]@.len() && (#[trigger] t.tab@[bucket_of(hash_of(x), t.mask)]@[j]).key@ == x;
                    assert(bucket@[j].key@ == x);
                }
                if exists|j: int| 0 <= j < bucket@.len() && (#[trigger] bucket@[j]).key@ == x {
                    let j = choose|j: int| 0 <= j < bucket@.len() && (#[trigger] bucket@[j]).key@ == x;
                    assert(t.tab@[b as int]@[j] == bucket@[j]);
                }
            }
        }
        b = b + 1;
    }
    proof {
        assert forall|x: Seq<u8>| t.view().contains_key(x) implies bucket_of(hash_of(x), t.mask) < b by {
            lemma_and_le(hash_of(x), t.mask as u64);
        }
    }
}

/// The sizes of the two tables: capacity and entries of the newer, then of
/// the older (zero and zero when no migration is in progress).
pub type Shape = (nat, nat, nat, nat);

pub open spec fn min_nat(a: nat, b: nat) -> nat {
    if a <= b { a } else { b }
}

/// One migration step: up to `K_REHASHING_WORK` entries move from the
/// older table to the newer; an emptied older table is dropped.
pub open spec fn migrate_shape(s: Shape) -> Shape {
    if s.2 == 0 {
        s
    } else {
        let moved = min_nat(K_REHASHING_WORK as nat, s.3);
        if s.3 == moved {
            (s.0, s.1 + moved, 0, 0)
        } else {
            (s.0, s.1 + moved, s.2, (s.3 - moved) as nat)
        }
    }
}

/// Insertion of a key that the map does not hold: lazy creation of a table
/// of four buckets, the start of a resize when no migration runs and the
/// load factor is reached, then a migration step.
pub open spec fn insert_shape(s: Shape) -> Shape {
    let nc = if s.0 == 0 { 4 } else { s.0 };
    let ns = s.1 + 1;
    let t = if s.2 == 0 && ns >= K_MAX_LOAD_FACTOR * nc { (2 * nc, 0nat, nc, ns) } else { (nc, ns, s.2, s.3) };
    migrate_shape(t)
}

/// A hash map from byte strings that resizes by moving its entries a few
/// at a time into a table of twice the capacity.
pub struct HMap<V> {
    newer: HashTable<V>,
    older: Option<HashTable<V>>,
    migrate_pos: usize,
}

impl<V> View for HMap<V> {
    type V = Map<Seq<u8>, V>;

    closed spec fn view(&self) -> Map<Seq<u8>, V> {
        match self.older {
            None => self.newer.view(),
            Some(o) => self.newer.view().union_prefer_right(o.view()),
        }
    }
}

impl<V> HMap<V> {
    pub closed spec fn newer_view(&self) -> Map<Seq<u8>, V> {
        self.newer.view()
    }

    pub closed spec fn older_view(&self) -> Map<Seq<u8>, V> {
        match self.older {
            None => Map::empty(),
            Some(o) => o.view(),
        }
    }

    pub closed spec fn migrating(&self) -> bool {
        self.older.is_some()
    }

    pub closed spec fn shape(&self) -> Shape {
        match self.older {
            None => (self.newer.cap(), self.newer.len(), 0, 0),
            Some(o) => (self.newer.cap(), self.newer.len(), o.cap(), o.len()),
        }
    }

    /// Number of entries.
    pub closed spec fn len(&self) -> nat {
        self.shape().1 + self.shape().3
    }

    /// The tables are well formed and hold disjoint keys; a migration in
    /// progress has an older table of half the capacity, drained below the
    /// migration cursor.
    pub closed spec fn core_wf(&self) -> bool {
        &&& self.newer.wf()
        &&& self.len() < usize::MAX
        &&& match self.older {
            None => true,
            Some(o) => {
                &&& o.wf()
                &&& o.cap() > 0
                &&& self.newer.cap() == 2 * o.cap()
                &&& self.migrate_pos <= o.cap()
                &&& o.drained_below(self.migrate_pos as int)
                &&& self.newer.view().dom().disjoint(o.view().dom())
            },
        }
    }

    /// Load bounds: without a migration the newer table stays under the
    /// load factor; during one, the older table drains before the newer
    /// reaches it.
    pub closed spec fn load_ok(&self) -> bool {
        let s = self.shape();
        if s.2 == 0 {
            s.1 < K_MAX_LOAD_FACTOR * s.0 || s.0 == 0
        } else {
            128 * (s.1 + s.3) + s.3 + 256 <= 1024 * s.0
        }
    }

    pub closed spec fn wf(&self) -> bool {
        self.core_wf() && self.load_ok()
    }

    /// A state in which a migration step may run: well formed, with room
    /// for one entry more than the load bounds allow.
    pub closed spec fn ready_to_migrate(&self) -> bool {
        &&& self.core_wf()
        &&& self.migrating() ==> 128 * (self.shape().1 + self.shape().3) + self.shape().3 + 128 <= 1024 * self.shape().0
        &&& !self.migrating() ==> self.load_ok()
    }

    /// A well-formed map may take a migration step.
    pub proof fn lemma_wf_ready(&self)
        requires
            self.wf(),
        ensures
            self.ready_to_migrate(),
    {
    }

    proof fn lemma_len(&self)
        requires
            self.core_wf(),
        ensures
            self@.dom().finite(),
            self@.dom().len() == self.len(),
            self@.dom() == self.newer_view().dom() + self.older_view().dom(),
            self.newer_view().dom().disjoint(self.older_view().dom()),
            forall|k: Seq<u8>| #[trigger] self@.contains_key(k) ==> self@[k] == if self.newer_view().contains_key(k) {
                self.newer_view()[k]
            } else {
                self.older_view()[k]
            },
    {
        match self.older {
            None => {
                assert(self@.dom() =~= self.newer_view().dom() + self.older_view().dom());
            },
            Some(o) => {
                assert(self@.dom() =~= self.newer_view().dom() + self.older_view().dom());
                vstd::set_lib::lemma_set_disjoint_lens(self.newer_view().dom(), self.older_view().dom());
            },
        }
    }

    /// The entries are exactly those of the two tables, which share no key.
    pub proof fn lemma_union(&self)
        requires
            self.wf(),
        ensures
            self@.dom().finite(),
            self@.dom() == self.newer_view().dom() + self.older_view().dom(),
            self.newer_view().dom().disjoint(self.older_view().dom()),
            !self.migrating() ==> self.older_view().dom().is_empty(),
            self@.dom().len() == self.len(),
    {
        self.lemma_len();
    }

    pub fn new() -> (r: Self)
        ensures
            r.wf(),
            r@ == Map::<Seq<u8>, V>::empty(),
            r.shape() == (0nat, 0nat, 0nat, 0nat),
    {
        let r = HMap { newer: HashTable::new(0), older: None, migrate_pos: 0 };
        r
    }

    /// Number of buckets of the newer table.
    pub fn capacity(&self) -> (r: usize)
        ensures
            r == self.shape().0,
    {
        self.newer.tab.len()
    }

    pub fn is_migrating(&self) -> (r: bool)
        ensures
            r == self.migrating(),
    {
        self.older.is_some()
    }

    /// Number of entries.
    pub fn size(&self) -> (r: usize)
        requires
            self.wf(),
        ensures
            r == self@.dom().len(),
    {
        proof {
            self.lemma_len();
        }
        let newer_size = self.newer.size;
        let older_size = match &self.older {
            None => 0,
            Some(o) => o.size,
        };
        newer_size + older_size
    }

    /// The value stored under `key`.
    pub fn lookup(&self, key: &[u8]) -> (r: Option<&V>)
        requires
            self.wf(),
        ensures
            r.is_some() == self@.contains_key(key@),
            r.is_some() ==> *r.unwrap() == self@[key@],
    {
        proof {
            self.lemma_len();
        }
        let hcode = hash_std(key);
        match hash_lookup(&self.newer, key, hcode) {
            Some(v) => Some(v),
            None => match &self.older {
                None => None,
                Some(o) => hash_lookup(o, key, hcode),
            },
        }
    }

    /// All keys, each once, in table order.
    pub fn keys(&self) -> (r: Vec<Vec<u8>>)
        requires
            self.wf(),
        ensures
            key_views(r@).no_duplicates(),
            forall|x: Seq<u8>| key_views(r@).contains(x) <==> self@.contains_key(x),
    {
        proof {
            self.lemma_len();
        }
        let mut out: Vec<Vec<u8>> = Vec::new();
        assert(key_views(out@) =~= Seq::<Seq<u8>>::empty());
        table_keys(&self.newer, &mut out);
        match &self.older {
            None => {},
            Some(o) => {
                table_keys(o, &mut out);
            },
        }
        proof {
            assert forall|x: Seq<u8>| key_views(out@).contains(x) <==> self@.contains_key(x) by {
                assert(self@.contains_key(x) == (self.newer_view().dom() + self.older_view().dom()).contains(x));
            }
        }
        out
    }

    /// Removes `key`, whose hash code is `hcode`. Deleting drives no
    /// migration: the older table stays, even when emptied, until the next
    /// migration step drops it.
    fn delete_hashed(&mut self, key: &[u8], hcode: u64) -> (r: Option<V>)
        requires
            old(self).wf(),
            hcode == hash_of(key@),
        ensures
            final(self).wf(),
            final(self)@ == old(self)@.remove(key@),
            r.is_some() == old(self)@.contains_key(key@),
            r.is_some() ==> r.unwrap() == old(self)@[key@],
            r.is_none() ==> final(self).shape() == old(self).shape(),
            final(self).len() <= old(self).len(),
            final(self).migrating() == old(self).migrating(),
            final(self).shape().0 == old(self).shape().0,
            final(self).shape().2 == old(self).shape().2,
    {
        proof {
            self.lemma_len();
        }
        match hash_lookup_cursor(&self.newer, key, hcode) {
            Some((b, i)) => {
                let (_h, _k, v) = hash_delete(&mut self.newer, b, i);
                proof {
                    assert(self@ =~= old(self)@.remove(key@));
                }
                return Some(v);
            },
            None => {},
        }
        let ghost s0 = *self;
        match self.older.take() {
            None => {
                assert(old(self)@ =~= old(self)@.remove(key@));
                None
            },
            Some(mut o) => match hash_lookup_cursor(&o, key, hcode) {
                Some((b, i)) => {
                    let (_h, _k, v) = hash_delete(&mut o, b, i);
                    self.older = Some(o);
                    proof {
                        assert(self@ =~= old(self)@.remove(key@));
                    }
                    Some(v)
                },
                None => {
                    self.older = Some(o);
                    assert(old(self)@ =~= old(self)@.remove(key@));
                    None
                },
            },
        }
    }

    /// Removes `key` and returns its value.
    pub fn delete(&mut self, key: &[u8]) -> (r: Option<V>)
        requires
            old(self).wf(),
        ensures
            final(self).wf(),
            final(self)@ == old(self)@.remove(key@),
            r.is_some() == old(self)@.contains_key(key@),
            r.is_some() ==> r.unwrap() == old(self)@[key@],
            final(self).migrating() == old(self).migrating(),
    {
        let hcode = hash_std(key);
        self.delete_hashed(key, hcode)
    }

    /// Removes `key`; returns whether it was present.
    pub fn delete_entry(&mut self, key: &[u8]) -> (r: bool)
        requires
            old(self).wf(),
        ensures
            final(self).wf(),
            final(self)@ == old(self)@.remove(key@),
            r == old(self)@.contains_key(key@),
    {
        self.delete(key).is_some()
    }

    /// Removes `key` and returns its value.
    pub fn delete_entry_and_return(&mut self, key: &[u8]) -> (r: Option<V>)
        requires
            old(self).wf(),
        ensures
            final(self).wf(),
            final(self)@ == old(self)@.remove(key@),
            r.is_some() == old(self)@.contains_key(key@),
            r.is_some() ==> r.unwrap() == old(self)@[key@],
    {
        self.delete(key)
    }

    /// Moves up to `K_REHASHING_WORK` entries from the older table into the
    /// newer one, and drops the older table once it is empty.
    pub fn hashmap_rehashing(&mut self)
        requires
            old(self).ready_to_migrate(),
        ensures
            final(self).wf(),
            final(self)@ == old(self)@,
            final(self).shape() == migrate_shape(old(self).shape()),
            final(self).migrating() ==> final(self).shape().3 > 0,
    {
        let mut o = match self.older.take() {
            None => {
                return;
            },
            Some(o) => o,
        };
        let ghost os0 = o.len();
        let ghost ns0 = self.newer.len();
        let ghost v0 = old(self)@;
        let ghost ocap = o.cap();
        let mut nwork: usize = 0;
        while nwork < K_REHASHING_WORK && o.size > 0 && self.migrate_pos < o.tab.len()
            invariant
                self.newer.wf(),
                o.wf(),
                o.cap() == ocap,
                ocap > 0,
                self.newer.cap() == 2 * ocap,
                self.older.is_none(),
                nwork <= K_REHASHING_WORK,
                o.len() + nwork == os0,
                self.newer.len() == ns0 + nwork,
                ns0 + os0 < usize::MAX,
                self.migrate_pos <= ocap,
                o.drained_below(self.migrate_pos as int),
                self.newer.view().dom().disjoint(o.view().dom()),
                self.newer.view().union_prefer_right(o.view()) == v0,
            decreases (K_REHASHING_WORK - nwork) as int, (o.tab@.len() - self.migrate_pos) as int,
        {
            let b = self.migrate_pos;
            if o.tab[b].len() == 0 {
                self.migrate_pos = self.migrate_pos + 1;
                proof {
                    assert forall|b2: int| 0 <= b2 < self.migrate_pos && b2 < o.tab@.len() implies (#[trigger] o.tab@[b2])@.len() == 0 by {
                        if b2 < b {
                        }
                    }
                }
            } else {
                let i = o.tab[b].len() - 1;
                let ghost nv = self.newer.view();
                let ghost ov = o.view();
                let (h, k, v) = hash_delete(&mut o, b, i);
                assert(!nv.contains_key(k@));
                insert_hash(&mut self.newer, h, k, v);
                nwork = nwork + 1;
                proof {
                    assert(self.newer.view().dom().disjoint(o.view().dom()));
                    assert(self.newer.view().union_prefer_right(o.view()) =~= nv.union_prefer_right(ov));
                }
            }
        }
        proof {
            if o.len() > 0 && self.migrate_pos >= o.cap() {
                o.lemma_drained_empty();
            }
        }
        if o.size > 0 {
            self.older = Some(o);
        } else {
            proof {
                assert(o.view().dom().len() == 0);
                assert(o.view() =~= Map::<Seq<u8>, V>::empty());
                assert(self.newer.view() =~= v0);
            }
        }
    }

    /// Migrates a step when a migration is in progress.
    pub fn maybe_migrate(&mut self)
        requires
            old(self).ready_to_migrate(),
        ensures
            final(self).wf(),
            final(self)@ == old(self)@,
            final(self).shape() == migrate_shape(old(self).shape()),
            final(self).migrating() ==> final(self).shape().3 > 0,
    {
        if self.older.is_some() {
            self.hashmap_rehashing();
        }
    }

    /// Stores `val` under `key`, replacing any earlier value.
    pub fn insert(&mut self, key: Vec<u8>, val: V)
        requires
            old(self).wf(),
            old(self)@.dom().len() + 1 < usize::MAX,
        ensures
            final(self).wf(),
            final(self)@ == old(self)@.insert(key@, val),
            !old(self)@.contains_key(key@) ==> final(self).shape() == insert_shape(old(self).shape()),
    {
        proof {
            self.lemma_len();
        }
        let hcode = hash_std(key.as_slice());
        let _ = self.delete_hashed(key.as_slice(), hcode);
        let ghost s1 = self.shape();
        let ghost v1 = self@;
        proof {
            self.lemma_len();
        }
        let ghost k = key@;
        assert(!self@.dom().contains(k));
        assert(!(self.newer_view().dom() + self.older_view().dom()).contains(k));
        assert(!self.newer_view().contains_key(k));
        assert(!self.older_view().contains_key(k));
        if self.newer.tab.len() == 0 {
            proof {
                reveal_with_fuel(is_pow2, 3);
            }
            self.newer = HashTable::new(4);
        }
        insert_hash(&mut self.newer, hcode, key, val);
        proof {
            assert(self@ =~= v1.insert(k, val));
        }
        if self.older.is_none() {
            if self.newer.size / K_MAX_LOAD_FACTOR >= self.newer.tab.len() {
                trigger_rehashing(self);
            }
        }
        self.maybe_migrate();
    }
}


proof fn lemma_pow2_double(n: nat)
    requires
        is_pow2(n),
    ensures
        is_pow2(2 * n),
{
    assert((2 * n) / 2 == n);
}

/// Starts a resize: a table of twice the capacity becomes the newer one and
/// the full table the older one.
fn trigger_rehashing<V>(hmap: &mut HMap<V>)
    requires
        old(hmap).core_wf(),
        !old(hmap).migrating(),
        old(hmap).shape().0 > 0,
        old(hmap).shape().1 == K_MAX_LOAD_FACTOR * old(hmap).shape().0,
    ensures
        final(hmap).core_wf(),
        final(hmap).migrating(),
        final(hmap)@ == old(hmap)@,
        final(hmap).shape() == (2 * old(hmap).shape().0, 0nat, old(hmap).shape().0, old(hmap).shape().1),
{
    let new_capacity = hmap.newer.tab.len() * 2;
    proof {
        lemma_pow2_double(hmap.newer.cap());
    }
    let mut table = HashTable::new(new_capacity);
    std::mem::swap(&mut hmap.newer, &mut table);
    hmap.older = Some(table);
    hmap.migrate_pos = 0;
    proof {
        assert(hmap@ =~= old(hmap)@);
    }
}


/// The shape after `n` insertions of distinct keys into an empty map.
pub open spec fn shape_after(n: nat) -> Shape
    decreases n,
{
    if n == 0 {
        (0, 0, 0, 0)
    } else {
        insert_shape(shape_after((n - 1) as nat))
    }
}

/// The least of `c`, `2c`, `4c`, ... whose load-factor threshold exceeds
/// `n`.
pub open spec fn grow(c: nat, n: nat) -> nat
    decreases n - c,
{
    if c == 0 {
        0
    } else if n < K_MAX_LOAD_FACTOR * c {
        c
    } else {
        grow(2 * c, n)
    }
}

proof fn lemma_grow_bounds(c: nat, n: nat)
    requires
        c >= 1,
    ensures
        grow(c, n) >= c,
        n < 8 * grow(c, n),
    decreases n - c,
{
    if n >= 8 * c {
        lemma_grow_bounds(2 * c, n);
    }
}

proof fn lemma_grow_same(c0: nat, n: nat)
    requires
        c0 >= 1,
        n + 1 < 8 * grow(c0, n),
    ensures
        grow(c0, n + 1) == grow(c0, n),
    decreases n - c0,
{
    if n >= 8 * c0 {
        lemma_grow_same(2 * c0, n);
    }
}

proof fn lemma_grow_double(c0: nat, n: nat)
    requires
        c0 >= 1,
        n + 1 == 8 * grow(c0, n),
    ensures
        grow(c0, n + 1) == 2 * grow(c0, n),
    decreases n - c0,
{
    if n >= 8 * c0 {
        lemma_grow_double(2 * c0, n);
    } else {
        assert(grow(2 * c0, n + 1) == 2 * c0);
    }
}

/// What holds of the shape after `n` distinct insertions.
pub open spec fn shape_inv(n: nat, s: Shape) -> bool {
    &&& (n >= 1 ==> s.0 == grow(4, n))
    &&& (n == 0 ==> s == (0nat, 0nat, 0nat, 0nat))
    &&& (s.2 == 0 ==> s.3 == 0 && s.1 == n && n < 8 * s.0 + if n == 0 { 1nat } else { 0nat })
    &&& (s.2 != 0 ==> s.0 == 2 * s.2 && s.1 + s.3 == n && s.3 > 0 && 128 * n + s.3 + 256 <= 1024 * s.0)
}

proof fn lemma_shape_inv(n: nat)
    ensures
        shape_inv(n, shape_after(n)),
    decreases n,
{
    if n > 0 {
        let m = (n - 1) as nat;
        lemma_shape_inv(m);
        let s = shape_after(m);
        lemma_grow_bounds(4, m);
        lemma_grow_bounds(4, n);
        if m >= 1 {
            if n < 8 * s.0 {
                lemma_grow_same(4, m);
            } else {
                lemma_grow_double(4, m);
            }
        }
    }
}

/// Starting from an empty map, after `n >= 1` insertions of distinct keys
/// the newer table has `grow(4, n)` buckets, the least of 4, 8, 16, ...
/// whose load-factor threshold exceeds `n`; a migration still in progress
/// has an older table of half that many.
pub proof fn lemma_capacity_after_inserts(n: nat)
    requires
        n >= 1,
    ensures
        shape_after(n).0 == grow(4, n),
        shape_after(n).2 != 0 ==> 2 * shape_after(n).2 == shape_after(n).0,
        shape_after(n).1 + shape_after(n).3 == n,
{
    lemma_shape_inv(n);
}


/// An update of a map: a value stored under a key, or a key removed.
pub enum MapOp<V> {
    Store(Seq<u8>, V),
    Remove(Seq<u8>),
}

/// The map after an update, as `HMap::insert` and `HMap::delete` leave it.
pub open spec fn apply_op<V>(m: Map<Seq<u8>, V>, op: MapOp<V>) -> Map<Seq<u8>, V> {
    match op {
        MapOp::Store(k, v) => m.insert(k, v),
        MapOp::Remove(k) => m.remove(k),
    }
}

pub open spec fn apply_ops<V>(m: Map<Seq<u8>, V>, ops: Seq<MapOp<V>>) -> Map<Seq<u8>, V>
    decreases ops.len(),
{
    if ops.len() == 0 {
        m
    } else {
        apply_op(apply_ops(m, ops.drop_last()), ops.last())
    }
}

pub open spec fn op_key<V>(op: MapOp<V>) -> Seq<u8> {
    match op {
        MapOp::Store(k, _) => k,
        MapOp::Remove(k) => k,
    }
}

/// A key keeps the value most recently stored under it: after storing `v`
/// under `k`, any updates of other keys leave `k` mapped to `v`.
pub proof fn lemma_lookup_last_set<V>(m: Map<Seq<u8>, V>, k: Seq<u8>, v: V, ops: Seq<MapOp<V>>)
    requires
        forall|i: int| 0 <= i < ops.len() ==> op_key(#[trigger] ops[i]) != k,
    ensures
        apply_ops(m.insert(k, v), ops).contains_key(k),
        apply_ops(m.insert(k, v), ops)[k] == v,
    decreases ops.len(),
{
    if ops.len() > 0 {
        let init = ops.drop_last();
        assert forall|i: int| 0 <= i < init.len() implies op_key(#[trigger] init[i]) != k by {
            assert(init[i] == ops[i]);
        }
        lemma_lookup_last_set(m, k, v, init);
        assert(op_key(ops[ops.len() - 1]) != k);
    }
}

/// Once a key is removed it stays absent until it is stored again.
pub proof fn lemma_absent_after_delete<V>(m: Map<Seq<u8>, V>, k: Seq<u8>, ops: Seq<MapOp<V>>)
    requires
        forall|i: int| 0 <= i < ops.len() ==> op_key(#[trigger] ops[i]) != k,
    ensures
        !apply_ops(m.remove(k), ops).contains_key(k),
    decreases ops.len(),
{
    if ops.len() > 0 {
        let init = ops.drop_last();
        assert forall|i: int| 0 <= i < init.len() implies op_key(#[trigger] init[i]) != k by {
            assert(init[i] == ops[i]);
        }
        lemma_absent_after_delete(m, k, init);
        assert(op_key(ops[ops.len() - 1]) != k);
    }
}

} // verus!
