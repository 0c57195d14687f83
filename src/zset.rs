use vstd::prelude::*;
use crate::avl::{
    Pair, Tree, inorder, members, sorted, tree_wf, balanced, cnt, lemma_wf_facts, lemma_empty_tree, znode_insert, znode_delete,
    znode_search, znode_rank, znode_select, avl_offset, avl_count, pair_lt,
};
use crate::hmap::HMap;

verus! {

/// A sorted set: members with scores, ordered by `(score, name)`. A score
/// is held as its order key (see `score_key_of` in the server module).
pub struct ZSet {
    root: Tree,
    name_to_node: HMap<u64>,
}

impl View for ZSet {
    type V = Map<Seq<u8>, u64>;

    closed spec fn view(&self) -> Map<Seq<u8>, u64> {
        self.name_to_node@
    }
}

/// The elements that a map from names to scores stands for.
pub open spec fn pairs_of(m: Map<Seq<u8>, u64>) -> Set<Pair> {
    Set::new(|p: Pair| m.contains_key(p.1) && m[p.1] == p.0)
}

impl ZSet {
    /// The elements in order.
    pub closed spec fn ordered(&self) -> Seq<Pair> {
        inorder(self.root)
    }

    pub closed spec fn wf(&self) -> bool {
        &&& tree_wf(self.root)
        &&& balanced(self.root)
        &&& self.name_to_node.wf()
        &&& members(self.root) == pairs_of(self.name_to_node@)
        &&& cnt(self.root) == self.name_to_node@.dom().len()
    }

    /// The ordered elements are sorted, are the members with their scores,
    /// and are as many as the members.
    pub proof fn lemma_ordered(&self)
        requires
            self.wf(),
        ensures
            sorted(self.ordered()),
            self.ordered().len() == self@.dom().len(),
            forall|p: Pair| self.ordered().contains(p) <==> (self@.contains_key(p.1) && self@[p.1] == p.0),
            self@.dom().finite(),
    {
        lemma_wf_facts(self.root);
        self.name_to_node.lemma_union();
        assert forall|p: Pair| self.ordered().contains(p) <==> (self@.contains_key(p.1) && self@[p.1] == p.0) by {
            assert(members(self.root).contains(p) == self.ordered().contains(p));
            assert(pairs_of(self@).contains(p) == (self@.contains_key(p.1) && self@[p.1] == p.0));
        }
    }

    pub fn new() -> (r: Self)
        ensures
            r.wf(),
            r@ == Map::<Seq<u8>, u64>::empty(),
    {
        let r = ZSet { root: None, name_to_node: HMap::new() };
        proof {
            lemma_empty_tree();
            assert(members(r.root) =~= pairs_of(r.name_to_node@));
        }
        r
    }

    /// Number of members.
    pub fn len(&self) -> (r: usize)
        requires
            self.wf(),
        ensures
            r == self@.dom().len(),
    {
        self.name_to_node.size()
    }

    pub fn is_empty(&self) -> (r: bool)
        requires
            self.wf(),
        ensures
            r == (self@.dom().len() == 0),
    {
        self.len() == 0
    }

    /// The score of member `name`.
    pub fn lookup(&self, name: &[u8]) -> (r: Option<u64>)
        requires
            self.wf(),
        ensures
            r.is_some() == self@.contains_key(name@),
            r.is_some() ==> r.unwrap() == self@[name@],
    {
        match self.name_to_node.lookup(name) {
            Some(s) => Some(*s),
            None => None,
        }
    }

    /// Whether `name` is a member with score `score`.
    pub fn lookup_by_score(&self, score: u64, name: &[u8]) -> (r: bool)
        requires
            self.wf(),
        ensures
            r == (self@.contains_key(name@) && self@[name@] == score),
    {
        let r = znode_search(&self.root, score, name);
        assert(members(self.root).contains((score, name@)) == pairs_of(self@).contains((score, name@)));
        r
    }

    /// Adds `name` with `score`, or moves it to `score` if it is a member;
    /// returns whether it was added.
    pub fn insert(&mut self, score: u64, name: Vec<u8>) -> (added: bool)
        requires
            old(self).wf(),
            old(self)@.dom().len() + 2 < usize::MAX,
        ensures
            final(self).wf(),
            final(self)@ == old(self)@.insert(name@, score),
            added == !old(self)@.contains_key(name@),
    {
        match self.lookup(name.as_slice()) {
            Some(old_score) => {
                self.zset_update(name, old_score, score);
                false
            },
            None => {
                let key = vstd::slice::slice_to_vec(name.as_slice());
                let ghost m0 = self.name_to_node@;
                let ghost k = (score, name@);
                proof {
                    self.name_to_node.lemma_union();
                }
                self.name_to_node.insert(key, score);
                let ins = znode_insert(&mut self.root, score, name);
                proof {
                    assert(!members(old(self).root).contains(k));
                    assert(self.name_to_node@.dom() =~= m0.dom().insert(k.1));
                    assert(members(self.root) =~= pairs_of(self.name_to_node@));
                }
                true
            },
        }
    }

    /// Moves member `name` from `old_score` to `new_score`: the element
    /// leaves the tree and enters it again at its new place.
    pub fn zset_update(&mut self, name: Vec<u8>, old_score: u64, new_score: u64)
        requires
            old(self).wf(),
            old(self)@.contains_key(name@),
            old(self)@[name@] == old_score,
            old(self)@.dom().len() + 2 < usize::MAX,
        ensures
            final(self).wf(),
            final(self)@ == old(self)@.insert(name@, new_score),
    {
        let ghost m0 = self.name_to_node@;
        let ghost nm = name@;
        proof {
            assert(pairs_of(m0).contains((old_score, nm)));
        }
        let removed = znode_delete(&mut self.root, old_score, name.as_slice());
        let key = vstd::slice::slice_to_vec(name.as_slice());
        self.name_to_node.insert(key, new_score);
        proof {
            lemma_wf_facts(old(self).root);
            assert(!members(self.root).contains((new_score, nm)));
        }
        let ins = znode_insert(&mut self.root, new_score, name);
        proof {
            assert(self.name_to_node@.dom() =~= m0.dom());
            assert(members(self.root) =~= pairs_of(self.name_to_node@));
        }
    }

    /// Removes member `name`.
    pub fn delete(&mut self, name: &[u8])
        requires
            old(self).wf(),
            old(self)@.contains_key(name@),
        ensures
            final(self).wf(),
            final(self)@ == old(self)@.remove(name@),
    {
        let ghost m0 = self.name_to_node@;
        proof {
            self.name_to_node.lemma_union();
        }
        let score = match self.name_to_node.delete(name) {
            Some(s) => s,
            None => {
                proof {
                    assert(false);
                }
                0
            },
        };
        proof {
            assert(pairs_of(m0).contains((score, name@)));
        }
        let removed = znode_delete(&mut self.root, score, name);
        proof {
            assert(self.name_to_node@.dom() =~= m0.dom().remove(name@));
            assert(members(self.root) =~= pairs_of(self.name_to_node@));
        }
    }

    /// The position of the least element not below `(score, name)`, if
    /// there is one.
    pub fn zset_seekge(&self, score: u64, name: &[u8]) -> (r: Option<usize>)
        requires
            self.wf(),
        ensures
            r.is_some() ==> r.unwrap() < self.ordered().len(),
            forall|i: int| 0 <= i < self.ordered().len() && (r.is_none() || i < r.unwrap())
                ==> pair_lt(#[trigger] self.ordered()[i], (score, name@)),
            r.is_some() ==> forall|i: int| r.unwrap() <= i < self.ordered().len()
                ==> !pair_lt(#[trigger] self.ordered()[i], (score, name@)),
    {
        let r = znode_rank(&self.root, score, name);
        proof {
            lemma_wf_facts(self.root);
        }
        if r < avl_count(&self.root) {
            Some(r)
        } else {
            None
        }
    }

    /// The element at position `i` in order.
    pub fn at(&self, i: usize) -> (r: (u64, &[u8]))
        requires
            self.wf(),
            i < self.ordered().len(),
        ensures
            (r.0, r.1@) == self.ordered()[i as int],
    {
        znode_select(&self.root, i)
    }

    /// The element `offset` places from position `pos`, if there is one.
    pub fn znode_offset(&self, pos: usize, offset: i64) -> (r: Option<(u64, &[u8])>)
        requires
            self.wf(),
        ensures
            0 <= pos + offset < self.ordered().len() ==> r.is_some() && (r.unwrap().0, r.unwrap().1@)
                == self.ordered()[pos + offset],
            !(0 <= pos + offset < self.ordered().len()) ==> r.is_none(),
    {
        avl_offset(&self.root, pos, offset)
    }
}

} // verus!
