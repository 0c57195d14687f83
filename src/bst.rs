use vstd::prelude::*;

verus! {

/// A node of a plain binary search tree without duplicate keys.
pub struct Node<T> {
    pub key: T,
    pub left: Option<Box<Node<T>>>,
    pub right: Option<Box<Node<T>>>,
}

pub type Link = Option<Box<Node<i32>>>;

impl<T> Node<T> {
    pub fn new(key: T) -> (r: Box<Self>)
        ensures
            r.key == key,
            r.left.is_none(),
            r.right.is_none(),
    {
        Box::new(Node { key, left: None, right: None })
    }
}

/// The keys of a tree.
pub open spec fn keys(t: Link) -> Set<i32>
    decreases t,
{
    match t {
        None => Set::empty(),
        Some(n) => keys(n.left).union(keys(n.right)).insert(n.key),
    }
}

/// Left keys are smaller and right keys larger at every node.
pub open spec fn bst(t: Link) -> bool
    decreases t,
{
    match t {
        None => true,
        Some(n) => {
            &&& bst(n.left)
            &&& bst(n.right)
            &&& forall|k: i32| #[trigger] keys(n.left).contains(k) ==> k < n.key
            &&& forall|k: i32| #[trigger] keys(n.right).contains(k) ==> k > n.key
        },
    }
}

/// Whether `key` is in the tree.
pub fn tree_search(from: &Link, key: i32) -> (found: bool)
    requires
        bst(*from),
    ensures
        found == keys(*from).contains(key),
    decreases *from,
{
    match from {
        None => {
            assert(keys(*from) =~= Set::<i32>::empty());
            false
        },
        Some(n) => {
            assert(keys(*from) == keys(n.left).union(keys(n.right)).insert(n.key));
            if key < n.key {
                assert(!keys(n.right).contains(key));
                tree_search(&n.left, key)
            } else if key > n.key {
                assert(!keys(n.left).contains(key));
                tree_search(&n.right, key)
            } else {
                true
            }
        },
    }
}

/// Adds `key`; an equal key is not added twice.
pub fn tree_insert(root: &mut Link, key: i32)
    requires
        bst(*old(root)),
    ensures
        bst(*final(root)),
        keys(*final(root)) == keys(*old(root)).insert(key),
    decreases *old(root),
{
    match root.take() {
        None => {
            *root = Some(Node::new(key));
            assert(keys(*root) =~= keys(*old(root)).insert(key));
        },
        Some(mut n) => {
            if key < n.key {
                tree_insert(&mut n.left, key);
            } else if key > n.key {
                tree_insert(&mut n.right, key);
            }
            *root = Some(n);
            assert(keys(*root) =~= keys(*old(root)).insert(key));
        },
    }
}

/// Removes the largest key of a non-empty tree and returns it.
fn take_max(t: &mut Link) -> (m: i32)
    requires
        bst(*old(t)),
        old(t).is_some(),
    ensures
        bst(*final(t)),
        keys(*old(t)).contains(m),
        keys(*final(t)) == keys(*old(t)).remove(m),
        forall|k: i32| #[trigger] keys(*old(t)).contains(k) ==> k <= m,
    decreases *old(t),
{
    let mut n = t.take().unwrap();
    let ghost l0 = keys(n.left);
    let ghost r0 = keys(n.right);
    assert(keys(*old(t)) == l0.union(r0).insert(n.key));
    assert(!l0.contains(n.key));
    if n.right.is_none() {
        let m = n.key;
        assert(r0 =~= Set::<i32>::empty());
        *t = n.left.take();
        assert(keys(*t) =~= keys(*old(t)).remove(m));
        m
    } else {
        assert(!r0.contains(n.key));
        let m = take_max(&mut n.right);
        assert(m > n.key);
        assert(!l0.contains(m));
        *t = Some(n);
        assert(keys(*t) =~= keys(*old(t)).remove(m));
        m
    }
}

/// The subtree that remains when the root of `n` is taken out.
pub fn node_detach(n: Box<Node<i32>>) -> (r: Link)
    requires
        bst(Some(n)),
    ensures
        bst(r),
        keys(r) == keys(Some(n)).remove(n.key),
{
    let mut n = n;
    let ghost t0 = Some(n);
    assert(!keys(n.left).contains(n.key));
    assert(!keys(n.right).contains(n.key));
    if n.right.is_none() {
        let r = n.left.take();
        assert(keys(r) =~= keys(t0).remove(t0.unwrap().key));
        r
    } else if n.left.is_none() {
        let r = n.right.take();
        assert(keys(r) =~= keys(t0).remove(t0.unwrap().key));
        r
    } else {
        let m = take_max(&mut n.left);
        n.key = m;
        let r = Some(n);
        assert(keys(r) =~= keys(t0).remove(t0.unwrap().key));
        r
    }
}

/// The tree without `key`.
pub fn tree_delete(node: Link, key: i32) -> (r: Link)
    requires
        bst(node),
    ensures
        bst(r),
        keys(r) == keys(node).remove(key),
    decreases node,
{
    match node {
        None => {
            assert(keys(None) =~= keys(node).remove(key));
            None
        },
        Some(mut n) => {
            let ghost l0 = keys(n.left);
            let ghost r0 = keys(n.right);
            assert(keys(node) == l0.union(r0).insert(n.key));
            if key < n.key {
                assert(!r0.contains(key));
                let l = n.left.take();
                n.left = tree_delete(l, key);
                let r = Some(n);
                assert(keys(r) =~= keys(node).remove(key));
                r
            } else if key > n.key {
                assert(!l0.contains(key));
                let rt = n.right.take();
                n.right = tree_delete(rt, key);
                let r = Some(n);
                assert(keys(r) =~= keys(node).remove(key));
                r
            } else {
                node_detach(n)
            }
        },
    }
}

} // verus!
