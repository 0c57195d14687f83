use vstd::prelude::*;

verus! {

broadcast use vstd::seq_lib::group_seq_properties;

/// A sorted-set element: the order key of its score and its name.
pub type Pair = (u64, Seq<u8>);

/// Lexicographic order on byte strings, as `[u8]` orders them.
pub open spec fn bytes_lt(a: Seq<u8>, b: Seq<u8>) -> bool
    decreases a.len(),
{
    if a.len() == 0 {
        b.len() > 0
    } else if b.len() == 0 {
        false
    } else if a[0] != b[0] {
        a[0] < b[0]
    } else {
        bytes_lt(a.drop_first(), b.drop_first())
    }
}

/// The order of sorted-set elements: by score, then by name.
pub open spec fn pair_lt(a: Pair, b: Pair) -> bool {
    a.0 < b.0 || (a.0 == b.0 && bytes_lt(a.1, b.1))
}

pub proof fn lemma_bytes_lt_irrefl(a: Seq<u8>)
    ensures
        !bytes_lt(a, a),
    decreases a.len(),
{
    if a.len() > 0 {
        lemma_bytes_lt_irrefl(a.drop_first());
    }
}

pub proof fn lemma_bytes_lt_trans(a: Seq<u8>, b: Seq<u8>, c: Seq<u8>)
    requires
        bytes_lt(a, b),
        bytes_lt(b, c),
    ensures
        bytes_lt(a, c),
    decreases a.len(),
{
    if a.len() > 0 && b.len() > 0 && c.len() > 0 && a[0] == b[0] && b[0] == c[0] {
        lemma_bytes_lt_trans(a.drop_first(), b.drop_first(), c.drop_first());
    }
}

pub proof fn lemma_bytes_lt_total(a: Seq<u8>, b: Seq<u8>)
    ensures
        a == b || bytes_lt(a, b) || bytes_lt(b, a),
    decreases a.len(),
{
    if a.len() > 0 && b.len() > 0 && a[0] == b[0] {
        lemma_bytes_lt_total(a.drop_first(), b.drop_first());
        if a.drop_first() == b.drop_first() {
            assert(a =~= seq![a[0]] + a.drop_first());
            assert(b =~= seq![b[0]] + b.drop_first());
        }
    } else if a.len() == 0 && b.len() == 0 {
        assert(a =~= b);
    }
}

pub proof fn lemma_bytes_lt_asym(a: Seq<u8>, b: Seq<u8>)
    requires
        bytes_lt(a, b),
    ensures
        !bytes_lt(b, a),
{
    if bytes_lt(b, a) {
        lemma_bytes_lt_trans(a, b, a);
        lemma_bytes_lt_irrefl(a);
    }
}

pub proof fn lemma_pair_lt_trans(a: Pair, b: Pair, c: Pair)
    requires
        pair_lt(a, b),
        pair_lt(b, c),
    ensures
        pair_lt(a, c),
{
    if a.0 == b.0 && b.0 == c.0 {
        lemma_bytes_lt_trans(a.1, b.1, c.1);
    }
}

pub proof fn lemma_pair_lt_asym(a: Pair, b: Pair)
    requires
        pair_lt(a, b),
    ensures
        !pair_lt(b, a),
        a != b,
{
    if a.0 == b.0 {
        lemma_bytes_lt_asym(a.1, b.1);
        lemma_bytes_lt_irrefl(a.1);
    }
}

pub proof fn lemma_pair_lt_total(a: Pair, b: Pair)
    ensures
        a == b || pair_lt(a, b) || pair_lt(b, a),
{
    lemma_bytes_lt_total(a.1, b.1);
}

proof fn lemma_bytes_lt_skip(a: Seq<u8>, b: Seq<u8>, i: int)
    requires
        0 <= i <= a.len(),
        i <= b.len(),
        a.subrange(0, i) == b.subrange(0, i),
    ensures
        bytes_lt(a, b) == bytes_lt(a.skip(i), b.skip(i)),
    decreases i,
{
    if i > 0 {
        assert(a[0] == a.subrange(0, i)[0]);
        assert(b[0] == b.subrange(0, i)[0]);
        assert(a.drop_first().subrange(0, i - 1) =~= a.subrange(0, i).drop_first());
        assert(b.drop_first().subrange(0, i - 1) =~= b.subrange(0, i).drop_first());
        lemma_bytes_lt_skip(a.drop_first(), b.drop_first(), i - 1);
        assert(a.drop_first().skip(i - 1) =~= a.skip(i));
        assert(b.drop_first().skip(i - 1) =~= b.skip(i));
    } else {
        assert(a.skip(0) =~= a);
        assert(b.skip(0) =~= b);
    }
}

/// Compares two byte strings: negative, zero or positive as `a` is less
/// than, equal to or greater than `b`.
pub fn cmp_bytes(a: &[u8], b: &[u8]) -> (r: i8)
    ensures
        r < 0 <==> bytes_lt(a@, b@),
        r == 0 <==> a@ == b@,
        r > 0 <==> bytes_lt(b@, a@),
{
    let mut i: usize = 0;
    while i < a.len() && i < b.len() && a[i] == b[i]
        invariant
            i <= a@.len(),
            i <= b@.len(),
            a@.subrange(0, i as int) == b@.subrange(0, i as int),
        decreases a@.len() - i,
    {
        assert(a@.subrange(0, i + 1) =~= a@.subrange(0, i as int).push(a@[i as int]));
        assert(b@.subrange(0, i + 1) =~= b@.subrange(0, i as int).push(b@[i as int]));
        i = i + 1;
    }
    proof {
        lemma_bytes_lt_skip(a@, b@, i as int);
        lemma_bytes_lt_skip(b@, a@, i as int);
        lemma_bytes_lt_irrefl(a@);
        if i < a@.len() && i < b@.len() {
            assert(a@.skip(i as int)[0] == a@[i as int]);
            assert(b@.skip(i as int)[0] == b@[i as int]);
            assert(a@ != b@ || a@[i as int] == b@[i as int]);
        } else if i == a@.len() && i == b@.len() {
            assert(a@ =~= a@.subrange(0, i as int));
            assert(b@ =~= b@.subrange(0, i as int));
        } else if i == a@.len() {
            assert(a@.len() != b@.len());
        } else {
            assert(a@.len() != b@.len());
        }
    }
    if i < a.len() && i < b.len() {
        if a[i] < b[i] {
            -1
        } else {
            1
        }
    } else if a.len() == b.len() {
        0
    } else if i == a.len() {
        -1
    } else {
        1
    }
}

/// Compares the elements `(s1, n1)` and `(s2, n2)`.
pub fn cmp_pair(s1: u64, n1: &[u8], s2: u64, n2: &[u8]) -> (r: i8)
    ensures
        r < 0 <==> pair_lt((s1, n1@), (s2, n2@)),
        r == 0 <==> (s1, n1@) == (s2, n2@),
        r > 0 <==> pair_lt((s2, n2@), (s1, n1@)),
{
    if s1 < s2 {
        -1
    } else if s1 > s2 {
        1
    } else {
        cmp_bytes(n1, n2)
    }
}

/// A node of the order-statistic AVL tree, carrying one element with the
/// height and the size of its subtree.
pub struct ZNode {
    score: u64,
    name: Vec<u8>,
    left: Option<Box<ZNode>>,
    right: Option<Box<ZNode>>,
    height: usize,
    count: usize,
}

pub type Tree = Option<Box<ZNode>>;

pub open spec fn all_lt(s: Seq<Pair>, k: Pair) -> bool {
    forall|i: int| 0 <= i < s.len() ==> pair_lt(#[trigger] s[i], k)
}

pub open spec fn all_gt(s: Seq<Pair>, k: Pair) -> bool {
    forall|i: int| 0 <= i < s.len() ==> pair_lt(k, #[trigger] s[i])
}

/// Strictly increasing.
pub open spec fn sorted(s: Seq<Pair>) -> bool {
    forall|i: int, j: int| 0 <= i < j < s.len() ==> pair_lt(#[trigger] s[i], #[trigger] s[j])
}

pub open spec fn max_nat(a: nat, b: nat) -> nat {
    if a >= b { a } else { b }
}

impl ZNode {
    pub closed spec fn key(&self) -> Pair {
        (self.score, self.name@)
    }

    pub closed spec fn lnode(&self) -> Tree {
        self.left
    }

    pub closed spec fn rnode(&self) -> Tree {
        self.right
    }

    /// The children are well formed and the element lies between them.
    pub closed spec fn ordered(&self) -> bool {
        &&& tree_wf(self.left)
        &&& tree_wf(self.right)
        &&& all_lt(inorder(self.left), self.key())
        &&& all_gt(inorder(self.right), self.key())
        &&& cnt(self.left) + cnt(self.right) < usize::MAX
    }

    pub fn score(&self) -> (r: u64)
        ensures
            r == self.key().0,
    {
        self.score
    }

    pub fn name(&self) -> (r: &[u8])
        ensures
            r@ == self.key().1,
    {
        self.name.as_slice()
    }
}

/// The elements of a tree in order.
pub closed spec fn inorder(t: Tree) -> Seq<Pair>
    decreases t,
{
    match t {
        None => Seq::empty(),
        Some(n) => inorder(n.left) + seq![n.key()] + inorder(n.right),
    }
}

/// The elements of a tree.
pub open spec fn members(t: Tree) -> Set<Pair> {
    Set::new(|x: Pair| inorder(t).contains(x))
}

pub closed spec fn ht(t: Tree) -> nat {
    match t {
        None => 0,
        Some(n) => n.height as nat,
    }
}

pub closed spec fn cnt(t: Tree) -> nat {
    match t {
        None => 0,
        Some(n) => n.count as nat,
    }
}

/// Search order, exact subtree sizes and exact heights at every node.
pub closed spec fn tree_wf(t: Tree) -> bool
    decreases t,
{
    match t {
        None => true,
        Some(n) => {
            &&& tree_wf(n.left)
            &&& tree_wf(n.right)
            &&& all_lt(inorder(n.left), n.key())
            &&& all_gt(inorder(n.right), n.key())
            &&& n.count as nat == 1 + cnt(n.left) + cnt(n.right)
            &&& n.height as nat == 1 + max_nat(ht(n.left), ht(n.right))
        },
    }
}

/// The balance condition of an AVL tree at every node.
pub closed spec fn balanced(t: Tree) -> bool
    decreases t,
{
    match t {
        None => true,
        Some(n) => {
            &&& balanced(n.left)
            &&& balanced(n.right)
            &&& ht(n.left) <= ht(n.right) + 1
            &&& ht(n.right) <= ht(n.left) + 1
        },
    }
}

pub proof fn lemma_wf_facts(t: Tree)
    requires
        tree_wf(t),
    ensures
        cnt(t) == inorder(t).len(),
        ht(t) <= cnt(t),
        sorted(inorder(t)),
    decreases t,
{
    match t {
        None => {},
        Some(n) => {
            lemma_wf_facts(n.left);
            lemma_wf_facts(n.right);
            let l = inorder(n.left);
            let r = inorder(n.right);
            let s = inorder(t);
            assert forall|i: int, j: int| 0 <= i < j < s.len() implies pair_lt(#[trigger] s[i], #[trigger] s[j]) by {
                if j < l.len() {
                    assert(s[i] == l[i] && s[j] == l[j]);
                } else if i > l.len() {
                    assert(s[i] == r[i - l.len() - 1] && s[j] == r[j - l.len() - 1]);
                } else if i == l.len() {
                    assert(s[j] == r[j - l.len() - 1]);
                } else if j == l.len() {
                    assert(s[i] == l[i]);
                } else {
                    assert(s[i] == l[i]);
                    assert(s[j] == r[j - l.len() - 1]);
                    lemma_pair_lt_trans(s[i], n.key(), s[j]);
                }
            }
        },
    }
}

pub proof fn lemma_empty_tree()
    ensures
        tree_wf(None),
        balanced(None),
        inorder(None) == Seq::<Pair>::empty(),
        cnt(None) == 0,
{
}

proof fn lemma_all_lt_trans(s: Seq<Pair>, a: Pair, b: Pair)
    requires
        all_lt(s, a),
        pair_lt(a, b),
    ensures
        all_lt(s, b),
{
    assert forall|i: int| 0 <= i < s.len() implies pair_lt(#[trigger] s[i], b) by {
        lemma_pair_lt_trans(s[i], a, b);
    }
}

proof fn lemma_all_gt_trans(s: Seq<Pair>, a: Pair, b: Pair)
    requires
        all_gt(s, b),
        pair_lt(a, b),
    ensures
        all_gt(s, a),
{
    assert forall|i: int| 0 <= i < s.len() implies pair_lt(a, #[trigger] s[i]) by {
        lemma_pair_lt_trans(a, b, s[i]);
    }
}

proof fn lemma_all_lt_concat(s1: Seq<Pair>, k: Pair, s2: Seq<Pair>, b: Pair)
    requires
        all_lt(s1, b),
        pair_lt(k, b),
        all_lt(s2, b),
    ensures
        all_lt(s1 + seq![k] + s2, b),
{
    let s = s1 + seq![k] + s2;
    assert forall|i: int| 0 <= i < s.len() implies pair_lt(#[trigger] s[i], b) by {
        if i < s1.len() {
            assert(s[i] == s1[i]);
        } else if i > s1.len() {
            assert(s[i] == s2[i - s1.len() - 1]);
        }
    }
}

proof fn lemma_all_gt_concat(s1: Seq<Pair>, k: Pair, s2: Seq<Pair>, b: Pair)
    requires
        all_gt(s1, b),
        pair_lt(b, k),
        all_gt(s2, b),
    ensures
        all_gt(s1 + seq![k] + s2, b),
{
    let s = s1 + seq![k] + s2;
    assert forall|i: int| 0 <= i < s.len() implies pair_lt(b, #[trigger] s[i]) by {
        if i < s1.len() {
            assert(s[i] == s1[i]);
        } else if i > s1.len() {
            assert(s[i] == s2[i - s1.len() - 1]);
        }
    }
}

proof fn lemma_all_lt_sub(s1: Seq<Pair>, k: Pair, s2: Seq<Pair>, b: Pair)
    requires
        all_lt(s1 + seq![k] + s2, b),
    ensures
        all_lt(s1, b),
        pair_lt(k, b),
        all_lt(s2, b),
{
    let s = s1 + seq![k] + s2;
    assert(s[s1.len() as int] == k);
    assert forall|i: int| 0 <= i < s1.len() implies pair_lt(#[trigger] s1[i], b) by {
        assert(s[i] == s1[i]);
    }
    assert forall|i: int| 0 <= i < s2.len() implies pair_lt(#[trigger] s2[i], b) by {
        assert(s[i + s1.len() + 1] == s2[i]);
    }
}

proof fn lemma_all_gt_sub(s1: Seq<Pair>, k: Pair, s2: Seq<Pair>, b: Pair)
    requires
        all_gt(s1 + seq![k] + s2, b),
    ensures
        all_gt(s1, b),
        pair_lt(b, k),
        all_gt(s2, b),
{
    let s = s1 + seq![k] + s2;
    assert(s[s1.len() as int] == k);
    assert forall|i: int| 0 <= i < s1.len() implies pair_lt(b, #[trigger] s1[i]) by {
        assert(s[i] == s1[i]);
    }
    assert forall|i: int| 0 <= i < s2.len() implies pair_lt(b, #[trigger] s2[i]) by {
        assert(s[i + s1.len() + 1] == s2[i]);
    }
}

proof fn lemma_not_member_lt(s: Seq<Pair>, k: Pair)
    requires
        all_lt(s, k),
    ensures
        !s.contains(k),
{
    if s.contains(k) {
        let i = choose|i: int| 0 <= i < s.len() && s[i] == k;
        lemma_pair_lt_asym(s[i], k);
    }
}

proof fn lemma_not_member_gt(s: Seq<Pair>, k: Pair)
    requires
        all_gt(s, k),
    ensures
        !s.contains(k),
{
    if s.contains(k) {
        let i = choose|i: int| 0 <= i < s.len() && s[i] == k;
        lemma_pair_lt_asym(k, s[i]);
    }
}

proof fn lemma_members_node(n: Box<ZNode>)
    ensures
        forall|x: Pair| #[trigger] members(Some(n)).contains(x) <==> (members(n.left).contains(x)
            || x == n.key() || members(n.right).contains(x)),
{
    let l = inorder(n.left);
    let r = inorder(n.right);
    assert(inorder(Some(n)) == l + seq![n.key()] + r);
    assert forall|x: Pair| #[trigger] members(Some(n)).contains(x) <==> (members(n.left).contains(x)
        || x == n.key() || members(n.right).contains(x)) by {
        assert((l + seq![n.key()] + r).contains(x) <==> ((l + seq![n.key()]).contains(x) || r.contains(x)));
        assert((l + seq![n.key()]).contains(x) <==> (l.contains(x) || seq![n.key()].contains(x)));
        if seq![n.key()].contains(x) {
            let i = choose|i: int| 0 <= i < 1 && seq![n.key()][i] == x;
        }
        if x == n.key() {
            assert(seq![n.key()][0] == x);
        }
    }
}

pub fn znode_height(t: &Tree) -> (r: usize)
    ensures
        r == ht(*t),
{
    match t {
        None => 0,
        Some(n) => n.height,
    }
}

pub fn avl_count(t: &Tree) -> (r: usize)
    ensures
        r == cnt(*t),
{
    match t {
        None => 0,
        Some(n) => n.count,
    }
}

/// Recomputes the height and the size of `n` from its children.
pub fn znode_update(n: &mut ZNode)
    requires
        old(n).ordered(),
    ensures
        tree_wf(Some(Box::new(*final(n)))),
        final(n).key() == old(n).key(),
        final(n).lnode() == old(n).lnode(),
        final(n).rnode() == old(n).rnode(),
        cnt(Some(Box::new(*final(n)))) == 1 + cnt(old(n).lnode()) + cnt(old(n).rnode()),
{
    proof {
        lemma_wf_facts(n.left);
        lemma_wf_facts(n.right);
    }
    let hl = znode_height(&n.left);
    let hr = znode_height(&n.right);
    n.height = 1 + if hl >= hr { hl } else { hr };
    n.count = 1 + avl_count(&n.left) + avl_count(&n.right);
}

pub fn znode_new(score: u64, name: Vec<u8>) -> (r: Box<ZNode>)
    ensures
        tree_wf(Some(r)),
        inorder(Some(r)) == seq![(score, name@)],
        cnt(Some(r)) == 1,
        ht(Some(r)) == 1,
        balanced(Some(r)),
{
    let r = Box::new(ZNode { score, name, left: None, right: None, height: 1, count: 1 });
    assert(tree_wf(None));
    assert(inorder(None) == Seq::<Pair>::empty());
    assert(balanced(None));
    assert(inorder(Some(r)) =~= seq![(score, name@)]);
    r
}

/// Rotates left: the right child becomes the root of the subtree.
pub fn znode_rot_left(n: Box<ZNode>) -> (r: Box<ZNode>)
    requires
        n.ordered(),
        n.rnode().is_some(),
    ensures
        tree_wf(Some(r)),
        inorder(Some(r)) == inorder(Some(n)),
        cnt(Some(r)) == 1 + cnt(n.lnode()) + cnt(n.rnode()),
        r.rnode() == n.rnode().unwrap().rnode(),
        r.lnode().is_some(),
        r.lnode().unwrap().lnode() == n.lnode(),
        r.lnode().unwrap().rnode() == n.rnode().unwrap().lnode(),
{
    let mut n = n;
    let ghost t0 = Some(n);
    let mut pivot = n.right.take().unwrap();
    proof {
        lemma_wf_facts(pivot.left);
        lemma_wf_facts(pivot.right);
        lemma_all_gt_sub(inorder(pivot.left), pivot.key(), inorder(pivot.right), n.key());
    }
    n.right = pivot.left.take();
    znode_update(&mut n);
    proof {
        lemma_all_lt_trans(inorder(n.left), n.key(), pivot.key());
        lemma_all_lt_concat(inorder(n.left), n.key(), inorder(n.right), pivot.key());
    }
    pivot.left = Some(n);
    znode_update(&mut pivot);
    let r = pivot;
    assert(inorder(Some(r)) =~= inorder(t0));
    r
}

/// Rotates right: the left child becomes the root of the subtree.
pub fn znode_rot_right(n: Box<ZNode>) -> (r: Box<ZNode>)
    requires
        n.ordered(),
        n.lnode().is_some(),
    ensures
        tree_wf(Some(r)),
        inorder(Some(r)) == inorder(Some(n)),
        cnt(Some(r)) == 1 + cnt(n.lnode()) + cnt(n.rnode()),
        r.lnode() == n.lnode().unwrap().lnode(),
        r.rnode().is_some(),
        r.rnode().unwrap().lnode() == n.lnode().unwrap().rnode(),
        r.rnode().unwrap().rnode() == n.rnode(),
{
    let mut n = n;
    let ghost t0 = Some(n);
    let mut pivot = n.left.take().unwrap();
    proof {
        lemma_wf_facts(pivot.left);
        lemma_wf_facts(pivot.right);
        lemma_all_lt_sub(inorder(pivot.left), pivot.key(), inorder(pivot.right), n.key());
    }
    n.left = pivot.right.take();
    znode_update(&mut n);
    proof {
        lemma_all_gt_trans(inorder(n.right), pivot.key(), n.key());
        lemma_all_gt_concat(inorder(n.left), n.key(), inorder(n.right), pivot.key());
    }
    pivot.right = Some(n);
    znode_update(&mut pivot);
    let r = pivot;
    assert(inorder(Some(r)) =~= inorder(t0));
    r
}

/// Repairs a subtree whose left side is two levels taller than its right.
pub fn znode_fix_left(n: Box<ZNode>) -> (r: Box<ZNode>)
    requires
        n.ordered(),
        balanced(n.lnode()),
        balanced(n.rnode()),
        ht(n.lnode()) == ht(n.rnode()) + 2,
    ensures
        tree_wf(Some(r)),
        balanced(Some(r)),
        inorder(Some(r)) == inorder(Some(n)),
        cnt(Some(r)) == 1 + cnt(n.lnode()) + cnt(n.rnode()),
        ht(n.lnode()) <= ht(Some(r)) <= ht(n.lnode()) + 1,
{
    let mut n = n;
    let ghost t0 = Some(n);
    let ghost hr = ht(n.right);
    let l = n.left.take().unwrap();
    let ll = znode_height(&l.left);
    let lr = znode_height(&l.right);
    if ll < lr {
        proof {
            lemma_wf_facts(l.right);
        }
        let ghost lrn = l.right.unwrap();
        let ghost l0 = l;
        proof {
            assert(t0.unwrap().lnode() == Some(l0));
            assert(tree_wf(Some(l0)) && balanced(Some(l0)));
            assert(l0.rnode() == Some(lrn));
            assert(tree_wf(Some(lrn)) && balanced(Some(lrn)));
            assert(ht(l0.lnode()) == hr);
            assert(ht(Some(lrn)) == hr + 1);
        }
        let l2 = znode_rot_left(l);
        n.left = Some(l2);
        assert(inorder(Some(n)) == inorder(t0));
        let ghost n1 = n;
        let r = znode_rot_right(n);
        proof {
            let a = r.lnode().unwrap();
            let b = r.rnode().unwrap();
            assert(r.lnode() == l2.lnode());
            assert(a.lnode() == l0.lnode());
            assert(a.rnode() == lrn.lnode());
            assert(b.lnode() == lrn.rnode());
            assert(b.rnode() == t0.unwrap().rnode());
            assert(ht(lrn.left) + 1 >= hr && ht(lrn.left) <= hr);
            assert(ht(lrn.right) + 1 >= hr && ht(lrn.right) <= hr);
            assert(tree_wf(Some(a)) && tree_wf(Some(b)));
            assert(balanced(Some(a)));
            assert(balanced(Some(b)));
            assert(balanced(Some(r)));
        }
        r
    } else {
        let ghost l0 = l;
        proof {
            assert(t0.unwrap().lnode() == Some(l0));
            assert(tree_wf(Some(l0)) && balanced(Some(l0)));
            assert(ht(l0.lnode()) == hr + 1);
        }
        n.left = Some(l);
        assert(inorder(Some(n)) == inorder(t0));
        let r = znode_rot_right(n);
        proof {
            let b = r.rnode().unwrap();
            assert(r.lnode() == l0.lnode());
            assert(b.lnode() == l0.rnode());
            assert(b.rnode() == t0.unwrap().rnode());
            assert(tree_wf(Some(b)));
            assert(balanced(Some(b)));
            assert(balanced(Some(r)));
        }
        r
    }
}

/// Repairs a subtree whose right side is two levels taller than its left.
pub fn znode_fix_right(n: Box<ZNode>) -> (r: Box<ZNode>)
    requires
        n.ordered(),
        balanced(n.lnode()),
        balanced(n.rnode()),
        ht(n.rnode()) == ht(n.lnode()) + 2,
    ensures
        tree_wf(Some(r)),
        balanced(Some(r)),
        inorder(Some(r)) == inorder(Some(n)),
        cnt(Some(r)) == 1 + cnt(n.lnode()) + cnt(n.rnode()),
        ht(n.rnode()) <= ht(Some(r)) <= ht(n.rnode()) + 1,
{
    let mut n = n;
    let ghost t0 = Some(n);
    let ghost hl = ht(n.left);
    let rt = n.right.take().unwrap();
    let rl = znode_height(&rt.left);
    let rr = znode_height(&rt.right);
    if rr < rl {
        proof {
            lemma_wf_facts(rt.left);
        }
        let ghost rln = rt.left.unwrap();
        let ghost r0 = rt;
        proof {
            assert(t0.unwrap().rnode() == Some(r0));
            assert(tree_wf(Some(r0)) && balanced(Some(r0)));
            assert(r0.lnode() == Some(rln));
            assert(tree_wf(Some(rln)) && balanced(Some(rln)));
            assert(ht(r0.rnode()) == hl);
            assert(ht(Some(rln)) == hl + 1);
        }
        let r2 = znode_rot_right(rt);
        n.right = Some(r2);
        assert(inorder(Some(n)) == inorder(t0));
        let r = znode_rot_left(n);
        proof {
            let a = r.lnode().unwrap();
            let b = r.rnode().unwrap();
            assert(r.rnode() == r2.rnode());
            assert(b.rnode() == r0.rnode());
            assert(b.lnode() == rln.rnode());
            assert(a.rnode() == rln.lnode());
            assert(a.lnode() == t0.unwrap().lnode());
            assert(ht(rln.left) + 1 >= hl && ht(rln.left) <= hl);
            assert(ht(rln.right) + 1 >= hl && ht(rln.right) <= hl);
            assert(tree_wf(Some(a)) && tree_wf(Some(b)));
            assert(balanced(Some(a)));
            assert(balanced(Some(b)));
            assert(balanced(Some(r)));
        }
        r
    } else {
        let ghost r0 = rt;
        proof {
            assert(t0.unwrap().rnode() == Some(r0));
            assert(tree_wf(Some(r0)) && balanced(Some(r0)));
            assert(ht(r0.rnode()) == hl + 1);
        }
        n.right = Some(rt);
        assert(inorder(Some(n)) == inorder(t0));
        let r = znode_rot_left(n);
        proof {
            let a = r.lnode().unwrap();
            assert(r.rnode() == r0.rnode());
            assert(a.rnode() == r0.lnode());
            assert(a.lnode() == t0.unwrap().lnode());
            assert(tree_wf(Some(a)));
            assert(balanced(Some(a)));
            assert(balanced(Some(r)));
        }
        r
    }
}

/// Recomputes the node's fields and rotates where one side is two levels
/// taller than the other.
pub fn znode_fix(n: Box<ZNode>) -> (r: Box<ZNode>)
    requires
        n.ordered(),
        balanced(n.lnode()),
        balanced(n.rnode()),
        ht(n.lnode()) <= ht(n.rnode()) + 2,
        ht(n.rnode()) <= ht(n.lnode()) + 2,
    ensures
        tree_wf(Some(r)),
        balanced(Some(r)),
        inorder(Some(r)) == inorder(Some(n)),
        cnt(Some(r)) == 1 + cnt(n.lnode()) + cnt(n.rnode()),
        max_nat(ht(n.lnode()), ht(n.rnode())) <= ht(Some(r)) <= max_nat(ht(n.lnode()), ht(n.rnode())) + 1,
        ht(n.lnode()) <= ht(n.rnode()) + 1 && ht(n.rnode()) <= ht(n.lnode()) + 1 ==> ht(Some(r)) == 1 + max_nat(
            ht(n.lnode()),
            ht(n.rnode()),
        ),
{
    let hl = znode_height(&n.left);
    let hr = znode_height(&n.right);
    if hl >= 2 && hl - 2 == hr {
        znode_fix_left(n)
    } else if hr >= 2 && hr - 2 == hl {
        znode_fix_right(n)
    } else {
        let mut n = n;
        let ghost t0 = Some(n);
        znode_update(&mut n);
        assert(inorder(Some(n)) == inorder(t0));
        assert(balanced(Some(n)));
        n
    }
}

/// Inserts the element `(score, name)` unless it is there already; returns
/// whether it was inserted.
pub fn znode_insert(t: &mut Tree, score: u64, name: Vec<u8>) -> (inserted: bool)
    requires
        tree_wf(*old(t)),
        balanced(*old(t)),
        cnt(*old(t)) < usize::MAX,
    ensures
        tree_wf(*final(t)),
        balanced(*final(t)),
        ht(*old(t)) <= ht(*final(t)) <= ht(*old(t)) + 1,
        members(*final(t)) == members(*old(t)).insert((score, name@)),
        inserted == !members(*old(t)).contains((score, name@)),
        cnt(*final(t)) == cnt(*old(t)) + if inserted { 1nat } else { 0nat },
    decreases *old(t),
{
    let ghost k = (score, name@);
    match t.take() {
        None => {
            let n = znode_new(score, name);
            *t = Some(n);
            assert(members(*final(t)) =~= members(*old(t)).insert(k));
            assert(ht(None) == 0);
            true
        },
        Some(mut n) => {
            let ghost t0 = Some(n);
            proof {
                lemma_wf_facts(n.left);
                lemma_wf_facts(n.right);
                lemma_wf_facts(t0);
                assert(ht(t0) == 1 + max_nat(ht(n.left), ht(n.right)));
                assert(balanced(n.left) && balanced(n.right));
            }
            let c = cmp_pair(score, name.as_slice(), n.score, n.name.as_slice());
            if c == 0 {
                *t = Some(n);
                assert(inorder(t0).contains(k)) by {
                    assert(inorder(t0)[inorder(n.left).len() as int] == k);
                }
                assert(members(*final(t)) =~= members(*old(t)).insert(k));
                false
            } else if c < 0 {
                let ghost l0 = inorder(n.left);
                let ins = znode_insert(&mut n.left, score, name);
                proof {
                    let l1 = inorder(n.left);
                    assert forall|i: int| 0 <= i < l1.len() implies pair_lt(#[trigger] l1[i], n.key()) by {
                        assert(members(n.left).contains(l1[i]));
                        if l1[i] != k {
                            assert(l0.contains(l1[i]));
                        }
                    }
                    lemma_all_gt_trans(inorder(n.right), k, n.key());
                    lemma_not_member_gt(inorder(n.right), k);
                    lemma_pair_lt_asym(k, n.key());
                    lemma_members_node(n);
                    lemma_members_node(t0.unwrap());
                    assert(members(Some(n)) =~= members(t0).insert(k));
                }
                let ghost n1 = n;
                let r = znode_fix(n);
                proof {
                    let hl = ht(n1.lnode());
                    let hr = ht(n1.rnode());
                    let ol = ht(t0.unwrap().lnode());
                    let or = ht(t0.unwrap().rnode());
                    assert(ht(t0) == 1 + max_nat(ol, or));
                    if hl <= hr + 1 && hr <= hl + 1 {
                        assert(ht(Some(r)) == 1 + max_nat(hl, hr));
                    } else {
                        assert(max_nat(hl, hr) <= ht(Some(r)) <= max_nat(hl, hr) + 1);
                    }
                }
                *t = Some(r);
                ins
            } else {
                let ghost r0 = inorder(n.right);
                let ins = znode_insert(&mut n.right, score, name);
                proof {
                    let r1 = inorder(n.right);
                    assert forall|i: int| 0 <= i < r1.len() implies pair_lt(n.key(), #[trigger] r1[i]) by {
                        assert(members(n.right).contains(r1[i]));
                        if r1[i] != k {
                            assert(r0.contains(r1[i]));
                        }
                    }
                    lemma_all_lt_trans(inorder(n.left), n.key(), k);
                    lemma_not_member_lt(inorder(n.left), k);
                    lemma_pair_lt_asym(n.key(), k);
                    lemma_members_node(n);
                    lemma_members_node(t0.unwrap());
                    assert(members(Some(n)) =~= members(t0).insert(k));
                }
                let ghost n1 = n;
                let r = znode_fix(n);
                proof {
                    let hl = ht(n1.lnode());
                    let hr = ht(n1.rnode());
                    let ol = ht(t0.unwrap().lnode());
                    let or = ht(t0.unwrap().rnode());
                    assert(ht(t0) == 1 + max_nat(ol, or));
                    if hl <= hr + 1 && hr <= hl + 1 {
                        assert(ht(Some(r)) == 1 + max_nat(hl, hr));
                    } else {
                        assert(max_nat(hl, hr) <= ht(Some(r)) <= max_nat(hl, hr) + 1);
                    }
                }
                *t = Some(r);
                ins
            }
        },
    }
}


/// Detaches a node with at most one child and returns that child.
pub fn znode_del_easy(n: Box<ZNode>) -> (r: Tree)
    requires
        n.ordered(),
        n.lnode().is_none() || n.rnode().is_none(),
    ensures
        tree_wf(r),
        inorder(r) == inorder(n.lnode()) + inorder(n.rnode()),
        cnt(r) == cnt(n.lnode()) + cnt(n.rnode()),
        n.lnode().is_none() ==> r == n.rnode(),
        n.lnode().is_some() ==> r == n.lnode(),
        balanced(Some(n)) ==> balanced(r),
        tree_wf(Some(n)) ==> ht(r) + 1 == ht(Some(n)),
{
    let mut n = n;
    let ghost n0 = n;
    assert(inorder(None) == Seq::<Pair>::empty());
    assert(ht(None) == 0);
    assert(balanced(Some(n0)) ==> balanced(n0.left) && balanced(n0.right));
    if n.left.is_none() {
        let r = n.right.take();
        assert(inorder(r) =~= inorder(n.lnode()) + inorder(r));
        r
    } else {
        let r = n.left.take();
        assert(inorder(r) =~= inorder(r) + inorder(n.rnode()));
        r
    }
}

/// Removes the least element of a non-empty tree and returns it.
pub fn znode_del_min(t: &mut Tree) -> (r: (u64, Vec<u8>))
    requires
        tree_wf(*old(t)),
        balanced(*old(t)),
        old(t).is_some(),
    ensures
        tree_wf(*final(t)),
        balanced(*final(t)),
        ht(*final(t)) <= ht(*old(t)) <= ht(*final(t)) + 1,
        inorder(*old(t)) == seq![(r.0, r.1@)] + inorder(*final(t)),
        cnt(*final(t)) + 1 == cnt(*old(t)),
    decreases *old(t),
{
    let mut n = t.take().unwrap();
    let ghost t0 = Some(n);
    proof {
        lemma_wf_facts(n.left);
        lemma_wf_facts(n.right);
    }
    if n.left.is_none() {
        let r = n.right.take();
        *t = r;
        assert(inorder(None) == Seq::<Pair>::empty());
        assert(inorder(t0) =~= seq![(n.score, n.name@)] + inorder(r));
        (n.score, n.name)
    } else {
        let ghost l0 = inorder(n.left);
        let m = znode_del_min(&mut n.left);
        proof {
            let l1 = inorder(n.left);
            assert forall|i: int| 0 <= i < l1.len() implies pair_lt(#[trigger] l1[i], n.key()) by {
                assert(l1[i] == l0[i + 1]);
            }
        }
        let ghost n1 = Some(n);
        let r = znode_fix(n);
        *t = Some(r);
        assert(inorder(t0) =~= seq![(m.0, m.1@)] + inorder(n1));
        m
    }
}

/// Removes the element `(score, name)` if it is there; returns whether it
/// was.
pub fn znode_delete(t: &mut Tree, score: u64, name: &[u8]) -> (removed: bool)
    requires
        tree_wf(*old(t)),
        balanced(*old(t)),
    ensures
        tree_wf(*final(t)),
        balanced(*final(t)),
        ht(*final(t)) <= ht(*old(t)) <= ht(*final(t)) + 1,
        members(*final(t)) == members(*old(t)).remove((score, name@)),
        removed == members(*old(t)).contains((score, name@)),
        cnt(*final(t)) + (if removed { 1nat } else { 0nat }) == cnt(*old(t)),
    decreases *old(t),
{
    let ghost k = (score, name@);
    match t.take() {
        None => {
            assert(members(*final(t)) =~= members(*old(t)).remove(k));
            false
        },
        Some(mut n) => {
            let ghost t0 = Some(n);
            proof {
                lemma_wf_facts(n.left);
                lemma_wf_facts(n.right);
                lemma_members_node(t0.unwrap());
            }
            let c = cmp_pair(score, name, n.score, n.name.as_slice());
            if c == 0 {
                proof {
                    lemma_not_member_lt(inorder(n.left), k);
                    lemma_not_member_gt(inorder(n.right), k);
                    assert(inorder(t0)[inorder(n.left).len() as int] == k);
                }
                if n.left.is_none() || n.right.is_none() {
                    let r = znode_del_easy(n);
                    *t = r;
                    proof {
                        assert forall|x: Pair| #[trigger] members(r).contains(x) <==> (members(t0.unwrap().left).contains(x)
                            || members(t0.unwrap().right).contains(x)) by {
                            assert(inorder(r).contains(x) <==> (inorder(t0.unwrap().left).contains(x)
                                || inorder(t0.unwrap().right).contains(x)));
                        }
                        assert(members(*final(t)) =~= members(*old(t)).remove(k));
                    }
                    true
                } else {
                    let ghost r0 = inorder(n.right);
                    let m = znode_del_min(&mut n.right);
                    proof {
                        let r1 = inorder(n.right);
                        let mk = (m.0, m.1@);
                        assert(r0[0] == mk);
                        assert(pair_lt(n.key(), mk));
                        lemma_all_lt_trans(inorder(n.left), n.key(), mk);
                        assert forall|i: int| 0 <= i < r1.len() implies pair_lt(mk, #[trigger] r1[i]) by {
                            assert(r1[i] == r0[i + 1]);
                        }
                        assert forall|x: Pair| r1.contains(x) implies r0.contains(x) && x != mk by {
                            let i = choose|i: int| 0 <= i < r1.len() && r1[i] == x;
                            assert(r0[i + 1] == x);
                            lemma_pair_lt_asym(mk, x);
                        }
                        assert forall|x: Pair| r0.contains(x) && x != mk implies r1.contains(x) by {
                            let i = choose|i: int| 0 <= i < r0.len() && r0[i] == x;
                            assert(r1[i - 1] == x);
                        }
                        assert(r0.contains(mk));
                    }
                    n.score = m.0;
                    n.name = m.1;
                    proof {
                        lemma_members_node(n);
                        assert(members(Some(n)) =~= members(t0).remove(k));
                    }
                    let r = znode_fix(n);
                    *t = Some(r);
                    true
                }
            } else if c < 0 {
                let ghost l0 = inorder(n.left);
                let rem = znode_delete(&mut n.left, score, name);
                proof {
                    let l1 = inorder(n.left);
                    assert forall|i: int| 0 <= i < l1.len() implies pair_lt(#[trigger] l1[i], n.key()) by {
                        assert(members(n.left).contains(l1[i]));
                        assert(l0.contains(l1[i]));
                    }
                    lemma_all_gt_trans(inorder(n.right), k, n.key());
                    lemma_not_member_gt(inorder(n.right), k);
                    lemma_pair_lt_asym(k, n.key());
                    lemma_members_node(n);
                    assert(members(Some(n)) =~= members(t0).remove(k));
                }
                let r = znode_fix(n);
                *t = Some(r);
                rem
            } else {
                let ghost r0 = inorder(n.right);
                let rem = znode_delete(&mut n.right, score, name);
                proof {
                    let r1 = inorder(n.right);
                    assert forall|i: int| 0 <= i < r1.len() implies pair_lt(n.key(), #[trigger] r1[i]) by {
                        assert(members(n.right).contains(r1[i]));
                        assert(r0.contains(r1[i]));
                    }
                    lemma_all_lt_trans(inorder(n.left), n.key(), k);
                    lemma_not_member_lt(inorder(n.left), k);
                    lemma_pair_lt_asym(n.key(), k);
                    lemma_members_node(n);
                    assert(members(Some(n)) =~= members(t0).remove(k));
                }
                let r = znode_fix(n);
                *t = Some(r);
                rem
            }
        },
    }
}

/// Whether the element `(score, name)` is in the tree.
pub fn znode_search(t: &Tree, score: u64, name: &[u8]) -> (found: bool)
    requires
        tree_wf(*t),
    ensures
        found == members(*t).contains((score, name@)),
    decreases *t,
{
    let ghost k = (score, name@);
    match t {
        None => {
            assert(!inorder(*t).contains(k));
            false
        },
        Some(n) => {
            proof {
                lemma_members_node(*n);
            }
            let c = cmp_pair(score, name, n.score, n.name.as_slice());
            if c == 0 {
                true
            } else if c < 0 {
                proof {
                    lemma_all_gt_trans(inorder(n.right), k, n.key());
                    lemma_not_member_gt(inorder(n.right), k);
                }
                znode_search(&n.left, score, name)
            } else {
                proof {
                    lemma_all_lt_trans(inorder(n.left), n.key(), k);
                    lemma_not_member_lt(inorder(n.left), k);
                }
                znode_search(&n.right, score, name)
            }
        },
    }
}

/// The position in order of the least element not below `(score, name)`;
/// the size of the tree when every element is below it.
pub fn znode_rank(t: &Tree, score: u64, name: &[u8]) -> (r: usize)
    requires
        tree_wf(*t),
    ensures
        r <= inorder(*t).len(),
        forall|i: int| 0 <= i < r ==> pair_lt(#[trigger] inorder(*t)[i], (score, name@)),
        forall|i: int| r <= i < inorder(*t).len() ==> !pair_lt(#[trigger] inorder(*t)[i], (score, name@)),
    decreases *t,
{
    let ghost k = (score, name@);
    match t {
        None => 0,
        Some(n) => {
            proof {
                lemma_wf_facts(n.left);
                lemma_wf_facts(n.right);
            }
            let ghost l = inorder(n.left);
            let ghost rs = inorder(n.right);
            let ghost s = inorder(*t);
            assert(s == l + seq![n.key()] + rs);
            let c = cmp_pair(n.score, n.name.as_slice(), score, name);
            if c < 0 {
                let rr = znode_rank(&n.right, score, name);
                let r = avl_count(&n.left) + 1 + rr;
                proof {
                    assert forall|i: int| 0 <= i < r implies pair_lt(#[trigger] s[i], k) by {
                        if i < l.len() {
                            assert(s[i] == l[i]);
                            lemma_pair_lt_trans(l[i], n.key(), k);
                        } else if i > l.len() {
                            assert(s[i] == rs[i - l.len() - 1]);
                        }
                    }
                    assert forall|i: int| r <= i < s.len() implies !pair_lt(#[trigger] s[i], k) by {
                        assert(s[i] == rs[i - l.len() - 1]);
                    }
                }
                r
            } else {
                let rl = znode_rank(&n.left, score, name);
                proof {
                    lemma_pair_lt_total(n.key(), k);
                    assert forall|i: int| 0 <= i < rl implies pair_lt(#[trigger] s[i], k) by {
                        assert(s[i] == l[i]);
                    }
                    assert forall|i: int| rl <= i < s.len() implies !pair_lt(#[trigger] s[i], k) by {
                        if i < l.len() {
                            assert(s[i] == l[i]);
                        } else if i == l.len() {
                            lemma_bytes_lt_irrefl(k.1);
                            if pair_lt(k, n.key()) {
                                lemma_pair_lt_asym(k, n.key());
                            }
                        } else {
                            assert(s[i] == rs[i - l.len() - 1]);
                            if pair_lt(s[i], k) {
                                lemma_pair_lt_trans(n.key(), s[i], k);
                                if n.key() == k {
                                    lemma_pair_lt_asym(s[i], k);
                                } else {
                                    lemma_pair_lt_asym(k, n.key());
                                }
                            }
                        }
                    }
                }
                rl
            }
        },
    }
}

/// The element at position `i` in order.
pub fn znode_select(t: &Tree, i: usize) -> (r: (u64, &[u8]))
    requires
        tree_wf(*t),
        i < inorder(*t).len(),
    ensures
        (r.0, r.1@) == inorder(*t)[i as int],
    decreases *t,
{
    match t {
        None => {
            proof {
                assert(false);
            }
            (0, &[])
        },
        Some(n) => {
            proof {
                lemma_wf_facts(n.left);
                lemma_wf_facts(n.right);
            }
            let ghost l = inorder(n.left);
            let ghost rs = inorder(n.right);
            assert(inorder(*t) == l + seq![n.key()] + rs);
            let lc = avl_count(&n.left);
            if i < lc {
                znode_select(&n.left, i)
            } else if i == lc {
                (n.score, n.name.as_slice())
            } else {
                znode_select(&n.right, i - lc - 1)
            }
        },
    }
}

/// The element `offset` places after position `pos` in order (before it,
/// for a negative offset), if there is one.
pub fn avl_offset(t: &Tree, pos: usize, offset: i64) -> (r: Option<(u64, &[u8])>)
    requires
        tree_wf(*t),
    ensures
        0 <= pos + offset < inorder(*t).len() ==> r.is_some() && (r.unwrap().0, r.unwrap().1@)
            == inorder(*t)[pos + offset],
        !(0 <= pos + offset < inorder(*t).len()) ==> r.is_none(),
{
    proof {
        lemma_wf_facts(*t);
    }
    let target: i128 = pos as i128 + offset as i128;
    let n = avl_count(t);
    if 0 <= target && target < n as i128 {
        Some(znode_select(t, target as usize))
    } else {
        None
    }
}


/// Two strictly increasing sequences with the same elements are equal.
pub proof fn lemma_sorted_unique(s1: Seq<Pair>, s2: Seq<Pair>)
    requires
        sorted(s1),
        sorted(s2),
        forall|p: Pair| s1.contains(p) <==> s2.contains(p),
    ensures
        s1 == s2,
    decreases s1.len(),
{
    if s1.len() == 0 {
        if s2.len() > 0 {
            assert(s2.contains(s2[0]));
        }
        assert(s1 =~= s2);
    } else if s2.len() == 0 {
        assert(s1.contains(s1[0]));
    } else {
        assert(s1.contains(s1[0]));
        assert(s2.contains(s2[0]));
        let j = choose|j: int| 0 <= j < s2.len() && s2[j] == s1[0];
        let i = choose|i: int| 0 <= i < s1.len() && s1[i] == s2[0];
        if j > 0 {
            if i > 0 {
                lemma_pair_lt_trans(s1[0], s1[i], s1[0]);
                lemma_pair_lt_asym(s1[0], s1[0]);
            } else {
                lemma_pair_lt_asym(s2[0], s2[j]);
            }
        }
        assert(s1[0] == s2[0]);
        let t1 = s1.drop_first();
        let t2 = s2.drop_first();
        assert forall|p: Pair| t1.contains(p) <==> t2.contains(p) by {
            if t1.contains(p) {
                let a = choose|a: int| 0 <= a < t1.len() && t1[a] == p;
                assert(s1[a + 1] == p);
                lemma_pair_lt_asym(s1[0], s1[a + 1]);
                assert(s2.contains(p));
                let b = choose|b: int| 0 <= b < s2.len() && s2[b] == p;
                assert(b != 0);
                assert(t2[b - 1] == p);
            }
            if t2.contains(p) {
                let a = choose|a: int| 0 <= a < t2.len() && t2[a] == p;
                assert(s2[a + 1] == p);
                lemma_pair_lt_asym(s2[0], s2[a + 1]);
                assert(s1.contains(p));
                let b = choose|b: int| 0 <= b < s1.len() && s1[b] == p;
                assert(b != 0);
                assert(t1[b - 1] == p);
            }
        }
        assert forall|a: int, b: int| 0 <= a < b < t1.len() implies pair_lt(#[trigger] t1[a], #[trigger] t1[b]) by {
            assert(t1[a] == s1[a + 1] && t1[b] == s1[b + 1]);
        }
        assert forall|a: int, b: int| 0 <= a < b < t2.len() implies pair_lt(#[trigger] t2[a], #[trigger] t2[b]) by {
            assert(t2[a] == s2[a + 1] && t2[b] == s2[b + 1]);
        }
        lemma_sorted_unique(t1, t2);
        assert(s1 =~= seq![s1[0]] + t1);
        assert(s2 =~= seq![s2[0]] + t2);
    }
}

} // verus!
