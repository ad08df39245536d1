//! An unbalanced binary search tree holding `i64` values.
//!
//! The tree supports insertion and membership search. Equal values are kept
//! unique: inserting a value that is already present leaves the tree
//! untouched. There is no deletion and no balancing; the shape of the tree is
//! determined entirely by the order of insertion.

use vstd::prelude::*;

verus! {

/// A single tree vertex: a value together with optional owned left and right
/// subtrees.
#[derive(Debug, PartialEq)]
pub struct TreeNode {
    pub value: i64,
    pub left: Option<Box<TreeNode>>,
    pub right: Option<Box<TreeNode>>,
}

/// A binary search tree: a handle owning the root node, or empty.
#[derive(Debug, PartialEq)]
pub struct BinarySearchTree {
    pub root: Option<Box<TreeNode>>,
}

impl TreeNode {
    /// Whether the subtree rooted at this node holds `x`.
    pub open spec fn contains_value(self, x: i64) -> bool
        decreases self,
    {
        ||| x == self.value
        ||| Self::subtree_contains(self.left, x)
        ||| Self::subtree_contains(self.right, x)
    }

    /// Whether the optional subtree `node` holds `x`.
    pub open spec fn subtree_contains(node: Option<Box<TreeNode>>, x: i64) -> bool
        decreases node,
    {
        match node {
            None => false,
            Some(n) => n.contains_value(x),
        }
    }

    /// The number of nodes in the subtree rooted at this node.
    pub open spec fn node_count(self) -> nat
        decreases self,
    {
        1 + Self::subtree_count(self.left) + Self::subtree_count(self.right)
    }

    /// The number of nodes in the optional subtree `node`.
    pub open spec fn subtree_count(node: Option<Box<TreeNode>>) -> nat
        decreases node,
    {
        match node {
            None => 0,
            Some(n) => n.node_count(),
        }
    }

    /// The values of the subtree rooted at this node, in in-order
    /// (left subtree, then the node itself, then right subtree).
    pub open spec fn in_order(self) -> Seq<i64>
        decreases self,
    {
        Self::subtree_in_order(self.left) + seq![self.value] + Self::subtree_in_order(self.right)
    }

    /// The values of the optional subtree `node`, in in-order.
    pub open spec fn subtree_in_order(node: Option<Box<TreeNode>>) -> Seq<i64>
        decreases node,
    {
        match node {
            None => Seq::empty(),
            Some(n) => n.in_order(),
        }
    }

    /// The binary-search-tree ordering invariant: every value in the left
    /// subtree lies strictly below this node's value, every value in the
    /// right subtree strictly above, and both subtrees are ordered in turn.
    pub open spec fn ordered(self) -> bool
        decreases self,
    {
        &&& Self::subtree_ordered(self.left)
        &&& Self::subtree_ordered(self.right)
        &&& forall|x: i64| #[trigger] Self::subtree_contains(self.left, x) ==> x < self.value
        &&& forall|x: i64| #[trigger] Self::subtree_contains(self.right, x) ==> self.value < x
    }

    /// The ordering invariant for an optional subtree.
    pub open spec fn subtree_ordered(node: Option<Box<TreeNode>>) -> bool
        decreases node,
    {
        match node {
            None => true,
            Some(n) => n.ordered(),
        }
    }

    /// A fresh leaf node holding `value` and no children.
    pub fn new(value: i64) -> (node: TreeNode)
        ensures
            node.value == value,
            node.left is None,
            node.right is None,
    {
        TreeNode { value, left: None, right: None }
    }

    /// Insert `value` into the optional subtree `node`: a new leaf is created
    /// where the descent ends, and a value already present is dropped,
    /// leaving the subtree untouched.
    fn insert_subtree(node: &mut Option<Box<TreeNode>>, value: i64)
        requires
            Self::subtree_ordered(*old(node)),
        ensures
            Self::subtree_ordered(*final(node)),
            forall|x: i64| #[trigger] Self::subtree_contains(*final(node), x)
                == (Self::subtree_contains(*old(node), x) || x == value),
            Self::subtree_contains(*old(node), value) ==> *final(node) == *old(node),
            !Self::subtree_contains(*old(node), value)
                ==> Self::subtree_count(*final(node)) == Self::subtree_count(*old(node)) + 1,
        decreases *old(node),
    {
        match node.take() {
            None => {
                *node = Some(Box::new(TreeNode::new(value)));
                proof {
                    assert forall|x: i64| #[trigger] Self::subtree_contains(*node, x)
                        == (Self::subtree_contains(*old(node), x) || x == value) by {
                        assert(!Self::subtree_contains(*old(node), x));
                        assert(Self::subtree_contains(*node, x) == (x == value));
                    }
                }
            }
            Some(mut boxed) => {
                (&mut *boxed).insert(value);
                *node = Some(boxed);
                proof {
                    assert forall|x: i64| #[trigger] Self::subtree_contains(*node, x)
                        == (Self::subtree_contains(*old(node), x) || x == value) by {
                        assert(Self::subtree_contains(*node, x)
                            == node.unwrap().contains_value(x));
                        assert(Self::subtree_contains(*old(node), x)
                            == old(node).unwrap().contains_value(x));
                    }
                }
            }
        }
    }

    /// Insert `value` into the subtree rooted at this node, keeping the
    /// values unique: inserting a value already present changes nothing.
    pub fn insert(&mut self, value: i64)
        requires
            old(self).ordered(),
        ensures
            final(self).ordered(),
            final(self).value == old(self).value,
            forall|x: i64| #[trigger] final(self).contains_value(x)
                == (old(self).contains_value(x) || x == value),
            old(self).contains_value(value) ==> *final(self) == *old(self),
            !old(self).contains_value(value)
                ==> final(self).node_count() == old(self).node_count() + 1,
        decreases *old(self),
    {
        if value < self.value {
            proof {
                assert(!Self::subtree_contains(old(self).right, value));
            }
            Self::insert_subtree(&mut self.left, value);
            proof {
                assert forall|x: i64| #[trigger] self.contains_value(x)
                    == (old(self).contains_value(x) || x == value) by {
                    assert(Self::subtree_contains(self.left, x)
                        == (Self::subtree_contains(old(self).left, x) || x == value));
                }
            }
        } else if value > self.value {
            proof {
                assert(!Self::subtree_contains(old(self).left, value));
            }
            Self::insert_subtree(&mut self.right, value);
            proof {
                assert forall|x: i64| #[trigger] self.contains_value(x)
                    == (old(self).contains_value(x) || x == value) by {
                    assert(Self::subtree_contains(self.right, x)
                        == (Self::subtree_contains(old(self).right, x) || x == value));
                }
            }
        } else {
            proof {
                assert(old(self).contains_value(value));
            }
        }
    }
}

impl View for BinarySearchTree {
    type V = Set<i64>;

    /// The tree is viewed as the set of values it holds.
    open spec fn view(&self) -> Set<i64> {
        Set::new(|x: i64| TreeNode::subtree_contains(self.root, x))
    }
}

impl BinarySearchTree {
    /// The ordering invariant, extended to the whole tree.
    pub open spec fn well_formed(self) -> bool {
        TreeNode::subtree_ordered(self.root)
    }

    /// The number of nodes in the tree.
    pub open spec fn node_count(self) -> nat {
        TreeNode::subtree_count(self.root)
    }

    /// The values of the tree in in-order.
    pub open spec fn in_order(self) -> Seq<i64> {
        TreeNode::subtree_in_order(self.root)
    }

    /// An empty tree: no root, no values.
    pub fn new() -> (tree: BinarySearchTree)
        ensures
            tree.root is None,
            tree.well_formed(),
            tree@ == Set::<i64>::empty(),
            tree.node_count() == 0,
    {
        let tree = BinarySearchTree { root: None };
        proof {
            assert(tree@ =~= Set::<i64>::empty());
        }
        tree
    }

    /// Insert `value` into the tree. If the tree is empty the value becomes
    /// the root; a value already present is dropped and the tree is left
    /// exactly as it was.
    pub fn insert(&mut self, value: i64)
        requires
            old(self).well_formed(),
        ensures
            final(self).well_formed(),
            final(self)@ == old(self)@.insert(value),
            old(self)@.contains(value) ==> *final(self) == *old(self),
            !old(self)@.contains(value)
                ==> final(self).node_count() == old(self).node_count() + 1,
    {
        TreeNode::insert_subtree(&mut self.root, value);
        proof {
            assert(self@ =~= old(self)@.insert(value));
        }
    }

    /// Search the tree for `value`: true exactly when some node holds it.
    /// An empty tree holds nothing, so the search returns false there.
    pub fn search(&self, value: i64) -> (found: bool)
        requires
            self.well_formed(),
        ensures
            found == self@.contains(value),
    {
        self.search_recursive(&self.root, value)
    }

    /// Descend through the optional subtree `node`, comparing `value` with
    /// each node's value and turning left or right accordingly.
    pub fn search_recursive(&self, node: &Option<Box<TreeNode>>, value: i64) -> (found: bool)
        requires
            TreeNode::subtree_ordered(*node),
        ensures
            found == TreeNode::subtree_contains(*node, value),
        decreases *node,
    {
        match node {
            Some(n) => {
                if value == n.value {
                    true
                } else if value < n.value {
                    proof {
                        assert(!TreeNode::subtree_contains(n.right, value));
                    }
                    self.search_recursive(&n.left, value)
                } else {
                    proof {
                        assert(!TreeNode::subtree_contains(n.left, value));
                    }
                    self.search_recursive(&n.right, value)
                }
            }
            None => false,
        }
    }
}

/// The set of values a tree holds after the values of `vs` are inserted, in
/// order, into an empty tree. Each insertion adds its value to the view of
/// the tree, so the set is built by folding `Set::insert` over `vs`; this is
/// exactly the view that `BinarySearchTree::insert` promises.
pub open spec fn set_after_inserts(vs: Seq<i64>) -> Set<i64>
    decreases vs.len(),
{
    if vs.len() == 0 {
        Set::<i64>::empty()
    } else {
        set_after_inserts(vs.drop_last()).insert(vs.last())
    }
}

/// Law: after any sequence of insertions into an empty tree, the tree holds
/// exactly the inserted values, so `search` finds every inserted value and
/// no other.
pub proof fn lemma_inserted_iff_found(vs: Seq<i64>, v: i64)
    ensures
        set_after_inserts(vs).contains(v) <==> vs.contains(v),
    decreases vs.len(),
{
    if vs.len() == 0 {
        assert(!vs.contains(v));
    } else {
        let prefix = vs.drop_last();
        lemma_inserted_iff_found(prefix, v);
        if vs.contains(v) {
            let i: int = choose|i: int| 0 <= i < vs.len() && vs[i] == v;
            if i < vs.len() - 1 {
                assert(prefix[i] == v);
                assert(prefix.contains(v));
            }
        }
        if prefix.contains(v) {
            let i: int = choose|i: int| 0 <= i < prefix.len() && prefix[i] == v;
            assert(vs[i] == v);
            assert(vs.contains(v));
        }
        if vs.last() == v {
            assert(vs[vs.len() - 1] == v);
            assert(vs.contains(v));
        }
    }
}

/// Law: a freshly constructed tree holds no value at all, so `search` on it
/// returns false for any queried value.
pub proof fn lemma_empty_tree_finds_nothing(tree: BinarySearchTree, v: i64)
    requires
        tree.root is None,
    ensures
        !tree@.contains(v),
{
}

/// The in-order sequence of a subtree lists exactly the values the subtree
/// holds.
proof fn lemma_subtree_in_order_contains(node: Option<Box<TreeNode>>, x: i64)
    ensures
        TreeNode::subtree_in_order(node).contains(x) <==> TreeNode::subtree_contains(node, x),
    decreases node,
{
    if let Some(n) = node {
        lemma_subtree_in_order_contains(n.left, x);
        lemma_subtree_in_order_contains(n.right, x);
        let l = TreeNode::subtree_in_order(n.left);
        let r = TreeNode::subtree_in_order(n.right);
        let s = TreeNode::subtree_in_order(node);
        assert(s == l + seq![n.value] + r);
        if s.contains(x) {
            let i: int = choose|i: int| 0 <= i < s.len() && s[i] == x;
            if i < l.len() {
                assert(l[i] == x);
                assert(l.contains(x));
            } else if i == l.len() {
                assert(x == n.value);
            } else {
                assert(r[i - l.len() - 1] == x);
                assert(r.contains(x));
            }
        }
        if TreeNode::subtree_contains(node, x) {
            if x == n.value {
                assert(s[l.len() as int] == x);
                assert(s.contains(x));
            } else if TreeNode::subtree_contains(n.left, x) {
                let i: int = choose|i: int| 0 <= i < l.len() && l[i] == x;
                assert(s[i] == x);
                assert(s.contains(x));
            } else {
                let i: int = choose|i: int| 0 <= i < r.len() && r[i] == x;
                assert(s[l.len() + 1 + i] == x);
                assert(s.contains(x));
            }
        }
    }
}

/// In an ordered subtree the in-order sequence is strictly increasing.
proof fn lemma_subtree_in_order_increasing(node: Option<Box<TreeNode>>)
    requires
        TreeNode::subtree_ordered(node),
    ensures
        forall|i: int, j: int|
            0 <= i < j < TreeNode::subtree_in_order(node).len()
                ==> #[trigger] TreeNode::subtree_in_order(node)[i]
                    < #[trigger] TreeNode::subtree_in_order(node)[j],
    decreases node,
{
    if let Some(n) = node {
        lemma_subtree_in_order_increasing(n.left);
        lemma_subtree_in_order_increasing(n.right);
        let l = TreeNode::subtree_in_order(n.left);
        let r = TreeNode::subtree_in_order(n.right);
        let s = TreeNode::subtree_in_order(node);
        assert(s == l + seq![n.value] + r);
        assert forall|k: int| 0 <= k < l.len() implies l[k] < n.value by {
            assert(l.contains(l[k]));
            lemma_subtree_in_order_contains(n.left, l[k]);
        }
        assert forall|k: int| 0 <= k < r.len() implies n.value < r[k] by {
            assert(r.contains(r[k]));
            lemma_subtree_in_order_contains(n.right, r[k]);
        }
        assert forall|i: int, j: int| 0 <= i < j < s.len() implies s[i] < s[j] by {
            if j < l.len() {
                assert(s[i] == l[i] && s[j] == l[j]);
            } else if i > l.len() {
                assert(s[i] == r[i - l.len() - 1] && s[j] == r[j - l.len() - 1]);
            } else {
                if i < l.len() {
                    assert(s[i] == l[i]);
                } else {
                    assert(s[i] == n.value);
                }
                if j > l.len() {
                    assert(s[j] == r[j - l.len() - 1]);
                } else {
                    assert(s[j] == n.value);
                }
            }
        }
    }
}

/// Law: in a well-formed tree the in-order traversal is a strictly
/// increasing sequence, and it lists exactly the values the tree holds —
/// the distinct values inserted so far.
pub proof fn lemma_in_order_strictly_increasing(tree: BinarySearchTree)
    requires
        tree.well_formed(),
    ensures
        forall|i: int, j: int|
            0 <= i < j < tree.in_order().len()
                ==> #[trigger] tree.in_order()[i] < #[trigger] tree.in_order()[j],
        forall|x: i64| #[trigger] tree.in_order().contains(x) <==> tree@.contains(x),
{
    lemma_subtree_in_order_increasing(tree.root);
    assert forall|x: i64|
        #[trigger] tree.in_order().contains(x) <==> tree@.contains(x) by {
        lemma_subtree_in_order_contains(tree.root, x);
    }
}

} // verus!
