//! Variable trees: what sentential decision diagrams are built along.
//!
//! A tree is kept twice: as it was given, and laid out in a row, each node
//! followed by its left subtree and then by its right subtree. In the row
//! the subtree of a node is a stretch that begins at the node, so that
//! whether one node lies below another is a comparison of places.

use crate::repr::var_label::VarLabel;
use vstd::prelude::*;

verus! {

/// A full binary tree with a variable at each leaf.
#[derive(Debug)]
pub enum VTree {
    Leaf(VarLabel),
    Node(Box<VTree>, Box<VTree>),
}

/// A node in the row: whether it is a leaf, the variable of a leaf, and how
/// many nodes its subtree holds, itself included.
#[derive(Clone, Copy, Debug, PartialEq, Eq)]
pub struct VTreeNode {
    pub leaf: bool,
    pub var: VarLabel,
    pub size: usize,
}

/// The tree that takes the variables one by one, each as a left leaf; the
/// last variable is the rightmost leaf.
pub open spec fn right_linear_tree(vars: Seq<VarLabel>) -> VTree
    recommends
        vars.len() > 0,
    decreases vars.len(),
{
    if vars.len() <= 1 {
        VTree::Leaf(vars[0])
    } else {
        VTree::Node(Box::new(VTree::Leaf(vars[0])), Box::new(right_linear_tree(vars.skip(1))))
    }
}

/// The tree that takes the variables one by one from the end, each as a
/// right leaf; the first variable is the leftmost leaf.
pub open spec fn left_linear_tree(vars: Seq<VarLabel>) -> VTree
    recommends
        vars.len() > 0,
    decreases vars.len(),
{
    if vars.len() <= 1 {
        VTree::Leaf(vars[0])
    } else {
        VTree::Node(Box::new(left_linear_tree(vars.drop_last())), Box::new(VTree::Leaf(vars.last())))
    }
}

/// The tree that halves the variables `cuts` times, as long as there are
/// two to part, and is linear to the right below.
pub open spec fn even_split_tree(vars: Seq<VarLabel>, cuts: nat) -> VTree
    recommends
        vars.len() > 0,
    decreases cuts,
{
    if cuts == 0 || vars.len() < 2 {
        right_linear_tree(vars)
    } else {
        let mid = vars.len() / 2;
        VTree::Node(
            Box::new(even_split_tree(vars.take(mid as int), (cuts - 1) as nat)),
            Box::new(even_split_tree(vars.skip(mid as int), (cuts - 1) as nat)),
        )
    }
}

/// A linear tree holds the variables it was made of, in their order.
pub proof fn lemma_right_linear_vars(vars: Seq<VarLabel>)
    requires
        vars.len() > 0,
    ensures
        right_linear_tree(vars).vars() == vars,
    decreases vars.len(),
{
    reveal_with_fuel(VTree::vars, 3);
    if vars.len() > 1 {
        lemma_right_linear_vars(vars.skip(1));
        assert(seq![vars[0]] + vars.skip(1) =~= vars);
    } else {
        assert(seq![vars[0]] =~= vars);
    }
}

/// A linear tree holds the variables it was made of, in their order.
pub proof fn lemma_left_linear_vars(vars: Seq<VarLabel>)
    requires
        vars.len() > 0,
    ensures
        left_linear_tree(vars).vars() == vars,
    decreases vars.len(),
{
    reveal_with_fuel(VTree::vars, 3);
    if vars.len() > 1 {
        lemma_left_linear_vars(vars.drop_last());
        assert(vars.drop_last() + seq![vars.last()] =~= vars);
    } else {
        assert(seq![vars[0]] =~= vars);
    }
}

/// A halved tree holds the variables it was made of, in their order.
pub proof fn lemma_even_split_vars(vars: Seq<VarLabel>, cuts: nat)
    requires
        vars.len() > 0,
    ensures
        even_split_tree(vars, cuts).vars() == vars,
    decreases cuts,
{
    if cuts == 0 || vars.len() < 2 {
        lemma_right_linear_vars(vars);
    } else {
        let mid = (vars.len() / 2) as int;
        lemma_even_split_vars(vars.take(mid), (cuts - 1) as nat);
        lemma_even_split_vars(vars.skip(mid), (cuts - 1) as nat);
        assert(vars.take(mid) + vars.skip(mid) =~= vars);
    }
}

impl VTree {
    /// The variables at the leaves, from left to right.
    pub open spec fn vars(&self) -> Seq<VarLabel>
        decreases self,
    {
        match self {
            VTree::Leaf(v) => seq![*v],
            VTree::Node(l, r) => l.vars() + r.vars(),
        }
    }

    /// The number of nodes of the tree.
    pub open spec fn count(&self) -> nat
        decreases self,
    {
        match self {
            VTree::Leaf(_) => 1,
            VTree::Node(l, r) => 1 + l.count() + r.count(),
        }
    }

    /// The tree in a row: each node, then its left subtree, then its right
    /// subtree.
    pub open spec fn row(&self) -> Seq<VTreeNode>
        decreases self,
    {
        match self {
            VTree::Leaf(v) => seq![VTreeNode { leaf: true, var: *v, size: 1 }],
            VTree::Node(l, r) => seq![
                VTreeNode { leaf: false, var: VarLabel(0), size: self.count() as usize },
            ] + l.row() + r.row(),
        }
    }

    pub fn new_leaf(v: VarLabel) -> (r: VTree)
        ensures
            r == VTree::Leaf(v),
    {
        VTree::Leaf(v)
    }

    pub fn new_node(l: VTree, r: VTree) -> (t: VTree)
        ensures
            t == VTree::Node(Box::new(l), Box::new(r)),
    {
        VTree::Node(Box::new(l), Box::new(r))
    }

    /// Whether the tree is a leaf.
    pub fn is_leaf(&self) -> (r: bool)
        ensures
            r == (*self is Leaf),
    {
        match self {
            VTree::Leaf(_) => true,
            VTree::Node(_, _) => false,
        }
    }

    /// The tree over `vars[from..]` that is linear to the right.
    fn right_linear_from(vars: &Vec<VarLabel>, from: usize) -> (r: VTree)
        requires
            from < vars@.len(),
        ensures
            r == right_linear_tree(vars@.skip(from as int)),
        decreases vars@.len() - from,
    {
        proof {
            assert(vars@.skip(from as int)[0] == vars@[from as int]);
        }
        if from == vars.len() - 1 {
            VTree::Leaf(vars[from])
        } else {
            proof {
                assert(vars@.skip(from as int).skip(1) =~= vars@.skip(from + 1));
            }
            let rest = VTree::right_linear_from(vars, from + 1);
            VTree::Node(Box::new(VTree::Leaf(vars[from])), Box::new(rest))
        }
    }

    /// The tree over the variables that is linear to the right.
    pub fn right_linear(vars: &Vec<VarLabel>) -> (r: VTree)
        requires
            vars@.len() > 0,
        ensures
            r == right_linear_tree(vars@),
            r.vars() == vars@,
    {
        proof {
            assert(vars@.skip(0) =~= vars@);
            lemma_right_linear_vars(vars@);
        }
        VTree::right_linear_from(vars, 0)
    }

    /// The tree over the variables that is linear to the left.
    pub fn left_linear(vars: &Vec<VarLabel>) -> (r: VTree)
        requires
            vars@.len() > 0,
        ensures
            r == left_linear_tree(vars@),
            r.vars() == vars@,
    {
        let mut tree = VTree::Leaf(vars[0]);
        let mut i: usize = 1;
        proof {
            assert(vars@.take(1).len() == 1);
        }
        while i < vars.len()
            invariant
                1 <= i <= vars@.len(),
                tree == left_linear_tree(vars@.take(i as int)),
            decreases vars.len() - i,
        {
            proof {
                assert(vars@.take(i + 1).drop_last() =~= vars@.take(i as int));
                assert(vars@.take(i + 1).last() == vars@[i as int]);
            }
            tree = VTree::Node(Box::new(tree), Box::new(VTree::Leaf(vars[i])));
            i += 1;
        }
        proof {
            assert(vars@.take(i as int) =~= vars@);
            lemma_left_linear_vars(vars@);
        }
        tree
    }

    /// The tree over `vars[from..to]` that is halved `cuts` times.
    fn even_split_range(vars: &Vec<VarLabel>, from: usize, to: usize, cuts: usize) -> (r: VTree)
        requires
            from < to <= vars@.len(),
        ensures
            r == even_split_tree(vars@.subrange(from as int, to as int), cuts as nat),
        decreases cuts,
    {
        let ghost part = vars@.subrange(from as int, to as int);
        if cuts == 0 || to - from < 2 {
            let mut piece: Vec<VarLabel> = Vec::new();
            let mut i: usize = from;
            while i < to
                invariant
                    from <= i <= to <= vars@.len(),
                    piece@ == vars@.subrange(from as int, i as int),
                decreases to - i,
            {
                piece.push(vars[i]);
                proof {
                    assert(piece@ =~= vars@.subrange(from as int, i + 1));
                }
                i += 1;
            }
            VTree::right_linear(&piece)
        } else {
            let mid = from + (to - from) / 2;
            proof {
                assert(part.take((part.len() / 2) as int) =~= vars@.subrange(
                    from as int,
                    mid as int,
                ));
                assert(part.skip((part.len() / 2) as int) =~= vars@.subrange(mid as int, to as int));
            }
            let l = VTree::even_split_range(vars, from, mid, cuts - 1);
            let r = VTree::even_split_range(vars, mid, to, cuts - 1);
            VTree::Node(Box::new(l), Box::new(r))
        }
    }

    /// The tree over the variables that is halved `cuts` times.
    pub fn even_split(vars: &Vec<VarLabel>, cuts: usize) -> (r: VTree)
        requires
            vars@.len() > 0,
        ensures
            r == even_split_tree(vars@, cuts as nat),
            r.vars() == vars@,
    {
        proof {
            assert(vars@.subrange(0, vars@.len() as int) =~= vars@);
            lemma_even_split_vars(vars@, cuts as nat);
        }
        VTree::even_split_range(vars, 0, vars.len(), cuts)
    }
}

/// The place of the left child of the node at `c`.
pub open spec fn left_of(c: int) -> int {
    c + 1
}

/// The place of the right child of the node at `c`.
pub open spec fn right_of(row: Seq<VTreeNode>, c: int) -> int {
    c + 1 + row[c + 1].size
}

/// The node at `x` lies in the subtree of the node at `c`.
pub open spec fn inside(row: Seq<VTreeNode>, c: int, x: int) -> bool {
    0 <= c <= x < c + row[c].size
}

/// The node at `c` has both nodes in its subtree, and neither of its
/// children has.
pub open spec fn is_lca(row: Seq<VTreeNode>, c: int, a: int, b: int) -> bool {
    &&& 0 <= c < row.len()
    &&& inside(row, c, a)
    &&& inside(row, c, b)
    &&& !row[c].leaf ==> {
        &&& !(inside(row, left_of(c), a) && inside(row, left_of(c), b))
        &&& !(inside(row, right_of(row, c), a) && inside(row, right_of(row, c), b))
    }
}

/// The stretch of the node at `c` lies in the row, a leaf is its own
/// stretch, and the stretch of another node is the node, the stretch of its
/// left child and the stretch of its right child.
pub open spec fn node_shape(row: Seq<VTreeNode>, c: int) -> bool {
    &&& row[c].size >= 1
    &&& c + row[c].size <= row.len()
    &&& row[c].leaf ==> row[c].size == 1
    &&& !row[c].leaf ==> {
        &&& 1 + row[c + 1].size < row[c].size
        &&& row[c].size == 1 + row[c + 1].size + row[right_of(row, c)].size
    }
}

/// The row is that of a tree.
pub open spec fn shape_ok(row: Seq<VTreeNode>) -> bool {
    &&& row.len() > 0
    &&& row[0].size == row.len()
    &&& forall|c: int| 0 <= c < row.len() ==> #[trigger] node_shape(row, c)
}

/// Each leaf holds a variable below `n`, and `leaf_of` gives for each
/// variable below `n` the place of its leaf.
pub open spec fn leaves_ok(row: Seq<VTreeNode>, leaf_of: Seq<usize>) -> bool {
    &&& forall|c: int|
        0 <= c < row.len() && (#[trigger] row[c]).leaf ==> row[c].var.0 < leaf_of.len()
            && leaf_of[row[c].var.0 as int] == c
    &&& forall|v: int|
        0 <= v < leaf_of.len() ==> (#[trigger] leaf_of[v]) < row.len() && row[leaf_of[v] as int].leaf
            && row[leaf_of[v] as int].var.0 == v
}

/// The number of leaves among the first `k` nodes of the row.
pub open spec fn leaves_below(row: Seq<VTreeNode>, k: int) -> nat
    decreases k,
{
    if k <= 0 {
        0
    } else {
        leaves_below(row, k - 1) + if row[k - 1].leaf {
            1nat
        } else {
            0nat
        }
    }
}

/// The leaves hold the variables below their number, each once.
pub open spec fn vars_ok(row: Seq<VTreeNode>) -> bool {
    let n = leaves_below(row, row.len() as int);
    &&& forall|c: int| 0 <= c < row.len() && (#[trigger] row[c]).leaf ==> row[c].var.0 < n
    &&& forall|c: int, d: int|
        0 <= c < d < row.len() && (#[trigger] row[c]).leaf && (#[trigger] row[d]).leaf ==> row[c].var
            != row[d].var
    &&& forall|v: u64| v < n ==> #[trigger] has_leaf(row, v)
}

/// Some node is the leaf of the variable `v`.
pub open spec fn has_leaf(row: Seq<VTreeNode>, v: u64) -> bool {
    exists|c: int| 0 <= c < row.len() && #[trigger] has_var(row, c, v)
}

/// The node at `c` is the leaf of the variable `v`.
pub open spec fn has_var(row: Seq<VTreeNode>, c: int, v: u64) -> bool {
    row[c].leaf && row[c].var.0 == v
}

/// A tree has as many nodes in its row as it counts.
pub proof fn lemma_row_len(tree: VTree)
    ensures
        tree.row().len() == tree.count(),
        tree.count() >= 1,
    decreases tree,
{
    match tree {
        VTree::Leaf(_) => {},
        VTree::Node(l, r) => {
            lemma_row_len(*l);
            lemma_row_len(*r);
        },
    }
}

/// A stretch that has the shape of a tree keeps the shape of its nodes
/// where it stands in a longer row.
proof fn lemma_shape_within(part: Seq<VTreeNode>, row: Seq<VTreeNode>, off: int)
    requires
        shape_ok(part),
        0 <= off,
        off + part.len() <= row.len(),
        forall|c: int| 0 <= c < part.len() ==> #[trigger] row[off + c] == part[c],
    ensures
        forall|c: int| off <= c < off + part.len() ==> #[trigger] node_shape(row, c),
{
    assert forall|c: int| off <= c < off + part.len() implies #[trigger] node_shape(row, c) by {
        let k = c - off;
        assert(node_shape(part, k));
        assert(row[off + k] == part[k]);
        if !part[k].leaf {
            assert(row[off + (k + 1)] == part[k + 1]);
            assert(row[off + right_of(part, k)] == part[right_of(part, k)]);
        }
    }
}

/// The row of a tree has the shape of a tree.
pub proof fn lemma_row_shape(tree: VTree)
    requires
        tree.count() <= usize::MAX,
    ensures
        shape_ok(tree.row()),
    decreases tree,
{
    lemma_row_len(tree);
    match tree {
        VTree::Leaf(_) => {},
        VTree::Node(l, r) => {
            lemma_row_len(*l);
            lemma_row_len(*r);
            lemma_row_shape(*l);
            lemma_row_shape(*r);
            let row = tree.row();
            let ll = l.row().len() as int;
            assert forall|c: int| 0 <= c < ll implies #[trigger] row[1 + c] == l.row()[c] by {}
            assert forall|c: int| 0 <= c < r.row().len() implies #[trigger] row[1 + ll + c]
                == r.row()[c] by {}
            lemma_shape_within(l.row(), row, 1);
            lemma_shape_within(r.row(), row, 1 + ll);
            assert(row[1int + 0] == l.row()[0]);
            assert(row[1 + ll + 0] == r.row()[0]);
            assert(node_shape(row, 0));
            assert forall|c: int| 0 <= c < row.len() implies #[trigger] node_shape(row, c) by {
                if c == 0 {
                } else if c < 1 + ll {
                } else {
                }
            }
        },
    }
}

/// Lays the tree out behind what `out` holds.
fn lay_out(tree: &VTree, out: &mut Vec<VTreeNode>)
    ensures
        final(out)@ == old(out)@ + tree.row(),
    decreases tree,
{
    proof {
        lemma_row_len(*tree);
    }
    match tree {
        VTree::Leaf(v) => {
            out.push(VTreeNode { leaf: true, var: *v, size: 1 });
            proof {
                assert(out@ =~= old(out)@ + tree.row());
            }
        },
        VTree::Node(l, r) => {
            let start = out.len();
            out.push(VTreeNode { leaf: false, var: VarLabel(0), size: 1 });
            lay_out(l, out);
            lay_out(r, out);
            let size = out.len() - start;
            proof {
                lemma_row_len(**l);
                lemma_row_len(**r);
                assert(size == tree.count());
            }
            out[start] = VTreeNode { leaf: false, var: VarLabel(0), size };
            proof {
                assert(out@ =~= old(out)@ + tree.row());
            }
        },
    }
}

/// A variable tree in a row, with the place of the leaf of each variable.
#[derive(Debug)]
pub struct VTreeManager {
    pub tree: VTree,
    pub nodes: Vec<VTreeNode>,
    pub leaf_of: Vec<usize>,
    pub valid: bool,
}

impl VTreeManager {
    /// The row is that of the tree, and if the manager is valid, the leaves
    /// are found through `leaf_of`.
    pub open spec fn wf(&self) -> bool {
        &&& self.nodes@ == self.tree.row()
        &&& shape_ok(self.nodes@)
        &&& self.valid == vars_ok(self.nodes@)
        &&& self.valid ==> leaves_ok(self.nodes@, self.leaf_of@)
        &&& self.valid ==> self.leaf_of@.len() == leaves_below(self.nodes@, self.nodes@.len() as int)
    }

    /// The number of variables of a valid tree: as many as it has leaves.
    pub open spec fn spec_num_vars(&self) -> nat {
        self.leaf_of@.len()
    }

    pub fn new(tree: VTree) -> (r: VTreeManager)
        ensures
            r.tree == tree,
            r.wf(),
    {
        let mut nodes: Vec<VTreeNode> = Vec::new();
        lay_out(&tree, &mut nodes);
        proof {
            assert(nodes@ =~= tree.row());
            assert(nodes@.len() == nodes.len());
            lemma_row_len(tree);
            lemma_row_shape(tree);
        }
        let (leaf_of, valid) = find_leaves(&nodes);
        VTreeManager { tree, nodes, leaf_of, valid }
    }

    /// The whole tree.
    pub fn vtree_root(&self) -> (r: &VTree)
        ensures
            *r == self.tree,
    {
        &self.tree
    }

    /// Whether every variable below the number of leaves stands at one
    /// leaf.
    pub fn is_valid_vtree(&self) -> (r: bool)
        requires
            self.wf(),
        ensures
            r == vars_ok(self.tree.row()),
    {
        self.valid
    }

    /// The number of variables.
    pub fn num_vars(&self) -> (r: usize)
        ensures
            r == self.spec_num_vars(),
    {
        self.leaf_of.len()
    }

    /// The lowest node in the subtree of the node at `d` that has both
    /// nodes in its subtree.
    pub fn lca_below(&self, d: usize, a: usize, b: usize) -> (c: usize)
        requires
            self.wf(),
            d < self.nodes@.len(),
            inside(self.nodes@, d as int, a as int),
            inside(self.nodes@, d as int, b as int),
        ensures
            is_lca(self.nodes@, c as int, a as int, b as int),
            d <= c < self.nodes@.len(),
            c + self.nodes@[c as int].size <= d + self.nodes@[d as int].size,
    {
        let ghost row = self.nodes@;
        let mut c = d;
        loop
            invariant_except_break
                self.wf(),
                row == self.nodes@,
                d <= c < row.len(),
                c + row[c as int].size <= d + row[d as int].size,
                inside(row, c as int, a as int),
                inside(row, c as int, b as int),
            ensures
                is_lca(row, c as int, a as int, b as int),
                d <= c < row.len(),
                c + row[c as int].size <= d + row[d as int].size,
            decreases row.len() - c,
        {
            proof {
                assert(node_shape(row, c as int));
            }
            if self.nodes[c].leaf {
                break ;
            }
            proof {
                assert(node_shape(row, c + 1));
                assert(node_shape(row, right_of(row, c as int)));
            }
            let left = c + 1;
            let right = c + 1 + self.nodes[c + 1].size;
            if a >= right && b >= right {
                c = right;
            } else if a >= left && a < right && b >= left && b < right {
                c = left;
            } else {
                break ;
            }
        }
        c
    }

    /// The lowest node that has both nodes in its subtree.
    pub fn lca(&self, a: usize, b: usize) -> (c: usize)
        requires
            self.wf(),
            a < self.nodes@.len(),
            b < self.nodes@.len(),
        ensures
            is_lca(self.nodes@, c as int, a as int, b as int),
    {
        self.lca_below(0, a, b)
    }
}

/// The number of leaves among the first nodes is at most their number.
proof fn lemma_leaves_bound(row: Seq<VTreeNode>, k: int)
    requires
        0 <= k,
    ensures
        leaves_below(row, k) <= k,
    decreases k,
{
    if k > 0 {
        lemma_leaves_bound(row, k - 1);
    }
}

/// Of the first `i` nodes, each leaf holds a variable below the length of
/// `leaf_of` and stands where `leaf_of` says, and `leaf_of` names nothing
/// else.
spec fn found_upto(row: Seq<VTreeNode>, leaf_of: Seq<usize>, i: int) -> bool {
    &&& forall|c: int|
        0 <= c < i && (#[trigger] row[c]).leaf ==> row[c].var.0 < leaf_of.len()
            && leaf_of[row[c].var.0 as int] == c
    &&& forall|v: int|
        0 <= v < leaf_of.len() && (#[trigger] leaf_of[v]) != usize::MAX ==> leaf_of[v] < i
            && row[leaf_of[v] as int].leaf && row[leaf_of[v] as int].var.0 == v
}

/// The places of the leaves, and whether each variable below the number of
/// leaves stands at one leaf.
fn find_leaves(nodes: &Vec<VTreeNode>) -> (r: (Vec<usize>, bool))
    ensures
        r.1 == vars_ok(nodes@),
        r.1 ==> leaves_ok(nodes@, r.0@),
        r.1 ==> r.0@.len() == leaves_below(nodes@, nodes@.len() as int),
{
    let mut n: usize = 0;
    let mut i: usize = 0;
    while i < nodes.len()
        invariant
            i <= nodes@.len(),
            n == leaves_below(nodes@, i as int),
            n <= i,
        decreases nodes.len() - i,
    {
        if nodes[i].leaf {
            n += 1;
        }
        i += 1;
    }
    let mut leaf_of: Vec<usize> = Vec::new();
    let mut v: usize = 0;
    while v < n
        invariant
            v <= n,
            leaf_of@.len() == v,
            forall|k: int| 0 <= k < v ==> #[trigger] leaf_of@[k] == usize::MAX,
        decreases n - v,
    {
        leaf_of.push(usize::MAX);
        v += 1;
    }
    let mut c: usize = 0;
    while c < nodes.len()
        invariant
            c <= nodes@.len(),
            leaf_of@.len() == n,
            n == leaves_below(nodes@, nodes@.len() as int),
            found_upto(nodes@, leaf_of@, c as int),
        decreases nodes.len() - c,
    {
        if nodes[c].leaf {
            let var = nodes[c].var.0;
            if var >= n as u64 {
                return (leaf_of, false);
            }
            let at = var as usize;
            if leaf_of[at] != usize::MAX {
                proof {
                    let d = leaf_of@[at as int] as int;
                    assert(nodes@[d].leaf && nodes@[c as int].leaf);
                }
                return (leaf_of, false);
            }
            let ghost before = leaf_of@;
            leaf_of[at] = c;
            proof {
                assert forall|k: int| 0 <= k < c + 1 && (#[trigger] nodes@[k]).leaf implies nodes@[k].var.0
                    < leaf_of@.len() && leaf_of@[nodes@[k].var.0 as int] == k by {
                    if k < c {
                        assert(before[nodes@[k].var.0 as int] == k);
                    }
                }
            }
        }
        c += 1;
    }
    let mut w: usize = 0;
    while w < n
        invariant
            w <= n,
            leaf_of@.len() == n,
            n == leaves_below(nodes@, nodes@.len() as int),
            found_upto(nodes@, leaf_of@, nodes@.len() as int),
            forall|k: int| 0 <= k < w ==> #[trigger] leaf_of@[k] != usize::MAX,
        decreases n - w,
    {
        if leaf_of[w] == usize::MAX {
            proof {
                if vars_ok(nodes@) {
                    assert(has_leaf(nodes@, w as u64));
                    let d = choose|d: int|
                        0 <= d < nodes@.len() && #[trigger] has_var(nodes@, d, w as u64);
                    assert(nodes@[d].leaf);
                    assert(leaf_of@[nodes@[d].var.0 as int] == d);
                    assert(nodes@.len() == nodes.len());
                    assert(leaf_of@[w as int] == d);
                }
            }
            return (leaf_of, false);
        }
        w += 1;
    }
    proof {
        assert forall|x: u64| x < n implies #[trigger] has_leaf(nodes@, x) by {
            let d = leaf_of@[x as int] as int;
            assert(has_var(nodes@, d, x));
        }
        assert forall|a: int, b: int|
            0 <= a < b < nodes@.len() && (#[trigger] nodes@[a]).leaf && (
            #[trigger] nodes@[b]).leaf implies nodes@[a].var != nodes@[b].var by {
            assert(leaf_of@[nodes@[a].var.0 as int] == a);
            assert(leaf_of@[nodes@[b].var.0 as int] == b);
        }
    }
    (leaf_of, true)
}

} // verus!
