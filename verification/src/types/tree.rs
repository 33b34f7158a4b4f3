//! Tree / hierarchy diagram: root at top, children fan below in
//! depth-wise rows.

use crate::errors::{ParseError, Warning};
use crate::types::shared::{density_warning, density_warnings};
use vstd::prelude::*;

verus! {

/// Soft cap above which a density warning is emitted (counted in nodes).
pub const SOFT_CAP: usize = 20;

/// Stable type tag used in warnings.
pub const TYPE_TAG: &'static str = "tree";

/// A tree node; children are built recursively.
#[derive(Debug)]
pub struct TreeNode {
    pub label: String,
    pub sublabel: Option<String>,
    pub children: Vec<TreeNode>,
}

/// `a` and `b` hold the same tree: equal labels and sublabels, and the
/// same children.
pub open spec fn same_tree(a: TreeNode, b: TreeNode) -> bool
    decreases a,
{
    &&& a.label == b.label
    &&& a.sublabel == b.sublabel
    &&& same_forest(a.children@, b.children@)
}

/// `f` and `g` hold the same trees, in order.
pub open spec fn same_forest(f: Seq<TreeNode>, g: Seq<TreeNode>) -> bool
    decreases f,
{
    if f.len() == 0 {
        g.len() == 0
    } else {
        &&& g.len() == f.len()
        &&& same_forest(f.drop_last(), g.drop_last())
        &&& same_tree(f[f.len() - 1], g[g.len() - 1])
    }
}

impl Clone for TreeNode {
    /// A copy of the whole subtree.
    fn clone(&self) -> (c: Self)
        ensures
            same_tree(c, *self),
        decreases self,
    {
        let mut children: Vec<TreeNode> = Vec::new();
        let mut i: usize = 0;
        assert(self.children@.take(0) =~= Seq::<TreeNode>::empty());
        while i < self.children.len()
            invariant
                i <= self.children@.len(),
                same_forest(children@, self.children@.take(i as int)),
            decreases self.children@.len() - i,
        {
            assert(decreases_to!(self => self.children@[i as int]));
            let ghost before = children@;
            let child = self.children[i].clone();
            children.push(child);
            assert(children@.drop_last() =~= before);
            assert(self.children@.take(i + 1).drop_last() =~= self.children@.take(i as int));
            assert(self.children@.take(i + 1)[i as int] == self.children@[i as int]);
            i = i + 1;
        }
        assert(self.children@.take(i as int) =~= self.children@);
        let sublabel = match &self.sublabel {
            Some(s) => Some(s.clone()),
            None => None,
        };
        TreeNode { label: self.label.clone(), sublabel, children }
    }
}

/// `{"type":"tree","root":{...}, "accent_path":optional}`.
///
/// `accent_path` lists 0-based child indices from the root to the accent
/// node; an empty path is the root itself, `None` means no accent.
#[derive(Debug, Clone)]
pub struct TreeSpec {
    pub root: TreeNode,
    pub accent_path: Option<Vec<usize>>,
}

/// Number of nodes in the tree rooted at `n`.
pub open spec fn node_count(n: TreeNode) -> nat
    decreases n,
{
    1 + forest_count(n.children@)
}

/// Number of nodes in a list of trees.
pub open spec fn forest_count(f: Seq<TreeNode>) -> nat
    decreases f,
{
    if f.len() == 0 {
        0
    } else {
        forest_count(f.drop_last()) + node_count(f[f.len() - 1])
    }
}

/// Does `path` lead from `n` to a node, one child index per step?
pub open spec fn path_leads(n: TreeNode, path: Seq<usize>) -> bool
    decreases path.len(),
{
    if path.len() == 0 {
        true
    } else {
        path[0] < n.children@.len() && path_leads(n.children@[path[0] as int], path.drop_first())
    }
}

/// The accent rule: an accent path must lead to a node; otherwise the error
/// reports the node count and the path's last index (0 for an empty path).
pub open spec fn tree_check(spec: TreeSpec) -> Result<(), ParseError> {
    match spec.accent_path {
        Some(path) if !path_leads(spec.root, path@) => Err(
            ParseError::AccentOutOfRange {
                element_count: node_count(spec.root) as usize,
                accent_idx: if path@.len() > 0 {
                    path@.last()
                } else {
                    0
                },
            },
        ),
        _ => Ok(()),
    }
}

impl TreeSpec {
    /// The accent path, when present, must lead to a node.
    pub fn validate(&self) -> (r: Result<(), ParseError>)
        requires
            node_count(self.root) <= usize::MAX,
        ensures
            r == tree_check(*self),
    {
        if let Some(path) = &self.accent_path {
            if !path_exists(&self.root, path.as_slice()) {
                let total = count_nodes(&self.root);
                let idx = if path.len() > 0 {
                    path[path.len() - 1]
                } else {
                    0
                };
                return Err(ParseError::AccentOutOfRange { element_count: total, accent_idx: idx });
            }
        }
        Ok(())
    }
}

/// Follow `path` from `node`; false when some step names a missing child.
pub fn path_exists(node: &TreeNode, path: &[usize]) -> (b: bool)
    ensures
        b == path_leads(*node, path@),
{
    let mut cur = node;
    let mut i: usize = 0;
    assert(path@.skip(0) =~= path@);
    while i < path.len()
        invariant
            i <= path@.len(),
            path_leads(*node, path@) == path_leads(*cur, path@.skip(i as int)),
        decreases path@.len() - i,
    {
        let k = path[i];
        assert(path@.skip(i as int)[0] == k);
        assert(path@.skip(i as int).drop_first() =~= path@.skip(i + 1));
        if k < cur.children.len() {
            cur = &cur.children[k];
        } else {
            return false;
        }
        i = i + 1;
    }
    true
}

/// Total node count in the tree (root + descendants).
pub fn count_nodes(node: &TreeNode) -> (n: usize)
    requires
        node_count(*node) <= usize::MAX,
    ensures
        n == node_count(*node),
    decreases *node,
{
    let mut total: usize = 1;
    let mut i: usize = 0;
    assert(node.children@.take(0) =~= Seq::<TreeNode>::empty());
    while i < node.children.len()
        invariant
            i <= node.children@.len(),
            total == 1 + forest_count(node.children@.take(i as int)),
            node_count(*node) <= usize::MAX,
        decreases node.children@.len() - i,
    {
        let ghost pre = node.children@.take(i as int);
        assert(node.children@.take(i + 1).drop_last() =~= pre);
        proof {
            lemma_forest_count_prefix(node.children@, i as int + 1);
        }
        let c = count_nodes(&node.children[i]);
        total = total + c;
        i = i + 1;
    }
    assert(node.children@.take(i as int) =~= node.children@);
    total
}

proof fn lemma_forest_count_prefix(f: Seq<TreeNode>, k: int)
    requires
        0 <= k <= f.len(),
    ensures
        forest_count(f.take(k)) <= forest_count(f),
        k > 0 ==> node_count(f[k - 1]) <= forest_count(f),
    decreases f.len(),
{
    if k < f.len() {
        assert(f.drop_last().take(k) =~= f.take(k));
        lemma_forest_count_prefix(f.drop_last(), k);
        if k > 0 {
            assert(f.drop_last()[k - 1] == f[k - 1]);
        }
    } else {
        assert(f.take(k) =~= f);
    }
}

/// Density warning when the node count exceeds [`SOFT_CAP`].
pub fn warnings(spec: &TreeSpec) -> (w: Vec<Warning>)
    requires
        node_count(spec.root) <= usize::MAX,
    ensures
        w@ == density_warnings(TYPE_TAG, node_count(spec.root) as int, SOFT_CAP as int),
{
    density_warning(TYPE_TAG, count_nodes(&spec.root), SOFT_CAP)
}

} // verus!
