use crate::model::{chain_within, has_permission, lemma_chain_antisym, lemma_perm_blocked,
    lemma_perm_iff_chain_clear, lemma_perm_root, on_chain, root_id, tree_wf, TreeView};
use vstd::prelude::*;

verus! {

/// Exactly one node of a well-formed tree is self-parented: the admin root.
pub proof fn lemma_root_unique(m: TreeView, n: Seq<char>)
    requires
        tree_wf(m),
        m.contains_key(n),
        m[n].parent == n,
    ensures
        n == root_id(),
{
}

/// The parent graph is acyclic: no non-root node sits on its own parent's
/// ancestor chain, so no node can become its own ancestor.
pub proof fn lemma_no_self_ancestry(m: TreeView, n: Seq<char>)
    requires
        tree_wf(m),
        m.contains_key(n),
        n != root_id(),
    ensures
        !on_chain(m, m[n].parent, n),
{
    if on_chain(m, m[n].parent, n) {
        assert(chain_within(m, m[n].parent, m[n].parent, 0));
        assert(chain_within(m, n, m[n].parent, 1));
        lemma_chain_antisym(m, n, m[n].parent);
    }
}

/// Bidirectional edge consistency. In a well-formed tree every non-root node
/// is listed among its parent's children. Every mutating operation of the
/// store promises well-formedness of the resulting tree, so this holds after
/// any sequence of additions, blockings and unblockings.
pub proof fn lemma_edge_consistency(m: TreeView, n: Seq<char>)
    requires
        tree_wf(m),
        m.contains_key(n),
        n != root_id(),
    ensures
        m.contains_key(m[n].parent),
        m[m[n].parent].children.contains(n),
{
}

/// The converse direction of edge consistency: every listed child is a
/// non-root node of the tree whose parent link points back at the lister.
pub proof fn lemma_edge_soundness(m: TreeView, p: Seq<char>, c: Seq<char>)
    requires
        tree_wf(m),
        m.contains_key(p),
        m[p].children.contains(c),
    ensures
        m.contains_key(c),
        c != root_id(),
        m[c].parent == p,
{
}

/// The admin root has permission exactly as long as it is not itself
/// blocked: nothing sits above it, so nothing else can revoke it.
pub proof fn lemma_root_permission(m: TreeView)
    requires
        tree_wf(m),
    ensures
        has_permission(m, root_id()) == !m[root_id()].blocked,
{
    if m[root_id()].blocked {
        lemma_perm_blocked(m, root_id());
    } else {
        lemma_perm_root(m, root_id());
    }
}

/// Permission is exactly the absence of blocked ancestors: a user has
/// permission if and only if no node on its ancestor chain — the user
/// itself included — is blocked.
pub proof fn lemma_permission_iff_chain_clear(m: TreeView, u: Seq<char>)
    requires
        tree_wf(m),
        m.contains_key(u),
    ensures
        has_permission(m, u) <==> (forall|x: Seq<char>|
            #[trigger] on_chain(m, u, x) ==> !m[x].blocked),
{
    lemma_perm_iff_chain_clear(m, u);
}

} // verus!
