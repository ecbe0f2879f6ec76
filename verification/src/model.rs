use crate::user::UserView;
use vstd::prelude::*;

verus! {

/// The mathematical model of one permission tree: ids mapped to user records.
pub type TreeView = Map<Seq<char>, UserView>;

/// The distinguished id of the self-parented administrator root that seeds
/// every tree.
pub open spec fn root_id() -> Seq<char> {
    "admin"@
}

/// Within at most `n` steps upward from `id`, the parent walk stays inside the
/// tree and reaches a self-parented node.
pub open spec fn ascends(m: TreeView, id: Seq<char>, n: nat) -> bool
    decreases n,
{
    &&& m.contains_key(id)
    &&& (m[id].parent == id || (n > 0 && ascends(m, m[id].parent, (n - 1) as nat)))
}

/// Within at most `n` steps upward from `id`, the walk reaches a self-parented
/// node without meeting a blocked node.
pub open spec fn permitted_within(m: TreeView, id: Seq<char>, n: nat) -> bool
    decreases n,
{
    &&& m.contains_key(id)
    &&& !m[id].blocked
    &&& (m[id].parent == id || (n > 0 && permitted_within(m, m[id].parent, (n - 1) as nat)))
}

/// `id` currently has permission: its whole ancestor chain up to the root is
/// free of blocked nodes, itself included.
pub open spec fn has_permission(m: TreeView, id: Seq<char>) -> bool {
    exists|n: nat| permitted_within(m, id, n)
}

/// `x` lies on the ancestor chain of `a` within at most `n` steps (`a` itself
/// counts as the zeroth element of its chain).
pub open spec fn chain_within(m: TreeView, a: Seq<char>, x: Seq<char>, n: nat) -> bool
    decreases n,
{
    &&& m.contains_key(a)
    &&& (a == x || (m[a].parent != a && n > 0 && chain_within(m, m[a].parent, x, (n - 1) as nat)))
}

/// `x` lies on the ancestor chain of `a`.
pub open spec fn on_chain(m: TreeView, a: Seq<char>, x: Seq<char>) -> bool {
    exists|n: nat| chain_within(m, a, x, n)
}

/// Every node's parent is itself a node of the tree.
pub open spec fn parents_closed(m: TreeView) -> bool {
    forall|id: Seq<char>| #[trigger] m.contains_key(id) ==> m.contains_key(m[id].parent)
}

/// Every node's parent walk reaches a self-parented node: the parent graph is
/// free of cycles other than the root's self-loop.
pub open spec fn all_ascend(m: TreeView) -> bool {
    forall|id: Seq<char>| #[trigger] m.contains_key(id) ==> exists|n: nat| ascends(m, id, n)
}

/// The root is the only self-parented node.
pub open spec fn root_only_self_parented(m: TreeView) -> bool {
    forall|id: Seq<char>| #[trigger] m.contains_key(id) && m[id].parent == id ==> id == root_id()
}

/// Every non-root node is listed among its parent's children.
pub open spec fn children_complete(m: TreeView) -> bool {
    forall|c: Seq<char>|
        #[trigger] m.contains_key(c) && c != root_id() ==> m[m[c].parent].children.contains(c)
}

/// Every listed child is a non-root node of the tree whose parent is the
/// listing node.
pub open spec fn children_sound(m: TreeView) -> bool {
    forall|p: Seq<char>, c: Seq<char>|
        m.contains_key(p) && #[trigger] m[p].children.contains(c) ==> m.contains_key(c) && c
            != root_id() && m[c].parent == p
}

/// No node lists a child twice.
pub open spec fn children_unique(m: TreeView) -> bool {
    forall|p: Seq<char>| #[trigger] m.contains_key(p) ==> m[p].children.no_duplicates()
}

/// Well-formedness of a tree: a finite node set rooted at the admin node, with
/// acyclic parent links and parent/child links that mirror one another.
pub open spec fn tree_wf(m: TreeView) -> bool {
    &&& m.dom().finite()
    &&& m.contains_key(root_id())
    &&& m[root_id()].parent == root_id()
    &&& root_only_self_parented(m)
    &&& parents_closed(m)
    &&& all_ascend(m)
    &&& children_complete(m)
    &&& children_sound(m)
    &&& children_unique(m)
}

/// The exact number of steps from `id` up to the first self-parented node,
/// meaningful whenever some `ascends` bound exists.
pub open spec fn depth_of(m: TreeView, id: Seq<char>) -> nat {
    choose|n: nat| ascends(m, id, n) && (forall|k: nat| k < n ==> !ascends(m, id, k))
}

/// An `ascends` bound may be relaxed upward.
pub proof fn lemma_ascends_mono(m: TreeView, id: Seq<char>, n: nat, k: nat)
    requires
        ascends(m, id, n),
        n <= k,
    ensures
        ascends(m, id, k),
    decreases n,
{
    if m[id].parent != id {
        lemma_ascends_mono(m, m[id].parent, (n - 1) as nat, (k - 1) as nat);
    }
}

/// A `chain_within` bound may be relaxed upward.
pub proof fn lemma_chain_mono(m: TreeView, a: Seq<char>, x: Seq<char>, n: nat, k: nat)
    requires
        chain_within(m, a, x, n),
        n <= k,
    ensures
        chain_within(m, a, x, k),
    decreases n,
{
    if a != x {
        lemma_chain_mono(m, m[a].parent, x, (n - 1) as nat, (k - 1) as nat);
    }
}

/// Whenever some `ascends` bound holds, `depth_of` is the least such bound.
pub proof fn lemma_depth_defined(m: TreeView, id: Seq<char>, n: nat)
    requires
        ascends(m, id, n),
    ensures
        ascends(m, id, depth_of(m, id)),
        depth_of(m, id) <= n,
        forall|k: nat| k < depth_of(m, id) ==> !ascends(m, id, k),
    decreases n,
{
    if exists|k: nat| k < n && ascends(m, id, k) {
        let k = choose|k: nat| k < n && ascends(m, id, k);
        lemma_depth_defined(m, id, k);
    } else {
        assert(forall|k: nat| k < n ==> !ascends(m, id, k));
        assert(exists|w: nat|
            ascends(m, id, w) && (forall|k: nat| k < w ==> !ascends(m, id, k))) by {
            assert(ascends(m, id, n) && (forall|k: nat| k < n ==> !ascends(m, id, k)));
        }
        let d = depth_of(m, id);
        assert(ascends(m, id, d) && (forall|k: nat| k < d ==> !ascends(m, id, k)));
        assert(d <= n) by {
            if n < d {
                assert(!ascends(m, id, n));
            }
        }
    }
}

/// Stepping to the parent of a non-root node decreases the depth.
pub proof fn lemma_depth_step(m: TreeView, id: Seq<char>)
    requires
        m.contains_key(id),
        m[id].parent != id,
        exists|n: nat| ascends(m, id, n),
    ensures
        exists|n: nat| ascends(m, m[id].parent, n),
        depth_of(m, m[id].parent) < depth_of(m, id),
    decreases 0nat,
{
    let n = choose|n: nat| ascends(m, id, n);
    lemma_depth_defined(m, id, n);
    let d = depth_of(m, id);
    assert(d > 0 && ascends(m, m[id].parent, (d - 1) as nat));
    lemma_depth_defined(m, m[id].parent, (d - 1) as nat);
}

/// A blocked node has no permission.
pub proof fn lemma_perm_blocked(m: TreeView, id: Seq<char>)
    requires
        m[id].blocked,
    ensures
        !has_permission(m, id),
{
    assert forall|n: nat| !permitted_within(m, id, n) by {}
}

/// An unblocked self-parented node has permission.
pub proof fn lemma_perm_root(m: TreeView, id: Seq<char>)
    requires
        m.contains_key(id),
        !m[id].blocked,
        m[id].parent == id,
    ensures
        has_permission(m, id),
{
    assert(permitted_within(m, id, 0));
}

/// An unblocked non-root node has permission exactly when its parent does.
pub proof fn lemma_perm_step(m: TreeView, id: Seq<char>)
    requires
        m.contains_key(id),
        !m[id].blocked,
        m[id].parent != id,
    ensures
        has_permission(m, id) == has_permission(m, m[id].parent),
{
    if has_permission(m, id) {
        let n = choose|n: nat| permitted_within(m, id, n);
        assert(n > 0 && permitted_within(m, m[id].parent, (n - 1) as nat));
    }
    if has_permission(m, m[id].parent) {
        let n = choose|n: nat| permitted_within(m, m[id].parent, n);
        assert(permitted_within(m, id, n + 1));
    }
}

/// Every node lies on its own chain.
pub proof fn lemma_chain_refl(m: TreeView, a: Seq<char>)
    requires
        m.contains_key(a),
    ensures
        on_chain(m, a, a),
{
    assert(chain_within(m, a, a, 0));
}

/// The chain of a non-root node is the node itself plus its parent's chain.
pub proof fn lemma_chain_step(m: TreeView, a: Seq<char>, x: Seq<char>)
    requires
        m.contains_key(a),
        m[a].parent != a,
    ensures
        on_chain(m, a, x) == (x == a || on_chain(m, m[a].parent, x)),
{
    if on_chain(m, a, x) {
        let n = choose|n: nat| chain_within(m, a, x, n);
        if x != a {
            assert(chain_within(m, m[a].parent, x, (n - 1) as nat));
        }
    }
    if x == a {
        lemma_chain_refl(m, a);
    } else if on_chain(m, m[a].parent, x) {
        let n = choose|n: nat| chain_within(m, m[a].parent, x, n);
        assert(chain_within(m, a, x, n + 1));
    }
}

/// The chain of a self-parented node contains only that node.
pub proof fn lemma_chain_at_root(m: TreeView, a: Seq<char>, x: Seq<char>)
    requires
        m.contains_key(a),
        m[a].parent == a,
        on_chain(m, a, x),
    ensures
        x == a,
{
    let n = choose|n: nat| chain_within(m, a, x, n);
}

proof fn lemma_chain_within_depth(m: TreeView, a: Seq<char>, b: Seq<char>, n: nat)
    requires
        all_ascend(m),
        chain_within(m, a, b, n),
    ensures
        depth_of(m, b) <= depth_of(m, a),
        a != b ==> depth_of(m, b) < depth_of(m, a),
    decreases n,
{
    if a != b {
        lemma_depth_step(m, a);
        lemma_chain_within_depth(m, m[a].parent, b, (n - 1) as nat);
    }
}

/// Walking up a chain never increases the depth, and strictly decreases it
/// past the first node.
pub proof fn lemma_chain_depth(m: TreeView, a: Seq<char>, b: Seq<char>)
    requires
        all_ascend(m),
        on_chain(m, a, b),
    ensures
        depth_of(m, b) <= depth_of(m, a),
        a != b ==> depth_of(m, b) < depth_of(m, a),
{
    let n = choose|n: nat| chain_within(m, a, b, n);
    lemma_chain_within_depth(m, a, b, n);
}

/// Two nodes on each other's chains are the same node.
pub proof fn lemma_chain_antisym(m: TreeView, a: Seq<char>, b: Seq<char>)
    requires
        all_ascend(m),
        on_chain(m, a, b),
        on_chain(m, b, a),
    ensures
        a == b,
{
    if a != b {
        lemma_chain_depth(m, a, b);
        lemma_chain_depth(m, b, a);
    }
}

proof fn lemma_chain_within_trans(
    m: TreeView,
    a: Seq<char>,
    b: Seq<char>,
    c: Seq<char>,
    n1: nat,
    n2: nat,
)
    requires
        chain_within(m, a, b, n1),
        chain_within(m, b, c, n2),
    ensures
        chain_within(m, a, c, (n1 + n2) as nat),
    decreases n1,
{
    if a == b {
        lemma_chain_mono(m, b, c, n2, (n1 + n2) as nat);
    } else {
        lemma_chain_within_trans(m, m[a].parent, b, c, (n1 - 1) as nat, n2);
    }
}

/// Chain membership is transitive.
pub proof fn lemma_chain_trans(m: TreeView, a: Seq<char>, b: Seq<char>, c: Seq<char>)
    requires
        on_chain(m, a, b),
        on_chain(m, b, c),
    ensures
        on_chain(m, a, c),
{
    let n1 = choose|n: nat| chain_within(m, a, b, n);
    let n2 = choose|n: nat| chain_within(m, b, c, n);
    lemma_chain_within_trans(m, a, b, c, n1, n2);
}

/// In a well-formed tree every node's chain reaches the root.
pub proof fn lemma_chain_to_root(m: TreeView, a: Seq<char>)
    requires
        tree_wf(m),
        m.contains_key(a),
    ensures
        on_chain(m, a, root_id()),
    decreases depth_of(m, a),
{
    if m[a].parent == a {
        assert(a == root_id());
        lemma_chain_refl(m, a);
    } else {
        lemma_depth_step(m, a);
        lemma_chain_to_root(m, m[a].parent);
        let n = choose|n: nat| chain_within(m, m[a].parent, root_id(), n);
        assert(chain_within(m, a, root_id(), n + 1));
    }
}

/// A node has permission exactly when no node on its ancestor chain — itself
/// included — is blocked.
pub proof fn lemma_perm_iff_chain_clear(m: TreeView, u: Seq<char>)
    requires
        tree_wf(m),
        m.contains_key(u),
    ensures
        has_permission(m, u) <==> (forall|x: Seq<char>|
            #[trigger] on_chain(m, u, x) ==> !m[x].blocked),
    decreases depth_of(m, u),
{
    if m[u].blocked {
        lemma_perm_blocked(m, u);
        lemma_chain_refl(m, u);
    } else if m[u].parent == u {
        lemma_perm_root(m, u);
        assert forall|x: Seq<char>| #[trigger] on_chain(m, u, x) implies !m[x].blocked by {
            lemma_chain_at_root(m, u, x);
        }
    } else {
        let p = m[u].parent;
        lemma_depth_step(m, u);
        lemma_perm_iff_chain_clear(m, p);
        lemma_perm_step(m, u);
        if forall|x: Seq<char>| #[trigger] on_chain(m, p, x) ==> !m[x].blocked {
            assert forall|x: Seq<char>| #[trigger] on_chain(m, u, x) implies !m[x].blocked by {
                lemma_chain_step(m, u, x);
            }
        } else {
            let x = choose|x: Seq<char>| on_chain(m, p, x) && m[x].blocked;
            lemma_chain_step(m, u, x);
            assert(on_chain(m, u, x) && m[x].blocked);
        }
    }
}

/// `m2` keeps every node of `m1` with an unchanged parent link.
pub open spec fn same_structure(m1: TreeView, m2: TreeView) -> bool {
    forall|x: Seq<char>|
        #[trigger] m1.contains_key(x) ==> m2.contains_key(x) && m2[x].parent == m1[x].parent
}

/// An `ascends` bound survives any change that keeps nodes and parent links.
pub proof fn lemma_ascends_preserved(m1: TreeView, m2: TreeView, id: Seq<char>, n: nat)
    requires
        ascends(m1, id, n),
        same_structure(m1, m2),
    ensures
        ascends(m2, id, n),
    decreases n,
{
    if m1[id].parent != id {
        lemma_ascends_preserved(m1, m2, m1[id].parent, (n - 1) as nat);
    }
}

/// `m2` agrees with `m1` on presence, parent link and blocked flag of every
/// node other than `u`.
pub open spec fn agree_off(m1: TreeView, m2: TreeView, u: Seq<char>) -> bool {
    forall|y: Seq<char>|
        y != u && #[trigger] m1.contains_key(y) ==> m2.contains_key(y) && m2[y].parent
            == m1[y].parent && m2[y].blocked == m1[y].blocked
}

/// An `ascends` bound survives a change at `u` if the walk avoids `u`.
pub proof fn lemma_ascends_avoid(m1: TreeView, m2: TreeView, x: Seq<char>, u: Seq<char>, n: nat)
    requires
        ascends(m1, x, n),
        !on_chain(m1, x, u),
        agree_off(m1, m2, u),
    ensures
        ascends(m2, x, n),
    decreases n,
{
    assert(x != u) by {
        if x == u {
            lemma_chain_refl(m1, x);
        }
    }
    if m1[x].parent != x {
        let p = m1[x].parent;
        assert(!on_chain(m1, p, u)) by {
            if on_chain(m1, p, u) {
                lemma_chain_step(m1, x, u);
            }
        }
        lemma_ascends_avoid(m1, m2, p, u, (n - 1) as nat);
    }
}

/// A `permitted_within` bound survives a change at `u` if the walk avoids `u`.
pub proof fn lemma_permitted_avoid(m1: TreeView, m2: TreeView, x: Seq<char>, u: Seq<char>, n: nat)
    requires
        permitted_within(m1, x, n),
        !on_chain(m1, x, u),
        agree_off(m1, m2, u),
    ensures
        permitted_within(m2, x, n),
    decreases n,
{
    assert(x != u) by {
        if x == u {
            lemma_chain_refl(m1, x);
        }
    }
    if m1[x].parent != x {
        let p = m1[x].parent;
        assert(!on_chain(m1, p, u)) by {
            if on_chain(m1, p, u) {
                lemma_chain_step(m1, x, u);
            }
        }
        lemma_permitted_avoid(m1, m2, p, u, (n - 1) as nat);
    }
}

/// A walk that passes through `u` ascends in the changed tree as soon as `u`
/// does: the old segment down to `u` is glued onto `u`'s new ascent.
pub proof fn lemma_ascends_through(
    m1: TreeView,
    m2: TreeView,
    x: Seq<char>,
    u: Seq<char>,
    n: nat,
    k: nat,
)
    requires
        chain_within(m1, x, u, n),
        agree_off(m1, m2, u),
        ascends(m2, u, k),
    ensures
        ascends(m2, x, (n + k) as nat),
    decreases n,
{
    if x == u {
        lemma_ascends_mono(m2, u, k, (n + k) as nat);
    } else {
        lemma_ascends_through(m1, m2, m1[x].parent, u, (n - 1) as nat, k);
    }
}

/// `a` and `b` coincide apart from their report counters.
pub open spec fn eq_shape(a: UserView, b: UserView) -> bool {
    a.parent == b.parent && a.children == b.children
}

/// Well-formedness ignores report counters and blocked flags: it survives any
/// change that keeps the node set, parent links and child lists.
pub proof fn lemma_wf_shape_preserved(m1: TreeView, m2: TreeView)
    requires
        tree_wf(m1),
        forall|x: Seq<char>| m1.contains_key(x) <==> m2.contains_key(x),
        forall|x: Seq<char>| #[trigger] m1.contains_key(x) ==> eq_shape(m1[x], m2[x]),
    ensures
        tree_wf(m2),
{
    assert(m2.dom() =~= m1.dom());
    assert forall|id: Seq<char>| #[trigger] m2.contains_key(id) implies exists|n: nat|
        ascends(m2, id, n) by {
        let n = choose|n: nat| ascends(m1, id, n);
        lemma_ascends_preserved(m1, m2, id, n);
    }
    assert(children_complete(m2)) by {
        assert forall|c: Seq<char>|
            #[trigger] m2.contains_key(c) && c != root_id() implies m2[m2[c].parent].children.contains(
            c,
        ) by {
            assert(m1.contains_key(c));
        }
    }
    assert(children_sound(m2)) by {
        assert forall|p: Seq<char>, c: Seq<char>|
            m2.contains_key(p) && #[trigger] m2[p].children.contains(c) implies m2.contains_key(c)
            && c != root_id() && m2[c].parent == p by {
            assert(m1.contains_key(p));
            assert(m1[p].children.contains(c));
        }
    }
    assert(children_unique(m2)) by {
        assert forall|p: Seq<char>| #[trigger] m2.contains_key(p) implies m2[p].children.no_duplicates() by {
            assert(m1.contains_key(p));
        }
    }
}

/// The tree a fresh resource starts with: the admin root alone, unblocked,
/// childless and unreported.
pub open spec fn initial_tree() -> TreeView {
    Map::<Seq<char>, UserView>::empty().insert(
        root_id(),
        UserView {
            parent: root_id(),
            children: Seq::<Seq<char>>::empty(),
            reports: 0u16,
            blocked: false,
        },
    )
}

/// The freshly seeded tree is well formed.
pub proof fn lemma_initial_tree_wf()
    ensures
        tree_wf(initial_tree()),
{
    let m = initial_tree();
    assert(m.contains_key(root_id()));
    assert forall|id: Seq<char>| #[trigger] m.contains_key(id) implies exists|n: nat|
        ascends(m, id, n) by {
        assert(id == root_id());
        assert(ascends(m, id, 0));
    }
}

/// One report: the counter saturates at its ceiling instead of wrapping.
pub open spec fn bump(r: u16) -> u16 {
    if r == 0xffff {
        r
    } else {
        (r + 1) as u16
    }
}

/// The tree after a successful `AddUser`: the parent gains `u` as a child and
/// `u` enters as a fresh unblocked leaf under `p`.
pub open spec fn add_applied(m: TreeView, u: Seq<char>, p: Seq<char>) -> TreeView {
    m.insert(
        p,
        UserView {
            parent: m[p].parent,
            children: m[p].children.push(u),
            reports: m[p].reports,
            blocked: m[p].blocked,
        },
    ).insert(
        u,
        UserView { parent: p, children: Seq::<Seq<char>>::empty(), reports: 0u16, blocked: false },
    )
}

/// The tree after a successful `BlockUser`: only `u`'s blocked flag changes.
pub open spec fn block_applied(m: TreeView, u: Seq<char>) -> TreeView {
    m.insert(
        u,
        UserView {
            parent: m[u].parent,
            children: m[u].children,
            reports: m[u].reports,
            blocked: true,
        },
    )
}

/// The tree after a `ReportUser` on a present `u`: every node on `u`'s
/// ancestor chain has its counter bumped; everything else is untouched.
pub open spec fn report_applied(m: TreeView, u: Seq<char>) -> TreeView {
    Map::new(
        |x: Seq<char>| m.contains_key(x),
        |x: Seq<char>|
            UserView {
                parent: m[x].parent,
                children: m[x].children,
                reports: if on_chain(m, u, x) {
                    bump(m[x].reports)
                } else {
                    m[x].reports
                },
                blocked: m[x].blocked,
            },
    )
}

/// The tree after a successful `UnblockUser`: `u` is unblocked and reparented
/// under `w`, leaving its old parent's child list and entering `w`'s.
pub open spec fn unblock_applied(m: TreeView, u: Seq<char>, w: Seq<char>) -> TreeView {
    let p = m[u].parent;
    let m1 = m.insert(
        u,
        UserView { parent: w, children: m[u].children, reports: m[u].reports, blocked: false },
    );
    let m2 = m1.insert(
        p,
        UserView {
            parent: m1[p].parent,
            children: m1[p].children.remove_value(u),
            reports: m1[p].reports,
            blocked: m1[p].blocked,
        },
    );
    m2.insert(
        w,
        UserView {
            parent: m2[w].parent,
            children: m2[w].children.push(u),
            reports: m2[w].reports,
            blocked: m2[w].blocked,
        },
    )
}

/// Membership in a pushed sequence.
pub proof fn lemma_push_contains<A>(s: Seq<A>, v: A, x: A)
    ensures
        s.push(v).contains(x) <==> (x == v || s.contains(x)),
{
    if s.contains(x) {
        let i = choose|i: int| 0 <= i < s.len() && s[i] == x;
        assert(s.push(v)[i] == x);
    }
    assert(s.push(v)[s.len() as int] == v);
    if s.push(v).contains(x) {
        let i = choose|i: int| 0 <= i < s.push(v).len() && s.push(v)[i] == x;
        if i < s.len() {
            assert(s[i] == x);
        }
    }
}

/// Pushing a fresh element keeps a sequence duplicate-free.
pub proof fn lemma_push_no_dup<A>(s: Seq<A>, v: A)
    requires
        s.no_duplicates(),
        !s.contains(v),
    ensures
        s.push(v).no_duplicates(),
{
    let t = s.push(v);
    assert forall|i: int, j: int|
        0 <= i < t.len() && 0 <= j < t.len() && i != j implies t[i] != t[j] by {
        if i < s.len() && j < s.len() {
        } else if i < s.len() {
            assert(s.contains(s[i]));
        } else if j < s.len() {
            assert(s.contains(s[j]));
        }
    }
}

/// Membership in a sequence with position `i` removed.
pub proof fn lemma_remove_contains<A>(s: Seq<A>, i: int, x: A)
    requires
        0 <= i < s.len(),
    ensures
        s.remove(i).contains(x) <==> (exists|j: int| 0 <= j < s.len() && j != i && s[j] == x),
{
    s.remove_ensures(i);
    let r = s.remove(i);
    if r.contains(x) {
        let j = choose|j: int| 0 <= j < r.len() && r[j] == x;
        if j < i {
            assert(s[j] == x && j != i);
        } else {
            assert(s[j + 1] == x && j + 1 != i);
        }
    }
    if exists|j: int| 0 <= j < s.len() && j != i && s[j] == x {
        let j = choose|j: int| 0 <= j < s.len() && j != i && s[j] == x;
        if j < i {
            assert(r[j] == x);
        } else {
            assert(r[j - 1] == x);
        }
    }
}

/// Removing a position keeps a sequence duplicate-free.
pub proof fn lemma_remove_no_dup<A>(s: Seq<A>, i: int)
    requires
        s.no_duplicates(),
        0 <= i < s.len(),
    ensures
        s.remove(i).no_duplicates(),
{
    s.remove_ensures(i);
    let r = s.remove(i);
    assert forall|a: int, b: int|
        0 <= a < r.len() && 0 <= b < r.len() && a != b implies r[a] != r[b] by {
        let a2: int = if a < i {
            a
        } else {
            a + 1
        };
        let b2: int = if b < i {
            b
        } else {
            b + 1
        };
        assert(r[a] == s[a2] && r[b] == s[b2]);
    }
}

/// In a duplicate-free sequence, removing the first occurrence of `u` removes
/// `u` entirely, keeps every other element, and keeps freedom from duplicates.
pub proof fn lemma_remove_value_no_dup<A>(s: Seq<A>, u: A)
    requires
        s.no_duplicates(),
        s.contains(u),
    ensures
        !s.remove_value(u).contains(u),
        forall|c: A| c != u ==> (#[trigger] s.remove_value(u).contains(c) <==> s.contains(c)),
        s.remove_value(u).no_duplicates(),
{
    s.index_of_first_ensures(u);
    match s.index_of_first(u) {
        Some(i0) => {
            assert(s.remove_value(u) == s.remove(i0));
            lemma_remove_no_dup(s, i0);
            assert(!s.remove(i0).contains(u)) by {
                lemma_remove_contains(s, i0, u);
                if exists|j: int| 0 <= j < s.len() && j != i0 && s[j] == u {
                    let j = choose|j: int| 0 <= j < s.len() && j != i0 && s[j] == u;
                    assert(s[j] == s[i0]);
                }
            }
            assert forall|c: A| c != u implies (#[trigger] s.remove_value(u).contains(c)
                <==> s.contains(c)) by {
                lemma_remove_contains(s, i0, c);
                if s.contains(c) {
                    let j = choose|j: int| 0 <= j < s.len() && s[j] == c;
                    assert(j != i0 && s[j] == c);
                }
            }
        },
        None => {
            assert(false);
        },
    }
}

/// `m` differs from `m0` at most in report counters.
#[verifier::opaque]
pub open spec fn reports_only_diff(m0: TreeView, m: TreeView) -> bool {
    &&& forall|x: Seq<char>| m0.contains_key(x) <==> m.contains_key(x)
    &&& forall|x: Seq<char>|
        #[trigger] m0.contains_key(x) ==> m[x].parent == m0[x].parent && m[x].children
            == m0[x].children && m[x].blocked == m0[x].blocked
}

/// Inserting a fresh leaf under an existing parent keeps the tree well formed.
pub proof fn lemma_add_wf(m: TreeView, u: Seq<char>, p: Seq<char>)
    requires
        tree_wf(m),
        m.contains_key(p),
        !m.contains_key(u),
        u != p,
    ensures
        tree_wf(add_applied(m, u, p)),
{
    let m2 = add_applied(m, u, p);
    assert(u != root_id());
    assert(m2.dom() =~= m.dom().insert(u));
    assert(m2[u] == (UserView {
        parent: p,
        children: Seq::<Seq<char>>::empty(),
        reports: 0u16,
        blocked: false,
    }));
    assert(m2[p].children == m[p].children.push(u));
    assert(forall|x: Seq<char>|
        #[trigger] m.contains_key(x) ==> m2.contains_key(x) && m2[x].parent == m[x].parent);
    assert(forall|x: Seq<char>|
        #[trigger] m.contains_key(x) && x != p ==> m2[x].children == m[x].children);
    assert(same_structure(m, m2));

    // no old child list mentions the fresh id
    assert forall|q: Seq<char>| #[trigger] m.contains_key(q) implies !m[q].children.contains(u) by {
        if m[q].children.contains(u) {
            assert(m.contains_key(u));
        }
    }

    assert(m2.contains_key(root_id()) && m2[root_id()].parent == root_id());
    assert(root_only_self_parented(m2)) by {
        assert forall|id: Seq<char>|
            #[trigger] m2.contains_key(id) && m2[id].parent == id implies id == root_id() by {
            if id != u {
                assert(m.contains_key(id));
            }
        }
    }
    assert(parents_closed(m2)) by {
        assert forall|id: Seq<char>| #[trigger] m2.contains_key(id) implies m2.contains_key(
            m2[id].parent,
        ) by {
            if id != u {
                assert(m.contains_key(id));
            }
        }
    }
    assert(all_ascend(m2)) by {
        assert forall|id: Seq<char>| #[trigger] m2.contains_key(id) implies exists|n: nat|
            ascends(m2, id, n) by {
            if id == u {
                let n = choose|n: nat| ascends(m, p, n);
                lemma_ascends_preserved(m, m2, p, n);
                assert(ascends(m2, u, (n + 1) as nat));
            } else {
                assert(m.contains_key(id));
                let n = choose|n: nat| ascends(m, id, n);
                lemma_ascends_preserved(m, m2, id, n);
            }
        }
    }
    assert(children_complete(m2)) by {
        assert forall|c: Seq<char>|
            #[trigger] m2.contains_key(c) && c != root_id() implies m2[m2[c].parent].children.contains(
            c,
        ) by {
            if c == u {
                lemma_push_contains(m[p].children, u, u);
            } else {
                assert(m.contains_key(c));
                let q = m[c].parent;
                assert(m[q].children.contains(c));
                if q == p {
                    lemma_push_contains(m[p].children, u, c);
                }
            }
        }
    }
    assert(children_sound(m2)) by {
        assert forall|q: Seq<char>, c: Seq<char>|
            m2.contains_key(q) && #[trigger] m2[q].children.contains(c) implies m2.contains_key(c)
            && c != root_id() && m2[c].parent == q by {
            if q == u {
                let i = choose|i: int|
                    0 <= i < m2[u].children.len() && m2[u].children[i] == c;
                assert(false);
            } else if q == p {
                lemma_push_contains(m[p].children, u, c);
                if c != u {
                    assert(m[p].children.contains(c));
                }
            } else {
                assert(m.contains_key(q));
                assert(m[q].children.contains(c));
                assert(c != u);
            }
        }
    }
    assert(children_unique(m2)) by {
        assert forall|q: Seq<char>| #[trigger] m2.contains_key(q) implies m2[q].children.no_duplicates() by {
            if q == u {
            } else if q == p {
                lemma_push_no_dup(m[p].children, u);
            } else {
                assert(m.contains_key(q));
            }
        }
    }
}

/// Blocking a present node keeps the tree well formed.
pub proof fn lemma_block_wf(m: TreeView, u: Seq<char>)
    requires
        tree_wf(m),
        m.contains_key(u),
    ensures
        tree_wf(block_applied(m, u)),
{
    let m2 = block_applied(m, u);
    assert(m2.dom() =~= m.dom());
    assert(forall|x: Seq<char>| m.contains_key(x) <==> m2.contains_key(x));
    assert forall|x: Seq<char>| #[trigger] m.contains_key(x) implies eq_shape(m[x], m2[x]) by {}
    lemma_wf_shape_preserved(m, m2);
}

/// Bumping report counters along a chain keeps the tree well formed.
pub proof fn lemma_report_wf(m: TreeView, u: Seq<char>)
    requires
        tree_wf(m),
    ensures
        tree_wf(report_applied(m, u)),
{
    let m2 = report_applied(m, u);
    assert(forall|x: Seq<char>| m.contains_key(x) <==> m2.contains_key(x));
    assert forall|x: Seq<char>| #[trigger] m.contains_key(x) implies eq_shape(m[x], m2[x]) by {}
    lemma_wf_shape_preserved(m, m2);
}

/// Mid-walk state of a report: counters are bumped exactly on the part of
/// `uid`'s chain strictly below `cur`.
#[verifier::opaque]
pub open spec fn report_partial(
    m0: TreeView,
    m: TreeView,
    uid: Seq<char>,
    cur: Seq<char>,
) -> bool {
    forall|x: Seq<char>|
        #[trigger] m0.contains_key(x) ==> m[x].reports == (if on_chain(m0, uid, x) && !on_chain(
            m0,
            cur,
            x,
        ) {
            bump(m0[x].reports)
        } else {
            m0[x].reports
        })
}

/// A report walk starts with nothing counted yet.
pub proof fn lemma_report_start(m0: TreeView, uid: Seq<char>)
    requires
        m0.contains_key(uid),
    ensures
        report_partial(m0, m0, uid, uid),
        reports_only_diff(m0, m0),
{
    reveal(report_partial);
    reveal(reports_only_diff);
    lemma_chain_refl(m0, uid);
}

/// Replacing one entry by a record with the same shape keeps a
/// reports-only difference.
pub proof fn lemma_reports_only_diff_insert(
    m0: TreeView,
    mpre: TreeView,
    mpost: TreeView,
    cur: Seq<char>,
    rec: UserView,
)
    requires
        reports_only_diff(m0, mpre),
        mpre.contains_key(cur),
        mpost == mpre.insert(cur, rec),
        rec.parent == mpre[cur].parent,
        rec.children == mpre[cur].children,
        rec.blocked == mpre[cur].blocked,
    ensures
        reports_only_diff(m0, mpost),
{
    reveal(reports_only_diff);
}

/// Reading one entry of a reports-only difference.
pub proof fn lemma_diff_entry(m0: TreeView, m: TreeView, x: Seq<char>)
    requires
        reports_only_diff(m0, m),
        m0.contains_key(x),
    ensures
        m.contains_key(x),
        m[x].parent == m0[x].parent,
        m[x].children == m0[x].children,
        m[x].blocked == m0[x].blocked,
{
    reveal(reports_only_diff);
}

/// Ending the report walk: bumping an already-reached root completes the
/// whole chain.
#[verifier::rlimit(100)]
#[verifier::spinoff_prover]
pub proof fn lemma_report_finish(
    m0: TreeView,
    mpre: TreeView,
    mpost: TreeView,
    uid: Seq<char>,
    cur: Seq<char>,
    rec: UserView,
)
    requires
        tree_wf(m0),
        m0.contains_key(uid),
        m0.contains_key(cur),
        m0[cur].parent == cur,
        on_chain(m0, uid, cur),
        reports_only_diff(m0, mpre),
        report_partial(m0, mpre, uid, cur),
        rec.parent == mpre[cur].parent,
        rec.children == mpre[cur].children,
        rec.blocked == mpre[cur].blocked,
        rec.reports == bump(mpre[cur].reports),
        mpost == mpre.insert(cur, rec),
    ensures
        mpost == report_applied(m0, uid),
{
    reveal(report_partial);
    reveal(reports_only_diff);
    lemma_chain_refl(m0, cur);
    assert(mpre[cur].reports == m0[cur].reports);
    assert forall|x: Seq<char>| #[trigger] m0.contains_key(x) implies mpost[x] == report_applied(
        m0,
        uid,
    )[x] by {
        if x != cur && on_chain(m0, cur, x) {
            lemma_chain_at_root(m0, cur, x);
        }
    }
    assert(mpost =~= report_applied(m0, uid));
}

/// One inner step of the report walk: bumping a non-root `cur` shifts the
/// still-to-bump boundary to `cur`'s parent.
#[verifier::rlimit(100)]
#[verifier::spinoff_prover]
pub proof fn lemma_report_advance(
    m0: TreeView,
    mpre: TreeView,
    mpost: TreeView,
    uid: Seq<char>,
    cur: Seq<char>,
    rec: UserView,
)
    requires
        tree_wf(m0),
        m0.contains_key(uid),
        m0.contains_key(cur),
        m0[cur].parent != cur,
        on_chain(m0, uid, cur),
        report_partial(m0, mpre, uid, cur),
        rec.reports == bump(mpre[cur].reports),
        mpost == mpre.insert(cur, rec),
    ensures
        report_partial(m0, mpost, uid, m0[cur].parent),
        on_chain(m0, uid, m0[cur].parent),
        m0.contains_key(m0[cur].parent),
        depth_of(m0, m0[cur].parent) < depth_of(m0, cur),
{
    reveal(report_partial);
    lemma_chain_refl(m0, cur);
    assert(mpre[cur].reports == m0[cur].reports);
    let p = m0[cur].parent;
    assert(m0.contains_key(p));
    lemma_depth_step(m0, cur);
    assert(chain_within(m0, p, p, 0));
    assert(chain_within(m0, cur, p, 1));
    lemma_chain_trans(m0, uid, cur, p);
    assert(!on_chain(m0, p, cur)) by {
        if on_chain(m0, p, cur) {
            lemma_chain_antisym(m0, cur, p);
        }
    }
    assert forall|x: Seq<char>| #[trigger] m0.contains_key(x) implies mpost[x].reports == (
    if on_chain(m0, uid, x) && !on_chain(m0, p, x) {
        bump(m0[x].reports)
    } else {
        m0[x].reports
    }) by {
        if x != cur {
            lemma_chain_step(m0, cur, x);
        }
    }
}

/// Facts justifying a successful unblock, and well-formedness of its result.
///
/// An unblocker that currently holds permission can never sit below the user
/// being unblocked, so grafting the user under the unblocker creates no cycle.
#[verifier::rlimit(100)]
#[verifier::spinoff_prover]
pub proof fn lemma_unblock_wf(m: TreeView, u: Seq<char>, w: Seq<char>)
    requires
        tree_wf(m),
        m.contains_key(u),
        m.contains_key(w),
        has_permission(m, w),
        !has_permission(m, u),
    ensures
        u != w,
        u != root_id(),
        u != m[u].parent,
        !on_chain(m, w, u),
        m.contains_key(m[u].parent),
        m[m[u].parent].children.contains(u),
        tree_wf(unblock_applied(m, u, w)),
        has_permission(unblock_applied(m, u, w), u),
        has_permission(unblock_applied(m, u, w), w),
        unblock_applied(m, u, w)[w].children.contains(u),
        m[u].parent != w ==> !unblock_applied(m, u, w)[m[u].parent].children.contains(u),
{
    let p = m[u].parent;
    let m2 = unblock_applied(m, u, w);

    // chain-level consequences of the two permission facts
    lemma_perm_iff_chain_clear(m, w);
    lemma_perm_iff_chain_clear(m, u);
    assert(exists|x: Seq<char>| on_chain(m, u, x) && m[x].blocked);
    let xb = choose|x: Seq<char>| on_chain(m, u, x) && m[x].blocked;
    lemma_chain_to_root(m, w);
    assert(!m[root_id()].blocked);
    assert(u != root_id()) by {
        if u == root_id() {
            lemma_chain_at_root(m, u, xb);
        }
    }
    assert(u != w) by {
        lemma_chain_refl(m, w);
    }
    assert(!on_chain(m, w, u)) by {
        if on_chain(m, w, u) {
            lemma_chain_trans(m, w, u, xb);
        }
    }
    assert(u != p);
    assert(m.contains_key(p));
    assert(m[p].children.contains(u));

    // the one changed parent link is at u; everything else keeps its shape
    assert(m2.dom() =~= m.dom());
    let pch = m[p].children.remove_value(u);
    lemma_remove_value_no_dup(m[p].children, u);
    assert(m2[u] == (UserView {
        parent: w,
        children: m[u].children,
        reports: m[u].reports,
        blocked: false,
    }));
    assert(m2[w].children == (if w == p {
        pch.push(u)
    } else {
        m[w].children.push(u)
    }));
    assert(w != p ==> m2[p].children == pch);
    assert(forall|x: Seq<char>|
        #[trigger] m.contains_key(x) && x != u ==> m2[x].parent == m[x].parent && m2[x].blocked
            == m[x].blocked && m2[x].reports == m[x].reports);
    assert(forall|x: Seq<char>|
        #[trigger] m.contains_key(x) && x != u && x != p && x != w ==> m2[x].children
            == m[x].children);
    assert(agree_off(m, m2, u));

    // no child list of the old tree mentions u except p's
    assert forall|q: Seq<char>|
        #[trigger] m.contains_key(q) && q != p implies !m[q].children.contains(u) by {
        if m[q].children.contains(u) {
            assert(m[u].parent == q);
        }
    }

    // root is untouched
    assert(m2.contains_key(root_id()) && m2[root_id()].parent == root_id());
    assert(root_only_self_parented(m2)) by {
        assert forall|id: Seq<char>|
            #[trigger] m2.contains_key(id) && m2[id].parent == id implies id == root_id() by {
            if id != u {
                assert(m.contains_key(id));
            }
        }
    }
    assert(parents_closed(m2)) by {
        assert forall|id: Seq<char>| #[trigger] m2.contains_key(id) implies m2.contains_key(
            m2[id].parent,
        ) by {
            if id != u {
                assert(m.contains_key(id));
            }
        }
    }

    // every node still ascends: chains that avoided u are untouched, chains
    // through u continue along w's chain, which avoids u
    let nw = choose|n: nat| ascends(m, w, n);
    lemma_ascends_avoid(m, m2, w, u, nw);
    assert(ascends(m2, u, (nw + 1) as nat));
    assert(all_ascend(m2)) by {
        assert forall|id: Seq<char>| #[trigger] m2.contains_key(id) implies exists|n: nat|
            ascends(m2, id, n) by {
            assert(m.contains_key(id));
            if on_chain(m, id, u) {
                let n = choose|n: nat| chain_within(m, id, u, n);
                lemma_ascends_through(m, m2, id, u, n, (nw + 1) as nat);
            } else {
                let n = choose|n: nat| ascends(m, id, n);
                lemma_ascends_avoid(m, m2, id, u, n);
            }
        }
    }

    // parent/child links still mirror one another
    assert(children_complete(m2)) by {
        assert forall|c: Seq<char>|
            #[trigger] m2.contains_key(c) && c != root_id() implies m2[m2[c].parent].children.contains(
            c,
        ) by {
            if c == u {
                lemma_push_contains(if w == p {
                    pch
                } else {
                    m[w].children
                }, u, u);
            } else {
                assert(m.contains_key(c));
                let q = m[c].parent;
                assert(m[q].children.contains(c));
                assert(c != u && m2[c].parent == q);
                if q == w {
                    lemma_push_contains(if w == p {
                        pch
                    } else {
                        m[w].children
                    }, u, c);
                }
            }
        }
    }
    assert(children_sound(m2)) by {
        assert forall|q: Seq<char>, c: Seq<char>|
            m2.contains_key(q) && #[trigger] m2[q].children.contains(c) implies m2.contains_key(c)
            && c != root_id() && m2[c].parent == q by {
            assert(m.contains_key(q));
            if q == u {
                assert(m[u].children.contains(c));
                assert(c != u);
            } else if q == w {
                lemma_push_contains(if w == p {
                    pch
                } else {
                    m[w].children
                }, u, c);
                if c != u {
                    assert(m[w].children.contains(c));
                    assert(c != u);
                }
            } else if q == p {
                assert(pch.contains(c));
                assert(c != u);
                assert(m[p].children.contains(c));
            } else {
                assert(m[q].children.contains(c));
                assert(c != u);
            }
        }
    }
    assert(children_unique(m2)) by {
        assert forall|q: Seq<char>| #[trigger] m2.contains_key(q) implies m2[q].children.no_duplicates() by {
            assert(m.contains_key(q));
            if q == w {
                if w == p {
                    lemma_push_no_dup(pch, u);
                } else {
                    assert(!m[w].children.contains(u));
                    lemma_push_no_dup(m[w].children, u);
                }
            } else if q == p {
            }
        }
    }

    // the unblocked node regains permission through its new parent
    assert(!m[w].blocked) by {
        lemma_chain_refl(m, w);
    }
    let nwp = choose|n: nat| permitted_within(m, w, n);
    lemma_permitted_avoid(m, m2, w, u, nwp);
    assert(permitted_within(m2, u, (nwp + 1) as nat));

    // the reported child-list facts
    lemma_push_contains(if w == p {
        pch
    } else {
        m[w].children
    }, u, u);
}

} // verus!
