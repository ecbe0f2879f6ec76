use crate::assoc::{assoc_map, lemma_assoc_dom, lemma_assoc_index, lemma_assoc_len,
    lemma_assoc_push, lemma_assoc_update};
use crate::errors::TreeError;
use crate::model::{add_applied, block_applied, bump, chain_within, depth_of, has_permission,
    initial_tree, lemma_add_wf, lemma_block_wf, lemma_chain_refl, lemma_chain_trans,
    lemma_depth_step, lemma_diff_entry, lemma_initial_tree_wf, lemma_perm_blocked,
    lemma_perm_root, lemma_perm_step, lemma_report_advance, lemma_report_finish,
    lemma_report_start, lemma_report_wf, lemma_reports_only_diff_insert, lemma_unblock_wf,
    on_chain, report_applied, report_partial, reports_only_diff, root_id, tree_wf,
    unblock_applied, TreeView};
use crate::user::{User, UserView};
use vstd::prelude::*;

verus! {

/// How a report walk ended: whether the propagation reached the root, or met
/// a missing node and stopped early without failing the call. In a
/// well-formed tree only the reported user itself can be missing.
#[derive(Clone, Copy, Debug, PartialEq, Eq, Structural)]
pub enum ReportOutcome {
    /// Every node from the user up to and including the root was counted.
    Complete,
    /// The walk met a missing node and stopped; nothing beyond the nodes
    /// already visited was counted.
    Interrupted,
}

/// A read-only snapshot of one user node, as handed out to callers.
pub struct UserInfo {
    pub parent: String,
    pub children: Vec<String>,
    pub report_count: u16,
    pub blocked: bool,
}

/// One permission tree: the store of all user nodes under a single resource
/// key, owned exclusively and indexed by user id.
pub struct Tree {
    pub users: Vec<User>,
}

impl View for Tree {
    type V = TreeView;

    open spec fn view(&self) -> TreeView {
        assoc_map(self.ids(), self.recs())
    }
}

impl Tree {
    /// The stored ids, in storage order.
    pub open spec fn ids(self) -> Seq<Seq<char>> {
        self.users@.map_values(|u: User| u.id@)
    }

    /// The stored records, in storage order.
    pub open spec fn recs(self) -> Seq<UserView> {
        self.users@.map_values(|u: User| u@)
    }

    /// Well-formedness: distinct ids backing a well-formed tree model.
    pub open spec fn wf(self) -> bool {
        &&& self.ids().no_duplicates()
        &&& tree_wf(self@)
    }

    /// Entry `i` of the store is the map entry for its id.
    pub proof fn lemma_entry(self, i: int)
        requires
            self.ids().no_duplicates(),
            0 <= i < self.users@.len(),
        ensures
            self@.contains_key(self.users@[i].id@),
            self@[self.users@[i].id@] == self.users@[i]@,
    {
        assert(self.ids()[i] == self.users@[i].id@);
        lemma_assoc_index(self.ids(), self.recs(), i);
    }

    /// An id carried by no entry is absent from the map.
    pub proof fn lemma_absent(self, id: Seq<char>)
        requires
            forall|i: int| 0 <= i < self.users@.len() ==> self.users@[i].id@ != id,
        ensures
            !self@.contains_key(id),
    {
        lemma_assoc_dom(self.ids(), self.recs(), id);
        if self.ids().contains(id) {
            let j = choose|j: int| 0 <= j < self.ids().len() && self.ids()[j] == id;
            assert(self.users@[j].id@ == id);
        }
    }

    /// Replacing entry `i` while keeping its id updates the map at that id.
    proof fn lemma_update_view(pre: Tree, post: Tree, i: int)
        requires
            pre.ids().no_duplicates(),
            0 <= i < pre.users@.len(),
            post.users@.len() == pre.users@.len(),
            post.users@[i].id@ == pre.users@[i].id@,
            forall|j: int| 0 <= j < pre.users@.len() && j != i ==> post.users@[j] == pre.users@[j],
        ensures
            post.ids() =~= pre.ids(),
            post.ids().no_duplicates(),
            post@ =~= pre@.insert(pre.users@[i].id@, post.users@[i]@),
    {
        assert(post.ids() =~= pre.ids());
        assert(post.recs() =~= pre.recs().update(i, post.users@[i]@));
        lemma_assoc_update(pre.ids(), pre.recs(), i, post.users@[i]@);
    }

    /// Appending an entry with a fresh id inserts it into the map.
    proof fn lemma_push_view(pre: Tree, post: Tree)
        requires
            pre.ids().no_duplicates(),
            post.users@.len() == pre.users@.len() + 1,
            forall|j: int| 0 <= j < pre.users@.len() ==> post.users@[j] == pre.users@[j],
            forall|i: int|
                0 <= i < pre.users@.len() ==> pre.users@[i].id@ != post.users@[pre.users@.len() as int].id@,
        ensures
            post.ids().no_duplicates(),
            post@ =~= pre@.insert(
                post.users@[pre.users@.len() as int].id@,
                post.users@[pre.users@.len() as int]@,
            ),
    {
        let nid = post.users@[pre.users@.len() as int].id@;
        let nrec = post.users@[pre.users@.len() as int]@;
        assert(post.ids() =~= pre.ids().push(nid));
        assert(post.recs() =~= pre.recs().push(nrec));
        assert(!pre.ids().contains(nid)) by {
            if pre.ids().contains(nid) {
                let j = choose|j: int| 0 <= j < pre.ids().len() && pre.ids()[j] == nid;
                assert(pre.users@[j].id@ == nid);
            }
        }
        lemma_assoc_push(pre.ids(), pre.recs(), nid, nrec);
    }

    /// Creates a tree with no nodes at all; the admin root is seeded
    /// separately.
    pub fn new() -> (r: Tree)
        ensures
            r@ == Map::<Seq<char>, UserView>::empty(),
            r.users@.len() == 0,
    {
        let r = Tree { users: Vec::new() };
        proof {
            assert forall|k: Seq<char>| !r@.contains_key(k) by {
                r.lemma_absent(k);
            }
            assert(r@ =~= Map::<Seq<char>, UserView>::empty());
        }
        r
    }

    /// Installs the self-parented admin root into a tree with no nodes yet.
    pub fn seed_admin(&mut self)
        requires
            old(self).users@.len() == 0,
        ensures
            final(self).wf(),
            final(self)@ == initial_tree(),
    {
        let admin = User::new("admin", "admin");
        self.users.push(admin);
        proof {
            assert(self.users@[0].id@ == root_id());
            assert(self.ids() =~= Seq::<Seq<char>>::empty().push(root_id()));
            self.lemma_entry(0);
            assert forall|k: Seq<char>| #[trigger] self@.contains_key(k) implies k == root_id() by {
                lemma_assoc_dom(self.ids(), self.recs(), k);
                let j = choose|j: int| 0 <= j < self.ids().len() && self.ids()[j] == k;
            }
            assert(self@ =~= initial_tree());
            lemma_initial_tree_wf();
        }
    }

    /// Pushing onto a vector of strings pushes the view onto the deep view.
    proof fn lemma_deep_view_push(a: Vec<String>, b: Vec<String>, x: String)
        requires
            b@ == a@.push(x),
        ensures
            b.deep_view() =~= a.deep_view().push(x@),
    {
        assert forall|i: int| 0 <= i < b.deep_view().len() implies b.deep_view()[i]
            == a.deep_view().push(x@)[i] by {
            if i < a@.len() {
                assert(b@[i] == a@[i]);
            } else {
                assert(b@[i] == x);
            }
        }
    }

    /// Removing a position from a vector of strings removes it from the deep
    /// view.
    proof fn lemma_deep_view_remove(a: Vec<String>, b: Vec<String>, j: int)
        requires
            0 <= j < a@.len(),
            b@ == a@.remove(j),
        ensures
            b.deep_view() =~= a.deep_view().remove(j),
    {
        a@.remove_ensures(j);
        a.deep_view().remove_ensures(j);
        assert forall|i: int| 0 <= i < b.deep_view().len() implies b.deep_view()[i]
            == a.deep_view().remove(j)[i] by {
            if i < j {
                assert(b@[i] == a@[i]);
            } else {
                assert(b@[i] == a@[i + 1]);
            }
        }
    }

    /// Adds a fresh user under a permitted parent. The parent gains the user
    /// as a child and the user enters as an unblocked leaf; on any error the
    /// tree is left untouched.
    #[verifier::rlimit(100)]
    #[verifier::spinoff_prover]
    pub fn add_node(&mut self, user_id: &String, parent: &String) -> (r: Result<(), TreeError>)
        requires
            old(self).wf(),
        ensures
            final(self).wf(),
            match r {
                Ok(_) => {
                    &&& user_id@ != parent@
                    &&& old(self)@.contains_key(parent@)
                    &&& has_permission(old(self)@, parent@)
                    &&& !old(self)@.contains_key(user_id@)
                    &&& final(self)@ == add_applied(old(self)@, user_id@, parent@)
                },
                Err(e) => {
                    &&& *final(self) == *old(self)
                    &&& match e {
                        TreeError::InvalidSelfParent => user_id@ == parent@,
                        TreeError::UserNotFound => user_id@ != parent@ && !old(self)@.contains_key(
                            parent@,
                        ),
                        TreeError::ParentNotPermitted => user_id@ != parent@
                            && old(self)@.contains_key(parent@) && !has_permission(
                            old(self)@,
                            parent@,
                        ),
                        TreeError::UserAlreadyExists => user_id@ != parent@ && has_permission(
                            old(self)@,
                            parent@,
                        ) && old(self)@.contains_key(user_id@),
                        _ => false,
                    }
                },
            },
    {
        if *user_id == *parent {
            return Err(TreeError::InvalidSelfParent);
        }
        let permitted = match self.check_permission(parent) {
            Ok(b) => b,
            Err(e) => {
                return Err(e);
            },
        };
        if !permitted {
            return Err(TreeError::ParentNotPermitted);
        }
        match self.find_index(user_id) {
            Some(i) => {
                proof {
                    self.lemma_entry(i as int);
                }
                return Err(TreeError::UserAlreadyExists);
            },
            None => {
                proof {
                    self.lemma_absent(user_id@);
                }
            },
        }
        let j = match self.find_index(parent) {
            Some(j) => j,
            None => {
                proof {
                    self.lemma_absent(parent@);
                    assert(false);
                }
                return Err(TreeError::ParentNotFound);
            },
        };
        let ghost t0 = *self;
        proof {
            t0.lemma_entry(j as int);
        }
        self.users[j].children.push(user_id.clone());
        proof {
            Tree::lemma_deep_view_push(
                t0.users@[j as int].children,
                self.users@[j as int].children,
                *user_id,
            );
            Tree::lemma_update_view(t0, *self, j as int);
        }
        let ghost t1 = *self;
        let node = User::new(user_id.as_str(), parent.as_str());
        self.users.push(node);
        proof {
            assert(forall|i: int|
                0 <= i < t1.users@.len() ==> t1.users@[i].id@ == t0.users@[i].id@);
            Tree::lemma_push_view(t1, *self);
            let m0 = t0@;
            let pv = self@[parent@];
            assert(self@ =~= t1@.insert(user_id@, self.users@[t1.users@.len() as int]@));
            assert(t1@[parent@] =~= (UserView {
                parent: m0[parent@].parent,
                children: m0[parent@].children.push(user_id@),
                reports: m0[parent@].reports,
                blocked: m0[parent@].blocked,
            }));
            assert(self.users@[t1.users@.len() as int]@ =~= (UserView {
                parent: parent@,
                children: Seq::<Seq<char>>::empty(),
                reports: 0u16,
                blocked: false,
            }));
            assert(self@ =~= add_applied(m0, user_id@, parent@));
            lemma_add_wf(m0, user_id@, parent@);
        }
        Ok(())
    }

    /// Blocks a present, unblocked user when asked by the user itself or by
    /// its direct parent. Only the blocked flag changes.
    #[verifier::rlimit(100)]
    #[verifier::spinoff_prover]
    pub fn block_node(&mut self, user_id: &String, blocker: &String) -> (r: Result<(), TreeError>)
        requires
            old(self).wf(),
        ensures
            final(self).wf(),
            match r {
                Ok(_) => {
                    &&& old(self)@.contains_key(user_id@)
                    &&& !old(self)@[user_id@].blocked
                    &&& (blocker@ == user_id@ || old(self)@[user_id@].parent == blocker@)
                    &&& final(self)@ == block_applied(old(self)@, user_id@)
                },
                Err(e) => {
                    &&& *final(self) == *old(self)
                    &&& match e {
                        TreeError::UserNotFound => !old(self)@.contains_key(user_id@),
                        TreeError::AlreadyBlocked => old(self)@.contains_key(user_id@)
                            && old(self)@[user_id@].blocked,
                        TreeError::NotAuthorizedToBlock => old(self)@.contains_key(user_id@)
                            && !old(self)@[user_id@].blocked && blocker@ != user_id@
                            && old(self)@[user_id@].parent != blocker@,
                        _ => false,
                    }
                },
            },
    {
        let i = match self.find_index(user_id) {
            Some(i) => i,
            None => {
                proof {
                    self.lemma_absent(user_id@);
                }
                return Err(TreeError::UserNotFound);
            },
        };
        proof {
            self.lemma_entry(i as int);
        }
        if self.users[i].blocked {
            return Err(TreeError::AlreadyBlocked);
        }
        if !(self.users[i].parent == *blocker) {
            if !(*user_id == *blocker) {
                return Err(TreeError::NotAuthorizedToBlock);
            }
        }
        let ghost t0 = *self;
        self.users[i].blocked = true;
        proof {
            Tree::lemma_update_view(t0, *self, i as int);
            assert(self.users@[i as int]@ =~= (UserView {
                parent: t0@[user_id@].parent,
                children: t0@[user_id@].children,
                reports: t0@[user_id@].reports,
                blocked: true,
            }));
            assert(self@ =~= block_applied(t0@, user_id@));
            lemma_block_wf(t0@, user_id@);
        }
        Ok(())
    }

    /// Position of the entry carrying `id`, if any.
    fn find_index(&self, id: &String) -> (r: Option<usize>)
        ensures
            match r {
                Some(i) => i < self.users@.len() && self.users@[i as int].id@ == id@,
                None => forall|i: int| 0 <= i < self.users@.len() ==> self.users@[i].id@ != id@,
            },
    {
        let mut i: usize = 0;
        while i < self.users.len()
            invariant
                i <= self.users@.len(),
                forall|j: int| 0 <= j < i ==> self.users@[j].id@ != id@,
            decreases self.users@.len() - i,
        {
            if self.users[i].id == *id {
                return Some(i);
            }
            i = i + 1;
        }
        None
    }

    /// Whether `id` names a node of this tree.
    pub fn contains_id(&self, id: &String) -> (r: bool)
        requires
            self.wf(),
        ensures
            r == self@.contains_key(id@),
    {
        match self.find_index(id) {
            Some(i) => {
                proof {
                    self.lemma_entry(i as int);
                }
                true
            },
            None => {
                proof {
                    self.lemma_absent(id@);
                }
                false
            },
        }
    }

    /// Number of nodes in the tree.
    pub fn node_count(&self) -> (r: usize)
        requires
            self.wf(),
        ensures
            r as nat == self@.dom().len(),
    {
        proof {
            lemma_assoc_len(self.ids(), self.recs());
        }
        self.users.len()
    }

    /// Walks the ancestor chain of `user_id` and decides its current
    /// permission: false as soon as a blocked node is met, true at an
    /// unblocked root.
    #[verifier::rlimit(100)]
    pub fn check_permission(&self, user_id: &String) -> (r: Result<bool, TreeError>)
        requires
            self.wf(),
        ensures
            match r {
                Ok(b) => self@.contains_key(user_id@) && b == has_permission(self@, user_id@),
                Err(e) => e == TreeError::UserNotFound && !self@.contains_key(user_id@),
            },
    {
        let mut idx: usize = match self.find_index(user_id) {
            Some(i) => i,
            None => {
                proof {
                    self.lemma_absent(user_id@);
                }
                return Err(TreeError::UserNotFound);
            },
        };
        proof {
            self.lemma_entry(idx as int);
            lemma_chain_refl(self@, user_id@);
        }
        loop
            invariant
                self.wf(),
                idx < self.users@.len(),
                self@.contains_key(user_id@),
                on_chain(self@, user_id@, self.users@[idx as int].id@),
                has_permission(self@, user_id@) == has_permission(
                    self@,
                    self.users@[idx as int].id@,
                ),
            decreases depth_of(self@, self.users@[idx as int].id@),
        {
            let u = &self.users[idx];
            proof {
                self.lemma_entry(idx as int);
            }
            if u.blocked {
                proof {
                    lemma_perm_blocked(self@, u.id@);
                }
                return Ok(false);
            }
            if u.parent == u.id {
                proof {
                    lemma_perm_root(self@, u.id@);
                }
                return Ok(true);
            }
            proof {
                lemma_perm_step(self@, u.id@);
                lemma_depth_step(self@, u.id@);
                assert(self@.contains_key(u.parent@));
                assert(chain_within(self@, u.parent@, u.parent@, 0));
                assert(chain_within(self@, u.id@, u.parent@, 1));
                lemma_chain_trans(self@, user_id@, u.id@, u.parent@);
            }
            idx = match self.find_index(&u.parent) {
                Some(j) => j,
                None => {
                    proof {
                        self.lemma_absent(u.parent@);
                        assert(false);
                    }
                    return Err(TreeError::UserNotFound);
                },
            };
            proof {
                self.lemma_entry(idx as int);
            }
        }
    }

    /// Increments the report counter of `user_id` and of every ancestor up to
    /// and including the root, regardless of blocked flags. A missing user
    /// stops the walk with an `Interrupted` outcome and no change.
    #[verifier::rlimit(100)]
    #[verifier::spinoff_prover]
    pub fn report_node(&mut self, user_id: &String) -> (r: ReportOutcome)
        requires
            old(self).wf(),
        ensures
            final(self).wf(),
            (r == ReportOutcome::Complete) == old(self)@.contains_key(user_id@),
            old(self)@.contains_key(user_id@) ==> final(self)@ == report_applied(
                old(self)@,
                user_id@,
            ),
            !old(self)@.contains_key(user_id@) ==> *final(self) == *old(self),
    {
        let ghost m0 = self@;
        let mut idx: usize = match self.find_index(user_id) {
            Some(i) => i,
            None => {
                proof {
                    self.lemma_absent(user_id@);
                }
                return ReportOutcome::Interrupted;
            },
        };
        proof {
            self.lemma_entry(idx as int);
            lemma_chain_refl(m0, user_id@);
            lemma_report_start(m0, user_id@);
        }
        loop
            invariant
                m0 == old(self)@,
                tree_wf(m0),
                m0.contains_key(user_id@),
                self.report_walk_at(m0, user_id@, idx as int),
            decreases depth_of(m0, self.users@[idx as int].id@),
        {
            match self.report_bump_at(idx, Ghost(m0), Ghost(user_id@)) {
                None => {
                    proof {
                        lemma_report_wf(m0, user_id@);
                    }
                    return ReportOutcome::Complete;
                },
                Some(j) => {
                    idx = j;
                },
            }
        }
    }

    /// Mid-walk state of a report at position `idx` of the store.
    spec fn report_walk_at(self, m0: TreeView, uid: Seq<char>, idx: int) -> bool {
        &&& self.ids().no_duplicates()
        &&& 0 <= idx < self.users@.len()
        &&& m0.contains_key(self.users@[idx].id@)
        &&& self@[self.users@[idx].id@] == self.users@[idx]@
        &&& on_chain(m0, uid, self.users@[idx].id@)
        &&& reports_only_diff(m0, self@)
        &&& report_partial(m0, self@, uid, self.users@[idx].id@)
    }

    /// One step of the report walk: bumps the counter at position `idx` and
    /// hands back the position of the parent, or nothing when the walk just
    /// counted the root.
    #[verifier::rlimit(100)]
    #[verifier::spinoff_prover]
    fn report_bump_at(
        &mut self,
        idx: usize,
        Ghost(m0): Ghost<TreeView>,
        Ghost(uid): Ghost<Seq<char>>,
    ) -> (r: Option<usize>)
        requires
            tree_wf(m0),
            m0.contains_key(uid),
            old(self).report_walk_at(m0, uid, idx as int),
        ensures
            final(self).ids().no_duplicates(),
            match r {
                None => final(self)@ == report_applied(m0, uid),
                Some(j) => final(self).report_walk_at(m0, uid, j as int) && depth_of(
                    m0,
                    final(self).users@[j as int].id@,
                ) < depth_of(m0, old(self).users@[idx as int].id@),
            },
    {
        let ghost t0 = *self;
        let ghost cur = self.users@[idx as int].id@;
        let cur_reports = self.users[idx].reports;
        let new_reports: u16 = if cur_reports == 0xffff {
            cur_reports
        } else {
            cur_reports + 1
        };
        self.users[idx].reports = new_reports;
        proof {
            Tree::lemma_update_view(t0, *self, idx as int);
            assert(self.users@[idx as int]@.reports == bump(t0@[cur].reports));
            lemma_diff_entry(m0, t0@, cur);
            lemma_reports_only_diff_insert(m0, t0@, self@, cur, self.users@[idx as int]@);
        }
        let u = &self.users[idx];
        if u.parent == u.id {
            proof {
                assert(self@[cur] == self.users@[idx as int]@);
                assert(m0[cur].parent == cur);
                lemma_report_finish(m0, t0@, self@, uid, cur, self.users@[idx as int]@);
            }
            return None;
        }
        let parent_id = u.parent.clone();
        proof {
            assert(self@[cur] == self.users@[idx as int]@);
            assert(m0[cur].parent == parent_id@ && parent_id@ != cur);
            lemma_report_advance(m0, t0@, self@, uid, cur, self.users@[idx as int]@);
        }
        let j = match self.find_index(&parent_id) {
            Some(j) => j,
            None => {
                proof {
                    self.lemma_absent(parent_id@);
                    lemma_diff_entry(m0, self@, parent_id@);
                    assert(false);
                }
                return None;
            },
        };
        proof {
            self.lemma_entry(j as int);
        }
        Some(j)
    }

    /// A read-only snapshot of `user_id`'s record: parent, children, report
    /// count and blocked flag.
    pub fn get_info(&self, user_id: &String) -> (r: Result<UserInfo, TreeError>)
        requires
            self.wf(),
        ensures
            match r {
                Ok(info) => {
                    &&& self@.contains_key(user_id@)
                    &&& info.parent@ == self@[user_id@].parent
                    &&& info.children.deep_view() == self@[user_id@].children
                    &&& info.report_count == self@[user_id@].reports
                    &&& info.blocked == self@[user_id@].blocked
                },
                Err(e) => e == TreeError::UserNotFound && !self@.contains_key(user_id@),
            },
    {
        let i = match self.find_index(user_id) {
            Some(i) => i,
            None => {
                proof {
                    self.lemma_absent(user_id@);
                }
                return Err(TreeError::UserNotFound);
            },
        };
        proof {
            self.lemma_entry(i as int);
        }
        let u = &self.users[i];
        let mut children: Vec<String> = Vec::new();
        let mut k: usize = 0;
        while k < u.children.len()
            invariant
                i < self.users@.len(),
                u == self.users@[i as int],
                k <= u.children@.len(),
                children@ == u.children@.subrange(0, k as int),
            decreases u.children@.len() - k,
        {
            children.push(u.children[k].clone());
            proof {
                assert(children@ =~= u.children@.subrange(0, k + 1));
            }
            k = k + 1;
        }
        proof {
            assert(children@ =~= u.children@);
            assert(children.deep_view() =~= u.children.deep_view());
        }
        Ok(
            UserInfo {
                parent: u.parent.clone(),
                children,
                report_count: u.reports,
                blocked: u.blocked,
            },
        )
    }

    /// Position of the first occurrence of `id` in a child list, if any.
    fn find_child(children: &Vec<String>, id: &String) -> (r: Option<usize>)
        ensures
            match r {
                Some(i) => i < children@.len() && children@[i as int]@ == id@ && (forall|j: int|
                    0 <= j < i ==> children@[j]@ != id@),
                None => forall|j: int| 0 <= j < children@.len() ==> children@[j]@ != id@,
            },
    {
        let mut i: usize = 0;
        while i < children.len()
            invariant
                i <= children@.len(),
                forall|j: int| 0 <= j < i ==> children@[j]@ != id@,
            decreases children@.len() - i,
        {
            if children[i] == *id {
                return Some(i);
            }
            i = i + 1;
        }
        None
    }

    /// Unblocks `user_id` and grafts it under `unblocker`: the blocked flag is
    /// cleared, the parent link moves to `unblocker`, and the child lists of
    /// the old and new parent are adjusted. Permitted only for a currently
    /// permitted unblocker and a currently unpermitted user; on any error the
    /// tree is left untouched.
    #[verifier::rlimit(100)]
    #[verifier::spinoff_prover]
    pub fn unblock_node(&mut self, user_id: &String, unblocker: &String) -> (r: Result<
        (),
        TreeError,
    >)
        requires
            old(self).wf(),
        ensures
            final(self).wf(),
            match r {
                Ok(_) => {
                    &&& old(self)@.contains_key(unblocker@)
                    &&& has_permission(old(self)@, unblocker@)
                    &&& old(self)@.contains_key(user_id@)
                    &&& !has_permission(old(self)@, user_id@)
                    &&& final(self)@ == unblock_applied(old(self)@, user_id@, unblocker@)
                    &&& has_permission(final(self)@, user_id@)
                    &&& final(self)@[unblocker@].children.contains(user_id@)
                    &&& old(self)@[user_id@].parent != unblocker@
                        ==> !final(self)@[old(self)@[user_id@].parent].children.contains(user_id@)
                },
                Err(e) => {
                    &&& *final(self) == *old(self)
                    &&& match e {
                        TreeError::UserNotFound => !old(self)@.contains_key(unblocker@) || (
                        has_permission(old(self)@, unblocker@) && !old(self)@.contains_key(
                            user_id@,
                        )),
                        TreeError::UnblockerNotPermitted => old(self)@.contains_key(unblocker@)
                            && !has_permission(old(self)@, unblocker@),
                        TreeError::UserAlreadyPermitted => has_permission(old(self)@, unblocker@)
                            && old(self)@.contains_key(user_id@) && has_permission(
                            old(self)@,
                            user_id@,
                        ),
                        _ => false,
                    }
                },
            },
    {
        match self.check_permission(unblocker) {
            Ok(b) => {
                if !b {
                    return Err(TreeError::UnblockerNotPermitted);
                }
            },
            Err(e) => {
                return Err(e);
            },
        }
        match self.check_permission(user_id) {
            Ok(b) => {
                if b {
                    return Err(TreeError::UserAlreadyPermitted);
                }
            },
            Err(e) => {
                return Err(e);
            },
        }
        let ghost m0 = self@;
        proof {
            lemma_unblock_wf(m0, user_id@, unblocker@);
        }
        let iu = match self.find_index(user_id) {
            Some(i) => i,
            None => {
                proof {
                    self.lemma_absent(user_id@);
                    assert(false);
                }
                return Err(TreeError::UserNotFound);
            },
        };
        proof {
            self.lemma_entry(iu as int);
        }
        let previous_parent = self.users[iu].parent.clone();
        let ghost p = m0[user_id@].parent;
        let ghost t0 = *self;
        self.users[iu].blocked = false;
        self.users[iu].parent = unblocker.clone();
        proof {
            Tree::lemma_update_view(t0, *self, iu as int);
        }
        let ghost m1 = self@;
        let ip = match self.find_index(&previous_parent) {
            Some(i) => i,
            None => {
                proof {
                    self.lemma_absent(previous_parent@);
                    assert(false);
                }
                return Err(TreeError::ParentNotFound);
            },
        };
        proof {
            self.lemma_entry(ip as int);
            assert(m1[p].children == m0[p].children);
        }
        let jc = match Tree::find_child(&self.users[ip].children, user_id) {
            Some(j) => j,
            None => {
                proof {
                    let dv = self.users@[ip as int].children.deep_view();
                    assert(m0[p].children.contains(user_id@));
                    let k = choose|k: int| 0 <= k < dv.len() && dv[k] == user_id@;
                    assert(self.users@[ip as int].children@[k]@ == user_id@);
                    assert(false);
                }
                return Err(TreeError::ParentNotFound);
            },
        };
        let ghost t1 = *self;
        let _removed = self.users[ip].children.remove(jc);
        proof {
            Tree::lemma_deep_view_remove(
                t1.users@[ip as int].children,
                self.users@[ip as int].children,
                jc as int,
            );
            Tree::lemma_update_view(t1, *self, ip as int);
            let dv = t1.users@[ip as int].children.deep_view();
            assert(dv == m1[p].children);
            dv.index_of_first_ensures(user_id@);
            assert(dv[jc as int] == user_id@);
            match dv.index_of_first(user_id@) {
                Some(i0) => {
                    assert(i0 == jc as int) by {
                        if i0 < jc as int {
                            assert(t1.users@[ip as int].children@[i0]@ == user_id@);
                        }
                    }
                    assert(dv.remove_value(user_id@) == dv.remove(jc as int));
                },
                None => {
                    assert(false);
                },
            }
        }
        let iw = match self.find_index(unblocker) {
            Some(i) => i,
            None => {
                proof {
                    self.lemma_absent(unblocker@);
                    assert(false);
                }
                return Err(TreeError::UnblockerNotFound);
            },
        };
        proof {
            self.lemma_entry(iw as int);
        }
        let ghost t2 = *self;
        self.users[iw].children.push(user_id.clone());
        proof {
            Tree::lemma_deep_view_push(
                t2.users@[iw as int].children,
                self.users@[iw as int].children,
                *user_id,
            );
            Tree::lemma_update_view(t2, *self, iw as int);
            assert(self@ =~= unblock_applied(m0, user_id@, unblocker@));
        }
        Ok(())
    }
}

} // verus!
