use crate::assoc::{assoc_map, lemma_assoc_dom, lemma_assoc_index, lemma_assoc_push,
    lemma_assoc_update};
use crate::errors::TreeError;
use crate::model::{add_applied, block_applied, has_permission, initial_tree, report_applied,
    root_id, unblock_applied, TreeView};
use crate::tree::{Tree, UserInfo};
use crate::user::UserView;
use vstd::prelude::*;
use vstd::string::StringExecFns;

pub use crate::tree::ReportOutcome;

verus! {

/// The database: all permission trees, keyed by their resource certificate.
/// Each certificate owns exactly one tree.
pub struct Forest {
    pub keys: Vec<String>,
    pub trees: Vec<Tree>,
}

impl View for Forest {
    type V = Map<Seq<char>, TreeView>;

    open spec fn view(&self) -> Map<Seq<char>, TreeView> {
        assoc_map(self.keys.deep_view(), self.trees@.map_values(|t: Tree| t@))
    }
}

impl Forest {
    /// Well-formedness: distinct certificates, parallel storage, and every
    /// tree well formed.
    pub open spec fn wf(self) -> bool {
        &&& self.keys.deep_view().no_duplicates()
        &&& self.keys@.len() == self.trees@.len()
        &&& forall|i: int| 0 <= i < self.trees@.len() ==> (#[trigger] self.trees@[i]).wf()
    }

    /// Entry `i` of the storage is the map entry for its certificate.
    proof fn lemma_entry(self, i: int)
        requires
            self.keys.deep_view().no_duplicates(),
            self.keys@.len() == self.trees@.len(),
            0 <= i < self.keys@.len(),
        ensures
            self@.contains_key(self.keys@[i]@),
            self@[self.keys@[i]@] == self.trees@[i]@,
    {
        assert(self.keys.deep_view()[i] == self.keys@[i]@);
        lemma_assoc_index(self.keys.deep_view(), self.trees@.map_values(|t: Tree| t@), i);
    }

    /// A certificate carried by no entry is absent from the map.
    proof fn lemma_absent(self, key: Seq<char>)
        requires
            forall|i: int| 0 <= i < self.keys@.len() ==> self.keys@[i]@ != key,
        ensures
            !self@.contains_key(key),
    {
        lemma_assoc_dom(self.keys.deep_view(), self.trees@.map_values(|t: Tree| t@), key);
        if self.keys.deep_view().contains(key) {
            let j = choose|j: int|
                0 <= j < self.keys.deep_view().len() && self.keys.deep_view()[j] == key;
            assert(self.keys@[j]@ == key);
        }
    }

    /// Replacing tree `i` while keeping the certificates updates the map at
    /// that certificate.
    proof fn lemma_update_view(pre: Forest, post: Forest, i: int)
        requires
            pre.keys.deep_view().no_duplicates(),
            pre.keys@.len() == pre.trees@.len(),
            0 <= i < pre.trees@.len(),
            post.keys == pre.keys,
            post.trees@.len() == pre.trees@.len(),
            forall|j: int|
                0 <= j < pre.trees@.len() && j != i ==> post.trees@[j] == pre.trees@[j],
        ensures
            post@ =~= pre@.insert(pre.keys@[i]@, post.trees@[i]@),
    {
        assert(post.trees@.map_values(|t: Tree| t@) =~= pre.trees@.map_values(
            |t: Tree| t@,
        ).update(i, post.trees@[i]@));
        lemma_assoc_update(
            pre.keys.deep_view(),
            pre.trees@.map_values(|t: Tree| t@),
            i,
            post.trees@[i]@,
        );
    }

    /// Position of the entry carrying `key`, if any.
    fn find_key(&self, key: &String) -> (r: Option<usize>)
        ensures
            match r {
                Some(i) => i < self.keys@.len() && self.keys@[i as int]@ == key@,
                None => forall|i: int| 0 <= i < self.keys@.len() ==> self.keys@[i]@ != key@,
            },
    {
        let mut i: usize = 0;
        while i < self.keys.len()
            invariant
                i <= self.keys@.len(),
                forall|j: int| 0 <= j < i ==> self.keys@[j]@ != key@,
            decreases self.keys@.len() - i,
        {
            if self.keys[i] == *key {
                return Some(i);
            }
            i = i + 1;
        }
        None
    }
}

/// Creates an empty database with no trees at all. The caller owns it and
/// passes it to every operation; there is no hidden process-wide state.
pub fn build_database() -> (r: Forest)
    ensures
        r.wf(),
        r@ == Map::<Seq<char>, TreeView>::empty(),
{
    let r = Forest { keys: Vec::new(), trees: Vec::new() };
    proof {
        assert forall|k: Seq<char>| !r@.contains_key(k) by {
            r.lemma_absent(k);
        }
        assert(r@ =~= Map::<Seq<char>, TreeView>::empty());
    }
    r
}

/// Creates a tree with no users in it; `add_user_tree` seeds the admin root
/// before such a tree enters the database.
pub fn build_user_tree() -> (r: Tree)
    ensures
        r@ == Map::<Seq<char>, UserView>::empty(),
        r.users@.len() == 0,
{
    Tree::new()
}

/// Adds a new user tree to the database under `certificate`, seeded with the
/// self-parented admin root. Fails when the certificate is already taken.
pub fn add_user_tree(certificate: &String, database: &mut Forest) -> (r: Result<(), TreeError>)
    requires
        old(database).wf(),
    ensures
        final(database).wf(),
        match r {
            Ok(_) => {
                &&& !old(database)@.contains_key(certificate@)
                &&& final(database)@ == old(database)@.insert(certificate@, initial_tree())
            },
            Err(e) => {
                &&& final(database)@ == old(database)@
                &&& e == TreeError::AlreadyExists
                &&& old(database)@.contains_key(certificate@)
            },
        },
{
    match database.find_key(certificate) {
        Some(i) => {
            proof {
                database.lemma_entry(i as int);
            }
            return Err(TreeError::AlreadyExists);
        },
        None => {
            proof {
                database.lemma_absent(certificate@);
            }
        },
    }
    let mut users = build_user_tree();
    users.seed_admin();
    let ghost f0 = *database;
    database.keys.push(certificate.clone());
    database.trees.push(users);
    proof {
        assert(database.keys.deep_view() =~= f0.keys.deep_view().push(certificate@));
        assert(database.trees@.map_values(|t: Tree| t@) =~= f0.trees@.map_values(
            |t: Tree| t@,
        ).push(initial_tree()));
        assert(!f0.keys.deep_view().contains(certificate@)) by {
            if f0.keys.deep_view().contains(certificate@) {
                let j = choose|j: int|
                    0 <= j < f0.keys.deep_view().len() && f0.keys.deep_view()[j] == certificate@;
                assert(f0.keys@[j]@ == certificate@);
            }
        }
        lemma_assoc_push(
            f0.keys.deep_view(),
            f0.trees@.map_values(|t: Tree| t@),
            certificate@,
            initial_tree(),
        );
        assert(database@ =~= f0@.insert(certificate@, initial_tree()));
    }
    Ok(())
}

/// Decides whether `user_id` currently has permission in the tree under
/// `certificate`: true exactly when no node on its ancestor chain is blocked.
pub fn check_user_permission(user_id: &String, certificate: &String, database: &Forest) -> (r:
    Result<bool, TreeError>)
    requires
        database.wf(),
    ensures
        match r {
            Ok(b) => {
                &&& database@.contains_key(certificate@)
                &&& database@[certificate@].contains_key(user_id@)
                &&& b == has_permission(database@[certificate@], user_id@)
            },
            Err(e) => match e {
                TreeError::ResourceNotFound => !database@.contains_key(certificate@),
                TreeError::UserNotFound => database@.contains_key(certificate@)
                    && !database@[certificate@].contains_key(user_id@),
                _ => false,
            },
        },
{
    let i = match database.find_key(certificate) {
        Some(i) => i,
        None => {
            proof {
                database.lemma_absent(certificate@);
            }
            return Err(TreeError::ResourceNotFound);
        },
    };
    proof {
        database.lemma_entry(i as int);
    }
    database.trees[i].check_permission(user_id)
}

/// Adds `user_id` under `parent` in the tree under `certificate`. The parent
/// must be distinct, present and currently permitted, and the user id fresh;
/// on any error the database is left untouched.
pub fn add_user(
    user_id: &String,
    parent: &String,
    certificate: &String,
    database: &mut Forest,
) -> (r: Result<(), TreeError>)
    requires
        old(database).wf(),
    ensures
        final(database).wf(),
        match r {
            Ok(_) => {
                &&& user_id@ != parent@
                &&& old(database)@.contains_key(certificate@)
                &&& old(database)@[certificate@].contains_key(parent@)
                &&& has_permission(old(database)@[certificate@], parent@)
                &&& !old(database)@[certificate@].contains_key(user_id@)
                &&& final(database)@ == old(database)@.insert(
                    certificate@,
                    add_applied(old(database)@[certificate@], user_id@, parent@),
                )
            },
            Err(e) => {
                &&& final(database)@ == old(database)@
                &&& match e {
                    TreeError::InvalidSelfParent => user_id@ == parent@,
                    TreeError::ResourceNotFound => user_id@ != parent@
                        && !old(database)@.contains_key(certificate@),
                    TreeError::UserNotFound => user_id@ != parent@ && old(database)@.contains_key(certificate@)
                        && !old(database)@[certificate@].contains_key(parent@),
                    TreeError::ParentNotPermitted => user_id@ != parent@ && old(database)@.contains_key(certificate@) && old(database)@[certificate@].contains_key(
                        parent@,
                    ) && !has_permission(old(database)@[certificate@], parent@),
                    TreeError::UserAlreadyExists => user_id@ != parent@ && old(database)@.contains_key(certificate@) && has_permission(
                        old(database)@[certificate@],
                        parent@,
                    ) && old(database)@[certificate@].contains_key(user_id@),
                    _ => false,
                }
            },
        },
{
    if *user_id == *parent {
        return Err(TreeError::InvalidSelfParent);
    }
    let i = match database.find_key(certificate) {
        Some(i) => i,
        None => {
            proof {
                database.lemma_absent(certificate@);
            }
            return Err(TreeError::ResourceNotFound);
        },
    };
    let ghost f0 = *database;
    proof {
        f0.lemma_entry(i as int);
    }
    let r = database.trees[i].add_node(user_id, parent);
    proof {
        Forest::lemma_update_view(f0, *database, i as int);
        if r is Err {
            assert(database@ =~= f0@);
        }
    }
    r
}

/// Increments the report counter of `user_id` and of all its ancestors in the
/// tree under `certificate`. A missing user yields an `Interrupted` outcome
/// rather than an error; a missing certificate fails.
pub fn report_user(user_id: &String, certificate: &String, database: &mut Forest) -> (r: Result<
    ReportOutcome,
    TreeError,
>)
    requires
        old(database).wf(),
    ensures
        final(database).wf(),
        match r {
            Ok(o) => {
                &&& old(database)@.contains_key(certificate@)
                &&& (o == ReportOutcome::Complete) == old(database)@[certificate@].contains_key(
                    user_id@,
                )
                &&& old(database)@[certificate@].contains_key(user_id@) ==> final(database)@ == old(database)@.insert(certificate@, report_applied(old(database)@[certificate@], user_id@))
                &&& !old(database)@[certificate@].contains_key(user_id@) ==> final(database)@
                    == old(database)@
            },
            Err(e) => {
                &&& final(database)@ == old(database)@
                &&& e == TreeError::ResourceNotFound
                &&& !old(database)@.contains_key(certificate@)
            },
        },
{
    let i = match database.find_key(certificate) {
        Some(i) => i,
        None => {
            proof {
                database.lemma_absent(certificate@);
            }
            return Err(TreeError::ResourceNotFound);
        },
    };
    let ghost f0 = *database;
    proof {
        f0.lemma_entry(i as int);
    }
    let outcome = database.trees[i].report_node(user_id);
    proof {
        Forest::lemma_update_view(f0, *database, i as int);
        if outcome is Interrupted {
            assert(database@ =~= f0@);
        }
    }
    Ok(outcome)
}

/// Blocks `user_id` in the tree under `certificate` when asked by the user
/// itself or by its direct parent. Only the blocked flag changes.
pub fn block_user(
    user_id: &String,
    blocker: &String,
    certificate: &String,
    database: &mut Forest,
) -> (r: Result<(), TreeError>)
    requires
        old(database).wf(),
    ensures
        final(database).wf(),
        match r {
            Ok(_) => {
                &&& old(database)@.contains_key(certificate@)
                &&& old(database)@[certificate@].contains_key(user_id@)
                &&& !old(database)@[certificate@][user_id@].blocked
                &&& (blocker@ == user_id@ || old(database)@[certificate@][user_id@].parent
                    == blocker@)
                &&& final(database)@ == old(database)@.insert(
                    certificate@,
                    block_applied(old(database)@[certificate@], user_id@),
                )
            },
            Err(e) => {
                &&& final(database)@ == old(database)@
                &&& match e {
                    TreeError::ResourceNotFound => !old(database)@.contains_key(certificate@),
                    TreeError::UserNotFound => old(database)@.contains_key(certificate@)
                        && !old(database)@[certificate@].contains_key(user_id@),
                    TreeError::AlreadyBlocked => old(database)@.contains_key(certificate@) && old(database)@[certificate@].contains_key(user_id@)
                        && old(database)@[certificate@][user_id@].blocked,
                    TreeError::NotAuthorizedToBlock => old(database)@.contains_key(certificate@)
                        && old(database)@[certificate@].contains_key(user_id@) && !old(database)@[certificate@][user_id@].blocked && blocker@ != user_id@ && old(database)@[certificate@][user_id@].parent != blocker@,
                    _ => false,
                }
            },
        },
{
    let i = match database.find_key(certificate) {
        Some(i) => i,
        None => {
            proof {
                database.lemma_absent(certificate@);
            }
            return Err(TreeError::ResourceNotFound);
        },
    };
    let ghost f0 = *database;
    proof {
        f0.lemma_entry(i as int);
    }
    let r = database.trees[i].block_node(user_id, blocker);
    proof {
        Forest::lemma_update_view(f0, *database, i as int);
        if r is Err {
            assert(database@ =~= f0@);
        }
    }
    r
}

/// Unblocks `user_id` in the tree under `certificate` and reparents it under
/// `unblocker`, whose own permission must be intact. Descendants of the user
/// regain permission transitively, since permission is computed by walking
/// the chain rather than being cached.
pub fn unblock_user(
    user_id: &String,
    unblocker: &String,
    certificate: &String,
    database: &mut Forest,
) -> (r: Result<(), TreeError>)
    requires
        old(database).wf(),
    ensures
        final(database).wf(),
        match r {
            Ok(_) => {
                &&& old(database)@.contains_key(certificate@)
                &&& old(database)@[certificate@].contains_key(unblocker@)
                &&& has_permission(old(database)@[certificate@], unblocker@)
                &&& old(database)@[certificate@].contains_key(user_id@)
                &&& !has_permission(old(database)@[certificate@], user_id@)
                &&& final(database)@ == old(database)@.insert(
                    certificate@,
                    unblock_applied(old(database)@[certificate@], user_id@, unblocker@),
                )
                &&& has_permission(final(database)@[certificate@], user_id@)
                &&& final(database)@[certificate@][unblocker@].children.contains(user_id@)
                &&& old(database)@[certificate@][user_id@].parent != unblocker@ ==> !final(database)@[certificate@][old(database)@[certificate@][user_id@].parent].children.contains(
                    user_id@,
                )
            },
            Err(e) => {
                &&& final(database)@ == old(database)@
                &&& match e {
                    TreeError::ResourceNotFound => !old(database)@.contains_key(certificate@),
                    TreeError::UserNotFound => old(database)@.contains_key(certificate@) && (!old(database)@[certificate@].contains_key(unblocker@) || (has_permission(
                        old(database)@[certificate@],
                        unblocker@,
                    ) && !old(database)@[certificate@].contains_key(user_id@))),
                    TreeError::UnblockerNotPermitted => old(database)@.contains_key(certificate@)
                        && old(database)@[certificate@].contains_key(unblocker@)
                        && !has_permission(old(database)@[certificate@], unblocker@),
                    TreeError::UserAlreadyPermitted => old(database)@.contains_key(certificate@)
                        && has_permission(old(database)@[certificate@], unblocker@) && old(database)@[certificate@].contains_key(user_id@) && has_permission(
                        old(database)@[certificate@],
                        user_id@,
                    ),
                    _ => false,
                }
            },
        },
{
    let i = match database.find_key(certificate) {
        Some(i) => i,
        None => {
            proof {
                database.lemma_absent(certificate@);
            }
            return Err(TreeError::ResourceNotFound);
        },
    };
    let ghost f0 = *database;
    proof {
        f0.lemma_entry(i as int);
    }
    let r = database.trees[i].unblock_node(user_id, unblocker);
    proof {
        Forest::lemma_update_view(f0, *database, i as int);
        if r is Err {
            assert(database@ =~= f0@);
        }
    }
    r
}

/// A read-only snapshot of `user_id`'s record in the tree under
/// `certificate`.
pub fn get_user_info(user_id: &String, certificate: &String, database: &Forest) -> (r: Result<
    UserInfo,
    TreeError,
>)
    requires
        database.wf(),
    ensures
        match r {
            Ok(info) => {
                &&& database@.contains_key(certificate@)
                &&& database@[certificate@].contains_key(user_id@)
                &&& info.parent@ == database@[certificate@][user_id@].parent
                &&& info.children.deep_view() == database@[certificate@][user_id@].children
                &&& info.report_count == database@[certificate@][user_id@].reports
                &&& info.blocked == database@[certificate@][user_id@].blocked
            },
            Err(e) => match e {
                TreeError::ResourceNotFound => !database@.contains_key(certificate@),
                TreeError::UserNotFound => database@.contains_key(certificate@)
                    && !database@[certificate@].contains_key(user_id@),
                _ => false,
            },
        },
{
    let i = match database.find_key(certificate) {
        Some(i) => i,
        None => {
            proof {
                database.lemma_absent(certificate@);
            }
            return Err(TreeError::ResourceNotFound);
        },
    };
    proof {
        database.lemma_entry(i as int);
    }
    database.trees[i].get_info(user_id)
}

/// The decimal digit character for `d`.
pub open spec fn dec_digit(d: int) -> char {
    if d == 0 {
        '0'
    } else if d == 1 {
        '1'
    } else if d == 2 {
        '2'
    } else if d == 3 {
        '3'
    } else if d == 4 {
        '4'
    } else if d == 5 {
        '5'
    } else if d == 6 {
        '6'
    } else if d == 7 {
        '7'
    } else if d == 8 {
        '8'
    } else {
        '9'
    }
}

/// The decimal rendering of `n`, most significant digit first.
pub open spec fn dec_rep(n: nat) -> Seq<char>
    decreases n,
{
    if n < 10 {
        seq![dec_digit(n as int)]
    } else {
        dec_rep((n / 10) as nat).push(dec_digit((n % 10) as int))
    }
}

/// Appends the decimal rendering of `n` to `s`.
fn push_decimal(s: &mut String, n: u16)
    ensures
        final(s)@ == old(s)@ + dec_rep(n as nat),
    decreases n,
{
    if n >= 10 {
        push_decimal(s, n / 10);
    }
    let d = n % 10;
    let digit: &str = if d == 0 {
        "0"
    } else if d == 1 {
        "1"
    } else if d == 2 {
        "2"
    } else if d == 3 {
        "3"
    } else if d == 4 {
        "4"
    } else if d == 5 {
        "5"
    } else if d == 6 {
        "6"
    } else if d == 7 {
        "7"
    } else if d == 8 {
        "8"
    } else {
        "9"
    };
    proof {
        reveal_strlit("0");
        reveal_strlit("1");
        reveal_strlit("2");
        reveal_strlit("3");
        reveal_strlit("4");
        reveal_strlit("5");
        reveal_strlit("6");
        reveal_strlit("7");
        reveal_strlit("8");
        reveal_strlit("9");
        assert(digit@ =~= seq![dec_digit((n % 10) as int)]);
    }
    s.append(digit);
    proof {
        assert(final(s)@ =~= old(s)@ + dec_rep(n as nat));
    }
}

/// The id given to child number `b` of `parent` by the test-tree builder.
pub open spec fn child_id_rep(parent: Seq<char>, b: nat) -> Seq<char> {
    parent + seq!['-'] + dec_rep(b)
}

/// Builds the id `<parent>-<b>`.
fn child_id(parent: &String, b: u16) -> (r: String)
    ensures
        r@ == child_id_rep(parent@, b as nat),
{
    let mut s = parent.clone();
    s.append("-");
    proof {
        reveal_strlit("-");
    }
    push_decimal(&mut s, b);
    proof {
        assert(s@ =~= child_id_rep(parent@, b as nat));
    }
    s
}

/// One best-effort insertion of the test-tree builder: the child enters the
/// tree exactly when `add_user` itself would succeed on it; a failing
/// insertion is skipped and the tree is left as it was.
pub open spec fn builder_step(m: TreeView, u: Seq<char>, p: Seq<char>) -> TreeView {
    if u != p && m.contains_key(p) && has_permission(m, p) && !m.contains_key(u) {
        add_applied(m, u, p)
    } else {
        m
    }
}

/// The children `<parent>-<b>` for `b` in `b..branch`, inserted in order.
pub open spec fn builder_children(m: TreeView, parent: Seq<char>, b: nat, branch: nat) -> TreeView
    decreases branch - b,
{
    if b < branch {
        builder_children(
            builder_step(m, child_id_rep(parent, b), parent),
            parent,
            (b + 1) as nat,
            branch,
        )
    } else {
        m
    }
}

/// The ids `<parent>-<b>` for `b` in `b..branch`, in order.
pub open spec fn sibling_ids(parent: Seq<char>, b: nat, branch: nat) -> Seq<Seq<char>>
    decreases branch - b,
{
    if b < branch {
        seq![child_id_rep(parent, b)] + sibling_ids(parent, (b + 1) as nat, branch)
    } else {
        Seq::<Seq<char>>::empty()
    }
}

/// One whole generation: every parent from position `i` on receives its
/// children in order.
pub open spec fn builder_parents(
    m: TreeView,
    parents: Seq<Seq<char>>,
    i: int,
    branch: nat,
) -> TreeView
    decreases parents.len() - i,
{
    if 0 <= i < parents.len() {
        builder_parents(builder_children(m, parents[i], 1, branch), parents, i + 1, branch)
    } else {
        m
    }
}

/// The ids of the generation below `parents[i..]`, in generation order.
pub open spec fn generation_ids(parents: Seq<Seq<char>>, i: int, branch: nat) -> Seq<Seq<char>>
    decreases parents.len() - i,
{
    if 0 <= i < parents.len() {
        sibling_ids(parents[i], 1, branch) + generation_ids(parents, i + 1, branch)
    } else {
        Seq::<Seq<char>>::empty()
    }
}

/// The generations `l..level`, each grown under the ids of the one before.
pub open spec fn builder_levels(
    m: TreeView,
    parents: Seq<Seq<char>>,
    l: nat,
    level: nat,
    branch: nat,
) -> TreeView
    decreases level - l,
{
    if l < level {
        builder_levels(
            builder_parents(m, parents, 0, branch),
            generation_ids(parents, 0, branch),
            (l + 1) as nat,
            level,
            branch,
        )
    } else {
        m
    }
}

/// The tree the builder leaves behind: `level - 1` generations under the
/// admin root, each parent receiving children `<parent>-<b>` for `b` in
/// `1..branch`, every insertion best-effort.
pub open spec fn build_applied(m: TreeView, branch: nat, level: nat) -> TreeView {
    builder_levels(m, seq![root_id()], 1, level, branch)
}

proof fn lemma_builder_parents_trivial(m: TreeView, parents: Seq<Seq<char>>, i: int, branch: nat)
    requires
        branch <= 1,
    ensures
        builder_parents(m, parents, i, branch) == m,
    decreases parents.len() - i,
{
    if 0 <= i < parents.len() {
        lemma_builder_parents_trivial(m, parents, i + 1, branch);
    }
}

proof fn lemma_builder_levels_trivial(
    m: TreeView,
    parents: Seq<Seq<char>>,
    l: nat,
    level: nat,
    branch: nat,
)
    requires
        branch <= 1,
    ensures
        builder_levels(m, parents, l, level, branch) == m,
    decreases level - l,
{
    if l < level {
        lemma_builder_parents_trivial(m, parents, 0, branch);
        lemma_builder_levels_trivial(
            m,
            generation_ids(parents, 0, branch),
            (l + 1) as nat,
            level,
            branch,
        );
    }
}

/// A branch factor or depth of at most one generates nothing: both index
/// ranges of the builder are then empty.
pub proof fn lemma_build_applied_trivial(m: TreeView, branch: nat, level: nat)
    requires
        branch <= 1 || level <= 1,
    ensures
        build_applied(m, branch, level) == m,
{
    if level > 1 {
        lemma_builder_levels_trivial(m, seq![root_id()], 1, level, branch);
    }
}

/// Creates a hierarchical user tree for testing purposes: starting from the
/// admin root, `level - 1` generations are added, each parent receiving
/// children named `<parent>-<b>` for `b` in `1..branch`. Generation is
/// best-effort — any failing insertion is skipped — and the tree under
/// `certificate` becomes exactly `build_applied` of its old value; nothing
/// else in the database changes.
#[verifier::rlimit(100)]
#[verifier::spinoff_prover]
pub fn make_user_tree_test(branch: u16, level: u16, certificate: &String, database: &mut Forest)
    requires
        old(database).wf(),
    ensures
        final(database).wf(),
        old(database)@.contains_key(certificate@) ==> final(database)@ == old(database)@.insert(
            certificate@,
            build_applied(old(database)@[certificate@], branch as nat, level as nat),
        ),
        !old(database)@.contains_key(certificate@) ==> final(database)@ == old(database)@,
        branch <= 1 || level <= 1 ==> final(database)@ == old(database)@,
{
    let ghost f0 = database@;
    let ghost m0 = f0[certificate@];
    let mut parents: Vec<String> = Vec::new();
    parents.push("admin".to_owned());
    proof {
        assert(parents.deep_view() =~= seq![root_id()]);
    }
    let mut l: u16 = 1;
    while l < level
        invariant
            database.wf(),
            f0 == old(database)@,
            m0 == f0[certificate@],
            !f0.contains_key(certificate@) ==> database@ == f0,
            f0.contains_key(certificate@) ==> database@ == f0.insert(
                certificate@,
                database@[certificate@],
            ),
            f0.contains_key(certificate@) ==> builder_levels(
                database@[certificate@],
                parents.deep_view(),
                l as nat,
                level as nat,
                branch as nat,
            ) == build_applied(m0, branch as nat, level as nat),
        decreases level - l,
    {
        let ghost parents_dv = parents.deep_view();
        let mut next_parents: Vec<String> = Vec::new();
        let mut pi: usize = 0;
        while pi < parents.len()
            invariant
                database.wf(),
                f0 == old(database)@,
                m0 == f0[certificate@],
                l < level,
                pi <= parents@.len(),
                parents_dv == parents.deep_view(),
                !f0.contains_key(certificate@) ==> database@ == f0,
                f0.contains_key(certificate@) ==> database@ == f0.insert(
                    certificate@,
                    database@[certificate@],
                ),
                f0.contains_key(certificate@) ==> builder_levels(
                    builder_parents(database@[certificate@], parents_dv, pi as int, branch as nat),
                    generation_ids(parents_dv, 0, branch as nat),
                    (l + 1) as nat,
                    level as nat,
                    branch as nat,
                ) == build_applied(m0, branch as nat, level as nat),
                next_parents.deep_view() + generation_ids(parents_dv, pi as int, branch as nat)
                    == generation_ids(parents_dv, 0, branch as nat),
            decreases parents@.len() - pi,
        {
            proof {
                assert(generation_ids(parents_dv, pi as int, branch as nat) == sibling_ids(
                    parents_dv[pi as int],
                    1,
                    branch as nat,
                ) + generation_ids(parents_dv, pi as int + 1, branch as nat));
            }
            let mut b: u16 = 1;
            while b < branch
                invariant
                    database.wf(),
                    f0 == old(database)@,
                    m0 == f0[certificate@],
                    l < level,
                    pi < parents@.len(),
                    1 <= b,
                    parents_dv == parents.deep_view(),
                    !f0.contains_key(certificate@) ==> database@ == f0,
                    f0.contains_key(certificate@) ==> database@ == f0.insert(
                        certificate@,
                        database@[certificate@],
                    ),
                    f0.contains_key(certificate@) ==> builder_levels(
                        builder_parents(
                            builder_children(
                                database@[certificate@],
                                parents_dv[pi as int],
                                b as nat,
                                branch as nat,
                            ),
                            parents_dv,
                            pi as int + 1,
                            branch as nat,
                        ),
                        generation_ids(parents_dv, 0, branch as nat),
                        (l + 1) as nat,
                        level as nat,
                        branch as nat,
                    ) == build_applied(m0, branch as nat, level as nat),
                    next_parents.deep_view() + sibling_ids(
                        parents_dv[pi as int],
                        b as nat,
                        branch as nat,
                    ) + generation_ids(parents_dv, pi as int + 1, branch as nat)
                        == generation_ids(parents_dv, 0, branch as nat),
                decreases branch - b,
            {
                let ghost parent_dv = parents_dv[pi as int];
                let id = child_id(&parents[pi], b);
                let ghost fpre = database@;
                let added = add_user(&id, &parents[pi], certificate, database);
                proof {
                    assert(id@ == child_id_rep(parent_dv, b as nat));
                    if f0.contains_key(certificate@) {
                        let mpre = fpre[certificate@];
                        if added is Ok {
                            assert(builder_step(mpre, id@, parent_dv) == add_applied(
                                mpre,
                                id@,
                                parent_dv,
                            ));
                            assert(database@ =~= f0.insert(
                                certificate@,
                                add_applied(mpre, id@, parent_dv),
                            ));
                        } else {
                            assert(builder_step(mpre, id@, parent_dv) == mpre);
                        }
                        assert(builder_children(mpre, parent_dv, b as nat, branch as nat)
                            == builder_children(
                            builder_step(mpre, id@, parent_dv),
                            parent_dv,
                            (b + 1) as nat,
                            branch as nat,
                        ));
                    }
                    assert(sibling_ids(parent_dv, b as nat, branch as nat) == seq![
                        child_id_rep(parent_dv, b as nat),
                    ] + sibling_ids(parent_dv, (b + 1) as nat, branch as nat));
                }
                let ghost ndv0 = next_parents.deep_view();
                next_parents.push(id);
                proof {
                    assert(next_parents.deep_view() =~= ndv0.push(id@));
                    assert(ndv0.push(id@) + sibling_ids(parent_dv, (b + 1) as nat, branch as nat)
                        =~= ndv0 + sibling_ids(parent_dv, b as nat, branch as nat));
                }
                b = b + 1;
            }
            proof {
                assert(sibling_ids(parents_dv[pi as int], b as nat, branch as nat)
                    =~= Seq::<Seq<char>>::empty());
                if f0.contains_key(certificate@) {
                    assert(builder_children(
                        database@[certificate@],
                        parents_dv[pi as int],
                        b as nat,
                        branch as nat,
                    ) == database@[certificate@]);
                }
            }
            pi = pi + 1;
        }
        proof {
            assert(generation_ids(parents_dv, pi as int, branch as nat) =~= Seq::<
                Seq<char>,
            >::empty());
            assert(next_parents.deep_view() =~= generation_ids(parents_dv, 0, branch as nat));
            if f0.contains_key(certificate@) {
                assert(builder_parents(
                    database@[certificate@],
                    parents_dv,
                    pi as int,
                    branch as nat,
                ) == database@[certificate@]);
            }
        }
        parents = next_parents;
        l = l + 1;
    }
    proof {
        if f0.contains_key(certificate@) {
            assert(builder_levels(
                database@[certificate@],
                parents.deep_view(),
                l as nat,
                level as nat,
                branch as nat,
            ) == database@[certificate@]);
        }
        if branch <= 1 || level <= 1 {
            lemma_build_applied_trivial(m0, branch as nat, level as nat);
            if f0.contains_key(certificate@) {
                assert(f0.insert(certificate@, m0) =~= f0);
            }
        }
    }
}

/// Number of users in the tree under `certificate`, admin root included.
pub fn user_count(certificate: &String, database: &Forest) -> (r: Result<usize, TreeError>)
    requires
        database.wf(),
    ensures
        match r {
            Ok(n) => database@.contains_key(certificate@) && n as nat
                == database@[certificate@].dom().len(),
            Err(e) => e == TreeError::ResourceNotFound && !database@.contains_key(certificate@),
        },
{
    let i = match database.find_key(certificate) {
        Some(i) => i,
        None => {
            proof {
                database.lemma_absent(certificate@);
            }
            return Err(TreeError::ResourceNotFound);
        },
    };
    proof {
        database.lemma_entry(i as int);
    }
    Ok(database.trees[i].node_count())
}

} // verus!
