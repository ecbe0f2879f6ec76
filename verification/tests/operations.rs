use user_tree::add_user;
use user_tree::add_user_tree;
use user_tree::block_user;
use user_tree::build_database;
use user_tree::build_user_tree;
use user_tree::check_user_permission;
use user_tree::get_user_info;
use user_tree::unblock_user;
use user_tree::user_count;
use user_tree::Forest;
use user_tree::TreeError;
use user_tree::User;

fn s(x: &str) -> String {
    x.to_string()
}

fn post_db() -> Forest {
    let mut db = build_database();
    assert_eq!(add_user_tree(&s("post"), &mut db), Ok(()));
    db
}

#[test]
fn new_user_starts_clean() {
    let u = User::new("a", "b");
    assert_eq!(u.id, s("a"));
    assert_eq!(u.parent, s("b"));
    assert!(u.children.is_empty());
    assert_eq!(u.reports, 0);
    assert!(!u.blocked);
}

#[test]
fn fresh_tree_is_empty_until_seeded() {
    let t = build_user_tree();
    assert_eq!(t.users.len(), 0);
}

#[test]
fn fresh_database_has_admin_root_per_tree() {
    let db = post_db();
    assert_eq!(user_count(&s("post"), &db), Ok(1));
    assert_eq!(check_user_permission(&s("admin"), &s("post"), &db), Ok(true));
    let admin = get_user_info(&s("admin"), &s("post"), &db).ok().unwrap();
    assert_eq!(admin.parent, s("admin"));
    assert!(admin.children.is_empty());
    assert_eq!(admin.report_count, 0);
    assert!(!admin.blocked);
}

#[test]
fn trees_are_independent() {
    let mut db = post_db();
    assert_eq!(add_user_tree(&s("comment"), &mut db), Ok(()));
    assert_eq!(add_user(&s("x"), &s("admin"), &s("post"), &mut db), Ok(()));
    assert_eq!(
        check_user_permission(&s("x"), &s("comment"), &db),
        Err(TreeError::UserNotFound)
    );
    assert_eq!(user_count(&s("comment"), &db), Ok(1));
    assert_eq!(user_count(&s("post"), &db), Ok(2));
}

#[test]
fn add_updates_parent_child_edges() {
    let mut db = post_db();
    assert_eq!(add_user(&s("x"), &s("admin"), &s("post"), &mut db), Ok(()));
    assert_eq!(add_user(&s("y"), &s("x"), &s("post"), &mut db), Ok(()));
    let admin = get_user_info(&s("admin"), &s("post"), &db).ok().unwrap();
    assert!(admin.children.iter().any(|c| c == "x"));
    assert!(!admin.children.iter().any(|c| c == "y"));
    let x = get_user_info(&s("x"), &s("post"), &db).ok().unwrap();
    assert_eq!(x.parent, s("admin"));
    assert!(x.children.iter().any(|c| c == "y"));
    let y = get_user_info(&s("y"), &s("post"), &db).ok().unwrap();
    assert_eq!(y.parent, s("x"));
    assert!(y.children.is_empty());
}

#[test]
fn self_block_succeeds_for_unblocked_user() {
    let mut db = post_db();
    assert_eq!(add_user(&s("u"), &s("admin"), &s("post"), &mut db), Ok(()));
    assert_eq!(block_user(&s("u"), &s("u"), &s("post"), &mut db), Ok(()));
    assert_eq!(check_user_permission(&s("u"), &s("post"), &db), Ok(false));
    let u = get_user_info(&s("u"), &s("post"), &db).ok().unwrap();
    assert!(u.blocked);
    // blocking touches no edges
    assert_eq!(u.parent, s("admin"));
}

#[test]
fn block_by_unrelated_user_is_rejected() {
    let mut db = post_db();
    assert_eq!(add_user(&s("u"), &s("admin"), &s("post"), &mut db), Ok(()));
    assert_eq!(add_user(&s("v"), &s("admin"), &s("post"), &mut db), Ok(()));
    assert_eq!(
        block_user(&s("u"), &s("v"), &s("post"), &mut db),
        Err(TreeError::NotAuthorizedToBlock)
    );
    assert_eq!(check_user_permission(&s("u"), &s("post"), &db), Ok(true));
}

#[test]
fn blocked_ancestor_revokes_whole_subtree() {
    let mut db = post_db();
    assert_eq!(add_user(&s("a"), &s("admin"), &s("post"), &mut db), Ok(()));
    assert_eq!(add_user(&s("b"), &s("a"), &s("post"), &mut db), Ok(()));
    assert_eq!(add_user(&s("c"), &s("b"), &s("post"), &mut db), Ok(()));
    assert_eq!(block_user(&s("a"), &s("admin"), &s("post"), &mut db), Ok(()));
    assert_eq!(check_user_permission(&s("c"), &s("post"), &db), Ok(false));
    assert_eq!(check_user_permission(&s("b"), &s("post"), &db), Ok(false));
    // the blocked node's flag sits only on itself
    let b = get_user_info(&s("b"), &s("post"), &db).ok().unwrap();
    assert!(!b.blocked);
}

#[test]
fn unblock_reparents_between_child_lists() {
    let mut db = post_db();
    assert_eq!(add_user(&s("a"), &s("admin"), &s("post"), &mut db), Ok(()));
    assert_eq!(add_user(&s("b"), &s("admin"), &s("post"), &mut db), Ok(()));
    assert_eq!(add_user(&s("c"), &s("a"), &s("post"), &mut db), Ok(()));
    assert_eq!(block_user(&s("c"), &s("a"), &s("post"), &mut db), Ok(()));
    assert_eq!(unblock_user(&s("c"), &s("b"), &s("post"), &mut db), Ok(()));
    assert_eq!(check_user_permission(&s("c"), &s("post"), &db), Ok(true));
    let c = get_user_info(&s("c"), &s("post"), &db).ok().unwrap();
    assert_eq!(c.parent, s("b"));
    assert!(!c.blocked);
    let a = get_user_info(&s("a"), &s("post"), &db).ok().unwrap();
    assert!(!a.children.iter().any(|ch| ch == "c"));
    let b = get_user_info(&s("b"), &s("post"), &db).ok().unwrap();
    assert!(b.children.iter().any(|ch| ch == "c"));
}

#[test]
fn unblock_carries_subtree_back_to_permission() {
    let mut db = post_db();
    assert_eq!(add_user(&s("a"), &s("admin"), &s("post"), &mut db), Ok(()));
    assert_eq!(add_user(&s("b"), &s("a"), &s("post"), &mut db), Ok(()));
    assert_eq!(block_user(&s("a"), &s("admin"), &s("post"), &mut db), Ok(()));
    assert_eq!(check_user_permission(&s("b"), &s("post"), &db), Ok(false));
    assert_eq!(
        unblock_user(&s("a"), &s("admin"), &s("post"), &mut db),
        Ok(())
    );
    assert_eq!(check_user_permission(&s("b"), &s("post"), &db), Ok(true));
}

#[test]
fn blocking_the_root_locks_the_whole_tree() {
    let mut db = post_db();
    assert_eq!(add_user(&s("x"), &s("admin"), &s("post"), &mut db), Ok(()));
    assert_eq!(
        block_user(&s("admin"), &s("admin"), &s("post"), &mut db),
        Ok(())
    );
    assert_eq!(check_user_permission(&s("admin"), &s("post"), &db), Ok(false));
    assert_eq!(check_user_permission(&s("x"), &s("post"), &db), Ok(false));
    // with nobody permitted, nobody can unblock
    assert_eq!(
        unblock_user(&s("admin"), &s("x"), &s("post"), &mut db),
        Err(TreeError::UnblockerNotPermitted)
    );
}

#[test]
fn builder_without_certificate_changes_nothing() {
    let mut db = post_db();
    user_tree::make_user_tree_test(4, 4, &s("missing"), &mut db);
    assert_eq!(user_count(&s("post"), &db), Ok(1));
    assert_eq!(
        user_count(&s("missing"), &db),
        Err(TreeError::ResourceNotFound)
    );
}

#[test]
fn builder_with_trivial_parameters_changes_nothing() {
    let mut db = post_db();
    user_tree::make_user_tree_test(1, 5, &s("post"), &mut db);
    assert_eq!(user_count(&s("post"), &db), Ok(1));
    user_tree::make_user_tree_test(5, 1, &s("post"), &mut db);
    assert_eq!(user_count(&s("post"), &db), Ok(1));
    user_tree::make_user_tree_test(0, 0, &s("post"), &mut db);
    assert_eq!(user_count(&s("post"), &db), Ok(1));
}

#[test]
fn failed_add_leaves_database_unchanged() {
    let mut db = post_db();
    assert_eq!(add_user(&s("x"), &s("admin"), &s("post"), &mut db), Ok(()));
    assert_eq!(block_user(&s("x"), &s("x"), &s("post"), &mut db), Ok(()));
    assert_eq!(
        add_user(&s("y"), &s("x"), &s("post"), &mut db),
        Err(TreeError::ParentNotPermitted)
    );
    assert_eq!(user_count(&s("post"), &db), Ok(2));
    assert_eq!(
        check_user_permission(&s("y"), &s("post"), &db),
        Err(TreeError::UserNotFound)
    );
    let x = get_user_info(&s("x"), &s("post"), &db).ok().unwrap();
    assert!(x.children.is_empty());
}
