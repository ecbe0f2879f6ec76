use user_tree::add_user;
use user_tree::add_user_tree;
use user_tree::block_user;
use user_tree::build_database;
use user_tree::check_user_permission;
use user_tree::get_user_info;
use user_tree::make_user_tree_test;
use user_tree::report_user;
use user_tree::unblock_user;
use user_tree::user_count;
use user_tree::Forest;
use user_tree::ReportOutcome;
use user_tree::TreeError;

fn s(x: &str) -> String {
    x.to_string()
}

/// A database with one tree under "post" and the user "x" under the root.
fn post_with_x() -> Forest {
    let mut db = build_database();
    assert_eq!(add_user_tree(&s("post"), &mut db), Ok(()));
    assert_eq!(add_user(&s("x"), &s("admin"), &s("post"), &mut db), Ok(()));
    db
}

#[test]
fn scenario_add_under_admin_grants_permission() {
    let db = post_with_x();
    assert_eq!(check_user_permission(&s("x"), &s("post"), &db), Ok(true));
}

#[test]
fn scenario_self_parent_is_rejected() {
    let mut db = build_database();
    assert_eq!(add_user_tree(&s("post"), &mut db), Ok(()));
    assert_eq!(
        add_user(&s("x"), &s("x"), &s("post"), &mut db),
        Err(TreeError::InvalidSelfParent)
    );
}

#[test]
fn scenario_block_by_parent_revokes_and_rejects_children() {
    let mut db = post_with_x();
    assert_eq!(block_user(&s("x"), &s("admin"), &s("post"), &mut db), Ok(()));
    assert_eq!(check_user_permission(&s("x"), &s("post"), &db), Ok(false));
    assert_eq!(
        add_user(&s("y"), &s("x"), &s("post"), &mut db),
        Err(TreeError::ParentNotPermitted)
    );
}

#[test]
fn scenario_unblock_restores_permission_transitively() {
    let mut db = post_with_x();
    assert_eq!(block_user(&s("x"), &s("admin"), &s("post"), &mut db), Ok(()));
    assert_eq!(check_user_permission(&s("x"), &s("post"), &db), Ok(false));
    assert_eq!(
        unblock_user(&s("x"), &s("admin"), &s("post"), &mut db),
        Ok(())
    );
    assert_eq!(check_user_permission(&s("x"), &s("post"), &db), Ok(true));
    // a descendant added afterwards inherits permission through "x"
    assert_eq!(add_user(&s("d"), &s("x"), &s("post"), &mut db), Ok(()));
    assert_eq!(check_user_permission(&s("d"), &s("post"), &db), Ok(true));
}

#[test]
fn scenario_reports_propagate_to_ancestors() {
    let mut db = post_with_x();
    assert_eq!(add_user(&s("cx"), &s("x"), &s("post"), &mut db), Ok(()));
    assert_eq!(
        report_user(&s("x"), &s("post"), &mut db),
        Ok(ReportOutcome::Complete)
    );
    assert_eq!(
        report_user(&s("x"), &s("post"), &mut db),
        Ok(ReportOutcome::Complete)
    );
    assert_eq!(
        report_user(&s("cx"), &s("post"), &mut db),
        Ok(ReportOutcome::Complete)
    );
    let x = get_user_info(&s("x"), &s("post"), &db).ok().unwrap();
    assert_eq!(x.report_count, 3);
    let cx = get_user_info(&s("cx"), &s("post"), &db).ok().unwrap();
    assert_eq!(cx.report_count, 1);
    let admin = get_user_info(&s("admin"), &s("post"), &db).ok().unwrap();
    assert_eq!(admin.report_count, 3);
}

#[test]
fn scenario_test_tree_has_expected_size() {
    let mut db = build_database();
    assert_eq!(add_user_tree(&s("post"), &mut db), Ok(()));
    make_user_tree_test(6, 6, &s("post"), &mut db);
    // 5 + 25 + 125 + 625 + 3125 non-root nodes, plus the admin root
    assert_eq!(user_count(&s("post"), &db), Ok(3906));
}

#[test]
fn scenario_test_tree_nodes_are_permitted() {
    let mut db = build_database();
    assert_eq!(add_user_tree(&s("post"), &mut db), Ok(()));
    make_user_tree_test(3, 3, &s("post"), &mut db);
    assert_eq!(user_count(&s("post"), &db), Ok(7));
    assert_eq!(
        check_user_permission(&s("admin-1-2"), &s("post"), &db),
        Ok(true)
    );
    let admin = get_user_info(&s("admin"), &s("post"), &db).ok().unwrap();
    assert!(admin.children.iter().any(|c| c == "admin-1"));
    assert!(admin.children.iter().any(|c| c == "admin-2"));
    let a1 = get_user_info(&s("admin-1"), &s("post"), &db).ok().unwrap();
    assert_eq!(a1.parent, s("admin"));
    assert!(a1.children.iter().any(|c| c == "admin-1-1"));
}
