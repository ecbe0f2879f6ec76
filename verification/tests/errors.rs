use user_tree::add_user;
use user_tree::add_user_tree;
use user_tree::block_user;
use user_tree::build_database;
use user_tree::check_user_permission;
use user_tree::get_user_info;
use user_tree::report_user;
use user_tree::unblock_user;
use user_tree::user_count;
use user_tree::Forest;
use user_tree::ReportOutcome;
use user_tree::TreeError;

fn s(x: &str) -> String {
    x.to_string()
}

fn post_db() -> Forest {
    let mut db = build_database();
    assert_eq!(add_user_tree(&s("post"), &mut db), Ok(()));
    db
}

#[test]
fn missing_certificate_is_resource_not_found() {
    let mut db = post_db();
    assert_eq!(
        check_user_permission(&s("admin"), &s("jack"), &db),
        Err(TreeError::ResourceNotFound)
    );
    assert_eq!(
        add_user(&s("x"), &s("admin"), &s("jack"), &mut db),
        Err(TreeError::ResourceNotFound)
    );
    assert_eq!(
        report_user(&s("x"), &s("jack"), &mut db),
        Err(TreeError::ResourceNotFound)
    );
    assert_eq!(
        block_user(&s("x"), &s("x"), &s("jack"), &mut db),
        Err(TreeError::ResourceNotFound)
    );
    assert_eq!(
        unblock_user(&s("x"), &s("admin"), &s("jack"), &mut db),
        Err(TreeError::ResourceNotFound)
    );
    assert!(user_count(&s("jack"), &db) == Err(TreeError::ResourceNotFound));
    match get_user_info(&s("x"), &s("jack"), &db) {
        Err(e) => assert_eq!(e, TreeError::ResourceNotFound),
        Ok(_) => panic!("lookup in a missing tree must fail"),
    }
}

#[test]
fn duplicate_certificate_is_rejected() {
    let mut db = post_db();
    assert_eq!(
        add_user_tree(&s("post"), &mut db),
        Err(TreeError::AlreadyExists)
    );
    assert_eq!(user_count(&s("post"), &db), Ok(1));
}

#[test]
fn missing_user_is_user_not_found() {
    let db = post_db();
    assert_eq!(
        check_user_permission(&s("nobody"), &s("post"), &db),
        Err(TreeError::UserNotFound)
    );
    match get_user_info(&s("nobody"), &s("post"), &db) {
        Err(e) => assert_eq!(e, TreeError::UserNotFound),
        Ok(_) => panic!("lookup of a missing user must fail"),
    }
}

#[test]
fn missing_parent_is_user_not_found() {
    let mut db = post_db();
    assert_eq!(
        add_user(&s("hassan-1"), &s("hassan"), &s("post"), &mut db),
        Err(TreeError::UserNotFound)
    );
}

#[test]
fn duplicate_user_is_rejected() {
    let mut db = post_db();
    assert_eq!(add_user(&s("x"), &s("admin"), &s("post"), &mut db), Ok(()));
    assert_eq!(
        add_user(&s("x"), &s("admin"), &s("post"), &mut db),
        Err(TreeError::UserAlreadyExists)
    );
    assert_eq!(user_count(&s("post"), &db), Ok(2));
}

#[test]
fn double_block_is_rejected() {
    let mut db = post_db();
    assert_eq!(add_user(&s("u"), &s("admin"), &s("post"), &mut db), Ok(()));
    assert_eq!(block_user(&s("u"), &s("u"), &s("post"), &mut db), Ok(()));
    assert_eq!(
        block_user(&s("u"), &s("u"), &s("post"), &mut db),
        Err(TreeError::AlreadyBlocked)
    );
}

#[test]
fn blocking_missing_user_is_user_not_found() {
    let mut db = post_db();
    assert_eq!(
        block_user(&s("ghost"), &s("ghost"), &s("post"), &mut db),
        Err(TreeError::UserNotFound)
    );
}

#[test]
fn unpermitted_unblocker_is_rejected() {
    let mut db = post_db();
    assert_eq!(add_user(&s("u"), &s("admin"), &s("post"), &mut db), Ok(()));
    assert_eq!(add_user(&s("v"), &s("admin"), &s("post"), &mut db), Ok(()));
    assert_eq!(block_user(&s("u"), &s("u"), &s("post"), &mut db), Ok(()));
    assert_eq!(block_user(&s("v"), &s("v"), &s("post"), &mut db), Ok(()));
    assert_eq!(
        unblock_user(&s("u"), &s("v"), &s("post"), &mut db),
        Err(TreeError::UnblockerNotPermitted)
    );
}

#[test]
fn unblocking_a_permitted_user_is_rejected() {
    let mut db = post_db();
    assert_eq!(add_user(&s("u"), &s("admin"), &s("post"), &mut db), Ok(()));
    assert_eq!(
        unblock_user(&s("u"), &s("admin"), &s("post"), &mut db),
        Err(TreeError::UserAlreadyPermitted)
    );
}

#[test]
fn unblocking_with_missing_ids_is_user_not_found() {
    let mut db = post_db();
    assert_eq!(add_user(&s("u"), &s("admin"), &s("post"), &mut db), Ok(()));
    assert_eq!(block_user(&s("u"), &s("u"), &s("post"), &mut db), Ok(()));
    // the unblocker is looked up first, through the permission evaluator
    assert_eq!(
        unblock_user(&s("u"), &s("ghost"), &s("post"), &mut db),
        Err(TreeError::UserNotFound)
    );
    assert_eq!(
        unblock_user(&s("ghost"), &s("admin"), &s("post"), &mut db),
        Err(TreeError::UserNotFound)
    );
}

#[test]
fn reporting_missing_user_is_interrupted_not_fatal() {
    let mut db = post_db();
    assert_eq!(
        report_user(&s("ghost"), &s("post"), &mut db),
        Ok(ReportOutcome::Interrupted)
    );
    let admin = get_user_info(&s("admin"), &s("post"), &db).ok().unwrap();
    assert_eq!(admin.report_count, 0);
}

#[test]
fn report_counter_saturates_at_ceiling() {
    let mut db = post_db();
    for _ in 0..70000 {
        assert_eq!(
            report_user(&s("admin"), &s("post"), &mut db),
            Ok(ReportOutcome::Complete)
        );
    }
    let admin = get_user_info(&s("admin"), &s("post"), &db).ok().unwrap();
    assert_eq!(admin.report_count, u16::MAX);
}
