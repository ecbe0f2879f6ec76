//! A multi-tenant, tree-structured permission store: a forest of per-resource
//! trees of users, where each user's authority derives transitively from its
//! ancestors up to a self-parented admin root.

pub mod assoc;
pub mod errors;
pub mod forest;
pub mod laws;
pub mod model;
pub mod tree;
pub mod user;

pub use errors::TreeError;
pub use forest::add_user;
pub use forest::add_user_tree;
pub use forest::block_user;
pub use forest::build_database;
pub use forest::build_user_tree;
pub use forest::check_user_permission;
pub use forest::get_user_info;
pub use forest::make_user_tree_test;
pub use forest::report_user;
pub use forest::unblock_user;
pub use forest::user_count;
pub use forest::Forest;
pub use forest::ReportOutcome;
pub use tree::Tree;
pub use tree::UserInfo;
pub use user::User;
