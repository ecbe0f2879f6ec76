use vstd::prelude::*;

verus! {

/// The mathematical record behind one user node. The node's own id is not a
/// field here: a tree is modelled as a map from id to this record.
#[verifier::ext_equal]
pub ghost struct UserView {
    /// Id of the parent node; equal to the node's own id only at the root.
    pub parent: Seq<char>,
    /// Ids of the nodes whose parent this node is, without duplicates.
    pub children: Seq<Seq<char>>,
    /// How often this node or one of its descendants has been reported.
    pub reports: u16,
    /// Whether this node has been blocked.
    pub blocked: bool,
}

/// One node of a permission tree.
pub struct User {
    pub id: String,
    pub parent: String,
    pub children: Vec<String>,
    pub reports: u16,
    pub blocked: bool,
}

impl View for User {
    type V = UserView;

    open spec fn view(&self) -> UserView {
        UserView {
            parent: self.parent@,
            children: self.children.deep_view(),
            reports: self.reports,
            blocked: self.blocked,
        }
    }
}

impl User {
    /// Creates an unblocked node under `parent` with no children and no reports.
    pub fn new(id: &str, parent: &str) -> (r: User)
        ensures
            r.id@ == id@,
            r@ == (UserView {
                parent: parent@,
                children: Seq::<Seq<char>>::empty(),
                reports: 0u16,
                blocked: false,
            }),
    {
        let r = User {
            id: id.to_owned(),
            parent: parent.to_owned(),
            children: Vec::new(),
            reports: 0,
            blocked: false,
        };
        proof {
            assert(r.children.deep_view() =~= Seq::<Seq<char>>::empty());
            assert(r@ =~= (UserView {
                parent: parent@,
                children: Seq::<Seq<char>>::empty(),
                reports: 0u16,
                blocked: false,
            }));
        }
        r
    }
}

} // verus!
