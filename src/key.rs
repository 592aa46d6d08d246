use vstd::prelude::*;

verus! {

/// The mathematical form of a reconcile key: (namespace, name).
pub type KeyView = (Seq<char>, Seq<char>);

/// Identifies one primary resource instance: the unit of queuing and of
/// mutual exclusion.
pub struct ReconcileKey {
    pub namespace: String,
    pub name: String,
}

impl View for ReconcileKey {
    type V = KeyView;

    open spec fn view(&self) -> KeyView {
        (self.namespace@, self.name@)
    }
}

impl ReconcileKey {
    pub fn new(namespace: String, name: String) -> (r: Self)
        ensures
            r@ == (namespace@, name@),
    {
        ReconcileKey { namespace, name }
    }

    /// Whether two keys name the same resource.
    pub fn same(&self, other: &ReconcileKey) -> (r: bool)
        ensures
            r == (self@ == other@),
    {
        let a = self.namespace == other.namespace;
        let b = self.name == other.name;
        a && b
    }

    /// A second key equal to this one.
    pub fn duplicate(&self) -> (r: ReconcileKey)
        ensures
            r@ == self@,
    {
        ReconcileKey { namespace: self.namespace.clone(), name: self.name.clone() }
    }
}

} // verus!
