use vstd::prelude::*;

verus! {

/// What happened to one filesystem entry between two snapshots.
#[derive(Clone, Copy, PartialEq, Eq, Structural, Debug)]
pub enum ChangeKind {
    Add,
    Delete,
    Modify,
}

/// Mathematical image of a `Change`: the affected path as a sequence of
/// name components, the kind of change, and the directory flag.
pub ghost struct ChangeModel {
    pub path: Seq<Seq<char>>,
    pub kind: ChangeKind,
    pub is_dir: bool,
}

/// One recorded difference between two snapshots: the affected path as a
/// chain of name components, what happened to it, and whether the affected
/// entry is a directory.
#[derive(PartialEq, Eq, Debug)]
pub struct Change {
    path: Vec<String>,
    kind: ChangeKind,
    is_dir: bool,
}

impl View for Change {
    type V = ChangeModel;

    closed spec fn view(&self) -> ChangeModel {
        ChangeModel { path: self.path.deep_view(), kind: self.kind, is_dir: self.is_dir }
    }
}

impl Change {
    pub fn new(path: Vec<String>, kind: ChangeKind, is_dir: bool) -> (c: Change)
        ensures
            c@ == (ChangeModel { path: path.deep_view(), kind, is_dir }),
    {
        Change { path, kind, is_dir }
    }

    pub fn path(&self) -> (p: &Vec<String>)
        ensures
            p.deep_view() == self@.path,
    {
        &self.path
    }

    pub fn kind(&self) -> (k: ChangeKind)
        ensures
            k == self@.kind,
    {
        self.kind
    }

    pub fn is_dir(&self) -> (d: bool)
        ensures
            d == self@.is_dir,
    {
        self.is_dir
    }
}

} // verus!
