pub mod change;
pub mod props;

use vstd::prelude::*;

use crate::fstree::change::{Change, ChangeKind, ChangeModel};

verus! {

/// The raw metadata fields of one filesystem entry, as the platform reports
/// them from a single stat-like call. The caller fills this in; everything
/// derived from it is computed here.
pub struct RawMetadata {
    pub ctime_sec: i64,
    pub ctime_nsec: i64,
    pub mtime_sec: i64,
    pub mtime_nsec: i64,
    pub dev: u64,
    pub inode: u64,
    pub size: u64,
}

/// The low 32 bits of `val`.
pub open spec fn spec_lower32(val: i64) -> u32 {
    (val & 0xFFFF_FFFFi64) as u32
}

/// Truncate a timestamp field to its low 32 bits.
pub fn lower32(val: i64) -> (r: u32)
    ensures
        r == spec_lower32(val),
{
    assert(0 <= (val & 0xFFFF_FFFFi64) <= 0xFFFF_FFFFi64) by (bit_vector);
    (val & 0xFFFF_FFFFi64) as u32
}

/// A timestamp truncated to the lower 32 bits of its seconds and
/// nanoseconds parts.
#[derive(Clone, Copy, PartialEq, Eq, Structural, Debug)]
pub struct NodeTime {
    pub sec: u32,
    pub nsec: u32,
}

impl NodeTime {
    /// The truncated inode-change time of `data`.
    pub fn ctime(data: &RawMetadata) -> (t: NodeTime)
        ensures
            t == (NodeTime {
                sec: spec_lower32(data.ctime_sec),
                nsec: spec_lower32(data.ctime_nsec),
            }),
    {
        NodeTime { sec: lower32(data.ctime_sec), nsec: lower32(data.ctime_nsec) }
    }

    /// The truncated content-modification time of `data`.
    pub fn mtime(data: &RawMetadata) -> (t: NodeTime)
        ensures
            t == (NodeTime {
                sec: spec_lower32(data.mtime_sec),
                nsec: spec_lower32(data.mtime_nsec),
            }),
    {
        NodeTime { sec: lower32(data.mtime_sec), nsec: lower32(data.mtime_nsec) }
    }
}

/// The fingerprint used to decide whether a file or directory has changed:
/// truncated change and modification times, device, inode and size. A
/// directory is considered changed when the metadata of the directory entry
/// itself changed. This mirrors the stat-based dirty check of
/// version-control index formats.
#[derive(Clone, Copy, PartialEq, Eq, Structural, Debug)]
pub struct NodeMetadata {
    pub ctime: NodeTime,
    pub mtime: NodeTime,
    pub dev: u64,
    pub inode: u64,
    pub size: u64,
}

impl NodeMetadata {
    /// Build the fingerprint of one entry from its raw metadata record.
    pub fn new(data: &RawMetadata) -> (m: NodeMetadata)
        ensures
            m == (NodeMetadata {
                ctime: NodeTime {
                    sec: spec_lower32(data.ctime_sec),
                    nsec: spec_lower32(data.ctime_nsec),
                },
                mtime: NodeTime {
                    sec: spec_lower32(data.mtime_sec),
                    nsec: spec_lower32(data.mtime_nsec),
                },
                dev: data.dev,
                inode: data.inode,
                size: data.size,
            }),
    {
        NodeMetadata {
            ctime: NodeTime::ctime(data),
            mtime: NodeTime::mtime(data),
            dev: data.dev,
            inode: data.inode,
            size: data.size,
        }
    }
}

/// One filesystem entry in a snapshot: its own name (one path component,
/// not a full path), its fingerprint, whether it is a directory, and its
/// children. Children are keyed by name: a well-formed node never holds two
/// children of the same name, and a file holds none.
pub struct Node {
    pub name: String,
    pub children: Vec<Node>,
    pub is_dir: bool,
    pub metadata: NodeMetadata,
}

impl Node {
    /// Well-formedness of a node produced by a scan: a file has no
    /// children, child names are unique, and every child is itself
    /// well-formed.
    pub open spec fn wf(self) -> bool
        decreases self,
    {
        &&& (!self.is_dir ==> self.children@.len() == 0)
        &&& (forall|i: int, j: int|
            0 <= i < j < self.children@.len()
                ==> #[trigger] self.children@[i].name@ != #[trigger] self.children@[j].name@)
        &&& (forall|i: int| #![trigger self.children@[i]]
            0 <= i < self.children@.len() ==> self.children@[i].wf())
    }

    /// Whether some child carries the name `name`.
    pub open spec fn has_child(self, name: Seq<char>) -> bool {
        exists|i: int| 0 <= i < self.children@.len() && #[trigger] self.children@[i].name@ == name
    }

    /// The index of the child named `name` (meaningful when `has_child`
    /// holds; under `wf` that index is unique).
    pub open spec fn child_index(self, name: Seq<char>) -> int {
        choose|i: int| 0 <= i < self.children@.len() && #[trigger] self.children@[i].name@ == name
    }

    /// The child named `name`.
    pub open spec fn child(self, name: Seq<char>) -> Node {
        self.children@[self.child_index(name)]
    }

    /// In a well-formed node, any index whose child carries `name` is the
    /// index that `child_index` denotes.
    pub proof fn lemma_child_at(self, name: Seq<char>, j: int)
        requires
            self.wf(),
            0 <= j < self.children@.len(),
            self.children@[j].name@ == name,
        ensures
            self.has_child(name),
            self.child_index(name) == j,
            self.child(name) == self.children@[j],
    {
        assert(self.has_child(name));
        let i = self.child_index(name);
        if i != j {
            if i < j {
                assert(self.children@[i].name@ != self.children@[j].name@);
            } else {
                assert(self.children@[j].name@ != self.children@[i].name@);
            }
        }
    }

    /// A fresh file node: no children.
    pub fn new_file(name: String, metadata: NodeMetadata) -> (n: Node)
        ensures
            n.wf(),
            !n.is_dir,
            n.name@ == name@,
            n.metadata == metadata,
            n.children@.len() == 0,
    {
        Node { name, children: Vec::new(), is_dir: false, metadata }
    }

    /// A fresh directory node with no children yet.
    pub fn new_dir(name: String, metadata: NodeMetadata) -> (n: Node)
        ensures
            n.wf(),
            n.is_dir,
            n.name@ == name@,
            n.metadata == metadata,
            n.children@.len() == 0,
    {
        Node { name, children: Vec::new(), is_dir: true, metadata }
    }

    /// The index of the child named `name`, searched by linear scan.
    fn find_child(&self, name: &String) -> (r: Option<usize>)
        ensures
            match r {
                Some(j) => {
                    &&& 0 <= j < self.children@.len()
                    &&& self.children@[j as int].name@ == name@
                    &&& self.has_child(name@)
                },
                None => !self.has_child(name@),
            },
    {
        let mut k: usize = 0;
        while k < self.children.len()
            invariant
                0 <= k <= self.children@.len(),
                forall|i: int| 0 <= i < k ==> #[trigger] self.children@[i].name@ != name@,
            decreases self.children@.len() - k,
        {
            if self.children[k].name == *name {
                return Some(k);
            }
            k = k + 1;
        }
        None
    }

    /// Whether this node holds a child of the given name.
    pub fn contains_child(&self, name: &String) -> (b: bool)
        ensures
            b == self.has_child(name@),
    {
        self.find_child(name).is_some()
    }

    /// Insert `child` under this directory, keyed by its name. Returns
    /// false, leaving the node unchanged, if a child of that name is
    /// already present: names stay unique, whatever order entries arrive
    /// in.
    pub fn add_child(&mut self, child: Node) -> (ok: bool)
        requires
            old(self).wf(),
            old(self).is_dir,
            child.wf(),
        ensures
            final(self).wf(),
            final(self).is_dir == old(self).is_dir,
            final(self).name@ == old(self).name@,
            final(self).metadata == old(self).metadata,
            ok == !old(self).has_child(child.name@),
            ok ==> final(self).children@ == old(self).children@.push(child),
            !ok ==> *final(self) == *old(self),
    {
        if self.contains_child(&child.name) {
            return false;
        }
        let ghost pre = *self;
        self.children.push(child);
        assert forall|i: int, j: int| 0 <= i < j < self.children@.len()
            implies #[trigger] self.children@[i].name@ != #[trigger] self.children@[j].name@ by {
            if j == self.children@.len() - 1 {
                assert(!pre.has_child(child.name@));
                assert(pre.children@[i].name@ != child.name@);
            }
        }
        true
    }
}

/// A `Delete` record at `path`.
pub open spec fn delete_model(path: Seq<Seq<char>>, is_dir: bool) -> ChangeModel {
    ChangeModel { path, kind: ChangeKind::Delete, is_dir }
}

/// An `Add` record at `path`.
pub open spec fn add_model(path: Seq<Seq<char>>, is_dir: bool) -> ChangeModel {
    ChangeModel { path, kind: ChangeKind::Add, is_dir }
}

/// A `Modify` record at `path`; modification is only ever recorded for
/// files, so the directory flag is false.
pub open spec fn modify_model(path: Seq<Seq<char>>) -> ChangeModel {
    ChangeModel { path, kind: ChangeKind::Modify, is_dir: false }
}

/// The image of an executable change list.
pub open spec fn change_models(s: Seq<Change>) -> Seq<ChangeModel> {
    s.map_values(|c: Change| c@)
}

/// The change list that turns the subtree of `old` into the subtree of
/// `new`, both directory nodes of the same name rooted at `path`. When the
/// two fingerprints are equal the subtree counts as unchanged and nothing
/// is reported; otherwise children of `old` are handled in order (deletes,
/// recursion, type changes, modifications), followed by one `Add` per
/// child only `new` has.
pub open spec fn spec_diff(old: Node, new: Node, path: Seq<Seq<char>>) -> Seq<ChangeModel>
    decreases old, 2int, 0int,
{
    if old.metadata == new.metadata {
        Seq::empty()
    } else {
        spec_diff_olds(old, new, path, 0) + spec_diff_adds(new, old, path, 0)
    }
}

/// The changes contributed by the children of `old` from index `i` on.
pub open spec fn spec_diff_olds(old: Node, new: Node, path: Seq<Seq<char>>, i: int) -> Seq<
    ChangeModel,
>
    decreases old, 1int, old.children@.len() - i,
{
    if i < 0 || i >= old.children@.len() {
        Seq::empty()
    } else {
        spec_entry_diff(old.children@[i], new, path) + spec_diff_olds(old, new, path, i + 1)
    }
}

/// The changes contributed by one child `c` of the older node, against the
/// newer node `new`, with `path` the path of the directory both are in:
/// a `Delete` if `new` lacks the name; recursion if both sides are
/// directories; `Delete` plus `Add` on a type change; one `Modify` if two
/// files differ in fingerprint; nothing otherwise.
pub open spec fn spec_entry_diff(c: Node, new: Node, path: Seq<Seq<char>>) -> Seq<ChangeModel>
    decreases c, 3int, 0int,
{
    let p = path.push(c.name@);
    if !new.has_child(c.name@) {
        seq![delete_model(p, c.is_dir)]
    } else {
        let d = new.child(c.name@);
        if c.is_dir && d.is_dir {
            spec_diff(c, d, p)
        } else if c.is_dir != d.is_dir {
            seq![delete_model(p, c.is_dir), add_model(p, d.is_dir)]
        } else if c.metadata != d.metadata {
            seq![modify_model(p)]
        } else {
            Seq::empty()
        }
    }
}

/// One `Add` per child of `new`, from index `i` on, whose name `old` does
/// not have.
pub open spec fn spec_diff_adds(new: Node, old: Node, path: Seq<Seq<char>>, i: int) -> Seq<
    ChangeModel,
>
    decreases new.children@.len() - i,
{
    if i < 0 || i >= new.children@.len() {
        Seq::empty()
    } else {
        let c = new.children@[i];
        let rest = spec_diff_adds(new, old, path, i + 1);
        if old.has_child(c.name@) {
            rest
        } else {
            seq![add_model(path.push(c.name@), c.is_dir)] + rest
        }
    }
}

/// Concatenating change lists concatenates their images.
proof fn lemma_models_add(a: Seq<Change>, b: Seq<Change>)
    ensures
        change_models(a + b) == change_models(a) + change_models(b),
{
    assert(change_models(a + b) =~= change_models(a) + change_models(b));
}

/// Appending one change appends its image.
proof fn lemma_models_push(a: Seq<Change>, c: Change)
    ensures
        change_models(a.push(c)) == change_models(a).push(c@),
{
    assert(change_models(a.push(c)) =~= change_models(a).push(c@));
}

/// Copy a path; the copy reads component for component as the original.
fn clone_path(p: &Vec<String>) -> (r: Vec<String>)
    ensures
        r.deep_view() == p.deep_view(),
{
    let r = p.clone();
    proof {
        assert forall|i: int| 0 <= i < p@.len() implies r@[i] == p@[i] by {
            assert(cloned::<String>(p@[i], r@[i]));
        }
        assert(r@ =~= p@);
    }
    r
}

/// Whether one of the first `i` children of `node` carries the name
/// `name`.
spec fn matched_upto(node: Node, name: Seq<char>, i: int) -> bool {
    exists|k: int| 0 <= k < i && #[trigger] node.children@[k].name@ == name
}

impl Node {
    /// Compute the changes that turn this (older) directory's subtree into
    /// `other`'s (newer), both directory nodes of one name. `path` is the
    /// path of the directory both nodes live in; it is used as scratch
    /// space and comes back as it was. Renames are not detected: a moved
    /// entry surfaces as one `Delete` and one `Add`.
    pub fn difference(&self, other: &Node, path: &mut Vec<String>) -> (changes: Vec<Change>)
        requires
            self.wf(),
            other.wf(),
            self.name@ == other.name@,
            self.is_dir,
            other.is_dir,
        ensures
            change_models(changes@) == spec_diff(*self, *other, old(path).deep_view()),
            final(path).deep_view() == old(path).deep_view(),
        decreases *self,
    {
        let ghost path0 = old(path).deep_view();

        if self.metadata == other.metadata {
            let changes: Vec<Change> = Vec::new();
            proof {
                assert(change_models(changes@) =~= spec_diff(*self, *other, path0));
            }
            return changes;
        }

        let mut visited: Vec<bool> = Vec::new();
        let mut j: usize = 0;
        while j < other.children.len()
            invariant
                j <= other.children@.len(),
                visited@.len() == j,
                forall|q: int| 0 <= q < j ==> !(#[trigger] visited@[q]),
            decreases other.children@.len() - j,
        {
            visited.push(false);
            j = j + 1;
        }

        let mut changes: Vec<Change> = Vec::new();
        let mut i: usize = 0;
        while i < self.children.len()
            invariant
                self.wf(),
                other.wf(),
                i <= self.children@.len(),
                visited@.len() == other.children@.len(),
                forall|q: int| 0 <= q < visited@.len()
                    ==> #[trigger] visited@[q] == matched_upto(
                        *self,
                        other.children@[q].name@,
                        i as int,
                    ),
                path.deep_view() == path0,
                change_models(changes@) + spec_diff_olds(*self, *other, path0, i as int)
                    == spec_diff_olds(*self, *other, path0, 0),
            decreases self.children@.len() - i,
        {
            let ghost pre_changes = changes@;
            let ghost pre_visited = visited@;
            let node = &self.children[i];
            proof {
                assert(self.wf());
                assert(forall|q: int|
                    0 <= q < self.children@.len() ==> #[trigger] self.children@[q].wf());
                assert(self.children@[i as int].wf());
            }
            path.push(node.name.clone());
            proof {
                assert(path.deep_view() =~= path0.push(node.name@));
            }
            let found = other.find_child(&node.name);
            match found {
                Some(jj) => {
                    let other_node = &other.children[jj];
                    proof {
                        other.lemma_child_at(node.name@, jj as int);
                        assert(other.children@[jj as int].wf());
                    }
                    if node.is_dir && other_node.is_dir {
                        let mut child_changes = node.difference(other_node, path);
                        proof {
                            lemma_models_add(changes@, child_changes@);
                        }
                        changes.append(&mut child_changes);
                    } else if node.is_dir != other_node.is_dir {
                        let del = Change::new(clone_path(path), ChangeKind::Delete, node.is_dir);
                        proof {
                            lemma_models_push(changes@, del);
                        }
                        changes.push(del);
                        let add = Change::new(clone_path(path), ChangeKind::Add, other_node.is_dir);
                        proof {
                            lemma_models_push(changes@, add);
                        }
                        changes.push(add);
                    } else if node.metadata != other_node.metadata {
                        let m = Change::new(clone_path(path), ChangeKind::Modify, false);
                        proof {
                            lemma_models_push(changes@, m);
                        }
                        changes.push(m);
                    }
                    visited[jj] = true;
                }
                None => {
                    let del = Change::new(clone_path(path), ChangeKind::Delete, node.is_dir);
                    proof {
                        lemma_models_push(changes@, del);
                    }
                    changes.push(del);
                }
            }
            let ghost pre_pop = *path;
            path.pop();
            proof {
                assert(pre_pop.deep_view() == path0.push(node.name@));
                assert forall|q: int| 0 <= q < path.deep_view().len() implies path.deep_view()[q]
                    == path0[q] by {
                    assert(path@[q] == pre_pop@[q]);
                    assert(pre_pop.deep_view()[q] == path0.push(node.name@)[q]);
                }
                assert(path.deep_view() =~= path0);
                let c = self.children@[i as int];
                let entry = spec_entry_diff(c, *other, path0);
                assert(change_models(changes@) =~= change_models(pre_changes) + entry);
                assert(change_models(pre_changes) + entry + spec_diff_olds(
                    *self,
                    *other,
                    path0,
                    i + 1,
                ) =~= change_models(pre_changes) + (entry + spec_diff_olds(
                    *self,
                    *other,
                    path0,
                    i + 1,
                )));
                assert(spec_diff_olds(*self, *other, path0, i as int) == entry + spec_diff_olds(
                    *self,
                    *other,
                    path0,
                    i + 1,
                ));
                assert forall|q: int| 0 <= q < visited@.len() implies #[trigger] visited@[q]
                    == matched_upto(*self, other.children@[q].name@, i + 1) by {
                    let nm = other.children@[q].name@;
                    if visited@[q] {
                        if pre_visited[q] {
                            let k = choose|k: int| 0 <= k < i && #[trigger] self.children@[k].name@
                                == nm;
                            assert(self.children@[k].name@ == nm);
                        } else {
                            assert(c.name@ == nm);
                            assert(self.children@[i as int].name@ == nm);
                        }
                    } else {
                        assert(!matched_upto(*self, nm, i as int));
                        if self.children@[i as int].name@ == nm {
                            match found {
                                Some(jj) => {
                                    assert(other.children@[jj as int].name@ == c.name@);
                                    other.lemma_child_at(nm, q);
                                    other.lemma_child_at(nm, jj as int);
                                    assert(q == jj as int);
                                    assert(visited@[q]);
                                },
                                None => {
                                    assert(!other.has_child(c.name@));
                                    assert(other.children@[q].name@ == nm);
                                },
                            }
                        }
                    }
                }
            }
            i = i + 1;
        }

        proof {
            assert forall|q: int| 0 <= q < visited@.len() implies #[trigger] visited@[q]
                == self.has_child(other.children@[q].name@) by {
                let nm = other.children@[q].name@;
                assert(matched_upto(*self, nm, self.children@.len() as int) == self.has_child(nm));
            }
        }

        let mut j2: usize = 0;
        while j2 < other.children.len()
            invariant
                self.wf(),
                other.wf(),
                j2 <= other.children@.len(),
                visited@.len() == other.children@.len(),
                forall|q: int| 0 <= q < visited@.len()
                    ==> #[trigger] visited@[q] == self.has_child(other.children@[q].name@),
                path.deep_view() == path0,
                change_models(changes@) + spec_diff_adds(*other, *self, path0, j2 as int)
                    == spec_diff_olds(*self, *other, path0, 0) + spec_diff_adds(
                    *other,
                    *self,
                    path0,
                    0,
                ),
            decreases other.children@.len() - j2,
        {
            let ghost pre_changes = changes@;
            if !visited[j2] {
                let node = &other.children[j2];
                path.push(node.name.clone());
                proof {
                    assert(path.deep_view() =~= path0.push(node.name@));
                }
                let add = Change::new(clone_path(path), ChangeKind::Add, node.is_dir);
                proof {
                    lemma_models_push(changes@, add);
                }
                changes.push(add);
                let ghost pre_pop = *path;
                path.pop();
                proof {
                    assert(pre_pop.deep_view() == path0.push(node.name@));
                    assert forall|q: int| 0 <= q < path.deep_view().len() implies
                        path.deep_view()[q] == path0[q] by {
                        assert(path@[q] == pre_pop@[q]);
                        assert(pre_pop.deep_view()[q] == path0.push(node.name@)[q]);
                    }
                    assert(path.deep_view() =~= path0);
                }
            }
            proof {
                let c = other.children@[j2 as int];
                let step = spec_diff_adds(*other, *self, path0, j2 as int);
                let rest = spec_diff_adds(*other, *self, path0, j2 + 1);
                if self.has_child(c.name@) {
                    assert(step == rest);
                } else {
                    assert(step == seq![add_model(path0.push(c.name@), c.is_dir)] + rest);
                    assert(change_models(changes@) =~= change_models(pre_changes).push(
                        add_model(path0.push(c.name@), c.is_dir),
                    ));
                    assert(change_models(pre_changes).push(
                        add_model(path0.push(c.name@), c.is_dir),
                    ) + rest =~= change_models(pre_changes) + step);
                }
            }
            j2 = j2 + 1;
        }

        proof {
            assert(spec_diff_adds(*other, *self, path0, other.children@.len() as int)
                =~= Seq::<ChangeModel>::empty());
            assert(change_models(changes@) + Seq::<ChangeModel>::empty() =~= change_models(
                changes@,
            ));
            assert(change_models(changes@) == spec_diff(*self, *other, path0));
        }
        changes
    }

    /// All file paths in this subtree: the node's own path if it is a
    /// file, else the files of every child, depth-first in stored order.
    /// `parent_path` is the path of the directory this node is in; it is
    /// used as scratch space and comes back as it was.
    pub fn files(&self, parent_path: &mut Vec<String>) -> (files: Vec<Vec<String>>)
        ensures
            files.deep_view() == spec_files(*self, old(parent_path).deep_view()),
            final(parent_path).deep_view() == old(parent_path).deep_view(),
        decreases *self,
    {
        let ghost p0 = old(parent_path).deep_view();
        parent_path.push(self.name.clone());
        let ghost full = p0.push(self.name@);
        proof {
            assert(parent_path.deep_view() =~= full);
        }
        let mut files: Vec<Vec<String>> = Vec::new();
        if !self.is_dir {
            files.push(clone_path(parent_path));
            proof {
                assert(files.deep_view() =~= spec_files(*self, p0));
            }
        } else {
            proof {
                assert(files.deep_view() + spec_files_from(*self, full, 0) =~= spec_files_from(
                    *self,
                    full,
                    0,
                ));
            }
            let mut i: usize = 0;
            while i < self.children.len()
                invariant
                    self.is_dir,
                    i <= self.children@.len(),
                    parent_path.deep_view() == full,
                    files.deep_view() + spec_files_from(*self, full, i as int) == spec_files_from(
                        *self,
                        full,
                        0,
                    ),
                decreases self.children@.len() - i,
            {
                let ghost pre_seq = files@;
                let ghost pre_deep = files.deep_view();
                let child = &self.children[i];
                let mut child_files = child.files(parent_path);
                let ghost child_seq = child_files@;
                let ghost child_part = child_files.deep_view();
                files.append(&mut child_files);
                proof {
                    assert forall|q: int| 0 <= q < files.deep_view().len() implies
                        files.deep_view()[q] == (pre_deep + child_part)[q] by {
                        if q < pre_deep.len() {
                            assert(files@[q] == pre_seq[q]);
                        } else {
                            assert(files@[q] == child_seq[q - pre_seq.len()]);
                        }
                    }
                    assert(files.deep_view() =~= pre_deep + child_part);
                    assert(spec_files_from(*self, full, i as int) == spec_files(
                        self.children@[i as int],
                        full,
                    ) + spec_files_from(*self, full, i + 1));
                    assert(pre_deep + (child_part + spec_files_from(*self, full, i + 1)) =~= (
                    pre_deep + child_part) + spec_files_from(*self, full, i + 1));
                }
                i = i + 1;
            }
            proof {
                assert(spec_files_from(*self, full, self.children@.len() as int)
                    =~= Seq::<Seq<Seq<char>>>::empty());
                assert(files.deep_view() + Seq::<Seq<Seq<char>>>::empty() =~= files.deep_view());
                assert(files.deep_view() == spec_files(*self, p0));
            }
        }
        let ghost pre_pop = *parent_path;
        parent_path.pop();
        proof {
            assert forall|q: int| 0 <= q < parent_path.deep_view().len() implies
                parent_path.deep_view()[q] == p0[q] by {
                assert(parent_path@[q] == pre_pop@[q]);
                assert(pre_pop.deep_view()[q] == full[q]);
            }
            assert(parent_path.deep_view() =~= p0);
        }
        files
    }
}

/// The file paths of the subtree of `node`, whose directory's path is
/// `parent`: the node's own full path if it is a file, else the files of
/// its children in order.
pub open spec fn spec_files(node: Node, parent: Seq<Seq<char>>) -> Seq<Seq<Seq<char>>>
    decreases node, 1int, 0int,
{
    let full = parent.push(node.name@);
    if !node.is_dir {
        seq![full]
    } else {
        spec_files_from(node, full, 0)
    }
}

/// The file paths contributed by the children of `node` from index `i`
/// on, with `full` the node's own path.
pub open spec fn spec_files_from(node: Node, full: Seq<Seq<char>>, i: int) -> Seq<Seq<Seq<char>>>
    decreases node, 0int, node.children@.len() - i,
{
    if i < 0 || i >= node.children@.len() {
        Seq::empty()
    } else {
        spec_files(node.children@[i], full) + spec_files_from(node, full, i + 1)
    }
}

/// One path component "/" — the starting point of listed paths when the
/// scanned root has no parent.
fn slash_component() -> (s: String)
    ensures
        s@ == seq!['/'],
{
    let s = "/".to_owned();
    proof {
        reveal_strlit("/");
        assert(s@ =~= seq!['/']);
    }
    s
}

/// A full snapshot of one directory at one point in time: the scanned root
/// as an owned node, and the absolute path of the root's parent directory
/// as its components, absent when the root has no parent. The parent path
/// only serves to reconstruct full paths when reporting; two snapshots can
/// be compared only when they observed the same root.
pub struct Tree {
    pub root_parent: Option<Vec<String>>,
    pub root: Node,
}

impl Tree {
    /// A snapshot is well-formed when its root is a well-formed directory
    /// node.
    pub open spec fn wf(self) -> bool {
        self.root.wf() && self.root.is_dir
    }

    /// The components reported change paths start from: the parent path,
    /// or nothing when the root has none.
    pub open spec fn diff_base(self) -> Seq<Seq<char>> {
        match self.root_parent {
            Some(p) => p.deep_view(),
            None => Seq::empty(),
        }
    }

    /// The components listed file paths start from: the parent path, or
    /// the filesystem root when there is none.
    pub open spec fn files_base(self) -> Seq<Seq<char>> {
        match self.root_parent {
            Some(p) => p.deep_view(),
            None => seq![seq!['/']],
        }
    }

    /// Wrap an already-built root node into a snapshot. The recursive scan
    /// that builds the node reads the filesystem and lives with the
    /// caller; from here on the snapshot is immutable.
    pub fn new(root_parent: Option<Vec<String>>, root: Node) -> (t: Tree)
        requires
            root.wf(),
            root.is_dir,
        ensures
            t.root == root,
            t.root_parent == root_parent,
            t.wf(),
    {
        Tree { root_parent, root }
    }

    /// All file paths recoverable from the snapshot, depth-first from the
    /// root, children in stored order.
    pub fn files(&self) -> (files: Vec<Vec<String>>)
        ensures
            files.deep_view() == spec_files(self.root, self.files_base()),
    {
        let mut path: Vec<String> = match &self.root_parent {
            Some(p) => clone_path(p),
            None => {
                let mut v: Vec<String> = Vec::new();
                v.push(slash_component());
                proof {
                    assert(v.deep_view() =~= seq![seq!['/']]);
                }
                v
            },
        };
        self.root.files(&mut path)
    }

    /// The ordered changes that turn this snapshot's content into
    /// `other`'s. The two snapshots must observe one root: equal parent
    /// paths and equal root names.
    pub fn difference(&self, other: &Tree) -> (changes: Vec<Change>)
        requires
            self.wf(),
            other.wf(),
            self.root_parent.deep_view() == other.root_parent.deep_view(),
            self.root.name@ == other.root.name@,
        ensures
            change_models(changes@) == spec_diff(self.root, other.root, self.diff_base()),
    {
        let mut path: Vec<String> = match &self.root_parent {
            Some(p) => clone_path(p),
            None => Vec::new(),
        };
        proof {
            assert(path.deep_view() =~= self.diff_base());
        }
        self.root.difference(&other.root, &mut path)
    }
}

} // verus!
