use vstd::prelude::*;

use crate::fstree::change::{ChangeKind, ChangeModel};
use crate::fstree::{
    add_model, delete_model, modify_model, spec_diff, spec_diff_adds, spec_diff_olds,
    spec_entry_diff, Node, Tree,
};

verus! {

/// Diffing two snapshots whose roots carry equal fingerprints reports no
/// changes: in particular, a snapshot diffed against a fresh snapshot of
/// the same unmodified directory.
pub proof fn lemma_diff_identical_empty(a: Tree, b: Tree)
    requires
        a.root.metadata == b.root.metadata,
    ensures
        spec_diff(a.root, b.root, a.diff_base()) == Seq::<ChangeModel>::empty(),
{
}

/// Every change in the older-side part of a diff comes from one child of
/// the older node.
proof fn lemma_olds_origin(old: Node, new: Node, path: Seq<Seq<char>>, i: int, c: ChangeModel)
    requires
        spec_diff_olds(old, new, path, i).contains(c),
    ensures
        exists|k: int|
            i <= k < old.children@.len() && #[trigger] spec_entry_diff(
                old.children@[k],
                new,
                path,
            ).contains(c),
    decreases old.children@.len() - i,
{
    let entry = spec_entry_diff(old.children@[i], new, path);
    let rest = spec_diff_olds(old, new, path, i + 1);
    let idx = choose|idx: int|
        0 <= idx < spec_diff_olds(old, new, path, i).len() && spec_diff_olds(old, new, path, i)[idx]
            == c;
    if idx < entry.len() {
        assert(entry[idx] == c);
        assert(entry.contains(c));
    } else {
        assert(rest[idx - entry.len()] == c);
        assert(rest.contains(c));
        lemma_olds_origin(old, new, path, i + 1, c);
    }
}

/// Every change in the newer-side part of a diff is an `Add` for one
/// child of the newer node whose name the older node lacks.
proof fn lemma_adds_origin(new: Node, old: Node, path: Seq<Seq<char>>, i: int, c: ChangeModel)
    requires
        spec_diff_adds(new, old, path, i).contains(c),
    ensures
        exists|k: int|
            i <= k < new.children@.len() && !old.has_child(#[trigger] new.children@[k].name@) && c
                == add_model(path.push(new.children@[k].name@), new.children@[k].is_dir),
    decreases new.children@.len() - i,
{
    let cc = new.children@[i];
    let rest = spec_diff_adds(new, old, path, i + 1);
    if old.has_child(cc.name@) {
        lemma_adds_origin(new, old, path, i + 1, c);
    } else {
        let idx = choose|idx: int|
            0 <= idx < spec_diff_adds(new, old, path, i).len() && spec_diff_adds(
                new,
                old,
                path,
                i,
            )[idx] == c;
        if idx < 1 {
            assert(c == add_model(path.push(cc.name@), cc.is_dir));
        } else {
            assert(rest[idx - 1] == c);
            assert(rest.contains(c));
            lemma_adds_origin(new, old, path, i + 1, c);
        }
    }
}

/// Every change contributed by one child `cc` of the older node lies
/// strictly below the directory's `path`, in the subtree named by `cc`'s
/// own name.
proof fn lemma_entry_shape(cc: Node, new: Node, path: Seq<Seq<char>>, c: ChangeModel)
    requires
        spec_entry_diff(cc, new, path).contains(c),
    ensures
        c.path.len() > path.len(),
        c.path.subrange(0, path.len() as int) == path,
        c.path[path.len() as int] == cc.name@,
        c.kind == ChangeKind::Modify ==> !c.is_dir,
    decreases cc, 3int, 0int,
{
    let p = path.push(cc.name@);
    if !new.has_child(cc.name@) {
        assert(c == delete_model(p, cc.is_dir));
        assert(c.path.subrange(0, path.len() as int) =~= path);
    } else {
        let d = new.child(cc.name@);
        if cc.is_dir && d.is_dir {
            lemma_diff_shape(cc, d, p, c);
            assert forall|q: int| 0 <= q < path.len() implies c.path.subrange(
                0,
                path.len() as int,
            )[q] == path[q] by {
                assert(c.path.subrange(0, p.len() as int)[q] == p[q]);
            }
            assert(c.path.subrange(0, path.len() as int) =~= path);
            assert(c.path.subrange(0, p.len() as int)[path.len() as int] == p[path.len() as int]);
        } else {
            assert(c.path == p);
            assert(c.path.subrange(0, path.len() as int) =~= path);
        }
    }
}

/// Every change reported for two directory nodes lies strictly below the
/// `path` of the directory the two nodes are in.
proof fn lemma_diff_shape(old: Node, new: Node, path: Seq<Seq<char>>, c: ChangeModel)
    requires
        spec_diff(old, new, path).contains(c),
    ensures
        c.path.len() > path.len(),
        c.path.subrange(0, path.len() as int) == path,
        c.kind == ChangeKind::Modify ==> !c.is_dir,
    decreases old, 2int, 0int,
{
    let olds = spec_diff_olds(old, new, path, 0);
    let adds = spec_diff_adds(new, old, path, 0);
    let idx = choose|idx: int|
        0 <= idx < spec_diff(old, new, path).len() && spec_diff(old, new, path)[idx] == c;
    if idx < olds.len() {
        assert(olds[idx] == c);
        assert(olds.contains(c));
        lemma_olds_origin(old, new, path, 0, c);
        let k = choose|k: int|
            0 <= k < old.children@.len() && #[trigger] spec_entry_diff(
                old.children@[k],
                new,
                path,
            ).contains(c);
        lemma_entry_shape(old.children@[k], new, path, c);
    } else {
        assert(adds[idx - olds.len()] == c);
        assert(adds.contains(c));
        lemma_adds_origin(new, old, path, 0, c);
        let k = choose|k: int|
            0 <= k < new.children@.len() && !old.has_child(#[trigger] new.children@[k].name@) && c
                == add_model(path.push(new.children@[k].name@), new.children@[k].is_dir);
        assert(c.path.subrange(0, path.len() as int) =~= path);
    }
}

/// Changes contributed by child `k` of the older node appear in the
/// older-side change list started at any index at or before `k`.
proof fn lemma_olds_contains(
    old: Node,
    new: Node,
    path: Seq<Seq<char>>,
    i: int,
    k: int,
    c: ChangeModel,
)
    requires
        0 <= i <= k < old.children@.len(),
        spec_entry_diff(old.children@[k], new, path).contains(c),
    ensures
        spec_diff_olds(old, new, path, i).contains(c),
    decreases k - i,
{
    let entry = spec_entry_diff(old.children@[i], new, path);
    let rest = spec_diff_olds(old, new, path, i + 1);
    if i == k {
        let idx = choose|idx: int| 0 <= idx < entry.len() && entry[idx] == c;
        assert(spec_diff_olds(old, new, path, i)[idx] == c);
    } else {
        lemma_olds_contains(old, new, path, i + 1, k, c);
        let idx = choose|idx: int| 0 <= idx < rest.len() && rest[idx] == c;
        assert(spec_diff_olds(old, new, path, i)[entry.len() + idx] == c);
    }
}

/// The `Add` for child `k` of the newer node, absent from the older one,
/// appears in the newer-side change list started at any index at or
/// before `k`.
proof fn lemma_adds_contains(new: Node, old: Node, path: Seq<Seq<char>>, i: int, k: int)
    requires
        0 <= i <= k < new.children@.len(),
        !old.has_child(new.children@[k].name@),
    ensures
        spec_diff_adds(new, old, path, i).contains(
            add_model(path.push(new.children@[k].name@), new.children@[k].is_dir),
        ),
    decreases k - i,
{
    let c = add_model(path.push(new.children@[k].name@), new.children@[k].is_dir);
    let rest = spec_diff_adds(new, old, path, i + 1);
    if i == k {
        assert(spec_diff_adds(new, old, path, i)[0] == c);
    } else {
        lemma_adds_contains(new, old, path, i + 1, k);
        let idx = choose|idx: int| 0 <= idx < rest.len() && rest[idx] == c;
        if old.has_child(new.children@[i].name@) {
            assert(spec_diff_adds(new, old, path, i)[idx] == c);
        } else {
            assert(spec_diff_adds(new, old, path, i)[1 + idx] == c);
        }
    }
}

/// If the older directory is missing an entry the newer one has, the diff
/// towards the newer snapshot reports an `Add` for that entry, and the
/// diff the other way round reports a `Delete` for it, both carrying the
/// entry's own directory flag.
pub proof fn lemma_add_delete_symmetry(a: Node, b: Node, path: Seq<Seq<char>>, x: Seq<char>)
    requires
        a.wf(),
        b.wf(),
        a.is_dir,
        b.is_dir,
        a.metadata != b.metadata,
        b.has_child(x),
        !a.has_child(x),
    ensures
        spec_diff(a, b, path).contains(add_model(path.push(x), b.child(x).is_dir)),
        spec_diff(b, a, path).contains(delete_model(path.push(x), b.child(x).is_dir)),
{
    let k = b.child_index(x);
    let cc = b.children@[k];
    assert(cc.name@ == x);

    let addc = add_model(path.push(x), b.child(x).is_dir);
    lemma_adds_contains(b, a, path, 0, k);
    let adds = spec_diff_adds(b, a, path, 0);
    let olds = spec_diff_olds(a, b, path, 0);
    let idx = choose|idx: int| 0 <= idx < adds.len() && adds[idx] == addc;
    assert(spec_diff(a, b, path)[olds.len() + idx] == addc);

    let delc = delete_model(path.push(x), b.child(x).is_dir);
    assert(spec_entry_diff(cc, a, path)[0] == delc);
    lemma_olds_contains(b, a, path, 0, k, delc);
    let olds2 = spec_diff_olds(b, a, path, 0);
    let idx2 = choose|idx2: int| 0 <= idx2 < olds2.len() && olds2[idx2] == delc;
    assert(spec_diff(b, a, path)[idx2] == delc);
}

/// The predicate selecting changes recorded exactly at path `p`.
pub open spec fn at_path(p: Seq<Seq<char>>) -> spec_fn(ChangeModel) -> bool {
    |c: ChangeModel| c.path == p
}

/// The predicate selecting changes whose path descends through the
/// component `x` at position `n`: the changes touching the subtree of the
/// child named `x` of a directory whose path has `n` components.
pub open spec fn below_name(n: int, x: Seq<char>) -> spec_fn(ChangeModel) -> bool {
    |c: ChangeModel| c.path.len() > n && c.path[n] == x
}

/// What a filtered change list keeps, it took from the list.
proof fn lemma_filter_sub(s: Seq<ChangeModel>, pred: spec_fn(ChangeModel) -> bool)
    ensures
        forall|i: int|
            0 <= i < s.filter(pred).len() ==> s.contains(#[trigger] s.filter(pred)[i]),
    decreases s.len(),
{
    reveal(Seq::filter);
    if s.len() > 0 {
        lemma_filter_sub(s.drop_last(), pred);
        let sub = s.drop_last().filter(pred);
        assert forall|i: int| 0 <= i < s.filter(pred).len() implies s.contains(
            #[trigger] s.filter(pred)[i],
        ) by {
            if i < sub.len() {
                let j = choose|j: int|
                    0 <= j < s.drop_last().len() && s.drop_last()[j] == sub[i];
                assert(s[j] == sub[i]);
            } else {
                assert(s.filter(pred)[i] == s.last());
                assert(s[s.len() - 1] == s.last());
            }
        }
    }
}

/// A filtered one-change list keeps the change iff the predicate holds of
/// it.
proof fn lemma_filter_one(c: ChangeModel, pred: spec_fn(ChangeModel) -> bool)
    ensures
        pred(c) ==> seq![c].filter(pred) == seq![c],
        !pred(c) ==> seq![c].filter(pred) == Seq::<ChangeModel>::empty(),
{
    reveal(Seq::filter);
    assert(Seq::<ChangeModel>::empty().filter(pred) =~= Seq::<ChangeModel>::empty());
    assert(seq![c].drop_last() =~= Seq::<ChangeModel>::empty());
    assert(seq![c].drop_last().filter(pred) == Seq::<ChangeModel>::empty());
    assert(seq![c].last() == c);
    if pred(c) {
        assert(seq![c].filter(pred) =~= seq![c]);
    } else {
        assert(seq![c].filter(pred) =~= Seq::<ChangeModel>::empty());
    }
}

/// A child of another name contributes no change recorded exactly at the
/// path of the child named `x`.
proof fn lemma_entry_filter_other(cc: Node, new: Node, path: Seq<Seq<char>>, x: Seq<char>)
    requires
        cc.name@ != x,
    ensures
        spec_entry_diff(cc, new, path).filter(at_path(path.push(x))) == Seq::<
            ChangeModel,
        >::empty(),
{
    broadcast use vstd::seq_lib::group_filter_ensures;

    let pred = at_path(path.push(x));
    let entry = spec_entry_diff(cc, new, path);
    let f = entry.filter(pred);
    if f.len() > 0 {
        lemma_filter_sub(entry, pred);
        let el = f[0];
        assert(pred(el));
        assert(entry.contains(el));
        lemma_entry_shape(cc, new, path, el);
        assert(el.path[path.len() as int] == cc.name@);
        assert(el.path == path.push(x));
        assert(el.path[path.len() as int] == x);
        assert(false);
    }
    assert(f =~= Seq::<ChangeModel>::empty());
}

/// The newer-side part of a diff records nothing exactly at the path of a
/// child name the older node already has.
proof fn lemma_adds_filter_none(new: Node, old: Node, path: Seq<Seq<char>>, i: int, x: Seq<char>)
    requires
        old.has_child(x),
    ensures
        spec_diff_adds(new, old, path, i).filter(at_path(path.push(x))) == Seq::<
            ChangeModel,
        >::empty(),
    decreases new.children@.len() - i,
{
    reveal(Seq::filter);
    let pred = at_path(path.push(x));
    if i < 0 || i >= new.children@.len() {
        assert(spec_diff_adds(new, old, path, i).filter(pred) =~= Seq::<ChangeModel>::empty());
    } else {
        lemma_adds_filter_none(new, old, path, i + 1, x);
        let cc = new.children@[i];
        let rest = spec_diff_adds(new, old, path, i + 1);
        if old.has_child(cc.name@) {
        } else {
            assert(cc.name@ != x);
            let addc = add_model(path.push(cc.name@), cc.is_dir);
            assert(addc.path[path.len() as int] == cc.name@);
            assert(!pred(addc)) by {
                if addc.path == path.push(x) {
                    assert(addc.path[path.len() as int] == x);
                }
            }
            lemma_filter_one(addc, pred);
            Seq::filter_distributes_over_add(seq![addc], rest, pred);
            assert(spec_diff_adds(new, old, path, i).filter(pred) =~= Seq::<
                ChangeModel,
            >::empty());
        }
    }
}

/// The older-side part of a diff records, exactly at the path of the
/// child named `x`, precisely what that child's own entry contributes.
proof fn lemma_olds_filter(a: Node, b: Node, path: Seq<Seq<char>>, i: int, x: Seq<char>)
    requires
        a.wf(),
        a.has_child(x),
        i >= 0,
    ensures
        i <= a.child_index(x) < a.children@.len() ==> spec_diff_olds(a, b, path, i).filter(
            at_path(path.push(x)),
        ) == spec_entry_diff(a.child(x), b, path).filter(at_path(path.push(x))),
        i > a.child_index(x) ==> spec_diff_olds(a, b, path, i).filter(at_path(path.push(x)))
            == Seq::<ChangeModel>::empty(),
    decreases a.children@.len() - i,
{
    reveal(Seq::filter);
    let pred = at_path(path.push(x));
    let kx = a.child_index(x);
    assert(0 <= kx < a.children@.len() && a.children@[kx].name@ == x);
    if i >= a.children@.len() {
        assert(spec_diff_olds(a, b, path, i).filter(pred) =~= Seq::<ChangeModel>::empty());
    } else {
        lemma_olds_filter(a, b, path, i + 1, x);
        let cc = a.children@[i];
        let entry = spec_entry_diff(cc, b, path);
        let rest = spec_diff_olds(a, b, path, i + 1);
        Seq::filter_distributes_over_add(entry, rest, pred);
        if i == kx {
            assert(a.child(x) == cc);
            assert(entry.filter(pred) + rest.filter(pred) =~= entry.filter(pred));
        } else {
            assert(cc.name@ != x) by {
                if cc.name@ == x {
                    a.lemma_child_at(x, i);
                }
            }
            lemma_entry_filter_other(cc, b, path, x);
            assert(entry.filter(pred) + rest.filter(pred) =~= rest.filter(pred));
        }
    }
}

/// An entry that is a directory on one side and a file on the other
/// expands to exactly one `Delete` of the old kind followed by one `Add`
/// of the new kind at its path, and never to a `Modify`: filtering the
/// diff to that exact path leaves just those two records.
pub proof fn lemma_type_change_delete_add(a: Node, b: Node, path: Seq<Seq<char>>, x: Seq<char>)
    requires
        a.wf(),
        b.wf(),
        a.is_dir,
        b.is_dir,
        a.metadata != b.metadata,
        a.has_child(x),
        b.has_child(x),
        a.child(x).is_dir != b.child(x).is_dir,
    ensures
        spec_diff(a, b, path).filter(at_path(path.push(x))) == seq![
            delete_model(path.push(x), a.child(x).is_dir),
            add_model(path.push(x), b.child(x).is_dir),
        ],
{
    reveal(Seq::filter);
    let p = path.push(x);
    let pred = at_path(p);
    let cc = a.child(x);
    let dd = b.child(x);
    a.lemma_child_at(x, a.child_index(x));
    b.lemma_child_at(x, b.child_index(x));
    let delc = delete_model(p, cc.is_dir);
    let addc = add_model(p, dd.is_dir);

    let entry = spec_entry_diff(cc, b, path);
    assert(entry == seq![delc, addc]);
    let two = seq![delc, addc];
    assert(two.drop_last() =~= seq![delc]);
    assert(seq![delc].drop_last() =~= Seq::<ChangeModel>::empty());
    assert(seq![delc].filter(pred) =~= seq![delc]);
    assert(two.filter(pred) =~= two);

    lemma_olds_filter(a, b, path, 0, x);
    lemma_adds_filter_none(b, a, path, 0, x);
    let olds = spec_diff_olds(a, b, path, 0);
    let adds = spec_diff_adds(b, a, path, 0);
    Seq::filter_distributes_over_add(olds, adds, pred);
    assert(spec_diff(a, b, path).filter(pred) =~= two);
}

/// A `Modify` is only ever recorded for a file: no change a diff reports
/// is a directory modification.
pub proof fn lemma_modify_is_file_only(old: Node, new: Node, path: Seq<Seq<char>>, c: ChangeModel)
    requires
        spec_diff(old, new, path).contains(c),
        c.kind == ChangeKind::Modify,
    ensures
        !c.is_dir,
{
    lemma_diff_shape(old, new, path, c);
}

/// An entry that is a file on both sides, with differing fingerprints,
/// yields exactly one `Modify` at its path: filtering the diff to that
/// exact path leaves just that record.
pub proof fn lemma_modified_file_single_modify(
    a: Node,
    b: Node,
    path: Seq<Seq<char>>,
    x: Seq<char>,
)
    requires
        a.wf(),
        b.wf(),
        a.is_dir,
        b.is_dir,
        a.metadata != b.metadata,
        a.has_child(x),
        b.has_child(x),
        !a.child(x).is_dir,
        !b.child(x).is_dir,
        a.child(x).metadata != b.child(x).metadata,
    ensures
        spec_diff(a, b, path).filter(at_path(path.push(x))) == seq![modify_model(path.push(x))],
{
    reveal(Seq::filter);
    let p = path.push(x);
    let pred = at_path(p);
    let cc = a.child(x);
    a.lemma_child_at(x, a.child_index(x));
    b.lemma_child_at(x, b.child_index(x));
    let mc = modify_model(p);

    let entry = spec_entry_diff(cc, b, path);
    assert(entry == seq![mc]);
    lemma_filter_one(mc, pred);

    lemma_olds_filter(a, b, path, 0, x);
    lemma_adds_filter_none(b, a, path, 0, x);
    let olds = spec_diff_olds(a, b, path, 0);
    let adds = spec_diff_adds(b, a, path, 0);
    Seq::filter_distributes_over_add(olds, adds, pred);
    assert(spec_diff(a, b, path).filter(pred) =~= seq![mc]);
}

/// An entry of one kind and one fingerprint on both sides contributes
/// nothing: no change of the diff descends through its name.
pub proof fn lemma_unchanged_child_quiet(a: Node, b: Node, path: Seq<Seq<char>>, y: Seq<char>)
    requires
        a.wf(),
        b.wf(),
        a.is_dir,
        b.is_dir,
        a.has_child(y),
        b.has_child(y),
        a.child(y).is_dir == b.child(y).is_dir,
        a.child(y).metadata == b.child(y).metadata,
    ensures
        spec_diff(a, b, path).filter(below_name(path.len() as int, y)) == Seq::<
            ChangeModel,
        >::empty(),
{
    broadcast use vstd::seq_lib::group_filter_ensures;

    let pred = below_name(path.len() as int, y);
    let d = spec_diff(a, b, path);
    let f = d.filter(pred);
    let ky = a.child_index(y);
    a.lemma_child_at(y, ky);
    b.lemma_child_at(y, b.child_index(y));
    if f.len() > 0 {
        lemma_filter_sub(d, pred);
        let el = f[0];
        assert(pred(el));
        assert(d.contains(el));
        let olds = spec_diff_olds(a, b, path, 0);
        let adds = spec_diff_adds(b, a, path, 0);
        let idx = choose|idx: int| 0 <= idx < d.len() && d[idx] == el;
        if idx < olds.len() {
            assert(olds[idx] == el);
            assert(olds.contains(el));
            lemma_olds_origin(a, b, path, 0, el);
            let k = choose|k: int|
                0 <= k < a.children@.len() && #[trigger] spec_entry_diff(
                    a.children@[k],
                    b,
                    path,
                ).contains(el);
            lemma_entry_shape(a.children@[k], b, path, el);
            assert(a.children@[k].name@ == y);
            a.lemma_child_at(y, k);
            assert(k == ky);
            let cc = a.children@[ky];
            let dd = b.child(y);
            assert(spec_entry_diff(cc, b, path).len() == 0);
            assert(false);
        } else {
            assert(adds[idx - olds.len()] == el);
            assert(adds.contains(el));
            lemma_adds_origin(b, a, path, 0, el);
            let k = choose|k: int|
                0 <= k < b.children@.len() && !a.has_child(#[trigger] b.children@[k].name@) && el
                    == add_model(path.push(b.children@[k].name@), b.children@[k].is_dir);
            assert(el.path[path.len() as int] == b.children@[k].name@);
            assert(b.children@[k].name@ == y);
            assert(false);
        }
    }
    assert(f =~= Seq::<ChangeModel>::empty());
}

} // verus!
