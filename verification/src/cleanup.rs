//! A model of the empty-directory compaction pass, and the proof that one
//! pass is complete.
//!
//! The pass walks every directory under the target root, visits them
//! children before parents (the reverse of the walk order, see
//! [`crate::executor::cleanup_order`]), and removes each directory whose
//! immediate contents are empty at the moment it is visited. The model
//! below represents a path as its sequence of components, the remaining
//! files as a set of such paths, and the visit as a fold over the visit
//! order. The completeness theorem says: every visited directory whose
//! subtree holds no file at all is gone by the end of the single pass — a
//! parent becomes empty exactly because its children were removed earlier
//! in the same pass.

use vstd::prelude::*;

verus! {

/// A filesystem path as its sequence of name components.
pub type DirPath = Seq<Seq<char>>;

/// `a` lies strictly above `b`: `b` extends `a` by at least one component.
pub open spec fn is_strict_ancestor(a: DirPath, b: DirPath) -> bool {
    a.len() < b.len() && b.take(a.len() as int) == a
}

/// Some file lies somewhere below the directory `d`.
pub open spec fn subtree_has_file(d: DirPath, files: Set<DirPath>) -> bool {
    exists|f: DirPath| files.contains(f) && is_strict_ancestor(d, f)
}

/// The immediate contents of `d` are empty: no remaining file and no still
/// present directory has `d` as its parent.
pub open spec fn removable(d: DirPath, present: Set<DirPath>, files: Set<DirPath>) -> bool {
    &&& forall|f: DirPath| files.contains(f) ==> f.drop_last() != d
    &&& forall|e: DirPath| present.contains(e) && e != d ==> e.drop_last() != d
}

/// One compaction pass: visit the directories in `order` front to back and
/// remove each one that is empty at its visit. The result is the set of
/// directories still present at the end.
pub open spec fn compact(order: Seq<DirPath>, present: Set<DirPath>, files: Set<DirPath>) -> Set<
    DirPath,
>
    decreases order.len(),
{
    if order.len() == 0 {
        present
    } else {
        let d = order[0];
        let p2 = if removable(d, present, files) {
            present.remove(d)
        } else {
            present
        };
        compact(order.drop_first(), p2, files)
    }
}

/// The directories listed by the walk of the target root.
pub open spec fn listed(order: Seq<DirPath>) -> Set<DirPath> {
    Set::new(|e: DirPath| order.contains(e))
}

proof fn lemma_ancestor_transitive(a: DirPath, b: DirPath, c: DirPath)
    requires
        is_strict_ancestor(a, b),
        is_strict_ancestor(b, c),
    ensures
        is_strict_ancestor(a, c),
{
    assert(c.take(b.len() as int).take(a.len() as int) =~= c.take(a.len() as int));
}

proof fn lemma_parent_is_ancestor(d: DirPath, e: DirPath)
    requires
        e.len() > 0,
        e.drop_last() == d,
    ensures
        is_strict_ancestor(d, e),
{
    assert(e.take(e.len() - 1) =~= e.drop_last());
}

proof fn lemma_compact_subset(order: Seq<DirPath>, present: Set<DirPath>, files: Set<DirPath>)
    ensures
        forall|e: DirPath|
            #[trigger] compact(order, present, files).contains(e) ==> present.contains(e),
    decreases order.len(),
{
    if order.len() > 0 {
        let d = order[0];
        let p2 = if removable(d, present, files) {
            present.remove(d)
        } else {
            present
        };
        lemma_compact_subset(order.drop_first(), p2, files);
        assert forall|e: DirPath|
            #[trigger] compact(order, present, files).contains(e) implies present.contains(
            e,
        ) by {
            assert(compact(order, present, files) == compact(order.drop_first(), p2, files));
            assert(compact(order.drop_first(), p2, files).contains(e));
        }
    }
}

proof fn lemma_compact_kept(order: Seq<DirPath>, present: Set<DirPath>, files: Set<DirPath>)
    requires
        forall|i: int, j: int| 0 <= i < j < order.len() ==> order[i] != order[j],
        forall|i: int, j: int|
            0 <= i < j < order.len() ==> !is_strict_ancestor(order[i], order[j]),
        forall|i: int| 0 <= i < order.len() ==> present.contains(order[i]),
        forall|e: DirPath, i: int|
            present.contains(e) && 0 <= i < order.len() && #[trigger] is_strict_ancestor(
                order[i],
                e,
            ) ==> order.contains(e) || subtree_has_file(e, files),
        forall|f: DirPath| files.contains(f) ==> f.len() > 0,
        forall|e: DirPath| present.contains(e) ==> e.len() > 0,
    ensures
        forall|i: int|
            0 <= i < order.len() && compact(order, present, files).contains(order[i])
                ==> subtree_has_file(order[i], files),
    decreases order.len(), 1int,
{
    if order.len() == 0 {
        // nothing is visited and nothing is kept beyond `present`
    } else {
        lemma_compact_kept_step(order, present, files);
    }
}

proof fn lemma_compact_kept_step(order: Seq<DirPath>, present: Set<DirPath>, files: Set<DirPath>)
    requires
        order.len() > 0,
        forall|i: int, j: int| 0 <= i < j < order.len() ==> order[i] != order[j],
        forall|i: int, j: int|
            0 <= i < j < order.len() ==> !is_strict_ancestor(order[i], order[j]),
        forall|i: int| 0 <= i < order.len() ==> present.contains(order[i]),
        forall|e: DirPath, i: int|
            present.contains(e) && 0 <= i < order.len() && #[trigger] is_strict_ancestor(
                order[i],
                e,
            ) ==> order.contains(e) || subtree_has_file(e, files),
        forall|f: DirPath| files.contains(f) ==> f.len() > 0,
        forall|e: DirPath| present.contains(e) ==> e.len() > 0,
    ensures
        forall|i: int|
            0 <= i < order.len() && compact(order, present, files).contains(order[i])
                ==> subtree_has_file(order[i], files),
    decreases order.len(), 0int,
{
    let d = order[0];
    let rest = order.drop_first();
    let rem = removable(d, present, files);
    let p2 = if rem {
        present.remove(d)
    } else {
        present
    };

    // A kept head has a file below it: whatever blocks its removal is a
    // file directly in it, or a still present child directory, which the
    // visit order rules out of the remaining list, so that child itself
    // has a file below it.
    if !rem {
        if !(forall|f: DirPath| files.contains(f) ==> f.drop_last() != d) {
            let f = choose|f: DirPath| files.contains(f) && f.drop_last() == d;
            lemma_parent_is_ancestor(d, f);
            assert(subtree_has_file(d, files));
        } else {
            let e = choose|e: DirPath|
                present.contains(e) && e != d && e.drop_last() == d;
            lemma_parent_is_ancestor(d, e);
            assert(is_strict_ancestor(order[0], e));
            if order.contains(e) {
                let t = choose|t: int| 0 <= t < order.len() && order[t] == e;
                assert(t != 0);
                assert(!is_strict_ancestor(order[0], order[t]));
                assert(false);
            } else {
                assert(subtree_has_file(e, files));
                let f = choose|f: DirPath| files.contains(f) && is_strict_ancestor(e, f);
                lemma_ancestor_transitive(d, e, f);
                assert(subtree_has_file(d, files));
            }
        }
    }

    assert forall|i: int, j: int| 0 <= i < j < rest.len() implies rest[i] != rest[j] by {
        assert(rest[i] == order[i + 1] && rest[j] == order[j + 1]);
    }
    assert forall|i: int, j: int|
        0 <= i < j < rest.len() implies !is_strict_ancestor(rest[i], rest[j]) by {
        assert(rest[i] == order[i + 1] && rest[j] == order[j + 1]);
    }
    assert forall|i: int| 0 <= i < rest.len() implies p2.contains(rest[i]) by {
        assert(rest[i] == order[i + 1]);
        assert(order[i + 1] != order[0]);
    }
    assert forall|e: DirPath, i: int|
        p2.contains(e) && 0 <= i < rest.len() && #[trigger] is_strict_ancestor(
            rest[i],
            e,
        ) implies rest.contains(e) || subtree_has_file(e, files) by {
        assert(rest[i] == order[i + 1]);
        assert(present.contains(e));
        assert(is_strict_ancestor(order[i + 1], e));
        if order.contains(e) && !subtree_has_file(e, files) {
            let t = choose|t: int| 0 <= t < order.len() && order[t] == e;
            if t == 0 {
                // e is the head itself; it survived, so it has a file
                // below it, contradicting the case assumption.
                assert(p2.contains(d));
                assert(!rem);
                assert(subtree_has_file(d, files));
                assert(false);
            } else {
                assert(rest[t - 1] == e);
                assert(rest.contains(e));
            }
        }
    }
    assert forall|e: DirPath| p2.contains(e) implies e.len() > 0 by {
        assert(present.contains(e));
    }

    lemma_compact_kept(rest, p2, files);
    lemma_compact_subset(rest, p2, files);

    assert forall|i: int|
        0 <= i < order.len() && compact(order, present, files).contains(
            order[i],
        ) implies subtree_has_file(order[i], files) by {
        assert(compact(order, present, files) == compact(rest, p2, files));
        if i == 0 {
            assert(p2.contains(d));
            assert(!rem);
        } else {
            assert(rest[i - 1] == order[i]);
            assert(compact(rest, p2, files).contains(rest[i - 1]));
        }
    }
}

/// Empty-directory compaction is complete in one pass. Take the walk's
/// directory list in visit order — children before parents, no directory
/// twice — and the set of files still present after the deletes and
/// copies. Every listed directory whose subtree holds no file is removed
/// by the single pass: its children are visited first, each of them is
/// empty by the time it is visited, and the directory itself is therefore
/// empty at its own visit.
pub proof fn lemma_compaction_complete(order: Seq<DirPath>, files: Set<DirPath>)
    requires
        forall|i: int, j: int| 0 <= i < j < order.len() ==> order[i] != order[j],
        forall|i: int, j: int|
            0 <= i < j < order.len() ==> !is_strict_ancestor(order[i], order[j]),
        forall|f: DirPath| files.contains(f) ==> f.len() > 0,
        forall|i: int| 0 <= i < order.len() ==> order[i].len() > 0,
    ensures
        forall|i: int|
            0 <= i < order.len() && !subtree_has_file(order[i], files) ==> !compact(
                order,
                listed(order),
                files,
            ).contains(order[i]),
{
    let present = listed(order);
    assert forall|e: DirPath| present.contains(e) implies e.len() > 0 by {
        let t = choose|t: int| 0 <= t < order.len() && order[t] == e;
    }
    lemma_compact_kept(order, present, files);
}

/// A run with nothing to clean removes nothing: when every visited
/// directory still shelters a file — as on a run straight after a
/// complete one, whose pass already took out every file-free directory —
/// the compaction pass leaves the tree exactly as it found it. The second
/// hypothesis says the walk is honest: every directory on the way down to
/// a file is present.
pub proof fn lemma_compaction_removes_nothing(
    order: Seq<DirPath>,
    present: Set<DirPath>,
    files: Set<DirPath>,
)
    requires
        forall|i: int| 0 <= i < order.len() ==> subtree_has_file(order[i], files),
        forall|f: DirPath, n: int|
            files.contains(f) && 0 < n < f.len() ==> #[trigger] present.contains(f.take(n)),
    ensures
        compact(order, present, files) == present,
    decreases order.len(),
{
    if order.len() > 0 {
        let d = order[0];
        // d shelters a file: either that file, or the next directory on
        // the way down to it, still sits directly in d.
        let f = choose|f: DirPath| files.contains(f) && is_strict_ancestor(d, f);
        if f.len() == d.len() + 1 {
            assert(f.drop_last() =~= d);
            assert(!removable(d, present, files));
        } else {
            let c = f.take(d.len() as int + 1);
            assert(present.contains(c));
            assert(c.drop_last() =~= d);
            assert(c != d);
            assert(!removable(d, present, files));
        }
        assert forall|i: int|
            0 <= i < order.drop_first().len() implies subtree_has_file(
            order.drop_first()[i],
            files,
        ) by {
            assert(order.drop_first()[i] == order[i + 1]);
        }
        lemma_compaction_removes_nothing(order.drop_first(), present, files);
    }
}

/// The walk lists a directory before anything inside it; visiting the
/// list in reverse therefore visits children before parents, which is the
/// order the completeness theorem asks for.
pub proof fn lemma_reverse_of_walk_order(order: Seq<DirPath>)
    requires
        forall|i: int, j: int|
            0 <= i < j < order.len() ==> !is_strict_ancestor(order[j], order[i]),
    ensures
        forall|i: int, j: int|
            0 <= i < j < order.reverse().len() ==> !is_strict_ancestor(
                order.reverse()[i],
                order.reverse()[j],
            ),
{
    let r = order.reverse();
    assert forall|i: int, j: int|
        0 <= i < j < r.len() implies !is_strict_ancestor(r[i], r[j]) by {
        assert(r[i] == order[order.len() - 1 - i]);
        assert(r[j] == order[order.len() - 1 - j]);
    }
}

} // verus!
