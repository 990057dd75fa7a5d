//! The sync executor's decision logic.
//!
//! Applying changes to disk is the surrounding program's work; the library
//! decides everything that does not need the filesystem: which actions to
//! perform and in which order. [`SyncExecutor::execute`] turns the diff
//! into the execution plan — every delete strictly before every copy — and
//! [`cleanup_order`] orders walked directories children before parents for
//! the compaction pass.

use vstd::prelude::*;

use crate::file_entry::{unique_keys, key_set, key_of, has_key, lemma_key_set_characterization,
    FileEntry, FileChangeAction, FileEntryChange, ChangeView};
use crate::scanner::{copy_actions, copied_keys, delete_actions, deleted_keys, spec_diff, Scanner};

verus! {

pub open spec fn is_delete(c: ChangeView) -> bool {
    c.action == FileChangeAction::Delete
}

pub open spec fn is_copy(c: ChangeView) -> bool {
    c.action == FileChangeAction::Copy
}

/// The delete actions of a diff, in diff order.
pub open spec fn only_deletes(s: Seq<ChangeView>) -> Seq<ChangeView>
    decreases s.len(),
{
    if s.len() == 0 {
        Seq::empty()
    } else {
        only_deletes(s.drop_last()) + (if is_delete(s.last()) {
            seq![s.last()]
        } else {
            Seq::<ChangeView>::empty()
        })
    }
}

/// The copy actions of a diff, in diff order.
pub open spec fn only_copies(s: Seq<ChangeView>) -> Seq<ChangeView>
    decreases s.len(),
{
    if s.len() == 0 {
        Seq::empty()
    } else {
        only_copies(s.drop_last()) + (if is_copy(s.last()) {
            seq![s.last()]
        } else {
            Seq::<ChangeView>::empty()
        })
    }
}

/// The execution plan: the same actions as the diff, reordered so that
/// every delete comes before every copy.
pub open spec fn spec_plan(
    src: Seq<FileEntry>,
    tgt: Seq<FileEntry>,
    target_root: Seq<char>,
) -> Seq<ChangeView> {
    delete_actions(src, tgt) + copy_actions(src, tgt, target_root)
}

proof fn lemma_only_deletes_concat(a: Seq<ChangeView>, b: Seq<ChangeView>)
    ensures
        only_deletes(a + b) == only_deletes(a) + only_deletes(b),
        only_copies(a + b) == only_copies(a) + only_copies(b),
    decreases b.len(),
{
    if b.len() == 0 {
        assert(a + b =~= a);
        assert(only_deletes(a) + only_deletes(b) =~= only_deletes(a));
        assert(only_copies(a) + only_copies(b) =~= only_copies(a));
    } else {
        lemma_only_deletes_concat(a, b.drop_last());
        assert((a + b).drop_last() =~= a + b.drop_last());
        assert((a + b).last() == b.last());
        assert(only_deletes(a) + only_deletes(b.drop_last()) + (if is_delete(b.last()) {
            seq![b.last()]
        } else {
            Seq::<ChangeView>::empty()
        }) =~= only_deletes(a) + only_deletes(b));
        assert(only_copies(a) + only_copies(b.drop_last()) + (if is_copy(b.last()) {
            seq![b.last()]
        } else {
            Seq::<ChangeView>::empty()
        }) =~= only_copies(a) + only_copies(b));
    }
}

proof fn lemma_copy_actions_pure(src: Seq<FileEntry>, tgt: Seq<FileEntry>, root: Seq<char>)
    ensures
        only_deletes(copy_actions(src, tgt, root)) == Seq::<ChangeView>::empty(),
        only_copies(copy_actions(src, tgt, root)) == copy_actions(src, tgt, root),
    decreases src.len(),
{
    if src.len() == 0 {
    } else {
        lemma_copy_actions_pure(src.drop_last(), tgt, root);
        let pre = copy_actions(src.drop_last(), tgt, root);
        let tail: Seq<ChangeView> = if crate::file_entry::has_key(
            tgt,
            crate::file_entry::key_of(src.last()),
        ) {
            Seq::<ChangeView>::empty()
        } else {
            seq![crate::scanner::copy_change(src.last(), root)]
        };
        lemma_only_deletes_concat(pre, tail);
        if tail.len() > 0 {
            assert(only_deletes(Seq::<ChangeView>::empty()) == Seq::<ChangeView>::empty());
            assert(only_copies(Seq::<ChangeView>::empty()) == Seq::<ChangeView>::empty());
            assert(tail.drop_last() =~= Seq::<ChangeView>::empty());
            assert(only_deletes(tail) =~= Seq::<ChangeView>::empty());
            assert(only_copies(tail) =~= tail);
        }
        assert(only_deletes(copy_actions(src, tgt, root)) =~= Seq::<ChangeView>::empty());
        assert(only_copies(copy_actions(src, tgt, root)) =~= copy_actions(src, tgt, root));
    }
}

proof fn lemma_delete_actions_pure(src: Seq<FileEntry>, tgt: Seq<FileEntry>)
    ensures
        only_deletes(delete_actions(src, tgt)) == delete_actions(src, tgt),
        only_copies(delete_actions(src, tgt)) == Seq::<ChangeView>::empty(),
    decreases tgt.len(),
{
    if tgt.len() == 0 {
    } else {
        lemma_delete_actions_pure(src, tgt.drop_last());
        let pre = delete_actions(src, tgt.drop_last());
        let tail: Seq<ChangeView> = if crate::file_entry::has_key(
            src,
            crate::file_entry::key_of(tgt.last()),
        ) {
            Seq::<ChangeView>::empty()
        } else {
            seq![crate::scanner::delete_change(tgt.last())]
        };
        lemma_only_deletes_concat(pre, tail);
        if tail.len() > 0 {
            assert(only_deletes(Seq::<ChangeView>::empty()) == Seq::<ChangeView>::empty());
            assert(only_copies(Seq::<ChangeView>::empty()) == Seq::<ChangeView>::empty());
            assert(tail.drop_last() =~= Seq::<ChangeView>::empty());
            assert(only_deletes(tail) =~= tail);
            assert(only_copies(tail) =~= Seq::<ChangeView>::empty());
        }
        assert(only_deletes(delete_actions(src, tgt)) =~= delete_actions(src, tgt));
        assert(only_copies(delete_actions(src, tgt)) =~= Seq::<ChangeView>::empty());
    }
}

/// Splitting the diff by action kind and putting the deletes first yields
/// exactly the plan.
pub proof fn lemma_plan_is_reordered_diff(
    src: Seq<FileEntry>,
    tgt: Seq<FileEntry>,
    root: Seq<char>,
)
    ensures
        only_deletes(spec_diff(src, tgt, root)) + only_copies(spec_diff(src, tgt, root))
            == spec_plan(src, tgt, root),
{
    lemma_only_deletes_concat(copy_actions(src, tgt, root), delete_actions(src, tgt));
    lemma_copy_actions_pure(src, tgt, root);
    lemma_delete_actions_pure(src, tgt);
    assert(only_deletes(spec_diff(src, tgt, root)) =~= delete_actions(src, tgt));
    assert(only_copies(spec_diff(src, tgt, root)) =~= copy_actions(src, tgt, root));
}

proof fn lemma_copy_actions_vacuous(src: Seq<FileEntry>, tgt: Seq<FileEntry>, root: Seq<char>)
    requires
        forall|i: int| 0 <= i < src.len() ==> has_key(tgt, key_of(src[i])),
    ensures
        copy_actions(src, tgt, root) == Seq::<ChangeView>::empty(),
    decreases src.len(),
{
    if src.len() > 0 {
        let s0 = src.drop_last();
        assert forall|i: int| 0 <= i < s0.len() implies has_key(tgt, key_of(s0[i])) by {
            assert(s0[i] == src[i]);
        }
        lemma_copy_actions_vacuous(s0, tgt, root);
        assert(has_key(tgt, key_of(src[src.len() - 1])));
        assert(copy_actions(src, tgt, root) =~= Seq::<ChangeView>::empty());
    }
}

proof fn lemma_delete_actions_vacuous(src: Seq<FileEntry>, tgt: Seq<FileEntry>)
    requires
        forall|i: int| 0 <= i < tgt.len() ==> has_key(src, key_of(tgt[i])),
    ensures
        delete_actions(src, tgt) == Seq::<ChangeView>::empty(),
    decreases tgt.len(),
{
    if tgt.len() > 0 {
        let t0 = tgt.drop_last();
        assert forall|i: int| 0 <= i < t0.len() implies has_key(src, key_of(t0[i])) by {
            assert(t0[i] == tgt[i]);
        }
        lemma_delete_actions_vacuous(src, t0);
        assert(has_key(src, key_of(tgt[tgt.len() - 1])));
        assert(delete_actions(src, tgt) =~= Seq::<ChangeView>::empty());
    }
}

/// Idempotence: when the two sides already hold the same identity keys —
/// as after a run that changed nothing on disk since the previous one —
/// the diff is empty and the execution plan performs no action at all.
pub proof fn lemma_second_run_empty(src: Seq<FileEntry>, tgt: Seq<FileEntry>, root: Seq<char>)
    requires
        key_set(src) =~= key_set(tgt),
    ensures
        spec_diff(src, tgt, root) == Seq::<ChangeView>::empty(),
        spec_plan(src, tgt, root) == Seq::<ChangeView>::empty(),
{
    lemma_key_set_characterization(src);
    lemma_key_set_characterization(tgt);
    assert forall|i: int| 0 <= i < src.len() implies has_key(tgt, key_of(src[i])) by {
        assert(has_key(src, key_of(src[i])));
        assert(key_set(src).contains(key_of(src[i])));
    }
    assert forall|i: int| 0 <= i < tgt.len() implies has_key(src, key_of(tgt[i])) by {
        assert(has_key(tgt, key_of(tgt[i])));
        assert(key_set(tgt).contains(key_of(tgt[i])));
    }
    lemma_copy_actions_vacuous(src, tgt, root);
    lemma_delete_actions_vacuous(src, tgt);
    assert(spec_diff(src, tgt, root) =~= Seq::<ChangeView>::empty());
    assert(spec_plan(src, tgt, root) =~= Seq::<ChangeView>::empty());
}

/// Convergence: the plan deletes exactly the keys only the target holds
/// and copies exactly the keys only the source holds, so a run in which
/// every action lands leaves the target mapping's identity-key set equal
/// to the source mapping's.
pub proof fn lemma_convergence(src: Seq<FileEntry>, tgt: Seq<FileEntry>)
    ensures
        key_set(tgt).difference(deleted_keys(src, tgt)).union(copied_keys(src, tgt))
            =~= key_set(src),
{
}

/// Owns the diffing machinery for one (source root, target root) pair and
/// produces the ordered execution plan.
pub struct SyncExecutor {
    pub target: String,
    pub scanner: Scanner,
}

impl SyncExecutor {
    /// Scope an executor to a target root and the two scanned record
    /// lists.
    pub fn new(source_files: Vec<FileEntry>, target_files: Vec<FileEntry>, target: &String) -> (s:
        Self)
        ensures
            s.target@ == target@,
            s.scanner.target@ == target@,
            unique_keys(s.scanner.source_files@),
            unique_keys(s.scanner.target_files@),
            key_set(s.scanner.source_files@) =~= key_set(source_files@),
            key_set(s.scanner.target_files@) =~= key_set(target_files@),
            unique_keys(source_files@) ==> s.scanner.source_files@ == source_files@,
            unique_keys(target_files@) ==> s.scanner.target_files@ == target_files@,
    {
        SyncExecutor {
            target: target.clone(),
            scanner: Scanner::new(source_files, target_files, target),
        }
    }

    /// Compute the execution plan: the diff's delete actions, in diff
    /// order, followed by its copy actions, in diff order. The surrounding
    /// program applies the plan front to back, so every orphaned file is
    /// gone before any copy lands, which is what lets an overwrite appear
    /// as an independent delete and copy of the same relative path.
    pub fn execute(&self) -> (plan: Vec<FileEntryChange>)
        ensures
            plan.deep_view() == spec_plan(
                self.scanner.source_files@,
                self.scanner.target_files@,
                self.scanner.target@,
            ),
    {
        let changes = self.scanner.calculate_diff();
        let ghost dv = changes.deep_view();
        let mut plan: Vec<FileEntryChange> = Vec::new();

        let mut i: usize = 0;
        while i < changes.len()
            invariant
                0 <= i <= dv.len(),
                dv == changes.deep_view(),
                dv.len() == changes@.len(),
                plan.deep_view() == only_deletes(dv.take(i as int)),
            decreases dv.len() - i,
        {
            let ghost pre = plan.deep_view();
            let c = &changes[i];
            proof {
                assert(dv[i as int] == changes@[i as int]@);
            }
            if c.action == FileChangeAction::Delete {
                let ch = FileEntryChange {
                    source_path: c.source_path.clone(),
                    target_path: c.target_path.clone(),
                    action: c.action,
                };
                proof {
                    assert(ch@ == dv[i as int]);
                }
                plan.push(ch);
                proof {
                    assert(plan.deep_view() =~= pre.push(ch@));
                }
            }
            proof {
                let t = dv.take(i + 1);
                assert(t.drop_last() =~= dv.take(i as int));
                assert(t.last() == dv[i as int]);
                assert(plan.deep_view() =~= only_deletes(t));
            }
            i += 1;
        }
        proof {
            assert(dv.take(dv.len() as int) =~= dv);
        }

        let mut i: usize = 0;
        while i < changes.len()
            invariant
                0 <= i <= dv.len(),
                dv == changes.deep_view(),
                dv.len() == changes@.len(),
                plan.deep_view() == only_deletes(dv) + only_copies(dv.take(i as int)),
            decreases dv.len() - i,
        {
            let ghost pre = plan.deep_view();
            let c = &changes[i];
            proof {
                assert(dv[i as int] == changes@[i as int]@);
            }
            if c.action == FileChangeAction::Copy {
                let ch = FileEntryChange {
                    source_path: c.source_path.clone(),
                    target_path: c.target_path.clone(),
                    action: c.action,
                };
                proof {
                    assert(ch@ == dv[i as int]);
                }
                plan.push(ch);
                proof {
                    assert(plan.deep_view() =~= pre.push(ch@));
                }
            }
            proof {
                let t = dv.take(i + 1);
                assert(t.drop_last() =~= dv.take(i as int));
                assert(t.last() == dv[i as int]);
                assert(plan.deep_view() =~= only_deletes(dv) + only_copies(t));
            }
            i += 1;
        }
        proof {
            assert(dv.take(dv.len() as int) =~= dv);
            lemma_plan_is_reordered_diff(
                self.scanner.source_files@,
                self.scanner.target_files@,
                self.scanner.target@,
            );
        }
        plan
    }
}

/// The order in which the compaction pass visits directories: the walk
/// lists every directory under the target root parents first, and visiting
/// them in reverse guarantees that a directory's children are handled
/// before the directory itself.
pub fn cleanup_order(dirs: Vec<String>) -> (r: Vec<String>)
    ensures
        r@ == dirs@.reverse(),
{
    let ghost orig = dirs@;
    let mut rest = dirs;
    let mut out: Vec<String> = Vec::new();
    while rest.len() > 0
        invariant
            rest@.len() <= orig.len(),
            rest@ == orig.take(rest@.len() as int),
            out@ =~= orig.skip(rest@.len() as int).reverse(),
        decreases rest@.len(),
    {
        let ghost n = rest@.len() as int;
        let s = rest.pop().unwrap();
        proof {
            assert(s == orig[n - 1]);
            assert(rest@ =~= orig.take(n - 1));
        }
        out.push(s);
        proof {
            assert(out@ =~= orig.skip(n - 1).reverse());
        }
    }
    proof {
        assert(out@ =~= orig.reverse());
    }
    out
}

} // verus!
