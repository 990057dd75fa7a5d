//! The content scanner's record construction and the diff engine.
//!
//! Scanning itself is a filesystem walk performed by the surrounding
//! program; each regular file's name, absolute path, size and full contents
//! are handed to [`make_entry`], which derives the relative path, hashes the
//! contents and builds the record. [`Scanner::new`] turns the record lists
//! into mappings keyed by identity (last writer wins on a key collision),
//! and [`Scanner::calculate_diff`] compares the two mappings.

use vstd::prelude::*;

use crate::file_entry::{
    key_of, has_key, key_set, unique_keys, FileEntry, FileChangeAction, FileEntryChange,
    ChangeView, lemma_key_set_characterization,
};
use crate::hashing::{blake3_hex_of, hash_bytes};
use crate::paths::{is_under, join, join_path, relative_part, relative_to};

verus! {

/// The copy action a source record produces: from its absolute path to the
/// target root joined with its relative path.
pub open spec fn copy_change(e: FileEntry, target_root: Seq<char>) -> ChangeView {
    ChangeView {
        source_path: e.absolute_path@,
        target_path: join_path(target_root, e.relative_path@),
        action: FileChangeAction::Copy,
    }
}

/// The delete action an orphaned target record produces: both fields hold
/// its absolute path.
pub open spec fn delete_change(e: FileEntry) -> ChangeView {
    ChangeView {
        source_path: e.absolute_path@,
        target_path: e.absolute_path@,
        action: FileChangeAction::Delete,
    }
}

/// One copy action per source record whose identity key is absent from the
/// target mapping, in source order.
pub open spec fn copy_actions(
    src: Seq<FileEntry>,
    tgt: Seq<FileEntry>,
    target_root: Seq<char>,
) -> Seq<ChangeView>
    decreases src.len(),
{
    if src.len() == 0 {
        Seq::empty()
    } else {
        copy_actions(src.drop_last(), tgt, target_root) + (if has_key(
            tgt,
            key_of(src.last()),
        ) {
            Seq::<ChangeView>::empty()
        } else {
            seq![copy_change(src.last(), target_root)]
        })
    }
}

/// One delete action per target record whose identity key is absent from
/// the source mapping, in target order.
pub open spec fn delete_actions(src: Seq<FileEntry>, tgt: Seq<FileEntry>) -> Seq<ChangeView>
    decreases tgt.len(),
{
    if tgt.len() == 0 {
        Seq::empty()
    } else {
        delete_actions(src, tgt.drop_last()) + (if has_key(
            src,
            key_of(tgt.last()),
        ) {
            Seq::<ChangeView>::empty()
        } else {
            seq![delete_change(tgt.last())]
        })
    }
}

/// The diff of two mappings: all copies (source pass), then all deletes
/// (target pass).
pub open spec fn spec_diff(
    src: Seq<FileEntry>,
    tgt: Seq<FileEntry>,
    target_root: Seq<char>,
) -> Seq<ChangeView> {
    copy_actions(src, tgt, target_root) + delete_actions(src, tgt)
}

/// Whether the mapping holds a record whose identity key is
/// `(rel, hash)`.
fn mapping_contains_key(entries: &Vec<FileEntry>, rel: &String, hash: &String) -> (r: bool)
    ensures
        r == has_key(entries@, (rel@, hash@)),
{
    let mut i: usize = 0;
    while i < entries.len()
        invariant
            0 <= i <= entries@.len(),
            forall|j: int| 0 <= j < i ==> key_of(entries@[j]) != (rel@, hash@),
        decreases entries@.len() - i,
    {
        if entries[i].relative_path == *rel && entries[i].hash == *hash {
            proof {
                assert(key_of(entries@[i as int]) == (rel@, hash@));
            }
            return true;
        }
        i += 1;
    }
    false
}

/// The position of the record carrying key `k`, meaningful only when
/// `has_key(s, k)` holds.
pub open spec fn index_of_key(s: Seq<FileEntry>, k: (Seq<char>, Seq<char>)) -> int {
    choose|i: int| 0 <= i < s.len() && key_of(s[i]) == k
}

/// Insert a record into a mapping under its identity key, replacing any
/// record that already carries that key (last writer wins).
fn insert_entry(entries: &mut Vec<FileEntry>, e: FileEntry)
    requires
        unique_keys(old(entries)@),
    ensures
        unique_keys(final(entries)@),
        key_set(final(entries)@) =~= key_set(old(entries)@).insert(key_of(e)),
        !has_key(old(entries)@, key_of(e)) ==> final(entries)@ == old(entries)@.push(e),
        has_key(old(entries)@, key_of(e)) ==> final(entries)@ == old(entries)@.update(
            index_of_key(old(entries)@, key_of(e)),
            e,
        ),
{
    let ghost orig = entries@;
    let ghost k = key_of(e);
    let mut i: usize = 0;
    while i < entries.len()
        invariant
            0 <= i <= entries@.len(),
            entries@ == orig,
            old(entries)@ == orig,
            forall|j: int| 0 <= j < i ==> key_of(orig[j]) != k,
            k == key_of(e),
            unique_keys(orig),
        decreases entries@.len() - i,
    {
        if entries[i].relative_path == e.relative_path && entries[i].hash == e.hash {
            proof {
                assert(key_of(orig[i as int]) == k);
                assert(index_of_key(orig, k) == i as int) by {
                    let w = index_of_key(orig, k);
                    assert(0 <= w < orig.len() && key_of(orig[w]) == k);
                }
                lemma_key_set_characterization(orig);
                lemma_key_set_characterization(orig.update(i as int, e));
                assert forall|q: (Seq<char>, Seq<char>)|
                    key_set(orig.update(i as int, e)).contains(q) == key_set(orig).insert(
                        k,
                    ).contains(q) by {
                    let u = orig.update(i as int, e);
                    if has_key(u, q) {
                        let t = choose|t: int| 0 <= t < u.len() && key_of(u[t]) == q;
                        if t == i {
                            assert(q == k);
                        } else {
                            assert(key_of(orig[t]) == q);
                        }
                    }
                    if q == k {
                        assert(key_of(u[i as int]) == q);
                    } else if has_key(orig, q) {
                        let t = choose|t: int| 0 <= t < orig.len() && key_of(orig[t]) == q;
                        assert(t != i);
                        assert(key_of(u[t]) == q);
                    }
                }
            }
            entries.set(i, e);
            proof {
                let u = entries@;
                assert forall|a: int, b: int| 0 <= a < b < u.len() implies key_of(u[a])
                    != key_of(u[b]) by {
                    if a != i && b != i {
                        assert(u[a] == orig[a] && u[b] == orig[b]);
                    }
                }
            }
            return ;
        }
        i += 1;
    }
    proof {
        assert(!has_key(orig, k));
    }
    entries.push(e);
    proof {
        let u = entries@;
        assert(u.drop_last() =~= orig);
        assert(u.last() == e);
        assert(key_set(u) == key_set(orig).insert(k));
        assert forall|a: int, b: int| 0 <= a < b < u.len() implies key_of(u[a]) != key_of(
            u[b],
        ) by {
            if b == u.len() - 1 {
                assert(key_of(u[a]) != k);
            } else {
                assert(u[a] == orig[a] && u[b] == orig[b]);
            }
        }
    }
}

/// Rebuild a record list as a mapping: every identity key ends up exactly
/// once, the last record under a repeated key winning. A list whose keys
/// are already unique comes through unchanged.
fn build_mapping(input: Vec<FileEntry>) -> (m: Vec<FileEntry>)
    ensures
        unique_keys(m@),
        key_set(m@) =~= key_set(input@),
        unique_keys(input@) ==> m@ == input@,
{
    let ghost orig = input@;
    let mut rest = input;
    let mut m: Vec<FileEntry> = Vec::new();
    let ghost mut k: int = 0;
    while rest.len() > 0
        invariant
            0 <= k <= orig.len(),
            rest@ == orig.skip(k),
            unique_keys(m@),
            key_set(m@) =~= key_set(orig.take(k)),
            unique_keys(orig) ==> m@ == orig.take(k),
        decreases rest@.len(),
    {
        let e = rest.remove(0);
        proof {
            assert(e == orig[k]);
            assert(rest@ =~= orig.skip(k + 1));
        }
        let ghost m_pre = m@;
        insert_entry(&mut m, e);
        proof {
            assert(orig.take(k + 1).drop_last() =~= orig.take(k));
            assert(orig.take(k + 1).last() == orig[k]);
            assert(key_set(orig.take(k + 1)) == key_set(orig.take(k)).insert(key_of(orig[k])));
            if unique_keys(orig) {
                assert forall|j: int| 0 <= j < m_pre.len() implies key_of(m_pre[j]) != key_of(
                    e,
                ) by {
                    assert(m_pre[j] == orig.take(k)[j]);
                    assert(key_of(orig[j]) != key_of(orig[k]));
                }
                assert(!has_key(m_pre, key_of(e)));
                assert(m@ =~= orig.take(k + 1));
            }
            k = k + 1;
        }
    }
    proof {
        assert(orig.take(k) =~= orig);
    }
    m
}

/// Build the record of one regular file found during a walk: derive the
/// relative path by stripping the walk's root, hash the full contents, and
/// keep name and size. `None` exactly when `absolute_path` does not lie
/// under `base_path`; for any file the walk yields this cannot happen.
pub fn make_entry(
    base_path: &str,
    absolute_path: &str,
    file_name: String,
    size: u64,
    contents: &[u8],
) -> (r: Option<FileEntry>)
    ensures
        match r {
            Some(e) => {
                &&& is_under(base_path@, absolute_path@)
                &&& e.file_name@ == file_name@
                &&& e.absolute_path@ == absolute_path@
                &&& e.relative_path@ == relative_part(base_path@, absolute_path@)
                &&& e.hash@ == blake3_hex_of(contents@)
                &&& e.size == size
            },
            None => !is_under(base_path@, absolute_path@),
        },
{
    match relative_to(base_path, absolute_path) {
        Some(rel) => {
            let hash = hash_bytes(contents);
            Some(
                FileEntry {
                    file_name,
                    absolute_path: absolute_path.to_owned(),
                    relative_path: rel,
                    hash,
                    size,
                },
            )
        },
        None => None,
    }
}

/// The identity keys that only the source side holds: each produces
/// exactly one copy action.
pub open spec fn copied_keys(src: Seq<FileEntry>, tgt: Seq<FileEntry>) -> Set<
    (Seq<char>, Seq<char>),
> {
    key_set(src).difference(key_set(tgt))
}

/// The identity keys that only the target side holds: each produces
/// exactly one delete action.
pub open spec fn deleted_keys(src: Seq<FileEntry>, tgt: Seq<FileEntry>) -> Set<
    (Seq<char>, Seq<char>),
> {
    key_set(tgt).difference(key_set(src))
}


/// Position `j` of the copy pass is justified: it is the copy action of
/// some source record whose identity key the target side lacks.
pub open spec fn copy_action_justified(
    src: Seq<FileEntry>,
    tgt: Seq<FileEntry>,
    root: Seq<char>,
    a: Seq<ChangeView>,
    j: int,
) -> bool {
    exists|i: int|
        0 <= i < src.len() && !has_key(tgt, key_of(src[i])) && a[j] == copy_change(src[i], root)
}

/// Position `j` of the delete pass is justified: it is the delete action
/// of some target record whose identity key the source side lacks.
pub open spec fn delete_action_justified(
    src: Seq<FileEntry>,
    tgt: Seq<FileEntry>,
    a: Seq<ChangeView>,
    j: int,
) -> bool {
    exists|i: int|
        0 <= i < tgt.len() && !has_key(src, key_of(tgt[i])) && a[j] == delete_change(tgt[i])
}

proof fn lemma_unique_prefix(s: Seq<FileEntry>)
    requires
        unique_keys(s),
        s.len() > 0,
    ensures
        unique_keys(s.drop_last()),
        !has_key(s.drop_last(), key_of(s.last())),
{
    let s0 = s.drop_last();
    assert forall|a: int, b: int| 0 <= a < b < s0.len() implies key_of(s0[a]) != key_of(
        s0[b],
    ) by {
        assert(s0[a] == s[a] && s0[b] == s[b]);
    }
    if has_key(s0, key_of(s.last())) {
        let i = choose|i: int| 0 <= i < s0.len() && key_of(s0[i]) == key_of(s.last());
        assert(key_of(s[i]) == key_of(s[s.len() - 1]));
    }
}

proof fn lemma_copy_actions_props(src: Seq<FileEntry>, tgt: Seq<FileEntry>, root: Seq<char>)
    requires
        unique_keys(src),
    ensures
        copy_actions(src, tgt, root).len() == copied_keys(src, tgt).len(),
        forall|i: int|
            0 <= i < src.len() && !has_key(tgt, key_of(src[i])) ==> copy_actions(
                src,
                tgt,
                root,
            ).contains(copy_change(src[i], root)),
        forall|j: int|
            0 <= j < copy_actions(src, tgt, root).len() ==> copy_action_justified(
                src,
                tgt,
                root,
                copy_actions(src, tgt, root),
                j,
            ),
    decreases src.len(),
{
    lemma_key_set_characterization(src);
    lemma_key_set_characterization(tgt);
    if src.len() == 0 {
        assert(copied_keys(src, tgt) =~= Set::<(Seq<char>, Seq<char>)>::empty());
    } else {
        let s0 = src.drop_last();
        let e = src.last();
        let k = key_of(e);
        let ca = copy_actions(src, tgt, root);
        let pre = copy_actions(s0, tgt, root);
        lemma_unique_prefix(src);
        lemma_copy_actions_props(s0, tgt, root);
        lemma_key_set_characterization(s0);
        let d0 = copied_keys(s0, tgt);
        let d = copied_keys(src, tgt);
        assert(key_set(src) == key_set(s0).insert(k));
        vstd::set::axiom_set_difference_finite(key_set(s0), key_set(tgt));
        if has_key(tgt, k) {
            assert(d =~= d0);
            assert(ca =~= pre);
        } else {
            assert(d =~= d0.insert(k));
            assert(!d0.contains(k));
            vstd::set::axiom_set_insert_len(d0, k);
            assert(ca.len() == pre.len() + 1);
            assert(ca[pre.len() as int] == copy_change(e, root));
        }
        assert forall|i: int|
            0 <= i < src.len() && !has_key(tgt, key_of(src[i])) implies ca.contains(
            copy_change(src[i], root),
        ) by {
            if i < s0.len() {
                assert(s0[i] == src[i]);
                assert(pre.contains(copy_change(s0[i], root)));
                let j = choose|j: int|
                    0 <= j < pre.len() && pre[j] == copy_change(s0[i], root);
                assert(ca[j] == pre[j]);
                assert(ca.contains(copy_change(src[i], root)));
            } else {
                assert(src[i] == e);
                assert(ca[pre.len() as int] == copy_change(e, root));
                assert(ca.contains(copy_change(src[i], root)));
            }
        }
        assert forall|j: int| 0 <= j < ca.len() implies copy_action_justified(
            src,
            tgt,
            root,
            ca,
            j,
        ) by {
            if j < pre.len() {
                assert(copy_action_justified(s0, tgt, root, pre, j));
                let i = choose|i: int|
                    0 <= i < s0.len() && !has_key(tgt, key_of(s0[i])) && pre[j] == copy_change(
                        s0[i],
                        root,
                    );
                assert(src[i] == s0[i]);
                assert(ca[j] == pre[j]);
                assert(0 <= i < src.len() && !has_key(tgt, key_of(src[i])) && ca[j]
                    == copy_change(src[i], root));
            } else {
                let i = src.len() - 1;
                assert(ca[j] == copy_change(e, root));
                assert(0 <= i < src.len() && !has_key(tgt, key_of(src[i])) && ca[j]
                    == copy_change(src[i], root));
            }
        }
    }
}

proof fn lemma_delete_actions_props(src: Seq<FileEntry>, tgt: Seq<FileEntry>)
    requires
        unique_keys(tgt),
    ensures
        delete_actions(src, tgt).len() == deleted_keys(src, tgt).len(),
        forall|i: int|
            0 <= i < tgt.len() && !has_key(src, key_of(tgt[i])) ==> delete_actions(
                src,
                tgt,
            ).contains(delete_change(tgt[i])),
        forall|j: int|
            0 <= j < delete_actions(src, tgt).len() ==> delete_action_justified(
                src,
                tgt,
                delete_actions(src, tgt),
                j,
            ),
    decreases tgt.len(),
{
    lemma_key_set_characterization(src);
    lemma_key_set_characterization(tgt);
    if tgt.len() == 0 {
        assert(deleted_keys(src, tgt) =~= Set::<(Seq<char>, Seq<char>)>::empty());
    } else {
        let t0 = tgt.drop_last();
        let e = tgt.last();
        let k = key_of(e);
        let da = delete_actions(src, tgt);
        let pre = delete_actions(src, t0);
        lemma_unique_prefix(tgt);
        lemma_delete_actions_props(src, t0);
        lemma_key_set_characterization(t0);
        let d0 = deleted_keys(src, t0);
        let d = deleted_keys(src, tgt);
        assert(key_set(tgt) == key_set(t0).insert(k));
        vstd::set::axiom_set_difference_finite(key_set(t0), key_set(src));
        if has_key(src, k) {
            assert(d =~= d0);
            assert(da =~= pre);
        } else {
            assert(d =~= d0.insert(k));
            assert(!d0.contains(k));
            vstd::set::axiom_set_insert_len(d0, k);
            assert(da.len() == pre.len() + 1);
            assert(da[pre.len() as int] == delete_change(e));
        }
        assert forall|i: int|
            0 <= i < tgt.len() && !has_key(src, key_of(tgt[i])) implies da.contains(
            delete_change(tgt[i]),
        ) by {
            if i < t0.len() {
                assert(t0[i] == tgt[i]);
                assert(pre.contains(delete_change(t0[i])));
                let j = choose|j: int| 0 <= j < pre.len() && pre[j] == delete_change(t0[i]);
                assert(da[j] == pre[j]);
                assert(da.contains(delete_change(tgt[i])));
            } else {
                assert(tgt[i] == e);
                assert(da[pre.len() as int] == delete_change(e));
                assert(da.contains(delete_change(tgt[i])));
            }
        }
        assert forall|j: int| 0 <= j < da.len() implies delete_action_justified(
            src,
            tgt,
            da,
            j,
        ) by {
            if j < pre.len() {
                assert(delete_action_justified(src, t0, pre, j));
                let i = choose|i: int|
                    0 <= i < t0.len() && !has_key(src, key_of(t0[i])) && pre[j] == delete_change(
                        t0[i],
                    );
                assert(tgt[i] == t0[i]);
                assert(da[j] == pre[j]);
                assert(0 <= i < tgt.len() && !has_key(src, key_of(tgt[i])) && da[j]
                    == delete_change(tgt[i]));
            } else {
                let i = tgt.len() - 1;
                assert(da[j] == delete_change(e));
                assert(0 <= i < tgt.len() && !has_key(src, key_of(tgt[i])) && da[j]
                    == delete_change(tgt[i]));
            }
        }
    }
}

/// For mappings with unique keys the diff is exact: one copy action per
/// identity key only the source holds, one delete action per identity key
/// only the target holds, nothing else, and in particular nothing for a
/// key both sides hold. The total action count is the sum of the two
/// one-sided key counts.
pub proof fn lemma_diff_exact(src: Seq<FileEntry>, tgt: Seq<FileEntry>, root: Seq<char>)
    requires
        unique_keys(src),
        unique_keys(tgt),
    ensures
        spec_diff(src, tgt, root).len() == copied_keys(src, tgt).len() + deleted_keys(
            src,
            tgt,
        ).len(),
        forall|i: int|
            0 <= i < src.len() && !has_key(tgt, key_of(src[i])) ==> spec_diff(
                src,
                tgt,
                root,
            ).contains(copy_change(src[i], root)),
        forall|i: int|
            0 <= i < tgt.len() && !has_key(src, key_of(tgt[i])) ==> spec_diff(
                src,
                tgt,
                root,
            ).contains(delete_change(tgt[i])),
        forall|j: int|
            0 <= j < spec_diff(src, tgt, root).len() ==> copy_action_justified(
                src,
                tgt,
                root,
                spec_diff(src, tgt, root),
                j,
            ) || delete_action_justified(src, tgt, spec_diff(src, tgt, root), j),
{
    lemma_copy_actions_props(src, tgt, root);
    lemma_delete_actions_props(src, tgt);
    let ca = copy_actions(src, tgt, root);
    let da = delete_actions(src, tgt);
    let d = spec_diff(src, tgt, root);
    assert forall|i: int|
        0 <= i < src.len() && !has_key(tgt, key_of(src[i])) implies d.contains(
        copy_change(src[i], root),
    ) by {
        let j = choose|j: int| 0 <= j < ca.len() && ca[j] == copy_change(src[i], root);
        assert(d[j] == ca[j]);
        assert(d.contains(copy_change(src[i], root)));
    }
    assert forall|i: int|
        0 <= i < tgt.len() && !has_key(src, key_of(tgt[i])) implies d.contains(
        delete_change(tgt[i]),
    ) by {
        let j = choose|j: int| 0 <= j < da.len() && da[j] == delete_change(tgt[i]);
        assert(d[ca.len() + j] == da[j]);
        assert(d.contains(delete_change(tgt[i])));
    }
    assert forall|j: int| 0 <= j < d.len() implies copy_action_justified(src, tgt, root, d, j)
        || delete_action_justified(src, tgt, d, j) by {
        if j < ca.len() {
            assert(d[j] == ca[j]);
            assert(copy_action_justified(src, tgt, root, ca, j));
            let i = choose|i: int|
                0 <= i < src.len() && !has_key(tgt, key_of(src[i])) && ca[j] == copy_change(
                    src[i],
                    root,
                );
            assert(0 <= i < src.len() && !has_key(tgt, key_of(src[i])) && d[j] == copy_change(
                src[i],
                root,
            ));
        } else {
            assert(d[j] == da[j - ca.len()]);
            assert(delete_action_justified(src, tgt, da, j - ca.len()));
            let i = choose|i: int|
                0 <= i < tgt.len() && !has_key(src, key_of(tgt[i])) && da[j - ca.len()]
                    == delete_change(tgt[i]);
            assert(0 <= i < tgt.len() && !has_key(src, key_of(tgt[i])) && d[j]
                == delete_change(tgt[i]));
        }
    }
}

/// Holds the target root and the two identity-keyed mappings, ready for
/// diffing.
pub struct Scanner {
    pub target: String,
    pub source_files: Vec<FileEntry>,
    pub target_files: Vec<FileEntry>,
}

impl Scanner {
    /// Turn the scanned record lists of the source and target trees into
    /// identity-keyed mappings. Lists whose keys are already unique — the
    /// only case a real scan produces — are stored unchanged.
    pub fn new(source_files: Vec<FileEntry>, target_files: Vec<FileEntry>, target: &String) -> (s:
        Self)
        ensures
            s.target@ == target@,
            unique_keys(s.source_files@),
            unique_keys(s.target_files@),
            key_set(s.source_files@) =~= key_set(source_files@),
            key_set(s.target_files@) =~= key_set(target_files@),
            unique_keys(source_files@) ==> s.source_files@ == source_files@,
            unique_keys(target_files@) ==> s.target_files@ == target_files@,
    {
        Scanner {
            target: target.clone(),
            source_files: build_mapping(source_files),
            target_files: build_mapping(target_files),
        }
    }

    /// Compare the two mappings: one copy per identity key present only in
    /// the source, one delete per identity key present only in the target,
    /// nothing for keys present in both.
    pub fn calculate_diff(&self) -> (diff: Vec<FileEntryChange>)
        ensures
            diff.deep_view() == spec_diff(self.source_files@, self.target_files@, self.target@),
    {
        let mut diff: Vec<FileEntryChange> = Vec::new();
        let ghost src = self.source_files@;
        let ghost tgt = self.target_files@;
        let ghost root = self.target@;

        let mut i: usize = 0;
        while i < self.source_files.len()
            invariant
                0 <= i <= src.len(),
                src == self.source_files@,
                tgt == self.target_files@,
                root == self.target@,
                diff.deep_view() == copy_actions(src.take(i as int), tgt, root),
            decreases src.len() - i,
        {
            let ghost pre = diff.deep_view();
            let e = &self.source_files[i];
            if !mapping_contains_key(&self.target_files, &e.relative_path, &e.hash) {
                let source_path = e.absolute_path.clone();
                let target_path = join(&self.target, &e.relative_path);
                let ch = FileEntryChange {
                    source_path,
                    target_path,
                    action: FileChangeAction::Copy,
                };
                proof {
                    assert(ch@ == copy_change(src[i as int], root));
                }
                diff.push(ch);
                proof {
                    assert(diff.deep_view() =~= pre.push(ch@));
                }
            }
            proof {
                let t = src.take(i + 1);
                assert(t.drop_last() =~= src.take(i as int));
                assert(t.last() == src[i as int]);
                assert(diff.deep_view() =~= copy_actions(t, tgt, root));
            }
            i += 1;
        }
        proof {
            assert(src.take(src.len() as int) =~= src);
        }

        let mut i: usize = 0;
        while i < self.target_files.len()
            invariant
                0 <= i <= tgt.len(),
                src == self.source_files@,
                tgt == self.target_files@,
                root == self.target@,
                diff.deep_view() == copy_actions(src, tgt, root) + delete_actions(
                    src,
                    tgt.take(i as int),
                ),
            decreases tgt.len() - i,
        {
            let ghost pre = diff.deep_view();
            let e = &self.target_files[i];
            if !mapping_contains_key(&self.source_files, &e.relative_path, &e.hash) {
                let ch = FileEntryChange {
                    source_path: e.absolute_path.clone(),
                    target_path: e.absolute_path.clone(),
                    action: FileChangeAction::Delete,
                };
                proof {
                    assert(ch@ == delete_change(tgt[i as int]));
                }
                diff.push(ch);
                proof {
                    assert(diff.deep_view() =~= pre.push(ch@));
                }
            }
            proof {
                let t = tgt.take(i + 1);
                assert(t.drop_last() =~= tgt.take(i as int));
                assert(t.last() == tgt[i as int]);
                assert(diff.deep_view() =~= copy_actions(src, tgt, root) + delete_actions(
                    src,
                    t,
                ));
            }
            i += 1;
        }
        proof {
            assert(tgt.take(tgt.len() as int) =~= tgt);
        }
        diff
    }
}

} // verus!
