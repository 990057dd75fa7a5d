//! File records, identity keys and change actions.

use vstd::prelude::*;

verus! {

/// One record per regular file discovered during a walk of a directory tree.
///
/// `size` is informational only: it plays no part in identity or in the diff.
#[derive(Debug)]
pub struct FileEntry {
    pub file_name: String,
    pub absolute_path: String,
    pub relative_path: String,
    pub hash: String,
    pub size: u64,
}

/// The identity key of a record: a file on one side is "the same" as a file
/// on the other side exactly when both the relative path and the content
/// hash agree.
pub open spec fn key_of(e: FileEntry) -> (Seq<char>, Seq<char>) {
    (e.relative_path@, e.hash@)
}

/// Whether some record in `s` carries the identity key `k`.
pub open spec fn has_key(s: Seq<FileEntry>, k: (Seq<char>, Seq<char>)) -> bool {
    exists|i: int| 0 <= i < s.len() && key_of(s[i]) == k
}

/// The set of identity keys of a record sequence.
pub open spec fn key_set(s: Seq<FileEntry>) -> Set<(Seq<char>, Seq<char>)>
    decreases s.len(),
{
    if s.len() == 0 {
        Set::empty()
    } else {
        key_set(s.drop_last()).insert(key_of(s.last()))
    }
}

/// Within one mapping each identity key belongs to exactly one record.
pub open spec fn unique_keys(s: Seq<FileEntry>) -> bool {
    forall|i: int, j: int|
        0 <= i < j < s.len() ==> key_of(s[i]) != key_of(s[j])
}

/// `key_set` is finite and contains exactly the keys that `has_key` finds.
pub proof fn lemma_key_set_characterization(s: Seq<FileEntry>)
    ensures
        key_set(s).finite(),
        forall|k: (Seq<char>, Seq<char>)| key_set(s).contains(k) == has_key(s, k),
    decreases s.len(),
{
    if s.len() == 0 {
    } else {
        let s0 = s.drop_last();
        lemma_key_set_characterization(s0);
        assert(key_set(s) == key_set(s0).insert(key_of(s.last())));
        assert forall|k: (Seq<char>, Seq<char>)| key_set(s).contains(k) == has_key(s, k) by {
            if key_set(s).contains(k) {
                if k == key_of(s.last()) {
                    assert(key_of(s[s.len() - 1]) == k);
                } else {
                    assert(key_set(s0).contains(k));
                    assert(has_key(s0, k));
                    let i = choose|i: int| 0 <= i < s0.len() && key_of(s0[i]) == k;
                    assert(s0[i] == s[i]);
                    assert(key_of(s[i]) == k);
                }
            }
            if has_key(s, k) {
                let i = choose|i: int| 0 <= i < s.len() && key_of(s[i]) == k;
                if i < s.len() - 1 {
                    assert(s0[i] == s[i]);
                    assert(has_key(s0, k));
                    assert(key_set(s0).contains(k));
                }
            }
        }
    }
}

/// The character for one decimal digit.
pub open spec fn digit_char(d: nat) -> char {
    if d == 0 {
        '0'
    } else if d == 1 {
        '1'
    } else if d == 2 {
        '2'
    } else if d == 3 {
        '3'
    } else if d == 4 {
        '4'
    } else if d == 5 {
        '5'
    } else if d == 6 {
        '6'
    } else if d == 7 {
        '7'
    } else if d == 8 {
        '8'
    } else {
        '9'
    }
}

/// The decimal digits of `n`, most significant first, with no leading
/// zero except for `n == 0` itself.
pub open spec fn dec_digits(n: nat) -> Seq<char>
    decreases n,
{
    if n < 10 {
        seq![digit_char(n)]
    } else {
        dec_digits(n / 10).push(digit_char(n % 10))
    }
}

fn digit_str(d: u64) -> (r: &'static str)
    requires
        d < 10,
    ensures
        r@ == seq![digit_char(d as nat)],
{
    proof {
        reveal_strlit("0123456789");
    }
    let s = "0123456789";
    let r = s.substring_char(d as usize, d as usize + 1);
    proof {
        assert(r@ =~= seq![digit_char(d as nat)]);
    }
    r
}

/// Render a byte count in decimal.
pub fn u64_to_dec(n: u64) -> (r: String)
    ensures
        r@ == dec_digits(n as nat),
    decreases n,
{
    if n < 10 {
        let r = digit_str(n).to_owned();
        r
    } else {
        let mut s = u64_to_dec(n / 10);
        s.append(digit_str(n % 10));
        proof {
            assert(s@ =~= dec_digits(n as nat));
        }
        s
    }
}

/// What one record looks like as text, field by field.
pub open spec fn display_view(e: FileEntry) -> Seq<char> {
    "\nFile: "@ + e.file_name@ + "\nRelative path: "@ + e.relative_path@ + "\nAbsolute path: "@
        + e.absolute_path@ + "\nHash: "@ + e.hash@ + "\nSize: "@ + dec_digits(e.size as nat)
        + " bytes"@
}

impl FileEntry {
    /// The record rendered for diagnostics: name, paths, hash and size,
    /// one field per line.
    pub fn display_string(&self) -> (r: String)
        ensures
            r@ == display_view(*self),
    {
        let mut s = String::from_str("\nFile: ");
        s.append(self.file_name.as_str());
        s.append("\nRelative path: ");
        s.append(self.relative_path.as_str());
        s.append("\nAbsolute path: ");
        s.append(self.absolute_path.as_str());
        s.append("\nHash: ");
        s.append(self.hash.as_str());
        s.append("\nSize: ");
        let size = u64_to_dec(self.size);
        s.append(size.as_str());
        s.append(" bytes");
        s
    }
}

/// A change action: copy a source file into the target tree, or delete an
/// orphaned target file.
#[derive(Clone, Copy, PartialEq, Eq, Structural, Debug)]
pub enum FileChangeAction {
    Copy,
    Delete,
}

/// One planned filesystem change. For a copy, `source_path` is the source
/// record's absolute path and `target_path` is the target root joined with
/// the record's relative path. For a delete, both fields hold the orphaned
/// target record's absolute path.
#[derive(Debug)]
pub struct FileEntryChange {
    pub source_path: String,
    pub target_path: String,
    pub action: FileChangeAction,
}

/// The mathematical shadow of a `FileEntryChange`: the same fields with
/// strings taken as character sequences.
pub ghost struct ChangeView {
    pub source_path: Seq<char>,
    pub target_path: Seq<char>,
    pub action: FileChangeAction,
}

impl View for FileEntryChange {
    type V = ChangeView;

    open spec fn view(&self) -> ChangeView {
        ChangeView {
            source_path: self.source_path@,
            target_path: self.target_path@,
            action: self.action,
        }
    }
}

impl DeepView for FileEntryChange {
    type V = ChangeView;

    open spec fn deep_view(&self) -> ChangeView {
        self@
    }
}

} // verus!
