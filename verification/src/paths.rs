//! Textual path arithmetic: joining a root with a relative path, stripping
//! a root prefix, and finding a path's parent directory.

use vstd::prelude::*;

verus! {

/// The target path of a copy: the root, a separator, then the relative path.
pub open spec fn join_path(root: Seq<char>, rel: Seq<char>) -> Seq<char> {
    root + seq!['/'] + rel
}

/// `abs` lies under the directory `base`: it extends `base` by a separator
/// and at least the separator itself.
pub open spec fn is_under(base: Seq<char>, abs: Seq<char>) -> bool {
    &&& abs.len() > base.len()
    &&& abs.take(base.len() as int) == base
    &&& abs[base.len() as int] == '/'
}

/// What remains of `abs` once the `base` prefix and its separator are gone.
pub open spec fn relative_part(base: Seq<char>, abs: Seq<char>) -> Seq<char> {
    abs.skip(base.len() + 1 as int)
}

/// Join a root directory and a relative path with a separator.
pub fn join(root: &String, rel: &String) -> (r: String)
    ensures
        r@ == join_path(root@, rel@),
{
    proof {
        reveal_strlit("/");
        assert("/"@ =~= seq!['/']);
    }
    root.clone().concat("/").concat(rel.as_str())
}

/// Strip the `base` prefix (and the separator after it) from `absolute`,
/// yielding the relative path; `None` exactly when `absolute` does not lie
/// under `base`.
pub fn relative_to(base: &str, absolute: &str) -> (r: Option<String>)
    ensures
        match r {
            Some(rel) => is_under(base@, absolute@) && rel@ == relative_part(
                base@,
                absolute@,
            ),
            None => !is_under(base@, absolute@),
        },
{
    let blen = base.unicode_len();
    let alen = absolute.unicode_len();
    if alen <= blen {
        return None;
    }
    let mut j: usize = 0;
    while j < blen
        invariant
            0 <= j <= blen,
            blen == base@.len(),
            blen < alen == absolute@.len(),
            forall|t: int| 0 <= t < j ==> absolute@[t] == base@[t],
        decreases blen - j,
    {
        if absolute.get_char(j) != base.get_char(j) {
            proof {
                assert(absolute@.take(blen as int)[j as int] != base@[j as int]);
            }
            return None;
        }
        j += 1;
    }
    proof {
        assert(absolute@.take(blen as int) =~= base@);
    }
    if absolute.get_char(blen) != '/' {
        return None;
    }
    let rel = absolute.substring_char(blen + 1, alen).to_owned();
    proof {
        assert(rel@ =~= relative_part(base@, absolute@));
    }
    Some(rel)
}

/// The directory part of `path`: everything before the last separator.
/// `None` exactly when `path` holds no separator at all.
pub fn parent_dir(path: &str) -> (r: Option<String>)
    ensures
        match r {
            Some(p) => exists|i: int|
                {
                    &&& 0 <= i < path@.len()
                    &&& path@[i] == '/'
                    &&& (forall|t: int| i < t < path@.len() ==> path@[t] != '/')
                    &&& p@ == path@.take(i)
                },
            None => forall|t: int| 0 <= t < path@.len() ==> path@[t] != '/',
        },
{
    let len = path.unicode_len();
    let mut j: usize = len;
    while j > 0
        invariant
            0 <= j <= len,
            len == path@.len(),
            forall|t: int| j <= t < len ==> path@[t] != '/',
        decreases j,
    {
        j -= 1;
        if path.get_char(j) == '/' {
            let p = path.substring_char(0, j).to_owned();
            proof {
                assert(p@ =~= path@.take(j as int));
            }
            return Some(p);
        }
    }
    None
}

} // verus!
