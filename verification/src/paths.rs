//! Path containment for the system-root policy.  Containment is a
//! component-wise prefix test on `/`-separated paths, not a string-prefix
//! test: `/usrlocal` is not under `/usr`, while `/usr/lib` is.

use vstd::prelude::*;
use vstd::string::StrSliceExecFns;

use crate::text::split_by;
use crate::text::split_on;
use crate::text::str_eq;

verus! {

/// The path separator as a one-element separator set.
pub open spec fn slash_chars() -> Seq<char> {
    seq!['/']
}

/// The non-empty `/`-separated components of a path.
pub open spec fn path_segments(p: Seq<char>) -> Seq<Seq<char>> {
    split_by(p, slash_chars())
}

/// Whether the path begins at the filesystem root.
pub open spec fn is_absolute(p: Seq<char>) -> bool {
    p.len() > 0 && p[0] == '/'
}

/// Whether `p` is equal to, or nested under, `root`: both are absolute or
/// both relative, and every component of `root` is an initial component of
/// `p`.
pub open spec fn path_within(p: Seq<char>, root: Seq<char>) -> bool {
    is_absolute(p) == is_absolute(root) && path_segments(root).is_prefix_of(path_segments(p))
}

/// Whether `dir` lies under at least one of `roots`.
pub open spec fn under_some_root(roots: Seq<Seq<char>>, dir: Seq<char>) -> bool {
    exists|j: int| 0 <= j < roots.len() && path_within(dir, roots[j])
}

/// Whether the path begins with the path separator.
pub fn path_is_absolute(p: &str) -> (r: bool)
    ensures
        r == is_absolute(p@),
{
    let n = p.unicode_len();
    if n == 0 {
        false
    } else {
        p.get_char(0) == '/'
    }
}

/// The component-wise containment test: whether `p` is equal to or nested
/// under `root`.
pub fn path_starts_with(p: &str, root: &str) -> (r: bool)
    ensures
        r == path_within(p@, root@),
{
    if path_is_absolute(p) != path_is_absolute(root) {
        return false;
    }
    let seps: [char; 1] = ['/'];
    proof {
        assert(seps@ =~= slash_chars());
    }
    let segs_p = split_on(p, &seps);
    let segs_r = split_on(root, &seps);
    if segs_r.len() > segs_p.len() {
        return false;
    }
    let mut i: usize = 0;
    while i < segs_r.len()
        invariant
            segs_p.deep_view() == path_segments(p@),
            segs_r.deep_view() == path_segments(root@),
            segs_r@.len() <= segs_p@.len(),
            i <= segs_r@.len(),
            is_absolute(p@) == is_absolute(root@),
            forall|j: int| 0 <= j < i ==> path_segments(root@)[j] == path_segments(p@)[j],
        decreases segs_r@.len() - i,
    {
        if !str_eq(segs_r[i].as_str(), segs_p[i].as_str()) {
            proof {
                assert(path_segments(root@)[i as int] != path_segments(p@)[i as int]);
                assert(!path_segments(root@).is_prefix_of(path_segments(p@))) by {
                    if path_segments(root@).is_prefix_of(path_segments(p@)) {
                        assert(path_segments(root@)[i as int] == path_segments(p@).subrange(
                            0,
                            path_segments(root@).len() as int,
                        )[i as int]);
                    }
                }
            }
            return false;
        }
        i += 1;
    }
    proof {
        assert(path_segments(root@) =~= path_segments(p@).subrange(
            0,
            path_segments(root@).len() as int,
        ));
    }
    true
}

/// Whether `dir` lies under at least one of the given roots.
pub fn under_any_root(dir: &str, roots: &Vec<String>) -> (r: bool)
    ensures
        r == under_some_root(roots.deep_view(), dir@),
{
    let mut j: usize = 0;
    while j < roots.len()
        invariant
            j <= roots@.len(),
            forall|t: int| 0 <= t < j ==> !path_within(dir@, roots.deep_view()[t]),
        decreases roots@.len() - j,
    {
        if path_starts_with(dir, roots[j].as_str()) {
            proof {
                assert(path_within(dir@, roots.deep_view()[j as int]));
            }
            return true;
        }
        j += 1;
    }
    false
}

} // verus!
