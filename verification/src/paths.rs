//! Safety of relative paths written during extraction. A path is safe to
//! join under an extraction root exactly when it is relative (no leading
//! separator), has no empty component, has no `..` component, and holds
//! no byte that another platform reads as a separator or a drive mark
//! (the backslash and the colon): such a path can only name something at
//! or below the root, on every platform the tool runs on.

use vstd::prelude::*;

verus! {

/// The path does not begin with a separator.
pub open spec fn not_absolute(s: Seq<u8>) -> bool {
    s.len() > 0 ==> s[0] != 47
}

/// No empty component: no two separators stand next to each other and
/// the path does not end with one.
pub open spec fn no_empty_component(s: Seq<u8>) -> bool {
    &&& forall|i: int| 0 <= i < s.len() - 1 ==> !(#[trigger] s[i] == 47 && s[i + 1] == 47)
    &&& (s.len() > 0 ==> s[s.len() - 1] != 47)
}

/// Whether a `..` component begins at position `i`.
pub open spec fn dotdot_at(s: Seq<u8>, i: int) -> bool {
    &&& 0 <= i <= s.len() - 2
    &&& s[i] == 46 && s[i + 1] == 46
    &&& (i == 0 || s[i - 1] == 47)
    &&& (i + 2 == s.len() || s[i + 2] == 47)
}

/// No component of the path is `..`.
pub open spec fn no_dotdot(s: Seq<u8>) -> bool {
    forall|i: int| !dotdot_at(s, i)
}

/// No byte that another platform reads as a separator or a drive mark:
/// neither the backslash nor the colon.
pub open spec fn no_foreign_separator(s: Seq<u8>) -> bool {
    forall|i: int| 0 <= i < s.len() ==> #[trigger] s[i] != 92 && s[i] != 58
}

/// A non-empty relative path with no empty component and no `..`
/// component: joining it under a root names something below the root.
pub open spec fn safe_rel_path(s: Seq<u8>) -> bool {
    &&& s.len() > 0
    &&& not_absolute(s)
    &&& no_empty_component(s)
    &&& no_dotdot(s)
    &&& no_foreign_separator(s)
}

/// True exactly when the path is safe to join under an extraction root.
pub fn check_safe_rel_path(v: &Vec<u8>) -> (r: bool)
    ensures
        r == safe_rel_path(v@),
{
    let n = v.len();
    if n == 0 {
        return false;
    }
    if v[0] == 47 {
        return false;
    }
    if v[n - 1] == 47 {
        return false;
    }
    for i in 0..n
        invariant
            n == v@.len(),
            forall|k: int| 0 <= k < i ==> #[trigger] v@[k] != 92 && v@[k] != 58,
    {
        if v[i] == 92 || v[i] == 58 {
            return false;
        }
    }
    for i in 0..n - 1
        invariant
            n == v@.len(),
            n > 0,
            forall|k: int| 0 <= k < i ==> !(#[trigger] v@[k] == 47 && v@[k + 1] == 47),
    {
        if v[i] == 47 && v[i + 1] == 47 {
            return false;
        }
    }
    for i in 0..n - 1
        invariant
            n == v@.len(),
            n > 0,
            forall|k: int| 0 <= k < i ==> !dotdot_at(v@, k),
    {
        let two_dots = v[i] == 46 && v[i + 1] == 46;
        let left_edge = i == 0 || v[i - 1] == 47;
        let right_edge = i + 2 == n || v[i + 2] == 47;
        if two_dots && left_edge && right_edge {
            assert(dotdot_at(v@, i as int));
            return false;
        }
    }
    proof {
        assert forall|i: int| !dotdot_at(v@, i) by {
            if 0 <= i <= v@.len() - 2 {
                assert(!dotdot_at(v@, i));
            }
        }
    }
    true
}

} // verus!
