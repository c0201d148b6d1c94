use vstd::prelude::*;

verus! {

/// The directory prefix under which tracked song files live.
pub open spec fn tracked_prefix() -> Seq<char> {
    "output/songs"@
}

/// A path is tracked when its components start with the tracked directory:
/// it is the directory itself, or lies strictly below it.
pub open spec fn is_tracked(p: Seq<char>) -> bool {
    &&& p.len() >= tracked_prefix().len()
    &&& p.subrange(0, tracked_prefix().len() as int) == tracked_prefix()
    &&& (p.len() == tracked_prefix().len() || p[tracked_prefix().len() as int] == '/')
}

/// Index where the file name of a path begins: just after the last '/'.
pub open spec fn name_start(p: Seq<char>) -> int
    decreases p.len(),
{
    if p.len() == 0 {
        0
    } else if p[p.len() - 1] == '/' {
        p.len() as int
    } else {
        name_start(p.drop_last())
    }
}

/// Index of the last '.' of a file name, or -1 when it has none.
pub open spec fn last_dot(f: Seq<char>) -> int
    decreases f.len(),
{
    if f.len() == 0 {
        -1
    } else if f[f.len() - 1] == '.' {
        f.len() - 1
    } else {
        last_dot(f.drop_last())
    }
}

/// The stem of a file name: everything before its last '.', unless that dot
/// leads the name or the name has none.
pub open spec fn stem_of_name(f: Seq<char>) -> Seq<char> {
    if last_dot(f) > 0 {
        f.subrange(0, last_dot(f))
    } else {
        f
    }
}

/// The identifier a path stands for: the stem of its file name, provided the
/// path is tracked and has a file name at all.
pub open spec fn video_id(p: Seq<char>) -> Option<Seq<char>> {
    if !is_tracked(p) {
        None
    } else {
        let f = p.subrange(name_start(p), p.len() as int);
        if f.len() == 0 {
            None
        } else {
            Some(stem_of_name(f))
        }
    }
}

/// Whether the path lies under the tracked directory.
pub fn is_tracked_path(path: &str) -> (r: bool)
    ensures
        r == is_tracked(path@),
{
    let pre: &str = "output/songs";
    let n = path.unicode_len();
    let plen = pre.unicode_len();
    if n < plen {
        return false;
    }
    let mut i: usize = 0;
    while i < plen
        invariant
            pre@ == tracked_prefix(),
            n == path@.len(),
            plen == pre@.len(),
            n >= plen,
            i <= plen,
            forall|j: int| 0 <= j < i ==> path@[j] == pre@[j],
        decreases plen - i,
    {
        if path.get_char(i) != pre.get_char(i) {
            proof {
                assert(path@.subrange(0, plen as int)[i as int] == path@[i as int]);
            }
            return false;
        }
        i += 1;
    }
    proof {
        assert(path@.subrange(0, plen as int) =~= tracked_prefix());
    }
    if n == plen {
        true
    } else {
        let c = path.get_char(plen);
        c == '/'
    }
}

/// Extracts the identifier from a path: `Some` exactly when the path is
/// tracked and carries a file name.
pub fn video_id_of_path(path: &str) -> (r: Option<String>)
    ensures
        (r is None) == (video_id(path@) is None),
        r matches Some(s) ==> video_id(path@) == Some(s@),
{
    if !is_tracked_path(path) {
        return None;
    }
    let n = path.unicode_len();
    let mut start: usize = 0;
    let mut i: usize = 0;
    while i < n
        invariant
            n == path@.len(),
            i <= n,
            start <= i,
            start as int == name_start(path@.take(i as int)),
        decreases n - i,
    {
        let c = path.get_char(i);
        if c == '/' {
            start = i + 1;
        }
        i += 1;
        proof {
            assert(path@.take(i as int).drop_last() =~= path@.take(i - 1));
            assert(path@.take(i as int).last() == path@[i - 1]);
        }
    }
    proof {
        assert(path@.take(n as int) =~= path@);
    }
    if start == n {
        proof {
            assert(path@.subrange(name_start(path@), n as int) =~= Seq::<char>::empty());
        }
        return None;
    }
    let fname = path.substring_char(start, n);
    let flen = n - start;
    proof {
        assert(fname@ == path@.subrange(name_start(path@), n as int));
        assert(fname@.len() == flen);
    }
    let mut dot: usize = 0;
    let mut found = false;
    let mut j: usize = 0;
    while j < flen
        invariant
            fname@.len() == flen,
            j <= flen,
            found ==> dot < j,
            (if found {
                dot as int
            } else {
                -1
            }) == last_dot(fname@.take(j as int)),
        decreases flen - j,
    {
        let c = fname.get_char(j);
        if c == '.' {
            dot = j;
            found = true;
        }
        j += 1;
        proof {
            assert(fname@.take(j as int).drop_last() =~= fname@.take(j - 1));
            assert(fname@.take(j as int).last() == fname@[j - 1]);
        }
    }
    proof {
        assert(fname@.take(flen as int) =~= fname@);
    }
    let stem: &str = if found && dot > 0 {
        fname.substring_char(0, dot)
    } else {
        fname
    };
    Some(stem.to_owned())
}

} // verus!
