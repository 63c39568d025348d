use vstd::prelude::*;

verus! {

use crate::strutil::last_idx;
use crate::strutil::lemma_last_idx;
use crate::strutil::parse_u64_spec;
use crate::strutil::parse_u64;
use crate::strutil::rfind_char;
use crate::strutil::str_eq;
use vstd::string::StrSliceExecFns;
use vstd::string::StringExecFns;

// --- The profile-generation naming convention ---
//
// A path names a profile generation when its file name has the shape
// `<profile-name>-<generation>-link`: the component after the last `-` is
// exactly `link`, the component between the last two `-` parses as a `u64`,
// and the profile name (which may itself contain `-`) is what precedes them.
// The profile's base path is the whole path with the `-<generation>-link`
// suffix stripped.

/// A path with its trailing `/` separators removed: what remains ends in
/// the path's file name.
pub open spec fn trim_slashes(p: Seq<char>) -> Seq<char>
    decreases p.len(),
{
    if p.len() > 0 && p.last() == '/' {
        trim_slashes(p.drop_last())
    } else {
        p
    }
}

pub proof fn lemma_trim_slashes(p: Seq<char>)
    ensures
        trim_slashes(p).len() <= p.len(),
        trim_slashes(p) == p.take(trim_slashes(p).len() as int),
        forall|j: int| trim_slashes(p).len() <= j < p.len() ==> p[j] == '/',
        trim_slashes(p).len() > 0 ==> trim_slashes(p).last() != '/',
    decreases p.len(),
{
    if p.len() > 0 && p.last() == '/' {
        lemma_trim_slashes(p.drop_last());
        let q = trim_slashes(p);
        assert(p.drop_last() =~= p.take(p.len() - 1));
        assert(p.take(p.len() - 1).take(q.len() as int) =~= p.take(q.len() as int));
        assert forall|j: int| q.len() <= j < p.len() implies p[j] == '/' by {
            if j < p.len() - 1 {
                assert(p.drop_last()[j] == p[j]);
            }
        }
    }
}

/// Index of the first character of the file name within the trimmed path:
/// everything after the last `/` that precedes it.
pub open spec fn file_name_start(p: Seq<char>) -> int {
    last_idx(trim_slashes(p), '/') + 1
}

/// The file name component of a path: the last nonempty segment between
/// `/` separators (trailing separators ignored).
pub open spec fn file_name_of(p: Seq<char>) -> Seq<char> {
    trim_slashes(p).skip(file_name_start(p))
}

/// Classification of a path under the generation naming convention:
/// `Some((base_path, generation))` when it matches, `None` otherwise.
pub open spec fn classify_path(p: Seq<char>) -> Option<(Seq<char>, u64)> {
    let name = file_name_of(p);
    if name.len() >= 5 && name.subrange(name.len() - 5, name.len() as int) == "-link"@ {
        let stem = name.take(name.len() - 5);
        let j = last_idx(stem, '-');
        if j >= 0 {
            match parse_u64_spec(stem.skip(j + 1)) {
                Some(g) => Some((trim_slashes(p).take(file_name_start(p) + j), g)),
                None => None,
            }
        } else {
            None
        }
    } else {
        None
    }
}

/// Executable classifier. On a match it returns the length of the profile's
/// base path (a prefix of `p`) and the generation number.
pub fn classify_str(p: &str) -> (r: Option<(usize, u64)>)
    ensures
        match r {
            Some((end, g)) => end <= p@.len() && classify_path(p@) == Some(
                (p@.take(end as int), g),
            ),
            None => classify_path(p@) is None,
        },
{
    let plen = p.unicode_len();
    let mut tlen: usize = plen;
    while tlen > 0 && p.get_char(tlen - 1) == '/'
        invariant
            tlen <= plen,
            plen == p@.len(),
            forall|j: int| tlen <= j < plen ==> p@[j] == '/',
        decreases tlen,
    {
        tlen = tlen - 1;
    }
    let ghost q = trim_slashes(p@);
    proof {
        lemma_trim_slashes(p@);
        if q.len() < tlen {
            assert(p@[tlen - 1] == '/');
        }
        if q.len() > tlen {
            assert(q.last() == p@[q.len() - 1]);
        }
        assert(q.len() == tlen);
        assert(q =~= p@.take(tlen as int));
    }
    let t = p.substring_char(0, tlen);
    proof {
        assert(t@ =~= q);
        lemma_last_idx(t@, '/');
        reveal_strlit("-link");
    }
    let name_start: usize = match rfind_char(t, '/') {
        Some(i) => i + 1,
        None => 0,
    };
    assert(name_start == file_name_start(p@));
    let ghost name = file_name_of(p@);
    assert(name =~= q.subrange(name_start as int, tlen as int));
    if tlen - name_start < 5 {
        return None;
    }
    let suffix = t.substring_char(tlen - 5, tlen);
    if !str_eq(suffix, "-link") {
        proof {
            assert(name.subrange(name.len() - 5, name.len() as int) =~= suffix@);
        }
        return None;
    }
    proof {
        assert(name.subrange(name.len() - 5, name.len() as int) =~= suffix@);
    }
    let stem = t.substring_char(name_start, tlen - 5);
    let ghost stem_spec = name.take(name.len() - 5);
    proof {
        assert(stem_spec =~= stem@);
    }
    let j_rel: usize = match rfind_char(stem, '-') {
        Some(j) => j,
        None => {
            return None;
        },
    };
    proof {
        lemma_last_idx(stem@, '-');
    }
    let digits = t.substring_char(name_start + j_rel + 1, tlen - 5);
    proof {
        assert(stem_spec.skip(j_rel + 1) =~= digits@);
    }
    match parse_u64(digits) {
        Some(g) => {
            proof {
                assert(q.take(name_start + j_rel) =~= p@.take(name_start + j_rel));
            }
            Some((name_start + j_rel, g))
        },
        None => None,
    }
}

// --- Resolving a profile symlink to its active generation ---

/// The parent directory of a path: everything before the last `/`
/// (empty when the path has no `/`).
pub open spec fn parent_of(p: Seq<char>) -> Seq<char> {
    let i = last_idx(p, '/');
    if i >= 0 {
        p.take(i)
    } else {
        Seq::empty()
    }
}

/// A symlink target resolved against the directory that holds the symlink:
/// an absolute target stands as it is, a relative one is appended to the
/// symlink's parent directory.
pub open spec fn resolve_link(base: Seq<char>, link: Seq<char>) -> Seq<char> {
    if link.len() > 0 && link[0] == '/' {
        link
    } else {
        parent_of(base) + "/"@ + link
    }
}

/// The active generation a profile symlink announces: the generation number
/// of its resolved target when that target matches the naming convention,
/// unknown otherwise.
pub open spec fn active_gen_of(base: Seq<char>, link: Seq<char>) -> Option<u64> {
    match classify_path(resolve_link(base, link)) {
        Some((_b, g)) => Some(g),
        None => None,
    }
}

/// Executable form of `active_gen_of`: `base` is the profile symlink's own
/// path, `link` the target read from it.
pub fn active_gen_of_link(base: &str, link: &str) -> (r: Option<u64>)
    ensures
        r == active_gen_of(base@, link@),
{
    let llen = link.unicode_len();
    if llen > 0 && link.get_char(0) == '/' {
        match classify_str(link) {
            Some((_end, g)) => Some(g),
            None => None,
        }
    } else {
        let parent: &str = match rfind_char(base, '/') {
            Some(i) => {
                proof {
                    lemma_last_idx(base@, '/');
                }
                base.substring_char(0, i)
            },
            None => "",
        };
        proof {
            reveal_strlit("");
            assert(parent@ =~= parent_of(base@));
        }
        let mut resolved = parent.to_owned();
        resolved.append("/");
        resolved.append(link);
        proof {
            assert(resolved@ =~= resolve_link(base@, link@));
        }
        match classify_str(resolved.as_str()) {
            Some((_end, g)) => Some(g),
            None => None,
        }
    }
}

} // verus!
