use vstd::prelude::*;

verus! {

use crate::strutil::has_prefix;
use crate::strutil::last_match_idx;
use crate::strutil::lemma_last_match_idx;
use crate::strutil::rfind_str;
use vstd::string::StrSliceExecFns;
use vstd::string::StringExecFns;

// --- Splitting the listing text into lines ---

/// Index of the first `'\n'` in `s`, or `s.len()` when there is none.
pub open spec fn first_nl(s: Seq<char>) -> int
    decreases s.len(),
{
    if s.len() == 0 {
        0
    } else if s[0] == '\n' {
        0
    } else {
        1 + first_nl(s.skip(1))
    }
}

pub proof fn lemma_first_nl(s: Seq<char>)
    ensures
        0 <= first_nl(s) <= s.len(),
        first_nl(s) < s.len() ==> s[first_nl(s)] == '\n',
        forall|j: int| 0 <= j < first_nl(s) ==> s[j] != '\n',
    decreases s.len(),
{
    if s.len() > 0 && s[0] != '\n' {
        lemma_first_nl(s.skip(1));
        assert forall|j: int| 0 <= j < first_nl(s) implies s[j] != '\n' by {
            if j >= 1 {
                assert(s.skip(1)[j - 1] == s[j]);
            }
        }
    }
}

/// A line with a trailing `'\r'` stripped.
pub open spec fn strip_cr(l: Seq<char>) -> Seq<char> {
    if l.len() > 0 && l.last() == '\r' {
        l.drop_last()
    } else {
        l
    }
}

/// The lines of a text, as `str::lines` yields them: split at `'\n'`, a
/// `'\r'` just before the `'\n'` dropped, no empty line after a final `'\n'`.
pub open spec fn lines_of(s: Seq<char>) -> Seq<Seq<char>>
    decreases s.len(),
    via lines_of_dec
{
    if s.len() == 0 {
        Seq::empty()
    } else {
        let i = first_nl(s);
        if i < s.len() {
            seq![strip_cr(s.take(i))] + lines_of(s.skip(i + 1))
        } else {
            seq![s]
        }
    }
}

#[via_fn]
proof fn lines_of_dec(s: Seq<char>) {
    lemma_first_nl(s);
}

/// Position of the first `'\n'` at or after `start`, or the length when
/// there is none.
fn find_nl(s: &str, start: usize) -> (r: usize)
    requires
        start <= s@.len(),
    ensures
        start <= r <= s@.len(),
        r < s@.len() ==> s@[r as int] == '\n',
        forall|j: int| start <= j < r ==> s@[j] != '\n',
{
    let len = s.unicode_len();
    let mut k: usize = start;
    while k < len
        invariant
            start <= k <= len,
            len == s@.len(),
            forall|j: int| start <= j < k ==> s@[j] != '\n',
        decreases len - k,
    {
        if s.get_char(k) == '\n' {
            return k;
        }
        k = k + 1;
    }
    k
}

/// Executable line splitting, equal to `lines_of`.
pub fn split_lines(s: &str) -> (r: Vec<String>)
    ensures
        r@.len() == lines_of(s@).len(),
        forall|i: int| 0 <= i < r@.len() ==> r@[i]@ == lines_of(s@)[i],
{
    let len = s.unicode_len();
    let mut out: Vec<String> = Vec::new();
    let mut start: usize = 0;
    proof {
        assert(s@.skip(0) =~= s@);
        assert(out@.map_values(|l: String| l@) =~= Seq::<Seq<char>>::empty());
        assert(lines_of(s@) =~= out@.map_values(|l: String| l@) + lines_of(
            s@.skip(start as int),
        ));
    }
    while start < len
        invariant
            start <= len,
            len == s@.len(),
            lines_of(s@) =~= out@.map_values(|l: String| l@) + lines_of(s@.skip(start as int)),
        decreases len - start,
    {
        let k = find_nl(s, start);
        let ghost t = s@.skip(start as int);
        proof {
            lemma_first_nl(t);
            assert(forall|j: int| 0 <= j < t.len() ==> t[j] == s@[start + j]);
            if first_nl(t) < k - start {
                assert(s@[start + first_nl(t)] != '\n');
            }
            if first_nl(t) > k - start && k < len {
                assert(t[k - start] != '\n');
            }
            assert(first_nl(t) == k - start);
        }
        let end: usize = if k < len && k > start && s.get_char(k - 1) == '\r' {
            k - 1
        } else {
            k
        };
        let line = s.substring_char(start, end).to_owned();
        proof {
            if k < len {
                assert(t.take(k - start) =~= s@.subrange(start as int, k as int));
                if k > start && s@[k - 1] == '\r' {
                    assert(strip_cr(t.take(k - start)) =~= s@.subrange(start as int, end as int));
                } else {
                    assert(strip_cr(t.take(k - start)) =~= s@.subrange(start as int, end as int));
                }
                assert(t.skip(k - start + 1) =~= s@.skip(k + 1));
            } else {
                assert(t =~= s@.subrange(start as int, end as int));
            }
        }
        let mut out2 = out;
        out2.push(line);
        proof {
            assert(out2@.map_values(|l: String| l@) =~= out@.map_values(|l: String| l@)
                + seq![s@.subrange(start as int, end as int)]);
            if k < len {
                assert(lines_of(t) == seq![strip_cr(t.take(k - start))] + lines_of(
                    t.skip(k - start + 1),
                ));
            } else {
                assert(lines_of(t) == seq![t]);
                assert(lines_of(s@.skip(len as int)) =~= Seq::<Seq<char>>::empty());
            }
        }
        out = out2;
        start = if k < len {
            k + 1
        } else {
            len
        };
        proof {
            assert(lines_of(s@) =~= out@.map_values(|l: String| l@) + lines_of(
                s@.skip(start as int),
            ));
        }
    }
    proof {
        assert(s@.skip(len as int) =~= Seq::<char>::empty());
        assert(lines_of(s@) =~= out@.map_values(|l: String| l@));
    }
    out
}

// --- Splitting one listing line at the last separator ---

/// The separator between a root's location and its target in a listing line.
pub open spec fn sep() -> Seq<char> {
    " -> "@
}

/// Splitting a listing line at the last occurrence of the separator:
/// `Some((path, target))`, or `None` when the line holds no separator.
pub open spec fn split_line(line: Seq<char>) -> Option<(Seq<char>, Seq<char>)> {
    let i = last_match_idx(line, sep());
    if i >= 0 {
        Some((line.take(i), line.skip(i + sep().len())))
    } else {
        None
    }
}

/// Text-level exclusion of a parsed path: `/proc` roots (ephemeral,
/// process-owned) and `{...}` marker entries (not real filesystem paths).
pub open spec fn excluded(path: Seq<char>) -> bool {
    "/proc"@.is_prefix_of(path) || (path.len() > 0 && path[0] == '{' && path.last() == '}')
}

/// Executable form of `split_line`.
pub fn split_line_exec(line: &str) -> (r: Option<(String, String)>)
    ensures
        match r {
            Some((p, t)) => split_line(line@) == Some((p@, t@)),
            None => split_line(line@) is None,
        },
{
    proof {
        reveal_strlit(" -> ");
    }
    match rfind_str(line, " -> ") {
        Some(i) => {
            proof {
                lemma_last_match_idx(line@, sep());
            }
            let len = line.unicode_len();
            let p = line.substring_char(0, i).to_owned();
            let t = line.substring_char(i + 4, len).to_owned();
            proof {
                assert(line@.take(i as int) =~= p@);
                assert(line@.skip(i + sep().len()) =~= t@);
            }
            Some((p, t))
        },
        None => None,
    }
}

/// Executable form of `excluded`.
pub fn excluded_exec(path: &str) -> (r: bool)
    ensures
        r == excluded(path@),
{
    if has_prefix(path, "/proc") {
        return true;
    }
    let len = path.unicode_len();
    len > 0 && path.get_char(0) == '{' && path.get_char(len - 1) == '}'
}

} // verus!
