use vstd::prelude::*;

verus! {

use crate::gcroot::ActiveState;
use crate::gcroot::Profile;
use crate::gcroot::gen_active_state;
use crate::gcroot::wf_profile;
use crate::parse::sep;
use crate::parse::split_line;
use crate::strutil::lemma_last_match_idx;
use crate::strutil::last_match_idx;

/// Law: re-serializing a parsed line with the separator reproduces the
/// original line, for every line the parser accepts.
pub proof fn lemma_parse_round_trip(line: Seq<char>, p: Seq<char>, t: Seq<char>)
    requires
        split_line(line) == Some((p, t)),
    ensures
        line == p + sep() + t,
{
    reveal_strlit(" -> ");
    lemma_last_match_idx(line, sep());
    let i = last_match_idx(line, sep());
    assert(line.subrange(i, i + sep().len() as int) == sep());
    assert(line =~= line.take(i) + line.subrange(i, i + sep().len() as int) + line.skip(
        i + sep().len() as int,
    ));
}

/// Law: parsing is injective — two lines that parse to the same
/// `(path, target)` pair are the same line.
pub proof fn lemma_parse_injective(l1: Seq<char>, l2: Seq<char>)
    requires
        split_line(l1) is Some,
        split_line(l1) == split_line(l2),
    ensures
        l1 == l2,
{
    let pt = split_line(l1).unwrap();
    lemma_parse_round_trip(l1, pt.0, pt.1);
    lemma_parse_round_trip(l2, pt.0, pt.1);
}

/// Law: within a well-formed profile at most one generation is marked
/// active, and only when the profile's active generation is known.
pub proof fn lemma_at_most_one_active(p: Profile, i: int, j: int)
    requires
        wf_profile(p),
        0 <= i < p.generations@.len(),
        0 <= j < p.generations@.len(),
        p.generations@[i].is_active == ActiveState::Active,
        p.generations@[j].is_active == ActiveState::Active,
    ensures
        i == j,
        p.active_generation == Some(p.generations@[i].generation),
{
    assert(gen_active_state(p.active_generation, p.generations@[i].generation)
        == ActiveState::Active);
    assert(gen_active_state(p.active_generation, p.generations@[j].generation)
        == ActiveState::Active);
    if i != j {
        assert(p.generations@[i].generation != p.generations@[j].generation);
    }
}

} // verus!
