use vstd::prelude::*;

verus! {

use crate::classify::active_gen_of;
use crate::classify::active_gen_of_link;
use crate::classify::classify_path;
use crate::classify::classify_str;
use crate::fsio::fs_can_read;
use crate::fsio::fs_can_write;
use crate::fsio::fs_is_symlink;
use crate::fsio::fs_read_link;
use crate::parse::excluded;
use crate::parse::excluded_exec;
use crate::parse::lines_of;
use crate::parse::split_line;
use crate::parse::split_line_exec;
use crate::parse::split_lines;
use crate::strutil::has_prefix;
use crate::strutil::last_idx;
use crate::strutil::lemma_last_idx;
use crate::strutil::lex_le;
use crate::strutil::lemma_lex_total;
use crate::strutil::lemma_lex_trans;
use crate::strutil::rfind_char;
use crate::strutil::str_eq;
use crate::strutil::str_le;
use crate::strutil::str_lt;
use crate::GcError;
use vstd::string::StrSliceExecFns;

// --- The root records ---

/// A garbage-collection root: a symlink and the store path it keeps alive.
#[derive(Debug)]
pub struct GCRoot {
    /// Location of the symlink.
    pub path: String,
    /// Where the symlink points to.
    pub target: String,
}

/// Mathematical value of a `GCRoot`.
#[verifier::ext_equal]
pub struct GCRootV {
    pub path: Seq<char>,
    pub target: Seq<char>,
}

impl View for GCRoot {
    type V = GCRootV;

    open spec fn view(&self) -> GCRootV {
        GCRootV { path: self.path@, target: self.target@ }
    }
}

impl Clone for GCRoot {
    fn clone(&self) -> (r: Self)
        ensures
            r@ == self@,
    {
        GCRoot { path: self.path.clone(), target: self.target.clone() }
    }
}

/// Whether a generation root is its profile's active generation; `Unknown`
/// when the profile's own active generation could not be determined.
#[derive(Debug, Clone, Copy, PartialEq, Eq, Structural)]
pub enum ActiveState {
    Active,
    Inactive,
    Unknown,
}

/// A root recognized as one numbered generation of a profile.
#[derive(Debug)]
pub struct GenerationRoot {
    /// Location of the symlink.
    pub location: String,
    /// Where the symlink points to.
    pub target: String,
    /// The generation number carried by the file name.
    pub generation: u64,
    /// Whether this generation is the profile's active one.
    pub is_active: ActiveState,
}

/// A profile: a base path owning an ascending series of generation roots.
#[derive(Debug)]
pub struct Profile {
    /// The profile's stable symlink, without any generation suffix.
    pub path: String,
    /// `Some(n)` when the profile's symlink resolves to generation `n`;
    /// `None` when the active generation is unknown (for instance because
    /// the symlink is unreadable), not "no active generation".
    pub active_generation: Option<u64>,
    /// The generation roots, ascending and unique by generation number.
    pub generations: Vec<GenerationRoot>,
}

/// The finished model: profiles plus the standalone roots.
#[derive(Debug)]
pub struct GCRoots {
    /// Profiles, ascending by base path.
    pub profiles: Vec<Profile>,
    /// Roots that belong to no profile, ascending by location.
    pub standalone: Vec<GCRoot>,
}

// --- Well-formedness ---

/// The activity state a generation gets, given the profile's active
/// generation.
pub open spec fn gen_active_state(active: Option<u64>, g: u64) -> ActiveState {
    match active {
        Option::None => ActiveState::Unknown,
        Option::Some(a) => if a == g {
            ActiveState::Active
        } else {
            ActiveState::Inactive
        },
    }
}

/// Generations sorted strictly ascending by generation number.
pub open spec fn sorted_gens(s: Seq<GenerationRoot>) -> bool {
    forall|i: int, j: int|
        0 <= i < j < s.len() ==> (#[trigger] s[i]).generation < (#[trigger] s[j]).generation
}

/// A profile's invariant: generations ascending and unique, every entry's
/// activity flag agreeing with the profile's active generation, and every
/// entry's location classifying to this profile and its own number.
pub open spec fn wf_profile(p: Profile) -> bool {
    &&& sorted_gens(p.generations@)
    &&& forall|i: int|
        0 <= i < p.generations@.len() ==> (#[trigger] p.generations@[i]).is_active
            == gen_active_state(p.active_generation, p.generations@[i].generation)
    &&& forall|i: int|
        0 <= i < p.generations@.len() ==> classify_path(
            (#[trigger] p.generations@[i]).location@,
        ) == Some((p.path@, p.generations@[i].generation))
}

/// The whole model's invariant: profiles strictly ascending by base path,
/// each well formed, and standalone roots ascending by location.
pub open spec fn wf_gcroots(m: GCRoots) -> bool {
    &&& forall|i: int, j: int|
        0 <= i < j < m.profiles@.len() ==> lex_le(
            (#[trigger] m.profiles@[i]).path@,
            (#[trigger] m.profiles@[j]).path@,
        ) && m.profiles@[i].path@ != m.profiles@[j].path@
    &&& forall|i: int| 0 <= i < m.profiles@.len() ==> wf_profile(#[trigger] m.profiles@[i])
    &&& forall|i: int, j: int|
        0 <= i < j < m.standalone@.len() ==> lex_le(
            (#[trigger] m.standalone@[i]).path@,
            (#[trigger] m.standalone@[j]).path@,
        )
}

// --- Classification of one root ---

impl GCRoot {
    /// Returns the path where the owning profile's symlink should stand, when
    /// this root's file name fits the generation naming convention.
    pub fn get_profile_path(&self) -> (r: Option<&str>)
        ensures
            match r {
                Some(b) => classify_path(self.path@) matches Some(p) && p.0 == b@,
                None => classify_path(self.path@) is None,
            },
    {
        match classify_str(self.path.as_str()) {
            Some((end, g)) => {
                let b = self.path.as_str().substring_char(0, end);
                proof {
                    assert(b@ =~= self.path@.take(end as int));
                    let gg = g;
                    assert(classify_path(self.path@) == Some((b@, gg)));
                }
                Some(b)
            },
            None => None,
        }
    }

    /// Returns the generation number when this root's file name fits the
    /// generation naming convention.
    pub fn get_profile_gen(&self) -> (r: Option<u64>)
        ensures
            match r {
                Some(g) => classify_path(self.path@) matches Some(p) && p.1 == g,
                None => classify_path(self.path@) is None,
            },
    {
        match classify_str(self.path.as_str()) {
            Some((end, g)) => {
                proof {
                    let b = self.path@.take(end as int);
                    assert(classify_path(self.path@) == Some((b, g)));
                }
                Some(g)
            },
            None => None,
        }
    }
}

// --- The deletion-safety policy ---

/// `p` lies at or under `base` in the directory tree.
pub open spec fn path_under(p: Seq<char>, base: Seq<char>) -> bool {
    base.is_prefix_of(p) && (p.len() == base.len() || p[base.len() as int] == '/')
}

/// Executable form of `path_under`.
pub fn path_under_exec(p: &str, base: &str) -> (r: bool)
    ensures
        r == path_under(p@, base@),
{
    if !has_prefix(p, base) {
        return false;
    }
    let plen = p.unicode_len();
    let blen = base.unicode_len();
    plen == blen || p.get_char(blen) == '/'
}

/// The deletion policy for a standalone root, with the permission check's
/// outcome handed in: deletable iff the location is not under `/run` nor
/// `/proc` and the parent directory is writable.
pub fn standalone_deletable(path: &str, can_write_parent: bool) -> (r: bool)
    ensures
        r == (!path_under(path@, "/run"@) && !path_under(path@, "/proc"@) && can_write_parent),
{
    !path_under_exec(path, "/run") && !path_under_exec(path, "/proc") && can_write_parent
}

/// The deletion policy for a generation root, with the permission check's
/// outcome handed in: deletable iff the generation is known inactive, the
/// location is not under `/run` nor `/proc` (never so by construction, but
/// rechecked to fail safe), and the parent directory is writable.
pub fn generation_deletable(is_active: ActiveState, path: &str, can_write_parent: bool) -> (r:
    bool)
    ensures
        r == (is_active == ActiveState::Inactive && !path_under(path@, "/run"@) && !path_under(
            path@,
            "/proc"@,
        ) && can_write_parent),
{
    is_active == ActiveState::Inactive && !path_under_exec(path, "/run") && !path_under_exec(
        path,
        "/proc",
    ) && can_write_parent
}

/// The directory whose write permission governs unlinking `p`: everything
/// before the last `/` (the root directory itself when that `/` comes
/// first). `None` when `p` is the root directory or holds no `/` at all:
/// such a path has no parent to unlink it from.
pub open spec fn deletion_parent(p: Seq<char>) -> Option<Seq<char>> {
    let i = last_idx(p, '/');
    if i < 0 {
        None
    } else if i == 0 && p.len() == 1 {
        None
    } else if i == 0 {
        Some(p.take(1))
    } else {
        Some(p.take(i))
    }
}

/// Executable form of `deletion_parent`.
pub fn deletion_parent_exec(path: &str) -> (r: Option<&str>)
    ensures
        match r {
            Some(par) => deletion_parent(path@) == Some(par@),
            None => deletion_parent(path@) is None,
        },
{
    let len = path.unicode_len();
    match rfind_char(path, '/') {
        Some(i) => {
            proof {
                lemma_last_idx(path@, '/');
            }
            if i == 0 && len == 1 {
                None
            } else if i == 0 {
                let par = path.substring_char(0, 1);
                proof {
                    assert(par@ =~= path@.take(1));
                }
                Some(par)
            } else {
                let par = path.substring_char(0, i);
                proof {
                    assert(par@ =~= path@.take(i as int));
                }
                Some(par)
            }
        },
        None => None,
    }
}

/// Whether a file at `path` could be unlinked, with the writability probe's
/// outcome handed in: the path must have a parent directory, and that
/// parent must be writable.
pub fn can_delete_file_with(path: &str, parent_writable: bool) -> (r: bool)
    ensures
        r == (deletion_parent(path@) is Some && parent_writable),
{
    match deletion_parent_exec(path) {
        Some(_par) => parent_writable,
        None => false,
    }
}

/// Whether the process can unlink a file at `path`: write permission on
/// `deletion_parent(path)`, asked of the filesystem. A path without a
/// parent is never deletable; when a parent exists, exactly that parent is
/// handed to the writability probe.
pub fn can_delete_file(path: &str) -> (r: bool)
    ensures
        deletion_parent(path@) is None ==> !r,
        r ==> deletion_parent(path@) is Some,
{
    match deletion_parent_exec(path) {
        Some(par) => fs_can_write(par),
        None => false,
    }
}

impl GCRoot {
    /// Whether this root may be deleted: never under `/run` or `/proc`,
    /// never without a parent directory, and only with write permission on
    /// `deletion_parent(self.path)`. Does not check whether the root is an
    /// active profile generation.
    pub fn deletable(&self) -> (r: bool)
        ensures
            r ==> !path_under(self.path@, "/run"@) && !path_under(self.path@, "/proc"@)
                && deletion_parent(self.path@) is Some,
            path_under(self.path@, "/run"@) || path_under(self.path@, "/proc"@) || deletion_parent(
                self.path@,
            ) is None ==> !r,
    {
        let w = can_delete_file(self.path.as_str());
        standalone_deletable(self.path.as_str(), w)
    }
}

impl GenerationRoot {
    /// Whether this generation root may be deleted: only when known inactive,
    /// never under `/run` or `/proc`, never without a parent directory, and
    /// only with write permission on `deletion_parent(self.location)`.
    pub fn deletable(&self) -> (r: bool)
        ensures
            r ==> self.is_active == ActiveState::Inactive && !path_under(self.location@, "/run"@)
                && !path_under(self.location@, "/proc"@) && deletion_parent(
                self.location@,
            ) is Some,
            self.is_active != ActiveState::Inactive || path_under(self.location@, "/run"@)
                || path_under(self.location@, "/proc"@) || deletion_parent(self.location@) is None
                ==> !r,
    {
        let w = can_delete_file(self.location.as_str());
        generation_deletable(self.is_active, self.location.as_str(), w)
    }
}

// --- Filesystem probes for profile candidates ---

/// What reading a candidate profile symlink yielded.
#[derive(Debug)]
pub enum LinkRead {
    /// The path cannot be read (missing, permission denied): expected and
    /// tolerated, the active generation stays unknown.
    Unreadable,
    /// The symlink's immediate target.
    Target(String),
    /// Reading failed although the path was readable: unexpected and fatal.
    Failed(String),
}

/// One candidate profile path with what the filesystem said of it.
#[derive(Debug)]
pub struct ProfileProbe {
    /// The candidate profile base path.
    pub path: String,
    /// Whether that path exists and is itself a symlink.
    pub is_symlink: bool,
    /// What reading the symlink yielded.
    pub link: LinkRead,
}

/// Index of the first probe for path `p`, or -1 when there is none.
pub open spec fn probe_idx(probes: Seq<ProfileProbe>, p: Seq<char>) -> int
    decreases probes.len(),
{
    if probes.len() == 0 {
        -1
    } else if probes[0].path@ == p {
        0
    } else if probe_idx(probes.skip(1), p) >= 0 {
        1 + probe_idx(probes.skip(1), p)
    } else {
        -1
    }
}

pub proof fn lemma_probe_idx(probes: Seq<ProfileProbe>, p: Seq<char>)
    ensures
        probe_idx(probes, p) == -1 ==> forall|j: int|
            0 <= j < probes.len() ==> (#[trigger] probes[j]).path@ != p,
        probe_idx(probes, p) >= 0 ==> probe_idx(probes, p) < probes.len() && probes[probe_idx(
            probes,
            p,
        )].path@ == p,
        probe_idx(probes, p) >= 0 ==> forall|j: int|
            0 <= j < probe_idx(probes, p) ==> (#[trigger] probes[j]).path@ != p,
    decreases probes.len(),
{
    if probes.len() > 0 && probes[0].path@ != p {
        lemma_probe_idx(probes.skip(1), p);
        if probe_idx(probes, p) == -1 {
            assert forall|j: int| 0 <= j < probes.len() implies (#[trigger] probes[j]).path@
                != p by {
                if j >= 1 {
                    assert(probes.skip(1)[j - 1] == probes[j]);
                }
            }
        } else {
            assert forall|j: int| 0 <= j < probe_idx(probes, p) implies (
            #[trigger] probes[j]).path@ != p by {
                if j >= 1 {
                    assert(probes.skip(1)[j - 1] == probes[j]);
                }
            }
        }
    }
}

/// Whether a probe says `p` exists and is a symlink.
pub open spec fn probe_symlink(probes: Seq<ProfileProbe>, p: Seq<char>) -> bool {
    probe_idx(probes, p) >= 0 && probes[probe_idx(probes, p)].is_symlink
}

/// The active generation the probes yield for base path `p`: the resolved
/// target's generation number when the link was read and matches the naming
/// convention, unknown otherwise.
pub open spec fn probe_active(probes: Seq<ProfileProbe>, p: Seq<char>) -> Option<u64> {
    if probe_symlink(probes, p) {
        match probes[probe_idx(probes, p)].link {
            LinkRead::Target(t) => active_gen_of(p, t@),
            _ => None,
        }
    } else {
        None
    }
}

/// Whether reading the symlink at `p` failed fatally.
pub open spec fn probe_failed(probes: Seq<ProfileProbe>, p: Seq<char>) -> bool {
    probe_symlink(probes, p) && probes[probe_idx(probes, p)].link is Failed
}

/// Linear search for the first probe with the given path.
fn find_probe(probes: &Vec<ProfileProbe>, p: &str) -> (r: Option<usize>)
    ensures
        match r {
            Some(i) => i < probes@.len() && i == probe_idx(probes@, p@),
            None => probe_idx(probes@, p@) == -1,
        },
{
    proof {
        lemma_probe_idx(probes@, p@);
    }
    let mut i: usize = 0;
    while i < probes.len()
        invariant
            i <= probes@.len(),
            forall|j: int| 0 <= j < i ==> (#[trigger] probes@[j]).path@ != p@,
        decreases probes@.len() - i,
    {
        if str_eq(probes[i].path.as_str(), p) {
            proof {
                lemma_probe_idx(probes@, p@);
            }
            return Some(i);
        }
        i = i + 1;
    }
    None
}

// --- The key predicates of the grouping ---

/// Mathematical values of a sequence of roots.
pub open spec fn roots_view(s: Seq<GCRoot>) -> Seq<GCRootV> {
    s.map_values(|r: GCRoot| r@)
}

/// The root value a generation entry stands for.
pub open spec fn gen_root_v(e: GenerationRoot) -> GCRootV {
    GCRootV { path: e.location@, target: e.target@ }
}

/// A root is assigned to a profile: it classifies to a base path whose
/// symlink the probes confirm.
pub open spec fn assigned(probes: Seq<ProfileProbe>, rv: GCRootV) -> bool {
    match classify_path(rv.path) {
        Some(bg) => probe_symlink(probes, bg.0),
        None => false,
    }
}

/// The predicate keeping the roots that no profile claims.
pub open spec fn unassigned_filter(probes: Seq<ProfileProbe>) -> spec_fn(GCRootV) -> bool {
    |rv: GCRootV| !assigned(probes, rv)
}

/// Some root classifies to base path `b`.
pub open spec fn base_of_roots(roots: Seq<GCRootV>, b: Seq<char>) -> bool {
    exists|i: int|
        0 <= i < roots.len() && (match classify_path((#[trigger] roots[i]).path) {
            Some(bg) => bg.0 == b,
            None => false,
        })
}

/// `b` is the base path of a live profile: some root classifies to it and
/// its symlink is confirmed.
pub open spec fn base_assigned(roots: Seq<GCRootV>, probes: Seq<ProfileProbe>, b: Seq<char>) -> bool {
    probe_symlink(probes, b) && base_of_roots(roots, b)
}

/// Reading some live profile's symlink failed fatally.
pub open spec fn link_read_fails(roots: Seq<GCRootV>, probes: Seq<ProfileProbe>) -> bool {
    exists|b: Seq<char>| #[trigger] base_assigned(roots, probes, b) && probe_failed(probes, b)
}

/// A profile sequence holds a generation entry for `(b, g)`.
pub open spec fn has_entry_ps(ps: Seq<Profile>, b: Seq<char>, g: u64) -> bool {
    exists|k: int, l: int|
        0 <= k < ps.len() && 0 <= l < (#[trigger] ps[k]).generations@.len() && ps[k].path@ == b && (
        #[trigger] ps[k].generations@[l]).generation == g
}

/// No two roots classify to the same `(base, generation)` key.
pub open spec fn dup_keys_free(roots: Seq<GCRootV>) -> bool {
    forall|i: int, j: int|
        0 <= i < j < roots.len() && classify_path((#[trigger] roots[i]).path) is Some
            && classify_path((#[trigger] roots[j]).path) is Some ==> classify_path(roots[i].path)
            != classify_path(roots[j].path)
}

/// Total number of generation entries over all profiles.
pub open spec fn total_gens(ps: Seq<Profile>) -> int
    decreases ps.len(),
{
    if ps.len() == 0 {
        0
    } else {
        total_gens(ps.drop_last()) + ps.last().generations@.len()
    }
}

pub proof fn lemma_total_gens_update(ps: Seq<Profile>, k: int, p: Profile)
    requires
        0 <= k < ps.len(),
    ensures
        total_gens(ps.update(k, p)) == total_gens(ps) - ps[k].generations@.len()
            + p.generations@.len(),
    decreases ps.len(),
{
    if k == ps.len() - 1 {
        assert(ps.update(k, p).drop_last() =~= ps.drop_last());
    } else {
        lemma_total_gens_update(ps.drop_last(), k, p);
        assert(ps.update(k, p).drop_last() =~= ps.drop_last().update(k, p));
    }
}

pub proof fn lemma_total_gens_insert(ps: Seq<Profile>, k: int, p: Profile)
    requires
        0 <= k <= ps.len(),
    ensures
        total_gens(ps.insert(k, p)) == total_gens(ps) + p.generations@.len(),
    decreases ps.len(),
{
    if k == ps.len() {
        assert(ps.insert(k, p).drop_last() =~= ps);
        assert(ps.insert(k, p).last() == p);
    } else {
        lemma_total_gens_insert(ps.drop_last(), k, p);
        assert(ps.insert(k, p).drop_last() =~= ps.drop_last().insert(k, p));
        assert(ps.insert(k, p).last() == ps.last());
    }
}

/// The whole statement of the grouping: what the finished model holds, given
/// the parsed roots and the filesystem probes.
pub open spec fn grouped_from(roots: Seq<GCRootV>, probes: Seq<ProfileProbe>, m: GCRoots) -> bool {
    &&& wf_gcroots(m)
    // each profile is a live base path of the roots
    &&& forall|k: int|
        0 <= k < m.profiles@.len() ==> base_assigned(roots, probes, (#[trigger] m.profiles@[k]).path@)
    // each live base path has its profile
    &&& forall|b: Seq<char>|
        #[trigger] base_assigned(roots, probes, b) ==> exists|k: int|
            0 <= k < m.profiles@.len() && (#[trigger] m.profiles@[k]).path@ == b
    // each profile's active generation comes from its probe
    &&& forall|k: int|
        0 <= k < m.profiles@.len() ==> (#[trigger] m.profiles@[k]).active_generation == probe_active(
            probes,
            m.profiles@[k].path@,
        )
    // the standalone roots are exactly the unassigned roots
    &&& roots_view(m.standalone@).to_multiset() == roots.filter(unassigned_filter(probes)).to_multiset()
    // every generation entry is one of the roots
    &&& forall|k: int, l: int|
        0 <= k < m.profiles@.len() && 0 <= l < (#[trigger] m.profiles@[k]).generations@.len()
            ==> roots.contains(gen_root_v(#[trigger] m.profiles@[k].generations@[l]))
    // and in fact the last root in input order bearing its key: the last
    // seen entry for a generation number wins
    &&& forall|k: int, l: int|
        #![trigger m.profiles@[k].generations@[l]]
        0 <= k < m.profiles@.len() && 0 <= l < m.profiles@[k].generations@.len() ==> last_root_for(
            roots,
            m.profiles@[k].path@,
            m.profiles@[k].generations@[l].generation,
        ) == Some(gen_root_v(m.profiles@[k].generations@[l]))
    // every assigned root is represented by a generation entry
    &&& forall|i: int|
        0 <= i < roots.len() ==> match classify_path((#[trigger] roots[i]).path) {
            Some(bg) => probe_symlink(probes, bg.0) ==> has_entry_ps(m.profiles@, bg.0, bg.1),
            None => true,
        }
}

// --- Inserting one generation entry, keeping the order, last one wins ---

/// A generation sequence holds an entry numbered `g`.
pub open spec fn gens_has_key(s: Seq<GenerationRoot>, g: u64) -> bool {
    exists|l: int| 0 <= l < s.len() && (#[trigger] s[l]).generation == g
}

fn insert_generation(gens: &mut Vec<GenerationRoot>, e: GenerationRoot)
    requires
        sorted_gens(old(gens)@),
    ensures
        sorted_gens(final(gens)@),
        final(gens)@.len() == old(gens)@.len() + (if gens_has_key(old(gens)@, e.generation) {
            0int
        } else {
            1int
        }),
        forall|l: int|
            0 <= l < final(gens)@.len() ==> (final(gens)@[l] == e || (exists|l2: int|
                0 <= l2 < old(gens)@.len() && final(gens)@[l] == old(gens)@[l2] && (#[trigger] old(
                    gens,
                )@[l2]).generation != e.generation)),
        gens_has_key(final(gens)@, e.generation),
        forall|l: int|
            0 <= l < final(gens)@.len() && (#[trigger] final(gens)@[l]).generation == e.generation
                ==> final(gens)@[l] == e,
        forall|l2: int|
            0 <= l2 < old(gens)@.len() && (#[trigger] old(gens)@[l2]).generation != e.generation
                ==> exists|l: int| 0 <= l < final(gens)@.len() && final(gens)@[l] == old(gens)@[l2],
{
    let glen = gens.len();
    let mut pos: usize = 0;
    while pos < glen && gens[pos].generation < e.generation
        invariant
            pos <= glen,
            glen == gens@.len(),
            forall|l: int| 0 <= l < pos ==> (#[trigger] gens@[l]).generation < e.generation,
        decreases glen - pos,
    {
        pos = pos + 1;
    }
    if pos < glen && gens[pos].generation == e.generation {
        let ghost old_gens = gens@;
        gens.remove(pos);
        gens.insert(pos, e);
        proof {
            assert(gens@ =~= old_gens.update(pos as int, e));
            assert(gens@[pos as int] == e);
            assert(gens@[pos as int].generation == e.generation);
            assert(gens_has_key(gens@, e.generation));
            assert forall|l2: int|
                0 <= l2 < old_gens.len() && (#[trigger] old_gens[l2]).generation
                    != e.generation implies exists|l: int|
                0 <= l < gens@.len() && gens@[l] == old_gens[l2] by {
                assert(gens@[l2] == old_gens[l2]);
            }
        }
    } else {
        let ghost old_gens = gens@;
        gens.insert(pos, e);
        proof {
            old_gens.insert_ensures(pos as int, e);
            assert forall|l: int, j: int| 0 <= l < j < gens@.len() implies (
            #[trigger] gens@[l]).generation < (#[trigger] gens@[j]).generation by {
                if pos < glen {
                    assert(old_gens[pos as int].generation > e.generation || old_gens[pos as int].generation
                        < e.generation);
                }
            }
            assert(gens@[pos as int] == e);
            assert(gens@[pos as int].generation == e.generation);
            assert(gens_has_key(gens@, e.generation));
            assert forall|l2: int|
                0 <= l2 < old_gens.len() && (#[trigger] old_gens[l2]).generation
                    != e.generation implies exists|l: int|
                0 <= l < gens@.len() && gens@[l] == old_gens[l2] by {
                if l2 < pos {
                    assert(gens@[l2] == old_gens[l2]);
                } else {
                    assert(gens@[l2 + 1] == old_gens[l2]);
                }
            }
            assert(!gens_has_key(old_gens, e.generation));
        }
    }
}

// --- Pass one: discover the live profiles ---

/// `rv` classifies to base path `b`.
pub open spec fn classifies_to(rv: GCRootV, b: Seq<char>) -> bool {
    match classify_path(rv.path) {
        Some(bg) => bg.0 == b,
        None => false,
    }
}

proof fn lemma_base_step(roots: Seq<GCRootV>, i: int)
    requires
        0 <= i < roots.len(),
    ensures
        forall|b: Seq<char>|
            #[trigger] base_of_roots(roots.take(i + 1), b) ==> (base_of_roots(roots.take(i), b)
                || classifies_to(roots[i], b)),
        forall|b: Seq<char>|
            #[trigger] base_of_roots(roots.take(i), b) ==> base_of_roots(roots.take(i + 1), b),
        forall|b: Seq<char>| classifies_to(roots[i], b) ==> base_of_roots(roots.take(i + 1), b),
{
    assert forall|b: Seq<char>| #[trigger] base_of_roots(roots.take(i + 1), b) implies (
    base_of_roots(roots.take(i), b) || classifies_to(roots[i], b)) by {
        let j = choose|j: int|
            0 <= j < roots.take(i + 1).len() && classifies_to(#[trigger] roots.take(i + 1)[j], b);
        if j < i {
            assert(roots.take(i)[j] == roots.take(i + 1)[j]);
            assert(classifies_to(roots.take(i)[j], b));
        } else {
            assert(roots.take(i + 1)[j] == roots[i]);
        }
    }
    assert forall|b: Seq<char>| #[trigger] base_of_roots(roots.take(i), b) implies base_of_roots(
        roots.take(i + 1),
        b,
    ) by {
        let j = choose|j: int|
            0 <= j < roots.take(i).len() && classifies_to(#[trigger] roots.take(i)[j], b);
        assert(roots.take(i + 1)[j] == roots.take(i)[j]);
        assert(classifies_to(roots.take(i + 1)[j], b));
    }
    assert forall|b: Seq<char>| classifies_to(roots[i], b) implies base_of_roots(
        roots.take(i + 1),
        b,
    ) by {
        assert(roots.take(i + 1)[i] == roots[i]);
        assert(classifies_to(roots.take(i + 1)[i], b));
    }
}

/// Linear search for the profile with the given base path.
fn find_profile(ps: &Vec<Profile>, b: &str) -> (r: Option<usize>)
    ensures
        match r {
            Some(k) => k < ps@.len() && ps@[k as int].path@ == b@,
            None => forall|k: int| 0 <= k < ps@.len() ==> (#[trigger] ps@[k]).path@ != b@,
        },
{
    let mut k: usize = 0;
    while k < ps.len()
        invariant
            k <= ps@.len(),
            forall|j: int| 0 <= j < k ==> (#[trigger] ps@[j]).path@ != b@,
        decreases ps@.len() - k,
    {
        if str_eq(ps[k].path.as_str(), b) {
            return Some(k);
        }
        k = k + 1;
    }
    None
}

impl GCRoots {
    /// Pass one of the grouping: collect the distinct base paths to which
    /// some root classifies and whose symlink the probes confirm, ascending,
    /// each with its active generation resolved from its probe.
    #[verifier::rlimit(100)]
    fn create_profiles(roots: &Vec<GCRoot>, probes: &Vec<ProfileProbe>) -> (r: Result<
        Vec<Profile>,
        GcError,
    >)
        ensures
            match r {
                Ok(ps) => {
                    &&& forall|k: int, j: int|
                        0 <= k < j < ps@.len() ==> lex_le(
                            (#[trigger] ps@[k]).path@,
                            (#[trigger] ps@[j]).path@,
                        ) && ps@[k].path@ != ps@[j].path@
                    &&& forall|k: int|
                        0 <= k < ps@.len() ==> (#[trigger] ps@[k]).generations@.len() == 0
                    &&& forall|k: int|
                        0 <= k < ps@.len() ==> base_assigned(
                            roots_view(roots@),
                            probes@,
                            (#[trigger] ps@[k]).path@,
                        )
                    &&& forall|b: Seq<char>|
                        #[trigger] base_assigned(roots_view(roots@), probes@, b) ==> exists|k: int|
                            0 <= k < ps@.len() && (#[trigger] ps@[k]).path@ == b
                    &&& forall|k: int|
                        0 <= k < ps@.len() ==> (#[trigger] ps@[k]).active_generation
                            == probe_active(probes@, ps@[k].path@)
                    &&& !link_read_fails(roots_view(roots@), probes@)
                },
                Err(e) => link_read_fails(roots_view(roots@), probes@) && e is LinkRead,
            },
    {
        let ghost rv = roots_view(roots@);
        let mut ps: Vec<Profile> = Vec::new();
        let mut i: usize = 0;
        while i < roots.len()
            invariant
                i <= roots@.len(),
                rv == roots_view(roots@),
                forall|k: int, j: int|
                    0 <= k < j < ps@.len() ==> lex_le(
                        (#[trigger] ps@[k]).path@,
                        (#[trigger] ps@[j]).path@,
                    ) && ps@[k].path@ != ps@[j].path@,
                forall|k: int| 0 <= k < ps@.len() ==> (#[trigger] ps@[k]).generations@.len() == 0,
                forall|k: int|
                    0 <= k < ps@.len() ==> base_assigned(
                        rv.take(i as int),
                        probes@,
                        (#[trigger] ps@[k]).path@,
                    ),
                forall|b: Seq<char>|
                    #[trigger] base_assigned(rv.take(i as int), probes@, b) ==> exists|k: int|
                        0 <= k < ps@.len() && (#[trigger] ps@[k]).path@ == b,
                forall|k: int|
                    0 <= k < ps@.len() ==> (#[trigger] ps@[k]).active_generation == probe_active(
                        probes@,
                        ps@[k].path@,
                    ),
                forall|b: Seq<char>|
                    #[trigger] base_assigned(rv.take(i as int), probes@, b) ==> !probe_failed(
                        probes@,
                        b,
                    ),
            decreases roots@.len() - i,
        {
            proof {
                lemma_base_step(rv, i as int);
                assert(rv[i as int] == roots@[i as int]@);
            }
            match classify_str(roots[i].path.as_str()) {
                None => {
                    proof {
                        assert(forall|b: Seq<char>| !classifies_to(rv[i as int], b));
                        assert forall|b2: Seq<char>|
                            #[trigger] base_assigned(
                                rv.take(i + 1),
                                probes@,
                                b2,
                            ) implies base_assigned(rv.take(i as int), probes@, b2) by {
                            assert(!classifies_to(rv[i as int], b2));
                        }
                    }
                },
                Some((end, _g)) => {
                    let b = roots[i].path.as_str().substring_char(0, end);
                    proof {
                        assert(b@ =~= roots@[i as int].path@.take(end as int));
                        assert(classifies_to(rv[i as int], b@));
                        assert(forall|b2: Seq<char>|
                            classifies_to(rv[i as int], b2) ==> b2 == b@);
                    }
                    // find the insertion position among the sorted profiles
                    let mut pos: usize = 0;
                    while pos < ps.len() && str_lt(ps[pos].path.as_str(), b)
                        invariant
                            pos <= ps@.len(),
                            forall|l: int|
                                0 <= l < pos ==> lex_le((#[trigger] ps@[l]).path@, b@)
                                    && ps@[l].path@ != b@,
                        decreases ps@.len() - pos,
                    {
                        pos = pos + 1;
                    }
                    if pos < ps.len() && str_eq(ps[pos].path.as_str(), b) {
                        // this base path already has its profile
                        proof {
                            assert(ps@[pos as int].path@ == b@);
                            assert(base_assigned(rv.take(i as int), probes@, b@));
                            assert forall|b2: Seq<char>|
                                #[trigger] base_assigned(
                                    rv.take(i + 1),
                                    probes@,
                                    b2,
                                ) implies base_assigned(rv.take(i as int), probes@, b2) by {
                                if !base_of_roots(rv.take(i as int), b2) {
                                    assert(classifies_to(rv[i as int], b2));
                                    assert(b2 == b@);
                                }
                            }
                        }
                    } else {
                        proof {
                            if pos < ps@.len() {
                                lemma_lex_total(ps@[pos as int].path@, b@);
                            }
                        }
                        match find_probe(probes, b) {
                            None => {
                                proof {
                                    assert(!probe_symlink(probes@, b@));
                                    assert forall|b2: Seq<char>|
                                        #[trigger] base_assigned(
                                            rv.take(i + 1),
                                            probes@,
                                            b2,
                                        ) implies base_assigned(rv.take(i as int), probes@, b2) by {
                                        if !base_of_roots(rv.take(i as int), b2) {
                                            assert(classifies_to(rv[i as int], b2));
                                            assert(b2 == b@);
                                        }
                                    }
                                }
                            },
                            Some(pi) => {
                                if !probes[pi].is_symlink {
                                    proof {
                                        assert(!probe_symlink(probes@, b@));
                                        assert forall|b2: Seq<char>|
                                            #[trigger] base_assigned(
                                                rv.take(i + 1),
                                                probes@,
                                                b2,
                                            ) implies base_assigned(
                                            rv.take(i as int),
                                            probes@,
                                            b2,
                                        ) by {
                                            if !base_of_roots(rv.take(i as int), b2) {
                                                assert(classifies_to(rv[i as int], b2));
                                                assert(b2 == b@);
                                            }
                                        }
                                    }
                                } else {
                                    proof {
                                        assert(probe_symlink(probes@, b@));
                                    }
                                    let active: Option<u64> = match &probes[pi].link {
                                        LinkRead::Failed(msg) => {
                                            proof {
                                                assert(probe_failed(probes@, b@));
                                                assert(base_assigned(rv, probes@, b@));
                                            }
                                            return Err(
                                                GcError::LinkRead {
                                                    path: b.to_owned(),
                                                    message: msg.clone(),
                                                },
                                            );
                                        },
                                        LinkRead::Unreadable => None,
                                        LinkRead::Target(t) => active_gen_of_link(b, t.as_str()),
                                    };
                                    proof {
                                        assert(active == probe_active(probes@, b@));
                                    }
                                    let p = Profile {
                                        path: b.to_owned(),
                                        active_generation: active,
                                        generations: Vec::new(),
                                    };
                                    let ghost old_ps = ps@;
                                    ps.insert(pos, p);
                                    proof {
                                        old_ps.insert_ensures(pos as int, p);
                                        assert(ps@[pos as int].path@ == b@);
                                        assert forall|k: int, j: int|
                                            0 <= k < j < ps@.len() implies lex_le(
                                            (#[trigger] ps@[k]).path@,
                                            (#[trigger] ps@[j]).path@,
                                        ) && ps@[k].path@ != ps@[j].path@ by {
                                            if j < pos {
                                            } else if j == pos {
                                                assert(ps@[k] == old_ps[k]);
                                            } else if k == pos {
                                                assert(ps@[j] == old_ps[j - 1]);
                                                assert(lex_le(b@, old_ps[pos as int].path@));
                                                if j - 1 > pos {
                                                    lemma_lex_trans(
                                                        b@,
                                                        old_ps[pos as int].path@,
                                                        old_ps[j - 1].path@,
                                                    );
                                                    if b@ == old_ps[j - 1].path@ {
                                                        assert(lex_le(
                                                            old_ps[pos as int].path@,
                                                            b@,
                                                        ));
                                                        assert(false);
                                                    }
                                                }
                                            } else if k < pos {
                                                assert(ps@[k] == old_ps[k]);
                                                assert(ps@[j] == old_ps[j - 1]);
                                            } else {
                                                assert(ps@[k] == old_ps[k - 1]);
                                                assert(ps@[j] == old_ps[j - 1]);
                                            }
                                        }
                                        assert forall|b2: Seq<char>|
                                            #[trigger] base_assigned(
                                                rv.take(i + 1),
                                                probes@,
                                                b2,
                                            ) implies exists|k: int|
                                            0 <= k < ps@.len() && (#[trigger] ps@[k]).path@
                                                == b2 by {
                                            if base_of_roots(rv.take(i as int), b2) {
                                                assert(base_assigned(
                                                    rv.take(i as int),
                                                    probes@,
                                                    b2,
                                                ));
                                                let k0 = choose|k0: int|
                                                    0 <= k0 < old_ps.len() && (
                                                    #[trigger] old_ps[k0]).path@ == b2;
                                                if k0 < pos {
                                                    assert(ps@[k0].path@ == b2);
                                                } else {
                                                    assert(ps@[k0 + 1].path@ == b2);
                                                }
                                            } else {
                                                assert(classifies_to(rv[i as int], b2));
                                                assert(b2 == b@);
                                                assert(ps@[pos as int].path@ == b2);
                                            }
                                        }
                                        assert(!probe_failed(probes@, b@));
                                        assert forall|b2: Seq<char>|
                                            #[trigger] base_assigned(
                                                rv.take(i + 1),
                                                probes@,
                                                b2,
                                            ) implies !probe_failed(probes@, b2) by {
                                            if !base_of_roots(rv.take(i as int), b2) {
                                                assert(classifies_to(rv[i as int], b2));
                                                assert(b2 == b@);
                                            } else {
                                                assert(base_assigned(
                                                    rv.take(i as int),
                                                    probes@,
                                                    b2,
                                                ));
                                            }
                                        }
                                    }
                                }
                            },
                        }
                    }
                },
            }
            i = i + 1;
            proof {
                assert(rv.take(i as int).len() == i);
            }
        }
        proof {
            assert(rv.take(roots@.len() as int) =~= rv);
            assert forall|b: Seq<char>|
                !(#[trigger] base_assigned(rv, probes@, b) && probe_failed(probes@, b)) by {
                if base_assigned(rv, probes@, b) {
                    assert(!probe_failed(probes@, b));
                }
            }
        }
        Ok(ps)
    }
}

proof fn lemma_filter_empty(f: spec_fn(GCRootV) -> bool)
    ensures
        Seq::<GCRootV>::empty().filter(f) == Seq::<GCRootV>::empty(),
{
    reveal_with_fuel(Seq::filter, 1);
}

proof fn lemma_filter_step_skip(s: Seq<GCRootV>, f: spec_fn(GCRootV) -> bool, i: int)
    requires
        0 <= i < s.len(),
        !f(s[i]),
    ensures
        s.take(i + 1).filter(f) == s.take(i).filter(f),
{
    reveal_with_fuel(Seq::filter, 2);
    assert(s.take(i + 1).drop_last() =~= s.take(i));
    assert(s.take(i + 1).last() == s[i]);
    assert(s.take(i + 1).len() == i + 1);
}

proof fn lemma_filter_step_push(s: Seq<GCRootV>, f: spec_fn(GCRootV) -> bool, i: int)
    requires
        0 <= i < s.len(),
        f(s[i]),
    ensures
        s.take(i + 1).filter(f) == s.take(i).filter(f).push(s[i]),
{
    reveal_with_fuel(Seq::filter, 2);
    assert(s.take(i + 1).drop_last() =~= s.take(i));
    assert(s.take(i + 1).last() == s[i]);
    assert(s.take(i + 1).len() == i + 1);
}

/// The last root in input order that classifies to `(b, g)`.
pub open spec fn last_root_for(roots: Seq<GCRootV>, b: Seq<char>, g: u64) -> Option<GCRootV>
    decreases roots.len(),
{
    if roots.len() == 0 {
        None
    } else if classify_path(roots.last().path) == Some((b, g)) {
        Some(roots.last())
    } else {
        last_root_for(roots.drop_last(), b, g)
    }
}

proof fn lemma_last_root_hit(rv: Seq<GCRootV>, i: int, b: Seq<char>, g: u64)
    requires
        0 <= i < rv.len(),
        classify_path(rv[i].path) == Some((b, g)),
    ensures
        last_root_for(rv.take(i + 1), b, g) == Some(rv[i]),
{
    assert(rv.take(i + 1).last() == rv[i]);
}

proof fn lemma_last_root_skip(rv: Seq<GCRootV>, i: int, b: Seq<char>, g: u64)
    requires
        0 <= i < rv.len(),
        classify_path(rv[i].path) != Some((b, g)),
    ensures
        last_root_for(rv.take(i + 1), b, g) == last_root_for(rv.take(i), b, g),
{
    assert(rv.take(i + 1).last() == rv[i]);
    assert(rv.take(i + 1).drop_last() =~= rv.take(i));
}

proof fn lemma_last_update(
    rv: Seq<GCRootV>,
    i: int,
    pre_ps: Seq<Profile>,
    ps2: Seq<Profile>,
    k: int,
    pv: Profile,
    old_gens: Seq<GenerationRoot>,
    e: GenerationRoot,
    b: Seq<char>,
    g: u64,
)
    requires
        0 <= i < rv.len(),
        0 <= k < pre_ps.len(),
        ps2 == pre_ps.update(k, pv),
        gen_root_v(e) == rv[i],
        e.generation == g,
        pv.path@ == b,
        pre_ps[k].path@ == b,
        classify_path(rv[i].path) == Some((b, g)),
        old_gens == pre_ps[k].generations@,
        forall|k2: int| 0 <= k2 < pre_ps.len() && k2 != k ==> (#[trigger] pre_ps[k2]).path@ != b,
        forall|l: int|
            0 <= l < pv.generations@.len() ==> ((#[trigger] pv.generations@[l]) == e || (exists|
                l2: int,
            |
                0 <= l2 < old_gens.len() && pv.generations@[l] == old_gens[l2] && (
                #[trigger] old_gens[l2]).generation != e.generation)),
        forall|k2: int, l: int|
            #![trigger pre_ps[k2].generations@[l]]
            0 <= k2 < pre_ps.len() && 0 <= l < pre_ps[k2].generations@.len() ==> last_root_for(
                rv.take(i),
                pre_ps[k2].path@,
                pre_ps[k2].generations@[l].generation,
            ) == Some(gen_root_v(pre_ps[k2].generations@[l])),
    ensures
        forall|k2: int, l: int|
            #![trigger ps2[k2].generations@[l]]
            0 <= k2 < ps2.len() && 0 <= l < ps2[k2].generations@.len() ==> last_root_for(
                rv.take(i + 1),
                ps2[k2].path@,
                ps2[k2].generations@[l].generation,
            ) == Some(gen_root_v(ps2[k2].generations@[l])),
{
    assert forall|k2: int, l: int|
        #![trigger ps2[k2].generations@[l]]
        0 <= k2 < ps2.len() && 0 <= l < ps2[k2].generations@.len() implies last_root_for(
        rv.take(i + 1),
        ps2[k2].path@,
        ps2[k2].generations@[l].generation,
    ) == Some(gen_root_v(ps2[k2].generations@[l])) by {
        if k2 == k {
            if pv.generations@[l] == e {
                lemma_last_root_hit(rv, i, b, g);
            } else {
                let l2 = choose|l2: int|
                    0 <= l2 < old_gens.len() && pv.generations@[l] == old_gens[l2] && (
                    #[trigger] old_gens[l2]).generation != e.generation;
                assert(pre_ps[k].generations@[l2] == pv.generations@[l]);
                lemma_last_root_skip(rv, i, b, pv.generations@[l].generation);
            }
        } else {
            assert(ps2[k2] == pre_ps[k2]);
            lemma_last_root_skip(rv, i, ps2[k2].path@, ps2[k2].generations@[l].generation);
        }
    }
}

proof fn lemma_origin_update(
    rv: Seq<GCRootV>,
    i: int,
    pre_ps: Seq<Profile>,
    ps2: Seq<Profile>,
    k: int,
    pv: Profile,
    old_gens: Seq<GenerationRoot>,
    e: GenerationRoot,
)
    requires
        0 <= i < rv.len(),
        0 <= k < pre_ps.len(),
        ps2 == pre_ps.update(k, pv),
        gen_root_v(e) == rv[i],
        old_gens == pre_ps[k].generations@,
        forall|l: int|
            0 <= l < pv.generations@.len() ==> ((#[trigger] pv.generations@[l]) == e || (exists|
                l2: int,
            |
                0 <= l2 < old_gens.len() && pv.generations@[l] == old_gens[l2] && (
                #[trigger] old_gens[l2]).generation != e.generation)),
        forall|k2: int, l: int|
            #![trigger pre_ps[k2].generations@[l]]
            0 <= k2 < pre_ps.len() && 0 <= l < pre_ps[k2].generations@.len() ==> rv.take(
                i,
            ).contains(gen_root_v(pre_ps[k2].generations@[l])),
    ensures
        forall|k2: int, l: int|
            #![trigger ps2[k2].generations@[l]]
            0 <= k2 < ps2.len() && 0 <= l < ps2[k2].generations@.len() ==> rv.take(i + 1).contains(
                gen_root_v(ps2[k2].generations@[l]),
            ),
{
    assert forall|k2: int, l: int|
        #![trigger ps2[k2].generations@[l]]
        0 <= k2 < ps2.len() && 0 <= l < ps2[k2].generations@.len() implies rv.take(i + 1).contains(
        gen_root_v(ps2[k2].generations@[l]),
    ) by {
        if k2 == k {
            if pv.generations@[l] == e {
                assert(rv.take(i + 1)[i] == gen_root_v(ps2[k2].generations@[l]));
            } else {
                let l2 = choose|l2: int|
                    0 <= l2 < old_gens.len() && pv.generations@[l] == old_gens[l2] && (
                    #[trigger] old_gens[l2]).generation != e.generation;
                assert(pre_ps[k].generations@[l2] == ps2[k2].generations@[l]);
                assert(rv.take(i).contains(gen_root_v(ps2[k2].generations@[l])));
                let i2 = choose|i2: int|
                    0 <= i2 < rv.take(i).len() && rv.take(i)[i2] == gen_root_v(
                        ps2[k2].generations@[l],
                    );
                assert(rv.take(i + 1)[i2] == gen_root_v(ps2[k2].generations@[l]));
            }
        } else {
            assert(ps2[k2] == pre_ps[k2]);
            assert(rv.take(i).contains(gen_root_v(ps2[k2].generations@[l])));
            let i2 = choose|i2: int|
                0 <= i2 < rv.take(i).len() && rv.take(i)[i2] == gen_root_v(
                    ps2[k2].generations@[l],
                );
            assert(rv.take(i + 1)[i2] == gen_root_v(ps2[k2].generations@[l]));
        }
    }
}

proof fn lemma_entries_update(
    rv: Seq<GCRootV>,
    probes: Seq<ProfileProbe>,
    i: int,
    pre_ps: Seq<Profile>,
    ps2: Seq<Profile>,
    k: int,
    pv: Profile,
    old_gens: Seq<GenerationRoot>,
    e: GenerationRoot,
    b: Seq<char>,
    g: u64,
)
    requires
        0 <= i < rv.len(),
        0 <= k < pre_ps.len(),
        ps2 == pre_ps.update(k, pv),
        pre_ps[k].path@ == b,
        pv.path@ == b,
        e.generation == g,
        classify_path(rv[i].path) == Some((b, g)),
        old_gens == pre_ps[k].generations@,
        gens_has_key(pv.generations@, g),
        forall|l2: int|
            0 <= l2 < old_gens.len() && (#[trigger] old_gens[l2]).generation != e.generation
                ==> exists|l: int| 0 <= l < pv.generations@.len() && pv.generations@[l]
                == old_gens[l2],
        forall|i2: int|
            0 <= i2 < i ==> (match classify_path((#[trigger] rv[i2]).path) {
                Some(bg) => probe_symlink(probes, bg.0) ==> has_entry_ps(pre_ps, bg.0, bg.1),
                None => true,
            }),
    ensures
        forall|i2: int|
            0 <= i2 < i + 1 ==> (match classify_path((#[trigger] rv[i2]).path) {
                Some(bg) => probe_symlink(probes, bg.0) ==> has_entry_ps(ps2, bg.0, bg.1),
                None => true,
            }),
{
    let le = choose|le: int|
        0 <= le < pv.generations@.len() && (#[trigger] pv.generations@[le]).generation == g;
    assert(ps2[k] == pv);
    assert(0 <= le < ps2[k].generations@.len());
    assert((ps2[k].generations@[le]).generation == g);
    assert(has_entry_ps(ps2, b, g));
    assert forall|i2: int| 0 <= i2 < i + 1 implies (match classify_path((#[trigger] rv[i2]).path) {
        Some(bg) => probe_symlink(probes, bg.0) ==> has_entry_ps(ps2, bg.0, bg.1),
        None => true,
    }) by {
        if i2 < i {
            match classify_path(rv[i2].path) {
                Some(bg) => {
                    if probe_symlink(probes, bg.0) {
                        assert(has_entry_ps(pre_ps, bg.0, bg.1));
                        let (k3, l3) = choose|k3: int, l3: int|
                            0 <= k3 < pre_ps.len() && 0 <= l3 < (#[trigger] pre_ps[k3]).generations@.len()
                                && pre_ps[k3].path@ == bg.0 && (
                            #[trigger] pre_ps[k3].generations@[l3]).generation == bg.1;
                        if k3 != k {
                            assert(ps2[k3] == pre_ps[k3]);
                        } else {
                            if pre_ps[k3].generations@[l3].generation != e.generation {
                                let l4 = choose|l4: int|
                                    0 <= l4 < pv.generations@.len() && pv.generations@[l4]
                                        == old_gens[l3];
                                assert(0 <= l4 < ps2[k3].generations@.len() && (
                                ps2[k3].generations@[l4]).generation == bg.1);
                            } else {
                                assert(bg.0 == b && bg.1 == g);
                            }
                        }
                    }
                },
                None => {},
            }
        }
    }
}

proof fn lemma_dup_key(
    rv: Seq<GCRootV>,
    i: int,
    pre_ps: Seq<Profile>,
    k: int,
    b: Seq<char>,
    g: u64,
    old_gens: Seq<GenerationRoot>,
)
    requires
        0 <= i < rv.len(),
        0 <= k < pre_ps.len(),
        old_gens == pre_ps[k].generations@,
        pre_ps[k].path@ == b,
        wf_profile(pre_ps[k]),
        classify_path(rv[i].path) == Some((b, g)),
        forall|k2: int, l: int|
            #![trigger pre_ps[k2].generations@[l]]
            0 <= k2 < pre_ps.len() && 0 <= l < pre_ps[k2].generations@.len() ==> rv.take(
                i,
            ).contains(gen_root_v(pre_ps[k2].generations@[l])),
    ensures
        dup_keys_free(rv) ==> !gens_has_key(old_gens, g),
{
    if dup_keys_free(rv) && gens_has_key(old_gens, g) {
        let l2 = choose|l2: int|
            0 <= l2 < old_gens.len() && (#[trigger] old_gens[l2]).generation == g;
        assert(pre_ps[k].generations@[l2] == old_gens[l2]);
        assert(rv.take(i).contains(gen_root_v(pre_ps[k].generations@[l2])));
        let i2 = choose|i2: int|
            0 <= i2 < rv.take(i).len() && rv.take(i)[i2] == gen_root_v(
                pre_ps[k].generations@[l2],
            );
        assert(rv[i2] == gen_root_v(pre_ps[k].generations@[l2]));
        assert(classify_path(rv[i2].path) == Some((b, g)));
        assert(false);
    }
}

proof fn lemma_total_gens_zero(ps: Seq<Profile>)
    requires
        forall|k: int| 0 <= k < ps.len() ==> (#[trigger] ps[k]).generations@.len() == 0,
    ensures
        total_gens(ps) == 0,
    decreases ps.len(),
{
    if ps.len() > 0 {
        lemma_total_gens_zero(ps.drop_last());
    }
}

impl GCRoots {
    /// Pass two of the grouping: hand each root to its profile's generation
    /// series (the last seen entry for a number wins) or to the standalone
    /// collection, in input order.
    #[verifier::rlimit(100)]
    fn populate_profiles(
        roots: &Vec<GCRoot>,
        probes: &Vec<ProfileProbe>,
        profiles: &mut Vec<Profile>,
    ) -> (standalone: Vec<GCRoot>)
        requires
            forall|k: int, j: int|
                0 <= k < j < old(profiles)@.len() ==> lex_le(
                    (#[trigger] old(profiles)@[k]).path@,
                    (#[trigger] old(profiles)@[j]).path@,
                ) && old(profiles)@[k].path@ != old(profiles)@[j].path@,
            forall|k: int|
                0 <= k < old(profiles)@.len() ==> (#[trigger] old(
                    profiles,
                )@[k]).generations@.len() == 0,
            forall|k: int|
                0 <= k < old(profiles)@.len() ==> base_assigned(
                    roots_view(roots@),
                    probes@,
                    (#[trigger] old(profiles)@[k]).path@,
                ),
            forall|b: Seq<char>|
                #[trigger] base_assigned(roots_view(roots@), probes@, b) ==> exists|k: int|
                    0 <= k < old(profiles)@.len() && (#[trigger] old(profiles)@[k]).path@ == b,
            forall|k: int|
                0 <= k < old(profiles)@.len() ==> (#[trigger] old(
                    profiles,
                )@[k]).active_generation == probe_active(probes@, old(profiles)@[k].path@),
        ensures
            final(profiles)@.len() == old(profiles)@.len(),
            forall|k: int|
                0 <= k < final(profiles)@.len() ==> (#[trigger] final(profiles)@[k]).path@ == old(
                    profiles,
                )@[k].path@ && final(profiles)@[k].active_generation == old(
                    profiles,
                )@[k].active_generation,
            forall|k: int| 0 <= k < final(profiles)@.len() ==> wf_profile(
                #[trigger] final(profiles)@[k],
            ),
            roots_view(standalone@) == roots_view(roots@).filter(unassigned_filter(probes@)),
            forall|k: int, l: int|
                0 <= k < final(profiles)@.len() && 0 <= l
                    < (#[trigger] final(profiles)@[k]).generations@.len() ==> roots_view(
                    roots@,
                ).contains(gen_root_v(#[trigger] final(profiles)@[k].generations@[l])),
            forall|k: int, l: int|
                #![trigger final(profiles)@[k].generations@[l]]
                0 <= k < final(profiles)@.len() && 0 <= l
                    < final(profiles)@[k].generations@.len() ==> last_root_for(
                    roots_view(roots@),
                    final(profiles)@[k].path@,
                    final(profiles)@[k].generations@[l].generation,
                ) == Some(gen_root_v(final(profiles)@[k].generations@[l])),
            forall|i2: int|
                0 <= i2 < roots@.len() ==> (match classify_path(
                    (#[trigger] roots_view(roots@)[i2]).path,
                ) {
                    Some(bg) => probe_symlink(probes@, bg.0) ==> has_entry_ps(
                        final(profiles)@,
                        bg.0,
                        bg.1,
                    ),
                    None => true,
                }),
            standalone@.len() + total_gens(final(profiles)@) <= roots@.len(),
            dup_keys_free(roots_view(roots@)) ==> standalone@.len() + total_gens(final(profiles)@)
                == roots@.len(),
    {
        let ghost rv = roots_view(roots@);
        let ghost f = unassigned_filter(probes@);
        let mut standalone: Vec<GCRoot> = Vec::new();
        let mut i: usize = 0;
        proof {
            lemma_total_gens_zero(old(profiles)@);
            lemma_filter_empty(f);
            assert(rv.take(0) =~= Seq::<GCRootV>::empty());
            assert(roots_view(standalone@) =~= Seq::<GCRootV>::empty());
            assert(roots_view(standalone@) == rv.take(0).filter(f));
        }
        while i < roots.len()
            invariant
                i <= roots@.len(),
                rv == roots_view(roots@),
                f == unassigned_filter(probes@),
                forall|k: int, j: int|
                    0 <= k < j < old(profiles)@.len() ==> (#[trigger] old(profiles)@[k]).path@ != (
                    #[trigger] old(profiles)@[j]).path@,
                forall|k: int|
                    0 <= k < old(profiles)@.len() ==> base_assigned(
                        roots_view(roots@),
                        probes@,
                        (#[trigger] old(profiles)@[k]).path@,
                    ),
                forall|b: Seq<char>|
                    #[trigger] base_assigned(roots_view(roots@), probes@, b) ==> exists|k: int|
                        0 <= k < old(profiles)@.len() && (#[trigger] old(profiles)@[k]).path@ == b,
                profiles@.len() == old(profiles)@.len(),
                forall|k: int|
                    0 <= k < profiles@.len() ==> (#[trigger] profiles@[k]).path@ == old(
                        profiles,
                    )@[k].path@ && profiles@[k].active_generation == old(
                        profiles,
                    )@[k].active_generation,
                forall|k: int| 0 <= k < profiles@.len() ==> wf_profile(#[trigger] profiles@[k]),
                roots_view(standalone@) == rv.take(i as int).filter(f),
                forall|k: int, l: int|
                    #![trigger profiles@[k].generations@[l]]
                    0 <= k < profiles@.len() && 0 <= l < profiles@[k].generations@.len()
                        ==> rv.take(i as int).contains(gen_root_v(profiles@[k].generations@[l])),
                forall|k: int, l: int|
                    #![trigger profiles@[k].generations@[l]]
                    0 <= k < profiles@.len() && 0 <= l < profiles@[k].generations@.len()
                        ==> last_root_for(
                        rv.take(i as int),
                        profiles@[k].path@,
                        profiles@[k].generations@[l].generation,
                    ) == Some(gen_root_v(profiles@[k].generations@[l])),
                forall|i2: int|
                    0 <= i2 < i ==> (match classify_path((#[trigger] rv[i2]).path) {
                        Some(bg) => probe_symlink(probes@, bg.0) ==> has_entry_ps(
                            profiles@,
                            bg.0,
                            bg.1,
                        ),
                        None => true,
                    }),
                standalone@.len() + total_gens(profiles@) <= i,
                dup_keys_free(rv) ==> standalone@.len() + total_gens(profiles@) == i,
            decreases roots@.len() - i,
        {
            let ghost pre_ps = profiles@;
            let ghost pre_sa = standalone@;
            proof {
                assert(rv[i as int] == roots@[i as int]@);
                assert(rv.take(i + 1).drop_last() =~= rv.take(i as int));
                assert(rv.take(i + 1).last() == rv[i as int]);
                assert forall|k2: int, l: int|
                    #![trigger pre_ps[k2].generations@[l]]
                    0 <= k2 < pre_ps.len() && 0 <= l < pre_ps[k2].generations@.len() implies rv.take(
                    i as int,
                ).contains(gen_root_v(pre_ps[k2].generations@[l])) by {
                    assert(pre_ps[k2] == profiles@[k2]);
                    assert(profiles@[k2].generations@[l] == pre_ps[k2].generations@[l]);
                }
                assert forall|k2: int, l: int|
                    #![trigger pre_ps[k2].generations@[l]]
                    0 <= k2 < pre_ps.len() && 0 <= l
                        < pre_ps[k2].generations@.len() implies last_root_for(
                    rv.take(i as int),
                    pre_ps[k2].path@,
                    pre_ps[k2].generations@[l].generation,
                ) == Some(gen_root_v(pre_ps[k2].generations@[l])) by {
                    assert(pre_ps[k2] == profiles@[k2]);
                    assert(profiles@[k2].generations@[l] == pre_ps[k2].generations@[l]);
                }
                assert forall|i2: int| 0 <= i2 < i implies (match classify_path(
                    (#[trigger] rv[i2]).path,
                ) {
                    Some(bg) => probe_symlink(probes@, bg.0) ==> has_entry_ps(pre_ps, bg.0, bg.1),
                    None => true,
                }) by {
                    assert(pre_ps == profiles@);
                }
                assert forall|k2: int| 0 <= k2 < pre_ps.len() implies (
                #[trigger] pre_ps[k2]).path@ == old(profiles)@[k2].path@ by {
                    assert(pre_ps[k2] == profiles@[k2]);
                }
            }
            let mut to_standalone = false;
            match classify_str(roots[i].path.as_str()) {
                None => {
                    to_standalone = true;
                    proof {
                        assert(!assigned(probes@, rv[i as int]));
                        assert forall|k2: int, l: int|
                            #![trigger profiles@[k2].generations@[l]]
                            0 <= k2 < profiles@.len() && 0 <= l
                                < profiles@[k2].generations@.len() implies last_root_for(
                            rv.take(i + 1),
                            profiles@[k2].path@,
                            profiles@[k2].generations@[l].generation,
                        ) == Some(gen_root_v(profiles@[k2].generations@[l])) by {
                            lemma_last_root_skip(
                                rv,
                                i as int,
                                profiles@[k2].path@,
                                profiles@[k2].generations@[l].generation,
                            );
                        }
                    }
                },
                Some((end, g)) => {
                    let b = roots[i].path.as_str().substring_char(0, end);
                    proof {
                        assert(b@ =~= roots@[i as int].path@.take(end as int));
                        assert(classify_path(rv[i as int].path) == Some((b@, g)));
                    }
                    match find_profile(profiles, b) {
                        None => {
                            to_standalone = true;
                            proof {
                                assert(classifies_to(rv[i as int], b@));
                                assert(base_of_roots(rv, b@));
                                if probe_symlink(probes@, b@) {
                                    assert(base_assigned(roots_view(roots@), probes@, b@));
                                    let k0 = choose|k0: int|
                                        0 <= k0 < old(profiles)@.len() && (#[trigger] old(
                                            profiles,
                                        )@[k0]).path@ == b@;
                                    assert(profiles@[k0].path@ == b@);
                                    assert(false);
                                }
                                assert(!assigned(probes@, rv[i as int]));
                                assert forall|k2: int, l: int|
                                    #![trigger profiles@[k2].generations@[l]]
                                    0 <= k2 < profiles@.len() && 0 <= l
                                        < profiles@[k2].generations@.len() implies last_root_for(
                                    rv.take(i + 1),
                                    profiles@[k2].path@,
                                    profiles@[k2].generations@[l].generation,
                                ) == Some(gen_root_v(profiles@[k2].generations@[l])) by {
                                    assert(profiles@[k2].path@ != b@);
                                    lemma_last_root_skip(
                                        rv,
                                        i as int,
                                        profiles@[k2].path@,
                                        profiles@[k2].generations@[l].generation,
                                    );
                                }
                            }
                        },
                        Some(k) => {
                            proof {
                                assert(profiles@[k as int].path@ == b@);
                                assert(probe_symlink(probes@, b@));
                                assert(assigned(probes@, rv[i as int]));
                                assert(!f(rv[i as int]));
                            }
                            let mut p = profiles.remove(k);
                            let act: ActiveState = match p.active_generation {
                                Some(a) => if a == g {
                                    ActiveState::Active
                                } else {
                                    ActiveState::Inactive
                                },
                                None => ActiveState::Unknown,
                            };
                            let e = GenerationRoot {
                                location: roots[i].path.clone(),
                                target: roots[i].target.clone(),
                                generation: g,
                                is_active: act,
                            };
                            proof {
                                assert(act == gen_active_state(p.active_generation, g));
                                assert(gen_root_v(e) =~= rv[i as int]);
                            }
                            let ghost old_gens = p.generations@;
                            insert_generation(&mut p.generations, e);
                            let ghost pv = p;
                            profiles.insert(k, p);
                            proof {
                                assert(profiles@ =~= pre_ps.update(k as int, pv));
                                lemma_total_gens_update(pre_ps, k as int, pv);
                                // the reshaped profile is still well formed
                                assert forall|l: int|
                                    0 <= l < pv.generations@.len() implies ((
                                    #[trigger] pv.generations@[l]).is_active == gen_active_state(
                                        pv.active_generation,
                                        pv.generations@[l].generation,
                                    ) && classify_path(pv.generations@[l].location@) == Some(
                                        (pv.path@, pv.generations@[l].generation),
                                    )) by {
                                    if pv.generations@[l] == e {
                                    } else {
                                        let l2 = choose|l2: int|
                                            0 <= l2 < old_gens.len() && pv.generations@[l]
                                                == old_gens[l2] && (#[trigger] old_gens[l2]).generation
                                                != e.generation;
                                        assert(wf_profile(pre_ps[k as int]));
                                    }
                                }
                                assert(wf_profile(pv));
                                assert forall|k2: int|
                                    0 <= k2 < pre_ps.len() && k2 != k as int implies (
                                #[trigger] pre_ps[k2]).path@ != b@ by {
                                    assert(pre_ps[k2].path@ == old(profiles)@[k2].path@);
                                    assert(pre_ps[k as int].path@ == old(
                                        profiles,
                                    )@[k as int].path@);
                                }
                                lemma_last_update(
                                    rv,
                                    i as int,
                                    pre_ps,
                                    profiles@,
                                    k as int,
                                    pv,
                                    old_gens,
                                    e,
                                    b@,
                                    g,
                                );
                                lemma_origin_update(
                                    rv,
                                    i as int,
                                    pre_ps,
                                    profiles@,
                                    k as int,
                                    pv,
                                    old_gens,
                                    e,
                                );
                                lemma_entries_update(
                                    rv,
                                    probes@,
                                    i as int,
                                    pre_ps,
                                    profiles@,
                                    k as int,
                                    pv,
                                    old_gens,
                                    e,
                                    b@,
                                    g,
                                );
                                lemma_dup_key(rv, i as int, pre_ps, k as int, b@, g, old_gens);
                                // the standalone collection is unchanged
                                lemma_filter_step_skip(rv, f, i as int);
                            }
                        },
                    }
                },
            }
            if to_standalone {
                standalone.push(roots[i].clone());
                proof {
                    assert(f(rv[i as int]));
                    lemma_filter_step_push(rv, f, i as int);
                    assert(roots_view(standalone@) =~= roots_view(pre_sa).push(rv[i as int]));
                    assert(roots_view(standalone@) == rv.take(i + 1).filter(f));
                }
            }
            i = i + 1;
        }
        proof {
            assert(rv.take(roots@.len() as int) =~= rv);
        }
        standalone
    }
}

/// Insertion sort of roots by location path, ascending; keeps the multiset
/// of values.
fn sort_roots(v: Vec<GCRoot>) -> (r: Vec<GCRoot>)
    ensures
        roots_view(r@).to_multiset() == roots_view(v@).to_multiset(),
        forall|i: int, j: int|
            0 <= i < j < r@.len() ==> lex_le((#[trigger] r@[i]).path@, (#[trigger] r@[j]).path@),
{
    broadcast use vstd::seq_lib::group_to_multiset_ensures;

    let mut out: Vec<GCRoot> = Vec::new();
    let mut i: usize = 0;
    proof {
        assert(roots_view(out@) =~= Seq::<GCRootV>::empty());
        assert(roots_view(v@.take(0)) =~= Seq::<GCRootV>::empty());
    }
    while i < v.len()
        invariant
            i <= v@.len(),
            forall|k: int, j: int|
                0 <= k < j < out@.len() ==> lex_le(
                    (#[trigger] out@[k]).path@,
                    (#[trigger] out@[j]).path@,
                ),
            roots_view(out@).to_multiset() == roots_view(v@.take(i as int)).to_multiset(),
        decreases v@.len() - i,
    {
        let x = v[i].clone();
        let mut pos: usize = 0;
        while pos < out.len() && str_le(out[pos].path.as_str(), x.path.as_str())
            invariant
                pos <= out@.len(),
                i < v@.len(),
                x@ == v@[i as int]@,
                forall|l: int| 0 <= l < pos ==> lex_le((#[trigger] out@[l]).path@, x.path@),
                forall|k: int, j: int|
                    0 <= k < j < out@.len() ==> lex_le(
                        (#[trigger] out@[k]).path@,
                        (#[trigger] out@[j]).path@,
                    ),
            decreases out@.len() - pos,
        {
            pos = pos + 1;
        }
        let ghost old_out = out@;
        out.insert(pos, x);
        proof {
            broadcast use vstd::seq_lib::group_to_multiset_ensures;

            old_out.insert_ensures(pos as int, x);
            if pos < old_out.len() {
                lemma_lex_total(old_out[pos as int].path@, x.path@);
            }
            assert forall|k: int, j: int|
                0 <= k < j < out@.len() implies lex_le(
                (#[trigger] out@[k]).path@,
                (#[trigger] out@[j]).path@,
            ) by {
                if j < pos {
                } else if j == pos {
                    assert(out@[k] == old_out[k]);
                } else if k == pos {
                    assert(out@[j] == old_out[j - 1]);
                    if j - 1 > pos {
                        lemma_lex_trans(x.path@, old_out[pos as int].path@, old_out[j - 1].path@);
                    }
                } else if k < pos {
                    assert(out@[k] == old_out[k]);
                    assert(out@[j] == old_out[j - 1]);
                } else {
                    assert(out@[k] == old_out[k - 1]);
                    assert(out@[j] == old_out[j - 1]);
                }
            }
            // the multiset gains exactly the new element
            let ghost a = roots_view(old_out).subrange(0, pos as int);
            let ghost bseq = roots_view(old_out).subrange(pos as int, old_out.len() as int);
            assert(roots_view(out@) =~= a.push(x@) + bseq);
            assert(roots_view(old_out) =~= a + bseq);
            vstd::seq_lib::lemma_multiset_commutative(a.push(x@), bseq);
            vstd::seq_lib::lemma_multiset_commutative(a, bseq);
            assert(a.push(x@).to_multiset() =~= a.to_multiset().insert(x@));
            assert(roots_view(out@).to_multiset() =~= roots_view(old_out).to_multiset().insert(
                x@,
            ));
            assert(v@.take(i + 1).drop_last() =~= v@.take(i as int));
            assert(roots_view(v@.take(i + 1)) =~= roots_view(v@.take(i as int)).push(
                v@[i as int]@,
            ));
            assert(roots_view(v@.take(i + 1)).to_multiset() =~= roots_view(
                v@.take(i as int),
            ).to_multiset().insert(x@));
        }
        i = i + 1;
    }
    proof {
        assert(v@.take(v@.len() as int) =~= v@);
    }
    out
}

impl GCRoots {
    /// The grouping engine on explicit probe results: partition the parsed
    /// roots into per-profile generation series and the standalone
    /// collection. Fails exactly when reading some live profile's symlink
    /// failed fatally.
    pub fn group_with_probes(roots: Vec<GCRoot>, probes: Vec<ProfileProbe>) -> (r: Result<
        GCRoots,
        GcError,
    >)
        ensures
            match r {
                Ok(m) => grouped_from(roots_view(roots@), probes@, m) && !link_read_fails(
                    roots_view(roots@),
                    probes@,
                ) && (dup_keys_free(roots_view(roots@)) ==> m.standalone@.len() + total_gens(
                    m.profiles@,
                ) == roots@.len()),
                Err(e) => link_read_fails(roots_view(roots@), probes@) && e is LinkRead,
            },
    {
        let mut profiles = match Self::create_profiles(&roots, &probes) {
            Ok(ps) => ps,
            Err(e) => {
                return Err(e);
            },
        };
        let standalone_unsorted = Self::populate_profiles(&roots, &probes, &mut profiles);
        let ghost su = standalone_unsorted@;
        let standalone = sort_roots(standalone_unsorted);
        let m = GCRoots { profiles, standalone };
        proof {
            broadcast use vstd::seq_lib::group_to_multiset_ensures;

            assert(wf_gcroots(m));
            assert(roots_view(m.standalone@).to_multiset() == roots_view(roots@).filter(
                unassigned_filter(probes@),
            ).to_multiset());
            assert(m.standalone@.len() == roots_view(m.standalone@).len());
            assert(roots_view(m.standalone@).to_multiset().len() == roots_view(
                su,
            ).to_multiset().len());
            assert(m.standalone@.len() == su.len());
        }
        Ok(m)
    }

    /// Group parsed roots by probing the filesystem: each candidate base
    /// path is asked whether it is a symlink, and if so its target is read.
    /// A listing in which no root classifies as a profile generation never
    /// fails: only reading a candidate profile's symlink can.
    pub fn group_gcroots(roots: Vec<GCRoot>) -> (r: Result<GCRoots, GcError>)
        ensures
            match r {
                Ok(m) => exists|probes: Seq<ProfileProbe>|
                    #[trigger] grouped_from(roots_view(roots@), probes, m),
                Err(e) => e is LinkRead && exists|i: int|
                    0 <= i < roots@.len() && classify_path(
                        (#[trigger] roots_view(roots@)[i]).path,
                    ) is Some,
            },
    {
        let mut probes: Vec<ProfileProbe> = Vec::new();
        let mut i: usize = 0;
        while i < roots.len()
            decreases roots@.len() - i,
        {
            if let Some((end, _g)) = classify_str(roots[i].path.as_str()) {
                let b = roots[i].path.as_str().substring_char(0, end);
                let sym = fs_is_symlink(b);
                let link: LinkRead = if sym {
                    if fs_can_read(b) {
                        match fs_read_link(b) {
                            Ok(t) => LinkRead::Target(t),
                            Err(m) => LinkRead::Failed(m),
                        }
                    } else {
                        LinkRead::Unreadable
                    }
                } else {
                    LinkRead::Unreadable
                };
                probes.push(ProfileProbe { path: b.to_owned(), is_symlink: sym, link });
            }
            i = i + 1;
        }
        match Self::group_with_probes(roots, probes) {
            Ok(m) => Ok(m),
            Err(e) => {
                proof {
                    let rv = roots_view(roots@);
                    let b = choose|b: Seq<char>|
                        #[trigger] base_assigned(rv, probes@, b) && probe_failed(probes@, b);
                    let i2 = choose|i2: int|
                        0 <= i2 < rv.len() && classifies_to(#[trigger] rv[i2], b);
                    assert(classify_path(rv[i2].path) is Some);
                }
                Err(e)
            },
        }
    }
}

// --- Parsing the listing ---

/// The roots a sequence of listing lines yields: one per line with a
/// separator whose path is not excluded.
pub open spec fn roots_of_lines(lines: Seq<Seq<char>>) -> Seq<GCRootV>
    decreases lines.len(),
{
    if lines.len() == 0 {
        Seq::empty()
    } else {
        let rest = roots_of_lines(lines.skip(1));
        match split_line(lines[0]) {
            Some(pt) => if excluded(pt.0) {
                rest
            } else {
                seq![GCRootV { path: pt.0, target: pt.1 }] + rest
            },
            None => rest,
        }
    }
}

/// Every line of the listing holds the separator.
pub open spec fn listing_ok(text: Seq<char>) -> bool {
    forall|i: int|
        0 <= i < lines_of(text).len() ==> split_line(#[trigger] lines_of(text)[i]) is Some
}

impl GCRoots {
    /// Parse one line of the listing: `Err` when the separator is missing
    /// (fatal), `Ok(None)` for an excluded path, `Ok(Some(root))` otherwise.
    pub fn parse_nix_store_gc_line(line: &str) -> (r: Result<Option<GCRoot>, GcError>)
        ensures
            match r {
                Ok(Some(root)) => split_line(line@) == Some((root.path@, root.target@)) && !excluded(
                    root.path@,
                ),
                Ok(None) => split_line(line@) matches Some(pt) && excluded(pt.0),
                Err(e) => split_line(line@) is None && (e matches GcError::MalformedLine {
                    line: l,
                } && l@ == line@),
            },
    {
        match split_line_exec(line) {
            None => Err(GcError::MalformedLine { line: line.to_owned() }),
            Some((p, t)) => {
                if excluded_exec(p.as_str()) {
                    Ok(None)
                } else {
                    Ok(Some(GCRoot { path: p, target: t }))
                }
            },
        }
    }

    /// Parse the whole listing text: fails on the first line without a
    /// separator, otherwise yields the kept roots in line order.
    pub fn parse_nix_store_gc_output(text: &str) -> (r: Result<Vec<GCRoot>, GcError>)
        ensures
            match r {
                Ok(v) => listing_ok(text@) && roots_view(v@) == roots_of_lines(lines_of(text@)),
                Err(e) => !listing_ok(text@) && e is MalformedLine,
            },
    {
        let lines = split_lines(text);
        let ghost ls = lines_of(text@);
        let mut out: Vec<GCRoot> = Vec::new();
        let mut i: usize = 0;
        proof {
            assert(ls.skip(0) =~= ls);
            assert(roots_view(out@) =~= Seq::<GCRootV>::empty());
        }
        while i < lines.len()
            invariant
                i <= lines@.len(),
                ls == lines_of(text@),
                lines@.len() == ls.len(),
                forall|j: int| 0 <= j < lines@.len() ==> (#[trigger] lines@[j])@ == ls[j],
                forall|j: int| 0 <= j < i ==> split_line(#[trigger] ls[j]) is Some,
                roots_of_lines(ls) == roots_view(out@) + roots_of_lines(ls.skip(i as int)),
            decreases lines@.len() - i,
        {
            let ghost pre = out@;
            match Self::parse_nix_store_gc_line(lines[i].as_str()) {
                Err(e) => {
                    return Err(e);
                },
                Ok(opt) => {
                    proof {
                        assert(ls.skip(i as int)[0] == ls[i as int]);
                        assert(ls.skip(i as int).skip(1) =~= ls.skip(i + 1));
                        assert(ls.skip(i as int).len() > 0);
                    }
                    match opt {
                        Some(root) => {
                            out.push(root);
                            proof {
                                let pt = split_line(ls[i as int]).unwrap();
                                assert(roots_of_lines(ls.skip(i as int)) == seq![
                                    GCRootV { path: pt.0, target: pt.1 },
                                ] + roots_of_lines(ls.skip(i + 1)));
                                assert(roots_view(out@) =~= roots_view(pre).push(
                                    GCRootV { path: pt.0, target: pt.1 },
                                ));
                                assert(roots_view(pre).push(GCRootV { path: pt.0, target: pt.1 })
                                    + roots_of_lines(ls.skip(i + 1)) =~= roots_view(pre) + (seq![
                                    GCRootV { path: pt.0, target: pt.1 },
                                ] + roots_of_lines(ls.skip(i + 1))));
                            }
                        },
                        None => {
                            proof {
                                assert(roots_of_lines(ls.skip(i as int)) == roots_of_lines(
                                    ls.skip(i + 1),
                                ));
                            }
                        },
                    }
                },
            }
            i = i + 1;
        }
        proof {
            assert(ls.skip(ls.len() as int) =~= Seq::<Seq<char>>::empty());
            assert(roots_of_lines(ls) =~= roots_view(out@));
        }
        Ok(out)
    }

    /// Build the whole model from the external listing command's outcome: a
    /// failed command is fatal and names its exit status; otherwise the
    /// listing is parsed and the roots grouped against the filesystem.
    pub fn from_listing_output(success: bool, status: &str, stdout: &str) -> (r: Result<
        GCRoots,
        GcError,
    >)
        ensures
            !success ==> (r matches Err(e) && (e matches GcError::ListingCommandFailed {
                status: st,
            } && st@ == status@)),
            success && !listing_ok(stdout@) ==> (r matches Err(e) && e is MalformedLine),
            success && listing_ok(stdout@) ==> match r {
                Ok(m) => exists|probes: Seq<ProfileProbe>|
                    #[trigger] grouped_from(roots_of_lines(lines_of(stdout@)), probes, m),
                Err(e) => e is LinkRead && exists|i: int|
                    0 <= i < roots_of_lines(lines_of(stdout@)).len() && classify_path(
                        (#[trigger] roots_of_lines(lines_of(stdout@))[i]).path,
                    ) is Some,
            },
    {
        if !success {
            return Err(GcError::ListingCommandFailed { status: status.to_owned() });
        }
        let roots = match Self::parse_nix_store_gc_output(stdout) {
            Ok(v) => v,
            Err(e) => {
                return Err(e);
            },
        };
        Self::group_gcroots(roots)
    }
}

} // verus!
