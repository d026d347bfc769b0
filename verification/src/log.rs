use vstd::prelude::*;

use crate::error::DeltaError;
use crate::stats::{clone_file_stats, files_view, ColumnStats, FileStats, FileStatsV};

verus! {

/// One recorded change within a commit: register a data file, tombstone one,
/// or change table-level metadata.
#[derive(Debug, PartialEq, Eq)]
pub enum Action {
    AddFile { stats: FileStats, modification_time: u64, data_change: bool },
    RemoveFile { path: String, deletion_time: u64 },
    UpdateMetadata { schema: Vec<String>, configuration: Vec<(String, String)> },
}

/// The mathematical shape of an `Action`.
#[verifier::ext_equal]
pub enum ActionV {
    AddFile { stats: FileStatsV, modification_time: u64, data_change: bool },
    RemoveFile { path: Seq<char>, deletion_time: u64 },
    UpdateMetadata { schema: Seq<Seq<char>>, configuration: Seq<(Seq<char>, Seq<char>)> },
}

impl View for Action {
    type V = ActionV;

    open spec fn view(&self) -> ActionV {
        match self {
            Action::AddFile { stats, modification_time, data_change } => ActionV::AddFile {
                stats: stats@,
                modification_time: *modification_time,
                data_change: *data_change,
            },
            Action::RemoveFile { path, deletion_time } => ActionV::RemoveFile {
                path: path@,
                deletion_time: *deletion_time,
            },
            Action::UpdateMetadata { schema, configuration } => ActionV::UpdateMetadata {
                schema: schema@.map_values(|s: String| s@),
                configuration: configuration@.map_values(|p: (String, String)| (p.0@, p.1@)),
            },
        }
    }
}

/// What a commit was for.
#[derive(Clone, Copy, Debug, PartialEq, Eq, Structural)]
pub enum OperationKind {
    Create,
    Write,
    Delete,
    Merge,
    Optimize,
}

/// One atomic, versioned batch of actions. Immutable once written.
#[derive(Debug, PartialEq, Eq)]
pub struct Commit {
    pub version: u64,
    pub timestamp: u64,
    pub operation: OperationKind,
    pub actions: Vec<Action>,
}

/// The mathematical shape of a `Commit`.
#[verifier::ext_equal]
pub struct CommitV {
    pub version: u64,
    pub timestamp: u64,
    pub operation: OperationKind,
    pub actions: Seq<ActionV>,
}

impl View for Commit {
    type V = CommitV;

    open spec fn view(&self) -> CommitV {
        CommitV {
            version: self.version,
            timestamp: self.timestamp,
            operation: self.operation,
            actions: self.actions@.map_values(|a: Action| a@),
        }
    }
}

/// The view of a sequence of actions.
pub open spec fn actions_view(s: Seq<Action>) -> Seq<ActionV> {
    s.map_values(|a: Action| a@)
}

/// One action applied to a live file set: an added file becomes live under
/// its path, a removed file leaves the live set, metadata leaves it unchanged.
pub open spec fn apply_action(m: Map<Seq<char>, FileStatsV>, a: ActionV) -> Map<
    Seq<char>,
    FileStatsV,
> {
    match a {
        ActionV::AddFile { stats, .. } => m.insert(stats.path, stats),
        ActionV::RemoveFile { path, .. } => m.remove(path),
        ActionV::UpdateMetadata { .. } => m,
    }
}

/// A sequence of actions applied in order.
pub open spec fn apply_actions(m: Map<Seq<char>, FileStatsV>, acts: Seq<ActionV>) -> Map<
    Seq<char>,
    FileStatsV,
>
    decreases acts.len(),
{
    if acts.len() == 0 {
        m
    } else {
        apply_action(apply_actions(m, acts.drop_last()), acts.last())
    }
}

/// The live file set after replaying the first `n` commits in order: the
/// files added and not since removed, keyed by path.
pub open spec fn live_upto(commits: Seq<CommitV>, n: int) -> Map<Seq<char>, FileStatsV>
    decreases n,
{
    if n <= 0 {
        Map::empty()
    } else {
        apply_actions(live_upto(commits, n - 1), commits[n - 1].actions)
    }
}

/// The live set after `n` commits depends only on those commits: equal
/// prefixes replay to equal live sets.
pub proof fn lemma_live_upto_prefix(c1: Seq<CommitV>, c2: Seq<CommitV>, n: int)
    requires
        n <= c1.len(),
        n <= c2.len(),
        forall|i: int| 0 <= i < n ==> c1[i] == c2[i],
    ensures
        live_upto(c1, n) == live_upto(c2, n),
    decreases n,
{
    if n > 0 {
        lemma_live_upto_prefix(c1, c2, n - 1);
    }
}

/// A well-formed log holds commit `i` at version `i`: versions are dense,
/// monotone, and claimed exactly once.
pub open spec fn log_wf(commits: Seq<CommitV>) -> bool {
    forall|i: int| 0 <= i < commits.len() ==> #[trigger] commits[i].version as int == i
}

/// A base version matches a log when the next commit would extend exactly
/// that base: the version-slot `base + 1` (or `0` for an empty base) is free
/// and every earlier slot is taken.
pub open spec fn base_matches(commits: Seq<CommitV>, base: Option<u64>) -> bool {
    match base {
        None => commits.len() == 0,
        Some(b) => commits.len() == b + 1,
    }
}

/// Replay determinism: replaying the same commit sequence up to the same
/// version twice yields identical live file sets. The live set is a pure
/// function of the log prefix, so any two replays agree.
pub proof fn lemma_replay_deterministic(c1: Seq<CommitV>, c2: Seq<CommitV>, n: int)
    requires
        c1 == c2,
    ensures
        live_upto(c1, n) == live_upto(c2, n),
{
}

/// Version-slot exclusivity: once a commit has claimed the slot a base
/// version points at, no further commit can claim it; a second attempt
/// against the same base must fail and retry against a later base.
pub proof fn lemma_version_slot_exclusive(commits: Seq<CommitV>, base: Option<u64>)
    requires
        base_matches(commits, base),
    ensures
        forall|c: CommitV| !base_matches(commits.push(c), base),
{
}

/// Linear version history: in a well-formed log every version number is held
/// by exactly one commit.
pub proof fn lemma_versions_linear(commits: Seq<CommitV>)
    requires
        log_wf(commits),
    ensures
        forall|i: int, j: int|
            0 <= i < j < commits.len() ==> commits[i].version != commits[j].version,
{
}

/// Copies a list of strings; the copies view equal to the originals.
pub fn clone_strings(v: &Vec<String>) -> (r: Vec<String>)
    ensures
        r@.map_values(|s: String| s@) == v@.map_values(|s: String| s@),
{
    let mut out: Vec<String> = Vec::new();
    let mut i: usize = 0;
    while i < v.len()
        invariant
            i <= v.len(),
            out@.len() == i,
            forall|j: int| 0 <= j < i ==> out@[j]@ == v@[j]@,
        decreases v.len() - i,
    {
        out.push(v[i].clone());
        i = i + 1;
    }
    proof {
        assert(out@.map_values(|s: String| s@) =~= v@.map_values(|s: String| s@));
    }
    out
}

/// Copies a list of string pairs; the copies view equal to the originals.
fn clone_pairs(v: &Vec<(String, String)>) -> (r: Vec<(String, String)>)
    ensures
        r@.map_values(|p: (String, String)| (p.0@, p.1@)) == v@.map_values(
            |p: (String, String)| (p.0@, p.1@),
        ),
{
    let mut out: Vec<(String, String)> = Vec::new();
    let mut i: usize = 0;
    while i < v.len()
        invariant
            i <= v.len(),
            out@.len() == i,
            forall|j: int| 0 <= j < i ==> out@[j].0@ == v@[j].0@ && out@[j].1@ == v@[j].1@,
        decreases v.len() - i,
    {
        out.push((v[i].0.clone(), v[i].1.clone()));
        i = i + 1;
    }
    proof {
        assert(out@.map_values(|p: (String, String)| (p.0@, p.1@)) =~= v@.map_values(
            |p: (String, String)| (p.0@, p.1@),
        ));
    }
    out
}

/// Copies one action; the copy views equal to the original.
pub fn clone_action(a: &Action) -> (r: Action)
    ensures
        r@ == a@,
{
    match a {
        Action::AddFile { stats, modification_time, data_change } => {
            let r = Action::AddFile {
                stats: clone_file_stats(stats),
                modification_time: *modification_time,
                data_change: *data_change,
            };
            proof {
                assert(r@ =~= a@);
            }
            r
        },
        Action::RemoveFile { path, deletion_time } => Action::RemoveFile {
            path: path.clone(),
            deletion_time: *deletion_time,
        },
        Action::UpdateMetadata { schema, configuration } => {
            let r = Action::UpdateMetadata {
                schema: clone_strings(schema),
                configuration: clone_pairs(configuration),
            };
            proof {
                assert(r@ =~= a@);
            }
            r
        },
    }
}

/// Copies a batch of actions; the copies view equal to the originals.
pub fn clone_actions(actions: &Vec<Action>) -> (r: Vec<Action>)
    ensures
        actions_view(r@) == actions_view(actions@),
{
    let mut out: Vec<Action> = Vec::new();
    let mut i: usize = 0;
    while i < actions.len()
        invariant
            i <= actions.len(),
            out@.len() == i,
            forall|j: int| 0 <= j < i ==> out@[j]@ == actions@[j]@,
        decreases actions.len() - i,
    {
        out.push(clone_action(&actions[i]));
        i = i + 1;
    }
    proof {
        assert(actions_view(out@) =~= actions_view(actions@));
    }
    out
}

/// One action still applies safely against a live file set: a file it adds
/// does not collide with a live path, and a file it removes is still live.
pub open spec fn action_valid(m: Map<Seq<char>, FileStatsV>, a: ActionV) -> bool {
    match a {
        ActionV::AddFile { stats, .. } => !m.contains_key(stats.path),
        ActionV::RemoveFile { path, .. } => m.contains_key(path),
        ActionV::UpdateMetadata { .. } => true,
    }
}

/// A whole action batch still applies safely against a live file set.
pub open spec fn actions_valid(m: Map<Seq<char>, FileStatsV>, avs: Seq<ActionV>) -> bool {
    forall|i: int| 0 <= i < avs.len() ==> action_valid(m, #[trigger] avs[i])
}

/// Whether a snapshot holds an entry for a path.
fn contains_path(files: &Vec<FileStats>, path: &String) -> (b: bool)
    ensures
        b == entries_map(files_view(files@)).contains_key(path@),
{
    let ghost fv = files_view(files@);
    let mut i: usize = 0;
    while i < files.len()
        invariant
            i <= files.len(),
            fv == files_view(files@),
            forall|j: int| 0 <= j < i ==> #[trigger] fv[j].path != path@,
        decreases files.len() - i,
    {
        proof {
            assert(fv[i as int] == files@[i as int]@);
        }
        if files[i].path == *path {
            proof {
                lemma_entries_map_domain(fv, path@);
            }
            return true;
        }
        i = i + 1;
    }
    proof {
        lemma_entries_map_domain(fv, path@);
    }
    false
}

/// Checks an action batch against a snapshot of the latest live file set.
fn validate_actions(files: &Vec<FileStats>, actions: &Vec<Action>) -> (b: bool)
    ensures
        b == actions_valid(entries_map(files_view(files@)), actions_view(actions@)),
{
    let ghost m = entries_map(files_view(files@));
    let ghost avs = actions_view(actions@);
    let mut i: usize = 0;
    while i < actions.len()
        invariant
            i <= actions.len(),
            m == entries_map(files_view(files@)),
            avs == actions_view(actions@),
            avs.len() == actions@.len(),
            forall|j: int| 0 <= j < i ==> action_valid(m, #[trigger] avs[j]),
        decreases actions.len() - i,
    {
        proof {
            assert(avs[i as int] == actions@[i as int]@);
        }
        let ok: bool = match &actions[i] {
            Action::AddFile { stats, .. } => !contains_path(files, &stats.path),
            Action::RemoveFile { path, .. } => contains_path(files, path),
            Action::UpdateMetadata { .. } => true,
        };
        if !ok {
            proof {
                assert(!action_valid(m, avs[i as int]));
            }
            return false;
        }
        i = i + 1;
    }
    true
}

/// The map a snapshot's entry list denotes: each entry keyed by its path,
/// later entries overriding earlier ones.
pub open spec fn entries_map(s: Seq<FileStatsV>) -> Map<Seq<char>, FileStatsV>
    decreases s.len(),
{
    if s.len() == 0 {
        Map::empty()
    } else {
        entries_map(s.drop_last()).insert(s.last().path, s.last())
    }
}

/// No two entries share a path.
pub open spec fn unique_paths(s: Seq<FileStatsV>) -> bool {
    forall|i: int, j: int| 0 <= i < j < s.len() ==> s[i].path != s[j].path
}

/// A path is in the entry map exactly when some entry holds it.
pub proof fn lemma_entries_map_domain(s: Seq<FileStatsV>, p: Seq<char>)
    ensures
        entries_map(s).contains_key(p) <==> exists|i: int| 0 <= i < s.len() && s[i].path == p,
    decreases s.len(),
{
    if s.len() > 0 {
        lemma_entries_map_domain(s.drop_last(), p);
        if s.last().path == p {
            assert(s[s.len() - 1].path == p);
        } else if entries_map(s).contains_key(p) {
            let i = choose|i: int| 0 <= i < s.drop_last().len() && s.drop_last()[i].path == p;
            assert(s[i].path == p);
        } else if exists|i: int| 0 <= i < s.len() && s[i].path == p {
            let i = choose|i: int| 0 <= i < s.len() && s[i].path == p;
            assert(s.drop_last()[i].path == p);
        }
    }
}

/// With unique paths, the entry map sends each entry's path to that entry.
pub proof fn lemma_entries_map_index(s: Seq<FileStatsV>, i: int)
    requires
        unique_paths(s),
        0 <= i < s.len(),
    ensures
        entries_map(s).contains_key(s[i].path),
        entries_map(s)[s[i].path] == s[i],
    decreases s.len(),
{
    if i == s.len() - 1 {
    } else {
        assert(unique_paths(s.drop_last()));
        assert(s.drop_last()[i] == s[i]);
        lemma_entries_map_index(s.drop_last(), i);
        assert(s[i].path != s.last().path);
    }
}

/// Removing an entry removes exactly its path from the entry map.
pub proof fn lemma_entries_map_remove(s: Seq<FileStatsV>, i: int)
    requires
        unique_paths(s),
        0 <= i < s.len(),
    ensures
        entries_map(s.remove(i)) == entries_map(s).remove(s[i].path),
    decreases s.len(),
{
    if i == s.len() - 1 {
        assert(s.remove(i) =~= s.drop_last());
        lemma_entries_map_domain(s.drop_last(), s[i].path);
        assert(forall|j: int| 0 <= j < s.drop_last().len() ==> s.drop_last()[j] == s[j]);
        assert(!entries_map(s.drop_last()).contains_key(s[i].path));
        assert(entries_map(s).remove(s[i].path) =~= entries_map(s.drop_last()));
    } else {
        assert(unique_paths(s.drop_last()));
        assert(s.drop_last()[i] == s[i]);
        lemma_entries_map_remove(s.drop_last(), i);
        assert(s.remove(i).drop_last() =~= s.drop_last().remove(i));
        assert(s.remove(i).last() == s.last());
        assert(s[i].path != s.last().path);
        assert(entries_map(s.remove(i)) == entries_map(s.drop_last().remove(i)).insert(
            s.last().path,
            s.last(),
        ));
        assert(entries_map(s).remove(s[i].path) =~= entries_map(s.drop_last()).remove(
            s[i].path,
        ).insert(s.last().path, s.last()));
    }
}

/// Entries surviving a removal keep unique paths.
pub proof fn lemma_unique_remove(s: Seq<FileStatsV>, i: int)
    requires
        unique_paths(s),
        0 <= i < s.len(),
    ensures
        unique_paths(s.remove(i)),
{
    assert forall|a: int, b: int|
        0 <= a < b < s.remove(i).len() implies s.remove(i)[a].path != s.remove(i)[b].path by {
        let a0 = if a < i {
            a
        } else {
            a + 1
        };
        let b0 = if b < i {
            b
        } else {
            b + 1
        };
        assert(s.remove(i)[a] == s[a0]);
        assert(s.remove(i)[b] == s[b0]);
    }
}

/// Drops the entry holding a path, if any, and leaves the rest in order.
fn remove_path(files: &mut Vec<FileStats>, path: &String)
    requires
        unique_paths(files_view(old(files)@)),
    ensures
        unique_paths(files_view(final(files)@)),
        entries_map(files_view(final(files)@)) == entries_map(files_view(old(files)@)).remove(
            path@,
        ),
        forall|i: int|
            0 <= i < final(files)@.len() ==> #[trigger] final(files)@[i]@.path != path@,
        forall|i: int|
            0 <= i < final(files)@.len() ==> exists|j: int|
                0 <= j < old(files)@.len() && #[trigger] final(files)@[i]@ == old(files)@[j]@,
{
    let ghost fv0 = files_view(files@);
    let mut i: usize = 0;
    while i < files.len()
        invariant
            i <= files.len(),
            files@ == old(files)@,
            fv0 == files_view(files@),
            unique_paths(fv0),
            forall|j: int| 0 <= j < i ==> #[trigger] fv0[j].path != path@,
        decreases files.len() - i,
    {
        proof {
            assert(fv0[i as int] == files@[i as int]@);
        }
        if files[i].path == *path {
            let ghost fi = i as int;
            files.remove(i);
            proof {
                assert(files@.map_values(|f: FileStats| f@) =~= fv0.remove(fi));
                lemma_entries_map_remove(fv0, fi);
                lemma_unique_remove(fv0, fi);
                assert forall|k: int|
                    0 <= k < files@.len() implies #[trigger] files@[k]@.path != path@ by {
                    let k0 = if k < fi {
                        k
                    } else {
                        k + 1
                    };
                    assert(files@[k]@ == fv0.remove(fi)[k]);
                    assert(fv0.remove(fi)[k] == fv0[k0]);
                }
                assert forall|k: int|
                    0 <= k < files@.len() implies exists|j: int|
                    0 <= j < old(files)@.len() && #[trigger] files@[k]@ == old(files)@[j]@ by {
                    let k0 = if k < fi {
                        k
                    } else {
                        k + 1
                    };
                    assert(files@[k]@ == fv0[k0]);
                    assert(fv0[k0] == old(files)@[k0]@);
                }
            }
            return ;
        }
        i = i + 1;
    }
    proof {
        lemma_entries_map_domain(fv0, path@);
        assert(!entries_map(fv0).contains_key(path@));
        assert(entries_map(fv0).remove(path@) =~= entries_map(fv0));
        assert forall|k: int| 0 <= k < files@.len() implies #[trigger] files@[k]@.path
            != path@ by {
            assert(files@[k]@ == fv0[k]);
        }
        assert forall|k: int|
            0 <= k < files@.len() implies exists|j: int|
            0 <= j < old(files)@.len() && #[trigger] files@[k]@ == old(files)@[j]@ by {
            assert(files@[k]@ == old(files)@[k]@);
        }
    }
}

/// The ordered, append-only sequence of versioned commits. It exclusively
/// owns the authoritative table history; snapshots are derived views.
#[derive(Debug, PartialEq, Eq)]
pub struct TransactionLog {
    pub commits: Vec<Commit>,
}

impl View for TransactionLog {
    type V = Seq<CommitV>;

    open spec fn view(&self) -> Seq<CommitV> {
        self.commits@.map_values(|c: Commit| c@)
    }
}

/// How a requested snapshot version maps to a replay bound: `None` replays
/// the whole log, `Some(v)` replays commits `0..=v`.
pub open spec fn replay_bound(commits: Seq<CommitV>, version: Option<u64>) -> int {
    match version {
        None => commits.len() as int,
        Some(v) => v + 1,
    }
}

impl TransactionLog {
    /// The log is well-formed: commit `i` holds version `i`.
    pub open spec fn wf(&self) -> bool {
        log_wf(self@)
    }

    /// An empty log: no commits, no live files.
    pub fn new() -> (log: TransactionLog)
        ensures
            log@ == Seq::<CommitV>::empty(),
            log.wf(),
    {
        let log = TransactionLog { commits: Vec::new() };
        proof {
            assert(log@ =~= Seq::<CommitV>::empty());
        }
        log
    }

    /// The latest committed version, if any commit exists.
    pub fn latest_version(&self) -> (v: Option<u64>)
        requires
            self.wf(),
        ensures
            match v {
                None => self@.len() == 0,
                Some(x) => self@.len() == x + 1,
            },
    {
        if self.commits.len() == 0 {
            None
        } else {
            proof {
                assert(self@[self@.len() - 1].version as int == self@.len() - 1);
                assert(self@[self@.len() - 1] == self.commits@[self.commits@.len() - 1]@);
            }
            Some(self.commits[self.commits.len() - 1].version)
        }
    }

    /// Replays actions `0..=version` (default: latest) and returns the live
    /// file set: every file added and not since removed appears exactly once,
    /// under its path, with the statistics its `AddFile` action recorded.
    /// Never mutates the log; a version beyond the latest is absent.
    pub fn read_snapshot(&self, version: Option<u64>) -> (r: Result<Vec<FileStats>, DeltaError>)
        requires
            self.wf(),
        ensures
            match r {
                Ok(files) => {
                    &&& replay_bound(self@, version) <= self@.len()
                    &&& unique_paths(files_view(files@))
                    &&& entries_map(files_view(files@)) == live_upto(
                        self@,
                        replay_bound(self@, version),
                    )
                },
                Err(e) => e == DeltaError::NotFound && replay_bound(self@, version) > self@.len(),
            },
    {
        let upto: usize = match version {
            None => self.commits.len(),
            Some(v) => {
                if self.commits.len() == 0 || v > self.commits.len() as u64 - 1 {
                    return Err(DeltaError::NotFound);
                }
                (v as usize) + 1
            },
        };
        let mut files: Vec<FileStats> = Vec::new();
        proof {
            assert(files_view(files@) =~= Seq::<FileStatsV>::empty());
            assert(entries_map(files_view(files@)) =~= Map::<Seq<char>, FileStatsV>::empty());
        }
        let mut ci: usize = 0;
        while ci < upto
            invariant
                ci <= upto,
                upto <= self.commits@.len(),
                self.wf(),
                unique_paths(files_view(files@)),
                entries_map(files_view(files@)) == live_upto(self@, ci as int),
            decreases upto - ci,
        {
            let ghost avs = self@[ci as int].actions;
            let mut ai: usize = 0;
            proof {
                assert(avs.take(0) =~= Seq::<ActionV>::empty());
            }
            while ai < self.commits[ci].actions.len()
                invariant
                    ci < upto,
                    upto <= self.commits@.len(),
                    self.wf(),
                    ai <= self.commits@[ci as int].actions@.len(),
                    avs == self@[ci as int].actions,
                    avs.len() == self.commits@[ci as int].actions@.len(),
                    unique_paths(files_view(files@)),
                    entries_map(files_view(files@)) == apply_actions(
                        live_upto(self@, ci as int),
                        avs.take(ai as int),
                    ),
                decreases self.commits@[ci as int].actions@.len() - ai,
            {
                proof {
                    assert(self@[ci as int] == self.commits@[ci as int]@);
                    assert(avs[ai as int] == self.commits@[ci as int].actions@[ai as int]@);
                    assert(avs.take(ai + 1).drop_last() =~= avs.take(ai as int));
                    assert(avs.take(ai + 1).last() == avs[ai as int]);
                }
                let ghost pre = entries_map(files_view(files@));
                match &self.commits[ci].actions[ai] {
                    Action::AddFile { stats, .. } => {
                        remove_path(&mut files, &stats.path);
                        let ghost mid = files_view(files@);
                        let copy = clone_file_stats(stats);
                        files.push(copy);
                        proof {
                            assert(files_view(files@) =~= mid.push(stats@));
                            assert(files_view(files@).drop_last() =~= mid);
                            lemma_entries_map_domain(mid, stats@.path);
                            assert(unique_paths(files_view(files@)));
                            assert(entries_map(files_view(files@)) =~= pre.remove(
                                stats@.path,
                            ).insert(stats@.path, stats@));
                            assert(pre.remove(stats@.path).insert(stats@.path, stats@)
                                =~= pre.insert(stats@.path, stats@));
                        }
                    },
                    Action::RemoveFile { path, .. } => {
                        remove_path(&mut files, path);
                    },
                    Action::UpdateMetadata { .. } => {},
                }
                ai = ai + 1;
            }
            proof {
                assert(avs.take(avs.len() as int) =~= avs);
            }
            ci = ci + 1;
        }
        Ok(files)
    }

    /// Attempts to claim the version slot after `base_version`: the commit is
    /// written at exactly `base + 1` (or `0` on an empty log) if and only if
    /// no other commit has claimed that slot; otherwise the log is unchanged
    /// and the caller must re-validate against the latest version. Either the
    /// whole action batch becomes one new commit or nothing changes.
    pub fn try_commit(
        &mut self,
        base_version: Option<u64>,
        actions: &Vec<Action>,
        operation: OperationKind,
        now: u64,
    ) -> (r: Result<u64, DeltaError>)
        requires
            old(self).wf(),
            old(self)@.len() < u64::MAX,
        ensures
            final(self).wf(),
            match r {
                Ok(v) => {
                    &&& base_matches(old(self)@, base_version)
                    &&& v as int == old(self)@.len()
                    &&& final(self)@ == old(self)@.push(
                        CommitV {
                            version: v,
                            timestamp: now,
                            operation,
                            actions: actions_view(actions@),
                        },
                    )
                },
                Err(e) => {
                    &&& e == DeltaError::Conflict
                    &&& !base_matches(old(self)@, base_version)
                    &&& final(self)@ == old(self)@
                },
            },
    {
        let len: usize = self.commits.len();
        let slot_free: bool = match base_version {
            None => len == 0,
            Some(b) => len >= 1 && b == (len - 1) as u64,
        };
        if !slot_free {
            return Err(DeltaError::Conflict);
        }
        let version: u64 = len as u64;
        let commit = Commit { version, timestamp: now, operation, actions: clone_actions(actions) };
        let ghost cv = commit@;
        self.commits.push(commit);
        proof {
            assert(cv =~= CommitV {
                version,
                timestamp: now,
                operation,
                actions: actions_view(actions@),
            });
            assert(self@ =~= old(self)@.push(cv));
            assert forall|i: int| 0 <= i < self@.len() implies #[trigger] self@[i].version as int
                == i by {
                if i < old(self)@.len() {
                    assert(self@[i] == old(self)@[i]);
                }
            }
        }
        Ok(version)
    }

    /// Commits with optimistic concurrency: attempts the slot after
    /// `base_version`; on a lost race it reloads the latest live set,
    /// re-validates the batch (no file it removes already removed, no path
    /// collision among its additions), and re-attempts at the latest base.
    /// The batch is applied exactly once or not at all — never partially. A
    /// batch that no longer applies fails with `Conflict` and leaves the log
    /// unchanged.
    pub fn commit(
        &mut self,
        base_version: Option<u64>,
        actions: &Vec<Action>,
        operation: OperationKind,
        now: u64,
    ) -> (r: Result<u64, DeltaError>)
        requires
            old(self).wf(),
            old(self)@.len() < u64::MAX,
        ensures
            final(self).wf(),
            match r {
                Ok(v) => {
                    &&& base_matches(old(self)@, base_version) || actions_valid(
                        live_upto(old(self)@, old(self)@.len() as int),
                        actions_view(actions@),
                    )
                    &&& v as int == old(self)@.len()
                    &&& final(self)@ == old(self)@.push(
                        CommitV {
                            version: v,
                            timestamp: now,
                            operation,
                            actions: actions_view(actions@),
                        },
                    )
                },
                Err(e) => {
                    &&& e == DeltaError::Conflict
                    &&& !base_matches(old(self)@, base_version)
                    &&& !actions_valid(
                        live_upto(old(self)@, old(self)@.len() as int),
                        actions_view(actions@),
                    )
                    &&& final(self)@ == old(self)@
                },
            },
    {
        match self.try_commit(base_version, actions, operation, now) {
            Ok(v) => Ok(v),
            Err(_) => {
                // The base is stale: another commit claimed its slot. Reload
                // the latest snapshot and re-validate the batch against it.
                let snapshot = match self.read_snapshot(None) {
                    Ok(files) => files,
                    Err(_) => {
                        proof {
                            assert(false);
                        }
                        return Err(DeltaError::Corruption);
                    },
                };
                if !validate_actions(&snapshot, actions) {
                    return Err(DeltaError::Conflict);
                }
                let latest = self.latest_version();
                match self.try_commit(latest, actions, operation, now) {
                    Ok(v) => Ok(v),
                    Err(_) => {
                        // The log is exclusively borrowed for the whole call,
                        // so the re-attempt at the latest base cannot race.
                        proof {
                            assert(false);
                        }
                        Err(DeltaError::ConcurrentModification)
                    },
                }
            },
        }
    }

    /// Looks a file's recorded column statistics up in the latest snapshot,
    /// as its `AddFile` action registered them.
    pub fn get_column_statistics_from_delta(&self, path: &String) -> (r: Option<Vec<ColumnStats>>)
        requires
            self.wf(),
        ensures
            match r {
                Some(cols) => {
                    &&& live_upto(self@, self@.len() as int).contains_key(path@)
                    &&& cols@.map_values(|c: ColumnStats| c@) == live_upto(
                        self@,
                        self@.len() as int,
                    )[path@].columns
                },
                None => !live_upto(self@, self@.len() as int).contains_key(path@),
            },
    {
        let snapshot = match self.read_snapshot(None) {
            Ok(files) => files,
            Err(_) => {
                proof {
                    assert(false);
                }
                return None;
            },
        };
        let ghost fv = files_view(snapshot@);
        let mut i: usize = 0;
        while i < snapshot.len()
            invariant
                i <= snapshot.len(),
                fv == files_view(snapshot@),
                unique_paths(fv),
                entries_map(fv) == live_upto(self@, self@.len() as int),
                forall|j: int| 0 <= j < i ==> #[trigger] fv[j].path != path@,
            decreases snapshot.len() - i,
        {
            proof {
                assert(fv[i as int] == snapshot@[i as int]@);
            }
            if snapshot[i].path == *path {
                proof {
                    lemma_entries_map_index(fv, i as int);
                }
                let copy = clone_file_stats(&snapshot[i]);
                return Some(copy.columns);
            }
            i = i + 1;
        }
        proof {
            lemma_entries_map_domain(fv, path@);
        }
        None
    }
}

} // verus!
