use vstd::prelude::*;

use crate::error::DeltaError;
use crate::log::{entries_map, lemma_entries_map_domain, lemma_entries_map_index, live_upto,
    unique_paths, ActionV, CommitV, OperationKind, TransactionLog};
use crate::paths::{lemma_path_for_injective, path_for};
use crate::rows::{clone_row, row_wf, rows_view, DataFile, Row, RowV};
use crate::stats::{files_view, stats_valid, FileStats, FileStatsV};
use crate::table::{find_file_index, fresh_path, lemma_store_rows_is,
    path_removed, store_file_wf, store_has, store_paths_unique, store_rows, DeltaTable};

verus! {

/// What a compaction did.
#[derive(Clone, Copy, Debug, PartialEq, Eq, Structural)]
pub struct OptimizeMetrics {
    pub files_removed: u64,
    pub files_added: u64,
    pub rows_compacted: u64,
}

/// Whether a file is one of a store's files.
pub open spec fn is_stored_file(store: Seq<DataFile>, f: DataFile) -> bool {
    exists|j: int| 0 <= j < store.len() && #[trigger] store[j] == f
}

/// The rows of a group of files, concatenated in group order.
pub open spec fn concat_group_rows(store: Seq<DataFile>, group: Seq<Seq<char>>) -> Seq<RowV>
    decreases group.len(),
{
    if group.len() == 0 {
        Seq::empty()
    } else {
        concat_group_rows(store, group.drop_last()) + store_rows(store, group.last())
    }
}

/// The log holds a tombstone for this path old enough to have aged past the
/// retention threshold.
pub open spec fn aged_tombstone(log: Seq<CommitV>, p: Seq<char>, retention: u64, now: u64) -> bool {
    exists|ci: int, ai: int|
        0 <= ci < log.len() && 0 <= ai < log[ci].actions.len() && match #[trigger] log[ci].actions[ai] {
            ActionV::RemoveFile { path, deletion_time } => path == p && deletion_time + retention
                <= now,
            _ => false,
        }
}

/// A version still retained for readers: the latest, or one whose commit is
/// younger than the retention threshold.
pub open spec fn retained_version(log: Seq<CommitV>, v: int, retention: u64, now: u64) -> bool {
    0 <= v < log.len() && (v == log.len() - 1 || log[v].timestamp + retention > now)
}

/// A file's bytes may be deleted: its tombstone has aged past the threshold
/// and no retained version still lists it live. Tombstone age alone never
/// suffices.
pub open spec fn vacuum_eligible(log: Seq<CommitV>, p: Seq<char>, retention: u64, now: u64) -> bool {
    &&& aged_tombstone(log, p, retention, now)
    &&& forall|v: int|
        #[trigger] retained_version(log, v, retention, now) ==> !live_upto(log, v + 1).contains_key(
            p,
        )
}

/// Whether the log holds an aged tombstone for a path.
fn has_aged_tombstone(log: &TransactionLog, path: &String, retention: u64, now: u64) -> (b: bool)
    ensures
        b == aged_tombstone(log@, path@, retention, now),
{
    let mut ci: usize = 0;
    while ci < log.commits.len()
        invariant
            ci <= log.commits@.len(),
            log@.len() == log.commits@.len(),
            forall|c: int, a: int|
                0 <= c < ci && 0 <= a < log@[c].actions.len() ==> match #[trigger] log@[c].actions[a] {
                    ActionV::RemoveFile { path: rp, deletion_time } => !(rp == path@
                        && deletion_time + retention <= now),
                    _ => true,
                },
        decreases log.commits@.len() - ci,
    {
        let mut ai: usize = 0;
        while ai < log.commits[ci].actions.len()
            invariant
                ci < log.commits@.len(),
                log@.len() == log.commits@.len(),
                ai <= log.commits@[ci as int].actions@.len(),
                log@[ci as int].actions.len() == log.commits@[ci as int].actions@.len(),
                forall|c: int, a: int|
                    0 <= c < ci && 0 <= a < log@[c].actions.len() ==> match #[trigger] log@[c].actions[a] {
                        ActionV::RemoveFile { path: rp, deletion_time } => !(rp == path@
                            && deletion_time + retention <= now),
                        _ => true,
                    },
                forall|a: int|
                    0 <= a < ai ==> match #[trigger] log@[ci as int].actions[a] {
                        ActionV::RemoveFile { path: rp, deletion_time } => !(rp == path@
                            && deletion_time + retention <= now),
                        _ => true,
                    },
            decreases log.commits@[ci as int].actions@.len() - ai,
        {
            proof {
                assert(log@[ci as int] == log.commits@[ci as int]@);
                assert(log@[ci as int].actions[ai as int] == log.commits@[ci as int].actions@[ai
                    as int]@);
            }
            match &log.commits[ci].actions[ai] {
                crate::log::Action::RemoveFile { path: rp, deletion_time } => {
                    if *rp == *path && retention <= now && *deletion_time <= now - retention {
                        proof {
                            assert(match log@[ci as int].actions[ai as int] {
                                ActionV::RemoveFile { path: p2, deletion_time: dt } => p2 == path@
                                    && dt + retention <= now,
                                _ => false,
                            });
                        }
                        return true;
                    }
                },
                _ => {},
            }
            ai = ai + 1;
        }
        ci = ci + 1;
    }
    false
}

/// Whether a snapshot's entry list holds a path.
fn snapshot_has_path(files: &Vec<FileStats>, path: &String) -> (b: bool)
    ensures
        b == entries_map(files_view(files@)).contains_key(path@),
{
    let ghost fv = files_view(files@);
    let mut i: usize = 0;
    while i < files.len()
        invariant
            i <= files.len(),
            fv == files_view(files@),
            fv.len() == files@.len(),
            forall|j: int| 0 <= j < i ==> #[trigger] fv[j].path != path@,
        decreases files.len() - i,
    {
        proof {
            assert(fv[i as int] == files@[i as int]@);
        }
        if files[i].path == *path {
            proof {
                lemma_entries_map_domain(fv, path@);
            }
            return true;
        }
        i = i + 1;
    }
    proof {
        lemma_entries_map_domain(fv, path@);
    }
    false
}

/// Whether any retained version still lists this path live.
fn live_in_retained(log: &TransactionLog, path: &String, retention: u64, now: u64) -> (b: bool)
    requires
        log.wf(),
    ensures
        b == exists|v: int|
            #[trigger] retained_version(log@, v, retention, now) && live_upto(
                log@,
                v + 1,
            ).contains_key(path@),
{
    let mut v: usize = 0;
    while v < log.commits.len()
        invariant
            v <= log.commits@.len(),
            log.wf(),
            log@.len() == log.commits@.len(),
            forall|v2: int|
                0 <= v2 < v && #[trigger] retained_version(log@, v2, retention, now)
                    ==> !live_upto(log@, v2 + 1).contains_key(path@),
        decreases log.commits@.len() - v,
    {
        proof {
            assert(log@[v as int] == log.commits@[v as int]@);
        }
        let is_latest = v + 1 == log.commits.len();
        let ts = log.commits[v].timestamp;
        let retained: bool = is_latest || retention > now || ts > now - retention;
        proof {
            assert(retained == retained_version(log@, v as int, retention, now));
        }
        if retained {
            let snap = match log.read_snapshot(Some(v as u64)) {
                Ok(s) => s,
                Err(_) => {
                    proof {
                        assert(false);
                    }
                    return false;
                },
            };
            if snapshot_has_path(&snap, path) {
                return true;
            }
        }
        v = v + 1;
    }
    false
}

/// Collects the store paths whose bytes vacuum may delete: aged tombstone,
/// and not live in any retained version.
fn vacuum_scan(log: &TransactionLog, store: &Vec<DataFile>, retention: u64, now: u64) -> (r: Vec<
    String,
>)
    requires
        log.wf(),
    ensures
        forall|k: int|
            0 <= k < r@.len() ==> store_has(store@, #[trigger] r@[k]@) && vacuum_eligible(
                log@,
                r@[k]@,
                retention,
                now,
            ),
        forall|j: int|
            0 <= j < store@.len() && vacuum_eligible(log@, #[trigger] store@[j].path@, retention, now)
                ==> path_removed(r@, store@[j].path@),
        forall|j: int|
            0 <= j < store@.len() && !vacuum_eligible(
                log@,
                #[trigger] store@[j].path@,
                retention,
                now,
            ) ==> !path_removed(r@, store@[j].path@),
{
    let mut out: Vec<String> = Vec::new();
    let mut j: usize = 0;
    while j < store.len()
        invariant
            j <= store.len(),
            log.wf(),
            forall|k: int|
                0 <= k < out@.len() ==> store_has(store@, #[trigger] out@[k]@) && vacuum_eligible(
                    log@,
                    out@[k]@,
                    retention,
                    now,
                ),
            forall|j2: int|
                0 <= j2 < j && vacuum_eligible(
                    log@,
                    #[trigger] store@[j2].path@,
                    retention,
                    now,
                ) ==> path_removed(out@, store@[j2].path@),
        decreases store.len() - j,
    {
        let aged = has_aged_tombstone(log, &store[j].path, retention, now);
        let mut eligible: bool = false;
        if aged {
            let still_live = live_in_retained(log, &store[j].path, retention, now);
            if !still_live {
                eligible = true;
            }
        }
        proof {
            assert(eligible == vacuum_eligible(log@, store@[j as int].path@, retention, now));
        }
        let ghost out0 = out@;
        if eligible {
            out.push(store[j].path.clone());
            proof {
                assert(out@[out@.len() - 1]@ == store@[j as int].path@);
                assert(store_has(store@, store@[j as int].path@));
            }
        }
        proof {
            assert forall|j2: int|
                0 <= j2 < j + 1 && vacuum_eligible(
                    log@,
                    #[trigger] store@[j2].path@,
                    retention,
                    now,
                ) implies path_removed(out@, store@[j2].path@) by {
                if j2 == j {
                    assert(out@[out@.len() - 1]@ == store@[j2].path@);
                } else {
                    let k = choose|k: int|
                        0 <= k < out0.len() && #[trigger] out0[k]@ == store@[j2].path@;
                    assert(out@[k]@ == store@[j2].path@);
                }
            }
        }
        j = j + 1;
    }
    proof {
        assert forall|j2: int|
            0 <= j2 < store@.len() && !vacuum_eligible(
                log@,
                #[trigger] store@[j2].path@,
                retention,
                now,
            ) implies !path_removed(out@, store@[j2].path@) by {
            if path_removed(out@, store@[j2].path@) {
                let k = choose|k: int|
                    0 <= k < out@.len() && #[trigger] out@[k]@ == store@[j2].path@;
                assert(vacuum_eligible(log@, out@[k]@, retention, now));
            }
        }
    }
    out
}

/// A compaction group: live files below the target size, all of them, each
/// exactly once.
pub open spec fn group_ok(
    live0: Map<Seq<char>, FileStatsV>,
    group: Seq<Seq<char>>,
    target: u64,
) -> bool {
    &&& forall|k: int|
        0 <= k < group.len() ==> live0.contains_key(#[trigger] group[k]) && live0[group[k]].size
            < target
    &&& forall|p: Seq<char>|
        #[trigger] live0.contains_key(p) && live0[p].size < target ==> group.contains(p)
    &&& forall|k1: int, k2: int| 0 <= k1 < k2 < group.len() ==> group[k1] != group[k2]
}

impl DeltaTable {
    /// Compacts the live files below the target size into one file holding
    /// their rows, concatenated in snapshot order, as one atomic commit with
    /// `data_change` false. Files at or above the target are untouched, and
    /// a table with no two files below the target is left exactly as it is,
    /// with empty metrics.
    #[verifier::rlimit(100)]
    pub fn optimize_table(&mut self, target_file_size: u64, now: u64) -> (r: Result<
        OptimizeMetrics,
        DeltaError,
    >)
        requires
            old(self).wf(),
            old(self).log@.len() < u64::MAX,
            old(self).next_file_id < u64::MAX,
        ensures
            final(self).wf(),
            final(self).schema@ == old(self).schema@,
            match r {
                Ok(m) => {
                    &&& (forall|p: Seq<char>|
                        #[trigger] old(self).live().contains_key(p) ==> old(self).live()[p].size
                            >= target_file_size) ==> {
                        &&& final(self).log@ == old(self).log@
                        &&& final(self).store@ == old(self).store@
                        &&& final(self).next_file_id == old(self).next_file_id
                        &&& m.files_removed == 0
                        &&& m.files_added == 0
                        &&& m.rows_compacted == 0
                    }
                    &&& forall|p: Seq<char>|
                        #[trigger] old(self).live().contains_key(p) && old(self).live()[p].size
                            >= target_file_size ==> {
                            &&& final(self).live().contains_key(p)
                            &&& final(self).live()[p] == old(self).live()[p]
                            &&& store_rows(final(self).store@, p) == store_rows(
                                old(self).store@,
                                p,
                            )
                        }
                    &&& forall|p: Seq<char>|
                        #[trigger] old(self).live().contains_key(p)
                            && !final(self).live().contains_key(p) ==> old(self).live()[p].size
                            < target_file_size
                    &&& forall|q: Seq<char>|
                        #[trigger] final(self).live().contains_key(q)
                            && !old(self).live().contains_key(q) ==> crate::table::fresh_path(
                            old(self).next_file_id,
                            final(self).next_file_id as int - old(self).next_file_id as int,
                            q,
                        )
                    &&& (exists|p1: Seq<char>, p2: Seq<char>|
                        #[trigger] old(self).live().contains_key(p1)
                            && #[trigger] old(self).live().contains_key(p2) && p1 != p2 && old(
                            self,
                        ).live()[p1].size < target_file_size && old(self).live()[p2].size
                            < target_file_size) ==> {
                        let base = old(self).next_file_id;
                        let count = final(self).next_file_id as int - old(
                            self,
                        ).next_file_id as int;
                        &&& forall|p: Seq<char>|
                            #[trigger] old(self).live().contains_key(p) && old(self).live()[p].size
                                < target_file_size ==> !final(self).live().contains_key(p)
                        &&& forall|bb: int|
                            0 <= bb < count ==> final(self).live().contains_key(
                                #[trigger] path_for((base + bb) as nat),
                            )
                        &&& forall|bb: int|
                            0 <= bb < count - 1 ==> store_rows(
                                final(self).store@,
                                #[trigger] path_for((base + bb) as nat),
                            ).len() == target_file_size
                        &&& m.files_added as int == count
                        &&& exists|group: Seq<Seq<char>>|
                            group_ok(old(self).live(), group, target_file_size)
                                && crate::table::concat_fresh_rows(final(self).store@, base, count)
                                == concat_group_rows(old(self).store@, group)
                                && m.files_removed as int == group.len()
                                && m.rows_compacted as int == concat_group_rows(
                                old(self).store@,
                                group,
                            ).len()
                    }
                },
                Err(e) => {
                    &&& e == DeltaError::IoFailure
                    &&& final(self).log@ == old(self).log@
                    &&& final(self).store@ == old(self).store@
                    &&& final(self).next_file_id == old(self).next_file_id
                    &&& exists|group: Seq<Seq<char>>|
                        group_ok(old(self).live(), group, target_file_size) && old(
                            self,
                        ).next_file_id as int + concat_group_rows(old(self).store@, group).len()
                            > u64::MAX
                },
            },
    {
        let ghost live0 = old(self).live();
        let ghost store0 = old(self).store@;
        let snapshot = match self.log.read_snapshot(None) {
            Ok(s) => s,
            Err(_) => {
                proof {
                    assert(false);
                }
                return Err(DeltaError::Corruption);
            },
        };
        let ghost fv = files_view(snapshot@);
        proof {
            assert(entries_map(fv) == live0);
        }
        let mut removals: Vec<String> = Vec::new();
        let ghost mut gseq: Seq<Seq<char>> = Seq::empty();
        let mut all_rows: Vec<Row> = Vec::new();
        proof {
            assert(rows_view(all_rows@) =~= Seq::<RowV>::empty());
            assert(rows_view(all_rows@) =~= concat_group_rows(store0, gseq));
        }
        let mut i: usize = 0;
        while i < snapshot.len()
            invariant
                i <= snapshot.len(),
                self == old(self),
                old(self).wf(),
                live0 == old(self).live(),
                store0 == old(self).store@,
                fv == files_view(snapshot@),
                fv.len() == snapshot@.len(),
                unique_paths(fv),
                entries_map(fv) == live0,
                gseq.len() == removals@.len(),
                forall|k: int| 0 <= k < gseq.len() ==> #[trigger] gseq[k] == removals@[k]@,
                forall|k: int|
                    0 <= k < gseq.len() ==> live0.contains_key(#[trigger] gseq[k])
                        && live0[gseq[k]].size < target_file_size,
                forall|k1: int, k2: int| 0 <= k1 < k2 < gseq.len() ==> gseq[k1] != gseq[k2],
                forall|k: int| 0 <= k < removals@.len() ==> exists|ii: int|
                    0 <= ii < i && #[trigger] removals@[k]@ == fv[ii].path,
                forall|ii: int|
                    0 <= ii < i ==> ((#[trigger] fv[ii].size < target_file_size) <==> path_removed(
                        removals@,
                        fv[ii].path,
                    )),
                rows_view(all_rows@) == concat_group_rows(store0, gseq),
                forall|k: int| 0 <= k < all_rows@.len() ==> row_wf(#[trigger] all_rows@[k], old(self).schema@),
            decreases snapshot.len() - i,
        {
            let ghost p = fv[i as int].path;
            let ghost rem0 = removals@;
            proof {
                lemma_entries_map_index(fv, i as int);
                assert(live0.contains_key(p) && live0[p] == fv[i as int]);
                assert(crate::table::store_has(store0, p));
                assert(fv[i as int] == snapshot@[i as int]@);
                assert forall|k: int| 0 <= k < removals@.len() implies #[trigger] removals@[k]@
                    != p by {
                    let ii2 = choose|ii2: int|
                        0 <= ii2 < i && #[trigger] removals@[k]@ == fv[ii2].path;
                    assert(fv[ii2].path != fv[i as int].path);
                }
            }
            if snapshot[i].size < target_file_size {
                let j = match find_file_index(&self.store, &snapshot[i].path) {
                    Some(j) => j,
                    None => {
                        proof {
                            assert(false);
                        }
                        return Err(DeltaError::NotFound);
                    },
                };
                proof {
                    lemma_store_rows_is(store0, j as int);
                    assert(store_rows(store0, p) == rows_view(self.store@[j as int].rows@));
                    assert(store_file_wf(self.store@[j as int], self.schema@, self.next_file_id));
                }
                let ghost crows0 = rows_view(all_rows@);
                let mut k: usize = 0;
                while k < self.store[j].rows.len()
                    invariant
                        (j as int) < self.store@.len(),
                        k <= self.store@[j as int].rows@.len(),
                        self == old(self),
                        old(self).wf(),
                        store0 == old(self).store@,
                        forall|kk: int|
                            0 <= kk < self.store@[j as int].rows@.len() ==> row_wf(
                                #[trigger] self.store@[j as int].rows@[kk],
                                old(self).schema@,
                            ),
                        rows_view(all_rows@) == crows0 + rows_view(
                            self.store@[j as int].rows@,
                        ).take(k as int),
                        forall|kk: int|
                            0 <= kk < all_rows@.len() ==> row_wf(
                                #[trigger] all_rows@[kk],
                                old(self).schema@,
                            ),
                    decreases self.store@[j as int].rows@.len() - k,
                {
                    let ghost av0 = rows_view(all_rows@);
                    let ghost frv = rows_view(self.store@[j as int].rows@);
                    let copy = clone_row(&self.store[j].rows[k]);
                    proof {
                        assert(copy@ == frv[k as int]);
                        assert(copy@.values.len() == copy.values@.len());
                        assert(frv[k as int].values.len() == self.store@[j as int].rows@[k
                            as int].values@.len());
                        assert(row_wf(copy, old(self).schema@));
                    }
                    all_rows.push(copy);
                    proof {
                        assert(rows_view(all_rows@) =~= av0.push(frv[k as int]));
                        assert(rows_view(all_rows@) =~= crows0 + frv.take(k + 1));
                    }
                    k = k + 1;
                }
                removals.push(snapshot[i].path.clone());
                proof {
                    assert(removals@[removals@.len() - 1]@ == p);
                    let gseq0 = gseq;
                    gseq = gseq.push(p);
                    assert(gseq.last() == p);
                    assert(gseq.drop_last() =~= gseq0);
                    let frv = rows_view(self.store@[j as int].rows@);
                    assert(frv.take(frv.len() as int) =~= frv);
                    assert(rows_view(all_rows@) == crows0 + store_rows(store0, p));
                    assert(concat_group_rows(store0, gseq) == concat_group_rows(store0, gseq0)
                        + store_rows(store0, p));
                    assert(path_removed(removals@, p));
                }
            } else {
                proof {
                    assert(!path_removed(removals@, p));
                }
            }
            proof {
                assert forall|k: int| 0 <= k < removals@.len() implies exists|ii2: int|
                    0 <= ii2 < i + 1 && #[trigger] removals@[k]@ == fv[ii2].path by {
                    if k < rem0.len() {
                        let ii2 = choose|ii2: int| 0 <= ii2 < i && rem0[k]@ == fv[ii2].path;
                        assert(removals@[k]@ == fv[ii2].path);
                    } else {
                        assert(removals@[k]@ == fv[i as int].path);
                    }
                }
                assert forall|ii2: int| 0 <= ii2 < i + 1 implies ((#[trigger] fv[ii2].size
                    < target_file_size) <==> path_removed(removals@, fv[ii2].path)) by {
                    if ii2 < i {
                        assert(fv[ii2].path != p);
                        assert(path_removed(removals@, fv[ii2].path) == path_removed(
                            rem0,
                            fv[ii2].path,
                        )) by {
                            if path_removed(removals@, fv[ii2].path) {
                                let k2 = choose|k2: int|
                                    0 <= k2 < removals@.len() && #[trigger] removals@[k2]@
                                        == fv[ii2].path;
                                if k2 < rem0.len() {
                                    assert(rem0[k2]@ == fv[ii2].path);
                                } else {
                                    assert(removals@[k2]@ == p);
                                    assert(false);
                                }
                            }
                            if path_removed(rem0, fv[ii2].path) {
                                let k2 = choose|k2: int|
                                    0 <= k2 < rem0.len() && #[trigger] rem0[k2]@ == fv[ii2].path;
                                assert(removals@[k2]@ == fv[ii2].path);
                            }
                        }
                    }
                }
            }
            i = i + 1;
        }
        proof {
            assert(group_ok(live0, gseq, target_file_size)) by {
                assert forall|p: Seq<char>|
                    #[trigger] live0.contains_key(p) && live0[p].size < target_file_size implies
                    gseq.contains(p) by {
                    lemma_entries_map_domain(fv, p);
                    let ii = choose|ii: int| 0 <= ii < fv.len() && fv[ii].path == p;
                    lemma_entries_map_index(fv, ii);
                    assert(fv[ii].size < target_file_size);
                    assert(path_removed(removals@, p));
                    let k = choose|k: int|
                        0 <= k < removals@.len() && #[trigger] removals@[k]@ == p;
                    assert(gseq[k] == p);
                }
            }
        }
        if removals.len() < 2 {
            proof {
                assert(!(exists|p1: Seq<char>, p2: Seq<char>|
                    #[trigger] live0.contains_key(p1) && #[trigger] live0.contains_key(p2) && p1
                        != p2 && live0[p1].size < target_file_size && live0[p2].size
                        < target_file_size)) by {
                    if exists|p1: Seq<char>, p2: Seq<char>|
                        #[trigger] live0.contains_key(p1) && #[trigger] live0.contains_key(p2)
                            && p1 != p2 && live0[p1].size < target_file_size && live0[p2].size
                            < target_file_size {
                        let (p1, p2) = choose|p1: Seq<char>, p2: Seq<char>|
                            #[trigger] live0.contains_key(p1) && #[trigger] live0.contains_key(p2)
                                && p1 != p2 && live0[p1].size < target_file_size
                                && live0[p2].size < target_file_size;
                        assert(gseq.contains(p1));
                        assert(gseq.contains(p2));
                        let k1 = choose|k1: int| 0 <= k1 < gseq.len() && gseq[k1] == p1;
                        let k2 = choose|k2: int| 0 <= k2 < gseq.len() && gseq[k2] == p2;
                        assert(k1 != k2);
                        assert(gseq.len() >= 2);
                    }
                }
            }
            return Ok(OptimizeMetrics { files_removed: 0, files_added: 0, rows_compacted: 0 });
        }
        proof {
            // Some live file is below the target, so the target is positive
            // and the all-at-target premise cannot hold.
            let ii0 = choose|ii0: int| 0 <= ii0 < i && #[trigger] removals@[0]@ == fv[ii0].path;
            lemma_entries_map_index(fv, ii0);
            assert(live0.contains_key(fv[ii0].path) && live0[fv[ii0].path].size
                < target_file_size);
            assert(target_file_size >= 1);
        }
        // One fresh file id is drawn per output file, and no more output
        // files are written than rows exist; refuse the rewrite if the id
        // counter cannot cover that.
        if all_rows.len() as u64 > u64::MAX - self.next_file_id {
            proof {
                assert(rows_view(all_rows@).len() == all_rows@.len());
                assert(rows_view(all_rows@) == concat_group_rows(store0, gseq));
            }
            return Err(DeltaError::IoFailure);
        }
        let rows_compacted = all_rows.len() as u64;
        let files_removed = removals.len() as u64;
        let ghost allv = rows_view(all_rows@);
        let n = all_rows.len();
        let mut batches: Vec<Vec<Row>> = Vec::new();
        let ghost mut starts: Seq<int> = seq![0int];
        let mut start: usize = 0;
        while start < n
            invariant
                start <= n,
                n == all_rows@.len(),
                target_file_size >= 1,
                self == old(self),
                allv == rows_view(all_rows@),
                allv.len() == n,
                forall|k: int|
                    0 <= k < all_rows@.len() ==> row_wf(#[trigger] all_rows@[k], old(self).schema@),
                starts.len() == batches@.len() + 1,
                starts[0] == 0,
                starts.last() == start as int,
                forall|k: int| 0 <= k < starts.len() - 1 ==> #[trigger] starts[k] < starts[k + 1],
                forall|k: int| 0 <= k < starts.len() ==> 0 <= #[trigger] starts[k] <= n,
                forall|k: int|
                    0 <= k < starts.len() - 1 ==> #[trigger] starts[k + 1] - starts[k]
                        == target_file_size || starts[k + 1] == n as int,
                forall|bb: int|
                    0 <= bb < batches@.len() ==> rows_view(#[trigger] batches@[bb]@)
                        == allv.subrange(starts[bb], starts[bb + 1]),
                forall|bb: int, ii2: int|
                    0 <= bb < batches@.len() && 0 <= ii2 < batches@[bb]@.len() ==> row_wf(
                        #[trigger] batches@[bb]@[ii2],
                        old(self).schema@,
                    ),
                batches@.len() <= start as int,
            decreases n - start,
        {
            let step: usize = if target_file_size >= (n - start) as u64 {
                n - start
            } else {
                target_file_size as usize
            };
            let end = start + step;
            proof {
                assert(end <= n);
                assert(end - start == target_file_size || end == n);
                assert(end > start);
            }
            let mut chunk: Vec<Row> = Vec::new();
            let mut k: usize = start;
            proof {
                assert(rows_view(chunk@) =~= allv.subrange(start as int, start as int));
            }
            while k < end
                invariant
                    start <= k <= end,
                    end <= n,
                    n == all_rows@.len(),
                    allv == rows_view(all_rows@),
                    forall|kk: int|
                        0 <= kk < all_rows@.len() ==> row_wf(
                            #[trigger] all_rows@[kk],
                            old(self).schema@,
                        ),
                    self == old(self),
                    rows_view(chunk@) == allv.subrange(start as int, k as int),
                    forall|kk: int|
                        0 <= kk < chunk@.len() ==> row_wf(#[trigger] chunk@[kk], old(self).schema@),
                decreases end - k,
            {
                let ghost ch0 = rows_view(chunk@);
                let copy = clone_row(&all_rows[k]);
                proof {
                    assert(copy@ == allv[k as int]);
                    assert(copy@.values.len() == copy.values@.len());
                    assert(allv[k as int].values.len() == all_rows@[k as int].values@.len());
                    assert(row_wf(copy, old(self).schema@));
                }
                chunk.push(copy);
                proof {
                    assert(rows_view(chunk@) =~= ch0.push(allv[k as int]));
                    assert(rows_view(chunk@) =~= allv.subrange(start as int, k + 1));
                }
                k = k + 1;
            }
            batches.push(chunk);
            proof {
                let starts0 = starts;
                starts = starts.push(end as int);
                assert(starts.drop_last() =~= starts0);
                assert(starts.last() == end as int);
                assert(rows_view(batches@[batches@.len() - 1]@) == allv.subrange(
                    start as int,
                    end as int,
                ));
                assert forall|bb: int| 0 <= bb < batches@.len() implies rows_view(
                    #[trigger] batches@[bb]@,
                ) == allv.subrange(starts[bb], starts[bb + 1]) by {
                    if bb < batches@.len() - 1 {
                        assert(starts[bb] == starts0[bb]);
                        assert(starts[bb + 1] == starts0[bb + 1]);
                    } else {
                        assert(starts[bb] == start as int);
                        assert(starts[bb + 1] == end as int);
                    }
                }
            }
            start = end;
        }
        proof {
            assert(batches@.len() <= n);
            assert(self.next_file_id + batches@.len() <= u64::MAX);
        }
        let files_added = batches.len() as u64;
        let ghost base_id = self.next_file_id;
        let ghost count = batches@.len() as int;
        let ghost bseq = batches@;
        match self.apply_rewrite(&removals, batches, OperationKind::Optimize, false, now) {
            Ok(_) => {},
            Err(_) => {
                proof {
                    assert(false);
                }
                return Err(DeltaError::IoFailure);
            },
        }
        proof {
            assert forall|p: Seq<char>| #[trigger] old(self).live().contains_key(p) implies
                !fresh_path(base_id, count, p) by {
                if fresh_path(base_id, count, p) {
                    assert(live0.contains_key(p));
                    assert(crate::table::store_has(store0, p));
                    let j = choose|j: int|
                        0 <= j < store0.len() && #[trigger] store0[j].path@ == p;
                    assert(store_file_wf(old(self).store@[j], old(self).schema@, base_id));
                    let id0 = choose|id0: nat|
                        id0 < base_id && old(self).store@[j].path@ == path_for(id0);
                    let id1 = choose|id1: nat|
                        base_id <= id1 < base_id + count && p == #[trigger] path_for(id1);
                    lemma_path_for_injective(id0, id1);
                }
            }
            assert forall|p: Seq<char>| #[trigger] old(self).live().contains_key(p) implies (
            path_removed(removals@, p) <==> old(self).live()[p].size < target_file_size) by {
                assert(live0.contains_key(p));
                lemma_entries_map_domain(fv, p);
                let ii = choose|ii: int| 0 <= ii < fv.len() && fv[ii].path == p;
                lemma_entries_map_index(fv, ii);
                assert(fv[ii] == live0[p]);
                assert((fv[ii].size < target_file_size) <==> path_removed(removals@, fv[ii].path));
            }
            assert forall|p: Seq<char>|
                #[trigger] old(self).live().contains_key(p) && old(self).live()[p].size
                    >= target_file_size implies self.live().contains_key(p) && self.live()[p]
                == old(self).live()[p] && store_rows(self.store@, p) == store_rows(
                old(self).store@,
                p,
            ) by {
                assert(!path_removed(removals@, p));
                assert(!fresh_path(base_id, count, p));
                assert(self.live().contains_key(p));
            }
            assert forall|p: Seq<char>|
                #[trigger] old(self).live().contains_key(p) && !self.live().contains_key(p) implies
                old(self).live()[p].size < target_file_size by {
                assert(!fresh_path(base_id, count, p));
                if !path_removed(removals@, p) {
                    assert(self.live().contains_key(p));
                }
            }
            assert forall|p: Seq<char>|
                #[trigger] old(self).live().contains_key(p) && old(self).live()[p].size
                    < target_file_size implies !self.live().contains_key(p) by {
                assert(path_removed(removals@, p));
                assert(!fresh_path(base_id, count, p));
            }
            assert forall|bb: int| 0 <= bb < count implies self.live().contains_key(
                #[trigger] path_for((base_id + bb) as nat),
            ) by {
                assert(base_id <= (base_id + bb) as nat && ((base_id + bb) as nat) < base_id
                    + count);
                assert(fresh_path(base_id, count, path_for((base_id + bb) as nat)));
            }
            assert forall|bb: int|
                0 <= bb < starts.len() - 1 implies #[trigger] store_rows(
                self.store@,
                path_for((base_id + bb) as nat),
            ) == allv.subrange(starts[bb], starts[bb + 1]) by {
                assert(store_rows(self.store@, path_for((base_id + bb) as nat)) == rows_view(
                    bseq[bb]@,
                ));
                assert(rows_view(bseq[bb]@) == allv.subrange(starts[bb], starts[bb + 1]));
            }
            assert forall|bb: int| 0 <= bb < count - 1 implies store_rows(
                self.store@,
                #[trigger] path_for((base_id + bb) as nat),
            ).len() == target_file_size by {
                assert(store_rows(self.store@, path_for((base_id + bb) as nat)) == allv.subrange(
                    starts[bb],
                    starts[bb + 1],
                ));
                if starts[bb + 1] == n as int {
                    assert(starts[bb + 1] < starts[bb + 2]);
                    crate::zorder::lemma_starts_mono(starts, bb + 2, count);
                    assert(starts[count] <= n);
                    assert(false);
                }
                assert(starts[bb + 1] - starts[bb] == target_file_size);
            }
            crate::table::lemma_concat_fresh(self.store@, base_id, starts, allv, count);
            assert(starts[count] == n as int);
            assert(allv.take(n as int) =~= allv);
            assert(crate::table::concat_fresh_rows(self.store@, base_id, count) == allv);
            assert(allv == concat_group_rows(old(self).store@, gseq));
            assert(files_removed as int == gseq.len());
            assert(rows_compacted as int == concat_group_rows(old(self).store@, gseq).len());
            assert(files_added as int == count);
            assert(count == self.next_file_id as int - old(self).next_file_id as int);
        }
        Ok(OptimizeMetrics { files_removed, files_added, rows_compacted })
    }

    /// Lists the files a vacuum run at this time would delete, without
    /// deleting anything: exactly the stored files whose tombstones have
    /// aged past the threshold and which no retained version still lists
    /// live.
    pub fn vacuum_dry_run(&self, retention_threshold: u64, now: u64) -> (r: Result<
        Vec<String>,
        DeltaError,
    >)
        requires
            self.wf(),
        ensures
            match r {
                Ok(list) => {
                    &&& forall|k: int|
                        0 <= k < list@.len() ==> store_has(self.store@, #[trigger] list@[k]@)
                            && vacuum_eligible(self.log@, list@[k]@, retention_threshold, now)
                    &&& forall|j: int|
                        0 <= j < self.store@.len() && vacuum_eligible(
                            self.log@,
                            #[trigger] self.store@[j].path@,
                            retention_threshold,
                            now,
                        ) ==> path_removed(list@, self.store@[j].path@)
                },
                Err(_) => false,
            },
    {
        Ok(vacuum_scan(&self.log, &self.store, retention_threshold, now))
    }

    /// Physically deletes the files whose tombstones have aged past the
    /// threshold and which no retained version still lists live, and returns
    /// their paths. Performs the same scan as the dry run; the log and the
    /// live set are untouched, and a file still referenced by any retained
    /// version is never deleted.
    pub fn vacuum_table(&mut self, retention_threshold: u64, now: u64) -> (r: Result<
        Vec<String>,
        DeltaError,
    >)
        requires
            old(self).wf(),
        ensures
            final(self).wf(),
            final(self).log@ == old(self).log@,
            final(self).schema@ == old(self).schema@,
            final(self).next_file_id == old(self).next_file_id,
            final(self).live() == old(self).live(),
            match r {
                Ok(list) => {
                    &&& forall|k: int|
                        0 <= k < list@.len() ==> store_has(old(self).store@, #[trigger] list@[k]@)
                            && vacuum_eligible(
                            old(self).log@,
                            list@[k]@,
                            retention_threshold,
                            now,
                        )
                    &&& forall|j: int|
                        0 <= j < old(self).store@.len() ==> (vacuum_eligible(
                            old(self).log@,
                            #[trigger] old(self).store@[j].path@,
                            retention_threshold,
                            now,
                        ) <==> !store_has(final(self).store@, old(self).store@[j].path@))
                    &&& forall|k: int|
                        0 <= k < final(self).store@.len() ==> is_stored_file(
                            old(self).store@,
                            #[trigger] final(self).store@[k],
                        )
                },
                Err(_) => false,
            },
    {
        let deleted = vacuum_scan(&self.log, &self.store, retention_threshold, now);
        let ghost store0 = self.store@;
        let ghost dv = deleted@;
        let mut kept: Vec<DataFile> = Vec::new();
        let ghost mut idxs: Seq<int> = Seq::empty();
        let total = self.store.len();
        let mut j: usize = 0;
        while j < total
            invariant
                j <= total,
                total == store0.len(),
                dv == deleted@,
                self.store@ == store0.skip(j as int),
                self.log@ == old(self).log@,
                self.schema@ == old(self).schema@,
                self.next_file_id == old(self).next_file_id,
                store_paths_unique(store0),
                idxs.len() == kept@.len(),
                forall|k: int| 0 <= k < idxs.len() ==> 0 <= #[trigger] idxs[k] < j,
                forall|k1: int, k2: int| 0 <= k1 < k2 < idxs.len() ==> idxs[k1] < idxs[k2],
                forall|k: int| 0 <= k < kept@.len() ==> #[trigger] kept@[k] == store0[idxs[k]],
                forall|k: int|
                    0 <= k < kept@.len() ==> !path_removed(dv, #[trigger] kept@[k].path@),
                forall|j2: int|
                    0 <= j2 < j && !path_removed(dv, #[trigger] store0[j2].path@) ==> exists|k: int|
                        0 <= k < kept@.len() && #[trigger] kept@[k] == store0[j2],
            decreases total - j,
        {
            proof {
                assert(store0.skip(j as int)[0] == store0[j as int]);
                assert(store0.skip(j as int).remove(0) =~= store0.skip(j + 1));
            }
            let f = self.store.remove(0);
            proof {
                assert(f == store0[j as int]);
            }
            let mut found: bool = false;
            let mut d: usize = 0;
            while d < deleted.len()
                invariant
                    d <= deleted@.len(),
                    dv == deleted@,
                    j < store0.len(),
                    f == store0[j as int],
                    found ==> path_removed(dv, store0[j as int].path@),
                    !found ==> forall|d2: int|
                        0 <= d2 < d ==> #[trigger] dv[d2]@ != store0[j as int].path@,
                decreases deleted@.len() - d,
            {
                if deleted[d] == f.path {
                    found = true;
                }
                d = d + 1;
            }
            proof {
                assert(found == path_removed(dv, store0[j as int].path@));
            }
            let ghost kept0 = kept@;
            if !found {
                kept.push(f);
                proof {
                    idxs = idxs.push(j as int);
                    assert(kept@[kept@.len() - 1] == store0[j as int]);
                }
            }
            proof {
                assert forall|j2: int|
                    0 <= j2 < j + 1 && !path_removed(dv, #[trigger] store0[j2].path@) implies
                    exists|k: int| 0 <= k < kept@.len() && #[trigger] kept@[k] == store0[j2] by {
                    if j2 == j {
                        assert(kept@[kept@.len() - 1] == store0[j2]);
                    } else {
                        let k = choose|k: int|
                            0 <= k < kept0.len() && #[trigger] kept0[k] == store0[j2];
                        assert(kept@[k] == store0[j2]);
                    }
                }
            }
            j = j + 1;
        }
        self.store = kept;
        proof {
            let store1 = self.store@;
            assert(self.live() == old(self).live());
            assert forall|k1: int, k2: int|
                0 <= k1 < k2 < store1.len() implies store1[k1].path@ != store1[k2].path@ by {
                assert(store1[k1] == store0[idxs[k1]]);
                assert(store1[k2] == store0[idxs[k2]]);
                assert(idxs[k1] < idxs[k2]);
            }
            assert forall|k: int| 0 <= k < store1.len() implies store_file_wf(
                #[trigger] store1[k],
                self.schema@,
                self.next_file_id,
            ) by {
                assert(store1[k] == store0[idxs[k]]);
                assert(store_file_wf(old(self).store@[idxs[k]], old(self).schema@, old(self).next_file_id));
            }
            assert forall|j2: int|
                0 <= j2 < store0.len() implies (vacuum_eligible(
                old(self).log@,
                #[trigger] store0[j2].path@,
                retention_threshold,
                now,
            ) <==> !store_has(store1, store0[j2].path@)) by {
                if vacuum_eligible(old(self).log@, store0[j2].path@, retention_threshold, now) {
                    assert(path_removed(dv, store0[j2].path@));
                    if store_has(store1, store0[j2].path@) {
                        let k = choose|k: int|
                            0 <= k < store1.len() && #[trigger] store1[k].path@
                                == store0[j2].path@;
                        assert(store1[k] == store0[idxs[k]]);
                        assert(!path_removed(dv, store1[k].path@));
                    }
                } else {
                    assert(!path_removed(dv, store0[j2].path@));
                    let k = choose|k: int|
                        0 <= k < kept@.len() && #[trigger] kept@[k] == store0[j2];
                    assert(store1[k].path@ == store0[j2].path@);
                    assert(store_has(store1, store0[j2].path@));
                }
            }
            assert forall|p: Seq<char>| #[trigger] self.live().contains_key(p) implies store_has(
                store1,
                p,
            ) && self.live()[p].path == p && stats_valid(
                self.live()[p],
                crate::rows::schema_view(self.schema@),
                store_rows(store1, p),
            ) && crate::stats::stats_exact(
                self.live()[p],
                crate::rows::schema_view(self.schema@),
                store_rows(store1, p),
            ) by {
                assert(old(self).live().contains_key(p));
                assert(store_has(store0, p));
                let j0 = choose|j0: int|
                    0 <= j0 < store0.len() && #[trigger] store0[j0].path@ == p;
                assert(!vacuum_eligible(old(self).log@, store0[j0].path@, retention_threshold, now))
                    by {
                    if vacuum_eligible(old(self).log@, store0[j0].path@, retention_threshold, now) {
                        let latest = old(self).log@.len() - 1;
                        assert(retained_version(old(self).log@, latest, retention_threshold, now));
                        assert(!live_upto(old(self).log@, latest + 1).contains_key(p));
                    }
                }
                assert(store_has(store1, p));
                let k = choose|k: int| 0 <= k < store1.len() && #[trigger] store1[k].path@ == p;
                assert(store1[k] == store0[idxs[k]]);
                assert(store0[idxs[k]].path@ == p);
                lemma_store_rows_is(store1, k);
                lemma_store_rows_is(store0, idxs[k]);
                assert(store_rows(store1, p) == store_rows(store0, p));
            }
            assert forall|k: int| 0 <= k < deleted@.len() implies store_has(
                old(self).store@,
                #[trigger] deleted@[k]@,
            ) && vacuum_eligible(old(self).log@, deleted@[k]@, retention_threshold, now) by {
                assert(store_has(store0, deleted@[k]@));
            }
            assert forall|j2: int| 0 <= j2 < old(self).store@.len() implies (vacuum_eligible(
                old(self).log@,
                #[trigger] old(self).store@[j2].path@,
                retention_threshold,
                now,
            ) <==> !store_has(store1, old(self).store@[j2].path@)) by {
                assert(old(self).store@[j2] == store0[j2]);
            }
            assert forall|k: int| 0 <= k < self.store@.len() implies is_stored_file(
                old(self).store@,
                #[trigger] self.store@[k],
            ) by {
                assert(self.store@[k] == store0[idxs[k]]);
                assert(0 <= idxs[k] < store0.len());
                assert(old(self).store@[idxs[k]] == self.store@[k]);
            }
        }
        Ok(deleted)
    }
}

} // verus!
