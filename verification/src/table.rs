use vstd::prelude::*;

use crate::error::DeltaError;
use crate::log::{actions_view, apply_action, apply_actions, entries_map, live_upto,
    lemma_entries_map_domain, lemma_entries_map_index, unique_paths, Action, CommitV,
    OperationKind, TransactionLog};
use crate::skipping::{can_skip_file, eval_predicate, keep_rows, lemma_keep_rows_all,
    lemma_keep_rows_len, lemma_keep_rows_mem, lemma_keep_rows_nosat, lemma_skip_soundness, Predicate};
use crate::paths::{lemma_path_for_injective, make_path, path_for};
use crate::rows::{clone_rows, row_wf, rows_view, schema_distinct, schema_view, DataFile, Row,
    RowV};
use crate::stats::{files_view, get_file_statistics, stats_exact, stats_valid, FileStats,
    FileStatsV};

verus! {

/// The `bb`-th fresh file of a rewrite is present in a live map with valid,
/// exact statistics for its row batch.
pub open spec fn batch_live_at(
    m: Map<Seq<char>, FileStatsV>,
    sv: Seq<Seq<char>>,
    batches: Seq<Vec<Row>>,
    base_id: u64,
    bb: int,
) -> bool {
    &&& m.contains_key(path_for((base_id + bb) as nat))
    &&& m[path_for((base_id + bb) as nat)].path == path_for((base_id + bb) as nat)
    &&& stats_valid(m[path_for((base_id + bb) as nat)], sv, rows_view(batches[bb]@))
    &&& stats_exact(m[path_for((base_id + bb) as nat)], sv, rows_view(batches[bb]@))
}

/// The first `b` fresh files of a rewrite are present in a live map with
/// valid, exact statistics for their row batches.
pub open spec fn batches_live_ok(
    m: Map<Seq<char>, FileStatsV>,
    sv: Seq<Seq<char>>,
    batches: Seq<Vec<Row>>,
    base_id: u64,
    b: int,
) -> bool {
    forall|bb: int| 0 <= bb < b ==> #[trigger] batch_live_at(m, sv, batches, base_id, bb)
}

/// A rewrite batch holds exactly the surviving rows of some live file after
/// filtering with a predicate.
pub open spec fn batch_is_filtered(
    live0: Map<Seq<char>, FileStatsV>,
    sv: Seq<Seq<char>>,
    store0: Seq<DataFile>,
    batch: Vec<Row>,
    p: Predicate,
) -> bool {
    exists|q: Seq<char>|
        #[trigger] live0.contains_key(q) && rows_view(batch@) == keep_rows(
            sv,
            store_rows(store0, q),
            p,
        )
}

/// Whether a path is among the removals of a rewrite.
pub open spec fn path_removed(removals: Seq<String>, q: Seq<char>) -> bool {
    exists|i: int| 0 <= i < removals.len() && #[trigger] removals[i]@ == q
}

/// Whether a path is one of the `count` fresh names a rewrite draws starting
/// at file id `next`.
pub open spec fn fresh_path(next: u64, count: int, q: Seq<char>) -> bool {
    exists|id: nat| next <= id < next + count && q == #[trigger] path_for(id)
}

/// The rows of the `count` fresh files a rewrite drew starting at file id
/// `base`, concatenated in creation order.
pub open spec fn concat_fresh_rows(store: Seq<DataFile>, base: u64, count: int) -> Seq<RowV>
    decreases count,
{
    if count <= 0 {
        Seq::empty()
    } else {
        concat_fresh_rows(store, base, count - 1) + store_rows(
            store,
            path_for((base + (count - 1)) as nat),
        )
    }
}

/// When each fresh file holds one contiguous segment of a row sequence, their
/// concatenation in creation order is the sequence's prefix up to the last
/// boundary.
pub proof fn lemma_concat_fresh(
    store: Seq<DataFile>,
    base: u64,
    starts: Seq<int>,
    allv: Seq<RowV>,
    k: int,
)
    requires
        0 <= k < starts.len(),
        starts[0] == 0,
        forall|bb: int|
            0 <= bb < starts.len() - 1 ==> 0 <= #[trigger] starts[bb] <= starts[bb + 1]
                <= allv.len(),
        forall|bb: int|
            0 <= bb < starts.len() - 1 ==> #[trigger] store_rows(
                store,
                path_for((base + bb) as nat),
            ) == allv.subrange(starts[bb], starts[bb + 1]),
    ensures
        concat_fresh_rows(store, base, k) == allv.take(starts[k]),
    decreases k,
{
    if k == 0 {
        assert(concat_fresh_rows(store, base, 0) =~= allv.take(0));
    } else {
        lemma_concat_fresh(store, base, starts, allv, k - 1);
        assert(store_rows(store, path_for((base + (k - 1)) as nat)) == allv.subrange(
            starts[k - 1],
            starts[k],
        ));
        assert(allv.take(starts[k - 1]) + allv.subrange(starts[k - 1], starts[k]) =~= allv.take(
            starts[k],
        ));
    }
}

/// No two physical files share a path.
pub open spec fn store_paths_unique(store: Seq<DataFile>) -> bool {
    forall|i: int, j: int| 0 <= i < j < store.len() ==> store[i].path@ != store[j].path@
}

/// Whether a physical file with this path exists.
pub open spec fn store_has(store: Seq<DataFile>, p: Seq<char>) -> bool {
    exists|j: int| 0 <= j < store.len() && #[trigger] store[j].path@ == p
}

/// The rows of the physical file with this path.
pub open spec fn store_rows(store: Seq<DataFile>, p: Seq<char>) -> Seq<RowV> {
    let j = choose|j: int| 0 <= j < store.len() && #[trigger] store[j].path@ == p;
    rows_view(store[j].rows@)
}

/// With unique paths, `store_rows` at a file's path is that file's rows.
pub proof fn lemma_store_rows_is(store: Seq<DataFile>, j: int)
    requires
        store_paths_unique(store),
        0 <= j < store.len(),
    ensures
        store_rows(store, store[j].path@) == rows_view(store[j].rows@),
{
    let p = store[j].path@;
    assert(store_has(store, p));
    let j2 = choose|j2: int| 0 <= j2 < store.len() && #[trigger] store[j2].path@ == p;
    if j2 != j {
        assert(store[j2].path@ == store[j].path@);
        assert(false);
    }
}

/// One physical file is well formed for a table: its rows fit the schema and
/// its name was drawn from the table's file-id counter.
pub open spec fn store_file_wf(f: DataFile, schema: Seq<String>, next_id: u64) -> bool {
    &&& forall|i: int| 0 <= i < f.rows@.len() ==> row_wf(#[trigger] f.rows@[i], schema)
    &&& exists|id: nat| id < next_id && f.path@ == path_for(id)
}

/// A snapshot never holds more entries than the physical store has files:
/// its paths are unique and each names a stored file.
pub proof fn lemma_snapshot_fits(snap: Seq<FileStatsV>, store: Seq<DataFile>)
    requires
        unique_paths(snap),
        forall|i: int| 0 <= i < snap.len() ==> store_has(store, #[trigger] snap[i].path),
    ensures
        snap.len() <= store.len(),
{
    broadcast use vstd::seq_lib::seq_to_set_is_finite;

    let ps = Seq::new(snap.len(), |i: int| snap[i].path);
    let qs = Seq::new(store.len(), |j: int| store[j].path@);
    assert(ps.no_duplicates());
    ps.unique_seq_to_set();
    qs.lemma_cardinality_of_set();
    assert forall|p: Seq<char>| ps.to_set().contains(p) implies qs.to_set().contains(p) by {
        let i = choose|i: int| 0 <= i < ps.len() && ps[i] == p;
        assert(store_has(store, snap[i].path));
        let j = choose|j: int| 0 <= j < store.len() && #[trigger] store[j].path@ == snap[i].path;
        assert(qs[j] == p);
        assert(qs.contains(p));
    }
    vstd::set_lib::lemma_len_subset(ps.to_set(), qs.to_set());
}

/// Finds the physical file holding a path.
pub(crate) fn find_file_index(store: &Vec<DataFile>, path: &String) -> (r: Option<usize>)
    ensures
        match r {
            Some(j) => (j as int) < store@.len() && store@[j as int].path@ == path@,
            None => !store_has(store@, path@),
        },
{
    let mut i: usize = 0;
    while i < store.len()
        invariant
            i <= store.len(),
            forall|k: int| 0 <= k < i ==> #[trigger] store@[k].path@ != path@,
        decreases store.len() - i,
    {
        if store[i].path == *path {
            return Some(i);
        }
        i = i + 1;
    }
    None
}

/// Copies the rows a predicate does not match, in order.
fn filter_rows(schema: &Vec<String>, rows: &Vec<Row>, pred: &Predicate) -> (kept: Vec<Row>)
    requires
        forall|i: int| 0 <= i < rows@.len() ==> row_wf(#[trigger] rows@[i], schema@),
    ensures
        rows_view(kept@) == keep_rows(schema_view(schema@), rows_view(rows@), *pred),
{
    let ghost sv = schema_view(schema@);
    let ghost rv = rows_view(rows@);
    let mut kept: Vec<Row> = Vec::new();
    proof {
        assert(rv.take(0) =~= Seq::<RowV>::empty());
        assert(rows_view(kept@) =~= Seq::<RowV>::empty());
    }
    let mut i: usize = 0;
    while i < rows.len()
        invariant
            i <= rows.len(),
            sv == schema_view(schema@),
            rv == rows_view(rows@),
            rv.len() == rows@.len(),
            forall|k: int| 0 <= k < rows@.len() ==> row_wf(#[trigger] rows@[k], schema@),
            rows_view(kept@) == keep_rows(sv, rv.take(i as int), *pred),
        decreases rows.len() - i,
    {
        proof {
            assert(rv.take(i + 1).drop_last() =~= rv.take(i as int));
            assert(rv.take(i + 1).last() == rv[i as int]);
            assert(rv[i as int] == rows@[i as int]@);
        }
        if !eval_predicate(schema, &rows[i], pred) {
            let ghost kv0 = rows_view(kept@);
            kept.push(crate::rows::clone_row(&rows[i]));
            proof {
                assert(rows_view(kept@) =~= kv0.push(rv[i as int]));
            }
        }
        i = i + 1;
    }
    proof {
        assert(rv.take(rv.len() as int) =~= rv);
    }
    kept
}

/// A table: its schema, the transaction log that owns the history, and the
/// physical store of immutable files. Files stay in the store after removal
/// from the live set until vacuum deletes them.
pub struct DeltaTable {
    pub schema: Vec<String>,
    pub log: TransactionLog,
    pub store: Vec<DataFile>,
    pub next_file_id: u64,
}

impl DeltaTable {
    /// The live file set at the latest version.
    pub open spec fn live(self) -> Map<Seq<char>, FileStatsV> {
        live_upto(self.log@, self.log@.len() as int)
    }

    /// Table well-formedness: the log is well formed, the schema has distinct
    /// column names, physical paths are unique and engine-named, every live
    /// file is physically present, and every live entry carries valid, exact
    /// statistics for the rows its file holds.
    pub open spec fn wf(self) -> bool {
        &&& self.log.wf()
        &&& schema_distinct(schema_view(self.schema@))
        &&& store_paths_unique(self.store@)
        &&& forall|j: int|
            0 <= j < self.store@.len() ==> store_file_wf(
                #[trigger] self.store@[j],
                self.schema@,
                self.next_file_id,
            )
        &&& forall|p: Seq<char>| #[trigger] self.live().contains_key(p) ==> store_has(self.store@, p)
        &&& forall|p: Seq<char>|
            #[trigger] self.live().contains_key(p) ==> self.live()[p].path == p && stats_valid(
                self.live()[p],
                schema_view(self.schema@),
                store_rows(self.store@, p),
            ) && stats_exact(self.live()[p], schema_view(self.schema@), store_rows(self.store@, p))
    }

    /// Creates an empty table with the given schema: one metadata commit at
    /// version `0`, no data files, nothing live.
    pub fn create(schema: Vec<String>, now: u64) -> (t: DeltaTable)
        requires
            schema_distinct(schema_view(schema@)),
        ensures
            t.wf(),
            t.schema@ == schema@,
            t.log@.len() == 1,
            t.live() == Map::<Seq<char>, FileStatsV>::empty(),
            t.store@.len() == 0,
            t.next_file_id == 0,
    {
        let mut log = TransactionLog::new();
        let mut actions: Vec<Action> = Vec::new();
        actions.push(
            Action::UpdateMetadata {
                schema: crate::log::clone_strings(&schema),
                configuration: Vec::new(),
            },
        );
        let r = log.commit(None, &actions, OperationKind::Create, now);
        match r {
            Ok(_) => {},
            Err(_) => {
                proof {
                    assert(false);
                }
            },
        }
        let t = DeltaTable { schema, log, store: Vec::new(), next_file_id: 0 };
        proof {
            let avs = actions_view(actions@);
            assert(t.log@.len() == 1);
            assert(t.log@[0].actions == avs);
            assert(avs.len() == 1);
            assert(avs[0] == actions@[0]@);
            assert(avs.drop_last() =~= Seq::<crate::log::ActionV>::empty());
            let m0 = live_upto(t.log@, 0);
            assert(m0 == Map::<Seq<char>, FileStatsV>::empty());
            assert(apply_actions(m0, avs.drop_last()) == m0);
            assert(avs.last() == avs[0]);
            assert(apply_actions(m0, avs) == apply_action(apply_actions(m0, avs.drop_last()),
                avs.last()));
            assert(t.live() == apply_actions(m0, t.log@[0].actions));
            assert(t.live() =~= Map::<Seq<char>, FileStatsV>::empty());
        }
        t
    }

    /// Writes a batch of rows as one new data file and commits its `AddFile`
    /// in one atomic step: the new version's live set is exactly the old one
    /// plus the new file, registered under a fresh engine-generated path with
    /// valid, exact statistics computed at write time.
    pub fn append_rows(&mut self, rows: Vec<Row>, now: u64) -> (r: Result<u64, DeltaError>)
        requires
            old(self).wf(),
            old(self).log@.len() < u64::MAX,
            old(self).next_file_id < u64::MAX,
            forall|i: int| 0 <= i < rows@.len() ==> row_wf(#[trigger] rows@[i], old(self).schema@),
        ensures
            final(self).wf(),
            final(self).schema@ == old(self).schema@,
            match r {
                Ok(v) => {
                    let p = path_for(old(self).next_file_id as nat);
                    &&& v as int == old(self).log@.len()
                    &&& final(self).log@.len() == old(self).log@.len() + 1
                    &&& !old(self).live().contains_key(p)
                    &&& final(self).live().contains_key(p)
                    &&& final(self).live() == old(self).live().insert(p, final(self).live()[p])
                    &&& stats_valid(
                        final(self).live()[p],
                        schema_view(old(self).schema@),
                        rows_view(rows@),
                    )
                    &&& stats_exact(
                        final(self).live()[p],
                        schema_view(old(self).schema@),
                        rows_view(rows@),
                    )
                    &&& store_rows(final(self).store@, p) == rows_view(rows@)
                },
                Err(_) => false,
            },
    {
        let ghost p = path_for(self.next_file_id as nat);
        proof {
            assert forall|j: int| 0 <= j < self.store@.len() implies #[trigger] self.store@[j].path@
                != p by {
                let id = choose|id: nat|
                    id < self.next_file_id && self.store@[j].path@ == path_for(id);
                if self.store@[j].path@ == p {
                    lemma_path_for_injective(id, self.next_file_id as nat);
                }
            }
            if self.live().contains_key(p) {
                assert(store_has(self.store@, p));
            }
        }
        let path = make_path(self.next_file_id);
        let file = DataFile { path, rows };
        let stats = get_file_statistics(&file, &self.schema);
        let ghost fsv = stats@;
        let mut actions: Vec<Action> = Vec::new();
        actions.push(Action::AddFile { stats, modification_time: now, data_change: true });
        let base = self.log.latest_version();
        let r = match self.log.commit(base, &actions, OperationKind::Write, now) {
            Ok(v) => v,
            Err(_) => {
                proof {
                    assert(false);
                }
                return Err(DeltaError::IoFailure);
            },
        };
        proof {
            let avs = actions_view(actions@);
            let n0 = old(self).log@.len() as int;
            assert(self.log@.len() == n0 + 1);
            assert(self.log@[n0].actions == avs);
            assert(avs.len() == 1);
            assert(avs[0] == actions@[0]@);
            assert(fsv.path == p);
            assert(avs.drop_last() =~= Seq::<crate::log::ActionV>::empty());
            crate::log::lemma_live_upto_prefix(self.log@, old(self).log@, n0);
            let m0 = live_upto(self.log@, n0);
            assert(m0 == old(self).live());
            assert(apply_actions(m0, avs.drop_last()) == m0);
            assert(avs.last() == avs[0]);
            assert(apply_actions(m0, avs) == apply_action(apply_actions(m0, avs.drop_last()),
                avs.last()));
            assert(apply_action(m0, avs[0]) == m0.insert(p, fsv));
            assert(live_upto(self.log@, n0 + 1) == apply_actions(m0, self.log@[n0].actions));
            assert(self.live() == old(self).live().insert(p, fsv));
        }
        let ghost old_store = self.store@;
        self.store.push(file);
        self.next_file_id = self.next_file_id + 1;
        proof {
            let store = self.store@;
            let last = store.len() - 1;
            assert(store[last].path@ == p);
            assert(store_paths_unique(store));
            lemma_store_rows_is(store, last);
            assert(store_rows(store, p) == rows_view(rows@));
            assert forall|j: int| 0 <= j < store.len() implies store_file_wf(
                #[trigger] store[j],
                self.schema@,
                self.next_file_id,
            ) by {
                if j < last {
                    assert(store[j] == old_store[j]);
                    let id = choose|id: nat|
                        id < old(self).next_file_id && old_store[j].path@ == path_for(id);
                    assert(id < self.next_file_id && store[j].path@ == path_for(id));
                } else {
                    assert(store[j].path@ == path_for(old(self).next_file_id as nat));
                    assert((old(self).next_file_id as nat) < self.next_file_id);
                }
            }
            assert forall|q: Seq<char>| #[trigger] self.live().contains_key(q) implies store_has(
                store,
                q,
            ) && self.live()[q].path == q && stats_valid(
                self.live()[q],
                schema_view(self.schema@),
                store_rows(store, q),
            ) && stats_exact(self.live()[q], schema_view(self.schema@), store_rows(store, q)) by {
                if q == p {
                    assert(self.live()[q] == fsv);
                } else {
                    assert(old(self).live().contains_key(q));
                    assert(self.live()[q] == old(self).live()[q]);
                    let j = choose|j: int|
                        0 <= j < old_store.len() && #[trigger] old_store[j].path@ == q;
                    assert(store[j].path@ == q);
                    lemma_store_rows_is(store, j);
                    lemma_store_rows_is(old_store, j);
                    assert(store_rows(store, q) == store_rows(old_store, q));
                }
            }
        }
        Ok(r)
    }

    /// One atomic rewrite: tombstones the given paths and registers one new
    /// file per row batch, under fresh engine-drawn names, as a single
    /// commit. The new live set is exactly the old one minus the removals
    /// plus the new files; untouched entries keep their statistics and their
    /// physical rows. Physical bytes of removed files stay in the store for
    /// vacuum.
    #[verifier::rlimit(100)]
    pub fn apply_rewrite(
        &mut self,
        removals: &Vec<String>,
        batches: Vec<Vec<Row>>,
        op: OperationKind,
        data_change: bool,
        now: u64,
    ) -> (r: Result<u64, DeltaError>)
        requires
            old(self).wf(),
            old(self).log@.len() < u64::MAX,
            old(self).next_file_id + batches@.len() <= u64::MAX,
            forall|b: int, i: int|
                0 <= b < batches@.len() && 0 <= i < batches@[b]@.len() ==> row_wf(
                    #[trigger] batches@[b]@[i],
                    old(self).schema@,
                ),
        ensures
            final(self).wf(),
            final(self).schema@ == old(self).schema@,
            final(self).log@.len() == old(self).log@.len() + 1,
            final(self).next_file_id as int == old(self).next_file_id + batches@.len(),
            final(self).store@.len() == old(self).store@.len() + batches@.len(),
            forall|j: int|
                0 <= j < old(self).store@.len() ==> final(self).store@[j] == old(self).store@[j],
            match r {
                Ok(v) => {
                    &&& v as int == old(self).log@.len()
                    &&& forall|q: Seq<char>|
                        #[trigger] final(self).live().contains_key(q) <==> ((old(
                            self,
                        ).live().contains_key(q) && !path_removed(removals@, q)) || fresh_path(
                            old(self).next_file_id,
                            batches@.len() as int,
                            q,
                        ))
                    &&& forall|q: Seq<char>|
                        old(self).live().contains_key(q) && !path_removed(removals@, q)
                            && !fresh_path(old(self).next_file_id, batches@.len() as int, q)
                            ==> #[trigger] final(self).live()[q] == old(self).live()[q]
                            && store_rows(final(self).store@, q) == store_rows(old(self).store@, q)
                    &&& forall|b: int|
                        0 <= b < batches@.len() ==> #[trigger] store_rows(
                            final(self).store@,
                            path_for((old(self).next_file_id + b) as nat),
                        ) == rows_view(batches@[b]@)
                },
                Err(_) => false,
            },
    {
        let ghost live0 = old(self).live();
        let ghost sv = schema_view(old(self).schema@);
        proof {
            assert forall|q: Seq<char>| #[trigger] live0.contains_key(q) implies exists|id: nat|
                id < old(self).next_file_id && q == path_for(id) by {
                assert(store_has(old(self).store@, q));
                let j = choose|j: int|
                    0 <= j < old(self).store@.len() && #[trigger] old(self).store@[j].path@ == q;
                let id = choose|id: nat|
                    id < old(self).next_file_id && old(self).store@[j].path@ == path_for(id);
                assert(id < old(self).next_file_id && q == path_for(id));
            }
        }
        let mut actions: Vec<Action> = Vec::new();
        let ghost mut m = live0;
        proof {
            assert(actions_view(actions@) =~= Seq::<crate::log::ActionV>::empty());
        }
        let mut i: usize = 0;
        while i < removals.len()
            invariant
                i <= removals.len(),
                m == apply_actions(live0, actions_view(actions@)),
                forall|q: Seq<char>|
                    #[trigger] m.contains_key(q) <==> (live0.contains_key(q) && !path_removed(
                        removals@.take(i as int),
                        q,
                    )),
                forall|q: Seq<char>| #[trigger] m.contains_key(q) ==> m[q] == live0[q],
            decreases removals.len() - i,
        {
            let ghost avs0 = actions_view(actions@);
            let ghost rp = removals@[i as int]@;
            actions.push(Action::RemoveFile { path: removals[i].clone(), deletion_time: now });
            proof {
                let avs1 = actions_view(actions@);
                assert(avs1 =~= avs0.push(actions@[actions@.len() - 1]@));
                assert(avs1.drop_last() =~= avs0);
                assert(avs1.last() == actions@[actions@.len() - 1]@);
                assert(apply_actions(live0, avs1) == apply_action(m, avs1.last()));
                m = m.remove(rp);
                assert forall|q: Seq<char>| #[trigger] m.contains_key(q) implies (
                live0.contains_key(q) && !path_removed(removals@.take(i + 1), q)) by {
                    if path_removed(removals@.take(i + 1), q) {
                        let k = choose|k: int|
                            0 <= k < removals@.take(i + 1).len() && #[trigger] removals@.take(
                                i + 1,
                            )[k]@ == q;
                        assert(removals@[k]@ == q);
                        if k < i {
                            assert(removals@.take(i as int)[k]@ == q);
                        }
                    }
                }
                assert forall|q: Seq<char>|
                    live0.contains_key(q) && !path_removed(removals@.take(i + 1), q) implies (
                #[trigger] m.contains_key(q)) by {
                    assert forall|k: int| 0 <= k < i implies removals@.take(i as int)[k]@
                        != q by {
                        assert(removals@.take(i + 1)[k]@ == removals@[k]@);
                    }
                    assert(removals@.take(i + 1)[i as int]@ == rp);
                    assert(q != rp);
                }
            }
            i = i + 1;
        }
        proof {
            assert(removals@.take(removals@.len() as int) =~= removals@);
        }
        let mut new_files: Vec<DataFile> = Vec::new();
        let base_id = self.next_file_id;
        let mut b: usize = 0;
        while b < batches.len()
            invariant
                b <= batches@.len(),
                base_id == old(self).next_file_id,
                self == old(self),
                sv == schema_view(old(self).schema@),
                old(self).wf(),
                old(self).next_file_id + batches@.len() <= u64::MAX,
                forall|bb: int, ii: int|
                    0 <= bb < batches@.len() && 0 <= ii < batches@[bb]@.len() ==> row_wf(
                        #[trigger] batches@[bb]@[ii],
                        old(self).schema@,
                    ),
                forall|q: Seq<char>| #[trigger] live0.contains_key(q) ==> exists|id: nat|
                    id < old(self).next_file_id && q == path_for(id),
                live0 == old(self).live(),
                m == apply_actions(live0, actions_view(actions@)),
                new_files@.len() == b,
                forall|bb: int|
                    0 <= bb < b ==> #[trigger] new_files@[bb].path@ == path_for(
                        (base_id + bb) as nat,
                    ) && rows_view(new_files@[bb].rows@) == rows_view(batches@[bb]@),
                forall|bb: int, ii: int|
                    0 <= bb < b && 0 <= ii < new_files@[bb].rows@.len() ==> row_wf(
                        #[trigger] new_files@[bb].rows@[ii],
                        old(self).schema@,
                    ),
                forall|q: Seq<char>|
                    #[trigger] m.contains_key(q) <==> ((live0.contains_key(q) && !path_removed(
                        removals@,
                        q,
                    )) || fresh_path(base_id, b as int, q)),
                forall|q: Seq<char>|
                    #[trigger] m.contains_key(q) && live0.contains_key(q) && !fresh_path(
                        base_id,
                        b as int,
                        q,
                    ) ==> m[q] == live0[q],
                batches_live_ok(m, sv, batches@, base_id, b as int),
            decreases batches@.len() - b,
        {
            let rows_b = clone_rows(&batches[b]);
            proof {
                assert(rows_view(rows_b@) == rows_view(batches@[b as int]@));
                assert forall|ii: int| 0 <= ii < rows_b@.len() implies row_wf(
                    #[trigger] rows_b@[ii],
                    old(self).schema@,
                ) by {
                    assert(rows_b@[ii]@ == rows_view(rows_b@)[ii]);
                    assert(batches@[b as int]@[ii]@ == rows_view(batches@[b as int]@)[ii]);
                    assert(rows_b@[ii]@ == batches@[b as int]@[ii]@);
                    assert(rows_b@[ii]@.values.len() == rows_b@[ii].values@.len());
                }
            }
            let path = make_path(base_id + b as u64);
            let ghost q = path_for((base_id + b) as nat);
            let file = DataFile { path, rows: rows_b };
            let stats = get_file_statistics(&file, &self.schema);
            let ghost fsv = stats@;
            let ghost avs0 = actions_view(actions@);
            actions.push(Action::AddFile { stats, modification_time: now, data_change });
            new_files.push(file);
            proof {
                let avs1 = actions_view(actions@);
                assert(avs1 =~= avs0.push(actions@[actions@.len() - 1]@));
                assert(avs1.drop_last() =~= avs0);
                assert(avs1.last() == actions@[actions@.len() - 1]@);
                assert(apply_actions(live0, avs1) == apply_action(m, avs1.last()));
                assert(fsv.path == q);
                let m0 = m;
                m = m.insert(q, fsv);
                assert(forall|qq: Seq<char>| qq != q ==> m.contains_key(qq) == m0.contains_key(qq));
                assert(forall|qq: Seq<char>|
                    qq != q && m.contains_key(qq) ==> m[qq] == m0[qq]);
                assert forall|qq: Seq<char>| #[trigger] m.contains_key(qq) implies ((
                live0.contains_key(qq) && !path_removed(removals@, qq)) || fresh_path(
                    base_id,
                    b + 1,
                    qq,
                )) by {
                    if qq == q {
                        assert(base_id <= (base_id + b as int) as nat && ((base_id + b as int) as nat) < base_id + (b + 1));
                        assert(fresh_path(base_id, b + 1, qq));
                    } else {
                        if fresh_path(base_id, b as int, qq) {
                            let id = choose|id: nat|
                                base_id <= id < base_id + b && qq == #[trigger] path_for(id);
                            assert(base_id <= id < base_id + (b + 1));
                            assert(fresh_path(base_id, b + 1, qq));
                        }
                    }
                }
                assert forall|qq: Seq<char>|
                    ((live0.contains_key(qq) && !path_removed(removals@, qq)) || fresh_path(
                        base_id,
                        b + 1,
                        qq,
                    )) implies #[trigger] m.contains_key(qq) by {
                    if qq != q && fresh_path(base_id, b + 1, qq) && !fresh_path(
                        base_id,
                        b as int,
                        qq,
                    ) {
                        let id = choose|id: nat|
                            base_id <= id < base_id + (b + 1) && qq == #[trigger] path_for(id);
                        if id < base_id + b {
                            assert(fresh_path(base_id, b as int, qq));
                        } else {
                            assert(id == (base_id + b as int) as nat);
                            assert(qq == q);
                        }
                    }
                }
                assert forall|qq: Seq<char>|
                    #[trigger] m.contains_key(qq) && live0.contains_key(qq) && !fresh_path(
                        base_id,
                        b + 1,
                        qq,
                    ) implies m[qq] == live0[qq] by {
                    assert(!fresh_path(base_id, b as int, qq)) by {
                        if fresh_path(base_id, b as int, qq) {
                            let id = choose|id: nat|
                                base_id <= id < base_id + b && qq == #[trigger] path_for(id);
                            assert(base_id <= id < base_id + (b + 1));
                            assert(fresh_path(base_id, b + 1, qq));
                        }
                    }
                    assert(qq != q) by {
                        if qq == q {
                            assert(base_id <= (base_id + b as int) as nat && ((base_id + b as int) as nat) < base_id + (b + 1));
                            assert(fresh_path(base_id, b + 1, qq));
                        }
                    }
                }
                assert forall|bb: int| 0 <= bb < b + 1 implies #[trigger] batch_live_at(
                    m,
                    sv,
                    batches@,
                    base_id,
                    bb,
                ) by {
                    let qq = path_for((base_id + bb) as nat);
                    if bb == b {
                        assert(qq == q);
                        assert(m[qq] == fsv);
                        assert(rows_view(rows_b@) == rows_view(batches@[bb]@));
                        assert(stats_valid(m[qq], sv, rows_view(batches@[bb]@)));
                        assert(stats_exact(m[qq], sv, rows_view(batches@[bb]@)));
                    } else {
                        assert(batch_live_at(m0, sv, batches@, base_id, bb));
                        assert(qq != q) by {
                            if qq == q {
                                lemma_path_for_injective(
                                    (base_id + bb) as nat,
                                    (base_id + b as int) as nat,
                                );
                            }
                        }
                        assert(m0.contains_key(qq));
                        assert(m[qq] == m0[qq]);
                        assert(stats_valid(m[qq], sv, rows_view(batches@[bb]@)));
                        assert(stats_exact(m[qq], sv, rows_view(batches@[bb]@)));
                    }
                }
                assert(batches_live_ok(m, sv, batches@, base_id, b as int + 1));
            }
            b = b + 1;
        }
        let base = self.log.latest_version();
        let version = match self.log.commit(base, &actions, op, now) {
            Ok(v) => v,
            Err(_) => {
                proof {
                    assert(false);
                }
                return Err(DeltaError::IoFailure);
            },
        };
        proof {
            let n0 = old(self).log@.len() as int;
            assert(self.log@.len() == n0 + 1);
            assert(self.log@[n0].actions == actions_view(actions@));
            crate::log::lemma_live_upto_prefix(self.log@, old(self).log@, n0);
            assert(live_upto(self.log@, n0) == live0);
            assert(live_upto(self.log@, n0 + 1) == apply_actions(live0, self.log@[n0].actions));
            assert(self.live() == m);
        }
        let ghost old_store = old(self).store@;
        let ghost count = batches@.len() as int;
        let ghost log1 = self.log@;
        let ghost nf0 = new_files@;
        proof {
            assert(live_upto(log1, log1.len() as int) == m);
        }
        let mut k: usize = 0;
        let total = new_files.len();
        while k < total
            invariant
                k <= total,
                total == count,
                nf0.len() == total,
                base_id == old(self).next_file_id,
                self.log@ == log1,
                self.schema@ == old(self).schema@,
                self.next_file_id == old(self).next_file_id,
                new_files@ == nf0.skip(k as int),
                self.store@.len() == old_store.len() + k,
                forall|j: int| 0 <= j < old_store.len() ==> self.store@[j] == old_store[j],
                forall|j: int|
                    old_store.len() <= j < old_store.len() + k ==> self.store@[j] == nf0[j
                        - old_store.len()],
                forall|bb: int|
                    0 <= bb < count ==> #[trigger] nf0[bb].path@ == path_for((base_id + bb) as nat)
                        && rows_view(nf0[bb].rows@) == rows_view(batches@[bb]@),
                forall|bb: int, ii: int|
                    0 <= bb < count && 0 <= ii < nf0[bb].rows@.len() ==> row_wf(
                        #[trigger] nf0[bb].rows@[ii],
                        old(self).schema@,
                    ),
            decreases total - k,
        {
            proof {
                assert(nf0.skip(k as int)[0] == nf0[k as int]);
                assert(nf0.skip(k as int).remove(0) =~= nf0.skip(k + 1));
            }
            let f = new_files.remove(0);
            self.store.push(f);
            k = k + 1;
        }
        self.next_file_id = base_id + total as u64;
        proof {
            let store1 = self.store@;
            let next1 = self.next_file_id;
            assert(live_upto(self.log@, self.log@.len() as int) == m);
            assert(self.live() == m);
            assert forall|j1: int, j2: int|
                0 <= j1 < j2 < store1.len() implies store1[j1].path@ != store1[j2].path@ by {
                if j2 < old_store.len() {
                    assert(old_store[j1].path@ != old_store[j2].path@);
                } else if j1 < old_store.len() {
                    assert(store_file_wf(old(self).store@[j1], old(self).schema@, base_id));
                    let id = choose|id: nat|
                        id < base_id && old(self).store@[j1].path@ == path_for(id);
                    assert(old_store[j1].path@ == path_for(id));
                    assert(store1[j2].path@ == path_for((base_id + (j2 - old_store.len())) as nat));
                    if store1[j1].path@ == store1[j2].path@ {
                        lemma_path_for_injective(id, (base_id + (j2 - old_store.len())) as nat);
                    }
                } else {
                    assert(store1[j1].path@ == path_for((base_id + (j1 - old_store.len())) as nat));
                    assert(store1[j2].path@ == path_for((base_id + (j2 - old_store.len())) as nat));
                    if store1[j1].path@ == store1[j2].path@ {
                        lemma_path_for_injective(
                            (base_id + (j1 - old_store.len())) as nat,
                            (base_id + (j2 - old_store.len())) as nat,
                        );
                    }
                }
            }
            assert forall|j: int| 0 <= j < store1.len() implies store_file_wf(
                #[trigger] store1[j],
                self.schema@,
                next1,
            ) by {
                if j < old_store.len() {
                    let id = choose|id: nat| id < base_id && old_store[j].path@ == path_for(id);
                    assert(id < next1 && store1[j].path@ == path_for(id));
                } else {
                    let bb = j - old_store.len();
                    assert(store1[j] == nf0[bb]);
                    assert(store1[j].path@ == path_for((base_id + bb) as nat));
                    assert(((base_id + bb) as nat) < next1);
                    assert forall|ii: int| 0 <= ii < store1[j].rows@.len() implies row_wf(
                        #[trigger] store1[j].rows@[ii],
                        self.schema@,
                    ) by {
                        assert(nf0[bb].rows@[ii] == store1[j].rows@[ii]);
                    }
                }
            }
            assert forall|q: Seq<char>| #[trigger] self.live().contains_key(q) implies store_has(
                store1,
                q,
            ) && self.live()[q].path == q && stats_valid(
                self.live()[q],
                schema_view(self.schema@),
                store_rows(store1, q),
            ) && stats_exact(self.live()[q], schema_view(self.schema@), store_rows(store1, q)) by {
                if fresh_path(base_id, count, q) {
                    let id = choose|id: nat|
                        base_id <= id < base_id + count && q == #[trigger] path_for(id);
                    let bb = id - base_id;
                    assert(q == path_for((base_id + bb) as nat));
                    assert(batch_live_at(m, sv, batches@, base_id, bb));
                    let idx = old_store.len() + bb;
                    assert(store1[idx] == nf0[bb]);
                    assert(store1[idx].path@ == q);
                    assert(store_has(store1, q));
                    lemma_store_rows_is(store1, idx);
                    assert(store_rows(store1, q) == rows_view(nf0[bb].rows@));
                    assert(rows_view(nf0[bb].rows@) == rows_view(batches@[bb]@));
                } else {
                    assert(live0.contains_key(q) && !path_removed(removals@, q));
                    assert(m[q] == live0[q]);
                    assert(store_has(old_store, q));
                    let j = choose|j: int|
                        0 <= j < old_store.len() && #[trigger] old_store[j].path@ == q;
                    assert(store1[j].path@ == q);
                    assert(store_has(store1, q));
                    lemma_store_rows_is(store1, j);
                    lemma_store_rows_is(old_store, j);
                    assert(store_rows(store1, q) == store_rows(old_store, q));
                }
            }
            assert forall|q: Seq<char>|
                old(self).live().contains_key(q) && !path_removed(removals@, q) && !fresh_path(
                    base_id,
                    count,
                    q,
                ) implies #[trigger] self.live()[q] == old(self).live()[q] && store_rows(
                self.store@,
                q,
            ) == store_rows(old_store, q) by {
                assert(m.contains_key(q));
                assert(m[q] == live0[q]);
                let j = choose|j: int|
                    0 <= j < old_store.len() && #[trigger] old_store[j].path@ == q;
                assert(store1[j].path@ == q);
                lemma_store_rows_is(store1, j);
                lemma_store_rows_is(old_store, j);
            }
            assert forall|bb: int| 0 <= bb < count implies #[trigger] store_rows(
                self.store@,
                path_for((base_id + bb) as nat),
            ) == rows_view(batches@[bb]@) by {
                let q = path_for((base_id + bb) as nat);
                let idx = old_store.len() + bb;
                assert(store1[idx] == nf0[bb]);
                assert(store1[idx].path@ == q);
                lemma_store_rows_is(store1, idx);
                assert(rows_view(nf0[bb].rows@) == rows_view(batches@[bb]@));
            }
        }
        Ok(version)
    }

    /// Deletes every row the predicate matches, as one atomic commit. Files
    /// whose statistics prove they hold no matching row are skipped without
    /// being read; files with no matching row stay untouched and are not
    /// rewritten; each file that loses rows is tombstoned and, if any rows
    /// survive, replaced by one file holding exactly the surviving rows in
    /// their original order.
    pub fn delete_rows_where(&mut self, pred: &Predicate, now: u64) -> (r: Result<u64, DeltaError>)
        requires
            old(self).wf(),
            old(self).log@.len() < u64::MAX,
            old(self).next_file_id + old(self).store@.len() <= u64::MAX,
        ensures
            final(self).wf(),
            final(self).schema@ == old(self).schema@,
            match r {
                Ok(v) => {
                    let sv = schema_view(old(self).schema@);
                    &&& v as int == old(self).log@.len()
                    &&& final(self).log@.len() == old(self).log@.len() + 1
                    &&& forall|p: Seq<char>|
                        #[trigger] old(self).live().contains_key(p) ==> if keep_rows(
                            sv,
                            store_rows(old(self).store@, p),
                            *pred,
                        ) == store_rows(old(self).store@, p) {
                            final(self).live().contains_key(p) && final(self).live()[p] == old(
                                self,
                            ).live()[p] && store_rows(final(self).store@, p) == store_rows(
                                old(self).store@,
                                p,
                            )
                        } else {
                            !final(self).live().contains_key(p)
                        }
                    &&& forall|q: Seq<char>|
                        #[trigger] final(self).live().contains_key(q) ==> old(
                            self,
                        ).live().contains_key(q) || (exists|p: Seq<char>|
                            #[trigger] old(self).live().contains_key(p) && store_rows(
                                final(self).store@,
                                q,
                            ) == keep_rows(sv, store_rows(old(self).store@, p), *pred))
                    &&& forall|p: Seq<char>|
                        #[trigger] old(self).live().contains_key(p) && keep_rows(
                            sv,
                            store_rows(old(self).store@, p),
                            *pred,
                        ) != store_rows(old(self).store@, p) && keep_rows(
                            sv,
                            store_rows(old(self).store@, p),
                            *pred,
                        ).len() > 0 ==> exists|q: Seq<char>|
                            #[trigger] final(self).live().contains_key(q) && store_rows(
                                final(self).store@,
                                q,
                            ) == keep_rows(sv, store_rows(old(self).store@, p), *pred)
                },
                Err(_) => false,
            },
    {
        let ghost live0 = old(self).live();
        let ghost sv = schema_view(old(self).schema@);
        let ghost store0 = old(self).store@;
        let snapshot = match self.log.read_snapshot(None) {
            Ok(s) => s,
            Err(_) => {
                proof {
                    assert(false);
                }
                return Err(DeltaError::Corruption);
            },
        };
        let ghost fv = files_view(snapshot@);
        proof {
            assert(entries_map(fv) == live0);
            assert forall|i: int| 0 <= i < fv.len() implies store_has(store0, #[trigger] fv[i].path) by {
                lemma_entries_map_index(fv, i);
            }
            lemma_snapshot_fits(fv, store0);
        }
        let mut removals: Vec<String> = Vec::new();
        let mut batches: Vec<Vec<Row>> = Vec::new();
        let mut i: usize = 0;
        while i < snapshot.len()
            invariant
                i <= snapshot.len(),
                self == old(self),
                old(self).wf(),
                live0 == old(self).live(),
                sv == schema_view(old(self).schema@),
                store0 == old(self).store@,
                fv == files_view(snapshot@),
                fv.len() == snapshot@.len(),
                unique_paths(fv),
                entries_map(fv) == live0,
                removals@.len() <= i,
                batches@.len() <= i,
                forall|k: int| 0 <= k < removals@.len() ==> exists|ii: int|
                    0 <= ii < i && #[trigger] removals@[k]@ == fv[ii].path,
                forall|ii: int|
                    0 <= ii < i ==> ((keep_rows(
                        sv,
                        store_rows(store0, #[trigger] fv[ii].path),
                        *pred,
                    ) == store_rows(store0, fv[ii].path)) <==> !path_removed(
                        removals@,
                        fv[ii].path,
                    )),
                forall|b: int|
                    0 <= b < batches@.len() ==> batch_is_filtered(
                        live0,
                        sv,
                        store0,
                        #[trigger] batches@[b],
                        *pred,
                    ),
                forall|b: int, ii: int|
                    0 <= b < batches@.len() && 0 <= ii < batches@[b]@.len() ==> row_wf(
                        #[trigger] batches@[b]@[ii],
                        old(self).schema@,
                    ),
                forall|ii: int|
                    0 <= ii < i && keep_rows(
                        sv,
                        #[trigger] store_rows(store0, fv[ii].path),
                        *pred,
                    ) != store_rows(store0, fv[ii].path) && keep_rows(
                        sv,
                        store_rows(store0, fv[ii].path),
                        *pred,
                    ).len() > 0 ==> exists|b: int|
                        0 <= b < batches@.len() && rows_view(#[trigger] batches@[b]@) == keep_rows(
                            sv,
                            store_rows(store0, fv[ii].path),
                            *pred,
                        ),
            decreases snapshot.len() - i,
        {
            let ghost p = fv[i as int].path;
            let ghost rem0 = removals@;
            let ghost bat0 = batches@;
            proof {
                lemma_entries_map_index(fv, i as int);
                assert(live0.contains_key(p) && live0[p] == fv[i as int]);
                assert(store_has(store0, p));
                assert(fv[i as int] == snapshot@[i as int]@);
                assert forall|k: int| 0 <= k < removals@.len() implies #[trigger] removals@[k]@
                    != p by {
                    let ii = choose|ii: int| 0 <= ii < i && #[trigger] removals@[k]@ == fv[ii].path;
                    assert(fv[ii].path != fv[i as int].path);
                }
            }
            let mut changed: bool = false;
            let mut kept: Vec<Row> = Vec::new();
            if !can_skip_file(&snapshot[i], pred) {
                let j = match find_file_index(&self.store, &snapshot[i].path) {
                    Some(j) => j,
                    None => {
                        proof {
                            assert(false);
                        }
                        return Err(DeltaError::NotFound);
                    },
                };
                proof {
                    lemma_store_rows_is(store0, j as int);
                    assert(store_rows(store0, p) == rows_view(self.store@[j as int].rows@));
                    assert(store_file_wf(self.store@[j as int], self.schema@, self.next_file_id));
                }
                kept = filter_rows(&self.schema, &self.store[j].rows, pred);
                proof {
                    lemma_keep_rows_all(sv, store_rows(store0, p), *pred);
                    lemma_keep_rows_len(sv, store_rows(store0, p), *pred);
                }
                if kept.len() < self.store[j].rows.len() {
                    changed = true;
                }
                proof {
                    assert(rows_view(kept@).len() == kept@.len());
                    assert(store_rows(store0, p).len() == self.store@[j as int].rows@.len());
                    assert(changed <==> keep_rows(sv, store_rows(store0, p), *pred) != store_rows(
                        store0,
                        p,
                    ));
                }
            } else {
                proof {
                    assert(stats_valid(live0[p], sv, store_rows(store0, p)));
                    lemma_skip_soundness(fv[i as int], sv, store_rows(store0, p), *pred);
                    lemma_keep_rows_nosat(sv, store_rows(store0, p), *pred);
                }
            }
            if changed {
                removals.push(snapshot[i].path.clone());
                proof {
                    assert(removals@[removals@.len() - 1]@ == p);
                }
                if kept.len() > 0 {
                    let ghost kv = rows_view(kept@);
                    batches.push(kept);
                    proof {
                        assert(rows_view(batches@[batches@.len() - 1]@) == kv);
                        assert(live0.contains_key(p) && rows_view(
                            batches@[batches@.len() - 1]@,
                        ) == keep_rows(sv, store_rows(store0, p), *pred));
                        assert(batch_is_filtered(
                            live0,
                            sv,
                            store0,
                            batches@[batches@.len() - 1],
                            *pred,
                        ));
                        assert forall|b: int, ii: int|
                            0 <= b < batches@.len() && 0 <= ii < batches@[b]@.len() implies row_wf(
                            #[trigger] batches@[b]@[ii],
                            old(self).schema@,
                        ) by {
                            if b == batches@.len() - 1 {
                                assert(rows_view(batches@[b]@)[ii] == batches@[b]@[ii]@);
                                assert(keep_rows(sv, store_rows(store0, p), *pred) == kv);
                                lemma_keep_rows_mem(sv, store_rows(store0, p), *pred, ii);
                                let src = choose|s: int|
                                    0 <= s < store_rows(store0, p).len() && store_rows(
                                        store0,
                                        p,
                                    )[s] == kv[ii];
                                let jj = choose|jj: int|
                                    0 <= jj < store0.len() && #[trigger] store0[jj].path@ == p;
                                assert(store_rows(store0, p) == rows_view(store0[jj].rows@));
                                assert(store_file_wf(
                                    old(self).store@[jj],
                                    old(self).schema@,
                                    old(self).next_file_id,
                                ));
                                assert(rows_view(store0[jj].rows@)[src] == store0[jj].rows@[src]@);
                                assert(batches@[b]@[ii]@.values.len() == old(
                                    self,
                                ).schema@.len());
                                assert(row_wf(batches@[b]@[ii], old(self).schema@));
                            }
                        }
                    }
                }
                proof {
                    assert(path_removed(removals@, p));
                }
            } else {
                proof {
                    assert(keep_rows(sv, store_rows(store0, p), *pred) == store_rows(store0, p));
                    assert(!path_removed(removals@, p));
                }
            }
            proof {
                assert forall|k: int| 0 <= k < removals@.len() implies exists|ii2: int|
                    0 <= ii2 < i + 1 && #[trigger] removals@[k]@ == fv[ii2].path by {
                    if k < rem0.len() {
                        let ii2 = choose|ii2: int| 0 <= ii2 < i && rem0[k]@ == fv[ii2].path;
                        assert(removals@[k]@ == fv[ii2].path);
                    } else {
                        assert(removals@[k]@ == fv[i as int].path);
                    }
                }
                assert forall|ii2: int| 0 <= ii2 < i + 1 implies ((keep_rows(
                    sv,
                    store_rows(store0, #[trigger] fv[ii2].path),
                    *pred,
                ) == store_rows(store0, fv[ii2].path)) <==> !path_removed(
                    removals@,
                    fv[ii2].path,
                )) by {
                    if ii2 < i {
                        assert(fv[ii2].path != p);
                        assert(path_removed(removals@, fv[ii2].path) == path_removed(
                            rem0,
                            fv[ii2].path,
                        )) by {
                            if path_removed(removals@, fv[ii2].path) {
                                let k = choose|k: int|
                                    0 <= k < removals@.len() && #[trigger] removals@[k]@
                                        == fv[ii2].path;
                                if k < rem0.len() {
                                    assert(rem0[k]@ == fv[ii2].path);
                                } else {
                                    assert(removals@[k]@ == p);
                                    assert(false);
                                }
                            }
                            if path_removed(rem0, fv[ii2].path) {
                                let k = choose|k: int|
                                    0 <= k < rem0.len() && #[trigger] rem0[k]@ == fv[ii2].path;
                                assert(removals@[k]@ == fv[ii2].path);
                            }
                        }
                    } else {
                        if changed {
                            assert(path_removed(removals@, p));
                        } else {
                            assert(keep_rows(sv, store_rows(store0, p), *pred) == store_rows(
                                store0,
                                p,
                            ));
                            assert(!path_removed(removals@, p));
                        }
                    }
                }
                assert forall|ii2: int|
                    0 <= ii2 < i + 1 && keep_rows(
                        sv,
                        #[trigger] store_rows(store0, fv[ii2].path),
                        *pred,
                    ) != store_rows(store0, fv[ii2].path) && keep_rows(
                        sv,
                        store_rows(store0, fv[ii2].path),
                        *pred,
                    ).len() > 0 implies exists|b: int|
                    0 <= b < batches@.len() && rows_view(#[trigger] batches@[b]@) == keep_rows(
                        sv,
                        store_rows(store0, fv[ii2].path),
                        *pred,
                    ) by {
                    if ii2 < i {
                        let b = choose|b: int|
                            0 <= b < bat0.len() && rows_view(#[trigger] bat0[b]@) == keep_rows(
                                sv,
                                store_rows(store0, fv[ii2].path),
                                *pred,
                            );
                        assert(batches@[b] == bat0[b]);
                        assert(rows_view(batches@[b]@) == keep_rows(
                            sv,
                            store_rows(store0, fv[ii2].path),
                            *pred,
                        ));
                    } else {
                        assert(keep_rows(sv, store_rows(store0, p), *pred) != store_rows(
                            store0,
                            p,
                        ));
                        assert(rows_view(batches@[batches@.len() - 1]@) == keep_rows(
                            sv,
                            store_rows(store0, p),
                            *pred,
                        ));
                    }
                }
            }
            i = i + 1;
        }
        let ghost base_id = self.next_file_id;
        let ghost count = batches@.len() as int;
        let ghost bseq = batches@;
        let version = match self.apply_rewrite(
            &removals,
            batches,
            OperationKind::Delete,
            true,
            now,
        ) {
            Ok(v) => v,
            Err(_) => {
                proof {
                    assert(false);
                }
                return Err(DeltaError::IoFailure);
            },
        };
        proof {
            assert forall|p: Seq<char>| #[trigger] old(self).live().contains_key(p) implies
                !fresh_path(base_id, count, p) by {
                if fresh_path(base_id, count, p) {
                    assert(live0.contains_key(p));
                    assert(store_has(store0, p));
                    let j = choose|j: int|
                        0 <= j < store0.len() && #[trigger] store0[j].path@ == p;
                    assert(store_file_wf(old(self).store@[j], old(self).schema@, base_id));
                    let id0 = choose|id0: nat|
                        id0 < base_id && old(self).store@[j].path@ == path_for(id0);
                    let id1 = choose|id1: nat|
                        base_id <= id1 < base_id + count && p == #[trigger] path_for(id1);
                    lemma_path_for_injective(id0, id1);
                }
            }
            assert forall|p: Seq<char>| #[trigger] old(self).live().contains_key(p) implies (
            path_removed(removals@, p) <==> keep_rows(sv, store_rows(store0, p), *pred)
                != store_rows(store0, p)) by {
                assert(live0.contains_key(p));
                lemma_entries_map_domain(fv, p);
                let ii = choose|ii: int| 0 <= ii < fv.len() && fv[ii].path == p;
                assert((keep_rows(sv, store_rows(store0, fv[ii].path), *pred) == store_rows(
                    store0,
                    fv[ii].path,
                )) <==> !path_removed(removals@, fv[ii].path));
            }
            assert forall|p: Seq<char>| #[trigger] old(self).live().contains_key(p) implies (
            if keep_rows(sv, store_rows(store0, p), *pred) == store_rows(store0, p) {
                self.live().contains_key(p) && self.live()[p] == old(self).live()[p]
                    && store_rows(self.store@, p) == store_rows(old(self).store@, p)
            } else {
                !self.live().contains_key(p)
            }) by {
                assert(!fresh_path(base_id, count, p));
                if keep_rows(sv, store_rows(store0, p), *pred) == store_rows(store0, p) {
                    assert(!path_removed(removals@, p));
                    assert(self.live().contains_key(p));
                    assert(self.live()[p] == old(self).live()[p] && store_rows(self.store@, p)
                        == store_rows(old(self).store@, p));
                } else {
                    assert(path_removed(removals@, p));
                    assert(!self.live().contains_key(p));
                }
            }
            assert forall|q: Seq<char>| #[trigger] self.live().contains_key(q) implies (old(
                self,
            ).live().contains_key(q) || (exists|p: Seq<char>|
                #[trigger] old(self).live().contains_key(p) && store_rows(self.store@, q)
                    == keep_rows(sv, store_rows(old(self).store@, p), *pred))) by {
                if !old(self).live().contains_key(q) {
                    assert(!live0.contains_key(q));
                    assert(fresh_path(base_id, count, q));
                    let id = choose|id: nat|
                        base_id <= id < base_id + count && q == #[trigger] path_for(id);
                    let bb = id - base_id;
                    assert(q == path_for((base_id + bb) as nat));
                    assert(store_rows(self.store@, path_for((base_id + bb) as nat)) == rows_view(
                        bseq[bb]@,
                    ));
                    assert(batch_is_filtered(live0, sv, store0, bseq[bb], *pred));
                    let p = choose|p: Seq<char>|
                        #[trigger] live0.contains_key(p) && rows_view(bseq[bb]@) == keep_rows(
                            sv,
                            store_rows(store0, p),
                            *pred,
                        );
                    assert(old(self).live().contains_key(p) && store_rows(self.store@, q)
                        == keep_rows(sv, store_rows(old(self).store@, p), *pred));
                }
            }
            assert forall|p: Seq<char>|
                #[trigger] old(self).live().contains_key(p) && keep_rows(
                    sv,
                    store_rows(old(self).store@, p),
                    *pred,
                ) != store_rows(old(self).store@, p) && keep_rows(
                    sv,
                    store_rows(old(self).store@, p),
                    *pred,
                ).len() > 0 implies exists|q: Seq<char>|
                #[trigger] self.live().contains_key(q) && store_rows(self.store@, q) == keep_rows(
                    sv,
                    store_rows(old(self).store@, p),
                    *pred,
                ) by {
                assert(live0.contains_key(p));
                lemma_entries_map_domain(fv, p);
                let ii = choose|ii: int| 0 <= ii < fv.len() && fv[ii].path == p;
                assert(keep_rows(sv, store_rows(store0, fv[ii].path), *pred) != store_rows(
                    store0,
                    fv[ii].path,
                ) && keep_rows(sv, store_rows(store0, fv[ii].path), *pred).len() > 0);
                let b = choose|b: int|
                    0 <= b < bseq.len() && rows_view(#[trigger] bseq[b]@) == keep_rows(
                        sv,
                        store_rows(store0, fv[ii].path),
                        *pred,
                    );
                let q = path_for((base_id + b) as nat);
                assert(base_id <= (base_id + b) as nat && ((base_id + b) as nat) < base_id
                    + count);
                assert(fresh_path(base_id, count, q));
                assert(self.live().contains_key(q));
                assert(store_rows(self.store@, path_for((base_id + b) as nat)) == rows_view(
                    bseq[b]@,
                ));
                assert(store_rows(self.store@, q) == keep_rows(
                    sv,
                    store_rows(old(self).store@, p),
                    *pred,
                ));
            }
        }
        Ok(version)
    }
}

} // verus!
