use vstd::prelude::*;

use crate::error::DeltaError;
use crate::log::{entries_map, lemma_entries_map_domain, lemma_entries_map_index, unique_paths,
    OperationKind};
use crate::rows::{clone_row, row_wf, rows_view, schema_view, DataFile, Row, RowV};
use crate::skipping::{eval_predicate, sat, Predicate};
use crate::stats::{files_view, stats_valid, FileStats, FileStatsV};
use crate::table::{fresh_path, lemma_snapshot_fits, lemma_store_rows_is,
    path_removed, store_file_wf, store_has, store_rows, DeltaTable};
use crate::paths::{lemma_path_for_injective, path_for};
use crate::zorder::covers_live;

verus! {

/// Rewrite a matched target row to the matching source row's values.
pub struct MatchedUpdateClause {
    pub condition: Option<Predicate>,
}

/// Delete a matched target row.
pub struct MatchedDeleteClause {
    pub condition: Option<Predicate>,
}

/// Insert a source row that matched no target row.
pub struct NotMatchedInsertClause {
    pub condition: Option<Predicate>,
}

/// One matched-row clause, applied in declaration order; the first clause
/// whose optional condition the source row satisfies wins.
pub enum MatchedClause {
    Update(MatchedUpdateClause),
    Delete(MatchedDeleteClause),
}

/// What a merge did: row and file counts, and bytes (rows, in this model)
/// written. Each counter holds its exact total, capped at the largest value
/// it can represent.
#[derive(Clone, Copy, Debug, PartialEq, Eq, Structural)]
pub struct MergeMetrics {
    pub rows_updated: u64,
    pub rows_deleted: u64,
    pub rows_inserted: u64,
    pub files_added: u64,
    pub files_removed: u64,
    pub bytes_written: u64,
}

/// Whether a clause's optional condition holds of the matching source row.
pub open spec fn cond_sat(c: Option<Predicate>, sv: Seq<Seq<char>>, src: RowV) -> bool {
    match c {
        None => true,
        Some(p) => sat(p, sv, src),
    }
}

/// The first source row with the given join key.
pub open spec fn source_match(source: Seq<RowV>, key: i64) -> Option<RowV>
    decreases source.len(),
{
    if source.len() == 0 {
        None
    } else if source[0].key == key {
        Some(source[0])
    } else {
        source_match(source.drop_first(), key)
    }
}

/// Whether any matched clause applies to this source row.
pub open spec fn clause_applies(clauses: Seq<MatchedClause>, sv: Seq<Seq<char>>, src: RowV) -> bool
    decreases clauses.len(),
{
    if clauses.len() == 0 {
        false
    } else {
        let c = match clauses[0] {
            MatchedClause::Update(u) => cond_sat(u.condition, sv, src),
            MatchedClause::Delete(d) => cond_sat(d.condition, sv, src),
        };
        c || clause_applies(clauses.drop_first(), sv, src)
    }
}

/// The outcome of the first applicable matched clause: the source row for an
/// update, nothing for a delete, the target row untouched when no clause
/// applies.
pub open spec fn apply_matched(
    clauses: Seq<MatchedClause>,
    sv: Seq<Seq<char>>,
    target: RowV,
    src: RowV,
) -> Option<RowV>
    decreases clauses.len(),
{
    if clauses.len() == 0 {
        Some(target)
    } else {
        match clauses[0] {
            MatchedClause::Update(u) => if cond_sat(u.condition, sv, src) {
                Some(src)
            } else {
                apply_matched(clauses.drop_first(), sv, target, src)
            },
            MatchedClause::Delete(d) => if cond_sat(d.condition, sv, src) {
                None
            } else {
                apply_matched(clauses.drop_first(), sv, target, src)
            },
        }
    }
}

/// What becomes of one target row under the merge.
pub open spec fn merge_target_row(
    source: Seq<RowV>,
    clauses: Seq<MatchedClause>,
    sv: Seq<Seq<char>>,
    target: RowV,
) -> Option<RowV> {
    match source_match(source, target.key) {
        None => Some(target),
        Some(src) => apply_matched(clauses, sv, target, src),
    }
}

/// Whether a target row is matched and some clause applies to it.
pub open spec fn row_touched(
    source: Seq<RowV>,
    clauses: Seq<MatchedClause>,
    sv: Seq<Seq<char>>,
    target: RowV,
) -> bool {
    match source_match(source, target.key) {
        None => false,
        Some(src) => clause_applies(clauses, sv, src),
    }
}

/// A whole file's rows after the merge, in order.
pub open spec fn merge_file_rows(
    source: Seq<RowV>,
    clauses: Seq<MatchedClause>,
    sv: Seq<Seq<char>>,
    rows: Seq<RowV>,
) -> Seq<RowV>
    decreases rows.len(),
{
    if rows.len() == 0 {
        Seq::empty()
    } else {
        let pre = merge_file_rows(source, clauses, sv, rows.drop_last());
        match merge_target_row(source, clauses, sv, rows.last()) {
            Some(r) => pre.push(r),
            None => pre,
        }
    }
}

/// Whether any row of a file is matched with an applicable clause; only such
/// files are rewritten.
pub open spec fn file_touched(
    source: Seq<RowV>,
    clauses: Seq<MatchedClause>,
    sv: Seq<Seq<char>>,
    rows: Seq<RowV>,
) -> bool {
    exists|i: int| 0 <= i < rows.len() && row_touched(source, clauses, sv, #[trigger] rows[i])
}

/// An untouched file's rows are unchanged by the merge.
pub proof fn lemma_merge_untouched(
    source: Seq<RowV>,
    clauses: Seq<MatchedClause>,
    sv: Seq<Seq<char>>,
    rows: Seq<RowV>,
)
    requires
        !file_touched(source, clauses, sv, rows),
    ensures
        merge_file_rows(source, clauses, sv, rows) == rows,
    decreases rows.len(),
{
    if rows.len() == 0 {
        assert(merge_file_rows(source, clauses, sv, rows) =~= rows);
    } else {
        assert(forall|i: int|
            0 <= i < rows.drop_last().len() ==> rows.drop_last()[i] == rows[i]);
        lemma_merge_untouched(source, clauses, sv, rows.drop_last());
        assert(!row_touched(source, clauses, sv, rows[rows.len() - 1]));
        let target = rows.last();
        match source_match(source, target.key) {
            None => {},
            Some(src) => {
                lemma_apply_no_clause(clauses, sv, target, src);
            },
        }
        assert(merge_file_rows(source, clauses, sv, rows) =~= rows);
    }
}

/// When no clause applies, the target row survives unchanged.
pub proof fn lemma_apply_no_clause(
    clauses: Seq<MatchedClause>,
    sv: Seq<Seq<char>>,
    target: RowV,
    src: RowV,
)
    requires
        !clause_applies(clauses, sv, src),
    ensures
        apply_matched(clauses, sv, target, src) == Some(target),
    decreases clauses.len(),
{
    if clauses.len() > 0 {
        lemma_apply_no_clause(clauses.drop_first(), sv, target, src);
    }
}

/// A found source match is one of the source rows.
pub proof fn lemma_source_match_mem(source: Seq<RowV>, key: i64)
    requires
        source_match(source, key) is Some,
    ensures
        exists|i: int| 0 <= i < source.len() && source[i] == source_match(source, key).unwrap(),
    decreases source.len(),
{
    if source[0].key == key {
        assert(source[0] == source_match(source, key).unwrap());
    } else {
        lemma_source_match_mem(source.drop_first(), key);
        let i = choose|i: int|
            0 <= i < source.drop_first().len() && source.drop_first()[i] == source_match(
                source.drop_first(),
                key,
            ).unwrap();
        assert(source[i + 1] == source_match(source, key).unwrap());
    }
}

/// A key outside every source key matches no source row.
pub proof fn lemma_no_source_match(source: Seq<RowV>, key: i64)
    requires
        forall|i: int| 0 <= i < source.len() ==> #[trigger] source[i].key != key,
    ensures
        source_match(source, key) is None,
    decreases source.len(),
{
    if source.len() > 0 {
        assert(forall|i: int|
            0 <= i < source.drop_first().len() ==> source.drop_first()[i] == source[i + 1]);
        lemma_no_source_match(source.drop_first(), key);
    }
}

/// Whether some row of a sequence holds this key.
pub open spec fn seq_has_key(rows: Seq<RowV>, k: i64) -> bool {
    exists|i: int| 0 <= i < rows.len() && #[trigger] rows[i].key == k
}

/// Whether some live file holds a row with this key.
pub open spec fn table_has_key(
    live: Map<Seq<char>, FileStatsV>,
    store: Seq<DataFile>,
    k: i64,
) -> bool {
    exists|p: Seq<char>| #[trigger] live.contains_key(p) && seq_has_key(store_rows(store, p), k)
}

/// A rewrite batch holds exactly the merged rows of some live file.
pub open spec fn batch_is_merged(
    live0: Map<Seq<char>, FileStatsV>,
    sv: Seq<Seq<char>>,
    store0: Seq<DataFile>,
    batch: Vec<Row>,
    source: Seq<RowV>,
    clauses: Seq<MatchedClause>,
) -> bool {
    exists|q: Seq<char>|
        #[trigger] live0.contains_key(q) && rows_view(batch@) == merge_file_rows(
            source,
            clauses,
            sv,
            store_rows(store0, q),
        )
}

/// How many rows of a file the merge rewrites to their source row.
pub open spec fn updated_in(
    source: Seq<RowV>,
    clauses: Seq<MatchedClause>,
    sv: Seq<Seq<char>>,
    rows: Seq<RowV>,
) -> int
    decreases rows.len(),
{
    if rows.len() == 0 {
        0
    } else {
        updated_in(source, clauses, sv, rows.drop_last()) + match source_match(
            source,
            rows.last().key,
        ) {
            None => 0int,
            Some(src) => if clause_applies(clauses, sv, src) && apply_matched(
                clauses,
                sv,
                rows.last(),
                src,
            ) is Some {
                1int
            } else {
                0int
            },
        }
    }
}

/// How many rows of a file the merge deletes.
pub open spec fn deleted_in(
    source: Seq<RowV>,
    clauses: Seq<MatchedClause>,
    sv: Seq<Seq<char>>,
    rows: Seq<RowV>,
) -> int
    decreases rows.len(),
{
    if rows.len() == 0 {
        0
    } else {
        deleted_in(source, clauses, sv, rows.drop_last()) + match source_match(
            source,
            rows.last().key,
        ) {
            None => 0int,
            Some(src) => if apply_matched(clauses, sv, rows.last(), src) is None {
                1int
            } else {
                0int
            },
        }
    }
}

/// An untouched file has no updated and no deleted rows.
pub proof fn lemma_counts_untouched(
    source: Seq<RowV>,
    clauses: Seq<MatchedClause>,
    sv: Seq<Seq<char>>,
    rows: Seq<RowV>,
)
    requires
        !file_touched(source, clauses, sv, rows),
    ensures
        updated_in(source, clauses, sv, rows) == 0,
        deleted_in(source, clauses, sv, rows) == 0,
    decreases rows.len(),
{
    if rows.len() > 0 {
        assert(forall|i: int|
            0 <= i < rows.drop_last().len() ==> rows.drop_last()[i] == rows[i]);
        lemma_counts_untouched(source, clauses, sv, rows.drop_last());
        assert(!row_touched(source, clauses, sv, rows[rows.len() - 1]));
        match source_match(source, rows.last().key) {
            None => {},
            Some(src) => {
                lemma_apply_no_clause(clauses, sv, rows.last(), src);
            },
        }
    }
}

/// Row counts summed over the named files: updated, deleted, and written
/// (the surviving rows of each touched file).
pub open spec fn total_updated(
    source: Seq<RowV>,
    clauses: Seq<MatchedClause>,
    sv: Seq<Seq<char>>,
    store: Seq<DataFile>,
    paths: Seq<Seq<char>>,
) -> int
    decreases paths.len(),
{
    if paths.len() == 0 {
        0
    } else {
        total_updated(source, clauses, sv, store, paths.drop_last()) + updated_in(
            source,
            clauses,
            sv,
            store_rows(store, paths.last()),
        )
    }
}

/// Deleted rows summed over the named files.
pub open spec fn total_deleted(
    source: Seq<RowV>,
    clauses: Seq<MatchedClause>,
    sv: Seq<Seq<char>>,
    store: Seq<DataFile>,
    paths: Seq<Seq<char>>,
) -> int
    decreases paths.len(),
{
    if paths.len() == 0 {
        0
    } else {
        total_deleted(source, clauses, sv, store, paths.drop_last()) + deleted_in(
            source,
            clauses,
            sv,
            store_rows(store, paths.last()),
        )
    }
}

/// Rewritten rows summed over the named files: the surviving rows of each
/// touched file.
pub open spec fn total_written(
    source: Seq<RowV>,
    clauses: Seq<MatchedClause>,
    sv: Seq<Seq<char>>,
    store: Seq<DataFile>,
    paths: Seq<Seq<char>>,
) -> int
    decreases paths.len(),
{
    if paths.len() == 0 {
        0
    } else {
        total_written(source, clauses, sv, store, paths.drop_last()) + if file_touched(
            source,
            clauses,
            sv,
            store_rows(store, paths.last()),
        ) {
            merge_file_rows(source, clauses, sv, store_rows(store, paths.last())).len() as int
        } else {
            0int
        }
    }
}

/// A count capped at the largest value its counter can hold.
pub open spec fn capped(n: int) -> int {
    if n <= u64::MAX {
        n
    } else {
        u64::MAX as int
    }
}

/// How many of the named files hold a row the merge touches: the files a
/// merge tombstones.
pub open spec fn touched_file_count(
    source: Seq<RowV>,
    clauses: Seq<MatchedClause>,
    sv: Seq<Seq<char>>,
    store: Seq<DataFile>,
    paths: Seq<Seq<char>>,
) -> int
    decreases paths.len(),
{
    if paths.len() == 0 {
        0
    } else {
        touched_file_count(source, clauses, sv, store, paths.drop_last()) + if file_touched(
            source,
            clauses,
            sv,
            store_rows(store, paths.last()),
        ) {
            1int
        } else {
            0int
        }
    }
}

/// A file whose key range excludes every source key is untouched by the
/// merge: no row of it matches, so it is not rewritten.
pub proof fn lemma_range_untouched(
    source: Seq<RowV>,
    clauses: Seq<MatchedClause>,
    sv: Seq<Seq<char>>,
    rows: Seq<RowV>,
    kmin: i64,
    kmax: i64,
)
    requires
        forall|i: int| 0 <= i < rows.len() ==> kmin <= #[trigger] rows[i].key <= kmax,
        forall|i: int|
            0 <= i < source.len() ==> !(kmin <= #[trigger] source[i].key && source[i].key <= kmax),
    ensures
        !file_touched(source, clauses, sv, rows),
        merge_file_rows(source, clauses, sv, rows) == rows,
{
    assert forall|i: int|
        0 <= i < rows.len() implies !row_touched(source, clauses, sv, #[trigger] rows[i]) by {
        assert(forall|j: int| 0 <= j < source.len() ==> #[trigger] source[j].key != rows[i].key);
        lemma_no_source_match(source, rows[i].key);
    }
    lemma_merge_untouched(source, clauses, sv, rows);
}

/// Whether some not-matched clause accepts this source row.
pub open spec fn insert_sat(
    nm: Seq<NotMatchedInsertClause>,
    sv: Seq<Seq<char>>,
    src: RowV,
) -> bool {
    exists|i: int| 0 <= i < nm.len() && cond_sat(#[trigger] nm[i].condition, sv, src)
}

/// The source rows the merge inserts: those matching no target key, accepted
/// by a not-matched clause, in source order.
pub open spec fn inserted_rows(
    source: Seq<RowV>,
    nm: Seq<NotMatchedInsertClause>,
    sv: Seq<Seq<char>>,
    live: Map<Seq<char>, FileStatsV>,
    store: Seq<DataFile>,
) -> Seq<RowV>
    decreases source.len(),
{
    if source.len() == 0 {
        Seq::empty()
    } else {
        let pre = inserted_rows(source.drop_last(), nm, sv, live, store);
        if !table_has_key(live, store, source.last().key) && insert_sat(nm, sv, source.last()) {
            pre.push(source.last())
        } else {
            pre
        }
    }
}

/// Finds the first source row with the given key.
fn find_source<'a>(source: &'a Vec<Row>, key: i64) -> (r: Option<&'a Row>)
    ensures
        match r {
            Some(row) => source_match(rows_view(source@), key) == Some(row@),
            None => source_match(rows_view(source@), key) is None,
        },
{
    let ghost srcv = rows_view(source@);
    proof {
        assert(srcv.skip(0) =~= srcv);
    }
    let mut i: usize = 0;
    while i < source.len()
        invariant
            i <= source.len(),
            srcv == rows_view(source@),
            srcv.len() == source@.len(),
            source_match(srcv, key) == source_match(srcv.skip(i as int), key),
        decreases source.len() - i,
    {
        proof {
            assert(srcv.skip(i as int).drop_first() =~= srcv.skip(i + 1));
            assert(srcv.skip(i as int)[0] == srcv[i as int]);
            assert(srcv[i as int] == source@[i as int]@);
        }
        if source[i].key == key {
            return Some(&source[i]);
        }
        i = i + 1;
    }
    proof {
        assert(srcv.skip(srcv.len() as int).len() == 0);
    }
    None
}

/// Applies the first matched clause the source row satisfies.
fn apply_clauses(
    schema: &Vec<String>,
    matched: &Vec<MatchedClause>,
    target: &Row,
    src: &Row,
) -> (r: (Option<Row>, bool))
    requires
        row_wf(*src, schema@),
    ensures
        r.1 == clause_applies(matched@, schema_view(schema@), src@),
        match r.0 {
            Some(row) => apply_matched(matched@, schema_view(schema@), target@, src@) == Some(
                row@,
            ),
            None => apply_matched(matched@, schema_view(schema@), target@, src@) is None,
        },
{
    let ghost sv = schema_view(schema@);
    let ghost cs = matched@;
    proof {
        assert(cs.skip(0) =~= cs);
    }
    let mut i: usize = 0;
    while i < matched.len()
        invariant
            i <= matched.len(),
            row_wf(*src, schema@),
            sv == schema_view(schema@),
            cs == matched@,
            clause_applies(cs, sv, src@) == clause_applies(cs.skip(i as int), sv, src@),
            apply_matched(cs, sv, target@, src@) == apply_matched(
                cs.skip(i as int),
                sv,
                target@,
                src@,
            ),
        decreases matched.len() - i,
    {
        proof {
            assert(cs.skip(i as int).drop_first() =~= cs.skip(i + 1));
            assert(cs.skip(i as int)[0] == cs[i as int]);
        }
        let applies: bool = match &matched[i] {
            MatchedClause::Update(u) => match &u.condition {
                None => true,
                Some(p) => eval_predicate(schema, src, p),
            },
            MatchedClause::Delete(d) => match &d.condition {
                None => true,
                Some(p) => eval_predicate(schema, src, p),
            },
        };
        if applies {
            match &matched[i] {
                MatchedClause::Update(_) => {
                    return (Some(clone_row(src)), true);
                },
                MatchedClause::Delete(_) => {
                    return (None, true);
                },
            }
        }
        i = i + 1;
    }
    proof {
        assert(cs.skip(cs.len() as int).len() == 0);
    }
    (Some(clone_row(target)), false)
}

/// Merges one file's rows against the source set: returns the surviving
/// rows, whether any row was matched with an applicable clause, and the
/// update and delete counts.
fn merge_file(
    schema: &Vec<String>,
    source: &Vec<Row>,
    matched: &Vec<MatchedClause>,
    rows: &Vec<Row>,
) -> (res: (Vec<Row>, bool, u64, u64))
    requires
        forall|i: int| 0 <= i < source@.len() ==> row_wf(#[trigger] source@[i], schema@),
        forall|i: int| 0 <= i < rows@.len() ==> row_wf(#[trigger] rows@[i], schema@),
    ensures
        rows_view(res.0@) == merge_file_rows(
            rows_view(source@),
            matched@,
            schema_view(schema@),
            rows_view(rows@),
        ),
        res.1 == file_touched(
            rows_view(source@),
            matched@,
            schema_view(schema@),
            rows_view(rows@),
        ),
        res.2 as int == updated_in(
            rows_view(source@),
            matched@,
            schema_view(schema@),
            rows_view(rows@),
        ),
        res.3 as int == deleted_in(
            rows_view(source@),
            matched@,
            schema_view(schema@),
            rows_view(rows@),
        ),
        forall|i: int| 0 <= i < res.0@.len() ==> row_wf(#[trigger] res.0@[i], schema@),
{
    let ghost sv = schema_view(schema@);
    let ghost srcv = rows_view(source@);
    let ghost rv = rows_view(rows@);
    let ghost cs = matched@;
    let mut out: Vec<Row> = Vec::new();
    let mut touched: bool = false;
    let mut updated: u64 = 0;
    let mut deleted: u64 = 0;
    proof {
        assert(rv.take(0) =~= Seq::<RowV>::empty());
        assert(rows_view(out@) =~= Seq::<RowV>::empty());
    }
    let mut i: usize = 0;
    while i < rows.len()
        invariant
            i <= rows.len(),
            sv == schema_view(schema@),
            srcv == rows_view(source@),
            rv == rows_view(rows@),
            cs == matched@,
            rv.len() == rows@.len(),
            forall|k: int| 0 <= k < source@.len() ==> row_wf(#[trigger] source@[k], schema@),
            forall|k: int| 0 <= k < rows@.len() ==> row_wf(#[trigger] rows@[k], schema@),
            rows_view(out@) == merge_file_rows(srcv, cs, sv, rv.take(i as int)),
            touched == file_touched(srcv, cs, sv, rv.take(i as int)),
            forall|k: int| 0 <= k < out@.len() ==> row_wf(#[trigger] out@[k], schema@),
            updated <= i,
            deleted <= i,
            updated as int == updated_in(srcv, cs, sv, rv.take(i as int)),
            deleted as int == deleted_in(srcv, cs, sv, rv.take(i as int)),
        decreases rows.len() - i,
    {
        proof {
            assert(rv.take(i + 1).drop_last() =~= rv.take(i as int));
            assert(rv.take(i + 1).last() == rv[i as int]);
            assert(rv[i as int] == rows@[i as int]@);
        }
        let ghost pre_touched = touched;
        let ghost out0 = rows_view(out@);
        match find_source(source, rows[i].key) {
            None => {
                let copy = clone_row(&rows[i]);
                proof {
                    assert(copy@ == rv[i as int]);
                    assert(copy@.values.len() == copy.values@.len());
                    assert(rv[i as int].values.len() == rows@[i as int].values@.len());
                    assert(row_wf(copy, schema@));
                }
                out.push(copy);
                proof {
                    assert(rows_view(out@) =~= out0.push(rv[i as int]));
                    assert(!row_touched(srcv, cs, sv, rv[i as int]));
                }
            },
            Some(src) => {
                let ghost srow = src@;
                proof {
                    lemma_source_match_mem(srcv, rows@[i as int].key);
                    let si = choose|si: int| 0 <= si < srcv.len() && srcv[si] == srow;
                    assert(srcv[si] == source@[si]@);
                    assert(row_wf(source@[si], schema@));
                    assert(srow.values.len() == source@[si].values@.len());
                    assert(src@.values.len() == src.values@.len());
                    assert(row_wf(*src, schema@));
                }
                let (result, applied) = apply_clauses(schema, matched, &rows[i], src);
                proof {
                    assert(row_touched(srcv, cs, sv, rv[i as int]) == clause_applies(
                        cs,
                        sv,
                        srow,
                    ));
                }
                match result {
                    Some(row) => {
                        proof {
                            assert(row_wf(row, schema@)) by {
                                assert(apply_matched(cs, sv, rv[i as int], srow) == Some(row@));
                                lemma_apply_matched_wf(cs, sv, rv[i as int], srow, row@);
                                assert(row@.values.len() == row.values@.len());
                                assert(rv[i as int].values.len() == rows@[i as int].values@.len());
                                assert(srow.values.len() == src.values@.len());
                            }
                        }
                        if applied {
                            touched = true;
                            updated = updated + 1;
                        }
                        out.push(row);
                        proof {
                            assert(rows_view(out@) =~= out0.push(
                                apply_matched(cs, sv, rv[i as int], srow).unwrap(),
                            ));
                        }
                    },
                    None => {
                        proof {
                            if !clause_applies(cs, sv, srow) {
                                lemma_apply_no_clause(cs, sv, rv[i as int], srow);
                                assert(false);
                            }
                        }
                        touched = true;
                        deleted = deleted + 1;
                    },
                }
            },
        }
        proof {
            assert forall|k: int|
                0 <= k < i + 1 && row_touched(srcv, cs, sv, #[trigger] rv.take(i + 1)[k]) implies
                touched by {
                if k < i {
                    assert(rv.take(i as int)[k] == rv.take(i + 1)[k]);
                    assert(file_touched(srcv, cs, sv, rv.take(i as int)));
                }
            }
            if touched {
                if pre_touched {
                    let k = choose|k: int|
                        0 <= k < rv.take(i as int).len() && row_touched(
                            srcv,
                            cs,
                            sv,
                            #[trigger] rv.take(i as int)[k],
                        );
                    assert(rv.take(i + 1)[k] == rv.take(i as int)[k]);
                    assert(file_touched(srcv, cs, sv, rv.take(i + 1)));
                } else {
                    assert(rv.take(i + 1)[i as int] == rv[i as int]);
                    assert(row_touched(srcv, cs, sv, rv.take(i + 1)[i as int]));
                    assert(file_touched(srcv, cs, sv, rv.take(i + 1)));
                }
            }
        }
        i = i + 1;
    }
    proof {
        assert(rv.take(rv.len() as int) =~= rv);
    }
    (out, touched, updated, deleted)
}

/// Whether any source key falls in an inclusive key range.
fn any_source_key_in_range(source: &Vec<Row>, kmin: i64, kmax: i64) -> (b: bool)
    ensures
        b == exists|i: int|
            0 <= i < rows_view(source@).len() && kmin <= #[trigger] rows_view(source@)[i].key
                <= kmax,
{
    let ghost srcv = rows_view(source@);
    let mut i: usize = 0;
    while i < source.len()
        invariant
            i <= source.len(),
            srcv == rows_view(source@),
            srcv.len() == source@.len(),
            forall|k: int| 0 <= k < i ==> !(kmin <= #[trigger] srcv[k].key && srcv[k].key <= kmax),
        decreases source.len() - i,
    {
        proof {
            assert(srcv[i as int] == source@[i as int]@);
        }
        let k = source[i].key;
        if kmin <= k && k <= kmax {
            proof {
                assert(kmin <= rows_view(source@)[i as int].key <= kmax);
            }
            return true;
        }
        i = i + 1;
    }
    false
}

/// Whether a file's rows hold this key.
fn file_has_key(rows: &Vec<Row>, k: i64) -> (b: bool)
    ensures
        b == seq_has_key(rows_view(rows@), k),
{
    let ghost rv = rows_view(rows@);
    let mut i: usize = 0;
    while i < rows.len()
        invariant
            i <= rows.len(),
            rv == rows_view(rows@),
            rv.len() == rows@.len(),
            forall|j: int| 0 <= j < i ==> #[trigger] rv[j].key != k,
        decreases rows.len() - i,
    {
        proof {
            assert(rv[i as int] == rows@[i as int]@);
        }
        if rows[i].key == k {
            proof {
                assert(rows_view(rows@)[i as int].key == k);
            }
            return true;
        }
        i = i + 1;
    }
    false
}

/// Whether any not-matched clause accepts a source row.
fn insert_applies(schema: &Vec<String>, nm: &Vec<NotMatchedInsertClause>, src: &Row) -> (b: bool)
    requires
        row_wf(*src, schema@),
    ensures
        b == insert_sat(nm@, schema_view(schema@), src@),
{
    let mut i: usize = 0;
    while i < nm.len()
        invariant
            i <= nm.len(),
            row_wf(*src, schema@),
            forall|j: int|
                0 <= j < i ==> !cond_sat(#[trigger] nm@[j].condition, schema_view(schema@), src@),
        decreases nm.len() - i,
    {
        let applies: bool = match &nm[i].condition {
            None => true,
            Some(p) => eval_predicate(schema, src, p),
        };
        if applies {
            proof {
                assert(cond_sat(nm@[i as int].condition, schema_view(schema@), src@));
            }
            return true;
        }
        i = i + 1;
    }
    false
}

/// An update or fall-through row is the source or the target row, so it is
/// as wide as they are.
proof fn lemma_apply_matched_wf(
    clauses: Seq<MatchedClause>,
    sv: Seq<Seq<char>>,
    target: RowV,
    src: RowV,
    out: RowV,
)
    requires
        apply_matched(clauses, sv, target, src) == Some(out),
    ensures
        out == target || out == src,
    decreases clauses.len(),
{
    if clauses.len() > 0 {
        match clauses[0] {
            MatchedClause::Update(u) => {
                if !cond_sat(u.condition, sv, src) {
                    lemma_apply_matched_wf(clauses.drop_first(), sv, target, src, out);
                }
            },
            MatchedClause::Delete(d) => {
                if !cond_sat(d.condition, sv, src) {
                    lemma_apply_matched_wf(clauses.drop_first(), sv, target, src, out);
                }
            },
        }
    }
}

/// Every key of a file lies in its recorded key range.
pub open spec fn entry_keys_bounded(fs: FileStatsV, rows: Seq<RowV>) -> bool {
    forall|i: int| 0 <= i < rows.len() ==> fs.key_min <= #[trigger] rows[i].key <= fs.key_max
}

/// Whether any live file of a snapshot holds this key, pruning files whose
/// key range excludes it.
fn key_in_table(snapshot: &Vec<FileStats>, store: &Vec<DataFile>, k: i64) -> (b: bool)
    requires
        unique_paths(files_view(snapshot@)),
        crate::table::store_paths_unique(store@),
        forall|ii: int|
            0 <= ii < files_view(snapshot@).len() ==> store_has(
                store@,
                #[trigger] files_view(snapshot@)[ii].path,
            ),
        forall|ii: int|
            0 <= ii < files_view(snapshot@).len() ==> entry_keys_bounded(
                #[trigger] files_view(snapshot@)[ii],
                store_rows(store@, files_view(snapshot@)[ii].path),
            ),
    ensures
        b == table_has_key(entries_map(files_view(snapshot@)), store@, k),
{
    let ghost fv = files_view(snapshot@);
    let ghost live = entries_map(fv);
    let mut ii: usize = 0;
    while ii < snapshot.len()
        invariant
            ii <= snapshot.len(),
            fv == files_view(snapshot@),
            live == entries_map(fv),
            fv.len() == snapshot@.len(),
            unique_paths(fv),
            crate::table::store_paths_unique(store@),
            forall|jj: int| 0 <= jj < fv.len() ==> store_has(store@, #[trigger] fv[jj].path),
            forall|jj: int|
                0 <= jj < fv.len() ==> entry_keys_bounded(
                    #[trigger] fv[jj],
                    store_rows(store@, fv[jj].path),
                ),
            forall|jj: int|
                0 <= jj < ii ==> !seq_has_key(store_rows(store@, #[trigger] fv[jj].path), k),
        decreases snapshot.len() - ii,
    {
        proof {
            assert(fv[ii as int] == snapshot@[ii as int]@);
        }
        if snapshot[ii].key_min <= k && k <= snapshot[ii].key_max {
            let j = match crate::table::find_file_index(store, &snapshot[ii].path) {
                Some(j) => j,
                None => {
                    proof {
                        assert(false);
                    }
                    return false;
                },
            };
            proof {
                lemma_store_rows_is(store@, j as int);
            }
            if file_has_key(&store[j].rows, k) {
                proof {
                    lemma_entries_map_index(fv, ii as int);
                    assert(live.contains_key(fv[ii as int].path));
                    assert(seq_has_key(store_rows(store@, fv[ii as int].path), k));
                }
                return true;
            }
        } else {
            proof {
                assert forall|ri: int|
                    0 <= ri < store_rows(store@, fv[ii as int].path).len() implies #[trigger]
                store_rows(store@, fv[ii as int].path)[ri].key != k by {
                    assert(entry_keys_bounded(
                        fv[ii as int],
                        store_rows(store@, fv[ii as int].path),
                    ));
                }
            }
        }
        ii = ii + 1;
    }
    proof {
        if table_has_key(live, store@, k) {
            let p = choose|p: Seq<char>|
                #[trigger] live.contains_key(p) && seq_has_key(store_rows(store@, p), k);
            lemma_entries_map_domain(fv, p);
            let jj = choose|jj: int| 0 <= jj < fv.len() && fv[jj].path == p;
            assert(!seq_has_key(store_rows(store@, fv[jj].path), k));
        }
    }
    false
}

/// Collects the source rows the merge must insert: those matching no live
/// target key and accepted by some not-matched clause, in source order.
fn collect_inserts(
    schema: &Vec<String>,
    source: &Vec<Row>,
    nm: &Vec<NotMatchedInsertClause>,
    snapshot: &Vec<FileStats>,
    store: &Vec<DataFile>,
) -> (ins: Vec<Row>)
    requires
        forall|i: int| 0 <= i < source@.len() ==> row_wf(#[trigger] source@[i], schema@),
        unique_paths(files_view(snapshot@)),
        crate::table::store_paths_unique(store@),
        forall|ii: int|
            0 <= ii < files_view(snapshot@).len() ==> store_has(
                store@,
                #[trigger] files_view(snapshot@)[ii].path,
            ),
        forall|ii: int|
            0 <= ii < files_view(snapshot@).len() ==> entry_keys_bounded(
                #[trigger] files_view(snapshot@)[ii],
                store_rows(store@, files_view(snapshot@)[ii].path),
            ),
    ensures
        rows_view(ins@) == inserted_rows(
            rows_view(source@),
            nm@,
            schema_view(schema@),
            entries_map(files_view(snapshot@)),
            store@,
        ),
        forall|i: int| 0 <= i < ins@.len() ==> row_wf(#[trigger] ins@[i], schema@),
{
    let ghost srcv = rows_view(source@);
    let ghost sv = schema_view(schema@);
    let ghost live = entries_map(files_view(snapshot@));
    let mut ins: Vec<Row> = Vec::new();
    proof {
        assert(srcv.take(0) =~= Seq::<RowV>::empty());
        assert(rows_view(ins@) =~= Seq::<RowV>::empty());
    }
    let mut si: usize = 0;
    while si < source.len()
        invariant
            si <= source.len(),
            srcv == rows_view(source@),
            sv == schema_view(schema@),
            live == entries_map(files_view(snapshot@)),
            srcv.len() == source@.len(),
            forall|i: int| 0 <= i < source@.len() ==> row_wf(#[trigger] source@[i], schema@),
            unique_paths(files_view(snapshot@)),
            crate::table::store_paths_unique(store@),
            forall|ii: int|
                0 <= ii < files_view(snapshot@).len() ==> store_has(
                    store@,
                    #[trigger] files_view(snapshot@)[ii].path,
                ),
            forall|ii: int|
                0 <= ii < files_view(snapshot@).len() ==> entry_keys_bounded(
                    #[trigger] files_view(snapshot@)[ii],
                    store_rows(store@, files_view(snapshot@)[ii].path),
                ),
            rows_view(ins@) == inserted_rows(srcv.take(si as int), nm@, sv, live, store@),
            forall|i: int| 0 <= i < ins@.len() ==> row_wf(#[trigger] ins@[i], schema@),
        decreases source.len() - si,
    {
        proof {
            assert(srcv.take(si + 1).drop_last() =~= srcv.take(si as int));
            assert(srcv.take(si + 1).last() == srcv[si as int]);
            assert(srcv[si as int] == source@[si as int]@);
        }
        let present = key_in_table(snapshot, store, source[si].key);
        let app = insert_applies(schema, nm, &source[si]);
        if !present && app {
            let ghost iv0 = rows_view(ins@);
            let copy = clone_row(&source[si]);
            proof {
                assert(copy@ == srcv[si as int]);
                assert(copy@.values.len() == copy.values@.len());
                assert(srcv[si as int].values.len() == source@[si as int].values@.len());
                assert(row_wf(copy, schema@));
            }
            ins.push(copy);
            proof {
                assert(rows_view(ins@) =~= iv0.push(srcv[si as int]));
            }
        }
        si = si + 1;
    }
    proof {
        assert(srcv.take(srcv.len() as int) =~= srcv);
    }
    ins
}

/// Accumulates a join condition on the row key, an ordered list of matched
/// clauses, and not-matched insert clauses; `execute` applies them as one
/// atomic merge commit.
pub struct MergeBuilder {
    pub source: Vec<Row>,
    pub matched: Vec<MatchedClause>,
    pub not_matched: Vec<NotMatchedInsertClause>,
}

impl MergeBuilder {
    /// Starts a merge of the given source rows, joined on the row key.
    pub fn new(source: Vec<Row>) -> (b: MergeBuilder)
        ensures
            b.source == source,
            b.matched@.len() == 0,
            b.not_matched@.len() == 0,
    {
        MergeBuilder { source, matched: Vec::new(), not_matched: Vec::new() }
    }

    /// Appends a matched-update clause, applied in declaration order.
    pub fn when_matched_update(&mut self, clause: MatchedUpdateClause)
        ensures
            final(self).source == old(self).source,
            final(self).not_matched == old(self).not_matched,
            final(self).matched@ == old(self).matched@.push(MatchedClause::Update(clause)),
    {
        self.matched.push(MatchedClause::Update(clause));
    }

    /// Appends a matched-delete clause, applied in declaration order.
    pub fn when_matched_delete(&mut self, clause: MatchedDeleteClause)
        ensures
            final(self).source == old(self).source,
            final(self).not_matched == old(self).not_matched,
            final(self).matched@ == old(self).matched@.push(MatchedClause::Delete(clause)),
    {
        self.matched.push(MatchedClause::Delete(clause));
    }

    /// Appends a not-matched-insert clause.
    pub fn when_not_matched_insert(&mut self, clause: NotMatchedInsertClause)
        ensures
            final(self).source == old(self).source,
            final(self).matched == old(self).matched,
            final(self).not_matched@ == old(self).not_matched@.push(clause),
    {
        self.not_matched.push(clause);
    }

    /// Executes the merge as one atomic commit: target files whose key range
    /// excludes every source key are skipped unread; files where no row
    /// matches with an applicable clause are left untouched and not
    /// rewritten; each touched file is tombstoned and, if rows survive,
    /// replaced by its merged rows; source rows matching no live key and
    /// accepted by a not-matched clause are written as one new insert file.
    /// Either the whole merge is visible at the new version or none of it.
    #[verifier::rlimit(100)]
    pub fn execute(&self, table: &mut DeltaTable, now: u64) -> (r: Result<MergeMetrics, DeltaError>)
        requires
            old(table).wf(),
            old(table).log@.len() < u64::MAX,
            old(table).next_file_id + old(table).store@.len() + 1 <= u64::MAX,
            forall|i: int|
                0 <= i < self.source@.len() ==> row_wf(#[trigger] self.source@[i], old(table).schema@),
        ensures
            final(table).wf(),
            final(table).schema@ == old(table).schema@,
            match r {
                Ok(metrics) => {
                    let sv = schema_view(old(table).schema@);
                    let srcv = rows_view(self.source@);
                    &&& final(table).log@.len() == old(table).log@.len() + 1
                    &&& forall|p: Seq<char>|
                        #[trigger] old(table).live().contains_key(p) ==> if file_touched(
                            srcv,
                            self.matched@,
                            sv,
                            store_rows(old(table).store@, p),
                        ) {
                            !final(table).live().contains_key(p)
                        } else {
                            final(table).live().contains_key(p) && final(table).live()[p] == old(
                                table,
                            ).live()[p] && store_rows(final(table).store@, p) == store_rows(
                                old(table).store@,
                                p,
                            ) && merge_file_rows(
                                srcv,
                                self.matched@,
                                sv,
                                store_rows(old(table).store@, p),
                            ) == store_rows(old(table).store@, p)
                        }
                    &&& forall|q: Seq<char>|
                        #[trigger] final(table).live().contains_key(q) ==> old(
                            table,
                        ).live().contains_key(q) || (exists|p: Seq<char>|
                            #[trigger] old(table).live().contains_key(p) && store_rows(
                                final(table).store@,
                                q,
                            ) == merge_file_rows(
                                srcv,
                                self.matched@,
                                sv,
                                store_rows(old(table).store@, p),
                            )) || store_rows(final(table).store@, q) == inserted_rows(
                            srcv,
                            self.not_matched@,
                            sv,
                            old(table).live(),
                            old(table).store@,
                        )
                    &&& forall|p: Seq<char>|
                        #[trigger] old(table).live().contains_key(p) && file_touched(
                            srcv,
                            self.matched@,
                            sv,
                            store_rows(old(table).store@, p),
                        ) && merge_file_rows(
                            srcv,
                            self.matched@,
                            sv,
                            store_rows(old(table).store@, p),
                        ).len() > 0 ==> exists|q: Seq<char>|
                            #[trigger] final(table).live().contains_key(q) && store_rows(
                                final(table).store@,
                                q,
                            ) == merge_file_rows(
                                srcv,
                                self.matched@,
                                sv,
                                store_rows(old(table).store@, p),
                            )
                    &&& inserted_rows(
                        srcv,
                        self.not_matched@,
                        sv,
                        old(table).live(),
                        old(table).store@,
                    ).len() > 0 ==> exists|q: Seq<char>|
                        #[trigger] final(table).live().contains_key(q) && store_rows(
                            final(table).store@,
                            q,
                        ) == inserted_rows(
                            srcv,
                            self.not_matched@,
                            sv,
                            old(table).live(),
                            old(table).store@,
                        )
                    &&& metrics.rows_inserted as int == inserted_rows(
                        srcv,
                        self.not_matched@,
                        sv,
                        old(table).live(),
                        old(table).store@,
                    ).len()
                    &&& metrics.files_added as int == final(table).next_file_id as int - old(
                        table,
                    ).next_file_id as int
                    &&& exists|entries: Seq<Seq<char>>|
                        covers_live(old(table).live(), entries) && metrics.files_removed as int
                            == touched_file_count(srcv, self.matched@, sv, old(table).store@, entries)
                            && metrics.rows_updated as int == capped(
                            total_updated(srcv, self.matched@, sv, old(table).store@, entries),
                        ) && metrics.rows_deleted as int == capped(
                            total_deleted(srcv, self.matched@, sv, old(table).store@, entries),
                        ) && metrics.bytes_written as int == capped(
                            total_written(srcv, self.matched@, sv, old(table).store@, entries)
                                + inserted_rows(
                                srcv,
                                self.not_matched@,
                                sv,
                                old(table).live(),
                                old(table).store@,
                            ).len(),
                        )
                },
                Err(_) => false,
            },
    {
        let ghost live0 = old(table).live();
        let ghost sv = schema_view(old(table).schema@);
        let ghost store0 = old(table).store@;
        let ghost srcv = rows_view(self.source@);
        let ghost cs = self.matched@;
        let snapshot = match table.log.read_snapshot(None) {
            Ok(s) => s,
            Err(_) => {
                proof {
                    assert(false);
                }
                return Err(DeltaError::Corruption);
            },
        };
        let ghost fv = files_view(snapshot@);
        proof {
            assert(entries_map(fv) == live0);
            assert forall|i: int| 0 <= i < fv.len() implies store_has(store0, #[trigger] fv[i].path)
                && entry_keys_bounded(fv[i], store_rows(store0, fv[i].path)) by {
                lemma_entries_map_index(fv, i);
                assert(live0.contains_key(fv[i].path));
                assert(stats_valid(live0[fv[i].path], sv, store_rows(store0, fv[i].path)));
            }
            lemma_snapshot_fits(fv, store0);
        }
        let ghost fvpaths = Seq::new(fv.len(), |ii: int| fv[ii].path);
        let mut removals: Vec<String> = Vec::new();
        let mut batches: Vec<Vec<Row>> = Vec::new();
        let mut updated: u64 = 0;
        let mut deleted: u64 = 0;
        let mut written: u64 = 0;
        proof {
            assert(fvpaths.take(0) =~= Seq::<Seq<char>>::empty());
        }
        let mut i: usize = 0;
        while i < snapshot.len()
            invariant
                i <= snapshot.len(),
                table == old(table),
                old(table).wf(),
                live0 == old(table).live(),
                sv == schema_view(old(table).schema@),
                store0 == old(table).store@,
                srcv == rows_view(self.source@),
                cs == self.matched@,
                srcv.len() == self.source@.len(),
                forall|k: int|
                    0 <= k < self.source@.len() ==> row_wf(
                        #[trigger] self.source@[k],
                        old(table).schema@,
                    ),
                fv == files_view(snapshot@),
                fv.len() == snapshot@.len(),
                unique_paths(fv),
                entries_map(fv) == live0,
                removals@.len() <= i,
                batches@.len() <= i,
                forall|k: int| 0 <= k < removals@.len() ==> exists|ii: int|
                    0 <= ii < i && #[trigger] removals@[k]@ == fv[ii].path,
                forall|ii: int|
                    0 <= ii < i ==> (file_touched(
                        srcv,
                        cs,
                        sv,
                        store_rows(store0, #[trigger] fv[ii].path),
                    ) <==> path_removed(removals@, fv[ii].path)),
                forall|ii: int|
                    0 <= ii < i && !file_touched(
                        srcv,
                        cs,
                        sv,
                        store_rows(store0, #[trigger] fv[ii].path),
                    ) ==> merge_file_rows(srcv, cs, sv, store_rows(store0, fv[ii].path))
                        == store_rows(store0, fv[ii].path),
                forall|b: int|
                    0 <= b < batches@.len() ==> batch_is_merged(
                        live0,
                        sv,
                        store0,
                        #[trigger] batches@[b],
                        srcv,
                        cs,
                    ),
                forall|b: int, ii: int|
                    0 <= b < batches@.len() && 0 <= ii < batches@[b]@.len() ==> row_wf(
                        #[trigger] batches@[b]@[ii],
                        old(table).schema@,
                    ),
                fvpaths == Seq::new(fv.len(), |ii: int| fv[ii].path),
                removals@.len() as int == touched_file_count(
                    srcv,
                    cs,
                    sv,
                    store0,
                    fvpaths.take(i as int),
                ),
                updated as int == capped(total_updated(srcv, cs, sv, store0, fvpaths.take(i as int))),
                deleted as int == capped(total_deleted(srcv, cs, sv, store0, fvpaths.take(i as int))),
                written as int == capped(total_written(srcv, cs, sv, store0, fvpaths.take(i as int))),
                forall|ii: int|
                    0 <= ii < i && file_touched(
                        srcv,
                        cs,
                        sv,
                        #[trigger] store_rows(store0, fv[ii].path),
                    ) && merge_file_rows(srcv, cs, sv, store_rows(store0, fv[ii].path)).len() > 0
                        ==> exists|b: int|
                        0 <= b < batches@.len() && rows_view(#[trigger] batches@[b]@)
                            == merge_file_rows(srcv, cs, sv, store_rows(store0, fv[ii].path)),
            decreases snapshot.len() - i,
        {
            let ghost p = fv[i as int].path;
            let ghost rem0 = removals@;
            let ghost bat0 = batches@;
            proof {
                lemma_entries_map_index(fv, i as int);
                assert(live0.contains_key(p) && live0[p] == fv[i as int]);
                assert(store_has(store0, p));
                assert(fv[i as int] == snapshot@[i as int]@);
                assert forall|k: int| 0 <= k < removals@.len() implies #[trigger] removals@[k]@
                    != p by {
                    let ii = choose|ii: int| 0 <= ii < i && #[trigger] removals@[k]@ == fv[ii].path;
                    assert(fv[ii].path != fv[i as int].path);
                }
            }
            let mut touched: bool = false;
            let mut merged: Vec<Row> = Vec::new();
            let ghost mut mergedv = rows_view(merged@);
            if any_source_key_in_range(&self.source, snapshot[i].key_min, snapshot[i].key_max) {
                let j = match crate::table::find_file_index(&table.store, &snapshot[i].path) {
                    Some(j) => j,
                    None => {
                        proof {
                            assert(false);
                        }
                        return Err(DeltaError::NotFound);
                    },
                };
                proof {
                    lemma_store_rows_is(store0, j as int);
                    assert(store_rows(store0, p) == rows_view(table.store@[j as int].rows@));
                    assert(store_file_wf(
                        table.store@[j as int],
                        table.schema@,
                        table.next_file_id,
                    ));
                }
                let res = merge_file(&table.schema, &self.source, &self.matched, &table.store[j].rows);
                merged = res.0;
                touched = res.1;
                proof {
                    mergedv = rows_view(merged@);
                }
                let wlen: u64 = merged.len() as u64;
                if updated <= u64::MAX - res.2 {
                    updated = updated + res.2;
                } else {
                    updated = u64::MAX;
                }
                if deleted <= u64::MAX - res.3 {
                    deleted = deleted + res.3;
                } else {
                    deleted = u64::MAX;
                }
                if touched {
                    if written <= u64::MAX - wlen {
                        written = written + wlen;
                    } else {
                        written = u64::MAX;
                    }
                }
                proof {
                    if !touched {
                        lemma_merge_untouched(srcv, cs, sv, store_rows(store0, p));
                    }
                    assert(mergedv.len() == merge_file_rows(srcv, cs, sv, store_rows(store0, p)).len());
                    assert(wlen as int == mergedv.len());
                }
            } else {
                proof {
                    assert(stats_valid(live0[p], sv, store_rows(store0, p)));
                    lemma_range_untouched(
                        srcv,
                        cs,
                        sv,
                        store_rows(store0, p),
                        fv[i as int].key_min,
                        fv[i as int].key_max,
                    );
                    lemma_counts_untouched(srcv, cs, sv, store_rows(store0, p));
                }
            }
            if touched {
                removals.push(snapshot[i].path.clone());
                proof {
                    assert(removals@[removals@.len() - 1]@ == p);
                    assert(path_removed(removals@, p));
                }
                if merged.len() > 0 {
                    let ghost mv = rows_view(merged@);
                    batches.push(merged);
                    proof {
                        assert(rows_view(batches@[batches@.len() - 1]@) == mv);
                        assert(live0.contains_key(p) && rows_view(batches@[batches@.len() - 1]@)
                            == merge_file_rows(srcv, cs, sv, store_rows(store0, p)));
                        assert(batch_is_merged(
                            live0,
                            sv,
                            store0,
                            batches@[batches@.len() - 1],
                            srcv,
                            cs,
                        ));
                    }
                }
            } else {
                proof {
                    assert(!path_removed(removals@, p));
                }
            }
            proof {
                assert forall|k: int| 0 <= k < removals@.len() implies exists|ii2: int|
                    0 <= ii2 < i + 1 && #[trigger] removals@[k]@ == fv[ii2].path by {
                    if k < rem0.len() {
                        let ii2 = choose|ii2: int| 0 <= ii2 < i && rem0[k]@ == fv[ii2].path;
                        assert(removals@[k]@ == fv[ii2].path);
                    } else {
                        assert(removals@[k]@ == fv[i as int].path);
                    }
                }
                assert forall|ii2: int| 0 <= ii2 < i + 1 implies (file_touched(
                    srcv,
                    cs,
                    sv,
                    store_rows(store0, #[trigger] fv[ii2].path),
                ) <==> path_removed(removals@, fv[ii2].path)) by {
                    if ii2 < i {
                        assert(fv[ii2].path != p);
                        assert(path_removed(removals@, fv[ii2].path) == path_removed(
                            rem0,
                            fv[ii2].path,
                        )) by {
                            if path_removed(removals@, fv[ii2].path) {
                                let k = choose|k: int|
                                    0 <= k < removals@.len() && #[trigger] removals@[k]@
                                        == fv[ii2].path;
                                if k < rem0.len() {
                                    assert(rem0[k]@ == fv[ii2].path);
                                } else {
                                    assert(removals@[k]@ == p);
                                    assert(false);
                                }
                            }
                            if path_removed(rem0, fv[ii2].path) {
                                let k = choose|k: int|
                                    0 <= k < rem0.len() && #[trigger] rem0[k]@ == fv[ii2].path;
                                assert(removals@[k]@ == fv[ii2].path);
                            }
                        }
                    }
                }
                assert(fvpaths.take(i + 1).drop_last() =~= fvpaths.take(i as int));
                assert(fvpaths.take(i + 1).last() == fvpaths[i as int]);
                assert(fvpaths[i as int] == fv[i as int].path);
                assert(touched == file_touched(srcv, cs, sv, store_rows(store0, p)));
                assert(removals@.len() as int == touched_file_count(
                    srcv,
                    cs,
                    sv,
                    store0,
                    fvpaths.take(i + 1),
                ));
                assert(total_updated(srcv, cs, sv, store0, fvpaths.take(i + 1)) == total_updated(
                    srcv,
                    cs,
                    sv,
                    store0,
                    fvpaths.take(i as int),
                ) + updated_in(srcv, cs, sv, store_rows(store0, p)));
                assert(total_deleted(srcv, cs, sv, store0, fvpaths.take(i + 1)) == total_deleted(
                    srcv,
                    cs,
                    sv,
                    store0,
                    fvpaths.take(i as int),
                ) + deleted_in(srcv, cs, sv, store_rows(store0, p)));
                assert(total_written(srcv, cs, sv, store0, fvpaths.take(i + 1)) == total_written(
                    srcv,
                    cs,
                    sv,
                    store0,
                    fvpaths.take(i as int),
                ) + if file_touched(srcv, cs, sv, store_rows(store0, p)) {
                    merge_file_rows(srcv, cs, sv, store_rows(store0, p)).len() as int
                } else {
                    0int
                });
                assert(updated as int == capped(total_updated(
                    srcv,
                    cs,
                    sv,
                    store0,
                    fvpaths.take(i + 1),
                )));
                assert(deleted as int == capped(total_deleted(
                    srcv,
                    cs,
                    sv,
                    store0,
                    fvpaths.take(i + 1),
                )));
                assert(written as int == capped(total_written(
                    srcv,
                    cs,
                    sv,
                    store0,
                    fvpaths.take(i + 1),
                )));
                assert forall|ii2: int|
                    0 <= ii2 < i + 1 && file_touched(
                        srcv,
                        cs,
                        sv,
                        #[trigger] store_rows(store0, fv[ii2].path),
                    ) && merge_file_rows(srcv, cs, sv, store_rows(store0, fv[ii2].path)).len() > 0
                    implies exists|b: int|
                    0 <= b < batches@.len() && rows_view(#[trigger] batches@[b]@)
                        == merge_file_rows(srcv, cs, sv, store_rows(store0, fv[ii2].path)) by {
                    if ii2 < i {
                        let b = choose|b: int|
                            0 <= b < bat0.len() && rows_view(#[trigger] bat0[b]@)
                                == merge_file_rows(srcv, cs, sv, store_rows(store0, fv[ii2].path));
                        assert(batches@[b] == bat0[b]);
                        assert(rows_view(batches@[b]@) == merge_file_rows(
                            srcv,
                            cs,
                            sv,
                            store_rows(store0, fv[ii2].path),
                        ));
                    } else {
                        assert(mergedv == merge_file_rows(srcv, cs, sv, store_rows(store0, p)));
                        assert(mergedv.len() > 0);
                        assert(rows_view(batches@[batches@.len() - 1]@) == merge_file_rows(
                            srcv,
                            cs,
                            sv,
                            store_rows(store0, p),
                        ));
                    }
                }
            }
            i = i + 1;
        }
        let inserts = collect_inserts(&table.schema, &self.source, &self.not_matched, &snapshot, &table.store);
        let rows_inserted = inserts.len() as u64;
        let ghost n_merge = batches@.len() as int;
        let ghost batv = batches@;
        let ghost insv = rows_view(inserts@);
        let mut wrote_inserts: bool = false;
        if inserts.len() > 0 {
            batches.push(inserts);
            wrote_inserts = true;
        }
        let files_added = batches.len() as u64;
        let files_removed = removals.len() as u64;
        let ghost base_id = table.next_file_id;
        let ghost count = batches@.len() as int;
        let ghost bseq = batches@;
        match self.apply_rewrite_for(table, &removals, batches, now) {
            Ok(_) => {},
            Err(_) => {
                proof {
                    assert(false);
                }
                return Err(DeltaError::IoFailure);
            },
        }
        proof {
            assert forall|p: Seq<char>| #[trigger] old(table).live().contains_key(p) implies
                !fresh_path(base_id, count, p) by {
                if fresh_path(base_id, count, p) {
                    assert(live0.contains_key(p));
                    assert(store_has(store0, p));
                    let j = choose|j: int|
                        0 <= j < store0.len() && #[trigger] store0[j].path@ == p;
                    assert(store_file_wf(old(table).store@[j], old(table).schema@, base_id));
                    let id0 = choose|id0: nat|
                        id0 < base_id && old(table).store@[j].path@ == path_for(id0);
                    let id1 = choose|id1: nat|
                        base_id <= id1 < base_id + count && p == #[trigger] path_for(id1);
                    lemma_path_for_injective(id0, id1);
                }
            }
            assert forall|p: Seq<char>| #[trigger] old(table).live().contains_key(p) implies (
            path_removed(removals@, p) <==> file_touched(srcv, cs, sv, store_rows(store0, p))) by {
                assert(live0.contains_key(p));
                lemma_entries_map_domain(fv, p);
                let ii = choose|ii: int| 0 <= ii < fv.len() && fv[ii].path == p;
                assert((file_touched(srcv, cs, sv, store_rows(store0, fv[ii].path))
                    <==> path_removed(removals@, fv[ii].path)));
            }
            assert forall|p: Seq<char>| #[trigger] old(table).live().contains_key(p) implies (
            if file_touched(srcv, cs, sv, store_rows(store0, p)) {
                !table.live().contains_key(p)
            } else {
                table.live().contains_key(p) && table.live()[p] == old(table).live()[p]
                    && store_rows(table.store@, p) == store_rows(old(table).store@, p)
                    && merge_file_rows(srcv, cs, sv, store_rows(store0, p)) == store_rows(
                    store0,
                    p,
                )
            }) by {
                assert(!fresh_path(base_id, count, p));
                lemma_entries_map_domain(fv, p);
                let ii = choose|ii: int| 0 <= ii < fv.len() && fv[ii].path == p;
                if file_touched(srcv, cs, sv, store_rows(store0, p)) {
                    assert(path_removed(removals@, p));
                    assert(!table.live().contains_key(p));
                } else {
                    assert(!path_removed(removals@, p));
                    assert(table.live().contains_key(p));
                    assert(table.live()[p] == old(table).live()[p] && store_rows(table.store@, p)
                        == store_rows(old(table).store@, p));
                    assert(merge_file_rows(srcv, cs, sv, store_rows(store0, fv[ii].path))
                        == store_rows(store0, fv[ii].path));
                }
            }
            assert forall|q: Seq<char>| #[trigger] table.live().contains_key(q) implies (old(
                table,
            ).live().contains_key(q) || (exists|p: Seq<char>|
                #[trigger] old(table).live().contains_key(p) && store_rows(table.store@, q)
                    == merge_file_rows(srcv, cs, sv, store_rows(old(table).store@, p)))
                || store_rows(table.store@, q) == inserted_rows(
                srcv,
                self.not_matched@,
                sv,
                old(table).live(),
                old(table).store@,
            )) by {
                if !old(table).live().contains_key(q) {
                    assert(!live0.contains_key(q));
                    assert(fresh_path(base_id, count, q));
                    let id = choose|id: nat|
                        base_id <= id < base_id + count && q == #[trigger] path_for(id);
                    let bb = id - base_id;
                    assert(q == path_for((base_id + bb) as nat));
                    assert(store_rows(table.store@, path_for((base_id + bb) as nat)) == rows_view(
                        bseq[bb]@,
                    ));
                    if bb < n_merge {
                        assert(batch_is_merged(live0, sv, store0, bseq[bb], srcv, cs));
                        let p = choose|p: Seq<char>|
                            #[trigger] live0.contains_key(p) && rows_view(bseq[bb]@)
                                == merge_file_rows(srcv, cs, sv, store_rows(store0, p));
                        assert(old(table).live().contains_key(p) && store_rows(table.store@, q)
                            == merge_file_rows(srcv, cs, sv, store_rows(old(table).store@, p)));
                    } else {
                        assert(bb == n_merge);
                        assert(rows_view(bseq[bb]@) == insv);
                        assert(store_rows(table.store@, q) == insv);
                    }
                }
            }
            assert forall|p: Seq<char>|
                #[trigger] old(table).live().contains_key(p) && file_touched(
                    srcv,
                    cs,
                    sv,
                    store_rows(store0, p),
                ) && merge_file_rows(srcv, cs, sv, store_rows(store0, p)).len() > 0 implies exists|
                q: Seq<char>,
            |
                #[trigger] table.live().contains_key(q) && store_rows(table.store@, q)
                    == merge_file_rows(srcv, cs, sv, store_rows(store0, p)) by {
                assert(live0.contains_key(p));
                lemma_entries_map_domain(fv, p);
                let ii = choose|ii: int| 0 <= ii < fv.len() && fv[ii].path == p;
                assert(file_touched(srcv, cs, sv, store_rows(store0, fv[ii].path))
                    && merge_file_rows(srcv, cs, sv, store_rows(store0, fv[ii].path)).len() > 0);
                let b = choose|b: int|
                    0 <= b < batv.len() && rows_view(#[trigger] batv[b]@) == merge_file_rows(
                        srcv,
                        cs,
                        sv,
                        store_rows(store0, fv[ii].path),
                    );
                assert(b < n_merge && n_merge <= count);
                assert(bseq[b] == batv[b]);
                let q = path_for((base_id + b) as nat);
                assert(base_id <= (base_id + b) as nat && ((base_id + b) as nat) < base_id
                    + count);
                assert(fresh_path(base_id, count, q));
                assert(table.live().contains_key(q));
                assert(store_rows(table.store@, path_for((base_id + b) as nat)) == rows_view(
                    bseq[b]@,
                ));
                assert(store_rows(table.store@, q) == merge_file_rows(
                    srcv,
                    cs,
                    sv,
                    store_rows(store0, p),
                ));
            }
            if insv.len() > 0 {
                let q = path_for((base_id + n_merge) as nat);
                assert(wrote_inserts);
                assert(n_merge < count);
                assert(base_id <= (base_id + n_merge) as nat && ((base_id + n_merge) as nat)
                    < base_id + count);
                assert(fresh_path(base_id, count, q));
                assert(table.live().contains_key(q));
                assert(store_rows(table.store@, path_for((base_id + n_merge) as nat))
                    == rows_view(bseq[n_merge]@));
                assert(rows_view(bseq[n_merge]@) == insv);
                assert(table.live().contains_key(q) && store_rows(table.store@, q) == insv);
            }
            assert(files_added as int == table.next_file_id as int - old(
                table,
            ).next_file_id as int);
            assert(fvpaths.take(fvpaths.len() as int) =~= fvpaths);
            assert(covers_live(old(table).live(), fvpaths)) by {
                assert forall|pp: Seq<char>| #[trigger] live0.contains_key(pp) implies
                    fvpaths.contains(pp) by {
                    lemma_entries_map_domain(fv, pp);
                    let ii = choose|ii: int| 0 <= ii < fv.len() && fv[ii].path == pp;
                    assert(fvpaths[ii] == pp);
                }
                assert forall|k: int| 0 <= k < fvpaths.len() implies live0.contains_key(
                    #[trigger] fvpaths[k],
                ) by {
                    lemma_entries_map_index(fv, k);
                }
                assert(forall|k1: int, k2: int|
                    0 <= k1 < k2 < fvpaths.len() ==> fvpaths[k1] != fvpaths[k2]);
            }
            assert(files_removed as int == touched_file_count(srcv, cs, sv, store0, fvpaths));
            assert(updated as int == capped(total_updated(srcv, cs, sv, store0, fvpaths)));
            assert(deleted as int == capped(total_deleted(srcv, cs, sv, store0, fvpaths)));
            assert(written as int == capped(total_written(srcv, cs, sv, store0, fvpaths)));
        }
        let bytes_written: u64 = if written <= u64::MAX - rows_inserted {
            written + rows_inserted
        } else {
            u64::MAX
        };
        proof {
            assert(rows_inserted as int == insv.len());
            assert(bytes_written as int == capped(total_written(srcv, cs, sv, store0, fvpaths)
                + insv.len()));
        }
        Ok(
            MergeMetrics {
                rows_updated: updated,
                rows_deleted: deleted,
                rows_inserted,
                files_added,
                files_removed,
                bytes_written,
            },
        )
    }

    /// Hands the accumulated rewrite to the table as one merge commit.
    fn apply_rewrite_for(
        &self,
        table: &mut DeltaTable,
        removals: &Vec<String>,
        batches: Vec<Vec<Row>>,
        now: u64,
    ) -> (r: Result<u64, DeltaError>)
        requires
            old(table).wf(),
            old(table).log@.len() < u64::MAX,
            old(table).next_file_id + batches@.len() <= u64::MAX,
            forall|b: int, ii: int|
                0 <= b < batches@.len() && 0 <= ii < batches@[b]@.len() ==> row_wf(
                    #[trigger] batches@[b]@[ii],
                    old(table).schema@,
                ),
        ensures
            final(table).wf(),
            final(table).schema@ == old(table).schema@,
            final(table).log@.len() == old(table).log@.len() + 1,
            final(table).next_file_id as int == old(table).next_file_id + batches@.len(),
            final(table).store@.len() == old(table).store@.len() + batches@.len(),
            forall|j: int|
                0 <= j < old(table).store@.len() ==> final(table).store@[j] == old(table).store@[j],
            match r {
                Ok(v) => {
                    &&& v as int == old(table).log@.len()
                    &&& forall|q: Seq<char>|
                        #[trigger] final(table).live().contains_key(q) <==> ((old(
                            table,
                        ).live().contains_key(q) && !path_removed(removals@, q)) || fresh_path(
                            old(table).next_file_id,
                            batches@.len() as int,
                            q,
                        ))
                    &&& forall|q: Seq<char>|
                        old(table).live().contains_key(q) && !path_removed(removals@, q)
                            && !fresh_path(old(table).next_file_id, batches@.len() as int, q)
                            ==> #[trigger] final(table).live()[q] == old(table).live()[q]
                            && store_rows(final(table).store@, q) == store_rows(
                            old(table).store@,
                            q,
                        )
                    &&& forall|b: int|
                        0 <= b < batches@.len() ==> #[trigger] store_rows(
                            final(table).store@,
                            path_for((old(table).next_file_id + b) as nat),
                        ) == rows_view(batches@[b]@)
                },
                Err(_) => false,
            },
    {
        table.apply_rewrite(removals, batches, OperationKind::Merge, true, now)
    }
}

} // verus!
