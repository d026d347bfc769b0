use fsdb::error::DeltaError;
use fsdb::log::{Action, OperationKind, TransactionLog};
use fsdb::merge::{MatchedUpdateClause, MergeBuilder, NotMatchedInsertClause};
use fsdb::rows::{Row, Value};
use fsdb::skipping::{can_skip_file, extract_predicates, FilterClause, FilterOp, Predicate};
use fsdb::stats::{compute_column_statistics, get_file_statistics};
use fsdb::table::DeltaTable;

fn schema_xy() -> Vec<String> {
    vec!["x".to_string(), "y".to_string()]
}

fn row(key: i64, x: i64, y: i64) -> Row {
    Row { key, values: vec![Value::Int(x), Value::Int(y)] }
}

fn schema_v() -> Vec<String> {
    vec!["v".to_string()]
}

fn srow(key: i64, v: &str) -> Row {
    Row { key, values: vec![Value::Str(v.to_string())] }
}

fn live_paths(t: &DeltaTable) -> Vec<String> {
    let snap = t.log.read_snapshot(None).unwrap();
    let mut out: Vec<String> = snap.into_iter().map(|e| e.path).collect();
    out.sort();
    out
}

fn live_rows_sorted(t: &DeltaTable) -> Vec<(i64, Vec<Value>)> {
    let snap = t.log.read_snapshot(None).unwrap();
    let mut out = Vec::new();
    for entry in &snap {
        let file = t.store.iter().find(|f| f.path == entry.path).unwrap();
        for r in &file.rows {
            out.push((r.key, r.values.clone()));
        }
    }
    out.sort_by_key(|p| p.0);
    out
}

#[test]
fn replay_determinism_two_reads_agree() {
    let mut t = DeltaTable::create(schema_xy(), 1);
    t.append_rows(vec![row(1, 10, 100)], 2).unwrap();
    t.append_rows(vec![row(2, 20, 200), row(3, 30, 300)], 3).unwrap();
    let a = t.log.read_snapshot(None).unwrap();
    let b = t.log.read_snapshot(None).unwrap();
    assert_eq!(a, b);
    let a1 = t.log.read_snapshot(Some(1)).unwrap();
    let b1 = t.log.read_snapshot(Some(1)).unwrap();
    assert_eq!(a1, b1);
    assert_eq!(a1.len(), 1);
    assert_eq!(a.len(), 2);
}

#[test]
fn snapshot_version_out_of_range_is_not_found() {
    let t = DeltaTable::create(schema_xy(), 1);
    assert_eq!(t.log.read_snapshot(Some(7)), Err(DeltaError::NotFound));
}

#[test]
fn commit_atomicity_one_winner_per_slot() {
    let mut log = TransactionLog::new();
    let a1 = vec![Action::UpdateMetadata { schema: vec!["x".to_string()], configuration: vec![] }];
    let a2 = vec![Action::UpdateMetadata { schema: vec!["y".to_string()], configuration: vec![] }];
    // Two writers race for the first slot: exactly one claims version 0.
    let first = log.try_commit(None, &a1, OperationKind::Create, 1);
    assert_eq!(first, Ok(0));
    let second = log.try_commit(None, &a2, OperationKind::Create, 2);
    assert_eq!(second, Err(DeltaError::Conflict));
    assert_eq!(log.commits.len(), 1);
    // The loser re-validates and retries at the later base and succeeds.
    let retried = log.commit(None, &a2, OperationKind::Create, 3);
    assert_eq!(retried, Ok(1));
    assert_eq!(log.commits.len(), 2);
    assert_eq!(log.commits[0].version, 0);
    assert_eq!(log.commits[1].version, 1);
}

#[test]
fn commit_conflict_when_removing_missing_file() {
    let mut t = DeltaTable::create(schema_xy(), 1);
    t.append_rows(vec![row(1, 1, 1)], 2).unwrap();
    // A stale writer tries to remove a file that was never added.
    let actions = vec![Action::RemoveFile { path: "part-999".to_string(), deletion_time: 3 }];
    let r = t.log.commit(Some(0), &actions, OperationKind::Delete, 3);
    assert_eq!(r, Err(DeltaError::Conflict));
}

#[test]
fn stats_are_exact_extremes() {
    let schema = schema_xy();
    let rows = vec![row(1, -5, 7), row(2, 3, -2), row(3, 9, 0)];
    let stats = compute_column_statistics(&schema, &rows);
    let x = stats.iter().find(|s| s.column == "x").unwrap();
    assert_eq!((x.min, x.max, x.null_count), (-5, 9, 0));
    let y = stats.iter().find(|s| s.column == "y").unwrap();
    assert_eq!((y.min, y.max, y.null_count), (-2, 7, 0));
}

#[test]
fn stats_count_nulls_and_skip_string_columns() {
    let schema = vec!["a".to_string(), "b".to_string()];
    let rows = vec![
        Row { key: 1, values: vec![Value::Null, Value::Str("s".to_string())] },
        Row { key: 2, values: vec![Value::Int(4), Value::Null] },
    ];
    let stats = compute_column_statistics(&schema, &rows);
    let a = stats.iter().find(|s| s.column == "a").unwrap();
    assert_eq!((a.min, a.max, a.null_count), (4, 4, 1));
    // Column b holds a string: it carries no summary.
    assert!(stats.iter().find(|s| s.column == "b").is_none());
}

#[test]
fn skip_soundness_boundary_values() {
    let schema = schema_xy();
    let file = fsdb::rows::DataFile {
        path: "part-0".to_string(),
        rows: vec![row(1, 1, 1), row(2, 10, 2)],
    };
    let fs = get_file_statistics(&file, &schema);
    // x ranges over [1, 10]: x > 10 is skippable, x > 9 is not.
    assert!(can_skip_file(&fs, &Predicate::Gt("x".to_string(), 10)));
    assert!(!can_skip_file(&fs, &Predicate::Gt("x".to_string(), 9)));
    assert!(can_skip_file(&fs, &Predicate::Lt("x".to_string(), 1)));
    assert!(!can_skip_file(&fs, &Predicate::Le("x".to_string(), 1)));
    assert!(can_skip_file(&fs, &Predicate::Eq("x".to_string(), 11)));
    assert!(can_skip_file(&fs, &Predicate::Eq("x".to_string(), 0)));
    assert!(!can_skip_file(&fs, &Predicate::Eq("x".to_string(), 10)));
    assert!(can_skip_file(&fs, &Predicate::IsNull("x".to_string())));
    assert!(!can_skip_file(&fs, &Predicate::IsNotNull("x".to_string())));
    // An unknown column never justifies a skip.
    assert!(!can_skip_file(&fs, &Predicate::Gt("z".to_string(), 100)));
    // AND skips if any conjunct skips; OR only if every disjunct skips.
    let a = Predicate::And(
        Box::new(Predicate::Gt("x".to_string(), 10)),
        Box::new(Predicate::Gt("y".to_string(), 0)),
    );
    assert!(can_skip_file(&fs, &a));
    let o = Predicate::Or(
        Box::new(Predicate::Gt("x".to_string(), 10)),
        Box::new(Predicate::Gt("y".to_string(), 0)),
    );
    assert!(!can_skip_file(&fs, &o));
    assert!(!can_skip_file(&fs, &Predicate::Unsupported));
}

#[test]
fn extract_predicates_degrades_on_unknown_shapes() {
    let schema = schema_xy();
    let file = fsdb::rows::DataFile { path: "part-0".to_string(), rows: vec![row(1, 5, 5)] };
    let fs = get_file_statistics(&file, &schema);
    let p = extract_predicates(&vec![
        FilterClause { column: "x".to_string(), op: FilterOp::Gt, value: 10 },
        FilterClause { column: "y".to_string(), op: FilterOp::Other, value: 0 },
    ]);
    // The recognized conjunct alone justifies the skip.
    assert!(can_skip_file(&fs, &p));
    let q = extract_predicates(&vec![FilterClause {
        column: "x".to_string(),
        op: FilterOp::Other,
        value: 0,
    }]);
    assert!(!can_skip_file(&fs, &q));
    let empty = extract_predicates(&vec![]);
    assert!(!can_skip_file(&fs, &empty));
}

#[test]
fn delete_rows_where_rewrites_only_matching_files() {
    let mut t = DeltaTable::create(schema_xy(), 1);
    t.append_rows(vec![row(1, 1, 1), row(2, 2, 2)], 2).unwrap();
    t.append_rows(vec![row(3, 50, 3)], 3).unwrap();
    let before = live_paths(&t);
    t.delete_rows_where(&Predicate::Ge("x".to_string(), 40), 4).unwrap();
    let after = live_paths(&t);
    // The file with small x values is untouched, under its old path.
    assert!(after.contains(&before[0]));
    assert!(!after.contains(&before[1]));
    assert_eq!(live_rows_sorted(&t).iter().map(|r| r.0).collect::<Vec<_>>(), vec![1, 2]);
}

#[test]
fn merge_updates_inserts_and_leaves_unmatched_files_alone() {
    // Target rows {1: "a", 2: "b"} in two files; source {1: "A", 3: "C"}.
    let mut t = DeltaTable::create(schema_v(), 1);
    t.append_rows(vec![srow(1, "a")], 2).unwrap();
    t.append_rows(vec![srow(2, "b")], 3).unwrap();
    let before = live_paths(&t);
    let mut b = MergeBuilder::new(vec![srow(1, "A"), srow(3, "C")]);
    b.when_matched_update(MatchedUpdateClause { condition: None });
    b.when_not_matched_insert(NotMatchedInsertClause { condition: None });
    let m = b.execute(&mut t, 4).unwrap();
    assert_eq!(m.rows_inserted, 1);
    let rows = live_rows_sorted(&t);
    assert_eq!(rows.len(), 3);
    assert_eq!(rows[0], (1, vec![Value::Str("A".to_string())]));
    assert_eq!(rows[1], (2, vec![Value::Str("b".to_string())]));
    assert_eq!(rows[2], (3, vec![Value::Str("C".to_string())]));
    // Row 2 was untouched and its containing file was not rewritten.
    let after = live_paths(&t);
    assert!(after.contains(&before[1]));
    assert!(!after.contains(&before[0]));
}

#[test]
fn merge_delete_clause_removes_matched_rows() {
    let mut t = DeltaTable::create(schema_v(), 1);
    t.append_rows(vec![srow(1, "a"), srow(2, "b")], 2).unwrap();
    let mut b = MergeBuilder::new(vec![srow(1, "ignored")]);
    b.when_matched_delete(fsdb::merge::MatchedDeleteClause { condition: None });
    b.execute(&mut t, 3).unwrap();
    let rows = live_rows_sorted(&t);
    assert_eq!(rows.len(), 1);
    assert_eq!(rows[0].0, 2);
}

#[test]
fn optimize_idempotent_on_compacted_table() {
    let mut t = DeltaTable::create(schema_xy(), 1);
    t.append_rows(vec![row(1, 1, 1), row(2, 2, 2), row(3, 3, 3)], 2).unwrap();
    // The one file holds 3 rows, at the target size already.
    let before_log = t.log.commits.len();
    let m = t.optimize_table(3, 3).unwrap();
    assert_eq!((m.files_removed, m.files_added, m.rows_compacted), (0, 0, 0));
    assert_eq!(t.log.commits.len(), before_log);
}

#[test]
fn optimize_compacts_small_files() {
    let mut t = DeltaTable::create(schema_xy(), 1);
    t.append_rows(vec![row(1, 1, 1)], 2).unwrap();
    t.append_rows(vec![row(2, 2, 2)], 3).unwrap();
    t.append_rows(vec![row(3, 3, 3), row(4, 4, 4), row(5, 5, 5)], 4).unwrap();
    let m = t.optimize_table(3, 5).unwrap();
    assert_eq!(m.files_removed, 2);
    assert_eq!(m.files_added, 1);
    assert_eq!(m.rows_compacted, 2);
    // All rows survive the compaction.
    assert_eq!(live_rows_sorted(&t).iter().map(|r| r.0).collect::<Vec<_>>(), vec![1, 2, 3, 4, 5]);
    // The compaction commit marks its additions as no logical data change.
    let last = t.log.commits.last().unwrap();
    for a in &last.actions {
        if let Action::AddFile { data_change, .. } = a {
            assert!(!data_change);
        }
    }
}

#[test]
fn vacuum_respects_retention_and_liveness() {
    let mut t = DeltaTable::create(schema_xy(), 1);
    t.append_rows(vec![row(1, 1, 1)], 2).unwrap();
    // Remove the file at time 5 (tombstone).
    t.delete_rows_where(&Predicate::Ge("x".to_string(), 0), 5).unwrap();
    // Before removal_time + threshold nothing is deleted.
    let dry_early = t.vacuum_dry_run(10, 14).unwrap();
    assert!(dry_early.is_empty());
    // At removal_time + threshold the file is deletable, and only then.
    let dry_late = t.vacuum_dry_run(10, 15).unwrap();
    assert_eq!(dry_late.len(), 1);
    let store_before = t.store.len();
    let deleted = t.vacuum_table(10, 15).unwrap();
    assert_eq!(deleted, dry_late);
    assert_eq!(t.store.len(), store_before - 1);
    // Live files are never vacuumed.
    let still_live = live_paths(&t);
    for p in &deleted {
        assert!(!still_live.contains(p));
    }
}

#[test]
fn vacuum_never_deletes_live_files() {
    let mut t = DeltaTable::create(schema_xy(), 1);
    t.append_rows(vec![row(1, 1, 1)], 2).unwrap();
    let deleted = t.vacuum_table(0, 1_000_000).unwrap();
    assert!(deleted.is_empty());
    assert_eq!(t.store.len(), 1);
}

#[test]
fn zorder_single_column_orders_file_ranges() {
    let mut t = DeltaTable::create(schema_xy(), 1);
    t.append_rows(vec![row(1, 9, 1), row(2, 2, 2)], 2).unwrap();
    t.append_rows(vec![row(3, 7, 3), row(4, 1, 4)], 3).unwrap();
    t.zorder_table(&vec!["x".to_string()], 2, 4).unwrap();
    let snap = t.log.read_snapshot(None).unwrap();
    assert_eq!(snap.len(), 2);
    // Output files, in creation order, have non-decreasing ranges on x.
    let mut entries = snap.clone();
    entries.sort_by(|a, b| a.path.cmp(&b.path));
    let stats: Vec<(i64, i64)> = entries
        .iter()
        .map(|e| {
            let s = e.columns.iter().find(|c| c.column == "x").unwrap();
            (s.min, s.max)
        })
        .collect();
    assert!(stats[0].0 <= stats[1].0);
    assert!(stats[0].1 <= stats[1].1);
    assert!(stats[0].1 <= stats[1].0);
    // All rows survive, re-clustered.
    assert_eq!(live_rows_sorted(&t).len(), 4);
}

#[test]
fn zorder_two_columns_preserves_rows() {
    let mut t = DeltaTable::create(schema_xy(), 1);
    t.append_rows(vec![row(1, 3, 9), row(2, 1, 1), row(3, 9, 3)], 2).unwrap();
    t.zorder_table(&vec!["x".to_string(), "y".to_string()], 2, 3).unwrap();
    assert_eq!(live_rows_sorted(&t).iter().map(|r| r.0).collect::<Vec<_>>(), vec![1, 2, 3]);
}

#[test]
fn column_statistics_come_back_from_the_log() {
    let mut t = DeltaTable::create(schema_xy(), 1);
    t.append_rows(vec![row(1, -3, 8)], 2).unwrap();
    let path = live_paths(&t)[0].clone();
    let cols = t.log.get_column_statistics_from_delta(&path).unwrap();
    let x = cols.iter().find(|c| c.column == "x").unwrap();
    assert_eq!((x.min, x.max), (-3, -3));
    assert!(t.log.get_column_statistics_from_delta(&"part-999".to_string()).is_none());
}

#[test]
fn time_travel_snapshot_reflects_old_version() {
    let mut t = DeltaTable::create(schema_xy(), 1);
    let v1 = t.append_rows(vec![row(1, 1, 1)], 2).unwrap();
    t.append_rows(vec![row(2, 2, 2)], 3).unwrap();
    let old = t.log.read_snapshot(Some(v1)).unwrap();
    assert_eq!(old.len(), 1);
    let latest = t.log.read_snapshot(None).unwrap();
    assert_eq!(latest.len(), 2);
}

#[test]
fn skip_ne_when_all_values_equal() {
    let schema = schema_xy();
    let file = fsdb::rows::DataFile {
        path: "part-0".to_string(),
        rows: vec![row(1, 5, 1), row(2, 5, 2)],
    };
    let fs = get_file_statistics(&file, &schema);
    assert!(can_skip_file(&fs, &Predicate::Ne("x".to_string(), 5)));
    assert!(!can_skip_file(&fs, &Predicate::Ne("x".to_string(), 4)));
}

#[test]
fn delete_rows_where_is_null() {
    let mut t = DeltaTable::create(schema_xy(), 1);
    t.append_rows(
        vec![row(1, 1, 1), Row { key: 2, values: vec![Value::Null, Value::Int(9)] }],
        2,
    )
    .unwrap();
    t.delete_rows_where(&Predicate::IsNull("x".to_string()), 3).unwrap();
    let rows = live_rows_sorted(&t);
    assert_eq!(rows.len(), 1);
    assert_eq!(rows[0].0, 1);
}

#[test]
fn merge_clause_condition_filters_matches() {
    let mut t = DeltaTable::create(schema_xy(), 1);
    t.append_rows(vec![row(1, 1, 1), row(2, 2, 2)], 2).unwrap();
    // Only delete matched rows whose source carries x >= 10.
    let mut b = MergeBuilder::new(vec![row(1, 5, 5), row(2, 20, 20)]);
    b.when_matched_delete(fsdb::merge::MatchedDeleteClause {
        condition: Some(Predicate::Ge("x".to_string(), 10)),
    });
    b.execute(&mut t, 3).unwrap();
    let rows = live_rows_sorted(&t);
    assert_eq!(rows.iter().map(|r| r.0).collect::<Vec<_>>(), vec![1]);
}

#[test]
fn read_window_clamps_and_reports_eof() {
    let content: Vec<u8> = vec![10, 20, 30, 40, 50];
    let (data, eof) = fsdb::fileview::read_window(&content, 1, 3);
    assert_eq!(data, vec![20, 30, 40]);
    assert!(!eof);
    let (tail, eof2) = fsdb::fileview::read_window(&content, 3, 10);
    assert_eq!(tail, vec![40, 50]);
    assert!(eof2);
    let (empty, eof3) = fsdb::fileview::read_window(&content, 9, 4);
    assert!(empty.is_empty());
    assert!(eof3);
}

#[test]
fn merge_metrics_count_rows_and_files() {
    let mut t = DeltaTable::create(schema_v(), 1);
    t.append_rows(vec![srow(1, "a"), srow(2, "b")], 2).unwrap();
    let mut b = MergeBuilder::new(vec![srow(1, "A"), srow(3, "C")]);
    b.when_matched_update(MatchedUpdateClause { condition: None });
    b.when_not_matched_insert(NotMatchedInsertClause { condition: None });
    let m = b.execute(&mut t, 3).unwrap();
    assert_eq!(m.rows_updated, 1);
    assert_eq!(m.rows_deleted, 0);
    assert_eq!(m.rows_inserted, 1);
    assert_eq!(m.files_removed, 1);
    // One rewritten file and one insert file.
    assert_eq!(m.files_added, 2);
    // Two surviving rows of the rewritten file plus one inserted row.
    assert_eq!(m.bytes_written, 3);
}

#[test]
fn merge_writes_updated_rows_even_when_all_files_match() {
    // Every target file is matched: the rewritten outputs must still exist.
    let mut t = DeltaTable::create(schema_v(), 1);
    t.append_rows(vec![srow(1, "a")], 2).unwrap();
    let mut b = MergeBuilder::new(vec![srow(1, "A")]);
    b.when_matched_update(MatchedUpdateClause { condition: None });
    b.execute(&mut t, 3).unwrap();
    let rows = live_rows_sorted(&t);
    assert_eq!(rows, vec![(1, vec![Value::Str("A".to_string())])]);
}

#[test]
fn delete_keeps_surviving_rows_in_a_new_file() {
    let mut t = DeltaTable::create(schema_xy(), 1);
    t.append_rows(vec![row(1, 1, 1), row(2, 2, 2), row(3, 30, 3)], 2).unwrap();
    t.delete_rows_where(&Predicate::Ge("x".to_string(), 10), 3).unwrap();
    assert_eq!(live_rows_sorted(&t).iter().map(|r| r.0).collect::<Vec<_>>(), vec![1, 2]);
}

#[test]
fn optimize_bin_packs_to_target_size() {
    let mut t = DeltaTable::create(schema_xy(), 1);
    t.append_rows(vec![row(1, 1, 1)], 2).unwrap();
    t.append_rows(vec![row(2, 2, 2)], 3).unwrap();
    t.append_rows(vec![row(3, 3, 3)], 4).unwrap();
    t.append_rows(vec![row(4, 4, 4)], 5).unwrap();
    let m = t.optimize_table(2, 6).unwrap();
    assert_eq!(m.files_removed, 4);
    // Four gathered rows split into files of the target size.
    assert_eq!(m.files_added, 2);
    assert_eq!(m.rows_compacted, 4);
    let snap = t.log.read_snapshot(None).unwrap();
    assert_eq!(snap.len(), 2);
    for e in &snap {
        assert_eq!(e.row_count, 2);
    }
    assert_eq!(live_rows_sorted(&t).iter().map(|r| r.0).collect::<Vec<_>>(), vec![1, 2, 3, 4]);
}
