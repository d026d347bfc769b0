use vstd::prelude::*;

use crate::rows::{cell_value, row_wf, schema_view, Row, RowV, Value, ValueV};
use crate::stats::{cell_within, lemma_null_count_all, lemma_null_count_zero, null_count_of,
    stat_valid, stats_valid, ColumnStats, ColumnStatsV, FileStats, FileStatsV};

verus! {

/// A predicate tree over named columns: comparisons against integer
/// constants, null tests, conjunction and disjunction. `Unsupported` stands
/// for any shape the planner emits that this engine does not understand; it
/// never justifies skipping a file.
#[derive(Debug, PartialEq, Eq)]
pub enum Predicate {
    Eq(String, i64),
    Ne(String, i64),
    Lt(String, i64),
    Le(String, i64),
    Gt(String, i64),
    Ge(String, i64),
    IsNull(String),
    IsNotNull(String),
    And(Box<Predicate>, Box<Predicate>),
    Or(Box<Predicate>, Box<Predicate>),
    Unsupported,
}

/// Whether a row satisfies a predicate. A null or string cell satisfies no
/// integer comparison; `Unsupported` is treated as possibly matching every
/// row, so it can never exclude one.
pub open spec fn sat(p: Predicate, schema: Seq<Seq<char>>, row: RowV) -> bool
    decreases p,
{
    match p {
        Predicate::Eq(c, k) => cell_value(schema, row.values, c@) == ValueV::Int(k),
        Predicate::Ne(c, k) => match cell_value(schema, row.values, c@) {
            ValueV::Int(x) => x != k,
            _ => false,
        },
        Predicate::Lt(c, k) => match cell_value(schema, row.values, c@) {
            ValueV::Int(x) => x < k,
            _ => false,
        },
        Predicate::Le(c, k) => match cell_value(schema, row.values, c@) {
            ValueV::Int(x) => x <= k,
            _ => false,
        },
        Predicate::Gt(c, k) => match cell_value(schema, row.values, c@) {
            ValueV::Int(x) => x > k,
            _ => false,
        },
        Predicate::Ge(c, k) => match cell_value(schema, row.values, c@) {
            ValueV::Int(x) => x >= k,
            _ => false,
        },
        Predicate::IsNull(c) => cell_value(schema, row.values, c@) is Null,
        Predicate::IsNotNull(c) => !(cell_value(schema, row.values, c@) is Null),
        Predicate::And(a, b) => sat(*a, schema, row) && sat(*b, schema, row),
        Predicate::Or(a, b) => sat(*a, schema, row) || sat(*b, schema, row),
        Predicate::Unsupported => true,
    }
}

/// The first recorded summary for a named column, if any.
pub open spec fn stat_for(cols: Seq<ColumnStatsV>, name: Seq<char>) -> Option<ColumnStatsV>
    decreases cols.len(),
{
    if cols.len() == 0 {
        None
    } else if cols[0].column == name {
        Some(cols[0])
    } else {
        stat_for(cols.drop_first(), name)
    }
}

/// A summary found by name is one of the recorded summaries.
pub proof fn lemma_stat_for_mem(cols: Seq<ColumnStatsV>, name: Seq<char>)
    requires
        stat_for(cols, name) is Some,
    ensures
        exists|j: int|
            0 <= j < cols.len() && cols[j] == stat_for(cols, name).unwrap() && cols[j].column
                == name,
    decreases cols.len(),
{
    if cols[0].column == name {
        assert(cols[0] == stat_for(cols, name).unwrap());
    } else {
        lemma_stat_for_mem(cols.drop_first(), name);
        let j = choose|j: int|
            0 <= j < cols.drop_first().len() && cols.drop_first()[j] == stat_for(
                cols.drop_first(),
                name,
            ).unwrap() && cols.drop_first()[j].column == name;
        assert(cols[j + 1] == stat_for(cols, name).unwrap());
    }
}

/// The skip decision over a file summary: true only when the statistics prove
/// the predicate false for every row the file could contain.
pub open spec fn spec_can_skip(fs: FileStatsV, p: Predicate) -> bool
    decreases p,
{
    match p {
        Predicate::Eq(c, k) => match stat_for(fs.columns, c@) {
            Some(st) => k < st.min || k > st.max,
            None => false,
        },
        Predicate::Ne(c, k) => match stat_for(fs.columns, c@) {
            Some(st) => st.min == k && st.max == k && st.null_count == 0,
            None => false,
        },
        Predicate::Lt(c, k) => match stat_for(fs.columns, c@) {
            Some(st) => st.min >= k,
            None => false,
        },
        Predicate::Le(c, k) => match stat_for(fs.columns, c@) {
            Some(st) => st.min > k,
            None => false,
        },
        Predicate::Gt(c, k) => match stat_for(fs.columns, c@) {
            Some(st) => st.max <= k,
            None => false,
        },
        Predicate::Ge(c, k) => match stat_for(fs.columns, c@) {
            Some(st) => st.max < k,
            None => false,
        },
        Predicate::IsNull(c) => match stat_for(fs.columns, c@) {
            Some(st) => st.null_count == 0,
            None => false,
        },
        Predicate::IsNotNull(c) => match stat_for(fs.columns, c@) {
            Some(st) => st.null_count == fs.row_count,
            None => false,
        },
        Predicate::And(a, b) => spec_can_skip(fs, *a) || spec_can_skip(fs, *b),
        Predicate::Or(a, b) => spec_can_skip(fs, *a) && spec_can_skip(fs, *b),
        Predicate::Unsupported => false,
    }
}

/// Finds the first recorded summary for a column.
fn find_stat<'a>(cols: &'a Vec<ColumnStats>, name: &String) -> (r: Option<&'a ColumnStats>)
    ensures
        match r {
            Some(st) => stat_for(cols@.map_values(|c: ColumnStats| c@), name@) == Some(st@),
            None => stat_for(cols@.map_values(|c: ColumnStats| c@), name@) is None,
        },
{
    let ghost cv = cols@.map_values(|c: ColumnStats| c@);
    proof {
        assert(cv.skip(0) =~= cv);
    }
    let mut i: usize = 0;
    while i < cols.len()
        invariant
            i <= cols.len(),
            cv == cols@.map_values(|c: ColumnStats| c@),
            stat_for(cv, name@) == stat_for(cv.skip(i as int), name@),
        decreases cols.len() - i,
    {
        proof {
            assert(cv.skip(i as int).drop_first() =~= cv.skip(i + 1));
            assert(cv.skip(i as int)[0] == cv[i as int]);
            assert(cv[i as int] == cols@[i as int]@);
        }
        if cols[i].column == *name {
            proof {
                assert(stat_for(cv.skip(i as int), name@) == Some(cv[i as int]));
            }
            return Some(&cols[i]);
        }
        i = i + 1;
    }
    proof {
        assert(cv.skip(cv.len() as int).len() == 0);
    }
    None
}

/// Decides whether a file can be excluded from a scan: true only when the
/// predicate is provably false for every row the file's statistics could
/// bound. Evaluation never fails; unsupported shapes return false.
pub fn can_skip_file(stats: &FileStats, pred: &Predicate) -> (b: bool)
    ensures
        b == spec_can_skip(stats@, *pred),
    decreases *pred,
{
    match pred {
        Predicate::Eq(c, k) => match find_stat(&stats.columns, c) {
            Some(st) => *k < st.min || *k > st.max,
            None => false,
        },
        Predicate::Ne(c, k) => match find_stat(&stats.columns, c) {
            Some(st) => st.min == *k && st.max == *k && st.null_count == 0,
            None => false,
        },
        Predicate::Lt(c, k) => match find_stat(&stats.columns, c) {
            Some(st) => st.min >= *k,
            None => false,
        },
        Predicate::Le(c, k) => match find_stat(&stats.columns, c) {
            Some(st) => st.min > *k,
            None => false,
        },
        Predicate::Gt(c, k) => match find_stat(&stats.columns, c) {
            Some(st) => st.max <= *k,
            None => false,
        },
        Predicate::Ge(c, k) => match find_stat(&stats.columns, c) {
            Some(st) => st.max < *k,
            None => false,
        },
        Predicate::IsNull(c) => match find_stat(&stats.columns, c) {
            Some(st) => st.null_count == 0,
            None => false,
        },
        Predicate::IsNotNull(c) => match find_stat(&stats.columns, c) {
            Some(st) => st.null_count == stats.row_count,
            None => false,
        },
        Predicate::And(a, b) => can_skip_file(stats, a) || can_skip_file(stats, b),
        Predicate::Or(a, b) => can_skip_file(stats, a) && can_skip_file(stats, b),
        Predicate::Unsupported => false,
    }
}

/// Skip soundness: when the statistics of a file are valid for its rows and
/// the skip decision is positive, no row of the file satisfies the predicate.
/// A skipped file therefore never hides a matching row.
pub proof fn lemma_skip_soundness(
    fs: FileStatsV,
    schema: Seq<Seq<char>>,
    rows: Seq<RowV>,
    p: Predicate,
)
    requires
        stats_valid(fs, schema, rows),
        spec_can_skip(fs, p),
    ensures
        forall|i: int| 0 <= i < rows.len() ==> !sat(p, schema, #[trigger] rows[i]),
    decreases p,
{
    match p {
        Predicate::Eq(c, k) => {
            lemma_stat_for_mem(fs.columns, c@);
            let st = stat_for(fs.columns, c@).unwrap();
            assert forall|i: int| 0 <= i < rows.len() implies !sat(p, schema, #[trigger] rows[i]) by {
                assert(cell_within(st, cell_value(schema, rows[i].values, c@)));
            }
        },
        Predicate::Ne(c, k) => {
            lemma_stat_for_mem(fs.columns, c@);
            let st = stat_for(fs.columns, c@).unwrap();
            assert forall|i: int| 0 <= i < rows.len() implies !sat(p, schema, #[trigger] rows[i]) by {
                assert(cell_within(st, cell_value(schema, rows[i].values, c@)));
            }
        },
        Predicate::Lt(c, k) => {
            lemma_stat_for_mem(fs.columns, c@);
            let st = stat_for(fs.columns, c@).unwrap();
            assert forall|i: int| 0 <= i < rows.len() implies !sat(p, schema, #[trigger] rows[i]) by {
                assert(cell_within(st, cell_value(schema, rows[i].values, c@)));
            }
        },
        Predicate::Le(c, k) => {
            lemma_stat_for_mem(fs.columns, c@);
            let st = stat_for(fs.columns, c@).unwrap();
            assert forall|i: int| 0 <= i < rows.len() implies !sat(p, schema, #[trigger] rows[i]) by {
                assert(cell_within(st, cell_value(schema, rows[i].values, c@)));
            }
        },
        Predicate::Gt(c, k) => {
            lemma_stat_for_mem(fs.columns, c@);
            let st = stat_for(fs.columns, c@).unwrap();
            assert forall|i: int| 0 <= i < rows.len() implies !sat(p, schema, #[trigger] rows[i]) by {
                assert(cell_within(st, cell_value(schema, rows[i].values, c@)));
            }
        },
        Predicate::Ge(c, k) => {
            lemma_stat_for_mem(fs.columns, c@);
            let st = stat_for(fs.columns, c@).unwrap();
            assert forall|i: int| 0 <= i < rows.len() implies !sat(p, schema, #[trigger] rows[i]) by {
                assert(cell_within(st, cell_value(schema, rows[i].values, c@)));
            }
        },
        Predicate::IsNull(c) => {
            lemma_stat_for_mem(fs.columns, c@);
            let st = stat_for(fs.columns, c@).unwrap();
            assert forall|i: int| 0 <= i < rows.len() implies !sat(p, schema, #[trigger] rows[i]) by {
                lemma_null_count_zero(schema, rows, c@, i);
            }
        },
        Predicate::IsNotNull(c) => {
            lemma_stat_for_mem(fs.columns, c@);
            let st = stat_for(fs.columns, c@).unwrap();
            assert forall|i: int| 0 <= i < rows.len() implies !sat(p, schema, #[trigger] rows[i]) by {
                lemma_null_count_all(schema, rows, c@, i);
            }
        },
        Predicate::And(a, b) => {
            if spec_can_skip(fs, *a) {
                lemma_skip_soundness(fs, schema, rows, *a);
            } else {
                lemma_skip_soundness(fs, schema, rows, *b);
            }
        },
        Predicate::Or(a, b) => {
            lemma_skip_soundness(fs, schema, rows, *a);
            lemma_skip_soundness(fs, schema, rows, *b);
        },
        Predicate::Unsupported => {},
    }
}

/// The rows of a file that survive deleting every row a predicate matches,
/// in their original order.
pub open spec fn keep_rows(sv: Seq<Seq<char>>, rows: Seq<RowV>, p: Predicate) -> Seq<RowV>
    decreases rows.len(),
{
    if rows.len() == 0 {
        Seq::empty()
    } else if sat(p, sv, rows.last()) {
        keep_rows(sv, rows.drop_last(), p)
    } else {
        keep_rows(sv, rows.drop_last(), p).push(rows.last())
    }
}

/// Filtering never grows a file.
pub proof fn lemma_keep_rows_len(sv: Seq<Seq<char>>, rows: Seq<RowV>, p: Predicate)
    ensures
        keep_rows(sv, rows, p).len() <= rows.len(),
    decreases rows.len(),
{
    if rows.len() > 0 {
        lemma_keep_rows_len(sv, rows.drop_last(), p);
    }
}

/// A file keeps its full length exactly when no row matched, and then the
/// filtered rows are the original rows.
pub proof fn lemma_keep_rows_all(sv: Seq<Seq<char>>, rows: Seq<RowV>, p: Predicate)
    ensures
        keep_rows(sv, rows, p).len() == rows.len() <==> keep_rows(sv, rows, p) == rows,
    decreases rows.len(),
{
    if rows.len() == 0 {
        assert(keep_rows(sv, rows, p) =~= rows);
    } else {
        lemma_keep_rows_all(sv, rows.drop_last(), p);
        lemma_keep_rows_len(sv, rows.drop_last(), p);
        if sat(p, sv, rows.last()) {
        } else {
            if keep_rows(sv, rows, p).len() == rows.len() {
                assert(keep_rows(sv, rows.drop_last(), p) == rows.drop_last());
                assert(keep_rows(sv, rows, p) =~= rows);
            }
        }
    }
}


/// Every row that survives filtering is one of the original rows.
pub proof fn lemma_keep_rows_mem(sv: Seq<Seq<char>>, rows: Seq<RowV>, p: Predicate, ii: int)
    requires
        0 <= ii < keep_rows(sv, rows, p).len(),
    ensures
        exists|s: int| 0 <= s < rows.len() && rows[s] == keep_rows(sv, rows, p)[ii],
    decreases rows.len(),
{
    if rows.len() > 0 {
        if sat(p, sv, rows.last()) {
            lemma_keep_rows_mem(sv, rows.drop_last(), p, ii);
            let s = choose|s: int|
                0 <= s < rows.drop_last().len() && rows.drop_last()[s] == keep_rows(
                    sv,
                    rows.drop_last(),
                    p,
                )[ii];
            assert(rows[s] == keep_rows(sv, rows, p)[ii]);
        } else {
            if ii < keep_rows(sv, rows.drop_last(), p).len() {
                lemma_keep_rows_mem(sv, rows.drop_last(), p, ii);
                let s = choose|s: int|
                    0 <= s < rows.drop_last().len() && rows.drop_last()[s] == keep_rows(
                        sv,
                        rows.drop_last(),
                        p,
                    )[ii];
                assert(rows[s] == keep_rows(sv, rows, p)[ii]);
            } else {
                assert(rows[rows.len() - 1] == keep_rows(sv, rows, p)[ii]);
            }
        }
    }
}

/// When no row satisfies the predicate, filtering keeps every row.
pub proof fn lemma_keep_rows_nosat(sv: Seq<Seq<char>>, rows: Seq<RowV>, p: Predicate)
    requires
        forall|i: int| 0 <= i < rows.len() ==> !sat(p, sv, #[trigger] rows[i]),
    ensures
        keep_rows(sv, rows, p) == rows,
    decreases rows.len(),
{
    if rows.len() > 0 {
        assert(forall|i: int|
            0 <= i < rows.drop_last().len() ==> rows.drop_last()[i] == rows[i]);
        lemma_keep_rows_nosat(sv, rows.drop_last(), p);
        assert(!sat(p, sv, rows[rows.len() - 1]));
        assert(keep_rows(sv, rows, p) =~= rows);
    }
}

/// One comparison handed over by the query planner. `Other` marks a shape
/// outside the comparisons this engine understands.
#[derive(Clone, Copy, Debug, PartialEq, Eq, Structural)]
pub enum FilterOp {
    Eq,
    Ne,
    Lt,
    Le,
    Gt,
    Ge,
    IsNull,
    IsNotNull,
    Other,
}

/// One conjunct of a caller-supplied filter: a column, a comparison, and an
/// integer constant (ignored by the null tests).
#[derive(Clone, Debug, PartialEq, Eq)]
pub struct FilterClause {
    pub column: String,
    pub op: FilterOp,
    pub value: i64,
}

/// The predicate a single filter clause denotes.
pub open spec fn spec_translate(c: FilterClause) -> Predicate {
    match c.op {
        FilterOp::Eq => Predicate::Eq(c.column, c.value),
        FilterOp::Ne => Predicate::Ne(c.column, c.value),
        FilterOp::Lt => Predicate::Lt(c.column, c.value),
        FilterOp::Le => Predicate::Le(c.column, c.value),
        FilterOp::Gt => Predicate::Gt(c.column, c.value),
        FilterOp::Ge => Predicate::Ge(c.column, c.value),
        FilterOp::IsNull => Predicate::IsNull(c.column),
        FilterOp::IsNotNull => Predicate::IsNotNull(c.column),
        FilterOp::Other => Predicate::Unsupported,
    }
}

/// Whether a row satisfies the conjunction of all filter clauses.
pub open spec fn clauses_sat(clauses: Seq<FilterClause>, schema: Seq<Seq<char>>, row: RowV) -> bool
    decreases clauses.len(),
{
    if clauses.len() == 0 {
        true
    } else {
        sat(spec_translate(clauses[0]), schema, row) && clauses_sat(
            clauses.drop_first(),
            schema,
            row,
        )
    }
}

/// Translates one clause into a predicate node.
fn translate_clause(c: &FilterClause) -> (p: Predicate)
    ensures
        p == spec_translate(*c),
{
    match c.op {
        FilterOp::Eq => Predicate::Eq(c.column.clone(), c.value),
        FilterOp::Ne => Predicate::Ne(c.column.clone(), c.value),
        FilterOp::Lt => Predicate::Lt(c.column.clone(), c.value),
        FilterOp::Le => Predicate::Le(c.column.clone(), c.value),
        FilterOp::Gt => Predicate::Gt(c.column.clone(), c.value),
        FilterOp::Ge => Predicate::Ge(c.column.clone(), c.value),
        FilterOp::IsNull => Predicate::IsNull(c.column.clone()),
        FilterOp::IsNotNull => Predicate::IsNotNull(c.column.clone()),
        FilterOp::Other => Predicate::Unsupported,
    }
}

/// Builds the conjunction of the clauses from position `i` on.
fn extract_from(clauses: &Vec<FilterClause>, i: usize) -> (p: Predicate)
    requires
        i <= clauses@.len(),
    ensures
        forall|schema: Seq<Seq<char>>, row: RowV|
            #[trigger] sat(p, schema, row) == clauses_sat(clauses@.skip(i as int), schema, row),
    decreases clauses@.len() - i,
{
    if i == clauses.len() {
        proof {
            assert(clauses@.skip(i as int).len() == 0);
        }
        Predicate::Unsupported
    } else if i + 1 == clauses.len() {
        let p = translate_clause(&clauses[i]);
        proof {
            assert forall|schema: Seq<Seq<char>>, row: RowV| #[trigger] sat(p, schema, row)
                == clauses_sat(clauses@.skip(i as int), schema, row) by {
                assert(clauses@.skip(i as int)[0] == clauses@[i as int]);
                assert(clauses@.skip(i as int).drop_first() =~= clauses@.skip(i + 1));
                assert(clauses@.skip(i + 1).len() == 0);
                assert(clauses_sat(clauses@.skip(i + 1), schema, row));
            }
        }
        p
    } else {
        let head = translate_clause(&clauses[i]);
        let rest = extract_from(clauses, i + 1);
        let p = Predicate::And(Box::new(head), Box::new(rest));
        proof {
            assert forall|schema: Seq<Seq<char>>, row: RowV| #[trigger] sat(p, schema, row)
                == clauses_sat(clauses@.skip(i as int), schema, row) by {
                assert(clauses@.skip(i as int)[0] == clauses@[i as int]);
                assert(clauses@.skip(i as int).drop_first() =~= clauses@.skip(i + 1));
                assert(sat(p, schema, row) == (sat(head, schema, row) && sat(rest, schema, row)));
                assert(clauses_sat(clauses@.skip(i as int), schema, row) == (sat(
                    spec_translate(clauses@.skip(i as int)[0]),
                    schema,
                    row,
                ) && clauses_sat(clauses@.skip(i as int).drop_first(), schema, row)));
            }
        }
        p
    }
}

/// Translates a caller-supplied filter into the predicate tree consumed by
/// the skip decision: the conjunction of its clauses, with any unrecognized
/// shape degrading to a node that never skips. Translation never fails.
pub fn extract_predicates(clauses: &Vec<FilterClause>) -> (p: Predicate)
    ensures
        forall|schema: Seq<Seq<char>>, row: RowV|
            #[trigger] sat(p, schema, row) == clauses_sat(clauses@, schema, row),
{
    let p = extract_from(clauses, 0);
    proof {
        assert(clauses@.skip(0) =~= clauses@);
    }
    p
}

/// Evaluates a predicate on one row.
pub fn eval_predicate(schema: &Vec<String>, row: &Row, p: &Predicate) -> (b: bool)
    requires
        row_wf(*row, schema@),
    ensures
        b == sat(*p, schema_view(schema@), row@),
    decreases *p,
{
    match p {
        Predicate::Eq(c, k) => match eval_cell(schema, row, c) {
            Value::Int(x) => x == *k,
            _ => false,
        },
        Predicate::Ne(c, k) => match eval_cell(schema, row, c) {
            Value::Int(x) => x != *k,
            _ => false,
        },
        Predicate::Lt(c, k) => match eval_cell(schema, row, c) {
            Value::Int(x) => x < *k,
            _ => false,
        },
        Predicate::Le(c, k) => match eval_cell(schema, row, c) {
            Value::Int(x) => x <= *k,
            _ => false,
        },
        Predicate::Gt(c, k) => match eval_cell(schema, row, c) {
            Value::Int(x) => x > *k,
            _ => false,
        },
        Predicate::Ge(c, k) => match eval_cell(schema, row, c) {
            Value::Int(x) => x >= *k,
            _ => false,
        },
        Predicate::IsNull(c) => match eval_cell(schema, row, c) {
            Value::Null => true,
            _ => false,
        },
        Predicate::IsNotNull(c) => match eval_cell(schema, row, c) {
            Value::Null => false,
            _ => true,
        },
        Predicate::And(a, b) => eval_predicate(schema, row, a) && eval_predicate(schema, row, b),
        Predicate::Or(a, b) => eval_predicate(schema, row, a) || eval_predicate(schema, row, b),
        Predicate::Unsupported => true,
    }
}

/// Reads the cell a row holds for a named column.
pub(crate) fn eval_cell(schema: &Vec<String>, row: &Row, name: &String) -> (v: Value)
    requires
        row_wf(*row, schema@),
    ensures
        v@ == cell_value(schema_view(schema@), row@.values, name@),
{
    let ghost sv = schema_view(schema@);
    let ghost vals = row@.values;
    proof {
        assert(sv.skip(0) =~= sv);
        assert(vals.skip(0) =~= vals);
    }
    let mut i: usize = 0;
    while i < schema.len()
        invariant
            i <= schema.len(),
            sv == schema_view(schema@),
            vals == row@.values,
            vals.len() == sv.len(),
            row_wf(*row, schema@),
            cell_value(sv, vals, name@) == cell_value(sv.skip(i as int), vals.skip(i as int), name@),
        decreases schema.len() - i,
    {
        proof {
            assert(sv.skip(i as int).drop_first() =~= sv.skip(i + 1));
            assert(vals.skip(i as int).drop_first() =~= vals.skip(i + 1));
            assert(sv.skip(i as int)[0] == sv[i as int]);
            assert(vals.skip(i as int)[0] == vals[i as int]);
            assert(sv[i as int] == schema@[i as int]@);
        }
        if schema[i] == *name {
            let v = crate::rows::clone_value(&row.values[i]);
            proof {
                assert(vals[i as int] == row.values@[i as int]@);
            }
            return v;
        }
        i = i + 1;
    }
    proof {
        assert(sv.skip(sv.len() as int).len() == 0);
    }
    Value::Null
}

} // verus!
