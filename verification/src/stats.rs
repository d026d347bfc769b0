use vstd::prelude::*;

use crate::rows::{cell_value, lemma_cell_value_at, row_wf, rows_view, schema_distinct, schema_view,
    DataFile, Row, RowV, Value, ValueV};

verus! {

/// Exact min/max/null-count summary for one column of one file, computed when
/// the file is written. A summary is recorded only for columns whose cells are
/// all integers or nulls.
#[derive(Clone, Debug, PartialEq, Eq)]
pub struct ColumnStats {
    pub column: String,
    pub min: i64,
    pub max: i64,
    pub null_count: u64,
}

/// The mathematical shape of a `ColumnStats`.
#[verifier::ext_equal]
pub struct ColumnStatsV {
    pub column: Seq<char>,
    pub min: i64,
    pub max: i64,
    pub null_count: u64,
}

impl View for ColumnStats {
    type V = ColumnStatsV;

    open spec fn view(&self) -> ColumnStatsV {
        ColumnStatsV {
            column: self.column@,
            min: self.min,
            max: self.max,
            null_count: self.null_count,
        }
    }
}

/// Per-file summary as registered in the log: path, size, row count, the
/// range of the join key, and the per-column statistics.
#[derive(Clone, Debug, PartialEq, Eq)]
pub struct FileStats {
    pub path: String,
    pub size: u64,
    pub row_count: u64,
    pub key_min: i64,
    pub key_max: i64,
    pub columns: Vec<ColumnStats>,
}

/// The mathematical shape of a `FileStats`.
#[verifier::ext_equal]
pub struct FileStatsV {
    pub path: Seq<char>,
    pub size: u64,
    pub row_count: u64,
    pub key_min: i64,
    pub key_max: i64,
    pub columns: Seq<ColumnStatsV>,
}

impl View for FileStats {
    type V = FileStatsV;

    open spec fn view(&self) -> FileStatsV {
        FileStatsV {
            path: self.path@,
            size: self.size,
            row_count: self.row_count,
            key_min: self.key_min,
            key_max: self.key_max,
            columns: self.columns@.map_values(|c: ColumnStats| c@),
        }
    }
}

/// The view of a sequence of file summaries.
pub open spec fn files_view(s: Seq<FileStats>) -> Seq<FileStatsV> {
    s.map_values(|f: FileStats| f@)
}

/// A cell is within a column summary when it is null or an integer inside the
/// recorded range. A string cell is never within a summary.
pub open spec fn cell_within(st: ColumnStatsV, v: ValueV) -> bool {
    match v {
        ValueV::Null => true,
        ValueV::Int(x) => st.min <= x && x <= st.max,
        ValueV::Str(_) => false,
    }
}

/// How many rows hold a null cell for the named column.
pub open spec fn null_count_of(schema: Seq<Seq<char>>, rows: Seq<RowV>, name: Seq<char>) -> int
    decreases rows.len(),
{
    if rows.len() == 0 {
        0
    } else {
        null_count_of(schema, rows.drop_last(), name) + if cell_value(
            schema,
            rows.last().values,
            name,
        ) is Null {
            1int
        } else {
            0int
        }
    }
}

/// A column summary is valid for a file's rows when every cell of its column
/// is within the recorded range and the null count is exact.
pub open spec fn stat_valid(st: ColumnStatsV, schema: Seq<Seq<char>>, rows: Seq<RowV>) -> bool {
    &&& forall|i: int|
        0 <= i < rows.len() ==> cell_within(st, cell_value(schema, rows[i].values, st.column))
    &&& st.null_count == null_count_of(schema, rows, st.column)
}

/// A column summary is exact when its extremes are attained: they are the
/// observed minimum and maximum, not estimates.
pub open spec fn stat_exact(st: ColumnStatsV, schema: Seq<Seq<char>>, rows: Seq<RowV>) -> bool {
    st.null_count < rows.len() ==> {
        &&& exists|i: int|
            0 <= i < rows.len() && cell_value(schema, rows[i].values, st.column) == ValueV::Int(
                st.min,
            )
        &&& exists|i: int|
            0 <= i < rows.len() && cell_value(schema, rows[i].values, st.column) == ValueV::Int(
                st.max,
            )
    }
}

/// A file summary is valid for the rows the file holds: the row count is
/// exact, the key range bounds every key, and each column summary is valid.
pub open spec fn stats_valid(fs: FileStatsV, schema: Seq<Seq<char>>, rows: Seq<RowV>) -> bool {
    &&& fs.row_count == rows.len()
    &&& forall|i: int| 0 <= i < rows.len() ==> fs.key_min <= #[trigger] rows[i].key <= fs.key_max
    &&& forall|j: int|
        0 <= j < fs.columns.len() ==> stat_valid(#[trigger] fs.columns[j], schema, rows)
}

/// A file summary is exact when the key range and every column range are
/// attained by some row.
pub open spec fn stats_exact(fs: FileStatsV, schema: Seq<Seq<char>>, rows: Seq<RowV>) -> bool {
    &&& rows.len() > 0 ==> (exists|i: int| 0 <= i < rows.len() && rows[i].key == fs.key_min)
        && (exists|i: int| 0 <= i < rows.len() && rows[i].key == fs.key_max)
    &&& forall|j: int|
        0 <= j < fs.columns.len() ==> stat_exact(#[trigger] fs.columns[j], schema, rows)
}

/// No cell of the named column is a string, so the column can carry a summary.
pub open spec fn col_summarisable(schema: Seq<Seq<char>>, rows: Seq<RowV>, name: Seq<char>) -> bool {
    forall|i: int| 0 <= i < rows.len() ==> !(cell_value(schema, rows[i].values, name) is Str)
}

/// The null count of a column never exceeds the row count.
pub proof fn lemma_null_count_bounds(schema: Seq<Seq<char>>, rows: Seq<RowV>, name: Seq<char>)
    ensures
        0 <= null_count_of(schema, rows, name) <= rows.len(),
    decreases rows.len(),
{
    if rows.len() > 0 {
        lemma_null_count_bounds(schema, rows.drop_last(), name);
    }
}

/// With a null count of zero, no row holds a null cell for the column.
pub proof fn lemma_null_count_zero(schema: Seq<Seq<char>>, rows: Seq<RowV>, name: Seq<char>, i: int)
    requires
        null_count_of(schema, rows, name) == 0,
        0 <= i < rows.len(),
    ensures
        !(cell_value(schema, rows[i].values, name) is Null),
    decreases rows.len(),
{
    lemma_null_count_bounds(schema, rows.drop_last(), name);
    if i < rows.len() - 1 {
        lemma_null_count_zero(schema, rows.drop_last(), name, i);
    }
}

/// With a null count equal to the row count, every row holds a null cell.
pub proof fn lemma_null_count_all(schema: Seq<Seq<char>>, rows: Seq<RowV>, name: Seq<char>, i: int)
    requires
        null_count_of(schema, rows, name) == rows.len(),
        0 <= i < rows.len(),
    ensures
        cell_value(schema, rows[i].values, name) is Null,
    decreases rows.len(),
{
    lemma_null_count_bounds(schema, rows.drop_last(), name);
    if i < rows.len() - 1 {
        lemma_null_count_all(schema, rows.drop_last(), name, i);
    }
}

/// Copies a column summary; the copy views equal to the original.
pub fn clone_column_stats(c: &ColumnStats) -> (r: ColumnStats)
    ensures
        r@ == c@,
{
    ColumnStats { column: c.column.clone(), min: c.min, max: c.max, null_count: c.null_count }
}

/// Copies a file summary; the copy views equal to the original.
pub fn clone_file_stats(fs: &FileStats) -> (r: FileStats)
    ensures
        r@ == fs@,
{
    let mut columns: Vec<ColumnStats> = Vec::new();
    let mut i: usize = 0;
    while i < fs.columns.len()
        invariant
            i <= fs.columns.len(),
            columns@.len() == i,
            forall|j: int| 0 <= j < i ==> columns@[j]@ == fs.columns@[j]@,
        decreases fs.columns.len() - i,
    {
        columns.push(clone_column_stats(&fs.columns[i]));
        i = i + 1;
    }
    proof {
        assert(columns@.map_values(|c: ColumnStats| c@) =~= fs.columns@.map_values(
            |c: ColumnStats| c@,
        ));
    }
    let r = FileStats {
        path: fs.path.clone(),
        size: fs.size,
        row_count: fs.row_count,
        key_min: fs.key_min,
        key_max: fs.key_max,
        columns,
    };
    proof {
        assert(r@ =~= fs@);
    }
    r
}

/// Scans a written file's rows once and returns the exact per-column
/// statistics: one valid, exact summary for every column whose cells are all
/// integers or nulls, and no other.
pub fn compute_column_statistics(schema: &Vec<String>, rows: &Vec<Row>) -> (res: Vec<ColumnStats>)
    requires
        schema_distinct(schema_view(schema@)),
        forall|i: int| 0 <= i < rows@.len() ==> row_wf(#[trigger] rows@[i], schema@),
    ensures
        forall|j: int|
            0 <= j < res@.len() ==> stat_valid(
                #[trigger] res@[j]@,
                schema_view(schema@),
                rows_view(rows@),
            ) && stat_exact(res@[j]@, schema_view(schema@), rows_view(rows@)),
        forall|k: int|
            0 <= k < schema@.len() && col_summarisable(
                schema_view(schema@),
                rows_view(rows@),
                schema_view(schema@)[k],
            ) ==> exists|j: int| 0 <= j < res@.len() && #[trigger] res@[j]@.column == schema_view(
                schema@,
            )[k],
{
    let ghost sv = schema_view(schema@);
    let ghost rv = rows_view(rows@);
    let mut res: Vec<ColumnStats> = Vec::new();
    let mut k: usize = 0;
    while k < schema.len()
        invariant
            k <= schema.len(),
            schema_distinct(sv),
            sv == schema_view(schema@),
            rv == rows_view(rows@),
            rv.len() == rows@.len(),
            forall|i: int| 0 <= i < rows@.len() ==> row_wf(#[trigger] rows@[i], schema@),
            forall|j: int|
                0 <= j < res@.len() ==> stat_valid(#[trigger] res@[j]@, sv, rv) && stat_exact(
                    res@[j]@,
                    sv,
                    rv,
                ),
            forall|kk: int|
                0 <= kk < k && col_summarisable(sv, rv, sv[kk]) ==> exists|j: int|
                    0 <= j < res@.len() && #[trigger] res@[j]@.column == sv[kk],
        decreases schema.len() - k,
    {
        let ghost name = sv[k as int];
        let mut has_str: bool = false;
        let mut started: bool = false;
        let mut mn: i64 = 0;
        let mut mx: i64 = 0;
        let mut nulls: u64 = 0;
        let mut i: usize = 0;
        while i < rows.len()
            invariant
                k < schema.len(),
                i <= rows.len(),
                schema_distinct(sv),
                sv == schema_view(schema@),
                rv == rows_view(rows@),
                rv.len() == rows@.len(),
                name == sv[k as int],
                forall|ii: int| 0 <= ii < rows@.len() ==> row_wf(#[trigger] rows@[ii], schema@),
                nulls <= i,
                nulls == null_count_of(sv, rv.take(i as int), name),
                has_str <==> exists|j: int|
                    0 <= j < i && cell_value(sv, #[trigger] rv[j].values, name) is Str,
                started ==> exists|j: int|
                    0 <= j < i && cell_value(sv, #[trigger] rv[j].values, name) == ValueV::Int(mn),
                started ==> exists|j: int|
                    0 <= j < i && cell_value(sv, #[trigger] rv[j].values, name) == ValueV::Int(mx),
                !has_str && started ==> forall|j: int|
                    0 <= j < i ==> match cell_value(sv, #[trigger] rv[j].values, name) {
                        ValueV::Null => true,
                        ValueV::Int(x) => mn <= x && x <= mx,
                        ValueV::Str(_) => false,
                    },
                !has_str && !started ==> forall|j: int|
                    0 <= j < i ==> cell_value(sv, #[trigger] rv[j].values, name) is Null,
                !has_str && !started ==> nulls == i,
            decreases rows.len() - i,
        {
            proof {
                lemma_cell_value_at(sv, rv[i as int].values, k as int);
                assert(rv[i as int].values[k as int] == rows@[i as int].values@[k as int]@);
                assert(rv.take(i + 1).drop_last() =~= rv.take(i as int));
            }
            match &rows[i].values[k] {
                Value::Null => {
                    nulls = nulls + 1;
                },
                Value::Int(x) => {
                    if !started {
                        mn = *x;
                        mx = *x;
                        started = true;
                    } else {
                        if *x < mn {
                            mn = *x;
                        }
                        if *x > mx {
                            mx = *x;
                        }
                    }
                },
                Value::Str(_) => {
                    has_str = true;
                },
            }
            i = i + 1;
        }
        proof {
            assert(rv.take(rv.len() as int) =~= rv);
        }
        if !has_str {
            let st = ColumnStats { column: schema[k].clone(), min: mn, max: mx, null_count: nulls };
            assert(st@.column == name);
            assert(stat_valid(st@, sv, rv));
            assert(stat_exact(st@, sv, rv));
            let ghost old_res = res@;
            res.push(st);
            proof {
                assert(res@[res@.len() - 1]@.column == sv[k as int]);
                assert forall|kk: int|
                    0 <= kk < k + 1 && col_summarisable(sv, rv, sv[kk]) implies exists|j: int|
                    0 <= j < res@.len() && #[trigger] res@[j]@.column == sv[kk] by {
                    if kk < k {
                        let j = choose|j: int|
                            0 <= j < old_res.len() && #[trigger] old_res[j]@.column == sv[kk];
                        assert(res@[j]@.column == sv[kk]);
                    } else {
                        assert(res@[res@.len() - 1]@.column == sv[kk]);
                    }
                }
            }
        } else {
            proof {
                let j = choose|j: int|
                    0 <= j < rv.len() && cell_value(sv, #[trigger] rv[j].values, name) is Str;
                assert(!col_summarisable(sv, rv, name));
            }
        }
        k = k + 1;
    }
    res
}

/// Builds the full file summary for a freshly written file: exact key range,
/// exact column statistics, and the row count as the file's size.
pub fn get_file_statistics(file: &DataFile, schema: &Vec<String>) -> (fs: FileStats)
    requires
        schema_distinct(schema_view(schema@)),
        forall|i: int| 0 <= i < file.rows@.len() ==> row_wf(#[trigger] file.rows@[i], schema@),
    ensures
        fs@.path == file.path@,
        fs@.size == file.rows@.len(),
        stats_valid(fs@, schema_view(schema@), rows_view(file.rows@)),
        stats_exact(fs@, schema_view(schema@), rows_view(file.rows@)),
{
    let ghost rv = rows_view(file.rows@);
    let mut key_min: i64 = 0;
    let mut key_max: i64 = 0;
    let mut i: usize = 0;
    while i < file.rows.len()
        invariant
            i <= file.rows.len(),
            rv == rows_view(file.rows@),
            rv.len() == file.rows@.len(),
            i > 0 ==> forall|j: int| 0 <= j < i ==> key_min <= #[trigger] rv[j].key <= key_max,
            i > 0 ==> exists|j: int| 0 <= j < i && #[trigger] rv[j].key == key_min,
            i > 0 ==> exists|j: int| 0 <= j < i && #[trigger] rv[j].key == key_max,
        decreases file.rows.len() - i,
    {
        proof {
            assert(rv[i as int].key == file.rows@[i as int].key);
        }
        let key = file.rows[i].key;
        if i == 0 {
            key_min = key;
            key_max = key;
        } else {
            if key < key_min {
                key_min = key;
            }
            if key > key_max {
                key_max = key;
            }
        }
        i = i + 1;
    }
    let columns = compute_column_statistics(schema, &file.rows);
    FileStats {
        path: file.path.clone(),
        size: file.rows.len() as u64,
        row_count: file.rows.len() as u64,
        key_min,
        key_max,
        columns,
    }
}

} // verus!
