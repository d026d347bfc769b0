use vstd::prelude::*;

verus! {

/// One cell of a row: absent, an integer, or an opaque string payload.
/// Column statistics and predicates compare integers only; a string cell
/// never satisfies a comparison and is never summarised by min/max.
#[derive(Clone, Debug, PartialEq, Eq)]
pub enum Value {
    Null,
    Int(i64),
    Str(String),
}

/// The mathematical shape of a `Value`.
pub enum ValueV {
    Null,
    Int(i64),
    Str(Seq<char>),
}

impl View for Value {
    type V = ValueV;

    open spec fn view(&self) -> ValueV {
        match self {
            Value::Null => ValueV::Null,
            Value::Int(x) => ValueV::Int(*x),
            Value::Str(s) => ValueV::Str(s@),
        }
    }
}

/// One table row: a join key plus one cell per schema column, positionally.
#[derive(Clone, Debug, PartialEq, Eq)]
pub struct Row {
    pub key: i64,
    pub values: Vec<Value>,
}

/// The mathematical shape of a `Row`.
#[verifier::ext_equal]
pub struct RowV {
    pub key: i64,
    pub values: Seq<ValueV>,
}

impl View for Row {
    type V = RowV;

    open spec fn view(&self) -> RowV {
        RowV { key: self.key, values: self.values@.map_values(|v: Value| v@) }
    }
}

/// The view of a schema: each column name as a character sequence.
pub open spec fn schema_view(schema: Seq<String>) -> Seq<Seq<char>> {
    schema.map_values(|s: String| s@)
}

/// The view of a sequence of rows.
pub open spec fn rows_view(rows: Seq<Row>) -> Seq<RowV> {
    rows.map_values(|r: Row| r@)
}

/// One immutable data file: its path and the rows it holds. In this model a
/// file's size is measured in rows.
#[derive(Clone, Debug, PartialEq, Eq)]
pub struct DataFile {
    pub path: String,
    pub rows: Vec<Row>,
}

/// A row is shaped for a schema when it carries one cell per column.
pub open spec fn row_wf(row: Row, schema: Seq<String>) -> bool {
    row.values@.len() == schema.len()
}

/// The cell a row holds for a named column: the value at the first matching
/// column position, `Null` when the column is absent.
pub open spec fn cell_value(schema: Seq<Seq<char>>, values: Seq<ValueV>, name: Seq<char>) -> ValueV
    decreases schema.len(),
{
    if schema.len() == 0 || values.len() == 0 {
        ValueV::Null
    } else if schema[0] == name {
        values[0]
    } else {
        cell_value(schema.drop_first(), values.drop_first(), name)
    }
}

/// Distinct column names.
pub open spec fn schema_distinct(schema: Seq<Seq<char>>) -> bool {
    forall|i: int, j: int| 0 <= i < j < schema.len() ==> schema[i] != schema[j]
}

/// Under a schema whose names are distinct, the cell for column `i` is the
/// value at position `i`.
pub proof fn lemma_cell_value_at(schema: Seq<Seq<char>>, values: Seq<ValueV>, i: int)
    requires
        schema_distinct(schema),
        values.len() == schema.len(),
        0 <= i < schema.len(),
    ensures
        cell_value(schema, values, schema[i]) == values[i],
    decreases schema.len(),
{
    if i == 0 {
    } else {
        assert(schema[0] != schema[i]);
        lemma_cell_value_at(schema.drop_first(), values.drop_first(), i - 1);
        assert(schema.drop_first()[i - 1] == schema[i]);
        assert(values.drop_first()[i - 1] == values[i]);
    }
}

/// A name matching no column yields `Null`.
pub proof fn lemma_cell_value_absent(schema: Seq<Seq<char>>, values: Seq<ValueV>, name: Seq<char>)
    requires
        forall|i: int| 0 <= i < schema.len() ==> schema[i] != name,
    ensures
        cell_value(schema, values, name) == ValueV::Null,
    decreases schema.len(),
{
    if schema.len() == 0 || values.len() == 0 {
    } else {
        assert(schema[0] != name);
        lemma_cell_value_absent(schema.drop_first(), values.drop_first(), name);
    }
}

/// Copies a cell; the copy views equal to the original.
pub fn clone_value(v: &Value) -> (r: Value)
    ensures
        r@ == v@,
{
    match v {
        Value::Null => Value::Null,
        Value::Int(x) => Value::Int(*x),
        Value::Str(s) => Value::Str(s.clone()),
    }
}

/// Copies a row; the copy views equal to the original.
pub fn clone_row(row: &Row) -> (r: Row)
    ensures
        r@ == row@,
{
    let mut values: Vec<Value> = Vec::new();
    let mut i: usize = 0;
    while i < row.values.len()
        invariant
            i <= row.values.len(),
            values@.len() == i,
            forall|j: int| 0 <= j < i ==> values@[j]@ == row.values@[j]@,
        decreases row.values.len() - i,
    {
        values.push(clone_value(&row.values[i]));
        i = i + 1;
    }
    proof {
        assert(values@.map_values(|v: Value| v@) =~= row.values@.map_values(|v: Value| v@));
        assert(RowV { key: row.key, values: values@.map_values(|v: Value| v@) } =~= row@);
    }
    Row { key: row.key, values }
}

/// Copies a sequence of rows; the copies view equal to the originals.
pub fn clone_rows(rows: &Vec<Row>) -> (r: Vec<Row>)
    ensures
        r@.map_values(|x: Row| x@) == rows@.map_values(|x: Row| x@),
{
    let mut out: Vec<Row> = Vec::new();
    let mut i: usize = 0;
    while i < rows.len()
        invariant
            i <= rows.len(),
            out@.len() == i,
            forall|j: int| 0 <= j < i ==> out@[j]@ == rows@[j]@,
        decreases rows.len() - i,
    {
        out.push(clone_row(&rows[i]));
        i = i + 1;
    }
    proof {
        assert(out@.map_values(|x: Row| x@) =~= rows@.map_values(|x: Row| x@));
    }
    out
}

} // verus!
