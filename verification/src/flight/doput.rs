//! Rows from a batch that a client puts.
//!
//! The column `time` is the row's time. A string column is a tag unless its
//! metadata makes it a field; numbers and booleans are fields. A null cell
//! leaves its tag or field out of the row.
use crate::batch;
use crate::batch::{Batch, Cell, Column, DataType, Field};
use crate::buffer;
use crate::ingest;
use crate::ingest::{FieldValue, Float, ParsedLine};
use crate::query::rows;
use crate::text;
use vstd::prelude::*;

verus! {

/// What a column is of a row.
#[derive(Debug, Clone, Copy, PartialEq, Eq, Structural)]
pub enum ColumnRole {
    Time,
    Tag,
    Field,
}

/// Whether a column's strings can be read.
pub open spec fn readable_text(t: batch::TypeView) -> bool {
    t == batch::TypeView::Utf8 || t == batch::tag_type()
}

/// Whether a column is a tag, by its metadata or else by its type.
pub open spec fn tag_wanted(f: batch::FieldDesc) -> Result<bool, Seq<char>> {
    match f.role {
        Some(role) => if role == "tag"@ {
            Ok(true)
        } else if role == "field"@ {
            Ok(false)
        } else {
            Err(
                "column "@ + text::debug_text(f.name) + " has unknown timelake:role "@
                    + text::debug_text(role) + " (want \"tag\" or \"field\")"@,
            )
        },
        None => Ok(f.data_type is Utf8 || f.data_type is Dictionary),
    }
}

/// What a column is of a row, or why the batch is refused.
pub open spec fn role_of(f: batch::FieldDesc) -> Result<ColumnRole, Seq<char>> {
    if f.name == "time"@ {
        if f.data_type is TimeNs || f.data_type is Int64 {
            Ok(ColumnRole::Time)
        } else {
            Err(
                "DoPut `time` column must be Timestamp(ns) or Int64, not "@ + batch::type_text(
                    f.data_type,
                ),
            )
        }
    } else {
        match tag_wanted(f) {
            Err(m) => Err(m),
            Ok(true) => if readable_text(f.data_type) {
                Ok(ColumnRole::Tag)
            } else {
                Err(
                    "column "@ + text::debug_text(f.name)
                        + " is marked a tag but is not a string column"@,
                )
            },
            Ok(false) => match f.data_type {
                batch::TypeView::Float64 => Ok(ColumnRole::Field),
                batch::TypeView::Int64 => Ok(ColumnRole::Field),
                batch::TypeView::UInt64 => Ok(ColumnRole::Field),
                batch::TypeView::Boolean => Ok(ColumnRole::Field),
                _ => if f.data_type is Utf8 || f.data_type is Dictionary {
                    if readable_text(f.data_type) {
                        Ok(ColumnRole::Field)
                    } else {
                        Err("string field "@ + text::debug_text(f.name) + " could not be read"@)
                    }
                } else {
                    Err(
                        "DoPut column "@ + text::debug_text(f.name) + " has type "@
                            + batch::type_text(f.data_type)
                            + ", which is not a field (f64/i64/u64/bool/utf8), a tag (string), or `time`"@,
                    )
                },
            },
        }
    }
}

/// Why the first column is refused that is, if one is.
pub open spec fn first_refused(cols: Seq<batch::ColumnView>) -> Option<Seq<char>>
    decreases cols.len(),
{
    if cols.len() == 0 {
        None
    } else {
        match first_refused(cols.drop_last()) {
            Some(m) => Some(m),
            None => match role_of(cols.last().field) {
                Ok(_) => None,
                Err(m) => Some(m),
            },
        }
    }
}

/// The last column that is the time.
pub open spec fn time_column(cols: Seq<batch::ColumnView>) -> Option<int>
    decreases cols.len(),
{
    if cols.len() == 0 {
        None
    } else if cols.last().field.name == "time"@ {
        Some(cols.len() - 1)
    } else {
        time_column(cols.drop_last())
    }
}

/// The tags of a row among the first `k` columns.
pub open spec fn row_tags(cols: Seq<batch::ColumnView>, r: int, k: int) -> Seq<
    (Seq<char>, Seq<char>),
>
    decreases k,
{
    if k <= 0 {
        Seq::empty()
    } else {
        let p = row_tags(cols, r, k - 1);
        let c = cols[k - 1];
        if role_of(c.field) == Ok::<ColumnRole, Seq<char>>(ColumnRole::Tag) {
            match c.cells[r] {
                batch::CellView::Str(s) => p.push((c.field.name, s)),
                _ => p,
            }
        } else {
            p
        }
    }
}

/// The value that a cell is of a field, if it is one, or why the row is
/// refused.
pub open spec fn cell_value(name: Seq<char>, c: batch::CellView, r: int) -> Result<
    Option<ingest::FieldView>,
    Seq<char>,
> {
    match c {
        batch::CellView::Float(f) => if f is Bits && !rows::finite_bits(f->Bits_0) {
            Err(
                "DoPut field "@ + text::debug_text(name) + " row "@ + text::decimal(r as nat)
                    + " is NaN/Inf, which line protocol cannot represent"@,
            )
        } else {
            Ok(Some(ingest::FieldView::Float(f)))
        },
        batch::CellView::Int(n) => Ok(Some(ingest::FieldView::Int(n))),
        batch::CellView::UInt(n) => Ok(Some(ingest::FieldView::UInt(n))),
        batch::CellView::Bool(b) => Ok(Some(ingest::FieldView::Bool(b))),
        batch::CellView::Str(s) => Ok(Some(ingest::FieldView::Str(s))),
        _ => Ok(None),
    }
}

/// The fields of a row among the first `k` columns, or why it is refused.
pub open spec fn row_fields(cols: Seq<batch::ColumnView>, r: int, k: int) -> Result<
    Seq<(Seq<char>, ingest::FieldView)>,
    Seq<char>,
>
    decreases k,
{
    if k <= 0 {
        Ok(Seq::empty())
    } else {
        match row_fields(cols, r, k - 1) {
            Err(m) => Err(m),
            Ok(p) => {
                let c = cols[k - 1];
                if role_of(c.field) == Ok::<ColumnRole, Seq<char>>(ColumnRole::Field) {
                    match cell_value(c.field.name, c.cells[r], r) {
                        Err(m) => Err(m),
                        Ok(Some(v)) => Ok(p.push((c.field.name, v))),
                        Ok(None) => Ok(p),
                    }
                } else {
                    Ok(p)
                }
            },
        }
    }
}

/// The time that a cell holds, if it holds one.
pub open spec fn cell_time(c: batch::CellView) -> Option<i64> {
    match c {
        batch::CellView::Time(t) => Some(t),
        batch::CellView::Int(t) => Some(t),
        _ => None,
    }
}

/// One row of a batch, or why it is refused.
pub open spec fn row_at(table: Seq<char>, cols: Seq<batch::ColumnView>, time: int, r: int) -> Result<
    ingest::LineView,
    Seq<char>,
> {
    match cell_time(cols[time].cells[r]) {
        None => Err("DoPut row "@ + text::decimal(r as nat) + " has a null `time`"@),
        Some(timestamp_ns) => match row_fields(cols, r, cols.len() as int) {
            Err(m) => Err(m),
            Ok(fields) => if fields.len() == 0 {
                Err(
                    "DoPut row "@ + text::decimal(r as nat)
                        + " has no non-null field; line protocol needs at least one"@,
                )
            } else {
                Ok(
                    ingest::LineView {
                        table,
                        tags: row_tags(cols, r, cols.len() as int),
                        fields,
                        timestamp_ns,
                    },
                )
            },
        },
    }
}

/// The first `n` rows of a batch, or why the first that is refused is.
pub open spec fn rows_before(
    table: Seq<char>,
    cols: Seq<batch::ColumnView>,
    time: int,
    n: int,
) -> Result<Seq<ingest::LineView>, Seq<char>>
    decreases n,
{
    if n <= 0 {
        Ok(Seq::empty())
    } else {
        match rows_before(table, cols, time, n - 1) {
            Err(m) => Err(m),
            Ok(done) => match row_at(table, cols, time, n - 1) {
                Err(m) => Err(m),
                Ok(row) => Ok(done.push(row)),
            },
        }
    }
}

/// The rows of a batch, or why it is refused.
pub open spec fn put_rows(table: Seq<char>, b: batch::BatchView) -> Result<
    Seq<ingest::LineView>,
    Seq<char>,
> {
    match first_refused(b.columns) {
        Some(m) => Err(m),
        None => match time_column(b.columns) {
            None => Err("DoPut batch needs a `time` column"@),
            Some(time) => rows_before(table, b.columns, time, b.rows as int),
        },
    }
}

// --------------------------------------------------------------- the functions

fn reads_text(t: &DataType) -> (r: bool)
    ensures
        r == readable_text(t@),
{
    t.same(&DataType::Utf8) || t.same(&DataType::tag())
}

/// The texts of three strings and the two between them, in a row.
fn five(a: &str, b: &str, c: &str, d: &str, e: &str) -> (r: String)
    ensures
        r@ == a@ + b@ + c@ + d@ + e@,
{
    let mut s = String::from_str(a);
    s.append(b);
    s.append(c);
    s.append(d);
    s.append(e);
    s
}

fn three(a: &str, b: &str, c: &str) -> (r: String)
    ensures
        r@ == a@ + b@ + c@,
{
    let mut s = String::from_str(a);
    s.append(b);
    s.append(c);
    s
}

fn wants_tag(f: &Field) -> (r: Result<bool, String>)
    ensures
        match (r, tag_wanted(f@)) {
            (Ok(x), Ok(y)) => x == y,
            (Err(m), Err(t)) => m@ == t,
            _ => false,
        },
{
    match &f.role {
        Some(role) => if text::same(role.as_str(), "tag") {
            Ok(true)
        } else if text::same(role.as_str(), "field") {
            Ok(false)
        } else {
            let q = text::quote(f.name.as_str());
            let o = text::quote(role.as_str());
            Err(
                five(
                    "column ",
                    q.as_str(),
                    " has unknown timelake:role ",
                    o.as_str(),
                    " (want \"tag\" or \"field\")",
                ),
            )
        },
        None => match f.data_type {
            DataType::Utf8 => Ok(true),
            DataType::Dictionary(_, _) => Ok(true),
            _ => Ok(false),
        },
    }
}

/// What a column is of a row, or why the batch is refused.
pub fn column_role(f: &Field) -> (r: Result<ColumnRole, String>)
    ensures
        match (r, role_of(f@)) {
            (Ok(x), Ok(y)) => x == y,
            (Err(m), Err(t)) => m@ == t,
            _ => false,
        },
{
    if text::same(f.name.as_str(), "time") {
        return match f.data_type {
            DataType::TimeNs(_) => Ok(ColumnRole::Time),
            DataType::Int64 => Ok(ColumnRole::Time),
            _ => {
                let mut s = String::from_str(
                    "DoPut `time` column must be Timestamp(ns) or Int64, not ",
                );
                s.append(f.data_type.describe().as_str());
                Err(s)
            },
        };
    }
    let q = text::quote(f.name.as_str());
    match wants_tag(f) {
        Err(m) => Err(m),
        Ok(true) => if reads_text(&f.data_type) {
            Ok(ColumnRole::Tag)
        } else {
            Err(three("column ", q.as_str(), " is marked a tag but is not a string column"))
        },
        Ok(false) => match f.data_type {
            DataType::Float64 => Ok(ColumnRole::Field),
            DataType::Int64 => Ok(ColumnRole::Field),
            DataType::UInt64 => Ok(ColumnRole::Field),
            DataType::Boolean => Ok(ColumnRole::Field),
            _ => {
                let stringy: bool = match f.data_type {
                    DataType::Utf8 => true,
                    DataType::Dictionary(_, _) => true,
                    _ => false,
                };
                if stringy {
                    if reads_text(&f.data_type) {
                        Ok(ColumnRole::Field)
                    } else {
                        Err(three("string field ", q.as_str(), " could not be read"))
                    }
                } else {
                    let d = f.data_type.describe();
                    Err(
                        five(
                            "DoPut column ",
                            q.as_str(),
                            " has type ",
                            d.as_str(),
                            ", which is not a field (f64/i64/u64/bool/utf8), a tag (string), or `time`",
                        ),
                    )
                }
            },
        },
    }
}

proof fn lemma_refusal_stays(cols: Seq<batch::ColumnView>, k: int)
    requires
        0 <= k <= cols.len(),
        first_refused(cols.take(k)) is Some,
    ensures
        first_refused(cols) == first_refused(cols.take(k)),
    decreases cols.len(),
{
    if k == cols.len() {
        assert(cols.take(k) =~= cols);
    } else {
        assert(cols.drop_last().take(k) =~= cols.take(k));
        lemma_refusal_stays(cols.drop_last(), k);
    }
}

/// The roles of the columns.
spec fn roles_are(cols: Seq<batch::ColumnView>, roles: Seq<ColumnRole>) -> bool {
    &&& roles.len() <= cols.len()
    &&& forall|c: int|
        0 <= c < roles.len() ==> role_of((#[trigger] cols[c]).field) == Ok::<ColumnRole, Seq<char>>(
            roles[c],
        )
}

fn cell_field(name: &str, c: &Cell, r: usize) -> (v: Result<Option<FieldValue>, String>)
    ensures
        match (v, cell_value(name@, c@, r as int)) {
            (Ok(Some(x)), Ok(Some(y))) => x@ == y,
            (Ok(None), Ok(None)) => true,
            (Err(m), Err(t)) => m@ == t,
            _ => false,
        },
{
    match c {
        Cell::Float(f) => {
            let bad: bool = match f {
                Float::Bits(b) => (*b / 0x10_0000_0000_0000) % 0x800 == 0x7ff,
                _ => false,
            };
            if bad {
                let q = text::quote(name);
                let n = text::show(r as u64);
                Err(
                    five(
                        "DoPut field ",
                        q.as_str(),
                        " row ",
                        n.as_str(),
                        " is NaN/Inf, which line protocol cannot represent",
                    ),
                )
            } else {
                Ok(Some(FieldValue::Float(ingest::copy_float(f))))
            }
        },
        Cell::Int(n) => Ok(Some(FieldValue::Int(*n))),
        Cell::UInt(n) => Ok(Some(FieldValue::UInt(*n))),
        Cell::Bool(b) => Ok(Some(FieldValue::Bool(*b))),
        Cell::Str(s) => Ok(Some(FieldValue::Str(s.clone()))),
        _ => Ok(None),
    }
}

proof fn lemma_field_error_stays(cols: Seq<batch::ColumnView>, r: int, k: int, n: int)
    requires
        0 <= k <= n,
        row_fields(cols, r, k) is Err,
    ensures
        row_fields(cols, r, n) == row_fields(cols, r, k),
    decreases n,
{
    if k < n {
        lemma_field_error_stays(cols, r, k, n - 1);
    }
}

/// The tags and the fields of a row.
fn read_row(columns: &Vec<Column>, roles: &Vec<ColumnRole>, r: usize) -> (v: Result<
    (Vec<(String, String)>, Vec<(String, FieldValue)>),
    String,
>)
    requires
        roles.len() == columns.len(),
        roles_are(batch::column_views(columns@), roles@),
        forall|c: int| 0 <= c < columns.len() ==> r < (#[trigger] columns@[c]).cells.len(),
    ensures
        ({
            let cols = batch::column_views(columns@);
            match (v, row_fields(cols, r as int, cols.len() as int)) {
                (Ok((tags, fields)), Ok(f)) => ingest::field_views(fields@) == f
                    && ingest::tag_views(tags@) == row_tags(cols, r as int, cols.len() as int),
                (Err(m), Err(t)) => m@ == t,
                _ => false,
            }
        }),
{
    let ghost cols = batch::column_views(columns@);
    let mut tags: Vec<(String, String)> = Vec::new();
    let mut fields: Vec<(String, FieldValue)> = Vec::new();
    let mut c: usize = 0;
    assert(ingest::tag_views(tags@) =~= Seq::empty());
    assert(ingest::field_views(fields@) =~= Seq::empty());
    while c < columns.len()
        invariant
            c <= columns.len(),
            cols == batch::column_views(columns@),
            roles.len() == columns.len(),
            roles_are(cols, roles@),
            forall|c: int| 0 <= c < columns.len() ==> r < (#[trigger] columns@[c]).cells.len(),
            ingest::tag_views(tags@) == row_tags(cols, r as int, c as int),
            row_fields(cols, r as int, c as int) == Ok::<
                Seq<(Seq<char>, ingest::FieldView)>,
                Seq<char>,
            >(ingest::field_views(fields@)),
        decreases columns.len() - c,
    {
        let col = &columns[c];
        assert(cols[c as int] == col@);
        assert(r < columns@[c as int].cells.len());
        let cell = &col.cells[r];
        assert(cols[c as int].cells[r as int] == cell@);
        let ghost done_tags = ingest::tag_views(tags@);
        let ghost done_fields = ingest::field_views(fields@);
        match roles[c] {
            ColumnRole::Time => {},
            ColumnRole::Tag => {
                match cell {
                    Cell::Str(s) => {
                        let t = s.clone();
                        tags.push((col.field.name.clone(), t));
                        assert(ingest::tag_views(tags@) =~= done_tags.push(
                            (col.field.name@, t@),
                        ));
                    },
                    _ => {},
                }
            },
            ColumnRole::Field => {
                match cell_field(col.field.name.as_str(), cell, r) {
                    Err(m) => {
                        proof {
                            lemma_field_error_stays(cols, r as int, c + 1, cols.len() as int);
                        }
                        return Err(m);
                    },
                    Ok(Some(v)) => {
                        fields.push((col.field.name.clone(), v));
                        assert(ingest::field_views(fields@) =~= done_fields.push(
                            (col.field.name@, v@),
                        ));
                    },
                    Ok(None) => {},
                }
            },
        }
        c += 1;
    }
    Ok((tags, fields))
}

proof fn lemma_row_error_stays(
    table: Seq<char>,
    cols: Seq<batch::ColumnView>,
    time: int,
    k: int,
    n: int,
)
    requires
        0 <= k <= n,
        rows_before(table, cols, time, k) is Err,
    ensures
        rows_before(table, cols, time, n) == rows_before(table, cols, time, k),
    decreases n,
{
    if k < n {
        lemma_row_error_stays(table, cols, time, k, n - 1);
    }
}

proof fn lemma_time_column(cols: Seq<batch::ColumnView>)
    ensures
        time_column(cols) matches Some(t) ==> 0 <= t < cols.len() && cols[t].field.name
            == "time"@,
    decreases cols.len(),
{
    if cols.len() > 0 {
        lemma_time_column(cols.drop_last());
    }
}

/// The rows of a batch that a client puts into `table`. Floats are expected
/// in the form of their bits.
pub fn batch_to_rows(table: &str, batch: &Batch) -> (r: Result<Vec<ParsedLine>, String>)
    requires
        batch@.well_formed(),
        batch::floats_in_bits(batch@),
    ensures
        match (r, put_rows(table@, batch@)) {
            (Ok(rows), Ok(views)) => ingest::row_views(rows@) == views,
            (Err(m), Err(t)) => m@ == t,
            _ => false,
        },
{
    let ghost cols = batch@.columns;
    let mut roles: Vec<ColumnRole> = Vec::new();
    let mut time: Option<usize> = None;
    let mut c: usize = 0;
    while c < batch.columns.len()
        invariant
            c <= batch.columns.len(),
            cols == batch@.columns,
            roles.len() == c,
            roles_are(cols, roles@),
            first_refused(cols.take(c as int)) is None,
            match (time, time_column(cols.take(c as int))) {
                (Some(t), Some(u)) => t == u && t < c,
                (None, None) => true,
                _ => false,
            },
        decreases batch.columns.len() - c,
    {
        let f = &batch.columns[c].field;
        proof {
            assert(cols[c as int].field == f@);
            assert(cols.take(c + 1).drop_last() =~= cols.take(c as int));
            assert(cols.take(c + 1).last() == cols[c as int]);
            if first_refused(cols.take(c + 1)) is Some {
                lemma_refusal_stays(cols, c + 1);
            }
        }
        match column_role(f) {
            Err(m) => {
                return Err(m);
            },
            Ok(role) => {
                roles.push(role);
                if text::same(f.name.as_str(), "time") {
                    time = Some(c);
                }
            },
        }
        c += 1;
    }
    proof {
        assert(cols.take(cols.len() as int) =~= cols);
        lemma_time_column(cols);
    }
    let at: usize = match time {
        Some(t) => t,
        None => {
            return Err(String::from_str("DoPut batch needs a `time` column"));
        },
    };
    let mut rows: Vec<ParsedLine> = Vec::new();
    let mut r: usize = 0;
    assert(ingest::row_views(rows@) =~= Seq::empty());
    while r < batch.rows
        invariant
            r <= batch.rows,
            batch@.well_formed(),
            cols == batch@.columns,
            at < batch.columns.len(),
            roles.len() == batch.columns.len(),
            roles_are(cols, roles@),
            put_rows(table@, batch@) == rows_before(
                table@,
                cols,
                at as int,
                batch.rows as int,
            ),
            rows_before(table@, cols, at as int, r as int) == Ok::<
                Seq<ingest::LineView>,
                Seq<char>,
            >(ingest::row_views(rows@)),
        decreases batch.rows - r,
    {
        assert forall|c: int| 0 <= c < batch.columns.len() implies r < (
        #[trigger] batch.columns@[c]).cells.len() by {
            assert(cols[c] == batch.columns@[c]@);
        }
        assert(cols[at as int] == batch.columns@[at as int]@);
        assert(r < batch.columns@[at as int].cells.len());
        let ghost done = ingest::row_views(rows@);
        proof {
            if rows_before(table@, cols, at as int, r + 1) is Err {
                lemma_row_error_stays(table@, cols, at as int, r + 1, batch.rows as int);
            }
        }
        let cell = &batch.columns[at].cells[r];
        assert(cols[at as int].cells[r as int] == cell@);
        let timestamp_ns: i64 = match cell {
            Cell::Time(t) => *t,
            Cell::Int(t) => *t,
            _ => {
                let n = text::show(r as u64);
                return Err(three("DoPut row ", n.as_str(), " has a null `time`"));
            },
        };
        match read_row(&batch.columns, &roles, r) {
            Err(m) => {
                return Err(m);
            },
            Ok((tags, fields)) => {
                if fields.len() == 0 {
                    let n = text::show(r as u64);
                    return Err(
                        three(
                            "DoPut row ",
                            n.as_str(),
                            " has no non-null field; line protocol needs at least one",
                        ),
                    );
                }
                let row = ParsedLine { table: table.to_owned(), tags, fields, timestamp_ns };
                rows.push(row);
                assert(ingest::row_views(rows@) =~= done.push(row@));
            },
        }
        r += 1;
    }
    Ok(rows)
}

// --------------------------------------------------------- what was read is put

/// The tags that the first `k` columns of a buffer hold in a row.
pub open spec fn held_tags(tags: Seq<buffer::TagView>, r: int, k: int) -> Seq<
    (Seq<char>, Seq<char>),
>
    decreases k,
{
    if k <= 0 {
        Seq::empty()
    } else {
        let p = held_tags(tags, r, k - 1);
        match tags[k - 1].cells[r] {
            batch::CellView::Str(s) => p.push((tags[k - 1].name, s)),
            _ => p,
        }
    }
}

/// The value of a field that a cell holds.
pub open spec fn held_value(c: batch::CellView) -> Option<ingest::FieldView> {
    match c {
        batch::CellView::Float(f) => Some(ingest::FieldView::Float(f)),
        batch::CellView::Int(n) => Some(ingest::FieldView::Int(n)),
        batch::CellView::UInt(n) => Some(ingest::FieldView::UInt(n)),
        batch::CellView::Bool(b) => Some(ingest::FieldView::Bool(b)),
        batch::CellView::Str(s) => Some(ingest::FieldView::Str(s)),
        _ => None,
    }
}

/// The fields that the first `k` columns of a buffer hold in a row.
pub open spec fn held_fields(fields: Seq<buffer::FieldColView>, r: int, k: int) -> Seq<
    (Seq<char>, ingest::FieldView),
>
    decreases k,
{
    if k <= 0 {
        Seq::empty()
    } else {
        let p = held_fields(fields, r, k - 1);
        match held_value(fields[k - 1].cells[r]) {
            Some(v) => p.push((fields[k - 1].name, v)),
            None => p,
        }
    }
}

/// A row that a buffer holds.
pub open spec fn held_row(table: Seq<char>, b: buffer::BufferView, r: int) -> ingest::LineView {
    ingest::LineView {
        table,
        tags: held_tags(b.tags, r, b.tags.len() as int),
        fields: held_fields(b.fields, r, b.fields.len() as int),
        timestamp_ns: b.times[r],
    }
}

/// Whether the columns of a buffer tell by themselves what they are: none but
/// the time is called so, no field is a string, and every float is a number.
pub open spec fn plain_columns(b: buffer::BufferView) -> bool {
    &&& forall|c: int| 0 <= c < b.tags.len() ==> (#[trigger] b.tags[c]).name != "time"@
    &&& forall|c: int|
        0 <= c < b.fields.len() ==> (#[trigger] b.fields[c]).name != "time"@ && b.fields[c].kind
            != buffer::FieldKind::Str
    &&& forall|c: int, r: int|
        0 <= c < b.fields.len() && 0 <= r < b.times.len() ==> {
            (#[trigger] b.fields[c].cells[r]) matches batch::CellView::Float(
                ingest::FloatView::Bits(x),
            ) ==> rows::finite_bits(x)
        }
}

proof fn lemma_nothing_refused(cols: Seq<batch::ColumnView>)
    requires
        forall|i: int| 0 <= i < cols.len() ==> role_of((#[trigger] cols[i]).field) is Ok,
    ensures
        first_refused(cols) is None,
    decreases cols.len(),
{
    if cols.len() > 0 {
        assert forall|i: int| 0 <= i < cols.drop_last().len() implies role_of(
            (#[trigger] cols.drop_last()[i]).field,
        ) is Ok by {
            assert(cols.drop_last()[i] == cols[i]);
        }
        lemma_nothing_refused(cols.drop_last());
        assert(role_of(cols[cols.len() - 1].field) is Ok);
    }
}

proof fn lemma_time_is_first(cols: Seq<batch::ColumnView>)
    requires
        cols.len() > 0,
        cols[0].field.name == "time"@,
        forall|i: int| 0 < i < cols.len() ==> (#[trigger] cols[i]).field.name != "time"@,
    ensures
        time_column(cols) == Some(0int),
    decreases cols.len(),
{
    if cols.len() > 1 {
        let p = cols.drop_last();
        assert(p[0] == cols[0]);
        assert forall|i: int| 0 < i < p.len() implies (#[trigger] p[i]).field.name != "time"@ by {
            assert(p[i] == cols[i]);
        }
        lemma_time_is_first(p);
        assert(cols[cols.len() - 1].field.name != "time"@);
    }
}

proof fn lemma_snapshot_columns(b: buffer::BufferView, c: int)
    requires
        plain_columns(b),
        0 <= c < buffer::snapshot_of(b).columns.len(),
    ensures
        ({
            let cols = buffer::snapshot_of(b).columns;
            let t = b.tags.len();
            if c == 0 {
                &&& cols[c] == buffer::time_column(b.times)
                &&& role_of(cols[c].field) == Ok::<ColumnRole, Seq<char>>(ColumnRole::Time)
            } else if c <= t {
                &&& cols[c] == buffer::tag_column(b.tags[c - 1])
                &&& role_of(cols[c].field) == Ok::<ColumnRole, Seq<char>>(ColumnRole::Tag)
            } else {
                &&& cols[c] == buffer::field_column(b.fields[c - 1 - t])
                &&& role_of(cols[c].field) == Ok::<ColumnRole, Seq<char>>(ColumnRole::Field)
            }
        }),
        c > 0 ==> buffer::snapshot_of(b).columns[c].field.name != "time"@,
{
    let t = b.tags.len();
    if 0 < c <= t {
        assert(b.tags[c - 1].name != "time"@);
    } else if c > t {
        assert(b.fields[c - 1 - t].name != "time"@);
    }
}

proof fn lemma_held(b: buffer::BufferView, r: int, k: int)
    requires
        plain_columns(b),
        0 <= r < b.times.len(),
        0 <= k <= buffer::snapshot_of(b).columns.len(),
    ensures
        ({
            let cols = buffer::snapshot_of(b).columns;
            let t = b.tags.len() as int;
            let tags = if k <= 0 {
                0
            } else if k - 1 < t {
                k - 1
            } else {
                t
            };
            let fields = if k - 1 - t < 0 {
                0
            } else {
                k - 1 - t
            };
            &&& row_tags(cols, r, k) == held_tags(b.tags, r, tags)
            &&& row_fields(cols, r, k) == Ok::<Seq<(Seq<char>, ingest::FieldView)>, Seq<char>>(
                held_fields(b.fields, r, fields),
            )
        }),
    decreases k,
{
    if k > 0 {
        lemma_held(b, r, k - 1);
        lemma_snapshot_columns(b, k - 1);
        let t = b.tags.len() as int;
        if k - 1 > t {
            let c = b.fields[k - 2 - t].cells[r];
            if let batch::CellView::Float(ingest::FloatView::Bits(x)) = c {
                assert(rows::finite_bits(x));
            }
        }
    }
}

proof fn lemma_rows_held(table: Seq<char>, b: buffer::BufferView, n: int)
    requires
        plain_columns(b),
        0 <= n <= b.times.len(),
        forall|r: int|
            0 <= r < b.times.len() ==> (#[trigger] held_row(table, b, r)).fields.len() > 0,
    ensures
        rows_before(table, buffer::snapshot_of(b).columns, 0, n) == Ok::<
            Seq<ingest::LineView>,
            Seq<char>,
        >(Seq::new(n as nat, |r: int| held_row(table, b, r))),
    decreases n,
{
    let done = Seq::new(n as nat, |r: int| held_row(table, b, r));
    if n > 0 {
        lemma_rows_held(table, b, n - 1);
        let cols = buffer::snapshot_of(b).columns;
        lemma_held(b, n - 1, cols.len() as int);
        lemma_snapshot_columns(b, 0);
        assert(held_row(table, b, n - 1).fields.len() > 0);
        assert(row_at(table, cols, 0, n - 1) == Ok::<ingest::LineView, Seq<char>>(
            held_row(table, b, n - 1),
        ));
        assert(Seq::new((n - 1) as nat, |r: int| held_row(table, b, r)).push(
            held_row(table, b, n - 1),
        ) =~= done);
    } else {
        assert(done =~= Seq::empty());
    }
}

/// What a table shows can be put back as it is: every row comes back with its
/// time, the tags and the fields that it holds. Every row must hold a field,
/// as every row that was written does.
pub proof fn what_is_shown_can_be_put_back(table: Seq<char>, b: buffer::BufferView)
    requires
        plain_columns(b),
        forall|r: int|
            0 <= r < b.times.len() ==> (#[trigger] held_row(table, b, r)).fields.len() > 0,
    ensures
        put_rows(table, buffer::snapshot_of(b)) == Ok::<Seq<ingest::LineView>, Seq<char>>(
            Seq::new(b.times.len(), |r: int| held_row(table, b, r)),
        ),
{
    let cols = buffer::snapshot_of(b).columns;
    assert forall|i: int| 0 <= i < cols.len() implies role_of((#[trigger] cols[i]).field) is Ok by {
        lemma_snapshot_columns(b, i);
    }
    lemma_nothing_refused(cols);
    assert forall|i: int| 0 < i < cols.len() implies (#[trigger] cols[i]).field.name != "time"@ by {
        lemma_snapshot_columns(b, i);
    }
    lemma_snapshot_columns(b, 0);
    lemma_time_is_first(cols);
    lemma_rows_held(table, b, b.times.len() as int);
}

/// A cell that is put is the value that it is; a float that is infinite or no
/// number is refused, and nothing gives nothing.
pub proof fn a_put_cell_is_its_value(
    name: Seq<char>,
    r: int,
    bits: u64,
    t: Seq<char>,
    n: i64,
    u: u64,
    b: bool,
)
    ensures
        cell_value(name, batch::CellView::Int(n), r) == Ok::<Option<ingest::FieldView>, Seq<char>>(
            Some(ingest::FieldView::Int(n)),
        ),
        cell_value(name, batch::CellView::UInt(u), r) == Ok::<Option<ingest::FieldView>, Seq<char>>(
            Some(ingest::FieldView::UInt(u)),
        ),
        cell_value(name, batch::CellView::Bool(b), r) == Ok::<Option<ingest::FieldView>, Seq<char>>(
            Some(ingest::FieldView::Bool(b)),
        ),
        cell_value(name, batch::CellView::Str(t), r) == Ok::<Option<ingest::FieldView>, Seq<char>>(
            Some(ingest::FieldView::Str(t)),
        ),
        cell_value(name, batch::CellView::Null, r) == Ok::<Option<ingest::FieldView>, Seq<char>>(
            None,
        ),
        ({
            let cell = batch::CellView::Float(ingest::FloatView::Bits(bits));
            if bits & 0x7ff0_0000_0000_0000u64 == 0x7ff0_0000_0000_0000u64 {
                cell_value(name, cell, r) is Err
            } else {
                cell_value(name, cell, r) == Ok::<Option<ingest::FieldView>, Seq<char>>(
                    Some(ingest::FieldView::Float(ingest::FloatView::Bits(bits))),
                )
            }
        }),
        cell_time(batch::CellView::Time(n)) == Some(n),
        cell_time(batch::CellView::Int(n)) == Some(n),
        cell_time(batch::CellView::Null) is None,
{
    assert(((bits / 0x10_0000_0000_0000) % 0x800 == 0x7ff) == (bits & 0x7ff0_0000_0000_0000u64
        == 0x7ff0_0000_0000_0000u64)) by (bit_vector);
}

/// What a column is put as: a column of texts is a tag unless it says that it is
/// a field, a column of numbers or truth values a field, and the column of that
/// name the time.
pub proof fn a_column_is_put_as_what_it_says(f: batch::FieldDesc)
    requires
        f.name != "time"@,
    ensures
        (f.data_type is Utf8 || f.data_type == batch::tag_type()) && (f.role is None || f.role
            == Some("tag"@)) ==> role_of(f) == Ok::<ColumnRole, Seq<char>>(ColumnRole::Tag),
        (f.data_type is Utf8 || f.data_type == batch::tag_type()) && f.role == Some("field"@)
            ==> role_of(f) == Ok::<ColumnRole, Seq<char>>(ColumnRole::Field),
        (f.data_type is Float64 || f.data_type is Int64 || f.data_type is UInt64
            || f.data_type is Boolean) && (f.role is None || f.role == Some("field"@)) ==> role_of(f)
            == Ok::<ColumnRole, Seq<char>>(ColumnRole::Field),
        (f.data_type is Float64 || f.data_type is Int64 || f.data_type is UInt64
            || f.data_type is Boolean) && f.role == Some("tag"@) ==> role_of(f) is Err,
        f.role matches Some(r) ==> r != "tag"@ && r != "field"@ ==> role_of(f) is Err,
{
    reveal_strlit("tag");
    reveal_strlit("field");
    assert("tag"@.len() == 3 && "field"@.len() == 5);
}

/// The tags of a row are the texts in its tag columns, each under its column's
/// name, and its fields the values in its field columns.
pub proof fn a_row_has_the_cells_of_its_columns(
    cols: Seq<batch::ColumnView>,
    r: int,
    k: int,
    name: Seq<char>,
    s: Seq<char>,
    v: ingest::FieldView,
)
    requires
        0 <= k <= cols.len(),
    ensures
        row_tags(cols, r, k).contains((name, s)) <==> exists|c: int|
            0 <= c < k && (#[trigger] cols[c]).field.name == name && role_of(cols[c].field) == Ok::<
                ColumnRole,
                Seq<char>,
            >(ColumnRole::Tag) && cols[c].cells[r] == batch::CellView::Str(s),
        row_fields(cols, r, k) matches Ok(fields) ==> (fields.contains((name, v)) <==> exists|
            c: int,
        |
            0 <= c < k && (#[trigger] cols[c]).field.name == name && role_of(cols[c].field) == Ok::<
                ColumnRole,
                Seq<char>,
            >(ColumnRole::Field) && cell_value(name, cols[c].cells[r], r) == Ok::<
                Option<ingest::FieldView>,
                Seq<char>,
            >(Some(v))),
    decreases k,
{
    if k > 0 {
        a_row_has_the_cells_of_its_columns(cols, r, k - 1, name, s, v);
        let p = row_tags(cols, r, k - 1);
        let q = row_tags(cols, r, k);
        assert(q.contains((name, s)) <==> p.contains((name, s)) || q.len() > p.len() && q.last() == (
            name,
            s,
        )) by {
            if p.contains((name, s)) {
                let i = choose|i: int| 0 <= i < p.len() && p[i] == (name, s);
                assert(q[i] == (name, s));
            }
            if q.contains((name, s)) {
                let i = choose|i: int| 0 <= i < q.len() && q[i] == (name, s);
                if i < p.len() {
                    assert(p[i] == (name, s));
                }
            }
            if q.len() > p.len() {
                assert(q[q.len() - 1] == q.last());
            }
        }
        assert(cols[k - 1].field.name == cols[k - 1].field.name);
        if let Ok(b) = row_fields(cols, r, k) {
            let a = row_fields(cols, r, k - 1)->Ok_0;
            assert(b.contains((name, v)) <==> a.contains((name, v)) || b.len() > a.len()
                && b.last() == (name, v)) by {
                if a.contains((name, v)) {
                    let i = choose|i: int| 0 <= i < a.len() && a[i] == (name, v);
                    assert(b[i] == (name, v));
                }
                if b.contains((name, v)) {
                    let i = choose|i: int| 0 <= i < b.len() && b[i] == (name, v);
                    if i < a.len() {
                        assert(a[i] == (name, v));
                    }
                }
                if b.len() > a.len() {
                    assert(b[b.len() - 1] == b.last());
                }
            }
        }
    }
}

} // verus!
