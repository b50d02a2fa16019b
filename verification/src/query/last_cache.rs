//! The latest readings of a table as a table of their own.
use crate::batch;
use crate::batch::{Batch, Cell, Column, DataType, Field};
use crate::ingest;
use crate::ingest::FieldValue;
use crate::lastvalue;
use crate::lastvalue::LastValue;
use crate::query::provider::{Expr, Scalar};
use crate::text;
use vstd::prelude::*;

verus! {

/// Why the arguments of the function are refused.
pub open spec fn usage() -> Seq<char> {
    "last_cache(table) takes one string argument — the table name, e.g. last_cache('cpu')"@
}

/// The table that the function's arguments name: one literal string.
pub fn table_argument(args: &Vec<Expr>) -> (r: Result<String, String>)
    ensures
        match r {
            Ok(s) => args@.len() == 1 && (args@[0] matches Expr::Literal(Scalar::Utf8(Some(t))) && t
                == s),
            Err(m) => m@ == usage() && !(args@.len() == 1 && (args@[0] matches Expr::Literal(
                Scalar::Utf8(Some(_)),
            ))),
        },
{
    if args.len() == 1 {
        if let Expr::Literal(Scalar::Utf8(Some(s))) = &args[0] {
            return Ok(s.clone());
        }
    }
    Err(
        "last_cache(table) takes one string argument — the table name, e.g. last_cache('cpu')".to_owned(),
    )
}

/// The value of the first tag with a name.
pub open spec fn tag_value(tags: Seq<(Seq<char>, Seq<char>)>, name: Seq<char>) -> Option<Seq<char>>
    decreases tags.len(),
{
    if tags.len() == 0 {
        None
    } else {
        match tag_value(tags.drop_last(), name) {
            Some(v) => Some(v),
            None => if tags.last().0 == name {
                Some(tags.last().1)
            } else {
                None
            },
        }
    }
}

/// The value of the first field with a name.
pub open spec fn field_value(
    fields: Seq<(Seq<char>, ingest::FieldView)>,
    name: Seq<char>,
) -> Option<ingest::FieldView>
    decreases fields.len(),
{
    if fields.len() == 0 {
        None
    } else {
        match field_value(fields.drop_last(), name) {
            Some(v) => Some(v),
            None => if fields.last().0 == name {
                Some(fields.last().1)
            } else {
                None
            },
        }
    }
}

/// Whether any row has a tag.
pub open spec fn tag_seen(rows: Seq<lastvalue::LastView>, name: Seq<char>) -> bool
    decreases rows.len(),
{
    if rows.len() == 0 {
        false
    } else {
        tag_seen(rows.drop_last(), name) || tag_value(rows.last().tags, name) is Some
    }
}

/// The type of a field's column: that of its first value in the rows.
pub open spec fn type_seen(rows: Seq<lastvalue::LastView>, name: Seq<char>) -> Option<
    batch::TypeView,
>
    decreases rows.len(),
{
    if rows.len() == 0 {
        None
    } else {
        match type_seen(rows.drop_last(), name) {
            Some(t) => Some(t),
            None => match field_value(rows.last().fields, name) {
                Some(v) => Some(type_of(v)),
                None => None,
            },
        }
    }
}

/// The type of the column that a value makes.
pub open spec fn type_of(v: ingest::FieldView) -> batch::TypeView {
    match v {
        ingest::FieldView::Float(_) => batch::TypeView::Float64,
        ingest::FieldView::Int(_) => batch::TypeView::Int64,
        ingest::FieldView::UInt(_) => batch::TypeView::UInt64,
        ingest::FieldView::Bool(_) => batch::TypeView::Boolean,
        ingest::FieldView::Str(_) => batch::TypeView::Utf8,
    }
}

/// The column of the times.
pub open spec fn time_column(rows: Seq<lastvalue::LastView>) -> batch::ColumnView {
    batch::ColumnView {
        field: batch::plain_field("time"@, batch::TypeView::TimeNs(None), false),
        dictionary: Seq::empty(),
        cells: rows.map_values(
            |r: lastvalue::LastView| batch::CellView::Time(r.timestamp_ns),
        ),
    }
}

/// The column of a tag: nothing where a row lacks it.
pub open spec fn tag_column(rows: Seq<lastvalue::LastView>, name: Seq<char>) -> batch::ColumnView {
    batch::ColumnView {
        field: batch::plain_field(name, batch::TypeView::Utf8, true),
        dictionary: Seq::empty(),
        cells: rows.map_values(
            |r: lastvalue::LastView|
                match tag_value(r.tags, name) {
                    Some(v) => batch::CellView::Str(v),
                    None => batch::CellView::Null,
                },
        ),
    }
}

/// The cell of a field in a column of a type: nothing where the row lacks it
/// or has it with another type.
pub open spec fn field_cell(
    r: lastvalue::LastView,
    name: Seq<char>,
    t: batch::TypeView,
) -> batch::CellView {
    match field_value(r.fields, name) {
        Some(v) => if type_of(v) == t {
            batch::cell_of(v)
        } else {
            batch::CellView::Null
        },
        None => batch::CellView::Null,
    }
}

/// The column of a field.
pub open spec fn field_column_of(
    rows: Seq<lastvalue::LastView>,
    name: Seq<char>,
) -> batch::ColumnView {
    let t = type_seen(rows, name)->Some_0;
    batch::ColumnView {
        field: batch::plain_field(name, t, true),
        dictionary: Seq::empty(),
        cells: rows.map_values(|r: lastvalue::LastView| field_cell(r, name, t)),
    }
}

/// Whether these are the names of all tags, in order, each once.
pub open spec fn are_tags(names: Seq<Seq<char>>, rows: Seq<lastvalue::LastView>) -> bool {
    &&& text::strictly_ordered(names)
    &&& forall|k: Seq<char>| #[trigger] names.contains(k) <==> tag_seen(rows, k)
}

/// Whether these are the names of all fields, in order, each once.
pub open spec fn are_fields(names: Seq<Seq<char>>, rows: Seq<lastvalue::LastView>) -> bool {
    &&& text::strictly_ordered(names)
    &&& forall|k: Seq<char>| #[trigger] names.contains(k) <==> type_seen(rows, k) is Some
}

/// The columns of readings: the time, the tags, the fields.
pub open spec fn columns_of(
    rows: Seq<lastvalue::LastView>,
    tags: Seq<Seq<char>>,
    fields: Seq<Seq<char>>,
) -> Seq<batch::ColumnView> {
    seq![time_column(rows)] + tags.map_values(|n: Seq<char>| tag_column(rows, n))
        + fields.map_values(|n: Seq<char>| field_column_of(rows, n))
}

fn find_tag(tags: &Vec<(String, String)>, name: &str) -> (r: Option<String>)
    ensures
        batch::opt_text(r) == tag_value(ingest::tag_views(tags@), name@),
{
    let ghost all = ingest::tag_views(tags@);
    let mut i: usize = 0;
    assert(all.take(0) =~= Seq::empty());
    while i < tags.len()
        invariant
            i <= tags.len(),
            all == ingest::tag_views(tags@),
            tag_value(all.take(i as int), name@) is None,
        decreases tags.len() - i,
    {
        assert(all.take(i + 1).drop_last() =~= all.take(i as int));
        assert(all.take(i + 1).last() == (tags@[i as int].0@, tags@[i as int].1@));
        if text::same(tags[i].0.as_str(), name) {
            proof {
                lemma_tag_stays(all, name@, i + 1);
            }
            return Some(tags[i].1.clone());
        }
        i += 1;
    }
    assert(all.take(all.len() as int) =~= all);
    None
}

proof fn lemma_tag_stays(tags: Seq<(Seq<char>, Seq<char>)>, name: Seq<char>, k: int)
    requires
        0 <= k <= tags.len(),
        tag_value(tags.take(k), name) is Some,
    ensures
        tag_value(tags, name) == tag_value(tags.take(k), name),
    decreases tags.len(),
{
    if k == tags.len() {
        assert(tags.take(k) =~= tags);
    } else {
        assert(tags.drop_last().take(k) =~= tags.take(k));
        lemma_tag_stays(tags.drop_last(), name, k);
    }
}

proof fn lemma_field_stays(
    fields: Seq<(Seq<char>, ingest::FieldView)>,
    name: Seq<char>,
    k: int,
)
    requires
        0 <= k <= fields.len(),
        field_value(fields.take(k), name) is Some,
    ensures
        field_value(fields, name) == field_value(fields.take(k), name),
    decreases fields.len(),
{
    if k == fields.len() {
        assert(fields.take(k) =~= fields);
    } else {
        assert(fields.drop_last().take(k) =~= fields.take(k));
        lemma_field_stays(fields.drop_last(), name, k);
    }
}

fn find_value<'a>(fields: &'a Vec<(String, FieldValue)>, name: &str) -> (r: Option<&'a FieldValue>)
    ensures
        match (r, field_value(ingest::field_views(fields@), name@)) {
            (Some(v), Some(w)) => v@ == w,
            (None, None) => true,
            _ => false,
        },
{
    let ghost all = ingest::field_views(fields@);
    let mut i: usize = 0;
    assert(all.take(0) =~= Seq::empty());
    while i < fields.len()
        invariant
            i <= fields.len(),
            all == ingest::field_views(fields@),
            field_value(all.take(i as int), name@) is None,
        decreases fields.len() - i,
    {
        assert(all.take(i + 1).drop_last() =~= all.take(i as int));
        assert(all.take(i + 1).last() == (fields@[i as int].0@, fields@[i as int].1@));
        if text::same(fields[i].0.as_str(), name) {
            proof {
                lemma_field_stays(all, name@, i + 1);
            }
            return Some(&fields[i].1);
        }
        i += 1;
    }
    assert(all.take(all.len() as int) =~= all);
    None
}

fn field_datatype(v: &FieldValue) -> (r: DataType)
    ensures
        r@ == type_of(v@),
{
    match v {
        FieldValue::Float(_) => DataType::Float64,
        FieldValue::Int(_) => DataType::Int64,
        FieldValue::UInt(_) => DataType::UInt64,
        FieldValue::Bool(_) => DataType::Boolean,
        FieldValue::Str(_) => DataType::Utf8,
    }
}

fn tag_names(rows: &Vec<LastValue>) -> (r: Vec<String>)
    ensures
        are_tags(text::texts(r@), lastvalue::last_views(rows@)),
{
    let ghost all = lastvalue::last_views(rows@);
    let mut names: Vec<String> = Vec::new();
    let mut i: usize = 0;
    assert(all.take(0) =~= Seq::empty());
    assert(text::texts(names@) =~= Seq::empty());
    while i < rows.len()
        invariant
            i <= rows.len(),
            all == lastvalue::last_views(rows@),
            are_tags(text::texts(names@), all.take(i as int)),
        decreases rows.len() - i,
    {
        let ghost before = all.take(i as int);
        assert(all.take(i + 1).drop_last() =~= before);
        let tags = &rows[i].tags;
        let ghost list = ingest::tag_views(tags@);
        assert(all[i as int].tags == list);
        let mut j: usize = 0;
        assert(list.take(0) =~= Seq::empty());
        while j < tags.len()
            invariant
                j <= tags.len(),
                list == ingest::tag_views(tags@),
                text::strictly_ordered(text::texts(names@)),
                forall|k: Seq<char>| #[trigger]
                    text::texts(names@).contains(k) <==> tag_seen(before, k) || tag_value(
                        list.take(j as int),
                        k,
                    ) is Some,
            decreases tags.len() - j,
        {
            assert(list.take(j + 1).drop_last() =~= list.take(j as int));
            assert(list.take(j + 1).last() == (tags@[j as int].0@, tags@[j as int].1@));
            text::insert_once(&mut names, tags[j].0.as_str());
            j += 1;
        }
        assert(list.take(list.len() as int) =~= list);
        i += 1;
    }
    assert(all.take(all.len() as int) =~= all);
    names
}

fn field_names(rows: &Vec<LastValue>) -> (r: Vec<String>)
    ensures
        are_fields(text::texts(r@), lastvalue::last_views(rows@)),
{
    let ghost all = lastvalue::last_views(rows@);
    let mut names: Vec<String> = Vec::new();
    let mut i: usize = 0;
    assert(all.take(0) =~= Seq::empty());
    assert(text::texts(names@) =~= Seq::empty());
    while i < rows.len()
        invariant
            i <= rows.len(),
            all == lastvalue::last_views(rows@),
            are_fields(text::texts(names@), all.take(i as int)),
        decreases rows.len() - i,
    {
        let ghost before = all.take(i as int);
        assert(all.take(i + 1).drop_last() =~= before);
        let fields = &rows[i].fields;
        let ghost list = ingest::field_views(fields@);
        assert(all[i as int].fields == list);
        let mut j: usize = 0;
        assert(list.take(0) =~= Seq::empty());
        while j < fields.len()
            invariant
                j <= fields.len(),
                list == ingest::field_views(fields@),
                text::strictly_ordered(text::texts(names@)),
                forall|k: Seq<char>| #[trigger]
                    text::texts(names@).contains(k) <==> type_seen(before, k) is Some
                        || field_value(list.take(j as int), k) is Some,
            decreases fields.len() - j,
        {
            assert(list.take(j + 1).drop_last() =~= list.take(j as int));
            assert(list.take(j + 1).last() == (fields@[j as int].0@, fields@[j as int].1@));
            text::insert_once(&mut names, fields[j].0.as_str());
            j += 1;
        }
        assert(list.take(list.len() as int) =~= list);
        i += 1;
    }
    assert(all.take(all.len() as int) =~= all);
    names
}

proof fn lemma_type_stays(rows: Seq<lastvalue::LastView>, name: Seq<char>, k: int)
    requires
        0 <= k <= rows.len(),
        type_seen(rows.take(k), name) is Some,
    ensures
        type_seen(rows, name) == type_seen(rows.take(k), name),
    decreases rows.len(),
{
    if k == rows.len() {
        assert(rows.take(k) =~= rows);
    } else {
        assert(rows.drop_last().take(k) =~= rows.take(k));
        lemma_type_stays(rows.drop_last(), name, k);
    }
}

fn first_type(rows: &Vec<LastValue>, name: &str) -> (r: DataType)
    requires
        type_seen(lastvalue::last_views(rows@), name@) is Some,
    ensures
        r@ == type_seen(lastvalue::last_views(rows@), name@)->Some_0,
{
    let ghost all = lastvalue::last_views(rows@);
    let mut i: usize = 0;
    assert(all.take(0) =~= Seq::empty());
    while i < rows.len()
        invariant
            i <= rows.len(),
            all == lastvalue::last_views(rows@),
            type_seen(all.take(i as int), name@) is None,
        decreases rows.len() - i,
    {
        assert(all.take(i + 1).drop_last() =~= all.take(i as int));
        assert(all[i as int] == rows@[i as int]@);
        if let Some(v) = find_value(&rows[i].fields, name) {
            proof {
                lemma_type_stays(all, name@, i + 1);
            }
            return field_datatype(v);
        }
        i += 1;
    }
    assert(all.take(all.len() as int) =~= all);
    DataType::Utf8
}

fn no_dictionary() -> (r: Vec<String>)
    ensures
        text::texts(r@) == Seq::<Seq<char>>::empty(),
{
    let r: Vec<String> = Vec::new();
    assert(text::texts(r@) =~= Seq::empty());
    r
}

fn make_time_column(rows: &Vec<LastValue>) -> (r: Column)
    ensures
        r@ == time_column(lastvalue::last_views(rows@)),
{
    let ghost all = lastvalue::last_views(rows@);
    let mut cells: Vec<Cell> = Vec::new();
    let mut i: usize = 0;
    while i < rows.len()
        invariant
            i <= rows.len(),
            cells.len() == i,
            all == lastvalue::last_views(rows@),
            forall|k: int|
                0 <= k < i ==> (#[trigger] cells@[k])@ == batch::CellView::Time(
                    all[k].timestamp_ns,
                ),
        decreases rows.len() - i,
    {
        assert(all[i as int] == rows@[i as int]@);
        cells.push(Cell::Time(rows[i].timestamp_ns));
        i += 1;
    }
    assert(batch::cell_views(cells@) =~= time_column(all).cells);
    Column {
        field: Field::new("time", DataType::TimeNs(None), false),
        dictionary: no_dictionary(),
        cells,
    }
}

fn make_tag_column(rows: &Vec<LastValue>, name: &str) -> (r: Column)
    ensures
        r@ == tag_column(lastvalue::last_views(rows@), name@),
{
    let ghost all = lastvalue::last_views(rows@);
    let mut cells: Vec<Cell> = Vec::new();
    let mut i: usize = 0;
    while i < rows.len()
        invariant
            i <= rows.len(),
            cells.len() == i,
            all == lastvalue::last_views(rows@),
            forall|k: int|
                0 <= k < i ==> (#[trigger] cells@[k])@ == tag_column(all, name@).cells[k],
        decreases rows.len() - i,
    {
        assert(all[i as int] == rows@[i as int]@);
        cells.push(
            match find_tag(&rows[i].tags, name) {
                Some(v) => Cell::Str(v),
                None => Cell::Null,
            },
        );
        i += 1;
    }
    assert(batch::cell_views(cells@) =~= tag_column(all, name@).cells);
    Column { field: Field::new(name, DataType::Utf8, true), dictionary: no_dictionary(), cells }
}

fn field_column(rows: &Vec<LastValue>, name: &str) -> (r: Column)
    requires
        type_seen(lastvalue::last_views(rows@), name@) is Some,
    ensures
        r@ == field_column_of(lastvalue::last_views(rows@), name@),
{
    let ghost all = lastvalue::last_views(rows@);
    let t = first_type(rows, name);
    let mut cells: Vec<Cell> = Vec::new();
    let mut i: usize = 0;
    while i < rows.len()
        invariant
            i <= rows.len(),
            cells.len() == i,
            all == lastvalue::last_views(rows@),
            forall|k: int|
                0 <= k < i ==> (#[trigger] cells@[k])@ == field_cell(all[k], name@, t@),
        decreases rows.len() - i,
    {
        assert(all[i as int] == rows@[i as int]@);
        let cell = match find_value(&rows[i].fields, name) {
            Some(v) => {
                if field_datatype(v).same(&t) {
                    batch::to_cell(v)
                } else {
                    Cell::Null
                }
            },
            None => Cell::Null,
        };
        cells.push(cell);
        i += 1;
    }
    assert(batch::cell_views(cells@) =~= field_column_of(all, name@).cells);
    Column { field: Field::new(name, t, true), dictionary: no_dictionary(), cells }
}

/// Readings as one batch: the time, every tag that any of them has, and every
/// field, by name. No reading at all is a batch without rows that has a time.
pub fn build_batch(rows: &Vec<LastValue>) -> (r: Batch)
    ensures
        ({
            let all = lastvalue::last_views(rows@);
            exists|tags: Seq<Seq<char>>, fields: Seq<Seq<char>>|
                are_tags(tags, all) && are_fields(fields, all) && r@ == (batch::BatchView {
                    columns: #[trigger] columns_of(all, tags, fields),
                    rows: all.len(),
                })
        }),
        r@.well_formed(),
{
    let ghost all = lastvalue::last_views(rows@);
    let tags = tag_names(rows);
    let fields = field_names(rows);
    let ghost t = text::texts(tags@);
    let ghost f = text::texts(fields@);
    let ghost whole = columns_of(all, t, f);
    let mut columns: Vec<Column> = Vec::new();
    columns.push(make_time_column(rows));
    assert(batch::column_views(columns@) =~= whole.take(1));
    let mut i: usize = 0;
    while i < tags.len()
        invariant
            i <= tags.len(),
            all == lastvalue::last_views(rows@),
            t == text::texts(tags@),
            whole == columns_of(all, t, f),
            batch::column_views(columns@) == whole.take(1 + i),
        decreases tags.len() - i,
    {
        let ghost was = batch::column_views(columns@);
        assert(t[i as int] == tags@[i as int]@);
        let c = make_tag_column(rows, tags[i].as_str());
        let ghost v = c@;
        columns.push(c);
        assert(batch::column_views(columns@) =~= was.push(v));
        assert(whole[1 + i] == v);
        assert(whole.take(2 + i) =~= whole.take(1 + i).push(whole[1 + i]));
        i += 1;
    }
    let mut j: usize = 0;
    while j < fields.len()
        invariant
            j <= fields.len(),
            all == lastvalue::last_views(rows@),
            f == text::texts(fields@),
            are_fields(f, all),
            whole == columns_of(all, t, f),
            batch::column_views(columns@) == whole.take(1 + t.len() + j),
        decreases fields.len() - j,
    {
        let ghost was = batch::column_views(columns@);
        assert(f[j as int] == fields@[j as int]@);
        assert(f.contains(f[j as int]));
        let c = field_column(rows, fields[j].as_str());
        let ghost v = c@;
        columns.push(c);
        assert(batch::column_views(columns@) =~= was.push(v));
        assert(whole[1 + t.len() + j] == v);
        assert(whole.take(2 + t.len() + j) =~= whole.take(1 + t.len() + j).push(
            whole[1 + t.len() + j],
        ));
        j += 1;
    }
    assert(whole.take(whole.len() as int) =~= whole);
    let r = Batch::new(columns, rows.len());
    proof {
        assert(r@ =~= (batch::BatchView { columns: whole, rows: all.len() }));
        assert forall|c: int| 0 <= c < r@.columns.len() implies {
            &&& (#[trigger] r@.columns[c]).cells.len() == r@.rows
            &&& forall|k: int|
                0 <= k < r@.rows ==> batch::fits(
                    r@.columns[c].field.data_type,
                    #[trigger] r@.columns[c].cells[k],
                )
        } by {
            if c == 0 {
                assert(whole[c] == time_column(all));
            } else if c < 1 + t.len() {
                assert(whole[c] == tag_column(all, t[c - 1]));
            } else {
                let n = f[c - 1 - t.len()];
                assert(whole[c] == field_column_of(all, n));
                let ty = type_seen(all, n)->Some_0;
                assert forall|k: int| 0 <= k < r@.rows implies batch::fits(
                    r@.columns[c].field.data_type,
                    #[trigger] r@.columns[c].cells[k],
                ) by {
                    assert(whole[c].cells[k] == field_cell(all[k], n, ty));
                }
            }
        }
    }
    r
}

/// What a reading gives for a tag or a field is the first value that it has under
/// that name, and nothing where it has none.
pub proof fn the_first_value_of_a_name_is_given(
    tags: Seq<(Seq<char>, Seq<char>)>,
    fields: Seq<(Seq<char>, ingest::FieldView)>,
    name: Seq<char>,
)
    ensures
        forall|i: int|
            0 <= i < tags.len() && (#[trigger] tags[i]).0 == name && (forall|j: int|
                0 <= j < i ==> (#[trigger] tags[j]).0 != name) ==> tag_value(tags, name) == Some(
                tags[i].1,
            ),
        (forall|j: int| 0 <= j < tags.len() ==> (#[trigger] tags[j]).0 != name) ==> tag_value(
            tags,
            name,
        ) is None,
        forall|i: int|
            0 <= i < fields.len() && (#[trigger] fields[i]).0 == name && (forall|j: int|
                0 <= j < i ==> (#[trigger] fields[j]).0 != name) ==> field_value(fields, name)
                == Some(fields[i].1),
        (forall|j: int| 0 <= j < fields.len() ==> (#[trigger] fields[j]).0 != name) ==> field_value(
            fields,
            name,
        ) is None,
{
    lemma_tag_value(tags, name);
    lemma_field_value(fields, name);
}

proof fn lemma_tag_value(tags: Seq<(Seq<char>, Seq<char>)>, name: Seq<char>)
    ensures
        forall|i: int|
            0 <= i < tags.len() && (#[trigger] tags[i]).0 == name && (forall|j: int|
                0 <= j < i ==> (#[trigger] tags[j]).0 != name) ==> tag_value(tags, name) == Some(
                tags[i].1,
            ),
        (forall|j: int| 0 <= j < tags.len() ==> (#[trigger] tags[j]).0 != name) ==> tag_value(
            tags,
            name,
        ) is None,
    decreases tags.len(),
{
    if tags.len() > 0 {
        let init = tags.drop_last();
        lemma_tag_value(init, name);
        assert forall|j: int| 0 <= j < init.len() implies #[trigger] init[j] == tags[j] by {}
        assert forall|i: int|
            0 <= i < tags.len() && (#[trigger] tags[i]).0 == name && (forall|j: int|
                0 <= j < i ==> (#[trigger] tags[j]).0 != name) implies tag_value(tags, name)
            == Some(tags[i].1) by {
            if i < init.len() {
                assert(init[i].0 == name);
            } else {
                assert forall|j: int| 0 <= j < init.len() implies (#[trigger] init[j]).0
                    != name by {
                    assert(tags[j].0 != name);
                }
            }
        }
        if forall|j: int| 0 <= j < tags.len() ==> (#[trigger] tags[j]).0 != name {
            assert(tags[tags.len() - 1].0 != name);
            assert forall|j: int| 0 <= j < init.len() implies (#[trigger] init[j]).0 != name by {
                assert(tags[j].0 != name);
            }
        }
    }
}

proof fn lemma_field_value(fields: Seq<(Seq<char>, ingest::FieldView)>, name: Seq<char>)
    ensures
        forall|i: int|
            0 <= i < fields.len() && (#[trigger] fields[i]).0 == name && (forall|j: int|
                0 <= j < i ==> (#[trigger] fields[j]).0 != name) ==> field_value(fields, name)
                == Some(fields[i].1),
        (forall|j: int| 0 <= j < fields.len() ==> (#[trigger] fields[j]).0 != name) ==> field_value(
            fields,
            name,
        ) is None,
    decreases fields.len(),
{
    if fields.len() > 0 {
        let init = fields.drop_last();
        lemma_field_value(init, name);
        assert forall|j: int| 0 <= j < init.len() implies #[trigger] init[j] == fields[j] by {}
        assert forall|i: int|
            0 <= i < fields.len() && (#[trigger] fields[i]).0 == name && (forall|j: int|
                0 <= j < i ==> (#[trigger] fields[j]).0 != name) implies field_value(fields, name)
            == Some(fields[i].1) by {
            if i < init.len() {
                assert(init[i].0 == name);
            } else {
                assert forall|j: int| 0 <= j < init.len() implies (#[trigger] init[j]).0
                    != name by {
                    assert(fields[j].0 != name);
                }
            }
        }
        if forall|j: int| 0 <= j < fields.len() ==> (#[trigger] fields[j]).0 != name {
            assert(fields[fields.len() - 1].0 != name);
            assert forall|j: int| 0 <= j < init.len() implies (#[trigger] init[j]).0 != name by {
                assert(fields[j].0 != name);
            }
        }
    }
}

/// A field of the cache is a cell of its own value where its type is the
/// column's, and nothing otherwise; times and tags are cells of themselves.
pub proof fn a_reading_is_shown_as_its_values(
    rows: Seq<lastvalue::LastView>,
    r: int,
    name: Seq<char>,
    v: ingest::FieldView,
)
    requires
        0 <= r < rows.len(),
    ensures
        time_column(rows).cells[r] == batch::CellView::Time(rows[r].timestamp_ns),
        tag_value(rows[r].tags, name) matches Some(s) ==> tag_column(rows, name).cells[r]
            == batch::CellView::Str(s),
        tag_value(rows[r].tags, name) is None ==> tag_column(rows, name).cells[r] is Null,
        field_value(rows[r].fields, name) == Some(v) ==> {
            let cell = field_cell(rows[r], name, type_of(v));
            match v {
                ingest::FieldView::Float(f) => cell == batch::CellView::Float(f),
                ingest::FieldView::Int(n) => cell == batch::CellView::Int(n),
                ingest::FieldView::UInt(n) => cell == batch::CellView::UInt(n),
                ingest::FieldView::Bool(b) => cell == batch::CellView::Bool(b),
                ingest::FieldView::Str(s) => cell == batch::CellView::Str(s),
            }
        },
        field_value(rows[r].fields, name) is None ==> field_cell(rows[r], name, type_of(v)) is Null,
{
}

/// The column of a field has the type of the first value that the readings give
/// for it.
pub proof fn the_first_value_gives_the_type(
    rows: Seq<lastvalue::LastView>,
    name: Seq<char>,
    k: int,
    n: i64,
    u: u64,
    b: bool,
    s: Seq<char>,
    f: ingest::FloatView,
)
    requires
        0 <= k < rows.len(),
        forall|j: int| 0 <= j < k ==> field_value((#[trigger] rows[j]).fields, name) is None,
    ensures
        field_value(rows[k].fields, name) == Some(ingest::FieldView::Int(n)) ==> type_seen(
            rows,
            name,
        ) == Some(batch::TypeView::Int64),
        field_value(rows[k].fields, name) == Some(ingest::FieldView::UInt(u)) ==> type_seen(
            rows,
            name,
        ) == Some(batch::TypeView::UInt64),
        field_value(rows[k].fields, name) == Some(ingest::FieldView::Bool(b)) ==> type_seen(
            rows,
            name,
        ) == Some(batch::TypeView::Boolean),
        field_value(rows[k].fields, name) == Some(ingest::FieldView::Str(s)) ==> type_seen(
            rows,
            name,
        ) == Some(batch::TypeView::Utf8),
        field_value(rows[k].fields, name) == Some(ingest::FieldView::Float(f)) ==> type_seen(
            rows,
            name,
        ) == Some(batch::TypeView::Float64),
        field_value(rows[k].fields, name) is None && k == rows.len() - 1 ==> type_seen(
            rows,
            name,
        ) is None,
    decreases rows.len(),
{
    let init = rows.drop_last();
    assert forall|j: int| 0 <= j < k && j < init.len() implies field_value(
        (#[trigger] init[j]).fields,
        name,
    ) is None by {
        assert(init[j] == rows[j]);
    }
    if k < init.len() {
        the_first_value_gives_the_type(init, name, k, n, u, b, s, f);
        assert(init[k] == rows[k]);
    } else if init.len() > 0 {
        let last = init.len() - 1;
        assert(rows[last] == init[last]);
        the_first_value_gives_the_type(init, name, last, n, u, b, s, f);
    }
}

} // verus!
