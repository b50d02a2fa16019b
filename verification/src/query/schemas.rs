//! Bringing batches that were written under different schemas to one.
use crate::batch;
use crate::batch::{Batch, Cell, Column, DataType, Field};
use crate::text;
use vstd::prelude::*;

verus! {

/// The position of the first field with a name.
pub open spec fn field_at(schema: Seq<batch::FieldDesc>, name: Seq<char>) -> Option<int>
    decreases schema.len(),
{
    if schema.len() == 0 {
        None
    } else {
        match field_at(schema.drop_last(), name) {
            Some(i) => Some(i),
            None => if schema.last().name == name {
                Some(schema.len() - 1)
            } else {
                None
            },
        }
    }
}

/// The first field with a name has that name, and there is one whenever any
/// field has it.
pub proof fn field_at_is_first(schema: Seq<batch::FieldDesc>, name: Seq<char>)
    ensures
        match field_at(schema, name) {
            Some(i) => {
                &&& 0 <= i < schema.len()
                &&& schema[i].name == name
                &&& forall|j: int| 0 <= j < i ==> (#[trigger] schema[j]).name != name
            },
            None => forall|j: int| 0 <= j < schema.len() ==> (#[trigger] schema[j]).name != name,
        },
    decreases schema.len(),
{
    if schema.len() > 0 {
        field_at_is_first(schema.drop_last(), name);
        assert forall|j: int| 0 <= j < schema.len() - 1 implies (#[trigger] schema[j])
            == schema.drop_last()[j] by {}
    }
}

/// The position of the first field with a name.
pub fn find_field(schema: &Vec<Field>, name: &str) -> (r: Option<usize>)
    ensures
        match (r, field_at(batch::schema_view(schema@), name@)) {
            (Some(i), Some(j)) => i == j && i < schema.len(),
            (None, None) => true,
            _ => false,
        },
{
    let ghost all = batch::schema_view(schema@);
    proof {
        field_at_is_first(all, name@);
    }
    let mut i: usize = 0;
    while i < schema.len()
        invariant
            i <= schema.len(),
            all == batch::schema_view(schema@),
            forall|j: int| 0 <= j < i ==> (#[trigger] all[j]).name != name@,
            match field_at(all, name@) {
                Some(k) => {
                    &&& 0 <= k < all.len()
                    &&& all[k].name == name@
                    &&& forall|j: int| 0 <= j < k ==> (#[trigger] all[j]).name != name@
                },
                None => forall|j: int| 0 <= j < all.len() ==> (#[trigger] all[j]).name != name@,
            },
        decreases schema.len() - i,
    {
        assert(all[i as int] == schema@[i as int]@);
        if text::same(schema[i].name.as_str(), name) {
            return Some(i);
        }
        i += 1;
    }
    None
}

/// Why a name cannot have two types.
pub open spec fn type_clash(name: Seq<char>, a: batch::TypeView, b: batch::TypeView) -> Seq<char> {
    "column '"@ + name + "' has conflicting types "@ + batch::type_text(a) + " vs "@
        + batch::type_text(b)
}

/// A schema with one more field behind it, unless it has one of that name; an
/// error where that one has another type.
pub open spec fn with_field(s: Seq<batch::FieldDesc>, f: batch::FieldDesc) -> Result<
    Seq<batch::FieldDesc>,
    Seq<char>,
> {
    match field_at(s, f.name) {
        None => Ok(s.push(batch::plain_field(f.name, f.data_type, true))),
        Some(i) => if s[i].data_type == f.data_type {
            Ok(s)
        } else {
            Err(type_clash(f.name, s[i].data_type, f.data_type))
        },
    }
}

/// A schema with the fields of another behind its own, each name once.
pub open spec fn with_fields(s: Seq<batch::FieldDesc>, more: Seq<batch::FieldDesc>) -> Result<
    Seq<batch::FieldDesc>,
    Seq<char>,
>
    decreases more.len(),
{
    if more.len() == 0 {
        Ok(s)
    } else {
        match with_fields(s, more.drop_last()) {
            Err(m) => Err(m),
            Ok(p) => with_field(p, more.last()),
        }
    }
}

fn clash(name: &str, a: &DataType, b: &DataType) -> (r: String)
    ensures
        r@ == type_clash(name@, a@, b@),
{
    let mut m = String::from_str("column '");
    m.append(name);
    m.append("' has conflicting types ");
    m.append(a.describe().as_str());
    m.append(" vs ");
    m.append(b.describe().as_str());
    m
}

fn add_field(out: &mut Vec<Field>, f: &Field) -> (r: Result<(), String>)
    ensures
        match (r, with_field(batch::schema_view(old(out)@), f@)) {
            (Ok(_), Ok(s)) => batch::schema_view(final(out)@) == s,
            (Err(m), Err(t)) => m@ == t,
            _ => false,
        },
{
    let ghost was = batch::schema_view(out@);
    match find_field(out, f.name.as_str()) {
        None => {
            let g = Field::new(f.name.as_str(), f.data_type.copy(), true);
            out.push(g);
            assert(batch::schema_view(out@) =~= was.push(g@));
            Ok(())
        },
        Some(i) => {
            assert(was[i as int] == out@[i as int]@);
            if out[i].data_type.same(&f.data_type) {
                Ok(())
            } else {
                Err(clash(f.name.as_str(), &out[i].data_type, &f.data_type))
            }
        },
    }
}

proof fn lemma_clash_stays(
    s: Seq<batch::FieldDesc>,
    more: Seq<batch::FieldDesc>,
    k: int,
)
    requires
        0 <= k <= more.len(),
        with_fields(s, more.take(k)) is Err,
    ensures
        with_fields(s, more) == with_fields(s, more.take(k)),
    decreases more.len(),
{
    if k == more.len() {
        assert(more.take(k) =~= more);
    } else {
        assert(more.drop_last().take(k) =~= more.take(k));
        lemma_clash_stays(s, more.drop_last(), k);
    }
}

fn add_fields(out: &mut Vec<Field>, more: &Vec<Field>) -> (r: Result<(), String>)
    ensures
        match (r, with_fields(batch::schema_view(old(out)@), batch::schema_view(more@))) {
            (Ok(_), Ok(s)) => batch::schema_view(final(out)@) == s,
            (Err(m), Err(t)) => m@ == t,
            _ => false,
        },
{
    let ghost was = batch::schema_view(out@);
    let ghost all = batch::schema_view(more@);
    let mut i: usize = 0;
    assert(all.take(0) =~= Seq::empty());
    while i < more.len()
        invariant
            i <= more.len(),
            was == batch::schema_view(old(out)@),
            all == batch::schema_view(more@),
            with_fields(was, all.take(i as int)) == Ok::<Seq<batch::FieldDesc>, Seq<char>>(
                batch::schema_view(out@),
            ),
        decreases more.len() - i,
    {
        proof {
            assert(all.take(i + 1).drop_last() =~= all.take(i as int));
            assert(all[i as int] == more@[i as int]@);
            if with_fields(was, all.take(i + 1)) is Err {
                lemma_clash_stays(was, all, i + 1);
            }
        }
        match add_field(out, &more[i]) {
            Ok(_) => {},
            Err(m) => {
                return Err(m);
            },
        }
        i += 1;
    }
    assert(all.take(all.len() as int) =~= all);
    Ok(())
}

/// The type of the last field with a name.
pub open spec fn last_type(s: Seq<batch::FieldDesc>, name: Seq<char>) -> batch::TypeView
    decreases s.len(),
{
    if s.len() <= 1 || s.last().name == name {
        s.last().data_type
    } else {
        last_type(s.drop_last(), name)
    }
}

/// A schema with every field nullable and without a role; a name that occurs
/// twice has its last type.
pub open spec fn plain_schema(s: Seq<batch::FieldDesc>) -> Seq<batch::FieldDesc> {
    s.map_values(|f: batch::FieldDesc| batch::plain_field(f.name, last_type(s, f.name), true))
}

/// The union of two schemas: the second alone where there is no first, else
/// the fields of the first and behind them those of the second that it lacks.
pub open spec fn union_of(a: Option<Seq<batch::FieldDesc>>, b: Seq<batch::FieldDesc>) -> Result<
    Seq<batch::FieldDesc>,
    Seq<char>,
> {
    match a {
        None => Ok(b),
        Some(s) => with_fields(plain_schema(s), b),
    }
}

/// What an optional schema says.
pub open spec fn opt_schema(a: Option<Vec<Field>>) -> Option<Seq<batch::FieldDesc>> {
    match a {
        Some(s) => Some(batch::schema_view(s@)),
        None => None,
    }
}

fn find_last_type(s: &Vec<Field>, name: &str) -> (r: DataType)
    requires
        s.len() > 0,
    ensures
        r@ == last_type(batch::schema_view(s@), name@),
{
    let ghost all = batch::schema_view(s@);
    let mut i: usize = s.len();
    assert(all.take(all.len() as int) =~= all);
    while i > 1
        invariant
            1 <= i <= s.len(),
            all == batch::schema_view(s@),
            last_type(all, name@) == last_type(all.take(i as int), name@),
        decreases i,
    {
        assert(all.take(i as int).last() == s@[i - 1]@);
        assert(all.take(i as int).drop_last() =~= all.take(i - 1));
        if text::same(s[i - 1].name.as_str(), name) {
            return s[i - 1].data_type.copy();
        }
        i -= 1;
    }
    assert(all.take(1).last() == s@[0]@);
    s[0].data_type.copy()
}

/// The union of two schemas.
pub fn schema_union(a: Option<Vec<Field>>, b: Vec<Field>) -> (r: Result<Vec<Field>, String>)
    ensures
        match (r, union_of(opt_schema(a), batch::schema_view(b@))) {
            (Ok(s), Ok(v)) => batch::schema_view(s@) == v,
            (Err(m), Err(t)) => m@ == t,
            _ => false,
        },
{
    match a {
        None => Ok(b),
        Some(s) => {
            let ghost all = batch::schema_view(s@);
            let ghost plain = plain_schema(all);
            let mut out: Vec<Field> = Vec::new();
            let mut i: usize = 0;
            assert(batch::schema_view(out@) =~= Seq::empty());
            while i < s.len()
                invariant
                    i <= s.len(),
                    all == batch::schema_view(s@),
                    plain == plain_schema(all),
                    batch::schema_view(out@) == plain.take(i as int),
                decreases s.len() - i,
            {
                assert(all[i as int] == s@[i as int]@);
                let ghost done = batch::schema_view(out@);
                let t = find_last_type(&s, s[i].name.as_str());
                let f = Field::new(s[i].name.as_str(), t, true);
                out.push(f);
                assert(batch::schema_view(out@) =~= done.push(f@));
                assert(plain.take(i + 1) =~= plain.take(i as int).push(plain[i as int]));
                i += 1;
            }
            assert(plain.take(plain.len() as int) =~= plain);
            match add_fields(&mut out, &b) {
                Ok(_) => Ok(out),
                Err(m) => Err(m),
            }
        },
    }
}

// ------------------------------------------------------------- aligning batches

/// The fields of batches in a row.
pub open spec fn all_fields(bs: Seq<batch::BatchView>) -> Seq<batch::FieldDesc>
    decreases bs.len(),
{
    if bs.len() == 0 {
        Seq::empty()
    } else {
        all_fields(bs.drop_last()) + bs.last().schema()
    }
}

/// A column of a batch under a field: the batch's first column of that name,
/// or nothing in every row.
pub open spec fn aligned_column(b: batch::BatchView, f: batch::FieldDesc) -> batch::ColumnView {
    match batch::column_at(b.columns, f.name) {
        Some(c) => batch::ColumnView {
            field: f,
            dictionary: b.columns[c].dictionary,
            cells: b.columns[c].cells,
        },
        None => batch::ColumnView {
            field: f,
            dictionary: Seq::empty(),
            cells: Seq::new(b.rows, |i: int| batch::CellView::Null),
        },
    }
}

/// A batch under a schema.
pub open spec fn aligned_batch(b: batch::BatchView, schema: Seq<batch::FieldDesc>) -> batch::BatchView {
    batch::BatchView {
        columns: schema.map_values(|f: batch::FieldDesc| aligned_column(b, f)),
        rows: b.rows,
    }
}

/// What batches hold.
pub open spec fn batch_views(v: Seq<Batch>) -> Seq<batch::BatchView> {
    v.map_values(|b: Batch| b@)
}

fn null_cells(n: usize) -> (r: Vec<Cell>)
    ensures
        batch::cell_views(r@) == Seq::new(n as nat, |i: int| batch::CellView::Null),
{
    let mut v: Vec<Cell> = Vec::new();
    let mut i: usize = 0;
    while i < n
        invariant
            i <= n,
            v@.len() == i,
            forall|k: int| 0 <= k < i ==> (#[trigger] v@[k])@ == batch::CellView::Null,
        decreases n - i,
    {
        v.push(Cell::Null);
        i += 1;
    }
    assert(batch::cell_views(v@) =~= Seq::new(n as nat, |i: int| batch::CellView::Null));
    v
}

fn align_one(b: &Batch, schema: &Vec<Field>) -> (r: Batch)
    ensures
        r@ == aligned_batch(b@, batch::schema_view(schema@)),
{
    let ghost fields = batch::schema_view(schema@);
    let ghost all = aligned_batch(b@, fields);
    let mut columns: Vec<Column> = Vec::new();
    let mut i: usize = 0;
    assert(batch::column_views(columns@) =~= Seq::empty());
    while i < schema.len()
        invariant
            i <= schema.len(),
            fields == batch::schema_view(schema@),
            all == aligned_batch(b@, fields),
            batch::column_views(columns@) == all.columns.take(i as int),
        decreases schema.len() - i,
    {
        let f = &schema[i];
        assert(fields[i as int] == f@);
        let ghost done = batch::column_views(columns@);
        let col = match batch::find_column(&b.columns, f.name.as_str()) {
            Some(c) => {
                assert(b@.columns[c as int] == b.columns@[c as int]@);
                Column {
                    field: f.copy(),
                    dictionary: text::copy_texts(&b.columns[c].dictionary),
                    cells: batch::copy_cells(&b.columns[c].cells),
                }
            },
            None => {
                let empty: Vec<String> = Vec::new();
                assert(text::texts(empty@) =~= Seq::empty());
                Column { field: f.copy(), dictionary: empty, cells: null_cells(b.rows) }
            },
        };
        columns.push(col);
        assert(col@ =~= all.columns[i as int]);
        assert(batch::column_views(columns@) =~= done.push(col@));
        assert(all.columns.take(i + 1) =~= all.columns.take(i as int).push(all.columns[i as int]));
        i += 1;
    }
    assert(all.columns.take(all.columns.len() as int) =~= all.columns);
    Batch::new(columns, b.rows)
}

proof fn lemma_fields_in_two(
    s: Seq<batch::FieldDesc>,
    a: Seq<batch::FieldDesc>,
    b: Seq<batch::FieldDesc>,
)
    ensures
        with_fields(s, a + b) == (match with_fields(s, a) {
            Err(m) => Err(m),
            Ok(p) => with_fields(p, b),
        }),
    decreases b.len(),
{
    if b.len() > 0 {
        lemma_fields_in_two(s, a, b.drop_last());
        assert((a + b).drop_last() =~= a + b.drop_last());
    } else {
        assert(a + b =~= a);
    }
}

proof fn lemma_batch_clash_stays(bs: Seq<batch::BatchView>, k: int)
    requires
        0 <= k <= bs.len(),
        with_fields(Seq::empty(), all_fields(bs.take(k))) is Err,
    ensures
        with_fields(Seq::empty(), all_fields(bs)) == with_fields(
            Seq::empty(),
            all_fields(bs.take(k)),
        ),
    decreases bs.len(),
{
    if k == bs.len() {
        assert(bs.take(k) =~= bs);
    } else {
        assert(bs.drop_last().take(k) =~= bs.take(k));
        lemma_batch_clash_stays(bs.drop_last(), k);
        lemma_fields_in_two(Seq::empty(), all_fields(bs.drop_last()), bs.last().schema());
    }
}

/// What batches are told that have no column among them.
pub const NO_COLUMNS: &'static str =
    "Invalid argument error: must either specify a row count or at least one column";

/// The union of the schemas of batches, its fields in the order of their first
/// occurrence. A name with two types is an error, and so are batches without
/// any column.
pub open spec fn joint_schema(bs: Seq<batch::BatchView>) -> Result<
    Seq<batch::FieldDesc>,
    Seq<char>,
> {
    match with_fields(Seq::empty(), all_fields(bs)) {
        Err(m) => Err(m),
        Ok(s) => if s.len() == 0 && bs.len() > 0 {
            Err(NO_COLUMNS@)
        } else {
            Ok(s)
        },
    }
}

/// Brings batches to the union of their schemas; a column that a batch lacks is
/// nothing there.
pub fn align(batches: &Vec<Batch>) -> (r: Result<(Vec<Field>, Vec<Batch>), String>)
    ensures
        match (r, joint_schema(batch_views(batches@))) {
            (Ok((schema, out)), Ok(s)) => {
                &&& batch::schema_view(schema@) == s
                &&& batch_views(out@) == batch_views(batches@).map_values(
                    |b: batch::BatchView| aligned_batch(b, s),
                )
            },
            (Err(m), Err(t)) => m@ == t,
            _ => false,
        },
{
    let ghost all = batch_views(batches@);
    let mut schema: Vec<Field> = Vec::new();
    let mut i: usize = 0;
    assert(all.take(0) =~= Seq::empty());
    assert(batch::schema_view(schema@) =~= Seq::empty());
    while i < batches.len()
        invariant
            i <= batches.len(),
            all == batch_views(batches@),
            with_fields(Seq::empty(), all_fields(all.take(i as int))) == Ok::<
                Seq<batch::FieldDesc>,
                Seq<char>,
            >(batch::schema_view(schema@)),
        decreases batches.len() - i,
    {
        proof {
            assert(all.take(i + 1).drop_last() =~= all.take(i as int));
            assert(all[i as int] == batches@[i as int]@);
            lemma_fields_in_two(
                Seq::empty(),
                all_fields(all.take(i as int)),
                all[i as int].schema(),
            );
            if with_fields(Seq::empty(), all_fields(all.take(i + 1))) is Err {
                lemma_batch_clash_stays(all, i + 1);
            }
        }
        let fields = batches[i].schema();
        match add_fields(&mut schema, &fields) {
            Ok(_) => {},
            Err(m) => {
                return Err(m);
            },
        }
        i += 1;
    }
    assert(all.take(all.len() as int) =~= all);
    if schema.len() == 0 && batches.len() > 0 {
        return Err(NO_COLUMNS.to_owned());
    }
    let ghost s = batch::schema_view(schema@);
    let ghost want = all.map_values(|b: batch::BatchView| aligned_batch(b, s));
    let mut out: Vec<Batch> = Vec::new();
    let mut i: usize = 0;
    assert(batch_views(out@) =~= Seq::empty());
    while i < batches.len()
        invariant
            i <= batches.len(),
            all == batch_views(batches@),
            s == batch::schema_view(schema@),
            want == all.map_values(|b: batch::BatchView| aligned_batch(b, s)),
            batch_views(out@) == want.take(i as int),
        decreases batches.len() - i,
    {
        assert(all[i as int] == batches@[i as int]@);
        let ghost done = batch_views(out@);
        let b = align_one(&batches[i], &schema);
        out.push(b);
        assert(batch_views(out@) =~= done.push(b@));
        assert(want.take(i + 1) =~= want.take(i as int).push(want[i as int]));
        i += 1;
    }
    assert(want.take(want.len() as int) =~= want);
    Ok((schema, out))
}

/// Where a column of an aligned batch comes from: a column as it is, a column
/// that is converted to the field's type, or nothing.
#[derive(Debug, Clone, Copy, PartialEq, Eq, Structural)]
pub enum Source {
    Keep(usize),
    Cast(usize),
    Nothing,
}

/// Where the column of a field comes from, of a batch with a schema.
pub open spec fn source_of(f: batch::FieldDesc, from: Seq<batch::FieldDesc>) -> Source {
    match field_at(from, f.name) {
        Some(c) => if from[c].data_type == f.data_type {
            Source::Keep(c as usize)
        } else {
            Source::Cast(c as usize)
        },
        None => Source::Nothing,
    }
}

/// Where the columns of a batch under a fixed schema come from, one for each
/// field, given the batch's own schema.
pub fn align_to(schema: &Vec<Field>, from: &Vec<Field>) -> (r: Vec<Source>)
    ensures
        r@ == batch::schema_view(schema@).map_values(
            |f: batch::FieldDesc| source_of(f, batch::schema_view(from@)),
        ),
{
    let ghost fields = batch::schema_view(schema@);
    let ghost src = batch::schema_view(from@);
    let ghost want = fields.map_values(|f: batch::FieldDesc| source_of(f, src));
    let mut out: Vec<Source> = Vec::new();
    let mut i: usize = 0;
    while i < schema.len()
        invariant
            i <= schema.len(),
            fields == batch::schema_view(schema@),
            src == batch::schema_view(from@),
            want == fields.map_values(|f: batch::FieldDesc| source_of(f, src)),
            out@ == want.take(i as int),
        decreases schema.len() - i,
    {
        let f = &schema[i];
        assert(fields[i as int] == f@);
        let s = match find_field(from, f.name.as_str()) {
            Some(c) => {
                assert(src[c as int] == from@[c as int]@);
                if from[c].data_type.same(&f.data_type) {
                    Source::Keep(c)
                } else {
                    Source::Cast(c)
                }
            },
            None => Source::Nothing,
        };
        out.push(s);
        assert(want.take(i + 1) =~= want.take(i as int).push(want[i as int]));
        i += 1;
    }
    assert(want.take(want.len() as int) =~= want);
    out
}

// ------------------------------------------------------------ tags shown as views

/// The field that a planner is shown: a dictionary of strings as a view.
pub open spec fn shown_field(f: batch::FieldDesc) -> batch::FieldDesc {
    batch::FieldDesc {
        data_type: if batch::is_text_dictionary(f.data_type) {
            batch::TypeView::Utf8View
        } else {
            f.data_type
        },
        ..f
    }
}

/// The schema that a planner is shown.
pub fn view_schema(schema: &Vec<Field>) -> (r: Vec<Field>)
    ensures
        batch::schema_view(r@) == batch::schema_view(schema@).map_values(
            |f: batch::FieldDesc| shown_field(f),
        ),
{
    let ghost want = batch::schema_view(schema@).map_values(|f: batch::FieldDesc| shown_field(f));
    let mut out: Vec<Field> = Vec::new();
    let mut i: usize = 0;
    assert(batch::schema_view(out@) =~= Seq::empty());
    while i < schema.len()
        invariant
            i <= schema.len(),
            want == batch::schema_view(schema@).map_values(
                |f: batch::FieldDesc| shown_field(f),
            ),
            batch::schema_view(out@) == want.take(i as int),
        decreases schema.len() - i,
    {
        let ghost done = batch::schema_view(out@);
        assert(batch::schema_view(schema@)[i as int] == schema@[i as int]@);
        let mut f = schema[i].copy();
        if f.data_type.text_dictionary() {
            f.data_type = DataType::Utf8View;
        }
        out.push(f);
        assert(f@ =~= want[i as int]);
        assert(batch::schema_view(out@) =~= done.push(f@));
        assert(want.take(i + 1) =~= want.take(i as int).push(want[i as int]));
        i += 1;
    }
    assert(want.take(want.len() as int) =~= want);
    out
}

/// A column as a planner is shown it: the strings of a dictionary as they are,
/// without the dictionary.
pub open spec fn shown_column(c: batch::ColumnView) -> batch::ColumnView {
    batch::ColumnView {
        field: shown_field(c.field),
        dictionary: if batch::is_text_dictionary(c.field.data_type) {
            Seq::empty()
        } else {
            c.dictionary
        },
        cells: c.cells,
    }
}

/// A batch as a planner is shown it.
pub fn to_view_batch(b: &Batch) -> (r: Batch)
    ensures
        r@ == (batch::BatchView {
            columns: b@.columns.map_values(|c: batch::ColumnView| shown_column(c)),
            rows: b@.rows,
        }),
{
    let ghost want = b@.columns.map_values(|c: batch::ColumnView| shown_column(c));
    let mut columns: Vec<Column> = Vec::new();
    let mut i: usize = 0;
    assert(batch::column_views(columns@) =~= Seq::empty());
    while i < b.columns.len()
        invariant
            i <= b.columns.len(),
            want == b@.columns.map_values(|c: batch::ColumnView| shown_column(c)),
            batch::column_views(columns@) == want.take(i as int),
        decreases b.columns.len() - i,
    {
        let ghost done = batch::column_views(columns@);
        assert(b@.columns[i as int] == b.columns@[i as int]@);
        let mut c = b.columns[i].copy();
        if c.field.data_type.text_dictionary() {
            c.field.data_type = DataType::Utf8View;
            c.dictionary = Vec::new();
            assert(text::texts(c.dictionary@) =~= Seq::empty());
        }
        columns.push(c);
        assert(c@ =~= want[i as int]);
        assert(batch::column_views(columns@) =~= done.push(c@));
        assert(want.take(i + 1) =~= want.take(i as int).push(want[i as int]));
        i += 1;
    }
    assert(want.take(want.len() as int) =~= want);
    Batch::new(columns, b.rows)
}

/// Showing a well-formed batch keeps it well formed, and no string dictionary
/// is left in it.
pub proof fn shown_batches_are_well_formed(b: batch::BatchView)
    requires
        b.well_formed(),
    ensures
        ({
            let s = batch::BatchView {
                columns: b.columns.map_values(|c: batch::ColumnView| shown_column(c)),
                rows: b.rows,
            };
            &&& s.well_formed()
            &&& forall|c: int|
                0 <= c < s.columns.len() ==> !batch::is_text_dictionary(
                    (#[trigger] s.columns[c]).field.data_type,
                )
        }),
{
    let s = batch::BatchView {
        columns: b.columns.map_values(|c: batch::ColumnView| shown_column(c)),
        rows: b.rows,
    };
    assert forall|c: int| 0 <= c < s.columns.len() implies {
        &&& (#[trigger] s.columns[c]).cells.len() == s.rows
        &&& forall|r: int|
            0 <= r < s.rows ==> batch::fits(
                s.columns[c].field.data_type,
                #[trigger] s.columns[c].cells[r],
            )
    } by {
        assert(b.columns[c].cells.len() == b.rows);
        assert forall|r: int| 0 <= r < s.rows implies batch::fits(
            s.columns[c].field.data_type,
            #[trigger] s.columns[c].cells[r],
        ) by {
            assert(batch::fits(b.columns[c].field.data_type, b.columns[c].cells[r]));
        }
    }
}

/// Whether no name occurs twice in a schema.
pub open spec fn names_once(s: Seq<batch::FieldDesc>) -> bool {
    forall|i: int, j: int|
        0 <= i < j < s.len() ==> (#[trigger] s[i]).name != (#[trigger] s[j]).name
}

/// Whether every field of a list has, under its name, one type in a schema.
pub open spec fn agree(s: Seq<batch::FieldDesc>, more: Seq<batch::FieldDesc>) -> bool {
    forall|i: int, j: int|
        0 <= i < more.len() && 0 <= j < s.len() && (#[trigger] s[j]).name == (
        #[trigger] more[i]).name ==> s[j].data_type == more[i].data_type
}

proof fn lemma_union_agrees(more: Seq<batch::FieldDesc>)
    ensures
        with_fields(Seq::empty(), more) matches Ok(s) ==> names_once(s) && agree(s, more)
            && forall|i: int| 0 <= i < more.len() ==> has_name(s, (#[trigger] more[i]).name),
    decreases more.len(),
{
    if more.len() > 0 {
        let init = more.drop_last();
        lemma_union_agrees(init);
        if let Ok(p) = with_fields(Seq::empty(), init) {
            let f = more.last();
            field_at_is_first(p, f.name);
            if let Ok(s) = with_field(p, f) {
                assert forall|i: int, j: int|
                    0 <= i < more.len() && 0 <= j < s.len() && (#[trigger] s[j]).name == (
                    #[trigger] more[i]).name implies s[j].data_type == more[i].data_type by {
                    if i < init.len() {
                        assert(init[i] == more[i]);
                        assert(has_name(p, init[i].name));
                        if j < p.len() {
                            assert(p[j] == s[j]);
                        }
                    } else if j < p.len() {
                        assert(p[j] == s[j]);
                        let k = field_at(p, f.name)->Some_0;
                        assert(p[k].name == p[j].name);
                    }
                }
                assert forall|i: int| 0 <= i < more.len() implies has_name(
                    s,
                    (#[trigger] more[i]).name,
                ) by {
                    if i < init.len() {
                        assert(init[i] == more[i]);
                        assert(has_name(p, init[i].name));
                        let k = choose|k: int|
                            0 <= k < p.len() && (#[trigger] p[k]).name == init[i].name;
                        assert(s[k].name == more[i].name);
                    } else {
                        match field_at(p, f.name) {
                            Some(k) => {
                                assert(s[k].name == f.name);
                            },
                            None => {
                                assert(s[p.len() as int].name == f.name);
                            },
                        }
                    }
                }
            }
        }
    }
}

/// Whether a schema has a name.
pub open spec fn has_name(s: Seq<batch::FieldDesc>, name: Seq<char>) -> bool {
    exists|k: int| 0 <= k < s.len() && (#[trigger] s[k]).name == name
}

proof fn lemma_fields_of_batch(bs: Seq<batch::BatchView>, b: int, c: int) -> (k: int)
    requires
        0 <= b < bs.len(),
        0 <= c < bs[b].columns.len(),
    ensures
        0 <= k < all_fields(bs).len(),
        all_fields(bs)[k] == bs[b].columns[c].field,
    decreases bs.len(),
{
    let init = bs.drop_last();
    if b < init.len() {
        lemma_fields_of_batch(init, b, c)
    } else {
        assert(bs.last().schema()[c] == bs.last().columns[c].field);
        all_fields(init).len() + c
    }
}

/// Batches that are brought to one schema keep a cell in every row of every
/// column, each of its column's type; and the schema has no name twice.
pub proof fn aligned_batches_are_well_formed(bs: Seq<batch::BatchView>, b: int)
    requires
        0 <= b < bs.len(),
        bs[b].well_formed(),
    ensures
        with_fields(Seq::empty(), all_fields(bs)) matches Ok(s) ==> names_once(s)
            && aligned_batch(bs[b], s).well_formed(),
{
    lemma_union_agrees(all_fields(bs));
    if let Ok(s) = with_fields(Seq::empty(), all_fields(bs)) {
        let from = bs[b];
        let to = aligned_batch(from, s);
        assert forall|c: int| 0 <= c < to.columns.len() implies {
            &&& (#[trigger] to.columns[c]).cells.len() == to.rows
            &&& forall|r: int|
                0 <= r < to.rows ==> batch::fits(
                    to.columns[c].field.data_type,
                    #[trigger] to.columns[c].cells[r],
                )
        } by {
            let f = s[c];
            assert(to.columns[c] == aligned_column(from, f));
            batch::column_at_is_first(from.columns, f.name);
            match batch::column_at(from.columns, f.name) {
                Some(k) => {
                    let at = lemma_fields_of_batch(bs, b, k);
                    assert(s[c].name == all_fields(bs)[at].name);
                    assert(from.columns[k].cells.len() == from.rows);
                    assert forall|r: int| 0 <= r < to.rows implies batch::fits(
                        to.columns[c].field.data_type,
                        #[trigger] to.columns[c].cells[r],
                    ) by {
                        assert(batch::fits(
                            from.columns[k].field.data_type,
                            from.columns[k].cells[r],
                        ));
                    }
                },
                None => {},
            }
        }
    }
}

/// The schema of columns has each name once, with the type of every column of
/// that name, and no other name; there is none exactly if two columns have one
/// name and different types.
pub proof fn a_joint_schema_has_each_column_once(more: Seq<batch::FieldDesc>)
    ensures
        with_fields(Seq::empty(), more) matches Ok(s) ==> {
            &&& names_once(s)
            &&& forall|i: int|
                0 <= i < more.len() ==> exists|j: int|
                    0 <= j < s.len() && (#[trigger] s[j]).name == (#[trigger] more[i]).name
                        && s[j].data_type == more[i].data_type
            &&& forall|j: int|
                0 <= j < s.len() ==> exists|i: int|
                    0 <= i < more.len() && (#[trigger] more[i]).name == (#[trigger] s[j]).name
                        && more[i].data_type == s[j].data_type
        },
        with_fields(Seq::empty(), more) is Err <==> exists|i: int, j: int|
            0 <= i < more.len() && 0 <= j < more.len() && (#[trigger] more[i]).name == (
            #[trigger] more[j]).name && more[i].data_type != more[j].data_type,
    decreases more.len(),
{
    lemma_union_agrees(more);
    if let Ok(s) = with_fields(Seq::empty(), more) {
        assert forall|i: int| 0 <= i < more.len() implies exists|j: int|
            0 <= j < s.len() && (#[trigger] s[j]).name == (#[trigger] more[i]).name
                && s[j].data_type == more[i].data_type by {
            assert(has_name(s, more[i].name));
            let j = choose|j: int| 0 <= j < s.len() && (#[trigger] s[j]).name == more[i].name;
            assert(s[j].data_type == more[i].data_type);
        }
        assert forall|i: int, j: int|
            0 <= i < more.len() && 0 <= j < more.len() && (#[trigger] more[i]).name == (
            #[trigger] more[j]).name implies more[i].data_type == more[j].data_type by {
            assert(has_name(s, more[i].name));
            let k = choose|k: int| 0 <= k < s.len() && (#[trigger] s[k]).name == more[i].name;
            assert(s[k].data_type == more[i].data_type);
            assert(s[k].data_type == more[j].data_type);
        }
    }
    if more.len() > 0 {
        let init = more.drop_last();
        let f = more.last();
        let end = more.len() - 1;
        a_joint_schema_has_each_column_once(init);
        match with_fields(Seq::empty(), init) {
            Err(_) => {
                let (i, j) = choose|i: int, j: int|
                    0 <= i < init.len() && 0 <= j < init.len() && (#[trigger] init[i]).name == (
                    #[trigger] init[j]).name && init[i].data_type != init[j].data_type;
                assert(more[i].name == more[j].name);
            },
            Ok(p) => {
                field_at_is_first(p, f.name);
                if let Err(_) = with_field(p, f) {
                    let j = field_at(p, f.name)->Some_0;
                    assert(p[j].name == f.name);
                    let i = choose|i: int|
                        0 <= i < init.len() && (#[trigger] init[i]).name == p[j].name
                            && init[i].data_type == p[j].data_type;
                    assert(more[i].name == more[end].name);
                }
                if let Ok(s) = with_fields(Seq::empty(), more) {
                    assert forall|j: int| 0 <= j < s.len() implies exists|i: int|
                        0 <= i < more.len() && (#[trigger] more[i]).name == (
                        #[trigger] s[j]).name && more[i].data_type == s[j].data_type by {
                        if j < p.len() {
                            assert(s[j] == p[j]);
                            let i = choose|i: int|
                                0 <= i < init.len() && (#[trigger] init[i]).name == p[j].name
                                    && init[i].data_type == p[j].data_type;
                            assert(more[i].name == s[j].name);
                        } else {
                            assert(more[end].name == s[j].name);
                        }
                    }
                }
            },
        }
    }
}

/// A batch that is aligned to a schema has a column for each field of it, in
/// order: with the cells of its first column of that name where it has one, and
/// with nothing in any row where it has none.
pub proof fn aligning_keeps_the_cells(
    b: batch::BatchView,
    schema: Seq<batch::FieldDesc>,
    k: int,
    c: int,
)
    requires
        0 <= k < schema.len(),
    ensures
        aligned_batch(b, schema).rows == b.rows,
        aligned_batch(b, schema).columns.len() == schema.len(),
        aligned_batch(b, schema).columns[k].field == schema[k],
        0 <= c < b.columns.len() && b.columns[c].field.name == schema[k].name && (forall|d: int|
            0 <= d < c ==> (#[trigger] b.columns[d]).field.name != schema[k].name)
            ==> aligned_batch(b, schema).columns[k].cells == b.columns[c].cells,
        (forall|d: int|
            0 <= d < b.columns.len() ==> (#[trigger] b.columns[d]).field.name != schema[k].name)
            ==> aligned_batch(b, schema).columns[k].cells.len() == b.rows && forall|r: int|
            0 <= r < b.rows ==> (#[trigger] aligned_batch(b, schema).columns[k].cells[r]) is Null,
{
    batch::column_at_is_first(b.columns, schema[k].name);
    if 0 <= c < b.columns.len() && b.columns[c].field.name == schema[k].name && (forall|d: int|
        0 <= d < c ==> (#[trigger] b.columns[d]).field.name != schema[k].name) {
        let f = batch::column_at(b.columns, schema[k].name);
        assert(f is Some);
        if f->Some_0 < c {
            assert(b.columns[f->Some_0].field.name != schema[k].name);
        }
    }
}

/// What is shown of a column keeps its name, its rows and every cell; only a
/// dictionary of texts is shown as texts of another type.
pub proof fn showing_keeps_the_cells(c: batch::ColumnView)
    ensures
        shown_column(c).cells == c.cells,
        shown_column(c).field.name == c.field.name,
        shown_column(c).field.nullable == c.field.nullable,
        shown_column(c).field.role == c.field.role,
        c.field.data_type == batch::tag_type() ==> shown_column(c).field.data_type is Utf8View,
        !(c.field.data_type is Dictionary) ==> shown_column(c) == c,
{
}

/// A field is found by its name at the first place where it stands, and not at
/// all where it does not.
pub proof fn the_first_field_of_a_name_is_found(schema: Seq<batch::FieldDesc>, name: Seq<char>)
    ensures
        forall|i: int|
            0 <= i < schema.len() && (#[trigger] schema[i]).name == name && (forall|j: int|
                0 <= j < i ==> (#[trigger] schema[j]).name != name) ==> field_at(schema, name)
                == Some(i),
        (forall|j: int| 0 <= j < schema.len() ==> (#[trigger] schema[j]).name != name) ==> field_at(
            schema,
            name,
        ) is None,
        field_at(schema, name) matches Some(i) ==> 0 <= i < schema.len() && schema[i].name == name
            && forall|j: int| 0 <= j < i ==> (#[trigger] schema[j]).name != name,
        field_at(schema, name) is None ==> forall|j: int|
            0 <= j < schema.len() ==> (#[trigger] schema[j]).name != name,
    decreases schema.len(),
{
    if schema.len() > 0 {
        let init = schema.drop_last();
        the_first_field_of_a_name_is_found(init, name);
        assert(forall|j: int| 0 <= j < init.len() ==> #[trigger] init[j] == schema[j]);
        match field_at(init, name) {
            Some(i) => {
                assert(schema[i] == init[i]);
                assert forall|j: int| 0 <= j < i implies (#[trigger] schema[j]).name != name by {
                    assert(init[j] == schema[j]);
                }
            },
            None => {
                assert forall|j: int| 0 <= j < init.len() implies (#[trigger] schema[j]).name
                    != name by {
                    assert(init[j] == schema[j]);
                }
            },
        }
    }
}

/// The column of a field is taken from the first column of its name: as it is
/// where the types are the same, and cast where they are not; without such a
/// column it is taken from nowhere.
pub proof fn a_column_comes_from_its_namesake(
    f: batch::FieldDesc,
    from: Seq<batch::FieldDesc>,
    c: int,
)
    requires
        0 <= c <= from.len() <= usize::MAX,
        forall|j: int| 0 <= j < c ==> (#[trigger] from[j]).name != f.name,
    ensures
        c == from.len() ==> source_of(f, from) == Source::Nothing,
        c < from.len() && from[c].name == f.name && from[c].data_type == f.data_type ==> source_of(
            f,
            from,
        ) == Source::Keep(c as usize),
        c < from.len() && from[c].name == f.name && from[c].data_type != f.data_type ==> source_of(
            f,
            from,
        ) == Source::Cast(c as usize),
{
    the_first_field_of_a_name_is_found(from, f.name);
}

} // verus!
