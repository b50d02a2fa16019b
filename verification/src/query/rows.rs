//! Rows of results as the values of JSON objects.
use crate::batch;
use crate::batch::{Batch, Cell, DataType};
use crate::ingest::Float;
use vstd::prelude::*;

verus! {

/// How a nanosecond timestamp is shown in a time zone, or without one; nothing
/// where the zone is not known.
pub uninterp spec fn time_text(ns: i64, zone: Option<Seq<char>>) -> Option<Seq<char>>;

/// Shows a timestamp by `arrow::util::display::array_value_to_string`, on an
/// array of one value in the given zone. Claimed is that the text depends on
/// the timestamp and the zone alone; nothing is said of what it is.
#[verifier::external_body]
fn show_time(ns: i64, zone: &Option<String>) -> (r: Option<String>)
    ensures
        batch::opt_text(r) == time_text(ns, batch::opt_text(*zone)),
{
    let column = arrow::array::TimestampNanosecondArray::from(vec![ns]);
    let column = column.with_timezone_opt(zone.clone());
    arrow::util::display::array_value_to_string(&column, 0).ok()
}

/// A value in a JSON object. A float is a number, and is kept in its bits.
#[derive(Debug)]
pub enum JsonCell {
    Null,
    Int(i64),
    UInt(u64),
    Float(u64),
    Bool(bool),
    Text(String),
}

/// What a `JsonCell` holds.
pub enum JsonView {
    Null,
    Int(i64),
    UInt(u64),
    Float(u64),
    Bool(bool),
    Text(Seq<char>),
}

impl View for JsonCell {
    type V = JsonView;

    open spec fn view(&self) -> JsonView {
        match *self {
            JsonCell::Null => JsonView::Null,
            JsonCell::Int(n) => JsonView::Int(n),
            JsonCell::UInt(n) => JsonView::UInt(n),
            JsonCell::Float(b) => JsonView::Float(b),
            JsonCell::Bool(b) => JsonView::Bool(b),
            JsonCell::Text(s) => JsonView::Text(s@),
        }
    }
}

/// Whether the bits of a float are those of a number: neither infinite nor
/// not a number.
pub open spec fn finite_bits(bits: u64) -> bool {
    (bits / 0x10_0000_0000_0000) % 0x800 != 0x7ff
}

/// A cell as a value of JSON: numbers and booleans as such, a float that is no
/// number as null, a timestamp as it is shown in its column's zone, and
/// everything else as text. Floats are in their bits.
pub open spec fn json_of(t: batch::TypeView, c: batch::CellView) -> JsonView
    recommends
        c matches batch::CellView::Float(f) ==> f is Bits,
{
    match c {
        batch::CellView::Null => JsonView::Null,
        batch::CellView::Int(n) => JsonView::Int(n),
        batch::CellView::UInt(n) => JsonView::UInt(n),
        batch::CellView::Float(f) => if finite_bits(f->Bits_0) {
            JsonView::Float(f->Bits_0)
        } else {
            JsonView::Null
        },
        batch::CellView::Bool(b) => JsonView::Bool(b),
        batch::CellView::Str(s) => JsonView::Text(s),
        batch::CellView::Other(s) => JsonView::Text(s),
        batch::CellView::Time(ns) => match time_text(
            ns,
            match t {
                batch::TypeView::TimeNs(zone) => zone,
                _ => None,
            },
        ) {
            Some(s) => JsonView::Text(s),
            None => JsonView::Null,
        },
    }
}

/// A cell is shown as its value: integers, booleans and texts as such, a float
/// bit by bit unless its exponent is all ones, which JSON has no number for, a
/// time in the zone of its column, and nothing as null.
pub proof fn a_cell_is_shown_as_its_value(
    t: batch::TypeView,
    n: i64,
    u: u64,
    bits: u64,
    b: bool,
    s: Seq<char>,
    zone: Option<Seq<char>>,
)
    ensures
        json_of(t, batch::CellView::Null) == JsonView::Null,
        json_of(t, batch::CellView::Int(n)) == JsonView::Int(n),
        json_of(t, batch::CellView::UInt(u)) == JsonView::UInt(u),
        json_of(t, batch::CellView::Bool(b)) == JsonView::Bool(b),
        json_of(t, batch::CellView::Str(s)) == JsonView::Text(s),
        json_of(t, batch::CellView::Other(s)) == JsonView::Text(s),
        json_of(t, batch::CellView::Float(crate::ingest::FloatView::Bits(bits))) == (if bits
            & 0x7ff0_0000_0000_0000u64 == 0x7ff0_0000_0000_0000u64 {
            JsonView::Null
        } else {
            JsonView::Float(bits)
        }),
        time_text(n, zone) matches Some(shown) ==> json_of(
            batch::TypeView::TimeNs(zone),
            batch::CellView::Time(n),
        ) == JsonView::Text(shown),
        time_text(n, zone) is None ==> json_of(
            batch::TypeView::TimeNs(zone),
            batch::CellView::Time(n),
        ) == JsonView::Null,
{
    assert(((bits / 0x10_0000_0000_0000) % 0x800 == 0x7ff) == (bits & 0x7ff0_0000_0000_0000u64
        == 0x7ff0_0000_0000_0000u64)) by (bit_vector);
}

/// The text that a shown timestamp becomes, or null where it cannot be shown.
pub fn shown_time(shown: Option<String>) -> (r: JsonCell)
    ensures
        r@ == (match shown {
            Some(s) => JsonView::Text(s@),
            None => JsonView::Null,
        }),
{
    match shown {
        Some(s) => JsonCell::Text(s),
        None => JsonCell::Null,
    }
}

/// A cell of a column of this type as a value of JSON.
pub fn cell_to_json(t: &DataType, c: &Cell) -> (r: JsonCell)
    requires
        batch::fits(t@, c@),
        c@ matches batch::CellView::Float(f) ==> f is Bits,
    ensures
        r@ == json_of(t@, c@),
{
    match c {
        Cell::Null => JsonCell::Null,
        Cell::Int(n) => JsonCell::Int(*n),
        Cell::UInt(n) => JsonCell::UInt(*n),
        Cell::Float(f) => {
            match f {
                Float::Bits(b) => {
                    if (*b / 0x10_0000_0000_0000) % 0x800 == 0x7ff {
                        JsonCell::Null
                    } else {
                        JsonCell::Float(*b)
                    }
                },
                Float::Numeral(_) => {
                    assert(false);
                    JsonCell::Null
                },
            }
        },
        Cell::Bool(b) => JsonCell::Bool(*b),
        Cell::Str(s) => JsonCell::Text(s.clone()),
        Cell::Other(s) => JsonCell::Text(s.clone()),
        Cell::Time(ns) => {
            match t {
                DataType::TimeNs(zone) => shown_time(show_time(*ns, zone)),
                _ => shown_time(show_time(*ns, &None)),
            }
        },
    }
}

/// What the members of an object hold.
pub open spec fn members(v: Seq<(String, JsonCell)>) -> Seq<(Seq<char>, JsonView)> {
    v.map_values(|m: (String, JsonCell)| (m.0@, m.1@))
}

/// What objects hold.
pub open spec fn objects(v: Seq<Vec<(String, JsonCell)>>) -> Seq<Seq<(Seq<char>, JsonView)>> {
    v.map_values(|o: Vec<(String, JsonCell)>| members(o@))
}

/// The object of a row: its columns' names with its values, in the order of
/// the columns.
pub open spec fn row_object(b: batch::BatchView, row: int) -> Seq<(Seq<char>, JsonView)> {
    b.columns.map_values(
        |c: batch::ColumnView| (c.field.name, json_of(c.field.data_type, c.cells[row])),
    )
}

/// The objects of the rows of batches, in order.
pub open spec fn all_objects(bs: Seq<batch::BatchView>) -> Seq<Seq<(Seq<char>, JsonView)>>
    decreases bs.len(),
{
    if bs.len() == 0 {
        Seq::empty()
    } else {
        all_objects(bs.drop_last()) + Seq::new(
            bs.last().rows,
            |r: int| row_object(bs.last(), r),
        )
    }
}

/// A batch behind others adds an object for each of its rows, in order; the
/// object of a row has a member for each column, in order, with the column's
/// name and the cell of that row.
pub proof fn each_row_is_an_object(bs: Seq<batch::BatchView>, b: batch::BatchView, r: int, c: int)
    requires
        0 <= r < b.rows,
        0 <= c < b.columns.len(),
    ensures
        all_objects(Seq::empty()) == Seq::<Seq<(Seq<char>, JsonView)>>::empty(),
        all_objects(bs.push(b)).len() == all_objects(bs).len() + b.rows,
        all_objects(bs.push(b)).take(all_objects(bs).len() as int) == all_objects(bs),
        all_objects(bs.push(b))[all_objects(bs).len() + r].len() == b.columns.len(),
        all_objects(bs.push(b))[all_objects(bs).len() + r][c] == (
            b.columns[c].field.name,
            json_of(b.columns[c].field.data_type, b.columns[c].cells[r]),
        ),
{
    assert(bs.push(b).drop_last() =~= bs);
    assert(all_objects(bs.push(b)).take(all_objects(bs).len() as int) =~= all_objects(bs));
}

/// The rows of batches as objects. Where two columns have one name, the later
/// member of an object is the one that counts.
pub fn batches_to_json(batches: &Vec<Batch>) -> (r: Vec<Vec<(String, JsonCell)>>)
    requires
        forall|i: int|
            0 <= i < batches.len() ==> (#[trigger] batches@[i])@.well_formed()
                && batch::floats_in_bits(batches@[i]@),
    ensures
        objects(r@) == all_objects(crate::query::schemas::batch_views(batches@)),
{
    let ghost all = crate::query::schemas::batch_views(batches@);
    let mut out: Vec<Vec<(String, JsonCell)>> = Vec::new();
    let mut i: usize = 0;
    assert(all.take(0) =~= Seq::empty());
    assert(objects(out@) =~= Seq::empty());
    while i < batches.len()
        invariant
            i <= batches.len(),
            all == crate::query::schemas::batch_views(batches@),
            forall|i: int|
                0 <= i < batches.len() ==> (#[trigger] batches@[i])@.well_formed()
                    && batch::floats_in_bits(batches@[i]@),
            objects(out@) == all_objects(all.take(i as int)),
        decreases batches.len() - i,
    {
        assert(all.take(i + 1).drop_last() =~= all.take(i as int));
        let b = &batches[i];
        assert(all[i as int] == b@);
        assert(b@.well_formed());
        let ghost was = objects(out@);
        let ghost rows = Seq::new(b@.rows, |r: int| row_object(b@, r));
        let mut row: usize = 0;
        assert(was + rows.take(0) =~= was);
        while row < b.rows
            invariant
                row <= b.rows,
                b@.well_formed(),
                batch::floats_in_bits(b@),
                rows == Seq::new(b@.rows, |r: int| row_object(b@, r)),
                objects(out@) == was + rows.take(row as int),
            decreases b.rows - row,
        {
            let mut object: Vec<(String, JsonCell)> = Vec::new();
            let mut c: usize = 0;
            while c < b.columns.len()
                invariant
                    c <= b.columns.len(),
                    row < b.rows,
                    b@.well_formed(),
                    batch::floats_in_bits(b@),
                    object.len() == c,
                    forall|k: int|
                        0 <= k < c ==> ((#[trigger] object@[k]).0@, object@[k].1@)
                            == row_object(b@, row as int)[k],
                decreases b.columns.len() - c,
            {
                let col = &b.columns[c];
                assert(b@.columns[c as int] == col@);
                assert(col@.cells.len() == b@.rows);
                assert(col@.cells[row as int] == col.cells@[row as int]@);
                assert(b@.columns[c as int].cells[row as int] == col.cells@[row as int]@);
                object.push(
                    (
                        col.field.name.clone(),
                        cell_to_json(&col.field.data_type, &col.cells[row]),
                    ),
                );
                c += 1;
            }
            assert(members(object@) =~= row_object(b@, row as int));
            let ghost done = objects(out@);
            let ghost o = members(object@);
            out.push(object);
            assert(objects(out@) =~= done.push(o));
            assert(was + rows.take(row + 1) =~= (was + rows.take(row as int)).push(o));
            row += 1;
        }
        assert(rows.take(rows.len() as int) =~= rows);
        i += 1;
    }
    assert(all.take(all.len() as int) =~= all);
    out
}

} // verus!
