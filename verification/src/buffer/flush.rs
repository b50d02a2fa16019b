//! Preparing rows for a file: sorted by their key, the last write of each key
//! kept, and split by the hour of their time.
use crate::batch;
use crate::batch::{Batch, Cell, DataType};
use crate::buffer;
use crate::calendar;
use crate::text;
use vstd::prelude::*;

verus! {

/// A tag column gets a bloom filter from this many distinct values on.
pub const BLOOM_MIN_DISTINCT: usize = 1024;

/// The hour that holds `ts_ns`, as `YYYYMMDDHH` in UTC.
pub fn hour_partition(ts_ns: i64) -> (r: String)
    ensures
        r@ == calendar::hour_text(ts_ns as int),
{
    calendar::write_hour(ts_ns)
}

// --------------------------------------------------------------- order of rows

/// Whether cells of this form have an order: all but floats and cells that are
/// not read.
pub open spec fn orderable(c: batch::CellView) -> bool {
    !(c is Float) && !(c is Other)
}

/// The forms of cells in order, nothing first.
pub open spec fn rank(c: batch::CellView) -> int {
    match c {
        batch::CellView::Null => 0,
        batch::CellView::Time(_) => 1,
        batch::CellView::Int(_) => 2,
        batch::CellView::UInt(_) => 3,
        batch::CellView::Bool(_) => 4,
        batch::CellView::Str(_) => 5,
        batch::CellView::Float(_) => 6,
        batch::CellView::Other(_) => 7,
    }
}

/// Whether one cell comes before another: nothing before anything, numbers and
/// times by size, false before true, texts by their bytes.
pub open spec fn cell_before(a: batch::CellView, b: batch::CellView) -> bool {
    match (a, b) {
        (batch::CellView::Time(x), batch::CellView::Time(y)) => x < y,
        (batch::CellView::Int(x), batch::CellView::Int(y)) => x < y,
        (batch::CellView::UInt(x), batch::CellView::UInt(y)) => x < y,
        (batch::CellView::Bool(x), batch::CellView::Bool(y)) => !x && y,
        (batch::CellView::Str(x), batch::CellView::Str(y)) => text::before(x, y),
        _ => rank(a) < rank(b),
    }
}

/// Keys in dictionary order.
pub open spec fn key_before(a: Seq<batch::CellView>, b: Seq<batch::CellView>) -> bool
    decreases a.len(),
{
    if a.len() == 0 || b.len() == 0 {
        a.len() < b.len()
    } else if a[0] != b[0] {
        cell_before(a[0], b[0])
    } else {
        key_before(a.drop_first(), b.drop_first())
    }
}

/// The dictionary columns before column `k`, the first column left out, and
/// those left out that have the leading name.
pub open spec fn tag_columns(
    cols: Seq<batch::ColumnView>,
    leading: Option<Seq<char>>,
    k: int,
) -> Seq<int>
    decreases k,
{
    if k <= 1 {
        Seq::empty()
    } else {
        let p = tag_columns(cols, leading, k - 1);
        let f = cols[k - 1].field;
        if f.data_type is Dictionary && leading != Some(f.name) {
            p.push(k - 1)
        } else {
            p
        }
    }
}

/// The columns of the key: the leading one if there is one, the time, and the
/// tags.
pub open spec fn key_columns(b: batch::BatchView, leading: Option<Seq<char>>) -> Seq<int> {
    let rest = seq![0int] + tag_columns(b.columns, leading, b.columns.len() as int);
    match leading {
        Some(name) => match batch::column_at(b.columns, name) {
            Some(c) => seq![c] + rest,
            None => rest,
        },
        None => rest,
    }
}

/// The key of a row.
pub open spec fn key_of(b: batch::BatchView, on: Seq<int>, r: int) -> Seq<batch::CellView> {
    on.map_values(|c: int| b.columns[c].cells[r])
}

/// Whether the cells of every key have an order.
pub open spec fn keys_orderable(b: batch::BatchView, on: Seq<int>) -> bool {
    forall|k: int, r: int|
        0 <= k < on.len() && 0 <= r < b.rows ==> orderable(#[trigger] b.columns[on[k]].cells[r])
}

/// Whether rows stand in the order of their keys, one row per key and that the
/// last one with it, and no key is missing.
pub open spec fn winners(b: batch::BatchView, on: Seq<int>, kept: Seq<int>) -> bool {
    &&& forall|i: int| 0 <= i < kept.len() ==> 0 <= #[trigger] kept[i] < b.rows
    &&& forall|i: int, j: int|
        0 <= i < j < kept.len() ==> key_before(
            key_of(b, on, #[trigger] kept[i]),
            key_of(b, on, #[trigger] kept[j]),
        )
    &&& forall|i: int, r: int|
        0 <= i < kept.len() && 0 <= r < b.rows && #[trigger] key_of(b, on, r) == key_of(
            b,
            on,
            #[trigger] kept[i],
        ) ==> r <= kept[i]
    &&& forall|r: int| 0 <= r < b.rows ==> #[trigger] kept_has(b, on, kept, r)
}

/// Whether a row's key is among those of the rows kept.
pub open spec fn kept_has(b: batch::BatchView, on: Seq<int>, kept: Seq<int>, r: int) -> bool {
    exists|i: int|
        0 <= i < kept.len() && key_of(b, on, #[trigger] kept[i]) == key_of(b, on, r)
}

/// The hour of a row.
pub open spec fn hour_of(b: batch::BatchView, r: int) -> Seq<char> {
    calendar::hour_text(b.columns[0].cells[r]->Time_0 as int)
}

/// The rows of one hour among those kept.
pub open spec fn rows_of_hour(b: batch::BatchView, kept: Seq<int>, hour: Seq<char>) -> Seq<int>
    decreases kept.len(),
{
    if kept.len() == 0 {
        Seq::empty()
    } else {
        let p = rows_of_hour(b, kept.drop_last(), hour);
        if hour_of(b, kept.last()) == hour {
            p.push(kept.last())
        } else {
            p
        }
    }
}

/// Whether parts are the rows kept, split by hour and in the order of the
/// hours, no part empty.
pub open spec fn split_by_hour(
    parts: Seq<(Seq<char>, Seq<int>)>,
    b: batch::BatchView,
    kept: Seq<int>,
) -> bool {
    &&& forall|i: int, j: int|
        0 <= i < j < parts.len() ==> text::before((#[trigger] parts[i]).0, (#[trigger] parts[j]).0)
    &&& forall|i: int|
        0 <= i < parts.len() ==> (#[trigger] parts[i]).1 == rows_of_hour(b, kept, parts[i].0)
            && parts[i].1.len() > 0
    &&& forall|k: int| 0 <= k < kept.len() ==> #[trigger] has_hour(parts, hour_of(b, kept[k]))
}

/// Whether an hour has a part.
pub open spec fn has_hour(parts: Seq<(Seq<char>, Seq<int>)>, hour: Seq<char>) -> bool {
    exists|i: int| 0 <= i < parts.len() && (#[trigger] parts[i]).0 == hour
}

// ---------------------------------------------------------------------- lemmas

proof fn lemma_cells_total(a: batch::CellView, b: batch::CellView)
    requires
        orderable(a),
        orderable(b),
    ensures
        !(cell_before(a, b) && cell_before(b, a)),
        cell_before(a, b) || cell_before(b, a) || a == b,
        a == b ==> !cell_before(a, b),
{
    if let (batch::CellView::Str(x), batch::CellView::Str(y)) = (a, b) {
        text::before_is_total(x, y);
    }
}

proof fn lemma_cells_transitive(a: batch::CellView, b: batch::CellView, c: batch::CellView)
    requires
        cell_before(a, b),
        cell_before(b, c),
        orderable(a),
        orderable(b),
        orderable(c),
    ensures
        cell_before(a, c),
{
    if a is Str && b is Str && c is Str {
        text::before_is_transitive(a->Str_0, b->Str_0, c->Str_0);
    }
}

/// Whether every cell of a key has an order.
pub open spec fn all_orderable(k: Seq<batch::CellView>) -> bool {
    forall|i: int| 0 <= i < k.len() ==> orderable(#[trigger] k[i])
}

/// The order of keys is a strict total order.
pub proof fn keys_are_totally_ordered(a: Seq<batch::CellView>, b: Seq<batch::CellView>)
    requires
        all_orderable(a),
        all_orderable(b),
    ensures
        !(key_before(a, b) && key_before(b, a)),
        key_before(a, b) || key_before(b, a) || a == b,
        a == b ==> !key_before(a, b),
    decreases a.len(),
{
    if a.len() > 0 && b.len() > 0 {
        lemma_cells_total(a[0], b[0]);
        if a[0] == b[0] {
            keys_are_totally_ordered(a.drop_first(), b.drop_first());
            if a.drop_first() == b.drop_first() {
                assert(a =~= seq![a[0]] + a.drop_first());
                assert(b =~= seq![b[0]] + b.drop_first());
            }
        }
    } else if a.len() == 0 && b.len() == 0 {
        assert(a =~= b);
    }
}

/// The order of keys is transitive.
pub proof fn keys_are_transitively_ordered(
    a: Seq<batch::CellView>,
    b: Seq<batch::CellView>,
    c: Seq<batch::CellView>,
)
    requires
        key_before(a, b),
        key_before(b, c),
        all_orderable(a),
        all_orderable(b),
        all_orderable(c),
    ensures
        key_before(a, c),
    decreases a.len(),
{
    if a.len() > 0 && b.len() > 0 && c.len() > 0 {
        lemma_cells_total(a[0], b[0]);
        lemma_cells_total(b[0], c[0]);
        lemma_cells_total(a[0], c[0]);
        if a[0] == b[0] && b[0] == c[0] {
            keys_are_transitively_ordered(a.drop_first(), b.drop_first(), c.drop_first());
        } else if a[0] != b[0] && b[0] != c[0] {
            lemma_cells_transitive(a[0], b[0], c[0]);
        }
    }
}

proof fn lemma_winners_meet(
    b: batch::BatchView,
    on: Seq<int>,
    one: Seq<int>,
    two: Seq<int>,
    i: int,
) -> (j: int)
    requires
        winners(b, on, one),
        winners(b, on, two),
        0 <= i < one.len(),
    ensures
        0 <= j < two.len(),
        two[j] == one[i],
{
    assert(kept_has(b, on, two, one[i]));
    let j = choose|j: int|
        0 <= j < two.len() && key_of(b, on, #[trigger] two[j]) == key_of(b, on, one[i]);
    assert(key_of(b, on, two[j]) == key_of(b, on, one[i]));
    j
}

proof fn lemma_winners_agree(
    b: batch::BatchView,
    on: Seq<int>,
    one: Seq<int>,
    two: Seq<int>,
    i: int,
)
    requires
        keys_orderable(b, on),
        winners(b, on, one),
        winners(b, on, two),
        0 <= i < one.len(),
    ensures
        i < two.len(),
        one[i] == two[i],
    decreases i,
{
    assert forall|k: int| 0 <= k < i implies k < two.len() && one[k] == two[k] by {
        lemma_winners_agree(b, on, one, two, k);
    }
    let j = lemma_winners_meet(b, on, one, two, i);
    let kx = key_of(b, on, one[i]);
    lemma_key_orderable(b, on, one[i]);
    if j < i {
        assert(one[j] == two[j]);
        assert(key_before(key_of(b, on, one[j]), key_of(b, on, one[i])));
        keys_are_totally_ordered(kx, kx);
    }
    if j > i {
        let l = lemma_winners_meet(b, on, two, one, i);
        lemma_key_orderable(b, on, two[i]);
        let ky = key_of(b, on, two[i]);
        keys_are_totally_ordered(kx, ky);
        assert(key_before(key_of(b, on, two[i]), key_of(b, on, two[j])));
        if l < i {
            assert(one[l] == two[l]);
            assert(key_before(key_of(b, on, two[l]), key_of(b, on, two[i])));
            keys_are_totally_ordered(ky, ky);
        } else if l > i {
            assert(key_before(key_of(b, on, one[i]), key_of(b, on, one[l])));
        }
    }
}

proof fn lemma_key_orderable(b: batch::BatchView, on: Seq<int>, r: int)
    requires
        keys_orderable(b, on),
        0 <= r < b.rows,
    ensures
        all_orderable(key_of(b, on, r)),
{
    assert forall|k: int| 0 <= k < on.len() implies orderable(#[trigger] key_of(b, on, r)[k]) by {
        assert(orderable(b.columns[on[k]].cells[r]));
    }
}

/// The rows that are kept are fixed by the batch and the key.
pub proof fn winners_are_unique(b: batch::BatchView, on: Seq<int>, one: Seq<int>, two: Seq<int>)
    requires
        keys_orderable(b, on),
        winners(b, on, one),
        winners(b, on, two),
    ensures
        one == two,
{
    assert forall|i: int| 0 <= i < one.len() implies i < two.len() && one[i] == two[i] by {
        lemma_winners_agree(b, on, one, two, i);
    }
    if one.len() > 0 {
        lemma_winners_agree(b, on, one, two, one.len() - 1);
    }
    if two.len() > 0 {
        lemma_winners_agree(b, on, two, one, two.len() - 1);
    }
    assert(one =~= two);
}

/// The last write wins: a row is kept exactly where no later row has its key.
pub proof fn the_last_write_wins(b: batch::BatchView, on: Seq<int>, kept: Seq<int>, r: int)
    requires
        winners(b, on, kept),
        0 <= r < b.rows,
    ensures
        kept.contains(r) <==> forall|s: int|
            r < s < b.rows ==> #[trigger] key_of(b, on, s) != key_of(b, on, r),
{
    assert(kept_has(b, on, kept, r));
    let i = choose|i: int|
        0 <= i < kept.len() && key_of(b, on, #[trigger] kept[i]) == key_of(b, on, r);
    if kept.contains(r) {
        let j = choose|j: int| 0 <= j < kept.len() && kept[j] == r;
        assert forall|s: int| r < s < b.rows implies #[trigger] key_of(b, on, s) != key_of(
            b,
            on,
            r,
        ) by {
            if key_of(b, on, s) == key_of(b, on, kept[j]) {
                assert(s <= kept[j]);
            }
        }
    } else {
        assert(key_of(b, on, kept[i]) == key_of(b, on, r));
        assert(key_of(b, on, r) == key_of(b, on, kept[i]));
        assert(r <= kept[i]);
        assert(kept[i] != r);
    }
}

proof fn lemma_tag_column_there(
    cols: Seq<batch::ColumnView>,
    leading: Option<Seq<char>>,
    k: int,
    c: int,
)
    requires
        0 <= k <= cols.len(),
    ensures
        tag_columns(cols, leading, k).contains(c) <==> 1 <= c < k
            && cols[c].field.data_type is Dictionary && leading != Some(cols[c].field.name),
    decreases k,
{
    if k > 1 {
        let p = tag_columns(cols, leading, k - 1);
        lemma_tag_column_there(cols, leading, k - 1, c);
        let all = tag_columns(cols, leading, k);
        if p.contains(c) {
            let i = choose|i: int| 0 <= i < p.len() && p[i] == c;
            assert(all[i] == c);
        }
        if all.len() > p.len() {
            assert(all[p.len() as int] == k - 1);
        }
        if all.contains(c) && c != k - 1 {
            let i = choose|i: int| 0 <= i < all.len() && all[i] == c;
            assert(p[i] == c);
        }
    }
}

proof fn lemma_named_column(cols: Seq<batch::ColumnView>, name: Seq<char>, c: int)
    requires
        batch::column_at(cols, name) == Some(c),
    ensures
        0 <= c < cols.len(),
        cols[c].field.name == name,
    decreases cols.len(),
{
    if cols.len() > 0 && batch::column_at(cols.drop_last(), name) is Some {
        lemma_named_column(cols.drop_last(), name, c);
    }
}

proof fn lemma_key_column_there(b: batch::BatchView, leading: Option<Seq<char>>, c: int)
    requires
        b.columns.len() > 0,
    ensures
        key_columns(b, leading).contains(c) <==> {
            ||| c == 0
            ||| leading is Some && batch::column_at(b.columns, leading->Some_0) == Some(c)
            ||| 1 <= c < b.columns.len() && b.columns[c].field.data_type is Dictionary && leading
                != Some(b.columns[c].field.name)
        },
{
    let tags = tag_columns(b.columns, leading, b.columns.len() as int);
    lemma_tag_column_there(b.columns, leading, b.columns.len() as int, c);
    let rest = seq![0int] + tags;
    let on = key_columns(b, leading);
    assert(rest[0] == 0);
    if tags.contains(c) {
        let i = choose|i: int| 0 <= i < tags.len() && tags[i] == c;
        assert(rest[i + 1] == c);
    }
    if rest.contains(c) && c != 0 {
        let i = choose|i: int| 0 <= i < rest.len() && rest[i] == c;
        assert(tags[i - 1] == c);
    }
    if leading is Some {
        if let Some(at) = batch::column_at(b.columns, leading->Some_0) {
            assert(on[0] == at);
            if rest.contains(c) {
                let i = choose|i: int| 0 <= i < rest.len() && rest[i] == c;
                assert(on[i + 1] == c);
            }
            if on.contains(c) && c != at {
                let i = choose|i: int| 0 <= i < on.len() && on[i] == c;
                assert(rest[i - 1] == c);
            }
        }
    }
}

/// Whether two rows agree in every column of a key.
pub open spec fn rows_agree(b: batch::BatchView, on: Seq<int>, r: int, s: int) -> bool {
    forall|c: int| #[trigger] on.contains(c) ==> b.columns[c].cells[r] == b.columns[c].cells[s]
}

proof fn lemma_keys_are_their_columns(b: batch::BatchView, on: Seq<int>, r: int, s: int)
    ensures
        key_of(b, on, r) == key_of(b, on, s) <==> rows_agree(b, on, r, s),
{
    let x = key_of(b, on, r);
    let y = key_of(b, on, s);
    if x == y {
        assert forall|c: int| #[trigger] on.contains(c) implies b.columns[c].cells[r]
            == b.columns[c].cells[s] by {
            let i = choose|i: int| 0 <= i < on.len() && on[i] == c;
            assert(x[i] == b.columns[c].cells[r]);
            assert(y[i] == b.columns[c].cells[s]);
        }
    }
    if rows_agree(b, on, r, s) {
        assert forall|i: int| 0 <= i < on.len() implies x[i] == y[i] by {
            assert(on.contains(on[i]));
        }
        assert(x =~= y);
    }
}

/// A leading tag changes the order of the rows alone: the same rows are kept
/// with it and without. The columns have different names.
pub proof fn a_leading_tag_keeps_the_same_rows(
    b: batch::BatchView,
    name: Seq<char>,
    with: Seq<int>,
    without: Seq<int>,
    r: int,
)
    requires
        b.columns.len() > 0,
        forall|i: int, j: int|
            0 <= i < j < b.columns.len() ==> (#[trigger] b.columns[i]).field.name != (
            #[trigger] b.columns[j]).field.name,
        batch::column_at(b.columns, name) matches Some(c) ==> c == 0
            || b.columns[c].field.data_type is Dictionary,
        winners(b, key_columns(b, Some(name)), with),
        winners(b, key_columns(b, None), without),
        0 <= r < b.rows,
    ensures
        with.contains(r) <==> without.contains(r),
{
    let a = key_columns(b, Some(name));
    let z = key_columns(b, None);
    assert forall|c: int| a.contains(c) <==> z.contains(c) by {
        lemma_key_column_there(b, Some(name), c);
        lemma_key_column_there(b, None, c);
        if let Some(at) = batch::column_at(b.columns, name) {
            lemma_named_column(b.columns, name, at);
            if 1 <= c < b.columns.len() && b.columns[c].field.name == name && c != at {
                if c < at {
                    assert(b.columns[c].field.name != b.columns[at].field.name);
                } else {
                    assert(b.columns[at].field.name != b.columns[c].field.name);
                }
            }
        } else if 1 <= c < b.columns.len() {
            lemma_unnamed_column(b.columns, name, c);
        }
    }
    the_last_write_wins(b, a, with, r);
    the_last_write_wins(b, z, without, r);
    assert forall|s: int| r < s < b.rows implies (#[trigger] key_of(b, a, s) != key_of(b, a, r)
        <==> key_of(b, z, s) != key_of(b, z, r)) by {
        lemma_keys_are_their_columns(b, a, s, r);
        lemma_keys_are_their_columns(b, z, s, r);
        assert(rows_agree(b, a, s, r) <==> rows_agree(b, z, s, r));
    }
    assert forall|s: int| r < s < b.rows implies (#[trigger] key_of(b, z, s) != key_of(b, z, r)
        <==> key_of(b, a, s) != key_of(b, a, r)) by {
        lemma_keys_are_their_columns(b, a, s, r);
        lemma_keys_are_their_columns(b, z, s, r);
        assert(rows_agree(b, a, s, r) <==> rows_agree(b, z, s, r));
    }
}

proof fn lemma_unnamed_column(cols: Seq<batch::ColumnView>, name: Seq<char>, c: int)
    requires
        batch::column_at(cols, name) is None,
        0 <= c < cols.len(),
    ensures
        cols[c].field.name != name,
    decreases cols.len(),
{
    if c < cols.len() - 1 {
        lemma_unnamed_column(cols.drop_last(), name, c);
    }
}

// --------------------------------------------------------------------- sorting

/// Where one thing stands to another in an order.
enum Side {
    Before,
    Same,
    After,
}

fn compare_cells(a: &Cell, b: &Cell) -> (r: Side)
    requires
        orderable(a@),
        orderable(b@),
    ensures
        r is Before <==> cell_before(a@, b@),
        r is Same <==> a@ == b@,
{
    proof {
        lemma_cells_total(a@, b@);
    }
    match (a, b) {
        (Cell::Time(x), Cell::Time(y)) => side_of(*x < *y, *x == *y),
        (Cell::Int(x), Cell::Int(y)) => side_of(*x < *y, *x == *y),
        (Cell::UInt(x), Cell::UInt(y)) => side_of(*x < *y, *x == *y),
        (Cell::Bool(x), Cell::Bool(y)) => side_of(!*x && *y, *x == *y),
        (Cell::Str(x), Cell::Str(y)) => side_of(
            text::comes_before(x.as_str(), y.as_str()),
            text::same(x.as_str(), y.as_str()),
        ),
        (Cell::Null, Cell::Null) => Side::Same,
        _ => side_of(rank_of(a) < rank_of(b), false),
    }
}

fn side_of(less: bool, same: bool) -> (r: Side)
    ensures
        r is Before <==> less,
        r is Same <==> same && !less,
{
    if less {
        Side::Before
    } else if same {
        Side::Same
    } else {
        Side::After
    }
}

fn rank_of(c: &Cell) -> (r: u8)
    ensures
        r == rank(c@),
{
    match c {
        Cell::Null => 0,
        Cell::Time(_) => 1,
        Cell::Int(_) => 2,
        Cell::UInt(_) => 3,
        Cell::Bool(_) => 4,
        Cell::Str(_) => 5,
        Cell::Float(_) => 6,
        Cell::Other(_) => 7,
    }
}

spec fn on_columns(batch: &Batch, on: &Vec<usize>) -> bool {
    &&& batch@.well_formed()
    &&& forall|k: int| 0 <= k < on.len() ==> (#[trigger] on@[k]) < batch.columns.len()
    &&& keys_orderable(batch@, batch::positions(on@))
}

proof fn lemma_keys_agree_before(a: Seq<batch::CellView>, b: Seq<batch::CellView>, k: int)
    requires
        0 <= k <= a.len(),
        a.len() == b.len(),
        a.take(k) == b.take(k),
    ensures
        key_before(a, b) == key_before(a.skip(k), b.skip(k)),
    decreases k,
{
    if k == 0 {
        assert(a.skip(0) =~= a);
        assert(b.skip(0) =~= b);
    } else {
        assert(a[0] == a.take(k)[0]);
        assert(b[0] == b.take(k)[0]);
        let x = a.drop_first();
        let y = b.drop_first();
        assert forall|i: int| 0 <= i < k - 1 implies x[i] == y[i] by {
            assert(a.take(k)[i + 1] == a[i + 1]);
            assert(b.take(k)[i + 1] == b[i + 1]);
        }
        assert(x.take(k - 1) =~= y.take(k - 1));
        lemma_keys_agree_before(x, y, k - 1);
        assert(x.skip(k - 1) =~= a.skip(k));
        assert(y.skip(k - 1) =~= b.skip(k));
    }
}

/// Where the key of one row stands to that of another.
fn compare_rows(batch: &Batch, on: &Vec<usize>, a: usize, b: usize) -> (r: Side)
    requires
        on_columns(batch, on),
        a < batch.rows,
        b < batch.rows,
    ensures
        ({
            let x = key_of(batch@, batch::positions(on@), a as int);
            let y = key_of(batch@, batch::positions(on@), b as int);
            &&& r is Before <==> key_before(x, y)
            &&& r is Same <==> x == y
        }),
{
    let ghost cols = batch::positions(on@);
    let ghost x = key_of(batch@, cols, a as int);
    let ghost y = key_of(batch@, cols, b as int);
    let mut k: usize = 0;
    while k < on.len()
        invariant
            k <= on.len(),
            on_columns(batch, on),
            a < batch.rows,
            b < batch.rows,
            cols == batch::positions(on@),
            x == key_of(batch@, cols, a as int),
            y == key_of(batch@, cols, b as int),
            x.take(k as int) == y.take(k as int),
        decreases on.len() - k,
    {
        let c: usize = on[k];
        assert(batch@.columns[c as int] == batch.columns@[c as int]@);
        assert(cols[k as int] == c);
        assert(orderable(batch@.columns[cols[k as int]].cells[a as int]));
        assert(orderable(batch@.columns[cols[k as int]].cells[b as int]));
        let p = &batch.columns[c].cells[a];
        let q = &batch.columns[c].cells[b];
        assert(x[k as int] == p@);
        assert(y[k as int] == q@);
        let side = compare_cells(p, q);
        match side {
            Side::Same => {
                assert(x.take(k + 1) =~= x.take(k as int).push(x[k as int]));
                assert(y.take(k + 1) =~= y.take(k as int).push(y[k as int]));
            },
            _ => {
                proof {
                    lemma_keys_agree_before(x, y, k as int);
                    assert(x.skip(k as int)[0] == x[k as int]);
                    assert(y.skip(k as int)[0] == y[k as int]);
                }
                return side;
            },
        }
        k += 1;
    }
    proof {
        assert(x.take(x.len() as int) =~= x);
        assert(y.take(y.len() as int) =~= y);
        lemma_key_orderable(batch@, cols, a as int);
        keys_are_totally_ordered(x, y);
    }
    Side::Same
}

/// Rows in the order of their keys, and those with one key in the order of
/// their arrival.
pub open spec fn row_before(b: batch::BatchView, on: Seq<int>, x: int, y: int) -> bool {
    key_before(key_of(b, on, x), key_of(b, on, y)) || (key_of(b, on, x) == key_of(b, on, y) && x
        < y)
}

proof fn lemma_rows_transitive(b: batch::BatchView, on: Seq<int>, x: int, y: int, z: int)
    requires
        keys_orderable(b, on),
        0 <= x < b.rows,
        0 <= y < b.rows,
        0 <= z < b.rows,
        row_before(b, on, x, y),
        row_before(b, on, y, z),
    ensures
        row_before(b, on, x, z),
{
    lemma_key_orderable(b, on, x);
    lemma_key_orderable(b, on, y);
    lemma_key_orderable(b, on, z);
    if key_before(key_of(b, on, x), key_of(b, on, y)) && key_before(
        key_of(b, on, y),
        key_of(b, on, z),
    ) {
        keys_are_transitively_ordered(key_of(b, on, x), key_of(b, on, y), key_of(b, on, z));
    }
}

/// The rows `lo..hi`, each once, in order.
spec fn sorted_rows(b: batch::BatchView, on: Seq<int>, v: Seq<usize>, lo: int, hi: int) -> bool {
    &&& v.len() == hi - lo
    &&& forall|i: int| 0 <= i < v.len() ==> lo <= #[trigger] v[i] < hi
    &&& forall|i: int, j: int|
        0 <= i < j < v.len() ==> row_before(b, on, (#[trigger] v[i]) as int, (
        #[trigger] v[j]) as int)
    &&& forall|x: int| lo <= x < hi ==> #[trigger] v.contains(x as usize)
}

fn merge(batch: &Batch, on: &Vec<usize>, a: &Vec<usize>, b: &Vec<usize>, lo: usize, mid: usize, hi: usize) -> (r:
    Vec<usize>)
    requires
        on_columns(batch, on),
        lo <= mid <= hi <= batch.rows,
        sorted_rows(batch@, batch::positions(on@), a@, lo as int, mid as int),
        sorted_rows(batch@, batch::positions(on@), b@, mid as int, hi as int),
    ensures
        sorted_rows(batch@, batch::positions(on@), r@, lo as int, hi as int),
{
    let ghost cols = batch::positions(on@);
    let ghost bv = batch@;
    let mut out: Vec<usize> = Vec::new();
    let mut i: usize = 0;
    let mut j: usize = 0;
    while i < a.len() || j < b.len()
        invariant
            i <= a.len(),
            j <= b.len(),
            on_columns(batch, on),
            lo <= mid <= hi <= batch.rows,
            bv == batch@,
            cols == batch::positions(on@),
            sorted_rows(bv, cols, a@, lo as int, mid as int),
            sorted_rows(bv, cols, b@, mid as int, hi as int),
            out@.len() == i + j,
            forall|k: int| 0 <= k < out@.len() ==> lo <= #[trigger] out@[k] < hi,
            forall|k: int, l: int|
                0 <= k < l < out@.len() ==> row_before(
                    bv,
                    cols,
                    (#[trigger] out@[k]) as int,
                    (#[trigger] out@[l]) as int,
                ),
            forall|k: int, l: int|
                0 <= k < out@.len() && i <= l < a@.len() ==> row_before(
                    bv,
                    cols,
                    (#[trigger] out@[k]) as int,
                    (#[trigger] a@[l]) as int,
                ),
            forall|k: int, l: int|
                0 <= k < out@.len() && j <= l < b@.len() ==> row_before(
                    bv,
                    cols,
                    (#[trigger] out@[k]) as int,
                    (#[trigger] b@[l]) as int,
                ),
            forall|k: int| 0 <= k < i ==> out@.contains(#[trigger] a@[k]),
            forall|k: int| 0 <= k < j ==> out@.contains(#[trigger] b@[k]),
        decreases a.len() - i + b.len() - j,
    {
        let first: bool = if i < a.len() && j < b.len() {
            let x: usize = a[i];
            let y: usize = b[j];
            match compare_rows(batch, on, x, y) {
                Side::Before => true,
                Side::Same => true,
                Side::After => {
                    proof {
                        lemma_key_orderable(bv, cols, x as int);
                        lemma_key_orderable(bv, cols, y as int);
                        keys_are_totally_ordered(
                            key_of(bv, cols, x as int),
                            key_of(bv, cols, y as int),
                        );
                    }
                    false
                },
            }
        } else {
            i < a.len()
        };
        let ghost was = out@;
        if first {
            let x: usize = a[i];
            proof {
                assert forall|l: int| j <= l < b@.len() implies row_before(
                    bv,
                    cols,
                    x as int,
                    (#[trigger] b@[l]) as int,
                ) by {
                    assert(row_before(bv, cols, x as int, b@[j as int] as int));
                    if l > j {
                        lemma_rows_transitive(bv, cols, x as int, b@[j as int] as int, b@[l] as int);
                    }
                }
            }
            out.push(x);
            i += 1;
            proof {
                assert(out@[was.len() as int] == x);
                assert forall|k: int| 0 <= k < i implies out@.contains(#[trigger] a@[k]) by {
                    if k < i - 1 {
                        let m = choose|m: int| 0 <= m < was.len() && was[m] == a@[k];
                        assert(out@[m] == a@[k]);
                    }
                }
                assert forall|k: int| 0 <= k < j implies out@.contains(#[trigger] b@[k]) by {
                    let m = choose|m: int| 0 <= m < was.len() && was[m] == b@[k];
                    assert(out@[m] == b@[k]);
                }
            }
        } else {
            let y: usize = b[j];
            proof {
                assert forall|l: int| i <= l < a@.len() implies row_before(
                    bv,
                    cols,
                    y as int,
                    (#[trigger] a@[l]) as int,
                ) by {
                    assert(row_before(bv, cols, y as int, a@[i as int] as int));
                    if l > i {
                        lemma_rows_transitive(bv, cols, y as int, a@[i as int] as int, a@[l] as int);
                    }
                }
            }
            out.push(y);
            j += 1;
            proof {
                assert(out@[was.len() as int] == y);
                assert forall|k: int| 0 <= k < j implies out@.contains(#[trigger] b@[k]) by {
                    if k < j - 1 {
                        let m = choose|m: int| 0 <= m < was.len() && was[m] == b@[k];
                        assert(out@[m] == b@[k]);
                    }
                }
                assert forall|k: int| 0 <= k < i implies out@.contains(#[trigger] a@[k]) by {
                    let m = choose|m: int| 0 <= m < was.len() && was[m] == a@[k];
                    assert(out@[m] == a@[k]);
                }
            }
        }
    }
    proof {
        assert forall|x: int| lo <= x < hi implies #[trigger] out@.contains(x as usize) by {
            if x < mid {
                assert(a@.contains(x as usize));
                let k = choose|k: int| 0 <= k < a@.len() && a@[k] == x as usize;
                assert(out@.contains(a@[k]));
            } else {
                assert(b@.contains(x as usize));
                let k = choose|k: int| 0 <= k < b@.len() && b@[k] == x as usize;
                assert(out@.contains(b@[k]));
            }
        }
    }
    out
}

/// The rows `lo..hi` in the order of their keys.
fn sort_rows(batch: &Batch, on: &Vec<usize>, lo: usize, hi: usize) -> (r: Vec<usize>)
    requires
        on_columns(batch, on),
        lo <= hi <= batch.rows,
    ensures
        sorted_rows(batch@, batch::positions(on@), r@, lo as int, hi as int),
    decreases hi - lo,
{
    if hi - lo <= 1 {
        let mut r: Vec<usize> = Vec::new();
        if lo < hi {
            r.push(lo);
            assert(r@[0] == lo);
        }
        return r;
    }
    let mid: usize = lo + (hi - lo) / 2;
    let a = sort_rows(batch, on, lo, mid);
    let b = sort_rows(batch, on, mid, hi);
    merge(batch, on, &a, &b, lo, mid, hi)
}

/// The last row of each key, in the order of the keys.
fn keep_last(batch: &Batch, on: &Vec<usize>) -> (r: Vec<usize>)
    requires
        on_columns(batch, on),
    ensures
        winners(batch@, batch::positions(on@), batch::positions(r@)),
{
    let ghost cols = batch::positions(on@);
    let ghost bv = batch@;
    let idx = sort_rows(batch, on, 0, batch.rows);
    let mut kept: Vec<usize> = Vec::new();
    let mut j: usize = 0;
    // Each row kept is the last of its key among the rows before position j,
    // and each of those rows has its key kept or shares the key of row j.
    while j < idx.len()
        invariant
            j <= idx.len(),
            on_columns(batch, on),
            bv == batch@,
            cols == batch::positions(on@),
            idx@.len() == bv.rows,
            sorted_rows(bv, cols, idx@, 0, bv.rows as int),
            forall|k: int| 0 <= k < kept@.len() ==> #[trigger] kept@[k] < bv.rows,
            forall|k: int, l: int|
                0 <= k < l < kept@.len() ==> key_before(
                    key_of(bv, cols, (#[trigger] kept@[k]) as int),
                    key_of(bv, cols, (#[trigger] kept@[l]) as int),
                ),
            forall|k: int, l: int|
                0 <= k < kept@.len() && j <= l < idx@.len() ==> key_before(
                    key_of(bv, cols, (#[trigger] kept@[k]) as int),
                    key_of(bv, cols, (#[trigger] idx@[l]) as int),
                ),
            forall|k: int, l: int|
                0 <= k < kept@.len() && 0 <= l < j && key_of(
                    bv,
                    cols,
                    (#[trigger] kept@[k]) as int,
                ) == key_of(bv, cols, (#[trigger] idx@[l]) as int) ==> idx@[l] <= kept@[k],
            forall|l: int|
                0 <= l < j ==> covered(bv, cols, kept@, (#[trigger] idx@[l]) as int) || (j
                    < idx@.len() && key_of(bv, cols, idx@[l] as int) == key_of(
                    bv,
                    cols,
                    idx@[j as int] as int,
                )),
        decreases idx.len() - j,
    {
        let x: usize = idx[j];
        let last: bool = if j + 1 == idx.len() {
            true
        } else {
            match compare_rows(batch, on, x, idx[j + 1]) {
                Side::Same => false,
                _ => true,
            }
        };
        let ghost was = kept@;
        let ghost kx = key_of(bv, cols, x as int);
        proof {
            lemma_key_orderable(bv, cols, x as int);
            keys_are_totally_ordered(kx, kx);
        }
        if last {
            proof {
                assert forall|l: int| j + 1 <= l < idx@.len() implies key_before(
                    kx,
                    key_of(bv, cols, (#[trigger] idx@[l]) as int),
                ) by {
                    let y = idx@[j + 1] as int;
                    assert(row_before(bv, cols, x as int, y));
                    assert(key_before(kx, key_of(bv, cols, y)));
                    if l > j + 1 {
                        let z = idx@[l] as int;
                        assert(row_before(bv, cols, y, z));
                        lemma_key_orderable(bv, cols, y);
                        lemma_key_orderable(bv, cols, z);
                        if key_of(bv, cols, y) != key_of(bv, cols, z) {
                            keys_are_transitively_ordered(
                                kx,
                                key_of(bv, cols, y),
                                key_of(bv, cols, z),
                            );
                        }
                    }
                }
            }
            kept.push(x);
            proof {
                assert(kept@[was.len() as int] == x);
                assert forall|k: int, l: int|
                    0 <= k < kept@.len() && 0 <= l < j + 1 && key_of(
                        bv,
                        cols,
                        (#[trigger] kept@[k]) as int,
                    ) == key_of(bv, cols, (#[trigger] idx@[l]) as int) implies idx@[l]
                    <= kept@[k] by {
                    if k == was.len() {
                        if l < j {
                            assert(row_before(bv, cols, idx@[l] as int, x as int));
                        }
                    } else if l == j {
                        assert(key_before(key_of(bv, cols, kept@[k] as int), kx));
                    }
                }
                assert forall|l: int| 0 <= l < j + 1 implies covered(
                    bv,
                    cols,
                    kept@,
                    (#[trigger] idx@[l]) as int,
                ) by {
                    if l == j || key_of(bv, cols, idx@[l] as int) == kx {
                        assert(key_of(bv, cols, kept@[was.len() as int] as int) == kx);
                    } else {
                        assert(covered(bv, cols, was, idx@[l] as int));
                        let k = choose|k: int|
                            0 <= k < was.len() && key_of(bv, cols, (#[trigger] was[k]) as int)
                                == key_of(bv, cols, idx@[l] as int);
                        assert(kept@[k] == was[k]);
                    }
                }
            }
        } else {
            proof {
                assert forall|k: int, l: int|
                    0 <= k < kept@.len() && 0 <= l < j + 1 && key_of(
                        bv,
                        cols,
                        (#[trigger] kept@[k]) as int,
                    ) == key_of(bv, cols, (#[trigger] idx@[l]) as int) implies idx@[l]
                    <= kept@[k] by {
                    if l == j {
                        assert(key_before(key_of(bv, cols, kept@[k] as int), kx));
                    }
                }
            }
        }
        j += 1;
    }
    proof {
        let kv = batch::positions(kept@);
        assert forall|r: int| 0 <= r < bv.rows implies #[trigger] kept_has(bv, cols, kv, r) by {
            assert(idx@.contains(r as usize));
            let l = choose|l: int| 0 <= l < idx@.len() && idx@[l] == r as usize;
            assert(covered(bv, cols, kept@, idx@[l] as int));
            let k = choose|k: int|
                0 <= k < kept@.len() && key_of(bv, cols, (#[trigger] kept@[k]) as int) == key_of(
                    bv,
                    cols,
                    idx@[l] as int,
                );
            assert(key_of(bv, cols, kv[k]) == key_of(bv, cols, r));
        }
        assert forall|i: int, r: int|
            0 <= i < kv.len() && 0 <= r < bv.rows && #[trigger] key_of(bv, cols, r) == key_of(
                bv,
                cols,
                #[trigger] kv[i],
            ) implies r <= kv[i] by {
            assert(idx@.contains(r as usize));
            let l = choose|l: int| 0 <= l < idx@.len() && idx@[l] == r as usize;
            assert(key_of(bv, cols, kept@[i] as int) == key_of(bv, cols, idx@[l] as int));
        }
        assert forall|i: int, j: int| 0 <= i < j < kv.len() implies key_before(
            key_of(bv, cols, #[trigger] kv[i]),
            key_of(bv, cols, #[trigger] kv[j]),
        ) by {
            assert(key_before(
                key_of(bv, cols, kept@[i] as int),
                key_of(bv, cols, kept@[j] as int),
            ));
        }
    }
    kept
}

/// Whether a row's key is among those of the rows kept so far.
spec fn covered(b: batch::BatchView, on: Seq<int>, kept: Seq<usize>, r: int) -> bool {
    exists|k: int|
        0 <= k < kept.len() && key_of(b, on, (#[trigger] kept[k]) as int) == key_of(b, on, r)
}

// ----------------------------------------------------------------- preparation

/// The text of an optional name.
pub open spec fn opt_name(s: Option<&str>) -> Option<Seq<char>> {
    match s {
        Some(t) => Some(t@),
        None => None,
    }
}

/// The columns of the key.
fn find_key_columns(batch: &Batch, leading: Option<&str>) -> (r: Vec<usize>)
    requires
        batch.columns.len() > 0,
    ensures
        batch::positions(r@) == key_columns(batch@, opt_name(leading)),
        forall|k: int| 0 <= k < r.len() ==> (#[trigger] r@[k]) < batch.columns.len(),
{
    let ghost cols = batch@.columns;
    let ghost lead = opt_name(leading);
    let mut on: Vec<usize> = Vec::new();
    assert(batch::positions(on@) =~= Seq::<int>::empty());
    match leading {
        Some(name) => {
            match batch::find_column(&batch.columns, name) {
                Some(c) => {
                    on.push(c);
                    assert(batch::positions(on@) =~= seq![c as int]);
                },
                None => {},
            }
        },
        None => {},
    }
    let ghost head = batch::positions(on@);
    on.push(0);
    let mut i: usize = 1;
    assert(batch::positions(on@) =~= head + seq![0int] + tag_columns(cols, lead, 1));
    while i < batch.columns.len()
        invariant
            1 <= i <= batch.columns.len(),
            cols == batch@.columns,
            lead == opt_name(leading),
            batch::positions(on@) == head + seq![0int] + tag_columns(cols, lead, i as int),
            forall|k: int| 0 <= k < on.len() ==> (#[trigger] on@[k]) < batch.columns.len(),
        decreases batch.columns.len() - i,
    {
        let f = &batch.columns[i].field;
        assert(cols[i as int].field == f@);
        let ghost done = batch::positions(on@);
        let named: bool = match leading {
            Some(name) => text::same(f.name.as_str(), name),
            None => false,
        };
        let dict: bool = match f.data_type {
            DataType::Dictionary(_, _) => true,
            _ => false,
        };
        if dict && !named {
            on.push(i);
            assert(batch::positions(on@) =~= done.push(i as int));
            assert(done.push(i as int) =~= head + seq![0int] + tag_columns(cols, lead, i + 1));
        }
        i += 1;
    }
    assert(head + seq![0int] + tag_columns(cols, lead, cols.len() as int) =~= head + (seq![0int]
        + tag_columns(cols, lead, cols.len() as int)));
    assert(head.len() == 0 ==> head + (seq![0int] + tag_columns(cols, lead, cols.len() as int))
        =~= seq![0int] + tag_columns(cols, lead, cols.len() as int));
    on
}

/// The hours and rows of parts.
pub open spec fn part_views(v: Seq<(String, Vec<usize>)>) -> Seq<(Seq<char>, Seq<int>)> {
    v.map_values(|p: (String, Vec<usize>)| (p.0@, batch::positions(p.1@)))
}

proof fn lemma_hour_rows_grow(b: batch::BatchView, kept: Seq<int>, k: int, hour: Seq<char>)
    requires
        0 <= k < kept.len(),
    ensures
        rows_of_hour(b, kept.take(k + 1), hour) == (if hour_of(b, kept[k]) == hour {
            rows_of_hour(b, kept.take(k), hour).push(kept[k])
        } else {
            rows_of_hour(b, kept.take(k), hour)
        }),
{
    assert(kept.take(k + 1).drop_last() =~= kept.take(k));
}

/// Puts a row into the part of its hour, and makes that part if there is none.
fn put_row(parts: &mut Vec<(String, Vec<usize>)>, hour: String, row: usize)
    requires
        forall|i: int, j: int|
            0 <= i < j < old(parts)@.len() ==> text::before(
                (#[trigger] old(parts)@[i]).0@,
                (#[trigger] old(parts)@[j]).0@,
            ),
    ensures
        forall|i: int, j: int|
            0 <= i < j < final(parts)@.len() ==> text::before(
                (#[trigger] final(parts)@[i]).0@,
                (#[trigger] final(parts)@[j]).0@,
            ),
        ({
            let was = part_views(old(parts)@);
            let now = part_views(final(parts)@);
            ||| exists|at: int|
                0 <= at < was.len() && (#[trigger] was[at]).0 == hour@ && now == was.update(
                    at,
                    (hour@, was[at].1.push(row as int)),
                )
            ||| !has_hour(was, hour@) && exists|at: int|
                0 <= at <= was.len() && now == #[trigger] was.insert(
                    at,
                    (hour@, seq![row as int]),
                )
        }),
{
    let ghost was = part_views(parts@);
    let mut at: usize = 0;
    while at < parts.len() && text::comes_before(parts[at].0.as_str(), hour.as_str())
        invariant
            at <= parts.len(),
            was == part_views(parts@),
            forall|i: int|
                0 <= i < at ==> text::before((#[trigger] parts@[i]).0@, hour@),
        decreases parts.len() - at,
    {
        at += 1;
    }
    if at < parts.len() && text::same(parts[at].0.as_str(), hour.as_str()) {
        let ghost old_rows = parts@[at as int].1@;
        assert(was[at as int].0 == hour@);
        let part = &mut parts[at];
        part.1.push(row);
        proof {
            assert(batch::positions(parts@[at as int].1@) =~= batch::positions(old_rows).push(
                row as int,
            ));
            assert(part_views(parts@) =~= was.update(
                at as int,
                (hour@, was[at as int].1.push(row as int)),
            ));
        }
    } else {
        proof {
            if at < parts@.len() {
                text::before_is_total(parts@[at as int].0@, hour@);
            }
            assert forall|i: int| at <= i < parts@.len() implies text::before(
                hour@,
                (#[trigger] parts@[i]).0@,
            ) by {
                if i > at {
                    text::before_is_transitive(hour@, parts@[at as int].0@, parts@[i].0@);
                }
            }
            if has_hour(was, hour@) {
                let i = choose|i: int| 0 <= i < was.len() && (#[trigger] was[i]).0 == hour@;
                text::before_is_total(hour@, hour@);
                assert(parts@[i].0@ == hour@);
            }
        }
        let mut rows: Vec<usize> = Vec::new();
        rows.push(row);
        let ghost h = hour@;
        let ghost before_insert = parts@;
        parts.insert(at, (hour, rows));
        proof {
            assert(batch::positions(rows@) =~= seq![row as int]);
            assert(part_views(parts@) =~= was.insert(at as int, (h, seq![row as int])));
            assert forall|i: int, j: int| 0 <= i < j < parts@.len() implies text::before(
                (#[trigger] parts@[i]).0@,
                (#[trigger] parts@[j]).0@,
            ) by {
                let a = if i < at {
                    i
                } else {
                    i - 1
                };
                let c = if j < at {
                    j
                } else {
                    j - 1
                };
                if i == at {
                    assert(text::before(h, before_insert[c].0@));
                } else if j == at {
                    assert(text::before(before_insert[a].0@, h));
                } else {
                    assert(text::before(before_insert[a].0@, before_insert[c].0@));
                }
            }
        }
    }
}

/// The rows kept, split by their hour.
fn split_rows(batch: &Batch, kept: &Vec<usize>) -> (r: Vec<(String, Vec<usize>)>)
    requires
        batch@.well_formed(),
        batch.columns.len() > 0,
        forall|k: int| 0 <= k < kept.len() ==> (#[trigger] kept@[k]) < batch.rows,
        forall|k: int| 0 <= k < batch.rows ==> (#[trigger] batch@.columns[0].cells[k]) is Time,
    ensures
        split_by_hour(part_views(r@), batch@, batch::positions(kept@)),
        forall|i: int, k: int|
            0 <= i < r@.len() && 0 <= k < r@[i].1@.len() ==> (#[trigger] r@[i].1@[k]) < batch.rows,
{
    let ghost b = batch@;
    let ghost all = batch::positions(kept@);
    let mut parts: Vec<(String, Vec<usize>)> = Vec::new();
    let mut k: usize = 0;
    while k < kept.len()
        invariant
            k <= kept.len(),
            b == batch@,
            b.well_formed(),
            batch.columns.len() > 0,
            all == batch::positions(kept@),
            forall|k: int| 0 <= k < kept.len() ==> (#[trigger] kept@[k]) < batch.rows,
            forall|k: int| 0 <= k < batch.rows ==> (#[trigger] b.columns[0].cells[k]) is Time,
            forall|i: int, j: int|
                0 <= i < j < parts@.len() ==> text::before(
                    (#[trigger] parts@[i]).0@,
                    (#[trigger] parts@[j]).0@,
                ),
            forall|i: int|
                0 <= i < parts@.len() ==> (#[trigger] part_views(parts@)[i]).1 == rows_of_hour(
                    b,
                    all.take(k as int),
                    part_views(parts@)[i].0,
                ) && part_views(parts@)[i].1.len() > 0,
            forall|j: int|
                0 <= j < k ==> has_hour(part_views(parts@), hour_of(b, #[trigger] all[j])),
        decreases kept.len() - k,
    {
        let row: usize = kept[k];
        assert(b.columns[0] == batch.columns@[0]@);
        assert(b.columns[0].cells[row as int] is Time);
        let cell = &batch.columns[0].cells[row];
        assert(b.columns[0].cells[row as int] == cell@);
        let t: i64 = match cell {
            Cell::Time(t) => *t,
            _ => 0,
        };
        let hour = hour_partition(t);
        let ghost h = hour@;
        assert(h == hour_of(b, all[k as int]));
        let ghost was = part_views(parts@);
        put_row(&mut parts, hour, row);
        proof {
            let now = part_views(parts@);
            let done = all.take(k as int);
            let next = all.take(k + 1);
            if exists|at: int|
                0 <= at < was.len() && (#[trigger] was[at]).0 == h && now == was.update(
                    at,
                    (h, was[at].1.push(row as int)),
                ) {
                let at = choose|at: int|
                    0 <= at < was.len() && (#[trigger] was[at]).0 == h && now == was.update(
                        at,
                        (h, was[at].1.push(row as int)),
                    );
                assert(0 <= at < was.len() && was[at].0 == h);
                assert(now == was.update(at, (h, was[at].1.push(row as int))));
                assert(now.len() == parts@.len());
                assert(now[at].0 == h);
                assert forall|i: int| 0 <= i < parts@.len() implies (
                #[trigger] part_views(parts@)[i]).1 == rows_of_hour(b, next, now[i].0)
                    && now[i].1.len() > 0 by {
                    lemma_hour_rows_grow(b, all, k as int, now[i].0);
                    if i != at {
                        assert(parts@[i].0@ == now[i].0);
                        assert(parts@[at].0@ == h);
                        if i < at {
                            text::before_is_total(parts@[i].0@, parts@[at].0@);
                        } else {
                            text::before_is_total(parts@[at].0@, parts@[i].0@);
                        }
                    }
                }
                assert forall|j: int| 0 <= j < k + 1 implies has_hour(
                    now,
                    hour_of(b, #[trigger] all[j]),
                ) by {
                    if j < k {
                        let i = choose|i: int|
                            0 <= i < was.len() && (#[trigger] was[i]).0 == hour_of(b, all[j]);
                        assert(now[i].0 == hour_of(b, all[j]));
                    } else {
                        assert(now[at].0 == h);
                    }
                }
            } else {
                let at = choose|at: int|
                    0 <= at <= was.len() && now == #[trigger] was.insert(
                        at,
                        (h, seq![row as int]),
                    );
                assert(0 <= at <= was.len() && now == was.insert(at, (h, seq![row as int])));
                assert(now.len() == was.len() + 1);
                assert(now.len() == parts@.len());
                lemma_no_rows_without_part(b, done, was, h);
                assert forall|i: int| 0 <= i < parts@.len() implies (
                #[trigger] part_views(parts@)[i]).1 == rows_of_hour(b, next, now[i].0)
                    && now[i].1.len() > 0 by {
                    lemma_hour_rows_grow(b, all, k as int, now[i].0);
                    if i < at {
                        assert(now[i] == was[i]);
                        assert(!(was[i].0 == h));
                    } else if i > at {
                        assert(was.insert(at, (h, seq![row as int]))[i] == was[i - 1]);
                        assert(!(was[i - 1].0 == h));
                    } else {
                        assert(Seq::<int>::empty().push(row as int) =~= seq![row as int]);
                    }
                }
                assert forall|j: int| 0 <= j < k + 1 implies has_hour(
                    now,
                    hour_of(b, #[trigger] all[j]),
                ) by {
                    if j < k {
                        let i = choose|i: int|
                            0 <= i < was.len() && (#[trigger] was[i]).0 == hour_of(b, all[j]);
                        if i < at {
                            assert(now[i].0 == hour_of(b, all[j]));
                        } else {
                            assert(now[i + 1].0 == hour_of(b, all[j]));
                        }
                    } else {
                        assert(now[at].0 == h);
                    }
                }
            }
        }
        k += 1;
    }
    proof {
        assert(all.take(all.len() as int) =~= all);
        let views = part_views(parts@);
        assert forall|i: int, j: int| 0 <= i < j < views.len() implies text::before(
            (#[trigger] views[i]).0,
            (#[trigger] views[j]).0,
        ) by {
            assert(text::before(parts@[i].0@, parts@[j].0@));
        }
        assert forall|i: int, k: int| 0 <= i < parts@.len() && 0 <= k < parts@[i].1@.len() implies (
        #[trigger] parts@[i].1@[k]) < batch.rows by {
            assert(views[i].1[k] == parts@[i].1@[k]);
            lemma_hour_rows_within(b, all, views[i].0, k);
        }
    }
    parts
}

proof fn lemma_hour_rows_within(b: batch::BatchView, kept: Seq<int>, hour: Seq<char>, k: int)
    requires
        forall|i: int| 0 <= i < kept.len() ==> 0 <= #[trigger] kept[i] < b.rows,
        0 <= k < rows_of_hour(b, kept, hour).len(),
    ensures
        0 <= rows_of_hour(b, kept, hour)[k] < b.rows,
    decreases kept.len(),
{
    if kept.len() > 0 {
        let init = kept.drop_last();
        let p = rows_of_hour(b, init, hour);
        if k < p.len() {
            assert forall|i: int| 0 <= i < init.len() implies 0 <= #[trigger] init[i] < b.rows by {
                assert(kept[i] == init[i]);
            }
            lemma_hour_rows_within(b, init, hour, k);
        } else {
            assert(kept[kept.len() - 1] == kept.last());
        }
    }
}

proof fn lemma_no_rows_without_part(
    b: batch::BatchView,
    done: Seq<int>,
    parts: Seq<(Seq<char>, Seq<int>)>,
    hour: Seq<char>,
)
    requires
        !has_hour(parts, hour),
        forall|j: int| 0 <= j < done.len() ==> has_hour(parts, hour_of(b, #[trigger] done[j])),
    ensures
        rows_of_hour(b, done, hour) == Seq::<int>::empty(),
    decreases done.len(),
{
    if done.len() > 0 {
        assert(has_hour(parts, hour_of(b, done[done.len() - 1])));
        assert forall|j: int| 0 <= j < done.drop_last().len() implies has_hour(
            parts,
            hour_of(b, #[trigger] done.drop_last()[j]),
        ) by {
            assert(done[j] == done.drop_last()[j]);
        }
        lemma_no_rows_without_part(b, done.drop_last(), parts, hour);
    }
}

/// Whether parts are a batch's rows, prepared for files: the rows kept of
/// each key, split by hour.
pub open spec fn prepared(
    parts: Seq<(String, Batch)>,
    b: batch::BatchView,
    leading: Option<Seq<char>>,
) -> bool {
    exists|kept: Seq<int>, split: Seq<(Seq<char>, Seq<int>)>|
        {
            &&& #[trigger] winners(b, key_columns(b, leading), kept)
            &&& #[trigger] split_by_hour(split, b, kept)
            &&& split.len() == parts.len()
            &&& forall|i: int|
                0 <= i < parts.len() ==> (#[trigger] parts[i]).0@ == split[i].0 && parts[i].1@
                    == b.take_rows(split[i].1)
        }
}

/// Prepares a batch for files: rows sorted by their key, the last write of
/// each key kept, and split by the hour of their time, the hours in order. The
/// key is the leading column, if there is one of that name, then the time and
/// the tags; a leading float column has no order here.
pub fn prepare_ordered(batch: &Batch, leading: Option<&str>) -> (r: Result<
    Vec<(String, Batch)>,
    String,
>)
    requires
        batch@.well_formed(),
        batch.columns.len() > 0,
        batch@.columns[0].field.data_type is TimeNs ==> forall|k: int|
            0 <= k < batch.rows ==> (#[trigger] batch@.columns[0].cells[k]) is Time,
        keys_orderable(batch@, key_columns(batch@, opt_name(leading))),
    ensures
        match r {
            Ok(parts) => (batch.rows == 0 && parts.len() == 0) || (
            batch@.columns[0].field.data_type is TimeNs && prepared(
                parts@,
                batch@,
                opt_name(leading),
            )),
            Err(m) => batch.rows > 0 && !(batch@.columns[0].field.data_type is TimeNs) && m@
                == "time column is not ns timestamps"@,
        },
{
    if batch.rows == 0 {
        return Ok(Vec::new());
    }
    assert(batch@.columns[0] == batch.columns@[0]@);
    let is_time: bool = match batch.columns[0].field.data_type {
        DataType::TimeNs(_) => true,
        _ => false,
    };
    if !is_time {
        return Err(String::from_str("time column is not ns timestamps"));
    }
    let on = find_key_columns(batch, leading);
    let kept = keep_last(batch, &on);
    let ghost kv = batch::positions(kept@);
    assert forall|k: int| 0 <= k < kept.len() implies (#[trigger] kept@[k]) < batch.rows by {
        assert(kv[k] == kept@[k]);
    }
    let parts = split_rows(batch, &kept);
    let ghost split = part_views(parts@);
    let mut out: Vec<(String, Batch)> = Vec::new();
    let mut i: usize = 0;
    while i < parts.len()
        invariant
            i <= parts.len(),
            batch@.well_formed(),
            split == part_views(parts@),
            forall|i: int, k: int|
                0 <= i < parts@.len() && 0 <= k < parts@[i].1@.len() ==> (#[trigger] parts@[i].1@[k])
                    < batch.rows,
            out@.len() == i,
            forall|j: int|
                0 <= j < i ==> (#[trigger] out@[j]).0@ == split[j].0 && out@[j].1@
                    == batch@.take_rows(split[j].1),
        decreases parts.len() - i,
    {
        let rows = &parts[i].1;
        assert forall|k: int| 0 <= k < rows.len() implies (#[trigger] rows@[k]) < batch.rows by {
            assert(parts@[i as int].1@[k] < batch.rows);
        }
        let piece = batch.take_rows(rows);
        out.push((parts[i].0.clone(), piece));
        i += 1;
    }
    assert(winners(batch@, key_columns(batch@, opt_name(leading)), kv));
    assert(split_by_hour(split, batch@, kv));
    Ok(out)
}

/// Prepares a batch for files with the time first in the key.
pub fn prepare(batch: &Batch) -> (r: Result<Vec<(String, Batch)>, String>)
    requires
        batch@.well_formed(),
        batch.columns.len() > 0,
        batch@.columns[0].field.data_type is TimeNs ==> forall|k: int|
            0 <= k < batch.rows ==> (#[trigger] batch@.columns[0].cells[k]) is Time,
        keys_orderable(batch@, key_columns(batch@, None)),
    ensures
        match r {
            Ok(parts) => (batch.rows == 0 && parts.len() == 0) || (
            batch@.columns[0].field.data_type is TimeNs && prepared(parts@, batch@, None)),
            Err(m) => batch.rows > 0 && !(batch@.columns[0].field.data_type is TimeNs) && m@
                == "time column is not ns timestamps"@,
        },
{
    prepare_ordered(batch, None)
}

proof fn lemma_tag_columns_are_dictionaries(
    cols: Seq<batch::ColumnView>,
    leading: Option<Seq<char>>,
    k: int,
    i: int,
)
    requires
        0 <= k <= cols.len(),
        0 <= i < tag_columns(cols, leading, k).len(),
    ensures
        ({
            let c = tag_columns(cols, leading, k)[i];
            1 <= c < k && cols[c].field.data_type is Dictionary
        }),
    decreases k,
{
    if k > 1 {
        let p = tag_columns(cols, leading, k - 1);
        if i < p.len() {
            lemma_tag_columns_are_dictionaries(cols, leading, k - 1, i);
        }
    }
}

/// A snapshot of a buffer can be prepared, with any leading column that is no
/// float column.
pub proof fn snapshots_can_be_prepared(b: buffer::BufferView, leading: Option<Seq<char>>)
    requires
        b.aligned(),
        leading matches Some(name) ==> (batch::column_at(
            buffer::snapshot_of(b).columns,
            name,
        ) matches Some(c) ==> !(buffer::snapshot_of(b).columns[c].field.data_type is Float64)),
    ensures
        ({
            let s = buffer::snapshot_of(b);
            &&& s.well_formed()
            &&& s.columns.len() > 0
            &&& s.columns[0].field.data_type is TimeNs
            &&& forall|k: int| 0 <= k < s.rows ==> (#[trigger] s.columns[0].cells[k]) is Time
            &&& keys_orderable(s, key_columns(s, leading))
        }),
{
    buffer::snapshots_are_well_formed(b);
    let s = buffer::snapshot_of(b);
    let on = key_columns(s, leading);
    let tags = tag_columns(s.columns, leading, s.columns.len() as int);
    assert(s.columns[0] == buffer::time_column(b.times));
    if let Some(name) = leading {
        batch::column_at_is_first(s.columns, name);
    }
    assert forall|k: int, r: int| 0 <= k < on.len() && 0 <= r < s.rows implies orderable(
        #[trigger] s.columns[on[k]].cells[r],
    ) by {
        let c = on[k];
        let led = leading is Some && batch::column_at(s.columns, leading->Some_0) is Some;
        let rest = if led {
            k - 1
        } else {
            k
        };
        if led && k == 0 {
            assert(c == batch::column_at(s.columns, leading->Some_0)->Some_0);
        } else if rest > 0 {
            lemma_tag_columns_are_dictionaries(
                s.columns,
                leading,
                s.columns.len() as int,
                rest - 1,
            );
        }
        assert(0 <= c < s.columns.len());
        assert(batch::fits(s.columns[c].field.data_type, s.columns[c].cells[r]));
        if 1 <= c <= b.tags.len() {
            assert(s.columns[c] == buffer::tag_column(b.tags[c - 1]));
        } else if c > b.tags.len() {
            assert(s.columns[c] == buffer::field_column(b.fields[c - 1 - b.tags.len()]));
        }
    }
}

/// The time of a row.
pub open spec fn time_at(b: batch::BatchView, r: int) -> i64 {
    b.columns[0].cells[r]->Time_0
}

/// The first and the last time of a batch's rows; without rows, the largest
/// number and the smallest.
pub fn time_bounds(batch: &Batch) -> (r: (i64, i64))
    requires
        batch@.well_formed(),
        batch.columns.len() > 0,
        forall|k: int| 0 <= k < batch.rows ==> (#[trigger] batch@.columns[0].cells[k]) is Time,
    ensures
        batch.rows == 0 ==> r == (i64::MAX, i64::MIN),
        batch.rows > 0 ==> {
            &&& exists|k: int| 0 <= k < batch.rows && #[trigger] time_at(batch@, k) == r.0
            &&& exists|k: int| 0 <= k < batch.rows && #[trigger] time_at(batch@, k) == r.1
            &&& forall|k: int| 0 <= k < batch.rows ==> r.0 <= #[trigger] time_at(batch@, k) <= r.1
        },
{
    let ghost b = batch@;
    assert(b.columns[0] == batch.columns@[0]@);
    let mut min: i64 = i64::MAX;
    let mut max: i64 = i64::MIN;
    let mut i: usize = 0;
    while i < batch.rows
        invariant
            i <= batch.rows,
            b == batch@,
            b.well_formed(),
            batch.columns.len() > 0,
            b.columns[0] == batch.columns@[0]@,
            forall|k: int| 0 <= k < batch.rows ==> (#[trigger] b.columns[0].cells[k]) is Time,
            i == 0 ==> min == i64::MAX && max == i64::MIN,
            i > 0 ==> {
                &&& exists|k: int| 0 <= k < i && #[trigger] time_at(b, k) == min
                &&& exists|k: int| 0 <= k < i && #[trigger] time_at(b, k) == max
                &&& forall|k: int| 0 <= k < i ==> min <= #[trigger] time_at(b, k) <= max
            },
        decreases batch.rows - i,
    {
        assert(b.columns[0].cells[i as int] is Time);
        let cell = &batch.columns[0].cells[i];
        assert(b.columns[0].cells[i as int] == cell@);
        let t: i64 = match cell {
            Cell::Time(t) => *t,
            _ => 0,
        };
        assert(time_at(b, i as int) == t);
        let ghost old_min = min;
        let ghost old_max = max;
        if t < min {
            min = t;
        }
        if t > max {
            max = t;
        }
        proof {
            if i == 0 {
                assert(time_at(b, 0) == min && time_at(b, 0) == max);
            } else {
                let k = choose|k: int| 0 <= k < i && #[trigger] time_at(b, k) == old_min;
                let l = choose|l: int| 0 <= l < i && #[trigger] time_at(b, l) == old_max;
                assert(time_at(b, k) == old_min);
                assert(time_at(b, l) == old_max);
            }
        }
        i += 1;
    }
    (min, max)
}

/// The bloom filters of the columns before column `k`: their names and
/// distinct values.
pub open spec fn blooms(cols: Seq<batch::ColumnView>, k: int) -> Seq<(Seq<char>, nat)>
    decreases k,
{
    if k <= 0 {
        Seq::empty()
    } else {
        let p = blooms(cols, k - 1);
        let c = cols[k - 1];
        if c.field.data_type == batch::tag_type() && c.dictionary.len() >= BLOOM_MIN_DISTINCT {
            p.push((c.field.name, c.dictionary.len()))
        } else {
            p
        }
    }
}

/// The tag columns of a file that get a bloom filter, with their count of
/// distinct values: those with many.
pub fn bloom_columns(batch: &Batch) -> (r: Vec<(String, usize)>)
    ensures
        r@.map_values(|p: (String, usize)| (p.0@, p.1 as nat)) == blooms(
            batch@.columns,
            batch@.columns.len() as int,
        ),
{
    let ghost cols = batch@.columns;
    let mut out: Vec<(String, usize)> = Vec::new();
    let mut i: usize = 0;
    assert(out@.map_values(|p: (String, usize)| (p.0@, p.1 as nat)) =~= Seq::empty());
    while i < batch.columns.len()
        invariant
            i <= batch.columns.len(),
            cols == batch@.columns,
            out@.map_values(|p: (String, usize)| (p.0@, p.1 as nat)) == blooms(cols, i as int),
        decreases batch.columns.len() - i,
    {
        let c = &batch.columns[i];
        assert(cols[i as int] == c@);
        let ghost done = out@;
        if c.field.data_type.same(&DataType::tag()) && c.dictionary.len() >= BLOOM_MIN_DISTINCT {
            let item = (c.field.name.clone(), c.dictionary.len());
            out.push(item);
            assert(out@.map_values(|p: (String, usize)| (p.0@, p.1 as nat)) =~= done.map_values(
                |p: (String, usize)| (p.0@, p.1 as nat),
            ).push((c@.field.name, c@.dictionary.len())));
        }
        i += 1;
    }
    out
}

/// Cells are in the order of their values: times and numbers by size, what is
/// false before what is true, texts by their bytes, and nothing before anything.
pub proof fn cells_are_in_the_order_of_their_values(
    a: i64,
    b: i64,
    c: u64,
    d: u64,
    s: Seq<char>,
    t: Seq<char>,
    x: batch::CellView,
)
    ensures
        cell_before(batch::CellView::Time(a), batch::CellView::Time(b)) <==> a < b,
        cell_before(batch::CellView::Int(a), batch::CellView::Int(b)) <==> a < b,
        cell_before(batch::CellView::UInt(c), batch::CellView::UInt(d)) <==> c < d,
        cell_before(batch::CellView::Str(s), batch::CellView::Str(t)) <==> text::before(s, t),
        cell_before(batch::CellView::Bool(false), batch::CellView::Bool(true)),
        !cell_before(batch::CellView::Bool(true), batch::CellView::Bool(false)),
        !cell_before(x, batch::CellView::Null),
        !(x is Null) ==> cell_before(batch::CellView::Null, x),
{
}

/// Keys are compared by the first cell in which they differ.
pub proof fn the_first_cell_that_differs_decides(
    a: Seq<batch::CellView>,
    b: Seq<batch::CellView>,
    k: int,
)
    requires
        a.len() == b.len(),
        0 <= k < a.len(),
        a[k] != b[k],
        forall|j: int| 0 <= j < k ==> #[trigger] a[j] == b[j],
    ensures
        key_before(a, b) <==> cell_before(a[k], b[k]),
    decreases k,
{
    if k > 0 {
        assert(a[0] == b[0]);
        let x = a.drop_first();
        let y = b.drop_first();
        assert forall|j: int| 0 <= j < k - 1 implies #[trigger] x[j] == y[j] by {
            assert(a[j + 1] == b[j + 1]);
        }
        the_first_cell_that_differs_decides(x, y, k - 1);
    }
}

proof fn lemma_tag_columns(
    cols: Seq<batch::ColumnView>,
    leading: Option<Seq<char>>,
    k: int,
    c: int,
)
    requires
        k <= cols.len(),
    ensures
        tag_columns(cols, leading, k).contains(c) <==> 1 <= c < k
            && cols[c].field.data_type is Dictionary && leading != Some(cols[c].field.name),
    decreases k,
{
    if k > 1 {
        lemma_tag_columns(cols, leading, k - 1, c);
        let p = tag_columns(cols, leading, k - 1);
        let q = tag_columns(cols, leading, k);
        if p.contains(c) {
            let i = choose|i: int| 0 <= i < p.len() && p[i] == c;
            assert(q[i] == c);
        }
        if q.contains(c) {
            let i = choose|i: int| 0 <= i < q.len() && q[i] == c;
            if i < p.len() {
                assert(p[i] == c);
            }
        }
        if c == k - 1 && cols[c].field.data_type is Dictionary && leading != Some(
            cols[c].field.name,
        ) {
            assert(q[p.len() as int] == c);
        }
    }
}

/// Rows are the same point where they agree in the time and in every tag: the
/// key is the time and all the tags, and no field; a leading tag only comes
/// first.
pub proof fn the_key_is_the_time_and_the_tags(b: batch::BatchView, c: int)
    requires
        b.columns.len() > 0,
    ensures
        key_columns(b, None)[0] == 0,
        key_columns(b, None).contains(c) <==> c == 0 || 1 <= c < b.columns.len()
            && b.columns[c].field.data_type is Dictionary,
        forall|name: Seq<char>|
            (#[trigger] batch::column_at(b.columns, name)) matches Some(l) ==> key_columns(
                b,
                Some(name),
            )[0] == l && key_columns(b, Some(name))[1] == 0,
{
    let rest = tag_columns(b.columns, None, b.columns.len() as int);
    let all = key_columns(b, None);
    lemma_tag_columns(b.columns, None, b.columns.len() as int, c);
    assert(all =~= seq![0int] + rest);
    assert(all[0] == 0);
    if rest.contains(c) {
        let i = choose|i: int| 0 <= i < rest.len() && rest[i] == c;
        assert(all[i + 1] == c);
    }
    if all.contains(c) && c != 0 {
        let i = choose|i: int| 0 <= i < all.len() && all[i] == c;
        assert(rest[i - 1] == c);
    }
}

/// The rows of an hour are those of the rows that are kept whose time is in it,
/// in their order.
pub proof fn an_hour_has_its_rows(b: batch::BatchView, kept: Seq<int>, hour: Seq<char>)
    ensures
        rows_of_hour(b, kept, hour) == kept.filter(|r: int| hour_of(b, r) == hour),
    decreases kept.len(),
{
    reveal(Seq::filter);
    if kept.len() > 0 {
        an_hour_has_its_rows(b, kept.drop_last(), hour);
    }
}

/// A bloom filter is made for exactly the tags that have a thousand and some
/// distinct values or more, and is as large as they are many.
pub proof fn tags_of_many_values_have_a_filter(
    cols: Seq<batch::ColumnView>,
    k: int,
    name: Seq<char>,
    n: nat,
)
    requires
        0 <= k <= cols.len(),
    ensures
        blooms(cols, k).contains((name, n)) <==> n >= 1_024 && exists|c: int|
            0 <= c < k && (#[trigger] cols[c]).field.name == name && cols[c].field.data_type
                == batch::tag_type() && cols[c].dictionary.len() == n,
    decreases k,
{
    if k > 0 {
        tags_of_many_values_have_a_filter(cols, k - 1, name, n);
        let p = blooms(cols, k - 1);
        let q = blooms(cols, k);
        let x = (name, n);
        if p.contains(x) {
            let i = choose|i: int| 0 <= i < p.len() && p[i] == x;
            assert(q[i] == x);
        }
        if q.contains(x) {
            let i = choose|i: int| 0 <= i < q.len() && q[i] == x;
            if i < p.len() {
                assert(p[i] == x);
            } else {
                assert(cols[k - 1].field.name == name);
            }
        }
        if n >= BLOOM_MIN_DISTINCT && cols[k - 1].field.name == name && cols[k
            - 1].field.data_type == batch::tag_type() && cols[k - 1].dictionary.len() == n {
            assert(q[p.len() as int] == x);
        }
    }
}

} // verus!
