//! A scan of a table: which columns are read, which rows are let through, and
//! how batches are handed to the partitions that work on them.
use crate::batch;
use crate::batch::{Batch, Field};
use crate::query;
use crate::query::schemas;
use crate::query::Restriction;
use crate::text;
use vstd::prelude::*;

verus! {

/// The most workers that load the files of one scan.
pub const MAX_SCAN_THREADS: usize = 8;

// ------------------------------------------------------------- what is read

/// A list with a name behind it, unless it has the name.
pub open spec fn with_name(names: Seq<Seq<char>>, name: Seq<char>) -> Seq<Seq<char>> {
    if names.contains(name) {
        names
    } else {
        names.push(name)
    }
}

/// A list with others behind it, each that it lacks once.
pub open spec fn with_names(names: Seq<Seq<char>>, more: Seq<Seq<char>>) -> Seq<Seq<char>>
    decreases more.len(),
{
    if more.len() == 0 {
        names
    } else {
        with_name(with_names(names, more.drop_last()), more.last())
    }
}

/// The columns that restrictions read, each once.
pub open spec fn mask_columns(rs: Seq<Restriction>) -> Seq<Seq<char>>
    decreases rs.len(),
{
    if rs.len() == 0 {
        Seq::empty()
    } else {
        with_names(mask_columns(rs.drop_last()), rs.last().columns())
    }
}

/// What a scan reads: whether only rows are counted, the fields of its result,
/// and the columns to read, or all of them.
pub struct ScanPlan {
    pub count_only: bool,
    pub target: Vec<Field>,
    pub needed: Option<Vec<String>>,
}

/// What a scan reads.
#[verifier::ext_equal]
pub struct ScanView {
    pub count_only: bool,
    pub target: Seq<batch::FieldDesc>,
    pub needed: Option<Seq<Seq<char>>>,
}

impl View for ScanPlan {
    type V = ScanView;

    open spec fn view(&self) -> ScanView {
        ScanView {
            count_only: self.count_only,
            target: batch::schema_view(self.target@),
            needed: match self.needed {
                Some(n) => Some(text::texts(n@)),
                None => None,
            },
        }
    }
}

/// The names of the fields at some positions.
pub open spec fn names_at(schema: Seq<batch::FieldDesc>, at: Seq<usize>) -> Seq<Seq<char>> {
    at.map_values(|i: usize| schema[i as int].name)
}

/// What a scan reads: every column without a projection; the time, to count
/// rows by, for an empty one; else the projected columns. What the
/// restrictions read is always read too.
pub open spec fn plan_of(
    schema: Seq<batch::FieldDesc>,
    projection: Option<Seq<usize>>,
    rs: Seq<Restriction>,
) -> ScanView {
    match projection {
        None => ScanView { count_only: false, target: schema, needed: None },
        Some(at) => if at.len() == 0 {
            ScanView {
                count_only: true,
                target: Seq::empty(),
                needed: Some(with_names(seq!["time"@], mask_columns(rs))),
            }
        } else {
            ScanView {
                count_only: false,
                target: names_at(schema, at).map_values(
                    |n: Seq<char>| schema[schemas::field_at(schema, n)->Some_0],
                ),
                needed: Some(with_names(names_at(schema, at), mask_columns(rs))),
            }
        },
    }
}

fn add_name(names: &mut Vec<String>, name: &str)
    ensures
        text::texts(final(names)@) == with_name(text::texts(old(names)@), name@),
{
    let ghost was = text::texts(names@);
    if !text::contains_text(names, name) {
        names.push(name.to_owned());
        assert(text::texts(names@) =~= was.push(name@));
    }
}

fn add_names(names: &mut Vec<String>, more: &Vec<String>)
    ensures
        text::texts(final(names)@) == with_names(text::texts(old(names)@), text::texts(more@)),
{
    let ghost was = text::texts(names@);
    let ghost all = text::texts(more@);
    let mut i: usize = 0;
    assert(all.take(0) =~= Seq::empty());
    while i < more.len()
        invariant
            i <= more.len(),
            all == text::texts(more@),
            text::texts(names@) == with_names(was, all.take(i as int)),
        decreases more.len() - i,
    {
        assert(all.take(i + 1).drop_last() =~= all.take(i as int));
        assert(all[i as int] == more@[i as int]@);
        add_name(names, more[i].as_str());
        i += 1;
    }
    assert(all.take(all.len() as int) =~= all);
}

fn find_mask_columns(rs: &Vec<Restriction>) -> (r: Vec<String>)
    ensures
        text::texts(r@) == mask_columns(rs@),
{
    let mut out: Vec<String> = Vec::new();
    let mut i: usize = 0;
    assert(rs@.take(0) =~= Seq::empty());
    assert(text::texts(out@) =~= Seq::empty());
    while i < rs.len()
        invariant
            i <= rs.len(),
            text::texts(out@) == mask_columns(rs@.take(i as int)),
        decreases rs.len() - i,
    {
        assert(rs@.take(i + 1).drop_last() =~= rs@.take(i as int));
        let columns = rs[i].required_columns();
        add_names(&mut out, &columns);
        i += 1;
    }
    assert(rs@.take(rs@.len() as int) =~= rs@);
    out
}

/// Plans a scan of a table with this schema.
pub fn plan_scan(
    schema: &Vec<Field>,
    projection: &Option<Vec<usize>>,
    restrictions: &Vec<Restriction>,
) -> (r: ScanPlan)
    requires
        projection matches Some(at) ==> forall|k: int|
            0 <= k < at@.len() ==> (#[trigger] at@[k]) < schema.len(),
    ensures
        r@ == plan_of(
            batch::schema_view(schema@),
            match *projection {
                Some(at) => Some(at@),
                None => None,
            },
            restrictions@,
        ),
{
    let ghost fields = batch::schema_view(schema@);
    let masks = find_mask_columns(restrictions);
    match projection {
        None => {
            let mut target: Vec<Field> = Vec::new();
            let mut i: usize = 0;
            while i < schema.len()
                invariant
                    i <= schema.len(),
                    target.len() == i,
                    fields == batch::schema_view(schema@),
                    forall|k: int| 0 <= k < i ==> (#[trigger] target@[k])@ == fields[k],
                decreases schema.len() - i,
            {
                target.push(schema[i].copy());
                i += 1;
            }
            assert(batch::schema_view(target@) =~= fields);
            ScanPlan { count_only: false, target, needed: None }
        },
        Some(at) => {
            if at.len() == 0 {
                let mut needed: Vec<String> = Vec::new();
                needed.push("time".to_owned());
                assert(text::texts(needed@) =~= seq!["time"@]);
                add_names(&mut needed, &masks);
                let target: Vec<Field> = Vec::new();
                assert(batch::schema_view(target@) =~= Seq::empty());
                ScanPlan { count_only: true, target, needed: Some(needed) }
            } else {
                let mut target: Vec<Field> = Vec::new();
                let mut needed: Vec<String> = Vec::new();
                let ghost names = names_at(fields, at@);
                let mut i: usize = 0;
                while i < at.len()
                    invariant
                        i <= at.len(),
                        target.len() == i,
                        needed.len() == i,
                        fields == batch::schema_view(schema@),
                        names == names_at(fields, at@),
                        forall|k: int| 0 <= k < at@.len() ==> (#[trigger] at@[k]) < schema.len(),
                        forall|k: int| 0 <= k < i ==> (#[trigger] needed@[k])@ == names[k],
                        forall|k: int|
                            0 <= k < i ==> (#[trigger] target@[k])@
                                == fields[schemas::field_at(fields, names[k])->Some_0],
                    decreases at.len() - i,
                {
                    let j: usize = at[i];
                    assert(at@[i as int] < schema.len());
                    assert(fields[j as int] == schema@[j as int]@);
                    assert(names[i as int] == fields[j as int].name);
                    needed.push(schema[j].name.clone());
                    proof {
                        schemas::field_at_is_first(fields, names[i as int]);
                    }
                    match schemas::find_field(schema, schema[j].name.as_str()) {
                        Some(k) => {
                            assert(fields[k as int] == schema@[k as int]@);
                            target.push(schema[k].copy());
                        },
                        None => {
                            assert(false);
                        },
                    }
                    i += 1;
                }
                assert(text::texts(needed@) =~= names);
                assert(batch::schema_view(target@) =~= names.map_values(
                    |n: Seq<char>| fields[schemas::field_at(fields, n)->Some_0],
                ));
                add_names(&mut needed, &masks);
                ScanPlan { count_only: false, target, needed: Some(needed) }
            }
        },
    }
}

proof fn lemma_with_names(names: Seq<Seq<char>>, more: Seq<Seq<char>>, x: Seq<char>)
    ensures
        with_names(names, more).contains(x) <==> names.contains(x) || more.contains(x),
    decreases more.len(),
{
    if more.len() > 0 {
        let init = more.drop_last();
        lemma_with_names(names, init, x);
        let p = with_names(names, init);
        let q = with_names(names, more);
        if more.contains(x) {
            let k = choose|k: int| 0 <= k < more.len() && more[k] == x;
            if k < init.len() {
                assert(init[k] == x);
            }
        }
        if init.contains(x) {
            let k = choose|k: int| 0 <= k < init.len() && init[k] == x;
            assert(more[k] == x);
        }
        assert(more[more.len() - 1] == more.last());
        if !p.contains(more.last()) {
            assert(q[p.len() as int] == more.last());
            if p.contains(x) {
                let k = choose|k: int| 0 <= k < p.len() && p[k] == x;
                assert(q[k] == x);
            }
            if q.contains(x) {
                let k = choose|k: int| 0 <= k < q.len() && q[k] == x;
                if k < p.len() {
                    assert(p[k] == x);
                }
            }
        }
    }
}

proof fn lemma_mask_columns(rs: Seq<Restriction>, i: int, x: Seq<char>)
    requires
        0 <= i < rs.len(),
        rs[i].columns().contains(x),
    ensures
        mask_columns(rs).contains(x),
    decreases rs.len(),
{
    lemma_with_names(mask_columns(rs.drop_last()), rs.last().columns(), x);
    if i < rs.len() - 1 {
        assert(rs.drop_last()[i] == rs[i]);
        lemma_mask_columns(rs.drop_last(), i, x);
    }
}

/// Whatever a query projects, and though it projects nothing, every column
/// that a restriction tests is read.
pub proof fn every_tested_column_is_read(
    schema: Seq<batch::FieldDesc>,
    projection: Option<Seq<usize>>,
    rs: Seq<Restriction>,
    i: int,
    column: Seq<char>,
)
    requires
        0 <= i < rs.len(),
        rs[i].columns().contains(column),
    ensures
        plan_of(schema, projection, rs).needed matches Some(needed) ==> needed.contains(column),
{
    lemma_mask_columns(rs, i, column);
    match projection {
        None => {},
        Some(at) => {
            if at.len() == 0 {
                lemma_with_names(seq!["time"@], mask_columns(rs), column);
            } else {
                lemma_with_names(names_at(schema, at), mask_columns(rs), column);
            }
        },
    }
}

// -------------------------------------------------- columns of a file or batch

/// The positions, in order, of the columns that are among the names.
pub open spec fn columns_among(columns: Seq<Seq<char>>, names: Seq<Seq<char>>, n: int) -> Seq<int>
    decreases n,
{
    if n <= 0 {
        Seq::empty()
    } else {
        let p = columns_among(columns, names, n - 1);
        if names.contains(columns[n - 1]) {
            p.push(n - 1)
        } else {
            p
        }
    }
}

/// The columns of a file to decode, where only some names are needed.
pub fn columns_to_decode(columns: &Vec<String>, names: &Vec<String>) -> (r: Vec<usize>)
    ensures
        batch::positions(r@) == columns_among(
            text::texts(columns@),
            text::texts(names@),
            columns.len() as int,
        ),
{
    let ghost all = text::texts(columns@);
    let ghost wanted = text::texts(names@);
    let mut out: Vec<usize> = Vec::new();
    let mut i: usize = 0;
    assert(batch::positions(out@) =~= Seq::empty());
    while i < columns.len()
        invariant
            i <= columns.len(),
            all == text::texts(columns@),
            wanted == text::texts(names@),
            batch::positions(out@) == columns_among(all, wanted, i as int),
        decreases columns.len() - i,
    {
        assert(all[i as int] == columns@[i as int]@);
        let ghost done = batch::positions(out@);
        if text::contains_text(names, columns[i].as_str()) {
            out.push(i);
            assert(batch::positions(out@) =~= done.push(i as int));
        }
        i += 1;
    }
    out
}

/// The positions of the names that a schema has, in the order of the names.
pub open spec fn found_of(schema: Seq<batch::FieldDesc>, names: Seq<Seq<char>>) -> Seq<int>
    decreases names.len(),
{
    if names.len() == 0 {
        Seq::empty()
    } else {
        let p = found_of(schema, names.drop_last());
        match schemas::field_at(schema, names.last()) {
            Some(i) => p.push(i),
            None => p,
        }
    }
}

/// A batch's columns at some positions.
pub open spec fn columns_at(b: batch::BatchView, at: Seq<int>) -> batch::BatchView {
    batch::BatchView { columns: at.map_values(|i: int| b.columns[i]), rows: b.rows }
}

/// The positions of the names that a schema has, in the order of the names; a
/// name that it lacks is passed over.
pub fn find_columns(schema: &Vec<Field>, names: &Vec<String>) -> (r: Vec<usize>)
    ensures
        batch::positions(r@) == found_of(batch::schema_view(schema@), text::texts(names@)),
        forall|k: int| 0 <= k < r.len() ==> (#[trigger] r@[k]) < schema.len(),
{
    let ghost fields = batch::schema_view(schema@);
    let ghost all = text::texts(names@);
    let mut out: Vec<usize> = Vec::new();
    let mut i: usize = 0;
    assert(all.take(0) =~= Seq::empty());
    assert(batch::positions(out@) =~= Seq::empty());
    while i < names.len()
        invariant
            i <= names.len(),
            all == text::texts(names@),
            fields == batch::schema_view(schema@),
            batch::positions(out@) == found_of(fields, all.take(i as int)),
            forall|k: int| 0 <= k < out.len() ==> (#[trigger] out@[k]) < schema.len(),
        decreases names.len() - i,
    {
        assert(all.take(i + 1).drop_last() =~= all.take(i as int));
        assert(all[i as int] == names@[i as int]@);
        let ghost done = batch::positions(out@);
        if let Some(c) = schemas::find_field(schema, names[i].as_str()) {
            out.push(c);
            assert(batch::positions(out@) =~= done.push(c as int));
        }
        i += 1;
    }
    assert(all.take(all.len() as int) =~= all);
    out
}

/// The columns of a buffered batch that are needed, in the order of the names;
/// a name that it lacks is passed over.
pub fn project(b: &Batch, names: &Vec<String>) -> (r: Batch)
    requires
        b@.well_formed(),
    ensures
        r@ == columns_at(b@, found_of(b@.schema(), text::texts(names@))),
        r@.well_formed(),
{
    let at = find_columns(&b.schema(), names);
    let ghost cols = b@.columns;
    let ghost found = batch::positions(at@);
    let mut out: Vec<batch::Column> = Vec::new();
    let mut i: usize = 0;
    while i < at.len()
        invariant
            i <= at.len(),
            out.len() == i,
            cols == b@.columns,
            found == batch::positions(at@),
            forall|k: int| 0 <= k < at.len() ==> (#[trigger] at@[k]) < b.columns.len(),
            forall|k: int| 0 <= k < i ==> (#[trigger] out@[k])@ == cols[found[k]],
        decreases at.len() - i,
    {
        let c: usize = at[i];
        assert(found[i as int] == c);
        out.push(b.columns[c].copy());
        i += 1;
    }
    assert(batch::column_views(out@) =~= columns_at(b@, found).columns);
    Batch::new(out, b.rows)
}

// -------------------------------------------------------- rows that are let through

/// What restrictions leave of a batch, one after the other.
pub open spec fn through(rs: Seq<Restriction>, b: batch::BatchView) -> Result<
    batch::BatchView,
    Seq<char>,
>
    decreases rs.len(),
{
    if rs.len() == 0 {
        Ok(b)
    } else {
        match through(rs.drop_last(), b) {
            Ok(c) => query::restricted(rs.last(), c),
            Err(e) => Err(e),
        }
    }
}

proof fn lemma_refusal_stays(rs: Seq<Restriction>, b: batch::BatchView, k: int)
    requires
        0 <= k <= rs.len(),
        through(rs.take(k), b) is Err,
    ensures
        through(rs, b) == through(rs.take(k), b),
    decreases rs.len(),
{
    if k == rs.len() {
        assert(rs.take(k) =~= rs);
    } else {
        assert(rs.drop_last().take(k) =~= rs.take(k));
        lemma_refusal_stays(rs.drop_last(), b, k);
    }
}

proof fn lemma_visible_rows_fit(cells: Seq<batch::CellView>, auths: Seq<Seq<char>>, n: int)
    ensures
        visible_rows_len(cells, auths, n) <= n || n < 0,
    decreases n,
{
    if n > 0 {
        lemma_visible_rows_fit(cells, auths, n - 1);
    }
}

spec fn visible_rows_len(cells: Seq<batch::CellView>, auths: Seq<Seq<char>>, n: int) -> int {
    query::visible_rows(cells, auths, n).len() as int
}

proof fn lemma_through_shrinks(rs: Seq<Restriction>, b: batch::BatchView)
    ensures
        through(rs, b) matches Ok(c) ==> c.rows <= b.rows,
    decreases rs.len(),
{
    if rs.len() > 0 {
        lemma_through_shrinks(rs.drop_last(), b);
        if let Ok(c) = through(rs.drop_last(), b) {
            let r = rs.last();
            if let Some(k) = batch::column_at(c.columns, r->column@) {
                lemma_visible_rows_fit(
                    c.columns[k].cells,
                    text::texts(r->authorizations@),
                    c.rows as int,
                );
            }
        }
    }
}

/// Lets a batch through restrictions.
pub fn restrict(rs: &Vec<Restriction>, b: &Batch) -> (r: Result<Batch, String>)
    requires
        b@.well_formed(),
    ensures
        match (r, through(rs@, b@)) {
            (Ok(c), Ok(v)) => c@ == v && c@.well_formed() && c@.rows <= b@.rows,
            (Err(m), Err(t)) => m@ == t,
            _ => false,
        },
{
    let mut cur = b.copy();
    let mut i: usize = 0;
    assert(rs@.take(0) =~= Seq::empty());
    while i < rs.len()
        invariant
            i <= rs.len(),
            cur@.well_formed(),
            through(rs@.take(i as int), b@) == Ok::<batch::BatchView, Seq<char>>(cur@),
        decreases rs.len() - i,
    {
        assert(rs@.take(i + 1).drop_last() =~= rs@.take(i as int));
        match query::apply_restriction(&rs[i], &cur) {
            Ok(c) => {
                cur = c;
            },
            Err(e) => {
                proof {
                    lemma_refusal_stays(rs@, b@, i + 1);
                }
                return Err(e);
            },
        }
        i += 1;
    }
    assert(rs@.take(rs@.len() as int) =~= rs@);
    proof {
        lemma_through_shrinks(rs@, b@);
    }
    Ok(cur)
}

/// What restrictions leave of batches, with the number of rows that they
/// drop; the first error where there is one.
pub open spec fn enforced(rs: Seq<Restriction>, bs: Seq<batch::BatchView>) -> Result<
    (Seq<batch::BatchView>, int),
    Seq<char>,
>
    decreases bs.len(),
{
    if bs.len() == 0 {
        Ok((Seq::empty(), 0))
    } else {
        match enforced(rs, bs.drop_last()) {
            Err(e) => Err(e),
            Ok((done, dropped)) => match through(rs, bs.last()) {
                Err(e) => Err(e),
                Ok(c) => Ok((done.push(c), dropped + bs.last().rows - c.rows)),
            },
        }
    }
}

proof fn lemma_enforcing_stops(rs: Seq<Restriction>, bs: Seq<batch::BatchView>, k: int)
    requires
        0 <= k <= bs.len(),
        enforced(rs, bs.take(k)) is Err,
    ensures
        enforced(rs, bs) == enforced(rs, bs.take(k)),
    decreases bs.len(),
{
    if k == bs.len() {
        assert(bs.take(k) =~= bs);
    } else {
        assert(bs.drop_last().take(k) =~= bs.take(k));
        lemma_enforcing_stops(rs, bs.drop_last(), k);
    }
}

/// The number of rows of batches.
pub open spec fn rows_of(bs: Seq<batch::BatchView>) -> int
    decreases bs.len(),
{
    if bs.len() == 0 {
        0
    } else {
        rows_of(bs.drop_last()) + bs.last().rows
    }
}

proof fn lemma_rows_grow(bs: Seq<batch::BatchView>, k: int)
    requires
        0 <= k <= bs.len(),
    ensures
        0 <= rows_of(bs.take(k)) <= rows_of(bs),
    decreases bs.len(),
{
    if k == bs.len() {
        assert(bs.take(k) =~= bs);
        if k > 0 {
            lemma_rows_grow(bs.drop_last(), k - 1);
        }
    } else {
        assert(bs.drop_last().take(k) =~= bs.take(k));
        lemma_rows_grow(bs.drop_last(), k);
    }
}

/// Enforces restrictions on every batch of a scan, and counts the rows that
/// are dropped.
pub fn enforce(rs: &Vec<Restriction>, batches: &Vec<Batch>) -> (r: Result<
    (Vec<Batch>, u64),
    String,
>)
    requires
        forall|i: int| 0 <= i < batches.len() ==> (#[trigger] batches@[i])@.well_formed(),
        rows_of(schemas::batch_views(batches@)) <= u64::MAX,
    ensures
        match (r, enforced(rs@, schemas::batch_views(batches@))) {
            (Ok((out, n)), Ok((v, d))) => {
                &&& schemas::batch_views(out@) == v
                &&& n == d
                &&& forall|i: int| 0 <= i < out.len() ==> (#[trigger] out@[i])@.well_formed()
            },
            (Err(m), Err(t)) => m@ == t,
            _ => false,
        },
{
    let ghost all = schemas::batch_views(batches@);
    let mut out: Vec<Batch> = Vec::new();
    let mut dropped: u64 = 0;
    let mut i: usize = 0;
    assert(all.take(0) =~= Seq::empty());
    assert(schemas::batch_views(out@) =~= Seq::empty());
    while i < batches.len()
        invariant
            i <= batches.len(),
            all == schemas::batch_views(batches@),
            rows_of(all) <= u64::MAX,
            forall|i: int| 0 <= i < batches.len() ==> (#[trigger] batches@[i])@.well_formed(),
            forall|i: int| 0 <= i < out.len() ==> (#[trigger] out@[i])@.well_formed(),
            enforced(rs@, all.take(i as int)) == Ok::<(Seq<batch::BatchView>, int), Seq<char>>(
                (schemas::batch_views(out@), dropped as int),
            ),
            dropped <= rows_of(all.take(i as int)),
        decreases batches.len() - i,
    {
        assert(all.take(i + 1).drop_last() =~= all.take(i as int));
        assert(all[i as int] == batches@[i as int]@);
        assert(batches@[i as int]@.well_formed());
        let ghost done = schemas::batch_views(out@);
        match restrict(rs, &batches[i]) {
            Ok(c) => {
                proof {
                    lemma_rows_grow(all, i + 1);
                }
                dropped = dropped + (batches[i].rows - c.rows) as u64;
                let ghost kept = c@;
                out.push(c);
                assert(schemas::batch_views(out@) =~= done.push(kept));
            },
            Err(e) => {
                proof {
                    lemma_enforcing_stops(rs@, all, i + 1);
                }
                return Err(e);
            },
        }
        i += 1;
    }
    assert(all.take(all.len() as int) =~= all);
    Ok((out, dropped))
}

/// Every row of a scan is let through or counted as dropped.
pub proof fn rows_are_kept_or_counted(rs: Seq<Restriction>, bs: Seq<batch::BatchView>)
    ensures
        enforced(rs, bs) matches Ok((kept, dropped)) ==> rows_of(kept) + dropped == rows_of(bs)
            && kept.len() == bs.len() && dropped >= 0,
    decreases bs.len(),
{
    if bs.len() > 0 {
        rows_are_kept_or_counted(rs, bs.drop_last());
        lemma_through_shrinks(rs, bs.last());
        if let Ok((done, d)) = enforced(rs, bs.drop_last()) {
            if let Ok(c) = through(rs, bs.last()) {
                assert(done.push(c).drop_last() =~= done);
            }
        }
    }
}

/// For a query that only counts rows, batches without columns that have as
/// many rows.
pub fn count_rows(batches: &Vec<Batch>) -> (r: Vec<Batch>)
    ensures
        schemas::batch_views(r@) == schemas::batch_views(batches@).map_values(
            |b: batch::BatchView| batch::BatchView { columns: Seq::empty(), rows: b.rows },
        ),
{
    let ghost all = schemas::batch_views(batches@);
    let mut out: Vec<Batch> = Vec::new();
    let mut i: usize = 0;
    while i < batches.len()
        invariant
            i <= batches.len(),
            out.len() == i,
            all == schemas::batch_views(batches@),
            forall|k: int|
                0 <= k < i ==> (#[trigger] out@[k])@ == (batch::BatchView {
                    columns: Seq::empty(),
                    rows: all[k].rows,
                }),
        decreases batches.len() - i,
    {
        let none: Vec<batch::Column> = Vec::new();
        assert(batch::column_views(none@) =~= Seq::empty());
        assert(all[i as int] == batches@[i as int]@);
        out.push(Batch::new(none, batches[i].rows));
        i += 1;
    }
    assert(schemas::batch_views(out@) =~= all.map_values(
        |b: batch::BatchView| batch::BatchView { columns: Seq::empty(), rows: b.rows },
    ));
    out
}

// ---------------------------------------------------------- loading and packing

/// How many workers load this many files on a machine with this many cores.
pub fn scan_threads(files: usize, cores: usize) -> (r: usize)
    ensures
        r == (if files == 0 || cores == 0 {
            1
        } else if files >= MAX_SCAN_THREADS && cores >= MAX_SCAN_THREADS {
            MAX_SCAN_THREADS
        } else if files < cores {
            files
        } else {
            cores
        }),
{
    let n: usize = if files < cores {
        files
    } else {
        cores
    };
    if n < 1 {
        1
    } else if n > MAX_SCAN_THREADS {
        MAX_SCAN_THREADS
    } else {
        n
    }
}

/// How many partitions so many batches go to.
pub open spec fn partition_count(batches: int, wanted: int) -> int {
    if batches == 0 {
        1
    } else if wanted < 1 {
        1
    } else if wanted < batches {
        wanted
    } else {
        batches
    }
}

/// The batches of one partition of `n`, of the first `k` batches: they are
/// dealt out in turn.
pub open spec fn dealt(k: int, n: int, part: int) -> Seq<int>
    decreases k,
{
    if k <= 0 {
        Seq::empty()
    } else {
        let p = dealt(k - 1, n, part);
        if (k - 1) % n == part {
            p.push(k - 1)
        } else {
            p
        }
    }
}

/// The positions of the batches that each partition works on: never no
/// partition at all, and no more than are wanted.
pub fn pack(batches: usize, target_partitions: usize) -> (r: Vec<Vec<usize>>)
    ensures
        r.len() == partition_count(batches as int, target_partitions as int),
        forall|p: int|
            0 <= p < r.len() ==> batch::positions((#[trigger] r@[p])@) == dealt(
                batches as int,
                r.len() as int,
                p,
            ),
{
    let n: usize = if batches == 0 || target_partitions < 1 {
        1
    } else if target_partitions < batches {
        target_partitions
    } else {
        batches
    };
    let mut parts: Vec<Vec<usize>> = Vec::new();
    let mut i: usize = 0;
    while i < n
        invariant
            i <= n,
            parts.len() == i,
            forall|p: int|
                0 <= p < i ==> batch::positions((#[trigger] parts@[p])@) == dealt(0, n as int, p),
        decreases n - i,
    {
        let none: Vec<usize> = Vec::new();
        assert(batch::positions(none@) =~= Seq::empty());
        parts.push(none);
        i += 1;
    }
    let mut k: usize = 0;
    while k < batches
        invariant
            k <= batches,
            parts.len() == n,
            n > 0,
            forall|p: int|
                0 <= p < n ==> batch::positions((#[trigger] parts@[p])@) == dealt(
                    k as int,
                    n as int,
                    p,
                ),
        decreases batches - k,
    {
        let at: usize = k % n;
        let ghost was = parts@;
        let part = &mut parts[at];
        part.push(k);
        assert forall|p: int| 0 <= p < n implies batch::positions((#[trigger] parts@[p])@)
            == dealt(k + 1, n as int, p) by {
            assert(batch::positions(was[p]@) == dealt(k as int, n as int, p));
            if p == at {
                assert(batch::positions(parts@[p]@) =~= batch::positions(was[p]@).push(k as int));
            }
        }
        k += 1;
    }
    parts
}

/// Every batch goes to exactly one partition.
pub proof fn each_batch_is_dealt_once(k: int, n: int, part: int, b: int)
    requires
        n > 0,
        0 <= part < n,
    ensures
        dealt(k, n, part).contains(b) <==> 0 <= b < k && b % n == part,
        forall|i: int, j: int|
            0 <= i < j < dealt(k, n, part).len() ==> #[trigger] dealt(k, n, part)[i]
                < #[trigger] dealt(k, n, part)[j] < k,
    decreases k,
{
    if k > 0 {
        each_batch_is_dealt_once(k - 1, n, part, b);
        let p = dealt(k - 1, n, part);
        let q = dealt(k, n, part);
        assert forall|i: int| 0 <= i < p.len() implies #[trigger] p[i] < k - 1 by {
            each_batch_is_dealt_once(k - 1, n, part, p[i]);
            assert(p.contains(p[i]));
        }
        if p.contains(b) {
            let i = choose|i: int| 0 <= i < p.len() && p[i] == b;
            assert(q[i] == b);
        }
        if q.contains(b) {
            let i = choose|i: int| 0 <= i < q.len() && q[i] == b;
            if i < p.len() {
                assert(p[i] == b);
            }
        }
        if b == k - 1 && b % n == part {
            assert(q[p.len() as int] == b);
        }
        assert forall|i: int, j: int| 0 <= i < j < q.len() implies #[trigger] q[i] < #[trigger] q[j]
            < k by {
            if j < p.len() {
                assert(p[i] < p[j]);
            } else {
                assert(p[i] < k - 1);
            }
        }
    }
}

// ----------------------------------------------------------- tables in memory

/// What a session may see of a table that is held in memory: its batches,
/// brought to one schema, and of their rows those that the session's
/// restriction, if there is one, lets through.
pub fn table_in_memory(session: &query::QuerySession, table: &str, batches: &Vec<Batch>) -> (r:
    Result<(Vec<Field>, Vec<Batch>), String>)
    requires
        forall|i: int| 0 <= i < batches.len() ==> (#[trigger] batches@[i])@.well_formed(),
        rows_of(schemas::batch_views(batches@)) <= u64::MAX,
    ensures
        ({
            let bs = schemas::batch_views(batches@);
            match schemas::joint_schema(bs) {
                Err(t) => r matches Err(m) && m@ == t,
                Ok(s) => {
                    let aligned = bs.map_values(|b: batch::BatchView| schemas::aligned_batch(b, s));
                    if query::has_field(s, query::VISIBILITY_COLUMN@) {
                        exists|x: Restriction|
                            {
                                &&& x->column@ == query::VISIBILITY_COLUMN@
                                &&& x->authorizations@ == session.authorizations@
                                &&& match (r, #[trigger] enforced(seq![x], aligned)) {
                                    (Ok((schema, out)), Ok((v, d))) => batch::schema_view(schema@)
                                        == s && schemas::batch_views(out@) == v,
                                    (Err(m), Err(t)) => m@ == t,
                                    _ => false,
                                }
                            }
                    } else {
                        r matches Ok((schema, out)) && batch::schema_view(schema@) == s
                            && schemas::batch_views(out@) == aligned
                    }
                },
            }
        }),
{
    let ghost bs = schemas::batch_views(batches@);
    match schemas::align(batches) {
        Err(m) => Err(m),
        Ok((schema, aligned)) => {
            let ghost s = batch::schema_view(schema@);
            let ghost all = bs.map_values(|b: batch::BatchView| schemas::aligned_batch(b, s));
            assert forall|i: int| 0 <= i < aligned.len() implies (
            #[trigger] aligned@[i])@.well_formed() by {
                assert(batches@[i]@.well_formed());
                assert(bs[i] == batches@[i]@);
                assert(aligned@[i]@ == schemas::batch_views(aligned@)[i]);
                schemas::aligned_batches_are_well_formed(bs, i);
            }
            proof {
                lemma_same_rows(bs, all);
            }
            match query::mandatory_predicate(session, table, &schema) {
                None => Ok((schema, aligned)),
                Some(x) => {
                    let mut rs: Vec<Restriction> = Vec::new();
                    let ghost gx = x;
                    rs.push(x);
                    assert(rs@ =~= seq![gx]);
                    match enforce(&rs, &aligned) {
                        Err(m) => {
                            assert(enforced(seq![gx], all) is Err);
                            Err(m)
                        },
                        Ok((out, _)) => {
                            assert(enforced(seq![gx], all) is Ok);
                            Ok((schema, out))
                        },
                    }
                },
            }
        },
    }
}

proof fn lemma_same_rows(a: Seq<batch::BatchView>, b: Seq<batch::BatchView>)
    requires
        a.len() == b.len(),
        forall|i: int| 0 <= i < a.len() ==> (#[trigger] a[i]).rows == b[i].rows,
    ensures
        rows_of(a) == rows_of(b),
    decreases a.len(),
{
    if a.len() > 0 {
        lemma_same_rows(a.drop_last(), b.drop_last());
    }
}

// ------------------------------------------------------------------ limits

/// How many queries run at once, and how long one may take.
#[derive(Debug, Clone, Copy, PartialEq, Eq, Structural)]
pub struct QueryLimits {
    pub max_concurrent: usize,
    pub timeout_secs: u64,
}

/// What is answered to a query that took too long.
pub open spec fn timeout_text(secs: u64) -> Seq<char> {
    "query timed out after "@ + text::decimal(secs as nat) + "s (server-side cap, RR-2)"@
}

impl QueryLimits {
    /// Limits with at least one query at once and at least one second.
    pub fn new(max_concurrent: usize, timeout_secs: u64) -> (r: QueryLimits)
        ensures
            r.max_concurrent == (if max_concurrent < 1 {
                1
            } else {
                max_concurrent
            }),
            r.timeout_secs == (if timeout_secs < 1 {
                1
            } else {
                timeout_secs
            }),
    {
        QueryLimits {
            max_concurrent: if max_concurrent < 1 {
                1
            } else {
                max_concurrent
            },
            timeout_secs: if timeout_secs < 1 {
                1
            } else {
                timeout_secs
            },
        }
    }

    /// What is answered to a query that took too long.
    pub fn timed_out(&self) -> (r: String)
        ensures
            r@ == timeout_text(self.timeout_secs),
    {
        let mut m = "query timed out after ".to_owned();
        m.append(text::show(self.timeout_secs).as_str());
        m.append("s (server-side cap, RR-2)");
        m
    }
}

proof fn lemma_columns_among(columns: Seq<Seq<char>>, names: Seq<Seq<char>>, n: int, i: int)
    requires
        n <= columns.len(),
    ensures
        columns_among(columns, names, n).contains(i) <==> 0 <= i < n && names.contains(columns[i]),
        forall|k: int|
            0 <= k < columns_among(columns, names, n).len() ==> #[trigger] columns_among(
                columns,
                names,
                n,
            )[k] < n,
    decreases n,
{
    if n > 0 {
        lemma_columns_among(columns, names, n - 1, i);
        let p = columns_among(columns, names, n - 1);
        let q = columns_among(columns, names, n);
        if p.contains(i) {
            let k = choose|k: int| 0 <= k < p.len() && p[k] == i;
            assert(q[k] == i);
        }
        if q.contains(i) {
            let k = choose|k: int| 0 <= k < q.len() && q[k] == i;
            if k < p.len() {
                assert(p[k] == i);
            }
        }
        if i == n - 1 && names.contains(columns[i]) {
            assert(q[p.len() as int] == i);
        }
        assert forall|k: int| 0 <= k < q.len() implies #[trigger] q[k] < n by {
            if k < p.len() {
                assert(q[k] == p[k]);
            }
        }
    }
}

/// Of a file's columns exactly those are decoded whose names are needed.
pub proof fn exactly_the_needed_columns_are_decoded(
    columns: Seq<Seq<char>>,
    names: Seq<Seq<char>>,
    i: int,
)
    ensures
        columns_among(columns, names, columns.len() as int).contains(i) <==> 0 <= i < columns.len()
            && exists|k: int| 0 <= k < names.len() && #[trigger] names[k] == columns[i],
{
    lemma_columns_among(columns, names, columns.len() as int, i);
}

/// Whether a batch holds no row that a restriction hides: where its first
/// column of the restriction's name has a label, the authorizations satisfy it.
pub open spec fn clear(r: Restriction, b: batch::BatchView) -> bool {
    forall|c: int, row: int|
        #![trigger b.columns[c].cells[row]]
        0 <= c < b.columns.len() && 0 <= row < b.rows && b.columns[c].field.name == r->column@ && (
        forall|d: int| 0 <= d < c ==> (#[trigger] b.columns[d]).field.name != r->column@)
            ==> b.columns[c].cells[row] is Null || (b.columns[c].cells[row] matches
            batch::CellView::Str(label) && crate::query::visibility::visible(
            label,
            text::texts(r->authorizations@),
        ))
}

proof fn lemma_taking_stays_clear(r: Restriction, b: batch::BatchView, at: Seq<int>)
    requires
        clear(r, b),
        forall|i: int| 0 <= i < at.len() ==> 0 <= #[trigger] at[i] < b.rows,
    ensures
        clear(r, b.take_rows(at)),
{
    let t = b.take_rows(at);
    assert forall|c: int, row: int|
        #![trigger t.columns[c].cells[row]]
        0 <= c < t.columns.len() && 0 <= row < t.rows && t.columns[c].field.name == r->column@ && (
        forall|d: int| 0 <= d < c ==> (#[trigger] t.columns[d]).field.name
            != r->column@) implies t.columns[c].cells[row] is Null || (
    t.columns[c].cells[row] matches batch::CellView::Str(label)
        && crate::query::visibility::visible(label, text::texts(r->authorizations@))) by {
        assert(t.columns[c].cells[row] == b.columns[c].cells[at[row]]);
        assert forall|d: int| 0 <= d < c implies (#[trigger] b.columns[d]).field.name
            != r->column@ by {
            assert(t.columns[d].field.name != r->column@);
        }
    }
}

proof fn lemma_restricted_is_clear(r: Restriction, s: Restriction, b: batch::BatchView)
    ensures
        query::restricted(r, b) matches Ok(c) ==> clear(r, c) && (clear(s, b) ==> clear(s, c)),
{
    batch::column_at_is_first(b.columns, r->column@);
    if let Ok(c) = query::restricted(r, b) {
        if let Some(k) = batch::column_at(b.columns, r->column@) {
            let cells = b.columns[k].cells;
            let auths = text::texts(r->authorizations@);
            let at = query::visible_rows(cells, auths, b.rows as int);
            lemma_visible_at(cells, auths, b.rows as int);
            if clear(s, b) {
                lemma_taking_stays_clear(s, b, at);
            }
            assert forall|d: int, row: int|
                #![trigger c.columns[d].cells[row]]
                0 <= d < c.columns.len() && 0 <= row < c.rows && c.columns[d].field.name
                    == r->column@ && (forall|e: int|
                    0 <= e < d ==> (#[trigger] c.columns[e]).field.name
                        != r->column@) implies c.columns[d].cells[row] is Null || (
            c.columns[d].cells[row] matches batch::CellView::Str(label)
                && crate::query::visibility::visible(label, auths)) by {
                if d < k {
                    assert(b.columns[d].field.name != r->column@);
                }
                if k < d {
                    assert(c.columns[k].field.name != r->column@);
                }
                assert(c.columns[d].cells[row] == cells[at[row]]);
            }
        } else {
            assert forall|d: int| 0 <= d < b.columns.len() implies (
            #[trigger] b.columns[d]).field.name != r->column@ by {}
        }
    }
}

proof fn lemma_visible_at(cells: Seq<batch::CellView>, auths: Seq<Seq<char>>, n: int)
    ensures
        forall|i: int|
            0 <= i < query::visible_rows(cells, auths, n).len() ==> {
                let row = #[trigger] query::visible_rows(cells, auths, n)[i];
                &&& 0 <= row < n
                &&& query::cell_visible(cells[row], auths)
            },
    decreases n,
{
    if n > 0 {
        lemma_visible_at(cells, auths, n - 1);
        let p = query::visible_rows(cells, auths, n - 1);
        let q = query::visible_rows(cells, auths, n);
        assert forall|i: int| 0 <= i < q.len() implies {
            let row = #[trigger] q[i];
            &&& 0 <= row < n
            &&& query::cell_visible(cells[row], auths)
        } by {
            if i < p.len() {
                assert(q[i] == p[i]);
            }
        }
    }
}

/// What passes several restrictions holds no row that any of them hides.
pub proof fn every_restriction_is_enforced(rs: Seq<Restriction>, b: batch::BatchView, i: int)
    requires
        0 <= i < rs.len(),
    ensures
        through(rs, b) matches Ok(c) ==> clear(rs[i], c),
    decreases rs.len(),
{
    if let Ok(c) = through(rs.drop_last(), b) {
        lemma_restricted_is_clear(rs.last(), rs[i], c);
        if i < rs.len() - 1 {
            every_restriction_is_enforced(rs.drop_last(), b, i);
            assert(rs.drop_last()[i] == rs[i]);
        }
    }
}

/// Each batch is restricted by itself, and stays in its place.
pub proof fn each_batch_is_enforced(rs: Seq<Restriction>, bs: Seq<batch::BatchView>, i: int)
    requires
        0 <= i < bs.len(),
    ensures
        enforced(rs, bs) matches Ok((kept, _)) ==> kept.len() == bs.len() && through(rs, bs[i])
            == Ok::<batch::BatchView, Seq<char>>(kept[i]),
    decreases bs.len(),
{
    rows_are_kept_or_counted(rs, bs);
    rows_are_kept_or_counted(rs, bs.drop_last());
    if i < bs.len() - 1 {
        each_batch_is_enforced(rs, bs.drop_last(), i);
        assert(bs.drop_last()[i] == bs[i]);
    }
}

/// A scan hands on what was asked for: every column without a projection,
/// nothing but the count for an empty one, and otherwise the columns that are
/// projected, in that order, all of which it reads.
pub proof fn a_scan_hands_on_its_projection(
    schema: Seq<batch::FieldDesc>,
    at: Seq<usize>,
    rs: Seq<Restriction>,
    k: int,
)
    requires
        forall|i: int, j: int|
            0 <= i < j < schema.len() ==> (#[trigger] schema[i]).name != (
            #[trigger] schema[j]).name,
        forall|i: int| 0 <= i < at.len() ==> (#[trigger] at[i]) < schema.len(),
    ensures
        plan_of(schema, None, rs).target == schema,
        !plan_of(schema, None, rs).count_only,
        plan_of(schema, None, rs).needed is None,
        plan_of(schema, Some(at), rs).count_only <==> at.len() == 0,
        plan_of(schema, Some(at), rs).target.len() == at.len(),
        0 <= k < at.len() ==> plan_of(schema, Some(at), rs).target[k] == schema[at[k] as int],
        0 <= k < at.len() ==> plan_of(schema, Some(at), rs).needed->Some_0.contains(
            schema[at[k] as int].name,
        ),
{
    if 0 <= k < at.len() {
        let n = schema[at[k] as int].name;
        schemas::field_at_is_first(schema, n);
        let f = schemas::field_at(schema, n)->Some_0;
        if f < at[k] {
            assert(schema[f].name != schema[at[k] as int].name);
        }
        assert(names_at(schema, at)[k] == n);
        lemma_names_stay(names_at(schema, at), mask_columns(rs), n);
    }
}

proof fn lemma_names_stay(names: Seq<Seq<char>>, more: Seq<Seq<char>>, n: Seq<char>)
    requires
        names.contains(n),
    ensures
        with_names(names, more).contains(n),
    decreases more.len(),
{
    if more.len() > 0 {
        lemma_names_stay(names, more.drop_last(), n);
        let p = with_names(names, more.drop_last());
        let k = choose|k: int| 0 <= k < p.len() && p[k] == n;
        assert(with_names(names, more)[k] == n);
    }
}

/// The batches are dealt to as many partitions as are wanted, but to no more
/// than there are batches and to one at least.
pub proof fn no_partition_is_left_empty(batches: int, wanted: int)
    requires
        batches >= 0,
        wanted >= 0,
    ensures
        partition_count(batches, wanted) >= 1,
        batches > 0 ==> partition_count(batches, wanted) <= batches,
        wanted > 0 ==> partition_count(batches, wanted) <= wanted,
        1 <= wanted <= batches ==> partition_count(batches, wanted) == wanted,
        1 <= batches <= wanted ==> partition_count(batches, wanted) == batches,
{
}

/// The columns that are asked for by name are those that the schema has under
/// the names, in the order in which they are asked for; a name that it has not
/// asks for nothing.
pub proof fn columns_are_found_by_their_names(
    schema: Seq<batch::FieldDesc>,
    names: Seq<Seq<char>>,
    name: Seq<char>,
)
    ensures
        forall|i: int|
            0 <= i < schema.len() && (#[trigger] schema[i]).name == name && (forall|j: int|
                0 <= j < i ==> (#[trigger] schema[j]).name != name) ==> found_of(
                schema,
                names.push(name),
            ) == found_of(schema, names).push(i),
        (forall|j: int| 0 <= j < schema.len() ==> (#[trigger] schema[j]).name != name) ==> found_of(
            schema,
            names.push(name),
        ) == found_of(schema, names),
        found_of(schema, Seq::empty()) == Seq::<int>::empty(),
{
    assert(names.push(name).drop_last() =~= names);
    schemas::the_first_field_of_a_name_is_found(schema, name);
}

} // verus!
