//! Queries: who asks, which rows they may see, and how batches of different
//! ages are brought to one schema.
pub mod last_cache;
pub mod load;
pub mod metrics;
pub mod provider;
pub mod ranges;
pub mod rows;
pub mod scan;
pub mod schemas;
pub mod sql_guard;
pub mod visibility;

use crate::batch;
use crate::batch::{Batch, Cell, DataType, Field};
use crate::text;
use vstd::prelude::*;

verus! {

/// The column that holds a row's visibility label.
pub const VISIBILITY_COLUMN: &'static str = "_visibility";

// ----------------------------------------------------------------- the session

/// Who asks: the authorizations that are claimed, and the identity of a
/// verified certificate if there is one.
#[derive(Debug, Clone)]
pub struct QuerySession {
    pub authorizations: Vec<String>,
    pub identity: Option<String>,
}

impl Default for QuerySession {
    fn default() -> (r: QuerySession)
        ensures
            r.authorizations@.len() == 0,
            r.identity is None,
    {
        QuerySession { authorizations: Vec::new(), identity: None }
    }
}

/// The authorizations of a list that are among others, in their order.
pub open spec fn kept_of(claimed: Seq<Seq<char>>, granted: Seq<Seq<char>>) -> Seq<Seq<char>>
    decreases claimed.len(),
{
    if claimed.len() == 0 {
        Seq::empty()
    } else {
        let p = kept_of(claimed.drop_last(), granted);
        if granted.contains(claimed.last()) {
            p.push(claimed.last())
        } else {
            p
        }
    }
}

/// What a session may see by: its claims, narrowed to what is granted where
/// the session has an identity and grants are recorded for it.
pub open spec fn resolved(
    claimed: Seq<Seq<char>>,
    identified: bool,
    granted: Option<Seq<Seq<char>>>,
) -> Seq<Seq<char>> {
    match granted {
        Some(g) => if identified {
            kept_of(claimed, g)
        } else {
            claimed
        },
        None => claimed,
    }
}

/// The texts of an optional list.
pub open spec fn opt_texts(g: Option<&[String]>) -> Option<Seq<Seq<char>>> {
    match g {
        Some(s) => Some(text::texts(s@)),
        None => None,
    }
}

fn granted_has(granted: &[String], name: &str) -> (r: bool)
    ensures
        r == text::texts(granted@).contains(name@),
{
    let ghost all = text::texts(granted@);
    let mut i: usize = 0;
    while i < granted.len()
        invariant
            i <= granted.len(),
            all == text::texts(granted@),
            forall|j: int| 0 <= j < i ==> all[j] != name@,
        decreases granted.len() - i,
    {
        if text::same(granted[i].as_str(), name) {
            assert(all[i as int] == name@);
            return true;
        }
        assert(all[i as int] == granted@[i as int]@);
        i += 1;
    }
    false
}

/// The claims that are granted, in their order.
pub fn narrow(claimed: &Vec<String>, granted: &[String]) -> (r: Vec<String>)
    ensures
        text::texts(r@) == kept_of(text::texts(claimed@), text::texts(granted@)),
{
    let ghost all = text::texts(claimed@);
    let ghost may = text::texts(granted@);
    let mut out: Vec<String> = Vec::new();
    let mut i: usize = 0;
    assert(all.take(0) =~= Seq::empty());
    assert(text::texts(out@) =~= Seq::empty());
    while i < claimed.len()
        invariant
            i <= claimed.len(),
            all == text::texts(claimed@),
            may == text::texts(granted@),
            text::texts(out@) == kept_of(all.take(i as int), may),
        decreases claimed.len() - i,
    {
        assert(all.take(i + 1).drop_last() =~= all.take(i as int));
        assert(all[i as int] == claimed@[i as int]@);
        let ghost done = text::texts(out@);
        if granted_has(granted, claimed[i].as_str()) {
            out.push(claimed[i].clone());
            assert(text::texts(out@) =~= done.push(claimed@[i as int]@));
        }
        i += 1;
    }
    assert(all.take(all.len() as int) =~= all);
    out
}

impl QuerySession {
    /// A session without an identity.
    pub fn with_authorizations(authorizations: Vec<String>) -> (r: QuerySession)
        ensures
            r.authorizations == authorizations,
            r.identity is None,
    {
        QuerySession { authorizations, identity: None }
    }

    /// What this session may see by. An identity narrows the claims to what is
    /// granted to it; without one, or without grants, they stand as they are.
    pub fn resolve(self, granted: Option<&[String]>) -> (r: QuerySession)
        ensures
            r.identity == self.identity,
            text::texts(r.authorizations@) == resolved(
                text::texts(self.authorizations@),
                self.identity is Some,
                opt_texts(granted),
            ),
    {
        match granted {
            Some(g) => {
                if self.identity.is_some() {
                    let authorizations = narrow(&self.authorizations, g);
                    QuerySession { authorizations, identity: self.identity }
                } else {
                    self
                }
            },
            None => self,
        }
    }
}

proof fn lemma_kept_is_claimed(claimed: Seq<Seq<char>>, granted: Seq<Seq<char>>, k: int)
    requires
        0 <= k < kept_of(claimed, granted).len(),
    ensures
        claimed.contains(kept_of(claimed, granted)[k]),
        granted.contains(kept_of(claimed, granted)[k]),
    decreases claimed.len(),
{
    if claimed.len() > 0 {
        let init = claimed.drop_last();
        let p = kept_of(init, granted);
        if k < p.len() {
            lemma_kept_is_claimed(init, granted, k);
            let j = choose|j: int| 0 <= j < init.len() && init[j] == p[k];
            assert(claimed[j] == p[k]);
        } else {
            assert(claimed[claimed.len() - 1] == claimed.last());
        }
    }
}

/// An identity only ever narrows what a session may see by: every
/// authorization that is left was claimed, and granted if grants are recorded.
pub proof fn resolving_only_narrows(
    claimed: Seq<Seq<char>>,
    identified: bool,
    granted: Option<Seq<Seq<char>>>,
    k: int,
)
    requires
        0 <= k < resolved(claimed, identified, granted).len(),
    ensures
        claimed.contains(resolved(claimed, identified, granted)[k]),
        identified && granted is Some ==> granted->Some_0.contains(
            resolved(claimed, identified, granted)[k],
        ),
{
    let r = resolved(claimed, identified, granted);
    if identified && granted is Some {
        lemma_kept_is_claimed(claimed, granted->Some_0, k);
    } else {
        assert(claimed[k] == r[k]);
    }
}

/// Presenting an identity never shows a row that the bare claims do not.
pub proof fn an_identity_shows_no_more(
    label: Seq<char>,
    claimed: Seq<Seq<char>>,
    granted: Option<Seq<Seq<char>>>,
)
    requires
        visibility::visible(label, resolved(claimed, true, granted)),
    ensures
        visibility::visible(label, claimed),
{
    let r = resolved(claimed, true, granted);
    assert forall|k: int| 0 <= k < r.len() implies claimed.contains(#[trigger] r[k]) by {
        resolving_only_narrows(claimed, true, granted, k);
    }
    visibility::more_authorizations_show_more(label, r, claimed);
}

/// What a session may see by: with an identity that grants are recorded for,
/// exactly those of its claims that are granted, in their order; otherwise all
/// of its claims.
pub proof fn an_identity_keeps_what_is_granted(
    claimed: Seq<Seq<char>>,
    identified: bool,
    granted: Option<Seq<Seq<char>>>,
)
    ensures
        !identified || granted is None ==> resolved(claimed, identified, granted) == claimed,
        identified && granted is Some ==> resolved(claimed, identified, granted) == claimed.filter(
            |a: Seq<char>| granted->Some_0.contains(a),
        ),
    decreases claimed.len(),
{
    reveal(Seq::filter);
    if claimed.len() > 0 {
        an_identity_keeps_what_is_granted(claimed.drop_last(), identified, granted);
    }
}

// ------------------------------------------------------------ the restrictions

/// What is required of every scan of a table.
#[derive(Debug, Clone)]
pub enum Restriction {
    /// Rows whose label the authorizations do not satisfy are dropped.
    Visibility { column: String, authorizations: Vec<String> },
}

impl Restriction {
    /// The columns that the restriction reads.
    pub open spec fn columns(self) -> Seq<Seq<char>> {
        seq![self->column@]
    }

    /// The columns that the restriction reads.
    pub fn required_columns(&self) -> (r: Vec<String>)
        ensures
            text::texts(r@) == self.columns(),
    {
        match self {
            Restriction::Visibility { column, .. } => {
                let mut r: Vec<String> = Vec::new();
                r.push(column.clone());
                assert(text::texts(r@) =~= self.columns());
                r
            },
        }
    }
}

/// Whether a schema has a column.
pub open spec fn has_field(schema: Seq<batch::FieldDesc>, name: Seq<char>) -> bool {
    exists|i: int| 0 <= i < schema.len() && (#[trigger] schema[i]).name == name
}

/// Whether a schema has a column.
pub fn schema_has(schema: &Vec<Field>, name: &str) -> (r: bool)
    ensures
        r == has_field(batch::schema_view(schema@), name@),
{
    let ghost all = batch::schema_view(schema@);
    let mut i: usize = 0;
    while i < schema.len()
        invariant
            i <= schema.len(),
            all == batch::schema_view(schema@),
            forall|j: int| 0 <= j < i ==> (#[trigger] all[j]).name != name@,
        decreases schema.len() - i,
    {
        assert(all[i as int] == schema@[i as int]@);
        if text::same(schema[i].name.as_str(), name) {
            return true;
        }
        i += 1;
    }
    false
}

/// What is required of a scan: the visibility of labelled rows, where the
/// table has a column for labels.
pub fn mandatory_predicate(session: &QuerySession, _table: &str, schema: &Vec<Field>) -> (r: Option<
    Restriction,
>)
    ensures
        match r {
            Some(Restriction::Visibility { column, authorizations }) => {
                &&& has_field(batch::schema_view(schema@), VISIBILITY_COLUMN@)
                &&& column@ == VISIBILITY_COLUMN@
                &&& authorizations@ == session.authorizations@
            },
            None => !has_field(batch::schema_view(schema@), VISIBILITY_COLUMN@),
        },
{
    if !schema_has(schema, VISIBILITY_COLUMN) {
        return None;
    }
    Some(
        Restriction::Visibility {
            column: String::from_str(VISIBILITY_COLUMN),
            authorizations: text::copy_texts(&session.authorizations),
        },
    )
}

/// Whether a row with this label cell is visible. A row without a label is.
pub open spec fn cell_visible(c: batch::CellView, auths: Seq<Seq<char>>) -> bool {
    match c {
        batch::CellView::Null => true,
        batch::CellView::Str(s) => visibility::visible(s, auths),
        _ => false,
    }
}

/// The visible ones among the first `n` rows.
pub open spec fn visible_rows(
    cells: Seq<batch::CellView>,
    auths: Seq<Seq<char>>,
    n: int,
) -> Seq<int>
    decreases n,
{
    if n <= 0 {
        Seq::empty()
    } else {
        let p = visible_rows(cells, auths, n - 1);
        if cell_visible(cells[n - 1], auths) {
            p.push(n - 1)
        } else {
            p
        }
    }
}

/// Whether a column of this type can carry labels.
pub open spec fn carries_labels(t: batch::TypeView) -> bool {
    t == batch::tag_type() || t is Utf8 || t is Utf8View
}

/// What a restriction leaves of a batch: its visible rows; all of them where
/// the batch has no column of that name; an error where the column's type
/// cannot carry labels.
pub open spec fn restricted(r: Restriction, b: batch::BatchView) -> Result<
    batch::BatchView,
    Seq<char>,
> {
    let column = r->column@;
    let auths = text::texts(r->authorizations@);
    match batch::column_at(b.columns, column) {
        None => Ok(b),
        Some(c) => if carries_labels(b.columns[c].field.data_type) {
            Ok(b.take_rows(visible_rows(b.columns[c].cells, auths, b.rows as int)))
        } else {
            Err(
                column + " must be a string column to carry visibility labels, got "@
                    + batch::type_text(b.columns[c].field.data_type),
            )
        },
    }
}

/// The positions of the visible rows of a column of labels.
fn find_visible(cells: &Vec<Cell>, auths: &Vec<String>) -> (r: Vec<usize>)
    ensures
        batch::positions(r@) == visible_rows(
            batch::cell_views(cells@),
            text::texts(auths@),
            cells.len() as int,
        ),
        forall|k: int| 0 <= k < r.len() ==> (#[trigger] r@[k]) < cells.len(),
{
    let ghost all = batch::cell_views(cells@);
    let ghost names = text::texts(auths@);
    let mut out: Vec<usize> = Vec::new();
    let mut i: usize = 0;
    assert(batch::positions(out@) =~= Seq::empty());
    while i < cells.len()
        invariant
            i <= cells.len(),
            all == batch::cell_views(cells@),
            names == text::texts(auths@),
            batch::positions(out@) == visible_rows(all, names, i as int),
            forall|k: int| 0 <= k < out.len() ==> (#[trigger] out@[k]) < cells.len(),
        decreases cells.len() - i,
    {
        assert(all[i as int] == cells@[i as int]@);
        let ghost done = batch::positions(out@);
        let seen: bool = match &cells[i] {
            Cell::Null => true,
            Cell::Str(s) => visibility::is_visible(s.as_str(), auths),
            _ => false,
        };
        if seen {
            out.push(i);
            assert(batch::positions(out@) =~= done.push(i as int));
        }
        i += 1;
    }
    out
}

/// Enforces a restriction on a batch. A label that is not satisfied, or that
/// is malformed, drops its row.
pub fn apply_restriction(r: &Restriction, batch: &Batch) -> (out: Result<Batch, String>)
    requires
        batch@.well_formed(),
    ensures
        match (out, restricted(*r, batch@)) {
            (Ok(b), Ok(v)) => b@ == v && b@.well_formed(),
            (Err(m), Err(t)) => m@ == t,
            _ => false,
        },
{
    match r {
        Restriction::Visibility { column, authorizations } => {
            match batch::find_column(&batch.columns, column.as_str()) {
                None => Ok(batch.copy()),
                Some(c) => {
                    assert(batch@.columns[c as int] == batch.columns@[c as int]@);
                    let col = &batch.columns[c];
                    let t = &col.field.data_type;
                    if t.same(&DataType::tag()) || t.same(&DataType::Utf8) || t.same(
                        &DataType::Utf8View,
                    ) {
                        let rows = find_visible(&col.cells, authorizations);
                        Ok(batch.take_rows(&rows))
                    } else {
                        let mut m = column.clone();
                        m.append(" must be a string column to carry visibility labels, got ");
                        m.append(t.describe().as_str());
                        Err(m)
                    }
                },
            }
        },
    }
}

/// Every row that a restriction leaves is visible, and every visible row is
/// left.
pub proof fn only_visible_rows_are_left(
    cells: Seq<batch::CellView>,
    auths: Seq<Seq<char>>,
    n: int,
    r: int,
)
    requires
        0 <= n <= cells.len(),
    ensures
        visible_rows(cells, auths, n).contains(r) <==> (0 <= r < n && cell_visible(
            cells[r],
            auths,
        )),
    decreases n,
{
    if n > 0 {
        only_visible_rows_are_left(cells, auths, n - 1, r);
        let p = visible_rows(cells, auths, n - 1);
        let q = visible_rows(cells, auths, n);
        if p.contains(r) {
            let k = choose|k: int| 0 <= k < p.len() && p[k] == r;
            assert(q[k] == r);
        }
        if q.contains(r) {
            let k = choose|k: int| 0 <= k < q.len() && q[k] == r;
            if k < p.len() {
                assert(p[k] == r);
            }
        }
        if r == n - 1 && cell_visible(cells[r], auths) {
            assert(q[p.len() as int] == r);
        }
    }
}

proof fn lemma_visible_in_order(cells: Seq<batch::CellView>, auths: Seq<Seq<char>>, n: int)
    ensures
        forall|i: int|
            0 <= i < visible_rows(cells, auths, n).len() ==> 0 <= #[trigger] visible_rows(
                cells,
                auths,
                n,
            )[i] < n,
        forall|i: int, j: int|
            0 <= i < j < visible_rows(cells, auths, n).len() ==> #[trigger] visible_rows(
                cells,
                auths,
                n,
            )[i] < #[trigger] visible_rows(cells, auths, n)[j],
    decreases n,
{
    if n > 0 {
        lemma_visible_in_order(cells, auths, n - 1);
        let p = visible_rows(cells, auths, n - 1);
        let q = visible_rows(cells, auths, n);
        assert forall|i: int| 0 <= i < q.len() implies 0 <= #[trigger] q[i] < n by {
            if i < p.len() {
                assert(q[i] == p[i]);
            }
        }
        assert forall|i: int, j: int| 0 <= i < j < q.len() implies #[trigger] q[i]
            < #[trigger] q[j] by {
            assert(q[i] == p[i]);
            if j < p.len() {
                assert(q[j] == p[j]);
            }
        }
    }
}

/// What a restriction leaves of a batch whose first column of that name holds
/// texts: whole rows, in their order, and a row exactly if it has no label or
/// the authorizations satisfy its label. A batch without such a column is left
/// whole; one whose column holds anything else is refused.
pub proof fn a_restriction_leaves_what_may_be_seen(r: Restriction, b: batch::BatchView, c: int)
    requires
        b.well_formed(),
        0 <= c < b.columns.len() ==> b.columns[c].field.name == r->column@,
        forall|d: int|
            0 <= d < b.columns.len() && (d < c || c < 0) ==> (#[trigger] b.columns[d]).field.name
                != r->column@,
        c < b.columns.len(),
    ensures
        c < 0 ==> restricted(r, b) == Ok::<batch::BatchView, Seq<char>>(b),
        c >= 0 ==> {
            let t = b.columns[c].field.data_type;
            let cells = b.columns[c].cells;
            let auths = text::texts(r->authorizations@);
            if t is Utf8 || t is Utf8View || t == batch::tag_type() {
                exists|at: Seq<int>|
                    {
                        &&& restricted(r, b) == Ok::<batch::BatchView, Seq<char>>(
                            #[trigger] b.take_rows(at),
                        )
                        &&& forall|i: int, j: int|
                            0 <= i < j < at.len() ==> #[trigger] at[i] < #[trigger] at[j]
                        &&& forall|row: int|
                            #[trigger] at.contains(row) <==> 0 <= row < b.rows && (cells[row] is Null
                                || (cells[row] matches batch::CellView::Str(label)
                                && visibility::visible(label, auths)))
                    }
            } else {
                restricted(r, b) is Err
            }
        },
{
    batch::column_at_is_first(b.columns, r->column@);
    if c >= 0 {
        let found = batch::column_at(b.columns, r->column@);
        assert(found is Some) by {
            assert(b.columns[c].field.name == r->column@);
        }
        assert(found == Some(c)) by {
            let f = found->Some_0;
            if f < c {
                assert(b.columns[f].field.name != r->column@);
            }
        }
        let cells = b.columns[c].cells;
        let auths = text::texts(r->authorizations@);
        let at = visible_rows(cells, auths, b.rows as int);
        lemma_visible_in_order(cells, auths, b.rows as int);
        assert forall|row: int| #[trigger] at.contains(row) <==> 0 <= row < b.rows && (
        cells[row] is Null || (cells[row] matches batch::CellView::Str(label)
            && visibility::visible(label, auths))) by {
            only_visible_rows_are_left(cells, auths, b.rows as int, row);
        }
        assert(b.take_rows(at) == b.take_rows(at));
    }
}

} // verus!
