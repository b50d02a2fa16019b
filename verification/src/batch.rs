//! Tables in columns: the data types, schemas and batches that the write path
//! and the read path exchange.
use crate::ingest::{FieldValue, Float};
use crate::ingest;
use crate::text;
use vstd::prelude::*;

verus! {

/// A column's data type.
#[derive(Debug, PartialEq, Eq)]
pub enum DataType {
    /// Nanosecond timestamps, with an optional time zone.
    TimeNs(Option<String>),
    /// Keys into a list of values: the type of the keys, the type of the values.
    Dictionary(Box<DataType>, Box<DataType>),
    Utf8,
    Utf8View,
    Float64,
    Int64,
    Int32,
    UInt64,
    Boolean,
    /// Any other type, by its name.
    Other(String),
}

/// What a `DataType` is.
pub enum TypeView {
    TimeNs(Option<Seq<char>>),
    Dictionary(Box<TypeView>, Box<TypeView>),
    Utf8,
    Utf8View,
    Float64,
    Int64,
    Int32,
    UInt64,
    Boolean,
    Other(Seq<char>),
}

/// What a data type is.
pub open spec fn type_view(t: DataType) -> TypeView
    decreases t,
{
    match t {
        DataType::TimeNs(None) => TypeView::TimeNs(None),
        DataType::TimeNs(Some(z)) => TypeView::TimeNs(Some(z@)),
        DataType::Dictionary(k, v) => TypeView::Dictionary(
            Box::new(type_view(*k)),
            Box::new(type_view(*v)),
        ),
        DataType::Utf8 => TypeView::Utf8,
        DataType::Utf8View => TypeView::Utf8View,
        DataType::Float64 => TypeView::Float64,
        DataType::Int64 => TypeView::Int64,
        DataType::Int32 => TypeView::Int32,
        DataType::UInt64 => TypeView::UInt64,
        DataType::Boolean => TypeView::Boolean,
        DataType::Other(s) => TypeView::Other(s@),
    }
}

impl View for DataType {
    type V = TypeView;

    open spec fn view(&self) -> TypeView {
        type_view(*self)
    }
}

/// How a data type is written in messages.
pub open spec fn type_text(t: TypeView) -> Seq<char>
    decreases t,
{
    match t {
        TypeView::TimeNs(None) => "Timestamp(Nanosecond, None)"@,
        TypeView::TimeNs(Some(z)) => "Timestamp(Nanosecond, Some("@ + text::debug_text(z) + "))"@,
        TypeView::Dictionary(k, v) => "Dictionary("@ + type_text(*k) + ", "@ + type_text(*v)
            + ")"@,
        TypeView::Utf8 => "Utf8"@,
        TypeView::Utf8View => "Utf8View"@,
        TypeView::Float64 => "Float64"@,
        TypeView::Int64 => "Int64"@,
        TypeView::Int32 => "Int32"@,
        TypeView::UInt64 => "UInt64"@,
        TypeView::Boolean => "Boolean"@,
        TypeView::Other(s) => s,
    }
}

/// The type of a tag column: strings behind 32-bit keys.
pub open spec fn tag_type() -> TypeView {
    TypeView::Dictionary(Box::new(TypeView::Int32), Box::new(TypeView::Utf8))
}

/// Whether a type is a dictionary of strings.
pub open spec fn is_text_dictionary(t: TypeView) -> bool {
    t matches TypeView::Dictionary(_, v) && *v == TypeView::Utf8
}

impl DataType {
    /// The type of a tag column.
    pub fn tag() -> (r: DataType)
        ensures
            r@ == tag_type(),
    {
        let r = DataType::Dictionary(Box::new(DataType::Int32), Box::new(DataType::Utf8));
        assert(type_view(r) == tag_type()) by {
            reveal_with_fuel(type_view, 2);
        }
        r
    }

    /// A copy of the type.
    pub fn copy(&self) -> (r: DataType)
        ensures
            r@ == self@,
        decreases self,
    {
        match self {
            DataType::TimeNs(None) => DataType::TimeNs(None),
            DataType::TimeNs(Some(z)) => DataType::TimeNs(Some(z.clone())),
            DataType::Dictionary(k, v) => DataType::Dictionary(
                Box::new(k.copy()),
                Box::new(v.copy()),
            ),
            DataType::Utf8 => DataType::Utf8,
            DataType::Utf8View => DataType::Utf8View,
            DataType::Float64 => DataType::Float64,
            DataType::Int64 => DataType::Int64,
            DataType::Int32 => DataType::Int32,
            DataType::UInt64 => DataType::UInt64,
            DataType::Boolean => DataType::Boolean,
            DataType::Other(s) => DataType::Other(s.clone()),
        }
    }

    /// Whether two types are the same.
    pub fn same(&self, other: &DataType) -> (r: bool)
        ensures
            r == (self@ == other@),
        decreases self,
    {
        match (self, other) {
            (DataType::TimeNs(None), DataType::TimeNs(None)) => true,
            (DataType::TimeNs(Some(a)), DataType::TimeNs(Some(b))) => text::same(
                a.as_str(),
                b.as_str(),
            ),
            (DataType::Dictionary(a, b), DataType::Dictionary(c, d)) => a.same(&**c) && b.same(
                &**d,
            ),
            (DataType::Utf8, DataType::Utf8) => true,
            (DataType::Utf8View, DataType::Utf8View) => true,
            (DataType::Float64, DataType::Float64) => true,
            (DataType::Int64, DataType::Int64) => true,
            (DataType::Int32, DataType::Int32) => true,
            (DataType::UInt64, DataType::UInt64) => true,
            (DataType::Boolean, DataType::Boolean) => true,
            (DataType::Other(a), DataType::Other(b)) => text::same(a.as_str(), b.as_str()),
            _ => false,
        }
    }

    /// The type as messages write it.
    pub fn describe(&self) -> (r: String)
        ensures
            r@ == type_text(self@),
        decreases self,
    {
        match self {
            DataType::TimeNs(None) => String::from_str("Timestamp(Nanosecond, None)"),
            DataType::TimeNs(Some(z)) => {
                let mut s = String::from_str("Timestamp(Nanosecond, Some(");
                s.append(text::quote(z.as_str()).as_str());
                s.append("))");
                s
            },
            DataType::Dictionary(k, v) => {
                let mut s = String::from_str("Dictionary(");
                s.append(k.describe().as_str());
                s.append(", ");
                s.append(v.describe().as_str());
                s.append(")");
                s
            },
            DataType::Utf8 => String::from_str("Utf8"),
            DataType::Utf8View => String::from_str("Utf8View"),
            DataType::Float64 => String::from_str("Float64"),
            DataType::Int64 => String::from_str("Int64"),
            DataType::Int32 => String::from_str("Int32"),
            DataType::UInt64 => String::from_str("UInt64"),
            DataType::Boolean => String::from_str("Boolean"),
            DataType::Other(s) => s.clone(),
        }
    }

    /// Whether the type is a dictionary of strings.
    pub fn text_dictionary(&self) -> (r: bool)
        ensures
            r == is_text_dictionary(self@),
    {
        match self {
            DataType::Dictionary(_, v) => v.same(&DataType::Utf8),
            _ => false,
        }
    }
}

/// One value of a column.
#[derive(Debug, Clone, PartialEq, Eq)]
pub enum Cell {
    Null,
    Time(i64),
    Int(i64),
    UInt(u64),
    Float(Float),
    Bool(bool),
    Str(String),
    /// A value of a type that is carried and not read.
    Other(String),
}

/// What a `Cell` holds.
pub enum CellView {
    Null,
    Time(i64),
    Int(i64),
    UInt(u64),
    Float(ingest::FloatView),
    Bool(bool),
    Str(Seq<char>),
    Other(Seq<char>),
}

impl View for Cell {
    type V = CellView;

    open spec fn view(&self) -> CellView {
        match *self {
            Cell::Null => CellView::Null,
            Cell::Time(t) => CellView::Time(t),
            Cell::Int(n) => CellView::Int(n),
            Cell::UInt(n) => CellView::UInt(n),
            Cell::Float(f) => CellView::Float(f@),
            Cell::Bool(b) => CellView::Bool(b),
            Cell::Str(s) => CellView::Str(s@),
            Cell::Other(s) => CellView::Other(s@),
        }
    }
}

impl Cell {
    /// A copy of the cell.
    pub fn copy(&self) -> (r: Cell)
        ensures
            r@ == self@,
    {
        match self {
            Cell::Null => Cell::Null,
            Cell::Time(t) => Cell::Time(*t),
            Cell::Int(n) => Cell::Int(*n),
            Cell::UInt(n) => Cell::UInt(*n),
            Cell::Float(f) => Cell::Float(ingest::copy_float(f)),
            Cell::Bool(b) => Cell::Bool(*b),
            Cell::Str(s) => Cell::Str(s.clone()),
            Cell::Other(s) => Cell::Other(s.clone()),
        }
    }
}

/// The contents of a run of cells.
pub open spec fn cell_views(v: Seq<Cell>) -> Seq<CellView> {
    v.map_values(|c: Cell| c@)
}

/// A copy of a run of cells.
pub fn copy_cells(v: &Vec<Cell>) -> (r: Vec<Cell>)
    ensures
        cell_views(r@) == cell_views(v@),
{
    let mut r: Vec<Cell> = Vec::new();
    let mut i: usize = 0;
    while i < v.len()
        invariant
            i <= v.len(),
            cell_views(r@) == cell_views(v@).take(i as int),
        decreases v.len() - i,
    {
        let ghost done = cell_views(r@);
        let c = v[i].copy();
        r.push(c);
        assert(cell_views(r@) =~= done.push(c@));
        assert(cell_views(v@).take(i + 1) =~= cell_views(v@).take(i as int).push(v@[i as int]@));
        i += 1;
    }
    assert(cell_views(v@).take(v@.len() as int) =~= cell_views(v@));
    r
}

/// Whether a column of a type can hold a cell.
pub open spec fn fits(t: TypeView, c: CellView) -> bool {
    match c {
        CellView::Null => true,
        CellView::Time(_) => t is TimeNs,
        CellView::Int(_) => t is Int64,
        CellView::UInt(_) => t is UInt64,
        CellView::Float(_) => t is Float64,
        CellView::Bool(_) => t is Boolean,
        CellView::Str(_) => t is Utf8 || t is Utf8View || is_text_dictionary(t),
        CellView::Other(_) => t is Other || t is Int32 || (t is Dictionary && !is_text_dictionary(
            t,
        )),
    }
}

/// A column's place in a schema.
#[derive(Debug, PartialEq, Eq)]
pub struct Field {
    pub name: String,
    pub data_type: DataType,
    pub nullable: bool,
    /// The role that the column's metadata gives it, if any.
    pub role: Option<String>,
}

/// What a `Field` says.
#[verifier::ext_equal]
pub struct FieldDesc {
    pub name: Seq<char>,
    pub data_type: TypeView,
    pub nullable: bool,
    pub role: Option<Seq<char>>,
}

/// The text of an optional string.
pub open spec fn opt_text(s: Option<String>) -> Option<Seq<char>> {
    match s {
        Some(t) => Some(t@),
        None => None,
    }
}

/// A copy of an optional string.
pub fn copy_opt(s: &Option<String>) -> (r: Option<String>)
    ensures
        opt_text(r) == opt_text(*s),
        r == *s,
{
    match s {
        Some(t) => Some(t.clone()),
        None => None,
    }
}

impl View for Field {
    type V = FieldDesc;

    open spec fn view(&self) -> FieldDesc {
        FieldDesc {
            name: self.name@,
            data_type: self.data_type@,
            nullable: self.nullable,
            role: opt_text(self.role),
        }
    }
}

impl Field {
    /// A field without a role.
    pub fn new(name: &str, data_type: DataType, nullable: bool) -> (r: Field)
        ensures
            r@ == plain_field(name@, data_type@, nullable),
    {
        Field { name: name.to_owned(), data_type, nullable, role: None }
    }

    /// A copy of the field.
    pub fn copy(&self) -> (r: Field)
        ensures
            r@ == self@,
    {
        Field {
            name: self.name.clone(),
            data_type: self.data_type.copy(),
            nullable: self.nullable,
            role: copy_opt(&self.role),
        }
    }
}

/// A field without a role.
pub open spec fn plain_field(name: Seq<char>, data_type: TypeView, nullable: bool) -> FieldDesc {
    FieldDesc { name, data_type, nullable, role: None }
}

/// What the fields of a schema say.
pub open spec fn schema_view(v: Seq<Field>) -> Seq<FieldDesc> {
    v.map_values(|f: Field| f@)
}

/// One column: its field, the values of its dictionary if it has one, and its
/// cells.
#[derive(Debug, PartialEq, Eq)]
pub struct Column {
    pub field: Field,
    pub dictionary: Vec<String>,
    pub cells: Vec<Cell>,
}

/// What a `Column` holds.
#[verifier::ext_equal]
pub struct ColumnView {
    pub field: FieldDesc,
    pub dictionary: Seq<Seq<char>>,
    pub cells: Seq<CellView>,
}

impl View for Column {
    type V = ColumnView;

    open spec fn view(&self) -> ColumnView {
        ColumnView {
            field: self.field@,
            dictionary: text::texts(self.dictionary@),
            cells: cell_views(self.cells@),
        }
    }
}

impl Column {
    /// A copy of the column.
    pub fn copy(&self) -> (r: Column)
        ensures
            r@ == self@,
    {
        Column {
            field: self.field.copy(),
            dictionary: text::copy_texts(&self.dictionary),
            cells: copy_cells(&self.cells),
        }
    }
}

/// The contents of a list of columns.
pub open spec fn column_views(v: Seq<Column>) -> Seq<ColumnView> {
    v.map_values(|c: Column| c@)
}

/// Rows in columns.
#[derive(Debug, PartialEq, Eq)]
pub struct Batch {
    pub columns: Vec<Column>,
    pub rows: usize,
}

/// What a `Batch` holds.
#[verifier::ext_equal]
pub struct BatchView {
    pub columns: Seq<ColumnView>,
    pub rows: nat,
}

impl View for Batch {
    type V = BatchView;

    open spec fn view(&self) -> BatchView {
        BatchView { columns: column_views(self.columns@), rows: self.rows as nat }
    }
}

/// Whether every float of a batch is in the form of its bits.
pub open spec fn floats_in_bits(b: BatchView) -> bool {
    forall|c: int, r: int|
        0 <= c < b.columns.len() && 0 <= r < b.rows ==> {
            (#[trigger] b.columns[c].cells[r]) matches CellView::Float(f) ==> f is Bits
        }
}

impl BatchView {
    /// Every column has one cell per row, and each cell fits its column.
    pub open spec fn well_formed(self) -> bool {
        forall|c: int|
            0 <= c < self.columns.len() ==> {
                &&& (#[trigger] self.columns[c]).cells.len() == self.rows
                &&& forall|r: int|
                    0 <= r < self.rows ==> fits(
                        self.columns[c].field.data_type,
                        #[trigger] self.columns[c].cells[r],
                    )
            }
    }

    /// The fields of the columns.
    pub open spec fn schema(self) -> Seq<FieldDesc> {
        self.columns.map_values(|c: ColumnView| c.field)
    }

    /// The rows at the given positions, in that order.
    pub open spec fn take_rows(self, at: Seq<int>) -> BatchView {
        BatchView {
            columns: self.columns.map_values(
                |c: ColumnView|
                    ColumnView {
                        field: c.field,
                        dictionary: c.dictionary,
                        cells: at.map_values(|i: int| c.cells[i]),
                    },
            ),
            rows: at.len(),
        }
    }
}

/// The position of the first column with a name.
pub open spec fn column_at(cols: Seq<ColumnView>, name: Seq<char>) -> Option<int>
    decreases cols.len(),
{
    if cols.len() == 0 {
        None
    } else {
        match column_at(cols.drop_last(), name) {
            Some(i) => Some(i),
            None => if cols.last().field.name == name {
                Some(cols.len() - 1)
            } else {
                None
            },
        }
    }
}

/// The first column with a name has that name, no earlier one has it, and
/// there is one whenever any column has the name.
pub proof fn column_at_is_first(cols: Seq<ColumnView>, name: Seq<char>)
    ensures
        match column_at(cols, name) {
            Some(i) => {
                &&& 0 <= i < cols.len()
                &&& cols[i].field.name == name
                &&& forall|j: int| 0 <= j < i ==> (#[trigger] cols[j]).field.name != name
            },
            None => forall|j: int|
                0 <= j < cols.len() ==> (#[trigger] cols[j]).field.name != name,
        },
    decreases cols.len(),
{
    if cols.len() > 0 {
        column_at_is_first(cols.drop_last(), name);
        assert forall|j: int| 0 <= j < cols.len() - 1 implies (#[trigger] cols[j]).field.name
            == cols.drop_last()[j].field.name by {}
    }
}

/// The position of the first column with a name.
pub fn find_column(cols: &Vec<Column>, name: &str) -> (r: Option<usize>)
    ensures
        match (r, column_at(column_views(cols@), name@)) {
            (Some(i), Some(j)) => i == j && i < cols.len(),
            (None, None) => true,
            _ => false,
        },
{
    let ghost views = column_views(cols@);
    let mut i: usize = 0;
    proof {
        column_at_is_first(views, name@);
    }
    while i < cols.len()
        invariant
            i <= cols.len(),
            views == column_views(cols@),
            forall|j: int| 0 <= j < i ==> (#[trigger] views[j]).field.name != name@,
            match column_at(views, name@) {
                Some(k) => {
                    &&& 0 <= k < views.len()
                    &&& views[k].field.name == name@
                    &&& forall|j: int| 0 <= j < k ==> (#[trigger] views[j]).field.name != name@
                },
                None => forall|j: int|
                    0 <= j < views.len() ==> (#[trigger] views[j]).field.name != name@,
            },
        decreases cols.len() - i,
    {
        if text::same(cols[i].field.name.as_str(), name) {
            assert(views[i as int].field.name == name@);
            return Some(i);
        }
        assert(views[i as int].field.name != name@);
        i += 1;
    }
    None
}

impl Batch {
    /// A batch of columns that have one cell per row each.
    pub fn new(columns: Vec<Column>, rows: usize) -> (r: Batch)
        ensures
            r@ == (BatchView { columns: column_views(columns@), rows: rows as nat }),
    {
        Batch { columns, rows }
    }

    /// A copy of the batch.
    pub fn copy(&self) -> (r: Batch)
        ensures
            r@ == self@,
    {
        let mut columns: Vec<Column> = Vec::new();
        let ghost views = column_views(self.columns@);
        let mut i: usize = 0;
        while i < self.columns.len()
            invariant
                i <= self.columns.len(),
                views == column_views(self.columns@),
                column_views(columns@) == views.take(i as int),
            decreases self.columns.len() - i,
        {
            let ghost done = column_views(columns@);
            let c = self.columns[i].copy();
            columns.push(c);
            assert(column_views(columns@) =~= done.push(c@));
            assert(views.take(i + 1) =~= views.take(i as int).push(views[i as int]));
            i += 1;
        }
        assert(views.take(views.len() as int) =~= views);
        Batch { columns, rows: self.rows }
    }

    /// The fields of the columns.
    pub fn schema(&self) -> (r: Vec<Field>)
        ensures
            schema_view(r@) == self@.schema(),
    {
        let mut out: Vec<Field> = Vec::new();
        let ghost all = self@.schema();
        let mut i: usize = 0;
        while i < self.columns.len()
            invariant
                i <= self.columns.len(),
                all == self@.schema(),
                schema_view(out@) == all.take(i as int),
            decreases self.columns.len() - i,
        {
            let ghost done = schema_view(out@);
            let f = self.columns[i].field.copy();
            out.push(f);
            assert(schema_view(out@) =~= done.push(f@));
            assert(all.take(i + 1) =~= all.take(i as int).push(all[i as int]));
            i += 1;
        }
        assert(all.take(all.len() as int) =~= all);
        out
    }
}

/// The positions in a vector of indices.
pub open spec fn positions(v: Seq<usize>) -> Seq<int> {
    v.map_values(|i: usize| i as int)
}

/// The cells of one column at the given positions.
fn pick(v: &Vec<Cell>, at: &Vec<usize>) -> (r: Vec<Cell>)
    requires
        forall|k: int| 0 <= k < at.len() ==> (#[trigger] at@[k]) < v.len(),
    ensures
        cell_views(r@) == positions(at@).map_values(|i: int| cell_views(v@)[i]),
{
    let mut r: Vec<Cell> = Vec::new();
    let ghost all = positions(at@).map_values(|i: int| cell_views(v@)[i]);
    let mut k: usize = 0;
    while k < at.len()
        invariant
            k <= at.len(),
            forall|k: int| 0 <= k < at.len() ==> (#[trigger] at@[k]) < v.len(),
            all == positions(at@).map_values(|i: int| cell_views(v@)[i]),
            cell_views(r@) == all.take(k as int),
        decreases at.len() - k,
    {
        let ghost done = cell_views(r@);
        let c = v[at[k]].copy();
        r.push(c);
        assert(cell_views(r@) =~= done.push(c@));
        assert(all.take(k + 1) =~= all.take(k as int).push(all[k as int]));
        k += 1;
    }
    assert(all.take(all.len() as int) =~= all);
    r
}

impl Batch {
    /// The rows at the given positions, in that order.
    pub fn take_rows(&self, at: &Vec<usize>) -> (r: Batch)
        requires
            self@.well_formed(),
            forall|k: int| 0 <= k < at.len() ==> (#[trigger] at@[k]) < self.rows,
        ensures
            r@ == self@.take_rows(positions(at@)),
            r@.well_formed(),
    {
        let ghost all = self@.take_rows(positions(at@));
        let mut columns: Vec<Column> = Vec::new();
        let mut c: usize = 0;
        while c < self.columns.len()
            invariant
                c <= self.columns.len(),
                self@.well_formed(),
                forall|k: int| 0 <= k < at.len() ==> (#[trigger] at@[k]) < self.rows,
                all == self@.take_rows(positions(at@)),
                column_views(columns@) == all.columns.take(c as int),
            decreases self.columns.len() - c,
        {
            let ghost done = column_views(columns@);
            let col = &self.columns[c];
            assert(self@.columns[c as int] == col@);
            let out = Column {
                field: col.field.copy(),
                dictionary: text::copy_texts(&col.dictionary),
                cells: pick(&col.cells, at),
            };
            columns.push(out);
            assert(out@ =~= all.columns[c as int]);
            assert(column_views(columns@) =~= done.push(out@));
            assert(all.columns.take(c + 1) =~= all.columns.take(c as int).push(
                all.columns[c as int],
            ));
            c += 1;
        }
        assert(all.columns.take(all.columns.len() as int) =~= all.columns);
        proof {
            assert forall|c: int| 0 <= c < all.columns.len() implies {
                &&& (#[trigger] all.columns[c]).cells.len() == all.rows
                &&& forall|r: int|
                    0 <= r < all.rows ==> fits(
                        all.columns[c].field.data_type,
                        #[trigger] all.columns[c].cells[r],
                    )
            } by {
                let src = self@.columns[c];
                assert forall|r: int| 0 <= r < all.rows implies fits(
                    all.columns[c].field.data_type,
                    #[trigger] all.columns[c].cells[r],
                ) by {
                    assert(all.columns[c].cells[r] == src.cells[at@[r] as int]);
                }
            }
        }
        Batch { columns, rows: at.len() }
    }
}

/// The cell that a field's value becomes.
pub open spec fn cell_of(v: ingest::FieldView) -> CellView {
    match v {
        ingest::FieldView::Float(f) => CellView::Float(f),
        ingest::FieldView::Int(n) => CellView::Int(n),
        ingest::FieldView::UInt(n) => CellView::UInt(n),
        ingest::FieldView::Bool(b) => CellView::Bool(b),
        ingest::FieldView::Str(s) => CellView::Str(s),
    }
}

/// The cell that a field's value becomes.
pub fn to_cell(v: &FieldValue) -> (r: Cell)
    ensures
        r@ == cell_of(v@),
{
    match v {
        FieldValue::Float(f) => Cell::Float(ingest::copy_float(f)),
        FieldValue::Int(n) => Cell::Int(*n),
        FieldValue::UInt(n) => Cell::UInt(*n),
        FieldValue::Bool(b) => Cell::Bool(*b),
        FieldValue::Str(s) => Cell::Str(s.clone()),
    }
}

/// A cell that a value becomes is that value, and never nothing.
pub proof fn a_cell_is_its_value(
    f: ingest::FloatView,
    n: i64,
    u: u64,
    b: bool,
    s: Seq<char>,
)
    ensures
        cell_of(ingest::FieldView::Float(f)) == CellView::Float(f),
        cell_of(ingest::FieldView::Int(n)) == CellView::Int(n),
        cell_of(ingest::FieldView::UInt(u)) == CellView::UInt(u),
        cell_of(ingest::FieldView::Bool(b)) == CellView::Bool(b),
        cell_of(ingest::FieldView::Str(s)) == CellView::Str(s),
{
}

/// Taking rows takes whole rows, in the order that is asked for, and keeps each
/// column's name and type.
pub proof fn taking_rows_takes_whole_rows(b: BatchView, at: Seq<int>, c: int, k: int)
    requires
        0 <= c < b.columns.len(),
        0 <= k < at.len(),
    ensures
        b.take_rows(at).rows == at.len(),
        b.take_rows(at).columns.len() == b.columns.len(),
        b.take_rows(at).columns[c].field == b.columns[c].field,
        b.take_rows(at).columns[c].cells.len() == at.len(),
        b.take_rows(at).columns[c].cells[k] == b.columns[c].cells[at[k]],
{
}

/// What a cell is seen as is the cell itself.
pub proof fn a_cell_is_seen_as_itself(n: i64, u: u64, b: bool, s: String, bits: u64)
    ensures
        Cell::Null@ == CellView::Null,
        Cell::Time(n)@ == CellView::Time(n),
        Cell::Int(n)@ == CellView::Int(n),
        Cell::UInt(u)@ == CellView::UInt(u),
        Cell::Bool(b)@ == CellView::Bool(b),
        Cell::Str(s)@ == CellView::Str(s@),
        Cell::Other(s)@ == CellView::Other(s@),
        Cell::Float(Float::Bits(bits))@ == CellView::Float(ingest::FloatView::Bits(bits)),
        Cell::Float(Float::Numeral(s))@ == CellView::Float(ingest::FloatView::Numeral(s@)),
{
}

} // verus!
