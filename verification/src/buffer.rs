//! The write buffer of one table: rows in columns, with the values of each tag
//! interned in a dictionary of its own.
//!
//! The first value of a field fixes its column's type; integers are taken into
//! float columns, and anything else of another type is refused.
pub mod flush;

use crate::batch;
use crate::batch::{Batch, Cell, Column, DataType, Field};
use crate::ingest;
use crate::ingest::{FieldValue, Float, ParsedLine};
use crate::text;
use vstd::prelude::*;

verus! {

/// The type of a field's column.
#[derive(Debug, Clone, Copy, PartialEq, Eq, Structural)]
pub enum FieldKind {
    F64,
    I64,
    U64,
    Bool,
    Str,
}

/// The type of column that a value makes.
pub open spec fn kind_of(v: ingest::FieldView) -> FieldKind {
    match v {
        ingest::FieldView::Float(_) => FieldKind::F64,
        ingest::FieldView::Int(_) => FieldKind::I64,
        ingest::FieldView::UInt(_) => FieldKind::U64,
        ingest::FieldView::Bool(_) => FieldKind::Bool,
        ingest::FieldView::Str(_) => FieldKind::Str,
    }
}

/// Whether a column of a type takes a value: one of its own type, or an
/// integer into a float column.
pub open spec fn takes(k: FieldKind, v: ingest::FieldView) -> bool {
    kind_of(v) == k || (k == FieldKind::F64 && (v is Int || v is UInt))
}

/// The cell that a value becomes in a column of a type.
pub open spec fn promoted(k: FieldKind, v: ingest::FieldView) -> batch::CellView {
    match (k, v) {
        (FieldKind::F64, ingest::FieldView::Int(n)) => batch::CellView::Float(
            ingest::FloatView::Numeral(text::signed_decimal(n as int)),
        ),
        (FieldKind::F64, ingest::FieldView::UInt(n)) => batch::CellView::Float(
            ingest::FloatView::Numeral(text::decimal(n as nat)),
        ),
        _ => batch::cell_of(v),
    }
}

/// The data type of a field's column.
pub open spec fn type_of(k: FieldKind) -> batch::TypeView {
    match k {
        FieldKind::F64 => batch::TypeView::Float64,
        FieldKind::I64 => batch::TypeView::Int64,
        FieldKind::U64 => batch::TypeView::UInt64,
        FieldKind::Bool => batch::TypeView::Boolean,
        FieldKind::Str => batch::TypeView::Utf8,
    }
}

/// A value that its column does not take: the column was made with another
/// type.
#[derive(Debug, Clone)]
pub struct TypeConflict {
    pub column: String,
    pub value: FieldValue,
}

impl View for TypeConflict {
    type V = (Seq<char>, ingest::FieldView);

    open spec fn view(&self) -> (Seq<char>, ingest::FieldView) {
        (self.column@, self.value@)
    }
}

/// How a refused value is written in a message, given how it reads if it is a
/// float.
pub open spec fn shown(v: ingest::FieldView, number: Seq<char>) -> Seq<char> {
    match v {
        ingest::FieldView::Float(_) => "Float("@ + number + ")"@,
        ingest::FieldView::Int(n) => "Int("@ + text::signed_decimal(n as int) + ")"@,
        ingest::FieldView::UInt(n) => "UInt("@ + text::decimal(n as nat) + ")"@,
        ingest::FieldView::Bool(b) => if b {
            "Bool(true)"@
        } else {
            "Bool(false)"@
        },
        ingest::FieldView::Str(s) => "Str("@ + text::debug_text(s) + ")"@,
    }
}

/// Why a value is refused.
pub open spec fn conflict_text(
    conflict: (Seq<char>, ingest::FieldView),
    number: Seq<char>,
) -> Seq<char> {
    "field '"@ + conflict.0 + "' type conflict: column was created with a different type than "@
        + shown(conflict.1, number)
}

/// What a tag's column holds.
#[verifier::ext_equal]
pub struct TagView {
    pub name: Seq<char>,
    pub dictionary: Seq<Seq<char>>,
    pub cells: Seq<batch::CellView>,
}

/// What a field's column holds.
#[verifier::ext_equal]
pub struct FieldColView {
    pub name: Seq<char>,
    pub kind: FieldKind,
    pub cells: Seq<batch::CellView>,
}

/// What a buffer holds.
#[verifier::ext_equal]
pub struct BufferView {
    pub times: Seq<i64>,
    pub tags: Seq<TagView>,
    pub fields: Seq<FieldColView>,
}

// ------------------------------------------------ what a line does to a buffer

/// The last value that a list of pairs gives a key.
pub open spec fn last_of<V>(pairs: Seq<(Seq<char>, V)>, k: Seq<char>) -> Option<V>
    decreases pairs.len(),
{
    if pairs.len() == 0 {
        None
    } else if pairs.last().0 == k {
        Some(pairs.last().1)
    } else {
        last_of(pairs.drop_last(), k)
    }
}

/// The first value that a list of pairs gives a key.
pub open spec fn first_of<V>(pairs: Seq<(Seq<char>, V)>, k: Seq<char>) -> Option<V>
    decreases pairs.len(),
{
    if pairs.len() == 0 {
        None
    } else {
        match first_of(pairs.drop_last(), k) {
            Some(v) => Some(v),
            None => if pairs.last().0 == k {
                Some(pairs.last().1)
            } else {
                None
            },
        }
    }
}

/// A list of names with the keys of a list of pairs that it lacks behind it,
/// in the order of their first occurrence.
pub open spec fn added<V>(names: Seq<Seq<char>>, pairs: Seq<(Seq<char>, V)>) -> Seq<Seq<char>>
    decreases pairs.len(),
{
    if pairs.len() == 0 {
        names
    } else {
        let p = added(names, pairs.drop_last());
        if p.contains(pairs.last().0) {
            p
        } else {
            p.push(pairs.last().0)
        }
    }
}

/// A dictionary with a value in it.
pub open spec fn interned(d: Seq<Seq<char>>, v: Seq<char>) -> Seq<Seq<char>> {
    if d.contains(v) {
        d
    } else {
        d.push(v)
    }
}

/// A dictionary with every value in it that a list of pairs gives a key.
pub open spec fn interned_all(
    d: Seq<Seq<char>>,
    pairs: Seq<(Seq<char>, Seq<char>)>,
    k: Seq<char>,
) -> Seq<Seq<char>>
    decreases pairs.len(),
{
    if pairs.len() == 0 {
        d
    } else {
        let p = interned_all(d, pairs.drop_last(), k);
        if pairs.last().0 == k {
            interned(p, pairs.last().1)
        } else {
            p
        }
    }
}

/// A column of nothing.
pub open spec fn nulls(n: nat) -> Seq<batch::CellView> {
    Seq::new(n, |i: int| batch::CellView::Null)
}

/// The names of tag columns.
pub open spec fn tag_names(tags: Seq<TagView>) -> Seq<Seq<char>> {
    tags.map_values(|t: TagView| t.name)
}

/// The names of field columns.
pub open spec fn field_names(fields: Seq<FieldColView>) -> Seq<Seq<char>> {
    fields.map_values(|f: FieldColView| f.name)
}

/// The cells of column `c` of the tags before a line: nothing where the line
/// makes the column.
pub open spec fn tag_base(b: BufferView, c: int) -> Seq<batch::CellView> {
    if c < b.tags.len() {
        b.tags[c].cells
    } else {
        nulls(b.times.len())
    }
}

/// The cells of column `c` of the fields before a line.
pub open spec fn field_base(b: BufferView, c: int) -> Seq<batch::CellView> {
    if c < b.fields.len() {
        b.fields[c].cells
    } else {
        nulls(b.times.len())
    }
}

/// The cell that a row has of a tag: the last value that the line gives it.
pub open spec fn tag_cell(tags: Seq<(Seq<char>, Seq<char>)>, k: Seq<char>) -> batch::CellView {
    match last_of(tags, k) {
        Some(v) => batch::CellView::Str(v),
        None => batch::CellView::Null,
    }
}

/// The cell that a row has of a field: the last value that the line gives it.
pub open spec fn field_cell(
    kind: FieldKind,
    fields: Seq<(Seq<char>, ingest::FieldView)>,
    k: Seq<char>,
) -> batch::CellView {
    match last_of(fields, k) {
        Some(v) => promoted(kind, v),
        None => batch::CellView::Null,
    }
}

/// The dictionary of column `c` of the tags before a line.
pub open spec fn tag_dictionary(b: BufferView, c: int) -> Seq<Seq<char>> {
    if c < b.tags.len() {
        b.tags[c].dictionary
    } else {
        Seq::empty()
    }
}

/// The type of column `c` of the fields: that of the column, or that of the
/// first value of the line that makes it.
pub open spec fn field_kind(
    b: BufferView,
    fields: Seq<(Seq<char>, ingest::FieldView)>,
    c: int,
    k: Seq<char>,
) -> FieldKind {
    if c < b.fields.len() {
        b.fields[c].kind
    } else {
        kind_of(first_of(fields, k)->Some_0)
    }
}

/// The buffer with a line's row behind the others. A key that occurs more than
/// once in the line has its last value; a column that the line lacks has
/// nothing in that row, and one that the line makes has nothing before it.
pub open spec fn appended(b: BufferView, line: ingest::LineView) -> BufferView {
    let tags = added(tag_names(b.tags), line.tags);
    let fields = added(field_names(b.fields), line.fields);
    BufferView {
        times: b.times.push(line.timestamp_ns),
        tags: Seq::new(
            tags.len(),
            |c: int|
                TagView {
                    name: tags[c],
                    dictionary: interned_all(tag_dictionary(b, c), line.tags, tags[c]),
                    cells: tag_base(b, c).push(tag_cell(line.tags, tags[c])),
                },
        ),
        fields: Seq::new(
            fields.len(),
            |c: int|
                {
                    let kind = field_kind(b, line.fields, c, fields[c]);
                    FieldColView {
                        name: fields[c],
                        kind,
                        cells: field_base(b, c).push(field_cell(kind, line.fields, fields[c])),
                    }
                },
        ),
    }
}

/// The position of a name in a list of distinct names.
pub open spec fn place(names: Seq<Seq<char>>, k: Seq<char>) -> Option<int> {
    if names.contains(k) {
        Some(names.index_of(k))
    } else {
        None
    }
}

/// The type of the column that a field would land in, if there is one yet: in
/// the buffer, or made by an earlier field of the same line.
pub open spec fn landing(
    b: BufferView,
    earlier: Seq<(Seq<char>, ingest::FieldView)>,
    k: Seq<char>,
) -> Option<FieldKind> {
    match place(field_names(b.fields), k) {
        Some(c) => Some(b.fields[c].kind),
        None => match first_of(earlier, k) {
            Some(v) => Some(kind_of(v)),
            None => None,
        },
    }
}

/// The first field of a line that is refused, if one is.
pub open spec fn first_conflict(
    b: BufferView,
    fields: Seq<(Seq<char>, ingest::FieldView)>,
) -> Option<(Seq<char>, ingest::FieldView)>
    decreases fields.len(),
{
    if fields.len() == 0 {
        None
    } else {
        match first_conflict(b, fields.drop_last()) {
            Some(m) => Some(m),
            None => {
                let (k, v) = fields.last();
                match landing(b, fields.drop_last(), k) {
                    Some(kind) => if takes(kind, v) {
                        None
                    } else {
                        Some((k, v))
                    },
                    None => None,
                }
            },
        }
    }
}

// -------------------------------------------------------------------- lemmas

proof fn lemma_added<V>(names: Seq<Seq<char>>, pairs: Seq<(Seq<char>, V)>)
    requires
        names.no_duplicates(),
    ensures
        added(names, pairs).no_duplicates(),
        names.len() <= added(names, pairs).len(),
        forall|c: int| 0 <= c < names.len() ==> added(names, pairs)[c] == #[trigger] names[c],
        forall|i: int|
            0 <= i < pairs.len() ==> added(names, pairs).contains(#[trigger] pairs[i].0),
        forall|c: int|
            names.len() <= c < added(names, pairs).len() ==> first_of(
                pairs,
                #[trigger] added(names, pairs)[c],
            ) is Some,
    decreases pairs.len(),
{
    if pairs.len() > 0 {
        let init = pairs.drop_last();
        lemma_added(names, init);
        let p = added(names, init);
        let q = added(names, pairs);
        let k = pairs.last().0;
        assert forall|i: int| 0 <= i < pairs.len() implies q.contains(#[trigger] pairs[i].0) by {
            if i < init.len() {
                assert(p.contains(init[i].0));
                let j = choose|j: int| 0 <= j < p.len() && p[j] == init[i].0;
                assert(q[j] == pairs[i].0);
            } else if p.contains(k) {
            } else {
                assert(q[q.len() - 1] == k);
            }
        }
        assert forall|c: int| names.len() <= c < q.len() implies first_of(
            pairs,
            #[trigger] q[c],
        ) is Some by {
            if c < p.len() {
                assert(first_of(init, p[c]) is Some);
            }
        }
        if !p.contains(k) {
            assert(q.no_duplicates()) by {
                assert forall|i: int, j: int| 0 <= i < q.len() && 0 <= j < q.len() && i != j implies q[i]
                    != q[j] by {
                    if i == p.len() {
                        assert(p[j] != k);
                    } else if j == p.len() {
                        assert(p[i] != k);
                    }
                }
            }
        }
    }
}

proof fn lemma_absent<V>(names: Seq<Seq<char>>, pairs: Seq<(Seq<char>, V)>, k: Seq<char>)
    requires
        names.no_duplicates(),
        !added(names, pairs).contains(k),
    ensures
        last_of(pairs, k) is None,
        first_of(pairs, k) is None,
    decreases pairs.len(),
{
    lemma_added(names, pairs);
    if pairs.len() > 0 {
        let init = pairs.drop_last();
        assert(added(names, pairs).contains(pairs[pairs.len() - 1].0));
        assert(!added(names, init).contains(k)) by {
            if added(names, init).contains(k) {
                let j = choose|j: int|
                    0 <= j < added(names, init).len() && added(names, init)[j] == k;
                assert(added(names, pairs)[j] == k);
            }
        }
        lemma_absent(names, init, k);
    }
}

proof fn lemma_absent_dictionary(
    names: Seq<Seq<char>>,
    pairs: Seq<(Seq<char>, Seq<char>)>,
    k: Seq<char>,
    d: Seq<Seq<char>>,
)
    requires
        names.no_duplicates(),
        !added(names, pairs).contains(k),
    ensures
        interned_all(d, pairs, k) == d,
    decreases pairs.len(),
{
    if pairs.len() > 0 {
        let init = pairs.drop_last();
        lemma_added(names, pairs);
        assert(added(names, pairs).contains(pairs[pairs.len() - 1].0));
        assert(!added(names, init).contains(k)) by {
            if added(names, init).contains(k) {
                let j = choose|j: int|
                    0 <= j < added(names, init).len() && added(names, init)[j] == k;
                assert(added(names, pairs)[j] == k);
            }
        }
        lemma_absent_dictionary(names, init, k, d);
    }
}

// ------------------------------------------------------------- a tag's column

/// A tag's column: the distinct values in the order of their arrival, their
/// positions in the order of the values, and for each row the position of its
/// value.
#[derive(Debug, Clone)]
struct TagCol {
    name: String,
    values: Vec<String>,
    order: Vec<usize>,
    keys: Vec<Option<usize>>,
}

/// The cell that a key stands for.
spec fn key_cell(values: Seq<String>, key: Option<usize>) -> batch::CellView {
    match key {
        Some(k) => batch::CellView::Str(values[k as int]@),
        None => batch::CellView::Null,
    }
}

impl TagCol {
    spec fn cells(self) -> Seq<batch::CellView> {
        Seq::new(self.keys@.len(), |r: int| key_cell(self.values@, self.keys@[r]))
    }

    spec fn model(self) -> TagView {
        TagView {
            name: self.name@,
            dictionary: text::texts(self.values@),
            cells: self.cells(),
        }
    }

    /// The order lists every value once, each before the next.
    spec fn wf(self) -> bool {
        &&& self.order@.len() == self.values@.len()
        &&& forall|i: int| 0 <= i < self.order@.len() ==> (#[trigger] self.order@[i])
            < self.values@.len()
        &&& forall|i: int, j: int|
            0 <= i < j < self.order@.len() ==> text::before(
                self.values@[(#[trigger] self.order@[i]) as int]@,
                self.values@[(#[trigger] self.order@[j]) as int]@,
            )
        &&& forall|k: int|
            0 <= k < self.values@.len() ==> self.order@.contains(#[trigger] (k as usize))
        &&& forall|r: int|
            0 <= r < self.keys@.len() ==> ((#[trigger] self.keys@[r]) matches Some(k) ==> k
                < self.values@.len())
    }

    /// A column of `n` rows without a value.
    fn new(name: &str, n: usize) -> (r: TagCol)
        ensures
            r.wf(),
            r.model() == (TagView {
                name: name@,
                dictionary: Seq::empty(),
                cells: nulls(n as nat),
            }),
    {
        let mut keys: Vec<Option<usize>> = Vec::new();
        let mut i: usize = 0;
        while i < n
            invariant
                i <= n,
                keys@.len() == i,
                forall|r: int| 0 <= r < i ==> (#[trigger] keys@[r]) is None,
            decreases n - i,
        {
            keys.push(None);
            i += 1;
        }
        let r = TagCol { name: name.to_owned(), values: Vec::new(), order: Vec::new(), keys };
        assert(r.cells() =~= nulls(n as nat));
        assert(text::texts(r.values@) =~= Seq::empty());
        r
    }

    /// Where in the order a value stands or would stand, and whether it does.
    fn search(&self, v: &str) -> (r: (usize, bool))
        requires
            self.wf(),
        ensures
            r.0 <= self.order@.len(),
            forall|i: int|
                0 <= i < r.0 ==> text::before(
                    self.values@[(#[trigger] self.order@[i]) as int]@,
                    v@,
                ),
            r.1 ==> r.0 < self.order@.len() && self.values@[self.order@[r.0 as int] as int]@ == v@,
            !r.1 ==> forall|i: int|
                r.0 <= i < self.order@.len() ==> text::before(
                    v@,
                    self.values@[(#[trigger] self.order@[i]) as int]@,
                ),
            r.1 == text::texts(self.values@).contains(v@),
    {
        let ghost vals = text::texts(self.values@);
        let mut lo: usize = 0;
        let mut hi: usize = self.order.len();
        while lo < hi
            invariant
                self.wf(),
                lo <= hi <= self.order@.len(),
                forall|i: int|
                    0 <= i < lo ==> text::before(
                        self.values@[(#[trigger] self.order@[i]) as int]@,
                        v@,
                    ),
                forall|i: int|
                    hi <= i < self.order@.len() ==> !text::before(
                        self.values@[(#[trigger] self.order@[i]) as int]@,
                        v@,
                    ),
            decreases hi - lo,
        {
            let mid: usize = lo + (hi - lo) / 2;
            let at: usize = self.order[mid];
            if text::comes_before(self.values[at].as_str(), v) {
                proof {
                    assert forall|i: int| 0 <= i < mid + 1 implies text::before(
                        self.values@[(#[trigger] self.order@[i]) as int]@,
                        v@,
                    ) by {
                        if i < mid {
                            text::before_is_transitive(
                                self.values@[self.order@[i] as int]@,
                                self.values@[self.order@[mid as int] as int]@,
                                v@,
                            );
                        }
                    }
                }
                lo = mid + 1;
            } else {
                proof {
                    assert forall|i: int| mid <= i < self.order@.len() implies !text::before(
                        self.values@[(#[trigger] self.order@[i]) as int]@,
                        v@,
                    ) by {
                        if mid < i && text::before(self.values@[self.order@[i] as int]@, v@) {
                            text::before_is_transitive(
                                self.values@[self.order@[mid as int] as int]@,
                                self.values@[self.order@[i] as int]@,
                                v@,
                            );
                        }
                    }
                }
                hi = mid;
            }
        }
        let found: bool = lo < self.order.len() && text::same(
            self.values[self.order[lo]].as_str(),
            v,
        );
        proof {
            if found {
                assert(vals[self.order@[lo as int] as int] == v@);
            } else {
                assert forall|i: int| lo <= i < self.order@.len() implies text::before(
                    v@,
                    self.values@[(#[trigger] self.order@[i]) as int]@,
                ) by {
                    let first = self.values@[self.order@[lo as int] as int]@;
                    text::before_is_total(v@, first);
                    if i > lo {
                        text::before_is_transitive(
                            v@,
                            first,
                            self.values@[self.order@[i] as int]@,
                        );
                    }
                }
                if vals.contains(v@) {
                    let k = choose|k: int| 0 <= k < vals.len() && vals[k] == v@;
                    assert(self.order@.contains(k as usize));
                    let i = choose|i: int|
                        0 <= i < self.order@.len() && self.order@[i] == k as usize;
                    text::before_is_total(v@, v@);
                    assert(self.values@[self.order@[i] as int]@ == v@);
                }
            }
        }
        (lo, found)
    }

    /// Puts a value into row `n`, in place of one that stands there.
    fn put(&mut self, n: usize, v: &str)
        requires
            old(self).wf(),
            n <= old(self).keys@.len(),
        ensures
            final(self).wf(),
            final(self).model() == (TagView {
                name: old(self).model().name,
                dictionary: interned(old(self).model().dictionary, v@),
                cells: old(self).model().cells.take(n as int).push(batch::CellView::Str(v@)),
            }),
    {
        let ghost was = *self;
        let (at, found): (usize, bool) = self.search(v);
        let key: usize = if found {
            self.order[at]
        } else {
            let k: usize = self.values.len();
            self.values.push(v.to_owned());
            self.order.insert(at, k);
            k
        };
        self.keys.truncate(n);
        self.keys.push(Some(key));
        proof {
            let vals = self.values@;
            if !found {
                assert(text::texts(vals) =~= text::texts(was.values@).push(v@));
                assert forall|i: int, j: int| 0 <= i < j < self.order@.len() implies text::before(
                    vals[(#[trigger] self.order@[i]) as int]@,
                    vals[(#[trigger] self.order@[j]) as int]@,
                ) by {
                    let a = if i < at {
                        i
                    } else {
                        i - 1
                    };
                    let b = if j < at {
                        j
                    } else {
                        j - 1
                    };
                    if i == at {
                        assert(text::before(v@, was.values@[was.order@[b] as int]@));
                    } else if j == at {
                        assert(text::before(was.values@[was.order@[a] as int]@, v@));
                    } else {
                        assert(text::before(
                            was.values@[was.order@[a] as int]@,
                            was.values@[was.order@[b] as int]@,
                        ));
                    }
                }
                assert forall|k: int| 0 <= k < vals.len() implies self.order@.contains(
                    #[trigger] (k as usize),
                ) by {
                    if k == was.values@.len() {
                        assert(self.order@[at as int] == k);
                    } else {
                        assert(was.order@.contains(k as usize));
                        let i = choose|i: int|
                            0 <= i < was.order@.len() && was.order@[i] == k as usize;
                        if i < at {
                            assert(self.order@[i] == k);
                        } else {
                            assert(self.order@[i + 1] == k);
                        }
                    }
                }
            }
            assert forall|r: int| 0 <= r < self.keys@.len() implies ((
            #[trigger] self.keys@[r]) matches Some(k) ==> k < vals.len()) by {
                if r < n {
                    assert(self.keys@[r] == was.keys@[r]);
                }
            }
            assert forall|r: int| 0 <= r < n implies self.cells()[r] == was.cells()[r] by {
                assert(self.keys@[r] == was.keys@[r]);
            }
            assert(self.cells() =~= was.cells().take(n as int).push(batch::CellView::Str(v@)));
        }
    }

    /// Fills the column up to `n` rows where it is one short.
    fn pad(&mut self, n: usize)
        requires
            old(self).wf(),
            old(self).keys@.len() == n || old(self).keys@.len() + 1 == n,
        ensures
            final(self).wf(),
            final(self).model() == (TagView {
                name: old(self).model().name,
                dictionary: old(self).model().dictionary,
                cells: if old(self).model().cells.len() < n {
                    old(self).model().cells.push(batch::CellView::Null)
                } else {
                    old(self).model().cells
                },
            }),
    {
        let ghost was = *self;
        if self.keys.len() < n {
            self.keys.push(None);
            assert(self.cells() =~= was.cells().push(batch::CellView::Null));
        }
    }
}

// ----------------------------------------------------------- a field's column

/// A field's column.
#[derive(Debug, Clone)]
struct FieldCol {
    name: String,
    kind: FieldKind,
    cells: Vec<Cell>,
}

fn kind_of_value(v: &FieldValue) -> (r: FieldKind)
    ensures
        r == kind_of(v@),
{
    match v {
        FieldValue::Float(_) => FieldKind::F64,
        FieldValue::Int(_) => FieldKind::I64,
        FieldValue::UInt(_) => FieldKind::U64,
        FieldValue::Bool(_) => FieldKind::Bool,
        FieldValue::Str(_) => FieldKind::Str,
    }
}

fn accepts(k: FieldKind, v: &FieldValue) -> (r: bool)
    ensures
        r == takes(k, v@),
{
    match (k, v) {
        (FieldKind::F64, FieldValue::Float(_)) => true,
        (FieldKind::F64, FieldValue::Int(_)) => true,
        (FieldKind::F64, FieldValue::UInt(_)) => true,
        (FieldKind::I64, FieldValue::Int(_)) => true,
        (FieldKind::U64, FieldValue::UInt(_)) => true,
        (FieldKind::Bool, FieldValue::Bool(_)) => true,
        (FieldKind::Str, FieldValue::Str(_)) => true,
        _ => false,
    }
}

fn promote(k: FieldKind, v: &FieldValue) -> (r: Cell)
    ensures
        r@ == promoted(k, v@),
{
    match (k, v) {
        (FieldKind::F64, FieldValue::Int(n)) => Cell::Float(Float::Numeral(text::show_signed(*n))),
        (FieldKind::F64, FieldValue::UInt(n)) => Cell::Float(Float::Numeral(text::show(*n))),
        _ => batch::to_cell(v),
    }
}

impl TypeConflict {
    /// The conflict as a message. `number` is how a float reads; it is not
    /// looked at where the value is none.
    pub fn message(&self, number: &str) -> (r: String)
        ensures
            r@ == conflict_text(self@, number@),
    {
        let mut s = String::from_str("field '");
        s.append(self.column.as_str());
        s.append("' type conflict: column was created with a different type than ");
        let ghost lead = s@;
        match &self.value {
            FieldValue::Float(_) => {
                s.append("Float(");
                s.append(number);
                s.append(")");
            },
            FieldValue::Int(n) => {
                s.append("Int(");
                s.append(text::show_signed(*n).as_str());
                s.append(")");
            },
            FieldValue::UInt(n) => {
                s.append("UInt(");
                s.append(text::show(*n).as_str());
                s.append(")");
            },
            FieldValue::Bool(b) => {
                if *b {
                    s.append("Bool(true)");
                } else {
                    s.append("Bool(false)");
                }
            },
            FieldValue::Str(t) => {
                s.append("Str(");
                s.append(text::quote(t.as_str()).as_str());
                s.append(")");
            },
        }
        assert(s@ =~= lead + shown(self.value@, number@));
        s
    }
}

impl FieldCol {
    spec fn model(self) -> FieldColView {
        FieldColView {
            name: self.name@,
            kind: self.kind,
            cells: batch::cell_views(self.cells@),
        }
    }

    /// A column of `n` rows without a value.
    fn new(name: &str, kind: FieldKind, n: usize) -> (r: FieldCol)
        ensures
            r.model() == (FieldColView { name: name@, kind, cells: nulls(n as nat) }),
    {
        let mut cells: Vec<Cell> = Vec::new();
        let mut i: usize = 0;
        while i < n
            invariant
                i <= n,
                cells@.len() == i,
                forall|r: int| 0 <= r < i ==> (#[trigger] cells@[r])@ == batch::CellView::Null,
            decreases n - i,
        {
            cells.push(Cell::Null);
            i += 1;
        }
        let r = FieldCol { name: name.to_owned(), kind, cells };
        assert(batch::cell_views(r.cells@) =~= nulls(n as nat));
        r
    }

    /// Puts a value into row `n`, in place of one that stands there.
    fn put(&mut self, n: usize, v: &FieldValue)
        requires
            n <= old(self).cells@.len(),
        ensures
            final(self).model() == (FieldColView {
                name: old(self).model().name,
                kind: old(self).kind,
                cells: old(self).model().cells.take(n as int).push(promoted(old(self).kind, v@)),
            }),
    {
        let ghost was = *self;
        let c = promote(self.kind, v);
        self.cells.truncate(n);
        self.cells.push(c);
        assert(batch::cell_views(self.cells@) =~= was.model().cells.take(n as int).push(c@));
    }

    /// Fills the column up to `n` rows where it is one short.
    fn pad(&mut self, n: usize)
        requires
            old(self).cells@.len() == n || old(self).cells@.len() + 1 == n,
        ensures
            final(self).model() == (FieldColView {
                name: old(self).model().name,
                kind: old(self).kind,
                cells: if old(self).model().cells.len() < n {
                    old(self).model().cells.push(batch::CellView::Null)
                } else {
                    old(self).model().cells
                },
            }),
    {
        let ghost was = *self;
        if self.cells.len() < n {
            self.cells.push(Cell::Null);
            assert(batch::cell_views(self.cells@) =~= was.model().cells.push(
                batch::CellView::Null,
            ));
        }
    }
}

// ----------------------------------------------------------------- the buffer

/// One table's buffer.
#[derive(Debug, Clone)]
pub struct TableBuffer {
    times: Vec<i64>,
    tags: Vec<TagCol>,
    fields: Vec<FieldCol>,
    first_write_secs: Option<u64>,
}

spec fn tag_models(v: Seq<TagCol>) -> Seq<TagView> {
    v.map_values(|c: TagCol| c.model())
}

spec fn field_models(v: Seq<FieldCol>) -> Seq<FieldColView> {
    v.map_values(|c: FieldCol| c.model())
}

impl BufferView {
    /// Every column has one cell per row, no two tags and no two fields have
    /// one name, no dictionary holds a value twice, and each field's cells are
    /// of its type.
    pub open spec fn aligned(self) -> bool {
        &&& tag_names(self.tags).no_duplicates()
        &&& field_names(self.fields).no_duplicates()
        &&& forall|c: int|
            0 <= c < self.tags.len() ==> (#[trigger] self.tags[c]).cells.len() == self.times.len()
        &&& forall|c: int|
            0 <= c < self.fields.len() ==> (#[trigger] self.fields[c]).cells.len()
                == self.times.len()
        &&& forall|c: int|
            0 <= c < self.tags.len() ==> (#[trigger] self.tags[c]).dictionary.no_duplicates()
        &&& forall|c: int, r: int|
            0 <= c < self.tags.len() && 0 <= r < self.times.len() ==> batch::fits(
                batch::tag_type(),
                #[trigger] self.tags[c].cells[r],
            )
        &&& forall|c: int, r: int|
            0 <= c < self.fields.len() && 0 <= r < self.times.len() ==> batch::fits(
                type_of(self.fields[c].kind),
                #[trigger] self.fields[c].cells[r],
            )
    }
}

impl View for TableBuffer {
    type V = BufferView;

    closed spec fn view(&self) -> BufferView {
        BufferView {
            times: self.times@,
            tags: tag_models(self.tags@),
            fields: field_models(self.fields@),
        }
    }
}

/// The tag columns after a part of a line's tags: a row more where a tag of
/// that part names the column.
spec fn tags_after(b: BufferView, tags: Seq<(Seq<char>, Seq<char>)>) -> Seq<TagView> {
    let names = added(tag_names(b.tags), tags);
    Seq::new(
        names.len(),
        |c: int|
            TagView {
                name: names[c],
                dictionary: interned_all(tag_dictionary(b, c), tags, names[c]),
                cells: match last_of(tags, names[c]) {
                    Some(v) => tag_base(b, c).push(batch::CellView::Str(v)),
                    None => tag_base(b, c),
                },
            },
    )
}

/// The field columns after a part of a line's fields.
spec fn fields_after(
    b: BufferView,
    fields: Seq<(Seq<char>, ingest::FieldView)>,
) -> Seq<FieldColView> {
    let names = added(field_names(b.fields), fields);
    Seq::new(
        names.len(),
        |c: int|
            {
                let kind = field_kind(b, fields, c, names[c]);
                FieldColView {
                    name: names[c],
                    kind,
                    cells: match last_of(fields, names[c]) {
                        Some(v) => field_base(b, c).push(promoted(kind, v)),
                        None => field_base(b, c),
                    },
                }
            },
    )
}

proof fn lemma_tag_step(
    b: BufferView,
    tags: Seq<(Seq<char>, Seq<char>)>,
    k: Seq<char>,
    v: Seq<char>,
)
    requires
        b.aligned(),
    ensures
        ({
            let n = b.times.len() as int;
            let p = tags_after(b, tags);
            let q = tags_after(b, tags.push((k, v)));
            let names = added(tag_names(b.tags), tags);
            &&& tag_names(p) == names
            &&& names.no_duplicates()
            &&& forall|c: int| 0 <= c < p.len() ==> n <= (#[trigger] p[c]).cells.len() <= n + 1
            &&& forall|c: int|
                0 <= c < p.len() && (#[trigger] p[c]).name == k ==> q == p.update(
                    c,
                    TagView {
                        name: k,
                        dictionary: interned(p[c].dictionary, v),
                        cells: p[c].cells.take(n).push(batch::CellView::Str(v)),
                    },
                )
            &&& !names.contains(k) ==> q == p.push(
                TagView {
                    name: k,
                    dictionary: interned(Seq::empty(), v),
                    cells: nulls(n as nat).push(batch::CellView::Str(v)),
                },
            )
        }),
{
    let n = b.times.len() as int;
    let p = tags_after(b, tags);
    let more = tags.push((k, v));
    let q = tags_after(b, more);
    let names = added(tag_names(b.tags), tags);
    lemma_added(tag_names(b.tags), tags);
    assert(more.drop_last() =~= tags);
    assert(tag_names(p) =~= names);
    assert forall|c: int| 0 <= c < p.len() implies n <= (#[trigger] p[c]).cells.len() <= n + 1
        && p[c].cells.take(n) == tag_base(b, c) by {
        if c < b.tags.len() {
            assert(b.tags[c].cells.len() == n);
        }
        assert(p[c].cells.take(n) =~= tag_base(b, c));
    }
    assert forall|c: int| 0 <= c < p.len() && (#[trigger] p[c]).name == k implies q == p.update(
        c,
        TagView {
            name: k,
            dictionary: interned(p[c].dictionary, v),
            cells: p[c].cells.take(n).push(batch::CellView::Str(v)),
        },
    ) by {
        assert(names[c] == k);
        assert(names.contains(k));
        let r = p.update(
            c,
            TagView {
                name: k,
                dictionary: interned(p[c].dictionary, v),
                cells: p[c].cells.take(n).push(batch::CellView::Str(v)),
            },
        );
        assert(q.len() == r.len());
        assert forall|d: int| 0 <= d < q.len() implies q[d] == r[d] by {
            if d == c {
                assert(q[d].cells =~= r[d].cells);
            } else {
                assert(names[d] != k);
            }
        }
        assert(q =~= r);
    }
    if !names.contains(k) {
        lemma_absent(tag_names(b.tags), tags, k);
        lemma_absent_dictionary(tag_names(b.tags), tags, k, Seq::empty());
        let r = p.push(
            TagView {
                name: k,
                dictionary: interned(Seq::empty(), v),
                cells: nulls(n as nat).push(batch::CellView::Str(v)),
            },
        );
        assert forall|d: int| 0 <= d < q.len() implies q[d] == r[d] by {
            if d < p.len() {
                assert(names[d] != k);
            }
        }
        assert(q =~= r);
    }
}

proof fn lemma_field_step(
    b: BufferView,
    fields: Seq<(Seq<char>, ingest::FieldView)>,
    k: Seq<char>,
    v: ingest::FieldView,
)
    requires
        b.aligned(),
    ensures
        ({
            let n = b.times.len() as int;
            let p = fields_after(b, fields);
            let q = fields_after(b, fields.push((k, v)));
            let names = added(field_names(b.fields), fields);
            &&& field_names(p) == names
            &&& names.no_duplicates()
            &&& forall|c: int| 0 <= c < p.len() ==> n <= (#[trigger] p[c]).cells.len() <= n + 1
            &&& forall|c: int|
                0 <= c < p.len() && (#[trigger] p[c]).name == k ==> q == p.update(
                    c,
                    FieldColView {
                        name: k,
                        kind: p[c].kind,
                        cells: p[c].cells.take(n).push(promoted(p[c].kind, v)),
                    },
                )
            &&& !names.contains(k) ==> q == p.push(
                FieldColView {
                    name: k,
                    kind: kind_of(v),
                    cells: nulls(n as nat).push(promoted(kind_of(v), v)),
                },
            )
        }),
{
    let n = b.times.len() as int;
    let p = fields_after(b, fields);
    let more = fields.push((k, v));
    let q = fields_after(b, more);
    let names = added(field_names(b.fields), fields);
    lemma_added(field_names(b.fields), fields);
    assert(more.drop_last() =~= fields);
    assert(field_names(p) =~= names);
    assert forall|c: int| 0 <= c < p.len() implies n <= (#[trigger] p[c]).cells.len() <= n + 1
        && p[c].cells.take(n) == field_base(b, c) by {
        if c < b.fields.len() {
            assert(b.fields[c].cells.len() == n);
        }
        assert(p[c].cells.take(n) =~= field_base(b, c));
    }
    assert forall|c: int| 0 <= c < p.len() implies #[trigger] field_kind(b, more, c, names[c])
        == field_kind(b, fields, c, names[c]) by {
        if c >= b.fields.len() {
            assert(first_of(fields, names[c]) is Some);
        }
    }
    assert forall|c: int| 0 <= c < p.len() && (#[trigger] p[c]).name == k implies q == p.update(
        c,
        FieldColView {
            name: k,
            kind: p[c].kind,
            cells: p[c].cells.take(n).push(promoted(p[c].kind, v)),
        },
    ) by {
        assert(names[c] == k);
        assert(names.contains(k));
        let r = p.update(
            c,
            FieldColView {
                name: k,
                kind: p[c].kind,
                cells: p[c].cells.take(n).push(promoted(p[c].kind, v)),
            },
        );
        assert(q.len() == r.len());
        assert forall|d: int| 0 <= d < q.len() implies q[d] == r[d] by {
            assert(field_kind(b, more, d, names[d]) == field_kind(b, fields, d, names[d]));
            if d == c {
                assert(q[d].cells =~= r[d].cells);
            } else {
                assert(names[d] != k);
            }
        }
        assert(q =~= r);
    }
    if !names.contains(k) {
        lemma_absent(field_names(b.fields), fields, k);
        let r = p.push(
            FieldColView {
                name: k,
                kind: kind_of(v),
                cells: nulls(n as nat).push(promoted(kind_of(v), v)),
            },
        );
        assert forall|d: int| 0 <= d < q.len() implies q[d] == r[d] by {
            if d < p.len() {
                assert(field_kind(b, more, d, names[d]) == field_kind(b, fields, d, names[d]));
                assert(names[d] != k);
            }
        }
        assert(q =~= r);
    }
}

proof fn lemma_interned_once(
    d: Seq<Seq<char>>,
    pairs: Seq<(Seq<char>, Seq<char>)>,
    k: Seq<char>,
)
    requires
        d.no_duplicates(),
    ensures
        interned_all(d, pairs, k).no_duplicates(),
    decreases pairs.len(),
{
    if pairs.len() > 0 {
        lemma_interned_once(d, pairs.drop_last(), k);
    }
}

/// Where no field of a line is refused, each column takes the value that the
/// line gives it.
proof fn lemma_accepted(
    b: BufferView,
    fields: Seq<(Seq<char>, ingest::FieldView)>,
    k: Seq<char>,
    c: int,
)
    requires
        b.aligned(),
        first_conflict(b, fields) is None,
        0 <= c < added(field_names(b.fields), fields).len(),
        added(field_names(b.fields), fields)[c] == k,
    ensures
        last_of(fields, k) matches Some(v) ==> takes(field_kind(b, fields, c, k), v),
    decreases fields.len(),
{
    let names = field_names(b.fields);
    lemma_added(names, fields);
    if fields.len() > 0 {
        let init = fields.drop_last();
        lemma_added(names, init);
        let before = added(names, init);
        let (l, v) = fields.last();
        if l == k {
            if c < names.len() {
                assert(names[c] == k);
                assert(names.index_of(k) == c);
            } else {
                assert(!names.contains(k)) by {
                    if names.contains(k) {
                        let j = choose|j: int| 0 <= j < names.len() && names[j] == k;
                        assert(added(names, fields)[j] == k);
                    }
                }
            }
        } else {
            assert(before.contains(l) || !before.contains(l));
            if c < before.len() {
                assert(before[c] == k);
                lemma_accepted(b, init, k, c);
                if c >= names.len() {
                    assert(first_of(init, before[c]) is Some);
                }
            }
        }
    }
}

/// A row that a buffer takes leaves its columns aligned.
pub proof fn appending_keeps_columns_aligned(b: BufferView, line: ingest::LineView)
    requires
        b.aligned(),
        first_conflict(b, line.fields) is None,
    ensures
        appended(b, line).aligned(),
{
    let a = appended(b, line);
    let tags = added(tag_names(b.tags), line.tags);
    let fields = added(field_names(b.fields), line.fields);
    lemma_added(tag_names(b.tags), line.tags);
    lemma_added(field_names(b.fields), line.fields);
    assert(tag_names(a.tags) =~= tags);
    assert(field_names(a.fields) =~= fields);
    assert forall|c: int| 0 <= c < a.tags.len() implies (
    #[trigger] a.tags[c]).dictionary.no_duplicates() by {
        lemma_interned_once(tag_dictionary(b, c), line.tags, tags[c]);
    }
    assert forall|c: int, r: int|
        0 <= c < a.tags.len() && 0 <= r < a.times.len() implies batch::fits(
        batch::tag_type(),
        #[trigger] a.tags[c].cells[r],
    ) by {
        if r < b.times.len() && c < b.tags.len() {
            assert(a.tags[c].cells[r] == b.tags[c].cells[r]);
        }
    }
    assert forall|c: int, r: int|
        0 <= c < a.fields.len() && 0 <= r < a.times.len() implies batch::fits(
        type_of(a.fields[c].kind),
        #[trigger] a.fields[c].cells[r],
    ) by {
        if r < b.times.len() {
            if c < b.fields.len() {
                assert(a.fields[c].cells[r] == b.fields[c].cells[r]);
            }
        } else {
            lemma_accepted(b, line.fields, fields[c], c);
        }
    }
}

/// Whether a row was appended, or refused and nothing changed.
pub open spec fn was_appended(
    before: BufferView,
    after: BufferView,
    line: ingest::LineView,
    taken: bool,
) -> bool {
    &&& taken <==> first_conflict(before, line.fields) is None
    &&& after == if taken {
        appended(before, line)
    } else {
        before
    }
}

impl TableBuffer {
    /// The columns are aligned and the dictionaries in order.
    pub closed spec fn wf(&self) -> bool {
        &&& self@.aligned()
        &&& forall|c: int| 0 <= c < self.tags@.len() ==> (#[trigger] self.tags@[c]).wf()
    }

    /// The columns of a buffer in order are aligned, as the laws about rows ask.
    pub proof fn in_order_is_aligned(&self)
        requires
            self.wf(),
        ensures
            self@.aligned(),
    {
    }

    /// An empty buffer, in which no row has landed yet.
    pub fn new() -> (r: TableBuffer)
        ensures
            r.wf(),
            r@ == (BufferView { times: Seq::empty(), tags: Seq::empty(), fields: Seq::empty() }),
            r.first_write() is None,
    {
        let r = TableBuffer {
            times: Vec::new(),
            tags: Vec::new(),
            fields: Vec::new(),
            first_write_secs: None,
        };
        assert(r@.tags =~= Seq::empty());
        assert(r@.fields =~= Seq::empty());
        r
    }

    /// How many rows the buffer holds.
    pub fn row_count(&self) -> (r: usize)
        ensures
            r == self@.times.len(),
    {
        self.times.len()
    }

    fn find_tag(&self, k: &str) -> (r: Option<usize>)
        ensures
            match r {
                Some(c) => c < self.tags@.len() && self.tags@[c as int].model().name == k@,
                None => !tag_names(tag_models(self.tags@)).contains(k@),
            },
    {
        let mut c: usize = 0;
        while c < self.tags.len()
            invariant
                c <= self.tags.len(),
                forall|d: int| 0 <= d < c ==> tag_names(tag_models(self.tags@))[d] != k@,
            decreases self.tags.len() - c,
        {
            if text::same(self.tags[c].name.as_str(), k) {
                return Some(c);
            }
            assert(tag_names(tag_models(self.tags@))[c as int] == self.tags@[c as int].name@);
            c += 1;
        }
        None
    }

    fn find_field(&self, k: &str) -> (r: Option<usize>)
        ensures
            match r {
                Some(c) => c < self.fields@.len() && self.fields@[c as int].model().name == k@,
                None => !field_names(field_models(self.fields@)).contains(k@),
            },
    {
        let mut c: usize = 0;
        while c < self.fields.len()
            invariant
                c <= self.fields.len(),
                forall|d: int| 0 <= d < c ==> field_names(field_models(self.fields@))[d] != k@,
            decreases self.fields.len() - c,
        {
            if text::same(self.fields[c].name.as_str(), k) {
                return Some(c);
            }
            assert(field_names(field_models(self.fields@))[c as int] == self.fields@[c as int].name@);
            c += 1;
        }
        None
    }

    /// The type that an earlier field of the same line would give the column.
    fn earlier(line: &ParsedLine, upto: usize, k: &str) -> (r: Option<FieldKind>)
        requires
            upto <= line.fields@.len(),
        ensures
            match (r, first_of(line@.fields.take(upto as int), k@)) {
                (Some(x), Some(v)) => x == kind_of(v),
                (None, None) => true,
                _ => false,
            },
    {
        let ghost all = line@.fields;
        let mut j: usize = 0;
        while j < upto
            invariant
                j <= upto <= line.fields@.len(),
                all == line@.fields,
                first_of(all.take(j as int), k@) is None,
            decreases upto - j,
        {
            proof {
                assert(all.take(j + 1).drop_last() =~= all.take(j as int));
            }
            if text::same(line.fields[j].0.as_str(), k) {
                proof {
                    lemma_first_stays(all.take(upto as int), j + 1, k@);
                    assert(all.take(upto as int).take(j + 1) =~= all.take(j + 1));
                }
                return Some(kind_of_value(&line.fields[j].1));
            }
            j += 1;
        }
        None
    }

    /// Which field of the line is refused, if one is.
    fn refusal(&self, line: &ParsedLine) -> (r: Option<TypeConflict>)
        requires
            self.wf(),
        ensures
            match (r, first_conflict(self@, line@.fields)) {
                (Some(m), Some(t)) => m@ == t,
                (None, None) => true,
                _ => false,
            },
    {
        let ghost all = line@.fields;
        let mut i: usize = 0;
        while i < line.fields.len()
            invariant
                i <= line.fields.len(),
                self.wf(),
                all == line@.fields,
                first_conflict(self@, all.take(i as int)) is None,
            decreases line.fields.len() - i,
        {
            let k = &line.fields[i].0;
            let v = &line.fields[i].1;
            proof {
                assert(all.take(i + 1).drop_last() =~= all.take(i as int));
                assert(all.take(i + 1).last() == (k@, v@));
                if first_conflict(self@, all.take(i + 1)) is Some {
                    lemma_conflict_stays(self@, all, i + 1);
                }
            }
            let lands: Option<FieldKind> = match self.find_field(k.as_str()) {
                Some(c) => {
                    proof {
                        let names = field_names(self@.fields);
                        assert(names[c as int] == k@);
                        assert(names.index_of(k@) == c);
                    }
                    Some(self.fields[c].kind)
                },
                None => TableBuffer::earlier(line, i, k.as_str()),
            };
            match lands {
                Some(kind) => {
                    if !accepts(kind, v) {
                        return Some(
                            TypeConflict { column: k.clone(), value: ingest::copy_value(v) },
                        );
                    }
                },
                None => {},
            }
            i += 1;
        }
        assert(all.take(all.len() as int) =~= all);
        None
    }
}

proof fn lemma_first_stays<V>(pairs: Seq<(Seq<char>, V)>, j: int, k: Seq<char>)
    requires
        0 <= j <= pairs.len(),
        first_of(pairs.take(j), k) is Some,
    ensures
        first_of(pairs, k) == first_of(pairs.take(j), k),
    decreases pairs.len(),
{
    if j == pairs.len() {
        assert(pairs.take(j) =~= pairs);
    } else {
        assert(pairs.drop_last().take(j) =~= pairs.take(j));
        lemma_first_stays(pairs.drop_last(), j, k);
    }
}

proof fn lemma_conflict_stays(
    b: BufferView,
    fields: Seq<(Seq<char>, ingest::FieldView)>,
    j: int,
)
    requires
        0 <= j <= fields.len(),
        first_conflict(b, fields.take(j)) is Some,
    ensures
        first_conflict(b, fields) == first_conflict(b, fields.take(j)),
    decreases fields.len(),
{
    if j == fields.len() {
        assert(fields.take(j) =~= fields);
    } else {
        assert(fields.drop_last().take(j) =~= fields.take(j));
        lemma_conflict_stays(b, fields.drop_last(), j);
    }
}

impl TableBuffer {
    /// Puts a line's tags into row `n` of their columns.
    fn put_tags(&mut self, line: &ParsedLine)
        requires
            old(self).wf(),
        ensures
            final(self).times == old(self).times,
            final(self).fields == old(self).fields,
            final(self).first_write_secs == old(self).first_write_secs,
            tag_models(final(self).tags@) == tags_after(old(self)@, line@.tags),
            forall|c: int| 0 <= c < final(self).tags@.len() ==> (
            #[trigger] final(self).tags@[c]).wf(),
    {
        let ghost b = self@;
        let ghost all = line@.tags;
        let n: usize = self.times.len();
        let mut i: usize = 0;
        proof {
            assert(all.take(0) =~= Seq::empty());
            assert(tags_after(b, Seq::empty()) =~= b.tags) by {
                assert forall|c: int| 0 <= c < b.tags.len() implies tags_after(
                    b,
                    Seq::empty(),
                )[c] == b.tags[c] by {
                    assert(tag_names(b.tags)[c] == b.tags[c].name);
                }
            }
        }
        while i < line.tags.len()
            invariant
                i <= line.tags.len(),
                b == old(self)@,
                b.aligned(),
                all == line@.tags,
                n == b.times.len(),
                self.times == old(self).times,
                self.fields == old(self).fields,
                self.first_write_secs == old(self).first_write_secs,
                tag_models(self.tags@) == tags_after(b, all.take(i as int)),
                forall|c: int| 0 <= c < self.tags@.len() ==> (#[trigger] self.tags@[c]).wf(),
            decreases line.tags.len() - i,
        {
            let k = &line.tags[i].0;
            let v = &line.tags[i].1;
            let ghost p = tag_models(self.tags@);
            proof {
                assert(all.take(i + 1) =~= all.take(i as int).push((k@, v@)));
                lemma_tag_step(b, all.take(i as int), k@, v@);
            }
            match self.find_tag(k.as_str()) {
                Some(c) => {
                    let ghost was = self.tags@;
                    assert(p[c as int] == was[c as int].model());
                    assert(was[c as int].cells().len() == was[c as int].keys@.len());
                    let col = &mut self.tags[c];
                    col.put(n, v.as_str());
                    assert(tag_models(self.tags@) =~= p.update(
                        c as int,
                        self.tags@[c as int].model(),
                    ));
                },
                None => {
                    let mut col = TagCol::new(k.as_str(), n);
                    assert(col.cells().len() == col.keys@.len());
                    col.put(n, v.as_str());
                    assert(nulls(n as nat).take(n as int) =~= nulls(n as nat));
                    self.tags.push(col);
                    assert(tag_models(self.tags@) =~= p.push(col.model()));
                },
            }
            i += 1;
        }
        assert(all.take(all.len() as int) =~= all);
    }

    /// Puts a line's fields into row `n` of their columns.
    fn put_fields(&mut self, line: &ParsedLine, n: usize, Ghost(b): Ghost<BufferView>)
        requires
            b.aligned(),
            n == b.times.len(),
            field_models(old(self).fields@) == b.fields,
        ensures
            final(self).times == old(self).times,
            final(self).tags == old(self).tags,
            final(self).first_write_secs == old(self).first_write_secs,
            field_models(final(self).fields@) == fields_after(b, line@.fields),
    {
        let ghost all = line@.fields;
        let mut i: usize = 0;
        proof {
            assert(all.take(0) =~= Seq::empty());
            assert(fields_after(b, Seq::empty()) =~= b.fields) by {
                assert forall|c: int| 0 <= c < b.fields.len() implies fields_after(
                    b,
                    Seq::empty(),
                )[c] == b.fields[c] by {
                    assert(field_names(b.fields)[c] == b.fields[c].name);
                }
            }
        }
        while i < line.fields.len()
            invariant
                i <= line.fields.len(),
                b.aligned(),
                all == line@.fields,
                n == b.times.len(),
                self.times == old(self).times,
                self.tags == old(self).tags,
                self.first_write_secs == old(self).first_write_secs,
                field_models(self.fields@) == fields_after(b, all.take(i as int)),
            decreases line.fields.len() - i,
        {
            let k = &line.fields[i].0;
            let v = &line.fields[i].1;
            let ghost p = field_models(self.fields@);
            proof {
                assert(all.take(i + 1) =~= all.take(i as int).push((k@, v@)));
                lemma_field_step(b, all.take(i as int), k@, v@);
            }
            match self.find_field(k.as_str()) {
                Some(c) => {
                    assert(p[c as int] == self.fields@[c as int].model());
                    let col = &mut self.fields[c];
                    col.put(n, v);
                    assert(field_models(self.fields@) =~= p.update(
                        c as int,
                        self.fields@[c as int].model(),
                    ));
                },
                None => {
                    let mut col = FieldCol::new(k.as_str(), kind_of_value(v), n);
                    assert(col.model().cells.len() == n);
                    col.put(n, v);
                    assert(nulls(n as nat).take(n as int) =~= nulls(n as nat));
                    self.fields.push(col);
                    assert(field_models(self.fields@) =~= p.push(col.model()));
                },
            }
            i += 1;
        }
        assert(all.take(all.len() as int) =~= all);
    }

    /// Fills up the columns that the last row did not name.
    fn pad_columns(&mut self, n: usize)
        requires
            forall|c: int|
                0 <= c < old(self).tags@.len() ==> (#[trigger] old(self).tags@[c]).wf() && n - 1
                    <= old(self).tags@[c].keys@.len() <= n,
            forall|c: int|
                0 <= c < old(self).fields@.len() ==> n - 1 <= (
                #[trigger] old(self).fields@[c]).cells@.len() <= n,
        ensures
            final(self).times == old(self).times,
            final(self).first_write_secs == old(self).first_write_secs,
            forall|c: int| 0 <= c < final(self).tags@.len() ==> (
            #[trigger] final(self).tags@[c]).wf(),
            final(self).tags@.len() == old(self).tags@.len(),
            final(self).fields@.len() == old(self).fields@.len(),
            forall|c: int|
                0 <= c < final(self).tags@.len() ==> (#[trigger] final(self).tags@[c]).model() == ({
                    let was = old(self).tags@[c].model();
                    TagView {
                        name: was.name,
                        dictionary: was.dictionary,
                        cells: if was.cells.len() < n {
                            was.cells.push(batch::CellView::Null)
                        } else {
                            was.cells
                        },
                    }
                }),
            forall|c: int|
                0 <= c < final(self).fields@.len() ==> (#[trigger] final(self).fields@[c]).model()
                    == ({
                    let was = old(self).fields@[c].model();
                    FieldColView {
                        name: was.name,
                        kind: was.kind,
                        cells: if was.cells.len() < n {
                            was.cells.push(batch::CellView::Null)
                        } else {
                            was.cells
                        },
                    }
                }),
    {
        let ghost tags = self.tags@;
        let ghost fields = self.fields@;
        let mut c: usize = 0;
        while c < self.tags.len()
            invariant
                c <= self.tags@.len(),
                self.tags@.len() == tags.len(),
                self.fields@ == fields,
                tags == old(self).tags@,
                self.times == old(self).times,
                self.first_write_secs == old(self).first_write_secs,
                forall|d: int|
                    0 <= d < tags.len() ==> (#[trigger] tags[d]).wf() && n - 1
                        <= tags[d].keys@.len() <= n,
                forall|d: int| c <= d < tags.len() ==> (#[trigger] self.tags@[d]) == tags[d],
                forall|d: int|
                    0 <= d < c ==> (#[trigger] self.tags@[d]).wf() && self.tags@[d].model() == ({
                        let was = tags[d].model();
                        TagView {
                            name: was.name,
                            dictionary: was.dictionary,
                            cells: if was.cells.len() < n {
                                was.cells.push(batch::CellView::Null)
                            } else {
                                was.cells
                            },
                        }
                    }),
            decreases self.tags@.len() - c,
        {
            assert(tags[c as int].wf());
            assert(self.tags@[c as int] == tags[c as int]);
            let col = &mut self.tags[c];
            col.pad(n);
            c += 1;
        }
        let ghost padded = self.tags@;
        let mut c: usize = 0;
        while c < self.fields.len()
            invariant
                c <= self.fields@.len(),
                self.fields@.len() == fields.len(),
                self.tags@ == padded,
                fields == old(self).fields@,
                self.times == old(self).times,
                self.first_write_secs == old(self).first_write_secs,
                forall|d: int|
                    0 <= d < fields.len() ==> n - 1 <= (#[trigger] fields[d]).cells@.len() <= n,
                forall|d: int| c <= d < fields.len() ==> (#[trigger] self.fields@[d]) == fields[d],
                forall|d: int|
                    0 <= d < c ==> (#[trigger] self.fields@[d]).model() == ({
                        let was = fields[d].model();
                        FieldColView {
                            name: was.name,
                            kind: was.kind,
                            cells: if was.cells.len() < n {
                                was.cells.push(batch::CellView::Null)
                            } else {
                                was.cells
                            },
                        }
                    }),
            decreases self.fields@.len() - c,
        {
            assert(self.fields@[c as int] == fields[c as int]);
            assert(n - 1 <= fields[c as int].cells@.len() <= n);
            let col = &mut self.fields[c];
            col.pad(n);
            c += 1;
        }
    }

    /// Appends one row, at a time of some clock in seconds: the first row that
    /// lands starts the buffer's age. A line with a field that its column does
    /// not take is refused whole, and leaves the buffer as it was.
    pub fn append(&mut self, line: &ParsedLine, now_secs: u64) -> (r: Result<(), TypeConflict>)
        requires
            old(self).wf(),
            old(self)@.times.len() < usize::MAX,
        ensures
            final(self).wf(),
            match (r, first_conflict(old(self)@, line@.fields)) {
                (Ok(_), None) => final(self)@ == appended(old(self)@, line@),
                (Err(m), Some(t)) => m@ == t && *final(self) == *old(self),
                _ => false,
            },
            was_appended(old(self)@, final(self)@, line@, r is Ok),
            r is Ok ==> final(self).first_write() == (if old(self).first_write() is Some {
                old(self).first_write()
            } else {
                Some(now_secs)
            }),
    {
        match self.refusal(line) {
            Some(m) => {
                return Err(m);
            },
            None => {},
        }
        let ghost b = self@;
        let ghost tags = line@.tags;
        let ghost fields = line@.fields;
        if self.first_write_secs.is_none() {
            self.first_write_secs = Some(now_secs);
        }
        let n: usize = self.times.len();
        self.put_tags(line);
        self.put_fields(line, n, Ghost(b));
        self.times.push(line.timestamp_ns);
        proof {
            lemma_tag_step(b, tags, Seq::empty(), Seq::empty());
            lemma_field_step(b, fields, Seq::empty(), ingest::FieldView::Bool(true));
            assert forall|c: int| 0 <= c < self.tags@.len() implies (#[trigger] self.tags@[c]).wf()
                && n <= self.tags@[c].keys@.len() <= n + 1 by {
                assert(tag_models(self.tags@)[c] == self.tags@[c].model());
                assert(self.tags@[c].cells().len() == self.tags@[c].keys@.len());
            }
            assert forall|c: int| 0 <= c < self.fields@.len() implies n <= (
            #[trigger] self.fields@[c]).cells@.len() <= n + 1 by {
                assert(field_models(self.fields@)[c] == self.fields@[c].model());
            }
        }
        let ghost mid_tags = self.tags@;
        let ghost mid_fields = self.fields@;
        self.pad_columns(n + 1);
        proof {
            let a = appended(b, line@);
            lemma_added(tag_names(b.tags), tags);
            lemma_added(field_names(b.fields), fields);
            assert forall|c: int| 0 <= c < a.tags.len() implies tag_models(self.tags@)[c]
                == a.tags[c] by {
                let was = mid_tags[c].model();
                assert(tag_models(mid_tags)[c] == was);
                assert(was == tags_after(b, tags)[c]);
                assert(self.tags@[c].model().cells =~= a.tags[c].cells);
            }
            assert(self@.tags =~= a.tags);
            assert forall|c: int| 0 <= c < a.fields.len() implies field_models(self.fields@)[c]
                == a.fields[c] by {
                let was = mid_fields[c].model();
                assert(field_models(mid_fields)[c] == was);
                assert(was == fields_after(b, fields)[c]);
                assert(self.fields@[c].model().cells =~= a.fields[c].cells);
            }
            assert(self@.fields =~= a.fields);
            assert(self@.times =~= a.times);
            appending_keeps_columns_aligned(b, line@);
        }
        Ok(())
    }

    /// When the first row landed, in seconds of some clock.
    pub closed spec fn first_write(&self) -> Option<u64> {
        self.first_write_secs
    }

    /// Seconds since the first row landed, by the same clock; none before it.
    pub fn age_secs(&self, now_secs: u64) -> (r: u64)
        ensures
            r == (match self.first_write() {
                Some(t) => if now_secs >= t {
                    (now_secs - t) as u64
                } else {
                    0
                },
                None => 0,
            }),
    {
        match self.first_write_secs {
            Some(t) => now_secs.saturating_sub(t),
            None => 0,
        }
    }
}

// ------------------------------------------------------------------ snapshots

/// The field of the time column.
pub open spec fn time_field() -> batch::FieldDesc {
    batch::plain_field("time"@, batch::TypeView::TimeNs(Some("+00:00"@)), false)
}

/// The column of a tag.
pub open spec fn tag_column(t: TagView) -> batch::ColumnView {
    batch::ColumnView {
        field: batch::plain_field(t.name, batch::tag_type(), true),
        dictionary: t.dictionary,
        cells: t.cells,
    }
}

/// The column of a field.
pub open spec fn field_column(f: FieldColView) -> batch::ColumnView {
    batch::ColumnView {
        field: batch::plain_field(f.name, type_of(f.kind), true),
        dictionary: Seq::empty(),
        cells: f.cells,
    }
}

/// The time column.
pub open spec fn time_column(times: Seq<i64>) -> batch::ColumnView {
    batch::ColumnView {
        field: time_field(),
        dictionary: Seq::empty(),
        cells: times.map_values(|t: i64| batch::CellView::Time(t)),
    }
}

/// The rows of a buffer as one batch: the times, then the tags, then the
/// fields, each in the order of its first row.
pub open spec fn snapshot_of(b: BufferView) -> batch::BatchView {
    batch::BatchView {
        columns: seq![time_column(b.times)] + b.tags.map_values(|t: TagView| tag_column(t))
            + b.fields.map_values(|f: FieldColView| field_column(f)),
        rows: b.times.len(),
    }
}

/// A snapshot of aligned columns is a well-formed batch.
pub proof fn snapshots_are_well_formed(b: BufferView)
    requires
        b.aligned(),
    ensures
        snapshot_of(b).well_formed(),
{
    let s = snapshot_of(b);
    assert forall|c: int| 0 <= c < s.columns.len() implies {
        &&& (#[trigger] s.columns[c]).cells.len() == s.rows
        &&& forall|r: int|
            0 <= r < s.rows ==> batch::fits(
                s.columns[c].field.data_type,
                #[trigger] s.columns[c].cells[r],
            )
    } by {
        let t = c - 1;
        let f = c - 1 - b.tags.len();
        if c == 0 {
            assert(s.columns[c] == time_column(b.times));
        } else if t < b.tags.len() {
            assert(s.columns[c] == tag_column(b.tags[t]));
            assert forall|r: int| 0 <= r < s.rows implies batch::fits(
                s.columns[c].field.data_type,
                #[trigger] s.columns[c].cells[r],
            ) by {
                assert(batch::fits(batch::tag_type(), b.tags[t].cells[r]));
            }
        } else {
            assert(s.columns[c] == field_column(b.fields[f]));
            assert forall|r: int| 0 <= r < s.rows implies batch::fits(
                s.columns[c].field.data_type,
                #[trigger] s.columns[c].cells[r],
            ) by {
                assert(batch::fits(type_of(b.fields[f].kind), b.fields[f].cells[r]));
            }
        }
    }
}

/// A row reads back. Where it is taken, there is one row more in every column
/// of a snapshot; each tag and each field has there the last value that the
/// line gives it, and nothing where it gives none; every column that there was
/// keeps its name, its type and its rows, and a column that the line makes has
/// nothing in them. Where it is refused, the count of the rows, the schema and
/// the snapshot are what they were.
pub proof fn a_row_reads_back(
    before: BufferView,
    after: BufferView,
    line: ingest::LineView,
    taken: bool,
)
    requires
        before.aligned(),
        was_appended(before, after, line, taken),
    ensures
        !taken ==> after.times.len() == before.times.len() && snapshot_of(after) == snapshot_of(
            before,
        ) && snapshot_of(after).schema() == snapshot_of(before).schema(),
        taken ==> {
            let n = before.times.len();
            let old_tags = before.tags.len();
            let new_tags = after.tags.len();
            let was = snapshot_of(before);
            let now = snapshot_of(after);
            &&& after.times.len() == n + 1
            &&& now.rows == n + 1
            &&& old_tags <= new_tags
            &&& forall|c: int|
                0 <= c < now.columns.len() ==> (#[trigger] now.columns[c]).cells.len() == n + 1
            &&& now.columns[0].cells == was.columns[0].cells.push(
                batch::CellView::Time(line.timestamp_ns),
            )
            &&& forall|c: int|
                1 <= c <= new_tags ==> {
                    let col = #[trigger] now.columns[c];
                    &&& col.cells == (if c <= old_tags {
                        was.columns[c].cells
                    } else {
                        nulls(n)
                    }).push(tag_cell(line.tags, col.field.name))
                    &&& c <= old_tags ==> col.field == was.columns[c].field
                }
            &&& forall|f: int|
                0 <= f < after.fields.len() ==> {
                    let col = #[trigger] field_column(after.fields[f]);
                    &&& now.columns[1 + new_tags + f] == col
                    &&& col.cells == (if f < before.fields.len() {
                        was.columns[1 + old_tags + f].cells
                    } else {
                        nulls(n)
                    }).push(field_cell(after.fields[f].kind, line.fields, col.field.name))
                    &&& f < before.fields.len() ==> col.field == was.columns[1 + old_tags + f].field
                }
        },
{
    if taken {
        let n = before.times.len();
        let was = snapshot_of(before);
        let now = snapshot_of(after);
        let tags = added(tag_names(before.tags), line.tags);
        let fields = added(field_names(before.fields), line.fields);
        lemma_added(tag_names(before.tags), line.tags);
        lemma_added(field_names(before.fields), line.fields);
        appending_keeps_columns_aligned(before, line);
        snapshots_are_well_formed(after);
        assert(now.columns[0] == time_column(after.times));
        assert(was.columns[0] == time_column(before.times));
        assert(now.columns[0].cells =~= was.columns[0].cells.push(
            batch::CellView::Time(line.timestamp_ns),
        ));
        assert forall|c: int| 1 <= c <= after.tags.len() implies {
            let col = #[trigger] now.columns[c];
            &&& col.cells == (if c <= before.tags.len() {
                was.columns[c].cells
            } else {
                nulls(n)
            }).push(tag_cell(line.tags, col.field.name))
            &&& c <= before.tags.len() ==> col.field == was.columns[c].field
        } by {
            assert(now.columns[c] == tag_column(after.tags[c - 1]));
            if c <= before.tags.len() {
                assert(was.columns[c] == tag_column(before.tags[c - 1]));
                assert(tag_names(before.tags)[c - 1] == before.tags[c - 1].name);
            }
        }
        assert forall|f: int| 0 <= f < after.fields.len() implies {
            let col = #[trigger] field_column(after.fields[f]);
            &&& now.columns[1 + after.tags.len() + f] == col
            &&& col.cells == (if f < before.fields.len() {
                was.columns[1 + before.tags.len() + f].cells
            } else {
                nulls(n)
            }).push(field_cell(after.fields[f].kind, line.fields, col.field.name))
            &&& f < before.fields.len() ==> col.field == was.columns[1 + before.tags.len()
                + f].field
        } by {
            if f < before.fields.len() {
                assert(was.columns[1 + before.tags.len() + f] == field_column(before.fields[f]));
                assert(field_names(before.fields)[f] == before.fields[f].name);
            }
        }
    }
}

/// Whether the pair at `i` is the last that gives its key a value.
pub open spec fn is_last<V>(pairs: Seq<(Seq<char>, V)>, i: int) -> bool {
    &&& 0 <= i < pairs.len()
    &&& forall|j: int| i < j < pairs.len() ==> (#[trigger] pairs[j]).0 != pairs[i].0
}

/// Whether the pair at `i` is the first that gives its key a value.
pub open spec fn is_first<V>(pairs: Seq<(Seq<char>, V)>, i: int) -> bool {
    &&& 0 <= i < pairs.len()
    &&& forall|j: int| 0 <= j < i ==> (#[trigger] pairs[j]).0 != pairs[i].0
}

/// Whether any pair gives a key a value.
pub open spec fn names<V>(pairs: Seq<(Seq<char>, V)>, k: Seq<char>) -> bool {
    exists|i: int| 0 <= i < pairs.len() && (#[trigger] pairs[i]).0 == k
}

proof fn lemma_last_of<V>(pairs: Seq<(Seq<char>, V)>, k: Seq<char>)
    ensures
        last_of(pairs, k) is Some <==> names(pairs, k),
        first_of(pairs, k) is Some <==> names(pairs, k),
        forall|i: int|
            #[trigger] is_last(pairs, i) && pairs[i].0 == k ==> last_of(pairs, k) == Some(
                pairs[i].1,
            ),
        forall|i: int|
            #[trigger] is_first(pairs, i) && pairs[i].0 == k ==> first_of(pairs, k) == Some(
                pairs[i].1,
            ),
    decreases pairs.len(),
{
    if pairs.len() > 0 {
        let init = pairs.drop_last();
        let end = pairs.len() - 1;
        lemma_last_of(init, k);
        if names(pairs, k) && pairs[end].0 != k {
            let i = choose|i: int| 0 <= i < pairs.len() && (#[trigger] pairs[i]).0 == k;
            assert(init[i].0 == k);
        }
        if names(init, k) {
            let i = choose|i: int| 0 <= i < init.len() && (#[trigger] init[i]).0 == k;
            assert(pairs[i].0 == k);
        }
        if pairs[end].0 == k {
            assert(names(pairs, k));
        }
        assert forall|i: int| #[trigger] is_last(pairs, i) && pairs[i].0 == k implies last_of(
            pairs,
            k,
        ) == Some(pairs[i].1) by {
            if i < end {
                assert(pairs[end].0 != k);
                assert forall|j: int| i < j < init.len() implies (#[trigger] init[j]).0
                    != init[i].0 by {
                    assert(pairs[j].0 != pairs[i].0);
                }
                assert(is_last(init, i));
            }
        }
        assert forall|i: int| #[trigger] is_first(pairs, i) && pairs[i].0 == k implies first_of(
            pairs,
            k,
        ) == Some(pairs[i].1) by {
            if i < end {
                assert forall|j: int| 0 <= j < i implies (#[trigger] init[j]).0 != init[i].0 by {
                    assert(pairs[j].0 != pairs[i].0);
                }
                assert(is_first(init, i));
            } else if names(init, k) {
                let j = choose|j: int| 0 <= j < init.len() && (#[trigger] init[j]).0 == k;
                assert(pairs[j].0 == k);
            }
        }
    }
}

/// Whether a cell holds a value: the value itself, or, of an integer, a float
/// whose numeral spells the integer.
pub open spec fn tells(cell: batch::CellView, v: ingest::FieldView) -> bool {
    match v {
        ingest::FieldView::Float(f) => cell == batch::CellView::Float(f),
        ingest::FieldView::Int(n) => cell == batch::CellView::Int(n) || (cell matches
            batch::CellView::Float(ingest::FloatView::Numeral(t)) && text::signed_of(t) == Some(
            n as int,
        )),
        ingest::FieldView::UInt(n) => cell == batch::CellView::UInt(n) || (cell matches
            batch::CellView::Float(ingest::FloatView::Numeral(t)) && text::unsigned_of(
            t,
            u64::MAX as nat,
        ) == Some(n as nat)),
        ingest::FieldView::Bool(b) => cell == batch::CellView::Bool(b),
        ingest::FieldView::Str(s) => cell == batch::CellView::Str(s),
    }
}

/// Whether a cell that is not empty is one of a column's type.
pub open spec fn of_kind(cell: batch::CellView, k: FieldKind) -> bool {
    match k {
        FieldKind::F64 => cell is Float,
        FieldKind::I64 => cell is Int,
        FieldKind::U64 => cell is UInt,
        FieldKind::Bool => cell is Bool,
        FieldKind::Str => cell is Str,
    }
}

/// A value that is taken reads back as the same value. In the row of a line,
/// the column of each field that the line names has a cell of the column's
/// type that tells the last value of that field, and an integer in a float
/// column is a float whose numeral spells it; the column of each tag that the
/// line names has the last value of that tag; and a cell is empty exactly where
/// the line does not name the column.
pub proof fn a_taken_value_reads_back_as_itself(
    before: BufferView,
    after: BufferView,
    line: ingest::LineView,
)
    requires
        before.aligned(),
        was_appended(before, after, line, true),
    ensures
        after.times == before.times.push(line.timestamp_ns),
        forall|i: int|
            #[trigger] is_last(line.fields, i) ==> exists|c: int|
                0 <= c < after.fields.len() && (#[trigger] after.fields[c]).name
                    == line.fields[i].0 && tells(after.fields[c].cells.last(), line.fields[i].1)
                    && of_kind(after.fields[c].cells.last(), after.fields[c].kind),
        forall|c: int|
            0 <= c < after.fields.len() ==> ((#[trigger] after.fields[c]).cells.last() is Null
                <==> !names(line.fields, after.fields[c].name)),
        forall|i: int|
            #[trigger] is_last(line.tags, i) ==> exists|c: int|
                0 <= c < after.tags.len() && (#[trigger] after.tags[c]).name == line.tags[i].0
                    && after.tags[c].cells.last() == batch::CellView::Str(line.tags[i].1),
        forall|c: int|
            0 <= c < after.tags.len() ==> ((#[trigger] after.tags[c]).cells.last() is Null
                <==> !names(line.tags, after.tags[c].name)),
        field_names(after.fields).no_duplicates(),
        tag_names(after.tags).no_duplicates(),
{
    let fields = added(field_names(before.fields), line.fields);
    let tags = added(tag_names(before.tags), line.tags);
    lemma_added(field_names(before.fields), line.fields);
    lemma_added(tag_names(before.tags), line.tags);
    assert(field_names(after.fields) =~= fields);
    assert(tag_names(after.tags) =~= tags);
    assert forall|c: int| 0 <= c < after.fields.len() implies ((
    #[trigger] after.fields[c]).cells.last() is Null <==> !names(
        line.fields,
        after.fields[c].name,
    )) by {
        lemma_last_of(line.fields, fields[c]);
    }
    assert forall|c: int| 0 <= c < after.tags.len() implies ((
    #[trigger] after.tags[c]).cells.last() is Null <==> !names(line.tags, after.tags[c].name)) by {
        lemma_last_of(line.tags, tags[c]);
    }
    assert forall|i: int| #[trigger] is_last(line.fields, i) implies exists|c: int|
        0 <= c < after.fields.len() && (#[trigger] after.fields[c]).name == line.fields[i].0
            && tells(after.fields[c].cells.last(), line.fields[i].1) && of_kind(
            after.fields[c].cells.last(),
            after.fields[c].kind,
        ) by {
        let (k, v) = line.fields[i];
        assert(fields.contains(k));
        let c = choose|c: int| 0 <= c < fields.len() && fields[c] == k;
        lemma_last_of(line.fields, k);
        lemma_accepted(before, line.fields, k, c);
        assert(after.fields[c].cells.last() == promoted(after.fields[c].kind, v));
        if let ingest::FieldView::Int(n) = v {
            text::signed_numerals_read_back(n);
        }
        if let ingest::FieldView::UInt(n) = v {
            text::unsigned_numerals_read_back(n as nat, u64::MAX as nat);
        }
        assert(after.fields[c].name == k);
    }
    assert forall|i: int| #[trigger] is_last(line.tags, i) implies exists|c: int|
        0 <= c < after.tags.len() && (#[trigger] after.tags[c]).name == line.tags[i].0
            && after.tags[c].cells.last() == batch::CellView::Str(line.tags[i].1) by {
        let k = line.tags[i].0;
        assert(tags.contains(k));
        let c = choose|c: int| 0 <= c < tags.len() && tags[c] == k;
        lemma_last_of(line.tags, k);
        assert(after.tags[c].name == k);
    }
}

/// Whether a value is one of a column's type.
pub open spec fn of_type(v: ingest::FieldView, k: FieldKind) -> bool {
    match k {
        FieldKind::F64 => v is Float,
        FieldKind::I64 => v is Int,
        FieldKind::U64 => v is UInt,
        FieldKind::Bool => v is Bool,
        FieldKind::Str => v is Str,
    }
}

/// A line makes a column for each field that the buffer lacks, of the type of
/// the first value that the line gives it; a column that there is keeps its
/// type and its rows, whatever the line holds, and a column that is made has
/// nothing in them.
pub proof fn the_first_value_fixes_the_type(
    before: BufferView,
    after: BufferView,
    line: ingest::LineView,
)
    requires
        before.aligned(),
        was_appended(before, after, line, true),
    ensures
        before.fields.len() <= after.fields.len(),
        forall|c: int|
            0 <= c < before.fields.len() ==> {
                let f = #[trigger] after.fields[c];
                &&& f.name == before.fields[c].name
                &&& f.kind == before.fields[c].kind
                &&& f.cells.drop_last() == before.fields[c].cells
            },
        forall|c: int|
            before.fields.len() <= c < after.fields.len() ==> {
                let f = #[trigger] after.fields[c];
                &&& f.cells.len() == before.times.len() + 1
                &&& forall|r: int| 0 <= r < before.times.len() ==> (#[trigger] f.cells[r]) is Null
                &&& exists|i: int|
                    #[trigger] is_first(line.fields, i) && line.fields[i].0 == f.name && of_type(
                        line.fields[i].1,
                        f.kind,
                    )
            },
{
    let names = added(field_names(before.fields), line.fields);
    lemma_added(field_names(before.fields), line.fields);
    assert forall|c: int| 0 <= c < before.fields.len() implies {
        let f = #[trigger] after.fields[c];
        &&& f.name == before.fields[c].name
        &&& f.kind == before.fields[c].kind
        &&& f.cells.drop_last() == before.fields[c].cells
    } by {
        assert(field_names(before.fields)[c] == before.fields[c].name);
        assert(after.fields[c].cells.drop_last() =~= before.fields[c].cells);
    }
    assert forall|c: int| before.fields.len() <= c < after.fields.len() implies {
        let f = #[trigger] after.fields[c];
        &&& f.cells.len() == before.times.len() + 1
        &&& forall|r: int| 0 <= r < before.times.len() ==> (#[trigger] f.cells[r]) is Null
        &&& exists|i: int|
            #[trigger] is_first(line.fields, i) && line.fields[i].0 == f.name && of_type(
                line.fields[i].1,
                f.kind,
            )
    } by {
        let k = names[c];
        assert(first_of(line.fields, k) is Some);
        let i = lemma_first_place(line.fields, k);
        lemma_last_of(line.fields, k);
        assert(is_first(line.fields, i));
    }
}

proof fn lemma_first_place<V>(pairs: Seq<(Seq<char>, V)>, k: Seq<char>) -> (i: int)
    requires
        first_of(pairs, k) is Some,
    ensures
        is_first(pairs, i),
        pairs[i].0 == k,
    decreases pairs.len(),
{
    let init = pairs.drop_last();
    if first_of(init, k) is Some {
        let i = lemma_first_place(init, k);
        assert forall|j: int| 0 <= j < i implies (#[trigger] pairs[j]).0 != pairs[i].0 by {
            assert(init[j].0 != init[i].0);
        }
        i
    } else {
        lemma_last_of(init, k);
        assert forall|j: int| 0 <= j < pairs.len() - 1 implies (#[trigger] pairs[j]).0 != k by {
            assert(init[j] == pairs[j]);
        }
        pairs.len() - 1
    }
}

/// A line is refused exactly if it gives a field a value that is not of its
/// column's type, and no integer for a float column: its column being the one
/// that the buffer has or, where it has none, the one that the first value of
/// the line makes.
pub proof fn a_value_of_another_type_refuses_the_line(before: BufferView, line: ingest::LineView)
    requires
        before.aligned(),
    ensures
        first_conflict(before, line.fields) is Some <==> exists|i: int|
            #[trigger] misplaced(before, line.fields, i),
{
    lemma_refused(before, line.fields);
}

/// Whether the field at `i` lands in a column of a type: one of the buffer or,
/// where it has none of that name, one that the first value of the line makes.
pub open spec fn lands_in(
    b: BufferView,
    fields: Seq<(Seq<char>, ingest::FieldView)>,
    i: int,
    k: FieldKind,
) -> bool {
    ||| exists|c: int|
        0 <= c < b.fields.len() && (#[trigger] b.fields[c]).name == fields[i].0 && b.fields[c].kind
            == k
    ||| !field_names(b.fields).contains(fields[i].0) && exists|j: int|
        #[trigger] is_first(fields, j) && j <= i && fields[j].0 == fields[i].0 && of_type(
            fields[j].1,
            k,
        )
}

/// Whether the value at `i` is not of its column's type, and no integer for a
/// float column.
pub open spec fn misplaced(
    b: BufferView,
    fields: Seq<(Seq<char>, ingest::FieldView)>,
    i: int,
) -> bool {
    let v = fields[i].1;
    &&& 0 <= i < fields.len()
    &&& exists|k: FieldKind|
        #[trigger] lands_in(b, fields, i, k) && !of_type(v, k) && !(k == FieldKind::F64 && (v is Int
            || v is UInt))
}

proof fn lemma_refused(b: BufferView, fields: Seq<(Seq<char>, ingest::FieldView)>)
    requires
        b.aligned(),
    ensures
        first_conflict(b, fields) is Some <==> exists|i: int| #[trigger] misplaced(b, fields, i),
    decreases fields.len(),
{
    if fields.len() > 0 {
        let init = fields.drop_last();
        let end = fields.len() - 1;
        let (k, v) = fields.last();
        lemma_refused(b, init);
        assert forall|i: int| 0 <= i < end implies misplaced(b, init, i) == misplaced(
            b,
            fields,
            i,
        ) by {
            assert(init[i] == fields[i]);
            assert forall|j: int| j <= i implies is_first(init, j) == is_first(fields, j) by {
                if is_first(init, j) {
                    assert forall|l: int| 0 <= l < j implies (#[trigger] fields[l]).0
                        != fields[j].0 by {
                        assert(init[l] == fields[l]);
                    }
                }
                if is_first(fields, j) {
                    assert forall|l: int| 0 <= l < j implies (#[trigger] init[l]).0
                        != init[j].0 by {
                        assert(init[l] == fields[l]);
                    }
                }
            }
            lemma_misplaced_alike(b, init, fields, i);
        }
        lemma_misplaced_last(b, fields);
        if exists|i: int| #[trigger] misplaced(b, init, i) {
            let i = choose|i: int| #[trigger] misplaced(b, init, i);
            assert(misplaced(b, fields, i));
        }
        if exists|i: int| #[trigger] misplaced(b, fields, i) {
            let i = choose|i: int| #[trigger] misplaced(b, fields, i);
            if i < end {
                assert(misplaced(b, init, i));
            }
        }
    }
}

proof fn lemma_misplaced_alike(
    b: BufferView,
    init: Seq<(Seq<char>, ingest::FieldView)>,
    fields: Seq<(Seq<char>, ingest::FieldView)>,
    i: int,
)
    requires
        fields.len() > 0,
        init == fields.drop_last(),
        0 <= i < init.len(),
        forall|j: int| j <= i ==> is_first(init, j) == is_first(fields, j),
    ensures
        misplaced(b, init, i) == misplaced(b, fields, i),
{
    assert(init[i] == fields[i]);
    assert forall|k: FieldKind| #[trigger] lands_in(b, init, i, k) == lands_in(b, fields, i, k) by {
        if exists|j: int|
            #[trigger] is_first(init, j) && j <= i && init[j].0 == init[i].0 && of_type(
                init[j].1,
                k,
            ) {
            let j = choose|j: int|
                #[trigger] is_first(init, j) && j <= i && init[j].0 == init[i].0 && of_type(
                    init[j].1,
                    k,
                );
            assert(is_first(fields, j));
            assert(fields[j] == init[j]);
        }
        if exists|j: int|
            #[trigger] is_first(fields, j) && j <= i && fields[j].0 == fields[i].0 && of_type(
                fields[j].1,
                k,
            ) {
            let j = choose|j: int|
                #[trigger] is_first(fields, j) && j <= i && fields[j].0 == fields[i].0 && of_type(
                    fields[j].1,
                    k,
                );
            assert(is_first(init, j));
            assert(fields[j] == init[j]);
        }
    }
    if misplaced(b, fields, i) {
        let v = fields[i].1;
        let k = choose|k: FieldKind|
            #[trigger] lands_in(b, fields, i, k) && !of_type(v, k) && !(k == FieldKind::F64 && (
            v is Int || v is UInt));
        assert(lands_in(b, init, i, k));
    }
}

proof fn lemma_misplaced_last(b: BufferView, fields: Seq<(Seq<char>, ingest::FieldView)>)
    requires
        b.aligned(),
        fields.len() > 0,
    ensures
        misplaced(b, fields, fields.len() - 1) <==> (landing(
            b,
            fields.drop_last(),
            fields.last().0,
        ) matches Some(kind) && !takes(kind, fields.last().1)),
{
    let init = fields.drop_last();
    let end = fields.len() - 1;
    let (k, v) = fields.last();
    let all = field_names(b.fields);
    if misplaced(b, fields, end) {
        let kind = choose|kind: FieldKind|
            #[trigger] lands_in(b, fields, end, kind) && !of_type(v, kind) && !(kind
                == FieldKind::F64 && (v is Int || v is UInt));
        lemma_landing(b, fields, kind);
    }
    if let Some(kind) = landing(b, init, k) {
        lemma_landing(b, fields, kind);
        if !takes(kind, v) {
            assert(lands_in(b, fields, end, kind));
        }
    } else if !all.contains(k) {
        lemma_landing(b, fields, kind_of(v));
    }
}

proof fn lemma_landing(
    b: BufferView,
    fields: Seq<(Seq<char>, ingest::FieldView)>,
    kind: FieldKind,
)
    requires
        b.aligned(),
        fields.len() > 0,
    ensures
        lands_in(b, fields, fields.len() - 1, kind) <==> match landing(
            b,
            fields.drop_last(),
            fields.last().0,
        ) {
            Some(found) => found == kind,
            None => of_type(fields.last().1, kind),
        },
{
    let init = fields.drop_last();
    let end = fields.len() - 1;
    let (k, v) = fields.last();
    let all = field_names(b.fields);
    if all.contains(k) {
        let c = all.index_of(k);
        assert(b.fields[c].name == k);
        assert(all[c] == k);
        assert forall|d: int| 0 <= d < b.fields.len() && (#[trigger] b.fields[d]).name
            == k implies d == c by {
            assert(all[d] == k);
        }
    } else {
        assert forall|d: int| 0 <= d < b.fields.len() implies (#[trigger] b.fields[d]).name
            != k by {
            assert(all[d] == b.fields[d].name);
        }
        lemma_last_of(init, k);
        lemma_last_of(fields, k);
        if first_of(init, k) is Some {
            let j = lemma_first_place(init, k);
            assert(first_of(init, k) == Some(init[j].1));
            assert forall|l: int| 0 <= l < j implies (#[trigger] fields[l]).0 != fields[j].0 by {
                assert(init[l].0 != init[j].0);
            }
            assert(is_first(fields, j));
            assert forall|m: int| #[trigger] is_first(fields, m) && fields[m].0 == k implies m
                == j by {
                if m < j {
                    assert(fields[m].0 != fields[j].0);
                }
                if j < m {
                    assert(fields[j].0 != fields[m].0);
                }
            }
        } else {
            assert forall|m: int| #[trigger] is_first(fields, m) && m <= end && fields[m].0
                == k implies m == end by {
                if m < end {
                    assert(init[m].0 == k);
                    assert(names(init, k));
                }
            }
            assert forall|l: int| 0 <= l < end implies (#[trigger] fields[l]).0
                != fields[end].0 by {
                if fields[l].0 == k {
                    assert(init[l].0 == k);
                    assert(names(init, k));
                }
            }
            assert(is_first(fields, end));
        }
    }
}

fn data_type_of(k: FieldKind) -> (r: DataType)
    ensures
        r@ == type_of(k),
{
    match k {
        FieldKind::F64 => DataType::Float64,
        FieldKind::I64 => DataType::Int64,
        FieldKind::U64 => DataType::UInt64,
        FieldKind::Bool => DataType::Boolean,
        FieldKind::Str => DataType::Utf8,
    }
}

fn make_time_field() -> (r: Field)
    ensures
        r@ == time_field(),
{
    Field::new("time", DataType::TimeNs(Some(String::from_str("+00:00"))), false)
}

impl TagCol {
    fn to_column(&self) -> (r: Column)
        requires
            self.wf(),
        ensures
            r@ == tag_column(self.model()),
    {
        let mut cells: Vec<Cell> = Vec::new();
        let mut r: usize = 0;
        while r < self.keys.len()
            invariant
                r <= self.keys.len(),
                self.wf(),
                batch::cell_views(cells@) == self.cells().take(r as int),
            decreases self.keys.len() - r,
        {
            let ghost done = batch::cell_views(cells@);
            let c = match self.keys[r] {
                Some(k) => Cell::Str(self.values[k].clone()),
                None => Cell::Null,
            };
            cells.push(c);
            assert(batch::cell_views(cells@) =~= done.push(c@));
            assert(self.cells().take(r + 1) =~= self.cells().take(r as int).push(
                self.cells()[r as int],
            ));
            r += 1;
        }
        assert(self.cells().take(self.cells().len() as int) =~= self.cells());
        Column {
            field: Field::new(self.name.as_str(), DataType::tag(), true),
            dictionary: text::copy_texts(&self.values),
            cells,
        }
    }
}

impl FieldCol {
    fn to_column(&self) -> (r: Column)
        ensures
            r@ == field_column(self.model()),
    {
        let r = Column {
            field: Field::new(self.name.as_str(), data_type_of(self.kind), true),
            dictionary: Vec::new(),
            cells: batch::copy_cells(&self.cells),
        };
        assert(text::texts(r.dictionary@) =~= Seq::empty());
        r
    }
}

impl TableBuffer {
    /// The schema of the buffer's snapshot.
    pub fn schema_only(&self) -> (r: Vec<Field>)
        ensures
            batch::schema_view(r@) == snapshot_of(self@).schema(),
    {
        let ghost all = snapshot_of(self@).schema();
        let mut out: Vec<Field> = Vec::new();
        out.push(make_time_field());
        assert(batch::schema_view(out@) =~= all.take(1));
        let mut c: usize = 0;
        while c < self.tags.len()
            invariant
                c <= self.tags.len(),
                all == snapshot_of(self@).schema(),
                batch::schema_view(out@) == all.take(1 + c),
            decreases self.tags.len() - c,
        {
            let ghost done = batch::schema_view(out@);
            let f = Field::new(self.tags[c].name.as_str(), DataType::tag(), true);
            out.push(f);
            assert(batch::schema_view(out@) =~= done.push(f@));
            assert(self@.tags[c as int] == self.tags@[c as int].model());
            assert(all[1 + c] == f@);
            assert(all.take(2 + c) =~= all.take(1 + c).push(all[1 + c]));
            c += 1;
        }
        let t: usize = self.tags.len();
        let mut c: usize = 0;
        while c < self.fields.len()
            invariant
                c <= self.fields.len(),
                t == self.tags.len(),
                all == snapshot_of(self@).schema(),
                batch::schema_view(out@) == all.take(1 + t + c),
            decreases self.fields.len() - c,
        {
            let ghost done = batch::schema_view(out@);
            let f = Field::new(
                self.fields[c].name.as_str(),
                data_type_of(self.fields[c].kind),
                true,
            );
            out.push(f);
            assert(batch::schema_view(out@) =~= done.push(f@));
            assert(self@.fields[c as int] == self.fields@[c as int].model());
            assert(all[1 + t + c] == f@);
            assert(all.take(2 + t + c) =~= all.take(1 + t + c).push(all[1 + t + c]));
            c += 1;
        }
        assert(all.take(all.len() as int) =~= all);
        out
    }

    /// The rows of the buffer as one batch.
    pub fn snapshot(&self) -> (r: Batch)
        requires
            self.wf(),
        ensures
            r@ == snapshot_of(self@),
            r@.well_formed(),
    {
        let ghost all = snapshot_of(self@).columns;
        let mut cells: Vec<Cell> = Vec::new();
        let ghost time_cells = time_column(self.times@).cells;
        let mut i: usize = 0;
        while i < self.times.len()
            invariant
                i <= self.times.len(),
                time_cells == time_column(self.times@).cells,
                batch::cell_views(cells@) == time_cells.take(i as int),
            decreases self.times.len() - i,
        {
            let ghost done = batch::cell_views(cells@);
            let c = Cell::Time(self.times[i]);
            cells.push(c);
            assert(batch::cell_views(cells@) =~= done.push(c@));
            assert(time_cells.take(i + 1) =~= time_cells.take(i as int).push(time_cells[i as int]));
            i += 1;
        }
        assert(time_cells.take(time_cells.len() as int) =~= time_cells);
        let mut columns: Vec<Column> = Vec::new();
        let time = Column { field: make_time_field(), dictionary: Vec::new(), cells };
        assert(text::texts(time.dictionary@) =~= Seq::empty());
        columns.push(time);
        assert(batch::column_views(columns@) =~= all.take(1));
        let mut c: usize = 0;
        while c < self.tags.len()
            invariant
                c <= self.tags.len(),
                self.wf(),
                all == snapshot_of(self@).columns,
                batch::column_views(columns@) == all.take(1 + c),
            decreases self.tags.len() - c,
        {
            let ghost done = batch::column_views(columns@);
            let col = self.tags[c].to_column();
            columns.push(col);
            assert(batch::column_views(columns@) =~= done.push(col@));
            assert(self@.tags[c as int] == self.tags@[c as int].model());
            assert(all[1 + c] == col@);
            assert(all.take(2 + c) =~= all.take(1 + c).push(all[1 + c]));
            c += 1;
        }
        let t: usize = self.tags.len();
        let mut c: usize = 0;
        while c < self.fields.len()
            invariant
                c <= self.fields.len(),
                t == self.tags.len(),
                all == snapshot_of(self@).columns,
                batch::column_views(columns@) == all.take(1 + t + c),
            decreases self.fields.len() - c,
        {
            let ghost done = batch::column_views(columns@);
            let col = self.fields[c].to_column();
            columns.push(col);
            assert(batch::column_views(columns@) =~= done.push(col@));
            assert(self@.fields[c as int] == self.fields@[c as int].model());
            assert(all[1 + t + c] == col@);
            assert(all.take(2 + t + c) =~= all.take(1 + t + c).push(all[1 + t + c]));
            c += 1;
        }
        assert(all.take(all.len() as int) =~= all);
        proof {
            snapshots_are_well_formed(self@);
        }
        Batch::new(columns, self.times.len())
    }
}

impl Default for TableBuffer {
    fn default() -> (r: TableBuffer)
        ensures
            r.wf(),
            r@ == (BufferView { times: Seq::empty(), tags: Seq::empty(), fields: Seq::empty() }),
            r.first_write() is None,
    {
        TableBuffer::new()
    }
}

/// The dictionary of a tag keeps what it held, in its places, gains every value
/// that a line gives the tag, and holds each value once.
pub proof fn a_dictionary_gains_the_values_of_its_tag(
    d: Seq<Seq<char>>,
    pairs: Seq<(Seq<char>, Seq<char>)>,
    k: Seq<char>,
    i: int,
)
    requires
        d.no_duplicates(),
    ensures
        interned_all(d, pairs, k).no_duplicates(),
        d.len() <= interned_all(d, pairs, k).len(),
        0 <= i < d.len() ==> interned_all(d, pairs, k)[i] == d[i],
        0 <= i < pairs.len() && pairs[i].0 == k ==> interned_all(d, pairs, k).contains(pairs[i].1),
        forall|j: int|
            d.len() <= j < interned_all(d, pairs, k).len() ==> pairs.contains(
                (k, #[trigger] interned_all(d, pairs, k)[j]),
            ),
    decreases pairs.len(),
{
    lemma_interned_once(d, pairs, k);
    if pairs.len() > 0 {
        let init = pairs.drop_last();
        a_dictionary_gains_the_values_of_its_tag(d, init, k, i);
        let p = interned_all(d, init, k);
        let q = interned_all(d, pairs, k);
        if 0 <= i < pairs.len() && pairs[i].0 == k {
            if i < init.len() {
                let j = choose|j: int| 0 <= j < p.len() && p[j] == init[i].1;
                assert(q[j] == pairs[i].1);
            } else if p.contains(pairs.last().1) {
            } else {
                assert(q[p.len() as int] == pairs[i].1);
            }
        }
        assert forall|j: int| d.len() <= j < q.len() implies pairs.contains(
            (k, #[trigger] q[j]),
        ) by {
            if j < p.len() {
                assert(q[j] == p[j]);
                let m = choose|m: int| 0 <= m < init.len() && init[m] == (k, p[j]);
                assert(pairs[m] == (k, q[j]));
            } else {
                assert(pairs[pairs.len() - 1] == (k, q[j]));
            }
        }
    }
}

} // verus!
