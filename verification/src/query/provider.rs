//! Scanning a table: which files, row groups, byte ranges and columns a query
//! needs, and how the batches are handed on.
//!
//! What is skipped cannot match the query's filters.
use crate::batch;
use crate::ingest;
use crate::text;
use vstd::arithmetic::div_mod::*;
use vstd::prelude::*;
use vstd::utf8::*;

verus! {

// ----------------------------------------------------------- filters and pruning

/// An operator between two expressions.
#[derive(Debug, Clone, Copy, PartialEq, Eq, Structural)]
pub enum Operator {
    And,
    Gt,
    GtEq,
    Lt,
    LtEq,
    Eq,
    Other,
}

/// A literal of a filter.
#[derive(Debug, PartialEq, Eq)]
pub enum Scalar {
    TimestampNs(Option<i64>),
    TimestampUs(Option<i64>),
    Utf8(Option<String>),
    Utf8View(Option<String>),
    Dictionary(Box<Scalar>),
    Other,
}

/// A filter.
#[derive(Debug, PartialEq, Eq)]
pub enum Expr {
    Column(String),
    Literal(Scalar),
    Cast(Box<Expr>),
    Binary(Box<Expr>, Operator, Box<Expr>),
    Other,
}

/// The time bounds and the equalities that a query's filters ask for.
#[derive(Debug, Clone)]
pub struct Pruning {
    pub min_ts_ns: Option<i64>,
    pub max_ts_ns: Option<i64>,
    pub tag_equals: Vec<(String, String)>,
}

/// What a `Pruning` asks for.
#[verifier::ext_equal]
pub struct PruningView {
    pub min_ts_ns: Option<i64>,
    pub max_ts_ns: Option<i64>,
    pub tag_equals: Seq<(Seq<char>, Seq<char>)>,
}

impl View for Pruning {
    type V = PruningView;

    open spec fn view(&self) -> PruningView {
        PruningView {
            min_ts_ns: self.min_ts_ns,
            max_ts_ns: self.max_ts_ns,
            tag_equals: ingest::tag_views(self.tag_equals@),
        }
    }
}

impl Default for Pruning {
    fn default() -> (r: Pruning)
        ensures
            r@ == no_pruning(),
    {
        let r = Pruning { min_ts_ns: None, max_ts_ns: None, tag_equals: Vec::new() };
        assert(ingest::tag_views(r.tag_equals@) =~= Seq::empty());
        r
    }
}

/// Nothing asked for.
pub open spec fn no_pruning() -> PruningView {
    PruningView { min_ts_ns: None, max_ts_ns: None, tag_equals: Seq::empty() }
}

/// The column that an expression is, behind conversions.
pub open spec fn column_of(e: Expr) -> Option<Seq<char>>
    decreases e,
{
    match e {
        Expr::Column(c) => Some(c@),
        Expr::Cast(x) => column_of(*x),
        _ => None,
    }
}

/// The time in nanoseconds that an expression is, behind conversions.
pub open spec fn time_of(e: Expr) -> Option<i64>
    decreases e,
{
    match e {
        Expr::Literal(Scalar::TimestampNs(Some(v))) => Some(v),
        Expr::Literal(Scalar::TimestampUs(Some(v))) => if i64::MIN <= v * 1000 <= i64::MAX {
            Some((v * 1000) as i64)
        } else {
            None
        },
        Expr::Cast(x) => time_of(*x),
        _ => None,
    }
}

/// The string that an expression is.
pub open spec fn string_of(e: Expr) -> Option<Seq<char>> {
    match e {
        Expr::Literal(Scalar::Utf8(Some(s))) => Some(s@),
        Expr::Literal(Scalar::Utf8View(Some(s))) => Some(s@),
        Expr::Literal(Scalar::Dictionary(inner)) => match *inner {
            Scalar::Utf8(Some(s)) => Some(s@),
            _ => None,
        },
        _ => None,
    }
}

/// The later of a time and an optional one.
pub open spec fn later(a: Option<i64>, t: i64) -> Option<i64> {
    match a {
        Some(c) => Some(if c > t {
            c
        } else {
            t
        }),
        None => Some(t),
    }
}

/// The earlier of a time and an optional one.
pub open spec fn earlier(a: Option<i64>, t: i64) -> Option<i64> {
    match a {
        Some(c) => Some(if c < t {
            c
        } else {
            t
        }),
        None => Some(t),
    }
}

/// What a filter asks for on top of `p`: its conjuncts that compare the time
/// with a time, and those that equate a column with a string.
pub open spec fn walked(e: Expr, p: PruningView) -> PruningView
    decreases e,
{
    match e {
        Expr::Binary(l, Operator::And, r) => walked(*r, walked(*l, p)),
        Expr::Binary(l, op, r) => if op == Operator::GtEq || op == Operator::Gt {
            match time_of(*r) {
                Some(t) => if column_of(*l) == Some("time"@) {
                    PruningView { min_ts_ns: later(p.min_ts_ns, t), ..p }
                } else {
                    p
                },
                None => p,
            }
        } else if op == Operator::LtEq || op == Operator::Lt {
            match time_of(*r) {
                Some(t) => if column_of(*l) == Some("time"@) {
                    PruningView { max_ts_ns: earlier(p.max_ts_ns, t), ..p }
                } else {
                    p
                },
                None => p,
            }
        } else if op == Operator::Eq {
            match (column_of(*l), string_of(*r)) {
                (Some(c), Some(v)) => PruningView { tag_equals: p.tag_equals.push((c, v)), ..p },
                _ => p,
            }
        } else {
            p
        },
        _ => p,
    }
}

/// What a list of filters asks for.
pub open spec fn asked(filters: Seq<Expr>) -> PruningView
    decreases filters.len(),
{
    if filters.len() == 0 {
        no_pruning()
    } else {
        walked(filters.last(), asked(filters.drop_last()))
    }
}

fn col_name(e: &Expr) -> (r: Option<String>)
    ensures
        match (r, column_of(*e)) {
            (Some(a), Some(b)) => a@ == b,
            (None, None) => true,
            _ => false,
        },
    decreases e,
{
    match e {
        Expr::Column(c) => Some(c.clone()),
        Expr::Cast(x) => col_name(&**x),
        _ => None,
    }
}

fn ts_literal(e: &Expr) -> (r: Option<i64>)
    ensures
        r == time_of(*e),
    decreases e,
{
    match e {
        Expr::Literal(Scalar::TimestampNs(Some(v))) => Some(*v),
        Expr::Literal(Scalar::TimestampUs(Some(v))) => v.checked_mul(1_000),
        Expr::Cast(x) => ts_literal(&**x),
        _ => None,
    }
}

fn str_literal(e: &Expr) -> (r: Option<String>)
    ensures
        match (r, string_of(*e)) {
            (Some(a), Some(b)) => a@ == b,
            (None, None) => true,
            _ => false,
        },
{
    match e {
        Expr::Literal(Scalar::Utf8(Some(s))) => Some(s.clone()),
        Expr::Literal(Scalar::Utf8View(Some(s))) => Some(s.clone()),
        Expr::Literal(Scalar::Dictionary(inner)) => match &**inner {
            Scalar::Utf8(Some(s)) => Some(s.clone()),
            _ => None,
        },
        _ => None,
    }
}

fn is_time(c: &Option<String>) -> (r: bool)
    ensures
        r == (batch::opt_text(*c) == Some("time"@)),
{
    match c {
        Some(s) => text::same(s.as_str(), "time"),
        None => false,
    }
}

fn walk(e: &Expr, p: &mut Pruning)
    ensures
        final(p)@ == walked(*e, old(p)@),
    decreases e,
{
    match e {
        Expr::Binary(l, op, r) => {
            match op {
                Operator::And => {
                    walk(&**l, p);
                    walk(&**r, p);
                },
                Operator::GtEq | Operator::Gt => {
                    let c = col_name(&**l);
                    if let Some(t) = ts_literal(&**r) {
                        if is_time(&c) {
                            p.min_ts_ns = match p.min_ts_ns {
                                Some(m) => if m > t {
                                    Some(m)
                                } else {
                                    Some(t)
                                },
                                None => Some(t),
                            };
                        }
                    }
                },
                Operator::LtEq | Operator::Lt => {
                    let c = col_name(&**l);
                    if let Some(t) = ts_literal(&**r) {
                        if is_time(&c) {
                            p.max_ts_ns = match p.max_ts_ns {
                                Some(m) => if m < t {
                                    Some(m)
                                } else {
                                    Some(t)
                                },
                                None => Some(t),
                            };
                        }
                    }
                },
                Operator::Eq => {
                    match (col_name(&**l), str_literal(&**r)) {
                        (Some(c), Some(v)) => {
                            let ghost was = ingest::tag_views(p.tag_equals@);
                            p.tag_equals.push((c, v));
                            assert(ingest::tag_views(p.tag_equals@) =~= was.push((c@, v@)));
                        },
                        _ => {},
                    }
                },
                Operator::Other => {},
            }
        },
        _ => {},
    }
}

/// What a query's filters ask for.
pub fn extract_pruning(filters: &Vec<Expr>) -> (r: Pruning)
    ensures
        r@ == asked(filters@),
{
    let mut p = Pruning::default();
    let mut i: usize = 0;
    assert(filters@.take(0) =~= Seq::empty());
    while i < filters.len()
        invariant
            i <= filters.len(),
            p@ == asked(filters@.take(i as int)),
        decreases filters.len() - i,
    {
        assert(filters@.take(i + 1).drop_last() =~= filters@.take(i as int));
        walk(&filters[i], &mut p);
        i += 1;
    }
    assert(filters@.take(filters@.len() as int) =~= filters@);
    p
}

/// A row, as far as pruning reads it.
pub struct Row {
    pub time: int,
    pub tags: Map<Seq<char>, Seq<char>>,
}

/// The text that a literal carries, in whichever form.
pub open spec fn text_in(s: Scalar) -> Option<Seq<char>>
    decreases s,
{
    match s {
        Scalar::Utf8(Some(v)) => Some(v@),
        Scalar::Utf8View(Some(v)) => Some(v@),
        Scalar::Dictionary(inner) => text_in(*inner),
        _ => None,
    }
}

/// The instant that a literal carries, in nanoseconds.
pub open spec fn instant_in(s: Scalar) -> Option<int> {
    match s {
        Scalar::TimestampNs(Some(v)) => Some(v as int),
        Scalar::TimestampUs(Some(v)) => Some(v * 1000),
        _ => None,
    }
}

/// What stands behind the conversions of an expression.
pub open spec fn bare(e: Expr) -> Expr
    decreases e,
{
    match e {
        Expr::Cast(x) => bare(*x),
        _ => e,
    }
}

/// Whether a filter holds of a row: conjunctions, comparisons of the time with
/// an instant and of a column with a text have their meaning, conversions keep
/// values, and `other` says it of everything else.
pub open spec fn holds(e: Expr, row: Row, other: spec_fn(Expr) -> bool) -> bool
    decreases e,
{
    match e {
        Expr::Binary(l, Operator::And, r) => holds(*l, row, other) && holds(*r, row, other),
        Expr::Binary(l, op, r) => match (bare(*l), bare(*r)) {
            (Expr::Column(c), Expr::Literal(s)) => match (op, instant_in(s), text_in(s)) {
                (Operator::GtEq, Some(t), _) if c@ == "time"@ => row.time >= t,
                (Operator::Gt, Some(t), _) if c@ == "time"@ => row.time > t,
                (Operator::LtEq, Some(t), _) if c@ == "time"@ => row.time <= t,
                (Operator::Lt, Some(t), _) if c@ == "time"@ => row.time < t,
                (Operator::Eq, _, Some(v)) => row.tags.contains_key(c@) && row.tags[c@] == v,
                _ => other(e),
            },
            _ => other(e),
        },
        _ => other(e),
    }
}

/// Whether a row meets what is asked for.
pub open spec fn meets(p: PruningView, row: Row) -> bool {
    &&& p.min_ts_ns matches Some(t) ==> row.time >= t
    &&& p.max_ts_ns matches Some(t) ==> row.time <= t
    &&& forall|k: int|
        0 <= k < p.tag_equals.len() ==> row.tags.contains_key((#[trigger] p.tag_equals[k]).0)
            && row.tags[p.tag_equals[k].0] == p.tag_equals[k].1
}

proof fn lemma_bare(e: Expr)
    ensures
        column_of(e) matches Some(c) ==> (bare(e) matches Expr::Column(n) && n@ == c),
        time_of(e) matches Some(t) ==> (bare(e) matches Expr::Literal(s) && instant_in(s) == Some(
            t as int,
        )),
        string_of(e) matches Some(v) ==> (bare(e) matches Expr::Literal(s) && text_in(s) == Some(v)),
    decreases e,
{
    reveal_with_fuel(text_in, 3);
    if let Expr::Cast(x) = e {
        lemma_bare(*x);
    }
}

proof fn lemma_walk_is_sound(e: Expr, p: PruningView, row: Row, other: spec_fn(Expr) -> bool)
    requires
        meets(p, row),
        holds(e, row, other),
    ensures
        meets(walked(e, p), row),
    decreases e,
{
    match e {
        Expr::Binary(l, Operator::And, r) => {
            lemma_walk_is_sound(*l, p, row, other);
            lemma_walk_is_sound(*r, walked(*l, p), row, other);
        },
        Expr::Binary(l, op, r) => {
            let q = walked(e, p);
            lemma_bare(*l);
            lemma_bare(*r);
            assert forall|k: int| 0 <= k < q.tag_equals.len() implies row.tags.contains_key(
                (#[trigger] q.tag_equals[k]).0,
            ) && row.tags[q.tag_equals[k].0] == q.tag_equals[k].1 by {
                if k < p.tag_equals.len() {
                    assert(q.tag_equals[k] == p.tag_equals[k]);
                }
            }
        },
        _ => {},
    }
}

/// A row of which every filter holds meets what the filters ask for: pruning
/// by it never loses a match.
pub proof fn pruning_is_sound(filters: Seq<Expr>, row: Row, other: spec_fn(Expr) -> bool)
    requires
        forall|i: int| 0 <= i < filters.len() ==> holds(#[trigger] filters[i], row, other),
    ensures
        meets(asked(filters), row),
    decreases filters.len(),
{
    if filters.len() > 0 {
        let init = filters.drop_last();
        assert forall|i: int| 0 <= i < init.len() implies holds(#[trigger] init[i], row, other) by {
            assert(init[i] == filters[i]);
        }
        pruning_is_sound(init, row, other);
        assert(holds(filters[filters.len() - 1], row, other));
        lemma_walk_is_sound(filters.last(), asked(init), row, other);
    }
}

/// An expression behind so many conversions.
pub open spec fn behind(e: Expr, n: nat) -> Expr
    decreases n,
{
    if n == 0 {
        e
    } else {
        Expr::Cast(Box::new(behind(e, (n - 1) as nat)))
    }
}

/// A comparison of two expressions.
pub open spec fn compared(l: Expr, op: Operator, r: Expr) -> Expr {
    Expr::Binary(Box::new(l), op, Box::new(r))
}

proof fn lemma_behind(e: Expr, n: nat)
    ensures
        column_of(behind(e, n)) == column_of(e),
        time_of(behind(e, n)) == time_of(e),
        n > 0 ==> string_of(behind(e, n)) is None,
    decreases n,
{
    if n > 0 {
        lemma_behind(e, (n - 1) as nat);
    }
}

/// A literal that carries a text: plain, as a view, or in a dictionary.
pub open spec fn carries(s: Scalar, v: String) -> bool {
    ||| s == Scalar::Utf8(Some(v))
    ||| s == Scalar::Utf8View(Some(v))
    ||| s == Scalar::Dictionary(Box::new(Scalar::Utf8(Some(v))))
}

/// An equality of a column and a literal asks for exactly that column and the
/// text that the literal carries, behind what the filters before it ask for:
/// a row meets it exactly if it meets those and its tag is that text.
pub proof fn an_equality_asks_for_its_text(
    filters: Seq<Expr>,
    column: String,
    n: nat,
    s: Scalar,
    v: String,
    row: Row,
)
    requires
        carries(s, v),
    ensures
        ({
            let f = compared(behind(Expr::Column(column), n), Operator::Eq, Expr::Literal(s));
            let before = asked(filters);
            let after = asked(filters.push(f));
            &&& after.tag_equals == before.tag_equals.push((column@, v@))
            &&& after.min_ts_ns == before.min_ts_ns
            &&& after.max_ts_ns == before.max_ts_ns
            &&& meets(after, row) <==> meets(before, row) && row.tags.contains_key(column@)
                && row.tags[column@] == v@
        }),
{
    let f = compared(behind(Expr::Column(column), n), Operator::Eq, Expr::Literal(s));
    lemma_behind(Expr::Column(column), n);
    assert(filters.push(f).drop_last() =~= filters);
    let before = asked(filters);
    let after = asked(filters.push(f));
    let last = before.tag_equals.len() as int;
    assert(after.tag_equals =~= before.tag_equals.push((column@, v@)));
    assert(forall|k: int|
        0 <= k < last ==> #[trigger] after.tag_equals[k] == before.tag_equals[k]);
    assert(after.tag_equals[last] == (column@, v@));
    if meets(after, row) {
        assert forall|k: int| 0 <= k < last implies row.tags.contains_key(
            (#[trigger] before.tag_equals[k]).0,
        ) && row.tags[before.tag_equals[k].0] == before.tag_equals[k].1 by {
            assert(after.tag_equals[k] == before.tag_equals[k]);
        }
    }
}

/// A comparison of the time with an instant, in nanoseconds or microseconds
/// and behind conversions on either side, bounds the time by that instant and
/// asks for nothing else: a row meets it exactly if it meets what was asked for
/// before and its time is on that side of the instant or on it.
pub proof fn a_time_bound_asks_for_its_instant(
    filters: Seq<Expr>,
    column: String,
    n: nat,
    m: nat,
    t: i64,
    micros: bool,
    op: Operator,
    row: Row,
)
    requires
        column@ == "time"@,
        op == Operator::Gt || op == Operator::GtEq || op == Operator::Lt || op == Operator::LtEq,
        micros ==> i64::MIN <= t * 1000 <= i64::MAX,
    ensures
        ({
            let s = if micros {
                Scalar::TimestampUs(Some(t))
            } else {
                Scalar::TimestampNs(Some(t))
            };
            let nanos: int = if micros {
                t * 1000
            } else {
                t as int
            };
            let f = compared(
                behind(Expr::Column(column), n),
                op,
                behind(Expr::Literal(s), m),
            );
            let before = asked(filters);
            let after = asked(filters.push(f));
            &&& after.tag_equals == before.tag_equals
            &&& meets(after, row) <==> meets(before, row) && (if op == Operator::Gt || op
                == Operator::GtEq {
                row.time >= nanos
            } else {
                row.time <= nanos
            })
        }),
{
    let s = if micros {
        Scalar::TimestampUs(Some(t))
    } else {
        Scalar::TimestampNs(Some(t))
    };
    let f = compared(behind(Expr::Column(column), n), op, behind(Expr::Literal(s), m));
    lemma_behind(Expr::Column(column), n);
    lemma_behind(Expr::Literal(s), m);
    assert(filters.push(f).drop_last() =~= filters);
    let nanos: i64 = if micros {
        (t * 1000) as i64
    } else {
        t
    };
    assert(time_of(Expr::Literal(s)) == Some(nanos));
    assert(column_of(Expr::Column(column)) == Some("time"@));
    let before = asked(filters);
    let after = asked(filters.push(f));
    assert(after == walked(f, before));
    assert(after.tag_equals == before.tag_equals);
    if op == Operator::Gt || op == Operator::GtEq {
        assert(after.min_ts_ns == later(before.min_ts_ns, nanos));
        assert(after.max_ts_ns == before.max_ts_ns);
    } else {
        assert(after.max_ts_ns == earlier(before.max_ts_ns, nanos));
        assert(after.min_ts_ns == before.min_ts_ns);
    }
}

/// A conjunction asks for what its sides ask for, one after the other.
pub proof fn a_conjunction_asks_for_both(filters: Seq<Expr>, a: Expr, b: Expr)
    ensures
        asked(filters.push(compared(a, Operator::And, b))) == asked(filters.push(a).push(b)),
{
    assert(filters.push(compared(a, Operator::And, b)).drop_last() =~= filters);
    assert(filters.push(a).push(b).drop_last() =~= filters.push(a));
    assert(filters.push(a).drop_last() =~= filters);
    assert(asked(filters.push(a)) == walked(a, asked(filters)));
    assert(asked(filters.push(a).push(b)) == walked(b, asked(filters.push(a))));
    assert(asked(filters.push(compared(a, Operator::And, b))) == walked(
        compared(a, Operator::And, b),
        asked(filters),
    ));
}

/// Whether a filter is none of the three kinds that ask for something: it
/// compares nothing, or by another operator, or not a column on the left with
/// a literal on the right.
pub open spec fn asks_nothing(e: Expr) -> bool {
    match e {
        Expr::Binary(l, op, r) => {
            ||| op == Operator::Other
            ||| op != Operator::And && (bare(*l) !is Column || bare(*r) !is Literal)
            ||| op == Operator::Eq && (bare(*r) matches Expr::Literal(s) && text_in(s) is None)
            ||| op != Operator::And && op != Operator::Eq && (bare(*r) matches Expr::Literal(s)
                && instant_in(s) is None)
            ||| op != Operator::And && op != Operator::Eq && (bare(*l) matches Expr::Column(c) && c@
                != "time"@)
        },
        _ => true,
    }
}

/// Such a filter leaves what is asked for as it was.
pub proof fn other_filters_ask_for_nothing(filters: Seq<Expr>, e: Expr)
    requires
        asks_nothing(e),
    ensures
        asked(filters.push(e)) == asked(filters),
        asked(Seq::empty()) == no_pruning(),
{
    assert(filters.push(e).drop_last() =~= filters);
    if let Expr::Binary(l, op, r) = e {
        lemma_bare(*l);
        lemma_bare(*r);
    }
}

/// Whether a file's time range keeps it out of a query.
pub open spec fn out_of_time(p: PruningView, min_ts_ns: i64, max_ts_ns: i64) -> bool {
    (p.min_ts_ns matches Some(t) && max_ts_ns < t) || (p.max_ts_ns matches Some(t) && min_ts_ns
        > t)
}

/// Whether a file's time range keeps it out of a query.
pub fn time_prunes(p: &Pruning, min_ts_ns: i64, max_ts_ns: i64) -> (r: bool)
    ensures
        r == out_of_time(p@, min_ts_ns, max_ts_ns),
{
    if let Some(t) = p.min_ts_ns {
        if max_ts_ns < t {
            return true;
        }
    }
    if let Some(t) = p.max_ts_ns {
        if min_ts_ns > t {
            return true;
        }
    }
    false
}

/// A file that is kept out holds no row that meets what is asked for.
pub proof fn a_pruned_file_has_no_match(p: PruningView, min_ts_ns: i64, max_ts_ns: i64, row: Row)
    requires
        out_of_time(p, min_ts_ns, max_ts_ns),
        min_ts_ns <= row.time <= max_ts_ns,
    ensures
        !meets(p, row),
{
}

/// Whether an instant is one of a file's.
pub open spec fn within(t: int, min_ts_ns: i64, max_ts_ns: i64) -> bool {
    min_ts_ns <= t <= max_ts_ns
}

/// A file is kept out exactly if every instant from its first to its last is
/// before what is asked for, or every one is behind it.
pub proof fn a_file_is_kept_out_only_by_its_times(p: PruningView, min_ts_ns: i64, max_ts_ns: i64)
    requires
        min_ts_ns <= max_ts_ns,
    ensures
        out_of_time(p, min_ts_ns, max_ts_ns) <==> (p.min_ts_ns is Some && forall|t: int| #[trigger]
            within(t, min_ts_ns, max_ts_ns) ==> t < p.min_ts_ns->Some_0) || (p.max_ts_ns is Some
            && forall|t: int| #[trigger]
            within(t, min_ts_ns, max_ts_ns) ==> t > p.max_ts_ns->Some_0),
{
    assert(within(min_ts_ns as int, min_ts_ns, max_ts_ns));
    assert(within(max_ts_ns as int, min_ts_ns, max_ts_ns));
}

// ------------------------------------------------------------------- row groups

/// The smallest and the largest value of a column in a row group, if known.
#[derive(Debug, Clone, PartialEq, Eq)]
pub struct Range {
    pub min: Vec<u8>,
    pub max: Vec<u8>,
}

/// One row group of a file: the range of each column, and where each column's
/// bytes start and how many they are.
#[derive(Debug, Clone)]
pub struct RowGroup {
    pub ranges: Vec<Option<Range>>,
    pub chunks: Vec<(u64, u64)>,
}

/// What a file's footer says: the names of its columns, and its row groups.
#[derive(Debug, Clone)]
pub struct FileGroups {
    pub columns: Vec<String>,
    pub groups: Vec<RowGroup>,
}

/// The first position of a name.
pub open spec fn name_at(names: Seq<Seq<char>>, name: Seq<char>) -> Option<int>
    decreases names.len(),
{
    if names.len() == 0 {
        None
    } else {
        match name_at(names.drop_last(), name) {
            Some(i) => Some(i),
            None => if names.last() == name {
                Some(names.len() - 1)
            } else {
                None
            },
        }
    }
}

proof fn lemma_name_at(names: Seq<Seq<char>>, name: Seq<char>)
    ensures
        match name_at(names, name) {
            Some(i) => 0 <= i < names.len() && names[i] == name && forall|j: int|
                0 <= j < i ==> #[trigger] names[j] != name,
            None => forall|j: int| 0 <= j < names.len() ==> #[trigger] names[j] != name,
        },
    decreases names.len(),
{
    if names.len() > 0 {
        lemma_name_at(names.drop_last(), name);
        assert forall|j: int| 0 <= j < names.len() - 1 implies #[trigger] names[j]
            == names.drop_last()[j] by {}
    }
}

fn find_name(names: &Vec<String>, name: &str) -> (r: Option<usize>)
    ensures
        match (r, name_at(text::texts(names@), name@)) {
            (Some(i), Some(j)) => i == j && i < names.len(),
            (None, None) => true,
            _ => false,
        },
{
    let ghost all = text::texts(names@);
    proof {
        lemma_name_at(all, name@);
    }
    let mut i: usize = 0;
    while i < names.len()
        invariant
            i <= names.len(),
            all == text::texts(names@),
            forall|j: int| 0 <= j < i ==> #[trigger] all[j] != name@,
            match name_at(all, name@) {
                Some(k) => 0 <= k < all.len() && all[k] == name@ && forall|j: int|
                    0 <= j < k ==> #[trigger] all[j] != name@,
                None => forall|j: int| 0 <= j < all.len() ==> #[trigger] all[j] != name@,
            },
        decreases names.len() - i,
    {
        assert(all[i as int] == names@[i as int]@);
        if text::same(names[i].as_str(), name) {
            return Some(i);
        }
        i += 1;
    }
    None
}

/// Whether a value is outside a range of byte strings.
pub open spec fn outside(v: Seq<u8>, r: Range) -> bool {
    text::bytes_before(v, r.min@) || text::bytes_before(r.max@, v)
}

/// Whether a row group's range keeps a literal out: the file has the column,
/// its range is known, and the literal is outside.
pub open spec fn excluded(columns: Seq<Seq<char>>, g: RowGroup, lit: (Seq<char>, Seq<char>)) -> bool {
    match name_at(columns, lit.0) {
        Some(c) => c < g.ranges@.len() && (g.ranges@[c] matches Some(r) && outside(
            encode_utf8(lit.1),
            r,
        )),
        None => false,
    }
}

/// Whether a row group's ranges admit every literal.
pub open spec fn admits(
    columns: Seq<Seq<char>>,
    g: RowGroup,
    lits: Seq<(Seq<char>, Seq<char>)>,
) -> bool {
    forall|k: int| 0 <= k < lits.len() ==> !excluded(columns, g, #[trigger] lits[k])
}

/// The row groups among the first `n` that admit every literal.
pub open spec fn admitting(
    columns: Seq<Seq<char>>,
    groups: Seq<RowGroup>,
    lits: Seq<(Seq<char>, Seq<char>)>,
    n: int,
) -> Seq<int>
    decreases n,
{
    if n <= 0 {
        Seq::empty()
    } else {
        let p = admitting(columns, groups, lits, n - 1);
        if admits(columns, groups[n - 1], lits) {
            p.push(n - 1)
        } else {
            p
        }
    }
}

fn group_admits(columns: &Vec<String>, g: &RowGroup, lits: &Vec<(String, String)>) -> (r: bool)
    ensures
        r == admits(text::texts(columns@), *g, ingest::tag_views(lits@)),
{
    let ghost names = text::texts(columns@);
    let ghost all = ingest::tag_views(lits@);
    let mut k: usize = 0;
    while k < lits.len()
        invariant
            k <= lits.len(),
            names == text::texts(columns@),
            all == ingest::tag_views(lits@),
            forall|j: int| 0 <= j < k ==> !excluded(names, *g, #[trigger] all[j]),
        decreases lits.len() - k,
    {
        assert(all[k as int] == (lits@[k as int].0@, lits@[k as int].1@));
        match find_name(columns, lits[k].0.as_str()) {
            Some(c) => {
                if c < g.ranges.len() {
                    match &g.ranges[c] {
                        Some(range) => {
                            let v: &[u8] = lits[k].1.as_str().as_bytes();
                            if text::comes_before_bytes(v, range.min.as_slice())
                                || text::comes_before_bytes(range.max.as_slice(), v) {
                                assert(excluded(names, *g, all[k as int]));
                                return false;
                            }
                        },
                        None => {},
                    }
                }
            },
            None => {},
        }
        assert(!excluded(names, *g, all[k as int]));
        k += 1;
    }
    true
}

/// The row groups whose ranges admit every literal.
pub fn stats_keep_row_groups(file: &FileGroups, lits: &Vec<(String, String)>) -> (r: Vec<usize>)
    ensures
        batch::positions(r@) == admitting(
            text::texts(file.columns@),
            file.groups@,
            ingest::tag_views(lits@),
            file.groups@.len() as int,
        ),
        r@.len() <= file.groups@.len(),
{
    let ghost names = text::texts(file.columns@);
    let ghost all = ingest::tag_views(lits@);
    let mut out: Vec<usize> = Vec::new();
    let mut i: usize = 0;
    assert(batch::positions(out@) =~= Seq::empty());
    while i < file.groups.len()
        invariant
            i <= file.groups.len(),
            names == text::texts(file.columns@),
            all == ingest::tag_views(lits@),
            out@.len() <= i,
            batch::positions(out@) == admitting(names, file.groups@, all, i as int),
        decreases file.groups.len() - i,
    {
        let ghost done = batch::positions(out@);
        if group_admits(&file.columns, &file.groups[i], lits) {
            out.push(i);
            assert(batch::positions(out@) =~= done.push(i as int));
        }
        i += 1;
    }
    out
}

proof fn lemma_admitting_has(
    columns: Seq<Seq<char>>,
    groups: Seq<RowGroup>,
    lits: Seq<(Seq<char>, Seq<char>)>,
    n: int,
    g: int,
)
    requires
        0 <= g < n <= groups.len(),
    ensures
        admitting(columns, groups, lits, n).contains(g) <==> admits(columns, groups[g], lits),
    decreases n,
{
    let p = admitting(columns, groups, lits, n - 1);
    let q = admitting(columns, groups, lits, n);
    if g < n - 1 {
        lemma_admitting_has(columns, groups, lits, n - 1, g);
        if p.contains(g) {
            let k = choose|k: int| 0 <= k < p.len() && p[k] == g;
            assert(q[k] == g);
        }
        if q.contains(g) {
            let k = choose|k: int| 0 <= k < q.len() && q[k] == g;
            assert(p[k] == g);
        }
    } else {
        lemma_admitting_below(columns, groups, lits, n - 1);
        if admits(columns, groups[g], lits) {
            assert(q[p.len() as int] == g);
        } else if q.contains(g) {
            let k = choose|k: int| 0 <= k < q.len() && q[k] == g;
            assert(p[k] < n - 1);
        }
    }
}

proof fn lemma_admitting_below(
    columns: Seq<Seq<char>>,
    groups: Seq<RowGroup>,
    lits: Seq<(Seq<char>, Seq<char>)>,
    n: int,
)
    ensures
        forall|k: int|
            0 <= k < admitting(columns, groups, lits, n).len() ==> 0 <= #[trigger] admitting(
                columns,
                groups,
                lits,
                n,
            )[k] < n,
    decreases n,
{
    if n > 0 {
        lemma_admitting_below(columns, groups, lits, n - 1);
        let p = admitting(columns, groups, lits, n - 1);
        let q = admitting(columns, groups, lits, n);
        assert forall|k: int| 0 <= k < q.len() implies 0 <= #[trigger] q[k] < n by {
            if k < p.len() {
                assert(q[k] == p[k]);
            }
        }
    }
}

/// A row group that holds, for each literal, the literal's value in a column
/// whose range is true of it, is kept.
pub proof fn a_group_with_the_values_is_kept(
    columns: Seq<Seq<char>>,
    groups: Seq<RowGroup>,
    lits: Seq<(Seq<char>, Seq<char>)>,
    g: int,
)
    requires
        0 <= g < groups.len(),
        forall|k: int|
            0 <= k < lits.len() ==> (name_at(columns, (#[trigger] lits[k]).0) matches Some(c) ==> (c
                < groups[g].ranges@.len() ==> (groups[g].ranges@[c] matches Some(r) ==> !outside(
                encode_utf8(lits[k].1),
                r,
            )))),
    ensures
        admitting(columns, groups, lits, groups.len() as int).contains(g),
{
    lemma_admitting_has(columns, groups, lits, groups.len() as int, g);
    assert forall|k: int| 0 <= k < lits.len() implies !excluded(
        columns,
        groups[g],
        #[trigger] lits[k],
    ) by {}
}

/// A row group is kept exactly if no literal is outside a range of it that is
/// known: for each literal whose column the file has, in the first place of that
/// name, the group's range there is unknown or reaches from no later than the
/// literal's text to no earlier. The groups that are kept stay in their order.
pub proof fn a_group_is_kept_unless_a_range_excludes_a_value(
    columns: Seq<Seq<char>>,
    groups: Seq<RowGroup>,
    lits: Seq<(Seq<char>, Seq<char>)>,
    g: int,
)
    requires
        0 <= g < groups.len(),
    ensures
        admitting(columns, groups, lits, groups.len() as int).contains(g) <==> forall|k: int, c: int|
            #![trigger lits[k], columns[c]]
            0 <= k < lits.len() && 0 <= c < columns.len() && columns[c] == lits[k].0 && (forall|
                d: int,
            |
                0 <= d < c ==> #[trigger] columns[d] != lits[k].0) && c < groups[g].ranges@.len()
                && groups[g].ranges@[c] is Some ==> {
                let r = groups[g].ranges@[c]->Some_0;
                &&& !text::bytes_before(encode_utf8(lits[k].1), r.min@)
                &&& !text::bytes_before(r.max@, encode_utf8(lits[k].1))
            },
        forall|i: int, j: int|
            0 <= i < j < admitting(columns, groups, lits, groups.len() as int).len()
                ==> #[trigger] admitting(columns, groups, lits, groups.len() as int)[i]
                < #[trigger] admitting(columns, groups, lits, groups.len() as int)[j],
{
    let n = groups.len() as int;
    lemma_admitting_has(columns, groups, lits, n, g);
    lemma_admitting_in_order(columns, groups, lits, n);
    if admits(columns, groups[g], lits) {
        assert forall|k: int, c: int|
            #![trigger lits[k], columns[c]]
            0 <= k < lits.len() && 0 <= c < columns.len() && columns[c] == lits[k].0 && (forall|
                d: int,
            |
                0 <= d < c ==> #[trigger] columns[d] != lits[k].0) && c < groups[g].ranges@.len()
                && groups[g].ranges@[c] is Some implies {
            let r = groups[g].ranges@[c]->Some_0;
            &&& !text::bytes_before(encode_utf8(lits[k].1), r.min@)
            &&& !text::bytes_before(r.max@, encode_utf8(lits[k].1))
        } by {
            assert(!excluded(columns, groups[g], lits[k]));
            lemma_name_at(columns, lits[k].0);
            let f = name_at(columns, lits[k].0)->Some_0;
            if f < c {
                assert(columns[f] != lits[k].0);
            }
        }
    } else {
        let k = choose|k: int|
            0 <= k < lits.len() && excluded(columns, groups[g], #[trigger] lits[k]);
        lemma_name_at(columns, lits[k].0);
        let c = name_at(columns, lits[k].0)->Some_0;
        assert(columns[c] == lits[k].0);
    }
}

proof fn lemma_admitting_in_order(
    columns: Seq<Seq<char>>,
    groups: Seq<RowGroup>,
    lits: Seq<(Seq<char>, Seq<char>)>,
    n: int,
)
    ensures
        forall|i: int, j: int|
            0 <= i < j < admitting(columns, groups, lits, n).len() ==> #[trigger] admitting(
                columns,
                groups,
                lits,
                n,
            )[i] < #[trigger] admitting(columns, groups, lits, n)[j],
    decreases n,
{
    if n > 0 {
        lemma_admitting_in_order(columns, groups, lits, n - 1);
        lemma_admitting_below(columns, groups, lits, n - 1);
        let p = admitting(columns, groups, lits, n - 1);
        let q = admitting(columns, groups, lits, n);
        assert forall|i: int, j: int| 0 <= i < j < q.len() implies #[trigger] q[i]
            < #[trigger] q[j] by {
            assert(q[i] == p[i]);
            if j < p.len() {
                assert(q[j] == p[j]);
            }
        }
    }
}

/// What a bloom filter says of a literal: there is none, the value may be
/// there, or it is not.
#[derive(Debug, Clone, Copy, PartialEq, Eq, Structural)]
pub enum Bloom {
    Missing,
    Maybe,
    Absent,
}

/// The candidates, among the first `n`, of which no bloom filter says that a
/// literal is not there.
pub open spec fn not_absent(
    candidates: Seq<usize>,
    answers: Seq<Vec<Bloom>>,
    n: int,
) -> Seq<usize>
    decreases n,
{
    if n <= 0 {
        Seq::empty()
    } else {
        let p = not_absent(candidates, answers, n - 1);
        if answers[n - 1]@.contains(Bloom::Absent) {
            p
        } else {
            p.push(candidates[n - 1])
        }
    }
}

/// The candidates that no bloom filter rules out. `answers` holds, for each
/// candidate, what the filters of the literals' columns say.
pub fn bloom_keep_row_groups(candidates: &Vec<usize>, answers: &Vec<Vec<Bloom>>) -> (r: Vec<usize>)
    requires
        answers.len() == candidates.len(),
    ensures
        r@ == not_absent(candidates@, answers@, candidates@.len() as int),
        r@.len() <= candidates@.len(),
{
    let mut out: Vec<usize> = Vec::new();
    let mut i: usize = 0;
    while i < candidates.len()
        invariant
            i <= candidates.len(),
            answers.len() == candidates.len(),
            out@.len() <= i,
            out@ == not_absent(candidates@, answers@, i as int),
        decreases candidates.len() - i,
    {
        let row = &answers[i];
        let mut absent: bool = false;
        let mut k: usize = 0;
        while k < row.len()
            invariant
                k <= row.len(),
                absent == exists|j: int| 0 <= j < k && #[trigger] row@[j] == Bloom::Absent,
            decreases row.len() - k,
        {
            if row[k] == Bloom::Absent {
                assert(row@[k as int] == Bloom::Absent);
                absent = true;
            }
            k += 1;
        }
        assert(absent == row@.contains(Bloom::Absent));
        if !absent {
            out.push(candidates[i]);
        }
        i += 1;
    }
    out
}

// ------------------------------------------------------------------ scan counters

/// Running totals of what scans considered and skipped.
#[derive(Debug, Clone, Copy, PartialEq, Eq, Structural)]
pub struct ScanStats {
    pub files_considered: u64,
    pub files_time_pruned: u64,
    pub row_groups_considered: u64,
    pub row_groups_stats_pruned: u64,
    pub row_groups_bloom_pruned: u64,
    pub row_groups_scanned: u64,
    pub meta_cache_hits: u64,
    pub meta_cache_misses: u64,
}

impl Default for ScanStats {
    fn default() -> (r: ScanStats)
        ensures
            r == zero_stats(),
    {
        ScanStats {
            files_considered: 0,
            files_time_pruned: 0,
            row_groups_considered: 0,
            row_groups_stats_pruned: 0,
            row_groups_bloom_pruned: 0,
            row_groups_scanned: 0,
            meta_cache_hits: 0,
            meta_cache_misses: 0,
        }
    }
}

/// Counters that have counted nothing.
pub open spec fn zero_stats() -> ScanStats {
    ScanStats {
        files_considered: 0,
        files_time_pruned: 0,
        row_groups_considered: 0,
        row_groups_stats_pruned: 0,
        row_groups_bloom_pruned: 0,
        row_groups_scanned: 0,
        meta_cache_hits: 0,
        meta_cache_misses: 0,
    }
}

/// A counter after counting `d` more; it wraps round.
pub open spec fn counted(a: u64, d: int) -> u64 {
    ((a + d) % 0x1_0000_0000_0000_0000) as u64
}

fn bump(a: u64, d: u64) -> (r: u64)
    ensures
        r == counted(a, d as int),
{
    a.wrapping_add(d)
}

impl ScanStats {
    /// Counts a file, and says whether its time range keeps it out.
    pub fn consider_file(&mut self, p: &Pruning, min_ts_ns: i64, max_ts_ns: i64) -> (r: bool)
        ensures
            r == out_of_time(p@, min_ts_ns, max_ts_ns),
            *final(self) == (ScanStats {
                files_considered: counted(old(self).files_considered, 1),
                files_time_pruned: if r {
                    counted(old(self).files_time_pruned, 1)
                } else {
                    old(self).files_time_pruned
                },
                ..*old(self)
            }),
    {
        self.files_considered = bump(self.files_considered, 1);
        let out: bool = time_prunes(p, min_ts_ns, max_ts_ns);
        if out {
            self.files_time_pruned = bump(self.files_time_pruned, 1);
        }
        out
    }

    /// Counts where a footer came from.
    pub fn note_footer(&mut self, cached: bool)
        ensures
            *final(self) == (if cached {
                ScanStats { meta_cache_hits: counted(old(self).meta_cache_hits, 1), ..*old(self) }
            } else {
                ScanStats {
                    meta_cache_misses: counted(old(self).meta_cache_misses, 1),
                    ..*old(self)
                }
            }),
    {
        if cached {
            self.meta_cache_hits = bump(self.meta_cache_hits, 1);
        } else {
            self.meta_cache_misses = bump(self.meta_cache_misses, 1);
        }
    }

    /// Counts a file's row groups: all, those that the ranges left, and those
    /// that the bloom filters left of them.
    pub fn note_groups(&mut self, all: usize, by_stats: usize, kept: usize)
        requires
            kept <= by_stats <= all,
        ensures
            *final(self) == (ScanStats {
                row_groups_considered: counted(old(self).row_groups_considered, all as int),
                row_groups_stats_pruned: counted(
                    old(self).row_groups_stats_pruned,
                    all - by_stats,
                ),
                row_groups_bloom_pruned: counted(
                    old(self).row_groups_bloom_pruned,
                    by_stats - kept,
                ),
                row_groups_scanned: counted(old(self).row_groups_scanned, kept as int),
                ..*old(self)
            }),
    {
        self.row_groups_considered = bump(self.row_groups_considered, all as u64);
        self.row_groups_stats_pruned = bump(self.row_groups_stats_pruned, (all - by_stats) as u64);
        self.row_groups_bloom_pruned = bump(self.row_groups_bloom_pruned, (by_stats - kept) as u64);
        self.row_groups_scanned = bump(self.row_groups_scanned, kept as u64);
    }
}

/// Whether the row groups considered are those pruned by ranges, those pruned
/// by bloom filters and those scanned, as far as counters that wrap round tell.
pub open spec fn ties_out(s: ScanStats) -> bool {
    (s.row_groups_stats_pruned + s.row_groups_bloom_pruned + s.row_groups_scanned)
        % 0x1_0000_0000_0000_0000 == s.row_groups_considered
}

/// Counting a file's row groups keeps the totals tied out.
pub proof fn counting_groups_ties_out(s: ScanStats, all: int, by_stats: int, kept: int)
    requires
        ties_out(s),
        0 <= kept <= by_stats <= all,
    ensures
        ties_out(
            ScanStats {
                row_groups_considered: counted(s.row_groups_considered, all),
                row_groups_stats_pruned: counted(s.row_groups_stats_pruned, all - by_stats),
                row_groups_bloom_pruned: counted(s.row_groups_bloom_pruned, by_stats - kept),
                row_groups_scanned: counted(s.row_groups_scanned, kept),
                ..s
            },
        ),
{
    let m = 0x1_0000_0000_0000_0000int;
    let a = s.row_groups_stats_pruned + (all - by_stats);
    let b = s.row_groups_bloom_pruned + (by_stats - kept);
    let c = s.row_groups_scanned + kept;
    let sum = s.row_groups_stats_pruned + s.row_groups_bloom_pruned + s.row_groups_scanned;
    lemma_add_mod_noop_right(a % m + b % m, c, m);
    lemma_add_mod_noop_right(a % m + c, b, m);
    lemma_add_mod_noop_right(b + c, a, m);
    lemma_add_mod_noop_right(all, sum, m);
    assert((a % m + b % m) + c % m == a % m + b % m + c % m);
    assert((a % m + c) + b % m == (a % m + b % m) + c);
    assert((b + c) + a % m == (a % m + c) + b);
    assert((b + c) + a == all + sum);
}

/// The row groups to read of a file, without any literal to prune by: all.
pub fn every_group(n: usize) -> (r: Vec<usize>)
    ensures
        r@ == Seq::new(n as nat, |i: int| i as usize),
{
    let mut out: Vec<usize> = Vec::new();
    let mut i: usize = 0;
    while i < n
        invariant
            i <= n,
            out@ == Seq::new(i as nat, |k: int| k as usize),
        decreases n - i,
    {
        out.push(i);
        i += 1;
        assert(out@ =~= Seq::new(i as nat, |k: int| k as usize));
    }
    out
}

/// The columns that literals speak of, each with the literal's place, where
/// the file has the column.
pub open spec fn literal_places(
    columns: Seq<Seq<char>>,
    lits: Seq<(Seq<char>, Seq<char>)>,
) -> Seq<(int, int)>
    decreases lits.len(),
{
    if lits.len() == 0 {
        Seq::empty()
    } else {
        let p = literal_places(columns, lits.drop_last());
        match name_at(columns, lits.last().0) {
            Some(i) => p.push((i, lits.len() - 1)),
            None => p,
        }
    }
}

/// The pairs of a list of places.
pub open spec fn places(v: Seq<(usize, usize)>) -> Seq<(int, int)> {
    v.map_values(|p: (usize, usize)| (p.0 as int, p.1 as int))
}

/// The columns of a file to ask for literals: in its bloom filters, and row
/// by row while it is decoded.
pub fn literal_columns(columns: &Vec<String>, lits: &Vec<(String, String)>) -> (r: Vec<
    (usize, usize),
>)
    ensures
        places(r@) == literal_places(text::texts(columns@), ingest::tag_views(lits@)),
{
    let ghost names = text::texts(columns@);
    let ghost all = ingest::tag_views(lits@);
    let mut out: Vec<(usize, usize)> = Vec::new();
    let mut i: usize = 0;
    assert(all.take(0) =~= Seq::empty());
    assert(places(out@) =~= Seq::empty());
    while i < lits.len()
        invariant
            i <= lits.len(),
            names == text::texts(columns@),
            all == ingest::tag_views(lits@),
            places(out@) == literal_places(names, all.take(i as int)),
        decreases lits.len() - i,
    {
        assert(all.take(i + 1).drop_last() =~= all.take(i as int));
        assert(all[i as int].0 == lits@[i as int].0@);
        let ghost done = places(out@);
        if let Some(c) = find_name(columns, lits[i].0.as_str()) {
            out.push((c, i));
            assert(places(out@) =~= done.push((c as int, i as int)));
        }
        i += 1;
    }
    assert(all.take(all.len() as int) =~= all);
    out
}

/// The places of literals: for each literal whose column the file has, the first
/// column of that name and the literal's own place, and nothing else.
pub proof fn each_literal_has_the_place_of_its_column(
    columns: Seq<Seq<char>>,
    lits: Seq<(Seq<char>, Seq<char>)>,
    c: int,
    k: int,
)
    ensures
        literal_places(columns, lits).contains((c, k)) <==> 0 <= k < lits.len() && 0 <= c
            < columns.len() && columns[c] == lits[k].0 && forall|d: int|
            0 <= d < c ==> #[trigger] columns[d] != lits[k].0,
    decreases lits.len(),
{
    if lits.len() > 0 {
        let init = lits.drop_last();
        let p = literal_places(columns, init);
        let q = literal_places(columns, lits);
        each_literal_has_the_place_of_its_column(columns, init, c, k);
        lemma_name_at(columns, lits.last().0);
        if p.contains((c, k)) {
            let i = choose|i: int| 0 <= i < p.len() && p[i] == (c, k);
            assert(q[i] == (c, k));
        }
        if q.contains((c, k)) {
            let i = choose|i: int| 0 <= i < q.len() && q[i] == (c, k);
            if i < p.len() {
                assert(p[i] == (c, k));
            }
        }
        if k == lits.len() - 1 && 0 <= c < columns.len() && columns[c] == lits[k].0 && (forall|
            d: int,
        |
            0 <= d < c ==> #[trigger] columns[d] != lits[k].0) {
            let f = name_at(columns, lits.last().0);
            assert(f is Some) by {
                assert(columns[c] == lits.last().0);
            }
            if f->Some_0 < c {
                assert(columns[f->Some_0] != lits[k].0);
            }
            assert(q[p.len() as int] == (c, k));
        }
    }
}

/// Whether no answer says that a value is absent.
pub open spec fn undenied(answers: Seq<Bloom>) -> bool {
    forall|k: int| 0 <= k < answers.len() ==> #[trigger] answers[k] != Bloom::Absent
}

/// Of the first `n` candidates one is kept exactly if none of the bloom filters
/// that were asked says that its value is absent; those that are kept stay in
/// their order.
pub proof fn a_candidate_is_kept_unless_a_filter_denies_it(
    candidates: Seq<usize>,
    answers: Seq<Vec<Bloom>>,
    n: int,
) -> (at: Seq<int>)
    requires
        0 <= n <= candidates.len(),
        answers.len() == candidates.len(),
    ensures
        not_absent(candidates, answers, n) == at.map_values(|i: int| candidates[i]),
        forall|i: int, j: int| 0 <= i < j < at.len() ==> #[trigger] at[i] < #[trigger] at[j],
        forall|i: int|
            #[trigger] at.contains(i) <==> 0 <= i < n && undenied(answers[i]@),
    decreases n,
{
    if n <= 0 {
        let at = Seq::<int>::empty();
        assert(not_absent(candidates, answers, n) =~= at.map_values(|i: int| candidates[i]));
        at
    } else {
        let p = a_candidate_is_kept_unless_a_filter_denies_it(candidates, answers, n - 1);
        let denied = answers[n - 1]@.contains(Bloom::Absent);
        let at = if denied {
            p
        } else {
            p.push(n - 1)
        };
        assert(not_absent(candidates, answers, n) =~= at.map_values(|i: int| candidates[i]));
        if denied {
            let row = answers[n - 1]@;
            let k = choose|k: int| 0 <= k < row.len() && row[k] == Bloom::Absent;
            assert(answers[n - 1]@[k] == Bloom::Absent);
        } else {
            assert forall|k: int| 0 <= k < answers[n - 1]@.len() implies (
            #[trigger] answers[n - 1]@[k]) != Bloom::Absent by {
                if answers[n - 1]@[k] == Bloom::Absent {
                    assert(answers[n - 1]@.contains(Bloom::Absent));
                }
            }
        }
        assert(denied <==> !undenied(answers[n - 1]@));
        assert forall|i: int| #[trigger] at.contains(i) <==> 0 <= i < n && undenied(
            answers[i]@,
        ) by {
            if p.contains(i) {
                let j = choose|j: int| 0 <= j < p.len() && p[j] == i;
                assert(at[j] == i);
            }
            if at.contains(i) {
                let j = choose|j: int| 0 <= j < at.len() && at[j] == i;
                if j < p.len() {
                    assert(p[j] == i);
                    assert(p.contains(i));
                }
            }
            if i == n - 1 && !denied {
                assert(at[p.len() as int] == i);
            }
        }
        assert forall|i: int, j: int| 0 <= i < j < at.len() implies #[trigger] at[i]
            < #[trigger] at[j] by {
            assert(at[i] == p[i]);
            if j < p.len() {
                assert(at[j] == p[j]);
            } else {
                assert(p.contains(p[i]));
            }
        }
        at
    }
}

/// Which row groups of a file are read: all of them where nothing is to be
/// equal, and otherwise those that the ranges admit, less those of which a bloom
/// filter says that a value is absent.
pub proof fn a_group_is_read_unless_it_cannot_match(
    columns: Seq<Seq<char>>,
    groups: Seq<RowGroup>,
    lits: Seq<(Seq<char>, Seq<char>)>,
    answers: Seq<Vec<Bloom>>,
    g: int,
)
    requires
        groups.len() <= usize::MAX,
        lits.len() > 0 ==> answers.len() == admitting(
            columns,
            groups,
            lits,
            groups.len() as int,
        ).len(),
    ensures
        lits.len() == 0 ==> (groups_read(columns, groups, lits, answers).contains(g) <==> 0 <= g
            < groups.len()),
        lits.len() > 0 ==> (groups_read(columns, groups, lits, answers).contains(g) <==> exists|
            i: int,
        |
            0 <= i < answers.len() && admitting(columns, groups, lits, groups.len() as int)[i] == g
                && #[trigger] undenied(answers[i]@)),
{
    let read = groups_read(columns, groups, lits, answers);
    if lits.len() == 0 {
        if 0 <= g < groups.len() {
            assert(read[g] == g);
        }
    } else {
        let admitted = admitting(columns, groups, lits, groups.len() as int);
        let candidates = admitted.map_values(|i: int| i as usize);
        let at = a_candidate_is_kept_unless_a_filter_denies_it(candidates, answers, candidates.len() as int);
        lemma_admitting_below(columns, groups, lits, groups.len() as int);
        assert(read.len() == at.len());
        assert forall|k: int| 0 <= k < at.len() implies #[trigger] read[k] == admitted[at[k]] by {
            assert(at.contains(at[k]));
            assert(candidates[at[k]] == admitted[at[k]] as usize);
            assert(0 <= admitted[at[k]] < groups.len());
        }
        if read.contains(g) {
            let k = choose|k: int| 0 <= k < read.len() && read[k] == g;
            assert(at.contains(at[k]));
            let i = at[k];
            assert(admitted[i] == g);
            assert(undenied(answers[i]@));
        }
        if exists|i: int|
            0 <= i < answers.len() && admitted[i] == g && #[trigger] undenied(answers[i]@) {
            let i = choose|i: int|
                0 <= i < answers.len() && admitted[i] == g && #[trigger] undenied(answers[i]@);
            assert(at.contains(i));
            let k = choose|k: int| 0 <= k < at.len() && at[k] == i;
            assert(read[k] == g);
        }
    }
}

/// The row groups of a file that are read: all of them without a literal, else
/// those that the ranges admit and no bloom filter rules out.
pub open spec fn groups_read(
    columns: Seq<Seq<char>>,
    groups: Seq<RowGroup>,
    lits: Seq<(Seq<char>, Seq<char>)>,
    answers: Seq<Vec<Bloom>>,
) -> Seq<int> {
    if lits.len() == 0 {
        Seq::new(groups.len(), |i: int| i)
    } else {
        let admitted = admitting(columns, groups, lits, groups.len() as int);
        batch::positions(
            not_absent(admitted.map_values(|i: int| i as usize), answers, admitted.len() as int),
        )
    }
}

/// The counters behind a file with so many row groups, of which the ranges admit
/// so many and so many are read.
pub open spec fn groups_counted(stats: ScanStats, all: int, admitted: int, read: int) -> ScanStats {
    ScanStats {
        row_groups_considered: counted(stats.row_groups_considered, all),
        row_groups_stats_pruned: counted(stats.row_groups_stats_pruned, all - admitted),
        row_groups_bloom_pruned: counted(stats.row_groups_bloom_pruned, admitted - read),
        row_groups_scanned: counted(stats.row_groups_scanned, read),
        ..stats
    }
}

proof fn lemma_admitted_groups_exist(
    columns: Seq<Seq<char>>,
    groups: Seq<RowGroup>,
    lits: Seq<(Seq<char>, Seq<char>)>,
    n: int,
    i: int,
)
    requires
        0 <= n <= groups.len(),
        0 <= i < admitting(columns, groups, lits, n).len(),
    ensures
        0 <= admitting(columns, groups, lits, n)[i] < n,
    decreases n,
{
    if n > 0 {
        let p = admitting(columns, groups, lits, n - 1);
        if i < p.len() {
            lemma_admitted_groups_exist(columns, groups, lits, n - 1, i);
        }
    }
}

proof fn lemma_kept_groups_are_candidates(
    candidates: Seq<usize>,
    answers: Seq<Vec<Bloom>>,
    n: int,
    i: int,
)
    requires
        0 <= n <= candidates.len(),
        0 <= i < not_absent(candidates, answers, n).len(),
    ensures
        candidates.contains(not_absent(candidates, answers, n)[i]),
    decreases n,
{
    if n > 0 {
        let p = not_absent(candidates, answers, n - 1);
        if i < p.len() {
            lemma_kept_groups_are_candidates(candidates, answers, n - 1, i);
        } else {
            assert(candidates[n - 1] == not_absent(candidates, answers, n)[i]);
        }
    }
}

/// A group that is read is a group of the file.
pub proof fn groups_read_exist(
    columns: Seq<Seq<char>>,
    groups: Seq<RowGroup>,
    lits: Seq<(Seq<char>, Seq<char>)>,
    answers: Seq<Vec<Bloom>>,
    i: int,
)
    requires
        groups.len() <= usize::MAX,
        0 <= i < groups_read(columns, groups, lits, answers).len(),
    ensures
        0 <= groups_read(columns, groups, lits, answers)[i] < groups.len(),
{
    if lits.len() > 0 {
        let admitted = admitting(columns, groups, lits, groups.len() as int);
        let candidates = admitted.map_values(|i: int| i as usize);
        lemma_kept_groups_are_candidates(candidates, answers, admitted.len() as int, i);
        let kept = not_absent(candidates, answers, admitted.len() as int);
        let k = choose|k: int| 0 <= k < candidates.len() && candidates[k] == kept[i];
        lemma_admitted_groups_exist(columns, groups, lits, groups.len() as int, k);
        assert(candidates[k] == admitted[k] as usize);
    }
}

/// Chooses the row groups of a file to read, and counts them. `answers` holds
/// what the bloom filters say of each group that the ranges admit.
pub fn choose_groups(
    file: &FileGroups,
    p: &Pruning,
    answers: &Vec<Vec<Bloom>>,
    stats: &mut ScanStats,
) -> (r: Vec<usize>)
    requires
        p.tag_equals.len() > 0 ==> answers@.len() == admitting(
            text::texts(file.columns@),
            file.groups@,
            p@.tag_equals,
            file.groups@.len() as int,
        ).len(),
    ensures
        batch::positions(r@) == groups_read(
            text::texts(file.columns@),
            file.groups@,
            p@.tag_equals,
            answers@,
        ),
        *final(stats) == groups_counted(
            *old(stats),
            file.groups@.len() as int,
            if p@.tag_equals.len() == 0 {
                file.groups@.len() as int
            } else {
                answers@.len() as int
            },
            r@.len() as int,
        ),
{
    let n: usize = file.groups.len();
    assert(p@.tag_equals.len() == p.tag_equals@.len());
    if p.tag_equals.len() == 0 {
        let all = every_group(n);
        stats.note_groups(n, n, n);
        assert(batch::positions(all@) =~= Seq::new(file.groups@.len(), |i: int| i));
        return all;
    }
    let by_stats = stats_keep_row_groups(file, &p.tag_equals);
    let ghost admitted = batch::positions(by_stats@);
    assert(admitted.map_values(|i: int| i as usize) =~= by_stats@);
    let kept = bloom_keep_row_groups(&by_stats, answers);
    stats.note_groups(n, by_stats.len(), kept.len());
    kept
}

} // verus!
