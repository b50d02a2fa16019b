//! Rollups: a table downsampled into another. What a definition must satisfy,
//! and what is planned of one that is asked for.
use crate::api;
use crate::api::changes::{Mutation, MutationView, Operation};
use crate::api::retention;
use crate::api::retention::{parse_duration_secs, scope};
use crate::api::{audit_gate, refuse_with, require, Refusal, RefusalView};
use crate::audit::AuditLog;
use crate::auth::{Role, SessionInfo};
use crate::batch;
use crate::ingest;
use crate::json;
use crate::pairs;
use crate::text;
use vstd::prelude::*;

verus! {

/// What is computed of the rows of a bucket.
#[derive(Debug, Clone, Copy, PartialEq, Eq, Structural)]
pub enum RollupFn {
    Avg,
    Min,
    Max,
    Sum,
    Count,
    First,
    Last,
    CountDistinct,
    Percentile,
}

impl RollupFn {
    /// Whether the function takes a quantile.
    pub fn takes_quantile(self) -> (r: bool)
        ensures
            r == (self == RollupFn::Percentile),
    {
        match self {
            RollupFn::Percentile => true,
            _ => false,
        }
    }
}

/// A quantile: the bits of the number, and how it is shown.
#[derive(Debug, Clone)]
pub struct Quantile {
    pub bits: u64,
    pub shown: String,
}

/// The bits of one.
pub const ONE: u64 = 0x3ff0_0000_0000_0000;

/// The bits of zero with a sign.
pub const MINUS_ZERO: u64 = 0x8000_0000_0000_0000;

/// Whether the number with some bits is between zero and one: without a sign
/// numbers are ordered as their bits are.
pub open spec fn in_unit(bits: u64) -> bool {
    bits <= ONE || bits == MINUS_ZERO
}

/// One column of a target: a function of a column of the source.
#[derive(Debug, Clone)]
pub struct RollupAgg {
    pub function: RollupFn,
    pub source_column: String,
    pub target_column: String,
    pub quantile: Option<Quantile>,
}

/// What a column of a target is.
#[verifier::ext_equal]
pub struct AggView {
    pub function: RollupFn,
    pub source_column: Seq<char>,
    pub target_column: Seq<char>,
    pub quantile: Option<(u64, Seq<char>)>,
}

impl View for RollupAgg {
    type V = AggView;

    open spec fn view(&self) -> AggView {
        AggView {
            function: self.function,
            source_column: self.source_column@,
            target_column: self.target_column@,
            quantile: match self.quantile {
                Some(q) => Some((q.bits, q.shown@)),
                None => None,
            },
        }
    }
}

/// The columns of a target.
pub open spec fn agg_views(v: Seq<RollupAgg>) -> Seq<AggView> {
    v.map_values(|a: RollupAgg| a@)
}

/// A table downsampled into another, bucket by bucket, as far back as late rows
/// are taken in.
#[derive(Debug, Clone)]
pub struct RollupDef {
    pub db: String,
    pub name: String,
    pub source: String,
    pub target: String,
    pub interval_secs: u64,
    pub lookback_secs: u64,
    /// The tags to keep; none stands for all.
    pub group_by: Vec<String>,
    pub aggregations: Vec<RollupAgg>,
    pub filter: Option<String>,
}

/// What a definition says.
#[verifier::ext_equal]
pub struct DefView {
    pub db: Seq<char>,
    pub name: Seq<char>,
    pub source: Seq<char>,
    pub target: Seq<char>,
    pub interval_secs: u64,
    pub lookback_secs: u64,
    pub group_by: Seq<Seq<char>>,
    pub aggregations: Seq<AggView>,
    pub filter: Option<Seq<char>>,
}

impl View for RollupDef {
    type V = DefView;

    open spec fn view(&self) -> DefView {
        DefView {
            db: self.db@,
            name: self.name@,
            source: self.source@,
            target: self.target@,
            interval_secs: self.interval_secs,
            lookback_secs: self.lookback_secs,
            group_by: text::texts(self.group_by@),
            aggregations: agg_views(self.aggregations@),
            filter: batch::opt_text(self.filter),
        }
    }
}

// ------------------------------------------------------------------- validation

/// Whether a text is nothing but space.
pub open spec fn blank(s: Seq<char>) -> bool {
    text::trimmed(s).len() == 0
}

fn is_blank(s: &str) -> (r: bool)
    ensures
        r == blank(s@),
{
    text::trim(s).as_str().unicode_len() == 0
}

/// Whether a column of a target is written by one of the first aggregations.
pub open spec fn written_before(aggs: Seq<AggView>, name: Seq<char>, n: int) -> bool {
    exists|j: int| 0 <= j < n && (#[trigger] aggs[j]).target_column == name
}

/// What is wrong with the quantile of an aggregation.
pub open spec fn quantile_fault(a: AggView) -> Option<Seq<char>> {
    match (a.function == RollupFn::Percentile, a.quantile) {
        (true, None) => Some(
            "aggregation "@ + text::debug_text(a.target_column)
                + " is a percentile and needs a quantile (0.0–1.0)"@,
        ),
        (true, Some((bits, shown))) => if in_unit(bits) {
            None
        } else {
            Some(
                "percentile quantile for "@ + text::debug_text(a.target_column)
                    + " must be within 0.0–1.0, got "@ + shown,
            )
        },
        (false, Some(_)) => Some(
            "aggregation "@ + text::debug_text(a.target_column)
                + " takes no quantile — only percentile does"@,
        ),
        (false, None) => None,
    }
}

/// What is wrong with an aggregation, given those in front of it.
pub open spec fn agg_fault(aggs: Seq<AggView>, i: int) -> Option<Seq<char>> {
    let a = aggs[i];
    if blank(a.source_column) || blank(a.target_column) {
        Some("each aggregation needs a source_column and a target_column"@)
    } else if a.target_column == "time"@ {
        Some("a target_column may not be named 'time' (the bucket column)"@)
    } else if written_before(aggs, a.target_column, i) {
        Some(
            "two aggregations write the same target_column "@ + text::debug_text(a.target_column),
        )
    } else {
        quantile_fault(a)
    }
}

/// What is wrong with the first aggregation with which something is wrong, from
/// a place on.
pub open spec fn aggs_fault(aggs: Seq<AggView>, i: int) -> Option<Seq<char>>
    decreases aggs.len() - i,
{
    if i < 0 || i >= aggs.len() {
        None
    } else {
        match agg_fault(aggs, i) {
            Some(m) => Some(m),
            None => aggs_fault(aggs, i + 1),
        }
    }
}

/// What is wrong with the first kept tag that is a column of the target too,
/// from a place on.
pub open spec fn tags_fault(group_by: Seq<Seq<char>>, aggs: Seq<AggView>, i: int) -> Option<
    Seq<char>,
>
    decreases group_by.len() - i,
{
    if i < 0 || i >= group_by.len() {
        None
    } else if written_before(aggs, group_by[i], aggs.len() as int) {
        Some(
            "group_by tag "@ + text::debug_text(group_by[i])
                + " collides with an aggregation's target_column"@,
        )
    } else {
        tags_fault(group_by, aggs, i + 1)
    }
}

/// What is wrong with the names and the times of a definition.
pub open spec fn head_fault(d: DefView) -> Option<Seq<char>> {
    if blank(d.db) {
        Some("db must not be empty: name the database this rollup runs in"@)
    } else if blank(d.name) {
        Some("rollup name must not be empty"@)
    } else if blank(d.source) {
        Some("source table must not be empty"@)
    } else if blank(d.target) {
        Some("target table must not be empty"@)
    } else if d.source == d.target {
        Some("source and target must differ — a rollup cannot feed itself"@)
    } else if d.interval_secs == 0 {
        Some("interval must be > 0"@)
    } else if d.lookback_secs < d.interval_secs {
        Some("lookback must be ≥ interval: a pass has to cover at least one whole bucket"@)
    } else if d.aggregations.len() == 0 {
        Some("a rollup needs at least one aggregation"@)
    } else {
        None
    }
}

/// What is wrong with a definition.
pub open spec fn fault(d: DefView) -> Option<Seq<char>> {
    match head_fault(d) {
        Some(m) => Some(m),
        None => match aggs_fault(d.aggregations, 0) {
            Some(m) => Some(m),
            None => if d.filter matches Some(f) && blank(f) {
                Some("filter, if given, must not be blank"@)
            } else {
                tags_fault(d.group_by, d.aggregations, 0)
            },
        },
    }
}

/// Whether a check found what is wrong, or that nothing is.
pub open spec fn finds(r: Result<(), String>, m: Option<Seq<char>>) -> bool {
    match (r, m) {
        (Ok(_), None) => true,
        (Err(e), Some(t)) => e@ == t,
        _ => false,
    }
}

fn says(front: &str, name: &str, back: &str) -> (r: String)
    ensures
        r@ == front@ + text::debug_text(name@) + back@,
{
    let mut m = front.to_owned();
    m.append(text::quote(name).as_str());
    m.append(back);
    m
}

fn is_written(aggs: &Vec<RollupAgg>, name: &str, n: usize) -> (r: bool)
    requires
        n <= aggs.len(),
    ensures
        r == written_before(agg_views(aggs@), name@, n as int),
{
    let ghost all = agg_views(aggs@);
    let mut j: usize = 0;
    while j < n
        invariant
            j <= n <= aggs.len(),
            all == agg_views(aggs@),
            forall|k: int| 0 <= k < j ==> (#[trigger] all[k]).target_column != name@,
        decreases n - j,
    {
        assert(all[j as int] == aggs@[j as int]@);
        if text::same(aggs[j].target_column.as_str(), name) {
            return true;
        }
        j += 1;
    }
    false
}

fn check_quantile(a: &RollupAgg) -> (r: Result<(), String>)
    ensures
        finds(r, quantile_fault(a@)),
{
    let name = a.target_column.as_str();
    if a.function.takes_quantile() {
        match &a.quantile {
            None => Err(
                says("aggregation ", name, " is a percentile and needs a quantile (0.0–1.0)"),
            ),
            Some(q) => if q.bits <= ONE || q.bits == MINUS_ZERO {
                Ok(())
            } else {
                let mut m = says(
                    "percentile quantile for ",
                    name,
                    " must be within 0.0–1.0, got ",
                );
                m.append(q.shown.as_str());
                Err(m)
            },
        }
    } else {
        match &a.quantile {
            Some(_) => Err(says("aggregation ", name, " takes no quantile — only percentile does")),
            None => Ok(()),
        }
    }
}

fn check_agg(aggs: &Vec<RollupAgg>, i: usize) -> (r: Result<(), String>)
    requires
        i < aggs.len(),
    ensures
        finds(r, agg_fault(agg_views(aggs@), i as int)),
{
    let a = &aggs[i];
    assert(agg_views(aggs@)[i as int] == a@);
    if is_blank(a.source_column.as_str()) || is_blank(a.target_column.as_str()) {
        return Err("each aggregation needs a source_column and a target_column".to_owned());
    }
    if text::same(a.target_column.as_str(), "time") {
        return Err("a target_column may not be named 'time' (the bucket column)".to_owned());
    }
    if is_written(aggs, a.target_column.as_str(), i) {
        let mut m = "two aggregations write the same target_column ".to_owned();
        m.append(text::quote(a.target_column.as_str()).as_str());
        return Err(m);
    }
    check_quantile(a)
}

fn check_aggs(aggs: &Vec<RollupAgg>) -> (r: Result<(), String>)
    ensures
        finds(r, aggs_fault(agg_views(aggs@), 0)),
{
    let mut i: usize = 0;
    while i < aggs.len()
        invariant
            i <= aggs.len(),
            aggs_fault(agg_views(aggs@), 0) == aggs_fault(agg_views(aggs@), i as int),
        decreases aggs.len() - i,
    {
        if let Err(m) = check_agg(aggs, i) {
            return Err(m);
        }
        i += 1;
    }
    Ok(())
}

fn check_tags(group_by: &Vec<String>, aggs: &Vec<RollupAgg>) -> (r: Result<(), String>)
    ensures
        finds(r, tags_fault(text::texts(group_by@), agg_views(aggs@), 0)),
{
    let ghost all = text::texts(group_by@);
    let mut i: usize = 0;
    while i < group_by.len()
        invariant
            i <= group_by.len(),
            all == text::texts(group_by@),
            tags_fault(all, agg_views(aggs@), 0) == tags_fault(all, agg_views(aggs@), i as int),
        decreases group_by.len() - i,
    {
        assert(all[i as int] == group_by@[i as int]@);
        if is_written(aggs, group_by[i].as_str(), aggs.len()) {
            return Err(
                says(
                    "group_by tag ",
                    group_by[i].as_str(),
                    " collides with an aggregation's target_column",
                ),
            );
        }
        i += 1;
    }
    Ok(())
}

impl RollupDef {
    fn check_head(&self) -> (r: Result<(), String>)
        ensures
            finds(r, head_fault(self@)),
    {
        if is_blank(self.db.as_str()) {
            return Err("db must not be empty: name the database this rollup runs in".to_owned());
        }
        if is_blank(self.name.as_str()) {
            return Err("rollup name must not be empty".to_owned());
        }
        if is_blank(self.source.as_str()) {
            return Err("source table must not be empty".to_owned());
        }
        if is_blank(self.target.as_str()) {
            return Err("target table must not be empty".to_owned());
        }
        if text::same(self.source.as_str(), self.target.as_str()) {
            return Err("source and target must differ — a rollup cannot feed itself".to_owned());
        }
        if self.interval_secs == 0 {
            return Err("interval must be > 0".to_owned());
        }
        if self.lookback_secs < self.interval_secs {
            return Err(
                "lookback must be ≥ interval: a pass has to cover at least one whole bucket".to_owned(),
            );
        }
        if self.aggregations.len() == 0 {
            return Err("a rollup needs at least one aggregation".to_owned());
        }
        Ok(())
    }

    /// Whether the definition is sound in itself, or what is wrong with it.
    pub fn validate(&self) -> (r: Result<(), String>)
        ensures
            finds(r, fault(self@)),
    {
        if let Err(m) = self.check_head() {
            return Err(m);
        }
        if let Err(m) = check_aggs(&self.aggregations) {
            return Err(m);
        }
        if let Some(f) = &self.filter {
            if is_blank(f.as_str()) {
                return Err("filter, if given, must not be blank".to_owned());
            }
        }
        check_tags(&self.group_by, &self.aggregations)
    }
}

proof fn lemma_aggs_sound(aggs: Seq<AggView>, i: int, j: int)
    requires
        0 <= i <= j < aggs.len(),
        aggs_fault(aggs, i) is None,
    ensures
        agg_fault(aggs, j) is None,
    decreases j - i,
{
    if i < j {
        lemma_aggs_sound(aggs, i + 1, j);
    }
}

proof fn lemma_tags_sound(group_by: Seq<Seq<char>>, aggs: Seq<AggView>, i: int, j: int)
    requires
        0 <= i <= j < group_by.len(),
        tags_fault(group_by, aggs, i) is None,
    ensures
        !written_before(aggs, group_by[j], aggs.len() as int),
    decreases j - i,
{
    if i < j {
        lemma_tags_sound(group_by, aggs, i + 1, j);
    }
}

/// A sound rollup does not feed itself, covers at least a bucket, and writes
/// each column of its target once: the bucket, the kept tags, and the
/// aggregations have names of their own.
pub proof fn sound_rollups_write_each_column_once(d: DefView)
    requires
        fault(d) is None,
    ensures
        d.source != d.target,
        0 < d.interval_secs <= d.lookback_secs,
        d.aggregations.len() > 0,
        forall|i: int|
            0 <= i < d.aggregations.len() ==> (#[trigger] d.aggregations[i]).target_column
                != "time"@,
        forall|i: int, j: int|
            0 <= i < j < d.aggregations.len() ==> (#[trigger] d.aggregations[i]).target_column != (
            #[trigger] d.aggregations[j]).target_column,
        forall|i: int, j: int|
            0 <= i < d.aggregations.len() && 0 <= j < d.group_by.len() ==> (
            #[trigger] d.aggregations[i]).target_column != #[trigger] d.group_by[j],
{
    let aggs = d.aggregations;
    assert forall|i: int| 0 <= i < aggs.len() implies (#[trigger] aggs[i]).target_column
        != "time"@ by {
        lemma_aggs_sound(aggs, 0, i);
    }
    assert forall|i: int, j: int| 0 <= i < j < aggs.len() implies (#[trigger] aggs[i]).target_column
        != (#[trigger] aggs[j]).target_column by {
        lemma_aggs_sound(aggs, 0, j);
        assert(!written_before(aggs, aggs[j].target_column, j));
    }
    assert forall|i: int, j: int| 0 <= i < aggs.len() && 0 <= j < d.group_by.len() implies (
    #[trigger] aggs[i]).target_column != #[trigger] d.group_by[j] by {
        lemma_tags_sound(d.group_by, aggs, 0, j);
    }
}

// -------------------------------------------------------------------- a change

/// A rollup that is asked for, with its durations as they are written.
#[derive(Debug)]
pub struct RollupSet {
    pub db: String,
    pub name: String,
    pub source: String,
    pub target: Option<String>,
    pub interval: String,
    pub lookback: Option<String>,
    pub group_by: Option<Vec<String>>,
    pub aggregations: Vec<RollupAgg>,
    pub filter: Option<String>,
}

/// A duration that is asked for, or the refusal of what is none.
pub open spec fn duration_or(what: Seq<char>, s: Seq<char>) -> Result<u64, RefusalView> {
    match retention::duration_of(s) {
        Some(n) => Ok(n as u64),
        None => Err(
            api::plain(
                400,
                what + text::debug_text(s) + " is not <n>d/<n>h/<n>m/seconds (> 0)"@,
            ),
        ),
    }
}

/// An optional text without the space around it, unless nothing is left.
pub open spec fn filled(s: Option<Seq<char>>) -> Option<Seq<char>> {
    match s {
        Some(t) => if blank(t) {
            None
        } else {
            Some(text::trimmed(t))
        },
        None => None,
    }
}

/// A column of a target with its names trimmed.
pub open spec fn agg_trimmed(a: AggView) -> AggView {
    AggView {
        source_column: text::trimmed(a.source_column),
        target_column: text::trimmed(a.target_column),
        ..a
    }
}

/// The definition that is asked for: what is not given has a default.
pub open spec fn definition(s: RollupSet, interval_secs: u64, lookback_secs: u64) -> DefView {
    let source = text::trimmed(s.source@);
    DefView {
        db: text::trimmed(s.db@),
        name: text::trimmed(s.name@),
        source,
        target: match filled(batch::opt_text(s.target)) {
            Some(t) => t,
            None => source + "_"@ + text::trimmed(s.interval@),
        },
        interval_secs,
        lookback_secs,
        group_by: match s.group_by {
            Some(g) => text::texts(g@),
            None => Seq::empty(),
        },
        aggregations: agg_views(s.aggregations@).map_values(|a: AggView| agg_trimmed(a)),
        filter: filled(batch::opt_text(s.filter)),
    }
}

/// What is planned of a rollup that is asked for.
pub open spec fn planned(s: RollupSet) -> Result<DefView, RefusalView> {
    match duration_or("interval "@, s.interval@) {
        Err(f) => Err(f),
        Ok(interval) => match s.lookback {
            None => Ok(definition(s, interval, interval)),
            Some(l) => match duration_or("lookback "@, l@) {
                Err(f) => Err(f),
                Ok(lookback) => Ok(definition(s, interval, lookback)),
            },
        },
    }
}

/// Whether a result is the definition or the refusal that it should be.
pub open spec fn gives(r: Result<RollupDef, Refusal>, v: Result<DefView, RefusalView>) -> bool {
    match (r, v) {
        (Ok(d), Ok(w)) => d@ == w,
        (Err(f), Err(g)) => f@ == g,
        _ => false,
    }
}

fn read_duration(what: &str, s: &str) -> (r: Result<u64, Refusal>)
    ensures
        match (r, duration_or(what@, s@)) {
            (Ok(n), Ok(m)) => n == m,
            (Err(f), Err(g)) => f@ == g,
            _ => false,
        },
{
    match parse_duration_secs(s) {
        Some(n) => Ok(n),
        None => Err(refuse_with(400, says(what, s, " is not <n>d/<n>h/<n>m/seconds (> 0)"))),
    }
}

fn trim_filled(s: &Option<String>) -> (r: Option<String>)
    ensures
        batch::opt_text(r) == filled(batch::opt_text(*s)),
{
    match s {
        Some(t) => {
            let u = text::trim(t.as_str());
            if u.as_str().unicode_len() > 0 {
                Some(u)
            } else {
                None
            }
        },
        None => None,
    }
}

fn trim_aggs(aggs: Vec<RollupAgg>) -> (r: Vec<RollupAgg>)
    ensures
        agg_views(r@) == agg_views(aggs@).map_values(|a: AggView| agg_trimmed(a)),
{
    let ghost all = agg_views(aggs@);
    let mut out: Vec<RollupAgg> = Vec::new();
    let mut i: usize = 0;
    while i < aggs.len()
        invariant
            i <= aggs.len(),
            all == agg_views(aggs@),
            out@.len() == i,
            forall|j: int| 0 <= j < i ==> (#[trigger] out@[j])@ == agg_trimmed(all[j]),
        decreases aggs.len() - i,
    {
        let a = &aggs[i];
        let quantile = match &a.quantile {
            Some(q) => Some(Quantile { bits: q.bits, shown: q.shown.clone() }),
            None => None,
        };
        let t = RollupAgg {
            function: a.function,
            source_column: text::trim(a.source_column.as_str()),
            target_column: text::trim(a.target_column.as_str()),
            quantile,
        };
        assert(all[i as int] == a@);
        assert(t@ == agg_trimmed(all[i as int]));
        out.push(t);
        i += 1;
    }
    assert(agg_views(out@) =~= all.map_values(|a: AggView| agg_trimmed(a)));
    out
}

/// Plans a rollup that is asked for.
pub fn plan_rollup(s: RollupSet) -> (r: Result<RollupDef, Refusal>)
    ensures
        gives(r, planned(s)),
{
    let interval_secs: u64 = match read_duration("interval ", s.interval.as_str()) {
        Ok(n) => n,
        Err(f) => {
            return Err(f);
        },
    };
    let lookback_secs: u64 = match &s.lookback {
        None => interval_secs,
        Some(l) => match read_duration("lookback ", l.as_str()) {
            Ok(n) => n,
            Err(f) => {
                return Err(f);
            },
        },
    };
    let source = text::trim(s.source.as_str());
    let target = match trim_filled(&s.target) {
        Some(t) => t,
        None => {
            let mut t = source.clone();
            t.append("_");
            t.append(text::trim(s.interval.as_str()).as_str());
            t
        },
    };
    let group_by: Vec<String> = match s.group_by {
        Some(g) => g,
        None => Vec::new(),
    };
    assert(s.group_by is None ==> text::texts(group_by@) =~= Seq::empty());
    Ok(
        RollupDef {
            db: text::trim(s.db.as_str()),
            name: text::trim(s.name.as_str()),
            source,
            target,
            interval_secs,
            lookback_secs,
            group_by,
            aggregations: trim_aggs(s.aggregations),
            filter: trim_filled(&s.filter),
        },
    )
}

/// What an administrator's change of the rollups meets before what is asked for
/// is read: the role, then the trail.
pub open spec fn gate_refusal(role: Role, trail: bool) -> Option<RefusalView> {
    match api::role_refusal(role, Role::Admin) {
        Some(f) => Some(f),
        None => if trail {
            None
        } else {
            Some(api::no_trail())
        },
    }
}

/// Decides whether an administrator's change may go on.
pub fn admin_gate(session: &SessionInfo, log: &AuditLog) -> (r: Option<Refusal>)
    ensures
        api::opt_view(r) == gate_refusal(session.role, log.healthy || log.fail_open),
{
    match require(session, Role::Admin) {
        Some(f) => Some(f),
        None => audit_gate(log),
    }
}

/// Decides on a rollup that is asked for. `body` is what is asked for, or why
/// it cannot be read.
pub fn rollups_set(session: &SessionInfo, log: &AuditLog, body: Result<RollupSet, String>) -> (r:
    Result<RollupDef, Refusal>)
    ensures
        gives(
            r,
            match gate_refusal(session.role, log.healthy || log.fail_open) {
                Some(f) => Err(f),
                None => match body {
                    Err(m) => Err(api::plain(400, m@)),
                    Ok(s) => planned(s),
                },
            },
        ),
{
    if let Some(f) = admin_gate(session, log) {
        return Err(f);
    }
    match body {
        Ok(s) => plan_rollup(s),
        Err(m) => Err(refuse_with(400, m)),
    }
}

// ------------------------------------------------------------ the stored rollups

/// The place of the first rollup with a database and a name, from a place on.
pub open spec fn place_from(defs: Seq<RollupDef>, db: Seq<char>, name: Seq<char>, i: int) -> Option<
    int,
>
    decreases defs.len() - i,
{
    if i < 0 || i >= defs.len() {
        None
    } else if defs[i].db@ == db && defs[i].name@ == name {
        Some(i)
    } else {
        place_from(defs, db, name, i + 1)
    }
}

fn find_rollup(defs: &Vec<RollupDef>, db: &str, name: &str) -> (r: Option<usize>)
    ensures
        match (r, place_from(defs@, db@, name@, 0)) {
            (Some(i), Some(j)) => i == j && i < defs@.len(),
            (None, None) => true,
            _ => false,
        },
{
    let mut i: usize = 0;
    while i < defs.len()
        invariant
            i <= defs.len(),
            place_from(defs@, db@, name@, 0) == place_from(defs@, db@, name@, i as int),
        decreases defs.len() - i,
    {
        if text::same(defs[i].db.as_str(), db) && text::same(defs[i].name.as_str(), name) {
            return Some(i);
        }
        i += 1;
    }
    None
}

/// The databases and names of rollups, by which they are listed.
pub open spec fn rollup_keys(defs: Seq<RollupDef>) -> Seq<(Seq<char>, Seq<char>)> {
    defs.map_values(|d: RollupDef| (d.db@, d.name@))
}

/// The places of rollups in the order in which they are listed.
pub fn listed(defs: &Vec<RollupDef>) -> (r: Vec<usize>)
    ensures
        r@.len() == defs@.len(),
        pairs::in_turn(rollup_keys(defs@), r@),
{
    let mut keys: Vec<(String, String)> = Vec::new();
    let mut i: usize = 0;
    while i < defs.len()
        invariant
            i <= defs.len(),
            keys@.len() == i,
            forall|j: int|
                0 <= j < i ==> (#[trigger] keys@[j]).0@ == defs@[j].db@ && keys@[j].1@
                    == defs@[j].name@,
        decreases defs.len() - i,
    {
        keys.push((defs[i].db.clone(), defs[i].name.clone()));
        i += 1;
    }
    assert(ingest::tag_views(keys@) =~= rollup_keys(defs@));
    pairs::order(&keys)
}

/// The JSON of the tables of a rollup, as far as what is in front of it.
pub open spec fn tables_json(front: Seq<char>, d: DefView) -> Seq<char> {
    front + "\"source\":"@ + json::json_text(d.source) + ",\"target\":"@ + json::json_text(d.target)
        + "}"@
}

fn tables_text(front: String, d: &RollupDef) -> (r: String)
    ensures
        r@ == tables_json(front@, d@),
{
    let mut s = front;
    json::put_text(&mut s, "\"source\":", d.source.as_str());
    json::put_text(&mut s, ",\"target\":", d.target.as_str());
    s.append("}");
    s
}

/// The JSON of a rollup that is set, as far as its tables.
pub open spec fn head_json(d: DefView) -> Seq<char> {
    "{\"db\":"@ + json::json_text(d.db) + ",\"interval_secs\":"@ + text::decimal(
        d.interval_secs as nat,
    ) + ",\"lookback_secs\":"@ + text::decimal(d.lookback_secs as nat) + ",\"name\":"@
        + json::json_text(d.name) + ","@
}

fn head_text(d: &RollupDef) -> (r: String)
    ensures
        r@ == head_json(d@),
{
    let mut s = String::new();
    json::put_text(&mut s, "{\"db\":", d.db.as_str());
    json::put_number(&mut s, ",\"interval_secs\":", d.interval_secs);
    json::put_number(&mut s, ",\"lookback_secs\":", d.lookback_secs);
    json::put_text(&mut s, ",\"name\":", d.name.as_str());
    s.append(",");
    assert(s@ =~= head_json(d@));
    s
}

/// The JSON of a rollup that is replaced, as far as its tables.
pub open spec fn interval_json(d: DefView) -> Seq<char> {
    "{\"interval_secs\":"@ + text::decimal(d.interval_secs as nat) + ","@
}

/// The change that a definition makes to those that are stored.
pub fn set_mutation(d: &RollupDef, defs: &Vec<RollupDef>) -> (r: Mutation)
    ensures
        r@ == (MutationView {
            op: Operation::RollupSet,
            target: Some(retention::scoped(d.db@, d.name@)),
            before: match place_from(defs@, d.db@, d.name@, 0) {
                Some(i) => Some(tables_json(interval_json(defs@[i]@), defs@[i]@)),
                None => None,
            },
            after: Some(tables_json(head_json(d@), d@)),
        }),
{
    let before = match find_rollup(defs, d.db.as_str(), d.name.as_str()) {
        Some(i) => {
            let mut s = String::new();
            json::put_number(&mut s, "{\"interval_secs\":", defs[i].interval_secs);
            s.append(",");
            assert(s@ =~= interval_json(defs@[i as int]@));
            Some(tables_text(s, &defs[i]))
        },
        None => None,
    };
    Mutation {
        op: Operation::RollupSet,
        target: Some(scope(d.db.as_str(), d.name.as_str())),
        before,
        after: Some(tables_text(head_text(d), d)),
    }
}

/// Decides on the removal of a rollup, which stops its target being fed.
pub fn rollups_delete(
    session: &SessionInfo,
    log: &AuditLog,
    db: &str,
    name: &str,
    defs: &Vec<RollupDef>,
) -> (r: Result<Mutation, Refusal>)
    ensures
        match (r, gate_refusal(session.role, log.healthy || log.fail_open)) {
            (Err(f), Some(g)) => f@ == g,
            (Ok(m), None) => m@ == (MutationView {
                op: Operation::RollupRemove,
                target: Some(retention::scoped(db@, name@)),
                before: match place_from(defs@, db@, name@, 0) {
                    Some(i) => Some(tables_json("{"@, defs@[i]@)),
                    None => None,
                },
                after: None,
            }),
            _ => false,
        },
{
    if let Some(f) = admin_gate(session, log) {
        return Err(f);
    }
    let before = match find_rollup(defs, db, name) {
        Some(i) => Some(tables_text("{".to_owned(), &defs[i])),
        None => None,
    };
    Ok(
        Mutation {
            op: Operation::RollupRemove,
            target: Some(scope(db, name)),
            before,
            after: None,
        },
    )
}

/// Whether an aggregation is sound: it names its columns, and has a quantile
/// between nought and one exactly if it is a percentile.
pub open spec fn sound_aggregation(a: AggView) -> bool {
    &&& text::trimmed(a.source_column).len() > 0
    &&& text::trimmed(a.target_column).len() > 0
    &&& a.target_column != "time"@
    &&& a.function == RollupFn::Percentile <==> a.quantile is Some
    &&& a.quantile matches Some((bits, _)) ==> bits <= 0x3ff0_0000_0000_0000u64 || bits
        == 0x8000_0000_0000_0000u64
}

/// A rollup is accepted exactly if it is sound: everything is named, source and
/// target differ, it looks back over one whole interval at least, each of its
/// aggregations is sound and writes a column of its own, none of which is a tag
/// that it groups by, and its filter is not blank where it has one.
pub proof fn a_sound_rollup_is_accepted(d: DefView)
    ensures
        fault(d) is None <==> {
            &&& text::trimmed(d.db).len() > 0
            &&& text::trimmed(d.name).len() > 0
            &&& text::trimmed(d.source).len() > 0
            &&& text::trimmed(d.target).len() > 0
            &&& d.source != d.target
            &&& 0 < d.interval_secs <= d.lookback_secs
            &&& d.aggregations.len() > 0
            &&& forall|i: int|
                0 <= i < d.aggregations.len() ==> sound_aggregation(#[trigger] d.aggregations[i])
            &&& forall|i: int, j: int|
                0 <= i < j < d.aggregations.len() ==> (#[trigger] d.aggregations[i]).target_column
                    != (#[trigger] d.aggregations[j]).target_column
            &&& forall|i: int, j: int|
                0 <= i < d.aggregations.len() && 0 <= j < d.group_by.len() ==> (
                #[trigger] d.aggregations[i]).target_column != #[trigger] d.group_by[j]
            &&& d.filter matches Some(f) ==> text::trimmed(f).len() > 0
        },
{
    let aggs = d.aggregations;
    if fault(d) is None {
        sound_rollups_write_each_column_once(d);
        assert forall|i: int| 0 <= i < aggs.len() implies sound_aggregation(#[trigger] aggs[i]) by {
            lemma_aggs_sound(aggs, 0, i);
        }
    } else if head_fault(d) is None && (d.filter matches Some(f) ==> text::trimmed(f).len() > 0) {
        if aggs_fault(aggs, 0) is Some {
            let i = lemma_faulty_aggregation(aggs, 0);
            if sound_aggregation(aggs[i]) {
                let j = choose|j: int|
                    0 <= j < i && (#[trigger] aggs[j]).target_column == aggs[i].target_column;
                assert(aggs[j].target_column == aggs[i].target_column);
            }
        } else {
            let j = lemma_faulty_tag(d.group_by, aggs, 0);
            let i = choose|i: int|
                0 <= i < aggs.len() && (#[trigger] aggs[i]).target_column == d.group_by[j];
            assert(aggs[i].target_column == d.group_by[j]);
        }
    }
}

proof fn lemma_faulty_aggregation(aggs: Seq<AggView>, k: int) -> (i: int)
    requires
        0 <= k,
        aggs_fault(aggs, k) is Some,
    ensures
        k <= i < aggs.len(),
        agg_fault(aggs, i) is Some,
    decreases aggs.len() - k,
{
    if agg_fault(aggs, k) is Some {
        k
    } else {
        lemma_faulty_aggregation(aggs, k + 1)
    }
}

proof fn lemma_faulty_tag(group_by: Seq<Seq<char>>, aggs: Seq<AggView>, k: int) -> (j: int)
    requires
        0 <= k,
        tags_fault(group_by, aggs, k) is Some,
    ensures
        k <= j < group_by.len(),
        written_before(aggs, group_by[j], aggs.len() as int),
    decreases group_by.len() - k,
{
    if written_before(aggs, group_by[k], aggs.len() as int) {
        k
    } else {
        lemma_faulty_tag(group_by, aggs, k + 1)
    }
}

/// The rollup that a request defines is the one that it describes, without the
/// space around its names: it writes where the request says or, where it does not
/// say, into a table that is named after the source and the interval.
pub proof fn a_rollup_is_defined_as_it_is_described(
    s: RollupSet,
    interval_secs: u64,
    lookback_secs: u64,
)
    ensures
        ({
            let d = definition(s, interval_secs, lookback_secs);
            &&& d.db == text::trimmed(s.db@)
            &&& d.name == text::trimmed(s.name@)
            &&& d.source == text::trimmed(s.source@)
            &&& d.interval_secs == interval_secs
            &&& d.lookback_secs == lookback_secs
            &&& s.target matches Some(t) ==> text::trimmed(t@).len() > 0 ==> d.target
                == text::trimmed(t@)
            &&& s.target is None ==> d.target == text::trimmed(s.source@) + "_"@ + text::trimmed(
                s.interval@,
            )
            &&& s.group_by is None ==> d.group_by.len() == 0
            &&& s.group_by matches Some(g) ==> d.group_by.len() == g@.len() && forall|i: int|
                0 <= i < g@.len() ==> #[trigger] d.group_by[i] == g@[i]@
            &&& s.filter is None ==> d.filter is None
            &&& s.filter matches Some(f) ==> text::trimmed(f@).len() > 0 ==> d.filter == Some(
                text::trimmed(f@),
            )
            &&& d.aggregations.len() == s.aggregations@.len()
            &&& forall|i: int|
                0 <= i < d.aggregations.len() ==> {
                    let a = #[trigger] d.aggregations[i];
                    &&& a.function == s.aggregations@[i].function
                    &&& a.source_column == text::trimmed(s.aggregations@[i].source_column@)
                    &&& a.target_column == text::trimmed(s.aggregations@[i].target_column@)
                    &&& a.quantile == s.aggregations@[i]@.quantile
                }
        }),
{
}

/// A rollup whose request does not say how far it looks back looks back over one
/// interval; otherwise over what the request says. It is refused exactly if one
/// of the two durations is none.
pub proof fn a_rollup_looks_back_over_one_interval_or_more(s: RollupSet, n: u64)
    ensures
        planned(s) is Ok <==> retention::duration_of(s.interval@) is Some && (s.lookback matches Some(
            l,
        ) ==> retention::duration_of(l@) is Some),
        planned(s) matches Ok(d) ==> retention::duration_of(s.interval@) == Some(n as nat)
            ==> d.interval_secs == n && (s.lookback is None ==> d.lookback_secs == n),
        planned(s) matches Ok(d) ==> s.lookback is Some && retention::duration_of(
            s.lookback->Some_0@,
        ) == Some(n as nat) ==> d.lookback_secs == n,
{
}

} // verus!
