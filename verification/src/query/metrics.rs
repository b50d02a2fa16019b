//! How queries went: histograms of times, counts of outcomes, and their text
//! for a metrics page.
use crate::text;
use vstd::prelude::*;

verus! {

/// The upper bounds, in milliseconds, of the buckets for a query's duration:
/// dense around a quarter of a second, coarse in the tail.
pub fn duration_buckets() -> (r: Vec<u32>)
    ensures
        r@ == duration_bounds(),
{
    let r: Vec<u32> = vec![1, 5, 10, 25, 50, 100, 250, 500, 1_000, 2_500, 5_000, 10_000, 30_000];
    assert(r@ =~= duration_bounds());
    r
}

/// The bounds for a query's duration.
pub open spec fn duration_bounds() -> Seq<u32> {
    seq![1, 5, 10, 25, 50, 100, 250, 500, 1_000, 2_500, 5_000, 10_000, 30_000]
}

/// The upper bounds, in milliseconds, of the buckets for the wait before a
/// query is admitted.
pub fn wait_buckets() -> (r: Vec<u32>)
    ensures
        r@ == wait_bounds(),
{
    let r: Vec<u32> = vec![1, 10, 100, 500, 1_000, 5_000, 15_000, 60_000];
    assert(r@ =~= wait_bounds());
    r
}

/// The bounds for the wait before a query is admitted.
pub open spec fn wait_bounds() -> Seq<u32> {
    seq![1, 10, 100, 500, 1_000, 5_000, 15_000, 60_000]
}

// ------------------------------------------------------------------ histograms

/// How many observations fell under each bound, with the number of all of
/// them and the sum of their times.
#[derive(Debug)]
pub struct Histogram {
    /// Upper bounds in milliseconds.
    pub bounds: Vec<u32>,
    /// One count for each bound, and one for what lies above the last.
    pub buckets: Vec<u64>,
    pub sum_micros: u64,
    pub count: u64,
}

/// The sum of counts.
pub open spec fn total(counts: Seq<u64>) -> int
    decreases counts.len(),
{
    if counts.len() == 0 {
        0
    } else {
        total(counts.drop_last()) + counts.last()
    }
}

/// The first bound that a time, in nanoseconds, does not exceed; the number
/// of bounds if it exceeds them all.
pub open spec fn bucket_of(bounds: Seq<u32>, nanos: u64) -> int
    decreases bounds.len(),
{
    if bounds.len() == 0 {
        0
    } else {
        let k = bucket_of(bounds.drop_last(), nanos);
        if k < bounds.len() - 1 {
            k
        } else if nanos <= bounds.last() * 1_000_000 {
            k
        } else {
            k + 1
        }
    }
}

proof fn lemma_bucket_of(bounds: Seq<u32>, nanos: u64)
    ensures
        0 <= bucket_of(bounds, nanos) <= bounds.len(),
        forall|j: int| 0 <= j < bucket_of(bounds, nanos) ==> nanos > #[trigger] bounds[j] * 1_000_000,
        bucket_of(bounds, nanos) < bounds.len() ==> nanos <= bounds[bucket_of(bounds, nanos)]
            * 1_000_000,
    decreases bounds.len(),
{
    if bounds.len() > 0 {
        let init = bounds.drop_last();
        lemma_bucket_of(init, nanos);
        assert forall|j: int| 0 <= j < bucket_of(bounds, nanos) implies nanos > #[trigger] bounds[j]
            * 1_000_000 by {
            if j < init.len() {
                assert(init[j] == bounds[j]);
            }
        }
    }
}

proof fn lemma_total_update(counts: Seq<u64>, k: int, v: u64)
    requires
        0 <= k < counts.len(),
    ensures
        total(counts.update(k, v)) == total(counts) - counts[k] + v,
    decreases counts.len(),
{
    let init = counts.drop_last();
    if k < init.len() {
        lemma_total_update(init, k, v);
        assert(counts.update(k, v).drop_last() =~= init.update(k, v));
    } else {
        assert(counts.update(k, v).drop_last() =~= init);
    }
}

proof fn lemma_total_take(counts: Seq<u64>, k: int)
    requires
        0 <= k <= counts.len(),
    ensures
        0 <= total(counts.take(k)) <= total(counts),
    decreases counts.len(),
{
    if k < counts.len() {
        assert(counts.drop_last().take(k) =~= counts.take(k));
        lemma_total_take(counts.drop_last(), k);
    } else {
        assert(counts.take(k) =~= counts);
        if k > 0 {
            lemma_total_take(counts.drop_last(), k - 1);
        }
    }
}

/// A fraction: `num` of `den` parts.
#[derive(Debug, Clone, Copy, PartialEq, Eq, Structural)]
pub struct Fraction {
    pub num: u128,
    pub den: u128,
}

/// The first bucket with which at least `num` in `den` of `all` observations
/// have been counted, starting at bucket `k`.
pub open spec fn quantile_bucket(buckets: Seq<u64>, all: int, num: int, den: int, k: int) -> int
    decreases buckets.len() - k,
{
    if k >= buckets.len() {
        k
    } else if total(buckets.take(k + 1)) * den >= num * all {
        k
    } else {
        quantile_bucket(buckets, all, num, den, k + 1)
    }
}

/// The lower end of a bucket.
pub open spec fn lower_bound(bounds: Seq<u32>, k: int) -> int {
    if k <= 0 {
        0
    } else {
        bounds[k - 1] as int
    }
}

impl Histogram {
    /// There is a count for each bound and one more; the counts add up to the
    /// number of observations; and the bounds rise.
    pub open spec fn wf(self) -> bool {
        &&& self.buckets@.len() == self.bounds@.len() + 1
        &&& total(self.buckets@) == self.count
        &&& forall|i: int, j: int|
            0 <= i < j < self.bounds@.len() ==> (#[trigger] self.bounds@[i]) < (
            #[trigger] self.bounds@[j])
    }

    /// A histogram that has observed nothing.
    pub fn new(bounds: Vec<u32>) -> (r: Histogram)
        requires
            bounds.len() < usize::MAX,
            forall|i: int, j: int|
                0 <= i < j < bounds@.len() ==> (#[trigger] bounds@[i]) < (#[trigger] bounds@[j]),
        ensures
            r.wf(),
            r.bounds == bounds,
            r.buckets@ == Seq::new((bounds@.len() + 1) as nat, |i: int| 0u64),
            r.sum_micros == 0,
            r.count == 0,
    {
        let mut buckets: Vec<u64> = Vec::new();
        let mut i: usize = 0;
        while i < bounds.len() + 1
            invariant
                i <= bounds@.len() + 1,
                bounds.len() < usize::MAX,
                buckets@ == Seq::new(i as nat, |i: int| 0u64),
                total(buckets@) == 0,
            decreases bounds.len() + 1 - i,
        {
            let ghost was = buckets@;
            buckets.push(0);
            assert(buckets@.drop_last() =~= was);
            i += 1;
            assert(buckets@ =~= Seq::new(i as nat, |i: int| 0u64));
        }
        Histogram { bounds, buckets, sum_micros: 0, count: 0 }
    }

    /// Records one time. What lies above the last bound is counted and summed
    /// like everything else. The sum starts over when it is full.
    pub fn observe(&mut self, nanos: u64)
        requires
            old(self).wf(),
            old(self).count < u64::MAX,
        ensures
            final(self).wf(),
            final(self).bounds == old(self).bounds,
            ({
                let k = bucket_of(old(self).bounds@, nanos);
                final(self).buckets@ == old(self).buckets@.update(
                    k,
                    (old(self).buckets@[k] + 1) as u64,
                )
            }),
            final(self).sum_micros == (old(self).sum_micros + nanos / 1_000) % 0x1_0000_0000_0000_0000,
            final(self).count == old(self).count + 1,
    {
        proof {
            lemma_bucket_of(self.bounds@, nanos);
        }
        let mut k: usize = 0;
        while k < self.bounds.len() && nanos > self.bounds[k] as u64 * 1_000_000
            invariant
                k <= self.bounds@.len(),
                forall|j: int| 0 <= j < k ==> nanos > #[trigger] self.bounds@[j] * 1_000_000,
            decreases self.bounds@.len() - k,
        {
            k += 1;
        }
        proof {
            let b = bucket_of(self.bounds@, nanos);
            if b < k {
                assert(nanos > self.bounds@[b] * 1_000_000);
            }
            if k < b {
                assert(nanos > self.bounds@[k as int] * 1_000_000);
            }
            lemma_total_update(
                self.buckets@,
                k as int,
                (self.buckets@[k as int] + 1) as u64,
            );
            assert(self.buckets@.take(k + 1).drop_last() =~= self.buckets@.take(k as int));
            lemma_total_take(self.buckets@, k + 1);
            lemma_total_take(self.buckets@, k as int);
        }
        let seen: u64 = self.buckets[k];
        self.buckets.set(k, seen + 1);
        self.sum_micros = self.sum_micros.wrapping_add(nanos / 1_000);
        self.count = self.count + 1;
    }

    /// The number of observations.
    pub fn count(&self) -> (r: u64)
        ensures
            r == self.count,
    {
        self.count
    }

    /// An estimate, in milliseconds, of the time that `num` in `den`
    /// observations do not exceed: linear within the bucket that holds it.
    /// Nothing where nothing has been observed; the last bound where the
    /// bucket has no upper end.
    pub fn quantile(&self, num: u32, den: u32) -> (r: Option<Fraction>)
        requires
            self.wf(),
            den > 0,
        ensures
            ({
                let k = quantile_bucket(
                    self.buckets@,
                    self.count as int,
                    num as int,
                    den as int,
                    0,
                );
                let before = total(self.buckets@.take(k));
                let lower = lower_bound(self.bounds@, k);
                match r {
                    None => self.count == 0 || (k >= self.bounds@.len() && self.bounds@.len() == 0),
                    Some(f) => {
                        &&& self.count > 0
                        &&& f.den > 0
                        &&& if k >= self.bounds@.len() {
                            self.bounds@.len() > 0 && f == (Fraction {
                                num: self.bounds@.last() as u128,
                                den: 1,
                            })
                        } else {
                            let upper = self.bounds@[k] as int;
                            let inside = self.buckets@[k] as int;
                            let part = num * self.count - before * den;
                            if inside == 0 || part >= inside * den {
                                f == (Fraction { num: upper as u128, den: 1 })
                            } else if part <= 0 {
                                f == (Fraction { num: lower as u128, den: 1 })
                            } else {
                                &&& f.den == inside * den
                                &&& f.num == lower * (inside * den) + (upper - lower) * part
                            }
                        }
                    },
                }
            }),
    {
        if self.count == 0 {
            return None;
        }
        let ghost counts = self.buckets@;
        let ghost all = self.count as int;
        let target: u128 = Self::times(num as u64, self.count);
        let mut before: u64 = 0;
        let mut k: usize = 0;
        assert(counts.take(0) =~= Seq::empty());
        while k < self.buckets.len()
            invariant
                k <= self.buckets@.len(),
                self.wf(),
                den > 0,
                counts == self.buckets@,
                all == self.count,
                self.count > 0,
                target == num * self.count,
                before == total(counts.take(k as int)),
                quantile_bucket(counts, all, num as int, den as int, 0) == quantile_bucket(
                    counts,
                    all,
                    num as int,
                    den as int,
                    k as int,
                ),
            decreases self.buckets@.len() - k,
        {
            proof {
                assert(counts.take(k + 1).drop_last() =~= counts.take(k as int));
                lemma_total_take(counts, k + 1);
            }
            let inside: u64 = self.buckets[k];
            let upto: u64 = before + inside;
            if Self::times(upto, den as u64) >= target {
                if k >= self.bounds.len() {
                    return self.last_bound();
                }
                let upper: u32 = self.bounds[k];
                let lower: u32 = if k == 0 {
                    0
                } else {
                    self.bounds[k - 1]
                };
                let seen: u128 = Self::times(before, den as u64);
                let width: u128 = Self::times(inside, den as u64);
                assert(lower <= upper);
                if inside == 0 {
                    return Some(Fraction { num: upper as u128, den: 1 });
                }
                if target <= seen {
                    assert(inside * den > 0) by (nonlinear_arith)
                        requires
                            inside > 0,
                            den > 0,
                    ;
                    return Some(Fraction { num: lower as u128, den: 1 });
                }
                let part: u128 = target - seen;
                if part >= width {
                    return Some(Fraction { num: upper as u128, den: 1 });
                }
                assert(inside * den <= u64::MAX * u32::MAX) by (nonlinear_arith)
                    requires
                        0 <= inside <= u64::MAX,
                        0 <= den <= u32::MAX,
                ;
                return Some(Self::between(lower, upper, part, width));
            }
            before = upto;
            k += 1;
        }
        self.last_bound()
    }

    fn last_bound(&self) -> (r: Option<Fraction>)
        ensures
            match r {
                Some(f) => self.bounds@.len() > 0 && f == (Fraction {
                    num: self.bounds@.last() as u128,
                    den: 1,
                }),
                None => self.bounds@.len() == 0,
            },
    {
        if self.bounds.len() == 0 {
            None
        } else {
            Some(Fraction { num: self.bounds[self.bounds.len() - 1] as u128, den: 1 })
        }
    }

    fn times(a: u64, b: u64) -> (r: u128)
        ensures
            r == a * b,
    {
        assert(a * b <= u64::MAX * u64::MAX) by (nonlinear_arith)
            requires
                0 <= a <= u64::MAX,
                0 <= b <= u64::MAX,
        ;
        a as u128 * b as u128
    }

    fn between(lower: u32, upper: u32, part: u128, width: u128) -> (r: Fraction)
        requires
            lower <= upper,
            0 < part < width,
            width <= u64::MAX * u32::MAX,
        ensures
            r.den == width,
            r.num == lower * width + (upper - lower) * part,
    {
        let gap: u32 = upper - lower;
        assert(gap * part <= gap * width) by (nonlinear_arith)
            requires
                gap >= 0,
                part < width,
        ;
        assert(lower * width + gap * width == upper * width) by (nonlinear_arith)
            requires
                gap == upper - lower,
        ;
        assert(upper * width <= u32::MAX * (u64::MAX * u32::MAX)) by (nonlinear_arith)
            requires
                0 <= upper <= u32::MAX,
                0 <= width <= u64::MAX * u32::MAX,
        ;
        assert(0 <= lower * width) by (nonlinear_arith)
            requires
                0 <= lower,
                0 <= width,
        ;
        assert(0 <= gap * part) by (nonlinear_arith)
            requires
                0 <= gap,
                0 <= part,
        ;
        Fraction { num: lower as u128 * width + gap as u128 * part, den: width }
    }
}

// ---------------------------------------------------------------------- text

/// A text without the zeros at its end.
pub open spec fn without_zeros(s: Seq<char>) -> Seq<char>
    decreases s.len(),
{
    if s.len() > 0 && s.last() == '0' {
        without_zeros(s.drop_last())
    } else {
        s
    }
}

/// Seconds, of microseconds: as few places as tell them exactly.
pub open spec fn seconds_text(micros: nat) -> Seq<char> {
    if micros % 1_000_000 == 0 {
        text::decimal(micros / 1_000_000)
    } else {
        text::decimal(micros / 1_000_000) + "."@ + without_zeros(
            text::padded(micros % 1_000_000, 6),
        )
    }
}

/// Writes microseconds as seconds.
pub fn show_seconds(micros: u64) -> (r: String)
    ensures
        r@ == seconds_text(micros as nat),
{
    let mut out = text::show(micros / 1_000_000);
    if micros % 1_000_000 != 0 {
        out.append(".");
        let padded = text::show_padded(micros % 1_000_000, 6);
        let digits = text::chars_of(padded.as_str());
        let mut n: usize = digits.len();
        assert(digits@.take(n as int) =~= digits@);
        while n > 0 && digits[n - 1] == '0'
            invariant
                n <= digits.len(),
                without_zeros(digits@) == without_zeros(digits@.take(n as int)),
            decreases n,
        {
            assert(digits@.take(n as int).drop_last() =~= digits@.take(n - 1));
            n -= 1;
        }
        assert(n > 0 ==> digits@.take(n as int).last() == digits@[n - 1]);
        let kept = text::slice_text(&digits, 0, n);
        assert(kept@ =~= digits@.take(n as int));
        out.append(kept.as_str());
    }
    out
}

/// The line of a bucket: how many observations do not exceed its bound.
pub open spec fn bucket_line(name: Seq<char>, le: Seq<char>, seen: nat) -> Seq<char> {
    name + "_bucket{le=\""@ + le + "\"} "@ + text::decimal(seen) + "\n"@
}

/// The lines of the first `k` buckets. Each counts what the ones before it
/// count too.
pub open spec fn bucket_lines(h: Histogram, name: Seq<char>, k: int) -> Seq<char>
    decreases k,
{
    if k <= 0 {
        Seq::empty()
    } else {
        bucket_lines(h, name, k - 1) + bucket_line(
            name,
            if k - 1 < h.bounds@.len() {
                seconds_text((h.bounds@[k - 1] * 1_000) as nat)
            } else {
                "+Inf"@
            },
            total(h.buckets@.take(k)) as nat,
        )
    }
}

/// The text of a histogram.
pub open spec fn histogram_text(h: Histogram, name: Seq<char>, help: Seq<char>) -> Seq<char> {
    "# HELP "@ + name + " "@ + help + "\n# TYPE "@ + name + " histogram\n"@ + bucket_lines(
        h,
        name,
        h.buckets@.len() as int,
    ) + name + "_sum "@ + seconds_text(h.sum_micros as nat) + "\n"@ + name + "_count "@
        + text::decimal(h.count as nat) + "\n"@
}

impl Histogram {
    /// Writes the histogram for a metrics page.
    pub fn render(&self, name: &str, help: &str) -> (r: String)
        requires
            self.wf(),
        ensures
            r@ == histogram_text(*self, name@, help@),
    {
        let mut out = "# HELP ".to_owned();
        out.append(name);
        out.append(" ");
        out.append(help);
        out.append("\n# TYPE ");
        out.append(name);
        out.append(" histogram\n");
        let ghost head = out@;
        let mut seen: u64 = 0;
        let mut k: usize = 0;
        assert(self.buckets@.take(0) =~= Seq::empty());
        assert(out@ =~= head + bucket_lines(*self, name@, 0));
        while k < self.buckets.len()
            invariant
                k <= self.buckets@.len(),
                self.wf(),
                seen == total(self.buckets@.take(k as int)),
                out@ == head + bucket_lines(*self, name@, k as int),
            decreases self.buckets@.len() - k,
        {
            proof {
                assert(self.buckets@.take(k + 1).drop_last() =~= self.buckets@.take(k as int));
                lemma_total_take(self.buckets@, k + 1);
            }
            seen = seen + self.buckets[k];
            let ghost was = out@;
            let le = if k < self.bounds.len() {
                show_seconds(self.bounds[k] as u64 * 1_000)
            } else {
                "+Inf".to_owned()
            };
            out.append(name);
            out.append("_bucket{le=\"");
            out.append(le.as_str());
            out.append("\"} ");
            out.append(text::show(seen).as_str());
            out.append("\n");
            assert(out@ =~= was + bucket_line(name@, le@, seen as nat));
            assert(out@ =~= head + (bucket_lines(*self, name@, k as int) + bucket_line(
                name@,
                le@,
                seen as nat,
            )));
            k += 1;
        }
        out.append(name);
        out.append("_sum ");
        out.append(show_seconds(self.sum_micros).as_str());
        out.append("\n");
        out.append(name);
        out.append("_count ");
        out.append(text::show(self.count).as_str());
        out.append("\n");
        out
    }
}

/// The last bucket's line counts every observation, and no line counts fewer
/// than the one before it.
pub proof fn bucket_lines_accumulate(h: Histogram, i: int, j: int)
    requires
        h.wf(),
        0 <= i <= j <= h.buckets@.len(),
    ensures
        total(h.buckets@.take(i)) <= total(h.buckets@.take(j)),
        total(h.buckets@.take(h.buckets@.len() as int)) == h.count,
{
    assert(h.buckets@.take(j).take(i) =~= h.buckets@.take(i));
    lemma_total_take(h.buckets@.take(j), i);
    assert(h.buckets@.take(h.buckets@.len() as int) =~= h.buckets@);
}

// ------------------------------------------------------------------ outcomes

/// How a query ended.
#[derive(Debug, Clone, Copy, PartialEq, Eq, Structural)]
pub enum QueryOutcome {
    Success,
    /// It took longer than the server allows.
    Timeout,
    /// It is not a read.
    Refused,
    /// It could not be planned or executed.
    Failed,
}

/// The name of an outcome.
pub open spec fn outcome_text(o: QueryOutcome) -> Seq<char> {
    match o {
        QueryOutcome::Success => "ok"@,
        QueryOutcome::Timeout => "timeout"@,
        QueryOutcome::Refused => "refused"@,
        QueryOutcome::Failed => "failed"@,
    }
}

impl QueryOutcome {
    /// The name of the outcome.
    pub fn as_str(&self) -> (r: &'static str)
        ensures
            r@ == outcome_text(*self),
    {
        match self {
            QueryOutcome::Success => "ok",
            QueryOutcome::Timeout => "timeout",
            QueryOutcome::Refused => "refused",
            QueryOutcome::Failed => "failed",
        }
    }
}

/// One finished query.
#[derive(Debug, Clone)]
pub struct QueryStats {
    pub ref_id: String,
    pub db: String,
    pub identity: Option<String>,
    /// Nanoseconds before it was admitted.
    pub admission_wait: u64,
    /// Nanoseconds from its arrival to its result, the wait included.
    pub duration: u64,
    pub rows: u64,
    pub outcome: QueryOutcome,
}

/// Receives every finished query.
pub trait QueryObserver {
    fn on_query(&self, stats: &QueryStats);
}

/// What is known of all queries.
#[derive(Debug)]
pub struct QueryMetrics {
    pub duration: Histogram,
    pub admission_wait: Histogram,
    pub in_flight: u64,
    pub queued: u64,
    pub completed: u64,
    pub timeouts: u64,
    pub refused: u64,
    pub failed: u64,
}

impl Default for QueryMetrics {
    fn default() -> (r: QueryMetrics)
        ensures
            r.wf(),
            r.is_new(),
    {
        QueryMetrics::new()
    }
}

/// What is written after the two histograms.
pub open spec fn counter_text(m: QueryMetrics) -> Seq<char> {
    "# HELP timelake_query_in_flight Queries currently executing.\n# TYPE timelake_query_in_flight gauge\ntimelake_query_in_flight "@
        + text::decimal(m.in_flight as nat)
        + "\n# HELP timelake_query_queued Queries waiting for admission.\n# TYPE timelake_query_queued gauge\ntimelake_query_queued "@
        + text::decimal(m.queued as nat)
        + "\n# HELP timelake_queries_total Queries finished, by outcome.\n# TYPE timelake_queries_total counter\ntimelake_queries_total "@
        + text::decimal(m.completed as nat)
        + "\n# HELP timelake_query_timeouts_total Queries stopped by the RR-2 cap.\n# TYPE timelake_query_timeouts_total counter\ntimelake_query_timeouts_total "@
        + text::decimal(m.timeouts as nat)
        + "\n# HELP timelake_query_refused_total Statements refused by the read-only guard.\n# TYPE timelake_query_refused_total counter\ntimelake_query_refused_total "@
        + text::decimal(m.refused as nat)
        + "\n# HELP timelake_query_failed_total Queries that failed to plan or execute.\n# TYPE timelake_query_failed_total counter\ntimelake_query_failed_total "@
        + text::decimal(m.failed as nat) + "\n"@
}

impl QueryMetrics {
    /// The histograms are in order, have observed every finished query, and no
    /// more queries ended badly than ended.
    pub open spec fn wf(self) -> bool {
        &&& self.duration.wf()
        &&& self.admission_wait.wf()
        &&& self.duration.count == self.completed
        &&& self.admission_wait.count == self.completed
        &&& self.timeouts + self.refused + self.failed <= self.completed
    }

    /// Nothing has been counted.
    pub open spec fn is_new(self) -> bool {
        &&& self.duration.bounds@ == duration_bounds()
        &&& self.duration.sum_micros == 0
        &&& self.admission_wait.bounds@ == wait_bounds()
        &&& self.admission_wait.sum_micros == 0
        &&& self.in_flight == 0
        &&& self.queued == 0
        &&& self.completed == 0
        &&& self.timeouts == 0
        &&& self.refused == 0
        &&& self.failed == 0
    }

    /// Metrics that have counted nothing.
    pub fn new() -> (r: QueryMetrics)
        ensures
            r.wf(),
            r.is_new(),
    {
        QueryMetrics {
            duration: Histogram::new(duration_buckets()),
            admission_wait: Histogram::new(wait_buckets()),
            in_flight: 0,
            queued: 0,
            completed: 0,
            timeouts: 0,
            refused: 0,
            failed: 0,
        }
    }

    /// How many queries are executed now.
    pub fn in_flight(&self) -> (r: u64)
        ensures
            r == self.in_flight,
    {
        self.in_flight
    }

    /// How many queries wait to be admitted.
    pub fn queued(&self) -> (r: u64)
        ensures
            r == self.queued,
    {
        self.queued
    }

    /// A query starts to wait.
    pub fn enter_queue(&mut self)
        requires
            old(self).queued < u64::MAX,
        ensures
            *final(self) == (QueryMetrics { queued: (old(self).queued + 1) as u64, ..*old(self) }),
    {
        self.queued = self.queued + 1;
    }

    /// A query waits no more: it was admitted, or its caller is gone.
    pub fn leave_queue(&mut self)
        requires
            old(self).queued > 0,
        ensures
            *final(self) == (QueryMetrics { queued: (old(self).queued - 1) as u64, ..*old(self) }),
    {
        self.queued = self.queued - 1;
    }

    /// A query is executed.
    pub fn enter_flight(&mut self)
        requires
            old(self).in_flight < u64::MAX,
        ensures
            *final(self) == (QueryMetrics {
                in_flight: (old(self).in_flight + 1) as u64,
                ..*old(self)
            }),
    {
        self.in_flight = self.in_flight + 1;
    }

    /// A query is executed no more, however it ended.
    pub fn leave_flight(&mut self)
        requires
            old(self).in_flight > 0,
        ensures
            *final(self) == (QueryMetrics {
                in_flight: (old(self).in_flight - 1) as u64,
                ..*old(self)
            }),
    {
        self.in_flight = self.in_flight - 1;
    }

    /// Counts a finished query. Every one is timed, whatever its outcome.
    pub fn record(&mut self, stats: &QueryStats)
        requires
            old(self).wf(),
            old(self).completed < u64::MAX,
        ensures
            final(self).wf(),
            final(self).completed == old(self).completed + 1,
            final(self).timeouts == old(self).timeouts + (if stats.outcome is Timeout {
                1int
            } else {
                0
            }),
            final(self).refused == old(self).refused + (if stats.outcome is Refused {
                1int
            } else {
                0
            }),
            final(self).failed == old(self).failed + (if stats.outcome is Failed {
                1int
            } else {
                0
            }),
            final(self).in_flight == old(self).in_flight,
            final(self).queued == old(self).queued,
            final(self).duration.bounds == old(self).duration.bounds,
            final(self).duration.buckets@ == ({
                let k = bucket_of(old(self).duration.bounds@, stats.duration);
                old(self).duration.buckets@.update(
                    k,
                    (old(self).duration.buckets@[k] + 1) as u64,
                )
            }),
            final(self).duration.sum_micros == (old(self).duration.sum_micros + stats.duration
                / 1_000) % 0x1_0000_0000_0000_0000,
            final(self).admission_wait.bounds == old(self).admission_wait.bounds,
            final(self).admission_wait.buckets@ == ({
                let k = bucket_of(old(self).admission_wait.bounds@, stats.admission_wait);
                old(self).admission_wait.buckets@.update(
                    k,
                    (old(self).admission_wait.buckets@[k] + 1) as u64,
                )
            }),
            final(self).admission_wait.sum_micros == (old(self).admission_wait.sum_micros
                + stats.admission_wait / 1_000) % 0x1_0000_0000_0000_0000,
    {
        self.duration.observe(stats.duration);
        self.admission_wait.observe(stats.admission_wait);
        self.completed = self.completed + 1;
        match stats.outcome {
            QueryOutcome::Success => {},
            QueryOutcome::Timeout => {
                self.timeouts = self.timeouts + 1;
            },
            QueryOutcome::Refused => {
                self.refused = self.refused + 1;
            },
            QueryOutcome::Failed => {
                self.failed = self.failed + 1;
            },
        }
    }

    /// Writes the metrics for a metrics page.
    pub fn render(&self) -> (r: String)
        requires
            self.wf(),
        ensures
            r@ == histogram_text(
                self.duration,
                "timelake_query_duration_seconds"@,
                "End-to-end query latency, admission wait included."@,
            ) + histogram_text(
                self.admission_wait,
                "timelake_query_admission_wait_seconds"@,
                "Time queued on the admission semaphore before execution (RR-1)."@,
            ) + counter_text(*self),
    {
        let mut out = self.duration.render(
            "timelake_query_duration_seconds",
            "End-to-end query latency, admission wait included.",
        );
        out.append(
            self.admission_wait.render(
                "timelake_query_admission_wait_seconds",
                "Time queued on the admission semaphore before execution (RR-1).",
            ).as_str(),
        );
        out.append(self.render_counters().as_str());
        out
    }

    fn render_counters(&self) -> (r: String)
        ensures
            r@ == counter_text(*self),
    {
        let mut out =
            "# HELP timelake_query_in_flight Queries currently executing.\n# TYPE timelake_query_in_flight gauge\ntimelake_query_in_flight ".to_owned();
        out.append(text::show(self.in_flight).as_str());
        out.append(
            "\n# HELP timelake_query_queued Queries waiting for admission.\n# TYPE timelake_query_queued gauge\ntimelake_query_queued ",
        );
        out.append(text::show(self.queued).as_str());
        out.append(
            "\n# HELP timelake_queries_total Queries finished, by outcome.\n# TYPE timelake_queries_total counter\ntimelake_queries_total ",
        );
        out.append(text::show(self.completed).as_str());
        out.append(
            "\n# HELP timelake_query_timeouts_total Queries stopped by the RR-2 cap.\n# TYPE timelake_query_timeouts_total counter\ntimelake_query_timeouts_total ",
        );
        out.append(text::show(self.timeouts).as_str());
        out.append(
            "\n# HELP timelake_query_refused_total Statements refused by the read-only guard.\n# TYPE timelake_query_refused_total counter\ntimelake_query_refused_total ",
        );
        out.append(text::show(self.refused).as_str());
        out.append(
            "\n# HELP timelake_query_failed_total Queries that failed to plan or execute.\n# TYPE timelake_query_failed_total counter\ntimelake_query_failed_total ",
        );
        out.append(text::show(self.failed).as_str());
        out.append("\n");
        out
    }
}

/// A duration is counted in the first bucket whose bound, in milliseconds, it
/// does not exceed, and in the last where it exceeds all.
pub proof fn a_duration_falls_in_the_first_bucket_that_holds_it(bounds: Seq<u32>, nanos: u64)
    ensures
        0 <= bucket_of(bounds, nanos) <= bounds.len(),
        forall|j: int|
            0 <= j < bucket_of(bounds, nanos) ==> nanos > #[trigger] bounds[j] * 1_000_000,
        bucket_of(bounds, nanos) < bounds.len() ==> nanos <= bounds[bucket_of(bounds, nanos)]
            * 1_000_000,
{
    lemma_bucket_of(bounds, nanos);
}

/// The bucket of a quantile is the first up to which at least that share of all
/// is counted.
pub proof fn the_quantile_is_the_first_bucket_that_reaches_it(
    buckets: Seq<u64>,
    all: int,
    num: int,
    den: int,
    k: int,
    j: int,
)
    requires
        0 <= k <= buckets.len(),
    ensures
        k <= quantile_bucket(buckets, all, num, den, k) <= buckets.len(),
        k <= j < quantile_bucket(buckets, all, num, den, k) ==> total(buckets.take(j + 1)) * den
            < num * all,
        quantile_bucket(buckets, all, num, den, k) < buckets.len() ==> total(
            buckets.take(quantile_bucket(buckets, all, num, den, k) + 1),
        ) * den >= num * all,
    decreases buckets.len() - k,
{
    if k < buckets.len() && total(buckets.take(k + 1)) * den < num * all {
        the_quantile_is_the_first_bucket_that_reaches_it(buckets, all, num, den, k + 1, j);
    }
}

/// Seconds are written to the microsecond: the whole seconds, and behind a
/// point the six digits of the rest without the zeros at their end, or nothing
/// where there is no rest.
pub proof fn seconds_tell_the_microseconds(micros: nat) -> (zeros: nat)
    ensures
        micros % 1_000_000 == 0 ==> text::number(seconds_text(micros)) * 1_000_000 == micros,
        micros % 1_000_000 != 0 ==> {
            &&& seconds_text(micros) + text::zeros(zeros) == text::decimal(micros / 1_000_000)
                + "."@ + text::padded(micros % 1_000_000, 6)
            &&& seconds_text(micros).last() != '0'
        },
{
    text::decimal_spells(micros / 1_000_000);
    if micros % 1_000_000 == 0 {
        0
    } else {
        reveal_strlit(".");
        let whole = text::decimal(micros / 1_000_000);
        let rest = text::padded(micros % 1_000_000, 6);
        let n = lemma_without_zeros(rest);
        let cut = without_zeros(rest);
        assert(whole + "."@ + cut + text::zeros(n) =~= whole + "."@ + (cut + text::zeros(n)));
        if cut.len() > 0 {
            assert(seconds_text(micros).last() == cut.last());
        } else {
            assert(seconds_text(micros).last() == '.');
        }
        n
    }
}

proof fn lemma_without_zeros(s: Seq<char>) -> (n: nat)
    ensures
        without_zeros(s) + text::zeros(n) == s,
        without_zeros(s).len() > 0 ==> without_zeros(s).last() != '0',
    decreases s.len(),
{
    if s.len() > 0 && s.last() == '0' {
        let m = lemma_without_zeros(s.drop_last());
        assert(without_zeros(s) + text::zeros(m + 1) =~= (without_zeros(s) + text::zeros(m)).push(
            '0',
        ));
        assert(s =~= s.drop_last().push('0'));
        m + 1
    } else {
        assert(s + text::zeros(0) =~= s);
        0
    }
}

} // verus!
