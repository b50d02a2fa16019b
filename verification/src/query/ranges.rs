//! Reading parts of a stored file: the byte ranges that row groups occupy,
//! joined where they are near, and reads that are served from them.
use crate::query::provider::{FileGroups, RowGroup};
use vstd::prelude::*;

verus! {

/// Ranges that are at most this many bytes apart are fetched as one.
pub const GAP: u64 = 65_536;

/// A read that no fetched range covers fetches this many bytes at a time.
pub const CHUNK: u64 = 65_536;

/// The span of a row group's column chunks, as far as the first `k`.
pub open spec fn span_of(chunks: Seq<(u64, u64)>, k: int) -> (int, int)
    decreases k,
{
    if k <= 0 {
        (u64::MAX as int, 0)
    } else {
        let p = span_of(chunks, k - 1);
        let c = chunks[k - 1];
        (
            if c.0 < p.0 {
                c.0 as int
            } else {
                p.0
            },
            if c.0 + c.1 > p.1 {
                c.0 + c.1
            } else {
                p.1
            },
        )
    }
}

/// The spans of the row groups that are kept, those without bytes left out.
pub open spec fn spans_of(groups: Seq<RowGroup>, keep: Seq<usize>) -> Seq<(int, int)>
    decreases keep.len(),
{
    if keep.len() == 0 {
        Seq::empty()
    } else {
        let p = spans_of(groups, keep.drop_last());
        let chunks = groups[keep.last() as int].chunks@;
        let s = span_of(chunks, chunks.len() as int);
        if s.0 < s.1 {
            p.push(s)
        } else {
            p
        }
    }
}

/// Spans in the order of their start, then of their end.
pub open spec fn span_before(a: (int, int), b: (int, int)) -> bool {
    a.0 < b.0 || (a.0 == b.0 && a.1 < b.1)
}

/// Ordered spans with one more put in.
pub open spec fn put_span(s: Seq<(int, int)>, x: (int, int)) -> Seq<(int, int)>
    decreases s.len(),
{
    if s.len() == 0 || !span_before(x, s.last()) {
        s.push(x)
    } else {
        put_span(s.drop_last(), x).push(s.last())
    }
}

/// Spans in order.
pub open spec fn ordered(s: Seq<(int, int)>) -> Seq<(int, int)>
    decreases s.len(),
{
    if s.len() == 0 {
        Seq::empty()
    } else {
        put_span(ordered(s.drop_last()), s.last())
    }
}

/// Ordered spans, each joined to the one before it where it starts no more
/// than the gap behind that one's end.
pub open spec fn joined(s: Seq<(int, int)>) -> Seq<(int, int)>
    decreases s.len(),
{
    if s.len() == 0 {
        Seq::empty()
    } else {
        let p = joined(s.drop_last());
        let x = s.last();
        if p.len() > 0 && x.0 <= p.last().1 + GAP {
            p.drop_last().push(
                (
                    p.last().0,
                    if x.1 > p.last().1 {
                        x.1
                    } else {
                        p.last().1
                    },
                ),
            )
        } else {
            p.push(x)
        }
    }
}

/// The byte ranges to fetch for the row groups that are kept.
pub open spec fn ranges_of(groups: Seq<RowGroup>, keep: Seq<usize>) -> Seq<(int, int)> {
    joined(ordered(spans_of(groups, keep)))
}

/// Whether spans start in order.
pub open spec fn starts_ordered(s: Seq<(int, int)>) -> bool {
    forall|i: int, j: int| 0 <= i < j < s.len() ==> (#[trigger] s[i]).0 <= (#[trigger] s[j]).0
}

/// Whether a span lies within one of the ranges.
pub open spec fn covered(ranges: Seq<(int, int)>, x: (int, int)) -> bool {
    exists|i: int| 0 <= i < ranges.len() && (#[trigger] ranges[i]).0 <= x.0 && x.1 <= ranges[i].1
}

proof fn lemma_put_span(s: Seq<(int, int)>, x: (int, int))
    requires
        starts_ordered(s),
    ensures
        starts_ordered(put_span(s, x)),
        put_span(s, x).len() == s.len() + 1,
        put_span(s, x).contains(x),
        forall|y: (int, int)| s.contains(y) ==> #[trigger] put_span(s, x).contains(y),
        forall|i: int|
            0 <= i < put_span(s, x).len() ==> (#[trigger] put_span(s, x)[i]) == x || s.contains(
                put_span(s, x)[i],
            ),
    decreases s.len(),
{
    let q = put_span(s, x);
    if s.len() == 0 || !span_before(x, s.last()) {
        assert(q[s.len() as int] == x);
        assert forall|i: int, j: int| 0 <= i < j < q.len() implies (#[trigger] q[i]).0 <= (
        #[trigger] q[j]).0 by {
            if j == s.len() {
                assert(s[i].0 <= s[s.len() - 1].0 || i == s.len() - 1);
            } else {
                assert(s[i].0 <= s[j].0);
            }
        }
        assert forall|y: (int, int)| s.contains(y) implies #[trigger] q.contains(y) by {
            let k = choose|k: int| 0 <= k < s.len() && s[k] == y;
            assert(q[k] == y);
        }
        assert forall|i: int| 0 <= i < q.len() implies (#[trigger] q[i]) == x || s.contains(
            q[i],
        ) by {
            if i < s.len() {
                assert(s[i] == q[i]);
            }
        }
    } else {
        let init = s.drop_last();
        assert forall|i: int, j: int| 0 <= i < j < init.len() implies (#[trigger] init[i]).0 <= (
        #[trigger] init[j]).0 by {
            assert(s[i].0 <= s[j].0);
        }
        lemma_put_span(init, x);
        let p = put_span(init, x);
        assert forall|i: int, j: int| 0 <= i < j < q.len() implies (#[trigger] q[i]).0 <= (
        #[trigger] q[j]).0 by {
            if j < p.len() {
                assert(p[i].0 <= p[j].0);
            } else {
                assert(p[i] == x || init.contains(p[i]));
                if p[i] != x {
                    let k = choose|k: int| 0 <= k < init.len() && init[k] == p[i];
                    assert(s[k].0 <= s[s.len() - 1].0);
                }
            }
        }
        let k = choose|k: int| 0 <= k < p.len() && p[k] == x;
        assert(q[k] == x);
        assert forall|y: (int, int)| s.contains(y) implies #[trigger] q.contains(y) by {
            let k = choose|k: int| 0 <= k < s.len() && s[k] == y;
            if k < init.len() {
                assert(init[k] == y);
                assert(p.contains(y));
                let m = choose|m: int| 0 <= m < p.len() && p[m] == y;
                assert(q[m] == y);
            } else {
                assert(q[p.len() as int] == y);
            }
        }
        assert forall|i: int| 0 <= i < q.len() implies (#[trigger] q[i]) == x || s.contains(
            q[i],
        ) by {
            if i < p.len() {
                assert(p[i] == x || init.contains(p[i]));
                if p[i] != x {
                    let m = choose|m: int| 0 <= m < init.len() && init[m] == p[i];
                    assert(s[m] == q[i]);
                }
            } else {
                assert(s[s.len() - 1] == q[i]);
            }
        }
    }
}

proof fn lemma_ordered(s: Seq<(int, int)>)
    ensures
        starts_ordered(ordered(s)),
        ordered(s).len() == s.len(),
        forall|i: int| 0 <= i < s.len() ==> ordered(s).contains(#[trigger] s[i]),
    decreases s.len(),
{
    if s.len() > 0 {
        let init = s.drop_last();
        lemma_ordered(init);
        lemma_put_span(ordered(init), s.last());
        assert forall|i: int| 0 <= i < s.len() implies ordered(s).contains(#[trigger] s[i]) by {
            if i < init.len() {
                assert(ordered(init).contains(init[i]));
            }
        }
    }
}

proof fn lemma_joined(s: Seq<(int, int)>)
    requires
        starts_ordered(s),
    ensures
        s.len() > 0 ==> joined(s).len() > 0 && joined(s).last().0 <= s.last().0,
        forall|i: int| 0 <= i < s.len() ==> covered(joined(s), #[trigger] s[i]),
        forall|i: int, j: int|
            0 <= i < j < joined(s).len() ==> (#[trigger] joined(s)[i]).1 + GAP < (
            #[trigger] joined(s)[j]).0,
    decreases s.len(),
{
    if s.len() > 0 {
        let init = s.drop_last();
        let x = s.last();
        assert forall|i: int, j: int| 0 <= i < j < init.len() implies (#[trigger] init[i]).0 <= (
        #[trigger] init[j]).0 by {
            assert(s[i].0 <= s[j].0);
        }
        lemma_joined(init);
        let p = joined(init);
        let q = joined(s);
        if init.len() > 0 {
            assert(s[init.len() - 1].0 <= s[init.len() as int].0);
        }
        assert forall|i: int| 0 <= i < s.len() implies covered(q, #[trigger] s[i]) by {
            if i < init.len() {
                assert(covered(p, init[i]));
                let k = choose|k: int|
                    0 <= k < p.len() && (#[trigger] p[k]).0 <= init[i].0 && init[i].1 <= p[k].1;
                if q.len() == p.len() && k == p.len() - 1 {
                    assert(q[k].0 <= s[i].0 && s[i].1 <= q[k].1);
                } else {
                    assert(q[k] == p[k]);
                }
            } else {
                assert(q[q.len() - 1].0 <= x.0 && x.1 <= q[q.len() - 1].1);
            }
        }
        assert forall|i: int, j: int| 0 <= i < j < q.len() implies (#[trigger] q[i]).1 + GAP < (
        #[trigger] q[j]).0 by {
            if j < p.len() {
                assert(p[i].1 + GAP < p[j].0);
            } else if i < p.len() - 1 {
                assert(p[i].1 + GAP < p[p.len() - 1].0);
            }
        }
    }
}

/// The ranges that are fetched cover the bytes of every row group that is
/// kept, and lie more than the gap apart.
pub proof fn fetched_ranges_cover_the_groups(groups: Seq<RowGroup>, keep: Seq<usize>)
    ensures
        forall|i: int|
            0 <= i < spans_of(groups, keep).len() ==> covered(
                ranges_of(groups, keep),
                #[trigger] spans_of(groups, keep)[i],
            ),
        forall|i: int, j: int|
            0 <= i < j < ranges_of(groups, keep).len() ==> (#[trigger] ranges_of(groups, keep)[i]).1
                + 65_536 < (#[trigger] ranges_of(groups, keep)[j]).0,
{
    let spans = spans_of(groups, keep);
    lemma_ordered(spans);
    lemma_joined(ordered(spans));
    assert forall|i: int| 0 <= i < spans.len() implies covered(
        ranges_of(groups, keep),
        #[trigger] spans[i],
    ) by {
        assert(ordered(spans).contains(spans[i]));
        let k = choose|k: int| 0 <= k < ordered(spans).len() && ordered(spans)[k] == spans[i];
        assert(covered(joined(ordered(spans)), ordered(spans)[k]));
    }
}

proof fn lemma_span_covers(chunks: Seq<(u64, u64)>, k: int, j: int)
    requires
        0 <= j < k <= chunks.len(),
    ensures
        span_of(chunks, k).0 <= chunks[j].0,
        chunks[j].0 + chunks[j].1 <= span_of(chunks, k).1,
    decreases k,
{
    if j < k - 1 {
        lemma_span_covers(chunks, k - 1, j);
    }
}

/// Every byte of every column chunk of a row group that is kept lies within a
/// range that is fetched.
pub proof fn every_chunk_is_fetched(groups: Seq<RowGroup>, keep: Seq<usize>, g: int, j: int)
    requires
        0 <= g < keep.len(),
        0 <= j < groups[keep[g] as int].chunks@.len(),
        groups[keep[g] as int].chunks@[j].1 > 0,
    ensures
        exists|i: int|
            {
                let (start, length) = groups[keep[g] as int].chunks@[j];
                0 <= i < ranges_of(groups, keep).len() && (#[trigger] ranges_of(groups, keep)[i]).0
                    <= start && start + length <= ranges_of(groups, keep)[i].1
            },
{
    let chunks = groups[keep[g] as int].chunks@;
    lemma_span_covers(chunks, chunks.len() as int, j);
    let x = span_of(chunks, chunks.len() as int);
    lemma_span_is_listed(groups, keep, g);
    let spans = spans_of(groups, keep);
    fetched_ranges_cover_the_groups(groups, keep);
    let k = choose|k: int| 0 <= k < spans.len() && spans[k] == x;
    assert(covered(ranges_of(groups, keep), spans[k]));
}

proof fn lemma_span_is_listed(groups: Seq<RowGroup>, keep: Seq<usize>, g: int)
    requires
        0 <= g < keep.len(),
    ensures
        ({
            let chunks = groups[keep[g] as int].chunks@;
            let x = span_of(chunks, chunks.len() as int);
            x.0 < x.1 ==> spans_of(groups, keep).contains(x)
        }),
    decreases keep.len(),
{
    let init = keep.drop_last();
    let p = spans_of(groups, init);
    let q = spans_of(groups, keep);
    let chunks = groups[keep[g] as int].chunks@;
    let x = span_of(chunks, chunks.len() as int);
    if x.0 < x.1 {
        if g < init.len() {
            assert(init[g] == keep[g]);
            lemma_span_is_listed(groups, init, g);
            let k = choose|k: int| 0 <= k < p.len() && p[k] == x;
            assert(q[k] == x);
        } else {
            assert(q[p.len() as int] == x);
        }
    }
}

/// The integers of pairs.
pub open spec fn pairs(v: Seq<(u64, u64)>) -> Seq<(int, int)> {
    v.map_values(|p: (u64, u64)| (p.0 as int, p.1 as int))
}

fn group_span(g: &RowGroup) -> (r: (u64, u64))
    requires
        forall|k: int|
            0 <= k < g.chunks@.len() ==> (#[trigger] g.chunks@[k]).0 + g.chunks@[k].1 <= u64::MAX,
    ensures
        (r.0 as int, r.1 as int) == span_of(g.chunks@, g.chunks@.len() as int),
{
    let mut lo: u64 = u64::MAX;
    let mut hi: u64 = 0;
    let mut k: usize = 0;
    while k < g.chunks.len()
        invariant
            k <= g.chunks.len(),
            forall|k: int|
                0 <= k < g.chunks@.len() ==> (#[trigger] g.chunks@[k]).0 + g.chunks@[k].1
                    <= u64::MAX,
            (lo as int, hi as int) == span_of(g.chunks@, k as int),
        decreases g.chunks.len() - k,
    {
        let (start, len): (u64, u64) = g.chunks[k];
        assert(g.chunks@[k as int].0 + g.chunks@[k as int].1 <= u64::MAX);
        if start < lo {
            lo = start;
        }
        if start + len > hi {
            hi = start + len;
        }
        k += 1;
    }
    (lo, hi)
}

fn insert_span(v: &mut Vec<(u64, u64)>, x: (u64, u64))
    ensures
        pairs(final(v)@) == put_span(pairs(old(v)@), (x.0 as int, x.1 as int)),
{
    let ghost was = pairs(v@);
    let ghost y = (x.0 as int, x.1 as int);
    let mut at: usize = v.len();
    proof {
        assert(was.take(was.len() as int) =~= was);
        assert(put_span(was, y) =~= put_span(was.take(at as int), y) + was.skip(at as int));
    }
    while at > 0 && (x.0 < v[at - 1].0 || (x.0 == v[at - 1].0 && x.1 < v[at - 1].1))
        invariant
            at <= v.len(),
            was == pairs(v@),
            y == (x.0 as int, x.1 as int),
            put_span(was, y) == put_span(was.take(at as int), y) + was.skip(at as int),
        decreases at,
    {
        proof {
            let p = was.take(at as int);
            assert(p.last() == was[at - 1]);
            assert(p.drop_last() =~= was.take(at - 1));
            assert(put_span(p, y) + was.skip(at as int) =~= put_span(was.take(at - 1), y)
                + was.skip(at - 1));
        }
        at -= 1;
    }
    proof {
        assert(at > 0 ==> was.take(at as int).last() == was[at - 1]);
        assert(put_span(was.take(at as int), y) == was.take(at as int).push(y));
    }
    v.insert(at, x);
    assert(pairs(v@) =~= was.take(at as int).push(y) + was.skip(at as int));
}

/// The byte ranges, as start and end, to fetch for the row groups `keep` of a
/// file.
pub fn prefetch_ranges(file: &FileGroups, keep: &Vec<usize>) -> (r: Vec<(u64, u64)>)
    requires
        forall|i: int| 0 <= i < keep.len() ==> (#[trigger] keep@[i]) < file.groups.len(),
        forall|g: int, k: int|
            0 <= g < file.groups.len() && 0 <= k < file.groups@[g].chunks@.len() ==> (
            #[trigger] file.groups@[g].chunks@[k]).0 + file.groups@[g].chunks@[k].1 <= u64::MAX,
    ensures
        pairs(r@) == ranges_of(file.groups@, keep@),
{
    let ghost groups = file.groups@;
    let mut spans: Vec<(u64, u64)> = Vec::new();
    let mut i: usize = 0;
    assert(keep@.take(0) =~= Seq::empty());
    assert(pairs(spans@) =~= Seq::empty());
    while i < keep.len()
        invariant
            i <= keep.len(),
            groups == file.groups@,
            forall|i: int| 0 <= i < keep.len() ==> (#[trigger] keep@[i]) < file.groups.len(),
            forall|g: int, k: int|
                0 <= g < groups.len() && 0 <= k < groups[g].chunks@.len() ==> (
                #[trigger] groups[g].chunks@[k]).0 + groups[g].chunks@[k].1 <= u64::MAX,
            pairs(spans@) == ordered(spans_of(groups, keep@.take(i as int))),
        decreases keep.len() - i,
    {
        assert(keep@.take(i + 1).drop_last() =~= keep@.take(i as int));
        let g: usize = keep[i];
        assert forall|k: int| 0 <= k < groups[g as int].chunks@.len() implies (
        #[trigger] file.groups@[g as int].chunks@[k]).0 + file.groups@[g as int].chunks@[k].1
            <= u64::MAX by {
            assert(groups[g as int].chunks@[k].0 + groups[g as int].chunks@[k].1 <= u64::MAX);
        }
        let (lo, hi): (u64, u64) = group_span(&file.groups[g]);
        if lo < hi {
            proof {
                let p = spans_of(groups, keep@.take(i as int));
                assert(p.push((lo as int, hi as int)).drop_last() =~= p);
            }
            insert_span(&mut spans, (lo, hi));
        }
        i += 1;
    }
    assert(keep@.take(keep@.len() as int) =~= keep@);
    let ghost all = pairs(spans@);
    let mut out: Vec<(u64, u64)> = Vec::new();
    let mut i: usize = 0;
    assert(all.take(0) =~= Seq::empty());
    assert(pairs(out@) =~= Seq::empty());
    while i < spans.len()
        invariant
            i <= spans.len(),
            all == pairs(spans@),
            pairs(out@) == joined(all.take(i as int)),
        decreases spans.len() - i,
    {
        let ghost p = pairs(out@);
        assert(all.take(i + 1).drop_last() =~= all.take(i as int));
        let (lo, hi): (u64, u64) = spans[i];
        assert(all[i as int] == (lo as int, hi as int));
        let n: usize = out.len();
        let mut join: bool = false;
        if n > 0 {
            assert(p.last() == (out@[n - 1].0 as int, out@[n - 1].1 as int));
            join = lo <= out[n - 1].1 || lo - out[n - 1].1 <= GAP;
        }
        if join {
            let start: u64 = out[n - 1].0;
            let end: u64 = if hi > out[n - 1].1 {
                hi
            } else {
                out[n - 1].1
            };
            out.pop();
            out.push((start, end));
            assert(pairs(out@) =~= p.drop_last().push((start as int, end as int)));
        } else {
            out.push((lo, hi));
            assert(pairs(out@) =~= p.push((lo as int, hi as int)));
        }
        i += 1;
    }
    assert(all.take(all.len() as int) =~= all);
    out
}

// ------------------------------------------------------------ reads from ranges

/// The first block, of those with a start and a length, that holds a position.
pub open spec fn block_at(blocks: Seq<(u64, u64)>, start: u64) -> Option<int>
    decreases blocks.len(),
{
    if blocks.len() == 0 {
        None
    } else {
        match block_at(blocks.drop_last(), start) {
            Some(i) => Some(i),
            None => if blocks.last().0 <= start && start < blocks.last().0 + blocks.last().1 {
                Some(blocks.len() - 1)
            } else {
                None
            },
        }
    }
}

proof fn lemma_block_at(blocks: Seq<(u64, u64)>, start: u64)
    ensures
        match block_at(blocks, start) {
            Some(i) => {
                &&& 0 <= i < blocks.len()
                &&& blocks[i].0 <= start < blocks[i].0 + blocks[i].1
                &&& forall|j: int|
                    0 <= j < i ==> !((#[trigger] blocks[j]).0 <= start < blocks[j].0
                        + blocks[j].1)
            },
            None => forall|j: int|
                0 <= j < blocks.len() ==> !((#[trigger] blocks[j]).0 <= start < blocks[j].0
                    + blocks[j].1),
        },
    decreases blocks.len(),
{
    if blocks.len() > 0 {
        lemma_block_at(blocks.drop_last(), start);
        assert forall|j: int| 0 <= j < blocks.len() - 1 implies (#[trigger] blocks[j])
            == blocks.drop_last()[j] by {}
    }
}

/// A read is served from the first block that holds its start: that block does,
/// and no earlier one; there is none only where no block holds it.
pub proof fn the_first_block_serves(blocks: Seq<(u64, u64)>, start: u64)
    ensures
        match block_at(blocks, start) {
            Some(i) => {
                &&& 0 <= i < blocks.len()
                &&& blocks[i].0 <= start < blocks[i].0 + blocks[i].1
                &&& forall|j: int|
                    0 <= j < i ==> (#[trigger] blocks[j]).0 > start || start >= blocks[j].0
                        + blocks[j].1
            },
            None => forall|j: int|
                0 <= j < blocks.len() ==> (#[trigger] blocks[j]).0 > start || start >= blocks[j].0
                    + blocks[j].1,
        },
{
    lemma_block_at(blocks, start);
}

/// The first block that holds a position, and the offset into it.
pub fn covering(blocks: &Vec<(u64, u64)>, start: u64) -> (r: Option<(usize, u64)>)
    ensures
        match (r, block_at(blocks@, start)) {
            (Some((i, off)), Some(j)) => i == j && i < blocks.len() && off == start
                - blocks@[j].0 && off < blocks@[j].1,
            (None, None) => true,
            _ => false,
        },
{
    proof {
        lemma_block_at(blocks@, start);
    }
    let mut i: usize = 0;
    while i < blocks.len()
        invariant
            i <= blocks.len(),
            forall|j: int|
                0 <= j < i ==> !((#[trigger] blocks@[j]).0 <= start < blocks@[j].0
                    + blocks@[j].1),
            match block_at(blocks@, start) {
                Some(k) => {
                    &&& 0 <= k < blocks@.len()
                    &&& blocks@[k].0 <= start < blocks@[k].0 + blocks@[k].1
                    &&& forall|j: int|
                        0 <= j < k ==> !((#[trigger] blocks@[j]).0 <= start < blocks@[j].0
                            + blocks@[j].1)
                },
                None => forall|j: int|
                    0 <= j < blocks@.len() ==> !((#[trigger] blocks@[j]).0 <= start
                        < blocks@[j].0 + blocks@[j].1),
            },
        decreases blocks.len() - i,
    {
        let (s, n): (u64, u64) = blocks[i];
        if start >= s && start - s < n {
            return Some((i, start - s));
        }
        i += 1;
    }
    None
}

/// How a read is served: from a block, or by a fetch.
#[derive(Debug, Clone, Copy, PartialEq, Eq, Structural)]
pub enum Serve {
    Block { index: usize, from: u64 },
    Fetch,
}

/// How a read of `length` bytes at `start` is served: from the block that
/// holds its start, where that block holds all of it.
pub fn serve(blocks: &Vec<(u64, u64)>, start: u64, length: u64) -> (r: Serve)
    ensures
        match block_at(blocks@, start) {
            Some(i) => if start - blocks@[i].0 + length <= blocks@[i].1 {
                r == (Serve::Block { index: i as usize, from: (start - blocks@[i].0) as u64 })
            } else {
                r == Serve::Fetch
            },
            None => r == Serve::Fetch,
        },
{
    match covering(blocks, start) {
        Some((index, from)) => {
            if length <= blocks[index].1 - from {
                Serve::Block { index, from }
            } else {
                Serve::Fetch
            }
        },
        None => Serve::Fetch,
    }
}

/// A reader of a stored file from a position to an end, in chunks: how far it
/// has fetched, and how far the fetched bytes have been handed out.
#[derive(Debug, Clone, Copy, PartialEq, Eq, Structural)]
pub struct RangeReader {
    pub pos: u64,
    pub end: u64,
    pub buffered: u64,
    pub taken: u64,
}

/// What a reader does next: nothing is left, fetch, or hand out bytes.
#[derive(Debug, Clone, Copy, PartialEq, Eq, Structural)]
pub enum ReadStep {
    Done,
    Fetch { offset: u64, len: u64 },
    Copy { from: u64, len: u64 },
}

impl RangeReader {
    /// No more bytes are handed out than were fetched.
    pub open spec fn wf(self) -> bool {
        self.taken <= self.buffered
    }

    /// A reader from `start` to `end`.
    pub fn new(start: u64, end: u64) -> (r: RangeReader)
        ensures
            r == (RangeReader { pos: start, end, buffered: 0, taken: 0 }),
            r.wf(),
    {
        RangeReader { pos: start, end, buffered: 0, taken: 0 }
    }

    /// What the reader does next for a caller with room for `room` bytes.
    pub fn step(&self, room: u64) -> (r: ReadStep)
        requires
            self.wf(),
        ensures
            r == (if self.taken < self.buffered {
                ReadStep::Copy {
                    from: self.taken,
                    len: if room < self.buffered - self.taken {
                        room
                    } else {
                        (self.buffered - self.taken) as u64
                    },
                }
            } else if self.pos >= self.end {
                ReadStep::Done
            } else {
                ReadStep::Fetch {
                    offset: self.pos,
                    len: if CHUNK < self.end - self.pos {
                        CHUNK
                    } else {
                        (self.end - self.pos) as u64
                    },
                }
            }),
            r matches ReadStep::Fetch { offset, len } ==> offset + len <= self.end && len > 0,
    {
        if self.taken < self.buffered {
            let left: u64 = self.buffered - self.taken;
            return ReadStep::Copy {
                from: self.taken,
                len: if room < left {
                    room
                } else {
                    left
                },
            };
        }
        if self.pos >= self.end {
            return ReadStep::Done;
        }
        let left: u64 = self.end - self.pos;
        ReadStep::Fetch {
            offset: self.pos,
            len: if CHUNK < left {
                CHUNK
            } else {
                left
            },
        }
    }

    /// `got` bytes were fetched at the reader's position.
    pub fn fetched(&mut self, got: u64)
        requires
            old(self).pos + got <= u64::MAX,
        ensures
            *final(self) == (RangeReader {
                pos: (old(self).pos + got) as u64,
                end: old(self).end,
                buffered: got,
                taken: 0,
            }),
            final(self).wf(),
    {
        self.buffered = got;
        self.taken = 0;
        self.pos = self.pos + got;
    }

    /// `len` bytes were handed out.
    pub fn copied(&mut self, len: u64)
        requires
            old(self).taken + len <= old(self).buffered,
        ensures
            *final(self) == (RangeReader {
                taken: (old(self).taken + len) as u64,
                ..*old(self)
            }),
            final(self).wf(),
    {
        self.taken = self.taken + len;
    }
}

} // verus!
