//! Lists of pairs of texts: copies, and their order.
use crate::ingest;
use crate::text;
use vstd::prelude::*;
use vstd::relations::*;

verus! {

/// Whether a pair stands before another or is the same: by the first texts,
/// then by the second, byte by byte.
pub open spec fn pair_le(a: (Seq<char>, Seq<char>), b: (Seq<char>, Seq<char>)) -> bool {
    text::before(a.0, b.0) || (a.0 == b.0 && !text::before(b.1, a.1))
}

/// Pairs in order.
pub open spec fn sorted(s: Seq<(Seq<char>, Seq<char>)>) -> Seq<(Seq<char>, Seq<char>)> {
    s.sort_by(|a: (Seq<char>, Seq<char>), b: (Seq<char>, Seq<char>)| pair_le(a, b))
}

proof fn lemma_pairs_ordered()
    ensures
        total_ordering(|a: (Seq<char>, Seq<char>), b: (Seq<char>, Seq<char>)| pair_le(a, b)),
{
    let leq = |a: (Seq<char>, Seq<char>), b: (Seq<char>, Seq<char>)| pair_le(a, b);
    assert forall|a: (Seq<char>, Seq<char>)| #[trigger] leq(a, a) by {
        text::before_is_total(a.1, a.1);
    }
    assert forall|a: (Seq<char>, Seq<char>), b: (Seq<char>, Seq<char>)|
        #[trigger] leq(a, b) && #[trigger] leq(b, a) implies a == b by {
        text::before_is_total(a.0, b.0);
        text::before_is_total(a.1, b.1);
    }
    assert forall|
        a: (Seq<char>, Seq<char>),
        b: (Seq<char>, Seq<char>),
        c: (Seq<char>, Seq<char>),
    |
        #[trigger] leq(a, b) && #[trigger] leq(b, c) implies leq(a, c) by {
        text::before_is_total(a.0, b.0);
        text::before_is_total(b.0, c.0);
        text::before_is_total(a.1, b.1);
        text::before_is_total(b.1, c.1);
        text::before_is_total(a.1, c.1);
        if text::before(a.0, b.0) && text::before(b.0, c.0) {
            text::before_is_transitive(a.0, b.0, c.0);
        }
        if text::before(a.1, b.1) && text::before(b.1, c.1) {
            text::before_is_transitive(a.1, b.1, c.1);
        }
    }
    assert forall|a: (Seq<char>, Seq<char>), b: (Seq<char>, Seq<char>)|
        #[trigger] leq(a, b) || #[trigger] leq(b, a) by {
        text::before_is_total(a.0, b.0);
        text::before_is_total(a.1, b.1);
    }
}

/// The order in which pairs come does not show in their sorted list.
pub proof fn sorting_forgets_the_order(
    a: Seq<(Seq<char>, Seq<char>)>,
    b: Seq<(Seq<char>, Seq<char>)>,
)
    requires
        a.to_multiset() == b.to_multiset(),
    ensures
        sorted(a) == sorted(b),
{
    let leq = |a: (Seq<char>, Seq<char>), b: (Seq<char>, Seq<char>)| pair_le(a, b);
    lemma_pairs_ordered();
    a.lemma_sort_by_ensures(leq);
    b.lemma_sort_by_ensures(leq);
    vstd::seq_lib::lemma_sorted_unique(sorted(a), sorted(b), leq);
}

/// Pairs in order are the pairs that there were.
pub proof fn sorting_keeps_the_pairs(a: Seq<(Seq<char>, Seq<char>)>)
    ensures
        sorted(a).to_multiset() == a.to_multiset(),
        forall|i: int| 0 <= i < sorted(a).len() ==> a.contains(#[trigger] sorted(a)[i]),
{
    let leq = |a: (Seq<char>, Seq<char>), b: (Seq<char>, Seq<char>)| pair_le(a, b);
    lemma_pairs_ordered();
    a.lemma_sort_by_ensures(leq);
    let s = sorted(a);
    assert forall|i: int| 0 <= i < s.len() implies a.contains(#[trigger] s[i]) by {
        s.to_multiset_ensures();
        a.to_multiset_ensures();
        assert(s.contains(s[i]));
        assert(s.to_multiset().count(s[i]) > 0);
    }
}

fn le(a: &(String, String), b: &(String, String)) -> (r: bool)
    ensures
        r == pair_le((a.0@, a.1@), (b.0@, b.1@)),
{
    text::comes_before(a.0.as_str(), b.0.as_str()) || (text::same(a.0.as_str(), b.0.as_str())
        && !text::comes_before(b.1.as_str(), a.1.as_str()))
}

fn insert_pair(v: &mut Vec<(String, String)>, x: (String, String))
    requires
        sorted_by(
            ingest::tag_views(old(v)@),
            |a: (Seq<char>, Seq<char>), b: (Seq<char>, Seq<char>)| pair_le(a, b),
        ),
    ensures
        sorted_by(
            ingest::tag_views(final(v)@),
            |a: (Seq<char>, Seq<char>), b: (Seq<char>, Seq<char>)| pair_le(a, b),
        ),
        ingest::tag_views(final(v)@).to_multiset() == ingest::tag_views(
            old(v)@,
        ).to_multiset().insert((x.0@, x.1@)),
{
    let ghost leq = |a: (Seq<char>, Seq<char>), b: (Seq<char>, Seq<char>)| pair_le(a, b);
    let ghost was = ingest::tag_views(v@);
    let ghost y = (x.0@, x.1@);
    let mut at: usize = 0;
    proof {
        lemma_pairs_ordered();
    }
    while at < v.len() && le(&v[at], &x)
        invariant
            at <= v.len(),
            was == ingest::tag_views(v@),
            y == (x.0@, x.1@),
            forall|j: int| 0 <= j < at ==> pair_le(#[trigger] was[j], y),
        decreases v.len() - at,
    {
        assert(was[at as int] == (v@[at as int].0@, v@[at as int].1@));
        at += 1;
    }
    assert(at < v.len() ==> was[at as int] == (v@[at as int].0@, v@[at as int].1@));
    v.insert(at, x);
    proof {
        let now = ingest::tag_views(v@);
        assert(now =~= was.insert(at as int, y));
        vstd::seq_lib::to_multiset_insert(was, at as int, y);
        assert forall|i: int, j: int| 0 <= i < j < now.len() implies #[trigger] leq(
            now[i],
            now[j],
        ) by {
            if j == at {
                assert(pair_le(was[i], y));
            } else if i == at {
                assert(leq(was[at as int], y) || leq(y, was[at as int]));
                assert(leq(y, was[at as int]));
                if j - 1 > at {
                    assert(leq(was[at as int], was[j - 1]));
                    assert(leq(y, was[j - 1]));
                }
            } else {
                let a = if i < at {
                    i
                } else {
                    i - 1
                };
                let b = if j < at {
                    j
                } else {
                    j - 1
                };
                assert(leq(was[a], was[b]));
            }
        }
    }
}

/// Copies of pairs, in order.
pub fn sort(v: &Vec<(String, String)>) -> (r: Vec<(String, String)>)
    ensures
        ingest::tag_views(r@) == sorted(ingest::tag_views(v@)),
{
    broadcast use vstd::multiset::group_multiset_axioms;

    let ghost leq = |a: (Seq<char>, Seq<char>), b: (Seq<char>, Seq<char>)| pair_le(a, b);
    let ghost all = ingest::tag_views(v@);
    let mut r: Vec<(String, String)> = Vec::new();
    let mut i: usize = 0;
    proof {
        all.to_multiset_ensures();
        assert(ingest::tag_views(r@) =~= Seq::empty());
        assert(all.take(0) =~= Seq::empty());
    }
    while i < v.len()
        invariant
            i <= v.len(),
            all == ingest::tag_views(v@),
            sorted_by(
                ingest::tag_views(r@),
                |a: (Seq<char>, Seq<char>), b: (Seq<char>, Seq<char>)| pair_le(a, b),
            ),
            ingest::tag_views(r@).to_multiset() == all.take(i as int).to_multiset(),
        decreases v.len() - i,
    {
        proof {
            all.take(i as int).to_multiset_ensures();
            assert(all.take(i + 1) =~= all.take(i as int).push(all[i as int]));
            assert(all[i as int] == (v@[i as int].0@, v@[i as int].1@));
        }
        insert_pair(&mut r, (v[i].0.clone(), v[i].1.clone()));
        i += 1;
    }
    proof {
        assert(all.take(all.len() as int) =~= all);
        lemma_pairs_ordered();
        all.lemma_sort_by_ensures(leq);
        vstd::seq_lib::lemma_sorted_unique(ingest::tag_views(r@), sorted(all), leq);
    }
    r
}

/// Copies of pairs.
pub fn copy(v: &Vec<(String, String)>) -> (r: Vec<(String, String)>)
    ensures
        ingest::tag_views(r@) == ingest::tag_views(v@),
{
    let ghost all = ingest::tag_views(v@);
    let mut r: Vec<(String, String)> = Vec::new();
    let mut i: usize = 0;
    while i < v.len()
        invariant
            i <= v.len(),
            r.len() == i,
            all == ingest::tag_views(v@),
            forall|k: int| 0 <= k < i ==> ((#[trigger] r@[k]).0@, r@[k].1@) == all[k],
        decreases v.len() - i,
    {
        assert(all[i as int] == (v@[i as int].0@, v@[i as int].1@));
        r.push((v[i].0.clone(), v[i].1.clone()));
        i += 1;
    }
    assert(ingest::tag_views(r@) =~= all);
    r
}

/// Whether one place of a list comes before another: by the pairs there, and
/// among equal pairs by the place itself.
pub open spec fn earlier(keys: Seq<(Seq<char>, Seq<char>)>, a: int, b: int) -> bool {
    pair_le(keys[a], keys[b]) && (keys[a] != keys[b] || a < b)
}

/// Whether places are in the order of the pairs there.
pub open spec fn in_turn(keys: Seq<(Seq<char>, Seq<char>)>, places: Seq<usize>) -> bool {
    &&& forall|i: int| 0 <= i < places.len() ==> (#[trigger] places[i] as int) < keys.len()
    &&& forall|i: int, j: int|
        0 <= i < j < places.len() ==> earlier(
            keys,
            #[trigger] places[i] as int,
            #[trigger] places[j] as int,
        )
}

/// The places of a list in the order of the pairs there. Equal pairs stay in
/// the order in which they stand.
pub fn order(keys: &Vec<(String, String)>) -> (r: Vec<usize>)
    ensures
        r@.len() == keys@.len(),
        in_turn(ingest::tag_views(keys@), r@),
{
    let ghost all = ingest::tag_views(keys@);
    let ghost leq = |a: (Seq<char>, Seq<char>), b: (Seq<char>, Seq<char>)| pair_le(a, b);
    proof {
        lemma_pairs_ordered();
    }
    let mut out: Vec<usize> = Vec::new();
    let mut k: usize = 0;
    while k < keys.len()
        invariant
            k <= keys.len(),
            all == ingest::tag_views(keys@),
            out@.len() == k,
            in_turn(all, out@),
            forall|i: int| 0 <= i < out@.len() ==> #[trigger] out@[i] < k,
            leq == (|a: (Seq<char>, Seq<char>), b: (Seq<char>, Seq<char>)| pair_le(a, b)),
            total_ordering(leq),
        decreases keys.len() - k,
    {
        let ghost was = out@;
        let mut at: usize = 0;
        while at < out.len() && le(&keys[out[at]], &keys[k])
            invariant
                at <= out.len(),
                k < keys.len(),
                out@ == was,
                in_turn(all, out@),
                all == ingest::tag_views(keys@),
                forall|i: int|
                    0 <= i < at ==> pair_le(all[#[trigger] out@[i] as int], all[k as int]),
            decreases out.len() - at,
        {
            assert(all[out@[at as int] as int] == (
                keys@[out@[at as int] as int].0@,
                keys@[out@[at as int] as int].1@,
            ));
            at += 1;
        }
        out.insert(at, k);
        proof {
            assert(out@ =~= was.insert(at as int, k));
            if at < was.len() {
                let p = was[at as int] as int;
                assert(all[p] == (keys@[p].0@, keys@[p].1@));
                assert(!leq(all[p], all[k as int]));
                assert(leq(all[k as int], all[p]));
            }
            assert forall|i: int, j: int| 0 <= i < j < out@.len() implies earlier(
                all,
                #[trigger] out@[i] as int,
                #[trigger] out@[j] as int,
            ) by {
                if j == at {
                    assert(out@[i] == was[i]);
                } else if i == at {
                    assert(out@[j] == was[j - 1]);
                    let p = was[at as int] as int;
                    let q = was[j - 1] as int;
                    if j - 1 > at {
                        assert(earlier(all, p, q));
                        assert(leq(all[p], all[q]));
                    }
                    assert(leq(all[p], all[q]));
                    assert(leq(all[k as int], all[q]));
                    if all[k as int] == all[q] {
                        assert(leq(all[p], all[k as int]));
                    }
                } else {
                    let a = if i < at {
                        i
                    } else {
                        i - 1
                    };
                    let b = if j < at {
                        j
                    } else {
                        j - 1
                    };
                    assert(out@[i] == was[a] && out@[j] == was[b]);
                    assert(earlier(all, was[a] as int, was[b] as int));
                }
            }
            assert forall|i: int| 0 <= i < out@.len() implies #[trigger] out@[i] < k + 1 by {
                if i < at {
                    assert(out@[i] == was[i]);
                } else if i > at {
                    assert(out@[i] == was[i - 1]);
                }
            }
        }
        k += 1;
    }
    out
}

} // verus!
