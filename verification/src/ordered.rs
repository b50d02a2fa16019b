//! A map from texts that is walked in the order of its keys.
use crate::text;
use vstd::prelude::*;

verus! {

/// A map from texts to values. Its entries stand in the order of their keys.
#[derive(Debug)]
pub struct OrderedMap<V> {
    pub entries: Vec<(String, V)>,
}

/// The keys of entries.
pub open spec fn keys_of<V>(entries: Seq<(String, V)>) -> Seq<Seq<char>> {
    entries.map_values(|e: (String, V)| e.0@)
}

/// Whether an entry has a key.
pub open spec fn has_key<V>(entries: Seq<(String, V)>, k: Seq<char>) -> bool {
    exists|i: int| 0 <= i < entries.len() && (#[trigger] entries[i]).0@ == k
}

/// Where the entry with a key stands.
pub open spec fn place_of<V>(entries: Seq<(String, V)>, k: Seq<char>) -> int {
    choose|i: int| 0 <= i < entries.len() && (#[trigger] entries[i]).0@ == k
}

/// The value of the entry with a key.
pub open spec fn value_of<V>(entries: Seq<(String, V)>, k: Seq<char>) -> V {
    entries[place_of(entries, k)].1
}

impl<V> View for OrderedMap<V> {
    type V = Map<Seq<char>, V>;

    open spec fn view(&self) -> Map<Seq<char>, V> {
        Map::new(
            |k: Seq<char>| has_key(self.entries@, k),
            |k: Seq<char>| value_of(self.entries@, k),
        )
    }
}

proof fn lemma_value<V>(entries: Seq<(String, V)>, i: int)
    requires
        text::strictly_ordered(keys_of(entries)),
        0 <= i < entries.len(),
    ensures
        has_key(entries, entries[i].0@),
        value_of(entries, entries[i].0@) == entries[i].1,
{
    let k = entries[i].0@;
    let j = place_of(entries, k);
    assert(entries[i].0@ == k);
    assert(0 <= j < entries.len() && entries[j].0@ == k);
    let keys = keys_of(entries);
    assert(keys[i] == k);
    assert(keys[j] == k);
    text::before_is_total(k, k);
    if i < j {
        assert(text::before(keys[i], keys[j]));
    }
    if j < i {
        assert(text::before(keys[j], keys[i]));
    }
}

impl<V> OrderedMap<V> {
    /// The keys stand in order, each once.
    pub open spec fn wf(self) -> bool {
        text::strictly_ordered(keys_of(self.entries@))
    }

    /// A map without entries.
    pub fn new() -> (r: OrderedMap<V>)
        ensures
            r.wf(),
            r.entries@.len() == 0,
            r@ == Map::<Seq<char>, V>::empty(),
    {
        let r = OrderedMap { entries: Vec::new() };
        assert(r@ =~= Map::empty());
        r
    }

    fn find(&self, key: &str) -> (r: Option<usize>)
        requires
            self.wf(),
        ensures
            match r {
                Some(i) => i < self.entries@.len() && self.entries@[i as int].0@ == key@
                    && self@.contains_key(key@) && self@[key@] == self.entries@[i as int].1,
                None => !self@.contains_key(key@),
            },
    {
        let mut i: usize = 0;
        while i < self.entries.len()
            invariant
                i <= self.entries.len(),
                self.wf(),
                forall|j: int| 0 <= j < i ==> (#[trigger] self.entries@[j]).0@ != key@,
            decreases self.entries.len() - i,
        {
            if text::same(self.entries[i].0.as_str(), key) {
                proof {
                    lemma_value(self.entries@, i as int);
                }
                return Some(i);
            }
            i += 1;
        }
        None
    }

    /// The value of a key.
    pub fn get(&self, key: &str) -> (r: Option<&V>)
        requires
            self.wf(),
        ensures
            match r {
                Some(v) => self@.contains_key(key@) && *v == self@[key@],
                None => !self@.contains_key(key@),
            },
    {
        match self.find(key) {
            Some(i) => Some(&self.entries[i].1),
            None => None,
        }
    }

    /// Whether there is a value for a key.
    pub fn contains(&self, key: &str) -> (r: bool)
        requires
            self.wf(),
        ensures
            r == self@.contains_key(key@),
    {
        self.find(key).is_some()
    }

    /// Sets the value of a key.
    pub fn insert(&mut self, key: String, value: V)
        requires
            old(self).wf(),
        ensures
            final(self).wf(),
            final(self)@ == old(self)@.insert(key@, value),
    {
        let ghost was = self.entries@;
        let ghost k = key@;
        let mut at: usize = 0;
        while at < self.entries.len() && text::comes_before(
            self.entries[at].0.as_str(),
            key.as_str(),
        )
            invariant
                at <= self.entries@.len(),
                self.entries@ == was,
                k == key@,
                forall|j: int| 0 <= j < at ==> text::before((#[trigger] was[j]).0@, k),
            decreases self.entries@.len() - at,
        {
            at += 1;
        }
        let same: bool = at < self.entries.len() && text::same(
            self.entries[at].0.as_str(),
            key.as_str(),
        );
        if same {
            self.entries.set(at, (key, value));
            proof {
                let now = self.entries@;
                assert(keys_of(now) =~= keys_of(was));
                lemma_replaced(was, now, at as int, k, value);
                assert(self@ =~= old(self)@.insert(k, value));
            }
        } else {
            self.entries.insert(at, (key, value));
            proof {
                let now = self.entries@;
                lemma_inserted(was, now, at as int, k, value);
                assert(self@ =~= old(self)@.insert(k, value));
            }
        }
    }

    /// Takes a key out. Says whether it was there.
    pub fn remove(&mut self, key: &str) -> (r: bool)
        requires
            old(self).wf(),
        ensures
            final(self).wf(),
            final(self)@ == old(self)@.remove(key@),
            r == old(self)@.contains_key(key@),
            !r ==> *final(self) == *old(self),
    {
        match self.find(key) {
            None => {
                assert(self@ =~= old(self)@.remove(key@));
                false
            },
            Some(i) => {
                let ghost was = self.entries@;
                self.entries.remove(i);
                proof {
                    let now = self.entries@;
                    lemma_removed(was, now, i as int);
                    assert(self@ =~= old(self)@.remove(key@));
                }
                true
            },
        }
    }
}

proof fn lemma_replaced<V>(
    was: Seq<(String, V)>,
    now: Seq<(String, V)>,
    at: int,
    k: Seq<char>,
    value: V,
)
    requires
        text::strictly_ordered(keys_of(was)),
        text::strictly_ordered(keys_of(now)),
        0 <= at < was.len(),
        now.len() == was.len(),
        was[at].0@ == k,
        now[at].0@ == k,
        now[at].1 == value,
        forall|i: int| 0 <= i < was.len() && i != at ==> #[trigger] now[i] == was[i],
    ensures
        forall|x: Seq<char>| #[trigger] has_key(now, x) == has_key(was, x),
        has_key(now, k),
        value_of(now, k) == value,
        forall|x: Seq<char>|
            x != k && has_key(was, x) ==> #[trigger] value_of(now, x) == value_of(was, x),
{
    lemma_value(now, at);
    assert forall|x: Seq<char>| #[trigger] has_key(now, x) == has_key(was, x) by {
        if has_key(now, x) {
            let i = choose|i: int| 0 <= i < now.len() && (#[trigger] now[i]).0@ == x;
            assert(was[i].0@ == x);
        }
        if has_key(was, x) {
            let i = choose|i: int| 0 <= i < was.len() && (#[trigger] was[i]).0@ == x;
            assert(now[i].0@ == x);
        }
    }
    assert forall|x: Seq<char>| x != k && has_key(was, x) implies #[trigger] value_of(now, x)
        == value_of(was, x) by {
        let i = choose|i: int| 0 <= i < was.len() && (#[trigger] was[i]).0@ == x;
        assert(now[i] == was[i]);
        lemma_value(was, i);
        lemma_value(now, i);
    }
}

proof fn lemma_inserted<V>(
    was: Seq<(String, V)>,
    now: Seq<(String, V)>,
    at: int,
    k: Seq<char>,
    value: V,
)
    requires
        text::strictly_ordered(keys_of(was)),
        0 <= at <= was.len(),
        now.len() == was.len() + 1,
        now[at].0@ == k,
        now[at].1 == value,
        now == was.insert(at, now[at]),
        forall|j: int| 0 <= j < at ==> text::before((#[trigger] was[j]).0@, k),
        at < was.len() ==> !text::before(was[at].0@, k) && was[at].0@ != k,
    ensures
        text::strictly_ordered(keys_of(now)),
        forall|x: Seq<char>| #[trigger] has_key(now, x) == (has_key(was, x) || x == k),
        value_of(now, k) == value,
        forall|x: Seq<char>|
            x != k && has_key(was, x) ==> #[trigger] value_of(now, x) == value_of(was, x),
{
    let keys = keys_of(now);
    let old_keys = keys_of(was);
    if at < was.len() {
        text::before_is_total(was[at].0@, k);
    }
    assert forall|i: int, j: int| 0 <= i < j < keys.len() implies text::before(
        #[trigger] keys[i],
        #[trigger] keys[j],
    ) by {
        if j == at {
            assert(text::before(was[i].0@, k));
        } else if i == at {
            assert(keys[j] == old_keys[j - 1]);
            if j - 1 > at {
                assert(text::before(old_keys[at], old_keys[j - 1]));
                text::before_is_transitive(k, was[at].0@, was[j - 1].0@);
            }
        } else {
            let a = if i < at {
                i
            } else {
                i - 1
            };
            let b = if j < at {
                j
            } else {
                j - 1
            };
            assert(keys[i] == old_keys[a]);
            assert(keys[j] == old_keys[b]);
            assert(text::before(old_keys[a], old_keys[b]));
        }
    }
    lemma_value(now, at);
    assert forall|x: Seq<char>| #[trigger] has_key(now, x) == (has_key(was, x) || x == k) by {
        if has_key(now, x) {
            let i = choose|i: int| 0 <= i < now.len() && (#[trigger] now[i]).0@ == x;
            if i < at {
                assert(was[i].0@ == x);
            } else if i > at {
                assert(was[i - 1].0@ == x);
            }
        }
        if has_key(was, x) {
            let i = choose|i: int| 0 <= i < was.len() && (#[trigger] was[i]).0@ == x;
            if i < at {
                assert(now[i].0@ == x);
            } else {
                assert(now[i + 1].0@ == x);
            }
        }
    }
    assert forall|x: Seq<char>| x != k && has_key(was, x) implies #[trigger] value_of(now, x)
        == value_of(was, x) by {
        let i = choose|i: int| 0 <= i < was.len() && (#[trigger] was[i]).0@ == x;
        lemma_value(was, i);
        if i < at {
            assert(now[i] == was[i]);
            lemma_value(now, i);
        } else {
            assert(now[i + 1] == was[i]);
            lemma_value(now, i + 1);
        }
    }
}

proof fn lemma_removed<V>(was: Seq<(String, V)>, now: Seq<(String, V)>, at: int)
    requires
        text::strictly_ordered(keys_of(was)),
        0 <= at < was.len(),
        now == was.remove(at),
    ensures
        text::strictly_ordered(keys_of(now)),
        forall|x: Seq<char>| #[trigger] has_key(now, x) == (has_key(was, x) && x != was[at].0@),
        forall|x: Seq<char>|
            has_key(now, x) ==> #[trigger] value_of(now, x) == value_of(was, x),
{
    let keys = keys_of(now);
    let old_keys = keys_of(was);
    assert forall|i: int, j: int| 0 <= i < j < keys.len() implies text::before(
        #[trigger] keys[i],
        #[trigger] keys[j],
    ) by {
        let a = if i < at {
            i
        } else {
            i + 1
        };
        let b = if j < at {
            j
        } else {
            j + 1
        };
        assert(keys[i] == old_keys[a]);
        assert(keys[j] == old_keys[b]);
        assert(text::before(old_keys[a], old_keys[b]));
    }
    assert forall|x: Seq<char>| #[trigger] has_key(now, x) == (has_key(was, x) && x
        != was[at].0@) by {
        if has_key(now, x) {
            let i = choose|i: int| 0 <= i < now.len() && (#[trigger] now[i]).0@ == x;
            let a = if i < at {
                i
            } else {
                i + 1
            };
            assert(was[a].0@ == x);
            text::before_is_total(x, x);
            if a < at {
                assert(text::before(old_keys[a], old_keys[at]));
            } else {
                assert(text::before(old_keys[at], old_keys[a]));
            }
        }
        if has_key(was, x) && x != was[at].0@ {
            let i = choose|i: int| 0 <= i < was.len() && (#[trigger] was[i]).0@ == x;
            if i < at {
                assert(now[i].0@ == x);
            } else {
                assert(now[i - 1].0@ == x);
            }
        }
    }
    assert forall|x: Seq<char>| has_key(now, x) implies #[trigger] value_of(now, x) == value_of(
        was,
        x,
    ) by {
        let i = choose|i: int| 0 <= i < now.len() && (#[trigger] now[i]).0@ == x;
        let a = if i < at {
            i
        } else {
            i + 1
        };
        assert(now[i] == was[a]);
        lemma_value(now, i);
        lemma_value(was, a);
    }
}

/// Every entry's value is the value of its key.
pub proof fn entries_are_the_map<V>(m: OrderedMap<V>, i: int)
    requires
        m.wf(),
        0 <= i < m.entries@.len(),
    ensures
        m@.contains_key(m.entries@[i].0@),
        m@[m.entries@[i].0@] == m.entries@[i].1,
{
    lemma_value(m.entries@, i);
}

} // verus!
