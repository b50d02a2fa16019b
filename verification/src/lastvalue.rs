//! The latest reading of each series, for the series that were written last.
use crate::ingest;
use crate::ingest::FieldValue;
use crate::pairs;
use crate::text;
use lru::LruCache;
use vstd::prelude::*;

verus! {

/// How many series are kept unless another number is asked for.
pub const DEFAULT_CAP: usize = 100_000;

/// The latest reading of a series: its tags in order, its time and its fields.
#[derive(Debug, Clone)]
pub struct LastValue {
    pub tags: Vec<(String, String)>,
    pub timestamp_ns: i64,
    pub fields: Vec<(String, FieldValue)>,
}

/// What a `LastValue` holds.
#[verifier::ext_equal]
pub struct LastView {
    pub tags: Seq<(Seq<char>, Seq<char>)>,
    pub timestamp_ns: i64,
    pub fields: Seq<(Seq<char>, ingest::FieldView)>,
}

impl View for LastValue {
    type V = LastView;

    open spec fn view(&self) -> LastView {
        LastView {
            tags: ingest::tag_views(self.tags@),
            timestamp_ns: self.timestamp_ns,
            fields: ingest::field_views(self.fields@),
        }
    }
}

/// The cache of the crate `lru`, whose entries are not seen from here.
#[verifier::external_type_specification]
#[verifier::external_body]
#[verifier::reject_recursive_types(K)]
#[verifier::reject_recursive_types(V)]
#[verifier::reject_recursive_types(S)]
pub struct ExLruCache<K, V, S>(lru::LruCache<K, V, S>);

/// What the cache hashes its keys with.
#[verifier::external_type_specification]
#[verifier::external_body]
pub struct ExDefaultHasher(lru::DefaultHasher);

/// The entries of a cache, the most recently used first.
pub uninterp spec fn entries_of(c: LruCache<String, LastValue>) -> Seq<(Seq<char>, LastView)>;

/// The most entries that a cache holds.
pub uninterp spec fn capacity_of(c: LruCache<String, LastValue>) -> nat;

/// A new cache, by `lru::LruCache::new`: it has no entries and holds at most
/// `cap`. Room for them is reserved at once, which more than the bound on `cap`
/// would refuse.
#[verifier::external_body]
fn new_cache(cap: usize) -> (r: LruCache<String, LastValue>)
    requires
        0 < cap <= usize::MAX / 128,
    ensures
        entries_of(r) == Seq::<(Seq<char>, LastView)>::empty(),
        capacity_of(r) == cap,
{
    LruCache::new(std::num::NonZeroUsize::new(cap).unwrap())
}

/// Looks a key up by `lru::LruCache::get`, which makes its entry the most
/// recently used one.
#[verifier::external_body]
fn get_entry<'a>(c: &'a mut LruCache<String, LastValue>, key: &str) -> (r: Option<&'a LastValue>)
    ensures
        capacity_of(*final(c)) == capacity_of(*old(c)),
        match (r, entry_at(entries_of(*old(c)), key@)) {
            (Some(v), Some(i)) => {
                &&& v@ == entries_of(*old(c))[i].1
                &&& entries_of(*final(c)) == promoted(entries_of(*old(c)), i)
            },
            (None, None) => entries_of(*final(c)) == entries_of(*old(c)),
            _ => false,
        },
{
    c.get(key)
}

/// Puts an entry by `lru::LruCache::put`: in front of the others, in place of
/// the one with its key, or of the least recently used one where the cache is
/// full.
#[verifier::external_body]
fn put_entry(c: &mut LruCache<String, LastValue>, key: String, value: LastValue)
    ensures
        capacity_of(*final(c)) == capacity_of(*old(c)),
        entries_of(*final(c)) == put(
            entries_of(*old(c)),
            capacity_of(*old(c)),
            key@,
            value@,
        ),
{
    c.put(key, value);
}

/// Takes an entry out by `lru::LruCache::pop`, which leaves the order of the
/// others as it is.
#[verifier::external_body]
fn pop_entry(c: &mut LruCache<String, LastValue>, key: &str)
    ensures
        capacity_of(*final(c)) == capacity_of(*old(c)),
        entries_of(*final(c)) == (match entry_at(entries_of(*old(c)), key@) {
            Some(i) => entries_of(*old(c)).remove(i),
            None => entries_of(*old(c)),
        }),
{
    c.pop(key);
}

/// Copies the entries out by `lru::LruCache::iter`, which goes from the most
/// to the least recently used.
#[verifier::external_body]
fn list_entries(c: &LruCache<String, LastValue>) -> (r: Vec<(String, LastValue)>)
    ensures
        entry_views(r@) == entries_of(*c),
{
    c.iter().map(|(k, v)| (k.clone(), v.copy())).collect()
}

/// The number of entries, by `lru::LruCache::len`.
#[verifier::external_body]
fn count_entries(c: &LruCache<String, LastValue>) -> (r: usize)
    ensures
        r == entries_of(*c).len(),
{
    c.len()
}

// ---------------------------------------------------------------- the entries

/// What entries hold.
pub open spec fn entry_views(v: Seq<(String, LastValue)>) -> Seq<(Seq<char>, LastView)> {
    v.map_values(|e: (String, LastValue)| (e.0@, e.1@))
}

/// Where the entry with a key stands.
pub open spec fn entry_at(s: Seq<(Seq<char>, LastView)>, key: Seq<char>) -> Option<int> {
    if exists|i: int| 0 <= i < s.len() && (#[trigger] s[i]).0 == key {
        Some(choose|i: int| 0 <= i < s.len() && (#[trigger] s[i]).0 == key)
    } else {
        None
    }
}

/// Whether no key occurs twice.
pub open spec fn keys_once(s: Seq<(Seq<char>, LastView)>) -> bool {
    forall|i: int, j: int| 0 <= i < j < s.len() ==> (#[trigger] s[i]).0 != (#[trigger] s[j]).0
}

/// Entries with one of them in front of the others.
pub open spec fn promoted(s: Seq<(Seq<char>, LastView)>, i: int) -> Seq<(Seq<char>, LastView)> {
    seq![s[i]] + s.remove(i)
}

/// Entries with one put in front: in place of the one with its key, or of the
/// last one where there is no room.
pub open spec fn put(
    s: Seq<(Seq<char>, LastView)>,
    cap: nat,
    key: Seq<char>,
    v: LastView,
) -> Seq<(Seq<char>, LastView)> {
    match entry_at(s, key) {
        Some(i) => seq![(key, v)] + s.remove(i),
        None => if s.len() < cap {
            seq![(key, v)] + s
        } else {
            seq![(key, v)] + s.drop_last()
        },
    }
}

/// Entries after a row of a series was written: a newer one takes the place of
/// the reading that is held, an older one or one of the same time does not;
/// the series is in front either way.
pub open spec fn observed(
    s: Seq<(Seq<char>, LastView)>,
    cap: nat,
    key: Seq<char>,
    row: LastView,
) -> Seq<(Seq<char>, LastView)> {
    match entry_at(s, key) {
        Some(i) => if row.timestamp_ns > s[i].1.timestamp_ns {
            put(
                promoted(s, i),
                cap,
                key,
                LastView {
                    tags: s[i].1.tags,
                    timestamp_ns: row.timestamp_ns,
                    fields: row.fields,
                },
            )
        } else {
            promoted(s, i)
        },
        None => put(s, cap, key, row),
    }
}

/// The entries whose keys do not begin with a prefix.
pub open spec fn dropped(s: Seq<(Seq<char>, LastView)>, prefix: Seq<char>) -> Seq<
    (Seq<char>, LastView),
> {
    s.filter(|e: (Seq<char>, LastView)| !text::begins_with(e.0, prefix))
}

/// The readings whose keys begin with a prefix, in order.
pub open spec fn selected(s: Seq<(Seq<char>, LastView)>, prefix: Seq<char>) -> Seq<LastView>
    decreases s.len(),
{
    if s.len() == 0 {
        Seq::empty()
    } else {
        let p = selected(s.drop_last(), prefix);
        if text::begins_with(s.last().0, prefix) {
            p.push(s.last().1)
        } else {
            p
        }
    }
}

proof fn lemma_entry_at(s: Seq<(Seq<char>, LastView)>, key: Seq<char>, i: int)
    requires
        keys_once(s),
        0 <= i < s.len(),
        s[i].0 == key,
    ensures
        entry_at(s, key) == Some(i),
{
    let k = choose|k: int| 0 <= k < s.len() && (#[trigger] s[k]).0 == key;
    assert(s[k].0 == key);
    if k < i {
        assert(s[k].0 != s[i].0);
    }
    if i < k {
        assert(s[i].0 != s[k].0);
    }
}

proof fn lemma_promoted(s: Seq<(Seq<char>, LastView)>, i: int)
    requires
        keys_once(s),
        0 <= i < s.len(),
    ensures
        keys_once(promoted(s, i)),
        promoted(s, i).len() == s.len(),
        promoted(s, i)[0] == s[i],
{
    let q = promoted(s, i);
    assert forall|a: int, b: int| 0 <= a < b < q.len() implies (#[trigger] q[a]).0 != (
    #[trigger] q[b]).0 by {
        let x = if b - 1 < i {
            b - 1
        } else {
            b
        };
        assert(q[b] == s[x]);
        if a == 0 {
            assert(s[i].0 != s[x].0);
        } else {
            let y = if a - 1 < i {
                a - 1
            } else {
                a
            };
            assert(q[a] == s[y]);
            assert(s[y].0 != s[x].0);
        }
    }
}

proof fn lemma_put(s: Seq<(Seq<char>, LastView)>, cap: nat, key: Seq<char>, v: LastView)
    requires
        keys_once(s),
        s.len() <= cap,
        cap > 0,
    ensures
        keys_once(put(s, cap, key, v)),
        put(s, cap, key, v).len() <= cap,
        put(s, cap, key, v).len() > 0,
        put(s, cap, key, v)[0] == (key, v),
{
    let q = put(s, cap, key, v);
    match entry_at(s, key) {
        Some(i) => {
            assert(0 <= i < s.len() && s[i].0 == key);
            lemma_promoted(s, i);
            assert forall|a: int, b: int| 0 <= a < b < q.len() implies (#[trigger] q[a]).0 != (
            #[trigger] q[b]).0 by {
                let p = promoted(s, i);
                assert(p[a].0 == q[a].0);
                assert(p[b].0 == q[b].0);
            }
        },
        None => {
            assert forall|a: int, b: int| 0 <= a < b < q.len() implies (#[trigger] q[a]).0 != (
            #[trigger] q[b]).0 by {
                assert(q[b] == s[b - 1]);
                if a > 0 {
                    assert(q[a] == s[a - 1]);
                    assert(s[a - 1].0 != s[b - 1].0);
                }
            }
        },
    }
}

// ------------------------------------------------------------------- the keys

/// What a table is known by.
pub open spec fn table_key(db: Seq<char>, table: Seq<char>) -> Seq<char> {
    db + seq!['\0'] + table
}

/// What the key of every series of a table begins with.
pub open spec fn prefix_of(db: Seq<char>, table: Seq<char>) -> Seq<char> {
    table_key(db, table).push('\0')
}

/// Tags in a row, told apart by a zero character.
pub open spec fn joined_tags(tags: Seq<(Seq<char>, Seq<char>)>) -> Seq<char>
    decreases tags.len(),
{
    if tags.len() == 0 {
        Seq::empty()
    } else {
        let p = joined_tags(tags.drop_last());
        let t = tags.last().0 + seq!['='] + tags.last().1;
        if tags.len() > 1 {
            p.push('\0') + t
        } else {
            t
        }
    }
}

/// The key of a series.
pub open spec fn key_of(
    db: Seq<char>,
    table: Seq<char>,
    tags: Seq<(Seq<char>, Seq<char>)>,
) -> Seq<char> {
    prefix_of(db, table) + joined_tags(pairs::sorted(tags))
}

fn table_id(db: &str, table: &str) -> (r: String)
    ensures
        r@ == table_key(db@, table@),
{
    let mut k = db.to_owned();
    k.push('\0');
    k.append(table);
    assert(k@ =~= table_key(db@, table@));
    k
}

fn key_prefix(db: &str, table: &str) -> (r: String)
    ensures
        r@ == prefix_of(db@, table@),
{
    let mut k = table_id(db, table);
    k.push('\0');
    k
}

fn series_key(db: &str, table: &str, tags: &Vec<(String, String)>) -> (r: String)
    ensures
        r@ == prefix_of(db@, table@) + joined_tags(ingest::tag_views(tags@)),
{
    let mut k = key_prefix(db, table);
    let ghost head = k@;
    let ghost all = ingest::tag_views(tags@);
    let mut i: usize = 0;
    assert(all.take(0) =~= Seq::empty());
    assert(k@ =~= head + joined_tags(all.take(0)));
    while i < tags.len()
        invariant
            i <= tags.len(),
            all == ingest::tag_views(tags@),
            k@ == head + joined_tags(all.take(i as int)),
        decreases tags.len() - i,
    {
        assert(all.take(i + 1).drop_last() =~= all.take(i as int));
        assert(all.take(i + 1).last() == (tags@[i as int].0@, tags@[i as int].1@));
        let ghost was = joined_tags(all.take(i as int));
        if i > 0 {
            k.push('\0');
        }
        k.append(tags[i].0.as_str());
        k.push('=');
        k.append(tags[i].1.as_str());
        assert(k@ =~= head + joined_tags(all.take(i + 1)));
        i += 1;
    }
    assert(all.take(all.len() as int) =~= all);
    k
}

/// A series has one key, in whatever order its tags arrive.
pub proof fn tag_order_does_not_split_a_series(
    db: Seq<char>,
    table: Seq<char>,
    a: Seq<(Seq<char>, Seq<char>)>,
    b: Seq<(Seq<char>, Seq<char>)>,
)
    requires
        a.to_multiset() == b.to_multiset(),
    ensures
        key_of(db, table, a) == key_of(db, table, b),
{
    pairs::sorting_forgets_the_order(a, b);
}

/// The key of a series begins with its own table's prefix and with no other
/// table's, if names hold no zero character.
pub proof fn tables_do_not_bleed(
    db: Seq<char>,
    table: Seq<char>,
    tags: Seq<(Seq<char>, Seq<char>)>,
    other_db: Seq<char>,
    other: Seq<char>,
)
    requires
        !db.contains('\0'),
        !table.contains('\0'),
        !other_db.contains('\0'),
        !other.contains('\0'),
    ensures
        text::begins_with(key_of(db, table, tags), prefix_of(other_db, other)) <==> db == other_db
            && table == other,
{
    let key = key_of(db, table, tags);
    let p = prefix_of(other_db, other);
    let mine = prefix_of(db, table);
    assert(key.take(mine.len() as int) =~= mine);
    if text::begins_with(key, p) {
        let n = db.len() as int;
        let m = other_db.len() as int;
        assert(mine[n] == '\0');
        assert(p[m] == '\0');
        assert(key[n] == '\0');
        assert(key.take(p.len() as int)[m] == p[m]);
        assert(key[m] == '\0');
        if n < m {
            assert(key.take(p.len() as int)[n] == p[n]);
            assert(other_db[n] == '\0');
        }
        if m < n {
            assert(mine[m] == db[m]);
            assert(db[m] == '\0');
        }
        assert forall|i: int| 0 <= i < n implies db[i] == other_db[i] by {
            assert(key.take(p.len() as int)[i] == p[i]);
            assert(mine[i] == db[i]);
            assert(p[i] == other_db[i]);
        }
        assert(db =~= other_db);
        let a = table.len() as int;
        let b = other.len() as int;
        assert(mine[n + 1 + a] == '\0');
        assert(p[n + 1 + b] == '\0');
        assert(key.take(p.len() as int)[n + 1 + b] == p[n + 1 + b]);
        if a < b {
            assert(key[n + 1 + a] == '\0');
            assert(key.take(p.len() as int)[n + 1 + a] == p[n + 1 + a]);
            assert(p[n + 1 + a] == other[a]);
        }
        if b < a {
            assert(mine[n + 1 + b] == table[b]);
        }
        assert forall|i: int| 0 <= i < a implies table[i] == other[i] by {
            assert(key.take(p.len() as int)[n + 1 + i] == p[n + 1 + i]);
            assert(mine[n + 1 + i] == table[i]);
            assert(p[n + 1 + i] == other[i]);
        }
        assert(table =~= other);
    }
}

impl LastValue {
    /// A copy.
    pub fn copy(&self) -> (r: LastValue)
        ensures
            r@ == self@,
    {
        LastValue {
            tags: pairs::copy(&self.tags),
            timestamp_ns: self.timestamp_ns,
            fields: copy_fields(&self.fields),
        }
    }
}

fn copy_fields(v: &Vec<(String, FieldValue)>) -> (r: Vec<(String, FieldValue)>)
    ensures
        ingest::field_views(r@) == ingest::field_views(v@),
{
    let ghost all = ingest::field_views(v@);
    let mut r: Vec<(String, FieldValue)> = Vec::new();
    let mut i: usize = 0;
    while i < v.len()
        invariant
            i <= v.len(),
            r.len() == i,
            all == ingest::field_views(v@),
            forall|k: int| 0 <= k < i ==> ((#[trigger] r@[k]).0@, r@[k].1@) == all[k],
        decreases v.len() - i,
    {
        assert(all[i as int] == (v@[i as int].0@, v@[i as int].1@));
        r.push((v[i].0.clone(), ingest::copy_value(&v[i].1)));
        i += 1;
    }
    assert(ingest::field_views(r@) =~= all);
    r
}

// ------------------------------------------------------------------ the cache

/// The latest readings of the tables for which they are wanted.
pub struct LastValueCache {
    /// The tables, in order, each once.
    pub enabled: Vec<String>,
    pub map: LruCache<String, LastValue>,
}

impl LastValueCache {
    /// The tables are in order, each once; so is the key of each entry; and
    /// there are no more entries than the capacity.
    pub open spec fn wf(self) -> bool {
        &&& text::strictly_ordered(text::texts(self.enabled@))
        &&& keys_once(entries_of(self.map))
        &&& entries_of(self.map).len() <= capacity_of(self.map)
        &&& capacity_of(self.map) > 0
    }

    /// Whether readings of a table are wanted.
    pub open spec fn wants(self, db: Seq<char>, table: Seq<char>) -> bool {
        text::texts(self.enabled@).contains(table_key(db, table))
    }

    /// A cache of at most `cap` series, and of at least one.
    pub fn new(cap: usize) -> (r: LastValueCache)
        requires
            cap <= usize::MAX / 128,
        ensures
            r.wf(),
            r.enabled@.len() == 0,
            entries_of(r.map).len() == 0,
            capacity_of(r.map) == (if cap < 1 {
                1
            } else {
                cap
            }),
    {
        let enabled: Vec<String> = Vec::new();
        assert(text::texts(enabled@) =~= Seq::empty());
        LastValueCache {
            enabled,
            map: new_cache(
                if cap < 1 {
                    1
                } else {
                    cap
                },
            ),
        }
    }

    /// A cache of the usual size.
    pub fn with_default_cap() -> (r: LastValueCache)
        ensures
            r.wf(),
            r.enabled@.len() == 0,
            entries_of(r.map).len() == 0,
            capacity_of(r.map) == DEFAULT_CAP,
    {
        LastValueCache::new(DEFAULT_CAP)
    }

    /// Whether readings of any table are wanted.
    pub fn is_active(&self) -> (r: bool)
        ensures
            r == (self.enabled@.len() > 0),
    {
        self.enabled.len() > 0
    }

    /// From now on, readings of a table are wanted.
    pub fn enable(&mut self, db: &str, table: &str)
        requires
            old(self).wf(),
        ensures
            final(self).wf(),
            final(self).map == old(self).map,
            forall|k: Seq<char>| #[trigger]
                text::texts(final(self).enabled@).contains(k) <==> text::texts(
                    old(self).enabled@,
                ).contains(k) || k == table_key(db@, table@),
            final(self).enabled@.len() > 0,
    {
        let key = table_id(db, table);
        text::insert_once(&mut self.enabled, key.as_str());
        assert(text::texts(self.enabled@).contains(key@));
    }

    /// Readings of a table are not wanted any more, and those that are held
    /// are dropped.
    pub fn disable(&mut self, db: &str, table: &str)
        requires
            old(self).wf(),
        ensures
            final(self).wf(),
            capacity_of(final(self).map) == capacity_of(old(self).map),
            forall|k: Seq<char>| #[trigger]
                text::texts(final(self).enabled@).contains(k) <==> text::texts(
                    old(self).enabled@,
                ).contains(k) && k != table_key(db@, table@),
            entries_of(final(self).map) == dropped(
                entries_of(old(self).map),
                prefix_of(db@, table@),
            ),
    {
        let key = table_id(db, table);
        self.forget(key.as_str());
        let prefix = key_prefix(db, table);
        let held = list_entries(&self.map);
        let ghost all = entries_of(self.map);
        let ghost keep = |e: (Seq<char>, LastView)| !text::begins_with(e.0, prefix@);
        let mut i: usize = 0;
        assert(all.take(0).filter(keep) + all.skip(0) =~= all) by {
            assert(all.take(0) =~= Seq::empty());
            assert(all.skip(0) =~= all);
            reveal(Seq::filter);
        }
        while i < held.len()
            invariant
                i <= held.len(),
                all == entry_views(held@),
                keys_once(all),
                keep == (|e: (Seq<char>, LastView)| !text::begins_with(e.0, prefix@)),
                entries_of(self.map) == all.take(i as int).filter(keep) + all.skip(i as int),
                capacity_of(self.map) == capacity_of(old(self).map),
                text::strictly_ordered(text::texts(self.enabled@)),
                forall|k: Seq<char>| #[trigger]
                    text::texts(self.enabled@).contains(k) <==> text::texts(
                        old(self).enabled@,
                    ).contains(k) && k != key@,
            decreases held.len() - i,
        {
            let ghost now = entries_of(self.map);
            let ghost done = all.take(i as int).filter(keep);
            assert(all[i as int] == (held@[i as int].0@, held@[i as int].1@));
            proof {
                lemma_filter_take(all, keep, i as int);
                lemma_kept_once(all, keep, i as int);
                assert(all.skip(i as int)[0] == all[i as int]);
                assert(now[done.len() as int] == all[i as int]);
            }
            if text::starts_with(held[i].0.as_str(), prefix.as_str()) {
                proof {
                    lemma_entry_at(now, held@[i as int].0@, done.len() as int);
                }
                pop_entry(&mut self.map, held[i].0.as_str());
                assert(now.remove(done.len() as int) =~= done + all.skip(i + 1));
            } else {
                assert(now =~= done.push(all[i as int]) + all.skip(i + 1));
            }
            i += 1;
        }
        proof {
            assert(all.take(all.len() as int) =~= all);
            assert(all.skip(all.len() as int) =~= Seq::empty());
            assert(entries_of(self.map) =~= all.filter(keep));
            lemma_kept_once(all, keep, all.len() as int);
            assert(all.filter(keep).len() <= all.len()) by {
                all.filter_lemma(keep);
                lemma_filter_short(all, keep);
            }
        }
    }

    fn forget(&mut self, key: &str)
        requires
            text::strictly_ordered(text::texts(old(self).enabled@)),
        ensures
            text::strictly_ordered(text::texts(final(self).enabled@)),
            final(self).map == old(self).map,
            forall|k: Seq<char>| #[trigger]
                text::texts(final(self).enabled@).contains(k) <==> text::texts(
                    old(self).enabled@,
                ).contains(k) && k != key@,
    {
        let ghost was = text::texts(self.enabled@);
        let mut i: usize = 0;
        while i < self.enabled.len() && !text::same(self.enabled[i].as_str(), key)
            invariant
                i <= self.enabled@.len(),
                was == text::texts(self.enabled@),
                self.map == old(self).map,
                forall|j: int| 0 <= j < i ==> #[trigger] was[j] != key@,
            decreases self.enabled@.len() - i,
        {
            assert(was[i as int] == self.enabled@[i as int]@);
            i += 1;
        }
        if i < self.enabled.len() {
            assert(was[i as int] == key@);
            self.enabled.remove(i);
        }
        proof {
            let now = text::texts(self.enabled@);
            if i < was.len() {
                assert(now =~= was.remove(i as int));
                assert forall|a: int, b: int| 0 <= a < b < now.len() implies text::before(
                    #[trigger] now[a],
                    #[trigger] now[b],
                ) by {
                    let x = if a < i {
                        a
                    } else {
                        a + 1
                    };
                    let y = if b < i {
                        b
                    } else {
                        b + 1
                    };
                    assert(text::before(was[x], was[y]));
                }
            } else {
                assert(now == was);
            }
            assert forall|k: Seq<char>| #[trigger] now.contains(k) <==> was.contains(k) && k
                != key@ by {
                if now.contains(k) {
                    let j = choose|j: int| 0 <= j < now.len() && now[j] == k;
                    if i < was.len() {
                        let x = if j < i {
                            j
                        } else {
                            j + 1
                        };
                        assert(was[x] == k);
                        if x < i {
                            text::before_is_total(was[x], was[i as int]);
                        } else {
                            assert(text::before(was[i as int], was[x]));
                            text::before_is_total(was[i as int], was[x]);
                        }
                    }
                }
                if was.contains(k) && k != key@ {
                    let j = choose|j: int| 0 <= j < was.len() && was[j] == k;
                    if i < was.len() {
                        let x = if j < i {
                            j
                        } else {
                            j - 1
                        };
                        assert(now[x] == k);
                    }
                }
            }
        }
    }

    /// Whether readings of a table are wanted.
    pub fn is_enabled(&self, db: &str, table: &str) -> (r: bool)
        ensures
            r == self.wants(db@, table@),
    {
        let key = table_id(db, table);
        text::contains_text(&self.enabled, key.as_str())
    }

    /// Takes notice of a row that was written. Nothing happens unless readings
    /// of its table are wanted.
    pub fn observe(
        &mut self,
        db: &str,
        table: &str,
        tags: &Vec<(String, String)>,
        timestamp_ns: i64,
        fields: &Vec<(String, FieldValue)>,
    )
        requires
            old(self).wf(),
        ensures
            final(self).wf(),
            final(self).enabled == old(self).enabled,
            capacity_of(final(self).map) == capacity_of(old(self).map),
            entries_of(final(self).map) == (if old(self).wants(db@, table@) {
                observed(
                    entries_of(old(self).map),
                    capacity_of(old(self).map),
                    key_of(db@, table@, ingest::tag_views(tags@)),
                    LastView {
                        tags: pairs::sorted(ingest::tag_views(tags@)),
                        timestamp_ns,
                        fields: ingest::field_views(fields@),
                    },
                )
            } else {
                entries_of(old(self).map)
            }),
    {
        if !self.is_enabled(db, table) {
            return;
        }
        let sorted = pairs::sort(tags);
        let key = series_key(db, table, &sorted);
        let ghost was = entries_of(self.map);
        let ghost cap = capacity_of(self.map);
        let newer: Option<Vec<(String, String)>> = match get_entry(&mut self.map, key.as_str()) {
            Some(e) => {
                proof {
                    lemma_promoted(was, entry_at(was, key@)->Some_0);
                }
                if timestamp_ns > e.timestamp_ns {
                    Some(pairs::copy(&e.tags))
                } else {
                    return;
                }
            },
            None => None,
        };
        let tags = match newer {
            Some(held) => held,
            None => sorted,
        };
        let row = LastValue { tags, timestamp_ns, fields: copy_fields(fields) };
        proof {
            lemma_put(entries_of(self.map), cap, key@, row@);
        }
        put_entry(&mut self.map, key, row);
    }

    /// The readings of a table that are held, the most recently written first.
    pub fn snapshot(&self, db: &str, table: &str) -> (r: Vec<LastValue>)
        ensures
            last_views(r@) == selected(entries_of(self.map), prefix_of(db@, table@)),
    {
        let prefix = key_prefix(db, table);
        let held = list_entries(&self.map);
        let ghost all = entries_of(self.map);
        let mut out: Vec<LastValue> = Vec::new();
        let mut i: usize = 0;
        assert(all.take(0) =~= Seq::empty());
        assert(last_views(out@) =~= Seq::empty());
        while i < held.len()
            invariant
                i <= held.len(),
                all == entry_views(held@),
                last_views(out@) == selected(all.take(i as int), prefix@),
            decreases held.len() - i,
        {
            assert(all.take(i + 1).drop_last() =~= all.take(i as int));
            assert(all[i as int] == (held@[i as int].0@, held@[i as int].1@));
            let ghost done = last_views(out@);
            if text::starts_with(held[i].0.as_str(), prefix.as_str()) {
                out.push(held[i].1.copy());
                assert(last_views(out@) =~= done.push(held@[i as int].1@));
            }
            i += 1;
        }
        assert(all.take(all.len() as int) =~= all);
        out
    }

    /// How many series are held.
    pub fn len(&self) -> (r: usize)
        ensures
            r == entries_of(self.map).len(),
    {
        count_entries(&self.map)
    }

    /// Whether no series is held.
    pub fn is_empty(&self) -> (r: bool)
        ensures
            r == (entries_of(self.map).len() == 0),
    {
        count_entries(&self.map) == 0
    }

    /// The tables of which readings are wanted, in order.
    pub fn enabled_tables(&self) -> (r: Vec<(String, String)>)
        ensures
            ingest::tag_views(r@) == pairs::sorted(split_keys(text::texts(self.enabled@))),
    {
        let ghost all = text::texts(self.enabled@);
        let mut out: Vec<(String, String)> = Vec::new();
        let mut i: usize = 0;
        assert(all.take(0) =~= Seq::empty());
        assert(ingest::tag_views(out@) =~= Seq::empty());
        while i < self.enabled.len()
            invariant
                i <= self.enabled.len(),
                all == text::texts(self.enabled@),
                ingest::tag_views(out@) == split_keys(all.take(i as int)),
            decreases self.enabled.len() - i,
        {
            assert(all.take(i + 1).drop_last() =~= all.take(i as int));
            assert(all[i as int] == self.enabled@[i as int]@);
            let ghost done = ingest::tag_views(out@);
            if let Some((db, table)) = text::cut(self.enabled[i].as_str(), '\0') {
                let ghost p = (db@, table@);
                out.push((db, table));
                assert(ingest::tag_views(out@) =~= done.push(p));
            }
            i += 1;
        }
        assert(all.take(all.len() as int) =~= all);
        pairs::sort(&out)
    }
}

/// What readings hold.
pub open spec fn last_views(v: Seq<LastValue>) -> Seq<LastView> {
    v.map_values(|l: LastValue| l@)
}

/// Tables' keys taken apart, each at its first zero character.
pub open spec fn split_keys(keys: Seq<Seq<char>>) -> Seq<(Seq<char>, Seq<char>)>
    decreases keys.len(),
{
    if keys.len() == 0 {
        Seq::empty()
    } else {
        let p = split_keys(keys.drop_last());
        match text::cut_from(keys.last(), '\0', 0) {
            Some(t) => p.push(t),
            None => p,
        }
    }
}

proof fn lemma_filter_take(
    s: Seq<(Seq<char>, LastView)>,
    keep: spec_fn((Seq<char>, LastView)) -> bool,
    i: int,
)
    requires
        0 <= i < s.len(),
    ensures
        s.take(i + 1).filter(keep) == (if keep(s[i]) {
            s.take(i).filter(keep).push(s[i])
        } else {
            s.take(i).filter(keep)
        }),
{
    reveal(Seq::filter);
    assert(s.take(i + 1).drop_last() =~= s.take(i));
}

proof fn lemma_filter_short(
    s: Seq<(Seq<char>, LastView)>,
    keep: spec_fn((Seq<char>, LastView)) -> bool,
)
    ensures
        s.filter(keep).len() <= s.len(),
    decreases s.len(),
{
    reveal(Seq::filter);
    if s.len() > 0 {
        lemma_filter_short(s.drop_last(), keep);
    }
}

proof fn lemma_kept_once(
    s: Seq<(Seq<char>, LastView)>,
    keep: spec_fn((Seq<char>, LastView)) -> bool,
    i: int,
)
    requires
        keys_once(s),
        0 <= i <= s.len(),
    ensures
        keys_once(s.take(i).filter(keep) + s.skip(i)),
    decreases i,
{
    let now = s.take(i).filter(keep) + s.skip(i);
    if i == 0 {
        assert(s.take(0).filter(keep).len() == 0) by {
            reveal(Seq::filter);
        }
        assert(now =~= s);
    } else {
        lemma_kept_once(s, keep, i - 1);
        lemma_filter_take(s, keep, i - 1);
        let was = s.take(i - 1).filter(keep) + s.skip(i - 1);
        let n = s.take(i - 1).filter(keep).len() as int;
        if keep(s[i - 1]) {
            assert(now =~= was);
        } else {
            assert(now =~= was.remove(n));
            assert forall|a: int, b: int| 0 <= a < b < now.len() implies (#[trigger] now[a]).0 != (
            #[trigger] now[b]).0 by {
                let x = if a < n {
                    a
                } else {
                    a + 1
                };
                let y = if b < n {
                    b
                } else {
                    b + 1
                };
                assert(was[x].0 != was[y].0);
            }
        }
    }
}

// ------------------------------------------------------------------------ laws

/// Whether a tag holds neither of the characters that tell tags apart in a key.
pub open spec fn plain_tag(t: (Seq<char>, Seq<char>)) -> bool {
    &&& !t.0.contains('\0') && !t.0.contains('=')
    &&& !t.1.contains('\0') && !t.1.contains('=')
}

spec fn spelled(t: (Seq<char>, Seq<char>)) -> Seq<char> {
    t.0 + seq!['='] + t.1
}

proof fn lemma_spelled(a: (Seq<char>, Seq<char>), b: (Seq<char>, Seq<char>))
    requires
        plain_tag(a),
        plain_tag(b),
    ensures
        !spelled(a).contains('\0'),
        spelled(a) == spelled(b) ==> a == b,
{
    let x = spelled(a);
    let y = spelled(b);
    let n = a.0.len() as int;
    let m = b.0.len() as int;
    if x.contains('\0') {
        let i = choose|i: int| 0 <= i < x.len() && x[i] == '\0';
        if i < n {
            assert(a.0[i] == '\0');
        } else if i > n {
            assert(a.1[i - n - 1] == '\0');
        }
    }
    if x == y {
        assert(x[n] == '=');
        assert(y[m] == '=');
        if n < m {
            assert(b.0[n] == '=');
        } else if m < n {
            assert(a.0[m] == '=');
        }
        assert(x.take(n) =~= a.0);
        assert(y.take(m) =~= b.0);
        assert(x.skip(n + 1) =~= a.1);
        assert(y.skip(m + 1) =~= b.1);
    }
}

proof fn lemma_joined_tags_differ(a: Seq<(Seq<char>, Seq<char>)>, b: Seq<(Seq<char>, Seq<char>)>)
    requires
        forall|i: int| 0 <= i < a.len() ==> plain_tag(#[trigger] a[i]),
        forall|i: int| 0 <= i < b.len() ==> plain_tag(#[trigger] b[i]),
        joined_tags(a) == joined_tags(b),
    ensures
        a == b,
    decreases a.len(),
{
    let x = joined_tags(a);
    let y = joined_tags(b);
    if a.len() == 0 || b.len() == 0 {
        if a.len() > 0 {
            assert(x[x.len() - a.last().1.len() - 1] == '=');
        }
        if b.len() > 0 {
            assert(y[y.len() - b.last().1.len() - 1] == '=');
        }
        assert(a =~= b);
    } else {
        let p = a.drop_last();
        let q = b.drop_last();
        let s = spelled(a.last());
        let t = spelled(b.last());
        let n = x.len() - s.len();
        let m = y.len() - t.len();
        assert(plain_tag(a[a.len() - 1]) && plain_tag(b[b.len() - 1]));
        lemma_spelled(a.last(), b.last());
        lemma_spelled(b.last(), a.last());
        assert(x.skip(n) =~= s);
        assert(y.skip(m) =~= t);
        if a.len() > 1 {
            assert(x[n - 1] == '\0');
        }
        if b.len() > 1 {
            assert(y[m - 1] == '\0');
        }
        if n < m {
            assert(x.skip(n)[m - 1 - n] == '\0');
            assert(s.contains('\0'));
        } else if m < n {
            assert(y.skip(m)[n - 1 - m] == '\0');
            assert(t.contains('\0'));
        }
        assert(a.last() == b.last());
        if a.len() > 1 {
            assert(x.take(n - 1) =~= joined_tags(p));
            assert(y.take(m - 1) =~= joined_tags(q));
            assert(forall|i: int| 0 <= i < p.len() ==> p[i] == a[i]);
            assert(forall|i: int| 0 <= i < q.len() ==> q[i] == b[i]);
            lemma_joined_tags_differ(p, q);
        } else {
            assert(p =~= q);
        }
        assert(p.push(a.last()) =~= a);
        assert(q.push(b.last()) =~= b);
    }
}

/// Series that differ have keys that differ, if their names hold no zero
/// character and their tags none and no equals sign.
pub proof fn series_have_keys_of_their_own(
    db: Seq<char>,
    table: Seq<char>,
    a: Seq<(Seq<char>, Seq<char>)>,
    other_db: Seq<char>,
    other: Seq<char>,
    b: Seq<(Seq<char>, Seq<char>)>,
)
    requires
        !db.contains('\0'),
        !table.contains('\0'),
        !other_db.contains('\0'),
        !other.contains('\0'),
        forall|i: int| 0 <= i < a.len() ==> plain_tag(#[trigger] a[i]),
        forall|i: int| 0 <= i < b.len() ==> plain_tag(#[trigger] b[i]),
    ensures
        key_of(db, table, a) == key_of(other_db, other, b) <==> db == other_db && table == other
            && a.to_multiset() == b.to_multiset(),
{
    let x = key_of(db, table, a);
    let y = key_of(other_db, other, b);
    pairs::sorting_keeps_the_pairs(a);
    pairs::sorting_keeps_the_pairs(b);
    if x == y {
        let p = prefix_of(other_db, other);
        assert(y.take(p.len() as int) =~= p);
        tables_do_not_bleed(db, table, a, other_db, other);
        let s = pairs::sorted(a);
        let t = pairs::sorted(b);
        assert(x.skip(p.len() as int) =~= joined_tags(s));
        assert(y.skip(p.len() as int) =~= joined_tags(t));
        assert forall|i: int| 0 <= i < s.len() implies plain_tag(#[trigger] s[i]) by {
            assert(a.contains(s[i]));
        }
        assert forall|i: int| 0 <= i < t.len() implies plain_tag(#[trigger] t[i]) by {
            assert(b.contains(t[i]));
        }
        lemma_joined_tags_differ(s, t);
    }
    if db == other_db && table == other && a.to_multiset() == b.to_multiset() {
        tag_order_does_not_split_a_series(db, table, a, b);
    }
}

/// A row of one series leaves what is held of every other as it is; at most
/// the series that was used least recently is given up, and only where there is
/// no room for a new one.
pub proof fn other_series_keep_their_readings(
    s: Seq<(Seq<char>, LastView)>,
    cap: nat,
    key: Seq<char>,
    row: LastView,
    j: int,
)
    requires
        keys_once(s),
        0 < s.len() <= cap,
        0 <= j < s.len(),
        s[j].0 != key,
    ensures
        observed(s, cap, key, row).contains(s[j]) || (j == s.len() - 1 && s.len() == cap
            && entry_at(s, key) is None),
{
    let q = observed(s, cap, key, row);
    match entry_at(s, key) {
        Some(i) => {
            assert(0 <= i < s.len() && s[i].0 == key);
            let at = if j < i {
                j
            } else {
                j - 1
            };
            assert(s.remove(i)[at] == s[j]);
            let p = promoted(s, i);
            assert(p[at + 1] == s[j]);
            lemma_promoted(s, i);
            if row.timestamp_ns > s[i].1.timestamp_ns {
                lemma_entry_at(p, key, 0);
                assert(p.remove(0)[at] == s[j]);
                assert(q[at + 1] == s[j]);
            } else {
                assert(q[at + 1] == s[j]);
            }
        },
        None => {
            if s.len() < cap {
                assert(q[j + 1] == s[j]);
            } else if j < s.len() - 1 {
                assert(s.drop_last()[j] == s[j]);
                assert(q[j + 1] == s[j]);
            }
        },
    }
}

/// A late row never moves the reading of a series back: after a row of the
/// series was written, the series is held, first of all, with the later of the
/// two times.
pub proof fn readings_never_go_back(
    s: Seq<(Seq<char>, LastView)>,
    cap: nat,
    key: Seq<char>,
    row: LastView,
)
    requires
        keys_once(s),
        s.len() <= cap,
        cap > 0,
    ensures
        observed(s, cap, key, row).len() > 0,
        observed(s, cap, key, row)[0].0 == key,
        observed(s, cap, key, row)[0].1.timestamp_ns >= row.timestamp_ns,
        entry_at(s, key) matches Some(i) ==> observed(s, cap, key, row)[0].1.timestamp_ns
            >= s[i].1.timestamp_ns,
        entry_at(s, key) matches Some(i) ==> row.timestamp_ns <= s[i].1.timestamp_ns
            ==> observed(s, cap, key, row)[0].1 == s[i].1,
{
    match entry_at(s, key) {
        Some(i) => {
            assert(0 <= i < s.len() && s[i].0 == key);
            lemma_promoted(s, i);
            if row.timestamp_ns > s[i].1.timestamp_ns {
                lemma_put(
                    promoted(s, i),
                    cap,
                    key,
                    LastView {
                        tags: s[i].1.tags,
                        timestamp_ns: row.timestamp_ns,
                        fields: row.fields,
                    },
                );
            }
        },
        None => {
            lemma_put(s, cap, key, row);
        },
    }
}

/// However many series are written, no more are held than the capacity, each
/// once.
pub proof fn the_cap_holds(
    s: Seq<(Seq<char>, LastView)>,
    cap: nat,
    key: Seq<char>,
    row: LastView,
)
    requires
        keys_once(s),
        s.len() <= cap,
        cap > 0,
    ensures
        keys_once(observed(s, cap, key, row)),
        observed(s, cap, key, row).len() <= cap,
{
    match entry_at(s, key) {
        Some(i) => {
            assert(0 <= i < s.len() && s[i].0 == key);
            lemma_promoted(s, i);
            if row.timestamp_ns > s[i].1.timestamp_ns {
                lemma_put(
                    promoted(s, i),
                    cap,
                    key,
                    LastView {
                        tags: s[i].1.tags,
                        timestamp_ns: row.timestamp_ns,
                        fields: row.fields,
                    },
                );
            }
        },
        None => {
            lemma_put(s, cap, key, row);
        },
    }
}

proof fn lemma_selected(s: Seq<(Seq<char>, LastView)>, prefix: Seq<char>)
    requires
        forall|i: int| 0 <= i < s.len() ==> !text::begins_with((#[trigger] s[i]).0, prefix),
    ensures
        selected(s, prefix).len() == 0,
    decreases s.len(),
{
    if s.len() > 0 {
        assert(!text::begins_with(s[s.len() - 1].0, prefix));
        assert forall|i: int| 0 <= i < s.drop_last().len() implies !text::begins_with(
            (#[trigger] s.drop_last()[i]).0,
            prefix,
        ) by {
            assert(!text::begins_with(s[i].0, prefix));
        }
        lemma_selected(s.drop_last(), prefix);
    }
}

/// Once a table is not wanted any more, nothing of it is held.
pub proof fn a_dropped_table_has_no_readings(s: Seq<(Seq<char>, LastView)>, prefix: Seq<char>)
    ensures
        selected(dropped(s, prefix), prefix).len() == 0,
{
    let keep = |e: (Seq<char>, LastView)| !text::begins_with(e.0, prefix);
    let d = dropped(s, prefix);
    s.filter_lemma(keep);
    assert forall|i: int| 0 <= i < d.len() implies !text::begins_with(
        (#[trigger] d[i]).0,
        prefix,
    ) by {
        assert(keep(d[i]));
    }
    lemma_selected(d, prefix);
}

/// A reading that is later than the one that is kept takes its place, with its
/// time and its fields; one of a series that was not seen before is kept as it
/// is.
pub proof fn a_later_reading_takes_the_place(
    s: Seq<(Seq<char>, LastView)>,
    cap: nat,
    key: Seq<char>,
    row: LastView,
    i: int,
)
    requires
        keys_once(s),
        s.len() <= cap,
        cap > 0,
    ensures
        0 <= i < s.len() && s[i].0 == key && row.timestamp_ns > s[i].1.timestamp_ns ==> {
            let now = observed(s, cap, key, row)[0];
            &&& now.0 == key
            &&& now.1.timestamp_ns == row.timestamp_ns
            &&& now.1.fields == row.fields
            &&& now.1.tags == s[i].1.tags
        },
        (forall|j: int| 0 <= j < s.len() ==> (#[trigger] s[j]).0 != key) ==> observed(
            s,
            cap,
            key,
            row,
        )[0] == (key, row),
{
    if 0 <= i < s.len() && s[i].0 == key {
        let f = entry_at(s, key)->Some_0;
        assert(f == i) by {
            if f < i {
                assert(s[f].0 != s[i].0);
            }
            if i < f {
                assert(s[i].0 != s[f].0);
            }
        }
    }
}

/// What is shown of a table are the readings of its series, in the order in
/// which they are kept, and of no other.
pub proof fn a_table_shows_its_own_readings(s: Seq<(Seq<char>, LastView)>, prefix: Seq<char>)
    ensures
        selected(s, prefix) == s.filter(
            |e: (Seq<char>, LastView)| text::begins_with(e.0, prefix),
        ).map_values(|e: (Seq<char>, LastView)| e.1),
    decreases s.len(),
{
    reveal(Seq::filter);
    let keep = |e: (Seq<char>, LastView)| text::begins_with(e.0, prefix);
    let read = |e: (Seq<char>, LastView)| e.1;
    if s.len() == 0 {
        assert(selected(s, prefix) =~= s.filter(keep).map_values(read));
    } else {
        a_table_shows_its_own_readings(s.drop_last(), prefix);
        assert(selected(s, prefix) =~= s.filter(keep).map_values(read));
    }
}

/// The tables that are cached are told by their names: the database and the
/// table that each key was made of, in the order of the keys.
pub proof fn cached_tables_are_told_by_their_names(tables: Seq<(Seq<char>, Seq<char>)>)
    requires
        forall|i: int| 0 <= i < tables.len() ==> !(#[trigger] tables[i]).0.contains('\0'),
    ensures
        split_keys(
            tables.map_values(|t: (Seq<char>, Seq<char>)| t.0 + seq!['\0'] + t.1),
        ) == tables,
    decreases tables.len(),
{
    let key = |t: (Seq<char>, Seq<char>)| t.0 + seq!['\0'] + t.1;
    let keys = tables.map_values(key);
    if tables.len() > 0 {
        let init = tables.drop_last();
        assert forall|i: int| 0 <= i < init.len() implies !(#[trigger] init[i]).0.contains('\0') by {
            assert(init[i] == tables[i]);
        }
        cached_tables_are_told_by_their_names(init);
        assert(keys.drop_last() =~= init.map_values(key));
        let last = tables[tables.len() - 1];
        text::a_text_is_cut_at_the_first(last.0, '\0', last.1);
        assert(split_keys(keys) =~= tables);
    } else {
        assert(split_keys(keys) =~= tables);
    }
}

} // verus!
