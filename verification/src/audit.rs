//! The audit trail: an append-only chain of records, each holding the hash of
//! the one before it, so that an edited or missing record shows.
use crate::batch;
use crate::calendar;
use crate::crypto;
use crate::json;
use crate::text;
use vstd::prelude::*;
use vstd::utf8::*;

verus! {

/// `prev_hash` of the first record.
pub const GENESIS: &'static str = "sha256:genesis";

/// The size at which the live segment is rotated unless configured otherwise.
pub const DEFAULT_ROTATE_BYTES: u64 = 67_108_864;

/// Pruning never deletes a segment younger than this, whatever is configured.
pub const MIN_RETENTION_DAYS: u64 = 90;

/// Rotation and retention of the trail.
#[derive(Debug, Clone)]
pub struct Policy {
    /// Rotate once the live segment passes this many bytes.
    pub rotate_bytes: Option<u64>,
    /// Rotate this many seconds after the live segment was opened.
    pub rotate_after_secs: Option<u64>,
    /// Delete segments older than this many days; `None` deletes nothing.
    pub retain_days: Option<u64>,
}

impl Default for Policy {
    fn default() -> (r: Policy)
        ensures
            r.rotate_bytes == Some(DEFAULT_ROTATE_BYTES),
            r.rotate_after_secs is None,
            r.retain_days is None,
    {
        Policy {
            rotate_bytes: Some(DEFAULT_ROTATE_BYTES),
            rotate_after_secs: None,
            retain_days: None,
        }
    }
}

/// The retention in days that a setting comes to.
pub open spec fn retention(setting: Option<u64>) -> Option<u64> {
    match setting {
        Some(d) => Some(if d < MIN_RETENTION_DAYS {
            MIN_RETENTION_DAYS
        } else {
            d
        }),
        None => None,
    }
}

impl Policy {
    /// The retention in force: never below the floor, and none where nothing
    /// is to be deleted.
    pub fn effective_retain_days(&self) -> (r: Option<u64>)
        ensures
            r == retention(self.retain_days),
    {
        match self.retain_days {
            Some(d) => if d < MIN_RETENTION_DAYS {
                Some(MIN_RETENTION_DAYS)
            } else {
                Some(d)
            },
            None => None,
        }
    }

    /// Whether a segment last written `age_secs` ago is old enough to delete.
    pub fn prunes(&self, age_secs: u64) -> (r: bool)
        ensures
            r == (retention(self.retain_days) matches Some(d) && age_secs > d * 86_400),
    {
        match self.effective_retain_days() {
            Some(d) => age_secs as u128 > d as u128 * 86_400,
            None => false,
        }
    }

    /// Whether the live segment is to be rotated before `next` more bytes.
    pub fn should_rotate(&self, written: u64, next: u64, open_secs: u64) -> (r: bool)
        ensures
            r == (written > 0 && ((self.rotate_bytes matches Some(limit) && written + next > limit)
                || (self.rotate_after_secs matches Some(after) && open_secs >= after))),
    {
        if written == 0 {
            return false;
        }
        if let Some(limit) = self.rotate_bytes {
            if written as u128 + next as u128 > limit as u128 {
                return true;
            }
        }
        if let Some(after) = self.rotate_after_secs {
            if open_secs >= after {
                return true;
            }
        }
        false
    }
}

/// Nothing younger than the floor is ever pruned, and nothing at all unless
/// retention is configured.
pub proof fn recent_segments_survive(setting: Option<u64>, age_secs: u64)
    requires
        age_secs <= MIN_RETENTION_DAYS * 86_400 || setting is None,
    ensures
        !(retention(setting) matches Some(d) && age_secs > d * 86_400),
{
}

/// The part of a record that its author supplies. `before` and `after` are
/// JSON text.
#[derive(Debug, Clone)]
pub struct NewRecord {
    pub principal: String,
    pub role: String,
    pub session: Option<String>,
    pub source: Option<String>,
    pub request_id: Option<String>,
    pub action: String,
    pub target: Option<String>,
    pub before: Option<String>,
    pub after: Option<String>,
    pub outcome: String,
}

/// One committed record.
#[derive(Debug, Clone, PartialEq, Eq)]
pub struct AuditRecord {
    pub seq: u64,
    pub ts: String,
    pub node: String,
    pub principal: String,
    pub role: String,
    pub session: Option<String>,
    pub source: Option<String>,
    pub request_id: Option<String>,
    pub action: String,
    pub target: Option<String>,
    pub before: Option<String>,
    pub after: Option<String>,
    pub outcome: String,
    pub prev_hash: String,
    pub hash: String,
}

/// What a `NewRecord` says.
pub struct NewRecordView {
    pub principal: Seq<char>,
    pub role: Seq<char>,
    pub session: Option<Seq<char>>,
    pub source: Option<Seq<char>>,
    pub request_id: Option<Seq<char>>,
    pub action: Seq<char>,
    pub target: Option<Seq<char>>,
    pub before: Option<Seq<char>>,
    pub after: Option<Seq<char>>,
    pub outcome: Seq<char>,
}

/// What an `AuditRecord` says.
pub struct RecordView {
    pub seq: u64,
    pub ts: Seq<char>,
    pub node: Seq<char>,
    pub new: NewRecordView,
    pub prev_hash: Seq<char>,
    pub hash: Seq<char>,
}

impl View for NewRecord {
    type V = NewRecordView;

    open spec fn view(&self) -> NewRecordView {
        NewRecordView {
            principal: self.principal@,
            role: self.role@,
            session: batch::opt_text(self.session),
            source: batch::opt_text(self.source),
            request_id: batch::opt_text(self.request_id),
            action: self.action@,
            target: batch::opt_text(self.target),
            before: batch::opt_text(self.before),
            after: batch::opt_text(self.after),
            outcome: self.outcome@,
        }
    }
}

impl View for AuditRecord {
    type V = RecordView;

    open spec fn view(&self) -> RecordView {
        RecordView {
            seq: self.seq,
            ts: self.ts@,
            node: self.node@,
            new: NewRecordView {
                principal: self.principal@,
                role: self.role@,
                session: batch::opt_text(self.session),
                source: batch::opt_text(self.source),
                request_id: batch::opt_text(self.request_id),
                action: self.action@,
                target: batch::opt_text(self.target),
                before: batch::opt_text(self.before),
                after: batch::opt_text(self.after),
                outcome: self.outcome@,
            },
            prev_hash: self.prev_hash@,
            hash: self.hash@,
        }
    }
}

/// What the records of a trail say.
pub open spec fn trail(records: Seq<AuditRecord>) -> Seq<RecordView> {
    records.map_values(|r: AuditRecord| r@)
}

/// The chain is broken at `seq`.
#[derive(Debug, Clone, PartialEq, Eq)]
pub struct AuditBreak {
    pub seq: u64,
    pub reason: String,
}

impl AuditBreak {
    /// The break as a message.
    pub fn message(&self) -> (r: String)
        ensures
            r@ == "audit chain break at seq "@ + text::decimal(self.seq as nat) + ": "@
                + self.reason@,
    {
        let mut s = String::from_str("audit chain break at seq ");
        s.append(text::show(self.seq).as_str());
        s.append(": ");
        s.append(self.reason.as_str());
        s
    }
}

/// A mutation could not be recorded durably.
#[derive(Debug)]
pub struct AuditUnavailable(pub String);

impl AuditUnavailable {
    /// The failure as a message.
    pub fn message(&self) -> (r: String)
        ensures
            r@ == "audit sink unavailable: "@ + self.0@,
    {
        let mut s = String::from_str("audit sink unavailable: ");
        s.append(self.0.as_str());
        s
    }
}

// ----------------------------------------------------------------- the hash

/// A record's JSON up to its `prev_hash`, with the object left open.
pub open spec fn open_json(r: RecordView) -> Seq<char> {
    "{\"seq\":"@ + text::decimal(r.seq as nat) + ",\"ts\":"@ + json::json_text(r.ts)
        + ",\"node\":"@ + json::json_text(r.node) + ",\"principal\":"@ + json::json_text(
        r.new.principal,
    ) + ",\"role\":"@ + json::json_text(r.new.role) + ",\"session\":"@ + json::json_opt(
        r.new.session,
    ) + ",\"source\":"@ + json::json_opt(r.new.source) + ",\"request_id\":"@ + json::json_opt(
        r.new.request_id,
    ) + ",\"action\":"@ + json::json_text(r.new.action) + ",\"target\":"@ + json::json_opt(
        r.new.target,
    ) + ",\"before\":"@ + json::json_raw(r.new.before) + ",\"after\":"@ + json::json_raw(
        r.new.after,
    ) + ",\"outcome\":"@ + json::json_text(r.new.outcome) + ",\"prev_hash\":"@ + json::json_text(
        r.prev_hash,
    )
}

/// The JSON of every field but the hash.
pub open spec fn canonical(r: RecordView) -> Seq<char> {
    open_json(r) + "}"@
}

/// The bytes that a record's hash is taken of: its canonical JSON, then
/// `prev_hash`.
pub open spec fn hashed_bytes(r: RecordView) -> Seq<u8> {
    encode_utf8(canonical(r)) + encode_utf8(r.prev_hash)
}

/// The hash that a record is to carry.
pub open spec fn hash_of(r: RecordView) -> Seq<char> {
    "sha256:"@ + crypto::sha256_hex(hashed_bytes(r))
}

/// The line that a record is in its segment.
pub open spec fn line_of(r: RecordView) -> Seq<char> {
    open_json(r) + ",\"hash\":"@ + json::json_text(r.hash) + "}\n"@
}

fn write_open(r: &AuditRecord) -> (s: String)
    ensures
        s@ == open_json(r@),
{
    let mut s = String::from_str("{\"seq\":");
    s.append(text::show(r.seq).as_str());
    json::put_text(&mut s, ",\"ts\":", r.ts.as_str());
    json::put_text(&mut s, ",\"node\":", r.node.as_str());
    json::put_text(&mut s, ",\"principal\":", r.principal.as_str());
    json::put_text(&mut s, ",\"role\":", r.role.as_str());
    json::put_opt(&mut s, ",\"session\":", &r.session);
    json::put_opt(&mut s, ",\"source\":", &r.source);
    json::put_opt(&mut s, ",\"request_id\":", &r.request_id);
    json::put_text(&mut s, ",\"action\":", r.action.as_str());
    json::put_opt(&mut s, ",\"target\":", &r.target);
    json::put_raw(&mut s, ",\"before\":", &r.before);
    json::put_raw(&mut s, ",\"after\":", &r.after);
    json::put_text(&mut s, ",\"outcome\":", r.outcome.as_str());
    json::put_text(&mut s, ",\"prev_hash\":", r.prev_hash.as_str());
    s
}

/// The hash that a record is to carry.
pub fn compute_hash(r: &AuditRecord) -> (h: String)
    ensures
        h@ == hash_of(r@),
{
    let mut body = write_open(r);
    body.append("}");
    let mut bytes: Vec<u8> = body.as_str().as_bytes_vec();
    let mut prev: Vec<u8> = r.prev_hash.as_str().as_bytes_vec();
    bytes.append(&mut prev);
    assert(bytes@ =~= hashed_bytes(r@));
    let mut h = String::from_str("sha256:");
    h.append(crypto::hash_hex(&bytes).as_str());
    h
}

/// The line that a record is in its segment.
pub fn record_line(r: &AuditRecord) -> (s: String)
    ensures
        s@ == line_of(r@),
{
    let mut s = write_open(r);
    json::put_text(&mut s, ",\"hash\":", r.hash.as_str());
    s.append("}\n");
    s
}

// ---------------------------------------------------------------- the chain

/// What the first record of a trail, or the one after `done`, is to hold as
/// its `prev_hash`.
pub open spec fn head_of(done: Seq<RecordView>) -> Seq<char> {
    if done.len() == 0 {
        GENESIS@
    } else {
        done.last().hash
    }
}

/// The number of the record after `done`.
pub open spec fn next_seq_of(done: Seq<RecordView>) -> int {
    if done.len() == 0 {
        1
    } else {
        done.last().seq + 1
    }
}

/// How the record behind `done` breaks the chain, if it does.
pub open spec fn break_behind(done: Seq<RecordView>, r: RecordView) -> Option<(u64, Seq<char>)> {
    if done.len() > 0 && r.seq != done.last().seq + 1 {
        Some(
            (
                r.seq,
                "expected seq "@ + text::decimal((done.last().seq + 1) as nat) + ", found "@
                    + text::decimal(r.seq as nat),
            ),
        )
    } else if r.prev_hash != head_of(done) {
        Some((r.seq, "prev_hash does not match the previous record's hash"@))
    } else if hash_of(r) != r.hash {
        Some((r.seq, "record hash does not match its contents (edited)"@))
    } else {
        None
    }
}

/// The first break of a trail, if it has one.
pub open spec fn first_break(records: Seq<RecordView>) -> Option<(u64, Seq<char>)>
    decreases records.len(),
{
    if records.len() == 0 {
        None
    } else {
        match first_break(records.drop_last()) {
            Some(b) => Some(b),
            None => break_behind(records.drop_last(), records.last()),
        }
    }
}

/// A trail without a break: the numbers count up by one, each record holds
/// the hash of the one before it, and each hash is that of its record.
pub open spec fn intact(records: Seq<RecordView>) -> bool {
    forall|i: int| 0 <= i < records.len() ==> #[trigger] links(records, i)
}

/// Whether record `i` of a trail carries its own hash, and the hash and the
/// number that follow from the record before it.
pub open spec fn links(records: Seq<RecordView>, i: int) -> bool {
    &&& hash_of(records[i]) == records[i].hash
    &&& records[i].prev_hash == (if i == 0 {
        GENESIS@
    } else {
        records[i - 1].hash
    })
    &&& i > 0 ==> records[i].seq == records[i - 1].seq + 1
}

/// A trail is intact exactly if it has no first break.
pub proof fn intact_means_no_break(records: Seq<RecordView>)
    ensures
        intact(records) == (first_break(records) is None),
    decreases records.len(),
{
    if records.len() > 0 {
        let init = records.drop_last();
        let n = init.len() as int;
        intact_means_no_break(init);
        assert forall|i: int| 0 <= i < n implies links(init, i) == links(records, i) by {}
        assert((break_behind(init, records.last()) is None) == links(records, n));
        if intact(records) {
            assert forall|i: int| 0 <= i < n implies #[trigger] links(init, i) by {
                assert(links(records, i));
            }
            assert(links(records, n));
        }
        if intact(init) && links(records, n) {
            assert forall|i: int| 0 <= i < records.len() implies #[trigger] links(records, i) by {
                if i < n {
                    assert(links(init, i));
                }
            }
        }
    }
}

proof fn lemma_first_break_stays(records: Seq<RecordView>, k: int)
    requires
        0 <= k <= records.len(),
        first_break(records.take(k)) is Some,
    ensures
        first_break(records) == first_break(records.take(k)),
    decreases records.len(),
{
    if k == records.len() {
        assert(records.take(k) =~= records);
    } else {
        assert(records.drop_last().take(k) =~= records.take(k));
        lemma_first_break_stays(records.drop_last(), k);
    }
}

/// Checks that records form an unbroken chain and reports the first break.
pub fn verify_records(records: &Vec<AuditRecord>) -> (r: Result<(), AuditBreak>)
    requires
        forall|i: int| 0 <= i < records.len() ==> (#[trigger] records@[i]).seq < u64::MAX,
    ensures
        match (r, first_break(trail(records@))) {
            (Ok(_), None) => true,
            (Err(b), Some((seq, reason))) => b.seq == seq && b.reason@ == reason,
            _ => false,
        },
{
    let ghost all = trail(records@);
    let mut i: usize = 0;
    while i < records.len()
        invariant
            i <= records.len(),
            all == trail(records@),
            forall|i: int| 0 <= i < records.len() ==> (#[trigger] records@[i]).seq < u64::MAX,
            first_break(all.take(i as int)) is None,
        decreases records.len() - i,
    {
        let r = &records[i];
        proof {
            assert(all.take(i + 1).drop_last() =~= all.take(i as int));
            assert(all.take(i + 1).last() == r@);
            assert(i > 0 ==> all.take(i as int).last() == records@[i - 1]@);
            if first_break(all.take(i + 1)) is Some {
                lemma_first_break_stays(all, i + 1);
            }
        }
        if i > 0 {
            let want: u64 = records[i - 1].seq + 1;
            if r.seq != want {
                let mut reason = String::from_str("expected seq ");
                reason.append(text::show(want).as_str());
                reason.append(", found ");
                reason.append(text::show(r.seq).as_str());
                return Err(AuditBreak { seq: r.seq, reason });
            }
        }
        let linked: bool = if i == 0 {
            text::same(r.prev_hash.as_str(), GENESIS)
        } else {
            text::same(r.prev_hash.as_str(), records[i - 1].hash.as_str())
        };
        if !linked {
            return Err(
                AuditBreak {
                    seq: r.seq,
                    reason: String::from_str("prev_hash does not match the previous record's hash"),
                },
            );
        }
        let h = compute_hash(r);
        if !text::same(h.as_str(), r.hash.as_str()) {
            return Err(
                AuditBreak {
                    seq: r.seq,
                    reason: String::from_str("record hash does not match its contents (edited)"),
                },
            );
        }
        i += 1;
    }
    assert(all.take(all.len() as int) =~= all);
    Ok(())
}

// --------------------------------------------------------------------- laws

/// A record that follows an intact trail keeps it intact.
pub proof fn appending_keeps_the_trail_intact(done: Seq<RecordView>, r: RecordView)
    requires
        intact(done),
        r.seq == next_seq_of(done),
        r.prev_hash == head_of(done),
        r.hash == hash_of(r),
    ensures
        intact(done.push(r)),
{
    let now = done.push(r);
    assert forall|i: int| 0 <= i < now.len() implies #[trigger] links(now, i) by {
        if i < done.len() {
            assert(links(done, i));
        }
    }
}

/// Every beginning of an intact trail is intact.
pub proof fn beginnings_are_intact(records: Seq<RecordView>, k: int)
    requires
        intact(records),
        0 <= k <= records.len(),
    ensures
        intact(records.take(k)),
{
    assert forall|i: int| 0 <= i < k implies #[trigger] links(records.take(k), i) by {
        assert(links(records, i));
    }
}

proof fn lemma_hash_is_no_genesis(r: RecordView)
    ensures
        hash_of(r) != GENESIS@,
        hash_of(r).len() == 7 + crypto::sha256_hex(hashed_bytes(r)).len(),
{
    reveal_strlit("sha256:genesis");
    reveal_strlit("sha256:");
    text::hex_tells_the_bytes(crypto::sha256(hashed_bytes(r)), Seq::empty());
    if hash_of(r) == GENESIS@ {
        let h = crypto::sha256_hex(hashed_bytes(r));
        assert(hash_of(r)[7] == 'g');
        assert(h[0] == 'g');
        lemma_hex_has_no_g(crypto::sha256(hashed_bytes(r)));
    }
}

proof fn lemma_hex_has_no_g(b: Seq<u8>)
    ensures
        forall|i: int| 0 <= i < text::hex_text(b).len() ==> #[trigger] text::hex_text(b)[i] != 'g',
    decreases b.len(),
{
    if b.len() > 0 {
        lemma_hex_has_no_g(b.drop_last());
        let h = text::hex_text(b);
        let k = text::hex_text(b.drop_last()).len() as int;
        assert forall|i: int| 0 <= i < h.len() implies #[trigger] h[i] != 'g' by {
            if i < k {
                assert(h[i] == text::hex_text(b.drop_last())[i]);
            }
        }
    }
}

/// Taking a record other than the last out of an intact trail breaks it.
pub proof fn a_missing_record_shows(records: Seq<RecordView>, gone: int)
    requires
        intact(records),
        0 <= gone < records.len() - 1,
    ensures
        first_break(records.remove(gone)) is Some,
{
    let left = records.remove(gone);
    intact_means_no_break(left);
    if intact(left) {
        assert(links(left, gone));
        assert(links(records, gone));
        assert(links(records, gone + 1));
        if gone == 0 {
            lemma_hash_is_no_genesis(records[0]);
        }
    }
}

/// Changing what a record of an intact trail says, but not its hash, breaks
/// the trail unless the new text has the digest of the old one.
pub proof fn an_edited_record_shows(records: Seq<RecordView>, at: int, edited: RecordView)
    requires
        intact(records),
        0 <= at < records.len(),
        edited.hash == records[at].hash,
        crypto::sha256(hashed_bytes(edited)) != crypto::sha256(hashed_bytes(records[at])),
    ensures
        first_break(records.update(at, edited)) is Some,
{
    let now = records.update(at, edited);
    intact_means_no_break(now);
    if intact(now) {
        assert(links(now, at));
        assert(links(records, at));
        let x = crypto::sha256_hex(hashed_bytes(edited));
        let y = crypto::sha256_hex(hashed_bytes(records[at]));
        assert(("sha256:"@ + x).skip("sha256:"@.len() as int) =~= x);
        assert(("sha256:"@ + y).skip("sha256:"@.len() as int) =~= y);
        text::hex_tells_the_bytes(
            crypto::sha256(hashed_bytes(edited)),
            crypto::sha256(hashed_bytes(records[at])),
        );
    }
}

/// Two byte strings with the same digest.
pub open spec fn collision(x: Seq<u8>, y: Seq<u8>) -> bool {
    x != y && crypto::sha256(x) == crypto::sha256(y)
}

/// Two intact trails of one length that end in the same hash say the same,
/// record for record, unless two byte strings have the same digest.
pub proof fn the_last_hash_vouches_for_the_trail(a: Seq<RecordView>, b: Seq<RecordView>)
    requires
        intact(a),
        intact(b),
        a.len() == b.len(),
        a.len() > 0,
        a.last().hash == b.last().hash,
    ensures
        (exists|x: Seq<u8>, y: Seq<u8>| #[trigger] collision(x, y)) || forall|i: int|
            0 <= i < a.len() ==> canonical(#[trigger] a[i]) == canonical(b[i]) && a[i].hash
                == b[i].hash,
    decreases a.len(),
{
    let n = a.len() as int;
    let x = hashed_bytes(a.last());
    let y = hashed_bytes(b.last());
    assert(links(a, n - 1));
    assert(links(b, n - 1));
    assert(("sha256:"@ + crypto::sha256_hex(x)).skip("sha256:"@.len() as int)
        =~= crypto::sha256_hex(x));
    assert(("sha256:"@ + crypto::sha256_hex(y)).skip("sha256:"@.len() as int)
        =~= crypto::sha256_hex(y));
    text::hex_tells_the_bytes(crypto::sha256(x), crypto::sha256(y));
    if x != y {
        assert(collision(x, y));
    } else {
        if n > 1 {
            assert(links(a, n - 2));
            assert(links(b, n - 2));
        }
        lemma_prev_hash_ends(a, n - 1);
        lemma_prev_hash_ends(b, n - 1);
        let p = encode_utf8(a.last().prev_hash);
        let q = encode_utf8(b.last().prev_hash);
        let ca = encode_utf8(canonical(a.last()));
        let cb = encode_utf8(canonical(b.last()));
        lemma_equal_ends(ca, p, cb, q);
        encode_utf8_decode_utf8(canonical(a.last()));
        encode_utf8_decode_utf8(canonical(b.last()));
        encode_utf8_decode_utf8(a.last().prev_hash);
        encode_utf8_decode_utf8(b.last().prev_hash);
        if n > 1 {
            beginnings_are_intact(a, n - 1);
            beginnings_are_intact(b, n - 1);
            let a1 = a.take(n - 1);
            let b1 = b.take(n - 1);
            the_last_hash_vouches_for_the_trail(a1, b1);
            if !(exists|x: Seq<u8>, y: Seq<u8>| #[trigger] collision(x, y)) {
                assert forall|i: int| 0 <= i < a.len() implies canonical(#[trigger] a[i])
                    == canonical(b[i]) && a[i].hash == b[i].hash by {
                    if i < n - 1 {
                        assert(a1[i] == a[i]);
                        assert(b1[i] == b[i]);
                    }
                }
            }
        }
    }
}

/// The length in bytes of what a record of an intact trail holds as its
/// `prev_hash` depends on its place alone.
proof fn lemma_prev_hash_ends(records: Seq<RecordView>, i: int)
    requires
        intact(records),
        0 <= i < records.len(),
    ensures
        encode_utf8(records[i].prev_hash).len() == if i == 0 {
            14nat
        } else {
            71nat
        },
{
    assert(links(records, i));
    if i == 0 {
        reveal_strlit("sha256:genesis");
        is_ascii_chars_encode_utf8(GENESIS@);
    } else {
        assert(links(records, i - 1));
        let h = hash_of(records[i - 1]);
        reveal_strlit("sha256:");
        let d = crypto::sha256(hashed_bytes(records[i - 1]));
        crypto::digest_length(hashed_bytes(records[i - 1]));
        text::hex_tells_the_bytes(d, d);
        lemma_hex_is_ascii(d);
        is_ascii_chars_encode_utf8(h);
    }
}

proof fn lemma_hex_is_ascii(b: Seq<u8>)
    ensures
        is_ascii_chars(text::hex_text(b)),
    decreases b.len(),
{
    if b.len() > 0 {
        lemma_hex_is_ascii(b.drop_last());
    }
}

proof fn lemma_equal_ends(a: Seq<u8>, p: Seq<u8>, b: Seq<u8>, q: Seq<u8>)
    requires
        a + p == b + q,
        p.len() == q.len(),
    ensures
        a == b,
        p == q,
{
    assert((a + p).len() == (b + q).len());
    assert((a + p).take(a.len() as int) =~= a);
    assert((b + q).take(b.len() as int) =~= b);
    assert((a + p).skip(a.len() as int) =~= p);
    assert((b + q).skip(b.len() as int) =~= q);
}

// ----------------------------------------------------------------- the sink

/// A time in UTC as RFC 3339 writes it, with microseconds.
pub fn rfc3339_utc(secs: u64, micros: u32) -> (r: String)
    requires
        secs <= 0x7fff_ffff_ffff_ffff,
    ensures
        r@ == calendar::rfc3339(secs as int, micros as int),
{
    calendar::write_rfc3339(secs, micros)
}

/// Whether a file is a rotated segment, by its name.
pub open spec fn rotated_name(name: Seq<char>) -> bool {
    text::begins_with(name, "audit."@) && text::ends_in(name, ".jsonl"@) && name != "audit.jsonl"@
}

/// The name under which a segment is set aside whose last record is `last`.
pub open spec fn segment_name(last: nat) -> Seq<char> {
    "audit."@ + text::padded(last, 12) + ".jsonl"@
}

/// Whether a file is a rotated segment, by its name.
pub fn is_rotated(name: &str) -> (r: bool)
    ensures
        r == rotated_name(name@),
{
    text::starts_with(name, "audit.") && text::ends_with(name, ".jsonl") && !text::same(
        name,
        "audit.jsonl",
    )
}

/// The rotated segments among a directory's files, in chain order.
pub fn rotated_segments(names: &Vec<String>) -> (r: Vec<String>)
    ensures
        text::in_order(text::texts(r@)),
        text::texts(r@).to_multiset() == text::texts(names@).filter(
            |n: Seq<char>| rotated_name(n),
        ).to_multiset(),
{
    let ghost all = text::texts(names@);
    let ghost keep = |n: Seq<char>| rotated_name(n);
    let mut out: Vec<String> = Vec::new();
    let mut i: usize = 0;
    assert(all.take(0).filter(keep) =~= Seq::<Seq<char>>::empty()) by {
        reveal(Seq::filter);
    }
    assert(text::texts(out@) =~= Seq::<Seq<char>>::empty());
    while i < names.len()
        invariant
            i <= names.len(),
            all == text::texts(names@),
            keep == (|n: Seq<char>| rotated_name(n)),
            text::texts(out@) == all.take(i as int).filter(keep),
        decreases names.len() - i,
    {
        let ghost done = text::texts(out@);
        proof {
            assert(all.take(i + 1).drop_last() =~= all.take(i as int));
            reveal(Seq::filter);
        }
        if is_rotated(names[i].as_str()) {
            out.push(names[i].clone());
            assert(text::texts(out@) =~= done.push(names@[i as int]@));
        }
        i += 1;
    }
    assert(all.take(all.len() as int) =~= all);
    text::sort_texts(&out)
}

/// The chain's state between records: what the next record is numbered and
/// what it holds as its `prev_hash`, and how full the live segment is.
#[derive(Debug, Clone)]
pub struct AuditSink {
    pub next_seq: u64,
    pub head: String,
    pub policy: Policy,
    pub written: u64,
}

/// A record that is ready to be written: the line to write, and the name under
/// which to set the live segment aside first, if it is to be rotated.
#[derive(Debug, Clone)]
pub struct Append {
    pub record: AuditRecord,
    pub line: String,
    pub rotate_to: Option<String>,
}

/// The record that a sink makes of what its author supplies.
pub open spec fn drafted(
    next_seq: u64,
    head: Seq<char>,
    node: Seq<char>,
    new: NewRecordView,
    ts: Seq<char>,
) -> RecordView {
    let open = RecordView { seq: next_seq, ts, node, new, prev_hash: head, hash: Seq::empty() };
    RecordView { hash: hash_of(open), ..open }
}

impl AuditSink {
    /// The sink stands behind a trail: its next record is that trail's next.
    pub open spec fn follows(self, done: Seq<RecordView>) -> bool {
        self.next_seq == next_seq_of(done) && self.head@ == head_of(done)
    }

    /// The sink behind the records of every segment, in chain order.
    pub fn recover(records: &Vec<AuditRecord>, policy: Policy, written: u64) -> (r: AuditSink)
        requires
            records.len() > 0 ==> records@.last().seq < u64::MAX,
        ensures
            r.follows(trail(records@)),
            r.policy == policy,
            r.written == written,
    {
        if records.len() == 0 {
            return AuditSink { next_seq: 1, head: String::from_str(GENESIS), policy, written };
        }
        let last = &records[records.len() - 1];
        assert(trail(records@).last() == last@);
        AuditSink { next_seq: last.seq + 1, head: last.hash.clone(), policy, written }
    }

    /// The next record, its line, and whether the segment is rotated first.
    /// Nothing is changed until `commit`.
    pub fn draft(&self, node: &str, nr: NewRecord, ts: String, open_secs: u64) -> (r: Append)
        ensures
            r.record@ == drafted(self.next_seq, self.head@, node@, nr@, ts@),
            r.line@ == line_of(r.record@),
            ({
                let bytes = encode_utf8(r.line@).len();
                let full = self.policy.rotate_bytes matches Some(limit) && self.written + bytes
                    > limit;
                let old = self.policy.rotate_after_secs matches Some(after) && open_secs >= after;
                match r.rotate_to {
                    Some(name) => self.written > 0 && (full || old) && name@ == segment_name(
                        (if self.next_seq == 0 {
                            0
                        } else {
                            self.next_seq - 1
                        }) as nat,
                    ),
                    None => !(self.written > 0 && (full || old)),
                }
            }),
    {
        let ghost new = nr@;
        let ghost stamp = ts@;
        let mut record = AuditRecord {
            seq: self.next_seq,
            ts,
            node: node.to_owned(),
            principal: nr.principal,
            role: nr.role,
            session: nr.session,
            source: nr.source,
            request_id: nr.request_id,
            action: nr.action,
            target: nr.target,
            before: nr.before,
            after: nr.after,
            outcome: nr.outcome,
            prev_hash: self.head.clone(),
            hash: String::new(),
        };
        assert(record@ == (RecordView {
            seq: self.next_seq,
            ts: stamp,
            node: node@,
            new,
            prev_hash: self.head@,
            hash: Seq::empty(),
        }));
        let h = compute_hash(&record);
        record.hash = h;
        let line = record_line(&record);
        let bytes: usize = line.as_str().as_bytes().len();
        let rotate_to = if self.policy.should_rotate(self.written, bytes as u64, open_secs) {
            let last: u64 = if self.next_seq == 0 {
                0
            } else {
                self.next_seq - 1
            };
            let mut name = String::from_str("audit.");
            name.append(text::show_padded(last, 12).as_str());
            name.append(".jsonl");
            Some(name)
        } else {
            None
        };
        Append { record, line, rotate_to }
    }

    /// Advances the chain past a record that is durably written, to a fresh
    /// segment if the live one was set aside.
    pub fn commit(&mut self, append: &Append, rotated: bool)
        requires
            append.record.seq < u64::MAX,
            (if rotated {
                0
            } else {
                old(self).written as int
            }) + encode_utf8(append.line@).len() <= u64::MAX,
        ensures
            final(self).next_seq == append.record.seq + 1,
            final(self).head@ == append.record.hash@,
            final(self).policy == old(self).policy,
            final(self).written == (if rotated {
                0
            } else {
                old(self).written as int
            }) + encode_utf8(append.line@).len(),
    {
        let bytes: usize = append.line.as_str().as_bytes().len();
        let base: u64 = if rotated {
            0
        } else {
            self.written
        };
        self.written = base + bytes as u64;
        self.next_seq = append.record.seq + 1;
        self.head = append.record.hash.clone();
    }

    /// The chain's head: what the next record holds as its `prev_hash`.
    pub fn head(&self) -> (r: &str)
        ensures
            r@ == self.head@,
    {
        self.head.as_str()
    }

    /// How many records have been written.
    pub fn count(&self) -> (r: u64)
        requires
            self.next_seq >= 1,
        ensures
            r == self.next_seq - 1,
    {
        self.next_seq - 1
    }
}

/// A sink behind an intact trail drafts a record that keeps it intact, and
/// stands behind the longer trail once the record is committed.
pub proof fn drafts_extend_the_trail(
    sink: AuditSink,
    done: Seq<RecordView>,
    node: Seq<char>,
    new: NewRecordView,
    ts: Seq<char>,
    next: AuditSink,
)
    requires
        intact(done),
        sink.follows(done),
        next.next_seq == sink.next_seq + 1,
        next.head@ == drafted(sink.next_seq, sink.head@, node, new, ts).hash,
    ensures
        intact(done.push(drafted(sink.next_seq, sink.head@, node, new, ts))),
        next.follows(done.push(drafted(sink.next_seq, sink.head@, node, new, ts))),
{
    let r = drafted(sink.next_seq, sink.head@, node, new, ts);
    assert(canonical(r) == canonical(RecordView { hash: Seq::empty(), ..r }));
    appending_keeps_the_trail_intact(done, r);
}

/// The sink with the node that it stamps, its health, and the policy for when
/// it is not healthy.
#[derive(Debug, Clone)]
pub struct AuditLog {
    pub node: String,
    pub fail_open: bool,
    pub healthy: bool,
    pub records_total: u64,
    pub sink: AuditSink,
}

/// Whether a log took in how the writing of a record went.
pub open spec fn recorded(
    before: AuditLog,
    after: AuditLog,
    append: Append,
    rotated: bool,
    wrote: Result<(), String>,
    r: Result<AuditRecord, AuditUnavailable>,
) -> bool {
    let base = if rotated {
        0
    } else {
        before.sink.written
    };
    &&& after.node == before.node
    &&& after.fail_open == before.fail_open
    &&& match (wrote, r) {
        (Ok(_), Ok(rec)) => {
            &&& rec == append.record
            &&& after.healthy
            &&& after.records_total == before.records_total + 1
            &&& after.sink.next_seq == append.record.seq + 1
            &&& after.sink.head@ == append.record.hash@
            &&& after.sink.policy == before.sink.policy
            &&& after.sink.written == base + encode_utf8(append.line@).len()
        },
        (Err(m), Err(e)) => {
            &&& e.0 == m
            &&& !after.healthy
            &&& after.records_total == before.records_total
            &&& after.sink == AuditSink { written: base, ..before.sink }
        },
        _ => false,
    }
}

/// The records of the segments that were set aside, in the order in which they
/// were, each with the number of its last record; and of the live one.
pub struct Segments {
    pub aside: Seq<(nat, Seq<RecordView>)>,
    pub live: Seq<RecordView>,
}

impl Segments {
    /// The records of all segments, one segment behind the other.
    pub open spec fn all(self) -> Seq<RecordView> {
        set_aside(self.aside) + self.live
    }

    /// The segments after a record was to be written: the live one is set aside
    /// first where it is rotated, and the record stands behind the others where
    /// it was written.
    pub open spec fn after(self, r: RecordView, rotated: bool, written: bool) -> Segments {
        let s = if rotated {
            Segments {
                aside: self.aside.push(((r.seq - 1) as nat, self.live)),
                live: Seq::empty(),
            }
        } else {
            self
        };
        if written {
            Segments { live: s.live.push(r), ..s }
        } else {
            s
        }
    }
}

/// The records of segments, one behind the other.
pub open spec fn set_aside(aside: Seq<(nat, Seq<RecordView>)>) -> Seq<RecordView>
    decreases aside.len(),
{
    if aside.len() == 0 {
        Seq::empty()
    } else {
        set_aside(aside.drop_last()) + aside.last().1
    }
}

/// An append as a whole. Where it is written, the record has the next number and
/// the hash of the one before it, all segments together hold one record more,
/// that one, whether or not one was set aside, and the trail stays intact. Where
/// it is not, they hold what they held, and the next append has the same number
/// and the same hash before it.
pub proof fn an_append_is_read_back(
    before: AuditLog,
    after: AuditLog,
    append: Append,
    new: NewRecordView,
    ts: Seq<char>,
    rotated: bool,
    wrote: Result<(), String>,
    r: Result<AuditRecord, AuditUnavailable>,
    segments: Segments,
)
    requires
        intact(segments.all()),
        before.sink.follows(segments.all()),
        append.record@ == drafted(before.sink.next_seq, before.sink.head@, before.node@, new, ts),
        recorded(before, after, append, rotated, wrote, r),
    ensures
        ({
            let rec = append.record@;
            let now = segments.after(rec, rotated, wrote is Ok).all();
            &&& wrote is Ok <==> r is Ok
            &&& intact(now)
            &&& first_break(now) is None
            &&& after.sink.follows(now)
            &&& wrote is Ok ==> {
                &&& now == segments.all().push(rec)
                &&& r->Ok_0@ == rec
                &&& rec.seq == before.sink.next_seq
                &&& rec.prev_hash == before.sink.head@
                &&& rec.hash == after.sink.head@
                &&& rec.node == before.node@
                &&& rec.new == new
            }
            &&& wrote is Err ==> {
                &&& now == segments.all()
                &&& after.sink.next_seq == before.sink.next_seq
                &&& after.sink.head == before.sink.head
            }
        }),
{
    let rec = append.record@;
    let done = segments.all();
    let now = segments.after(rec, rotated, wrote is Ok);
    let last = (rec.seq - 1) as nat;
    if rotated {
        let more = segments.aside.push((last, segments.live));
        assert(more.drop_last() =~= segments.aside);
        assert(set_aside(more) == done);
    }
    if wrote is Ok {
        assert(now.all() =~= done.push(rec));
        drafts_extend_the_trail(before.sink, done, before.node@, new, ts, after.sink);
    } else {
        assert(now.all() =~= done);
    }
    intact_means_no_break(now.all());
}

/// Segments that were set aside later have names behind those of earlier ones,
/// so that their names in order are the segments in the order of the chain.
pub proof fn segments_are_named_in_order(m: nat, n: nat)
    requires
        m < n < 1_000_000_000_000,
    ensures
        text::before(segment_name(m), segment_name(n)),
{
    reveal_strlit("audit.");
    reveal_strlit(".jsonl");
    assert(text::tens(12) == 1_000_000_000_000) by {
        reveal_with_fuel(text::tens, 13);
    }
    text::numeral_length(m, 12);
    text::numeral_length(n, 12);
    text::padded_spells(m, 12);
    text::padded_spells(n, 12);
    assert(is_ascii_chars("audit."@));
    assert(is_ascii_chars(".jsonl"@));
    text::numbered_names_are_in_order(
        "audit."@,
        text::padded(m, 12),
        text::padded(n, 12),
        ".jsonl"@,
    );
}

impl AuditLog {
    /// The log behind a sink, healthy, with the count of the records so far.
    pub fn open_with(sink: AuditSink, node: String, fail_open: bool) -> (r: AuditLog)
        requires
            sink.next_seq >= 1,
        ensures
            r.sink == sink,
            r.node == node,
            r.fail_open == fail_open,
            r.healthy,
            r.records_total == sink.next_seq - 1,
    {
        let records_total: u64 = sink.count();
        AuditLog { node, fail_open, healthy: true, records_total, sink }
    }

    /// The node that writes the trail.
    pub fn node(&self) -> (r: &str)
        ensures
            r@ == self.node@,
    {
        self.node.as_str()
    }

    /// Whether changes go on without a trail.
    pub fn fail_open(&self) -> (r: bool)
        ensures
            r == self.fail_open,
    {
        self.fail_open
    }

    /// Whether the last record was written.
    pub fn healthy(&self) -> (r: bool)
        ensures
            r == self.healthy,
    {
        self.healthy
    }

    /// How many records the trail has.
    pub fn records_total(&self) -> (r: u64)
        ensures
            r == self.records_total,
    {
        self.records_total
    }

    /// Whether a mutation may run: the sink is healthy, or the operator chose
    /// to go on without it.
    pub fn gate(&self) -> (r: Result<(), AuditUnavailable>)
        ensures
            match r {
                Ok(_) => self.healthy || self.fail_open,
                Err(e) => !self.healthy && !self.fail_open && e.0@
                    == "audit sink is unhealthy; refusing the mutation"@,
            },
    {
        if self.healthy || self.fail_open {
            Ok(())
        } else {
            Err(
                AuditUnavailable(
                    String::from_str("audit sink is unhealthy; refusing the mutation"),
                ),
            )
        }
    }

    /// Takes in how the writing of a drafted record went. A record that was
    /// written advances the chain and makes the sink healthy; one that was not
    /// leaves the chain where it is and makes the sink unhealthy.
    pub fn record(&mut self, append: Append, rotated: bool, wrote: Result<(), String>) -> (r: Result<
        AuditRecord,
        AuditUnavailable,
    >)
        requires
            append.record.seq < u64::MAX,
            old(self).records_total < u64::MAX,
            (if rotated {
                0
            } else {
                old(self).sink.written as int
            }) + encode_utf8(append.line@).len() <= u64::MAX,
        ensures
            recorded(*old(self), *final(self), append, rotated, wrote, r),
    {
        match wrote {
            Ok(_) => {
                self.sink.commit(&append, rotated);
                self.records_total = self.records_total + 1;
                self.healthy = true;
                Ok(append.record)
            },
            Err(m) => {
                if rotated {
                    self.sink.written = 0;
                }
                self.healthy = false;
                Err(AuditUnavailable(m))
            },
        }
    }
}

} // verus!
