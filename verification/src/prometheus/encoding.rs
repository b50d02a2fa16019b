//! How a request is written on the wire, and that it reads back.
use crate::prometheus;
use crate::prometheus::{FaultView, Sample, SeriesView, RECURSION_LIMIT};
use crate::text;
use vstd::prelude::*;
use vstd::utf8::*;

verus! {

/// One more than the largest number of sixty-four bits.
pub open spec fn wide() -> int {
    0x1_0000_0000_0000_0000
}

// ------------------------------------------------------------------- numbers

/// A number in groups of seven bits, the lowest first, each but the last with
/// its high bit set.
pub open spec fn varint_of(n: nat) -> Seq<u8>
    decreases n,
{
    if n < 0x80 {
        seq![n as u8]
    } else {
        seq![(n % 0x80 + 0x80) as u8] + varint_of(n / 0x80)
    }
}

proof fn lemma_varint(s: Seq<u8>, p: int, k: int, n: nat)
    requires
        text::stands(s, p, varint_of(n)),
        0 <= k <= 9,
        n < prometheus::room(k),
    ensures
        prometheus::varint_at(s, p, k) == Some((n, p + varint_of(n).len())),
        varint_of(n).len() > 0,
    decreases n,
{
    text::elements_stand(s, p, varint_of(n), 0);
    if n >= 0x80 {
        let rest = n / 0x80;
        text::parts_stand(s, p, seq![(n % 0x80 + 0x80) as u8], varint_of(rest));
        if k == 9 {
            assert(false);
        }
        lemma_varint(s, p + 1, k + 1, rest);
        assert(s[p] == (n % 0x80 + 0x80) as u8);
        assert(n == s[p] - 0x80 + 0x80 * rest);
    } else {
        assert(s[p] == n);
    }
}

proof fn lemma_room()
    ensures
        prometheus::room(0) == wide(),
{
    reveal_with_fuel(prometheus::room, 11);
}

/// Every number of sixty-four bits reads back, wherever it is written.
pub proof fn a_varint_reads_back(s: Seq<u8>, p: int, n: u64)
    requires
        text::stands(s, p, varint_of(n as nat)),
    ensures
        prometheus::varint_at(s, p, 0) == Some((n as nat, p + varint_of(n as nat).len())),
{
    lemma_room();
    lemma_varint(s, p, 0, n as nat);
}

/// The bits of a signed number, as an unsigned one.
pub open spec fn bits_of(t: i64) -> nat {
    if t >= 0 {
        t as nat
    } else {
        (t + wide()) as nat
    }
}

/// Every signed number reads back, wherever it is written.
pub proof fn a_signed_number_reads_back(s: Seq<u8>, p: int, t: i64)
    requires
        text::stands(s, p, varint_of(bits_of(t))),
    ensures
        prometheus::integer_at(s, p, 0) == Ok::<(i64, int), FaultView>((t, p + varint_of(bits_of(t)).len())),
{
    a_varint_reads_back(s, p, bits_of(t) as u64);
}

/// The eight bytes of a number, the lowest first.
pub open spec fn eight_bytes(v: u64) -> Seq<u8> {
    seq![
        (v % 0x100) as u8,
        (v / 0x100 % 0x100) as u8,
        (v / 0x1_0000 % 0x100) as u8,
        (v / 0x100_0000 % 0x100) as u8,
        (v / 0x1_0000_0000 % 0x100) as u8,
        (v / 0x100_0000_0000 % 0x100) as u8,
        (v / 0x1_0000_0000_0000 % 0x100) as u8,
        (v / 0x100_0000_0000_0000) as u8,
    ]
}

/// The bits of every float read back, wherever they are written.
pub proof fn a_float_reads_back(s: Seq<u8>, p: int, v: u64)
    requires
        text::stands(s, p, eight_bytes(v)),
    ensures
        prometheus::double_at(s, p, 1) == Ok::<(u64, int), FaultView>((v, p + 8)),
{
    let w = eight_bytes(v);
    text::elements_stand(s, p, w, 0);
    text::elements_stand(s, p, w, 1);
    text::elements_stand(s, p, w, 2);
    text::elements_stand(s, p, w, 3);
    text::elements_stand(s, p, w, 4);
    text::elements_stand(s, p, w, 5);
    text::elements_stand(s, p, w, 6);
    text::elements_stand(s, p, w, 7);
    let v1 = v / 0x100;
    let v2 = v1 / 0x100;
    let v3 = v2 / 0x100;
    let v4 = v3 / 0x100;
    let v5 = v4 / 0x100;
    let v6 = v5 / 0x100;
    let v7 = v6 / 0x100;
    assert(v2 == v / 0x1_0000);
    assert(v3 == v / 0x100_0000);
    assert(v4 == v / 0x1_0000_0000);
    assert(v5 == v / 0x100_0000_0000);
    assert(v6 == v / 0x1_0000_0000_0000);
    assert(v7 == v / 0x100_0000_0000_0000);
    assert(v7 < 0x100);
    assert(v == v % 0x100 + 0x100 * v1);
    assert(v1 == v1 % 0x100 + 0x100 * v2);
    assert(v2 == v2 % 0x100 + 0x100 * v3);
    assert(v3 == v3 % 0x100 + 0x100 * v4);
    assert(v4 == v4 % 0x100 + 0x100 * v5);
    assert(v5 == v5 % 0x100 + 0x100 * v6);
    assert(v6 == v6 % 0x100 + 0x100 * v7);
    assert(prometheus::little_endian(s, p) == v);
}

// -------------------------------------------------------------------- fields

/// The key of a field.
pub open spec fn key_of(tag: nat, wire: nat) -> Seq<u8> {
    varint_of(tag * 8 + wire)
}

/// The largest tag that a key has room for.
pub open spec fn last_tag() -> nat {
    0x1fff_ffff
}

/// A field's tag and the way it is written read back, wherever its key is.
pub proof fn a_key_reads_back(s: Seq<u8>, p: int, tag: nat, wire: nat)
    requires
        text::stands(s, p, key_of(tag, wire)),
        1 <= tag <= last_tag(),
        wire <= 5,
    ensures
        prometheus::key_at(s, p) == Ok::<(int, int, int), FaultView>(
            (tag as int, wire as int, p + key_of(tag, wire).len()),
        ),
        key_of(tag, wire).len() > 0,
{
    lemma_room();
    lemma_varint(s, p, 0, tag * 8 + wire);
    assert((tag * 8 + wire) % 8 == wire);
    assert((tag * 8 + wire) / 8 == tag);
}

/// Bytes behind their length.
pub open spec fn sized(b: Seq<u8>) -> Seq<u8> {
    varint_of(b.len()) + b
}

/// A field that holds bytes: a text, or another message.
pub open spec fn framed(tag: nat, b: Seq<u8>) -> Seq<u8> {
    key_of(tag, 2) + sized(b)
}

/// Where a message inside a field starts and ends reads back.
proof fn lemma_frame(s: Seq<u8>, p: int, tag: nat, b: Seq<u8>)
    requires
        text::stands(s, p, framed(tag, b)),
        1 <= tag <= last_tag(),
        s.len() < wide(),
    ensures
        ({
            let e = p + key_of(tag, 2).len();
            let a = e + varint_of(b.len()).len();
            &&& prometheus::key_at(s, p) == Ok::<(int, int, int), FaultView>((tag as int, 2, e))
            &&& prometheus::varint_at(s, e, 0) == Some((b.len(), a))
            &&& prometheus::frame_at(s, e, 2) == Ok::<(int, int), FaultView>((a, a + b.len()))
            &&& a + b.len() == p + framed(tag, b).len()
            &&& p < e < a
            &&& text::stands(s, a, b)
        }),
{
    text::parts_stand(s, p, key_of(tag, 2), sized(b));
    a_key_reads_back(s, p, tag, 2);
    let e = p + key_of(tag, 2).len();
    text::parts_stand(s, e, varint_of(b.len()), b);
    a_varint_reads_back(s, e, b.len() as u64);
    lemma_room();
    lemma_varint(s, e, 0, b.len());
}

/// A field that holds a text; none where an empty one is left out.
pub open spec fn text_field(tag: nat, t: Seq<char>, terse: bool) -> Seq<u8> {
    if terse && t.len() == 0 {
        Seq::empty()
    } else {
        framed(tag, encode_utf8(t))
    }
}

proof fn lemma_text(s: Seq<u8>, p: int, tag: nat, t: Seq<char>)
    requires
        text::stands(s, p, framed(tag, encode_utf8(t))),
        1 <= tag <= last_tag(),
        s.len() < wide(),
    ensures
        prometheus::key_at(s, p) == Ok::<(int, int, int), FaultView>(
            (tag as int, 2, p + key_of(tag, 2).len()),
        ),
        prometheus::string_at(s, p + key_of(tag, 2).len(), 2) == Ok::<(Seq<char>, int), FaultView>(
            (t, p + framed(tag, encode_utf8(t)).len()),
        ),
        framed(tag, encode_utf8(t)).len() > 0,
{
    lemma_frame(s, p, tag, encode_utf8(t));
    encode_utf8_valid_utf8(t);
    encode_utf8_decode_utf8(t);
}

// ------------------------------------------------------- fields of no interest

/// A field that no message here knows, in each of the ways it can be written.
pub enum Unknown {
    Varint(nat, u64),
    Eight(nat, u64),
    Bytes(nat, Seq<u8>),
    Group(nat, Seq<Unknown>),
    Four(nat, Seq<u8>),
}

/// The tag of an unknown field.
pub open spec fn tag_of(u: Unknown) -> nat {
    match u {
        Unknown::Varint(t, _) => t,
        Unknown::Eight(t, _) => t,
        Unknown::Bytes(t, _) => t,
        Unknown::Group(t, _) => t,
        Unknown::Four(t, _) => t,
    }
}

/// The way in which an unknown field is written.
pub open spec fn wire_of(u: Unknown) -> nat {
    match u {
        Unknown::Varint(..) => 0,
        Unknown::Eight(..) => 1,
        Unknown::Bytes(..) => 2,
        Unknown::Group(..) => 3,
        Unknown::Four(..) => 5,
    }
}

/// Whether an unknown field is one: its tag is known to no message and has
/// room in a key, and its groups do not nest deeper than `depth`.
pub open spec fn proper(u: Unknown, depth: int) -> bool
    decreases u,
{
    &&& depth > 0
    &&& 3 <= tag_of(u) <= last_tag()
    &&& match u {
        Unknown::Four(_, b) => b.len() == 4,
        Unknown::Group(_, inner) => forall|i: int|
            #![trigger inner[i]]
            0 <= i < inner.len() ==> proper(inner[i], depth - 1),
        _ => true,
    }
}

/// How an unknown field is written.
pub open spec fn unknown_of(u: Unknown) -> Seq<u8>
    decreases u,
{
    key_of(tag_of(u), wire_of(u)) + match u {
        Unknown::Varint(_, n) => varint_of(n as nat),
        Unknown::Eight(_, v) => eight_bytes(v),
        Unknown::Bytes(_, b) => sized(b),
        Unknown::Group(t, inner) => unknowns_of(inner) + key_of(t, 4),
        Unknown::Four(_, b) => b,
    }
}

/// How unknown fields are written, one behind the other.
pub open spec fn unknowns_of(list: Seq<Unknown>) -> Seq<u8>
    decreases list,
{
    if list.len() == 0 {
        Seq::empty()
    } else {
        unknowns_of(list.drop_last()) + unknown_of(list.last())
    }
}

/// An unknown field is skipped, whatever it holds.
proof fn lemma_skipped(s: Seq<u8>, p: int, u: Unknown, depth: int)
    requires
        text::stands(s, p, unknown_of(u)),
        proper(u, depth),
        s.len() < wide(),
    ensures
        ({
            let e = p + key_of(tag_of(u), wire_of(u)).len();
            &&& prometheus::key_at(s, p) == Ok::<(int, int, int), FaultView>(
                (tag_of(u) as int, wire_of(u) as int, e),
            )
            &&& prometheus::skipped(s, e, wire_of(u) as int, tag_of(u) as int, depth) == Ok::<int, FaultView>(
                p + unknown_of(u).len(),
            )
            &&& unknown_of(u).len() > 0
        }),
    decreases u,
{
    let head = key_of(tag_of(u), wire_of(u));
    let e = p + head.len();
    match u {
        Unknown::Varint(_, n) => {
            text::parts_stand(s, p, head, varint_of(n as nat));
            a_varint_reads_back(s, e, n);
        },
        Unknown::Eight(_, v) => {
            text::parts_stand(s, p, head, eight_bytes(v));
        },
        Unknown::Bytes(_, b) => {
            text::parts_stand(s, p, head, sized(b));
            text::parts_stand(s, e, varint_of(b.len()), b);
            a_varint_reads_back(s, e, b.len() as u64);
        },
        Unknown::Four(_, b) => {
            text::parts_stand(s, p, head, b);
        },
        Unknown::Group(t, inner) => {
            let end = key_of(t, 4);
            text::parts_stand(s, p, head, unknowns_of(inner) + end);
            text::parts_stand(s, e, unknowns_of(inner), end);
            lemma_group(s, e, inner, t, depth);
            a_key_reads_back(s, e + unknowns_of(inner).len(), t, 4);
            assert(unknown_of(u).len() == head.len() + unknowns_of(inner).len() + end.len());
        },
    }
    a_key_reads_back(s, p, tag_of(u), wire_of(u));
}

proof fn lemma_group(s: Seq<u8>, p: int, inner: Seq<Unknown>, tag: nat, depth: int)
    requires
        text::stands(s, p, unknowns_of(inner)),
        forall|i: int| 0 <= i < inner.len() ==> proper(#[trigger] inner[i], depth - 1),
        s.len() < wide(),
    ensures
        prometheus::group_end(s, p, tag as int, depth) == prometheus::group_end(
            s,
            p + unknowns_of(inner).len(),
            tag as int,
            depth,
        ),
    decreases inner,
{
    if inner.len() > 0 {
        let init = inner.drop_last();
        text::parts_stand(s, p, unknowns_of(init), unknown_of(inner.last()));
        assert forall|i: int| 0 <= i < init.len() implies proper(#[trigger] init[i], depth - 1) by {
            assert(init[i] == inner[i]);
        }
        lemma_group(s, p, init, tag, depth);
        let q = p + unknowns_of(init).len();
        assert(proper(inner[inner.len() - 1], depth - 1));
        lemma_skipped(s, q, inner.last(), depth - 1);
    }
}

// ------------------------------------------------------------------- messages

/// A label on the wire, with unknown fields behind its own.
pub open spec fn label_of(l: (Seq<char>, Seq<char>), terse: bool, more: Seq<Unknown>) -> Seq<u8> {
    text_field(1, l.0, terse) + text_field(2, l.1, terse) + unknowns_of(more)
}

/// The field of a sample's value; none where a zero is left out.
pub open spec fn value_field(v: u64, terse: bool) -> Seq<u8> {
    if terse && v == 0 {
        Seq::empty()
    } else {
        key_of(1, 1) + eight_bytes(v)
    }
}

/// The field of a sample's time; none where a zero is left out.
pub open spec fn time_field(t: i64, terse: bool) -> Seq<u8> {
    if terse && t == 0 {
        Seq::empty()
    } else {
        key_of(2, 0) + varint_of(bits_of(t))
    }
}

/// A sample on the wire, with unknown fields behind its own.
pub open spec fn sample_of(x: Sample, terse: bool, more: Seq<Unknown>) -> Seq<u8> {
    value_field(x.value, terse) + time_field(x.timestamp, terse) + unknowns_of(more)
}

/// Labels on the wire, each a field of its own.
pub open spec fn labels_of(
    labels: Seq<(Seq<char>, Seq<char>)>,
    terse: bool,
    more: Seq<Unknown>,
) -> Seq<u8>
    decreases labels.len(),
{
    if labels.len() == 0 {
        Seq::empty()
    } else {
        labels_of(labels.drop_last(), terse, more) + framed(
            1,
            label_of(labels.last(), terse, more),
        )
    }
}

/// Samples on the wire, each a field of its own.
pub open spec fn samples_of(samples: Seq<Sample>, terse: bool, more: Seq<Unknown>) -> Seq<u8>
    decreases samples.len(),
{
    if samples.len() == 0 {
        Seq::empty()
    } else {
        samples_of(samples.drop_last(), terse, more) + framed(
            2,
            sample_of(samples.last(), terse, more),
        )
    }
}

/// A series on the wire, with unknown fields behind its own.
pub open spec fn series_of(x: SeriesView, terse: bool, more: Seq<Unknown>) -> Seq<u8> {
    labels_of(x.labels, terse, more) + samples_of(x.samples, terse, more) + unknowns_of(more)
}

/// Series on the wire, each a field of its own.
pub open spec fn all_series_of(list: Seq<SeriesView>, terse: bool, more: Seq<Unknown>) -> Seq<u8>
    decreases list.len(),
{
    if list.len() == 0 {
        Seq::empty()
    } else {
        all_series_of(list.drop_last(), terse, more) + framed(1, series_of(list.last(), terse, more))
    }
}

/// A request on the wire. Where `terse`, fields that hold their default are
/// left out; behind the fields of each message stand the unknown fields `more`.
pub open spec fn request_of(list: Seq<SeriesView>, terse: bool, more: Seq<Unknown>) -> Seq<u8> {
    all_series_of(list, terse, more) + unknowns_of(more)
}

/// Whether unknown fields are such in messages at any depth: of the hundred
/// levels of nesting that there may be, two are taken by the messages themselves.
pub open spec fn all_proper(more: Seq<Unknown>) -> bool {
    forall|i: int| 0 <= i < more.len() ==> proper(#[trigger] more[i], 98)
}

proof fn lemma_proper_deeper(u: Unknown, low: int, high: int)
    requires
        proper(u, low),
        low <= high,
    ensures
        proper(u, high),
    decreases u,
{
    if let Unknown::Group(_, inner) = u {
        assert forall|i: int| #![trigger inner[i]] 0 <= i < inner.len() implies proper(
            inner[i],
            high - 1,
        ) by {
            lemma_proper_deeper(inner[i], low - 1, high - 1);
        }
    }
}

proof fn lemma_label_rest(
    s: Seq<u8>,
    p: int,
    limit: int,
    done: (Seq<char>, Seq<char>),
    more: Seq<Unknown>,
)
    requires
        text::stands(s, p, unknowns_of(more)),
        p + unknowns_of(more).len() <= limit <= s.len(),
        s.len() < wide(),
        all_proper(more),
    ensures
        prometheus::label_at(s, p, limit, done) == prometheus::label_at(s, p + unknowns_of(more).len(), limit, done),
    decreases more.len(),
{
    if more.len() > 0 {
        let init = more.drop_last();
        text::parts_stand(s, p, unknowns_of(init), unknown_of(more.last()));
        assert forall|i: int| 0 <= i < init.len() implies proper(
            #[trigger] init[i],
            RECURSION_LIMIT - 2,
        ) by {
            assert(init[i] == more[i]);
        }
        lemma_label_rest(s, p, limit, done, init);
        let q = p + unknowns_of(init).len();
        assert(proper(more[more.len() - 1], RECURSION_LIMIT - 2));
        lemma_skipped(s, q, more.last(), RECURSION_LIMIT - 2);
        assert(prometheus::label_field(s, q, done) == Ok::<_, FaultView>(
            (done, q + unknown_of(more.last()).len()),
        ));
    }
}

/// A label reads back.
proof fn lemma_label(
    s: Seq<u8>,
    p: int,
    l: (Seq<char>, Seq<char>),
    terse: bool,
    more: Seq<Unknown>,
)
    requires
        text::stands(s, p, label_of(l, terse, more)),
        s.len() < wide(),
        all_proper(more),
    ensures
        prometheus::label_at(s, p, p + label_of(l, terse, more).len(), (Seq::empty(), Seq::empty())) == Ok::<
            _,
            FaultView,
        >(l),
{
    let limit = p + label_of(l, terse, more).len();
    let one = text_field(1, l.0, terse);
    let two = text_field(2, l.1, terse);
    text::parts_stand(s, p, one + two, unknowns_of(more));
    text::parts_stand(s, p, one, two);
    let none = (Seq::<char>::empty(), Seq::<char>::empty());
    let half = (l.0, Seq::<char>::empty());
    let q = p + one.len();
    let r = q + two.len();
    if terse && l.0.len() == 0 {
        assert(l.0 =~= Seq::empty());
        assert(prometheus::label_at(s, p, limit, none) == prometheus::label_at(s, q, limit, half));
    } else {
        lemma_text(s, p, 1, l.0);
        assert(prometheus::label_field(s, p, none) == Ok::<_, FaultView>((half, q)));
        assert(prometheus::label_at(s, p, limit, none) == prometheus::label_at(s, q, limit, half));
    }
    if terse && l.1.len() == 0 {
        assert(l.1 =~= Seq::empty());
        assert(prometheus::label_at(s, q, limit, half) == prometheus::label_at(s, r, limit, l));
    } else {
        lemma_text(s, q, 2, l.1);
        assert(prometheus::label_field(s, q, half) == Ok::<_, FaultView>((l, r)));
        assert(prometheus::label_at(s, q, limit, half) == prometheus::label_at(s, r, limit, l));
    }
    lemma_label_rest(s, r, limit, l, more);
    assert(r + unknowns_of(more).len() == limit);
}

proof fn lemma_sample_rest(s: Seq<u8>, p: int, limit: int, done: Sample, more: Seq<Unknown>)
    requires
        text::stands(s, p, unknowns_of(more)),
        p + unknowns_of(more).len() <= limit <= s.len(),
        s.len() < wide(),
        all_proper(more),
    ensures
        prometheus::sample_at(s, p, limit, done) == prometheus::sample_at(s, p + unknowns_of(more).len(), limit, done),
    decreases more.len(),
{
    if more.len() > 0 {
        let init = more.drop_last();
        text::parts_stand(s, p, unknowns_of(init), unknown_of(more.last()));
        assert forall|i: int| 0 <= i < init.len() implies proper(
            #[trigger] init[i],
            RECURSION_LIMIT - 2,
        ) by {
            assert(init[i] == more[i]);
        }
        lemma_sample_rest(s, p, limit, done, init);
        let q = p + unknowns_of(init).len();
        assert(proper(more[more.len() - 1], RECURSION_LIMIT - 2));
        lemma_skipped(s, q, more.last(), RECURSION_LIMIT - 2);
        assert(prometheus::sample_field(s, q, done) == Ok::<_, FaultView>(
            (done, q + unknown_of(more.last()).len()),
        ));
    }
}

/// A sample reads back.
proof fn lemma_sample(s: Seq<u8>, p: int, x: Sample, terse: bool, more: Seq<Unknown>)
    requires
        text::stands(s, p, sample_of(x, terse, more)),
        s.len() < wide(),
        all_proper(more),
    ensures
        prometheus::sample_at(
            s,
            p,
            p + sample_of(x, terse, more).len(),
            (Sample { value: 0, timestamp: 0 }),
        ) == Ok::<_, FaultView>(x),
{
    let limit = p + sample_of(x, terse, more).len();
    let one = value_field(x.value, terse);
    let two = time_field(x.timestamp, terse);
    text::parts_stand(s, p, one + two, unknowns_of(more));
    text::parts_stand(s, p, one, two);
    let none = Sample { value: 0, timestamp: 0 };
    let half = Sample { value: x.value, timestamp: 0 };
    let q = p + one.len();
    let r = q + two.len();
    if !(terse && x.value == 0) {
        text::parts_stand(s, p, key_of(1, 1), eight_bytes(x.value));
        a_key_reads_back(s, p, 1, 1);
        a_float_reads_back(s, p + key_of(1, 1).len(), x.value);
        assert(prometheus::sample_field(s, p, none) == Ok::<_, FaultView>((half, q)));
    }
    assert(prometheus::sample_at(s, p, limit, none) == prometheus::sample_at(s, q, limit, half));
    if !(terse && x.timestamp == 0) {
        let v = varint_of(bits_of(x.timestamp));
        text::parts_stand(s, q, key_of(2, 0), v);
        a_key_reads_back(s, q, 2, 0);
        a_signed_number_reads_back(s, q + key_of(2, 0).len(), x.timestamp);
        assert(prometheus::sample_field(s, q, half) == Ok::<_, FaultView>((x, r)));
    }
    assert(prometheus::sample_at(s, q, limit, half) == prometheus::sample_at(s, r, limit, x));
    lemma_sample_rest(s, r, limit, x, more);
    assert(r + unknowns_of(more).len() == limit);
}

proof fn lemma_labels(
    s: Seq<u8>,
    p: int,
    limit: int,
    labels: Seq<(Seq<char>, Seq<char>)>,
    terse: bool,
    more: Seq<Unknown>,
)
    requires
        text::stands(s, p, labels_of(labels, terse, more)),
        p + labels_of(labels, terse, more).len() <= limit <= s.len(),
        s.len() < wide(),
        all_proper(more),
    ensures
        prometheus::series_at(s, p, limit, prometheus::no_series()) == prometheus::series_at(
            s,
            p + labels_of(labels, terse, more).len(),
            limit,
            (SeriesView { labels, samples: Seq::empty() }),
        ),
    decreases labels.len(),
{
    if labels.len() == 0 {
        assert(labels =~= Seq::empty());
    } else {
        let init = labels.drop_last();
        let body = label_of(labels.last(), terse, more);
        text::parts_stand(s, p, labels_of(init, terse, more), framed(1, body));
        lemma_labels(s, p, limit, init, terse, more);
        let q = p + labels_of(init, terse, more).len();
        lemma_frame(s, q, 1, body);
        let a = q + key_of(1, 2).len() + varint_of(body.len()).len();
        lemma_label(s, a, labels.last(), terse, more);
        let done = SeriesView { labels: init, samples: Seq::empty() };
        assert(init.push(labels.last()) =~= labels);
        assert(prometheus::series_field(s, q, done) == Ok::<_, FaultView>(
            (SeriesView { labels, samples: Seq::empty() }, q + framed(1, body).len()),
        ));
    }
}

proof fn lemma_samples(
    s: Seq<u8>,
    p: int,
    limit: int,
    labels: Seq<(Seq<char>, Seq<char>)>,
    samples: Seq<Sample>,
    terse: bool,
    more: Seq<Unknown>,
)
    requires
        text::stands(s, p, samples_of(samples, terse, more)),
        p + samples_of(samples, terse, more).len() <= limit <= s.len(),
        s.len() < wide(),
        all_proper(more),
    ensures
        prometheus::series_at(s, p, limit, (SeriesView { labels, samples: Seq::empty() })) == prometheus::series_at(
            s,
            p + samples_of(samples, terse, more).len(),
            limit,
            (SeriesView { labels, samples }),
        ),
    decreases samples.len(),
{
    if samples.len() == 0 {
        assert(samples =~= Seq::empty());
    } else {
        let init = samples.drop_last();
        let body = sample_of(samples.last(), terse, more);
        text::parts_stand(s, p, samples_of(init, terse, more), framed(2, body));
        lemma_samples(s, p, limit, labels, init, terse, more);
        let q = p + samples_of(init, terse, more).len();
        lemma_frame(s, q, 2, body);
        let a = q + key_of(2, 2).len() + varint_of(body.len()).len();
        lemma_sample(s, a, samples.last(), terse, more);
        let done = SeriesView { labels, samples: init };
        assert(init.push(samples.last()) =~= samples);
        assert(prometheus::series_field(s, q, done) == Ok::<_, FaultView>(
            (SeriesView { labels, samples }, q + framed(2, body).len()),
        ));
    }
}

proof fn lemma_series_rest(s: Seq<u8>, p: int, limit: int, done: SeriesView, more: Seq<Unknown>)
    requires
        text::stands(s, p, unknowns_of(more)),
        p + unknowns_of(more).len() <= limit <= s.len(),
        s.len() < wide(),
        all_proper(more),
    ensures
        prometheus::series_at(s, p, limit, done) == prometheus::series_at(s, p + unknowns_of(more).len(), limit, done),
    decreases more.len(),
{
    if more.len() > 0 {
        let init = more.drop_last();
        text::parts_stand(s, p, unknowns_of(init), unknown_of(more.last()));
        assert forall|i: int| 0 <= i < init.len() implies proper(
            #[trigger] init[i],
            RECURSION_LIMIT - 2,
        ) by {
            assert(init[i] == more[i]);
        }
        lemma_series_rest(s, p, limit, done, init);
        let q = p + unknowns_of(init).len();
        assert(proper(more[more.len() - 1], RECURSION_LIMIT - 2));
        lemma_proper_deeper(more.last(), RECURSION_LIMIT - 2, RECURSION_LIMIT - 1);
        lemma_skipped(s, q, more.last(), RECURSION_LIMIT - 1);
        assert(prometheus::series_field(s, q, done) == Ok::<_, FaultView>(
            (done, q + unknown_of(more.last()).len()),
        ));
    }
}

/// A series reads back.
proof fn lemma_series(s: Seq<u8>, p: int, x: SeriesView, terse: bool, more: Seq<Unknown>)
    requires
        text::stands(s, p, series_of(x, terse, more)),
        s.len() < wide(),
        all_proper(more),
    ensures
        prometheus::series_at(s, p, p + series_of(x, terse, more).len(), prometheus::no_series()) == Ok::<_, FaultView>(x),
{
    let limit = p + series_of(x, terse, more).len();
    let one = labels_of(x.labels, terse, more);
    let two = samples_of(x.samples, terse, more);
    text::parts_stand(s, p, one + two, unknowns_of(more));
    text::parts_stand(s, p, one, two);
    lemma_labels(s, p, limit, x.labels, terse, more);
    lemma_samples(s, p + one.len(), limit, x.labels, x.samples, terse, more);
    let r = p + one.len() + two.len();
    let all = SeriesView { labels: x.labels, samples: x.samples };
    assert(all == x);
    lemma_series_rest(s, r, limit, x, more);
    assert(r + unknowns_of(more).len() == limit);
}

proof fn lemma_all_series(
    s: Seq<u8>,
    p: int,
    list: Seq<SeriesView>,
    terse: bool,
    more: Seq<Unknown>,
)
    requires
        text::stands(s, p, all_series_of(list, terse, more)),
        s.len() < wide(),
        all_proper(more),
    ensures
        prometheus::request_at(s, p, Seq::empty()) == prometheus::request_at(
            s,
            p + all_series_of(list, terse, more).len(),
            list,
        ),
    decreases list.len(),
{
    if list.len() == 0 {
        assert(list =~= Seq::empty());
    } else {
        let init = list.drop_last();
        let body = series_of(list.last(), terse, more);
        text::parts_stand(s, p, all_series_of(init, terse, more), framed(1, body));
        lemma_all_series(s, p, init, terse, more);
        let q = p + all_series_of(init, terse, more).len();
        lemma_frame(s, q, 1, body);
        let a = q + key_of(1, 2).len() + varint_of(body.len()).len();
        lemma_series(s, a, list.last(), terse, more);
        assert(init.push(list.last()) =~= list);
        assert(prometheus::request_field(s, q, init) == Ok::<_, FaultView>((list, q + framed(1, body).len())));
    }
}

proof fn lemma_request_rest(s: Seq<u8>, p: int, done: Seq<SeriesView>, more: Seq<Unknown>)
    requires
        text::stands(s, p, unknowns_of(more)),
        s.len() < wide(),
        all_proper(more),
    ensures
        prometheus::request_at(s, p, done) == prometheus::request_at(s, p + unknowns_of(more).len(), done),
    decreases more.len(),
{
    if more.len() > 0 {
        let init = more.drop_last();
        text::parts_stand(s, p, unknowns_of(init), unknown_of(more.last()));
        assert forall|i: int| 0 <= i < init.len() implies proper(
            #[trigger] init[i],
            RECURSION_LIMIT - 2,
        ) by {
            assert(init[i] == more[i]);
        }
        lemma_request_rest(s, p, done, init);
        let q = p + unknowns_of(init).len();
        assert(proper(more[more.len() - 1], RECURSION_LIMIT - 2));
        lemma_proper_deeper(more.last(), RECURSION_LIMIT - 2, RECURSION_LIMIT as int);
        lemma_skipped(s, q, more.last(), RECURSION_LIMIT as int);
        assert(prometheus::request_field(s, q, done) == Ok::<_, FaultView>(
            (done, q + unknown_of(more.last()).len()),
        ));
    }
}

/// A request that is written on the wire reads back as itself: every series,
/// label, value and time, whether or not fields that hold their default are
/// left out, and whatever unknown fields stand in it.
#[verifier::spinoff_prover]
pub proof fn a_request_reads_back(list: Seq<SeriesView>, terse: bool, more: Seq<Unknown>)
    requires
        request_of(list, terse, more).len() < wide(),
        all_proper(more),
    ensures
        prometheus::request_at(request_of(list, terse, more), 0, Seq::empty()) == Ok::<_, FaultView>(list),
{
    let s = request_of(list, terse, more);
    let front = all_series_of(list, terse, more);
    let rest = unknowns_of(more);
    assert(text::stands(s, 0, s)) by {
        assert(s.subrange(0, s.len() as int) =~= s);
    }
    text::parts_stand(s, 0, front, rest);
    lemma_all_series(s, 0, list, terse, more);
    lemma_request_rest(s, front.len() as int, list, more);
    lemma_nothing_behind(s, list);
}

proof fn lemma_nothing_behind(s: Seq<u8>, done: Seq<SeriesView>)
    ensures
        prometheus::request_at(s, s.len() as int, done) == Ok::<_, FaultView>(done),
{
}

/// A block that holds a request on the wire gives exactly the rows of the
/// request, and is refused exactly if one of its series has no name.
pub proof fn a_written_request_gives_its_rows(
    list: Seq<SeriesView>,
    terse: bool,
    more: Seq<Unknown>,
)
    requires
        request_of(list, terse, more).len() < wide(),
        all_proper(more),
    ensures
        match prometheus::decoded(Ok(request_of(list, terse, more))) {
            Ok(rows) => prometheus::mapped(list) == Some(rows),
            Err(_) => prometheus::mapped(list) is None,
        },
{
    a_request_reads_back(list, terse, more);
}

} // verus!
