//! Metrics that are pushed over the remote-write protocol: a block compressed
//! by Snappy, in it a message of four kinds, and the rows that it becomes.
pub mod encoding;

use crate::ingest;
use crate::ingest::{FieldValue, Float, ParsedLine};
use crate::pairs;
use crate::text;
use vstd::prelude::*;
use vstd::utf8::*;

verus! {

/// The label that names a series' table.
pub const NAME_LABEL: &'static str = "__name__";

/// The field that a sample's value lands in.
pub const VALUE_FIELD: &'static str = "value";

/// How deep unknown groups may nest, counted from the outermost message.
pub const RECURSION_LIMIT: u32 = 100;

// ---------------------------------------------------------------- the messages

/// A request: its series.
#[derive(Debug)]
pub struct WriteRequest {
    pub timeseries: Vec<TimeSeries>,
}

/// A series: its labels and its samples.
#[derive(Debug)]
pub struct TimeSeries {
    pub labels: Vec<Label>,
    pub samples: Vec<Sample>,
}

/// A label: its name and its value.
#[derive(Debug)]
pub struct Label {
    pub name: String,
    pub value: String,
}

/// A sample: the bits of its value and its time in milliseconds.
#[derive(Debug, Clone, Copy, PartialEq, Eq, Structural)]
pub struct Sample {
    pub value: u64,
    pub timestamp: i64,
}

/// What a series holds.
#[verifier::ext_equal]
pub struct SeriesView {
    pub labels: Seq<(Seq<char>, Seq<char>)>,
    pub samples: Seq<Sample>,
}

/// What labels hold.
pub open spec fn label_views(v: Seq<Label>) -> Seq<(Seq<char>, Seq<char>)> {
    v.map_values(|l: Label| (l.name@, l.value@))
}

impl View for TimeSeries {
    type V = SeriesView;

    open spec fn view(&self) -> SeriesView {
        SeriesView { labels: label_views(self.labels@), samples: self.samples@ }
    }
}

/// What the series of a request hold.
pub open spec fn series_views(v: Seq<TimeSeries>) -> Seq<SeriesView> {
    v.map_values(|t: TimeSeries| t@)
}

/// Why a request is refused.
#[derive(Debug)]
pub enum RemoteWriteError {
    /// The body is not a Snappy block.
    Snappy(String),
    /// What the block holds is not a request.
    Protobuf(String),
    /// A series has no name.
    MissingName,
}

/// What is answered to a request that is refused.
pub open spec fn error_text(e: RemoteWriteError) -> Seq<char> {
    match e {
        RemoteWriteError::Snappy(m) => "remote_write body is not snappy: "@ + m@,
        RemoteWriteError::Protobuf(m) => "remote_write protobuf decode failed: "@ + m@,
        RemoteWriteError::MissingName => "remote_write series has no __name__ label"@,
    }
}

impl RemoteWriteError {
    /// What is answered to the request.
    pub fn message(&self) -> (r: String)
        ensures
            r@ == error_text(*self),
    {
        match self {
            RemoteWriteError::Snappy(m) => {
                let mut t = "remote_write body is not snappy: ".to_owned();
                t.append(m.as_str());
                t
            },
            RemoteWriteError::Protobuf(m) => {
                let mut t = "remote_write protobuf decode failed: ".to_owned();
                t.append(m.as_str());
                t
            },
            RemoteWriteError::MissingName => "remote_write series has no __name__ label".to_owned(),
        }
    }
}

// -------------------------------------------------------------- the wire format

/// Why bytes are not a message: the fields that were being read, the innermost
/// first, and what is wrong.
pub struct Fault {
    pub at: String,
    pub what: String,
}

/// What a `Fault` says.
#[verifier::ext_equal]
pub struct FaultView {
    pub at: Seq<char>,
    pub what: Seq<char>,
}

impl View for Fault {
    type V = FaultView;

    open spec fn view(&self) -> FaultView {
        FaultView { at: self.at@, what: self.what@ }
    }
}

/// A fault that no field is known of yet.
pub open spec fn fault(what: Seq<char>) -> FaultView {
    FaultView { at: Seq::empty(), what }
}

/// A fault inside a field.
pub open spec fn inside(f: FaultView, field: Seq<char>) -> FaultView {
    FaultView { at: f.at + field, what: f.what }
}

/// Why bytes are not a request, in words.
pub open spec fn fault_text(f: FaultView) -> Seq<char> {
    "failed to decode Protobuf message: "@ + f.at + f.what
}

fn new_fault(what: &str) -> (r: Fault)
    ensures
        r@ == fault(what@),
{
    let at = String::new();
    assert(at@ =~= Seq::empty());
    Fault { at, what: what.to_owned() }
}

fn within(f: Fault, field: &str) -> (r: Fault)
    ensures
        r@ == inside(f@, field@),
{
    let mut at = f.at;
    at.append(field);
    Fault { at, what: f.what }
}

/// A number in groups of seven bits, the lowest first, each but the last with
/// its high bit set; `k` groups were read before. There are at most ten, and
/// the tenth holds one bit.
pub open spec fn varint_at(s: Seq<u8>, p: int, k: int) -> Option<(nat, int)>
    decreases 10 - k,
{
    if p < 0 || p >= s.len() || k >= 10 {
        None
    } else if s[p] < 0x80 {
        if k == 9 && s[p] >= 2 {
            None
        } else {
            Some((s[p] as nat, p + 1))
        }
    } else {
        match varint_at(s, p + 1, k + 1) {
            Some((v, e)) => Some(((s[p] - 0x80 + 0x80 * v) as nat, e)),
            None => None,
        }
    }
}

/// What a number stays below of which `k` groups were read before.
spec fn room(k: int) -> int
    decreases 10 - k,
{
    if k >= 9 {
        2
    } else {
        0x80 * room(k + 1)
    }
}

fn varint(s: &[u8], p: usize, k: usize) -> (r: Option<(u64, usize)>)
    requires
        p <= s.len(),
        k <= 10,
    ensures
        match (r, varint_at(s@, p as int, k as int)) {
            (Some((v, e)), Some((w, f))) => v == w && e == f && p < e <= s.len() && (k <= 9 ==> v
                < room(k as int)),
            (None, None) => true,
            _ => false,
        },
    decreases 10 - k,
{
    if p >= s.len() || k >= 10 {
        return None;
    }
    let b: u8 = s[p];
    if b < 0x80 {
        if k == 9 && b >= 2 {
            return None;
        }
        assert(b < room(k as int)) by {
            reveal_with_fuel(room, 11);
        }
        return Some((b as u64, p + 1));
    }
    match varint(s, p + 1, k + 1) {
        Some((v, e)) => {
            if k == 9 {
                assert(false);
            }
            assert(b - 0x80 + 0x80 * v < 0x80 * room(k + 1));
            assert(room(k as int) <= 0x1_0000_0000_0000_0000) by {
                reveal_with_fuel(room, 11);
            }
            Some(((b - 0x80) as u64 + 0x80 * v, e))
        },
        None => None,
    }
}

/// The names of the ways in which a field can be written.
pub open spec fn wire_name(w: int) -> Seq<char> {
    if w == 0 {
        "Varint"@
    } else if w == 1 {
        "SixtyFourBit"@
    } else if w == 2 {
        "LengthDelimited"@
    } else if w == 3 {
        "StartGroup"@
    } else if w == 4 {
        "EndGroup"@
    } else {
        "ThirtyTwoBit"@
    }
}

fn wire_text(w: u64) -> (r: &'static str)
    ensures
        r@ == wire_name(w as int),
{
    match w {
        0 => "Varint",
        1 => "SixtyFourBit",
        2 => "LengthDelimited",
        3 => "StartGroup",
        4 => "EndGroup",
        _ => "ThirtyTwoBit",
    }
}

/// The key of a field: its tag, how it is written, and where it ends.
pub open spec fn key_at(s: Seq<u8>, p: int) -> Result<(int, int, int), FaultView> {
    match varint_at(s, p, 0) {
        None => Err(fault("invalid varint"@)),
        Some((key, e)) => if key > u32::MAX {
            Err(fault("invalid key value: "@ + text::decimal(key)))
        } else if key % 8 > 5 {
            Err(fault("invalid wire type value: "@ + text::decimal(key % 8)))
        } else if key / 8 < 1 {
            Err(fault("invalid tag value: 0"@))
        } else {
            Ok(((key / 8) as int, (key % 8) as int, e))
        },
    }
}

fn key(s: &[u8], p: usize) -> (r: Result<(u64, u64, usize), Fault>)
    requires
        p <= s.len(),
    ensures
        match (r, key_at(s@, p as int)) {
            (Ok((t, w, e)), Ok((x, y, f))) => t == x && w == y && e == f && p < e <= s.len() && w
                <= 5,
            (Err(m), Err(n)) => m@ == n,
            _ => false,
        },
{
    match varint(s, p, 0) {
        None => Err(new_fault("invalid varint")),
        Some((key, e)) => {
            if key > u32::MAX as u64 {
                let mut m = "invalid key value: ".to_owned();
                m.append(text::show(key).as_str());
                return Err(new_fault(m.as_str()));
            }
            if key % 8 > 5 {
                let mut m = "invalid wire type value: ".to_owned();
                m.append(text::show(key % 8).as_str());
                return Err(new_fault(m.as_str()));
            }
            if key / 8 < 1 {
                return Err(new_fault("invalid tag value: 0"));
            }
            Ok((key / 8, key % 8, e))
        },
    }
}

/// What is said of a field that is not written as it should be.
pub open spec fn wrong_wire(actual: int, expected: int) -> FaultView {
    fault(
        "invalid wire type: "@ + wire_name(actual) + " (expected "@ + wire_name(expected) + ")"@,
    )
}

fn wire_fault(actual: u64, expected: u64) -> (r: Fault)
    ensures
        r@ == wrong_wire(actual as int, expected as int),
{
    let mut m = "invalid wire type: ".to_owned();
    m.append(wire_text(actual));
    m.append(" (expected ");
    m.append(wire_text(expected));
    m.append(")");
    new_fault(m.as_str())
}

/// The end of a field of no interest that starts at a position, with `depth`
/// levels left for groups.
pub open spec fn skipped(s: Seq<u8>, p: int, wire: int, tag: int, depth: int) -> Result<
    int,
    FaultView,
>
    decreases s.len() - p, 1nat,
    when 0 <= p <= s.len()
{
    if depth == 0 {
        Err(fault("recursion limit reached"@))
    } else if wire == 0 {
        match varint_at(s, p, 0) {
            None => Err(fault("invalid varint"@)),
            Some((v, e)) => Ok(e),
        }
    } else if wire == 5 {
        past(s, p, 4)
    } else if wire == 1 {
        past(s, p, 8)
    } else if wire == 2 {
        match varint_at(s, p, 0) {
            None => Err(fault("invalid varint"@)),
            Some((v, e)) => past(s, e, v as int),
        }
    } else if wire == 3 {
        group_end(s, p, tag, depth)
    } else {
        Err(fault("unexpected end group tag"@))
    }
}

/// The position so many bytes on.
pub open spec fn past(s: Seq<u8>, p: int, n: int) -> Result<int, FaultView> {
    if n > s.len() - p {
        Err(fault("buffer underflow"@))
    } else {
        Ok(p + n)
    }
}

/// The end of a group: behind the key that ends it.
pub open spec fn group_end(s: Seq<u8>, p: int, tag: int, depth: int) -> Result<int, FaultView>
    decreases s.len() - p, 0nat,
    when 0 <= p <= s.len()
    via group_end_ends
{
    match key_at(s, p) {
        Err(f) => Err(f),
        Ok((t, w, e)) => if w == 4 {
            if t == tag {
                Ok(e)
            } else {
                Err(fault("unexpected end group tag"@))
            }
        } else {
            match skipped(s, e, w, t, depth - 1) {
                Err(f) => Err(f),
                Ok(q) => if e <= q <= s.len() {
                    group_end(s, q, tag, depth)
                } else {
                    Ok(q)
                },
            }
        },
    }
}

#[via_fn]
proof fn group_end_ends(s: Seq<u8>, p: int, tag: int, depth: int) {
    lemma_key_ends(s, p);
}

proof fn lemma_varint_ends(s: Seq<u8>, p: int, k: int)
    ensures
        varint_at(s, p, k) matches Some((v, e)) ==> p < e <= s.len(),
    decreases 10 - k,
{
    if 0 <= p < s.len() && k < 10 && s[p] >= 0x80 {
        lemma_varint_ends(s, p + 1, k + 1);
    }
}

proof fn lemma_key_ends(s: Seq<u8>, p: int)
    ensures
        key_at(s, p) matches Ok((t, w, e)) ==> p < e <= s.len(),
{
    lemma_varint_ends(s, p, 0);
}

fn skip_field(s: &[u8], p: usize, wire: u64, tag: u64, depth: u32) -> (r: Result<usize, Fault>)
    requires
        p <= s.len(),
        wire <= 5,
    ensures
        match (r, skipped(s@, p as int, wire as int, tag as int, depth as int)) {
            (Ok(e), Ok(f)) => e == f && p <= e <= s.len(),
            (Err(m), Err(n)) => m@ == n,
            _ => false,
        },
    decreases s.len() - p, 1nat,
{
    if depth == 0 {
        return Err(new_fault("recursion limit reached"));
    }
    if wire == 0 {
        match varint(s, p, 0) {
            None => Err(new_fault("invalid varint")),
            Some((_, e)) => Ok(e),
        }
    } else if wire == 5 {
        go_past(s, p, 4)
    } else if wire == 1 {
        go_past(s, p, 8)
    } else if wire == 2 {
        match varint(s, p, 0) {
            None => Err(new_fault("invalid varint")),
            Some((v, e)) => go_past(s, e, v),
        }
    } else if wire == 3 {
        skip_group(s, p, tag, depth)
    } else {
        Err(new_fault("unexpected end group tag"))
    }
}

fn go_past(s: &[u8], p: usize, n: u64) -> (r: Result<usize, Fault>)
    requires
        p <= s.len(),
    ensures
        match (r, past(s@, p as int, n as int)) {
            (Ok(e), Ok(f)) => e == f && p <= e <= s.len(),
            (Err(m), Err(n)) => m@ == n,
            _ => false,
        },
{
    if n > (s.len() - p) as u64 {
        Err(new_fault("buffer underflow"))
    } else {
        Ok(p + n as usize)
    }
}

fn skip_group(s: &[u8], p: usize, tag: u64, depth: u32) -> (r: Result<usize, Fault>)
    requires
        p <= s.len(),
        depth > 0,
    ensures
        match (r, group_end(s@, p as int, tag as int, depth as int)) {
            (Ok(e), Ok(f)) => e == f && p <= e <= s.len(),
            (Err(m), Err(n)) => m@ == n,
            _ => false,
        },
    decreases s.len() - p, 0nat,
{
    let mut q: usize = p;
    while q <= s.len()
        invariant
            p <= q <= s.len(),
            depth > 0,
            group_end(s@, p as int, tag as int, depth as int) == group_end(
                s@,
                q as int,
                tag as int,
                depth as int,
            ),
        decreases s.len() - q,
    {
        match key(s, q) {
            Err(f) => {
                return Err(f);
            },
            Ok((t, w, e)) => {
                if w == 4 {
                    if t == tag {
                        return Ok(e);
                    }
                    return Err(new_fault("unexpected end group tag"));
                }
                match skip_field(s, e, w, t, depth - 1) {
                    Err(f) => {
                        return Err(f);
                    },
                    Ok(n) => {
                        q = n;
                    },
                }
            },
        }
    }
    assert(false);
    Err(new_fault(""))
}

/// A text in a field that starts at a position, and its end.
pub open spec fn string_at(s: Seq<u8>, p: int, wire: int) -> Result<(Seq<char>, int), FaultView> {
    if wire != 2 {
        Err(wrong_wire(wire, 2))
    } else {
        match varint_at(s, p, 0) {
            None => Err(fault("invalid varint"@)),
            Some((n, e)) => if n > s.len() - e {
                Err(fault("buffer underflow"@))
            } else if valid_utf8(s.subrange(e, e + n)) {
                Ok((decode_utf8(s.subrange(e, e + n)), e + n))
            } else {
                Err(fault("invalid string value: data is not UTF-8 encoded"@))
            },
        }
    }
}

fn string(s: &[u8], p: usize, wire: u64) -> (r: Result<(String, usize), Fault>)
    requires
        p <= s.len(),
    ensures
        match (r, string_at(s@, p as int, wire as int)) {
            (Ok((t, e)), Ok((u, f))) => t@ == u && e == f && p < e <= s.len(),
            (Err(m), Err(n)) => m@ == n,
            _ => false,
        },
{
    if wire != 2 {
        return Err(wire_fault(wire, 2));
    }
    match varint(s, p, 0) {
        None => Err(new_fault("invalid varint")),
        Some((n, e)) => {
            if n > (s.len() - e) as u64 {
                return Err(new_fault("buffer underflow"));
            }
            let end: usize = e + n as usize;
            let bytes = vstd::slice::slice_subrange(s, e, end);
            match text::text_of_bytes(bytes) {
                Some(t) => Ok((t, end)),
                None => Err(new_fault("invalid string value: data is not UTF-8 encoded")),
            }
        },
    }
}

/// The number in eight bytes, the lowest first.
pub open spec fn little_endian(s: Seq<u8>, p: int) -> u64 {
    (s[p] + 0x100 * s[p + 1] + 0x1_0000 * s[p + 2] + 0x100_0000 * s[p + 3] + 0x1_0000_0000 * s[p
        + 4] + 0x100_0000_0000 * s[p + 5] + 0x1_0000_0000_0000 * s[p + 6] + 0x100_0000_0000_0000
        * s[p + 7]) as u64
}

/// The bits of a float in a field that starts at a position, and its end.
pub open spec fn double_at(s: Seq<u8>, p: int, wire: int) -> Result<(u64, int), FaultView> {
    if wire != 1 {
        Err(wrong_wire(wire, 1))
    } else if s.len() - p < 8 {
        Err(fault("buffer underflow"@))
    } else {
        Ok((little_endian(s, p), p + 8))
    }
}

fn double(s: &[u8], p: usize, wire: u64) -> (r: Result<(u64, usize), Fault>)
    requires
        p <= s.len(),
    ensures
        match (r, double_at(s@, p as int, wire as int)) {
            (Ok((t, e)), Ok((u, f))) => t == u && e == f && p < e <= s.len(),
            (Err(m), Err(n)) => m@ == n,
            _ => false,
        },
{
    if wire != 1 {
        return Err(wire_fault(wire, 1));
    }
    if s.len() - p < 8 {
        return Err(new_fault("buffer underflow"));
    }
    let bits: u64 = s[p] as u64 + 0x100 * s[p + 1] as u64 + 0x1_0000 * s[p + 2] as u64 + 0x100_0000
        * s[p + 3] as u64 + 0x1_0000_0000 * s[p + 4] as u64 + 0x100_0000_0000 * s[p + 5] as u64
        + 0x1_0000_0000_0000 * s[p + 6] as u64 + 0x100_0000_0000_0000 * s[p + 7] as u64;
    Ok((bits, p + 8))
}

/// A signed number of the bits of an unsigned one.
pub open spec fn signed(v: nat) -> i64 {
    if v < 0x8000_0000_0000_0000 {
        v as i64
    } else {
        (v - 0x1_0000_0000_0000_0000) as i64
    }
}

/// A number in a field that starts at a position, and its end.
pub open spec fn integer_at(s: Seq<u8>, p: int, wire: int) -> Result<(i64, int), FaultView> {
    if wire != 0 {
        Err(wrong_wire(wire, 0))
    } else {
        match varint_at(s, p, 0) {
            None => Err(fault("invalid varint"@)),
            Some((v, e)) => Ok((signed(v), e)),
        }
    }
}

fn integer(s: &[u8], p: usize, wire: u64) -> (r: Result<(i64, usize), Fault>)
    requires
        p <= s.len(),
    ensures
        match (r, integer_at(s@, p as int, wire as int)) {
            (Ok((t, e)), Ok((u, f))) => t == u && e == f && p < e <= s.len(),
            (Err(m), Err(n)) => m@ == n,
            _ => false,
        },
{
    if wire != 0 {
        return Err(wire_fault(wire, 0));
    }
    match varint(s, p, 0) {
        None => Err(new_fault("invalid varint")),
        Some((v, e)) => {
            if v < 0x8000_0000_0000_0000 {
                Ok((v as i64, e))
            } else {
                let up: u64 = u64::MAX - v;
                Ok((-(up as i64) - 1, e))
            }
        },
    }
}

/// Where a message inside a field ends, and where it starts.
pub open spec fn frame_at(s: Seq<u8>, p: int, wire: int) -> Result<(int, int), FaultView> {
    if wire != 2 {
        Err(wrong_wire(wire, 2))
    } else {
        match varint_at(s, p, 0) {
            None => Err(fault("invalid varint"@)),
            Some((n, e)) => if n > s.len() - e {
                Err(fault("buffer underflow"@))
            } else {
                Ok((e, e + n))
            },
        }
    }
}

fn frame(s: &[u8], p: usize, wire: u64) -> (r: Result<(usize, usize), Fault>)
    requires
        p <= s.len(),
    ensures
        match (r, frame_at(s@, p as int, wire as int)) {
            (Ok((a, b)), Ok((x, y))) => a == x && b == y && p < a <= b <= s.len(),
            (Err(m), Err(n)) => m@ == n,
            _ => false,
        },
{
    if wire != 2 {
        return Err(wire_fault(wire, 2));
    }
    match varint(s, p, 0) {
        None => Err(new_fault("invalid varint")),
        Some((n, e)) => {
            if n > (s.len() - e) as u64 {
                return Err(new_fault("buffer underflow"));
            }
            Ok((e, e + n as usize))
        },
    }
}

proof fn lemma_skipped_ends(s: Seq<u8>, p: int, wire: int, tag: int, depth: int)
    requires
        0 <= p <= s.len(),
    ensures
        skipped(s, p, wire, tag, depth) matches Ok(e) ==> p <= e <= s.len(),
    decreases s.len() - p, 1nat,
{
    lemma_varint_ends(s, p, 0);
    if wire == 3 {
        lemma_group_ends(s, p, tag, depth);
    }
}

proof fn lemma_group_ends(s: Seq<u8>, p: int, tag: int, depth: int)
    requires
        0 <= p <= s.len(),
    ensures
        group_end(s, p, tag, depth) matches Ok(e) ==> p <= e <= s.len(),
    decreases s.len() - p, 0nat,
{
    lemma_key_ends(s, p);
    if let Ok((t, w, e)) = key_at(s, p) {
        if w != 4 {
            lemma_skipped_ends(s, e, w, t, depth - 1);
            if let Ok(q) = skipped(s, e, w, t, depth - 1) {
                lemma_group_ends(s, q, tag, depth);
            }
        }
    }
}

// ----------------------------------------------------- the messages on the wire

/// One field of a label: the label with it, and where the field ends.
pub open spec fn label_field(s: Seq<u8>, p: int, done: (Seq<char>, Seq<char>)) -> Result<
    ((Seq<char>, Seq<char>), int),
    FaultView,
> {
    match key_at(s, p) {
        Err(f) => Err(f),
        Ok((t, w, e)) => if t == 1 {
            match string_at(s, e, w) {
                Err(f) => Err(inside(f, "Label.name: "@)),
                Ok((v, q)) => Ok(((v, done.1), q)),
            }
        } else if t == 2 {
            match string_at(s, e, w) {
                Err(f) => Err(inside(f, "Label.value: "@)),
                Ok((v, q)) => Ok(((done.0, v), q)),
            }
        } else {
            match skipped(s, e, w, t, RECURSION_LIMIT - 2) {
                Err(f) => Err(f),
                Ok(q) => Ok((done, q)),
            }
        },
    }
}

proof fn lemma_label_field_ends(s: Seq<u8>, p: int, done: (Seq<char>, Seq<char>))
    requires
        0 <= p <= s.len(),
    ensures
        label_field(s, p, done) matches Ok((d, q)) ==> p < q <= s.len(),
{
    lemma_key_ends(s, p);
    if let Ok((t, w, e)) = key_at(s, p) {
        lemma_varint_ends(s, e, 0);
        lemma_skipped_ends(s, e, w, t, RECURSION_LIMIT - 2);
    }
}

/// A label that goes on from a position to a limit. A field may not reach
/// beyond the limit.
pub open spec fn label_at(s: Seq<u8>, p: int, limit: int, done: (Seq<char>, Seq<char>)) -> Result<
    (Seq<char>, Seq<char>),
    FaultView,
>
    decreases s.len() - p,
    when 0 <= p <= s.len()
    via label_at_ends
{
    if p < limit {
        match label_field(s, p, done) {
            Err(f) => Err(f),
            Ok((d, q)) => label_at(s, q, limit, d),
        }
    } else if p == limit {
        Ok(done)
    } else {
        Err(fault("delimited length exceeded"@))
    }
}

#[via_fn]
proof fn label_at_ends(s: Seq<u8>, p: int, limit: int, done: (Seq<char>, Seq<char>)) {
    lemma_label_field_ends(s, p, done);
}

fn next_label(s: &[u8], p: usize, done: Label) -> (r: Result<(Label, usize), Fault>)
    requires
        p <= s.len(),
    ensures
        match (r, label_field(s@, p as int, (done.name@, done.value@))) {
            (Ok((l, e)), Ok((v, f))) => (l.name@, l.value@) == v && e == f && p < e <= s.len(),
            (Err(m), Err(n)) => m@ == n,
            _ => false,
        },
{
    match key(s, p) {
        Err(f) => Err(f),
        Ok((t, w, e)) => {
            if t == 1 {
                match string(s, e, w) {
                    Err(f) => Err(within(f, "Label.name: ")),
                    Ok((name, q)) => Ok((Label { name, value: done.value }, q)),
                }
            } else if t == 2 {
                match string(s, e, w) {
                    Err(f) => Err(within(f, "Label.value: ")),
                    Ok((value, q)) => Ok((Label { name: done.name, value }, q)),
                }
            } else {
                match skip_field(s, e, w, t, RECURSION_LIMIT - 2) {
                    Err(f) => Err(f),
                    Ok(q) => Ok((done, q)),
                }
            }
        },
    }
}

fn label(s: &[u8], start: usize, limit: usize) -> (r: Result<Label, Fault>)
    requires
        start <= limit <= s.len(),
    ensures
        match (r, label_at(s@, start as int, limit as int, (Seq::empty(), Seq::empty()))) {
            (Ok(l), Ok(v)) => (l.name@, l.value@) == v,
            (Err(m), Err(n)) => m@ == n,
            _ => false,
        },
{
    let mut done = Label { name: String::new(), value: String::new() };
    assert(done.name@ =~= Seq::empty());
    assert(done.value@ =~= Seq::empty());
    let mut p: usize = start;
    while p < limit
        invariant
            start <= limit,
            p <= s.len(),
            limit <= s.len(),
            label_at(s@, start as int, limit as int, (Seq::empty(), Seq::empty())) == label_at(
                s@,
                p as int,
                limit as int,
                (done.name@, done.value@),
            ),
        decreases s.len() - p,
    {
        match next_label(s, p, done) {
            Err(f) => {
                return Err(f);
            },
            Ok((d, q)) => {
                done = d;
                p = q;
            },
        }
    }
    if p == limit {
        Ok(done)
    } else {
        Err(new_fault("delimited length exceeded"))
    }
}

/// One field of a sample: the sample with it, and where the field ends.
pub open spec fn sample_field(s: Seq<u8>, p: int, done: Sample) -> Result<(Sample, int), FaultView> {
    match key_at(s, p) {
        Err(f) => Err(f),
        Ok((t, w, e)) => if t == 1 {
            match double_at(s, e, w) {
                Err(f) => Err(inside(f, "Sample.value: "@)),
                Ok((v, q)) => Ok((Sample { value: v, timestamp: done.timestamp }, q)),
            }
        } else if t == 2 {
            match integer_at(s, e, w) {
                Err(f) => Err(inside(f, "Sample.timestamp: "@)),
                Ok((v, q)) => Ok((Sample { value: done.value, timestamp: v }, q)),
            }
        } else {
            match skipped(s, e, w, t, RECURSION_LIMIT - 2) {
                Err(f) => Err(f),
                Ok(q) => Ok((done, q)),
            }
        },
    }
}

proof fn lemma_sample_field_ends(s: Seq<u8>, p: int, done: Sample)
    requires
        0 <= p <= s.len(),
    ensures
        sample_field(s, p, done) matches Ok((d, q)) ==> p < q <= s.len(),
{
    lemma_key_ends(s, p);
    if let Ok((t, w, e)) = key_at(s, p) {
        lemma_varint_ends(s, e, 0);
        lemma_skipped_ends(s, e, w, t, RECURSION_LIMIT - 2);
    }
}

/// A sample that goes on from a position to a limit.
pub open spec fn sample_at(s: Seq<u8>, p: int, limit: int, done: Sample) -> Result<
    Sample,
    FaultView,
>
    decreases s.len() - p,
    when 0 <= p <= s.len()
    via sample_at_ends
{
    if p < limit {
        match sample_field(s, p, done) {
            Err(f) => Err(f),
            Ok((d, q)) => sample_at(s, q, limit, d),
        }
    } else if p == limit {
        Ok(done)
    } else {
        Err(fault("delimited length exceeded"@))
    }
}

#[via_fn]
proof fn sample_at_ends(s: Seq<u8>, p: int, limit: int, done: Sample) {
    lemma_sample_field_ends(s, p, done);
}

fn next_sample(s: &[u8], p: usize, done: Sample) -> (r: Result<(Sample, usize), Fault>)
    requires
        p <= s.len(),
    ensures
        match (r, sample_field(s@, p as int, done)) {
            (Ok((l, e)), Ok((v, f))) => l == v && e == f && p < e <= s.len(),
            (Err(m), Err(n)) => m@ == n,
            _ => false,
        },
{
    match key(s, p) {
        Err(f) => Err(f),
        Ok((t, w, e)) => {
            if t == 1 {
                match double(s, e, w) {
                    Err(f) => Err(within(f, "Sample.value: ")),
                    Ok((value, q)) => Ok((Sample { value, timestamp: done.timestamp }, q)),
                }
            } else if t == 2 {
                match integer(s, e, w) {
                    Err(f) => Err(within(f, "Sample.timestamp: ")),
                    Ok((timestamp, q)) => Ok((Sample { value: done.value, timestamp }, q)),
                }
            } else {
                match skip_field(s, e, w, t, RECURSION_LIMIT - 2) {
                    Err(f) => Err(f),
                    Ok(q) => Ok((done, q)),
                }
            }
        },
    }
}

fn sample(s: &[u8], start: usize, limit: usize) -> (r: Result<Sample, Fault>)
    requires
        start <= limit <= s.len(),
    ensures
        match (
            r,
            sample_at(s@, start as int, limit as int, (Sample { value: 0, timestamp: 0 })),
        ) {
            (Ok(l), Ok(v)) => l == v,
            (Err(m), Err(n)) => m@ == n,
            _ => false,
        },
{
    let mut done = Sample { value: 0, timestamp: 0 };
    let mut p: usize = start;
    while p < limit
        invariant
            start <= limit,
            p <= s.len(),
            limit <= s.len(),
            sample_at(s@, start as int, limit as int, (Sample { value: 0, timestamp: 0 }))
                == sample_at(s@, p as int, limit as int, done),
        decreases s.len() - p,
    {
        match next_sample(s, p, done) {
            Err(f) => {
                return Err(f);
            },
            Ok((d, q)) => {
                done = d;
                p = q;
            },
        }
    }
    if p == limit {
        Ok(done)
    } else {
        Err(new_fault("delimited length exceeded"))
    }
}

/// One field of a series: the series with it, and where the field ends.
pub open spec fn series_field(s: Seq<u8>, p: int, done: SeriesView) -> Result<
    (SeriesView, int),
    FaultView,
> {
    match key_at(s, p) {
        Err(f) => Err(f),
        Ok((t, w, e)) => if t == 1 {
            match frame_at(s, e, w) {
                Err(f) => Err(inside(f, "TimeSeries.labels: "@)),
                Ok((a, b)) => match label_at(s, a, b, (Seq::empty(), Seq::empty())) {
                    Err(f) => Err(inside(f, "TimeSeries.labels: "@)),
                    Ok(l) => Ok(
                        (SeriesView { labels: done.labels.push(l), samples: done.samples }, b),
                    ),
                },
            }
        } else if t == 2 {
            match frame_at(s, e, w) {
                Err(f) => Err(inside(f, "TimeSeries.samples: "@)),
                Ok((a, b)) => match sample_at(s, a, b, (Sample { value: 0, timestamp: 0 })) {
                    Err(f) => Err(inside(f, "TimeSeries.samples: "@)),
                    Ok(l) => Ok(
                        (SeriesView { labels: done.labels, samples: done.samples.push(l) }, b),
                    ),
                },
            }
        } else {
            match skipped(s, e, w, t, RECURSION_LIMIT - 1) {
                Err(f) => Err(f),
                Ok(q) => Ok((done, q)),
            }
        },
    }
}

proof fn lemma_series_field_ends(s: Seq<u8>, p: int, done: SeriesView)
    requires
        0 <= p <= s.len(),
    ensures
        series_field(s, p, done) matches Ok((d, q)) ==> p < q <= s.len(),
{
    lemma_key_ends(s, p);
    if let Ok((t, w, e)) = key_at(s, p) {
        lemma_varint_ends(s, e, 0);
        lemma_skipped_ends(s, e, w, t, RECURSION_LIMIT - 1);
    }
}

/// A series that goes on from a position to a limit.
pub open spec fn series_at(s: Seq<u8>, p: int, limit: int, done: SeriesView) -> Result<
    SeriesView,
    FaultView,
>
    decreases s.len() - p,
    when 0 <= p <= s.len()
    via series_at_ends
{
    if p < limit {
        match series_field(s, p, done) {
            Err(f) => Err(f),
            Ok((d, q)) => series_at(s, q, limit, d),
        }
    } else if p == limit {
        Ok(done)
    } else {
        Err(fault("delimited length exceeded"@))
    }
}

#[via_fn]
proof fn series_at_ends(s: Seq<u8>, p: int, limit: int, done: SeriesView) {
    lemma_series_field_ends(s, p, done);
}

/// A series of which nothing was read.
pub open spec fn no_series() -> SeriesView {
    SeriesView { labels: Seq::empty(), samples: Seq::empty() }
}

fn framed_label(s: &[u8], p: usize, wire: u64) -> (r: Result<(Label, usize), Fault>)
    requires
        p <= s.len(),
    ensures
        match frame_at(s@, p as int, wire as int) {
            Err(f) => r matches Err(m) && m@ == f,
            Ok((a, b)) => match (r, label_at(s@, a, b, (Seq::empty(), Seq::empty()))) {
                (Ok((l, e)), Ok(v)) => (l.name@, l.value@) == v && e == b && p < e <= s.len(),
                (Err(m), Err(n)) => m@ == n,
                _ => false,
            },
        },
{
    match frame(s, p, wire) {
        Err(f) => Err(f),
        Ok((a, b)) => {
            match label(s, a, b) {
                Err(f) => Err(f),
                Ok(l) => Ok((l, b)),
            }
        },
    }
}

fn framed_sample(s: &[u8], p: usize, wire: u64) -> (r: Result<(Sample, usize), Fault>)
    requires
        p <= s.len(),
    ensures
        match frame_at(s@, p as int, wire as int) {
            Err(f) => r matches Err(m) && m@ == f,
            Ok((a, b)) => match (r, sample_at(s@, a, b, (Sample { value: 0, timestamp: 0 }))) {
                (Ok((l, e)), Ok(v)) => l == v && e == b && p < e <= s.len(),
                (Err(m), Err(n)) => m@ == n,
                _ => false,
            },
        },
{
    match frame(s, p, wire) {
        Err(f) => Err(f),
        Ok((a, b)) => {
            match sample(s, a, b) {
                Err(f) => Err(f),
                Ok(l) => Ok((l, b)),
            }
        },
    }
}

fn next_series(s: &[u8], p: usize, done: TimeSeries) -> (r: Result<(TimeSeries, usize), Fault>)
    requires
        p <= s.len(),
    ensures
        match (r, series_field(s@, p as int, done@)) {
            (Ok((l, e)), Ok((v, f))) => l@ == v && e == f && p < e <= s.len(),
            (Err(m), Err(n)) => m@ == n,
            _ => false,
        },
{
    let ghost was = done@;
    let mut done = done;
    match key(s, p) {
        Err(f) => Err(f),
        Ok((t, w, e)) => {
            if t == 1 {
                match framed_label(s, e, w) {
                    Err(f) => Err(within(f, "TimeSeries.labels: ")),
                    Ok((l, q)) => {
                        let ghost lv = (l.name@, l.value@);
                        done.labels.push(l);
                        assert(label_views(done.labels@) =~= was.labels.push(lv));
                        Ok((done, q))
                    },
                }
            } else if t == 2 {
                match framed_sample(s, e, w) {
                    Err(f) => Err(within(f, "TimeSeries.samples: ")),
                    Ok((l, q)) => {
                        done.samples.push(l);
                        Ok((done, q))
                    },
                }
            } else {
                match skip_field(s, e, w, t, RECURSION_LIMIT - 1) {
                    Err(f) => Err(f),
                    Ok(q) => Ok((done, q)),
                }
            }
        },
    }
}

fn series(s: &[u8], start: usize, limit: usize) -> (r: Result<TimeSeries, Fault>)
    requires
        start <= limit <= s.len(),
    ensures
        match (r, series_at(s@, start as int, limit as int, no_series())) {
            (Ok(l), Ok(v)) => l@ == v,
            (Err(m), Err(n)) => m@ == n,
            _ => false,
        },
{
    let mut done = TimeSeries { labels: Vec::new(), samples: Vec::new() };
    assert(done@ =~= no_series());
    let mut p: usize = start;
    while p < limit
        invariant
            start <= limit,
            p <= s.len(),
            limit <= s.len(),
            series_at(s@, start as int, limit as int, no_series()) == series_at(
                s@,
                p as int,
                limit as int,
                done@,
            ),
        decreases s.len() - p,
    {
        match next_series(s, p, done) {
            Err(f) => {
                return Err(f);
            },
            Ok((d, q)) => {
                done = d;
                p = q;
            },
        }
    }
    if p == limit {
        Ok(done)
    } else {
        Err(new_fault("delimited length exceeded"))
    }
}

/// One field of a request: the series with it, and where the field ends.
pub open spec fn request_field(s: Seq<u8>, p: int, done: Seq<SeriesView>) -> Result<
    (Seq<SeriesView>, int),
    FaultView,
> {
    match key_at(s, p) {
        Err(f) => Err(f),
        Ok((t, w, e)) => if t == 1 {
            match frame_at(s, e, w) {
                Err(f) => Err(inside(f, "WriteRequest.timeseries: "@)),
                Ok((a, b)) => match series_at(s, a, b, no_series()) {
                    Err(f) => Err(inside(f, "WriteRequest.timeseries: "@)),
                    Ok(l) => Ok((done.push(l), b)),
                },
            }
        } else {
            match skipped(s, e, w, t, RECURSION_LIMIT as int) {
                Err(f) => Err(f),
                Ok(q) => Ok((done, q)),
            }
        },
    }
}

/// The series of a request that goes on from a position to the end of the
/// bytes.
pub open spec fn request_at(s: Seq<u8>, p: int, done: Seq<SeriesView>) -> Result<
    Seq<SeriesView>,
    FaultView,
>
    decreases s.len() - p,
    when 0 <= p <= s.len()
    via request_at_ends
{
    if p < s.len() {
        match request_field(s, p, done) {
            Err(f) => Err(f),
            Ok((d, q)) => request_at(s, q, d),
        }
    } else {
        Ok(done)
    }
}

#[via_fn]
proof fn request_at_ends(s: Seq<u8>, p: int, done: Seq<SeriesView>) {
    lemma_key_ends(s, p);
    if let Ok((t, w, e)) = key_at(s, p) {
        lemma_varint_ends(s, e, 0);
        lemma_skipped_ends(s, e, w, t, RECURSION_LIMIT as int);
    }
}

/// Reads a request.
pub fn read_request(s: &[u8]) -> (r: Result<WriteRequest, RemoteWriteError>)
    ensures
        match (r, request_at(s@, 0, Seq::empty())) {
            (Ok(req), Ok(v)) => series_views(req.timeseries@) == v,
            (Err(RemoteWriteError::Protobuf(m)), Err(f)) => m@ == fault_text(f),
            _ => false,
        },
{
    match request(s) {
        Ok(req) => Ok(req),
        Err(f) => {
            let mut m = "failed to decode Protobuf message: ".to_owned();
            m.append(f.at.as_str());
            m.append(f.what.as_str());
            Err(RemoteWriteError::Protobuf(m))
        },
    }
}

fn framed_series(s: &[u8], p: usize, wire: u64) -> (r: Result<(TimeSeries, usize), Fault>)
    requires
        p <= s.len(),
    ensures
        match frame_at(s@, p as int, wire as int) {
            Err(f) => r matches Err(m) && m@ == f,
            Ok((a, b)) => match (r, series_at(s@, a, b, no_series())) {
                (Ok((l, e)), Ok(v)) => l@ == v && e == b && p < e <= s.len(),
                (Err(m), Err(n)) => m@ == n,
                _ => false,
            },
        },
{
    match frame(s, p, wire) {
        Err(f) => Err(f),
        Ok((a, b)) => {
            match series(s, a, b) {
                Err(f) => Err(f),
                Ok(l) => Ok((l, b)),
            }
        },
    }
}

fn next_request(s: &[u8], p: usize, list: Vec<TimeSeries>) -> (r: Result<
    (Vec<TimeSeries>, usize),
    Fault,
>)
    requires
        p <= s.len(),
    ensures
        match (r, request_field(s@, p as int, series_views(list@))) {
            (Ok((l, e)), Ok((v, f))) => series_views(l@) == v && e == f && p < e <= s.len(),
            (Err(m), Err(n)) => m@ == n,
            _ => false,
        },
{
    let ghost was = series_views(list@);
    let mut list = list;
    match key(s, p) {
        Err(f) => Err(f),
        Ok((t, w, e)) => {
            if t == 1 {
                match framed_series(s, e, w) {
                    Err(f) => Err(within(f, "WriteRequest.timeseries: ")),
                    Ok((l, q)) => {
                        let ghost lv = l@;
                        list.push(l);
                        assert(series_views(list@) =~= was.push(lv));
                        Ok((list, q))
                    },
                }
            } else {
                match skip_field(s, e, w, t, RECURSION_LIMIT) {
                    Err(f) => Err(f),
                    Ok(q) => Ok((list, q)),
                }
            }
        },
    }
}

fn request(s: &[u8]) -> (r: Result<WriteRequest, Fault>)
    ensures
        match (r, request_at(s@, 0, Seq::empty())) {
            (Ok(req), Ok(v)) => series_views(req.timeseries@) == v,
            (Err(m), Err(f)) => m@ == f,
            _ => false,
        },
{
    let mut list: Vec<TimeSeries> = Vec::new();
    assert(series_views(list@) =~= Seq::empty());
    let mut p: usize = 0;
    while p < s.len()
        invariant
            p <= s.len(),
            request_at(s@, 0, Seq::empty()) == request_at(s@, p as int, series_views(list@)),
        decreases s.len() - p,
    {
        match next_request(s, p, list) {
            Err(f) => {
                return Err(f);
            },
            Ok((l, q)) => {
                list = l;
                p = q;
            },
        }
    }
    Ok(WriteRequest { timeseries: list })
}

// ------------------------------------------------------------------- the rows

/// The name of a series: the value of the last label that is one.
pub open spec fn name_of(labels: Seq<(Seq<char>, Seq<char>)>) -> Option<Seq<char>>
    decreases labels.len(),
{
    if labels.len() == 0 {
        None
    } else if labels.last().0 == NAME_LABEL@ {
        Some(labels.last().1)
    } else {
        name_of(labels.drop_last())
    }
}

/// The labels of a series that are no name, in order.
pub open spec fn tags_of(labels: Seq<(Seq<char>, Seq<char>)>) -> Seq<(Seq<char>, Seq<char>)>
    decreases labels.len(),
{
    if labels.len() == 0 {
        Seq::empty()
    } else {
        let p = tags_of(labels.drop_last());
        if labels.last().0 == NAME_LABEL@ {
            p
        } else {
            p.push(labels.last())
        }
    }
}

/// Whether the bits of a float are those of a number.
pub open spec fn is_number(bits: u64) -> bool {
    (bits / 0x10_0000_0000_0000) % 0x800 != 0x7ff
}

/// Nanoseconds of milliseconds, as far as they fit.
pub open spec fn nanos_of(millis: i64) -> i64 {
    if millis * 1_000_000 > i64::MAX {
        i64::MAX
    } else if millis * 1_000_000 < i64::MIN {
        i64::MIN
    } else {
        (millis * 1_000_000) as i64
    }
}

/// The row of a sample: the series' name is its table, the labels are its
/// tags, and the value is its one field.
pub open spec fn row_of(
    name: Seq<char>,
    tags: Seq<(Seq<char>, Seq<char>)>,
    s: Sample,
) -> ingest::LineView {
    ingest::LineView {
        table: name,
        tags,
        fields: seq![
            (VALUE_FIELD@, ingest::FieldView::Float(ingest::FloatView::Bits(s.value))),
        ],
        timestamp_ns: nanos_of(s.timestamp),
    }
}

/// The rows of a series' samples: one for each, but none for a value that is
/// no number.
pub open spec fn sample_rows(
    name: Seq<char>,
    tags: Seq<(Seq<char>, Seq<char>)>,
    samples: Seq<Sample>,
) -> Seq<ingest::LineView>
    decreases samples.len(),
{
    if samples.len() == 0 {
        Seq::empty()
    } else {
        let p = sample_rows(name, tags, samples.drop_last());
        if is_number(samples.last().value) {
            p.push(row_of(name, tags, samples.last()))
        } else {
            p
        }
    }
}

/// The rows of series, in order; nothing at all where any has no name.
pub open spec fn mapped(series: Seq<SeriesView>) -> Option<Seq<ingest::LineView>>
    decreases series.len(),
{
    if series.len() == 0 {
        Some(Seq::empty())
    } else {
        match mapped(series.drop_last()) {
            None => None,
            Some(p) => match name_of(series.last().labels) {
                None => None,
                Some(name) => Some(
                    p + sample_rows(name, tags_of(series.last().labels), series.last().samples),
                ),
            },
        }
    }
}

/// How many samples are numbers.
pub open spec fn numbers_among(samples: Seq<Sample>) -> nat
    decreases samples.len(),
{
    if samples.len() == 0 {
        0
    } else {
        numbers_among(samples.drop_last()) + if is_number(samples.last().value) {
            1nat
        } else {
            0
        }
    }
}

/// How many samples of series are numbers.
pub open spec fn numbers_in(series: Seq<SeriesView>) -> nat
    decreases series.len(),
{
    if series.len() == 0 {
        0
    } else {
        numbers_in(series.drop_last()) + numbers_among(series.last().samples)
    }
}

proof fn lemma_sample_rows(
    name: Seq<char>,
    tags: Seq<(Seq<char>, Seq<char>)>,
    samples: Seq<Sample>,
)
    ensures
        sample_rows(name, tags, samples).len() == numbers_among(samples),
        forall|i: int|
            0 <= i < sample_rows(name, tags, samples).len() ==> one_value(
                #[trigger] sample_rows(name, tags, samples)[i],
            ),
    decreases samples.len(),
{
    if samples.len() > 0 {
        lemma_sample_rows(name, tags, samples.drop_last());
        let p = sample_rows(name, tags, samples.drop_last());
        let all = sample_rows(name, tags, samples);
        assert forall|i: int| 0 <= i < all.len() implies one_value(#[trigger] all[i]) by {
            if i < p.len() {
                assert(all[i] == p[i]);
            }
        }
    }
}

/// Whether a row has one field and that is the value.
pub open spec fn one_value(row: ingest::LineView) -> bool {
    row.fields.len() == 1 && row.fields[0].0 == VALUE_FIELD@
}

/// Every sample that is a number becomes one row with one field: no series is
/// spread over several, and no row comes from elsewhere.
pub proof fn each_sample_is_one_row(series: Seq<SeriesView>)
    ensures
        mapped(series) matches Some(v) ==> v.len() == numbers_in(series) && forall|i: int|
            0 <= i < v.len() ==> one_value(#[trigger] v[i]),
    decreases series.len(),
{
    if series.len() > 0 {
        each_sample_is_one_row(series.drop_last());
        if let Some(v) = mapped(series) {
            let p = mapped(series.drop_last())->Some_0;
            let l = series.last().labels;
            let more = sample_rows(name_of(l)->Some_0, tags_of(l), series.last().samples);
            lemma_sample_rows(name_of(l)->Some_0, tags_of(l), series.last().samples);
            assert(v == p + more);
            assert forall|i: int| 0 <= i < v.len() implies one_value(#[trigger] v[i]) by {
                if i < p.len() {
                    assert(v[i] == p[i]);
                } else {
                    assert(v[i] == more[i - p.len()]);
                }
            }
        }
    }
}

proof fn lemma_unnamed_stays(series: Seq<SeriesView>, k: int)
    requires
        0 <= k <= series.len(),
        mapped(series.take(k)) is None,
    ensures
        mapped(series) is None,
    decreases series.len(),
{
    if k == series.len() {
        assert(series.take(k) =~= series);
    } else {
        assert(series.drop_last().take(k) =~= series.take(k));
        lemma_unnamed_stays(series.drop_last(), k);
    }
}

/// A request is refused exactly if any of its series has no name; nothing of
/// it becomes a row then.
pub proof fn unnamed_series_refuse_the_request(series: Seq<SeriesView>)
    ensures
        mapped(series) is None <==> exists|i: int|
            0 <= i < series.len() && name_of((#[trigger] series[i]).labels) is None,
    decreases series.len(),
{
    if series.len() > 0 {
        let init = series.drop_last();
        unnamed_series_refuse_the_request(init);
        if mapped(series) is None {
            if mapped(init) is None {
                let i = choose|i: int|
                    0 <= i < init.len() && name_of((#[trigger] init[i]).labels) is None;
                assert(series[i] == init[i]);
            } else {
                assert(name_of(series[series.len() - 1].labels) is None);
            }
        }
        if exists|i: int| 0 <= i < series.len() && name_of((#[trigger] series[i]).labels) is None {
            let i = choose|i: int|
                0 <= i < series.len() && name_of((#[trigger] series[i]).labels) is None;
            if i < init.len() {
                assert(name_of(init[i].labels) is None);
            }
        }
    }
}

proof fn lemma_labels(labels: Seq<(Seq<char>, Seq<char>)>, i: int)
    requires
        0 <= i < labels.len(),
        labels[i].0 == "__name__"@,
        forall|j: int| i < j < labels.len() ==> (#[trigger] labels[j]).0 != "__name__"@,
    ensures
        name_of(labels) == Some(labels[i].1),
    decreases labels.len(),
{
    if i < labels.len() - 1 {
        assert(labels[labels.len() - 1].0 != "__name__"@);
        lemma_labels(labels.drop_last(), i);
    }
}

proof fn lemma_tags(labels: Seq<(Seq<char>, Seq<char>)>)
    ensures
        tags_of(labels) == labels.filter(|l: (Seq<char>, Seq<char>)| l.0 != "__name__"@),
    decreases labels.len(),
{
    reveal(Seq::filter);
    if labels.len() > 0 {
        lemma_tags(labels.drop_last());
    }
}

/// A sample becomes one row behind those of the samples before it, unless its
/// value is infinite or no number, its exponent being all ones. The row's table
/// is the value of the last label that is called `__name__`, its tags are the
/// labels that are called otherwise, in order, its only field is the value, bit
/// by bit, and its time is the sample's, a million nanoseconds for each
/// millisecond, or the last instant on that side where there is no such one.
pub proof fn a_sample_becomes_its_row(
    before: Seq<SeriesView>,
    labels: Seq<(Seq<char>, Seq<char>)>,
    samples: Seq<Sample>,
    x: Sample,
    i: int,
)
    requires
        0 <= i < labels.len(),
        labels[i].0 == "__name__"@,
        forall|j: int| i < j < labels.len() ==> (#[trigger] labels[j]).0 != "__name__"@,
        mapped(before) is Some,
    ensures
        ({
            let rows = mapped(before.push(SeriesView { labels, samples }));
            let more = mapped(before.push(SeriesView { labels, samples: samples.push(x) }));
            let finite = x.value & 0x7ff0_0000_0000_0000u64 != 0x7ff0_0000_0000_0000u64;
            &&& rows is Some
            &&& more is Some
            &&& !finite ==> more == rows
            &&& finite ==> {
                let row = more->Some_0.last();
                &&& more->Some_0 == rows->Some_0.push(row)
                &&& row.table == labels[i].1
                &&& row.tags == labels.filter(|l: (Seq<char>, Seq<char>)| l.0 != "__name__"@)
                &&& row.fields == seq![
                    ("value"@, ingest::FieldView::Float(ingest::FloatView::Bits(x.value))),
                ]
                &&& i64::MIN <= x.timestamp * 1_000_000 <= i64::MAX ==> row.timestamp_ns
                    == x.timestamp * 1_000_000
                &&& x.timestamp * 1_000_000 > i64::MAX ==> row.timestamp_ns == i64::MAX
                &&& x.timestamp * 1_000_000 < i64::MIN ==> row.timestamp_ns == i64::MIN
            }
        }),
        mapped(before.push(SeriesView { labels, samples: Seq::empty() })) == mapped(before),
{
    let old = SeriesView { labels, samples };
    let new = SeriesView { labels, samples: samples.push(x) };
    let none = SeriesView { labels, samples: Seq::empty() };
    lemma_labels(labels, i);
    lemma_tags(labels);
    assert(before.push(old).drop_last() =~= before);
    assert(before.push(new).drop_last() =~= before);
    assert(before.push(none).drop_last() =~= before);
    assert(samples.push(x).drop_last() =~= samples);
    let v = x.value;
    assert(((v / 0x10_0000_0000_0000) % 0x800 != 0x7ff) == (v & 0x7ff0_0000_0000_0000u64
        != 0x7ff0_0000_0000_0000u64)) by (bit_vector);
    let done = mapped(before)->Some_0;
    let name = labels[i].1;
    let first = sample_rows(name, tags_of(labels), samples);
    if is_number(x.value) {
        let row = row_of(name, tags_of(labels), x);
        assert(done + first.push(row) =~= (done + first).push(row));
        assert((done + first).push(row).last() == row);
    }
    assert(done + Seq::<ingest::LineView>::empty() =~= done);
}

/// A request is refused exactly if one of its series has no label that is called
/// `__name__`.
pub proof fn a_series_without_a_name_refuses_the_request(series: Seq<SeriesView>)
    ensures
        mapped(series) is None <==> exists|i: int|
            0 <= i < series.len() && nameless((#[trigger] series[i]).labels),
{
    unnamed_series_refuse_the_request(series);
    assert forall|i: int| 0 <= i < series.len() implies (name_of((#[trigger] series[i]).labels)
        is None <==> nameless(series[i].labels)) by {
        lemma_nameless(series[i].labels);
    }
}

/// Whether no label is a name.
pub open spec fn nameless(labels: Seq<(Seq<char>, Seq<char>)>) -> bool {
    forall|j: int| 0 <= j < labels.len() ==> (#[trigger] labels[j]).0 != "__name__"@
}

proof fn lemma_nameless(labels: Seq<(Seq<char>, Seq<char>)>)
    ensures
        name_of(labels) is None <==> nameless(labels),
    decreases labels.len(),
{
    if labels.len() > 0 {
        let init = labels.drop_last();
        lemma_nameless(init);
        if nameless(labels) {
            assert(labels[labels.len() - 1].0 != "__name__"@);
            assert forall|j: int| 0 <= j < init.len() implies (#[trigger] init[j]).0
                != "__name__"@ by {
                assert(labels[j].0 != "__name__"@);
            }
        }
        if name_of(labels) is None {
            assert forall|j: int| 0 <= j < labels.len() implies (#[trigger] labels[j]).0
                != "__name__"@ by {
                if j < init.len() {
                    assert(init[j].0 != "__name__"@);
                }
            }
        }
    }
}

fn to_nanos(millis: i64) -> (r: i64)
    ensures
        r == nanos_of(millis),
{
    let wide: i128 = millis as i128 * 1_000_000;
    if wide > i64::MAX as i128 {
        i64::MAX
    } else if wide < i64::MIN as i128 {
        i64::MIN
    } else {
        wide as i64
    }
}

fn read_labels(labels: &Vec<Label>) -> (r: (Option<String>, Vec<(String, String)>))
    ensures
        crate::batch::opt_text(r.0) == name_of(label_views(labels@)),
        ingest::tag_views(r.1@) == tags_of(label_views(labels@)),
{
    let ghost all = label_views(labels@);
    let mut name: Option<String> = None;
    let mut tags: Vec<(String, String)> = Vec::new();
    let mut i: usize = 0;
    assert(all.take(0) =~= Seq::empty());
    assert(ingest::tag_views(tags@) =~= Seq::empty());
    while i < labels.len()
        invariant
            i <= labels.len(),
            all == label_views(labels@),
            crate::batch::opt_text(name) == name_of(all.take(i as int)),
            ingest::tag_views(tags@) == tags_of(all.take(i as int)),
        decreases labels.len() - i,
    {
        assert(all.take(i + 1).drop_last() =~= all.take(i as int));
        let l = &labels[i];
        assert(all.take(i + 1).last() == (l.name@, l.value@));
        let ghost done = ingest::tag_views(tags@);
        if text::same(l.name.as_str(), NAME_LABEL) {
            name = Some(l.value.clone());
        } else {
            tags.push((l.name.clone(), l.value.clone()));
            assert(ingest::tag_views(tags@) =~= done.push((l.name@, l.value@)));
        }
        i += 1;
    }
    assert(all.take(all.len() as int) =~= all);
    (name, tags)
}

fn make_row(name: &str, tags: &Vec<(String, String)>, s: &Sample) -> (r: ParsedLine)
    ensures
        r@ == row_of(name@, ingest::tag_views(tags@), *s),
{
    let mut fields: Vec<(String, FieldValue)> = Vec::new();
    fields.push((VALUE_FIELD.to_owned(), FieldValue::Float(Float::Bits(s.value))));
    let r = ParsedLine {
        table: name.to_owned(),
        tags: pairs::copy(tags),
        fields,
        timestamp_ns: to_nanos(s.timestamp),
    };
    assert(r@ =~= row_of(name@, ingest::tag_views(tags@), *s));
    r
}

/// The rows of a request.
pub fn map_write_request(req: &WriteRequest) -> (r: Result<Vec<ParsedLine>, RemoteWriteError>)
    ensures
        match (r, mapped(series_views(req.timeseries@))) {
            (Ok(rows), Some(v)) => ingest::row_views(rows@) == v,
            (Err(RemoteWriteError::MissingName), None) => true,
            _ => false,
        },
{
    let ghost all = series_views(req.timeseries@);
    let mut rows: Vec<ParsedLine> = Vec::new();
    let mut i: usize = 0;
    assert(all.take(0) =~= Seq::empty());
    assert(ingest::row_views(rows@) =~= Seq::empty());
    while i < req.timeseries.len()
        invariant
            i <= req.timeseries.len(),
            all == series_views(req.timeseries@),
            mapped(all.take(i as int)) == Some(ingest::row_views(rows@)),
        decreases req.timeseries.len() - i,
    {
        let ts = &req.timeseries[i];
        assert(all.take(i + 1).drop_last() =~= all.take(i as int));
        assert(all.take(i + 1).last() == ts@);
        let (name, tags) = read_labels(&ts.labels);
        match name {
            None => {
                proof {
                    lemma_unnamed_stays(all, i + 1);
                }
                return Err(RemoteWriteError::MissingName);
            },
            Some(name) => {
                let ghost first = ingest::row_views(rows@);
                let ghost tv = ingest::tag_views(tags@);
                let samples = &ts.samples;
                let mut j: usize = 0;
                assert(samples@.take(0) =~= Seq::empty());
                assert(ingest::row_views(rows@) =~= first + sample_rows(
                    name@,
                    tv,
                    samples@.take(0),
                ));
                while j < samples.len()
                    invariant
                        j <= samples.len(),
                        tv == ingest::tag_views(tags@),
                        ingest::row_views(rows@) == first + sample_rows(
                            name@,
                            tv,
                            samples@.take(j as int),
                        ),
                    decreases samples.len() - j,
                {
                    assert(samples@.take(j + 1).drop_last() =~= samples@.take(j as int));
                    let s: Sample = samples[j];
                    let ghost done = ingest::row_views(rows@);
                    if (s.value / 0x10_0000_0000_0000) % 0x800 != 0x7ff {
                        let row = make_row(name.as_str(), &tags, &s);
                        let ghost rv = row@;
                        rows.push(row);
                        assert(ingest::row_views(rows@) =~= done.push(rv));
                        assert(done.push(rv) =~= first + sample_rows(
                            name@,
                            tv,
                            samples@.take(j as int),
                        ).push(rv));
                    }
                    j += 1;
                }
                assert(samples@.take(samples@.len() as int) =~= samples@);
            },
        }
        i += 1;
    }
    assert(all.take(all.len() as int) =~= all);
    Ok(rows)
}

// ----------------------------------------------------------------- the whole way

/// What a Snappy block holds, or why it is none.
pub uninterp spec fn snappy_block(body: Seq<u8>) -> Result<Seq<u8>, Seq<char>>;

/// What bytes or an error's text stand for.
pub open spec fn block_view(r: Result<Vec<u8>, String>) -> Result<Seq<u8>, Seq<char>> {
    match r {
        Ok(b) => Ok(b@),
        Err(m) => Err(m@),
    }
}

/// Decompresses a block by `snap::raw::Decoder::decompress_vec`. Claimed is
/// that the bytes, or the text of the error, depend on the body alone; nothing
/// is said of what they are.
#[verifier::external_body]
fn decompress(body: &[u8]) -> (r: Result<Vec<u8>, String>)
    ensures
        block_view(r) == snappy_block(body@),
{
    snap::raw::Decoder::new().decompress_vec(body).map_err(|e| e.to_string())
}

/// The rows of a body, given what its decompression came to.
pub open spec fn decoded(block: Result<Seq<u8>, Seq<char>>) -> Result<
    Seq<ingest::LineView>,
    Seq<char>,
> {
    match block {
        Err(m) => Err("remote_write body is not snappy: "@ + m),
        Ok(b) => match request_at(b, 0, Seq::empty()) {
            Err(f) => Err("remote_write protobuf decode failed: "@ + fault_text(f)),
            Ok(series) => match mapped(series) {
                None => Err("remote_write series has no __name__ label"@),
                Some(rows) => Ok(rows),
            },
        },
    }
}

/// The rows of a body whose block was decompressed, or was found to be none.
pub fn decode_block(block: Result<Vec<u8>, String>) -> (r: Result<Vec<ParsedLine>, RemoteWriteError>)
    ensures
        match (r, decoded(block_view(block))) {
            (Ok(rows), Ok(v)) => ingest::row_views(rows@) == v,
            (Err(e), Err(t)) => error_text(e) == t,
            _ => false,
        },
        r matches Err(e) ==> (e is Snappy <==> block is Err),
{
    match block {
        Err(m) => Err(RemoteWriteError::Snappy(m)),
        Ok(raw) => {
            match read_request(raw.as_slice()) {
                Err(e) => Err(e),
                Ok(req) => map_write_request(&req),
            }
        },
    }
}

/// The rows of a remote-write body.
pub fn decode_remote_write(body: &[u8]) -> (r: Result<Vec<ParsedLine>, RemoteWriteError>)
    ensures
        match (r, decoded(snappy_block(body@))) {
            (Ok(rows), Ok(v)) => ingest::row_views(rows@) == v,
            (Err(e), Err(t)) => error_text(e) == t,
            _ => false,
        },
        r matches Err(e) ==> (e is Snappy <==> snappy_block(body@) is Err),
{
    decode_block(decompress(body))
}

} // verus!
