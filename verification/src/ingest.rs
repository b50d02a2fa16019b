//! Line protocol: `measurement[,tag=value]* field=value[,field=value]* [timestamp]`.
//!
//! Keys, tag values and string fields take each byte as one character;
//! `\,` `\ ` `\=` `\\` are escapes in keys and tags, and a backslash inside a
//! quoted field stands for the byte after it.
pub mod line;

use crate::text;
use vstd::prelude::*;
use vstd::utf8::*;

verus! {

/// A float, in the form in which it arrived: the numeral of a line, or the
/// bits of an IEEE 754 double.
#[derive(Debug, Clone, PartialEq, Eq)]
pub enum Float {
    Numeral(String),
    Bits(u64),
}

/// One field's value.
#[derive(Debug, Clone, PartialEq, Eq)]
pub enum FieldValue {
    Float(Float),
    Int(i64),
    UInt(u64),
    Bool(bool),
    Str(String),
}

/// One row, as a line or another wire format gives it.
#[derive(Debug, Clone, PartialEq, Eq)]
pub struct ParsedLine {
    pub table: String,
    pub tags: Vec<(String, String)>,
    pub fields: Vec<(String, FieldValue)>,
    pub timestamp_ns: i64,
}

/// A line that could not be read, with its number counted from one.
#[derive(Debug)]
pub struct ParseError {
    pub line_no: usize,
    pub msg: String,
}

/// What a `Float` holds.
pub enum FloatView {
    Numeral(Seq<char>),
    Bits(u64),
}

/// What a `FieldValue` holds.
pub enum FieldView {
    Float(FloatView),
    Int(i64),
    UInt(u64),
    Bool(bool),
    Str(Seq<char>),
}

/// What a `ParsedLine` holds.
#[verifier::ext_equal]
pub struct LineView {
    pub table: Seq<char>,
    pub tags: Seq<(Seq<char>, Seq<char>)>,
    pub fields: Seq<(Seq<char>, FieldView)>,
    pub timestamp_ns: i64,
}

impl View for Float {
    type V = FloatView;

    open spec fn view(&self) -> FloatView {
        match *self {
            Float::Numeral(s) => FloatView::Numeral(s@),
            Float::Bits(b) => FloatView::Bits(b),
        }
    }
}

impl View for FieldValue {
    type V = FieldView;

    open spec fn view(&self) -> FieldView {
        match *self {
            FieldValue::Float(f) => FieldView::Float(f@),
            FieldValue::Int(n) => FieldView::Int(n),
            FieldValue::UInt(n) => FieldView::UInt(n),
            FieldValue::Bool(b) => FieldView::Bool(b),
            FieldValue::Str(s) => FieldView::Str(s@),
        }
    }
}

/// The texts of a list of tags.
pub open spec fn tag_views(tags: Seq<(String, String)>) -> Seq<(Seq<char>, Seq<char>)> {
    tags.map_values(|p: (String, String)| (p.0@, p.1@))
}

/// The names and values of a list of fields.
pub open spec fn field_views(fields: Seq<(String, FieldValue)>) -> Seq<(Seq<char>, FieldView)> {
    fields.map_values(|p: (String, FieldValue)| (p.0@, p.1@))
}

impl View for ParsedLine {
    type V = LineView;

    open spec fn view(&self) -> LineView {
        LineView {
            table: self.table@,
            tags: tag_views(self.tags@),
            fields: field_views(self.fields@),
            timestamp_ns: self.timestamp_ns,
        }
    }
}

/// A copy of a float.
pub fn copy_float(f: &Float) -> (r: Float)
    ensures
        r@ == f@,
{
    match f {
        Float::Numeral(s) => Float::Numeral(s.clone()),
        Float::Bits(b) => Float::Bits(*b),
    }
}

/// A copy of a field's value.
pub fn copy_value(v: &FieldValue) -> (r: FieldValue)
    ensures
        r@ == v@,
{
    match v {
        FieldValue::Float(f) => FieldValue::Float(copy_float(f)),
        FieldValue::Int(n) => FieldValue::Int(*n),
        FieldValue::UInt(n) => FieldValue::UInt(*n),
        FieldValue::Bool(b) => FieldValue::Bool(*b),
        FieldValue::Str(s) => FieldValue::Str(s.clone()),
    }
}

impl ParseError {
    /// The error as a message for the sender.
    pub fn message(&self) -> (r: String)
        ensures
            r@ == "line "@ + text::decimal(self.line_no as nat) + ": "@ + self.msg@,
    {
        let mut s = String::from_str("line ");
        s.append(text::show(self.line_no as u64).as_str());
        s.append(": ");
        s.append(self.msg.as_str());
        s
    }
}

/// Nanoseconds per unit of a `precision` parameter.
pub open spec fn precision_ns(p: Seq<char>) -> Option<i64> {
    if p == "ns"@ || p == "n"@ {
        Some(1i64)
    } else if p == "us"@ || p == "u"@ {
        Some(1_000i64)
    } else if p == "ms"@ {
        Some(1_000_000i64)
    } else if p == "s"@ {
        Some(1_000_000_000i64)
    } else {
        None
    }
}

/// Nanoseconds per unit of a `precision` parameter.
pub fn precision_multiplier(p: &str) -> (r: Option<i64>)
    ensures
        r == precision_ns(p@),
{
    if text::same(p, "ns") || text::same(p, "n") {
        Some(1)
    } else if text::same(p, "us") || text::same(p, "u") {
        Some(1_000)
    } else if text::same(p, "ms") {
        Some(1_000_000)
    } else if text::same(p, "s") {
        Some(1_000_000_000)
    } else {
        None
    }
}

// ------------------------------------------------------------- the grammar

/// The bytes that a backslash escapes in keys and tags.
pub open spec fn escapable(b: u8) -> bool {
    b == 0x2c || b == 0x20 || b == 0x3d || b == 0x5c
}

/// The text from `i` to an unescaped `stop` or space, and where it ends.
pub open spec fn escaped(s: Seq<u8>, i: int, stop: u8) -> (Seq<char>, int)
    decreases s.len() - i,
{
    if i < 0 || i >= s.len() {
        (Seq::<char>::empty(), i)
    } else if s[i] == 0x5c && i + 1 < s.len() && escapable(s[i + 1]) {
        let rest = escaped(s, i + 2, stop);
        (seq![s[i + 1] as char] + rest.0, rest.1)
    } else if s[i] == stop || s[i] == 0x20 {
        (Seq::<char>::empty(), i)
    } else {
        let rest = escaped(s, i + 1, stop);
        (seq![s[i] as char] + rest.0, rest.1)
    }
}

proof fn lemma_escaped_ends(s: Seq<u8>, i: int, stop: u8)
    requires
        0 <= i <= s.len(),
    ensures
        i <= escaped(s, i, stop).1 <= s.len(),
    decreases s.len() - i,
{
    if i < s.len() {
        if s[i] == 0x5c && i + 1 < s.len() && escapable(s[i + 1]) {
            lemma_escaped_ends(s, i + 2, stop);
        } else if !(s[i] == stop || s[i] == 0x20) {
            lemma_escaped_ends(s, i + 1, stop);
        }
    }
}

/// The text of a quoted field from `i`, and the position behind its closing
/// quote; nothing where the quote is not closed.
pub open spec fn quoted(s: Seq<u8>, i: int) -> Option<(Seq<char>, int)>
    decreases s.len() - i,
{
    if i < 0 || i >= s.len() {
        None
    } else if s[i] == 0x5c && i + 1 < s.len() {
        match quoted(s, i + 2) {
            Some((t, e)) => Some((seq![s[i + 1] as char] + t, e)),
            None => None,
        }
    } else if s[i] == 0x22 {
        Some((Seq::<char>::empty(), i + 1))
    } else {
        match quoted(s, i + 1) {
            Some((t, e)) => Some((seq![s[i] as char] + t, e)),
            None => None,
        }
    }
}

proof fn lemma_quoted_ends(s: Seq<u8>, i: int)
    requires
        0 <= i <= s.len(),
    ensures
        quoted(s, i) matches Some((t, e)) ==> i < e <= s.len(),
    decreases s.len() - i,
{
    if i < s.len() {
        if s[i] == 0x5c && i + 1 < s.len() {
            lemma_quoted_ends(s, i + 2);
        } else if s[i] != 0x22 {
            lemma_quoted_ends(s, i + 1);
        }
    }
}

/// The end of the run from `i` that holds neither a comma nor a space.
pub open spec fn token_end(s: Seq<u8>, i: int) -> int
    decreases s.len() - i,
{
    if i < 0 || i >= s.len() || s[i] == 0x2c || s[i] == 0x20 {
        i
    } else {
        token_end(s, i + 1)
    }
}

/// The end of the run of digits from `i`.
pub open spec fn digits_end(s: Seq<char>, i: int) -> int
    decreases s.len() - i,
{
    if 0 <= i < s.len() && text::is_digit(s[i]) {
        digits_end(s, i + 1)
    } else {
        i
    }
}

/// The end of a number's part before its exponent: digits with at most one
/// point among them, and at least one digit.
pub open spec fn mantissa_end(s: Seq<char>) -> Option<int> {
    let a = digits_end(s, 0);
    if a < s.len() && s[a] == '.' {
        let b = digits_end(s, a + 1);
        if a > 0 || b > a + 1 {
            Some(b)
        } else {
            None
        }
    } else if a > 0 {
        Some(a)
    } else {
        None
    }
}

/// Whether the text from `i` is nothing or an exponent.
pub open spec fn exponent_from(s: Seq<char>, i: int) -> bool {
    if i >= s.len() {
        i == s.len()
    } else {
        let k = if i + 1 < s.len() && (s[i + 1] == '+' || s[i + 1] == '-') {
            i + 2
        } else {
            i + 1
        };
        (s[i] == 'e' || s[i] == 'E') && k < s.len() && digits_end(s, k) == s.len()
    }
}

/// Whether a text is a float's numeral: an optional sign, then `inf`,
/// `infinity` or `nan` in any case, or digits with an optional point and an
/// optional exponent.
pub open spec fn is_float(s: Seq<char>) -> bool {
    let t = if s.len() > 0 && (s[0] == '+' || s[0] == '-') {
        s.drop_first()
    } else {
        s
    };
    ||| text::lowered(t) == "inf"@
    ||| text::lowered(t) == "infinity"@
    ||| text::lowered(t) == "nan"@
    ||| (mantissa_end(t) matches Some(e) && exponent_from(t, e))
}

/// The value that an unquoted token spells, or why it spells none.
pub open spec fn token_value(t: Seq<char>) -> Result<FieldView, Seq<char>> {
    if t.len() == 0 {
        Err("empty field value"@)
    } else if t == "t"@ || t == "T"@ || t == "true"@ || t == "True"@ || t == "TRUE"@ {
        Ok(FieldView::Bool(true))
    } else if t == "f"@ || t == "F"@ || t == "false"@ || t == "False"@ || t == "FALSE"@ {
        Ok(FieldView::Bool(false))
    } else if t.last() == 'i' {
        match text::signed_of(t.drop_last()) {
            Some(n) => Ok(FieldView::Int(n as i64)),
            None => Err("bad integer "@ + text::debug_text(t)),
        }
    } else if t.last() == 'u' {
        match text::unsigned_of(t.drop_last(), u64::MAX as nat) {
            Some(n) => Ok(FieldView::UInt(n as u64)),
            None => Err("bad uinteger "@ + text::debug_text(t)),
        }
    } else if is_float(t) {
        Ok(FieldView::Float(FloatView::Numeral(t)))
    } else {
        Err("bad float "@ + text::debug_text(t))
    }
}

/// The field value at `i` and where it ends, or why there is none.
pub open spec fn value_at(s: Seq<u8>, i: int) -> Result<(FieldView, int), Seq<char>> {
    if 0 <= i < s.len() && s[i] == 0x22 {
        match quoted(s, i + 1) {
            Some((t, e)) => Ok((FieldView::Str(t), e)),
            None => Err("unterminated string field"@),
        }
    } else {
        let e = token_end(s, i);
        let b = s.subrange(i, e);
        if !valid_utf8(b) {
            Err("invalid utf8"@)
        } else {
            match token_value(decode_utf8(b)) {
                Ok(v) => Ok((v, e)),
                Err(m) => Err(m),
            }
        }
    }
}

/// The tags from `i` on, behind those of `done`, and where they end.
pub open spec fn tags_at(
    s: Seq<u8>,
    i: int,
    done: Seq<(Seq<char>, Seq<char>)>,
) -> Result<(Seq<(Seq<char>, Seq<char>)>, int), Seq<char>>
    decreases s.len() - i,
    when 0 <= i <= s.len()
    via tags_at_ends
{
    if i < s.len() && s[i] == 0x2c {
        let (k, e) = escaped(s, i + 1, 0x3d);
        if e >= s.len() || s[e] != 0x3d {
            Err("tag '"@ + k + "' has no value"@)
        } else {
            let (v, f) = escaped(s, e + 1, 0x2c);
            tags_at(s, f, done.push((k, v)))
        }
    } else {
        Ok((done, i))
    }
}

#[via_fn]
proof fn tags_at_ends(s: Seq<u8>, i: int, done: Seq<(Seq<char>, Seq<char>)>) {
    if i < s.len() && s[i] == 0x2c {
        lemma_escaped_ends(s, i + 1, 0x3d);
        let e = escaped(s, i + 1, 0x3d).1;
        if e < s.len() {
            lemma_escaped_ends(s, e + 1, 0x2c);
        }
    }
}

proof fn lemma_token_ends(s: Seq<u8>, i: int)
    requires
        0 <= i <= s.len(),
    ensures
        i <= token_end(s, i) <= s.len(),
    decreases s.len() - i,
{
    if i < s.len() && !(s[i] == 0x2c || s[i] == 0x20) {
        lemma_token_ends(s, i + 1);
    }
}

proof fn lemma_value_ends(s: Seq<u8>, i: int)
    requires
        0 <= i <= s.len(),
    ensures
        value_at(s, i) matches Ok((v, e)) ==> i <= e <= s.len(),
{
    if i < s.len() && s[i] == 0x22 {
        lemma_quoted_ends(s, i + 1);
    } else {
        lemma_token_ends(s, i);
    }
}

/// The fields from `i` on, behind those of `done`, and where they end.
pub open spec fn fields_at(
    s: Seq<u8>,
    i: int,
    done: Seq<(Seq<char>, FieldView)>,
) -> Result<(Seq<(Seq<char>, FieldView)>, int), Seq<char>>
    decreases s.len() - i,
    when 0 <= i <= s.len()
    via fields_at_ends
{
    let (k, e) = escaped(s, i, 0x3d);
    if e >= s.len() || s[e] != 0x3d {
        Err("field '"@ + k + "' has no value"@)
    } else {
        match value_at(s, e + 1) {
            Err(m) => Err(m),
            Ok((v, f)) => {
                if f < s.len() && s[f] == 0x2c {
                    fields_at(s, f + 1, done.push((k, v)))
                } else {
                    Ok((done.push((k, v)), f))
                }
            },
        }
    }
}

#[via_fn]
proof fn fields_at_ends(s: Seq<u8>, i: int, done: Seq<(Seq<char>, FieldView)>) {
    lemma_escaped_ends(s, i, 0x3d);
    let e = escaped(s, i, 0x3d).1;
    if e < s.len() {
        lemma_value_ends(s, e + 1);
    }
}

/// The timestamp that a line's rest from `i` gives, or why it gives none.
pub open spec fn timestamp_at(s: Seq<u8>, i: int, mult: i64, default_ts_ns: i64) -> Result<
    i64,
    Seq<char>,
> {
    if 0 <= i < s.len() && s[i] == 0x20 {
        let b = s.skip(i + 1);
        if !valid_utf8(b) {
            Err("invalid utf8 in timestamp"@)
        } else {
            let t = text::trimmed(decode_utf8(b));
            if t.len() == 0 {
                Ok(default_ts_ns)
            } else {
                match text::signed_of(t) {
                    None => Err("bad timestamp "@ + text::debug_text(t)),
                    Some(n) => if i64::MIN <= n * mult <= i64::MAX {
                        Ok((n * mult) as i64)
                    } else {
                        Err("timestamp overflow"@)
                    },
                }
            }
        }
    } else {
        Ok(default_ts_ns)
    }
}

/// The row that one line gives, or why it gives none.
pub open spec fn line_row(s: Seq<u8>, mult: i64, default_ts_ns: i64) -> Result<
    LineView,
    Seq<char>,
> {
    let (table, a) = escaped(s, 0, 0x2c);
    if table.len() == 0 {
        Err("empty measurement"@)
    } else {
        match tags_at(s, a, Seq::empty()) {
            Err(m) => Err(m),
            Ok((tags, b)) => if b >= s.len() || s[b] != 0x20 {
                Err("no field set"@)
            } else {
                match fields_at(s, b + 1, Seq::empty()) {
                    Err(m) => Err(m),
                    Ok((fields, c)) => match timestamp_at(s, c, mult, default_ts_ns) {
                        Err(m) => Err(m),
                        Ok(timestamp_ns) => Ok(LineView { table, tags, fields, timestamp_ns }),
                    },
                }
            },
        }
    }
}

/// A line without the carriage returns at its end.
pub open spec fn without_returns(s: Seq<char>) -> Seq<char>
    decreases s.len(),
{
    if s.len() > 0 && s.last() == '\r' {
        without_returns(s.drop_last())
    } else {
        s
    }
}

/// Whether a line holds no row: it is empty or a comment.
pub open spec fn skipped(line: Seq<char>) -> bool {
    line.len() == 0 || line[0] == '#'
}

/// The rows of a list of lines in order, or the number of the first line that
/// gives none, with the reason.
pub open spec fn rows_of(lines: Seq<Seq<char>>, mult: i64, default_ts_ns: i64) -> Result<
    Seq<LineView>,
    (nat, Seq<char>),
>
    decreases lines.len(),
{
    if lines.len() == 0 {
        Ok(Seq::empty())
    } else {
        match rows_of(lines.drop_last(), mult, default_ts_ns) {
            Err(e) => Err(e),
            Ok(done) => {
                let line = without_returns(lines.last());
                if skipped(line) {
                    Ok(done)
                } else {
                    match line_row(encode_utf8(line), mult, default_ts_ns) {
                        Ok(row) => Ok(done.push(row)),
                        Err(m) => Err((lines.len(), m + " in "@ + text::debug_text(line))),
                    }
                }
            },
        }
    }
}

/// What `parse_lines` makes of a request body.
pub open spec fn body_rows(input: Seq<char>, mult: i64, default_ts_ns: i64) -> Result<
    Seq<LineView>,
    (nat, Seq<char>),
> {
    rows_of(text::split_on(input, '\n'), mult, default_ts_ns)
}

// -------------------------------------------------------------- the parser

/// Reads from `start` to an unescaped `stop` or space.
fn take_escaped(bytes: &[u8], start: usize, stop: u8) -> (r: (String, usize))
    requires
        start <= bytes.len(),
    ensures
        (r.0@, r.1 as int) == escaped(bytes@, start as int, stop),
        start <= r.1 <= bytes.len(),
{
    let mut s = String::new();
    let mut pos: usize = start;
    let ghost all = escaped(bytes@, start as int, stop);
    assert(s@ + all.0 =~= all.0);
    while pos < bytes.len()
        invariant
            start <= pos <= bytes.len(),
            all.0 == s@ + escaped(bytes@, pos as int, stop).0,
            all.1 == escaped(bytes@, pos as int, stop).1,
        ensures
            start <= pos <= bytes.len(),
            all == (s@, pos as int),
        decreases bytes.len() - pos,
    {
        let b: u8 = bytes[pos];
        let ghost rest = escaped(bytes@, pos as int, stop).0;
        let ghost done = s@;
        if b == 0x5c && pos + 1 < bytes.len() {
            let n: u8 = bytes[pos + 1];
            if n == 0x2c || n == 0x20 || n == 0x3d || n == 0x5c {
                s.push(n as char);
                pos += 2;
                assert(done + rest =~= s@ + escaped(bytes@, pos as int, stop).0);
                continue;
            }
        }
        if b == stop || b == 0x20 {
            assert(s@ + rest =~= s@);
            break;
        }
        s.push(b as char);
        pos += 1;
        assert(done + rest =~= s@ + escaped(bytes@, pos as int, stop).0);
    }
    assert(all.0 =~= s@);
    (s, pos)
}

/// Reads a quoted field whose opening quote stands before `start`.
fn take_quoted(bytes: &[u8], start: usize) -> (r: Option<(String, usize)>)
    requires
        start <= bytes.len(),
    ensures
        match (r, quoted(bytes@, start as int)) {
            (Some((s, e)), Some((t, f))) => s@ == t && e == f && e <= bytes.len(),
            (None, None) => true,
            _ => false,
        },
{
    let mut s = String::new();
    let mut pos: usize = start;
    let ghost all = quoted(bytes@, start as int);
    proof {
        if let Some((t, e)) = all {
            assert(s@ + t =~= t);
        }
    }
    while pos < bytes.len()
        invariant
            start <= pos <= bytes.len(),
            all == quoted(bytes@, start as int),
            match (all, quoted(bytes@, pos as int)) {
                (Some((t, e)), Some((rest, f))) => t == s@ + rest && e == f,
                (None, None) => true,
                _ => false,
            },
        decreases bytes.len() - pos,
    {
        let b: u8 = bytes[pos];
        let ghost done = s@;
        let ghost here = quoted(bytes@, pos as int);
        if b == 0x5c && pos + 1 < bytes.len() {
            s.push(bytes[pos + 1] as char);
            pos += 2;
        } else if b == 0x22 {
            assert(s@ + Seq::<char>::empty() =~= s@);
            return Some((s, pos + 1));
        } else {
            s.push(b as char);
            pos += 1;
        }
        proof {
            if let Some((rest, f)) = quoted(bytes@, pos as int) {
                assert(here is Some);
                assert(done + here->Some_0.0 =~= s@ + rest);
            }
        }
    }
    None
}

/// The end of the run of digits from `i`.
fn skip_digits(v: &Vec<char>, i: usize) -> (r: usize)
    requires
        i <= v.len(),
    ensures
        r == digits_end(v@, i as int),
        i <= r <= v.len(),
{
    let mut j: usize = i;
    while j < v.len() && '0' <= v[j] && v[j] <= '9'
        invariant
            i <= j <= v.len(),
            digits_end(v@, i as int) == digits_end(v@, j as int),
        decreases v.len() - j,
    {
        j += 1;
    }
    j
}

/// Whether `t` is a float's numeral.
fn float_numeral(t: &str) -> (r: bool)
    ensures
        r == is_float(t@),
{
    let all = text::chars_of(t);
    let lo: usize = if all.len() > 0 && (all[0] == '+' || all[0] == '-') {
        1
    } else {
        0
    };
    let body = text::slice_text(&all, lo, all.len());
    assert(lo == 0 ==> body@ =~= t@);
    assert(lo == 1 ==> body@ =~= t@.drop_first());
    let low = text::lower(body.as_str());
    if text::same(low.as_str(), "inf") || text::same(low.as_str(), "infinity") || text::same(
        low.as_str(),
        "nan",
    ) {
        return true;
    }
    let v = text::chars_of(body.as_str());
    let a: usize = skip_digits(&v, 0);
    let end: usize = if a < v.len() && v[a] == '.' {
        let b: usize = skip_digits(&v, a + 1);
        if !(a > 0 || b > a + 1) {
            return false;
        }
        b
    } else {
        if a == 0 {
            return false;
        }
        a
    };
    if end == v.len() {
        return true;
    }
    let k: usize = if end + 1 < v.len() && (v[end + 1] == '+' || v[end + 1] == '-') {
        end + 2
    } else {
        end + 1
    };
    (v[end] == 'e' || v[end] == 'E') && k < v.len() && skip_digits(&v, k) == v.len()
}

/// The message `lead` followed by `t` in quotes.
fn bad(lead: &str, t: &str) -> (r: String)
    ensures
        r@ == lead@ + text::debug_text(t@),
{
    let mut s = String::from_str(lead);
    s.append(text::quote(t).as_str());
    s
}

/// Whether a reading agrees with what it is stated to be.
pub open spec fn reads_as(r: Result<FieldValue, String>, v: Result<FieldView, Seq<char>>) -> bool {
    match (r, v) {
        (Ok(x), Ok(y)) => x@ == y,
        (Err(x), Err(y)) => x@ == y,
        _ => false,
    }
}

/// The value that an unquoted token spells.
fn read_token(t: &str) -> (r: Result<FieldValue, String>)
    ensures
        reads_as(r, token_value(t@)),
{
    if t.is_empty() {
        return Err(String::from_str("empty field value"));
    }
    if text::same(t, "t") || text::same(t, "T") || text::same(t, "true") || text::same(t, "True")
        || text::same(t, "TRUE") {
        return Ok(FieldValue::Bool(true));
    }
    if text::same(t, "f") || text::same(t, "F") || text::same(t, "false") || text::same(t, "False")
        || text::same(t, "FALSE") {
        return Ok(FieldValue::Bool(false));
    }
    let v = text::chars_of(t);
    let last = v[v.len() - 1];
    let num = text::slice_text(&v, 0, v.len() - 1);
    assert(num@ =~= t@.drop_last());
    if last == 'i' {
        return match text::read_signed(num.as_str()) {
            Some(n) => Ok(FieldValue::Int(n)),
            None => Err(bad("bad integer ", t)),
        };
    }
    if last == 'u' {
        return match text::read_unsigned(num.as_str(), u64::MAX) {
            Some(n) => Ok(FieldValue::UInt(n)),
            None => Err(bad("bad uinteger ", t)),
        };
    }
    if float_numeral(t) {
        Ok(FieldValue::Float(Float::Numeral(t.to_owned())))
    } else {
        Err(bad("bad float ", t))
    }
}

/// Reads the field value at `start`.
fn take_field_value(bytes: &[u8], start: usize) -> (r: Result<(FieldValue, usize), String>)
    requires
        start <= bytes.len(),
    ensures
        match (r, value_at(bytes@, start as int)) {
            (Ok((v, e)), Ok((w, f))) => v@ == w && e == f && start <= e <= bytes.len(),
            (Err(m), Err(t)) => m@ == t,
            _ => false,
        },
{
    proof {
        lemma_value_ends(bytes@, start as int);
    }
    if start < bytes.len() && bytes[start] == 0x22 {
        return match take_quoted(bytes, start + 1) {
            Some((s, e)) => Ok((FieldValue::Str(s), e)),
            None => Err(String::from_str("unterminated string field")),
        };
    }
    let mut pos: usize = start;
    while pos < bytes.len() && bytes[pos] != 0x2c && bytes[pos] != 0x20
        invariant
            start <= pos <= bytes.len(),
            token_end(bytes@, start as int) == token_end(bytes@, pos as int),
        decreases bytes.len() - pos,
    {
        pos += 1;
    }
    let part: &[u8] = vstd::slice::slice_subrange(bytes, start, pos);
    match text::text_of_bytes(part) {
        None => Err(String::from_str("invalid utf8")),
        Some(t) => match read_token(t.as_str()) {
            Ok(v) => Ok((v, pos)),
            Err(m) => Err(m),
        },
    }
}

/// The message `lead`, `key` and `tail` in a row.
fn about(lead: &str, key: &str, tail: &str) -> (r: String)
    ensures
        r@ == lead@ + key@ + tail@,
{
    let mut s = String::from_str(lead);
    s.append(key);
    s.append(tail);
    s
}

/// Reads the tags at `start`.
fn take_tags(bytes: &[u8], start: usize) -> (r: Result<(Vec<(String, String)>, usize), String>)
    requires
        start <= bytes.len(),
    ensures
        match (r, tags_at(bytes@, start as int, Seq::empty())) {
            (Ok((v, e)), Ok((w, f))) => tag_views(v@) == w && e == f && e <= bytes.len(),
            (Err(m), Err(t)) => m@ == t,
            _ => false,
        },
{
    let mut tags: Vec<(String, String)> = Vec::new();
    let mut pos: usize = start;
    let ghost all = tags_at(bytes@, start as int, Seq::empty());
    assert(tag_views(tags@) =~= Seq::empty());
    while pos < bytes.len() && bytes[pos] == 0x2c
        invariant
            start <= pos <= bytes.len(),
            all == tags_at(bytes@, start as int, Seq::empty()),
            all == tags_at(bytes@, pos as int, tag_views(tags@)),
        decreases bytes.len() - pos,
    {
        let (key, e): (String, usize) = take_escaped(bytes, pos + 1, 0x3d);
        if e >= bytes.len() || bytes[e] != 0x3d {
            return Err(about("tag '", key.as_str(), "' has no value"));
        }
        let (val, f): (String, usize) = take_escaped(bytes, e + 1, 0x2c);
        let ghost done = tag_views(tags@);
        tags.push((key, val));
        assert(tag_views(tags@) =~= done.push((key@, val@)));
        pos = f;
    }
    Ok((tags, pos))
}

/// Reads the fields at `start`.
fn take_fields(bytes: &[u8], start: usize) -> (r: Result<
    (Vec<(String, FieldValue)>, usize),
    String,
>)
    requires
        start <= bytes.len(),
    ensures
        match (r, fields_at(bytes@, start as int, Seq::empty())) {
            (Ok((v, e)), Ok((w, f))) => field_views(v@) == w && e == f && e <= bytes.len(),
            (Err(m), Err(t)) => m@ == t,
            _ => false,
        },
{
    let mut fields: Vec<(String, FieldValue)> = Vec::new();
    let mut pos: usize = start;
    let ghost all = fields_at(bytes@, start as int, Seq::empty());
    assert(field_views(fields@) =~= Seq::empty());
    loop
        invariant
            start <= pos <= bytes.len(),
            all == fields_at(bytes@, start as int, Seq::empty()),
            all == fields_at(bytes@, pos as int, field_views(fields@)),
        decreases bytes.len() - pos,
    {
        let (key, e): (String, usize) = take_escaped(bytes, pos, 0x3d);
        if e >= bytes.len() || bytes[e] != 0x3d {
            return Err(about("field '", key.as_str(), "' has no value"));
        }
        let ghost done = field_views(fields@);
        match take_field_value(bytes, e + 1) {
            Err(m) => {
                return Err(m);
            },
            Ok((val, f)) => {
                fields.push((key, val));
                assert(field_views(fields@) =~= done.push((key@, val@)));
                if f < bytes.len() && bytes[f] == 0x2c {
                    pos = f + 1;
                } else {
                    return Ok((fields, f));
                }
            },
        }
    }
}

/// Reads the timestamp at `start`.
fn take_timestamp(bytes: &[u8], start: usize, mult: i64, default_ts_ns: i64) -> (r: Result<
    i64,
    String,
>)
    requires
        start <= bytes.len(),
    ensures
        match (r, timestamp_at(bytes@, start as int, mult, default_ts_ns)) {
            (Ok(x), Ok(y)) => x == y,
            (Err(m), Err(t)) => m@ == t,
            _ => false,
        },
{
    if !(start < bytes.len() && bytes[start] == 0x20) {
        return Ok(default_ts_ns);
    }
    let part: &[u8] = vstd::slice::slice_subrange(bytes, start + 1, bytes.len());
    assert(part@ =~= bytes@.skip(start + 1));
    match text::text_of_bytes(part) {
        None => Err(String::from_str("invalid utf8 in timestamp")),
        Some(whole) => {
            let ts = text::trim(whole.as_str());
            if ts.as_str().is_empty() {
                return Ok(default_ts_ns);
            }
            match text::read_signed(ts.as_str()) {
                None => Err(bad("bad timestamp ", ts.as_str())),
                Some(n) => match n.checked_mul(mult) {
                    Some(t) => Ok(t),
                    None => Err(String::from_str("timestamp overflow")),
                },
            }
        },
    }
}

/// Whether the reading of one line agrees with what it is stated to be.
pub open spec fn parses_as(r: Result<ParsedLine, String>, v: Result<LineView, Seq<char>>) -> bool {
    match (r, v) {
        (Ok(x), Ok(y)) => x@ == y,
        (Err(x), Err(y)) => x@ == y,
        _ => false,
    }
}

/// The row that one line gives.
pub fn parse_line(line: &str, mult: i64, default_ts_ns: i64) -> (r: Result<ParsedLine, String>)
    ensures
        parses_as(r, line_row(encode_utf8(line@), mult, default_ts_ns)),
{
    let bytes: &[u8] = line.as_bytes();
    let (table, a): (String, usize) = take_escaped(bytes, 0, 0x2c);
    if table.as_str().is_empty() {
        return Err(String::from_str("empty measurement"));
    }
    let (tags, b): (Vec<(String, String)>, usize) = match take_tags(bytes, a) {
        Ok(x) => x,
        Err(m) => {
            return Err(m);
        },
    };
    if b >= bytes.len() || bytes[b] != 0x20 {
        return Err(String::from_str("no field set"));
    }
    let (fields, c): (Vec<(String, FieldValue)>, usize) = match take_fields(bytes, b + 1) {
        Ok(x) => x,
        Err(m) => {
            return Err(m);
        },
    };
    match take_timestamp(bytes, c, mult, default_ts_ns) {
        Ok(timestamp_ns) => Ok(ParsedLine { table, tags, fields, timestamp_ns }),
        Err(m) => Err(m),
    }
}

/// The first line that gives no row decides, whatever stands behind it.
proof fn lemma_first_error_stays(lines: Seq<Seq<char>>, k: int, mult: i64, default_ts_ns: i64)
    requires
        0 <= k <= lines.len(),
        rows_of(lines.take(k), mult, default_ts_ns) is Err,
    ensures
        rows_of(lines, mult, default_ts_ns) == rows_of(lines.take(k), mult, default_ts_ns),
    decreases lines.len(),
{
    if k == lines.len() {
        assert(lines.take(k) =~= lines);
    } else {
        assert(lines.drop_last().take(k) =~= lines.take(k));
        lemma_first_error_stays(lines.drop_last(), k, mult, default_ts_ns);
    }
}

/// The rows of a list.
pub open spec fn row_views(rows: Seq<ParsedLine>) -> Seq<LineView> {
    rows.map_values(|r: ParsedLine| r@)
}

/// `line` without the carriage returns at its end.
fn strip_returns(line: &str) -> (r: String)
    ensures
        r@ == without_returns(line@),
{
    let v = text::chars_of(line);
    let mut hi: usize = v.len();
    assert(v@.subrange(0, v@.len() as int) =~= v@);
    while hi > 0 && v[hi - 1] == '\r'
        invariant
            hi <= v.len(),
            without_returns(v@) == without_returns(v@.subrange(0, hi as int)),
        decreases hi,
    {
        assert(v@.subrange(0, hi as int).drop_last() =~= v@.subrange(0, hi - 1));
        hi -= 1;
    }
    text::slice_text(&v, 0, hi)
}

/// Reads a whole request body. `mult` scales timestamps to nanoseconds; lines
/// without a timestamp get `default_ts_ns`.
pub fn parse_lines(input: &str, mult: i64, default_ts_ns: i64) -> (r: Result<
    Vec<ParsedLine>,
    ParseError,
>)
    ensures
        match (r, body_rows(input@, mult, default_ts_ns)) {
            (Ok(rows), Ok(views)) => row_views(rows@) == views,
            (Err(e), Err((line_no, m))) => e.line_no == line_no && e.msg@ == m,
            _ => false,
        },
{
    let pieces = text::split(input, '\n');
    let ghost lines = text::texts(pieces@);
    let mut out: Vec<ParsedLine> = Vec::new();
    let mut i: usize = 0;
    assert(row_views(out@) =~= Seq::empty());
    while i < pieces.len()
        invariant
            i <= pieces.len(),
            lines == text::texts(pieces@),
            lines == text::split_on(input@, '\n'),
            rows_of(lines.take(i as int), mult, default_ts_ns) == Ok::<
                Seq<LineView>,
                (nat, Seq<char>),
            >(row_views(out@)),
        decreases pieces.len() - i,
    {
        proof {
            assert(lines.take(i + 1).drop_last() =~= lines.take(i as int));
            assert(lines.take(i + 1).last() == pieces@[i as int]@);
        }
        let line = strip_returns(pieces[i].as_str());
        let first = text::chars_of(line.as_str());
        if first.len() > 0 && first[0] != '#' {
            match parse_line(line.as_str(), mult, default_ts_ns) {
                Ok(row) => {
                    let ghost done = row_views(out@);
                    out.push(row);
                    assert(row_views(out@) =~= done.push(row@));
                },
                Err(m) => {
                    let mut msg = m;
                    msg.append(" in ");
                    msg.append(text::quote(line.as_str()).as_str());
                    proof {
                        lemma_first_error_stays(lines, i + 1, mult, default_ts_ns);
                    }
                    return Err(ParseError { line_no: i + 1, msg });
                },
            }
        }
        i += 1;
    }
    assert(lines.take(lines.len() as int) =~= lines);
    Ok(out)
}

/// What a value is seen as is the value itself.
pub proof fn a_value_is_seen_as_itself(n: i64, u: u64, b: bool, s: String, bits: u64)
    ensures
        FieldValue::Int(n)@ == FieldView::Int(n),
        FieldValue::UInt(u)@ == FieldView::UInt(u),
        FieldValue::Bool(b)@ == FieldView::Bool(b),
        FieldValue::Str(s)@ == FieldView::Str(s@),
        FieldValue::Float(Float::Numeral(s))@ == FieldView::Float(FloatView::Numeral(s@)),
        FieldValue::Float(Float::Bits(bits))@ == FieldView::Float(FloatView::Bits(bits)),
{
}

} // verus!
