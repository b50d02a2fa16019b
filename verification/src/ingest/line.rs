//! How a row is written as a line, and that the line reads as the row.
use crate::ingest;
use crate::ingest::{FieldView, FloatView, LineView};
use crate::text;
use vstd::prelude::*;
use vstd::utf8::*;

verus! {

// -------------------------------------------------------------------- values

/// A run of digits, which may be empty.
pub open spec fn digits(s: Seq<char>) -> bool {
    forall|i: int| 0 <= i < s.len() ==> '0' <= #[trigger] s[i] <= '9'
}

/// A sign or none.
pub open spec fn sign(s: Seq<char>) -> bool {
    s == Seq::<char>::empty() || s == seq!['+'] || s == seq!['-']
}

/// Whether two texts differ at most in capitals; `low` has none.
pub open spec fn same_word(t: Seq<char>, low: Seq<char>) -> bool {
    t.len() == low.len() && forall|i: int|
        0 <= i < t.len() ==> (#[trigger] t[i] == low[i] || 'A' <= t[i] <= 'Z' && t[i] as u32 + 32
            == low[i] as u32)
}

/// An exponent: its letter, a sign or none, and digits.
pub open spec fn exponent(letter: char, s: Seq<char>, e: Seq<char>) -> Seq<char> {
    seq![letter] + s + e
}

/// Whether a text is an exponent or nothing.
pub open spec fn is_exponent(t: Seq<char>) -> bool {
    t.len() == 0 || exists|letter: char, s: Seq<char>, e: Seq<char>|
        (letter == 'e' || letter == 'E') && sign(s) && digits(e) && e.len() > 0 && t
            == #[trigger] exponent(letter, s, e)
}

/// Whether a text is a number made of these parts: digits, or digits around a
/// point with one at least, and an exponent or none behind them.
pub open spec fn made_of(t: Seq<char>, a: Seq<char>, b: Seq<char>, e: Seq<char>) -> bool {
    &&& digits(a)
    &&& digits(b)
    &&& a.len() + b.len() > 0
    &&& is_exponent(e)
    &&& t == magnitude(a, b, e, true) || b.len() == 0 && t == magnitude(a, b, e, false)
}

/// Whether a text is a number without a sign.
pub open spec fn is_magnitude(t: Seq<char>) -> bool {
    exists|a: Seq<char>, b: Seq<char>, e: Seq<char>| #[trigger] made_of(t, a, b, e)
}

/// A number without a sign, from its parts.
pub open spec fn magnitude(a: Seq<char>, b: Seq<char>, e: Seq<char>, point: bool) -> Seq<char> {
    if point {
        a + seq!['.'] + b + e
    } else {
        a + e
    }
}

/// Whether a text is the numeral of a float.
pub open spec fn is_numeral(t: Seq<char>) -> bool {
    exists|s: Seq<char>, m: Seq<char>|
        sign(s) && t == #[trigger] (s + m) && (is_magnitude(m) || same_word(m, seq!['i', 'n', 'f'])
            || same_word(m, seq!['n', 'a', 'n']) || same_word(
            m,
            seq!['i', 'n', 'f', 'i', 'n', 'i', 't', 'y'],
        ))
}

proof fn lemma_digits_end(s: Seq<char>, p: int, d: Seq<char>)
    requires
        text::stands(s, p, d),
        digits(d),
        p + d.len() == s.len() || !('0' <= s[p + d.len()] <= '9'),
    ensures
        ingest::digits_end(s, p) == p + d.len(),
    decreases d.len(),
{
    if d.len() > 0 {
        text::elements_stand(s, p, d, 0);
        assert('0' <= d[0] <= '9');
        let rest = d.drop_first();
        assert(d =~= seq![d[0]] + rest);
        text::parts_stand(s, p, seq![d[0]], rest);
        assert forall|i: int| 0 <= i < rest.len() implies '0' <= #[trigger] rest[i] <= '9' by {
            assert(rest[i] == d[i + 1]);
        }
        lemma_digits_end(s, p + 1, rest);
    }
}

proof fn lemma_digits_found(s: Seq<char>, p: int)
    requires
        0 <= p <= s.len(),
    ensures
        p <= ingest::digits_end(s, p) <= s.len(),
        digits(s.subrange(p, ingest::digits_end(s, p))),
        ingest::digits_end(s, p) < s.len() ==> !('0' <= s[ingest::digits_end(s, p)] <= '9'),
    decreases s.len() - p,
{
    if p < s.len() && text::is_digit(s[p]) {
        lemma_digits_found(s, p + 1);
        let e = ingest::digits_end(s, p);
        let d = s.subrange(p, e);
        let rest = s.subrange(p + 1, e);
        assert forall|i: int| 0 <= i < d.len() implies '0' <= #[trigger] d[i] <= '9' by {
            if i > 0 {
                assert(rest[i - 1] == d[i]);
            }
        }
    }
}

proof fn lemma_exponent_parts(t: Seq<char>) -> (r: (char, Seq<char>, Seq<char>))
    requires
        is_exponent(t),
        t.len() > 0,
    ensures
        r.0 == 'e' || r.0 == 'E',
        sign(r.1),
        digits(r.2),
        r.2.len() > 0,
        t == exponent(r.0, r.1, r.2),
        t[0] == r.0,
        t.len() == 1 + r.1.len() + r.2.len(),
        r.1.len() > 0 ==> t[1] == r.1[0],
        forall|j: int| 0 <= j < r.2.len() ==> t[1 + r.1.len() + j] == #[trigger] r.2[j],
{
    let (letter, s, e) = choose|letter: char, s: Seq<char>, e: Seq<char>|
        (letter == 'e' || letter == 'E') && sign(s) && digits(e) && e.len() > 0 && t
            == #[trigger] exponent(letter, s, e);
    (letter, s, e)
}

proof fn lemma_magnitude_parts(t: Seq<char>) -> (r: (Seq<char>, Seq<char>, Seq<char>, bool))
    requires
        is_magnitude(t),
    ensures
        digits(r.0),
        digits(r.1),
        r.0.len() + r.1.len() > 0,
        is_exponent(r.2),
        !r.3 ==> r.1.len() == 0,
        t == magnitude(r.0, r.1, r.2, r.3),
{
    let (x, y, e) = choose|x: Seq<char>, y: Seq<char>, e: Seq<char>| #[trigger]
        made_of(t, x, y, e);
    (x, y, e, t == magnitude(x, y, e, true))
}

proof fn lemma_exponent(t: Seq<char>, i: int)
    requires
        0 <= i <= t.len(),
    ensures
        ingest::exponent_from(t, i) <==> is_exponent(t.subrange(i, t.len() as int)),
{
    let rest = t.subrange(i, t.len() as int);
    if i < t.len() {
        if ingest::exponent_from(t, i) {
            let k = if i + 1 < t.len() && (t[i + 1] == '+' || t[i + 1] == '-') {
                i + 2
            } else {
                i + 1
            };
            lemma_digits_found(t, k);
            let s = t.subrange(i + 1, k);
            let e = t.subrange(k, t.len() as int);
            if k == i + 2 {
                assert(s =~= seq![t[i + 1]]);
            } else {
                assert(s =~= Seq::empty());
            }
            assert(rest =~= exponent(t[i], s, e));
        }
        if is_exponent(rest) {
            let (letter, s, e) = lemma_exponent_parts(rest);
            assert(t[i] == rest[0]);
            let k = i + 1 + s.len();
            assert forall|j: int| 0 <= j < e.len() implies t[k + j] == #[trigger] e[j] by {
                assert(rest[1 + s.len() + j] == t[i + (1 + s.len() + j)]);
            }
            assert(t[k] == e[0]);
            assert('0' <= e[0] <= '9');
            if s.len() > 0 {
                assert(rest[1] == t[i + 1]);
            }
            assert(t.subrange(k, k + e.len()) =~= e);
            lemma_digits_end(t, k, e);
        }
    }
}

proof fn lemma_magnitude_found(t: Seq<char>)
    requires
        ingest::mantissa_end(t) matches Some(e) && ingest::exponent_from(t, e),
    ensures
        is_magnitude(t),
{
    let none = Seq::<char>::empty();
    lemma_digits_found(t, 0);
    let a = ingest::digits_end(t, 0);
    if let Some(e) = ingest::mantissa_end(t) {
        if ingest::exponent_from(t, e) {
            let whole = t.subrange(0, a);
            if a < t.len() && t[a] == '.' {
                lemma_digits_found(t, a + 1);
                let part = t.subrange(a + 1, e);
                let rest = t.subrange(e, t.len() as int);
                lemma_exponent(t, e);
                assert(t =~= magnitude(whole, part, rest, true));
                assert(made_of(t, whole, part, rest));
            } else {
                let rest = t.subrange(a, t.len() as int);
                lemma_exponent(t, a);
                assert(t =~= magnitude(whole, none, rest, false));
                assert(made_of(t, whole, none, rest));
            }
        }
    }
}

proof fn lemma_magnitude(t: Seq<char>)
    ensures
        is_magnitude(t) <==> (ingest::mantissa_end(t) matches Some(e) && ingest::exponent_from(
            t,
            e,
        )),
{
    if ingest::mantissa_end(t) matches Some(e) && ingest::exponent_from(t, e) {
        lemma_magnitude_found(t);
    }
    if is_magnitude(t) {
        let (x, y, e, point) = lemma_magnitude_parts(t);
        if e.len() > 0 {
            let parts = lemma_exponent_parts(e);
        }
        assert(t.subrange(0, x.len() as int) =~= x);
        if point {
            let p = x.len() as int;
            let q = p + 1 + y.len();
            assert(t[p] == '.');
            lemma_digits_end(t, 0, x);
            assert(t.subrange(p + 1, q) =~= y);
            if q < t.len() {
                assert(t[q] == e[0]);
            }
            lemma_digits_end(t, p + 1, y);
            assert(t.subrange(q, t.len() as int) =~= e);
            lemma_exponent(t, q);
        } else {
            let p = x.len() as int;
            if p < t.len() {
                assert(t[p] == e[0]);
            }
            lemma_digits_end(t, 0, x);
            assert(t.subrange(p, t.len() as int) =~= e);
            lemma_exponent(t, p);
        }
    }
}

proof fn lemma_small(c: char, low: char)
    requires
        'a' <= low <= 'z',
    ensures
        text::small(c) == low <==> (c == low || 'A' <= c <= 'Z' && c as u32 + 32 == low as u32),
{
}

proof fn lemma_word(t: Seq<char>, low: Seq<char>)
    requires
        forall|i: int| 0 <= i < low.len() ==> 'a' <= #[trigger] low[i] <= 'z',
    ensures
        same_word(t, low) <==> text::lowered(t) == low,
{
    if same_word(t, low) {
        assert forall|i: int| 0 <= i < t.len() implies text::lowered(t)[i] == low[i] by {
            lemma_small(t[i], low[i]);
        }
        assert(text::lowered(t) =~= low);
    }
    if text::lowered(t) == low {
        assert forall|i: int| 0 <= i < t.len() implies (#[trigger] t[i] == low[i] || 'A' <= t[i]
            <= 'Z' && t[i] as u32 + 32 == low[i] as u32) by {
            assert(text::lowered(t)[i] == low[i]);
            lemma_small(t[i], low[i]);
        }
    }
}

/// The numerals of floats are exactly these: a sign or none, and a number in
/// digits, with a point among them or none and an exponent behind them or none,
/// or the word `inf`, `infinity` or `nan` in capitals or not.
pub proof fn these_are_the_float_numerals(t: Seq<char>)
    ensures
        ingest::is_float(t) <==> is_numeral(t),
{
    reveal_strlit("inf");
    reveal_strlit("nan");
    reveal_strlit("infinity");
    let none = Seq::<char>::empty();
    let cut = if t.len() > 0 && (t[0] == '+' || t[0] == '-') {
        t.drop_first()
    } else {
        t
    };
    let head = if t.len() > 0 && (t[0] == '+' || t[0] == '-') {
        seq![t[0]]
    } else {
        none
    };
    assert(t =~= head + cut);
    let inf = seq!['i', 'n', 'f'];
    let nan = seq!['n', 'a', 'n'];
    let infinity = seq!['i', 'n', 'f', 'i', 'n', 'i', 't', 'y'];
    assert("inf"@ =~= inf);
    assert("nan"@ =~= nan);
    assert("infinity"@ =~= infinity);
    lemma_word(cut, inf);
    lemma_word(cut, nan);
    lemma_word(cut, infinity);
    lemma_magnitude(cut);
    if is_numeral(t) {
        let (s, m) = choose|s: Seq<char>, m: Seq<char>|
            sign(s) && t == #[trigger] (s + m) && (is_magnitude(m) || same_word(m, inf)
                || same_word(m, nan) || same_word(m, infinity));
        lemma_magnitude(m);
        lemma_word(m, inf);
        lemma_word(m, nan);
        lemma_word(m, infinity);
        assert(m.len() > 0 && m[0] != '+' && m[0] != '-') by {
            if is_magnitude(m) {
                let a = ingest::digits_end(m, 0);
                lemma_digits_found(m, 0);
                if a > 0 {
                    assert('0' <= m.subrange(0, a)[0] <= '9');
                    assert(m.subrange(0, a)[0] == m[0]);
                }
            }
        }
        if s.len() == 0 {
            assert(t =~= m);
        } else {
            assert(t[0] == s[0]);
            assert(t.drop_first() =~= m);
        }
        assert(cut == m);
    }
}

/// Whether an unquoted token spells a value.
pub open spec fn spells(t: Seq<char>, v: FieldView) -> bool {
    match v {
        FieldView::Bool(true) => t == "t"@ || t == "T"@ || t == "true"@ || t == "True"@ || t
            == "TRUE"@,
        FieldView::Bool(false) => t == "f"@ || t == "F"@ || t == "false"@ || t == "False"@ || t
            == "FALSE"@,
        FieldView::Int(n) => exists|s: Seq<char>, d: Seq<char>|
            sign(s) && text::all_digits(d) && n == (if s == seq!['-'] {
                -(text::number(d) as int)
            } else {
                text::number(d) as int
            }) && t == #[trigger] (s + d).push('i'),
        FieldView::UInt(n) => exists|s: Seq<char>, d: Seq<char>|
            sign(s) && s != seq!['-'] && text::all_digits(d) && n == text::number(d) && t
                == #[trigger] (s + d).push('u'),
        FieldView::Float(FloatView::Numeral(x)) => t == x && is_numeral(x),
        _ => false,
    }
}

proof fn lemma_last_of_numeral(t: Seq<char>)
    requires
        ingest::is_float(t),
    ensures
        t.len() > 0,
        t.last() != 'i',
        t.last() != 'u',
        t.last() != 't',
        t.last() != 'T',
        t.last() != 'e',
        t.last() != 'E',
        t.len() == 1 ==> t.last() != 'f' && t.last() != 'F',
{
    reveal_strlit("inf");
    reveal_strlit("nan");
    reveal_strlit("infinity");
    let cut = if t.len() > 0 && (t[0] == '+' || t[0] == '-') {
        t.drop_first()
    } else {
        t
    };
    if text::lowered(cut) == "inf"@ || text::lowered(cut) == "nan"@ || text::lowered(cut)
        == "infinity"@ {
        let low = text::lowered(cut);
        let end = cut.len() - 1;
        assert(low.len() == cut.len());
        assert(low[end] == text::small(cut[end]));
        assert(cut[end] == t.last());
        lemma_small_end(t.last(), low[end]);
    } else {
        let e = ingest::mantissa_end(cut)->Some_0;
        let a = ingest::digits_end(cut, 0);
        lemma_digits_found(cut, 0);
        assert(cut.last() == t.last());
        let end = cut.len() - 1;
        if e < cut.len() {
            let k = if e + 1 < cut.len() && (cut[e + 1] == '+' || cut[e + 1] == '-') {
                e + 2
            } else {
                e + 1
            };
            lemma_digits_found(cut, k);
            assert('0' <= cut.subrange(k, cut.len() as int)[end - k] <= '9');
        } else if a < cut.len() && cut[a] == '.' {
            lemma_digits_found(cut, a + 1);
            if e > a + 1 {
                assert('0' <= cut.subrange(a + 1, e)[end - a - 1] <= '9');
            }
        } else {
            assert('0' <= cut.subrange(0, a)[end] <= '9');
        }
    }
}

proof fn lemma_small_end(c: char, low: char)
    requires
        text::small(c) == low,
        low == 'f' || low == 'n' || low == 'y',
    ensures
        c != 'i' && c != 'u' && c != 't' && c != 'T' && c != 'e' && c != 'E',
{
}

proof fn lemma_signed(g: Seq<char>, d: Seq<char>)
    requires
        sign(g),
        text::all_digits(d),
    ensures
        ({
            let n: int = if g == seq!['-'] {
                -(text::number(d) as int)
            } else {
                text::number(d) as int
            };
            &&& i64::MIN <= n <= i64::MAX ==> text::signed_of(g + d) == Some(n)
            &&& !(i64::MIN <= n <= i64::MAX) ==> text::signed_of(g + d) is None
            &&& g != seq!['-'] && n <= u64::MAX ==> text::unsigned_of(g + d, u64::MAX as nat)
                == Some(n as nat)
        }),
{
    assert(text::is_digit(d[0]));
    if g.len() == 0 {
        assert(g + d =~= d);
        assert(g != seq!['-']) by {
            assert(seq!['-'].len() == 1);
        }
    } else {
        assert((g + d)[0] == g[0]);
        assert((g + d).drop_first() =~= d);
        if g == seq!['+'] {
            assert(g[0] == '+');
            assert(seq!['-'][0] == '-');
        }
    }
}

proof fn lemma_token_chars(g: Seq<char>, d: Seq<char>, c: char)
    requires
        sign(g),
        text::all_digits(d),
    ensures
        forall|i: int|
            0 <= i < (g + d).push(c).len() ==> ('0' <= #[trigger] (g + d).push(c)[i] <= '9' || (g
                + d).push(c)[i] == '-' || (g + d).push(c)[i] == '+' || (g + d).push(c)[i] == c),
{
    let t = (g + d).push(c);
    assert forall|i: int| 0 <= i < t.len() implies ('0' <= #[trigger] t[i] <= '9' || t[i] == '-'
        || t[i] == '+' || t[i] == c) by {
        if g.len() <= i < t.len() - 1 {
            assert(t[i] == d[i - g.len()]);
            assert(text::is_digit(d[i - g.len()]));
        } else if i < g.len() {
            assert(t[i] == g[i]);
        }
    }
}

/// What a numeral is made of that is read as a number.
proof fn lemma_numeral_parts(t: Seq<char>) -> (r: (Seq<char>, Seq<char>))
    ensures
        text::signed_of(t) matches Some(n) ==> sign(r.0) && text::all_digits(r.1) && t == r.0 + r.1
            && n == (if r.0 == seq!['-'] {
            -(text::number(r.1) as int)
        } else {
            text::number(r.1) as int
        }),
        text::unsigned_of(t, u64::MAX as nat) matches Some(n) ==> sign(r.0) && r.0 != seq!['-']
            && text::all_digits(r.1) && t == r.0 + r.1 && n == text::number(r.1),
{
    let none = Seq::<char>::empty();
    assert(seq!['-'].len() == 1 && seq!['-'][0] == '-');
    if t.len() > 0 && (t[0] == '-' || t[0] == '+') {
        assert(t =~= seq![t[0]] + t.drop_first());
        assert(seq![t[0]][0] == t[0]);
        (seq![t[0]], t.drop_first())
    } else {
        assert(t =~= none + t);
        (none, t)
    }
}

/// A token reads as a value only where it spells it.
pub proof fn a_read_value_is_spelled(t: Seq<char>)
    ensures
        ingest::token_value(t) matches Ok(v) ==> spells(t, v),
{
    if let Ok(v) = ingest::token_value(t) {
        match v {
            FieldView::Int(n) => {
                let num = t.drop_last();
                let (g, d) = lemma_numeral_parts(num);
                lemma_signed(g, d);
                assert(t =~= (g + d).push('i'));
            },
            FieldView::UInt(n) => {
                let num = t.drop_last();
                let (g, d) = lemma_numeral_parts(num);
                assert(t =~= (g + d).push('u'));
            },
            FieldView::Float(_) => {
                these_are_the_float_numerals(t);
            },
            _ => {},
        }
    }
}

/// A token that spells a value reads as that value: the words of each truth
/// value, integers with an `i` and unsigned ones with a `u` behind them, and
/// the numerals of floats.
pub proof fn a_spelled_value_is_read(t: Seq<char>, v: FieldView)
    requires
        spells(t, v),
    ensures
        ingest::token_value(t) == Ok::<FieldView, Seq<char>>(v),
        t.len() > 0,
        is_ascii_chars(t),
        forall|i: int|
            0 <= i < t.len() ==> #[trigger] t[i] != ',' && t[i] != ' ' && t[i] != '"' && t[i]
                != '\n' && t[i] != '\r',
{
    lemma_words();
    match v {
        FieldView::Bool(b) => {
            assert("t"@[0] == 't' && "true"@[0] == 't');
            assert("T"@[0] == 'T' && "True"@[0] == 'T' && "TRUE"@[0] == 'T');
            assert("f"@[0] == 'f' && "false"@[0] == 'f');
            assert("F"@[0] == 'F' && "False"@[0] == 'F' && "FALSE"@[0] == 'F');
            if !b {
                assert(t[0] == 'f' || t[0] == 'F');
            }
        },
        FieldView::Int(n) => {
            let (g, d) = choose|g: Seq<char>, d: Seq<char>|
                sign(g) && text::all_digits(d) && n == (if g == seq!['-'] {
                    -(text::number(d) as int)
                } else {
                    text::number(d) as int
                }) && t == #[trigger] (g + d).push('i');
            lemma_signed(g, d);
            assert(t.drop_last() =~= g + d);
            assert(t.last() == 'i');
            lemma_token_chars(g, d, 'i');
        },
        FieldView::UInt(n) => {
            let (g, d) = choose|g: Seq<char>, d: Seq<char>|
                sign(g) && g != seq!['-'] && text::all_digits(d) && n == text::number(d) && t
                    == #[trigger] (g + d).push('u');
            lemma_signed(g, d);
            assert(t.drop_last() =~= g + d);
            assert(t.last() == 'u');
            lemma_token_chars(g, d, 'u');
        },
        FieldView::Float(_) => {
            these_are_the_float_numerals(t);
            lemma_last_of_numeral(t);
            lemma_numeral_chars(t);
        },
        _ => {},
    }
}

/// The words of the truth values are none of each other's.
proof fn lemma_words()
    ensures
        "t"@ == seq!['t'],
        "T"@ == seq!['T'],
        "f"@ == seq!['f'],
        "F"@ == seq!['F'],
        "true"@ == seq!['t', 'r', 'u', 'e'],
        "True"@ == seq!['T', 'r', 'u', 'e'],
        "TRUE"@ == seq!['T', 'R', 'U', 'E'],
        "false"@ == seq!['f', 'a', 'l', 's', 'e'],
        "False"@ == seq!['F', 'a', 'l', 's', 'e'],
        "FALSE"@ == seq!['F', 'A', 'L', 'S', 'E'],
{
    reveal_strlit("t");
    reveal_strlit("T");
    reveal_strlit("f");
    reveal_strlit("F");
    reveal_strlit("true");
    reveal_strlit("True");
    reveal_strlit("TRUE");
    reveal_strlit("false");
    reveal_strlit("False");
    reveal_strlit("FALSE");
    assert("t"@ =~= seq!['t']);
    assert("T"@ =~= seq!['T']);
    assert("f"@ =~= seq!['f']);
    assert("F"@ =~= seq!['F']);
    assert("true"@ =~= seq!['t', 'r', 'u', 'e']);
    assert("True"@ =~= seq!['T', 'r', 'u', 'e']);
    assert("TRUE"@ =~= seq!['T', 'R', 'U', 'E']);
    assert("false"@ =~= seq!['f', 'a', 'l', 's', 'e']);
    assert("False"@ =~= seq!['F', 'a', 'l', 's', 'e']);
    assert("FALSE"@ =~= seq!['F', 'A', 'L', 'S', 'E']);
}

/// The characters that numerals of floats consist of.
pub open spec fn numeral_char(c: char) -> bool {
    '0' <= c <= '9' || 'a' <= c <= 'z' || 'A' <= c <= 'Z' || c == '.' || c == '+' || c == '-'
}

proof fn lemma_numeral_chars(t: Seq<char>)
    requires
        is_numeral(t),
    ensures
        forall|i: int| 0 <= i < t.len() ==> numeral_char(#[trigger] t[i]),
{
    let inf = seq!['i', 'n', 'f'];
    let nan = seq!['n', 'a', 'n'];
    let infinity = seq!['i', 'n', 'f', 'i', 'n', 'i', 't', 'y'];
    let (s, m) = choose|s: Seq<char>, m: Seq<char>|
        sign(s) && t == #[trigger] (s + m) && (is_magnitude(m) || same_word(m, inf) || same_word(
            m,
            nan,
        ) || same_word(m, infinity));
    assert forall|i: int| 0 <= i < m.len() implies numeral_char(#[trigger] m[i]) by {
        if is_magnitude(m) {
            let (x, y, e, point) = lemma_magnitude_parts(m);
            assert forall|j: int| 0 <= j < e.len() implies numeral_char(#[trigger] e[j]) by {
                let (letter, g, d) = lemma_exponent_parts(e);
                if j > g.len() {
                    assert(e[j] == d[j - 1 - g.len()]);
                }
            }
            if point {
                if i < x.len() {
                    assert(m[i] == x[i]);
                } else if i > x.len() && i < x.len() + 1 + y.len() {
                    assert(m[i] == y[i - x.len() - 1]);
                } else if i > x.len() {
                    assert(m[i] == e[i - x.len() - 1 - y.len()]);
                }
            } else {
                if i < x.len() {
                    assert(m[i] == x[i]);
                } else {
                    assert(m[i] == e[i - x.len()]);
                }
            }
        }
    }
    assert forall|i: int| 0 <= i < t.len() implies numeral_char(#[trigger] t[i]) by {
        if i >= s.len() {
            assert(t[i] == m[i - s.len()]);
        }
    }
}

// ---------------------------------------------------------------------- rows

/// Whether a text is ASCII, each of its bytes one character.
pub open spec fn ascii(t: Seq<char>) -> bool {
    forall|i: int| 0 <= i < t.len() ==> #[trigger] t[i] as u32 <= 0x7f
}

/// A measurement, a key or a tag's value as it is written: a backslash before
/// each comma, space, equals sign and backslash.
pub open spec fn name_text(t: Seq<char>) -> Seq<char>
    decreases t.len(),
{
    if t.len() == 0 {
        Seq::empty()
    } else if t.last() == ',' || t.last() == ' ' || t.last() == '=' || t.last() == '\\' {
        name_text(t.drop_last()) + seq!['\\', t.last()]
    } else {
        name_text(t.drop_last()) + seq![t.last()]
    }
}

/// A text field as it is written, without its quotes: a backslash before each
/// quote and backslash.
pub open spec fn string_text(t: Seq<char>) -> Seq<char>
    decreases t.len(),
{
    if t.len() == 0 {
        Seq::empty()
    } else if t.last() == '"' || t.last() == '\\' {
        string_text(t.drop_last()) + seq!['\\', t.last()]
    } else {
        string_text(t.drop_last()) + seq![t.last()]
    }
}

/// Tags as they are written, a comma before each.
pub open spec fn tags_text(tags: Seq<(Seq<char>, Seq<char>)>) -> Seq<char>
    decreases tags.len(),
{
    if tags.len() == 0 {
        Seq::empty()
    } else {
        tags_text(tags.drop_last()) + (seq![','] + (name_text(tags.last().0) + (seq!['=']
            + name_text(tags.last().1))))
    }
}

/// A value as it is written: a text in quotes, anything else by the token that
/// is given for it.
pub open spec fn value_text(v: FieldView, token: Seq<char>) -> Seq<char> {
    match v {
        FieldView::Str(s) => seq!['"'] + (string_text(s) + seq!['"']),
        _ => token,
    }
}

/// Fields as they are written, a comma between them, given a token for each.
pub open spec fn fields_text(
    fields: Seq<(Seq<char>, FieldView)>,
    tokens: Seq<Seq<char>>,
) -> Seq<char>
    decreases fields.len(),
{
    if fields.len() == 0 {
        Seq::empty()
    } else {
        let last = name_text(fields.last().0) + (seq!['='] + value_text(
            fields.last().1,
            tokens[fields.len() - 1],
        ));
        if fields.len() == 1 {
            last
        } else {
            fields_text(fields.drop_last(), tokens) + (seq![','] + last)
        }
    }
}

/// Whether fields can be written with these tokens: keys and texts are ASCII,
/// and each other value is spelled by its token.
pub open spec fn fields_spelled(
    fields: Seq<(Seq<char>, FieldView)>,
    tokens: Seq<Seq<char>>,
) -> bool {
    &&& fields.len() <= tokens.len()
    &&& forall|i: int|
        0 <= i < fields.len() ==> ascii((#[trigger] fields[i]).0) && match fields[i].1 {
            FieldView::Str(s) => ascii(s),
            v => spells(tokens[i], v),
        }
}

/// Whether tags can be written.
pub open spec fn tags_ascii(tags: Seq<(Seq<char>, Seq<char>)>) -> bool {
    forall|i: int| 0 <= i < tags.len() ==> ascii((#[trigger] tags[i]).0) && ascii(tags[i].1)
}

/// A row as a line: measurement, tags and fields, and behind them `rest`.
pub open spec fn line_text(
    table: Seq<char>,
    tags: Seq<(Seq<char>, Seq<char>)>,
    fields: Seq<(Seq<char>, FieldView)>,
    tokens: Seq<Seq<char>>,
    rest: Seq<char>,
) -> Seq<char> {
    name_text(table) + (tags_text(tags) + (seq![' '] + (fields_text(fields, tokens) + rest)))
}

/// The bytes of two texts, and of a text behind a character.
proof fn lemma_joined(a: Seq<char>, b: Seq<char>)
    ensures
        encode_utf8(a + b) == encode_utf8(a) + encode_utf8(b),
{
    text::encodings_join(a, b);
}

proof fn lemma_char(c: char)
    requires
        c as u32 <= 0x7f,
    ensures
        encode_utf8(seq![c]) == seq![c as u8],
        (c as u8) as char == c,
        c != ',' <==> c as u8 != 0x2c,
        c != ' ' <==> c as u8 != 0x20,
        c != '=' <==> c as u8 != 0x3d,
        c != '\\' <==> c as u8 != 0x5c,
        c != '"' <==> c as u8 != 0x22,
{
    assert(is_ascii_chars(seq![c]));
    is_ascii_chars_encode_utf8(seq![c]);
    assert(encode_utf8(seq![c]) =~= seq![c as u8]);
}

proof fn lemma_two_chars(a: char, b: char)
    requires
        a as u32 <= 0x7f,
        b as u32 <= 0x7f,
    ensures
        encode_utf8(seq![a, b]) == seq![a as u8, b as u8],
{
    assert(is_ascii_chars(seq![a, b]));
    is_ascii_chars_encode_utf8(seq![a, b]);
    assert(encode_utf8(seq![a, b]) =~= seq![a as u8, b as u8]);
}

/// A name is read up to where it ends.
proof fn lemma_name(s: Seq<u8>, p: int, t: Seq<char>, stop: u8)
    requires
        ascii(t),
        text::stands(s, p, encode_utf8(name_text(t))),
        stop == 0x2c || stop == 0x3d,
    ensures
        ({
            let e = p + encode_utf8(name_text(t)).len();
            ingest::escaped(s, p, stop) == (
                t + ingest::escaped(s, e, stop).0,
                ingest::escaped(s, e, stop).1,
            )
        }),
    decreases t.len(),
{
    if t.len() == 0 {
        assert(name_text(t) =~= Seq::empty());
        assert(encode_utf8(name_text(t)).len() == 0);
        assert(t + ingest::escaped(s, p, stop).0 =~= ingest::escaped(s, p, stop).0);
    } else {
        let init = t.drop_last();
        let c = t[t.len() - 1];
        assert(c as u32 <= 0x7f);
        assert forall|i: int| 0 <= i < init.len() implies #[trigger] init[i] as u32 <= 0x7f by {
            assert(init[i] == t[i]);
        }
        let mark = if c == ',' || c == ' ' || c == '=' || c == '\\' {
            seq!['\\', c]
        } else {
            seq![c]
        };
        lemma_joined(name_text(init), mark);
        lemma_char(c);
        lemma_two_chars('\\', c);
        text::parts_stand(s, p, encode_utf8(name_text(init)), encode_utf8(mark));
        lemma_name(s, p, init, stop);
        let q = p + encode_utf8(name_text(init)).len();
        text::elements_stand(s, q, encode_utf8(mark), 0);
        if mark.len() == 2 {
            text::elements_stand(s, q, encode_utf8(mark), 1);
            assert(ingest::escapable(s[q + 1]));
        }
        let e = q + encode_utf8(mark).len();
        let rest = ingest::escaped(s, e, stop);
        assert(ingest::escaped(s, q, stop) == (seq![c] + rest.0, rest.1));
        assert(init + (seq![c] + rest.0) =~= t + rest.0);
    }
}

/// A name that ends where a separator stands is read whole.
proof fn lemma_name_ends(s: Seq<u8>, p: int, t: Seq<char>, stop: u8)
    requires
        ascii(t),
        text::stands(s, p, encode_utf8(name_text(t))),
        stop == 0x2c || stop == 0x3d,
        p + encode_utf8(name_text(t)).len() < s.len(),
        s[p + encode_utf8(name_text(t)).len()] == stop || s[p + encode_utf8(name_text(t)).len()]
            == 0x20,
    ensures
        ingest::escaped(s, p, stop) == (t, p + encode_utf8(name_text(t)).len()),
{
    lemma_name(s, p, t, stop);
    assert(t + Seq::<char>::empty() =~= t);
}

proof fn lemma_string(s: Seq<u8>, p: int, t: Seq<char>)
    requires
        ascii(t),
        text::stands(s, p, encode_utf8(string_text(t))),
    ensures
        match ingest::quoted(s, p + encode_utf8(string_text(t)).len()) {
            Some((u, e)) => ingest::quoted(s, p) == Some((t + u, e)),
            None => ingest::quoted(s, p) is None,
        },
    decreases t.len(),
{
    if t.len() == 0 {
        assert(string_text(t) =~= Seq::empty());
        assert(encode_utf8(string_text(t)).len() == 0);
        if let Some((u, e)) = ingest::quoted(s, p) {
            assert(t + u =~= u);
        }
    } else {
        let init = t.drop_last();
        let c = t[t.len() - 1];
        assert(c as u32 <= 0x7f);
        assert forall|i: int| 0 <= i < init.len() implies #[trigger] init[i] as u32 <= 0x7f by {
            assert(init[i] == t[i]);
        }
        let mark = if c == '"' || c == '\\' {
            seq!['\\', c]
        } else {
            seq![c]
        };
        lemma_joined(string_text(init), mark);
        lemma_char(c);
        lemma_two_chars('\\', c);
        text::parts_stand(s, p, encode_utf8(string_text(init)), encode_utf8(mark));
        lemma_string(s, p, init);
        let q = p + encode_utf8(string_text(init)).len();
        text::elements_stand(s, q, encode_utf8(mark), 0);
        if mark.len() == 2 {
            text::elements_stand(s, q, encode_utf8(mark), 1);
        }
        if let Some((u, e)) = ingest::quoted(s, q + encode_utf8(mark).len()) {
            assert(ingest::quoted(s, q) == Some((seq![c] + u, e)));
            assert(init + (seq![c] + u) =~= t + u);
        }
    }
}

proof fn lemma_token_end(s: Seq<u8>, p: int, w: Seq<u8>)
    requires
        text::stands(s, p, w),
        forall|i: int| 0 <= i < w.len() ==> #[trigger] w[i] != 0x2c && w[i] != 0x20,
    ensures
        ingest::token_end(s, p) == ingest::token_end(s, p + w.len()),
    decreases w.len(),
{
    if w.len() > 0 {
        let rest = w.drop_first();
        assert(w =~= seq![w[0]] + rest);
        text::elements_stand(s, p, w, 0);
        text::parts_stand(s, p, seq![w[0]], rest);
        assert forall|i: int| 0 <= i < rest.len() implies #[trigger] rest[i] != 0x2c && rest[i]
            != 0x20 by {
            assert(rest[i] == w[i + 1]);
        }
        lemma_token_end(s, p + 1, rest);
    }
}

/// A value is read up to where it ends.
proof fn lemma_value(s: Seq<u8>, p: int, v: FieldView, token: Seq<char>)
    requires
        match v {
            FieldView::Str(t) => ascii(t),
            _ => spells(token, v),
        },
        text::stands(s, p, encode_utf8(value_text(v, token))),
        ({
            let e = p + encode_utf8(value_text(v, token)).len();
            e == s.len() || s[e] == 0x2c || s[e] == 0x20
        }),
    ensures
        ingest::value_at(s, p) == Ok::<(FieldView, int), Seq<char>>(
            (v, p + encode_utf8(value_text(v, token)).len()),
        ),
{
    if let FieldView::Str(t) = v {
        lemma_joined(seq!['"'], string_text(t) + seq!['"']);
        lemma_joined(string_text(t), seq!['"']);
        lemma_char('"');
        text::parts_stand(
            s,
            p,
            encode_utf8(seq!['"']),
            encode_utf8(string_text(t) + seq!['"']),
        );
        text::elements_stand(s, p, encode_utf8(seq!['"']), 0);
        text::parts_stand(s, p + 1, encode_utf8(string_text(t)), encode_utf8(seq!['"']));
        let q = p + 1 + encode_utf8(string_text(t)).len();
        text::elements_stand(s, q, encode_utf8(seq!['"']), 0);
        lemma_string(s, p + 1, t);
        assert(t + Seq::<char>::empty() =~= t);
    } else {
        a_spelled_value_is_read(token, v);
        is_ascii_chars_encode_utf8(token);
        let w = encode_utf8(token);
        assert forall|i: int| 0 <= i < w.len() implies #[trigger] w[i] != 0x2c && w[i] != 0x20
            && w[i] != 0x22 by {
            assert(token[i] as u8 == w[i]);
            lemma_char(token[i]);
        }
        lemma_token_end(s, p, w);
        text::elements_stand(s, p, w, 0);
        assert(s.subrange(p, p + w.len()) == w);
        encode_utf8_valid_utf8(token);
        encode_utf8_decode_utf8(token);
    }
}

/// Tags are read up to where they end.
proof fn lemma_tags(s: Seq<u8>, p: int, tags: Seq<(Seq<char>, Seq<char>)>)
    requires
        tags_ascii(tags),
        text::stands(s, p, encode_utf8(tags_text(tags))),
        p + encode_utf8(tags_text(tags)).len() < s.len(),
        s[p + encode_utf8(tags_text(tags)).len()] == 0x2c || s[p + encode_utf8(
            tags_text(tags),
        ).len()] == 0x20,
    ensures
        ingest::tags_at(s, p, Seq::empty()) == ingest::tags_at(
            s,
            p + encode_utf8(tags_text(tags)).len(),
            tags,
        ),
    decreases tags.len(),
{
    if tags.len() == 0 {
        assert(tags_text(tags) =~= Seq::empty());
        assert(encode_utf8(tags_text(tags)).len() == 0);
        assert(tags =~= Seq::empty());
    } else {
        let init = tags.drop_last();
        let (k, v) = tags[tags.len() - 1];
        assert(ascii(k) && ascii(v));
        assert forall|i: int| 0 <= i < init.len() implies ascii((#[trigger] init[i]).0) && ascii(
            init[i].1,
        ) by {
            assert(init[i] == tags[i]);
        }
        let tail = seq!['='] + name_text(v);
        let one = name_text(k) + tail;
        lemma_joined(tags_text(init), seq![','] + one);
        lemma_joined(seq![','], one);
        lemma_joined(name_text(k), tail);
        lemma_joined(seq!['='], name_text(v));
        lemma_char(',');
        lemma_char('=');
        text::parts_stand(s, p, encode_utf8(tags_text(init)), encode_utf8(seq![','] + one));
        let q = p + encode_utf8(tags_text(init)).len();
        text::parts_stand(s, q, encode_utf8(seq![',']), encode_utf8(one));
        text::elements_stand(s, q, encode_utf8(seq![',']), 0);
        lemma_tags(s, p, init);
        text::parts_stand(s, q + 1, encode_utf8(name_text(k)), encode_utf8(tail));
        let e = q + 1 + encode_utf8(name_text(k)).len();
        text::parts_stand(s, e, encode_utf8(seq!['=']), encode_utf8(name_text(v)));
        text::elements_stand(s, e, encode_utf8(seq!['=']), 0);
        lemma_name_ends(s, q + 1, k, 0x3d);
        lemma_name_ends(s, e + 1, v, 0x2c);
        assert(init.push((k, v)) =~= tags);
    }
}

/// One field is read up to where it ends.
proof fn lemma_field(s: Seq<u8>, p: int, k: Seq<char>, v: FieldView, token: Seq<char>)
    requires
        ascii(k),
        match v {
            FieldView::Str(t) => ascii(t),
            _ => spells(token, v),
        },
        text::stands(s, p, encode_utf8(name_text(k) + (seq!['='] + value_text(v, token)))),
        ({
            let e = p + encode_utf8(name_text(k) + (seq!['='] + value_text(v, token))).len();
            e == s.len() || s[e] == 0x2c || s[e] == 0x20
        }),
    ensures
        ({
            let e = p + encode_utf8(name_text(k) + (seq!['='] + value_text(v, token))).len();
            let f = ingest::escaped(s, p, 0x3d);
            &&& f.0 == k
            &&& p <= f.1 < s.len()
            &&& s[f.1] == 0x3d
            &&& ingest::value_at(s, f.1 + 1) == Ok::<(FieldView, int), Seq<char>>((v, e))
        }),
{
    let tail = seq!['='] + value_text(v, token);
    lemma_joined(name_text(k), tail);
    lemma_joined(seq!['='], value_text(v, token));
    lemma_char('=');
    text::parts_stand(s, p, encode_utf8(name_text(k)), encode_utf8(tail));
    let q = p + encode_utf8(name_text(k)).len();
    text::parts_stand(s, q, encode_utf8(seq!['=']), encode_utf8(value_text(v, token)));
    text::elements_stand(s, q, encode_utf8(seq!['=']), 0);
    lemma_name_ends(s, p, k, 0x3d);
    lemma_value(s, q + 1, v, token);
}

/// Fields are read up to where they end: to the comma behind them, or to the
/// end of them all.
proof fn lemma_fields(
    s: Seq<u8>,
    p: int,
    fields: Seq<(Seq<char>, FieldView)>,
    tokens: Seq<Seq<char>>,
)
    requires
        fields.len() > 0,
        fields_spelled(fields, tokens),
        text::stands(s, p, encode_utf8(fields_text(fields, tokens))),
        ({
            let e = p + encode_utf8(fields_text(fields, tokens)).len();
            e == s.len() || s[e] == 0x2c || s[e] == 0x20
        }),
    ensures
        ({
            let e = p + encode_utf8(fields_text(fields, tokens)).len();
            if e < s.len() && s[e] == 0x2c {
                ingest::fields_at(s, p, Seq::empty()) == ingest::fields_at(s, e + 1, fields)
            } else {
                ingest::fields_at(s, p, Seq::empty()) == Ok::<
                    (Seq<(Seq<char>, FieldView)>, int),
                    Seq<char>,
                >((fields, e))
            }
        }),
    decreases fields.len(),
{
    let (k, v) = fields[fields.len() - 1];
    let token = tokens[fields.len() - 1];
    let last = name_text(k) + (seq!['='] + value_text(v, token));
    let init = fields.drop_last();
    assert(ascii(k));
    if fields.len() == 1 {
        lemma_field(s, p, k, v, token);
        assert(Seq::<(Seq<char>, FieldView)>::empty().push((k, v)) =~= fields);
    } else {
        let front = fields_text(init, tokens);
        lemma_joined(front, seq![','] + last);
        lemma_joined(seq![','], last);
        lemma_char(',');
        text::parts_stand(s, p, encode_utf8(front), encode_utf8(seq![','] + last));
        let q = p + encode_utf8(front).len();
        text::parts_stand(s, q, encode_utf8(seq![',']), encode_utf8(last));
        text::elements_stand(s, q, encode_utf8(seq![',']), 0);
        assert forall|i: int| 0 <= i < init.len() implies ascii((#[trigger] init[i]).0)
            && match init[i].1 {
            FieldView::Str(t) => ascii(t),
            w => spells(tokens[i], w),
        } by {
            assert(init[i] == fields[i]);
        }
        lemma_fields(s, p, init, tokens);
        lemma_field(s, q + 1, k, v, token);
        assert(init.push((k, v)) =~= fields);
    }
}

/// A line without a time gives its row, at the time that is given for such
/// lines; one with a time behind a space and white space around it gives it at
/// that many units, or nothing where those do not fit.
pub proof fn a_written_row_is_read(
    table: Seq<char>,
    tags: Seq<(Seq<char>, Seq<char>)>,
    fields: Seq<(Seq<char>, FieldView)>,
    tokens: Seq<Seq<char>>,
    n: i64,
    lead: Seq<char>,
    trail: Seq<char>,
    mult: i64,
    default_ts_ns: i64,
)
    requires
        table.len() > 0,
        ascii(table),
        tags_ascii(tags),
        fields.len() > 0,
        fields_spelled(fields, tokens),
        forall|i: int| 0 <= i < lead.len() ==> text::is_space(#[trigger] lead[i]),
        forall|i: int| 0 <= i < trail.len() ==> text::is_space(#[trigger] trail[i]),
    ensures
        ingest::line_row(
            encode_utf8(line_text(table, tags, fields, tokens, Seq::empty())),
            mult,
            default_ts_ns,
        ) == Ok::<LineView, Seq<char>>(
            (LineView { table, tags, fields, timestamp_ns: default_ts_ns }),
        ),
        ({
            let time = seq![' '] + (lead + text::signed_decimal(n as int) + trail);
            let row = ingest::line_row(
                encode_utf8(line_text(table, tags, fields, tokens, time)),
                mult,
                default_ts_ns,
            );
            if i64::MIN <= n * mult <= i64::MAX {
                row == Ok::<LineView, Seq<char>>(
                    (LineView { table, tags, fields, timestamp_ns: (n * mult) as i64 }),
                )
            } else {
                row is Err
            }
        }),
{
    let none = Seq::<char>::empty();
    assert(encode_utf8(none).len() == 0);
    lemma_row(table, tags, fields, tokens, none, mult, default_ts_ns);
    let numeral = text::signed_decimal(n as int);
    let inner = lead + numeral + trail;
    let time = seq![' '] + inner;
    lemma_joined(seq![' '], inner);
    lemma_char(' ');
    assert(encode_utf8(time)[0] == 0x20);
    lemma_row(table, tags, fields, tokens, time, mult, default_ts_ns);
    let front = name_text(table) + (tags_text(tags) + (seq![' '] + fields_text(fields, tokens)));
    let s = encode_utf8(line_text(table, tags, fields, tokens, time));
    assert(line_text(table, tags, fields, tokens, time) =~= front + time);
    lemma_joined(front, time);
    let c = encode_utf8(front).len() as int;
    assert(s[c] == encode_utf8(time)[0]);
    assert(s.skip(c + 1) =~= encode_utf8(inner));
    encode_utf8_valid_utf8(inner);
    encode_utf8_decode_utf8(inner);
    text::signed_numerals_read_back(n);
    let m = if n < 0 {
        (-(n as int)) as nat
    } else {
        n as nat
    };
    text::decimal_spells(m);
    let d = text::decimal(m);
    assert(text::is_digit(d[0]));
    assert(text::is_digit(d[d.len() - 1]));
    assert(numeral.last() == d[d.len() - 1]);
    assert(numeral[0] == '-' || numeral[0] == d[0]);
    text::what_stands_in_space_is_left(lead, numeral, trail);
}

/// Where the parts of a line stand.
proof fn lemma_line_parts(name: Seq<char>, tags: Seq<char>, values: Seq<char>, rest: Seq<char>)
    ensures
        ({
            let s = encode_utf8(name + (tags + (seq![' '] + (values + rest))));
            let a = encode_utf8(name).len() as int;
            let b = a + encode_utf8(tags).len();
            let c = b + 1 + encode_utf8(values).len();
            &&& text::stands(s, 0, encode_utf8(name))
            &&& text::stands(s, a, encode_utf8(tags))
            &&& b < s.len()
            &&& s[b] == 0x20
            &&& text::stands(s, b + 1, encode_utf8(values))
            &&& text::stands(s, c, encode_utf8(rest))
            &&& c + encode_utf8(rest).len() == s.len()
            &&& c == encode_utf8(name + (tags + (seq![' '] + values))).len()
        }),
{
    let third = seq![' '] + (values + rest);
    let second = tags + third;
    let s = encode_utf8(name + second);
    lemma_joined(name, second);
    lemma_joined(tags, third);
    lemma_joined(seq![' '], values + rest);
    lemma_joined(values, rest);
    lemma_joined(name, tags + (seq![' '] + values));
    lemma_joined(tags, seq![' '] + values);
    lemma_joined(seq![' '], values);
    lemma_char(' ');
    assert(s.subrange(0, s.len() as int) =~= s);
    text::parts_stand(s, 0, encode_utf8(name), encode_utf8(second));
    let a = encode_utf8(name).len() as int;
    text::parts_stand(s, a, encode_utf8(tags), encode_utf8(third));
    let b = a + encode_utf8(tags).len();
    text::parts_stand(s, b, encode_utf8(seq![' ']), encode_utf8(values + rest));
    text::elements_stand(s, b, encode_utf8(seq![' ']), 0);
    text::parts_stand(s, b + 1, encode_utf8(values), encode_utf8(rest));
}

/// What a line gives whose measurement, tags and fields were written: a row at
/// the time that what stands behind them comes to.
proof fn lemma_row(
    table: Seq<char>,
    tags: Seq<(Seq<char>, Seq<char>)>,
    fields: Seq<(Seq<char>, FieldView)>,
    tokens: Seq<Seq<char>>,
    rest: Seq<char>,
    mult: i64,
    default_ts_ns: i64,
)
    requires
        table.len() > 0,
        ascii(table),
        tags_ascii(tags),
        fields.len() > 0,
        fields_spelled(fields, tokens),
        rest.len() == 0 || encode_utf8(rest).len() > 0 && encode_utf8(rest)[0] == 0x20,
    ensures
        ({
            let front = name_text(table) + (tags_text(tags) + (seq![' '] + fields_text(
                fields,
                tokens,
            )));
            let s = encode_utf8(line_text(table, tags, fields, tokens, rest));
            ingest::line_row(s, mult, default_ts_ns) == match ingest::timestamp_at(
                s,
                encode_utf8(front).len() as int,
                mult,
                default_ts_ns,
            ) {
                Ok(timestamp_ns) => Ok::<LineView, Seq<char>>(
                    LineView { table, tags, fields, timestamp_ns },
                ),
                Err(m) => Err::<LineView, Seq<char>>(m),
            }
        }),
{
    let values = fields_text(fields, tokens);
    let s = encode_utf8(line_text(table, tags, fields, tokens, rest));
    lemma_line_parts(name_text(table), tags_text(tags), values, rest);
    let a = encode_utf8(name_text(table)).len() as int;
    let b = a + encode_utf8(tags_text(tags)).len();
    let c = b + 1 + encode_utf8(values).len();
    if rest.len() == 0 {
        assert(rest =~= Seq::empty());
        assert(encode_utf8(rest).len() == 0);
    } else {
        text::elements_stand(s, c, encode_utf8(rest), 0);
    }
    assert(a < s.len() && (s[a] == 0x2c || s[a] == 0x20)) by {
        if tags.len() == 0 {
            assert(tags_text(tags) =~= Seq::empty());
            assert(encode_utf8(tags_text(tags)).len() == 0);
        } else {
            lemma_tags_start(tags);
            text::elements_stand(s, a, encode_utf8(tags_text(tags)), 0);
        }
    }
    lemma_name_ends(s, 0, table, 0x2c);
    lemma_tags(s, a, tags);
    lemma_fields(s, b + 1, fields, tokens);
}

proof fn lemma_tags_start(tags: Seq<(Seq<char>, Seq<char>)>)
    requires
        tags.len() > 0,
    ensures
        encode_utf8(tags_text(tags)).len() > 0,
        encode_utf8(tags_text(tags))[0] == 0x2c,
    decreases tags.len(),
{
    let init = tags.drop_last();
    let one = name_text(tags.last().0) + (seq!['='] + name_text(tags.last().1));
    lemma_joined(tags_text(init), seq![','] + one);
    lemma_joined(seq![','], one);
    lemma_char(',');
    if init.len() == 0 {
        assert(tags_text(init) =~= Seq::empty());
        assert(encode_utf8(tags_text(init)).len() == 0);
    } else {
        lemma_tags_start(init);
    }
}

/// The numeral of an integer, with an `i` behind it, spells the integer, and
/// that of an unsigned one with a `u`.
pub proof fn numerals_spell_their_numbers(n: i64, u: u64)
    ensures
        spells(text::signed_decimal(n as int).push('i'), FieldView::Int(n)),
        spells(text::decimal(u as nat).push('u'), FieldView::UInt(u)),
{
    let none = Seq::<char>::empty();
    assert(seq!['-'].len() == 1);
    let m = if n < 0 {
        (-(n as int)) as nat
    } else {
        n as nat
    };
    text::decimal_spells(m);
    text::decimal_spells(u as nat);
    let g = if n < 0 {
        seq!['-']
    } else {
        none
    };
    assert(text::signed_decimal(n as int) =~= g + text::decimal(m));
    assert(text::signed_decimal(n as int).push('i') == (g + text::decimal(m)).push('i'));
    assert(text::decimal(u as nat) =~= none + text::decimal(u as nat));
    assert(text::decimal(u as nat).push('u') == (none + text::decimal(u as nat)).push('u'));
}

// -------------------------------------------------------------------- bodies

/// So many carriage returns.
pub open spec fn carriage_returns(n: nat) -> Seq<char> {
    Seq::new(n, |i: int| '\r')
}

proof fn lemma_returns(l: Seq<char>, n: nat)
    requires
        l.len() > 0 ==> l.last() != '\r',
    ensures
        ingest::without_returns(l + carriage_returns(n)) == l,
    decreases n,
{
    if n == 0 {
        assert(l + carriage_returns(n) =~= l);
    } else {
        let m = (n - 1) as nat;
        assert((l + carriage_returns(n)).drop_last() =~= l + carriage_returns(m));
        assert((l + carriage_returns(n)).last() == '\r');
        lemma_returns(l, m);
    }
}

/// A body is read line by line. A line behind others, with carriage returns at
/// its end or none, adds its row behind theirs; an empty line and one that
/// starts with `#` add nothing; a line that gives no row refuses the body by
/// its number, counted from one, and the first such line decides.
pub proof fn a_body_is_read_line_by_line(
    lines: Seq<Seq<char>>,
    l: Seq<char>,
    n: nat,
    mult: i64,
    default_ts_ns: i64,
)
    requires
        l.len() > 0 ==> l.last() != '\r',
    ensures
        ingest::rows_of(Seq::empty(), mult, default_ts_ns) == Ok::<
            Seq<LineView>,
            (nat, Seq<char>),
        >(Seq::empty()),
        match ingest::rows_of(lines, mult, default_ts_ns) {
            Err(e) => ingest::rows_of(lines.push(l + carriage_returns(n)), mult, default_ts_ns) == Err::<
                Seq<LineView>,
                (nat, Seq<char>),
            >(e),
            Ok(done) => {
                let after = ingest::rows_of(lines.push(l + carriage_returns(n)), mult, default_ts_ns);
                if l.len() == 0 || l[0] == '#' {
                    after == Ok::<Seq<LineView>, (nat, Seq<char>)>(done)
                } else {
                    match ingest::line_row(encode_utf8(l), mult, default_ts_ns) {
                        Ok(row) => after == Ok::<Seq<LineView>, (nat, Seq<char>)>(done.push(row)),
                        Err(_) => after matches Err((line_no, _)) && line_no == lines.len() + 1,
                    }
                }
            },
        },
{
    let all = lines.push(l + carriage_returns(n));
    assert(all.drop_last() =~= lines);
    assert(all.last() == l + carriage_returns(n));
    lemma_returns(l, n);
}

/// A body is its lines with line feeds between them.
pub proof fn a_body_is_its_lines(lines: Seq<Seq<char>>, mult: i64, default_ts_ns: i64)
    requires
        lines.len() > 0,
        forall|i: int| 0 <= i < lines.len() ==> !(#[trigger] lines[i]).contains('\n'),
    ensures
        ingest::body_rows(text::separated(lines, '\n'), mult, default_ts_ns) == ingest::rows_of(
            lines,
            mult,
            default_ts_ns,
        ),
{
    text::splitting_undoes_separating(lines, '\n');
}

/// The units of time: a nanosecond, and each of the others a thousand times the
/// one before it. There is no other.
pub proof fn each_unit_is_a_thousand_of_the_last(p: Seq<char>)
    ensures
        ingest::precision_ns("n"@) == Some(1i64),
        ingest::precision_ns("ns"@) == ingest::precision_ns("n"@),
        ingest::precision_ns("us"@) == ingest::precision_ns("u"@),
        ingest::precision_ns("u"@) matches Some(x) && x == 1000
            * ingest::precision_ns("n"@)->Some_0,
        ingest::precision_ns("ms"@) matches Some(x) && x == 1000
            * ingest::precision_ns("u"@)->Some_0,
        ingest::precision_ns("s"@) matches Some(x) && x == 1000
            * ingest::precision_ns("ms"@)->Some_0,
        ingest::precision_ns(p) is Some ==> p == "n"@ || p == "ns"@ || p == "u"@ || p == "us"@ || p
            == "ms"@ || p == "s"@,
{
    reveal_strlit("n");
    reveal_strlit("ns");
    reveal_strlit("u");
    reveal_strlit("us");
    reveal_strlit("ms");
    reveal_strlit("s");
    assert("n"@[0] == 'n' && "u"@[0] == 'u' && "s"@[0] == 's');
    assert("ns"@[0] == 'n' && "us"@[0] == 'u' && "ms"@[0] == 'm');
    assert("n"@.len() == 1 && "u"@.len() == 1 && "s"@.len() == 1);
    assert("ns"@.len() == 2 && "us"@.len() == 2 && "ms"@.len() == 2);
}

/// A measurement with nothing behind it gives no row.
pub proof fn a_line_without_fields_is_refused(table: Seq<char>, mult: i64, default_ts_ns: i64)
    requires
        ascii(table),
    ensures
        ingest::line_row(encode_utf8(name_text(table)), mult, default_ts_ns) is Err,
{
    let s = encode_utf8(name_text(table));
    assert(s.subrange(0, s.len() as int) =~= s);
    lemma_name(s, 0, table, 0x2c);
}

/// A text field whose closing quote is missing is refused.
pub proof fn an_open_quote_is_refused(s: Seq<u8>, p: int, t: Seq<char>)
    requires
        ascii(t),
        text::stands(s, p, encode_utf8(seq!['"'] + string_text(t))),
        s.len() == p + encode_utf8(seq!['"'] + string_text(t)).len(),
    ensures
        ingest::value_at(s, p) is Err,
{
    lemma_joined(seq!['"'], string_text(t));
    lemma_char('"');
    text::parts_stand(s, p, encode_utf8(seq!['"']), encode_utf8(string_text(t)));
    text::elements_stand(s, p, encode_utf8(seq!['"']), 0);
    lemma_string(s, p + 1, t);
}

/// A tag or a field that has no equals sign before it ends is refused.
pub proof fn a_name_without_a_value_is_refused(
    s: Seq<u8>,
    p: int,
    k: Seq<char>,
    done: Seq<(Seq<char>, FieldView)>,
    tags: Seq<(Seq<char>, Seq<char>)>,
)
    requires
        ascii(k),
        text::stands(s, p, encode_utf8(name_text(k))),
        p + encode_utf8(name_text(k)).len() == s.len() || s[p + encode_utf8(name_text(k)).len()]
            == 0x20,
    ensures
        ingest::fields_at(s, p, done) is Err,
        p > 0 && s[p - 1] == 0x2c ==> ingest::tags_at(s, p - 1, tags) is Err,
{
    lemma_name(s, p, k, 0x3d);
}

} // verus!
