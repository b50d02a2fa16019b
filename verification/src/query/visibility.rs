//! Visibility labels: expressions over authorizations that decide which rows
//! a session sees.
//!
//! An empty label is visible to everyone. `&` and `|` are not mixed at one
//! level without parentheses. A token is a run of `[A-Za-z0-9_.:/-]` or any
//! string in double quotes, where a backslash escapes `"` and `\`. ASCII white
//! space between tokens is skipped. A malformed label is visible to no one.
pub mod formula;

use crate::text;
use vstd::prelude::*;
use vstd::utf8::*;

verus! {

/// A label that has been read: tokens, by their bytes, under `&` and `|`.
pub enum Label {
    Token(Seq<u8>),
    Both(Box<Label>, Box<Label>),
    Either(Box<Label>, Box<Label>),
}

/// Whether a set of authorizations satisfies a label.
pub open spec fn satisfied(label: Label, auths: Seq<Seq<char>>) -> bool
    decreases label,
{
    match label {
        Label::Token(t) => exists|k: int|
            0 <= k < auths.len() && encode_utf8(#[trigger] auths[k]) == t,
        Label::Both(a, b) => satisfied(*a, auths) && satisfied(*b, auths),
        Label::Either(a, b) => satisfied(*a, auths) || satisfied(*b, auths),
    }
}

// ------------------------------------------------------------- the grammar

/// ASCII white space: tab, line feed, form feed, carriage return, space.
pub open spec fn blank(b: u8) -> bool {
    b == 0x9 || b == 0xa || b == 0xc || b == 0xd || b == 0x20
}

/// The bytes of which an unquoted token consists.
pub open spec fn token_byte(b: u8) -> bool {
    ||| 0x30 <= b <= 0x39
    ||| 0x41 <= b <= 0x5a
    ||| 0x61 <= b <= 0x7a
    ||| b == 0x5f
    ||| b == 0x2d
    ||| b == 0x2e
    ||| b == 0x3a
    ||| b == 0x2f
}

/// The position behind the white space at `i`.
pub open spec fn past_blanks(s: Seq<u8>, i: int) -> int
    decreases s.len() - i,
{
    if 0 <= i < s.len() && blank(s[i]) {
        past_blanks(s, i + 1)
    } else {
        i
    }
}

/// The position behind the token bytes at `i`.
pub open spec fn past_token(s: Seq<u8>, i: int) -> int
    decreases s.len() - i,
{
    if 0 <= i < s.len() && token_byte(s[i]) {
        past_token(s, i + 1)
    } else {
        i
    }
}

/// The bytes of a quoted token from `i`, and the position behind its closing
/// quote, or why there is none.
pub open spec fn quoted(s: Seq<u8>, i: int) -> Result<(Seq<u8>, int), Seq<char>>
    decreases s.len() - i,
{
    if i < 0 || i >= s.len() {
        Err("unclosed '\"'"@)
    } else if s[i] == 0x22 {
        Ok((Seq::<u8>::empty(), i + 1))
    } else if s[i] == 0x5c {
        if i + 1 < s.len() && (s[i + 1] == 0x22 || s[i + 1] == 0x5c) {
            match quoted(s, i + 2) {
                Ok((t, e)) => Ok((seq![s[i + 1]] + t, e)),
                Err(m) => Err(m),
            }
        } else {
            Err("bad escape in quoted token"@)
        }
    } else {
        match quoted(s, i + 1) {
            Ok((t, e)) => Ok((seq![s[i]] + t, e)),
            Err(m) => Err(m),
        }
    }
}

/// The term at `i` and the position behind it, or why there is none.
pub open spec fn term_at(s: Seq<u8>, i: int) -> Result<(Label, int), Seq<char>>
    decreases s.len() - i, 0nat,
    when 0 <= i <= s.len()
    via term_at_ends
{
    let j = past_blanks(s, i);
    if j < s.len() && s[j] == 0x28 {
        match expression_at(s, j + 1) {
            Err(m) => Err(m),
            Ok((label, e)) => {
                let f = past_blanks(s, e);
                if f < s.len() && s[f] == 0x29 {
                    Ok((label, f + 1))
                } else {
                    Err("unclosed '('"@)
                }
            },
        }
    } else if j < s.len() && s[j] == 0x22 {
        match quoted(s, j + 1) {
            Err(m) => Err(m),
            Ok((t, e)) => if t.len() == 0 {
                Err("empty quoted token"@)
            } else {
                Ok((Label::Token(t), e))
            },
        }
    } else {
        let e = past_token(s, j);
        if e == j {
            Err("expected a token at byte "@ + text::decimal(j as nat))
        } else {
            Ok((Label::Token(s.subrange(j, e)), e))
        }
    }
}

/// A sequence of terms at `i` with one operator between them, and the
/// position behind it, or why there is none.
pub open spec fn expression_at(s: Seq<u8>, i: int) -> Result<(Label, int), Seq<char>>
    decreases s.len() - i, 1nat,
    when 0 <= i <= s.len()
{
    match term_at(s, i) {
        Err(m) => Err(m),
        Ok((label, e)) => if i < e <= s.len() {
            more_at(s, e, label, None)
        } else {
            Err(Seq::<char>::empty())
        },
    }
}

/// What stands at `i` behind the terms that `done` joins, `op` being the
/// operator between them so far.
pub open spec fn more_at(s: Seq<u8>, i: int, done: Label, op: Option<u8>) -> Result<
    (Label, int),
    Seq<char>,
>
    decreases s.len() - i, 0nat,
    when 0 <= i <= s.len()
    via more_at_ends
{
    let j = past_blanks(s, i);
    if j < s.len() && (s[j] == 0x26 || s[j] == 0x7c) {
        if op is Some && op->Some_0 != s[j] {
            Err("'&' and '|' mixed without parentheses"@)
        } else {
            match term_at(s, j + 1) {
                Err(m) => Err(m),
                Ok((label, e)) => if i < e <= s.len() {
                    let joined = if s[j] == 0x26 {
                        Label::Both(Box::new(done), Box::new(label))
                    } else {
                        Label::Either(Box::new(done), Box::new(label))
                    };
                    more_at(s, e, joined, Some(s[j]))
                } else {
                    Err(Seq::<char>::empty())
                },
            }
        }
    } else {
        Ok((done, j))
    }
}

#[via_fn]
proof fn term_at_ends(s: Seq<u8>, i: int) {
    lemma_past_blanks(s, i);
}

#[via_fn]
proof fn more_at_ends(s: Seq<u8>, i: int, done: Label, op: Option<u8>) {
    lemma_past_blanks(s, i);
}

proof fn lemma_past_blanks(s: Seq<u8>, i: int)
    requires
        0 <= i <= s.len(),
    ensures
        i <= past_blanks(s, i) <= s.len(),
    decreases s.len() - i,
{
    if i < s.len() && blank(s[i]) {
        lemma_past_blanks(s, i + 1);
    }
}

proof fn lemma_quoted_ends(s: Seq<u8>, i: int)
    requires
        0 <= i <= s.len(),
    ensures
        quoted(s, i) matches Ok((t, e)) ==> i < e <= s.len(),
    decreases s.len() - i,
{
    if i < s.len() && s[i] != 0x22 {
        if s[i] == 0x5c {
            if i + 1 < s.len() {
                lemma_quoted_ends(s, i + 2);
            }
        } else {
            lemma_quoted_ends(s, i + 1);
        }
    }
}

/// The label that a whole text spells, or why it spells none.
pub open spec fn label_of(s: Seq<char>) -> Result<Label, Seq<char>> {
    let b = encode_utf8(s);
    match expression_at(b, 0) {
        Err(m) => Err(m),
        Ok((label, e)) => {
            let f = past_blanks(b, e);
            if f == b.len() {
                Ok(label)
            } else {
                Err(
                    "trailing input at byte "@ + text::decimal(f as nat)
                        + " in visibility expression"@,
                )
            }
        },
    }
}

/// Whether authorizations satisfy the label that a text spells, or why the
/// text spells none. A blank text is satisfied by any.
pub open spec fn verdict(expr: Seq<char>, auths: Seq<Seq<char>>) -> Result<bool, Seq<char>> {
    if text::trimmed(expr).len() == 0 {
        Ok(true)
    } else {
        match label_of(expr) {
            Ok(label) => Ok(satisfied(label, auths)),
            Err(m) => Err(m),
        }
    }
}

/// Whether a row with this label is visible.
pub open spec fn visible(expr: Seq<char>, auths: Seq<Seq<char>>) -> bool {
    verdict(expr, auths) == Ok::<bool, Seq<char>>(true)
}

// -------------------------------------------------------------------- laws

/// A blank label is visible to every session.
pub proof fn blank_labels_are_public(expr: Seq<char>, auths: Seq<Seq<char>>)
    requires
        text::trimmed(expr).len() == 0,
    ensures
        visible(expr, auths),
{
}

/// A malformed label is visible to no session: whether a label is malformed
/// does not depend on who asks.
pub proof fn malformed_labels_are_hidden(
    expr: Seq<char>,
    auths: Seq<Seq<char>>,
    others: Seq<Seq<char>>,
)
    requires
        verdict(expr, auths) is Err,
    ensures
        verdict(expr, others) == verdict(expr, auths),
        !visible(expr, others),
{
}

proof fn lemma_more_satisfies_more(label: Label, few: Seq<Seq<char>>, many: Seq<Seq<char>>)
    requires
        forall|k: int| 0 <= k < few.len() ==> many.contains(#[trigger] few[k]),
        satisfied(label, few),
    ensures
        satisfied(label, many),
    decreases label,
{
    match label {
        Label::Token(t) => {
            let k = choose|k: int| 0 <= k < few.len() && encode_utf8(#[trigger] few[k]) == t;
            let j = choose|j: int| 0 <= j < many.len() && many[j] == few[k];
            assert(encode_utf8(many[j]) == t);
        },
        Label::Both(a, b) => {
            lemma_more_satisfies_more(*a, few, many);
            lemma_more_satisfies_more(*b, few, many);
        },
        Label::Either(a, b) => {
            if satisfied(*a, few) {
                lemma_more_satisfies_more(*a, few, many);
            } else {
                lemma_more_satisfies_more(*b, few, many);
            }
        },
    }
}

/// Holding more authorizations never hides a row.
pub proof fn more_authorizations_show_more(
    expr: Seq<char>,
    few: Seq<Seq<char>>,
    many: Seq<Seq<char>>,
)
    requires
        forall|k: int| 0 <= k < few.len() ==> many.contains(#[trigger] few[k]),
        visible(expr, few),
    ensures
        visible(expr, many),
{
    if text::trimmed(expr).len() > 0 {
        if let Ok(label) = label_of(expr) {
            lemma_more_satisfies_more(label, few, many);
        }
    }
}

// --------------------------------------------------------------- evaluation

/// Whether the reading of a part of a label agrees with the grammar.
spec fn agrees(
    r: Result<(bool, usize), String>,
    v: Result<(Label, int), Seq<char>>,
    auths: Seq<Seq<char>>,
) -> bool {
    match (r, v) {
        (Ok((b, e)), Ok((label, f))) => b == satisfied(label, auths) && e == f,
        (Err(m), Err(t)) => m@ == t,
        _ => false,
    }
}

fn skip_ws(s: &[u8], i: usize) -> (r: usize)
    requires
        i <= s.len(),
    ensures
        r == past_blanks(s@, i as int),
        i <= r <= s.len(),
{
    let mut j: usize = i;
    while j < s.len() && (s[j] == 0x9 || s[j] == 0xa || s[j] == 0xc || s[j] == 0xd || s[j] == 0x20)
        invariant
            i <= j <= s.len(),
            past_blanks(s@, i as int) == past_blanks(s@, j as int),
        decreases s.len() - j,
    {
        j += 1;
    }
    j
}

fn is_token_byte(b: u8) -> (r: bool)
    ensures
        r == token_byte(b),
{
    (0x30 <= b && b <= 0x39) || (0x41 <= b && b <= 0x5a) || (0x61 <= b && b <= 0x7a) || b == 0x5f
        || b == 0x2d || b == 0x2e || b == 0x3a || b == 0x2f
}

/// Whether a token's bytes are one of the authorizations.
fn holds(auths: &Vec<String>, token: &Vec<u8>) -> (r: bool)
    ensures
        r == satisfied(Label::Token(token@), text::texts(auths@)),
{
    let ghost names = text::texts(auths@);
    let mut i: usize = 0;
    while i < auths.len()
        invariant
            i <= auths.len(),
            names == text::texts(auths@),
            forall|k: int| 0 <= k < i ==> encode_utf8(#[trigger] names[k]) != token@,
        decreases auths.len() - i,
    {
        let a: &[u8] = auths[i].as_str().as_bytes();
        assert(a@ == encode_utf8(names[i as int]));
        if a.len() == token.len() {
            let mut j: usize = 0;
            while j < a.len() && a[j] == token[j]
                invariant
                    j <= a.len(),
                    a.len() == token.len(),
                    forall|k: int| 0 <= k < j ==> a@[k] == token@[k],
                decreases a.len() - j,
            {
                j += 1;
            }
            if j == a.len() {
                assert(a@ =~= token@);
                return true;
            }
            assert(a@[j as int] != token@[j as int]);
        }
        i += 1;
    }
    false
}

/// The bytes of a quoted token whose opening quote stands before `start`.
fn take_quoted(s: &[u8], start: usize) -> (r: Result<(Vec<u8>, usize), String>)
    requires
        start <= s.len(),
    ensures
        match (r, quoted(s@, start as int)) {
            (Ok((t, e)), Ok((u, f))) => t@ == u && e == f && start < e <= s.len(),
            (Err(m), Err(n)) => m@ == n,
            _ => false,
        },
{
    proof {
        lemma_quoted_ends(s@, start as int);
    }
    let ghost all = quoted(s@, start as int);
    let mut tok: Vec<u8> = Vec::new();
    let mut i: usize = start;
    proof {
        if let Ok((t, e)) = all {
            assert(tok@ + t =~= t);
        }
    }
    loop
        invariant
            start <= i <= s.len(),
            all == quoted(s@, start as int),
            all matches Ok((t, e)) ==> start < e <= s.len(),
            match (all, quoted(s@, i as int)) {
                (Ok((t, e)), Ok((rest, f))) => t == tok@ + rest && e == f,
                (Err(m), Err(n)) => m == n,
                _ => false,
            },
        decreases s.len() - i,
    {
        let ghost here = quoted(s@, i as int);
        let ghost done = tok@;
        if i >= s.len() {
            return Err(String::from_str("unclosed '\"'"));
        }
        let b: u8 = s[i];
        if b == 0x22 {
            assert(tok@ + Seq::<u8>::empty() =~= tok@);
            return Ok((tok, i + 1));
        }
        if b == 0x5c {
            if i + 1 < s.len() && (s[i + 1] == 0x22 || s[i + 1] == 0x5c) {
                tok.push(s[i + 1]);
                i += 2;
            } else {
                return Err(String::from_str("bad escape in quoted token"));
            }
        } else {
            tok.push(b);
            i += 1;
        }
        proof {
            if let Ok((rest, f)) = quoted(s@, i as int) {
                assert(done + here->Ok_0.0 =~= tok@ + rest);
            }
        }
    }
}

/// Evaluates the term at `i`.
fn term(s: &[u8], i: usize, auths: &Vec<String>) -> (r: Result<(bool, usize), String>)
    requires
        i <= s.len(),
    ensures
        agrees(r, term_at(s@, i as int), text::texts(auths@)),
        r matches Ok((b, e)) ==> i < e <= s.len(),
    decreases s.len() - i, 0nat,
{
    let j: usize = skip_ws(s, i);
    if j < s.len() && s[j] == 0x28 {
        return match expression(s, j + 1, auths) {
            Err(m) => Err(m),
            Ok((v, e)) => {
                let f: usize = skip_ws(s, e);
                if f < s.len() && s[f] == 0x29 {
                    Ok((v, f + 1))
                } else {
                    Err(String::from_str("unclosed '('"))
                }
            },
        };
    }
    if j < s.len() && s[j] == 0x22 {
        return match take_quoted(s, j + 1) {
            Err(m) => Err(m),
            Ok((tok, e)) => if tok.len() == 0 {
                Err(String::from_str("empty quoted token"))
            } else {
                Ok((holds(auths, &tok), e))
            },
        };
    }
    let mut e: usize = j;
    let mut tok: Vec<u8> = Vec::new();
    while e < s.len() && is_token_byte(s[e])
        invariant
            j <= e <= s.len(),
            past_token(s@, j as int) == past_token(s@, e as int),
            tok@ == s@.subrange(j as int, e as int),
        decreases s.len() - e,
    {
        assert(s@.subrange(j as int, e + 1) =~= s@.subrange(j as int, e as int).push(
            s@[e as int],
        ));
        tok.push(s[e]);
        e += 1;
    }
    if e == j {
        let mut m = String::from_str("expected a token at byte ");
        m.append(text::show(j as u64).as_str());
        return Err(m);
    }
    Ok((holds(auths, &tok), e))
}

/// Evaluates the sequence of terms at `start`.
fn expression(s: &[u8], start: usize, auths: &Vec<String>) -> (r: Result<(bool, usize), String>)
    requires
        start <= s.len(),
    ensures
        agrees(r, expression_at(s@, start as int), text::texts(auths@)),
        r matches Ok((b, e)) ==> start < e <= s.len(),
    decreases s.len() - start, 1nat,
{
    let ghost names = text::texts(auths@);
    let ghost all = expression_at(s@, start as int);
    let (first, e): (bool, usize) = match term(s, start, auths) {
        Err(m) => {
            return Err(m);
        },
        Ok(x) => x,
    };
    let mut acc: bool = first;
    let mut i: usize = e;
    let mut op: Option<u8> = None;
    let ghost mut label = term_at(s@, start as int)->Ok_0.0;
    loop
        invariant
            start < i <= s.len(),
            names == text::texts(auths@),
            all == expression_at(s@, start as int),
            all == more_at(s@, i as int, label, op),
            acc == satisfied(label, names),
        decreases s.len() - i,
    {
        let j: usize = skip_ws(s, i);
        if !(j < s.len() && (s[j] == 0x26 || s[j] == 0x7c)) {
            return Ok((acc, j));
        }
        let here: u8 = s[j];
        match op {
            Some(prev) => {
                if prev != here {
                    return Err(String::from_str("'&' and '|' mixed without parentheses"));
                }
            },
            None => {},
        }
        match term(s, j + 1, auths) {
            Err(m) => {
                return Err(m);
            },
            Ok((rhs, f)) => {
                proof {
                    let right = term_at(s@, j + 1)->Ok_0.0;
                    label = if here == 0x26 {
                        Label::Both(Box::new(label), Box::new(right))
                    } else {
                        Label::Either(Box::new(label), Box::new(right))
                    };
                }
                acc = if here == 0x26 {
                    acc && rhs
                } else {
                    acc || rhs
                };
                op = Some(here);
                i = f;
            },
        }
    }
}

/// Evaluates a label. A blank label is satisfied by any authorizations; a
/// malformed one is an error.
pub fn evaluate(expr: &str, auths: &Vec<String>) -> (r: Result<bool, String>)
    ensures
        match (r, verdict(expr@, text::texts(auths@))) {
            (Ok(b), Ok(v)) => b == v,
            (Err(m), Err(t)) => m@ == t,
            _ => false,
        },
{
    if text::trim(expr).as_str().is_empty() {
        return Ok(true);
    }
    let s: &[u8] = expr.as_bytes();
    match expression(s, 0, auths) {
        Err(m) => Err(m),
        Ok((v, e)) => {
            let f: usize = skip_ws(s, e);
            if f != s.len() {
                let mut m = String::from_str("trailing input at byte ");
                m.append(text::show(f as u64).as_str());
                m.append(" in visibility expression");
                return Err(m);
            }
            Ok(v)
        },
    }
}

/// Whether a session with these authorizations sees a row with this label. A
/// malformed label is seen by no one.
pub fn is_visible(expr: &str, auths: &Vec<String>) -> (r: bool)
    ensures
        r == visible(expr@, text::texts(auths@)),
{
    match evaluate(expr, auths) {
        Ok(v) => v,
        Err(_) => false,
    }
}

} // verus!
