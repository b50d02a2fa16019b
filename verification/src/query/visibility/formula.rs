//! What a label means: a formula over authorizations, how it is written, and
//! that a written formula is visible to exactly the sessions that satisfy it.
use crate::query::visibility;
use crate::query::visibility::Label;
use crate::text;
use vstd::prelude::*;
use vstd::utf8::*;

verus! {

/// A formula over authorizations: a token, bare or in quotes, or formulas of
/// which all or any are to hold.
pub enum Formula {
    Token(Seq<char>),
    Quoted(Seq<char>),
    All(Seq<Formula>),
    Any(Seq<Formula>),
}

/// Whether a session that holds these authorizations satisfies a formula.
pub open spec fn grants(f: Formula, auths: Seq<Seq<char>>) -> bool
    decreases f,
{
    match f {
        Formula::Token(t) => auths.contains(t),
        Formula::Quoted(t) => auths.contains(t),
        Formula::All(fs) => forall|i: int|
            #![trigger fs[i]]
            0 <= i < fs.len() ==> grants(fs[i], auths),
        Formula::Any(fs) => exists|i: int|
            #![trigger fs[i]]
            0 <= i < fs.len() && grants(fs[i], auths),
    }
}

/// The characters of a token that needs no quotes.
pub open spec fn plain(c: char) -> bool {
    ||| 'a' <= c <= 'z'
    ||| 'A' <= c <= 'Z'
    ||| '0' <= c <= '9'
    ||| c == '_'
    ||| c == '.'
    ||| c == ':'
    ||| c == '/'
    ||| c == '-'
}

/// Whether a text is a token that needs no quotes.
pub open spec fn plain_token(t: Seq<char>) -> bool {
    t.len() > 0 && forall|i: int| 0 <= i < t.len() ==> plain(#[trigger] t[i])
}

/// Whether a formula can be written: no token is empty, one without quotes
/// needs none, and there is something in each list.
pub open spec fn formed(f: Formula) -> bool
    decreases f,
{
    match f {
        Formula::Token(t) => plain_token(t),
        Formula::Quoted(t) => t.len() > 0,
        Formula::All(fs) => fs.len() > 0 && forall|i: int|
            #![trigger fs[i]]
            0 <= i < fs.len() ==> formed(fs[i]),
        Formula::Any(fs) => fs.len() > 0 && forall|i: int|
            #![trigger fs[i]]
            0 <= i < fs.len() ==> formed(fs[i]),
    }
}

/// A token in quotes, without them: a backslash before each quote and each
/// backslash.
pub open spec fn slashed(t: Seq<char>) -> Seq<char>
    decreases t.len(),
{
    if t.len() == 0 {
        Seq::empty()
    } else if t[0] == '"' || t[0] == '\\' {
        seq!['\\', t[0]] + slashed(t.drop_first())
    } else {
        seq![t[0]] + slashed(t.drop_first())
    }
}

/// A formula as one term, white space before each of its parts.
pub open spec fn term_text(f: Formula, gap: Seq<char>) -> Seq<char>
    decreases f,
{
    match f {
        Formula::Token(t) => gap + t,
        Formula::Quoted(t) => gap + (seq!['"'] + (slashed(t) + seq!['"'])),
        Formula::All(fs) => gap + (seq!['('] + (joined(fs, '&', gap) + (gap + seq![')']))),
        Formula::Any(fs) => gap + (seq!['('] + (joined(fs, '|', gap) + (gap + seq![')']))),
    }
}

/// Formulas with an operator between them.
pub open spec fn joined(fs: Seq<Formula>, op: char, gap: Seq<char>) -> Seq<char>
    decreases fs,
{
    if fs.len() == 0 {
        Seq::empty()
    } else if fs.len() == 1 {
        term_text(fs.last(), gap)
    } else {
        joined(fs.drop_last(), op, gap) + (gap + (seq![op] + term_text(fs.last(), gap)))
    }
}

/// White space as labels have it between their parts.
pub open spec fn is_gap(gap: Seq<char>) -> bool {
    forall|i: int|
        0 <= i < gap.len() ==> (#[trigger] gap[i] == ' ' || gap[i] == '\t' || gap[i] == '\n'
            || gap[i] == '\r' || gap[i] == '\u{c}')
}

/// A formula as a label: the outermost list needs no parentheses.
pub open spec fn label_text(f: Formula, gap: Seq<char>) -> Seq<char> {
    match f {
        Formula::All(fs) => joined(fs, '&', gap) + gap,
        Formula::Any(fs) => joined(fs, '|', gap) + gap,
        _ => term_text(f, gap) + gap,
    }
}

// -------------------------------------------------------------------- lemmas

proof fn lemma_gap(s: Seq<u8>, p: int, gap: Seq<char>)
    requires
        is_gap(gap),
        text::stands(s, p, encode_utf8(gap)),
    ensures
        encode_utf8(gap).len() == gap.len(),
        visibility::past_blanks(s, p) == visibility::past_blanks(s, p + gap.len()),
        gap.len() > 0 ==> visibility::blank(s[p]),
    decreases gap.len(),
{
    assert(is_ascii_chars(gap));
    is_ascii_chars_encode_utf8(gap);
    if gap.len() > 0 {
        let rest = gap.drop_first();
        assert(gap =~= seq![gap[0]] + rest);
        text::elements_stand(s, p, encode_utf8(gap), 0);
        assert(gap[0] as u8 == s[p]);
        encodings_of_two(gap[0], rest);
        text::parts_stand(s, p, encode_utf8(seq![gap[0]]), encode_utf8(rest));
        assert forall|i: int| 0 <= i < rest.len() implies (#[trigger] rest[i] == ' ' || rest[i]
            == '\t' || rest[i] == '\n' || rest[i] == '\r' || rest[i] == '\u{c}') by {
            assert(rest[i] == gap[i + 1]);
        }
        assert(is_ascii_chars(seq![gap[0]]));
        is_ascii_chars_encode_utf8(seq![gap[0]]);
        lemma_gap(s, p + 1, rest);
    }
}

/// The bytes of a character and a text behind it.
proof fn encodings_of_two(c: char, rest: Seq<char>)
    ensures
        encode_utf8(seq![c] + rest) == encode_utf8(seq![c]) + encode_utf8(rest),
        c as u32 <= 0x7f ==> encode_utf8(seq![c]) == seq![c as u8],
{
    text::encodings_join(seq![c], rest);
    if c as u32 <= 0x7f {
        assert(is_ascii_chars(seq![c]));
        is_ascii_chars_encode_utf8(seq![c]);
        assert(encode_utf8(seq![c]) =~= seq![c as u8]);
    }
}

proof fn lemma_no_quote(c: char)
    requires
        c as u32 <= 0x7f,
        c != '"',
        c != '\\',
    ensures
        c as u8 != 0x22,
        c as u8 != 0x5c,
{
}

proof fn lemma_token(s: Seq<u8>, p: int, t: Seq<char>)
    requires
        forall|i: int| 0 <= i < t.len() ==> plain(#[trigger] t[i]),
        text::stands(s, p, encode_utf8(t)),
    ensures
        encode_utf8(t).len() == t.len(),
        visibility::past_token(s, p) == visibility::past_token(s, p + t.len()),
        t.len() > 0 ==> visibility::token_byte(s[p]),
    decreases t.len(),
{
    assert(is_ascii_chars(t));
    is_ascii_chars_encode_utf8(t);
    if t.len() > 0 {
        let rest = t.drop_first();
        assert(t =~= seq![t[0]] + rest);
        text::elements_stand(s, p, encode_utf8(t), 0);
        assert(plain(t[0]));
        assert(t[0] as u8 == s[p]);
        encodings_of_two(t[0], rest);
        text::parts_stand(s, p, encode_utf8(seq![t[0]]), encode_utf8(rest));
        assert forall|i: int| 0 <= i < rest.len() implies plain(#[trigger] rest[i]) by {
            assert(rest[i] == t[i + 1]);
        }
        lemma_token(s, p + 1, rest);
    }
}

/// Bytes that are neither quotes nor backslashes are taken as they are.
proof fn lemma_quoted_run(s: Seq<u8>, p: int, w: Seq<u8>)
    requires
        text::stands(s, p, w),
        forall|i: int| 0 <= i < w.len() ==> #[trigger] w[i] != 0x22 && w[i] != 0x5c,
    ensures
        match visibility::quoted(s, p + w.len()) {
            Ok((t, e)) => visibility::quoted(s, p) == Ok::<(Seq<u8>, int), Seq<char>>((w + t, e)),
            Err(m) => visibility::quoted(s, p) == Err::<(Seq<u8>, int), Seq<char>>(m),
        },
    decreases w.len(),
{
    if w.len() == 0 {
        if let Ok((t, e)) = visibility::quoted(s, p) {
            assert(w + t =~= t);
        }
    } else {
        let rest = w.drop_first();
        assert(w =~= seq![w[0]] + rest);
        text::parts_stand(s, p, seq![w[0]], rest);
        text::elements_stand(s, p, w, 0);
        assert forall|i: int| 0 <= i < rest.len() implies #[trigger] rest[i] != 0x22 && rest[i]
            != 0x5c by {
            assert(rest[i] == w[i + 1]);
        }
        lemma_quoted_run(s, p + 1, rest);
        if let Ok((t, e)) = visibility::quoted(s, p + w.len()) {
            assert(w + t =~= seq![w[0]] + (rest + t));
        }
    }
}

proof fn lemma_quoted(s: Seq<u8>, p: int, t: Seq<char>)
    requires
        text::stands(s, p, encode_utf8(slashed(t) + seq!['"'])),
    ensures
        visibility::quoted(s, p) == Ok::<(Seq<u8>, int), Seq<char>>(
            (encode_utf8(t), p + encode_utf8(slashed(t) + seq!['"']).len()),
        ),
    decreases t.len(),
{
    encodings_of_two('"', Seq::empty());
    if t.len() == 0 {
        assert(slashed(t) + seq!['"'] =~= seq!['"']);
        text::elements_stand(s, p, encode_utf8(seq!['"']), 0);
        assert(encode_utf8(t) =~= Seq::empty());
    } else {
        let rest = t.drop_first();
        let tail = slashed(rest) + seq!['"'];
        assert(t =~= seq![t[0]] + rest);
        encodings_of_two(t[0], rest);
        if t[0] == '"' || t[0] == '\\' {
            assert(slashed(t) + seq!['"'] =~= seq!['\\'] + (seq![t[0]] + tail));
            encodings_of_two('\\', seq![t[0]] + tail);
            encodings_of_two(t[0], tail);
            text::parts_stand(s, p, encode_utf8(seq!['\\']), encode_utf8(seq![t[0]] + tail));
            text::parts_stand(s, p + 1, encode_utf8(seq![t[0]]), encode_utf8(tail));
            text::elements_stand(s, p, encode_utf8(seq!['\\']), 0);
            text::elements_stand(s, p + 1, encode_utf8(seq![t[0]]), 0);
            lemma_quoted(s, p + 2, rest);
        } else {
            assert(slashed(t) + seq!['"'] =~= seq![t[0]] + tail);
            encodings_of_two(t[0], tail);
            let w = encode_utf8(seq![t[0]]);
            text::parts_stand(s, p, w, encode_utf8(tail));
            if t[0] as u32 > 0x7f {
                text::beyond_ascii_is_high(t[0]);
            } else {
                lemma_no_quote(t[0]);
            }
            lemma_quoted(s, p + w.len(), rest);
            lemma_quoted_run(s, p, w);
        }
    }
}

/// A token is held exactly if it is one of the authorizations.
proof fn lemma_held(t: Seq<char>, auths: Seq<Seq<char>>)
    ensures
        visibility::satisfied(Label::Token(encode_utf8(t)), auths) <==> auths.contains(t),
{
    encode_utf8_decode_utf8(t);
    if visibility::satisfied(Label::Token(encode_utf8(t)), auths) {
        let k = choose|k: int|
            0 <= k < auths.len() && encode_utf8(#[trigger] auths[k]) == encode_utf8(t);
        encode_utf8_decode_utf8(auths[k]);
        assert(auths[k] == t);
    }
    if auths.contains(t) {
        let k = choose|k: int| 0 <= k < auths.len() && auths[k] == t;
        assert(encode_utf8(auths[k]) == encode_utf8(t));
    }
}

/// Whether the token bytes before a position end there.
pub open spec fn ends_token(s: Seq<u8>, e: int) -> bool {
    e >= s.len() || !visibility::token_byte(s[e])
}

/// Whether all of some formulas are satisfied, or any.
pub open spec fn held(fs: Seq<Formula>, op: char, auths: Seq<Seq<char>>) -> bool {
    if op == '&' {
        forall|i: int| #![trigger fs[i]] 0 <= i < fs.len() ==> grants(fs[i], auths)
    } else {
        exists|i: int| #![trigger fs[i]] 0 <= i < fs.len() && grants(fs[i], auths)
    }
}

/// Whether formulas can all be written.
pub open spec fn all_formed(fs: Seq<Formula>) -> bool {
    fs.len() > 0 && forall|i: int| #![trigger fs[i]] 0 <= i < fs.len() ==> formed(fs[i])
}

proof fn lemma_term(s: Seq<u8>, p: int, f: Formula, gap: Seq<char>, auths: Seq<Seq<char>>)
    requires
        formed(f),
        is_gap(gap),
        text::stands(s, p, encode_utf8(term_text(f, gap))),
        ends_token(s, p + encode_utf8(term_text(f, gap)).len()),
    ensures
        encode_utf8(term_text(f, gap)).len() > 0,
        visibility::term_at(s, p) is Ok,
        visibility::term_at(s, p)->Ok_0.1 == p + encode_utf8(term_text(f, gap)).len(),
        visibility::satisfied(visibility::term_at(s, p)->Ok_0.0, auths) == grants(f, auths),
    decreases f,
{
    match f {
        Formula::Token(t) => {
            text::encodings_join(gap, t);
            text::parts_stand(s, p, encode_utf8(gap), encode_utf8(t));
            lemma_gap(s, p, gap);
            let j = p + gap.len();
            lemma_token(s, j, t);
            assert(s.subrange(j, j + t.len()) == encode_utf8(t));
            lemma_held(t, auths);
        },
        Formula::Quoted(t) => {
            let tail = slashed(t) + seq!['"'];
            text::encodings_join(gap, seq!['"'] + tail);
            encodings_of_two('"', tail);
            text::parts_stand(s, p, encode_utf8(gap), encode_utf8(seq!['"'] + tail));
            lemma_gap(s, p, gap);
            let j = p + gap.len();
            text::parts_stand(s, j, encode_utf8(seq!['"']), encode_utf8(tail));
            text::elements_stand(s, j, encode_utf8(seq!['"']), 0);
            lemma_quoted(s, j + 1, t);
            assert(t =~= seq![t[0]] + t.drop_first());
            encodings_of_two(t[0], t.drop_first());
            if t[0] as u32 > 0x7f {
                text::beyond_ascii_is_high(t[0]);
            }
            lemma_held(t, auths);
        },
        Formula::All(fs) => {
            lemma_parenthesised(s, p, fs, '&', gap, auths);
        },
        Formula::Any(fs) => {
            lemma_parenthesised(s, p, fs, '|', gap, auths);
        },
    }
}

proof fn lemma_parenthesised(
    s: Seq<u8>,
    p: int,
    fs: Seq<Formula>,
    op: char,
    gap: Seq<char>,
    auths: Seq<Seq<char>>,
)
    requires
        all_formed(fs),
        op == '&' || op == '|',
        is_gap(gap),
        text::stands(
            s,
            p,
            encode_utf8(gap + (seq!['('] + (joined(fs, op, gap) + (gap + seq![')'])))),
        ),
    ensures
        ({
            let e = p + encode_utf8(gap + (seq!['('] + (joined(fs, op, gap) + (gap + seq![')'])))).len();
            &&& e > p
            &&& visibility::term_at(s, p) is Ok
            &&& visibility::term_at(s, p)->Ok_0.1 == e
            &&& visibility::satisfied(visibility::term_at(s, p)->Ok_0.0, auths) == held(
                fs,
                op,
                auths,
            )
        }),
    decreases fs, 1nat,
{
    let inner = joined(fs, op, gap);
    let close = gap + seq![')'];
    text::encodings_join(gap, seq!['('] + (inner + close));
    encodings_of_two('(', inner + close);
    text::encodings_join(inner, close);
    text::encodings_join(gap, seq![')']);
    encodings_of_two(')', Seq::empty());
    text::parts_stand(s, p, encode_utf8(gap), encode_utf8(seq!['('] + (inner + close)));
    lemma_gap(s, p, gap);
    let j = p + gap.len();
    text::parts_stand(s, j, encode_utf8(seq!['(']), encode_utf8(inner + close));
    text::elements_stand(s, j, encode_utf8(seq!['(']), 0);
    text::parts_stand(s, j + 1, encode_utf8(inner), encode_utf8(close));
    let e = j + 1 + encode_utf8(inner).len();
    text::parts_stand(s, e, encode_utf8(gap), encode_utf8(seq![')']));
    lemma_gap(s, e, gap);
    let f = e + gap.len();
    text::elements_stand(s, f, encode_utf8(seq![')']), 0);
    assert(!visibility::token_byte(s[e])) by {
        if gap.len() == 0 {
            assert(s[e] == 0x29);
        }
    }
    let label = lemma_joined(s, j + 1, fs, op, gap, auths);
    assert(visibility::past_blanks(s, e) == f);
    assert(s[f] == 0x29);
    assert(visibility::expression_at(s, j + 1) == Ok::<(Label, int), Seq<char>>((label, f)));
    assert(visibility::past_blanks(s, f) == f);
}

/// Formulas with one operator between them are read up to their end, and what
/// was read holds exactly if all of them do, or any.
proof fn lemma_joined(
    s: Seq<u8>,
    p: int,
    fs: Seq<Formula>,
    op: char,
    gap: Seq<char>,
    auths: Seq<Seq<char>>,
) -> (label: Label)
    requires
        all_formed(fs),
        op == '&' || op == '|',
        is_gap(gap),
        text::stands(s, p, encode_utf8(joined(fs, op, gap))),
        ends_token(s, p + encode_utf8(joined(fs, op, gap)).len()),
    ensures
        encode_utf8(joined(fs, op, gap)).len() > 0,
        visibility::expression_at(s, p) == visibility::more_at(
            s,
            p + encode_utf8(joined(fs, op, gap)).len(),
            label,
            if fs.len() > 1 {
                Some(op as u8)
            } else {
                None
            },
        ),
        visibility::satisfied(label, auths) == held(fs, op, auths),
    decreases fs, 0nat,
{
    let last = fs.last();
    assert(formed(fs[fs.len() - 1]));
    if fs.len() == 1 {
        lemma_term(s, p, last, gap, auths);
        assert(fs[0] == last);
        visibility::term_at(s, p)->Ok_0.0
    } else {
        let init = fs.drop_last();
        let front = joined(init, op, gap);
        let tail = seq![op] + term_text(last, gap);
        text::encodings_join(front, gap + tail);
        text::encodings_join(gap, tail);
        encodings_of_two(op, term_text(last, gap));
        text::parts_stand(s, p, encode_utf8(front), encode_utf8(gap + tail));
        let i = p + encode_utf8(front).len();
        text::parts_stand(s, i, encode_utf8(gap), encode_utf8(tail));
        lemma_gap(s, i, gap);
        let j = i + gap.len();
        text::parts_stand(s, j, encode_utf8(seq![op]), encode_utf8(term_text(last, gap)));
        text::elements_stand(s, j, encode_utf8(seq![op]), 0);
        assert(s[j] == op as u8);
        assert(!visibility::token_byte(s[i])) by {
            if gap.len() == 0 {
                assert(s[i] == op as u8);
            }
        }
        assert forall|k: int| #![trigger init[k]] 0 <= k < init.len() implies formed(init[k]) by {
            assert(init[k] == fs[k]);
        }
        let done = lemma_joined(s, p, init, op, gap, auths);
        lemma_term(s, j + 1, last, gap, auths);
        let right = visibility::term_at(s, j + 1)->Ok_0.0;
        assert(visibility::past_blanks(s, i) == j);
        let label = if op == '&' {
            Label::Both(Box::new(done), Box::new(right))
        } else {
            Label::Either(Box::new(done), Box::new(right))
        };
        assert(held(fs, op, auths) == (if op == '&' {
            held(init, op, auths) && grants(last, auths)
        } else {
            held(init, op, auths) || grants(last, auths)
        })) by {
            assert(fs[fs.len() - 1] == last);
            assert forall|k: int| 0 <= k < init.len() implies #[trigger] fs[k] == init[k] by {}
            if op == '&' {
                if held(fs, op, auths) {
                    assert forall|k: int| #![trigger init[k]] 0 <= k < init.len() implies grants(
                        init[k],
                        auths,
                    ) by {
                        assert(grants(fs[k], auths));
                    }
                }
            } else {
                if held(init, op, auths) {
                    let k = choose|k: int|
                        #![trigger init[k]]
                        0 <= k < init.len() && grants(init[k], auths);
                    assert(grants(fs[k], auths));
                }
                if held(fs, op, auths) {
                    let k = choose|k: int|
                        #![trigger fs[k]]
                        0 <= k < fs.len() && grants(fs[k], auths);
                    if k < init.len() {
                        assert(grants(init[k], auths));
                    }
                }
            }
        }
        label
    }
}

proof fn lemma_term_shows(f: Formula, gap: Seq<char>)
    requires
        formed(f),
    ensures
        gap.len() < term_text(f, gap).len(),
        !text::is_space(term_text(f, gap)[gap.len() as int]),
{
    if let Formula::Token(t) = f {
        assert(plain(t[0]));
        assert(term_text(f, gap)[gap.len() as int] == t[0]);
    }
}

proof fn lemma_joined_shows(fs: Seq<Formula>, op: char, gap: Seq<char>)
    requires
        all_formed(fs),
    ensures
        gap.len() < joined(fs, op, gap).len(),
        !text::is_space(joined(fs, op, gap)[gap.len() as int]),
    decreases fs.len(),
{
    if fs.len() == 1 {
        assert(formed(fs[0]));
        lemma_term_shows(fs.last(), gap);
    } else {
        let init = fs.drop_last();
        assert forall|k: int| #![trigger init[k]] 0 <= k < init.len() implies formed(init[k]) by {
            assert(init[k] == fs[k]);
        }
        lemma_joined_shows(init, op, gap);
    }
}

proof fn lemma_whole(s: Seq<u8>)
    ensures
        text::stands(s, 0, s),
{
    assert(s.subrange(0, s.len() as int) =~= s);
}

proof fn lemma_list_is_read(
    fs: Seq<Formula>,
    op: char,
    gap: Seq<char>,
    auths: Seq<Seq<char>>,
)
    requires
        all_formed(fs),
        op == '&' || op == '|',
        is_gap(gap),
    ensures
        visibility::verdict(joined(fs, op, gap) + gap, auths) == Ok::<bool, Seq<char>>(
            held(fs, op, auths),
        ),
{
    let t = joined(fs, op, gap) + gap;
    let s = encode_utf8(t);
    lemma_joined_shows(fs, op, gap);
    assert(t[gap.len() as int] == joined(fs, op, gap)[gap.len() as int]);
    text::more_than_space_is_left(t, gap.len() as int);
    text::encodings_join(joined(fs, op, gap), gap);
    lemma_whole(s);
    text::parts_stand(s, 0, encode_utf8(joined(fs, op, gap)), encode_utf8(gap));
    let e = encode_utf8(joined(fs, op, gap)).len() as int;
    lemma_gap(s, e, gap);
    let label = lemma_joined(s, 0, fs, op, gap, auths);
    assert(visibility::past_blanks(s, e) == s.len());
    assert(visibility::past_blanks(s, s.len() as int) == s.len());
}

/// A label is visible to exactly the sessions that satisfy it: for every
/// formula, however its lists nest and whatever white space stands between its
/// parts, the label that writes it is visible exactly if the authorizations
/// satisfy the formula.
pub proof fn a_label_is_visible_to_whom_it_grants(
    f: Formula,
    gap: Seq<char>,
    auths: Seq<Seq<char>>,
)
    requires
        formed(f),
        is_gap(gap),
    ensures
        visibility::verdict(label_text(f, gap), auths) == Ok::<bool, Seq<char>>(grants(f, auths)),
        visibility::visible(label_text(f, gap), auths) <==> grants(f, auths),
{
    match f {
        Formula::All(fs) => {
            lemma_list_is_read(fs, '&', gap, auths);
        },
        Formula::Any(fs) => {
            lemma_list_is_read(fs, '|', gap, auths);
        },
        _ => {
            let one = seq![f];
            assert(one.last() == f);
            assert(one[0] == f);
            lemma_list_is_read(one, '|', gap, auths);
            if held(one, '|', auths) {
                let k = choose|k: int|
                    #![trigger one[k]]
                    0 <= k < one.len() && grants(one[k], auths);
                assert(one[k] == f);
            }
        },
    }
}

proof fn lemma_separated(tokens: Seq<Seq<char>>, sep: char)
    requires
        tokens.len() > 0,
    ensures
        joined(tokens.map_values(|t: Seq<char>| Formula::Token(t)), sep, Seq::empty())
            == text::separated(tokens, sep),
    decreases tokens.len(),
{
    let fs = tokens.map_values(|t: Seq<char>| Formula::Token(t));
    let none = Seq::<char>::empty();
    assert(fs.last() == Formula::Token(tokens.last()));
    assert(term_text(fs.last(), none) =~= tokens.last());
    if tokens.len() > 1 {
        let init = tokens.drop_last();
        assert(fs.drop_last() =~= init.map_values(|t: Seq<char>| Formula::Token(t)));
        lemma_separated(init, sep);
        assert(joined(fs, sep, none) =~= text::separated(tokens, sep));
    }
}

/// Tokens with `|` between them are visible to a session exactly if it holds at
/// least one of them, and tokens with `&` between them exactly if it holds all,
/// however many there are.
pub proof fn tokens_ask_for_any_or_for_all(tokens: Seq<Seq<char>>, auths: Seq<Seq<char>>)
    requires
        tokens.len() > 0,
        forall|i: int| 0 <= i < tokens.len() ==> plain_token(#[trigger] tokens[i]),
    ensures
        visibility::visible(text::separated(tokens, '|'), auths) <==> exists|i: int|
            0 <= i < tokens.len() && auths.contains(#[trigger] tokens[i]),
        visibility::visible(text::separated(tokens, '&'), auths) <==> forall|i: int|
            0 <= i < tokens.len() ==> auths.contains(#[trigger] tokens[i]),
{
    let fs = tokens.map_values(|t: Seq<char>| Formula::Token(t));
    let none = Seq::<char>::empty();
    assert forall|i: int| #![trigger fs[i]] 0 <= i < fs.len() implies formed(fs[i]) by {
        assert(plain_token(tokens[i]));
    }
    lemma_separated(tokens, '|');
    lemma_separated(tokens, '&');
    lemma_list_is_read(fs, '|', none, auths);
    lemma_list_is_read(fs, '&', none, auths);
    assert(joined(fs, '|', none) + none =~= text::separated(tokens, '|'));
    assert(joined(fs, '&', none) + none =~= text::separated(tokens, '&'));
    if held(fs, '|', auths) {
        let k = choose|k: int| #![trigger fs[k]] 0 <= k < fs.len() && grants(fs[k], auths);
        assert(auths.contains(tokens[k]));
    }
    if exists|i: int| 0 <= i < tokens.len() && auths.contains(#[trigger] tokens[i]) {
        let i = choose|i: int| 0 <= i < tokens.len() && auths.contains(#[trigger] tokens[i]);
        assert(grants(fs[i], auths));
    }
    if held(fs, '&', auths) {
        assert forall|i: int| 0 <= i < tokens.len() implies auths.contains(
            #[trigger] tokens[i],
        ) by {
            assert(grants(fs[i], auths));
        }
    }
    if forall|i: int| 0 <= i < tokens.len() ==> auths.contains(#[trigger] tokens[i]) {
        assert forall|k: int| #![trigger fs[k]] 0 <= k < fs.len() implies grants(fs[k], auths) by {
            assert(auths.contains(tokens[k]));
        }
    }
}

/// A list that goes on with the other operator is malformed, whatever stands
/// behind that: no session sees it.
pub proof fn mixed_operators_hide_a_label(
    fs: Seq<Formula>,
    op: char,
    other: char,
    rest: Seq<char>,
    gap: Seq<char>,
    auths: Seq<Seq<char>>,
)
    requires
        fs.len() > 1,
        all_formed(fs),
        op == '&' && other == '|' || op == '|' && other == '&',
        is_gap(gap),
    ensures
        !visibility::visible(joined(fs, op, gap) + (gap + (seq![other] + rest)), auths),
{
    let front = joined(fs, op, gap);
    let tail = seq![other] + rest;
    let t = front + (gap + tail);
    let s = encode_utf8(t);
    lemma_joined_shows(fs, op, gap);
    assert(t[gap.len() as int] == front[gap.len() as int]);
    text::more_than_space_is_left(t, gap.len() as int);
    text::encodings_join(front, gap + tail);
    text::encodings_join(gap, tail);
    encodings_of_two(other, rest);
    lemma_whole(s);
    text::parts_stand(s, 0, encode_utf8(front), encode_utf8(gap + tail));
    let e = encode_utf8(front).len() as int;
    text::parts_stand(s, e, encode_utf8(gap), encode_utf8(tail));
    lemma_gap(s, e, gap);
    let j = e + gap.len();
    text::parts_stand(s, j, encode_utf8(seq![other]), encode_utf8(rest));
    text::elements_stand(s, j, encode_utf8(seq![other]), 0);
    assert(!visibility::token_byte(s[e])) by {
        if gap.len() == 0 {
            assert(s[e] == other as u8);
        }
    }
    let label = lemma_joined(s, 0, fs, op, gap, auths);
    assert(visibility::past_blanks(s, e) == j);
    assert(s[j] == other as u8);
}

/// A list in a parenthesis that nothing closes is malformed: no session sees
/// it.
pub proof fn an_open_parenthesis_hides_a_label(
    fs: Seq<Formula>,
    op: char,
    gap: Seq<char>,
    auths: Seq<Seq<char>>,
)
    requires
        all_formed(fs),
        op == '&' || op == '|',
        is_gap(gap),
    ensures
        !visibility::visible(gap + (seq!['('] + (joined(fs, op, gap) + gap)), auths),
{
    let inner = joined(fs, op, gap);
    let t = gap + (seq!['('] + (inner + gap));
    let s = encode_utf8(t);
    assert(t[gap.len() as int] == '(');
    text::more_than_space_is_left(t, gap.len() as int);
    text::encodings_join(gap, seq!['('] + (inner + gap));
    encodings_of_two('(', inner + gap);
    text::encodings_join(inner, gap);
    lemma_whole(s);
    text::parts_stand(s, 0, encode_utf8(gap), encode_utf8(seq!['('] + (inner + gap)));
    lemma_gap(s, 0, gap);
    let j = gap.len() as int;
    text::parts_stand(s, j, encode_utf8(seq!['(']), encode_utf8(inner + gap));
    text::elements_stand(s, j, encode_utf8(seq!['(']), 0);
    text::parts_stand(s, j + 1, encode_utf8(inner), encode_utf8(gap));
    let e = j + 1 + encode_utf8(inner).len();
    lemma_gap(s, e, gap);
    let label = lemma_joined(s, j + 1, fs, op, gap, auths);
    assert(e + gap.len() == s.len());
    assert(visibility::past_blanks(s, e) == s.len());
    assert(visibility::past_blanks(s, s.len() as int) == s.len());
    assert(visibility::expression_at(s, j + 1) == Ok::<(Label, int), Seq<char>>(
        (label, s.len() as int),
    ));
    assert(visibility::past_blanks(s, 0) == j);
    assert(visibility::term_at(s, 0) is Err);
}

} // verus!
