//! Text as sequences of characters: comparison, ordering, splitting,
//! trimming and decimal numerals, each stated over `Seq<char>`.
use vstd::prelude::*;
use vstd::utf8::*;

verus! {

/// `String::push` of the standard library: the character is appended.
pub assume_specification[ String::push ](s: &mut String, c: char)
    ensures
        final(s)@ == old(s)@.push(c),
;

/// What `format!("{s:?}")` of the standard library prints of a string.
pub uninterp spec fn debug_text(s: Seq<char>) -> Seq<char>;

/// `format!("{s:?}")` of the standard library: the string as a quoted literal
/// with its special characters escaped. Which characters are escaped, and how,
/// is not stated; the result depends on the text alone.
#[verifier::external_body]
pub(crate) fn quote(s: &str) -> (r: String)
    ensures
        r@ == debug_text(s@),
{
    format!("{s:?}")
}

/// `String::from_utf8` of the standard library: the text that the bytes
/// encode, unless they are not UTF-8.
#[verifier::external_body]
pub(crate) fn text_of_bytes(b: &[u8]) -> (r: Option<String>)
    ensures
        match r {
            Some(s) => valid_utf8(b@) && s@ == decode_utf8(b@),
            None => !valid_utf8(b@),
        },
{
    String::from_utf8(b.to_vec()).ok()
}

/// Whether a sequence stands in another at a position.
pub open spec fn stands<A>(s: Seq<A>, p: int, w: Seq<A>) -> bool {
    0 <= p && p + w.len() <= s.len() && s.subrange(p, p + w.len()) == w
}

/// Where a sequence stands, its parts do.
pub proof fn parts_stand<A>(s: Seq<A>, p: int, a: Seq<A>, b: Seq<A>)
    requires
        stands(s, p, a + b),
    ensures
        stands(s, p, a),
        stands(s, p + a.len(), b),
{
    let w = a + b;
    assert forall|i: int| 0 <= i < w.len() implies s[p + i] == #[trigger] w[i] by {
        assert(s.subrange(p, p + w.len())[i] == w[i]);
    }
    assert forall|i: int| 0 <= i < a.len() implies s[p + i] == #[trigger] a[i] by {
        assert(w[i] == a[i]);
    }
    assert forall|i: int| 0 <= i < b.len() implies s[p + a.len() + i] == #[trigger] b[i] by {
        assert(w[a.len() + i] == b[i]);
    }
    assert(s.subrange(p, p + a.len()) =~= a);
    assert(s.subrange(p + a.len(), p + a.len() + b.len()) =~= b);
}

/// Where a sequence stands, its elements do.
pub proof fn elements_stand<A>(s: Seq<A>, p: int, w: Seq<A>, i: int)
    requires
        stands(s, p, w),
        0 <= i < w.len(),
    ensures
        s[p + i] == w[i],
{
    assert(s.subrange(p, p + w.len())[i] == w[i]);
}

/// The bytes of two texts in a row are those of the first and those of the
/// second.
pub proof fn encodings_join(a: Seq<char>, b: Seq<char>)
    ensures
        encode_utf8(a + b) == encode_utf8(a) + encode_utf8(b),
    decreases a.len(),
{
    if a.len() == 0 {
        assert(a + b =~= b);
        assert(encode_utf8(a) + encode_utf8(b) =~= encode_utf8(b));
    } else {
        assert((a + b).drop_first() =~= a.drop_first() + b);
        encodings_join(a.drop_first(), b);
        assert(encode_utf8(a + b) =~= encode_utf8(a) + encode_utf8(b));
    }
}

/// The bytes of an ASCII text are its characters.
pub proof fn ascii_is_its_bytes(a: Seq<char>)
    requires
        is_ascii_chars(a),
    ensures
        encode_utf8(a) == a.map_values(|c: char| c as u8),
{
    is_ascii_chars_encode_utf8(a);
    assert(encode_utf8(a) =~= a.map_values(|c: char| c as u8));
}

/// The bytes of a character that is not ASCII are none of those of ASCII.
pub proof fn beyond_ascii_is_high(c: char)
    requires
        c as u32 > 0x7f,
    ensures
        encode_utf8(seq![c]).len() > 0,
        forall|i: int|
            0 <= i < encode_utf8(seq![c]).len() ==> #[trigger] encode_utf8(seq![c])[i] >= 0x80,
{
    let u = c as u32;
    reveal_with_fuel(encode_utf8, 2);
    assert(seq![c].drop_first() =~= Seq::empty());
    assert(encode_utf8(seq![c]) =~= encode_scalar(u));
    assert(0xC0u8 | ((u >> 6) & 0x1F) as u8 >= 0x80) by (bit_vector);
    assert(0xE0u8 | ((u >> 12) & 0x0F) as u8 >= 0x80) by (bit_vector);
    assert(0xF0u8 | ((u >> 18) & 0x7) as u8 >= 0x80) by (bit_vector);
    assert(0x80u8 | (u & 0x3F) as u8 >= 0x80) by (bit_vector);
    assert(0x80u8 | ((u >> 6) & 0x3F) as u8 >= 0x80) by (bit_vector);
    assert(0x80u8 | ((u >> 12) & 0x3F) as u8 >= 0x80) by (bit_vector);
}

/// The texts that a vector of strings holds.
pub open spec fn texts(v: Seq<String>) -> Seq<Seq<char>> {
    v.map_values(|s: String| s@)
}

/// Whether two strings are the same text.
pub fn same(a: &str, b: &str) -> (r: bool)
    ensures
        r == (a@ == b@),
{
    let x: &[u8] = a.as_bytes();
    let y: &[u8] = b.as_bytes();
    proof {
        encode_utf8_decode_utf8(a@);
        encode_utf8_decode_utf8(b@);
    }
    if x.len() != y.len() {
        return false;
    }
    let mut i: usize = 0;
    while i < x.len()
        invariant
            i <= x.len(),
            x.len() == y.len(),
            x@ == encode_utf8(a@),
            y@ == encode_utf8(b@),
            forall|j: int| 0 <= j < i ==> x@[j] == y@[j],
        decreases x.len() - i,
    {
        if x[i] != y[i] {
            return false;
        }
        i += 1;
    }
    assert(x@ =~= y@);
    true
}

/// The characters of a string.
pub fn chars_of(s: &str) -> (v: Vec<char>)
    ensures
        v@ == s@,
{
    let mut v: Vec<char> = Vec::new();
    for c in it: s.chars()
        invariant
            it.seq() == s@,
            v@ == it.seq().take(it.index()),
    {
        proof {
            assert(it.seq().take(it.index() + 1) =~= it.seq().take(it.index()).push(c));
        }
        v.push(c);
    }
    assert(s@.take(s@.len() as int) =~= s@);
    v
}

/// The text at positions `lo..hi` of a run of characters.
pub fn slice_text(v: &Vec<char>, lo: usize, hi: usize) -> (s: String)
    requires
        lo <= hi <= v.len(),
    ensures
        s@ == v@.subrange(lo as int, hi as int),
{
    let mut s = String::new();
    let mut i: usize = lo;
    while i < hi
        invariant
            lo <= i <= hi <= v.len(),
            s@ == v@.subrange(lo as int, i as int),
        decreases hi - i,
    {
        assert(v@.subrange(lo as int, i + 1) =~= v@.subrange(lo as int, i as int).push(
            v@[i as int],
        ));
        s.push(v[i]);
        i += 1;
    }
    s
}

/// Whether `needle` is one of the listed texts.
pub fn contains_text(list: &Vec<String>, needle: &str) -> (r: bool)
    ensures
        r == texts(list@).contains(needle@),
{
    let mut i: usize = 0;
    while i < list.len()
        invariant
            i <= list.len(),
            forall|j: int| 0 <= j < i ==> texts(list@)[j] != needle@,
        decreases list.len() - i,
    {
        if same(list[i].as_str(), needle) {
            assert(texts(list@)[i as int] == needle@);
            return true;
        }
        i += 1;
    }
    false
}

/// A copy of a list of strings.
pub fn copy_texts(list: &Vec<String>) -> (r: Vec<String>)
    ensures
        r@ == list@,
{
    let mut r: Vec<String> = Vec::new();
    let mut i: usize = 0;
    while i < list.len()
        invariant
            i <= list.len(),
            r@ == list@.take(i as int),
        decreases list.len() - i,
    {
        assert(list@.take(i + 1) =~= list@.take(i as int).push(list@[i as int]));
        r.push(list[i].clone());
        i += 1;
    }
    assert(list@.take(list@.len() as int) =~= list@);
    r
}

// ---------------------------------------------------------------- order

/// Byte strings in dictionary order.
pub open spec fn bytes_before(a: Seq<u8>, b: Seq<u8>) -> bool
    decreases a.len(),
{
    if b.len() == 0 {
        false
    } else if a.len() == 0 {
        true
    } else if a[0] != b[0] {
        a[0] < b[0]
    } else {
        bytes_before(a.drop_first(), b.drop_first())
    }
}

/// Texts ordered by their UTF-8 bytes, the order of `String`.
pub open spec fn before(a: Seq<char>, b: Seq<char>) -> bool {
    bytes_before(encode_utf8(a), encode_utf8(b))
}

proof fn lemma_bytes_before_at(a: Seq<u8>, b: Seq<u8>, k: int)
    requires
        0 <= k <= a.len(),
        k <= b.len(),
        a.take(k) == b.take(k),
    ensures
        bytes_before(a, b) == bytes_before(a.skip(k), b.skip(k)),
    decreases k,
{
    if k == 0 {
        assert(a.skip(0) =~= a);
        assert(b.skip(0) =~= b);
    } else {
        assert(a[0] == a.take(k)[0]);
        assert(b[0] == b.take(k)[0]);
        let x = a.drop_first();
        let y = b.drop_first();
        assert forall|i: int| 0 <= i < k - 1 implies x[i] == y[i] by {
            assert(a.take(k)[i + 1] == a[i + 1]);
            assert(b.take(k)[i + 1] == b[i + 1]);
        }
        assert(x.take(k - 1) =~= y.take(k - 1));
        lemma_bytes_before_at(x, y, k - 1);
        assert(x.skip(k - 1) =~= a.skip(k));
        assert(y.skip(k - 1) =~= b.skip(k));
    }
}

/// The order of byte strings is a strict total order.
pub proof fn bytes_before_is_total(a: Seq<u8>, b: Seq<u8>)
    ensures
        !(bytes_before(a, b) && bytes_before(b, a)),
        bytes_before(a, b) || bytes_before(b, a) || a == b,
        a == b ==> !bytes_before(a, b),
    decreases a.len(),
{
    if a.len() > 0 && b.len() > 0 && a[0] == b[0] {
        bytes_before_is_total(a.drop_first(), b.drop_first());
        if a.drop_first() == b.drop_first() {
            assert(a =~= seq![a[0]] + a.drop_first());
            assert(b =~= seq![b[0]] + b.drop_first());
        }
    } else if a.len() == 0 && b.len() == 0 {
        assert(a =~= b);
    }
}

/// The order of byte strings is transitive.
pub proof fn bytes_before_is_transitive(a: Seq<u8>, b: Seq<u8>, c: Seq<u8>)
    requires
        bytes_before(a, b),
        bytes_before(b, c),
    ensures
        bytes_before(a, c),
    decreases a.len(),
{
    if a.len() > 0 && a[0] == b[0] && b[0] == c[0] {
        bytes_before_is_transitive(a.drop_first(), b.drop_first(), c.drop_first());
    }
}

/// The order of texts is a strict total order.
pub proof fn before_is_total(a: Seq<char>, b: Seq<char>)
    ensures
        !(before(a, b) && before(b, a)),
        before(a, b) || before(b, a) || a == b,
        a == b ==> !before(a, b),
{
    bytes_before_is_total(encode_utf8(a), encode_utf8(b));
    encode_utf8_decode_utf8(a);
    encode_utf8_decode_utf8(b);
}

/// The order of texts is transitive.
pub proof fn before_is_transitive(a: Seq<char>, b: Seq<char>, c: Seq<char>)
    requires
        before(a, b),
        before(b, c),
    ensures
        before(a, c),
{
    bytes_before_is_transitive(encode_utf8(a), encode_utf8(b), encode_utf8(c));
}

/// Byte strings are compared by the first place in which they differ: one comes
/// before another exactly if it is the other's beginning and shorter, or has the
/// smaller byte where they first differ.
pub proof fn the_first_difference_decides(a: Seq<u8>, b: Seq<u8>, k: int)
    requires
        0 <= k <= a.len(),
        k <= b.len(),
        a.take(k) == b.take(k),
        k < a.len() && k < b.len() ==> a[k] != b[k],
    ensures
        bytes_before(a, b) <==> if k == a.len() {
            k < b.len()
        } else {
            k < b.len() && a[k] < b[k]
        },
{
    lemma_bytes_before_at(a, b, k);
    let x = a.skip(k);
    let y = b.skip(k);
    if k < a.len() {
        assert(x[0] == a[k]);
    }
    if k < b.len() {
        assert(y[0] == b[k]);
    }
}

/// Whether one byte string comes before another.
pub fn comes_before_bytes(x: &[u8], y: &[u8]) -> (r: bool)
    ensures
        r == bytes_before(x@, y@),
{
    let mut i: usize = 0;
    while i < x.len() && i < y.len()
        invariant
            i <= x.len(),
            i <= y.len(),
            x@.take(i as int) == y@.take(i as int),
        decreases x.len() - i,
    {
        proof {
            lemma_bytes_before_at(x@, y@, i as int);
            assert(x@.skip(i as int)[0] == x@[i as int]);
            assert(y@.skip(i as int)[0] == y@[i as int]);
        }
        if x[i] != y[i] {
            return x[i] < y[i];
        }
        assert(x@.take(i + 1) =~= x@.take(i as int).push(x@[i as int]));
        assert(y@.take(i + 1) =~= y@.take(i as int).push(y@[i as int]));
        i += 1;
    }
    proof {
        lemma_bytes_before_at(x@, y@, i as int);
    }
    i < y.len()
}

/// Whether one text comes before another.
pub fn comes_before(a: &str, b: &str) -> (r: bool)
    ensures
        r == before(a@, b@),
{
    comes_before_bytes(a.as_bytes(), b.as_bytes())
}

// ------------------------------------------------------- pieces and case

/// The pieces of a text between occurrences of a separator.
pub open spec fn split_on(s: Seq<char>, sep: char) -> Seq<Seq<char>>
    decreases s.len(),
{
    if s.len() == 0 {
        seq![Seq::<char>::empty()]
    } else {
        let p = split_on(s.drop_last(), sep);
        if s.last() == sep {
            p.push(Seq::<char>::empty())
        } else {
            p.drop_last().push(p.last().push(s.last()))
        }
    }
}

/// Splitting yields at least one piece, and no piece holds the separator.
pub proof fn pieces_hold_no_separator(s: Seq<char>, sep: char)
    ensures
        split_on(s, sep).len() >= 1,
        forall|i: int|
            0 <= i < split_on(s, sep).len() ==> !(#[trigger] split_on(s, sep)[i]).contains(sep),
    decreases s.len(),
{
    if s.len() > 0 {
        pieces_hold_no_separator(s.drop_last(), sep);
        let p = split_on(s.drop_last(), sep);
        if s.last() != sep {
            assert(!p.last().contains(sep));
            let q = p.last().push(s.last());
            assert forall|k: int| 0 <= k < q.len() implies q[k] != sep by {
                if k < p.last().len() {
                    assert(q[k] == p.last()[k]);
                }
            }
        }
    }
}

/// The pieces of `s` between occurrences of `sep`.
pub fn split(s: &str, sep: char) -> (r: Vec<String>)
    ensures
        texts(r@) == split_on(s@, sep),
        r@.len() >= 1,
{
    let v = chars_of(s);
    let mut r: Vec<String> = Vec::new();
    let mut cur = String::new();
    let mut i: usize = 0;
    assert(v@.take(0) =~= Seq::<char>::empty());
    assert(texts(r@).push(cur@) =~= seq![Seq::<char>::empty()]);
    while i < v.len()
        invariant
            i <= v.len(),
            texts(r@).push(cur@) == split_on(v@.take(i as int), sep),
        decreases v.len() - i,
    {
        let ghost before_step = texts(r@);
        proof {
            assert(v@.take(i + 1).drop_last() =~= v@.take(i as int));
            assert(before_step.push(cur@).drop_last() =~= before_step);
        }
        if v[i] == sep {
            r.push(cur);
            cur = String::new();
            assert(texts(r@) =~= before_step.push(r@.last()@));
        } else {
            cur.push(v[i]);
        }
        i += 1;
    }
    assert(v@.take(v@.len() as int) =~= v@);
    let ghost done = texts(r@);
    r.push(cur);
    assert(texts(r@) =~= done.push(cur@));
    r
}

/// Texts with a separator between them.
pub open spec fn separated(pieces: Seq<Seq<char>>, sep: char) -> Seq<char>
    decreases pieces.len(),
{
    if pieces.len() == 0 {
        Seq::empty()
    } else if pieces.len() == 1 {
        pieces[0]
    } else {
        separated(pieces.drop_last(), sep).push(sep) + pieces.last()
    }
}

proof fn lemma_split_behind(a: Seq<char>, b: Seq<char>, sep: char)
    requires
        !b.contains(sep),
    ensures
        split_on(a.push(sep) + b, sep) == split_on(a, sep).push(b),
        split_on(b, sep) == seq![b],
    decreases b.len(),
{
    if b.len() == 0 {
        assert(a.push(sep) + b =~= a.push(sep));
        assert(a.push(sep).drop_last() =~= a);
        assert(b =~= Seq::empty());
    } else {
        let init = b.drop_last();
        assert(b[b.len() - 1] != sep);
        assert(!init.contains(sep)) by {
            if init.contains(sep) {
                let i = choose|i: int| 0 <= i < init.len() && init[i] == sep;
                assert(b[i] == sep);
            }
        }
        lemma_split_behind(a, init, sep);
        assert((a.push(sep) + b).drop_last() =~= a.push(sep) + init);
        assert(init.push(b.last()) =~= b);
        assert(split_on(a, sep).push(init).drop_last() =~= split_on(a, sep));
        assert(seq![init].drop_last().push(init.push(b.last())) =~= seq![b]);
    }
}

/// Splitting undoes separating: texts without the separator are the pieces of
/// what is made of them with it.
pub proof fn splitting_undoes_separating(pieces: Seq<Seq<char>>, sep: char)
    requires
        pieces.len() > 0,
        forall|i: int| 0 <= i < pieces.len() ==> !(#[trigger] pieces[i]).contains(sep),
    ensures
        split_on(separated(pieces, sep), sep) == pieces,
    decreases pieces.len(),
{
    assert(!pieces[pieces.len() - 1].contains(sep));
    if pieces.len() == 1 {
        lemma_split_behind(Seq::empty(), pieces[0], sep);
        assert(seq![pieces[0]] =~= pieces);
    } else {
        let init = pieces.drop_last();
        assert forall|i: int| 0 <= i < init.len() implies !(#[trigger] init[i]).contains(sep) by {
            assert(init[i] == pieces[i]);
        }
        splitting_undoes_separating(init, sep);
        lemma_split_behind(separated(init, sep), pieces.last(), sep);
        assert(init.push(pieces.last()) =~= pieces);
    }
}

/// Separating undoes splitting: the pieces of a text, with the separator
/// between them, are the text.
pub proof fn separating_undoes_splitting(s: Seq<char>, sep: char)
    ensures
        separated(split_on(s, sep), sep) == s,
    decreases s.len(),
{
    pieces_hold_no_separator(s, sep);
    if s.len() > 0 {
        let init = s.drop_last();
        separating_undoes_splitting(init, sep);
        pieces_hold_no_separator(init, sep);
        let p = split_on(init, sep);
        let q = split_on(s, sep);
        assert(s =~= init.push(s.last()));
        if s.last() == sep {
            assert(q.drop_last() =~= p);
            assert(separated(q, sep) =~= s);
        } else {
            assert(q.drop_last() =~= p.drop_last());
            assert(separated(q, sep) =~= separated(p, sep).push(s.last()));
        }
    }
}

/// Unicode's White_Space property.
pub open spec fn is_space(c: char) -> bool {
    ||| 0x9 <= c as u32 <= 0xd
    ||| c as u32 == 0x20
    ||| c as u32 == 0x85
    ||| c as u32 == 0xa0
    ||| c as u32 == 0x1680
    ||| 0x2000 <= c as u32 <= 0x200a
    ||| c as u32 == 0x2028
    ||| c as u32 == 0x2029
    ||| c as u32 == 0x202f
    ||| c as u32 == 0x205f
    ||| c as u32 == 0x3000
}

/// Whether a character is white space.
pub fn space(c: char) -> (r: bool)
    ensures
        r == is_space(c),
{
    let u: u32 = c as u32;
    (0x9 <= u && u <= 0xd) || u == 0x20 || u == 0x85 || u == 0xa0 || u == 0x1680 || (0x2000 <= u
        && u <= 0x200a) || u == 0x2028 || u == 0x2029 || u == 0x202f || u == 0x205f || u == 0x3000
}

/// A text without its leading white space.
pub open spec fn trim_front(s: Seq<char>) -> Seq<char>
    decreases s.len(),
{
    if s.len() > 0 && is_space(s[0]) {
        trim_front(s.drop_first())
    } else {
        s
    }
}

/// A text without its trailing white space.
pub open spec fn trim_back(s: Seq<char>) -> Seq<char>
    decreases s.len(),
{
    if s.len() > 0 && is_space(s.last()) {
        trim_back(s.drop_last())
    } else {
        s
    }
}

/// A text without the white space around it.
pub open spec fn trimmed(s: Seq<char>) -> Seq<char> {
    trim_back(trim_front(s))
}

/// Trimming takes off white space alone, and all of it at either end: a text
/// is what is left of it between two runs of white space, and what is left
/// neither starts nor ends in any.
pub proof fn trimming_takes_off_space(s: Seq<char>) -> (r: (Seq<char>, Seq<char>))
    ensures
        s == r.0 + trimmed(s) + r.1,
        forall|i: int| 0 <= i < r.0.len() ==> is_space(#[trigger] r.0[i]),
        forall|i: int| 0 <= i < r.1.len() ==> is_space(#[trigger] r.1[i]),
        trimmed(s).len() > 0 ==> !is_space(trimmed(s)[0]) && !is_space(trimmed(s).last()),
{
    let a = lemma_trim_front(s);
    let b = lemma_trim_back(trim_front(s));
    assert(s =~= a + trimmed(s) + b);
    if trimmed(s).len() > 0 {
        assert(trimmed(s)[0] == trim_front(s)[0]);
    }
    (a, b)
}

proof fn lemma_trim_front(s: Seq<char>) -> (a: Seq<char>)
    ensures
        s == a + trim_front(s),
        forall|i: int| 0 <= i < a.len() ==> is_space(#[trigger] a[i]),
        trim_front(s).len() > 0 ==> !is_space(trim_front(s)[0]),
    decreases s.len(),
{
    if s.len() > 0 && is_space(s[0]) {
        let rest = lemma_trim_front(s.drop_first());
        let a = seq![s[0]] + rest;
        assert(s =~= seq![s[0]] + s.drop_first());
        assert(a + trim_front(s) =~= seq![s[0]] + (rest + trim_front(s)));
        a
    } else {
        assert(s =~= Seq::<char>::empty() + s);
        Seq::empty()
    }
}

proof fn lemma_trim_back(s: Seq<char>) -> (b: Seq<char>)
    ensures
        s == trim_back(s) + b,
        forall|i: int| 0 <= i < b.len() ==> is_space(#[trigger] b[i]),
        trim_back(s).len() > 0 ==> !is_space(trim_back(s).last()),
    decreases s.len(),
{
    if s.len() > 0 && is_space(s.last()) {
        let rest = lemma_trim_back(s.drop_last());
        let b = rest.push(s.last());
        assert(s =~= s.drop_last().push(s.last()));
        assert(trim_back(s) + b =~= (trim_back(s) + rest).push(s.last()));
        b
    } else {
        assert(s =~= s + Seq::<char>::empty());
        Seq::empty()
    }
}

/// A text that holds anything but white space is not blank.
pub proof fn more_than_space_is_left(s: Seq<char>, i: int)
    requires
        0 <= i < s.len(),
        !is_space(s[i]),
    ensures
        trimmed(s).len() > 0,
{
    let (a, b) = trimming_takes_off_space(s);
    if trimmed(s).len() == 0 {
        if i < a.len() {
            assert(a[i] == s[i]);
        } else {
            assert(b[i - a.len()] == s[i]);
        }
    }
}

/// Only white space around a text is taken off it, and all of that.
pub proof fn what_stands_in_space_is_left(a: Seq<char>, t: Seq<char>, b: Seq<char>)
    requires
        forall|i: int| 0 <= i < a.len() ==> is_space(#[trigger] a[i]),
        forall|i: int| 0 <= i < b.len() ==> is_space(#[trigger] b[i]),
        t.len() > 0 ==> !is_space(t[0]) && !is_space(t.last()),
    ensures
        trimmed(a + t + b) == t,
{
    let s = a + t + b;
    let (c, d) = trimming_takes_off_space(s);
    let m = trimmed(s);
    if t.len() == 0 {
        if m.len() > 0 {
            let i = c.len() as int;
            assert(m[0] == s[i]);
            if i < a.len() {
                assert(a[i] == s[i]);
            } else {
                assert(b[i - a.len()] == s[i]);
            }
        }
        assert(m =~= t);
    } else {
        assert(s[a.len() as int] == t[0]);
        more_than_space_is_left(s, a.len() as int);
        let x = a.len() as int;
        let y = c.len() as int;
        if x < y {
            assert(c[x] == s[x]);
        }
        if y < x {
            assert(a[y] == s[y]);
            assert(m[0] == s[y]);
        }
        let u = a.len() + t.len() - 1;
        let v = c.len() + m.len() - 1;
        assert(s[u] == t.last());
        assert(s[v] == m.last());
        if u < v {
            assert(b[v - u - 1] == s[v]);
        }
        if v < u {
            assert(d[u - v - 1] == s[u]);
        }
        assert forall|i: int| 0 <= i < t.len() implies m[i] == #[trigger] t[i] by {
            assert(s[x + i] == t[i]);
            assert(s[y + i] == m[i]);
        }
        assert(m =~= t);
    }
}

/// `s` without the white space around it.
pub fn trim(s: &str) -> (r: String)
    ensures
        r@ == trimmed(s@),
{
    let v = chars_of(s);
    let mut lo: usize = 0;
    assert(v@.subrange(0, v@.len() as int) =~= v@);
    while lo < v.len() && space(v[lo])
        invariant
            lo <= v.len(),
            trim_front(v@) == trim_front(v@.subrange(lo as int, v@.len() as int)),
        decreases v.len() - lo,
    {
        assert(v@.subrange(lo as int, v@.len() as int).drop_first() =~= v@.subrange(
            lo + 1,
            v@.len() as int,
        ));
        lo += 1;
    }
    let ghost front = trim_front(v@);
    assert(front == v@.subrange(lo as int, v@.len() as int));
    let mut hi: usize = v.len();
    while hi > lo && space(v[hi - 1])
        invariant
            lo <= hi <= v.len(),
            trim_back(front) == trim_back(v@.subrange(lo as int, hi as int)),
        decreases hi,
    {
        assert(v@.subrange(lo as int, hi as int).drop_last() =~= v@.subrange(lo as int, hi - 1));
        hi -= 1;
    }
    slice_text(&v, lo, hi)
}

/// A character with ASCII capitals made small.
pub open spec fn small(c: char) -> char {
    if 'A' <= c <= 'Z' {
        (c as u32 + 32) as char
    } else {
        c
    }
}

/// A text with ASCII capitals made small.
pub open spec fn lowered(s: Seq<char>) -> Seq<char> {
    s.map_values(|c: char| small(c))
}

/// `c` with an ASCII capital made small.
pub fn lower_char(c: char) -> (r: char)
    ensures
        r == small(c),
{
    if 'A' <= c && c <= 'Z' {
        ((c as u8) + 32u8) as char
    } else {
        c
    }
}

/// `s` with ASCII capitals made small.
pub fn lower(s: &str) -> (r: String)
    ensures
        r@ == lowered(s@),
{
    let v = chars_of(s);
    let mut r = String::new();
    let mut i: usize = 0;
    assert(lowered(v@).take(0) =~= Seq::<char>::empty());
    while i < v.len()
        invariant
            i <= v.len(),
            r@ == lowered(v@).take(i as int),
        decreases v.len() - i,
    {
        assert(lowered(v@).take(i + 1) =~= lowered(v@).take(i as int).push(small(v@[i as int])));
        r.push(lower_char(v[i]));
        i += 1;
    }
    assert(lowered(v@).take(v@.len() as int) =~= lowered(v@));
    r
}

// -------------------------------------------------------------- numerals

/// The character of a digit.
pub open spec fn digit(d: int) -> char {
    (48 + d) as char
}

/// Whether a character is an ASCII digit.
pub open spec fn is_digit(c: char) -> bool {
    '0' <= c <= '9'
}

/// The value of a digit.
pub open spec fn digit_value(c: char) -> nat {
    (c as u32 - 48) as nat
}

/// The decimal numeral of a number.
pub open spec fn decimal(n: nat) -> Seq<char>
    decreases n,
{
    if n < 10 {
        seq![digit(n as int)]
    } else {
        decimal(n / 10).push(digit((n % 10) as int))
    }
}

/// The decimal numeral of an integer.
pub open spec fn signed_decimal(n: int) -> Seq<char> {
    if n < 0 {
        seq!['-'] + decimal((-n) as nat)
    } else {
        decimal(n as nat)
    }
}

/// Whether a text is one digit or more.
pub open spec fn all_digits(s: Seq<char>) -> bool {
    s.len() > 0 && forall|i: int| 0 <= i < s.len() ==> is_digit(#[trigger] s[i])
}

/// The number that a run of digits spells.
pub open spec fn number(s: Seq<char>) -> nat
    decreases s.len(),
{
    if s.len() == 0 {
        0
    } else {
        number(s.drop_last()) * 10 + digit_value(s.last())
    }
}

/// What a text spells as an unsigned number of at most `max`: digits, with an
/// optional plus sign before them.
pub open spec fn unsigned_of(s: Seq<char>, max: nat) -> Option<nat> {
    let d = if s.len() > 0 && s[0] == '+' {
        s.drop_first()
    } else {
        s
    };
    if all_digits(d) && number(d) <= max {
        Some(number(d))
    } else {
        None
    }
}

/// What a text spells as a 64-bit integer: digits, with an optional sign
/// before them.
pub open spec fn signed_of(s: Seq<char>) -> Option<int> {
    if s.len() > 0 && s[0] == '-' {
        let d = s.drop_first();
        if all_digits(d) && number(d) <= 0x8000_0000_0000_0000 {
            Some(-(number(d) as int))
        } else {
            None
        }
    } else {
        match unsigned_of(s, 0x7fff_ffff_ffff_ffff) {
            Some(n) => Some(n as int),
            None => None,
        }
    }
}

/// A numeral consists of digits and spells its number.
pub proof fn decimal_spells(n: nat)
    ensures
        all_digits(decimal(n)),
        number(decimal(n)) == n,
    decreases n,
{
    reveal_with_fuel(number, 2);
    if n < 10 {
        assert(decimal(n).drop_last() =~= Seq::<char>::empty());
        assert(decimal(n).last() == digit(n as int));
    } else {
        decimal_spells(n / 10);
        let s = decimal(n);
        assert(s.drop_last() =~= decimal(n / 10));
        assert(s.last() == digit((n % 10) as int));
        assert forall|i: int| 0 <= i < s.len() implies is_digit(#[trigger] s[i]) by {
            if i < decimal(n / 10).len() {
                assert(s[i] == decimal(n / 10)[i]);
            }
        }
    }
}

/// The numeral of an unsigned number is read back as that number.
pub proof fn unsigned_numerals_read_back(n: nat, max: nat)
    requires
        n <= max,
    ensures
        unsigned_of(decimal(n), max) == Some(n),
{
    decimal_spells(n);
    assert(is_digit(decimal(n)[0]));
}

/// The numeral of a 64-bit integer is read back as that integer.
pub proof fn signed_numerals_read_back(n: i64)
    ensures
        signed_of(signed_decimal(n as int)) == Some(n as int),
{
    if n < 0 {
        let m = (-(n as int)) as nat;
        decimal_spells(m);
        assert((seq!['-'] + decimal(m)).drop_first() =~= decimal(m));
    } else {
        unsigned_numerals_read_back(n as nat, 0x7fff_ffff_ffff_ffff);
        decimal_spells(n as nat);
        assert(is_digit(decimal(n as nat)[0]));
    }
}

/// The decimal numeral of `n`.
pub fn show(n: u64) -> (r: String)
    ensures
        r@ == decimal(n as nat),
    decreases n,
{
    let mut s = if n < 10 {
        String::new()
    } else {
        show(n / 10)
    };
    s.push((48u8 + (n % 10) as u8) as char);
    assert(n < 10 ==> s@ =~= decimal(n as nat));
    s
}

/// The decimal numeral of `n`.
pub fn show_signed(n: i64) -> (r: String)
    ensures
        r@ == signed_decimal(n as int),
{
    if n < 0 {
        let mut s = String::new();
        s.push('-');
        let m: u64 = if n == i64::MIN {
            0x8000_0000_0000_0000
        } else {
            (-n) as u64
        };
        s.append(show(m).as_str());
        assert(s@ =~= signed_decimal(n as int));
        s
    } else {
        show(n as u64)
    }
}

/// The number that the digits at `lo..` spell, unless one is no digit, there
/// is none, or the number is over `max`.
fn read_digits(v: &Vec<char>, lo: usize, max: u64) -> (r: Option<u64>)
    requires
        lo <= v.len(),
    ensures
        ({
            let d = v@.skip(lo as int);
            if all_digits(d) && number(d) <= max {
                r == Some(number(d) as u64)
            } else {
                r is None
            }
        }),
{
    let ghost d = v@.skip(lo as int);
    if lo == v.len() {
        return None;
    }
    let mut acc: u64 = 0;
    let mut over: bool = false;
    let mut i: usize = lo;
    while i < v.len()
        invariant
            lo <= i <= v.len(),
            lo < v.len(),
            d == v@.skip(lo as int),
            forall|j: int| 0 <= j < i - lo ==> is_digit(#[trigger] d[j]),
            !over ==> acc == number(d.take(i - lo)) && acc <= max,
            over ==> number(d.take(i - lo)) > max,
        decreases v.len() - i,
    {
        let c = v[i];
        assert(c == d[i - lo]);
        if !('0' <= c && c <= '9') {
            assert(!is_digit(d[i - lo]));
            return None;
        }
        let k: u64 = ((c as u8) - 48) as u64;
        assert(d.take(i + 1 - lo).drop_last() =~= d.take(i - lo));
        assert(d.take(i + 1 - lo).last() == c);
        if !over {
            if acc > (u64::MAX - k) / 10 || acc * 10 + k > max {
                over = true;
            } else {
                acc = acc * 10 + k;
            }
        }
        i += 1;
    }
    assert(d.take(d.len() as int) =~= d);
    if over {
        None
    } else {
        Some(acc)
    }
}

/// What `s` spells as an unsigned number of at most `max`.
pub fn read_unsigned(s: &str, max: u64) -> (r: Option<u64>)
    ensures
        match unsigned_of(s@, max as nat) {
            Some(n) => r == Some(n as u64),
            None => r is None,
        },
{
    let v = chars_of(s);
    let lo: usize = if v.len() > 0 && v[0] == '+' {
        1
    } else {
        0
    };
    assert(v@.skip(0) =~= v@);
    assert(v@.len() > 0 ==> v@.skip(1) =~= v@.drop_first());
    read_digits(&v, lo, max)
}

/// What `s` spells as a 64-bit integer.
pub fn read_signed(s: &str) -> (r: Option<i64>)
    ensures
        match signed_of(s@) {
            Some(n) => r == Some(n as i64),
            None => r is None,
        },
{
    let v = chars_of(s);
    if v.len() > 0 && v[0] == '-' {
        assert(v@.skip(1) =~= v@.drop_first());
        match read_digits(&v, 1, 0x8000_0000_0000_0000) {
            Some(n) => {
                if n == 0x8000_0000_0000_0000 {
                    Some(i64::MIN)
                } else {
                    Some(-(n as i64))
                }
            },
            None => None,
        }
    } else {
        match read_unsigned(s, 0x7fff_ffff_ffff_ffff) {
            Some(n) => Some(n as i64),
            None => None,
        }
    }
}

/// A run of zeros.
pub open spec fn zeros(n: nat) -> Seq<char> {
    Seq::new(n, |i: int| '0')
}

/// A numeral with zeros before it up to a width.
pub open spec fn padded(n: nat, width: nat) -> Seq<char> {
    if decimal(n).len() >= width {
        decimal(n)
    } else {
        zeros((width - decimal(n).len()) as nat) + decimal(n)
    }
}

/// One with so many zeros behind it.
pub open spec fn tens(n: nat) -> nat
    decreases n,
{
    if n == 0 {
        1
    } else {
        10 * tens((n - 1) as nat)
    }
}

/// Digits one behind the other spell the numbers that they spell, each at its
/// place.
pub proof fn numbers_join(a: Seq<char>, b: Seq<char>)
    ensures
        number(a + b) == number(a) * tens(b.len()) + number(b),
    decreases b.len(),
{
    if b.len() == 0 {
        assert(a + b =~= a);
        assert(number(a) * 1 == number(a)) by (nonlinear_arith);
    } else {
        let t = tens((b.len() - 1) as nat);
        let n = number(a);
        assert((a + b).drop_last() =~= a + b.drop_last());
        assert((a + b).last() == b.last());
        numbers_join(a, b.drop_last());
        assert((n * t) * 10 == n * (10 * t)) by (nonlinear_arith);
    }
}

proof fn lemma_number_bound(s: Seq<char>)
    requires
        forall|i: int| 0 <= i < s.len() ==> is_digit(#[trigger] s[i]),
    ensures
        number(s) < tens(s.len()),
    decreases s.len(),
{
    if s.len() > 0 {
        assert(forall|i: int| 0 <= i < s.drop_last().len() ==> s.drop_last()[i] == s[i]);
        lemma_number_bound(s.drop_last());
        assert(is_digit(s[s.len() - 1]));
    }
}

proof fn lemma_zeros(n: nat)
    ensures
        number(zeros(n)) == 0,
    decreases n,
{
    if n > 0 {
        assert(zeros(n).drop_last() =~= zeros((n - 1) as nat));
        lemma_zeros((n - 1) as nat);
    }
}

/// A numeral of a width consists of so many digits and spells its number, if
/// that is not too large.
pub proof fn padded_spells(n: nat, width: nat)
    requires
        decimal(n).len() <= width,
    ensures
        padded(n, width).len() == width,
        forall|i: int| 0 <= i < width ==> is_digit(#[trigger] padded(n, width)[i]),
        number(padded(n, width)) == n,
{
    decimal_spells(n);
    let k = (width - decimal(n).len()) as nat;
    let p = padded(n, width);
    lemma_zeros(k);
    numbers_join(zeros(k), decimal(n));
    assert(p =~= zeros(k) + decimal(n));
    assert forall|i: int| 0 <= i < width implies is_digit(#[trigger] p[i]) by {
        if i >= k {
            assert(p[i] == decimal(n)[i - k]);
        }
    }
}

/// A numeral has no more digits than its number needs.
pub proof fn numeral_length(n: nat, width: nat)
    requires
        0 < width,
        n < tens(width),
    ensures
        decimal(n).len() <= width,
    decreases width,
{
    if n >= 10 {
        assert(width > 1) by {
            reveal_with_fuel(tens, 2);
        }
        numeral_length(n / 10, (width - 1) as nat);
    }
}

proof fn lemma_digits_before(a: Seq<char>, b: Seq<char>, x: Seq<u8>, y: Seq<u8>)
    requires
        a.len() == b.len() == x.len() == y.len(),
        forall|i: int| 0 <= i < a.len() ==> is_digit(#[trigger] a[i]) && x[i] == a[i] as u8,
        forall|i: int| 0 <= i < b.len() ==> is_digit(#[trigger] b[i]) && y[i] == b[i] as u8,
    ensures
        bytes_before(x, y) <==> number(a) < number(b),
    decreases a.len(),
{
    if a.len() > 0 {
        let c = a.drop_first();
        let d = b.drop_first();
        let t = tens(c.len());
        assert forall|i: int| 0 <= i < c.len() implies is_digit(#[trigger] c[i])
            && x.drop_first()[i] == c[i] as u8 by {
            assert(c[i] == a[i + 1]);
        }
        assert forall|i: int| 0 <= i < d.len() implies is_digit(#[trigger] d[i])
            && y.drop_first()[i] == d[i] as u8 by {
            assert(d[i] == b[i + 1]);
        }
        lemma_digits_before(c, d, x.drop_first(), y.drop_first());
        lemma_number_bound(c);
        lemma_number_bound(d);
        assert(a =~= seq![a[0]] + c);
        assert(b =~= seq![b[0]] + d);
        numbers_join(seq![a[0]], c);
        numbers_join(seq![b[0]], d);
        reveal_with_fuel(number, 2);
        let u = digit_value(a[0]);
        let v = digit_value(b[0]);
        assert(seq![a[0]].drop_last() =~= Seq::<char>::empty());
        assert(seq![b[0]].drop_last() =~= Seq::<char>::empty());
        assert(number(seq![a[0]]) == u);
        assert(number(seq![b[0]]) == v);
        if u < v {
            assert(u * t + t <= v * t) by (nonlinear_arith)
                requires
                    u + 1 <= v,
            ;
        } else if v < u {
            assert(v * t + t <= u * t) by (nonlinear_arith)
                requires
                    v + 1 <= u,
            ;
        }
    }
}

/// Digits of one length are in the order of the numbers that they spell.
pub proof fn digits_are_in_order(a: Seq<char>, b: Seq<char>)
    requires
        a.len() == b.len(),
        forall|i: int| 0 <= i < a.len() ==> is_digit(#[trigger] a[i]),
        forall|i: int| 0 <= i < b.len() ==> is_digit(#[trigger] b[i]),
    ensures
        before(a, b) <==> number(a) < number(b),
        a == b <==> number(a) == number(b),
{
    assert(is_ascii_chars(a));
    assert(is_ascii_chars(b));
    is_ascii_chars_encode_utf8(a);
    is_ascii_chars_encode_utf8(b);
    lemma_digits_before(a, b, encode_utf8(a), encode_utf8(b));
    lemma_digits_before(b, a, encode_utf8(b), encode_utf8(a));
    before_is_total(a, b);
}

proof fn lemma_bytes_before_extended(x: Seq<u8>, y: Seq<u8>, s: Seq<u8>, t: Seq<u8>)
    requires
        x.len() == y.len(),
        bytes_before(x, y),
    ensures
        bytes_before(x + s, y + t),
    decreases x.len(),
{
    if x.len() > 0 && x[0] == y[0] {
        lemma_bytes_before_extended(x.drop_first(), y.drop_first(), s, t);
        assert((x + s).drop_first() =~= x.drop_first() + s);
        assert((y + t).drop_first() =~= y.drop_first() + t);
    }
}

/// Names that differ in a numeral of one width alone are in the order of the
/// numbers.
pub proof fn numbered_names_are_in_order(
    front: Seq<char>,
    a: Seq<char>,
    b: Seq<char>,
    back: Seq<char>,
)
    requires
        is_ascii_chars(front),
        is_ascii_chars(back),
        a.len() == b.len(),
        forall|i: int| 0 <= i < a.len() ==> is_digit(#[trigger] a[i]),
        forall|i: int| 0 <= i < b.len() ==> is_digit(#[trigger] b[i]),
        number(a) < number(b),
    ensures
        before(front + a + back, front + b + back),
{
    let m = front + a + back;
    let n = front + b + back;
    let k = front.len() as int;
    assert(is_ascii_chars(a));
    assert(is_ascii_chars(b));
    assert(is_ascii_chars(m));
    assert(is_ascii_chars(n));
    is_ascii_chars_encode_utf8(front);
    is_ascii_chars_encode_utf8(back);
    is_ascii_chars_encode_utf8(a);
    is_ascii_chars_encode_utf8(b);
    is_ascii_chars_encode_utf8(m);
    is_ascii_chars_encode_utf8(n);
    let x = encode_utf8(m);
    let y = encode_utf8(n);
    let end = encode_utf8(back);
    assert forall|i: int| 0 <= i < k implies x[i] == y[i] by {
        assert(m[i] == front[i]);
        assert(n[i] == front[i]);
    }
    assert(x.take(k) =~= y.take(k));
    assert forall|i: int| 0 <= i < x.skip(k).len() implies x.skip(k)[i] == (encode_utf8(a) + end)[i] by {
        assert(x.skip(k)[i] == m[k + i] as u8);
        if i < a.len() {
            assert(m[k + i] == a[i]);
        } else {
            assert(m[k + i] == back[i - a.len()]);
        }
    }
    assert forall|i: int| 0 <= i < y.skip(k).len() implies y.skip(k)[i] == (encode_utf8(b) + end)[i] by {
        assert(y.skip(k)[i] == n[k + i] as u8);
        if i < b.len() {
            assert(n[k + i] == b[i]);
        } else {
            assert(n[k + i] == back[i - b.len()]);
        }
    }
    assert(x.skip(k) =~= encode_utf8(a) + end);
    assert(y.skip(k) =~= encode_utf8(b) + end);
    digits_are_in_order(a, b);
    lemma_bytes_before_extended(encode_utf8(a), encode_utf8(b), end, end);
    lemma_bytes_before_at(x, y, k);
}

/// The numeral of `n` with zeros before it up to `width` characters.
pub fn show_padded(n: u64, width: usize) -> (r: String)
    ensures
        r@ == padded(n as nat, width as nat),
{
    let d = show(n);
    let have: usize = d.as_str().unicode_len();
    let mut s = String::new();
    if have < width {
        let mut i: usize = have;
        assert(s@ =~= zeros(0));
        while i < width
            invariant
                have <= i <= width,
                s@ == zeros((i - have) as nat),
            decreases width - i,
        {
            s.push('0');
            i += 1;
            assert(s@ =~= zeros((i - have) as nat));
        }
    }
    s.append(d.as_str());
    assert(have >= width ==> s@ =~= d@);
    s
}

/// The hexadecimal digit of a number below 16.
pub open spec fn hex_digit(d: int) -> char {
    if d < 10 {
        (48 + d) as char
    } else {
        (87 + d) as char
    }
}

/// Two hexadecimal digits per byte.
pub open spec fn hex_text(b: Seq<u8>) -> Seq<char>
    decreases b.len(),
{
    if b.len() == 0 {
        Seq::empty()
    } else {
        hex_text(b.drop_last()).push(hex_digit(b.last() as int / 16)).push(
            hex_digit(b.last() as int % 16),
        )
    }
}

/// Hexadecimal text has two digits per byte and tells its bytes.
pub proof fn hex_tells_the_bytes(a: Seq<u8>, b: Seq<u8>)
    ensures
        hex_text(a).len() == 2 * a.len(),
        hex_text(a) == hex_text(b) ==> a == b,
    decreases a.len(),
{
    hex_length(a);
    hex_length(b);
    if hex_text(a) == hex_text(b) {
        if a.len() > 0 {
            let x = a.last() as int;
            let y = b.last() as int;
            let n = hex_text(a).len();
            assert(hex_text(a)[n - 1] == hex_digit(x % 16));
            assert(hex_text(b)[n - 1] == hex_digit(y % 16));
            assert(hex_text(a)[n - 2] == hex_digit(x / 16));
            assert(hex_text(b)[n - 2] == hex_digit(y / 16));
            assert(hex_text(a).take(n - 2) =~= hex_text(a.drop_last()));
            assert(hex_text(b).take(n - 2) =~= hex_text(b.drop_last()));
            hex_tells_the_bytes(a.drop_last(), b.drop_last());
            assert(a =~= a.drop_last().push(a.last()));
            assert(b =~= b.drop_last().push(b.last()));
        } else {
            assert(a =~= b);
        }
    }
}

proof fn hex_length(b: Seq<u8>)
    ensures
        hex_text(b).len() == 2 * b.len(),
    decreases b.len(),
{
    if b.len() > 0 {
        hex_length(b.drop_last());
    }
}

fn hex_char(d: u8) -> (c: char)
    requires
        d < 16,
    ensures
        c == hex_digit(d as int),
{
    if d < 10 {
        (48 + d) as char
    } else {
        (87 + d) as char
    }
}

/// Two hexadecimal digits per byte.
pub fn show_hex(b: &Vec<u8>) -> (r: String)
    ensures
        r@ == hex_text(b@),
{
    let mut s = String::new();
    let mut i: usize = 0;
    assert(b@.take(0) =~= Seq::<u8>::empty());
    while i < b.len()
        invariant
            i <= b.len(),
            s@ == hex_text(b@.take(i as int)),
        decreases b.len() - i,
    {
        assert(b@.take(i + 1).drop_last() =~= b@.take(i as int));
        s.push(hex_char(b[i] / 16));
        s.push(hex_char(b[i] % 16));
        i += 1;
    }
    assert(b@.take(b@.len() as int) =~= b@);
    s
}

// ------------------------------------------------------------------ sorting

/// Whether texts stand in order, equal ones side by side.
pub open spec fn in_order(s: Seq<Seq<char>>) -> bool {
    forall|i: int, j: int| 0 <= i < j < s.len() ==> !before(#[trigger] s[j], #[trigger] s[i])
}

/// Puts a string behind those that do not come after it.
fn insert_text(v: &mut Vec<String>, x: String)
    requires
        in_order(texts(old(v)@)),
    ensures
        in_order(texts(final(v)@)),
        texts(final(v)@).to_multiset() == texts(old(v)@).to_multiset().insert(x@),
{
    let ghost was = texts(v@);
    let mut at: usize = 0;
    while at < v.len() && !comes_before(x.as_str(), v[at].as_str())
        invariant
            at <= v.len(),
            was == texts(v@),
            forall|j: int| 0 <= j < at ==> !before(x@, #[trigger] was[j]),
        decreases v.len() - at,
    {
        assert(was[at as int] == v@[at as int]@);
        at += 1;
    }
    let ghost y = x@;
    v.insert(at, x);
    proof {
        let now = texts(v@);
        assert(now =~= was.insert(at as int, y));
        vstd::seq_lib::to_multiset_insert(was, at as int, y);
        assert forall|i: int, j: int| 0 <= i < j < now.len() implies !before(
            #[trigger] now[j],
            #[trigger] now[i],
        ) by {
            if j == at {
                assert(!before(y, was[i]));
            } else if i == at {
                if j == at + 1 {
                    before_is_total(y, was[at as int]);
                } else {
                    assert(!before(was[j - 1], was[at as int]));
                    before_is_total(y, was[at as int]);
                    before_is_total(y, was[j - 1]);
                    before_is_total(was[at as int], was[j - 1]);
                    if before(was[at as int], was[j - 1]) {
                        before_is_transitive(y, was[at as int], was[j - 1]);
                    }
                }
            } else {
                let a = if i < at {
                    i
                } else {
                    i - 1
                };
                let b = if j < at {
                    j
                } else {
                    j - 1
                };
                assert(!before(was[b], was[a]));
            }
        }
    }
}

/// The strings of a list in order.
pub fn sort_texts(v: &Vec<String>) -> (r: Vec<String>)
    ensures
        in_order(texts(r@)),
        texts(r@).to_multiset() == texts(v@).to_multiset(),
{
    broadcast use vstd::multiset::group_multiset_axioms;
    let ghost all = texts(v@);
    let mut r: Vec<String> = Vec::new();
    let mut i: usize = 0;
    proof {
        all.to_multiset_ensures();
        assert(texts(r@) =~= Seq::<Seq<char>>::empty());
        assert(all.take(0) =~= Seq::<Seq<char>>::empty());
    }
    while i < v.len()
        invariant
            i <= v.len(),
            all == texts(v@),
            in_order(texts(r@)),
            texts(r@).to_multiset() == all.take(i as int).to_multiset(),
        decreases v.len() - i,
    {
        proof {
            all.take(i as int).to_multiset_ensures();
            assert(all.take(i + 1) =~= all.take(i as int).push(all[i as int]));
        }
        insert_text(&mut r, v[i].clone());
        i += 1;
    }
    assert(all.take(all.len() as int) =~= all);
    r
}

/// Whether texts stand in order, each once.
pub open spec fn strictly_ordered(s: Seq<Seq<char>>) -> bool {
    forall|i: int, j: int| 0 <= i < j < s.len() ==> before(#[trigger] s[i], #[trigger] s[j])
}

/// Puts a text among others in order, unless it is there.
pub fn insert_once(v: &mut Vec<String>, x: &str)
    requires
        strictly_ordered(texts(old(v)@)),
    ensures
        strictly_ordered(texts(final(v)@)),
        forall|y: Seq<char>| #[trigger]
            texts(final(v)@).contains(y) <==> texts(old(v)@).contains(y) || y == x@,
{
    let ghost was = texts(v@);
    let mut at: usize = 0;
    while at < v.len() && comes_before(v[at].as_str(), x)
        invariant
            at <= v.len(),
            was == texts(v@),
            forall|j: int| 0 <= j < at ==> before(#[trigger] was[j], x@),
        decreases v.len() - at,
    {
        assert(was[at as int] == v@[at as int]@);
        at += 1;
    }
    if at < v.len() && same(v[at].as_str(), x) {
        assert(was[at as int] == x@);
        return;
    }
    v.insert(at, x.to_owned());
    proof {
        let now = texts(v@);
        assert(now =~= was.insert(at as int, x@));
        if at < was.len() {
            before_is_total(was[at as int], x@);
        }
        assert forall|j: int| at <= j < was.len() implies before(x@, #[trigger] was[j]) by {
            if j > at {
                before_is_transitive(x@, was[at as int], was[j]);
            }
        }
        assert forall|i: int, j: int| 0 <= i < j < now.len() implies before(
            #[trigger] now[i],
            #[trigger] now[j],
        ) by {
            let a = if i < at {
                i
            } else {
                i - 1
            };
            let b = if j < at {
                j
            } else {
                j - 1
            };
            if i == at {
                assert(before(x@, was[b]));
            } else if j == at {
                assert(before(was[a], x@));
            } else {
                assert(before(was[a], was[b]));
            }
        }
        assert forall|y: Seq<char>| #[trigger]
            now.contains(y) implies was.contains(y) || y == x@ by {
            let k = choose|k: int| 0 <= k < now.len() && now[k] == y;
            if k < at {
                assert(was[k] == y);
            } else if k > at {
                assert(was[k - 1] == y);
            }
        }
        assert forall|y: Seq<char>| was.contains(y) || y == x@ implies #[trigger]
            now.contains(y) by {
            if y == x@ {
                assert(now[at as int] == y);
            } else {
                let k = choose|k: int| 0 <= k < was.len() && was[k] == y;
                if k < at {
                    assert(now[k] == y);
                } else {
                    assert(now[k + 1] == y);
                }
            }
        }
    }
}

/// Whether `s` begins with `p`.
pub open spec fn begins_with(s: Seq<char>, p: Seq<char>) -> bool {
    p.len() <= s.len() && s.take(p.len() as int) == p
}

/// Whether `s` ends with `p`.
pub open spec fn ends_in(s: Seq<char>, p: Seq<char>) -> bool {
    p.len() <= s.len() && s.skip(s.len() - p.len()) == p
}

/// Whether `s` begins with `p`.
pub fn starts_with(s: &str, p: &str) -> (r: bool)
    ensures
        r == begins_with(s@, p@),
{
    let a: usize = s.unicode_len();
    let b: usize = p.unicode_len();
    if b > a {
        return false;
    }
    same(s.substring_char(0, b), p)
}

/// Whether `s` ends with `p`.
pub fn ends_with(s: &str, p: &str) -> (r: bool)
    ensures
        r == ends_in(s@, p@),
{
    let a: usize = s.unicode_len();
    let b: usize = p.unicode_len();
    if b > a {
        return false;
    }
    assert(s@.subrange(a - b, a as int) =~= s@.skip(a - b));
    same(s.substring_char(a - b, a), p)
}

// ------------------------------------------------------------- cutting in two

/// What stands before and behind the first of a character, looked for from a
/// position on.
pub open spec fn cut_from(s: Seq<char>, c: char, i: int) -> Option<(Seq<char>, Seq<char>)>
    decreases s.len() - i,
{
    if i < 0 || i >= s.len() {
        None
    } else if s[i] == c {
        Some((s.take(i), s.skip(i + 1)))
    } else {
        cut_from(s, c, i + 1)
    }
}

/// What stands before and behind the last of a character, looked for in front
/// of a position.
pub open spec fn cut_back(s: Seq<char>, c: char, i: int) -> Option<(Seq<char>, Seq<char>)>
    decreases i,
{
    if i <= 0 || i > s.len() {
        None
    } else if s[i - 1] == c {
        Some((s.take(i - 1), s.skip(i)))
    } else {
        cut_back(s, c, i - 1)
    }
}

/// The parts of an optional pair.
pub open spec fn opt_pair(p: Option<(String, String)>) -> Option<(Seq<char>, Seq<char>)> {
    match p {
        Some((a, b)) => Some((a@, b@)),
        None => None,
    }
}

/// A text cut at the first of a character.
pub fn cut(s: &str, c: char) -> (r: Option<(String, String)>)
    ensures
        opt_pair(r) == cut_from(s@, c, 0),
{
    let chars = chars_of(s);
    let mut i: usize = 0;
    while i < chars.len()
        invariant
            i <= chars.len(),
            chars@ == s@,
            cut_from(s@, c, 0) == cut_from(s@, c, i as int),
        decreases chars.len() - i,
    {
        if chars[i] == c {
            let a = slice_text(&chars, 0, i);
            let b = slice_text(&chars, i + 1, chars.len());
            assert(a@ =~= s@.take(i as int));
            assert(b@ =~= s@.skip(i + 1));
            return Some((a, b));
        }
        i += 1;
    }
    None
}

/// A text cut at the last of a character.
pub fn cut_last(s: &str, c: char) -> (r: Option<(String, String)>)
    ensures
        opt_pair(r) == cut_back(s@, c, s@.len() as int),
{
    let chars = chars_of(s);
    let mut i: usize = chars.len();
    while i > 0
        invariant
            i <= chars.len(),
            chars@ == s@,
            cut_back(s@, c, s@.len() as int) == cut_back(s@, c, i as int),
        decreases i,
    {
        if chars[i - 1] == c {
            let a = slice_text(&chars, 0, i - 1);
            let b = slice_text(&chars, i, chars.len());
            assert(a@ =~= s@.take(i - 1));
            assert(b@ =~= s@.skip(i as int));
            return Some((a, b));
        }
        i -= 1;
    }
    None
}

/// A text with a character in it is cut at the first one of that character: what
/// stands before it does not hold it.
pub proof fn a_text_is_cut_at_the_first(a: Seq<char>, c: char, b: Seq<char>)
    requires
        !a.contains(c),
    ensures
        cut_from(a + seq![c] + b, c, 0) == Some((a, b)),
        cut_from(a, c, 0) is None,
{
    let s = a + seq![c] + b;
    lemma_cut_from(s, c, 0, a.len() as int);
    assert(s.take(a.len() as int) =~= a);
    assert(s.skip(a.len() + 1int) =~= b);
    lemma_not_cut(a, c, 0);
}

proof fn lemma_cut_from(s: Seq<char>, c: char, i: int, k: int)
    requires
        0 <= i <= k < s.len(),
        s[k] == c,
        forall|j: int| i <= j < k ==> #[trigger] s[j] != c,
    ensures
        cut_from(s, c, i) == Some((s.take(k), s.skip(k + 1))),
    decreases k - i,
{
    if i < k {
        lemma_cut_from(s, c, i + 1, k);
    }
}

proof fn lemma_not_cut(s: Seq<char>, c: char, i: int)
    requires
        !s.contains(c),
        i >= 0,
    ensures
        cut_from(s, c, i) is None,
        i <= s.len() ==> cut_back(s, c, i) is None,
    decreases s.len() - i,
{
    if i < s.len() {
        assert(s[i] != c);
        lemma_not_cut(s, c, i + 1);
    }
    lemma_not_cut_back(s, c, i);
}

proof fn lemma_not_cut_back(s: Seq<char>, c: char, i: int)
    requires
        !s.contains(c),
    ensures
        cut_back(s, c, i) is None,
    decreases i,
{
    if 0 < i <= s.len() {
        assert(s[i - 1] != c);
        lemma_not_cut_back(s, c, i - 1);
    }
}

/// A text with a character in it is cut at the last one of that character: what
/// stands behind it does not hold it.
pub proof fn a_text_is_cut_at_the_last(a: Seq<char>, c: char, b: Seq<char>)
    requires
        !b.contains(c),
    ensures
        cut_back(a + seq![c] + b, c, (a + seq![c] + b).len() as int) == Some((a, b)),
        cut_back(b, c, b.len() as int) is None,
{
    let s = a + seq![c] + b;
    assert forall|j: int| a.len() < j < s.len() implies #[trigger] s[j] != c by {
        assert(s[j] == b[j - a.len() - 1]);
    }
    lemma_cut_back(s, c, s.len() as int, a.len() as int);
    assert(s.take(a.len() as int) =~= a);
    assert(s.skip(a.len() + 1int) =~= b);
    lemma_not_cut_back(b, c, b.len() as int);
}

proof fn lemma_cut_back(s: Seq<char>, c: char, i: int, k: int)
    requires
        0 <= k < i <= s.len(),
        s[k] == c,
        forall|j: int| k < j < i ==> #[trigger] s[j] != c,
    ensures
        cut_back(s, c, i) == Some((s.take(k), s.skip(k + 1))),
    decreases i - k,
{
    if k < i - 1 {
        assert(s[i - 1] != c);
        lemma_cut_back(s, c, i - 1, k);
    }
}

/// A numeral reads as its number with zeros before it and with a plus sign, and
/// with a minus sign as the number below zero.
pub proof fn zeros_and_signs_are_read(n: nat, k: nat)
    ensures
        number(zeros(k) + decimal(n)) == n,
        n <= 0x7fff_ffff_ffff_ffff ==> signed_of(zeros(k) + decimal(n)) == Some(n as int),
        n <= 0x7fff_ffff_ffff_ffff ==> signed_of(seq!['+'] + decimal(n)) == Some(n as int),
        n <= 0x8000_0000_0000_0000 ==> signed_of(seq!['-'] + decimal(n)) == Some(-(n as int)),
{
    decimal_spells(n);
    lemma_zeros(k);
    let d = decimal(n);
    let z = zeros(k) + d;
    numbers_join(zeros(k), d);
    assert(is_digit(d[0]));
    assert forall|i: int| 0 <= i < z.len() implies is_digit(#[trigger] z[i]) by {
        if i >= k {
            assert(z[i] == d[i - k]);
        }
    }
    assert(is_digit(z[0]));
    assert((seq!['+'] + d).drop_first() =~= d);
    assert((seq!['-'] + d).drop_first() =~= d);
}

} // verus!
