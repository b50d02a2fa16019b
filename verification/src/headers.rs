//! The headers of a request, the lists that they carry, and the key by which
//! the sender of a query is counted. A header is given by its name in small
//! letters and by its first value where that is readable text.
use crate::text;
use vstd::prelude::*;

verus! {

/// The header that claims authorizations.
pub const AUTHORIZATIONS: &'static str = "x-timelake-authorizations";

/// The value of the first header of a name, from a position on.
pub open spec fn header_from(headers: Seq<(String, String)>, name: Seq<char>, i: int) -> Option<
    Seq<char>,
>
    decreases headers.len() - i,
{
    if i < 0 || i >= headers.len() {
        None
    } else if headers[i].0@ == name {
        Some(headers[i].1@)
    } else {
        header_from(headers, name, i + 1)
    }
}

/// The value of a header.
pub open spec fn header_of(headers: Seq<(String, String)>, name: Seq<char>) -> Option<Seq<char>> {
    header_from(headers, name, 0)
}

/// Reads a header.
pub fn header(headers: &Vec<(String, String)>, name: &str) -> (r: Option<String>)
    ensures
        crate::batch::opt_text(r) == header_of(headers@, name@),
{
    let mut i: usize = 0;
    while i < headers.len()
        invariant
            i <= headers.len(),
            header_of(headers@, name@) == header_from(headers@, name@, i as int),
        decreases headers.len() - i,
    {
        if text::same(headers[i].0.as_str(), name) {
            return Some(headers[i].1.clone());
        }
        i += 1;
    }
    None
}

/// The names among the pieces of a list: each without the space around it, and
/// none that is empty.
pub open spec fn names_in(pieces: Seq<Seq<char>>) -> Seq<Seq<char>>
    decreases pieces.len(),
{
    if pieces.len() == 0 {
        Seq::empty()
    } else {
        let p = names_in(pieces.drop_last());
        let name = text::trimmed(pieces.last());
        if name.len() == 0 {
            p
        } else {
            p.push(name)
        }
    }
}

/// The names in a list that is separated by commas.
pub open spec fn listed(s: Seq<char>) -> Seq<Seq<char>> {
    names_in(text::split_on(s, ','))
}

/// Reads a list that is separated by commas.
pub fn list(s: &str) -> (r: Vec<String>)
    ensures
        text::texts(r@) == listed(s@),
{
    let pieces = text::split(s, ',');
    let ghost all = text::texts(pieces@);
    let mut out: Vec<String> = Vec::new();
    let mut i: usize = 0;
    assert(all.take(0) =~= Seq::empty());
    assert(text::texts(out@) =~= Seq::empty());
    while i < pieces.len()
        invariant
            i <= pieces.len(),
            all == text::texts(pieces@),
            text::texts(out@) == names_in(all.take(i as int)),
        decreases pieces.len() - i,
    {
        let name = text::trim(pieces[i].as_str());
        let ghost before = out@;
        assert(all.take(i + 1).drop_last() =~= all.take(i as int));
        assert(all.take(i + 1).last() == pieces@[i as int]@);
        if name.unicode_len() > 0 {
            out.push(name);
            assert(text::texts(out@) =~= text::texts(before).push(name@));
        }
        i += 1;
    }
    assert(all.take(all.len() as int) =~= all);
    out
}

/// The authorizations that a request claims in its header.
pub open spec fn claims(headers: Seq<(String, String)>) -> Seq<Seq<char>> {
    match header_of(headers, AUTHORIZATIONS@) {
        Some(v) => listed(v),
        None => Seq::empty(),
    }
}

/// Reads the authorizations that a request claims in its header.
pub fn auths_from_headers(headers: &Vec<(String, String)>) -> (r: Vec<String>)
    ensures
        text::texts(r@) == claims(headers@),
{
    match header(headers, AUTHORIZATIONS) {
        Some(v) => list(v.as_str()),
        None => {
            let r: Vec<String> = Vec::new();
            assert(text::texts(r@) =~= Seq::empty());
            r
        },
    }
}

/// A list with those of another behind it that it does not hold yet.
pub open spec fn joined(a: Seq<Seq<char>>, b: Seq<Seq<char>>) -> Seq<Seq<char>>
    decreases b.len(),
{
    if b.len() == 0 {
        a
    } else {
        let p = joined(a, b.drop_last());
        if p.contains(b.last()) {
            p
        } else {
            p.push(b.last())
        }
    }
}

/// Adds to a list what it does not hold yet.
pub fn join(a: Vec<String>, b: &Vec<String>) -> (r: Vec<String>)
    ensures
        text::texts(r@) == joined(text::texts(a@), text::texts(b@)),
{
    let ghost first = text::texts(a@);
    let ghost all = text::texts(b@);
    let mut out: Vec<String> = a;
    let mut i: usize = 0;
    assert(all.take(0) =~= Seq::empty());
    while i < b.len()
        invariant
            i <= b.len(),
            all == text::texts(b@),
            text::texts(out@) == joined(first, all.take(i as int)),
        decreases b.len() - i,
    {
        let ghost before = out@;
        assert(all.take(i + 1).drop_last() =~= all.take(i as int));
        assert(all.take(i + 1).last() == b@[i as int]@);
        if !text::contains_text(&out, b[i].as_str()) {
            out.push(b[i].clone());
            assert(text::texts(out@) =~= text::texts(before).push(b@[i as int]@));
        }
        i += 1;
    }
    assert(all.take(all.len() as int) =~= all);
    out
}

/// Joining loses nothing of either list, and adds nothing else.
pub proof fn joining_keeps_both(a: Seq<Seq<char>>, b: Seq<Seq<char>>, x: Seq<char>)
    ensures
        joined(a, b).contains(x) <==> a.contains(x) || b.contains(x),
    decreases b.len(),
{
    if b.len() > 0 {
        joining_keeps_both(a, b.drop_last(), x);
        let p = joined(a, b.drop_last());
        assert(b =~= b.drop_last().push(b.last()));
        assert(b.contains(x) <==> b.drop_last().contains(x) || b.last() == x) by {
            if b.contains(x) && b.last() != x {
                let i = choose|i: int| 0 <= i < b.len() && b[i] == x;
                assert(b.drop_last()[i] == x);
            }
            if b.drop_last().contains(x) {
                let i = choose|i: int| 0 <= i < b.drop_last().len() && b.drop_last()[i] == x;
                assert(b[i] == x);
            }
            if b.last() == x {
                assert(b[b.len() - 1] == x);
            }
        }
        assert(p.push(b.last()).contains(x) <==> p.contains(x) || b.last() == x) by {
            let q = p.push(b.last());
            if p.contains(x) {
                let i = choose|i: int| 0 <= i < p.len() && p[i] == x;
                assert(q[i] == x);
            }
            if b.last() == x {
                assert(q[p.len() as int] == x);
            }
            if q.contains(x) && b.last() != x {
                let i = choose|i: int| 0 <= i < q.len() && q[i] == x;
                assert(p[i] == x);
            }
        }
    } else {
        assert(!b.contains(x));
    }
}

// -------------------------------------------------------------------- cookies

/// The value of the first cookie of a name, from a piece on.
pub open spec fn cookie_from(pieces: Seq<Seq<char>>, name: Seq<char>, i: int) -> Option<Seq<char>>
    decreases pieces.len() - i,
{
    if i < 0 || i >= pieces.len() {
        None
    } else {
        match text::cut_from(pieces[i], '=', 0) {
            Some((k, v)) => if text::trimmed(k) == name {
                Some(text::trimmed(v))
            } else {
                cookie_from(pieces, name, i + 1)
            },
            None => cookie_from(pieces, name, i + 1),
        }
    }
}

/// The value of a cookie of a request.
pub open spec fn cookie_of(headers: Seq<(String, String)>, name: Seq<char>) -> Option<Seq<char>> {
    match header_of(headers, "cookie"@) {
        Some(v) => cookie_from(text::split_on(v, ';'), name, 0),
        None => None,
    }
}

/// Reads a cookie of a request.
pub fn cookie_value(headers: &Vec<(String, String)>, name: &str) -> (r: Option<String>)
    ensures
        crate::batch::opt_text(r) == cookie_of(headers@, name@),
{
    let v = match header(headers, "cookie") {
        Some(v) => v,
        None => {
            return None;
        },
    };
    let pieces = text::split(v.as_str(), ';');
    let ghost all = text::texts(pieces@);
    let mut i: usize = 0;
    while i < pieces.len()
        invariant
            i <= pieces.len(),
            all == text::texts(pieces@),
            cookie_of(headers@, name@) == cookie_from(all, name@, i as int),
        decreases pieces.len() - i,
    {
        assert(all[i as int] == pieces@[i as int]@);
        match text::cut(pieces[i].as_str(), '=') {
            Some((k, v)) => {
                if text::same(text::trim(k.as_str()).as_str(), name) {
                    return Some(text::trim(v.as_str()));
                }
            },
            None => {},
        }
        i += 1;
    }
    None
}

// ------------------------------------------------------------------ the client

/// The last bytes of a number, the highest of them first.
pub open spec fn low_bytes(n: nat, k: nat) -> Seq<u8>
    decreases k,
{
    if k == 0 {
        Seq::empty()
    } else {
        low_bytes(n / 256, (k - 1) as nat).push((n % 256) as u8)
    }
}

/// The bytes of a number, the highest of them first.
fn bytes_of(n: u64) -> (r: Vec<u8>)
    ensures
        r@ == low_bytes(n as nat, 8),
{
    let mut v: Vec<u8> = vec![0, 0, 0, 0, 0, 0, 0, 0];
    let mut m: u64 = n;
    let mut i: usize = 8;
    assert(low_bytes(n as nat, 8) =~= low_bytes(m as nat, 8) + v@.skip(8));
    while i > 0
        invariant
            i <= 8,
            v@.len() == 8,
            low_bytes(n as nat, 8) == low_bytes(m as nat, i as nat) + v@.skip(i as int),
        decreases i,
    {
        let ghost before = v@;
        let ghost high = low_bytes(m as nat / 256, (i - 1) as nat);
        i = i - 1;
        v.set(i, (m % 256) as u8);
        assert(v@.skip(i as int) =~= seq![(m as nat % 256) as u8] + before.skip(i + 1));
        assert(high.push((m as nat % 256) as u8) + before.skip(i + 1) =~= high + v@.skip(i as int));
        m = m / 256;
    }
    assert(v@.skip(0) =~= v@);
    assert(low_bytes(m as nat, 0) + v@ =~= v@);
    v
}

/// What the sender of a query is counted by: the digest of its credential where
/// it shows one, else its address, else nothing.
pub open spec fn key_of(digest: Option<u64>, ip: Option<Seq<char>>) -> Option<Seq<char>> {
    match (digest, ip) {
        (Some(d), _) => Some("tok:"@ + text::hex_text(low_bytes(d as nat, 8))),
        (None, Some(a)) => Some("ip:"@ + a),
        (None, None) => None,
    }
}

/// The key of the sender of a query. `digest` is the digest of the credential
/// that it shows, so that no secret becomes a key.
pub fn client_key(digest: Option<u64>, ip: Option<String>) -> (r: Option<String>)
    ensures
        crate::batch::opt_text(r) == key_of(digest, crate::batch::opt_text(ip)),
{
    match (digest, ip) {
        (Some(d), _) => {
            let mut s = "tok:".to_owned();
            s.append(text::show_hex(&bytes_of(d)).as_str());
            Some(s)
        },
        (None, Some(a)) => {
            let mut s = "ip:".to_owned();
            s.append(a.as_str());
            Some(s)
        },
        (None, None) => None,
    }
}

/// The header that shows a credential.
pub const AUTHORIZATION: &'static str = "authorization";

/// A short digest of a text, which is no secret's keeper: it only tells texts
/// apart.
pub uninterp spec fn short_digest(s: Seq<char>) -> u64;

/// The digest of a text by `std::hash::BuildHasher::hash_one`, with hashers of
/// the kind `std::hash::DefaultHasher` as it is by default, which are all alike.
/// Claimed is that the digest depends on the text alone; which it is, is not
/// stated.
#[verifier::external_body]
fn short_hash(s: &str) -> (r: u64)
    ensures
        r == short_digest(s@),
{
    let build = std::hash::BuildHasherDefault::<std::hash::DefaultHasher>::default();
    std::hash::BuildHasher::hash_one(&build, s)
}

/// The key of the sender of a query, from the headers of its request and the
/// address that it comes from. A credential is what it is counted by, where it
/// shows one, and is not kept.
pub fn client_key_of(headers: &Vec<(String, String)>, ip: Option<String>) -> (r: Option<String>)
    ensures
        crate::batch::opt_text(r) == key_of(
            match header_of(headers@, AUTHORIZATION@) {
                Some(v) => Some(short_digest(v)),
                None => None,
            },
            crate::batch::opt_text(ip),
        ),
{
    let digest: Option<u64> = match header(headers, AUTHORIZATION) {
        Some(v) => Some(short_hash(v.as_str())),
        None => None,
    };
    client_key(digest, ip)
}

/// A header is the first of its name.
pub proof fn a_header_is_the_first_of_its_name(
    headers: Seq<(String, String)>,
    name: Seq<char>,
    i: int,
)
    ensures
        0 <= i < headers.len() && headers[i].0@ == name && (forall|j: int|
            0 <= j < i ==> (#[trigger] headers[j]).0@ != name) ==> header_of(headers, name) == Some(
            headers[i].1@,
        ),
        header_of(headers, name) is None <==> forall|j: int|
            0 <= j < headers.len() ==> (#[trigger] headers[j]).0@ != name,
{
    lemma_header_from(headers, name, 0);
    if 0 <= i < headers.len() && headers[i].0@ == name && (forall|j: int|
        0 <= j < i ==> (#[trigger] headers[j]).0@ != name) {
        lemma_header_at(headers, name, 0, i);
    }
}

proof fn lemma_header_at(headers: Seq<(String, String)>, name: Seq<char>, k: int, i: int)
    requires
        0 <= k <= i < headers.len(),
        headers[i].0@ == name,
        forall|j: int| 0 <= j < i ==> (#[trigger] headers[j]).0@ != name,
    ensures
        header_from(headers, name, k) == Some(headers[i].1@),
    decreases i - k,
{
    if k < i {
        lemma_header_at(headers, name, k + 1, i);
    }
}

proof fn lemma_header_from(headers: Seq<(String, String)>, name: Seq<char>, k: int)
    requires
        0 <= k,
    ensures
        header_from(headers, name, k) is None <==> forall|j: int|
            k <= j < headers.len() ==> (#[trigger] headers[j]).0@ != name,
    decreases headers.len() - k,
{
    if k < headers.len() && headers[k].0@ != name {
        lemma_header_from(headers, name, k + 1);
    }
}

/// Names with commas between them read as those names, in their order, with
/// white space around them or none; empty ones are passed over.
pub proof fn listed_names_are_read(pieces: Seq<Seq<char>>)
    requires
        pieces.len() > 0,
        forall|i: int| 0 <= i < pieces.len() ==> !(#[trigger] pieces[i]).contains(','),
    ensures
        listed(text::separated(pieces, ',')) == pieces.map_values(
            |p: Seq<char>| text::trimmed(p),
        ).filter(|n: Seq<char>| n.len() > 0),
{
    text::splitting_undoes_separating(pieces, ',');
    lemma_names_in(pieces);
}

proof fn lemma_names_in(pieces: Seq<Seq<char>>)
    ensures
        names_in(pieces) == pieces.map_values(|p: Seq<char>| text::trimmed(p)).filter(
            |n: Seq<char>| n.len() > 0,
        ),
    decreases pieces.len(),
{
    reveal(Seq::filter);
    if pieces.len() > 0 {
        lemma_names_in(pieces.drop_last());
        let all = pieces.map_values(|p: Seq<char>| text::trimmed(p));
        assert(all.drop_last() =~= pieces.drop_last().map_values(
            |p: Seq<char>| text::trimmed(p),
        ));
    }
}

/// Of cookies with semicolons between them, one is read by its name: the first
/// that has it gives what stands behind its equals sign, without the white space
/// around it.
pub proof fn a_cookie_is_the_first_of_its_name(
    pieces: Seq<Seq<char>>,
    name: Seq<char>,
    i: int,
    key: Seq<char>,
    value: Seq<char>,
)
    requires
        0 <= i < pieces.len(),
        !key.contains('='),
        pieces[i] == key + seq!['='] + value,
        text::trimmed(key) == name,
        forall|j: int|
            0 <= j < i ==> !((#[trigger] text::cut_from(pieces[j], '=', 0)) matches Some((k, _))
                && text::trimmed(k) == name),
    ensures
        cookie_from(pieces, name, 0) == Some(text::trimmed(value)),
{
    text::a_text_is_cut_at_the_first(key, '=', value);
    lemma_cookie_at(pieces, name, 0, i, value);
}

proof fn lemma_cookie_at(
    pieces: Seq<Seq<char>>,
    name: Seq<char>,
    k: int,
    i: int,
    value: Seq<char>,
)
    requires
        0 <= k <= i < pieces.len(),
        text::cut_from(pieces[i], '=', 0) matches Some((key, v)) && text::trimmed(key) == name && v
            == value,
        forall|j: int|
            0 <= j < i ==> !((#[trigger] text::cut_from(pieces[j], '=', 0)) matches Some((key, _))
                && text::trimmed(key) == name),
    ensures
        cookie_from(pieces, name, k) == Some(text::trimmed(value)),
    decreases i - k,
{
    if k < i {
        assert(!(text::cut_from(pieces[k], '=', 0) matches Some((key, _)) && text::trimmed(key)
            == name));
        lemma_cookie_at(pieces, name, k + 1, i, value);
    }
}

/// The bytes of a digest tell it: two digests whose bytes are the same are the
/// same.
pub proof fn bytes_tell_the_digest(a: u64, b: u64)
    requires
        low_bytes(a as nat, 8) == low_bytes(b as nat, 8),
    ensures
        a == b,
        low_bytes(a as nat, 8).len() == 8,
{
    reveal_with_fuel(byte_strings, 9);
    lemma_low_bytes(a as nat, b as nat, 8);
}

/// How many byte strings of a length there are.
pub open spec fn byte_strings(k: nat) -> nat
    decreases k,
{
    if k == 0 {
        1
    } else {
        256 * byte_strings((k - 1) as nat)
    }
}

proof fn lemma_low_bytes(a: nat, b: nat, k: nat)
    requires
        low_bytes(a, k) == low_bytes(b, k),
        a < byte_strings(k),
        b < byte_strings(k),
    ensures
        a == b,
        low_bytes(a, k).len() == k,
    decreases k,
{
    if k > 0 {
        let x = low_bytes(a / 256, (k - 1) as nat);
        let y = low_bytes(b / 256, (k - 1) as nat);
        let p = low_bytes(a, k);
        let q = low_bytes(b, k);
        assert(p.drop_last() =~= x);
        assert(q.drop_last() =~= y);
        assert(p.last() == (a % 256) as u8);
        assert(q.last() == (b % 256) as u8);
        lemma_low_bytes(a / 256, b / 256, (k - 1) as nat);
    }
}

} // verus!
