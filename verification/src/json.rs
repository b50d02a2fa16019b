//! JSON text: how it is written, and how texts in it are read.
use crate::batch;
use crate::text;
use vstd::prelude::*;
use vstd::utf8::encode_utf8;

verus! {

/// The JSON literal of a string.
pub uninterp spec fn json_text(s: Seq<char>) -> Seq<char>;

/// `serde_json::Value::to_string` on a string value: the string as a JSON
/// literal in quotes. Which characters are escaped, and how, is not stated; the
/// result depends on the text alone.
#[verifier::external_body]
pub(crate) fn json_string(s: &str) -> (r: String)
    ensures
        r@ == json_text(s@),
{
    serde_json::Value::String(s.to_owned()).to_string()
}

/// The JSON of an optional string: its literal, or `null`.
pub open spec fn json_opt(s: Option<Seq<char>>) -> Seq<char> {
    match s {
        Some(t) => json_text(t),
        None => "null"@,
    }
}

/// The JSON of an optional value that is JSON text already.
pub open spec fn json_raw(s: Option<Seq<char>>) -> Seq<char> {
    match s {
        Some(t) => t,
        None => "null"@,
    }
}

/// Appends a member's name and the literal of its string.
pub fn put_text(out: &mut String, name: &str, value: &str)
    ensures
        final(out)@ == old(out)@ + name@ + json_text(value@),
{
    out.append(name);
    out.append(json_string(value).as_str());
}

/// Appends a member's name and the JSON of its optional string.
pub fn put_opt(out: &mut String, name: &str, value: &Option<String>)
    ensures
        final(out)@ == old(out)@ + name@ + json_opt(crate::batch::opt_text(*value)),
{
    out.append(name);
    match value {
        Some(s) => out.append(json_string(s.as_str()).as_str()),
        None => out.append("null"),
    }
}

/// Appends a member's name and its optional JSON text.
pub fn put_raw(out: &mut String, name: &str, value: &Option<String>)
    ensures
        final(out)@ == old(out)@ + name@ + json_raw(crate::batch::opt_text(*value)),
{
    out.append(name);
    match value {
        Some(s) => out.append(s.as_str()),
        None => out.append("null"),
    }
}

/// The JSON list of texts, without its brackets.
pub open spec fn json_items(items: Seq<Seq<char>>) -> Seq<char>
    decreases items.len(),
{
    if items.len() == 0 {
        Seq::empty()
    } else if items.len() == 1 {
        json_text(items[0])
    } else {
        json_items(items.drop_last()) + ","@ + json_text(items.last())
    }
}

/// Appends a member's name and the literals of its texts.
pub fn put_list(out: &mut String, name: &str, items: &Vec<String>)
    ensures
        final(out)@ == old(out)@ + name@ + json_items(text::texts(items@)),
{
    let ghost all = text::texts(items@);
    let ghost front = out@ + name@;
    out.append(name);
    let mut i: usize = 0;
    assert(out@ =~= front + json_items(all.take(0)));
    while i < items.len()
        invariant
            i <= items.len(),
            all == text::texts(items@),
            out@ == front + json_items(all.take(i as int)),
        decreases items.len() - i,
    {
        let ghost next = all.take(i + 1);
        assert(next.drop_last() =~= all.take(i as int));
        assert(next.last() == items@[i as int]@);
        if i > 0 {
            out.append(",");
        }
        out.append(json_string(items[i].as_str()).as_str());
        assert(out@ =~= front + json_items(next));
        i += 1;
    }
    assert(all.take(all.len() as int) =~= all);
}

/// Appends a member's name and its number.
pub fn put_number(out: &mut String, name: &str, n: u64)
    ensures
        final(out)@ == old(out)@ + name@ + text::decimal(n as nat),
{
    out.append(name);
    out.append(text::show(n).as_str());
}

/// The JSON of an optional number.
pub open spec fn json_number(n: Option<u64>) -> Seq<char> {
    match n {
        Some(x) => text::decimal(x as nat),
        None => "null"@,
    }
}

/// Appends a member's name and its number, or `null`.
pub fn put_opt_number(out: &mut String, name: &str, n: Option<u64>)
    ensures
        final(out)@ == old(out)@ + name@ + json_number(n),
{
    out.append(name);
    match n {
        Some(x) => out.append(text::show(x).as_str()),
        None => out.append("null"),
    }
}

/// The JSON of an optional integer.
pub open spec fn json_integer(n: Option<i64>) -> Seq<char> {
    match n {
        Some(x) => text::signed_decimal(x as int),
        None => "null"@,
    }
}

/// Appends a member's name and its integer, or `null`.
pub fn put_integer(out: &mut String, name: &str, n: Option<i64>)
    ensures
        final(out)@ == old(out)@ + name@ + json_integer(n),
{
    out.append(name);
    match n {
        Some(x) => out.append(text::show_signed(x).as_str()),
        None => out.append("null"),
    }
}

// ---------------------------------------------------------------------- reading

/// A member of an object: a text, or a list of texts.
pub enum Held {
    Text(Seq<char>),
    Texts(Seq<Seq<char>>),
}

/// The JSON of what a member holds.
pub open spec fn held_text(h: Held) -> Seq<char> {
    match h {
        Held::Text(t) => json_text(t),
        Held::Texts(l) => "["@ + json_items(l) + "]"@,
    }
}

/// The JSON of members, without the brackets.
pub open spec fn members_text(members: Seq<(Seq<char>, Held)>) -> Seq<char>
    decreases members.len(),
{
    if members.len() == 0 {
        Seq::empty()
    } else {
        let m = members.last();
        let own = "\""@ + m.0 + "\":"@ + held_text(m.1);
        if members.len() == 1 {
            own
        } else {
            members_text(members.drop_last()) + ","@ + own
        }
    }
}

/// The JSON of an object.
pub open spec fn object_text(members: Seq<(Seq<char>, Held)>) -> Seq<char> {
    "{"@ + members_text(members) + "}"@
}

/// Whether members have names of small letters alone, and no two have one.
pub open spec fn plainly_named(members: Seq<(Seq<char>, Held)>) -> bool {
    &&& forall|i: int, k: int|
        0 <= i < members.len() && 0 <= k < members[i].0.len() ==> 'a'
            <= #[trigger] members[i].0[k] <= 'z'
    &&& forall|i: int, j: int|
        0 <= i < j < members.len() ==> (#[trigger] members[i]).0 != (#[trigger] members[j]).0
}

/// The texts of optional strings.
pub open spec fn opt_texts(v: Seq<Option<String>>) -> Seq<Option<Seq<char>>> {
    v.map_values(|s: Option<String>| batch::opt_text(s))
}

/// What was read as a text.
pub open spec fn read_text_view(r: Result<Option<String>, String>) -> Result<
    Option<Seq<char>>,
    Seq<char>,
> {
    match r {
        Ok(t) => Ok(batch::opt_text(t)),
        Err(m) => Err(m@),
    }
}

/// What was read as a list of texts.
pub open spec fn read_list_view(r: Result<Option<Vec<Option<String>>>, String>) -> Result<
    Option<Seq<Option<Seq<char>>>>,
    Seq<char>,
> {
    match r {
        Ok(Some(l)) => Ok(Some(opt_texts(l@))),
        Ok(None) => Ok(None),
        Err(m) => Err(m@),
    }
}

/// The text at a place in JSON, if one stands there; or why it is no JSON.
pub uninterp spec fn text_at(body: Seq<u8>, at: Seq<char>) -> Result<Option<Seq<char>>, Seq<char>>;

/// The list at a place in JSON, if one stands there, and of each of its items
/// the text at a place within it, if one stands there; or why it is no JSON.
pub uninterp spec fn list_at(body: Seq<u8>, at: Seq<char>, within: Seq<char>) -> Result<
    Option<Seq<Option<Seq<char>>>>,
    Seq<char>,
>;

/// Whether a text that was read is the one that was written there, where the
/// bytes are those of an object with plain names and the place is a member.
pub open spec fn reads_back_text(
    body: Seq<u8>,
    at: Seq<char>,
    read: Result<Option<Seq<char>>, Seq<char>>,
) -> bool {
    forall|members: Seq<(Seq<char>, Held)>, i: int|
        body == encode_utf8(#[trigger] object_text(members)) && plainly_named(members) && 0 <= i
            < members.len() && at == "/"@ + (#[trigger] members[i]).0 ==> read == Ok::<
            Option<Seq<char>>,
            Seq<char>,
        >(
            match members[i].1 {
                Held::Text(t) => Some(t),
                Held::Texts(_) => None,
            },
        )
}

/// Whether a list that was read is the one that was written there, where the
/// bytes are those of an object with plain names, the place is a member, and
/// its items are read as they are.
pub open spec fn reads_back_list(
    body: Seq<u8>,
    at: Seq<char>,
    within: Seq<char>,
    read: Result<Option<Seq<Option<Seq<char>>>>, Seq<char>>,
) -> bool {
    forall|members: Seq<(Seq<char>, Held)>, i: int|
        body == encode_utf8(#[trigger] object_text(members)) && plainly_named(members) && 0 <= i
            < members.len() && at == "/"@ + (#[trigger] members[i]).0 && within.len() == 0 ==> read
            == Ok::<Option<Seq<Option<Seq<char>>>>, Seq<char>>(
            match members[i].1 {
                Held::Text(_) => None,
                Held::Texts(l) => Some(l.map_values(|t: Seq<char>| Some(t))),
            },
        )
}

/// `serde_json::from_slice` into a `serde_json::Value`, and of what
/// `Value::pointer` finds there `Value::as_str`. What is read depends on the
/// bytes and the place alone. An object that was put together from plain names
/// and the literals of strings reads back as those strings. What other JSON
/// holds, and what the error says, is not stated.
#[verifier::external_body]
pub(crate) fn read_text(body: &[u8], at: &str) -> (r: Result<Option<String>, String>)
    ensures
        read_text_view(r) == text_at(body@, at@),
        reads_back_text(body@, at@, read_text_view(r)),
{
    let v: serde_json::Value = serde_json::from_slice(body).map_err(|e| e.to_string())?;
    Ok(v.pointer(at).and_then(|t| t.as_str()).map(String::from))
}

/// `serde_json::from_slice` into a `serde_json::Value`, of what `Value::pointer`
/// finds there `Value::as_array`, and of what `Value::pointer` finds in each of
/// its items `Value::as_str`. What is read depends on the bytes and the places
/// alone. An object that was put together from plain names and lists of the
/// literals of strings reads back as those strings, item by item. What other
/// JSON holds, and what the error says, is not stated.
#[verifier::external_body]
pub(crate) fn read_list(body: &[u8], at: &str, within: &str) -> (r: Result<
    Option<Vec<Option<String>>>,
    String,
>)
    ensures
        read_list_view(r) == list_at(body@, at@, within@),
        reads_back_list(body@, at@, within@, read_list_view(r)),
{
    let v: serde_json::Value = serde_json::from_slice(body).map_err(|e| e.to_string())?;
    let list = v.pointer(at).and_then(|l| l.as_array());
    let text = |e: &serde_json::Value| e.pointer(within)?.as_str().map(String::from);
    Ok(list.map(|l| l.iter().map(text).collect()))
}

/// A list of texts is what the texts are, one behind the other with a comma
/// between any two, and what is not there is null.
pub proof fn lists_are_parted_by_commas(
    a: Seq<Seq<char>>,
    b: Seq<Seq<char>>,
    s: Seq<char>,
    n: u64,
    i: i64,
)
    ensures
        json_items(seq![s]) == json_text(s),
        a.len() > 0 && b.len() > 0 ==> json_items(a + b) == json_items(a) + ","@ + json_items(b),
        json_opt(None) == "null"@,
        json_raw(None) == "null"@,
        json_number(None) == "null"@,
        json_integer(None) == "null"@,
        json_opt(Some(s)) == json_text(s),
        json_raw(Some(s)) == s,
        text::unsigned_of(json_number(Some(n)), u64::MAX as nat) == Some(n as nat),
        text::signed_of(json_integer(Some(i))) == Some(i as int),
    decreases b.len(),
{
    text::unsigned_numerals_read_back(n as nat, u64::MAX as nat);
    text::signed_numerals_read_back(i);
    if a.len() > 0 && b.len() > 0 {
        assert((a + b).drop_last() =~= a + b.drop_last());
        assert((a + b).last() == b.last());
        if b.len() == 1 {
            assert(a + b.drop_last() =~= a);
            assert(b =~= seq![b[0]]);
        } else {
            lists_are_parted_by_commas(a, b.drop_last(), s, n, i);
            assert((json_items(a) + ","@ + json_items(b.drop_last())) + ","@ + json_text(b.last())
                =~= json_items(a) + ","@ + (json_items(b.drop_last()) + ","@ + json_text(b.last())));
        }
    }
}

} // verus!
