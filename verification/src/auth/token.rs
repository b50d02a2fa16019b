//! Credentials for reading and writing data: secrets of which only a digest is
//! kept.
use crate::batch;
use crate::crypto;
use crate::ordered;
use crate::ordered::OrderedMap;
use crate::text;
use argon2::password_hash::rand_core::RngCore;
use vstd::prelude::*;
use vstd::utf8::*;

verus! {

/// What every secret begins with.
pub const TOKEN_PREFIX: &'static str = "tldb_";

/// What a token may be used for. One that ships data need not read it back.
#[derive(Debug, Clone, Copy, PartialEq, Eq, Structural)]
pub enum Scope {
    Read,
    Write,
    ReadWrite,
}

/// The name of a scope.
pub open spec fn scope_text(s: Scope) -> Seq<char> {
    match s {
        Scope::Read => "read"@,
        Scope::Write => "write"@,
        Scope::ReadWrite => "read_write"@,
    }
}

/// The scope with a name.
pub open spec fn scope_named(s: Seq<char>) -> Option<Scope> {
    if s == "read"@ {
        Some(Scope::Read)
    } else if s == "write"@ {
        Some(Scope::Write)
    } else if s == "read_write"@ || s == "readwrite"@ || s == "rw"@ {
        Some(Scope::ReadWrite)
    } else {
        None
    }
}

impl Scope {
    /// The name of the scope.
    pub fn as_str(self) -> (r: &'static str)
        ensures
            r@ == scope_text(self),
    {
        match self {
            Scope::Read => "read",
            Scope::Write => "write",
            Scope::ReadWrite => "read_write",
        }
    }

    /// The scope with a name.
    pub fn parse(s: &str) -> (r: Option<Scope>)
        ensures
            r == scope_named(s@),
    {
        if text::same(s, "read") {
            Some(Scope::Read)
        } else if text::same(s, "write") {
            Some(Scope::Write)
        } else if text::same(s, "read_write") || text::same(s, "readwrite") || text::same(s, "rw") {
            Some(Scope::ReadWrite)
        } else {
            None
        }
    }

    /// Whether data may be read.
    pub fn allows_read(self) -> (r: bool)
        ensures
            r == (self != Scope::Write),
    {
        match self {
            Scope::Read => true,
            Scope::ReadWrite => true,
            Scope::Write => false,
        }
    }

    /// Whether data may be written.
    pub fn allows_write(self) -> (r: bool)
        ensures
            r == (self != Scope::Read),
    {
        match self {
            Scope::Write => true,
            Scope::ReadWrite => true,
            Scope::Read => false,
        }
    }
}

/// How credentials are treated: not looked at, looked at where there are any,
/// or asked for.
#[derive(Debug, Clone, Copy, PartialEq, Eq, Structural)]
pub enum DataAuthMode {
    Off,
    Optional,
    Required,
}

/// The name of a mode.
pub open spec fn mode_text(m: DataAuthMode) -> Seq<char> {
    match m {
        DataAuthMode::Off => "off"@,
        DataAuthMode::Optional => "optional"@,
        DataAuthMode::Required => "required"@,
    }
}

/// The mode with a name, in whatever case and between whatever blanks. A name
/// that is none is not taken for any mode.
pub open spec fn mode_named(s: Seq<char>) -> Option<DataAuthMode> {
    let t = text::lowered(text::trimmed(s));
    if t == "off"@ || t.len() == 0 {
        Some(DataAuthMode::Off)
    } else if t == "optional"@ || t == "want"@ {
        Some(DataAuthMode::Optional)
    } else if t == "required"@ || t == "require"@ || t == "on"@ {
        Some(DataAuthMode::Required)
    } else {
        None
    }
}

impl DataAuthMode {
    /// The name of the mode.
    pub fn as_str(self) -> (r: &'static str)
        ensures
            r@ == mode_text(self),
    {
        match self {
            DataAuthMode::Off => "off",
            DataAuthMode::Optional => "optional",
            DataAuthMode::Required => "required",
        }
    }

    /// The mode with a name.
    pub fn parse(s: &str) -> (r: Option<DataAuthMode>)
        ensures
            r == mode_named(s@),
    {
        let trimmed = text::trim(s);
        let t = text::lower(trimmed.as_str());
        let t = t.as_str();
        if text::same(t, "off") || t.unicode_len() == 0 {
            Some(DataAuthMode::Off)
        } else if text::same(t, "optional") || text::same(t, "want") {
            Some(DataAuthMode::Optional)
        } else if text::same(t, "required") || text::same(t, "require") || text::same(t, "on") {
            Some(DataAuthMode::Required)
        } else {
            None
        }
    }
}

/// A token as it is kept: its digest, and never its secret.
#[derive(Debug, Clone)]
pub struct TokenRecord {
    pub id: String,
    pub description: String,
    /// The digest of the secret, in hexadecimal.
    pub hash: String,
    pub scope: Scope,
    /// The databases that it is good for; all where there is none.
    pub databases: Vec<String>,
    /// What its holder may see by, where anything is recorded.
    pub authorizations: Vec<String>,
    pub created_by: String,
    pub created_at_secs: u64,
    pub expires_at_secs: Option<u64>,
    pub revoked: bool,
    pub last_used_secs: Option<u64>,
}

/// Whether a list of databases covers one: any does that is empty.
pub open spec fn covers(databases: Seq<String>, db: Seq<char>) -> bool {
    databases.len() == 0 || text::texts(databases).contains(db)
}

/// Whether a list of databases covers one.
pub fn covers_database(databases: &Vec<String>, db: &str) -> (r: bool)
    ensures
        r == covers(databases@, db@),
{
    databases.len() == 0 || text::contains_text(databases, db)
}

impl TokenRecord {
    /// Whether the token is good at a time: not revoked, and not expired.
    pub open spec fn good_at(self, now: u64) -> bool {
        !self.revoked && (self.expires_at_secs matches Some(e) ==> e > now)
    }

    /// Whether the token is good at a time.
    pub fn is_valid_at(&self, now: u64) -> (r: bool)
        ensures
            r == self.good_at(now),
    {
        if self.revoked {
            return false;
        }
        match self.expires_at_secs {
            Some(e) => e > now,
            None => true,
        }
    }

    /// Whether the token is good for a database.
    pub fn allows_database(&self, db: &str) -> (r: bool)
        ensures
            r == covers(self.databases@, db@),
    {
        covers_database(&self.databases, db)
    }

    /// A copy.
    pub fn copy(&self) -> (r: TokenRecord)
        ensures
            same_record(r, *self),
    {
        TokenRecord {
            id: self.id.clone(),
            description: self.description.clone(),
            hash: self.hash.clone(),
            scope: self.scope,
            databases: text::copy_texts(&self.databases),
            authorizations: text::copy_texts(&self.authorizations),
            created_by: self.created_by.clone(),
            created_at_secs: self.created_at_secs,
            expires_at_secs: self.expires_at_secs,
            revoked: self.revoked,
            last_used_secs: self.last_used_secs,
        }
    }
}

/// Whether two records say the same.
pub open spec fn same_record(a: TokenRecord, b: TokenRecord) -> bool {
    &&& a.id == b.id
    &&& a.description == b.description
    &&& a.hash == b.hash
    &&& a.scope == b.scope
    &&& a.databases@ == b.databases@
    &&& a.authorizations@ == b.authorizations@
    &&& a.created_by == b.created_by
    &&& a.created_at_secs == b.created_at_secs
    &&& a.expires_at_secs == b.expires_at_secs
    &&& a.revoked == b.revoked
    &&& a.last_used_secs == b.last_used_secs
}

/// Who a request comes from, by the token that it carries.
#[derive(Debug, Clone)]
pub struct TokenIdentity {
    pub id: String,
    pub description: String,
    pub scope: Scope,
    pub databases: Vec<String>,
    pub authorizations: Vec<String>,
}

/// Whether an identity is that of a record.
pub open spec fn identity_of(i: TokenIdentity, t: TokenRecord) -> bool {
    &&& i.id == t.id
    &&& i.description == t.description
    &&& i.scope == t.scope
    &&& i.databases@ == t.databases@
    &&& i.authorizations@ == t.authorizations@
}

/// Why a request is refused. Which of unknown, revoked and expired a token is
/// is not told.
#[derive(Debug, Clone, Copy, PartialEq, Eq, Structural)]
pub enum TokenError {
    /// There is no credential, and one is asked for.
    Missing,
    /// What there is is none that is good.
    Invalid,
    /// It is good, but not for this.
    Forbidden,
}

/// The kind of a refusal.
pub open spec fn error_code(e: TokenError) -> Seq<char> {
    match e {
        TokenError::Forbidden => "forbidden"@,
        _ => "unauthenticated"@,
    }
}

/// A refusal in words.
pub open spec fn error_text(e: TokenError) -> Seq<char> {
    match e {
        TokenError::Missing => "authentication required"@,
        TokenError::Invalid => "invalid token"@,
        TokenError::Forbidden => "token is not permitted to do that"@,
    }
}

impl TokenError {
    /// The kind of the refusal.
    pub fn code(self) -> (r: &'static str)
        ensures
            r@ == error_code(self),
    {
        match self {
            TokenError::Missing => "unauthenticated",
            TokenError::Invalid => "unauthenticated",
            TokenError::Forbidden => "forbidden",
        }
    }

    /// The refusal in words.
    pub fn message(self) -> (r: &'static str)
        ensures
            r@ == error_text(self),
    {
        match self {
            TokenError::Missing => "authentication required",
            TokenError::Invalid => "invalid token",
            TokenError::Forbidden => "token is not permitted to do that",
        }
    }
}

// ---------------------------------------------------------------------- base64

/// The character of six bits, in the alphabet that needs no escaping.
pub open spec fn sextet_char(v: int) -> char {
    if v < 26 {
        (v + 0x41) as char
    } else if v < 52 {
        (v - 26 + 0x61) as char
    } else if v < 62 {
        (v - 52 + 0x30) as char
    } else if v == 62 {
        '-'
    } else {
        '_'
    }
}

/// The six bits of a character, in either alphabet.
pub open spec fn sextet(c: char) -> Option<int> {
    if 'A' <= c && c <= 'Z' {
        Some(c as int - 0x41)
    } else if 'a' <= c && c <= 'z' {
        Some(c as int - 0x61 + 26)
    } else if '0' <= c && c <= '9' {
        Some(c as int - 0x30 + 52)
    } else if c == '+' || c == '-' {
        Some(62)
    } else if c == '/' || c == '_' {
        Some(63)
    } else {
        None
    }
}

/// The three bytes at the front as one number; those that are missing are zero.
pub open spec fn three(b: Seq<u8>) -> int {
    let x = if b.len() > 0 {
        b[0] as int
    } else {
        0
    };
    let y = if b.len() > 1 {
        b[1] as int
    } else {
        0
    };
    let z = if b.len() > 2 {
        b[2] as int
    } else {
        0
    };
    0x1_0000 * x + 0x100 * y + z
}

/// Bytes in base64, without padding.
pub open spec fn encoded(b: Seq<u8>) -> Seq<char>
    decreases b.len(),
{
    let n = three(b);
    let first = seq![sextet_char(n / 0x4_0000), sextet_char((n / 0x1000) % 64)];
    if b.len() == 0 {
        Seq::empty()
    } else if b.len() == 1 {
        first
    } else if b.len() == 2 {
        first.push(sextet_char((n / 64) % 64))
    } else {
        first.push(sextet_char((n / 64) % 64)).push(sextet_char(n % 64)) + encoded(b.skip(3))
    }
}

/// The six bits of the character at a place, or zero where there is none.
pub open spec fn bits_at(s: Seq<char>, i: int) -> int {
    if i < s.len() {
        match sextet(s[i]) {
            Some(v) => v,
            None => 0,
        }
    } else {
        0
    }
}

/// The four characters at the front as one number.
pub open spec fn four(s: Seq<char>) -> int {
    0x4_0000 * bits_at(s, 0) + 0x1000 * bits_at(s, 1) + 64 * bits_at(s, 2) + bits_at(s, 3)
}

/// Whether the characters at the front, up to four, are in an alphabet.
pub open spec fn front_known(s: Seq<char>) -> bool {
    forall|i: int| 0 <= i < s.len() && i < 4 ==> sextet(#[trigger] s[i]) is Some
}

/// The bytes of base64 without padding: nothing where a character is in no
/// alphabet, or where one stands alone at the end.
pub open spec fn decoded(s: Seq<char>) -> Option<Seq<u8>>
    decreases s.len(),
{
    let n = four(s);
    let first = (n / 0x1_0000) as u8;
    let second = ((n / 0x100) % 0x100) as u8;
    let third = (n % 0x100) as u8;
    if s.len() == 0 {
        Some(Seq::empty())
    } else if s.len() == 1 || !front_known(s) {
        None
    } else if s.len() == 2 {
        Some(seq![first])
    } else if s.len() == 3 {
        Some(seq![first, second])
    } else {
        match decoded(s.skip(4)) {
            Some(rest) => Some(seq![first, second, third] + rest),
            None => None,
        }
    }
}

/// Whether a character is passed over: padding, or a blank.
pub open spec fn passed_over(c: char) -> bool {
    c == '=' || c == ' ' || c == '\t' || c == '\n' || c == '\r' || c == '\x0C'
}

/// A text without padding and blanks.
pub open spec fn cleaned(s: Seq<char>) -> Seq<char>
    decreases s.len(),
{
    if s.len() == 0 {
        Seq::empty()
    } else {
        let p = cleaned(s.drop_last());
        if passed_over(s.last()) {
            p
        } else {
            p.push(s.last())
        }
    }
}

proof fn lemma_sextet_chars(v: int)
    requires
        0 <= v < 64,
    ensures
        sextet(sextet_char(v)) == Some(v),
        !passed_over(sextet_char(v)),
{
}

proof fn lemma_encoded_is_clean(b: Seq<u8>)
    ensures
        forall|i: int| 0 <= i < encoded(b).len() ==> !passed_over(#[trigger] encoded(b)[i]),
    decreases b.len(),
{
    if b.len() > 0 {
        let n = three(b);
        lemma_sextet_chars(n / 0x4_0000);
        lemma_sextet_chars((n / 0x1000) % 64);
        lemma_sextet_chars((n / 64) % 64);
        lemma_sextet_chars(n % 64);
        if b.len() >= 3 {
            lemma_encoded_is_clean(b.skip(3));
            let e = encoded(b);
            assert forall|i: int| 0 <= i < e.len() implies !passed_over(#[trigger] e[i]) by {
                if i >= 4 {
                    assert(e[i] == encoded(b.skip(3))[i - 4]);
                }
            }
        }
    }
}

proof fn lemma_cleaned_keeps(s: Seq<char>)
    requires
        forall|i: int| 0 <= i < s.len() ==> !passed_over(#[trigger] s[i]),
    ensures
        cleaned(s) == s,
    decreases s.len(),
{
    if s.len() > 0 {
        assert forall|i: int| 0 <= i < s.drop_last().len() implies !passed_over(
            #[trigger] s.drop_last()[i],
        ) by {
            assert(s.drop_last()[i] == s[i]);
        }
        lemma_cleaned_keeps(s.drop_last());
        assert(s.drop_last().push(s.last()) =~= s);
    } else {
        assert(cleaned(s) =~= s);
    }
}

proof fn lemma_parts(n: u32, x: u32, y: u32, z: u32)
    by (bit_vector)
    requires
        x < 0x100,
        y < 0x100,
        z < 0x100,
        n == 0x1_0000 * x + 0x100 * y + z,
    ensures
        n / 0x4_0000 < 64,
        n == 0x4_0000 * (n / 0x4_0000) + 0x1000 * ((n / 0x1000) % 64) + 64 * ((n / 64) % 64) + n
            % 64,
        n / 0x1_0000 == x,
        (n / 0x100) % 0x100 == y,
        n % 0x100 == z,
        z == 0 ==> n % 64 == 0,
        y == 0 && z == 0 ==> (n / 64) % 64 == 0,
{
}

proof fn lemma_sextets(x: u8, y: u8, z: u8)
    ensures
        ({
            let n = 0x1_0000 * x + 0x100 * y + z;
            &&& 0 <= n / 0x4_0000 < 64
            &&& n == 0x4_0000 * (n / 0x4_0000) + 0x1000 * ((n / 0x1000) % 64) + 64 * ((n / 64) % 64)
                + n % 64
            &&& n / 0x1_0000 == x
            &&& (n / 0x100) % 0x100 == y
            &&& n % 0x100 == z
            &&& z == 0 ==> n % 64 == 0
            &&& y == 0 && z == 0 ==> (n / 64) % 64 == 0
        }),
{
    let n = 0x1_0000 * x + 0x100 * y + z;
    lemma_parts(n as u32, x as u32, y as u32, z as u32);
}

proof fn lemma_front(e: Seq<char>, n: int)
    requires
        2 <= e.len(),
        0 <= n / 0x4_0000 < 64,
        e[0] == sextet_char(n / 0x4_0000),
        e[1] == sextet_char((n / 0x1000) % 64),
        e.len() > 2 ==> e[2] == sextet_char((n / 64) % 64),
        e.len() > 3 ==> e[3] == sextet_char(n % 64),
    ensures
        front_known(e),
        four(e) == 0x4_0000 * (n / 0x4_0000) + 0x1000 * ((n / 0x1000) % 64) + 64 * (if e.len() > 2 {
            (n / 64) % 64
        } else {
            0
        }) + (if e.len() > 3 {
            n % 64
        } else {
            0
        }),
{
    lemma_sextet_chars(n / 0x4_0000);
    lemma_sextet_chars((n / 0x1000) % 64);
    lemma_sextet_chars((n / 64) % 64);
    lemma_sextet_chars(n % 64);
}

proof fn lemma_decode_encoded(b: Seq<u8>)
    ensures
        decoded(encoded(b)) == Some(b),
    decreases b.len(),
{
    let e = encoded(b);
    let n = three(b);
    if b.len() == 1 {
        lemma_sextets(b[0], 0, 0);
        lemma_front(e, n);
        assert(seq![b[0]] =~= b);
    } else if b.len() == 2 {
        lemma_sextets(b[0], b[1], 0);
        lemma_front(e, n);
        assert(seq![b[0], b[1]] =~= b);
    } else if b.len() >= 3 {
        lemma_sextets(b[0], b[1], b[2]);
        lemma_front(e, n);
        lemma_decode_encoded(b.skip(3));
        assert(e.skip(4) =~= encoded(b.skip(3)));
        assert(seq![b[0], b[1], b[2]] + b.skip(3) =~= b);
    }
}

/// A text in the standard alphabet of base64, from one in the alphabet that
/// needs no escaping.
pub open spec fn standard(s: Seq<char>) -> Seq<char> {
    s.map_values(
        |c: char|
            if c == '-' {
                '+'
            } else if c == '_' {
                '/'
            } else {
                c
            },
    )
}

/// A text padded to whole groups of four characters.
pub open spec fn padded(s: Seq<char>) -> Seq<char> {
    if s.len() % 4 == 2 {
        s.push('=').push('=')
    } else if s.len() % 4 == 3 {
        s.push('=')
    } else {
        s
    }
}

proof fn lemma_decoded_alike(s: Seq<char>, t: Seq<char>)
    requires
        s.len() == t.len(),
        forall|i: int| 0 <= i < s.len() ==> sextet(#[trigger] s[i]) == sextet(t[i]),
    ensures
        decoded(s) == decoded(t),
    decreases s.len(),
{
    assert(front_known(s) == front_known(t)) by {
        assert(forall|i: int| 0 <= i < t.len() ==> sextet(#[trigger] t[i]) == sextet(s[i]));
    }
    if s.len() >= 4 {
        assert forall|i: int| 0 <= i < s.skip(4).len() implies sextet(#[trigger] s.skip(4)[i])
            == sextet(t.skip(4)[i]) by {
            assert(s.skip(4)[i] == s[i + 4]);
        }
        lemma_decoded_alike(s.skip(4), t.skip(4));
    }
}

proof fn lemma_padding_is_passed_over(s: Seq<char>)
    ensures
        cleaned(padded(s)) == cleaned(s),
{
    let one = s.push('=');
    let two = one.push('=');
    assert(one.drop_last() =~= s);
    assert(cleaned(one) == cleaned(s));
    assert(two.drop_last() =~= one);
    assert(cleaned(two) == cleaned(one));
}

/// What is written in base64 is read back as it was, in the alphabet that needs
/// no escaping and in the standard one, with padding and without.
pub proof fn base64_reads_back(b: Seq<u8>)
    ensures
        decoded(cleaned(encoded(b))) == Some(b),
        decoded(cleaned(padded(encoded(b)))) == Some(b),
        decoded(cleaned(standard(encoded(b)))) == Some(b),
        decoded(cleaned(padded(standard(encoded(b))))) == Some(b),
{
    let e = encoded(b);
    let t = standard(e);
    lemma_encoded_is_clean(b);
    lemma_cleaned_keeps(e);
    lemma_cleaned_keeps(t);
    lemma_decode_encoded(b);
    lemma_decoded_alike(t, e);
    lemma_padding_is_passed_over(e);
    lemma_padding_is_passed_over(t);
}

fn char_of(v: u32) -> (r: char)
    requires
        v < 64,
    ensures
        r == sextet_char(v as int),
{
    if v < 26 {
        (v as u8 + 0x41) as char
    } else if v < 52 {
        (v as u8 - 26 + 0x61) as char
    } else if v < 62 {
        (v as u8 - 52 + 0x30) as char
    } else if v == 62 {
        '-'
    } else {
        '_'
    }
}

/// Writes bytes in base64, in the alphabet that needs no escaping and without
/// padding.
pub fn base64url(bytes: &Vec<u8>) -> (r: String)
    ensures
        r@ == encoded(bytes@),
{
    let mut out = String::new();
    let mut i: usize = 0;
    assert(out@ =~= Seq::empty());
    assert(bytes@.skip(0) =~= bytes@);
    assert(encoded(bytes@) =~= out@ + encoded(bytes@.skip(0)));
    while i < bytes.len()
        invariant
            i <= bytes.len(),
            encoded(bytes@) == out@ + encoded(bytes@.skip(i as int)),
        decreases bytes.len() - i,
    {
        let ghost rest = bytes@.skip(i as int);
        let ghost done = out@;
        let left: usize = bytes.len() - i;
        let x: u32 = bytes[i] as u32;
        let y: u32 = if left > 1 {
            bytes[i + 1] as u32
        } else {
            0
        };
        let z: u32 = if left > 2 {
            bytes[i + 2] as u32
        } else {
            0
        };
        let n: u32 = 0x1_0000 * x + 0x100 * y + z;
        assert(n == three(rest));
        out.push(char_of(n / 0x4_0000));
        out.push(char_of((n / 0x1000) % 64));
        if left > 1 {
            out.push(char_of((n / 64) % 64));
        }
        if left > 2 {
            out.push(char_of(n % 64));
            assert(rest.skip(3) =~= bytes@.skip(i + 3));
            assert(out@ + encoded(rest.skip(3)) =~= done + encoded(rest));
            i += 3;
        } else {
            assert(out@ =~= done + encoded(rest));
            i = bytes.len();
            assert(bytes@.skip(i as int) =~= Seq::empty());
            assert(out@ + encoded(bytes@.skip(i as int)) =~= out@);
        }
    }
    assert(bytes@.skip(i as int) =~= Seq::empty());
    assert(out@ + encoded(bytes@.skip(i as int)) =~= out@);
    out
}

fn sextet_of(c: char) -> (r: Option<u32>)
    ensures
        match (r, sextet(c)) {
            (Some(v), Some(w)) => v == w && v < 64,
            (None, None) => true,
            _ => false,
        },
{
    if 'A' <= c && c <= 'Z' {
        Some(c as u32 - 0x41)
    } else if 'a' <= c && c <= 'z' {
        Some(c as u32 - 0x61 + 26)
    } else if '0' <= c && c <= '9' {
        Some(c as u32 - 0x30 + 52)
    } else if c == '+' || c == '-' {
        Some(62)
    } else if c == '/' || c == '_' {
        Some(63)
    } else {
        None
    }
}

fn clean(s: &str) -> (r: Vec<char>)
    ensures
        r@ == cleaned(s@),
{
    let chars = text::chars_of(s);
    let mut out: Vec<char> = Vec::new();
    let mut i: usize = 0;
    assert(chars@.take(0) =~= Seq::empty());
    while i < chars.len()
        invariant
            i <= chars.len(),
            chars@ == s@,
            out@ == cleaned(s@.take(i as int)),
        decreases chars.len() - i,
    {
        assert(s@.take(i + 1).drop_last() =~= s@.take(i as int));
        let c: char = chars[i];
        if !(c == '=' || c == ' ' || c == '\t' || c == '\n' || c == '\r' || c == '\x0C') {
            out.push(c);
        }
        i += 1;
    }
    assert(s@.take(s@.len() as int) =~= s@);
    out
}

fn read_front(v: &Vec<char>, i: usize) -> (r: Option<u32>)
    requires
        i < v.len(),
    ensures
        match r {
            Some(n) => front_known(v@.skip(i as int)) && n == four(v@.skip(i as int)) && n
                < 0x100_0000,
            None => !front_known(v@.skip(i as int)),
        },
{
    let ghost s = v@.skip(i as int);
    let left: usize = v.len() - i;
    let mut bits: [u32; 4] = [0, 0, 0, 0];
    let mut k: usize = 0;
    while k < 4 && k < left
        invariant
            k <= 4,
            k <= left,
            left == v.len() - i,
            i < v.len(),
            s == v@.skip(i as int),
            forall|j: int| 0 <= j < k ==> sextet(#[trigger] s[j]) == Some(bits@[j] as int),
            forall|j: int| 0 <= j < 4 ==> #[trigger] bits@[j] < 64,
            forall|j: int| k <= j < 4 ==> #[trigger] bits@[j] == 0,
        decreases 4 - k,
    {
        assert(s[k as int] == v@[i + k]);
        match sextet_of(v[i + k]) {
            Some(b) => {
                bits[k] = b;
            },
            None => {
                assert(sextet(s[k as int]) is None);
                return None;
            },
        }
        k += 1;
    }
    assert(forall|j: int| 0 <= j < 4 ==> bits_at(s, j) == #[trigger] bits@[j]);
    assert(bits@[0] < 64 && bits@[1] < 64 && bits@[2] < 64 && bits@[3] < 64);
    assert(bits_at(s, 0) == bits@[0]);
    assert(bits_at(s, 1) == bits@[1]);
    assert(bits_at(s, 2) == bits@[2]);
    assert(bits_at(s, 3) == bits@[3]);
    Some(0x4_0000 * bits[0] + 0x1000 * bits[1] + 64 * bits[2] + bits[3])
}

/// Reads base64 in either alphabet. Padding and blanks are passed over.
pub fn base64_decode(s: &str) -> (r: Option<Vec<u8>>)
    ensures
        match (r, decoded(cleaned(s@))) {
            (Some(b), Some(v)) => b@ == v,
            (None, None) => true,
            _ => false,
        },
{
    let v = clean(s);
    let mut out: Vec<u8> = Vec::new();
    let mut i: usize = 0;
    let ghost whole = decoded(v@);
    assert(v@.skip(0) =~= v@);
    assert(whole is Some ==> out@ + decoded(v@.skip(0))->Some_0 =~= whole->Some_0);
    while i < v.len()
        invariant
            i <= v.len(),
            v@ == cleaned(s@),
            whole == decoded(v@),
            whole is Some == decoded(v@.skip(i as int)) is Some,
            whole is Some ==> whole->Some_0 == out@ + decoded(v@.skip(i as int))->Some_0,
        decreases v.len() - i,
    {
        let ghost rest = v@.skip(i as int);
        let ghost done = out@;
        let left: usize = v.len() - i;
        if left < 2 {
            return None;
        }
        match read_front(&v, i) {
            None => {
                return None;
            },
            Some(n) => {
                out.push((n / 0x1_0000) as u8);
                if left > 2 {
                    out.push(((n / 0x100) % 0x100) as u8);
                }
                if left > 3 {
                    out.push((n % 0x100) as u8);
                    assert(rest.skip(4) =~= v@.skip(i + 4));
                    proof {
                        if whole is Some {
                            assert(out@ + decoded(rest.skip(4))->Some_0 =~= done + decoded(
                                rest,
                            )->Some_0);
                        }
                    }
                    i += 4;
                } else {
                    assert(out@ =~= done + decoded(rest)->Some_0);
                    i = v.len();
                    assert(v@.skip(i as int) =~= Seq::empty());
                    assert(out@ + decoded(v@.skip(i as int))->Some_0 =~= out@);
                }
            },
        }
    }
    assert(v@.skip(i as int) =~= Seq::empty());
    assert(out@ + decoded(v@.skip(i as int))->Some_0 =~= out@);
    Some(out)
}

// --------------------------------------------------------------------- secrets

/// Bytes by chance, from the operating system, by
/// `rand_core::OsRng::try_fill_bytes`. Claimed is only how many there are;
/// there are none where the system has no randomness to give.
#[verifier::external_body]
pub(crate) fn random_bytes(n: usize) -> (r: Option<Vec<u8>>)
    ensures
        r matches Some(b) ==> b@.len() == n,
{
    let mut raw = vec![0u8; n];
    argon2::password_hash::rand_core::OsRng.try_fill_bytes(&mut raw).ok()?;
    Some(raw)
}

/// The secret of some bytes.
pub fn secret_of(raw: &Vec<u8>) -> (r: String)
    ensures
        r@ == TOKEN_PREFIX@ + encoded(raw@),
{
    let mut s = TOKEN_PREFIX.to_owned();
    s.append(base64url(raw).as_str());
    s
}

/// A new secret; none where the system has no randomness to give.
pub fn generate_secret() -> (r: Option<String>)
    ensures
        r matches Some(s) ==> exists|raw: Seq<u8>|
            raw.len() == 32 && s@ == TOKEN_PREFIX@ + #[trigger] encoded(raw),
{
    match random_bytes(32) {
        Some(raw) => {
            let s = secret_of(&raw);
            assert(s@ == TOKEN_PREFIX@ + encoded(raw@));
            Some(s)
        },
        None => None,
    }
}

/// A new text by chance, in hexadecimal; none where the system has no
/// randomness to give.
pub fn random_token() -> (r: Option<String>)
    ensures
        r matches Some(s) ==> exists|raw: Seq<u8>|
            raw.len() == 32 && s@ == #[trigger] text::hex_text(raw),
{
    match random_bytes(32) {
        Some(raw) => {
            let s = text::show_hex(&raw);
            assert(s@ == text::hex_text(raw@));
            Some(s)
        },
        None => None,
    }
}

/// The digest of a secret.
pub open spec fn digest_of(secret: Seq<char>) -> Seq<char> {
    crypto::sha256_hex(encode_utf8(secret))
}

/// The digest of a secret.
pub fn hash_token(secret: &str) -> (r: String)
    ensures
        r@ == digest_of(secret@),
        r@.len() == 64,
{
    let bytes = secret.as_bytes_vec();
    crypto::hash_hex(&bytes)
}

/// Whether two digests are the same, in a time that does not depend on where
/// they differ.
pub fn digests_match(a: &str, b: &str) -> (r: bool)
    ensures
        r == (a@ == b@),
{
    crypto::same_digest(a, b)
}

/// The secret in the value of an `Authorization` header: behind `Bearer` or
/// `Token` as it is, behind `Basic` as the password.
pub open spec fn secret_in(header: Seq<char>) -> Option<Seq<char>> {
    match text::cut_from(header, ' ', 0) {
        None => None,
        Some((scheme, rest)) => {
            let value = text::trimmed(rest);
            let name = text::lowered(scheme);
            if value.len() == 0 {
                None
            } else if name == "bearer"@ || name == "token"@ {
                Some(value)
            } else if name == "basic"@ {
                match decoded(cleaned(value)) {
                    None => None,
                    Some(bytes) => if valid_utf8(bytes) {
                        match text::cut_from(decode_utf8(bytes), ':', 0) {
                            None => None,
                            Some((_, password)) => if password.len() == 0 {
                                None
                            } else {
                                Some(password)
                            },
                        }
                    } else {
                        None
                    },
                }
            } else {
                None
            }
        },
    }
}

/// The secret in the value of an `Authorization` header.
pub fn token_from_authorization(header: &str) -> (r: Option<String>)
    ensures
        batch::opt_text(r) == secret_in(header@),
{
    match text::cut(header, ' ') {
        None => None,
        Some((scheme, rest)) => {
            let value = text::trim(rest.as_str());
            let name = text::lower(scheme.as_str());
            let name = name.as_str();
            if value.as_str().unicode_len() == 0 {
                return None;
            }
            if text::same(name, "bearer") || text::same(name, "token") {
                return Some(value);
            }
            if text::same(name, "basic") {
                match base64_decode(value.as_str()) {
                    None => None,
                    Some(bytes) => {
                        match text::text_of_bytes(bytes.as_slice()) {
                            None => None,
                            Some(t) => {
                                match text::cut(t.as_str(), ':') {
                                    None => None,
                                    Some((_, password)) => {
                                        if password.as_str().unicode_len() == 0 {
                                            None
                                        } else {
                                            Some(password)
                                        }
                                    },
                                }
                            },
                        }
                    },
                }
            } else {
                None
            }
        },
    }
}

// ------------------------------------------------------------------- the tokens

/// The tokens, found by their digests.
#[derive(Debug)]
pub struct TokenIndex {
    pub by_hash: OrderedMap<TokenRecord>,
}

impl Default for TokenIndex {
    fn default() -> (r: TokenIndex)
        ensures
            r.wf(),
            r.by_hash@ == Map::<Seq<char>, TokenRecord>::empty(),
    {
        TokenIndex { by_hash: OrderedMap::new() }
    }
}

/// The tokens of records, by their digests; of two with one digest the later
/// counts.
pub open spec fn index_of(records: Seq<TokenRecord>) -> Map<Seq<char>, TokenRecord>
    decreases records.len(),
{
    if records.len() == 0 {
        Map::empty()
    } else {
        index_of(records.drop_last()).insert(records.last().hash@, records.last())
    }
}

/// The first of entries with an identifier.
pub open spec fn id_at(entries: Seq<(String, TokenRecord)>, id: Seq<char>) -> Option<int>
    decreases entries.len(),
{
    if entries.len() == 0 {
        None
    } else {
        match id_at(entries.drop_last(), id) {
            Some(i) => Some(i),
            None => if entries.last().1.id@ == id {
                Some(entries.len() - 1)
            } else {
                None
            },
        }
    }
}

proof fn lemma_id_at(entries: Seq<(String, TokenRecord)>, id: Seq<char>, k: int)
    requires
        0 <= k <= entries.len(),
        id_at(entries.take(k), id) is Some,
    ensures
        id_at(entries, id) == id_at(entries.take(k), id),
    decreases entries.len(),
{
    if k == entries.len() {
        assert(entries.take(k) =~= entries);
    } else {
        assert(entries.drop_last().take(k) =~= entries.take(k));
        lemma_id_at(entries.drop_last(), id, k);
    }
}

/// The same record, revoked.
pub open spec fn revoked_record(t: TokenRecord) -> TokenRecord {
    TokenRecord { revoked: true, ..t }
}

impl TokenIndex {
    /// Each record is found under its own digest.
    pub open spec fn wf(self) -> bool {
        &&& self.by_hash.wf()
        &&& forall|i: int|
            0 <= i < self.by_hash.entries@.len() ==> (#[trigger] self.by_hash.entries@[i]).0@
                == self.by_hash.entries@[i].1.hash@
    }

    /// The tokens of records.
    pub fn from_records(records: Vec<TokenRecord>) -> (r: TokenIndex)
        ensures
            r.wf(),
            r.by_hash@ == index_of(records@),
    {
        let mut index = TokenIndex { by_hash: OrderedMap::new() };
        let ghost all = records@;
        let mut rest = records;
        let ghost mut done: Seq<TokenRecord> = Seq::empty();
        while rest.len() > 0
            invariant
                index.wf(),
                all == done + rest@,
                index.by_hash@ == index_of(done),
            decreases rest.len(),
        {
            let record = rest.remove(0);
            proof {
                assert(done.push(record).drop_last() =~= done);
                assert(all =~= done.push(record) + rest@);
                done = done.push(record);
            }
            index.insert(record);
        }
        assert(all =~= done);
        index
    }

    /// Copies of the records, in the order of their digests.
    pub fn records(&self) -> (r: Vec<TokenRecord>)
        ensures
            r@.len() == self.by_hash.entries@.len(),
            forall|i: int|
                0 <= i < r@.len() ==> same_record(#[trigger] r@[i], self.by_hash.entries@[i].1),
    {
        let mut out: Vec<TokenRecord> = Vec::new();
        let mut i: usize = 0;
        while i < self.by_hash.entries.len()
            invariant
                i <= self.by_hash.entries.len(),
                out@.len() == i,
                forall|k: int|
                    0 <= k < i ==> same_record(#[trigger] out@[k], self.by_hash.entries@[k].1),
            decreases self.by_hash.entries.len() - i,
        {
            out.push(self.by_hash.entries[i].1.copy());
            i += 1;
        }
        out
    }

    /// Takes a record up.
    pub fn insert(&mut self, record: TokenRecord)
        requires
            old(self).wf(),
        ensures
            final(self).wf(),
            final(self).by_hash@ == old(self).by_hash@.insert(record.hash@, record),
    {
        let ghost was = self.by_hash;
        let ghost rec = record;
        self.by_hash.insert(record.hash.clone(), record);
        proof {
            let now = self.by_hash.entries@;
            assert forall|i: int| 0 <= i < now.len() implies (#[trigger] now[i]).0@
                == now[i].1.hash@ by {
                ordered::entries_are_the_map(self.by_hash, i);
                let k = now[i].0@;
                if k != rec.hash@ {
                    assert(was@.contains_key(k));
                    let j = ordered::place_of(was.entries@, k);
                    assert(was@[k] == was.entries@[j].1);
                    assert(0 <= j < was.entries@.len() && was.entries@[j].0@ == k);
                    assert(was.entries@[j].0@ == was.entries@[j].1.hash@);
                    assert(now[i].1 == was@[k]);
                }
            }
        }
    }

    fn find_id(&self, id: &str) -> (r: Option<usize>)
        ensures
            match (r, id_at(self.by_hash.entries@, id@)) {
                (Some(i), Some(j)) => i == j && i < self.by_hash.entries@.len()
                    && self.by_hash.entries@[j].1.id@ == id@,
                (None, None) => true,
                _ => false,
            },
    {
        let ghost all = self.by_hash.entries@;
        let mut i: usize = 0;
        assert(all.take(0) =~= Seq::empty());
        while i < self.by_hash.entries.len()
            invariant
                i <= self.by_hash.entries.len(),
                all == self.by_hash.entries@,
                id_at(all.take(i as int), id@) is None,
            decreases self.by_hash.entries.len() - i,
        {
            assert(all.take(i + 1).drop_last() =~= all.take(i as int));
            if text::same(self.by_hash.entries[i].1.id.as_str(), id) {
                proof {
                    lemma_id_at(all, id@, i + 1);
                }
                return Some(i);
            }
            i += 1;
        }
        assert(all.take(all.len() as int) =~= all);
        None
    }

    /// The record with an identifier, to be changed: the first in the order of
    /// the digests.
    pub fn by_id_mut(&mut self, id: &str) -> (r: Option<&mut TokenRecord>)
        ensures
            match (r, id_at(old(self).by_hash.entries@, id@)) {
                (Some(t), Some(i)) => {
                    &&& 0 <= i < old(self).by_hash.entries@.len()
                    &&& *t == old(self).by_hash.entries@[i].1
                    &&& final(self).by_hash.entries@ == old(self).by_hash.entries@.update(
                        i,
                        (old(self).by_hash.entries@[i].0, *final(t)),
                    )
                },
                (None, None) => *final(self) == *old(self),
                _ => false,
            },
    {
        match self.find_id(id) {
            Some(i) => Some(&mut self.by_hash.entries[i].1),
            None => None,
        }
    }

    /// Revokes the token with an identifier. Says whether it was one that was
    /// not revoked yet. The record stays.
    pub fn revoke(&mut self, id: &str) -> (r: bool)
        requires
            old(self).wf(),
        ensures
            final(self).wf(),
            match id_at(old(self).by_hash.entries@, id@) {
                Some(i) => {
                    &&& 0 <= i < old(self).by_hash.entries@.len()
                    &&& r == !old(self).by_hash.entries@[i].1.revoked
                    &&& final(self).by_hash.entries@ == old(self).by_hash.entries@.update(
                        i,
                        (
                            old(self).by_hash.entries@[i].0,
                            revoked_record(old(self).by_hash.entries@[i].1),
                        ),
                    )
                },
                None => !r && *final(self) == *old(self),
            },
    {
        let ghost was = self.by_hash.entries@;
        match self.find_id(id) {
            None => false,
            Some(i) => {
                let fresh: bool = !self.by_hash.entries[i].1.revoked;
                let t = &mut self.by_hash.entries[i].1;
                t.revoked = true;
                proof {
                    let now = self.by_hash.entries@;
                    assert(now =~= was.update(
                        i as int,
                        (was[i as int].0, revoked_record(was[i as int].1)),
                    ));
                    assert(ordered::keys_of(now) =~= ordered::keys_of(was));
                }
                fresh
            },
        }
    }

    /// Who the holder of a secret is, at a time.
    pub fn verify(&self, secret: &str, now: u64) -> (r: Result<TokenIdentity, TokenError>)
        requires
            self.wf(),
        ensures
            ({
                let k = digest_of(secret@);
                match r {
                    Ok(i) => self.by_hash@.contains_key(k) && self.by_hash@[k].good_at(now)
                        && identity_of(i, self.by_hash@[k]),
                    Err(e) => e == TokenError::Invalid && !(self.by_hash@.contains_key(k)
                        && self.by_hash@[k].good_at(now)),
                }
            }),
    {
        let digest = hash_token(secret);
        match self.by_hash.get(digest.as_str()) {
            Some(t) => {
                proof {
                    let i = ordered::place_of(self.by_hash.entries@, digest@);
                    assert(0 <= i < self.by_hash.entries@.len() && self.by_hash.entries@[i].0@
                        == digest@);
                    assert(*t == self.by_hash.entries@[i].1);
                }
                if digests_match(t.hash.as_str(), digest.as_str()) && t.is_valid_at(now) {
                    Ok(
                        TokenIdentity {
                            id: t.id.clone(),
                            description: t.description.clone(),
                            scope: t.scope,
                            databases: text::copy_texts(&t.databases),
                            authorizations: text::copy_texts(&t.authorizations),
                        },
                    )
                } else {
                    Err(TokenError::Invalid)
                }
            },
            None => Err(TokenError::Invalid),
        }
    }
}

/// How requests came: with a credential that was good, without any, or with
/// one that was refused.
#[derive(Debug, Clone, Copy, PartialEq, Eq, Structural)]
pub struct DataAuthCounts {
    pub authenticated: u64,
    pub anonymous: u64,
    pub rejected: u64,
}

impl Default for DataAuthCounts {
    fn default() -> (r: DataAuthCounts)
        ensures
            r == (DataAuthCounts { authenticated: 0, anonymous: 0, rejected: 0 }),
    {
        DataAuthCounts { authenticated: 0, anonymous: 0, rejected: 0 }
    }
}

impl DataAuthCounts {
    /// The three counts.
    pub fn snapshot(&self) -> (r: (u64, u64, u64))
        ensures
            r == (self.authenticated, self.anonymous, self.rejected),
    {
        (self.authenticated, self.anonymous, self.rejected)
    }
}

/// A token that was revoked is refused at every time, and every other one is
/// treated as before.
pub proof fn revoking_ends_a_token(before: TokenIndex, after: TokenIndex, i: int, now: u64)
    requires
        before.wf(),
        after.wf(),
        0 <= i < before.by_hash.entries@.len(),
        after.by_hash.entries@ == before.by_hash.entries@.update(
            i,
            (before.by_hash.entries@[i].0, revoked_record(before.by_hash.entries@[i].1)),
        ),
    ensures
        ({
            let k = before.by_hash.entries@[i].0@;
            &&& after.by_hash@.contains_key(k)
            &&& !after.by_hash@[k].good_at(now)
            &&& forall|other: Seq<char>|
                other != k ==> (#[trigger] after.by_hash@.contains_key(other)
                    == before.by_hash@.contains_key(other)) && (before.by_hash@.contains_key(other)
                    ==> after.by_hash@[other] == before.by_hash@[other])
        }),
{
    let k = before.by_hash.entries@[i].0@;
    let was = before.by_hash.entries@;
    let is = after.by_hash.entries@;
    ordered::entries_are_the_map(after.by_hash, i);
    assert forall|other: Seq<char>| other != k implies (#[trigger] after.by_hash@.contains_key(
        other,
    ) == before.by_hash@.contains_key(other)) && (before.by_hash@.contains_key(other)
        ==> after.by_hash@[other] == before.by_hash@[other]) by {
        if before.by_hash@.contains_key(other) {
            let j = ordered::place_of(was, other);
            assert(0 <= j < was.len() && was[j].0@ == other);
            assert(is[j] == was[j]);
            ordered::entries_are_the_map(after.by_hash, j);
            ordered::entries_are_the_map(before.by_hash, j);
        }
        if after.by_hash@.contains_key(other) {
            let j = ordered::place_of(is, other);
            assert(0 <= j < is.len() && is[j].0@ == other);
            assert(is[j] == was[j]);
            ordered::entries_are_the_map(before.by_hash, j);
        }
    }
}

/// A token is good as long as it is not revoked, and up to its end where it has
/// one.
pub proof fn a_token_is_good_up_to_its_end(t: TokenRecord, now: u64, end: u64)
    ensures
        t.revoked ==> !t.good_at(now),
        !t.revoked && t.expires_at_secs is None ==> t.good_at(now),
        !t.revoked && t.expires_at_secs == Some(end) ==> (t.good_at(now) <==> now < end),
{
}

/// Whether a text is a word in capitals or not.
pub open spec fn same_word(t: Seq<char>, low: Seq<char>) -> bool {
    text::lowered(t) == low
}

/// A header that gives a secret behind the word `Bearer` or `Token` and a space,
/// with white space around it or none, gives that secret; one that gives a user
/// and a password in base64 behind `Basic` gives the password; a word of another
/// kind gives none.
pub proof fn a_header_gives_its_secret(
    scheme: Seq<char>,
    lead: Seq<char>,
    secret: Seq<char>,
    trail: Seq<char>,
    user: Seq<char>,
)
    requires
        !scheme.contains(' '),
        secret.len() > 0,
        forall|i: int| 0 <= i < lead.len() ==> text::is_space(#[trigger] lead[i]),
        forall|i: int| 0 <= i < trail.len() ==> text::is_space(#[trigger] trail[i]),
        !user.contains(':'),
    ensures
        !text::is_space(secret[0]) && !text::is_space(secret.last()) ==> {
            let given = secret_in(scheme + seq![' '] + (lead + secret + trail));
            &&& same_word(scheme, "bearer"@) || same_word(scheme, "token"@) ==> given == Some(secret)
            &&& !same_word(scheme, "bearer"@) && !same_word(scheme, "token"@) && !same_word(
                scheme,
                "basic"@,
            ) ==> given is None
        },
        same_word(scheme, "basic"@) ==> secret_in(
            scheme + seq![' '] + (lead + encoded(encode_utf8(user + seq![':'] + secret)) + trail),
        ) == Some(secret),
        secret_in(scheme) is None,
{
    text::a_text_is_cut_at_the_first(scheme, ' ', lead + secret + trail);
    reveal_strlit("bearer");
    reveal_strlit("token");
    reveal_strlit("basic");
    assert("basic"@.len() == 5 && "token"@.len() == 5 && "bearer"@.len() == 6);
    assert("basic"@[0] == 'b' && "token"@[0] == 't');
    if !text::is_space(secret[0]) && !text::is_space(secret.last()) {
        text::what_stands_in_space_is_left(lead, secret, trail);
    }
    let pair = user + seq![':'] + secret;
    let bytes = encode_utf8(pair);
    let code = encoded(bytes);
    text::a_text_is_cut_at_the_first(scheme, ' ', lead + code + trail);
    text::a_text_is_cut_at_the_first(user, ':', secret);
    base64_reads_back(bytes);
    encode_utf8_valid_utf8(pair);
    encode_utf8_decode_utf8(pair);
    assert(pair[user.len() as int] == ':');
    assert(pair.len() > 0);
    encode_utf8_first_scalar(pair);
    assert(bytes.len() > 0) by {
        if bytes.len() == 0 {
            assert(bytes =~= Seq::empty());
            assert(decode_utf8(bytes).len() == 0);
        }
    }
    lemma_code_chars(bytes);
    assert(!text::is_space(code[0]) && !text::is_space(code[code.len() - 1]));
    text::what_stands_in_space_is_left(lead, code, trail);
}

proof fn lemma_code_chars(b: Seq<u8>)
    ensures
        b.len() > 0 ==> encoded(b).len() > 0,
        forall|i: int| 0 <= i < encoded(b).len() ==> !text::is_space(#[trigger] encoded(b)[i]),
    decreases b.len(),
{
    let n = three(b);
    if b.len() > 0 {
        assert(0 <= n < 0x100_0000);
        lemma_sextet_shows(n / 0x4_0000);
        lemma_sextet_shows((n / 0x1000) % 64);
        lemma_sextet_shows((n / 64) % 64);
        lemma_sextet_shows(n % 64);
        if b.len() >= 3 {
            lemma_code_chars(b.skip(3));
        }
        let all = encoded(b);
        assert forall|i: int| 0 <= i < all.len() implies !text::is_space(#[trigger] all[i]) by {
            if i >= 4 {
                assert(all[i] == encoded(b.skip(3))[i - 4]);
            }
        }
    }
}

proof fn lemma_sextet_shows(v: int)
    requires
        0 <= v < 64,
    ensures
        !text::is_space(sextet_char(v)),
{
}

/// The names of the scopes and of the modes read back, and no other word does
/// than theirs and the few that stand for them.
pub proof fn names_read_back(scope: Scope, mode: DataAuthMode, s: Seq<char>)
    ensures
        scope_named(scope_text(scope)) == Some(scope),
        mode_named(mode_text(mode)) == Some(mode),
        scope_named(s) == Some(Scope::Read) ==> s == "read"@,
        scope_named(s) == Some(Scope::Write) ==> s == "write"@,
        scope_named(s) == Some(Scope::ReadWrite) ==> s == "read_write"@ || s == "readwrite"@ || s
            == "rw"@,
        mode_named(s) == Some(DataAuthMode::Required) ==> same_word(
            text::trimmed(s),
            "required"@,
        ) || same_word(text::trimmed(s), "require"@) || same_word(text::trimmed(s), "on"@),
        mode_named(s) == Some(DataAuthMode::Off) ==> text::trimmed(s).len() == 0 || same_word(
            text::trimmed(s),
            "off"@,
        ),
{
    reveal_strlit("read");
    reveal_strlit("write");
    reveal_strlit("read_write");
    reveal_strlit("off");
    reveal_strlit("optional");
    reveal_strlit("required");
    reveal_strlit("want");
    reveal_strlit("require");
    reveal_strlit("on");
    assert("read"@.len() == 4 && "write"@.len() == 5 && "read_write"@.len() == 10);
    assert("off"@.len() == 3 && "optional"@.len() == 8 && "required"@.len() == 8);
    assert("want"@.len() == 4);
    assert("optional"@[0] == 'o' && "required"@[0] == 'r');
    let none = Seq::<char>::empty();
    let t = mode_text(mode);
    assert(t.len() > 0 && !text::is_space(t[0]) && !text::is_space(t.last()));
    text::what_stands_in_space_is_left(none, t, none);
    assert(none + t + none =~= t);
    assert(text::lowered(t) =~= t);
}

/// A token is found by its identifier at the first place where it stands, and not
/// at all where it does not.
pub proof fn the_first_entry_of_an_identifier_is_found(
    entries: Seq<(String, TokenRecord)>,
    id: Seq<char>,
)
    ensures
        id_at(entries, id) matches Some(i) ==> 0 <= i < entries.len() && entries[i].1.id@ == id
            && forall|j: int| 0 <= j < i ==> (#[trigger] entries[j]).1.id@ != id,
        id_at(entries, id) is None ==> forall|j: int|
            0 <= j < entries.len() ==> (#[trigger] entries[j]).1.id@ != id,
    decreases entries.len(),
{
    if entries.len() > 0 {
        let init = entries.drop_last();
        the_first_entry_of_an_identifier_is_found(init, id);
        assert forall|j: int|
            0 <= j < init.len() && (id_at(init, id) matches Some(i) ==> j < i) implies (
        #[trigger] entries[j]).1.id@ != id by {
            assert(init[j] == entries[j]);
        }
    }
}

/// A secret is spelled in letters, digits, hyphens and underscores, in this order
/// of their six bits, and each of them is read as its six bits again.
pub proof fn six_bits_have_their_letter(v: int)
    requires
        0 <= v < 64,
    ensures
        sextet_char(v) == "ABCDEFGHIJKLMNOPQRSTUVWXYZabcdefghijklmnopqrstuvwxyz0123456789-_"@[v],
        sextet(sextet_char(v)) == Some(v),
        sextet('+') == Some(62int),
        sextet('/') == Some(63int),
{
    reveal_strlit("ABCDEFGHIJKLMNOPQRSTUVWXYZabcdefghijklmnopqrstuvwxyz0123456789-_");
}

} // verus!
