//! Who may administer the server, and who may read and write its data.
pub mod guard;
pub mod token;

use crate::auth::guard::{Action, Decision};
use crate::auth::token::{DataAuthMode, Scope, TokenError, TokenIdentity, TokenIndex, TokenRecord};
use crate::batch;
use crate::counter;
use crate::crypto;
use crate::ordered::OrderedMap;
use crate::text;
use argon2::password_hash::{PasswordHasher, PasswordVerifier};
use vstd::prelude::*;
use vstd::utf8::*;

verus! {

/// Where the principals are stored.
pub const PRINCIPALS_PATH: &'static str = "catalog/config/principals.json";

/// Where the tokens are stored.
pub const TOKENS_PATH: &'static str = "catalog/config/tokens.json";

/// Where it is stored what holders of certificates may see by.
pub const CERT_GRANTS_PATH: &'static str = "catalog/config/cert-grants.json";

/// The first administrator's name.
pub const DEFAULT_USER: &'static str = "admin";

/// The first administrator's password, unless one is provisioned.
pub const DEFAULT_PASSWORD: &'static str = "admin";

/// The fewest characters of a password that is chosen.
pub const MIN_PASSWORD_LEN: usize = 8;

/// How long, in milliseconds, a session lasts that is not used.
pub const SESSION_IDLE_MS: u64 = 1_800_000;

/// How long, in milliseconds, a session lasts at most.
pub const SESSION_ABSOLUTE_MS: u64 = 43_200_000;

/// How many logins may fail before the next one has to wait.
pub const FREE_ATTEMPTS: u32 = 3;

/// The longest wait, in milliseconds.
pub const MAX_BACKOFF_MS: u64 = 300_000;

/// How often, in milliseconds, tokens are read again at most because one is
/// not known.
pub const MISS_RELOAD_MS: u64 = 1_000;

// --------------------------------------------------------------------- roles

/// What an administrator may do, from the least to the most powerful.
#[derive(Debug, Clone, Copy, PartialEq, Eq, Structural)]
pub enum Role {
    Viewer,
    Operator,
    Admin,
}

/// The place of a role in that order.
pub open spec fn power(r: Role) -> int {
    match r {
        Role::Viewer => 0,
        Role::Operator => 1,
        Role::Admin => 2,
    }
}

/// The name of a role.
pub open spec fn role_text(r: Role) -> Seq<char> {
    match r {
        Role::Viewer => "viewer"@,
        Role::Operator => "operator"@,
        Role::Admin => "admin"@,
    }
}

/// The role with a name.
pub open spec fn role_named(s: Seq<char>) -> Option<Role> {
    if s == "viewer"@ {
        Some(Role::Viewer)
    } else if s == "operator"@ {
        Some(Role::Operator)
    } else if s == "admin"@ {
        Some(Role::Admin)
    } else {
        None
    }
}

impl Role {
    /// The name of the role.
    pub fn as_str(self) -> (r: &'static str)
        ensures
            r@ == role_text(self),
    {
        match self {
            Role::Viewer => "viewer",
            Role::Operator => "operator",
            Role::Admin => "admin",
        }
    }

    /// The role with a name.
    pub fn parse(s: &str) -> (r: Option<Role>)
        ensures
            r == role_named(s@),
    {
        if text::same(s, "viewer") {
            Some(Role::Viewer)
        } else if text::same(s, "operator") {
            Some(Role::Operator)
        } else if text::same(s, "admin") {
            Some(Role::Admin)
        } else {
            None
        }
    }

    /// Whether the role is enough where another one is needed.
    pub fn allows(self, needed: Role) -> (r: bool)
        ensures
            r == (power(self) >= power(needed)),
    {
        match needed {
            Role::Viewer => true,
            Role::Operator => self == Role::Operator || self == Role::Admin,
            Role::Admin => self == Role::Admin,
        }
    }
}

// ----------------------------------------------------------------- passwords

/// Whether a password is the one of a hash, or why the hash is none.
pub uninterp spec fn password_check(hash: Seq<char>, password: Seq<u8>) -> Result<bool, Seq<char>>;

/// What a check or an error's text stands for.
pub open spec fn check_view(r: Result<bool, String>) -> Result<bool, Seq<char>> {
    match r {
        Ok(b) => Ok(b),
        Err(m) => Err(m@),
    }
}

/// Whether a password is the one of a hash.
pub open spec fn opens(hash: Seq<char>, password: Seq<char>) -> bool {
    password_check(hash, encode_utf8(password)) == Ok::<bool, Seq<char>>(true)
}

/// Checks a password by `argon2::PasswordHash::new` and
/// `argon2::Argon2::verify_password`. Claimed is that the outcome, or the text
/// of the error for a hash that is none, depends on the hash and the password
/// alone; nothing is said of what it is.
#[verifier::external_body]
fn check_password(hash: &str, password: &str) -> (r: Result<bool, String>)
    ensures
        check_view(r) == password_check(hash@, encode_utf8(password@)),
{
    let parsed = argon2::PasswordHash::new(hash).map_err(|e| e.to_string())?;
    Ok(argon2::Argon2::default().verify_password(password.as_bytes(), &parsed).is_ok())
}

/// The hash of a password with a salt, or why there is none.
pub uninterp spec fn salted_hash(password: Seq<u8>, salt: Seq<u8>) -> Result<Seq<char>, Seq<char>>;

/// What a hash or an error's text stands for.
pub open spec fn hash_view(r: Result<String, String>) -> Result<Seq<char>, Seq<char>> {
    match r {
        Ok(h) => Ok(h@),
        Err(m) => Err(m@),
    }
}

/// Hashes a password by `argon2::Argon2::hash_password`, with a salt that
/// `argon2::password_hash::SaltString::encode_b64` spells. Claimed is that the
/// hash, or the text of the error, depends on the password and the salt alone,
/// and that the password is the one of the hash. A salt of fewer than three
/// bytes is not taken.
#[verifier::external_body]
fn hash_with(password: &str, salt: &Vec<u8>) -> (r: Result<String, String>)
    requires
        salt@.len() >= 3,
    ensures
        hash_view(r) == salted_hash(encode_utf8(password@), salt@),
        r matches Ok(h) ==> opens(h@, password@),
{
    let salt = argon2::password_hash::SaltString::encode_b64(salt).map_err(|e| e.to_string())?;
    let hash = argon2::Argon2::default().hash_password(password.as_bytes(), &salt);
    hash.map(|h| h.to_string()).map_err(|e| e.to_string())
}

/// The bytes of a password's salt.
const SALT_BYTES: usize = 16;

/// Hashes a password with a salt by chance.
fn hash_password(password: &str) -> (r: Result<String, String>)
    ensures
        r matches Ok(h) ==> opens(h@, password@),
        r matches Ok(h) ==> exists|salt: Seq<u8>|
            salt.len() == SALT_BYTES && #[trigger] salted_hash(encode_utf8(password@), salt) == Ok::<
                Seq<char>,
                Seq<char>,
            >(h@),
{
    let salt = match token::random_bytes(SALT_BYTES) {
        Some(s) => s,
        None => {
            return Err("password hash: the system gave no randomness".to_owned());
        },
    };
    match hash_with(password, &salt) {
        Ok(h) => {
            assert(salted_hash(encode_utf8(password@), salt@) == Ok::<Seq<char>, Seq<char>>(h@));
            Ok(h)
        },
        Err(e) => {
            let mut m = "password hash: ".to_owned();
            m.append(e.as_str());
            Err(m)
        },
    }
}

// ---------------------------------------------------------------- who there is

/// Someone who may administer the server.
#[derive(Debug, Clone)]
pub struct Principal {
    pub username: String,
    pub role: Role,
    pub password_hash: String,
    /// Whether nothing may be done but to choose another password.
    pub must_change_password: bool,
    pub created_at_secs: u64,
    pub last_login_secs: Option<u64>,
    /// Whether the password is the one that everyone knows.
    pub is_default_credential: bool,
}

impl Principal {
    /// A copy.
    pub fn copy(&self) -> (r: Principal)
        ensures
            r == *self,
    {
        Principal {
            username: self.username.clone(),
            role: self.role,
            password_hash: self.password_hash.clone(),
            must_change_password: self.must_change_password,
            created_at_secs: self.created_at_secs,
            last_login_secs: self.last_login_secs,
            is_default_credential: self.is_default_credential,
        }
    }
}

/// What is known of the sender of a request with a session.
#[derive(Debug, Clone)]
pub struct SessionInfo {
    pub username: String,
    pub role: Role,
    pub must_change_password: bool,
    /// What a request that changes something must carry besides.
    pub csrf: String,
}

/// A session.
#[derive(Debug)]
pub struct Session {
    pub username: String,
    pub role: Role,
    pub must_change_password: bool,
    pub csrf: String,
    pub created_ms: u64,
    pub last_seen_ms: u64,
}

/// Whether it is known of a sender what a session holds.
pub open spec fn info_of(i: SessionInfo, s: Session) -> bool {
    &&& i.username == s.username
    &&& i.role == s.role
    &&& i.must_change_password == s.must_change_password
    &&& i.csrf == s.csrf
}

/// Logins that failed in a row, and when the last one did.
#[derive(Debug, Clone, Copy, PartialEq, Eq, Structural)]
pub struct Failures {
    pub count: u32,
    pub last_ms: u64,
}

/// Why a login is refused. That there is no such name is not told.
#[derive(Debug, Clone, Copy, PartialEq, Eq, Structural)]
pub enum LoginError {
    Invalid,
    /// Too many failed; so many milliseconds are to be waited.
    RateLimited(u64),
}

/// Why a login is refused, in words.
pub open spec fn login_error_text(e: LoginError) -> Seq<char> {
    match e {
        LoginError::Invalid => "invalid username or password"@,
        LoginError::RateLimited(ms) => "too many failed attempts; retry in "@ + text::decimal(
            if ms / 1_000 < 1 {
                1
            } else {
                (ms / 1_000) as nat
            },
        ) + " seconds"@,
    }
}

impl LoginError {
    /// Why the login is refused, in words.
    pub fn message(&self) -> (r: String)
        ensures
            r@ == login_error_text(*self),
    {
        match self {
            LoginError::Invalid => "invalid username or password".to_owned(),
            LoginError::RateLimited(ms) => {
                let secs: u64 = *ms / 1_000;
                let mut m = "too many failed attempts; retry in ".to_owned();
                m.append(
                    text::show(
                        if secs < 1 {
                            1
                        } else {
                            secs
                        },
                    ).as_str(),
                );
                m.append(" seconds");
                m
            },
        }
    }
}

/// Two to a power.
pub open spec fn doubled(k: nat) -> nat
    decreases k,
{
    if k == 0 {
        1
    } else {
        2 * doubled((k - 1) as nat)
    }
}

/// How long, in milliseconds, to wait after so many logins failed: not at all
/// at first, then a second, and twice as long each time, up to a limit.
pub open spec fn wait_after(count: u32) -> nat {
    if count <= FREE_ATTEMPTS {
        0
    } else {
        let k = count - FREE_ATTEMPTS - 1;
        let w = 1_000 * doubled(
            if k < 8 {
                k as nat
            } else {
                8
            },
        );
        if w < MAX_BACKOFF_MS {
            w
        } else {
            MAX_BACKOFF_MS as nat
        }
    }
}

/// The time since a moment, which is none where that is to come.
pub open spec fn since(then: u64, now: u64) -> nat {
    if now < then {
        0
    } else {
        (now - then) as nat
    }
}

/// How long a name is still to wait, if at all.
pub open spec fn pending(
    failures: Map<Seq<char>, Failures>,
    username: Seq<char>,
    now: u64,
) -> Option<u64> {
    if failures.contains_key(username) {
        let f = failures[username];
        if since(f.last_ms, now) < wait_after(f.count) {
            Some((wait_after(f.count) - since(f.last_ms, now)) as u64)
        } else {
            None
        }
    } else {
        None
    }
}

proof fn lemma_doubled(k: nat)
    requires
        k <= 8,
    ensures
        1 <= doubled(k) <= 256,
{
    reveal_with_fuel(doubled, 10);
}

/// More failures never make the wait shorter, and it never exceeds the limit.
pub proof fn waits_grow_up_to_a_limit(a: u32, b: u32)
    requires
        a <= b,
    ensures
        wait_after(a) <= wait_after(b) <= MAX_BACKOFF_MS,
{
    reveal_with_fuel(doubled, 10);
}

/// The state of the administration: who there is, which tokens there are, what
/// holders of certificates may see by, and who is logged in.
pub struct Auth {
    pub principals: OrderedMap<Principal>,
    pub tokens: TokenIndex,
    /// The digest of the tokens as they were stored last.
    pub tokens_loaded_hash: Option<String>,
    /// When tokens were last read again because one was not known.
    pub token_miss_reload_at: Option<u64>,
    pub token_reloads_total: u64,
    pub cert_grants: OrderedMap<Vec<String>>,
    pub sessions: OrderedMap<Session>,
    pub failures: OrderedMap<Failures>,
    pub logins_total: u64,
    pub login_failures_total: u64,
}

/// Whether two states differ at most in who is logged in, what failed, and
/// what was counted.
pub open spec fn same_but_logins(a: Auth, b: Auth) -> bool {
    &&& a.tokens == b.tokens
    &&& a.tokens_loaded_hash == b.tokens_loaded_hash
    &&& a.token_miss_reload_at == b.token_miss_reload_at
    &&& a.token_reloads_total == b.token_reloads_total
    &&& a.cert_grants == b.cert_grants
}

/// The password that the first administrator is given: the one that is
/// provisioned, if it is more than blanks, or the one that everyone knows.
pub open spec fn first_password(bootstrap: Option<&str>) -> (Seq<char>, bool) {
    match bootstrap {
        Some(p) => if text::trimmed(p@).len() > 0 {
            (p@, true)
        } else {
            (DEFAULT_PASSWORD@, false)
        },
        None => (DEFAULT_PASSWORD@, false),
    }
}

/// Whether a principal is the first administrator as seeded.
pub open spec fn seeded(p: Principal, password: Seq<char>, provisioned: bool, now: u64) -> bool {
    &&& p.username@ == DEFAULT_USER@
    &&& p.role == Role::Admin
    &&& opens(p.password_hash@, password)
    &&& p.must_change_password
    &&& p.created_at_secs == now
    &&& p.last_login_secs is None
    &&& p.is_default_credential == !provisioned
}

/// A password without line ends behind it.
pub open spec fn without_line_ends(s: Seq<char>) -> Seq<char>
    decreases s.len(),
{
    if s.len() > 0 && (s.last() == '\r' || s.last() == '\n') {
        without_line_ends(s.drop_last())
    } else {
        s
    }
}

/// Why another password is refused, before it is looked at who asks.
pub open spec fn poor_password(username: Seq<char>, old: Seq<char>, new: Seq<char>) -> Option<
    Seq<char>,
> {
    let p = without_line_ends(new);
    if p.len() < MIN_PASSWORD_LEN {
        Some("password must be at least "@ + text::decimal(MIN_PASSWORD_LEN as nat) + " characters"@)
    } else if p == DEFAULT_PASSWORD@ || text::lowered(p) == text::lowered(username) {
        Some("password must not be the default or the username"@)
    } else if p == old {
        Some("new password must differ from the current one"@)
    } else {
        None
    }
}

/// Why a change of a password is refused.
pub open spec fn refused_change(
    principals: Map<Seq<char>, Principal>,
    username: Seq<char>,
    old: Seq<char>,
    new: Seq<char>,
) -> Option<Seq<char>> {
    match poor_password(username, old, new) {
        Some(m) => Some(m),
        None => if !principals.contains_key(username) {
            Some("no such principal"@)
        } else {
            match password_check(principals[username].password_hash@, encode_utf8(old)) {
                Err(m) => Some(m),
                Ok(right) => if right {
                    None
                } else {
                    Some("current password is incorrect"@)
                },
            }
        },
    }
}

fn strip_line_ends(s: &str) -> (r: String)
    ensures
        r@ == without_line_ends(s@),
{
    let chars = text::chars_of(s);
    let mut n: usize = chars.len();
    assert(chars@.take(n as int) =~= s@);
    while n > 0 && (chars[n - 1] == '\r' || chars[n - 1] == '\n')
        invariant
            n <= chars.len(),
            chars@ == s@,
            without_line_ends(s@) == without_line_ends(s@.take(n as int)),
        decreases n,
    {
        assert(s@.take(n as int).drop_last() =~= s@.take(n - 1));
        n -= 1;
    }
    assert(n > 0 ==> s@.take(n as int).last() == s@[n - 1]);
    let r = text::slice_text(&chars, 0, n);
    assert(r@ =~= s@.take(n as int));
    r
}

/// What came of the credential of a request, where credentials are looked at.
pub open spec fn presented(
    tokens: TokenIndex,
    mode: DataAuthMode,
    authorization: Option<&str>,
    now: u64,
) -> Option<Result<Seq<char>, TokenError>> {
    match authorization {
        None => None,
        Some(h) => if mode == DataAuthMode::Off {
            None
        } else {
            match token::secret_in(h@) {
                None => Some(Err(TokenError::Invalid)),
                Some(secret) => {
                    let k = token::digest_of(secret);
                    if tokens.by_hash@.contains_key(k) && tokens.by_hash@[k].good_at(now) {
                        Some(Ok(k))
                    } else {
                        Some(Err(TokenError::Invalid))
                    }
                },
            }
        },
    }
}

/// Whether a record permits an action on a database.
pub open spec fn record_permits(t: TokenRecord, action: Action, db: Seq<char>) -> bool {
    &&& match action {
        Action::Read => t.scope != Scope::Write,
        Action::Write => t.scope != Scope::Read,
    }
    &&& token::covers(t.databases@, db)
}

/// Whether a result is what looking up a secret gives.
pub open spec fn looked_up(
    tokens: TokenIndex,
    secret: Seq<char>,
    now_secs: u64,
    r: Result<TokenIdentity, TokenError>,
) -> bool {
    match r {
        Ok(i) => known(tokens, secret, now_secs) && token::identity_of(
            i,
            tokens.by_hash@[token::digest_of(secret)],
        ),
        Err(e) => e == TokenError::Invalid && !known(tokens, secret, now_secs),
    }
}

/// Whether a result is what is decided of a request for data.
pub open spec fn decided(
    tokens: TokenIndex,
    mode: DataAuthMode,
    authorization: Option<&str>,
    action: Action,
    db: Seq<char>,
    now_secs: u64,
    r: Result<Decision, TokenError>,
) -> bool {
    match presented(tokens, mode, authorization, now_secs) {
        None => if mode == DataAuthMode::Required {
            r == Err::<Decision, TokenError>(TokenError::Missing)
        } else {
            r matches Ok(d) && d.identity is None && d.granted is None
        },
        Some(Err(e)) => r == Err::<Decision, TokenError>(e),
        Some(Ok(k)) => {
            let t = tokens.by_hash@[k];
            if record_permits(t, action, db) {
                &&& r matches Ok(d) && (d.identity matches Some(i) && token::identity_of(i, t))
                &&& r->Ok_0.granted is Some <==> t.authorizations@.len() > 0
                &&& r->Ok_0.granted matches Some(g) ==> g@ == t.authorizations@
            } else {
                r == Err::<Decision, TokenError>(TokenError::Forbidden)
            }
        },
    }
}

/// Whether tokens as they are stored now are others than were read last.
pub open spec fn others_stored(a: Auth, bytes: Seq<u8>) -> bool {
    batch::opt_text(a.tokens_loaded_hash) != Some(crypto::sha256_hex(bytes))
}

/// Whether the tokens as they are stored now were taken up, where they are
/// others than were read last.
pub open spec fn reloaded(was: Auth, now: Auth, bytes: Seq<u8>, records: Seq<TokenRecord>) -> bool {
    if others_stored(was, bytes) {
        &&& now.tokens.by_hash@ == token::index_of(records)
        &&& batch::opt_text(now.tokens_loaded_hash) == Some(crypto::sha256_hex(bytes))
        &&& now.token_reloads_total == counter::one_more(was.token_reloads_total)
        &&& now == Auth {
            tokens: now.tokens,
            tokens_loaded_hash: now.tokens_loaded_hash,
            token_reloads_total: now.token_reloads_total,
            ..was
        }
    } else {
        now == was
    }
}

/// What has happened in a lookup.
#[derive(Debug)]
pub enum LookupEvent {
    /// It has just been asked for.
    Asked,
    /// The tokens were read again: their bytes, and the records in them.
    Reread(Vec<u8>, Vec<TokenRecord>),
    /// The tokens could not be read again.
    RereadFailed,
}

/// What is to be done next in a lookup.
#[derive(Debug)]
pub enum Lookup<T> {
    /// It is over.
    Answer(T),
    /// The tokens are to be read again.
    Reread,
}

/// Whether the tokens were read again to no avail: they could not be, or they
/// are the same.
pub open spec fn found_nothing(a: Auth, event: LookupEvent) -> bool {
    match event {
        LookupEvent::Asked => false,
        LookupEvent::Reread(bytes, _) => !others_stored(a, bytes@),
        LookupEvent::RereadFailed => true,
    }
}

/// Whether a state is the one after an event.
pub open spec fn after_event(
    was: Auth,
    now: Auth,
    event: LookupEvent,
    reread: bool,
    now_ms: u64,
) -> bool {
    match event {
        LookupEvent::Asked => now == (if reread {
            Auth { token_miss_reload_at: Some(now_ms), ..was }
        } else {
            was
        }),
        LookupEvent::Reread(bytes, records) => reloaded(was, now, bytes@, records@),
        LookupEvent::RereadFailed => now == was,
    }
}

/// The secret that a request carries, where credentials are looked at.
pub open spec fn carried(mode: DataAuthMode, authorization: Option<&str>) -> Option<Seq<char>> {
    match authorization {
        Some(h) => if mode == DataAuthMode::Off {
            None
        } else {
            token::secret_in(h@)
        },
        None => None,
    }
}

impl Auth {
    /// Every part is in order.
    pub open spec fn wf(self) -> bool {
        &&& self.principals.wf()
        &&& self.tokens.wf()
        &&& self.cert_grants.wf()
        &&& self.sessions.wf()
        &&& self.failures.wf()
    }

    /// The state as it was stored. `tokens_bytes` is what the tokens were read
    /// from; nothing where none were stored.
    pub fn open(
        principals: OrderedMap<Principal>,
        tokens: Vec<TokenRecord>,
        tokens_bytes: &Vec<u8>,
        cert_grants: OrderedMap<Vec<String>>,
    ) -> (r: Auth)
        requires
            principals.wf(),
            cert_grants.wf(),
        ensures
            r.wf(),
            r.principals == principals,
            r.cert_grants == cert_grants,
            r.tokens.by_hash@ == token::index_of(tokens@),
            batch::opt_text(r.tokens_loaded_hash) == Some(crypto::sha256_hex(tokens_bytes@)),
            r.token_miss_reload_at is None,
            r.token_reloads_total == 0,
            r.sessions@ == Map::<Seq<char>, Session>::empty(),
            r.failures@ == Map::<Seq<char>, Failures>::empty(),
            r.logins_total == 0,
            r.login_failures_total == 0,
    {
        Auth {
            principals,
            tokens: TokenIndex::from_records(tokens),
            tokens_loaded_hash: Some(crypto::hash_hex(tokens_bytes)),
            token_miss_reload_at: None,
            token_reloads_total: 0,
            cert_grants,
            sessions: OrderedMap::new(),
            failures: OrderedMap::new(),
            logins_total: 0,
            login_failures_total: 0,
        }
    }

    /// Seeds the first administrator with a hash of the first password.
    pub fn seed_with(&mut self, hash: String, provisioned: bool, now_secs: u64)
        requires
            old(self).wf(),
        ensures
            final(self).wf(),
            final(self).principals@ == old(self).principals@.insert(
                DEFAULT_USER@,
                final(self).principals@[DEFAULT_USER@],
            ),
            ({
                let p = final(self).principals@[DEFAULT_USER@];
                &&& p.username@ == DEFAULT_USER@
                &&& p.role == Role::Admin
                &&& p.password_hash == hash
                &&& p.must_change_password
                &&& p.created_at_secs == now_secs
                &&& p.last_login_secs is None
                &&& p.is_default_credential == !provisioned
            }),
            same_but_logins(*final(self), *old(self)),
            final(self).sessions == old(self).sessions,
            final(self).failures == old(self).failures,
            final(self).logins_total == old(self).logins_total,
            final(self).login_failures_total == old(self).login_failures_total,
    {
        let p = Principal {
            username: DEFAULT_USER.to_owned(),
            role: Role::Admin,
            password_hash: hash,
            must_change_password: true,
            created_at_secs: now_secs,
            last_login_secs: None,
            is_default_credential: !provisioned,
        };
        self.principals.insert(DEFAULT_USER.to_owned(), p);
        assert(self.principals@ =~= old(self).principals@.insert(
            DEFAULT_USER@,
            self.principals@[DEFAULT_USER@],
        ));
    }

    /// Seeds the first administrator, where there is none. Says whether one was
    /// seeded, and then whether with a password that was provisioned; or why
    /// the password could not be hashed, in which case nothing is changed.
    pub fn seed(&mut self, bootstrap: Option<&str>, now_secs: u64) -> (r: Result<
        Option<bool>,
        String,
    >)
        requires
            old(self).wf(),
        ensures
            final(self).wf(),
            match r {
                Ok(None) => old(self).principals.entries@.len() > 0 && *final(self) == *old(self),
                Ok(Some(provisioned)) => {
                    &&& old(self).principals.entries@.len() == 0
                    &&& final(self).principals@ == old(self).principals@.insert(
                        DEFAULT_USER@,
                        final(self).principals@[DEFAULT_USER@],
                    )
                    &&& same_but_logins(*final(self), *old(self))
                    &&& final(self).sessions == old(self).sessions
                    &&& final(self).failures == old(self).failures
                    &&& final(self).logins_total == old(self).logins_total
                    &&& final(self).login_failures_total == old(self).login_failures_total
                    &&& provisioned == first_password(bootstrap).1
                    &&& seeded(
                        final(self).principals@[DEFAULT_USER@],
                        first_password(bootstrap).0,
                        provisioned,
                        now_secs,
                    )
                },
                Err(_) => old(self).principals.entries@.len() == 0 && *final(self) == *old(self),
            },
    {
        if self.principals.entries.len() > 0 {
            return Ok(None);
        }
        let mut password = DEFAULT_PASSWORD.to_owned();
        let mut provisioned: bool = false;
        if let Some(p) = bootstrap {
            if text::trim(p).as_str().unicode_len() > 0 {
                password = p.to_owned();
                provisioned = true;
            }
        }
        match hash_password(password.as_str()) {
            Err(m) => Err(m),
            Ok(hash) => {
                self.seed_with(hash, provisioned, now_secs);
                Ok(Some(provisioned))
            },
        }
    }

    /// Whether anyone still has the password that everyone knows.
    pub fn default_credential_active(&self) -> (r: bool)
        ensures
            r == exists|i: int|
                0 <= i < self.principals.entries@.len() && (
                #[trigger] self.principals.entries@[i]).1.is_default_credential,
    {
        let mut i: usize = 0;
        while i < self.principals.entries.len()
            invariant
                i <= self.principals.entries.len(),
                forall|k: int|
                    0 <= k < i ==> !(#[trigger] self.principals.entries@[k]).1.is_default_credential,
            decreases self.principals.entries.len() - i,
        {
            if self.principals.entries[i].1.is_default_credential {
                return true;
            }
            i += 1;
        }
        false
    }

    /// Copies of the principals, in the order of their names.
    pub fn principals(&self) -> (r: Vec<Principal>)
        ensures
            r@ == self.principals.entries@.map_values(|e: (String, Principal)| e.1),
    {
        let mut out: Vec<Principal> = Vec::new();
        let mut i: usize = 0;
        while i < self.principals.entries.len()
            invariant
                i <= self.principals.entries.len(),
                out@.len() == i,
                forall|k: int|
                    0 <= k < i ==> #[trigger] out@[k] == self.principals.entries@[k].1,
            decreases self.principals.entries.len() - i,
        {
            out.push(self.principals.entries[i].1.copy());
            i += 1;
        }
        assert(out@ =~= self.principals.entries@.map_values(|e: (String, Principal)| e.1));
        out
    }

    // ------------------------------------------------------------------ logins

    /// How long a name is still to wait, if at all.
    pub fn backoff(&self, username: &str, now_ms: u64) -> (r: Option<u64>)
        requires
            self.wf(),
        ensures
            r == pending(self.failures@, username@, now_ms),
    {
        match self.failures.get(username) {
            None => None,
            Some(f) => {
                let wait: u64 = wait_for(f.count);
                let passed: u64 = if now_ms < f.last_ms {
                    0
                } else {
                    now_ms - f.last_ms
                };
                if passed < wait {
                    Some(wait - passed)
                } else {
                    None
                }
            },
        }
    }

    /// Logs someone in, under a session that is given. A name that has to wait
    /// is refused whatever the password; the time that a check takes is spent
    /// on a name too that there is not.
    pub fn login(
        &mut self,
        username: &str,
        password: &str,
        token: String,
        csrf: String,
        now_ms: u64,
        now_secs: u64,
    ) -> (r: Result<SessionInfo, LoginError>)
        requires
            old(self).wf(),
        ensures
            final(self).wf(),
            same_but_logins(*final(self), *old(self)),
            r is Ok <==> lets_in(*old(self), username@, password@, now_ms),
            match pending(old(self).failures@, username@, now_ms) {
                Some(ms) => {
                    &&& r == Err::<SessionInfo, LoginError>(LoginError::RateLimited(ms))
                    &&& final(self).login_failures_total == counter::one_more(
                        old(self).login_failures_total,
                    )
                    &&& final(self).logins_total == old(self).logins_total
                    &&& final(self).principals == old(self).principals
                    &&& final(self).sessions == old(self).sessions
                    &&& final(self).failures == old(self).failures
                },
                None => if old(self).principals@.contains_key(username@) && opens(
                    old(self).principals@[username@].password_hash@,
                    password@,
                ) {
                    let p = old(self).principals@[username@];
                    &&& r matches Ok(info) && info.username == p.username && info.role == p.role
                        && info.must_change_password == p.must_change_password && info.csrf == csrf
                    &&& final(self).logins_total == counter::one_more(old(self).logins_total)
                    &&& final(self).login_failures_total == old(self).login_failures_total
                    &&& final(self).failures@ == old(self).failures@.remove(username@)
                    &&& final(self).principals@ == old(self).principals@.insert(
                        username@,
                        Principal { last_login_secs: Some(now_secs), ..p },
                    )
                    &&& final(self).sessions@ == old(self).sessions@.insert(
                        token@,
                        Session {
                            username: p.username,
                            role: p.role,
                            must_change_password: p.must_change_password,
                            csrf,
                            created_ms: now_ms,
                            last_seen_ms: now_ms,
                        },
                    )
                } else {
                    &&& r == Err::<SessionInfo, LoginError>(LoginError::Invalid)
                    &&& final(self).login_failures_total == counter::one_more(
                        old(self).login_failures_total,
                    )
                    &&& final(self).logins_total == old(self).logins_total
                    &&& final(self).principals == old(self).principals
                    &&& final(self).sessions == old(self).sessions
                    &&& final(self).failures@ == old(self).failures@.insert(
                        username@,
                        failed_again(old(self).failures@, username@, now_ms),
                    )
                },
            },
    {
        if let Some(ms) = self.backoff(username, now_ms) {
            self.login_failures_total = counter::up(self.login_failures_total);
            return Err(LoginError::RateLimited(ms));
        }
        let known: Option<Principal> = match self.principals.get(username) {
            Some(p) => {
                match check_password(p.password_hash.as_str(), password) {
                    Ok(true) => Some(p.copy()),
                    _ => None,
                }
            },
            None => {
                let _ = hash_password(password);
                None
            },
        };
        match known {
            None => {
                let count: u32 = match self.failures.get(username) {
                    Some(f) => if f.count < u32::MAX {
                        f.count + 1
                    } else {
                        f.count
                    },
                    None => 1,
                };
                self.failures.insert(username.to_owned(), Failures { count, last_ms: now_ms });
                self.login_failures_total = counter::up(self.login_failures_total);
                Err(LoginError::Invalid)
            },
            Some(p) => {
                self.failures.remove(username);
                let info = SessionInfo {
                    username: p.username.clone(),
                    role: p.role,
                    must_change_password: p.must_change_password,
                    csrf: csrf.clone(),
                };
                self.sessions.insert(
                    token,
                    Session {
                        username: p.username.clone(),
                        role: p.role,
                        must_change_password: p.must_change_password,
                        csrf,
                        created_ms: now_ms,
                        last_seen_ms: now_ms,
                    },
                );
                let mut p = p;
                p.last_login_secs = Some(now_secs);
                self.principals.insert(username.to_owned(), p);
                self.logins_total = counter::up(self.logins_total);
                Ok(info)
            },
        }
    }

    /// The session of a token, if it is still good. One that is used stays good
    /// for longer; one that is not good any more ends.
    pub fn session(&mut self, token: &str, now_ms: u64) -> (r: Option<SessionInfo>)
        requires
            old(self).wf(),
        ensures
            final(self).wf(),
            *final(self) == (Auth { sessions: final(self).sessions, ..*old(self) }),
            final(self).sessions@ == seen(old(self).sessions@, token@, now_ms),
            match (r, good_session(old(self).sessions@, token@, now_ms)) {
                (Some(i), Some(s)) => info_of(i, s),
                (None, None) => true,
                _ => false,
            },
    {
        let found: Option<Session> = match self.sessions.get(token) {
            None => {
                return None;
            },
            Some(s) => {
                let age: u64 = if now_ms < s.created_ms {
                    0
                } else {
                    now_ms - s.created_ms
                };
                let idle: u64 = if now_ms < s.last_seen_ms {
                    0
                } else {
                    now_ms - s.last_seen_ms
                };
                if age > SESSION_ABSOLUTE_MS || idle > SESSION_IDLE_MS {
                    None
                } else {
                    Some(
                        Session {
                            username: s.username.clone(),
                            role: s.role,
                            must_change_password: s.must_change_password,
                            csrf: s.csrf.clone(),
                            created_ms: s.created_ms,
                            last_seen_ms: now_ms,
                        },
                    )
                }
            },
        };
        match found {
            None => {
                self.sessions.remove(token);
                None
            },
            Some(s) => {
                let info = SessionInfo {
                    username: s.username.clone(),
                    role: s.role,
                    must_change_password: s.must_change_password,
                    csrf: s.csrf.clone(),
                };
                self.sessions.insert(token.to_owned(), s);
                Some(info)
            },
        }
    }

    /// Ends a session.
    pub fn logout(&mut self, token: &str)
        requires
            old(self).wf(),
        ensures
            final(self).wf(),
            final(self).sessions@ == old(self).sessions@.remove(token@),
            final(self).principals == old(self).principals,
            final(self).failures == old(self).failures,
            same_but_logins(*final(self), *old(self)),
            final(self).logins_total == old(self).logins_total,
            final(self).login_failures_total == old(self).login_failures_total,
    {
        self.sessions.remove(token);
    }

    /// Whether someone may have another password, or why not.
    pub fn check_change(&self, username: &str, current: &str, new: &str) -> (r: Result<(), String>)
        requires
            self.wf(),
        ensures
            match (r, refused_change(self.principals@, username@, current@, new@)) {
                (Ok(_), None) => true,
                (Err(m), Some(t)) => m@ == t,
                _ => false,
            },
    {
        let new = strip_line_ends(new);
        let new = new.as_str();
        if new.unicode_len() < MIN_PASSWORD_LEN {
            let mut m = "password must be at least ".to_owned();
            m.append(text::show(MIN_PASSWORD_LEN as u64).as_str());
            m.append(" characters");
            return Err(m);
        }
        if text::same(new, DEFAULT_PASSWORD) || text::same(
            text::lower(new).as_str(),
            text::lower(username).as_str(),
        ) {
            return Err("password must not be the default or the username".to_owned());
        }
        if text::same(new, current) {
            return Err("new password must differ from the current one".to_owned());
        }
        match self.principals.get(username) {
            None => Err("no such principal".to_owned()),
            Some(p) => {
                match check_password(p.password_hash.as_str(), current) {
                    Err(m) => Err(m),
                    Ok(true) => Ok(()),
                    Ok(false) => Err("current password is incorrect".to_owned()),
                }
            },
        }
    }

    /// Gives someone another password, by its hash. It need not be changed
    /// again, and is not the one that everyone knows.
    pub fn replace_password(&mut self, username: &str, hash: String)
        requires
            old(self).wf(),
            old(self).principals@.contains_key(username@),
        ensures
            final(self).wf(),
            final(self).principals@ == old(self).principals@.insert(
                username@,
                Principal {
                    password_hash: hash,
                    must_change_password: false,
                    is_default_credential: false,
                    ..old(self).principals@[username@]
                },
            ),
            final(self).sessions == old(self).sessions,
            final(self).failures == old(self).failures,
            same_but_logins(*final(self), *old(self)),
            final(self).logins_total == old(self).logins_total,
            final(self).login_failures_total == old(self).login_failures_total,
    {
        let p: Principal = match self.principals.get(username) {
            Some(p) => Principal {
                username: p.username.clone(),
                role: p.role,
                password_hash: hash,
                must_change_password: false,
                created_at_secs: p.created_at_secs,
                last_login_secs: p.last_login_secs,
                is_default_credential: false,
            },
            None => {
                assert(false);
                return;
            },
        };
        self.principals.insert(username.to_owned(), p);
    }

    /// Gives someone another password, which takes the one that they have. What
    /// comes of it is to be stored, and `rotation_written` told how that went.
    /// Nothing is changed where it is refused, or where it cannot be hashed.
    pub fn begin_change(&mut self, username: &str, current: &str, new: &str) -> (r: Result<
        (),
        String,
    >)
        requires
            old(self).wf(),
        ensures
            final(self).wf(),
            final(self).sessions == old(self).sessions,
            match refused_change(old(self).principals@, username@, current@, new@) {
                Some(t) => r matches Err(m) && m@ == t && *final(self) == *old(self),
                None => match r {
                    Err(_) => *final(self) == *old(self),
                    Ok(_) => repassworded(
                        *old(self),
                        *final(self),
                        username@,
                        without_line_ends(new@),
                    ),
                },
            },
    {
        match self.check_change(username, current, new) {
            Err(m) => Err(m),
            Ok(_) => {
                let new = strip_line_ends(new);
                match hash_password(new.as_str()) {
                    Err(m) => Err(m),
                    Ok(hash) => {
                        self.replace_password(username, hash);
                        Ok(())
                    },
                }
            },
        }
    }

    /// Ends a change of a password, once it is known whether it was stored.
    /// With the old password every session of its owner dies, the one that
    /// changed it too. Where it was not stored, the sessions go on.
    pub fn rotation_written(&mut self, username: &str, written: Result<(), String>) -> (r: Result<
        (),
        String,
    >)
        requires
            old(self).wf(),
        ensures
            final(self).wf(),
            match written {
                Err(e) => r matches Err(m) && m@ == "persist: "@ + e@ && *final(self) == *old(self),
                Ok(_) => {
                    &&& r is Ok
                    &&& ended(old(self).sessions@, final(self).sessions@, username@)
                    &&& *final(self) == (Auth { sessions: final(self).sessions, ..*old(self) })
                },
            },
    {
        match written {
            Err(e) => {
                let mut m = "persist: ".to_owned();
                m.append(e.as_str());
                Err(m)
            },
            Ok(_) => {
                self.end_sessions(username);
                Ok(())
            },
        }
    }

    /// Changes a password where nothing is to be stored: as `begin_change`, and
    /// every session of its owner ends.
    pub fn change_password(&mut self, username: &str, current: &str, new: &str) -> (r: Result<
        (),
        String,
    >)
        requires
            old(self).wf(),
        ensures
            final(self).wf(),
            match refused_change(old(self).principals@, username@, current@, new@) {
                Some(t) => r matches Err(m) && m@ == t && *final(self) == *old(self),
                None => match r {
                    Err(_) => *final(self) == *old(self),
                    Ok(_) => {
                        &&& repassworded(
                            *old(self),
                            *final(self),
                            username@,
                            without_line_ends(new@),
                        )
                        &&& ended(old(self).sessions@, final(self).sessions@, username@)
                    },
                },
            },
    {
        match self.begin_change(username, current, new) {
            Err(m) => Err(m),
            Ok(_) => self.rotation_written(username, Ok(())),
        }
    }

    /// Ends every session of someone.
    pub fn end_sessions(&mut self, username: &str)
        requires
            old(self).wf(),
        ensures
            final(self).wf(),
            ended(old(self).sessions@, final(self).sessions@, username@),
            *final(self) == (Auth { sessions: final(self).sessions, ..*old(self) }),
    {
        let mut gone: Vec<String> = Vec::new();
        let mut i: usize = 0;
        while i < self.sessions.entries.len()
            invariant
                i <= self.sessions.entries.len(),
                forall|k: Seq<char>| #[trigger]
                    text::texts(gone@).contains(k) <==> exists|j: int|
                        0 <= j < i && (#[trigger] self.sessions.entries@[j]).0@ == k
                            && self.sessions.entries@[j].1.username@ == username@,
            decreases self.sessions.entries.len() - i,
        {
            let e = &self.sessions.entries[i];
            let ghost done = text::texts(gone@);
            if text::same(e.1.username.as_str(), username) {
                gone.push(e.0.clone());
                proof {
                    let now = text::texts(gone@);
                    assert(now =~= done.push(e.0@));
                    assert forall|k: Seq<char>| #[trigger] now.contains(k) <==> exists|j: int|
                        0 <= j < i + 1 && (#[trigger] self.sessions.entries@[j]).0@ == k
                            && self.sessions.entries@[j].1.username@ == username@ by {
                        if now.contains(k) {
                            let m = choose|m: int| 0 <= m < now.len() && now[m] == k;
                            if m < done.len() {
                                assert(done[m] == k);
                                assert(done.contains(k));
                            } else {
                                assert(self.sessions.entries@[i as int].0@ == k);
                            }
                        }
                        if exists|j: int|
                            0 <= j < i + 1 && (#[trigger] self.sessions.entries@[j]).0@ == k
                                && self.sessions.entries@[j].1.username@ == username@ {
                            let j = choose|j: int|
                                0 <= j < i + 1 && (#[trigger] self.sessions.entries@[j]).0@ == k
                                    && self.sessions.entries@[j].1.username@ == username@;
                            if j < i {
                                assert(done.contains(k));
                                let m = choose|m: int| 0 <= m < done.len() && done[m] == k;
                                assert(now[m] == k);
                            } else {
                                assert(now[done.len() as int] == k);
                            }
                        }
                    }
                }
            }
            i += 1;
        }
        let ghost all = text::texts(gone@);
        let ghost was = self.sessions@;
        proof {
            assert forall|k: Seq<char>| #[trigger] all.contains(k) <==> was.contains_key(k)
                && was[k].username@ == username@ by {
                if all.contains(k) {
                    let j = choose|j: int|
                        0 <= j < i && (#[trigger] self.sessions.entries@[j]).0@ == k
                            && self.sessions.entries@[j].1.username@ == username@;
                    crate::ordered::entries_are_the_map(self.sessions, j);
                }
                if was.contains_key(k) && was[k].username@ == username@ {
                    let j = crate::ordered::place_of(self.sessions.entries@, k);
                    assert(0 <= j < self.sessions.entries@.len()
                        && self.sessions.entries@[j].0@ == k);
                    assert(was[k] == self.sessions.entries@[j].1);
                }
            }
        }
        let mut i: usize = 0;
        while i < gone.len()
            invariant
                i <= gone.len(),
                all == text::texts(gone@),
                self.wf(),
                *self == (Auth { sessions: self.sessions, ..*old(self) }),
                forall|k: Seq<char>| #[trigger]
                    self.sessions@.contains_key(k) <==> was.contains_key(k) && !all.take(
                        i as int,
                    ).contains(k),
                forall|k: Seq<char>|
                    self.sessions@.contains_key(k) ==> #[trigger] self.sessions@[k] == was[k],
            decreases gone.len() - i,
        {
            let ghost before = self.sessions@;
            self.sessions.remove(gone[i].as_str());
            proof {
                let g = gone@[i as int]@;
                assert(all[i as int] == g);
                let a = all.take(i as int);
                let b = all.take(i + 1);
                assert forall|k: Seq<char>| #[trigger] self.sessions@.contains_key(k)
                    <==> was.contains_key(k) && !b.contains(k) by {
                    assert(before.contains_key(k) <==> was.contains_key(k) && !a.contains(k));
                    if b.contains(k) {
                        let m = choose|m: int| 0 <= m < b.len() && b[m] == k;
                        if m < i {
                            assert(a[m] == k);
                        }
                    }
                    if a.contains(k) {
                        let m = choose|m: int| 0 <= m < a.len() && a[m] == k;
                        assert(b[m] == k);
                    }
                    assert(b[i as int] == g);
                }
            }
            i += 1;
        }
        assert(all.take(all.len() as int) =~= all);
    }

    // ------------------------------------------------------------------ tokens

    /// Copies of the tokens.
    pub fn tokens(&self) -> (r: Vec<TokenRecord>)
        ensures
            r@.len() == self.tokens.by_hash.entries@.len(),
            forall|i: int|
                0 <= i < r@.len() ==> token::same_record(
                    #[trigger] r@[i],
                    self.tokens.by_hash.entries@[i].1,
                ),
    {
        self.tokens.records()
    }

    /// Issues a token with a secret that is given, of which only the digest is
    /// kept.
    pub fn issue_token(
        &mut self,
        secret: &str,
        description: &str,
        scope: Scope,
        databases: Vec<String>,
        authorizations: Vec<String>,
        expires_at_secs: Option<u64>,
        created_by: &str,
        now_secs: u64,
    ) -> (r: TokenRecord)
        requires
            old(self).wf(),
        ensures
            final(self).wf(),
            r.id@ == "tok-"@ + text::decimal(now_secs as nat) + "-"@ + token::digest_of(
                secret@,
            ).take(8),
            r.description@ == text::trimmed(description@),
            r.hash@ == token::digest_of(secret@),
            r.scope == scope,
            r.databases@ == databases@,
            r.authorizations@ == authorizations@,
            r.created_by@ == created_by@,
            r.created_at_secs == now_secs,
            r.expires_at_secs == expires_at_secs,
            !r.revoked,
            r.last_used_secs is None,
            final(self).tokens.by_hash@.contains_key(r.hash@),
            token::same_record(r, final(self).tokens.by_hash@[r.hash@]),
            final(self).tokens.by_hash@.remove(r.hash@) == old(self).tokens.by_hash@.remove(
                r.hash@,
            ),
            *final(self) == (Auth { tokens: final(self).tokens, ..*old(self) }),
    {
        let hash = token::hash_token(secret);
        let digits = text::chars_of(hash.as_str());
        let short = text::slice_text(&digits, 0, 8);
        assert(short@ =~= token::digest_of(secret@).take(8));
        let mut id = "tok-".to_owned();
        id.append(text::show(now_secs).as_str());
        id.append("-");
        id.append(short.as_str());
        let record = TokenRecord {
            id,
            description: text::trim(description),
            hash,
            scope,
            databases,
            authorizations,
            created_by: created_by.to_owned(),
            created_at_secs: now_secs,
            expires_at_secs,
            revoked: false,
            last_used_secs: None,
        };
        let r = record.copy();
        self.tokens.insert(record);
        assert(self.tokens.by_hash@.remove(r.hash@) =~= old(self).tokens.by_hash@.remove(r.hash@));
        r
    }

    /// Revokes a token. Says whether it was one that was not revoked yet.
    pub fn revoke_token(&mut self, id: &str) -> (r: bool)
        requires
            old(self).wf(),
        ensures
            final(self).wf(),
            *final(self) == (Auth { tokens: final(self).tokens, ..*old(self) }),
            match token::id_at(old(self).tokens.by_hash.entries@, id@) {
                Some(i) => {
                    &&& 0 <= i < old(self).tokens.by_hash.entries@.len()
                    &&& r == !old(self).tokens.by_hash.entries@[i].1.revoked
                    &&& final(self).tokens.by_hash.entries@
                        == old(self).tokens.by_hash.entries@.update(
                        i,
                        (
                            old(self).tokens.by_hash.entries@[i].0,
                            token::revoked_record(old(self).tokens.by_hash.entries@[i].1),
                        ),
                    )
                },
                None => !r && final(self).tokens == old(self).tokens,
            },
    {
        self.tokens.revoke(id)
    }

    /// Who the holder of a secret is.
    pub fn verify_token(&self, secret: &str, now_secs: u64) -> (r: Result<
        TokenIdentity,
        TokenError,
    >)
        requires
            self.wf(),
        ensures
            looked_up(self.tokens, secret@, now_secs, r),
    {
        self.tokens.verify(secret, now_secs)
    }

    /// Whether tokens as they are stored now are others than were read last.
    pub fn tokens_changed(&self, bytes: &Vec<u8>) -> (r: bool)
        ensures
            r == others_stored(*self, bytes@),
    {
        let hash = crypto::hash_hex(bytes);
        match &self.tokens_loaded_hash {
            Some(h) => !text::same(h.as_str(), hash.as_str()),
            None => true,
        }
    }

    /// Takes up the tokens as they are stored now, where they are others than
    /// were read last. Says whether they are.
    pub fn reload_tokens(&mut self, bytes: &Vec<u8>, records: Vec<TokenRecord>) -> (r: bool)
        requires
            old(self).wf(),
        ensures
            final(self).wf(),
            r == others_stored(*old(self), bytes@),
            reloaded(*old(self), *final(self), bytes@, records@),
    {
        if !self.tokens_changed(bytes) {
            return false;
        }
        self.tokens = TokenIndex::from_records(records);
        self.tokens_loaded_hash = Some(crypto::hash_hex(bytes));
        self.token_reloads_total = counter::up(self.token_reloads_total);
        true
    }

    /// Takes notice that the tokens were stored as they are, in these bytes.
    pub fn tokens_stored(&mut self, bytes: &Vec<u8>)
        requires
            old(self).wf(),
        ensures
            final(self).wf(),
            batch::opt_text(final(self).tokens_loaded_hash) == Some(crypto::sha256_hex(bytes@)),
            *final(self) == (Auth {
                tokens_loaded_hash: final(self).tokens_loaded_hash,
                ..*old(self)
            }),
    {
        self.tokens_loaded_hash = Some(crypto::hash_hex(bytes));
    }

    /// Whether tokens are to be read again because one is not known: no more
    /// than once in a while.
    pub fn on_miss_reload_due(&mut self, now_ms: u64) -> (r: bool)
        requires
            old(self).wf(),
        ensures
            final(self).wf(),
            r == miss_due(old(self).token_miss_reload_at, now_ms),
            *final(self) == (if r {
                Auth { token_miss_reload_at: Some(now_ms), ..*old(self) }
            } else {
                *old(self)
            }),
    {
        let due: bool = match self.token_miss_reload_at {
            Some(t) => now_ms >= t && now_ms - t >= MISS_RELOAD_MS,
            None => true,
        };
        if due {
            self.token_miss_reload_at = Some(now_ms);
        }
        due
    }

    /// What came of the credential that a request carries.
    fn present(&self, mode: DataAuthMode, authorization: Option<&str>, now_secs: u64) -> (r: Option<
        Result<TokenIdentity, TokenError>,
    >)
        requires
            self.wf(),
        ensures
            match (r, presented(self.tokens, mode, authorization, now_secs)) {
                (None, None) => true,
                (Some(Ok(i)), Some(Ok(k))) => self.tokens.by_hash@.contains_key(k)
                    && token::identity_of(i, self.tokens.by_hash@[k]),
                (Some(Err(e)), Some(Err(f))) => e == f,
                _ => false,
            },
    {
        if mode == DataAuthMode::Off {
            return None;
        }
        match authorization {
            None => None,
            Some(h) => {
                match token::token_from_authorization(h) {
                    Some(secret) => Some(self.verify_token(secret.as_str(), now_secs)),
                    None => Some(Err(TokenError::Invalid)),
                }
            },
        }
    }

    /// The next step of looking up the holder of a secret. One that is not
    /// known here may have been issued elsewhere a moment ago: the tokens are
    /// read again, no more than once in a while. Where they could not be read,
    /// or are the same, the secret stays refused.
    pub fn verify_next(
        &mut self,
        event: LookupEvent,
        secret: &str,
        now_ms: u64,
        now_secs: u64,
    ) -> (r: Lookup<Result<TokenIdentity, TokenError>>)
        requires
            old(self).wf(),
        ensures
            final(self).wf(),
            r is Reread <==> event is Asked && reread_wanted(*old(self), secret@, now_ms, now_secs),
            after_event(*old(self), *final(self), event, r is Reread, now_ms),
            r matches Lookup::Answer(a) ==> if found_nothing(*old(self), event) {
                a == Err::<TokenIdentity, TokenError>(TokenError::Invalid)
            } else {
                looked_up(final(self).tokens, secret@, now_secs, a)
            },
    {
        match event {
            LookupEvent::Asked => {
                let first = self.verify_token(secret, now_secs);
                if first.is_err() && self.on_miss_reload_due(now_ms) {
                    return Lookup::Reread;
                }
                Lookup::Answer(first)
            },
            LookupEvent::Reread(bytes, records) => {
                if self.reload_tokens(&bytes, records) {
                    Lookup::Answer(self.verify_token(secret, now_secs))
                } else {
                    Lookup::Answer(Err(TokenError::Invalid))
                }
            },
            LookupEvent::RereadFailed => Lookup::Answer(Err(TokenError::Invalid)),
        }
    }

    /// The next step of deciding whether a request for data may go on: the
    /// tokens are read again where it carries a secret that is not known, as in
    /// `verify_next`. A request without a secret is decided at once.
    pub fn decide_next(
        &mut self,
        event: LookupEvent,
        mode: DataAuthMode,
        authorization: Option<&str>,
        action: Action,
        db: &str,
        now_ms: u64,
        now_secs: u64,
    ) -> (r: Lookup<Result<Decision, TokenError>>)
        requires
            old(self).wf(),
        ensures
            final(self).wf(),
            match carried(mode, authorization) {
                None => {
                    &&& *final(self) == *old(self)
                    &&& r matches Lookup::Answer(a) && decided(
                        old(self).tokens,
                        mode,
                        authorization,
                        action,
                        db@,
                        now_secs,
                        a,
                    )
                },
                Some(secret) => {
                    &&& r is Reread <==> event is Asked && reread_wanted(
                        *old(self),
                        secret,
                        now_ms,
                        now_secs,
                    )
                    &&& after_event(*old(self), *final(self), event, r is Reread, now_ms)
                    &&& r matches Lookup::Answer(a) ==> if found_nothing(*old(self), event) {
                        a == Err::<Decision, TokenError>(TokenError::Invalid)
                    } else {
                        decided(final(self).tokens, mode, authorization, action, db@, now_secs, a)
                    }
                },
            },
    {
        if mode == DataAuthMode::Off {
            return Lookup::Answer(self.decide_data(mode, authorization, action, db, now_secs));
        }
        let secret = match authorization {
            Some(h) => token::token_from_authorization(h),
            None => None,
        };
        match secret {
            None => Lookup::Answer(self.decide_data(mode, authorization, action, db, now_secs)),
            Some(secret) => {
                match self.verify_next(event, secret.as_str(), now_ms, now_secs) {
                    Lookup::Reread => Lookup::Reread,
                    Lookup::Answer(credential) => Lookup::Answer(
                        guard::decide(mode, Some(credential), action, db),
                    ),
                }
            },
        }
    }

    /// Decides whether a request for data may go on. A header that holds no
    /// secret in a way that is known is a credential that is not good.
    pub fn decide_data(
        &self,
        mode: DataAuthMode,
        authorization: Option<&str>,
        action: Action,
        db: &str,
        now_secs: u64,
    ) -> (r: Result<Decision, TokenError>)
        requires
            self.wf(),
        ensures
            decided(self.tokens, mode, authorization, action, db@, now_secs, r),
    {
        let credential = self.present(mode, authorization, now_secs);
        guard::decide(mode, credential, action, db)
    }

    // ------------------------------------------------------------ certificates

    /// What the holder of a certificate may see by, where that is recorded.
    pub fn cert_grants(&self, identity: &str) -> (r: Option<Vec<String>>)
        requires
            self.wf(),
        ensures
            r is Some <==> self.cert_grants@.contains_key(identity@),
            r matches Some(g) ==> g@ == self.cert_grants@[identity@]@,
    {
        match self.cert_grants.get(identity) {
            Some(g) => Some(text::copy_texts(g)),
            None => None,
        }
    }

    /// Records what the holder of a certificate may see by.
    pub fn set_cert_grants(&mut self, identity: &str, authorizations: Vec<String>)
        requires
            old(self).wf(),
        ensures
            final(self).wf(),
            final(self).cert_grants@ == old(self).cert_grants@.insert(identity@, authorizations),
            *final(self) == (Auth { cert_grants: final(self).cert_grants, ..*old(self) }),
    {
        self.cert_grants.insert(identity.to_owned(), authorizations);
    }

    /// Takes back what is recorded of the holder of a certificate. Says whether
    /// anything was.
    pub fn remove_cert_grants(&mut self, identity: &str) -> (r: bool)
        requires
            old(self).wf(),
        ensures
            final(self).wf(),
            r == old(self).cert_grants@.contains_key(identity@),
            final(self).cert_grants@ == old(self).cert_grants@.remove(identity@),
            *final(self) == (Auth { cert_grants: final(self).cert_grants, ..*old(self) }),
    {
        self.cert_grants.remove(identity)
    }

    /// What is recorded of every holder of a certificate, in order.
    pub fn cert_grant_identities(&self) -> (r: Vec<(String, Vec<String>)>)
        ensures
            r@.len() == self.cert_grants.entries@.len(),
            forall|i: int|
                0 <= i < r@.len() ==> (#[trigger] r@[i]).0 == self.cert_grants.entries@[i].0
                    && r@[i].1@ == self.cert_grants.entries@[i].1@,
    {
        let mut out: Vec<(String, Vec<String>)> = Vec::new();
        let mut i: usize = 0;
        while i < self.cert_grants.entries.len()
            invariant
                i <= self.cert_grants.entries.len(),
                out@.len() == i,
                forall|k: int|
                    0 <= k < i ==> (#[trigger] out@[k]).0 == self.cert_grants.entries@[k].0
                        && out@[k].1@ == self.cert_grants.entries@[k].1@,
            decreases self.cert_grants.entries.len() - i,
        {
            let e = &self.cert_grants.entries[i];
            out.push((e.0.clone(), text::copy_texts(&e.1)));
            i += 1;
        }
        out
    }
}

fn wait_for(count: u32) -> (r: u64)
    ensures
        r == wait_after(count),
{
    if count <= FREE_ATTEMPTS {
        return 0;
    }
    let k: u32 = count - FREE_ATTEMPTS - 1;
    let k: u32 = if k < 8 {
        k
    } else {
        8
    };
    let mut w: u64 = 1;
    let mut i: u32 = 0;
    while i < k
        invariant
            i <= k <= 8,
            w == doubled(i as nat),
        decreases k - i,
    {
        proof {
            lemma_doubled(i as nat);
        }
        w = 2 * w;
        i += 1;
    }
    proof {
        lemma_doubled(k as nat);
    }
    let w: u64 = 1_000 * w;
    if w < MAX_BACKOFF_MS {
        w
    } else {
        MAX_BACKOFF_MS
    }
}

/// Failures with one more.
pub open spec fn failed_again(
    failures: Map<Seq<char>, Failures>,
    username: Seq<char>,
    now: u64,
) -> Failures {
    Failures {
        count: if failures.contains_key(username) {
            if failures[username].count < u32::MAX {
                (failures[username].count + 1) as u32
            } else {
                failures[username].count
            }
        } else {
            1
        },
        last_ms: now,
    }
}

/// The session of a token, where it is still good.
pub open spec fn good_session(
    sessions: Map<Seq<char>, Session>,
    token: Seq<char>,
    now: u64,
) -> Option<Session> {
    if sessions.contains_key(token) && lasts(sessions[token], now) {
        Some(sessions[token])
    } else {
        None
    }
}

/// The sessions after one was looked for: one that is used stays good for
/// longer, and one that is not good any more ends.
pub open spec fn seen(sessions: Map<Seq<char>, Session>, token: Seq<char>, now: u64) -> Map<
    Seq<char>,
    Session,
> {
    if !sessions.contains_key(token) {
        sessions
    } else if lasts(sessions[token], now) {
        sessions.insert(token, Session { last_seen_ms: now, ..sessions[token] })
    } else {
        sessions.remove(token)
    }
}

/// Whether every session of someone has ended, and the others go on.
pub open spec fn ended(
    was: Map<Seq<char>, Session>,
    now: Map<Seq<char>, Session>,
    username: Seq<char>,
) -> bool {
    &&& forall|k: Seq<char>| #[trigger]
        now.contains_key(k) <==> was.contains_key(k) && was[k].username@ != username
    &&& forall|k: Seq<char>| now.contains_key(k) ==> #[trigger] now[k] == was[k]
}

/// Whether a password lets someone in: they do not have to wait, and it is the
/// one of the hash that is kept of theirs.
pub open spec fn lets_in(a: Auth, username: Seq<char>, password: Seq<char>, now_ms: u64) -> bool {
    &&& pending(a.failures@, username, now_ms) is None
    &&& a.principals@.contains_key(username)
    &&& opens(a.principals@[username].password_hash@, password)
}

/// Whether someone has another password, which need not be changed again and is
/// not the one that everyone knows, and nothing else is changed of anyone.
pub open spec fn repassworded(was: Auth, now: Auth, username: Seq<char>, new: Seq<char>) -> bool {
    let p = now.principals@[username];
    &&& was.principals@.contains_key(username)
    &&& opens(p.password_hash@, new)
    &&& p == Principal {
        password_hash: p.password_hash,
        must_change_password: false,
        is_default_credential: false,
        ..was.principals@[username]
    }
    &&& now.principals@ == was.principals@.insert(username, p)
    &&& now == Auth { principals: now.principals, sessions: now.sessions, ..was }
}

/// A rotation ends every session that someone had, the one that asked for it
/// too, and leaves those of others as they were. The password that was given
/// lets its owner in, need not be changed again, and is no default. Of any other,
/// the one before it too, the new hash alone decides; that it does not open to
/// one is for the hash to see to, and is not said here.
pub proof fn a_rotation_ends_every_session(
    was: Auth,
    now: Auth,
    username: Seq<char>,
    new: Seq<char>,
    token: Seq<char>,
    other: Seq<char>,
    at: u64,
)
    requires
        repassworded(was, now, username, new),
        ended(was.sessions@, now.sessions@, username),
    ensures
        was.sessions@.contains_key(token) && was.sessions@[token].username@ == username
            ==> good_session(now.sessions@, token, at) is None,
        !(was.sessions@.contains_key(token) && was.sessions@[token].username@ == username)
            ==> good_session(now.sessions@, token, at) == good_session(was.sessions@, token, at),
        now.principals@.contains_key(username),
        opens(now.principals@[username].password_hash@, new),
        lets_in(now, username, new, at) <==> pending(was.failures@, username, at) is None,
        !opens(now.principals@[username].password_hash@, other) ==> !lets_in(
            now,
            username,
            other,
            at,
        ),
        !now.principals@[username].must_change_password,
        !now.principals@[username].is_default_credential,
        forall|u: Seq<char>|
            u != username && #[trigger] was.principals@.contains_key(u)
                ==> now.principals@.contains_key(u) && now.principals@[u] == was.principals@[u],
{
}

/// Whether tokens are to be read again for a secret: where it is not known, and
/// they were not read for such a one a moment ago.
pub open spec fn reread_wanted(a: Auth, secret: Seq<char>, now_ms: u64, now_secs: u64) -> bool {
    &&& !known(a.tokens, secret, now_secs)
    &&& miss_due(a.token_miss_reload_at, now_ms)
}

/// Whether a secret is that of a token that is good.
pub open spec fn known(tokens: TokenIndex, secret: Seq<char>, now_secs: u64) -> bool {
    let k = token::digest_of(secret);
    tokens.by_hash@.contains_key(k) && tokens.by_hash@[k].good_at(now_secs)
}

/// Whether enough time has passed since tokens were last read for a secret that
/// was not known.
pub open spec fn miss_due(last: Option<u64>, now_ms: u64) -> bool {
    match last {
        Some(t) => since(t, now_ms) >= MISS_RELOAD_MS,
        None => true,
    }
}

/// A token that is known never has the tokens read again.
pub proof fn known_tokens_are_not_read_again(
    a: Auth,
    secret: Seq<char>,
    now_ms: u64,
    now_secs: u64,
)
    requires
        known(a.tokens, secret, now_secs),
    ensures
        !reread_wanted(a, secret, now_ms, now_secs),
{
}

/// Secrets that are not known have the tokens read at most once in a while:
/// whatever they are, and whatever was read meanwhile.
pub proof fn misses_read_once_in_a_while(
    a: Auth,
    last: u64,
    secret: Seq<char>,
    now_ms: u64,
    now_secs: u64,
)
    requires
        a.token_miss_reload_at == Some(last),
        reread_wanted(a, secret, now_ms, now_secs),
    ensures
        now_ms >= last + MISS_RELOAD_MS,
{
}

/// Whether a session is still good.
pub open spec fn lasts(s: Session, now: u64) -> bool {
    since(s.created_ms, now) <= SESSION_ABSOLUTE_MS && since(s.last_seen_ms, now) <= SESSION_IDLE_MS
}

/// The words of the roles read back, and no other word is a role.
pub proof fn role_words_read_back(r: Role, s: Seq<char>)
    ensures
        role_named(role_text(r)) == Some(r),
        role_named(s) matches Some(found) ==> s == role_text(found),
{
    reveal_strlit("viewer");
    reveal_strlit("operator");
    reveal_strlit("admin");
    assert("viewer"@.len() == 6 && "operator"@.len() == 8 && "admin"@.len() == 5);
}

/// A session lasts for half a day from when it began at most, and for half an
/// hour from when it was last seen; within both it lasts.
pub proof fn a_session_lasts_its_time(s: Session, now: u64)
    ensures
        lasts(s, now) <==> now <= s.created_ms + 12 * 60 * 60 * 1_000 && now <= s.last_seen_ms + 30
            * 60 * 1_000,
{
}

/// A login is put off exactly until the wait for its failures has passed since
/// the last of them, and what is answered is what is left of that wait.
pub proof fn a_login_is_put_off_for_the_wait(
    failures: Map<Seq<char>, Failures>,
    username: Seq<char>,
    now: u64,
)
    requires
        failures.contains_key(username),
        now >= failures[username].last_ms,
    ensures
        ({
            let f = failures[username];
            let end = f.last_ms + wait_after(f.count);
            &&& pending(failures, username, now) is Some <==> now < end
            &&& pending(failures, username, now) matches Some(left) ==> now + left == end
        }),
{
    waits_grow_up_to_a_limit(failures[username].count, failures[username].count);
}

/// Three attempts are free; behind them the wait is a second, and each of the
/// next eight failures doubles it.
pub proof fn each_failure_doubles_the_wait(n: u32)
    requires
        n < u32::MAX,
    ensures
        n <= 3 ==> wait_after(n) == 0,
        n == 4 ==> wait_after(n) == 1_000,
        4 <= n < 12 ==> wait_after((n + 1) as u32) == 2 * wait_after(n),
        n >= 12 ==> wait_after((n + 1) as u32) == wait_after(n),
{
    reveal_with_fuel(doubled, 10);
}

/// What a token's record permits: reading where its scope is not writing alone,
/// writing where it is not reading alone, and either in the databases that it
/// names, or in all where it names none.
pub proof fn a_record_permits_what_its_scope_says(t: TokenRecord, db: Seq<char>)
    ensures
        ({
            let here = t.databases@.len() == 0 || exists|k: int|
                0 <= k < t.databases@.len() && (#[trigger] t.databases@[k])@ == db;
            &&& record_permits(t, Action::Read, db) <==> (t.scope == Scope::Read || t.scope
                == Scope::ReadWrite) && here
            &&& record_permits(t, Action::Write, db) <==> (t.scope == Scope::Write || t.scope
                == Scope::ReadWrite) && here
        }),
{
    let names = text::texts(t.databases@);
    if exists|k: int| 0 <= k < t.databases@.len() && (#[trigger] t.databases@[k])@ == db {
        let k = choose|k: int| 0 <= k < t.databases@.len() && (#[trigger] t.databases@[k])@ == db;
        assert(names[k] == db);
    }
    if names.contains(db) {
        let k = choose|k: int| 0 <= k < names.len() && names[k] == db;
        assert(t.databases@[k]@ == db);
    }
}

/// A request is decided by the token that it carries: with a known token that is
/// good it goes on exactly if the token permits it, as the token's identity and
/// with its grants; with any other it is refused as one with a wrong token, and
/// without any it is refused exactly if one is required. Where tokens are off
/// none is looked at.
pub proof fn a_request_is_decided_by_its_token(
    tokens: TokenIndex,
    mode: DataAuthMode,
    h: &str,
    secret: Seq<char>,
    action: Action,
    db: Seq<char>,
    now: u64,
    r: Result<Decision, TokenError>,
)
    requires
        token::secret_in(h@) == Some(secret),
        decided(tokens, mode, Some(h), action, db, now, r),
    ensures
        mode == DataAuthMode::Off ==> r is Ok && r->Ok_0.identity is None,
        mode != DataAuthMode::Off && !known(tokens, secret, now) ==> r == Err::<
            Decision,
            TokenError,
        >(TokenError::Invalid),
        mode != DataAuthMode::Off && known(tokens, secret, now) ==> {
            let t = tokens.by_hash@[token::digest_of(secret)];
            &&& r is Ok <==> record_permits(t, action, db)
            &&& r is Err ==> r == Err::<Decision, TokenError>(TokenError::Forbidden)
            &&& r is Ok ==> r->Ok_0.identity is Some && ({
                let i = r->Ok_0.identity->Some_0;
                &&& i.id == t.id
                &&& i.description == t.description
                &&& i.scope == t.scope
                &&& i.databases@ == t.databases@
                &&& i.authorizations@ == t.authorizations@
            })
        },
{
}

/// A new password is accepted exactly if, without the line ends at its end, it
/// has eight characters or more, and is neither the first one, nor the user's
/// name in capitals or not, nor the old one.
pub proof fn a_password_is_accepted_unless_it_is_poor(
    username: Seq<char>,
    old: Seq<char>,
    new: Seq<char>,
)
    requires
        new.len() > 0 ==> new.last() != '\r' && new.last() != '\n',
    ensures
        poor_password(username, old, new) is None <==> new.len() >= 8 && new != "admin"@
            && text::lowered(new) != text::lowered(username) && new != old,
        poor_password(username, old, new.push('\n')) == poor_password(username, old, new),
{
    assert(new.push('\n').drop_last() =~= new);
    assert(without_line_ends(new.push('\n')) == without_line_ends(new));
}

/// A session that is looked for stays while it lasts, as one that was seen now and
/// otherwise as it was; one that does not last any more is gone. The others stay
/// as they are.
pub proof fn a_session_that_is_used_stays(
    sessions: Map<Seq<char>, Session>,
    token: Seq<char>,
    other: Seq<char>,
    now: u64,
)
    ensures
        other != token ==> seen(sessions, token, now).contains_key(other) == sessions.contains_key(
            other,
        ),
        other != token && sessions.contains_key(other) ==> seen(sessions, token, now)[other]
            == sessions[other],
        seen(sessions, token, now).contains_key(token) <==> {
            &&& sessions.contains_key(token)
            &&& now <= sessions[token].created_ms + 43_200_000
            &&& now <= sessions[token].last_seen_ms + 1_800_000
        },
        seen(sessions, token, now).contains_key(token) ==> {
            let s = seen(sessions, token, now)[token];
            &&& s.last_seen_ms == now
            &&& s.created_ms == sessions[token].created_ms
            &&& s.username == sessions[token].username
            &&& s.role == sessions[token].role
            &&& s.must_change_password == sessions[token].must_change_password
            &&& s.csrf == sessions[token].csrf
        },
{
    if sessions.contains_key(token) {
        a_session_lasts_its_time(sessions[token], now);
    }
}

/// Each failure of a user is counted, from the first on, and the last one's time
/// is kept.
pub proof fn each_failure_is_counted(
    failures: Map<Seq<char>, Failures>,
    username: Seq<char>,
    now: u64,
)
    ensures
        failed_again(failures, username, now).last_ms == now,
        !failures.contains_key(username) ==> failed_again(failures, username, now).count == 1,
        failures.contains_key(username) && failures[username].count < 0xffff_ffff ==> failed_again(
            failures,
            username,
            now,
        ).count == failures[username].count + 1,
{
}

/// The first administrator has the password that is provisioned, letter for
/// letter, unless it is nothing but space or there is none.
pub proof fn the_first_password_is_the_provisioned_one(p: &str)
    ensures
        first_password(None) == ("admin"@, false),
        (exists|i: int| 0 <= i < p@.len() && !text::is_space(#[trigger] p@[i])) ==> first_password(
            Some(p),
        ) == (p@, true),
        (forall|i: int| 0 <= i < p@.len() ==> text::is_space(#[trigger] p@[i])) ==> first_password(
            Some(p),
        ) == ("admin"@, false),
{
    if exists|i: int| 0 <= i < p@.len() && !text::is_space(#[trigger] p@[i]) {
        let i = choose|i: int| 0 <= i < p@.len() && !text::is_space(#[trigger] p@[i]);
        text::more_than_space_is_left(p@, i);
    } else {
        let (a, b) = text::trimming_takes_off_space(p@);
        let t = text::trimmed(p@);
        if t.len() > 0 {
            assert(t[0] == p@[a.len() as int]);
        }
    }
}

} // verus!
