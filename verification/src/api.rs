//! The decisions behind the HTTP surface: who may go on, what a request asks
//! for, and what is answered. A decision takes what the request carries and
//! what the engine holds, and gives either a plan or a refusal.
pub mod admin;
pub mod changes;
pub mod retention;
pub mod rollups;

use crate::audit::{Append, AuditLog, AuditSink};
use crate::auth;
use crate::auth::guard::Decision;
use crate::auth::token;
use crate::auth::token::TokenError;
use crate::auth::{Auth, LoginError, Role, Session, SessionInfo};
use crate::batch;
use crate::headers;
use crate::ingest;
use crate::ingest::ParsedLine;
use crate::prometheus;
use crate::query;
use crate::text;
use vstd::prelude::*;
use vstd::utf8::*;

verus! {

// -------------------------------------------------------------------- refusals

/// A request that is refused: the status, the kind of the refusal where it has
/// one, what is wrong, and a header that goes with the answer.
#[derive(Debug)]
pub struct Refusal {
    pub status: u16,
    pub code: Option<&'static str>,
    pub message: String,
    pub header: Option<(&'static str, &'static str)>,
}

/// What a refusal says.
#[verifier::ext_equal]
pub struct RefusalView {
    pub status: u16,
    pub code: Option<Seq<char>>,
    pub message: Seq<char>,
    pub header: Option<(Seq<char>, Seq<char>)>,
}

impl View for Refusal {
    type V = RefusalView;

    open spec fn view(&self) -> RefusalView {
        RefusalView {
            status: self.status,
            code: match self.code {
                Some(c) => Some(c@),
                None => None,
            },
            message: self.message@,
            header: match self.header {
                Some((k, v)) => Some((k@, v@)),
                None => None,
            },
        }
    }
}

/// What an optional refusal says.
pub open spec fn opt_view(r: Option<Refusal>) -> Option<RefusalView> {
    match r {
        Some(f) => Some(f@),
        None => None,
    }
}

/// A refusal without a kind.
pub open spec fn plain(status: u16, message: Seq<char>) -> RefusalView {
    RefusalView { status, code: None, message, header: None }
}

/// A refusal of a kind.
pub open spec fn of_kind(status: u16, code: Seq<char>, message: Seq<char>) -> RefusalView {
    RefusalView { status, code: Some(code), message, header: None }
}

/// Refuses a request.
pub fn refuse(status: u16, message: &str) -> (r: Refusal)
    ensures
        r@ == plain(status, message@),
{
    Refusal { status, code: None, message: message.to_owned(), header: None }
}

/// Refuses a request with a message that was put together.
pub fn refuse_with(status: u16, message: String) -> (r: Refusal)
    ensures
        r@ == plain(status, message@),
{
    Refusal { status, code: None, message, header: None }
}

/// Refuses a request with the kind of the refusal.
pub fn refuse_as(status: u16, code: &'static str, message: &str) -> (r: Refusal)
    ensures
        r@ == of_kind(status, code@, message@),
{
    Refusal { status, code: Some(code), message: message.to_owned(), header: None }
}

// ----------------------------------------------------------------------- roles

/// The refusal of a role that does not suffice.
pub open spec fn role_refusal(have: Role, needed: Role) -> Option<RefusalView> {
    if auth::power(have) >= auth::power(needed) {
        None
    } else {
        Some(
            of_kind(
                403,
                "forbidden"@,
                "role '"@ + auth::role_text(have) + "' is not sufficient; '"@ + auth::role_text(
                    needed,
                ) + "' required"@,
            ),
        )
    }
}

/// Refuses a session whose role does not suffice.
pub fn require(session: &SessionInfo, needed: Role) -> (r: Option<Refusal>)
    ensures
        opt_view(r) == role_refusal(session.role, needed),
{
    if session.role.allows(needed) {
        return None;
    }
    let mut m = "role '".to_owned();
    m.append(session.role.as_str());
    m.append("' is not sufficient; '");
    m.append(needed.as_str());
    m.append("' required");
    Some(refuse_as(403, "forbidden", m.as_str()))
}

// -------------------------------------------------------------------- sessions

/// The cookie that holds the token of a session.
pub const SESSION_COOKIE: &'static str = "tldb_admin_session";

/// The header that a request which changes something carries besides a cookie.
pub const CSRF_HEADER: &'static str = "x-timelake-csrf";

/// The token behind `Bearer` in the header for credentials.
pub open spec fn bearer_of(headers: Seq<(String, String)>) -> Option<Seq<char>> {
    match headers::header_of(headers, "authorization"@) {
        Some(v) => if text::begins_with(v, "Bearer "@) {
            Some(v.skip(7))
        } else {
            None
        },
        None => None,
    }
}

/// Reads the token behind `Bearer`.
pub fn bearer(headers: &Vec<(String, String)>) -> (r: Option<String>)
    ensures
        batch::opt_text(r) == bearer_of(headers@),
{
    match headers::header(headers, "authorization") {
        Some(v) => {
            proof {
                reveal_strlit("Bearer ");
            }
            if text::starts_with(v.as_str(), "Bearer ") {
                let n: usize = v.as_str().unicode_len();
                let t = v.as_str().substring_char(7, n);
                assert(t@ =~= v@.skip(7));
                Some(t.to_owned())
            } else {
                None
            }
        },
        None => None,
    }
}

/// The token that a request shows for a session: the one behind `Bearer`, else
/// the one in the cookie.
pub open spec fn session_token(headers: Seq<(String, String)>) -> Option<Seq<char>> {
    match bearer_of(headers) {
        Some(t) => Some(t),
        None => headers::cookie_of(headers, SESSION_COOKIE@),
    }
}

/// Whether a method changes something.
pub open spec fn changes_something(method: Seq<char>) -> bool {
    method != "GET"@ && method != "HEAD"@
}

/// The text behind the last two slashes in a row, looked for in front of a
/// position.
pub open spec fn behind_slashes(s: Seq<char>, i: int) -> Seq<char>
    decreases i,
{
    if i <= 0 || i >= s.len() {
        s
    } else if s[i - 1] == '/' && s[i] == '/' {
        s.skip(i + 1)
    } else {
        behind_slashes(s, i - 1)
    }
}

/// Whether a request says that it comes from another host's page.
pub open spec fn cross_origin(headers: Seq<(String, String)>) -> bool {
    match headers::header_of(headers, "origin"@) {
        None => false,
        Some(origin) => match headers::header_of(headers, "host"@) {
            None => false,
            Some(host) => host.len() > 0 && behind_slashes(origin, origin.len() - 1) != host,
        },
    }
}

fn last_part(s: &str) -> (r: String)
    ensures
        r@ == behind_slashes(s@, s@.len() - 1),
{
    let v = text::chars_of(s);
    if v.len() < 2 {
        return s.to_owned();
    }
    let mut i: usize = v.len() - 1;
    while i > 0
        invariant
            i < v.len(),
            v@ == s@,
            behind_slashes(s@, s@.len() - 1) == behind_slashes(s@, i as int),
        decreases i,
    {
        if v[i - 1] == '/' && v[i] == '/' {
            let r = text::slice_text(&v, i + 1, v.len());
            assert(r@ =~= s@.skip(i + 1));
            return r;
        }
        i -= 1;
    }
    s.to_owned()
}

fn comes_from_elsewhere(headers: &Vec<(String, String)>) -> (r: bool)
    ensures
        r == cross_origin(headers@),
{
    match headers::header(headers, "origin") {
        None => false,
        Some(origin) => match headers::header(headers, "host") {
            None => false,
            Some(host) => host.as_str().unicode_len() > 0 && !text::same(
                last_part(origin.as_str()).as_str(),
                host.as_str(),
            ),
        },
    }
}

/// The one request that a session may make before its password is changed: the
/// change itself.
pub open spec fn open_before_rotation(method: Seq<char>, path: Seq<char>) -> bool {
    method == "POST"@ && path == "/admin/password"@
}

/// Why a request with a session is refused, in this order: a change that a
/// cookie alone vouches for, one from another host's page, and anything else
/// than a change of the password where that is due.
pub open spec fn guard_refusal(
    must_change: bool,
    csrf: Seq<char>,
    method: Seq<char>,
    path: Seq<char>,
    headers: Seq<(String, String)>,
) -> Option<RefusalView> {
    let by_cookie = changes_something(method) && bearer_of(headers) is None;
    if by_cookie && headers::header_of(headers, CSRF_HEADER@) != Some(csrf) {
        Some(of_kind(403, "csrf"@, "CSRF token missing or wrong"@))
    } else if by_cookie && cross_origin(headers) {
        Some(of_kind(403, "origin"@, "cross-origin request refused"@))
    } else if must_change && !open_before_rotation(method, path) {
        Some(
            of_kind(
                403,
                "password_change_required"@,
                "the password must be changed before this credential can do anything else"@,
            ),
        )
    } else {
        None
    }
}

/// Decides whether a request with a session may go on.
pub fn check_guard(
    session: &SessionInfo,
    method: &str,
    path: &str,
    headers: &Vec<(String, String)>,
) -> (r: Option<Refusal>)
    ensures
        opt_view(r) == guard_refusal(
            session.must_change_password,
            session.csrf@,
            method@,
            path@,
            headers@,
        ),
{
    let changes: bool = !text::same(method, "GET") && !text::same(method, "HEAD");
    if changes && bearer(headers).is_none() {
        let matches: bool = match headers::header(headers, CSRF_HEADER) {
            Some(v) => text::same(v.as_str(), session.csrf.as_str()),
            None => false,
        };
        if !matches {
            return Some(refuse_as(403, "csrf", "CSRF token missing or wrong"));
        }
        if comes_from_elsewhere(headers) {
            return Some(refuse_as(403, "origin", "cross-origin request refused"));
        }
    }
    if session.must_change_password && !(text::same(method, "POST") && text::same(
        path,
        "/admin/password",
    )) {
        return Some(
            refuse_as(
                403,
                "password_change_required",
                "the password must be changed before this credential can do anything else",
            ),
        );
    }
    None
}

/// The refusal of a request without a session.
pub open spec fn no_session() -> RefusalView {
    of_kind(401, "unauthenticated"@, "authentication required"@)
}

/// Whether a request shows the token of a session that is still good.
pub open spec fn has_session(a: Auth, headers: Seq<(String, String)>, now_ms: u64) -> bool {
    session_token(headers) matches Some(t) && a.sessions@.contains_key(t) && auth::lasts(
        a.sessions@[t],
        now_ms,
    )
}

/// The session whose token a request shows.
pub open spec fn shown_session(a: Auth, headers: Seq<(String, String)>) -> Session {
    a.sessions@[session_token(headers)->Some_0]
}

/// Whether a state is the one after a request was made out: the session whose
/// token it shows is seen, and nothing else is changed.
pub open spec fn made_out(
    was: Auth,
    now: Auth,
    headers: Seq<(String, String)>,
    now_ms: u64,
) -> bool {
    &&& now == Auth { sessions: now.sessions, ..was }
    &&& now.sessions@ == match session_token(headers) {
        Some(t) => auth::seen(was.sessions@, t, now_ms),
        None => was.sessions@,
    }
}

/// Finds the session of a request.
fn find_session(auth: &mut Auth, headers: &Vec<(String, String)>, now_ms: u64) -> (r: Option<
    SessionInfo,
>)
    requires
        old(auth).wf(),
    ensures
        final(auth).wf(),
        made_out(*old(auth), *final(auth), headers@, now_ms),
        r is Some <==> has_session(*old(auth), headers@, now_ms),
        r matches Some(i) ==> auth::info_of(i, shown_session(*old(auth), headers@)),
{
    let token = match bearer(headers) {
        Some(t) => t,
        None => match headers::cookie_value(headers, SESSION_COOKIE) {
            Some(t) => t,
            None => {
                return None;
            },
        },
    };
    auth.session(token.as_str(), now_ms)
}

/// Admits a request to the console, or refuses it: the sender is made out
/// first, and nothing else is told to one that is not known.
pub fn admin_guard(
    auth: &mut Auth,
    method: &str,
    path: &str,
    headers: &Vec<(String, String)>,
    now_ms: u64,
) -> (r: Result<SessionInfo, Refusal>)
    requires
        old(auth).wf(),
    ensures
        final(auth).wf(),
        made_out(*old(auth), *final(auth), headers@, now_ms),
        if has_session(*old(auth), headers@, now_ms) {
            let s = shown_session(*old(auth), headers@);
            match (r, guard_refusal(s.must_change_password, s.csrf@, method@, path@, headers@)) {
                (Ok(i), None) => auth::info_of(i, s),
                (Err(f), Some(v)) => f@ == v,
                _ => false,
            }
        } else {
            r matches Err(f) && f@ == no_session()
        },
{
    let session = match find_session(auth, headers, now_ms) {
        Some(s) => s,
        None => {
            return Err(refuse_as(401, "unauthenticated", "authentication required"));
        },
    };
    match check_guard(&session, method, path, headers) {
        Some(f) => Err(f),
        None => Ok(session),
    }
}

/// Why a session is refused where only an administrator may go on.
pub open spec fn admin_refusal(must_change: bool, role: Role) -> Option<RefusalView> {
    if must_change {
        Some(
            of_kind(403, "password_change_required"@, "the password must be changed first"@),
        )
    } else {
        role_refusal(role, Role::Admin)
    }
}

/// Refuses a request to what is an administrator's alone.
pub fn require_admin_session(auth: &mut Auth, headers: &Vec<(String, String)>, now_ms: u64) -> (r:
    Option<Refusal>)
    requires
        old(auth).wf(),
    ensures
        final(auth).wf(),
        made_out(*old(auth), *final(auth), headers@, now_ms),
        opt_view(r) == if has_session(*old(auth), headers@, now_ms) {
            let s = shown_session(*old(auth), headers@);
            admin_refusal(s.must_change_password, s.role)
        } else {
            Some(no_session())
        },
{
    let session = match find_session(auth, headers, now_ms) {
        Some(s) => s,
        None => {
            return Some(refuse_as(401, "unauthenticated", "authentication required"));
        },
    };
    if session.must_change_password {
        return Some(
            refuse_as(403, "password_change_required", "the password must be changed first"),
        );
    }
    require(&session, Role::Admin)
}

/// A session that has to change its password can do nothing else before.
pub proof fn a_first_password_only_changes_itself(
    csrf: Seq<char>,
    method: Seq<char>,
    path: Seq<char>,
    headers: Seq<(String, String)>,
    role: Role,
)
    ensures
        guard_refusal(true, csrf, method, path, headers) is None ==> method == "POST"@ && path
            == "/admin/password"@,
        admin_refusal(true, role) is Some,
{
}

/// A change that a cookie vouches for carries the session's second token and
/// does not come from another host's page.
pub proof fn cookies_alone_change_nothing(
    must_change: bool,
    csrf: Seq<char>,
    method: Seq<char>,
    path: Seq<char>,
    headers: Seq<(String, String)>,
)
    requires
        changes_something(method),
        bearer_of(headers) is None,
        guard_refusal(must_change, csrf, method, path, headers) is None,
    ensures
        headers::header_of(headers, CSRF_HEADER@) == Some(csrf),
        !cross_origin(headers),
{
}

// ---------------------------------------------------------------------- logins

/// The cookie of a session that begins, or of one that ends.
pub open spec fn cookie_text(token: Option<Seq<char>>, secure: bool) -> Seq<char> {
    SESSION_COOKIE@ + "="@ + (match token {
        Some(t) => t,
        None => Seq::empty(),
    }) + "; HttpOnly; SameSite=Strict; Path=/admin"@ + (if token is None {
        "; Max-Age=0"@
    } else {
        Seq::empty()
    }) + (if secure {
        "; Secure"@
    } else {
        Seq::empty()
    })
}

/// The cookie that is set when a session begins (with its token) or ends
/// (without one).
pub fn session_cookie(token: Option<&str>, secure: bool) -> (r: String)
    ensures
        r@ == cookie_text(
            match token {
                Some(t) => Some(t@),
                None => None,
            },
            secure,
        ),
{
    let mut s = SESSION_COOKIE.to_owned();
    s.append("=");
    if let Some(t) = token {
        s.append(t);
    }
    s.append("; HttpOnly; SameSite=Strict; Path=/admin");
    if token.is_none() {
        s.append("; Max-Age=0");
    }
    if secure {
        s.append("; Secure");
    }
    proof {
        let shown = match token {
            Some(t) => Some(t@),
            None => None,
        };
        assert(s@ =~= cookie_text(shown, secure));
    }
    s
}

/// The refusal of a login.
pub fn login_refusal(e: &LoginError) -> (r: Refusal)
    ensures
        r@ == match *e {
            LoginError::RateLimited(_) => of_kind(
                429,
                "rate_limited"@,
                auth::login_error_text(*e),
            ),
            LoginError::Invalid => of_kind(
                401,
                "invalid_credentials"@,
                auth::login_error_text(*e),
            ),
        },
{
    let m = e.message();
    match e {
        LoginError::RateLimited(_) => refuse_as(429, "rate_limited", m.as_str()),
        LoginError::Invalid => refuse_as(401, "invalid_credentials", m.as_str()),
    }
}

// ---------------------------------------------------------------- the data plane

/// The refusal of a credential: one that is asked for says how.
pub open spec fn denial(e: TokenError) -> RefusalView {
    RefusalView {
        status: if e == TokenError::Forbidden {
            403
        } else {
            401
        },
        code: Some(token::error_code(e)),
        message: token::error_text(e),
        header: if e == TokenError::Forbidden {
            None
        } else {
            Some(("www-authenticate"@, "Bearer realm=\"timelake\""@))
        },
    }
}

/// Refuses a credential.
pub fn deny_response(e: TokenError) -> (r: Refusal)
    ensures
        r@ == denial(e),
{
    let forbidden: bool = e == TokenError::Forbidden;
    Refusal {
        status: if forbidden {
            403
        } else {
            401
        },
        code: Some(e.code()),
        message: e.message().to_owned(),
        header: if forbidden {
            None
        } else {
            Some(("www-authenticate", "Bearer realm=\"timelake\""))
        },
    }
}

/// Why a write did not come about.
#[derive(Debug)]
pub enum WriteError {
    /// The request is at fault.
    BadRequest(String),
    /// A limit is reached, and flushing has to catch up.
    Backpressure(String),
    /// The write could not be made durable.
    Internal(String),
    /// This node takes no writes.
    NotHere(String),
}

/// The refusal of a write.
pub open spec fn write_refusal(e: WriteError) -> RefusalView {
    match e {
        WriteError::BadRequest(m) => plain(400, m@),
        WriteError::Backpressure(m) => RefusalView {
            status: 429,
            code: None,
            message: m@,
            header: Some(("retry-after"@, "1"@)),
        },
        WriteError::Internal(m) => plain(500, m@),
        WriteError::NotHere(m) => plain(501, m@),
    }
}

/// What is answered to a write: nothing where it came about.
pub fn write_result_response(res: Result<usize, WriteError>) -> (r: Option<Refusal>)
    ensures
        opt_view(r) == match res {
            Ok(_) => None,
            Err(e) => Some(write_refusal(e)),
        },
{
    match res {
        Ok(_) => None,
        Err(WriteError::BadRequest(m)) => Some(refuse_with(400, m)),
        Err(WriteError::Backpressure(m)) => Some(
            Refusal {
                status: 429,
                code: None,
                message: m,
                header: Some(("retry-after", "1")),
            },
        ),
        Err(WriteError::Internal(m)) => Some(refuse_with(500, m)),
        Err(WriteError::NotHere(m)) => Some(refuse_with(501, m)),
    }
}

/// The ways in for writes.
#[derive(Debug, Clone, Copy, PartialEq, Eq, Structural)]
pub enum WriteRoute {
    V1,
    V2,
    V3,
    Prometheus,
}

/// The parameter that names the database of a write.
pub open spec fn database_parameter(route: WriteRoute) -> Seq<char> {
    if route == WriteRoute::V2 {
        "bucket"@
    } else {
        "db"@
    }
}

/// The name of the parameter that names the database of a write.
pub fn write_parameter(route: WriteRoute) -> (r: &'static str)
    ensures
        r@ == database_parameter(route),
{
    match route {
        WriteRoute::V2 => "bucket",
        _ => "db",
    }
}

/// The database of a write, given the value of the parameter that names it.
pub fn write_database(route: WriteRoute, value: Option<String>) -> (r: Result<String, Refusal>)
    ensures
        match (r, value) {
            (Ok(db), Some(v)) => db == v,
            (Err(f), None) => f@ == plain(
                400,
                "missing '"@ + database_parameter(route) + "' parameter"@,
            ),
            _ => false,
        },
{
    match value {
        Some(v) => Ok(v),
        None => {
            let mut m = "missing '".to_owned();
            m.append(write_parameter(route));
            m.append("' parameter");
            Err(refuse_with(400, m))
        },
    }
}

/// Whether a body says that it is compressed.
pub open spec fn says_gzip(headers: Seq<(String, String)>) -> bool {
    match headers::header_of(headers, "content-encoding"@) {
        Some(v) => text::lowered(v) == "gzip"@,
        None => false,
    }
}

/// What a compressed body holds, or why it cannot be read.
pub uninterp spec fn gunzipped(body: Seq<u8>) -> Result<Seq<u8>, Seq<char>>;

/// What was read of a body.
pub open spec fn body_view(r: Result<Vec<u8>, String>) -> Result<Seq<u8>, Seq<char>> {
    match r {
        Ok(b) => Ok(b@),
        Err(m) => Err(m@),
    }
}

/// `flate2::read::GzDecoder` over a slice of bytes, read to its end: what the
/// first member of the gzip data holds, or the error in words. What the
/// compressed form of given bytes is is not stated; the result depends on the
/// body alone.
#[verifier::external_body]
fn gunzip(body: &Vec<u8>) -> (r: Result<Vec<u8>, String>)
    ensures
        body_view(r) == gunzipped(body@),
{
    let mut out = Vec::new();
    let mut decoder = flate2::read::GzDecoder::new(body.as_slice());
    match std::io::Read::read_to_end(&mut decoder, &mut out) {
        Ok(_) => Ok(out),
        Err(e) => Err(e.to_string()),
    }
}

/// The body of a write, given what was read of it.
pub fn body_or_refusal(read: Result<Vec<u8>, String>) -> (r: Result<Vec<u8>, Refusal>)
    ensures
        match (r, read) {
            (Ok(a), Ok(b)) => a == b,
            (Err(f), Err(m)) => f@ == plain(400, "bad gzip body: "@ + m@),
            _ => false,
        },
{
    match read {
        Ok(b) => Ok(b),
        Err(e) => {
            let mut m = "bad gzip body: ".to_owned();
            m.append(e.as_str());
            Err(refuse_with(400, m))
        },
    }
}

/// The body of a write: what it holds where it says that it is compressed, else
/// as it is.
pub fn maybe_gunzip(headers: &Vec<(String, String)>, body: Vec<u8>) -> (r: Result<
    Vec<u8>,
    Refusal,
>)
    ensures
        match (
            r,
            if says_gzip(headers@) {
                gunzipped(body@)
            } else {
                Ok(body@)
            },
        ) {
            (Ok(a), Ok(b)) => a@ == b,
            (Err(f), Err(m)) => f@ == plain(400, "bad gzip body: "@ + m),
            _ => false,
        },
{
    let gzipped: bool = match headers::header(headers, "content-encoding") {
        Some(v) => text::same(text::lower(v.as_str()).as_str(), "gzip"),
        None => false,
    };
    if gzipped {
        body_or_refusal(gunzip(&body))
    } else {
        Ok(body)
    }
}

/// The rows of a remote write, given what was decoded of its body. A body with
/// no rows is no error: there is nothing to write.
pub fn remote_rows(decoded: Result<Vec<ParsedLine>, prometheus::RemoteWriteError>) -> (r: Result<
    Option<Vec<ParsedLine>>,
    Refusal,
>)
    ensures
        match (r, decoded) {
            (Ok(Some(rows)), Ok(d)) => rows == d && d@.len() > 0,
            (Ok(None), Ok(d)) => d@.len() == 0,
            (Err(f), Err(e)) => f@ == plain(400, prometheus::error_text(e)),
            _ => false,
        },
{
    match decoded {
        Ok(rows) => if rows.len() == 0 {
            Ok(None)
        } else {
            Ok(Some(rows))
        },
        Err(e) => Err(refuse_with(400, e.message())),
    }
}

/// The rows of a remote write.
pub fn write_prometheus(body: &[u8]) -> (r: Result<Option<Vec<ParsedLine>>, Refusal>)
    ensures
        match (r, prometheus::decoded(prometheus::snappy_block(body@))) {
            (Ok(Some(rows)), Ok(v)) => ingest::row_views(rows@) == v && v.len() > 0,
            (Ok(None), Ok(v)) => v.len() == 0,
            (Err(f), Err(t)) => f@ == plain(400, t),
            _ => false,
        },
{
    let decoded = prometheus::decode_remote_write(body);
    remote_rows(decoded)
}

/// What the sender of a query may see by: what its header and its body claim,
/// narrowed to what its credential is granted where grants are recorded.
pub open spec fn query_claims(
    headers: Seq<(String, String)>,
    asked: Seq<Seq<char>>,
    granted: Option<Seq<Seq<char>>>,
) -> Seq<Seq<char>> {
    let all = headers::joined(headers::claims(headers), asked);
    match granted {
        Some(g) => query::kept_of(all, g),
        None => all,
    }
}

/// A credential only ever narrows what a query sees by: whatever is left was
/// claimed, and granted where grants are recorded, and without a credential
/// every claim is kept.
pub proof fn credentials_only_narrow(
    headers: Seq<(String, String)>,
    asked: Seq<Seq<char>>,
    granted: Option<Seq<Seq<char>>>,
    x: Seq<char>,
)
    ensures
        query_claims(headers, asked, granted).contains(x) ==> query_claims(
            headers,
            asked,
            None,
        ).contains(x) && (granted is Some ==> granted->Some_0.contains(x)),
        query_claims(headers, asked, None).contains(x) <==> headers::claims(headers).contains(x)
            || asked.contains(x),
{
    let all = headers::joined(headers::claims(headers), asked);
    headers::joining_keeps_both(headers::claims(headers), asked, x);
    let left = query_claims(headers, asked, granted);
    if left.contains(x) && granted is Some {
        let k = choose|k: int| 0 <= k < left.len() && left[k] == x;
        assert(left == query::resolved(all, true, granted));
        query::resolving_only_narrows(all, true, granted, k);
    }
}

/// What the sender of a query may see by.
pub fn query_authorizations(
    headers: &Vec<(String, String)>,
    asked: &Vec<String>,
    decision: &Decision,
) -> (r: Vec<String>)
    ensures
        text::texts(r@) == query_claims(
            headers@,
            text::texts(asked@),
            match decision.granted {
                Some(g) => Some(text::texts(g@)),
                None => None,
            },
        ),
{
    let all = headers::join(headers::auths_from_headers(headers), asked);
    match &decision.granted {
        Some(g) => query::narrow(&all, g.as_slice()),
        None => all,
    }
}

/// The database of a query that names none is the default.
pub fn query_database(db: Option<String>) -> (r: String)
    ensures
        r@ == match db {
            Some(d) => d@,
            None => crate::flight::DEFAULT_DATABASE@,
        },
{
    match db {
        Some(d) => d,
        None => crate::flight::DEFAULT_DATABASE.to_owned(),
    }
}

/// The refusal of a client with too many queries at once.
pub fn too_many_queries() -> (r: Refusal)
    ensures
        r@ == plain(429, crate::flight::TOO_MANY@),
{
    refuse(429, crate::flight::TOO_MANY)
}

// ------------------------------------------------------------------- the trail

/// The refusal where the audit trail cannot be written.
pub open spec fn no_trail() -> RefusalView {
    plain(503, "audit sink unavailable"@)
}

/// Refuses a change before it is made where the trail is known to be broken.
pub fn audit_gate(log: &AuditLog) -> (r: Option<Refusal>)
    ensures
        opt_view(r) == if log.healthy || log.fail_open {
            None
        } else {
            Some(no_trail())
        },
{
    match log.gate() {
        Ok(_) => None,
        Err(_) => Some(refuse(503, "audit sink unavailable")),
    }
}

/// Takes in how the record of a change was written. Where it was not, the
/// change is not answered as one that came about, unless the operator chose to
/// go on without a trail.
pub fn audit_record(
    log: &mut AuditLog,
    append: Append,
    rotated: bool,
    wrote: Result<(), String>,
) -> (r: Option<Refusal>)
    requires
        append.record.seq < u64::MAX,
        old(log).records_total < u64::MAX,
        (if rotated {
            0
        } else {
            old(log).sink.written as int
        }) + encode_utf8(append.line@).len() <= u64::MAX,
    ensures
        opt_view(r) == if wrote is Err && !old(log).fail_open {
            Some(no_trail())
        } else {
            None
        },
        final(log).healthy == (wrote is Ok),
        final(log).fail_open == old(log).fail_open,
        final(log).node == old(log).node,
        wrote is Err ==> final(log).sink == (AuditSink {
            written: if rotated {
                0
            } else {
                old(log).sink.written
            },
            ..old(log).sink
        }),
        wrote is Ok ==> final(log).sink.head@ == append.record.hash@
            && final(log).sink.next_seq == append.record.seq + 1 && final(log).records_total
            == old(log).records_total + 1 && final(log).sink.written == (if rotated {
            0
        } else {
            old(log).sink.written as int
        }) + encode_utf8(append.line@).len(),
        wrote is Err ==> final(log).records_total == old(log).records_total,
        final(log).sink.policy == old(log).sink.policy,
{
    let fail_open: bool = log.fail_open;
    match log.record(append, rotated, wrote) {
        Ok(_) => None,
        Err(_) => if fail_open {
            None
        } else {
            Some(refuse(503, "audit sink unavailable"))
        },
    }
}

/// A role does what needs itself or less: a viewer only what any may do, an
/// operator all but what needs an administrator, an administrator everything.
pub proof fn a_role_does_what_it_may(have: Role, needed: Role)
    ensures
        role_refusal(have, needed) is None <==> have == Role::Admin || needed == Role::Viewer || have
            == Role::Operator && needed == Role::Operator,
        role_refusal(have, needed) matches Some(r) ==> r.status == 403,
        admin_refusal(false, have) is None <==> have == Role::Admin,
{
}

/// An authorization header that says `Bearer` gives the token behind it.
pub proof fn a_bearer_token_is_read(headers: Seq<(String, String)>, t: Seq<char>)
    requires
        headers::header_of(headers, "authorization"@) == Some("Bearer "@ + t),
    ensures
        bearer_of(headers) == Some(t),
        session_token(headers) == Some(t),
{
    reveal_strlit("Bearer ");
    let v = "Bearer "@ + t;
    assert(v.skip(7) =~= t);
    assert(v.take(7) =~= "Bearer "@);
    assert(text::begins_with(v, "Bearer "@));
}

/// A request comes from another origin exactly if its origin, behind the two
/// slashes, is not the host that it asks for.
pub proof fn an_origin_is_its_host(headers: Seq<(String, String)>, scheme: Seq<char>, h: Seq<char>)
    requires
        headers::header_of(headers, "origin"@) == Some(scheme + seq!['/', '/'] + h),
        !h.contains('/'),
    ensures
        headers::header_of(headers, "host"@) matches Some(host) ==> host.len() > 0 ==> (cross_origin(
            headers,
        ) <==> h != host),
        headers::header_of(headers, "host"@) is None ==> !cross_origin(headers),
{
    let origin = scheme + seq!['/', '/'] + h;
    lemma_behind_slashes(origin, scheme.len() + 1int, origin.len() - 1);
    assert(origin.skip(scheme.len() + 2int) =~= h);
}

proof fn lemma_behind_slashes(s: Seq<char>, k: int, i: int)
    requires
        1 <= k <= i < s.len(),
        s[k - 1] == '/',
        s[k] == '/',
        forall|j: int| k < j < s.len() ==> #[trigger] s[j] != '/',
    ensures
        behind_slashes(s, i) == s.skip(k + 1),
    decreases i,
{
    if i > k {
        assert(s[i] != '/');
        lemma_behind_slashes(s, k, i - 1);
    }
}

/// What the guard lets through: a request that changes nothing, one with a
/// bearer token, or one with the session's token in its header and from its own
/// origin; and where the password must be changed, nothing but that.
pub proof fn the_guard_lets_through_what_is_shown_to_be_meant(
    must_change: bool,
    csrf: Seq<char>,
    method: Seq<char>,
    path: Seq<char>,
    headers: Seq<(String, String)>,
)
    ensures
        guard_refusal(must_change, csrf, method, path, headers) is None <==> (method == "GET"@
            || method == "HEAD"@ || bearer_of(headers) is Some || headers::header_of(
            headers,
            CSRF_HEADER@,
        ) == Some(csrf) && !cross_origin(headers)) && (!must_change || method == "POST"@ && path
            == "/admin/password"@),
        guard_refusal(must_change, csrf, method, path, headers) matches Some(r) ==> r.status == 403,
{
}

/// A refused credential is told why: one that is good, but not for this, is
/// forbidden, and any other is asked for, in the form of a bearer token.
pub proof fn a_refused_credential_is_asked_for(e: TokenError)
    ensures
        e == TokenError::Forbidden <==> denial(e).status == 403,
        e != TokenError::Forbidden <==> denial(e).status == 401,
        denial(e).status == 401 <==> denial(e).header is Some,
        denial(e).header matches Some(h) ==> h == (
            "www-authenticate"@,
            "Bearer realm=\"timelake\""@,
        ),
        denial(e).status == 403 ==> denial(e).code == Some("forbidden"@),
        denial(e).status == 401 ==> denial(e).code == Some("unauthenticated"@),
        denial(TokenError::Missing).message == "authentication required"@,
        denial(TokenError::Invalid).message == "invalid token"@,
        denial(TokenError::Forbidden).message == "token is not permitted to do that"@,
{
}

/// A refused write is told why, and whether it is worth trying again: only where a
/// limit is reached, after a second.
pub proof fn a_refused_write_is_told_when_to_try_again(e: WriteError, m: String)
    ensures
        write_refusal(WriteError::BadRequest(m)).status == 400,
        write_refusal(WriteError::Backpressure(m)).status == 429,
        write_refusal(WriteError::Internal(m)).status == 500,
        write_refusal(WriteError::NotHere(m)).status == 501,
        write_refusal(WriteError::BadRequest(m)).message == m@,
        write_refusal(WriteError::Backpressure(m)).message == m@,
        write_refusal(WriteError::Internal(m)).message == m@,
        write_refusal(WriteError::NotHere(m)).message == m@,
        e is Backpressure <==> write_refusal(e).header is Some,
        write_refusal(e).header matches Some(h) ==> h == ("retry-after"@, "1"@),
{
}

} // verus!
