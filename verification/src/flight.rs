//! The decisions behind a Flight SQL service: which database a call is about,
//! what its sender may see by, what a ticket says, what a stream of batches
//! puts into a table, and which status answers a failure.
pub mod doput;

use crate::auth::token;
use crate::auth::token::TokenError;
use crate::batch;
use crate::batch::Batch;
use crate::counter;
use crate::flight::doput::batch_to_rows;
use crate::headers;
use crate::ingest;
use crate::ingest::ParsedLine;
use crate::json;
use crate::json::Held;
use crate::query;
use crate::text;
use vstd::prelude::*;
use vstd::utf8::*;

verus! {

/// The one schema of each database.
pub const DB_SCHEMA: &'static str = "public";

/// The one kind of table.
pub const TABLE_TYPE: &'static str = "BASE TABLE";

/// The database of a call that names none.
pub const DEFAULT_DATABASE: &'static str = "poc";

/// What a client with too many queries at once is told.
pub const TOO_MANY: &'static str = "too many concurrent queries for this client (SEC-6)";

// ------------------------------------------------------------------- statuses

/// How a call failed.
#[derive(Debug, Clone, Copy, PartialEq, Eq, Structural)]
pub enum Code {
    InvalidArgument,
    Unauthenticated,
    PermissionDenied,
    ResourceExhausted,
    Internal,
}

/// The answer to a call that failed.
#[derive(Debug)]
pub struct Status {
    pub code: Code,
    pub message: String,
}

impl View for Status {
    type V = (Code, Seq<char>);

    open spec fn view(&self) -> (Code, Seq<char>) {
        (self.code, self.message@)
    }
}

fn status(code: Code, message: &str) -> (r: Status)
    ensures
        r@ == (code, message@),
{
    Status { code, message: message.to_owned() }
}

/// The status of a refused credential.
pub open spec fn denied(e: TokenError) -> (Code, Seq<char>) {
    (
        match e {
            TokenError::Forbidden => Code::PermissionDenied,
            _ => Code::Unauthenticated,
        },
        token::error_text(e),
    )
}

/// The status of a refused credential: one that is good for something else is
/// told so, and every other is asked for a better one.
pub fn deny(e: TokenError) -> (r: Status)
    ensures
        r@ == denied(e),
{
    let code = match e {
        TokenError::Forbidden => Code::PermissionDenied,
        _ => Code::Unauthenticated,
    };
    status(code, e.message())
}

/// A failed write.
#[derive(Debug)]
pub enum PutError {
    BadRequest(String),
    Backpressure(String),
    Internal(String),
}

/// The status of a failed write.
pub fn put_error_to_status(e: PutError) -> (r: Status)
    ensures
        r@ == match e {
            PutError::BadRequest(m) => (Code::InvalidArgument, m@),
            PutError::Backpressure(m) => (Code::ResourceExhausted, m@),
            PutError::Internal(m) => (Code::Internal, m@),
        },
{
    match e {
        PutError::BadRequest(message) => Status { code: Code::InvalidArgument, message },
        PutError::Backpressure(message) => Status { code: Code::ResourceExhausted, message },
        PutError::Internal(message) => Status { code: Code::Internal, message },
    }
}

// ------------------------------------------------------------------ connections

/// The identity of a peer that showed a certificate which was verified.
#[derive(Debug, Clone)]
pub struct PeerIdentity(pub Option<String>);

impl Default for PeerIdentity {
    fn default() -> (r: PeerIdentity)
        ensures
            r.0 is None,
    {
        PeerIdentity(None)
    }
}

/// How many connections came with a certificate and how many without one.
#[derive(Debug)]
pub struct ClientAuthCounts {
    pub authenticated: u64,
    pub anonymous: u64,
}

impl Default for ClientAuthCounts {
    fn default() -> (r: ClientAuthCounts)
        ensures
            r.authenticated == 0,
            r.anonymous == 0,
    {
        ClientAuthCounts { authenticated: 0, anonymous: 0 }
    }
}

impl ClientAuthCounts {
    /// Counts a connection.
    pub fn connected(&mut self, peer: &PeerIdentity)
        ensures
            final(self).authenticated == (if peer.0 is Some {
                counter::one_more(old(self).authenticated)
            } else {
                old(self).authenticated
            }),
            final(self).anonymous == (if peer.0 is Some {
                old(self).anonymous
            } else {
                counter::one_more(old(self).anonymous)
            }),
    {
        if peer.0.is_some() {
            self.authenticated = counter::up(self.authenticated);
        } else {
            self.anonymous = counter::up(self.anonymous);
        }
    }
}

// -------------------------------------------------------------------- databases

/// A header that is there and not empty.
pub open spec fn filled(headers: Seq<(String, String)>, name: Seq<char>) -> Option<Seq<char>> {
    match headers::header_of(headers, name) {
        Some(v) => if v.len() > 0 {
            Some(v)
        } else {
            None
        },
        None => None,
    }
}

/// The database that the headers of a call name: the first that is filled of
/// the four that name one.
pub open spec fn database_of(headers: Seq<(String, String)>) -> Seq<char> {
    match (
        filled(headers, "database"@),
        filled(headers, "bucket-name"@),
        filled(headers, "bucket"@),
        filled(headers, "db"@),
    ) {
        (Some(v), _, _, _) => v,
        (None, Some(v), _, _) => v,
        (None, None, Some(v), _) => v,
        (None, None, None, Some(v)) => v,
        _ => DEFAULT_DATABASE@,
    }
}

fn read_filled(headers: &Vec<(String, String)>, name: &str) -> (r: Option<String>)
    ensures
        batch::opt_text(r) == filled(headers@, name@),
{
    match headers::header(headers, name) {
        Some(v) => if v.as_str().unicode_len() > 0 {
            Some(v)
        } else {
            None
        },
        None => None,
    }
}

/// The database that the headers of a call name.
pub fn db_from_metadata(headers: &Vec<(String, String)>) -> (r: String)
    ensures
        r@ == database_of(headers@),
{
    if let Some(v) = read_filled(headers, "database") {
        return v;
    }
    if let Some(v) = read_filled(headers, "bucket-name") {
        return v;
    }
    if let Some(v) = read_filled(headers, "bucket") {
        return v;
    }
    if let Some(v) = read_filled(headers, "db") {
        return v;
    }
    DEFAULT_DATABASE.to_owned()
}

/// A name that a command gives, unless it gives an empty one or none.
pub open spec fn named_or(name: Option<Seq<char>>, other: Seq<char>) -> Seq<char> {
    match name {
        Some(n) => if n.len() > 0 {
            n
        } else {
            other
        },
        None => other,
    }
}

/// The database whose tables are listed: the catalog that the command names,
/// else the database of the call.
pub fn listed_database(catalog: Option<String>, headers: &Vec<(String, String)>) -> (r: String)
    ensures
        r@ == named_or(batch::opt_text(catalog), database_of(headers@)),
{
    match catalog {
        Some(c) => if c.as_str().unicode_len() > 0 {
            c
        } else {
            db_from_metadata(headers)
        },
        None => db_from_metadata(headers),
    }
}

/// The database that rows are put into: the schema that the command names, else
/// the catalog where it names no schema at all, else the database of the call.
pub fn put_database(
    schema: Option<String>,
    catalog: Option<String>,
    headers: &Vec<(String, String)>,
) -> (r: String)
    ensures
        r@ == named_or(
            if schema is Some {
                batch::opt_text(schema)
            } else {
                batch::opt_text(catalog)
            },
            database_of(headers@),
        ),
{
    match schema {
        Some(s) => listed_database(Some(s), headers),
        None => listed_database(catalog, headers),
    }
}

// --------------------------------------------------------------- authorizations

/// What a sender may see by: what it claims, narrowed to what its credential is
/// granted where grants are recorded. A refused credential ends the call.
pub open spec fn allowed(
    granted: Result<Option<Seq<Seq<char>>>, TokenError>,
    claimed: Seq<Seq<char>>,
) -> Result<Seq<Seq<char>>, (Code, Seq<char>)> {
    match granted {
        Err(e) => Err(denied(e)),
        Ok(Some(g)) => Ok(query::kept_of(claimed, g)),
        Ok(None) => Ok(claimed),
    }
}

/// The texts of what a credential is granted.
pub open spec fn granted_texts(g: Result<Option<Vec<String>>, TokenError>) -> Result<
    Option<Seq<Seq<char>>>,
    TokenError,
> {
    match g {
        Ok(Some(v)) => Ok(Some(text::texts(v@))),
        Ok(None) => Ok(None),
        Err(e) => Err(e),
    }
}

/// What a sender may see by, given what came of its credential.
pub fn resolve_auths(
    granted: Result<Option<Vec<String>>, TokenError>,
    claimed: Vec<String>,
) -> (r: Result<Vec<String>, Status>)
    ensures
        match (r, allowed(granted_texts(granted), text::texts(claimed@))) {
            (Ok(v), Ok(w)) => text::texts(v@) == w,
            (Err(s), Err(t)) => s@ == t,
            _ => false,
        },
{
    match granted {
        Err(e) => Err(deny(e)),
        Ok(Some(g)) => Ok(query::narrow(&claimed, g.as_slice())),
        Ok(None) => Ok(claimed),
    }
}

/// Narrowing a second time changes nothing.
pub proof fn narrowing_twice_changes_nothing(claimed: Seq<Seq<char>>, granted: Seq<Seq<char>>)
    ensures
        query::kept_of(query::kept_of(claimed, granted), granted) == query::kept_of(
            claimed,
            granted,
        ),
    decreases claimed.len(),
{
    if claimed.len() > 0 {
        narrowing_twice_changes_nothing(claimed.drop_last(), granted);
        let p = query::kept_of(claimed.drop_last(), granted);
        if granted.contains(claimed.last()) {
            let q = p.push(claimed.last());
            assert(q.drop_last() =~= p);
        }
    }
}

// ---------------------------------------------------------------------- tickets

/// What a ticket says of a statement that is planned.
pub open spec fn ticket_text(db: Seq<char>, sql: Seq<char>, auths: Seq<Seq<char>>) -> Seq<char> {
    "{\"auths\":["@ + json::json_items(auths) + "],\"db\":"@ + json::json_text(db) + ",\"sql\":"@
        + json::json_text(sql) + "}"@
}

/// The ticket of a statement that is planned.
pub fn statement_handle(db: &str, sql: &str, auths: &Vec<String>) -> (r: String)
    ensures
        r@ == ticket_text(db@, sql@, text::texts(auths@)),
{
    let mut s = String::new();
    json::put_list(&mut s, "{\"auths\":[", auths);
    json::put_text(&mut s, "],\"db\":", db);
    json::put_text(&mut s, ",\"sql\":", sql);
    s.append("}");
    s
}

/// What stands in a ticket: its database and its statement where they are
/// strings, and of its list of authorizations each that is a string.
#[derive(Debug)]
pub struct TicketParts {
    pub db: Option<String>,
    pub sql: Option<String>,
    pub auths: Vec<Option<String>>,
}

/// The texts that stand in a ticket.
#[verifier::ext_equal]
pub struct TicketView {
    pub db: Option<Seq<char>>,
    pub sql: Option<Seq<char>>,
    pub auths: Seq<Option<Seq<char>>>,
}

impl View for TicketParts {
    type V = TicketView;

    open spec fn view(&self) -> TicketView {
        TicketView {
            db: batch::opt_text(self.db),
            sql: batch::opt_text(self.sql),
            auths: json::opt_texts(self.auths@),
        }
    }
}

/// The texts of what was read of a ticket.
pub open spec fn read_view(r: Result<TicketParts, String>) -> Result<TicketView, Seq<char>> {
    match r {
        Ok(p) => Ok(p@),
        Err(m) => Err(m@),
    }
}

/// The parts of a ticket that says what it should.
pub open spec fn written_parts(db: Seq<char>, sql: Seq<char>, auths: Seq<Seq<char>>) -> Result<
    TicketView,
    Seq<char>,
> {
    Ok(
        TicketView {
            db: Some(db),
            sql: Some(sql),
            auths: auths.map_values(|a: Seq<char>| Some(a)),
        },
    )
}

/// The member of a ticket that names the database.
pub const TICKET_DB: &'static str = "/db";

/// The member of a ticket that holds the statement.
pub const TICKET_SQL: &'static str = "/sql";

/// The member of a ticket that lists the authorizations.
pub const TICKET_AUTHS: &'static str = "/auths";

/// The parts of a ticket: of JSON the texts of its members, and no
/// authorizations where those are no list; or why it is no JSON.
pub open spec fn ticket_parts(handle: Seq<u8>) -> Result<TicketView, Seq<char>> {
    match json::text_at(handle, TICKET_SQL@) {
        Err(m) => Err(m),
        Ok(sql) => match json::text_at(handle, TICKET_DB@) {
            Err(m) => Err(m),
            Ok(db) => match json::list_at(handle, TICKET_AUTHS@, ""@) {
                Err(m) => Err(m),
                Ok(auths) => Ok(
                    TicketView {
                        db,
                        sql,
                        auths: match auths {
                            Some(l) => l,
                            None => Seq::empty(),
                        },
                    },
                ),
            },
        },
    }
}

/// The members of a ticket.
pub open spec fn ticket_members(db: Seq<char>, sql: Seq<char>, auths: Seq<Seq<char>>) -> Seq<
    (Seq<char>, Held),
> {
    seq![("auths"@, Held::Texts(auths)), ("db"@, Held::Text(db)), ("sql"@, Held::Text(sql))]
}

proof fn lemma_ticket_is_object(db: Seq<char>, sql: Seq<char>, auths: Seq<Seq<char>>)
    ensures
        ticket_text(db, sql, auths) == json::object_text(ticket_members(db, sql, auths)),
        json::plainly_named(ticket_members(db, sql, auths)),
        TICKET_AUTHS@ == "/"@ + ticket_members(db, sql, auths)[0].0,
        TICKET_DB@ == "/"@ + ticket_members(db, sql, auths)[1].0,
        TICKET_SQL@ == "/"@ + ticket_members(db, sql, auths)[2].0,
{
    reveal_strlit("{\"auths\":[");
    reveal_strlit("],\"db\":");
    reveal_strlit(",\"sql\":");
    reveal_strlit("auths");
    reveal_strlit("db");
    reveal_strlit("sql");
    reveal_strlit("/auths");
    reveal_strlit("/db");
    reveal_strlit("/sql");
    reveal_strlit("/");
    reveal_strlit("{");
    reveal_strlit("[");
    reveal_strlit("]");
    reveal_strlit(",");
    reveal_strlit("\"");
    reveal_strlit("\":");
    let m = ticket_members(db, sql, auths);
    let one = seq![m[0]];
    let two = seq![m[0], m[1]];
    assert(m.drop_last() =~= two);
    assert(two.drop_last() =~= one);
    assert(json::members_text(one) == "\""@ + m[0].0 + "\":"@ + json::held_text(m[0].1));
    assert(json::members_text(two) == json::members_text(one) + ","@ + ("\""@ + m[1].0 + "\":"@
        + json::held_text(m[1].1)));
    assert(json::members_text(m) == json::members_text(two) + ","@ + ("\""@ + m[2].0 + "\":"@
        + json::held_text(m[2].1)));
    assert(ticket_text(db, sql, auths) =~= json::object_text(m));
    assert(TICKET_AUTHS@ =~= "/"@ + m[0].0);
    assert(TICKET_DB@ =~= "/"@ + m[1].0);
    assert(TICKET_SQL@ =~= "/"@ + m[2].0);
}

fn read_ticket(handle: &[u8]) -> (r: Result<TicketParts, String>)
    ensures
        read_view(r) == ticket_parts(handle@),
        forall|db: Seq<char>, sql: Seq<char>, auths: Seq<Seq<char>>|
            handle@ == encode_utf8(#[trigger] ticket_text(db, sql, auths)) ==> read_view(r)
                == written_parts(db, sql, auths),
{
    let sql = json::read_text(handle, TICKET_SQL);
    let db = json::read_text(handle, TICKET_DB);
    let auths = json::read_list(handle, TICKET_AUTHS, "");
    proof {
        reveal_strlit("");
        let s = json::read_text_view(sql);
        let d = json::read_text_view(db);
        let a = json::read_list_view(auths);
        assert forall|d0: Seq<char>, s0: Seq<char>, a0: Seq<Seq<char>>|
            handle@ == encode_utf8(#[trigger] ticket_text(d0, s0, a0)) implies s == Ok::<
            Option<Seq<char>>,
            Seq<char>,
        >(Some(s0)) && d == Ok::<Option<Seq<char>>, Seq<char>>(Some(d0)) && a == Ok::<
            Option<Seq<Option<Seq<char>>>>,
            Seq<char>,
        >(Some(a0.map_values(|t: Seq<char>| Some(t)))) by {
            lemma_ticket_is_object(d0, s0, a0);
            let m = ticket_members(d0, s0, a0);
            assert(m[0].1 == Held::Texts(a0));
            assert(m[1].1 == Held::Text(d0));
            assert(m[2].1 == Held::Text(s0));
        }
    }
    let sql = match sql {
        Ok(t) => t,
        Err(m) => {
            return Err(m);
        },
    };
    let db = match db {
        Ok(t) => t,
        Err(m) => {
            return Err(m);
        },
    };
    let auths = match auths {
        Ok(Some(l)) => l,
        Ok(None) => {
            let none: Vec<Option<String>> = Vec::new();
            assert(json::opt_texts(none@) =~= Seq::empty());
            none
        },
        Err(m) => {
            return Err(m);
        },
    };
    Ok(TicketParts { db, sql, auths })
}

/// A statement to run: where, what, and what its sender claims to see by.
#[derive(Debug)]
pub struct Statement {
    pub db: String,
    pub sql: String,
    pub auths: Vec<String>,
}

/// The texts of a statement.
#[verifier::ext_equal]
pub struct StatementView {
    pub db: Seq<char>,
    pub sql: Seq<char>,
    pub auths: Seq<Seq<char>>,
}

impl View for Statement {
    type V = StatementView;

    open spec fn view(&self) -> StatementView {
        StatementView { db: self.db@, sql: self.sql@, auths: text::texts(self.auths@) }
    }
}

/// Those of a list that are there.
pub open spec fn present(v: Seq<Option<Seq<char>>>) -> Seq<Seq<char>>
    decreases v.len(),
{
    if v.len() == 0 {
        Seq::empty()
    } else {
        match v.last() {
            Some(t) => present(v.drop_last()).push(t),
            None => present(v.drop_last()),
        }
    }
}

/// The statement of a ticket: its parts, with what the call itself claims
/// besides. A ticket that is no JSON, or that holds no statement, is refused.
pub open spec fn stated(
    parts: Result<TicketView, Seq<char>>,
    claimed: Seq<Seq<char>>,
) -> Result<StatementView, (Code, Seq<char>)> {
    match parts {
        Err(m) => Err((Code::InvalidArgument, "bad ticket: "@ + m)),
        Ok(p) => match p.sql {
            None => Err((Code::InvalidArgument, "ticket missing sql"@)),
            Some(sql) => Ok(
                StatementView {
                    db: match p.db {
                        Some(db) => db,
                        None => DEFAULT_DATABASE@,
                    },
                    sql,
                    auths: headers::joined(present(p.auths), claimed),
                },
            ),
        },
    }
}

/// Whether a result is the statement or the refusal that it should be.
pub open spec fn gives(
    r: Result<Statement, Status>,
    s: Result<StatementView, (Code, Seq<char>)>,
) -> bool {
    match (r, s) {
        (Ok(a), Ok(b)) => a@ == b,
        (Err(a), Err(b)) => a@ == b,
        _ => false,
    }
}

fn those_present(v: &Vec<Option<String>>) -> (r: Vec<String>)
    ensures
        text::texts(r@) == present(json::opt_texts(v@)),
{
    let ghost all = json::opt_texts(v@);
    let mut out: Vec<String> = Vec::new();
    let mut i: usize = 0;
    assert(all.take(0) =~= Seq::empty());
    assert(text::texts(out@) =~= Seq::empty());
    while i < v.len()
        invariant
            i <= v.len(),
            all == json::opt_texts(v@),
            text::texts(out@) == present(all.take(i as int)),
        decreases v.len() - i,
    {
        let ghost before = out@;
        assert(all.take(i + 1).drop_last() =~= all.take(i as int));
        assert(all.take(i + 1).last() == batch::opt_text(v@[i as int]));
        match &v[i] {
            Some(t) => {
                out.push(t.clone());
                assert(text::texts(out@) =~= text::texts(before).push(t@));
            },
            None => {},
        }
        i += 1;
    }
    assert(all.take(all.len() as int) =~= all);
    out
}

/// The statement of a ticket, given what was read of it.
pub fn statement_of(parts: Result<TicketParts, String>, claimed: &Vec<String>) -> (r: Result<
    Statement,
    Status,
>)
    ensures
        gives(r, stated(read_view(parts), text::texts(claimed@))),
{
    let parts = match parts {
        Ok(p) => p,
        Err(m) => {
            let mut s = "bad ticket: ".to_owned();
            s.append(m.as_str());
            return Err(Status { code: Code::InvalidArgument, message: s });
        },
    };
    let sql = match parts.sql {
        Some(s) => s,
        None => {
            return Err(status(Code::InvalidArgument, "ticket missing sql"));
        },
    };
    let db = match parts.db {
        Some(d) => d,
        None => DEFAULT_DATABASE.to_owned(),
    };
    let auths = headers::join(those_present(&parts.auths), claimed);
    Ok(Statement { db, sql, auths })
}

proof fn lemma_all_present(auths: Seq<Seq<char>>)
    ensures
        present(auths.map_values(|a: Seq<char>| Some(a))) == auths,
    decreases auths.len(),
{
    let v = auths.map_values(|a: Seq<char>| Some(a));
    if auths.len() > 0 {
        lemma_all_present(auths.drop_last());
        assert(v.drop_last() =~= auths.drop_last().map_values(|a: Seq<char>| Some(a)));
        assert(auths.drop_last().push(auths.last()) =~= auths);
    } else {
        assert(auths =~= Seq::empty());
    }
}

/// The statement of a ticket. A ticket that a planned statement was given runs
/// that statement, by what was resolved when it was planned and by what the
/// call claims besides; what comes of it is resolved once more.
pub fn open_ticket(handle: &Vec<u8>, headers: &Vec<(String, String)>) -> (r: Result<
    Statement,
    Status,
>)
    ensures
        if valid_utf8(handle@) {
            gives(r, stated(ticket_parts(handle@), headers::claims(headers@)))
        } else {
            gives(r, Err((Code::InvalidArgument, "ticket is not utf-8"@)))
        },
        forall|db: Seq<char>, sql: Seq<char>, auths: Seq<Seq<char>>|
            handle@ == encode_utf8(#[trigger] ticket_text(db, sql, auths)) ==> gives(
                r,
                Ok(
                    StatementView {
                        db,
                        sql,
                        auths: headers::joined(auths, headers::claims(headers@)),
                    },
                ),
            ),
{
    let claimed = headers::auths_from_headers(headers);
    if text::text_of_bytes(handle.as_slice()).is_none() {
        proof {
            assert forall|db: Seq<char>, sql: Seq<char>, auths: Seq<Seq<char>>|
                handle@ != encode_utf8(#[trigger] ticket_text(db, sql, auths)) by {
                encode_utf8_valid_utf8(ticket_text(db, sql, auths));
            }
        }
        return Err(status(Code::InvalidArgument, "ticket is not utf-8"));
    }
    let parts = read_ticket(handle.as_slice());
    let ghost read = read_view(parts);
    let r = statement_of(parts, &claimed);
    proof {
        assert forall|db: Seq<char>, sql: Seq<char>, auths: Seq<Seq<char>>|
            handle@ == encode_utf8(#[trigger] ticket_text(db, sql, auths)) implies gives(
            r,
            Ok(
                StatementView {
                    db,
                    sql,
                    auths: headers::joined(auths, headers::claims(headers@)),
                },
            ),
        ) by {
            assert(read == written_parts(db, sql, auths));
            lemma_all_present(auths);
        }
    }
    r
}

// -------------------------------------------------------------------- putting

/// Whether rows may be put into a table of a name.
pub fn check_put_table(table: &str) -> (r: Result<(), Status>)
    ensures
        match r {
            Ok(_) => table@.len() > 0,
            Err(s) => table@.len() == 0 && s@ == (
                Code::InvalidArgument,
                "CommandStatementIngest.table is required"@,
            ),
        },
{
    if table.unicode_len() == 0 {
        Err(status(Code::InvalidArgument, "CommandStatementIngest.table is required"))
    } else {
        Ok(())
    }
}

/// What a stream holds, batch by batch.
pub open spec fn batch_views(v: Seq<Batch>) -> Seq<batch::BatchView> {
    v.map_values(|b: Batch| b@)
}

/// The rows of all batches of a stream, or why the first that is refused is: no
/// row of a stream is put where one batch of it is refused.
pub open spec fn stream_rows(table: Seq<char>, batches: Seq<batch::BatchView>) -> Result<
    Seq<ingest::LineView>,
    Seq<char>,
>
    decreases batches.len(),
{
    if batches.len() == 0 {
        Ok(Seq::empty())
    } else {
        match stream_rows(table, batches.drop_last()) {
            Err(m) => Err(m),
            Ok(done) => match doput::put_rows(table, batches.last()) {
                Err(m) => Err(m),
                Ok(rows) => Ok(done + rows),
            },
        }
    }
}

proof fn lemma_refusal_stays(table: Seq<char>, batches: Seq<batch::BatchView>, k: int)
    requires
        0 <= k <= batches.len(),
        stream_rows(table, batches.take(k)) is Err,
    ensures
        stream_rows(table, batches) == stream_rows(table, batches.take(k)),
    decreases batches.len() - k,
{
    if k < batches.len() {
        assert(batches.take(k + 1).drop_last() =~= batches.take(k));
        lemma_refusal_stays(table, batches, k + 1);
    } else {
        assert(batches.take(k) =~= batches);
    }
}

/// The rows that a stream of batches puts into a table.
pub fn rows_to_put(table: &str, batches: &Vec<Batch>) -> (r: Result<Vec<ParsedLine>, Status>)
    requires
        forall|i: int|
            0 <= i < batches@.len() ==> (#[trigger] batches@[i])@.well_formed()
                && batch::floats_in_bits(batches@[i]@),
    ensures
        match (r, stream_rows(table@, batch_views(batches@))) {
            (Ok(rows), Ok(views)) => ingest::row_views(rows@) == views,
            (Err(s), Err(m)) => s@ == (Code::InvalidArgument, m),
            _ => false,
        },
{
    let ghost all = batch_views(batches@);
    let mut out: Vec<ParsedLine> = Vec::new();
    let mut i: usize = 0;
    assert(all.take(0) =~= Seq::empty());
    assert(ingest::row_views(out@) =~= Seq::empty());
    while i < batches.len()
        invariant
            i <= batches.len(),
            all == batch_views(batches@),
            forall|k: int|
                0 <= k < batches@.len() ==> (#[trigger] batches@[k])@.well_formed()
                    && batch::floats_in_bits(batches@[k]@),
            stream_rows(table@, all.take(i as int)) == Ok::<Seq<ingest::LineView>, Seq<char>>(
                ingest::row_views(out@),
            ),
        decreases batches.len() - i,
    {
        let ghost before = out@;
        assert(all.take(i + 1).drop_last() =~= all.take(i as int));
        assert(all.take(i + 1).last() == batches@[i as int]@);
        match batch_to_rows(table, &batches[i]) {
            Ok(rows) => {
                let mut more = rows;
                let ghost added = more@;
                out.append(&mut more);
                assert(ingest::row_views(out@) =~= ingest::row_views(before) + ingest::row_views(
                    added,
                ));
            },
            Err(m) => {
                proof {
                    lemma_refusal_stays(table@, all, i + 1);
                }
                return Err(Status { code: Code::InvalidArgument, message: m });
            },
        }
        i += 1;
    }
    assert(all.take(all.len() as int) =~= all);
    Ok(out)
}

/// A ticket that was written for a statement gives the statement back: its
/// database, its text, and its authorizations with those of the caller behind
/// them.
pub proof fn a_ticket_gives_its_statement(
    db: Seq<char>,
    sql: Seq<char>,
    auths: Seq<Seq<char>>,
    claimed: Seq<Seq<char>>,
)
    ensures
        stated(written_parts(db, sql, auths), claimed) == Ok::<StatementView, (Code, Seq<char>)>(
            StatementView { db, sql, auths: headers::joined(auths, claimed) },
        ),
{
    lemma_all_present(auths);
}

/// The database of a call is what the first of its four headers says that says
/// anything, and the default where none does.
pub proof fn the_first_header_that_says_so_names_the_database(headers: Seq<(String, String)>)
    ensures
        forall|v: Seq<char>|
            v.len() > 0 && #[trigger] headers::header_of(headers, "database"@) == Some(v)
                ==> database_of(headers) == v,
        forall|v: Seq<char>|
            v.len() > 0 && headers::header_of(headers, "database"@) is None
                && #[trigger] headers::header_of(headers, "bucket-name"@) == Some(v)
                ==> database_of(headers) == v,
        forall|v: Seq<char>|
            v.len() > 0 && headers::header_of(headers, "database"@) is None && headers::header_of(
                headers,
                "bucket-name"@,
            ) is None && #[trigger] headers::header_of(headers, "bucket"@) == Some(v)
                ==> database_of(headers) == v,
        forall|v: Seq<char>|
            v.len() > 0 && headers::header_of(headers, "database"@) is None && headers::header_of(
                headers,
                "bucket-name"@,
            ) is None && headers::header_of(headers, "bucket"@) is None
                && #[trigger] headers::header_of(headers, "db"@) == Some(v) ==> database_of(headers)
                == v,
        headers::header_of(headers, "database"@) is None && headers::header_of(
            headers,
            "bucket-name"@,
        ) is None && headers::header_of(headers, "bucket"@) is None && headers::header_of(
            headers,
            "db"@,
        ) is None ==> database_of(headers) == DEFAULT_DATABASE@,
{
}

/// A stream is put whole or not at all: its rows are those of its batches, one
/// batch behind the other, and it is refused exactly if one of them is, as the
/// first of these.
pub proof fn a_stream_is_put_whole_or_not_at_all(
    table: Seq<char>,
    front: Seq<batch::BatchView>,
    back: Seq<batch::BatchView>,
    b: batch::BatchView,
)
    ensures
        stream_rows(table, seq![b]) == doput::put_rows(table, b),
        stream_rows(table, front) is Err ==> stream_rows(table, front + back) == stream_rows(
            table,
            front,
        ),
        stream_rows(table, front) is Ok && stream_rows(table, back) is Err ==> stream_rows(
            table,
            front + back,
        ) == stream_rows(table, back),
        stream_rows(table, front) is Ok && stream_rows(table, back) is Ok ==> stream_rows(
            table,
            front + back,
        ) == Ok::<Seq<ingest::LineView>, Seq<char>>(
            stream_rows(table, front)->Ok_0 + stream_rows(table, back)->Ok_0,
        ),
    decreases back.len(),
{
    let one = seq![b];
    assert(one.drop_last() =~= Seq::empty());
    assert(stream_rows(table, one.drop_last()) == Ok::<Seq<ingest::LineView>, Seq<char>>(
        Seq::empty(),
    ));
    if let Ok(rows) = doput::put_rows(table, b) {
        assert(Seq::empty() + rows =~= rows);
    }
    if back.len() == 0 {
        assert(front + back =~= front);
        if let Ok(rows) = stream_rows(table, front) {
            assert(rows + Seq::empty() =~= rows);
        }
    } else {
        let init = back.drop_last();
        a_stream_is_put_whole_or_not_at_all(table, front, init, b);
        assert((front + back).drop_last() =~= front + init);
        assert((front + back).last() == back.last());
        if stream_rows(table, front) is Ok && stream_rows(table, init) is Ok {
            if let Ok(rows) = doput::put_rows(table, back.last()) {
                let x = stream_rows(table, front)->Ok_0;
                let y = stream_rows(table, init)->Ok_0;
                assert((x + y) + rows =~= x + (y + rows));
            }
        }
    }
}

/// A sender sees by what it claims, and where grants are recorded of its
/// credential, by no more of it than is granted; a credential that does not
/// permit is told apart from one that is not known.
pub proof fn a_sender_sees_by_what_it_claims_and_is_granted(
    claimed: Seq<Seq<char>>,
    g: Seq<Seq<char>>,
    e: TokenError,
)
    ensures
        allowed(Ok(None), claimed) == Ok::<Seq<Seq<char>>, (Code, Seq<char>)>(claimed),
        allowed(Ok(Some(g)), claimed) == Ok::<Seq<Seq<char>>, (Code, Seq<char>)>(
            claimed.filter(|a: Seq<char>| g.contains(a)),
        ),
        allowed(Err(e), claimed) is Err,
        e == TokenError::Forbidden <==> allowed(Err(e), claimed)->Err_0.0 == Code::PermissionDenied,
        e != TokenError::Forbidden <==> allowed(Err(e), claimed)->Err_0.0 == Code::Unauthenticated,
{
    query::an_identity_keeps_what_is_granted(claimed, true, Some(g));
}

} // verus!
