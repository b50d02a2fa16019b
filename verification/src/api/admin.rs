//! The rest of the console: the last-value cache, the settings, deletions,
//! tokens, grants to certificates, passwords, the log and the audit trail.
use crate::api;
use crate::api::changes::{Mutation, MutationView, Operation};
use crate::api::retention;
use crate::api::retention::scope;
use crate::api::rollups;
use crate::api::rollups::admin_gate;
use crate::api::{audit_gate, refuse, refuse_with, require, Refusal, RefusalView};
use crate::audit;
use crate::audit::{AuditLog, AuditRecord};
use crate::auth::token;
use crate::auth::token::{Scope, TokenRecord};
use crate::auth::{Role, SessionInfo};
use crate::batch;
use crate::config;
use crate::json;
use crate::text;
use vstd::prelude::*;

verus! {

/// Whether a result is the change or the refusal that it should be.
pub open spec fn gives(r: Result<Mutation, Refusal>, v: Result<MutationView, RefusalView>) -> bool {
    match (r, v) {
        (Ok(m), Ok(w)) => m@ == w,
        (Err(f), Err(g)) => f@ == g,
        _ => false,
    }
}

// ------------------------------------------------------- the last-value cache

/// A table that is to be cached, or not any more.
#[derive(Debug)]
pub struct LastCacheSet {
    pub db: String,
    pub table: String,
}

/// What an operator's change meets: the role, then the trail.
pub open spec fn operator_refusal(role: Role, trail: bool) -> Option<RefusalView> {
    match api::role_refusal(role, Role::Operator) {
        Some(f) => Some(f),
        None => if trail {
            None
        } else {
            Some(api::no_trail())
        },
    }
}

fn operator_gate(session: &SessionInfo, log: &AuditLog) -> (r: Option<Refusal>)
    ensures
        api::opt_view(r) == operator_refusal(session.role, log.healthy || log.fail_open),
{
    match require(session, Role::Operator) {
        Some(f) => Some(f),
        None => audit_gate(log),
    }
}

/// A change to whether a table is cached.
pub open spec fn cache_change(op: Operation, db: Seq<char>, table: Seq<char>) -> MutationView {
    MutationView {
        op,
        target: Some(retention::scoped(db, table)),
        before: None,
        after: None,
    }
}

/// What is decided of a table that is to be cached.
pub open spec fn cache_decided(
    role: Role,
    trail: bool,
    db: Seq<char>,
    table: Seq<char>,
) -> Result<MutationView, RefusalView> {
    if rollups::blank(db) || rollups::blank(table) {
        Err(api::plain(400, "db and table must not be empty"@))
    } else {
        match operator_refusal(role, trail) {
            Some(f) => Err(f),
            None => Ok(
                cache_change(
                    Operation::LastCacheEnable,
                    text::trimmed(db),
                    text::trimmed(table),
                ),
            ),
        }
    }
}

/// Decides on a table that is to be cached. `body` is what is asked for, or why
/// it cannot be read.
pub fn last_cache_set(session: &SessionInfo, log: &AuditLog, body: Result<LastCacheSet, String>)
    -> (r: Result<Mutation, Refusal>)
    ensures
        gives(
            r,
            match body {
                Err(m) => Err(api::plain(400, m@)),
                Ok(s) => cache_decided(session.role, log.healthy || log.fail_open, s.db@, s.table@),
            },
        ),
{
    let set = match body {
        Ok(s) => s,
        Err(m) => {
            return Err(refuse_with(400, m));
        },
    };
    let db = text::trim(set.db.as_str());
    let table = text::trim(set.table.as_str());
    if db.as_str().unicode_len() == 0 || table.as_str().unicode_len() == 0 {
        return Err(refuse(400, "db and table must not be empty"));
    }
    if let Some(f) = operator_gate(session, log) {
        return Err(f);
    }
    Ok(
        Mutation {
            op: Operation::LastCacheEnable,
            target: Some(scope(db.as_str(), table.as_str())),
            before: None,
            after: None,
        },
    )
}

/// Decides on a table that is not to be cached any more.
pub fn last_cache_delete(session: &SessionInfo, log: &AuditLog, db: &str, table: &str) -> (r:
    Result<Mutation, Refusal>)
    ensures
        gives(
            r,
            match operator_refusal(session.role, log.healthy || log.fail_open) {
                Some(f) => Err(f),
                None => Ok(cache_change(Operation::LastCacheDisable, db@, table@)),
            },
        ),
{
    if let Some(f) = operator_gate(session, log) {
        return Err(f);
    }
    Ok(
        Mutation {
            op: Operation::LastCacheDisable,
            target: Some(scope(db, table)),
            before: None,
            after: None,
        },
    )
}

// ------------------------------------------------------------------ the settings

/// A value that is asked for, by what it is in JSON.
#[derive(Debug)]
pub enum ConfigValue {
    Null,
    Text(String),
    /// A number as it is written.
    Number(String),
    Bool(bool),
    Other,
}

/// The text that a value is set as; nothing stands for none.
pub open spec fn value_text(v: ConfigValue) -> Result<Option<Seq<char>>, Seq<char>> {
    match v {
        ConfigValue::Null => Ok(None),
        ConfigValue::Text(s) => Ok(Some(s@)),
        ConfigValue::Number(s) => Ok(Some(s@)),
        ConfigValue::Bool(b) => Ok(
            Some(
                if b {
                    "true"@
                } else {
                    "false"@
                },
            ),
        ),
        ConfigValue::Other => Err("value must be a string, number, boolean, or null"@),
    }
}

/// The text that a value is set as.
pub fn config_value_text(v: ConfigValue) -> (r: Result<Option<String>, String>)
    ensures
        match (r, value_text(v)) {
            (Ok(a), Ok(b)) => batch::opt_text(a) == b,
            (Err(m), Err(t)) => m@ == t,
            _ => false,
        },
{
    match v {
        ConfigValue::Null => Ok(None),
        ConfigValue::Text(s) => Ok(Some(s)),
        ConfigValue::Number(s) => Ok(Some(s)),
        ConfigValue::Bool(b) => if b {
            Ok(Some("true".to_owned()))
        } else {
            Ok(Some("false".to_owned()))
        },
        ConfigValue::Other => Err("value must be a string, number, boolean, or null".to_owned()),
    }
}

/// The role of a session that a setting asks for.
pub open spec fn role_of(r: config::Role) -> Role {
    match r {
        config::Role::Viewer => Role::Viewer,
        config::Role::Operator => Role::Operator,
        config::Role::Admin => Role::Admin,
    }
}

/// The role of a session that a setting asks for.
pub fn config_role(r: config::Role) -> (out: Role)
    ensures
        out == role_of(r),
{
    match r {
        config::Role::Viewer => Role::Viewer,
        config::Role::Operator => Role::Operator,
        config::Role::Admin => Role::Admin,
    }
}

/// The refusal of a setting that is not known.
pub open spec fn unknown_setting(key: Seq<char>) -> RefusalView {
    api::plain(404, "unknown setting `"@ + key + "`"@)
}

/// Refuses a setting that is not known.
pub fn refuse_setting(key: &str) -> (r: Refusal)
    ensures
        r@ == unknown_setting(key@),
{
    let mut m = "unknown setting `".to_owned();
    m.append(key);
    m.append("`");
    refuse_with(404, m)
}

/// Why a session may not change a setting: there is none, or the role does not
/// suffice.
pub open spec fn setting_refusal(role: Role, key: Seq<char>) -> Option<RefusalView> {
    match config::known(key) {
        None => Some(unknown_setting(key)),
        Some(s) => api::role_refusal(role, role_of(s.min_role)),
    }
}

/// Decides whether a session may change a setting.
pub fn check_setting(session: &SessionInfo, key: &str) -> (r: Option<Refusal>)
    ensures
        api::opt_view(r) == setting_refusal(session.role, key@),
{
    match config::spec(key) {
        None => Some(refuse_setting(key)),
        Some(s) => require(session, config_role(s.min_role)),
    }
}

/// A change to a setting that is asked for, or a look at what it would do.
#[derive(Debug)]
pub struct ConfigPlan {
    pub value: Option<String>,
    pub dry_run: bool,
}

/// Whether only a look is asked for.
pub open spec fn is_dry_run(param: Option<Seq<char>>) -> bool {
    param == Some("1"@) || param == Some("true"@)
}

/// What is decided of a change to a setting: a look needs no trail.
pub open spec fn config_decided(
    role: Role,
    trail: bool,
    key: Seq<char>,
    body: Result<ConfigValue, String>,
    param: Option<Seq<char>>,
) -> Result<(Option<Seq<char>>, bool), RefusalView> {
    match setting_refusal(role, key) {
        Some(f) => Err(f),
        None => match body {
            Err(m) => Err(
                api::plain(
                    400,
                    "body must be {\"value\": <string|number|bool|null>}: "@ + m@,
                ),
            ),
            Ok(v) => match value_text(v) {
                Err(m) => Err(api::plain(400, m)),
                Ok(value) => if is_dry_run(param) {
                    Ok((value, true))
                } else if trail {
                    Ok((value, false))
                } else {
                    Err(api::no_trail())
                },
            },
        },
    }
}

/// Decides on a change to a setting. `body` is the value that is asked for, or
/// why it cannot be read; `param` is the parameter by which only a look is
/// asked for.
pub fn config_set(
    session: &SessionInfo,
    log: &AuditLog,
    key: &str,
    body: Result<ConfigValue, String>,
    param: Option<String>,
) -> (r: Result<ConfigPlan, Refusal>)
    ensures
        match (
            r,
            config_decided(
                session.role,
                log.healthy || log.fail_open,
                key@,
                body,
                batch::opt_text(param),
            ),
        ) {
            (Ok(p), Ok((v, d))) => batch::opt_text(p.value) == v && p.dry_run == d,
            (Err(f), Err(g)) => f@ == g,
            _ => false,
        },
{
    if let Some(f) = check_setting(session, key) {
        return Err(f);
    }
    let value = match body {
        Ok(v) => v,
        Err(e) => {
            let mut m = "body must be {\"value\": <string|number|bool|null>}: ".to_owned();
            m.append(e.as_str());
            return Err(refuse_with(400, m));
        },
    };
    let value = match config_value_text(value) {
        Ok(v) => v,
        Err(m) => {
            return Err(refuse_with(400, m));
        },
    };
    let dry_run: bool = match &param {
        Some(p) => text::same(p.as_str(), "1") || text::same(p.as_str(), "true"),
        None => false,
    };
    if dry_run {
        return Ok(ConfigPlan { value, dry_run: true });
    }
    if let Some(f) = audit_gate(log) {
        return Err(f);
    }
    Ok(ConfigPlan { value, dry_run: false })
}

/// Decides whether an override may be taken back.
pub fn config_delete(session: &SessionInfo, log: &AuditLog, key: &str) -> (r: Option<Refusal>)
    ensures
        api::opt_view(r) == match setting_refusal(session.role, key@) {
            Some(f) => Some(f),
            None => if log.healthy || log.fail_open {
                None
            } else {
                Some(api::no_trail())
            },
        },
{
    match check_setting(session, key) {
        Some(f) => Some(f),
        None => audit_gate(log),
    }
}

// ---------------------------------------------------------------------- deletions

/// Rows that are to be deleted: those of a table that have all of some tags and
/// lie in a span of time.
#[derive(Debug)]
pub struct DeleteRequest {
    pub db: String,
    pub table: String,
    pub tags: Vec<(String, String)>,
    pub start_ns: Option<i64>,
    pub end_ns: Option<i64>,
}

/// The JSON of the first tags, without the brackets.
pub open spec fn tags_json(tags: Seq<(Seq<char>, Seq<char>)>) -> Seq<char>
    decreases tags.len(),
{
    if tags.len() == 0 {
        Seq::empty()
    } else {
        tags_json(tags.drop_last()) + (if tags.len() == 1 {
            Seq::empty()
        } else {
            ","@
        }) + json::json_text(tags.last().0) + ":"@ + json::json_text(tags.last().1)
    }
}

/// The JSON of what is to be deleted.
pub open spec fn predicate_json(
    tags: Seq<(Seq<char>, Seq<char>)>,
    start_ns: Option<i64>,
    end_ns: Option<i64>,
) -> Seq<char> {
    "{\"end_ns\":"@ + json::json_integer(end_ns) + ",\"start_ns\":"@ + json::json_integer(start_ns)
        + ",\"tags\":{"@ + tags_json(tags) + "}}"@
}

fn tags_text(tags: &Vec<(String, String)>) -> (r: String)
    ensures
        r@ == tags_json(crate::ingest::tag_views(tags@)),
{
    let ghost all = crate::ingest::tag_views(tags@);
    let mut s = String::new();
    let mut i: usize = 0;
    assert(s@ =~= tags_json(all.take(0)));
    while i < tags.len()
        invariant
            i <= tags.len(),
            all == crate::ingest::tag_views(tags@),
            s@ == tags_json(all.take(i as int)),
        decreases tags.len() - i,
    {
        let ghost next = all.take(i + 1);
        assert(next.drop_last() =~= all.take(i as int));
        assert(next.last() == (tags@[i as int].0@, tags@[i as int].1@));
        if i > 0 {
            s.append(",");
        }
        json::put_text(&mut s, "", tags[i].0.as_str());
        json::put_text(&mut s, ":", tags[i].1.as_str());
        proof {
            reveal_strlit("");
            assert(s@ =~= tags_json(next));
        }
        i += 1;
    }
    assert(all.take(all.len() as int) =~= all);
    s
}

/// The JSON of what is to be deleted.
pub fn predicate(del: &DeleteRequest) -> (r: String)
    ensures
        r@ == predicate_json(crate::ingest::tag_views(del.tags@), del.start_ns, del.end_ns),
{
    let mut s = String::new();
    json::put_integer(&mut s, "{\"end_ns\":", del.end_ns);
    json::put_integer(&mut s, ",\"start_ns\":", del.start_ns);
    s.append(",\"tags\":{");
    s.append(tags_text(&del.tags).as_str());
    s.append("}}");
    assert(s@ =~= predicate_json(crate::ingest::tag_views(del.tags@), del.start_ns, del.end_ns));
    s
}

/// A deletion that may go on: where, and what for the trail.
#[derive(Debug)]
pub struct DeletePlan {
    pub db: String,
    pub table: String,
    pub predicate: String,
}

/// What is decided of a deletion: the role, what is asked for, then the trail.
pub open spec fn delete_refusal(
    role: Role,
    trail: bool,
    body: Result<DeleteRequest, String>,
) -> Option<RefusalView> {
    match api::role_refusal(role, Role::Admin) {
        Some(f) => Some(f),
        None => match body {
            Err(m) => Some(api::plain(400, m@)),
            Ok(d) => if rollups::blank(d.db@) || rollups::blank(d.table@) {
                Some(api::plain(400, "db and table must not be empty"@))
            } else if trail {
                None
            } else {
                Some(api::no_trail())
            },
        },
    }
}

/// Decides on a deletion. `body` is what is asked for, or why it cannot be
/// read.
pub fn admin_delete(session: &SessionInfo, log: &AuditLog, body: &Result<DeleteRequest, String>)
    -> (r: Result<DeletePlan, Refusal>)
    ensures
        match (r, delete_refusal(session.role, log.healthy || log.fail_open, *body)) {
            (Err(f), Some(g)) => f@ == g,
            (Ok(p), None) => body matches Ok(d) && p.db@ == text::trimmed(d.db@) && p.table@
                == text::trimmed(d.table@) && p.predicate@ == predicate_json(
                crate::ingest::tag_views(d.tags@),
                d.start_ns,
                d.end_ns,
            ),
            _ => false,
        },
{
    if let Some(f) = require(session, Role::Admin) {
        return Err(f);
    }
    let del = match body {
        Ok(d) => d,
        Err(m) => {
            return Err(refuse(400, m.as_str()));
        },
    };
    let db = text::trim(del.db.as_str());
    let table = text::trim(del.table.as_str());
    if db.as_str().unicode_len() == 0 || table.as_str().unicode_len() == 0 {
        return Err(refuse(400, "db and table must not be empty"));
    }
    if let Some(f) = audit_gate(log) {
        return Err(f);
    }
    Ok(DeletePlan { db, table, predicate: predicate(del) })
}

/// The change that a deletion made, or was to make where it failed: `landed` is
/// the name of the tombstone and its place in the catalog.
pub fn delete_mutation(p: &DeletePlan, landed: Option<(String, u64)>) -> (r: Mutation)
    ensures
        r@ == (MutationView {
            op: Operation::DataDelete,
            target: Some(retention::scoped(p.db@, p.table@)),
            before: None,
            after: match landed {
                Some((id, seq)) => Some(
                    "{\"predicate\":"@ + p.predicate@ + ",\"seq\":"@ + text::decimal(seq as nat)
                        + ",\"tombstone_id\":"@ + json::json_text(id@) + "}"@,
                ),
                None => None,
            },
        }),
{
    let after = match landed {
        Some((id, seq)) => {
            let mut s = "{\"predicate\":".to_owned();
            s.append(p.predicate.as_str());
            json::put_number(&mut s, ",\"seq\":", seq);
            json::put_text(&mut s, ",\"tombstone_id\":", id.as_str());
            s.append("}");
            Some(s)
        },
        None => None,
    };
    Mutation {
        op: Operation::DataDelete,
        target: Some(scope(p.db.as_str(), p.table.as_str())),
        before: None,
        after,
    }
}

// ------------------------------------------------------------------------- tokens

/// A token as it is shown: everything but the digest.
#[derive(Debug)]
pub struct TokenView {
    pub id: String,
    pub description: String,
    pub scope: &'static str,
    pub databases: Vec<String>,
    pub authorizations: Vec<String>,
    pub created_by: String,
    pub created_at_secs: u64,
    pub expires_at_secs: Option<u64>,
    pub revoked: bool,
    pub last_used_secs: Option<u64>,
}

/// Whether a token is shown as it is.
pub open spec fn shows(v: TokenView, t: TokenRecord) -> bool {
    &&& v.id@ == t.id@
    &&& v.description@ == t.description@
    &&& v.scope@ == token::scope_text(t.scope)
    &&& text::texts(v.databases@) == text::texts(t.databases@)
    &&& text::texts(v.authorizations@) == text::texts(t.authorizations@)
    &&& v.created_by@ == t.created_by@
    &&& v.created_at_secs == t.created_at_secs
    &&& v.expires_at_secs == t.expires_at_secs
    &&& v.revoked == t.revoked
    &&& v.last_used_secs == t.last_used_secs
}

/// Shows a token.
pub fn token_view(t: &TokenRecord) -> (r: TokenView)
    ensures
        shows(r, *t),
{
    TokenView {
        id: t.id.clone(),
        description: t.description.clone(),
        scope: t.scope.as_str(),
        databases: text::copy_texts(&t.databases),
        authorizations: text::copy_texts(&t.authorizations),
        created_by: t.created_by.clone(),
        created_at_secs: t.created_at_secs,
        expires_at_secs: t.expires_at_secs,
        revoked: t.revoked,
        last_used_secs: t.last_used_secs,
    }
}

/// The JSON of a token as it is shown.
pub open spec fn view_json(t: TokenRecord) -> Seq<char> {
    "{\"authorizations\":["@ + json::json_items(text::texts(t.authorizations@))
        + "],\"created_at_secs\":"@ + text::decimal(t.created_at_secs as nat) + ",\"created_by\":"@
        + json::json_text(t.created_by@) + ",\"databases\":["@ + json::json_items(
        text::texts(t.databases@),
    ) + "],\"description\":"@ + json::json_text(t.description@) + ",\"expires_at_secs\":"@
        + json::json_number(t.expires_at_secs) + ",\"id\":"@ + json::json_text(t.id@)
        + ",\"last_used_secs\":"@ + json::json_number(t.last_used_secs) + ",\"revoked\":"@ + (
    if t.revoked {
        "true"@
    } else {
        "false"@
    }) + ",\"scope\":"@ + json::json_text(token::scope_text(t.scope)) + "}"@
}

/// The JSON of a token as it is shown.
pub fn token_json(t: &TokenRecord) -> (r: String)
    ensures
        r@ == view_json(*t),
{
    let mut s = String::new();
    json::put_list(&mut s, "{\"authorizations\":[", &t.authorizations);
    json::put_number(&mut s, "],\"created_at_secs\":", t.created_at_secs);
    json::put_text(&mut s, ",\"created_by\":", t.created_by.as_str());
    json::put_list(&mut s, ",\"databases\":[", &t.databases);
    json::put_text(&mut s, "],\"description\":", t.description.as_str());
    json::put_opt_number(&mut s, ",\"expires_at_secs\":", t.expires_at_secs);
    json::put_text(&mut s, ",\"id\":", t.id.as_str());
    json::put_opt_number(&mut s, ",\"last_used_secs\":", t.last_used_secs);
    s.append(",\"revoked\":");
    s.append(
        if t.revoked {
            "true"
        } else {
            "false"
        },
    );
    json::put_text(&mut s, ",\"scope\":", t.scope.as_str());
    s.append("}");
    assert(s@ =~= view_json(*t));
    s
}

/// Neither the digest of a token nor anything that depends on it is shown: two
/// tokens that differ in nothing else are shown alike.
pub proof fn digests_are_not_shown(a: TokenRecord, b: TokenRecord, v: TokenView)
    requires
        b == (TokenRecord { hash: b.hash, ..a }),
    ensures
        view_json(a) == view_json(b),
        shows(v, a) <==> shows(v, b),
{
}

/// A token that is asked for.
#[derive(Debug)]
pub struct TokenRequest {
    pub description: String,
    pub scope: String,
    pub databases: Vec<String>,
    pub authorizations: Vec<String>,
    pub expires_in_secs: Option<u64>,
}

/// A token that may be issued.
#[derive(Debug)]
pub struct TokenPlan {
    pub description: String,
    pub scope: Scope,
    pub databases: Vec<String>,
    pub authorizations: Vec<String>,
    pub expires_at_secs: Option<u64>,
}

/// What a token has to be described for.
pub open spec fn describe_it() -> Seq<char> {
    "description must not be empty — six months from now someone              has to know what this token is before revoking it"@
}

/// Why a token is not issued.
pub open spec fn token_refusal(
    role: Role,
    trail: bool,
    body: Result<TokenRequest, String>,
) -> Option<RefusalView> {
    match api::role_refusal(role, Role::Admin) {
        Some(f) => Some(f),
        None => match body {
            Err(m) => Some(api::plain(400, m@)),
            Ok(t) => if rollups::blank(t.description@) {
                Some(api::plain(400, describe_it()))
            } else if token::scope_named(t.scope@) is None {
                Some(
                    api::plain(
                        400,
                        "scope "@ + text::debug_text(t.scope@)
                            + " is not read, write, or read_write"@,
                    ),
                )
            } else if trail {
                None
            } else {
                Some(api::no_trail())
            },
        },
    }
}

/// The second at which something ends that lasts so many more.
pub open spec fn end_of(now_secs: u64, lasting: Option<u64>) -> Option<u64> {
    match lasting {
        Some(n) => Some((now_secs + n) as u64),
        None => None,
    }
}

/// Decides on a token that is asked for.
pub fn tokens_issue(
    session: &SessionInfo,
    log: &AuditLog,
    body: Result<TokenRequest, String>,
    now_secs: u64,
) -> (r: Result<TokenPlan, Refusal>)
    requires
        token_refusal(session.role, true, body) is None ==> (
        body->Ok_0.expires_in_secs matches Some(n) ==> now_secs + n <= u64::MAX),
    ensures
        match (r, token_refusal(session.role, log.healthy || log.fail_open, body)) {
            (Err(f), Some(g)) => f@ == g,
            (Ok(p), None) => {
                &&& body is Ok
                &&& p.description == body->Ok_0.description
                &&& Some(p.scope) == token::scope_named(body->Ok_0.scope@)
                &&& p.databases == body->Ok_0.databases
                &&& p.authorizations == body->Ok_0.authorizations
                &&& p.expires_at_secs == end_of(now_secs, body->Ok_0.expires_in_secs)
            },
            _ => false,
        },
{
    if let Some(f) = require(session, Role::Admin) {
        return Err(f);
    }
    let issue = match body {
        Ok(t) => t,
        Err(m) => {
            return Err(refuse_with(400, m));
        },
    };
    if text::trim(issue.description.as_str()).as_str().unicode_len() == 0 {
        return Err(
            refuse(
                400,
                "description must not be empty — six months from now someone              has to know what this token is before revoking it",
            ),
        );
    }
    let scope = match Scope::parse(issue.scope.as_str()) {
        Some(s) => s,
        None => {
            let mut m = "scope ".to_owned();
            m.append(text::quote(issue.scope.as_str()).as_str());
            m.append(" is not read, write, or read_write");
            return Err(refuse_with(400, m));
        },
    };
    let expires_at_secs: Option<u64> = match issue.expires_in_secs {
        Some(n) => Some(now_secs + n),
        None => None,
    };
    if let Some(f) = audit_gate(log) {
        return Err(f);
    }
    Ok(
        TokenPlan {
            description: issue.description,
            scope,
            databases: issue.databases,
            authorizations: issue.authorizations,
            expires_at_secs,
        },
    )
}

/// The change that issuing a token made, or was to make where it failed.
pub fn issue_mutation(issued: Option<&TokenRecord>) -> (r: Mutation)
    ensures
        r@ == (MutationView {
            op: Operation::TokenIssue,
            target: match issued {
                Some(t) => Some(t.id@),
                None => None,
            },
            before: None,
            after: match issued {
                Some(t) => Some(view_json(*t)),
                None => None,
            },
        }),
{
    match issued {
        Some(t) => Mutation {
            op: Operation::TokenIssue,
            target: Some(t.id.clone()),
            before: None,
            after: Some(token_json(t)),
        },
        None => Mutation { op: Operation::TokenIssue, target: None, before: None, after: None },
    }
}

/// Decides on the revocation of a token.
pub fn tokens_revoke(session: &SessionInfo, log: &AuditLog, id: &str) -> (r: Result<
    Mutation,
    Refusal,
>)
    ensures
        gives(
            r,
            match rollups::gate_refusal(session.role, log.healthy || log.fail_open) {
                Some(f) => Err(f),
                None => Ok(
                    MutationView {
                        op: Operation::TokenRevoke,
                        target: Some(id@),
                        before: None,
                        after: None,
                    },
                ),
            },
        ),
{
    if let Some(f) = admin_gate(session, log) {
        return Err(f);
    }
    Ok(
        Mutation {
            op: Operation::TokenRevoke,
            target: Some(id.to_owned()),
            before: None,
            after: None,
        },
    )
}

// --------------------------------------------------------- grants to certificates

/// The JSON of what is granted.
pub open spec fn grants_json(auths: Seq<Seq<char>>) -> Seq<char> {
    "{\"authorizations\":["@ + json::json_items(auths) + "]}"@
}

fn grants_text(auths: &Vec<String>) -> (r: String)
    ensures
        r@ == grants_json(text::texts(auths@)),
{
    let mut s = String::new();
    json::put_list(&mut s, "{\"authorizations\":[", auths);
    s.append("]}");
    assert(s@ =~= grants_json(text::texts(auths@)));
    s
}

/// The JSON of what was granted so far, if anything was.
pub open spec fn granted_json(current: Option<Vec<String>>) -> Option<Seq<char>> {
    match current {
        Some(g) => Some(grants_json(text::texts(g@))),
        None => None,
    }
}

fn granted_text(current: &Option<Vec<String>>) -> (r: Option<String>)
    ensures
        batch::opt_text(r) == granted_json(*current),
{
    match current {
        Some(g) => Some(grants_text(g)),
        None => None,
    }
}

/// What is decided of grants that are asked for: the role, what is asked for,
/// then the trail.
pub open spec fn grants_decided(
    role: Role,
    trail: bool,
    cn: Seq<char>,
    body: Result<Vec<String>, String>,
    current: Option<Vec<String>>,
) -> Result<MutationView, RefusalView> {
    match api::role_refusal(role, Role::Admin) {
        Some(f) => Err(f),
        None => match body {
            Err(m) => Err(api::plain(400, m@)),
            Ok(auths) => if rollups::blank(cn) {
                Err(api::plain(400, "certificate CN must not be empty"@))
            } else if trail {
                Ok(
                    MutationView {
                        op: Operation::CertGrantsSet,
                        target: Some(cn),
                        before: granted_json(current),
                        after: Some(grants_json(text::texts(auths@))),
                    },
                )
            } else {
                Err(api::no_trail())
            },
        },
    }
}

/// Decides on what an identity is granted. `current` is what it is granted so
/// far.
pub fn cert_grants_set(
    session: &SessionInfo,
    log: &AuditLog,
    cn: &str,
    body: &Result<Vec<String>, String>,
    current: &Option<Vec<String>>,
) -> (r: Result<Mutation, Refusal>)
    ensures
        gives(
            r,
            grants_decided(session.role, log.healthy || log.fail_open, cn@, *body, *current),
        ),
{
    if let Some(f) = require(session, Role::Admin) {
        return Err(f);
    }
    let auths = match body {
        Ok(a) => a,
        Err(m) => {
            return Err(refuse(400, m.as_str()));
        },
    };
    if text::trim(cn).as_str().unicode_len() == 0 {
        return Err(refuse(400, "certificate CN must not be empty"));
    }
    if let Some(f) = audit_gate(log) {
        return Err(f);
    }
    Ok(
        Mutation {
            op: Operation::CertGrantsSet,
            target: Some(cn.to_owned()),
            before: granted_text(current),
            after: Some(grants_text(auths)),
        },
    )
}

/// Decides whether what an identity is granted is forgotten.
pub fn cert_grants_remove(
    session: &SessionInfo,
    log: &AuditLog,
    cn: &str,
    current: &Option<Vec<String>>,
) -> (r: Result<Mutation, Refusal>)
    ensures
        gives(
            r,
            match rollups::gate_refusal(session.role, log.healthy || log.fail_open) {
                Some(f) => Err(f),
                None => Ok(
                    MutationView {
                        op: Operation::CertGrantsRemove,
                        target: Some(cn@),
                        before: granted_json(*current),
                        after: None,
                    },
                ),
            },
        ),
{
    if let Some(f) = admin_gate(session, log) {
        return Err(f);
    }
    Ok(
        Mutation {
            op: Operation::CertGrantsRemove,
            target: Some(cn.to_owned()),
            before: granted_text(current),
            after: None,
        },
    )
}

// ---------------------------------------------------------------------- passwords

/// Passwords that are given for a change.
#[derive(Debug)]
pub struct PasswordChange {
    pub current_password: String,
    pub new_password: String,
}

/// Decides whether a change of the sender's own password may be tried. What the
/// trail gets to hold names the sender and neither password.
pub fn change_password(
    session: &SessionInfo,
    log: &AuditLog,
    body: &Result<PasswordChange, String>,
) -> (r: Result<Mutation, Refusal>)
    ensures
        gives(
            r,
            match *body {
                Err(m) => Err(api::plain(400, m@)),
                Ok(_) => if log.healthy || log.fail_open {
                    Ok(
                        MutationView {
                            op: Operation::PasswordChange,
                            target: Some(session.username@),
                            before: None,
                            after: None,
                        },
                    )
                } else {
                    Err(api::no_trail())
                },
            },
        ),
{
    if let Err(m) = body {
        return Err(refuse(400, m.as_str()));
    }
    if let Some(f) = audit_gate(log) {
        return Err(f);
    }
    Ok(
        Mutation {
            op: Operation::PasswordChange,
            target: Some(session.username.clone()),
            before: None,
            after: None,
        },
    )
}

// ------------------------------------------------------------------------ the log

/// How much of the log is shown where nothing else is asked for.
pub const LOGS_DEFAULT: usize = 500;

/// How much of the log is shown at most.
pub const LOGS_LIMIT: usize = 5_000;

/// What of the log is shown: from which level on, and how many entries.
pub fn logs_window(level: Option<String>, limit: Option<usize>) -> (r: (String, usize))
    ensures
        r.0@ == match level {
            Some(l) => l@,
            None => "info"@,
        },
        r.1 == match limit {
            Some(n) => if n < LOGS_LIMIT {
                n
            } else {
                LOGS_LIMIT
            },
            None => LOGS_DEFAULT,
        },
{
    let level = match level {
        Some(l) => l,
        None => "info".to_owned(),
    };
    let n: usize = match limit {
        Some(n) => if n < LOGS_LIMIT {
            n
        } else {
            LOGS_LIMIT
        },
        None => LOGS_DEFAULT,
    };
    (level, n)
}

// --------------------------------------------------------------------- the trail

/// How many records are shown where nothing else is asked for.
pub const AUDIT_DEFAULT: usize = 1_000;

/// How many records are shown at most.
pub const AUDIT_LIMIT: usize = 10_000;

/// Which records are asked for.
#[derive(Debug)]
pub struct AuditQuery {
    pub action: Option<String>,
    pub principal: Option<String>,
    pub target: Option<String>,
    pub since: Option<String>,
    pub limit: Option<usize>,
    pub verify: bool,
}

/// Whether a record is among those that are asked for. The times are written so
/// that the later one is the greater text.
pub open spec fn asked_for(q: AuditQuery, r: audit::RecordView) -> bool {
    &&& q.action matches Some(a) ==> r.new.action == a@
    &&& q.principal matches Some(p) ==> r.new.principal == p@
    &&& q.target matches Some(t) ==> r.new.target == Some(t@)
    &&& q.since matches Some(s) ==> !text::before(r.ts, s@)
}

/// The places of the records that are asked for.
pub open spec fn asked_places(q: AuditQuery, records: Seq<audit::RecordView>) -> Seq<usize>
    decreases records.len(),
{
    if records.len() == 0 {
        Seq::empty()
    } else {
        let p = asked_places(q, records.drop_last());
        if asked_for(q, records.last()) {
            p.push((records.len() - 1) as usize)
        } else {
            p
        }
    }
}

/// How many records are shown.
pub open spec fn page_limit(limit: Option<usize>) -> usize {
    match limit {
        Some(n) => if n < AUDIT_LIMIT {
            n
        } else {
            AUDIT_LIMIT
        },
        None => AUDIT_DEFAULT,
    }
}

/// The newest of a list.
pub open spec fn newest(places: Seq<usize>, limit: usize) -> Seq<usize> {
    if places.len() <= limit {
        places
    } else {
        places.skip(places.len() - limit)
    }
}

fn is_asked_for(q: &AuditQuery, r: &AuditRecord) -> (out: bool)
    ensures
        out == asked_for(*q, r@),
{
    let action: bool = match &q.action {
        Some(a) => text::same(r.action.as_str(), a.as_str()),
        None => true,
    };
    let principal: bool = match &q.principal {
        Some(p) => text::same(r.principal.as_str(), p.as_str()),
        None => true,
    };
    let target: bool = match &q.target {
        Some(t) => match &r.target {
            Some(u) => text::same(u.as_str(), t.as_str()),
            None => false,
        },
        None => true,
    };
    let since: bool = match &q.since {
        Some(s) => !text::comes_before(r.ts.as_str(), s.as_str()),
        None => true,
    };
    action && principal && target && since
}

/// The places of the records that are shown: of those that are asked for the
/// newest, in their order.
pub fn audit_page(q: &AuditQuery, records: &Vec<AuditRecord>) -> (r: Vec<usize>)
    ensures
        r@ == newest(asked_places(*q, audit::trail(records@)), page_limit(q.limit)),
{
    let ghost all = audit::trail(records@);
    let mut found: Vec<usize> = Vec::new();
    let mut i: usize = 0;
    assert(all.take(0) =~= Seq::empty());
    while i < records.len()
        invariant
            i <= records.len(),
            all == audit::trail(records@),
            found@ == asked_places(*q, all.take(i as int)),
        decreases records.len() - i,
    {
        assert(all.take(i + 1).drop_last() =~= all.take(i as int));
        assert(all.take(i + 1).last() == records@[i as int]@);
        if is_asked_for(q, &records[i]) {
            found.push(i);
        }
        i += 1;
    }
    assert(all.take(all.len() as int) =~= all);
    let limit: usize = match q.limit {
        Some(n) => if n < AUDIT_LIMIT {
            n
        } else {
            AUDIT_LIMIT
        },
        None => AUDIT_DEFAULT,
    };
    if found.len() <= limit {
        return found;
    }
    let start: usize = found.len() - limit;
    let mut page: Vec<usize> = Vec::new();
    let mut k: usize = start;
    while k < found.len()
        invariant
            start <= k <= found.len(),
            page@ == found@.subrange(start as int, k as int),
        decreases found.len() - k,
    {
        assert(found@.subrange(start as int, k + 1) =~= found@.subrange(
            start as int,
            k as int,
        ).push(found@[k as int]));
        page.push(found[k]);
        k += 1;
    }
    assert(page@ =~= found@.skip(start as int));
    page
}

/// The records that are shown are among those that are asked for, and no more
/// than the limit.
pub proof fn pages_hold_what_is_asked_for(q: AuditQuery, records: Seq<audit::RecordView>, k: int)
    requires
        records.len() <= usize::MAX,
        0 <= k < newest(asked_places(q, records), page_limit(q.limit)).len(),
    ensures
        newest(asked_places(q, records), page_limit(q.limit)).len() <= AUDIT_LIMIT,
        (newest(asked_places(q, records), page_limit(q.limit))[k] as int) < records.len(),
        asked_for(q, records[newest(asked_places(q, records), page_limit(q.limit))[k] as int]),
{
    let places = asked_places(q, records);
    let page = newest(places, page_limit(q.limit));
    let j = if places.len() <= page_limit(q.limit) {
        k
    } else {
        k + places.len() - page_limit(q.limit)
    };
    assert(page[k] == places[j]);
    lemma_place_is_asked_for(q, records, j);
}

proof fn lemma_place_is_asked_for(q: AuditQuery, records: Seq<audit::RecordView>, j: int)
    requires
        records.len() <= usize::MAX,
        0 <= j < asked_places(q, records).len(),
    ensures
        (asked_places(q, records)[j] as int) < records.len(),
        asked_for(q, records[asked_places(q, records)[j] as int]),
    decreases records.len(),
{
    if records.len() > 0 {
        let p = asked_places(q, records.drop_last());
        if j < p.len() {
            lemma_place_is_asked_for(q, records.drop_last(), j);
            assert(records.drop_last()[p[j] as int] == records[p[j] as int]);
        }
    }
}

/// A record is asked for exactly if it has the action, the principal and the
/// target that the query names, as far as it names them, and is not older than
/// its time; every such record has a place, in the order of the trail, and the
/// page is the last of them.
pub proof fn every_record_that_is_asked_for_has_its_place(
    q: AuditQuery,
    records: Seq<audit::RecordView>,
    i: int,
)
    requires
        records.len() <= usize::MAX,
        0 <= i < records.len(),
    ensures
        asked_places(q, records).contains(i as usize) <==> {
            let r = records[i];
            &&& q.action is None || q.action->Some_0@ == r.new.action
            &&& q.principal is None || q.principal->Some_0@ == r.new.principal
            &&& q.target is None || r.new.target == Some(q.target->Some_0@)
            &&& q.since is None || q.since->Some_0@ == r.ts || text::before(
                q.since->Some_0@,
                r.ts,
            )
        },
        forall|k: int|
            0 <= k < asked_places(q, records).len() ==> (#[trigger] asked_places(q, records)[k])
                < records.len(),
        asked_places(q, records).len() > page_limit(q.limit) ==> newest(
            asked_places(q, records),
            page_limit(q.limit),
        ).len() == page_limit(q.limit),
        page_limit(q.limit) > 0 && asked_places(q, records).len() > 0 ==> newest(
            asked_places(q, records),
            page_limit(q.limit),
        ).last() == asked_places(q, records).last(),
    decreases records.len(),
{
    let init = records.drop_last();
    let p = asked_places(q, init);
    let now = asked_places(q, records);
    if let Some(s) = q.since {
        text::before_is_total(s@, records[i].ts);
    }
    lemma_places_below(q, records);
    if i < init.len() {
        every_record_that_is_asked_for_has_its_place(q, init, i);
        assert(init[i] == records[i]);
        if p.contains(i as usize) {
            let k = choose|k: int| 0 <= k < p.len() && p[k] == i as usize;
            assert(now[k] == i as usize);
        }
        if now.contains(i as usize) {
            let k = choose|k: int| 0 <= k < now.len() && now[k] == i as usize;
            if k < p.len() {
                assert(p[k] == i as usize);
            }
        }
    } else {
        lemma_places_below(q, init);
        if asked_for(q, records[i]) {
            assert(now[p.len() as int] == i as usize);
        } else if now.contains(i as usize) {
            let k = choose|k: int| 0 <= k < now.len() && now[k] == i as usize;
            assert(p[k] < init.len());
        }
    }
}

proof fn lemma_places_below(q: AuditQuery, records: Seq<audit::RecordView>)
    requires
        records.len() <= usize::MAX,
    ensures
        forall|k: int|
            0 <= k < asked_places(q, records).len() ==> (#[trigger] asked_places(q, records)[k])
                < records.len(),
    decreases records.len(),
{
    if records.len() > 0 {
        lemma_places_below(q, records.drop_last());
        let p = asked_places(q, records.drop_last());
        let now = asked_places(q, records);
        assert forall|k: int| 0 <= k < now.len() implies (#[trigger] now[k]) < records.len() by {
            if k < p.len() {
                assert(now[k] == p[k]);
            }
        }
    }
}

/// The value of a setting is what the body says: texts and numbers as they are
/// written, truth values by their words, null as none, and nothing else.
pub proof fn a_setting_takes_what_the_body_says(s: String)
    ensures
        value_text(ConfigValue::Text(s)) == Ok::<Option<Seq<char>>, Seq<char>>(Some(s@)),
        value_text(ConfigValue::Number(s)) == Ok::<Option<Seq<char>>, Seq<char>>(Some(s@)),
        value_text(ConfigValue::Null) == Ok::<Option<Seq<char>>, Seq<char>>(None),
        value_text(ConfigValue::Bool(true)) == Ok::<Option<Seq<char>>, Seq<char>>(Some("true"@)),
        value_text(ConfigValue::Bool(false)) == Ok::<Option<Seq<char>>, Seq<char>>(
            Some("false"@),
        ),
        value_text(ConfigValue::Other) is Err,
{
}

/// What an administrator's session may do, and when: a deletion, a token and
/// grants need an administrator, a request that says what it is about, and a
/// trail that they can be recorded in, and nothing else.
pub proof fn a_request_is_decided_by_what_it_lacks(
    role: Role,
    trail: bool,
    d: DeleteRequest,
    t: TokenRequest,
    cn: Seq<char>,
    auths: Vec<String>,
    current: Option<Vec<String>>,
    m: String,
)
    ensures
        delete_refusal(role, trail, Ok(d)) is None <==> role == Role::Admin && trail
            && text::trimmed(d.db@).len() > 0 && text::trimmed(d.table@).len() > 0,
        delete_refusal(role, trail, Err(m)) is Some,
        token_refusal(role, trail, Ok(t)) is None <==> role == Role::Admin && trail && text::trimmed(
            t.description@,
        ).len() > 0 && (t.scope@ == "read"@ || t.scope@ == "write"@ || t.scope@ == "read_write"@
            || t.scope@ == "readwrite"@ || t.scope@ == "rw"@),
        token_refusal(role, trail, Err(m)) is Some,
        grants_decided(role, trail, cn, Ok(auths), current) is Ok <==> role == Role::Admin && trail
            && text::trimmed(cn).len() > 0,
        grants_decided(role, trail, cn, Ok(auths), current) matches Ok(g) ==> g.target == Some(cn),
        grants_decided(role, trail, cn, Err(m), current) is Err,
        role != Role::Admin ==> delete_refusal(role, trail, Ok(d))->Some_0.status == 403
            && token_refusal(role, trail, Ok(t))->Some_0.status == 403 && grants_decided(
            role,
            trail,
            cn,
            Ok(auths),
            current,
        )->Err_0.status == 403,
{
    api::a_role_does_what_it_may(role, Role::Admin);
}

/// A table is cached for an operator or an administrator, with a trail, under its
/// name without the space around it; a viewer caches none.
pub proof fn an_operator_caches_a_named_table(
    role: Role,
    trail: bool,
    db: Seq<char>,
    table: Seq<char>,
)
    ensures
        cache_decided(role, trail, db, table) is Ok <==> (role == Role::Operator || role
            == Role::Admin) && trail && text::trimmed(db).len() > 0 && text::trimmed(table).len()
            > 0,
        cache_decided(role, trail, db, table) matches Ok(m) ==> m.op == Operation::LastCacheEnable
            && m.target == Some(text::trimmed(db) + "."@ + text::trimmed(table)),
{
    api::a_role_does_what_it_may(role, Role::Operator);
}

/// A look at what a setting would become needs no trail and changes nothing; a
/// change needs one. Either has the value that the body says.
pub proof fn a_look_needs_no_trail(
    role: Role,
    trail: bool,
    key: Seq<char>,
    s: String,
    param: Option<Seq<char>>,
)
    requires
        setting_refusal(role, key) is None,
    ensures
        param == Some("1"@) || param == Some("true"@) ==> config_decided(
            role,
            trail,
            key,
            Ok(ConfigValue::Text(s)),
            param,
        ) == Ok::<(Option<Seq<char>>, bool), RefusalView>((Some(s@), true)),
        param != Some("1"@) && param != Some("true"@) && trail ==> config_decided(
            role,
            trail,
            key,
            Ok(ConfigValue::Text(s)),
            param,
        ) == Ok::<(Option<Seq<char>>, bool), RefusalView>((Some(s@), false)),
        param != Some("1"@) && param != Some("true"@) && !trail ==> config_decided(
            role,
            trail,
            key,
            Ok(ConfigValue::Text(s)),
            param,
        ) is Err,
        config_decided(role, trail, key, Ok(ConfigValue::Other), param) is Err,
{
}

} // verus!
