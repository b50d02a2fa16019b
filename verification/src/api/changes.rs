//! Changes: what the trail records of one, and what is answered when it came
//! about, when there was nothing to change, and when it failed.
use crate::api;
use crate::api::{refuse, refuse_with, Refusal, RefusalView};
use crate::audit::NewRecord;
use crate::audit::NewRecordView;
use crate::auth;
use crate::auth::SessionInfo;
use crate::batch;
use crate::config;
use crate::config::ConfigSetError;
use crate::text;
use vstd::prelude::*;

verus! {

/// What the console can change.
#[derive(Debug, Clone, Copy, PartialEq, Eq, Structural)]
pub enum Operation {
    RetentionSet,
    RetentionRemove,
    LastCacheEnable,
    LastCacheDisable,
    RollupSet,
    RollupRemove,
    ConfigSet,
    ConfigRevert,
    DataDelete,
    TokenIssue,
    TokenRevoke,
    CertGrantsSet,
    CertGrantsRemove,
    PasswordChange,
}

/// The name of a change in the trail.
pub open spec fn action_text(op: Operation) -> Seq<char> {
    match op {
        Operation::RetentionSet => "retention.set"@,
        Operation::RetentionRemove => "retention.remove"@,
        Operation::LastCacheEnable => "last_cache.enable"@,
        Operation::LastCacheDisable => "last_cache.disable"@,
        Operation::RollupSet => "rollup.set"@,
        Operation::RollupRemove => "rollup.remove"@,
        Operation::ConfigSet => "config.set"@,
        Operation::ConfigRevert => "config.revert"@,
        Operation::DataDelete => "data.delete"@,
        Operation::TokenIssue => "token.issue"@,
        Operation::TokenRevoke => "token.revoke"@,
        Operation::CertGrantsSet => "cert_grants.set"@,
        Operation::CertGrantsRemove => "cert_grants.remove"@,
        Operation::PasswordChange => "password.change"@,
    }
}

impl Operation {
    /// The name of the change in the trail.
    pub fn action(self) -> (r: &'static str)
        ensures
            r@ == action_text(self),
    {
        match self {
            Operation::RetentionSet => "retention.set",
            Operation::RetentionRemove => "retention.remove",
            Operation::LastCacheEnable => "last_cache.enable",
            Operation::LastCacheDisable => "last_cache.disable",
            Operation::RollupSet => "rollup.set",
            Operation::RollupRemove => "rollup.remove",
            Operation::ConfigSet => "config.set",
            Operation::ConfigRevert => "config.revert",
            Operation::DataDelete => "data.delete",
            Operation::TokenIssue => "token.issue",
            Operation::TokenRevoke => "token.revoke",
            Operation::CertGrantsSet => "cert_grants.set",
            Operation::CertGrantsRemove => "cert_grants.remove",
            Operation::PasswordChange => "password.change",
        }
    }
}

/// What the trail holds of an action.
pub open spec fn event_of(
    session: SessionInfo,
    source: Option<Seq<char>>,
    action: Seq<char>,
    target: Option<Seq<char>>,
    before: Option<Seq<char>>,
    after: Option<Seq<char>>,
    outcome: Seq<char>,
) -> NewRecordView {
    NewRecordView {
        principal: session.username@,
        role: auth::role_text(session.role),
        session: None,
        source,
        request_id: None,
        action,
        target,
        before,
        after,
        outcome,
    }
}

/// The record of an action by a session.
pub fn audit_event(
    session: &SessionInfo,
    source: Option<String>,
    action: &str,
    target: Option<String>,
    before: Option<String>,
    after: Option<String>,
    outcome: &str,
) -> (r: NewRecord)
    ensures
        r@ == event_of(
            *session,
            batch::opt_text(source),
            action@,
            batch::opt_text(target),
            batch::opt_text(before),
            batch::opt_text(after),
            outcome@,
        ),
{
    NewRecord {
        principal: session.username.clone(),
        role: session.role.as_str().to_owned(),
        session: None,
        source,
        request_id: None,
        action: action.to_owned(),
        target,
        before,
        after,
        outcome: outcome.to_owned(),
    }
}

/// A change that is about to be made: what is changed, how it stood, and how it
/// will stand. The last two are JSON text.
#[derive(Debug)]
pub struct Mutation {
    pub op: Operation,
    pub target: Option<String>,
    pub before: Option<String>,
    pub after: Option<String>,
}

/// What a change says.
#[verifier::ext_equal]
pub struct MutationView {
    pub op: Operation,
    pub target: Option<Seq<char>>,
    pub before: Option<Seq<char>>,
    pub after: Option<Seq<char>>,
}

impl View for Mutation {
    type V = MutationView;

    open spec fn view(&self) -> MutationView {
        MutationView {
            op: self.op,
            target: batch::opt_text(self.target),
            before: batch::opt_text(self.before),
            after: batch::opt_text(self.after),
        }
    }
}

/// How a change ended: what goes into the trail, and the refusal where it did
/// not come about.
#[derive(Debug)]
pub struct Settled {
    pub event: Option<NewRecord>,
    pub refusal: Option<Refusal>,
}

/// The record of a change that is settled.
pub open spec fn opt_event(e: Option<NewRecord>) -> Option<NewRecordView> {
    match e {
        Some(n) => Some(n@),
        None => None,
    }
}

// --------------------------------------------------------------------- failures

/// Whether a text stands in another.
pub open spec fn has_part(s: Seq<char>, p: Seq<char>) -> bool {
    exists|i: int| 0 <= i <= s.len() - p.len() && #[trigger] s.subrange(i, i + p.len()) == p
}

fn holds_part(s: &str, p: &str) -> (r: bool)
    ensures
        r == has_part(s@, p@),
{
    let n: usize = s.unicode_len();
    let k: usize = p.unicode_len();
    if n < k {
        return false;
    }
    let mut i: usize = 0;
    while i < n - k
        invariant
            n == s@.len(),
            k == p@.len(),
            k <= n,
            i <= n - k,
            forall|j: int| 0 <= j < i ==> #[trigger] s@.subrange(j, j + k) != p@,
        decreases n - k - i,
    {
        if text::same(s.substring_char(i, i + k), p) {
            assert(s@.subrange(i as int, i + p@.len()) == p@);
            return true;
        }
        i += 1;
    }
    let last: bool = text::same(s.substring_char(n - k, n), p);
    assert(last ==> s@.subrange(n - k, n - k + p@.len()) == p@);
    last
}

/// Whether a deletion failed by what was asked.
pub open spec fn asked_wrongly(e: Seq<char>) -> bool {
    has_part(e, "needs at least one predicate"@) || has_part(e, "does not exist"@) || has_part(
        e,
        "time window is empty"@,
    ) || has_part(e, "querier"@)
}

fn wrongly_asked(e: &str) -> (r: bool)
    ensures
        r == asked_wrongly(e@),
{
    holds_part(e, "needs at least one predicate") || holds_part(e, "does not exist")
        || holds_part(e, "time window is empty") || holds_part(e, "querier")
}

/// What the trail says of a change that failed.
pub open spec fn failed_outcome(op: Operation, e: Seq<char>) -> Seq<char> {
    match op {
        Operation::RollupSet => "denied"@,
        Operation::PasswordChange => "denied"@,
        Operation::ConfigSet => "rejected"@,
        Operation::DataDelete => if asked_wrongly(e) {
            "denied"@
        } else {
            "error"@
        },
        _ => "error"@,
    }
}

/// What is answered to a change that failed.
pub open spec fn failed_refusal(op: Operation, e: Seq<char>) -> RefusalView {
    match op {
        Operation::RollupSet => api::plain(400, e),
        Operation::PasswordChange => api::of_kind(400, "password_rejected"@, e),
        Operation::DataDelete => if asked_wrongly(e) {
            api::plain(400, e)
        } else {
            api::plain(500, e)
        },
        _ => api::plain(500, e),
    }
}

/// What is answered where there was nothing to change.
pub open spec fn nothing_there(op: Operation) -> Option<RefusalView> {
    match op {
        Operation::TokenRevoke => Some(api::plain(404, "no such token, or already revoked"@)),
        Operation::CertGrantsRemove => Some(
            api::plain(404, "no grants recorded for that identity"@),
        ),
        _ => None,
    }
}

fn failure(op: Operation, e: &str) -> (r: (&'static str, Refusal))
    requires
        op != Operation::ConfigSet,
    ensures
        r.0@ == failed_outcome(op, e@),
        r.1@ == failed_refusal(op, e@),
{
    match op {
        Operation::RollupSet => ("denied", refuse(400, e)),
        Operation::PasswordChange => ("denied", api::refuse_as(400, "password_rejected", e)),
        Operation::DataDelete => if wrongly_asked(e) {
            ("denied", refuse(400, e))
        } else {
            ("error", refuse(500, e))
        },
        _ => ("error", refuse(500, e)),
    }
}

/// What a change that failed leaves in the trail of how things were to stand:
/// only of a deletion, which says what was asked for.
pub open spec fn kept_after(m: MutationView, asked: Option<Seq<char>>) -> Option<Seq<char>> {
    if m.op == Operation::DataDelete {
        asked
    } else {
        None
    }
}

/// What goes into the trail when a change is settled. A change that found
/// nothing to change leaves no record where that is told to the sender.
pub open spec fn settled_event(
    session: SessionInfo,
    source: Option<Seq<char>>,
    m: MutationView,
    asked: Option<Seq<char>>,
    result: Result<bool, Seq<char>>,
) -> Option<NewRecordView> {
    match result {
        Ok(found) => if !found && nothing_there(m.op) is Some {
            None
        } else {
            Some(
                event_of(session, source, action_text(m.op), m.target, m.before, m.after, "ok"@),
            )
        },
        Err(e) => if m.op == Operation::ConfigRevert {
            None
        } else {
            Some(
                event_of(
                    session,
                    source,
                    action_text(m.op),
                    m.target,
                    m.before,
                    kept_after(m, asked),
                    failed_outcome(m.op, e),
                ),
            )
        },
    }
}

/// What is answered when a change is settled, or nothing where it came about.
pub open spec fn settled_refusal(op: Operation, result: Result<bool, Seq<char>>) -> Option<
    RefusalView,
> {
    match result {
        Ok(found) => if found {
            None
        } else {
            nothing_there(op)
        },
        Err(e) => Some(failed_refusal(op, e)),
    }
}

/// The words of a result.
pub open spec fn result_view(r: Result<bool, String>) -> Result<bool, Seq<char>> {
    match r {
        Ok(b) => Ok(b),
        Err(e) => Err(e@),
    }
}

/// Settles a change to anything but the settings. `result` says whether there was something to change, or
/// why the change failed; `asked` is what a deletion was asked to delete.
pub fn settle(
    session: &SessionInfo,
    source: Option<String>,
    m: Mutation,
    asked: Option<String>,
    result: Result<bool, String>,
) -> (r: Settled)
    requires
        m.op != Operation::ConfigSet,
        m.op != Operation::ConfigRevert,
    ensures
        opt_event(r.event) == settled_event(
            *session,
            batch::opt_text(source),
            m@,
            batch::opt_text(asked),
            result_view(result),
        ),
        api::opt_view(r.refusal) == settled_refusal(m.op, result_view(result)),
{
    let op = m.op;
    match result {
        Ok(found) => {
            if !found {
                if op == Operation::TokenRevoke {
                    return Settled {
                        event: None,
                        refusal: Some(refuse(404, "no such token, or already revoked")),
                    };
                }
                if op == Operation::CertGrantsRemove {
                    return Settled {
                        event: None,
                        refusal: Some(refuse(404, "no grants recorded for that identity")),
                    };
                }
            }
            let event = audit_event(
                session,
                source,
                op.action(),
                m.target,
                m.before,
                m.after,
                "ok",
            );
            Settled { event: Some(event), refusal: None }
        },
        Err(e) => {
            let (outcome, refusal) = failure(op, e.as_str());
            let after = if op == Operation::DataDelete {
                asked
            } else {
                None
            };
            let event = audit_event(
                session,
                source,
                op.action(),
                m.target,
                m.before,
                after,
                outcome,
            );
            Settled { event: Some(event), refusal: Some(refusal) }
        },
    }
}

/// The refusal of a change to the settings: one that breaks a rule is in
/// conflict with it, one that could not be stored failed.
pub open spec fn config_refusal(e: ConfigSetError) -> RefusalView {
    match e {
        ConfigSetError::Rejected(c) => api::plain(409, config::config_error_text(c)),
        ConfigSetError::Store(m) => api::plain(500, m@),
    }
}

/// Refuses a change to the settings.
pub fn config_err_response(e: &ConfigSetError) -> (r: Refusal)
    ensures
        r@ == config_refusal(*e),
{
    let m = e.message();
    match e {
        ConfigSetError::Rejected(_) => refuse_with(409, m),
        ConfigSetError::Store(_) => refuse_with(500, m),
    }
}

/// The words of the result of a change to the settings.
pub open spec fn config_result(r: Result<bool, ConfigSetError>) -> Result<bool, Seq<char>> {
    match r {
        Ok(b) => Ok(b),
        Err(ConfigSetError::Rejected(c)) => Err(config::config_error_text(c)),
        Err(ConfigSetError::Store(m)) => Err(m@),
    }
}

/// Settles a change to the settings. One that is refused leaves a record where
/// an override was to be set, and none where one was to be taken back.
pub fn settle_config(
    session: &SessionInfo,
    source: Option<String>,
    m: Mutation,
    result: Result<bool, ConfigSetError>,
) -> (r: Settled)
    requires
        m.op == Operation::ConfigSet || m.op == Operation::ConfigRevert,
    ensures
        opt_event(r.event) == settled_event(
            *session,
            batch::opt_text(source),
            m@,
            None,
            config_result(result),
        ),
        api::opt_view(r.refusal) == match result {
            Ok(_) => None,
            Err(e) => Some(config_refusal(e)),
        },
{
    let action = m.op.action();
    match result {
        Ok(_) => {
            let event = audit_event(session, source, action, m.target, m.before, m.after, "ok");
            Settled { event: Some(event), refusal: None }
        },
        Err(e) => {
            let refusal = Some(config_err_response(&e));
            if m.op == Operation::ConfigRevert {
                return Settled { event: None, refusal };
            }
            let event = audit_event(session, source, action, m.target, m.before, None, "rejected");
            Settled { event: Some(event), refusal }
        },
    }
}

/// What is answered to a change, given how it was settled and how its record
/// was written: a change whose record was refused is not answered as one that
/// came about, and one that failed is answered as that.
pub fn answer(settled: Option<Refusal>, recorded: Option<Refusal>) -> (r: Option<Refusal>)
    ensures
        r == if settled is Some {
            settled
        } else {
            recorded
        },
{
    match settled {
        Some(f) => Some(f),
        None => recorded,
    }
}

/// A change that is answered as one that came about was made, and its record
/// is in the trail or the operator chose to go on without one.
pub proof fn no_change_goes_unrecorded(
    op: Operation,
    result: Result<bool, Seq<char>>,
    wrote: bool,
    fail_open: bool,
    answered: Option<RefusalView>,
)
    requires
        answered == if settled_refusal(op, result) is Some {
            settled_refusal(op, result)
        } else if !wrote && !fail_open {
            Some(api::no_trail())
        } else {
            None
        },
    ensures
        answered is None ==> result is Ok && (wrote || fail_open),
{
}

/// What is recorded of a change says who made it, in which role and from where,
/// what it was done to, what was there before and, where it was done, what is
/// there now; it says that it was done exactly where it was.
pub proof fn a_record_says_what_was_done(
    session: SessionInfo,
    source: Option<Seq<char>>,
    m: MutationView,
    asked: Option<Seq<char>>,
    result: Result<bool, Seq<char>>,
)
    ensures
        settled_event(session, source, m, asked, result) matches Some(e) ==> {
            &&& e.principal == session.username@
            &&& e.role == auth::role_text(session.role)
            &&& e.source == source
            &&& e.action == action_text(m.op)
            &&& e.target == m.target
            &&& e.before == m.before
            &&& result is Ok ==> e.after == m.after && e.outcome == "ok"@
            &&& result is Err ==> e.outcome != "ok"@
        },
        result == Ok::<bool, Seq<char>>(true) ==> settled_event(
            session,
            source,
            m,
            asked,
            result,
        ) is Some,
        result is Err && m.op != Operation::ConfigRevert ==> settled_event(
            session,
            source,
            m,
            asked,
            result,
        ) is Some,
        settled_refusal(m.op, result) is None <==> result is Ok && (result->Ok_0 || m.op
            != Operation::TokenRevoke && m.op != Operation::CertGrantsRemove),
{
    reveal_strlit("ok");
    reveal_strlit("denied");
    reveal_strlit("rejected");
    reveal_strlit("error");
    assert("ok"@.len() == 2 && "denied"@.len() == 6 && "rejected"@.len() == 8);
    assert("error"@.len() == 5);
}

/// A change that fails is answered with the reason: as the fault of who asked
/// where a rollup or a password is not accepted or a deletion asks for what cannot
/// be, and as the server's otherwise. The trail tells these apart too.
pub proof fn a_failure_is_answered_with_its_reason(op: Operation, e: Seq<char>)
    ensures
        settled_refusal(op, Err(e)) is Some,
        settled_refusal(op, Err(e))->Some_0.message == e,
        settled_refusal(op, Err(e))->Some_0.status == 400 || settled_refusal(op, Err(e))->Some_0.status
            == 500,
        settled_refusal(op, Err(e))->Some_0.status == 400 <==> op == Operation::RollupSet || op
            == Operation::PasswordChange || op == Operation::DataDelete && asked_wrongly(e),
        op == Operation::PasswordChange <==> settled_refusal(op, Err(e))->Some_0.code == Some(
            "password_rejected"@,
        ),
        op == Operation::ConfigSet ==> failed_outcome(op, e) == "rejected"@,
        op != Operation::ConfigSet && settled_refusal(op, Err(e))->Some_0.status == 400
            ==> failed_outcome(op, e) == "denied"@,
        op != Operation::ConfigSet && settled_refusal(op, Err(e))->Some_0.status == 500
            ==> failed_outcome(op, e) == "error"@,
{
}

/// A deletion is at fault by what was asked exactly if the reason says so, in one
/// of four ways, wherever in it.
pub proof fn what_was_asked_wrongly_is_told_by_the_reason(a: Seq<char>, b: Seq<char>)
    ensures
        asked_wrongly(a + "needs at least one predicate"@ + b),
        asked_wrongly(a + "does not exist"@ + b),
        asked_wrongly(a + "time window is empty"@ + b),
        asked_wrongly(a + "querier"@ + b),
{
    lemma_part(a, "needs at least one predicate"@, b);
    lemma_part(a, "does not exist"@, b);
    lemma_part(a, "time window is empty"@, b);
    lemma_part(a, "querier"@, b);
}

proof fn lemma_part(a: Seq<char>, m: Seq<char>, b: Seq<char>)
    ensures
        has_part(a + m + b, m),
{
    let s = a + m + b;
    let i = a.len() as int;
    assert(s.subrange(i, i + m.len()) =~= m);
}

/// A change of a setting that breaks a rule is in conflict with it; one that could
/// not be stored failed.
pub proof fn a_broken_rule_is_a_conflict(e: ConfigSetError, m: String)
    ensures
        e is Rejected <==> config_refusal(e).status == 409,
        e is Store <==> config_refusal(e).status == 500,
        config_refusal(ConfigSetError::Store(m)).message == m@,
{
}

} // verus!
