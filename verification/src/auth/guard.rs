//! Whether a request may go on. There is one rule for every way in.
use crate::auth::token;
use crate::auth::token::{DataAuthMode, TokenError, TokenIdentity};
use crate::text;
use vstd::prelude::*;

verus! {

/// What a request wants to do.
#[derive(Debug, Clone, Copy, PartialEq, Eq, Structural)]
pub enum Action {
    Read,
    Write,
}

/// A request that may go on: who it comes from if that is known, and what its
/// sender may see by where that is recorded. Nothing recorded leaves claims as
/// they are, which is another thing than to allow none.
#[derive(Debug, Clone)]
pub struct Decision {
    pub identity: Option<TokenIdentity>,
    pub granted: Option<Vec<String>>,
}

impl Decision {
    /// A request from someone who is not known.
    pub fn anonymous() -> (r: Decision)
        ensures
            r.identity is None,
            r.granted is None,
    {
        Decision { identity: None, granted: None }
    }

    /// Whether it is known who the request comes from.
    pub fn is_authenticated(&self) -> (r: bool)
        ensures
            r == (self.identity is Some),
    {
        self.identity.is_some()
    }
}

/// Whether a token is good for an action on a database.
pub open spec fn permits(i: TokenIdentity, action: Action, database: Seq<char>) -> bool {
    &&& match action {
        Action::Read => i.scope != token::Scope::Write,
        Action::Write => i.scope != token::Scope::Read,
    }
    &&& token::covers(i.databases@, database)
}

/// Why a request is refused, or nothing where it may go on. Where credentials
/// are off none is looked at; else one that is not good is refused, and none at
/// all is refused where one is asked for.
pub open spec fn refusal(
    mode: DataAuthMode,
    presented: Option<Result<TokenIdentity, TokenError>>,
    action: Action,
    database: Seq<char>,
) -> Option<TokenError> {
    if mode == DataAuthMode::Off {
        None
    } else {
        match presented {
            None => if mode == DataAuthMode::Required {
                Some(TokenError::Missing)
            } else {
                None
            },
            Some(Err(e)) => Some(e),
            Some(Ok(i)) => if permits(i, action, database) {
                None
            } else {
                Some(TokenError::Forbidden)
            },
        }
    }
}

/// Decides whether a request may go on. `presented` is what came of the
/// credential that it carries, if it carries one.
pub fn decide(
    mode: DataAuthMode,
    presented: Option<Result<TokenIdentity, TokenError>>,
    action: Action,
    database: &str,
) -> (r: Result<Decision, TokenError>)
    ensures
        match (r, refusal(mode, presented, action, database@)) {
            (Err(e), Some(f)) => e == f,
            (Ok(d), None) => if mode != DataAuthMode::Off && presented is Some {
                let i = presented->Some_0->Ok_0;
                &&& d.identity == Some(i)
                &&& d.granted is Some <==> i.authorizations@.len() > 0
                &&& d.granted matches Some(g) ==> g@ == i.authorizations@
            } else {
                d.identity is None && d.granted is None
            },
            _ => false,
        },
{
    if mode == DataAuthMode::Off {
        return Ok(Decision::anonymous());
    }
    let identity = match presented {
        Some(Ok(i)) => i,
        Some(Err(e)) => {
            return Err(e);
        },
        None => {
            return if mode == DataAuthMode::Required {
                Err(TokenError::Missing)
            } else {
                Ok(Decision::anonymous())
            };
        },
    };
    let permitted: bool = match action {
        Action::Read => identity.scope.allows_read(),
        Action::Write => identity.scope.allows_write(),
    };
    if !permitted || !token::covers_database(&identity.databases, database) {
        return Err(TokenError::Forbidden);
    }
    let granted = if identity.authorizations.len() == 0 {
        None
    } else {
        Some(text::copy_texts(&identity.authorizations))
    };
    Ok(Decision { identity: Some(identity), granted })
}

/// Where credentials are off, no credential changes anything.
pub proof fn off_ignores_credentials(
    presented: Option<Result<TokenIdentity, TokenError>>,
    action: Action,
    database: Seq<char>,
)
    ensures
        refusal(DataAuthMode::Off, presented, action, database) is None,
{
}

/// A stricter mode lets nothing through that a laxer one refuses.
pub proof fn stricter_modes_refuse_more(
    presented: Option<Result<TokenIdentity, TokenError>>,
    action: Action,
    database: Seq<char>,
)
    ensures
        refusal(DataAuthMode::Optional, presented, action, database) is Some ==> refusal(
            DataAuthMode::Required,
            presented,
            action,
            database,
        ) is Some,
        refusal(DataAuthMode::Required, None, action, database) is Some,
{
}

/// What a token may do: a token for reading reads, one for writing writes, one
/// for both does either; and it does so in the databases that it names, or in
/// all where it names none. Another token is refused as forbidden, none is asked
/// for where the mode is off, and one that is wrong is never let through
/// otherwise.
pub proof fn a_token_does_what_its_scope_says(
    mode: DataAuthMode,
    i: TokenIdentity,
    e: TokenError,
    database: Seq<char>,
)
    ensures
        ({
            let here = i.databases@.len() == 0 || exists|k: int|
                0 <= k < i.databases@.len() && (#[trigger] i.databases@[k])@ == database;
            let reads = i.scope == token::Scope::Read || i.scope == token::Scope::ReadWrite;
            let writes = i.scope == token::Scope::Write || i.scope == token::Scope::ReadWrite;
            &&& refusal(mode, Some(Ok(i)), Action::Read, database) is None <==> mode
                == DataAuthMode::Off || reads && here
            &&& refusal(mode, Some(Ok(i)), Action::Write, database) is None <==> mode
                == DataAuthMode::Off || writes && here
            &&& mode != DataAuthMode::Off ==> refusal(
                mode,
                Some(Err(e)),
                Action::Read,
                database,
            ) == Some(e) && refusal(mode, Some(Err(e)), Action::Write, database) == Some(e)
            &&& refusal(mode, None, Action::Read, database) is None <==> mode
                != DataAuthMode::Required
            &&& refusal(mode, None, Action::Write, database) is None <==> mode
                != DataAuthMode::Required
        }),
{
    let names = crate::text::texts(i.databases@);
    if exists|k: int| 0 <= k < i.databases@.len() && (#[trigger] i.databases@[k])@ == database {
        let k = choose|k: int|
            0 <= k < i.databases@.len() && (#[trigger] i.databases@[k])@ == database;
        assert(names[k] == database);
    }
    if names.contains(database) {
        let k = choose|k: int| 0 <= k < names.len() && names[k] == database;
        assert(i.databases@[k]@ == database);
    }
}

} // verus!
