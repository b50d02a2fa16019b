//! Retention: how long a table is kept, and who may say so. Keeping more is an
//! operator's; keeping less, or letting go of what was kept for good, is an
//! administrator's.
use crate::api;
use crate::api::changes::{Mutation, MutationView, Operation};
use crate::api::{audit_gate, refuse, refuse_with, require, Refusal, RefusalView};
use crate::audit::AuditLog;
use crate::auth;
use crate::auth::{Role, SessionInfo};
use crate::batch;
use crate::ingest;
use crate::json;
use crate::pairs;
use crate::text;
use vstd::prelude::*;

verus! {

/// The name that stands for every database in a policy.
pub const RETENTION_ANY_DB: &'static str = "*";

// ------------------------------------------------------------------- durations

/// The seconds of a unit.
pub open spec fn unit_seconds(c: char) -> Option<nat> {
    if c == 'd' {
        Some(86_400)
    } else if c == 'h' {
        Some(3_600)
    } else if c == 'm' {
        Some(60)
    } else if c == 's' {
        Some(1)
    } else {
        None
    }
}

/// A number of units that is a number of seconds, unless it is none or too
/// many.
pub open spec fn counted(numeral: Seq<char>, unit: nat) -> Option<nat> {
    match text::unsigned_of(text::trimmed(numeral), u64::MAX as nat) {
        Some(n) => if 0 < n * unit <= u64::MAX {
            Some(n * unit)
        } else {
            None
        },
        None => None,
    }
}

/// The seconds that a duration spells: a number and a unit, or a number of
/// seconds.
pub open spec fn duration_of(s: Seq<char>) -> Option<nat> {
    let t = text::trimmed(s);
    if t.len() == 0 {
        None
    } else {
        match unit_seconds(t.last()) {
            Some(unit) => counted(t.drop_last(), unit),
            None => counted(t, 1),
        }
    }
}

/// Reads a duration.
pub fn parse_duration_secs(s: &str) -> (r: Option<u64>)
    ensures
        match duration_of(s@) {
            Some(n) => r == Some(n as u64),
            None => r is None,
        },
{
    let t = text::trim(s);
    let chars = text::chars_of(t.as_str());
    let n: usize = chars.len();
    if n == 0 {
        return None;
    }
    let unit: Option<u64> = match chars[n - 1] {
        'd' => Some(86_400),
        'h' => Some(3_600),
        'm' => Some(60),
        's' => Some(1),
        _ => None,
    };
    let (numeral, unit): (String, u64) = match unit {
        Some(u) => {
            let front = text::slice_text(&chars, 0, n - 1);
            assert(front@ =~= t@.drop_last());
            (front, u)
        },
        None => (t, 1),
    };
    let count: u64 = match text::read_unsigned(text::trim(numeral.as_str()).as_str(), u64::MAX) {
        Some(c) => c,
        None => {
            return None;
        },
    };
    proof {
        assert(count * unit == 0 <==> count == 0) by (nonlinear_arith)
            requires
                unit > 0,
        ;
    }
    match count.checked_mul(unit) {
        Some(v) => if v > 0 {
            Some(v)
        } else {
            None
        },
        None => None,
    }
}

/// The largest unit that seconds are a whole number of.
pub open spec fn exact_unit(secs: nat) -> (nat, char) {
    if secs % 86_400 == 0 {
        (86_400, 'd')
    } else if secs % 3_600 == 0 {
        (3_600, 'h')
    } else if secs % 60 == 0 {
        (60, 'm')
    } else {
        (1, 's')
    }
}

/// How seconds are shown.
pub open spec fn shown_seconds(secs: nat) -> Seq<char> {
    text::decimal(secs / exact_unit(secs).0).push(exact_unit(secs).1)
}

/// Shows seconds in the largest unit that they are a whole number of.
pub fn humanize_secs(secs: u64) -> (r: String)
    ensures
        r@ == shown_seconds(secs as nat),
{
    let (unit, c): (u64, char) = if secs % 86_400 == 0 {
        (86_400, 'd')
    } else if secs % 3_600 == 0 {
        (3_600, 'h')
    } else if secs % 60 == 0 {
        (60, 'm')
    } else {
        (1, 's')
    };
    let mut r = text::show(secs / unit);
    r.push(c);
    r
}

proof fn lemma_nothing_to_trim(s: Seq<char>)
    requires
        s.len() > 0 ==> !text::is_space(s[0]) && !text::is_space(s.last()),
    ensures
        text::trimmed(s) == s,
{
}

/// A duration that is shown reads back as the same seconds.
pub proof fn durations_read_back(secs: u64)
    requires
        secs > 0,
    ensures
        duration_of(shown_seconds(secs as nat)) == Some(secs as nat),
{
    let (unit, c) = exact_unit(secs as nat);
    let n = secs as nat / unit;
    let s = shown_seconds(secs as nat);
    text::decimal_spells(n);
    assert(text::is_digit(text::decimal(n)[0]));
    assert(text::is_digit(text::decimal(n).last()));
    lemma_nothing_to_trim(text::decimal(n));
    assert(s[0] == text::decimal(n)[0]);
    lemma_nothing_to_trim(s);
    assert(s.drop_last() =~= text::decimal(n));
    text::unsigned_numerals_read_back(n, u64::MAX as nat);
    assert(secs as nat % unit == 0);
    vstd::arithmetic::div_mod::lemma_fundamental_div_mod(secs as int, unit as int);
    assert(n * unit == unit * n) by (nonlinear_arith);
}

// --------------------------------------------------------------------- policies

/// How long a table is kept, in one database or in every one.
#[derive(Debug, Clone)]
pub struct RetentionPolicy {
    pub db: String,
    pub table: String,
    pub seconds: u64,
}

/// Whether a policy for a database and a table is about another.
pub open spec fn governs(p: RetentionPolicy, db: Seq<char>, table: Seq<char>) -> bool {
    p.table@ == table && (p.db@ == RETENTION_ANY_DB@ || p.db@ == db)
}

impl RetentionPolicy {
    /// Whether the policy is about a table of a database.
    pub fn covers(&self, db: &str, table: &str) -> (r: bool)
        ensures
            r == governs(*self, db@, table@),
    {
        text::same(self.table.as_str(), table) && (text::same(self.db.as_str(), RETENTION_ANY_DB)
            || text::same(self.db.as_str(), db))
    }

    /// Whether the policy is about every database.
    pub fn is_wildcard(&self) -> (r: bool)
        ensures
            r == (self.db@ == RETENTION_ANY_DB@),
    {
        text::same(self.db.as_str(), RETENTION_ANY_DB)
    }
}

/// A policy for one database reaches into no other, and one for every database
/// reaches into each.
pub proof fn policies_reach_no_further(p: RetentionPolicy, db: Seq<char>, table: Seq<char>)
    ensures
        governs(p, db, table) && p.db@ != RETENTION_ANY_DB@ ==> p.db@ == db,
        p.db@ == RETENTION_ANY_DB@ && p.table@ == table ==> governs(p, db, table),
{
}

/// The seconds of the first policy with a name and a table, from a place on.
pub open spec fn seconds_from(
    policies: Seq<RetentionPolicy>,
    db: Seq<char>,
    table: Seq<char>,
    i: int,
) -> Option<u64>
    decreases policies.len() - i,
{
    if i < 0 || i >= policies.len() {
        None
    } else if policies[i].db@ == db && policies[i].table@ == table {
        Some(policies[i].seconds)
    } else {
        seconds_from(policies, db, table, i + 1)
    }
}

/// The seconds that are set for exactly a name and a table.
fn seconds_set(policies: &Vec<RetentionPolicy>, db: &str, table: &str) -> (r: Option<u64>)
    ensures
        r == seconds_from(policies@, db@, table@, 0),
{
    let mut i: usize = 0;
    while i < policies.len()
        invariant
            i <= policies.len(),
            seconds_from(policies@, db@, table@, 0) == seconds_from(
                policies@,
                db@,
                table@,
                i as int,
            ),
        decreases policies.len() - i,
    {
        if text::same(policies[i].db.as_str(), db) && text::same(
            policies[i].table.as_str(),
            table,
        ) {
            return Some(policies[i].seconds);
        }
        i += 1;
    }
    None
}

/// The tables and databases of policies, by which they are listed.
pub open spec fn policy_keys(policies: Seq<RetentionPolicy>) -> Seq<(Seq<char>, Seq<char>)> {
    policies.map_values(|p: RetentionPolicy| (p.table@, p.db@))
}

/// The places of policies in the order in which they are listed.
pub fn listed(policies: &Vec<RetentionPolicy>) -> (r: Vec<usize>)
    ensures
        r@.len() == policies@.len(),
        pairs::in_turn(policy_keys(policies@), r@),
{
    let mut keys: Vec<(String, String)> = Vec::new();
    let mut i: usize = 0;
    while i < policies.len()
        invariant
            i <= policies.len(),
            keys@.len() == i,
            forall|j: int|
                0 <= j < i ==> (#[trigger] keys@[j]).0@ == policies@[j].table@ && keys@[j].1@
                    == policies@[j].db@,
        decreases policies.len() - i,
    {
        keys.push((policies[i].table.clone(), policies[i].db.clone()));
        i += 1;
    }
    assert(ingest::tag_views(keys@) =~= policy_keys(policies@));
    pairs::order(&keys)
}

// -------------------------------------------------------------------- a change

/// What is asked for. The database is given, or the name that stands for every
/// one.
#[derive(Debug)]
pub struct RetentionSet {
    pub db: Option<String>,
    pub table: String,
    pub duration: String,
}

/// A policy that is about to be set: how long the table was kept so far, and
/// whether data goes that would have stayed.
#[derive(Debug)]
pub struct RetentionPlan {
    pub db: String,
    pub table: String,
    pub seconds: u64,
    pub current: Option<u64>,
    pub destructive: bool,
    pub all_databases: bool,
}

/// What a plan says.
#[verifier::ext_equal]
pub struct RetentionPlanView {
    pub db: Seq<char>,
    pub table: Seq<char>,
    pub seconds: u64,
    pub current: Option<u64>,
    pub destructive: bool,
    pub all_databases: bool,
}

impl View for RetentionPlan {
    type V = RetentionPlanView;

    open spec fn view(&self) -> RetentionPlanView {
        RetentionPlanView {
            db: self.db@,
            table: self.table@,
            seconds: self.seconds,
            current: self.current,
            destructive: self.destructive,
            all_databases: self.all_databases,
        }
    }
}

/// Whether data goes that would have stayed: the time gets shorter, or there
/// was no end to it.
pub open spec fn destroys(current: Option<u64>, seconds: u64) -> bool {
    match current {
        Some(now) => seconds < now,
        None => true,
    }
}

/// What is asked of a sender who names no database.
pub open spec fn name_the_database() -> Seq<char> {
    "db is required: name the database this policy governs, or \"*\" for every database. It was previously implicit and always meant \"*\", which deleted same-named tables in databases the operator had not named"@
}

/// The database that is asked for, without the space around it.
pub open spec fn asked_database(db: Option<Seq<char>>) -> Option<Seq<char>> {
    match db {
        Some(d) => if text::trimmed(d).len() > 0 {
            Some(text::trimmed(d))
        } else {
            None
        },
        None => None,
    }
}

/// The plan for what is asked, or the refusal of what cannot be planned.
pub open spec fn planned(
    db: Option<Seq<char>>,
    table: Seq<char>,
    duration: Seq<char>,
    policies: Seq<RetentionPolicy>,
) -> Result<RetentionPlanView, RefusalView> {
    let t = text::trimmed(table);
    if t.len() == 0 {
        Err(api::plain(400, "table must not be empty"@))
    } else {
        match asked_database(db) {
            None => Err(api::plain(400, name_the_database())),
            Some(d) => match duration_of(duration) {
                None => Err(
                    api::plain(
                        400,
                        "duration "@ + text::debug_text(duration)
                            + " is not <n>d, <n>h, <n>m, or seconds (and must be > 0)"@,
                    ),
                ),
                Some(n) => {
                    let current = seconds_from(policies, d, t, 0);
                    Ok(
                        RetentionPlanView {
                            db: d,
                            table: t,
                            seconds: n as u64,
                            current,
                            destructive: destroys(current, n as u64),
                            all_databases: d == RETENTION_ANY_DB@,
                        },
                    )
                },
            },
        }
    }
}

/// The role that a plan needs.
pub open spec fn role_for(destructive: bool) -> Role {
    if destructive {
        Role::Admin
    } else {
        Role::Operator
    }
}

/// What is decided of what is asked: it is planned, then the sender's role is
/// looked at, then whether the trail can be written.
pub open spec fn decided(
    role: Role,
    trail: bool,
    plan: Result<RetentionPlanView, RefusalView>,
) -> Result<RetentionPlanView, RefusalView> {
    match plan {
        Err(f) => Err(f),
        Ok(p) => match api::role_refusal(role, role_for(p.destructive)) {
            Some(f) => Err(f),
            None => if trail {
                Ok(p)
            } else {
                Err(api::no_trail())
            },
        },
    }
}

/// Whether a result is the plan or the refusal that it should be.
pub open spec fn gives(
    r: Result<RetentionPlan, Refusal>,
    v: Result<RetentionPlanView, RefusalView>,
) -> bool {
    match (r, v) {
        (Ok(p), Ok(q)) => p@ == q,
        (Err(f), Err(g)) => f@ == g,
        _ => false,
    }
}

/// Plans what is asked.
pub fn plan_retention(set: &RetentionSet, policies: &Vec<RetentionPolicy>) -> (r: Result<
    RetentionPlan,
    Refusal,
>)
    ensures
        gives(r, planned(batch::opt_text(set.db), set.table@, set.duration@, policies@)),
{
    let table = text::trim(set.table.as_str());
    if table.as_str().unicode_len() == 0 {
        return Err(refuse(400, "table must not be empty"));
    }
    let db: Option<String> = match &set.db {
        Some(d) => {
            let t = text::trim(d.as_str());
            if t.as_str().unicode_len() > 0 {
                Some(t)
            } else {
                None
            }
        },
        None => None,
    };
    let db = match db {
        Some(d) => d,
        None => {
            return Err(
                refuse(
                    400,
                    "db is required: name the database this policy governs, or \"*\" for every database. It was previously implicit and always meant \"*\", which deleted same-named tables in databases the operator had not named",
                ),
            );
        },
    };
    let seconds: u64 = match parse_duration_secs(set.duration.as_str()) {
        Some(n) => n,
        None => {
            let mut m = "duration ".to_owned();
            m.append(text::quote(set.duration.as_str()).as_str());
            m.append(" is not <n>d, <n>h, <n>m, or seconds (and must be > 0)");
            return Err(refuse_with(400, m));
        },
    };
    let current: Option<u64> = seconds_set(policies, db.as_str(), table.as_str());
    let destructive: bool = match current {
        Some(now) => seconds < now,
        None => true,
    };
    let all_databases: bool = text::same(db.as_str(), RETENTION_ANY_DB);
    Ok(RetentionPlan { db, table, seconds, current, destructive, all_databases })
}

/// Decides on a policy that is asked for. `body` is what is asked for, or why
/// it cannot be read.
pub fn retention_set(
    session: &SessionInfo,
    log: &AuditLog,
    body: Result<RetentionSet, String>,
    policies: &Vec<RetentionPolicy>,
) -> (r: Result<RetentionPlan, Refusal>)
    ensures
        gives(
            r,
            match body {
                Err(m) => Err(api::plain(400, m@)),
                Ok(set) => decided(
                    session.role,
                    log.healthy || log.fail_open,
                    planned(batch::opt_text(set.db), set.table@, set.duration@, policies@),
                ),
            },
        ),
{
    let set = match body {
        Ok(s) => s,
        Err(m) => {
            return Err(refuse_with(400, m));
        },
    };
    let plan = match plan_retention(&set, policies) {
        Ok(p) => p,
        Err(f) => {
            return Err(f);
        },
    };
    let needed = if plan.destructive {
        Role::Admin
    } else {
        Role::Operator
    };
    if let Some(f) = require(session, needed) {
        return Err(f);
    }
    if let Some(f) = audit_gate(log) {
        return Err(f);
    }
    Ok(plan)
}

/// Nobody but an administrator lets data go that would have stayed, and nobody
/// below an operator changes how long a table is kept.
pub proof fn only_an_administrator_destroys(
    role: Role,
    trail: bool,
    plan: Result<RetentionPlanView, RefusalView>,
)
    requires
        decided(role, trail, plan) is Ok,
    ensures
        decided(role, trail, plan)->Ok_0.destructive ==> role == Role::Admin,
        role != Role::Viewer,
{
}

/// Reaching into databases that no policy for every database covered yet counts
/// as letting data go.
pub proof fn widening_destroys(
    db: Seq<char>,
    table: Seq<char>,
    duration: Seq<char>,
    policies: Seq<RetentionPolicy>,
)
    requires
        text::trimmed(db) == RETENTION_ANY_DB@,
        seconds_from(policies, RETENTION_ANY_DB@, text::trimmed(table), 0) is None,
    ensures
        planned(Some(db), table, duration, policies) matches Ok(p) ==> p.destructive
            && p.all_databases,
{
}

// ----------------------------------------------------------------- the records

/// The JSON of the time that a table is kept, behind what stands before it.
pub open spec fn kept_json(front: Seq<char>, secs: u64) -> Seq<char> {
    front + "\"duration\":"@ + json::json_text(shown_seconds(secs as nat)) + ",\"seconds\":"@
        + text::decimal(secs as nat) + "}"@
}

fn kept_text(front: String, secs: u64) -> (r: String)
    ensures
        r@ == kept_json(front@, secs),
{
    let mut s = front;
    json::put_text(&mut s, "\"duration\":", humanize_secs(secs).as_str());
    json::put_number(&mut s, ",\"seconds\":", secs);
    s.append("}");
    s
}

/// The JSON of a database, as far as what follows it.
pub open spec fn database_json(db: Seq<char>) -> Seq<char> {
    "{\"db\":"@ + json::json_text(db) + ","@
}

fn database_text(db: &str) -> (r: String)
    ensures
        r@ == database_json(db@),
{
    let mut s = String::new();
    json::put_text(&mut s, "{\"db\":", db);
    s.append(",");
    assert(s@ =~= database_json(db@));
    s
}

/// A database and a table as they are named in the trail.
pub open spec fn scoped(db: Seq<char>, table: Seq<char>) -> Seq<char> {
    db + "."@ + table
}

/// Names a database and a table for the trail.
pub fn scope(db: &str, table: &str) -> (r: String)
    ensures
        r@ == scoped(db@, table@),
{
    let mut s = db.to_owned();
    s.append(".");
    s.append(table);
    s
}

/// The change that a plan makes.
pub fn set_mutation(p: &RetentionPlan) -> (r: Mutation)
    ensures
        r@ == (MutationView {
            op: Operation::RetentionSet,
            target: Some(scoped(p.db@, p.table@)),
            before: match p.current {
                Some(now) => Some(kept_json("{"@, now)),
                None => None,
            },
            after: Some(kept_json(database_json(p.db@), p.seconds)),
        }),
{
    let before = match p.current {
        Some(now) => Some(kept_text("{".to_owned(), now)),
        None => None,
    };
    Mutation {
        op: Operation::RetentionSet,
        target: Some(scope(p.db.as_str(), p.table.as_str())),
        before,
        after: Some(kept_text(database_text(p.db.as_str()), p.seconds)),
    }
}

/// The removal of a policy, which needs an administrator: the table then grows
/// without end.
pub fn retention_delete(
    session: &SessionInfo,
    log: &AuditLog,
    db: &str,
    table: &str,
    policies: &Vec<RetentionPolicy>,
) -> (r: Result<Mutation, Refusal>)
    ensures
        match (
            r,
            api::role_refusal(session.role, Role::Admin),
            log.healthy || log.fail_open,
        ) {
            (Err(f), Some(g), _) => f@ == g,
            (Err(f), None, false) => f@ == api::no_trail(),
            (Ok(m), None, true) => m@ == (MutationView {
                op: Operation::RetentionRemove,
                target: Some(scoped(db@, table@)),
                before: match seconds_from(policies@, db@, table@, 0) {
                    Some(now) => Some(kept_json(database_json(db@), now)),
                    None => None,
                },
                after: None,
            }),
            _ => false,
        },
{
    if let Some(f) = require(session, Role::Admin) {
        return Err(f);
    }
    if let Some(f) = audit_gate(log) {
        return Err(f);
    }
    let before = match seconds_set(policies, db, table) {
        Some(now) => Some(kept_text(database_text(db), now)),
        None => None,
    };
    Ok(
        Mutation {
            op: Operation::RetentionRemove,
            target: Some(scope(db, table)),
            before,
            after: None,
        },
    )
}

/// A numeral with a unit behind it is that many of the unit: days, hours,
/// minutes or seconds, and seconds without one; nothing lasts no time at all.
pub proof fn a_duration_is_so_many_of_its_unit(n: u64)
    ensures
        n > 0 ==> duration_of(text::decimal(n as nat)) == Some(n as nat),
        n > 0 ==> duration_of(text::decimal(n as nat).push('s')) == Some(n as nat),
        0 < n * 60 <= u64::MAX ==> duration_of(text::decimal(n as nat).push('m')) == Some(
            (n * 60) as nat,
        ),
        0 < n * 60 * 60 <= u64::MAX ==> duration_of(text::decimal(n as nat).push('h')) == Some(
            (n * 60 * 60) as nat,
        ),
        0 < n * 24 * 60 * 60 <= u64::MAX ==> duration_of(text::decimal(n as nat).push('d')) == Some(
            (n * 24 * 60 * 60) as nat,
        ),
        duration_of(seq!['0', 's']) is None,
{
    let d = text::decimal(n as nat);
    let none = Seq::<char>::empty();
    text::unsigned_numerals_read_back(n as nat, u64::MAX as nat);
    text::decimal_spells(n as nat);
    assert(text::is_digit(d[0]));
    assert(text::is_digit(d[d.len() - 1]));
    text::what_stands_in_space_is_left(none, d, none);
    assert(none + d + none =~= d);
    lemma_with_unit(d, 's');
    lemma_with_unit(d, 'm');
    lemma_with_unit(d, 'h');
    lemma_with_unit(d, 'd');
    assert(seq!['0', 's'] =~= seq!['0'].push('s'));
    text::unsigned_numerals_read_back(0, u64::MAX as nat);
    assert(text::decimal(0) =~= seq!['0']);
    text::what_stands_in_space_is_left(none, seq!['0'], none);
    assert(none + seq!['0'] + none =~= seq!['0']);
    lemma_with_unit(seq!['0'], 's');
}

proof fn lemma_with_unit(d: Seq<char>, unit: char)
    requires
        d.len() > 0,
        text::is_digit(d[0]),
        !text::is_space(unit),
    ensures
        text::trimmed(d.push(unit)) == d.push(unit),
        d.push(unit).last() == unit,
        d.push(unit).drop_last() == d,
{
    let none = Seq::<char>::empty();
    let t = d.push(unit);
    assert(t[0] == d[0]);
    text::what_stands_in_space_is_left(none, t, none);
    assert(none + t + none =~= t);
    assert(t.drop_last() =~= d);
}

/// The policy in force for a table is the first that names it and its database.
pub proof fn the_first_policy_of_a_table_is_in_force(
    policies: Seq<RetentionPolicy>,
    db: Seq<char>,
    table: Seq<char>,
    i: int,
)
    ensures
        0 <= i < policies.len() && policies[i].db@ == db && policies[i].table@ == table && (forall|
            j: int,
        |
            0 <= j < i ==> !((#[trigger] policies[j]).db@ == db && policies[j].table@ == table))
            ==> seconds_from(policies, db, table, 0) == Some(policies[i].seconds),
        (forall|j: int|
            0 <= j < policies.len() ==> !((#[trigger] policies[j]).db@ == db && policies[j].table@
                == table)) ==> seconds_from(policies, db, table, 0) is None,
{
    lemma_seconds_from(policies, db, table, 0, i);
}

proof fn lemma_seconds_from(
    policies: Seq<RetentionPolicy>,
    db: Seq<char>,
    table: Seq<char>,
    k: int,
    i: int,
)
    requires
        0 <= k,
    ensures
        k <= i < policies.len() && policies[i].db@ == db && policies[i].table@ == table && (forall|
            j: int,
        |
            k <= j < i ==> !((#[trigger] policies[j]).db@ == db && policies[j].table@ == table))
            ==> seconds_from(policies, db, table, k) == Some(policies[i].seconds),
        (forall|j: int|
            k <= j < policies.len() ==> !((#[trigger] policies[j]).db@ == db && policies[j].table@
                == table)) ==> seconds_from(policies, db, table, k) is None,
    decreases policies.len() - k,
{
    if k < policies.len() {
        lemma_seconds_from(policies, db, table, k + 1, i);
    }
}

/// A change destroys rows exactly if it keeps them for less time than now, or
/// if nothing bounds them now; one that destroys none needs an operator, one
/// that does an administrator, and either a trail.
pub proof fn a_change_is_decided_by_what_it_destroys(
    role: Role,
    trail: bool,
    plan: RetentionPlanView,
    current: Option<u64>,
    seconds: u64,
)
    ensures
        destroys(current, seconds) <==> current is None || seconds < current->Some_0,
        decided(role, trail, Ok(plan)) is Ok <==> trail && (role == Role::Admin || role
            == Role::Operator && !plan.destructive),
        decided(role, trail, Ok(plan)) matches Ok(p) ==> p == plan,
{
}

} // verus!
