//! Only reads are executed, judged by the plan and not by the statement's
//! text: a plan is refused if any node of it, wrapped ones too, has an effect.
use vstd::prelude::*;

verus! {

/// The kinds of nodes that plans are made of.
#[derive(Debug, Clone, Copy, PartialEq, Eq, Structural)]
pub enum Node {
    Copy,
    Ddl,
    Dml,
    Statement,
    Projection,
    Filter,
    Window,
    Aggregate,
    Sort,
    Join,
    Repartition,
    Union,
    TableScan,
    EmptyRelation,
    Subquery,
    SubqueryAlias,
    Limit,
    Values,
    Explain,
    Analyze,
    Extension,
    Distinct,
    DescribeTable,
    Unnest,
    RecursiveQuery,
}

/// A plan: a node, the plans that it takes rows from, and those that an
/// `EXPLAIN` or `ANALYZE` node wraps without taking rows from them.
pub struct Plan {
    pub node: Node,
    pub inputs: Vec<Plan>,
    pub wrapped: Vec<Plan>,
}

/// What a node does to the world, if anything.
pub open spec fn effect_text(node: Node) -> Option<Seq<char>> {
    match node {
        Node::Copy => Some("COPY … TO"@),
        Node::Ddl => Some("CREATE/DROP (DDL)"@),
        Node::Dml => Some("INSERT/UPDATE/DELETE"@),
        Node::Statement => Some("a session/transaction statement"@),
        _ => None,
    }
}

/// The first effect of a plan: its node's, else the first of its inputs, else
/// of what it wraps.
pub open spec fn first_effect(p: Plan) -> Option<Seq<char>>
    decreases p,
{
    match effect_text(p.node) {
        Some(e) => Some(e),
        None => match first_among(p.inputs@) {
            Some(e) => Some(e),
            None => first_among(p.wrapped@),
        },
    }
}

/// The first effect among plans.
pub open spec fn first_among(plans: Seq<Plan>) -> Option<Seq<char>>
    decreases plans,
{
    if plans.len() == 0 {
        None
    } else {
        match first_among(plans.subrange(0, plans.len() - 1)) {
            Some(e) => Some(e),
            None => first_effect(plans[plans.len() - 1]),
        }
    }
}

/// Whether no node of a plan, wrapped plans included, has an effect.
pub open spec fn only_reads(p: Plan) -> bool
    decreases p,
{
    &&& effect_text(p.node) is None
    &&& all_read(p.inputs@)
    &&& all_read(p.wrapped@)
}

/// Whether plans only read.
pub open spec fn all_read(plans: Seq<Plan>) -> bool
    decreases plans,
{
    forall|i: int| 0 <= i < plans.len() ==> only_reads(#[trigger] plans[i])
}

/// What is answered to a statement with an effect.
pub open spec fn refusal(effect: Seq<char>) -> Seq<char> {
    effect
        + " is not permitted here: this endpoint executes read-only SQL (SELECT, SHOW, DESCRIBE, EXPLAIN). See SECURITY.md."@
}

fn effect_of(node: Node) -> (r: Option<String>)
    ensures
        match (r, effect_text(node)) {
            (Some(s), Some(t)) => s@ == t,
            (None, None) => true,
            _ => false,
        },
{
    match node {
        Node::Copy => Some("COPY … TO".to_owned()),
        Node::Ddl => Some("CREATE/DROP (DDL)".to_owned()),
        Node::Dml => Some("INSERT/UPDATE/DELETE".to_owned()),
        Node::Statement => Some("a session/transaction statement".to_owned()),
        _ => None,
    }
}

proof fn lemma_first_stays(plans: Seq<Plan>, k: int)
    requires
        0 <= k <= plans.len(),
        first_among(plans.subrange(0, k)) is Some,
    ensures
        first_among(plans) == first_among(plans.subrange(0, k)),
    decreases plans.len(),
{
    if k == plans.len() {
        assert(plans.subrange(0, k) =~= plans);
    } else {
        let init = plans.subrange(0, plans.len() - 1);
        assert(init.subrange(0, k) =~= plans.subrange(0, k));
        lemma_first_stays(init, k);
    }
}

fn check_all(plans: &Vec<Plan>) -> (r: Result<(), String>)
    ensures
        match (r, first_among(plans@)) {
            (Ok(_), None) => true,
            (Err(m), Some(e)) => m@ == refusal(e),
            _ => false,
        },
    decreases plans,
{
    let mut i: usize = 0;
    assert(plans@.subrange(0, 0).len() == 0);
    while i < plans.len()
        invariant
            i <= plans.len(),
            first_among(plans@.subrange(0, i as int)) is None,
        decreases plans.len() - i,
    {
        let ghost next = plans@.subrange(0, i + 1);
        assert(next.subrange(0, next.len() - 1) =~= plans@.subrange(0, i as int));
        assert(next[next.len() - 1] == plans@[i as int]);
        assert(decreases_to!(plans => plans@[i as int]));
        match ensure_read_only(&plans[i]) {
            Ok(_) => {},
            Err(m) => {
                proof {
                    lemma_first_stays(plans@, i + 1);
                }
                return Err(m);
            },
        }
        i += 1;
    }
    assert(plans@.subrange(0, plans@.len() as int) =~= plans@);
    Ok(())
}

/// Refuses a plan that does anything but read.
pub fn ensure_read_only(plan: &Plan) -> (r: Result<(), String>)
    ensures
        match (r, first_effect(*plan)) {
            (Ok(_), None) => true,
            (Err(m), Some(e)) => m@ == refusal(e),
            _ => false,
        },
    decreases plan,
{
    if let Some(op) = effect_of(plan.node) {
        let mut m = op;
        m.append(
            " is not permitted here: this endpoint executes read-only SQL (SELECT, SHOW, DESCRIBE, EXPLAIN). See SECURITY.md.",
        );
        return Err(m);
    }
    match check_all(&plan.inputs) {
        Ok(_) => {},
        Err(m) => {
            return Err(m);
        },
    }
    check_all(&plan.wrapped)
}

proof fn lemma_first_among(plans: Seq<Plan>)
    ensures
        (first_among(plans) is None) == all_read(plans),
    decreases plans,
{
    if plans.len() > 0 {
        let init = plans.subrange(0, plans.len() - 1);
        let last = plans[plans.len() - 1];
        lemma_first_among(init);
        nothing_with_an_effect_passes(last);
        if all_read(plans) {
            assert forall|i: int| 0 <= i < init.len() implies only_reads(#[trigger] init[i]) by {
                assert(only_reads(plans[i]));
            }
        }
        if all_read(init) && only_reads(last) {
            assert forall|i: int| 0 <= i < plans.len() implies only_reads(#[trigger] plans[i]) by {
                if i < init.len() {
                    assert(only_reads(init[i]));
                }
            }
        }
    }
}

/// A plan passes exactly if no node of it, at any depth and however wrapped,
/// has an effect.
pub proof fn nothing_with_an_effect_passes(p: Plan)
    ensures
        (first_effect(p) is None) == only_reads(p),
    decreases p,
{
    lemma_first_among(p.inputs@);
    lemma_first_among(p.wrapped@);
}

/// Whether a plan holds a node of a kind, at any depth and however wrapped.
pub open spec fn holds_node(p: Plan, node: Node) -> bool
    decreases p,
{
    ||| p.node == node
    ||| any_holds_node(p.inputs@, node)
    ||| any_holds_node(p.wrapped@, node)
}

/// Whether any of some plans holds a node of a kind.
pub open spec fn any_holds_node(plans: Seq<Plan>, node: Node) -> bool
    decreases plans,
{
    exists|i: int| 0 <= i < plans.len() && holds_node(#[trigger] plans[i], node)
}

/// Whether a node writes, defines or changes anything.
pub open spec fn has_effect(node: Node) -> bool {
    node is Copy || node is Ddl || node is Dml || node is Statement
}

/// A plan is refused exactly if it holds a node that copies data out, defines or
/// drops something, writes rows, or changes the session.
pub proof fn a_plan_is_refused_for_its_effects(p: Plan)
    ensures
        first_effect(p) is Some <==> exists|node: Node| #[trigger] has_effect(node) && holds_node(
            p,
            node,
        ),
{
    nothing_with_an_effect_passes(p);
    if exists|node: Node| #[trigger] has_effect(node) && holds_node(p, node) {
        let node = choose|node: Node| #[trigger] has_effect(node) && holds_node(p, node);
        lemma_holds_effect(p, node);
    }
    if !only_reads(p) {
        lemma_has_effect(p);
    }
}

proof fn lemma_holds_effect(p: Plan, node: Node)
    requires
        has_effect(node),
        holds_node(p, node),
    ensures
        !only_reads(p),
    decreases p,
{
    if p.node != node {
        let list = if any_holds_node(p.inputs@, node) {
            p.inputs@
        } else {
            p.wrapped@
        };
        let i = choose|i: int| 0 <= i < list.len() && holds_node(#[trigger] list[i], node);
        lemma_holds_effect(list[i], node);
    }
}

proof fn lemma_has_effect(p: Plan)
    requires
        !only_reads(p),
    ensures
        exists|node: Node| #[trigger] has_effect(node) && holds_node(p, node),
    decreases p,
{
    if effect_text(p.node) is Some {
        assert(has_effect(p.node) && holds_node(p, p.node));
    } else {
        let list = if !all_read(p.inputs@) {
            p.inputs@
        } else {
            p.wrapped@
        };
        let i = choose|i: int| 0 <= i < list.len() && !only_reads(#[trigger] list[i]);
        lemma_has_effect(list[i]);
        let node = choose|node: Node| #[trigger] has_effect(node) && holds_node(list[i], node);
        assert(any_holds_node(list, node));
        assert(has_effect(node) && holds_node(p, node));
    }
}

} // verus!
