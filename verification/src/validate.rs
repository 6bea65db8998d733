use crate::model::Expr;
use crate::model::occurs;
use crate::model::operable;
use crate::model::Scope;
use crate::model::well_formed;
use crate::ops::parser_operator::ParserOperator;
use crate::ops::parser_rule_set::ParserRuleSet;
use crate::ops::sequence::models_of;
use crate::text::bytes_occur_at;
use crate::text::str_equal;
use std::rc::Rc;
use vstd::prelude::*;

verus! {

/// Tells whether two lists of operators stand for the same expressions.
pub fn same_operators(left: &Vec<Rc<ParserOperator>>, right: &Vec<Rc<ParserOperator>>) -> (same:
    bool)
    ensures
        same == (models_of(left@) == models_of(right@)),
    decreases models_of(left@),
{
    if left.len() != right.len() {
        assert(models_of(left@).len() != models_of(right@).len());
        return false;
    }
    let mut i: usize = 0;
    while i < left.len()
        invariant
            i <= left.len(),
            left.len() == right.len(),
            forall|j: int| 0 <= j < i ==> (#[trigger] left@[j])@ == right@[j]@,
        decreases left.len() - i,
    {
        proof {
            assert(models_of(left@)[i as int] == left@[i as int]@);
        }
        if !left[i].same_as(&right[i]) {
            assert(models_of(right@)[i as int] == right@[i as int]@);
            return false;
        }
        i += 1;
    }
    assert(models_of(left@) =~= models_of(right@));
    true
}

/// Tells whether two rule sets stand for the same rule table.
pub fn same_rule_set(left: &ParserRuleSet, right: &ParserRuleSet) -> (same: bool)
    ensures
        same == (left@ == right@),
    decreases left@,
{
    let same_start = match (&left.starting_rule_name, &right.starting_rule_name) {
        (Some(a), Some(b)) => str_equal(a.as_str(), b.as_str()),
        (None, None) => true,
        _ => false,
    };
    if !same_start {
        return false;
    }
    if left.rule_set.len() != right.rule_set.len() {
        assert(left@.rules.len() != right@.rules.len());
        return false;
    }
    let mut i: usize = 0;
    while i < left.rule_set.len()
        invariant
            i <= left.rule_set.len(),
            left.rule_set.len() == right.rule_set.len(),
            forall|j: int|
                0 <= j < i ==> (#[trigger] left.rule_set@[j]).0@ == right.rule_set@[j].0@
                    && left.rule_set@[j].1@ == right.rule_set@[j].1@,
        decreases left.rule_set.len() - i,
    {
        proof {
            let rule = left@.rules[i as int];
            assert(rule.1 == left.rule_set@[i as int].1@);
            assert(right@.rules[i as int].1 == right.rule_set@[i as int].1@);
            assert(right@.rules[i as int].0 == right.rule_set@[i as int].0@);
        }
        if !str_equal(left.rule_set[i].0.as_str(), right.rule_set[i].0.as_str()) {
            return false;
        }
        if !left.rule_set[i].1.same_as(&right.rule_set[i].1) {
            return false;
        }
        i += 1;
    }
    assert(left@.rules =~= right@.rules);
    true
}

impl ParserOperator {
    /// Tells whether this node and `other` stand for the same expression:
    /// the same kind of operator under the same identifier, with the same
    /// settings and, below it, the same expressions.
    pub fn same_as(&self, other: &ParserOperator) -> (same: bool)
        ensures
            same == (self@ == other@),
        decreases self@,
    {
        if self.get_id() != other.get_id() {
            return false;
        }
        match (self, other) {
            (ParserOperator::Literal(a), ParserOperator::Literal(b)) => {
                let left = a.literal_text().as_bytes();
                let right = b.literal_text().as_bytes();
                let same = left.len() == right.len() && bytes_occur_at(left, 0, right);
                proof {
                    if left.len() == right.len() {
                        assert(left@.subrange(0, right@.len() as int) =~= left@);
                    }
                }
                same
            },
            (ParserOperator::Regex(a), ParserOperator::Regex(b)) => {
                str_equal(a.pattern(), b.pattern()) && a.multi_line() == b.multi_line()
                    && a.case_insensitive() == b.case_insensitive() && a.dot_matches_new_line()
                    == b.dot_matches_new_line()
            },
            (ParserOperator::Sequence(a), ParserOperator::Sequence(b)) => {
                same_operators(a.children(), b.children())
            },
            (ParserOperator::Alternation(a), ParserOperator::Alternation(b)) => {
                same_operators(a.children(), b.children())
            },
            (ParserOperator::Quantity(a), ParserOperator::Quantity(b)) => {
                a.minimum_occurrences() == b.minimum_occurrences() && a.maximum_occurrences()
                    == b.maximum_occurrences() && a.child().same_as(b.child())
            },
            (ParserOperator::Lookahead(a), ParserOperator::Lookahead(b)) => {
                a.accept_match() == b.accept_match() && a.child().same_as(b.child())
                    && a.scout().same_as(b.scout())
            },
            (ParserOperator::Label(a), ParserOperator::Label(b)) => {
                str_equal(a.label(), b.label()) && a.child().same_as(b.child())
            },
            (ParserOperator::RuleReference(a), ParserOperator::RuleReference(b)) => {
                str_equal(a.rule_name(), b.rule_name())
            },
            (ParserOperator::Grammar(a), ParserOperator::Grammar(b)) => {
                same_rule_set(a.parser_rule_set(), b.parser_rule_set())
            },
            _ => false,
        }
    }
}

/// One place at which a node is evaluated: the node, and the rule set that
/// is active there.
pub struct Occurrence<'a> {
    pub operator: &'a ParserOperator,
    pub scope: Option<&'a ParserRuleSet>,
}

/// The rule table of a rule set that may be absent.
pub open spec fn scope_of(scope: Option<&ParserRuleSet>) -> Scope {
    match scope {
        Some(rule_set) => Some(rule_set@),
        None => None,
    }
}

/// True when `list` holds the node `n` under the rule table `s`.
pub open spec fn listed(list: Seq<Occurrence>, n: Expr, s: Scope) -> bool {
    exists|i: int|
        0 <= i < list.len() && (#[trigger] list[i]).operator@ == n && scope_of(list[i].scope) == s
}

/// Tells whether two rule sets that may be absent stand for the same rule
/// table.
pub fn same_scope(left: Option<&ParserRuleSet>, right: Option<&ParserRuleSet>) -> (same: bool)
    ensures
        same == (scope_of(left) == scope_of(right)),
{
    match (left, right) {
        (Some(a), Some(b)) => same_rule_set(a, b),
        (None, None) => true,
        _ => false,
    }
}

proof fn lemma_listed_push(list: Seq<Occurrence>, added: Occurrence, n: Expr, s: Scope)
    ensures
        listed(list.push(added), n, s) <==> listed(list, n, s) || (added.operator@ == n
            && scope_of(added.scope) == s),
{
    let longer = list.push(added);
    if listed(list, n, s) {
        let i = choose|i: int|
            0 <= i < list.len() && (#[trigger] list[i]).operator@ == n && scope_of(list[i].scope)
                == s;
        assert(longer[i] == list[i]);
    }
    if added.operator@ == n && scope_of(added.scope) == s {
        assert(longer[list.len() as int] == added);
    }
    if listed(longer, n, s) {
        let i = choose|i: int|
            0 <= i < longer.len() && (#[trigger] longer[i]).operator@ == n && scope_of(
                longer[i].scope,
            ) == s;
        if i < list.len() {
            assert(longer[i] == list[i]);
        }
    }
}

/// Adds to `into` every place at which a node of `operators` or below is
/// evaluated when `scope` is active at each of `operators`.
pub fn collect_all<'a>(
    operators: &'a Vec<Rc<ParserOperator>>,
    scope: Option<&'a ParserRuleSet>,
    into: &mut Vec<Occurrence<'a>>,
)
    ensures
        forall|n: Expr, s: Scope| #[trigger]
            listed(final(into)@, n, s) <==> listed(old(into)@, n, s) || exists|i: int|
                0 <= i < operators.len() && occurs(
                    #[trigger] models_of(operators@)[i],
                    scope_of(scope),
                    n,
                    s,
                ),
    decreases models_of(operators@),
{
    let ghost models = models_of(operators@);
    let ghost at_first = into@;
    let mut i: usize = 0;
    while i < operators.len()
        invariant
            i <= operators.len(),
            models == models_of(operators@),
            at_first == old(into)@,
            forall|n: Expr, s: Scope| #[trigger]
                listed(into@, n, s) <==> listed(at_first, n, s) || exists|j: int|
                    0 <= j < i && occurs(#[trigger] models[j], scope_of(scope), n, s),
        decreases operators.len() - i,
    {
        let ghost earlier = into@;
        proof {
            assert(models[i as int] == operators@[i as int]@);
        }
        collect(&operators[i], scope, into);
        proof {
            assert forall|n: Expr, s: Scope| #[trigger]
                listed(into@, n, s) <==> listed(at_first, n, s) || exists|j: int|
                    0 <= j < i + 1 && occurs(#[trigger] models[j], scope_of(scope), n, s) by {
                if occurs(models[i as int], scope_of(scope), n, s) {
                    assert(0 <= i < i + 1 && occurs(models[i as int], scope_of(scope), n, s));
                }
                assert(listed(earlier, n, s) <==> listed(at_first, n, s) || exists|j: int|
                    0 <= j < i && occurs(#[trigger] models[j], scope_of(scope), n, s));
            }
        }
        i += 1;
    }
}

/// Adds to `into` every place at which a node of the rules of `rule_set`
/// or below is evaluated when `rule_set` is active at each rule.
pub fn collect_rules<'a>(rule_set: &'a ParserRuleSet, into: &mut Vec<Occurrence<'a>>)
    ensures
        forall|n: Expr, s: Scope| #[trigger]
            listed(final(into)@, n, s) <==> listed(old(into)@, n, s) || exists|i: int|
                0 <= i < rule_set@.rules.len() && occurs(
                    (#[trigger] rule_set@.rules[i]).1,
                    Some(rule_set@),
                    n,
                    s,
                ),
    decreases rule_set@,
{
    let ghost rules = rule_set@.rules;
    let ghost at_first = into@;
    let ghost scope = Some(rule_set@);
    let mut i: usize = 0;
    while i < rule_set.rule_set.len()
        invariant
            i <= rule_set.rule_set.len(),
            rules == rule_set@.rules,
            rules.len() == rule_set.rule_set.len(),
            scope == Some(rule_set@),
            at_first == old(into)@,
            forall|n: Expr, s: Scope| #[trigger]
                listed(into@, n, s) <==> listed(at_first, n, s) || exists|j: int|
                    0 <= j < i && occurs((#[trigger] rules[j]).1, scope, n, s),
        decreases rule_set.rule_set.len() - i,
    {
        let ghost earlier = into@;
        proof {
            let rule = rules[i as int];
            assert(rule.1 == rule_set.rule_set@[i as int].1@);
        }
        collect(&rule_set.rule_set[i].1, Some(rule_set), into);
        proof {
            assert forall|n: Expr, s: Scope| #[trigger]
                listed(into@, n, s) <==> listed(at_first, n, s) || exists|j: int|
                    0 <= j < i + 1 && occurs((#[trigger] rules[j]).1, scope, n, s) by {
                if occurs(rules[i as int].1, scope, n, s) {
                    let rule = rules[i as int];
                    assert(0 <= i < i + 1 && occurs(rule.1, scope, n, s));
                }
                assert(listed(earlier, n, s) <==> listed(at_first, n, s) || exists|j: int|
                    0 <= j < i && occurs((#[trigger] rules[j]).1, scope, n, s));
            }
        }
        i += 1;
    }
}

/// Adds to `into` every place at which `operator` or a node below it is
/// evaluated when `scope` is active at `operator`.
pub fn collect<'a>(
    operator: &'a ParserOperator,
    scope: Option<&'a ParserRuleSet>,
    into: &mut Vec<Occurrence<'a>>,
)
    ensures
        forall|n: Expr, s: Scope| #[trigger]
            listed(final(into)@, n, s) <==> listed(old(into)@, n, s) || occurs(
                operator@,
                scope_of(scope),
                n,
                s,
            ),
    decreases operator@,
{
    let ghost at_first = into@;
    let ghost e = operator@;
    let ghost s0 = scope_of(scope);
    let own = Occurrence { operator, scope };
    into.push(own);
    let ghost with_own = into@;
    proof {
        assert forall|n: Expr, s: Scope| #[trigger]
            listed(with_own, n, s) <==> listed(at_first, n, s) || (e == n && s0 == s) by {
            lemma_listed_push(at_first, own, n, s);
        }
    }
    let id = operator.get_id();
    match operator {
        ParserOperator::Sequence(op) => {
            collect_all(op.children(), scope, into);
        },
        ParserOperator::Alternation(op) => {
            collect_all(op.children(), scope, into);
        },
        ParserOperator::Quantity(op) => {
            collect(op.child(), scope, into);
        },
        ParserOperator::Label(op) => {
            collect(op.child(), scope, into);
        },
        ParserOperator::Lookahead(op) => {
            collect(op.child(), scope, into);
            collect(op.scout(), scope, into);
        },
        ParserOperator::Grammar(op) => {
            collect_rules(op.parser_rule_set(), into);
        },
        ParserOperator::Literal(_) => {},
        ParserOperator::Regex(_) => {},
        ParserOperator::RuleReference(_) => {},
    }
}

/// Tells whether the node of an occurrence has what it needs: a rule
/// reference its rule in the active rule set, a grammar a rule to start
/// with, a regular expression a pattern that compiles.
pub fn is_operable(occurrence: &Occurrence) -> (ok: bool)
    ensures
        ok == operable(occurrence.operator@, scope_of(occurrence.scope)),
{
    let id = occurrence.operator.get_id();
    match occurrence.operator {
        ParserOperator::RuleReference(op) => match occurrence.scope {
            Some(rule_set) => rule_set.get_rule_by_name(op.rule_name()).is_some(),
            None => false,
        },
        ParserOperator::Grammar(op) => op.parser_rule_set().rule_set.len() > 0,
        ParserOperator::Regex(op) => op.compiles(),
        _ => true,
    }
}

/// True when two occurrences do not stand in each other's way: they differ
/// in their identifiers, or they are the same node and, where that node is
/// a rule reference, stand under the same rule table.
pub open spec fn compatible(left: Occurrence, right: Occurrence) -> bool {
    left.operator@.id() == right.operator@.id() ==> left.operator@ == right.operator@ && (
    left.operator@ is RuleReference ==> scope_of(left.scope) == scope_of(right.scope))
}

impl ParserOperator {
    /// Tells whether this node is a rule reference.
    pub fn is_rule_reference(&self) -> (is: bool)
        ensures
            is == (self@ is RuleReference),
    {
        let id = self.get_id();
        match self {
            ParserOperator::RuleReference(_) => true,
            _ => false,
        }
    }

    /// Tells whether this node can be parsed as a root.
    ///
    /// It can where every rule reference at or below it resolves, every
    /// grammar has a rule to start with and every pattern compiles, in each
    /// rule of each grammar, whether or not a parse would come to it; and
    /// where an identifier stands for one node, and for a rule reference
    /// under one grammar only. A node that two grammars share is refused
    /// only where a rule reference is shared with it.
    pub fn is_well_formed(&self) -> (ok: bool)
        ensures
            ok == well_formed(self@),
    {
        let mut list: Vec<Occurrence> = Vec::new();
        collect(self, None, &mut list);
        assert(forall|n: Expr, s: Scope| !listed(Seq::<Occurrence>::empty(), n, s));
        assert(forall|n: Expr, s: Scope| #[trigger]
            listed(list@, n, s) <==> occurs(self@, None, n, s));
        let mut i: usize = 0;
        while i < list.len()
            invariant
                i <= list.len(),
                forall|n: Expr, s: Scope| #[trigger]
                    listed(list@, n, s) <==> occurs(self@, None, n, s),
                forall|j: int|
                    0 <= j < i ==> operable(
                        (#[trigger] list@[j]).operator@,
                        scope_of(list@[j].scope),
                    ),
                forall|j: int, k: int|
                    0 <= k < j < i ==> compatible(#[trigger] list@[k], #[trigger] list@[j]),
            decreases list.len() - i,
        {
            proof {
                let here = list@[i as int];
                assert(listed(list@, here.operator@, scope_of(here.scope)));
            }
            if !is_operable(&list[i]) {
                return false;
            }
            let mut k: usize = 0;
            while k < i
                invariant
                    k <= i < list.len(),
                    forall|n: Expr, s: Scope| #[trigger]
                        listed(list@, n, s) <==> occurs(self@, None, n, s),
                    forall|h: int|
                        0 <= h < k ==> compatible(#[trigger] list@[h], list@[i as int]),
                decreases i - k,
            {
                if list[k].operator.get_id() == list[i].operator.get_id() {
                    let same_node = list[k].operator.same_as(list[i].operator);
                    let same_table = !list[k].operator.is_rule_reference() || same_scope(
                        list[k].scope,
                        list[i].scope,
                    );
                    if !(same_node && same_table) {
                        proof {
                            let a = list@[k as int];
                            let b = list@[i as int];
                            assert(listed(list@, a.operator@, scope_of(a.scope)));
                            assert(listed(list@, b.operator@, scope_of(b.scope)));
                        }
                        return false;
                    }
                }
                k += 1;
            }
            i += 1;
        }
        proof {
            assert forall|n: Expr, s: Scope| #[trigger]
                occurs(self@, None, n, s) implies operable(n, s) by {
                assert(listed(list@, n, s));
            }
            assert forall|n1: Expr, s1: Scope, n2: Expr, s2: Scope|
                #[trigger] occurs(self@, None, n1, s1) && #[trigger] occurs(self@, None, n2, s2)
                    && n1.id() == n2.id() implies n1 == n2 && (n1 is RuleReference ==> s1
                == s2) by {
                assert(listed(list@, n1, s1));
                assert(listed(list@, n2, s2));
                let a = choose|a: int|
                    0 <= a < list@.len() && (#[trigger] list@[a]).operator@ == n1 && scope_of(
                        list@[a].scope,
                    ) == s1;
                let b = choose|b: int|
                    0 <= b < list@.len() && (#[trigger] list@[b]).operator@ == n2 && scope_of(
                        list@[b].scope,
                    ) == s2;
                if a < b {
                    assert(compatible(list@[a], list@[b]));
                } else if b < a {
                    assert(compatible(list@[b], list@[a]));
                }
            }
        }
        true
    }
}

} // verus!
