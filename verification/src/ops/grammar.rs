use crate::evaluation::evaluation_of;
use crate::evaluation::parse_of;
use crate::model::Expr;
use crate::model::occurs;
use crate::model::RuleTable;
use crate::opaque_identifier::OpaqueIdentifier;
use crate::ops::parser_operator::ParserOperator;
use crate::ops::parser_rule_set::is_rule_at;
use crate::ops::parser_rule_set::ParserRuleSet;
use crate::parser_context::evaluated;
use crate::parser_context::ready;
use crate::parser_context::outcome_of;
use crate::parser_context::ParserContext;
use crate::parser_match::ParserMatch;
use crate::table::lemma_first_named_in_range;
use crate::table::lemma_occurs_trans;
use std::rc::Rc;
use vstd::prelude::*;

verus! {

/// A table of named rules. Matching a grammar matches its starting rule,
/// with the grammar's rules in force for every rule reference below it.
#[derive(Debug)]
pub struct Grammar {
    id: OpaqueIdentifier,
    parser_rule_set: Rc<ParserRuleSet>,
}

impl Grammar {
    pub closed spec fn model(&self) -> Expr
        decreases self,
    {
        Expr::Grammar { id: self.id@, rules: self.parser_rule_set.model() }
    }
}

impl View for Grammar {
    type V = Expr;

    open spec fn view(&self) -> Expr {
        self.model()
    }
}

/// The models of a list of rules as they are given to a grammar.
pub open spec fn named_rules(rules: Seq<(&str, Rc<ParserOperator>)>) -> Seq<(Seq<char>, Expr)> {
    Seq::new(rules.len(), |i: int| (rules[i].0@, rules[i].1@))
}

/// The name of the starting rule as it is given to a grammar.
pub open spec fn named_start(starting_rule: Option<&str>) -> Option<Seq<char>> {
    match starting_rule {
        Some(name) => Some(name@),
        None => None,
    }
}

impl Grammar {
    pub fn new(
        id: OpaqueIdentifier,
        starting_rule: Option<&str>,
        rules: Vec<(&str, Rc<ParserOperator>)>,
    ) -> (grammar: Self)
        requires
            (RuleTable {
                rules: named_rules(rules@),
                start: named_start(starting_rule),
            }).names_distinct(),
        ensures
            grammar@ == (Expr::Grammar {
                id: id@,
                rules: RuleTable { rules: named_rules(rules@), start: named_start(starting_rule) },
            }),
    {
        let mut rule_set: Vec<(Rc<String>, Rc<ParserOperator>)> = Vec::new();
        let mut i: usize = 0;
        while i < rules.len()
            invariant
                i <= rules.len(),
                rule_set@.len() == i,
                forall|j: int|
                    0 <= j < i ==> (#[trigger] rule_set@[j]).0@ == rules@[j].0@ && rule_set@[j].1@
                        == rules@[j].1@,
            decreases rules.len() - i,
        {
            rule_set.push((Rc::new(rules[i].0.to_owned()), rules[i].1.clone()));
            i += 1;
        }
        let starting_rule_name = match starting_rule {
            Some(name) => Some(name.to_owned()),
            None => None,
        };
        let parser_rule_set = ParserRuleSet { rule_set, starting_rule_name };
        assert(parser_rule_set@.rules =~= named_rules(rules@));
        Grammar { id, parser_rule_set: Rc::new(parser_rule_set) }
    }

    /// The rules of this grammar.
    pub fn parser_rule_set(&self) -> (rule_set: &Rc<ParserRuleSet>)
        ensures
            self@ is Grammar,
            self@->rules == rule_set@,
    {
        &self.parser_rule_set
    }

    pub fn get_id(&self) -> (id: usize)
        ensures
            id == self@.id(),
            self@ is Grammar,
    {
        self.id.id()
    }

    /// The rule table of this grammar.
    pub open spec fn rules(&self) -> RuleTable {
        self@->Grammar_rules
    }

    /// Takes a name and returns the first rule of that name, if there is
    /// one. The result shares the rule's data with the grammar.
    pub fn get_rule_by_name(&self, rule_name: &str) -> (found: Option<
        (Rc<String>, Rc<ParserOperator>),
    >)
        ensures
            is_rule_at(self.rules(), self.rules().index_of(rule_name@), found),
    {
        self.parser_rule_set.get_rule_by_name(rule_name)
    }

    /// The rule to start with: the rule of the starting name where that
    /// name is given and present, else the first rule, if there is one.
    pub fn get_starting_rule(&self) -> (found: Option<(Rc<String>, Rc<ParserOperator>)>)
        ensures
            is_rule_at(self.rules(), self.rules().starting(), found),
    {
        self.parser_rule_set.get_starting_rule()
    }
}

impl Grammar {
    /// Matches where the starting rule matches, with this grammar's rules
    /// in force meanwhile, and puts that match under the rule's name.
    pub fn parse_internal(&self, context: &mut ParserContext, start_position: usize) -> (result:
        Option<Rc<ParserMatch>>)
        requires
            ready(old(context), self@, start_position),
        ensures
            evaluated(old(context), final(context), self@, start_position, result),
        decreases old(context).vacancies(), 1int,
    {
        context.bind(Ghost(self@));
        let ghost table = self.parser_rule_set@;
        let ghost scope = context.scope();
        proof {
            context.lemma_vacancies();
            context.lemma_operable(self@);
            let i = table.starting()->0;
            if let Some(name) = table.start {
                lemma_first_named_in_range(table.rules, name, 0);
            }
            let rule = table.rules[i];
            assert(occurs(rule.1, Some(table), rule.1, Some(table)));
            assert(occurs(self@, scope, rule.1, Some(table)));
            lemma_occurs_trans(context.root()->0, None, self@, scope, rule.1, Some(table));
        }
        let ghost before = *context;
        context.enter_rule_set(self.parser_rule_set.clone());
        assert(context.scopes().drop_last() =~= old(context).scopes());
        let ghost entered = *context;
        match context.get_starting_rule() {
            Some((rule_name, parser_operator)) => {
                let found = parser_operator.parse(context, start_position);
                let ghost ended = *context;
                let result = match &found {
                    Some(inner) => Some(inner.with_label(rule_name)),
                    None => None,
                };
                context.leave_rule_set();
                proof {
                    assert forall|depth: nat| depth >= before.vacancies() implies
                        #[trigger] evaluation_of(
                        self@,
                        before.scope(),
                        before.text(),
                        before.table(),
                        before.reentered(),
                        start_position,
                        depth,
                    ) == Some(outcome_of(context, result)) by {
                        assert(parse_of(
                            parser_operator@,
                            entered.scope(),
                            entered.text(),
                            entered.table(),
                            entered.reentered(),
                            start_position,
                            depth,
                        ) == Some(outcome_of(&ended, found)));
                    }
                }
                result
            },
            None => {
                // A grammar below a well-formed root has a rule to start with.
                proof {
                    assert(false);
                }
                None
            },
        }
    }
}

} // verus!
