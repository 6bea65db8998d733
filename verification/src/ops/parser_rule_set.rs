use crate::model::Expr;
use crate::model::first_named;
use crate::model::RuleTable;
use crate::ops::parser_operator::ParserOperator;
use crate::text::str_equal;
use std::rc::Rc;
use vstd::prelude::*;

verus! {

/// The rules of a grammar in declaration order, and the name of the rule to
/// start with where one was given.
#[derive(Debug)]
pub struct ParserRuleSet {
    pub rule_set: Vec<(Rc<String>, Rc<ParserOperator>)>,
    pub starting_rule_name: Option<String>,
}

/// The models of a list of named rules, in order.
pub open spec fn rules_of(rule_set: Seq<(Rc<String>, Rc<ParserOperator>)>) -> Seq<
    (Seq<char>, Expr),
>
    decreases rule_set,
{
    Seq::new(
        rule_set.len(),
        |i: int|
            if 0 <= i < rule_set.len() {
                (rule_set[i].0@, rule_set[i].1.model())
            } else {
                arbitrary()
            },
    )
}

/// The name of the starting rule, where one was given.
pub open spec fn start_of(starting_rule_name: Option<String>) -> Option<Seq<char>> {
    match starting_rule_name {
        Some(name) => Some(name@),
        None => None,
    }
}

impl ParserRuleSet {
    /// The rule set as a mathematical value.
    pub open spec fn model(&self) -> RuleTable
        decreases self,
    {
        RuleTable { rules: rules_of(self.rule_set@), start: start_of(self.starting_rule_name) }
    }
}

impl View for ParserRuleSet {
    type V = RuleTable;

    open spec fn view(&self) -> RuleTable {
        self.model()
    }
}

/// True when `found` is the rule at index `at` of `table`, or nothing where
/// there is no such index.
pub open spec fn is_rule_at(
    table: RuleTable,
    at: Option<int>,
    found: Option<(Rc<String>, Rc<ParserOperator>)>,
) -> bool {
    match found {
        Some((name, operator)) => at matches Some(i) && 0 <= i < table.rules.len() && name@
            == table.rules[i].0 && operator@ == table.rules[i].1,
        None => at is None,
    }
}

impl ParserRuleSet {
    /// Takes a name and returns the first rule of that name, if there is
    /// one. The result shares the rule's data with the rule set.
    pub fn get_rule_by_name(&self, rule_name: &str) -> (found: Option<
        (Rc<String>, Rc<ParserOperator>),
    >)
        ensures
            is_rule_at(self@, self@.index_of(rule_name@), found),
    {
        let ghost rules = self@.rules;
        let mut i: usize = 0;
        while i < self.rule_set.len()
            invariant
                i <= self.rule_set.len(),
                rules == self@.rules,
                first_named(rules, rule_name@, 0) == first_named(rules, rule_name@, i as int),
            decreases self.rule_set.len() - i,
        {
            if str_equal(rule_name, self.rule_set[i].0.as_str()) {
                return Some((self.rule_set[i].0.clone(), self.rule_set[i].1.clone()));
            }
            i += 1;
        }
        None
    }

    /// The rule to start with: the rule of the starting name where that
    /// name is given and present, else the first rule, if there is one.
    pub fn get_starting_rule(&self) -> (found: Option<(Rc<String>, Rc<ParserOperator>)>)
        ensures
            is_rule_at(self@, self@.starting(), found),
    {
        let named = match &self.starting_rule_name {
            Some(name) => self.get_rule_by_name(name.as_str()),
            None => None,
        };
        match named {
            Some(rule) => Some(rule),
            None => {
                if self.rule_set.len() > 0 {
                    Some((self.rule_set[0].0.clone(), self.rule_set[0].1.clone()))
                } else {
                    None
                }
            },
        }
    }
}

} // verus!
