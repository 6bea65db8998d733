use crate::model::Expr;
use crate::model::RuleTable;
use crate::opaque_identifier::OpaqueIdentifier;
use crate::ops::alternation::Alternation;
use crate::ops::grammar::Grammar;
use crate::ops::grammar::named_rules;
use crate::ops::grammar::named_start;
use crate::ops::label::Label;
use crate::ops::literal::Literal;
use crate::ops::lookahead::Lookahead;
use crate::ops::quantity::maximum_or_unbounded;
use crate::ops::quantity::Quantity;
use crate::ops::regex::anchored;
use crate::ops::regex::Regex;
use crate::ops::rule_reference::RuleReference;
use crate::ops::sequence::models_of;
use crate::ops::sequence::Sequence;
use std::rc::Rc;
use vstd::prelude::*;
use vstd::utf8::encode_utf8;

verus! {

/// One node of a parser expression: any of the nine operators.
#[derive(Debug)]
pub enum ParserOperator {
    Grammar(Grammar),
    /// label:[exp]
    Label(Label),
    /// rule
    RuleReference(RuleReference),
    /// "..."
    Literal(Literal),
    /// re"..."
    Regex(Regex),
    /// [exp] [exp] [exp]
    Sequence(Sequence),
    /// [exp] / [exp] / [exp]
    Alternation(Alternation),
    /// [exp]+ or [exp]* or [exp]? or [exp]{x,y}
    Quantity(Quantity),
    /// &[exp] or ![exp]
    Lookahead(Lookahead),
}

impl ParserOperator {
    /// The expression that this node stands for.
    pub open spec fn model(&self) -> Expr
        decreases self,
    {
        match self {
            ParserOperator::Grammar(op) => op.model(),
            ParserOperator::Label(op) => op.model(),
            ParserOperator::RuleReference(op) => op@,
            ParserOperator::Literal(op) => op@,
            ParserOperator::Regex(op) => op@,
            ParserOperator::Sequence(op) => op.model(),
            ParserOperator::Alternation(op) => op.model(),
            ParserOperator::Quantity(op) => op.model(),
            ParserOperator::Lookahead(op) => op.model(),
        }
    }
}

impl View for ParserOperator {
    type V = Expr;

    open spec fn view(&self) -> Expr {
        self.model()
    }
}

impl ParserOperator {
    /// True when the model of this node is of the node's own kind.
    pub open spec fn kind_agrees(&self) -> bool {
        match self {
            ParserOperator::Grammar(_) => self@ is Grammar,
            ParserOperator::Label(_) => self@ is Label,
            ParserOperator::RuleReference(_) => self@ is RuleReference,
            ParserOperator::Literal(_) => self@ is Literal,
            ParserOperator::Regex(_) => self@ is Regex,
            ParserOperator::Sequence(_) => self@ is Sequence,
            ParserOperator::Alternation(_) => self@ is Alternation,
            ParserOperator::Quantity(_) => self@ is Quantity,
            ParserOperator::Lookahead(_) => self@ is Lookahead,
        }
    }

    pub fn get_id(&self) -> (id: usize)
        ensures
            id == self@.id(),
            self.kind_agrees(),
    {
        match self {
            ParserOperator::Grammar(op) => op.get_id(),
            ParserOperator::Literal(op) => op.get_id(),
            ParserOperator::RuleReference(op) => op.get_id(),
            ParserOperator::Regex(op) => op.get_id(),
            ParserOperator::Alternation(op) => op.get_id(),
            ParserOperator::Lookahead(op) => op.get_id(),
            ParserOperator::Quantity(op) => op.get_id(),
            ParserOperator::Sequence(op) => op.get_id(),
            ParserOperator::Label(op) => op.get_id(),
        }
    }
}

/// The models of a list of operators that are held by value, in order.
pub open spec fn models_of_owned(operators: Seq<ParserOperator>) -> Seq<Expr> {
    Seq::new(operators.len(), |i: int| operators[i]@)
}

/// The models of a list of rules whose operators are held by value.
pub open spec fn named_rules_owned(rules: Seq<(&str, ParserOperator)>) -> Seq<(Seq<char>, Expr)> {
    Seq::new(rules.len(), |i: int| (rules[i].0@, rules[i].1@))
}

/// Puts each operator of a list behind a shared handle, in the same order.
pub fn share_all(operators: Vec<ParserOperator>) -> (shared: Vec<Rc<ParserOperator>>)
    ensures
        models_of(shared@) == models_of_owned(operators@),
{
    let mut operators = operators;
    let ghost given = operators@;
    let mut reversed: Vec<Rc<ParserOperator>> = Vec::new();
    while operators.len() > 0
        invariant
            operators@.len() + reversed@.len() == given.len(),
            forall|i: int| 0 <= i < operators@.len() ==> operators@[i] == given[i],
            forall|i: int|
                0 <= i < reversed@.len() ==> (#[trigger] reversed@[i])@ == given[given.len() - 1
                    - i]@,
        decreases operators.len(),
    {
        match operators.pop() {
            Some(operator) => reversed.push(Rc::new(operator)),
            None => {},
        }
    }
    let mut shared: Vec<Rc<ParserOperator>> = Vec::new();
    while reversed.len() > 0
        invariant
            shared@.len() + reversed@.len() == given.len(),
            forall|i: int|
                0 <= i < reversed@.len() ==> (#[trigger] reversed@[i])@ == given[given.len() - 1
                    - i]@,
            forall|i: int| 0 <= i < shared@.len() ==> (#[trigger] shared@[i])@ == given[i]@,
        decreases reversed.len(),
    {
        match reversed.pop() {
            Some(operator) => shared.push(operator),
            None => {},
        }
    }
    assert(models_of(shared@) =~= models_of_owned(given));
    shared
}

/// Puts the operator of each rule of a list behind a shared handle, in the
/// same order.
pub fn share_rules<'a>(rules: Vec<(&'a str, ParserOperator)>) -> (shared: Vec<
    (&'a str, Rc<ParserOperator>),
>)
    ensures
        named_rules(shared@) == named_rules_owned(rules@),
{
    let mut rules = rules;
    let ghost given = rules@;
    let mut reversed: Vec<(&'a str, Rc<ParserOperator>)> = Vec::new();
    while rules.len() > 0
        invariant
            rules@.len() + reversed@.len() == given.len(),
            forall|i: int| 0 <= i < rules@.len() ==> rules@[i] == given[i],
            forall|i: int|
                0 <= i < reversed@.len() ==> (#[trigger] reversed@[i]).0@ == given[given.len() - 1
                    - i].0@ && reversed@[i].1@ == given[given.len() - 1 - i].1@,
        decreases rules.len(),
    {
        match rules.pop() {
            Some((name, operator)) => reversed.push((name, Rc::new(operator))),
            None => {},
        }
    }
    let mut shared: Vec<(&'a str, Rc<ParserOperator>)> = Vec::new();
    while reversed.len() > 0
        invariant
            shared@.len() + reversed@.len() == given.len(),
            forall|i: int|
                0 <= i < reversed@.len() ==> (#[trigger] reversed@[i]).0@ == given[given.len() - 1
                    - i].0@ && reversed@[i].1@ == given[given.len() - 1 - i].1@,
            forall|i: int|
                0 <= i < shared@.len() ==> (#[trigger] shared@[i]).0@ == given[i].0@
                    && shared@[i].1@ == given[i].1@,
        decreases reversed.len(),
    {
        match reversed.pop() {
            Some(rule) => shared.push(rule),
            None => {},
        }
    }
    assert(named_rules(shared@) =~= named_rules_owned(given));
    shared
}

impl ParserOperator {
    pub fn grammar(
        id: OpaqueIdentifier,
        starting_rule: Option<&str>,
        rules: Vec<(&str, ParserOperator)>,
    ) -> (operator: Self)
        requires
            (RuleTable {
                rules: named_rules_owned(rules@),
                start: named_start(starting_rule),
            }).names_distinct(),
        ensures
            operator@ == (Expr::Grammar {
                id: id@,
                rules: RuleTable {
                    rules: named_rules_owned(rules@),
                    start: named_start(starting_rule),
                },
            }),
    {
        ParserOperator::Grammar(Grammar::new(id, starting_rule, share_rules(rules)))
    }

    pub fn literal(id: OpaqueIdentifier, literal_text: &str) -> (operator: Self)
        requires
            literal_text@.len() > 0,
        ensures
            operator@ == (Expr::Literal { id: id@, text: encode_utf8(literal_text@) }),
    {
        ParserOperator::Literal(Literal::new(id, literal_text))
    }

    pub fn regex(
        id: OpaqueIdentifier,
        pattern: &str,
        multi_line: bool,
        case_insensitive: bool,
        dot_matches_new_line: bool,
    ) -> (operator: Self)
        ensures
            operator@ == (Expr::Regex {
                id: id@,
                pattern: anchored(pattern@),
                multi_line,
                case_insensitive,
                dot_matches_new_line,
            }),
    {
        ParserOperator::Regex(
            Regex::new(id, pattern, multi_line, case_insensitive, dot_matches_new_line),
        )
    }

    pub fn sequence(id: OpaqueIdentifier, children: Vec<ParserOperator>) -> (operator: Self)
        requires
            children.len() > 0,
        ensures
            operator@ == (Expr::Sequence { id: id@, children: models_of_owned(children@) }),
    {
        let shared = share_all(children);
        assert(models_of(shared@).len() == shared@.len());
        ParserOperator::Sequence(Sequence::new(id, shared))
    }

    pub fn quantity(
        id: OpaqueIdentifier,
        child: ParserOperator,
        minimum_occurrences: usize,
        maximum_occurrences: Option<usize>,
    ) -> (operator: Self)
        requires
            minimum_occurrences < maximum_or_unbounded(maximum_occurrences),
        ensures
            operator@ == (Expr::Quantity {
                id: id@,
                child: Box::new(child@),
                min: minimum_occurrences,
                max: maximum_or_unbounded(maximum_occurrences),
            }),
    {
        ParserOperator::Quantity(
            Quantity::new(id, Rc::new(child), minimum_occurrences, maximum_occurrences),
        )
    }

    pub fn alternation(id: OpaqueIdentifier, children: Vec<ParserOperator>) -> (operator: Self)
        requires
            children.len() > 0,
        ensures
            operator@ == (Expr::Alternation { id: id@, children: models_of_owned(children@) }),
    {
        let shared = share_all(children);
        assert(models_of(shared@).len() == shared@.len());
        ParserOperator::Alternation(Alternation::new(id, shared))
    }

    pub fn lookahead(
        id: OpaqueIdentifier,
        child: Self,
        scout: Self,
        accept_match: bool,
    ) -> (operator: Self)
        ensures
            operator@ == (Expr::Lookahead {
                id: id@,
                child: Box::new(child@),
                scout: Box::new(scout@),
                accept_match,
            }),
    {
        ParserOperator::Lookahead(Lookahead::new(id, Rc::new(child), Rc::new(scout), accept_match))
    }

    pub fn label(id: OpaqueIdentifier, child: Self, arg: &str) -> (operator: Self)
        ensures
            operator@ == (Expr::Label { id: id@, child: Box::new(child@), label: arg@ }),
    {
        ParserOperator::Label(Label::new(id, Rc::new(child), arg))
    }

    pub fn rule_reference(id: OpaqueIdentifier, rule_name: &str) -> (operator: Self)
        ensures
            operator@ == (Expr::RuleReference { id: id@, rule_name: rule_name@ }),
    {
        ParserOperator::RuleReference(RuleReference::new(id, rule_name))
    }
}

} // verus!
