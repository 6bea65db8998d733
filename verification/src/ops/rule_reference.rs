use crate::evaluation::evaluation_of;
use crate::evaluation::parse_of;
use crate::model::Expr;
use crate::opaque_identifier::OpaqueIdentifier;
use crate::parser_context::evaluated;
use crate::parser_context::ready;
use crate::parser_context::outcome_of;
use crate::parser_context::ParserContext;
use crate::parser_match::ParserMatch;
use crate::table::lemma_first_named_in_range;
use crate::table::lemma_rules_in_scope;
use std::rc::Rc;
use vstd::prelude::*;

verus! {

/// Stands for the rule of that name in the grammar that is active when the
/// reference is evaluated.
#[derive(Debug)]
pub struct RuleReference {
    id: OpaqueIdentifier,
    rule_name: String,
}

impl View for RuleReference {
    type V = Expr;

    closed spec fn view(&self) -> Expr {
        Expr::RuleReference { id: self.id@, rule_name: self.rule_name@ }
    }
}

impl RuleReference {
    pub fn new(id: OpaqueIdentifier, rule_name: &str) -> (reference: Self)
        ensures
            reference@ == (Expr::RuleReference { id: id@, rule_name: rule_name@ }),
    {
        RuleReference { id, rule_name: rule_name.to_owned() }
    }

    /// The name of the rule that is referred to.
    pub fn rule_name(&self) -> (rule_name: &str)
        ensures
            self@ is RuleReference,
            self@->rule_name == rule_name@,
    {
        self.rule_name.as_str()
    }

    pub fn get_id(&self) -> (id: usize)
        ensures
            id == self@.id(),
            self@ is RuleReference,
    {
        self.id.id()
    }
}

impl RuleReference {
    /// Matches where the rule of this name in the active grammar matches,
    /// and puts that match under the rule's name.
    pub fn parse_internal(&self, context: &mut ParserContext, start_position: usize) -> (result:
        Option<Rc<ParserMatch>>)
        requires
            ready(old(context), self@, start_position),
        ensures
            evaluated(old(context), final(context), self@, start_position, result),
        decreases old(context).vacancies(), 1int,
    {
        context.bind(Ghost(self@));
        proof {
            context.lemma_vacancies();
            context.lemma_operable(self@);
            let table = context.scope()->0;
            let i = table.index_of(self.rule_name@)->0;
            lemma_first_named_in_range(table.rules, self.rule_name@, 0);
            lemma_rules_in_scope(context.root()->0, None, self@, table, i);
        }
        let ghost before = *context;
        match context.get_rule(self.rule_name.as_str()) {
            Some((_rule_name, parser_operator)) => {
                let found = parser_operator.parse(context, start_position);
                let result = match &found {
                    Some(inner) => Some(inner.with_label(Rc::new(self.rule_name.clone()))),
                    None => None,
                };
                proof {
                    assert forall|depth: nat| depth >= before.vacancies() implies
                        #[trigger] evaluation_of(
                        self@,
                        before.scope(),
                        before.text(),
                        before.table(),
                        before.reentered(),
                        start_position,
                        depth,
                    ) == Some(outcome_of(context, result)) by {
                        assert(parse_of(
                            parser_operator@,
                            before.scope(),
                            before.text(),
                            before.table(),
                            before.reentered(),
                            start_position,
                            depth,
                        ) == Some(outcome_of(context, found)));
                    }
                }
                result
            },
            None => {
                // A rule reference below a well-formed root resolves.
                proof {
                    assert(false);
                }
                None
            },
        }
    }
}

} // verus!
