use crate::evaluation::evaluation_of;
use crate::evaluation::parse_of;
use crate::model::Expr;
use crate::model::occurs;
use crate::opaque_identifier::OpaqueIdentifier;
use crate::ops::parser_operator::ParserOperator;
use crate::parser_context::evaluated;
use crate::parser_context::ready;
use crate::parser_context::outcome_of;
use crate::parser_context::ParserContext;
use crate::parser_match::ParserMatch;
use crate::table::lemma_occurs_trans;
use std::rc::Rc;
use vstd::prelude::*;

verus! {

/// Matches its child where the scout, tried right behind the child, matches
/// too (positive lookahead) or does not (negative lookahead).
#[derive(Debug)]
pub struct Lookahead {
    id: OpaqueIdentifier,
    child: Rc<ParserOperator>,
    scout: Rc<ParserOperator>,
    accept_match: bool,
}

impl Lookahead {
    pub closed spec fn model(&self) -> Expr
        decreases self,
    {
        Expr::Lookahead {
            id: self.id@,
            child: Box::new(self.child.model()),
            scout: Box::new(self.scout.model()),
            accept_match: self.accept_match,
        }
    }
}

impl View for Lookahead {
    type V = Expr;

    open spec fn view(&self) -> Expr {
        self.model()
    }
}

impl Lookahead {
    pub fn new(
        id: OpaqueIdentifier,
        child: Rc<ParserOperator>,
        scout: Rc<ParserOperator>,
        accept_match: bool,
    ) -> (lookahead: Self)
        ensures
            lookahead@ == (Expr::Lookahead {
                id: id@,
                child: Box::new(child.model()),
                scout: Box::new(scout.model()),
                accept_match,
            }),
    {
        Lookahead { id, child, scout, accept_match }
    }

    /// The operator whose match is handed on.
    pub fn child(&self) -> (child: &Rc<ParserOperator>)
        ensures
            self@ is Lookahead,
            *self@->Lookahead_child == child@,
    {
        &self.child
    }

    /// The operator that is tried behind the child.
    pub fn scout(&self) -> (scout: &Rc<ParserOperator>)
        ensures
            self@ is Lookahead,
            *self@->scout == scout@,
    {
        &self.scout
    }

    /// Whether the scout has to match (`true`) or to fail (`false`).
    pub fn accept_match(&self) -> (flag: bool)
        ensures
            self@ is Lookahead,
            self@->accept_match == flag,
    {
        self.accept_match
    }

    pub fn get_id(&self) -> (id: usize)
        ensures
            id == self@.id(),
            self@ is Lookahead,
    {
        self.id.id()
    }
}

impl Lookahead {
    /// Matches what the child matches, where the scout, tried where the
    /// child ended, does as `accept_match` asks. The scout is tried at
    /// `start_position` where the child does not match.
    pub fn parse_internal(&self, context: &mut ParserContext, start_position: usize) -> (result:
        Option<Rc<ParserMatch>>)
        requires
            ready(old(context), self@, start_position),
        ensures
            evaluated(old(context), final(context), self@, start_position, result),
        decreases old(context).vacancies(), 1int,
    {
        context.bind(Ghost(self@));
        proof {
            context.lemma_vacancies();
            let scope = context.scope();
            assert(occurs(self.child@, scope, self.child@, scope));
            assert(occurs(self.scout@, scope, self.scout@, scope));
            assert(occurs(self@, scope, self.child@, scope));
            assert(occurs(self@, scope, self.scout@, scope));
            lemma_occurs_trans(context.root()->0, None, self@, scope, self.child@, scope);
            lemma_occurs_trans(context.root()->0, None, self@, scope, self.scout@, scope);
        }
        let ghost before = *context;
        let res_child = self.child.parse(context, start_position);
        let ghost between = *context;
        let end_position = match &res_child {
            Some(parser_match) => start_position + parser_match.len(),
            None => start_position,
        };
        let res_scout = self.scout.parse(context, end_position);
        let result = if (self.accept_match && res_scout.is_some()) || (!self.accept_match
            && res_scout.is_none()) {
            res_child
        } else {
            None
        };
        proof {
            assert forall|depth: nat| depth >= before.vacancies() implies
                #[trigger] evaluation_of(
                self@,
                before.scope(),
                before.text(),
                before.table(),
                before.reentered(),
                start_position,
                depth,
            ) == Some(outcome_of(context, result)) by {
                assert(parse_of(
                    self.child@,
                    before.scope(),
                    before.text(),
                    before.table(),
                    before.reentered(),
                    start_position,
                    depth,
                ) == Some(outcome_of(&between, res_child)));
                assert(parse_of(
                    self.scout@,
                    between.scope(),
                    between.text(),
                    between.table(),
                    between.reentered(),
                    end_position,
                    depth,
                ) == Some(outcome_of(context, res_scout)));
            }
        }
        result
    }
}

} // verus!
