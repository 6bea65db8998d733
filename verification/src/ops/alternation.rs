use crate::evaluation::alternation_from;
use crate::evaluation::evaluation_of;
use crate::evaluation::Outcome;
use crate::evaluation::parse_of;
use crate::model::Expr;
use crate::model::failed;
use crate::model::MatchTree;
use crate::model::occurs;
use crate::opaque_identifier::OpaqueIdentifier;
use crate::ops::parser_operator::ParserOperator;
use crate::ops::sequence::models_of;
use crate::parser_context::evaluable;
use crate::parser_context::evaluated;
use crate::parser_context::ready;
use crate::parser_context::outcome_of;
use crate::parser_context::ParserContext;
use crate::parser_context::tree_of;
use crate::parser_match::ParserMatch;
use crate::parser_match::trees_of;
use crate::table::lemma_occurs_trans;
use std::rc::Rc;
use vstd::prelude::*;

verus! {

/// Matches the first of its children that matches (ordered choice).
#[derive(Debug)]
pub struct Alternation {
    id: OpaqueIdentifier,
    children: Vec<Rc<ParserOperator>>,
}

impl Alternation {
    pub closed spec fn model(&self) -> Expr
        decreases self,
    {
        Expr::Alternation { id: self.id@, children: models_of(self.children@) }
    }
}

impl View for Alternation {
    type V = Expr;

    open spec fn view(&self) -> Expr {
        self.model()
    }
}

impl Alternation {
    pub fn new(id: OpaqueIdentifier, children: Vec<Rc<ParserOperator>>) -> (alternation: Self)
        requires
            children.len() > 0,
        ensures
            alternation@ == (Expr::Alternation { id: id@, children: models_of(children@) }),
    {
        Alternation { id, children }
    }

    /// The children, in order.
    pub fn children(&self) -> (children: &Vec<Rc<ParserOperator>>)
        ensures
            self@ is Alternation,
            self@->Alternation_children == models_of(children@),
    {
        &self.children
    }

    pub fn get_id(&self) -> (id: usize)
        ensures
            id == self@.id(),
            self@ is Alternation,
    {
        self.id.id()
    }
}

impl Alternation {
    /// Matches where one of the children matches, the first that does. The
    /// match covers that child's match and holds it as its only child.
    pub fn parse_internal(&self, context: &mut ParserContext, start_position: usize) -> (result:
        Option<Rc<ParserMatch>>)
        requires
            ready(old(context), self@, start_position),
        ensures
            evaluated(old(context), final(context), self@, start_position, result),
        decreases old(context).vacancies(), 1int,
    {
        context.bind(Ghost(self@));
        let ghost before = *context;
        let ghost scope = context.scope();
        let ghost root = context.root()->0;
        let ghost children = models_of(self.children@);
        proof {
            context.lemma_vacancies();
        }
        let mut i: usize = 0;
        while i < self.children.len()
            invariant
                i <= self.children.len(),
                old(context).bound_as(&before, self@),
                evaluable(&before, self@, start_position),
                self@ == (Expr::Alternation { id: self.id@, children }),
                children == models_of(self.children@),
                scope == before.scope(),
                root == before.root()->0,
                context.consistent(),
                context.root() == before.root(),
                before.advances_to(context),
                !context.reentered() ==> forall|j: int|
                    0 <= j < i ==> failed(
                        context.table(),
                        start_position,
                        (#[trigger] children[j]).id(),
                    ),
                forall|depth: nat|
                    depth >= before.vacancies() ==> #[trigger] alternation_from(
                        children,
                        scope,
                        before.text(),
                        before.table(),
                        before.reentered(),
                        start_position,
                        0,
                        depth,
                    ) == alternation_from(
                        children,
                        scope,
                        before.text(),
                        context.table(),
                        context.reentered(),
                        start_position,
                        i as int,
                        depth,
                    ),
            decreases self.children.len() - i,
        {
            proof {
                assert(children[i as int] == self.children@[i as int]@);
                let kid = children[i as int];
                assert(self@->Alternation_children == children);
                assert(occurs(kid, scope, kid, scope));
                assert(exists|j: int|
                    0 <= j < children.len() && occurs(#[trigger] children[j], scope, kid, scope));
                assert(occurs(self@, scope, kid, scope));
                lemma_occurs_trans(root, None, self@, scope, children[i as int], scope);
            }
            let ghost paused = *context;
            let found = self.children[i].parse(context, start_position);
            proof {
                assert forall|depth: nat| depth >= before.vacancies() implies
                    #[trigger] alternation_from(
                    children,
                    scope,
                    before.text(),
                    before.table(),
                    before.reentered(),
                    start_position,
                    0,
                    depth,
                ) == (match tree_of(found) {
                    Some(m) => Some(
                        Outcome {
                            table: context.table(),
                            reentered: context.reentered(),
                            result: Some(
                                MatchTree {
                                    start: start_position,
                                    end: m.end,
                                    label: None,
                                    children: seq![m],
                                },
                            ),
                        },
                    ),
                    None => alternation_from(
                        children,
                        scope,
                        before.text(),
                        context.table(),
                        context.reentered(),
                        start_position,
                        i + 1,
                        depth,
                    ),
                }) by {
                    assert(parse_of(
                        children[i as int],
                        paused.scope(),
                        paused.text(),
                        paused.table(),
                        paused.reentered(),
                        start_position,
                        depth,
                    ) == Some(outcome_of(context, found)));
                }
            }
            match found {
                Some(sub_match) => {
                    let end_position = start_position + sub_match.len();
                    let mut only: Vec<Rc<ParserMatch>> = Vec::new();
                    only.push(sub_match);
                    assert(trees_of(only@) =~= seq![sub_match@]);
                    let result = Some(
                        ParserMatch::new(start_position, end_position, None, Rc::new(only)),
                    );
                    proof {
                        assert forall|depth: nat| depth >= before.vacancies() implies
                            #[trigger] evaluation_of(
                            self@,
                            before.scope(),
                            before.text(),
                            before.table(),
                            before.reentered(),
                            start_position,
                            depth,
                        ) == Some(outcome_of(context, result)) by {
                            let whole = alternation_from(
                                children,
                                scope,
                                before.text(),
                                before.table(),
                                before.reentered(),
                                start_position,
                                0,
                                depth,
                            );
                            assert(evaluation_of(
                                self@,
                                before.scope(),
                                before.text(),
                                before.table(),
                                before.reentered(),
                                start_position,
                                depth,
                            ) == whole);
                            assert(whole == Some(outcome_of(context, result)));
                        }
                    }
                    return result;
                },
                None => {},
            }
            i += 1;
        }
        proof {
            assert forall|depth: nat| depth >= before.vacancies() implies
                #[trigger] evaluation_of(
                self@,
                before.scope(),
                before.text(),
                before.table(),
                before.reentered(),
                start_position,
                depth,
            ) == Some(outcome_of(context, None)) by {
                let whole = alternation_from(
                    children,
                    scope,
                    before.text(),
                    before.table(),
                    before.reentered(),
                    start_position,
                    0,
                    depth,
                );
                assert(evaluation_of(
                    self@,
                    before.scope(),
                    before.text(),
                    before.table(),
                    before.reentered(),
                    start_position,
                    depth,
                ) == whole);
                assert(whole == Some(outcome_of(context, None)));
            }
        }
        None
    }
}

} // verus!
