use crate::evaluation::evaluation_of;
use crate::evaluation::parse_of;
use crate::evaluation::sequence_from;
use crate::model::chained;
use crate::model::cursor_at;
use crate::model::Expr;
use crate::model::occurs;
use crate::opaque_identifier::OpaqueIdentifier;
use crate::ops::parser_operator::ParserOperator;
use crate::parser_context::evaluable;
use crate::parser_context::evaluated;
use crate::parser_context::ready;
use crate::parser_context::outcome_of;
use crate::parser_context::ParserContext;
use crate::parser_context::tree_of;
use crate::parser_match::ParserMatch;
use crate::parser_match::trees_of;
use crate::table::lemma_chained_extend;
use crate::table::lemma_chained_settles;
use crate::table::lemma_occurs_trans;
use std::rc::Rc;
use vstd::prelude::*;

verus! {

/// Matches its children one after the other.
#[derive(Debug)]
pub struct Sequence {
    id: OpaqueIdentifier,
    children: Vec<Rc<ParserOperator>>,
}

impl Sequence {
    pub closed spec fn model(&self) -> Expr
        decreases self,
    {
        Expr::Sequence { id: self.id@, children: models_of(self.children@) }
    }
}

/// The models of a list of operators, in order.
pub open spec fn models_of(operators: Seq<Rc<ParserOperator>>) -> Seq<Expr>
    decreases operators,
{
    Seq::new(
        operators.len(),
        |i: int|
            if 0 <= i < operators.len() {
                operators[i].model()
            } else {
                arbitrary()
            },
    )
}

impl View for Sequence {
    type V = Expr;

    open spec fn view(&self) -> Expr {
        self.model()
    }
}

impl Sequence {
    pub fn new(id: OpaqueIdentifier, children: Vec<Rc<ParserOperator>>) -> (sequence: Self)
        requires
            children.len() > 0,
        ensures
            sequence@ == (Expr::Sequence { id: id@, children: models_of(children@) }),
    {
        Sequence { id, children }
    }

    /// The children, in order.
    pub fn children(&self) -> (children: &Vec<Rc<ParserOperator>>)
        ensures
            self@ is Sequence,
            self@->Sequence_children == models_of(children@),
    {
        &self.children
    }

    pub fn get_id(&self) -> (id: usize)
        ensures
            id == self@.id(),
            self@ is Sequence,
    {
        self.id.id()
    }
}

impl Sequence {
    /// Matches where the children match one after the other, each where the
    /// one before it ended. The match covers all of theirs and holds them
    /// as its children.
    pub fn parse_internal(&self, context: &mut ParserContext, start_position: usize) -> (result:
        Option<Rc<ParserMatch>>)
        requires
            ready(old(context), self@, start_position),
        ensures
            evaluated(old(context), final(context), self@, start_position, result),
        decreases old(context).vacancies(), 1int,
    {
        context.bind(Ghost(self@));
        let ghost before = *context;
        let ghost scope = context.scope();
        let ghost root = context.root()->0;
        let ghost children = models_of(self.children@);
        let ghost len = context.byte_len();
        proof {
            context.lemma_vacancies();
        }
        let mut end_position = start_position;
        let mut sub_matches: Vec<Rc<ParserMatch>> = Vec::new();
        let mut i: usize = 0;
        assert(trees_of(sub_matches@) =~= Seq::empty());
        while i < self.children.len()
            invariant
                i <= self.children.len(),
                sub_matches.len() == i,
                old(context).bound_as(&before, self@),
                evaluable(&before, self@, start_position),
                self@ == (Expr::Sequence { id: self.id@, children }),
                children == models_of(self.children@),
                scope == before.scope(),
                root == before.root()->0,
                len == before.byte_len(),
                context.consistent(),
                context.root() == before.root(),
                before.advances_to(context),
                chained(context.table(), children, start_position, trees_of(sub_matches@)),
                end_position == cursor_at(start_position, trees_of(sub_matches@), i as int),
                start_position <= end_position <= len,
                crate::text::on_boundary(context.text(), end_position as int),
                forall|j: int| 0 <= j < i ==> (#[trigger] trees_of(sub_matches@)[j]).within(len),
                forall|depth: nat|
                    depth >= before.vacancies() ==> #[trigger] sequence_from(
                        children,
                        scope,
                        before.text(),
                        before.table(),
                        before.reentered(),
                        start_position,
                        Seq::empty(),
                        start_position,
                        depth,
                    ) == sequence_from(
                        children,
                        scope,
                        before.text(),
                        context.table(),
                        context.reentered(),
                        start_position,
                        trees_of(sub_matches@),
                        end_position,
                        depth,
                    ),
            decreases self.children.len() - i,
        {
            proof {
                assert(children[i as int] == self.children@[i as int]@);
                let kid = children[i as int];
                assert(self@->Sequence_children == children);
                assert(occurs(kid, scope, kid, scope));
                assert(exists|j: int|
                    0 <= j < children.len() && occurs(#[trigger] children[j], scope, kid, scope));
                assert(occurs(self@, scope, kid, scope));
                lemma_occurs_trans(root, None, self@, scope, children[i as int], scope);
            }
            let ghost run = trees_of(sub_matches@);
            let ghost earlier = context.table();
            let ghost paused = *context;
            let ghost cursor = end_position;
            let found = self.children[i].parse(context, end_position);
            proof {
                assert forall|depth: nat| depth >= before.vacancies() implies
                    #[trigger] sequence_from(
                    children,
                    scope,
                    before.text(),
                    before.table(),
                    before.reentered(),
                    start_position,
                    Seq::empty(),
                    start_position,
                    depth,
                ) == (match tree_of(found) {
                    Some(m) => sequence_from(
                        children,
                        scope,
                        before.text(),
                        context.table(),
                        context.reentered(),
                        start_position,
                        run.push(m),
                        m.end,
                        depth,
                    ),
                    None => Some(outcome_of(context, None)),
                }) by {
                    assert(parse_of(
                        children[i as int],
                        paused.scope(),
                        paused.text(),
                        paused.table(),
                        paused.reentered(),
                        cursor,
                        depth,
                    ) == Some(outcome_of(context, found)));
                }
            }
            match found {
                Some(ma) => {
                    proof {
                        lemma_chained_extend(
                            earlier,
                            context.table(),
                            children,
                            start_position,
                            run,
                            ma@,
                        );
                    }
                    end_position = end_position + ma.len();
                    sub_matches.push(ma);
                    assert(trees_of(sub_matches@) =~= run.push(ma@));
                },
                None => {
                    proof {
                        lemma_chained_settles(
                            earlier,
                            context.table(),
                            children,
                            start_position,
                            run,
                        );
                    }
                    proof {
                        assert forall|depth: nat| depth >= before.vacancies() implies
                            #[trigger] evaluation_of(
                            self@,
                            before.scope(),
                            before.text(),
                            before.table(),
                            before.reentered(),
                            start_position,
                            depth,
                        ) == Some(outcome_of(context, None)) by {
                            let whole = sequence_from(
                                children,
                                scope,
                                before.text(),
                                before.table(),
                                before.reentered(),
                                start_position,
                                Seq::empty(),
                                start_position,
                                depth,
                            );
                            assert(evaluation_of(
                                self@,
                                before.scope(),
                                before.text(),
                                before.table(),
                                before.reentered(),
                                start_position,
                                depth,
                            ) == whole);
                            assert(whole == Some(outcome_of(context, None)));
                        }
                    }
                    return None;
                },
            }
            i += 1;
        }
        let result = Some(
            ParserMatch::new(start_position, end_position, None, Rc::new(sub_matches)),
        );
        proof {
            assert forall|depth: nat| depth >= before.vacancies() implies
                #[trigger] evaluation_of(
                self@,
                before.scope(),
                before.text(),
                before.table(),
                before.reentered(),
                start_position,
                depth,
            ) == Some(outcome_of(context, result)) by {
                let whole = sequence_from(
                    children,
                    scope,
                    before.text(),
                    before.table(),
                    before.reentered(),
                    start_position,
                    Seq::empty(),
                    start_position,
                    depth,
                );
                assert(evaluation_of(
                    self@,
                    before.scope(),
                    before.text(),
                    before.table(),
                    before.reentered(),
                    start_position,
                    depth,
                ) == whole);
                assert(whole == Some(outcome_of(context, result)));
            }
        }
        result
    }
}

} // verus!
