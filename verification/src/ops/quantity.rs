use crate::evaluation::evaluation_of;
use crate::evaluation::Outcome;
use crate::evaluation::parse_of;
use crate::evaluation::quantity_from;
use crate::evaluation::quantity_result;
use crate::model::advancing;
use crate::model::cursor_at;
use crate::model::Expr;
use crate::model::occurs;
use crate::model::repeated;
use crate::model::run_ended;
use crate::opaque_identifier::OpaqueIdentifier;
use crate::ops::parser_operator::ParserOperator;
use crate::parser_context::evaluable;
use crate::parser_context::evaluated;
use crate::parser_context::ready;
use crate::parser_context::outcome_of;
use crate::parser_context::ParserContext;
use crate::parser_context::tree_of;
use crate::parser_match::ParserMatch;
use crate::parser_match::trees_of;
use crate::table::lemma_occurs_trans;
use crate::table::lemma_repeated_extend;
use crate::table::lemma_repeated_settles;
use std::rc::Rc;
use vstd::prelude::*;

verus! {

/// Quantity (repetitions): matches its child between a minimum and a maximum
/// number of times, as often as it can.
#[derive(Debug)]
pub struct Quantity {
    id: OpaqueIdentifier,
    child: Rc<ParserOperator>,
    minimum_occurrences: usize,
    maximum_occurrences: usize,
}

impl Quantity {
    pub closed spec fn model(&self) -> Expr
        decreases self,
    {
        Expr::Quantity {
            id: self.id@,
            child: Box::new(self.child.model()),
            min: self.minimum_occurrences,
            max: self.maximum_occurrences,
        }
    }
}

impl View for Quantity {
    type V = Expr;

    open spec fn view(&self) -> Expr {
        self.model()
    }
}

/// The largest count a quantity runs to: the given maximum, or the largest
/// machine word where none is given.
pub open spec fn maximum_or_unbounded(maximum_occurrences: Option<usize>) -> usize {
    match maximum_occurrences {
        Some(maximum) => maximum,
        None => usize::MAX,
    }
}

impl Quantity {
    pub fn new(
        id: OpaqueIdentifier,
        child: Rc<ParserOperator>,
        minimum_occurrences: usize,
        maximum_occurrences: Option<usize>,
    ) -> (quantity: Self)
        requires
            minimum_occurrences < maximum_or_unbounded(maximum_occurrences),
        ensures
            quantity@ == (Expr::Quantity {
                id: id@,
                child: Box::new(child.model()),
                min: minimum_occurrences,
                max: maximum_or_unbounded(maximum_occurrences),
            }),
    {
        let maximum_occurrences = match maximum_occurrences {
            Some(maximum) => maximum,
            None => usize::MAX,
        };
        Quantity { id, child, minimum_occurrences, maximum_occurrences }
    }

    /// The operator that is repeated.
    pub fn child(&self) -> (child: &Rc<ParserOperator>)
        ensures
            self@ is Quantity,
            *self@->Quantity_child == child@,
    {
        &self.child
    }

    /// The least count that makes a match.
    pub fn minimum_occurrences(&self) -> (minimum: usize)
        ensures
            self@ is Quantity,
            self@->min == minimum,
    {
        self.minimum_occurrences
    }

    /// The count at which the quantity stops.
    pub fn maximum_occurrences(&self) -> (maximum: usize)
        ensures
            self@ is Quantity,
            self@->max == maximum,
    {
        self.maximum_occurrences
    }

    pub fn get_id(&self) -> (id: usize)
        ensures
            id == self@.id(),
            self@ is Quantity,
    {
        self.id.id()
    }
}

impl Quantity {
    /// Matches the child as often as it matches, each time where the match
    /// before ended, up to the maximum. A match of the child that covers no
    /// byte is the last one taken. Matches where the count reaches the
    /// minimum; the match covers all of the child's and holds them as its
    /// children.
    pub fn parse_internal(&self, context: &mut ParserContext, start_position: usize) -> (result:
        Option<Rc<ParserMatch>>)
        requires
            ready(old(context), self@, start_position),
        ensures
            evaluated(old(context), final(context), self@, start_position, result),
        decreases old(context).vacancies(), 1int,
    {
        context.bind(Ghost(self@));
        let ghost before = *context;
        let ghost scope = context.scope();
        let ghost root = context.root()->0;
        let ghost child = self.child@;
        let ghost len = context.byte_len();
        proof {
            context.lemma_vacancies();
            assert(occurs(child, scope, child, scope));
            assert(occurs(self@, scope, child, scope));
            lemma_occurs_trans(root, None, self@, scope, child, scope);
        }
        let mut end_position = start_position;
        let mut sub_matches: Vec<Rc<ParserMatch>> = Vec::new();
        let mut halted = false;
        assert(trees_of(sub_matches@) =~= Seq::empty());
        while !halted && sub_matches.len() < self.maximum_occurrences
            invariant
                old(context).bound_as(&before, self@),
                evaluable(&before, self@, start_position),
                child == self.child@,
                scope == before.scope(),
                root == before.root()->0,
                len == before.byte_len(),
                occurs(root, None, child, scope),
                sub_matches.len() <= self.maximum_occurrences,
                context.consistent(),
                context.root() == before.root(),
                before.advances_to(context),
                repeated(context.table(), child.id(), start_position, trees_of(sub_matches@)),
                end_position == cursor_at(
                    start_position,
                    trees_of(sub_matches@),
                    sub_matches.len() as int,
                ),
                start_position <= end_position <= len,
                crate::text::on_boundary(context.text(), end_position as int),
                forall|j: int|
                    0 <= j < sub_matches.len() ==> (#[trigger] trees_of(sub_matches@)[j]).within(
                        len,
                    ),
                advancing(trees_of(sub_matches@)),
                !halted && sub_matches.len() > 0 ==> trees_of(sub_matches@).last().start
                    < trees_of(sub_matches@).last().end,
                halted && !context.reentered() ==> run_ended(
                    context.table(),
                    child.id(),
                    self.maximum_occurrences,
                    start_position,
                    trees_of(sub_matches@),
                ),
                forall|depth: nat|
                    depth >= before.vacancies() ==> #[trigger] quantity_from(
                        child,
                        self.minimum_occurrences,
                        self.maximum_occurrences,
                        scope,
                        before.text(),
                        before.table(),
                        before.reentered(),
                        start_position,
                        Seq::empty(),
                        start_position,
                        depth,
                    ) == (if halted {
                        Some(
                            Outcome {
                                table: context.table(),
                                reentered: context.reentered(),
                                result: quantity_result(
                                    self.minimum_occurrences,
                                    start_position,
                                    trees_of(sub_matches@),
                                    end_position,
                                ),
                            },
                        )
                    } else {
                        quantity_from(
                            child,
                            self.minimum_occurrences,
                            self.maximum_occurrences,
                            scope,
                            before.text(),
                            context.table(),
                            context.reentered(),
                            start_position,
                            trees_of(sub_matches@),
                            end_position,
                            depth,
                        )
                    }),
            decreases
                    (if halted { 0int } else { 1int }),
                    self.maximum_occurrences - sub_matches.len(),
        {
            let ghost run = trees_of(sub_matches@);
            let ghost earlier = context.table();
            let ghost paused = *context;
            let ghost cursor = end_position;
            let found = self.child.parse(context, end_position);
            proof {
                assert forall|depth: nat| depth >= before.vacancies() implies
                    #[trigger] quantity_from(
                    child,
                    self.minimum_occurrences,
                    self.maximum_occurrences,
                    scope,
                    before.text(),
                    before.table(),
                    before.reentered(),
                    start_position,
                    Seq::empty(),
                    start_position,
                    depth,
                ) == (match tree_of(found) {
                    Some(m) => if m.start < m.end {
                        quantity_from(
                            child,
                            self.minimum_occurrences,
                            self.maximum_occurrences,
                            scope,
                            before.text(),
                            context.table(),
                            context.reentered(),
                            start_position,
                            run.push(m),
                            m.end,
                            depth,
                        )
                    } else {
                        Some(
                            Outcome {
                                table: context.table(),
                                reentered: context.reentered(),
                                result: quantity_result(
                                    self.minimum_occurrences,
                                    start_position,
                                    run.push(m),
                                    m.end,
                                ),
                            },
                        )
                    },
                    None => Some(
                        Outcome {
                            table: context.table(),
                            reentered: context.reentered(),
                            result: quantity_result(
                                self.minimum_occurrences,
                                start_position,
                                run,
                                cursor,
                            ),
                        },
                    ),
                }) by {
                    assert(parse_of(
                        child,
                        paused.scope(),
                        paused.text(),
                        paused.table(),
                        paused.reentered(),
                        cursor,
                        depth,
                    ) == Some(outcome_of(context, found)));
                }
            }
            match found {
                Some(ma) => {
                    proof {
                        lemma_repeated_extend(
                            earlier,
                            context.table(),
                            child.id(),
                            start_position,
                            run,
                            ma@,
                        );
                    }
                    let advance = ma.len();
                    end_position = end_position + advance;
                    sub_matches.push(ma);
                    assert(trees_of(sub_matches@) =~= run.push(ma@));
                    if advance == 0 {
                        halted = true;
                    }
                },
                None => {
                    proof {
                        lemma_repeated_settles(
                            earlier,
                            context.table(),
                            child.id(),
                            start_position,
                            run,
                        );
                    }
                    halted = true;
                },
            }
        }
        let result = if sub_matches.len() < self.minimum_occurrences {
            None
        } else {
            Some(ParserMatch::new(start_position, end_position, None, Rc::new(sub_matches)))
        };
        proof {
            assert forall|depth: nat| depth >= before.vacancies() implies
                #[trigger] evaluation_of(
                self@,
                before.scope(),
                before.text(),
                before.table(),
                before.reentered(),
                start_position,
                depth,
            ) == Some(outcome_of(context, result)) by {
                let whole = quantity_from(
                    child,
                    self.minimum_occurrences,
                    self.maximum_occurrences,
                    scope,
                    before.text(),
                    before.table(),
                    before.reentered(),
                    start_position,
                    Seq::empty(),
                    start_position,
                    depth,
                );
                assert(evaluation_of(
                    self@,
                    before.scope(),
                    before.text(),
                    before.table(),
                    before.reentered(),
                    start_position,
                    depth,
                ) == whole);
                assert(whole == Some(outcome_of(context, result)));
            }
        }
        result
    }
}

} // verus!
