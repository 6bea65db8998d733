use crate::evaluation::evaluation_of;
use crate::evaluation::parse_of;
use crate::model::Expr;
use crate::model::Slot;
use crate::model::slot_sound;
use crate::model::well_formed;
use crate::ops::parser_operator::ParserOperator;
use crate::parser_context::evaluated;
use crate::parser_context::MemoEntry;
use crate::parser_context::outcome_of;
use crate::parser_context::parsed;
use crate::parser_context::ParserContext;
use crate::parser_context::ready;
use crate::parser_context::tree_of;
use crate::parser_match::ParserMatch;
use crate::table::capacity;
use crate::text::lemma_ends_on_boundary;
use std::rc::Rc;
use vstd::prelude::*;

verus! {

impl ParserOperator {
    /// Parses this operator at `start_position`, by way of the memo table.
    ///
    /// Where the table holds a result under this operator's key, that
    /// result is returned and nothing is evaluated. Where the evaluation
    /// under the key has begun and not ended, the operator has come back to
    /// itself without consuming input: the parse is cut short with no
    /// match, and the context notes it. Else the operator is evaluated and
    /// its result remembered.
    pub fn parse(&self, context: &mut ParserContext, start_position: usize) -> (result: Option<
        Rc<ParserMatch>,
    >)
        requires
            ready(old(context), self@, start_position),
        ensures
            parsed(old(context), final(context), self@, start_position, result),
        decreases old(context).vacancies(), 0int,
    {
        proof {
            context.lemma_vacancies();
        }
        let ghost before = *old(context);
        context.bind(Ghost(self@));
        let id = self.get_id();
        match context.probe(start_position, id) {
            Some(MemoEntry::Done(result)) => {
                proof {
                    context.lemma_recorded_match_sound(start_position, id);
                    assert forall|depth: nat| depth >= before.vacancies() implies
                        #[trigger] parse_of(
                        self@,
                        before.scope(),
                        before.text(),
                        before.table(),
                        before.reentered(),
                        start_position,
                        depth,
                    ) == Some(outcome_of(context, result)) by {}
                }
                result
            },
            Some(MemoEntry::Pending) => {
                context.note_reentry();
                proof {
                    assert forall|depth: nat| depth >= before.vacancies() implies
                        #[trigger] parse_of(
                        self@,
                        before.scope(),
                        before.text(),
                        before.table(),
                        before.reentered(),
                        start_position,
                        depth,
                    ) == Some(outcome_of(context, None)) by {}
                }
                None
            },
            None => {
                context.begin(start_position, id);
                let ghost begun = *context;
                let result = self.parse_internal(context, start_position);
                let ghost ended = *context;
                assert(begun.table().contains_key((start_position, id)));
                let stored = context.record(start_position, Ghost(self@), id, result);
                proof {
                    assert forall|k: (usize, usize)| #[trigger]
                        old(context).table().contains_key(k) implies context.table().contains_key(k)
                        && context.table()[k] == old(context).table()[k] by {
                        assert(begun.table().contains_key(k));
                    }
                    assert forall|depth: nat| depth >= before.vacancies() implies
                        #[trigger] parse_of(
                        self@,
                        before.scope(),
                        before.text(),
                        before.table(),
                        before.reentered(),
                        start_position,
                        depth,
                    ) == Some(outcome_of(context, stored)) by {
                        let inner = (depth - 1) as nat;
                        assert(evaluation_of(
                            self@,
                            begun.scope(),
                            begun.text(),
                            begun.table(),
                            begun.reentered(),
                            start_position,
                            inner,
                        ) == Some(outcome_of(&ended, result)));
                    }
                }
                stored
            },
        }
    }

    /// Parses `full_text` from its first byte with this operator as the
    /// root, in a context of its own, and hands back the result with that
    /// context. Nothing is parsed, and nothing handed back, where this
    /// operator is not well formed: where a rule reference at or below it
    /// finds no rule, a grammar has no rule, or a pattern does not compile,
    /// be it in a rule that the parse would not come to; or where one
    /// identifier stands for two nodes, or for a rule reference under two
    /// grammars.
    pub fn parse_text<'a>(&self, full_text: &'a str) -> (outcome: Option<
        (Option<Rc<ParserMatch>>, ParserContext<'a>),
    >)
        ensures
            outcome is Some <==> well_formed(self@),
            outcome matches Some((result, context)) ==> {
                &&& context.consistent()
                &&& context.root() == Some(self@)
                &&& context.text() == full_text@
                &&& context.scopes().len() == 0
                &&& context.table().contains_key((0, self@.id()))
                &&& context.table()[(0, self@.id())] == Slot::Done(tree_of(result))
                &&& slot_sound(full_text@, (0, self@.id()), Slot::Done(tree_of(result)))
                &&& forall|depth: nat|
                    depth >= capacity(context.byte_len()) ==> #[trigger] parse_of(
                        self@,
                        None,
                        full_text@,
                        Map::empty(),
                        false,
                        0,
                        depth,
                    ) == Some(outcome_of(&context, result))
            },
    {
        if !self.is_well_formed() {
            return None;
        }
        let mut context = ParserContext::new(full_text);
        proof {
            lemma_ends_on_boundary(full_text@);
            context.lemma_vacancies_of_empty();
        }
        let result = self.parse(&mut context, 0);
        Some((result, context))
    }

    /// Evaluates this operator at `start_position`, past the memo table:
    /// nothing is looked up or remembered under the operator's own key.
    /// The operators below it are parsed by way of the memo table.
    pub fn parse_internal(&self, context: &mut ParserContext, start_position: usize) -> (result:
        Option<Rc<ParserMatch>>)
        requires
            ready(old(context), self@, start_position),
        ensures
            evaluated(old(context), final(context), self@, start_position, result),
        decreases old(context).vacancies(), 2int,
    {
        match self {
            ParserOperator::Grammar(op) => op.parse_internal(context, start_position),
            ParserOperator::Label(op) => op.parse_internal(context, start_position),
            ParserOperator::RuleReference(op) => op.parse_internal(context, start_position),
            ParserOperator::Literal(op) => op.parse_internal(context, start_position),
            ParserOperator::Regex(op) => op.parse_internal(context, start_position),
            ParserOperator::Sequence(op) => op.parse_internal(context, start_position),
            ParserOperator::Alternation(op) => op.parse_internal(context, start_position),
            ParserOperator::Quantity(op) => op.parse_internal(context, start_position),
            ParserOperator::Lookahead(op) => op.parse_internal(context, start_position),
        }
    }
}

/// What can be parsed: an operator with an identifier, which is evaluated
/// by way of the memo table of a context.
pub trait Parser {
    /// The expression that this parser stands for.
    spec fn expression(&self) -> Expr;

    /// Parses at `start_position`, by way of the memo table.
    fn parse(&self, context: &mut ParserContext, start_position: usize) -> (result: Option<
        Rc<ParserMatch>,
    >)
        requires
            ready(old(context), self.expression(), start_position),
        ensures
            parsed(old(context), final(context), self.expression(), start_position, result),
    ;

    /// Evaluates at `start_position`, past the memo table.
    fn parse_internal(&self, context: &mut ParserContext, start_position: usize) -> (result:
        Option<Rc<ParserMatch>>)
        requires
            ready(old(context), self.expression(), start_position),
        ensures
            evaluated(old(context), final(context), self.expression(), start_position, result),
    ;

    /// The identifier under which results are remembered.
    fn get_id(&self) -> (id: usize)
        ensures
            id == self.expression().id(),
    ;
}

impl Parser for ParserOperator {
    open spec fn expression(&self) -> Expr {
        self@
    }

    fn parse(&self, context: &mut ParserContext, start_position: usize) -> (result: Option<
        Rc<ParserMatch>,
    >) {
        ParserOperator::parse(self, context, start_position)
    }

    fn parse_internal(&self, context: &mut ParserContext, start_position: usize) -> (result:
        Option<Rc<ParserMatch>>) {
        ParserOperator::parse_internal(self, context, start_position)
    }

    fn get_id(&self) -> (id: usize) {
        ParserOperator::get_id(self)
    }
}

} // verus!
