use crate::evaluation::evaluation_of;
use crate::evaluation::parse_of;
use crate::model::Expr;
use crate::model::occurs;
use crate::opaque_identifier::OpaqueIdentifier;
use crate::ops::parser_operator::ParserOperator;
use crate::parser_context::evaluated;
use crate::parser_context::ready;
use crate::parser_context::outcome_of;
use crate::parser_context::ParserContext;
use crate::parser_match::ParserMatch;
use crate::table::lemma_occurs_trans;
use std::rc::Rc;
use vstd::prelude::*;

verus! {

/// Gives the match of its child a label.
#[derive(Debug)]
pub struct Label {
    id: OpaqueIdentifier,
    child: Rc<ParserOperator>,
    label: Rc<String>,
}

impl Label {
    pub closed spec fn model(&self) -> Expr
        decreases self,
    {
        Expr::Label { id: self.id@, child: Box::new(self.child.model()), label: self.label@ }
    }
}

impl View for Label {
    type V = Expr;

    open spec fn view(&self) -> Expr {
        self.model()
    }
}

impl Label {
    pub fn new(id: OpaqueIdentifier, child: Rc<ParserOperator>, label: &str) -> (labelled: Self)
        ensures
            labelled@ == (Expr::Label {
                id: id@,
                child: Box::new(child.model()),
                label: label@,
            }),
    {
        Label { id, child, label: Rc::new(label.to_owned()) }
    }

    /// The operator whose match is labelled.
    pub fn child(&self) -> (child: &Rc<ParserOperator>)
        ensures
            self@ is Label,
            *self@->Label_child == child@,
    {
        &self.child
    }

    /// The label that is given.
    pub fn label(&self) -> (label: &str)
        ensures
            self@ is Label,
            self@->label == label@,
    {
        self.label.as_str()
    }

    pub fn get_id(&self) -> (id: usize)
        ensures
            id == self@.id(),
            self@ is Label,
    {
        self.id.id()
    }
}

impl Label {
    /// Matches where the child matches, and puts the child's match under
    /// the label.
    pub fn parse_internal(&self, context: &mut ParserContext, start_position: usize) -> (result:
        Option<Rc<ParserMatch>>)
        requires
            ready(old(context), self@, start_position),
        ensures
            evaluated(old(context), final(context), self@, start_position, result),
        decreases old(context).vacancies(), 1int,
    {
        context.bind(Ghost(self@));
        proof {
            context.lemma_vacancies();
            let scope = context.scope();
            assert(occurs(self.child@, scope, self.child@, scope));
            assert(occurs(self@, scope, self.child@, scope));
            lemma_occurs_trans(context.root()->0, None, self@, scope, self.child@, scope);
        }
        let ghost before = *context;
        let found = self.child.parse(context, start_position);
        let result = match &found {
            Some(inner) => Some(inner.with_label(self.label.clone())),
            None => None,
        };
        proof {
            assert forall|depth: nat| depth >= before.vacancies() implies
                #[trigger] evaluation_of(
                self@,
                before.scope(),
                before.text(),
                before.table(),
                before.reentered(),
                start_position,
                depth,
            ) == Some(outcome_of(context, result)) by {
                assert(parse_of(
                    self.child@,
                    before.scope(),
                    before.text(),
                    before.table(),
                    before.reentered(),
                    start_position,
                    depth,
                ) == Some(outcome_of(context, found)));
            }
        }
        result
    }
}

} // verus!
