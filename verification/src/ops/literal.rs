use crate::model::Expr;
use crate::opaque_identifier::OpaqueIdentifier;
use crate::parser_context::evaluated;
use crate::parser_context::ready;
use crate::parser_context::ParserContext;
use crate::parser_match::ParserMatch;
use crate::parser_match::trees_of;
use crate::text::bytes_occur_at;
use crate::text::lemma_occurrence_ends_on_boundary;
use std::rc::Rc;
use vstd::prelude::*;
use vstd::utf8::encode_utf8;

verus! {

/// Matches a fixed, non-empty text byte for byte.
#[derive(Debug)]
pub struct Literal {
    id: OpaqueIdentifier,
    literal_text: String,
}

impl View for Literal {
    type V = Expr;

    closed spec fn view(&self) -> Expr {
        Expr::Literal { id: self.id@, text: encode_utf8(self.literal_text@) }
    }
}

impl Literal {
    pub fn new(id: OpaqueIdentifier, literal_text: &str) -> (literal: Self)
        requires
            literal_text@.len() > 0,
        ensures
            literal@ == (Expr::Literal { id: id@, text: encode_utf8(literal_text@) }),
    {
        Literal { id, literal_text: literal_text.to_owned() }
    }

    /// The text that this literal matches.
    pub fn literal_text(&self) -> (text: &str)
        ensures
            self@ is Literal,
            self@->Literal_text == encode_utf8(text@),
    {
        self.literal_text.as_str()
    }

    pub fn get_id(&self) -> (id: usize)
        ensures
            id == self@.id(),
            self@ is Literal,
    {
        self.id.id()
    }

    /// Matches where the text from `start_position` on begins with the
    /// literal.
    pub fn parse_internal(&self, context: &mut ParserContext, start_position: usize) -> (result:
        Option<Rc<ParserMatch>>)
        requires
            ready(old(context), self@, start_position),
        ensures
            evaluated(old(context), final(context), self@, start_position, result),
    {
        context.bind(Ghost(self@));
        let text = context.get_full_text().as_bytes();
        let literal = self.literal_text.as_str().as_bytes();
        proof {
            context.lemma_vacancies();
            vstd::utf8::encode_utf8_valid_utf8(context.text());
            vstd::utf8::encode_utf8_valid_utf8(self.literal_text@);
        }
        let text_len = text.len();
        if bytes_occur_at(text, start_position, literal) {
            proof {
                lemma_occurrence_ends_on_boundary(text@, start_position as int, literal@);
            }
            let children: Vec<Rc<ParserMatch>> = Vec::new();
            assert(trees_of(children@) =~= Seq::empty());
            Some(
                ParserMatch::new(
                    start_position,
                    start_position + literal.len(),
                    None,
                    Rc::new(children),
                ),
            )
        } else {
            None
        }
    }
}

} // verus!
