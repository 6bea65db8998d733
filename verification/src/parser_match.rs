use crate::model::MatchTree;
use crate::text::on_boundary;
use crate::text::substring;
use std::rc::Rc;
use vstd::prelude::*;
use vstd::string::StringSliceAdditionalSpecFns;

verus! {

/// `ParserMatch`
///
/// The result of a successful parse of one operator at one position: the
/// span it covers, the sub-matches it exposes, and a label where a label,
/// a rule reference or a grammar produced it.
///
/// A match is never changed once it is made. It is handed out behind `Rc`,
/// and shared by the memo table and by every parent match that includes it.
#[derive(Debug)]
pub struct ParserMatch {
    start_position: usize,
    end_position: usize,
    label: Option<Rc<String>>,
    children: Rc<Vec<Rc<ParserMatch>>>,
}

/// The trees of a list of matches, in order.
pub open spec fn trees_of(matches: Seq<Rc<ParserMatch>>) -> Seq<MatchTree>
    decreases matches,
{
    Seq::new(
        matches.len(),
        |i: int|
            if 0 <= i < matches.len() {
                matches[i].tree()
            } else {
                arbitrary()
            },
    )
}

/// The text of a label, where there is one.
pub open spec fn label_of(label: Option<Rc<String>>) -> Option<Seq<char>> {
    match label {
        Some(text) => Some(text@),
        None => None,
    }
}

impl ParserMatch {
    /// The match as a mathematical value.
    pub closed spec fn tree(&self) -> MatchTree
        decreases self,
    {
        MatchTree {
            start: self.start_position,
            end: self.end_position,
            label: label_of(self.label),
            children: trees_of(self.children@),
        }
    }

    #[verifier::type_invariant]
    spec fn span_in_order(&self) -> bool {
        self.start_position <= self.end_position
    }
}

impl View for ParserMatch {
    type V = MatchTree;

    open spec fn view(&self) -> MatchTree {
        self.tree()
    }
}

impl ParserMatch {
    pub fn new(
        start_position: usize,
        end_position: usize,
        label: Option<Rc<String>>,
        children: Rc<Vec<Rc<ParserMatch>>>,
    ) -> (made: Rc<ParserMatch>)
        requires
            start_position <= end_position,
        ensures
            made@ == (MatchTree {
                start: start_position,
                end: end_position,
                label: label_of(label),
                children: trees_of(children@),
            }),
    {
        Rc::new(ParserMatch { start_position, end_position, label, children })
    }

    /// The byte offset at which the match begins.
    pub fn start_position(&self) -> (start: usize)
        ensures
            start == self@.start,
    {
        self.start_position
    }

    /// The byte offset one past the last matched byte.
    pub fn end_position(&self) -> (end: usize)
        ensures
            end == self@.end,
            self@.start <= end,
    {
        proof {
            use_type_invariant(self);
        }
        self.end_position
    }

    /// The label, where the match has one.
    pub fn label(&self) -> (label: Option<&String>)
        ensures
            match label {
                Some(text) => self@.label == Some(text@),
                None => self@.label is None,
            },
    {
        match &self.label {
            Some(text) => Some(&**text),
            None => None,
        }
    }

    /// The sub-matches, in order.
    pub fn children(&self) -> (children: &Vec<Rc<ParserMatch>>)
        ensures
            trees_of(children@) == self@.children,
    {
        &*self.children
    }

    /// The number of bytes that the match covers.
    pub fn len(&self) -> (len: usize)
        ensures
            len == self@.end - self@.start,
    {
        proof {
            use_type_invariant(self);
        }
        self.end_position - self.start_position
    }

    /// The part of `full_text` that the match covers.
    pub fn get_text<'a>(&self, full_text: &'a str) -> (part: &'a str)
        requires
            self@.end <= full_text.spec_bytes().len(),
            on_boundary(full_text@, self@.start as int),
            on_boundary(full_text@, self@.end as int),
        ensures
            part.spec_bytes() == full_text.spec_bytes().subrange(
                self@.start as int,
                self@.end as int,
            ),
    {
        proof {
            use_type_invariant(self);
        }
        substring(full_text, self.start_position, self.end_position)
    }

    /// A new match with the same span and children under the label
    /// `new_label`. This match stays as it is.
    pub fn with_label(&self, new_label: Rc<String>) -> (made: Rc<ParserMatch>)
        ensures
            made@ == self@.relabel(new_label@),
    {
        proof {
            use_type_invariant(self);
        }
        ParserMatch::new(
            self.start_position,
            self.end_position,
            Some(new_label),
            self.children.clone(),
        )
    }
}

} // verus!
