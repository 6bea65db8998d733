use crate::evaluation::evaluation_of;
use crate::evaluation::Outcome;
use crate::evaluation::parse_of;
use crate::model::Expr;
use crate::model::failed;
use crate::model::faithful;
use crate::model::grows_to;
use crate::model::justified;
use crate::model::MatchTree;
use crate::model::occurs;
use crate::model::operable;
use crate::model::RuleTable;
use crate::model::Scope;
use crate::model::Slot;
use crate::model::slot_sound;
use crate::model::Table;
use crate::model::well_formed;
use crate::ops::parser_operator::ParserOperator;
use crate::ops::parser_rule_set::is_rule_at;
use crate::ops::parser_rule_set::ParserRuleSet;
use crate::parser_match::ParserMatch;
use crate::table::capacity;
use crate::table::lemma_faithful_record;
use crate::table::lemma_faithful_same_results;
use crate::table::lemma_faithful_weakens;
use crate::table::lemma_keys_bounded;
use crate::text::on_boundary;
use std::collections::BTreeMap;
use std::rc::Rc;
use vstd::prelude::*;
use vstd::string::StringSliceAdditionalSpecFns;

verus! {

/// What the memo table holds under one key.
#[derive(Debug)]
pub enum MemoEntry {
    /// The evaluation under this key has begun and has not ended.
    Pending,
    /// The evaluation under this key has ended, with this result.
    Done(Option<Rc<ParserMatch>>),
}

/// The tree of a result, where the result is a match.
pub open spec fn tree_of(result: Option<Rc<ParserMatch>>) -> Option<MatchTree> {
    match result {
        Some(found) => Some(found@),
        None => None,
    }
}

impl View for MemoEntry {
    type V = Slot;

    open spec fn view(&self) -> Slot {
        match self {
            MemoEntry::Pending => Slot::Pending,
            MemoEntry::Done(result) => Slot::Done(tree_of(*result)),
        }
    }
}

impl MemoEntry {
    /// A second handle on the same entry.
    pub fn share(&self) -> (shared: MemoEntry)
        ensures
            shared@ == self@,
    {
        match self {
            MemoEntry::Pending => MemoEntry::Pending,
            MemoEntry::Done(None) => MemoEntry::Done(None),
            MemoEntry::Done(Some(found)) => MemoEntry::Done(Some(found.clone())),
        }
    }
}

/// The state of one parse: the text, the memo table, the stack of active
/// grammars, and whether an evaluation has come back to a key of its own.
pub struct ParserContext<'ft> {
    full_text: &'ft str,
    memory: BTreeMap<(usize, usize), MemoEntry>,
    current_grammar: Vec<Rc<ParserRuleSet>>,
    reentered: bool,
    root: Ghost<Option<Expr>>,
}

/// The slots of a map of memo entries.
pub open spec fn slots_of(memory: Map<(usize, usize), MemoEntry>) -> Table {
    memory.map_values(|entry: MemoEntry| entry@)
}

/// The rule tables of a stack of rule sets, bottom first.
pub open spec fn tables_of(stack: Seq<Rc<ParserRuleSet>>) -> Seq<RuleTable> {
    Seq::new(stack.len(), |i: int| stack[i]@)
}

impl<'ft> ParserContext<'ft> {
    /// The text that is parsed.
    pub closed spec fn text(&self) -> Seq<char> {
        self.full_text@
    }

    /// The number of bytes of the text.
    pub open spec fn byte_len(&self) -> int {
        vstd::utf8::encode_utf8(self.text()).len() as int
    }

    /// The memo table.
    pub closed spec fn table(&self) -> Table {
        slots_of(self.memory@)
    }

    /// The stack of active rule tables, bottom first.
    pub closed spec fn scopes(&self) -> Seq<RuleTable> {
        tables_of(self.current_grammar@)
    }

    /// The rule table against which rule references resolve now.
    pub open spec fn scope(&self) -> Scope {
        if self.scopes().len() > 0 {
            Some(self.scopes().last())
        } else {
            None
        }
    }

    /// True once an evaluation has come back to a key whose evaluation had
    /// not ended, and was cut short there.
    pub closed spec fn reentered(&self) -> bool {
        self.reentered
    }

    /// The root expression that the memo table belongs to, once a parse has
    /// bound the context to one.
    pub closed spec fn root(&self) -> Option<Expr> {
        self.root@
    }

    pub fn new(full_text: &'ft str) -> (context: ParserContext<'ft>)
        ensures
            context.text() == full_text@,
            context.table() == Map::<(usize, usize), Slot>::empty(),
            context.scopes() == Seq::<RuleTable>::empty(),
            !context.reentered(),
            context.root() is None,
            context.consistent(),
    {
        let context = ParserContext {
            full_text,
            memory: BTreeMap::new(),
            current_grammar: Vec::new(),
            reentered: false,
            root: Ghost(None),
        };
        assert(context.table() =~= Map::<(usize, usize), Slot>::empty());
        assert(context.scopes() =~= Seq::<RuleTable>::empty());
        proof {
            reveal(ParserContext::consistent);
        }
        context
    }

    pub fn get_full_text(&self) -> (text: &'ft str)
        ensures
            text@ == self.text(),
    {
        self.full_text
    }

    /// Tells whether an evaluation has come back to a key whose evaluation
    /// had not ended.
    pub fn has_reentered(&self) -> (reentered: bool)
        ensures
            reentered == self.reentered(),
    {
        self.reentered
    }

    /// What the memo table holds under a key, if anything.
    pub fn probe(&self, start_position: usize, parser_operator_id: usize) -> (entry: Option<
        MemoEntry,
    >)
        ensures
            match entry {
                Some(held) => self.table().contains_key((start_position, parser_operator_id))
                    && self.table()[(start_position, parser_operator_id)] == held@,
                None => !self.table().contains_key((start_position, parser_operator_id)),
            },
    {
        match self.memory.get(&(start_position, parser_operator_id)) {
            Some(held) => Some(held.share()),
            None => None,
        }
    }

    /// What is remembered of an operator at a position: nothing where it
    /// was not attempted there; no match where it failed there, or where
    /// its evaluation there has not ended; else its match.
    pub fn get_memory(&self, start_position: usize, parser_operator_id: usize) -> (remembered:
        Option<Option<Rc<ParserMatch>>>)
        ensures
            match remembered {
                None => !self.table().contains_key((start_position, parser_operator_id)),
                Some(result) => self.table().contains_key((start_position, parser_operator_id))
                    && match self.table()[(start_position, parser_operator_id)] {
                    Slot::Pending => result is None,
                    Slot::Done(recorded) => tree_of(result) == recorded,
                },
            },
    {
        match self.probe(start_position, parser_operator_id) {
            Some(MemoEntry::Done(result)) => Some(result),
            Some(MemoEntry::Pending) => Some(None),
            None => None,
        }
    }

    /// Remembers the result of an operator at a position, and hands the
    /// result back. A result is remembered once: the key must not hold one.
    pub fn set_memory(
        &mut self,
        start_position: usize,
        parser_operator_id: usize,
        parser_match: Option<Rc<ParserMatch>>,
    ) -> (stored: Option<Rc<ParserMatch>>)
        requires
            old(self).table().contains_key((start_position, parser_operator_id)) ==> old(
                self,
            ).table()[(start_position, parser_operator_id)] is Pending,
        ensures
            stored == parser_match,
            final(self).table() == old(self).table().insert(
                (start_position, parser_operator_id),
                Slot::Done(tree_of(parser_match)),
            ),
            final(self).text() == old(self).text(),
            final(self).scopes() == old(self).scopes(),
            final(self).reentered() == old(self).reentered(),
            final(self).root() == old(self).root(),
    {
        let stored = match &parser_match {
            Some(found) => Some(found.clone()),
            None => None,
        };
        let entry = MemoEntry::Done(parser_match);
        self.memory.insert((start_position, parser_operator_id), entry);
        assert(self.table() =~= old(self).table().insert(
            (start_position, parser_operator_id),
            Slot::Done(tree_of(stored)),
        ));
        stored
    }

    pub fn push_rule_set(&mut self, rule_set: Rc<ParserRuleSet>)
        ensures
            final(self).scopes() == old(self).scopes().push(rule_set@),
            final(self).text() == old(self).text(),
            final(self).table() == old(self).table(),
            final(self).reentered() == old(self).reentered(),
            final(self).root() == old(self).root(),
    {
        self.current_grammar.push(rule_set);
        assert(self.scopes() =~= old(self).scopes().push(rule_set@));
    }

    pub fn pop_rule_set(&mut self)
        ensures
            final(self).scopes() == if old(self).scopes().len() > 0 {
                old(self).scopes().drop_last()
            } else {
                old(self).scopes()
            },
            final(self).text() == old(self).text(),
            final(self).table() == old(self).table(),
            final(self).reentered() == old(self).reentered(),
            final(self).root() == old(self).root(),
    {
        self.current_grammar.pop();
        assert(self.scopes() =~= if old(self).scopes().len() > 0 {
            old(self).scopes().drop_last()
        } else {
            old(self).scopes()
        });
    }

    /// The rule of that name in the topmost grammar; nothing where no
    /// grammar is active or the name is unknown.
    pub fn get_rule(&self, rule_name: &str) -> (found: Option<(Rc<String>, Rc<ParserOperator>)>)
        ensures
            match self.scope() {
                Some(table) => is_rule_at(table, table.index_of(rule_name@), found),
                None => found is None,
            },
    {
        let depth = self.current_grammar.len();
        if depth == 0 {
            None
        } else {
            self.current_grammar[depth - 1].get_rule_by_name(rule_name)
        }
    }

    /// The starting rule of the topmost grammar; nothing where no grammar
    /// is active or the grammar has no rule.
    pub fn get_starting_rule(&self) -> (found: Option<(Rc<String>, Rc<ParserOperator>)>)
        ensures
            match self.scope() {
                Some(table) => is_rule_at(table, table.starting(), found),
                None => found is None,
            },
    {
        let depth = self.current_grammar.len();
        if depth == 0 {
            None
        } else {
            self.current_grammar[depth - 1].get_starting_rule()
        }
    }
}

impl<'ft> ParserContext<'ft> {
    /// True when the context is in a state that a parse leaves behind: it
    /// is untouched, or it is bound to a well-formed root and its memo
    /// table is a faithful record of evaluating nodes of that root. The
    /// record accounts for every failure as long as no evaluation has come
    /// back to a key of its own.
    #[verifier::opaque]
    pub open spec fn consistent(&self) -> bool {
        match self.root() {
            None => {
                &&& self.table() == Map::<(usize, usize), Slot>::empty()
                &&& self.scopes().len() == 0
                &&& !self.reentered()
            },
            Some(root) => {
                &&& well_formed(root)
                &&& faithful(root, self.text(), self.table(), !self.reentered())
            },
        }
    }

    /// The number of keys under which the memo table holds nothing yet.
    pub closed spec fn vacancies(&self) -> int {
        capacity(self.byte_len()) - self.table().dom().len()
    }

    /// True when `later` is this context after some evaluations: the same
    /// text and grammar stack, every slot of the memo table as it was, and
    /// no fewer slots.
    pub open spec fn advances_to(&self, later: &ParserContext) -> bool {
        &&& later.text() == self.text()
        &&& later.scopes() == self.scopes()
        &&& grows_to(self.table(), later.table())
        &&& (self.reentered() ==> later.reentered())
        &&& 0 <= later.vacancies() <= self.vacancies()
    }

    /// True when `node` can be evaluated in this context: where the context
    /// is bound to a root, `node` occurs below that root under the rule
    /// table that is active now; where it is not, `node` is a well-formed
    /// root itself.
    pub open spec fn admits(&self, node: Expr) -> bool {
        match self.root() {
            Some(root) => occurs(root, None, node, self.scope()),
            None => well_formed(node),
        }
    }

    /// The memo table holds finitely many slots.
    pub proof fn lemma_table_finite(&self)
        ensures
            self.table().dom().finite(),
    {
        assert(self.table().dom() =~= self.memory@.dom());
        vstd::std_specs::btree::axiom_btree_map_view_finite_dom(self.memory);
    }

    /// The memo table of a consistent context holds at most as many slots
    /// as there are keys.
    pub proof fn lemma_vacancies(&self)
        requires
            self.consistent(),
        ensures
            0 <= self.vacancies(),
    {
        reveal(ParserContext::consistent);
        self.lemma_table_finite();
        if self.root() is None {
            assert(!self.table().contains_key(arbitrary()));
        }
        lemma_keys_bounded(self.table().dom(), self.byte_len());
    }

    /// The root that the context is bound to once `node` has been parsed
    /// in it.
    pub open spec fn root_after(&self, node: Expr) -> Expr {
        match self.root() {
            Some(root) => root,
            None => node,
        }
    }

    /// Under an empty memo table every key is vacant.
    pub proof fn lemma_vacancies_of_empty(&self)
        requires
            self.table() == Map::<(usize, usize), Slot>::empty(),
        ensures
            self.vacancies() == capacity(self.byte_len()),
    {
        assert(self.table().dom() =~= Set::empty());
    }

    /// True when `bound` is this context with `node` taken as its root,
    /// where it had none, and nothing else changed.
    pub open spec fn bound_as(&self, bound: &ParserContext, node: Expr) -> bool {
        &&& bound.root() == Some(self.root_after(node))
        &&& bound.text() == self.text()
        &&& bound.scopes() == self.scopes()
        &&& bound.table() == self.table()
        &&& bound.reentered() == self.reentered()
        &&& bound.vacancies() == self.vacancies()
    }

    /// Binds the context to `node` as its root, unless it is bound to a
    /// root already.
    pub(crate) fn bind(&mut self, Ghost(node): Ghost<Expr>)
        requires
            old(self).consistent(),
            old(self).admits(node),
        ensures
            final(self).consistent(),
            final(self).admits(node),
            old(self).bound_as(final(self), node),
    {
        proof {
            reveal(ParserContext::consistent);
        }
        self.root = Ghost(Some(self.root_after(node)));
    }

    /// In a consistent context, a node that occurs below the root finds
    /// the rule it refers to, and a grammar its starting rule.
    pub proof fn lemma_operable(&self, node: Expr)
        requires
            self.consistent(),
            self.root() is Some,
            self.admits(node),
        ensures
            operable(node, self.scope()),
    {
        reveal(ParserContext::consistent);
    }

    /// Marks the evaluation under a key as begun.
    pub(crate) fn begin(&mut self, start_position: usize, parser_operator_id: usize)
        requires
            old(self).consistent(),
            old(self).root() is Some,
            start_position <= old(self).byte_len(),
            !old(self).table().contains_key((start_position, parser_operator_id)),
        ensures
            final(self).consistent(),
            final(self).root() == old(self).root(),
            final(self).text() == old(self).text(),
            final(self).scopes() == old(self).scopes(),
            final(self).reentered() == old(self).reentered(),
            final(self).table() == old(self).table().insert(
                (start_position, parser_operator_id),
                Slot::Pending,
            ),
            final(self).vacancies() == old(self).vacancies() - 1,
            0 <= final(self).vacancies(),
    {
        proof {
            reveal(ParserContext::consistent);
        }
        self.memory.insert((start_position, parser_operator_id), MemoEntry::Pending);
        proof {
            let key = (start_position, parser_operator_id);
            let t = old(self).table();
            let u = t.insert(key, Slot::Pending);
            assert(self.table() =~= u);
            lemma_faithful_same_results(
                self.root()->0,
                self.text(),
                t,
                u,
                !self.reentered(),
            );
            assert(u.dom() =~= t.dom().insert(key));
            old(self).lemma_table_finite();
            self.lemma_table_finite();
            lemma_keys_bounded(u.dom(), self.byte_len());
        }
    }

    /// Notes that an evaluation came back to a key whose evaluation had not
    /// ended.
    pub(crate) fn note_reentry(&mut self)
        requires
            old(self).consistent(),
            old(self).root() is Some,
        ensures
            final(self).consistent(),
            final(self).reentered(),
            final(self).root() == old(self).root(),
            final(self).text() == old(self).text(),
            final(self).scopes() == old(self).scopes(),
            final(self).table() == old(self).table(),
            final(self).vacancies() == old(self).vacancies(),
    {
        proof {
            reveal(ParserContext::consistent);
            lemma_faithful_weakens(
                self.root()->0,
                self.text(),
                self.table(),
                !self.reentered(),
            );
        }
        self.reentered = true;
    }

    /// Records the justified result of a node under the node's key, in
    /// place of the mark that its evaluation had begun.
    pub(crate) fn record(
        &mut self,
        start_position: usize,
        Ghost(node): Ghost<Expr>,
        parser_operator_id: usize,
        parser_match: Option<Rc<ParserMatch>>,
    ) -> (stored: Option<Rc<ParserMatch>>)
        requires
            old(self).consistent(),
            old(self).root() matches Some(root) && occurs(root, None, node, old(self).scope()),
            parser_operator_id == node.id(),
            old(self).table().contains_key((start_position, parser_operator_id)),
            old(self).table()[(start_position, parser_operator_id)] is Pending,
            justified(
                node,
                old(self).scope(),
                old(self).text(),
                old(self).table(),
                start_position,
                tree_of(parser_match),
                !old(self).reentered(),
            ),
            slot_sound(
                old(self).text(),
                (start_position, parser_operator_id),
                Slot::Done(tree_of(parser_match)),
            ),
        ensures
            stored == parser_match,
            final(self).consistent(),
            final(self).root() == old(self).root(),
            final(self).text() == old(self).text(),
            final(self).scopes() == old(self).scopes(),
            final(self).reentered() == old(self).reentered(),
            final(self).table() == old(self).table().insert(
                (start_position, parser_operator_id),
                Slot::Done(tree_of(parser_match)),
            ),
            final(self).vacancies() == old(self).vacancies(),
    {
        proof {
            reveal(ParserContext::consistent);
            lemma_faithful_record(
                self.root()->0,
                self.text(),
                self.table(),
                !self.reentered(),
                node,
                self.scope(),
                start_position,
                tree_of(parser_match),
            );
        }
        let stored = self.set_memory(start_position, parser_operator_id, parser_match);
        proof {
            let key = (start_position, parser_operator_id);
            assert(self.table().dom() =~= old(self).table().dom());
        }
        stored
    }

    /// Makes a rule set the active one, on top of those that are active.
    pub(crate) fn enter_rule_set(&mut self, rule_set: Rc<ParserRuleSet>)
        requires
            old(self).consistent(),
            old(self).root() is Some,
        ensures
            final(self).consistent(),
            final(self).scopes() == old(self).scopes().push(rule_set@),
            final(self).text() == old(self).text(),
            final(self).table() == old(self).table(),
            final(self).reentered() == old(self).reentered(),
            final(self).root() == old(self).root(),
            final(self).vacancies() == old(self).vacancies(),
    {
        proof {
            reveal(ParserContext::consistent);
        }
        self.push_rule_set(rule_set);
    }

    /// Takes the active rule set off the stack.
    pub(crate) fn leave_rule_set(&mut self)
        requires
            old(self).consistent(),
            old(self).root() is Some,
            old(self).scopes().len() > 0,
        ensures
            final(self).consistent(),
            final(self).scopes() == old(self).scopes().drop_last(),
            final(self).text() == old(self).text(),
            final(self).table() == old(self).table(),
            final(self).reentered() == old(self).reentered(),
            final(self).root() == old(self).root(),
            final(self).vacancies() == old(self).vacancies(),
    {
        proof {
            reveal(ParserContext::consistent);
        }
        self.pop_rule_set();
    }

    /// What a consistent context knows of a match that its memo table
    /// holds: it starts at its key's offset, lies inside the text with
    /// everything below it, and ends on a character boundary.
    pub proof fn lemma_recorded_match_sound(&self, at: usize, id: usize)
        requires
            self.consistent(),
            self.table().contains_key((at, id)),
        ensures
            slot_sound(self.text(), (at, id), self.table()[(at, id)]),
    {
        reveal(ParserContext::consistent);
        if self.root() is None {
            assert(!Map::<(usize, usize), Slot>::empty().contains_key((at, id)));
        }
    }
}

/// The state that a context is in, with a result.
pub open spec fn outcome_of(context: &ParserContext, result: Option<Rc<ParserMatch>>) -> Outcome {
    Outcome { table: context.table(), reentered: context.reentered(), result: tree_of(result) }
}

/// True when `after` and `result` are what the parse of `node` at `at`
/// comes to from `before` on.
pub open spec fn parses_as(
    before: &ParserContext,
    after: &ParserContext,
    node: Expr,
    at: usize,
    result: Option<Rc<ParserMatch>>,
) -> bool {
    forall|depth: nat|
        depth >= before.vacancies() ==> #[trigger] parse_of(
            node,
            before.scope(),
            before.text(),
            before.table(),
            before.reentered(),
            at,
            depth,
        ) == Some(outcome_of(after, result))
}

/// True when `after` and `result` are what the evaluation of `node` at
/// `at`, past the memo table, comes to from `before` on.
pub open spec fn evaluates_as(
    before: &ParserContext,
    after: &ParserContext,
    node: Expr,
    at: usize,
    result: Option<Rc<ParserMatch>>,
) -> bool {
    forall|depth: nat|
        depth >= before.vacancies() ==> #[trigger] evaluation_of(
            node,
            before.scope(),
            before.text(),
            before.table(),
            before.reentered(),
            at,
            depth,
        ) == Some(outcome_of(after, result))
}

/// What a parse of `node` at byte offset `at` asks of the context.
pub open spec fn ready(context: &ParserContext, node: Expr, at: usize) -> bool {
    &&& context.consistent()
    &&& context.admits(node)
    &&& at <= context.byte_len()
    &&& on_boundary(context.text(), at as int)
}

/// What a parse of `node` at byte offset `at` leaves behind: a consistent
/// context whose memo table holds the result under the node's key. The one
/// exception is a parse that came upon its own key with the evaluation
/// under it not ended: it changes nothing but the note of that, and
/// returns no match.
pub open spec fn parsed(
    before: &ParserContext,
    after: &ParserContext,
    node: Expr,
    at: usize,
    result: Option<Rc<ParserMatch>>,
) -> bool {
    &&& after.consistent()
    &&& before.advances_to(after)
    &&& after.root() == Some(before.root_after(node))
    &&& before.table().contains_key((at, node.id())) ==> after.table() == before.table()
    &&& after.table().contains_key((at, node.id()))
    &&& match after.table()[(at, node.id())] {
        Slot::Done(recorded) => tree_of(result) == recorded,
        Slot::Pending => {
            &&& result is None
            &&& after.reentered()
            &&& before.table().contains_key((at, node.id()))
        },
    }
    &&& slot_sound(after.text(), (at, node.id()), Slot::Done(tree_of(result)))
    &&& parses_as(before, after, node, at, result)
}

/// What holds of a context that is ready for `node` at byte offset `at`
/// and bound to a root.
pub open spec fn evaluable(context: &ParserContext, node: Expr, at: usize) -> bool {
    &&& ready(context, node, at)
    &&& context.root() is Some
}

/// What the evaluation of `node` at byte offset `at` leaves behind: a
/// consistent context whose memo table justifies the result.
pub open spec fn evaluated(
    before: &ParserContext,
    after: &ParserContext,
    node: Expr,
    at: usize,
    result: Option<Rc<ParserMatch>>,
) -> bool {
    &&& after.consistent()
    &&& before.advances_to(after)
    &&& after.root() == Some(before.root_after(node))
    &&& justified(
        node,
        before.scope(),
        before.text(),
        after.table(),
        at,
        tree_of(result),
        !after.reentered(),
    )
    &&& slot_sound(after.text(), (at, node.id()), Slot::Done(tree_of(result)))
    &&& evaluates_as(before, after, node, at, result)
}

} // verus!
