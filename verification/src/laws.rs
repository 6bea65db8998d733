use crate::model::cursor_at;
use crate::model::Expr;
use crate::model::failed;
use crate::model::faithful;
use crate::model::matched;
use crate::model::MatchTree;
use crate::model::occurs;
use crate::model::Scope;
use crate::model::Table;
use crate::model::well_formed;
use crate::parser_context::parsed;
use crate::parser_context::ParserContext;
use crate::parser_context::tree_of;
use crate::parser_match::ParserMatch;
use std::rc::Rc;
use vstd::prelude::*;
use vstd::utf8::encode_utf8;

verus! {

/// True when `inner` is `outer` or a node below it.
pub open spec fn holds(outer: MatchTree, inner: MatchTree) -> bool
    decreases outer,
{
    ||| outer == inner
    ||| exists|i: int| 0 <= i < outer.children.len() && holds(#[trigger] outer.children[i], inner)
}

/// True when the matches of `run` lie end to end and cover the bytes from
/// `start` to `end`.
pub open spec fn tiles(run: Seq<MatchTree>, start: usize, end: usize) -> bool {
    &&& forall|i: int| 0 <= i < run.len() ==> (#[trigger] run[i]).start == cursor_at(start, run, i)
    &&& cursor_at(start, run, run.len() as int) == end
}

/// The memo table of a consistent context that is bound to a root is a
/// faithful record of evaluating that root's nodes, and accounts for every
/// failure as long as the context has noted no reentry.
pub proof fn lemma_consistent_is_faithful(context: &ParserContext)
    requires
        context.consistent(),
        context.root() is Some,
    ensures
        well_formed(context.root()->0),
        faithful(context.root()->0, context.text(), context.table(), !context.reentered()),
{
    reveal(ParserContext::consistent);
}

/// Spans are in order and inside the text: a match that a parse returns
/// lies inside the text, and so does every match below it.
pub proof fn lemma_spans_in_bounds(
    before: &ParserContext,
    after: &ParserContext,
    node: Expr,
    at: usize,
    result: Option<Rc<ParserMatch>>,
    inner: MatchTree,
)
    requires
        parsed(before, after, node, at, result),
        result matches Some(found) && holds(found@, inner),
    ensures
        0 <= inner.start <= inner.end <= after.byte_len(),
{
    lemma_within_reaches(result->0@, inner, after.byte_len());
}

/// Where a match lies inside a text with everything below it, each match
/// below it lies inside the text.
pub proof fn lemma_within_reaches(outer: MatchTree, inner: MatchTree, len: int)
    requires
        outer.within(len),
        holds(outer, inner),
    ensures
        inner.within(len),
    decreases outer,
{
    if outer != inner {
        let i = choose|i: int|
            0 <= i < outer.children.len() && holds(#[trigger] outer.children[i], inner);
        lemma_within_reaches(outer.children[i], inner, len);
    }
}

/// An operator is evaluated at most once at a position: a parse that
/// follows a parse of the same node at the same position leaves the memo
/// table as it is, and returns the same result.
pub proof fn lemma_parse_again_recalls(
    before: &ParserContext,
    between: &ParserContext,
    after: &ParserContext,
    node: Expr,
    at: usize,
    first: Option<Rc<ParserMatch>>,
    second: Option<Rc<ParserMatch>>,
)
    requires
        parsed(before, between, node, at, first),
        parsed(between, after, node, at, second),
    ensures
        after.table() == between.table(),
        tree_of(second) == tree_of(first),
{
}

/// Labels come from labels, rule references and grammars alone: a match of
/// a label carries that label, a match of a rule reference the rule's name,
/// a match of a grammar the name of its starting rule. A lookahead hands on
/// what its child matched. Every other match carries no label.
pub proof fn lemma_labelling(
    root: Expr,
    input: Seq<char>,
    t: Table,
    strict: bool,
    node: Expr,
    s: Scope,
    at: usize,
    m: MatchTree,
)
    requires
        faithful(root, input, t, strict),
        occurs(root, None, node, s),
        matched(t, at, node.id(), m),
    ensures
        match node {
            Expr::Label { label, .. } => m.label == Some(label),
            Expr::RuleReference { rule_name, .. } => m.label == Some(rule_name),
            Expr::Grammar { rules, .. } => rules.starting() matches Some(i) && m.label == Some(
                rules.rules[i].0,
            ),
            Expr::Lookahead { child, .. } => matched(t, at, child.id(), m),
            _ => m.label is None,
        },
{
    assert(t.contains_key((at, node.id())));
}

/// Sequence totality: a match of a sequence has one child for each child
/// of the sequence, each the recorded match of that child, and together
/// they cover the span of the match end to end.
pub proof fn lemma_sequence_totality(
    root: Expr,
    input: Seq<char>,
    t: Table,
    strict: bool,
    node: Expr,
    s: Scope,
    at: usize,
    m: MatchTree,
)
    requires
        faithful(root, input, t, strict),
        occurs(root, None, node, s),
        node is Sequence,
        matched(t, at, node.id(), m),
    ensures
        m.start == at,
        m.children.len() == node->Sequence_children.len(),
        tiles(m.children, m.start, m.end),
        forall|i: int|
            0 <= i < m.children.len() ==> matched(
                t,
                (#[trigger] m.children[i]).start,
                node->Sequence_children[i].id(),
                m.children[i],
            ),
{
    assert(t.contains_key((at, node.id())));
    let children = node->Sequence_children;
    assert forall|i: int| 0 <= i < m.children.len() implies (#[trigger] m.children[i]).start
        == cursor_at(at, m.children, i) && matched(
        t,
        m.children[i].start,
        children[i].id(),
        m.children[i],
    ) by {
        let from = cursor_at(at, m.children, i);
        assert(matched(t, from, children[i].id(), m.children[i]));
        assert(t.contains_key((from, children[i].id())));
    }
}

/// Alternation exclusivity: a match of an alternation has exactly one
/// child, the recorded match of one of the alternatives, and that child
/// covers the span of the match. Where the table accounts for failures,
/// every alternative before that one failed at the same position.
pub proof fn lemma_alternation_exclusive(
    root: Expr,
    input: Seq<char>,
    t: Table,
    strict: bool,
    node: Expr,
    s: Scope,
    at: usize,
    m: MatchTree,
)
    requires
        faithful(root, input, t, strict),
        occurs(root, None, node, s),
        node is Alternation,
        matched(t, at, node.id(), m),
    ensures
        m.children.len() == 1,
        m.children[0].start == m.start,
        m.children[0].end == m.end,
        exists|k: int|
            {
                &&& 0 <= k < node->Alternation_children.len()
                &&& matched(t, at, (#[trigger] node->Alternation_children[k]).id(), m.children[0])
                &&& strict ==> forall|j: int|
                    0 <= j < k ==> failed(t, at, (#[trigger] node->Alternation_children[j]).id())
            },
{
    assert(t.contains_key((at, node.id())));
    let children = node->Alternation_children;
    let k = choose|k: int|
        {
            &&& 0 <= k < children.len()
            &&& matched(t, at, (#[trigger] children[k]).id(), m.children[0])
            &&& strict ==> forall|j: int|
                0 <= j < k ==> failed(t, at, (#[trigger] children[j]).id())
        };
    assert(t.contains_key((at, children[k].id())));
}

/// Greedy quantity, the run: a match of a quantity holds recorded matches
/// of the child that lie end to end from the position of the match on, at
/// least the minimum and at most the maximum in number, and all but the
/// last cover at least one byte.
pub proof fn lemma_quantity_run(
    root: Expr,
    input: Seq<char>,
    t: Table,
    strict: bool,
    node: Expr,
    s: Scope,
    at: usize,
    m: MatchTree,
)
    requires
        faithful(root, input, t, strict),
        occurs(root, None, node, s),
        node is Quantity,
        matched(t, at, node.id(), m),
    ensures
        m.start == at,
        node->Quantity_min <= m.children.len() <= node->Quantity_max,
        tiles(m.children, m.start, m.end),
        forall|i: int|
            0 <= i < m.children.len() ==> matched(
                t,
                (#[trigger] m.children[i]).start,
                node->Quantity_child.id(),
                m.children[i],
            ),
        forall|i: int|
            0 <= i < m.children.len() - 1 ==> (#[trigger] m.children[i]).start < m.children[i].end,
{
    assert(t.contains_key((at, node.id())));
    let child = node->Quantity_child.id();
    assert forall|i: int| 0 <= i < m.children.len() implies (#[trigger] m.children[i]).start
        == cursor_at(at, m.children, i) && matched(
        t,
        m.children[i].start,
        child,
        m.children[i],
    ) by {
        let from = cursor_at(at, m.children, i);
        assert(matched(t, from, child, m.children[i]));
        assert(t.contains_key((from, child)));
    }
}

/// Greedy quantity, the end: where the table accounts for failures, a
/// match of a quantity that stopped short of the maximum, and not for a
/// match of the child that covered no byte, ends where the child fails.
pub proof fn lemma_quantity_greedy(
    root: Expr,
    input: Seq<char>,
    t: Table,
    node: Expr,
    s: Scope,
    at: usize,
    m: MatchTree,
)
    requires
        faithful(root, input, t, true),
        occurs(root, None, node, s),
        node is Quantity,
        matched(t, at, node.id(), m),
        m.children.len() < node->Quantity_max,
        m.children.len() > 0 ==> m.children.last().start < m.children.last().end,
    ensures
        failed(t, m.end, node->Quantity_child.id()),
{
    assert(t.contains_key((at, node.id())));
}

/// Leaves: a match of a literal covers the literal's bytes, which stand in
/// the text at the position of the match; a match of a literal or of a
/// regular expression has no children.
pub proof fn lemma_leaves(
    root: Expr,
    input: Seq<char>,
    t: Table,
    strict: bool,
    node: Expr,
    s: Scope,
    at: usize,
    m: MatchTree,
)
    requires
        faithful(root, input, t, strict),
        occurs(root, None, node, s),
        node is Literal || node is Regex,
        matched(t, at, node.id(), m),
        encode_utf8(input).len() <= usize::MAX,
    ensures
        m.start == at,
        m.children.len() == 0,
        node matches Expr::Literal { text, .. } ==> m.end == at + text.len() && encode_utf8(
            input,
        ).subrange(m.start as int, m.end as int) == text,
{
    assert(t.contains_key((at, node.id())));
}

/// The bytes of a text that the matches of `run` cover, one after the
/// other.
pub open spec fn covered(bytes: Seq<u8>, run: Seq<MatchTree>) -> Seq<u8>
    decreases run.len(),
{
    if run.len() == 0 {
        Seq::empty()
    } else {
        covered(bytes, run.drop_last()) + bytes.subrange(
            run.last().start as int,
            run.last().end as int,
        )
    }
}

/// Round trip: where matches lie end to end from `start` to `end` inside a
/// text, the bytes they cover, one after the other, are the bytes of the
/// text from `start` to `end`. So the text of a sequence or of a quantity
/// is the text of its children put together.
pub proof fn lemma_round_trip(bytes: Seq<u8>, run: Seq<MatchTree>, start: usize, end: usize)
    requires
        tiles(run, start, end),
        start <= bytes.len(),
        forall|i: int|
            0 <= i < run.len() ==> (#[trigger] run[i]).start <= run[i].end <= bytes.len(),
    ensures
        start <= end <= bytes.len(),
        covered(bytes, run) == bytes.subrange(start as int, end as int),
    decreases run.len(),
{
    if run.len() == 0 {
        assert(bytes.subrange(start as int, end as int) =~= Seq::empty());
    } else {
        let earlier = run.drop_last();
        let last = run.last();
        assert(last == run[run.len() - 1]);
        assert forall|i: int| 0 <= i < earlier.len() implies (#[trigger] earlier[i]).start
            == cursor_at(start, earlier, i) by {
            assert(earlier[i] == run[i]);
            assert(cursor_at(start, earlier, i) == cursor_at(start, run, i));
        }
        assert(cursor_at(start, earlier, earlier.len() as int) == last.start);
        assert forall|i: int| 0 <= i < earlier.len() implies (#[trigger] earlier[i]).start
            <= earlier[i].end <= bytes.len() by {
            assert(earlier[i] == run[i]);
        }
        lemma_round_trip(bytes, earlier, start, last.start);
        assert(bytes.subrange(start as int, last.start as int) + bytes.subrange(
            last.start as int,
            last.end as int,
        ) =~= bytes.subrange(start as int, end as int));
    }
}

} // verus!
