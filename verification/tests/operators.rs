use npeg_rs::ops::regex::RegexProbe;
use npeg_rs::Alternation;
use npeg_rs::Grammar;
use npeg_rs::IdentifierCounter;
use npeg_rs::Label;
use npeg_rs::Literal;
use npeg_rs::Lookahead;
use npeg_rs::OpaqueIdentifier;
use npeg_rs::Parser;
use npeg_rs::ParserContext;
use npeg_rs::ParserMatch;
use npeg_rs::ParserOperator;
use npeg_rs::Quantity;
use npeg_rs::Regex;
use npeg_rs::RuleReference;
use npeg_rs::Sequence;
use std::rc::Rc;

fn lit(ids: &mut IdentifierCounter, text: &str) -> Rc<ParserOperator> {
    Rc::new(ParserOperator::Literal(Literal::new(OpaqueIdentifier::new(ids), text)))
}

fn reg(
    ids: &mut IdentifierCounter,
    pattern: &str,
    m: bool,
    i: bool,
    s: bool,
) -> Rc<ParserOperator> {
    Rc::new(ParserOperator::Regex(Regex::new(OpaqueIdentifier::new(ids), pattern, m, i, s)))
}

fn rul(ids: &mut IdentifierCounter, name: &str) -> Rc<ParserOperator> {
    Rc::new(ParserOperator::RuleReference(RuleReference::new(OpaqueIdentifier::new(ids), name)))
}

fn seq(ids: &mut IdentifierCounter, children: Vec<Rc<ParserOperator>>) -> Rc<ParserOperator> {
    Rc::new(ParserOperator::Sequence(Sequence::new(OpaqueIdentifier::new(ids), children)))
}

fn alt(ids: &mut IdentifierCounter, children: Vec<Rc<ParserOperator>>) -> Rc<ParserOperator> {
    Rc::new(ParserOperator::Alternation(Alternation::new(OpaqueIdentifier::new(ids), children)))
}

fn lbl(ids: &mut IdentifierCounter, child: Rc<ParserOperator>, label: &str) -> Rc<ParserOperator> {
    Rc::new(ParserOperator::Label(Label::new(OpaqueIdentifier::new(ids), child, label)))
}

fn qtt(
    ids: &mut IdentifierCounter,
    child: Rc<ParserOperator>,
    min: usize,
    max: Option<usize>,
) -> Rc<ParserOperator> {
    Rc::new(ParserOperator::Quantity(Quantity::new(OpaqueIdentifier::new(ids), child, min, max)))
}

fn lah(
    ids: &mut IdentifierCounter,
    child: Rc<ParserOperator>,
    scout: Rc<ParserOperator>,
    accept_match: bool,
) -> Rc<ParserOperator> {
    Rc::new(ParserOperator::Lookahead(Lookahead::new(
        OpaqueIdentifier::new(ids),
        child,
        scout,
        accept_match,
    )))
}

fn gram(
    ids: &mut IdentifierCounter,
    start: Option<&str>,
    rules: Vec<(&str, Rc<ParserOperator>)>,
) -> Rc<ParserOperator> {
    Rc::new(ParserOperator::Grammar(Grammar::new(OpaqueIdentifier::new(ids), start, rules)))
}

fn span(m: &ParserMatch) -> (usize, usize) {
    (m.start_position(), m.end_position())
}

fn label(m: &ParserMatch) -> Option<&str> {
    m.label().map(|l| l.as_str())
}

fn run(op: &Rc<ParserOperator>, text: &str, at: usize) -> Option<(usize, usize)> {
    let mut context = ParserContext::new(text);
    op.parse(&mut context, at).map(|m| span(&m))
}

#[test]
fn test_a() {
    let mut ids = IdentifierCounter::new();
    let lit_a = lit(&mut ids, "a");
    let lit_b = lit(&mut ids, "a()");
    let reg = reg(&mut ids, "[0-9]", false, true, false);
    let lab = lbl(&mut ids, lit_a, "ATOM A");
    let alt = alt(&mut ids, vec![lit_b, lab, reg]);
    let mut context = Box::new(ParserContext::new("0"));
    let result = alt.parse(&mut context, 0);
    println!("{:?}", result);
    let found = result.unwrap();
    assert_eq!(span(&found), (0, 1));
    assert_eq!(label(&found), None);
    assert_eq!(found.children().len(), 1);
    assert_eq!(span(&found.children()[0]), (0, 1));
}

#[test]
fn alternation_prefers_the_earlier_alternative() {
    let mut ids = IdentifierCounter::new();
    let lit_a = lit(&mut ids, "a");
    let lit_b = lit(&mut ids, "a()");
    let lab = lbl(&mut ids, lit_a, "ATOM A");
    let op = alt(&mut ids, vec![lit_b, lab]);
    let mut context = ParserContext::new("a()");
    let found = op.parse(&mut context, 0).unwrap();
    assert_eq!(span(&found), (0, 3));
    assert_eq!(label(&found.children()[0]), None);
    let mut context = ParserContext::new("a(");
    let found = op.parse(&mut context, 0).unwrap();
    assert_eq!(span(&found), (0, 1));
    assert_eq!(label(&found.children()[0]), Some("ATOM A"));
}

#[test]
fn literal_matches_byte_for_byte() {
    let mut ids = IdentifierCounter::new();
    let op = lit(&mut ids, "ab");
    assert_eq!(run(&op, "abc", 0), Some((0, 2)));
    assert_eq!(run(&op, "xab", 1), Some((1, 3)));
    assert_eq!(run(&op, "Ab", 0), None);
    assert_eq!(run(&op, "a", 0), None);
    assert_eq!(run(&op, "ab", 2), None);
    assert_eq!(run(&op, "", 0), None);
}

#[test]
fn literal_matches_text_beyond_ascii() {
    let mut ids = IdentifierCounter::new();
    let op = lit(&mut ids, "✔");
    assert_eq!(run(&op, "0✔1", 1), Some((1, 4)));
    assert_eq!(run(&op, "0✔1", 0), None);
}

#[test]
fn label_relabels_its_child() {
    let mut ids = IdentifierCounter::new();
    let inner = lit(&mut ids, "a");
    let first = lbl(&mut ids, inner, "Inner");
    let outer = lbl(&mut ids, first.clone(), "Outer");
    let mut context = ParserContext::new("a");
    let found = outer.parse(&mut context, 0).unwrap();
    assert_eq!(label(&found), Some("Outer"));
    assert_eq!(span(&found), (0, 1));
    assert!(found.children().is_empty());
    let inner_found = first.parse(&mut context, 0).unwrap();
    assert_eq!(label(&inner_found), Some("Inner"));
    let mut context = ParserContext::new("b");
    assert!(outer.parse(&mut context, 0).is_none());
}

#[test]
fn sequence_covers_its_children() {
    let mut ids = IdentifierCounter::new();
    let a = lit(&mut ids, "a");
    let bc = lit(&mut ids, "bc");
    let d = lit(&mut ids, "d");
    let op = seq(&mut ids, vec![a, bc, d]);
    let mut context = ParserContext::new("xabcd");
    let found = op.parse(&mut context, 1).unwrap();
    assert_eq!(span(&found), (1, 5));
    assert_eq!(label(&found), None);
    assert_eq!(found.children().len(), 3);
    assert_eq!(span(&found.children()[0]), (1, 2));
    assert_eq!(span(&found.children()[1]), (2, 4));
    assert_eq!(span(&found.children()[2]), (4, 5));
    assert_eq!(run(&op, "abcx", 0), None);
    assert_eq!(run(&op, "abc", 0), None);
}

#[test]
fn quantity_is_greedy_up_to_its_maximum() {
    let mut ids = IdentifierCounter::new();
    let a = lit(&mut ids, "a");
    let op = qtt(&mut ids, a.clone(), 1, Some(3));
    let mut context = ParserContext::new("aaaaa");
    let found = op.parse(&mut context, 0).unwrap();
    assert_eq!(span(&found), (0, 3));
    assert_eq!(found.children().len(), 3);
    let mut context = ParserContext::new("aab");
    let found = op.parse(&mut context, 0).unwrap();
    assert_eq!(span(&found), (0, 2));
    assert_eq!(found.children().len(), 2);
    assert!(a.parse(&mut context, 2).is_none());
    assert_eq!(run(&op, "b", 0), None);
}

#[test]
fn quantity_fails_below_its_minimum() {
    let mut ids = IdentifierCounter::new();
    let a = lit(&mut ids, "a");
    let op = qtt(&mut ids, a, 2, Some(4));
    assert_eq!(run(&op, "ab", 0), None);
    assert_eq!(run(&op, "aab", 0), Some((0, 2)));
}

#[test]
fn quantity_without_maximum_takes_all() {
    let mut ids = IdentifierCounter::new();
    let a = lit(&mut ids, "a");
    let op = qtt(&mut ids, a, 0, None);
    let mut context = ParserContext::new("aaaaaaab");
    let found = op.parse(&mut context, 0).unwrap();
    assert_eq!(span(&found), (0, 7));
    assert_eq!(found.children().len(), 7);
    let mut context = ParserContext::new("b");
    let found = op.parse(&mut context, 0).unwrap();
    assert_eq!(span(&found), (0, 0));
    assert!(found.children().is_empty());
}

#[test]
fn quantity_stops_at_a_child_that_covers_nothing() {
    let mut ids = IdentifierCounter::new();
    let maybe_a = reg(&mut ids, "a*", false, false, false);
    let op = qtt(&mut ids, maybe_a.clone(), 0, None);
    let mut context = ParserContext::new("b");
    let found = op.parse(&mut context, 0).unwrap();
    assert_eq!(span(&found), (0, 0));
    assert_eq!(found.children().len(), 1);
    assert_eq!(span(&found.children()[0]), (0, 0));
    let mut context = ParserContext::new("aab");
    let found = op.parse(&mut context, 0).unwrap();
    assert_eq!(span(&found), (0, 2));
    assert_eq!(found.children().len(), 2);
    assert_eq!(span(&found.children()[0]), (0, 2));
    assert_eq!(span(&found.children()[1]), (2, 2));
    let needs_three = qtt(&mut ids, maybe_a, 3, Some(5));
    assert_eq!(run(&needs_three, "aab", 0), None);
}

#[test]
fn positive_lookahead_wants_the_scout_to_match() {
    let mut ids = IdentifierCounter::new();
    let a = lit(&mut ids, "a");
    let b = lit(&mut ids, "b");
    let op = lah(&mut ids, a.clone(), b, true);
    let mut context = ParserContext::new("ab");
    let found = op.parse(&mut context, 0).unwrap();
    assert_eq!(span(&found), (0, 1));
    let child = a.parse(&mut context, 0).unwrap();
    assert!(Rc::ptr_eq(&found, &child));
    assert_eq!(run(&op, "ac", 0), None);
    assert_eq!(run(&op, "a", 0), None);
    assert_eq!(run(&op, "bb", 0), None);
}

#[test]
fn negative_lookahead_wants_the_scout_to_fail() {
    let mut ids = IdentifierCounter::new();
    let a = lit(&mut ids, "a");
    let b = lit(&mut ids, "b");
    let op = lah(&mut ids, a, b, false);
    assert_eq!(run(&op, "ac", 0), Some((0, 1)));
    assert_eq!(run(&op, "a", 0), Some((0, 1)));
    assert_eq!(run(&op, "ab", 0), None);
    assert_eq!(run(&op, "cc", 0), None);
    assert_eq!(run(&op, "bb", 0), None);
}

#[test]
fn lookahead_tries_the_scout_where_the_child_failed() {
    let mut ids = IdentifierCounter::new();
    let a = lit(&mut ids, "a");
    let b = lit(&mut ids, "b");
    let op = lah(&mut ids, a, b.clone(), true);
    let mut context = ParserContext::new("b");
    assert!(op.parse(&mut context, 0).is_none());
    let scouted = context.get_memory(0, b.get_id()).unwrap().unwrap();
    assert_eq!(span(&scouted), (0, 1));
}

#[test]
fn regex_is_anchored_at_the_position() {
    let mut ids = IdentifierCounter::new();
    let digits = reg(&mut ids, "[0-9]+", false, false, false);
    assert_eq!(run(&digits, "123ab", 0), Some((0, 3)));
    assert_eq!(run(&digits, "ab123", 2), Some((2, 5)));
    assert_eq!(run(&digits, "ab123", 0), None);
    assert_eq!(run(&digits, "ab123", 5), None);
    let anchored = reg(&mut ids, "^[0-9]", false, false, false);
    assert_eq!(run(&anchored, "7", 0), Some((0, 1)));
    assert_eq!(run(&anchored, "a7", 1), Some((1, 2)));
}

#[test]
fn regex_flags_are_handed_on() {
    let mut ids = IdentifierCounter::new();
    let plain = reg(&mut ids, "ab", false, false, false);
    let any_case = reg(&mut ids, "ab", false, true, false);
    assert_eq!(run(&plain, "AB", 0), None);
    assert_eq!(run(&any_case, "AB", 0), Some((0, 2)));
    let dot = reg(&mut ids, "a.b", false, false, false);
    let dot_all = reg(&mut ids, "a.b", false, false, true);
    assert_eq!(run(&dot, "a\nb", 0), None);
    assert_eq!(run(&dot_all, "a\nb", 0), Some((0, 3)));
    let line_end = reg(&mut ids, "a$", false, false, false);
    let line_end_multi = reg(&mut ids, "a$", true, false, false);
    assert_eq!(run(&line_end, "a\nb", 0), None);
    assert_eq!(run(&line_end_multi, "a\nb", 0), Some((0, 1)));
    let all = reg(&mut ids, "a.B$", true, true, true);
    assert_eq!(run(&all, "A\nb\nc", 0), Some((0, 3)));
}

#[test]
fn regex_match_that_starts_later_is_no_match() {
    let mut ids = IdentifierCounter::new();
    let loose = reg(&mut ids, "^a|b", false, false, false);
    assert_eq!(run(&loose, "xb", 0), None);
    assert_eq!(run(&loose, "bx", 0), Some((0, 1)));
    let by_line = reg(&mut ids, "b", true, false, false);
    assert_eq!(run(&by_line, "a\nb", 0), None);
    assert_eq!(run(&by_line, "a\nb", 2), Some((2, 3)));
}

#[test]
fn regex_with_a_bad_pattern_is_not_well_formed() {
    let mut ids = IdentifierCounter::new();
    let bad = reg(&mut ids, "(", false, false, false);
    assert!(!bad.is_well_formed());
    assert!(bad.parse_text("(").is_none());
    let good = reg(&mut ids, "\\(", false, false, false);
    assert!(good.is_well_formed());
    let (result, _) = good.parse_text("(").unwrap();
    assert_eq!(result.map(|m| span(&m)), Some((0, 1)));
    let unreached = reg(&mut ids, "[", false, false, false);
    let a = lit(&mut ids, "a");
    let g = gram(&mut ids, None, vec![("A", a), ("Never", unreached)]);
    assert!(!g.is_well_formed());
    assert!(g.parse_text("a").is_none());
}

#[test]
fn patterns_are_told_by_whether_they_compile() {
    let mut ids = IdentifierCounter::new();
    let pattern = Regex::new(OpaqueIdentifier::new(&mut ids), "[0-9]+", false, false, false);
    assert!(pattern.compiles());
    let pattern = Regex::new(OpaqueIdentifier::new(&mut ids), "", true, true, true);
    assert!(pattern.compiles());
    let pattern = Regex::new(OpaqueIdentifier::new(&mut ids), "(", false, false, false);
    assert!(!pattern.compiles());
    let pattern = Regex::new(OpaqueIdentifier::new(&mut ids), "a{2,1}", false, false, false);
    assert!(!pattern.compiles());
    let pattern = Regex::new(OpaqueIdentifier::new(&mut ids), "\\p{Nope}", false, true, false);
    assert!(!pattern.compiles());
}

#[test]
fn regex_spans_follow_the_bytes_of_the_text() {
    let mut ids = IdentifierCounter::new();
    let word = reg(&mut ids, "\\p{Greek}+", false, false, false);
    assert_eq!(run(&word, "Greek: αβγδ", 7), Some((7, 15)));
    let mut context = ParserContext::new("Greek: αβγδ");
    let found = word.parse(&mut context, 7).unwrap();
    assert_eq!(found.get_text("Greek: αβγδ"), "αβγδ");
}

#[test]
fn probe_outcomes_become_matches() {
    let found = Regex::match_from_probe(2, RegexProbe::Found { start: 0, end: 3 }).unwrap();
    assert_eq!(span(&found), (2, 5));
    assert_eq!(label(&found), None);
    assert!(found.children().is_empty());
    let empty = Regex::match_from_probe(4, RegexProbe::Found { start: 0, end: 0 }).unwrap();
    assert_eq!(span(&empty), (4, 4));
    assert!(Regex::match_from_probe(2, RegexProbe::Found { start: 1, end: 3 }).is_none());
    assert!(Regex::match_from_probe(2, RegexProbe::NoMatch).is_none());
    assert!(Regex::match_from_probe(2, RegexProbe::BadPattern).is_none());
}

#[test]
fn rule_reference_carries_the_rule_name() {
    let mut ids = IdentifierCounter::new();
    let body = lit(&mut ids, "x");
    let reference = rul(&mut ids, "Inner");
    let labelled = lbl(&mut ids, reference, "Outer");
    let g = gram(&mut ids, Some("Top"), vec![("Inner", body), ("Top", labelled)]);
    let mut context = ParserContext::new("x");
    let found = g.parse(&mut context, 0).unwrap();
    assert_eq!(label(&found), Some("Top"));
    assert_eq!(span(&found), (0, 1));
}

#[test]
fn grammar_starts_with_the_named_rule_or_the_first() {
    let mut ids = IdentifierCounter::new();
    let a = lit(&mut ids, "a");
    let b = lit(&mut ids, "b");
    let named = gram(&mut ids, Some("B"), vec![("A", a.clone()), ("B", b.clone())]);
    assert_eq!(run(&named, "b", 0), Some((0, 1)));
    assert_eq!(run(&named, "a", 0), None);
    let mut ids = IdentifierCounter::new();
    let a = lit(&mut ids, "a");
    let b = lit(&mut ids, "b");
    let missing = gram(&mut ids, Some("C"), vec![("A", a), ("B", b)]);
    let mut context = ParserContext::new("a");
    let found = missing.parse(&mut context, 0).unwrap();
    assert_eq!(label(&found), Some("A"));
}

#[test]
fn inner_grammar_resolves_its_own_rules() {
    let mut ids = IdentifierCounter::new();
    let inner_x = lit(&mut ids, "i");
    let inner_ref = rul(&mut ids, "X");
    let inner = gram(&mut ids, None, vec![("Start", inner_ref), ("X", inner_x)]);
    let outer_x = lit(&mut ids, "o");
    let outer_ref = rul(&mut ids, "X");
    let both = seq(&mut ids, vec![outer_ref.clone(), inner, outer_ref]);
    let outer = gram(&mut ids, None, vec![("Top", both), ("X", outer_x)]);
    let mut context = ParserContext::new("oio");
    let found = outer.parse(&mut context, 0).unwrap();
    assert_eq!(span(&found), (0, 3));
    assert_eq!(label(&found), Some("Top"));
    assert_eq!(label(&found.children()[0]), Some("X"));
    assert_eq!(label(&found.children()[1]), Some("Start"));
    assert_eq!(span(&found.children()[1]), (1, 2));
    assert_eq!(label(&found.children()[2]), Some("X"));
    assert_eq!(run(&outer, "ooo", 0), None);
}

#[test]
fn shared_subtree_is_evaluated_once_per_position() {
    let mut ids = IdentifierCounter::new();
    let a = lit(&mut ids, "a");
    let b = lit(&mut ids, "b");
    let c = lit(&mut ids, "c");
    let first = seq(&mut ids, vec![a.clone(), b]);
    let second = seq(&mut ids, vec![a.clone(), c]);
    let op = alt(&mut ids, vec![first, second]);
    let mut context = ParserContext::new("ac");
    let found = op.parse(&mut context, 0).unwrap();
    assert_eq!(span(&found), (0, 2));
    let shared = context.get_memory(0, a.get_id()).unwrap().unwrap();
    let through_second = &found.children()[0].children()[0];
    assert!(Rc::ptr_eq(&shared, through_second));
}

#[test]
fn left_recursion_is_cut_short() {
    let mut ids = IdentifierCounter::new();
    let again = rul(&mut ids, "A");
    let x = lit(&mut ids, "x");
    let y = lit(&mut ids, "y");
    let recursive = seq(&mut ids, vec![again, x]);
    let body = alt(&mut ids, vec![recursive, y]);
    let g = gram(&mut ids, None, vec![("A", body)]);
    let mut context = ParserContext::new("yx");
    let found = g.parse(&mut context, 0).unwrap();
    assert_eq!(label(&found), Some("A"));
    assert_eq!(span(&found), (0, 1));
    assert!(context.has_reentered());
}

#[test]
fn right_recursion_runs_to_the_end() {
    let mut ids = IdentifierCounter::new();
    let a = lit(&mut ids, "a");
    let again = rul(&mut ids, "L");
    let more = seq(&mut ids, vec![a, again]);
    let end = lit(&mut ids, ".");
    let body = alt(&mut ids, vec![more, end]);
    let g = gram(&mut ids, None, vec![("L", body)]);
    let mut context = ParserContext::new("aaa.");
    let found = g.parse(&mut context, 0).unwrap();
    assert_eq!(span(&found), (0, 4));
    assert!(!context.has_reentered());
    assert_eq!(run(&g, "aaa", 0), None);
}

#[test]
fn operators_built_by_value() {
    let mut ids = IdentifierCounter::new();
    let prog = ParserOperator::sequence(
        OpaqueIdentifier::new(&mut ids),
        vec![
            ParserOperator::literal(OpaqueIdentifier::new(&mut ids), "( "),
            ParserOperator::rule_reference(OpaqueIdentifier::new(&mut ids), "Quant"),
        ],
    );
    let quant = ParserOperator::quantity(
        OpaqueIdentifier::new(&mut ids),
        ParserOperator::rule_reference(OpaqueIdentifier::new(&mut ids), "Wurd"),
        0,
        Some(5),
    );
    let wurd = ParserOperator::sequence(
        OpaqueIdentifier::new(&mut ids),
        vec![
            ParserOperator::rule_reference(OpaqueIdentifier::new(&mut ids), "Atom"),
            ParserOperator::rule_reference(OpaqueIdentifier::new(&mut ids), "Btom"),
        ],
    );
    let atom = ParserOperator::literal(OpaqueIdentifier::new(&mut ids), "a");
    let btom = ParserOperator::literal(OpaqueIdentifier::new(&mut ids), "b");
    let gram = ParserOperator::grammar(
        OpaqueIdentifier::new(&mut ids),
        None,
        vec![("Prog", prog), ("Quant", quant), ("Wurd", wurd), ("Atom", atom), ("Btom", btom)],
    );
    let mut context = ParserContext::new("( ");
    let found = gram.parse(&mut context, 0).unwrap();
    assert_eq!(label(&found), Some("Prog"));
    assert_eq!(span(&found), (0, 2));
    let mut context = ParserContext::new("( abab");
    let found = gram.parse(&mut context, 0).unwrap();
    assert_eq!(span(&found), (0, 6));
    assert_eq!(found.children()[1].children().len(), 2);
    assert_eq!(span(&found.children()[1].children()[0]), (2, 4));
    assert_eq!(span(&found.children()[1].children()[1]), (4, 6));
}

#[test]
fn more_operators_built_by_value() {
    let mut ids = IdentifierCounter::new();
    let lit_a = ParserOperator::literal(OpaqueIdentifier::new(&mut ids), "a");
    let lit_b = ParserOperator::literal(OpaqueIdentifier::new(&mut ids), "a()");
    let reg = ParserOperator::regex(OpaqueIdentifier::new(&mut ids), "^[0-9]", false, false, false);
    let lab = ParserOperator::label(OpaqueIdentifier::new(&mut ids), lit_a, "ATOM A");
    let alt = ParserOperator::alternation(OpaqueIdentifier::new(&mut ids), vec![lit_b, lab, reg]);
    let look = ParserOperator::lookahead(
        OpaqueIdentifier::new(&mut ids),
        alt,
        ParserOperator::literal(OpaqueIdentifier::new(&mut ids), "!"),
        true,
    );
    let id = look.get_id();
    assert_eq!(id, 5);
    let mut context = ParserContext::new("a!");
    let found = look.parse(&mut context, 0).unwrap();
    assert_eq!(span(&found), (0, 1));
    assert_eq!(label(&found.children()[0]), Some("ATOM A"));
    let mut context = ParserContext::new("7!");
    assert_eq!(look.parse(&mut context, 0).map(|m| span(&m)), Some((0, 1)));
    let mut context = ParserContext::new("7?");
    assert!(look.parse(&mut context, 0).is_none());
}

#[test]
fn parser_trait_parses_like_the_operator() {
    let mut ids = IdentifierCounter::new();
    let op = lit(&mut ids, "ab");
    let mut context = ParserContext::new("ab");
    let found = Parser::parse(&*op, &mut context, 0).unwrap();
    assert_eq!(span(&found), (0, 2));
    assert_eq!(Parser::get_id(&*op), op.get_id());
}

#[test]
fn well_formed_roots_are_told_apart() {
    let mut ids = IdentifierCounter::new();
    let a = lit(&mut ids, "a");
    assert!(a.is_well_formed());
    let dangling = rul(&mut ids, "Nowhere");
    assert!(!dangling.is_well_formed());
    let x = lit(&mut ids, "x");
    let known = rul(&mut ids, "X");
    let unknown = rul(&mut ids, "Y");
    let good = gram(&mut ids, None, vec![("Top", known.clone()), ("X", x.clone())]);
    assert!(good.is_well_formed());
    let bad = gram(&mut ids, None, vec![("Top", unknown), ("X", x.clone())]);
    assert!(!bad.is_well_formed());
    let empty = gram(&mut ids, None, vec![]);
    assert!(!empty.is_well_formed());
    let shared_twice = seq(&mut ids, vec![a.clone(), a.clone()]);
    assert!(shared_twice.is_well_formed());
    let mut other = IdentifierCounter::new();
    let clash = lit(&mut other, "b");
    let clashing = seq(&mut ids, vec![a.clone(), clash]);
    assert!(!clashing.is_well_formed());
    let mut again = IdentifierCounter::new();
    let twin = lit(&mut again, "a");
    let twins = seq(&mut ids, vec![a, twin]);
    assert!(twins.is_well_formed());
    let under_two = seq(&mut ids, vec![good, known]);
    assert!(!under_two.is_well_formed());
}

#[test]
fn nodes_are_compared_by_what_they_stand_for() {
    let mut ids = IdentifierCounter::new();
    let a = lit(&mut ids, "a");
    let b = lit(&mut ids, "a");
    assert!(a.same_as(&a));
    assert!(!a.same_as(&b));
    let mut left = IdentifierCounter::new();
    let mut right = IdentifierCounter::new();
    let one = {
        let x = lit(&mut left, "x");
        let r = reg(&mut left, "[0-9]", false, true, false);
        let q = qtt(&mut left, r, 1, None);
        let l = lbl(&mut left, q, "Q");
        let s = seq(&mut left, vec![x, l]);
        gram(&mut left, Some("S"), vec![("S", s)])
    };
    let two = {
        let x = lit(&mut right, "x");
        let r = reg(&mut right, "[0-9]", false, true, false);
        let q = qtt(&mut right, r, 1, None);
        let l = lbl(&mut right, q, "Q");
        let s = seq(&mut right, vec![x, l]);
        gram(&mut right, Some("S"), vec![("S", s)])
    };
    assert!(one.same_as(&two));
    let mut third = IdentifierCounter::new();
    let three = {
        let x = lit(&mut third, "x");
        let r = reg(&mut third, "[0-9]", false, false, false);
        let q = qtt(&mut third, r, 1, None);
        let l = lbl(&mut third, q, "Q");
        let s = seq(&mut third, vec![x, l]);
        gram(&mut third, Some("S"), vec![("S", s)])
    };
    assert!(!one.same_as(&three));
}

#[test]
fn parse_text_checks_the_root_first() {
    let mut ids = IdentifierCounter::new();
    let dangling = rul(&mut ids, "Nowhere");
    assert!(dangling.parse_text("x").is_none());
    let a = lit(&mut ids, "a");
    let op = qtt(&mut ids, a, 1, None);
    let (result, context) = op.parse_text("aab").unwrap();
    let found = result.unwrap();
    assert_eq!(span(&found), (0, 2));
    assert!(!context.has_reentered());
    let remembered = context.get_memory(0, op.get_id()).unwrap().unwrap();
    assert!(Rc::ptr_eq(&found, &remembered));
    let (result, _) = op.parse_text("b").unwrap();
    assert!(result.is_none());
}

#[test]
fn getters_hand_back_what_was_given() {
    let mut ids = IdentifierCounter::new();
    let literal = Literal::new(OpaqueIdentifier::new(&mut ids), "abc");
    assert_eq!(literal.literal_text(), "abc");
    assert_eq!(literal.get_id(), 0);
    let plain = Regex::new(OpaqueIdentifier::new(&mut ids), "[0-9]", true, false, true);
    assert_eq!(plain.pattern(), "^[0-9]");
    assert!(plain.multi_line());
    assert!(!plain.case_insensitive());
    assert!(plain.dot_matches_new_line());
    let anchored = Regex::new(OpaqueIdentifier::new(&mut ids), "^x", false, true, false);
    assert_eq!(anchored.pattern(), "^x");
    assert!(anchored.case_insensitive());
    let empty = Regex::new(OpaqueIdentifier::new(&mut ids), "", false, false, false);
    assert_eq!(empty.pattern(), "^");
    let reference = RuleReference::new(OpaqueIdentifier::new(&mut ids), "Rule");
    assert_eq!(reference.rule_name(), "Rule");
    let child = lit(&mut ids, "c");
    let q = Quantity::new(OpaqueIdentifier::new(&mut ids), child.clone(), 2, None);
    assert_eq!(q.minimum_occurrences(), 2);
    assert_eq!(q.maximum_occurrences(), usize::MAX);
    assert!(Rc::ptr_eq(q.child(), &child));
    let q = Quantity::new(OpaqueIdentifier::new(&mut ids), child.clone(), 0, Some(1));
    assert_eq!(q.maximum_occurrences(), 1);
    let l = Label::new(OpaqueIdentifier::new(&mut ids), child.clone(), "L");
    assert_eq!(l.label(), "L");
    assert!(Rc::ptr_eq(l.child(), &child));
    let scout = lit(&mut ids, "s");
    let look = Lookahead::new(OpaqueIdentifier::new(&mut ids), child.clone(), scout.clone(), false);
    assert!(Rc::ptr_eq(look.child(), &child));
    assert!(Rc::ptr_eq(look.scout(), &scout));
    assert!(!look.accept_match());
    let s = Sequence::new(OpaqueIdentifier::new(&mut ids), vec![child.clone(), scout.clone()]);
    assert_eq!(s.children().len(), 2);
    let a = Alternation::new(OpaqueIdentifier::new(&mut ids), vec![child.clone()]);
    assert_eq!(a.children().len(), 1);
    let g = Grammar::new(OpaqueIdentifier::new(&mut ids), Some("S"), vec![("S", child)]);
    assert_eq!(g.parser_rule_set().rule_set.len(), 1);
    assert_eq!(g.parser_rule_set().starting_rule_name.as_deref(), Some("S"));
}

#[test]
fn node_shared_by_two_grammars_is_in_order_without_a_rule_reference() {
    let mut ids = IdentifierCounter::new();
    let shared = lit(&mut ids, "s");
    let pair = seq(&mut ids, vec![shared.clone(), shared.clone()]);
    let inner = gram(&mut ids, None, vec![("I", pair.clone())]);
    let both = seq(&mut ids, vec![inner, pair]);
    let outer = gram(&mut ids, None, vec![("O", both)]);
    assert!(outer.is_well_formed());
    let (result, _) = outer.parse_text("ssss").unwrap();
    let found = result.unwrap();
    assert_eq!(span(&found), (0, 4));
    assert_eq!(label(&found.children()[0]), Some("I"));
    assert_eq!(span(&found.children()[1]), (2, 4));
    let mut ids = IdentifierCounter::new();
    let x = lit(&mut ids, "x");
    let y = lit(&mut ids, "y");
    let reference = rul(&mut ids, "X");
    let inner = gram(&mut ids, None, vec![("T", reference.clone()), ("X", y)]);
    let both = seq(&mut ids, vec![inner, reference]);
    let outer = gram(&mut ids, None, vec![("S", both), ("X", x)]);
    assert!(!outer.is_well_formed());
}
