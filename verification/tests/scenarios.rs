use npeg_rs::Alternation;
use npeg_rs::Grammar;
use npeg_rs::IdentifierCounter;
use npeg_rs::Literal;
use npeg_rs::OpaqueIdentifier;
use npeg_rs::ParserContext;
use npeg_rs::ParserMatch;
use npeg_rs::ParserOperator;
use npeg_rs::Quantity;
use npeg_rs::RuleReference;
use npeg_rs::Sequence;
use std::rc::Rc;

fn lit(ids: &mut IdentifierCounter, text: &str) -> Rc<ParserOperator> {
    Rc::new(ParserOperator::Literal(Literal::new(OpaqueIdentifier::new(ids), text)))
}

fn rul(ids: &mut IdentifierCounter, name: &str) -> Rc<ParserOperator> {
    Rc::new(ParserOperator::RuleReference(RuleReference::new(OpaqueIdentifier::new(ids), name)))
}

fn seq(ids: &mut IdentifierCounter, children: Vec<Rc<ParserOperator>>) -> Rc<ParserOperator> {
    Rc::new(ParserOperator::Sequence(Sequence::new(OpaqueIdentifier::new(ids), children)))
}

fn alt(ids: &mut IdentifierCounter, children: Vec<Rc<ParserOperator>>) -> Rc<ParserOperator> {
    Rc::new(ParserOperator::Alternation(Alternation::new(OpaqueIdentifier::new(ids), children)))
}

fn qtt(
    ids: &mut IdentifierCounter,
    child: Rc<ParserOperator>,
    min: usize,
    max: Option<usize>,
) -> Rc<ParserOperator> {
    Rc::new(ParserOperator::Quantity(Quantity::new(OpaqueIdentifier::new(ids), child, min, max)))
}

fn prog_grammar() -> Rc<ParserOperator> {
    let mut ids = IdentifierCounter::new();
    let open = lit(&mut ids, "(");
    let quant_ref = rul(&mut ids, "Quant");
    let prog = seq(&mut ids, vec![open, quant_ref]);
    let wurd_ref = rul(&mut ids, "Wurd");
    let quant = qtt(&mut ids, wurd_ref, 0, Some(5));
    let atom_ref = rul(&mut ids, "Atom");
    let btom_ref = rul(&mut ids, "Btom");
    let wurd = seq(&mut ids, vec![atom_ref, btom_ref]);
    let atom = lit(&mut ids, "a");
    let btom = lit(&mut ids, "b");
    Rc::new(ParserOperator::Grammar(Grammar::new(
        OpaqueIdentifier::new(&mut ids),
        None,
        vec![("Prog", prog), ("Quant", quant), ("Wurd", wurd), ("Atom", atom), ("Btom", btom)],
    )))
}

fn label_of(m: &ParserMatch) -> Option<&str> {
    m.label().map(|l| l.as_str())
}

fn span_of(m: &ParserMatch) -> (usize, usize) {
    (m.start_position(), m.end_position())
}

fn parse_prog(text: &str) -> Option<Rc<ParserMatch>> {
    let gram = prog_grammar();
    let mut context = ParserContext::new(text);
    gram.parse(&mut context, 0)
}

#[test]
fn test_grammar() {
    let gram = prog_grammar();

    let test_string = "( ";

    let mut context = Box::new(ParserContext::new(test_string));
    let result = gram.parse(&mut context, 0);
    println!("{:?}", result);
    let found = result.unwrap();
    assert_eq!(label_of(&found), Some("Prog"));
    assert_eq!(span_of(&found), (0, 1));
}

#[test]
fn prog_on_open_paren_alone() {
    let found = parse_prog("(").unwrap();
    assert_eq!(label_of(&found), Some("Prog"));
    assert_eq!(span_of(&found), (0, 1));
    assert_eq!(found.children().len(), 2);
    let open = &found.children()[0];
    assert_eq!(span_of(open), (0, 1));
    assert_eq!(label_of(open), None);
    assert!(open.children().is_empty());
    let quant = &found.children()[1];
    assert_eq!(label_of(quant), Some("Quant"));
    assert_eq!(span_of(quant), (1, 1));
    assert!(quant.children().is_empty());
}

#[test]
fn prog_on_one_wurd() {
    let found = parse_prog("(ab").unwrap();
    assert_eq!(label_of(&found), Some("Prog"));
    assert_eq!(span_of(&found), (0, 3));
    let quant = &found.children()[1];
    assert_eq!(label_of(quant), Some("Quant"));
    assert_eq!(span_of(quant), (1, 3));
    assert_eq!(quant.children().len(), 1);
    let wurd = &quant.children()[0];
    assert_eq!(label_of(wurd), Some("Wurd"));
    assert_eq!(span_of(wurd), (1, 3));
    assert_eq!(wurd.children().len(), 2);
    assert_eq!(label_of(&wurd.children()[0]), Some("Atom"));
    assert_eq!(span_of(&wurd.children()[0]), (1, 2));
    assert_eq!(label_of(&wurd.children()[1]), Some("Btom"));
    assert_eq!(span_of(&wurd.children()[1]), (2, 3));
    assert_eq!(found.get_text("(ab"), "(ab");
    assert_eq!(wurd.get_text("(ab"), "ab");
}

#[test]
fn prog_on_three_wurds() {
    let found = parse_prog("(ababab").unwrap();
    assert_eq!(label_of(&found), Some("Prog"));
    assert_eq!(span_of(&found), (0, 7));
    let quant = &found.children()[1];
    assert_eq!(quant.children().len(), 3);
    assert_eq!(span_of(&quant.children()[0]), (1, 3));
    assert_eq!(span_of(&quant.children()[1]), (3, 5));
    assert_eq!(span_of(&quant.children()[2]), (5, 7));
    for wurd in quant.children().iter() {
        assert_eq!(label_of(wurd), Some("Wurd"));
    }
}

#[test]
fn prog_stops_at_the_maximum() {
    let found = parse_prog("(abababababababab").unwrap();
    assert_eq!(span_of(&found), (0, 11));
    assert_eq!(found.children()[1].children().len(), 5);
}

#[test]
fn prog_on_one_wurd_then_a_run_of_a() {
    let found = parse_prog("(abaaaaaaaaaab").unwrap();
    assert_eq!(label_of(&found), Some("Prog"));
    assert_eq!(span_of(&found), (0, 3));
    let quant = &found.children()[1];
    assert_eq!(quant.children().len(), 1);
    assert_eq!(span_of(&quant.children()[0]), (1, 3));
}

#[test]
fn prog_on_a_run_of_a_before_b() {
    // The first `a` is followed by `a`, so no `Wurd` starts at offset 1.
    let found = parse_prog("(aaaaaaaaaaab").unwrap();
    assert_eq!(label_of(&found), Some("Prog"));
    assert_eq!(span_of(&found), (0, 1));
    let quant = &found.children()[1];
    assert_eq!(span_of(quant), (1, 1));
    assert!(quant.children().is_empty());
}

#[test]
fn prog_on_empty_text() {
    assert!(parse_prog("").is_none());
}

#[test]
fn prog_needs_the_open_paren_first() {
    assert!(parse_prog("ab").is_none());
    assert!(parse_prog(" (").is_none());
}

fn choice_grammar() -> Rc<ParserOperator> {
    let mut ids = IdentifierCounter::new();
    let a = lit(&mut ids, "a");
    let b = lit(&mut ids, "b");
    let choice = alt(&mut ids, vec![a, b]);
    Rc::new(ParserOperator::Grammar(Grammar::new(
        OpaqueIdentifier::new(&mut ids),
        None,
        vec![("R", choice)],
    )))
}

#[test]
fn choice_takes_the_second_alternative() {
    let gram = choice_grammar();
    let mut context = ParserContext::new("b");
    let found = gram.parse(&mut context, 0).unwrap();
    assert_eq!(label_of(&found), Some("R"));
    assert_eq!(span_of(&found), (0, 1));
    assert_eq!(found.children().len(), 1);
    let only = &found.children()[0];
    assert_eq!(span_of(only), (0, 1));
    assert_eq!(label_of(only), None);
    assert_eq!(only.get_text("b"), "b");
}

#[test]
fn choice_fails_where_no_alternative_matches() {
    let gram = choice_grammar();
    let mut context = ParserContext::new("c");
    assert!(gram.parse(&mut context, 0).is_none());
}

#[test]
fn parsing_again_hands_back_the_same_match() {
    let gram = prog_grammar();
    let mut context = ParserContext::new("(abab");
    let first = gram.parse(&mut context, 0).unwrap();
    let second = gram.parse(&mut context, 0).unwrap();
    assert!(Rc::ptr_eq(&first, &second));
    let remembered = context.get_memory(0, gram.get_id()).unwrap().unwrap();
    assert!(Rc::ptr_eq(&first, &remembered));
    assert!(!context.has_reentered());
}

#[test]
fn failures_are_remembered_too() {
    let gram = prog_grammar();
    let mut context = ParserContext::new("x");
    assert!(context.get_memory(0, gram.get_id()).is_none());
    assert!(gram.parse(&mut context, 0).is_none());
    assert!(context.get_memory(0, gram.get_id()).unwrap().is_none());
    assert!(gram.parse(&mut context, 0).is_none());
}

fn check_spans(m: &ParserMatch, len: usize) {
    assert!(m.start_position() <= m.end_position());
    assert!(m.end_position() <= len);
    for child in m.children().iter() {
        assert!(m.start_position() <= child.start_position());
        assert!(child.end_position() <= m.end_position());
        check_spans(child, len);
    }
}

#[test]
fn every_span_lies_inside_the_text() {
    for text in ["(", "(ab", "(ababab", "(abababababababab", "(abx", "( ab"] {
        let found = parse_prog(text).unwrap();
        check_spans(&found, text.len());
    }
}

#[test]
fn children_of_a_sequence_lie_end_to_end() {
    let text = "(ababab";
    let found = parse_prog(text).unwrap();
    assert_eq!(found.children().len(), 2);
    assert_eq!(found.children()[0].start_position(), found.start_position());
    assert_eq!(found.children()[0].end_position(), found.children()[1].start_position());
    assert_eq!(found.children()[1].end_position(), found.end_position());
    let quant = &found.children()[1];
    let mut cursor = quant.start_position();
    for wurd in quant.children().iter() {
        assert_eq!(wurd.start_position(), cursor);
        cursor = wurd.end_position();
    }
    assert_eq!(cursor, quant.end_position());
    let joined: String = quant.children().iter().map(|w| w.get_text(text)).collect();
    assert_eq!(joined, quant.get_text(text));
}
