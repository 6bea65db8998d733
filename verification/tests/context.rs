use npeg_rs::text::bytes_occur_at;
use npeg_rs::text::rest_of;
use npeg_rs::text::str_equal;
use npeg_rs::text::substring;
use npeg_rs::Grammar;
use npeg_rs::IdentifierCounter;
use npeg_rs::Literal;
use npeg_rs::OpaqueIdentifier;
use npeg_rs::ParserContext;
use npeg_rs::ParserMatch;
use npeg_rs::ParserOperator;
use npeg_rs::ParserRuleSet;
use std::rc::Rc;

fn lit(ids: &mut IdentifierCounter, text: &str) -> Rc<ParserOperator> {
    Rc::new(ParserOperator::Literal(Literal::new(OpaqueIdentifier::new(ids), text)))
}

fn rule_set(start: Option<&str>) -> (Rc<ParserRuleSet>, usize, usize) {
    let mut ids = IdentifierCounter::new();
    let a = lit(&mut ids, "a");
    let b = lit(&mut ids, "b");
    let ids_of = (a.get_id(), b.get_id());
    let set = ParserRuleSet {
        rule_set: vec![(Rc::new("A".to_string()), a), (Rc::new("B".to_string()), b)],
        starting_rule_name: start.map(|s| s.to_string()),
    };
    (Rc::new(set), ids_of.0, ids_of.1)
}

#[test]
fn context_hands_back_its_text() {
    let context = ParserContext::new("some text");
    assert_eq!(context.get_full_text(), "some text");
    assert!(!context.has_reentered());
}

#[test]
fn memory_has_three_states() {
    let mut context = ParserContext::new("0123");
    assert!(context.get_memory(1, 7).is_none());
    let stored = context.set_memory(1, 7, None);
    assert!(stored.is_none());
    assert!(context.get_memory(1, 7).unwrap().is_none());
    let m = ParserMatch::new(2, 3, None, Rc::new(vec![]));
    let stored = context.set_memory(2, 7, Some(m.clone())).unwrap();
    assert!(Rc::ptr_eq(&stored, &m));
    let remembered = context.get_memory(2, 7).unwrap().unwrap();
    assert!(Rc::ptr_eq(&remembered, &m));
    assert!(context.get_memory(2, 8).is_none());
    assert!(context.get_memory(7, 2).is_none());
}

#[test]
fn rules_are_found_in_the_topmost_rule_set() {
    let (first, a, b) = rule_set(None);
    let mut context = ParserContext::new("");
    assert!(context.get_rule("A").is_none());
    assert!(context.get_starting_rule().is_none());
    context.push_rule_set(first);
    let (name, op) = context.get_rule("B").unwrap();
    assert_eq!(name.as_str(), "B");
    assert_eq!(op.get_id(), b);
    assert!(context.get_rule("C").is_none());
    let (name, op) = context.get_starting_rule().unwrap();
    assert_eq!(name.as_str(), "A");
    assert_eq!(op.get_id(), a);
    let mut ids = IdentifierCounter::new();
    let _ = OpaqueIdentifier::new(&mut ids);
    let _ = OpaqueIdentifier::new(&mut ids);
    let c = lit(&mut ids, "c");
    let c_id = c.get_id();
    let second = Rc::new(ParserRuleSet {
        rule_set: vec![(Rc::new("C".to_string()), c)],
        starting_rule_name: None,
    });
    context.push_rule_set(second);
    assert!(context.get_rule("A").is_none());
    assert_eq!(context.get_rule("C").unwrap().1.get_id(), c_id);
    context.pop_rule_set();
    assert_eq!(context.get_rule("A").unwrap().1.get_id(), a);
    context.pop_rule_set();
    assert!(context.get_rule("A").is_none());
    context.pop_rule_set();
    assert!(context.get_rule("A").is_none());
}

#[test]
fn starting_rule_is_the_named_one_where_it_exists() {
    let (named, _, b) = rule_set(Some("B"));
    assert_eq!(named.get_starting_rule().unwrap().1.get_id(), b);
    let (missing, a, _) = rule_set(Some("Z"));
    assert_eq!(missing.get_starting_rule().unwrap().1.get_id(), a);
    let (plain, a, _) = rule_set(None);
    assert_eq!(plain.get_starting_rule().unwrap().1.get_id(), a);
    assert!(plain.get_rule_by_name("a").is_none());
    assert_eq!(plain.get_rule_by_name("A").unwrap().0.as_str(), "A");
    let empty = ParserRuleSet { rule_set: vec![], starting_rule_name: None };
    assert!(empty.get_starting_rule().is_none());
    assert!(empty.get_rule_by_name("A").is_none());
}

#[test]
fn grammar_finds_its_rules() {
    let mut ids = IdentifierCounter::new();
    let a = lit(&mut ids, "a");
    let b = lit(&mut ids, "b");
    let b_id = b.get_id();
    let a_id = a.get_id();
    let g = Grammar::new(OpaqueIdentifier::new(&mut ids), None, vec![("A", a), ("B", b)]);
    assert_eq!(g.get_id(), 2);
    let (name, op) = g.get_rule_by_name("B").unwrap();
    assert_eq!(name.as_str(), "B");
    assert_eq!(op.get_id(), b_id);
    assert!(g.get_rule_by_name("b").is_none());
    assert_eq!(g.get_starting_rule().unwrap().1.get_id(), a_id);
}

#[test]
fn bytes_are_found_where_they_stand() {
    assert!(bytes_occur_at(b"hello", 0, b"he"));
    assert!(bytes_occur_at(b"hello", 3, b"lo"));
    assert!(bytes_occur_at(b"hello", 5, b""));
    assert!(bytes_occur_at(b"hello", 0, b"hello"));
    assert!(!bytes_occur_at(b"hello", 4, b"lo"));
    assert!(!bytes_occur_at(b"hello", 0, b"hellos"));
    assert!(!bytes_occur_at(b"hello", 6, b""));
    assert!(!bytes_occur_at(b"hello", 1, b"he"));
    assert!(!bytes_occur_at(b"hello", usize::MAX, b"he"));
}

#[test]
fn texts_are_compared_by_their_characters() {
    assert!(str_equal("", ""));
    assert!(str_equal("Wurd", "Wurd"));
    assert!(!str_equal("Wurd", "wurd"));
    assert!(!str_equal("Wurd", "Wur"));
    assert!(!str_equal("Wur", "Wurd"));
    assert!(str_equal("✔️", "✔️"));
}

#[test]
fn substrings_go_by_byte_offsets() {
    assert_eq!(substring("0123456789", 2, 5), "234");
    assert_eq!(substring("0123456789", 0, 10), "0123456789");
    assert_eq!(substring("0123456789", 4, 4), "");
    assert_eq!(substring("0✔1", 1, 4), "✔");
}

#[test]
fn rest_goes_from_a_byte_offset_to_the_end() {
    assert_eq!(rest_of("0123456789", 0), "0123456789");
    assert_eq!(rest_of("0123456789", 7), "789");
    assert_eq!(rest_of("0123456789", 10), "");
    assert_eq!(rest_of("0✔1", 4), "1");
}
