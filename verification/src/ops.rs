pub mod alternation;
pub mod grammar;
pub mod label;
pub mod literal;
pub mod lookahead;
pub mod parser_operator;
pub mod parser_rule_set;
pub mod quantity;
pub mod regex;
pub mod rule_reference;
pub mod sequence;

pub use alternation::Alternation;
pub use grammar::Grammar;
pub use label::Label;
pub use literal::Literal;
pub use lookahead::Lookahead;
pub use parser_operator::ParserOperator;
pub use parser_rule_set::ParserRuleSet;
pub use quantity::Quantity;
pub use regex::Regex;
pub use rule_reference::RuleReference;
pub use sequence::Sequence;
