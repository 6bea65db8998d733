pub mod evaluation;
pub mod laws;
pub mod model;
pub mod opaque_identifier;
pub mod ops;
pub mod parser;
pub mod parser_context;
pub mod parser_match;
pub mod table;
pub mod text;
pub mod validate;

pub use opaque_identifier::IdentifierCounter;
pub use opaque_identifier::OpaqueIdentifier;
pub use ops::Alternation;
pub use ops::Grammar;
pub use ops::Label;
pub use ops::Literal;
pub use ops::Lookahead;
pub use ops::ParserOperator;
pub use ops::ParserRuleSet;
pub use ops::Quantity;
pub use ops::Regex;
pub use ops::regex::RegexProbe;
pub use ops::RuleReference;
pub use ops::Sequence;
pub use parser::Parser;
pub use parser_context::ParserContext;
pub use parser_match::ParserMatch;
