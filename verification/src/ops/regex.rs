use crate::model::Expr;
use crate::model::regex_result;
use crate::opaque_identifier::OpaqueIdentifier;
use crate::parser_context::evaluated;
use crate::parser_context::ready;
use crate::parser_context::ParserContext;
use crate::parser_context::tree_of;
use crate::parser_match::ParserMatch;
use crate::parser_match::trees_of;
use crate::text::lemma_boundary_in_suffix;
use crate::text::rest_of;
use std::rc::Rc;
use vstd::prelude::*;
use vstd::string::StringExecFns;
use vstd::string::StringSliceAdditionalSpecFns;
use vstd::string::StrSliceExecFns;
use vstd::utf8::is_char_boundary;

verus! {

/// What a search of a text for a pattern comes to.
#[derive(Debug, Clone, Copy, PartialEq, Eq, Structural)]
pub enum RegexProbe {
    /// The pattern did not compile.
    BadPattern,
    /// The pattern matches nowhere in the text.
    NoMatch,
    /// The leftmost match of the pattern, by its byte offsets in the text.
    Found { start: usize, end: usize },
}

/// What the search for `pattern`, under its three flags, comes to on
/// `haystack`.
pub uninterp spec fn regex_search(
    pattern: Seq<char>,
    multi_line: bool,
    case_insensitive: bool,
    dot_matches_new_line: bool,
    haystack: Seq<char>,
) -> RegexProbe;

/// True when `pattern` compiles under its three flags: when a search for it
/// does not end before it has begun.
pub open spec fn compiles(
    pattern: Seq<char>,
    multi_line: bool,
    case_insensitive: bool,
    dot_matches_new_line: bool,
) -> bool {
    !(regex_search(pattern, multi_line, case_insensitive, dot_matches_new_line, Seq::empty())
        is BadPattern)
}

/// Compiles `pattern` with `regex::RegexBuilder` under the three flags and
/// searches `haystack` with `regex::Regex::find`.
///
/// Taken on trust: the outcome is a function of these arguments; whether
/// the pattern compiles does not depend on `haystack`; and the byte offsets
/// of a match are in order, lie inside `haystack` and fall on character
/// boundaries of it.
#[verifier::external_body]
pub(crate) fn search_regex(
    pattern: &str,
    multi_line: bool,
    case_insensitive: bool,
    dot_matches_new_line: bool,
    haystack: &str,
) -> (probe: RegexProbe)
    ensures
        probe == regex_search(
            pattern@,
            multi_line,
            case_insensitive,
            dot_matches_new_line,
            haystack@,
        ),
        probe is BadPattern <==> !compiles(
            pattern@,
            multi_line,
            case_insensitive,
            dot_matches_new_line,
        ),
        probe matches RegexProbe::Found { start, end } ==> {
            &&& start <= end <= haystack.spec_bytes().len()
            &&& is_char_boundary(haystack.spec_bytes(), start as int)
            &&& is_char_boundary(haystack.spec_bytes(), end as int)
        },
{
    let built = ::regex::RegexBuilder::new(pattern)
        .multi_line(multi_line)
        .case_insensitive(case_insensitive)
        .dot_matches_new_line(dot_matches_new_line)
        .build();
    match built {
        Ok(compiled) => match compiled.find(haystack) {
            Some(found) => RegexProbe::Found { start: found.start(), end: found.end() },
            None => RegexProbe::NoMatch,
        },
        Err(_) => RegexProbe::BadPattern,
    }
}

/// Matches a regular expression anchored at the current position.
#[derive(Debug)]
pub struct Regex {
    id: OpaqueIdentifier,
    pattern: String,
    multi_line: bool,
    case_insensitive: bool,
    dot_matches_new_line: bool,
}

impl View for Regex {
    type V = Expr;

    closed spec fn view(&self) -> Expr {
        Expr::Regex {
            id: self.id@,
            pattern: self.pattern@,
            multi_line: self.multi_line,
            case_insensitive: self.case_insensitive,
            dot_matches_new_line: self.dot_matches_new_line,
        }
    }
}

/// The pattern as it is searched for: with `^` in front, unless it starts
/// with `^` as it is.
pub open spec fn anchored(pattern: Seq<char>) -> Seq<char> {
    if pattern.len() > 0 && pattern[0] == '^' {
        pattern
    } else {
        seq!['^'] + pattern
    }
}

impl Regex {
    pub fn new(
        id: OpaqueIdentifier,
        pattern: &str,
        multi_line: bool,
        case_insensitive: bool,
        dot_matches_new_line: bool,
    ) -> (regex: Self)
        ensures
            regex@ == (Expr::Regex {
                id: id@,
                pattern: anchored(pattern@),
                multi_line,
                case_insensitive,
                dot_matches_new_line,
            }),
    {
        let is_anchored = !pattern.is_empty() && pattern.get_char(0) == '^';
        let pattern = if is_anchored {
            pattern.to_owned()
        } else {
            proof {
                reveal_strlit("^");
            }
            let anchor = "^".to_owned();
            assert(anchor@ =~= seq!['^']);
            anchor.concat(pattern)
        };
        Regex { id, pattern, multi_line, case_insensitive, dot_matches_new_line }
    }

    /// The pattern that is searched for.
    pub fn pattern(&self) -> (pattern: &str)
        ensures
            self@ is Regex,
            self@->pattern == pattern@,
    {
        self.pattern.as_str()
    }

    /// Whether `^` and `$` match at the start and end of each line.
    pub fn multi_line(&self) -> (flag: bool)
        ensures
            self@ is Regex,
            self@->multi_line == flag,
    {
        self.multi_line
    }

    /// Whether letters match without regard to case.
    pub fn case_insensitive(&self) -> (flag: bool)
        ensures
            self@ is Regex,
            self@->case_insensitive == flag,
    {
        self.case_insensitive
    }

    /// Whether `.` matches a line break too.
    pub fn dot_matches_new_line(&self) -> (flag: bool)
        ensures
            self@ is Regex,
            self@->dot_matches_new_line == flag,
    {
        self.dot_matches_new_line
    }

    pub fn get_id(&self) -> (id: usize)
        ensures
            id == self@.id(),
            self@ is Regex,
    {
        self.id.id()
    }

    /// Tells whether the pattern of this operator compiles.
    pub fn compiles(&self) -> (ok: bool)
        ensures
            self@ is Regex,
            ok == compiles(
                self@->pattern,
                self@->multi_line,
                self@->case_insensitive,
                self@->dot_matches_new_line,
            ),
    {
        let probe = search_regex(
            self.pattern.as_str(),
            self.multi_line,
            self.case_insensitive,
            self.dot_matches_new_line,
            "",
        );
        match probe {
            RegexProbe::BadPattern => false,
            _ => true,
        }
    }

    /// The match that a search of the text from `start_position` on comes
    /// to: the span of what was found, where something was found right at
    /// `start_position`; else none.
    pub fn match_from_probe(start_position: usize, probe: RegexProbe) -> (result: Option<
        Rc<ParserMatch>,
    >)
        requires
            probe matches RegexProbe::Found { start, end } ==> start_position + end <= usize::MAX,
        ensures
            tree_of(result) == regex_result(start_position, probe),
    {
        match probe {
            RegexProbe::Found { start, end } => {
                if start == 0 {
                    let children: Vec<Rc<ParserMatch>> = Vec::new();
                    assert(trees_of(children@) =~= Seq::empty());
                    Some(
                        ParserMatch::new(
                            start_position,
                            start_position + end,
                            None,
                            Rc::new(children),
                        ),
                    )
                } else {
                    None
                }
            },
            _ => None,
        }
    }

    /// Matches where the pattern matches the text from `start_position`
    /// on, beginning right there.
    pub fn parse_internal(&self, context: &mut ParserContext, start_position: usize) -> (result:
        Option<Rc<ParserMatch>>)
        requires
            ready(old(context), self@, start_position),
        ensures
            evaluated(old(context), final(context), self@, start_position, result),
    {
        context.bind(Ghost(self@));
        let text = context.get_full_text();
        let text_len = text.as_bytes().len();
        let probe = search_regex(
            self.pattern.as_str(),
            self.multi_line,
            self.case_insensitive,
            self.dot_matches_new_line,
            rest_of(text, start_position),
        );
        proof {
            context.lemma_vacancies();
            vstd::utf8::encode_utf8_valid_utf8(context.text());
            if let RegexProbe::Found { start, end } = probe {
                lemma_boundary_in_suffix(text.spec_bytes(), start_position as int, end as int);
            }
        }
        Regex::match_from_probe(start_position, probe)
    }
}

} // verus!
