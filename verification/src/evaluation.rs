use crate::model::Expr;
use crate::model::literal_result;
use crate::model::MatchTree;
use crate::model::regex_result;
use crate::model::Scope;
use crate::model::Slot;
use crate::model::Table;
use crate::ops::regex::regex_search;
use crate::text::text_from;
use vstd::prelude::*;

verus! {

/// What an evaluation comes to: the memo table it leaves, whether an
/// evaluation has come back to a key whose evaluation had not ended, and
/// the result.
pub struct Outcome {
    pub table: Table,
    pub reentered: bool,
    pub result: Option<MatchTree>,
}

/// The outcome with its match, if any, put under a label.
pub open spec fn labelled(outcome: Option<Outcome>, label: Seq<char>) -> Option<Outcome> {
    match outcome {
        Some(o) => Some(
            Outcome {
                table: o.table,
                reentered: o.reentered,
                result: match o.result {
                    Some(m) => Some(m.relabel(label)),
                    None => None,
                },
            },
        ),
        None => None,
    }
}

/// The parse of node `n` at byte offset `at` of `input`, with `s` as the
/// active rule table, from the memo table `t` on.
///
/// A result that the table holds is the result. A key whose evaluation has
/// not ended gives no match, and is noted. Else the node is evaluated with
/// its key marked, and the result put in the table.
///
/// `depth` bounds how many evaluations may be under way inside one
/// another; there is no outcome where it does not suffice, or where a rule
/// reference finds no rule.
pub open spec fn parse_of(
    n: Expr,
    s: Scope,
    input: Seq<char>,
    t: Table,
    reentered: bool,
    at: usize,
    depth: nat,
) -> Option<Outcome>
    decreases depth, 0nat, 0nat,
{
    let key = (at, n.id());
    if t.contains_key(key) {
        match t[key] {
            Slot::Done(result) => Some(Outcome { table: t, reentered, result }),
            Slot::Pending => Some(Outcome { table: t, reentered: true, result: None }),
        }
    } else if depth == 0 {
        None
    } else {
        match evaluation_of(
            n,
            s,
            input,
            t.insert(key, Slot::Pending),
            reentered,
            at,
            (depth - 1) as nat,
        ) {
            Some(o) => Some(
                Outcome {
                    table: o.table.insert(key, Slot::Done(o.result)),
                    reentered: o.reentered,
                    result: o.result,
                },
            ),
            None => None,
        }
    }
}

/// The evaluation of node `n` at byte offset `at`, past the memo table.
pub open spec fn evaluation_of(
    n: Expr,
    s: Scope,
    input: Seq<char>,
    t: Table,
    reentered: bool,
    at: usize,
    depth: nat,
) -> Option<Outcome>
    decreases depth, 2nat, 0nat,
{
    match n {
        Expr::Literal { text, .. } => Some(
            Outcome { table: t, reentered, result: literal_result(input, at, text) },
        ),
        Expr::Regex { pattern, multi_line, case_insensitive, dot_matches_new_line, .. } => Some(
            Outcome {
                table: t,
                reentered,
                result: regex_result(
                    at,
                    regex_search(
                        pattern,
                        multi_line,
                        case_insensitive,
                        dot_matches_new_line,
                        text_from(input, at as int),
                    ),
                ),
            },
        ),
        Expr::Sequence { children, .. } => sequence_from(
            children,
            s,
            input,
            t,
            reentered,
            at,
            Seq::empty(),
            at,
            depth,
        ),
        Expr::Alternation { children, .. } => alternation_from(
            children,
            s,
            input,
            t,
            reentered,
            at,
            0,
            depth,
        ),
        Expr::Quantity { child, min, max, .. } => quantity_from(
            *child,
            min,
            max,
            s,
            input,
            t,
            reentered,
            at,
            Seq::empty(),
            at,
            depth,
        ),
        Expr::Lookahead { child, scout, accept_match, .. } => match parse_of(
            *child,
            s,
            input,
            t,
            reentered,
            at,
            depth,
        ) {
            Some(first) => {
                let behind = match first.result {
                    Some(m) => m.end,
                    None => at,
                };
                match parse_of(*scout, s, input, first.table, first.reentered, behind, depth) {
                    Some(second) => Some(
                        Outcome {
                            table: second.table,
                            reentered: second.reentered,
                            result: if accept_match == (second.result is Some) {
                                first.result
                            } else {
                                None
                            },
                        },
                    ),
                    None => None,
                }
            },
            None => None,
        },
        Expr::Label { child, label, .. } => labelled(
            parse_of(*child, s, input, t, reentered, at, depth),
            label,
        ),
        Expr::RuleReference { rule_name, .. } => match s {
            Some(table) => match table.index_of(rule_name) {
                Some(i) => labelled(
                    parse_of(table.rules[i].1, s, input, t, reentered, at, depth),
                    rule_name,
                ),
                None => None,
            },
            None => None,
        },
        Expr::Grammar { rules, .. } => match rules.starting() {
            Some(i) => labelled(
                parse_of(rules.rules[i].1, Some(rules), input, t, reentered, at, depth),
                rules.rules[i].0,
            ),
            None => None,
        },
    }
}

/// The evaluation of a sequence that has collected `run` from its first
/// children and goes on at `cursor` with the child behind them.
pub open spec fn sequence_from(
    children: Seq<Expr>,
    s: Scope,
    input: Seq<char>,
    t: Table,
    reentered: bool,
    at: usize,
    run: Seq<MatchTree>,
    cursor: usize,
    depth: nat,
) -> Option<Outcome>
    decreases depth, 1nat, children.len() - run.len(),
{
    if run.len() >= children.len() {
        Some(
            Outcome {
                table: t,
                reentered,
                result: Some(MatchTree { start: at, end: cursor, label: None, children: run }),
            },
        )
    } else {
        match parse_of(children[run.len() as int], s, input, t, reentered, cursor, depth) {
            Some(o) => match o.result {
                Some(m) => sequence_from(
                    children,
                    s,
                    input,
                    o.table,
                    o.reentered,
                    at,
                    run.push(m),
                    m.end,
                    depth,
                ),
                None => Some(o),
            },
            None => None,
        }
    }
}

/// The evaluation of an ordered choice whose first `tried` children have
/// failed.
pub open spec fn alternation_from(
    children: Seq<Expr>,
    s: Scope,
    input: Seq<char>,
    t: Table,
    reentered: bool,
    at: usize,
    tried: int,
    depth: nat,
) -> Option<Outcome>
    decreases depth, 1nat, children.len() - tried,
{
    if tried < 0 || tried >= children.len() {
        Some(Outcome { table: t, reentered, result: None })
    } else {
        match parse_of(children[tried], s, input, t, reentered, at, depth) {
            Some(o) => match o.result {
                Some(m) => Some(
                    Outcome {
                        table: o.table,
                        reentered: o.reentered,
                        result: Some(
                            MatchTree { start: at, end: m.end, label: None, children: seq![m] },
                        ),
                    },
                ),
                None => alternation_from(
                    children,
                    s,
                    input,
                    o.table,
                    o.reentered,
                    at,
                    tried + 1,
                    depth,
                ),
            },
            None => None,
        }
    }
}

/// What a quantity gives once it has stopped with `run`.
pub open spec fn quantity_result(
    min: usize,
    at: usize,
    run: Seq<MatchTree>,
    cursor: usize,
) -> Option<MatchTree> {
    if run.len() < min {
        None
    } else {
        Some(MatchTree { start: at, end: cursor, label: None, children: run })
    }
}

/// The evaluation of a quantity that has collected `run` and goes on at
/// `cursor`.
pub open spec fn quantity_from(
    child: Expr,
    min: usize,
    max: usize,
    s: Scope,
    input: Seq<char>,
    t: Table,
    reentered: bool,
    at: usize,
    run: Seq<MatchTree>,
    cursor: usize,
    depth: nat,
) -> Option<Outcome>
    decreases depth, 1nat, max - run.len(),
{
    if run.len() >= max {
        Some(Outcome { table: t, reentered, result: quantity_result(min, at, run, cursor) })
    } else {
        match parse_of(child, s, input, t, reentered, cursor, depth) {
            Some(o) => match o.result {
                Some(m) => if m.start < m.end {
                    quantity_from(
                        child,
                        min,
                        max,
                        s,
                        input,
                        o.table,
                        o.reentered,
                        at,
                        run.push(m),
                        m.end,
                        depth,
                    )
                } else {
                    Some(
                        Outcome {
                            table: o.table,
                            reentered: o.reentered,
                            result: quantity_result(min, at, run.push(m), m.end),
                        },
                    )
                },
                None => Some(
                    Outcome {
                        table: o.table,
                        reentered: o.reentered,
                        result: quantity_result(min, at, run, cursor),
                    },
                ),
            },
            None => None,
        }
    }
}

} // verus!
