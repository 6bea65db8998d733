use crate::ops::regex::compiles;
use crate::ops::regex::regex_search;
use crate::ops::regex::RegexProbe;
use crate::text::occurs_at;
use crate::text::on_boundary;
use crate::text::text_from;
use vstd::prelude::*;
use vstd::utf8::encode_utf8;

verus! {

/// A parse-tree node as a mathematical value: a half-open byte span, an
/// optional label, and the ordered sub-trees.
pub struct MatchTree {
    pub start: usize,
    pub end: usize,
    pub label: Option<Seq<char>>,
    pub children: Seq<MatchTree>,
}

impl MatchTree {
    /// A node without label or children.
    pub open spec fn leaf(start: usize, end: usize) -> MatchTree {
        MatchTree { start, end, label: None, children: Seq::empty() }
    }

    /// The same node under another label.
    pub open spec fn relabel(self, label: Seq<char>) -> MatchTree {
        MatchTree { start: self.start, end: self.end, label: Some(label), children: self.children }
    }

    /// True when the span of this node and of every node below it is in
    /// order and lies inside a text of `len` bytes.
    pub open spec fn within(self, len: int) -> bool
        decreases self,
    {
        &&& self.start <= self.end <= len
        &&& forall|i: int|
            0 <= i < self.children.len() ==> (#[trigger] self.children[i]).within(len)
    }
}

/// A parser expression as a mathematical value. Every node carries the
/// identifier under which its results are remembered.
pub enum Expr {
    Literal { id: usize, text: Seq<u8> },
    Regex {
        id: usize,
        pattern: Seq<char>,
        multi_line: bool,
        case_insensitive: bool,
        dot_matches_new_line: bool,
    },
    Sequence { id: usize, children: Seq<Expr> },
    Alternation { id: usize, children: Seq<Expr> },
    Quantity { id: usize, child: Box<Expr>, min: usize, max: usize },
    Lookahead { id: usize, child: Box<Expr>, scout: Box<Expr>, accept_match: bool },
    Label { id: usize, child: Box<Expr>, label: Seq<char> },
    RuleReference { id: usize, rule_name: Seq<char> },
    Grammar { id: usize, rules: RuleTable },
}

/// The rule table of a grammar: rules in declaration order and the name of
/// the starting rule, if one was given.
pub struct RuleTable {
    pub rules: Seq<(Seq<char>, Expr)>,
    pub start: Option<Seq<char>>,
}

/// The rule table against which rule references resolve, if any is active.
pub type Scope = Option<RuleTable>;

impl Expr {
    pub open spec fn id(self) -> usize {
        match self {
            Expr::Literal { id, .. } => id,
            Expr::Regex { id, .. } => id,
            Expr::Sequence { id, .. } => id,
            Expr::Alternation { id, .. } => id,
            Expr::Quantity { id, .. } => id,
            Expr::Lookahead { id, .. } => id,
            Expr::Label { id, .. } => id,
            Expr::RuleReference { id, .. } => id,
            Expr::Grammar { id, .. } => id,
        }
    }
}

/// The index of the first rule from `from` on that is named `name`.
pub open spec fn first_named(rules: Seq<(Seq<char>, Expr)>, name: Seq<char>, from: int) -> Option<
    int,
>
    decreases rules.len() - from,
{
    if from < 0 || from >= rules.len() {
        None
    } else if rules[from].0 == name {
        Some(from)
    } else {
        first_named(rules, name, from + 1)
    }
}

impl RuleTable {
    /// The index of the rule that a reference to `name` resolves to.
    pub open spec fn index_of(self, name: Seq<char>) -> Option<int> {
        first_named(self.rules, name, 0)
    }

    /// The index of the first rule, if there is any rule.
    pub open spec fn first(self) -> Option<int> {
        if self.rules.len() > 0 {
            Some(0)
        } else {
            None
        }
    }

    /// The index of the starting rule: the rule named as the start where
    /// that name is in the table, else the first rule.
    pub open spec fn starting(self) -> Option<int> {
        match self.start {
            Some(name) => match self.index_of(name) {
                Some(i) => Some(i),
                None => self.first(),
            },
            None => self.first(),
        }
    }

    /// True when no two rules share a name.
    pub open spec fn names_distinct(self) -> bool {
        forall|i: int, j: int|
            0 <= i < j < self.rules.len() ==> (#[trigger] self.rules[i]).0 != (
            #[trigger] self.rules[j]).0
    }
}

/// `occurs(e, s0, n, s)`: where `e` is evaluated with `s0` as the active
/// rule table, the node `n` is `e` itself or stands below it, and is
/// evaluated with `s` as the active rule table.
pub open spec fn occurs(e: Expr, s0: Scope, n: Expr, s: Scope) -> bool
    decreases e,
{
    ||| (e == n && s0 == s)
    ||| match e {
        Expr::Sequence { children, .. } => exists|i: int|
            0 <= i < children.len() && occurs(#[trigger] children[i], s0, n, s),
        Expr::Alternation { children, .. } => exists|i: int|
            0 <= i < children.len() && occurs(#[trigger] children[i], s0, n, s),
        Expr::Quantity { child, .. } => occurs(*child, s0, n, s),
        Expr::Label { child, .. } => occurs(*child, s0, n, s),
        Expr::Lookahead { child, scout, .. } => occurs(*child, s0, n, s) || occurs(
            *scout,
            s0,
            n,
            s,
        ),
        Expr::Grammar { rules, .. } => exists|i: int|
            0 <= i < rules.rules.len() && occurs((#[trigger] rules.rules[i]).1, Some(rules), n, s),
        _ => false,
    }
}

/// True when node `n` itself, evaluated under `s`, has what it needs: a
/// rule reference its rule in the active rule table, a grammar a rule to
/// start with, a regular expression a pattern that compiles.
pub open spec fn operable(n: Expr, s: Scope) -> bool {
    match n {
        Expr::RuleReference { rule_name, .. } => s matches Some(table) && table.index_of(
            rule_name,
        ) is Some,
        Expr::Grammar { rules, .. } => rules.rules.len() > 0,
        Expr::Regex { pattern, multi_line, case_insensitive, dot_matches_new_line, .. } => compiles(
            pattern,
            multi_line,
            case_insensitive,
            dot_matches_new_line,
        ),
        _ => true,
    }
}

/// What a root expression must satisfy to be evaluated.
///
/// Every node below the root has what it needs: each rule reference
/// resolves, each grammar has a rule to start with, each pattern compiles.
/// This is asked of every node that occurs, also in a rule that no parse
/// of a given text reaches.
///
/// And an identifier stands for one node. Where that node is a rule
/// reference, it stands under one rule table only: the memo table keeps
/// one result per identifier and position, and the result of a rule
/// reference depends on the rule table. A node that is shared by two
/// grammars is in order as long as no rule reference is shared with it.
pub open spec fn well_formed(root: Expr) -> bool {
    &&& forall|n: Expr, s: Scope| #[trigger] occurs(root, None, n, s) ==> operable(n, s)
    &&& forall|n1: Expr, s1: Scope, n2: Expr, s2: Scope|
        #[trigger] occurs(root, None, n1, s1) && #[trigger] occurs(root, None, n2, s2) && n1.id()
            == n2.id() ==> n1 == n2 && (n1 is RuleReference ==> s1 == s2)
}

/// What the memo table holds under one key.
pub enum Slot {
    /// The evaluation under this key has begun and has not ended.
    Pending,
    /// The evaluation under this key has ended, with this result.
    Done(Option<MatchTree>),
}

/// The memo table: from (byte offset, operator identifier) to a slot.
pub type Table = Map<(usize, usize), Slot>;

/// True when the table records that operator `id` matched `m` at `at`.
pub open spec fn matched(t: Table, at: usize, id: usize, m: MatchTree) -> bool {
    t.contains_key((at, id)) && t[(at, id)] == Slot::Done(Some(m))
}

/// True when the table records that operator `id` matched at `at`.
pub open spec fn matched_any(t: Table, at: usize, id: usize) -> bool {
    t.contains_key((at, id)) && t[(at, id)] matches Slot::Done(Some(_))
}

/// True when the table records that operator `id` did not match at `at`.
pub open spec fn failed(t: Table, at: usize, id: usize) -> bool {
    t.contains_key((at, id)) && t[(at, id)] == Slot::Done(None)
}

/// True when `u` holds every entry of `t` unchanged.
pub open spec fn grows_to(t: Table, u: Table) -> bool {
    forall|k: (usize, usize)| #[trigger] t.contains_key(k) ==> u.contains_key(k) && u[k] == t[k]
}

/// True when `u` holds every result of `t` unchanged. A slot that is
/// pending in `t` may hold anything in `u`.
pub open spec fn settles_to(t: Table, u: Table) -> bool {
    forall|k: (usize, usize)|
        #[trigger] t.contains_key(k) && t[k] is Done ==> u.contains_key(k) && u[k] == t[k]
}

/// Where the `i`-th of a run of matches starts: at `start`, or where the
/// one before it ends.
pub open spec fn cursor_at(start: usize, run: Seq<MatchTree>, i: int) -> usize {
    if i <= 0 {
        start
    } else {
        run[i - 1].end
    }
}

/// True when `run[i]` is the recorded match of `children[i]`, each tried
/// where the one before it ended, the first at `start`.
pub open spec fn chained(t: Table, children: Seq<Expr>, start: usize, run: Seq<MatchTree>) -> bool {
    &&& run.len() <= children.len()
    &&& forall|i: int|
        0 <= i < run.len() ==> matched(
            t,
            #[trigger] cursor_at(start, run, i),
            children[i].id(),
            run[i],
        )
}

/// True when `run` holds recorded matches of operator `id`, each tried where
/// the one before it ended, the first at `start`.
pub open spec fn repeated(t: Table, id: usize, start: usize, run: Seq<MatchTree>) -> bool {
    forall|i: int|
        0 <= i < run.len() ==> matched(t, #[trigger] cursor_at(start, run, i), id, run[i])
}

/// True when every match of `run` but the last covers at least one byte.
pub open spec fn advancing(run: Seq<MatchTree>) -> bool {
    forall|i: int| 0 <= i < run.len() - 1 ==> (#[trigger] run[i]).start < run[i].end
}

/// The result of a literal at `at`.
pub open spec fn literal_result(input: Seq<char>, at: usize, text: Seq<u8>) -> Option<MatchTree> {
    if occurs_at(encode_utf8(input), at as int, text) {
        Some(MatchTree::leaf(at, (at + text.len()) as usize))
    } else {
        None
    }
}

/// The result of a regular expression at `at`, given what the search of the
/// text from `at` on came to: a match counts only where it starts at `at`.
/// A pattern below a well-formed root compiles, so that the search of it
/// comes to a match or to none.
pub open spec fn regex_result(at: usize, probe: RegexProbe) -> Option<MatchTree> {
    match probe {
        RegexProbe::Found { start, end } => if start == 0 {
            Some(MatchTree::leaf(at, (at + end) as usize))
        } else {
            None
        },
        _ => None,
    }
}

/// True when `r` is the recorded result of operator `child` at `at`, put
/// under the label `label` where it is a match.
pub open spec fn relabelled(
    t: Table,
    at: usize,
    child: usize,
    label: Seq<char>,
    r: Option<MatchTree>,
    strict: bool,
) -> bool {
    match r {
        Some(m) => t.contains_key((at, child)) && (t[(at, child)] matches Slot::Done(Some(inner))
            && m == inner.relabel(label)),
        None => strict ==> failed(t, at, child),
    }
}

/// True when `r` is what a sequence of `children` gives at `at`.
pub open spec fn sequence_justified(
    t: Table,
    children: Seq<Expr>,
    at: usize,
    r: Option<MatchTree>,
    strict: bool,
) -> bool {
    match r {
        Some(m) => {
            &&& m.label is None
            &&& m.start == at
            &&& m.children.len() == children.len()
            &&& chained(t, children, at, m.children)
            &&& m.end == cursor_at(at, m.children, m.children.len() as int)
        },
        None => strict ==> exists|run: Seq<MatchTree>|
            {
                &&& run.len() < children.len()
                &&& #[trigger] chained(t, children, at, run)
                &&& failed(t, cursor_at(at, run, run.len() as int), children[run.len() as int].id())
            },
    }
}

/// True when `r` is what an ordered choice among `children` gives at `at`.
pub open spec fn alternation_justified(
    t: Table,
    children: Seq<Expr>,
    at: usize,
    r: Option<MatchTree>,
    strict: bool,
) -> bool {
    match r {
        Some(m) => {
            &&& m.label is None
            &&& m.start == at
            &&& m.children.len() == 1
            &&& m.end == m.children[0].end
            &&& exists|k: int|
                {
                    &&& 0 <= k < children.len()
                    &&& matched(t, at, (#[trigger] children[k]).id(), m.children[0])
                    &&& strict ==> forall|j: int|
                        0 <= j < k ==> failed(t, at, (#[trigger] children[j]).id())
                }
        },
        None => strict ==> forall|j: int|
            0 <= j < children.len() ==> failed(t, at, (#[trigger] children[j]).id()),
    }
}

/// True when a quantity that has collected `run` from `start` on has a
/// reason to stop: the maximum is reached, the last match covered no byte,
/// or the child does not match where the run ends.
pub open spec fn run_ended(
    t: Table,
    child: usize,
    max: usize,
    start: usize,
    run: Seq<MatchTree>,
) -> bool {
    ||| run.len() == max
    ||| (run.len() > 0 && run.last().start == run.last().end)
    ||| failed(t, cursor_at(start, run, run.len() as int), child)
}

/// True when `r` is what a quantity over `child` gives at `at`.
pub open spec fn quantity_justified(
    t: Table,
    child: usize,
    min: usize,
    max: usize,
    at: usize,
    r: Option<MatchTree>,
    strict: bool,
) -> bool {
    match r {
        Some(m) => {
            &&& m.label is None
            &&& m.start == at
            &&& min <= m.children.len() <= max
            &&& repeated(t, child, at, m.children)
            &&& advancing(m.children)
            &&& m.end == cursor_at(at, m.children, m.children.len() as int)
            &&& strict ==> run_ended(t, child, max, at, m.children)
        },
        None => strict ==> exists|run: Seq<MatchTree>|
            {
                &&& run.len() < min
                &&& #[trigger] repeated(t, child, at, run)
                &&& advancing(run)
                &&& run_ended(t, child, max, at, run)
            },
    }
}

/// True when `r` is what a lookahead gives at `at`.
pub open spec fn lookahead_justified(
    t: Table,
    child: usize,
    scout: usize,
    accept_match: bool,
    at: usize,
    r: Option<MatchTree>,
    strict: bool,
) -> bool {
    match r {
        Some(m) => {
            &&& matched(t, at, child, m)
            &&& if accept_match {
                matched_any(t, m.end, scout)
            } else {
                strict ==> failed(t, m.end, scout)
            }
        },
        None => strict ==> {
            ||| failed(t, at, child)
            ||| (t.contains_key((at, child)) && (t[(at, child)] matches Slot::Done(Some(inner))
                && if accept_match {
                failed(t, inner.end, scout)
            } else {
                matched_any(t, inner.end, scout)
            }))
        },
    }
}

/// True when `r` is the result that the rules of its operator give to node
/// `n` at byte offset `at` of `input`, with `s` as the active rule table,
/// from the results that `t` records for the nodes below `n`.
///
/// A match is always accounted for in full. With `strict`, so is every
/// failure that the result rests on; without it, a failure may also stand
/// for an evaluation that was cut short because it came back to a key
/// whose evaluation had not ended.
pub open spec fn justified(
    n: Expr,
    s: Scope,
    input: Seq<char>,
    t: Table,
    at: usize,
    r: Option<MatchTree>,
    strict: bool,
) -> bool {
    match n {
        Expr::Literal { text, .. } => r == literal_result(input, at, text),
        Expr::Regex { pattern, multi_line, case_insensitive, dot_matches_new_line, .. } => r
            == regex_result(
            at,
            regex_search(
                pattern,
                multi_line,
                case_insensitive,
                dot_matches_new_line,
                text_from(input, at as int),
            ),
        ),
        Expr::Sequence { children, .. } => sequence_justified(t, children, at, r, strict),
        Expr::Alternation { children, .. } => alternation_justified(t, children, at, r, strict),
        Expr::Quantity { child, min, max, .. } => quantity_justified(
            t,
            child.id(),
            min,
            max,
            at,
            r,
            strict,
        ),
        Expr::Lookahead { child, scout, accept_match, .. } => lookahead_justified(
            t,
            child.id(),
            scout.id(),
            accept_match,
            at,
            r,
            strict,
        ),
        Expr::Label { child, label, .. } => relabelled(t, at, child.id(), label, r, strict),
        Expr::RuleReference { rule_name, .. } => {
            &&& s matches Some(table)
            &&& table.index_of(rule_name) matches Some(i)
            &&& relabelled(t, at, table.rules[i].1.id(), rule_name, r, strict)
        },
        Expr::Grammar { rules, .. } => {
            &&& rules.starting() matches Some(i)
            &&& relabelled(t, at, rules.rules[i].1.id(), rules.rules[i].0, r, strict)
        },
    }
}

/// True when a slot under the key `k` fits a text `input`: a recorded match
/// starts at the key's offset, lies inside the text with everything below
/// it, and ends on a character boundary.
pub open spec fn slot_sound(input: Seq<char>, k: (usize, usize), slot: Slot) -> bool {
    &&& k.0 <= encode_utf8(input).len()
    &&& slot matches Slot::Done(Some(m)) ==> {
        &&& m.start == k.0
        &&& m.within(encode_utf8(input).len() as int)
        &&& on_boundary(input, m.end as int)
    }
}

/// True when the table is a faithful record of evaluating nodes of `root`
/// over `input`: every slot is sound, and every result recorded for a node
/// of `root` is justified by the results recorded for the nodes below it.
pub open spec fn faithful(root: Expr, input: Seq<char>, t: Table, strict: bool) -> bool {
    &&& forall|k: (usize, usize)| #[trigger] t.contains_key(k) ==> slot_sound(input, k, t[k])
    &&& forall|n: Expr, s: Scope, at: usize|
        #![trigger occurs(root, None, n, s), t.contains_key((at, n.id()))]
        occurs(root, None, n, s) && t.contains_key((at, n.id())) ==> (t[(at, n.id())] matches
        Slot::Done(r) ==> justified(n, s, input, t, at, r, strict))
}

} // verus!
