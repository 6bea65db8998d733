use crate::model::advancing;
use crate::model::chained;
use crate::model::cursor_at;
use crate::model::Expr;
use crate::model::failed;
use crate::model::faithful;
use crate::model::first_named;
use crate::model::justified;
use crate::model::matched;
use crate::model::MatchTree;
use crate::model::occurs;
use crate::model::repeated;
use crate::model::RuleTable;
use crate::model::run_ended;
use crate::model::Scope;
use crate::model::settles_to;
use crate::model::Slot;
use crate::model::slot_sound;
use crate::model::Table;
use crate::model::well_formed;
use vstd::prelude::*;

verus! {

/// The index that a search by name comes to lies in the table, at or behind
/// the index the search began at, and the rule there has that name.
pub proof fn lemma_first_named_in_range(
    rules: Seq<(Seq<char>, Expr)>,
    name: Seq<char>,
    from: int,
)
    requires
        0 <= from,
    ensures
        first_named(rules, name, from) matches Some(i) ==> from <= i < rules.len()
            && rules[i].0 == name,
    decreases rules.len() - from,
{
    if from < rules.len() && rules[from].0 != name {
        lemma_first_named_in_range(rules, name, from + 1);
    }
}

/// What occurs below a node that occurs below `e` occurs below `e`.
pub proof fn lemma_occurs_trans(e: Expr, s0: Scope, n: Expr, s: Scope, n2: Expr, s2: Scope)
    requires
        occurs(e, s0, n, s),
        occurs(n, s, n2, s2),
    ensures
        occurs(e, s0, n2, s2),
    decreases e,
{
    if e == n && s0 == s {
    } else {
        match e {
            Expr::Sequence { children, .. } => {
                let i = choose|i: int|
                    0 <= i < children.len() && occurs(#[trigger] children[i], s0, n, s);
                lemma_occurs_trans(children[i], s0, n, s, n2, s2);
            },
            Expr::Alternation { children, .. } => {
                let i = choose|i: int|
                    0 <= i < children.len() && occurs(#[trigger] children[i], s0, n, s);
                lemma_occurs_trans(children[i], s0, n, s, n2, s2);
            },
            Expr::Quantity { child, .. } => {
                lemma_occurs_trans(*child, s0, n, s, n2, s2);
            },
            Expr::Label { child, .. } => {
                lemma_occurs_trans(*child, s0, n, s, n2, s2);
            },
            Expr::Lookahead { child, scout, .. } => {
                if occurs(*child, s0, n, s) {
                    lemma_occurs_trans(*child, s0, n, s, n2, s2);
                } else {
                    lemma_occurs_trans(*scout, s0, n, s, n2, s2);
                }
            },
            Expr::Grammar { rules, .. } => {
                let i = choose|i: int|
                    0 <= i < rules.rules.len() && occurs(
                        (#[trigger] rules.rules[i]).1,
                        Some(rules),
                        n,
                        s,
                    );
                lemma_occurs_trans(rules.rules[i].1, Some(rules), n, s, n2, s2);
            },
            _ => {},
        }
    }
}

/// A rule table is active below `e` only where it was active at `e`
/// already, or where a grammar below `e` brought it; and then each of its
/// rules occurs below `e` under it.
pub proof fn lemma_rules_in_scope(e: Expr, s0: Scope, n: Expr, table: RuleTable, j: int)
    requires
        occurs(e, s0, n, Some(table)),
        0 <= j < table.rules.len(),
    ensures
        s0 == Some(table) || occurs(e, s0, table.rules[j].1, Some(table)),
    decreases e,
{
    let s = Some(table);
    if e == n && s0 == s {
    } else {
        match e {
            Expr::Sequence { children, .. } => {
                let i = choose|i: int|
                    0 <= i < children.len() && occurs(#[trigger] children[i], s0, n, s);
                lemma_rules_in_scope(children[i], s0, n, table, j);
            },
            Expr::Alternation { children, .. } => {
                let i = choose|i: int|
                    0 <= i < children.len() && occurs(#[trigger] children[i], s0, n, s);
                lemma_rules_in_scope(children[i], s0, n, table, j);
            },
            Expr::Quantity { child, .. } => {
                lemma_rules_in_scope(*child, s0, n, table, j);
            },
            Expr::Label { child, .. } => {
                lemma_rules_in_scope(*child, s0, n, table, j);
            },
            Expr::Lookahead { child, scout, .. } => {
                if occurs(*child, s0, n, s) {
                    lemma_rules_in_scope(*child, s0, n, table, j);
                } else {
                    lemma_rules_in_scope(*scout, s0, n, table, j);
                }
            },
            Expr::Grammar { rules, .. } => {
                let i = choose|i: int|
                    0 <= i < rules.rules.len() && occurs(
                        (#[trigger] rules.rules[i]).1,
                        Some(rules),
                        n,
                        s,
                    );
                lemma_rules_in_scope(rules.rules[i].1, Some(rules), n, table, j);
                if Some(rules) == s {
                    let rule = rules.rules[j];
                    assert(occurs(rule.1, Some(rules), table.rules[j].1, s));
                }
            },
            _ => {},
        }
    }
}

/// A chain of recorded matches grows by the recorded match of the next
/// child, tried where the chain ends.
pub proof fn lemma_chained_extend(
    t: Table,
    u: Table,
    children: Seq<Expr>,
    start: usize,
    run: Seq<MatchTree>,
    m: MatchTree,
)
    requires
        chained(t, children, start, run),
        settles_to(t, u),
        run.len() < children.len(),
        matched(u, cursor_at(start, run, run.len() as int), children[run.len() as int].id(), m),
    ensures
        chained(u, children, start, run.push(m)),
{
    let longer = run.push(m);
    assert forall|i: int| 0 <= i < longer.len() implies matched(
        u,
        #[trigger] cursor_at(start, longer, i),
        children[i].id(),
        longer[i],
    ) by {
        assert(cursor_at(start, longer, i) == cursor_at(start, run, i));
    }
}

/// A run of recorded matches of one operator grows by its recorded match
/// where the run ends.
pub proof fn lemma_repeated_extend(
    t: Table,
    u: Table,
    id: usize,
    start: usize,
    run: Seq<MatchTree>,
    m: MatchTree,
)
    requires
        repeated(t, id, start, run),
        settles_to(t, u),
        matched(u, cursor_at(start, run, run.len() as int), id, m),
    ensures
        repeated(u, id, start, run.push(m)),
{
    let longer = run.push(m);
    assert forall|i: int| 0 <= i < longer.len() implies matched(
        u,
        #[trigger] cursor_at(start, longer, i),
        id,
        longer[i],
    ) by {
        assert(cursor_at(start, longer, i) == cursor_at(start, run, i));
    }
}

/// A chain of recorded matches is one in every table that holds the same
/// results.
pub proof fn lemma_chained_settles(
    t: Table,
    u: Table,
    children: Seq<Expr>,
    start: usize,
    run: Seq<MatchTree>,
)
    requires
        chained(t, children, start, run),
        settles_to(t, u),
    ensures
        chained(u, children, start, run),
{
}

/// A run of recorded matches of one operator is one in every table that
/// holds the same results.
pub proof fn lemma_repeated_settles(
    t: Table,
    u: Table,
    id: usize,
    start: usize,
    run: Seq<MatchTree>,
)
    requires
        repeated(t, id, start, run),
        settles_to(t, u),
    ensures
        repeated(u, id, start, run),
{
}

/// A result that is justified by a table stays justified by every table
/// that holds the same results.
pub proof fn lemma_justified_settles(
    n: Expr,
    s: Scope,
    input: Seq<char>,
    t: Table,
    u: Table,
    at: usize,
    r: Option<MatchTree>,
    strict: bool,
)
    requires
        justified(n, s, input, t, at, r, strict),
        settles_to(t, u),
    ensures
        justified(n, s, input, u, at, r, strict),
{
    match n {
        Expr::Sequence { children, .. } => {
            if r is None && strict {
                let run = choose|run: Seq<MatchTree>|
                    {
                        &&& run.len() < children.len()
                        &&& #[trigger] chained(t, children, at, run)
                        &&& failed(
                            t,
                            cursor_at(at, run, run.len() as int),
                            children[run.len() as int].id(),
                        )
                    };
                assert(chained(u, children, at, run));
            }
        },
        Expr::Alternation { children, .. } => {
            if let Some(m) = r {
                let k = choose|k: int|
                    {
                        &&& 0 <= k < children.len()
                        &&& matched(t, at, (#[trigger] children[k]).id(), m.children[0])
                        &&& strict ==> forall|j: int|
                            0 <= j < k ==> failed(
                                t,
                                at,
                                (#[trigger] children[j]).id(),
                            )
                    };
                assert(matched(u, at, children[k].id(), m.children[0]));
            }
        },
        Expr::Quantity { child, min, max, .. } => {
            if r is None && strict {
                let run = choose|run: Seq<MatchTree>|
                    {
                        &&& run.len() < min
                        &&& #[trigger] repeated(t, child.id(), at, run)
                        &&& advancing(run)
                        &&& run_ended(t, child.id(), max, at, run)
                    };
                assert(repeated(u, child.id(), at, run));
            }
        },
        _ => {},
    }
}

/// What justifies the result of a node other than a rule reference does
/// not depend on the active rule table.
pub proof fn lemma_justified_under_any_scope(
    n: Expr,
    s: Scope,
    other: Scope,
    input: Seq<char>,
    t: Table,
    at: usize,
    r: Option<MatchTree>,
    strict: bool,
)
    requires
        !(n is RuleReference),
        justified(n, s, input, t, at, r, strict),
    ensures
        justified(n, other, input, t, at, r, strict),
{
}

/// A result that is justified in full is justified.
pub proof fn lemma_justified_weakens(
    n: Expr,
    s: Scope,
    input: Seq<char>,
    t: Table,
    at: usize,
    r: Option<MatchTree>,
)
    requires
        justified(n, s, input, t, at, r, true),
    ensures
        justified(n, s, input, t, at, r, false),
{
    match n {
        Expr::Alternation { children, .. } => {
            if let Some(m) = r {
                let k = choose|k: int|
                    {
                        &&& 0 <= k < children.len()
                        &&& matched(t, at, (#[trigger] children[k]).id(), m.children[0])
                        &&& true ==> forall|j: int|
                            0 <= j < k ==> failed(
                                t,
                                at,
                                (#[trigger] children[j]).id(),
                            )
                    };
                assert(matched(t, at, children[k].id(), m.children[0]));
            }
        },
        _ => {},
    }
}

/// A faithful table stays faithful when it is only asked to account for
/// less.
pub proof fn lemma_faithful_weakens(root: Expr, input: Seq<char>, t: Table, strict: bool)
    requires
        faithful(root, input, t, strict),
    ensures
        faithful(root, input, t, false),
{
    assert forall|n: Expr, s: Scope, at: usize|
        #![trigger occurs(root, None, n, s), t.contains_key((at, n.id()))]
        occurs(root, None, n, s) && t.contains_key((at, n.id())) implies (t[(at, n.id())] matches
        Slot::Done(r) ==> justified(n, s, input, t, at, r, false)) by {
        if let Slot::Done(r) = t[(at, n.id())] {
            if strict {
                lemma_justified_weakens(n, s, input, t, at, r);
            }
        }
    }
}

/// A faithful table stays faithful when slots are added to it that hold no
/// result, or are taken from it that held none.
pub proof fn lemma_faithful_same_results(
    root: Expr,
    input: Seq<char>,
    t: Table,
    u: Table,
    strict: bool,
)
    requires
        faithful(root, input, t, strict),
        settles_to(t, u),
        forall|k: (usize, usize)|
            #[trigger] u.contains_key(k) ==> slot_sound(input, k, u[k]) && (u[k] is Done
                ==> t.contains_key(k) && t[k] == u[k]),
    ensures
        faithful(root, input, u, strict),
{
    assert forall|n: Expr, s: Scope, at: usize|
        #![trigger occurs(root, None, n, s), u.contains_key((at, n.id()))]
        occurs(root, None, n, s) && u.contains_key((at, n.id())) implies (u[(at, n.id())] matches
        Slot::Done(r) ==> justified(n, s, input, u, at, r, strict)) by {
        if let Slot::Done(r) = u[(at, n.id())] {
            assert(t.contains_key((at, n.id())));
            lemma_justified_settles(n, s, input, t, u, at, r, strict);
        }
    }
}

/// A faithful table stays faithful when the justified result of a node is
/// put under that node's key, where no result stood before.
pub proof fn lemma_faithful_record(
    root: Expr,
    input: Seq<char>,
    t: Table,
    strict: bool,
    node: Expr,
    s: Scope,
    at: usize,
    r: Option<MatchTree>,
)
    requires
        well_formed(root),
        faithful(root, input, t, strict),
        occurs(root, None, node, s),
        t.contains_key((at, node.id())) ==> t[(at, node.id())] is Pending,
        justified(node, s, input, t, at, r, strict),
        slot_sound(input, (at, node.id()), Slot::Done(r)),
    ensures
        faithful(root, input, t.insert((at, node.id()), Slot::Done(r)), strict),
{
    let key = (at, node.id());
    let u = t.insert(key, Slot::Done(r));
    assert(settles_to(t, u));
    assert forall|n: Expr, s1: Scope, p: usize|
        #![trigger occurs(root, None, n, s1), u.contains_key((p, n.id()))]
        occurs(root, None, n, s1) && u.contains_key((p, n.id())) implies (u[(p, n.id())] matches
        Slot::Done(r1) ==> justified(n, s1, input, u, p, r1, strict)) by {
        if let Slot::Done(r1) = u[(p, n.id())] {
            if (p, n.id()) == key {
                assert(n == node);
                lemma_justified_settles(node, s, input, t, u, at, r, strict);
                if !(n is RuleReference) {
                    lemma_justified_under_any_scope(node, s, s1, input, u, at, r, strict);
                }
            } else {
                assert(t.contains_key((p, n.id())));
                lemma_justified_settles(n, s1, input, t, u, p, r1, strict);
            }
        }
    }
}

/// The number of keys that a table over a text of `len` bytes can hold.
pub open spec fn capacity(len: int) -> int {
    (len + 1) * (usize::MAX + 1)
}

/// A finite set of keys whose offsets are at most `len` has at most
/// `capacity(len)` members.
pub proof fn lemma_keys_bounded(keys: Set<(usize, usize)>, len: int)
    requires
        keys.finite(),
        0 <= len,
        forall|k: (usize, usize)| #[trigger] keys.contains(k) ==> k.0 <= len,
    ensures
        keys.len() <= capacity(len),
{
    let width = usize::MAX + 1;
    let f = |k: (usize, usize)| k.0 * width + k.1;
    let image = keys.map(f);
    let all = vstd::set_lib::set_int_range(0, capacity(len));
    assert(vstd::relations::injective_on(f, keys)) by {
        assert forall|a: (usize, usize), b: (usize, usize)|
            keys.contains(a) && keys.contains(b) && #[trigger] f(a) == #[trigger] f(b) implies a
            == b by {
            lemma_pair_code_injective(a.0 as int, a.1 as int, b.0 as int, b.1 as int, width);
        }
    }
    vstd::set_lib::lemma_map_size(keys, image, f);
    vstd::set_lib::lemma_int_range(0, capacity(len));
    assert(image.subset_of(all)) by {
        assert forall|v: int| image.contains(v) implies all.contains(v) by {
            let k = choose|k: (usize, usize)| keys.contains(k) && f(k) == v;
            lemma_pair_code_bound(k.0 as int, k.1 as int, len, width);
        }
    }
    vstd::set_lib::lemma_len_subset(image, all);
}

proof fn lemma_pair_code_injective(a0: int, a1: int, b0: int, b1: int, width: int)
    requires
        0 <= a1 < width,
        0 <= b1 < width,
        a0 * width + a1 == b0 * width + b1,
    ensures
        a0 == b0,
        a1 == b1,
{
    assert((a0 - b0) * width == b1 - a1) by (nonlinear_arith)
        requires
            a0 * width + a1 == b0 * width + b1,
    ;
    assert(a0 == b0) by (nonlinear_arith)
        requires
            (a0 - b0) * width == b1 - a1,
            -width < b1 - a1 < width,
    ;
}

proof fn lemma_pair_code_bound(k0: int, k1: int, len: int, width: int)
    requires
        0 <= k0 <= len,
        0 <= k1 < width,
    ensures
        0 <= k0 * width + k1 < (len + 1) * width,
{
    assert(0 <= k0 * width + k1 < (len + 1) * width) by (nonlinear_arith)
        requires
            0 <= k0 <= len,
            0 <= k1 < width,
    ;
}

} // verus!
