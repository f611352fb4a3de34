//! Dependency discovery as a graph problem: which steps an item's step needs,
//! and which become needed when a step is asked for.

use crate::flow::{expr_refs, fields_refs, lemma_lookup_name_bound, members_refs, ValueExpr};
use vstd::prelude::*;

verus! {

/// What dependency discovery reads of an item: the step ids and input
/// expressions of its flow, the variables that have a value, and the steps
/// that have completed.
pub struct DepGraph {
    pub names: Seq<Seq<char>>,
    pub inputs: Seq<ValueExpr>,
    pub defined: Set<Seq<char>>,
    pub completed: Set<usize>,
}

/// The steps that step `s` still waits for: those its input refers to that
/// have not completed.
pub open spec fn step_deps(g: DepGraph, s: usize) -> Set<usize> {
    expr_refs(g.inputs[s as int], g.names, g.defined).difference(g.completed)
}

/// `p` is a chain of dependencies in which every step after the first is
/// outside `base`.
pub open spec fn is_dep_path(g: DepGraph, base: Set<usize>, p: Seq<usize>) -> bool {
    &&& p.len() >= 1
    &&& forall|i: int|
        #![trigger step_deps(g, p[i])]
        0 <= i < p.len() - 1 ==> step_deps(g, p[i]).contains(p[i + 1]) && !base.contains(p[i + 1])
}

/// `x` can be reached from `s` along dependencies without passing through a
/// step of `base`.
pub open spec fn reaches(g: DepGraph, base: Set<usize>, s: usize, x: usize) -> bool {
    exists|p: Seq<usize>| #[trigger] is_dep_path(g, base, p) && p[0] == s && p.last() == x
}

/// The steps that asking for `s` makes needed when `base` is already needed:
/// `s` and every step reachable from it through steps not yet needed.
pub open spec fn reach_set(g: DepGraph, base: Set<usize>, s: usize) -> Set<usize> {
    Set::new(|x: usize| reaches(g, base, s, x))
}

pub proof fn lemma_reach_self(g: DepGraph, base: Set<usize>, s: usize)
    ensures
        reach_set(g, base, s).contains(s),
{
    let p = seq![s];
    assert(is_dep_path(g, base, p));
}

pub proof fn lemma_reach_step(g: DepGraph, base: Set<usize>, s: usize, x: usize, d: usize)
    requires
        reach_set(g, base, s).contains(x),
        step_deps(g, x).contains(d),
        !base.contains(d),
    ensures
        reach_set(g, base, s).contains(d),
{
    let p = choose|p: Seq<usize>| #[trigger] is_dep_path(g, base, p) && p[0] == s && p.last() == x;
    let q = p.push(d);
    assert forall|i: int| 0 <= i < q.len() - 1 implies step_deps(g, q[i]).contains(q[i + 1])
        && !base.contains(q[i + 1]) by {
        if i < p.len() - 1 {
            assert(q[i] == p[i] && q[i + 1] == p[i + 1]);
            assert(step_deps(g, p[i]).contains(p[i + 1]));
        } else {
            assert(q[i] == x);
        }
    }
    assert(is_dep_path(g, base, q));
}

/// Reachability composes.
pub proof fn lemma_reach_trans(g: DepGraph, base: Set<usize>, s: usize, x: usize, y: usize)
    requires
        reach_set(g, base, s).contains(x),
        reach_set(g, base, x).contains(y),
    ensures
        reach_set(g, base, s).contains(y),
{
    let p = choose|p: Seq<usize>| #[trigger] is_dep_path(g, base, p) && p[0] == s && p.last() == x;
    let q = choose|q: Seq<usize>| #[trigger] is_dep_path(g, base, q) && q[0] == x && q.last() == y;
    let r = p + q.skip(1);
    assert forall|i: int| 0 <= i < r.len() - 1 implies step_deps(g, r[i]).contains(r[i + 1])
        && !base.contains(r[i + 1]) by {
        if i < p.len() - 1 {
            assert(r[i] == p[i] && r[i + 1] == p[i + 1]);
            assert(step_deps(g, p[i]).contains(p[i + 1]));
        } else {
            let k = i - (p.len() - 1);
            assert(r[i] == q[k]);
            assert(r[i + 1] == q[k + 1]);
            assert(step_deps(g, q[k]).contains(q[k + 1]));
        }
    }
    assert(is_dep_path(g, base, r));
    if q.len() == 1 {
        assert(r =~= p);
    } else {
        assert(r.last() == q.last());
    }
}

/// A set that holds `s` and is closed under dependencies outside `base`
/// holds every step reachable from `s`.
pub proof fn lemma_reach_closed(g: DepGraph, base: Set<usize>, s: usize, c: Set<usize>)
    requires
        c.contains(s),
        forall|v: usize, d: usize|
            c.contains(v) && #[trigger] step_deps(g, v).contains(d) && !base.contains(d) ==> c.contains(d),
    ensures
        reach_set(g, base, s).subset_of(c),
{
    assert forall|x: usize| reach_set(g, base, s).contains(x) implies c.contains(x) by {
        let p = choose|p: Seq<usize>| #[trigger] is_dep_path(g, base, p) && p[0] == s && p.last() == x;
        lemma_path_in_closed(g, base, c, p, p.len() as int);
    }
}

proof fn lemma_path_in_closed(g: DepGraph, base: Set<usize>, c: Set<usize>, p: Seq<usize>, k: int)
    requires
        is_dep_path(g, base, p),
        c.contains(p[0]),
        1 <= k <= p.len(),
        forall|v: usize, d: usize|
            c.contains(v) && #[trigger] step_deps(g, v).contains(d) && !base.contains(d) ==> c.contains(d),
    ensures
        c.contains(p[k - 1]),
    decreases k,
{
    if k > 1 {
        lemma_path_in_closed(g, base, c, p, k - 1);
        assert(step_deps(g, p[k - 2]).contains(p[k - 1]));
    }
}

/// Every step of the reach set other than `s` lies outside `base`.
pub proof fn lemma_reach_outside_base(g: DepGraph, base: Set<usize>, s: usize, x: usize)
    requires
        reach_set(g, base, s).contains(x),
        x != s,
    ensures
        !base.contains(x),
{
    let p = choose|p: Seq<usize>| #[trigger] is_dep_path(g, base, p) && p[0] == s && p.last() == x;
    assert(p.len() > 1);
    assert(step_deps(g, p[p.len() - 2]).contains(p[p.len() - 1]));
}

/// The steps an expression refers to are step indices of the flow.
pub proof fn lemma_expr_refs_bound(e: ValueExpr, names: Seq<Seq<char>>, defined: Set<Seq<char>>)
    requires
        names.len() <= usize::MAX,
    ensures
        forall|i: usize| #[trigger] expr_refs(e, names, defined).contains(i) ==> i < names.len(),
    decreases e,
{
    match e {
        ValueExpr::Variable { variable, default } => {
            if !defined.contains(variable@) {
                match default {
                    Some(d) => {
                        lemma_expr_refs_bound(*d, names, defined);
                        assert(expr_refs(e, names, defined) == expr_refs(*d, names, defined));
                    },
                    None => {
                        assert(expr_refs(e, names, defined) == Set::<usize>::empty());
                    },
                }
            } else {
                assert(expr_refs(e, names, defined) == Set::<usize>::empty());
            }
        },
        ValueExpr::Step { step, .. } => {
            lemma_lookup_name_bound(names, step@);
        },
        ValueExpr::Object(fields) => {
            lemma_fields_refs_bound(fields@, names, defined);
            assert(expr_refs(e, names, defined) == fields_refs(fields@, names, defined));
        },
        ValueExpr::Array(members) => {
            lemma_members_refs_bound(members@, names, defined);
            assert(expr_refs(e, names, defined) == members_refs(members@, names, defined));
        },
        _ => {
            assert(expr_refs(e, names, defined) == Set::<usize>::empty());
        },
    }
}

pub proof fn lemma_members_refs_bound(members: Seq<ValueExpr>, names: Seq<Seq<char>>, defined: Set<Seq<char>>)
    requires
        names.len() <= usize::MAX,
    ensures
        forall|i: usize| #[trigger] members_refs(members, names, defined).contains(i) ==> i < names.len(),
    decreases members,
{
    if members.len() > 0 {
        lemma_members_refs_bound(members.drop_last(), names, defined);
        lemma_expr_refs_bound(members.last(), names, defined);
        assert(members_refs(members, names, defined) == members_refs(members.drop_last(), names, defined).union(
            expr_refs(members.last(), names, defined)));
    } else {
        assert(members_refs(members, names, defined) == Set::<usize>::empty());
    }
}

pub proof fn lemma_fields_refs_bound(fields: Seq<(String, ValueExpr)>, names: Seq<Seq<char>>, defined: Set<Seq<char>>)
    requires
        names.len() <= usize::MAX,
    ensures
        forall|i: usize| #[trigger] fields_refs(fields, names, defined).contains(i) ==> i < names.len(),
    decreases fields,
{
    if fields.len() > 0 {
        lemma_fields_refs_bound(fields.drop_last(), names, defined);
        lemma_expr_refs_bound(fields.last().1, names, defined);
        assert(fields_refs(fields, names, defined) == fields_refs(fields.drop_last(), names, defined).union(
            expr_refs(fields.last().1, names, defined)));
    } else {
        assert(fields_refs(fields, names, defined) == Set::<usize>::empty());
    }
}

} // verus!
