//! # Representation of conditions and policy errors
//!
//! Routers are written as `r` followed by their index, edges as `[a -> b]`, conjunctions and
//! disjunctions between parentheses (the empty ones as `(true)` and `(false)`), negations with a
//! leading `!`, and positional conditions as their waypoints between brackets. A formula in
//! conjunctive normal form is written as the condition that it converts to ([`lemma_cnf_repr`]).
use vstd::prelude::*;
use crate::hard_policies::condition::{condition_of, group_condition, CnfGroup, Condition, PathCondition, PathConditionCNF, Waypoint};
use crate::hard_policies::policy_error::PolicyError;
use crate::hard_policies::repr::{append_decimal, decimal};
use crate::netsim::RouterId;

verus! {

broadcast use vstd::std_specs::vec::axiom_vec_index_decreases;

/// The name of router `r`: `r` followed by its index.
pub open spec fn router_name(r: RouterId) -> Seq<char> {
    seq!['r'] + decimal(r as nat)
}

/// How router `r` is written: by its name in `names`, indexed by router, where there are names,
/// else as `r` followed by its index.
pub open spec fn label(r: RouterId, names: Option<Seq<Seq<char>>>) -> Seq<char> {
    match names {
        Some(n) => n[r as int],
        None => router_name(r),
    }
}

/// The names, as strings of characters.
pub open spec fn names_view(names: Option<&Vec<String>>) -> Option<Seq<Seq<char>>> {
    match names {
        Some(n) => Some(n@.map_values(|x: String| x@)),
        None => None,
    }
}

/// Every router of `c` has a name, where there are names.
pub open spec fn named(c: PathCondition, names: Option<Seq<Seq<char>>>) -> bool {
    match names {
        Some(n) => c.routers_below(n.len()),
        None => true,
    }
}

/// The separator of positional waypoints and of the routers of an edge.
pub open spec fn arrow() -> Seq<char> {
    seq![' ', '-', '>', ' ']
}

/// The separator of the operands of a conjunction.
pub open spec fn and_sep() -> Seq<char> {
    seq![' ', '&', '&', ' ']
}

/// The separator of the operands of a disjunction.
pub open spec fn or_sep() -> Seq<char> {
    seq![' ', '|', '|', ' ']
}

impl Waypoint {
    /// How the waypoint is written, with the routers written by `names`.
    pub open spec fn written(self, names: Option<Seq<Seq<char>>>) -> Seq<char> {
        match self {
            Waypoint::Any => seq!['?'],
            Waypoint::Star => seq!['.', '.', '.'],
            Waypoint::Fix(r) => label(r, names),
        }
    }

    /// The representation of the waypoint.
    pub open spec fn repr_spec(self) -> Seq<char> {
        self.written(None)
    }
}

/// The first `k` waypoints, separated by arrows.
pub open spec fn waypoints_joined(v: Seq<Waypoint>, names: Option<Seq<Seq<char>>>, k: nat) -> Seq<char>
    decreases k,
{
    if k == 0 || k > v.len() {
        Seq::empty()
    } else if k == 1 {
        v[0].written(names)
    } else {
        waypoints_joined(v, names, (k - 1) as nat) + arrow() + v[k - 1].written(names)
    }
}

/// The first `k` conditions, separated by `sep`.
pub open spec fn conditions_joined(
    v: Seq<PathCondition>,
    sep: Seq<char>,
    names: Option<Seq<Seq<char>>>,
    k: nat,
) -> Seq<char>
    decreases v, k,
{
    if k == 0 || k > v.len() {
        Seq::empty()
    } else if k == 1 {
        v[0].written(names)
    } else {
        conditions_joined(v, sep, names, (k - 1) as nat) + sep + v[k - 1].written(names)
    }
}

/// The operands between parentheses, separated by `sep`; `empty` if there is none.
pub open spec fn operands(
    v: Seq<PathCondition>,
    sep: Seq<char>,
    empty: Seq<char>,
    names: Option<Seq<Seq<char>>>,
) -> Seq<char> {
    seq!['('] + if v.len() == 0 {
        empty
    } else {
        conditions_joined(v, sep, names, v.len())
    } + seq![')']
}

impl PathCondition {
    /// Every router that the condition names is below `n`.
    pub open spec fn routers_below(self, n: nat) -> bool
        decreases self,
    {
        match self {
            PathCondition::Node(r) => r < n,
            PathCondition::Edge(a, b) => a < n && b < n,
            PathCondition::And(v) => forall|j: int| 0 <= j < v@.len() ==> (#[trigger] v@[j]).routers_below(n),
            PathCondition::Or(v) => forall|j: int| 0 <= j < v@.len() ==> (#[trigger] v@[j]).routers_below(n),
            PathCondition::Not(c) => c.routers_below(n),
            PathCondition::Positional(v) => forall|j: int|
                0 <= j < v@.len() ==> (#[trigger] v@[j] matches Waypoint::Fix(r) ==> r < n),
        }
    }

    /// How the condition is written, with the routers written by `names`.
    pub open spec fn written(self, names: Option<Seq<Seq<char>>>) -> Seq<char>
        decreases self, 0nat,
    {
        match self {
            PathCondition::Node(r) => label(r, names),
            PathCondition::Edge(a, b) => seq!['['] + label(a, names) + arrow() + label(b, names) + seq![']'],
            PathCondition::And(v) => seq!['('] + if v@.len() == 0 {
                seq!['t', 'r', 'u', 'e']
            } else {
                conditions_joined(v@, and_sep(), names, v@.len())
            } + seq![')'],
            PathCondition::Or(v) => seq!['('] + if v@.len() == 0 {
                seq!['f', 'a', 'l', 's', 'e']
            } else {
                conditions_joined(v@, or_sep(), names, v@.len())
            } + seq![')'],
            PathCondition::Not(c) => seq!['!'] + c.written(names),
            PathCondition::Positional(v) => seq!['['] + waypoints_joined(v@, names, v@.len()) + seq![']'],
        }
    }

    /// The representation of the condition.
    pub open spec fn repr_spec(self) -> Seq<char> {
        self.written(None)
    }
}

/// The separated representations of the first `k` items.
pub open spec fn items_joined(items: Seq<Seq<char>>, sep: Seq<char>, k: nat) -> Seq<char>
    decreases k,
{
    if k == 0 || k > items.len() {
        Seq::empty()
    } else if k == 1 {
        items[0]
    } else {
        items_joined(items, sep, (k - 1) as nat) + sep + items[k - 1]
    }
}

/// The disjuncts of a group of a formula in conjunctive normal form: first the negated
/// conditions, then the others.
pub open spec fn group_items(g: CnfGroup, names: Option<Seq<Seq<char>>>) -> Seq<Seq<char>> {
    g.1@.map_values(|c: PathCondition| seq!['!'] + c.written(names)) + g.0@.map_values(
        |c: PathCondition| c.written(names),
    )
}

/// How a group is written: its disjuncts between parentheses.
pub open spec fn group_repr(g: CnfGroup, names: Option<Seq<Seq<char>>>) -> Seq<char> {
    let items = group_items(g, names);
    seq!['('] + if items.len() == 0 {
        seq!['f', 'a', 'l', 's', 'e']
    } else {
        items_joined(items, or_sep(), items.len())
    } + seq![')']
}

/// How a formula in conjunctive normal form is written: the conjunction of its groups.
pub open spec fn cnf_repr(e: Seq<CnfGroup>, names: Option<Seq<Seq<char>>>) -> Seq<char> {
    let items = e.map_values(|g: CnfGroup| group_repr(g, names));
    seq!['('] + if items.len() == 0 {
        seq!['t', 'r', 'u', 'e']
    } else {
        items_joined(items, and_sep(), items.len())
    } + seq![')']
}

/// The beginning of how a condition is written: its name, the router and the prefix.
pub open spec fn condition_head(name: Seq<char>, r: Seq<char>, p: u32) -> Seq<char> {
    name + seq!['('] + r + seq![',', ' ', 'p', 'r', 'e', 'f', 'i', 'x', ' '] + decimal(p as nat)
}

/// The part of how a condition is written that shows its path condition.
pub open spec fn condition_tail(c: Seq<char>) -> Seq<char> {
    seq![',', ' ', 'c', 'o', 'n', 'd', 'i', 't', 'i', 'o', 'n', ' '] + c
}

/// The name of a reachability condition.
pub open spec fn reachability() -> Seq<char> {
    seq!['R', 'e', 'a', 'c', 'h', 'a', 'b', 'i', 'l', 'i', 't', 'y']
}

/// The name of an isolation condition.
pub open spec fn isolation() -> Seq<char> {
    seq!['I', 's', 'o', 'l', 'a', 't', 'i', 'o', 'n']
}

/// The name of a reliability condition.
pub open spec fn reliability() -> Seq<char> {
    seq!['R', 'e', 'l', 'i', 'a', 'b', 'i', 'l', 'i', 't', 'y']
}

/// The name of a condition on the transient state.
pub open spec fn transient() -> Seq<char> {
    seq!['T', 'r', 'a', 'n', 's', 'i', 'e', 'n', 't']
}

impl Condition {
    /// How the condition is written, with the routers written by `names`; the path condition of
    /// a condition on the transient state is always written with the indices of its routers.
    pub open spec fn written(self, names: Option<Seq<Seq<char>>>) -> Seq<char> {
        match self {
            Condition::Reachable(r, p, Some(c)) => condition_head(reachability(), label(r, names), p.0)
                + condition_tail(c.written(names)) + seq![')'],
            Condition::Reachable(r, p, None) => condition_head(reachability(), label(r, names), p.0) + seq![')'],
            Condition::NotReachable(r, p) => condition_head(isolation(), label(r, names), p.0) + seq![')'],
            Condition::Reliable(r, p, Some(c)) => condition_head(reliability(), label(r, names), p.0)
                + condition_tail(c.written(names)) + seq![')'],
            Condition::Reliable(r, p, None) => condition_head(reliability(), label(r, names), p.0) + seq![')'],
            Condition::TransientPath(r, p, c) => condition_head(transient(), label(r, names), p.0)
                + condition_tail(c.repr_spec()) + seq![')'],
        }
    }

    /// Every router that the condition names has a name, where there are names.
    pub open spec fn named(self, names: Option<Seq<Seq<char>>>) -> bool {
        match names {
            None => true,
            Some(n) => match self {
                Condition::Reachable(r, _, Some(c)) => r < n.len() && c.routers_below(n.len()),
                Condition::Reliable(r, _, Some(c)) => r < n.len() && c.routers_below(n.len()),
                Condition::Reachable(r, _, None) => r < n.len(),
                Condition::Reliable(r, _, None) => r < n.len(),
                Condition::NotReachable(r, _) => r < n.len(),
                Condition::TransientPath(r, _, _) => r < n.len(),
            },
        }
    }

    /// The representation of the condition.
    pub open spec fn repr_spec(self) -> Seq<char> {
        self.written(None)
    }
}

/// How router `r` is written.
fn label_repr(r: RouterId, names: Option<&Vec<String>>) -> (s: String)
    requires
        names matches Some(n) ==> r < n@.len(),
    ensures
        s@ == label(r, names_view(names)),
{
    match names {
        Some(n) => {
            let s = n[r as usize].clone();
            assert(names_view(names)->Some_0[r as int] == n@[r as int]@);
            s
        },
        None => {
            let mut s = String::from_str("r");
            proof {
                reveal_strlit("r");
            }
            append_decimal(&mut s, r as usize);
            s
        },
    }
}

impl Waypoint {
    /// How the waypoint is written.
    fn written_exec(&self, names: Option<&Vec<String>>) -> (s: String)
        requires
            names matches Some(n) ==> (self matches Waypoint::Fix(r) ==> r < n@.len()),
        ensures
            s@ == self.written(names_view(names)),
    {
        proof {
            reveal_strlit("?");
            reveal_strlit("...");
        }
        match self {
            Waypoint::Any => String::from_str("?"),
            Waypoint::Star => String::from_str("..."),
            Waypoint::Fix(r) => label_repr(*r, names),
        }
    }

    /// Represent the waypoint as a string
    pub fn repr(&self) -> (s: String)
        ensures
            s@ == self.repr_spec(),
    {
        self.written_exec(None)
    }

    /// Return a string representation of the waypoint, where the router name is inserted. The
    /// names are indexed by router.
    pub fn repr_with_name(&self, names: &Vec<String>) -> (s: String)
        requires
            self matches Waypoint::Fix(r) ==> r < names@.len(),
        ensures
            s@ == self.written(names_view(Some(names))),
    {
        self.written_exec(Some(names))
    }
}

/// The conditions between parentheses, separated by `sep`; `empty` if there is none.
fn conditions_repr(v: &Vec<PathCondition>, sep: &str, empty: &str, names: Option<&Vec<String>>) -> (s: String)
    requires
        forall|j: int| 0 <= j < v@.len() ==> named(#[trigger] v@[j], names_view(names)),
    ensures
        s@ == operands(v@, sep@, empty@, names_view(names)),
    decreases v, 0nat,
{
    let ghost nv = names_view(names);
    let mut s = String::from_str("(");
    proof {
        reveal_strlit("(");
    }
    if v.len() == 0 {
        s.append(empty);
    }
    let mut k: usize = 0;
    while k < v.len()
        invariant
            k <= v@.len(),
            nv == names_view(names),
            forall|j: int| 0 <= j < v@.len() ==> named(#[trigger] v@[j], nv),
            v@.len() > 0 ==> s@ == seq!['('] + conditions_joined(v@, sep@, nv, k as nat),
            v@.len() == 0 ==> s@ == seq!['('] + empty@,
        decreases v@.len() - k,
    {
        proof {
            assert(decreases_to!(v => v@[k as int]));
            assert(named(v@[k as int], nv));
        }
        if k > 0 {
            s.append(sep);
        }
        let e = v[k].written_exec(names);
        s.append(e.as_str());
        proof {
            assert(s@ =~= seq!['('] + conditions_joined(v@, sep@, nv, (k + 1) as nat));
        }
        k += 1;
    }
    s.append(")");
    proof {
        reveal_strlit(")");
        assert(s@ =~= operands(v@, sep@, empty@, nv));
    }
    s
}

/// The waypoints between brackets, separated by arrows.
fn waypoints_repr(v: &Vec<Waypoint>, names: Option<&Vec<String>>) -> (s: String)
    requires
        names matches Some(n) ==> forall|j: int|
            0 <= j < v@.len() ==> (#[trigger] v@[j] matches Waypoint::Fix(r) ==> r < n@.len()),
    ensures
        s@ == seq!['['] + waypoints_joined(v@, names_view(names), v@.len()) + seq![']'],
{
    let ghost nv = names_view(names);
    let mut s = String::from_str("[");
    proof {
        reveal_strlit("[");
        assert(s@ =~= seq!['['] + waypoints_joined(v@, nv, 0));
    }
    let mut k: usize = 0;
    while k < v.len()
        invariant
            k <= v@.len(),
            nv == names_view(names),
            names matches Some(n) ==> forall|j: int|
                0 <= j < v@.len() ==> (#[trigger] v@[j] matches Waypoint::Fix(r) ==> r < n@.len()),
            s@ == seq!['['] + waypoints_joined(v@, nv, k as nat),
        decreases v@.len() - k,
    {
        proof {
            reveal_strlit(" -> ");
            assert(names matches Some(n) ==> (v@[k as int] matches Waypoint::Fix(r) ==> r < n@.len()));
        }
        if k > 0 {
            s.append(" -> ");
        }
        let w = v[k].written_exec(names);
        s.append(w.as_str());
        proof {
            assert(s@ =~= seq!['['] + waypoints_joined(v@, nv, (k + 1) as nat));
        }
        k += 1;
    }
    s.append("]");
    proof {
        reveal_strlit("]");
    }
    s
}

impl PathCondition {
    /// How the condition is written.
    fn written_exec(&self, names: Option<&Vec<String>>) -> (s: String)
        requires
            named(*self, names_view(names)),
        ensures
            s@ == self.written(names_view(names)),
        decreases self, 1nat,
    {
        proof {
            reveal_strlit("[");
            reveal_strlit("]");
            reveal_strlit(" -> ");
            reveal_strlit("!");
            reveal_strlit(" && ");
            reveal_strlit(" || ");
            reveal_strlit("true");
            reveal_strlit("false");
        }
        match self {
            PathCondition::Node(r) => label_repr(*r, names),
            PathCondition::Edge(a, b) => {
                let mut s = String::from_str("[");
                let ra = label_repr(*a, names);
                let rb = label_repr(*b, names);
                s.append(ra.as_str());
                s.append(" -> ");
                s.append(rb.as_str());
                s.append("]");
                assert(s@ =~= self.written(names_view(names)));
                s
            },
            PathCondition::And(v) => {
                proof {
                    assert(decreases_to!(self => self->And_0));
                    assert(" && "@ =~= and_sep());
                }
                let s = conditions_repr(v, " && ", "true", names);
                assert(s@ =~= self.written(names_view(names)));
                s
            },
            PathCondition::Or(v) => {
                proof {
                    assert(decreases_to!(self => self->Or_0));
                    assert(" || "@ =~= or_sep());
                }
                let s = conditions_repr(v, " || ", "false", names);
                assert(s@ =~= self.written(names_view(names)));
                s
            },
            PathCondition::Not(c) => {
                let mut s = String::from_str("!");
                let rc = c.written_exec(names);
                s.append(rc.as_str());
                assert(s@ =~= self.written(names_view(names)));
                s
            },
            PathCondition::Positional(v) => waypoints_repr(v, names),
        }
    }

    /// Represent the condition as a string
    pub fn repr(&self) -> (s: String)
        ensures
            s@ == self.repr_spec(),
    {
        self.written_exec(None)
    }

    /// Return the string representation of the path condition, with router names inserted. The
    /// names are indexed by router.
    pub fn repr_with_name(&self, names: &Vec<String>) -> (s: String)
        requires
            self.routers_below(names@.len()),
        ensures
            s@ == self.written(names_view(Some(names))),
    {
        self.written_exec(Some(names))
    }
}

/// The disjuncts of a group, between parentheses.
fn group_repr_exec(g: &CnfGroup, names: Option<&Vec<String>>) -> (s: String)
    requires
        forall|k: int| 0 <= k < g.0@.len() ==> named(#[trigger] g.0@[k], names_view(names)),
        forall|k: int| 0 <= k < g.1@.len() ==> named(#[trigger] g.1@[k], names_view(names)),
    ensures
        s@ == group_repr(*g, names_view(names)),
{
    let ghost nv = names_view(names);
    let ghost items = group_items(*g, nv);
    let ghost nf = g.1@.len();
    let mut s = String::from_str("(");
    proof {
        reveal_strlit("(");
        assert(s@ =~= seq!['('] + items_joined(items, or_sep(), 0));
    }
    let mut first = true;
    let mut k: usize = 0;
    while k < g.1.len()
        invariant
            k <= g.1@.len(),
            nf == g.1@.len(),
            nv == names_view(names),
            items == group_items(*g, nv),
            forall|k: int| 0 <= k < g.1@.len() ==> named(#[trigger] g.1@[k], nv),
            first == (k == 0),
            s@ == seq!['('] + items_joined(items, or_sep(), k as nat),
        decreases g.1@.len() - k,
    {
        proof {
            reveal_strlit(" || ");
            reveal_strlit("!");
            assert(items[k as int] == seq!['!'] + g.1@[k as int].written(nv));
            assert(named(g.1@[k as int], nv));
        }
        if !first {
            s.append(" || ");
        }
        s.append("!");
        let c = g.1[k].written_exec(names);
        s.append(c.as_str());
        first = false;
        proof {
            assert(s@ =~= seq!['('] + items_joined(items, or_sep(), (k + 1) as nat));
        }
        k += 1;
    }
    let mut j: usize = 0;
    while j < g.0.len()
        invariant
            j <= g.0@.len(),
            nf == g.1@.len(),
            nv == names_view(names),
            items == group_items(*g, nv),
            forall|k: int| 0 <= k < g.0@.len() ==> named(#[trigger] g.0@[k], nv),
            first == (nf + j == 0),
            s@ == seq!['('] + items_joined(items, or_sep(), (nf + j) as nat),
        decreases g.0@.len() - j,
    {
        proof {
            reveal_strlit(" || ");
            assert(items[nf + j] == g.0@[j as int].written(nv));
            assert(named(g.0@[j as int], nv));
        }
        if !first {
            s.append(" || ");
        }
        let c = g.0[j].written_exec(names);
        s.append(c.as_str());
        first = false;
        proof {
            assert(s@ =~= seq!['('] + items_joined(items, or_sep(), (nf + j + 1) as nat));
        }
        j += 1;
    }
    if first {
        s.append("false");
    }
    s.append(")");
    proof {
        reveal_strlit("false");
        reveal_strlit(")");
        assert(s@ =~= group_repr(*g, nv));
    }
    s
}

/// Every condition of the groups of `e` names only routers that have a name, where there are
/// names.
pub open spec fn cnf_named(e: Seq<CnfGroup>, names: Option<Seq<Seq<char>>>) -> bool {
    forall|i: int|
        0 <= i < e.len() ==> (forall|k: int| 0 <= k < (#[trigger] e[i]).0@.len() ==> named(#[trigger] e[i].0@[k], names))
            && (forall|k: int| 0 <= k < e[i].1@.len() ==> named(#[trigger] e[i].1@[k], names))
}

impl PathConditionCNF {
    /// How the formula is written: the conjunction of the disjunctions of its groups.
    fn written_exec(&self, names: Option<&Vec<String>>) -> (s: String)
        requires
            cnf_named(self.e@, names_view(names)),
        ensures
            s@ == cnf_repr(self.e@, names_view(names)),
    {
        let ghost nv = names_view(names);
        let ghost items = self.e@.map_values(|g: CnfGroup| group_repr(g, nv));
        let mut s = String::from_str("(");
        proof {
            reveal_strlit("(");
            assert(s@ =~= seq!['('] + items_joined(items, and_sep(), 0));
        }
        let mut k: usize = 0;
        while k < self.e.len()
            invariant
                k <= self.e@.len(),
                nv == names_view(names),
                cnf_named(self.e@, nv),
                items == self.e@.map_values(|g: CnfGroup| group_repr(g, nv)),
                s@ == seq!['('] + items_joined(items, and_sep(), k as nat),
            decreases self.e@.len() - k,
        {
            proof {
                reveal_strlit(" && ");
                let g = self.e@[k as int];
                assert(forall|j: int| 0 <= j < g.0@.len() ==> named(#[trigger] g.0@[j], nv));
                assert(forall|j: int| 0 <= j < g.1@.len() ==> named(#[trigger] g.1@[j], nv));
            }
            if k > 0 {
                s.append(" && ");
            }
            let g = group_repr_exec(&self.e[k], names);
            s.append(g.as_str());
            proof {
                assert(s@ =~= seq!['('] + items_joined(items, and_sep(), (k + 1) as nat));
            }
            k += 1;
        }
        if k == 0 {
            s.append("true");
        }
        s.append(")");
        proof {
            reveal_strlit("true");
            reveal_strlit(")");
            assert(s@ =~= cnf_repr(self.e@, nv));
        }
        s
    }

    /// Represent the formula as a string: the conjunction of the disjunctions of its groups.
    pub fn repr(&self) -> (s: String)
        ensures
            s@ == cnf_repr(self.e@, None),
    {
        self.written_exec(None)
    }

    /// Return the string representation of the path condition, with router names inserted. The
    /// names are indexed by router.
    pub fn repr_with_name(&self, names: &Vec<String>) -> (s: String)
        requires
            cnf_named(self.e@, names_view(Some(names))),
        ensures
            s@ == cnf_repr(self.e@, names_view(Some(names))),
    {
        self.written_exec(Some(names))
    }
}

/// The name of the condition, the router and the prefix, after an opening parenthesis.
fn condition_head_repr(name: &str, r: String, p: u32) -> (s: String)
    ensures
        s@ == condition_head(name@, r@, p),
{
    let mut s = String::from_str(name);
    s.append("(");
    s.append(r.as_str());
    s.append(", prefix ");
    append_decimal(&mut s, p as usize);
    proof {
        reveal_strlit("(");
        reveal_strlit(", prefix ");
        assert(s@ =~= condition_head(name@, r@, p));
    }
    s
}

/// Appends the path condition of a condition, if there is one, and the closing parenthesis.
fn close_condition(s: &mut String, c: Option<String>)
    ensures
        final(s)@ == old(s)@ + match c {
            Some(c) => condition_tail(c@),
            None => Seq::empty(),
        } + seq![')'],
{
    match &c {
        Some(c) => {
            s.append(", condition ");
            s.append(c.as_str());
        },
        None => {},
    }
    s.append(")");
    proof {
        reveal_strlit(", condition ");
        reveal_strlit(")");
        assert(final(s)@ =~= old(s)@ + match c {
            Some(c) => condition_tail(c@),
            None => Seq::<char>::empty(),
        } + seq![')']);
    }
}

/// How an optional path condition is written.
fn optional_repr(c: &Option<PathCondition>, names: Option<&Vec<String>>) -> (s: Option<String>)
    requires
        c matches Some(x) ==> named(*x, names_view(names)),
    ensures
        c is None <==> s is None,
        c matches Some(x) ==> s->Some_0@ == x.written(names_view(names)),
{
    match c {
        Some(c) => Some(c.written_exec(names)),
        None => None,
    }
}

impl Condition {
    /// How the condition is written.
    fn written_exec(&self, names: Option<&Vec<String>>) -> (s: String)
        requires
            self.named(names_view(names)),
        ensures
            s@ == self.written(names_view(names)),
    {
        proof {
            reveal_strlit("Reachability");
            reveal_strlit("Isolation");
            reveal_strlit("Reliability");
            reveal_strlit("Transient");
            assert("Reachability"@ =~= reachability());
            assert("Isolation"@ =~= isolation());
            assert("Reliability"@ =~= reliability());
            assert("Transient"@ =~= transient());
        }
        match self {
            Condition::Reachable(r, p, c) => {
                let mut s = condition_head_repr("Reachability", label_repr(*r, names), p.0);
                close_condition(&mut s, optional_repr(c, names));
                assert(s@ =~= self.written(names_view(names)));
                s
            },
            Condition::NotReachable(r, p) => {
                let mut s = condition_head_repr("Isolation", label_repr(*r, names), p.0);
                close_condition(&mut s, None);
                assert(s@ =~= self.written(names_view(names)));
                s
            },
            Condition::Reliable(r, p, c) => {
                let mut s = condition_head_repr("Reliability", label_repr(*r, names), p.0);
                close_condition(&mut s, optional_repr(c, names));
                assert(s@ =~= self.written(names_view(names)));
                s
            },
            Condition::TransientPath(r, p, c) => {
                let mut s = condition_head_repr("Transient", label_repr(*r, names), p.0);
                close_condition(&mut s, Some(c.written_exec(None)));
                assert(s@ =~= self.written(names_view(names)));
                s
            },
        }
    }

    /// Represent the condition as a string
    pub fn repr(&self) -> (s: String)
        ensures
            s@ == self.repr_spec(),
    {
        self.written_exec(None)
    }

    /// Return the string representation of the condition, with router names inserted. The names
    /// are indexed by router.
    pub fn repr_with_name(&self, names: &Vec<String>) -> (s: String)
        requires
            self.named(names_view(Some(names))),
        ensures
            s@ == self.written(names_view(Some(names))),
    {
        self.written_exec(Some(names))
    }
}

/// Conditions whose representations are the items, separated alike, give the same string.
proof fn lemma_joined_items(
    v: Seq<PathCondition>,
    items: Seq<Seq<char>>,
    sep: Seq<char>,
    names: Option<Seq<Seq<char>>>,
    n: nat,
)
    requires
        n <= v.len(),
        n <= items.len(),
        forall|k: int| 0 <= k < n ==> (#[trigger] v[k]).written(names) == items[k],
    ensures
        conditions_joined(v, sep, names, n) == items_joined(items, sep, n),
    decreases n,
{
    if n > 1 {
        lemma_joined_items(v, items, sep, names, (n - 1) as nat);
    }
}

/// Conditions that are the same are written alike.
pub proof fn lemma_same_repr(a: PathCondition, b: PathCondition, names: Option<Seq<Seq<char>>>)
    requires
        a.same_as(b),
    ensures
        a.written(names) == b.written(names),
    decreases a,
{
    match (a, b) {
        (PathCondition::And(v), PathCondition::And(w)) => {
            assert forall|j: int| 0 <= j < v@.len() implies (#[trigger] v@[j]).written(names) == w@[j].written(
                names,
            ) by {
                assert(decreases_to!(a => a->And_0));
                assert(v@[j].same_as(w@[j]));
                lemma_same_repr(v@[j], w@[j], names);
            }
            let items = w@.map_values(|c: PathCondition| c.written(names));
            lemma_joined_items(v@, items, and_sep(), names, v@.len());
            lemma_joined_items(w@, items, and_sep(), names, w@.len());
        },
        (PathCondition::Or(v), PathCondition::Or(w)) => {
            assert forall|j: int| 0 <= j < v@.len() implies (#[trigger] v@[j]).written(names) == w@[j].written(
                names,
            ) by {
                assert(decreases_to!(a => a->Or_0));
                assert(v@[j].same_as(w@[j]));
                lemma_same_repr(v@[j], w@[j], names);
            }
            let items = w@.map_values(|c: PathCondition| c.written(names));
            lemma_joined_items(v@, items, or_sep(), names, v@.len());
            lemma_joined_items(w@, items, or_sep(), names, w@.len());
        },
        (PathCondition::Not(x), PathCondition::Not(y)) => {
            lemma_same_repr(*x, *y, names);
        },
        (PathCondition::Positional(v), PathCondition::Positional(w)) => {
            assert(v@ == w@);
        },
        _ => {},
    }
}

/// A formula in conjunctive normal form is written as the condition that it converts to.
pub proof fn lemma_cnf_repr(c: PathCondition, e: Seq<CnfGroup>, names: Option<Seq<Seq<char>>>)
    requires
        condition_of(c, e),
    ensures
        c.written(names) == cnf_repr(e, names),
{
    let gs = c->And_0@;
    assert forall|i: int| 0 <= i < e.len() implies (#[trigger] gs[i]).written(names) == group_repr(e[i], names) by {
        assert(group_condition(gs[i], e[i]));
        let g = e[i];
        let w = gs[i]->Or_0@;
        let nf = g.1@.len();
        let items = group_items(g, names);
        assert forall|k: int| 0 <= k < w.len() implies (#[trigger] w[k]).written(names) == items[k] by {
            if k < nf {
                assert(w[k] is Not && g.1@[k].same_as(*w[k]->Not_0));
                lemma_same_repr(g.1@[k], *w[k]->Not_0, names);
            } else {
                assert(g.0@[k - nf].same_as(w[nf + (k - nf)]));
                lemma_same_repr(g.0@[k - nf], w[k], names);
            }
        }
        lemma_joined_items(w, items, or_sep(), names, w.len());
    }
    let items = e.map_values(|g: CnfGroup| group_repr(g, names));
    lemma_joined_items(gs, items, and_sep(), names, gs.len());
}

/// The names of the first `k` routers of the path, separated by `sep`.
pub open spec fn path_joined(path: Seq<RouterId>, names: Seq<Seq<char>>, sep: Seq<char>, k: nat) -> Seq<char>
    decreases k,
{
    if k == 0 || k > path.len() {
        Seq::empty()
    } else if k == 1 {
        names[path[0] as int]
    } else {
        path_joined(path, names, sep, (k - 1) as nat) + sep + names[path[k - 1] as int]
    }
}

/// The names of the routers of the path, separated by `sep`.
pub open spec fn path_names(path: Seq<RouterId>, names: Seq<Seq<char>>, sep: Seq<char>) -> Seq<char> {
    path_joined(path, names, sep, path.len())
}

impl PolicyError {
    /// Every router that the error names has a name, and a forwarding loop is not empty.
    pub open spec fn named(self, n: nat) -> bool {
        match self {
            PolicyError::BlackHole { router, .. } => router < n,
            PolicyError::ForwardingLoop { path, .. } => path@.len() > 0 && forall|i: int|
                0 <= i < path@.len() ==> #[trigger] path@[i] < n,
            PolicyError::PathCondition { path, condition, .. } => condition.routers_below(n) && forall|i: int|
                0 <= i < path@.len() ==> #[trigger] path@[i] < n,
            PolicyError::UnallowedPathExists { router, path, .. } => router < n && forall|i: int|
                0 <= i < path@.len() ==> #[trigger] path@[i] < n,
            PolicyError::NotReliable { router, link_a, link_b, .. } => router < n && link_a < n && link_b < n,
            PolicyError::ReliabilityCondition { path, condition, link_a, link_b, .. } => condition.routers_below(n)
                && link_a < n && link_b < n && forall|i: int| 0 <= i < path@.len() ==> #[trigger] path@[i] < n,
            PolicyError::NoConvergence => true,
            PolicyError::TransientBehavior { router, condition, .. } => router < n && condition.routers_below(n),
        }
    }

    /// How the error is written, with the routers written by their names.
    pub open spec fn written(self, names: Seq<Seq<char>>) -> Seq<char> {
        match self {
            PolicyError::BlackHole { router, prefix } => "Black hole for prefix "@ + decimal(prefix.0 as nat)
                + " at router "@ + names[router as int],
            PolicyError::ForwardingLoop { path, prefix } => "Forwarding loop for prefix "@ + decimal(
                prefix.0 as nat,
            ) + ": "@ + path_names(path@, names, " -> "@) + " -> "@ + names[path@[0] as int],
            PolicyError::PathCondition { path, condition, prefix } => "Path condition invalidated for prefix "@
                + decimal(prefix.0 as nat) + ": path: "@ + path_names(path@, names, " -> "@) + ", condition: "@
                + condition.written(Some(names)),
            PolicyError::UnallowedPathExists { router, prefix, path } => "Router "@ + names[router as int]
                + " can reach unallowed prefix "@ + decimal(prefix.0 as nat) + " via path ["@ + path_names(
                path@,
                names,
                ", "@,
            ) + "]"@,
            PolicyError::NotReliable { router, prefix, link_a, link_b } => "Router "@ + names[router as int]
                + " cannot reach prefix "@ + decimal(prefix.0 as nat) + " when link ["@ + names[link_a as int]
                + " -> "@ + names[link_b as int] + "] fails"@,
            PolicyError::ReliabilityCondition { path, condition, prefix, link_a, link_b } =>
                "Reliability condition "@ + condition.written(Some(names)) + " violated for prefix "@ + decimal(
                prefix.0 as nat,
            ) + " with path "@ + path_names(path@, names, " -> "@) + " when link ["@ + names[link_a as int]
                + " -> "@ + names[link_b as int] + "] fails"@,
            PolicyError::NoConvergence => "No Convergence"@,
            PolicyError::TransientBehavior { router, prefix, condition } => "Transient behavior of router "@
                + names[router as int] + " for prefix "@ + decimal(prefix.0 as nat)
                + " may be violated! condition: "@ + condition.written(Some(names)),
        }
    }
}

/// Appends the name of router `r`.
fn append_name(s: &mut String, r: RouterId, names: &Vec<String>)
    requires
        r < names@.len(),
    ensures
        final(s)@ == old(s)@ + names@.map_values(|x: String| x@)[r as int],
{
    s.append(names[r as usize].as_str());
}

/// Appends the names of the routers of the path, separated by `sep`.
pub(crate) fn append_path(s: &mut String, path: &Vec<RouterId>, names: &Vec<String>, sep: &str)
    requires
        forall|i: int| 0 <= i < path@.len() ==> #[trigger] path@[i] < names@.len(),
    ensures
        final(s)@ == old(s)@ + path_names(path@, names@.map_values(|x: String| x@), sep@),
{
    let ghost nv = names@.map_values(|x: String| x@);
    let ghost start = s@;
    assert(s@ =~= start + path_joined(path@, nv, sep@, 0));
    let mut k: usize = 0;
    while k < path.len()
        invariant
            k <= path@.len(),
            nv == names@.map_values(|x: String| x@),
            forall|i: int| 0 <= i < path@.len() ==> #[trigger] path@[i] < names@.len(),
            s@ == start + path_joined(path@, nv, sep@, k as nat),
        decreases path@.len() - k,
    {
        if k > 0 {
            s.append(sep);
        }
        assert(path@[k as int] < names@.len());
        append_name(s, path[k], names);
        assert(s@ =~= start + path_joined(path@, nv, sep@, (k + 1) as nat));
        k += 1;
    }
}

impl PolicyError {
    /// Return the string representation of the error, with router names inserted. The names are
    /// indexed by router.
    pub fn repr_with_name(&self, names: &Vec<String>) -> (s: String)
        requires
            self.named(names@.len()),
        ensures
            s@ == self.written(names@.map_values(|x: String| x@)),
    {
        let ghost nv = names@.map_values(|x: String| x@);
        let ghost ns = names_view(Some(names));
        assert(ns == Some(nv));
        let mut s = String::new();
        assert(s@ =~= Seq::<char>::empty());
        match self {
            PolicyError::BlackHole { router, prefix } => {
                s.append("Black hole for prefix ");
                append_decimal(&mut s, prefix.0 as usize);
                s.append(" at router ");
                append_name(&mut s, *router, names);
            },
            PolicyError::ForwardingLoop { path, prefix } => {
                s.append("Forwarding loop for prefix ");
                append_decimal(&mut s, prefix.0 as usize);
                s.append(": ");
                append_path(&mut s, path, names, " -> ");
                s.append(" -> ");
                assert(path@[0] < names@.len());
                append_name(&mut s, path[0], names);
            },
            PolicyError::PathCondition { path, condition, prefix } => {
                s.append("Path condition invalidated for prefix ");
                append_decimal(&mut s, prefix.0 as usize);
                s.append(": path: ");
                append_path(&mut s, path, names, " -> ");
                s.append(", condition: ");
                let c = condition.repr_with_name(names);
                s.append(c.as_str());
            },
            PolicyError::UnallowedPathExists { router, prefix, path } => {
                s.append("Router ");
                append_name(&mut s, *router, names);
                s.append(" can reach unallowed prefix ");
                append_decimal(&mut s, prefix.0 as usize);
                s.append(" via path [");
                append_path(&mut s, path, names, ", ");
                s.append("]");
            },
            PolicyError::NotReliable { router, prefix, link_a, link_b } => {
                s.append("Router ");
                append_name(&mut s, *router, names);
                s.append(" cannot reach prefix ");
                append_decimal(&mut s, prefix.0 as usize);
                s.append(" when link [");
                append_name(&mut s, *link_a, names);
                s.append(" -> ");
                append_name(&mut s, *link_b, names);
                s.append("] fails");
            },
            PolicyError::ReliabilityCondition { path, condition, prefix, link_a, link_b } => {
                s.append("Reliability condition ");
                let c = condition.repr_with_name(names);
                s.append(c.as_str());
                s.append(" violated for prefix ");
                append_decimal(&mut s, prefix.0 as usize);
                s.append(" with path ");
                append_path(&mut s, path, names, " -> ");
                s.append(" when link [");
                append_name(&mut s, *link_a, names);
                s.append(" -> ");
                append_name(&mut s, *link_b, names);
                s.append("] fails");
            },
            PolicyError::NoConvergence => {
                s.append("No Convergence");
            },
            PolicyError::TransientBehavior { router, prefix, condition } => {
                s.append("Transient behavior of router ");
                append_name(&mut s, *router, names);
                s.append(" for prefix ");
                append_decimal(&mut s, prefix.0 as usize);
                s.append(" may be violated! condition: ");
                let c = condition.repr_with_name(names);
                s.append(c.as_str());
            },
        }
        assert(s@ =~= self.written(nv));
        s
    }
}

/// The strings, separated by `sep`.
pub(crate) fn join_strings(items: &Vec<String>, sep: &str) -> (s: String)
    ensures
        s@ == items_joined(items@.map_values(|x: String| x@), sep@, items@.len()),
{
    let ghost v = items@.map_values(|x: String| x@);
    let mut s = String::new();
    assert(s@ =~= items_joined(v, sep@, 0));
    let mut k: usize = 0;
    while k < items.len()
        invariant
            k <= items@.len(),
            v == items@.map_values(|x: String| x@),
            s@ == items_joined(v, sep@, k as nat),
        decreases items@.len() - k,
    {
        if k > 0 {
            s.append(sep);
        }
        s.append(items[k].as_str());
        assert(s@ =~= items_joined(v, sep@, (k + 1) as nat));
        k += 1;
    }
    s
}

impl PathCondition {
    /// Whether every router that the condition names is below `n`.
    #[verifier::loop_isolation(false)]
    pub(crate) fn has_routers_below(&self, n: usize) -> (r: bool)
        ensures
            r == self.routers_below(n as nat),
        decreases self, 1nat,
    {
        match self {
            PathCondition::Node(x) => (*x as usize) < n,
            PathCondition::Edge(a, b) => (*a as usize) < n && (*b as usize) < n,
            PathCondition::And(v) => {
                proof {
                    assert(decreases_to!(self => self->And_0));
                }
                conditions_below(v, n)
            },
            PathCondition::Or(v) => {
                proof {
                    assert(decreases_to!(self => self->Or_0));
                }
                conditions_below(v, n)
            },
            PathCondition::Not(c) => c.has_routers_below(n),
            PathCondition::Positional(v) => {
                let mut k: usize = 0;
                while k < v.len()
                    invariant
                        k <= v@.len(),
                        forall|j: int| 0 <= j < k ==> (#[trigger] v@[j] matches Waypoint::Fix(x) ==> x < n),
                    decreases v@.len() - k,
                {
                    match v[k] {
                        Waypoint::Fix(x) => {
                            if (x as usize) >= n {
                                assert(v@[k as int] == Waypoint::Fix(x));
                                return false;
                            }
                        },
                        _ => {},
                    }
                    k += 1;
                }
                true
            },
        }
    }
}

/// Whether every router that the conditions name is below `n`.
#[verifier::loop_isolation(false)]
fn conditions_below(v: &Vec<PathCondition>, n: usize) -> (r: bool)
    ensures
        r == forall|j: int| 0 <= j < v@.len() ==> (#[trigger] v@[j]).routers_below(n as nat),
    decreases v, 0nat,
{
    let mut k: usize = 0;
    while k < v.len()
        invariant
            k <= v@.len(),
            forall|j: int| 0 <= j < k ==> (#[trigger] v@[j]).routers_below(n as nat),
        decreases v@.len() - k,
    {
        proof {
            assert(decreases_to!(v => v@[k as int]));
        }
        if !v[k].has_routers_below(n) {
            return false;
        }
        k += 1;
    }
    true
}

impl Condition {
    /// Whether every router that the condition names is below `n`.
    pub(crate) fn has_names(&self, n: usize) -> (r: bool)
        ensures
            r == self.named(Some(Seq::new(n as nat, |i: int| Seq::<char>::empty()))),
    {
        let ghost names = Seq::new(n as nat, |i: int| Seq::<char>::empty());
        match self {
            Condition::Reachable(r, _, Some(c)) => (*r as usize) < n && c.has_routers_below(n),
            Condition::Reliable(r, _, Some(c)) => (*r as usize) < n && c.has_routers_below(n),
            Condition::Reachable(r, _, None) => (*r as usize) < n,
            Condition::Reliable(r, _, None) => (*r as usize) < n,
            Condition::NotReachable(r, _) => (*r as usize) < n,
            Condition::TransientPath(r, _, _) => (*r as usize) < n,
        }
    }
}

} // verus!
