//! What a bounded search explores, as mathematics: nodes, the routes that
//! a bound admits from a node, and the ranks that overrun the bound.

use crate::algorithms::{
    NonUniformProblem, ScalarCost, WeightedAction,
};
use vstd::prelude::*;

verus! {

/// A place in the search: the states from the start to the current one,
/// and what the actions between them have cost.
pub struct Node<V> {
    pub trail: Seq<V>,
    pub spent: nat,
}

impl<V> Node<V> {
    /// The state that the node has come to.
    pub open spec fn here(self) -> V {
        self.trail.last()
    }
}

/// The node from which a search of `v` starts.
pub open spec fn root<V>(v: V) -> Node<V> {
    Node { trail: seq![v], spent: 0 }
}

/// The node that `wa` leads to from `n`.
pub open spec fn step<A, C: ScalarCost, S: NonUniformProblem<A, C>>(
    n: Node<S::V>,
    wa: WeightedAction<A, C>,
) -> Node<S::V> {
    Node {
        trail: n.trail.push(S::after(n.here(), wa.action)),
        spent: n.spent + wa.cost.value(),
    }
}

/// The search takes `v` for one of the states of `trail`.
pub open spec fn revisits<A, C: ScalarCost, S: NonUniformProblem<A, C>>(
    trail: Seq<S::V>,
    v: S::V,
) -> bool {
    exists|i: int| 0 <= i < trail.len() && S::same(#[trigger] trail[i], v)
}

/// No state of `trail` is taken for an earlier one.
pub open spec fn no_repeats<A, C: ScalarCost, S: NonUniformProblem<A, C>>(
    trail: Seq<S::V>,
) -> bool {
    forall|i: int, j: int|
        0 <= i < j < trail.len() ==> !S::same(#[trigger] trail[i], #[trigger] trail[j])
}

/// What the node that `wa` leads to is ranked by: what it has cost to get
/// there, and what is estimated to remain.
pub open spec fn rank<A, C: ScalarCost, S: NonUniformProblem<A, C>>(
    est: spec_fn(S::V) -> nat,
    n: Node<S::V>,
    wa: WeightedAction<A, C>,
) -> nat {
    n.spent + wa.cost.value() + est(S::after(n.here(), wa.action))
}

/// `wa` is on offer at `n` and leads to a state that is not on the trail.
pub open spec fn opens<A, C: ScalarCost, S: NonUniformProblem<A, C>>(
    n: Node<S::V>,
    wa: WeightedAction<A, C>,
) -> bool {
    S::offers(n.here()).contains(wa) && !revisits::<A, C, S>(
        n.trail,
        S::after(n.here(), wa.action),
    )
}

/// The search under `ceiling` goes from `n` along `wa`.
pub open spec fn admits<A, C: ScalarCost, S: NonUniformProblem<A, C>>(
    est: spec_fn(S::V) -> nat,
    n: Node<S::V>,
    wa: WeightedAction<A, C>,
    ceiling: nat,
) -> bool {
    opens::<A, C, S>(n, wa) && rank::<A, C, S>(est, n, wa) <= ceiling
}

/// The search under `ceiling` would go from `n` along `wa`, but for the
/// rank of where that leads.
pub open spec fn rejects<A, C: ScalarCost, S: NonUniformProblem<A, C>>(
    est: spec_fn(S::V) -> nat,
    n: Node<S::V>,
    wa: WeightedAction<A, C>,
    ceiling: nat,
) -> bool {
    opens::<A, C, S>(n, wa) && rank::<A, C, S>(est, n, wa) > ceiling
}

/// The node that `route` leads to from `n`.
pub open spec fn arrival<A, C: ScalarCost, S: NonUniformProblem<A, C>>(
    n: Node<S::V>,
    route: Seq<WeightedAction<A, C>>,
) -> Node<S::V>
    decreases route.len(),
{
    if route.len() == 0 {
        n
    } else {
        arrival::<A, C, S>(step::<A, C, S>(n, route[0]), route.drop_first())
    }
}

/// Every action of `route` is on offer where it is taken, and none leads
/// back to a state that came before it.
pub open spec fn paces<A, C: ScalarCost, S: NonUniformProblem<A, C>>(
    n: Node<S::V>,
    route: Seq<WeightedAction<A, C>>,
) -> bool
    decreases route.len(),
{
    route.len() == 0 || (opens::<A, C, S>(n, route[0]) && paces::<A, C, S>(
        step::<A, C, S>(n, route[0]),
        route.drop_first(),
    ))
}

/// The search under `ceiling` goes from `n` all along `route`.
pub open spec fn follows<A, C: ScalarCost, S: NonUniformProblem<A, C>>(
    est: spec_fn(S::V) -> nat,
    n: Node<S::V>,
    route: Seq<WeightedAction<A, C>>,
    ceiling: nat,
) -> bool
    decreases route.len(),
{
    route.len() == 0 || (admits::<A, C, S>(est, n, route[0], ceiling) && follows::<A, C, S>(
        est,
        step::<A, C, S>(n, route[0]),
        route.drop_first(),
        ceiling,
    ))
}

/// Every action of `route` is on offer where it is taken, starting at `v`.
pub open spec fn walks<A, C: ScalarCost, S: NonUniformProblem<A, C>>(
    v: S::V,
    route: Seq<WeightedAction<A, C>>,
) -> bool
    decreases route.len(),
{
    route.len() == 0 || (S::offers(v).contains(route[0]) && walks::<A, C, S>(
        S::after(v, route[0].action),
        route.drop_first(),
    ))
}

/// The state that `route` leads to from `v`.
pub open spec fn destination<A, C: ScalarCost, S: NonUniformProblem<A, C>>(
    v: S::V,
    route: Seq<WeightedAction<A, C>>,
) -> S::V
    decreases route.len(),
{
    if route.len() == 0 {
        v
    } else {
        destination::<A, C, S>(S::after(v, route[0].action), route.drop_first())
    }
}

/// What the actions of `route` cost together.
pub open spec fn total<A, C: ScalarCost>(route: Seq<WeightedAction<A, C>>) -> nat
    decreases route.len(),
{
    if route.len() == 0 {
        0
    } else {
        route[0].cost.value() + total(route.drop_first())
    }
}

/// Some route leads from `v` to `w`.
pub open spec fn reachable<A, C: ScalarCost, S: NonUniformProblem<A, C>>(v: S::V, w: S::V) -> bool {
    exists|route: Seq<WeightedAction<A, C>>| #[trigger]
        walks::<A, C, S>(v, route) && destination::<A, C, S>(v, route) == w
}

/// The estimate never exceeds what a route from a valid state to a goal
/// costs.
pub open spec fn admissible<A, C: ScalarCost, S: NonUniformProblem<A, C>>(
    est: spec_fn(S::V) -> nat,
    goal: spec_fn(S::V) -> bool,
) -> bool {
    forall|v: S::V, route: Seq<WeightedAction<A, C>>|
        S::valid(v) && #[trigger] walks::<A, C, S>(v, route) && goal(
            destination::<A, C, S>(v, route),
        ) ==> est(v) <= total(route)
}

/// The search under `ceiling` comes to no goal from `n`.
pub open spec fn barren<A, C: ScalarCost, S: NonUniformProblem<A, C>>(
    est: spec_fn(S::V) -> nat,
    goal: spec_fn(S::V) -> bool,
    n: Node<S::V>,
    ceiling: nat,
) -> bool {
    forall|route: Seq<WeightedAction<A, C>>| #[trigger]
        follows::<A, C, S>(est, n, route, ceiling) ==> !goal(
            arrival::<A, C, S>(n, route).here(),
        )
}

/// Of the actions on offer at `n`, the search takes the one at `j` before
/// the one at `i`: in the order of the offers, or, where it is `strong`,
/// by the estimate for where they lead and then in that order.
pub open spec fn precedes<A, C: ScalarCost, S: NonUniformProblem<A, C>>(
    strong: bool,
    est: spec_fn(S::V) -> nat,
    n: Node<S::V>,
    j: int,
    i: int,
) -> bool {
    let to_j = est(S::after(n.here(), S::offers(n.here())[j].action));
    let to_i = est(S::after(n.here(), S::offers(n.here())[i].action));
    if strong {
        to_j < to_i || (to_j == to_i && j < i)
    } else {
        j < i
    }
}

/// Wherever the search under `ceiling` goes from `n` before it takes the
/// offer at `i`, it comes to no goal.
pub open spec fn barren_before<A, C: ScalarCost, S: NonUniformProblem<A, C>>(
    strong: bool,
    est: spec_fn(S::V) -> nat,
    goal: spec_fn(S::V) -> bool,
    n: Node<S::V>,
    i: int,
    ceiling: nat,
) -> bool {
    forall|j: int|
        0 <= j < S::offers(n.here()).len() && #[trigger] precedes::<A, C, S>(strong, est, n, j, i)
            && admits::<A, C, S>(est, n, S::offers(n.here())[j], ceiling) ==> barren::<A, C, S>(
            est,
            goal,
            step::<A, C, S>(n, S::offers(n.here())[j]),
            ceiling,
        )
}

/// The search under `ceiling` takes `wa` at `n`, after it has come to no
/// goal wherever it went before.
pub open spec fn taken_first<A, C: ScalarCost, S: NonUniformProblem<A, C>>(
    strong: bool,
    est: spec_fn(S::V) -> nat,
    goal: spec_fn(S::V) -> bool,
    n: Node<S::V>,
    wa: WeightedAction<A, C>,
    ceiling: nat,
) -> bool {
    exists|i: int|
        0 <= i < S::offers(n.here()).len() && S::offers(n.here())[i] == wa
            && #[trigger] barren_before::<A, C, S>(strong, est, goal, n, i, ceiling)
}

/// `route` is the way by which the search under `ceiling` first comes to
/// a goal from `n`: it stops at a goal, and from a state that is none it
/// goes on along the first action by which it comes to one.
pub open spec fn leads<A, C: ScalarCost, S: NonUniformProblem<A, C>>(
    strong: bool,
    est: spec_fn(S::V) -> nat,
    goal: spec_fn(S::V) -> bool,
    n: Node<S::V>,
    route: Seq<WeightedAction<A, C>>,
    ceiling: nat,
) -> bool
    decreases route.len(),
{
    if route.len() == 0 {
        goal(n.here())
    } else {
        &&& !goal(n.here())
        &&& admits::<A, C, S>(est, n, route[0], ceiling)
        &&& taken_first::<A, C, S>(strong, est, goal, n, route[0], ceiling)
        &&& leads::<A, C, S>(
            strong,
            est,
            goal,
            step::<A, C, S>(n, route[0]),
            route.drop_first(),
            ceiling,
        )
    }
}

/// The search under `ceiling` goes from `n` along `route` and there
/// rejects `wa`.
pub open spec fn strays<A, C: ScalarCost, S: NonUniformProblem<A, C>>(
    est: spec_fn(S::V) -> nat,
    n: Node<S::V>,
    route: Seq<WeightedAction<A, C>>,
    wa: WeightedAction<A, C>,
    ceiling: nat,
) -> bool {
    follows::<A, C, S>(est, n, route, ceiling) && rejects::<A, C, S>(
        est,
        arrival::<A, C, S>(n, route),
        wa,
        ceiling,
    )
}

/// `f` is the rank of a node that the search from `n` rejects for
/// `ceiling`.
pub open spec fn overruns<A, C: ScalarCost, S: NonUniformProblem<A, C>>(
    est: spec_fn(S::V) -> nat,
    n: Node<S::V>,
    ceiling: nat,
    f: nat,
) -> bool {
    exists|route: Seq<WeightedAction<A, C>>, wa: WeightedAction<A, C>| #[trigger]
        strays::<A, C, S>(est, n, route, wa, ceiling) && rank::<A, C, S>(
            est,
            arrival::<A, C, S>(n, route),
            wa,
        ) == f
}

/// The next bound and the overflow mark account for a rejected rank `f`:
/// the next bound is no greater, or `f` is beyond the limit of the cost
/// and the mark is set.
pub open spec fn covers<C: ScalarCost>(next: Option<C>, overflowed: bool, f: nat) -> bool {
    if f <= C::limit() {
        next matches Some(c) && c.value() <= f
    } else {
        overflowed
    }
}

/// The next bound and the overflow mark account for every rank that the
/// search from `n` rejects for `ceiling`.
pub open spec fn fenced<A, C: ScalarCost, S: NonUniformProblem<A, C>>(
    est: spec_fn(S::V) -> nat,
    n: Node<S::V>,
    ceiling: nat,
    next: Option<C>,
    overflowed: bool,
) -> bool {
    forall|f: nat| #[trigger]
        overruns::<A, C, S>(est, n, ceiling, f) ==> covers(next, overflowed, f)
}

/// The next bound has not got worse and the overflow mark has not been
/// cleared.
pub open spec fn eases<C: ScalarCost>(
    next: Option<C>,
    overflowed: bool,
    next2: Option<C>,
    overflowed2: bool,
) -> bool {
    &&& next matches Some(b) ==> next2 matches Some(c) && c.value() <= b.value()
    &&& overflowed ==> overflowed2
}

/// How the next bound and the overflow mark may change while the search
/// is below `n`: the bound only to a rank that was rejected there, the
/// mark only for a rank beyond the limit of the cost.
pub open spec fn tightened<A, C: ScalarCost, S: NonUniformProblem<A, C>>(
    est: spec_fn(S::V) -> nat,
    n: Node<S::V>,
    ceiling: nat,
    next: Option<C>,
    overflowed: bool,
    next2: Option<C>,
    overflowed2: bool,
) -> bool {
    &&& eases(next, overflowed, next2, overflowed2)
    &&& next2 == next || (next2 matches Some(c) && overruns::<A, C, S>(
        est,
        n,
        ceiling,
        c.value(),
    ))
    &&& overflowed2 == overflowed || exists|f: nat|
        f > C::limit() && #[trigger] overruns::<A, C, S>(est, n, ceiling, f)
}

/// The search under `ceiling` is done with `wa` at `n`: where it went
/// along, it came to no goal and every rejected rank is accounted for;
/// where it rejected `wa`, that rank is accounted for.
pub open spec fn settled<A, C: ScalarCost, S: NonUniformProblem<A, C>>(
    est: spec_fn(S::V) -> nat,
    goal: spec_fn(S::V) -> bool,
    n: Node<S::V>,
    ceiling: nat,
    wa: WeightedAction<A, C>,
    next: Option<C>,
    overflowed: bool,
) -> bool {
    &&& admits::<A, C, S>(est, n, wa, ceiling) ==> barren::<A, C, S>(
        est,
        goal,
        step::<A, C, S>(n, wa),
        ceiling,
    ) && fenced::<A, C, S>(est, step::<A, C, S>(n, wa), ceiling, next, overflowed)
    &&& rejects::<A, C, S>(est, n, wa, ceiling) ==> covers(
        next,
        overflowed,
        rank::<A, C, S>(est, n, wa),
    )
}

/// A route that a bound admits is admitted by every greater bound.
pub proof fn lemma_follows_eases<A, C: ScalarCost, S: NonUniformProblem<A, C>>(
    est: spec_fn(S::V) -> nat,
    n: Node<S::V>,
    route: Seq<WeightedAction<A, C>>,
    ceiling: nat,
    ceiling2: nat,
)
    requires
        follows::<A, C, S>(est, n, route, ceiling),
        ceiling <= ceiling2,
    ensures
        follows::<A, C, S>(est, n, route, ceiling2),
    decreases route.len(),
{
    if route.len() > 0 {
        lemma_follows_eases::<A, C, S>(
            est,
            step::<A, C, S>(n, route[0]),
            route.drop_first(),
            ceiling,
            ceiling2,
        );
    }
}

/// A greater bound prunes less: what it rejects, a smaller one rejects
/// too, and it rejects nothing whose rank it reaches.
pub proof fn lemma_higher_bound_prunes_less<A, C: ScalarCost, S: NonUniformProblem<A, C>>(
    est: spec_fn(S::V) -> nat,
    n: Node<S::V>,
    wa: WeightedAction<A, C>,
    ceiling: nat,
    ceiling2: nat,
)
    requires
        ceiling <= ceiling2,
    ensures
        rejects::<A, C, S>(est, n, wa, ceiling2) ==> rejects::<A, C, S>(est, n, wa, ceiling),
        admits::<A, C, S>(est, n, wa, ceiling) ==> admits::<A, C, S>(est, n, wa, ceiling2),
        rank::<A, C, S>(est, n, wa) <= ceiling2 ==> !rejects::<A, C, S>(est, n, wa, ceiling2),
{
}

/// A route that the search follows is on offer all along, never comes
/// back to a state, costs what its actions cost, and ends where they
/// lead.
pub proof fn lemma_paced_arrival<A, C: ScalarCost, S: NonUniformProblem<A, C>>(
    n: Node<S::V>,
    route: Seq<WeightedAction<A, C>>,
)
    requires
        n.trail.len() > 0,
        paces::<A, C, S>(n, route),
    ensures
        walks::<A, C, S>(n.here(), route),
        arrival::<A, C, S>(n, route).here() == destination::<A, C, S>(n.here(), route),
        arrival::<A, C, S>(n, route).spent == n.spent + total(route),
        arrival::<A, C, S>(n, route).trail.len() == n.trail.len() + route.len(),
    decreases route.len(),
{
    if route.len() > 0 {
        lemma_paced_arrival::<A, C, S>(step::<A, C, S>(n, route[0]), route.drop_first());
    }
}

/// The search follows only routes that never come back to a state.
pub proof fn lemma_followed_is_paced<A, C: ScalarCost, S: NonUniformProblem<A, C>>(
    est: spec_fn(S::V) -> nat,
    n: Node<S::V>,
    route: Seq<WeightedAction<A, C>>,
    ceiling: nat,
)
    requires
        follows::<A, C, S>(est, n, route, ceiling),
    ensures
        paces::<A, C, S>(n, route),
    decreases route.len(),
{
    if route.len() > 0 {
        lemma_followed_is_paced::<A, C, S>(
            est,
            step::<A, C, S>(n, route[0]),
            route.drop_first(),
            ceiling,
        );
    }
}

/// Along a route that never comes back to a state, a trail without
/// repeats stays without repeats: no state is expanded twice on one
/// branch.
pub proof fn lemma_paced_trail_has_no_repeats<A, C: ScalarCost, S: NonUniformProblem<A, C>>(
    n: Node<S::V>,
    route: Seq<WeightedAction<A, C>>,
)
    requires
        no_repeats::<A, C, S>(n.trail),
        paces::<A, C, S>(n, route),
    ensures
        no_repeats::<A, C, S>(arrival::<A, C, S>(n, route).trail),
    decreases route.len(),
{
    if route.len() > 0 {
        let m = step::<A, C, S>(n, route[0]);
        assert forall|i: int, j: int| 0 <= i < j < m.trail.len() implies !S::same(
            #[trigger] m.trail[i],
            #[trigger] m.trail[j],
        ) by {
            if j == n.trail.len() {
                assert(m.trail[i] == n.trail[i]);
            } else {
                assert(m.trail[i] == n.trail[i]);
                assert(m.trail[j] == n.trail[j]);
            }
        }
        lemma_paced_trail_has_no_repeats::<A, C, S>(m, route.drop_first());
    }
}

/// A route that the search follows costs no more than the bound, unless
/// it is empty and started beyond it.
pub proof fn lemma_followed_cost_within<A, C: ScalarCost, S: NonUniformProblem<A, C>>(
    est: spec_fn(S::V) -> nat,
    n: Node<S::V>,
    route: Seq<WeightedAction<A, C>>,
    ceiling: nat,
)
    requires
        follows::<A, C, S>(est, n, route, ceiling),
        n.spent <= ceiling || route.len() > 0,
    ensures
        arrival::<A, C, S>(n, route).spent <= ceiling,
    decreases route.len(),
{
    if route.len() > 0 {
        lemma_followed_cost_within::<A, C, S>(
            est,
            step::<A, C, S>(n, route[0]),
            route.drop_first(),
            ceiling,
        );
    }
}

/// What the search goes along first comes before the route that it
/// follows from there.
pub proof fn lemma_follows_from_step<A, C: ScalarCost, S: NonUniformProblem<A, C>>(
    est: spec_fn(S::V) -> nat,
    n: Node<S::V>,
    wa: WeightedAction<A, C>,
    route: Seq<WeightedAction<A, C>>,
    ceiling: nat,
)
    requires
        admits::<A, C, S>(est, n, wa, ceiling),
        follows::<A, C, S>(est, step::<A, C, S>(n, wa), route, ceiling),
    ensures
        follows::<A, C, S>(est, n, seq![wa] + route, ceiling),
        arrival::<A, C, S>(n, seq![wa] + route) == arrival::<A, C, S>(
            step::<A, C, S>(n, wa),
            route,
        ),
{
    let whole = seq![wa] + route;
    assert(whole[0] == wa);
    assert(whole.drop_first() =~= route);
}

/// A rank that is rejected below where the search goes is rejected below
/// where it comes from.
pub proof fn lemma_overrun_lifts<A, C: ScalarCost, S: NonUniformProblem<A, C>>(
    est: spec_fn(S::V) -> nat,
    n: Node<S::V>,
    wa: WeightedAction<A, C>,
    ceiling: nat,
    f: nat,
)
    requires
        admits::<A, C, S>(est, n, wa, ceiling),
        overruns::<A, C, S>(est, step::<A, C, S>(n, wa), ceiling, f),
    ensures
        overruns::<A, C, S>(est, n, ceiling, f),
{
    let m = step::<A, C, S>(n, wa);
    let (route, wb) = choose|route: Seq<WeightedAction<A, C>>, wb: WeightedAction<A, C>| #[trigger]
        strays::<A, C, S>(est, m, route, wb, ceiling) && rank::<A, C, S>(
            est,
            arrival::<A, C, S>(m, route),
            wb,
        ) == f;
    lemma_follows_from_step::<A, C, S>(est, n, wa, route, ceiling);
    assert(strays::<A, C, S>(est, n, seq![wa] + route, wb, ceiling));
}

/// The rank of what the search rejects at a node is rejected from that
/// node.
pub proof fn lemma_rejected_overruns<A, C: ScalarCost, S: NonUniformProblem<A, C>>(
    est: spec_fn(S::V) -> nat,
    n: Node<S::V>,
    wa: WeightedAction<A, C>,
    ceiling: nat,
)
    requires
        rejects::<A, C, S>(est, n, wa, ceiling),
    ensures
        overruns::<A, C, S>(est, n, ceiling, rank::<A, C, S>(est, n, wa)),
{
    let route = Seq::<WeightedAction<A, C>>::empty();
    assert(strays::<A, C, S>(est, n, route, wa, ceiling));
}

/// Once the search is done with everything on offer at a node that is no
/// goal, it has come to no goal from that node, and every rank rejected
/// from it is accounted for.
pub proof fn lemma_node_is_settled<A, C: ScalarCost, S: NonUniformProblem<A, C>>(
    est: spec_fn(S::V) -> nat,
    goal: spec_fn(S::V) -> bool,
    n: Node<S::V>,
    ceiling: nat,
    next: Option<C>,
    overflowed: bool,
)
    requires
        !goal(n.here()),
        forall|wa: WeightedAction<A, C>| #[trigger]
            S::offers(n.here()).contains(wa) ==> settled::<A, C, S>(
                est,
                goal,
                n,
                ceiling,
                wa,
                next,
                overflowed,
            ),
    ensures
        barren::<A, C, S>(est, goal, n, ceiling),
        fenced::<A, C, S>(est, n, ceiling, next, overflowed),
{
    assert forall|route: Seq<WeightedAction<A, C>>| #[trigger]
        follows::<A, C, S>(est, n, route, ceiling) implies !goal(
        arrival::<A, C, S>(n, route).here(),
    ) by {
        if route.len() > 0 {
            let m = step::<A, C, S>(n, route[0]);
            assert(S::offers(n.here()).contains(route[0]));
            assert(follows::<A, C, S>(est, m, route.drop_first(), ceiling));
        }
    }
    assert forall|f: nat| #[trigger] overruns::<A, C, S>(est, n, ceiling, f) implies covers(
        next,
        overflowed,
        f,
    ) by {
        let (route, wb) = choose|route: Seq<WeightedAction<A, C>>, wb: WeightedAction<A, C>|
         #[trigger]
            strays::<A, C, S>(est, n, route, wb, ceiling) && rank::<A, C, S>(
                est,
                arrival::<A, C, S>(n, route),
                wb,
            ) == f;
        if route.len() > 0 {
            let m = step::<A, C, S>(n, route[0]);
            assert(S::offers(n.here()).contains(route[0]));
            assert(strays::<A, C, S>(est, m, route.drop_first(), wb, ceiling));
            assert(overruns::<A, C, S>(est, m, ceiling, f));
        } else {
            assert(S::offers(n.here()).contains(wb));
        }
    }
}

/// What was accounted for stays accounted for while the next bound gets
/// no worse and the overflow mark is not cleared.
pub proof fn lemma_settled_eases<A, C: ScalarCost, S: NonUniformProblem<A, C>>(
    est: spec_fn(S::V) -> nat,
    goal: spec_fn(S::V) -> bool,
    n: Node<S::V>,
    ceiling: nat,
    wa: WeightedAction<A, C>,
    next: Option<C>,
    overflowed: bool,
    next2: Option<C>,
    overflowed2: bool,
)
    requires
        settled::<A, C, S>(est, goal, n, ceiling, wa, next, overflowed),
        eases(next, overflowed, next2, overflowed2),
    ensures
        settled::<A, C, S>(est, goal, n, ceiling, wa, next2, overflowed2),
{
    if admits::<A, C, S>(est, n, wa, ceiling) {
        let m = step::<A, C, S>(n, wa);
        assert forall|f: nat| #[trigger] overruns::<A, C, S>(est, m, ceiling, f) implies covers(
            next2,
            overflowed2,
            f,
        ) by {
            assert(covers(next, overflowed, f));
        }
    }
}

/// What happened to the next bound and the overflow mark below where the
/// search went happened below where it came from.
pub proof fn lemma_tightened_lifts<A, C: ScalarCost, S: NonUniformProblem<A, C>>(
    est: spec_fn(S::V) -> nat,
    n: Node<S::V>,
    wa: WeightedAction<A, C>,
    ceiling: nat,
    next: Option<C>,
    overflowed: bool,
    next2: Option<C>,
    overflowed2: bool,
)
    requires
        admits::<A, C, S>(est, n, wa, ceiling),
        tightened::<A, C, S>(
            est,
            step::<A, C, S>(n, wa),
            ceiling,
            next,
            overflowed,
            next2,
            overflowed2,
        ),
    ensures
        tightened::<A, C, S>(est, n, ceiling, next, overflowed, next2, overflowed2),
{
    let m = step::<A, C, S>(n, wa);
    if next2 != next {
        lemma_overrun_lifts::<A, C, S>(est, n, wa, ceiling, next2->0.value());
    }
    if overflowed2 != overflowed {
        let f = choose|f: nat|
            f > C::limit() && #[trigger] overruns::<A, C, S>(est, m, ceiling, f);
        lemma_overrun_lifts::<A, C, S>(est, n, wa, ceiling, f);
    }
}

/// Changes to the next bound and the overflow mark add up.
pub proof fn lemma_tightened_twice<A, C: ScalarCost, S: NonUniformProblem<A, C>>(
    est: spec_fn(S::V) -> nat,
    n: Node<S::V>,
    ceiling: nat,
    next: Option<C>,
    overflowed: bool,
    next2: Option<C>,
    overflowed2: bool,
    next3: Option<C>,
    overflowed3: bool,
)
    requires
        tightened::<A, C, S>(est, n, ceiling, next, overflowed, next2, overflowed2),
        tightened::<A, C, S>(est, n, ceiling, next2, overflowed2, next3, overflowed3),
    ensures
        tightened::<A, C, S>(est, n, ceiling, next, overflowed, next3, overflowed3),
{
}

/// Where every rank that a bound rejects is beyond a greater bound, the
/// smaller bound admits every route that the greater one admits.
pub proof fn lemma_follows_under_fence<A, C: ScalarCost, S: NonUniformProblem<A, C>>(
    est: spec_fn(S::V) -> nat,
    n: Node<S::V>,
    route: Seq<WeightedAction<A, C>>,
    ceiling: nat,
    ceiling2: nat,
)
    requires
        forall|f: nat| #[trigger] overruns::<A, C, S>(est, n, ceiling, f) ==> f > ceiling2,
        follows::<A, C, S>(est, n, route, ceiling2),
    ensures
        follows::<A, C, S>(est, n, route, ceiling),
    decreases route.len(),
{
    if route.len() > 0 {
        let wa = route[0];
        let m = step::<A, C, S>(n, wa);
        if rank::<A, C, S>(est, n, wa) > ceiling {
            lemma_rejected_overruns::<A, C, S>(est, n, wa, ceiling);
        }
        assert forall|f: nat| #[trigger]
            overruns::<A, C, S>(est, m, ceiling, f) implies f > ceiling2 by {
            lemma_overrun_lifts::<A, C, S>(est, n, wa, ceiling, f);
        }
        lemma_follows_under_fence::<A, C, S>(est, m, route.drop_first(), ceiling, ceiling2);
    }
}

/// Under an admissible estimate, a route to a goal that the bound does
/// not admit has a rank rejected on it that is no more than its cost.
pub proof fn lemma_missed_goal_overruns<A, C: ScalarCost, S: NonUniformProblem<A, C>>(
    est: spec_fn(S::V) -> nat,
    goal: spec_fn(S::V) -> bool,
    n: Node<S::V>,
    route: Seq<WeightedAction<A, C>>,
    ceiling: nat,
) -> (f: nat)
    requires
        admissible::<A, C, S>(est, goal),
        n.trail.len() > 0,
        S::valid(n.here()),
        paces::<A, C, S>(n, route),
        goal(arrival::<A, C, S>(n, route).here()),
        !follows::<A, C, S>(est, n, route, ceiling),
    ensures
        overruns::<A, C, S>(est, n, ceiling, f),
        f <= arrival::<A, C, S>(n, route).spent,
    decreases route.len(),
{
    let wa = route[0];
    let m = step::<A, C, S>(n, wa);
    let rest = route.drop_first();
    let i = choose|i: int| 0 <= i < S::offers(n.here()).len() && S::offers(n.here())[i] == wa;
    S::lemma_offers_are_enabled(n.here(), i);
    S::lemma_after_is_valid(n.here(), wa.action);
    lemma_paced_arrival::<A, C, S>(m, rest);
    if rank::<A, C, S>(est, n, wa) > ceiling {
        lemma_rejected_overruns::<A, C, S>(est, n, wa, ceiling);
        assert(walks::<A, C, S>(m.here(), rest));
        rank::<A, C, S>(est, n, wa)
    } else {
        let f = lemma_missed_goal_overruns::<A, C, S>(est, goal, m, rest, ceiling);
        lemma_overrun_lifts::<A, C, S>(est, n, wa, ceiling, f);
        f
    }
}

/// What can be reached from where an action on offer leads can be reached
/// from where it is taken.
pub proof fn lemma_reachable_through<A, C: ScalarCost, S: NonUniformProblem<A, C>>(
    v: S::V,
    wa: WeightedAction<A, C>,
    w: S::V,
)
    requires
        S::offers(v).contains(wa),
        reachable::<A, C, S>(S::after(v, wa.action), w),
    ensures
        reachable::<A, C, S>(v, w),
{
    let u = S::after(v, wa.action);
    let route = choose|route: Seq<WeightedAction<A, C>>| #[trigger]
        walks::<A, C, S>(u, route) && destination::<A, C, S>(u, route) == w;
    let whole = seq![wa] + route;
    assert(whole[0] == wa);
    assert(whole.drop_first() =~= route);
    assert(walks::<A, C, S>(v, whole));
}

/// Every state can be reached from itself.
pub proof fn lemma_reachable_from_itself<A, C: ScalarCost, S: NonUniformProblem<A, C>>(v: S::V)
    ensures
        reachable::<A, C, S>(v, v),
{
    assert(walks::<A, C, S>(v, Seq::<WeightedAction<A, C>>::empty()));
}


/// A rank that is rejected for a bound is beyond the bound.
pub proof fn lemma_overrun_is_beyond<A, C: ScalarCost, S: NonUniformProblem<A, C>>(
    est: spec_fn(S::V) -> nat,
    n: Node<S::V>,
    ceiling: nat,
    f: nat,
)
    requires
        overruns::<A, C, S>(est, n, ceiling, f),
    ensures
        f > ceiling,
{
}

/// Where every rank that a bound rejects is beyond a greater bound, and
/// the smaller bound comes to no goal, the greater comes to none either.
pub proof fn lemma_barren_under_fence<A, C: ScalarCost, S: NonUniformProblem<A, C>>(
    est: spec_fn(S::V) -> nat,
    goal: spec_fn(S::V) -> bool,
    n: Node<S::V>,
    ceiling: nat,
    ceiling2: nat,
)
    requires
        barren::<A, C, S>(est, goal, n, ceiling),
        forall|f: nat| #[trigger] overruns::<A, C, S>(est, n, ceiling, f) ==> f > ceiling2,
    ensures
        barren::<A, C, S>(est, goal, n, ceiling2),
{
    assert forall|route: Seq<WeightedAction<A, C>>| #[trigger]
        follows::<A, C, S>(est, n, route, ceiling2) implies !goal(
        arrival::<A, C, S>(n, route).here(),
    ) by {
        lemma_follows_under_fence::<A, C, S>(est, n, route, ceiling, ceiling2);
    }
}

/// Where every rank that a bound rejects is beyond a greater bound, the
/// two bounds reject the same ranks.
pub proof fn lemma_overruns_under_fence<A, C: ScalarCost, S: NonUniformProblem<A, C>>(
    est: spec_fn(S::V) -> nat,
    n: Node<S::V>,
    ceiling: nat,
    ceiling2: nat,
    f: nat,
)
    requires
        ceiling <= ceiling2,
        forall|g: nat| #[trigger] overruns::<A, C, S>(est, n, ceiling, g) ==> g > ceiling2,
    ensures
        overruns::<A, C, S>(est, n, ceiling, f) == overruns::<A, C, S>(est, n, ceiling2, f),
{
    if overruns::<A, C, S>(est, n, ceiling, f) {
        let (route, wa) = choose|route: Seq<WeightedAction<A, C>>, wa: WeightedAction<A, C>|
         #[trigger]
            strays::<A, C, S>(est, n, route, wa, ceiling) && rank::<A, C, S>(
                est,
                arrival::<A, C, S>(n, route),
                wa,
            ) == f;
        lemma_follows_eases::<A, C, S>(est, n, route, ceiling, ceiling2);
        assert(strays::<A, C, S>(est, n, route, wa, ceiling2));
    }
    if overruns::<A, C, S>(est, n, ceiling2, f) {
        let (route, wa) = choose|route: Seq<WeightedAction<A, C>>, wa: WeightedAction<A, C>|
         #[trigger]
            strays::<A, C, S>(est, n, route, wa, ceiling2) && rank::<A, C, S>(
                est,
                arrival::<A, C, S>(n, route),
                wa,
            ) == f;
        lemma_follows_under_fence::<A, C, S>(est, n, route, ceiling, ceiling2);
        assert(strays::<A, C, S>(est, n, route, wa, ceiling));
    }
}

/// Where a bound rejects nothing, the search goes along every route that
/// never comes back to a state.
pub proof fn lemma_paced_is_followed<A, C: ScalarCost, S: NonUniformProblem<A, C>>(
    est: spec_fn(S::V) -> nat,
    n: Node<S::V>,
    route: Seq<WeightedAction<A, C>>,
    ceiling: nat,
)
    requires
        forall|f: nat| !#[trigger] overruns::<A, C, S>(est, n, ceiling, f),
        paces::<A, C, S>(n, route),
    ensures
        follows::<A, C, S>(est, n, route, ceiling),
    decreases route.len(),
{
    if route.len() > 0 {
        let wa = route[0];
        let m = step::<A, C, S>(n, wa);
        if rank::<A, C, S>(est, n, wa) > ceiling {
            lemma_rejected_overruns::<A, C, S>(est, n, wa, ceiling);
        }
        assert forall|f: nat| !#[trigger] overruns::<A, C, S>(est, m, ceiling, f) by {
            if overruns::<A, C, S>(est, m, ceiling, f) {
                lemma_overrun_lifts::<A, C, S>(est, n, wa, ceiling, f);
            }
        }
        lemma_paced_is_followed::<A, C, S>(est, m, route.drop_first(), ceiling);
    }
}

/// Among the valid states that can be reached from `v`, the search takes
/// no two different ones for the same.
pub open spec fn faithful<A, C: ScalarCost, S: NonUniformProblem<A, C>>(v: S::V) -> bool {
    forall|u: S::V, w: S::V|
        reachable::<A, C, S>(v, u) && reachable::<A, C, S>(v, w) && #[trigger] S::same(u, w) ==> u
            == w
}

/// What is faithful at a state is faithful where an action on offer
/// leads.
pub proof fn lemma_faithful_through<A, C: ScalarCost, S: NonUniformProblem<A, C>>(
    v: S::V,
    wa: WeightedAction<A, C>,
)
    requires
        faithful::<A, C, S>(v),
        S::offers(v).contains(wa),
    ensures
        faithful::<A, C, S>(S::after(v, wa.action)),
{
    let x = S::after(v, wa.action);
    assert forall|u: S::V, w: S::V|
        reachable::<A, C, S>(x, u) && reachable::<A, C, S>(x, w) && #[trigger] S::same(
            u,
            w,
        ) implies u == w by {
        lemma_reachable_through::<A, C, S>(v, wa, u);
        lemma_reachable_through::<A, C, S>(v, wa, w);
    }
}

/// A route keeps the trail that it starts with.
pub proof fn lemma_arrival_keeps_trail<A, C: ScalarCost, S: NonUniformProblem<A, C>>(
    n: Node<S::V>,
    route: Seq<WeightedAction<A, C>>,
    i: int,
)
    requires
        0 <= i < n.trail.len(),
    ensures
        arrival::<A, C, S>(n, route).trail.len() == n.trail.len() + route.len(),
        arrival::<A, C, S>(n, route).trail[i] == n.trail[i],
    decreases route.len(),
{
    if route.len() > 0 {
        lemma_arrival_keeps_trail::<A, C, S>(step::<A, C, S>(n, route[0]), route.drop_first(), i);
    }
}

/// Every state on the trail of a route on offer can be reached from where
/// the route starts, and is valid if that is.
pub proof fn lemma_trail_is_reachable<A, C: ScalarCost, S: NonUniformProblem<A, C>>(
    n: Node<S::V>,
    route: Seq<WeightedAction<A, C>>,
    j: int,
)
    requires
        n.trail.len() > 0,
        paces::<A, C, S>(n, route),
        n.trail.len() - 1 <= j < arrival::<A, C, S>(n, route).trail.len(),
    ensures
        reachable::<A, C, S>(n.here(), arrival::<A, C, S>(n, route).trail[j]),
    decreases route.len(),
{
    lemma_arrival_keeps_trail::<A, C, S>(n, route, n.trail.len() - 1);
    if j == n.trail.len() - 1 {
        lemma_reachable_from_itself::<A, C, S>(n.here());
    } else {
        let m = step::<A, C, S>(n, route[0]);
        lemma_trail_is_reachable::<A, C, S>(m, route.drop_first(), j);
        lemma_reachable_through::<A, C, S>(
            n.here(),
            route[0],
            arrival::<A, C, S>(n, route).trail[j],
        );
    }
}

/// A route that never comes back to a state never does so either when it
/// starts with fewer states behind it.
pub proof fn lemma_paces_with_less_behind<A, C: ScalarCost, S: NonUniformProblem<A, C>>(
    n: Node<S::V>,
    route: Seq<WeightedAction<A, C>>,
    k: int,
    spent: nat,
)
    requires
        0 <= k < n.trail.len(),
        paces::<A, C, S>(n, route),
    ensures
        paces::<A, C, S>(Node { trail: n.trail.skip(k), spent }, route),
        arrival::<A, C, S>(Node { trail: n.trail.skip(k), spent }, route).here() == arrival::<
            A,
            C,
            S,
        >(n, route).here(),
        arrival::<A, C, S>(Node { trail: n.trail.skip(k), spent }, route).spent == spent + total(
            route,
        ),
    decreases route.len(),
{
    let less = Node { trail: n.trail.skip(k), spent };
    assert(less.here() == n.here());
    if route.len() > 0 {
        let wa = route[0];
        let x = S::after(n.here(), wa.action);
        if revisits::<A, C, S>(less.trail, x) {
            let i = choose|i: int|
                0 <= i < less.trail.len() && S::same(#[trigger] less.trail[i], x);
            assert(S::same(n.trail[i + k], x));
        }
        let m = step::<A, C, S>(n, wa);
        assert(step::<A, C, S>(less, wa).trail =~= m.trail.skip(k));
        lemma_paces_with_less_behind::<A, C, S>(
            m,
            route.drop_first(),
            k,
            spent + wa.cost.value(),
        );
    }
}

/// A route that never comes back to a state never does so either when it
/// starts with one more state behind it, which it does not come to.
pub proof fn lemma_paces_with_more_behind<A, C: ScalarCost, S: NonUniformProblem<A, C>>(
    n: Node<S::V>,
    route: Seq<WeightedAction<A, C>>,
    v: S::V,
    spent: nat,
)
    requires
        n.trail.len() > 0,
        paces::<A, C, S>(n, route),
        forall|j: int|
            n.trail.len() <= j < arrival::<A, C, S>(n, route).trail.len() ==> !S::same(
                v,
                #[trigger] arrival::<A, C, S>(n, route).trail[j],
            ),
    ensures
        paces::<A, C, S>(Node { trail: seq![v] + n.trail, spent }, route),
        arrival::<A, C, S>(Node { trail: seq![v] + n.trail, spent }, route).here() == arrival::<
            A,
            C,
            S,
        >(n, route).here(),
        arrival::<A, C, S>(Node { trail: seq![v] + n.trail, spent }, route).spent == spent
            + total(route),
    decreases route.len(),
{
    let more = Node { trail: seq![v] + n.trail, spent };
    assert(more.here() == n.here());
    if route.len() > 0 {
        let wa = route[0];
        let x = S::after(n.here(), wa.action);
        let m = step::<A, C, S>(n, wa);
        let rest = route.drop_first();
        lemma_arrival_keeps_trail::<A, C, S>(m, rest, n.trail.len() as int);
        assert(arrival::<A, C, S>(n, route).trail[n.trail.len() as int] == x);
        if revisits::<A, C, S>(more.trail, x) {
            let i = choose|i: int|
                0 <= i < more.trail.len() && S::same(#[trigger] more.trail[i], x);
            if i > 0 {
                assert(S::same(n.trail[i - 1], x));
            }
        }
        assert(step::<A, C, S>(more, wa).trail =~= seq![v] + m.trail);
        lemma_paces_with_more_behind::<A, C, S>(m, rest, v, spent + wa.cost.value());
    }
}

/// From a state on the trail of a route that never comes back to a state,
/// the rest of the route leads on, never comes back to a state, and costs
/// no more than the whole.
pub proof fn lemma_rest_of_paced_route<A, C: ScalarCost, S: NonUniformProblem<A, C>>(
    n: Node<S::V>,
    route: Seq<WeightedAction<A, C>>,
    j: int,
) -> (rest: Seq<WeightedAction<A, C>>)
    requires
        n.trail.len() > 0,
        paces::<A, C, S>(n, route),
        n.trail.len() - 1 <= j < arrival::<A, C, S>(n, route).trail.len(),
    ensures
        paces::<A, C, S>(root(arrival::<A, C, S>(n, route).trail[j]), rest),
        arrival::<A, C, S>(root(arrival::<A, C, S>(n, route).trail[j]), rest).here() == arrival::<
            A,
            C,
            S,
        >(n, route).here(),
        total(rest) <= total(route),
    decreases route.len(),
{
    lemma_arrival_keeps_trail::<A, C, S>(n, route, n.trail.len() - 1);
    if j == n.trail.len() - 1 {
        lemma_paces_with_less_behind::<A, C, S>(n, route, n.trail.len() - 1, 0);
        assert(n.trail.skip(n.trail.len() - 1) =~= seq![n.here()]);
        route
    } else {
        lemma_rest_of_paced_route::<A, C, S>(step::<A, C, S>(n, route[0]), route.drop_first(), j)
    }
}

/// Where the search takes no two different states for the same, whatever
/// a route on offer leads to, a route that never comes back to a state
/// leads to as well, at no more cost.
pub proof fn lemma_walk_has_paced_shortcut<A, C: ScalarCost, S: NonUniformProblem<A, C>>(
    v: S::V,
    route: Seq<WeightedAction<A, C>>,
) -> (short: Seq<WeightedAction<A, C>>)
    requires
        S::valid(v),
        faithful::<A, C, S>(v),
        walks::<A, C, S>(v, route),
    ensures
        paces::<A, C, S>(root(v), short),
        arrival::<A, C, S>(root(v), short).here() == destination::<A, C, S>(v, route),
        arrival::<A, C, S>(root(v), short).spent == total(short),
        total(short) <= total(route),
    decreases route.len(),
{
    if route.len() == 0 {
        route
    } else {
        let wa = route[0];
        let u = S::after(v, wa.action);
        let i = choose|i: int| 0 <= i < S::offers(v).len() && S::offers(v)[i] == wa;
        S::lemma_offers_are_enabled(v, i);
        S::lemma_after_is_valid(v, wa.action);
        lemma_faithful_through::<A, C, S>(v, wa);
        let tail = lemma_walk_has_paced_shortcut::<A, C, S>(u, route.drop_first());
        let end = arrival::<A, C, S>(root(u), tail);
        if exists|j: int| 0 <= j < end.trail.len() && S::same(v, #[trigger] end.trail[j]) {
            let j = choose|j: int| 0 <= j < end.trail.len() && S::same(v, #[trigger] end.trail[j]);
            lemma_trail_is_reachable::<A, C, S>(root(u), tail, j);
            lemma_reachable_through::<A, C, S>(v, wa, end.trail[j]);
            lemma_reachable_from_itself::<A, C, S>(v);
            assert(v == end.trail[j]);
            let rest = lemma_rest_of_paced_route::<A, C, S>(root(u), tail, j);
            lemma_paced_arrival::<A, C, S>(root(v), rest);
            rest
        } else {
            let short = seq![wa] + tail;
            assert(short[0] == wa);
            assert(short.drop_first() =~= tail);
            lemma_arrival_keeps_trail::<A, C, S>(root(u), tail, 0);
            assert(end.trail[0] == u);
            assert(!revisits::<A, C, S>(root(v).trail, u)) by {
                if revisits::<A, C, S>(root(v).trail, u) {
                    let i = choose|i: int|
                        0 <= i < root(v).trail.len() && S::same(#[trigger] root(v).trail[i], u);
                    assert(root(v).trail[i] == v);
                }
            }
            lemma_paces_with_more_behind::<A, C, S>(root(u), tail, v, wa.cost.value());
            assert(step::<A, C, S>(root(v), wa).trail =~= seq![v] + root(u).trail);
            lemma_paced_arrival::<A, C, S>(root(v), short);
            short
        }
    }
}

/// Where the search takes no two different states for the same, a bound
/// that no route to a goal undercuts without coming back to a state is
/// undercut by no route to a goal at all.
pub proof fn lemma_no_walk_undercuts<A, C: ScalarCost, S: NonUniformProblem<A, C>>(
    goal: spec_fn(S::V) -> bool,
    v: S::V,
    bound: nat,
    route: Seq<WeightedAction<A, C>>,
)
    requires
        S::valid(v),
        faithful::<A, C, S>(v),
        forall|short: Seq<WeightedAction<A, C>>| #[trigger]
            paces::<A, C, S>(root(v), short) && goal(arrival::<A, C, S>(root(v), short).here())
                ==> bound <= arrival::<A, C, S>(root(v), short).spent,
        walks::<A, C, S>(v, route),
        goal(destination::<A, C, S>(v, route)),
    ensures
        bound <= total(route),
{
    let short = lemma_walk_has_paced_shortcut::<A, C, S>(v, route);
}

/// Where the search takes no two different states for the same and no
/// route that never comes back to a state leads to a goal, no route at
/// all does.
pub proof fn lemma_no_walk_reaches_goal<A, C: ScalarCost, S: NonUniformProblem<A, C>>(
    goal: spec_fn(S::V) -> bool,
    v: S::V,
    route: Seq<WeightedAction<A, C>>,
)
    requires
        S::valid(v),
        faithful::<A, C, S>(v),
        forall|short: Seq<WeightedAction<A, C>>| #[trigger]
            paces::<A, C, S>(root(v), short) ==> !goal(
                arrival::<A, C, S>(root(v), short).here(),
            ),
        walks::<A, C, S>(v, route),
    ensures
        !goal(destination::<A, C, S>(v, route)),
{
    let short = lemma_walk_has_paced_shortcut::<A, C, S>(v, route);
}

/// The way by which the search first comes to a goal is a route that it
/// follows, and ends at a goal.
pub proof fn lemma_leads_is_followed<A, C: ScalarCost, S: NonUniformProblem<A, C>>(
    strong: bool,
    est: spec_fn(S::V) -> nat,
    goal: spec_fn(S::V) -> bool,
    n: Node<S::V>,
    route: Seq<WeightedAction<A, C>>,
    ceiling: nat,
)
    requires
        leads::<A, C, S>(strong, est, goal, n, route, ceiling),
    ensures
        follows::<A, C, S>(est, n, route, ceiling),
        goal(arrival::<A, C, S>(n, route).here()),
    decreases route.len(),
{
    if route.len() > 0 {
        lemma_leads_is_followed::<A, C, S>(
            strong,
            est,
            goal,
            step::<A, C, S>(n, route[0]),
            route.drop_first(),
            ceiling,
        );
    }
}

/// The first action by which the search comes to a goal comes before the
/// way by which it first comes to one from there.
pub proof fn lemma_leads_from_step<A, C: ScalarCost, S: NonUniformProblem<A, C>>(
    strong: bool,
    est: spec_fn(S::V) -> nat,
    goal: spec_fn(S::V) -> bool,
    n: Node<S::V>,
    wa: WeightedAction<A, C>,
    route: Seq<WeightedAction<A, C>>,
    ceiling: nat,
)
    requires
        !goal(n.here()),
        admits::<A, C, S>(est, n, wa, ceiling),
        taken_first::<A, C, S>(strong, est, goal, n, wa, ceiling),
        leads::<A, C, S>(strong, est, goal, step::<A, C, S>(n, wa), route, ceiling),
    ensures
        leads::<A, C, S>(strong, est, goal, n, seq![wa] + route, ceiling),
{
    let whole = seq![wa] + route;
    assert(whole[0] == wa);
    assert(whole.drop_first() =~= route);
}

/// There is one way only by which the search first comes to a goal.
pub proof fn lemma_leads_is_determined<A, C: ScalarCost, S: NonUniformProblem<A, C>>(
    strong: bool,
    est: spec_fn(S::V) -> nat,
    goal: spec_fn(S::V) -> bool,
    n: Node<S::V>,
    route: Seq<WeightedAction<A, C>>,
    other: Seq<WeightedAction<A, C>>,
    ceiling: nat,
)
    requires
        leads::<A, C, S>(strong, est, goal, n, route, ceiling),
        leads::<A, C, S>(strong, est, goal, n, other, ceiling),
    ensures
        route == other,
    decreases route.len(),
{
    if route.len() == 0 {
        assert(route =~= other);
    } else {
        let offers = S::offers(n.here());
        let i = choose|i: int|
            0 <= i < offers.len() && offers[i] == route[0] && #[trigger] barren_before::<A, C, S>(
                strong,
                est,
                goal,
                n,
                i,
                ceiling,
            );
        let j = choose|j: int|
            0 <= j < offers.len() && offers[j] == other[0] && #[trigger] barren_before::<A, C, S>(
                strong,
                est,
                goal,
                n,
                j,
                ceiling,
            );
        let on = step::<A, C, S>(n, route[0]);
        let other_on = step::<A, C, S>(n, other[0]);
        lemma_leads_is_followed::<A, C, S>(strong, est, goal, on, route.drop_first(), ceiling);
        lemma_leads_is_followed::<A, C, S>(
            strong,
            est,
            goal,
            other_on,
            other.drop_first(),
            ceiling,
        );
        if i != j {
            if precedes::<A, C, S>(strong, est, n, i, j) {
                assert(barren::<A, C, S>(est, goal, on, ceiling));
            } else {
                assert(precedes::<A, C, S>(strong, est, n, j, i));
                assert(barren::<A, C, S>(est, goal, other_on, ceiling));
            }
        }
        lemma_leads_is_determined::<A, C, S>(
            strong,
            est,
            goal,
            on,
            route.drop_first(),
            other.drop_first(),
            ceiling,
        );
        assert(route =~= seq![route[0]] + route.drop_first());
        assert(other =~= seq![other[0]] + other.drop_first());
    }
}

/// `count`, or the greatest number that a counter of visits can hold
/// where `count` is beyond it.
pub open spec fn capped(count: int) -> int {
    if count > usize::MAX {
        usize::MAX as int
    } else {
        count
    }
}

/// The search under `ceiling` goes from `n` along the offer at `j`: it
/// admits it, and has come to no goal wherever it went before.
pub open spec fn taken<A, C: ScalarCost, S: NonUniformProblem<A, C>>(
    strong: bool,
    est: spec_fn(S::V) -> nat,
    goal: spec_fn(S::V) -> bool,
    n: Node<S::V>,
    j: int,
    ceiling: nat,
) -> bool {
    &&& 0 <= j < S::offers(n.here()).len()
    &&& admits::<A, C, S>(est, n, S::offers(n.here())[j], ceiling)
    &&& barren_before::<A, C, S>(strong, est, goal, n, j, ceiling)
}

/// How many states the search under `ceiling` visits from `n` on: one at
/// a goal; else `n` and what it visits below each offer that it takes,
/// which are the admitted ones up to the first that leads to a goal. A
/// trail that can hold no further state ends the count.
pub open spec fn visits<A, C: ScalarCost, S: NonUniformProblem<A, C>>(
    strong: bool,
    est: spec_fn(S::V) -> nat,
    goal: spec_fn(S::V) -> bool,
    n: Node<S::V>,
    ceiling: nat,
) -> nat
    decreases usize::MAX - n.trail.len(), S::offers(n.here()).len() + 1,
{
    if goal(n.here()) || n.trail.len() >= usize::MAX {
        1
    } else {
        1 + visits_below::<A, C, S>(
            strong,
            est,
            goal,
            n,
            ceiling,
            S::offers(n.here()).len() as int,
        )
    }
}

/// How many states the search under `ceiling` visits below the first
/// `upto` offers at `n`.
pub open spec fn visits_below<A, C: ScalarCost, S: NonUniformProblem<A, C>>(
    strong: bool,
    est: spec_fn(S::V) -> nat,
    goal: spec_fn(S::V) -> bool,
    n: Node<S::V>,
    ceiling: nat,
    upto: int,
) -> nat
    decreases usize::MAX - n.trail.len(), upto,
{
    if upto <= 0 || upto > S::offers(n.here()).len() || n.trail.len() >= usize::MAX {
        0
    } else {
        visits_below::<A, C, S>(strong, est, goal, n, ceiling, upto - 1) + if taken::<A, C, S>(
            strong,
            est,
            goal,
            n,
            upto - 1,
            ceiling,
        ) {
            visits::<A, C, S>(
                strong,
                est,
                goal,
                step::<A, C, S>(n, S::offers(n.here())[upto - 1]),
                ceiling,
            )
        } else {
            0
        }
    }
}

/// How many states the search under `ceiling` visits below those of the
/// first `upto` offers at `n` that are in `done` and admitted.
pub open spec fn visits_among<A, C: ScalarCost, S: NonUniformProblem<A, C>>(
    strong: bool,
    est: spec_fn(S::V) -> nat,
    goal: spec_fn(S::V) -> bool,
    n: Node<S::V>,
    ceiling: nat,
    done: Set<int>,
    upto: int,
) -> nat
    decreases upto,
{
    if upto <= 0 {
        0
    } else {
        visits_among::<A, C, S>(strong, est, goal, n, ceiling, done, upto - 1) + if done.contains(
            upto - 1,
        ) && admits::<A, C, S>(est, n, S::offers(n.here())[upto - 1], ceiling) {
            visits::<A, C, S>(
                strong,
                est,
                goal,
                step::<A, C, S>(n, S::offers(n.here())[upto - 1]),
                ceiling,
            )
        } else {
            0
        }
    }
}

/// Of the offers at `n`, the search takes those of `done` that are
/// admitted, and no others.
pub open spec fn matches_taken<A, C: ScalarCost, S: NonUniformProblem<A, C>>(
    strong: bool,
    est: spec_fn(S::V) -> nat,
    goal: spec_fn(S::V) -> bool,
    n: Node<S::V>,
    ceiling: nat,
    done: Set<int>,
) -> bool {
    forall|j: int|
        0 <= j < S::offers(n.here()).len() ==> (#[trigger] taken::<A, C, S>(
            strong,
            est,
            goal,
            n,
            j,
            ceiling,
        ) <==> done.contains(j) && admits::<A, C, S>(est, n, S::offers(n.here())[j], ceiling))
}

/// Below no offers the search visits nothing.
pub proof fn lemma_visits_among_none<A, C: ScalarCost, S: NonUniformProblem<A, C>>(
    strong: bool,
    est: spec_fn(S::V) -> nat,
    goal: spec_fn(S::V) -> bool,
    n: Node<S::V>,
    ceiling: nat,
    upto: int,
)
    ensures
        visits_among::<A, C, S>(strong, est, goal, n, ceiling, Set::empty(), upto) == 0,
    decreases upto,
{
    if upto > 0 {
        lemma_visits_among_none::<A, C, S>(strong, est, goal, n, ceiling, upto - 1);
    }
}

/// One more offer adds what the search visits below it, if it is
/// admitted.
pub proof fn lemma_visits_among_grows<A, C: ScalarCost, S: NonUniformProblem<A, C>>(
    strong: bool,
    est: spec_fn(S::V) -> nat,
    goal: spec_fn(S::V) -> bool,
    n: Node<S::V>,
    ceiling: nat,
    done: Set<int>,
    j: int,
    upto: int,
)
    requires
        !done.contains(j),
    ensures
        visits_among::<A, C, S>(strong, est, goal, n, ceiling, done.insert(j), upto)
            == visits_among::<A, C, S>(strong, est, goal, n, ceiling, done, upto) + if 0 <= j
            < upto && admits::<A, C, S>(est, n, S::offers(n.here())[j], ceiling) {
            visits::<A, C, S>(
                strong,
                est,
                goal,
                step::<A, C, S>(n, S::offers(n.here())[j]),
                ceiling,
            )
        } else {
            0
        },
    decreases upto,
{
    if upto > 0 {
        lemma_visits_among_grows::<A, C, S>(strong, est, goal, n, ceiling, done, j, upto - 1);
    }
}

/// Where the offers that the search takes are those of `done` that are
/// admitted, it visits below the offers what it visits below these.
pub proof fn lemma_visits_among_matches<A, C: ScalarCost, S: NonUniformProblem<A, C>>(
    strong: bool,
    est: spec_fn(S::V) -> nat,
    goal: spec_fn(S::V) -> bool,
    n: Node<S::V>,
    ceiling: nat,
    done: Set<int>,
    upto: int,
)
    requires
        n.trail.len() < usize::MAX,
        0 <= upto <= S::offers(n.here()).len(),
        matches_taken::<A, C, S>(strong, est, goal, n, ceiling, done),
    ensures
        visits_below::<A, C, S>(strong, est, goal, n, ceiling, upto) == visits_among::<A, C, S>(
            strong,
            est,
            goal,
            n,
            ceiling,
            done,
            upto,
        ),
    decreases upto,
{
    if upto > 0 {
        lemma_visits_among_matches::<A, C, S>(strong, est, goal, n, ceiling, done, upto - 1);
        assert(taken::<A, C, S>(strong, est, goal, n, upto - 1, ceiling) <==> done.contains(
            upto - 1,
        ) && admits::<A, C, S>(est, n, S::offers(n.here())[upto - 1], ceiling));
    }
}

/// From a state that is no goal, the search visits that state and what
/// it visits below the offers that it takes.
pub proof fn lemma_visits_counted<A, C: ScalarCost, S: NonUniformProblem<A, C>>(
    strong: bool,
    est: spec_fn(S::V) -> nat,
    goal: spec_fn(S::V) -> bool,
    n: Node<S::V>,
    ceiling: nat,
    done: Set<int>,
)
    requires
        !goal(n.here()),
        matches_taken::<A, C, S>(strong, est, goal, n, ceiling, done),
        n.trail.len() < usize::MAX || visits_among::<A, C, S>(
            strong,
            est,
            goal,
            n,
            ceiling,
            done,
            S::offers(n.here()).len() as int,
        ) == 0,
    ensures
        visits::<A, C, S>(strong, est, goal, n, ceiling) == 1 + visits_among::<A, C, S>(
            strong,
            est,
            goal,
            n,
            ceiling,
            done,
            S::offers(n.here()).len() as int,
        ),
{
    if n.trail.len() < usize::MAX {
        lemma_visits_among_matches::<A, C, S>(
            strong,
            est,
            goal,
            n,
            ceiling,
            done,
            S::offers(n.here()).len() as int,
        );
    }
}

/// Which offers the search takes at a state that is no goal: of those
/// that it is done with, the admitted ones, where everything admitted
/// that it is done with led to no goal and everything that is taken
/// before something it is done with is done with too; and the one at
/// which it stops for a goal, if it stops.
pub proof fn lemma_taken_matches<A, C: ScalarCost, S: NonUniformProblem<A, C>>(
    strong: bool,
    est: spec_fn(S::V) -> nat,
    goal: spec_fn(S::V) -> bool,
    n: Node<S::V>,
    ceiling: nat,
    done: Set<int>,
    stop: Option<int>,
)
    requires
        forall|j: int|
            0 <= j < S::offers(n.here()).len() && #[trigger] done.contains(j) && admits::<A, C, S>(
                est,
                n,
                S::offers(n.here())[j],
                ceiling,
            ) ==> barren::<A, C, S>(
                est,
                goal,
                step::<A, C, S>(n, S::offers(n.here())[j]),
                ceiling,
            ),
        forall|j: int, i: int|
            0 <= j < S::offers(n.here()).len() && 0 <= i < S::offers(n.here()).len()
                && #[trigger] precedes::<A, C, S>(strong, est, n, j, i) && admits::<A, C, S>(
                est,
                n,
                S::offers(n.here())[j],
                ceiling,
            ) && (done.contains(i) || stop == Some(i)) ==> done.contains(j),
        match stop {
            Some(p) => {
                &&& 0 <= p < S::offers(n.here()).len()
                &&& admits::<A, C, S>(est, n, S::offers(n.here())[p], ceiling)
                &&& !barren::<A, C, S>(
                    est,
                    goal,
                    step::<A, C, S>(n, S::offers(n.here())[p]),
                    ceiling,
                )
                &&& forall|j: int|
                    0 <= j < S::offers(n.here()).len() && admits::<A, C, S>(
                        est,
                        n,
                        S::offers(n.here())[j],
                        ceiling,
                    ) && !done.contains(j) && j != p ==> #[trigger] precedes::<A, C, S>(
                        strong,
                        est,
                        n,
                        p,
                        j,
                    )
            },
            None => forall|j: int|
                0 <= j < S::offers(n.here()).len() && admits::<A, C, S>(
                    est,
                    n,
                    S::offers(n.here())[j],
                    ceiling,
                ) ==> #[trigger] done.contains(j),
        },
    ensures
        matches_taken::<A, C, S>(
            strong,
            est,
            goal,
            n,
            ceiling,
            match stop {
                Some(p) => done.insert(p),
                None => done,
            },
        ),
        stop matches Some(p) ==> barren_before::<A, C, S>(strong, est, goal, n, p, ceiling),
{
    let offers = S::offers(n.here());
    let all = match stop {
        Some(p) => done.insert(p),
        None => done,
    };
    assert forall|j: int| 0 <= j < offers.len() implies (#[trigger] taken::<A, C, S>(
        strong,
        est,
        goal,
        n,
        j,
        ceiling,
    ) <==> all.contains(j) && admits::<A, C, S>(est, n, offers[j], ceiling)) by {
        if admits::<A, C, S>(est, n, offers[j], ceiling) {
            if all.contains(j) {
                assert forall|k: int|
                    0 <= k < offers.len() && #[trigger] precedes::<A, C, S>(strong, est, n, k, j)
                        && admits::<A, C, S>(est, n, offers[k], ceiling) implies barren::<A, C, S>(
                    est,
                    goal,
                    step::<A, C, S>(n, offers[k]),
                    ceiling,
                ) by {
                    assert(done.contains(k));
                }
                assert(barren_before::<A, C, S>(strong, est, goal, n, j, ceiling));
            } else {
                match stop {
                    Some(p) => {
                        assert(precedes::<A, C, S>(strong, est, n, p, j));
                        if barren_before::<A, C, S>(strong, est, goal, n, j, ceiling) {
                            assert(barren::<A, C, S>(
                                est,
                                goal,
                                step::<A, C, S>(n, offers[p]),
                                ceiling,
                            ));
                        }
                    },
                    None => {
                        assert(done.contains(j));
                    },
                }
            }
        }
    }
    match stop {
        Some(p) => {
            assert(taken::<A, C, S>(strong, est, goal, n, p, ceiling));
        },
        None => {},
    }
}

/// `sol` is the trail of a route on offer from `n` that never comes back
/// to a state.
pub open spec fn traced<A, C: ScalarCost, S: NonUniformProblem<A, C>>(
    n: Node<S::V>,
    sol: Seq<S::V>,
) -> bool {
    exists|route: Seq<WeightedAction<A, C>>| #[trigger]
        paces::<A, C, S>(n, route) && arrival::<A, C, S>(n, route).trail == sol
}

/// The trail that a node has come by is the trail of the route that
/// stays there.
pub proof fn lemma_traced_here<A, C: ScalarCost, S: NonUniformProblem<A, C>>(n: Node<S::V>)
    ensures
        traced::<A, C, S>(n, n.trail),
{
    let route = Seq::<WeightedAction<A, C>>::empty();
    assert(paces::<A, C, S>(n, route));
    assert(arrival::<A, C, S>(n, route) == n);
}

/// A trail of a route from where an action leads is the trail of a route
/// from where it is taken.
pub proof fn lemma_traced_from_step<A, C: ScalarCost, S: NonUniformProblem<A, C>>(
    n: Node<S::V>,
    wa: WeightedAction<A, C>,
    sol: Seq<S::V>,
)
    requires
        opens::<A, C, S>(n, wa),
        traced::<A, C, S>(step::<A, C, S>(n, wa), sol),
    ensures
        traced::<A, C, S>(n, sol),
{
    let m = step::<A, C, S>(n, wa);
    let route = choose|route: Seq<WeightedAction<A, C>>| #[trigger]
        paces::<A, C, S>(m, route) && arrival::<A, C, S>(m, route).trail == sol;
    let whole = seq![wa] + route;
    assert(whole[0] == wa);
    assert(whole.drop_first() =~= route);
    assert(paces::<A, C, S>(n, whole));
}

/// Where the search comes to no goal from a node, it comes to none from
/// where it goes from there.
pub proof fn lemma_barren_below<A, C: ScalarCost, S: NonUniformProblem<A, C>>(
    est: spec_fn(S::V) -> nat,
    goal: spec_fn(S::V) -> bool,
    n: Node<S::V>,
    wa: WeightedAction<A, C>,
    ceiling: nat,
)
    requires
        barren::<A, C, S>(est, goal, n, ceiling),
        admits::<A, C, S>(est, n, wa, ceiling),
    ensures
        barren::<A, C, S>(est, goal, step::<A, C, S>(n, wa), ceiling),
{
    let m = step::<A, C, S>(n, wa);
    assert forall|route: Seq<WeightedAction<A, C>>| #[trigger]
        follows::<A, C, S>(est, m, route, ceiling) implies !goal(
        arrival::<A, C, S>(m, route).here(),
    ) by {
        lemma_follows_from_step::<A, C, S>(est, n, wa, route, ceiling);
    }
}

/// Where the search comes to no goal, it visits as many states below the
/// offers whether it takes them by the estimates or in their order.
pub proof fn lemma_barren_visits_below_agree<A, C: ScalarCost, S: NonUniformProblem<A, C>>(
    est: spec_fn(S::V) -> nat,
    goal: spec_fn(S::V) -> bool,
    n: Node<S::V>,
    ceiling: nat,
    upto: int,
)
    requires
        barren::<A, C, S>(est, goal, n, ceiling),
    ensures
        visits_below::<A, C, S>(true, est, goal, n, ceiling, upto) == visits_below::<A, C, S>(
            false,
            est,
            goal,
            n,
            ceiling,
            upto,
        ),
    decreases usize::MAX - n.trail.len(), upto,
{
    let offers = S::offers(n.here());
    if 0 < upto <= offers.len() && n.trail.len() < usize::MAX {
        lemma_barren_visits_below_agree::<A, C, S>(est, goal, n, ceiling, upto - 1);
        let wa = offers[upto - 1];
        if admits::<A, C, S>(est, n, wa, ceiling) {
            assert forall|strong: bool| #[trigger]
                barren_before::<A, C, S>(strong, est, goal, n, upto - 1, ceiling) by {
                assert forall|j: int|
                    0 <= j < offers.len() && #[trigger] precedes::<A, C, S>(
                        strong,
                        est,
                        n,
                        j,
                        upto - 1,
                    ) && admits::<A, C, S>(est, n, offers[j], ceiling) implies barren::<A, C, S>(
                    est,
                    goal,
                    step::<A, C, S>(n, offers[j]),
                    ceiling,
                ) by {
                    lemma_barren_below::<A, C, S>(est, goal, n, offers[j], ceiling);
                }
            }
            assert(barren_before::<A, C, S>(true, est, goal, n, upto - 1, ceiling));
            assert(barren_before::<A, C, S>(false, est, goal, n, upto - 1, ceiling));
            lemma_barren_below::<A, C, S>(est, goal, n, wa, ceiling);
            lemma_barren_visits_agree::<A, C, S>(est, goal, step::<A, C, S>(n, wa), ceiling);
        }
    }
}

/// Where the search comes to no goal, it visits as many states whether it
/// takes the offers by the estimates or in their order.
pub proof fn lemma_barren_visits_agree<A, C: ScalarCost, S: NonUniformProblem<A, C>>(
    est: spec_fn(S::V) -> nat,
    goal: spec_fn(S::V) -> bool,
    n: Node<S::V>,
    ceiling: nat,
)
    requires
        barren::<A, C, S>(est, goal, n, ceiling),
    ensures
        visits::<A, C, S>(true, est, goal, n, ceiling) == visits::<A, C, S>(
            false,
            est,
            goal,
            n,
            ceiling,
        ),
    decreases usize::MAX - n.trail.len(), S::offers(n.here()).len() + 1,
{
    if !goal(n.here()) && n.trail.len() < usize::MAX {
        lemma_barren_visits_below_agree::<A, C, S>(
            est,
            goal,
            n,
            ceiling,
            S::offers(n.here()).len() as int,
        );
    }
}

/// Below offers of which it admits none, the search visits nothing.
pub proof fn lemma_visits_below_none<A, C: ScalarCost, S: NonUniformProblem<A, C>>(
    strong: bool,
    est: spec_fn(S::V) -> nat,
    goal: spec_fn(S::V) -> bool,
    n: Node<S::V>,
    ceiling: nat,
    upto: int,
)
    requires
        forall|j: int|
            0 <= j < S::offers(n.here()).len() ==> !admits::<A, C, S>(
                est,
                n,
                #[trigger] S::offers(n.here())[j],
                ceiling,
            ),
    ensures
        visits_below::<A, C, S>(strong, est, goal, n, ceiling, upto) == 0,
    decreases upto,
{
    if 0 < upto <= S::offers(n.here()).len() && n.trail.len() < usize::MAX {
        lemma_visits_below_none::<A, C, S>(strong, est, goal, n, ceiling, upto - 1);
        assert(!admits::<A, C, S>(est, n, S::offers(n.here())[upto - 1], ceiling));
    }
}

/// The search visits one state only from a goal, and from a state where
/// it admits nothing on offer: one whose offers all lead back to the
/// trail or beyond the bound.
pub proof fn lemma_visits_one<A, C: ScalarCost, S: NonUniformProblem<A, C>>(
    strong: bool,
    est: spec_fn(S::V) -> nat,
    goal: spec_fn(S::V) -> bool,
    n: Node<S::V>,
    ceiling: nat,
)
    requires
        goal(n.here()) || forall|j: int|
            0 <= j < S::offers(n.here()).len() ==> !admits::<A, C, S>(
                est,
                n,
                #[trigger] S::offers(n.here())[j],
                ceiling,
            ),
    ensures
        visits::<A, C, S>(strong, est, goal, n, ceiling) == 1,
{
    if !goal(n.here()) {
        lemma_visits_below_none::<A, C, S>(
            strong,
            est,
            goal,
            n,
            ceiling,
            S::offers(n.here()).len() as int,
        );
    }
}

/// From a state whose offers all lead back to the trail, the search
/// rejects no rank.
pub proof fn lemma_nothing_overruns<A, C: ScalarCost, S: NonUniformProblem<A, C>>(
    est: spec_fn(S::V) -> nat,
    n: Node<S::V>,
    ceiling: nat,
    f: nat,
)
    requires
        forall|wa: WeightedAction<A, C>| !#[trigger] opens::<A, C, S>(n, wa),
    ensures
        !overruns::<A, C, S>(est, n, ceiling, f),
{
    if overruns::<A, C, S>(est, n, ceiling, f) {
        let (route, wa) = choose|route: Seq<WeightedAction<A, C>>, wa: WeightedAction<A, C>|
         #[trigger]
            strays::<A, C, S>(est, n, route, wa, ceiling) && rank::<A, C, S>(
                est,
                arrival::<A, C, S>(n, route),
                wa,
            ) == f;
        if route.len() > 0 {
            assert(opens::<A, C, S>(n, route[0]));
        } else {
            assert(opens::<A, C, S>(n, wa));
        }
    }
}

} // verus!
