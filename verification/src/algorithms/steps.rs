//! Why the searches do what they say: what is known of a node while the
//! search takes the actions on offer there one after the other, and how
//! each step adds to it.

use crate::algorithms::{
    Cost, NonUniformProblem, ScalarCost, SearchError, WeightedAction,
};
use crate::algorithms::ida_star::{
    agrees, complete, concluded, deepened, estimated, found, iterated, Iteration, judged,
    least_overrun, Outcome, searched, searched_any, solves, suits, undercuts, views, visited,
};
use crate::algorithms::routes::{
    admissible, admits, arrival, barren, barren_before, capped, covers, follows, leads,
    lemma_barren_under_fence, lemma_followed_cost_within, lemma_followed_is_paced,
    lemma_follows_eases, lemma_follows_from_step, lemma_leads_from_step,
    lemma_missed_goal_overruns, lemma_node_is_settled, lemma_overrun_is_beyond,
    lemma_overruns_under_fence, lemma_paced_arrival, lemma_paced_trail_has_no_repeats,
    lemma_reachable_through, lemma_rejected_overruns, lemma_settled_eases, lemma_taken_matches,
    lemma_tightened_lifts, lemma_tightened_twice, lemma_visits_among_grows,
    lemma_visits_among_none, lemma_visits_counted, matches_taken, no_repeats, Node, opens,
    overruns, paces, precedes, rank, reachable, rejects, root, settled, step, taken_first,
    tightened, visits, visits_among,
};
use vstd::prelude::*;
use vstd::seq_lib::to_multiset_contains;

verus! {

/// The search is done with the first `upto` of `actions` at `n`.
pub open spec fn all_settled<A, C: ScalarCost, S: NonUniformProblem<A, C>>(
    est: spec_fn(S::V) -> nat,
    goal: spec_fn(S::V) -> bool,
    n: Node<S::V>,
    ceiling: nat,
    actions: Seq<WeightedAction<A, C>>,
    upto: int,
    next: Option<C>,
    overflowed: bool,
) -> bool {
    forall|j: int|
        0 <= j < upto ==> settled::<A, C, S>(
            est,
            goal,
            n,
            ceiling,
            #[trigger] actions[j],
            next,
            overflowed,
        )
}

/// The visit counter has gone up by one, or stays at the greatest number
/// that it can hold.
pub open spec fn counted(before: usize, after: usize) -> bool {
    after == if before < usize::MAX {
        before + 1
    } else {
        usize::MAX as int
    }
}

/// Whatever functions the goal predicate and the heuristic compute, the
/// search is done with the first `upto` of `actions` at `n`, and the next
/// bound and the overflow mark have changed from `first` to `now` only for
/// ranks that it rejected.
pub open spec fn progress<
    A,
    C: ScalarCost,
    S: NonUniformProblem<A, C>,
    P: Fn(&S) -> bool,
    H: Fn(&S) -> C,
>(
    is_goal: P,
    heuristic: H,
    n: Node<S::V>,
    ceiling: nat,
    actions: Seq<WeightedAction<A, C>>,
    upto: int,
    first: (Option<C>, bool),
    now: (Option<C>, bool),
) -> bool {
    forall|goal: spec_fn(S::V) -> bool, est: spec_fn(S::V) -> nat| #[trigger]
        agrees::<S, C, P, H>(is_goal, heuristic, goal, est) ==> all_settled::<A, C, S>(
            est,
            goal,
            n,
            ceiling,
            actions,
            upto,
            now.0,
            now.1,
        ) && tightened::<A, C, S>(est, n, ceiling, first.0, first.1, now.0, now.1)
}

/// What suits a search at a state suits it where an action on offer
/// leads.
pub proof fn lemma_suits_through<
    A,
    C: ScalarCost,
    S: NonUniformProblem<A, C> + PartialEq + Clone,
    P: Fn(&S) -> bool,
    H: Fn(&S) -> C,
>(is_goal: P, heuristic: H, v: S::V, wa: WeightedAction<A, C>)
    requires
        suits::<A, C, S, P, H>(is_goal, heuristic, v),
        S::offers(v).contains(wa),
    ensures
        suits::<A, C, S, P, H>(is_goal, heuristic, S::after(v, wa.action)),
{
    let u = S::after(v, wa.action);
    let i = choose|i: int| 0 <= i < S::offers(v).len() && S::offers(v)[i] == wa;
    S::lemma_offers_are_enabled(v, i);
    S::lemma_after_is_valid(v, wa.action);
    assert forall|s: S| S::valid(s@) && reachable::<A, C, S>(u, s@) implies #[trigger]
        is_goal.requires((&s,)) by {
        lemma_reachable_through::<A, C, S>(v, wa, s@);
    }
    assert forall|s: S| S::valid(s@) && reachable::<A, C, S>(u, s@) implies #[trigger]
        heuristic.requires((&s,)) by {
        lemma_reachable_through::<A, C, S>(v, wa, s@);
    }
}

/// Once the search is done with one more action, it is done with all up
/// to that one, and what has changed since it came to the node adds up.
pub proof fn lemma_one_more_settled<A, C: ScalarCost, S: NonUniformProblem<A, C>>(
    est: spec_fn(S::V) -> nat,
    goal: spec_fn(S::V) -> bool,
    n: Node<S::V>,
    ceiling: nat,
    actions: Seq<WeightedAction<A, C>>,
    upto: int,
    first: (Option<C>, bool),
    before: (Option<C>, bool),
    after: (Option<C>, bool),
)
    requires
        0 <= upto < actions.len(),
        all_settled::<A, C, S>(est, goal, n, ceiling, actions, upto, before.0, before.1),
        tightened::<A, C, S>(est, n, ceiling, first.0, first.1, before.0, before.1),
        settled::<A, C, S>(est, goal, n, ceiling, actions[upto], after.0, after.1),
        tightened::<A, C, S>(est, n, ceiling, before.0, before.1, after.0, after.1),
    ensures
        all_settled::<A, C, S>(est, goal, n, ceiling, actions, upto + 1, after.0, after.1),
        tightened::<A, C, S>(est, n, ceiling, first.0, first.1, after.0, after.1),
{
    assert forall|j: int| 0 <= j < upto + 1 implies settled::<A, C, S>(
        est,
        goal,
        n,
        ceiling,
        #[trigger] actions[j],
        after.0,
        after.1,
    ) by {
        if j < upto {
            lemma_settled_eases::<A, C, S>(
                est,
                goal,
                n,
                ceiling,
                actions[j],
                before.0,
                before.1,
                after.0,
                after.1,
            );
        }
    }
    lemma_tightened_twice::<A, C, S>(
        est,
        n,
        ceiling,
        first.0,
        first.1,
        before.0,
        before.1,
        after.0,
        after.1,
    );
}

/// A rank beyond the limit of the cost is rejected under every bound, and
/// setting the overflow mark accounts for it.
pub proof fn lemma_overflow_is_settled<A, C: ScalarCost, S: NonUniformProblem<A, C>>(
    est: spec_fn(S::V) -> nat,
    goal: spec_fn(S::V) -> bool,
    n: Node<S::V>,
    ceiling: nat,
    wa: WeightedAction<A, C>,
    next: Option<C>,
    overflowed: bool,
)
    requires
        opens::<A, C, S>(n, wa),
        rank::<A, C, S>(est, n, wa) > C::limit(),
        ceiling <= C::limit(),
    ensures
        settled::<A, C, S>(est, goal, n, ceiling, wa, next, true),
        tightened::<A, C, S>(est, n, ceiling, next, overflowed, next, true),
{
    lemma_rejected_overruns::<A, C, S>(est, n, wa, ceiling);
}

/// A rank beyond the bound is accounted for by the better of itself and
/// the next bound so far.
pub proof fn lemma_pruned_is_settled<A, C: ScalarCost, S: NonUniformProblem<A, C>>(
    est: spec_fn(S::V) -> nat,
    goal: spec_fn(S::V) -> bool,
    n: Node<S::V>,
    ceiling: nat,
    wa: WeightedAction<A, C>,
    f: C,
    next: Option<C>,
    overflowed: bool,
)
    requires
        rejects::<A, C, S>(est, n, wa, ceiling),
        f.value() == rank::<A, C, S>(est, n, wa),
    ensures
        ({
            let next2 = if Some(f).better(&next) {
                Some(f)
            } else {
                next
            };
            &&& settled::<A, C, S>(est, goal, n, ceiling, wa, next2, overflowed)
            &&& tightened::<A, C, S>(est, n, ceiling, next, overflowed, next2, overflowed)
        }),
{
    lemma_rejected_overruns::<A, C, S>(est, n, wa, ceiling);
    f.lemma_value_within_limit();
    match next {
        Some(bound) => {
            f.lemma_order_by_value(&bound);
        },
        None => {},
    }
}

/// What the search finds below where it goes, it finds below where it
/// comes from; where it finds nothing there, it is done with that action.
pub proof fn lemma_explored_is_settled<A, C: ScalarCost, S: NonUniformProblem<A, C>>(
    strong: bool,
    est: spec_fn(S::V) -> nat,
    goal: spec_fn(S::V) -> bool,
    n: Node<S::V>,
    ceiling: nat,
    wa: WeightedAction<A, C>,
    next: Option<C>,
    overflowed: bool,
    next2: Option<C>,
    overflowed2: bool,
    result: Option<Seq<S::V>>,
)
    requires
        admits::<A, C, S>(est, n, wa, ceiling),
        searched::<A, C, S>(
            strong,
            est,
            goal,
            step::<A, C, S>(n, wa),
            ceiling,
            next,
            overflowed,
            next2,
            overflowed2,
            result,
        ),
        result is Some ==> !goal(n.here()) && taken_first::<A, C, S>(
            strong,
            est,
            goal,
            n,
            wa,
            ceiling,
        ),
    ensures
        tightened::<A, C, S>(est, n, ceiling, next, overflowed, next2, overflowed2),
        result is None ==> settled::<A, C, S>(est, goal, n, ceiling, wa, next2, overflowed2),
        result matches Some(sol) ==> found::<A, C, S>(strong, est, goal, n, ceiling, sol),
{
    let m = step::<A, C, S>(n, wa);
    lemma_tightened_lifts::<A, C, S>(est, n, wa, ceiling, next, overflowed, next2, overflowed2);
    match result {
        Some(sol) => {
            let route = choose|route: Seq<WeightedAction<A, C>>| #[trigger]
                follows::<A, C, S>(est, m, route, ceiling) && arrival::<A, C, S>(m, route).trail
                    == sol && goal(arrival::<A, C, S>(m, route).here()) && leads::<A, C, S>(
                    strong,
                    est,
                    goal,
                    m,
                    route,
                    ceiling,
                );
            lemma_follows_from_step::<A, C, S>(est, n, wa, route, ceiling);
            lemma_leads_from_step::<A, C, S>(strong, est, goal, n, wa, route, ceiling);
        },
        None => {},
    }
}

/// Once the search is done with every action on offer at a node that is
/// no goal, it is done with the node.
pub proof fn lemma_all_settled_is_searched<A, C: ScalarCost, S: NonUniformProblem<A, C>>(
    strong: bool,
    est: spec_fn(S::V) -> nat,
    goal: spec_fn(S::V) -> bool,
    n: Node<S::V>,
    ceiling: nat,
    first: (Option<C>, bool),
    last: (Option<C>, bool),
)
    requires
        !goal(n.here()),
        all_settled::<A, C, S>(
            est,
            goal,
            n,
            ceiling,
            S::offers(n.here()),
            S::offers(n.here()).len() as int,
            last.0,
            last.1,
        ),
        tightened::<A, C, S>(est, n, ceiling, first.0, first.1, last.0, last.1),
    ensures
        searched::<A, C, S>(strong, est, goal, n, ceiling, first.0, first.1, last.0, last.1, None),
{
    assert forall|wa: WeightedAction<A, C>| #[trigger]
        S::offers(n.here()).contains(wa) implies settled::<A, C, S>(
        est,
        goal,
        n,
        ceiling,
        wa,
        last.0,
        last.1,
    ) by {
        let j = choose|j: int| 0 <= j < S::offers(n.here()).len() && S::offers(n.here())[j] == wa;
        assert(settled::<A, C, S>(
            est,
            goal,
            n,
            ceiling,
            S::offers(n.here())[j],
            last.0,
            last.1,
        ));
    }
    lemma_node_is_settled::<A, C, S>(est, goal, n, ceiling, last.0, last.1);
}

/// Before the search has taken any action at a node, it is done with
/// none, and nothing has changed.
pub proof fn lemma_progress_starts<
    A,
    C: ScalarCost,
    S: NonUniformProblem<A, C>,
    P: Fn(&S) -> bool,
    H: Fn(&S) -> C,
>(
    is_goal: P,
    heuristic: H,
    n: Node<S::V>,
    ceiling: nat,
    actions: Seq<WeightedAction<A, C>>,
    first: (Option<C>, bool),
)
    ensures
        progress::<A, C, S, P, H>(is_goal, heuristic, n, ceiling, actions, 0, first, first),
{
}

/// The search is done with an action that leads back to a state of the
/// trail as soon as it has seen that.
pub proof fn lemma_progress_skips<
    A,
    C: ScalarCost,
    S: NonUniformProblem<A, C>,
    P: Fn(&S) -> bool,
    H: Fn(&S) -> C,
>(
    is_goal: P,
    heuristic: H,
    n: Node<S::V>,
    ceiling: nat,
    actions: Seq<WeightedAction<A, C>>,
    upto: int,
    first: (Option<C>, bool),
    now: (Option<C>, bool),
)
    requires
        0 <= upto < actions.len(),
        progress::<A, C, S, P, H>(is_goal, heuristic, n, ceiling, actions, upto, first, now),
        !opens::<A, C, S>(n, actions[upto]),
    ensures
        progress::<A, C, S, P, H>(is_goal, heuristic, n, ceiling, actions, upto + 1, first, now),
{
    assert forall|goal: spec_fn(S::V) -> bool, est: spec_fn(S::V) -> nat| #[trigger]
        agrees::<S, C, P, H>(is_goal, heuristic, goal, est) implies all_settled::<A, C, S>(
        est,
        goal,
        n,
        ceiling,
        actions,
        upto + 1,
        now.0,
        now.1,
    ) && tightened::<A, C, S>(est, n, ceiling, first.0, first.1, now.0, now.1) by {
        lemma_one_more_settled::<A, C, S>(est, goal, n, ceiling, actions, upto, first, now, now);
    }
}

/// The search is done with an action whose rank is beyond the limit of
/// the cost once it has set the overflow mark. `known` is what the
/// heuristic has returned for where the action leads, or 0 where it has
/// not been asked.
pub proof fn lemma_progress_overflows<
    A,
    C: ScalarCost,
    S: NonUniformProblem<A, C>,
    P: Fn(&S) -> bool,
    H: Fn(&S) -> C,
>(
    is_goal: P,
    heuristic: H,
    n: Node<S::V>,
    ceiling: nat,
    actions: Seq<WeightedAction<A, C>>,
    upto: int,
    first: (Option<C>, bool),
    now: (Option<C>, bool),
    known: nat,
)
    requires
        0 <= upto < actions.len(),
        progress::<A, C, S, P, H>(is_goal, heuristic, n, ceiling, actions, upto, first, now),
        opens::<A, C, S>(n, actions[upto]),
        ceiling <= C::limit(),
        n.spent + actions[upto].cost.value() + known > C::limit(),
        known == 0 || estimated::<S, C, H>(
            heuristic,
            S::after(n.here(), actions[upto].action),
            known,
        ),
    ensures
        progress::<A, C, S, P, H>(
            is_goal,
            heuristic,
            n,
            ceiling,
            actions,
            upto + 1,
            first,
            (now.0, true),
        ),
{
    assert forall|goal: spec_fn(S::V) -> bool, est: spec_fn(S::V) -> nat| #[trigger]
        agrees::<S, C, P, H>(is_goal, heuristic, goal, est) implies all_settled::<A, C, S>(
        est,
        goal,
        n,
        ceiling,
        actions,
        upto + 1,
        now.0,
        true,
    ) && tightened::<A, C, S>(est, n, ceiling, first.0, first.1, now.0, true) by {
        lemma_overflow_is_settled::<A, C, S>(est, goal, n, ceiling, actions[upto], now.0, now.1);
        lemma_one_more_settled::<A, C, S>(
            est,
            goal,
            n,
            ceiling,
            actions,
            upto,
            first,
            now,
            (now.0, true),
        );
    }
}

/// The search is done with an action whose rank `f` is beyond the bound
/// once the next bound is the better of `f` and what it was.
pub proof fn lemma_progress_prunes<
    A,
    C: ScalarCost,
    S: NonUniformProblem<A, C>,
    P: Fn(&S) -> bool,
    H: Fn(&S) -> C,
>(
    is_goal: P,
    heuristic: H,
    n: Node<S::V>,
    ceiling: nat,
    actions: Seq<WeightedAction<A, C>>,
    upto: int,
    first: (Option<C>, bool),
    now: (Option<C>, bool),
    known: nat,
    f: C,
)
    requires
        0 <= upto < actions.len(),
        progress::<A, C, S, P, H>(is_goal, heuristic, n, ceiling, actions, upto, first, now),
        opens::<A, C, S>(n, actions[upto]),
        estimated::<S, C, H>(heuristic, S::after(n.here(), actions[upto].action), known),
        f.value() == n.spent + actions[upto].cost.value() + known,
        f.value() > ceiling,
    ensures
        progress::<A, C, S, P, H>(
            is_goal,
            heuristic,
            n,
            ceiling,
            actions,
            upto + 1,
            first,
            (
                if Some(f).better(&now.0) {
                    Some(f)
                } else {
                    now.0
                },
                now.1,
            ),
        ),
{
    let next2 = if Some(f).better(&now.0) {
        Some(f)
    } else {
        now.0
    };
    assert forall|goal: spec_fn(S::V) -> bool, est: spec_fn(S::V) -> nat| #[trigger]
        agrees::<S, C, P, H>(is_goal, heuristic, goal, est) implies all_settled::<A, C, S>(
        est,
        goal,
        n,
        ceiling,
        actions,
        upto + 1,
        next2,
        now.1,
    ) && tightened::<A, C, S>(est, n, ceiling, first.0, first.1, next2, now.1) by {
        lemma_pruned_is_settled::<A, C, S>(est, goal, n, ceiling, actions[upto], f, now.0, now.1);
        lemma_one_more_settled::<A, C, S>(
            est,
            goal,
            n,
            ceiling,
            actions,
            upto,
            first,
            now,
            (next2, now.1),
        );
    }
}

/// The search is done with an action once it has searched below it and
/// found nothing.
pub proof fn lemma_progress_explores<
    A,
    C: ScalarCost,
    S: NonUniformProblem<A, C>,
    P: Fn(&S) -> bool,
    H: Fn(&S) -> C,
>(
    strong: bool,
    is_goal: P,
    heuristic: H,
    n: Node<S::V>,
    ceiling: nat,
    actions: Seq<WeightedAction<A, C>>,
    upto: int,
    first: (Option<C>, bool),
    before: (Option<C>, bool),
    now: (Option<C>, bool),
    known: nat,
)
    requires
        0 <= upto < actions.len(),
        progress::<A, C, S, P, H>(is_goal, heuristic, n, ceiling, actions, upto, first, before),
        opens::<A, C, S>(n, actions[upto]),
        estimated::<S, C, H>(heuristic, S::after(n.here(), actions[upto].action), known),
        n.spent + actions[upto].cost.value() + known <= ceiling,
        searched_any::<A, C, S, P, H>(
            strong,
            is_goal,
            heuristic,
            step::<A, C, S>(n, actions[upto]),
            ceiling,
            before.0,
            before.1,
            now.0,
            now.1,
            None,
        ),
    ensures
        progress::<A, C, S, P, H>(is_goal, heuristic, n, ceiling, actions, upto + 1, first, now),
{
    assert forall|goal: spec_fn(S::V) -> bool, est: spec_fn(S::V) -> nat| #[trigger]
        agrees::<S, C, P, H>(is_goal, heuristic, goal, est) implies all_settled::<A, C, S>(
        est,
        goal,
        n,
        ceiling,
        actions,
        upto + 1,
        now.0,
        now.1,
    ) && tightened::<A, C, S>(est, n, ceiling, first.0, first.1, now.0, now.1) by {
        lemma_explored_is_settled::<A, C, S>(
            strong,
            est,
            goal,
            n,
            ceiling,
            actions[upto],
            before.0,
            before.1,
            now.0,
            now.1,
            None,
        );
        lemma_one_more_settled::<A, C, S>(
            est,
            goal,
            n,
            ceiling,
            actions,
            upto,
            first,
            before,
            now,
        );
    }
}

/// Whatever functions the goal predicate and the heuristic compute, `n`
/// is no goal and the search takes `wa` there after it has come to no
/// goal wherever it went before.
pub open spec fn took_first<
    A,
    C: ScalarCost,
    S: NonUniformProblem<A, C>,
    P: Fn(&S) -> bool,
    H: Fn(&S) -> C,
>(
    strong: bool,
    is_goal: P,
    heuristic: H,
    n: Node<S::V>,
    wa: WeightedAction<A, C>,
    ceiling: nat,
) -> bool {
    forall|goal: spec_fn(S::V) -> bool, est: spec_fn(S::V) -> nat| #[trigger]
        agrees::<S, C, P, H>(is_goal, heuristic, goal, est) ==> !goal(n.here()) && taken_first::<
            A,
            C,
            S,
        >(strong, est, goal, n, wa, ceiling)
}

/// In the order of the offers, the search takes an action after it has
/// come to no goal along those before it.
pub proof fn lemma_took_first_by_offer<
    A,
    C: ScalarCost,
    S: NonUniformProblem<A, C>,
    P: Fn(&S) -> bool,
    H: Fn(&S) -> C,
>(
    is_goal: P,
    heuristic: H,
    n: Node<S::V>,
    ceiling: nat,
    upto: int,
    first: (Option<C>, bool),
    now: (Option<C>, bool),
)
    requires
        judged::<S, P>(is_goal, n.here(), false),
        0 <= upto < S::offers(n.here()).len(),
        progress::<A, C, S, P, H>(
            is_goal,
            heuristic,
            n,
            ceiling,
            S::offers(n.here()),
            upto,
            first,
            now,
        ),
    ensures
        took_first::<A, C, S, P, H>(
            false,
            is_goal,
            heuristic,
            n,
            S::offers(n.here())[upto],
            ceiling,
        ),
{
    let offers = S::offers(n.here());
    assert forall|goal: spec_fn(S::V) -> bool, est: spec_fn(S::V) -> nat| #[trigger]
        agrees::<S, C, P, H>(is_goal, heuristic, goal, est) implies !goal(n.here())
        && taken_first::<A, C, S>(false, est, goal, n, offers[upto], ceiling) by {
        assert forall|j: int|
            0 <= j < offers.len() && #[trigger] precedes::<A, C, S>(false, est, n, j, upto)
                && admits::<A, C, S>(est, n, offers[j], ceiling) implies barren::<A, C, S>(
            est,
            goal,
            step::<A, C, S>(n, offers[j]),
            ceiling,
        ) by {
            assert(settled::<A, C, S>(est, goal, n, ceiling, offers[j], now.0, now.1));
        }
        assert(barren_before::<A, C, S>(false, est, goal, n, upto, ceiling));
    }
}

/// By the estimates, the search takes a candidate after it has come to no
/// goal along those with a better estimate, or with the same and offered
/// before it.
pub proof fn lemma_took_first_by_estimate<
    A,
    C: ScalarCost,
    S: NonUniformProblem<A, C>,
    P: Fn(&S) -> bool,
    H: Fn(&S) -> C,
>(
    is_goal: P,
    heuristic: H,
    n: Node<S::V>,
    ceiling: nat,
    actions: Seq<(WeightedAction<A, C>, C, usize)>,
    upto: int,
    first: (Option<C>, bool),
    now: (Option<C>, bool),
)
    requires
        judged::<S, P>(is_goal, n.here(), false),
        0 <= upto < actions.len(),
        progress::<A, C, S, P, H>(
            is_goal,
            heuristic,
            n,
            ceiling,
            chosen(actions),
            upto,
            first,
            now,
        ),
        ordered(actions),
        forall|q: int|
            0 <= q < actions.len() ==> eligible::<A, C, S, H>(heuristic, n, #[trigger] actions[q]),
        forall|j: int|
            0 <= j < S::offers(n.here()).len() && opens::<A, C, S>(
                n,
                #[trigger] S::offers(n.here())[j],
            ) ==> placed(actions, j),
    ensures
        took_first::<A, C, S, P, H>(true, is_goal, heuristic, n, actions[upto].0, ceiling),
{
    let offers = S::offers(n.here());
    let i = actions[upto].2 as int;
    assert(eligible::<A, C, S, H>(heuristic, n, actions[upto]));
    assert forall|goal: spec_fn(S::V) -> bool, est: spec_fn(S::V) -> nat| #[trigger]
        agrees::<S, C, P, H>(is_goal, heuristic, goal, est) implies !goal(n.here())
        && taken_first::<A, C, S>(true, est, goal, n, actions[upto].0, ceiling) by {
        assert forall|j: int|
            0 <= j < offers.len() && #[trigger] precedes::<A, C, S>(true, est, n, j, i)
                && admits::<A, C, S>(est, n, offers[j], ceiling) implies barren::<A, C, S>(
            est,
            goal,
            step::<A, C, S>(n, offers[j]),
            ceiling,
        ) by {
            let q = choose|q: int| 0 <= q < actions.len() && (#[trigger] actions[q]).2 == j;
            assert(eligible::<A, C, S, H>(heuristic, n, actions[q]));
            assert(goes_before(actions[q], actions[upto]));
            if q > upto {
                assert(goes_before(actions[upto], actions[q]));
            }
            assert(chosen(actions)[q] == offers[j]);
            assert(settled::<A, C, S>(est, goal, n, ceiling, chosen(actions)[q], now.0, now.1));
        }
        assert(barren_before::<A, C, S>(true, est, goal, n, i, ceiling));
    }
}

/// What the search finds below an action that it takes, it has found
/// from the node.
pub proof fn lemma_found_below<
    A,
    C: ScalarCost,
    S: NonUniformProblem<A, C>,
    P: Fn(&S) -> bool,
    H: Fn(&S) -> C,
>(
    strong: bool,
    is_goal: P,
    heuristic: H,
    n: Node<S::V>,
    ceiling: nat,
    actions: Seq<WeightedAction<A, C>>,
    upto: int,
    first: (Option<C>, bool),
    before: (Option<C>, bool),
    now: (Option<C>, bool),
    known: nat,
    sol: Seq<S::V>,
)
    requires
        0 <= upto < actions.len(),
        progress::<A, C, S, P, H>(is_goal, heuristic, n, ceiling, actions, upto, first, before),
        opens::<A, C, S>(n, actions[upto]),
        estimated::<S, C, H>(heuristic, S::after(n.here(), actions[upto].action), known),
        n.spent + actions[upto].cost.value() + known <= ceiling,
        took_first::<A, C, S, P, H>(strong, is_goal, heuristic, n, actions[upto], ceiling),
        searched_any::<A, C, S, P, H>(
            strong,
            is_goal,
            heuristic,
            step::<A, C, S>(n, actions[upto]),
            ceiling,
            before.0,
            before.1,
            now.0,
            now.1,
            Some(sol),
        ),
    ensures
        searched_any::<A, C, S, P, H>(
            strong,
            is_goal,
            heuristic,
            n,
            ceiling,
            first.0,
            first.1,
            now.0,
            now.1,
            Some(sol),
        ),
{
    assert forall|goal: spec_fn(S::V) -> bool, est: spec_fn(S::V) -> nat| #[trigger]
        agrees::<S, C, P, H>(is_goal, heuristic, goal, est) implies searched::<A, C, S>(
        strong,
        est,
        goal,
        n,
        ceiling,
        first.0,
        first.1,
        now.0,
        now.1,
        Some(sol),
    ) by {
        lemma_explored_is_settled::<A, C, S>(
            strong,
            est,
            goal,
            n,
            ceiling,
            actions[upto],
            before.0,
            before.1,
            now.0,
            now.1,
            Some(sol),
        );
        lemma_tightened_twice::<A, C, S>(
            est,
            n,
            ceiling,
            first.0,
            first.1,
            before.0,
            before.1,
            now.0,
            now.1,
        );
    }
}

/// At a goal the search has found the trail that it came by.
pub proof fn lemma_goal_here<
    A,
    C: ScalarCost,
    S: NonUniformProblem<A, C>,
    P: Fn(&S) -> bool,
    H: Fn(&S) -> C,
>(strong: bool, is_goal: P, heuristic: H, n: Node<S::V>, ceiling: nat, first: (Option<C>, bool))
    requires
        judged::<S, P>(is_goal, n.here(), true),
    ensures
        searched_any::<A, C, S, P, H>(
            strong,
            is_goal,
            heuristic,
            n,
            ceiling,
            first.0,
            first.1,
            first.0,
            first.1,
            Some(n.trail),
        ),
{
    assert forall|goal: spec_fn(S::V) -> bool, est: spec_fn(S::V) -> nat| #[trigger]
        agrees::<S, C, P, H>(is_goal, heuristic, goal, est) implies searched::<A, C, S>(
        strong,
        est,
        goal,
        n,
        ceiling,
        first.0,
        first.1,
        first.0,
        first.1,
        Some(n.trail),
    ) by {
        let route = Seq::<WeightedAction<A, C>>::empty();
        assert(follows::<A, C, S>(est, n, route, ceiling));
        assert(arrival::<A, C, S>(n, route) == n);
    }
}

/// Once the search is done with every action on offer at a node that is
/// no goal, it has searched the node and found nothing.
pub proof fn lemma_progress_ends<
    A,
    C: ScalarCost,
    S: NonUniformProblem<A, C>,
    P: Fn(&S) -> bool,
    H: Fn(&S) -> C,
>(
    strong: bool,
    is_goal: P,
    heuristic: H,
    n: Node<S::V>,
    ceiling: nat,
    first: (Option<C>, bool),
    last: (Option<C>, bool),
)
    requires
        judged::<S, P>(is_goal, n.here(), false),
        progress::<A, C, S, P, H>(
            is_goal,
            heuristic,
            n,
            ceiling,
            S::offers(n.here()),
            S::offers(n.here()).len() as int,
            first,
            last,
        ),
    ensures
        searched_any::<A, C, S, P, H>(
            strong,
            is_goal,
            heuristic,
            n,
            ceiling,
            first.0,
            first.1,
            last.0,
            last.1,
            None,
        ),
{
    assert forall|goal: spec_fn(S::V) -> bool, est: spec_fn(S::V) -> nat| #[trigger]
        agrees::<S, C, P, H>(is_goal, heuristic, goal, est) implies searched::<A, C, S>(
        strong,
        est,
        goal,
        n,
        ceiling,
        first.0,
        first.1,
        last.0,
        last.1,
        None,
    ) by {
        lemma_all_settled_is_searched::<A, C, S>(strong, est, goal, n, ceiling, first, last);
    }
}

/// `entry` is one of the first `upto` of `candidates`.
pub open spec fn comes_from<A, C>(
    candidates: Seq<(WeightedAction<A, C>, C, usize)>,
    upto: int,
    entry: (WeightedAction<A, C>, C, usize),
) -> bool {
    exists|k: int| 0 <= k < upto && #[trigger] candidates[k] == entry
}

/// `entry` holds an action that the search may take at `n`, with what the
/// heuristic has returned for where it leads and its place among the
/// offers.
pub open spec fn eligible<A, C: ScalarCost, S: NonUniformProblem<A, C>, H: Fn(&S) -> C>(
    heuristic: H,
    n: Node<S::V>,
    entry: (WeightedAction<A, C>, C, usize),
) -> bool {
    &&& opens::<A, C, S>(n, entry.0)
    &&& estimated::<S, C, H>(heuristic, S::after(n.here(), entry.0.action), entry.1.value())
    &&& entry.2 < S::offers(n.here()).len()
    &&& S::offers(n.here())[entry.2 as int] == entry.0
}

/// One of `candidates` holds the offer at `j`.
pub open spec fn placed<A, C>(candidates: Seq<(WeightedAction<A, C>, C, usize)>, j: int) -> bool {
    exists|k: int| 0 <= k < candidates.len() && (#[trigger] candidates[k]).2 == j
}

/// The weighted actions that `candidates` hold.
pub open spec fn chosen<A, C>(candidates: Seq<(WeightedAction<A, C>, C, usize)>) -> Seq<
    WeightedAction<A, C>,
> {
    Seq::new(candidates.len(), |k: int| candidates[k].0)
}

/// `lhs` has the better estimate, or the same and the earlier place.
pub open spec fn goes_before<A, C: ScalarCost>(
    lhs: (WeightedAction<A, C>, C, usize),
    rhs: (WeightedAction<A, C>, C, usize),
) -> bool {
    lhs.1.value() < rhs.1.value() || (lhs.1.value() == rhs.1.value() && lhs.2 < rhs.2)
}

/// Each of `candidates` goes before those behind it.
pub open spec fn ordered<A, C: ScalarCost>(
    candidates: Seq<(WeightedAction<A, C>, C, usize)>,
) -> bool {
    forall|a: int, b: int|
        0 <= a < b < candidates.len() ==> goes_before(
            #[trigger] candidates[a],
            #[trigger] candidates[b],
        )
}

/// Once the search is done with every candidate, and the candidates hold
/// every action that it may take at a node that is no goal, it is done
/// with the node.
pub proof fn lemma_candidates_settled_is_searched<A, C: ScalarCost, S: NonUniformProblem<A, C>>(
    strong: bool,
    est: spec_fn(S::V) -> nat,
    goal: spec_fn(S::V) -> bool,
    n: Node<S::V>,
    ceiling: nat,
    candidates: Seq<(WeightedAction<A, C>, C, usize)>,
    actions: Seq<(WeightedAction<A, C>, C, usize)>,
    first: (Option<C>, bool),
    last: (Option<C>, bool),
)
    requires
        !goal(n.here()),
        actions.to_multiset() == candidates.to_multiset(),
        forall|k: int|
            0 <= k < candidates.len() ==> (#[trigger] candidates[k]).2 < S::offers(n.here()).len()
                && S::offers(n.here())[candidates[k].2 as int] == candidates[k].0,
        forall|j: int|
            0 <= j < S::offers(n.here()).len() && opens::<A, C, S>(
                n,
                #[trigger] S::offers(n.here())[j],
            ) ==> placed(candidates, j),
        all_settled::<A, C, S>(
            est,
            goal,
            n,
            ceiling,
            chosen(actions),
            actions.len() as int,
            last.0,
            last.1,
        ),
        tightened::<A, C, S>(est, n, ceiling, first.0, first.1, last.0, last.1),
    ensures
        searched::<A, C, S>(strong, est, goal, n, ceiling, first.0, first.1, last.0, last.1, None),
{
    let offers = S::offers(n.here());
    assert forall|j: int| 0 <= j < offers.len() implies settled::<A, C, S>(
        est,
        goal,
        n,
        ceiling,
        #[trigger] offers[j],
        last.0,
        last.1,
    ) by {
        if opens::<A, C, S>(n, offers[j]) {
            let k = choose|k: int| 0 <= k < candidates.len() && (#[trigger] candidates[k]).2 == j;
            assert(candidates.contains(candidates[k]));
            to_multiset_contains(candidates, candidates[k]);
            to_multiset_contains(actions, candidates[k]);
            let k2 = choose|k2: int| 0 <= k2 < actions.len() && actions[k2] == candidates[k];
            assert(chosen(actions)[k2] == offers[j]);
        }
    }
    lemma_all_settled_is_searched::<A, C, S>(strong, est, goal, n, ceiling, first, last);
}

/// Once the search is done with every candidate, and the candidates hold
/// every action that it may take at a node that is no goal, it has
/// searched the node and found nothing.
pub proof fn lemma_progress_ends_sorted<
    A,
    C: ScalarCost,
    S: NonUniformProblem<A, C>,
    P: Fn(&S) -> bool,
    H: Fn(&S) -> C,
>(
    strong: bool,
    is_goal: P,
    heuristic: H,
    n: Node<S::V>,
    ceiling: nat,
    candidates: Seq<(WeightedAction<A, C>, C, usize)>,
    actions: Seq<(WeightedAction<A, C>, C, usize)>,
    first: (Option<C>, bool),
    last: (Option<C>, bool),
)
    requires
        judged::<S, P>(is_goal, n.here(), false),
        actions.to_multiset() == candidates.to_multiset(),
        forall|k: int|
            0 <= k < candidates.len() ==> (#[trigger] candidates[k]).2 < S::offers(n.here()).len()
                && S::offers(n.here())[candidates[k].2 as int] == candidates[k].0,
        forall|j: int|
            0 <= j < S::offers(n.here()).len() && opens::<A, C, S>(
                n,
                #[trigger] S::offers(n.here())[j],
            ) ==> placed(candidates, j),
        progress::<A, C, S, P, H>(
            is_goal,
            heuristic,
            n,
            ceiling,
            chosen(actions),
            actions.len() as int,
            first,
            last,
        ),
    ensures
        searched_any::<A, C, S, P, H>(
            strong,
            is_goal,
            heuristic,
            n,
            ceiling,
            first.0,
            first.1,
            last.0,
            last.1,
            None,
        ),
{
    assert forall|goal: spec_fn(S::V) -> bool, est: spec_fn(S::V) -> nat| #[trigger]
        agrees::<S, C, P, H>(is_goal, heuristic, goal, est) implies searched::<A, C, S>(
        strong,
        est,
        goal,
        n,
        ceiling,
        first.0,
        first.1,
        last.0,
        last.1,
        None,
    ) by {
        lemma_candidates_settled_is_searched::<A, C, S>(
            strong,
            est,
            goal,
            n,
            ceiling,
            candidates,
            actions,
            first,
            last,
        );
    }
}

/// What a bounded search from the start has found is what the iteration
/// ends in.
pub proof fn lemma_searched_is_iterated<A, C: ScalarCost, S: NonUniformProblem<A, C>>(
    strong: bool,
    est: spec_fn(S::V) -> nat,
    goal: spec_fn(S::V) -> bool,
    n: Node<S::V>,
    ceiling: nat,
    next: Option<C>,
    overflowed: bool,
    result: Option<Seq<S::V>>,
    r: Result<Iteration<S, C>, SearchError>,
)
    requires
        searched::<A, C, S>(strong, est, goal, n, ceiling, None, false, next, overflowed, result),
        match r {
            Ok(iteration) => iteration.nb_visited_nodes == capped(
                visits::<A, C, S>(strong, est, goal, n, ceiling) as int,
            ) && match iteration.outcome {
                Outcome::Solved(sol) => result == Some(views(sol@)),
                Outcome::Rebound(bound) => result is None && next == Some(bound),
                Outcome::NoSolution => result is None && next is None && !overflowed,
            },
            Err(e) => e == SearchError::CostOverflow && result is None && next is None
                && overflowed,
        },
    ensures
        iterated::<A, C, S>(strong, est, goal, n, ceiling, r),
{
    if result is None {
        match next {
            Some(bound) => {
                bound.lemma_value_within_limit();
                lemma_overrun_is_beyond::<A, C, S>(est, n, ceiling, bound.value());
                assert forall|g: nat| #[trigger]
                    overruns::<A, C, S>(est, n, ceiling, g) implies bound.value() <= g by {
                    assert(covers(next, overflowed, g));
                }
            },
            None => {},
        }
    }
}

/// Where a search under a bound has come to no goal and rejected nothing
/// within the limit of the cost, no route within the limit leads to a
/// goal, and what is rejected at the limit is what was rejected.
pub proof fn lemma_exhausted<A, C: ScalarCost, S: NonUniformProblem<A, C>>(
    est: spec_fn(S::V) -> nat,
    goal: spec_fn(S::V) -> bool,
    n: Node<S::V>,
    ceiling: nat,
)
    requires
        n.trail.len() > 0,
        S::valid(n.here()),
        ceiling <= C::limit(),
        barren::<A, C, S>(est, goal, n, ceiling),
        forall|f: nat| #[trigger] overruns::<A, C, S>(est, n, ceiling, f) ==> f > C::limit(),
    ensures
        barren::<A, C, S>(est, goal, n, C::limit()),
        forall|f: nat|
            overruns::<A, C, S>(est, n, ceiling, f) == #[trigger] overruns::<A, C, S>(
                est,
                n,
                C::limit(),
                f,
            ),
        admissible::<A, C, S>(est, goal) ==> forall|route: Seq<WeightedAction<A, C>>| #[trigger]
            paces::<A, C, S>(n, route) && goal(arrival::<A, C, S>(n, route).here())
                ==> arrival::<A, C, S>(n, route).spent > C::limit(),
{
    let limit = C::limit();
    lemma_barren_under_fence::<A, C, S>(est, goal, n, ceiling, limit);
    assert forall|f: nat|
        overruns::<A, C, S>(est, n, ceiling, f) == #[trigger] overruns::<A, C, S>(
            est,
            n,
            limit,
            f,
        ) by {
        lemma_overruns_under_fence::<A, C, S>(est, n, ceiling, limit, f);
    }
    if admissible::<A, C, S>(est, goal) {
        assert forall|route: Seq<WeightedAction<A, C>>| #[trigger]
            paces::<A, C, S>(n, route) && goal(
                arrival::<A, C, S>(n, route).here(),
            ) implies arrival::<A, C, S>(n, route).spent > limit by {
            let f = lemma_missed_goal_overruns::<A, C, S>(est, goal, n, route, limit);
            lemma_overrun_is_beyond::<A, C, S>(est, n, limit, f);
        }
    }
}

/// Under an admissible estimate, the estimate for the start is no more
/// than what a route from there to a goal costs.
pub proof fn lemma_first_bound_undercuts<A, C: ScalarCost, S: NonUniformProblem<A, C>>(
    est: spec_fn(S::V) -> nat,
    goal: spec_fn(S::V) -> bool,
    v: S::V,
)
    requires
        S::valid(v),
        admissible::<A, C, S>(est, goal),
    ensures
        undercuts::<A, C, S>(goal, root(v), est(v)),
{
    let n = root(v);
    assert forall|route: Seq<WeightedAction<A, C>>| #[trigger]
        paces::<A, C, S>(n, route) && goal(arrival::<A, C, S>(n, route).here()) implies est(v)
        <= arrival::<A, C, S>(n, route).spent by {
        lemma_paced_arrival::<A, C, S>(n, route);
    }
}

/// Under an admissible estimate, the bound that an iteration without a
/// solution gives is no more than what a route to a goal costs.
pub proof fn lemma_next_bound_undercuts<A, C: ScalarCost, S: NonUniformProblem<A, C>>(
    est: spec_fn(S::V) -> nat,
    goal: spec_fn(S::V) -> bool,
    v: S::V,
    ceiling: nat,
    next: nat,
)
    requires
        S::valid(v),
        admissible::<A, C, S>(est, goal),
        barren::<A, C, S>(est, goal, root(v), ceiling),
        least_overrun::<A, C, S>(est, root(v), ceiling, next),
    ensures
        undercuts::<A, C, S>(goal, root(v), next),
{
    let n = root(v);
    assert forall|route: Seq<WeightedAction<A, C>>| #[trigger]
        paces::<A, C, S>(n, route) && goal(arrival::<A, C, S>(n, route).here()) implies next
        <= arrival::<A, C, S>(n, route).spent by {
        if !follows::<A, C, S>(est, n, route, ceiling) {
            let f = lemma_missed_goal_overruns::<A, C, S>(est, goal, n, route, ceiling);
        }
    }
}

/// What the iteration that ends a search ends in is what the search ends
/// in.
pub proof fn lemma_iterated_is_concluded<A, C: ScalarCost, S: NonUniformProblem<A, C>>(
    strong: bool,
    est: spec_fn(S::V) -> nat,
    goal: spec_fn(S::V) -> bool,
    v: S::V,
    chain: Seq<nat>,
    ceiling: nat,
    last: Result<Iteration<S, C>, SearchError>,
    r: Result<Option<Vec<S>>, SearchError>,
)
    requires
        S::valid(v),
        ceiling <= C::limit(),
        deepened::<A, C, S>(est, goal, root(v), chain),
        chain.last() == ceiling,
        iterated::<A, C, S>(strong, est, goal, root(v), ceiling, last),
        admissible::<A, C, S>(est, goal) ==> undercuts::<A, C, S>(goal, root(v), ceiling),
        match last {
            Ok(iteration) => match iteration.outcome {
                Outcome::Solved(sol) => r == Ok::<Option<Vec<S>>, SearchError>(Some(sol)),
                Outcome::Rebound(_) => false,
                Outcome::NoSolution => r == Ok::<Option<Vec<S>>, SearchError>(None),
            },
            Err(e) => r == Err::<Option<Vec<S>>, SearchError>(e),
        },
    ensures
        concluded::<A, C, S>(strong, est, goal, root(v), r),
{
    let n = root(v);
    let limit = C::limit();
    match r {
        Ok(Some(sol)) => {
            let route = choose|route: Seq<WeightedAction<A, C>>| #[trigger]
                follows::<A, C, S>(est, n, route, ceiling) && arrival::<A, C, S>(n, route).trail
                    == views(sol@) && goal(arrival::<A, C, S>(n, route).here()) && leads::<
                    A,
                    C,
                    S,
                >(strong, est, goal, n, route, ceiling);
            lemma_follows_eases::<A, C, S>(est, n, route, ceiling, limit);
            lemma_followed_is_paced::<A, C, S>(est, n, route, ceiling);
            lemma_paced_trail_has_no_repeats::<A, C, S>(n, route);
            lemma_followed_cost_within::<A, C, S>(est, n, route, ceiling);
            assert(no_repeats::<A, C, S>(views(sol@)));
            assert(follows::<A, C, S>(est, n, route, limit));
            if admissible::<A, C, S>(est, goal) {
                assert forall|other: Seq<WeightedAction<A, C>>| #[trigger]
                    paces::<A, C, S>(n, other) && goal(
                        arrival::<A, C, S>(n, other).here(),
                    ) implies arrival::<A, C, S>(n, route).spent <= arrival::<A, C, S>(
                    n,
                    other,
                ).spent by {}
            }
            assert(solves::<A, C, S>(strong, est, goal, n, chain, route, views(sol@)));
        },
        Ok(None) => {
            lemma_exhausted::<A, C, S>(est, goal, n, ceiling);
            assert forall|f: nat| !#[trigger] overruns::<A, C, S>(est, n, limit, f) by {
                assert(!overruns::<A, C, S>(est, n, ceiling, f));
            }
            assert(complete::<A, C, S, Vec<S>>(est, goal, n, r));
        },
        Err(e) => {
            lemma_exhausted::<A, C, S>(est, goal, n, ceiling);
            let f = choose|f: nat| #[trigger] overruns::<A, C, S>(est, n, ceiling, f);
            assert(overruns::<A, C, S>(est, n, limit, f));
            assert(complete::<A, C, S, Vec<S>>(est, goal, n, r));
        },
    }
}

/// The bounds that the search goes through go on with the least rank
/// that it rejected under the last, where it came to no goal under it.
pub proof fn lemma_deepened_grows<A, C: ScalarCost, S: NonUniformProblem<A, C>>(
    est: spec_fn(S::V) -> nat,
    goal: spec_fn(S::V) -> bool,
    n: Node<S::V>,
    chain: Seq<nat>,
    next: nat,
)
    requires
        deepened::<A, C, S>(est, goal, n, chain),
        barren::<A, C, S>(est, goal, n, chain.last()),
        least_overrun::<A, C, S>(est, n, chain.last(), next),
    ensures
        deepened::<A, C, S>(est, goal, n, chain.push(next)),
{
    let longer = chain.push(next);
    assert forall|i: int| 0 <= i < longer.len() - 1 implies barren::<A, C, S>(
        est,
        goal,
        n,
        #[trigger] longer[i],
    ) && least_overrun::<A, C, S>(est, n, longer[i], longer[i + 1]) by {
        if i < chain.len() - 1 {
            assert(longer[i] == chain[i]);
            assert(longer[i + 1] == chain[i + 1]);
        }
    }
}

/// The bounds that the search goes through are the same however they are
/// told.
pub proof fn lemma_deepened_is_determined<A, C: ScalarCost, S: NonUniformProblem<A, C>>(
    est: spec_fn(S::V) -> nat,
    goal: spec_fn(S::V) -> bool,
    n: Node<S::V>,
    chain: Seq<nat>,
    other: Seq<nat>,
    i: int,
)
    requires
        deepened::<A, C, S>(est, goal, n, chain),
        deepened::<A, C, S>(est, goal, n, other),
        0 <= i < chain.len(),
        i < other.len(),
    ensures
        chain[i] == other[i],
    decreases i,
{
    if i > 0 {
        lemma_deepened_is_determined::<A, C, S>(est, goal, n, chain, other, i - 1);
        assert(least_overrun::<A, C, S>(est, n, chain[i - 1], chain[i]));
        assert(least_overrun::<A, C, S>(est, n, other[i - 1], other[i]));
    }
}

/// Whatever functions the goal predicate and the heuristic compute, the
/// counter of visits has gone from `first` to `now` by the state of `n`
/// and what the search visits below the admitted offers of `done`.
pub open spec fn counting<
    A,
    C: ScalarCost,
    S: NonUniformProblem<A, C>,
    P: Fn(&S) -> bool,
    H: Fn(&S) -> C,
>(
    strong: bool,
    is_goal: P,
    heuristic: H,
    n: Node<S::V>,
    ceiling: nat,
    done: Set<int>,
    first: usize,
    now: usize,
) -> bool {
    forall|goal: spec_fn(S::V) -> bool, est: spec_fn(S::V) -> nat| #[trigger]
        agrees::<S, C, P, H>(is_goal, heuristic, goal, est) ==> {
            &&& now == capped(
                first + 1 + visits_among::<A, C, S>(
                    strong,
                    est,
                    goal,
                    n,
                    ceiling,
                    done,
                    S::offers(n.here()).len() as int,
                ),
            )
            &&& n.trail.len() < usize::MAX || visits_among::<A, C, S>(
                strong,
                est,
                goal,
                n,
                ceiling,
                done,
                S::offers(n.here()).len() as int,
            ) == 0
        }
}

/// Whatever functions the goal predicate and the heuristic compute, `n`
/// is no goal and the offers that the search takes there are the
/// admitted ones of `done`.
pub open spec fn matched<
    A,
    C: ScalarCost,
    S: NonUniformProblem<A, C>,
    P: Fn(&S) -> bool,
    H: Fn(&S) -> C,
>(
    strong: bool,
    is_goal: P,
    heuristic: H,
    n: Node<S::V>,
    ceiling: nat,
    done: Set<int>,
) -> bool {
    forall|goal: spec_fn(S::V) -> bool, est: spec_fn(S::V) -> nat| #[trigger]
        agrees::<S, C, P, H>(is_goal, heuristic, goal, est) ==> !goal(n.here())
            && matches_taken::<A, C, S>(strong, est, goal, n, ceiling, done)
}

/// The offers before `upto`.
pub open spec fn firsts(upto: int) -> Set<int> {
    Set::new(|j: int| 0 <= j < upto)
}

/// The places among the offers of the first `upto` of `actions`.
pub open spec fn places<A, C>(actions: Seq<(WeightedAction<A, C>, C, usize)>, upto: int) -> Set<
    int,
> {
    Set::new(|j: int| exists|q: int| 0 <= q < upto && (#[trigger] actions[q]).2 == j)
}

/// Once the state of a node is counted, the count stands at that state.
pub proof fn lemma_counting_starts<
    A,
    C: ScalarCost,
    S: NonUniformProblem<A, C>,
    P: Fn(&S) -> bool,
    H: Fn(&S) -> C,
>(
    strong: bool,
    is_goal: P,
    heuristic: H,
    n: Node<S::V>,
    ceiling: nat,
    first: usize,
    now: usize,
)
    requires
        counted(first, now),
    ensures
        counting::<A, C, S, P, H>(strong, is_goal, heuristic, n, ceiling, Set::empty(), first, now),
{
    assert forall|goal: spec_fn(S::V) -> bool, est: spec_fn(S::V) -> nat| #[trigger]
        agrees::<S, C, P, H>(is_goal, heuristic, goal, est) implies {
        &&& now == capped(
            first + 1 + visits_among::<A, C, S>(
                strong,
                est,
                goal,
                n,
                ceiling,
                Set::empty(),
                S::offers(n.here()).len() as int,
            ),
        )
        &&& n.trail.len() < usize::MAX || visits_among::<A, C, S>(
            strong,
            est,
            goal,
            n,
            ceiling,
            Set::empty(),
            S::offers(n.here()).len() as int,
        ) == 0
    } by {
        lemma_visits_among_none::<A, C, S>(
            strong,
            est,
            goal,
            n,
            ceiling,
            S::offers(n.here()).len() as int,
        );
    }
}

/// An offer that the search does not go along leaves the count as it is:
/// one that leads back to a state of the trail, or one whose rank is
/// beyond the bound. `known` is what the heuristic has returned for where
/// the offer leads, or 0 where it has not been asked.
pub proof fn lemma_counting_passes<
    A,
    C: ScalarCost,
    S: NonUniformProblem<A, C>,
    P: Fn(&S) -> bool,
    H: Fn(&S) -> C,
>(
    strong: bool,
    is_goal: P,
    heuristic: H,
    n: Node<S::V>,
    ceiling: nat,
    done: Set<int>,
    j: int,
    first: usize,
    now: usize,
    known: nat,
)
    requires
        counting::<A, C, S, P, H>(strong, is_goal, heuristic, n, ceiling, done, first, now),
        !done.contains(j),
        0 <= j < S::offers(n.here()).len(),
        !opens::<A, C, S>(n, S::offers(n.here())[j]) || ((known == 0 || estimated::<S, C, H>(
            heuristic,
            S::after(n.here(), S::offers(n.here())[j].action),
            known,
        )) && n.spent + S::offers(n.here())[j].cost.value() + known > ceiling),
    ensures
        counting::<A, C, S, P, H>(
            strong,
            is_goal,
            heuristic,
            n,
            ceiling,
            done.insert(j),
            first,
            now,
        ),
{
    let len = S::offers(n.here()).len() as int;
    assert forall|goal: spec_fn(S::V) -> bool, est: spec_fn(S::V) -> nat| #[trigger]
        agrees::<S, C, P, H>(is_goal, heuristic, goal, est) implies {
        &&& now == capped(
            first + 1 + visits_among::<A, C, S>(strong, est, goal, n, ceiling, done.insert(j), len),
        )
        &&& n.trail.len() < usize::MAX || visits_among::<A, C, S>(
            strong,
            est,
            goal,
            n,
            ceiling,
            done.insert(j),
            len,
        ) == 0
    } by {
        lemma_visits_among_grows::<A, C, S>(strong, est, goal, n, ceiling, done, j, len);
    }
}

/// An offer below which the search has searched adds what it visited
/// there to the count.
pub proof fn lemma_counting_explores<
    A,
    C: ScalarCost,
    S: NonUniformProblem<A, C>,
    P: Fn(&S) -> bool,
    H: Fn(&S) -> C,
>(
    strong: bool,
    is_goal: P,
    heuristic: H,
    n: Node<S::V>,
    ceiling: nat,
    done: Set<int>,
    j: int,
    first: usize,
    before: usize,
    now: usize,
    known: nat,
)
    requires
        counting::<A, C, S, P, H>(strong, is_goal, heuristic, n, ceiling, done, first, before),
        !done.contains(j),
        0 <= j < S::offers(n.here()).len(),
        n.trail.len() < usize::MAX,
        opens::<A, C, S>(n, S::offers(n.here())[j]),
        estimated::<S, C, H>(
            heuristic,
            S::after(n.here(), S::offers(n.here())[j].action),
            known,
        ),
        n.spent + S::offers(n.here())[j].cost.value() + known <= ceiling,
        visited::<A, C, S, P, H>(
            strong,
            is_goal,
            heuristic,
            step::<A, C, S>(n, S::offers(n.here())[j]),
            ceiling,
            before,
            now,
        ),
    ensures
        counting::<A, C, S, P, H>(
            strong,
            is_goal,
            heuristic,
            n,
            ceiling,
            done.insert(j),
            first,
            now,
        ),
{
    let len = S::offers(n.here()).len() as int;
    assert forall|goal: spec_fn(S::V) -> bool, est: spec_fn(S::V) -> nat| #[trigger]
        agrees::<S, C, P, H>(is_goal, heuristic, goal, est) implies {
        &&& now == capped(
            first + 1 + visits_among::<A, C, S>(strong, est, goal, n, ceiling, done.insert(j), len),
        )
        &&& n.trail.len() < usize::MAX || visits_among::<A, C, S>(
            strong,
            est,
            goal,
            n,
            ceiling,
            done.insert(j),
            len,
        ) == 0
    } by {
        lemma_visits_among_grows::<A, C, S>(strong, est, goal, n, ceiling, done, j, len);
    }
}

/// Where the search stops at an offer for a goal, it has visited from the
/// node what it visits from there.
pub proof fn lemma_counting_stops<
    A,
    C: ScalarCost,
    S: NonUniformProblem<A, C>,
    P: Fn(&S) -> bool,
    H: Fn(&S) -> C,
>(
    strong: bool,
    is_goal: P,
    heuristic: H,
    n: Node<S::V>,
    ceiling: nat,
    done: Set<int>,
    j: int,
    first: usize,
    before: usize,
    now: usize,
    known: nat,
)
    requires
        counting::<A, C, S, P, H>(strong, is_goal, heuristic, n, ceiling, done, first, before),
        !done.contains(j),
        0 <= j < S::offers(n.here()).len(),
        n.trail.len() < usize::MAX,
        opens::<A, C, S>(n, S::offers(n.here())[j]),
        estimated::<S, C, H>(
            heuristic,
            S::after(n.here(), S::offers(n.here())[j].action),
            known,
        ),
        n.spent + S::offers(n.here())[j].cost.value() + known <= ceiling,
        visited::<A, C, S, P, H>(
            strong,
            is_goal,
            heuristic,
            step::<A, C, S>(n, S::offers(n.here())[j]),
            ceiling,
            before,
            now,
        ),
        matched::<A, C, S, P, H>(strong, is_goal, heuristic, n, ceiling, done.insert(j)),
    ensures
        visited::<A, C, S, P, H>(strong, is_goal, heuristic, n, ceiling, first, now),
{
    let len = S::offers(n.here()).len() as int;
    assert forall|goal: spec_fn(S::V) -> bool, est: spec_fn(S::V) -> nat| #[trigger]
        agrees::<S, C, P, H>(is_goal, heuristic, goal, est) implies now == capped(
        first + visits::<A, C, S>(strong, est, goal, n, ceiling),
    ) by {
        lemma_visits_among_grows::<A, C, S>(strong, est, goal, n, ceiling, done, j, len);
        lemma_visits_counted::<A, C, S>(strong, est, goal, n, ceiling, done.insert(j));
    }
}

/// Where the search is done with every offer, it has visited from the
/// node what it visits from there.
pub proof fn lemma_counting_ends<
    A,
    C: ScalarCost,
    S: NonUniformProblem<A, C>,
    P: Fn(&S) -> bool,
    H: Fn(&S) -> C,
>(
    strong: bool,
    is_goal: P,
    heuristic: H,
    n: Node<S::V>,
    ceiling: nat,
    done: Set<int>,
    first: usize,
    last: usize,
)
    requires
        counting::<A, C, S, P, H>(strong, is_goal, heuristic, n, ceiling, done, first, last),
        matched::<A, C, S, P, H>(strong, is_goal, heuristic, n, ceiling, done),
    ensures
        visited::<A, C, S, P, H>(strong, is_goal, heuristic, n, ceiling, first, last),
{
    assert forall|goal: spec_fn(S::V) -> bool, est: spec_fn(S::V) -> nat| #[trigger]
        agrees::<S, C, P, H>(is_goal, heuristic, goal, est) implies last == capped(
        first + visits::<A, C, S>(strong, est, goal, n, ceiling),
    ) by {
        lemma_visits_counted::<A, C, S>(strong, est, goal, n, ceiling, done);
    }
}

/// At a goal the search visits that state and no more.
pub proof fn lemma_visited_at_goal<
    A,
    C: ScalarCost,
    S: NonUniformProblem<A, C>,
    P: Fn(&S) -> bool,
    H: Fn(&S) -> C,
>(
    strong: bool,
    is_goal: P,
    heuristic: H,
    n: Node<S::V>,
    ceiling: nat,
    first: usize,
    now: usize,
)
    requires
        judged::<S, P>(is_goal, n.here(), true),
        counted(first, now),
    ensures
        visited::<A, C, S, P, H>(strong, is_goal, heuristic, n, ceiling, first, now),
{
}

/// In the order of the offers, the search takes the admitted ones among
/// the first `upto`, and the one at `upto` where it stops there for a
/// goal.
pub proof fn lemma_matched_by_offer<
    A,
    C: ScalarCost,
    S: NonUniformProblem<A, C>,
    P: Fn(&S) -> bool,
    H: Fn(&S) -> C,
>(
    is_goal: P,
    heuristic: H,
    n: Node<S::V>,
    ceiling: nat,
    upto: int,
    first: (Option<C>, bool),
    before: (Option<C>, bool),
    now: (Option<C>, bool),
    known: nat,
    result: Option<Seq<S::V>>,
)
    requires
        judged::<S, P>(is_goal, n.here(), false),
        0 <= upto <= S::offers(n.here()).len(),
        progress::<A, C, S, P, H>(
            is_goal,
            heuristic,
            n,
            ceiling,
            S::offers(n.here()),
            upto,
            first,
            before,
        ),
        match result {
            Some(sol) => {
                &&& upto < S::offers(n.here()).len()
                &&& opens::<A, C, S>(n, S::offers(n.here())[upto])
                &&& estimated::<S, C, H>(
                    heuristic,
                    S::after(n.here(), S::offers(n.here())[upto].action),
                    known,
                )
                &&& n.spent + S::offers(n.here())[upto].cost.value() + known <= ceiling
                &&& searched_any::<A, C, S, P, H>(
                    false,
                    is_goal,
                    heuristic,
                    step::<A, C, S>(n, S::offers(n.here())[upto]),
                    ceiling,
                    before.0,
                    before.1,
                    now.0,
                    now.1,
                    Some(sol),
                )
            },
            None => upto == S::offers(n.here()).len(),
        },
    ensures
        matched::<A, C, S, P, H>(
            false,
            is_goal,
            heuristic,
            n,
            ceiling,
            if result is Some {
                firsts(upto).insert(upto)
            } else {
                firsts(upto)
            },
        ),
{
    let offers = S::offers(n.here());
    let done = firsts(upto);
    let all = if result is Some {
        done.insert(upto)
    } else {
        done
    };
    let stop = if result is Some {
        Some(upto)
    } else {
        None
    };
    assert forall|goal: spec_fn(S::V) -> bool, est: spec_fn(S::V) -> nat| #[trigger]
        agrees::<S, C, P, H>(is_goal, heuristic, goal, est) implies !goal(n.here())
        && matches_taken::<A, C, S>(false, est, goal, n, ceiling, all) by {
        assert forall|j: int|
            0 <= j < offers.len() && #[trigger] done.contains(j) && admits::<A, C, S>(
                est,
                n,
                offers[j],
                ceiling,
            ) implies barren::<A, C, S>(est, goal, step::<A, C, S>(n, offers[j]), ceiling) by {
            assert(settled::<A, C, S>(est, goal, n, ceiling, offers[j], before.0, before.1));
        }
        match result {
            Some(sol) => {
                let m = step::<A, C, S>(n, offers[upto]);
                assert(found::<A, C, S>(false, est, goal, m, ceiling, sol));
                let route = choose|route: Seq<WeightedAction<A, C>>| #[trigger]
                    follows::<A, C, S>(est, m, route, ceiling) && arrival::<A, C, S>(
                        m,
                        route,
                    ).trail == sol && goal(arrival::<A, C, S>(m, route).here());
                assert(!barren::<A, C, S>(est, goal, m, ceiling));
            },
            None => {},
        }
        lemma_taken_matches::<A, C, S>(false, est, goal, n, ceiling, done, stop);
    }
}

/// By the estimates, the search takes the admitted ones among the first
/// `upto` candidates, and the one at `upto` where it stops there for a
/// goal.
pub proof fn lemma_matched_by_estimate<
    A,
    C: ScalarCost,
    S: NonUniformProblem<A, C>,
    P: Fn(&S) -> bool,
    H: Fn(&S) -> C,
>(
    is_goal: P,
    heuristic: H,
    n: Node<S::V>,
    ceiling: nat,
    actions: Seq<(WeightedAction<A, C>, C, usize)>,
    upto: int,
    first: (Option<C>, bool),
    before: (Option<C>, bool),
    now: (Option<C>, bool),
    result: Option<Seq<S::V>>,
)
    requires
        judged::<S, P>(is_goal, n.here(), false),
        0 <= upto <= actions.len(),
        progress::<A, C, S, P, H>(
            is_goal,
            heuristic,
            n,
            ceiling,
            chosen(actions),
            upto,
            first,
            before,
        ),
        ordered(actions),
        forall|q: int|
            0 <= q < actions.len() ==> eligible::<A, C, S, H>(heuristic, n, #[trigger] actions[q]),
        forall|j: int|
            0 <= j < S::offers(n.here()).len() && opens::<A, C, S>(
                n,
                #[trigger] S::offers(n.here())[j],
            ) ==> placed(actions, j),
        match result {
            Some(sol) => {
                &&& upto < actions.len()
                &&& n.spent + actions[upto].0.cost.value() + actions[upto].1.value() <= ceiling
                &&& searched_any::<A, C, S, P, H>(
                    true,
                    is_goal,
                    heuristic,
                    step::<A, C, S>(n, actions[upto].0),
                    ceiling,
                    before.0,
                    before.1,
                    now.0,
                    now.1,
                    Some(sol),
                )
            },
            None => upto == actions.len(),
        },
    ensures
        matched::<A, C, S, P, H>(
            true,
            is_goal,
            heuristic,
            n,
            ceiling,
            if result is Some {
                places(actions, upto).insert(actions[upto].2 as int)
            } else {
                places(actions, upto)
            },
        ),
{
    let offers = S::offers(n.here());
    let done = places(actions, upto);
    let all = if result is Some {
        done.insert(actions[upto].2 as int)
    } else {
        done
    };
    let stop = if result is Some {
        Some(actions[upto].2 as int)
    } else {
        None
    };
    assert forall|goal: spec_fn(S::V) -> bool, est: spec_fn(S::V) -> nat| #[trigger]
        agrees::<S, C, P, H>(is_goal, heuristic, goal, est) implies !goal(n.here())
        && matches_taken::<A, C, S>(true, est, goal, n, ceiling, all) by {
        assert forall|j: int|
            0 <= j < offers.len() && #[trigger] done.contains(j) && admits::<A, C, S>(
                est,
                n,
                offers[j],
                ceiling,
            ) implies barren::<A, C, S>(est, goal, step::<A, C, S>(n, offers[j]), ceiling) by {
            let q = choose|q: int| 0 <= q < upto && (#[trigger] actions[q]).2 == j;
            assert(eligible::<A, C, S, H>(heuristic, n, actions[q]));
            assert(chosen(actions)[q] == offers[j]);
            assert(settled::<A, C, S>(
                est,
                goal,
                n,
                ceiling,
                chosen(actions)[q],
                before.0,
                before.1,
            ));
        }
        assert forall|j: int, i: int|
            0 <= j < offers.len() && 0 <= i < offers.len() && #[trigger] precedes::<A, C, S>(
                true,
                est,
                n,
                j,
                i,
            ) && admits::<A, C, S>(est, n, offers[j], ceiling) && (done.contains(i) || stop
                == Some(i)) implies done.contains(j) by {
            let qi = if done.contains(i) {
                choose|q: int| 0 <= q < upto && (#[trigger] actions[q]).2 == i
            } else {
                upto
            };
            let qj = choose|q: int| 0 <= q < actions.len() && (#[trigger] actions[q]).2 == j;
            assert(eligible::<A, C, S, H>(heuristic, n, actions[qi]));
            assert(eligible::<A, C, S, H>(heuristic, n, actions[qj]));
            assert(goes_before(actions[qj], actions[qi]));
            if qj > qi {
                assert(goes_before(actions[qi], actions[qj]));
            }
            assert(qj < qi);
        }
        match result {
            Some(sol) => {
                let p = actions[upto].2 as int;
                assert(eligible::<A, C, S, H>(heuristic, n, actions[upto]));
                let m = step::<A, C, S>(n, offers[p]);
                assert(found::<A, C, S>(true, est, goal, m, ceiling, sol));
                let route = choose|route: Seq<WeightedAction<A, C>>| #[trigger]
                    follows::<A, C, S>(est, m, route, ceiling) && arrival::<A, C, S>(
                        m,
                        route,
                    ).trail == sol && goal(arrival::<A, C, S>(m, route).here());
                assert(!barren::<A, C, S>(est, goal, m, ceiling));
                assert forall|j: int|
                    0 <= j < offers.len() && admits::<A, C, S>(est, n, offers[j], ceiling)
                        && !done.contains(j) && j != p implies #[trigger] precedes::<A, C, S>(
                    true,
                    est,
                    n,
                    p,
                    j,
                ) by {
                    let q = choose|q: int| 0 <= q < actions.len() && (#[trigger] actions[q]).2 == j;
                    assert(eligible::<A, C, S, H>(heuristic, n, actions[q]));
                    if q < upto {
                        assert(done.contains(j));
                    }
                    assert(goes_before(actions[upto], actions[q]));
                }
            },
            None => {
                assert forall|j: int|
                    0 <= j < offers.len() && admits::<A, C, S>(
                        est,
                        n,
                        offers[j],
                        ceiling,
                    ) implies #[trigger] done.contains(j) by {
                    let q = choose|q: int| 0 <= q < actions.len() && (#[trigger] actions[q]).2 == j;
                    assert(actions[q].2 == j);
                }
            },
        }
        lemma_taken_matches::<A, C, S>(true, est, goal, n, ceiling, done, stop);
    }
}

} // verus!
