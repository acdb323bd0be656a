//! Iterative-deepening A*: bounded depth-first searches under a bound that
//! each search without a solution raises to the least rank that it
//! rejected.

use crate::algorithms::{
    best_cost_first, Cost, NonUniformProblem, ScalarCost, SearchError, WeightedAction,
};
use crate::algorithms::routes::{
    lemma_overrun_is_beyond,
    admissible, arrival, barren, capped, destination, eases, faithful, fenced, follows, leads,
    lemma_followed_is_paced, lemma_leads_is_determined, lemma_leads_is_followed,
    lemma_no_walk_reaches_goal, lemma_no_walk_undercuts, lemma_paced_arrival,
    lemma_paced_is_followed, lemma_paced_trail_has_no_repeats, lemma_reachable_from_itself,
    lemma_traced_from_step, lemma_traced_here, no_repeats, Node, opens, overruns, paces, rank,
    reachable, rejects, revisits, root, step, tightened, total, traced, visits, walks,
};
use crate::algorithms::steps::{
    chosen, comes_from, counted, counting, eligible, firsts, goes_before, lemma_counting_ends,
    lemma_counting_explores, lemma_counting_passes, lemma_counting_starts, lemma_counting_stops,
    lemma_deepened_grows, lemma_deepened_is_determined, lemma_first_bound_undercuts,
    lemma_found_below, lemma_goal_here, lemma_iterated_is_concluded, lemma_matched_by_estimate,
    lemma_matched_by_offer, lemma_next_bound_undercuts, lemma_progress_ends,
    lemma_progress_ends_sorted, lemma_progress_explores, lemma_progress_overflows,
    lemma_progress_prunes, lemma_progress_skips, lemma_progress_starts,
    lemma_searched_is_iterated, lemma_suits_through, lemma_took_first_by_estimate,
    lemma_took_first_by_offer, lemma_visited_at_goal, ordered, placed, places, progress,
};
use std::cmp::Ordering;
use vstd::prelude::*;
use vstd::seq_lib::{to_multiset_build, to_multiset_contains, to_multiset_insert};
use vstd::std_specs::cmp::PartialEqSpec;

verus! {

/// The views of the states of a path.
pub open spec fn views<S: View>(path: Seq<S>) -> Seq<S::V> {
    Seq::new(path.len(), |i: int| path[i]@)
}

/// `is_goal` computes `goal` and `heuristic` computes `est`: whatever they
/// return for a state is what these functions give for what the state is
/// seen as.
pub open spec fn agrees<S: View, C: ScalarCost, P: Fn(&S) -> bool, H: Fn(&S) -> C>(
    is_goal: P,
    heuristic: H,
    goal: spec_fn(S::V) -> bool,
    est: spec_fn(S::V) -> nat,
    ) -> bool {
    &&& forall|s: S, r: bool| #[trigger] is_goal.ensures((&s,), r) ==> r == goal(s@)
    &&& forall|s: S, c: C| #[trigger] heuristic.ensures((&s,), c) ==> c.value() == est(s@)
}

/// The goal predicate has returned `r` for a state seen as `v`.
pub open spec fn judged<S: View, P: Fn(&S) -> bool>(is_goal: P, v: S::V, r: bool) -> bool {
    exists|s: S| #[trigger] is_goal.ensures((&s,), r) && s@ == v
}

/// The heuristic has returned a cost of `value` for a state seen as `v`.
pub open spec fn estimated<S: View, C: ScalarCost, H: Fn(&S) -> C>(
    heuristic: H,
    v: S::V,
    value: nat,
    ) -> bool {
    exists|s: S, c: C| #[trigger] heuristic.ensures((&s,), c) && s@ == v && c.value() == value
}

/// `f` can be called on every valid state that can be reached from `v`.
pub open spec fn serves<A, C: ScalarCost, S: NonUniformProblem<A, C>, R, F: Fn(&S) -> R>(
    f: F,
    v: S::V,
    ) -> bool {
    forall|s: S| S::valid(s@) && reachable::<A, C, S>(v, s@) ==> #[trigger] f.requires((&s,))
}

/// What a search asks of its arguments: a valid state to start from, an
/// `==` and a `clone` that go by what a state is seen as, and a goal
/// predicate and a heuristic that can be called wherever the search may
/// come.
pub open spec fn suits<
    A,
    C: ScalarCost,
    S: NonUniformProblem<A, C> + PartialEq + Clone,
    P: Fn(&S) -> bool,
    H: Fn(&S) -> C,
    >(is_goal: P, heuristic: H, v: S::V) -> bool {
    &&& S::valid(v)
    &&& S::obeys_eq_spec()
    &&& forall|a: S, b: S| #[trigger] a.eq_spec(&b) == S::same(a@, b@)
    &&& forall|a: S, b: S| #[trigger] cloned(a, b) ==> b@ == a@
    &&& serves::<A, C, S, bool, P>(is_goal, v)
    &&& serves::<A, C, S, C, H>(heuristic, v)
}

/// The greatest rank that a search under `upper_bound` goes into: the
/// bound, or without one the limit of the cost.
pub open spec fn ceiling_of<C: ScalarCost>(upper_bound: Option<C>) -> nat {
    match upper_bound {
        Some(bound) => bound.value(),
        None => C::limit(),
    }
}

/// `sol` is the trail of the goal that the search under `ceiling` first
/// comes to from `n`.
pub open spec fn found<A, C: ScalarCost, S: NonUniformProblem<A, C>>(
    strong: bool,
    est: spec_fn(S::V) -> nat,
    goal: spec_fn(S::V) -> bool,
    n: Node<S::V>,
    ceiling: nat,
    sol: Seq<S::V>,
    ) -> bool {
    exists|route: Seq<WeightedAction<A, C>>| #[trigger]
        follows::<A, C, S>(est, n, route, ceiling) && arrival::<A, C, S>(n, route).trail == sol
            && goal(arrival::<A, C, S>(n, route).here()) && leads::<A, C, S>(
            strong,
            est,
            goal,
            n,
            route,
            ceiling,
        )
}

/// What a bounded search from `n` has done when it returns: it has found
/// the trail of a goal under the bound, or there is none and every rank
/// that it rejected is accounted for; and the next bound and the overflow
/// mark have changed only for ranks that it rejected.
pub open spec fn searched<A, C: ScalarCost, S: NonUniformProblem<A, C>>(
    strong: bool,
    est: spec_fn(S::V) -> nat,
    goal: spec_fn(S::V) -> bool,
    n: Node<S::V>,
    ceiling: nat,
    next: Option<C>,
    overflowed: bool,
    next2: Option<C>,
    overflowed2: bool,
    result: Option<Seq<S::V>>,
    ) -> bool {
    &&& tightened::<A, C, S>(est, n, ceiling, next, overflowed, next2, overflowed2)
    &&& match result {
        Some(sol) => found::<A, C, S>(strong, est, goal, n, ceiling, sol),
        None => barren::<A, C, S>(est, goal, n, ceiling) && fenced::<A, C, S>(
            est,
            n,
            ceiling,
            next2,
            overflowed2,
        ),
    }
}

/// The trail that a search has returned, if it has returned one.
pub open spec fn trail_of<S: View>(r: Result<Option<Vec<S>>, SearchError>) -> Option<Seq<S::V>> {
    match r {
        Ok(Some(sol)) => Some(views(sol@)),
        _ => None,
    }
}

/// `searched` holds for whatever functions the goal predicate and the
/// heuristic compute.
pub open spec fn searched_any<
    A,
    C: ScalarCost,
    S: NonUniformProblem<A, C>,
    P: Fn(&S) -> bool,
    H: Fn(&S) -> C,
    >(
    strong: bool,
    is_goal: P,
    heuristic: H,
    n: Node<S::V>,
    ceiling: nat,
    next: Option<C>,
    overflowed: bool,
    next2: Option<C>,
    overflowed2: bool,
    result: Option<Seq<S::V>>,
    ) -> bool {
    forall|goal: spec_fn(S::V) -> bool, est: spec_fn(S::V) -> nat| #[trigger]
        agrees::<S, C, P, H>(is_goal, heuristic, goal, est) ==> searched::<A, C, S>(
            strong,
            est,
            goal,
            n,
            ceiling,
            next,
            overflowed,
            next2,
            overflowed2,
            result,
        )
}

/// Whatever functions the goal predicate and the heuristic compute, the
/// counter of visits has gone from `before` to `after` by the number of
/// states that the search under `ceiling` visits from `n` on, up to the
/// greatest number that it can hold.
pub open spec fn visited<
    A,
    C: ScalarCost,
    S: NonUniformProblem<A, C>,
    P: Fn(&S) -> bool,
    H: Fn(&S) -> C,
    >(
    strong: bool,
    is_goal: P,
    heuristic: H,
    n: Node<S::V>,
    ceiling: nat,
    before: usize,
    after: usize,
    ) -> bool {
    forall|goal: spec_fn(S::V) -> bool, est: spec_fn(S::V) -> nat| #[trigger]
        agrees::<S, C, P, H>(is_goal, heuristic, goal, est) ==> after == capped(
            before + visits::<A, C, S>(strong, est, goal, n, ceiling),
        )
}

/// Whatever function the goal predicate computes, at a goal the next
/// bound and the overflow mark are as they were.
pub open spec fn rests_at_goal<S: View, C: ScalarCost, P: Fn(&S) -> bool, H: Fn(&S) -> C>(
    is_goal: P,
    heuristic: H,
    v: S::V,
    before: (Option<C>, bool),
    after: (Option<C>, bool),
    ) -> bool {
    forall|goal: spec_fn(S::V) -> bool, est: spec_fn(S::V) -> nat| #[trigger]
        agrees::<S, C, P, H>(is_goal, heuristic, goal, est) && goal(v) ==> after == before
}

/// Where the goal predicate has said no, the state is no goal, and the
/// next bound and the overflow mark may change.
proof fn lemma_rests_off_goal<S: View, C: ScalarCost, P: Fn(&S) -> bool, H: Fn(&S) -> C>(
    is_goal: P,
    heuristic: H,
    v: S::V,
    )
    requires
        judged::<S, P>(is_goal, v, false),
    ensures
        forall|before: (Option<C>, bool), after: (Option<C>, bool)| #[trigger]
            rests_at_goal::<S, C, P, H>(is_goal, heuristic, v, before, after),
            {
}

/// A next bound that is, or is better than, one that is or is better than
/// a third is, or is better than, the third.
proof fn lemma_better_chains<C: ScalarCost>(now: Option<C>, before: Option<C>, first: Option<C>)
    requires
        now == before || now.better(&before),
        before == first || before.better(&first),
    ensures
        now == first || now.better(&first),
        {
    match (now, before, first) {
        (Some(a), Some(b), Some(c)) => {
            a.lemma_order_by_value(&b);
            b.lemma_order_by_value(&c);
            a.lemma_order_by_value(&c);
        },
        _ => {},
    }
}

/// Counts one more visited state, up to the greatest number that the
/// counter can hold.
fn count_visit(nb_visited_state: &mut usize)
    ensures
        counted(*old(nb_visited_state), *final(nb_visited_state)),
        {
    if *nb_visited_state < usize::MAX {
        *nb_visited_state = *nb_visited_state + 1;
    }
}

/// Whether the search takes `state` for one of the states of `path`.
fn on_path<A, C: ScalarCost, S: NonUniformProblem<A, C> + PartialEq>(
    path: &Vec<S>,
    state: &S,
    ) -> (r: bool)
    requires
        S::obeys_eq_spec(),
        forall|a: S, b: S| #[trigger] a.eq_spec(&b) == S::same(a@, b@),
    ensures
        r == revisits::<A, C, S>(views(path@), state@),
        {
    let mut i: usize = 0;
    while i < path.len()
        invariant
            i <= path.len(),
            S::obeys_eq_spec(),
            forall|a: S, b: S| #[trigger] a.eq_spec(&b) == S::same(a@, b@),
            forall|j: int| 0 <= j < i ==> !S::same(#[trigger] views(path@)[j], state@),
        decreases path.len() - i,
    {
        if path[i] == *state {
            assert(S::same(views(path@)[i as int], state@));
            return true;
        }
        i += 1;
    }
    false
}

/// The bounded depth-first search that takes the actions in the order in
/// which the state offers them.
///
/// `path` holds the states from the start to `state`, and `cost` what it
/// has cost to come here. The search leaves `state` and `path` as it
/// found them. It returns the path to a goal, if it comes to one without
/// going into a rank beyond `upper_bound`; else it has lowered
/// `next_upper_bound` to the least rank that it rejected, if that is
/// better, and set `overflowed` if it rejected a rank beyond the limit of
/// the cost. At a goal it changes neither. It adds to `nb_visited_state`
/// one for each state that it visits, up to the greatest number that the
/// counter can hold.
pub fn weak_search<State, C, Action, Predicate, Heuristic>(
    state: &mut State,
    cost: C,
    is_goal: &Predicate,
    heuristic: &Heuristic,
    path: &mut Vec<State>,
    upper_bound: &Option<C>,
    next_upper_bound: &mut Option<C>,
    overflowed: &mut bool,
    nb_visited_state: &mut usize,
    ) -> (r: Result<Option<Vec<State>>, SearchError>) where
    State: NonUniformProblem<Action, C> + PartialEq + Clone,
    C: ScalarCost,
    Action: Copy,
    Predicate: Fn(&State) -> bool,
    Heuristic: Fn(&State) -> C,

    requires
        suits::<Action, C, State, Predicate, Heuristic>(*is_goal, *heuristic, old(state)@),
        old(path).len() > 0,
        old(path)@.last()@ == old(state)@,
    ensures
        final(state)@ == old(state)@,
        final(path)@ == old(path)@,
        *final(nb_visited_state) >= *old(nb_visited_state),
        *old(nb_visited_state) < usize::MAX ==> *final(nb_visited_state) > *old(nb_visited_state),
        r matches Ok(Some(sol)) ==> *final(nb_visited_state) == usize::MAX
            || *final(nb_visited_state) >= *old(nb_visited_state) + sol.len() - old(path).len() + 1,
        r is Ok,
        *final(next_upper_bound) == *old(next_upper_bound) || (
        *final(next_upper_bound) matches Some(bound) && bound.value() > ceiling_of(*upper_bound)),
        *final(next_upper_bound) == *old(next_upper_bound) || final(next_upper_bound).better(
            old(next_upper_bound),
        ),
        eases(
            *old(next_upper_bound),
            *old(overflowed),
            *final(next_upper_bound),
            *final(overflowed),
        ),
        r matches Ok(Some(sol)) ==> traced::<Action, C, State>(
            Node { trail: views(old(path)@), spent: cost.value() },
            views(sol@),
        ),
        rests_at_goal::<State, C, Predicate, Heuristic>(
            *is_goal,
            *heuristic,
            old(state)@,
            (*old(next_upper_bound), *old(overflowed)),
            (*final(next_upper_bound), *final(overflowed)),
        ),
        visited::<Action, C, State, Predicate, Heuristic>(
            false,
            *is_goal,
            *heuristic,
            Node { trail: views(old(path)@), spent: cost.value() },
            ceiling_of(*upper_bound),
            *old(nb_visited_state),
            *final(nb_visited_state),
        ),
        searched_any::<Action, C, State, Predicate, Heuristic>(
            false,
            *is_goal,
            *heuristic,
            Node { trail: views(old(path)@), spent: cost.value() },
            ceiling_of(*upper_bound),
            *old(next_upper_bound),
            *old(overflowed),
            *final(next_upper_bound),
            *final(overflowed),
            trail_of(r),
        ),
    decreases usize::MAX - old(path).len(),
    {
    let ghost n = Node { trail: views(path@), spent: cost.value() };
    let ghost ceiling = ceiling_of(*upper_bound);
    let ghost v = state@;
    let ghost first = (*next_upper_bound, *overflowed);
    let ghost strong = false;
    let ghost first_count = *nb_visited_state;
    proof {
        lemma_reachable_from_itself::<Action, C, State>(v);
        assert(n.here() == v);
        match *upper_bound {
            Some(bound) => {
                bound.lemma_value_within_limit();
            },
            None => {},
        }
    }
    count_visit(nb_visited_state);

    let at_goal = is_goal(state);
    proof {
        assert(is_goal.ensures((&*state,), at_goal));
        assert(judged::<State, Predicate>(*is_goal, v, at_goal));
    }
    if at_goal {
        let solution = path.clone();
        proof {
            assert(views(solution@) =~= n.trail);
            lemma_visited_at_goal::<Action, C, State, Predicate, Heuristic>(
                strong,
                *is_goal,
                *heuristic,
                n,
                ceiling,
                first_count,
                *nb_visited_state,
            );
            lemma_traced_here::<Action, C, State>(n);
            lemma_goal_here::<Action, C, State, Predicate, Heuristic>(
                strong,
                *is_goal,
                *heuristic,
                n,
                ceiling,
                first,
            );
        }
        return Ok(Some(solution));
    }
    let actions = state.weighted_actions();
    proof {
        lemma_counting_starts::<Action, C, State, Predicate, Heuristic>(
            strong,
            *is_goal,
            *heuristic,
            n,
            ceiling,
            first_count,
            *nb_visited_state,
        );
        lemma_rests_off_goal::<State, C, Predicate, Heuristic>(*is_goal, *heuristic, v);
        lemma_progress_starts::<Action, C, State, Predicate, Heuristic>(
            *is_goal,
            *heuristic,
            n,
            ceiling,
            actions@,
            first,
        );
    }
    let ghost mut done: Set<int> = Set::empty();
    proof {
        assert(done =~= firsts(0));
    }
    let mut i: usize = 0;
    while i < actions.len()
        invariant
            i <= actions.len(),
            suits::<Action, C, State, Predicate, Heuristic>(*is_goal, *heuristic, v),
            n == (Node { trail: views(path@), spent: cost.value() }),
            ceiling == ceiling_of(*upper_bound),
            ceiling <= C::limit(),
            first == (*old(next_upper_bound), *old(overflowed)),
            state@ == v,
            v == old(state)@,
            n.here() == v,
            path@ == old(path)@,
            path.len() > 0,
            judged::<State, Predicate>(*is_goal, v, false),
            !strong,
            first_count == *old(nb_visited_state),
            done == firsts(i as int),
            eases(first.0, first.1, *next_upper_bound, *overflowed),
            *next_upper_bound == first.0 || next_upper_bound.better(&first.0),
            counting::<Action, C, State, Predicate, Heuristic>(
                strong,
                *is_goal,
                *heuristic,
                n,
                ceiling,
                done,
                first_count,
                *nb_visited_state,
            ),
            *next_upper_bound == first.0 || (*next_upper_bound matches Some(bound) && bound.value()
                > ceiling),
            *nb_visited_state >= *old(nb_visited_state),
            *old(nb_visited_state) < usize::MAX ==> *nb_visited_state > *old(nb_visited_state),
            actions@ == State::offers(v),
            progress::<Action, C, State, Predicate, Heuristic>(
                *is_goal,
                *heuristic,
                n,
                ceiling,
                actions@,
                i as int,
                first,
                (*next_upper_bound, *overflowed),
            ),
        decreases actions.len() - i,
    {
        let action = actions[i].action;
        let action_cost = actions[i].cost;
        let ghost wa = actions@[i as int];
        let ghost u = State::after(v, action);
        let ghost before = (*next_upper_bound, *overflowed);
        let ghost before_count = *nb_visited_state;
        proof {
            assert(State::offers(v).contains(wa));
            State::lemma_offers_are_enabled(v, i as int);
            State::lemma_restore_undoes_apply(v, action);
            lemma_suits_through::<Action, C, State, Predicate, Heuristic>(
                *is_goal,
                *heuristic,
                v,
                wa,
            );
            lemma_reachable_from_itself::<Action, C, State>(u);
            cost.lemma_sum_adds_values(&action_cost);
        }
        match state.apply(&action) {
            Ok(()) => {},
            Err(e) => {
                return Err(e);
            },
        }
        let mut outcome: Result<Option<Vec<State>>, SearchError> = Ok(None);
        if on_path::<Action, C, State>(path, state) {
            proof {
                lemma_progress_skips::<Action, C, State, Predicate, Heuristic>(
                    *is_goal,
                    *heuristic,
                    n,
                    ceiling,
                    actions@,
                    i as int,
                    first,
                    before,
                );
                lemma_counting_passes::<Action, C, State, Predicate, Heuristic>(
                    strong,
                    *is_goal,
                    *heuristic,
                    n,
                    ceiling,
                    done,
                    i as int,
                    first_count,
                    *nb_visited_state,
                    0,
                );
            }
        } else {
            match cost.aggregate(&action_cost) {
                Err(_) => {
                    *overflowed = true;
                    proof {
                        lemma_progress_overflows::<Action, C, State, Predicate, Heuristic>(
                            *is_goal,
                            *heuristic,
                            n,
                            ceiling,
                            actions@,
                            i as int,
                            first,
                            before,
                            0,
                        );
                        lemma_counting_passes::<Action, C, State, Predicate, Heuristic>(
                            strong,
                            *is_goal,
                            *heuristic,
                            n,
                            ceiling,
                            done,
                            i as int,
                            first_count,
                            *nb_visited_state,
                            0,
                        );
                    }
                },
                Ok(g) => {
                    let heuristic_cost = heuristic(state);
                    let ghost known = heuristic_cost.value();
                    proof {
                        assert(heuristic.ensures((&*state,), heuristic_cost));
                        assert(estimated::<State, C, Heuristic>(*heuristic, u, known));
                        g.lemma_sum_adds_values(&heuristic_cost);
                    }
                    match g.aggregate(&heuristic_cost) {
                        Err(_) => {
                            *overflowed = true;
                            proof {
                                lemma_progress_overflows::<Action, C, State, Predicate, Heuristic>(
                                    *is_goal,
                                    *heuristic,
                                    n,
                                    ceiling,
                                    actions@,
                                    i as int,
                                    first,
                                    before,
                                    known,
                                );
                                lemma_counting_passes::<Action, C, State, Predicate, Heuristic>(
                                    strong,
                                    *is_goal,
                                    *heuristic,
                                    n,
                                    ceiling,
                                    done,
                                    i as int,
                                    first_count,
                                    *nb_visited_state,
                                    known,
                                );
                            }
                        },
                        Ok(f) => {
                            proof {
                                f.lemma_value_within_limit();
                                match *upper_bound {
                                    Some(bound) => {
                                        f.lemma_order_by_value(&bound);
                                    },
                                    None => {},
                                }
                            }
                            let f = Some(f);
                            if f.is_worst_than(upper_bound) {
                                proof {
                                    lemma_progress_prunes::<Action, C, State, Predicate, Heuristic>(
                                        *is_goal,
                                        *heuristic,
                                        n,
                                        ceiling,
                                        actions@,
                                        i as int,
                                        first,
                                        before,
                                        known,
                                        f->0,
                                    );
                                    lemma_counting_passes::<Action, C, State, Predicate, Heuristic>(
                                        strong,
                                        *is_goal,
                                        *heuristic,
                                        n,
                                        ceiling,
                                        done,
                                        i as int,
                                        first_count,
                                        *nb_visited_state,
                                        known,
                                    );
                                    match *next_upper_bound {
                                        Some(bound) => {
                                            let rank = f->0;
                                            rank.lemma_order_by_value(&bound);
                                        },
                                        None => {},
                                    }
                                }
                                if f.is_better_than(next_upper_bound) {
                                    *next_upper_bound = f;
                                }
                            } else {
                                let snapshot = state.clone();
                                proof {
                                    assert(cloned(*state, snapshot));
                                }
                                path.push(snapshot);
                                proof {
                                    assert(views(path@) =~= step::<Action, C, State>(n, wa).trail);
                                    assert(path@.len() == path.len());
                                    assert(n.trail.len() + 1 == path@.len());
                                    assert(n.trail.len() < usize::MAX);
                                }
                                outcome = weak_search(
                                    state,
                                    g,
                                    is_goal,
                                    heuristic,
                                    path,
                                    upper_bound,
                                    next_upper_bound,
                                    overflowed,
                                    nb_visited_state,
                                );
                                path.pop();
                                proof {
                                    assert(path@ =~= old(path)@);
                                    match trail_of(outcome) {
                                        Some(sol) => {
                                            lemma_took_first_by_offer::<
                                                Action,
                                                C,
                                                State,
                                                Predicate,
                                                Heuristic,
                                            >(
                                                *is_goal,
                                                *heuristic,
                                                n,
                                                ceiling,
                                                i as int,
                                                first,
                                                before,
                                            );
                                            lemma_found_below::<
                                                Action,
                                                C,
                                                State,
                                                Predicate,
                                                Heuristic,
                                            >(
                                                strong,
                                                *is_goal,
                                                *heuristic,
                                                n,
                                                ceiling,
                                                actions@,
                                                i as int,
                                                first,
                                                before,
                                                (*next_upper_bound, *overflowed),
                                                known,
                                                sol,
                                            );
                                            lemma_matched_by_offer::<
                                                Action,
                                                C,
                                                State,
                                                Predicate,
                                                Heuristic,
                                            >(
                                                *is_goal,
                                                *heuristic,
                                                n,
                                                ceiling,
                                                i as int,
                                                first,
                                                before,
                                                (*next_upper_bound, *overflowed),
                                                known,
                                                Some(sol),
                                            );
                                            lemma_counting_stops::<
                                                Action,
                                                C,
                                                State,
                                                Predicate,
                                                Heuristic,
                                            >(
                                                strong,
                                                *is_goal,
                                                *heuristic,
                                                n,
                                                ceiling,
                                                done,
                                                i as int,
                                                first_count,
                                                before_count,
                                                *nb_visited_state,
                                                known,
                                            );
                                            lemma_traced_from_step::<Action, C, State>(n, wa, sol);
                                        },
                                        None => {
                                            lemma_progress_explores::<
                                                Action,
                                                C,
                                                State,
                                                Predicate,
                                                Heuristic,
                                            >(
                                                strong,
                                                *is_goal,
                                                *heuristic,
                                                n,
                                                ceiling,
                                                actions@,
                                                i as int,
                                                first,
                                                before,
                                                (*next_upper_bound, *overflowed),
                                                known,
                                            );
                                            lemma_counting_explores::<
                                                Action,
                                                C,
                                                State,
                                                Predicate,
                                                Heuristic,
                                            >(
                                                strong,
                                                *is_goal,
                                                *heuristic,
                                                n,
                                                ceiling,
                                                done,
                                                i as int,
                                                first_count,
                                                before_count,
                                                *nb_visited_state,
                                                known,
                                            );
                                        },
                                    }
                                }
                            }
                        },
                    }
                },
            }
        }
        proof {
            lemma_better_chains::<C>(*next_upper_bound, before.0, first.0);
        }
        match state.restore(&action) {
            Ok(()) => {},
            Err(e) => {
                return Err(e);
            },
        }
        match outcome {
            Ok(None) => {},
            _ => {
                return outcome;
            },
        }
        proof {
            done = done.insert(i as int);
            assert(done =~= firsts(i + 1));
        }
        i += 1;
    }
    proof {
        lemma_matched_by_offer::<Action, C, State, Predicate, Heuristic>(
            *is_goal,
            *heuristic,
            n,
            ceiling,
            actions@.len() as int,
            first,
            (*next_upper_bound, *overflowed),
            (*next_upper_bound, *overflowed),
            0,
            None,
        );
        lemma_counting_ends::<Action, C, State, Predicate, Heuristic>(
            strong,
            *is_goal,
            *heuristic,
            n,
            ceiling,
            done,
            first_count,
            *nb_visited_state,
        );
        lemma_progress_ends::<Action, C, State, Predicate, Heuristic>(
            strong,
            *is_goal,
            *heuristic,
            n,
            ceiling,
            first,
            (*next_upper_bound, *overflowed),
        );
    }
    Ok(None)
}

/// Whether `lhs` goes before `rhs` where the best cost comes first.
fn comes_before<C: Cost>(lhs: &C, rhs: &C) -> (r: bool)
    ensures
        r == lhs.better(rhs),
        {
    match best_cost_first(lhs, rhs) {
        Ordering::Less => true,
        _ => false,
    }
}

/// The candidates with the best estimate first; those with the same
/// estimate stay in the order in which they were offered.
fn sort_best_first<A: Copy, C: ScalarCost>(
    candidates: &Vec<(WeightedAction<A, C>, C, usize)>,
    ) -> (sorted: Vec<(WeightedAction<A, C>, C, usize)>)
    requires
        forall|a: int, b: int|
            0 <= a < b < candidates.len() ==> (#[trigger] candidates@[a]).2 < (
            #[trigger] candidates@[b]).2,
    ensures
        sorted@.to_multiset() == candidates@.to_multiset(),
        ordered(sorted@),
        forall|a: int, b: int|
            0 <= a < b < sorted.len() ==> (#[trigger] sorted@[a]).2 != (#[trigger] sorted@[b]).2,
            {
    let mut sorted: Vec<(WeightedAction<A, C>, C, usize)> = Vec::new();
    let mut i: usize = 0;
    proof {
        assert(candidates@.take(0) =~= sorted@);
    }
    while i < candidates.len()
        invariant
            i <= candidates.len(),
            forall|a: int, b: int|
                0 <= a < b < candidates.len() ==> (#[trigger] candidates@[a]).2 < (
                #[trigger] candidates@[b]).2,
            sorted@.to_multiset() == candidates@.take(i as int).to_multiset(),
            ordered(sorted@),
            forall|a: int, b: int|
                0 <= a < b < sorted.len() ==> (#[trigger] sorted@[a]).2 != (
                #[trigger] sorted@[b]).2,
            forall|a: int|
                0 <= a < sorted.len() ==> comes_from(candidates@, i as int, #[trigger] sorted@[a]),
        decreases candidates.len() - i,
    {
        let entry = (
            WeightedAction { action: candidates[i].0.action, cost: candidates[i].0.cost },
            candidates[i].1,
            candidates[i].2,
        );
        let mut pos: usize = sorted.len();
        while pos > 0 && comes_before(&entry.1, &sorted[pos - 1].1)
            invariant
                pos <= sorted.len(),
                forall|k: int| pos <= k < sorted.len() ==> entry.1.value() < sorted@[k].1.value(),
            decreases pos,
        {
            proof {
                entry.1.lemma_order_by_value(&sorted@[pos - 1].1);
            }
            pos -= 1;
        }
        let ghost before = sorted@;
        proof {
            if pos > 0 {
                entry.1.lemma_order_by_value(&before[pos - 1].1);
            }
            to_multiset_insert(before, pos as int, entry);
            to_multiset_build(candidates@.take(i as int), entry);
            assert(candidates@.take(i + 1) =~= candidates@.take(i as int).push(entry));
            assert forall|a: int| 0 <= a < before.len() implies (#[trigger] before[a]).2
                < entry.2 by {
                assert(comes_from(candidates@, i as int, before[a]));
                let k = choose|k: int| 0 <= k < i && #[trigger] candidates@[k] == before[a];
                assert(candidates@[k].2 < candidates@[i as int].2);
            }
        }
        sorted.insert(pos, entry);
        proof {
            assert forall|a: int, b: int| 0 <= a < b < sorted.len() implies goes_before(
                #[trigger] sorted@[a],
                #[trigger] sorted@[b],
            ) by {
                let a0 = if a < pos {
                    a
                } else {
                    a - 1
                };
                let b0 = if b < pos {
                    b
                } else {
                    b - 1
                };
                if a != pos && b != pos {
                    assert(sorted@[a] == before[a0]);
                    assert(sorted@[b] == before[b0]);
                    assert(goes_before(before[a0], before[b0]));
                } else if a == pos {
                    assert(sorted@[b] == before[b0]);
                } else {
                    assert(sorted@[a] == before[a0]);
                    if a0 < pos - 1 {
                        assert(goes_before(before[a0], before[pos - 1]));
                    }
                }
            }
            assert forall|a: int, b: int| 0 <= a < b < sorted.len() implies (
            #[trigger] sorted@[a]).2 != (#[trigger] sorted@[b]).2 by {
                let a0 = if a < pos {
                    a
                } else {
                    a - 1
                };
                let b0 = if b < pos {
                    b
                } else {
                    b - 1
                };
                if a != pos {
                    assert(sorted@[a] == before[a0]);
                }
                if b != pos {
                    assert(sorted@[b] == before[b0]);
                }
            }
            assert forall|a: int| 0 <= a < sorted.len() implies comes_from(
                candidates@,
                i + 1,
                #[trigger] sorted@[a],
            ) by {
                if a == pos {
                    assert(candidates@[i as int] == sorted@[a]);
                } else {
                    let a0 = if a < pos {
                        a
                    } else {
                        a - 1
                    };
                    assert(sorted@[a] == before[a0]);
                    assert(comes_from(candidates@, i as int, before[a0]));
                    let k = choose|k: int| 0 <= k < i && #[trigger] candidates@[k] == before[a0];
                    assert(candidates@[k] == sorted@[a]);
                }
            }
        }
        i += 1;
    }
    proof {
        assert(candidates@.take(candidates.len() as int) =~= candidates@);
    }
    sorted
}

/// The bounded depth-first search that takes the actions by the estimate
/// for where they lead, the best first.
///
/// It is given what `weak_search` is given, leaves `state` and `path` as
/// it found them too, and returns and records the same.
pub fn strong_search<State, C, Action, Predicate, Heuristic>(
    state: &mut State,
    cost: C,
    is_goal: &Predicate,
    heuristic: &Heuristic,
    path: &mut Vec<State>,
    upper_bound: &Option<C>,
    next_upper_bound: &mut Option<C>,
    overflowed: &mut bool,
    nb_visited_state: &mut usize,
    ) -> (r: Result<Option<Vec<State>>, SearchError>) where
    State: NonUniformProblem<Action, C> + PartialEq + Clone,
    C: ScalarCost,
    Action: Copy,
    Predicate: Fn(&State) -> bool,
    Heuristic: Fn(&State) -> C,

    requires
        suits::<Action, C, State, Predicate, Heuristic>(*is_goal, *heuristic, old(state)@),
        old(path).len() > 0,
        old(path)@.last()@ == old(state)@,
    ensures
        final(state)@ == old(state)@,
        final(path)@ == old(path)@,
        *final(nb_visited_state) >= *old(nb_visited_state),
        *old(nb_visited_state) < usize::MAX ==> *final(nb_visited_state) > *old(nb_visited_state),
        r matches Ok(Some(sol)) ==> *final(nb_visited_state) == usize::MAX
            || *final(nb_visited_state) >= *old(nb_visited_state) + sol.len() - old(path).len() + 1,
        r is Ok,
        *final(next_upper_bound) == *old(next_upper_bound) || (
        *final(next_upper_bound) matches Some(bound) && bound.value() > ceiling_of(*upper_bound)),
        *final(next_upper_bound) == *old(next_upper_bound) || final(next_upper_bound).better(
            old(next_upper_bound),
        ),
        eases(
            *old(next_upper_bound),
            *old(overflowed),
            *final(next_upper_bound),
            *final(overflowed),
        ),
        r matches Ok(Some(sol)) ==> traced::<Action, C, State>(
            Node { trail: views(old(path)@), spent: cost.value() },
            views(sol@),
        ),
        rests_at_goal::<State, C, Predicate, Heuristic>(
            *is_goal,
            *heuristic,
            old(state)@,
            (*old(next_upper_bound), *old(overflowed)),
            (*final(next_upper_bound), *final(overflowed)),
        ),
        visited::<Action, C, State, Predicate, Heuristic>(
            true,
            *is_goal,
            *heuristic,
            Node { trail: views(old(path)@), spent: cost.value() },
            ceiling_of(*upper_bound),
            *old(nb_visited_state),
            *final(nb_visited_state),
        ),
        searched_any::<Action, C, State, Predicate, Heuristic>(
            true,
            *is_goal,
            *heuristic,
            Node { trail: views(old(path)@), spent: cost.value() },
            ceiling_of(*upper_bound),
            *old(next_upper_bound),
            *old(overflowed),
            *final(next_upper_bound),
            *final(overflowed),
            trail_of(r),
        ),
    decreases usize::MAX - old(path).len(),
    {
    let ghost n = Node { trail: views(path@), spent: cost.value() };
    let ghost ceiling = ceiling_of(*upper_bound);
    let ghost v = state@;
    let ghost first = (*next_upper_bound, *overflowed);
    let ghost strong = true;
    let ghost first_count = *nb_visited_state;
    proof {
        lemma_reachable_from_itself::<Action, C, State>(v);
        assert(n.here() == v);
        match *upper_bound {
            Some(bound) => {
                bound.lemma_value_within_limit();
            },
            None => {},
        }
    }
    count_visit(nb_visited_state);

    let at_goal = is_goal(state);
    proof {
        assert(is_goal.ensures((&*state,), at_goal));
        assert(judged::<State, Predicate>(*is_goal, v, at_goal));
    }
    if at_goal {
        let solution = path.clone();
        proof {
            assert(views(solution@) =~= n.trail);
            lemma_visited_at_goal::<Action, C, State, Predicate, Heuristic>(
                strong,
                *is_goal,
                *heuristic,
                n,
                ceiling,
                first_count,
                *nb_visited_state,
            );
            lemma_traced_here::<Action, C, State>(n);
            lemma_goal_here::<Action, C, State, Predicate, Heuristic>(
                strong,
                *is_goal,
                *heuristic,
                n,
                ceiling,
                first,
            );
        }
        return Ok(Some(solution));
    }
    let offered = state.weighted_actions();
    let mut candidates: Vec<(WeightedAction<Action, C>, C, usize)> = Vec::new();
    let mut i: usize = 0;
    while i < offered.len()
        invariant
            i <= offered.len(),
            suits::<Action, C, State, Predicate, Heuristic>(*is_goal, *heuristic, v),
            n == (Node { trail: views(path@), spent: cost.value() }),
            state@ == v,
            n.here() == v,
            path@ == old(path)@,
            offered@ == State::offers(v),
            forall|k: int|
                0 <= k < candidates.len() ==> eligible::<Action, C, State, Heuristic>(
                    *heuristic,
                    n,
                    #[trigger] candidates@[k],
                ),
            forall|k: int| 0 <= k < candidates.len() ==> (#[trigger] candidates@[k]).2 < i,
            forall|a: int, b: int|
                0 <= a < b < candidates.len() ==> (#[trigger] candidates@[a]).2 < (
                #[trigger] candidates@[b]).2,
            forall|j: int|
                0 <= j < i && opens::<Action, C, State>(n, #[trigger] offered@[j]) ==> placed(
                    candidates@,
                    j,
                ),
        decreases offered.len() - i,
    {
        let action = offered[i].action;
        let action_cost = offered[i].cost;
        let ghost wa = offered@[i as int];
        let ghost u = State::after(v, action);
        let ghost gathered = candidates@;
        proof {
            assert(State::offers(v).contains(wa));
            State::lemma_offers_are_enabled(v, i as int);
            State::lemma_restore_undoes_apply(v, action);
            lemma_suits_through::<Action, C, State, Predicate, Heuristic>(
                *is_goal,
                *heuristic,
                v,
                wa,
            );
            lemma_reachable_from_itself::<Action, C, State>(u);
        }
        match state.apply(&action) {
            Ok(()) => {},
            Err(e) => {
                return Err(e);
            },
        }
        if !on_path::<Action, C, State>(path, state) {
            let heuristic_cost = heuristic(state);
            proof {
                assert(heuristic.ensures((&*state,), heuristic_cost));
                assert(estimated::<State, C, Heuristic>(*heuristic, u, heuristic_cost.value()));
            }
            candidates.push((WeightedAction::new(action, action_cost), heuristic_cost, i));
            proof {
                assert(candidates@[gathered.len() as int].0 == wa);
                assert(candidates@[gathered.len() as int].2 == i);
                assert forall|k: int| 0 <= k < candidates.len() implies eligible::<
                    Action,
                    C,
                    State,
                    Heuristic,
                >(*heuristic, n, #[trigger] candidates@[k]) by {
                    if k < gathered.len() {
                        assert(candidates@[k] == gathered[k]);
                    }
                }
                assert forall|a: int, b: int| 0 <= a < b < candidates.len() implies (
                #[trigger] candidates@[a]).2 < (#[trigger] candidates@[b]).2 by {
                    assert(candidates@[a] == gathered[a]);
                    if b < gathered.len() {
                        assert(candidates@[b] == gathered[b]);
                    }
                }
                assert forall|j: int|
                    0 <= j < i + 1 && opens::<Action, C, State>(
                        n,
                        #[trigger] offered@[j],
                    ) implies placed(candidates@, j) by {
                    if j < i {
                        let k = choose|k: int|
                            0 <= k < gathered.len() && (#[trigger] gathered[k]).2 == j;
                        assert(candidates@[k].2 == j);
                    }
                }
            }
        }
        match state.restore(&action) {
            Ok(()) => {},
            Err(e) => {
                return Err(e);
            },
        }
        i += 1;
    }
    let actions = sort_best_first(&candidates);
    let ghost takes = chosen(actions@);
    proof {
        assert forall|k: int| 0 <= k < actions.len() implies eligible::<
            Action,
            C,
            State,
            Heuristic,
        >(*heuristic, n, #[trigger] actions@[k]) by {
            assert(actions@.contains(actions@[k]));
            to_multiset_contains(actions@, actions@[k]);
            to_multiset_contains(candidates@, actions@[k]);
            let k2 = choose|k2: int|
                0 <= k2 < candidates.len() && candidates@[k2] == actions@[k];
            assert(eligible::<Action, C, State, Heuristic>(*heuristic, n, candidates@[k2]));
        }
        assert forall|j: int|
            0 <= j < State::offers(v).len() && opens::<Action, C, State>(
                n,
                #[trigger] State::offers(v)[j],
            ) implies placed(actions@, j) by {
            let k = choose|k: int| 0 <= k < candidates.len() && (#[trigger] candidates@[k]).2 == j;
            assert(candidates@.contains(candidates@[k]));
            to_multiset_contains(candidates@, candidates@[k]);
            to_multiset_contains(actions@, candidates@[k]);
            let k2 = choose|k2: int| 0 <= k2 < actions.len() && actions@[k2] == candidates@[k];
            assert(actions@[k2].2 == j);
        }
        lemma_counting_starts::<Action, C, State, Predicate, Heuristic>(
            strong,
            *is_goal,
            *heuristic,
            n,
            ceiling,
            first_count,
            *nb_visited_state,
        );
        lemma_rests_off_goal::<State, C, Predicate, Heuristic>(*is_goal, *heuristic, v);
        lemma_progress_starts::<Action, C, State, Predicate, Heuristic>(
            *is_goal,
            *heuristic,
            n,
            ceiling,
            takes,
            first,
        );
    }
    let ghost mut done: Set<int> = Set::empty();
    proof {
        assert(done =~= places(actions@, 0));
    }
    let mut k: usize = 0;
    while k < actions.len()
        invariant
            k <= actions.len(),
            suits::<Action, C, State, Predicate, Heuristic>(*is_goal, *heuristic, v),
            n == (Node { trail: views(path@), spent: cost.value() }),
            ceiling == ceiling_of(*upper_bound),
            ceiling <= C::limit(),
            first == (*old(next_upper_bound), *old(overflowed)),
            state@ == v,
            v == old(state)@,
            n.here() == v,
            path@ == old(path)@,
            path.len() > 0,
            judged::<State, Predicate>(*is_goal, v, false),
            strong,
            first_count == *old(nb_visited_state),
            done == places(actions@, k as int),
            eases(first.0, first.1, *next_upper_bound, *overflowed),
            *next_upper_bound == first.0 || next_upper_bound.better(&first.0),
            counting::<Action, C, State, Predicate, Heuristic>(
                strong,
                *is_goal,
                *heuristic,
                n,
                ceiling,
                done,
                first_count,
                *nb_visited_state,
            ),
            *next_upper_bound == first.0 || (*next_upper_bound matches Some(bound) && bound.value()
                > ceiling),
            *nb_visited_state >= *old(nb_visited_state),
            *old(nb_visited_state) < usize::MAX ==> *nb_visited_state > *old(nb_visited_state),
            takes == chosen(actions@),
            forall|a: int, b: int|
                0 <= a < b < actions.len() ==> (#[trigger] actions@[a]).2 != (
                #[trigger] actions@[b]).2,
            actions@.to_multiset() == candidates@.to_multiset(),
            forall|j: int|
                0 <= j < candidates.len() ==> eligible::<Action, C, State, Heuristic>(
                    *heuristic,
                    n,
                    #[trigger] candidates@[j],
                ),
            forall|j: int|
                0 <= j < State::offers(v).len() && opens::<Action, C, State>(
                    n,
                    #[trigger] State::offers(v)[j],
                ) ==> placed(candidates@, j),
            ordered(actions@),
            forall|j: int|
                0 <= j < actions.len() ==> eligible::<Action, C, State, Heuristic>(
                    *heuristic,
                    n,
                    #[trigger] actions@[j],
                ),
            forall|j: int|
                0 <= j < State::offers(v).len() && opens::<Action, C, State>(
                    n,
                    #[trigger] State::offers(v)[j],
                ) ==> placed(actions@, j),
            progress::<Action, C, State, Predicate, Heuristic>(
                *is_goal,
                *heuristic,
                n,
                ceiling,
                takes,
                k as int,
                first,
                (*next_upper_bound, *overflowed),
            ),
        decreases actions.len() - k,
    {
        let action = actions[k].0.action;
        let action_cost = actions[k].0.cost;
        let heuristic_cost = actions[k].1;
        let ghost wa = actions@[k as int].0;
        let ghost u = State::after(v, action);
        let ghost before = (*next_upper_bound, *overflowed);
        let ghost before_count = *nb_visited_state;
        proof {
            assert(!done.contains((actions@[k as int].2 as int)));
        }
        let ghost known = heuristic_cost.value();
        proof {
            assert(eligible::<Action, C, State, Heuristic>(*heuristic, n, actions@[k as int]));
            assert(takes[k as int] == wa);
            let j = choose|j: int| 0 <= j < State::offers(v).len() && State::offers(v)[j] == wa;
            State::lemma_offers_are_enabled(v, j);
            State::lemma_restore_undoes_apply(v, action);
            lemma_suits_through::<Action, C, State, Predicate, Heuristic>(
                *is_goal,
                *heuristic,
                v,
                wa,
            );
            cost.lemma_sum_adds_values(&action_cost);
        }
        match cost.aggregate(&action_cost) {
            Err(_) => {
                *overflowed = true;
                proof {
                    lemma_progress_overflows::<Action, C, State, Predicate, Heuristic>(
                        *is_goal,
                        *heuristic,
                        n,
                        ceiling,
                        takes,
                        k as int,
                        first,
                        before,
                        0,
                    );
                    lemma_counting_passes::<Action, C, State, Predicate, Heuristic>(
                        strong,
                        *is_goal,
                        *heuristic,
                        n,
                        ceiling,
                        done,
                        (actions@[k as int].2 as int),
                        first_count,
                        *nb_visited_state,
                        0,
                    );
                }
            },
            Ok(g) => {
                proof {
                    g.lemma_sum_adds_values(&heuristic_cost);
                }
                match g.aggregate(&heuristic_cost) {
                    Err(_) => {
                        *overflowed = true;
                        proof {
                            lemma_progress_overflows::<Action, C, State, Predicate, Heuristic>(
                                *is_goal,
                                *heuristic,
                                n,
                                ceiling,
                                takes,
                                k as int,
                                first,
                                before,
                                known,
                            );
                            lemma_counting_passes::<Action, C, State, Predicate, Heuristic>(
                                strong,
                                *is_goal,
                                *heuristic,
                                n,
                                ceiling,
                                done,
                                (actions@[k as int].2 as int),
                                first_count,
                                *nb_visited_state,
                                known,
                            );
                        }
                    },
                    Ok(f) => {
                        proof {
                            f.lemma_value_within_limit();
                            match *upper_bound {
                                Some(bound) => {
                                    f.lemma_order_by_value(&bound);
                                },
                                None => {},
                            }
                        }
                        let f = Some(f);
                        if f.is_worst_than(upper_bound) {
                            proof {
                                lemma_progress_prunes::<Action, C, State, Predicate, Heuristic>(
                                    *is_goal,
                                    *heuristic,
                                    n,
                                    ceiling,
                                    takes,
                                    k as int,
                                    first,
                                    before,
                                    known,
                                    f->0,
                                );
                                lemma_counting_passes::<Action, C, State, Predicate, Heuristic>(
                                    strong,
                                    *is_goal,
                                    *heuristic,
                                    n,
                                    ceiling,
                                    done,
                                    (actions@[k as int].2 as int),
                                    first_count,
                                    *nb_visited_state,
                                    known,
                                );
                                match *next_upper_bound {
                                    Some(bound) => {
                                        let rank = f->0;
                                        rank.lemma_order_by_value(&bound);
                                    },
                                    None => {},
                                }
                            }
                            if f.is_better_than(next_upper_bound) {
                                *next_upper_bound = f;
                            }
                            proof {
                                lemma_better_chains::<C>(*next_upper_bound, before.0, first.0);
                            }
                        } else {
                            match state.apply(&action) {
                                Ok(()) => {},
                                Err(e) => {
                                    return Err(e);
                                },
                            }
                            let snapshot = state.clone();
                            proof {
                                assert(cloned(*state, snapshot));
                            }
                            path.push(snapshot);
                            proof {
                                assert(views(path@) =~= step::<Action, C, State>(n, wa).trail);
                                assert(path@.len() == path.len());
                                assert(n.trail.len() + 1 == path@.len());
                                assert(n.trail.len() < usize::MAX);
                            }
                            let result = strong_search(
                                state,
                                g,
                                is_goal,
                                heuristic,
                                path,
                                upper_bound,
                                next_upper_bound,
                                overflowed,
                                nb_visited_state,
                            );
                            path.pop();
                            proof {
                                assert(path@ =~= old(path)@);
                                lemma_better_chains::<C>(*next_upper_bound, before.0, first.0);
                                match trail_of(result) {
                                    Some(sol) => {
                                        lemma_took_first_by_estimate::<
                                            Action,
                                            C,
                                            State,
                                            Predicate,
                                            Heuristic,
                                        >(
                                            *is_goal,
                                            *heuristic,
                                            n,
                                            ceiling,
                                            actions@,
                                            k as int,
                                            first,
                                            before,
                                        );
                                        lemma_found_below::<
                                            Action,
                                            C,
                                            State,
                                            Predicate,
                                            Heuristic,
                                        >(
                                            strong,
                                            *is_goal,
                                            *heuristic,
                                            n,
                                            ceiling,
                                            takes,
                                            k as int,
                                            first,
                                            before,
                                            (*next_upper_bound, *overflowed),
                                            known,
                                            sol,
                                        );
                                        lemma_matched_by_estimate::<
                                            Action,
                                            C,
                                            State,
                                            Predicate,
                                            Heuristic,
                                        >(
                                            *is_goal,
                                            *heuristic,
                                            n,
                                            ceiling,
                                            actions@,
                                            k as int,
                                            first,
                                            before,
                                            (*next_upper_bound, *overflowed),
                                            Some(sol),
                                        );
                                        lemma_counting_stops::<
                                            Action,
                                            C,
                                            State,
                                            Predicate,
                                            Heuristic,
                                        >(
                                            strong,
                                            *is_goal,
                                            *heuristic,
                                            n,
                                            ceiling,
                                            done,
                                            (actions@[k as int].2 as int),
                                            first_count,
                                            before_count,
                                            *nb_visited_state,
                                            known,
                                        );
                                        lemma_traced_from_step::<Action, C, State>(n, wa, sol);
                                    },
                                    None => {
                                        lemma_progress_explores::<
                                            Action,
                                            C,
                                            State,
                                            Predicate,
                                            Heuristic,
                                        >(
                                            strong,
                                            *is_goal,
                                            *heuristic,
                                            n,
                                            ceiling,
                                            takes,
                                            k as int,
                                            first,
                                            before,
                                            (*next_upper_bound, *overflowed),
                                            known,
                                        );
                                        lemma_counting_explores::<
                                            Action,
                                            C,
                                            State,
                                            Predicate,
                                            Heuristic,
                                        >(
                                            strong,
                                            *is_goal,
                                            *heuristic,
                                            n,
                                            ceiling,
                                            done,
                                            (actions@[k as int].2 as int),
                                            first_count,
                                            before_count,
                                            *nb_visited_state,
                                            known,
                                        );
                                    },
                                }
                            }
                            match state.restore(&action) {
                                Ok(()) => {},
                                Err(e) => {
                                    return Err(e);
                                },
                            }
                            match result {
                                Ok(None) => {},
                                _ => {
                                    return result;
                                },
                            }
                        }
                    },
                }
            },
        }
        proof {
            done = done.insert((actions@[k as int].2 as int));
            assert(done =~= places(actions@, k + 1));
        }
        k += 1;
    }
    proof {
        assert forall|k: int| 0 <= k < candidates.len() implies (#[trigger] candidates@[k]).2
            < State::offers(n.here()).len() && State::offers(n.here())[candidates@[k].2 as int]
            == candidates@[k].0 by {
            assert(eligible::<Action, C, State, Heuristic>(*heuristic, n, candidates@[k]));
        }
        lemma_matched_by_estimate::<Action, C, State, Predicate, Heuristic>(
            *is_goal,
            *heuristic,
            n,
            ceiling,
            actions@,
            actions@.len() as int,
            first,
            (*next_upper_bound, *overflowed),
            (*next_upper_bound, *overflowed),
            None,
        );
        lemma_counting_ends::<Action, C, State, Predicate, Heuristic>(
            strong,
            *is_goal,
            *heuristic,
            n,
            ceiling,
            done,
            first_count,
            *nb_visited_state,
        );
        lemma_progress_ends_sorted::<Action, C, State, Predicate, Heuristic>(
            strong,
            *is_goal,
            *heuristic,
            n,
            ceiling,
            candidates@,
            actions@,
            first,
            (*next_upper_bound, *overflowed),
        );
    }
    Ok(None)
}

/// How one bounded search from the start ends.
pub enum Outcome<State, C> {
    /// The search came to a goal along this path.
    Solved(Vec<State>),
    /// The search came to no goal; this is the bound for the next one.
    Rebound(C),
    /// The search came to no goal and rejected nothing: there is none.
    NoSolution,
}

/// One bounded search from the start: how it ended, and how many states
/// it visited, counted up to the greatest number that `usize` holds.
pub struct Iteration<State, C> {
    pub outcome: Outcome<State, C>,
    pub nb_visited_nodes: usize,
}

/// Of the ranks that the search from `n` rejects for `ceiling`, `f` is the
/// least.
pub open spec fn least_overrun<A, C: ScalarCost, S: NonUniformProblem<A, C>>(
    est: spec_fn(S::V) -> nat,
    n: Node<S::V>,
    ceiling: nat,
    f: nat,
    ) -> bool {
    &&& overruns::<A, C, S>(est, n, ceiling, f)
    &&& forall|g: nat| #[trigger] overruns::<A, C, S>(est, n, ceiling, g) ==> f <= g
}

/// What one bounded search from `n` under `ceiling` ends in.
///
/// It reports how many states it visited, up to the greatest number that
/// the counter can hold.
/// It gives the path to a goal that it came to. Else it came to none, and
/// it gives the least rank that it rejected as the next bound; or it
/// rejected nothing, and there is no solution; or every rank that it
/// rejected is beyond the limit of the cost, and it reports
/// `CostOverflow`.
pub open spec fn iterated<A, C: ScalarCost, S: NonUniformProblem<A, C>>(
    strong: bool,
    est: spec_fn(S::V) -> nat,
    goal: spec_fn(S::V) -> bool,
    n: Node<S::V>,
    ceiling: nat,
    r: Result<Iteration<S, C>, SearchError>,
    ) -> bool {
    match r {
        Ok(iteration) => iteration.nb_visited_nodes == capped(
            visits::<A, C, S>(strong, est, goal, n, ceiling) as int,
        ) && match iteration.outcome {
            Outcome::Solved(sol) => found::<A, C, S>(strong, est, goal, n, ceiling, views(sol@)),
            Outcome::Rebound(next) => {
                &&& barren::<A, C, S>(est, goal, n, ceiling)
                &&& least_overrun::<A, C, S>(est, n, ceiling, next.value())
                &&& next.value() > ceiling
            },
            Outcome::NoSolution => {
                &&& barren::<A, C, S>(est, goal, n, ceiling)
                &&& forall|f: nat| !#[trigger] overruns::<A, C, S>(est, n, ceiling, f)
            },
        },
        Err(e) => {
            &&& e == SearchError::CostOverflow
            &&& barren::<A, C, S>(est, goal, n, ceiling)
            &&& exists|f: nat| #[trigger] overruns::<A, C, S>(est, n, ceiling, f)
            &&& forall|f: nat| #[trigger] overruns::<A, C, S>(est, n, ceiling, f) ==> f > C::limit()
        },
    }
}

/// `iterated` holds for whatever functions the goal predicate and the
/// heuristic compute.
pub open spec fn iterated_any<
    A,
    C: ScalarCost,
    S: NonUniformProblem<A, C>,
    P: Fn(&S) -> bool,
    H: Fn(&S) -> C,
    >(
    strong: bool,
    is_goal: P,
    heuristic: H,
    n: Node<S::V>,
    ceiling: nat,
    r: Result<Iteration<S, C>, SearchError>,
    ) -> bool {
    forall|goal: spec_fn(S::V) -> bool, est: spec_fn(S::V) -> nat| #[trigger]
        agrees::<S, C, P, H>(is_goal, heuristic, goal, est) ==> iterated::<A, C, S>(
            strong,
            est,
            goal,
            n,
            ceiling,
            r,
        )
}

/// Searches from `state` without going into a rank beyond `upper_bound`,
/// by the estimates where `is_strong_heuristic` is set and in the order
/// of the offers where it is not, and leaves `state` as it was.
pub fn iterate<State, C, Action, Predicate, Heuristic>(
    state: &mut State,
    is_goal: &Predicate,
    heuristic: &Heuristic,
    is_strong_heuristic: bool,
    upper_bound: C,
    ) -> (r: Result<Iteration<State, C>, SearchError>) where
    State: NonUniformProblem<Action, C> + PartialEq + Clone,
    C: ScalarCost,
    Action: Copy,
    Predicate: Fn(&State) -> bool,
    Heuristic: Fn(&State) -> C,

    requires
        suits::<Action, C, State, Predicate, Heuristic>(*is_goal, *heuristic, old(state)@),
    ensures
        final(state)@ == old(state)@,
        r matches Ok(iteration) ==> iteration.nb_visited_nodes >= 1 && (
        iteration.outcome matches Outcome::Rebound(next) ==> next.value() > upper_bound.value())
            && (iteration.outcome matches Outcome::Solved(sol) ==> iteration.nb_visited_nodes
            >= sol.len() && traced::<Action, C, State>(root(old(state)@), views(sol@))
            && no_repeats::<Action, C, State>(views(sol@))),
        r matches Err(e) ==> e == SearchError::CostOverflow,
        iterated_any::<Action, C, State, Predicate, Heuristic>(
            is_strong_heuristic,
            *is_goal,
            *heuristic,
            root(old(state)@),
            upper_bound.value(),
            r,
        ),
        {
    let ghost n = root(state@);
    let ghost ceiling = upper_bound.value();
    let ghost strong = is_strong_heuristic;
    let snapshot = state.clone();
    proof {
        assert(cloned(*state, snapshot));
    }
    let mut path: Vec<State> = Vec::new();
    path.push(snapshot);
    let bound = Some(upper_bound);
    let mut next_upper_bound: Option<C> = None;
    let mut overflowed = false;
    let mut nb_visited_nodes: usize = 0;
    let start = C::best();
    proof {
        C::lemma_best_is_zero();
        assert(views(path@) =~= n.trail);
    }
    let result = if is_strong_heuristic {
        strong_search(
            state,
            start,
            is_goal,
            heuristic,
            &mut path,
            &bound,
            &mut next_upper_bound,
            &mut overflowed,
            &mut nb_visited_nodes,
        )
    } else {
        weak_search(
            state,
            start,
            is_goal,
            heuristic,
            &mut path,
            &bound,
            &mut next_upper_bound,
            &mut overflowed,
            &mut nb_visited_nodes,
        )
    };
    let ghost trail = trail_of(result);
    proof {
        match trail {
            Some(sol) => {
                let route = choose|route: Seq<WeightedAction<Action, C>>| #[trigger]
                    paces::<Action, C, State>(n, route) && arrival::<Action, C, State>(
                        n,
                        route,
                    ).trail == sol;
                assert(no_repeats::<Action, C, State>(n.trail));
                lemma_paced_trail_has_no_repeats::<Action, C, State>(n, route);
            },
            None => {},
        }
    }
    let r = match result {
        Err(e) => Err(e),
        Ok(Some(solution)) => Ok(
            Iteration { outcome: Outcome::Solved(solution), nb_visited_nodes },
        ),
        Ok(None) => {
            match next_upper_bound {
                Some(next) => Ok(Iteration { outcome: Outcome::Rebound(next), nb_visited_nodes }),
                None => {
                    if overflowed {
                        Err(SearchError::CostOverflow)
                    } else {
                        Ok(Iteration { outcome: Outcome::NoSolution, nb_visited_nodes })
                    }
                },
            }
        },
    };
    proof {
        assert forall|goal: spec_fn(State::V) -> bool, est: spec_fn(State::V) -> nat| #[trigger]
            agrees::<State, C, Predicate, Heuristic>(
                *is_goal,
                *heuristic,
                goal,
                est,
            ) implies iterated::<Action, C, State>(strong, est, goal, n, ceiling, r) by {
            lemma_searched_is_iterated::<Action, C, State>(
                strong,
                est,
                goal,
                n,
                ceiling,
                next_upper_bound,
                overflowed,
                trail,
                r,
            );
        }
    }
    r
}

/// `route` leads from `n` to a goal at no more cost than any route that
/// leads from `n` to a goal without coming back to a state.
pub open spec fn cheapest<A, C: ScalarCost, S: NonUniformProblem<A, C>>(
    goal: spec_fn(S::V) -> bool,
    n: Node<S::V>,
    route: Seq<WeightedAction<A, C>>,
    ) -> bool {
    forall|other: Seq<WeightedAction<A, C>>| #[trigger]
        paces::<A, C, S>(n, other) && goal(arrival::<A, C, S>(n, other).here()) ==> arrival::<
            A,
            C,
            S,
        >(n, route).spent <= arrival::<A, C, S>(n, other).spent
}

/// No route that leads from `n` to a goal without coming back to a state
/// costs less than `bound`.
pub open spec fn undercuts<A, C: ScalarCost, S: NonUniformProblem<A, C>>(
    goal: spec_fn(S::V) -> bool,
    n: Node<S::V>,
    bound: nat,
    ) -> bool {
    forall|route: Seq<WeightedAction<A, C>>| #[trigger]
        paces::<A, C, S>(n, route) && goal(arrival::<A, C, S>(n, route).here()) ==> bound
            <= arrival::<A, C, S>(n, route).spent
}

/// `chain` holds the bounds that the search from `n` goes through: the
/// estimate for the start first, and after each bound under which it
/// comes to no goal the least rank that it rejected.
pub open spec fn deepened<A, C: ScalarCost, S: NonUniformProblem<A, C>>(
    est: spec_fn(S::V) -> nat,
    goal: spec_fn(S::V) -> bool,
    n: Node<S::V>,
    chain: Seq<nat>,
    ) -> bool {
    &&& chain.len() > 0
    &&& chain[0] == est(n.here())
    &&& forall|i: int|
        0 <= i < chain.len() - 1 ==> barren::<A, C, S>(est, goal, n, #[trigger] chain[i])
            && least_overrun::<A, C, S>(est, n, chain[i], chain[i + 1])
}

/// The search from `n` goes through the bounds of `chain`, and under the
/// last of them `route` is the way by which it first comes to a goal, with
/// the trail `sol`; under an admissible estimate, no route to a goal
/// costs less.
pub open spec fn solves<A, C: ScalarCost, S: NonUniformProblem<A, C>>(
    strong: bool,
    est: spec_fn(S::V) -> nat,
    goal: spec_fn(S::V) -> bool,
    n: Node<S::V>,
    chain: Seq<nat>,
    route: Seq<WeightedAction<A, C>>,
    sol: Seq<S::V>,
    ) -> bool {
    &&& deepened::<A, C, S>(est, goal, n, chain)
    &&& chain.last() <= C::limit()
    &&& leads::<A, C, S>(strong, est, goal, n, route, chain.last())
    &&& follows::<A, C, S>(est, n, route, C::limit())
    &&& arrival::<A, C, S>(n, route).trail == sol
    &&& goal(arrival::<A, C, S>(n, route).here())
    &&& admissible::<A, C, S>(est, goal) ==> cheapest::<A, C, S>(goal, n, route)
}

/// `sol` is the trail by which the search from `n` comes to a goal: the
/// first that it comes to under the first bound under which it comes to
/// one. No state comes twice on it, and no rank on it is beyond the limit
/// of the cost.
pub open spec fn solved<A, C: ScalarCost, S: NonUniformProblem<A, C>>(
    strong: bool,
    est: spec_fn(S::V) -> nat,
    goal: spec_fn(S::V) -> bool,
    n: Node<S::V>,
    sol: Seq<S::V>,
    ) -> bool {
    &&& no_repeats::<A, C, S>(sol)
    &&& exists|chain: Seq<nat>, route: Seq<WeightedAction<A, C>>| #[trigger]
        solves::<A, C, S>(strong, est, goal, n, chain, route, sol)
}

/// Under an admissible estimate, a goal that can be come to at a cost
/// within the limit, without coming back to a state, is found.
pub open spec fn complete<A, C: ScalarCost, S: NonUniformProblem<A, C>, T>(
    est: spec_fn(S::V) -> nat,
    goal: spec_fn(S::V) -> bool,
    n: Node<S::V>,
    r: Result<Option<T>, SearchError>,
    ) -> bool {
    admissible::<A, C, S>(est, goal) ==> forall|route: Seq<WeightedAction<A, C>>| #[trigger]
        paces::<A, C, S>(n, route) && goal(arrival::<A, C, S>(n, route).here()) && arrival::<
            A,
            C,
            S,
        >(n, route).spent <= C::limit() ==> r matches Ok(Some(_))
}

/// What a whole search from `n` ends in.
///
/// It gives the trail of a goal, as `solved` says. Else no route on which
/// every rank is within the limit of the cost leads to a goal: and either
/// no rank at all is beyond the limit, so that there is no solution, or
/// one is, and the search reports `CostOverflow`.
pub open spec fn concluded<A, C: ScalarCost, S: NonUniformProblem<A, C>>(
    strong: bool,
    est: spec_fn(S::V) -> nat,
    goal: spec_fn(S::V) -> bool,
    n: Node<S::V>,
    r: Result<Option<Vec<S>>, SearchError>,
    ) -> bool {
    &&& match r {
        Ok(Some(sol)) => solved::<A, C, S>(strong, est, goal, n, views(sol@)),
        Ok(None) => {
            &&& barren::<A, C, S>(est, goal, n, C::limit())
            &&& forall|f: nat| !#[trigger] overruns::<A, C, S>(est, n, C::limit(), f)
        },
        Err(e) => {
            &&& e == SearchError::CostOverflow
            &&& barren::<A, C, S>(est, goal, n, C::limit())
            &&& exists|f: nat| #[trigger] overruns::<A, C, S>(est, n, C::limit(), f)
        },
    }
    &&& complete::<A, C, S, Vec<S>>(est, goal, n, r)
}

/// `concluded` holds for whatever functions the goal predicate and the
/// heuristic compute.
pub open spec fn concluded_any<
    A,
    C: ScalarCost,
    S: NonUniformProblem<A, C>,
    P: Fn(&S) -> bool,
    H: Fn(&S) -> C,
    >(
    strong: bool,
    is_goal: P,
    heuristic: H,
    n: Node<S::V>,
    r: Result<Option<Vec<S>>, SearchError>,
) -> bool {
    forall|goal: spec_fn(S::V) -> bool, est: spec_fn(S::V) -> nat| #[trigger]
        agrees::<S, C, P, H>(is_goal, heuristic, goal, est) ==> concluded::<A, C, S>(
            strong,
            est,
            goal,
            n,
            r,
        )
}

/// Iterative-deepening A* from `state`.
///
/// The first bound is the estimate for `state`; each bounded search that
/// comes to no goal gives the next one. The search ends with the path to
/// a goal, with `None` where there is no goal to come to, or with
/// `CostOverflow` where what is left to explore lies beyond the limit of
/// the cost. Under an admissible heuristic the path costs as little as
/// any.
#[verifier::loop_isolation(false)]
pub fn ida_star<State, C, Action, Predicate, Heuristic>(
    state: State,
    is_goal: Predicate,
    heuristic: Heuristic,
    is_strong_heuristic: bool,
    ) -> (r: Result<Option<Vec<State>>, SearchError>) where
    State: NonUniformProblem<Action, C> + PartialEq + Clone,
    C: ScalarCost,
    Action: Copy,
    Predicate: Fn(&State) -> bool,
    Heuristic: Fn(&State) -> C,

    requires
        suits::<Action, C, State, Predicate, Heuristic>(is_goal, heuristic, state@),
    ensures
        r matches Err(e) ==> e == SearchError::CostOverflow,
        r matches Ok(Some(sol)) ==> traced::<Action, C, State>(root(state@), views(sol@))
            && no_repeats::<Action, C, State>(views(sol@)),
        concluded_any::<Action, C, State, Predicate, Heuristic>(
            is_strong_heuristic,
            is_goal,
            heuristic,
            root(state@),
            r,
        ),
        {
    let ghost v = state@;
    let ghost n = root(v);
    let ghost limit = C::limit();
    let ghost strong = is_strong_heuristic;
    let mut state = state;
    proof {
        lemma_reachable_from_itself::<Action, C, State>(v);
    }
    let mut upper_bound = heuristic(&state);
    proof {
        assert(heuristic.ensures((&state,), upper_bound));
        upper_bound.lemma_value_within_limit();
        assert(seq![upper_bound.value()].last() == upper_bound.value());
        assert forall|goal: spec_fn(State::V) -> bool, est: spec_fn(State::V) -> nat|
            #[trigger] agrees::<State, C, Predicate, Heuristic>(is_goal, heuristic, goal, est)
                && admissible::<Action, C, State>(est, goal) implies undercuts::<Action, C, State>(
            goal,
            n,
            upper_bound.value(),
        ) by {
            lemma_first_bound_undercuts::<Action, C, State>(est, goal, v);
        }
    }
    let ghost mut chain = seq![upper_bound.value()];
    loop
        invariant
            suits::<Action, C, State, Predicate, Heuristic>(is_goal, heuristic, v),
            state@ == v,
            upper_bound.value() <= limit,
            chain.len() > 0,
            chain.last() == upper_bound.value(),
            forall|goal: spec_fn(State::V) -> bool, est: spec_fn(State::V) -> nat| #[trigger]
                agrees::<State, C, Predicate, Heuristic>(is_goal, heuristic, goal, est)
                    ==> deepened::<Action, C, State>(est, goal, n, chain),
            forall|goal: spec_fn(State::V) -> bool, est: spec_fn(State::V) -> nat| #[trigger]
                agrees::<State, C, Predicate, Heuristic>(is_goal, heuristic, goal, est)
                    && admissible::<Action, C, State>(est, goal) ==> undercuts::<Action, C, State>(
                    goal,
                    n,
                    upper_bound.value(),
                ),
        decreases limit - upper_bound.value(),
    {
        let ghost ceiling = upper_bound.value();
        let last = iterate(&mut state, &is_goal, &heuristic, is_strong_heuristic, upper_bound);
        let ghost ended = last;
        match last {
            Err(e) => {
                proof {
                    assert forall|goal: spec_fn(State::V) -> bool, est: spec_fn(State::V) -> nat|
                     #[trigger]
                        agrees::<State, C, Predicate, Heuristic>(
                            is_goal,
                            heuristic,
                            goal,
                            est,
                        ) implies concluded::<Action, C, State>(
                        strong,
                        est,
                        goal,
                        n,
                        Err::<Option<Vec<State>>, SearchError>(e),
                    ) by {
                        lemma_iterated_is_concluded::<Action, C, State>(
                            strong,
                            est,
                            goal,
                            v,
                            chain,
                            ceiling,
                            ended,
                            Err::<Option<Vec<State>>, SearchError>(e),
                        );
                    }
                }
                return Err(e);
            },
            Ok(iteration) => {
                match iteration.outcome {
                    Outcome::Solved(solution) => {
                        proof {
                            assert forall|
                                goal: spec_fn(State::V) -> bool,
                                est: spec_fn(State::V) -> nat,
                            | #[trigger]
                                agrees::<State, C, Predicate, Heuristic>(
                                    is_goal,
                                    heuristic,
                                    goal,
                                    est,
                                ) implies concluded::<Action, C, State>(
                                strong,
                                est,
                                goal,
                                n,
                                Ok::<Option<Vec<State>>, SearchError>(Some(solution)),
                            ) by {
                                lemma_iterated_is_concluded::<Action, C, State>(
                                    strong,
                                    est,
                                    goal,
                                    v,
                                    chain,
                                    ceiling,
                                    ended,
                                    Ok::<Option<Vec<State>>, SearchError>(Some(solution)),
                                );
                            }
                        }
                        return Ok(Some(solution));
                    },
                    Outcome::Rebound(next) => {
                        proof {
                            next.lemma_value_within_limit();
                            let ghost longer = chain.push(next.value());
                            assert forall|
                                goal: spec_fn(State::V) -> bool,
                                est: spec_fn(State::V) -> nat,
                            | #[trigger]
                                agrees::<State, C, Predicate, Heuristic>(
                                    is_goal,
                                    heuristic,
                                    goal,
                                    est,
                                ) implies deepened::<Action, C, State>(est, goal, n, longer) by {
                                lemma_deepened_grows::<Action, C, State>(
                                    est,
                                    goal,
                                    n,
                                    chain,
                                    next.value(),
                                );
                            }
                            assert forall|
                                goal: spec_fn(State::V) -> bool,
                                est: spec_fn(State::V) -> nat,
                            | #[trigger]
                                agrees::<State, C, Predicate, Heuristic>(
                                    is_goal,
                                    heuristic,
                                    goal,
                                    est,
                                ) && admissible::<Action, C, State>(
                                    est,
                                    goal,
                                ) implies undercuts::<Action, C, State>(
                                goal,
                                n,
                                next.value(),
                            ) by {
                                lemma_next_bound_undercuts::<Action, C, State>(
                                    est,
                                    goal,
                                    v,
                                    ceiling,
                                    next.value(),
                                );
                            }
                        }
                        proof {
                            chain = chain.push(next.value());
                        }
                        upper_bound = next;
                    },
                    Outcome::NoSolution => {
                        proof {
                            assert forall|
                                goal: spec_fn(State::V) -> bool,
                                est: spec_fn(State::V) -> nat,
                            | #[trigger]
                                agrees::<State, C, Predicate, Heuristic>(
                                    is_goal,
                                    heuristic,
                                    goal,
                                    est,
                                ) implies concluded::<Action, C, State>(
                                strong,
                                est,
                                goal,
                                n,
                                Ok::<Option<Vec<State>>, SearchError>(None),
                            ) by {
                                lemma_iterated_is_concluded::<Action, C, State>(
                                    strong,
                                    est,
                                    goal,
                                    v,
                                    chain,
                                    ceiling,
                                    ended,
                                    Ok::<Option<Vec<State>>, SearchError>(None),
                                );
                            }
                        }
                        return Ok(None);
                    },
                }
            },
        }
    }
}

/// Each bound that the search goes through is greater than the one
/// before it: the bound never goes down.
pub proof fn lemma_bounds_rise<A, C: ScalarCost, S: NonUniformProblem<A, C>>(
    est: spec_fn(S::V) -> nat,
    goal: spec_fn(S::V) -> bool,
    n: Node<S::V>,
    chain: Seq<nat>,
    i: int,
    )
    requires
        deepened::<A, C, S>(est, goal, n, chain),
        0 <= i < chain.len() - 1,
    ensures
        chain[i] < chain[i + 1],
        {
    assert(least_overrun::<A, C, S>(est, n, chain[i], chain[i + 1]));
    lemma_overrun_is_beyond::<A, C, S>(est, n, chain[i], chain[i + 1]);
}

/// What a search returns is determined: two trails that it might return
/// for the same functions are the same.
pub proof fn lemma_solved_is_determined<A, C: ScalarCost, S: NonUniformProblem<A, C>>(
    strong: bool,
    est: spec_fn(S::V) -> nat,
    goal: spec_fn(S::V) -> bool,
    n: Node<S::V>,
    sol: Seq<S::V>,
    other: Seq<S::V>,
    )
    requires
        solved::<A, C, S>(strong, est, goal, n, sol),
        solved::<A, C, S>(strong, est, goal, n, other),
    ensures
        sol == other,
        {
    let (chain, route) = choose|chain: Seq<nat>, route: Seq<WeightedAction<A, C>>| #[trigger]
        solves::<A, C, S>(strong, est, goal, n, chain, route, sol);
    let (chain2, route2) = choose|chain2: Seq<nat>, route2: Seq<WeightedAction<A, C>>| #[trigger]
        solves::<A, C, S>(strong, est, goal, n, chain2, route2, other);
    lemma_leads_is_followed::<A, C, S>(strong, est, goal, n, route, chain.last());
    lemma_leads_is_followed::<A, C, S>(strong, est, goal, n, route2, chain2.last());
    if chain.len() < chain2.len() {
        lemma_deepened_is_determined::<A, C, S>(est, goal, n, chain, chain2, chain.len() - 1);
        assert(barren::<A, C, S>(est, goal, n, chain2[chain.len() - 1]));
    } else if chain2.len() < chain.len() {
        lemma_deepened_is_determined::<A, C, S>(est, goal, n, chain, chain2, chain2.len() - 1);
        assert(barren::<A, C, S>(est, goal, n, chain[chain2.len() - 1]));
    } else {
        lemma_deepened_is_determined::<A, C, S>(est, goal, n, chain, chain2, chain.len() - 1);
        lemma_leads_is_determined::<A, C, S>(strong, est, goal, n, route, route2, chain.last());
    }
}

/// What a whole search from `v` ends in, said of every route on offer.
///
/// It gives the trail of a route to a goal, and under an admissible
/// estimate no route to a goal costs less. Where it gives `None`, no
/// route leads to a goal. Under an admissible estimate it gives a trail
/// whenever some route to a goal costs no more than the limit of the
/// cost.
pub open spec fn decided<A, C: ScalarCost, S: NonUniformProblem<A, C>>(
    est: spec_fn(S::V) -> nat,
    goal: spec_fn(S::V) -> bool,
    v: S::V,
    r: Result<Option<Vec<S>>, SearchError>,
    ) -> bool {
    &&& match r {
        Ok(Some(sol)) => exists|route: Seq<WeightedAction<A, C>>|
            {
                &&& #[trigger] walks::<A, C, S>(v, route)
                &&& arrival::<A, C, S>(root(v), route).trail == views(sol@)
                &&& goal(destination::<A, C, S>(v, route))
                &&& admissible::<A, C, S>(est, goal) ==> forall|other: Seq<WeightedAction<A, C>>|
                 #[trigger]
                    walks::<A, C, S>(v, other) && goal(destination::<A, C, S>(v, other)) ==> total(
                        route,
                    ) <= total(other)
            },
        Ok(None) => forall|route: Seq<WeightedAction<A, C>>| #[trigger]
            walks::<A, C, S>(v, route) ==> !goal(destination::<A, C, S>(v, route)),
        Err(e) => e == SearchError::CostOverflow,
    }
    &&& admissible::<A, C, S>(est, goal) ==> forall|route: Seq<WeightedAction<A, C>>| #[trigger]
        walks::<A, C, S>(v, route) && goal(destination::<A, C, S>(v, route)) && total(route)
            <= C::limit() ==> r matches Ok(Some(_))
}

/// Where the search takes no two different states for the same, what it
/// ends in holds of every route on offer, not only of those that never
/// come back to a state.
pub proof fn lemma_concluded_is_decided<A, C: ScalarCost, S: NonUniformProblem<A, C>>(
    strong: bool,
    est: spec_fn(S::V) -> nat,
    goal: spec_fn(S::V) -> bool,
    v: S::V,
    r: Result<Option<Vec<S>>, SearchError>,
    )
    requires
        S::valid(v),
        faithful::<A, C, S>(v),
        concluded::<A, C, S>(strong, est, goal, root(v), r),
    ensures
        decided::<A, C, S>(est, goal, v, r),
        {
    let n = root(v);
    let limit = C::limit();
    match r {
        Ok(Some(sol)) => {
            let (chain, route) = choose|chain: Seq<nat>, route: Seq<WeightedAction<A, C>>|
             #[trigger]
                solves::<A, C, S>(strong, est, goal, n, chain, route, views(sol@));
            lemma_followed_is_paced::<A, C, S>(est, n, route, limit);
            lemma_paced_arrival::<A, C, S>(n, route);
            if admissible::<A, C, S>(est, goal) {
                assert forall|other: Seq<WeightedAction<A, C>>| #[trigger]
                    walks::<A, C, S>(v, other) && goal(
                        destination::<A, C, S>(v, other),
                    ) implies total(route) <= total(other) by {
                    lemma_no_walk_undercuts::<A, C, S>(goal, v, total(route), other);
                }
            }
            assert(walks::<A, C, S>(v, route));
        },
        Ok(None) => {
            assert forall|short: Seq<WeightedAction<A, C>>| #[trigger]
                paces::<A, C, S>(n, short) implies !goal(arrival::<A, C, S>(n, short).here()) by {
                lemma_paced_is_followed::<A, C, S>(est, n, short, limit);
            }
            assert forall|route: Seq<WeightedAction<A, C>>| #[trigger]
                walks::<A, C, S>(v, route) implies !goal(destination::<A, C, S>(v, route)) by {
                lemma_no_walk_reaches_goal::<A, C, S>(goal, v, route);
            }
        },
        Err(e) => {},
    }
    if admissible::<A, C, S>(est, goal) {
        assert forall|route: Seq<WeightedAction<A, C>>| #[trigger]
            walks::<A, C, S>(v, route) && goal(destination::<A, C, S>(v, route)) && total(route)
                <= limit implies r matches Ok(Some(_)) by {
            if !(r matches Ok(Some(_))) {
                assert forall|short: Seq<WeightedAction<A, C>>| #[trigger]
                    paces::<A, C, S>(n, short) && goal(
                        arrival::<A, C, S>(n, short).here(),
                    ) implies limit + 1 <= arrival::<A, C, S>(n, short).spent by {}
                lemma_no_walk_undercuts::<A, C, S>(goal, v, limit + 1, route);
            }
        }
    }
}

/// Where the search takes no two different states for the same and no
/// rank lies beyond the limit of the cost, it ends without an error, and
/// with `None` in just the case that no route leads to a goal.
pub proof fn lemma_decided_within_limit<A, C: ScalarCost, S: NonUniformProblem<A, C>>(
    strong: bool,
    est: spec_fn(S::V) -> nat,
    goal: spec_fn(S::V) -> bool,
    v: S::V,
    r: Result<Option<Vec<S>>, SearchError>,
    )
    requires
        S::valid(v),
        faithful::<A, C, S>(v),
        concluded::<A, C, S>(strong, est, goal, root(v), r),
        forall|f: nat| !#[trigger] overruns::<A, C, S>(est, root(v), C::limit(), f),
    ensures
        r is Ok,
        r matches Ok(None) <==> forall|route: Seq<WeightedAction<A, C>>| #[trigger]
            walks::<A, C, S>(v, route) ==> !goal(destination::<A, C, S>(v, route)),
            {
    lemma_concluded_is_decided::<A, C, S>(strong, est, goal, v, r);
    match r {
        Ok(Some(sol)) => {
            let route = choose|route: Seq<WeightedAction<A, C>>|
                {
                    &&& #[trigger] walks::<A, C, S>(v, route)
                    &&& arrival::<A, C, S>(root(v), route).trail == views(sol@)
                    &&& goal(destination::<A, C, S>(v, route))
                };
            assert(walks::<A, C, S>(v, route) && goal(destination::<A, C, S>(v, route)));
        },
        Ok(None) => {},
        Err(e) => {
            let f = choose|f: nat| #[trigger] overruns::<A, C, S>(est, root(v), C::limit(), f);
            assert(overruns::<A, C, S>(est, root(v), C::limit(), f));
        },
    }
}

/// From a goal the search ends at once, with the path that holds the
/// start alone.
pub proof fn lemma_concluded_at_goal<A, C: ScalarCost, S: NonUniformProblem<A, C>>(
    strong: bool,
    est: spec_fn(S::V) -> nat,
    goal: spec_fn(S::V) -> bool,
    v: S::V,
    r: Result<Option<Vec<S>>, SearchError>,
)
    requires
        goal(v),
        concluded::<A, C, S>(strong, est, goal, root(v), r),
    ensures
        r matches Ok(Some(sol)) && views(sol@) == seq![v],
{
    let n = root(v);
    let stay = Seq::<WeightedAction<A, C>>::empty();
    assert(follows::<A, C, S>(est, n, stay, C::limit()));
    assert(arrival::<A, C, S>(n, stay) == n);
    match r {
        Ok(Some(sol)) => {
            let (chain, route) = choose|chain: Seq<nat>, route: Seq<WeightedAction<A, C>>|
             #[trigger]
                solves::<A, C, S>(strong, est, goal, n, chain, route, views(sol@));
            assert(route.len() == 0);
            assert(arrival::<A, C, S>(n, route) == n);
        },
        _ => {},
    }
}

} // verus!
