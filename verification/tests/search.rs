use idastar::algorithms::ida_star::{ida_star, iterate, strong_search, weak_search, Outcome};
use idastar::algorithms::{NonUniformProblem, SearchError};
use idastar::puzzle::{h0, h1, h2, h4, is_goal, solve};
use idastar::world_blocks::{Move, NbMoves, WorldBlocks};

fn linked(from: &WorldBlocks, to: &WorldBlocks) -> bool {
    let mut probe = from.clone();
    for weighted in from.weighted_actions() {
        probe.apply(&weighted.action).unwrap();
        let reached = probe == *to;
        probe.restore(&weighted.action).unwrap();
        if reached {
            return true;
        }
    }
    false
}

fn check_solution(start: &WorldBlocks, path: &[WorldBlocks]) {
    assert!(!path.is_empty());
    assert!(path[0] == *start);
    assert!(is_goal(&path[path.len() - 1]));
    for i in 1..path.len() {
        assert!(linked(&path[i - 1], &path[i]));
        for j in 0..i {
            assert!(path[j] != path[i]);
        }
    }
}

fn fewest_moves(start: &WorldBlocks) -> Option<usize> {
    let mut seen = vec![start.clone()];
    let mut frontier = vec![start.clone()];
    let mut depth = 0;
    while !frontier.is_empty() {
        if frontier.iter().any(|world| is_goal(world)) {
            return Some(depth);
        }
        let mut next = Vec::new();
        for world in &frontier {
            let mut probe = world.clone();
            for weighted in world.weighted_actions() {
                probe.apply(&weighted.action).unwrap();
                if !seen.contains(&probe) {
                    seen.push(probe.clone());
                    next.push(probe.clone());
                }
                probe.restore(&weighted.action).unwrap();
            }
        }
        frontier = next;
        depth += 1;
    }
    None
}

#[test]
fn three_blocks_on_three_stacks_take_two_moves() {
    let start = WorldBlocks::initial(3, 3);
    assert_eq!(fewest_moves(&start), Some(2));
    for strong in [false, true] {
        let path = ida_star(start.clone(), is_goal, h1, strong).unwrap().unwrap();
        assert_eq!(path.len() - 1, 2);
        check_solution(&start, &path);
    }
}

#[test]
fn three_blocks_on_two_stacks_cannot_be_piled() {
    let start = WorldBlocks::initial(3, 2);
    assert_eq!(start.stack, vec![0, 1, 0]);
    assert_eq!(fewest_moves(&start), None);
    for strong in [false, true] {
        assert!(ida_star(start.clone(), is_goal, h0, strong).unwrap().is_none());
        assert!(ida_star(start.clone(), is_goal, h1, strong).unwrap().is_none());
        assert!(ida_star(start.clone(), is_goal, h4, strong).unwrap().is_none());
    }
}

#[test]
fn no_blocks_are_piled_at_once() {
    for strong in [false, true] {
        let start = WorldBlocks::initial(0, 2);
        let path = ida_star(start.clone(), is_goal, h4, strong).unwrap().unwrap();
        assert_eq!(path.len(), 1);
        assert!(path[0] == start);
    }
}

#[test]
fn a_goal_at_the_start_is_returned_at_once() {
    let start = WorldBlocks::initial(1, 1);
    assert!(is_goal(&start));
    let path = ida_star(start.clone(), is_goal, h0, false).unwrap().unwrap();
    assert_eq!(path.len(), 1);
}

#[test]
fn a_single_stack_cannot_fill_two() {
    let needs_two_stacks =
        |world: &WorldBlocks| world.top.iter().filter(|top| top.is_some()).count() >= 2;
    for strong in [false, true] {
        let start = WorldBlocks::initial(3, 1);
        let found = ida_star(start, needs_two_stacks, h0, strong);
        assert!(matches!(found, Ok(None)));
    }
}

#[test]
fn admissible_estimates_find_the_fewest_moves() {
    for nb_stacks in 1..4 {
        for nb_blocks in 0..5 {
            let start = WorldBlocks::initial(nb_blocks, nb_stacks);
            let fewest = fewest_moves(&start);
            for strong in [false, true] {
                let by_zero = ida_star(start.clone(), is_goal, h0, strong).unwrap();
                let by_count = ida_star(start.clone(), is_goal, h1, strong).unwrap();
                assert_eq!(by_zero.as_ref().map(|path| path.len() - 1), fewest);
                assert_eq!(by_count.as_ref().map(|path| path.len() - 1), fewest);
                if let Some(path) = by_zero {
                    check_solution(&start, &path);
                }
                if let Some(path) = by_count {
                    check_solution(&start, &path);
                }
            }
        }
    }
}

#[test]
fn every_estimate_finds_the_fewest_moves() {
    for nb_stacks in 1..4 {
        for nb_blocks in 0..5 {
            let start = WorldBlocks::initial(nb_blocks, nb_stacks);
            let fewest = fewest_moves(&start);
            for strong in [false, true] {
                let by_h2 = ida_star(start.clone(), is_goal, h2, strong).unwrap();
                let by_h4 = ida_star(start.clone(), is_goal, h4, strong).unwrap();
                assert_eq!(by_h2.is_some(), fewest.is_some());
                assert_eq!(by_h4.is_some(), fewest.is_some());
                for path in [by_h2, by_h4].into_iter().flatten() {
                    check_solution(&start, &path);
                    assert_eq!(path.len() - 1, fewest.unwrap());
                }
            }
        }
    }
}

#[test]
fn four_blocks_on_three_stacks() {
    let start = WorldBlocks::initial(4, 3);
    let fewest = fewest_moves(&start).unwrap();
    let path = ida_star(start.clone(), is_goal, h1, true).unwrap().unwrap();
    assert_eq!(path.len() - 1, fewest);
    assert_eq!(fewest, 5);
    check_solution(&start, &path);
}

#[test]
fn solve_counts_the_moves() {
    assert_eq!(solve(3, 3), Ok(Some(2)));
    assert_eq!(solve(3, 2), Ok(None));
    assert_eq!(solve(0, 0), Ok(Some(0)));
    assert_eq!(solve(0, 4), Ok(Some(0)));
    assert_eq!(solve(1, 1), Ok(Some(0)));
    assert_eq!(solve(2, 1), Ok(None));
}

#[test]
fn estimates_beyond_the_limit_overflow() {
    let never = |_: &WorldBlocks| false;
    let huge = |_: &WorldBlocks| NbMoves::new(u32::MAX);
    for strong in [false, true] {
        let found = ida_star(WorldBlocks::initial(3, 3), never, huge, strong);
        assert!(matches!(found, Err(SearchError::CostOverflow)));
    }
}

#[test]
fn exhausted_space_without_goal_is_no_solution() {
    let never = |_: &WorldBlocks| false;
    for strong in [false, true] {
        let found = ida_star(WorldBlocks::initial(2, 2), never, h0, strong);
        assert!(matches!(found, Ok(None)));
    }
}

#[test]
fn iterate_raises_the_bound_to_the_least_rejected_rank() {
    for strong in [false, true] {
        let mut state = WorldBlocks::initial(3, 3);
        let start = state.clone();
        let first = iterate(&mut state, &is_goal, &h0, strong, NbMoves::new(0)).unwrap();
        assert!(state == start);
        assert_eq!(state.top, start.top);
        assert_eq!(first.nb_visited_nodes, 1);
        match first.outcome {
            Outcome::Rebound(next) => assert_eq!(next, NbMoves::new(1)),
            _ => panic!("a bound of zero moves must be raised"),
        }
        let second = iterate(&mut state, &is_goal, &h0, strong, NbMoves::new(1)).unwrap();
        assert!(state == start);
        assert_eq!(second.nb_visited_nodes, 7);
        match second.outcome {
            Outcome::Rebound(next) => assert_eq!(next, NbMoves::new(2)),
            _ => panic!("a bound of one move must be raised"),
        }
        let third = iterate(&mut state, &is_goal, &h0, strong, NbMoves::new(2)).unwrap();
        assert!(state == start);
        assert_eq!(state.top, start.top);
        assert!(third.nb_visited_nodes >= 3);
        match third.outcome {
            Outcome::Solved(path) => {
                assert_eq!(path.len(), 3);
                check_solution(&start, &path);
            },
            _ => panic!("two moves pile three blocks on three stacks"),
        }
    }
}

#[test]
fn iterate_skips_to_the_rank_of_the_estimate() {
    let mut state = WorldBlocks::initial(3, 3);
    let bound = h1(&state);
    assert_eq!(bound, NbMoves::new(2));
    let first = iterate(&mut state, &is_goal, &h1, false, bound).unwrap();
    match first.outcome {
        Outcome::Solved(path) => assert_eq!(path.len(), 3),
        _ => panic!("the estimate is exact here"),
    }
}

#[test]
fn iterate_without_anything_to_reject_ends_the_search() {
    let mut state = WorldBlocks::initial(3, 2);
    let last = iterate(&mut state, &is_goal, &h0, false, NbMoves::new(100)).unwrap();
    assert_eq!(last.nb_visited_nodes, 4);
    assert!(matches!(last.outcome, Outcome::NoSolution));
}

#[test]
fn iterate_reports_overflow_when_only_that_is_left() {
    let never = |_: &WorldBlocks| false;
    let huge = |_: &WorldBlocks| NbMoves::new(u32::MAX);
    let mut state = WorldBlocks::initial(2, 2);
    let result = iterate(&mut state, &never, &huge, false, NbMoves::new(u32::MAX));
    assert!(matches!(result, Err(SearchError::CostOverflow)));
    assert_eq!(state.top, WorldBlocks::initial(2, 2).top);
}

#[test]
fn strong_search_takes_the_best_estimate_first() {
    let start = WorldBlocks::initial(3, 3);
    let weak = iterate(&mut start.clone(), &is_goal, &h1, false, NbMoves::new(2)).unwrap();
    let strong = iterate(&mut start.clone(), &is_goal, &h1, true, NbMoves::new(2)).unwrap();
    assert!(matches!(weak.outcome, Outcome::Solved(_)));
    assert!(matches!(strong.outcome, Outcome::Solved(_)));
    assert_eq!(weak.nb_visited_nodes, 5);
    assert_eq!(strong.nb_visited_nodes, 5);
    let by_order = iterate(&mut start.clone(), &is_goal, &h0, false, NbMoves::new(2)).unwrap();
    assert_eq!(by_order.nb_visited_nodes, 20);
}

#[test]
fn goal_is_any_world_piled_in_order() {
    let mut world = WorldBlocks::initial(3, 3);
    assert!(!is_goal(&world));
    world.apply(&Move { from: 1, to: 2 }).unwrap();
    assert!(!is_goal(&world));
    world.apply(&Move { from: 0, to: 2 }).unwrap();
    assert!(is_goal(&world));
    assert_eq!(world.tower(2), vec![2, 1, 0]);
    world.apply(&Move { from: 2, to: 0 }).unwrap();
    assert!(!is_goal(&world));
}

#[test]
fn goal_needs_the_right_order() {
    let mut world = WorldBlocks::initial(2, 2);
    world.apply(&Move { from: 0, to: 1 }).unwrap();
    assert_eq!(world.tower(1), vec![1, 0]);
    assert!(is_goal(&world));
    let mut other = WorldBlocks::initial(2, 3);
    other.apply(&Move { from: 0, to: 2 }).unwrap();
    other.apply(&Move { from: 1, to: 2 }).unwrap();
    assert_eq!(other.tower(2), vec![0, 1]);
    assert!(!is_goal(&other));
}

#[test]
fn estimates_of_the_dealt_worlds() {
    let world = WorldBlocks::initial(3, 3);
    assert_eq!(h0(&world), NbMoves::new(0));
    assert_eq!(h1(&world), NbMoves::new(2));
    assert_eq!(h2(&world), NbMoves::new(2));
    assert_eq!(h4(&world), NbMoves::new(2));
    let tight = WorldBlocks::initial(3, 2);
    assert_eq!(h1(&tight), NbMoves::new(2));
    assert_eq!(h2(&tight), NbMoves::new(4));
    assert_eq!(h4(&tight), NbMoves::new(4));
    let tall = WorldBlocks::initial(4, 2);
    assert_eq!(h1(&tall), NbMoves::new(2));
    assert_eq!(h2(&tall), NbMoves::new(6));
    assert_eq!(h4(&tall), NbMoves::new(6));
}

#[test]
fn estimates_count_blocks_over_greater_ones() {
    let mut world = WorldBlocks::initial(3, 3);
    world.apply(&Move { from: 0, to: 1 }).unwrap();
    assert_eq!(h1(&world), NbMoves::new(2));
    assert_eq!(h2(&world), NbMoves::new(2));
    assert_eq!(h4(&world), NbMoves::new(3));
}

#[test]
fn estimates_of_a_solved_puzzle_are_zero() {
    let mut world = WorldBlocks::initial(3, 3);
    world.apply(&Move { from: 1, to: 2 }).unwrap();
    world.apply(&Move { from: 0, to: 2 }).unwrap();
    assert_eq!(h1(&world), NbMoves::new(0));
    assert_eq!(h2(&world), NbMoves::new(0));
    assert_eq!(h4(&world), NbMoves::new(0));
    let bare = WorldBlocks::initial(0, 2);
    assert_eq!(h1(&bare), NbMoves::new(0));
    assert_eq!(h4(&bare), NbMoves::new(0));
}

#[test]
fn weak_search_records_the_least_rejected_rank() {
    let mut state = WorldBlocks::initial(3, 3);
    let start = state.clone();
    let mut path = vec![state.clone()];
    let mut next_upper_bound = None;
    let mut overflowed = false;
    let mut nb_visited_state = 0;
    let found = weak_search(
        &mut state,
        NbMoves::new(0),
        &is_goal,
        &h4,
        &mut path,
        &Some(NbMoves::new(1)),
        &mut next_upper_bound,
        &mut overflowed,
        &mut nb_visited_state,
    );
    assert!(matches!(found, Ok(None)));
    assert_eq!(next_upper_bound, Some(NbMoves::new(2)));
    assert!(!overflowed);
    assert_eq!(nb_visited_state, 1);
    assert_eq!(path.len(), 1);
    assert_eq!(state.stack, start.stack);
    assert_eq!(state.next, start.next);
    assert_eq!(state.top, start.top);
}

#[test]
fn weak_search_keeps_a_better_next_bound() {
    let mut state = WorldBlocks::initial(3, 3);
    let mut path = vec![state.clone()];
    let mut next_upper_bound = Some(NbMoves::new(1));
    let mut overflowed = false;
    let mut nb_visited_state = 41;
    let found = weak_search(
        &mut state,
        NbMoves::new(0),
        &is_goal,
        &h4,
        &mut path,
        &Some(NbMoves::new(0)),
        &mut next_upper_bound,
        &mut overflowed,
        &mut nb_visited_state,
    );
    assert!(matches!(found, Ok(None)));
    assert_eq!(next_upper_bound, Some(NbMoves::new(1)));
    assert_eq!(nb_visited_state, 42);
}

#[test]
fn strong_search_finds_the_path_and_restores() {
    let mut state = WorldBlocks::initial(3, 3);
    let start = state.clone();
    let mut path = vec![state.clone()];
    let mut next_upper_bound = None;
    let mut overflowed = false;
    let mut nb_visited_state = 0;
    let found = strong_search(
        &mut state,
        NbMoves::new(0),
        &is_goal,
        &h4,
        &mut path,
        &Some(NbMoves::new(2)),
        &mut next_upper_bound,
        &mut overflowed,
        &mut nb_visited_state,
    )
    .unwrap()
    .unwrap();
    assert_eq!(found.len(), 3);
    check_solution(&start, &found);
    assert_eq!(nb_visited_state, 3);
    assert_eq!(path.len(), 1);
    assert_eq!(state.stack, start.stack);
    assert_eq!(state.next, start.next);
    assert_eq!(state.top, start.top);
}

#[test]
fn search_from_the_middle_of_a_path() {
    let start = WorldBlocks::initial(3, 3);
    let mut state = start.clone();
    state.apply(&Move { from: 1, to: 2 }).unwrap();
    let mut path = vec![start.clone(), state.clone()];
    let mut next_upper_bound = None;
    let mut overflowed = false;
    let mut nb_visited_state = 0;
    let found = weak_search(
        &mut state,
        NbMoves::new(1),
        &is_goal,
        &h1,
        &mut path,
        &Some(NbMoves::new(2)),
        &mut next_upper_bound,
        &mut overflowed,
        &mut nb_visited_state,
    )
    .unwrap()
    .unwrap();
    assert_eq!(found.len(), 3);
    check_solution(&start, &found);
    assert_eq!(path.len(), 2);
    assert_eq!(nb_visited_state, 2);
}

#[test]
fn search_without_a_bound_goes_wherever_it_can() {
    for strong in [false, true] {
        let mut state = WorldBlocks::initial(2, 2);
        let start = state.clone();
        let mut path = vec![state.clone()];
        let mut next_upper_bound = None;
        let mut overflowed = false;
        let mut nb_visited_state = 0;
        let found = if strong {
            strong_search(
                &mut state,
                NbMoves::new(0),
                &is_goal,
                &h0,
                &mut path,
                &None,
                &mut next_upper_bound,
                &mut overflowed,
                &mut nb_visited_state,
            )
        } else {
            weak_search(
                &mut state,
                NbMoves::new(0),
                &is_goal,
                &h0,
                &mut path,
                &None,
                &mut next_upper_bound,
                &mut overflowed,
                &mut nb_visited_state,
            )
        };
        let found = found.unwrap().unwrap();
        check_solution(&start, &found);
        assert_eq!(next_upper_bound, None);
        assert!(!overflowed);
    }
}

#[test]
fn search_marks_ranks_beyond_the_limit() {
    let never = |_: &WorldBlocks| false;
    let huge = |_: &WorldBlocks| NbMoves::new(u32::MAX);
    for strong in [false, true] {
        let mut state = WorldBlocks::initial(2, 2);
        let mut path = vec![state.clone()];
        let mut next_upper_bound = None;
        let mut overflowed = false;
        let mut nb_visited_state = 0;
        let found = if strong {
            strong_search(
                &mut state,
                NbMoves::new(0),
                &never,
                &huge,
                &mut path,
                &Some(NbMoves::new(5)),
                &mut next_upper_bound,
                &mut overflowed,
                &mut nb_visited_state,
            )
        } else {
            weak_search(
                &mut state,
                NbMoves::new(0),
                &never,
                &huge,
                &mut path,
                &Some(NbMoves::new(5)),
                &mut next_upper_bound,
                &mut overflowed,
                &mut nb_visited_state,
            )
        };
        assert!(matches!(found, Ok(None)));
        assert_eq!(next_upper_bound, None);
        assert!(overflowed);
        assert_eq!(nb_visited_state, 1);
    }
}

fn blocks_off_the_last_stack(world: &WorldBlocks) -> NbMoves {
    NbMoves::new(world.stack.iter().filter(|&&stack| stack != 1).count() as u32)
}

fn both_on_one_stack(world: &WorldBlocks) -> bool {
    world.stack[0] == world.stack[1]
}

fn prefers_the_first_stack(world: &WorldBlocks) -> NbMoves {
    NbMoves::new(if world.stack[0] == 1 { 1 } else { 0 })
}

#[test]
fn a_child_that_is_an_ancestor_is_not_visited() {
    let never = |_: &WorldBlocks| false;
    let start = WorldBlocks::initial(2, 2);
    let mut state = start.clone();
    state.apply(&Move { from: 0, to: 1 }).unwrap();
    let mut path = vec![start.clone(), state.clone()];
    let mut next_upper_bound = None;
    let mut overflowed = false;
    let mut nb_visited_state = 0;
    let found = weak_search(
        &mut state,
        NbMoves::new(1),
        &never,
        &h0,
        &mut path,
        &Some(NbMoves::new(9)),
        &mut next_upper_bound,
        &mut overflowed,
        &mut nb_visited_state,
    );
    assert!(matches!(found, Ok(None)));
    assert_eq!(nb_visited_state, 1);
    assert_eq!(next_upper_bound, None);
    assert!(!overflowed);
}

#[test]
fn rejected_children_are_not_visited() {
    let never = |_: &WorldBlocks| false;
    let start = WorldBlocks::initial(2, 2);
    let mut state = start.clone();
    let mut path = vec![start.clone()];
    let mut next_upper_bound = None;
    let mut overflowed = false;
    let mut nb_visited_state = 0;
    let found = weak_search(
        &mut state,
        NbMoves::new(0),
        &never,
        &blocks_off_the_last_stack,
        &mut path,
        &Some(NbMoves::new(0)),
        &mut next_upper_bound,
        &mut overflowed,
        &mut nb_visited_state,
    );
    assert!(matches!(found, Ok(None)));
    assert_eq!(next_upper_bound, Some(NbMoves::new(1)));
    assert_eq!(nb_visited_state, 1);
    assert_eq!(state.stack, start.stack);
    assert_eq!(state.next, start.next);
    assert_eq!(state.top, start.top);
    assert_eq!(path.len(), 1);
}

#[test]
fn weak_search_takes_the_first_offer() {
    let start = WorldBlocks::initial(2, 2);
    let mut state = start.clone();
    let mut path = vec![start.clone()];
    let mut next_upper_bound = None;
    let mut overflowed = false;
    let mut nb_visited_state = 0;
    let found = weak_search(
        &mut state,
        NbMoves::new(0),
        &both_on_one_stack,
        &prefers_the_first_stack,
        &mut path,
        &Some(NbMoves::new(2)),
        &mut next_upper_bound,
        &mut overflowed,
        &mut nb_visited_state,
    )
    .unwrap()
    .unwrap();
    assert_eq!(found.len(), 2);
    assert_eq!(found[1].stack, vec![1, 1]);
    assert_eq!(next_upper_bound, None);
    assert_eq!(nb_visited_state, 2);
}

#[test]
fn strong_search_takes_the_best_estimate() {
    let start = WorldBlocks::initial(2, 2);
    let mut state = start.clone();
    let mut path = vec![start.clone()];
    let mut next_upper_bound = None;
    let mut overflowed = false;
    let mut nb_visited_state = 0;
    let found = strong_search(
        &mut state,
        NbMoves::new(0),
        &both_on_one_stack,
        &prefers_the_first_stack,
        &mut path,
        &Some(NbMoves::new(2)),
        &mut next_upper_bound,
        &mut overflowed,
        &mut nb_visited_state,
    )
    .unwrap()
    .unwrap();
    assert_eq!(found.len(), 2);
    assert_eq!(found[1].stack, vec![0, 0]);
    assert_eq!(next_upper_bound, None);
    assert_eq!(nb_visited_state, 2);
}

#[test]
fn strong_search_restores_after_it_has_found() {
    let on_the_last = |world: &WorldBlocks| world.stack == vec![1, 1];
    let start = WorldBlocks::initial(2, 2);
    let mut state = start.clone();
    let mut path = vec![start.clone()];
    let mut next_upper_bound = None;
    let mut overflowed = false;
    let mut nb_visited_state = 0;
    let found = strong_search(
        &mut state,
        NbMoves::new(0),
        &on_the_last,
        &h0,
        &mut path,
        &Some(NbMoves::new(1)),
        &mut next_upper_bound,
        &mut overflowed,
        &mut nb_visited_state,
    )
    .unwrap()
    .unwrap();
    assert_eq!(found.len(), 2);
    assert_eq!(found[1].stack, vec![1, 1]);
    assert_eq!(found[1].next, vec![Some(1), None]);
    assert_eq!(state.stack, vec![0, 1]);
    assert_eq!(state.next, vec![None, None]);
    assert_eq!(state.top, vec![Some(0), Some(1)]);
    assert_eq!(path.len(), 1);
    assert_eq!(next_upper_bound, None);
    assert_eq!(nb_visited_state, 2);
}

#[test]
fn at_a_goal_the_search_returns_the_path_and_touches_nothing() {
    let always = |_: &WorldBlocks| true;
    for strong in [false, true] {
        let start = WorldBlocks::initial(3, 3);
        let mut state = start.clone();
        state.apply(&Move { from: 0, to: 1 }).unwrap();
        let mut path = vec![start.clone(), state.clone()];
        let mut next_upper_bound = Some(NbMoves::new(7));
        let mut overflowed = false;
        let mut nb_visited_state = 10;
        let found = if strong {
            strong_search(
                &mut state,
                NbMoves::new(1),
                &always,
                &h4,
                &mut path,
                &Some(NbMoves::new(0)),
                &mut next_upper_bound,
                &mut overflowed,
                &mut nb_visited_state,
            )
        } else {
            weak_search(
                &mut state,
                NbMoves::new(1),
                &always,
                &h4,
                &mut path,
                &Some(NbMoves::new(0)),
                &mut next_upper_bound,
                &mut overflowed,
                &mut nb_visited_state,
            )
        };
        let found = found.unwrap().unwrap();
        assert_eq!(found.len(), 2);
        assert!(found[0] == path[0] && found[1] == path[1]);
        assert_eq!(next_upper_bound, Some(NbMoves::new(7)));
        assert!(!overflowed);
        assert_eq!(nb_visited_state, 11);
    }
}

#[test]
fn both_orders_visit_as_many_states_where_they_find_nothing() {
    let never = |_: &WorldBlocks| false;
    for bound in 0..6 {
        let start = WorldBlocks::initial(3, 3);
        let weak = iterate(&mut start.clone(), &never, &h4, false, NbMoves::new(bound)).unwrap();
        let strong = iterate(&mut start.clone(), &never, &h4, true, NbMoves::new(bound)).unwrap();
        assert_eq!(weak.nb_visited_nodes, strong.nb_visited_nodes);
        match (weak.outcome, strong.outcome) {
            (Outcome::Rebound(lhs), Outcome::Rebound(rhs)) => assert_eq!(lhs, rhs),
            (Outcome::NoSolution, Outcome::NoSolution) => {},
            _ => panic!("both orders must end alike where there is no goal"),
        }
    }
}

#[test]
fn the_counter_stays_at_the_greatest_number() {
    let never = |_: &WorldBlocks| false;
    let mut state = WorldBlocks::initial(2, 2);
    let mut path = vec![state.clone()];
    let mut next_upper_bound = None;
    let mut overflowed = false;
    let mut nb_visited_state = usize::MAX - 1;
    let found = weak_search(
        &mut state,
        NbMoves::new(0),
        &never,
        &h0,
        &mut path,
        &Some(NbMoves::new(3)),
        &mut next_upper_bound,
        &mut overflowed,
        &mut nb_visited_state,
    );
    assert!(matches!(found, Ok(None)));
    assert_eq!(nb_visited_state, usize::MAX);
}

#[test]
fn each_round_reports_the_states_that_it_visited() {
    let all_on_the_last = |world: &WorldBlocks| world.stack.iter().all(|&stack| stack == 1);
    let mut state = WorldBlocks::initial(3, 2);
    let first = iterate(&mut state, &all_on_the_last, &h0, false, NbMoves::new(0)).unwrap();
    assert_eq!(first.nb_visited_nodes, 1);
    let second = match first.outcome {
        Outcome::Rebound(next) => {
            assert_eq!(next, NbMoves::new(1));
            iterate(&mut state, &all_on_the_last, &h0, false, next).unwrap()
        },
        _ => panic!("no moves do not fill the last stack"),
    };
    assert_eq!(second.nb_visited_nodes, 3);
    let third = match second.outcome {
        Outcome::Rebound(next) => {
            assert_eq!(next, NbMoves::new(2));
            iterate(&mut state, &all_on_the_last, &h0, false, next).unwrap()
        },
        _ => panic!("one move does not fill the last stack"),
    };
    assert_eq!(third.nb_visited_nodes, 3);
    match third.outcome {
        Outcome::Solved(path) => assert_eq!(path.len(), 3),
        _ => panic!("two moves fill the last stack"),
    }
}
