use idastar::algorithms::{best_cost_first, worst_cost_first, Cost, SearchError, WeightedAction};
use idastar::world_blocks::{Move, NbMoves};
use std::cmp::Ordering;

#[test]
fn best_is_zero_moves() {
    assert_eq!(NbMoves::best(), NbMoves::new(0));
}

#[test]
fn fewer_moves_are_better() {
    let two = NbMoves::new(2);
    let five = NbMoves::new(5);
    assert!(two.is_better_than(&five));
    assert!(!two.is_worst_than(&five));
    assert!(five.is_worst_than(&two));
    assert!(!five.is_better_than(&two));
}

#[test]
fn equal_moves_are_tied() {
    let three = NbMoves::new(3);
    let other = NbMoves::new(3);
    assert!(!three.is_better_than(&other));
    assert!(!three.is_worst_than(&other));
}

#[test]
fn exactly_one_of_better_worse_tied() {
    let values = [0u32, 1, 2, 7, u32::MAX - 1, u32::MAX];
    for a in values {
        for b in values {
            let lhs = NbMoves::new(a);
            let rhs = NbMoves::new(b);
            let better = lhs.is_better_than(&rhs);
            let worse = lhs.is_worst_than(&rhs);
            let tied = !better && !worse;
            let holding = [better, worse, tied].iter().filter(|held| **held).count();
            assert_eq!(holding, 1);
            assert_eq!(tied, a == b);
            assert_eq!(better, a < b);
            assert_eq!(worse, a > b);
        }
    }
}

#[test]
fn aggregate_adds_moves() {
    assert_eq!(NbMoves::new(2).aggregate(&NbMoves::new(3)), Ok(NbMoves::new(5)));
    assert_eq!(NbMoves::new(0).aggregate(&NbMoves::new(0)), Ok(NbMoves::new(0)));
    assert_eq!(
        NbMoves::new(u32::MAX - 1).aggregate(&NbMoves::new(1)),
        Ok(NbMoves::new(u32::MAX))
    );
}

#[test]
fn aggregate_beyond_the_limit_overflows() {
    assert_eq!(
        NbMoves::new(u32::MAX).aggregate(&NbMoves::new(1)),
        Err(SearchError::CostOverflow)
    );
    assert_eq!(
        NbMoves::new(3_000_000_000).aggregate(&NbMoves::new(3_000_000_000)),
        Err(SearchError::CostOverflow)
    );
}

#[test]
fn aggregate_is_associative() {
    let values = [0u32, 1, 5, 1_000_000, u32::MAX - 5, u32::MAX];
    for a in values {
        for b in values {
            for c in values {
                let (a, b, c) = (NbMoves::new(a), NbMoves::new(b), NbMoves::new(c));
                let left = a.aggregate(&b).and_then(|ab| ab.aggregate(&c));
                let right = b.aggregate(&c).and_then(|bc| a.aggregate(&bc));
                assert_eq!(left, right);
            }
        }
    }
    let left = NbMoves::new(1).aggregate(&NbMoves::new(2)).unwrap().aggregate(&NbMoves::new(3));
    assert_eq!(left, Ok(NbMoves::new(6)));
}

#[test]
fn best_optional_cost_is_present() {
    assert_eq!(<Option<NbMoves> as Cost>::best(), Some(NbMoves::new(0)));
}

#[test]
fn absent_cost_is_worse_than_every_present_cost() {
    let absent: Option<NbMoves> = None;
    let present = Some(NbMoves::new(4));
    assert!(absent.is_worst_than(&present));
    assert!(!absent.is_better_than(&present));
    assert!(absent.is_worst_than(&Some(NbMoves::new(u32::MAX))));
}

#[test]
fn absent_costs_are_tied() {
    let absent: Option<NbMoves> = None;
    assert!(!absent.is_worst_than(&absent));
    assert!(!absent.is_better_than(&absent));
}

#[test]
fn optional_costs_are_better_worse_or_tied() {
    let costs = [None, Some(NbMoves::new(0)), Some(NbMoves::new(3)), Some(NbMoves::new(u32::MAX))];
    for lhs in costs {
        for rhs in costs {
            let better = lhs.is_better_than(&rhs);
            let worse = lhs.is_worst_than(&rhs);
            assert!(!(better && worse));
            assert_eq!(better, rhs.is_worst_than(&lhs));
            assert_eq!(!better && !worse, lhs == rhs);
        }
    }
}

#[test]
fn present_cost_is_better_than_absent_bound() {
    let absent: Option<NbMoves> = None;
    let present = Some(NbMoves::new(u32::MAX));
    assert!(present.is_better_than(&absent));
    assert!(!present.is_worst_than(&absent));
}

#[test]
fn present_costs_compare_by_their_values() {
    let low = Some(NbMoves::new(1));
    let high = Some(NbMoves::new(9));
    assert!(low.is_better_than(&high));
    assert!(high.is_worst_than(&low));
    assert!(!low.is_worst_than(&high));
    assert!(!low.is_better_than(&low));
    assert!(!low.is_worst_than(&low));
}

#[test]
fn optional_aggregate_is_absent_when_an_operand_is() {
    let absent: Option<NbMoves> = None;
    let present = Some(NbMoves::new(4));
    assert_eq!(present.aggregate(&present), Ok(Some(NbMoves::new(8))));
    assert_eq!(present.aggregate(&absent), Ok(None));
    assert_eq!(absent.aggregate(&present), Ok(None));
    assert_eq!(absent.aggregate(&absent), Ok(None));
}

#[test]
fn optional_aggregate_reports_overflow() {
    let huge = Some(NbMoves::new(u32::MAX));
    assert_eq!(huge.aggregate(&Some(NbMoves::new(1))), Err(SearchError::CostOverflow));
}

#[test]
fn best_cost_first_orders_ascending() {
    assert_eq!(best_cost_first(&NbMoves::new(1), &NbMoves::new(2)), Ordering::Less);
    assert_eq!(best_cost_first(&NbMoves::new(2), &NbMoves::new(1)), Ordering::Greater);
    assert_eq!(best_cost_first(&NbMoves::new(2), &NbMoves::new(2)), Ordering::Equal);
}

#[test]
fn worst_cost_first_orders_descending() {
    assert_eq!(worst_cost_first(&NbMoves::new(1), &NbMoves::new(2)), Ordering::Greater);
    assert_eq!(worst_cost_first(&NbMoves::new(2), &NbMoves::new(1)), Ordering::Less);
    assert_eq!(worst_cost_first(&NbMoves::new(2), &NbMoves::new(2)), Ordering::Equal);
}

#[test]
fn cost_orders_sort_a_list() {
    let mut costs = vec![NbMoves::new(3), NbMoves::new(1), NbMoves::new(2)];
    costs.sort_by(|lhs, rhs| best_cost_first(lhs, rhs));
    assert_eq!(costs, vec![NbMoves::new(1), NbMoves::new(2), NbMoves::new(3)]);
    costs.sort_by(|lhs, rhs| worst_cost_first(lhs, rhs));
    assert_eq!(costs, vec![NbMoves::new(3), NbMoves::new(2), NbMoves::new(1)]);
}

#[test]
fn weighted_action_keeps_action_and_cost() {
    let weighted = WeightedAction::new(Move { from: 1, to: 2 }, NbMoves::new(7));
    assert_eq!(weighted.action, Move { from: 1, to: 2 });
    assert_eq!(weighted.cost, NbMoves::new(7));
    let copy = weighted.clone();
    assert_eq!(copy.action, Move { from: 1, to: 2 });
    assert_eq!(copy.cost, NbMoves::new(7));
}
