//! The vocabulary of the search: costs, weighted actions and problems.

use std::cmp::Ordering;
use vstd::prelude::*;

pub mod ida_star;
pub mod routes;
pub mod steps;

verus! {

/// What can go wrong while a problem is explored.
#[derive(Clone, Copy, Debug, PartialEq, Eq, Structural)]
pub enum SearchError {
    /// An action was applied to a state that does not enable it.
    IllegalMove,
    /// Costs were aggregated whose aggregate cannot be represented.
    CostOverflow,
}

/// An ordered value that can be accumulated along a path.
///
/// The operations are described by spec functions that each implementation
/// defines. The one law shared by all of them is that a cost is never both
/// better and worse than another one, so that of "better", "worse" and
/// "tied" exactly one holds.
pub trait Cost: Sized {
    /// The best possible cost, from which accumulation starts.
    spec fn best_spec() -> Self;

    /// `self` is strictly preferable to `other`.
    spec fn better(&self, other: &Self) -> bool;

    /// `self` is strictly less preferable than `other`.
    spec fn worse(&self, other: &Self) -> bool;

    /// The aggregate of `self` and `other` can be represented.
    spec fn fits(&self, other: &Self) -> bool;

    /// The aggregate of `self` and `other`, meaningful where `fits` holds.
    spec fn sum(&self, other: &Self) -> Self;

    /// The best possible cost.
    fn best() -> (r: Self)
        ensures
            r == Self::best_spec(),
    ;

    /// Whether `self` is strictly preferable to `other`.
    fn is_better_than(&self, other: &Self) -> (r: bool)
        ensures
            r == self.better(other),
    ;

    /// Whether `self` is strictly less preferable than `other`.
    fn is_worst_than(&self, other: &Self) -> (r: bool)
        ensures
            r == self.worse(other),
    ;

    /// The aggregate of `self` and `other`, or `CostOverflow` where it
    /// cannot be represented.
    fn aggregate(&self, other: &Self) -> (r: Result<Self, SearchError>)
        ensures
            self.fits(other) ==> r == Ok::<Self, SearchError>(self.sum(other)),
            !self.fits(other) ==> r == Err::<Self, SearchError>(SearchError::CostOverflow),
    ;

    /// Better and worse exclude one another.
    proof fn lemma_better_excludes_worse(&self, other: &Self)
        ensures
            !(self.better(other) && self.worse(other)),
    ;
}

/// A cost that amounts to a natural number no greater than a fixed limit:
/// smaller is better, aggregation adds, and an aggregate fits while it
/// does not exceed the limit.
pub trait ScalarCost: Cost + Copy {
    /// The number that the cost amounts to.
    spec fn value(&self) -> nat;

    /// The greatest number that a cost of this type can amount to.
    spec fn limit() -> nat;

    /// No cost amounts to more than the limit.
    proof fn lemma_value_within_limit(&self)
        ensures
            self.value() <= Self::limit(),
    ;

    /// The best cost amounts to nothing.
    proof fn lemma_best_is_zero()
        ensures
            Self::best_spec().value() == 0,
    ;

    /// The less a cost amounts to, the better it is.
    proof fn lemma_order_by_value(&self, other: &Self)
        ensures
            self.better(other) == (self.value() < other.value()),
            self.worse(other) == (self.value() > other.value()),
    ;

    /// An aggregate fits while it does not exceed the limit, and amounts to
    /// what its parts amount to together.
    proof fn lemma_sum_adds_values(&self, other: &Self)
        ensures
            self.fits(other) == (self.value() + other.value() <= Self::limit()),
            self.fits(other) ==> self.sum(other).value() == self.value() + other.value(),
    ;
}

/// The cost extended by an absent value, which stands for "unbounded".
///
/// An absent cost is worse than every present cost, and every present
/// cost is better than it; two absent costs are tied. An aggregate is
/// absent as soon as one operand is.
impl<C: Cost> Cost for Option<C> {
    open spec fn best_spec() -> Self {
        Some(C::best_spec())
    }

    open spec fn better(&self, other: &Self) -> bool {
        match (self, other) {
            (None, _) => false,
            (Some(_), None) => true,
            (Some(lhs), Some(rhs)) => lhs.better(rhs),
        }
    }

    open spec fn worse(&self, other: &Self) -> bool {
        match (self, other) {
            (None, None) => false,
            (None, Some(_)) => true,
            (Some(_), None) => false,
            (Some(lhs), Some(rhs)) => lhs.worse(rhs),
        }
    }

    open spec fn fits(&self, other: &Self) -> bool {
        match (self, other) {
            (Some(lhs), Some(rhs)) => lhs.fits(rhs),
            _ => true,
        }
    }

    open spec fn sum(&self, other: &Self) -> Self {
        match (self, other) {
            (Some(lhs), Some(rhs)) => Some(lhs.sum(rhs)),
            _ => None,
        }
    }

    fn best() -> (r: Self) {
        Some(C::best())
    }

    fn is_better_than(&self, other: &Self) -> (r: bool) {
        match (self, other) {
            (None, _) => false,
            (Some(_), None) => true,
            (Some(lhs), Some(rhs)) => lhs.is_better_than(rhs),
        }
    }

    fn is_worst_than(&self, other: &Self) -> (r: bool) {
        match (self, other) {
            (None, None) => false,
            (None, Some(_)) => true,
            (Some(_), None) => false,
            (Some(lhs), Some(rhs)) => lhs.is_worst_than(rhs),
        }
    }

    fn aggregate(&self, other: &Self) -> (r: Result<Self, SearchError>) {
        match (self, other) {
            (Some(lhs), Some(rhs)) => match lhs.aggregate(rhs) {
                Ok(total) => Ok(Some(total)),
                Err(e) => Err(e),
            },
            _ => Ok(None),
        }
    }

    proof fn lemma_better_excludes_worse(&self, other: &Self) {
        match (self, other) {
            (Some(lhs), Some(rhs)) => lhs.lemma_better_excludes_worse(rhs),
            _ => {},
        }
    }
}

/// Orders two costs so that the better one comes first.
pub fn best_cost_first<C: Cost>(lhs: &C, rhs: &C) -> (r: Ordering)
    ensures
        r == (if lhs.better(rhs) {
            Ordering::Less
        } else if lhs.worse(rhs) {
            Ordering::Greater
        } else {
            Ordering::Equal
        }),
{
    if lhs.is_better_than(rhs) {
        Ordering::Less
    } else if lhs.is_worst_than(rhs) {
        Ordering::Greater
    } else {
        Ordering::Equal
    }
}

/// Orders two costs so that the worse one comes first.
pub fn worst_cost_first<C: Cost>(lhs: &C, rhs: &C) -> (r: Ordering)
    ensures
        r == (if rhs.better(lhs) {
            Ordering::Less
        } else if rhs.worse(lhs) {
            Ordering::Greater
        } else {
            Ordering::Equal
        }),
{
    if rhs.is_better_than(lhs) {
        Ordering::Less
    } else if rhs.is_worst_than(lhs) {
        Ordering::Greater
    } else {
        Ordering::Equal
    }
}

/// An action together with what it costs to take it.
pub struct WeightedAction<A, C> {
    pub action: A,
    pub cost: C,
}

impl<A, C> WeightedAction<A, C> {
    /// `action` at the cost of `cost`.
    pub fn new(action: A, cost: C) -> (r: Self)
        ensures
            r.action == action,
            r.cost == cost,
    {
        WeightedAction { action, cost }
    }
}

impl<A: Clone, C: Clone> Clone for WeightedAction<A, C> {
    fn clone(&self) -> (r: Self)
        ensures
            cloned(self.action, r.action),
            cloned(self.cost, r.cost),
    {
        WeightedAction { action: self.action.clone(), cost: self.cost.clone() }
    }
}

/// A state whose actions carry costs of their own.
///
/// The state is seen through its view. `valid` is the invariant that the
/// operations keep, `enabled` says which actions `apply` accepts, `after`
/// what they lead to, and `offers` what `weighted_actions` lists.
/// `undoable` and `undone` say the same of `restore`, and `same` is the
/// equality by which a search recognises a state that it has seen.
pub trait NonUniformProblem<Action, C>: View + Sized {
    spec fn valid(v: Self::V) -> bool;

    spec fn same(v: Self::V, w: Self::V) -> bool;

    spec fn enabled(v: Self::V, action: Action) -> bool;

    spec fn after(v: Self::V, action: Action) -> Self::V;

    spec fn undoable(v: Self::V, action: Action) -> bool;

    spec fn undone(v: Self::V, action: Action) -> Self::V;

    spec fn offers(v: Self::V) -> Seq<WeightedAction<Action, C>>;

    /// Takes `action`, or leaves the state as it is and reports
    /// `IllegalMove` where the state does not enable it.
    fn apply(&mut self, action: &Action) -> (r: Result<(), SearchError>)
        requires
            Self::valid(old(self)@),
        ensures
            Self::valid(final(self)@),
            Self::enabled(old(self)@, *action) ==> r is Ok && final(self)@ == Self::after(
                old(self)@,
                *action,
            ),
            !Self::enabled(old(self)@, *action) ==> r == Err::<(), SearchError>(
                SearchError::IllegalMove,
            ) && final(self)@ == old(self)@,
    ;

    /// Takes `action` back, or leaves the state as it is and reports
    /// `IllegalMove` where it cannot have been the last action taken.
    fn restore(&mut self, action: &Action) -> (r: Result<(), SearchError>)
        requires
            Self::valid(old(self)@),
        ensures
            Self::valid(final(self)@),
            Self::undoable(old(self)@, *action) ==> r is Ok && final(self)@ == Self::undone(
                old(self)@,
                *action,
            ),
            !Self::undoable(old(self)@, *action) ==> r == Err::<(), SearchError>(
                SearchError::IllegalMove,
            ) && final(self)@ == old(self)@,
    ;

    /// The actions that the state enables, each with its cost.
    fn weighted_actions(&self) -> (r: Vec<WeightedAction<Action, C>>)
        requires
            Self::valid(self@),
        ensures
            r@ == Self::offers(self@),
    ;

    /// An enabled action leads to a valid state.
    proof fn lemma_after_is_valid(v: Self::V, action: Action)
        requires
            Self::valid(v),
            Self::enabled(v, action),
        ensures
            Self::valid(Self::after(v, action)),
    ;

    /// Every action on offer is enabled.
    proof fn lemma_offers_are_enabled(v: Self::V, i: int)
        requires
            Self::valid(v),
            0 <= i < Self::offers(v).len(),
        ensures
            Self::enabled(v, Self::offers(v)[i].action),
    ;

    /// Taking an action back right after taking it gives the state from
    /// before.
    proof fn lemma_restore_undoes_apply(v: Self::V, action: Action)
        requires
            Self::valid(v),
            Self::enabled(v, action),
        ensures
            Self::undoable(Self::after(v, action), action),
            Self::undone(Self::after(v, action), action) == v,
    ;
}

/// A state all of whose actions cost the same.
///
/// The spec functions mean what they mean in `NonUniformProblem`, but for
/// `offers`, which lists bare actions.
pub trait UniformProblem<Action>: View + Sized {
    spec fn valid(v: Self::V) -> bool;

    spec fn enabled(v: Self::V, action: Action) -> bool;

    spec fn after(v: Self::V, action: Action) -> Self::V;

    spec fn undoable(v: Self::V, action: Action) -> bool;

    spec fn undone(v: Self::V, action: Action) -> Self::V;

    spec fn offers(v: Self::V) -> Seq<Action>;

    /// Takes `action`, or leaves the state as it is and reports
    /// `IllegalMove` where the state does not enable it.
    fn apply(&mut self, action: &Action) -> (r: Result<(), SearchError>)
        requires
            Self::valid(old(self)@),
        ensures
            Self::valid(final(self)@),
            Self::enabled(old(self)@, *action) ==> r is Ok && final(self)@ == Self::after(
                old(self)@,
                *action,
            ),
            !Self::enabled(old(self)@, *action) ==> r == Err::<(), SearchError>(
                SearchError::IllegalMove,
            ) && final(self)@ == old(self)@,
    ;

    /// Takes `action` back, or leaves the state as it is and reports
    /// `IllegalMove` where it cannot have been the last action taken.
    fn restore(&mut self, action: &Action) -> (r: Result<(), SearchError>)
        requires
            Self::valid(old(self)@),
        ensures
            Self::valid(final(self)@),
            Self::undoable(old(self)@, *action) ==> r is Ok && final(self)@ == Self::undone(
                old(self)@,
                *action,
            ),
            !Self::undoable(old(self)@, *action) ==> r == Err::<(), SearchError>(
                SearchError::IllegalMove,
            ) && final(self)@ == old(self)@,
    ;

    /// The actions that the state enables.
    fn weighted_actions(&self) -> (r: Vec<Action>)
        requires
            Self::valid(self@),
        ensures
            r@ == Self::offers(self@),
            forall|i: int| 0 <= i < r@.len() ==> Self::enabled(self@, #[trigger] r@[i]),
    ;
}

} // verus!
