//! The blocks world: labelled blocks piled on a fixed number of stacks,
//! where a move takes the top block of one stack to the top of another.

use crate::algorithms::{
    Cost, NonUniformProblem, ScalarCost, SearchError, WeightedAction,
};
use std::ops::Range;
use vstd::arithmetic::div_mod::{
    lemma_fundamental_div_mod, lemma_mod_add_multiples_vanish, lemma_mod_pos_bound,
    lemma_small_mod,
};
use vstd::prelude::*;
use vstd::std_specs::cmp::PartialEqSpecImpl;

verus! {

/// The number of a stack.
pub type Stack = usize;

/// The numbers of the stacks of a world.
pub type Stacks = Range<Stack>;

/// The number of a block.
pub type Block = usize;

/// The numbers of the blocks of a world.
pub type Blocks = Range<Block>;

/// A number of moves, the cost by which the blocks world is searched.
#[derive(Copy, Clone, Debug, PartialEq, Eq, Structural)]
pub struct NbMoves(u32);

impl NbMoves {
    /// The cost of `nb_moves` moves.
    pub fn new(nb_moves: u32) -> (r: Self)
        ensures
            r.value() == nb_moves,
    {
        NbMoves(nb_moves)
    }
}

impl Cost for NbMoves {
    closed spec fn best_spec() -> Self {
        NbMoves(0)
    }

    closed spec fn better(&self, other: &Self) -> bool {
        self.0 < other.0
    }

    closed spec fn worse(&self, other: &Self) -> bool {
        self.0 > other.0
    }

    closed spec fn fits(&self, other: &Self) -> bool {
        self.0 + other.0 <= u32::MAX
    }

    closed spec fn sum(&self, other: &Self) -> Self {
        NbMoves((self.0 + other.0) as u32)
    }

    fn best() -> (r: Self) {
        NbMoves(0)
    }

    fn is_better_than(&self, other: &Self) -> (r: bool) {
        self.0 < other.0
    }

    fn is_worst_than(&self, other: &Self) -> (r: bool) {
        self.0 > other.0
    }

    fn aggregate(&self, other: &Self) -> (r: Result<Self, SearchError>) {
        match self.0.checked_add(other.0) {
            Some(total) => Ok(NbMoves(total)),
            None => Err(SearchError::CostOverflow),
        }
    }

    proof fn lemma_better_excludes_worse(&self, other: &Self) {
    }
}

impl ScalarCost for NbMoves {
    closed spec fn value(&self) -> nat {
        self.0 as nat
    }

    open spec fn limit() -> nat {
        u32::MAX as nat
    }

    proof fn lemma_value_within_limit(&self) {
    }

    proof fn lemma_best_is_zero() {
    }

    proof fn lemma_order_by_value(&self, other: &Self) {
    }

    proof fn lemma_sum_adds_values(&self, other: &Self) {
    }
}

/// Two numbers of moves with the same value are the same cost.
pub proof fn lemma_nb_moves_by_value(a: NbMoves, b: NbMoves)
    ensures
        (a.value() == b.value()) == (a == b),
{
}

/// Aggregating numbers of moves is associative: either grouping fits
/// exactly when the other does, and then both give the same cost.
pub proof fn lemma_aggregate_is_associative(a: NbMoves, b: NbMoves, c: NbMoves)
    ensures
        (a.fits(&b) && a.sum(&b).fits(&c)) == (b.fits(&c) && a.fits(&b.sum(&c))),
        a.fits(&b) && a.sum(&b).fits(&c) ==> a.sum(&b).sum(&c) == a.sum(&b.sum(&c)),
{
}

/// Of better, worse and tied exactly one holds between two numbers of
/// moves, and they are tied exactly when they are equal.
pub proof fn lemma_nb_moves_trichotomy(a: NbMoves, b: NbMoves)
    ensures
        !(a.better(&b) && a.worse(&b)),
        (!a.better(&b) && !a.worse(&b)) == (a == b),
        a.better(&b) == b.worse(&a),
{
}

/// The transfer of the top block of `from` onto `to`.
#[derive(Copy, Clone, Debug, PartialEq, Eq, Structural)]
pub struct Move {
    pub from: Stack,
    pub to: Stack,
}

impl Move {
    /// The move that takes the block back.
    pub open spec fn reversed(self) -> Move {
        Move { from: self.to, to: self.from }
    }
}

/// What a blocks world holds, as plain sequences.
pub struct World {
    /// For every block, the stack that holds it.
    pub stack: Seq<Stack>,
    /// For every block, the block right below it, if any.
    pub next: Seq<Option<Block>>,
    /// For every stack, its top block, if any.
    pub top: Seq<Option<Block>>,
}

impl World {
    /// `height` grows from every block to the one that sits on it, so that
    /// no chain of blocks comes back to where it started.
    pub open spec fn ranked_by(self, height: Seq<nat>) -> bool {
        &&& height.len() == self.next.len()
        &&& forall|a: int|
            0 <= a < self.next.len() ==> match #[trigger] self.next[a] {
                Some(c) => c < self.next.len() && height[c as int] < height[a],
                None => true,
            }
    }

    /// The blocks form one chain per stack, from its top downwards, and
    /// every block is in the chain of the stack that holds it.
    pub open spec fn wf(self) -> bool {
        &&& self.stack.len() == self.next.len()
        &&& self.next.len() <= usize::MAX
        &&& self.top.len() <= usize::MAX
        &&& forall|b: int| 0 <= b < self.stack.len() ==> #[trigger] self.stack[b] < self.top.len()
        &&& forall|s: int|
            0 <= s < self.top.len() ==> match #[trigger] self.top[s] {
                Some(b) => b < self.next.len() && self.stack[b as int] == s,
                None => true,
            }
        &&& forall|a: int|
            0 <= a < self.next.len() ==> match #[trigger] self.next[a] {
                Some(c) => c < self.next.len() && self.stack[c as int] == self.stack[a],
                None => true,
            }
        &&& forall|a: int, s: int|
            0 <= a < self.next.len() && 0 <= s < self.top.len() && (#[trigger] self.next[a])
                is Some ==> self.next[a] != #[trigger] self.top[s]
        &&& forall|a: int, b: int|
            0 <= a < self.next.len() && 0 <= b < self.next.len() && a != b && (
            #[trigger] self.next[a]) is Some ==> self.next[a] != #[trigger] self.next[b]
        &&& forall|c: int|
            0 <= c < self.stack.len() ==> is_block(
                self.top[(#[trigger] self.stack[c]) as int],
                c,
            ) || self.carried(c)
        &&& exists|height: Seq<nat>| self.ranked_by(height)
    }

    /// A ranking by which no chain of blocks comes back to where it
    /// started.
    pub open spec fn heights(self) -> Seq<nat> {
        choose|height: Seq<nat>| self.ranked_by(height)
    }

    /// The blocks under block `b`, from the one right below it down.
    pub open spec fn under(self, b: int) -> Seq<Block>
        decreases self.heights()[b],
        when self.wf() && 0 <= b < self.next.len()
    {
        match self.next[b] {
            Some(c) => seq![c] + self.under(c as int),
            None => seq![],
        }
    }

    /// The blocks of stack `s`, from its top down.
    pub open spec fn pile(self, s: int) -> Seq<Block> {
        match self.top[s] {
            Some(b) => seq![b] + self.under(b as int),
            None => seq![],
        }
    }

    /// Some block sits right on block `c`.
    #[verifier::opaque]
    pub open spec fn carried(self, c: int) -> bool {
        exists|a: int| 0 <= a < self.next.len() && is_block(#[trigger] self.next[a], c)
    }

    /// The equality of the search: the same blocks on the same stacks, each
    /// on the same block. The tops follow from these and are not compared.
    pub open spec fn same(self, other: World) -> bool {
        self.stack == other.stack && self.next == other.next
    }

    /// `m` names two stacks, the first of which holds a block.
    pub open spec fn enables(self, m: Move) -> bool {
        &&& m.from < self.top.len()
        &&& m.to < self.top.len()
        &&& self.top[m.from as int] is Some
    }

    /// The world in which the top block of `m.from` has gone to `m.to`.
    pub open spec fn moved(self, m: Move) -> World {
        let block = self.top[m.from as int]->0;
        let lifted = self.top.update(m.from as int, self.next[block as int]);
        World {
            stack: self.stack.update(block as int, m.to),
            next: self.next.update(block as int, lifted[m.to as int]),
            top: lifted.update(m.to as int, Some(block)),
        }
    }

    /// The moves between stacks `lhs` and `rhs` that do not start from an
    /// empty stack, the one from `lhs` first.
    pub open spec fn between(self, lhs: int, rhs: int) -> Seq<WeightedAction<Move, NbMoves>> {
        let there = if self.top[lhs] is Some {
            seq![unit_move(lhs, rhs)]
        } else {
            seq![]
        };
        let back = if self.top[rhs] is Some {
            seq![unit_move(rhs, lhs)]
        } else {
            seq![]
        };
        there + back
    }

    /// The moves between `lhs` and the stacks after it and before `upto`.
    pub open spec fn row(self, lhs: int, upto: int) -> Seq<WeightedAction<Move, NbMoves>>
        decreases upto - lhs,
    {
        if upto <= lhs + 1 {
            seq![]
        } else {
            self.row(lhs, upto - 1) + self.between(lhs, upto - 1)
        }
    }

    /// The moves between any two stacks the first of which is before `upto`.
    pub open spec fn rows(self, upto: int) -> Seq<WeightedAction<Move, NbMoves>>
        decreases upto,
    {
        if upto <= 0 {
            seq![]
        } else {
            self.rows(upto - 1) + self.row(upto - 1, self.top.len() as int)
        }
    }

    /// Every move on offer: for each pair of distinct stacks, in the order
    /// of the pairs, the moves between them.
    pub open spec fn moves(self) -> Seq<WeightedAction<Move, NbMoves>> {
        self.rows(self.top.len() as int)
    }

    /// The world of `nb_blocks` blocks dealt out in turn to `nb_stacks`
    /// stacks, each block on the one dealt to the same stack before it.
    pub open spec fn dealt(self, nb_blocks: nat, nb_stacks: nat) -> bool {
        &&& self.stack.len() == nb_blocks
        &&& self.next.len() == nb_blocks
        &&& self.top.len() == nb_stacks
        &&& forall|b: int| 0 <= b < nb_blocks ==> #[trigger] self.stack[b] == b % (nb_stacks as int)
        &&& forall|b: int|
            0 <= b < nb_blocks ==> #[trigger] self.next[b] == if b >= nb_stacks {
                Some((b - nb_stacks) as usize)
            } else {
                None
            }
        &&& forall|s: int|
            0 <= s < nb_stacks ==> match #[trigger] self.top[s] {
                Some(b) => b < nb_blocks && (b as int) % (nb_stacks as int) == s && b
                    + nb_stacks >= nb_blocks,
                None => s >= nb_blocks,
            }
    }
}

/// `slot` holds block `c`.
pub open spec fn is_block(slot: Option<Block>, c: int) -> bool {
    slot matches Some(b) && b == c
}

/// The move from `from` to `to` at the cost of one move.
pub open spec fn unit_move(from: int, to: int) -> WeightedAction<Move, NbMoves> {
    WeightedAction { action: Move { from: from as usize, to: to as usize }, cost: one_move() }
}

/// The cost of a single move.
pub closed spec fn one_move() -> NbMoves {
    NbMoves(1)
}

/// A single move costs one.
pub proof fn lemma_one_move_is_one()
    ensures
        one_move().value() == 1,
{
}

/// A blocks world, held as three tables.
#[derive(Debug, Hash)]
pub struct WorldBlocks {
    pub stack: Vec<Stack>,
    pub next: Vec<Option<Block>>,
    pub top: Vec<Option<Block>>,
}

impl View for WorldBlocks {
    type V = World;

    open spec fn view(&self) -> World {
        World { stack: self.stack@, next: self.next@, top: self.top@ }
    }
}

impl Clone for WorldBlocks {
    fn clone(&self) -> (r: Self)
        ensures
            r@ == self@,
    {
        let r = WorldBlocks {
            stack: self.stack.clone(),
            next: self.next.clone(),
            top: self.top.clone(),
        };
        assert(r.stack@ =~= self.stack@);
        assert(r.next@ =~= self.next@);
        assert(r.top@ =~= self.top@);
        r
    }
}

fn same_block(lhs: Option<Block>, rhs: Option<Block>) -> (r: bool)
    ensures
        r == (lhs == rhs),
{
    match (lhs, rhs) {
        (None, None) => true,
        (Some(a), Some(b)) => a == b,
        _ => false,
    }
}

impl PartialEq for WorldBlocks {
    fn eq(&self, other: &Self) -> (r: bool) {
        if self.stack.len() != other.stack.len() || self.next.len() != other.next.len() {
            return false;
        }
        let mut block: usize = 0;
        while block < self.stack.len()
            invariant
                self.stack.len() == other.stack.len(),
                block <= self.stack.len(),
                forall|b: int| 0 <= b < block ==> self.stack@[b] == other.stack@[b],
            decreases self.stack.len() - block,
        {
            if self.stack[block] != other.stack[block] {
                return false;
            }
            block += 1;
        }
        assert(self.stack@ =~= other.stack@);
        let mut block: usize = 0;
        while block < self.next.len()
            invariant
                self.next.len() == other.next.len(),
                block <= self.next.len(),
                forall|b: int| 0 <= b < block ==> self.next@[b] == other.next@[b],
            decreases self.next.len() - block,
        {
            if !same_block(self.next[block], other.next[block]) {
                return false;
            }
            block += 1;
        }
        assert(self.next@ =~= other.next@);
        true
    }
}

impl PartialEqSpecImpl for WorldBlocks {
    open spec fn obeys_eq_spec() -> bool {
        true
    }

    open spec fn eq_spec(&self, other: &Self) -> bool {
        self@.same(other@)
    }
}

impl Eq for WorldBlocks {

}


impl WorldBlocks {
    /// Deals `nb_blocks` blocks out in turn to `nb_stacks` stacks.
    pub fn initial(nb_blocks: usize, nb_stacks: usize) -> (r: Self)
        requires
            nb_blocks == 0 || nb_stacks > 0,
        ensures
            r@.dealt(nb_blocks as nat, nb_stacks as nat),
            r@.wf(),
    {
        let mut top: Vec<Option<Block>> = Vec::new();
        let mut s: usize = 0;
        while s < nb_stacks
            invariant
                s <= nb_stacks,
                top.len() == s,
                forall|t: int| 0 <= t < s ==> top@[t] is None,
            decreases nb_stacks - s,
        {
            top.push(None);
            s += 1;
        }
        let mut stack: Vec<Stack> = Vec::new();
        let mut under: Vec<Option<Block>> = Vec::new();
        let mut block: usize = 0;
        while block < nb_blocks
            invariant
                block <= nb_blocks,
                nb_blocks == 0 || nb_stacks > 0,
                stack.len() == block,
                under.len() == block,
                top.len() == nb_stacks,
                forall|b: int| 0 <= b < block ==> #[trigger] stack@[b] == b % (nb_stacks as int),
                forall|b: int|
                    0 <= b < block ==> #[trigger] under@[b] == if b >= nb_stacks {
                        Some((b - nb_stacks) as usize)
                    } else {
                        None
                    },
                forall|t: int|
                    0 <= t < nb_stacks ==> match #[trigger] top@[t] {
                        Some(b) => b < block && (b as int) % (nb_stacks as int) == t && b
                            + nb_stacks >= block,
                        None => t >= block,
                    },
            decreases nb_blocks - block,
        {
            let s = block % nb_stacks;
            let ghost old_top = top@;
            proof {
                lemma_mod_pos_bound(block as int, nb_stacks as int);
                match top@[s as int] {
                    Some(b) => {
                        lemma_congruent_within_one_turn(block as int, b as int, nb_stacks as int);
                    },
                    None => {},
                }
            }
            stack.push(s);
            under.push(top[s]);
            top[s] = Some(block);
            proof {
                assert forall|t: int| 0 <= t < nb_stacks implies match #[trigger] top@[t] {
                    Some(b) => b < block + 1 && (b as int) % (nb_stacks as int) == t && b
                        + nb_stacks >= block + 1,
                    None => t >= block + 1,
                } by {
                    if t != s {
                        match old_top[t] {
                            Some(b) => {
                                if b + nb_stacks == block {
                                    lemma_mod_add_multiples_vanish(b as int, nb_stacks as int);
                                }
                            },
                            None => {
                                if t == block {
                                    lemma_small_mod(block as nat, nb_stacks as nat);
                                }
                            },
                        }
                    }
                }
            }
            block += 1;
        }
        let r = WorldBlocks { stack, next: under, top };
        proof {
            lemma_dealt_is_wf(r@, nb_blocks as nat, nb_stacks as nat);
        }
        r
    }

    /// How many blocks the world holds.
    pub fn nb_blocks(&self) -> (r: usize)
        ensures
            r == self@.next.len(),
    {
        self.next.len()
    }

    /// How many stacks the world has.
    pub fn nb_stacks(&self) -> (r: usize)
        ensures
            r == self@.top.len(),
    {
        self.top.len()
    }

    /// The numbers of the stacks.
    pub fn stacks(&self) -> (r: Stacks)
        ensures
            r.start == 0,
            r.end == self@.top.len(),
    {
        Range { start: 0, end: self.nb_stacks() }
    }

    /// Whether `stack` holds a block.
    pub fn is_not_empty_stack(&self, stack: Stack) -> (r: bool)
        requires
            stack < self@.top.len(),
        ensures
            r == self@.top[stack as int] is Some,
    {
        self.top[stack].is_some()
    }

    /// Whether `stack` holds no block.
    pub fn is_empty_stack(&self, stack: Stack) -> (r: bool)
        requires
            stack < self@.top.len(),
        ensures
            r == self@.top[stack as int] is None,
    {
        self.top[stack].is_none()
    }

    /// The numbers of the blocks.
    pub fn blocks(&self) -> (r: Blocks)
        ensures
            r.start == 0,
            r.end == self@.next.len(),
    {
        Range { start: 0, end: self.nb_blocks() }
    }

    /// The blocks of `stack` from the bottom up, as they are shown.
    pub fn tower(&self, stack: Stack) -> (r: Vec<Block>)
        requires
            self@.wf(),
            stack < self@.top.len(),
        ensures
            r@ == self@.pile(stack as int).reverse(),
    {
        let ghost w = self@;
        let ghost heights = w.heights();
        let mut down: Vec<Block> = Vec::new();
        let mut next = self.top[stack];
        proof {
            assert(w.ranked_by(heights));
            assert(w.pile(stack as int) =~= down@ + match next {
                Some(c) => seq![c] + w.under(c as int),
                None => seq![],
            });
        }
        while next.is_some()
            invariant
                w == self@,
                w.wf(),
                heights == w.heights(),
                w.ranked_by(heights),
                next matches Some(c) ==> c < w.next.len(),
                w.pile(stack as int) == down@ + match next {
                    Some(c) => seq![c] + w.under(c as int),
                    None => seq![],
                },
            decreases
                    match next {
                        Some(c) => heights[c as int] + 1,
                        None => 0,
                    },
        {
            let block = next.unwrap();
            let ghost before = down@;
            down.push(block);
            next = self.next[block];
            proof {
                assert(w.pile(stack as int) =~= down@ + match next {
                    Some(c) => seq![c] + w.under(c as int),
                    None => seq![],
                });
            }
        }
        proof {
            assert(w.pile(stack as int) =~= down@);
        }
        let mut up: Vec<Block> = Vec::new();
        let mut i: usize = down.len();
        while i > 0
            invariant
                i <= down.len(),
                up.len() == down.len() - i,
                forall|j: int| 0 <= j < up.len() ==> up@[j] == down@[down.len() - 1 - j],
            decreases i,
        {
            i -= 1;
            up.push(down[i]);
        }
        proof {
            assert(up@ =~= down@.reverse());
        }
        up
    }
}

impl NonUniformProblem<Move, NbMoves> for WorldBlocks {
    open spec fn valid(v: World) -> bool {
        v.wf()
    }

    open spec fn same(v: World, w: World) -> bool {
        v.same(w)
    }

    open spec fn enabled(v: World, action: Move) -> bool {
        v.enables(action)
    }

    open spec fn after(v: World, action: Move) -> World {
        v.moved(action)
    }

    open spec fn undoable(v: World, action: Move) -> bool {
        v.enables(action.reversed())
    }

    open spec fn undone(v: World, action: Move) -> World {
        v.moved(action.reversed())
    }

    open spec fn offers(v: World) -> Seq<WeightedAction<Move, NbMoves>> {
        v.moves()
    }

    fn apply(&mut self, action: &Move) -> (r: Result<(), SearchError>) {
        if action.from >= self.top.len() || action.to >= self.top.len() {
            return Err(SearchError::IllegalMove);
        }
        match self.top[action.from] {
            Some(moved_block) => {
                proof {
                    lemma_moved_is_wf(self@, *action);
                }
                // The new top of the stack `from` is the block under the moved one.
                let new_top = self.next[moved_block];
                self.top[action.from] = new_top;
                // The moved block goes on what was the top of the stack `to`.
                let under = self.top[action.to];
                self.next[moved_block] = under;
                self.top[action.to] = Some(moved_block);
                self.stack[moved_block] = action.to;
                proof {
                    let target = old(self)@.moved(*action);
                    assert(self@.stack =~= target.stack);
                    assert(self@.next =~= target.next);
                    assert(self@.top =~= target.top);
                }
                Ok(())
            },
            None => Err(SearchError::IllegalMove),
        }
    }

    fn restore(&mut self, action: &Move) -> (r: Result<(), SearchError>) {
        let reverse = Move { from: action.to, to: action.from };
        self.apply(&reverse)
    }

    fn weighted_actions(&self) -> (r: Vec<WeightedAction<Move, NbMoves>>) {
        let mut actions: Vec<WeightedAction<Move, NbMoves>> = Vec::new();
        let nb_stacks = self.top.len();
        let mut lhs: usize = 0;
        while lhs < nb_stacks
            invariant
                lhs <= nb_stacks,
                nb_stacks == self@.top.len(),
                actions@ == self@.rows(lhs as int),
            decreases nb_stacks - lhs,
        {
            let mut rhs: usize = lhs + 1;
            while rhs < nb_stacks
                invariant
                    lhs < rhs <= nb_stacks,
                    nb_stacks == self@.top.len(),
                    actions@ == self@.rows(lhs as int) + self@.row(lhs as int, rhs as int),
                decreases nb_stacks - rhs,
            {
                let ghost before = actions@;
                if !self.is_empty_stack(lhs) {
                    actions.push(WeightedAction::new(Move { from: lhs, to: rhs }, NbMoves(1)));
                }
                if !self.is_empty_stack(rhs) {
                    actions.push(WeightedAction::new(Move { from: rhs, to: lhs }, NbMoves(1)));
                }
                assert(actions@ =~= before + self@.between(lhs as int, rhs as int));
                rhs += 1;
                assert(actions@ =~= self@.rows(lhs as int) + self@.row(lhs as int, rhs as int));
            }
            lhs += 1;
        }
        actions
    }

    proof fn lemma_after_is_valid(v: World, action: Move) {
        lemma_moved_is_wf(v, action);
    }

    proof fn lemma_offers_are_enabled(v: World, i: int) {
        lemma_moves_are_the_enabled_moves(v, v.moves()[i]);
    }

    proof fn lemma_restore_undoes_apply(v: World, action: Move) {
        lemma_moved_back(v, action);
    }
}

/// Two numbers that leave the same remainder and lie at most one turn
/// apart lie exactly one turn apart.
proof fn lemma_congruent_within_one_turn(x: int, y: int, k: int)
    requires
        k > 0,
        0 <= y < x <= y + k,
        x % k == y % k,
    ensures
        x == y + k,
{
    lemma_fundamental_div_mod(x, k);
    lemma_fundamental_div_mod(y, k);
    let q = x / k - y / k;
    assert(x - y == k * q) by (nonlinear_arith)
        requires
            x == k * (x / k) + (x % k),
            y == k * (y / k) + (y % k),
            x % k == y % k,
            q == x / k - y / k,
    ;
    assert(q == 1) by (nonlinear_arith)
        requires
            k > 0,
            0 < k * q <= k,
    ;
}

/// In a world dealt out in turn, a block and the one below it are on the
/// same stack.
proof fn lemma_dealt_links(w: World, nb_blocks: nat, nb_stacks: nat, a: int)
    requires
        w.dealt(nb_blocks, nb_stacks),
        nb_stacks > 0,
        nb_blocks <= usize::MAX,
        0 <= a < nb_blocks,
    ensures
        match w.next[a] {
            Some(c) => c < w.next.len() && w.stack[c as int] == w.stack[a],
            None => true,
        },
{
    let k = nb_stacks as int;
    if a >= k {
        lemma_mod_add_multiples_vanish(a - k, k);
        assert(k + (a - k) == a);
        assert(w.stack[a - k] == (a - k) % k);
        assert(w.stack[a] == a % k);
    }
}

/// In a world dealt out in turn, every block is the top of its stack or
/// has a block right on it.
proof fn lemma_dealt_covers(w: World, nb_blocks: nat, nb_stacks: nat, c: int)
    requires
        w.dealt(nb_blocks, nb_stacks),
        nb_stacks > 0,
        nb_blocks <= usize::MAX,
        0 <= c < nb_blocks,
    ensures
        is_block(w.top[w.stack[c] as int], c) || w.carried(c),
{
    let n = nb_blocks as int;
    let k = nb_stacks as int;
    reveal(World::carried);
    lemma_mod_pos_bound(c, k);
    if c + k < n {
        assert(is_block(w.next[c + k], c));
    } else {
        let s = c % k;
        assert(w.stack[c] == s);
        lemma_fundamental_div_mod(c, k);
        assert(s <= c) by (nonlinear_arith)
            requires
                c == k * (c / k) + s,
                0 <= s < k,
                0 <= c,
        ;
        match w.top[s] {
            Some(b) => {
                if (b as int) < c {
                    lemma_congruent_within_one_turn(c, b as int, k);
                } else if (b as int) > c {
                    lemma_congruent_within_one_turn(b as int, c, k);
                }
            },
            None => {},
        }
    }
}

/// Blocks dealt out in turn form a world in which every invariant holds.
pub proof fn lemma_dealt_is_wf(w: World, nb_blocks: nat, nb_stacks: nat)
    requires
        w.dealt(nb_blocks, nb_stacks),
        nb_blocks == 0 || nb_stacks > 0,
        nb_blocks <= usize::MAX,
        nb_stacks <= usize::MAX,
    ensures
        w.wf(),
{
    let k = nb_stacks as int;
    assert forall|b: int| 0 <= b < w.stack.len() implies #[trigger] w.stack[b] < w.top.len() by {
        lemma_mod_pos_bound(b, k);
    }
    assert forall|a: int| 0 <= a < w.next.len() implies match #[trigger] w.next[a] {
        Some(c) => c < w.next.len() && w.stack[c as int] == w.stack[a],
        None => true,
    } by {
        lemma_dealt_links(w, nb_blocks, nb_stacks, a);
    }
    assert forall|c: int| 0 <= c < w.stack.len() implies is_block(
        w.top[(#[trigger] w.stack[c]) as int],
        c,
    ) || w.carried(c) by {
        lemma_dealt_covers(w, nb_blocks, nb_stacks, c);
    }
    let height = Seq::new(nb_blocks, |b: int| b as nat);
    assert(w.ranked_by(height));
}

/// Moving the top block of a stack keeps every invariant of the world.
pub proof fn lemma_moved_is_wf(v: World, m: Move)
    requires
        v.wf(),
        v.enables(m),
    ensures
        v.moved(m).wf(),
{
    let w = v.moved(m);
    let f = m.from as int;
    let t = m.to as int;
    let x = v.top[f]->0;
    let d = v.next[x as int];
    let tt = v.top[t];
    let height = choose|height: Seq<nat>| v.ranked_by(height);
    assert(d != Some(x));
    if f == t {
        assert(w.stack =~= v.stack);
        assert(w.next =~= v.next);
        assert(w.top =~= v.top);
        assert(w == v);
    } else {
        assert(w.top[t] == Some(x));
        assert(w.top[f] == d);
        assert(w.next[x as int] == tt);
        assert forall|s: int| 0 <= s < w.top.len() implies match #[trigger] w.top[s] {
            Some(b) => b < w.next.len() && w.stack[b as int] == s,
            None => true,
        } by {
            if s == f {
            } else if s == t {
            } else {
                assert(w.top[s] == v.top[s]);
            }
        }
        assert forall|a: int| 0 <= a < w.next.len() implies match #[trigger] w.next[a] {
            Some(c) => c < w.next.len() && w.stack[c as int] == w.stack[a],
            None => true,
        } by {
            if a != x {
                assert(w.next[a] == v.next[a]);
                assert(v.next[a] is Some ==> v.next[a] != v.top[f]);
            }
        }
        assert forall|a: int, s: int|
            0 <= a < w.next.len() && 0 <= s < w.top.len() && (#[trigger] w.next[a])
                is Some implies w.next[a] != #[trigger] w.top[s] by {
            if a == x {
                if s != t && s != f {
                    assert(w.top[s] == v.top[s]);
                }
            } else {
                assert(w.next[a] == v.next[a]);
                if s == t {
                    assert(v.next[a] != v.top[f]);
                } else if s == f {
                    assert(v.next[a] != v.next[x as int]);
                } else {
                    assert(w.top[s] == v.top[s]);
                }
            }
        }
        assert forall|a: int, b: int|
            0 <= a < w.next.len() && 0 <= b < w.next.len() && a != b && (#[trigger] w.next[a])
                is Some implies w.next[a] != #[trigger] w.next[b] by {
            if a == x {
                assert(w.next[b] == v.next[b]);
                assert(v.next[b] is Some ==> v.next[b] != v.top[t]);
            } else if b == x {
                assert(w.next[a] == v.next[a]);
                assert(v.next[a] != v.top[t]);
            } else {
                assert(w.next[a] == v.next[a]);
                assert(w.next[b] == v.next[b]);
            }
        }
        assert forall|c: int| 0 <= c < w.stack.len() implies is_block(
            w.top[(#[trigger] w.stack[c]) as int],
            c,
        ) || w.carried(c) by {
            reveal(World::carried);
            if c == x {
            } else {
                assert(w.stack[c] == v.stack[c]);
                let s = v.stack[c] as int;
                if is_block(v.top[s], c) {
                    if s == t {
                        assert(is_block(w.next[x as int], c));
                    } else {
                        assert(w.top[s] == v.top[s]);
                    }
                } else {
                    assert(v.carried(c));
                    let a = choose|a: int|
                        0 <= a < v.next.len() && is_block(#[trigger] v.next[a], c);
                    if a == x {
                        assert(s == f);
                    } else {
                        assert(is_block(w.next[a], c));
                    }
                }
            }
        }
        let lifted = match tt {
            Some(c) => height[c as int] + 1,
            None => 0,
        };
        let raised = height.update(x as int, lifted as nat);
        assert forall|a: int| 0 <= a < w.next.len() implies match #[trigger] w.next[a] {
            Some(c) => c < w.next.len() && raised[c as int] < raised[a],
            None => true,
        } by {
            if a != x {
                assert(w.next[a] == v.next[a]);
                assert(v.next[a] is Some ==> v.next[a] != v.top[f]);
            }
        }
        assert(w.ranked_by(raised));
    }
}

/// The tops follow from the rest: two worlds with as many stacks that the
/// search takes for the same are the same.
pub proof fn lemma_same_worlds_are_equal(v: World, w: World)
    requires
        v.wf(),
        w.wf(),
        v.same(w),
        v.top.len() == w.top.len(),
    ensures
        v == w,
{
    assert forall|s: int| 0 <= s < v.top.len() implies v.top[s] == w.top[s] by {
        lemma_top_follows(v, w, s);
        lemma_top_follows(w, v, s);
    }
    assert(v.top =~= w.top);
}

/// The block on top of a stack in one world is on top of it in a world
/// that the search takes for the same.
proof fn lemma_top_follows(v: World, w: World, s: int)
    requires
        v.wf(),
        w.wf(),
        v.same(w),
        v.top.len() == w.top.len(),
        0 <= s < v.top.len(),
    ensures
        v.top[s] is Some ==> w.top[s] == v.top[s],
{
    reveal(World::carried);
    match v.top[s] {
        Some(b) => {
            assert(w.stack[b as int] == s);
            if w.carried(b as int) {
                let a = choose|a: int|
                    0 <= a < w.next.len() && is_block(#[trigger] w.next[a], b as int);
                assert(v.next[a] == Some(b));
                assert(v.next[a] != v.top[s]);
            }
        },
        None => {},
    }
}

/// Moving a block and then moving it back gives the world from before,
/// tops included.
pub proof fn lemma_moved_back(v: World, m: Move)
    requires
        v.wf(),
        v.enables(m),
    ensures
        v.moved(m).enables(m.reversed()),
        v.moved(m).moved(m.reversed()) == v,
{
    let w = v.moved(m);
    let u = w.moved(m.reversed());
    assert(u.stack =~= v.stack);
    assert(u.next =~= v.next);
    assert(u.top =~= v.top);
}

/// Restoring a move right after applying it gives a world that the search
/// takes for the one from before.
pub proof fn lemma_restore_after_apply_is_same(v: World, m: Move)
    requires
        v.wf(),
        v.enables(m),
    ensures
        v.moved(m).enables(m.reversed()),
        v.moved(m).moved(m.reversed()).same(v),
{
    lemma_moved_back(v, m);
}

/// What makes a weighted move one of the moves on offer.
pub open spec fn is_offer(v: World, wa: WeightedAction<Move, NbMoves>) -> bool {
    &&& v.enables(wa.action)
    &&& wa.action.from != wa.action.to
    &&& wa.cost == one_move()
}

proof fn lemma_row_is_sound(v: World, lhs: int, upto: int, wa: WeightedAction<Move, NbMoves>)
    requires
        0 <= lhs < v.top.len(),
        upto <= v.top.len() <= usize::MAX,
        v.row(lhs, upto).contains(wa),
    ensures
        is_offer(v, wa),
    decreases upto - lhs,
{
    let i = choose|i: int| 0 <= i < v.row(lhs, upto).len() && v.row(lhs, upto)[i] == wa;
    if upto > lhs + 1 {
        let head = v.row(lhs, upto - 1);
        if i < head.len() {
            assert(head[i] == wa);
            lemma_row_is_sound(v, lhs, upto - 1, wa);
        } else {
            let pair = v.between(lhs, upto - 1);
            assert(pair[i - head.len()] == wa);
            if v.top[lhs] is Some && i - head.len() == 0 {
                assert(wa == unit_move(lhs, upto - 1));
            } else {
                assert(wa == unit_move(upto - 1, lhs));
            }
        }
    }
}

proof fn lemma_rows_are_sound(v: World, upto: int, wa: WeightedAction<Move, NbMoves>)
    requires
        upto <= v.top.len() <= usize::MAX,
        v.rows(upto).contains(wa),
    ensures
        is_offer(v, wa),
    decreases upto,
{
    let i = choose|i: int| 0 <= i < v.rows(upto).len() && v.rows(upto)[i] == wa;
    if upto > 0 {
        let head = v.rows(upto - 1);
        if i < head.len() {
            assert(head[i] == wa);
            lemma_rows_are_sound(v, upto - 1, wa);
        } else {
            let tail = v.row(upto - 1, v.top.len() as int);
            assert(tail[i - head.len()] == wa);
            lemma_row_is_sound(v, upto - 1, v.top.len() as int, wa);
        }
    }
}

proof fn lemma_row_is_complete(v: World, lhs: int, rhs: int, upto: int, i: int)
    requires
        0 <= lhs < rhs < upto,
        0 <= i < v.between(lhs, rhs).len(),
    ensures
        v.row(lhs, upto).contains(v.between(lhs, rhs)[i]),
    decreases upto,
{
    let head = v.row(lhs, upto - 1);
    if rhs == upto - 1 {
        assert(v.row(lhs, upto)[head.len() + i] == v.between(lhs, rhs)[i]);
    } else {
        lemma_row_is_complete(v, lhs, rhs, upto - 1, i);
        let j = choose|j: int| 0 <= j < head.len() && head[j] == v.between(lhs, rhs)[i];
        assert(v.row(lhs, upto)[j] == v.between(lhs, rhs)[i]);
    }
}

proof fn lemma_rows_are_complete(v: World, lhs: int, upto: int, wa: WeightedAction<Move, NbMoves>)
    requires
        0 <= lhs < upto,
        v.row(lhs, v.top.len() as int).contains(wa),
    ensures
        v.rows(upto).contains(wa),
    decreases upto,
{
    let head = v.rows(upto - 1);
    let tail = v.row(upto - 1, v.top.len() as int);
    if lhs == upto - 1 {
        let j = choose|j: int| 0 <= j < tail.len() && tail[j] == wa;
        assert(v.rows(upto)[head.len() + j] == wa);
    } else {
        lemma_rows_are_complete(v, lhs, upto - 1, wa);
        let j = choose|j: int| 0 <= j < head.len() && head[j] == wa;
        assert(v.rows(upto)[j] == wa);
    }
}

/// The moves on offer are the moves between two distinct stacks that do
/// not start from an empty one, each at the cost of one move.
pub proof fn lemma_moves_are_the_enabled_moves(v: World, wa: WeightedAction<Move, NbMoves>)
    requires
        v.top.len() <= usize::MAX,
    ensures
        v.moves().contains(wa) == is_offer(v, wa),
{
    let k = v.top.len() as int;
    if v.moves().contains(wa) {
        lemma_rows_are_sound(v, k, wa);
    }
    if is_offer(v, wa) {
        let from = wa.action.from as int;
        let to = wa.action.to as int;
        if from < to {
            assert(v.between(from, to)[0] == wa);
            lemma_row_is_complete(v, from, to, k, 0);
            lemma_rows_are_complete(v, from, k, wa);
        } else {
            let at = (v.between(to, from).len() - 1) as int;
            assert(v.between(to, from)[at] == wa);
            lemma_row_is_complete(v, to, from, k, at);
            lemma_rows_are_complete(v, to, k, wa);
        }
    }
}

} // verus!
