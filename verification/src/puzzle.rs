//! The puzzle that the search is run on: pile all blocks on the last
//! stack, block 0 on top and each block on the next one.

use crate::algorithms::ida_star::{
    agrees, concluded, decided, ida_star, lemma_concluded_is_decided, suits, views,
};
use crate::algorithms::routes::{
    admissible, arrival, destination, faithful, lemma_arrival_keeps_trail, reachable, root,
    total, walks,
};
use crate::algorithms::{
    NonUniformProblem, ScalarCost, SearchError, WeightedAction,
};
use crate::world_blocks::{
    Block, is_block, lemma_moved_is_wf, lemma_moves_are_the_enabled_moves, lemma_one_move_is_one,
    lemma_same_worlds_are_equal, Move, NbMoves, World, WorldBlocks,
};
use vstd::prelude::*;

verus! {

/// What lies right under block `c` once the puzzle is solved: the next
/// block, or nothing under the last one.
pub open spec fn goal_support(w: World, c: int) -> Option<Block> {
    if c + 1 < w.next.len() {
        Some((c + 1) as usize)
    } else {
        None
    }
}

/// All blocks are on the last stack, block 0 on top and each block on the
/// next one. A world without blocks is solved.
pub open spec fn piled(w: World) -> bool {
    &&& forall|s: int| 0 <= s < w.top.len() - 1 ==> (#[trigger] w.top[s]) is None
    &&& w.next.len() > 0 ==> w.top.len() > 0 && w.top[w.top.len() - 1] == Some(0usize)
    &&& forall|b: int| 0 <= b < w.next.len() ==> #[trigger] w.stack[b] == w.top.len() - 1
    &&& forall|b: int| 0 <= b < w.next.len() ==> #[trigger] w.next[b] == goal_support(w, b)
}

/// From block `b` down, every block lies on what it lies on once the
/// puzzle is solved.
pub open spec fn settled_from(w: World, b: int) -> bool {
    forall|c: int| b <= c < w.next.len() ==> #[trigger] w.next[c] == goal_support(w, c)
}

/// Some block under block `b` has a greater number.
pub open spec fn buried(w: World, b: int) -> bool {
    exists|i: int| 0 <= i < w.under(b).len() && #[trigger] w.under(b)[i] > b
}

/// One for a block that is not on the last stack.
pub open spec fn h1_score(w: World, b: int) -> nat {
    if w.stack[b] != w.top.len() - 1 {
        1
    } else {
        0
    }
}

/// One for a block that is not on the last stack, and two for one that is
/// there but not where it belongs.
pub open spec fn h2_score(w: World, b: int) -> nat {
    if w.stack[b] != w.top.len() - 1 {
        1
    } else if settled_from(w, b) {
        0
    } else {
        2
    }
}

/// What `h2_score` gives, and one more for a block that is not on the last
/// stack and lies over a block with a greater number.
pub open spec fn h4_score(w: World, b: int) -> nat {
    if w.stack[b] != w.top.len() - 1 {
        if buried(w, b) {
            2
        } else {
            1
        }
    } else if settled_from(w, b) {
        0
    } else {
        2
    }
}

/// `h1_score` as a function.
pub open spec fn h1_scores() -> spec_fn(World, int) -> nat {
    |w: World, b: int| h1_score(w, b)
}

/// `h2_score` as a function.
pub open spec fn h2_scores() -> spec_fn(World, int) -> nat {
    |w: World, b: int| h2_score(w, b)
}

/// `h4_score` as a function.
pub open spec fn h4_scores() -> spec_fn(World, int) -> nat {
    |w: World, b: int| h4_score(w, b)
}

/// What `h1` estimates for a world.
pub open spec fn h1_estimate() -> spec_fn(World) -> nat {
    |w: World| tally(w, h1_scores(), w.next.len() as int)
}

/// What `h2` estimates for a world.
pub open spec fn h2_estimate() -> spec_fn(World) -> nat {
    |w: World| tally(w, h2_scores(), w.next.len() as int)
}

/// What `h4` estimates for a world.
pub open spec fn h4_estimate() -> spec_fn(World) -> nat {
    |w: World| tally(w, h4_scores(), w.next.len() as int)
}

/// What `is_goal` says of a world.
pub open spec fn piled_goal() -> spec_fn(World) -> bool {
    |w: World| piled(w)
}

/// The scores of the blocks before `upto`, added up.
pub open spec fn tally(w: World, score: spec_fn(World, int) -> nat, upto: int) -> nat
    decreases upto,
{
    if upto <= 0 {
        0
    } else {
        tally(w, score, upto - 1) + score(w, upto - 1)
    }
}

/// The estimate that is always zero.
pub fn h0(_current_state: &WorldBlocks) -> (r: NbMoves)
    ensures
        r.value() == 0,
{
    NbMoves::new(0)
}

/// The number of blocks that are not on the last stack.
pub fn h1(current_state: &WorldBlocks) -> (r: NbMoves)
    requires
        current_state@.wf(),
        current_state@.next.len() <= u32::MAX,
    ensures
        r.value() == tally(current_state@, h1_scores(), current_state@.next.len() as int),
{
    let mut score: u32 = 0;
    let nb_blocks = current_state.nb_blocks();
    let mut block: usize = 0;
    while block < nb_blocks
        invariant
            block <= nb_blocks,
            nb_blocks == current_state@.next.len(),
            current_state@.wf(),
            nb_blocks <= u32::MAX,
            score == tally(current_state@, h1_scores(), block as int),
            score <= block,
        decreases nb_blocks - block,
    {
        if current_state.stack[block] != current_state.nb_stacks() - 1 {
            score += 1;
        }
        block += 1;
    }
    NbMoves::new(score)
}

/// Whether `slot` holds block `block`.
fn holds(slot: Option<Block>, block: Block) -> (r: bool)
    ensures
        r == (slot == Some(block)),
{
    match slot {
        Some(b) => b == block,
        None => false,
    }
}

/// Whether `slot` holds a block with a number less than `block`.
fn holds_less(slot: Option<Block>, block: Block) -> (r: bool)
    ensures
        r == (slot matches Some(b) && b < block),
{
    match slot {
        Some(b) => b < block,
        None => false,
    }
}

/// Whether the blocks from `block` down lie as they do once the puzzle is
/// solved.
fn is_settled_from(current_state: &WorldBlocks, block: Block) -> (r: bool)
    requires
        current_state@.wf(),
        block < current_state@.next.len(),
    ensures
        r == settled_from(current_state@, block as int),
{
    let nb_blocks = current_state.nb_blocks();
    let mut low = block;
    while holds(current_state.next[low], low + 1)
        invariant
            block <= low < nb_blocks,
            nb_blocks == current_state@.next.len(),
            current_state@.wf(),
            forall|c: int|
                block <= c < low ==> #[trigger] current_state@.next[c] == goal_support(
                    current_state@,
                    c,
                ),
        decreases nb_blocks - low,
    {
        low = low + 1;
    }
    let r = current_state.next[low].is_none() && low == nb_blocks - 1;
    proof {
        if !r {
            assert(current_state@.next[low as int] != goal_support(current_state@, low as int));
        }
    }
    r
}

/// Whether a block with a greater number lies under `block`.
fn is_buried(current_state: &WorldBlocks, block: Block) -> (r: bool)
    requires
        current_state@.wf(),
        block < current_state@.next.len(),
    ensures
        r == buried(current_state@, block as int),
{
    let ghost w = current_state@;
    let ghost heights = w.heights();
    let ghost mut passed: Seq<Block> = Seq::empty();
    let mut next = current_state.next[block];
    proof {
        assert(w.ranked_by(heights));
        assert(w.under(block as int) =~= passed + match next {
            Some(c) => seq![c] + w.under(c as int),
            None => seq![],
        });
    }
    while holds_less(next, block)
        invariant
            w == current_state@,
            w.wf(),
            heights == w.heights(),
            w.ranked_by(heights),
            block < w.next.len(),
            next matches Some(c) ==> c < w.next.len() && heights[c as int] < heights[block as int],
            forall|i: int| 0 <= i < passed.len() ==> passed[i] < block,
            w.under(block as int) == passed + match next {
                Some(c) => seq![c] + w.under(c as int),
                None => seq![],
            },
        decreases
                match next {
                    Some(c) => heights[c as int] + 1,
                    None => 0,
                },
    {
        let below = next.unwrap();
        proof {
            passed = passed.push(below);
        }
        next = current_state.next[below];
        proof {
            assert(w.under(block as int) =~= passed + match next {
                Some(c) => seq![c] + w.under(c as int),
                None => seq![],
            });
        }
    }
    proof {
        match next {
            Some(c) => {
                assert(w.under(block as int)[passed.len() as int] == c);
            },
            None => {
                assert(w.under(block as int) =~= passed);
            },
        }
    }
    next.is_some()
}

/// One for each block that is not on the last stack, and two for each
/// that is there but not where it belongs.
pub fn h2(current_state: &WorldBlocks) -> (r: NbMoves)
    requires
        current_state@.wf(),
        2 * current_state@.next.len() <= u32::MAX,
    ensures
        r.value() == tally(current_state@, h2_scores(), current_state@.next.len() as int),
{
    let mut score: u32 = 0;
    let nb_blocks = current_state.nb_blocks();
    let mut block: usize = 0;
    while block < nb_blocks
        invariant
            block <= nb_blocks,
            nb_blocks == current_state@.next.len(),
            current_state@.wf(),
            2 * nb_blocks <= u32::MAX,
            score == tally(current_state@, h2_scores(), block as int),
            score <= 2 * block,
        decreases nb_blocks - block,
    {
        if current_state.stack[block] != current_state.nb_stacks() - 1 {
            score += 1;
        } else if !is_settled_from(current_state, block) {
            score += 2;
        }
        block += 1;
    }
    NbMoves::new(score)
}

/// What `h2` gives, and one more for each block that is not on the last
/// stack and lies over a block with a greater number.
pub fn h4(current_state: &WorldBlocks) -> (r: NbMoves)
    requires
        current_state@.wf(),
        2 * current_state@.next.len() <= u32::MAX,
    ensures
        r.value() == tally(current_state@, h4_scores(), current_state@.next.len() as int),
{
    let mut score: u32 = 0;
    let nb_blocks = current_state.nb_blocks();
    let mut block: usize = 0;
    while block < nb_blocks
        invariant
            block <= nb_blocks,
            nb_blocks == current_state@.next.len(),
            current_state@.wf(),
            2 * nb_blocks <= u32::MAX,
            score == tally(current_state@, h4_scores(), block as int),
            score <= 2 * block,
        decreases nb_blocks - block,
    {
        if current_state.stack[block] != current_state.nb_stacks() - 1 {
            score += 1;
            if is_buried(current_state, block) {
                score += 1;
            }
        } else if !is_settled_from(current_state, block) {
            score += 2;
        }
        block += 1;
    }
    NbMoves::new(score)
}

/// Whether the puzzle is solved.
pub fn is_goal(state: &WorldBlocks) -> (r: bool)
    requires
        state@.wf(),
    ensures
        r == piled(state@),
{
    let nb_blocks = state.nb_blocks();
    if nb_blocks == 0 {
        return true;
    }
    proof {
        assert(state@.stack[0] < state@.top.len());
    }
    let last = state.nb_stacks() - 1;
    let mut stack: usize = 0;
    while stack < last
        invariant
            stack <= last,
            last == state@.top.len() - 1,
            forall|s: int| 0 <= s < stack ==> (#[trigger] state@.top[s]) is None,
        decreases last - stack,
    {
        if state.is_not_empty_stack(stack) {
            return false;
        }
        stack += 1;
    }
    if !holds(state.top[last], 0) {
        return false;
    }
    let mut block: usize = 0;
    while block < nb_blocks - 1
        invariant
            block <= nb_blocks - 1,
            nb_blocks == state@.next.len(),
            nb_blocks == state@.stack.len(),
            last == state@.top.len() - 1,
            forall|b: int| 0 <= b < block ==> #[trigger] state@.stack[b] == last,
            forall|b: int|
                0 <= b < block ==> #[trigger] state@.next[b] == goal_support(state@, b),
        decreases nb_blocks - block,
    {
        if state.stack[block] != last {
            assert(state@.stack[block as int] != last);
            return false;
        }
        if !holds(state.next[block], block + 1) {
            assert(state@.next[block as int] != goal_support(state@, block as int));
            return false;
        }
        block += 1;
    }
    let r = state.next[nb_blocks - 1].is_none();
    proof {
        lemma_piled_by_links(state@);
    }
    r
}

/// In a world whose first stacks are empty, whose last stack has block 0
/// on top, and where each block but the last is on the last stack and on
/// the next block, the puzzle is solved if nothing lies under the last
/// block, and not else.
proof fn lemma_piled_by_links(w: World)
    requires
        w.wf(),
        w.next.len() > 0,
        forall|s: int| 0 <= s < w.top.len() - 1 ==> (#[trigger] w.top[s]) is None,
        w.top[w.top.len() - 1] == Some(0usize),
        forall|b: int| 0 <= b < w.next.len() - 1 ==> #[trigger] w.stack[b] == w.top.len() - 1,
        forall|b: int| 0 <= b < w.next.len() - 1 ==> #[trigger] w.next[b] == goal_support(w, b),
    ensures
        piled(w) == (w.next[w.next.len() - 1] is None),
{
    let n = w.next.len() as int;
    let last = w.top.len() - 1;
    assert(w.stack[0] < w.top.len());
    if n >= 2 {
        assert(w.next[n - 2] == Some((n - 1) as usize));
        assert(w.stack[n - 2] == last);
    } else {
        assert(w.top[last] == Some(0usize));
    }
    assert(w.stack[n - 1] == last);
    if w.next[n - 1] is None {
        assert forall|b: int| 0 <= b < w.next.len() implies #[trigger] w.next[b] == goal_support(
            w,
            b,
        ) by {}
    } else {
        assert(w.stack[n - 1] == last);
        assert(w.next[n - 1] != goal_support(w, n - 1));
    }
}

/// Moves neither add nor remove blocks or stacks.
pub proof fn lemma_walk_keeps_shape(v: World, route: Seq<WeightedAction<Move, NbMoves>>)
    requires
        v.wf(),
        walks::<Move, NbMoves, WorldBlocks>(v, route),
    ensures
        destination::<Move, NbMoves, WorldBlocks>(v, route).wf(),
        destination::<Move, NbMoves, WorldBlocks>(v, route).next.len() == v.next.len(),
        destination::<Move, NbMoves, WorldBlocks>(v, route).top.len() == v.top.len(),
        total(route) == route.len(),
    decreases route.len(),
{
    if route.len() > 0 {
        lemma_moves_are_the_enabled_moves(v, route[0]);
        lemma_one_move_is_one();
        WorldBlocks::lemma_after_is_valid(v, route[0].action);
        lemma_walk_keeps_shape(v.moved(route[0].action), route.drop_first());
    }
}

/// A blocks world suits a search with a goal predicate and a heuristic
/// that can be called on every world with as many blocks.
pub proof fn lemma_blocks_world_suits<P: Fn(&WorldBlocks) -> bool, H: Fn(&WorldBlocks) -> NbMoves>(
    is_goal: P,
    heuristic: H,
    w: World,
)
    requires
        w.wf(),
        forall|s: WorldBlocks|
            s@.wf() && s@.next.len() == w.next.len() ==> #[trigger] is_goal.requires((&s,)),
        forall|s: WorldBlocks|
            s@.wf() && s@.next.len() == w.next.len() ==> #[trigger] heuristic.requires((&s,)),
    ensures
        suits::<Move, NbMoves, WorldBlocks, P, H>(is_goal, heuristic, w),
{
    assert forall|s: WorldBlocks|
        WorldBlocks::valid(s@) && reachable::<Move, NbMoves, WorldBlocks>(
            w,
            s@,
        ) implies #[trigger] is_goal.requires((&s,)) by {
        let route = choose|route: Seq<WeightedAction<Move, NbMoves>>| #[trigger]
            walks::<Move, NbMoves, WorldBlocks>(w, route) && destination::<
                Move,
                NbMoves,
                WorldBlocks,
            >(w, route) == s@;
        lemma_walk_keeps_shape(w, route);
    }
    assert forall|s: WorldBlocks|
        WorldBlocks::valid(s@) && reachable::<Move, NbMoves, WorldBlocks>(
            w,
            s@,
        ) implies #[trigger] heuristic.requires((&s,)) by {
        let route = choose|route: Seq<WeightedAction<Move, NbMoves>>| #[trigger]
            walks::<Move, NbMoves, WorldBlocks>(w, route) && destination::<
                Move,
                NbMoves,
                WorldBlocks,
            >(w, route) == s@;
        lemma_walk_keeps_shape(w, route);
    }
    assert forall|a: WorldBlocks, b: WorldBlocks| #[trigger] cloned(a, b) implies b@ == a@ by {}
}

/// Among the worlds that moves lead to from a valid one, the search takes
/// no two different ones for the same.
pub proof fn lemma_blocks_world_is_faithful(w: World)
    requires
        w.wf(),
    ensures
        faithful::<Move, NbMoves, WorldBlocks>(w),
{
    assert forall|u: World, x: World|
        reachable::<Move, NbMoves, WorldBlocks>(w, u) && reachable::<Move, NbMoves, WorldBlocks>(
            w,
            x,
        ) && #[trigger] WorldBlocks::same(u, x) implies u == x by {
        let to_u = choose|route: Seq<WeightedAction<Move, NbMoves>>| #[trigger]
            walks::<Move, NbMoves, WorldBlocks>(w, route) && destination::<
                Move,
                NbMoves,
                WorldBlocks,
            >(w, route) == u;
        let to_x = choose|route: Seq<WeightedAction<Move, NbMoves>>| #[trigger]
            walks::<Move, NbMoves, WorldBlocks>(w, route) && destination::<
                Move,
                NbMoves,
                WorldBlocks,
            >(w, route) == x;
        lemma_walk_keeps_shape(w, to_u);
        lemma_walk_keeps_shape(w, to_x);
        lemma_same_worlds_are_equal(u, x);
    }
}

/// A move lowers the score of no block but the one that it moves, and of
/// that one by no more than one.
pub open spec fn steady(score: spec_fn(World, int) -> nat) -> bool {
    forall|v: World, m: Move, b: int|
        v.wf() && v.enables(m) && m.from != m.to && 0 <= b < v.next.len() ==> score(v, b) <= (
        #[trigger] score(v.moved(m), b)) + if is_block(v.top[m.from as int], b) {
            1nat
        } else {
            0nat
        }
}

/// In a solved puzzle every block scores zero.
pub open spec fn rests(score: spec_fn(World, int) -> nat) -> bool {
    forall|v: World, b: int|
        v.wf() && piled(v) && 0 <= b < v.next.len() ==> #[trigger] score(v, b) == 0
}

/// A move lowers a tally of steady scores by no more than one.
proof fn lemma_tally_is_steady(score: spec_fn(World, int) -> nat, v: World, m: Move, upto: int)
    requires
        steady(score),
        v.wf(),
        v.enables(m),
        m.from != m.to,
        0 <= upto <= v.next.len(),
    ensures
        tally(v, score, upto) <= tally(v.moved(m), score, upto) + if (v.top[m.from as int]->0)
            < upto {
            1nat
        } else {
            0nat
        },
    decreases upto,
{
    if upto > 0 {
        lemma_tally_is_steady(score, v, m, upto - 1);
        assert(score(v, upto - 1) <= score(v.moved(m), upto - 1) + if is_block(
            v.top[m.from as int],
            upto - 1,
        ) {
            1nat
        } else {
            0nat
        });
    }
}

/// In a solved puzzle a tally of scores that rest is zero.
proof fn lemma_tally_rests(score: spec_fn(World, int) -> nat, v: World, upto: int)
    requires
        rests(score),
        v.wf(),
        piled(v),
        0 <= upto <= v.next.len(),
    ensures
        tally(v, score, upto) == 0,
    decreases upto,
{
    if upto > 0 {
        lemma_tally_rests(score, v, upto - 1);
        assert(score(v, upto - 1) == 0);
    }
}

/// A tally of steady scores that rest is no more than the number of moves
/// that solve the puzzle.
proof fn lemma_tally_within_walk(
    score: spec_fn(World, int) -> nat,
    v: World,
    route: Seq<WeightedAction<Move, NbMoves>>,
)
    requires
        steady(score),
        rests(score),
        v.wf(),
        walks::<Move, NbMoves, WorldBlocks>(v, route),
        piled(destination::<Move, NbMoves, WorldBlocks>(v, route)),
    ensures
        tally(v, score, v.next.len() as int) <= route.len(),
        route.len() == total(route),
    decreases route.len(),
{
    lemma_walk_keeps_shape(v, route);
    if route.len() == 0 {
        lemma_tally_rests(score, v, v.next.len() as int);
    } else {
        let m = route[0].action;
        lemma_moves_are_the_enabled_moves(v, route[0]);
        lemma_moved_is_wf(v, m);
        lemma_tally_within_walk(score, v.moved(m), route.drop_first());
        lemma_tally_is_steady(score, v, m, v.next.len() as int);
    }
}

/// Every block under a block is on the same stack and lies lower.
proof fn lemma_under_is_on_the_stack(v: World, b: int, i: int)
    requires
        v.wf(),
        0 <= b < v.next.len(),
        0 <= i < v.under(b).len(),
    ensures
        v.under(b)[i] < v.next.len(),
        v.stack[v.under(b)[i] as int] == v.stack[b],
        v.under(b)[i] != b,
        v.heights()[v.under(b)[i] as int] < v.heights()[b],
    decreases v.heights()[b],
{
    assert(v.ranked_by(v.heights()));
    match v.next[b] {
        Some(c) => {
            if i > 0 {
                lemma_under_is_on_the_stack(v, c as int, i - 1);
            }
        },
        None => {},
    }
}

/// A move leaves what lies under the blocks that it does not move.
proof fn lemma_under_is_unmoved(v: World, m: Move, b: int)
    requires
        v.wf(),
        v.enables(m),
        m.from != m.to,
        0 <= b < v.next.len(),
        !is_block(v.top[m.from as int], b),
    ensures
        v.moved(m).under(b) == v.under(b),
    decreases v.heights()[b],
{
    assert(v.ranked_by(v.heights()));
    lemma_moved_is_wf(v, m);
    let w = v.moved(m);
    assert(w.next[b] == v.next[b]);
    match v.next[b] {
        Some(c) => {
            assert(v.next[b] != v.top[m.from as int]);
            lemma_under_is_unmoved(v, m, c as int);
        },
        None => {},
    }
}

/// The blocks that are settled from a block down are on its stack.
proof fn lemma_settled_on_one_stack(w: World, b: int, c: int)
    requires
        w.wf(),
        settled_from(w, b),
        0 <= b <= c < w.next.len(),
    ensures
        w.stack[c] == w.stack[b],
    decreases c - b,
{
    if c > b {
        lemma_settled_on_one_stack(w, b, c - 1);
        assert(w.next[c - 1] == goal_support(w, c - 1));
    }
}

/// A move neither settles nor unsettles the blocks that it does not move.
proof fn lemma_settled_is_unmoved(v: World, m: Move, b: int)
    requires
        v.wf(),
        v.enables(m),
        m.from != m.to,
        0 <= b < v.next.len(),
        !is_block(v.top[m.from as int], b),
    ensures
        settled_from(v.moved(m), b) == settled_from(v, b),
{
    let w = v.moved(m);
    let x = v.top[m.from as int]->0 as int;
    if b > x {
        if settled_from(v, b) {
            assert forall|c: int| b <= c < w.next.len() implies #[trigger] w.next[c]
                == goal_support(w, c) by {
                assert(v.next[c] == goal_support(v, c));
            }
        }
        if settled_from(w, b) {
            assert forall|c: int| b <= c < v.next.len() implies #[trigger] v.next[c]
                == goal_support(v, c) by {
                assert(w.next[c] == goal_support(w, c));
            }
        }
    } else {
        assert(v.next[x - 1] != v.top[m.from as int]);
        assert(w.next[x - 1] == v.next[x - 1]);
        if settled_from(v, b) {
            assert(v.next[x - 1] == goal_support(v, x - 1));
        }
        if settled_from(w, b) {
            assert(w.next[x - 1] == goal_support(w, x - 1));
        }
    }
}

/// The scores of `h1` are steady and rest.
pub proof fn lemma_h1_scores_are_steady()
    ensures
        steady(h1_scores()),
        rests(h1_scores()),
{
    assert forall|v: World, m: Move, b: int|
        v.wf() && v.enables(m) && m.from != m.to && 0 <= b < v.next.len() implies h1_scores()(v, b)
        <= (#[trigger] h1_scores()(v.moved(m), b)) + if is_block(v.top[m.from as int], b) {
        1nat
    } else {
        0nat
    } by {}
}

/// The scores of `h2` are steady and rest.
pub proof fn lemma_h2_scores_are_steady()
    ensures
        steady(h2_scores()),
        rests(h2_scores()),
{
    assert forall|v: World, m: Move, b: int|
        v.wf() && v.enables(m) && m.from != m.to && 0 <= b < v.next.len() implies h2_scores()(v, b)
        <= (#[trigger] h2_scores()(v.moved(m), b)) + if is_block(v.top[m.from as int], b) {
        1nat
    } else {
        0nat
    } by {
        if !is_block(v.top[m.from as int], b) {
            lemma_settled_is_unmoved(v, m, b);
        }
    }
}

/// The scores of `h4` are steady and rest.
pub proof fn lemma_h4_scores_are_steady()
    ensures
        steady(h4_scores()),
        rests(h4_scores()),
{
    assert forall|v: World, m: Move, b: int|
        v.wf() && v.enables(m) && m.from != m.to && 0 <= b < v.next.len() implies h4_scores()(v, b)
        <= (#[trigger] h4_scores()(v.moved(m), b)) + if is_block(v.top[m.from as int], b) {
        1nat
    } else {
        0nat
    } by {
        let w = v.moved(m);
        if !is_block(v.top[m.from as int], b) {
            lemma_settled_is_unmoved(v, m, b);
            lemma_under_is_unmoved(v, m, b);
        } else if h4_score(v, b) == 2 && h4_score(w, b) == 0 {
            lemma_moved_is_wf(v, m);
            let i = choose|i: int| 0 <= i < v.under(b).len() && #[trigger] v.under(b)[i] > b;
            let c = v.under(b)[i] as int;
            lemma_under_is_on_the_stack(v, b, i);
            lemma_settled_on_one_stack(w, b, c);
            assert(w.stack[c] == v.stack[c]);
        }
    }
}

/// `h1` never estimates more moves than solve the puzzle.
pub proof fn lemma_h1_is_admissible()
    ensures
        admissible::<Move, NbMoves, WorldBlocks>(h1_estimate(), piled_goal()),
{
    lemma_h1_scores_are_steady();
    assert forall|v: World, route: Seq<WeightedAction<Move, NbMoves>>|
        WorldBlocks::valid(v) && #[trigger] walks::<Move, NbMoves, WorldBlocks>(v, route)
            && piled_goal()(
            destination::<Move, NbMoves, WorldBlocks>(v, route),
        ) implies h1_estimate()(v) <= total(route) by {
        lemma_tally_within_walk(h1_scores(), v, route);
    }
}

/// `h2` never estimates more moves than solve the puzzle.
pub proof fn lemma_h2_is_admissible()
    ensures
        admissible::<Move, NbMoves, WorldBlocks>(h2_estimate(), piled_goal()),
{
    lemma_h2_scores_are_steady();
    assert forall|v: World, route: Seq<WeightedAction<Move, NbMoves>>|
        WorldBlocks::valid(v) && #[trigger] walks::<Move, NbMoves, WorldBlocks>(v, route)
            && piled_goal()(
            destination::<Move, NbMoves, WorldBlocks>(v, route),
        ) implies h2_estimate()(v) <= total(route) by {
        lemma_tally_within_walk(h2_scores(), v, route);
    }
}

/// `h4` never estimates more moves than solve the puzzle.
pub proof fn lemma_h4_is_admissible()
    ensures
        admissible::<Move, NbMoves, WorldBlocks>(h4_estimate(), piled_goal()),
{
    lemma_h4_scores_are_steady();
    assert forall|v: World, route: Seq<WeightedAction<Move, NbMoves>>|
        WorldBlocks::valid(v) && #[trigger] walks::<Move, NbMoves, WorldBlocks>(v, route)
            && piled_goal()(
            destination::<Move, NbMoves, WorldBlocks>(v, route),
        ) implies h4_estimate()(v) <= total(route) by {
        lemma_tally_within_walk(h4_scores(), v, route);
    }
}

/// `moves` of the moves on offer lead from `w` to a solved puzzle.
pub open spec fn solvable_in(w: World, moves: nat) -> bool {
    exists|route: Seq<WeightedAction<Move, NbMoves>>| #[trigger]
        walks::<Move, NbMoves, WorldBlocks>(w, route) && route.len() == moves && piled(
            destination::<Move, NbMoves, WorldBlocks>(w, route),
        )
}

/// What `solve` returns for the world `w`: the fewest moves that solve the
/// puzzle; `None` where no moves solve it; or `CostOverflow`, and then
/// no number of moves that `NbMoves` can hold solves it.
pub open spec fn answered(w: World, r: Result<Option<usize>, SearchError>) -> bool {
    match r {
        Ok(Some(moves)) => {
            &&& solvable_in(w, moves as nat)
            &&& forall|fewer: nat| fewer < moves ==> !#[trigger] solvable_in(w, fewer)
        },
        Ok(None) => forall|moves: nat| !#[trigger] solvable_in(w, moves),
        Err(e) => {
            &&& e == SearchError::CostOverflow
            &&& forall|moves: nat| moves <= NbMoves::limit() ==> !#[trigger] solvable_in(w, moves)
        },
    }
}

/// Deals `nb_blocks` blocks out to `nb_stacks` stacks and searches for the
/// moves that pile them on the last stack, by the estimate `h4` and in the
/// order in which the moves are on offer.
pub fn solve(nb_blocks: usize, nb_stacks: usize) -> (r: Result<Option<usize>, SearchError>)
    requires
        nb_blocks == 0 || nb_stacks > 0,
        2 * nb_blocks <= u32::MAX,
    ensures
        exists|w: World| #[trigger] w.dealt(nb_blocks as nat, nb_stacks as nat) && answered(w, r),
{
    let state = WorldBlocks::initial(nb_blocks, nb_stacks);
    let ghost w = state@;
    let ghost goal = piled_goal();
    let ghost est = h4_estimate();
    proof {
        lemma_blocks_world_suits(is_goal, h4, w);
        assert(agrees::<WorldBlocks, NbMoves, _, _>(is_goal, h4, goal, est));
    }
    let found = ida_star(state, is_goal, h4, false);
    proof {
        assert(concluded::<Move, NbMoves, WorldBlocks>(false, est, goal, root(w), found));
        lemma_blocks_world_is_faithful(w);
        lemma_concluded_is_decided::<Move, NbMoves, WorldBlocks>(false, est, goal, w, found);
        lemma_h4_is_admissible();
        lemma_decided_path_is_not_empty(w, found);
    }
    let r = match found {
        Ok(Some(path)) => Ok(Some(path.len() - 1)),
        Ok(None) => Ok(None),
        Err(e) => Err(e),
    };
    proof {
        lemma_decided_is_answered(w, found, r);
    }
    r
}

/// A path that the search has found holds the world that it started from.
proof fn lemma_decided_path_is_not_empty(
    w: World,
    found: Result<Option<Vec<WorldBlocks>>, SearchError>,
)
    requires
        decided::<Move, NbMoves, WorldBlocks>(h4_estimate(), piled_goal(), w, found),
    ensures
        found matches Ok(Some(path)) ==> path.len() > 0,
{
    match found {
        Ok(Some(path)) => {
            let route = choose|route: Seq<WeightedAction<Move, NbMoves>>|
                {
                    &&& #[trigger] walks::<Move, NbMoves, WorldBlocks>(w, route)
                    &&& arrival::<Move, NbMoves, WorldBlocks>(root(w), route).trail == views(path@)
                };
            lemma_arrival_keeps_trail::<Move, NbMoves, WorldBlocks>(root(w), route, 0);
            assert(views(path@).len() == path.len());
        },
        _ => {},
    }
}

/// What the search has decided of the puzzle is what `solve` answers.
proof fn lemma_decided_is_answered(
    w: World,
    found: Result<Option<Vec<WorldBlocks>>, SearchError>,
    r: Result<Option<usize>, SearchError>,
)
    requires
        w.wf(),
        decided::<Move, NbMoves, WorldBlocks>(h4_estimate(), piled_goal(), w, found),
        admissible::<Move, NbMoves, WorldBlocks>(h4_estimate(), piled_goal()),
        match found {
            Ok(Some(path)) => path.len() > 0 && r == Ok::<Option<usize>, SearchError>(
                Some((path.len() - 1) as usize),
            ),
            Ok(None) => r == Ok::<Option<usize>, SearchError>(None),
            Err(e) => r == Err::<Option<usize>, SearchError>(e),
        },
    ensures
        answered(w, r),
{
    let goal = piled_goal();
    match found {
        Ok(Some(path)) => {
            let route = choose|route: Seq<WeightedAction<Move, NbMoves>>|
                {
                    &&& #[trigger] walks::<Move, NbMoves, WorldBlocks>(w, route)
                    &&& arrival::<Move, NbMoves, WorldBlocks>(root(w), route).trail == views(path@)
                    &&& goal(destination::<Move, NbMoves, WorldBlocks>(w, route))
                    &&& forall|other: Seq<WeightedAction<Move, NbMoves>>| #[trigger]
                        walks::<Move, NbMoves, WorldBlocks>(w, other) && goal(
                            destination::<Move, NbMoves, WorldBlocks>(w, other),
                        ) ==> total(route) <= total(other)
                };
            lemma_arrival_keeps_trail::<Move, NbMoves, WorldBlocks>(root(w), route, 0);
            lemma_walk_keeps_shape(w, route);
            assert(views(path@).len() == path.len());
            assert(solvable_in(w, (path.len() - 1) as nat));
            assert forall|fewer: nat| fewer < path.len() - 1 implies !#[trigger] solvable_in(
                w,
                fewer,
            ) by {
                if solvable_in(w, fewer) {
                    let other = choose|other: Seq<WeightedAction<Move, NbMoves>>| #[trigger]
                        walks::<Move, NbMoves, WorldBlocks>(w, other) && other.len() == fewer
                            && piled(destination::<Move, NbMoves, WorldBlocks>(w, other));
                    lemma_walk_keeps_shape(w, other);
                    assert(goal(destination::<Move, NbMoves, WorldBlocks>(w, other)));
                }
            }
        },
        Ok(None) => {
            assert forall|moves: nat| !#[trigger] solvable_in(w, moves) by {
                if solvable_in(w, moves) {
                    let other = choose|other: Seq<WeightedAction<Move, NbMoves>>| #[trigger]
                        walks::<Move, NbMoves, WorldBlocks>(w, other) && other.len() == moves
                            && piled(destination::<Move, NbMoves, WorldBlocks>(w, other));
                    assert(goal(destination::<Move, NbMoves, WorldBlocks>(w, other)));
                }
            }
        },
        Err(e) => {
            assert forall|moves: nat| moves <= NbMoves::limit() implies !#[trigger] solvable_in(
                w,
                moves,
            ) by {
                if solvable_in(w, moves) {
                    let other = choose|other: Seq<WeightedAction<Move, NbMoves>>| #[trigger]
                        walks::<Move, NbMoves, WorldBlocks>(w, other) && other.len() == moves
                            && piled(destination::<Move, NbMoves, WorldBlocks>(w, other));
                    lemma_walk_keeps_shape(w, other);
                    assert(goal(destination::<Move, NbMoves, WorldBlocks>(w, other)));
                }
            }
        },
    }
}

} // verus!
