use idastar::algorithms::{NonUniformProblem, SearchError};
use idastar::world_blocks::{Move, NbMoves, WorldBlocks};

fn moves_of(world: &WorldBlocks) -> Vec<(usize, usize)> {
    world.weighted_actions().iter().map(|wa| (wa.action.from, wa.action.to)).collect()
}

#[test]
fn initial_deals_blocks_in_turn() {
    let world = WorldBlocks::initial(3, 2);
    assert_eq!(world.stack, vec![0, 1, 0]);
    assert_eq!(world.next, vec![None, None, Some(0)]);
    assert_eq!(world.top, vec![Some(2), Some(1)]);
}

#[test]
fn initial_with_more_stacks_than_blocks() {
    let world = WorldBlocks::initial(2, 4);
    assert_eq!(world.stack, vec![0, 1]);
    assert_eq!(world.next, vec![None, None]);
    assert_eq!(world.top, vec![Some(0), Some(1), None, None]);
}

#[test]
fn initial_piles_later_blocks_on_earlier_ones() {
    let world = WorldBlocks::initial(7, 3);
    assert_eq!(world.stack, vec![0, 1, 2, 0, 1, 2, 0]);
    assert_eq!(world.next, vec![None, None, None, Some(0), Some(1), Some(2), Some(3)]);
    assert_eq!(world.top, vec![Some(6), Some(4), Some(5)]);
}

#[test]
fn initial_without_blocks() {
    let world = WorldBlocks::initial(0, 3);
    assert_eq!(world.nb_blocks(), 0);
    assert_eq!(world.nb_stacks(), 3);
    assert_eq!(world.top, vec![None, None, None]);
    let empty = WorldBlocks::initial(0, 0);
    assert_eq!(empty.nb_blocks(), 0);
    assert_eq!(empty.nb_stacks(), 0);
}

#[test]
fn sizes_and_ranges() {
    let world = WorldBlocks::initial(5, 3);
    assert_eq!(world.nb_blocks(), 5);
    assert_eq!(world.nb_stacks(), 3);
    assert_eq!(world.blocks(), 0..5);
    assert_eq!(world.stacks(), 0..3);
}

#[test]
fn empty_and_occupied_stacks() {
    let world = WorldBlocks::initial(2, 3);
    assert!(world.is_not_empty_stack(0));
    assert!(world.is_not_empty_stack(1));
    assert!(!world.is_not_empty_stack(2));
    assert!(!world.is_empty_stack(0));
    assert!(world.is_empty_stack(2));
}

#[test]
fn towers_are_listed_from_the_bottom() {
    let world = WorldBlocks::initial(7, 3);
    assert_eq!(world.tower(0), vec![0, 3, 6]);
    assert_eq!(world.tower(1), vec![1, 4]);
    assert_eq!(world.tower(2), vec![2, 5]);
    let sparse = WorldBlocks::initial(1, 2);
    assert_eq!(sparse.tower(1), Vec::<usize>::new());
}

#[test]
fn apply_moves_the_top_block() {
    let mut world = WorldBlocks::initial(3, 2);
    assert_eq!(world.apply(&Move { from: 0, to: 1 }), Ok(()));
    assert_eq!(world.stack, vec![0, 1, 1]);
    assert_eq!(world.next, vec![None, None, Some(1)]);
    assert_eq!(world.top, vec![Some(0), Some(2)]);
    assert_eq!(world.tower(0), vec![0]);
    assert_eq!(world.tower(1), vec![1, 2]);
}

#[test]
fn apply_onto_an_empty_stack() {
    let mut world = WorldBlocks::initial(2, 3);
    assert_eq!(world.apply(&Move { from: 1, to: 2 }), Ok(()));
    assert_eq!(world.stack, vec![0, 2]);
    assert_eq!(world.next, vec![None, None]);
    assert_eq!(world.top, vec![Some(0), None, Some(1)]);
}

#[test]
fn apply_from_an_empty_stack_is_illegal() {
    let mut world = WorldBlocks::initial(2, 3);
    let before = world.clone();
    assert_eq!(world.apply(&Move { from: 2, to: 0 }), Err(SearchError::IllegalMove));
    assert_eq!(world.stack, before.stack);
    assert_eq!(world.next, before.next);
    assert_eq!(world.top, before.top);
}

#[test]
fn apply_between_missing_stacks_is_illegal() {
    let mut world = WorldBlocks::initial(2, 2);
    let before = world.clone();
    assert_eq!(world.apply(&Move { from: 0, to: 2 }), Err(SearchError::IllegalMove));
    assert_eq!(world.apply(&Move { from: 5, to: 0 }), Err(SearchError::IllegalMove));
    assert_eq!(world.stack, before.stack);
    assert_eq!(world.next, before.next);
    assert_eq!(world.top, before.top);
}

#[test]
fn restore_of_a_move_that_was_not_made_is_illegal() {
    let mut world = WorldBlocks::initial(1, 2);
    assert_eq!(world.restore(&Move { from: 0, to: 1 }), Err(SearchError::IllegalMove));
    assert_eq!(world.top, vec![Some(0), None]);
}

#[test]
fn restore_undoes_apply() {
    for nb_stacks in 1..5 {
        for nb_blocks in 0..7 {
            let start = WorldBlocks::initial(nb_blocks, nb_stacks);
            let mut world = start.clone();
            for (from, to) in moves_of(&start) {
                let action = Move { from, to };
                assert_eq!(world.apply(&action), Ok(()));
                assert!(world != start);
                assert_eq!(world.restore(&action), Ok(()));
                assert!(world == start);
                assert_eq!(world.stack, start.stack);
                assert_eq!(world.next, start.next);
                assert_eq!(world.top, start.top);
            }
        }
    }
}

#[test]
fn restore_undoes_apply_after_other_moves() {
    let mut world = WorldBlocks::initial(5, 3);
    assert_eq!(world.apply(&Move { from: 0, to: 2 }), Ok(()));
    assert_eq!(world.apply(&Move { from: 1, to: 0 }), Ok(()));
    let before = world.clone();
    for (from, to) in moves_of(&before) {
        let action = Move { from, to };
        assert_eq!(world.apply(&action), Ok(()));
        assert_eq!(world.restore(&action), Ok(()));
        assert_eq!(world.stack, before.stack);
        assert_eq!(world.next, before.next);
        assert_eq!(world.top, before.top);
    }
}

#[test]
fn weighted_actions_list_both_directions_of_each_pair() {
    let world = WorldBlocks::initial(3, 3);
    assert_eq!(moves_of(&world), vec![(0, 1), (1, 0), (0, 2), (2, 0), (1, 2), (2, 1)]);
    for weighted in world.weighted_actions() {
        assert_eq!(weighted.cost, NbMoves::new(1));
    }
}

#[test]
fn weighted_actions_omit_moves_from_empty_stacks() {
    let world = WorldBlocks::initial(1, 3);
    assert_eq!(moves_of(&world), vec![(0, 1), (0, 2)]);
    let bare = WorldBlocks::initial(0, 3);
    assert_eq!(moves_of(&bare), Vec::<(usize, usize)>::new());
}

#[test]
fn weighted_actions_of_a_single_stack_are_none() {
    let world = WorldBlocks::initial(4, 1);
    assert_eq!(moves_of(&world), Vec::<(usize, usize)>::new());
}

#[test]
fn every_offered_move_can_be_applied() {
    let mut world = WorldBlocks::initial(6, 4);
    for (from, to) in moves_of(&world.clone()) {
        assert_ne!(from, to);
        assert_eq!(world.apply(&Move { from, to }), Ok(()));
        assert_eq!(world.restore(&Move { from, to }), Ok(()));
    }
}

#[test]
fn equality_goes_by_stack_and_next() {
    let left = WorldBlocks::initial(3, 2);
    let mut right = WorldBlocks::initial(3, 2);
    assert!(left == right);
    right.top = vec![None, None];
    assert!(left == right);
    right.next[2] = None;
    assert!(left != right);
    let mut other = WorldBlocks::initial(3, 2);
    other.stack[1] = 0;
    assert!(left != other);
    assert!(WorldBlocks::initial(3, 2) != WorldBlocks::initial(4, 2));
}

#[test]
fn clone_keeps_every_table() {
    let world = WorldBlocks::initial(5, 2);
    let copy = world.clone();
    assert_eq!(copy.stack, world.stack);
    assert_eq!(copy.next, world.next);
    assert_eq!(copy.top, world.top);
}
