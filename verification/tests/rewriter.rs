use pgo_co::ir_modifier::{find_block, move_block_after, reorder_blocks, reorder_plan};

#[test]
fn reorder_blocks_follows_the_order_and_keeps_the_entry() {
    // blocks [e, A, B, C] with the order [2, 0, 1] become [e, C, A, B]
    let (e, a, b, c) = (100, 1, 2, 3);
    let mut layout = vec![e, a, b, c];
    reorder_blocks(&mut layout, &[2, 0, 1]);
    assert_eq!(layout, vec![e, c, a, b]);
}

#[test]
fn reorder_blocks_with_the_identity_changes_nothing() {
    let mut layout = vec![9, 8, 7, 6, 5];
    reorder_blocks(&mut layout, &[0, 1, 2, 3]);
    assert_eq!(layout, vec![9, 8, 7, 6, 5]);
    let mut entry_only = vec![4];
    reorder_blocks(&mut entry_only, &[]);
    assert_eq!(entry_only, vec![4]);
}

#[test]
fn reorder_blocks_places_each_block_where_the_order_says() {
    let orders = [[0, 1, 2], [0, 2, 1], [1, 0, 2], [1, 2, 0], [2, 0, 1], [2, 1, 0]];
    for order in orders {
        let initial = vec![50, 51, 52, 53];
        let mut layout = initial.clone();
        reorder_blocks(&mut layout, &order);
        assert_eq!(layout[0], initial[0]);
        for k in 0..3 {
            assert_eq!(layout[1 + k], initial[1 + order[k]]);
        }
    }
}

#[test]
fn reorder_plan_moves_the_last_of_the_order_first() {
    assert_eq!(reorder_plan(&[2, 0, 1]), vec![1, 0, 2]);
    assert_eq!(reorder_plan(&[]), Vec::<usize>::new());
}

#[test]
fn move_block_after_puts_the_block_behind_the_anchor() {
    let mut layout = vec![1, 2, 3, 4];
    move_block_after(&mut layout, 4, 1);
    assert_eq!(layout, vec![1, 4, 2, 3]);
    move_block_after(&mut layout, 1, 3);
    assert_eq!(layout, vec![4, 2, 3, 1]);
    move_block_after(&mut layout, 2, 4);
    assert_eq!(layout, vec![4, 2, 3, 1]);
}

#[test]
fn find_block_gives_the_first_position() {
    assert_eq!(find_block(&vec![5, 6, 5], 5), Some(0));
    assert_eq!(find_block(&vec![5, 6, 5], 6), Some(1));
    assert_eq!(find_block(&vec![5, 6, 5], 7), None);
}
