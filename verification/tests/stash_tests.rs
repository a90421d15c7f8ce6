use tetris::geometry::Block;
use tetris::stash::Stash;

fn block(x: u8, y: u8) -> Block {
    Block { x, y }
}

#[test]
fn stash_add_and_get_blocks() {
    let mut stash = Stash::new(4);
    stash.add([block(0, 3), block(1, 3), block(0, 2), block(1, 2)]);
    let cells = stash.get_blocks();
    assert_eq!(cells.len(), 4);
    assert!(cells.contains(&block(0, 3)));
    assert!(cells.contains(&block(1, 3)));
    assert!(cells.contains(&block(0, 2)));
    assert!(cells.contains(&block(1, 2)));
}

#[test]
fn stash_remove_lines_counts_full_rows() {
    let mut stash = Stash::new(4);
    // bottom row full at width 4, the row above only half filled
    stash.add([block(0, 3), block(1, 3), block(2, 3), block(3, 3)]);
    stash.add([block(0, 2), block(1, 2), block(2, 1), block(3, 1)]);
    assert_eq!(stash.remove_lines(4), 1);
    // the remaining rows slide down: the half rows stay, in order
    let cells = stash.get_blocks();
    assert_eq!(cells.len(), 4);
    assert!(cells.contains(&block(0, 3)));
    assert!(cells.contains(&block(1, 3)));
    assert!(cells.contains(&block(2, 2)));
    assert!(cells.contains(&block(3, 2)));
    // no remaining row is full any more
    assert_eq!(stash.remove_lines(4), 0);
}

#[test]
fn stash_distance_and_highest() {
    let mut stash = Stash::new(10);
    stash.add([block(0, 9), block(1, 9), block(0, 8), block(1, 8)]);
    // column 0 is blocked at row 8, column 5 is free to the floor
    assert_eq!(stash.get_highest(0, 0), 8);
    assert_eq!(stash.get_highest(5, 0), 10);
    // a flat piece hovering at row 5 over columns 0 and 1
    let piece = [block(0, 5), block(1, 5), block(2, 5), block(3, 5)];
    assert_eq!(stash.distance_to(piece), 3);
    // a piece resting directly on the stash has distance 0
    let touching = [block(0, 8), block(1, 8), block(2, 8), block(3, 8)];
    assert_eq!(stash.distance_to(touching), 0);
}
