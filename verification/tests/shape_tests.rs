use tetris::geometry::{Area, Block, Position};
use tetris::prototype::{bottom, fix_position, left, right, rotate_prototype, top};
use tetris::tetronimo::{Tetronimo, TetronimoPrototype};

const I_SHAPE: [(i8, i8); 4] = [(-2, 0), (-1, 0), (0, 0), (1, 0)];
const O_SHAPE: [(i8, i8); 4] = [(-1, -1), (-1, 0), (0, 0), (0, -1)];

#[test]
fn prototype_fix_position_test() {
    let area = Area { min_x: 0, min_y: 0, max_x: 4, max_y: 4 };
    {
        let position = Block { x: 0, y: 0 };
        let result_x = Block { x: 2, y: 0 };
        assert_eq!(result_x, fix_position(I_SHAPE, 0, position, area));
        let result_y = Block { x: 0, y: 2 };
        assert_eq!(result_y, fix_position(I_SHAPE, 1, position, area));
    }
    {
        let position = Block { x: 4, y: 4 };
        let result_x = Block { x: 2, y: 3 };
        assert_eq!(result_x, fix_position(I_SHAPE, 0, position, area));

        let result_y = Block { x: 3, y: 2 };
        assert_eq!(result_y, fix_position(I_SHAPE, 1, position, area));
    }
}

#[test]
fn tetronimo_fix_position_test() {
    let scene_area = Position::new(4, 4);
    let proto_i = TetronimoPrototype::from(I_SHAPE);

    {
        let position = Position::new(0, 0);
        assert_eq!(
            Position::new(2, 0),
            Tetronimo::repostion(&proto_i, position, scene_area)
        );
        assert_eq!(
            Position::new(0, 2),
            Tetronimo::repostion(&proto_i.rotate(1), position, scene_area)
        );
    }
    {
        let position = Position::new(4, 4);
        assert_eq!(
            Position::new(2, 3),
            Tetronimo::repostion(&proto_i, position, scene_area)
        );
        assert_eq!(
            Position::new(3, 2),
            Tetronimo::repostion(&proto_i.rotate(1), position, scene_area)
        );
    }
}

#[test]
fn rotation_has_period_four() {
    for shape in [I_SHAPE, O_SHAPE] {
        let once = rotate_prototype(shape, 1);
        assert_eq!(shape, rotate_prototype(once, 3));
        assert_eq!(rotate_prototype(shape, 0), rotate_prototype(shape, 4));
    }
}

#[test]
fn rotation_quarter_turn_values() {
    // one clockwise quarter turn maps (x, y) to (y, -x - 1)
    let turned = rotate_prototype(I_SHAPE, 1);
    assert_eq!(turned, [(0, 1), (0, 0), (0, -1), (0, -2)]);
}

#[test]
fn rotated_limits() {
    assert_eq!(left(I_SHAPE, 0), -2);
    assert_eq!(right(I_SHAPE, 0), 1);
    assert_eq!(top(I_SHAPE, 0), 0);
    assert_eq!(bottom(I_SHAPE, 0), 0);
    assert_eq!(left(I_SHAPE, 1), 0);
    assert_eq!(right(I_SHAPE, 1), 0);
    assert_eq!(top(I_SHAPE, 1), -2);
    assert_eq!(bottom(I_SHAPE, 1), 1);
}

#[test]
fn fix_position_keeps_cells_inside() {
    // all four rotated cells of the clamped piece stay inside the area
    let area = Area { min_x: 0, min_y: 0, max_x: 6, max_y: 6 };
    for rotation in 0..4u8 {
        for (px, py) in [(0u8, 0u8), (5, 5), (0, 5), (5, 0), (3, 3)] {
            let anchor = fix_position(O_SHAPE, rotation, Block { x: px, y: py }, area);
            for (dx, dy) in rotate_prototype(O_SHAPE, rotation) {
                let cx = anchor.x as i16 + dx as i16;
                let cy = anchor.y as i16 + dy as i16;
                assert!(0 <= cx && cx < 6, "cell x {} out of bounds", cx);
                assert!(0 <= cy && cy < 6, "cell y {} out of bounds", cy);
            }
        }
    }
}
