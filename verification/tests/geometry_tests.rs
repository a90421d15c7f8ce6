use tetris::geometry::Position;

#[test]
fn position_test() {
    {
        assert_eq!(Position::new(4, 4).top_middle(), Position::new(2, 0));
        assert_eq!(Position::new(0, 4).top_middle(), Position::new(0, 0));
        assert_eq!(Position::new(0, 0).top_middle(), Position::new(0, 0));
        assert_eq!(Position::new(11, 10).top_middle(), Position::new(5, 0));
    }
}
