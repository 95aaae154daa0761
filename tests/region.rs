use piet::direction::Direction;
use piet::region::Region;

#[test]
fn test_codels_in_row() {
    let region = Region::new(vec![(0, 0), (0, 1), (0, 2), (1, 0)]);
    assert_eq!(region.codels_in_row(0), vec![0, 1, 2]);
    assert_eq!(region.codels_in_row(1), vec![0]);
}

#[test]
fn test_codels_in_col() {
    let region = Region::new(vec![(0, 0), (0, 1), (1, 0), (2, 0)]);
    assert_eq!(region.codels_in_col(0), vec![0, 1, 2]);
    assert_eq!(region.codels_in_col(1), vec![0]);
}

#[test]
fn codels_come_out_sorted() {
    let region = Region::new(vec![(4, 1), (0, 1), (2, 1), (3, 0), (1, 1)]);
    assert_eq!(region.codels_in_col(1), vec![0, 1, 2, 4]);
    let row = Region::new(vec![(0, 5), (0, 2), (0, 9), (0, 0)]);
    assert_eq!(row.codels_in_row(0), vec![0, 2, 5, 9]);
}

#[test]
fn test_edge() {
    let region = Region::new(vec![
        (0, 0), (0, 1), (0, 2),
        (1, 0), (1, 2),
        (2, 0), (2, 1), (2, 2),
    ]);

    // Not disjoint
    assert_eq!(region.edge((0, 0), Direction::Down), (2, 0));
    assert_eq!(region.edge((0, 0), Direction::Right), (0, 2));
    assert_eq!(region.edge((2, 2), Direction::Up), (0, 2));
    assert_eq!(region.edge((2, 2), Direction::Left), (2, 0));

    // Disjoint
    assert_eq!(region.edge((0, 1), Direction::Down), (2, 1));
    assert_eq!(region.edge((1, 0), Direction::Right), (1, 2));
    assert_eq!(region.edge((2, 1), Direction::Up), (0, 1));
    assert_eq!(region.edge((1, 2), Direction::Left), (1, 0));
}

#[test]
fn members_lie_between_their_edges() {
    let region = Region::new(vec![(3, 1), (1, 1), (2, 1), (2, 2), (2, 0)]);
    for &(row, col) in &[(3, 1), (1, 1), (2, 1), (2, 2), (2, 0)] {
        assert!(region.edge((row, col), Direction::Up).0 <= row);
        assert!(row <= region.edge((row, col), Direction::Down).0);
        assert!(region.edge((row, col), Direction::Left).1 <= col);
        assert!(col <= region.edge((row, col), Direction::Right).1);
    }
    assert_eq!(region.size, 5);
}
