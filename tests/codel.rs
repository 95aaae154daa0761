use piet::codel::{Codel, UnsupportedColor};
use piet::direction::{Chooser, Direction};

#[test]
fn test_cyclic_distance_identical() {
    assert_eq!(Codel::cyclic_distance(&0, &0, &3), 0);
}

#[test]
fn test_cyclic_distance_different() {
    assert_eq!(Codel::cyclic_distance(&0, &1, &3), 1);
}

#[test]
fn test_cyclic_distance_cycled() {
    assert_eq!(Codel::cyclic_distance(&1, &0, &3), 2);
}

#[test]
fn test_compare_colors() {
    let current = Codel::Color { hue: 0, lightness: 0 };
    let next = Codel::Color { hue: 1, lightness: 2 };
    assert_eq!(current.compare(&next), Some((1, 2)));
}

#[test]
fn test_compare_not_colors() {
    let color = Codel::Color { hue: 0, lightness: 0 };
    assert_eq!(color.compare(&Codel::Black), None);
    assert_eq!(Codel::Black.compare(&color), None);
}

#[test]
fn cyclic_distance_examples() {
    assert_eq!(Codel::cyclic_distance(&0, &1, &6), 1);
    assert_eq!(Codel::cyclic_distance(&5, &0, &6), 1);
    assert_eq!(Codel::cyclic_distance(&1, &0, &6), 5);
    assert_eq!(Codel::cyclic_distance(&0, &2, &3), 2);
    assert_eq!(Codel::cyclic_distance(&2, &0, &3), 1);
}

#[test]
fn cyclic_distances_there_and_back_sum_to_cycle() {
    for n in 1u8..=6 {
        for a in 0..n {
            for b in 0..n {
                let sum = Codel::cyclic_distance(&a, &b, &n) + Codel::cyclic_distance(&b, &a, &n);
                assert_eq!(sum % n, 0);
            }
        }
    }
}

#[test]
fn classifies_piet_colours() {
    assert_eq!(Codel::from_rgb(0xFF, 0xC0, 0xC0), Ok(Codel::Color { hue: 0, lightness: 0 }));
    assert_eq!(Codel::from_rgb(0x00, 0xFF, 0xFF), Ok(Codel::Color { hue: 3, lightness: 1 }));
    assert_eq!(Codel::from_rgb(0xC0, 0x00, 0xC0), Ok(Codel::Color { hue: 5, lightness: 2 }));
    assert_eq!(Codel::from_rgb(0xFF, 0xFF, 0xFF), Ok(Codel::White));
    assert_eq!(Codel::from_rgb(0x00, 0x00, 0x00), Ok(Codel::Black));
    assert_eq!(
        Codel::from_rgb(0x12, 0x34, 0x56),
        Err(UnsupportedColor { red: 0x12, green: 0x34, blue: 0x56 })
    );
}

#[test]
fn directions_cycle() {
    for d in [Direction::Up, Direction::Right, Direction::Down, Direction::Left] {
        assert_eq!(d.next().next().next().next(), d);
        assert_eq!(d.next().previous(), d);
    }
    assert_eq!(Direction::Up.next(), Direction::Right);
    assert_eq!(Direction::Up.previous(), Direction::Left);
    for c in [Chooser::Left, Chooser::Right] {
        assert_eq!(c.next().next(), c);
    }
    assert_eq!(Chooser::Left.turn(Direction::Right), Direction::Up);
    assert_eq!(Chooser::Right.turn(Direction::Right), Direction::Down);
}
