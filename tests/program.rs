use piet::codel::{Codel, UnsupportedColor};
use piet::direction::Direction;
use piet::program::Program;

fn sorted_members(program: &Program, point: (usize, usize)) -> Vec<(usize, usize)> {
    let mut members = program.region_at(point).members.clone();
    members.sort();
    members
}

#[test]
fn test_regions() {
    let colors = vec![
        vec![Codel::White, Codel::White],
        vec![Codel::White, Codel::Black],
    ];
    let program = Program::new(colors, 2, 2);
    let white = vec![(0, 0), (0, 1), (1, 0)];
    for &point in &[(0, 0), (0, 1), (1, 0)] {
        assert_eq!(program.color_at(point), Codel::White);
        assert_eq!(sorted_members(&program, point), white);
        assert_eq!(program.region_at(point).size, 3);
    }
    assert_eq!(program.color_at((1, 1)), Codel::Black);
    assert_eq!(sorted_members(&program, (1, 1)), vec![(1, 1)]);
    assert_eq!(program.regions.len(), 2);
}

#[test]
fn test_next_point() {
    let colors = vec![
        vec![
            Codel::Color { hue: 0, lightness: 0 },
            Codel::Color { hue: 0, lightness: 1 },
            Codel::Color { hue: 0, lightness: 2 },
        ],
        vec![
            Codel::Color { hue: 1, lightness: 0 },
            Codel::Color { hue: 1, lightness: 1 },
            Codel::Color { hue: 1, lightness: 2 },
        ],
        vec![
            Codel::Color { hue: 2, lightness: 0 },
            Codel::Color { hue: 2, lightness: 1 },
            Codel::Color { hue: 2, lightness: 2 },
        ],
    ];
    let program = Program::new(colors, 3, 3);

    // corners
    assert_eq!(program.next_point((0, 0), Direction::Up), None);
    assert_eq!(program.next_point((0, 0), Direction::Left), None);
    assert_eq!(program.next_point((2, 2), Direction::Right), None);
    assert_eq!(program.next_point((2, 2), Direction::Down), None);

    // centre
    assert_eq!(
        program.next_point((1, 1), Direction::Up),
        Some(((0, 1), Codel::Color { hue: 0, lightness: 1 }))
    );
    assert_eq!(
        program.next_point((1, 1), Direction::Left),
        Some(((1, 0), Codel::Color { hue: 1, lightness: 0 }))
    );
    assert_eq!(
        program.next_point((1, 1), Direction::Right),
        Some(((1, 2), Codel::Color { hue: 1, lightness: 2 }))
    );
    assert_eq!(
        program.next_point((1, 1), Direction::Down),
        Some(((2, 1), Codel::Color { hue: 2, lightness: 1 }))
    );
}

#[test]
fn test_color_at() {
    let colors = vec![
        vec![Codel::White, Codel::White],
        vec![Codel::White, Codel::Black],
    ];
    let program = Program::new(colors, 2, 2);
    assert_eq!(program.color_at((1, 1)), Codel::Black);
}

#[test]
fn test_region_at() {
    let colors = vec![
        vec![Codel::White, Codel::White],
        vec![Codel::White, Codel::Black],
    ];
    let program = Program::new(colors, 2, 2);
    let region = program.region_at((1, 1));
    assert_eq!(region.members, vec![(1, 1)]);
    assert_eq!(region.size, 1);
}

#[test]
fn blocks_partition_the_grid() {
    let red = Codel::Color { hue: 0, lightness: 1 };
    let blue = Codel::Color { hue: 4, lightness: 1 };
    let colors = vec![
        vec![red, red, blue, red],
        vec![blue, red, blue, red],
        vec![red, blue, blue, red],
    ];
    let program = Program::new(colors, 3, 4);
    // Two separate red blocks on the left, one blue block in the middle,
    // one red block on the right, and two single codels.
    assert_eq!(sorted_members(&program, (0, 0)), vec![(0, 0), (0, 1), (1, 1)]);
    assert_eq!(sorted_members(&program, (1, 0)), vec![(1, 0)]);
    assert_eq!(sorted_members(&program, (2, 0)), vec![(2, 0)]);
    assert_eq!(sorted_members(&program, (2, 1)), vec![(0, 2), (1, 2), (2, 1), (2, 2)]);
    assert_eq!(sorted_members(&program, (0, 3)), vec![(0, 3), (1, 3), (2, 3)]);
    let mut seen = vec![0usize; 12];
    for region in &program.regions {
        for &(row, col) in &region.members {
            seen[row * 4 + col] += 1;
        }
    }
    assert!(seen.iter().all(|&count| count == 1));
}

#[test]
fn from_rgba_decodes_and_rejects() {
    let pixels = vec![
        0xFF, 0x00, 0x00, 0xFF, 0xFF, 0xFF, 0xFF, 0xFF, //
        0x00, 0x00, 0x00, 0xFF, 0x00, 0x00, 0xC0, 0x80,
    ];
    let program = Program::from_rgba(&pixels, 2, 2).unwrap();
    assert_eq!(program.color_at((0, 0)), Codel::Color { hue: 0, lightness: 1 });
    assert_eq!(program.color_at((0, 1)), Codel::White);
    assert_eq!(program.color_at((1, 0)), Codel::Black);
    assert_eq!(program.color_at((1, 1)), Codel::Color { hue: 4, lightness: 2 });

    let bad = vec![0xFF, 0xFF, 0xFF, 0xFF, 0x10, 0x20, 0x30, 0xFF];
    assert_eq!(
        Program::from_rgba(&bad, 1, 2).unwrap_err(),
        UnsupportedColor { red: 0x10, green: 0x20, blue: 0x30 }
    );
}
