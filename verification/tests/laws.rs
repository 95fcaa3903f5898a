use falling_sand::world::element::{Colour, Element, ElementKind};
use falling_sand::world::World;

fn colour(n: usize) -> Colour {
    Colour { r: (n % 251) as u8, g: (n / 251) as u8, b: 77, a: 255 }
}

fn cells(world: &World) -> Vec<Element> {
    let mut out = Vec::new();
    for y in 0..world.height() {
        for x in 0..world.width() {
            out.push(world.element_at(x, y));
        }
    }
    out
}

fn grains(cells: &[Element]) -> usize {
    cells.iter().filter(|e| e.kind == ElementKind::Sand).count()
}

/// A grid of 7 by 6 with grains, each of a colour of its own, where the
/// pattern says so.
fn sample(pattern: &[&str]) -> World {
    let mut world = World::new(pattern[0].len() as u32, pattern.len() as u32);
    let mut n = 0;
    for (y, row) in pattern.iter().enumerate() {
        for (x, c) in row.chars().enumerate() {
            if c == '#' {
                n += 1;
                world.clicked(x, y, colour(n));
            }
        }
    }
    let mut frame = vec![0u8; 4 * world.width() * world.height()];
    world.show(&mut frame);
    world
}

const HEAP: [&str; 6] = [
    "..#.#..",
    ".##.#..",
    "...##.#",
    "#.#...#",
    "##.#.##",
    "#.###.#",
];

#[test]
fn no_grain_moves_more_than_one_step() {
    for _ in 0..10 {
        let mut world = sample(&HEAP);
        let before = cells(&world);
        world.fall();
        let after = cells(&world);
        let w = world.width();
        for (i, e) in after.iter().enumerate() {
            if e.kind == ElementKind::Sand && before[i] != *e {
                let (x, y) = (i % w, i / w);
                assert!(y > 0);
                let from = (x.saturating_sub(1)..=(x + 1).min(w - 1))
                    .any(|sx| before[(y - 1) * w + sx] == *e);
                assert!(from);
            }
        }
    }
}

#[test]
fn bottom_row_grains_stay() {
    for _ in 0..10 {
        let mut world = sample(&HEAP);
        let before = cells(&world);
        world.fall();
        let after = cells(&world);
        for i in 35..42 {
            if before[i].kind == ElementKind::Sand {
                assert_eq!(after[i], before[i]);
            }
        }
    }
}

#[test]
fn every_changed_cell_is_marked_and_every_mark_is_a_move() {
    for _ in 0..10 {
        let mut world = sample(&HEAP);
        let before = cells(&world);
        world.fall();
        let after = cells(&world);
        let marks = world.updated_indexes().clone();
        for i in 0..42 {
            if before[i] != after[i] {
                assert!(marks.contains(&i));
            }
        }
        for i in marks {
            assert!(before[i].kind == ElementKind::Sand || after[i].kind == ElementKind::Sand);
            assert_ne!(before[i], after[i]);
        }
    }
}

#[test]
fn marks_before_the_tick_are_kept_in_front() {
    let mut world = World::new(1, 3);
    world.clicked(0, 0, colour(1));
    world.fall();
    assert_eq!(world.updated_indexes(), &vec![0, 0, 1]);
    world.fall();
    assert_eq!(world.updated_indexes(), &vec![0, 0, 1, 1, 2]);
}

#[test]
fn a_tick_never_makes_a_grain() {
    for _ in 0..10 {
        let mut world = sample(&HEAP);
        let before = grains(&cells(&world));
        world.fall();
        assert!(grains(&cells(&world)) <= before);
    }
}

#[test]
fn a_tick_without_collision_keeps_every_grain() {
    let pattern = ["#...#..", ".#....#", "..#.#..", "#......", "...#...", ".#...#."];
    let mut world = sample(&pattern);
    for _ in 0..8 {
        let before = grains(&cells(&world));
        world.fall();
        assert_eq!(grains(&cells(&world)), before);
        assert_eq!(before, 10);
    }
}

#[test]
fn settled_grid_is_a_fixed_point() {
    let pattern = ["...", ".#.", "###"];
    let mut world = sample(&pattern);
    let before = cells(&world);
    for _ in 0..5 {
        world.fall();
        assert_eq!(cells(&world), before);
        assert!(world.updated_indexes().is_empty());
    }
}

#[test]
fn grain_over_a_grain_with_a_free_diagonal_is_not_settled() {
    let pattern = ["#.", "#."];
    let mut world = sample(&pattern);
    world.fall();
    assert_eq!(world.element_at(0, 0).kind, ElementKind::Empty);
    assert_eq!(world.element_at(1, 1), Element { kind: ElementKind::Sand, colour: colour(1) });
}

#[test]
fn refilled_cell_is_marked_though_it_may_look_the_same() {
    let same = Colour { r: 1, g: 1, b: 1, a: 255 };
    let mut world = World::new(1, 3);
    world.clicked(0, 0, same);
    world.clicked(0, 1, same);
    let mut frame = vec![0u8; 12];
    world.show(&mut frame);
    let before = cells(&world);
    world.fall();
    let after = cells(&world);
    assert_eq!(before[1], after[1]);
    assert_eq!(world.updated_indexes(), &vec![1, 2, 0, 1]);
}

#[test]
fn heap_comes_to_rest() {
    let mut world = sample(&HEAP);
    for _ in 0..200 {
        world.fall();
    }
    let rest = cells(&world);
    let mut frame = vec![0u8; 4 * 42];
    world.show(&mut frame);
    world.fall();
    assert_eq!(cells(&world), rest);
    assert!(world.updated_indexes().is_empty());
}
