use falling_sand::world::element::{Colour, Element, ElementKind};
use falling_sand::world::World;

const RED: Colour = Colour { r: 200, g: 10, b: 20, a: 255 };
const BLUE: Colour = Colour { r: 1, g: 2, b: 230, a: 255 };
const BLACK: Colour = Colour { r: 0, g: 0, b: 0, a: 255 };

fn kinds(world: &World) -> Vec<ElementKind> {
    let mut out = Vec::new();
    for y in 0..world.height() {
        for x in 0..world.width() {
            out.push(world.element_at(x, y).kind);
        }
    }
    out
}

fn sand_cells(world: &World) -> usize {
    kinds(world).iter().filter(|k| **k == ElementKind::Sand).count()
}

#[test]
fn new_grid_is_empty_and_unmarked() {
    let world = World::new(3, 2);
    assert_eq!(world.width(), 3);
    assert_eq!(world.height(), 2);
    assert_eq!(world.hue(), 0);
    assert!(world.updated_indexes().is_empty());
    for y in 0..2 {
        for x in 0..3 {
            let e = world.element_at(x, y);
            assert_eq!(e, Element { kind: ElementKind::Empty, colour: BLACK });
            assert_eq!(world.shown_element_at(x, y), e);
        }
    }
}

#[test]
fn deposit_then_two_ticks_on_three_by_two() {
    let mut world = World::new(3, 2);
    world.clicked(1, 0, RED);
    assert_eq!(world.element_at(1, 0), Element { kind: ElementKind::Sand, colour: RED });
    world.fall();
    assert_eq!(world.element_at(1, 1), Element { kind: ElementKind::Sand, colour: RED });
    assert_eq!(world.element_at(1, 0).kind, ElementKind::Empty);
    assert_eq!(sand_cells(&world), 1);
    world.fall();
    assert_eq!(world.element_at(1, 1), Element { kind: ElementKind::Sand, colour: RED });
    assert_eq!(sand_cells(&world), 1);
}

#[test]
fn grain_on_a_full_bottom_row_stays() {
    let mut world = World::new(3, 2);
    world.clicked(0, 1, BLUE);
    world.clicked(1, 1, BLUE);
    world.clicked(2, 1, BLUE);
    world.clicked(1, 0, RED);
    let marked = world.updated_indexes().len();
    world.fall();
    assert_eq!(world.element_at(1, 0), Element { kind: ElementKind::Sand, colour: RED });
    assert_eq!(sand_cells(&world), 4);
    assert_eq!(world.updated_indexes().len(), marked);
}

#[test]
fn grain_between_two_bottom_grains_falls_straight() {
    let mut world = World::new(3, 2);
    world.clicked(0, 1, BLUE);
    world.clicked(2, 1, BLUE);
    world.clicked(1, 0, RED);
    world.fall();
    assert_eq!(world.element_at(1, 1), Element { kind: ElementKind::Sand, colour: RED });
    assert_eq!(world.element_at(1, 0).kind, ElementKind::Empty);
    assert_eq!(world.element_at(0, 1).colour, BLUE);
    assert_eq!(world.element_at(2, 1).colour, BLUE);
}

#[test]
fn single_column_takes_one_step_per_tick() {
    let mut world = World::new(1, 3);
    world.clicked(0, 0, RED);
    world.fall();
    assert_eq!(
        kinds(&world),
        vec![ElementKind::Empty, ElementKind::Sand, ElementKind::Empty]
    );
    world.fall();
    assert_eq!(
        kinds(&world),
        vec![ElementKind::Empty, ElementKind::Empty, ElementKind::Sand]
    );
    assert_eq!(world.element_at(0, 2).colour, RED);
    world.fall();
    assert_eq!(
        kinds(&world),
        vec![ElementKind::Empty, ElementKind::Empty, ElementKind::Sand]
    );
}

#[test]
fn stacked_grains_follow_each_other() {
    let mut world = World::new(1, 3);
    world.clicked(0, 0, RED);
    world.clicked(0, 1, BLUE);
    world.fall();
    assert_eq!(
        kinds(&world),
        vec![ElementKind::Empty, ElementKind::Sand, ElementKind::Sand]
    );
    assert_eq!(world.element_at(0, 1).colour, RED);
    assert_eq!(world.element_at(0, 2).colour, BLUE);
}

#[test]
fn deposit_overwrites_and_always_advances_the_hue() {
    let mut world = World::new(2, 2);
    world.clicked(0, 0, RED);
    assert_eq!(world.hue(), 1);
    world.clicked(0, 0, BLUE);
    assert_eq!(world.hue(), 2);
    assert_eq!(world.element_at(0, 0), Element { kind: ElementKind::Sand, colour: BLUE });
    assert_eq!(world.updated_indexes(), &vec![0, 0]);
    assert_eq!(world.shown_element_at(0, 0).kind, ElementKind::Empty);
}

#[test]
fn hue_wraps_after_a_full_turn() {
    let mut world = World::new(1, 1);
    for _ in 0..359 {
        world.clicked(0, 0, RED);
    }
    assert_eq!(world.hue(), 359);
    world.clicked(0, 0, RED);
    assert_eq!(world.hue(), 0);
}

#[test]
fn single_row_never_moves() {
    let mut world = World::new(3, 1);
    world.clicked(1, 0, RED);
    world.fall();
    assert_eq!(
        kinds(&world),
        vec![ElementKind::Empty, ElementKind::Sand, ElementKind::Empty]
    );
    assert_eq!(world.shown_element_at(1, 0).kind, ElementKind::Sand);
}

#[test]
fn swap_reads_what_is_shown_and_marks_both_cells() {
    let mut world = World::new(2, 2);
    world.clicked(0, 0, RED);
    let mut frame = vec![0u8; 16];
    world.show(&mut frame);
    world.swap_elements_at((0, 0), (1, 1));
    assert_eq!(world.element_at(1, 1), Element { kind: ElementKind::Sand, colour: RED });
    assert_eq!(world.element_at(0, 0), Element { kind: ElementKind::Empty, colour: BLACK });
    assert_eq!(world.shown_element_at(0, 0).kind, ElementKind::Sand);
    assert_eq!(world.shown_element_at(1, 1).kind, ElementKind::Empty);
    assert_eq!(world.updated_indexes(), &vec![0, 3]);
}

#[test]
fn swap_does_not_see_a_deposit_that_is_not_yet_shown() {
    let mut world = World::new(2, 1);
    world.clicked(0, 0, RED);
    world.swap_elements_at((0, 0), (1, 0));
    assert_eq!(world.element_at(0, 0).kind, ElementKind::Empty);
    assert_eq!(world.element_at(1, 0).kind, ElementKind::Empty);
    assert_eq!(world.updated_indexes(), &vec![0, 0, 1]);
}

#[test]
fn change_element_at_applies_the_function_to_the_shown_cell() {
    let mut world = World::new(3, 2);
    world.change_element_at(2, 1, |e, i| Element {
        kind: ElementKind::Sand,
        colour: Colour { r: i as u8, g: e.colour.a, b: 7, a: 255 },
    });
    assert_eq!(
        world.element_at(2, 1),
        Element { kind: ElementKind::Sand, colour: Colour { r: 5, g: 255, b: 7, a: 255 } }
    );
    assert_eq!(world.shown_element_at(2, 1).kind, ElementKind::Empty);
    assert_eq!(world.updated_indexes(), &vec![5]);
    assert_eq!(world.hue(), 0);
}

fn blocked_grain(width: u32, x: usize) -> World {
    let mut world = World::new(width, 2);
    world.clicked(x, 1, BLUE);
    world.clicked(x, 0, RED);
    let mut frame = vec![0u8; 4 * 2 * width as usize];
    world.show(&mut frame);
    world
}

#[test]
fn slide_tries_the_left_first_without_a_flip() {
    let mut world = blocked_grain(3, 1);
    world.slide_element_at(1, 0, false);
    assert_eq!(world.element_at(0, 1), Element { kind: ElementKind::Sand, colour: RED });
    assert_eq!(world.element_at(1, 0).kind, ElementKind::Empty);
    assert_eq!(world.element_at(2, 1).kind, ElementKind::Empty);
    assert_eq!(world.updated_indexes(), &vec![1, 3]);
}

#[test]
fn slide_tries_the_right_first_after_a_flip() {
    let mut world = blocked_grain(3, 1);
    world.slide_element_at(1, 0, true);
    assert_eq!(world.element_at(2, 1), Element { kind: ElementKind::Sand, colour: RED });
    assert_eq!(world.element_at(1, 0).kind, ElementKind::Empty);
    assert_eq!(world.element_at(0, 1).kind, ElementKind::Empty);
    assert_eq!(world.updated_indexes(), &vec![1, 5]);
}

#[test]
fn flipped_order_stays_until_the_next_flip() {
    let mut world = blocked_grain(3, 1);
    world.slide_element_at(1, 0, true);
    let mut frame = vec![0u8; 24];
    world.show(&mut frame);
    assert_eq!(world.element_at(2, 1).kind, ElementKind::Sand);
    world.change_element_at(2, 1, |_, _| Element { kind: ElementKind::Empty, colour: BLACK });
    world.clicked(1, 0, RED);
    world.show(&mut frame);
    world.slide_element_at(1, 0, false);
    assert_eq!(world.element_at(2, 1), Element { kind: ElementKind::Sand, colour: RED });
    assert_eq!(world.element_at(0, 1).kind, ElementKind::Empty);
}

#[test]
fn slide_at_the_left_edge_goes_right_only() {
    let mut world = blocked_grain(2, 0);
    world.slide_element_at(0, 0, false);
    assert_eq!(world.element_at(1, 1), Element { kind: ElementKind::Sand, colour: RED });
    assert_eq!(world.element_at(0, 0).kind, ElementKind::Empty);
}

#[test]
fn slide_at_the_right_edge_goes_left_only() {
    let mut world = blocked_grain(2, 1);
    world.slide_element_at(1, 0, true);
    assert_eq!(world.element_at(0, 1), Element { kind: ElementKind::Sand, colour: RED });
    assert_eq!(world.element_at(1, 0).kind, ElementKind::Empty);
}

#[test]
fn slide_at_the_edge_stays_when_the_one_diagonal_is_taken() {
    let mut world = World::new(2, 2);
    world.clicked(0, 1, BLUE);
    world.clicked(1, 1, BLUE);
    world.clicked(0, 0, RED);
    let mut frame = vec![0u8; 16];
    world.show(&mut frame);
    world.slide_element_at(0, 0, false);
    assert_eq!(world.element_at(0, 0), Element { kind: ElementKind::Sand, colour: RED });
    assert!(world.updated_indexes().is_empty());
}

#[test]
fn slide_needs_the_cell_beside_the_grain_empty_too() {
    let mut world = World::new(2, 2);
    world.clicked(0, 1, BLUE);
    world.clicked(1, 0, BLUE);
    world.clicked(0, 0, RED);
    let mut frame = vec![0u8; 16];
    world.show(&mut frame);
    world.slide_element_at(0, 0, false);
    assert_eq!(world.element_at(0, 0), Element { kind: ElementKind::Sand, colour: RED });
    assert_eq!(world.element_at(1, 1).kind, ElementKind::Empty);
}

#[test]
fn step_goes_straight_down_whatever_the_coin() {
    for flip in [false, true] {
        let mut world = World::new(3, 2);
        world.clicked(1, 0, RED);
        let mut frame = vec![0u8; 24];
        world.show(&mut frame);
        world.step_element_at(1, 0, flip);
        assert_eq!(world.element_at(1, 1), Element { kind: ElementKind::Sand, colour: RED });
        assert_eq!(world.updated_indexes(), &vec![1, 4]);
    }
}

#[test]
fn tick_with_coins_chooses_the_diagonal() {
    let mut left = World::new(3, 2);
    left.clicked(1, 1, BLUE);
    left.clicked(1, 0, RED);
    left.fall_with(&[false; 6]);
    assert_eq!(left.element_at(0, 1), Element { kind: ElementKind::Sand, colour: RED });
    assert_eq!(sand_cells(&left), 2);

    let mut right = World::new(3, 2);
    right.clicked(1, 1, BLUE);
    right.clicked(1, 0, RED);
    right.fall_with(&[false, true, false, false, false, false]);
    assert_eq!(right.element_at(2, 1), Element { kind: ElementKind::Sand, colour: RED });
    assert_eq!(right.element_at(1, 0).kind, ElementKind::Empty);
    assert_eq!(sand_cells(&right), 2);
}

#[test]
fn thrown_coins_send_the_grain_to_one_of_the_diagonals() {
    for _ in 0..20 {
        let mut world = World::new(3, 2);
        world.clicked(1, 1, BLUE);
        world.clicked(1, 0, RED);
        world.fall();
        assert_eq!(world.element_at(1, 0).kind, ElementKind::Empty);
        let left = world.element_at(0, 1);
        let right = world.element_at(2, 1);
        let grain = Element { kind: ElementKind::Sand, colour: RED };
        assert!(
            (left == grain && right.kind == ElementKind::Empty)
                || (right == grain && left.kind == ElementKind::Empty)
        );
    }
}

#[test]
fn two_grains_sliding_to_one_cell_leave_one() {
    let mut world = World::new(3, 2);
    world.clicked(0, 1, BLUE);
    world.clicked(2, 1, BLUE);
    world.clicked(0, 0, RED);
    world.clicked(2, 0, Colour { r: 9, g: 9, b: 9, a: 255 });
    world.fall_with(&[false; 6]);
    assert_eq!(
        kinds(&world),
        vec![
            ElementKind::Empty,
            ElementKind::Empty,
            ElementKind::Empty,
            ElementKind::Sand,
            ElementKind::Sand,
            ElementKind::Sand
        ]
    );
    assert_eq!(world.element_at(1, 1).colour, Colour { r: 9, g: 9, b: 9, a: 255 });
    assert_eq!(world.updated_indexes(), &vec![3, 5, 0, 2, 0, 4, 2, 4]);
}

#[test]
fn show_all_paints_every_cell_as_shown() {
    let mut world = World::new(2, 1);
    let mut frame = vec![9u8; 8];
    world.show_all(&mut frame);
    assert_eq!(frame, vec![0, 0, 0, 255, 0, 0, 0, 255]);
    world.clicked(1, 0, RED);
    world.show_all(&mut frame);
    assert_eq!(frame, vec![0, 0, 0, 255, 0, 0, 0, 255]);
    world.fall();
    world.show_all(&mut frame);
    assert_eq!(frame, vec![0, 0, 0, 255, 200, 10, 20, 255]);
}

#[test]
fn show_paints_the_marked_cells_only() {
    let mut world = World::new(2, 2);
    let mut frame = vec![9u8; 16];
    world.clicked(1, 0, RED);
    world.show(&mut frame);
    assert_eq!(frame, vec![9, 9, 9, 9, 200, 10, 20, 255, 9, 9, 9, 9, 9, 9, 9, 9]);
    assert!(world.updated_indexes().is_empty());
    assert_eq!(world.shown_element_at(1, 0).kind, ElementKind::Sand);
    world.fall();
    world.show(&mut frame);
    assert_eq!(frame, vec![9, 9, 9, 9, 0, 0, 0, 255, 9, 9, 9, 9, 200, 10, 20, 255]);
    world.show(&mut frame);
    assert_eq!(frame, vec![9, 9, 9, 9, 0, 0, 0, 255, 9, 9, 9, 9, 200, 10, 20, 255]);
}
