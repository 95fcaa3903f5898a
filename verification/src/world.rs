use vstd::prelude::*;
use rand::Rng;
use std::collections::HashSet;
use vstd::std_specs::iter::IteratorSpec;
use crate::world::element::{Colour, Element, ElementKind};
use crate::world::model::{
    cell, lemma_cell_in_range, lemma_cell_injective, marked, painted, repainted, with_pixel,
    WorldView,
};

pub mod element;
pub mod laws;
pub mod model;

verus! {

broadcast use vstd::std_specs::hash::group_hash_axioms;

/// By how many degrees the hue moves on with each deposit.
pub const HUE_OFFSET: u16 = 1;

/// The degrees of a full turn of the hue wheel.
pub const HUE_TURN: u16 = 360;

/// The simulation: the grid in its two copies, what was written since the
/// last painting, the order in which the diagonals are tried, and the hue of
/// the next deposit.
pub struct World {
    height: usize,
    width: usize,
    array: Vec<Element>,
    next_array: Vec<Element>,
    updated_indexes: Vec<usize>,
    updated_lines: HashSet<usize>,
    priority: (usize, usize),
    hue: u16,
}

impl View for World {
    type V = WorldView;

    closed spec fn view(&self) -> WorldView {
        WorldView {
            width: self.width as nat,
            height: self.height as nat,
            shown: self.array@,
            next: self.next_array@,
            dirty: self.updated_indexes@,
            dirty_rows: self.updated_lines@,
            priority: (self.priority.0 as int, self.priority.1 as int),
            hue: self.hue as nat,
        }
    }
}

/// Calls `Rng::gen_ratio` on rand's thread-local generator, which returns
/// `true` with a chance of `numerator` in `denominator`. Nothing is claimed
/// of the outcome. The call panics on the ratios that `requires` leaves out.
#[verifier::external_body]
fn random_ratio(numerator: u32, denominator: u32) -> (outcome: bool)
    requires
        denominator > 0,
        numerator <= denominator,
{
    rand::thread_rng().gen_ratio(numerator, denominator)
}

/// Writes the four bytes of `colour` to pixel `index` of `frame`.
fn set_pixel(frame: &mut [u8], index: usize, colour: Colour)
    requires
        4 * index + 4 <= old(frame)@.len(),
    ensures
        final(frame)@ == with_pixel(old(frame)@, index as int, colour),
{
    let at = 4 * index;
    frame[at] = colour.r;
    frame[at + 1] = colour.g;
    frame[at + 2] = colour.b;
    frame[at + 3] = colour.a;
}

impl World {
    /// A grid of `width` by `height` empty cells.
    pub fn new(width: u32, height: u32) -> (world: World)
        requires
            width > 0,
            height > 0,
            4 * (width * height) <= usize::MAX,
        ensures
            world@ == WorldView::blank(width as nat, height as nat),
            world@.wf(),
    {
        let element = Element::empty();
        let height = height as usize;
        let width = width as usize;
        assert(width * height <= usize::MAX) by (nonlinear_arith)
            requires
                4 * (width * height) <= usize::MAX,
        ;
        let size = width * height;
        let mut array: Vec<Element> = Vec::new();
        let mut next_array: Vec<Element> = Vec::new();
        let mut i: usize = 0;
        while i < size
            invariant
                i <= size,
                array@.len() == i,
                next_array@.len() == i,
                forall|k: int| 0 <= k < i ==> array@[k] == element,
                forall|k: int| 0 <= k < i ==> next_array@[k] == element,
            decreases size - i,
        {
            array.push(element);
            next_array.push(element);
            i += 1;
        }
        let world = World {
            height,
            width,
            array,
            next_array,
            updated_indexes: Vec::new(),
            updated_lines: HashSet::new(),
            priority: (0, 2),
            hue: 0,
        };
        proof {
            let blank = WorldView::blank(width as nat, height as nat);
            assert(world@.shown =~= blank.shown);
            assert(world@.next =~= blank.next);
        }
        world
    }

    /// The number of columns.
    pub fn width(&self) -> (w: usize)
        ensures
            w == self@.width,
    {
        self.width
    }

    /// The number of rows.
    pub fn height(&self) -> (h: usize)
        ensures
            h == self@.height,
    {
        self.height
    }

    /// The hue of the next deposit, in degrees.
    pub fn hue(&self) -> (h: u16)
        ensures
            h == self@.hue,
    {
        self.hue
    }

    /// The linear index of the cell `(x, y)`.
    fn index_at(&self, x: usize, y: usize) -> (i: usize)
        requires
            self@.wf(),
            self@.inside(x as int, y as int),
        ensures
            i == cell(self@.width, x as int, y as int),
            i < self@.size(),
    {
        proof {
            lemma_cell_in_range(self@.width, self@.height, x as int, y as int);
        }
        y * self.width + x
    }

    /// What the cell at `(x, y)` will hold once the grid is synchronised.
    pub fn element_at(&self, x: usize, y: usize) -> (e: Element)
        requires
            self@.wf(),
            self@.inside(x as int, y as int),
        ensures
            e == self@.next[cell(self@.width, x as int, y as int)],
    {
        let i = self.index_at(x, y);
        self.next_array[i]
    }

    /// What the cell at `(x, y)` held when the grid was last synchronised.
    pub fn shown_element_at(&self, x: usize, y: usize) -> (e: Element)
        requires
            self@.wf(),
            self@.inside(x as int, y as int),
        ensures
            e == self@.shown[cell(self@.width, x as int, y as int)],
    {
        let i = self.index_at(x, y);
        self.array[i]
    }

    /// The indexes written since the last incremental painting, in order.
    pub fn updated_indexes(&self) -> (indexes: &Vec<usize>)
        ensures
            indexes@ == self@.dirty,
    {
        &self.updated_indexes
    }

    /// Gives the cell at `(x, y)` what `func` makes of its shown content and
    /// its index, and marks it.
    pub fn change_element_at<F>(&mut self, x: usize, y: usize, func: F) where
        F: Fn(Element, usize) -> Element,

        requires
            old(self)@.wf(),
            old(self)@.inside(x as int, y as int),
            func.requires(
                (
                    old(self)@.shown[cell(old(self)@.width, x as int, y as int)],
                    cell(old(self)@.width, x as int, y as int) as usize,
                ),
            ),
        ensures
            final(self)@.wf(),
            func.ensures(
                (
                    old(self)@.shown[cell(old(self)@.width, x as int, y as int)],
                    cell(old(self)@.width, x as int, y as int) as usize,
                ),
                final(self)@.next[cell(old(self)@.width, x as int, y as int)],
            ),
            final(self)@ == old(self)@.changed(
                x as int,
                y as int,
                final(self)@.next[cell(old(self)@.width, x as int, y as int)],
            ),
    {
        let i = self.index_at(x, y);
        let e = func(self.array[i], i);
        self.put(x, y, e);
    }

    /// Gives the cell at `(x, y)` the content `e`, and marks it.
    fn put(&mut self, x: usize, y: usize, e: Element)
        requires
            old(self)@.wf(),
            old(self)@.inside(x as int, y as int),
        ensures
            final(self)@.wf(),
            final(self)@ == old(self)@.changed(x as int, y as int, e),
    {
        let i = self.index_at(x, y);
        self.next_array[i] = e;
        self.updated_indexes.push(i);
        self.updated_lines.insert(y);
        proof {
            old(self)@.lemma_changed_wf(x as int, y as int, e);
        }
    }

    /// Deposits a grain of the given colour at `(x, y)`, whatever the cell
    /// held, and moves the hue on by one degree round the wheel.
    pub fn clicked(&mut self, x: usize, y: usize, colour: Colour)
        requires
            old(self)@.wf(),
            old(self)@.inside(x as int, y as int),
        ensures
            final(self)@.wf(),
            final(self)@ == old(self)@.deposited(x as int, y as int, colour),
    {
        self.put(x, y, Element::sand(colour));
        self.hue = if self.hue + HUE_OFFSET >= HUE_TURN {
            0
        } else {
            self.hue + HUE_OFFSET
        };
        proof {
            old(self)@.lemma_deposited_wf(x as int, y as int, colour);
        }
    }

    /// Exchanges the contents of the cells `a` and `b`: both are read from
    /// what is shown and written to what comes next, and both are marked.
    pub fn swap_elements_at(&mut self, a: (usize, usize), b: (usize, usize))
        requires
            old(self)@.wf(),
            old(self)@.inside(a.0 as int, a.1 as int),
            old(self)@.inside(b.0 as int, b.1 as int),
        ensures
            final(self)@.wf(),
            final(self)@ == old(self)@.swapped((a.0 as int, a.1 as int), (b.0 as int, b.1 as int)),
    {
        let i_a = self.index_at(a.0, a.1);
        let i_b = self.index_at(b.0, b.1);

        self.next_array[i_a] = self.array[i_b];
        self.next_array[i_b] = self.array[i_a];

        self.updated_indexes.push(i_a);
        self.updated_indexes.push(i_b);

        self.updated_lines.insert(a.1);
        self.updated_lines.insert(b.1);
        proof {
            old(self)@.lemma_swapped_wf((a.0 as int, a.1 as int), (b.0 as int, b.1 as int));
        }
    }

    /// Whether the grain at `(x, y)` may fall diagonally by `offset`.
    fn can_slide(&self, x: usize, y: usize, offset: usize) -> (free: bool)
        requires
            self@.wf(),
            self@.inside(x as int, y as int),
            y + 1 < self@.height,
            offset == 0 || offset == 2,
        ensures
            free == self@.can_slide(x as int, y as int, offset as int),
    {
        if x == 0 && offset == 0 {
            return false;
        }
        if x == self.width - 1 && offset == 2 {
            return false;
        }
        let offset_x = x + offset - 1;
        let i_next = self.index_at(offset_x, y);
        let i_next_bellow = self.index_at(offset_x, y + 1);
        self.array[i_next].kind == ElementKind::Empty && self.array[i_next_bellow].kind
            == ElementKind::Empty
    }

    /// Lets a grain at `(x, y)` that cannot fall straight down take a
    /// diagonal: where `flip` is set the order of the two diagonals is
    /// exchanged first, and stays so; then the grain moves to the first of
    /// them that is free, or stays where it is.
    pub fn slide_element_at(&mut self, x: usize, y: usize, flip: bool)
        requires
            old(self)@.wf(),
            old(self)@.inside(x as int, y as int),
            y + 1 < old(self)@.height,
        ensures
            final(self)@.wf(),
            final(self)@ == old(self)@.slid(x as int, y as int, flip),
    {
        if flip {
            let temp = self.priority.0;
            self.priority.0 = self.priority.1;
            self.priority.1 = temp;
        }
        proof {
            old(self)@.lemma_reordered_wf(flip);
        }
        assert(self@ == old(self)@.reordered(flip));
        let first = self.priority.0;
        let second = self.priority.1;
        if self.can_slide(x, y, first) {
            self.swap_elements_at((x, y), (x + first - 1, y + 1));
        } else if self.can_slide(x, y, second) {
            self.swap_elements_at((x, y), (x + second - 1, y + 1));
        }
    }

    /// Lets the grain at `(x, y)` take its step: straight down where the cell
    /// below is empty; else a coin is thrown and the grain slides as the coin
    /// says.
    fn sand_element_fall(&mut self, x: usize, y: usize)
        requires
            old(self)@.wf(),
            old(self)@.inside(x as int, y as int),
            y + 1 < old(self)@.height,
        ensures
            final(self)@.wf(),
            final(self)@ == old(self)@.grain_step(x as int, y as int, false) || final(self)@ == old(
                self,
            )@.grain_step(x as int, y as int, true),
    {
        let i_bellow = self.index_at(x, y + 1);

        if self.array[i_bellow].kind == ElementKind::Empty {
            self.swap_elements_at((x, y), (x, y + 1));
            return ;
        }
        let flip = random_ratio(1, 2);
        self.slide_element_at(x, y, flip);
    }

    /// Copies every marked row from what comes next to what is shown, and
    /// clears the marks on the rows.
    fn synchronise(&mut self)
        requires
            old(self)@.wf(),
        ensures
            final(self)@.wf(),
            final(self)@ == old(self)@.synced(),
    {
        let ghost start = self@;
        proof {
            let keys = vstd::std_specs::hash::spec_hash_keys_iter(&self.updated_lines).remaining();
            assert(keys.unref().to_set() == start.dirty_rows);
            assert forall|j: int| 0 <= j < keys.len() implies start.dirty_rows.contains(
                *keys[j],
            ) by {
                assert(keys.unref()[j] == *keys[j]);
                assert(keys.unref().contains(*keys[j]));
            }
            assert forall|y: usize| start.dirty_rows.contains(y) implies exists|j: int|
                0 <= j < keys.len() && *(#[trigger] keys[j]) == y by {
                assert(keys.unref().contains(y));
                let j = choose|j: int| 0 <= j < keys.unref().len() && keys.unref()[j] == y;
                assert(*keys[j] == y);
            }
        }
        for line_ref in iter: self.updated_lines.iter()
            invariant
                start.wf(),
                self@ == (WorldView { shown: self@.shown, ..start }),
                self@.shown.len() == start.shown.len(),
                forall|j: int|
                    0 <= j < iter.seq().len() ==> start.dirty_rows.contains(*iter.seq()[j]),
                forall|y: usize|
                    start.dirty_rows.contains(y) ==> exists|j: int|
                        0 <= j < iter.seq().len() && *(#[trigger] iter.seq()[j]) == y,
                forall|x: int, y: int|
                    start.inside(x, y) && self@.shown[#[trigger] cell(start.width, x, y)]
                        != start.next[cell(start.width, x, y)] ==> exists|j: int|
                        iter.index() <= j < iter.seq().len() && *(#[trigger] iter.seq()[j]) == y,
        {
            let line = *line_ref;
            let ghost k = iter.index();
            let ghost row_start = self@;
            proof {
                lemma_cell_in_range(start.width, start.height, 0, line as int);
            }
            let i_start = line * self.width;
            let mut x: usize = 0;
            while x < self.width
                invariant
                    start.wf(),
                    line < start.height,
                    i_start == cell(start.width, 0, line as int),
                    i_start + start.width <= start.shown.len(),
                    x <= self.width,
                    self@ == (WorldView { shown: self@.shown, ..start }),
                    self@.shown.len() == start.shown.len(),
                    forall|x2: int, y2: int|
                        start.inside(x2, y2) && y2 != line ==> self@.shown[#[trigger] cell(
                            start.width,
                            x2,
                            y2,
                        )] == row_start.shown[cell(start.width, x2, y2)],
                    forall|x2: int|
                        0 <= x2 < x ==> self@.shown[#[trigger] cell(start.width, x2, line as int)]
                            == start.next[cell(start.width, x2, line as int)],
                decreases self.width - x,
            {
                let ghost before = self@;
                self.array[i_start + x] = self.next_array[i_start + x];
                proof {
                    assert forall|x2: int, y2: int|
                        start.inside(x2, y2) && y2 != line implies self@.shown[#[trigger] cell(
                        start.width,
                        x2,
                        y2,
                    )] == row_start.shown[cell(start.width, x2, y2)] by {
                        lemma_cell_in_range(start.width, start.height, x2, y2);
                        if cell(start.width, x2, y2) == i_start + x {
                            lemma_cell_injective(
                                start.width,
                                x2,
                                y2,
                                x as int,
                                line as int,
                            );
                        }
                    }
                    assert forall|x2: int| 0 <= x2 < x + 1 implies self@.shown[#[trigger] cell(
                        start.width,
                        x2,
                        line as int,
                    )] == start.next[cell(start.width, x2, line as int)] by {
                        lemma_cell_in_range(start.width, start.height, x2, line as int);
                    }
                }
                x += 1;
            }
            proof {
                assert forall|x2: int, y2: int|
                    start.inside(x2, y2) && self@.shown[#[trigger] cell(start.width, x2, y2)]
                        != start.next[cell(start.width, x2, y2)] implies exists|j: int|
                    k + 1 <= j < iter.seq().len() && *(#[trigger] iter.seq()[j]) == y2 by {
                    assert(y2 != line);
                    assert(row_start.shown[cell(start.width, x2, y2)] != start.next[cell(
                        start.width,
                        x2,
                        y2,
                    )]);
                    let j = choose|j: int|
                        k <= j < iter.seq().len() && *(#[trigger] iter.seq()[j]) == y2;
                    assert(j != k);
                }
            }
        }
        self.updated_lines.clear();
        proof {
            assert forall|i: int| 0 <= i < start.next.len() implies self@.shown[i]
                == start.next[i] by {
                start.lemma_index_is_cell(i);
                let x = i % (start.width as int);
                let y = i / (start.width as int);
                assert(self@.shown[cell(start.width, x, y)] == start.next[cell(start.width, x, y)]);
            }
            assert(self@.shown =~= start.next);
            start.lemma_synced_wf();
        }
    }

    /// Advances the simulation by one tick: what was deposited becomes
    /// visible, then every row but the bottom one is passed from the bottom
    /// upwards, each grain taking at most one step, and each row synchronised
    /// before the next is begun. Whatever the coins show, the outcome is the
    /// tick for some choice of one coin for each cell.
    pub fn fall(&mut self)
        requires
            old(self)@.wf(),
        ensures
            final(self)@.wf(),
            exists|flips: Seq<bool>|
                flips.len() == old(self)@.size() && final(self)@ == old(self)@.tick(flips),
            final(self)@.width == old(self)@.width,
            final(self)@.height == old(self)@.height,
            final(self)@.hue == old(self)@.hue,
            final(self)@.shown == final(self)@.next,
    {
        let ghost start = self@.synced();
        let ghost mut flips: Seq<bool> = Seq::new(self@.size(), |i: int| false);
        self.synchronise();
        let mut y: usize = self.height - 1;
        while y > 0
            invariant
                self@.wf(),
                start.wf(),
                self@.width == start.width,
                self@.height == start.height,
                y <= start.height - 1,
                flips.len() == start.width * start.height,
                self@ == start.rows_from(y as int, flips),
            decreases y,
        {
            y -= 1;
            let ghost row_start = self@;
            let mut x: usize = 0;
            while x < self.width
                invariant
                    self@.wf(),
                    start.wf(),
                    self@.width == start.width,
                    self@.height == start.height,
                    row_start.width == start.width,
                    y + 1 <= start.height - 1,
                    x <= start.width,
                    flips.len() == start.width * start.height,
                    row_start == start.rows_from(y + 1, flips),
                    self@ == row_start.row_pass(y as int, x as int, flips),
                decreases self.width - x,
            {
                let i = self.index_at(x, y);
                let ghost before = self@;
                if self.array[i].kind == ElementKind::Sand {
                    self.sand_element_fall(x, y);
                    proof {
                        let flip = self@ == before.grain_step(x as int, y as int, true);
                        start.lemma_coin_frame(row_start, x as int, y as int, flips, flip);
                        flips = flips.update(i as int, flip);
                        assert(self@ == before.visited(x as int, y as int, flips[i as int]));
                    }
                }
                assert(self@ == before.visited(
                    x as int,
                    y as int,
                    flips[cell(row_start.width, x as int, y as int)],
                ));
                x += 1;
            }
            self.synchronise();
        }
        proof {
            assert(self@ == old(self)@.tick(flips));
            old(self)@.lemma_tick_synchronised(flips);
        }
    }

    /// Lets the grain at `(x, y)` take its step with the coin given: straight
    /// down where the cell below is empty, else as `slide_element_at` does
    /// with `flip`.
    pub fn step_element_at(&mut self, x: usize, y: usize, flip: bool)
        requires
            old(self)@.wf(),
            old(self)@.inside(x as int, y as int),
            y + 1 < old(self)@.height,
        ensures
            final(self)@.wf(),
            final(self)@ == old(self)@.grain_step(x as int, y as int, flip),
    {
        let i_bellow = self.index_at(x, y + 1);
        if self.array[i_bellow].kind == ElementKind::Empty {
            self.swap_elements_at((x, y), (x, y + 1));
        } else {
            self.slide_element_at(x, y, flip);
        }
    }

    /// Advances the simulation by one tick with the coins given, one for each
    /// cell: the coin of a cell is the entry of `flips` at the cell's index.
    pub fn fall_with(&mut self, flips: &[bool])
        requires
            old(self)@.wf(),
            flips@.len() == old(self)@.size(),
        ensures
            final(self)@.wf(),
            final(self)@ == old(self)@.tick(flips@),
            final(self)@.width == old(self)@.width,
            final(self)@.height == old(self)@.height,
            final(self)@.hue == old(self)@.hue,
            final(self)@.shown == final(self)@.next,
    {
        let ghost start = self@.synced();
        self.synchronise();
        let mut y: usize = self.height - 1;
        while y > 0
            invariant
                self@.wf(),
                start.wf(),
                self@.width == start.width,
                self@.height == start.height,
                y <= start.height - 1,
                flips@.len() == start.width * start.height,
                self@ == start.rows_from(y as int, flips@),
            decreases y,
        {
            y -= 1;
            let ghost row_start = self@;
            let mut x: usize = 0;
            while x < self.width
                invariant
                    self@.wf(),
                    start.wf(),
                    self@.width == start.width,
                    self@.height == start.height,
                    row_start.width == start.width,
                    y + 1 <= start.height - 1,
                    x <= start.width,
                    flips@.len() == start.width * start.height,
                    self@ == row_start.row_pass(y as int, x as int, flips@),
                decreases self.width - x,
            {
                let i = self.index_at(x, y);
                let ghost before = self@;
                if self.array[i].kind == ElementKind::Sand {
                    self.step_element_at(x, y, flips[i]);
                }
                assert(self@ == before.visited(
                    x as int,
                    y as int,
                    flips@[cell(row_start.width, x as int, y as int)],
                ));
                x += 1;
            }
            self.synchronise();
        }
        proof {
            old(self)@.lemma_tick_synchronised(flips@);
        }
    }

    /// Paints every cell as it is shown: cell `i` takes the four bytes of
    /// pixel `i` of `frame`.
    pub fn show_all(&self, frame: &mut [u8])
        requires
            self@.wf(),
            old(frame)@.len() == 4 * self@.size(),
        ensures
            final(frame)@.len() == old(frame)@.len(),
            forall|i: int|
                0 <= i < self@.size() ==> painted(
                    final(frame)@,
                    i,
                    #[trigger] self@.shown[i].colour,
                ),
    {
        let mut i: usize = 0;
        while i < self.array.len()
            invariant
                self@.wf(),
                i <= self.array.len(),
                frame@.len() == 4 * self@.size(),
                forall|k: int| 0 <= k < i ==> painted(frame@, k, #[trigger] self@.shown[k].colour),
            decreases self.array.len() - i,
        {
            set_pixel(frame, i, self.array[i].colour);
            i += 1;
        }
    }

    /// Synchronises the whole grid and paints the cells that were written
    /// since the last painting, each as it is then shown; no other pixel is
    /// touched, and no index stays marked.
    pub fn show(&mut self, frame: &mut [u8])
        requires
            old(self)@.wf(),
            old(frame)@.len() == 4 * old(self)@.size(),
        ensures
            final(self)@.wf(),
            final(self)@ == old(self)@.presented(),
            final(frame)@.len() == old(frame)@.len(),
            forall|i: int|
                0 <= i < old(self)@.size() ==> #[trigger] repainted(
                    old(frame)@,
                    final(frame)@,
                    old(self)@.next,
                    old(self)@.dirty,
                    old(self)@.dirty.len() as int,
                    i,
                ),
    {
        self.copy_next();
        let ghost start = self@;
        let mut k: usize = 0;
        while k < self.updated_indexes.len()
            invariant
                self@ == start,
                start.wf(),
                start.shown == start.next,
                k <= self.updated_indexes.len(),
                frame@.len() == 4 * start.size(),
                forall|i: int|
                    0 <= i < start.size() ==> #[trigger] repainted(
                        old(frame)@,
                        frame@,
                        start.next,
                        start.dirty,
                        k as int,
                        i,
                    ),
            decreases self.updated_indexes.len() - k,
        {
            let updated_index = self.updated_indexes[k];
            let ghost before = frame@;
            assert(start.dirty[k as int] < start.next.len());
            set_pixel(frame, updated_index, self.array[updated_index].colour);
            proof {
                assert forall|i: int| 0 <= i < start.size() implies #[trigger] repainted(
                    old(frame)@,
                    frame@,
                    start.next,
                    start.dirty,
                    k + 1,
                    i,
                ) by {
                    assert(repainted(old(frame)@, before, start.next, start.dirty, k as int, i));
                    if i == updated_index {
                        assert(start.dirty[k as int] == i);
                    } else if marked(start.dirty, k as int, i) {
                        let j = choose|j: int|
                            0 <= j < k && j < start.dirty.len() && start.dirty[j] == i;
                        assert(start.dirty[j] == i);
                    } else {
                        assert(!marked(start.dirty, k + 1, i));
                    }
                }
            }
            k += 1;
        }
        self.updated_indexes.clear();
        proof {
            old(self)@.lemma_presented_wf();
            assert(start.dirty == old(self)@.dirty);
            assert(start.next == old(self)@.next);
            assert(start.size() == old(self)@.size());
        }
    }

    /// Copies the whole of what comes next to what is shown.
    fn copy_next(&mut self)
        requires
            old(self)@.wf(),
        ensures
            final(self)@ == (WorldView { shown: old(self)@.next, ..old(self)@ }),
            final(self)@.wf(),
    {
        self.array = self.next_array.clone();
        proof {
            assert(self@.shown =~= old(self)@.next);
            old(self)@.lemma_presented_wf();
        }
    }
}

} // verus!
