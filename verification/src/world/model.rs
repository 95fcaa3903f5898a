use vstd::prelude::*;
use crate::world::element::{Colour, Element, ElementKind};

verus! {

/// The linear index of the cell in column `x` of row `y`, in a grid `width` cells wide.
pub open spec fn cell(width: nat, x: int, y: int) -> int {
    y * width + x
}

/// Whether the four bytes of pixel `i` in `frame` are those of `colour`.
pub open spec fn painted(frame: Seq<u8>, i: int, colour: Colour) -> bool {
    &&& frame[4 * i] == colour.r
    &&& frame[4 * i + 1] == colour.g
    &&& frame[4 * i + 2] == colour.b
    &&& frame[4 * i + 3] == colour.a
}

/// Whether pixel `i` holds the same four bytes in both frames.
pub open spec fn same_pixel(before: Seq<u8>, after: Seq<u8>, i: int) -> bool {
    &&& after[4 * i] == before[4 * i]
    &&& after[4 * i + 1] == before[4 * i + 1]
    &&& after[4 * i + 2] == before[4 * i + 2]
    &&& after[4 * i + 3] == before[4 * i + 3]
}

/// Whether `i` is among the first `n` entries of `dirty`.
pub open spec fn marked(dirty: Seq<usize>, n: int, i: int) -> bool {
    exists|j: int| 0 <= j < n && j < dirty.len() && dirty[j] == i
}

/// What an incremental painting makes of pixel `i` once the first `n` entries
/// of `dirty` are done: a cell among them is painted as `cells` has it, and
/// any other pixel is as it was.
pub open spec fn repainted(
    before: Seq<u8>,
    after: Seq<u8>,
    cells: Seq<Element>,
    dirty: Seq<usize>,
    n: int,
    i: int,
) -> bool {
    if marked(dirty, n, i) {
        painted(after, i, cells[i].colour)
    } else {
        same_pixel(before, after, i)
    }
}

/// `frame` with the four bytes of pixel `i` set to those of `colour`.
pub open spec fn with_pixel(frame: Seq<u8>, i: int, colour: Colour) -> Seq<u8> {
    frame.update(4 * i, colour.r).update(4 * i + 1, colour.g).update(4 * i + 2, colour.b).update(
        4 * i + 3,
        colour.a,
    )
}

/// The number of grains of sand among the first `n` cells.
pub open spec fn sand_count(cells: Seq<Element>, n: int) -> nat
    decreases n,
{
    if n <= 0 {
        0
    } else {
        sand_count(cells, n - 1) + if cells[n - 1].kind == ElementKind::Sand {
            1nat
        } else {
            0nat
        }
    }
}

/// The simulation as a mathematical value.
pub struct WorldView {
    pub width: nat,
    pub height: nat,
    /// The grid as last synchronised: what decisions read and painting shows.
    pub shown: Seq<Element>,
    /// The grid as it will be: what moves and deposits write.
    pub next: Seq<Element>,
    /// The indexes written since the last incremental painting, in order.
    pub dirty: Seq<usize>,
    /// The rows written since the last synchronisation.
    pub dirty_rows: Set<usize>,
    /// The two diagonal offsets in the order in which they are tried:
    /// 0 stands for the left column, 2 for the right one.
    pub priority: (int, int),
    /// The hue of the next deposit, in degrees.
    pub hue: nat,
}

impl WorldView {
    /// The number of cells.
    pub open spec fn size(self) -> nat {
        self.width * self.height
    }

    /// Whether `(x, y)` is a cell of the grid.
    pub open spec fn inside(self, x: int, y: int) -> bool {
        0 <= x < self.width && 0 <= y < self.height
    }

    /// The validity of a simulation: the grid is not empty, both copies have
    /// its size, a frame of four bytes per cell can be indexed, and the two
    /// copies agree on every row that is not marked.
    pub open spec fn wf(self) -> bool {
        &&& self.width > 0
        &&& self.height > 0
        &&& 4 * (self.width * self.height) <= usize::MAX
        &&& self.shown.len() == self.width * self.height
        &&& self.next.len() == self.width * self.height
        &&& (self.priority == (0int, 2int) || self.priority == (2int, 0int))
        &&& self.hue < 360
        &&& forall|k: int| 0 <= k < self.dirty.len() ==> #[trigger] self.dirty[k] < self.next.len()
        &&& forall|y: usize| #[trigger] self.dirty_rows.contains(y) ==> y < self.height
        &&& forall|x: int, y: int|
            self.inside(x, y) && self.shown[#[trigger] cell(self.width, x, y)] != self.next[cell(
                self.width,
                x,
                y,
            )] ==> self.dirty_rows.contains(y as usize)
    }

    /// A new simulation: every cell empty, nothing marked, left tried first.
    pub open spec fn blank(width: nat, height: nat) -> WorldView {
        WorldView {
            width,
            height,
            shown: Seq::new(width * height, |i: int| Element::blank()),
            next: Seq::new(width * height, |i: int| Element::blank()),
            dirty: Seq::empty(),
            dirty_rows: Set::empty(),
            priority: (0, 2),
            hue: 0,
        }
    }

    /// The cell at `(x, y)` is given a new content, and marked.
    pub open spec fn changed(self, x: int, y: int, e: Element) -> WorldView {
        let i = cell(self.width, x, y);
        WorldView {
            next: self.next.update(i, e),
            dirty: self.dirty.push(i as usize),
            dirty_rows: self.dirty_rows.insert(y as usize),
            ..self
        }
    }

    /// A grain of the given colour is deposited at `(x, y)`, whatever was
    /// there, and the hue moves on by one degree round the wheel.
    pub open spec fn deposited(self, x: int, y: int, colour: Colour) -> WorldView {
        WorldView {
            hue: if self.hue + 1 >= 360 {
                0
            } else {
                self.hue + 1
            },
            ..self.changed(x, y, Element::grain(colour))
        }
    }

    /// The cells `a` and `b` exchange their contents: both are read from what is
    /// shown and written to what comes next, and both are marked.
    pub open spec fn swapped(self, a: (int, int), b: (int, int)) -> WorldView {
        let ia = cell(self.width, a.0, a.1);
        let ib = cell(self.width, b.0, b.1);
        WorldView {
            next: self.next.update(ia, self.shown[ib]).update(ib, self.shown[ia]),
            dirty: self.dirty.push(ia as usize).push(ib as usize),
            dirty_rows: self.dirty_rows.insert(a.1 as usize).insert(b.1 as usize),
            ..self
        }
    }

    /// What is shown catches up with what comes next; no row stays marked.
    pub open spec fn synced(self) -> WorldView {
        WorldView { shown: self.next, dirty_rows: Set::empty(), ..self }
    }

    /// The state after an incremental painting: shown and next agree, and no
    /// index stays marked.
    pub open spec fn presented(self) -> WorldView {
        WorldView { shown: self.next, dirty: Seq::empty(), ..self }
    }

    /// Whether the cell `(x, y)` is shown empty.
    pub open spec fn empty_at(self, x: int, y: int) -> bool {
        self.shown[cell(self.width, x, y)].kind == ElementKind::Empty
    }

    /// Whether the cell `(x, y)` is shown to hold a grain.
    pub open spec fn sand_at(self, x: int, y: int) -> bool {
        self.shown[cell(self.width, x, y)].kind == ElementKind::Sand
    }

    /// Whether the grain at `(x, y)` may fall diagonally by `offset`: the
    /// target column `x + offset - 1` lies in the grid and is empty both
    /// beside the grain and one row below.
    pub open spec fn can_slide(self, x: int, y: int, offset: int) -> bool {
        let tx = x + offset - 1;
        &&& 0 <= tx < self.width
        &&& self.empty_at(tx, y)
        &&& self.empty_at(tx, y + 1)
    }

    /// The order of the two diagonals, exchanged where the coin says so.
    pub open spec fn reordered(self, flip: bool) -> WorldView {
        if flip {
            WorldView { priority: (self.priority.1, self.priority.0), ..self }
        } else {
            self
        }
    }

    /// A grain at `(x, y)` that cannot fall straight down: the coin may
    /// exchange the order of the diagonals, and the grain takes the first of
    /// them that is free, or stays.
    pub open spec fn slid(self, x: int, y: int, flip: bool) -> WorldView {
        let s = self.reordered(flip);
        if s.can_slide(x, y, s.priority.0) {
            s.swapped((x, y), (x + s.priority.0 - 1, y + 1))
        } else if s.can_slide(x, y, s.priority.1) {
            s.swapped((x, y), (x + s.priority.1 - 1, y + 1))
        } else {
            s
        }
    }

    /// One grain's step: straight down where the cell below is empty, else
    /// diagonally as `slid` says. The coin is looked at only in the second case.
    pub open spec fn grain_step(self, x: int, y: int, flip: bool) -> WorldView {
        if self.empty_at(x, y + 1) {
            self.swapped((x, y), (x, y + 1))
        } else {
            self.slid(x, y, flip)
        }
    }

    /// One cell is visited: a grain takes its step, an empty cell is passed over.
    pub open spec fn visited(self, x: int, y: int, flip: bool) -> WorldView {
        if self.sand_at(x, y) {
            self.grain_step(x, y, flip)
        } else {
            self
        }
    }

    /// The first `n` cells of row `y` are visited from left to right. The coin
    /// of a cell is the entry of `flips` at the cell's index.
    pub open spec fn row_pass(self, y: int, n: int, flips: Seq<bool>) -> WorldView
        decreases n,
    {
        if n <= 0 {
            self
        } else {
            self.row_pass(y, n - 1, flips).visited(n - 1, y, flips[cell(self.width, n - 1, y)])
        }
    }

    /// The rows from the one above the bottom row up to row `y` are passed,
    /// each one synchronised before the next is begun.
    pub open spec fn rows_from(self, y: int, flips: Seq<bool>) -> WorldView
        decreases self.height - y,
    {
        if y >= self.height - 1 || y < 0 {
            self
        } else {
            self.rows_from(y + 1, flips).row_pass(y, self.width as int, flips).synced()
        }
    }

    /// One tick: what was deposited becomes visible, then every row but the
    /// bottom one is passed, from the bottom upwards.
    pub open spec fn tick(self, flips: Seq<bool>) -> WorldView {
        self.synced().rows_from(0, flips)
    }
}

impl WorldView {
    /// Pushing a bounded entry keeps a sequence's entries bounded.
    pub proof fn lemma_push_bounded(marks: Seq<usize>, mark: usize, bound: int)
        requires
            forall|k: int| 0 <= k < marks.len() ==> #[trigger] marks[k] < bound,
            mark < bound,
        ensures
            forall|k: int|
                0 <= k < marks.push(mark).len() ==> #[trigger] marks.push(mark)[k] < bound,
    {
        let pushed = marks.push(mark);
        assert forall|k: int| 0 <= k < pushed.len() implies #[trigger] pushed[k] < bound by {
            if k < marks.len() {
                assert(pushed[k] == marks[k]);
            }
        }
    }

    /// A change inside the grid keeps the simulation valid.
    pub proof fn lemma_changed_wf(self, x: int, y: int, e: Element)
        requires
            self.wf(),
            self.inside(x, y),
        ensures
            self.changed(x, y, e).wf(),
    {
        let after = self.changed(x, y, e);
        let i = cell(self.width, x, y);
        lemma_cell_in_range(self.width, self.height, x, y);
        Self::lemma_push_bounded(self.dirty, i as usize, self.next.len() as int);
        assert forall|x2: int, y2: int|
            after.inside(x2, y2) && after.shown[#[trigger] cell(after.width, x2, y2)]
                != after.next[cell(after.width, x2, y2)] implies after.dirty_rows.contains(
            y2 as usize,
        ) by {
            lemma_cell_in_range(self.width, self.height, x2, y2);
            if cell(self.width, x2, y2) == i {
                lemma_cell_injective(self.width, x2, y2, x, y);
            } else {
                assert(self.dirty_rows.contains(y2 as usize));
            }
        }
    }

    /// A deposit inside the grid keeps the simulation valid.
    pub proof fn lemma_deposited_wf(self, x: int, y: int, colour: Colour)
        requires
            self.wf(),
            self.inside(x, y),
        ensures
            self.deposited(x, y, colour).wf(),
    {
        let mid = self.changed(x, y, Element::grain(colour));
        let after = self.deposited(x, y, colour);
        self.lemma_changed_wf(x, y, Element::grain(colour));
        assert forall|k: int| 0 <= k < after.dirty.len() implies #[trigger] after.dirty[k]
            < after.next.len() by {
            assert(mid.dirty[k] < mid.next.len());
        }
        assert forall|x2: int, y2: int|
            after.inside(x2, y2) && after.shown[#[trigger] cell(after.width, x2, y2)]
                != after.next[cell(after.width, x2, y2)] implies after.dirty_rows.contains(
            y2 as usize,
        ) by {
            assert(mid.inside(x2, y2));
        }
    }

    /// An exchange of two cells of the grid keeps the simulation valid.
    pub proof fn lemma_swapped_wf(self, a: (int, int), b: (int, int))
        requires
            self.wf(),
            self.inside(a.0, a.1),
            self.inside(b.0, b.1),
        ensures
            self.swapped(a, b).wf(),
    {
        let after = self.swapped(a, b);
        let ia = cell(self.width, a.0, a.1);
        let ib = cell(self.width, b.0, b.1);
        lemma_cell_in_range(self.width, self.height, a.0, a.1);
        lemma_cell_in_range(self.width, self.height, b.0, b.1);
        Self::lemma_push_bounded(self.dirty, ia as usize, self.next.len() as int);
        Self::lemma_push_bounded(self.dirty.push(ia as usize), ib as usize, self.next.len() as int);
        assert forall|x2: int, y2: int|
            after.inside(x2, y2) && after.shown[#[trigger] cell(after.width, x2, y2)]
                != after.next[cell(after.width, x2, y2)] implies after.dirty_rows.contains(
            y2 as usize,
        ) by {
            lemma_cell_in_range(self.width, self.height, x2, y2);
            if cell(self.width, x2, y2) == ia {
                lemma_cell_injective(self.width, x2, y2, a.0, a.1);
            } else if cell(self.width, x2, y2) == ib {
                lemma_cell_injective(self.width, x2, y2, b.0, b.1);
            } else {
                assert(self.dirty_rows.contains(y2 as usize));
            }
        }
    }
}

impl WorldView {
    /// A visit keeps the grid's width and height.
    pub proof fn lemma_visited_dims(self, x: int, y: int, flip: bool)
        ensures
            self.visited(x, y, flip).width == self.width,
            self.visited(x, y, flip).height == self.height,
    {
    }

    /// A pass over a row keeps the grid's width and height.
    pub proof fn lemma_row_pass_dims(self, y: int, n: int, flips: Seq<bool>)
        ensures
            self.row_pass(y, n, flips).width == self.width,
            self.row_pass(y, n, flips).height == self.height,
        decreases n,
    {
        if n > 0 {
            self.lemma_row_pass_dims(y, n - 1, flips);
            self.row_pass(y, n - 1, flips).lemma_visited_dims(
                n - 1,
                y,
                flips[cell(self.width, n - 1, y)],
            );
        }
    }

    /// The passes over the rows keep the grid's width and height.
    pub proof fn lemma_rows_from_dims(self, y: int, flips: Seq<bool>)
        ensures
            self.rows_from(y, flips).width == self.width,
            self.rows_from(y, flips).height == self.height,
        decreases self.height - y,
    {
        if 0 <= y < self.height - 1 {
            self.lemma_rows_from_dims(y + 1, flips);
            self.rows_from(y + 1, flips).lemma_row_pass_dims(y, self.width as int, flips);
        }
    }

    /// A pass over the first `n` cells of a row looks at no coin but theirs.
    pub proof fn lemma_row_pass_frame(self, y: int, n: int, f1: Seq<bool>, f2: Seq<bool>)
        requires
            forall|x: int|
                0 <= x < n ==> f1[#[trigger] cell(self.width, x, y)] == f2[cell(self.width, x, y)],
        ensures
            self.row_pass(y, n, f1) == self.row_pass(y, n, f2),
        decreases n,
    {
        if n > 0 {
            self.lemma_row_pass_frame(y, n - 1, f1, f2);
            assert(f1[cell(self.width, n - 1, y)] == f2[cell(self.width, n - 1, y)]);
        }
    }

    /// The passes over the rows from `y` downwards look at no coin but those
    /// of these rows.
    pub proof fn lemma_rows_from_frame(self, y: int, f1: Seq<bool>, f2: Seq<bool>)
        requires
            forall|x: int, r: int|
                0 <= x < self.width && y <= r < self.height - 1 ==> f1[#[trigger] cell(
                    self.width,
                    x,
                    r,
                )] == f2[cell(self.width, x, r)],
        ensures
            self.rows_from(y, f1) == self.rows_from(y, f2),
        decreases self.height - y,
    {
        if 0 <= y < self.height - 1 {
            self.lemma_rows_from_frame(y + 1, f1, f2);
            let below = self.rows_from(y + 1, f1);
            self.lemma_rows_from_dims(y + 1, f1);
            assert forall|x: int| 0 <= x < self.width implies f1[#[trigger] cell(below.width, x, y)]
                == f2[cell(below.width, x, y)] by {
                assert(f1[cell(self.width, x, y)] == f2[cell(self.width, x, y)]);
            }
            below.lemma_row_pass_frame(y, self.width as int, f1, f2);
        }
    }

    /// A coin set for the cell `(x, y)` is of no account to a pass over the
    /// cells to its left, nor to the passes over the rows below.
    pub proof fn lemma_coin_frame(
        self,
        row_start: WorldView,
        x: int,
        y: int,
        flips: Seq<bool>,
        flip: bool,
    )
        requires
            self.width > 0,
            row_start.width == self.width,
            0 <= x < self.width,
            0 <= y < self.height,
            flips.len() == self.width * self.height,
        ensures
            row_start.row_pass(y, x, flips.update(cell(self.width, x, y), flip))
                == row_start.row_pass(y, x, flips),
            self.rows_from(y + 1, flips.update(cell(self.width, x, y), flip)) == self.rows_from(
                y + 1,
                flips,
            ),
    {
        let i = cell(self.width, x, y);
        let f2 = flips.update(i, flip);
        lemma_cell_in_range(self.width, self.height, x, y);
        assert forall|x2: int| 0 <= x2 < x implies flips[#[trigger] cell(self.width, x2, y)]
            == f2[cell(self.width, x2, y)] by {
            lemma_cell_in_range(self.width, self.height, x2, y);
            assert(cell(self.width, x2, y) != i);
        }
        row_start.lemma_row_pass_frame(y, x, flips, f2);
        assert forall|x2: int, r: int|
            0 <= x2 < self.width && y + 1 <= r < self.height - 1 implies flips[#[trigger] cell(
            self.width,
            x2,
            r,
        )] == f2[cell(self.width, x2, r)] by {
            lemma_cell_in_range(self.width, self.height, x2, r);
            if cell(self.width, x2, r) == i {
                lemma_cell_injective(self.width, x2, r, x, y);
            }
        }
        self.lemma_rows_from_frame(y + 1, flips, f2);
    }

    /// Every index of the grid is the index of a cell.
    pub proof fn lemma_index_is_cell(self, i: int)
        requires
            self.width > 0,
            0 <= i < self.width * self.height,
        ensures
            self.inside(i % (self.width as int), i / (self.width as int)),
            cell(self.width, i % (self.width as int), i / (self.width as int)) == i,
    {
        let w = self.width as int;
        let h = self.height as int;
        vstd::arithmetic::div_mod::lemma_fundamental_div_mod(i, w);
        vstd::arithmetic::div_mod::lemma_mod_bound(i, w);
        vstd::arithmetic::div_mod::lemma_div_pos_is_pos(i, w);
        assert(i / w < h) by (nonlinear_arith)
            requires
                0 <= i < w * h,
                w > 0,
                i == w * (i / w) + i % w,
                0 <= i % w < w,
        ;
        assert(w * (i / w) == (i / w) * w) by (nonlinear_arith);
    }

    /// Exchanging the order of the diagonals keeps the simulation valid.
    pub proof fn lemma_reordered_wf(self, flip: bool)
        requires
            self.wf(),
        ensures
            self.reordered(flip).wf(),
    {
        let after = self.reordered(flip);
        assert forall|k: int| 0 <= k < after.dirty.len() implies #[trigger] after.dirty[k]
            < after.next.len() by {
            assert(self.dirty[k] < self.next.len());
        }
    }

    /// A full synchronisation keeps the simulation valid, with the marked
    /// indexes kept or dropped.
    pub proof fn lemma_presented_wf(self)
        requires
            self.wf(),
        ensures
            self.presented().wf(),
            (WorldView { shown: self.next, ..self }).wf(),
    {
        let after = WorldView { shown: self.next, ..self };
        assert forall|k: int| 0 <= k < after.dirty.len() implies #[trigger] after.dirty[k]
            < after.next.len() by {
            assert(self.dirty[k] < self.next.len());
        }
    }

    /// Synchronising keeps the simulation valid.
    pub proof fn lemma_synced_wf(self)
        requires
            self.wf(),
        ensures
            self.synced().wf(),
    {
        let after = self.synced();
        assert forall|k: int| 0 <= k < after.dirty.len() implies #[trigger] after.dirty[k]
            < after.next.len() by {
            assert(self.dirty[k] < self.next.len());
        }
    }
}

/// A cell of the grid has an index below the grid's size.
pub proof fn lemma_cell_in_range(width: nat, height: nat, x: int, y: int)
    requires
        0 <= x < width,
        0 <= y < height,
    ensures
        0 <= cell(width, x, y) < width * height,
        y * width >= 0,
        y * width + width <= width * height,
        (y + 1) * width == y * width + width,
{
    assert(0 <= y * width && y * width + width <= width * height && (y + 1) * width == y * width
        + width) by (nonlinear_arith)
        requires
            0 <= y < height,
            0 <= x < width,
    ;
}

/// Two cells with one index are one cell.
pub proof fn lemma_cell_injective(width: nat, x1: int, y1: int, x2: int, y2: int)
    requires
        0 <= x1 < width,
        0 <= x2 < width,
        0 <= y1,
        0 <= y2,
        cell(width, x1, y1) == cell(width, x2, y2),
    ensures
        x1 == x2,
        y1 == y2,
{
    assert(y1 == y2) by (nonlinear_arith)
        requires
            0 <= x1 < width,
            0 <= x2 < width,
            y1 * width + x1 == y2 * width + x2,
    ;
}

} // verus!
