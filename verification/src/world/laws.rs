use vstd::prelude::*;
use crate::world::element::{Element, ElementKind};
use crate::world::model::{
    cell, lemma_cell_in_range, lemma_cell_injective, sand_count, WorldView,
};

verus! {

/// Whether `e` is a grain that stood in row `y` of `cells`, in column `x` or
/// in one of the two columns beside it.
pub open spec fn arrived(cells: Seq<Element>, width: nat, e: Element, x: int, y: int) -> bool {
    &&& e.kind == ElementKind::Sand
    &&& exists|sx: int|
        x - 1 <= sx <= x + 1 && 0 <= sx < width && #[trigger] cells[cell(width, sx, y)] == e
}

/// Whether the sequence `longer` begins with `shorter`.
pub open spec fn extends(shorter: Seq<usize>, longer: Seq<usize>) -> bool {
    &&& shorter.len() <= longer.len()
    &&& forall|k: int| 0 <= k < shorter.len() ==> #[trigger] longer[k] == shorter[k]
}

/// What is marked stays marked in a sequence that extends the first.
pub proof fn lemma_extends_contains(shorter: Seq<usize>, longer: Seq<usize>, mark: usize)
    requires
        extends(shorter, longer),
        shorter.contains(mark),
    ensures
        longer.contains(mark),
{
    let k = choose|k: int| 0 <= k < shorter.len() && shorter[k] == mark;
    assert(longer[k] == mark);
}

impl WorldView {
    /// The column to which a visit of `(x, y)` moves what is there, if it
    /// moves it: that of the cell itself where the cell below is empty, else
    /// that of the first free diagonal in the order that the coin settles.
    pub open spec fn destination(self, x: int, y: int, flip: bool) -> Option<int> {
        let s = self.reordered(flip);
        if !self.sand_at(x, y) {
            None
        } else if self.empty_at(x, y + 1) {
            Some(x)
        } else if s.can_slide(x, y, s.priority.0) {
            Some(x + s.priority.0 - 1)
        } else if s.can_slide(x, y, s.priority.1) {
            Some(x + s.priority.1 - 1)
        } else {
            None
        }
    }

    /// Whether a visit of `(x, y)` looks at its coin: a grain is there and
    /// cannot fall straight down.
    pub open spec fn coin_used(self, x: int, y: int) -> bool {
        self.sand_at(x, y) && !self.empty_at(x, y + 1)
    }

    /// The state in which a visit of `(x, y)` makes its move, if any: the
    /// order of the diagonals is exchanged where the coin is used and set.
    pub open spec fn ordered_for(self, x: int, y: int, flip: bool) -> WorldView {
        if self.coin_used(x, y) {
            self.reordered(flip)
        } else {
            self
        }
    }

    /// A visit exchanges the cell with its destination, or changes no cell.
    /// A destination is a cell of the next row, in the same column or in one
    /// beside it, and is shown empty.
    pub proof fn lemma_visited_cases(self, x: int, y: int, flip: bool)
        requires
            self.wf(),
            self.inside(x, y),
            y + 1 < self.height,
        ensures
            self.visited(x, y, flip) == (match self.destination(x, y, flip) {
                Some(tx) => self.ordered_for(x, y, flip).swapped((x, y), (tx, y + 1)),
                None => self.ordered_for(x, y, flip),
            }),
            match self.destination(x, y, flip) {
                Some(tx) => x - 1 <= tx <= x + 1 && 0 <= tx < self.width && self.sand_at(x, y)
                    && self.empty_at(tx, y + 1),
                None => true,
            },
    {
    }
}

/// What a pass over the first `n` cells of row `y` has made of the cell
/// `(x, r)` of the synchronised grid `g`: a cell of row `y` is as it was, or
/// a visited grain has left it empty; a cell of the row below is as it was, or
/// was empty and holds a grain that arrived from row `y`; any other cell is as
/// it was. A cell that differs is marked.
pub open spec fn cell_after_pass(
    g: WorldView,
    p: WorldView,
    x: int,
    r: int,
    y: int,
    n: int,
) -> bool {
    let c = cell(g.width, x, r);
    if r == y {
        p.next[c] == g.next[c] || (x < n && g.next[c].kind == ElementKind::Sand && p.next[c].kind
            == ElementKind::Empty && p.dirty.contains(c as usize))
    } else if r == y + 1 {
        p.next[c] == g.next[c] || (g.next[c].kind == ElementKind::Empty && p.dirty.contains(
            c as usize,
        ) && arrived(g.next, g.width, p.next[c], x, y))
    } else {
        p.next[c] == g.next[c]
    }
}

/// Whether the index `i`, marked by a pass over row `y`, names a cell of that
/// row that held a grain, or a cell of the row below that holds one.
pub open spec fn mark_of_pass(g: WorldView, p: WorldView, i: int, y: int) -> bool {
    let r = i / (g.width as int);
    (r == y && g.next[i].kind == ElementKind::Sand) || (r == y + 1 && p.next[i].kind
        == ElementKind::Sand)
}

/// The cell `(x, y)` has an index whose row is `y`.
pub proof fn lemma_cell_row(width: nat, x: int, y: int)
    requires
        0 <= x < width,
    ensures
        cell(width, x, y) / (width as int) == y,
{
    vstd::arithmetic::div_mod::lemma_fundamental_div_mod_converse(
        cell(width, x, y),
        width as int,
        y,
        x,
    );
}

/// What a pass over the first `n` cells of row `y` has made of the
/// synchronised grid `g`.
pub open spec fn passed(g: WorldView, p: WorldView, y: int, n: int) -> bool {
    &&& p.wf()
    &&& p.width == g.width
    &&& p.height == g.height
    &&& p.shown == g.shown
    &&& p.hue == g.hue
    &&& extends(g.dirty, p.dirty)
    &&& forall|x: int, r: int| g.inside(x, r) ==> #[trigger] cell_after_pass(g, p, x, r, y, n)
    &&& forall|k: int|
        g.dirty.len() <= k < p.dirty.len() ==> mark_of_pass(g, p, #[trigger] p.dirty[k] as int, y)
}

impl WorldView {
    /// A pass over a row of a synchronised grid moves grains of that row to
    /// empty cells of the row below, each by one column at most, and marks
    /// what it changes; it changes nothing else.
    pub proof fn lemma_row_pass(self, y: int, n: int, flips: Seq<bool>)
        requires
            self.wf(),
            self.shown == self.next,
            0 <= y < self.height - 1,
            0 <= n <= self.width,
        ensures
            passed(self, self.row_pass(y, n, flips), y, n),
        decreases n,
    {
        if n <= 0 {
            let p = self.row_pass(y, n, flips);
            assert forall|x: int, r: int| self.inside(x, r) implies #[trigger] cell_after_pass(
                self,
                p,
                x,
                r,
                y,
                n,
            ) by {}
        } else {
            self.lemma_row_pass(y, n - 1, flips);
            let q = self.row_pass(y, n - 1, flips);
            let flip = flips[cell(self.width, n - 1, y)];
            let p = q.visited(n - 1, y, flip);
            q.lemma_visited_cases(n - 1, y, flip);
            let s = q.ordered_for(n - 1, y, flip);
            q.lemma_reordered_wf(flip);
            match q.destination(n - 1, y, flip) {
                Some(tx) => {
                    let ia = cell(self.width, n - 1, y);
                    let ib = cell(self.width, tx, y + 1);
                    s.lemma_swapped_wf((n - 1, y), (tx, y + 1));
                    lemma_cell_in_range(self.width, self.height, n - 1, y);
                    lemma_cell_in_range(self.width, self.height, tx, y + 1);
                    if ia == ib {
                        lemma_cell_injective(self.width, n - 1, y, tx, y + 1);
                    }
                    assert(p.dirty == q.dirty.push(ia as usize).push(ib as usize));
                    assert(p.dirty[q.dirty.len() as int] == ia as usize);
                    assert(p.dirty[q.dirty.len() as int + 1] == ib as usize);
                    assert(extends(q.dirty, p.dirty));
                    assert(self.next[cell(self.width, n - 1, y)] == p.next[ib]);
                    assert forall|x: int, r: int|
                        self.inside(x, r) implies #[trigger] cell_after_pass(
                        self,
                        p,
                        x,
                        r,
                        y,
                        n,
                    ) by {
                        let c = cell(self.width, x, r);
                        lemma_cell_in_range(self.width, self.height, x, r);
                        assert(cell_after_pass(self, q, x, r, y, n - 1));
                        if c == ia {
                            lemma_cell_injective(self.width, x, r, n - 1, y);
                        } else if c == ib {
                            lemma_cell_injective(self.width, x, r, tx, y + 1);
                        } else {
                            assert(p.next[c] == q.next[c]);
                            if q.dirty.contains(c as usize) {
                                lemma_extends_contains(q.dirty, p.dirty, c as usize);
                            }
                        }
                    }
                    assert forall|k: int|
                        self.dirty.len() <= k < p.dirty.len() implies mark_of_pass(
                        self,
                        p,
                        #[trigger] p.dirty[k] as int,
                        y,
                    ) by {
                        let i = p.dirty[k] as int;
                        lemma_cell_row(self.width, n - 1, y);
                        lemma_cell_row(self.width, tx, y + 1);
                        if k < q.dirty.len() {
                            assert(p.dirty[k] == q.dirty[k]);
                            assert(mark_of_pass(self, q, q.dirty[k] as int, y));
                        }
                    }
                },
                None => {
                    assert forall|x: int, r: int|
                        self.inside(x, r) implies #[trigger] cell_after_pass(
                        self,
                        p,
                        x,
                        r,
                        y,
                        n,
                    ) by {
                        assert(cell_after_pass(self, q, x, r, y, n - 1));
                    }
                    assert forall|k: int|
                        self.dirty.len() <= k < p.dirty.len() implies mark_of_pass(
                        self,
                        p,
                        #[trigger] p.dirty[k] as int,
                        y,
                    ) by {
                        assert(mark_of_pass(self, q, q.dirty[k] as int, y));
                    }
                },
            }
        }
    }
}


/// What the passes over the rows from the one above the bottom row up to row
/// `y` have made of the cell `(x, r)` of the synchronised grid `s`.
pub open spec fn cell_after_rows(s: WorldView, t: WorldView, x: int, r: int, y: int) -> bool {
    let c = cell(s.width, x, r);
    &&& t.next[c] != s.next[c] ==> t.dirty.contains(c as usize)
    &&& r < y ==> t.next[c] == s.next[c]
    &&& r == y ==> t.next[c] == s.next[c] || t.next[c].kind == ElementKind::Empty
    &&& r > y && t.next[c].kind == ElementKind::Sand ==> t.next[c] == s.next[c] || arrived(
        s.next,
        s.width,
        t.next[c],
        x,
        r - 1,
    )
    &&& r == s.height - 1 && s.next[c].kind == ElementKind::Sand ==> t.next[c] == s.next[c]
}

/// Whether the index `i`, marked by the passes over the rows down from row
/// `y`, names a cell that held a grain before them, or a cell below row `y`
/// that holds one.
pub open spec fn mark_of_rows(s: WorldView, t: WorldView, i: int, y: int) -> bool {
    s.next[i].kind == ElementKind::Sand || (t.next[i].kind == ElementKind::Sand && i / (
        s.width as int) > y)
}

/// What the passes over the rows from the one above the bottom row up to row
/// `y` have made of the synchronised grid `s`.
pub open spec fn rows_passed(s: WorldView, t: WorldView, y: int) -> bool {
    &&& t.wf()
    &&& t.width == s.width
    &&& t.height == s.height
    &&& t.shown == t.next
    &&& t.hue == s.hue
    &&& (t.dirty_rows == s.dirty_rows || t.dirty_rows == Set::<usize>::empty())
    &&& extends(s.dirty, t.dirty)
    &&& forall|x: int, r: int| s.inside(x, r) ==> #[trigger] cell_after_rows(s, t, x, r, y)
    &&& forall|k: int|
        s.dirty.len() <= k < t.dirty.len() ==> mark_of_rows(s, t, #[trigger] t.dirty[k] as int, y)
}

impl WorldView {
    /// The passes over the rows leave every grain where it stood or one row
    /// lower and at most one column aside, leave the rows above untouched,
    /// leave the grains of the bottom row alone, and mark what they change.
    pub proof fn lemma_rows_from(self, y: int, flips: Seq<bool>)
        requires
            self.wf(),
            self.shown == self.next,
            0 <= y <= self.height - 1,
        ensures
            rows_passed(self, self.rows_from(y, flips), y),
        decreases self.height - y,
    {
        if y >= self.height - 1 {
            let t = self.rows_from(y, flips);
            assert forall|x: int, r: int| self.inside(x, r) implies #[trigger] cell_after_rows(
                self,
                t,
                x,
                r,
                y,
            ) by {}
        } else {
            self.lemma_rows_from(y + 1, flips);
            let q = self.rows_from(y + 1, flips);
            q.lemma_row_pass(y, self.width as int, flips);
            let p = q.row_pass(y, self.width as int, flips);
            p.lemma_synced_wf();
            let t = p.synced();
            assert(t == self.rows_from(y, flips));
            assert forall|k: int| 0 <= k < self.dirty.len() implies #[trigger] t.dirty[k]
                == self.dirty[k] by {
                assert(q.dirty[k] == self.dirty[k]);
                assert(p.dirty[k] == q.dirty[k]);
            }
            assert forall|x: int, r: int| self.inside(x, r) implies #[trigger] cell_after_rows(
                self,
                t,
                x,
                r,
                y,
            ) by {
                let c = cell(self.width, x, r);
                lemma_cell_in_range(self.width, self.height, x, r);
                assert(cell_after_rows(self, q, x, r, y + 1));
                assert(cell_after_pass(q, p, x, r, y, self.width as int));
                if q.dirty.contains(c as usize) {
                    lemma_extends_contains(q.dirty, p.dirty, c as usize);
                }
                if r == y + 1 && p.next[c] != q.next[c] {
                    let sx = choose|sx: int|
                        x - 1 <= sx <= x + 1 && 0 <= sx < q.width && #[trigger] q.next[cell(
                            q.width,
                            sx,
                            y,
                        )] == p.next[c];
                    assert(cell_after_rows(self, q, sx, y, y + 1));
                    assert(self.next[cell(self.width, sx, y)] == t.next[c]);
                }
            }
            assert forall|k: int| self.dirty.len() <= k < t.dirty.len() implies mark_of_rows(
                self,
                t,
                #[trigger] t.dirty[k] as int,
                y,
            ) by {
                let i = t.dirty[k] as int;
                assert(p.dirty[k] < p.next.len());
                self.lemma_index_is_cell(i);
                let x = i % (self.width as int);
                let r = i / (self.width as int);
                assert(cell_after_rows(self, q, x, r, y + 1));
                assert(cell_after_pass(q, p, x, r, y, self.width as int));
                if k < q.dirty.len() {
                    assert(p.dirty[k] == q.dirty[k]);
                    assert(mark_of_rows(self, q, q.dirty[k] as int, y + 1));
                } else {
                    assert(mark_of_pass(q, p, p.dirty[k] as int, y));
                }
            }
        }
    }

    /// A tick leaves a valid simulation of the same size and hue, in which
    /// what is shown is what comes next and no row is marked.
    pub proof fn lemma_tick_synchronised(self, flips: Seq<bool>)
        requires
            self.wf(),
        ensures
            self.tick(flips).wf(),
            self.tick(flips).width == self.width,
            self.tick(flips).height == self.height,
            self.tick(flips).hue == self.hue,
            self.tick(flips).shown == self.tick(flips).next,
            self.tick(flips).dirty_rows == Set::<usize>::empty(),
    {
        self.lemma_synced_wf();
        self.synced().lemma_rows_from(0, flips);
    }

    /// No grain moves more than one step in a tick: a grain that a cell holds
    /// after the tick stood there before it, or stood one row higher in the
    /// same column or in one beside it.
    pub proof fn lemma_single_step(self, flips: Seq<bool>, x: int, y: int)
        requires
            self.wf(),
            self.inside(x, y),
            self.tick(flips).next[cell(self.width, x, y)].kind == ElementKind::Sand,
        ensures
            self.tick(flips).next[cell(self.width, x, y)] == self.next[cell(self.width, x, y)] || (y
                > 0 && arrived(
                self.next,
                self.width,
                self.tick(flips).next[cell(self.width, x, y)],
                x,
                y - 1,
            )),
    {
        self.lemma_synced_wf();
        self.synced().lemma_rows_from(0, flips);
        assert(cell_after_rows(self.synced(), self.tick(flips), x, y, 0));
    }

    /// A grain of the bottom row stays where it is, whatever its neighbours.
    pub proof fn lemma_bottom_row_stays(self, flips: Seq<bool>, x: int)
        requires
            self.wf(),
            0 <= x < self.width,
            self.next[cell(self.width, x, self.height - 1)].kind == ElementKind::Sand,
        ensures
            self.tick(flips).next[cell(self.width, x, self.height - 1)] == self.next[cell(
                self.width,
                x,
                self.height - 1,
            )],
    {
        self.lemma_synced_wf();
        self.synced().lemma_rows_from(0, flips);
        assert(cell_after_rows(self.synced(), self.tick(flips), x, self.height - 1, 0));
    }

    /// A tick marks no cell that is empty both before and after it: the index
    /// at every place that the tick adds to the marks names a cell that a grain
    /// has left or that holds one.
    pub proof fn lemma_marks_are_moves(self, flips: Seq<bool>, k: int)
        requires
            self.wf(),
            self.dirty.len() <= k < self.tick(flips).dirty.len(),
        ensures
            self.next[self.tick(flips).dirty[k] as int].kind == ElementKind::Sand
                || self.tick(flips).next[self.tick(flips).dirty[k] as int].kind
                == ElementKind::Sand,
    {
        self.lemma_synced_wf();
        self.synced().lemma_rows_from(0, flips);
        assert(mark_of_rows(self.synced(), self.tick(flips), self.tick(flips).dirty[k] as int, 0));
    }

    /// After a tick every cell that differs from what it was before the tick
    /// is marked, and what was marked before is still marked, in its order.
    pub proof fn lemma_dirty_complete(self, flips: Seq<bool>, i: int)
        requires
            self.wf(),
            0 <= i < self.size(),
            self.tick(flips).next[i] != self.next[i],
        ensures
            self.tick(flips).dirty.contains(i as usize),
            extends(self.dirty, self.tick(flips).dirty),
    {
        self.lemma_synced_wf();
        self.synced().lemma_rows_from(0, flips);
        self.lemma_index_is_cell(i);
        let x = i % (self.width as int);
        let y = i / (self.width as int);
        assert(cell_after_rows(self.synced(), self.tick(flips), x, y, 0));
    }
}


impl WorldView {
    /// Whether what the cell `(x, y)` shows cannot move: it is no grain, or
    /// the cell below is taken and neither diagonal is free.
    pub open spec fn at_rest(self, x: int, y: int) -> bool {
        self.sand_at(x, y) ==> !self.empty_at(x, y + 1) && !self.can_slide(x, y, 0)
            && !self.can_slide(x, y, 2)
    }

    /// Whether nothing that the grid shows above the bottom row can move.
    pub open spec fn settled(self) -> bool {
        forall|x: int, y: int|
            0 <= x < self.width && 0 <= y < self.height - 1 ==> #[trigger] self.at_rest(x, y)
    }

    /// Whether `self` is `other` with the diagonals in some order.
    pub open spec fn same_cells(self, other: WorldView) -> bool {
        &&& self == (WorldView { priority: self.priority, ..other })
        &&& (self.priority == (0int, 2int) || self.priority == (2int, 0int))
    }

    /// A pass over a row in which nothing can move changes no cell and marks
    /// nothing.
    pub proof fn lemma_row_pass_at_rest(self, y: int, n: int, flips: Seq<bool>)
        requires
            self.wf(),
            0 <= y < self.height - 1,
            0 <= n <= self.width,
            forall|x: int| 0 <= x < n ==> #[trigger] self.at_rest(x, y),
        ensures
            self.row_pass(y, n, flips).same_cells(self),
        decreases n,
    {
        if n > 0 {
            self.lemma_row_pass_at_rest(y, n - 1, flips);
            let q = self.row_pass(y, n - 1, flips);
            assert(self.at_rest(n - 1, y));
            assert(q.shown == self.shown);
        }
    }

    /// The passes over the rows of a settled grid change no cell and mark
    /// nothing.
    pub proof fn lemma_rows_from_settled(self, y: int, flips: Seq<bool>)
        requires
            self.wf(),
            self.shown == self.next,
            self.dirty_rows == Set::<usize>::empty(),
            self.settled(),
            0 <= y <= self.height - 1,
        ensures
            self.rows_from(y, flips).same_cells(self),
        decreases self.height - y,
    {
        if y < self.height - 1 {
            self.lemma_rows_from_settled(y + 1, flips);
            let q = self.rows_from(y + 1, flips);
            assert(q.wf()) by {
                self.lemma_rows_from(y + 1, flips);
            }
            assert forall|x: int| 0 <= x < q.width implies #[trigger] q.at_rest(x, y) by {
                assert(self.at_rest(x, y));
            }
            q.lemma_row_pass_at_rest(y, self.width as int, flips);
            let p = q.row_pass(y, self.width as int, flips);
            assert(p.synced() == (WorldView { priority: p.priority, ..self }));
        }
    }

    /// A tick leaves a settled grid as it is: no cell changes, and nothing is
    /// marked. Only the order of the diagonals may differ.
    pub proof fn lemma_settled_is_fixed(self, flips: Seq<bool>)
        requires
            self.wf(),
            self.synced().settled(),
        ensures
            self.tick(flips).same_cells(self.synced()),
            self.tick(flips).next == self.next,
            self.tick(flips).dirty == self.dirty,
    {
        self.lemma_synced_wf();
        self.synced().lemma_rows_from_settled(0, flips);
    }

    /// At the left edge a sliding grain can go to the right only, at the
    /// right edge to the left only, whatever the order of the diagonals.
    pub proof fn lemma_slide_at_edge(self, x: int, y: int, flip: bool)
        requires
            self.wf(),
            self.inside(x, y),
            y + 1 < self.height,
        ensures
            x == 0 ==> self.slid(x, y, flip) == (if self.can_slide(x, y, 2) {
                self.reordered(flip).swapped((x, y), (x + 1, y + 1))
            } else {
                self.reordered(flip)
            }),
            x == self.width - 1 ==> self.slid(x, y, flip) == (if self.can_slide(x, y, 0) {
                self.reordered(flip).swapped((x, y), (x - 1, y + 1))
            } else {
                self.reordered(flip)
            }),
    {
    }
}


/// One for a grain, nothing for an empty cell.
pub open spec fn weight(e: Element) -> nat {
    if e.kind == ElementKind::Sand {
        1
    } else {
        0
    }
}

/// Writing a cell changes the number of grains by what the cell gains in weight.
pub proof fn lemma_count_update(cells: Seq<Element>, n: int, i: int, e: Element)
    requires
        0 <= i < cells.len(),
        0 <= n <= cells.len(),
    ensures
        i < n ==> sand_count(cells.update(i, e), n) + weight(cells[i]) == sand_count(cells, n)
            + weight(e),
        i >= n ==> sand_count(cells.update(i, e), n) == sand_count(cells, n),
    decreases n,
{
    if n > 0 {
        lemma_count_update(cells, n - 1, i, e);
    }
}

impl WorldView {
    /// Whether no visit among the first `n` of a pass over row `y` moves a
    /// grain to a cell that an earlier visit of the pass has written.
    pub open spec fn collision_free_pass(self, y: int, n: int, flips: Seq<bool>) -> bool
        decreases n,
    {
        if n <= 0 {
            true
        } else {
            let q = self.row_pass(y, n - 1, flips);
            &&& self.collision_free_pass(y, n - 1, flips)
            &&& match q.destination(n - 1, y, flips[cell(self.width, n - 1, y)]) {
                Some(tx) => q.next[cell(self.width, tx, y + 1)] == q.shown[cell(
                    self.width,
                    tx,
                    y + 1,
                )],
                None => true,
            }
        }
    }

    /// Whether no pass over the rows from the one above the bottom row up to
    /// row `y` holds a collision.
    pub open spec fn collision_free_from(self, y: int, flips: Seq<bool>) -> bool
        decreases self.height - y,
    {
        if y >= self.height - 1 || y < 0 {
            true
        } else {
            &&& self.collision_free_from(y + 1, flips)
            &&& self.rows_from(y + 1, flips).collision_free_pass(y, self.width as int, flips)
        }
    }

    /// Whether no two grains of one row move to one cell in the tick.
    pub open spec fn collision_free(self, flips: Seq<bool>) -> bool {
        self.synced().collision_free_from(0, flips)
    }

    /// A pass makes no grain, and loses none if and only if it holds no
    /// collision.
    pub proof fn lemma_row_pass_count(self, y: int, n: int, flips: Seq<bool>)
        requires
            self.wf(),
            self.shown == self.next,
            0 <= y < self.height - 1,
            0 <= n <= self.width,
        ensures
            sand_count(self.row_pass(y, n, flips).next, self.next.len() as int) <= sand_count(
                self.next,
                self.next.len() as int,
            ),
            self.collision_free_pass(y, n, flips) <==> sand_count(
                self.row_pass(y, n, flips).next,
                self.next.len() as int,
            ) == sand_count(self.next, self.next.len() as int),
        decreases n,
    {
        if n > 0 {
            self.lemma_row_pass_count(y, n - 1, flips);
            self.lemma_row_pass(y, n - 1, flips);
            let q = self.row_pass(y, n - 1, flips);
            let flip = flips[cell(self.width, n - 1, y)];
            q.lemma_visited_cases(n - 1, y, flip);
            match q.destination(n - 1, y, flip) {
                Some(tx) => {
                    let ia = cell(self.width, n - 1, y);
                    let ib = cell(self.width, tx, y + 1);
                    let len = self.next.len() as int;
                    lemma_cell_in_range(self.width, self.height, n - 1, y);
                    lemma_cell_in_range(self.width, self.height, tx, y + 1);
                    if ia == ib {
                        lemma_cell_injective(self.width, n - 1, y, tx, y + 1);
                    }
                    assert(cell_after_pass(self, q, n - 1, y, y, n - 1));
                    assert(q.next[ia] == q.shown[ia]);
                    let mid = q.next.update(ia, q.shown[ib]);
                    lemma_count_update(q.next, len, ia, q.shown[ib]);
                    lemma_count_update(mid, len, ib, q.shown[ia]);
                    assert(mid[ib] == q.next[ib]);
                    assert(cell_after_pass(self, q, tx, y + 1, y, n - 1));
                    assert(q.empty_at(tx, y + 1));
                    assert(q.sand_at(n - 1, y));
                },
                None => {},
            }
        }
    }

    /// The passes make no grain, and lose none if and only if none of them
    /// holds a collision.
    pub proof fn lemma_rows_from_count(self, y: int, flips: Seq<bool>)
        requires
            self.wf(),
            self.shown == self.next,
            0 <= y <= self.height - 1,
        ensures
            sand_count(self.rows_from(y, flips).next, self.next.len() as int) <= sand_count(
                self.next,
                self.next.len() as int,
            ),
            self.collision_free_from(y, flips) <==> sand_count(
                self.rows_from(y, flips).next,
                self.next.len() as int,
            ) == sand_count(self.next, self.next.len() as int),
        decreases self.height - y,
    {
        if y < self.height - 1 {
            self.lemma_rows_from_count(y + 1, flips);
            self.lemma_rows_from(y + 1, flips);
            let q = self.rows_from(y + 1, flips);
            q.lemma_row_pass_count(y, self.width as int, flips);
        }
    }

    /// A tick never makes a grain.
    pub proof fn lemma_no_grain_made(self, flips: Seq<bool>)
        requires
            self.wf(),
        ensures
            sand_count(self.tick(flips).next, self.size() as int) <= sand_count(
                self.next,
                self.size() as int,
            ),
    {
        self.lemma_synced_wf();
        self.synced().lemma_rows_from_count(0, flips);
    }

    /// A tick in which no two grains of one row move to one cell neither
    /// makes nor loses a grain.
    pub proof fn lemma_mass_conserved(self, flips: Seq<bool>)
        requires
            self.wf(),
            self.collision_free(flips),
        ensures
            sand_count(self.tick(flips).next, self.size() as int) == sand_count(
                self.next,
                self.size() as int,
            ),
    {
        self.lemma_synced_wf();
        self.synced().lemma_rows_from_count(0, flips);
    }

    /// A tick in which two grains of one row move to one cell loses a grain.
    pub proof fn lemma_collision_loses(self, flips: Seq<bool>)
        requires
            self.wf(),
            !self.collision_free(flips),
        ensures
            sand_count(self.tick(flips).next, self.size() as int) < sand_count(
                self.next,
                self.size() as int,
            ),
    {
        self.lemma_synced_wf();
        self.synced().lemma_rows_from_count(0, flips);
    }
}

} // verus!
