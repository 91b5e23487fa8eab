use vstd::prelude::*;

use crate::layout::{layout_rows, layout_rows_of, lemma_total_len_uniform, total_len};
use crate::model::{
    adjacent, cascade, cascade_so_far, closed_around, flag_step, grid_cells, has_zero_parent,
    in_bounds, layout_board, lemma_cascade_ignores_opened, lemma_grid_finite, mines_in, neighbors,
    open_step, precedes, rows_agree, strictly_ascending, unflag_step, BoardView, OpenResult, Position,
};
use crate::random::random_range;

verus! {

/// The cells `(i, k)` with `k < j` that `row` marks.
pub open spec fn row_marks(i: usize, row: Seq<bool>, j: nat) -> Set<Position> {
    Set::new(|p: Position| p.0 == i && p.1 < j && row[p.1 as int])
}

/// `c` is the safe cell of `v` that comes `k`-th, counting from zero, in
/// row-major order.
pub open spec fn is_nth_free(v: BoardView, k: nat, c: Position) -> bool {
    &&& in_bounds(v.width, v.height, c)
    &&& !v.mines.contains(c)
    &&& free_before(v, c.0, c.1).len() == k
}

/// There is at most one `k`-th safe cell.
pub proof fn lemma_nth_free_unique(v: BoardView, k: nat, a: Position, b: Position)
    requires
        v.valid(),
        v.width <= usize::MAX + 1,
        v.height <= usize::MAX + 1,
        is_nth_free(v, k, a),
        is_nth_free(v, k, b),
    ensures
        a == b,
{
    lemma_grid_finite(v.width, v.height);
    if precedes(a, b) {
        lemma_free_before_grows(v, a, b);
    } else if precedes(b, a) {
        lemma_free_before_grows(v, b, a);
    }
}

proof fn lemma_free_before_grows(v: BoardView, a: Position, b: Position)
    requires
        v.cells().finite(),
        in_bounds(v.width, v.height, a),
        !v.mines.contains(a),
        precedes(a, b),
    ensures
        free_before(v, a.0, a.1).len() < free_before(v, b.0, b.1).len(),
{
    let fa = free_before(v, a.0, a.1);
    let fb = free_before(v, b.0, b.1);
    assert(fb.subset_of(v.cells()));
    vstd::set_lib::lemma_set_subset_finite(v.cells(), fb);
    assert(fa.subset_of(v.cells()));
    vstd::set_lib::lemma_set_subset_finite(v.cells(), fa);
    assert(fa.insert(a).subset_of(fb));
    vstd::set_lib::lemma_len_subset(fa.insert(a), fb);
    assert(!fa.contains(a));
}

/// The safe cells before `(i, j)` in row-major order.
pub open spec fn free_before(v: BoardView, i: usize, j: usize) -> Set<Position> {
    Set::new(
        |q: Position| in_bounds(v.width, v.height, q) && precedes(q, (i, j)) && !v.mines.contains(q),
    )
}

/// The cells of a grid of flags that hold `true`.
pub open spec fn marked(g: Seq<Vec<bool>>, width: nat, height: nat) -> Set<Position> {
    Set::new(|q: Position| in_bounds(width, height, q) && g[q.0 as int]@[q.1 as int])
}

pub open spec fn has_shape(g: Seq<Vec<bool>>, width: nat, height: nat) -> bool {
    g.len() == height && forall|i: int| 0 <= i < height ==> (#[trigger] g[i])@.len() == width
}

/// A Minesweeper board: its dimensions, where the mines are, which cells are
/// open and which are flagged.
#[derive(Debug)]
pub struct Minesweeper {
    width: usize,
    height: usize,
    mines: Vec<Vec<bool>>,
    open_cells: Vec<Vec<bool>>,
    flagged_cells: Vec<Vec<bool>>,
    mine_count: usize,
}

impl View for Minesweeper {
    type V = BoardView;

    closed spec fn view(&self) -> BoardView {
        BoardView {
            width: self.width as nat,
            height: self.height as nat,
            mines: marked(self.mines@, self.width as nat, self.height as nat),
            opened: marked(self.open_cells@, self.width as nat, self.height as nat),
            flagged: marked(self.flagged_cells@, self.width as nat, self.height as nat),
        }
    }
}

impl Minesweeper {
    /// Well-formedness: three grids of the board's shape, a mine count that
    /// matches the mines, and a valid view.
    pub closed spec fn wf(&self) -> bool {
        &&& has_shape(self.mines@, self.width as nat, self.height as nat)
        &&& has_shape(self.open_cells@, self.width as nat, self.height as nat)
        &&& has_shape(self.flagged_cells@, self.width as nat, self.height as nat)
        &&& self.mine_count == self@.mines.len()
        &&& self.width * self.height <= usize::MAX
        &&& self@.valid()
    }

    /// A well-formed board has a valid view with finite sets.
    pub proof fn lemma_valid(&self)
        requires
            self.wf(),
        ensures
            self@.valid(),
            self@.mines.finite(),
            self@.opened.finite(),
            self@.flagged.finite(),
    {
        lemma_grid_finite(self@.width, self@.height);
    }

    /// The in-bounds cells around `pos`, in row-major order.
    pub fn iter_neighbors(&self, pos: Position) -> (r: Vec<Position>)
        ensures
            r@.to_set() == neighbors(self@.width, self@.height, pos),
            strictly_ascending(r@),
            r@.len() <= 9,
    {
        let (x, y) = pos;
        let lo_r: usize = if x > 0 { x - 1 } else { 0 };
        let hi_r: usize = if x < self.height && x + 1 < self.height { x + 2 } else { self.height };
        let lo_c: usize = if y > 0 { y - 1 } else { 0 };
        let hi_c: usize = if y < self.width && y + 1 < self.width { y + 2 } else { self.width };
        let ghost nb = neighbors(self@.width, self@.height, pos);
        let mut out: Vec<Position> = Vec::new();
        let mut i: usize = lo_r;
        while i < hi_r
            invariant
                nb == neighbors(self@.width, self@.height, pos),
                pos == (x, y),
                lo_r <= i <= hi_r || hi_r <= lo_r == i,
                hi_r <= self.height,
                hi_c <= self.width,
                lo_r as int >= x - 1,
                hi_r as int <= x + 2,
                lo_c as int >= y - 1,
                hi_c as int <= y + 2,
                x > 0 ==> lo_r == x - 1,
                x == 0 ==> lo_r == 0,
                y == 0 ==> lo_c == 0,
                y > 0 ==> lo_c == y - 1,
                x + 1 < self.height ==> hi_r == x + 2,
                y + 1 < self.width ==> hi_c == y + 2,
                x < self.height ==> hi_r >= x + 1,
                y < self.width ==> hi_c >= y + 1,
                hi_r == self.height || hi_r == x + 2,
                hi_c == self.width || hi_c == y + 2,
                strictly_ascending(out@),
                out@.len() <= 3 * (i - lo_r),
                forall|k: int| 0 <= k < out@.len() ==> nb.contains(#[trigger] out@[k]) && out@[k].0 < i,
                forall|q: Position| #[trigger] nb.contains(q) && q.0 < i ==> out@.contains(q),
            decreases hi_r - i,
        {
            let mut j: usize = lo_c;
            assert forall|q: Position| #[trigger] nb.contains(q) && (q.0 < i || (q.0 == i && q.1 < j))
                implies out@.contains(q) by {
                if q.0 == i {
                    assert(q.1 >= lo_c);
                }
            }
            while j < hi_c
                invariant
                    nb == neighbors(self@.width, self@.height, pos),
                    pos == (x, y),
                    lo_r <= i < hi_r,
                    lo_c <= j <= hi_c || hi_c <= lo_c == j,
                    hi_r <= self.height,
                    hi_c <= self.width,
                    lo_r as int >= x - 1,
                    hi_r as int <= x + 2,
                    lo_c as int >= y - 1,
                    hi_c as int <= y + 2,
                    x > 0 ==> lo_r == x - 1,
                    x == 0 ==> lo_r == 0,
                    y == 0 ==> lo_c == 0,
                    y > 0 ==> lo_c == y - 1,
                    x + 1 < self.height ==> hi_r == x + 2,
                    y + 1 < self.width ==> hi_c == y + 2,
                    x < self.height ==> hi_r >= x + 1,
                    y < self.width ==> hi_c >= y + 1,
                    hi_r == self.height || hi_r == x + 2,
                    hi_c == self.width || hi_c == y + 2,
                    strictly_ascending(out@),
                    out@.len() <= 3 * (i - lo_r) + (j - lo_c),
                    forall|k: int|
                        0 <= k < out@.len() ==> nb.contains(#[trigger] out@[k]) && (out@[k].0 < i
                            || (out@[k].0 == i && out@[k].1 < j)),
                    forall|q: Position|
                        #[trigger] nb.contains(q) && (q.0 < i || (q.0 == i && q.1 < j))
                            ==> out@.contains(q),
                decreases hi_c - j,
            {
                if i != x || j != y {
                    let ghost before = out@;
                    assert(nb.contains((i, j)));
                    out.push((i, j));
                    assert forall|q: Position|
                        nb.contains(q) && (q.0 < i || (q.0 == i && q.1 < j + 1)) implies out@.contains(
                        q,
                    ) by {
                        if q.0 == i && q.1 == j {
                            assert(out@[before.len() as int] == q);
                        } else {
                            assert(before.contains(q));
                            let k = choose|k: int| 0 <= k < before.len() && before[k] == q;
                            assert(out@[k] == q);
                        }
                    }
                } else {
                    assert forall|q: Position|
                        nb.contains(q) && (q.0 < i || (q.0 == i && q.1 < j + 1)) implies out@.contains(
                        q,
                    ) by {
                        if q.0 == i && q.1 == j {
                            assert(q == pos);
                        }
                    }
                }
                j = j + 1;
            }
            i = i + 1;
        }
        assert forall|q: Position| #[trigger] out@.contains(q) <==> nb.contains(q) by {}
        assert(out@.to_set() =~= nb);
        out
    }

    /// How many mines lie around `pos`.
    pub fn num_neighbor_mines(&self, pos: Position) -> (r: u8)
        requires
            self.wf(),
        ensures
            r as nat == self@.adjacent_mines(pos),
    {
        broadcast use vstd::seq_lib::seq_to_set_is_finite;

        let nbrs = self.iter_neighbors(pos);
        let ghost nb = neighbors(self@.width, self@.height, pos);
        let ghost mines = self@.mines;
        let mut count: u8 = 0;
        let mut k: usize = 0;
        assert(mines.intersect(nbrs@.take(0).to_set()) =~= Set::empty());
        while k < nbrs.len()
            invariant
                self.wf(),
                mines == self@.mines,
                nbrs@.to_set() == nb,
                nb == neighbors(self@.width, self@.height, pos),
                strictly_ascending(nbrs@),
                nbrs@.len() <= 9,
                k <= nbrs@.len(),
                count <= k,
                count as nat == mines.intersect(nbrs@.take(k as int).to_set()).len(),
            decreases nbrs.len() - k,
        {
            let (i, j) = nbrs[k];
            let ghost t = nbrs@.take(k as int).to_set();
            proof {
                assert(nbrs@.to_set().contains(nbrs@[k as int]));
                let pre = nbrs@.take(k as int);
                let next = nbrs@.take(k as int + 1);
                assert(next =~= pre.push((i, j)));
                assert forall|q: Position| next.contains(q) <==> #[trigger] t.insert((i, j)).contains(q) by {
                    if pre.contains(q) {
                        let a = choose|a: int| 0 <= a < pre.len() && pre[a] == q;
                        assert(next[a] == q);
                    }
                    if next.contains(q) && q != (i, j) {
                        let a = choose|a: int| 0 <= a < next.len() && next[a] == q;
                        assert(pre[a] == q);
                    }
                    if q == (i, j) {
                        assert(next[k as int] == q);
                    }
                }
                assert(next.to_set() =~= t.insert((i, j)));
                assert(!t.contains((i, j))) by {
                    if t.contains((i, j)) {
                        let a = choose|a: int| 0 <= a < k && nbrs@.take(k as int)[a] == (i, j);
                        assert(precedes(nbrs@[a], nbrs@[k as int]));
                    }
                }
                assert(mines.intersect(t).subset_of(t));
                vstd::set_lib::lemma_len_subset(mines.intersect(t), t);
                nbrs@.take(k as int).lemma_cardinality_of_set();
            }
            if self.mines[i][j] {
                proof {
                    assert(mines.intersect(t.insert((i, j))) =~= mines.intersect(t).insert((i, j)));
                    nbrs@.take(k as int).lemma_cardinality_of_set();
                }
                count = count + 1;
            } else {
                proof {
                    assert(mines.intersect(t.insert((i, j))) =~= mines.intersect(t));
                }
            }
            k = k + 1;
        }
        assert(nbrs@.take(k as int) =~= nbrs@);
        count
    }

    /// Marks `p` open.
    fn mark_open(&mut self, p: Position)
        requires
            old(self).wf(),
            in_bounds(old(self)@.width, old(self)@.height, p),
            !old(self)@.flagged.contains(p),
        ensures
            final(self).wf(),
            final(self)@ == (BoardView { opened: old(self)@.opened.insert(p), ..old(self)@ }),
    {
        let (x, y) = p;
        let ghost g = self.open_cells@;
        let ghost v = self@;
        let mut row = self.open_cells[x].clone();
        row.set(y, true);
        self.open_cells.set(x, row);
        proof {
            assert(self.open_cells@[x as int]@ == g[x as int]@.update(y as int, true));
            assert(has_shape(self.open_cells@, self.width as nat, self.height as nat));
            assert(self@.opened =~= v.opened.insert(p));
            assert(self@ =~= (BoardView { opened: v.opened.insert(p), ..v }));
        }
    }

    /// Reveals, from the open cell `pos` that has no adjacent mine, the
    /// cells that the cascade reaches, and returns them in the order found.
    fn flood_from(&mut self, pos: Position) -> (c: Vec<Position>)
        requires
            old(self).wf(),
            in_bounds(old(self)@.width, old(self)@.height, pos),
            old(self)@.opened.contains(pos),
            old(self)@.adjacent_mines(pos) == 0,
        ensures
            final(self).wf(),
            final(self)@.width == old(self)@.width,
            final(self)@.height == old(self)@.height,
            final(self)@.mines == old(self)@.mines,
            final(self)@.flagged == old(self)@.flagged,
            cascade(old(self)@, old(self)@.opened, pos, c@, final(self)@.opened),
    {
        broadcast use vstd::seq_lib::seq_to_set_is_finite;

        let ghost v = self@;
        let ghost base = self@.opened;
        let mut cascaded: Vec<Position> = Vec::new();
        let mut stack: Vec<Position> = Vec::new();
        stack.push(pos);
        proof {
            lemma_grid_finite(v.width, v.height);
            assert(base + cascaded@.to_set() =~= base);
            assert(stack@[0] == pos);
            assert forall|i: int| 0 < i < (seq![pos] + cascaded@).len() implies #[trigger] has_zero_parent(
                v,
                seq![pos] + cascaded@,
                i,
            ) by {}
        }
        while stack.len() > 0
            invariant
                self.wf(),
                self@.width == v.width,
                self@.height == v.height,
                self@.mines == v.mines,
                self@.flagged == v.flagged,
                v.cells().finite(),
                v.valid(),
                base.contains(pos),
                v.adjacent_mines(pos) == 0,
                cascade_so_far(v, base, pos, cascaded@, self@.opened),
                forall|k: int|
                    0 <= k < stack@.len() ==> (#[trigger] stack@[k] == pos || cascaded@.contains(
                        stack@[k],
                    )) && v.adjacent_mines(stack@[k]) == 0,
                forall|e: Position|
                    (e == pos || cascaded@.contains(e)) && v.adjacent_mines(e) == 0
                        && !stack@.contains(e) ==> #[trigger] closed_around(v, e, self@.opened),
            decreases v.cells().difference(self@.opened).len(), stack.len(),
        {
            let ghost unopened0 = v.cells().difference(self@.opened).len();
            let ghost stack_len0 = stack.len();
            let ghost stack0 = stack@;
            let e = stack.pop().unwrap();
            proof {
                assert(stack0[stack0.len() - 1] == e);
                assert(stack0 =~= stack@.push(e));
            }
            let nbrs = self.iter_neighbors(e);
            let mut k: usize = 0;
            while k < nbrs.len()
                invariant
                    self.wf(),
                    self@.width == v.width,
                    self@.height == v.height,
                    self@.mines == v.mines,
                    self@.flagged == v.flagged,
                    v.cells().finite(),
                    v.valid(),
                    base.contains(pos),
                    v.adjacent_mines(pos) == 0,
                    cascade_so_far(v, base, pos, cascaded@, self@.opened),
                    forall|k: int|
                        0 <= k < stack@.len() ==> (#[trigger] stack@[k] == pos
                            || cascaded@.contains(stack@[k])) && v.adjacent_mines(stack@[k]) == 0,
                    forall|e2: Position|
                        (e2 == pos || cascaded@.contains(e2)) && v.adjacent_mines(e2) == 0
                            && !stack@.contains(e2) && e2 != e ==> #[trigger] closed_around(
                            v,
                            e2,
                            self@.opened,
                        ),
                    e == pos || cascaded@.contains(e),
                    v.adjacent_mines(e) == 0,
                    nbrs@.to_set() == neighbors(v.width, v.height, e),
                    k <= nbrs@.len(),
                    forall|a: int|
                        0 <= a < k ==> !v.mines.contains(#[trigger] nbrs@[a])
                            && !v.flagged.contains(nbrs@[a]) ==> self@.opened.contains(nbrs@[a]),
                    v.cells().difference(self@.opened).len() <= unopened0,
                    v.cells().difference(self@.opened).len() == unopened0 ==> stack.len()
                        == stack_len0 - 1,
                    stack_len0 >= 1,
                decreases nbrs.len() - k,
            {
                let q = nbrs[k];
                let (i, j) = q;
                proof {
                    assert(nbrs@.to_set().contains(nbrs@[k as int]));
                }
                if !self.open_cells[i][j] && !self.flagged_cells[i][j] && !self.mines[i][j] {
                    let ghost opened0 = self@.opened;
                    let ghost c0 = cascaded@;
                    let ghost st0 = stack@;
                    self.mark_open(q);
                    cascaded.push(q);
                    let count = self.num_neighbor_mines(q);
                    if count == 0 {
                        stack.push(q);
                    }
                    proof {
                        let s0 = seq![pos] + c0;
                        let s1 = seq![pos] + cascaded@;
                        assert(s1 =~= s0.push(q));
                        assert(in_bounds(v.width, v.height, q));
                        assert(!opened0.contains(q));
                        assert(!c0.contains(q)) by {
                            if c0.contains(q) {
                                let a = choose|a: int| 0 <= a < c0.len() && c0[a] == q;
                                assert(c0.to_set().contains(c0[a]));
                            }
                        }
                        let je: int = if e == pos {
                            0
                        } else {
                            1 + choose|a: int| 0 <= a < c0.len() && c0[a] == e
                        };
                        assert(s0[je] == e);
                        assert forall|i2: int| 0 < i2 < s1.len() implies #[trigger] has_zero_parent(
                            v,
                            s1,
                            i2,
                        ) by {
                            if i2 < s0.len() {
                                assert(has_zero_parent(v, s0, i2));
                                let j2 = choose|j2: int|
                                    0 <= j2 < i2 && #[trigger] adjacent(s0[j2], s0[i2])
                                        && v.adjacent_mines(s0[j2]) == 0;
                                assert(s1[j2] == s0[j2]);
                                assert(s1[i2] == s0[i2]);
                                assert(adjacent(s1[j2], s1[i2]));
                            } else {
                                assert(i2 == s0.len());
                                assert(s1[i2] == q);
                                assert(nbrs@.to_set().contains(q));
                                assert(neighbors(v.width, v.height, e).contains(q));
                                assert(0 <= je < i2);
                                assert(s1[je] == e);
                                assert(adjacent(s1[je], s1[i2]));
                            }
                        }
                        assert(self@.opened =~= base + cascaded@.to_set()) by {
                            assert forall|x: Position| #[trigger] cascaded@.to_set().contains(x) <==> (
                            c0.to_set().contains(x) || x == q) by {
                                if c0.contains(x) {
                                    let a = choose|a: int| 0 <= a < c0.len() && c0[a] == x;
                                    assert(cascaded@[a] == x);
                                }
                                if x == q {
                                    assert(cascaded@[c0.len() as int] == x);
                                }
                                if cascaded@.contains(x) && x != q {
                                    let a = choose|a: int| 0 <= a < cascaded@.len() && cascaded@[a] == x;
                                    assert(c0[a] == x);
                                }
                            }
                        }
                        assert(v.cells().difference(self@.opened) =~= v.cells().difference(
                            opened0,
                        ).remove(q));
                        assert(v.cells().difference(opened0).contains(q));
                        assert forall|e2: Position|
                            (e2 == pos || cascaded@.contains(e2)) && v.adjacent_mines(e2) == 0
                                && !stack@.contains(e2) && e2 != e implies #[trigger] closed_around(
                            v,
                            e2,
                            self@.opened,
                        ) by {
                            if e2 == q {
                                assert(stack@[stack@.len() - 1] == q);
                            } else {
                                if e2 != pos {
                                    let a = choose|a: int| 0 <= a < cascaded@.len() && cascaded@[a] == e2;
                                    assert(c0[a] == e2);
                                }
                                if st0.contains(e2) {
                                    let a = choose|a: int| 0 <= a < st0.len() && st0[a] == e2;
                                    assert(stack@[a] == e2);
                                }
                                assert(closed_around(v, e2, opened0));
                            }
                        }
                        assert forall|k2: int| 0 <= k2 < stack@.len() implies (#[trigger] stack@[k2]
                            == pos || cascaded@.contains(stack@[k2])) && v.adjacent_mines(stack@[k2])
                            == 0 by {
                            if k2 < st0.len() {
                                assert(stack@[k2] == st0[k2]);
                                if st0[k2] != pos {
                                    let a = choose|a: int| 0 <= a < c0.len() && c0[a] == st0[k2];
                                    assert(cascaded@[a] == st0[k2]);
                                }
                            } else {
                                assert(cascaded@[c0.len() as int] == q);
                            }
                        }
                        if e != pos {
                            let a = choose|a: int| 0 <= a < c0.len() && c0[a] == e;
                            assert(cascaded@[a] == e);
                        }
                    }
                }
                k = k + 1;
            }
            proof {
                assert(closed_around(v, e, self@.opened)) by {
                    assert forall|q: Position|
                        #[trigger] neighbors(v.width, v.height, e).contains(q) && !v.mines.contains(q)
                            && !v.flagged.contains(q) implies self@.opened.contains(q) by {
                        assert(nbrs@.to_set().contains(q));
                        let a = choose|a: int| 0 <= a < nbrs@.len() && nbrs@[a] == q;
                    }
                }
            }
        }
        cascaded
    }

    /// Sets whether `p` is flagged.
    fn set_flag(&mut self, p: Position, flagged: bool)
        requires
            old(self).wf(),
            in_bounds(old(self)@.width, old(self)@.height, p),
            flagged ==> !old(self)@.opened.contains(p),
        ensures
            final(self).wf(),
            final(self)@ == (BoardView {
                flagged: if flagged {
                    old(self)@.flagged.insert(p)
                } else {
                    old(self)@.flagged.remove(p)
                },
                ..old(self)@
            }),
    {
        let (x, y) = p;
        let ghost g = self.flagged_cells@;
        let ghost v = self@;
        let mut row = self.flagged_cells[x].clone();
        row.set(y, flagged);
        self.flagged_cells.set(x, row);
        proof {
            assert(self.flagged_cells@[x as int]@ == g[x as int]@.update(y as int, flagged));
            assert(has_shape(self.flagged_cells@, self.width as nat, self.height as nat));
            let f = if flagged {
                v.flagged.insert(p)
            } else {
                v.flagged.remove(p)
            };
            assert(self@.flagged =~= f);
            assert(self@ =~= (BoardView { flagged: f, ..v }));
        }
    }

    /// Opens `pos`: a flagged, open or out-of-bounds cell is left as it is;
    /// a mine is opened; a safe cell is opened and, when no mine lies around
    /// it, so is the region that the cascade reaches.
    pub fn open(&mut self, pos: Position) -> (r: OpenResult)
        requires
            old(self).wf(),
        ensures
            final(self).wf(),
            open_step(old(self)@, pos, final(self)@, r),
    {
        let (x, y) = pos;
        if x >= self.height || y >= self.width {
            return OpenResult::OutOfBounds;
        }
        if self.flagged_cells[x][y] {
            return OpenResult::Flagged;
        }
        if self.open_cells[x][y] {
            return OpenResult::AlreadyOpen;
        }
        if self.mines[x][y] {
            self.mark_open(pos);
            return OpenResult::HitMine;
        }
        let k = self.num_neighbor_mines(pos);
        self.mark_open(pos);
        if k > 0 {
            return OpenResult::Revealed(k, Vec::new());
        }
        let ghost u = self@;
        let cascaded = self.flood_from(pos);
        proof {
            lemma_cascade_ignores_opened(u, old(self)@, u.opened, pos, cascaded@, self@.opened);
        }
        OpenResult::Revealed(k, cascaded)
    }

    /// Flags `pos`, unless it lies outside the board or is open; says
    /// whether it is now flagged.
    pub fn flag(&mut self, pos: Position) -> (r: bool)
        requires
            old(self).wf(),
        ensures
            final(self).wf(),
            flag_step(old(self)@, pos, final(self)@, r),
    {
        let (x, y) = pos;
        if x >= self.height || y >= self.width || self.open_cells[x][y] {
            return false;
        }
        self.set_flag(pos, true);
        true
    }

    /// Removes the flag from `pos`; says whether there was one.
    pub fn unflag(&mut self, pos: Position) -> (r: bool)
        requires
            old(self).wf(),
        ensures
            final(self).wf(),
            unflag_step(old(self)@, pos, final(self)@, r),
    {
        let (x, y) = pos;
        if x >= self.height || y >= self.width || !self.flagged_cells[x][y] {
            return false;
        }
        self.set_flag(pos, false);
        true
    }

    /// The number of columns.
    pub fn width(&self) -> (r: usize)
        ensures
            r == self@.width,
    {
        self.width
    }

    /// The number of rows.
    pub fn height(&self) -> (r: usize)
        ensures
            r == self@.height,
    {
        self.height
    }

    /// How many mines the board holds.
    pub fn mine_count(&self) -> (r: usize)
        requires
            self.wf(),
        ensures
            r == self@.mines.len(),
    {
        self.mine_count
    }

    /// Whether `pos` is an open cell.
    pub fn is_opened(&self, pos: Position) -> (r: bool)
        requires
            self.wf(),
        ensures
            r == self@.opened.contains(pos),
    {
        let (x, y) = pos;
        x < self.height && y < self.width && self.open_cells[x][y]
    }

    /// Whether `pos` is a flagged cell.
    pub fn is_flagged(&self, pos: Position) -> (r: bool)
        requires
            self.wf(),
        ensures
            r == self@.flagged.contains(pos),
    {
        let (x, y) = pos;
        x < self.height && y < self.width && self.flagged_cells[x][y]
    }

    /// A grid of `height` rows of `width` cells, none marked.
    fn empty_grid(width: usize, height: usize) -> (g: Vec<Vec<bool>>)
        ensures
            has_shape(g@, width as nat, height as nat),
            marked(g@, width as nat, height as nat) == Set::<Position>::empty(),
    {
        let mut g: Vec<Vec<bool>> = Vec::new();
        let mut i: usize = 0;
        while i < height
            invariant
                i <= height,
                has_shape(g@, width as nat, i as nat),
                forall|a: int, b: int| 0 <= a < i && 0 <= b < width ==> !g@[a]@[b],
            decreases height - i,
        {
            let mut row: Vec<bool> = Vec::new();
            let mut j: usize = 0;
            while j < width
                invariant
                    j <= width,
                    row@.len() == j,
                    forall|b: int| 0 <= b < j ==> !row@[b],
                decreases width - j,
            {
                row.push(false);
                j = j + 1;
            }
            g.push(row);
            i = i + 1;
        }
        assert(marked(g@, width as nat, height as nat) =~= Set::<Position>::empty());
        g
    }

    /// Reads a board from text: one row per line, trimmed of white space,
    /// blank lines left out; a `B` marks a mine. Fails when the rows differ
    /// in length.
    pub fn try_from(layout: String) -> (r: Result<Self, String>)
        ensures
            r.is_ok() <==> rows_agree(layout_rows(layout@)),
            r matches Ok(b) ==> b.wf() && b@ == layout_board(layout_rows(layout@)),
            r matches Err(e) ==> e@ == "all rows must have the same length"@,
    {
        let rows = layout_rows_of(layout.as_str());
        proof {
            let spec_rows = layout_rows(layout@);
            assert forall|k: int| 0 <= k < rows@.len() implies #[trigger] rows.deep_view()[k]
                == spec_rows[k] by {
                assert(rows@[k]@ =~= rows.deep_view()[k]);
            }
            assert(rows.deep_view() =~= spec_rows);
        }
        Self::from_rows(&rows)
    }

    /// Builds a board from its rows; a `B` marks a mine. Fails when the rows
    /// differ in length.
    pub fn from_rows(rows: &Vec<Vec<char>>) -> (r: Result<Self, String>)
        requires
            total_len(rows.deep_view()) <= usize::MAX,
        ensures
            r.is_ok() <==> rows_agree(rows.deep_view()),
            r matches Ok(b) ==> b.wf() && b@ == layout_board(rows.deep_view()),
            r matches Err(e) ==> e@ == "all rows must have the same length"@,
    {
        let ghost spec_rows = rows.deep_view();
        proof {
            assert forall|k: int| 0 <= k < rows@.len() implies (#[trigger] rows@[k])@
                == spec_rows[k] by {
                assert(rows@[k]@ =~= spec_rows[k]);
            }
        }
        let height = rows.len();
        let width: usize = if height == 0 {
            0
        } else {
            rows[0].len()
        };
        let mut i: usize = 0;
        while i < height
            invariant
                i <= height == rows@.len() == spec_rows.len(),
                spec_rows == rows.deep_view(),
                height > 0 ==> width == spec_rows[0].len(),
                forall|k: int| 0 <= k < rows@.len() ==> (#[trigger] rows@[k])@ == spec_rows[k],
                forall|k: int| 0 <= k < i ==> #[trigger] spec_rows[k].len() == spec_rows[0].len(),
            decreases height - i,
        {
            if rows[i].len() != width {
                proof {
                    assert(rows@[i as int]@ == spec_rows[i as int]);
                    assert(spec_rows[i as int].len() != spec_rows[0].len());
                    assert(!rows_agree(spec_rows));
                }
                return Err("all rows must have the same length".to_owned());
            }
            proof {
                assert(rows@[i as int]@ == spec_rows[i as int]);
            }
            i = i + 1;
        }
        proof {
            lemma_total_len_uniform(spec_rows, width as nat);
        }
        let mut mines: Vec<Vec<bool>> = Vec::new();
        let mut count: usize = 0;
        let mut i: usize = 0;
        assert(marked(mines@, width as nat, 0) =~= Set::<Position>::empty());
        while i < height
            invariant
                i <= height == rows@.len() == spec_rows.len(),
                height > 0 ==> width == spec_rows[0].len(),
                rows_agree(spec_rows),
                forall|k: int| 0 <= k < rows@.len() ==> (#[trigger] rows@[k])@ == spec_rows[k],
                has_shape(mines@, width as nat, i as nat),
                forall|a: int, b: int|
                    0 <= a < i && 0 <= b < width ==> mines@[a]@[b] == (spec_rows[a][b] == 'B'),
                marked(mines@, width as nat, i as nat).finite(),
                count == marked(mines@, width as nat, i as nat).len(),
                count <= i * width,
                height * width <= usize::MAX,
            decreases height - i,
        {
            let line = &rows[i];
            proof {
                assert(line@ == spec_rows[i as int]);
                assert(spec_rows[i as int].len() == spec_rows[0].len());
            }
            let mut row: Vec<bool> = Vec::new();
            let mut j: usize = 0;
            let ghost before = marked(mines@, width as nat, i as nat);
            let mut row_count: usize = 0;
            assert(row_marks(i, row@, 0) =~= Set::<Position>::empty());
            while j < width
                invariant
                    j <= width == line@.len(),
                    row@.len() == j,
                    forall|b: int| 0 <= b < j ==> row@[b] == (line@[b] == 'B'),
                    row_marks(i, row@, j as nat).finite(),
                    row_count == row_marks(i, row@, j as nat).len(),
                    row_count <= j,
                decreases width - j,
            {
                let mine = line[j] == 'B';
                let ghost old_row = row@;
                row.push(mine);
                proof {
                    if mine {
                        assert(row_marks(i, row@, (j + 1) as nat) =~= row_marks(i, old_row, j as nat).insert((i, j)));
                    } else {
                        assert(row_marks(i, row@, (j + 1) as nat) =~= row_marks(i, old_row, j as nat));
                    }
                }
                if mine {
                    row_count = row_count + 1;
                }
                j = j + 1;
            }
            let ghost old_mines = mines@;
            mines.push(row);
            proof {
                assert(marked(mines@, width as nat, (i + 1) as nat) =~= before + row_marks(i, row@, width as nat));
                assert(before.disjoint(row_marks(i, row@, width as nat)));
                vstd::set_lib::lemma_set_disjoint_lens(before, row_marks(i, row@, width as nat));
                assert(count + row_count <= (i + 1) * width) by (nonlinear_arith)
                    requires count <= i * width, row_count <= width;
                assert((i + 1) * width <= height * width) by (nonlinear_arith)
                    requires i < height;
            }
            count = count + row_count;
            i = i + 1;
        }
        proof {
            assert(marked(mines@, width as nat, height as nat) =~= mines_in(spec_rows));
        }
        let b = Minesweeper {
            width,
            height,
            mines,
            open_cells: Self::empty_grid(width, height),
            flagged_cells: Self::empty_grid(width, height),
            mine_count: count,
        };
        proof {
            assert(b@.mines.subset_of(b@.cells()));
            assert(width * height == height * width) by (nonlinear_arith);
            assert(b@ =~= layout_board(spec_rows));
        }
        Ok(b)
    }

    /// Lays a mine on the safe cell `p`.
    fn set_mine(&mut self, p: Position)
        requires
            old(self).wf(),
            in_bounds(old(self)@.width, old(self)@.height, p),
            !old(self)@.mines.contains(p),
        ensures
            final(self).wf(),
            final(self)@ == (BoardView { mines: old(self)@.mines.insert(p), ..old(self)@ }),
    {
        let (x, y) = p;
        let ghost g = self.mines@;
        let ghost v = self@;
        proof {
            self.lemma_valid();
            lemma_grid_finite(v.width, v.height);
            vstd::set_lib::lemma_len_subset(v.mines.insert(p), v.cells());
        }
        let mut row = self.mines[x].clone();
        row.set(y, true);
        self.mines.set(x, row);
        self.mine_count = self.mine_count + 1;
        proof {
            assert(self.mines@[x as int]@ == g[x as int]@.update(y as int, true));
            assert(has_shape(self.mines@, self.width as nat, self.height as nat));
            assert(self@.mines =~= v.mines.insert(p));
            assert(self@ =~= (BoardView { mines: v.mines.insert(p), ..v }));
        }
    }

    /// Lays a mine on the safe cell that comes `pick`-th, counting from zero,
    /// in row-major order.
    fn place_mine(&mut self, pick: usize)
        requires
            old(self).wf(),
            pick < old(self)@.cells().len() - old(self)@.mines.len(),
        ensures
            final(self).wf(),
            final(self)@.width == old(self)@.width,
            final(self)@.height == old(self)@.height,
            final(self)@.opened == old(self)@.opened,
            final(self)@.flagged == old(self)@.flagged,
            final(self)@.mines.len() == old(self)@.mines.len() + 1,
            exists|c: Position|
                is_nth_free(old(self)@, pick as nat, c) && final(self)@.mines == old(self)@.mines.insert(
                    c,
                ),
    {
        let ghost v = self@;
        proof {
            self.lemma_valid();
            lemma_grid_finite(v.width, v.height);
            assert(free_before(v, 0, 0) =~= Set::<Position>::empty());
        }
        let mut done = false;
        let ghost mut placed: Position = (0, 0);
        let mut seen: usize = 0;
        let mut i: usize = 0;
        while i < self.height && !done
            invariant
                self.wf(),
                self@.width == v.width,
                self@.height == v.height,
                self@.opened == v.opened,
                self@.flagged == v.flagged,
                v.cells().finite(),
                v.mines.finite(),
                v.mines.subset_of(v.cells()),
                pick < v.cells().len() - v.mines.len(),
                i <= self.height,
                done ==> self@.mines.len() == v.mines.len() + 1 && is_nth_free(v, pick as nat, placed)
                    && self@.mines == v.mines.insert(placed),
                !done ==> self@ == v && seen <= pick && free_before(v, i, 0).finite() && seen
                    == free_before(v, i, 0).len(),
            decreases self.height - i,
        {
            let mut j: usize = 0;
            proof {
                if !done {
                    assert(free_before(v, i, 0) == free_before(v, i, j));
                }
            }
            while j < self.width && !done
                invariant
                    self.wf(),
                    self@.width == v.width,
                    self@.height == v.height,
                    self@.opened == v.opened,
                    self@.flagged == v.flagged,
                    v.mines.finite(),
                    i < self.height,
                    j <= self.width,
                    done ==> self@.mines.len() == v.mines.len() + 1 && is_nth_free(v, pick as nat, placed)
                        && self@.mines == v.mines.insert(placed),
                    !done ==> self@ == v && seen <= pick && free_before(v, i, j).finite() && seen
                        == free_before(v, i, j).len(),
                decreases self.width - j,
            {
                if !self.mines[i][j] {
                    proof {
                        assert(free_before(v, i, (j + 1) as usize) =~= free_before(v, i, j).insert((i, j)));
                        assert(!free_before(v, i, j).contains((i, j)));
                    }
                    if seen == pick {
                        self.set_mine((i, j));
                        proof {
                            assert(!v.mines.contains((i, j)));
                            placed = (i, j);
                        }
                        done = true;
                    } else {
                        seen = seen + 1;
                    }
                } else {
                    proof {
                        assert(free_before(v, i, (j + 1) as usize) =~= free_before(v, i, j));
                    }
                }
                j = j + 1;
            }
            proof {
                if !done {
                    assert(free_before(v, i, j) =~= free_before(v, (i + 1) as usize, 0));
                }
            }
            i = i + 1;
        }
        proof {
            if !done {
                let free = free_before(v, i, 0);
                assert(free =~= v.cells().difference(v.mines));
                assert(v.cells() =~= v.mines + free);
                assert(v.mines.disjoint(free));
                vstd::set_lib::lemma_set_disjoint_lens(v.mines, free);
            }
        }
    }

    /// A `width` x `height` board with `mines` mines laid at random, each on
    /// a cell drawn uniformly from those still safe; nothing open or flagged.
    pub fn new(width: usize, height: usize, mines: usize) -> (r: Self)
        requires
            width * height <= usize::MAX,
            mines <= width * height,
        ensures
            r.wf(),
            r@.width == width,
            r@.height == height,
            r@.mines.len() == mines,
            r@.mines.subset_of(grid_cells(width as nat, height as nat)),
            forall|p: Position| #[trigger] r@.mines.contains(p) ==> p.0 < height && p.1 < width,
            r@.opened == Set::<Position>::empty(),
            r@.flagged == Set::<Position>::empty(),
    {
        let empty_mines = Self::empty_grid(width, height);
        let mut m = Minesweeper {
            width,
            height,
            mines: empty_mines,
            open_cells: Self::empty_grid(width, height),
            flagged_cells: Self::empty_grid(width, height),
            mine_count: 0,
        };
        let cells = width * height;
        proof {
            lemma_grid_finite(width as nat, height as nat);
            assert(m@.mines.len() == 0);
        }
        while m.mine_count < mines
            invariant
                m.wf(),
                m@.width == width,
                m@.height == height,
                m@.opened == Set::<Position>::empty(),
                m@.flagged == Set::<Position>::empty(),
                m@.mines.len() <= mines,
                mines <= cells == width * height == m@.cells().len(),
            decreases mines - m@.mines.len(),
        {
            let pick = random_range(0, cells - m.mine_count);
            m.place_mine(pick);
        }
        proof {
            m.lemma_valid();
        }
        m
    }

    /// Where the mines lie, in row-major order.
    pub fn mine_positions(&self) -> (r: Vec<Position>)
        requires
            self.wf(),
        ensures
            r@.to_set() == self@.mines,
            strictly_ascending(r@),
    {
        let ghost v = self@;
        let mut out: Vec<Position> = Vec::new();
        let mut i: usize = 0;
        while i < self.height
            invariant
                self.wf(),
                v == self@,
                i <= self.height,
                strictly_ascending(out@),
                forall|k: int| 0 <= k < out@.len() ==> v.mines.contains(#[trigger] out@[k]) && out@[k].0 < i,
                forall|q: Position| #[trigger] v.mines.contains(q) && q.0 < i ==> out@.contains(q),
            decreases self.height - i,
        {
            let mut j: usize = 0;
            while j < self.width
                invariant
                    self.wf(),
                    v == self@,
                    i < self.height,
                    j <= self.width,
                    strictly_ascending(out@),
                    forall|k: int|
                        0 <= k < out@.len() ==> v.mines.contains(#[trigger] out@[k]) && (out@[k].0 < i
                            || (out@[k].0 == i && out@[k].1 < j)),
                    forall|q: Position|
                        #[trigger] v.mines.contains(q) && (q.0 < i || (q.0 == i && q.1 < j))
                            ==> out@.contains(q),
                decreases self.width - j,
            {
                if self.mines[i][j] {
                    let ghost before = out@;
                    out.push((i, j));
                    assert forall|q: Position|
                        #[trigger] v.mines.contains(q) && (q.0 < i || (q.0 == i && q.1 < j + 1))
                            implies out@.contains(q) by {
                        if q.0 == i && q.1 == j {
                            assert(out@[before.len() as int] == q);
                        } else {
                            let k = choose|k: int| 0 <= k < before.len() && before[k] == q;
                            assert(out@[k] == q);
                        }
                    }
                }
                j = j + 1;
            }
            i = i + 1;
        }
        proof {
            self.lemma_valid();
            assert forall|q: Position| #[trigger] out@.contains(q) <==> v.mines.contains(q) by {
                if v.mines.contains(q) {
                    assert(v.cells().contains(q));
                }
            }
            assert(out@.to_set() =~= v.mines);
        }
        out
    }
}

} // verus!
