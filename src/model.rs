use vstd::prelude::*;

verus! {

/// A cell of the board as `(row, column)`.
pub type Position = (usize, usize);

/// The abstract state of a board: its dimensions and three sets of cells.
pub struct BoardView {
    pub width: nat,
    pub height: nat,
    pub mines: Set<Position>,
    pub opened: Set<Position>,
    pub flagged: Set<Position>,
}

pub open spec fn in_bounds(width: nat, height: nat, p: Position) -> bool {
    p.0 < height && p.1 < width
}

/// All cells of a `width` x `height` grid.
pub open spec fn grid_cells(width: nat, height: nat) -> Set<Position> {
    Set::new(|q: Position| in_bounds(width, height, q))
}

/// `q` is one of the eight cells around `p`.
pub open spec fn adjacent(p: Position, q: Position) -> bool {
    &&& p != q
    &&& -1 <= q.0 as int - p.0 as int <= 1
    &&& -1 <= q.1 as int - p.1 as int <= 1
}

/// The in-bounds cells around `p`.
pub open spec fn neighbors(width: nat, height: nat, p: Position) -> Set<Position> {
    Set::new(|q: Position| in_bounds(width, height, q) && adjacent(p, q))
}

/// Row-major order of cells.
pub open spec fn precedes(p: Position, q: Position) -> bool {
    p.0 < q.0 || (p.0 == q.0 && p.1 < q.1)
}

pub open spec fn strictly_ascending(s: Seq<Position>) -> bool {
    forall|a: int, b: int| 0 <= a < b < s.len() ==> precedes(s[a], s[b])
}

/// The order in which a cascade reveals cells, starting from its origin: every
/// cell after the first lies next to an earlier one that has no adjacent mine.
pub open spec fn discovered_in_order(v: BoardView, s: Seq<Position>) -> bool {
    forall|i: int| 0 < i < s.len() ==> #[trigger] has_zero_parent(v, s, i)
}

/// Some cell before `s[i]` lies next to it and has no adjacent mine.
pub open spec fn has_zero_parent(v: BoardView, s: Seq<Position>, i: int) -> bool {
    exists|j: int| 0 <= j < i && #[trigger] adjacent(s[j], s[i]) && v.adjacent_mines(s[j]) == 0
}

/// Every safe, unflagged cell around `e` is in `opened`.
pub open spec fn closed_around(v: BoardView, e: Position, opened: Set<Position>) -> bool {
    forall|q: Position|
        #[trigger] neighbors(v.width, v.height, e).contains(q) && !v.mines.contains(q)
            && !v.flagged.contains(q) ==> opened.contains(q)
}

/// The cells `c` that a cascade from `pos` has revealed so far, on a board
/// `v` whose open cells, `pos` included, were `base`: new, safe, unflagged
/// cells, each reached through cells without adjacent mines; `after` is the
/// set of open cells with them.
pub open spec fn cascade_so_far(
    v: BoardView,
    base: Set<Position>,
    pos: Position,
    c: Seq<Position>,
    after: Set<Position>,
) -> bool {
    &&& c.no_duplicates()
    &&& forall|k: int|
        0 <= k < c.len() ==> {
            &&& in_bounds(v.width, v.height, #[trigger] c[k])
            &&& !base.contains(c[k])
            &&& !v.flagged.contains(c[k])
            &&& !v.mines.contains(c[k])
        }
    &&& discovered_in_order(v, seq![pos] + c)
    &&& after == base + c.to_set()
}

/// `c` is the whole cascade that opening `pos`, a cell with no adjacent mine,
/// sets off: it goes on until every safe, unflagged cell around `pos` and
/// around each revealed cell without adjacent mines is open.
pub open spec fn cascade(
    v: BoardView,
    base: Set<Position>,
    pos: Position,
    c: Seq<Position>,
    after: Set<Position>,
) -> bool {
    &&& cascade_so_far(v, base, pos, c, after)
    &&& forall|e: Position|
        (e == pos || c.contains(e)) && v.adjacent_mines(e) == 0 ==> #[trigger] closed_around(
            v,
            e,
            after,
        )
}

/// A cascade depends on the board's dimensions, mines and flags only.
pub proof fn lemma_cascade_ignores_opened(
    u: BoardView,
    v: BoardView,
    base: Set<Position>,
    pos: Position,
    c: Seq<Position>,
    after: Set<Position>,
)
    requires
        cascade(u, base, pos, c, after),
        u.width == v.width,
        u.height == v.height,
        u.mines == v.mines,
        u.flagged == v.flagged,
    ensures
        cascade(v, base, pos, c, after),
{
    let s = seq![pos] + c;
    assert forall|i: int| 0 < i < s.len() implies #[trigger] has_zero_parent(v, s, i) by {
        assert(has_zero_parent(u, s, i));
        let j = choose|j: int| 0 <= j < i && #[trigger] adjacent(s[j], s[i]) && u.adjacent_mines(s[j]) == 0;
        assert(u.adjacent_mines(s[j]) == v.adjacent_mines(s[j]));
    }
    assert forall|e: Position|
        (e == pos || c.contains(e)) && v.adjacent_mines(e) == 0 implies #[trigger] closed_around(v, e, after) by {
        assert(u.adjacent_mines(e) == v.adjacent_mines(e));
        assert(closed_around(u, e, after));
    }
}

/// Opening `pos` on board `v` gives board `w` and outcome `r`.
pub open spec fn open_step(v: BoardView, pos: Position, w: BoardView, r: OpenResult) -> bool {
    &&& w.width == v.width
    &&& w.height == v.height
    &&& w.mines == v.mines
    &&& w.flagged == v.flagged
    &&& if !in_bounds(v.width, v.height, pos) {
        r is OutOfBounds && w == v
    } else if v.flagged.contains(pos) {
        r is Flagged && w == v
    } else if v.opened.contains(pos) {
        r is AlreadyOpen && w == v
    } else if v.mines.contains(pos) {
        r is HitMine && w.opened == v.opened.insert(pos)
    } else {
        match r {
            OpenResult::Revealed(k, c) => {
                &&& k == v.adjacent_mines(pos)
                &&& k > 0 ==> c@.len() == 0 && w.opened == v.opened.insert(pos)
                &&& k == 0 ==> cascade(v, v.opened.insert(pos), pos, c@, w.opened)
            },
            _ => false,
        }
    }
}

/// What opening a cell did.
#[derive(Debug)]
pub enum OpenResult {
    /// The cell holds a mine; it is now open.
    HitMine,
    /// The cell is safe: the number of mines around it, and the further cells
    /// that a cascade opened, in the order it reached them.
    Revealed(u8, Vec<Position>),
    /// The cell was open already; nothing changed.
    AlreadyOpen,
    /// The cell is flagged and must be unflagged first; nothing changed.
    Flagged,
    /// The position lies outside the board; nothing changed.
    OutOfBounds,
}

/// All rows have the length of the first.
pub open spec fn rows_agree(rows: Seq<Seq<char>>) -> bool {
    forall|i: int| 0 <= i < rows.len() ==> #[trigger] rows[i].len() == rows[0].len()
}

/// The cells of `rows` that hold a `B`.
pub open spec fn mines_in(rows: Seq<Seq<char>>) -> Set<Position> {
    Set::new(
        |p: Position|
            p.0 < rows.len() && p.1 < rows[p.0 as int].len() && rows[p.0 as int][p.1 as int] == 'B',
    )
}

/// The board that `rows` describe, with nothing open or flagged.
pub open spec fn layout_board(rows: Seq<Seq<char>>) -> BoardView {
    BoardView {
        width: if rows.len() == 0 {
            0
        } else {
            rows[0].len()
        },
        height: rows.len(),
        mines: mines_in(rows),
        opened: Set::empty(),
        flagged: Set::empty(),
    }
}

/// Flagging `pos` on board `v` gives board `w` and answer `r`: it succeeds on
/// a cell of the board that is not open.
pub open spec fn flag_step(v: BoardView, pos: Position, w: BoardView, r: bool) -> bool {
    &&& r == (in_bounds(v.width, v.height, pos) && !v.opened.contains(pos))
    &&& r ==> w == (BoardView { flagged: v.flagged.insert(pos), ..v })
    &&& !r ==> w == v
}

/// Unflagging `pos` on board `v` gives board `w` and answer `r`: it succeeds
/// on a flagged cell.
pub open spec fn unflag_step(v: BoardView, pos: Position, w: BoardView, r: bool) -> bool {
    &&& r == v.flagged.contains(pos)
    &&& r ==> w == (BoardView { flagged: v.flagged.remove(pos), ..v })
    &&& !r ==> w == v
}

impl BoardView {
    pub open spec fn cells(self) -> Set<Position> {
        grid_cells(self.width, self.height)
    }

    /// The board invariant: every set lies inside the grid, and no flagged
    /// cell is open.
    pub open spec fn valid(self) -> bool {
        &&& self.mines.subset_of(self.cells())
        &&& self.opened.subset_of(self.cells())
        &&& self.flagged.subset_of(self.cells())
        &&& self.opened.disjoint(self.flagged)
    }

    /// How many mines lie around `p`.
    pub open spec fn adjacent_mines(self, p: Position) -> nat {
        self.mines.intersect(neighbors(self.width, self.height, p)).len()
    }
}

proof fn lemma_row_cells(r: usize, w: nat)
    requires
        w <= usize::MAX + 1,
    ensures
        Set::new(|q: Position| q.0 == r && q.1 < w).finite(),
        Set::new(|q: Position| q.0 == r && q.1 < w).len() == w,
    decreases w,
{
    let s = Set::new(|q: Position| q.0 == r && q.1 < w);
    if w == 0 {
        assert(s =~= Set::empty());
    } else {
        let t = Set::new(|q: Position| q.0 == r && q.1 < (w - 1) as nat);
        lemma_row_cells(r, (w - 1) as nat);
        assert(s =~= t.insert((r, (w - 1) as usize)));
        assert(!t.contains((r, (w - 1) as usize)));
    }
}

/// A grid has finitely many cells: `width * height` of them.
pub proof fn lemma_grid_finite(width: nat, height: nat)
    requires
        width <= usize::MAX + 1,
        height <= usize::MAX + 1,
    ensures
        grid_cells(width, height).finite(),
        grid_cells(width, height).len() == width * height,
    decreases height,
{
    if height == 0 {
        assert(grid_cells(width, height) =~= Set::empty());
    } else {
        let h1 = (height - 1) as nat;
        let row = Set::new(|q: Position| q.0 == h1 as usize && q.1 < width);
        lemma_grid_finite(width, h1);
        lemma_row_cells(h1 as usize, width);
        assert(grid_cells(width, height) =~= grid_cells(width, h1).union(row));
        assert(grid_cells(width, h1).disjoint(row));
        vstd::set_lib::lemma_set_disjoint_lens(grid_cells(width, h1), row);
        assert(width * h1 + width == width * height) by (nonlinear_arith)
            requires
                h1 + 1 == height,
        ;
    }
}

} // verus!
