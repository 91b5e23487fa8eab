use vstd::prelude::*;

use crate::layout::{layout_rows, split_lines, trim, trim_end, trim_start};
use crate::model::{
    flag_step, in_bounds, layout_board, open_step, unflag_step, BoardView, OpenResult, Position,
};

verus! {

/// Opening the same cell twice: the second call changes nothing.
pub proof fn lemma_open_twice(
    v0: BoardView,
    pos: Position,
    v1: BoardView,
    r1: OpenResult,
    v2: BoardView,
    r2: OpenResult,
)
    requires
        v0.valid(),
        open_step(v0, pos, v1, r1),
        open_step(v1, pos, v2, r2),
    ensures
        v2 == v1,
{
}

/// Opening never closes a cell, never moves a mine and never touches a flag.
pub proof fn lemma_open_keeps_state(v: BoardView, pos: Position, w: BoardView, r: OpenResult)
    requires
        v.valid(),
        open_step(v, pos, w, r),
    ensures
        v.opened.subset_of(w.opened),
        w.mines == v.mines,
        w.flagged == v.flagged,
{
}

/// Opening a cell that is open already reports `AlreadyOpen` and changes
/// nothing: not the mines, not the flags, not the number of mines around it.
pub proof fn lemma_open_opened_cell(v: BoardView, pos: Position, w: BoardView, r: OpenResult)
    requires
        v.valid(),
        v.opened.contains(pos),
        open_step(v, pos, w, r),
    ensures
        r is AlreadyOpen,
        w == v,
        w.mines == v.mines,
        w.flagged == v.flagged,
        w.adjacent_mines(pos) == v.adjacent_mines(pos),
{
    assert(v.cells().contains(pos));
    assert(!v.flagged.contains(pos));
}

/// Opening a closed, unflagged mine reports `HitMine` and opens it; opening it
/// once more reports `AlreadyOpen` and changes nothing.
pub proof fn lemma_open_mine_twice(
    v0: BoardView,
    pos: Position,
    v1: BoardView,
    r1: OpenResult,
    v2: BoardView,
    r2: OpenResult,
)
    requires
        v0.valid(),
        v0.mines.contains(pos),
        !v0.opened.contains(pos),
        !v0.flagged.contains(pos),
        open_step(v0, pos, v1, r1),
        open_step(v1, pos, v2, r2),
    ensures
        r1 is HitMine,
        v1.opened.contains(pos),
        r2 is AlreadyOpen,
        v2 == v1,
{
    assert(v0.cells().contains(pos));
}

/// Opening a safe cell never opens a mine: the cascade stops short of them.
pub proof fn lemma_reveal_opens_no_mine(
    v: BoardView,
    pos: Position,
    w: BoardView,
    k: u8,
    c: Vec<Position>,
)
    requires
        v.valid(),
        open_step(v, pos, w, OpenResult::Revealed(k, c)),
    ensures
        w.opened.intersect(w.mines) == v.opened.intersect(v.mines),
        forall|i: int| 0 <= i < c@.len() ==> !v.mines.contains(#[trigger] c@[i]),
{
    if k == 0 {
        assert forall|q: Position| #[trigger] c@.to_set().contains(q) implies !v.mines.contains(q) by {
            let i = choose|i: int| 0 <= i < c@.len() && c@[i] == q;
        }
    }
    assert(w.opened.intersect(w.mines) =~= v.opened.intersect(v.mines));
}

/// A flagged cell cannot be opened: opening it reports `Flagged` and changes
/// nothing.
pub proof fn lemma_flagged_cell_stays_closed(
    v: BoardView,
    pos: Position,
    w: BoardView,
    r: OpenResult,
)
    requires
        v.valid(),
        v.flagged.contains(pos),
        open_step(v, pos, w, r),
    ensures
        r is Flagged,
        w == v,
{
    assert(v.cells().contains(pos));
}

/// Flagging a closed cell of the board and then opening it: the flag is set,
/// and the open is refused with `Flagged`, leaving the board as it was.
pub proof fn lemma_flag_then_open(
    v0: BoardView,
    pos: Position,
    v1: BoardView,
    f: bool,
    v2: BoardView,
    r: OpenResult,
)
    requires
        v0.valid(),
        in_bounds(v0.width, v0.height, pos),
        !v0.opened.contains(pos),
        flag_step(v0, pos, v1, f),
        open_step(v1, pos, v2, r),
    ensures
        f,
        r is Flagged,
        v2 == v1,
{
}

/// Once its flag is removed, a closed cell opens again: the result is no
/// longer `Flagged`, and the cell is open.
pub proof fn lemma_unflag_then_open(
    v0: BoardView,
    pos: Position,
    v1: BoardView,
    u: bool,
    v2: BoardView,
    r: OpenResult,
)
    requires
        v0.valid(),
        v0.flagged.contains(pos),
        unflag_step(v0, pos, v1, u),
        open_step(v1, pos, v2, r),
    ensures
        u,
        !(r is Flagged),
        v2.opened.contains(pos),
{
    assert(v0.cells().contains(pos));
    assert(!v0.opened.contains(pos));
    if let OpenResult::Revealed(k, c) = r {
        if k == 0 {
            assert(v2.opened.contains(pos));
        }
    }
}

/// Only `B` means something in a layout: rows of the same shape with mines in
/// the same places describe the same board, whatever the other glyphs.
pub proof fn lemma_only_mines_matter(a: Seq<Seq<char>>, b: Seq<Seq<char>>)
    requires
        a.len() == b.len(),
        forall|i: int| 0 <= i < a.len() ==> #[trigger] a[i].len() == b[i].len(),
        forall|i: int, j: int|
            0 <= i < a.len() && 0 <= j < a[i].len() ==> (#[trigger] a[i][j] == 'B') == (b[i][j]
                == 'B'),
    ensures
        layout_board(a) == layout_board(b),
{
    if a.len() > 0 {
        assert(a[0].len() == b[0].len());
    }
    assert(layout_board(a).mines =~= layout_board(b).mines);
    assert(layout_board(a) =~= layout_board(b));
}

/// A blank line at the end of a layout changes nothing.
pub proof fn lemma_trailing_line_break(s: Seq<char>)
    ensures
        layout_rows(s.push('\n')) == layout_rows(s),
{
    assert(s.push('\n').drop_last() =~= s);
    let l = split_lines(s).push(Seq::empty());
    assert(l.drop_last() =~= split_lines(s));
    assert(trim_start(Seq::<char>::empty()) == Seq::<char>::empty());
    assert(trim(l.last()).len() == 0);
}

/// White space added at the end of a layout changes nothing.
pub proof fn lemma_trailing_space(s: Seq<char>, c: char)
    requires
        crate::layout::is_white(c),
        c != '\n',
    ensures
        layout_rows(s.push(c)) == layout_rows(s),
{
    let t = s.push(c);
    assert(t.drop_last() =~= s);
    crate::layout::lemma_split_lines_nonempty(s);
    let prev = split_lines(s);
    let l = prev.update(prev.len() - 1, prev.last().push(c));
    assert(split_lines(t) == l);
    assert(l.drop_last() =~= prev.drop_last());
    assert(l.last() == prev.last().push(c));
    lemma_trim_push_white(prev.last(), c);
}

proof fn lemma_trim_push_white(l: Seq<char>, c: char)
    requires
        crate::layout::is_white(c),
    ensures
        trim(l.push(c)) == trim(l),
    decreases l.len(),
{
    if l.len() > 0 && crate::layout::is_white(l[0]) {
        assert(l.push(c).drop_first() =~= l.drop_first().push(c));
        lemma_trim_push_white(l.drop_first(), c);
    } else if l.len() == 0 {
        assert(l.push(c).drop_first() =~= Seq::<char>::empty());
        assert(trim_start(l.push(c)) == trim_start(Seq::<char>::empty()));
        assert(trim_end(Seq::<char>::empty()) == Seq::<char>::empty());
    } else {
        assert(trim_start(l.push(c)) == l.push(c));
        assert(l.push(c).drop_last() =~= l);
    }
}

} // verus!
