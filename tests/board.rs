use minesweeper::{random_range, range_of_word, Minesweeper, OpenResult, Position};
use std::collections::HashSet;

fn board(layout: &str) -> Minesweeper {
    Minesweeper::try_from(layout.to_string()).unwrap()
}

fn set(v: &[Position]) -> HashSet<Position> {
    v.iter().copied().collect()
}

#[test]
fn test_try_from_string() -> Result<(), String> {
    let map = "
        ##BB#
        B####
        ####B
        "
    .to_string();

    let ms = Minesweeper::try_from(map)?;
    assert_eq!(5, ms.width());
    assert_eq!(3, ms.height());
    assert_eq!(
        HashSet::from([(0, 2), (0, 3), (1, 0), (2, 4)]),
        ms.mine_positions().into_iter().collect::<HashSet<Position>>()
    );
    Ok(())
}

#[test]
fn test_try_from_string_inconsistent_width_fails() {
    let map = "
        ##BB##
        ####
        "
    .to_string();

    assert!(Minesweeper::try_from(map).is_err());
}

#[test]
fn test_new() {
    let m = Minesweeper::new(8, 8, 3);
    println!("{:?}", m);
}

#[test]
fn neighbors_0_0() {
    let neighbors: Vec<Position> = Minesweeper::new(4, 4, 2).iter_neighbors((0, 0));
    assert_eq!(vec![(0, 1), (1, 0), (1, 1)], neighbors)
}

#[test]
fn neighbors_1_1() {
    let neighbors: Vec<Position> = Minesweeper::new(4, 4, 2).iter_neighbors((1, 1));
    assert_eq!(
        vec![(0, 0), (0, 1), (0, 2), (1, 0), (1, 2), (2, 0), (2, 1), (2, 2)],
        neighbors
    )
}

#[test]
fn neighbors_of_far_corner_and_edge() {
    let m = Minesweeper::new(4, 3, 0);
    assert_eq!(vec![(1, 2), (1, 3), (2, 2)], m.iter_neighbors((2, 3)));
    assert_eq!(vec![(0, 0), (0, 2), (1, 0), (1, 1), (1, 2)], m.iter_neighbors((0, 1)));
    assert_eq!(Vec::<Position>::new(), m.iter_neighbors((9, 9)));
}

#[test]
fn layout_is_read_exactly() {
    let m = board("##BB#\nB####\n####B");
    assert_eq!(5, m.width());
    assert_eq!(3, m.height());
    assert_eq!(4, m.mine_count());
    assert_eq!(set(&[(0, 2), (0, 3), (1, 0), (2, 4)]), set(&m.mine_positions()));
}

#[test]
fn layout_skips_blank_lines_and_trims_rows() {
    let m = board("\n  \t#B#  \r\n\n   \nB##\n\n");
    assert_eq!(3, m.width());
    assert_eq!(2, m.height());
    assert_eq!(vec![(0, 1), (1, 0)], m.mine_positions());
}

#[test]
fn empty_layout_gives_empty_board() {
    let m = board("  \n\n");
    assert_eq!(0, m.width());
    assert_eq!(0, m.height());
    assert_eq!(0, m.mine_count());
}

#[test]
fn unequal_rows_are_refused() {
    let r = Minesweeper::try_from("###\n##\n###".to_string());
    assert_eq!(Some("all rows must have the same length".to_string()), r.err());
}

#[test]
fn random_board_has_exact_mine_count() {
    for &(w, h, n) in &[(8, 8, 3), (4, 4, 16), (3, 3, 0), (1, 1, 1), (5, 2, 9)] {
        let m = Minesweeper::new(w, h, n);
        assert_eq!(n, m.mine_count());
        let mines = m.mine_positions();
        assert_eq!(n, mines.len());
        assert_eq!(n, set(&mines).len());
        assert!(mines.iter().all(|&(r, c)| r < h && c < w));
        assert!(!m.is_opened((0, 0)));
        assert!(!m.is_flagged((0, 0)));
    }
}

#[test]
fn random_range_stays_in_range() {
    for _ in 0..200 {
        let r = random_range(3, 7);
        assert!((3..7).contains(&r));
    }
    assert_eq!(5, random_range(5, 6));
}

#[test]
fn opening_a_mine_twice() {
    let mut m = board("B#\n##");
    assert!(matches!(m.open((0, 0)), OpenResult::HitMine));
    assert!(m.is_opened((0, 0)));
    assert!(matches!(m.open((0, 0)), OpenResult::AlreadyOpen));
    assert!(m.is_opened((0, 0)));
    assert!(!m.is_opened((1, 1)));
}

#[test]
fn opening_a_numbered_cell() {
    let mut m = board("B#B\n###\nB##");
    match m.open((1, 1)) {
        OpenResult::Revealed(k, c) => {
            assert_eq!(3, k);
            assert!(c.is_empty());
        }
        other => panic!("unexpected {:?}", other),
    }
    assert!(m.is_opened((1, 1)));
    assert!(!m.is_opened((0, 1)));
    match m.open((0, 1)) {
        OpenResult::Revealed(k, c) => {
            assert_eq!(2, k);
            assert!(c.is_empty());
        }
        other => panic!("unexpected {:?}", other),
    }
}

#[test]
fn cascade_opens_region_and_border() {
    let mut m = board("#B###\nBB###\n#####");
    match m.open((2, 4)) {
        OpenResult::Revealed(k, c) => {
            assert_eq!(0, k);
            assert_eq!(c.len(), set(&c).len());
            assert_eq!(
                set(&[(0, 2), (0, 3), (0, 4), (1, 2), (1, 3), (1, 4), (2, 2), (2, 3)]),
                set(&c)
            );
        }
        other => panic!("unexpected {:?}", other),
    }
    for &p in &[(0, 0), (0, 1), (1, 0), (1, 1), (2, 0), (2, 1)] {
        assert!(!m.is_opened(p));
    }
    assert!(m.is_opened((2, 4)));
}

#[test]
fn cascade_on_open_field() {
    let mut m = board("####\n####\n###B");
    match m.open((0, 0)) {
        OpenResult::Revealed(0, c) => assert_eq!(10, c.len()),
        other => panic!("unexpected {:?}", other),
    }
    assert!(!m.is_opened((2, 3)));
    for r in 0..3 {
        for c in 0..4 {
            if (r, c) != (2, 3) {
                assert!(m.is_opened((r, c)));
            }
        }
    }
}

#[test]
fn cascade_skips_flagged_cells() {
    let mut m = board("###\n###\n##B");
    assert!(m.flag((0, 2)));
    match m.open((0, 0)) {
        OpenResult::Revealed(0, c) => {
            assert_eq!(set(&[(0, 1), (1, 0), (1, 1), (1, 2), (2, 0), (2, 1)]), set(&c));
        }
        other => panic!("unexpected {:?}", other),
    }
    assert!(!m.is_opened((0, 2)));
    assert!(m.is_flagged((0, 2)));
}

#[test]
fn opening_an_open_cell_changes_nothing() {
    let mut m = board("B##\n###\n###");
    assert!(matches!(m.open((0, 1)), OpenResult::Revealed(1, _)));
    assert!(m.flag((2, 2)));
    assert!(matches!(m.open((0, 1)), OpenResult::AlreadyOpen));
    assert!(m.is_flagged((2, 2)));
    assert_eq!(1, m.mine_count());
    assert_eq!(1, m.num_neighbor_mines((0, 1)));
}

#[test]
fn flagged_cell_is_refused_until_unflagged() {
    let mut m = board("B##\n###");
    assert!(m.flag((0, 0)));
    assert!(matches!(m.open((0, 0)), OpenResult::Flagged));
    assert!(!m.is_opened((0, 0)));
    assert!(m.is_flagged((0, 0)));
    assert!(matches!(m.open((0, 0)), OpenResult::Flagged));
    assert!(m.unflag((0, 0)));
    assert!(!m.is_flagged((0, 0)));
    assert!(!m.unflag((0, 0)));
    assert!(matches!(m.open((0, 0)), OpenResult::HitMine));
    assert!(m.is_opened((0, 0)));
}

#[test]
fn flagging_open_or_outside_cells_is_refused() {
    let mut m = board("B##\n###");
    assert!(matches!(m.open((1, 1)), OpenResult::Revealed(1, _)));
    assert!(!m.flag((1, 1)));
    assert!(!m.flag((2, 0)));
    assert!(!m.flag((0, 3)));
    assert!(!m.is_flagged((1, 1)));
}

#[test]
fn opening_outside_the_board() {
    let mut m = board("B##\n###");
    assert!(matches!(m.open((2, 0)), OpenResult::OutOfBounds));
    assert!(matches!(m.open((0, 3)), OpenResult::OutOfBounds));
    assert!(!m.is_opened((0, 0)));
}

#[test]
fn neighbor_mine_counts() {
    let m = board("BBB\nB#B\nBBB");
    assert_eq!(8, m.num_neighbor_mines((1, 1)));
    assert_eq!(2, m.num_neighbor_mines((0, 0)));
    assert_eq!(0, board("###\n###").num_neighbor_mines((0, 0)));
}

#[test]
fn board_from_rows() {
    let rows = vec![vec!['#', 'B', '#'], vec!['B', '#', '#']];
    let m = Minesweeper::from_rows(&rows).unwrap();
    assert_eq!(3, m.width());
    assert_eq!(2, m.height());
    assert_eq!(vec![(0, 1), (1, 0)], m.mine_positions());
    assert!(Minesweeper::from_rows(&vec![vec!['#'], vec!['#', '#']]).is_err());
}

#[test]
fn layout_rows_are_trimmed_lines() {
    let rows = minesweeper::layout::layout_rows_of(" ab \n\n\tc\u{3000}\n");
    assert_eq!(vec![vec!['a', 'b'], vec!['c']], rows);
}

#[test]
fn range_of_word_takes_remainder() {
    assert_eq!(4, range_of_word(17, 3, 7));
    assert_eq!(3, range_of_word(0, 3, 7));
    assert_eq!(6, range_of_word(u64::MAX, 3, 7));
    assert_eq!(0, range_of_word(12345, 0, 1));
}

#[test]
fn layout_glyphs_other_than_b_mean_nothing() {
    let a = board("#B.
xyB");
    let b = board("oBo
..B");
    assert_eq!(a.mine_positions(), b.mine_positions());
    assert_eq!(vec![(0, 1), (1, 2)], a.mine_positions());
}
