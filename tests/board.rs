use bomb_chain::board::CellType::{Bomb, Tile};
use bomb_chain::board::{adjacent_cells, Board, Cell, CellType};
use std::collections::BTreeMap;

fn cell(id: usize, cell_type: CellType) -> Option<Cell> {
    Some(Cell { id, cell_type })
}

fn dist_and_place(r: &[(usize, usize, usize, usize, CellType)]) -> Vec<(usize, usize, usize, CellType)> {
    r.iter().map(|e| (e.1, e.2, e.3, e.4)).collect()
}

fn sorted<T: Ord + Clone>(v: Vec<T>) -> Vec<T> {
    let mut v = v;
    v.sort();
    v
}

fn chain_board() -> Board<3, 4> {
    Board::<3, 4>::from_cells(
        vec![
            vec![None, cell(6, Tile), cell(3, Tile), cell(0, Tile)],
            vec![None, cell(7, Tile), cell(4, Bomb), cell(1, Tile)],
            vec![None, cell(8, Tile), cell(5, Tile), cell(2, Tile)],
        ],
        0,
    )
}

#[test]
fn test_remove() {
    let mut board = chain_board();

    assert_eq!(dist_and_place(&board.remove(0, 3)), vec![(0, 0, 3, Tile)]);
    assert_eq!(
        sorted(dist_and_place(&board.remove(1, 2))),
        vec![
            (0, 1, 2, Bomb),
            (1, 0, 1, Tile),
            (1, 0, 2, Tile),
            (1, 1, 1, Tile),
            (1, 1, 3, Tile),
            (1, 2, 1, Tile),
            (1, 2, 2, Tile),
            (1, 2, 3, Tile),
        ]
    );
    assert_eq!(board.cells, vec![vec![None; 4]; 3]);
}

#[test]
fn test_apply_gravity() {
    let mut board = Board::<3, 4>::from_cells(
        vec![
            vec![cell(0, Tile), None, None, cell(3, Bomb)],
            vec![None, cell(1, Tile), cell(4, Bomb), None],
            vec![None, cell(2, Tile), None, cell(5, Bomb)],
        ],
        0,
    );

    let mut map = BTreeMap::<usize, usize>::new();
    map.insert(0, 2);
    map.insert(1, 1);
    map.insert(2, 1);
    map.insert(4, 1);
    assert_eq!(board.apply_gravity(), map);

    assert_eq!(
        board.cells,
        vec![
            vec![None, None, cell(0, Tile), cell(3, Bomb)],
            vec![None, None, cell(1, Tile), cell(4, Bomb)],
            vec![None, None, cell(2, Tile), cell(5, Bomb)],
        ]
    );
}

#[test]
fn test_feed() {
    let mut board = Board::<4, 3>::from_cells(
        vec![
            vec![None, cell(0, Tile), cell(0, Bomb)],
            vec![None, None, cell(0, Tile)],
            vec![None, None, cell(0, Tile)],
            vec![None, None, cell(0, Tile)],
        ],
        0,
    );

    let row = [Tile, Bomb, Tile, Bomb];
    assert_eq!(
        board.feed(&row).as_slice(),
        row.iter()
            .cloned()
            .enumerate()
            .map(|(i, x)| Cell::new(i, x))
            .collect::<Vec<_>>()
            .as_slice(),
    );

    assert_eq!(
        board.cells,
        vec![
            vec![cell(0, Tile), cell(0, Bomb), cell(0, Tile)],
            vec![None, cell(0, Tile), cell(1, Bomb)],
            vec![None, cell(0, Tile), cell(2, Tile)],
            vec![None, cell(0, Tile), cell(3, Bomb)],
        ]
    );
}

#[test]
fn test_adjacent_cells() {
    assert_eq!(
        adjacent_cells(1, 1, 3, 3),
        vec![(0, 0), (0, 1), (0, 2), (1, 0), (1, 2), (2, 0), (2, 1), (2, 2)]
    );

    assert_eq!(adjacent_cells(0, 0, 3, 3), vec![(0, 1), (1, 0), (1, 1)]);

    assert_eq!(adjacent_cells(2, 2, 3, 3), vec![(1, 1), (1, 2), (2, 1)]);
}

#[test]
fn adjacent_cells_clips_a_slot_outside_the_grid() {
    assert_eq!(adjacent_cells(3, 3, 3, 3), vec![(2, 2)]);
    assert_eq!(adjacent_cells(3, 1, 3, 3), vec![(2, 0), (2, 1), (2, 2)]);
    assert_eq!(adjacent_cells(usize::MAX, usize::MAX, 3, 3), vec![]);
}

#[test]
fn adjacent_cells_on_a_single_slot_grid_is_empty() {
    assert_eq!(adjacent_cells(0, 0, 1, 1), vec![]);
}

#[test]
fn chain_reaches_every_neighbour_of_the_bomb_in_breadth_first_order() {
    let mut board = chain_board();
    assert_eq!(board.remove(0, 3), vec![(0, 0, 0, 3, Tile)]);
    assert_eq!(
        board.remove(1, 2),
        vec![
            (4, 0, 1, 2, Bomb),
            (6, 1, 0, 1, Tile),
            (3, 1, 0, 2, Tile),
            (7, 1, 1, 1, Tile),
            (1, 1, 1, 3, Tile),
            (8, 1, 2, 1, Tile),
            (5, 1, 2, 2, Tile),
            (2, 1, 2, 3, Tile),
        ]
    );
    assert_eq!(board.cells, vec![vec![None; 4]; 3]);
}

#[test]
fn chain_of_bombs_counts_layers() {
    // Bombs at (0,0), (1,1), (2,2) in a 4x4 grid, a tile at (3,3).
    let mut cols = vec![vec![None; 4]; 4];
    cols[0][0] = cell(10, Bomb);
    cols[1][1] = cell(11, Bomb);
    cols[2][2] = cell(12, Bomb);
    cols[3][3] = cell(13, Tile);
    let mut board = Board::<4, 4>::from_cells(cols, 20);
    let r = board.remove(0, 0);
    assert_eq!(
        r,
        vec![(10, 0, 0, 0, Bomb), (11, 1, 1, 1, Bomb), (12, 2, 2, 2, Bomb), (13, 3, 3, 3, Tile)]
    );
    assert_eq!(board.cells, vec![vec![None; 4]; 4]);
}

#[test]
fn tile_does_not_propagate() {
    let mut board = chain_board();
    let r = board.remove(0, 2);
    assert_eq!(r, vec![(3, 0, 0, 2, Tile)]);
    assert_eq!(board.cells[1][2], cell(4, Bomb));
}

#[test]
fn removing_an_empty_or_outside_slot_changes_nothing() {
    let mut board = chain_board();
    let before = board.cells.clone();
    assert_eq!(board.remove(0, 0), vec![]);
    assert_eq!(board.remove(3, 1), vec![]);
    assert_eq!(board.remove(1, 9), vec![]);
    assert_eq!(board.cells, before);
}

#[test]
fn gravity_twice_moves_nothing_the_second_time() {
    let mut board = Board::<3, 4>::from_cells(
        vec![
            vec![cell(0, Tile), None, None, cell(3, Bomb)],
            vec![None, cell(1, Tile), cell(4, Bomb), None],
            vec![None, cell(2, Tile), None, cell(5, Bomb)],
        ],
        6,
    );
    board.apply_gravity();
    let settled = board.cells.clone();
    assert!(board.apply_gravity().is_empty());
    assert_eq!(board.cells, settled);
}

#[test]
fn gravity_keeps_each_columns_cells_in_order() {
    let mut board = Board::<2, 5>::from_cells(
        vec![
            vec![cell(1, Bomb), None, cell(2, Tile), None, cell(3, Tile)],
            vec![None, None, None, None, None],
        ],
        4,
    );
    let falls = board.apply_gravity();
    assert_eq!(board.cells[0], vec![None, None, cell(1, Bomb), cell(2, Tile), cell(3, Tile)]);
    assert_eq!(board.cells[1], vec![None; 5]);
    let mut expected = BTreeMap::new();
    expected.insert(1, 2);
    expected.insert(2, 1);
    assert_eq!(falls, expected);
}

#[test]
fn feed_mints_ids_above_every_existing_one() {
    let mut board = Board::<3, 3>::new();
    let first = board.feed(&[Tile, Bomb, Tile]);
    assert_eq!(first.iter().map(|c| c.id).collect::<Vec<_>>(), vec![0, 1, 2]);
    let second = board.feed(&[Bomb, Bomb, Tile]);
    assert_eq!(second.iter().map(|c| c.id).collect::<Vec<_>>(), vec![3, 4, 5]);
    assert_eq!(board.generated_cells(), 6);
    for column in board.cells.iter() {
        assert_eq!(column.len(), 3);
    }
    assert_eq!(board.cells[0], vec![None, cell(0, Tile), cell(3, Bomb)]);
}

#[test]
fn feed_discards_the_top_cell() {
    let mut board = Board::<1, 2>::from_cells(vec![vec![cell(7, Bomb), cell(8, Tile)]], 9);
    assert!(board.is_filled());
    let r = board.feed(&[Tile]);
    assert_eq!(r, vec![Cell::new(9, Tile)]);
    assert_eq!(board.cells, vec![vec![cell(8, Tile), cell(9, Tile)]]);
}

#[test]
fn filled_only_when_a_top_slot_is_taken() {
    let mut board = Board::<2, 2>::new();
    assert!(!board.is_filled());
    board.feed(&[Tile, Tile]);
    assert!(!board.is_filled());
    board.feed(&[Tile, Bomb]);
    assert!(board.is_filled());
}

#[test]
fn feeding_a_board_without_rows_still_mints_ids() {
    let mut board = Board::<2, 0>::new();
    assert_eq!(board.feed(&[Tile, Bomb]), vec![Cell::new(0, Tile), Cell::new(1, Bomb)]);
    assert_eq!(board.cells, vec![Vec::<Option<Cell>>::new(); 2]);
    assert_eq!(board.generated_cells(), 2);
}
