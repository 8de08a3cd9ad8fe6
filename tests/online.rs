use bomb_chain::board::CellType::{Bomb, Tile};
use bomb_chain::online::{BoardManager, GameOnline, OnlineGameAction};
use bomb_chain::{HEIGHT, WIDTH};

#[test]
fn server_rows_hold_one_or_two_bombs() {
    let mut manager = BoardManager::new(11);
    let single = manager.feed(true);
    assert_eq!(single.iter().filter(|&&c| c == Bomb).count(), 1);
    let double = manager.feed(false);
    assert_eq!(double.iter().filter(|&&c| c == Bomb).count(), 2);
    assert_eq!(manager.board.generated_cells(), 2 * WIDTH);
    assert_eq!(manager.board.cells[0][HEIGHT - 1].map(|c| c.cell_type), Some(double[0]));
    assert_eq!(manager.board.cells[0][HEIGHT - 2].map(|c| c.cell_type), Some(single[0]));
}

#[test]
fn server_remove_counts_and_settles() {
    let mut manager = BoardManager::new(4);
    manager.feed(false);
    let tile = (0..WIDTH)
        .find(|&x| manager.board.cells[x][HEIGHT - 1].map(|c| c.cell_type) == Some(Tile))
        .unwrap();
    assert_eq!(manager.remove(tile, HEIGHT - 1), 1);
    assert!(manager.board.cells[tile][HEIGHT - 1].is_none());
    assert_eq!(manager.remove(tile, HEIGHT - 1), 0);
}

#[test]
fn participants_replay_the_same_moves() {
    let mut server = BoardManager::new(8);
    let mut client = GameOnline::new(0);
    for _ in 0..3 {
        let row = server.feed(false);
        client.update(OnlineGameAction::Feed(row));
    }
    let removed = server.remove(2, HEIGHT - 1);
    client.update(OnlineGameAction::Remove(2, HEIGHT - 1));
    client.update(OnlineGameAction::Animate(500));
    assert!(removed > 0);
    assert_eq!(client.board.board.cells, server.board.cells);
}
