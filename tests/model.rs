use bomb_chain::board::CellType;
use bomb_chain::model::{row_bits, row_from_bits, RequestMessage, ResponseMessage};

#[test]
fn rows_round_trip_through_bits() {
    let row = vec![CellType::Tile, CellType::Bomb, CellType::Tile, CellType::Bomb];
    let bits = row_bits(&row);
    assert_eq!(bits, vec![false, true, false, true]);
    assert_eq!(row_from_bits(&bits), row);
    let message = ResponseMessage::Feed { row: bits };
    assert_ne!(message, ResponseMessage::Ready);
    assert_eq!(RequestMessage::Remove { x: 1, y: 2 }, RequestMessage::Remove { x: 1, y: 2 });
}
