//! The messages of the two-player variant, and the row encoding they carry.
use crate::board::CellType;
use vstd::prelude::*;

verus! {

/// What a player sends.
#[derive(Debug, PartialEq, Eq)]
pub enum RequestMessage {
    Join,
    Leave,
    Remove { x: usize, y: usize },
}

/// What a player receives.
#[derive(Debug, PartialEq, Eq)]
pub enum ResponseMessage {
    Ready,
    Remove { x: usize, y: usize },
    Feed { row: Vec<bool> },
}

/// A fed row as bits: a bomb is `true`.
pub fn row_bits(row: &Vec<CellType>) -> (r: Vec<bool>)
    ensures
        r@.len() == row@.len(),
        forall|i: int| 0 <= i < row@.len() ==> #[trigger] r@[i] == (row@[i] == CellType::Bomb),
{
    let mut r: Vec<bool> = Vec::new();
    let mut i: usize = 0;
    while i < row.len()
        invariant
            i <= row@.len(),
            r@.len() == i,
            forall|j: int| 0 <= j < i ==> #[trigger] r@[j] == (row@[j] == CellType::Bomb),
        decreases row@.len() - i,
    {
        r.push(row[i] == CellType::Bomb);
        i += 1;
    }
    r
}

/// A fed row from its bits: `true` is a bomb.
pub fn row_from_bits(bits: &Vec<bool>) -> (r: Vec<CellType>)
    ensures
        r@.len() == bits@.len(),
        forall|i: int|
            0 <= i < bits@.len() ==> #[trigger] r@[i] == if bits@[i] {
                CellType::Bomb
            } else {
                CellType::Tile
            },
{
    let mut r: Vec<CellType> = Vec::new();
    let mut i: usize = 0;
    while i < bits.len()
        invariant
            i <= bits@.len(),
            r@.len() == i,
            forall|j: int|
                0 <= j < i ==> #[trigger] r@[j] == if bits@[j] {
                    CellType::Bomb
                } else {
                    CellType::Tile
                },
        decreases bits@.len() - i,
    {
        r.push(if bits[i] { CellType::Bomb } else { CellType::Tile });
        i += 1;
    }
    r
}

} // verus!
