use vstd::prelude::*;

verus! {

/// A block of a level grid, named by its color.
#[derive(Clone, Copy, Debug, PartialEq, Eq, Structural)]
pub enum BlockKind {
    /// `X`: the outer walls.
    Wall,
    /// `G`
    Green,
    /// `B`
    Blue,
    /// `R`
    Red,
}

/// The block that a grid character stands for; other characters are open floor.
pub open spec fn block_of(code: char) -> Option<BlockKind> {
    if code == 'X' {
        Some(BlockKind::Wall)
    } else if code == 'G' {
        Some(BlockKind::Green)
    } else if code == 'B' {
        Some(BlockKind::Blue)
    } else if code == 'R' {
        Some(BlockKind::Red)
    } else {
        None
    }
}

/// Reads one character of a level grid.
pub fn block_kind(code: char) -> (r: Option<BlockKind>)
    ensures
        r == block_of(code),
{
    if code == 'X' {
        Some(BlockKind::Wall)
    } else if code == 'G' {
        Some(BlockKind::Green)
    } else if code == 'B' {
        Some(BlockKind::Blue)
    } else if code == 'R' {
        Some(BlockKind::Red)
    } else {
        None
    }
}

/// One cell of a level grid: its column, its row and the block on it, if any.
/// Every cell also has floor under it.
#[derive(Clone, Copy, Debug, PartialEq, Eq, Structural)]
pub struct Cell {
    pub x: usize,
    pub y: usize,
    pub block: Option<BlockKind>,
}

/// The cells of a grid given as rows of characters, row by row, each row
/// left to right.
pub open spec fn grid_cells(rows: Seq<Seq<char>>) -> Seq<Cell>
    decreases rows.len(),
{
    if rows.len() == 0 {
        seq![]
    } else {
        let y = rows.len() - 1;
        grid_cells(rows.drop_last()) + row_cells(rows[y], y)
    }
}

pub open spec fn row_cells(row: Seq<char>, y: int) -> Seq<Cell> {
    Seq::new(row.len(), |x: int| Cell { x: x as usize, y: y as usize, block: block_of(row[x]) })
}

/// Reads a level grid into its cells.
pub fn level_cells(rows: &Vec<Vec<char>>) -> (r: Vec<Cell>)
    ensures
        r@ == grid_cells(rows@.map_values(|row: Vec<char>| row@)),
{
    let ghost g = rows@.map_values(|row: Vec<char>| row@);
    let mut out: Vec<Cell> = Vec::new();
    let mut y: usize = 0;
    while y < rows.len()
        invariant
            y <= rows@.len(),
            g == rows@.map_values(|row: Vec<char>| row@),
            out@ == grid_cells(g.take(y as int)),
        decreases rows@.len() - y,
    {
        let row = &rows[y];
        let ghost before = out@;
        let mut x: usize = 0;
        while x < row.len()
            invariant
                x <= row@.len(),
                y < rows@.len(),
                row@ == g[y as int],
                out@ == before + row_cells(row@, y as int).take(x as int),
            decreases row@.len() - x,
        {
            let block = block_kind(row[x]);
            out.push(Cell { x, y, block });
            proof {
                assert(row_cells(row@, y as int).take(x + 1) =~= row_cells(row@, y as int).take(x as int).push(
                    Cell { x, y, block },
                ));
            }
            x = x + 1;
        }
        proof {
            assert(row_cells(row@, y as int).take(x as int) =~= row_cells(row@, y as int));
            assert(g.take(y + 1).drop_last() =~= g.take(y as int));
        }
        y = y + 1;
    }
    proof {
        assert(g.take(y as int) =~= g);
    }
    out
}

} // verus!
