use raster3d::level::{block_kind, level_cells, BlockKind, Cell};

#[test]
fn grid_characters() {
    assert_eq!(block_kind('X'), Some(BlockKind::Wall));
    assert_eq!(block_kind('G'), Some(BlockKind::Green));
    assert_eq!(block_kind('B'), Some(BlockKind::Blue));
    assert_eq!(block_kind('R'), Some(BlockKind::Red));
    assert_eq!(block_kind(' '), None);
    assert_eq!(block_kind('x'), None);
}

#[test]
fn grid_cells_in_row_order() {
    let rows: Vec<Vec<char>> = vec!["XR".chars().collect(), " ".chars().collect(), "".chars().collect(), "G".chars().collect()];
    let cells = level_cells(&rows);
    assert_eq!(
        cells,
        vec![
            Cell { x: 0, y: 0, block: Some(BlockKind::Wall) },
            Cell { x: 1, y: 0, block: Some(BlockKind::Red) },
            Cell { x: 0, y: 1, block: None },
            Cell { x: 0, y: 3, block: Some(BlockKind::Green) },
        ]
    );
}
