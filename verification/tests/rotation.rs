use tetris_core::block::{Block, BlockType, RotDir};

#[test]
fn rotate_block() {
    let mut block = Block::new(BlockType::L);
    block = block.rotate(RotDir::Clockwise);
    assert_eq!(
        block.cells,
        [
            [false, false, false, false],
            [true, true, true, false],
            [true, false, false, false],
            [false, false, false, false],
        ]
    )
}

#[test]
fn rotate_cycle_clockwise() {
    let shapes = [
        BlockType::Square,
        BlockType::L,
        BlockType::I,
        BlockType::Z,
        BlockType::T,
    ];
    for shape in shapes {
        let block = Block::new(shape);
        let turned = block
            .rotate(RotDir::Clockwise)
            .rotate(RotDir::Clockwise)
            .rotate(RotDir::Clockwise)
            .rotate(RotDir::Clockwise);
        assert_eq!(turned.cells, block.cells);
    }
}

#[test]
fn rotate_clockwise_then_counter() {
    let shapes = [
        BlockType::Square,
        BlockType::L,
        BlockType::I,
        BlockType::Z,
        BlockType::T,
    ];
    for shape in shapes {
        let block = Block::new(shape);
        let back = block
            .rotate(RotDir::Clockwise)
            .rotate(RotDir::CounterClockwise);
        assert_eq!(back.cells, block.cells);
    }
}

#[test]
fn select_maps_residues_to_shapes() {
    assert_eq!(BlockType::select(0), BlockType::Square);
    assert_eq!(BlockType::select(1), BlockType::L);
    assert_eq!(BlockType::select(2), BlockType::I);
    assert_eq!(BlockType::select(3), BlockType::Z);
    assert_eq!(BlockType::select(4), BlockType::T);
    assert_eq!(BlockType::select(5), BlockType::Square);
    assert_eq!(BlockType::select(12), BlockType::I);
}

#[test]
fn canonical_masks_match_catalog() {
    let square = Block::new(BlockType::Square);
    assert_eq!(
        square.cells,
        [
            [false, false, false, false],
            [false, true, true, false],
            [false, true, true, false],
            [false, false, false, false],
        ]
    );
    let i = Block::new(BlockType::I);
    assert_eq!(
        i.cells,
        [
            [false, true, false, false],
            [false, true, false, false],
            [false, true, false, false],
            [false, true, false, false],
        ]
    );
}
