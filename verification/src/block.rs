//! Piece shapes: the fixed catalog of 4x4 occupancy masks and the
//! quarter-turn rotation transform on them.

use vstd::prelude::*;

verus! {

/// The five piece shapes.
#[derive(Clone, Copy, PartialEq, Eq, Structural, Debug)]
pub enum BlockType {
    Square,
    L,
    I,
    Z,
    T,
}

/// Direction of a 90-degree rotation of a mask.
#[derive(Clone, Copy, PartialEq, Eq, Structural, Debug)]
pub enum RotDir {
    Clockwise,
    CounterClockwise,
}

/// A piece's current occupancy mask: `cells[row][col]` is true where the
/// piece fills that cell of its 4x4 bounding box.
#[derive(Clone, Copy, Debug)]
pub struct Block {
    pub cells: [[bool; 4]; 4],
}

impl View for Block {
    type V = Seq<Seq<bool>>;

    open spec fn view(&self) -> Seq<Seq<bool>> {
        Seq::new(4, |r: int| Seq::new(4, |c: int| self.cells[r][c]))
    }
}

/// A well-formed mask is a 4x4 grid of booleans.
pub open spec fn mask_wf(m: Seq<Seq<bool>>) -> bool {
    &&& m.len() == 4
    &&& forall|r: int| 0 <= r < 4 ==> (#[trigger] m[r]).len() == 4
}

/// The canonical mask of each shape.
pub open spec fn mask_of(v: BlockType) -> Seq<Seq<bool>> {
    match v {
        BlockType::Square => seq![
            seq![false, false, false, false],
            seq![false, true, true, false],
            seq![false, true, true, false],
            seq![false, false, false, false],
        ],
        BlockType::L => seq![
            seq![false, false, false, false],
            seq![false, true, false, false],
            seq![false, true, false, false],
            seq![false, true, true, false],
        ],
        BlockType::I => seq![
            seq![false, true, false, false],
            seq![false, true, false, false],
            seq![false, true, false, false],
            seq![false, true, false, false],
        ],
        BlockType::Z => seq![
            seq![false, false, false, false],
            seq![true, true, false, false],
            seq![false, true, true, false],
            seq![false, false, false, false],
        ],
        BlockType::T => seq![
            seq![false, false, false, false],
            seq![true, true, true, false],
            seq![false, true, false, false],
            seq![false, false, false, false],
        ],
    }
}

/// Whether the mask has at least one occupied cell.
pub open spec fn mask_nonempty(m: Seq<Seq<bool>>) -> bool {
    exists|r: int, c: int| 0 <= r < 4 && 0 <= c < 4 && #[trigger] m[r][c]
}

/// Every canonical mask is well formed, occupies cell (1, 1), and occupies
/// no column right of column 2: a spawned piece fits any field at least
/// five columns wide.
pub proof fn lemma_canonical_mask(v: BlockType)
    ensures
        mask_wf(mask_of(v)),
        mask_nonempty(mask_of(v)),
        mask_of(v)[1][1],
        forall|r: int, c: int| 0 <= r < 4 && 0 <= c < 4 && #[trigger] mask_of(v)[r][c] ==> c <= 2,
{
    match v {
        BlockType::Square => {
            assert(mask_of(v)[1][1]);
            assert(forall|r: int, c: int|
                0 <= r < 4 && 0 <= c < 4 && #[trigger] mask_of(v)[r][c] ==> c <= 2);
        }
        BlockType::L => {
            assert(mask_of(v)[1][1]);
            assert(forall|r: int, c: int|
                0 <= r < 4 && 0 <= c < 4 && #[trigger] mask_of(v)[r][c] ==> c <= 2);
        }
        BlockType::I => {
            assert(mask_of(v)[1][1]);
            assert(forall|r: int, c: int|
                0 <= r < 4 && 0 <= c < 4 && #[trigger] mask_of(v)[r][c] ==> c <= 2);
        }
        BlockType::Z => {
            assert(mask_of(v)[1][1]);
            assert(forall|r: int, c: int|
                0 <= r < 4 && 0 <= c < 4 && #[trigger] mask_of(v)[r][c] ==> c <= 2);
        }
        BlockType::T => {
            assert(mask_of(v)[1][1]);
            assert(forall|r: int, c: int|
                0 <= r < 4 && 0 <= c < 4 && #[trigger] mask_of(v)[r][c] ==> c <= 2);
        }
    }
}

/// A quarter turn keeps the mask well formed and keeps it occupied.
pub proof fn lemma_rot_cw_shape(m: Seq<Seq<bool>>)
    requires
        mask_wf(m),
        mask_nonempty(m),
    ensures
        mask_wf(rot_cw(m)),
        mask_nonempty(rot_cw(m)),
{
    assert(forall|r: int| 0 <= r < 4 ==> (#[trigger] rot_cw(m)[r]).len() == 4);
    let (r, c) = choose|r: int, c: int| 0 <= r < 4 && 0 <= c < 4 && #[trigger] m[r][c];
    assert(rot_cw(m)[c][3 - r] == m[r][c]);
}

/// A mask turned 90 degrees clockwise: cell (r, c) comes from (3-c, r).
pub open spec fn rot_cw(m: Seq<Seq<bool>>) -> Seq<Seq<bool>> {
    Seq::new(4, |r: int| Seq::new(4, |c: int| m[3 - c][r]))
}

/// A mask turned 90 degrees counter-clockwise: cell (r, c) comes from (c, 3-r).
pub open spec fn rot_ccw(m: Seq<Seq<bool>>) -> Seq<Seq<bool>> {
    Seq::new(4, |r: int| Seq::new(4, |c: int| m[c][3 - r]))
}

/// Rotation cycle law: four clockwise quarter turns give back the original
/// mask, and a counter-clockwise turn undoes a clockwise one.
pub proof fn lemma_rotate_cycle(m: Seq<Seq<bool>>)
    requires
        mask_wf(m),
    ensures
        rot_cw(rot_cw(rot_cw(rot_cw(m)))) == m,
        rot_ccw(rot_cw(m)) == m,
{
    assert(rot_cw(rot_cw(rot_cw(rot_cw(m)))) =~~= m);
    assert(rot_ccw(rot_cw(m)) =~~= m);
}

/// Relies on rand::random: a uniformly distributed u16. Nothing is assumed
/// about the value drawn.
#[verifier::external_body]
fn random_u16() -> u16 {
    rand::random()
}

/// The shape that a raw random draw selects, by its residue modulo 5.
pub open spec fn shape_of_draw(x: int) -> BlockType {
    if x % 5 == 0 {
        BlockType::Square
    } else if x % 5 == 1 {
        BlockType::L
    } else if x % 5 == 2 {
        BlockType::I
    } else if x % 5 == 3 {
        BlockType::Z
    } else {
        BlockType::T
    }
}

impl BlockType {
    /// Map a raw draw to a shape: uniform over the five variants.
    pub fn select(x: u16) -> (v: BlockType)
        ensures
            v == shape_of_draw(x as int),
    {
        let r = x % 5;
        if r == 0 {
            BlockType::Square
        } else if r == 1 {
            BlockType::L
        } else if r == 2 {
            BlockType::I
        } else if r == 3 {
            BlockType::Z
        } else {
            BlockType::T
        }
    }

    /// A uniformly random shape. The variant drawn is not specified.
    pub fn rand() -> BlockType {
        BlockType::select(random_u16())
    }
}

impl Block {
    /// The canonical mask of the given shape.
    pub fn new(variant: BlockType) -> (b: Block)
        ensures
            b@ == mask_of(variant),
    {
        let b = Block {
            cells: match variant {
                BlockType::Square => [
                    [false, false, false, false],
                    [false, true, true, false],
                    [false, true, true, false],
                    [false, false, false, false],
                ],
                BlockType::L => [
                    [false, false, false, false],
                    [false, true, false, false],
                    [false, true, false, false],
                    [false, true, true, false],
                ],
                BlockType::I => [
                    [false, true, false, false],
                    [false, true, false, false],
                    [false, true, false, false],
                    [false, true, false, false],
                ],
                BlockType::Z => [
                    [false, false, false, false],
                    [true, true, false, false],
                    [false, true, true, false],
                    [false, false, false, false],
                ],
                BlockType::T => [
                    [false, false, false, false],
                    [true, true, true, false],
                    [false, true, false, false],
                    [false, false, false, false],
                ],
            },
        };
        proof {
            assert(b@ =~~= mask_of(variant));
        }
        b
    }

    /// The mask turned a quarter turn in the given direction. The original
    /// block is untouched; the caller decides whether to commit the result.
    pub fn rotate(&self, dir: RotDir) -> (b: Block)
        ensures
            dir == RotDir::Clockwise ==> b@ == rot_cw(self@),
            dir == RotDir::CounterClockwise ==> b@ == rot_ccw(self@),
    {
        let c = &self.cells;
        let b = Block {
            cells: match dir {
                RotDir::Clockwise => [
                    [c[3][0], c[2][0], c[1][0], c[0][0]],
                    [c[3][1], c[2][1], c[1][1], c[0][1]],
                    [c[3][2], c[2][2], c[1][2], c[0][2]],
                    [c[3][3], c[2][3], c[1][3], c[0][3]],
                ],
                RotDir::CounterClockwise => [
                    [c[0][3], c[1][3], c[2][3], c[3][3]],
                    [c[0][2], c[1][2], c[2][2], c[3][2]],
                    [c[0][1], c[1][1], c[2][1], c[3][1]],
                    [c[0][0], c[1][0], c[2][0], c[3][0]],
                ],
            },
        };
        proof {
            match dir {
                RotDir::Clockwise => {
                    assert(b@ =~~= rot_cw(self@));
                }
                RotDir::CounterClockwise => {
                    assert(b@ =~~= rot_ccw(self@));
                }
            }
        }
        b
    }
}

} // verus!
