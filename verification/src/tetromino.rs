//! Piece geometry: the seven tetromino kinds, their rotation-state shape
//! matrices, and the integer position of a piece inside the well.

use vstd::prelude::*;

verus! {

/// Side length of the square shape region every rotation matrix lives in.
pub const SHAPE_DIM: usize = 4;

/// Number of cells in one shape matrix.
pub const SHAPE_CELLS: usize = 16;

/// The row/column offset of a shape matrix's top-left corner within the
/// well's coordinate space. Components are plain integers; a shape cell at
/// local (r, c) maps to grid row `y + r` and grid column `x + c`. Either
/// component may be negative while the occupied cells themselves stay inside
/// the grid.
#[derive(Clone, Copy, Debug, PartialEq, Eq, Structural)]
pub struct Position {
    /// Column of the shape's top-left corner.
    pub x: i32,
    /// Row of the shape's top-left corner.
    pub y: i32,
}

/// The seven piece kinds: a closed set of variants, each owning its fixed
/// enumerated set of rotation-state matrices.
#[derive(Clone, Copy, Debug, PartialEq, Eq, Structural)]
pub enum PieceKind {
    I,
    O,
    T,
    S,
    Z,
    J,
    L,
}

/// The nonzero cell code a kind writes into the well; the renderer keys its
/// color lookup on it.
pub open spec fn kind_code(kind: PieceKind) -> u32 {
    match kind {
        PieceKind::I => 1,
        PieceKind::O => 2,
        PieceKind::T => 3,
        PieceKind::S => 4,
        PieceKind::Z => 5,
        PieceKind::J => 6,
        PieceKind::L => 7,
    }
}

/// How many distinct rotation states a kind has.
pub open spec fn rotation_count(kind: PieceKind) -> int {
    match kind {
        PieceKind::I => 2,
        PieceKind::O => 1,
        PieceKind::T => 4,
        PieceKind::S => 2,
        PieceKind::Z => 2,
        PieceKind::J => 4,
        PieceKind::L => 4,
    }
}

/// The occupancy mask of one rotation state: bit `4 * r + c` is set exactly
/// when local cell (r, c) of the 4 x 4 shape region is occupied. Row 0 is the
/// matrix's top row, bit 0 its top-left cell.
pub open spec fn shape_mask(kind: PieceKind, rot: int) -> u16 {
    match kind {
        PieceKind::I => if rot == 0 { 0x00f0 } else { 0x4444 },
        PieceKind::O => 0x0066,
        PieceKind::T => if rot == 0 { 0x0072 } else if rot == 1 { 0x0262 } else if rot == 2 { 0x0270 } else { 0x0232 },
        PieceKind::S => if rot == 0 { 0x0036 } else { 0x0462 },
        PieceKind::Z => if rot == 0 { 0x0063 } else { 0x0264 },
        PieceKind::J => if rot == 0 { 0x0071 } else if rot == 1 { 0x0226 } else if rot == 2 { 0x0470 } else { 0x0322 },
        PieceKind::L => if rot == 0 { 0x0074 } else if rot == 1 { 0x0622 } else if rot == 2 { 0x0170 } else { 0x0223 },
    }
}

/// The shape matrix of one rotation state, row-major: the kind's code where
/// the mask has a bit set, 0 elsewhere.
pub open spec fn shape_cells(kind: PieceKind, rot: int) -> Seq<u32> {
    Seq::new(16, |i: int| if (shape_mask(kind, rot) >> (i as u16)) & 1u16 == 1u16 {
        kind_code(kind)
    } else {
        0u32
    })
}

/// One rotation state of one piece, as a 4 x 4 matrix of cell codes stored
/// row-major: entry 0 is empty, a nonzero entry is an occupied cell carrying
/// the code of the piece kind that produced it.
#[derive(Clone, Debug)]
pub struct PieceShape {
    cells: Vec<u32>,
}

impl View for PieceShape {
    type V = Seq<u32>;

    closed spec fn view(&self) -> Seq<u32> {
        self.cells@
    }
}

impl PieceShape {
    /// A well-formed shape holds exactly one code per cell of the 4 x 4 region.
    pub open spec fn wf(&self) -> bool {
        self@.len() == 16
    }

    /// An all-empty shape matrix.
    pub fn empty() -> (s: Self)
        ensures
            s.wf(),
            forall|i: int| 0 <= i < 16 ==> s@[i] == 0u32,
    {
        let mut cells: Vec<u32> = Vec::new();
        let mut i: usize = 0;
        while i < 16
            invariant
                i <= 16,
                cells@.len() == i as int,
                forall|k: int| 0 <= k < i as int ==> cells@[k] == 0u32,
            decreases 16 - i,
        {
            cells.push(0u32);
            i = i + 1;
        }
        PieceShape { cells }
    }

    /// Write `code` into the cell at local row `r`, column `c`.
    pub fn set_cell(&mut self, r: usize, c: usize, code: u32)
        requires
            old(self).wf(),
            r < 4,
            c < 4,
        ensures
            final(self).wf(),
            final(self)@ == old(self)@.update(4 * r as int + c as int, code),
    {
        self.cells.set(4 * r + c, code);
    }

    /// Read the cell at local row `r`, column `c`.
    pub fn cell(&self, r: usize, c: usize) -> (code: u32)
        requires
            self.wf(),
            r < 4,
            c < 4,
        ensures
            code == self@[4 * r as int + c as int],
    {
        self.cells[4 * r + c]
    }
}

/// The nonzero cell code of a kind, as `kind_code` gives it.
pub fn kind_code_of(kind: PieceKind) -> (code: u32)
    ensures
        code == kind_code(kind),
{
    match kind {
        PieceKind::I => 1,
        PieceKind::O => 2,
        PieceKind::T => 3,
        PieceKind::S => 4,
        PieceKind::Z => 5,
        PieceKind::J => 6,
        PieceKind::L => 7,
    }
}

/// How many distinct rotation states a kind has, as `rotation_count` gives it.
pub fn rotation_count_of(kind: PieceKind) -> (n: u8)
    ensures
        n as int == rotation_count(kind),
        n >= 1,
{
    match kind {
        PieceKind::I => 2,
        PieceKind::O => 1,
        PieceKind::T => 4,
        PieceKind::S => 2,
        PieceKind::Z => 2,
        PieceKind::J => 4,
        PieceKind::L => 4,
    }
}

/// The occupancy mask of one rotation state, as `shape_mask` gives it.
fn shape_mask_of(kind: PieceKind, rot: u8) -> (m: u16)
    ensures
        m == shape_mask(kind, rot as int),
{
    match kind {
        PieceKind::I => if rot == 0 { 0x00f0 } else { 0x4444 },
        PieceKind::O => 0x0066,
        PieceKind::T => if rot == 0 { 0x0072 } else if rot == 1 { 0x0262 } else if rot == 2 { 0x0270 } else { 0x0232 },
        PieceKind::S => if rot == 0 { 0x0036 } else { 0x0462 },
        PieceKind::Z => if rot == 0 { 0x0063 } else { 0x0264 },
        PieceKind::J => if rot == 0 { 0x0071 } else if rot == 1 { 0x0226 } else if rot == 2 { 0x0470 } else { 0x0322 },
        PieceKind::L => if rot == 0 { 0x0074 } else if rot == 1 { 0x0622 } else if rot == 2 { 0x0170 } else { 0x0223 },
    }
}

/// An active piece: its kind and rotation state, which select the shape
/// matrix in play, and the position of that matrix's top-left corner within
/// the well. Position and rotation transitions are driven by the external
/// play-loop; this type only supplies the data the well's predicates test.
#[derive(Clone, Copy, Debug)]
pub struct Piece {
    /// Which of the seven kinds this piece is.
    pub kind: PieceKind,
    /// The active rotation state, always below the kind's rotation count.
    pub rotation: u8,
    /// Where the shape matrix's top-left corner sits in the well.
    pub top_left: Position,
}

impl Piece {
    /// The rotation state selects one of the kind's own matrices.
    pub open spec fn wf(&self) -> bool {
        (self.rotation as int) < rotation_count(self.kind)
    }

    /// The active rotation's shape matrix.
    pub open spec fn shape_spec(&self) -> Seq<u32> {
        shape_cells(self.kind, self.rotation as int)
    }

    /// A piece of the given kind at the given position; `rotation` is reduced
    /// into the kind's own rotation range, so every input yields a
    /// well-formed piece.
    pub fn new(kind: PieceKind, rotation: u8, top_left: Position) -> (p: Piece)
        ensures
            p.wf(),
            p.kind == kind,
            p.top_left == top_left,
            p.rotation as int == rotation as int % rotation_count(kind),
    {
        let n = rotation_count_of(kind);
        Piece { kind, rotation: rotation % n, top_left }
    }

    /// The active rotation's matrix for the piece's kind: a pure lookup in
    /// the kind's fixed shape table.
    pub fn current_shape(&self) -> (s: PieceShape)
        requires
            self.wf(),
        ensures
            s.wf(),
            s@ == self.shape_spec(),
    {
        let mask = shape_mask_of(self.kind, self.rotation);
        let code = kind_code_of(self.kind);
        let mut cells: Vec<u32> = Vec::new();
        let mut i: usize = 0;
        while i < 16
            invariant
                i <= 16,
                cells@.len() == i as int,
                mask == shape_mask(self.kind, self.rotation as int),
                code == kind_code(self.kind),
                forall|k: int| 0 <= k < i as int ==> cells@[k] == self.shape_spec()[k],
            decreases 16 - i,
        {
            let v: u32 = if (mask >> (i as u16)) & 1 == 1 { code } else { 0u32 };
            cells.push(v);
            i = i + 1;
        }
        proof {
            assert(cells@ =~= self.shape_spec());
        }
        PieceShape { cells }
    }
}

} // verus!
