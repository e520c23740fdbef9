//! The tile grid: positions, directions, tiles, per-cell visibility state,
//! and the fixed-size map of squares. Queries outside the grid bounds
//! resolve to an immutable Wall/Unknown square, never a fault.

use vstd::prelude::*;

verus! {

pub const MAP_WIDTH: usize = 37;
pub const MAP_HEIGHT: usize = 25;

/// A cell coordinate. Positions one step outside the grid arise during
/// visibility scans and movement checks; queries on them yield the
/// out-of-range default square.
#[derive(PartialEq, Eq, Structural, Copy, Clone, Debug, Hash)]
pub struct Position {
    pub x: i32,
    pub y: i32,
}

#[derive(PartialEq, Eq, Structural, Copy, Clone, Debug)]
pub enum Direction {
    Up,
    Down,
    Left,
    Right,
}

#[derive(PartialEq, Eq, Structural, Copy, Clone, Debug)]
pub enum Tile {
    Floor,
    Wall,
    Door,
    Exit,
}

#[derive(PartialEq, Eq, Structural, Copy, Clone, Debug)]
pub enum Visibility {
    Visible,
    Remembered,
    Unknown,
}

/// One grid cell: its tile, the entity standing on it (if any, by id),
/// and what the player knows about it.
#[derive(Copy, Clone, Debug)]
pub struct Square {
    pub tile: Tile,
    pub entity: Option<usize>,
    pub visibility: Visibility,
}

impl Position {
    pub open spec fn in_bounds(self) -> bool {
        0 <= self.x < MAP_WIDTH as int && 0 <= self.y < MAP_HEIGHT as int
    }

    /// Strictly inside the outer ring of the grid.
    pub open spec fn interior(self) -> bool {
        0 < self.x < MAP_WIDTH as int - 1 && 0 < self.y < MAP_HEIGHT as int - 1
    }

    pub open spec fn spec_step(self, dir: Direction) -> Position {
        match dir {
            Direction::Up => (Position { x: self.x, y: (self.y - 1) as i32 }),
            Direction::Down => (Position { x: self.x, y: (self.y + 1) as i32 }),
            Direction::Left => (Position { x: (self.x - 1) as i32, y: self.y }),
            Direction::Right => (Position { x: (self.x + 1) as i32, y: self.y }),
        }
    }

    /// The adjacent position one step in `dir`.
    pub fn step(self, dir: Direction) -> (r: Position)
        requires
            i32::MIN < self.x < i32::MAX,
            i32::MIN < self.y < i32::MAX,
        ensures
            r == self.spec_step(dir),
    {
        let Position { x, y } = self;
        match dir {
            Direction::Up => Position { x, y: y - 1 },
            Direction::Down => Position { x, y: y + 1 },
            Direction::Left => Position { x: x - 1, y },
            Direction::Right => Position { x: x + 1, y },
        }
    }
}

impl Tile {
    pub open spec fn spec_render(self) -> char {
        match self {
            Tile::Floor => '.',
            Tile::Wall => '#',
            Tile::Door => '+',
            Tile::Exit => '>',
        }
    }

    /// The glyph character for this tile.
    pub fn render(self) -> (c: char)
        ensures
            c == self.spec_render(),
    {
        match self {
            Tile::Floor => '.',
            Tile::Wall => '#',
            Tile::Door => '+',
            Tile::Exit => '>',
        }
    }
}

/// The default square for positions outside the grid: an unknown wall.
pub open spec fn default_square() -> Square {
    Square { tile: Tile::Wall, entity: None, visibility: Visibility::Unknown }
}

impl Square {
    pub open spec fn spec_is_open(self) -> bool {
        self.entity is None && self.tile != Tile::Wall
    }

    /// A square is open when nothing stands on it and it is not a wall.
    pub fn is_open(self) -> (r: bool)
        ensures
            r == self.spec_is_open(),
    {
        self.entity.is_none() && self.tile != Tile::Wall
    }
}

/// The level map: a fixed `MAP_WIDTH` x `MAP_HEIGHT` array of squares,
/// stored row-major.
pub struct Grid {
    pub squares: Vec<Square>,
}

impl Grid {
    pub open spec fn wf(self) -> bool {
        self.squares.len() == MAP_WIDTH * MAP_HEIGHT
    }

    pub open spec fn index_of(x: int, y: int) -> int {
        y * (MAP_WIDTH as int) + x
    }

    /// The square at in-bounds coordinates (x, y).
    pub open spec fn cell(self, x: int, y: int) -> Square {
        self.squares@[Grid::index_of(x, y)]
    }

    /// The square seen at any position: the stored cell in bounds, the
    /// immutable wall default outside.
    pub open spec fn at(self, pos: Position) -> Square {
        if pos.in_bounds() {
            self.cell(pos.x as int, pos.y as int)
        } else {
            default_square()
        }
    }

    proof fn lemma_index_in_range(x: int, y: int)
        requires
            0 <= x < MAP_WIDTH as int,
            0 <= y < MAP_HEIGHT as int,
        ensures
            0 <= Grid::index_of(x, y) < MAP_WIDTH * MAP_HEIGHT,
            forall|x2: int, y2: int|
                0 <= x2 < MAP_WIDTH as int && 0 <= y2 < MAP_HEIGHT as int
                    && Grid::index_of(x2, y2) == Grid::index_of(x, y) ==> x2 == x && y2 == y,
    {
    }

    /// A fresh grid of unknown walls.
    pub fn new() -> (g: Grid)
        ensures
            g.wf(),
            forall|x: int, y: int|
                0 <= x < MAP_WIDTH as int && 0 <= y < MAP_HEIGHT as int ==> #[trigger] g.cell(
                    x,
                    y,
                ) == default_square(),
    {
        let mut squares: Vec<Square> = Vec::new();
        let mut i: usize = 0;
        while i < MAP_WIDTH * MAP_HEIGHT
            invariant
                i == squares.len(),
                i <= MAP_WIDTH * MAP_HEIGHT,
                forall|j: int| 0 <= j < i ==> squares@[j] == default_square(),
            decreases MAP_WIDTH * MAP_HEIGHT - i,
        {
            squares.push(
                Square { tile: Tile::Wall, entity: None, visibility: Visibility::Unknown },
            );
            i = i + 1;
        }
        Grid { squares }
    }

    /// The square at `pos`, defaulting to an unknown wall out of bounds.
    pub fn get(&self, pos: Position) -> (r: Square)
        requires
            self.wf(),
        ensures
            r == self.at(pos),
    {
        if 0 <= pos.x && pos.x < MAP_WIDTH as i32 && 0 <= pos.y && pos.y < MAP_HEIGHT as i32 {
            self.squares[(pos.y as usize) * MAP_WIDTH + (pos.x as usize)]
        } else {
            Square { tile: Tile::Wall, entity: None, visibility: Visibility::Unknown }
        }
    }

    /// Replace the whole square at an in-bounds position.
    pub fn put(&mut self, pos: Position, sq: Square)
        requires
            old(self).wf(),
            pos.in_bounds(),
        ensures
            final(self).wf(),
            final(self).cell(pos.x as int, pos.y as int) == sq,
            forall|x: int, y: int|
                0 <= x < MAP_WIDTH as int && 0 <= y < MAP_HEIGHT as int && !(x == pos.x as int && y
                    == pos.y as int) ==> #[trigger] final(self).cell(x, y) == old(self).cell(x, y),
    {
        proof {
            Grid::lemma_index_in_range(pos.x as int, pos.y as int);
        }
        self.squares.set((pos.y as usize) * MAP_WIDTH + (pos.x as usize), sq);
        proof {
            assert forall|x: int, y: int|
                0 <= x < MAP_WIDTH as int && 0 <= y < MAP_HEIGHT as int && !(x == pos.x as int && y
                    == pos.y as int) implies #[trigger] self.cell(x, y) == old(self).cell(
                x,
                y,
            ) by {
                Grid::lemma_index_in_range(x, y);
            }
        }
    }
}

} // verus!
