//! The occupancy grid: one tag per cell, and the footprints of units.

use crate::position::{Position, LEVEL_HEIGHT, LEVEL_WIDTH};
use vstd::prelude::*;

verus! {

/// The roster slot of an ally.
#[derive(Debug, Clone, Copy, PartialEq, Eq, Hash, Structural)]
pub enum AllyId {
    AshMagnum,
    Alukrod,
}

impl AllyId {
    pub open spec fn spec_name(self) -> Seq<char> {
        match self {
            AllyId::AshMagnum => "Ash Magnum"@,
            AllyId::Alukrod => "Alukrod"@,
        }
    }

    pub fn name(&self) -> (name: String)
        ensures
            name@ == self.spec_name(),
    {
        match self {
            AllyId::AshMagnum => "Ash Magnum".to_owned(),
            AllyId::Alukrod => "Alukrod".to_owned(),
        }
    }
}

/// Enemies are numbered from 0 in the order in which they enter a level.
pub type EnemyId = u16;

/// Obstacles are numbered from 0 in the order in which they enter a level.
pub type ObstacleId = u16;

/// Items are numbered from 0 in the order in which they enter a level.
pub type ItemId = u16;

/// The occupant of a cell.
#[derive(Debug, Clone, Copy, PartialEq, Eq, Structural)]
pub enum Tile {
    Empty,
    Ally(AllyId),
    Enemy(EnemyId),
    Obstacle(ObstacleId),
    Item(ItemId),
}

impl Tile {
    pub fn is_empty(&self) -> (empty: bool)
        ensures
            empty == (*self is Empty),
    {
        match self {
            Tile::Empty => true,
            _ => false,
        }
    }

    /// Whether a unit pushed or spawned onto the cell may take it: the cell
    /// is empty or holds only an item.
    pub open spec fn spec_is_free(self) -> bool {
        self is Empty || self is Item
    }

    pub fn is_free(&self) -> (free: bool)
        ensures
            free == self.spec_is_free(),
    {
        match self {
            Tile::Empty | Tile::Item(_) => true,
            _ => false,
        }
    }
}

/// Whether the footprint of `width` by `height` cells anchored at `anchor`
/// (its top-left cell) covers `p`.
pub open spec fn covers(anchor: Position, width: int, height: int, p: Position) -> bool {
    anchor.x <= p.x < anchor.x + width && anchor.y <= p.y < anchor.y + height
}

/// Whether the whole footprint lies on the grid.
pub open spec fn fits(anchor: Position, width: int, height: int) -> bool {
    anchor.x + width <= LEVEL_WIDTH && anchor.y + height <= LEVEL_HEIGHT
}

/// The cell at offset (`i`, `j`) from `anchor`.
pub open spec fn offset(anchor: Position, i: int, j: int) -> Position {
    Position { x: (anchor.x + i) as usize, y: (anchor.y + j) as usize }
}

/// The cells of a footprint, column by column.
pub open spec fn footprint_spec(anchor: Position, width: int, height: int) -> Seq<Position> {
    Seq::new((width * height) as nat, |k: int| offset(anchor, k / height, k % height))
}

/// The cells that a unit of `width` by `height` anchored at `anchor`
/// covers, column by column.
pub fn footprint(anchor: Position, width: usize, height: usize) -> (cells: Vec<Position>)
    requires
        fits(anchor, width as int, height as int),
    ensures
        cells@ == footprint_spec(anchor, width as int, height as int),
{
    let mut cells: Vec<Position> = Vec::new();
    let mut i: usize = 0;
    while i < width
        invariant
            i <= width,
            fits(anchor, width as int, height as int),
            cells@ == footprint_spec(anchor, i as int, height as int),
        decreases width - i,
    {
        let mut j: usize = 0;
        while j < height
            invariant
                i < width,
                j <= height,
                fits(anchor, width as int, height as int),
                cells@.len() == i * height + j,
                forall|k: int|
                    0 <= k < cells@.len() ==> cells@[k] == offset(
                        anchor,
                        k / (height as int),
                        k % (height as int),
                    ),
            decreases height - j,
        {
            proof {
                let k = i * height + j;
                assert(k / (height as int) == i && k % (height as int) == j) by (nonlinear_arith)
                    requires
                        k == i * height + j,
                        0 <= j < height,
                        0 <= i,
                ;
            }
            cells.push(Position { x: anchor.x + i, y: anchor.y + j });
            j += 1;
        }
        proof {
            assert((i + 1) * height == i * height + height) by (nonlinear_arith);
            assert(cells@ =~= footprint_spec(anchor, i + 1, height as int));
        }
        i += 1;
    }
    cells
}

/// Whether the cell at offset (`i`, `j`) from `p` lies on the grid and
/// holds nothing but, possibly, a part of the mover itself.
pub open spec fn cell_open(tiles: Map<Position, Tile>, p: Position, i: int, j: int, mover: Tile) -> bool {
    &&& offset(p, i, j).in_bounds()
    &&& p.x + i < LEVEL_WIDTH
    &&& p.y + j < LEVEL_HEIGHT
    &&& (tiles[offset(p, i, j)] == mover || tiles[offset(p, i, j)] is Empty)
}

/// Whether a mover of `width` by `height` cells can stand anchored at
/// `p`: each cell under it is on the grid and empty or its own.
pub open spec fn traversable(
    tiles: Map<Position, Tile>,
    p: Position,
    mover: Tile,
    width: int,
    height: int,
) -> bool {
    forall|i: int, j: int|
        0 <= i < width && 0 <= j < height ==> #[trigger] cell_open(tiles, p, i, j, mover)
}

/// Whether the cell at offset (`i`, `j`) from `p` lies on the grid and is
/// free for the mover: empty, holding only an item, or its own.
pub open spec fn cell_free(tiles: Map<Position, Tile>, p: Position, i: int, j: int, mover: Tile) -> bool {
    &&& offset(p, i, j).in_bounds()
    &&& p.x + i < LEVEL_WIDTH
    &&& p.y + j < LEVEL_HEIGHT
    &&& (tiles[offset(p, i, j)] == mover || tiles[offset(p, i, j)].spec_is_free())
}

/// Whether a mover of `width` by `height` cells can be put anchored at
/// `p`: each cell under it is on the grid and free for it.
pub open spec fn free_for(
    tiles: Map<Position, Tile>,
    p: Position,
    mover: Tile,
    width: int,
    height: int,
) -> bool {
    forall|i: int, j: int|
        0 <= i < width && 0 <= j < height ==> #[trigger] cell_free(tiles, p, i, j, mover)
}

/// A footprint that is free for a mover, told cell by cell.
pub proof fn lemma_free_for_covers(
    tiles: Map<Position, Tile>,
    anchor: Position,
    mover: Tile,
    width: int,
    height: int,
)
    requires
        width >= 1,
        height >= 1,
        anchor.in_bounds(),
    ensures
        free_for(tiles, anchor, mover, width, height) <==> (fits(anchor, width, height) && forall|
            p: Position,
        |
            covers(anchor, width, height, p) ==> (#[trigger] tiles[p]).spec_is_free() || tiles[p]
                == mover),
{
    if free_for(tiles, anchor, mover, width, height) {
        assert(cell_free(tiles, anchor, width - 1, height - 1, mover));
        assert forall|p: Position| covers(anchor, width, height, p) implies (#[trigger] tiles[p]).spec_is_free()
            || tiles[p] == mover by {
            assert(cell_free(tiles, anchor, p.x - anchor.x, p.y - anchor.y, mover));
            assert(offset(anchor, p.x - anchor.x, p.y - anchor.y) == p);
        }
    }
    if fits(anchor, width, height) && (forall|p: Position|
        covers(anchor, width, height, p) ==> (#[trigger] tiles[p]).spec_is_free() || tiles[p]
            == mover) {
        assert forall|i: int, j: int| 0 <= i < width && 0 <= j < height implies #[trigger] cell_free(
            tiles,
            anchor,
            i,
            j,
            mover,
        ) by {
            assert(covers(anchor, width, height, offset(anchor, i, j)));
        }
    }
}

/// A footprint on which a mover can stand, told cell by cell.
pub proof fn lemma_traversable_covers(
    tiles: Map<Position, Tile>,
    anchor: Position,
    mover: Tile,
    width: int,
    height: int,
)
    requires
        width >= 1,
        height >= 1,
        anchor.in_bounds(),
    ensures
        traversable(tiles, anchor, mover, width, height) <==> (fits(anchor, width, height)
            && forall|p: Position|
            covers(anchor, width, height, p) ==> (#[trigger] tiles[p]) is Empty || tiles[p]
                == mover),
{
    if traversable(tiles, anchor, mover, width, height) {
        assert(cell_open(tiles, anchor, width - 1, height - 1, mover));
        assert forall|p: Position| covers(anchor, width, height, p) implies (#[trigger] tiles[p]) is Empty
            || tiles[p] == mover by {
            assert(cell_open(tiles, anchor, p.x - anchor.x, p.y - anchor.y, mover));
            assert(offset(anchor, p.x - anchor.x, p.y - anchor.y) == p);
        }
    }
    if fits(anchor, width, height) && (forall|p: Position|
        covers(anchor, width, height, p) ==> (#[trigger] tiles[p]) is Empty || tiles[p] == mover) {
        assert forall|i: int, j: int| 0 <= i < width && 0 <= j < height implies #[trigger] cell_open(
            tiles,
            anchor,
            i,
            j,
            mover,
        ) by {
            assert(covers(anchor, width, height, offset(anchor, i, j)));
        }
    }
}

/// The occupancy grid of a level.
pub struct Grid {
    cells: [Tile; 512],
}

impl View for Grid {
    type V = Map<Position, Tile>;

    /// The tag of each cell of the grid.
    closed spec fn view(&self) -> Map<Position, Tile> {
        Map::new(
            |p: Position| p.in_bounds(),
            |p: Position| self.cells@[p.x * LEVEL_HEIGHT + p.y],
        )
    }
}

impl Grid {
    /// The grid with every cell empty.
    pub fn new() -> (grid: Grid)
        ensures
            forall|p: Position| p.in_bounds() ==> grid@[p] == Tile::Empty,
    {
        Grid { cells: [Tile::Empty;512] }
    }

    /// The tag of the cell at `position`.
    pub fn at(&self, position: Position) -> (tile: Tile)
        requires
            position.in_bounds(),
        ensures
            tile == self@[position],
    {
        self.cells[position.x * LEVEL_HEIGHT + position.y]
    }

    /// Writes the tag of one cell.
    pub fn set(&mut self, position: Position, tile: Tile)
        requires
            position.in_bounds(),
        ensures
            final(self)@ == old(self)@.insert(position, tile),
    {
        self.cells[position.x * LEVEL_HEIGHT + position.y] = tile;
        assert(self@ =~= old(self)@.insert(position, tile));
    }

    /// Writes `tile` to each cell of a footprint.
    pub fn fill(&mut self, anchor: Position, width: usize, height: usize, tile: Tile)
        requires
            fits(anchor, width as int, height as int),
        ensures
            final(self)@ == Map::new(
                |p: Position| p.in_bounds(),
                |p: Position|
                    if covers(anchor, width as int, height as int, p) {
                        tile
                    } else {
                        old(self)@[p]
                    },
            ),
    {
        let mut i: usize = 0;
        while i < width
            invariant
                i <= width,
                fits(anchor, width as int, height as int),
                self@ == Map::new(
                    |p: Position| p.in_bounds(),
                    |p: Position|
                        if covers(anchor, i as int, height as int, p) {
                            tile
                        } else {
                            old(self)@[p]
                        },
                ),
            decreases width - i,
        {
            let mut j: usize = 0;
            while j < height
                invariant
                    i < width,
                    j <= height,
                    fits(anchor, width as int, height as int),
                    self@ == Map::new(
                        |p: Position| p.in_bounds(),
                        |p: Position|
                            if covers(anchor, i as int, height as int, p) || (p.x == anchor.x + i
                                && anchor.y <= p.y < anchor.y + j) {
                                tile
                            } else {
                                old(self)@[p]
                            },
                    ),
                decreases height - j,
            {
                self.set(Position { x: anchor.x + i, y: anchor.y + j }, tile);
                j += 1;
                assert(self@ =~= Map::new(
                    |p: Position| p.in_bounds(),
                    |p: Position|
                        if covers(anchor, i as int, height as int, p) || (p.x == anchor.x + i
                            && anchor.y <= p.y < anchor.y + j) {
                            tile
                        } else {
                            old(self)@[p]
                        },
                ));
            }
            i += 1;
            assert(self@ =~= Map::new(
                |p: Position| p.in_bounds(),
                |p: Position|
                    if covers(anchor, i as int, height as int, p) {
                        tile
                    } else {
                        old(self)@[p]
                    },
            ));
        }
    }

    /// A grid holds a tag for each cell on the grid and for no other.
    pub proof fn lemma_domain_all(self)
        ensures
            self@.dom() == Set::new(|p: Position| p.in_bounds()),
    {
        assert(self@.dom() =~= Set::new(|p: Position| p.in_bounds()));
    }

    /// Whether a mover of `width` by `height` cells, tagged `mover`, can
    /// stand anchored at `p`.
    pub fn is_traversable(&self, p: Position, mover: Tile, width: usize, height: usize) -> (open:
        bool)
        requires
            p.in_bounds(),
        ensures
            open == traversable(self@, p, mover, width as int, height as int),
    {
        let mut i: usize = 0;
        while i < width
            invariant
                i <= width,
                p.in_bounds(),
                forall|a: int, b: int|
                    0 <= a < i && 0 <= b < height ==> #[trigger] cell_open(self@, p, a, b, mover),
            decreases width - i,
        {
            let mut j: usize = 0;
            while j < height
                invariant
                    i < width,
                    j <= height,
                    p.in_bounds(),
                    forall|a: int, b: int|
                        0 <= a < i && 0 <= b < height ==> #[trigger] cell_open(self@, p, a, b, mover),
                    forall|b: int| 0 <= b < j ==> #[trigger] cell_open(self@, p, i as int, b, mover),
                decreases height - j,
            {
                if i >= LEVEL_WIDTH - p.x || j >= LEVEL_HEIGHT - p.y {
                    assert(!cell_open(self@, p, i as int, j as int, mover));
                    return false;
                }
                let tile = self.at(Position { x: p.x + i, y: p.y + j });
                if tile != mover {
                    if !tile.is_empty() {
                        assert(!cell_open(self@, p, i as int, j as int, mover));
                        return false;
                    }
                }
                j += 1;
            }
            i += 1;
        }
        true
    }
}

impl Grid {
    /// Whether a mover of `width` by `height` cells, tagged `mover`, can
    /// be put anchored at `p`: each cell under it is on the grid and is
    /// empty, holds only an item, or is its own.
    pub fn is_free_for(&self, p: Position, mover: Tile, width: usize, height: usize) -> (free:
        bool)
        requires
            p.in_bounds(),
        ensures
            free == free_for(self@, p, mover, width as int, height as int),
    {
        let mut i: usize = 0;
        while i < width
            invariant
                i <= width,
                p.in_bounds(),
                forall|a: int, b: int|
                    0 <= a < i && 0 <= b < height ==> #[trigger] cell_free(self@, p, a, b, mover),
            decreases width - i,
        {
            let mut j: usize = 0;
            while j < height
                invariant
                    i < width,
                    j <= height,
                    p.in_bounds(),
                    forall|a: int, b: int|
                        0 <= a < i && 0 <= b < height ==> #[trigger] cell_free(
                            self@,
                            p,
                            a,
                            b,
                            mover,
                        ),
                    forall|b: int| 0 <= b < j ==> #[trigger] cell_free(self@, p, i as int, b, mover),
                decreases height - j,
            {
                if i >= LEVEL_WIDTH - p.x || j >= LEVEL_HEIGHT - p.y {
                    assert(!cell_free(self@, p, i as int, j as int, mover));
                    return false;
                }
                let tile = self.at(Position { x: p.x + i, y: p.y + j });
                if tile != mover {
                    if !tile.is_free() {
                        assert(!cell_free(self@, p, i as int, j as int, mover));
                        return false;
                    }
                }
                j += 1;
            }
            i += 1;
        }
        true
    }
}

} // verus!
