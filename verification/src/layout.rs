//! The agreement between the grid and the entities of a level: what it
//! says, and which changes keep it.

use crate::grid::{covers, fits, AllyId, Tile};
use crate::position::Position;
use vstd::prelude::*;

verus! {

/// Where an enemy stands and what it covers.
pub struct Placement {
    pub position: Position,
    pub width: int,
    pub height: int,
}

/// Whether enemy `id`, placed at `place`, lies on the grid and each cell
/// under it carries its tag.
pub open spec fn placed(grid: Map<Position, Tile>, place: Placement, id: int) -> bool {
    &&& place.width >= 1
    &&& place.height >= 1
    &&& place.position.in_bounds()
    &&& fits(place.position, place.width, place.height)
    &&& 0 <= id <= u16::MAX
    &&& forall|p: Position|
        covers(place.position, place.width, place.height, p) ==> #[trigger] grid[p] == Tile::Enemy(
            id as u16,
        )
}

/// Whether the tag of cell `p` names an entity that is there.
pub open spec fn tag_ok(
    tile: Tile,
    p: Position,
    ash_magnum: Option<Position>,
    alukrod: Option<Position>,
    enemies: Seq<Option<Placement>>,
    obstacles: int,
    items: Seq<Option<Position>>,
) -> bool {
    match tile {
        Tile::Empty => true,
        Tile::Ally(AllyId::AshMagnum) => ash_magnum == Some(p),
        Tile::Ally(AllyId::Alukrod) => alukrod == Some(p),
        Tile::Enemy(id) => id < enemies.len() && (enemies[id as int] matches Some(place) && covers(
            place.position,
            place.width,
            place.height,
            p,
        )),
        Tile::Obstacle(id) => id < obstacles,
        Tile::Item(id) => id < items.len() && items[id as int] == Some(p),
    }
}

/// The grid and the entities agree: each unit stands on cells that carry
/// its tag, and each tag names an entity that covers the cell.
pub open spec fn layout_ok(
    grid: Map<Position, Tile>,
    ash_magnum: Option<Position>,
    alukrod: Option<Position>,
    enemies: Seq<Option<Placement>>,
    obstacles: int,
    items: Seq<Option<Position>>,
) -> bool {
    &&& ash_magnum matches Some(p) ==> p.in_bounds() && grid[p] == Tile::Ally(AllyId::AshMagnum)
    &&& alukrod matches Some(p) ==> p.in_bounds() && grid[p] == Tile::Ally(AllyId::Alukrod)
    &&& forall|i: int|
        0 <= i < enemies.len() ==> ((#[trigger] enemies[i]) matches Some(place) ==> placed(
            grid,
            place,
            i,
        ))
    &&& forall|p: Position|
        p.in_bounds() ==> tag_ok(
            #[trigger] grid[p],
            p,
            ash_magnum,
            alukrod,
            enemies,
            obstacles,
            items,
        )
}

/// Whether a placement covers a cell.
pub open spec fn place_covers(place: Option<Placement>, p: Position) -> bool {
    place matches Some(at) && covers(at.position, at.width, at.height, p)
}

/// Whether enemy `id` may be put at `place`: the footprint lies on the
/// grid and each cell under it is empty, holds an item or is its own.
pub open spec fn place_free(grid: Map<Position, Tile>, place: Placement, id: int) -> bool {
    &&& place.width >= 1
    &&& place.height >= 1
    &&& place.position.in_bounds()
    &&& fits(place.position, place.width, place.height)
    &&& forall|p: Position|
        covers(place.position, place.width, place.height, p) ==> (#[trigger] grid[p]).spec_is_free()
            || grid[p] == Tile::Enemy(id as u16)
}

/// The enemies with the placement of enemy `i` set to `to`; `i` may be the
/// next free id.
pub open spec fn with_place(enemies: Seq<Option<Placement>>, i: int, to: Option<Placement>) -> Seq<
    Option<Placement>,
> {
    if i < enemies.len() {
        enemies.update(i, to)
    } else {
        enemies.push(to)
    }
}

/// Whether `after` is `before` with enemy `i` taken from `from` and put at
/// `to`: the cells under `to` carry its tag, the other cells that were
/// under `from` are empty, all others are as they were.
pub open spec fn repainted(
    before: Map<Position, Tile>,
    after: Map<Position, Tile>,
    i: int,
    from: Option<Placement>,
    to: Option<Placement>,
) -> bool {
    forall|p: Position|
        p.in_bounds() ==> #[trigger] after[p] == if place_covers(to, p) {
            Tile::Enemy(i as u16)
        } else if place_covers(from, p) {
            Tile::Empty
        } else {
            before[p]
        }
}

/// The tiles after enemy `id` was taken from `from` and put at `to`: the
/// cells under `to` carry its tag, the other cells that were under `from`
/// are empty.
pub open spec fn tiles_repainted(
    tiles: Map<Position, Tile>,
    id: int,
    from: Option<Placement>,
    to: Option<Placement>,
) -> Map<Position, Tile> {
    Map::new(
        |p: Position| p.in_bounds(),
        |p: Position|
            if place_covers(to, p) {
                Tile::Enemy(id as u16)
            } else if place_covers(from, p) {
                Tile::Empty
            } else {
                tiles[p]
            },
    )
}

/// Moving, removing or adding an enemy keeps grid and entities in
/// agreement, where it is put on cells that are free for it.
pub proof fn lemma_repaint(
    before: Map<Position, Tile>,
    after: Map<Position, Tile>,
    ash_magnum: Option<Position>,
    alukrod: Option<Position>,
    enemies: Seq<Option<Placement>>,
    obstacles: int,
    items: Seq<Option<Position>>,
    i: int,
    to: Option<Placement>,
)
    requires
        layout_ok(before, ash_magnum, alukrod, enemies, obstacles, items),
        0 <= i <= enemies.len(),
        i <= u16::MAX,
        to matches Some(place) ==> place_free(before, place, i),
        repainted(
            before,
            after,
            i,
            if i < enemies.len() {
                enemies[i]
            } else {
                None
            },
            to,
        ),
    ensures
        layout_ok(after, ash_magnum, alukrod, with_place(enemies, i, to), obstacles, items),
{
    let from = if i < enemies.len() {
        enemies[i]
    } else {
        None
    };
    let moved = with_place(enemies, i, to);
    assert forall|p: Position| place_covers(from, p) implies p.in_bounds() && before[p]
        == Tile::Enemy(i as u16) by {
        assert(placed(before, from.unwrap(), i));
    }
    assert forall|p: Position| place_covers(to, p) implies p.in_bounds() && (before[p].spec_is_free()
        || before[p] == Tile::Enemy(i as u16)) by {}
    assert forall|j: int| 0 <= j < moved.len() implies ((#[trigger] moved[j]) matches Some(place)
        ==> placed(after, place, j)) by {
        if let Some(place) = moved[j] {
            if j == i {
                assert forall|p: Position|
                    covers(place.position, place.width, place.height, p) implies #[trigger] after[p]
                    == Tile::Enemy(j as u16) by {
                    assert(place_covers(to, p));
                }
            } else {
                assert(enemies[j] == Some(place));
                assert(placed(before, place, j));
                assert forall|p: Position|
                    covers(place.position, place.width, place.height, p) implies #[trigger] after[p]
                    == Tile::Enemy(j as u16) by {
                    assert(before[p] == Tile::Enemy(j as u16));
                    assert(!place_covers(from, p));
                    assert(!place_covers(to, p));
                }
            }
        }
    }
    assert forall|p: Position| p.in_bounds() implies tag_ok(
        #[trigger] after[p],
        p,
        ash_magnum,
        alukrod,
        moved,
        obstacles,
        items,
    ) by {
        assert(tag_ok(before[p], p, ash_magnum, alukrod, enemies, obstacles, items));
        if place_covers(to, p) {
        } else if place_covers(from, p) {
        } else {
            if let Tile::Enemy(id) = before[p] {
                assert(id != i);
            }
        }
    }
    if let Some(p) = ash_magnum {
        assert(!place_covers(from, p) && !place_covers(to, p));
    }
    if let Some(p) = alukrod {
        assert(!place_covers(from, p) && !place_covers(to, p));
    }
}

/// The position of an ally.
pub open spec fn ally_at(
    ash_magnum: Option<Position>,
    alukrod: Option<Position>,
    id: AllyId,
) -> Option<Position> {
    match id {
        AllyId::AshMagnum => ash_magnum,
        AllyId::Alukrod => alukrod,
    }
}

/// Moving, removing or adding an ally keeps grid and entities in
/// agreement, where it is put on a cell that is free for it.
pub proof fn lemma_ally_repaint(
    before: Map<Position, Tile>,
    after: Map<Position, Tile>,
    ash_magnum: Option<Position>,
    alukrod: Option<Position>,
    enemies: Seq<Option<Placement>>,
    obstacles: int,
    items: Seq<Option<Position>>,
    id: AllyId,
    to: Option<Position>,
)
    requires
        layout_ok(before, ash_magnum, alukrod, enemies, obstacles, items),
        to matches Some(q) ==> q.in_bounds() && (before[q].spec_is_free() || before[q]
            == Tile::Ally(id)),
        forall|p: Position|
            p.in_bounds() ==> #[trigger] after[p] == if Some(p) == to {
                Tile::Ally(id)
            } else if Some(p) == ally_at(ash_magnum, alukrod, id) {
                Tile::Empty
            } else {
                before[p]
            },
    ensures
        layout_ok(
            after,
            if id == AllyId::AshMagnum {
                to
            } else {
                ash_magnum
            },
            if id == AllyId::Alukrod {
                to
            } else {
                alukrod
            },
            enemies,
            obstacles,
            items,
        ),
{
    let from = ally_at(ash_magnum, alukrod, id);
    let ash2 = if id == AllyId::AshMagnum {
        to
    } else {
        ash_magnum
    };
    let alu2 = if id == AllyId::Alukrod {
        to
    } else {
        alukrod
    };
    assert forall|j: int| 0 <= j < enemies.len() implies ((#[trigger] enemies[j]) matches Some(
        place,
    ) ==> placed(after, place, j)) by {
        if let Some(place) = enemies[j] {
            assert(placed(before, place, j));
            assert forall|p: Position|
                covers(place.position, place.width, place.height, p) implies #[trigger] after[p]
                == Tile::Enemy(j as u16) by {
                assert(before[p] == Tile::Enemy(j as u16));
            }
        }
    }
    assert forall|p: Position| p.in_bounds() implies tag_ok(
        #[trigger] after[p],
        p,
        ash2,
        alu2,
        enemies,
        obstacles,
        items,
    ) by {
        assert(tag_ok(before[p], p, ash_magnum, alukrod, enemies, obstacles, items));
    }
    if let Some(p) = ash_magnum {
        assert(tag_ok(before[p], p, ash_magnum, alukrod, enemies, obstacles, items));
    }
    if let Some(p) = alukrod {
        assert(tag_ok(before[p], p, ash_magnum, alukrod, enemies, obstacles, items));
    }
}

/// Putting an item on an empty cell keeps grid and entities in agreement.
pub proof fn lemma_item_added(
    before: Map<Position, Tile>,
    after: Map<Position, Tile>,
    ash_magnum: Option<Position>,
    alukrod: Option<Position>,
    enemies: Seq<Option<Placement>>,
    obstacles: int,
    items: Seq<Option<Position>>,
    q: Position,
)
    requires
        layout_ok(before, ash_magnum, alukrod, enemies, obstacles, items),
        q.in_bounds(),
        before[q] is Empty,
        items.len() <= u16::MAX,
        forall|p: Position|
            p.in_bounds() ==> #[trigger] after[p] == if p == q {
                Tile::Item(items.len() as u16)
            } else {
                before[p]
            },
    ensures
        layout_ok(after, ash_magnum, alukrod, enemies, obstacles, items.push(Some(q))),
{
    assert forall|j: int| 0 <= j < enemies.len() implies ((#[trigger] enemies[j]) matches Some(
        place,
    ) ==> placed(after, place, j)) by {
        if let Some(place) = enemies[j] {
            assert(placed(before, place, j));
            assert forall|p: Position|
                covers(place.position, place.width, place.height, p) implies #[trigger] after[p]
                == Tile::Enemy(j as u16) by {
                assert(before[p] == Tile::Enemy(j as u16));
            }
        }
    }
    assert forall|p: Position| p.in_bounds() implies tag_ok(
        #[trigger] after[p],
        p,
        ash_magnum,
        alukrod,
        enemies,
        obstacles,
        items.push(Some(q)),
    ) by {
        assert(tag_ok(before[p], p, ash_magnum, alukrod, enemies, obstacles, items));
    }
}

/// Whether `after` is `before` with obstacle `id` on each cell of its
/// footprint that lies on the grid.
pub open spec fn obstacle_painted(
    before: Map<Position, Tile>,
    after: Map<Position, Tile>,
    id: int,
    anchor: Position,
    width: int,
    height: int,
) -> bool {
    forall|p: Position|
        p.in_bounds() ==> #[trigger] after[p] == if covers(anchor, width, height, p) {
            Tile::Obstacle(id as u16)
        } else {
            before[p]
        }
}

/// Putting an obstacle on empty cells keeps grid and entities in
/// agreement.
pub proof fn lemma_obstacle_added(
    before: Map<Position, Tile>,
    after: Map<Position, Tile>,
    ash_magnum: Option<Position>,
    alukrod: Option<Position>,
    enemies: Seq<Option<Placement>>,
    obstacles: int,
    items: Seq<Option<Position>>,
    anchor: Position,
    width: int,
    height: int,
)
    requires
        layout_ok(before, ash_magnum, alukrod, enemies, obstacles, items),
        0 <= obstacles < u16::MAX,
        forall|p: Position|
            p.in_bounds() && covers(anchor, width, height, p) ==> (#[trigger] before[p]) is Empty,
        obstacle_painted(before, after, obstacles, anchor, width, height),
    ensures
        layout_ok(after, ash_magnum, alukrod, enemies, obstacles + 1, items),
{
    assert forall|j: int| 0 <= j < enemies.len() implies ((#[trigger] enemies[j]) matches Some(
        place,
    ) ==> placed(after, place, j)) by {
        if let Some(place) = enemies[j] {
            assert(placed(before, place, j));
            assert forall|p: Position|
                covers(place.position, place.width, place.height, p) implies #[trigger] after[p]
                == Tile::Enemy(j as u16) by {
                assert(before[p] == Tile::Enemy(j as u16));
            }
        }
    }
    assert forall|p: Position| p.in_bounds() implies tag_ok(
        #[trigger] after[p],
        p,
        ash_magnum,
        alukrod,
        enemies,
        obstacles + 1,
        items,
    ) by {
        assert(tag_ok(before[p], p, ash_magnum, alukrod, enemies, obstacles, items));
    }
}

} // verus!
