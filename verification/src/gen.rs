//! The map generator. Rooms are fixed 5x5 stencils stamped centered on
//! a 6x4 lattice of anchor points, each under one of 8 symmetry
//! transforms chosen at random; a door is carved at the midpoint between
//! each anchor and its left and upper neighbours, which connects every
//! room to every other. The player starts at the first anchor, the exit
//! room sits at the last, and creatures of random type are scattered
//! over open, doorless cells. Generation is deterministic given the
//! level's generator state: it consumes randomness and never reseeds.

use crate::cards::{Card, CardState, CardStatus};
use crate::combat::log_extends;
use crate::entity::{EntityType, PLAYER};
use crate::grid::{Position, Tile, MAP_HEIGHT, MAP_WIDTH};
use crate::level::{deck_bounded, Level};
use crate::rng::rng_gen_range;
use vstd::prelude::*;

verus! {

pub enum LevelType {
    Test,
}

#[derive(PartialEq, Eq, Structural, Copy, Clone, Debug)]
pub enum RoomStyle {
    Square,
    Rounded,
    Diamond,
    Hallway,
    Plus,
    RoundedPlus,
    Corner,
    Random,
    ExitSquare,
}


/// Whether (x, y) lies in the 5x5 stencil box centered on `pos`.
pub open spec fn in_room_box(pos: Position, x: int, y: int) -> bool {
    pos.x - 2 <= x <= pos.x + 2 && pos.y - 2 <= y <= pos.y + 2
}

/// The 25-bit wall mask of a style's 5x5 stencil, row-major; every
/// unset bit is floor (the exit room gets its Exit tile separately).
pub open spec fn stencil_wall_mask_spec(style: RoomStyle) -> u32 {
    match style {
        RoomStyle::Square => 0,
        RoomStyle::Rounded => 17825809,
        RoomStyle::Diamond => 28869179,
        RoomStyle::Hallway => 29197179,
        RoomStyle::Plus => 145536,
        RoomStyle::RoundedPlus => 17971345,
        RoomStyle::Corner => 28836467,
        RoomStyle::Random => 0,
        RoomStyle::ExitSquare => 0,
    }
}

#[verifier::when_used_as_spec(stencil_wall_mask_spec)]
fn stencil_wall_mask(style: RoomStyle) -> (r: u32)
    ensures
        r == stencil_wall_mask_spec(style),
{
    match style {
        RoomStyle::Square => 0,
        RoomStyle::Rounded => 17825809,
        RoomStyle::Diamond => 28869179,
        RoomStyle::Hallway => 29197179,
        RoomStyle::Plus => 145536,
        RoomStyle::RoundedPlus => 17971345,
        RoomStyle::Corner => 28836467,
        RoomStyle::Random => 0,
        RoomStyle::ExitSquare => 0,
    }
}

/// The x coordinates of the anchor lattice.
fn room_x(j: usize) -> (r: i32)
    requires
        j < 6,
    ensures
        r as int == 3 + 6 * (j as int),
{
    match j {
        0 => 3,
        1 => 9,
        2 => 15,
        3 => 21,
        4 => 27,
        _ => 33,
    }
}

/// The y coordinates of the anchor lattice.
fn room_y(i: usize) -> (r: i32)
    requires
        i < 4,
    ensures
        r as int == 3 + 6 * (i as int),
{
    match i {
        0 => 3,
        1 => 9,
        2 => 15,
        _ => 21,
    }
}

/// Generate the level's map in place for the given layout style.
pub fn generate_map(level: &mut Level, typ: LevelType)
    requires
        old(level).wf(),
        old(level).entities@.len() + 100 < usize::MAX,
    ensures
        final(level).wf(),
        final(level).level == old(level).level,
        final(level).collected == old(level).collected,
        log_extends(*old(level), *final(level)),
        final(level).log.messages@.len() == old(level).log.messages@.len() + 1,
        final(level).grid.cell(33, 21).tile == Tile::Exit,
        lattice_doors(*final(level)),
        grid_unoccupied(*old(level)) && old(level).alive(PLAYER as int) ==> final(level).pos_of(
            PLAYER as int,
        ) == Some(Position { x: 3, y: 3 }),
        forall|e2: int|
            0 <= e2 < old(level).entities@.len() ==> ((#[trigger] final(level).alive(e2)
                <==> old(level).alive(e2)) && (final(level).alive(e2) ==> final(level).rec(
                e2,
            ).typ == old(level).rec(e2).typ && final(level).rec(e2).deck == old(level).rec(
                e2,
            ).deck && final(level).rec(e2).goal == old(level).rec(e2).goal && final(level).rec(
                e2,
            ).mods == old(level).rec(e2).mods)),
        forall|e2: int|
            old(level).entities@.len() <= e2 < final(level).entities@.len()
                ==> #[trigger] placed_creature(*final(level), e2),
{
    match typ {
        LevelType::Test => {
            test_map(level);
        },
    }
}


/// A door stands at the midpoint between every anchor and its left and
/// upper lattice neighbours, connecting every room to every other.
pub open spec fn lattice_doors(lvl: Level) -> bool {
    &&& forall|i2: int, j2: int|
        0 <= i2 < 4 && 1 <= j2 < 6 ==> (#[trigger] lvl.grid.cell(6 * j2, 3 + 6 * i2)).tile
            == Tile::Door
    &&& forall|i2: int, j2: int|
        1 <= i2 < 4 && 0 <= j2 < 6 ==> (#[trigger] lvl.grid.cell(3 + 6 * j2, 6 * i2)).tile
            == Tile::Door
}

/// No cell of the grid is occupied.
pub open spec fn grid_unoccupied(lvl: Level) -> bool {
    forall|x: int, y: int|
        0 <= x < MAP_WIDTH as int && 0 <= y < MAP_HEIGHT as int ==> (#[trigger] lvl.grid.cell(
            x,
            y,
        )).entity is None
}

/// A living creature of one of the three concrete types, placed
/// somewhere, holding exactly the canonical starting deck of its type.
pub open spec fn placed_creature(lvl: Level, e: int) -> bool {
    &&& lvl.alive(e)
    &&& (lvl.rec(e).typ == EntityType::Defender || lvl.rec(e).typ == EntityType::Hunter
        || lvl.rec(e).typ == EntityType::Reaper)
    &&& lvl.deck_of(e) == canonical_deck(lvl.rec(e).typ)
    &&& lvl.rec(e).pos is Some
}

/// The one layout style: the full anchor lattice with a forced plain
/// start room, a forced exit room, doors between neighbours, the player
/// at the first anchor and up to 64 scattered creatures.
fn test_map(level: &mut Level)
    requires
        old(level).wf(),
        old(level).entities@.len() + 100 < usize::MAX,
    ensures
        final(level).wf(),
        final(level).level == old(level).level,
        final(level).collected == old(level).collected,
        log_extends(*old(level), *final(level)),
        final(level).log.messages@.len() == old(level).log.messages@.len() + 1,
        final(level).log.messages@.last()@
            == "You are in some sort of server. It seems pretty quiet here."@,
        final(level).grid.cell(33, 21).tile == Tile::Exit,
        lattice_doors(*final(level)),
        grid_unoccupied(*old(level)) && old(level).alive(PLAYER as int) ==> final(level).pos_of(
            PLAYER as int,
        ) == Some(Position { x: 3, y: 3 }),
        forall|e2: int|
            0 <= e2 < old(level).entities@.len() ==> ((#[trigger] final(level).alive(e2)
                <==> old(level).alive(e2)) && (final(level).alive(e2) ==> final(level).rec(
                e2,
            ).typ == old(level).rec(e2).typ && final(level).rec(e2).deck == old(level).rec(
                e2,
            ).deck && final(level).rec(e2).goal == old(level).rec(e2).goal && final(level).rec(
                e2,
            ).mods == old(level).rec(e2).mods)),
        forall|e2: int|
            old(level).entities@.len() <= e2 < final(level).entities@.len()
                ==> #[trigger] placed_creature(*final(level), e2),
{
    let mut i: usize = 0;
    while i < 4
        invariant
            level.wf(),
            i <= 4,
            level.entities == old(level).entities,
            level.level == old(level).level,
            level.collected == old(level).collected,
            level.log == old(level).log,
            forall|x: int, y: int|
                0 <= x < MAP_WIDTH as int && 0 <= y < MAP_HEIGHT as int ==> (
                #[trigger] level.grid.cell(x, y)).entity == old(level).grid.cell(x, y).entity
                    && level.grid.cell(x, y).visibility == old(level).grid.cell(
                    x,
                    y,
                ).visibility,
            i >= 1 ==> level.grid.cell(3, 3).tile == Tile::Floor,
            forall|i2: int, j2: int|
                0 <= i2 < i as int && 1 <= j2 < 6 ==> (#[trigger] level.grid.cell(
                    6 * j2,
                    3 + 6 * i2,
                )).tile == Tile::Door,
            forall|i2: int, j2: int|
                1 <= i2 < i as int && 0 <= j2 < 6 ==> (#[trigger] level.grid.cell(
                    3 + 6 * j2,
                    6 * i2,
                )).tile == Tile::Door,
        decreases 4 - i,
    {
        let y = room_y(i);
        let mut j: usize = 0;
        while j < 6
            invariant
                level.wf(),
                i < 4,
                j <= 6,
                y as int == 3 + 6 * (i as int),
                level.entities == old(level).entities,
                level.level == old(level).level,
                level.collected == old(level).collected,
                level.log == old(level).log,
                forall|x2: int, y2: int|
                    0 <= x2 < MAP_WIDTH as int && 0 <= y2 < MAP_HEIGHT as int ==> (
                    #[trigger] level.grid.cell(x2, y2)).entity == old(level).grid.cell(
                        x2,
                        y2,
                    ).entity && level.grid.cell(x2, y2).visibility == old(level).grid.cell(
                        x2,
                        y2,
                    ).visibility,
                i >= 1 || j >= 1 ==> level.grid.cell(3, 3).tile == Tile::Floor,
                forall|i2: int, j2: int|
                    0 <= i2 < i as int && 1 <= j2 < 6 ==> (#[trigger] level.grid.cell(
                        6 * j2,
                        3 + 6 * i2,
                    )).tile == Tile::Door,
                forall|i2: int, j2: int|
                    1 <= i2 < i as int && 0 <= j2 < 6 ==> (#[trigger] level.grid.cell(
                        3 + 6 * j2,
                        6 * i2,
                    )).tile == Tile::Door,
                forall|j2: int|
                    1 <= j2 < j as int ==> (#[trigger] level.grid.cell(
                        6 * j2,
                        3 + 6 * (i as int),
                    )).tile == Tile::Door,
                i >= 1 ==> forall|j2: int|
                    0 <= j2 < j as int ==> (#[trigger] level.grid.cell(
                        3 + 6 * j2,
                        6 * (i as int),
                    )).tile == Tile::Door,
            decreases 6 - j,
        {
            let x = room_x(j);
            let style = if x == 3 && y == 3 {
                RoomStyle::Square
            } else if x == 33 && y == 21 {
                RoomStyle::ExitSquare
            } else {
                RoomStyle::Random
            };
            place_room(level, Position { x, y }, style);
            proof {
                if i == 0 && j == 0 {
                    assert(style == RoomStyle::Square);
                    assert(in_room_box(Position { x, y }, 3, 3));
                } else {
                    assert(!in_room_box(Position { x, y }, 3, 3));
                }
            }
            if x > 3 {
                level.set_tile(Position { x: x - 3, y }, Tile::Door);
            }
            if y > 3 {
                level.set_tile(Position { x, y: y - 3 }, Tile::Door);
            }
            j = j + 1;
        }
        i = i + 1;
    }
    level.set_tile(Position { x: 33, y: 21 }, Tile::Exit);
    let ghost pre_place = *level;
    let placed = level.move_entity(PLAYER, Position { x: 3, y: 3 });
    proof {
        if grid_unoccupied(*old(level)) && old(level).alive(PLAYER as int) {
            assert(pre_place.grid.cell(3, 3).tile == Tile::Floor);
            assert(pre_place.grid.cell(3, 3).entity == old(level).grid.cell(3, 3).entity);
            assert(pre_place.grid.at(Position { x: 3, y: 3 }).spec_is_open());
            assert(placed);
        }
    }
    let ghost len0 = old(level).entities@.len() as int;
    let mut t: usize = 0;
    while t < 64
        invariant
            level.wf(),
            t <= 64,
            level.entities@.len() <= old(level).entities@.len() + t,
            old(level).entities@.len() + 100 < usize::MAX,
            level.level == old(level).level,
            level.collected == old(level).collected,
            level.log == old(level).log,
            len0 == old(level).entities@.len() as int,
            len0 <= level.entities@.len() as int,
            level.grid.cell(33, 21).tile == Tile::Exit,
            lattice_doors(*level),
            grid_unoccupied(*old(level)) && old(level).alive(PLAYER as int) ==> level.pos_of(
                PLAYER as int,
            ) == Some(Position { x: 3, y: 3 }),
            forall|e2: int|
                0 <= e2 < len0 && e2 != PLAYER as int ==> #[trigger] level.entities@[e2] == old(
                    level,
                ).entities@[e2],
            old(level).alive(PLAYER as int) ==> level.alive(PLAYER as int) && level.rec(
                PLAYER as int,
            ).typ == old(level).rec(PLAYER as int).typ && level.rec(PLAYER as int).deck == old(
                level,
            ).rec(PLAYER as int).deck && level.rec(PLAYER as int).goal == old(level).rec(
                PLAYER as int,
            ).goal && level.rec(PLAYER as int).mods == old(level).rec(PLAYER as int).mods,
            !old(level).alive(PLAYER as int) ==> level.entities@.len() > PLAYER as int
                ==> level.entities@[PLAYER as int] == old(level).entities@[PLAYER as int],
            forall|e2: int|
                len0 <= e2 < level.entities@.len() ==> #[trigger] placed_creature(*level, e2),
        decreases 64 - t,
    {
        let ghost head = *level;
        let rx = rng_gen_range(&mut level.rng, 1, 35);
        let ry = rng_gen_range(&mut level.rng, 1, 23);
        proof {
            crate::level::lemma_wf_same_world(head, *level);
        }
        let pos = Position { x: rx as i32, y: ry as i32 };
        if level.is_open(pos) && !(level.get_sq(pos).tile == Tile::Door) {
            let ghost before = *level;
            place_entity(level, pos, EntityType::UnknownThing);
            proof {
                assert forall|e2: int|
                    len0 <= e2 < level.entities@.len() implies #[trigger] placed_creature(
                    *level,
                    e2,
                ) by {
                    if e2 < before.entities@.len() {
                        assert(level.entities@[e2] == before.entities@[e2]);
                        assert(before.entities@[e2] == head.entities@[e2]);
                        assert(placed_creature(head, e2));
                        assert(level.alive(e2) && level.rec(e2) == head.rec(e2));
                        assert(level.deck_of(e2) == head.deck_of(e2));
                    } else {
                        assert(spawned_creature(*level, e2, pos));
                    }
                }
                assert forall|e2: int|
                    0 <= e2 < len0 && e2 != PLAYER as int implies #[trigger] level.entities@[e2]
                    == old(level).entities@[e2] by {
                    assert(level.entities@[e2] == before.entities@[e2]);
                    assert(before.entities@[e2] == head.entities@[e2]);
                }
                assert(level.entities@[PLAYER as int] == head.entities@[PLAYER as int]);
                if old(level).alive(PLAYER as int) {
                    assert(level.alive(PLAYER as int) && level.rec(PLAYER as int) == head.rec(
                        PLAYER as int,
                    ));
                }
            }
        } else {
            proof {
                assert forall|e2: int|
                    len0 <= e2 < level.entities@.len() implies #[trigger] placed_creature(
                    *level,
                    e2,
                ) by {
                    assert(level.entities@[e2] == head.entities@[e2]);
                    assert(placed_creature(head, e2));
                }
            }
        }
        t = t + 1;
    }
    let ghost pre_push = *level;
    level.push_log("You are in some sort of server. It seems pretty quiet here.".to_owned());
    proof {
        assert forall|e2: int| 0 <= e2 < len0 implies ((#[trigger] level.alive(e2) <==> old(
            level,
        ).alive(e2)) && (level.alive(e2) ==> level.rec(e2).typ == old(level).rec(e2).typ
            && level.rec(e2).deck == old(level).rec(e2).deck && level.rec(e2).goal == old(
            level,
        ).rec(e2).goal && level.rec(e2).mods == old(level).rec(e2).mods)) by {
            assert(level.entities@[e2] == pre_push.entities@[e2]);
            if e2 != PLAYER as int {
                assert(pre_push.entities@[e2] == old(level).entities@[e2]);
            } else if old(level).alive(PLAYER as int) {
                assert(pre_push.alive(PLAYER as int) && pre_push.rec(PLAYER as int).typ == old(
                    level,
                ).rec(PLAYER as int).typ && pre_push.rec(PLAYER as int).deck == old(level).rec(
                    PLAYER as int,
                ).deck && pre_push.rec(PLAYER as int).goal == old(level).rec(PLAYER as int).goal
                    && pre_push.rec(PLAYER as int).mods == old(level).rec(PLAYER as int).mods);
            } else {
                assert(pre_push.entities@.len() > PLAYER as int ==> pre_push.entities@[PLAYER as int]
                    == old(level).entities@[PLAYER as int]);
            }
        }
        assert forall|e2: int|
            len0 <= e2 < level.entities@.len() implies #[trigger] placed_creature(
            *level,
            e2,
        ) by {
            assert(level.entities@[e2] == pre_push.entities@[e2]);
            assert(placed_creature(pre_push, e2));
        }
    }
}

/// The canonical starting deck of a creature type.
pub open spec fn canonical_deck(t: EntityType) -> Seq<CardState> {
    match t {
        EntityType::Defender => seq![
            CardState { card: Card::Defend(2), status: CardStatus::Active },
            CardState { card: Card::Block, status: CardStatus::Active },
            CardState { card: Card::Push, status: CardStatus::Active },
        ],
        EntityType::Hunter => seq![
            CardState { card: Card::Strike, status: CardStatus::Active },
            CardState { card: Card::Dodge, status: CardStatus::Active },
        ],
        EntityType::Reaper => seq![
            CardState { card: Card::Kill(1), status: CardStatus::Active },
            CardState { card: Card::Attack(1), status: CardStatus::Active },
        ],
        _ => Seq::empty(),
    }
}

/// The canonical starting deck of a creature type.
fn starting_deck(t: EntityType) -> (r: Vec<CardState>)
    ensures
        deck_bounded(r@),
        r@ == canonical_deck(t),
{
    let mut deck: Vec<CardState> = Vec::new();
    match t {
        EntityType::Defender => {
            deck.push(CardState { card: Card::Defend(2), status: CardStatus::Active });
            deck.push(CardState { card: Card::Block, status: CardStatus::Active });
            deck.push(CardState { card: Card::Push, status: CardStatus::Active });
        },
        EntityType::Hunter => {
            deck.push(CardState { card: Card::Strike, status: CardStatus::Active });
            deck.push(CardState { card: Card::Dodge, status: CardStatus::Active });
        },
        EntityType::Reaper => {
            deck.push(CardState { card: Card::Kill(1), status: CardStatus::Active });
            deck.push(CardState { card: Card::Attack(1), status: CardStatus::Active });
        },
        _ => {},
    }
    proof {
        assert(forall|k: int|
            0 <= k < deck@.len() ==> (#[trigger] deck@[k]).card.param_bounded());
        assert(deck@ =~= canonical_deck(t));
    }
    deck
}


/// What a successful spawn leaves behind: a living creature of one of
/// the three concrete types, standing at `pos`, holding exactly the
/// canonical starting deck of its type.
pub open spec fn spawned_creature(lvl: Level, e: int, pos: Position) -> bool {
    &&& lvl.alive(e)
    &&& (lvl.rec(e).typ == EntityType::Defender || lvl.rec(e).typ == EntityType::Hunter
        || lvl.rec(e).typ == EntityType::Reaper)
    &&& lvl.deck_of(e) == canonical_deck(lvl.rec(e).typ)
    &&& lvl.rec(e).pos == Some(pos)
}

/// Spawn a creature at `pos` with its canonical starting deck. An
/// unknown thing resolves to a uniformly random concrete type first; a
/// closed cell skips the spawn silently.
fn place_entity(level: &mut Level, pos: Position, t: EntityType)
    requires
        old(level).wf(),
        old(level).entities@.len() < usize::MAX - 1,
    ensures
        final(level).wf(),
        old(level).entities@.len() <= final(level).entities@.len() <= old(
            level,
        ).entities@.len() + 1,
        final(level).level == old(level).level,
        final(level).collected == old(level).collected,
        final(level).log == old(level).log,
        forall|e2: int|
            0 <= e2 < old(level).entities@.len() ==> #[trigger] final(level).entities@[e2] == old(
                level,
            ).entities@[e2],
        forall|x: int, y: int|
            0 <= x < MAP_WIDTH as int && 0 <= y < MAP_HEIGHT as int ==> (
            #[trigger] final(level).grid.cell(x, y)).tile == old(level).grid.cell(x, y).tile
                && final(level).grid.cell(x, y).visibility == old(level).grid.cell(
                x,
                y,
            ).visibility,
        forall|e2: int|
            old(level).entities@.len() <= e2 < final(level).entities@.len() ==> #[trigger] spawned_creature(
                *final(level),
                e2,
                pos,
            ),
{
    let t = if t == EntityType::UnknownThing {
        let ghost pre = *level;
        let roll = rng_gen_range(&mut level.rng, 0, 3);
        proof {
            crate::level::lemma_wf_same_world(pre, *level);
        }
        if roll == 0 {
            EntityType::Defender
        } else if roll == 1 {
            EntityType::Hunter
        } else {
            EntityType::Reaper
        }
    } else {
        t
    };
    match t {
        EntityType::Player => {},
        EntityType::UnknownThing => {},
        _ => {
            let spawned = level.spawn_entity(t, pos);
            match spawned {
                Some(id) => {
                    let deck = starting_deck(t);
                    level.set_deck(id, deck);
                },
                None => {},
            }
        },
    }
}

/// Stamp a 5x5 room stencil centered on `pos` under one of 8 symmetry
/// transforms chosen uniformly at random; the meta-style Random first
/// resolves to a uniformly chosen concrete style (never the exit room).
fn place_room(level: &mut Level, pos: Position, style: RoomStyle)
    requires
        old(level).wf(),
        2 < pos.x < 34,
        2 < pos.y < 22,
    ensures
        final(level).wf(),
        final(level).entities@.len() == old(level).entities@.len(),
        final(level).entities == old(level).entities,
        final(level).level == old(level).level,
        final(level).collected == old(level).collected,
        final(level).log == old(level).log,
        forall|x: int, y: int|
            0 <= x < MAP_WIDTH as int && 0 <= y < MAP_HEIGHT as int && !in_room_box(pos, x, y)
                ==> #[trigger] final(level).grid.cell(x, y) == old(level).grid.cell(x, y),
        forall|x: int, y: int|
            0 <= x < MAP_WIDTH as int && 0 <= y < MAP_HEIGHT as int ==> (
            #[trigger] final(level).grid.cell(x, y)).entity == old(level).grid.cell(x, y).entity
                && final(level).grid.cell(x, y).visibility == old(level).grid.cell(
                x,
                y,
            ).visibility,
        style == RoomStyle::Square ==> forall|x: int, y: int|
            0 <= x < MAP_WIDTH as int && 0 <= y < MAP_HEIGHT as int && in_room_box(pos, x, y)
                ==> (#[trigger] final(level).grid.cell(x, y)).tile == Tile::Floor,
        style == RoomStyle::ExitSquare ==> final(level).grid.cell(
            pos.x as int,
            pos.y as int,
        ).tile == Tile::Exit,
{
    let style = if style == RoomStyle::Random {
        let ghost pre = *level;
        let roll = rng_gen_range(&mut level.rng, 0, 7);
        proof {
            crate::level::lemma_wf_same_world(pre, *level);
        }
        match roll {
            0 => RoomStyle::Square,
            1 => RoomStyle::Rounded,
            2 => RoomStyle::Diamond,
            3 => RoomStyle::Hallway,
            4 => RoomStyle::Plus,
            5 => RoomStyle::RoundedPlus,
            _ => RoomStyle::Corner,
        }
    } else {
        style
    };
    let mask = stencil_wall_mask(style);
    let ghost pre2 = *level;
    let rotation = rng_gen_range(&mut level.rng, 0, 8);
    proof {
        crate::level::lemma_wf_same_world(pre2, *level);
    }
    let mut y: usize = 0;
    while y < 5
        invariant
            level.wf(),
            y <= 5,
            rotation < 8,
            2 < pos.x < 34,
            2 < pos.y < 22,
            style != RoomStyle::Random,
            mask == stencil_wall_mask_spec(style),
            level.entities == old(level).entities,
            level.entities@.len() == old(level).entities@.len(),
            level.level == old(level).level,
            level.collected == old(level).collected,
            level.log == old(level).log,
            forall|cx: int, cy: int|
                0 <= cx < MAP_WIDTH as int && 0 <= cy < MAP_HEIGHT as int && !in_room_box(
                    pos,
                    cx,
                    cy,
                ) ==> #[trigger] level.grid.cell(cx, cy) == old(level).grid.cell(cx, cy),
            forall|cx: int, cy: int|
                0 <= cx < MAP_WIDTH as int && 0 <= cy < MAP_HEIGHT as int ==> (
                #[trigger] level.grid.cell(cx, cy)).entity == old(level).grid.cell(
                    cx,
                    cy,
                ).entity && level.grid.cell(cx, cy).visibility == old(level).grid.cell(
                    cx,
                    cy,
                ).visibility,
            style == RoomStyle::Square ==> forall|cx: int, cy: int|
                0 <= cx < MAP_WIDTH as int && 0 <= cy < MAP_HEIGHT as int && in_room_box(
                    pos,
                    cx,
                    cy,
                ) && cy - pos.y + 2 < y as int ==> (#[trigger] level.grid.cell(cx, cy)).tile
                    == Tile::Floor,
            style == RoomStyle::ExitSquare && y > 2 ==> level.grid.cell(
                pos.x as int,
                pos.y as int,
            ).tile == Tile::Exit,
        decreases 5 - y,
    {
        let mut x: usize = 0;
        while x < 5
            invariant
                level.wf(),
                y < 5,
                x <= 5,
                rotation < 8,
                2 < pos.x < 34,
                2 < pos.y < 22,
                style != RoomStyle::Random,
                mask == stencil_wall_mask_spec(style),
                level.entities == old(level).entities,
                level.entities@.len() == old(level).entities@.len(),
                level.level == old(level).level,
                level.collected == old(level).collected,
                level.log == old(level).log,
                forall|cx: int, cy: int|
                    0 <= cx < MAP_WIDTH as int && 0 <= cy < MAP_HEIGHT as int && !in_room_box(
                        pos,
                        cx,
                        cy,
                    ) ==> #[trigger] level.grid.cell(cx, cy) == old(level).grid.cell(cx, cy),
                forall|cx: int, cy: int|
                    0 <= cx < MAP_WIDTH as int && 0 <= cy < MAP_HEIGHT as int ==> (
                    #[trigger] level.grid.cell(cx, cy)).entity == old(level).grid.cell(
                        cx,
                        cy,
                    ).entity && level.grid.cell(cx, cy).visibility == old(level).grid.cell(
                        cx,
                        cy,
                    ).visibility,
                style == RoomStyle::Square ==> forall|cx: int, cy: int|
                    0 <= cx < MAP_WIDTH as int && 0 <= cy < MAP_HEIGHT as int && in_room_box(
                        pos,
                        cx,
                        cy,
                    ) && (cy - pos.y + 2 < y as int || (cy - pos.y + 2 == y as int && cx - pos.x
                        + 2 < x as int)) ==> (#[trigger] level.grid.cell(cx, cy)).tile
                        == Tile::Floor,
                style == RoomStyle::ExitSquare && (y > 2 || (y == 2 && x > 2)) ==> level.grid.cell(
                    pos.x as int,
                    pos.y as int,
                ).tile == Tile::Exit,
            decreases 5 - x,
        {
            let index: usize = match rotation {
                0 => y * 5 + x,
                1 => y * 5 + (4 - x),
                2 => (4 - y) * 5 + x,
                3 => (4 - y) * 5 + (4 - x),
                4 => x * 5 + y,
                5 => x * 5 + (4 - y),
                6 => (4 - x) * 5 + y,
                _ => (4 - x) * 5 + (4 - y),
            };
            let tile = if (mask >> (index as u32)) & 1 == 1 {
                Tile::Wall
            } else if style == RoomStyle::ExitSquare && index == 12 {
                Tile::Exit
            } else {
                Tile::Floor
            };
            proof {
                if style == RoomStyle::Square || style == RoomStyle::ExitSquare {
                    let k = index as u32;
                    assert((0u32 >> k) & 1 == 0) by (bit_vector);
                    assert(tile != Tile::Wall);
                }
                if style == RoomStyle::ExitSquare && x == 2 && y == 2 {
                    assert(index == 12);
                    assert(tile == Tile::Exit);
                }
            }
            level.set_tile(
                Position { x: pos.x - 2 + (x as i32), y: pos.y - 2 + (y as i32) },
                tile,
            );
            x = x + 1;
        }
        y = y + 1;
    }
}

impl Level {
    /// Replace a living entity's deck outright (used only when a fresh
    /// spawn is dealt its starting hand).
    pub(crate) fn set_deck(&mut self, entity: usize, deck: Vec<CardState>)
        requires
            old(self).wf(),
            deck_bounded(deck@),
        ensures
            final(self).wf(),
            final(self).entities@.len() == old(self).entities@.len(),
            final(self).level == old(self).level,
            final(self).collected == old(self).collected,
            final(self).log == old(self).log,
            final(self).grid == old(self).grid,
            crate::level::same_entities_except(*old(self), *final(self), entity as int),
            old(self).alive(entity as int) ==> final(self).alive(entity as int)
                && final(self).deck_of(entity as int) == deck@ && final(self).rec(
                entity as int,
            ).typ == old(self).rec(entity as int).typ && final(self).rec(entity as int).pos
                == old(self).rec(entity as int).pos && final(self).rec(entity as int).goal
                == old(self).rec(entity as int).goal && final(self).rec(entity as int).mods
                == old(self).rec(entity as int).mods,
    {
        if entity < self.entities.len() {
            let slot = self.take_rec(entity);
            match slot {
                Some(rec) => {
                    self.put_rec(
                        entity,
                        Some(
                            crate::entity::EntityRec {
                                typ: rec.typ,
                                pos: rec.pos,
                                goal: rec.goal,
                                deck,
                                mods: rec.mods,
                            },
                        ),
                    );
                },
                None => {
                    self.put_rec(entity, None);
                },
            }
            proof {
                assert(self.entities@ =~= old(self).entities@.update(
                    entity as int,
                    self.entities@[entity as int],
                ));
                if self.entities@[entity as int] is Some {
                    assert(old(self).entities@[entity as int].unwrap().mods@.len() <= 10000) by {
                        reveal(Level::cards_bounded);
                    }
                }
                crate::level::lemma_wf_slot_update(*old(self), *self, entity as int);
            }
        }
    }
}

} // verus!
