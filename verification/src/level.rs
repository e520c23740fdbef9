//! One playable floor: the grid, the entity arena, the collected rewards,
//! the message log and the level's random generator, together with the
//! well-formedness invariant every operation preserves: each occupied
//! cell names a living entity whose recorded position is that cell, and
//! each placed entity stands on exactly the in-bounds cell that records
//! it.

use crate::cards::{hand_size, Card, CardState, CardStatus};
use crate::entity::{EntityRec, EntityType, PLAYER};
use crate::grid::{Grid, Position, Square, Tile, Visibility, MAP_HEIGHT, MAP_WIDTH};
use crate::text::{join_lines, spec_join_lines};
use vstd::prelude::*;

verus! {

/// The append-only ordered log of messages since level start.
pub struct MessageLog {
    pub messages: Vec<String>,
}

impl MessageLog {
    /// An empty log.
    pub fn new() -> (r: MessageLog)
        ensures
            r.messages@ =~= Seq::<String>::empty(),
    {
        MessageLog { messages: Vec::new() }
    }
}

/// The renderable knowledge state of one cell: never seen, seen before
/// (tile remembered, occupant not), or currently visible with its
/// occupant's type.
#[derive(PartialEq, Eq, Debug)]
pub enum Glyph {
    Unknown,
    Remembered(Tile),
    Visible(Tile, Option<EntityType>),
}

impl Glyph {
    /// The character a renderer would draw for this glyph.
    pub fn ch(&self) -> (c: char)
        ensures
            *self == Glyph::Unknown ==> c == ' ',
            forall|t: Tile| *self == Glyph::Remembered(t) || *self == Glyph::Visible(t, None)
                ==> c == t.spec_render(),
            forall|t: Tile, e: EntityType| *self == Glyph::Visible(t, Some(e)) ==> c
                == e.spec_render(),
    {
        match *self {
            Glyph::Unknown => ' ',
            Glyph::Remembered(t) | Glyph::Visible(t, None) => t.render(),
            Glyph::Visible(_, Some(e)) => e.render(),
        }
    }

    /// Whether this glyph shows a currently visible cell.
    pub fn is_visible(&self) -> (r: bool)
        ensures
            r == (self is Visible),
    {
        match *self {
            Glyph::Unknown | Glyph::Remembered(_) => false,
            Glyph::Visible(_, _) => true,
        }
    }
}

/// A card of the player's deck with its status resolved to what the
/// player may know of it.
#[derive(Debug)]
pub struct CardView {
    pub card: Card,
    pub status: KnownCardStatus,
}

#[derive(PartialEq, Eq, Structural, Copy, Clone, Debug)]
pub enum KnownCardStatus {
    Active,
    Inactive,
    Discarded,
    PlayedOnSelf,
    PlayedOnVisible(EntityType, Position),
    PlayedOnOther(EntityType),
}

/// A deck stays small and every card of it keeps its parameter small.
pub open spec fn deck_bounded(deck: Seq<CardState>) -> bool {
    &&& deck.len() <= 10000
    &&& forall|i: int| 0 <= i < deck.len() ==> (#[trigger] deck[i]).card.param_bounded()
}

pub struct Level {
    pub level: i32,
    pub grid: Grid,
    pub entities: Vec<Option<EntityRec>>,
    pub collected: Vec<(Card, i32)>,
    pub log: MessageLog,
    pub rng: rand::rngs::StdRng,
}

impl Level {
    /// Whether `e` names a living entity of this level.
    pub open spec fn alive(self, e: int) -> bool {
        0 <= e < self.entities@.len() && self.entities@[e] is Some
    }

    /// The record of a living entity.
    pub open spec fn rec(self, e: int) -> EntityRec {
        self.entities@[e].unwrap()
    }

    /// A living entity's position, `None` for dead or unplaced entities.
    pub open spec fn pos_of(self, e: int) -> Option<Position> {
        if self.alive(e) {
            self.rec(e).pos
        } else {
            None
        }
    }

    /// An entity's type; a dangling id resolves to `UnknownThing`.
    pub open spec fn spec_type_of(self, e: int) -> EntityType {
        if self.alive(e) {
            self.rec(e).typ
        } else {
            EntityType::UnknownThing
        }
    }

    /// An entity's deck; a dangling id resolves to an empty deck.
    pub open spec fn deck_of(self, e: int) -> Seq<CardState> {
        if self.alive(e) {
            self.rec(e).deck@
        } else {
            Seq::empty()
        }
    }

    pub open spec fn mods_len(self, e: int) -> int {
        if self.alive(e) {
            self.rec(e).mods@.len() as int
        } else {
            0
        }
    }

    /// The damage-absorption pool: the in-hand cards plus the active
    /// modifications. Health is this pool, not a separate stat.
    pub open spec fn pool(self, e: int) -> int {
        hand_size(self.deck_of(e)) + self.mods_len(e)
    }

    /// The status of card `i` of entity `e`, when both exist.
    pub open spec fn card_status_of(self, e: int, i: int) -> Option<CardStatus> {
        if self.alive(e) && 0 <= i < self.deck_of(e).len() {
            Some(self.deck_of(e)[i].status)
        } else {
            None
        }
    }

    /// Every occupied cell names a living entity placed at that cell.
    #[verifier::opaque]
    pub open spec fn occupancy_coherent(self) -> bool {
        forall|x: int, y: int|
            0 <= x < MAP_WIDTH as int && 0 <= y < MAP_HEIGHT as int && (#[trigger] self.grid.cell(
                x,
                y,
            )).entity is Some ==> {
                let e = self.grid.cell(x, y).entity.unwrap() as int;
                &&& self.alive(e)
                &&& self.rec(e).pos is Some
                &&& self.rec(e).pos.unwrap().x as int == x
                &&& self.rec(e).pos.unwrap().y as int == y
            }
    }

    /// Every placed entity stands on the in-bounds cell that records it.
    #[verifier::opaque]
    pub open spec fn positions_coherent(self) -> bool {
        forall|e: int|
            0 <= e < self.entities@.len() && (#[trigger] self.entities@[e]) is Some
                && self.entities@[e].unwrap().pos is Some ==> {
                let p = self.entities@[e].unwrap().pos.unwrap();
                &&& p.in_bounds()
                &&& self.grid.cell(p.x as int, p.y as int).entity is Some
                &&& self.grid.cell(p.x as int, p.y as int).entity.unwrap() as int == e
            }
    }

    /// The outer ring of the grid is wall, so sight and movement never
    /// escape the map.
    #[verifier::opaque]
    pub open spec fn border_walled(self) -> bool {
        forall|x: int, y: int|
            0 <= x < MAP_WIDTH as int && 0 <= y < MAP_HEIGHT as int && (x == 0 || y == 0 || x
                == MAP_WIDTH as int - 1 || y == MAP_HEIGHT as int - 1) ==> (
            #[trigger] self.grid.cell(x, y)).tile == Tile::Wall
    }

    /// Every dealt card keeps its parameter small, which bounds how far
    /// resolution can push an event's damage.
    #[verifier::opaque]
    pub open spec fn cards_bounded(self) -> bool {
        forall|e: int|
            0 <= e < self.entities@.len() && (#[trigger] self.entities@[e]) is Some ==> deck_bounded(
                self.entities@[e].unwrap().deck@,
            ) && self.entities@[e].unwrap().mods@.len() <= 10000
    }

    pub open spec fn wf(self) -> bool {
        &&& self.grid.wf()
        &&& self.entities@.len() >= 1
        &&& self.occupancy_coherent()
        &&& self.positions_coherent()
        &&& self.border_walled()
        &&& self.cards_bounded()
    }

    /// The square at `pos`, an unknown wall out of bounds.
    pub fn get_sq(&self, pos: Position) -> (r: Square)
        requires
            self.wf(),
        ensures
            r == self.grid.at(pos),
    {
        self.grid.get(pos)
    }

    /// Whether `pos` can be stepped onto.
    pub fn is_open(&self, pos: Position) -> (r: bool)
        requires
            self.wf(),
        ensures
            r == self.grid.at(pos).spec_is_open(),
    {
        self.get_sq(pos).is_open()
    }

    /// What `view` reports for a position.
    pub open spec fn spec_view(self, pos: Position) -> Glyph {
        let sq = self.grid.at(pos);
        match sq.visibility {
            Visibility::Unknown => Glyph::Unknown,
            Visibility::Remembered => Glyph::Remembered(sq.tile),
            Visibility::Visible => Glyph::Visible(
                sq.tile,
                match sq.entity {
                    Some(e) => if self.alive(e as int) {
                        Some(self.spec_type_of(e as int))
                    } else {
                        None
                    },
                    None => None,
                },
            ),
        }
    }

    /// Read-only render data for one cell. A position outside the grid
    /// bounds always reads as Unknown, never a fault.
    pub fn view(&self, pos: Position) -> (r: Glyph)
        requires
            self.wf(),
        ensures
            r == self.spec_view(pos),
            !pos.in_bounds() ==> r == Glyph::Unknown,
    {
        let sq = self.get_sq(pos);
        match sq.visibility {
            Visibility::Unknown => Glyph::Unknown,
            Visibility::Remembered => Glyph::Remembered(sq.tile),
            Visibility::Visible => {
                let occupant: Option<EntityType> = match sq.entity {
                    Some(e) => {
                        if e < self.entities.len() {
                            match &self.entities[e] {
                                Some(rec) => Some(rec.typ),
                                None => None,
                            }
                        } else {
                            None
                        }
                    },
                    None => None,
                };
                Glyph::Visible(sq.tile, occupant)
            },
        }
    }

    /// An entity's type; a dangling id resolves to `UnknownThing`.
    pub fn type_of(&self, entity: usize) -> (r: EntityType)
        ensures
            r == self.spec_type_of(entity as int),
    {
        if entity < self.entities.len() {
            match &self.entities[entity] {
                Some(rec) => rec.typ,
                None => EntityType::UnknownThing,
            }
        } else {
            EntityType::UnknownThing
        }
    }

    pub open spec fn spec_complete(self) -> bool {
        match self.pos_of(PLAYER as int) {
            Some(p) => self.grid.at(p).tile == Tile::Exit,
            None => false,
        }
    }

    /// The level is complete when the player stands on the Exit tile.
    pub fn is_complete(&self) -> (r: bool)
        requires
            self.wf(),
        ensures
            r == self.spec_complete(),
    {
        match self.get_pos(PLAYER) {
            Some(p) => {
                let sq = self.get_sq(p);
                sq.tile == Tile::Exit
            },
            None => false,
        }
    }

    /// A living entity's position, `None` for dead or unplaced entities.
    pub fn get_pos(&self, entity: usize) -> (r: Option<Position>)
        ensures
            r == self.pos_of(entity as int),
    {
        if entity < self.entities.len() {
            match &self.entities[entity] {
                Some(rec) => rec.pos,
                None => None,
            }
        } else {
            None
        }
    }

    /// The newline-joined log of all messages since level start.
    pub fn message_log(&self) -> (r: String)
        ensures
            r@ == spec_join_lines(self.log.messages@),
    {
        join_lines(&self.log.messages)
    }

    /// The status of card `index` of `entity`, when both exist.
    pub fn get_card_status(&self, entity: usize, index: usize) -> (r: Option<CardStatus>)
        ensures
            r == self.card_status_of(entity as int, index as int),
    {
        if entity < self.entities.len() {
            match &self.entities[entity] {
                Some(rec) => {
                    if index < rec.deck.len() {
                        Some(rec.deck[index].status)
                    } else {
                        None
                    }
                },
                None => None,
            }
        } else {
            None
        }
    }

    /// What the player may know of a card with status `s`: own statuses
    /// show as they are; a card played on a visible entity reveals type
    /// and position, on an out-of-sight one only the type, and on a
    /// destroyed one it shows as Discarded.
    pub open spec fn spec_known_status(self, s: CardStatus) -> KnownCardStatus {
        match s {
            CardStatus::Active => KnownCardStatus::Active,
            CardStatus::Inactive => KnownCardStatus::Inactive,
            CardStatus::Discarded => KnownCardStatus::Discarded,
            CardStatus::PlayedOn(e) => if e == PLAYER {
                KnownCardStatus::PlayedOnSelf
            } else if !self.alive(e as int) {
                KnownCardStatus::Discarded
            } else {
                match self.pos_of(e as int) {
                    None => KnownCardStatus::PlayedOnOther(self.spec_type_of(e as int)),
                    Some(p) => if self.grid.at(p).visibility == Visibility::Visible {
                        KnownCardStatus::PlayedOnVisible(self.spec_type_of(e as int), p)
                    } else {
                        KnownCardStatus::PlayedOnOther(self.spec_type_of(e as int))
                    },
                }
            },
        }
    }

    fn known_status(&self, s: CardStatus) -> (r: KnownCardStatus)
        requires
            self.wf(),
        ensures
            r == self.spec_known_status(s),
    {
        match s {
            CardStatus::Active => KnownCardStatus::Active,
            CardStatus::Inactive => KnownCardStatus::Inactive,
            CardStatus::Discarded => KnownCardStatus::Discarded,
            CardStatus::PlayedOn(e) => {
                if e == PLAYER {
                    KnownCardStatus::PlayedOnSelf
                } else {
                    let t = self.type_of(e);
                    if entity_absent(self, e) {
                        KnownCardStatus::Discarded
                    } else {
                        match self.get_pos(e) {
                            None => KnownCardStatus::PlayedOnOther(t),
                            Some(p) => {
                                let sq = self.get_sq(p);
                                if sq.visibility == Visibility::Visible {
                                    KnownCardStatus::PlayedOnVisible(t, p)
                                } else {
                                    KnownCardStatus::PlayedOnOther(t)
                                }
                            },
                        }
                    }
                }
            },
        }
    }

    /// The player's ordered deck with each status resolved to its
    /// display-safe form.
    pub fn player_deck(&self) -> (r: Vec<CardView>)
        requires
            self.wf(),
        ensures
            r@.len() == self.deck_of(PLAYER as int).len(),
            forall|i: int|
                0 <= i < r@.len() ==> (#[trigger] r@[i]).card == self.deck_of(PLAYER as int)[i].card
                    && r@[i].status == self.spec_known_status(
                    self.deck_of(PLAYER as int)[i].status,
                ),
    {
        let mut out: Vec<CardView> = Vec::new();
        let n = self.deck_len(PLAYER);
        let mut i: usize = 0;
        while i < n
            invariant
                self.wf(),
                n == self.deck_of(PLAYER as int).len(),
                i <= n,
                out@.len() == i as int,
                forall|j: int|
                    0 <= j < i as int ==> (#[trigger] out@[j]).card == self.deck_of(
                        PLAYER as int,
                    )[j].card && out@[j].status == self.spec_known_status(
                        self.deck_of(PLAYER as int)[j].status,
                    ),
            decreases n - i,
        {
            let cs = self.deck_card(PLAYER, i);
            let status = self.known_status(cs.status);
            out.push(CardView { card: cs.card, status });
            i = i + 1;
        }
        out
    }

    /// The number of cards of an entity's deck (0 for a dangling id).
    pub fn deck_len(&self, entity: usize) -> (r: usize)
        ensures
            r == self.deck_of(entity as int).len(),
    {
        if entity < self.entities.len() {
            match &self.entities[entity] {
                Some(rec) => rec.deck.len(),
                None => 0,
            }
        } else {
            0
        }
    }

    /// Card `index` of a living entity's deck.
    pub fn deck_card(&self, entity: usize, index: usize) -> (r: CardState)
        requires
            index < self.deck_of(entity as int).len(),
        ensures
            r == self.deck_of(entity as int)[index as int],
    {
        match &self.entities[entity] {
            Some(rec) => rec.deck[index],
            None => vstd::pervasive::unreached(),
        }
    }
}

/// The level, collected rewards and log are unchanged between `pre` and
/// `post`.
pub open spec fn same_misc(pre: Level, post: Level) -> bool {
    &&& post.level == pre.level
    &&& post.collected == pre.collected
    &&& post.log == pre.log
}

/// All entity slots except `e` are unchanged between `pre` and `post`.
pub open spec fn same_entities_except(pre: Level, post: Level, e: int) -> bool {
    &&& post.entities@.len() == pre.entities@.len()
    &&& forall|e2: int|
        0 <= e2 < pre.entities@.len() && e2 != e ==> post.entities@[e2] == pre.entities@[e2]
}

/// Exactly what setting the status of card `i` of entity `e` does: when
/// entity and card exist, that one status becomes `s` and nothing else
/// moves; otherwise nothing at all happens.
pub open spec fn set_status_rel(pre: Level, post: Level, e: int, i: int, s: CardStatus) -> bool {
    &&& post.grid == pre.grid
    &&& post.rng == pre.rng
    &&& same_misc(pre, post)
    &&& same_entities_except(pre, post, e)
    &&& if pre.alive(e) && 0 <= i < pre.deck_of(e).len() {
        &&& post.alive(e)
        &&& post.rec(e).typ == pre.rec(e).typ
        &&& post.rec(e).pos == pre.rec(e).pos
        &&& post.rec(e).goal == pre.rec(e).goal
        &&& post.rec(e).mods == pre.rec(e).mods
        &&& post.deck_of(e) == pre.deck_of(e).update(
            i,
            CardState { card: pre.deck_of(e)[i].card, status: s },
        )
    } else {
        post.entities@ == pre.entities@
    }
}

proof fn lemma_occ_cell_update(pre: Level, post: Level, pos: Position)
    requires
        pre.occupancy_coherent(),
        post.entities == pre.entities,
        pos.in_bounds(),
        post.grid.cell(pos.x as int, pos.y as int).entity == pre.grid.cell(
            pos.x as int,
            pos.y as int,
        ).entity,
        forall|x: int, y: int|
            0 <= x < MAP_WIDTH as int && 0 <= y < MAP_HEIGHT as int && !(x == pos.x as int && y
                == pos.y as int) ==> #[trigger] post.grid.cell(x, y) == pre.grid.cell(x, y),
    ensures
        post.occupancy_coherent(),
{
    reveal(Level::occupancy_coherent);
    assert forall|x: int, y: int|
        0 <= x < MAP_WIDTH as int && 0 <= y < MAP_HEIGHT as int && (#[trigger] post.grid.cell(
            x,
            y,
        )).entity is Some implies {
        let e = post.grid.cell(x, y).entity.unwrap() as int;
        &&& post.alive(e)
        &&& post.rec(e).pos is Some
        &&& post.rec(e).pos.unwrap().x as int == x
        &&& post.rec(e).pos.unwrap().y as int == y
    } by {
        assert(post.grid.cell(x, y).entity == pre.grid.cell(x, y).entity);
        assert(pre.grid.cell(x, y).entity is Some);
    }
}

proof fn lemma_posn_cell_update(pre: Level, post: Level, pos: Position)
    requires
        pre.positions_coherent(),
        post.entities == pre.entities,
        pos.in_bounds(),
        post.grid.cell(pos.x as int, pos.y as int).entity == pre.grid.cell(
            pos.x as int,
            pos.y as int,
        ).entity,
        forall|x: int, y: int|
            0 <= x < MAP_WIDTH as int && 0 <= y < MAP_HEIGHT as int && !(x == pos.x as int && y
                == pos.y as int) ==> #[trigger] post.grid.cell(x, y) == pre.grid.cell(x, y),
    ensures
        post.positions_coherent(),
{
    reveal(Level::positions_coherent);
    assert forall|e: int|
        0 <= e < post.entities@.len() && (#[trigger] post.entities@[e]) is Some
            && post.entities@[e].unwrap().pos is Some implies {
        let p = post.entities@[e].unwrap().pos.unwrap();
        &&& p.in_bounds()
        &&& post.grid.cell(p.x as int, p.y as int).entity is Some
        &&& post.grid.cell(p.x as int, p.y as int).entity.unwrap() as int == e
    } by {
        let p = post.entities@[e].unwrap().pos.unwrap();
        assert(pre.entities@[e] == post.entities@[e]);
        assert(pre.grid.cell(p.x as int, p.y as int).entity.unwrap() as int == e);
        if !(p.x as int == pos.x as int && p.y as int == pos.y as int) {
            assert(post.grid.cell(p.x as int, p.y as int) == pre.grid.cell(p.x as int, p.y as int));
        }
    }
}

proof fn lemma_border_cell_update(pre: Level, post: Level, pos: Position)
    requires
        pre.border_walled(),
        pos.in_bounds(),
        post.grid.cell(pos.x as int, pos.y as int).tile == pre.grid.cell(
            pos.x as int,
            pos.y as int,
        ).tile || pos.interior(),
        forall|x: int, y: int|
            0 <= x < MAP_WIDTH as int && 0 <= y < MAP_HEIGHT as int && !(x == pos.x as int && y
                == pos.y as int) ==> #[trigger] post.grid.cell(x, y) == pre.grid.cell(x, y),
    ensures
        post.border_walled(),
{
    reveal(Level::border_walled);
    assert forall|x: int, y: int|
        0 <= x < MAP_WIDTH as int && 0 <= y < MAP_HEIGHT as int && (x == 0 || y == 0 || x
            == MAP_WIDTH as int - 1 || y == MAP_HEIGHT as int - 1) implies (
    #[trigger] post.grid.cell(x, y)).tile == Tile::Wall by {
        if x == pos.x as int && y == pos.y as int {
            assert(!pos.interior());
            assert(post.grid.cell(x, y).tile == pre.grid.cell(x, y).tile);
        } else {
            assert(post.grid.cell(x, y) == pre.grid.cell(x, y));
        }
    }
}

proof fn lemma_cards_same_entities(pre: Level, post: Level)
    requires
        pre.cards_bounded(),
        post.entities == pre.entities,
    ensures
        post.cards_bounded(),
{
    reveal(Level::cards_bounded);
    assert forall|e: int|
        0 <= e < post.entities@.len() && (#[trigger] post.entities@[e]) is Some implies deck_bounded(
        post.entities@[e].unwrap().deck@,
    ) by {
        assert(post.entities@[e] == pre.entities@[e]);
    }
}

/// Well-formedness only concerns the grid and the entities.
pub(crate) proof fn lemma_wf_same_world(pre: Level, post: Level)
    requires
        pre.wf(),
        post.grid == pre.grid,
        post.entities@ == pre.entities@,
    ensures
        post.wf(),
{
    reveal(Level::occupancy_coherent);
    reveal(Level::positions_coherent);
    reveal(Level::border_walled);
    reveal(Level::cards_bounded);
}

/// Well-formedness survives a change to a single cell that keeps the
/// cell's occupant, and keeps its tile too unless the cell is interior.
proof fn lemma_wf_cell_update(pre: Level, post: Level, pos: Position)
    requires
        pre.wf(),
        post.entities == pre.entities,
        post.grid.wf(),
        pos.in_bounds(),
        post.grid.cell(pos.x as int, pos.y as int).entity == pre.grid.cell(
            pos.x as int,
            pos.y as int,
        ).entity,
        post.grid.cell(pos.x as int, pos.y as int).tile == pre.grid.cell(
            pos.x as int,
            pos.y as int,
        ).tile || pos.interior(),
        forall|x: int, y: int|
            0 <= x < MAP_WIDTH as int && 0 <= y < MAP_HEIGHT as int && !(x == pos.x as int && y
                == pos.y as int) ==> #[trigger] post.grid.cell(x, y) == pre.grid.cell(x, y),
    ensures
        post.wf(),
{
    lemma_occ_cell_update(pre, post, pos);
    lemma_posn_cell_update(pre, post, pos);
    lemma_border_cell_update(pre, post, pos);
    lemma_cards_same_entities(pre, post);
}

/// Well-formedness survives a change to a single entity slot that keeps
/// the slot's liveness, position and deck card parameters.
pub(crate) proof fn lemma_wf_slot_update(pre: Level, post: Level, e: int)
    requires
        pre.wf(),
        post.grid == pre.grid,
        0 <= e < pre.entities@.len(),
        post.entities@.len() == pre.entities@.len(),
        forall|e2: int|
            0 <= e2 < pre.entities@.len() && e2 != e ==> post.entities@[e2] == pre.entities@[e2],
        post.entities@[e] is Some <==> pre.entities@[e] is Some,
        post.entities@[e] is Some ==> post.entities@[e].unwrap().pos == pre.entities@[
            e
        ].unwrap().pos && deck_bounded(post.entities@[e].unwrap().deck@) && post.entities@[
            e
        ].unwrap().mods@.len() <= 10000,
    ensures
        post.wf(),
{
    lemma_occ_slot_update(pre, post, e);
    lemma_posn_slot_update(pre, post, e);
    assert(post.border_walled()) by {
        reveal(Level::border_walled);
    }
    lemma_cards_slot_update(pre, post, e);
}

proof fn lemma_occ_slot_update(pre: Level, post: Level, e: int)
    requires
        pre.occupancy_coherent(),
        post.grid == pre.grid,
        0 <= e < pre.entities@.len(),
        post.entities@.len() == pre.entities@.len(),
        forall|e2: int|
            0 <= e2 < pre.entities@.len() && e2 != e ==> post.entities@[e2] == pre.entities@[e2],
        post.entities@[e] is Some <==> pre.entities@[e] is Some,
        post.entities@[e] is Some ==> post.entities@[e].unwrap().pos == pre.entities@[
            e
        ].unwrap().pos,
    ensures
        post.occupancy_coherent(),
{
    reveal(Level::occupancy_coherent);
    assert forall|x: int, y: int|
        0 <= x < MAP_WIDTH as int && 0 <= y < MAP_HEIGHT as int && (#[trigger] post.grid.cell(
            x,
            y,
        )).entity is Some implies {
        let id = post.grid.cell(x, y).entity.unwrap() as int;
        &&& post.alive(id)
        &&& post.rec(id).pos is Some
        &&& post.rec(id).pos.unwrap().x as int == x
        &&& post.rec(id).pos.unwrap().y as int == y
    } by {
        assert(post.grid.cell(x, y) == pre.grid.cell(x, y));
        let id = post.grid.cell(x, y).entity.unwrap() as int;
        assert(pre.alive(id));
        if id != e {
            assert(post.entities@[id] == pre.entities@[id]);
        }
    }
}

proof fn lemma_posn_slot_update(pre: Level, post: Level, e: int)
    requires
        pre.positions_coherent(),
        post.grid == pre.grid,
        0 <= e < pre.entities@.len(),
        post.entities@.len() == pre.entities@.len(),
        forall|e2: int|
            0 <= e2 < pre.entities@.len() && e2 != e ==> post.entities@[e2] == pre.entities@[e2],
        post.entities@[e] is Some <==> pre.entities@[e] is Some,
        post.entities@[e] is Some ==> post.entities@[e].unwrap().pos == pre.entities@[
            e
        ].unwrap().pos,
    ensures
        post.positions_coherent(),
{
    reveal(Level::positions_coherent);
    assert forall|e2: int|
        0 <= e2 < post.entities@.len() && (#[trigger] post.entities@[e2]) is Some
            && post.entities@[e2].unwrap().pos is Some implies {
        let p = post.entities@[e2].unwrap().pos.unwrap();
        &&& p.in_bounds()
        &&& post.grid.cell(p.x as int, p.y as int).entity is Some
        &&& post.grid.cell(p.x as int, p.y as int).entity.unwrap() as int == e2
    } by {
        if e2 != e {
            assert(post.entities@[e2] == pre.entities@[e2]);
        } else {
            assert(pre.entities@[e].unwrap().pos == post.entities@[e].unwrap().pos);
        }
    }
}

proof fn lemma_cards_slot_update(pre: Level, post: Level, e: int)
    requires
        pre.cards_bounded(),
        0 <= e < pre.entities@.len(),
        post.entities@.len() == pre.entities@.len(),
        forall|e2: int|
            0 <= e2 < pre.entities@.len() && e2 != e ==> post.entities@[e2] == pre.entities@[e2],
        post.entities@[e] is Some ==> deck_bounded(post.entities@[e].unwrap().deck@)
            && post.entities@[e].unwrap().mods@.len() <= 10000,
    ensures
        post.cards_bounded(),
{
    reveal(Level::cards_bounded);
    assert forall|e2: int|
        0 <= e2 < post.entities@.len() && (#[trigger] post.entities@[e2]) is Some implies deck_bounded(post.entities@[e2].unwrap().deck@) && post.entities@[
        e2
    ].unwrap().mods@.len() <= 10000 by {
        if e2 != e {
            assert(post.entities@[e2] == pre.entities@[e2]);
        }
    }
}

impl Level {
    /// Take entity `e`'s slot out of the arena, leaving it empty.
    pub(crate) fn take_rec(&mut self, e: usize) -> (r: Option<EntityRec>)
        requires
            e < old(self).entities.len(),
        ensures
            r == old(self).entities@[e as int],
            final(self).entities@ == old(self).entities@.update(e as int, None),
            final(self).grid == old(self).grid,
            final(self).rng == old(self).rng,
            same_misc(*old(self), *final(self)),
    {
        let slot = self.entities.remove(e);
        self.entities.insert(e, None);
        proof {
            assert(self.entities@ =~= old(self).entities@.update(e as int, None));
        }
        slot
    }

    /// Put a slot back into the arena.
    pub(crate) fn put_rec(&mut self, e: usize, rec: Option<EntityRec>)
        requires
            e < old(self).entities.len(),
        ensures
            final(self).entities@ == old(self).entities@.update(e as int, rec),
            final(self).grid == old(self).grid,
            final(self).rng == old(self).rng,
            same_misc(*old(self), *final(self)),
    {
        let _ = self.entities.remove(e);
        self.entities.insert(e, rec);
        proof {
            assert(self.entities@ =~= old(self).entities@.update(e as int, rec));
        }
    }

    /// Append one message to the log.
    pub fn push_log(&mut self, msg: String)
        ensures
            final(self).log.messages@ == old(self).log.messages@.push(msg),
            final(self).grid == old(self).grid,
            final(self).entities == old(self).entities,
            final(self).rng == old(self).rng,
            final(self).level == old(self).level,
            final(self).collected == old(self).collected,
            old(self).wf() ==> final(self).wf(),
    {
        self.log.messages.push(msg);
        proof {
            if old(self).wf() {
                lemma_wf_same_world(*old(self), *self);
            }
        }
    }


    /// Set the tile of an interior cell, leaving occupant and visibility
    /// as they were.
    pub fn set_tile(&mut self, pos: Position, tile: Tile)
        requires
            old(self).wf(),
            pos.interior(),
        ensures
            final(self).wf(),
            final(self).entities == old(self).entities,
            final(self).rng == old(self).rng,
            same_misc(*old(self), *final(self)),
            final(self).grid.cell(pos.x as int, pos.y as int) == (Square {
                tile,
                entity: old(self).grid.cell(pos.x as int, pos.y as int).entity,
                visibility: old(self).grid.cell(pos.x as int, pos.y as int).visibility,
            }),
            forall|x: int, y: int|
                0 <= x < MAP_WIDTH as int && 0 <= y < MAP_HEIGHT as int && !(x == pos.x as int && y
                    == pos.y as int) ==> #[trigger] final(self).grid.cell(x, y) == old(
                self,
            ).grid.cell(x, y),
    {
        let sq = self.grid.get(pos);
        self.grid.put(pos, Square { tile, entity: sq.entity, visibility: sq.visibility });
        proof {
            lemma_wf_cell_update(*old(self), *self, pos);
        }
    }

    /// Set the visibility of one in-bounds cell, leaving tile and
    /// occupant as they were.
    pub(crate) fn set_visibility(&mut self, pos: Position, vis: Visibility)
        requires
            old(self).wf(),
            pos.in_bounds(),
        ensures
            final(self).wf(),
            final(self).entities == old(self).entities,
            final(self).rng == old(self).rng,
            same_misc(*old(self), *final(self)),
            final(self).grid.cell(pos.x as int, pos.y as int) == (Square {
                tile: old(self).grid.cell(pos.x as int, pos.y as int).tile,
                entity: old(self).grid.cell(pos.x as int, pos.y as int).entity,
                visibility: vis,
            }),
            forall|x: int, y: int|
                0 <= x < MAP_WIDTH as int && 0 <= y < MAP_HEIGHT as int && !(x == pos.x as int && y
                    == pos.y as int) ==> #[trigger] final(self).grid.cell(x, y) == old(
                self,
            ).grid.cell(x, y),
    {
        let sq = self.grid.get(pos);
        self.grid.put(pos, Square { tile: sq.tile, entity: sq.entity, visibility: vis });
        proof {
            lemma_wf_cell_update(*old(self), *self, pos);
        }
    }

    /// Mark one in-bounds cell currently visible.
    pub fn mark_visible(&mut self, pos: Position)
        requires
            old(self).wf(),
            pos.in_bounds(),
        ensures
            final(self).wf(),
            final(self).entities == old(self).entities,
            final(self).rng == old(self).rng,
            same_misc(*old(self), *final(self)),
            final(self).grid.cell(pos.x as int, pos.y as int) == (Square {
                tile: old(self).grid.cell(pos.x as int, pos.y as int).tile,
                entity: old(self).grid.cell(pos.x as int, pos.y as int).entity,
                visibility: Visibility::Visible,
            }),
            forall|x: int, y: int|
                0 <= x < MAP_WIDTH as int && 0 <= y < MAP_HEIGHT as int && !(x == pos.x as int && y
                    == pos.y as int) ==> #[trigger] final(self).grid.cell(x, y) == old(
                self,
            ).grid.cell(x, y),
    {
        let sq = self.grid.get(pos);
        self.grid.put(
            pos,
            Square { tile: sq.tile, entity: sq.entity, visibility: Visibility::Visible },
        );
        proof {
            lemma_wf_cell_update(*old(self), *self, pos);
        }
    }

    /// Set the status of card `index` of `entity`; a dangling entity or
    /// index changes nothing.
    pub fn set_card_status(&mut self, entity: usize, index: usize, status: CardStatus)
        requires
            old(self).wf(),
        ensures
            final(self).wf(),
            set_status_rel(*old(self), *final(self), entity as int, index as int, status),
    {
        if entity < self.entities.len() {
            let slot = self.take_rec(entity);
            match slot {
                Some(mut rec) => {
                    if index < rec.deck.len() {
                        let card = rec.deck[index].card;
                        rec.deck.set(index, CardState { card, status });
                    }
                    self.put_rec(entity, Some(rec));
                },
                None => {
                    self.put_rec(entity, None);
                },
            }
            proof {
                if old(self).alive(entity as int) && (index as int) < old(self).deck_of(
                    entity as int,
                ).len() {
                    let predeck = old(self).deck_of(entity as int);
                    let postdeck = self.entities@[entity as int].unwrap().deck@;
                    assert(postdeck =~= predeck.update(
                        index as int,
                        CardState { card: predeck[index as int].card, status },
                    ));
                    assert(deck_bounded(predeck)) by {
                        reveal(Level::cards_bounded);
                    }
                    assert forall|i: int| 0 <= i < postdeck.len() implies (
                    #[trigger] postdeck[i]).card.param_bounded() by {
                        assert(predeck[i].card.param_bounded());
                    }
                } else {
                    assert(self.entities@ =~= old(self).entities@);
                    if self.entities@[entity as int] is Some {
                        assert(deck_bounded(self.entities@[entity as int].unwrap().deck@)) by {
                            reveal(Level::cards_bounded);
                        }
                    }
                }
                if self.entities@[entity as int] is Some {
                    assert(self.entities@[entity as int].unwrap().mods == old(
                        self,
                    ).entities@[entity as int].unwrap().mods);
                    assert(old(self).entities@[entity as int].unwrap().mods@.len() <= 10000) by {
                        reveal(Level::cards_bounded);
                    }
                }
                lemma_wf_slot_update(*old(self), *self, entity as int);
            }
        }
    }
}


/// Whether `e` does not name a living entity.
pub(crate) fn entity_absent(level: &Level, e: usize) -> (r: bool)
    ensures
        r == !level.alive(e as int),
{
    if e < level.entities.len() {
        match &level.entities[e] {
            Some(_) => false,
            None => true,
        }
    } else {
        true
    }
}

/// Well-formedness survives clearing an entity's cell and recorded
/// position together.
proof fn lemma_wf_remove(pre: Level, post: Level, e: int, op: Position)
    requires
        pre.wf(),
        pre.alive(e),
        pre.rec(e).pos == Some(op),
        post.grid.wf(),
        op.in_bounds(),
        post.grid.cell(op.x as int, op.y as int).entity is None,
        post.grid.cell(op.x as int, op.y as int).tile == pre.grid.cell(
            op.x as int,
            op.y as int,
        ).tile,
        forall|x: int, y: int|
            0 <= x < MAP_WIDTH as int && 0 <= y < MAP_HEIGHT as int && !(x == op.x as int && y
                == op.y as int) ==> #[trigger] post.grid.cell(x, y) == pre.grid.cell(x, y),
        post.entities@.len() == pre.entities@.len(),
        forall|e2: int|
            0 <= e2 < pre.entities@.len() && e2 != e ==> post.entities@[e2] == pre.entities@[e2],
        post.alive(e),
        post.rec(e).pos is None,
        post.rec(e).mods == pre.rec(e).mods,
        post.rec(e).deck == pre.rec(e).deck,
    ensures
        post.wf(),
{
    assert(post.occupancy_coherent()) by {
        reveal(Level::occupancy_coherent);
        assert forall|x: int, y: int|
            0 <= x < MAP_WIDTH as int && 0 <= y < MAP_HEIGHT as int && (#[trigger] post.grid.cell(
                x,
                y,
            )).entity is Some implies {
            let id = post.grid.cell(x, y).entity.unwrap() as int;
            &&& post.alive(id)
            &&& post.rec(id).pos is Some
            &&& post.rec(id).pos.unwrap().x as int == x
            &&& post.rec(id).pos.unwrap().y as int == y
        } by {
            assert(!(x == op.x as int && y == op.y as int));
            assert(post.grid.cell(x, y) == pre.grid.cell(x, y));
            let id = post.grid.cell(x, y).entity.unwrap() as int;
            assert(pre.alive(id));
            if id == e {
                assert(pre.rec(e).pos.unwrap() == op);
                assert(false);
            }
            assert(post.entities@[id] == pre.entities@[id]);
        }
    }
    assert(post.positions_coherent()) by {
        reveal(Level::positions_coherent);
        assert forall|e2: int|
            0 <= e2 < post.entities@.len() && (#[trigger] post.entities@[e2]) is Some
                && post.entities@[e2].unwrap().pos is Some implies {
            let p = post.entities@[e2].unwrap().pos.unwrap();
            &&& p.in_bounds()
            &&& post.grid.cell(p.x as int, p.y as int).entity is Some
            &&& post.grid.cell(p.x as int, p.y as int).entity.unwrap() as int == e2
        } by {
            if e2 != e {
                assert(post.entities@[e2] == pre.entities@[e2]);
                let p = post.entities@[e2].unwrap().pos.unwrap();
                assert(pre.grid.cell(p.x as int, p.y as int).entity.unwrap() as int == e2);
                if p.x as int == op.x as int && p.y as int == op.y as int {
                    assert(pre.entities@[e] is Some);
                    assert(pre.entities@[e].unwrap().pos.unwrap() == op);
                    assert(pre.grid.cell(op.x as int, op.y as int).entity.unwrap() as int == e);
                    assert(pre.grid.cell(p.x as int, p.y as int) == pre.grid.cell(
                        op.x as int,
                        op.y as int,
                    ));
                    assert(false);
                }
                assert(post.grid.cell(p.x as int, p.y as int) == pre.grid.cell(
                    p.x as int,
                    p.y as int,
                ));
            }
        }
    }
    assert(post.border_walled()) by {
        reveal(Level::border_walled);
        assert forall|x: int, y: int|
            0 <= x < MAP_WIDTH as int && 0 <= y < MAP_HEIGHT as int && (x == 0 || y == 0 || x
                == MAP_WIDTH as int - 1 || y == MAP_HEIGHT as int - 1) implies (
        #[trigger] post.grid.cell(x, y)).tile == Tile::Wall by {
            if !(x == op.x as int && y == op.y as int) {
                assert(post.grid.cell(x, y) == pre.grid.cell(x, y));
            }
        }
    }
    assert(post.cards_bounded()) by {
        reveal(Level::cards_bounded);
        assert forall|e2: int|
            0 <= e2 < post.entities@.len() && (#[trigger] post.entities@[e2]) is Some implies deck_bounded(post.entities@[e2].unwrap().deck@) && post.entities@[
            e2
        ].unwrap().mods@.len() <= 10000 by {
            if e2 != e {
                assert(post.entities@[e2] == pre.entities@[e2]);
            } else {
                assert(post.rec(e).deck == pre.rec(e).deck);
                assert(post.rec(e).mods == pre.rec(e).mods);
                assert(deck_bounded(pre.entities@[e].unwrap().deck@));
                assert(pre.entities@[e].unwrap().mods@.len() <= 10000);
            }
        }
    }
}

/// Well-formedness survives placing an unplaced entity onto an open,
/// in-bounds cell.
proof fn lemma_wf_place(pre: Level, post: Level, e: int, pos: Position)
    requires
        pre.wf(),
        pre.alive(e),
        pre.rec(e).pos is None,
        pos.in_bounds(),
        pre.grid.cell(pos.x as int, pos.y as int).entity is None,
        post.grid.wf(),
        post.grid.cell(pos.x as int, pos.y as int).entity is Some,
        post.grid.cell(pos.x as int, pos.y as int).entity.unwrap() as int == e,
        post.grid.cell(pos.x as int, pos.y as int).tile == pre.grid.cell(
            pos.x as int,
            pos.y as int,
        ).tile,
        forall|x: int, y: int|
            0 <= x < MAP_WIDTH as int && 0 <= y < MAP_HEIGHT as int && !(x == pos.x as int && y
                == pos.y as int) ==> #[trigger] post.grid.cell(x, y) == pre.grid.cell(x, y),
        post.entities@.len() == pre.entities@.len(),
        forall|e2: int|
            0 <= e2 < pre.entities@.len() && e2 != e ==> post.entities@[e2] == pre.entities@[e2],
        post.alive(e),
        post.rec(e).pos == Some(pos),
        post.rec(e).mods == pre.rec(e).mods,
        post.rec(e).deck == pre.rec(e).deck,
    ensures
        post.wf(),
{
    assert(post.occupancy_coherent()) by {
        reveal(Level::occupancy_coherent);
        assert forall|x: int, y: int|
            0 <= x < MAP_WIDTH as int && 0 <= y < MAP_HEIGHT as int && (#[trigger] post.grid.cell(
                x,
                y,
            )).entity is Some implies {
            let id = post.grid.cell(x, y).entity.unwrap() as int;
            &&& post.alive(id)
            &&& post.rec(id).pos is Some
            &&& post.rec(id).pos.unwrap().x as int == x
            &&& post.rec(id).pos.unwrap().y as int == y
        } by {
            if x == pos.x as int && y == pos.y as int {
                assert(post.grid.cell(x, y).entity.unwrap() as int == e);
            } else {
                assert(post.grid.cell(x, y) == pre.grid.cell(x, y));
                let id = post.grid.cell(x, y).entity.unwrap() as int;
                assert(pre.alive(id));
                if id == e {
                    assert(pre.rec(e).pos is Some);
                    assert(false);
                }
                assert(post.entities@[id] == pre.entities@[id]);
            }
        }
    }
    assert(post.positions_coherent()) by {
        reveal(Level::positions_coherent);
        assert forall|e2: int|
            0 <= e2 < post.entities@.len() && (#[trigger] post.entities@[e2]) is Some
                && post.entities@[e2].unwrap().pos is Some implies {
            let p = post.entities@[e2].unwrap().pos.unwrap();
            &&& p.in_bounds()
            &&& post.grid.cell(p.x as int, p.y as int).entity is Some
            &&& post.grid.cell(p.x as int, p.y as int).entity.unwrap() as int == e2
        } by {
            if e2 == e {
                assert(post.entities@[e].unwrap().pos.unwrap() == pos);
            } else {
                assert(post.entities@[e2] == pre.entities@[e2]);
                let p = post.entities@[e2].unwrap().pos.unwrap();
                assert(pre.grid.cell(p.x as int, p.y as int).entity.unwrap() as int == e2);
                if p.x as int == pos.x as int && p.y as int == pos.y as int {
                    assert(pre.grid.cell(pos.x as int, pos.y as int).entity is None);
                    assert(false);
                }
                assert(post.grid.cell(p.x as int, p.y as int) == pre.grid.cell(
                    p.x as int,
                    p.y as int,
                ));
            }
        }
    }
    assert(post.border_walled()) by {
        reveal(Level::border_walled);
        assert forall|x: int, y: int|
            0 <= x < MAP_WIDTH as int && 0 <= y < MAP_HEIGHT as int && (x == 0 || y == 0 || x
                == MAP_WIDTH as int - 1 || y == MAP_HEIGHT as int - 1) implies (
        #[trigger] post.grid.cell(x, y)).tile == Tile::Wall by {
            if !(x == pos.x as int && y == pos.y as int) {
                assert(post.grid.cell(x, y) == pre.grid.cell(x, y));
            }
        }
    }
    assert(post.cards_bounded()) by {
        reveal(Level::cards_bounded);
        assert forall|e2: int|
            0 <= e2 < post.entities@.len() && (#[trigger] post.entities@[e2]) is Some implies deck_bounded(post.entities@[e2].unwrap().deck@) && post.entities@[
            e2
        ].unwrap().mods@.len() <= 10000 by {
            if e2 != e {
                assert(post.entities@[e2] == pre.entities@[e2]);
            } else {
                assert(post.rec(e).deck == pre.rec(e).deck);
                assert(post.rec(e).mods == pre.rec(e).mods);
                assert(deck_bounded(pre.entities@[e].unwrap().deck@));
                assert(pre.entities@[e].unwrap().mods@.len() <= 10000);
            }
        }
    }
}

/// Exactly what removing an entity from the grid does: its cell (if any)
/// is vacated and its recorded position cleared; nothing else moves.
pub open spec fn remove_rel(pre: Level, post: Level, e: int) -> bool {
    &&& post.rng == pre.rng
    &&& same_misc(pre, post)
    &&& same_entities_except(pre, post, e)
    &&& post.entities@.len() == pre.entities@.len()
    &&& !pre.alive(e) ==> post == pre
    &&& pre.alive(e) ==> {
        &&& post.alive(e)
        &&& post.rec(e).typ == pre.rec(e).typ
        &&& post.rec(e).goal == pre.rec(e).goal
        &&& post.rec(e).deck == pre.rec(e).deck
        &&& post.rec(e).mods == pre.rec(e).mods
        &&& post.rec(e).pos is None
    }
    &&& match pre.pos_of(e) {
        Some(op) => {
            &&& post.grid.cell(op.x as int, op.y as int) == (Square {
                tile: pre.grid.cell(op.x as int, op.y as int).tile,
                entity: None,
                visibility: pre.grid.cell(op.x as int, op.y as int).visibility,
            })
            &&& forall|x: int, y: int|
                0 <= x < MAP_WIDTH as int && 0 <= y < MAP_HEIGHT as int && !(x == op.x as int && y
                    == op.y as int) ==> #[trigger] post.grid.cell(x, y) == pre.grid.cell(x, y)
        },
        None => post.grid == pre.grid,
    }
}

/// Exactly what a successful move does: the destination cell gains the
/// entity, its old cell (if any) is vacated, its recorded position
/// becomes the destination; nothing else moves.
pub open spec fn move_rel(pre: Level, post: Level, e: int, pos: Position) -> bool {
    &&& post.rng == pre.rng
    &&& same_misc(pre, post)
    &&& same_entities_except(pre, post, e)
    &&& post.entities@.len() == pre.entities@.len()
    &&& post.alive(e)
    &&& post.rec(e).typ == pre.rec(e).typ
    &&& post.rec(e).goal == pre.rec(e).goal
    &&& post.rec(e).deck == pre.rec(e).deck
    &&& post.rec(e).mods == pre.rec(e).mods
    &&& post.rec(e).pos == Some(pos)
    &&& pos.in_bounds()
    &&& post.grid.cell(pos.x as int, pos.y as int).tile == pre.grid.cell(
        pos.x as int,
        pos.y as int,
    ).tile
    &&& post.grid.cell(pos.x as int, pos.y as int).visibility == pre.grid.cell(
        pos.x as int,
        pos.y as int,
    ).visibility
    &&& post.grid.cell(pos.x as int, pos.y as int).entity is Some
    &&& post.grid.cell(pos.x as int, pos.y as int).entity.unwrap() as int == e
    &&& match pre.pos_of(e) {
        Some(op) => {
            &&& post.grid.cell(op.x as int, op.y as int) == (Square {
                tile: pre.grid.cell(op.x as int, op.y as int).tile,
                entity: None,
                visibility: pre.grid.cell(op.x as int, op.y as int).visibility,
            })
            &&& forall|x: int, y: int|
                0 <= x < MAP_WIDTH as int && 0 <= y < MAP_HEIGHT as int && !(x == op.x as int && y
                    == op.y as int) && !(x == pos.x as int && y == pos.y as int)
                    ==> #[trigger] post.grid.cell(x, y) == pre.grid.cell(x, y)
        },
        None => forall|x: int, y: int|
            0 <= x < MAP_WIDTH as int && 0 <= y < MAP_HEIGHT as int && !(x == pos.x as int && y
                == pos.y as int) ==> #[trigger] post.grid.cell(x, y) == pre.grid.cell(x, y),
    }
}

impl Level {
    /// Vacate an entity's cell and clear its recorded position. Returns
    /// the position it stood on, if any; a dangling id changes nothing.
    pub fn remove_entity(&mut self, entity: usize) -> (r: Option<Position>)
        requires
            old(self).wf(),
        ensures
            final(self).wf(),
            r == old(self).pos_of(entity as int),
            remove_rel(*old(self), *final(self), entity as int),
    {
        let opos = self.get_pos(entity);
        match opos {
            None => None,
            Some(op) => {
                proof {
                    assert(op.in_bounds()) by {
                        reveal(Level::positions_coherent);
                        assert(old(self).entities@[entity as int] is Some);
                    }
                }
                let sq = self.grid.get(op);
                self.grid.put(
                    op,
                    Square { tile: sq.tile, entity: None, visibility: sq.visibility },
                );
                let slot = self.take_rec(entity);
                match slot {
                    Some(rec) => {
                        self.put_rec(
                            entity,
                            Some(
                                EntityRec {
                                    typ: rec.typ,
                                    pos: None,
                                    goal: rec.goal,
                                    deck: rec.deck,
                                    mods: rec.mods,
                                },
                            ),
                        );
                    },
                    None => {
                        proof {
                            assert(false);
                        }
                    },
                }
                proof {
                    assert(self.entities@ =~= old(self).entities@.update(
                        entity as int,
                        self.entities@[entity as int],
                    ));
                    lemma_wf_remove(*old(self), *self, entity as int, op);
                }
                Some(op)
            },
        }
    }

    /// Move an entity to `pos`. Fails, changing nothing, when the
    /// destination is not open or the id is dangling.
    pub fn move_entity(&mut self, entity: usize, pos: Position) -> (r: bool)
        requires
            old(self).wf(),
        ensures
            final(self).wf(),
            r == (old(self).alive(entity as int) && old(self).grid.at(pos).spec_is_open()),
            !r ==> *final(self) == *old(self),
            r ==> move_rel(*old(self), *final(self), entity as int, pos),
    {
        if entity_absent(self, entity) {
            return false;
        }
        if !self.is_open(pos) {
            return false;
        }
        let ghost pre = *self;
        let _ = self.remove_entity(entity);
        let ghost mid = *self;
        let sq = self.grid.get(pos);
        self.grid.put(pos, Square { tile: sq.tile, entity: Some(entity), visibility: sq.visibility });
        let slot = self.take_rec(entity);
        match slot {
            Some(rec) => {
                self.put_rec(
                    entity,
                    Some(
                        EntityRec {
                            typ: rec.typ,
                            pos: Some(pos),
                            goal: rec.goal,
                            deck: rec.deck,
                            mods: rec.mods,
                        },
                    ),
                );
            },
            None => {
                proof {
                    assert(false);
                }
            },
        }
        proof {
            assert(self.entities@ =~= mid.entities@.update(
                entity as int,
                self.entities@[entity as int],
            ));
            assert(pos.in_bounds());
            if pre.pos_of(entity as int) is Some {
                let op = pre.pos_of(entity as int).unwrap();
                assert(!(op.x as int == pos.x as int && op.y as int == pos.y as int)) by {
                    reveal(Level::positions_coherent);
                    assert(pre.entities@[entity as int] is Some);
                    assert(pre.grid.cell(op.x as int, op.y as int).entity is Some);
                }
                assert(mid.grid.cell(pos.x as int, pos.y as int) == pre.grid.cell(
                    pos.x as int,
                    pos.y as int,
                ));
            }
            lemma_wf_place(mid, *self, entity as int, pos);
            if pre.pos_of(entity as int) is Some {
                let op = pre.pos_of(entity as int).unwrap();
                assert(op.in_bounds()) by {
                    reveal(Level::positions_coherent);
                    assert(pre.entities@[entity as int] is Some);
                }
                assert(self.grid.cell(op.x as int, op.y as int) == mid.grid.cell(
                    op.x as int,
                    op.y as int,
                ));
                assert forall|x: int, y: int|
                    0 <= x < MAP_WIDTH as int && 0 <= y < MAP_HEIGHT as int && !(x == op.x as int
                        && y == op.y as int) && !(x == pos.x as int && y == pos.y as int) implies
                    #[trigger] self.grid.cell(x, y) == pre.grid.cell(x, y) by {
                    assert(self.grid.cell(x, y) == mid.grid.cell(x, y));
                    assert(mid.grid.cell(x, y) == pre.grid.cell(x, y));
                }
            } else {
                assert(mid.grid == pre.grid);
                assert forall|x: int, y: int|
                    0 <= x < MAP_WIDTH as int && 0 <= y < MAP_HEIGHT as int && !(x == pos.x as int
                        && y == pos.y as int) implies #[trigger] self.grid.cell(x, y)
                    == pre.grid.cell(x, y) by {
                    assert(self.grid.cell(x, y) == mid.grid.cell(x, y));
                }
            }
        }
        true
    }

    /// Destroy an entity: vacate its cell and drop it from every table.
    /// A dangling reference resolves to a no-op.
    pub fn destroy_entity(&mut self, entity: usize)
        requires
            old(self).wf(),
        ensures
            final(self).wf(),
            !final(self).alive(entity as int),
            final(self).rng == old(self).rng,
            same_misc(*old(self), *final(self)),
            same_entities_except(*old(self), *final(self), entity as int),
            final(self).entities@.len() == old(self).entities@.len(),
            match old(self).pos_of(entity as int) {
                Some(op) => {
                    &&& final(self).grid.cell(op.x as int, op.y as int) == (Square {
                        tile: old(self).grid.cell(op.x as int, op.y as int).tile,
                        entity: None,
                        visibility: old(self).grid.cell(op.x as int, op.y as int).visibility,
                    })
                    &&& forall|x: int, y: int|
                        0 <= x < MAP_WIDTH as int && 0 <= y < MAP_HEIGHT as int && !(x
                            == op.x as int && y == op.y as int) ==> #[trigger] final(self).grid.cell(
                            x,
                            y,
                        ) == old(self).grid.cell(x, y)
                },
                None => final(self).grid == old(self).grid,
            },
    {
        let _ = self.remove_entity(entity);
        let ghost mid = *self;
        if entity < self.entities.len() {
            let _ = self.take_rec(entity);
            proof {
                lemma_wf_kill(mid, *self, entity as int);
            }
        }
    }

    /// Register a fresh entity of the given type with no position, no
    /// goal, an empty deck and no modifications. Its id is one past the
    /// previously largest id; ids are never reused.
    pub fn make_entity(&mut self, typ: EntityType) -> (r: usize)
        requires
            old(self).wf(),
            old(self).entities@.len() < usize::MAX,
        ensures
            final(self).wf(),
            r as int == old(self).entities@.len(),
            final(self).entities@.len() == old(self).entities@.len() + 1,
            forall|e2: int|
                0 <= e2 < old(self).entities@.len() ==> #[trigger] final(self).entities@[e2] == old(
                    self,
                ).entities@[e2],
            final(self).alive(r as int),
            final(self).rec(r as int).typ == typ,
            final(self).rec(r as int).pos is None,
            final(self).rec(r as int).goal is None,
            final(self).rec(r as int).deck@.len() == 0,
            final(self).rec(r as int).mods@.len() == 0,
            final(self).grid == old(self).grid,
            final(self).rng == old(self).rng,
            same_misc(*old(self), *final(self)),
    {
        let id = self.entities.len();
        self.entities.push(
            Some(
                EntityRec { typ, pos: None, goal: None, deck: Vec::new(), mods: Vec::new() },
            ),
        );
        proof {
            lemma_wf_grow(*old(self), *self);
        }
        id
    }

    /// Spawn an entity of the given type at `pos` when that cell is
    /// open; its deck starts empty.
    pub fn spawn_entity(&mut self, typ: EntityType, pos: Position) -> (r: Option<usize>)
        requires
            old(self).wf(),
            old(self).entities@.len() < usize::MAX,
        ensures
            final(self).wf(),
            r is Some <==> old(self).grid.at(pos).spec_is_open(),
            !old(self).grid.at(pos).spec_is_open() ==> *final(self) == *old(self),
            r matches Some(id) ==> {
                &&& id as int == old(self).entities@.len()
                &&& final(self).entities@.len() == old(self).entities@.len() + 1
                &&& forall|e2: int|
                    0 <= e2 < old(self).entities@.len() ==> #[trigger] final(self).entities@[e2]
                        == old(self).entities@[e2]
                &&& final(self).alive(id as int)
                &&& final(self).rec(id as int).typ == typ
                &&& final(self).rec(id as int).pos == Some(pos)
                &&& final(self).rec(id as int).deck@.len() == 0
                &&& final(self).rec(id as int).mods@.len() == 0
                &&& pos.in_bounds()
                &&& final(self).grid.cell(pos.x as int, pos.y as int).tile == old(self).grid.cell(
                    pos.x as int,
                    pos.y as int,
                ).tile
                &&& final(self).grid.cell(pos.x as int, pos.y as int).visibility == old(
                    self,
                ).grid.cell(pos.x as int, pos.y as int).visibility
                &&& final(self).grid.cell(pos.x as int, pos.y as int).entity is Some
                &&& final(self).grid.cell(pos.x as int, pos.y as int).entity.unwrap() as int
                    == id as int
                &&& forall|x: int, y: int|
                    0 <= x < MAP_WIDTH as int && 0 <= y < MAP_HEIGHT as int && !(x == pos.x as int
                        && y == pos.y as int) ==> #[trigger] final(self).grid.cell(x, y) == old(
                        self,
                    ).grid.cell(x, y)
                &&& final(self).rng == old(self).rng
                &&& same_misc(*old(self), *final(self))
            },
    {
        if !self.is_open(pos) {
            return None;
        }
        let entity = self.make_entity(typ);
        let moved = self.move_entity(entity, pos);
        proof {
            assert(moved);
        }
        Some(entity)
    }
}

/// Well-formedness survives emptying the slot of an entity that has no
/// recorded position.
proof fn lemma_wf_kill(pre: Level, post: Level, e: int)
    requires
        pre.wf(),
        0 <= e < pre.entities@.len(),
        pre.alive(e) ==> pre.rec(e).pos is None,
        post.grid == pre.grid,
        post.entities@.len() == pre.entities@.len(),
        forall|e2: int|
            0 <= e2 < pre.entities@.len() && e2 != e ==> post.entities@[e2] == pre.entities@[e2],
        post.entities@[e] is None,
    ensures
        post.wf(),
{
    assert(post.occupancy_coherent()) by {
        reveal(Level::occupancy_coherent);
        assert forall|x: int, y: int|
            0 <= x < MAP_WIDTH as int && 0 <= y < MAP_HEIGHT as int && (#[trigger] post.grid.cell(
                x,
                y,
            )).entity is Some implies {
            let id = post.grid.cell(x, y).entity.unwrap() as int;
            &&& post.alive(id)
            &&& post.rec(id).pos is Some
            &&& post.rec(id).pos.unwrap().x as int == x
            &&& post.rec(id).pos.unwrap().y as int == y
        } by {
            assert(post.grid.cell(x, y) == pre.grid.cell(x, y));
            let id = post.grid.cell(x, y).entity.unwrap() as int;
            assert(pre.alive(id));
            if id == e {
                assert(pre.rec(e).pos is Some);
                assert(false);
            }
            assert(post.entities@[id] == pre.entities@[id]);
        }
    }
    assert(post.positions_coherent()) by {
        reveal(Level::positions_coherent);
        assert forall|e2: int|
            0 <= e2 < post.entities@.len() && (#[trigger] post.entities@[e2]) is Some
                && post.entities@[e2].unwrap().pos is Some implies {
            let p = post.entities@[e2].unwrap().pos.unwrap();
            &&& p.in_bounds()
            &&& post.grid.cell(p.x as int, p.y as int).entity is Some
            &&& post.grid.cell(p.x as int, p.y as int).entity.unwrap() as int == e2
        } by {
            assert(e2 != e);
            assert(post.entities@[e2] == pre.entities@[e2]);
        }
    }
    assert(post.border_walled()) by {
        reveal(Level::border_walled);
    }
    assert(post.cards_bounded()) by {
        reveal(Level::cards_bounded);
        assert forall|e2: int|
            0 <= e2 < post.entities@.len() && (#[trigger] post.entities@[e2]) is Some implies deck_bounded(post.entities@[e2].unwrap().deck@) && post.entities@[
            e2
        ].unwrap().mods@.len() <= 10000 by {
            assert(e2 != e);
            assert(post.entities@[e2] == pre.entities@[e2]);
        }
    }
}

/// Well-formedness survives appending a fresh unplaced entity slot.
proof fn lemma_wf_grow(pre: Level, post: Level)
    requires
        pre.wf(),
        post.grid == pre.grid,
        post.entities@.len() == pre.entities@.len() + 1,
        forall|e2: int|
            0 <= e2 < pre.entities@.len() ==> #[trigger] post.entities@[e2] == pre.entities@[e2],
        post.entities@[pre.entities@.len() as int] is Some,
        post.entities@[pre.entities@.len() as int].unwrap().pos is None,
        post.entities@[pre.entities@.len() as int].unwrap().deck@.len() == 0,
        post.entities@[pre.entities@.len() as int].unwrap().mods@.len() == 0,
    ensures
        post.wf(),
{
    let n = pre.entities@.len() as int;
    assert(post.occupancy_coherent()) by {
        reveal(Level::occupancy_coherent);
        assert forall|x: int, y: int|
            0 <= x < MAP_WIDTH as int && 0 <= y < MAP_HEIGHT as int && (#[trigger] post.grid.cell(
                x,
                y,
            )).entity is Some implies {
            let id = post.grid.cell(x, y).entity.unwrap() as int;
            &&& post.alive(id)
            &&& post.rec(id).pos is Some
            &&& post.rec(id).pos.unwrap().x as int == x
            &&& post.rec(id).pos.unwrap().y as int == y
        } by {
            assert(post.grid.cell(x, y) == pre.grid.cell(x, y));
            let id = post.grid.cell(x, y).entity.unwrap() as int;
            assert(pre.alive(id));
            assert(id < n);
            assert(post.entities@[id] == pre.entities@[id]);
        }
    }
    assert(post.positions_coherent()) by {
        reveal(Level::positions_coherent);
        assert forall|e2: int|
            0 <= e2 < post.entities@.len() && (#[trigger] post.entities@[e2]) is Some
                && post.entities@[e2].unwrap().pos is Some implies {
            let p = post.entities@[e2].unwrap().pos.unwrap();
            &&& p.in_bounds()
            &&& post.grid.cell(p.x as int, p.y as int).entity is Some
            &&& post.grid.cell(p.x as int, p.y as int).entity.unwrap() as int == e2
        } by {
            assert(e2 != n);
            assert(post.entities@[e2] == pre.entities@[e2]);
        }
    }
    assert(post.border_walled()) by {
        reveal(Level::border_walled);
    }
    assert(post.cards_bounded()) by {
        reveal(Level::cards_bounded);
        assert forall|e2: int|
            0 <= e2 < post.entities@.len() && (#[trigger] post.entities@[e2]) is Some implies deck_bounded(post.entities@[e2].unwrap().deck@) && post.entities@[
            e2
        ].unwrap().mods@.len() <= 10000 by {
            if e2 != n {
                assert(post.entities@[e2] == pre.entities@[e2]);
            } else {
                assert(post.entities@[n].unwrap().deck@.len() == 0);
            }
        }
    }
}

} // verus!
