//! The whole run: a sum over the level being played, a pending level
//! transition, and victory. `update` advances it at level-exit
//! boundaries; the per-turn loop lives on the level itself. The random
//! generator's state is carried across transitions, so one seed and one
//! action sequence reproduce one identical run.

use crate::cards::{Card, CardState, CardStatus};
use crate::entity::{EntityRec, EntityType, PLAYER};
use crate::gen::{generate_map, grid_unoccupied, lattice_doors, placed_creature, LevelType};
use crate::grid::{Grid, Position, Tile, Visibility};
use crate::level::{deck_bounded, Level, MessageLog};
use crate::rng::{rng_clone, rng_from_seed};
use vstd::prelude::*;

verus! {

/// A pending transition between levels: what carries over.
pub struct LevelTransition {
    pub next_level: i32,
    pub deck: Vec<Card>,
    pub collected: Vec<(Card, i32)>,
    pub mutations: Vec<Card>,
    pub rng: rand::rngs::StdRng,
}

pub enum Game {
    Level(Level),
    Transition(LevelTransition),
    Victory,
}

/// The canonical seven-card deck a fresh run starts with.
pub open spec fn initial_player_deck() -> Seq<CardState> {
    seq![
        CardState { card: Card::Attack(1), status: CardStatus::Active },
        CardState { card: Card::Kill(1), status: CardStatus::Active },
        CardState { card: Card::Strike, status: CardStatus::Active },
        CardState { card: Card::Push, status: CardStatus::Active },
        CardState { card: Card::Dodge, status: CardStatus::Active },
        CardState { card: Card::Defend(2), status: CardStatus::Active },
        CardState { card: Card::Block, status: CardStatus::Active },
    ]
}

/// Every card of a carried-over deck keeps its parameter small.
pub open spec fn cards_ok(deck: Seq<Card>) -> bool {
    &&& deck.len() <= 10000
    &&& forall|i: int| 0 <= i < deck.len() ==> (#[trigger] deck[i]).param_bounded()
}

/// What holds of a game in any state: an active level is well-formed
/// and its number is one of the run's seven floors; a pending
/// transition carries a bounded deck toward one of them.
pub open spec fn game_wf(g: Game) -> bool {
    match g {
        Game::Level(l) => l.wf() && 0 <= l.level <= 6,
        Game::Transition(t) => cards_ok(t.deck@) && 0 <= t.next_level <= 6,
        Game::Victory => true,
    }
}

impl Level {
    /// A fresh first level from a 32-bit seed: the player gets the
    /// canonical starting deck and the generator is seeded with the
    /// seed's four bytes.
    pub fn new(seed: u32) -> (r: Level)
        ensures
            r.wf(),
            r.level == 0,
            r.alive(PLAYER as int),
            r.spec_type_of(PLAYER as int) == EntityType::Player,
            r.deck_of(PLAYER as int) == initial_player_deck(),
            r.pos_of(PLAYER as int) == Some(Position { x: 3, y: 3 }),
            r.grid.cell(33, 21).tile == Tile::Exit,
    {
        let b0 = #[verifier::truncate] (seed as u8);
        let b1 = #[verifier::truncate] ((seed >> 8u32) as u8);
        let b2 = #[verifier::truncate] ((seed >> 16u32) as u8);
        let b3 = #[verifier::truncate] ((seed >> 24u32) as u8);
        let mut deck: Vec<Card> = Vec::new();
        deck.push(Card::Attack(1));
        deck.push(Card::Kill(1));
        deck.push(Card::Strike);
        deck.push(Card::Push);
        deck.push(Card::Dodge);
        deck.push(Card::Defend(2));
        deck.push(Card::Block);
        proof {
            assert(forall|i: int| 0 <= i < deck@.len() ==> (#[trigger] deck@[i]).param_bounded());
        }
        let r = Level::next(0, deck, rng_from_seed(b0, b1, b2, b3));
        proof {
            assert(r.deck_of(PLAYER as int) =~= initial_player_deck());
        }
        r
    }

    /// Build the next level: the player enters with the carried deck,
    /// all cards Active, the map generates from the carried generator
    /// state, and initial sight is computed.
    pub fn next(next_level: i32, player_deck: Vec<Card>, rng: rand::rngs::StdRng) -> (r: Level)
        requires
            cards_ok(player_deck@),
        ensures
            r.wf(),
            r.level == next_level,
            r.alive(PLAYER as int),
            r.spec_type_of(PLAYER as int) == EntityType::Player,
            r.deck_of(PLAYER as int).len() == player_deck@.len(),
            forall|j: int|
                0 <= j < player_deck@.len() ==> #[trigger] r.deck_of(PLAYER as int)[j] == (
                CardState { card: player_deck@[j], status: CardStatus::Active }),
            r.pos_of(PLAYER as int) == Some(Position { x: 3, y: 3 }),
            r.grid.cell(33, 21).tile == Tile::Exit,
            lattice_doors(r),
            r.grid.at(Position { x: 3, y: 3 }).visibility == Visibility::Visible,
            forall|e2: int|
                1 <= e2 < r.entities@.len() ==> #[trigger] placed_creature(r, e2),
    {
        let mut deck: Vec<CardState> = Vec::new();
        let mut i: usize = 0;
        while i < player_deck.len()
            invariant
                cards_ok(player_deck@),
                i <= player_deck@.len(),
                deck@.len() == i,
                forall|j: int|
                    0 <= j < i ==> (#[trigger] deck@[j]) == (CardState {
                        card: player_deck@[j],
                        status: CardStatus::Active,
                    }),
            decreases player_deck@.len() - i,
        {
            deck.push(CardState { card: player_deck[i], status: CardStatus::Active });
            i = i + 1;
        }
        let mut entities: Vec<Option<EntityRec>> = Vec::new();
        entities.push(
            Some(
                EntityRec {
                    typ: EntityType::Player,
                    pos: None,
                    goal: None,
                    deck,
                    mods: Vec::new(),
                },
            ),
        );
        let mut level = Level {
            level: next_level,
            grid: Grid::new(),
            entities,
            collected: Vec::new(),
            log: MessageLog::new(),
            rng,
        };
        proof {
            lemma_fresh_level_wf(level);
            assert(grid_unoccupied(level));
            assert(level.alive(PLAYER as int));
        }
        let ghost fresh = level;
        generate_map(&mut level, LevelType::Test);
        let ghost generated = level;
        level.update_visibility(true);
        proof {
            assert(level.entities@ == generated.entities@);
            assert(generated.alive(PLAYER as int) && generated.rec(PLAYER as int).typ
                == fresh.rec(PLAYER as int).typ && generated.rec(PLAYER as int).deck
                == fresh.rec(PLAYER as int).deck);
            assert(level.pos_of(PLAYER as int) == generated.pos_of(PLAYER as int));
            assert(level.deck_of(PLAYER as int) == generated.deck_of(PLAYER as int));
            assert(level.grid.cell(33, 21).tile == generated.grid.cell(33, 21).tile);
            assert(lattice_doors(level)) by {
                assert forall|i2: int, j2: int|
                    0 <= i2 < 4 && 1 <= j2 < 6 implies (#[trigger] level.grid.cell(
                    6 * j2,
                    3 + 6 * i2,
                )).tile == Tile::Door by {
                    assert(level.grid.cell(6 * j2, 3 + 6 * i2).tile == generated.grid.cell(
                        6 * j2,
                        3 + 6 * i2,
                    ).tile);
                }
                assert forall|i2: int, j2: int|
                    1 <= i2 < 4 && 0 <= j2 < 6 implies (#[trigger] level.grid.cell(
                    3 + 6 * j2,
                    6 * i2,
                )).tile == Tile::Door by {
                    assert(level.grid.cell(3 + 6 * j2, 6 * i2).tile == generated.grid.cell(
                        3 + 6 * j2,
                        6 * i2,
                    ).tile);
                }
            }
            assert forall|e2: int|
                1 <= e2 < level.entities@.len() implies #[trigger] placed_creature(
                level,
                e2,
            ) by {
                assert(placed_creature(generated, e2));
                assert(level.entities@[e2] == generated.entities@[e2]);
            }
        }
        level
    }
}

/// A level whose grid is all unknown walls and whose single entity is
/// an unplaced player with a bounded deck is well-formed.
proof fn lemma_fresh_level_wf(l: Level)
    requires
        l.grid.wf(),
        forall|x: int, y: int|
            0 <= x < crate::grid::MAP_WIDTH as int && 0 <= y < crate::grid::MAP_HEIGHT as int
                ==> #[trigger] l.grid.cell(x, y) == crate::grid::default_square(),
        l.entities@.len() == 1,
        l.entities@[0] is Some,
        l.entities@[0].unwrap().pos is None,
        deck_bounded(l.entities@[0].unwrap().deck@),
        l.entities@[0].unwrap().mods@.len() == 0,
    ensures
        l.wf(),
{
    assert(l.occupancy_coherent()) by {
        reveal(Level::occupancy_coherent);
    }
    assert(l.positions_coherent()) by {
        reveal(Level::positions_coherent);
    }
    assert(l.border_walled()) by {
        reveal(Level::border_walled);
    }
    assert(l.cards_bounded()) by {
        reveal(Level::cards_bounded);
        assert forall|e: int|
            0 <= e < l.entities@.len() && (#[trigger] l.entities@[e]) is Some implies deck_bounded(
            l.entities@[e].unwrap().deck@,
        ) && l.entities@[e].unwrap().mods@.len() <= 10000 by {
            assert(e == 0);
        }
    }
}

/// Exactly how `update` advances the run: an uncompleted level and
/// Victory stand untouched; a completed sixth level ends in Victory; a
/// completed earlier level becomes a transition carrying the next level
/// number, the player's card values in order and the collected rewards;
/// a pending transition becomes the next level with the carried deck
/// dealt to the player, all Active.
pub open spec fn update_rel(pre: Game, post: Game) -> bool {
    match pre {
        Game::Victory => post == pre,
        Game::Level(l) => if !l.spec_complete() {
            post == pre
        } else if l.level == 6 {
            post is Victory
        } else {
            match post {
                Game::Transition(t) => {
                    &&& t.next_level == l.level + 1
                    &&& t.deck@.len() == l.deck_of(PLAYER as int).len()
                    &&& forall|j: int|
                        0 <= j < t.deck@.len() ==> #[trigger] t.deck@[j] == l.deck_of(
                            PLAYER as int,
                        )[j].card
                    &&& t.collected@ == l.collected@
                },
                _ => false,
            }
        },
        Game::Transition(t) => match post {
            Game::Level(l2) => {
                &&& l2.level == t.next_level
                &&& l2.alive(PLAYER as int)
                &&& l2.deck_of(PLAYER as int).len() == t.deck@.len()
                &&& forall|j: int|
                    0 <= j < t.deck@.len() ==> #[trigger] l2.deck_of(PLAYER as int)[j] == (
                    CardState { card: t.deck@[j], status: CardStatus::Active })
                &&& l2.pos_of(PLAYER as int) == Some(Position { x: 3, y: 3 })
            },
            _ => false,
        },
    }
}

impl Game {
    /// Construct a fresh run from a seed.
    pub fn new(seed: u32) -> (g: Game)
        ensures
            game_wf(g),
            g is Level,
    {
        Game::Level(Level::new(seed))
    }

    /// Advance the run at a level-exit boundary: a completed level
    /// becomes a transition (or victory after the last level), a
    /// transition becomes the next level, and victory is final. An
    /// uncompleted level is left exactly as it is.
    pub fn update(&mut self)
        requires
            game_wf(*old(self)),
        ensures
            game_wf(*final(self)),
            update_rel(*old(self), *final(self)),
    {
        let next: Option<Game> = match &*self {
            Game::Level(level) => {
                if level.is_complete() {
                    if level.level == 6 {
                        Some(Game::Victory)
                    } else {
                        let deck = player_cards(level);
                        let mut collected: Vec<(Card, i32)> = Vec::new();
                        let mut k: usize = 0;
                        while k < level.collected.len()
                            invariant
                                k <= level.collected@.len(),
                                collected@.len() == k,
                                forall|j: int|
                                    0 <= j < k as int ==> #[trigger] collected@[j]
                                        == level.collected@[j],
                            decreases level.collected@.len() - k,
                        {
                            collected.push(level.collected[k]);
                            k = k + 1;
                        }
                        proof {
                            assert(collected@ =~= level.collected@);
                        }
                        let mut mutations: Vec<Card> = Vec::new();
                        mutations.push(Card::Attack(1));
                        mutations.push(Card::Attack(2));
                        mutations.push(Card::Attack(3));
                        Some(
                            Game::Transition(
                                LevelTransition {
                                    next_level: level.level + 1,
                                    deck,
                                    collected,
                                    mutations,
                                    rng: rng_clone(&level.rng),
                                },
                            ),
                        )
                    }
                } else {
                    None
                }
            },
            Game::Transition(trans) => {
                let mut deck: Vec<Card> = Vec::new();
                let mut k: usize = 0;
                while k < trans.deck.len()
                    invariant
                        cards_ok(trans.deck@),
                        k <= trans.deck@.len(),
                        deck@.len() == k,
                        forall|j: int| 0 <= j < k ==> #[trigger] deck@[j] == trans.deck@[j],
                    decreases trans.deck@.len() - k,
                {
                    deck.push(trans.deck[k]);
                    k = k + 1;
                }
                proof {
                    assert(deck@ =~= trans.deck@);
                }
                Some(Game::Level(Level::next(trans.next_level, deck, rng_clone(&trans.rng))))
            },
            Game::Victory => None,
        };
        match next {
            Some(g) => {
                *self = g;
            },
            None => {},
        }
    }
}

/// The cards of the player's deck in order, statuses dropped: what
/// carries over into the next level.
fn player_cards(level: &Level) -> (r: Vec<Card>)
    requires
        level.wf(),
    ensures
        cards_ok(r@),
        r@.len() == level.deck_of(PLAYER as int).len(),
        forall|j: int|
            0 <= j < r@.len() ==> #[trigger] r@[j] == level.deck_of(PLAYER as int)[j].card,
{
    proof {
        assert(deck_bounded(level.deck_of(PLAYER as int))) by {
            reveal(Level::cards_bounded);
        }
    }
    let n = level.deck_len(PLAYER);
    let mut r: Vec<Card> = Vec::new();
    let mut i: usize = 0;
    while i < n
        invariant
            level.wf(),
            n == level.deck_of(PLAYER as int).len(),
            deck_bounded(level.deck_of(PLAYER as int)),
            i <= n,
            r@.len() == i,
            forall|j: int|
                0 <= j < i ==> #[trigger] r@[j] == level.deck_of(PLAYER as int)[j].card,
        decreases n - i,
    {
        let cs = level.deck_card(PLAYER, i);
        r.push(cs.card);
        i = i + 1;
    }
    proof {
        assert forall|j: int| 0 <= j < r@.len() implies (#[trigger] r@[j]).param_bounded() by {
            assert(level.deck_of(PLAYER as int)[j].card.param_bounded());
        }
    }
    r
}

} // verus!
