//! The turn engine. A requested action becomes an event for the acting
//! entity, runs through its card pipeline, and is carried out; a
//! successful player action then refreshes visibility, lets every other
//! living entity take one goal-directed turn in id order, refreshes
//! visibility again, and checks for level completion. An illegal or
//! out-of-turn action is rejected with no state change at all.

use crate::cards::{CardState, CardStatus};
use crate::combat::{
    combat_rel, lemma_no_active_match_transfer, log_extends, no_active_match, toggle_rel, Event,
    RESOLVE_FUEL,
};
use crate::entity::{EntityType, PLAYER};
use crate::grid::{Direction, Position, Visibility};
use crate::level::{entity_absent, same_entities_except, Level};
use crate::rng::rng_gen_range;
use vstd::prelude::*;

verus! {

/// What the presentation layer may request of the simulation.
#[derive(PartialEq, Eq, Structural, Copy, Clone, Debug)]
pub enum Action {
    Move(Direction),
    Rest,
    Wait,
    Toggle(usize),
}

/// Exactly when an action is accepted for an entity: the entity must
/// live and stand somewhere; a move needs an occupant to attack or an
/// open destination; a toggle needs an Active or Inactive card at that
/// index; resting and waiting are always accepted.
pub open spec fn action_legal(lvl: Level, e: int, action: Action) -> bool {
    &&& lvl.alive(e)
    &&& lvl.pos_of(e) is Some
    &&& match action {
        Action::Move(dir) => {
            let np = lvl.pos_of(e).unwrap().spec_step(dir);
            lvl.grid.at(np).entity is Some || lvl.grid.at(np).spec_is_open()
        },
        Action::Rest => true,
        Action::Wait => true,
        Action::Toggle(i) => lvl.card_status_of(e, i as int) == Some(CardStatus::Active)
            || lvl.card_status_of(e, i as int) == Some(CardStatus::Inactive),
    }
}

impl Level {
    /// A living entity's remembered goal position.
    pub fn get_goal(&self, entity: usize) -> (r: Option<Position>)
        ensures
            r == if self.alive(entity as int) {
                self.rec(entity as int).goal
            } else {
                None
            },
    {
        if entity < self.entities.len() {
            match &self.entities[entity] {
                Some(rec) => rec.goal,
                None => None,
            }
        } else {
            None
        }
    }

    /// Remember `goal` as the entity's target position.
    fn set_goal(&mut self, entity: usize, goal: Position)
        requires
            old(self).wf(),
        ensures
            final(self).wf(),
            final(self).grid == old(self).grid,
            final(self).rng == old(self).rng,
            crate::level::same_misc(*old(self), *final(self)),
            same_entities_except(*old(self), *final(self), entity as int),
            final(self).entities@.len() == old(self).entities@.len(),
            old(self).alive(entity as int) ==> final(self).alive(entity as int)
                && final(self).rec(entity as int).typ == old(self).rec(entity as int).typ
                && final(self).rec(entity as int).pos == old(self).rec(entity as int).pos
                && final(self).rec(entity as int).deck == old(self).rec(entity as int).deck
                && final(self).rec(entity as int).mods == old(self).rec(entity as int).mods
                && final(self).rec(entity as int).goal == Some(goal),
            !old(self).alive(entity as int) ==> final(self).entities@ == old(self).entities@,
    {
        if entity < self.entities.len() {
            let slot = self.take_rec(entity);
            match slot {
                Some(rec) => {
                    self.put_rec(
                        entity,
                        Some(
                            crate::entity::EntityRec {
                                typ: rec.typ,
                                pos: rec.pos,
                                goal: Some(goal),
                                deck: rec.deck,
                                mods: rec.mods,
                            },
                        ),
                    );
                },
                None => {
                    self.put_rec(entity, None);
                },
            }
            proof {
                assert(self.entities@ =~= old(self).entities@.update(
                    entity as int,
                    self.entities@[entity as int],
                ));
                if self.entities@[entity as int] is Some {
                    assert(deck_bounded_here(*old(self), entity as int)) by {
                        reveal(Level::cards_bounded);
                    }
                }
                crate::level::lemma_wf_slot_update(*old(self), *self, entity as int);
            }
        }
    }

    /// Turn `action` into an event for `entity`, push the separator for
    /// the player, and resolve it. Rejected actions (dangling entity,
    /// blocked move, toggle of a card not in hand) change nothing.
    #[verifier::rlimit(100)]
    #[verifier::spinoff_prover]
    pub fn do_action(&mut self, entity: usize, action: Action) -> (r: bool)
        requires
            old(self).wf(),
        ensures
            final(self).wf(),
            r == action_legal(*old(self), entity as int, action),
            !r ==> *final(self) == *old(self),
            r ==> combat_rel(*old(self), *final(self)),
            forall|i: usize|
                action == Action::Toggle(i) && old(self).card_status_of(entity as int, i as int)
                    == Some(CardStatus::Active) && r ==> toggle_rel(
                    *old(self),
                    *final(self),
                    entity as int,
                    i as int,
                    CardStatus::Inactive,
                ),
            forall|i: usize|
                action == Action::Toggle(i) && old(self).card_status_of(entity as int, i as int)
                    == Some(CardStatus::Inactive) && r ==> toggle_rel(
                    *old(self),
                    *final(self),
                    entity as int,
                    i as int,
                    CardStatus::Active,
                ),
            forall|dir: Direction|
                action == Action::Move(dir) && r && ({
                    let np = old(self).pos_of(entity as int).unwrap().spec_step(dir);
                    old(self).grid.at(np).spec_is_open() && no_active_match(
                        *old(self),
                        entity as int,
                        Event::Move { destination: np, direction: Some(dir) },
                    )
                }) ==> final(self).pos_of(entity as int) == Some(
                    old(self).pos_of(entity as int).unwrap().spec_step(dir),
                ),
            r && action == Action::Rest ==> crate::combat::rest_applied(
                *old(self),
                *final(self),
                entity as int,
            ),
            r && entity == PLAYER && !(old(self).log.messages@.len() > 0 && old(
                self,
            ).log.messages@.last()@ == "---"@) ==> final(self).log.messages@.len() > old(
                self,
            ).log.messages@.len() && final(self).log.messages@[old(
                self,
            ).log.messages@.len() as int]@ == "---"@,
            forall|dir: Direction|
                action == Action::Move(dir) && r && old(self).grid.at(
                    old(self).pos_of(entity as int).unwrap().spec_step(dir),
                ).entity is Some ==> final(self).log.messages@.len() > old(
                    self,
                ).log.messages@.len(),
            crate::combat::goals_preserved(*old(self), *final(self)),
            r && ((action matches Action::Move(_)) || action == Action::Wait)
                ==> crate::combat::pools_nonincreasing(*old(self), *final(self)),
    {
        if entity_absent(self, entity) {
            return false;
        }
        let pos = match self.get_pos(entity) {
            Some(p) => p,
            None => {
                return false;
            },
        };
        proof {
            assert(pos.in_bounds()) by {
                reveal(Level::positions_coherent);
                assert(self.entities@[entity as int] is Some);
            }
        }
        let event = match action {
            Action::Move(dir) => {
                let new_pos = pos.step(dir);
                let dst = self.get_sq(new_pos);
                match dst.entity {
                    Some(target) => Event::Attack { target, damage: 1, direction: Some(dir) },
                    None => {
                        if self.is_open(new_pos) {
                            Event::Move { destination: new_pos, direction: Some(dir) }
                        } else {
                            return false;
                        }
                    },
                }
            },
            Action::Wait => Event::Wait,
            Action::Rest => Event::Recover,
            Action::Toggle(index) => match self.get_card_status(entity, index) {
                Some(CardStatus::Active) => Event::Disable(index),
                Some(CardStatus::Inactive) => Event::Enable(index),
                _ => {
                    return false;
                },
            },
        };
        if entity == PLAYER && !self.last_log_is_separator() {
            self.push_log("---".to_owned());
        }
        let ghost mid = *self;
        let _ = self.process(entity, event, RESOLVE_FUEL);
        proof {
            assert(mid.entities@ == old(self).entities@);
            assert(mid.grid == old(self).grid);
            assert forall|i: usize|
                action == Action::Toggle(i) && old(self).card_status_of(entity as int, i as int)
                    == Some(CardStatus::Active) implies toggle_rel(
                *old(self),
                *self,
                entity as int,
                i as int,
                CardStatus::Inactive,
            ) by {
                assert(event == Event::Disable(i));
                assert(toggle_rel(mid, *self, entity as int, i as int, CardStatus::Inactive));
            }
            assert forall|i: usize|
                action == Action::Toggle(i) && old(self).card_status_of(entity as int, i as int)
                    == Some(CardStatus::Inactive) implies toggle_rel(
                *old(self),
                *self,
                entity as int,
                i as int,
                CardStatus::Active,
            ) by {
                assert(event == Event::Enable(i));
                assert(toggle_rel(mid, *self, entity as int, i as int, CardStatus::Active));
            }
            if action matches Action::Move(_) || action == Action::Wait {
                assert(crate::combat::combat_event(event));
                assert(crate::combat::pools_nonincreasing(mid, *self));
                assert forall|e2: int| #[trigger] self.alive(e2) implies self.pool(e2) <= old(
                    self,
                ).pool(e2) by {
                    assert(mid.pool(e2) == old(self).pool(e2));
                }
            }
            if action == Action::Rest {
                assert(event == Event::Recover);
                assert(crate::combat::recover_rel(mid, *self, entity as int));
                assert(crate::combat::rest_applied(*old(self), *self, entity as int)) by {
                    assert(mid.entities@ == old(self).entities@);
                    assert(mid.grid == old(self).grid);
                    if old(self).alive(entity as int) && crate::cards::hand_size(
                        old(self).deck_of(entity as int),
                    ) < old(self).deck_of(entity as int).len() {
                        assert(mid.deck_of(entity as int) == old(self).deck_of(entity as int));
                        assert(mid.alive(entity as int));
                    }
                }
            }
            assert forall|dir: Direction|
                action == Action::Move(dir) && ({
                    let np = old(self).pos_of(entity as int).unwrap().spec_step(dir);
                    old(self).grid.at(np).spec_is_open() && no_active_match(
                        *old(self),
                        entity as int,
                        Event::Move { destination: np, direction: Some(dir) },
                    )
                }) implies self.pos_of(entity as int) == Some(
                old(self).pos_of(entity as int).unwrap().spec_step(dir),
            ) by {
                let np = old(self).pos_of(entity as int).unwrap().spec_step(dir);
                assert(event == (Event::Move { destination: np, direction: Some(dir) }));
                lemma_no_active_match_transfer(*old(self), mid, entity as int, event);
                assert(crate::combat::move_applied(mid, *self, entity as int, event));
                assert(mid.alive(entity as int) && mid.grid == old(self).grid);
            }
        }
        true
    }

    /// Whether the last log line is the player-action separator.
    fn last_log_is_separator(&self) -> (r: bool)
        ensures
            r == (self.log.messages@.len() > 0 && self.log.messages@.last()@ == "---"@),
    {
        let n = self.log.messages.len();
        if n == 0 {
            return false;
        }
        let sep = "---".to_owned();
        let last = &self.log.messages[n - 1];
        last.eq(&sep)
    }

    /// One AI turn: a non-player creature that currently sees the
    /// player fixes its goal on the player's cell; one with a goal walks
    /// toward it, choosing the vertical or horizontal step with
    /// probability weighted by the remaining distance on each axis, and
    /// rests when both ways are blocked or it has arrived.
    pub fn take_turn(&mut self, entity: usize)
        requires
            old(self).wf(),
        ensures
            final(self).wf(),
            combat_rel(*old(self), *final(self)),
            (entity == PLAYER || old(self).spec_type_of(entity as int)
                == EntityType::UnknownThing || old(self).pos_of(entity as int) is None || old(
                self,
            ).pos_of(PLAYER as int) is None) ==> *final(self) == *old(self),
            ({
                &&& entity != PLAYER
                &&& old(self).spec_type_of(entity as int) != EntityType::UnknownThing
                &&& old(self).pos_of(entity as int) matches Some(p)
                &&& old(self).pos_of(PLAYER as int) is Some
                &&& old(self).grid.at(old(self).pos_of(entity as int).unwrap()).visibility
                    != Visibility::Visible
                &&& old(self).rec(entity as int).goal is None
            }) ==> *final(self) == *old(self),
            ({
                &&& entity != PLAYER
                &&& old(self).spec_type_of(entity as int) != EntityType::UnknownThing
                &&& old(self).pos_of(entity as int) is Some
                &&& old(self).pos_of(PLAYER as int) is Some
                &&& old(self).grid.at(old(self).pos_of(entity as int).unwrap()).visibility
                    == Visibility::Visible
            }) && final(self).alive(entity as int) ==> final(self).rec(entity as int).goal
                == old(self).pos_of(PLAYER as int),
    {
        if entity == PLAYER {
            return ;
        }
        let t = self.type_of(entity);
        if t == EntityType::UnknownThing {
            return ;
        }
        let pos = match self.get_pos(entity) {
            Some(p) => p,
            None => {
                return ;
            },
        };
        let player_pos = match self.get_pos(PLAYER) {
            Some(p) => p,
            None => {
                return ;
            },
        };
        proof {
            assert(pos.in_bounds()) by {
                reveal(Level::positions_coherent);
                assert(self.entities@[entity as int] is Some);
            }
        }
        let vis = self.get_sq(pos).visibility == Visibility::Visible;
        let target_pos: Position;
        if vis {
            target_pos = player_pos;
            self.set_goal(entity, player_pos);
        } else {
            match self.get_goal(entity) {
                Some(goal) => {
                    target_pos = goal;
                },
                None => {
                    return ;
                },
            }
        }
        // Distances are taken in i64 and clamped far beyond the grid
        // size, so goals on the grid always keep their exact weight.
        let hdir: Direction;
        let mut hweight: i64;
        if pos.x > target_pos.x {
            hdir = Direction::Left;
            hweight = pos.x as i64 - target_pos.x as i64;
        } else if pos.x < target_pos.x {
            hdir = Direction::Right;
            hweight = target_pos.x as i64 - pos.x as i64;
        } else {
            hdir = Direction::Left;
            hweight = 0;
        }
        if hweight > 1000 {
            hweight = 1000;
        }
        let hpos = pos.step(hdir);
        if hweight != 0 && !(hpos == target_pos) && !self.is_open(hpos) {
            hweight = 0;
        }
        let vdir: Direction;
        let mut vweight: i64;
        if pos.y > target_pos.y {
            vdir = Direction::Up;
            vweight = pos.y as i64 - target_pos.y as i64;
        } else if pos.y < target_pos.y {
            vdir = Direction::Down;
            vweight = target_pos.y as i64 - pos.y as i64;
        } else {
            vdir = Direction::Up;
            vweight = 0;
        }
        if vweight > 1000 {
            vweight = 1000;
        }
        let vpos = pos.step(vdir);
        if vweight != 0 && !(vpos == target_pos) && !self.is_open(vpos) {
            vweight = 0;
        }
        let action: Action;
        let ghost pre_roll = *self;
        if hweight + vweight > 0 {
            let roll = rng_gen_range(&mut self.rng, 0, (hweight + vweight) as usize);
            proof {
                crate::level::lemma_wf_same_world(pre_roll, *self);
            }
            if roll >= hweight as usize {
                action = Action::Move(vdir);
            } else {
                action = Action::Move(hdir);
            }
        } else {
            action = Action::Rest;
        }
        let ghost pre_do = *self;
        let _ = self.do_action(entity, action);
        proof {
            if vis && self.alive(entity as int) {
                assert(pre_do.alive(entity as int));
                assert(pre_do.rec(entity as int).goal == Some(player_pos));
                assert(self.rec(entity as int).goal == pre_do.rec(entity as int).goal);
            }
        }
    }

    /// Advance the game by one player action. Rejected when the level
    /// is already complete or the action is illegal, with no state
    /// change; otherwise the player's event resolves, sight refreshes,
    /// every other entity takes its turn, sight refreshes again over
    /// the results, and completion is logged when reached.
    pub fn step(&mut self, action: Action) -> (r: bool)
        requires
            old(self).wf(),
        ensures
            final(self).wf(),
            r == (!old(self).spec_complete() && action_legal(
                *old(self),
                PLAYER as int,
                action,
            )),
            !r ==> *final(self) == *old(self),
            r ==> log_extends(*old(self), *final(self)),
            r ==> final(self).entities@.len() == old(self).entities@.len(),
            r && !(old(self).log.messages@.len() > 0 && old(self).log.messages@.last()@
                == "---"@) ==> final(self).log.messages@.len() > old(self).log.messages@.len()
                && final(self).log.messages@[old(self).log.messages@.len() as int]@ == "---"@,
            r && final(self).pos_of(PLAYER as int) is Some ==> final(self).grid.at(
                final(self).pos_of(PLAYER as int).unwrap(),
            ).visibility == Visibility::Visible,
            r && final(self).spec_complete() ==> ({
                let lg = final(self).log.messages@;
                &&& lg.len() >= 2
                &&& lg[lg.len() - 2]@ == "Exiting level!"@
                &&& lg[lg.len() - 1]@ == "Press [Space] to continue..."@
            }),
    {
        if self.is_complete() {
            return false;
        }
        let success = self.do_action(PLAYER, action);
        if success {
            let ghost after_action = *self;
            self.update_visibility(true);
            proof {
                crate::combat::lemma_combat_rel_stable(after_action, *self);
                crate::combat::lemma_combat_rel_trans(*old(self), after_action, *self);
            }
            let n = self.entities.len();
            let mut e: usize = 0;
            while e < n
                invariant
                    self.wf(),
                    e <= n,
                    self.entities@.len() == n,
                    combat_rel(*old(self), *self),
                    log_extends(after_action, *self),
                decreases n - e,
            {
                let ghost iter_pre = *self;
                self.take_turn(e);
                proof {
                    crate::combat::lemma_combat_rel_trans(*old(self), iter_pre, *self);
                }
                e = e + 1;
            }
            let ghost after_turns = *self;
            self.update_visibility(false);
            proof {
                crate::combat::lemma_combat_rel_stable(after_turns, *self);
                crate::combat::lemma_combat_rel_trans(*old(self), after_turns, *self);
                assert(self.pos_of(PLAYER as int) == after_turns.pos_of(PLAYER as int));
            }
            let ghost after_sight = *self;
            let complete = self.is_complete();
            if complete {
                self.push_log("Exiting level!".to_owned());
                self.push_log("Press [Space] to continue...".to_owned());
            }
            proof {
                assert(log_extends(after_action, *self));
                if !(old(self).log.messages@.len() > 0 && old(self).log.messages@.last()@
                    == "---"@) {
                    let n0 = old(self).log.messages@.len() as int;
                    assert(after_action.log.messages@[n0]@ == "---"@);
                    assert(self.log.messages@[n0] == after_action.log.messages@[n0]);
                }
                assert(self.grid == after_sight.grid);
                assert(self.entities@ == after_sight.entities@);
                assert(self.spec_complete() == after_sight.spec_complete());
                if self.pos_of(PLAYER as int) is Some {
                    let pp = self.pos_of(PLAYER as int).unwrap();
                    assert(after_turns.pos_of(PLAYER as int) == Some(pp));
                    assert(after_sight.grid.at(pp).visibility == Visibility::Visible);
                }
            }
        }
        success
    }
}

/// The deck of `e` in `lvl` keeps its bounds (a reading of the opaque
/// card-bound invariant for one slot).
spec fn deck_bounded_here(lvl: Level, e: int) -> bool {
    lvl.alive(e) ==> crate::level::deck_bounded(lvl.rec(e).deck@) && lvl.rec(e).mods@.len()
        <= 10000
}

/// Law: toggling a card off and back on restores it exactly. Two
/// toggles of the same Active card — the first making it Inactive, the
/// second Active again — leave the deck, the card's owner, every other
/// entity and the whole grid exactly as they were.
pub proof fn lemma_toggle_round_trip(l0: Level, l1: Level, l2: Level, e: int, i: int)
    requires
        l0.card_status_of(e, i) == Some(CardStatus::Active),
        toggle_rel(l0, l1, e, i, CardStatus::Inactive),
        toggle_rel(l1, l2, e, i, CardStatus::Active),
    ensures
        l2.grid == l0.grid,
        l2.level == l0.level,
        l2.collected == l0.collected,
        l2.entities@.len() == l0.entities@.len(),
        forall|e2: int|
            0 <= e2 < l0.entities@.len() && e2 != e ==> l2.entities@[e2] == l0.entities@[e2],
        l2.alive(e),
        l2.deck_of(e) == l0.deck_of(e),
        l2.rec(e).typ == l0.rec(e).typ,
        l2.rec(e).pos == l0.rec(e).pos,
        l2.rec(e).goal == l0.rec(e).goal,
        l2.rec(e).mods == l0.rec(e).mods,
{
    assert(l0.alive(e) && 0 <= i < l0.deck_of(e).len());
    assert(l1.deck_of(e) == l0.deck_of(e).update(
        i,
        CardState { card: l0.deck_of(e)[i].card, status: CardStatus::Inactive },
    ));
    assert(l1.alive(e) && 0 <= i < l1.deck_of(e).len());
    assert(l1.card_status_of(e, i) == Some(CardStatus::Inactive));
    assert(l2.deck_of(e) == l1.deck_of(e).update(
        i,
        CardState { card: l1.deck_of(e)[i].card, status: CardStatus::Active },
    ));
    assert(l1.deck_of(e)[i].card == l0.deck_of(e)[i].card);
    assert(l2.deck_of(e) =~= l0.deck_of(e)) by {
        assert(l0.deck_of(e)[i] == (CardState {
            card: l0.deck_of(e)[i].card,
            status: CardStatus::Active,
        }));
    }
}

} // verus!
