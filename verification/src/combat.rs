//! The reactive combat engine. A pending event runs through the acting
//! entity's card pipeline: the deck order is shuffled and the first
//! Active card that matches the event claims it, modifying, cancelling
//! or pre-empting it; the final event is then carried out. Health is
//! nothing but the damage-absorption pool — the in-hand cards plus the
//! active modifications — and each point of damage discards one
//! uniformly chosen item of it, in place; an entity whose pool runs dry
//! dies. Resolution recurses (an attack runs the target's own pipeline
//! on the derived defence) under an explicit budget that play cannot
//! reach.

use crate::cards::{
    hand_size, lemma_hand_size_le_len, lemma_hand_size_take_all, lemma_hand_size_take_step,
    lemma_hand_size_update, Card, CardOutcome, CardState, CardStatus,
};
use crate::entity::EntityType;
use crate::grid::{Direction, Position, Tile};
use crate::level::{deck_bounded, same_entities_except, same_misc, Level};
use crate::rng::{rng_gen_range, rng_shuffle};
use crate::text::concat_all;
use vstd::prelude::*;

verus! {

/// The indices of the in-hand cards, in deck order.
fn hand_indices(deck: &Vec<CardState>) -> (r: Vec<usize>)
    ensures
        r@.len() == hand_size(deck@),
        forall|j: int|
            0 <= j < r@.len() ==> (#[trigger] r@[j]) < deck@.len()
                && deck@[r@[j] as int].status.spec_in_hand(),
{
    let mut r: Vec<usize> = Vec::new();
    let mut i: usize = 0;
    while i < deck.len()
        invariant
            i <= deck@.len(),
            r@.len() == hand_size(deck@.take(i as int)),
            forall|j: int|
                0 <= j < r@.len() ==> (#[trigger] r@[j]) < i && deck@[r@[j] as int].status.spec_in_hand(),
        decreases deck@.len() - i,
    {
        proof {
            lemma_hand_size_take_step(deck@, i as int);
        }
        if deck[i].status.in_hand() {
            r.push(i);
        }
        i = i + 1;
    }
    proof {
        lemma_hand_size_take_all(deck@);
    }
    r
}

/// The indices of the cards not in hand, in deck order.
fn discard_indices(deck: &Vec<CardState>) -> (r: Vec<usize>)
    ensures
        r@.len() == deck@.len() - hand_size(deck@),
        forall|j: int|
            0 <= j < r@.len() ==> (#[trigger] r@[j]) < deck@.len()
                && !deck@[r@[j] as int].status.spec_in_hand(),
{
    proof {
        lemma_hand_size_le_len(deck@);
    }
    let mut r: Vec<usize> = Vec::new();
    let mut i: usize = 0;
    while i < deck.len()
        invariant
            i <= deck@.len(),
            hand_size(deck@.take(i as int)) <= i,
            r@.len() == i - hand_size(deck@.take(i as int)),
            forall|j: int|
                0 <= j < r@.len() ==> (#[trigger] r@[j]) < i && !deck@[r@[j] as int].status.spec_in_hand(),
        decreases deck@.len() - i,
    {
        proof {
            lemma_hand_size_take_step(deck@, i as int);
            lemma_hand_size_le_len(deck@.take(i as int));
        }
        if !deck[i].status.in_hand() {
            r.push(i);
        }
        i = i + 1;
    }
    proof {
        lemma_hand_size_take_all(deck@);
    }
    r
}

/// The deck's cards and order are untouched; statuses have at most moved
/// from in-hand to Discarded, in place.
pub open spec fn deck_degraded(pre: Seq<CardState>, post: Seq<CardState>) -> bool {
    &&& post.len() == pre.len()
    &&& forall|i: int|
        0 <= i < pre.len() ==> (#[trigger] post[i]).card == pre[i].card && (post[i].status
            == pre[i].status || (pre[i].status.spec_in_hand() && post[i].status
            == CardStatus::Discarded))
}

/// What applying damage to `e` may touch: its own deck statuses and
/// modifications, the log and the generator. Grid, positions and every
/// other entity stay put.
pub open spec fn damage_rel(pre: Level, post: Level, e: int) -> bool {
    &&& post.grid == pre.grid
    &&& post.level == pre.level
    &&& post.collected == pre.collected
    &&& log_extends(pre, post)
    &&& same_entities_except(pre, post, e)
    &&& post.entities@.len() == pre.entities@.len()
    &&& (post.alive(e) <==> pre.alive(e))
    &&& pre.alive(e) ==> {
        &&& post.rec(e).typ == pre.rec(e).typ
        &&& post.rec(e).pos == pre.rec(e).pos
        &&& post.rec(e).goal == pre.rec(e).goal
        &&& deck_degraded(pre.rec(e).deck@, post.rec(e).deck@)
        &&& post.rec(e).mods@.len() <= pre.rec(e).mods@.len()
    }
}

impl Level {
    /// Apply `damage` points to `e`'s absorption pool, one uniformly
    /// chosen in-hand card or modification per point. Exactly
    /// `min(damage, pool)` items leave the pool; the result reports a
    /// fatal outcome exactly when `damage` exceeds the pool at entry.
    /// The caller destroys the entity on a fatal outcome.
    pub fn take_damage(&mut self, entity: usize, damage: i32) -> (fatal: bool)
        requires
            old(self).wf(),
        ensures
            final(self).wf(),
            ({
                let p0 = old(self).pool(entity as int);
                let k: int = if damage > 0 {
                    damage as int
                } else {
                    0
                };
                &&& fatal == (k > p0)
                &&& final(self).pool(entity as int) == p0 - (if k < p0 {
                    k
                } else {
                    p0
                })
            }),
            damage_rel(*old(self), *final(self), entity as int),
    {
        if entity >= self.entities.len() {
            return damage > 0;
        }
        let tname = self.display_type(entity);
        let slot = self.take_rec(entity);
        match slot {
            None => {
                self.put_rec(entity, None);
                proof {
                    assert(self.entities@ =~= old(self).entities@);
                    crate::level::lemma_wf_same_world(*old(self), *self);
                }
                damage > 0
            },
            Some(mut rec) => {
                let ghost pre_deck = rec.deck@;
                let ghost pre_mods_len = rec.mods@.len() as int;
                let ghost p0 = hand_size(pre_deck) + pre_mods_len;
                proof {
                    assert(deck_bounded(pre_deck) && pre_mods_len <= 10000) by {
                        reveal(Level::cards_bounded);
                        assert(old(self).entities@[entity as int] is Some);
                    }
                    lemma_hand_size_le_len(pre_deck);
                }
                let hand0 = hand_indices(&rec.deck);
                let pool0 = hand0.len() + rec.mods.len();
                let fatal = damage > pool0 as i32;
                let k: i32 = if damage > pool0 as i32 {
                    pool0 as i32
                } else if damage > 0 {
                    damage
                } else {
                    0
                };
                let mut n: i32 = 0;
                while n < k
                    invariant
                        0 <= n <= k,
                        k <= p0,
                        p0 == pool0,
                        pool0 <= 20000,
                        deck_bounded(pre_deck),
                        pre_mods_len <= 10000,
                        deck_degraded(pre_deck, rec.deck@),
                        rec.mods@.len() <= pre_mods_len,
                        hand_size(rec.deck@) + rec.mods@.len() == p0 - n,
                        rec.typ == old(self).rec(entity as int).typ,
                        rec.pos == old(self).rec(entity as int).pos,
                        rec.goal == old(self).rec(entity as int).goal,
                        self.entities@ == old(self).entities@.update(entity as int, None),
                        self.grid == old(self).grid,
                        self.level == old(self).level,
                        self.collected == old(self).collected,
                        log_extends(*old(self), *self),
                    decreases k - n,
                {
                    let hand = hand_indices(&rec.deck);
                    let hl = hand.len();
                    let ml = rec.mods.len();
                    proof {
                        lemma_hand_size_le_len(rec.deck@);
                    }
                    let sel = rng_gen_range(&mut self.rng, 0, hl + ml);
                    if sel < hl {
                        let idx = hand[sel];
                        let card = rec.deck[idx].card;
                        let cname = crate::combat::card_name(card);
                        let mut parts: Vec<String> = Vec::new();
                        parts.push("(".to_owned());
                        parts.push(tname.clone());
                        parts.push("'s ".to_owned());
                        parts.push(cname);
                        parts.push(" card was discarded by damage)".to_owned());
                        self.log.messages.push(concat_all(&parts));
                        proof {
                            lemma_hand_size_update(
                                rec.deck@,
                                idx as int,
                                CardState { card, status: CardStatus::Discarded },
                            );
                        }
                        rec.deck.set(idx, CardState { card, status: CardStatus::Discarded });
                    } else {
                        rec.mods.remove(sel - hl);
                    }
                    n = n + 1;
                }
                let ghost end_deck = rec.deck@;
                self.put_rec(entity, Some(rec));
                proof {
                    assert(self.entities@ =~= old(self).entities@.update(
                        entity as int,
                        self.entities@[entity as int],
                    ));
                    assert(deck_bounded(end_deck)) by {
                        assert(forall|i: int|
                            0 <= i < end_deck.len() ==> (#[trigger] end_deck[i]).card
                                == pre_deck[i].card);
                    }
                    crate::level::lemma_wf_slot_update(*old(self), *self, entity as int);
                }
                fatal
            },
        }
    }

    /// Rest: flip one uniformly chosen not-in-hand card back to Active;
    /// nothing happens when every card is in hand or the id dangles.
    pub fn recover(&mut self, entity: usize)
        requires
            old(self).wf(),
        ensures
            final(self).wf(),
            recover_rel(*old(self), *final(self), entity as int),
    {
        if entity >= self.entities.len() {
            return ;
        }
        let slot = self.take_rec(entity);
        match slot {
            None => {
                self.put_rec(entity, None);
                proof {
                    assert(self.entities@ =~= old(self).entities@);
                    crate::level::lemma_wf_same_world(*old(self), *self);
                }
            },
            Some(mut rec) => {
                let discard = discard_indices(&rec.deck);
                if discard.len() > 0 {
                    let sel = rng_gen_range(&mut self.rng, 0, discard.len());
                    let idx = discard[sel];
                    let card = rec.deck[idx].card;
                    proof {
                        lemma_hand_size_le_len(rec.deck@);
                    }
                    rec.deck.set(idx, CardState { card, status: CardStatus::Active });
                    let ghost i = idx as int;
                    self.put_rec(entity, Some(rec));
                    proof {
                        assert(self.entities@ =~= old(self).entities@.update(
                            entity as int,
                            self.entities@[entity as int],
                        ));
                        let predeck = old(self).deck_of(entity as int);
                        assert(self.deck_of(entity as int) =~= predeck.update(
                            i,
                            CardState { card: predeck[i].card, status: CardStatus::Active },
                        ));
                        assert(deck_bounded(predeck)) by {
                            reveal(Level::cards_bounded);
                        }
                        assert(deck_bounded(self.entities@[entity as int].unwrap().deck@)) by {
                            assert(forall|j: int|
                                0 <= j < self.deck_of(entity as int).len() ==> (
                                #[trigger] self.deck_of(entity as int)[j]).card
                                    == predeck[j].card);
                        }
                        assert(old(self).entities@[entity as int].unwrap().mods@.len() <= 10000)
                            by {
                            reveal(Level::cards_bounded);
                        }
                        crate::level::lemma_wf_slot_update(*old(self), *self, entity as int);
                    }
                } else {
                    proof {
                        lemma_hand_size_le_len(rec.deck@);
                    }
                    self.put_rec(entity, Some(rec));
                    proof {
                        assert(self.entities@ =~= old(self).entities@);
                        crate::level::lemma_wf_same_world(*old(self), *self);
                    }
                }
            },
        }
    }
}

/// What resting does: when the entity lives and some card is out of hand,
/// exactly one such card becomes Active in place; otherwise nothing
/// changes but the generator.
pub open spec fn recover_rel(pre: Level, post: Level, e: int) -> bool {
    &&& post.grid == pre.grid
    &&& same_misc(pre, post)
    &&& same_entities_except(pre, post, e)
    &&& post.entities@.len() == pre.entities@.len()
    &&& if pre.alive(e) && hand_size(pre.deck_of(e)) < pre.deck_of(e).len() {
        exists|i: int|
            0 <= i < pre.deck_of(e).len() && !(#[trigger] pre.deck_of(e)[i]).status.spec_in_hand()
                && post.alive(e) && post.deck_of(e) == pre.deck_of(e).update(
                i,
                CardState { card: pre.deck_of(e)[i].card, status: CardStatus::Active },
            ) && post.rec(e).typ == pre.rec(e).typ && post.rec(e).pos == pre.rec(e).pos
                && post.rec(e).goal == pre.rec(e).goal && post.rec(e).mods == pre.rec(e).mods
    } else {
        post.entities@ == pre.entities@
    }
}

/// The display name of a card, as the log prints it.
pub fn card_name(c: Card) -> String {
    match c {
        Card::Attack(n) => join_num("Attack(", n),
        Card::Defend(n) => join_num("Defend(", n),
        Card::Kill(n) => join_num("Kill(", n),
        Card::Strike => "Strike".to_owned(),
        Card::Dodge => "Dodge".to_owned(),
        Card::Block => "Block".to_owned(),
        Card::Push => "Push".to_owned(),
    }
}

/// `prefix`, then the number, then a closing parenthesis.
fn join_num(prefix: &str, n: i32) -> String {
    let mut parts: Vec<String> = Vec::new();
    parts.push(prefix.to_owned());
    parts.push(n.to_string());
    parts.push(")".to_owned());
    concat_all(&parts)
}

/// The display name of an entity type, as the log prints it.
pub fn entity_type_name(t: EntityType) -> (r: String)
    ensures
        t == EntityType::UnknownThing ==> r@ == "UnknownThing"@,
        t == EntityType::Player ==> r@ == "Player"@,
        t == EntityType::Defender ==> r@ == "Defender"@,
        t == EntityType::Hunter ==> r@ == "Hunter"@,
        t == EntityType::Reaper ==> r@ == "Reaper"@,
{
    match t {
        EntityType::UnknownThing => "UnknownThing".to_owned(),
        EntityType::Player => "Player".to_owned(),
        EntityType::Defender => "Defender".to_owned(),
        EntityType::Hunter => "Hunter".to_owned(),
        EntityType::Reaper => "Reaper".to_owned(),
    }
}

impl Level {
    /// The display name of an entity's type.
    pub fn display_type(&self, entity: usize) -> String {
        entity_type_name(self.type_of(entity))
    }
}

/// An in-flight game effect, alive only while one action resolves.
#[derive(Copy, Clone, Debug)]
pub enum Event {
    Move { destination: Position, direction: Option<Direction> },
    Recover,
    Wait,
    Disable(usize),
    Enable(usize),
    Attack { target: usize, damage: i32, direction: Option<Direction> },
    Defend { source: usize, damage: i32, direction: Option<Direction> },
    Cancelled,
}

/// The resolution budget handed to a whole turn. Chains of reactions
/// never approach it in play: it exceeds every deck and the grid put
/// together many times over.
pub const RESOLVE_FUEL: u32 = 4096;

/// Damage stays non-negative, and small enough that every card still to
/// come within the budget keeps it within `i32`.
pub open spec fn damage_ok(d: int, fuel: int) -> bool {
    0 <= d && d + 100 * fuel <= 1000000
}

/// What resolution demands of an event at a given remaining budget.
pub open spec fn event_ok(ev: Event, fuel: int) -> bool {
    match ev {
        Event::Move { destination, .. } => destination.in_bounds(),
        Event::Attack { damage, .. } => damage_ok(damage as int, fuel),
        Event::Defend { damage, .. } => damage_ok(damage as int, fuel),
        _ => true,
    }
}

/// Whether a card claims an event in the given world: the exact firing
/// condition of each card of the vocabulary.
pub open spec fn card_matches(lvl: Level, e: int, card: Card, ev: Event) -> bool {
    match (card, ev) {
        (Card::Attack(_), Event::Attack { .. }) => true,
        (Card::Defend(n), Event::Defend { damage, .. }) => damage >= n,
        (Card::Kill(n), Event::Attack { target, damage, .. }) => damage + n > lvl.pool(
            target as int,
        ),
        (Card::Strike, Event::Move { destination, direction }) => direction is Some
            && lvl.grid.at(destination.spec_step(direction.unwrap())).entity is Some,
        (Card::Dodge, Event::Defend { direction, .. }) => direction is Some && lvl.pos_of(e)
            is Some && lvl.grid.at(lvl.pos_of(e).unwrap().spec_step(direction.unwrap())).tile
            != Tile::Wall,
        (Card::Block, Event::Defend { .. }) => true,
        (Card::Push, Event::Attack { target, direction, .. }) => direction is Some && lvl.pos_of(
            target as int,
        ) is Some && lvl.grid.at(
            lvl.pos_of(target as int).unwrap().spec_step(direction.unwrap()),
        ).tile != Tile::Wall,
        _ => false,
    }
}

/// No Active card of `e`'s deck claims the event in this world.
pub open spec fn no_active_match(lvl: Level, e: int, ev: Event) -> bool {
    forall|i: int|
        0 <= i < lvl.deck_of(e).len() && (#[trigger] lvl.deck_of(e)[i]).status
            == CardStatus::Active ==> !card_matches(lvl, e, lvl.deck_of(e)[i].card, ev)
}


/// A Move event, carried out with budget left, lands: when the actor
/// lives and the destination is open, the actor ends on it. Other
/// events claim nothing here.
pub open spec fn move_applied(pre: Level, post: Level, e: int, ev: Event) -> bool {
    match ev {
        Event::Move { destination, .. } => pre.alive(e) && pre.grid.at(destination).spec_is_open()
            ==> post.alive(e) && post.pos_of(e) == Some(destination),
        _ => true,
    }
}

/// `card_matches` reads only the entities and the grid.
proof fn lemma_card_matches_transfer(a: Level, b: Level, e: int, card: Card, ev: Event)
    requires
        a.entities@ == b.entities@,
        a.grid == b.grid,
    ensures
        card_matches(a, e, card, ev) == card_matches(b, e, card, ev),
{
    match ev {
        Event::Attack { target, .. } => {
            assert(a.deck_of(target as int) == b.deck_of(target as int));
            assert(a.mods_len(target as int) == b.mods_len(target as int));
            assert(a.pool(target as int) == b.pool(target as int));
            assert(a.pos_of(target as int) == b.pos_of(target as int));
        },
        Event::Defend { .. } => {
            assert(a.pos_of(e) == b.pos_of(e));
        },
        _ => {},
    }
}

/// `no_active_match` reads only the entities and the grid.
pub proof fn lemma_no_active_match_transfer(a: Level, b: Level, e: int, ev: Event)
    requires
        a.entities@ == b.entities@,
        a.grid == b.grid,
        no_active_match(a, e, ev),
    ensures
        no_active_match(b, e, ev),
{
    assert forall|i: int|
        0 <= i < b.deck_of(e).len() && (#[trigger] b.deck_of(e)[i]).status
            == CardStatus::Active implies !card_matches(b, e, b.deck_of(e)[i].card, ev) by {
        assert(b.deck_of(e) == a.deck_of(e));
        assert(a.deck_of(e)[i].status == CardStatus::Active);
        assert(!card_matches(a, e, a.deck_of(e)[i].card, ev));
        lemma_card_matches_transfer(a, b, e, a.deck_of(e)[i].card, ev);
    }
}


/// A Defend event, carried out with budget left, lands as damage: the
/// victim survives exactly when the damage does not exceed its pool,
/// and the pool shrinks by exactly the damage absorbed (to nothing when
/// the victim dies). Other events claim nothing here.
pub open spec fn defend_applied(pre: Level, post: Level, e: int, ev: Event) -> bool {
    match ev {
        Event::Defend { damage, .. } => {
            let k: int = if damage > 0 {
                damage as int
            } else {
                0
            };
            &&& (post.alive(e) <==> (pre.alive(e) && k <= pre.pool(e)))
            &&& post.pool(e) == if k <= pre.pool(e) {
                pre.pool(e) - k
            } else {
                0
            }
        },
        _ => true,
    }
}


/// The outcome a matching card decides, a pure function of card, event
/// and the world at trigger time: the attack and push cards finish the
/// event, the defend card absorbs and discards itself, kill and strike
/// pre-empt and cancel, block absorbs and discards, and dodge discards
/// while either counter-attacking (occupied dodge cell) or relocating
/// and cancelling (open dodge cell).
pub open spec fn triggered_outcome(lvl: Level, e: int, card: Card, ev: Event) -> CardOutcome {
    match (card, ev) {
        (Card::Attack(_), Event::Attack { .. }) => CardOutcome::Done,
        (Card::Defend(_), Event::Defend { .. }) => CardOutcome::Discard,
        (Card::Kill(_), Event::Attack { .. }) => CardOutcome::Cancel,
        (Card::Strike, Event::Move { .. }) => CardOutcome::Cancel,
        (Card::Dodge, Event::Defend { direction, .. }) => if lvl.grid.at(
            lvl.pos_of(e).unwrap().spec_step(direction.unwrap()),
        ).entity is Some {
            CardOutcome::Discard
        } else {
            CardOutcome::DiscardAndCancel
        },
        (Card::Block, Event::Defend { .. }) => CardOutcome::DiscardAndCancel,
        (Card::Push, Event::Attack { .. }) => CardOutcome::Done,
        _ => CardOutcome::Continue,
    }
}

/// How a claiming card reshapes the pending event in place: the attack
/// card raises its damage by the card's amount, the defend card absorbs
/// its amount; every other card leaves the event itself alone
/// (cancellation is applied by the claim handling, not here).
pub open spec fn triggered_event(card: Card, ev: Event) -> Event {
    match (card, ev) {
        (Card::Attack(n), Event::Attack { target, damage, direction }) => (Event::Attack {
            target,
            damage: (damage + n) as i32,
            direction,
        }),
        (Card::Defend(n), Event::Defend { source, damage, direction }) => (Event::Defend {
            source,
            damage: (damage - n) as i32,
            direction,
        }),
        _ => ev,
    }
}

/// The event a claim leaves pending: cancelled under a cancelling
/// outcome, the reshaped event otherwise.
pub open spec fn claimed_event(lvl: Level, e: int, card: Card, ev: Event) -> Event {
    if triggered_outcome(lvl, e, card, ev) == CardOutcome::Cancel || triggered_outcome(
        lvl,
        e,
        card,
        ev,
    ) == CardOutcome::DiscardAndCancel {
        Event::Cancelled
    } else {
        triggered_event(card, ev)
    }
}

/// Everything but the random generator is unchanged.
pub open spec fn same_but_rng(pre: Level, post: Level) -> bool {
    &&& post.grid == pre.grid
    &&& post.entities@ == pre.entities@
    &&& post.log == pre.log
    &&& post.level == pre.level
    &&& post.collected == pre.collected
}

/// No surviving entity's remembered goal moved.
pub open spec fn goals_preserved(pre: Level, post: Level) -> bool {
    forall|e: int|
        #[trigger] post.alive(e) && pre.alive(e) ==> post.rec(e).goal == pre.rec(e).goal
}

/// No surviving entity's damage-absorption pool grew.
pub open spec fn pools_nonincreasing(pre: Level, post: Level) -> bool {
    forall|e: int| #[trigger] post.alive(e) ==> post.pool(e) <= pre.pool(e)
}

/// The event shapes that combat resolution itself produces: these never
/// return a card to anyone's hand.
pub open spec fn combat_event(ev: Event) -> bool {
    ev is Move || ev is Attack || ev is Defend || ev is Wait || ev is Cancelled
}

/// `triggered_outcome` and `claimed_event` read only the entities and
/// the grid.
proof fn lemma_triggered_transfer(a: Level, b: Level, e: int, card: Card, ev: Event)
    requires
        a.entities@ == b.entities@,
        a.grid == b.grid,
    ensures
        triggered_outcome(a, e, card, ev) == triggered_outcome(b, e, card, ev),
        claimed_event(a, e, card, ev) == claimed_event(b, e, card, ev),
{
    match ev {
        Event::Defend { .. } => {
            assert(a.pos_of(e) == b.pos_of(e));
        },
        _ => {},
    }
}

/// What any amount of resolution preserves: the log only grows, the
/// level number and rewards stand, no entity slot is ever added or
/// removed (destroyed slots stay empty), no destroyed entity returns,
/// and a surviving entity's deck keeps its length (discards are marked
/// in place, never compacted).
pub open spec fn combat_rel(pre: Level, post: Level) -> bool {
    &&& log_extends(pre, post)
    &&& post.level == pre.level
    &&& post.collected == pre.collected
    &&& post.entities@.len() == pre.entities@.len()
    &&& forall|e: int|
        #[trigger] post.alive(e) ==> pre.alive(e) && post.deck_of(e).len() == pre.deck_of(
            e,
        ).len()
}


/// `combat_rel` is transitive.
pub proof fn lemma_combat_rel_trans(a: Level, b: Level, c: Level)
    requires
        combat_rel(a, b),
        combat_rel(b, c),
    ensures
        combat_rel(a, c),
{
    assert forall|i: int|
        0 <= i < a.log.messages@.len() implies #[trigger] c.log.messages@[i]
        == a.log.messages@[i] by {
        assert(b.log.messages@[i] == a.log.messages@[i]);
    }
    assert forall|e: int| #[trigger] c.alive(e) implies a.alive(e) && c.deck_of(e).len()
        == a.deck_of(e).len() by {
        assert(b.alive(e));
    }
}

/// A step that moves neither the entities nor the log preserves
/// `combat_rel` trivially.
pub proof fn lemma_combat_rel_stable(b: Level, c: Level)
    requires
        c.entities@ == b.entities@,
        c.log.messages@ == b.log.messages@,
        c.level == b.level,
        c.collected == b.collected,
    ensures
        combat_rel(b, c),
{
    assert forall|e: int| #[trigger] c.alive(e) implies b.alive(e) && c.deck_of(e).len()
        == b.deck_of(e).len() by {
        assert(c.entities@[e] == b.entities@[e]);
    }
}


/// What resting through the pipeline does to the world, log aside: when
/// the entity lives and some card is out of hand, exactly one such card
/// becomes Active in place; otherwise no entity moves.
pub open spec fn rest_applied(pre: Level, post: Level, e: int) -> bool {
    &&& post.grid == pre.grid
    &&& post.level == pre.level
    &&& post.collected == pre.collected
    &&& same_entities_except(pre, post, e)
    &&& post.entities@.len() == pre.entities@.len()
    &&& if pre.alive(e) && hand_size(pre.deck_of(e)) < pre.deck_of(e).len() {
        exists|i: int|
            0 <= i < pre.deck_of(e).len() && !(#[trigger] pre.deck_of(e)[i]).status.spec_in_hand()
                && post.alive(e) && post.deck_of(e) == pre.deck_of(e).update(
                i,
                CardState { card: pre.deck_of(e)[i].card, status: CardStatus::Active },
            ) && post.rec(e).typ == pre.rec(e).typ && post.rec(e).pos == pre.rec(e).pos
                && post.rec(e).goal == pre.rec(e).goal && post.rec(e).mods == pre.rec(e).mods
    } else {
        post.entities@ == pre.entities@
    }
}

/// The old log is a pointwise prefix of the new one.
pub open spec fn log_extends(pre: Level, post: Level) -> bool {
    &&& post.log.messages@.len() >= pre.log.messages@.len()
    &&& forall|i: int|
        0 <= i < pre.log.messages@.len() ==> #[trigger] post.log.messages@[i]
            == pre.log.messages@[i]
}

/// Exactly what a toggle does, up to the generator and the log: the one
/// status becomes `s`, and nothing else of the world moves.
pub open spec fn toggle_rel(pre: Level, post: Level, e: int, i: int, s: CardStatus) -> bool {
    &&& post.grid == pre.grid
    &&& post.level == pre.level
    &&& post.collected == pre.collected
    &&& same_entities_except(pre, post, e)
    &&& post.entities@.len() == pre.entities@.len()
    &&& if pre.alive(e) && 0 <= i < pre.deck_of(e).len() {
        &&& post.alive(e)
        &&& post.rec(e).typ == pre.rec(e).typ
        &&& post.rec(e).pos == pre.rec(e).pos
        &&& post.rec(e).goal == pre.rec(e).goal
        &&& post.rec(e).mods == pre.rec(e).mods
        &&& post.deck_of(e) == pre.deck_of(e).update(
            i,
            CardState { card: pre.deck_of(e)[i].card, status: s },
        )
    } else {
        post.entities@ == pre.entities@
    }
}

impl Level {
    /// The size of an entity's damage-absorption pool right now.
    pub fn pool_of(&self, entity: usize) -> (r: usize)
        requires
            self.wf(),
        ensures
            r == self.pool(entity as int),
            r <= 20000,
    {
        if entity < self.entities.len() {
            match &self.entities[entity] {
                Some(rec) => {
                    let hand = hand_indices(&rec.deck);
                    proof {
                        lemma_hand_size_le_len(rec.deck@);
                        assert(deck_bounded(rec.deck@) && rec.mods@.len() <= 10000) by {
                            reveal(Level::cards_bounded);
                        }
                    }
                    hand.len() + rec.mods.len()
                },
                None => 0,
            }
        } else {
            0
        }
    }

    /// Log that `entity`'s card fired.
    fn log_card_activated(&mut self, entity: usize, card: Card, discarded: bool)
        requires
            old(self).wf(),
        ensures
            final(self).wf(),
            final(self).grid == old(self).grid,
            final(self).entities == old(self).entities,
            final(self).rng == old(self).rng,
            final(self).level == old(self).level,
            final(self).collected == old(self).collected,
            log_extends(*old(self), *final(self)),
            final(self).log.messages@.len() == old(self).log.messages@.len() + 1,
    {
        let tname = self.display_type(entity);
        let cname = card_name(card);
        let mut parts: Vec<String> = Vec::new();
        parts.push("(".to_owned());
        parts.push(tname);
        parts.push("'s ".to_owned());
        parts.push(cname);
        if discarded {
            parts.push(" card activated and was discarded)".to_owned());
        } else {
            parts.push(" card activated)".to_owned());
        }
        let msg = concat_all(&parts);
        self.push_log(msg);
    }

    /// Trigger one card against the pending event: decide whether it
    /// applies and let it modify, cancel or pre-empt the event. A card
    /// that does not match leaves world and event exactly as they were.
    fn activate_card(&mut self, entity: usize, card: Card, ev: &mut Event, fuel: u32) -> (outcome:
        CardOutcome)
        requires
            old(self).wf(),
            event_ok(*old(ev), fuel as int),
            1 <= fuel <= 4096,
            card.param_bounded(),
        ensures
            final(self).wf(),
            combat_rel(*old(self), *final(self)),
            outcome == CardOutcome::Continue ==> *final(self) == *old(self) && *final(ev) == *old(
                ev,
            ),
            !card_matches(*old(self), entity as int, card, *old(ev)) ==> outcome
                == CardOutcome::Continue,
            card_matches(*old(self), entity as int, card, *old(ev)) ==> outcome
                == triggered_outcome(*old(self), entity as int, card, *old(ev)) && *final(ev)
                == triggered_event(card, *old(ev)),
            outcome != CardOutcome::Continue ==> final(self).log.messages@.len() > old(
                self,
            ).log.messages@.len(),
            goals_preserved(*old(self), *final(self)),
            pools_nonincreasing(*old(self), *final(self)),
            event_ok(*final(ev), fuel as int - 1),
        decreases fuel, 1int,
    {
        let e0 = *ev;
        match (card, e0) {
            (Card::Attack(atk), Event::Attack { target, damage, direction }) => {
                self.log_card_activated(entity, card, false);
                *ev = Event::Attack { target, damage: damage + atk, direction };
                CardOutcome::Done
            },
            (Card::Defend(def), Event::Defend { source, damage, direction }) => {
                if damage >= def {
                    self.log_card_activated(entity, card, true);
                    *ev = Event::Defend { source, damage: damage - def, direction };
                    CardOutcome::Discard
                } else {
                    CardOutcome::Continue
                }
            },
            (Card::Kill(atk), Event::Attack { target, damage, direction }) => {
                let health = self.pool_of(target);
                if damage + atk > health as i32 {
                    self.log_card_activated(entity, card, false);
                    self.execute(
                        target,
                        Event::Defend { source: entity, damage: damage + atk, direction },
                        fuel - 1,
                    );
                    CardOutcome::Cancel
                } else {
                    CardOutcome::Continue
                }
            },
            (Card::Strike, Event::Move { destination, direction: Some(dir) }) => {
                let target_pos = destination.step(dir);
                match self.get_sq(target_pos).entity {
                    Some(target) => {
                        self.log_card_activated(entity, card, false);
                        self.execute(
                            entity,
                            Event::Move { destination, direction: Some(dir) },
                            fuel - 1,
                        );
                        self.execute(
                            entity,
                            Event::Attack { target, damage: 1, direction: Some(dir) },
                            fuel - 1,
                        );
                        CardOutcome::Cancel
                    },
                    None => CardOutcome::Continue,
                }
            },
            (Card::Dodge, Event::Defend { direction: Some(dir), .. }) => {
                match self.get_pos(entity) {
                    None => CardOutcome::Continue,
                    Some(pos) => {
                        proof {
                            assert(pos.in_bounds()) by {
                                reveal(Level::positions_coherent);
                                assert(self.entities@[entity as int] is Some);
                            }
                        }
                        let new_pos = pos.step(dir);
                        let dst = self.get_sq(new_pos);
                        if dst.tile == Tile::Wall {
                            CardOutcome::Continue
                        } else {
                            self.log_card_activated(entity, card, false);
                            match dst.entity {
                                Some(target) => {
                                    self.execute(
                                        entity,
                                        Event::Attack { target, damage: 1, direction: Some(dir) },
                                        fuel - 1,
                                    );
                                    CardOutcome::Discard
                                },
                                None => {
                                    self.execute(
                                        entity,
                                        Event::Move {
                                            destination: new_pos,
                                            direction: Some(dir),
                                        },
                                        fuel - 1,
                                    );
                                    CardOutcome::DiscardAndCancel
                                },
                            }
                        }
                    },
                }
            },
            (Card::Block, Event::Defend { .. }) => {
                self.log_card_activated(entity, card, true);
                CardOutcome::DiscardAndCancel
            },
            (Card::Push, Event::Attack { target, direction: Some(dir), .. }) => {
                match self.get_pos(target) {
                    None => CardOutcome::Continue,
                    Some(target_pos) => {
                        proof {
                            assert(target_pos.in_bounds()) by {
                                reveal(Level::positions_coherent);
                                assert(self.entities@[target as int] is Some);
                            }
                        }
                        let new_pos = target_pos.step(dir);
                        let dst = self.get_sq(new_pos);
                        if dst.tile == Tile::Wall {
                            CardOutcome::Continue
                        } else {
                            self.log_card_activated(entity, card, false);
                            match dst.entity {
                                Some(secondary) => {
                                    self.execute(
                                        target,
                                        Event::Attack {
                                            target: secondary,
                                            damage: 1,
                                            direction: Some(dir),
                                        },
                                        fuel - 1,
                                    );
                                },
                                None => {
                                    self.execute(
                                        target,
                                        Event::Move {
                                            destination: new_pos,
                                            direction: Some(dir),
                                        },
                                        fuel - 1,
                                    );
                                    self.execute(
                                        entity,
                                        Event::Move {
                                            destination: target_pos,
                                            direction: Some(dir),
                                        },
                                        fuel - 1,
                                    );
                                },
                            }
                            CardOutcome::Done
                        }
                    },
                }
            },
            _ => CardOutcome::Continue,
        }
    }

    /// Try card `index` against the event: it claims the event only when
    /// it is Active and matches; a Discard outcome marks it Discarded in
    /// place. A card that does not claim leaves everything untouched.
    fn try_trigger(&mut self, entity: usize, index: usize, ev: &mut Event, fuel: u32) -> (claimed:
        bool)
        requires
            old(self).wf(),
            event_ok(*old(ev), fuel as int),
            1 <= fuel <= 4096,
        ensures
            final(self).wf(),
            combat_rel(*old(self), *final(self)),
            !claimed ==> *final(self) == *old(self) && *final(ev) == *old(ev),
            claimed ==> old(self).card_status_of(entity as int, index as int) == Some(
                CardStatus::Active,
            ) && card_matches(
                *old(self),
                entity as int,
                old(self).deck_of(entity as int)[index as int].card,
                *old(ev),
            ),
            old(self).card_status_of(entity as int, index as int) == Some(CardStatus::Active)
                && card_matches(
                *old(self),
                entity as int,
                old(self).deck_of(entity as int)[index as int].card,
                *old(ev),
            ) ==> claimed,
            claimed ==> *final(ev) == claimed_event(
                *old(self),
                entity as int,
                old(self).deck_of(entity as int)[index as int].card,
                *old(ev),
            ),
            claimed && (triggered_outcome(
                *old(self),
                entity as int,
                old(self).deck_of(entity as int)[index as int].card,
                *old(ev),
            ) == CardOutcome::Discard || triggered_outcome(
                *old(self),
                entity as int,
                old(self).deck_of(entity as int)[index as int].card,
                *old(ev),
            ) == CardOutcome::DiscardAndCancel) && final(self).alive(entity as int)
                ==> final(self).card_status_of(entity as int, index as int) == Some(
                CardStatus::Discarded,
            ),
            claimed ==> final(self).log.messages@.len() > old(self).log.messages@.len(),
            goals_preserved(*old(self), *final(self)),
            pools_nonincreasing(*old(self), *final(self)),
            event_ok(*final(ev), fuel as int - 1),
        decreases fuel, 2int,
    {
        let status = self.get_card_status(entity, index);
        match status {
            Some(CardStatus::Active) => {},
            _ => {
                return false;
            },
        }
        let c = self.deck_card(entity, index);
        proof {
            assert(c.card.param_bounded()) by {
                reveal(Level::cards_bounded);
                assert(self.entities@[entity as int] is Some);
            }
        }
        let outcome = self.activate_card(entity, c.card, ev, fuel);
        let ghost mid = *self;
        let claimed: bool;
        match outcome {
            CardOutcome::Continue => {
                claimed = false;
            },
            CardOutcome::Done => {
                claimed = true;
            },
            CardOutcome::Discard => {
                self.set_card_status(entity, index, CardStatus::Discarded);
                claimed = true;
            },
            CardOutcome::Cancel => {
                *ev = Event::Cancelled;
                claimed = true;
            },
            CardOutcome::DiscardAndCancel => {
                self.set_card_status(entity, index, CardStatus::Discarded);
                *ev = Event::Cancelled;
                claimed = true;
            },
        }
        proof {
            if outcome != CardOutcome::Continue {
                let ghost e = entity as int;
                let ghost i = index as int;
                assert(card_matches(*old(self), e, c.card, *old(ev)));
                assert(outcome == triggered_outcome(*old(self), e, c.card, *old(ev)));
                if outcome == CardOutcome::Discard || outcome == CardOutcome::DiscardAndCancel {
                    let predeck = mid.deck_of(e);
                    if mid.alive(e) && i < predeck.len() {
                        lemma_hand_size_update(
                            predeck,
                            i,
                            CardState { card: predeck[i].card, status: CardStatus::Discarded },
                        );
                    }
                    assert(goals_preserved(mid, *self));
                    assert forall|e2: int| #[trigger] self.alive(e2) implies self.pool(e2)
                        <= mid.pool(e2) by {
                        if e2 != e {
                            assert(self.entities@[e2] == mid.entities@[e2]);
                        }
                    }
                    assert forall|e2: int| #[trigger] self.alive(e2) implies mid.alive(e2)
                        && self.deck_of(e2).len() == mid.deck_of(e2).len() by {
                        if e2 != e {
                            assert(self.entities@[e2] == mid.entities@[e2]);
                        }
                    }
                    if self.alive(e) {
                        assert(mid.alive(e));
                        assert(mid.deck_of(e).len() == old(self).deck_of(e).len());
                        assert(i < mid.deck_of(e).len());
                        assert(self.card_status_of(e, i) == Some(CardStatus::Discarded));
                    }
                }
                assert forall|e2: int| #[trigger] self.alive(e2) implies old(self).alive(e2)
                    && self.deck_of(e2).len() == old(self).deck_of(e2).len() by {
                    assert(mid.alive(e2));
                }
                assert forall|e2: int| #[trigger] self.alive(e2) implies self.pool(e2) <= old(
                    self,
                ).pool(e2) by {
                    assert(mid.alive(e2));
                    assert(self.pool(e2) <= mid.pool(e2));
                    assert(mid.pool(e2) <= old(self).pool(e2));
                }
                assert forall|e2: int| #[trigger] self.alive(e2) && old(self).alive(e2) implies
                    self.rec(e2).goal == old(self).rec(e2).goal by {
                    assert(mid.alive(e2));
                }
            }
        }
        claimed
    }

    /// Walk the shuffled order and let the first Active, matching card
    /// claim the event: at most one card claims it, and when no Active
    /// card matches, none does and world and event are untouched.
    pub fn resolve_cards(
        &mut self,
        entity: usize,
        ev: &mut Event,
        order: &Vec<usize>,
        fuel: u32,
    ) -> (claimed: Option<usize>)
        requires
            old(self).wf(),
            event_ok(*old(ev), fuel as int),
            1 <= fuel <= 4096,
        ensures
            final(self).wf(),
            combat_rel(*old(self), *final(self)),
            claimed is None ==> *final(self) == *old(self) && *final(ev) == *old(ev),
            no_active_match(*old(self), entity as int, *old(ev)) ==> claimed is None,
            claimed is None ==> forall|j: int|
                0 <= j < order@.len() ==> !(old(self).card_status_of(
                    entity as int,
                    #[trigger] order@[j] as int,
                ) == Some(CardStatus::Active) && card_matches(
                    *old(self),
                    entity as int,
                    old(self).deck_of(entity as int)[order@[j] as int].card,
                    *old(ev),
                )),
            forall|idx: usize|
                claimed == Some(idx) ==> old(self).card_status_of(entity as int, idx as int)
                    == Some(CardStatus::Active) && card_matches(
                    *old(self),
                    entity as int,
                    old(self).deck_of(entity as int)[idx as int].card,
                    *old(ev),
                ) && *final(ev) == claimed_event(
                    *old(self),
                    entity as int,
                    old(self).deck_of(entity as int)[idx as int].card,
                    *old(ev),
                ) && final(self).log.messages@.len() > old(self).log.messages@.len(),
            goals_preserved(*old(self), *final(self)),
            pools_nonincreasing(*old(self), *final(self)),
            event_ok(*final(ev), fuel as int - 1),
        decreases fuel, 3int,
    {
        let mut i: usize = 0;
        while i < order.len()
            invariant
                self.wf(),
                i <= order@.len(),
                *self == *old(self),
                *ev == *old(ev),
                event_ok(*ev, fuel as int),
                1 <= fuel <= 4096,
                forall|j: int|
                    0 <= j < i as int ==> !(self.card_status_of(
                        entity as int,
                        #[trigger] order@[j] as int,
                    ) == Some(CardStatus::Active) && card_matches(
                        *self,
                        entity as int,
                        self.deck_of(entity as int)[order@[j] as int].card,
                        *ev,
                    )),
            decreases order@.len() - i,
        {
            let idx = order[i];
            let hit = self.try_trigger(entity, idx, ev, fuel);
            if hit {
                proof {
                    if no_active_match(*old(self), entity as int, *old(ev)) {
                        assert(old(self).deck_of(entity as int)[idx as int].status
                            == CardStatus::Active);
                        assert(false);
                    }
                }
                return Some(idx);
            }
            i = i + 1;
        }
        None
    }

    /// Resolve one pending event for `entity`: shuffle the deck index
    /// range, let at most one Active card claim and reshape the event,
    /// then carry the final event out. Returns the event that was
    /// executed; an event that no Active card matches executes
    /// unmodified.
    pub fn process(&mut self, entity: usize, event: Event, fuel: u32) -> (r: Event)
        requires
            old(self).wf(),
            event_ok(event, fuel as int),
            fuel <= 4096,
        ensures
            final(self).wf(),
            combat_rel(*old(self), *final(self)),
            fuel == 0 ==> r == event && *final(self) == *old(self),
            fuel >= 1 && no_active_match(*old(self), entity as int, event) ==> r == event
                && move_applied(*old(self), *final(self), entity as int, event),
            fuel >= 1 && !no_active_match(*old(self), entity as int, event) ==> exists|i: int|
                0 <= i < old(self).deck_of(entity as int).len() && (#[trigger] old(self).deck_of(
                    entity as int,
                )[i]).status == CardStatus::Active && card_matches(
                    *old(self),
                    entity as int,
                    old(self).deck_of(entity as int)[i].card,
                    event,
                ) && r == claimed_event(
                    *old(self),
                    entity as int,
                    old(self).deck_of(entity as int)[i].card,
                    event,
                ),
            fuel >= 1 && (event == Event::Wait || event == Event::Cancelled) ==> same_but_rng(
                *old(self),
                *final(self),
            ),
            fuel >= 1 && event == Event::Recover ==> recover_rel(
                *old(self),
                *final(self),
                entity as int,
            ),
            fuel >= 1 && (event matches Event::Attack { .. })
                ==> final(self).log.messages@.len() > old(self).log.messages@.len(),
            goals_preserved(*old(self), *final(self)),
            combat_event(event) ==> pools_nonincreasing(*old(self), *final(self)),
            forall|i: usize|
                event == Event::Disable(i) && fuel >= 1 ==> toggle_rel(
                    *old(self),
                    *final(self),
                    entity as int,
                    i as int,
                    CardStatus::Inactive,
                ),
            forall|i: usize|
                event == Event::Enable(i) && fuel >= 1 ==> toggle_rel(
                    *old(self),
                    *final(self),
                    entity as int,
                    i as int,
                    CardStatus::Active,
                ),
        decreases fuel, 4int,
    {
        if fuel == 0 {
            return event;
        }
        let n = self.deck_len(entity);
        let mut order: Vec<usize> = Vec::new();
        let mut j: usize = 0;
        while j < n
            invariant
                j <= n,
                order@.len() == j,
                forall|k: int| 0 <= k < j as int ==> #[trigger] order@[k] == k as usize,
            decreases n - j,
        {
            order.push(j);
            j = j + 1;
        }
        let ghost order0 = order@;
        let ghost pre_shuffle = *self;
        rng_shuffle(&mut self.rng, &mut order);
        proof {
            crate::level::lemma_wf_same_world(pre_shuffle, *self);
        }
        let ghost mid = *self;
        let mut ev = event;
        let claimed = self.resolve_cards(entity, &mut ev, &order, fuel);
        proof {
            if event matches Event::Disable(_) {
                assert(no_active_match(mid, entity as int, event));
            }
            if event matches Event::Enable(_) {
                assert(no_active_match(mid, entity as int, event));
            }
        }
        proof {
            if no_active_match(*old(self), entity as int, event) {
                lemma_no_active_match_transfer(*old(self), mid, entity as int, event);
            }
            if !no_active_match(*old(self), entity as int, event) && claimed is None {
                let w = choose|w: int|
                    0 <= w < old(self).deck_of(entity as int).len() && (#[trigger] old(
                        self,
                    ).deck_of(entity as int)[w]).status == CardStatus::Active && card_matches(
                        *old(self),
                        entity as int,
                        old(self).deck_of(entity as int)[w].card,
                        event,
                    );
                assert(0 <= w < n as int);
                assert(order0[w] == w as usize);
                assert(order0.contains(w as usize));
                broadcast use vstd::seq_lib::group_to_multiset_ensures;

                assert(order0.to_multiset().count(w as usize) > 0);
                assert(order@.to_multiset() == order0.to_multiset());
                assert(order@.contains(w as usize));
                let jw = choose|jw: int| 0 <= jw < order@.len() && order@[jw] == w as usize;
                assert(mid.deck_of(entity as int) == old(self).deck_of(entity as int));
                assert(mid.card_status_of(entity as int, w) == Some(CardStatus::Active));
                lemma_card_matches_transfer(
                    *old(self),
                    mid,
                    entity as int,
                    old(self).deck_of(entity as int)[w].card,
                    event,
                );
                assert(!(mid.card_status_of(entity as int, order@[jw] as int) == Some(
                    CardStatus::Active,
                ) && card_matches(
                    mid,
                    entity as int,
                    mid.deck_of(entity as int)[order@[jw] as int].card,
                    event,
                )));
                assert(false);
            }
            if !no_active_match(*old(self), entity as int, event) {
                let idx = claimed.unwrap();
                assert(claimed == Some(idx));
                assert(mid.card_status_of(entity as int, idx as int) == Some(CardStatus::Active));
                assert(mid.deck_of(entity as int) == old(self).deck_of(entity as int));
                assert(old(self).card_status_of(entity as int, idx as int) == Some(
                    CardStatus::Active,
                ));
                lemma_card_matches_transfer(
                    *old(self),
                    mid,
                    entity as int,
                    old(self).deck_of(entity as int)[idx as int].card,
                    event,
                );
                lemma_triggered_transfer(
                    mid,
                    *old(self),
                    entity as int,
                    old(self).deck_of(entity as int)[idx as int].card,
                    event,
                );
                assert(0 <= idx as int && (idx as int) < old(self).deck_of(
                    entity as int,
                ).len() && old(self).deck_of(entity as int)[idx as int].status
                    == CardStatus::Active && card_matches(
                    *old(self),
                    entity as int,
                    old(self).deck_of(entity as int)[idx as int].card,
                    event,
                ) && ev == claimed_event(
                    *old(self),
                    entity as int,
                    old(self).deck_of(entity as int)[idx as int].card,
                    event,
                ));
            }
            assert(combat_event(event) ==> combat_event(ev)) by {
                if claimed is Some {
                    let idx = claimed.unwrap();
                    assert(claimed == Some(idx));
                    let card = mid.deck_of(entity as int)[idx as int].card;
                    assert(ev == claimed_event(mid, entity as int, card, event));
                } else {
                    assert(ev == event);
                }
            }
            if claimed is Some {
                let idx = claimed.unwrap();
                assert(claimed == Some(idx));
                assert(self.log.messages@.len() > mid.log.messages@.len());
            }
        }
        let ghost before_exec = *self;
        self.execute(entity, ev, fuel);
        proof {
            if no_active_match(*old(self), entity as int, event) {
                assert(before_exec == mid);
                assert(ev == event);
                assert(move_applied(mid, *self, entity as int, event));
                assert(move_applied(*old(self), *self, entity as int, event)) by {
                    match event {
                        Event::Move { destination, .. } => {
                            assert(mid.alive(entity as int) == old(self).alive(entity as int));
                            assert(mid.grid == old(self).grid);
                        },
                        _ => {},
                    }
                }
            }
        }
        proof {
            assert forall|i: usize| event == Event::Disable(i) implies toggle_rel(
                *old(self),
                *self,
                entity as int,
                i as int,
                CardStatus::Inactive,
            ) by {
                assert(no_active_match(mid, entity as int, event));
                assert(before_exec == mid);
                assert(ev == event);
                assert(crate::level::set_status_rel(
                    mid,
                    *self,
                    entity as int,
                    i as int,
                    CardStatus::Inactive,
                ));
                assert(mid.entities@ == old(self).entities@);
                assert(mid.grid == old(self).grid);
            }
            assert forall|i: usize| event == Event::Enable(i) implies toggle_rel(
                *old(self),
                *self,
                entity as int,
                i as int,
                CardStatus::Active,
            ) by {
                assert(no_active_match(mid, entity as int, event));
                assert(before_exec == mid);
                assert(ev == event);
                assert(crate::level::set_status_rel(
                    mid,
                    *self,
                    entity as int,
                    i as int,
                    CardStatus::Active,
                ));
                assert(mid.entities@ == old(self).entities@);
                assert(mid.grid == old(self).grid);
            }
        }
        ev
    }

    /// Apply the final event: relocate, rest, toggle, open an attack
    /// against a target (which runs the target's own card pipeline on
    /// the derived Defend event), or land damage and destroy the victim
    /// on a fatal outcome. Dangling references resolve to inert no-ops.
    pub fn execute(&mut self, entity: usize, event: Event, fuel: u32)
        requires
            old(self).wf(),
            event_ok(event, fuel as int - 1),
            fuel <= 4096,
        ensures
            final(self).wf(),
            combat_rel(*old(self), *final(self)),
            forall|i: usize|
                event == Event::Disable(i) && fuel >= 1 ==> crate::level::set_status_rel(
                    *old(self),
                    *final(self),
                    entity as int,
                    i as int,
                    CardStatus::Inactive,
                ),
            forall|i: usize|
                event == Event::Enable(i) && fuel >= 1 ==> crate::level::set_status_rel(
                    *old(self),
                    *final(self),
                    entity as int,
                    i as int,
                    CardStatus::Active,
                ),
            fuel >= 1 ==> move_applied(*old(self), *final(self), entity as int, event),
            fuel >= 1 ==> defend_applied(*old(self), *final(self), entity as int, event),
            fuel >= 1 && event == Event::Recover ==> recover_rel(
                *old(self),
                *final(self),
                entity as int,
            ),
            fuel >= 1 && (event matches Event::Attack { .. } || event matches Event::Defend {
                ..
            }) ==> final(self).log.messages@.len() > old(self).log.messages@.len(),
            goals_preserved(*old(self), *final(self)),
            combat_event(event) ==> pools_nonincreasing(*old(self), *final(self)),
            (event matches Event::Wait || event matches Event::Cancelled || fuel == 0)
                ==> *final(self) == *old(self),
        decreases fuel, 0int,
    {
        if fuel == 0 {
            return ;
        }
        match event {
            Event::Move { destination, .. } => {
                let _ = self.move_entity(entity, destination);
            },
            Event::Recover => {
                self.recover(entity);
            },
            Event::Wait => {},
            Event::Disable(index) => {
                self.set_card_status(entity, index, CardStatus::Inactive);
            },
            Event::Enable(index) => {
                self.set_card_status(entity, index, CardStatus::Active);
            },
            Event::Attack { target, damage, direction } => {
                let et = self.display_type(entity);
                let tt = self.display_type(target);
                let mut parts: Vec<String> = Vec::new();
                parts.push(et);
                parts.push(" attacks the ".to_owned());
                parts.push(tt);
                parts.push(" for ".to_owned());
                parts.push(damage.to_string());
                parts.push(" damage!".to_owned());
                let msg = concat_all(&parts);
                self.push_log(msg);
                let _ = self.process(
                    target,
                    Event::Defend { source: entity, damage, direction },
                    fuel - 1,
                );
            },
            Event::Defend { source, damage, .. } => {
                let st = self.display_type(source);
                let et = self.display_type(entity);
                let mut parts: Vec<String> = Vec::new();
                parts.push(st.clone());
                parts.push(" hits the ".to_owned());
                parts.push(et.clone());
                parts.push(" for ".to_owned());
                parts.push(damage.to_string());
                parts.push(" damage!".to_owned());
                let msg = concat_all(&parts);
                self.push_log(msg);
                let ghost pre_damage = *self;
                proof {
                    assert(pre_damage.pool(entity as int) == old(self).pool(entity as int));
                    assert(pre_damage.alive(entity as int) == old(self).alive(entity as int));
                }
                let fatal = self.take_damage(entity, damage);
                if fatal {
                    self.destroy_entity(entity);
                    let mut parts2: Vec<String> = Vec::new();
                    parts2.push(st);
                    parts2.push(" kills the ".to_owned());
                    parts2.push(et);
                    parts2.push("!".to_owned());
                    let msg2 = concat_all(&parts2);
                    self.push_log(msg2);
                }
            },
            Event::Cancelled => {},
        }
    }
}

} // verus!
