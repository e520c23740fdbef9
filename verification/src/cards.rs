//! Cards and card state. A card is an immutable value from a fixed
//! vocabulary; a card state pairs it with a status. The cards currently
//! Active or Inactive form the owner's hand, and the hand (plus any
//! passive modifiers) is the owner's damage-absorption pool: there is no
//! separate health stat.

use vstd::prelude::*;

verus! {

#[derive(PartialEq, Eq, Structural, Copy, Clone, Debug)]
pub enum Card {
    Attack(i32),
    Defend(i32),
    Kill(i32),
    Strike,
    Dodge,
    Block,
    Push,
}

impl Card {
    /// Every card the game deals keeps its numeric parameter in this
    /// range, which bounds how far one card can push an event's damage.
    pub open spec fn param_bounded(self) -> bool {
        match self {
            Card::Attack(n) => 0 <= n <= 100,
            Card::Defend(n) => 0 <= n <= 100,
            Card::Kill(n) => 0 <= n <= 100,
            _ => true,
        }
    }
}

/// A card's status. `PlayedOn` records the entity a card was resolved
/// against, for display only.
#[derive(PartialEq, Eq, Structural, Copy, Clone, Debug)]
pub enum CardStatus {
    Active,
    Inactive,
    Discarded,
    PlayedOn(usize),
}

impl CardStatus {
    pub open spec fn spec_in_hand(self) -> bool {
        self == CardStatus::Active || self == CardStatus::Inactive
    }

    /// A card is in its owner's hand exactly when it is Active or
    /// Inactive; only such cards count toward the absorption pool.
    pub fn in_hand(self) -> (r: bool)
        ensures
            r == self.spec_in_hand(),
    {
        match self {
            CardStatus::Active => true,
            CardStatus::Inactive => true,
            CardStatus::Discarded => false,
            CardStatus::PlayedOn(_) => false,
        }
    }
}

#[derive(PartialEq, Eq, Structural, Copy, Clone, Debug)]
pub struct CardState {
    pub card: Card,
    pub status: CardStatus,
}

/// A passive modification attached to an entity: an extension point that
/// counts toward the damage-absorption pool but has no further semantics
/// yet.
#[derive(PartialEq, Eq, Structural, Copy, Clone, Debug)]
pub struct Modifier {}

#[derive(PartialEq, Eq, Structural, Copy, Clone, Debug)]
pub struct Modification {
    pub source: usize,
    pub source_index: usize,
    pub modifier: Modifier,
}

/// What triggering a card against an event decided.
#[derive(PartialEq, Eq, Structural, Copy, Clone, Debug)]
pub enum CardOutcome {
    Continue,
    Done,
    Discard,
    Cancel,
    DiscardAndCancel,
}

/// How many cards of the deck are in hand.
pub open spec fn hand_size(deck: Seq<CardState>) -> nat
    decreases deck.len(),
{
    if deck.len() == 0 {
        0
    } else {
        hand_size(deck.drop_last()) + if deck.last().status.spec_in_hand() {
            1nat
        } else {
            0nat
        }
    }
}

pub proof fn lemma_hand_size_le_len(deck: Seq<CardState>)
    ensures
        hand_size(deck) <= deck.len(),
    decreases deck.len(),
{
    if deck.len() > 0 {
        lemma_hand_size_le_len(deck.drop_last());
    }
}

/// Extending a prefix by one element adds that element's contribution.
pub proof fn lemma_hand_size_take_step(deck: Seq<CardState>, i: int)
    requires
        0 <= i < deck.len(),
    ensures
        hand_size(deck.take(i + 1)) == hand_size(deck.take(i)) + if deck[i].status.spec_in_hand() {
            1nat
        } else {
            0nat
        },
{
    assert(deck.take(i + 1).drop_last() =~= deck.take(i));
    assert(deck.take(i + 1).last() == deck[i]);
}

pub proof fn lemma_hand_size_take_all(deck: Seq<CardState>)
    ensures
        hand_size(deck.take(deck.len() as int)) == hand_size(deck),
{
    assert(deck.take(deck.len() as int) =~= deck);
}

/// Replacing one card changes the hand size by the difference of the two
/// contributions.
pub proof fn lemma_hand_size_update(deck: Seq<CardState>, i: int, c: CardState)
    requires
        0 <= i < deck.len(),
    ensures
        hand_size(deck.update(i, c)) + if deck[i].status.spec_in_hand() {
            1nat
        } else {
            0nat
        } == hand_size(deck) + if c.status.spec_in_hand() {
            1nat
        } else {
            0nat
        },
    decreases deck.len(),
{
    if i == deck.len() - 1 {
        assert(deck.update(i, c).drop_last() =~= deck.drop_last());
        assert(deck.update(i, c).last() == c);
    } else {
        assert(deck.update(i, c).drop_last() =~= deck.drop_last().update(i, c));
        assert(deck.update(i, c).last() == deck.last());
        lemma_hand_size_update(deck.drop_last(), i, c);
    }
}

} // verus!
