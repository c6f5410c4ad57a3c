//! A player: the cards held in hand, and the cards played for points.

use crate::card::{Card, Cards, StoredCard};
use std::collections::HashMap;
use vec1::Vec1;
use vstd::prelude::*;

verus! {

/// The players of a game, in the order in which they take their turns.
pub type Players = Vec1<Player>;

/// What a player is, to the rules of the game.
#[verifier::ext_equal]
pub struct PlayerView {
    /// The name that the player was created with.
    pub name: Seq<char>,
    /// The hand: the stored cards that are held and not played yet.
    pub unplayed: Set<StoredCard>,
    /// The stored cards that were played, the first one first.
    pub played: Seq<StoredCard>,
}

impl PlayerView {
    /// The points of the player: what the played cards are worth together.
    pub open spec fn score(self) -> nat {
        total_score(self.played)
    }
}

/// What a run of stored cards is worth together.
pub open spec fn total_score(cards: Seq<StoredCard>) -> nat
    decreases cards.len(),
{
    if cards.len() == 0 {
        0
    } else {
        total_score(cards.drop_last()) + cards.last().score()
    }
}

/// The hand holds no rank twice: two stored cards of one rank in it are the
/// same stored card.
pub open spec fn one_per_rank(hand: Set<StoredCard>) -> bool {
    forall|a: StoredCard, b: StoredCard|
        #![trigger hand.contains(a), hand.contains(b)]
        hand.contains(a) && hand.contains(b) && a.rank() == b.rank() ==> a == b
}

/// What storing a card of a rank hands back: nothing where the hand holds
/// the pair of the rank, the pair where it holds the single card, else the
/// single card.
pub open spec fn stored_as(hand: Set<StoredCard>, card: Card) -> Option<StoredCard> {
    if hand.contains(StoredCard::PairedCard(card)) {
        None
    } else if hand.contains(StoredCard::UnpairedCard(card)) {
        Some(StoredCard::PairedCard(card))
    } else {
        Some(StoredCard::UnpairedCard(card))
    }
}

/// The hand after a card of a rank was stored in it: a pair of the rank is
/// lost, a single card becomes the pair, and a rank not held yet is held as
/// a single card.
pub open spec fn hand_after_store(hand: Set<StoredCard>, card: Card) -> Set<StoredCard> {
    if hand.contains(StoredCard::PairedCard(card)) {
        hand.remove(StoredCard::PairedCard(card))
    } else if hand.contains(StoredCard::UnpairedCard(card)) {
        hand.remove(StoredCard::UnpairedCard(card)).insert(StoredCard::PairedCard(card))
    } else {
        hand.insert(StoredCard::UnpairedCard(card))
    }
}

/// The player after a card of a rank was stored: the hand changes, the
/// played cards and the name stay.
pub open spec fn after_store(player: PlayerView, card: Card) -> PlayerView {
    PlayerView { unplayed: hand_after_store(player.unplayed, card), ..player }
}

/// The player after a stored card was played: it has left the hand, if the
/// hand held it, and stands last among the played cards.
pub open spec fn after_play(player: PlayerView, stored: StoredCard) -> PlayerView {
    PlayerView {
        unplayed: player.unplayed.remove(stored),
        played: player.played.push(stored),
        ..player
    }
}

/// Storing keeps the hand at one stored card per rank.
pub proof fn lemma_store_keeps_one_per_rank(hand: Set<StoredCard>, card: Card)
    requires
        one_per_rank(hand),
    ensures
        one_per_rank(hand_after_store(hand, card)),
{
    let after = hand_after_store(hand, card);
    assert forall|a: StoredCard, b: StoredCard|
        #![trigger after.contains(a), after.contains(b)]
        after.contains(a) && after.contains(b) && a.rank() == b.rank() implies a == b by {
        if a.rank() == card {
            assert(hand.contains(StoredCard::PairedCard(card)) || !hand.contains(
                StoredCard::PairedCard(card),
            ));
            if hand.contains(a) && hand.contains(StoredCard::UnpairedCard(card)) {
            }
            if hand.contains(b) && hand.contains(StoredCard::UnpairedCard(card)) {
            }
        } else {
            assert(hand.contains(a) && hand.contains(b));
        }
    }
}

/// Playing keeps the hand at one stored card per rank.
pub proof fn lemma_play_keeps_one_per_rank(hand: Set<StoredCard>, stored: StoredCard)
    requires
        one_per_rank(hand),
    ensures
        one_per_rank(hand.remove(stored)),
{
    let after = hand.remove(stored);
    assert forall|a: StoredCard, b: StoredCard|
        #![trigger after.contains(a), after.contains(b)]
        after.contains(a) && after.contains(b) && a.rank() == b.rank() implies a == b by {
        assert(hand.contains(a) && hand.contains(b));
    }
}

/// A rank that the hand does not hold is stored three times in a row: the
/// first time it is held as a single card, the second time as a pair, and
/// the third time the pair is lost, so that the hand holds the rank no
/// more and is what it was.
pub proof fn lemma_store_thrice(hand: Set<StoredCard>, card: Card)
    requires
        !hand.contains(StoredCard::UnpairedCard(card)),
        !hand.contains(StoredCard::PairedCard(card)),
    ensures
        ({
            let first = hand_after_store(hand, card);
            let second = hand_after_store(first, card);
            let third = hand_after_store(second, card);
            &&& stored_as(hand, card) == Some(StoredCard::UnpairedCard(card))
            &&& first == hand.insert(StoredCard::UnpairedCard(card))
            &&& stored_as(first, card) == Some(StoredCard::PairedCard(card))
            &&& second == hand.insert(StoredCard::PairedCard(card))
            &&& (stored_as(second, card) is None)
            &&& third == hand
            &&& forall|stored: StoredCard| stored.rank() == card ==> !third.contains(stored)
        }),
{
    let first = hand_after_store(hand, card);
    let second = hand_after_store(first, card);
    let third = hand_after_store(second, card);
    assert(second =~= hand.insert(StoredCard::PairedCard(card)));
    assert(third =~= hand);
    assert forall|stored: StoredCard| stored.rank() == card implies !third.contains(stored) by {
        match stored {
            StoredCard::UnpairedCard(_) => {},
            StoredCard::PairedCard(_) => {},
        }
    }
}

/// On an empty hand a rank stored three times in a row is held as a single
/// card, then as a pair, then not at all: the hand is empty again.
pub proof fn lemma_store_thrice_on_empty_hand(card: Card)
    ensures
        ({
            let empty = Set::<StoredCard>::empty();
            let first = hand_after_store(empty, card);
            let second = hand_after_store(first, card);
            let third = hand_after_store(second, card);
            &&& stored_as(empty, card) == Some(StoredCard::UnpairedCard(card))
            &&& stored_as(first, card) == Some(StoredCard::PairedCard(card))
            &&& (stored_as(second, card) is None)
            &&& third == empty
        }),
{
    lemma_store_thrice(Set::<StoredCard>::empty(), card);
}

/// Playing a stored card that the hand does not hold leaves the hand as it
/// is; the card is added to the played cards all the same.
pub proof fn lemma_play_absent_card(player: PlayerView, stored: StoredCard)
    requires
        !player.unplayed.contains(stored),
    ensures
        after_play(player, stored).unplayed == player.unplayed,
        after_play(player, stored).played == player.played.push(stored),
        after_play(player, stored).score() == player.score() + stored.score(),
{
    assert(player.unplayed.remove(stored) =~= player.unplayed);
    assert(player.played.push(stored).drop_last() =~= player.played);
}

/// Playing a stored card a second time changes the hand no more: it left
/// the hand the first time. Each time it is added to the played cards and
/// counts for the score.
pub proof fn lemma_play_twice(player: PlayerView, stored: StoredCard)
    ensures
        after_play(after_play(player, stored), stored).unplayed == after_play(
            player,
            stored,
        ).unplayed,
        !after_play(player, stored).unplayed.contains(stored),
        after_play(after_play(player, stored), stored).played == player.played.push(stored).push(
            stored,
        ),
        after_play(after_play(player, stored), stored).score() == player.score() + 2
            * stored.score(),
{
    let once = after_play(player, stored);
    let twice = after_play(once, stored);
    assert(twice.unplayed =~= once.unplayed);
    assert(once.played.drop_last() =~= player.played);
    assert(twice.played.drop_last() =~= once.played);
    assert(total_score(once.played) == total_score(player.played) + stored.score());
    assert(total_score(twice.played) == total_score(once.played) + stored.score());
}

/// A player of the game.
///
/// The hand is kept by rank: under the face value of each rank that is
/// held stands whether it is held as a pair. So no rank is held twice.
#[derive(PartialEq, Eq, Clone, Debug)]
pub struct Player {
    unplayed_cards: HashMap<u8, bool>,
    played_cards: Vec<StoredCard>,
    name: String,
}

/// The stored cards that a hand kept by rank holds.
spec fn hand_of(kept: Map<u8, bool>) -> Set<StoredCard> {
    Set::new(
        |stored: StoredCard|
            kept.contains_key(stored.rank().value()) && kept[stored.rank().value()]
                == stored.is_pair(),
    )
}

impl View for Player {
    type V = PlayerView;

    closed spec fn view(&self) -> PlayerView {
        PlayerView {
            name: self.name@,
            unplayed: hand_of(self.unplayed_cards@),
            played: self.played_cards@,
        }
    }
}

impl Player {
    /// A player holds no rank twice, whatever was stored and played.
    pub proof fn lemma_one_per_rank(&self)
        ensures
            one_per_rank(self@.unplayed),
    {
    }

    /// A player with the given name, an empty hand and nothing played.
    pub fn new(name: &str) -> (player: Player)
        ensures
            player@ == (PlayerView {
                name: name@,
                unplayed: Set::<StoredCard>::empty(),
                played: Seq::<StoredCard>::empty(),
            }),
    {
        let player = Player {
            unplayed_cards: HashMap::new(),
            played_cards: Vec::new(),
            name: name.to_owned(),
        };
        assert(player@.unplayed =~= Set::<StoredCard>::empty());
        player
    }

    /// Takes the next card from the draw pile: its last card, or nothing
    /// where the pile is empty. The player is not changed.
    pub fn draw(&mut self, sample: &mut Cards) -> (drawn: Option<Card>)
        ensures
            *final(self) == *old(self),
            match drawn {
                Some(card) => {
                    &&& old(sample)@.len() > 0
                    &&& card == old(sample)@.last()
                    &&& final(sample)@ == old(sample)@.drop_last()
                },
                None => old(sample)@.len() == 0 && final(sample)@ == old(sample)@,
            },
    {
        sample.pop()
    }

    /// Stores a drawn card in the hand. A rank not held yet is held as a
    /// single card, which is handed back. A rank held as a single card
    /// becomes a pair, which is handed back. A rank held as a pair is lost
    /// altogether, the pair and the drawn card, and nothing is handed back.
    pub fn store(&mut self, card: Card) -> (stored: Option<StoredCard>)
        ensures
            stored == stored_as(old(self)@.unplayed, card),
            final(self)@ == after_store(old(self)@, card),
    {
        broadcast use vstd::std_specs::hash::group_hash_axioms;

        let rank: u8 = card.value();
        let held: Option<bool> = match self.unplayed_cards.get(&rank) {
            Some(paired) => Some(*paired),
            None => None,
        };
        let stored = match held {
            Some(true) => {
                self.unplayed_cards.remove(&rank);
                None
            },
            Some(false) => {
                self.unplayed_cards.insert(rank, true);
                Some(StoredCard::PairedCard(card))
            },
            None => {
                self.unplayed_cards.insert(rank, false);
                Some(StoredCard::UnpairedCard(card))
            },
        };
        proof {
            let before = old(self)@.unplayed;
            let after = self@.unplayed;
            assert(before.contains(StoredCard::PairedCard(card)) <==> held == Some(true));
            assert(before.contains(StoredCard::UnpairedCard(card)) <==> held == Some(false));
            assert forall|other: StoredCard|
                after.contains(other) == hand_after_store(before, card).contains(other) by {
                lemma_value_tells_apart(other.rank(), card);
            }
            assert(after =~= hand_after_store(before, card));
        }
        stored
    }

    /// Plays a stored card: it leaves the hand, if the hand holds it, and
    /// is added to the played cards, where it counts for the score.
    pub fn play(&mut self, card: &StoredCard)
        ensures
            final(self)@ == after_play(old(self)@, *card),
    {
        broadcast use vstd::std_specs::hash::group_hash_axioms;

        let rank: u8 = card.rank().value();
        let held: bool = match self.unplayed_cards.get(&rank) {
            Some(paired) => *paired == card.is_pair(),
            None => false,
        };
        if held {
            self.unplayed_cards.remove(&rank);
        }
        self.played_cards.push(*card);
        proof {
            let before = old(self)@.unplayed;
            let after = self@.unplayed;
            assert(before.contains(*card) <==> held);
            assert forall|other: StoredCard|
                after.contains(other) == before.remove(*card).contains(other) by {
                lemma_value_tells_apart(other.rank(), card.rank());
            }
            assert(after =~= before.remove(*card));
        }
    }

    /// The score of the player: what the played cards are worth together.
    /// Cards in the hand do not count.
    pub fn get_score(&self) -> (score: u8)
        requires
            self@.score() <= u8::MAX,
        ensures
            score == self@.score(),
    {
        let mut score: u8 = 0;
        for index in 0..self.played_cards.len()
            invariant
                score == total_score(self.played_cards@.take(index as int)),
                total_score(self.played_cards@) <= u8::MAX,
        {
            proof {
                let played = self.played_cards@;
                lemma_prefix_scores_less(played, index + 1);
                assert(played.take(index + 1).drop_last() =~= played.take(index as int));
            }
            score = score + self.played_cards[index].get_score();
        }
        assert(self.played_cards@.take(self.played_cards@.len() as int) =~= self.played_cards@);
        score
    }

    /// The score of the player in full, however high it is.
    pub fn full_score(&self) -> (score: u128)
        ensures
            score == self@.score(),
    {
        let mut score: u128 = 0;
        for index in 0..self.played_cards.len()
            invariant
                score == total_score(self.played_cards@.take(index as int)),
                score <= 20 * index,
        {
            proof {
                let played = self.played_cards@;
                assert(played.take(index + 1).drop_last() =~= played.take(index as int));
                assert(played.take(index + 1).last().score() <= 20);
            }
            let worth: u8 = self.played_cards[index].get_score();
            score = score + worth as u128;
        }
        assert(self.played_cards@.take(self.played_cards@.len() as int) =~= self.played_cards@);
        score
    }

    /// The score of the player, or `None` where it is more than the type
    /// of scores can hold.
    pub fn checked_score(&self) -> (score: Option<u8>)
        ensures
            match score {
                Some(score) => score == self@.score(),
                None => self@.score() > u8::MAX,
            },
    {
        let mut score: u8 = 0;
        for index in 0..self.played_cards.len()
            invariant
                score == total_score(self.played_cards@.take(index as int)),
        {
            proof {
                let played = self.played_cards@;
                lemma_prefix_scores_less(played, index + 1);
                assert(played.take(index + 1).drop_last() =~= played.take(index as int));
            }
            match score.checked_add(self.played_cards[index].get_score()) {
                Some(sum) => {
                    score = sum;
                },
                None => {
                    return None;
                },
            }
        }
        assert(self.played_cards@.take(self.played_cards@.len() as int) =~= self.played_cards@);
        Some(score)
    }

    /// The name that the player was created with.
    pub fn name(&self) -> (name: &str)
        ensures
            name@ == self@.name,
    {
        self.name.as_str()
    }

    /// Whether the hand holds the stored card.
    pub fn holds(&self, card: &StoredCard) -> (held: bool)
        ensures
            held == self@.unplayed.contains(*card),
    {
        broadcast use vstd::std_specs::hash::group_hash_axioms;

        let rank: u8 = card.rank().value();
        match self.unplayed_cards.get(&rank) {
            Some(paired) => *paired == card.is_pair(),
            None => false,
        }
    }

    /// The stored cards that were played, the first one first.
    pub fn played_cards(&self) -> (played: &[StoredCard])
        ensures
            played@ == self@.played,
    {
        self.played_cards.as_slice()
    }
}

/// The first cards of a run are worth no more than the whole run.
pub proof fn lemma_prefix_scores_less(cards: Seq<StoredCard>, n: int)
    requires
        0 <= n <= cards.len(),
    ensures
        total_score(cards.take(n)) <= total_score(cards),
    decreases cards.len() - n,
{
    if n == cards.len() {
        assert(cards.take(n) =~= cards);
    } else {
        lemma_prefix_scores_less(cards, n + 1);
        assert(cards.take(n + 1).drop_last() =~= cards.take(n));
    }
}

/// Two ranks with one face value are the same rank.
proof fn lemma_value_tells_apart(a: Card, b: Card)
    ensures
        a.value() == b.value() <==> a == b,
{
}

} // verus!
