//! Ranks, stored cards and their scores.

use rand::Rng;
use std::collections::HashMap;
use vstd::prelude::*;

verus! {

/// A draw pile: cards are drawn from the end.
pub type Cards = Vec<Card>;

/// The number of ranks.
pub const RANKS: u8 = 8;

/// The number of cards in a deck.
pub const DECK_SIZE: usize = 50;

/// How many cards of a rank other than the ten a deck holds.
pub const MAX_CARDS_SMALL: u8 = 7;

/// The most samples that are thrown away in a row while one card is dealt.
pub const MAX_REDRAWS: u32 = 1_000_000;

/// The rank of a card.
#[derive(PartialEq, Eq, Structural, PartialOrd, Ord, Hash, Copy, Clone, Debug)]
pub enum Card {
    One,
    Two,
    Three,
    Four,
    Five,
    Six,
    Seven,
    Ten,
}

impl Card {
    /// The face value of the rank, as a specification.
    pub open spec fn spec_value(self) -> u8 {
        match self {
            Card::One => 1,
            Card::Two => 2,
            Card::Three => 3,
            Card::Four => 4,
            Card::Five => 5,
            Card::Six => 6,
            Card::Seven => 7,
            Card::Ten => 10,
        }
    }

    /// How many cards of the rank a deck holds, as a specification.
    pub open spec fn spec_limit(self) -> u8 {
        if self == Card::Ten {
            1
        } else {
            MAX_CARDS_SMALL
        }
    }

    /// How many cards of the rank a deck holds: one ten, seven of every
    /// other rank.
    #[verifier::when_used_as_spec(spec_limit)]
    pub fn limit(self) -> (n: u8)
        ensures
            n == self.spec_limit(),
    {
        if self == Card::Ten {
            1
        } else {
            MAX_CARDS_SMALL
        }
    }

    /// The rank at a position in the ascending order of ranks, as a
    /// specification.
    pub open spec fn spec_from_index(index: u8) -> Card {
        if index == 0 {
            Card::One
        } else if index == 1 {
            Card::Two
        } else if index == 2 {
            Card::Three
        } else if index == 3 {
            Card::Four
        } else if index == 4 {
            Card::Five
        } else if index == 5 {
            Card::Six
        } else if index == 6 {
            Card::Seven
        } else {
            Card::Ten
        }
    }

    /// The rank at a position in the ascending order of ranks: 0 is the
    /// one, 7 is the ten.
    #[verifier::when_used_as_spec(spec_from_index)]
    pub fn from_index(index: u8) -> (card: Card)
        requires
            index < RANKS,
        ensures
            card == Card::spec_from_index(index),
    {
        match index {
            0 => Card::One,
            1 => Card::Two,
            2 => Card::Three,
            3 => Card::Four,
            4 => Card::Five,
            5 => Card::Six,
            6 => Card::Seven,
            _ => Card::Ten,
        }
    }

    /// The face value of the rank: 1 to 7, or 10.
    #[verifier::when_used_as_spec(spec_value)]
    pub fn value(self) -> (v: u8)
        ensures
            v == self.spec_value(),
    {
        match self {
            Card::One => 1,
            Card::Two => 2,
            Card::Three => 3,
            Card::Four => 4,
            Card::Five => 5,
            Card::Six => 6,
            Card::Seven => 7,
            Card::Ten => 10,
        }
    }
}

/// A card as a player holds it: single, or matched with a second card of
/// its rank.
#[derive(PartialEq, Eq, Structural, PartialOrd, Ord, Hash, Copy, Clone, Debug)]
pub enum StoredCard {
    UnpairedCard(Card),
    PairedCard(Card),
}

impl StoredCard {
    /// The rank of the stored card, as a specification.
    pub open spec fn spec_rank(self) -> Card {
        match self {
            StoredCard::UnpairedCard(card) => card,
            StoredCard::PairedCard(card) => card,
        }
    }

    /// The rank of the stored card.
    #[verifier::when_used_as_spec(spec_rank)]
    pub fn rank(self) -> (card: Card)
        ensures
            card == self.spec_rank(),
    {
        match self {
            StoredCard::UnpairedCard(card) => card,
            StoredCard::PairedCard(card) => card,
        }
    }

    /// Whether the stored card is a pair, as a specification.
    pub open spec fn spec_is_pair(self) -> bool {
        self is PairedCard
    }

    /// Whether the stored card is a pair.
    #[verifier::when_used_as_spec(spec_is_pair)]
    pub fn is_pair(self) -> (pair: bool)
        ensures
            pair == self.spec_is_pair(),
    {
        match self {
            StoredCard::UnpairedCard(_) => false,
            StoredCard::PairedCard(_) => true,
        }
    }

    /// What the stored card is worth: its face value, doubled for a pair.
    pub open spec fn score(self) -> nat {
        match self {
            StoredCard::UnpairedCard(card) => card.value() as nat,
            StoredCard::PairedCard(card) => 2 * (card.value() as nat),
        }
    }

    /// The score of the stored card.
    pub fn get_score(self) -> (score: u8)
        ensures
            score == self.score(),
    {
        match self {
            StoredCard::UnpairedCard(card) => card.value(),
            StoredCard::PairedCard(card) => 2 * card.value(),
        }
    }
}

/// A single card is worth its face value, and a pair twice as much.
pub proof fn lemma_pair_scores_double(card: Card)
    ensures
        StoredCard::UnpairedCard(card).score() == card.value(),
        StoredCard::PairedCard(card).score() == 2 * card.value(),
        1 <= card.value() <= 10,
{
}

/// How many cards of a rank a pile holds.
pub open spec fn copies(pile: Seq<Card>, card: Card) -> nat {
    pile.to_multiset().count(card)
}

/// No rank occurs in the pile more often than a deck holds it.
pub open spec fn within_limits(pile: Seq<Card>) -> bool {
    forall|card: Card| copies(pile, card) <= #[trigger] card.limit()
}

/// The pile is a whole deck: fifty cards, one ten and seven of every other
/// rank.
pub open spec fn is_full_deck(pile: Seq<Card>) -> bool {
    &&& pile.len() == DECK_SIZE
    &&& forall|card: Card| copies(pile, card) == #[trigger] card.limit()
}

/// The count that the counter map keeps for a rank; a rank without an
/// entry counts as zero.
spec fn counted(deck: Map<u8, u8>, card: Card) -> nat {
    if deck.contains_key(card.value()) {
        deck[card.value()] as nat
    } else {
        0
    }
}

/// The counter map agrees with the pile, and the pile is within the limits.
spec fn counts_match(deck: Map<u8, u8>, pile: Seq<Card>) -> bool {
    forall|card: Card| #[trigger] counted(deck, card) == copies(pile, card) <= card.limit()
}

/// An empty pile holds no card of any rank, and a card put on a pile adds
/// one copy of its own rank and none of another.
pub proof fn lemma_copies_of_push(pile: Seq<Card>, card: Card, other: Card)
    ensures
        copies(Seq::<Card>::empty(), other) == 0,
        copies(pile.push(card), card) == copies(pile, card) + 1,
        other != card ==> copies(pile.push(card), other) == copies(pile, other),
{
    broadcast use vstd::seq_lib::group_to_multiset_ensures;

    assert(Seq::<Card>::empty().to_multiset().len() == 0);
    assert(pile.push(card).to_multiset() =~= pile.to_multiset().insert(card));
}

/// Every card is of one of the eight ranks, so the copies of the ranks add
/// up to the length of the pile.
pub proof fn lemma_copies_add_up(pile: Seq<Card>)
    ensures
        copies(pile, Card::One) + copies(pile, Card::Two) + copies(pile, Card::Three) + copies(
            pile,
            Card::Four,
        ) + copies(pile, Card::Five) + copies(pile, Card::Six) + copies(pile, Card::Seven)
            + copies(pile, Card::Ten) == pile.len(),
    decreases pile.len(),
{
    if pile.len() == 0 {
        assert(pile =~= Seq::<Card>::empty());
        assert forall|card: Card| copies(pile, card) == 0 by {
            lemma_copies_of_push(pile, card, card);
        }
    } else {
        let rest = pile.drop_last();
        lemma_copies_add_up(rest);
        assert(pile =~= rest.push(pile.last()));
        assert forall|card: Card| copies(pile, card) == copies(rest, card) + if card
            == pile.last() {
            1nat
        } else {
            0nat
        } by {
            lemma_copies_of_push(rest, pile.last(), card);
        }
    }
}

/// A pile within the limits is a whole deck as soon as it has fifty cards.
pub proof fn lemma_fifty_cards_fill_the_deck(pile: Seq<Card>)
    requires
        within_limits(pile),
        pile.len() == DECK_SIZE,
    ensures
        is_full_deck(pile),
{
    lemma_copies_add_up(pile);
    assert(Card::One.limit() == 7 && Card::Two.limit() == 7 && Card::Three.limit() == 7
        && Card::Four.limit() == 7 && Card::Five.limit() == 7 && Card::Six.limit() == 7
        && Card::Seven.limit() == 7 && Card::Ten.limit() == 1);
    assert forall|card: Card| copies(pile, card) == #[trigger] card.limit() by {
        match card {
            Card::One => {},
            Card::Two => {},
            Card::Three => {},
            Card::Four => {},
            Card::Five => {},
            Card::Six => {},
            Card::Seven => {},
            Card::Ten => {},
        }
    }
}

/// The rejection rule on one sample. The counter of the sampled rank is
/// looked up, entered as zero where the rank was not seen yet; the card
/// goes onto the pile, and is counted, if the pile has fewer cards of its
/// rank than a deck holds.
fn place(deck: &mut HashMap<u8, u8>, shuffled: &mut Cards, new_card: Card) -> (placed: bool)
    requires
        counts_match(old(deck)@, old(shuffled)@),
    ensures
        counts_match(final(deck)@, final(shuffled)@),
        placed == (copies(old(shuffled)@, new_card) < new_card.limit()),
        final(shuffled)@ == if placed {
            old(shuffled)@.push(new_card)
        } else {
            old(shuffled)@
        },
{
    broadcast use vstd::std_specs::hash::group_hash_axioms;

    assert(counted(deck@, new_card) == copies(shuffled@, new_card));
    let chosen_card_count = deck.entry(new_card.value()).or_insert(0);
    let is_new_small = new_card != Card::Ten && *chosen_card_count < MAX_CARDS_SMALL;
    let is_new_ten = new_card == Card::Ten && *chosen_card_count == 0;
    if is_new_small || is_new_ten {
        *chosen_card_count = *chosen_card_count + 1u8;
        shuffled.push(new_card);
        proof {
            assert forall|card: Card| #[trigger]
                counted(deck@, card) == copies(shuffled@, card) <= card.limit() by {
                assert(counted(old(deck)@, card) == copies(old(shuffled)@, card));
                lemma_copies_of_push(old(shuffled)@, new_card, card);
            }
        }
        true
    } else {
        proof {
            assert forall|card: Card| #[trigger]
                counted(deck@, card) == copies(shuffled@, card) <= card.limit() by {
                assert(counted(old(deck)@, card) == copies(old(shuffled)@, card));
            }
        }
        false
    }
}

/// A deck in the making: the pile dealt so far, with a counter for every
/// rank that was sampled.
pub struct Shuffler {
    deck: HashMap<u8, u8>,
    shuffled: Cards,
}

impl View for Shuffler {
    type V = Seq<Card>;

    /// The pile dealt so far, the first card first.
    closed spec fn view(&self) -> Seq<Card> {
        self.shuffled@
    }
}

impl Shuffler {
    /// The counters agree with the pile, and no rank was dealt more often
    /// than a deck holds it.
    pub closed spec fn wf(&self) -> bool {
        counts_match(self.deck@, self.shuffled@)
    }

    /// A well-formed shuffler has dealt a pile within the limits.
    pub proof fn lemma_wf_within_limits(&self)
        requires
            self.wf(),
        ensures
            within_limits(self@),
    {
        assert forall|card: Card| copies(self@, card) <= #[trigger] card.limit() by {
            assert(counted(self.deck@, card) == copies(self.shuffled@, card));
        }
    }

    /// A shuffler with nothing dealt yet.
    pub fn new() -> (shuffler: Shuffler)
        ensures
            shuffler.wf(),
            shuffler@ == Seq::<Card>::empty(),
    {
        let deck: HashMap<u8, u8> = HashMap::new();
        let shuffled: Cards = Vec::new();
        assert forall|card: Card| #[trigger]
            counted(deck@, card) == copies(shuffled@, card) <= card.limit() by {
            lemma_copies_of_push(shuffled@, card, card);
        }
        Shuffler { deck, shuffled }
    }

    /// Offers one sampled card. It is dealt if the pile holds fewer cards
    /// of its rank than a deck does (no ten yet, or fewer than seven of
    /// another rank); else it is thrown away and nothing changes.
    pub fn offer(&mut self, card: Card) -> (dealt: bool)
        requires
            old(self).wf(),
        ensures
            final(self).wf(),
            dealt == (copies(old(self)@, card) < card.limit()),
            final(self)@ == if dealt {
                old(self)@.push(card)
            } else {
                old(self)@
            },
    {
        place(&mut self.deck, &mut self.shuffled, card)
    }

    /// The lowest rank of which the pile holds fewer cards than a deck
    /// does; `None` when the deck is whole.
    pub fn first_open(&self) -> (open: Option<Card>)
        requires
            self.wf(),
        ensures
            match open {
                Some(card) => {
                    &&& copies(self@, card) < card.limit()
                    &&& forall|lower: Card|
                        lower.value() < card.value() ==> copies(self@, lower) == #[trigger] lower.limit()
                },
                None => is_full_deck(self@),
            },
            open is None <==> self@.len() >= DECK_SIZE,
    {
        broadcast use vstd::std_specs::hash::group_hash_axioms;

        proof {
            lemma_copies_add_up(self@);
        }
        let mut index: u8 = 0;
        while index < RANKS
            invariant
                index <= RANKS,
                counts_match(self.deck@, self.shuffled@),
                forall|lower: u8|
                    lower < index ==> copies(self@, Card::spec_from_index(lower)) == (
                    #[trigger] Card::spec_from_index(lower)).limit(),
            decreases RANKS - index,
        {
            let card = Card::from_index(index);
            let count: u8 = match self.deck.get(&card.value()) {
                Some(count) => *count,
                None => 0,
            };
            assert(count == counted(self.deck@, card));
            if count < card.limit() {
                proof {
                    assert forall|lower: Card| lower.value() < card.value() implies copies(
                        self@,
                        lower,
                    ) == #[trigger] lower.limit() by {
                        lemma_index_of_rank(lower);
                        lemma_index_of_rank(card);
                    }
                    self.lemma_wf_within_limits();
                    lemma_room_left(self@, card);
                }
                return Some(card);
            }
            index = index + 1;
        }
        proof {
            assert forall|card: Card| copies(self@, card) == #[trigger] card.limit() by {
                lemma_index_of_rank(card);
            }
            assert(Card::One.limit() + Card::Two.limit() + Card::Three.limit() + Card::Four.limit()
                + Card::Five.limit() + Card::Six.limit() + Card::Seven.limit() + Card::Ten.limit()
                == DECK_SIZE);
        }
        None
    }

    /// Hands out the pile dealt so far.
    pub fn finish(self) -> (cards: Cards)
        ensures
            cards@ == self@,
    {
        self.shuffled
    }
}

/// Every rank stands at one position of the ascending order, and a lower
/// position holds a lower face value.
proof fn lemma_index_of_rank(card: Card)
    ensures
        exists|index: u8| index < RANKS && #[trigger] Card::spec_from_index(index) == card,
        forall|i: u8, j: u8|
            i < j < RANKS ==> (#[trigger] Card::spec_from_index(i)).value() < (
            #[trigger] Card::spec_from_index(j)).value(),
{
    assert(Card::spec_from_index(0) == Card::One);
    assert(Card::spec_from_index(1) == Card::Two);
    assert(Card::spec_from_index(2) == Card::Three);
    assert(Card::spec_from_index(3) == Card::Four);
    assert(Card::spec_from_index(4) == Card::Five);
    assert(Card::spec_from_index(5) == Card::Six);
    assert(Card::spec_from_index(6) == Card::Seven);
    assert(Card::spec_from_index(7) == Card::Ten);
}

/// A pile within the limits has at most fifty cards, and fewer while a
/// rank has room.
pub proof fn lemma_room_left(pile: Seq<Card>, card: Card)
    requires
        within_limits(pile),
    ensures
        pile.len() <= DECK_SIZE,
        copies(pile, card) < card.limit() ==> pile.len() < DECK_SIZE,
{
    lemma_copies_add_up(pile);
    assert(Card::One.limit() == 7 && Card::Two.limit() == 7 && Card::Three.limit() == 7
        && Card::Four.limit() == 7 && Card::Five.limit() == 7 && Card::Six.limit() == 7
        && Card::Seven.limit() == 7 && Card::Ten.limit() == 1);
    match card {
        Card::One => {},
        Card::Two => {},
        Card::Three => {},
        Card::Four => {},
        Card::Five => {},
        Card::Six => {},
        Card::Seven => {},
        Card::Ten => {},
    }
}

/// `rand::Rng::gen_range` on `rand::thread_rng()`, over the range from 0
/// up to and without `bound`. Not proved: that the sample lies in that
/// range, as the documentation of `gen_range` says. The call does not
/// return if the system cannot seed the generator.
#[verifier::external_body]
fn random_below(bound: u8) -> (sample: u8)
    requires
        bound > 0,
    ensures
        sample < bound,
{
    rand::thread_rng().gen_range(0..bound)
}

/// Deals a shuffled deck: fifty cards, one ten and seven of every other
/// rank, in random order. The last card is the first to be drawn.
///
/// For every card a rank is sampled, each of the eight with the same
/// chance, and offered to the pile; a rank of which the pile is full is
/// thrown away and another is sampled. So that dealing ends whatever the
/// samples are, at most `MAX_REDRAWS` samples are taken for one card: if
/// all of them were thrown away, the lowest rank with room is dealt.
pub fn shuffle() -> (deck: Cards)
    ensures
        is_full_deck(deck@),
{
    let mut shuffler = Shuffler::new();
    for n in 0..DECK_SIZE
        invariant
            shuffler.wf(),
            shuffler@.len() == n,
    {
        let mut dealt = false;
        let mut redraws: u32 = 0;
        while !dealt && redraws < MAX_REDRAWS
            invariant
                shuffler.wf(),
                redraws <= MAX_REDRAWS,
                shuffler@.len() == if dealt {
                    n + 1
                } else {
                    n as int
                },
            decreases MAX_REDRAWS - redraws,
        {
            let new_card = Card::from_index(random_below(RANKS));
            dealt = shuffler.offer(new_card);
            redraws = redraws + 1;
        }
        if !dealt {
            if let Some(open) = shuffler.first_open() {
                shuffler.offer(open);
            }
        }
    }
    proof {
        shuffler.lemma_wf_within_limits();
        lemma_fifty_cards_fill_the_deck(shuffler@);
    }
    shuffler.finish()
}

} // verus!
