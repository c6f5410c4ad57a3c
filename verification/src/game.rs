//! The game: turns, rounds, and who wins.

use crate::card::{Card, Cards, StoredCard};
use crate::player::{after_play, after_store, stored_as, Player, PlayerView, Players};
use vec1::Vec1;
use vstd::prelude::*;

verus! {

/// `vec1::Vec1`, a vector that is never empty.
#[verifier::external_type_specification]
#[verifier::external_body]
#[verifier::reject_recursive_types(T)]
pub struct ExVec1<T>(Vec1<T>);

/// The score at which a player wins.
pub const WINNING_SCORE: u8 = 20;

/// The players that a `Vec1` of players holds, the first one first.
pub uninterp spec fn roster(players: Vec1<Player>) -> Seq<Player>;

/// The players of a game as the rules see them, the first one first.
pub open spec fn table(players: Vec1<Player>) -> Seq<PlayerView> {
    roster(players).map_values(|player: Player| player@)
}

/// `Vec1::as_slice`, which hands out the elements of the wrapped vector.
/// Not proved: that the slice holds the players of the `Vec1` in their
/// order, and at least one, which is what `Vec1` is for.
#[verifier::external_body]
fn seats(players: &Players) -> (seats: &[Player])
    ensures
        seats@ == roster(*players),
        seats@.len() >= 1,
{
    players.as_slice()
}

/// `Vec1::as_mut_slice`, which hands out the elements of the wrapped
/// vector for change in place. Not proved: that the slice holds the
/// players of the `Vec1` in their order, and that the `Vec1` afterwards
/// holds what the slice was left with.
#[verifier::external_body]
fn seats_mut(players: &mut Players) -> (seats: &mut [Player])
    ensures
        seats@ == roster(*old(players)),
        seats@.len() >= 1,
        final(seats)@ == roster(*final(players)),
{
    players.as_mut_slice()
}

/// Some player has reached the winning score.
pub open spec fn any_winning(seats: Seq<PlayerView>) -> bool {
    exists|i: int| 0 <= i < seats.len() && (#[trigger] seats[i]).score() >= WINNING_SCORE
}

/// Whether the game is won: whether the highest score of all players has
/// reached the winning score.
pub fn is_any_player_winning(players: &Players) -> (won: bool)
    ensures
        won == any_winning(table(*players)),
{
    let seats = seats(players);
    let ghost views = table(*players);
    let mut highest: u128 = 0;
    for index in 0..seats.len()
        invariant
            seats@ == roster(*players),
            views == table(*players),
            forall|i: int| 0 <= i < index ==> (#[trigger] views[i]).score() <= highest,
            highest == 0 || exists|i: int| 0 <= i < index && (#[trigger] views[i]).score() == highest,
    {
        assert(views[index as int] == seats@[index as int]@);
        let score: u128 = seats[index].full_score();
        if score > highest {
            highest = score;
        }
    }
    highest >= WINNING_SCORE as u128
}

/// The player leads: nobody has a higher score, and nobody before the
/// player in the order of play has the same.
pub open spec fn leads(seats: Seq<PlayerView>, at: int) -> bool {
    &&& 0 <= at < seats.len()
    &&& forall|i: int| 0 <= i < seats.len() ==> (#[trigger] seats[i]).score() <= seats[at].score()
    &&& forall|i: int| 0 <= i < at ==> (#[trigger] seats[i]).score() < seats[at].score()
}

/// The position of the player who leads.
pub open spec fn leader(seats: Seq<PlayerView>) -> int {
    choose|at: int| leads(seats, at)
}

/// Only one player leads.
pub proof fn lemma_one_leader(seats: Seq<PlayerView>, a: int, b: int)
    requires
        leads(seats, a),
        leads(seats, b),
    ensures
        a == b,
{
    if a < b {
        assert(seats[a].score() < seats[b].score());
    } else if b < a {
        assert(seats[b].score() < seats[a].score());
    }
}

/// Of two players who share the highest score, the later one does not
/// lead: the leader is the earlier one, or stands before both.
pub proof fn lemma_tie_goes_to_the_earlier(seats: Seq<PlayerView>, earlier: int, later: int)
    requires
        0 <= earlier < later < seats.len(),
        seats[earlier].score() == seats[later].score(),
        forall|i: int| 0 <= i < seats.len() ==> (#[trigger] seats[i]).score() <= seats[earlier].score(),
    ensures
        leads(seats, leader(seats)),
        leader(seats) <= earlier,
        seats[leader(seats)].score() == seats[earlier].score(),
{
    lemma_some_leader(seats);
    let at = leader(seats);
    assert(seats[earlier].score() <= seats[at].score());
    assert(seats[at].score() <= seats[earlier].score());
}

/// Where there is a player, one of the players leads.
pub proof fn lemma_some_leader(seats: Seq<PlayerView>)
    requires
        seats.len() > 0,
    ensures
        leads(seats, leader(seats)),
{
    lemma_some_leader_among_first(seats, seats.len() as int);
    assert(seats.take(seats.len() as int) =~= seats);
}

/// Among the first players of a table that is not empty, one leads.
proof fn lemma_some_leader_among_first(seats: Seq<PlayerView>, n: int)
    requires
        1 <= n <= seats.len(),
    ensures
        leads(seats.take(n), leader(seats.take(n))),
    decreases n,
{
    if n == 1 {
        assert(leads(seats.take(n), 0));
    } else {
        lemma_some_leader_among_first(seats, n - 1);
        let before = leader(seats.take(n - 1));
        assert(forall|i: int| 0 <= i < n - 1 ==> seats.take(n - 1)[i] == seats.take(n)[i]);
        if seats[n - 1].score() > seats[before].score() {
            assert(leads(seats.take(n), n - 1));
        } else {
            assert(leads(seats.take(n), before));
        }
    }
}

/// The player who wins as the scores stand: the one with the highest
/// score, and of several with that score the first in the order of play.
pub fn get_winning_player(players: &Players) -> (winner: &Player)
    ensures
        leads(table(*players), leader(table(*players))),
        *winner == roster(*players)[leader(table(*players))],
{
    let seats = seats(players);
    let ghost views = table(*players);
    let mut winning_index: usize = 0;
    let mut winning_score: u128 = 0;
    for index in 0..seats.len()
        invariant
            seats@ == roster(*players),
            views == table(*players),
            index == 0 ==> winning_index == 0 && winning_score == 0,
            index > 0 ==> leads(views.take(index as int), winning_index as int) && winning_score
                == views[winning_index as int].score(),
    {
        assert(views[index as int] == seats@[index as int]@);
        assert(forall|i: int| 0 <= i < index ==> views.take(index as int)[i] == views.take(index + 1)[i]);
        let score: u128 = seats[index].full_score();
        if score > winning_score {
            winning_index = index;
            winning_score = score;
        }
        assert(leads(views.take(index + 1), winning_index as int));
    }
    proof {
        assert(views.take(seats@.len() as int) =~= views);
        lemma_one_leader(views, winning_index as int, leader(views));
    }
    &seats[winning_index]
}

/// The player after a turn in which the given card was drawn: the card is
/// stored, and where that made a pair, the pair is played at once.
pub open spec fn after_turn(player: PlayerView, card: Card) -> PlayerView {
    match stored_as(player.unplayed, card) {
        Some(StoredCard::PairedCard(paired)) => after_play(
            after_store(player, card),
            StoredCard::PairedCard(paired),
        ),
        _ => after_store(player, card),
    }
}

/// One turn: the player draws the last card of the pile and stores it; a
/// pair that this makes is played at once. With an empty pile nothing
/// happens.
pub fn player_turn(player: &mut Player, deck: &mut Cards)
    ensures
        old(deck)@.len() == 0 ==> final(deck)@ == old(deck)@ && final(player)@ == old(player)@,
        old(deck)@.len() > 0 ==> final(deck)@ == old(deck)@.drop_last() && final(player)@
            == after_turn(old(player)@, old(deck)@.last()),
{
    let card = player.draw(deck);
    if let Some(card) = card {
        if let Some(stored_card) = player.store(card) {
            if let StoredCard::PairedCard(_) = stored_card {
                player.play(&stored_card)
            }
        }
    }
}

/// The players after a round. The first player draws the last card of the
/// pile, the second the card before it, and so on; a player for whom no
/// card is left stays as before.
pub open spec fn seats_after_round(seats: Seq<PlayerView>, deck: Seq<Card>) -> Seq<PlayerView> {
    Seq::new(
        seats.len(),
        |i: int|
            if i < deck.len() {
                after_turn(seats[i], deck[deck.len() - 1 - i])
            } else {
                seats[i]
            },
    )
}

/// The pile after a round: every player has drawn a card from its end, as
/// far as the cards went.
pub open spec fn deck_after_round(seats: Seq<PlayerView>, deck: Seq<Card>) -> Seq<Card> {
    if seats.len() <= deck.len() {
        deck.take(deck.len() - seats.len())
    } else {
        Seq::empty()
    }
}

/// One round: every player takes one turn, in the order of play.
pub fn play_round(players: &mut Players, deck: &mut Cards)
    ensures
        table(*old(players)).len() >= 1,
        table(*final(players)) == seats_after_round(table(*old(players)), old(deck)@),
        final(deck)@ == deck_after_round(table(*old(players)), old(deck)@),
{
    let ghost before = table(*players);
    let ghost pile = deck@;
    let seats = seats_mut(players);
    let count: usize = seats.len();
    let mut index: usize = 0;
    while index < count
        invariant
            index <= count,
            count == before.len(),
            seats@.len() == count,
            forall|i: int| 0 <= i < index ==> (#[trigger] seats@[i])@ == seats_after_round(before, pile)[i],
            forall|i: int| index <= i < count ==> (#[trigger] seats@[i])@ == before[i],
            deck@ == if index <= pile.len() {
                pile.take(pile.len() - index)
            } else {
                Seq::empty()
            },
        decreases count - index,
    {
        player_turn(&mut seats[index], deck);
        index = index + 1;
    }
    assert(table(*players) =~= seats_after_round(before, pile));
}

/// The game is over: a player has reached the winning score, or no card
/// is left to draw.
pub open spec fn game_over(seats: Seq<PlayerView>, deck: Seq<Card>) -> bool {
    any_winning(seats) || deck.len() == 0
}

/// The players at the end of the game that starts with the given players
/// and pile: rounds are played until the game is over.
pub open spec fn seats_at_end(seats: Seq<PlayerView>, deck: Seq<Card>) -> Seq<PlayerView>
    decreases deck.len(),
{
    if game_over(seats, deck) || seats.len() == 0 {
        seats
    } else {
        seats_at_end(seats_after_round(seats, deck), deck_after_round(seats, deck))
    }
}

/// The pile at the end of the game that starts with the given players and
/// pile.
pub open spec fn deck_at_end(seats: Seq<PlayerView>, deck: Seq<Card>) -> Seq<Card>
    decreases deck.len(),
{
    if game_over(seats, deck) || seats.len() == 0 {
        deck
    } else {
        deck_at_end(seats_after_round(seats, deck), deck_after_round(seats, deck))
    }
}

/// A game that is won is over: no round is played after a player has
/// reached the winning score.
pub proof fn lemma_won_game_is_over(seats: Seq<PlayerView>, deck: Seq<Card>, at: int)
    requires
        0 <= at < seats.len(),
        seats[at].score() >= WINNING_SCORE,
    ensures
        any_winning(seats),
        seats_at_end(seats, deck) == seats,
        deck_at_end(seats, deck) == deck,
{
}

/// While every score is below the winning score and cards are left, the
/// game goes on with another round.
pub proof fn lemma_game_goes_on(seats: Seq<PlayerView>, deck: Seq<Card>)
    requires
        seats.len() > 0,
        deck.len() > 0,
        forall|i: int| 0 <= i < seats.len() ==> (#[trigger] seats[i]).score() < WINNING_SCORE,
    ensures
        !any_winning(seats),
        seats_at_end(seats, deck) == seats_at_end(
            seats_after_round(seats, deck),
            deck_after_round(seats, deck),
        ),
        deck_at_end(seats, deck) == deck_at_end(
            seats_after_round(seats, deck),
            deck_after_round(seats, deck),
        ),
{
}

/// Plays the game to its end and hands back the winner.
///
/// Rounds are played while no player has reached the winning score. The
/// score is looked at between rounds only, so a round is always played to
/// its end. The game also ends when the pile is empty after a round: no
/// turn could change anything from then on. Either way the winner is the
/// player who leads at the end.
pub fn play_game<'a>(players: &'a mut Players, shuffled_deck: &mut Cards) -> (winner: &'a Player)
    ensures
        table(*final(players)) == seats_at_end(table(*old(players)), old(shuffled_deck)@),
        final(shuffled_deck)@ == deck_at_end(table(*old(players)), old(shuffled_deck)@),
        game_over(table(*final(players)), final(shuffled_deck)@),
        leads(table(*final(players)), leader(table(*final(players)))),
        *winner == roster(*final(players))[leader(table(*final(players)))],
{
    let ghost start = table(*players);
    let ghost pile = shuffled_deck@;
    while !is_any_player_winning(players) && shuffled_deck.len() > 0
        invariant
            seats_at_end(table(*players), shuffled_deck@) == seats_at_end(start, pile),
            deck_at_end(table(*players), shuffled_deck@) == deck_at_end(start, pile),
        decreases shuffled_deck@.len(),
    {
        play_round(players, shuffled_deck);
    }
    get_winning_player(players)
}

} // verus!
