//! The executable game state: cards, the three board lines, the players'
//! hands and the deck, with the legality checks and the three move
//! operations, each specified against the ghost model in `model`.

use vstd::prelude::*;

use crate::model::{
    captured, card_count, card_points, cnt, cur_player, distinct_cards, hi_of,
    lemma_board_cnt_empty, lemma_capture_propagation, lemma_card_points_bounds, lemma_cnt_member,
    lemma_draw_preserves_cards, lemma_iota_cnt, lemma_keep_len_unique, lemma_line_len_bound,
    lemma_line_points_bounds, hands_cnt, line_of, line_points, lo_of, m_can_draw, m_can_play, m_discard,
    m_draw, m_play, player_score, wf, without_num, PlayedModel, StateModel,
};
use rand::seq::SliceRandom;

verus! {

/// A card, identified by an integer in `[0, 54)`.
#[derive(Clone, Copy)]
pub struct Card {
    pub num: i32,
}

/// A card on the board together with the player currently credited with it.
#[derive(Clone, Copy)]
pub struct PlayedCard {
    pub card: Card,
    pub own: i32,
}

/// The aggregate game state: three board lines, one hand per player, the
/// undrawn deck in draw order, and the turn counter.
pub struct GameState {
    pub board: Vec<Vec<PlayedCard>>,
    pub hands: Vec<Vec<Card>>,
    pub deck: Vec<Card>,
    pub turn: usize,
}

impl View for Card {
    type V = int;

    open spec fn view(&self) -> int {
        self.num as int
    }
}

impl View for PlayedCard {
    type V = PlayedModel;

    open spec fn view(&self) -> PlayedModel {
        PlayedModel { num: self.card.num as int, own: self.own as int }
    }
}

/// The identifiers of a sequence of cards.
pub open spec fn cards_view(s: Seq<Card>) -> Seq<int> {
    s.map_values(|c: Card| c@)
}

/// The ghost image of one board line.
pub open spec fn line_view(s: Seq<PlayedCard>) -> Seq<PlayedModel> {
    s.map_values(|p: PlayedCard| p@)
}

impl View for GameState {
    type V = StateModel;

    open spec fn view(&self) -> StateModel {
        StateModel {
            board: self.board@.map_values(|line: Vec<PlayedCard>| line_view(line@)),
            hands: self.hands@.map_values(|h: Vec<Card>| cards_view(h@)),
            deck: cards_view(self.deck@),
            turn: self.turn as nat,
        }
    }
}

/// Sum of the point values of the cards of one line owned by `own`.
#[verifier::loop_isolation(false)]
fn line_value(line: &Vec<PlayedCard>, own: i32) -> (r: i32)
    requires
        line@.len() <= 54,
        forall|j: int| 0 <= j < line@.len() ==> 0 <= (#[trigger] line@[j]).card.num < 54,
    ensures
        r as int == line_points(line_view(line@), own as int),
        0 <= r <= 9 * line@.len(),
{
    let ghost lv = line_view(line@);
    let mut tot: i32 = 0;
    let mut j: usize = 0;
    while j < line.len()
        invariant
            j <= line@.len(),
            tot as int == line_points(lv.take(j as int), own as int),
            0 <= tot <= 9 * j,
        decreases line@.len() - j,
    {
        let pc = line[j];
        proof {
            assert(pc@ == lv[j as int]);
            assert(lv.take(j + 1).drop_last() =~= lv.take(j as int));
            lemma_card_points_bounds(pc.card.num as int);
        }
        if pc.own == own {
            let v = Card::value(&pc.card);
            tot = tot + v;
        }
        j = j + 1;
    }
    proof {
        assert(lv.take(line@.len() as int) =~= lv);
    }
    tot
}

/// An element-for-element copy of a card vector.
#[verifier::loop_isolation(false)]
fn clone_cards(v: &Vec<Card>) -> (r: Vec<Card>)
    ensures
        r@ == v@,
{
    let mut r: Vec<Card> = Vec::new();
    let mut j: usize = 0;
    while j < v.len()
        invariant
            j <= v@.len(),
            r@ == v@.take(j as int),
        decreases v@.len() - j,
    {
        r.push(v[j]);
        proof {
            assert(r@ =~= v@.take(j + 1));
        }
        j = j + 1;
    }
    proof {
        assert(v@.take(v@.len() as int) =~= v@);
    }
    r
}

/// An element-for-element copy of a line.
#[verifier::loop_isolation(false)]
fn clone_line(v: &Vec<PlayedCard>) -> (r: Vec<PlayedCard>)
    ensures
        r@ == v@,
{
    let mut r: Vec<PlayedCard> = Vec::new();
    let mut j: usize = 0;
    while j < v.len()
        invariant
            j <= v@.len(),
            r@ == v@.take(j as int),
        decreases v@.len() - j,
    {
        r.push(v[j]);
        proof {
            assert(r@ =~= v@.take(j + 1));
        }
        j = j + 1;
    }
    proof {
        assert(v@.take(v@.len() as int) =~= v@);
    }
    r
}

impl Clone for GameState {
    /// A structural copy: the copy's ghost image is the original's.
    #[verifier::loop_isolation(false)]
    fn clone(&self) -> (r: GameState)
        ensures
            r@ == self@,
    {
        let mut board: Vec<Vec<PlayedCard>> = Vec::new();
        let mut l: usize = 0;
        while l < self.board.len()
            invariant
                l <= self.board@.len(),
                board@.len() == l as int,
                forall|i: int| 0 <= i < l ==> (#[trigger] board@[i])@ == self.board@[i]@,
            decreases self.board@.len() - l,
        {
            board.push(clone_line(&self.board[l]));
            l = l + 1;
        }
        let mut hands: Vec<Vec<Card>> = Vec::new();
        let mut h: usize = 0;
        while h < self.hands.len()
            invariant
                h <= self.hands@.len(),
                hands@.len() == h as int,
                forall|i: int| 0 <= i < h ==> (#[trigger] hands@[i])@ == self.hands@[i]@,
            decreases self.hands@.len() - h,
        {
            hands.push(clone_cards(&self.hands[h]));
            h = h + 1;
        }
        let deck = clone_cards(&self.deck);
        let r = GameState { board, hands, deck, turn: self.turn };
        proof {
            assert forall|i: int| 0 <= i < r@.board.len() implies #[trigger] r@.board[i]
                == self@.board[i] by {
                assert(r.board@[i]@ == self.board@[i]@);
            }
            assert forall|i: int| 0 <= i < r@.hands.len() implies #[trigger] r@.hands[i]
                == self@.hands[i] by {
                assert(r.hands@[i]@ == self.hands@[i]@);
            }
            assert(r@ =~~= self@);
        }
        r
    }
}

/// Relies on rand's `SliceRandom::shuffle` with `thread_rng`: a
/// Fisher-Yates pass that permutes the deck in place, neither adding,
/// dropping nor altering a card.
#[verifier::external_body]
fn shuffle_cards(deck: &mut Vec<Card>)
    ensures
        final(deck)@.len() == old(deck)@.len(),
        forall|n: int| cnt(cards_view(final(deck)@), n) == cnt(cards_view(old(deck)@), n),
{
    deck.shuffle(&mut rand::thread_rng());
}

impl Card {
    /// Point worth of a card when scored.
    pub fn value(card: &Card) -> (r: i32)
        requires
            0 <= card.num < 54,
        ensures
            r as int == card_points(card@),
    {
        (card.num + 6 - 1) / 6
    }
}

impl GameState {
    /// Deals a fresh game from the given deck, in draw order: empty lines,
    /// thirteen consecutive cards to each player in seat order, the rest of
    /// the deck left undrawn, the turn counter at zero.
    #[verifier::loop_isolation(false)]
    pub fn new_from_deck(players: i32, deck: Vec<Card>) -> (r: GameState)
        requires
            1 <= players <= 4,
            13 * players <= deck.len(),
            forall|j: int| 0 <= j < deck@.len() ==> 0 <= (#[trigger] deck@[j]).num < 54,
        ensures
            wf(r@),
            r@.turn == 0,
            r@.hands.len() == players as int,
            r@.board.len() == 3,
            forall|l: int| 0 <= l < 3 ==> (#[trigger] r@.board[l]).len() == 0,
            forall|j: int|
                0 <= j < players ==> #[trigger] r@.hands[j] == cards_view(deck@).subrange(
                    13 * j,
                    13 * j + 13,
                ),
            r@.deck == cards_view(deck@).subrange(13 * players as int, deck@.len() as int),
            forall|n: int| card_count(r@, n) == cnt(cards_view(deck@), n),
    {
        let ghost fd = cards_view(deck@);
        let mut gst = GameState { board: Vec::new(), hands: Vec::new(), deck, turn: 0 };
        gst.board.push(Vec::new());
        gst.board.push(Vec::new());
        gst.board.push(Vec::new());
        proof {
            assert(gst@.deck =~= fd.subrange(0, fd.len() as int));
            assert forall|n: int| true implies card_count(gst@, n) == cnt(fd, n) by {
                lemma_board_cnt_empty(gst@.board, n);
            }
        }
        let mut j: i32 = 0;
        while j < players
            invariant
                0 <= j <= players,
                gst@.turn == 0,
                gst@.board.len() == 3,
                forall|l: int| 0 <= l < 3 ==> (#[trigger] gst@.board[l]).len() == 0,
                gst@.hands.len() == j as int,
                forall|h: int|
                    0 <= h < j ==> #[trigger] gst@.hands[h] == fd.subrange(13 * h, 13 * h + 13),
                gst@.deck == fd.subrange(13 * j as int, fd.len() as int),
                forall|n: int| card_count(gst@, n) == cnt(fd, n),
            decreases players - j,
        {
            let ghost hs0 = gst@.hands;
            gst.hands.push(Vec::new());
            proof {
                assert(gst@.hands.drop_last() =~= hs0);
                assert(gst@.hands[j as int] =~= fd.subrange(13 * j as int, 13 * j as int));
                assert forall|h: int| 0 <= h < j implies #[trigger] gst@.hands[h] == fd.subrange(
                    13 * h,
                    13 * h + 13,
                ) by {
                    assert(gst@.hands[h] == hs0[h]);
                }
                assert forall|n: int| true implies card_count(gst@, n) == cnt(fd, n) by {
                    assert(gst@.hands.last().len() == 0);
                    assert(cnt(gst@.hands.last(), n) == 0);
                    assert(hands_cnt(gst@.hands, n) == hands_cnt(hs0, n));
                }
            }
            let mut i: usize = 0;
            while i < 13
                invariant
                    0 <= i <= 13,
                    0 <= j < players,
                    gst@.turn == 0,
                    gst@.board.len() == 3,
                    forall|l: int| 0 <= l < 3 ==> (#[trigger] gst@.board[l]).len() == 0,
                    gst@.hands.len() == j + 1,
                    forall|h: int|
                        0 <= h < j ==> #[trigger] gst@.hands[h] == fd.subrange(
                            13 * h,
                            13 * h + 13,
                        ),
                    gst@.hands[j as int] == fd.subrange(13 * j as int, 13 * j + i),
                    gst@.deck == fd.subrange(13 * j + i, fd.len() as int),
                    forall|n: int| card_count(gst@, n) == cnt(fd, n),
                decreases 13 - i,
            {
                let ghost before = gst@;
                proof {
                    assert(gst@.deck.len() > 0);
                    assert(gst@.deck[0] == fd[13 * j + i]);
                }
                gst.draw(j);
                proof {
                    lemma_draw_preserves_cards(before, j as int);
                    assert(gst@.hands[j as int] =~= fd.subrange(13 * j as int, 13 * j + i + 1));
                    assert(gst@.deck =~= fd.subrange(13 * j + i + 1, fd.len() as int));
                }
                i = i + 1;
            }
            j = j + 1;
        }
        proof {
            assert forall|h: int, jj: int|
                0 <= h < gst@.hands.len() && 0 <= jj < gst@.hands[h].len() implies 0 <= #[trigger] gst@.hands[h][jj]
                < 54 by {
                assert(gst@.hands[h] == fd.subrange(13 * h, 13 * h + 13));
            }
        }
        gst
    }

    /// A freshly dealt game: the full 54-card deck shuffled, thirteen cards
    /// dealt to each of `players` hands, empty lines, the turn counter at
    /// zero.  Every card identifier occurs exactly once across the state.
    #[verifier::loop_isolation(false)]
    pub fn new(players: i32) -> (r: GameState)
        requires
            1 <= players <= 4,
        ensures
            wf(r@),
            distinct_cards(r@),
            r@.turn == 0,
            r@.hands.len() == players as int,
            forall|j: int| 0 <= j < players ==> (#[trigger] r@.hands[j]).len() == 13,
            r@.deck.len() == 54 - 13 * players,
            r@.board.len() == 3,
            forall|l: int| 0 <= l < 3 ==> (#[trigger] r@.board[l]).len() == 0,
            forall|n: int|
                card_count(r@, n) == if 0 <= n < 54 {
                    1nat
                } else {
                    0nat
                },
    {
        let mut deck: Vec<Card> = Vec::new();
        let mut i: i32 = 0;
        while i < 54
            invariant
                0 <= i <= 54,
                deck@.len() == i as int,
                forall|j: int| 0 <= j < i ==> (#[trigger] deck@[j]).num == j,
            decreases 54 - i,
        {
            deck.push(Card { num: i });
            i = i + 1;
        }
        proof {
            assert forall|j: int| 0 <= j < cards_view(deck@).len() implies #[trigger] cards_view(
                deck@,
            )[j] == j by {
                assert(cards_view(deck@)[j] == (deck@[j])@);
            }
            assert forall|n: int| true implies cnt(cards_view(deck@), n) == (if 0 <= n < 54 {
                1nat
            } else {
                0nat
            }) by {
                lemma_iota_cnt(cards_view(deck@), n);
            }
        }
        shuffle_cards(&mut deck);
        proof {
            assert forall|j: int| 0 <= j < deck@.len() implies 0 <= (#[trigger] deck@[j]).num
                < 54 by {
                lemma_cnt_member(cards_view(deck@), j);
                assert(cards_view(deck@)[j] == (deck@[j])@);
            }
        }
        let gst = Self::new_from_deck(players, deck);
        proof {
            assert forall|j: int| 0 <= j < players implies (#[trigger] gst@.hands[j]).len()
                == 13 by {
                assert(gst@.hands[j] == cards_view(deck@).subrange(13 * j, 13 * j + 13));
            }
        }
        gst
    }

    /// The player whose move it is.
    pub fn get_current_player(&self) -> (r: usize)
        requires
            self.hands.len() >= 1,
        ensures
            r as int == cur_player(self@),
            r < self.hands.len(),
    {
        self.turn % self.hands.len()
    }

    /// Whether a draw is possible; the unused player argument is kept for
    /// symmetry with the other moves.
    pub fn can_draw(&self, own: i32) -> (r: bool)
        ensures
            r == m_can_draw(self@),
    {
        self.deck.len() > 0
    }

    /// The `(lo, hi)` boundary pair of a line: `hi` is the last card's
    /// identifier (`0` for an empty line), `lo` the nearest-from-tail
    /// identifier strictly below `hi` (`-1` when there is none).
    #[verifier::loop_isolation(false)]
    pub fn lohi(&self, line: usize) -> (r: (i32, i32))
        requires
            wf(self@),
            line < 3,
        ensures
            r.0 as int == lo_of(self@.board[line as int], hi_of(self@.board[line as int])),
            r.1 as int == hi_of(self@.board[line as int]),
    {
        let ghost lv = self@.board[line as int];
        let len = self.board[line].len();
        let hi: i32 = if len == 0 {
            0
        } else {
            self.board[line][len - 1].card.num
        };
        assert(hi as int == hi_of(lv));
        proof {
            assert(lv.take(len as int) =~= lv);
        }
        let mut lo: i32 = -1;
        let mut j: usize = len;
        while j > 0
            invariant
                j <= len,
                lo == -1i32,
                lo_of(lv, hi as int) == lo_of(lv.take(j as int), hi as int),
            decreases j,
        {
            j = j - 1;
            let pc = self.board[line][j];
            assert(pc@ == lv[j as int]);
            proof {
                assert(lv.take(j + 1).drop_last() =~= lv.take(j as int));
                assert(lv.take(j + 1).last() == lv[j as int]);
            }
            if pc.card.num < hi {
                lo = pc.card.num;
                assert(lo_of(lv.take(j + 1), hi as int) == pc.card.num as int);
                return (lo, hi);
            }
        }
        assert(lv.take(0) =~= Seq::<PlayedModel>::empty());
        (lo, hi)
    }

    /// Whether `own` may legally play `num`: an empty line takes anything;
    /// otherwise the card must extend the line upward, or fall in the
    /// contested band of a trailing run the player does not already own.
    pub fn can_play(&self, own: i32, num: i32) -> (r: bool)
        requires
            wf(self@),
            0 <= num < 54,
        ensures
            r == m_can_play(self@, own as int, num as int),
    {
        let line_index: usize = (num / 18) as usize;
        if self.board[line_index].len() == 0 {
            true
        } else {
            let (lo, hi) = self.lohi(line_index);
            if num > hi {
                true
            } else if num > lo {
                let last = self.board[line_index][self.board[line_index].len() - 1];
                assert(last@ == self@.board[line_index as int].last());
                last.own != own
            } else {
                false
            }
        }
    }

    /// Removes the front card of the deck and appends it to `own`'s hand.
    pub fn draw(&mut self, own: i32)
        requires
            0 <= own < old(self).hands.len(),
            old(self).deck.len() > 0,
        ensures
            final(self)@ == m_draw(old(self)@, own as int),
    {
        let own_index: usize = own as usize;
        let card = self.deck.remove(0);
        self.hands[own_index].push(card);
        proof {
            assert(cards_view(self.deck@) =~= old(self)@.deck.drop_first());
            assert(cards_view(self.hands@[own_index as int]@) =~= old(self)@.hands[own as int]
                .push(old(self)@.deck[0]));
            assert(final(self)@ =~~= m_draw(old(self)@, own as int));
        }
    }

    /// Plays `num` for `own`: the card leaves the hand, the trailing run of
    /// strictly greater cards on its line is captured by the player, and the
    /// card is appended to that line.
    #[verifier::loop_isolation(false)]
    pub fn play(&mut self, own: i32, num: i32)
        requires
            0 <= own < old(self).hands.len(),
            0 <= num < 54,
            old(self).board.len() == 3,
        ensures
            final(self)@ == m_play(old(self)@, own as int, num as int),
    {
        self.discard(own, num);
        let line_index: usize = (num / 18) as usize;
        let ghost md = m_discard(old(self)@, own as int, num as int);
        let ghost lv = self@.board[line_index as int];
        proof {
            assert(md.board == old(self)@.board);
            assert(line_of(num as int) == line_index as int);
            assert(lv == md.board[line_of(num as int)]);
            assert(self.board@.len() == self@.board.len());
        }
        let len = self.board[line_index].len();
        let mut k: usize = len;
        while k > 0 && self.board[line_index][k - 1].card.num > num
            invariant
                k <= len,
                forall|j: int| k <= j < len ==> (#[trigger] lv[j]).num > num as int,
            decreases k,
        {
            k = k - 1;
            assert((self.board@[line_index as int]@[k as int])@ == lv[k as int]);
        }
        proof {
            lemma_keep_len_unique(lv, num as int, k as int);
            lemma_capture_propagation(lv, own as int, num as int);
        }
        let ghost cap = captured(lv, own as int, num as int);
        let mut newline: Vec<PlayedCard> = Vec::new();
        let mut j: usize = 0;
        while j < len
            invariant
                j <= len,
                newline@.len() == j,
                forall|i: int| 0 <= i < j ==> (#[trigger] newline@[i])@ == cap[i],
            decreases len - j,
        {
            let pc = self.board[line_index][j];
            proof {
                assert(pc@ == lv[j as int]);
                assert(cap[j as int] == captured(lv, own as int, num as int)[j as int]);
            }
            if j < k {
                newline.push(pc);
            } else {
                newline.push(PlayedCard { card: pc.card, own });
            }
            j = j + 1;
        }
        newline.push(PlayedCard { card: Card { num }, own });
        self.board[line_index] = newline;
        proof {
            assert(line_view(self.board@[line_index as int]@) =~= cap.push(
                PlayedModel { num: num as int, own: own as int },
            ));
            assert(final(self)@ =~~= m_play(old(self)@, own as int, num as int));
        }
    }

    /// Total captured points of `own`: the sum of the values of the played
    /// cards the player currently owns, across the three lines.
    pub fn value(&self, own: i32) -> (r: i32)
        requires
            wf(self@),
            distinct_cards(self@),
        ensures
            r as int == player_score(self@, own as int),
            0 <= r <= 1458,
    {
        proof {
            lemma_line_len_bound(self@, 0);
            lemma_line_len_bound(self@, 1);
            lemma_line_len_bound(self@, 2);
            assert(self.board@.len() == self@.board.len());
            assert forall|l: int, j: int|
                0 <= l < 3 && 0 <= j < self.board@[l]@.len() implies 0 <= (
            #[trigger] self.board@[l]@[j]).card.num < 54 by {
                assert((self.board@[l]@[j])@ == self@.board[l][j]);
            }
            lemma_line_points_bounds(self@.board[0], own as int);
            lemma_line_points_bounds(self@.board[1], own as int);
            lemma_line_points_bounds(self@.board[2], own as int);
        }
        let v0 = line_value(&self.board[0], own);
        let v1 = line_value(&self.board[1], own);
        let v2 = line_value(&self.board[2], own);
        v0 + v1 + v2
    }

    /// Removes every card of identifier `num` from `own`'s hand; a no-op if
    /// the hand does not hold it.
    #[verifier::loop_isolation(false)]
    pub fn discard(&mut self, own: i32, num: i32)
        requires
            0 <= own < old(self).hands.len(),
        ensures
            final(self)@ == m_discard(old(self)@, own as int, num as int),
    {
        let own_index: usize = own as usize;
        let ghost hv = old(self)@.hands[own as int];
        let mut kept: Vec<Card> = Vec::new();
        let n = self.hands[own_index].len();
        let mut j: usize = 0;
        while j < n
            invariant
                j <= n,
                self == old(self),
                cards_view(kept@) == without_num(hv.take(j as int), num as int),
            decreases n - j,
        {
            let c = self.hands[own_index][j];
            proof {
                assert(c@ == hv[j as int]);
                assert(hv.take(j + 1).drop_last() =~= hv.take(j as int));
                assert(hv.take(j + 1).last() == hv[j as int]);
            }
            if c.num != num {
                kept.push(c);
                assert(cards_view(kept@) =~= without_num(hv.take(j + 1), num as int));
            }
            j = j + 1;
        }
        proof {
            assert(hv.take(n as int) =~= hv);
        }
        self.hands[own_index] = kept;
        proof {
            assert(final(self)@ =~~= m_discard(old(self)@, own as int, num as int));
        }
    }
}

} // verus!
