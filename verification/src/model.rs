//! The mathematical model of the game: a ghost image of the engine state,
//! the transition functions for the three moves, legality, scoring, and the
//! card-conservation theory that every contract in the crate speaks through.

use vstd::prelude::*;

verus! {

/// Ghost image of a played card: its identifier and the player currently
/// credited with its points.
pub ghost struct PlayedModel {
    pub num: int,
    pub own: int,
}

/// Ghost image of a whole game state: three board lines, one hand per
/// player, the undrawn deck in draw order, and the turn counter.
#[verifier::ext_equal]
pub ghost struct StateModel {
    pub board: Seq<Seq<PlayedModel>>,
    pub hands: Seq<Seq<int>>,
    pub deck: Seq<int>,
    pub turn: nat,
}

/// Point worth of a card: the ceiling of (num + 1) / 6.
pub open spec fn card_points(num: int) -> int {
    (num + 5) / 6
}

/// Which of the three board lines a card belongs to.
pub open spec fn line_of(num: int) -> int {
    num / 18
}

/// The player whose move it is.
pub open spec fn cur_player(m: StateModel) -> int {
    (m.turn as int) % (m.hands.len() as int)
}

/// Structural well-formedness: three lines, at least one player, every card
/// identifier in range and on the line it belongs to, every owner a player.
pub open spec fn wf(m: StateModel) -> bool {
    &&& m.board.len() == 3
    &&& 1 <= m.hands.len() <= 54
    &&& forall|l: int, j: int|
        0 <= l < 3 && 0 <= j < m.board[l].len() ==> {
            &&& 0 <= (#[trigger] m.board[l][j]).num < 54
            &&& line_of(m.board[l][j].num) == l
            &&& 0 <= m.board[l][j].own < m.hands.len()
        }
    &&& forall|h: int, j: int|
        0 <= h < m.hands.len() && 0 <= j < m.hands[h].len() ==> 0 <= #[trigger] m.hands[h][j] < 54
    &&& forall|j: int| 0 <= j < m.deck.len() ==> 0 <= #[trigger] m.deck[j] < 54
}

/// A hand with every card of identifier `num` removed, order preserved.
pub open spec fn without_num(h: Seq<int>, num: int) -> Seq<int>
    decreases h.len(),
{
    if h.len() == 0 {
        h
    } else if h.last() == num {
        without_num(h.drop_last(), num)
    } else {
        without_num(h.drop_last(), num).push(h.last())
    }
}

/// The state after `own` folds every copy of `num` from their hand.
pub open spec fn m_discard(m: StateModel, own: int, num: int) -> StateModel {
    StateModel {
        board: m.board,
        hands: m.hands.update(own, without_num(m.hands[own], num)),
        deck: m.deck,
        turn: m.turn,
    }
}

/// The state after `own` draws the front card of the deck.
pub open spec fn m_draw(m: StateModel, own: int) -> StateModel {
    StateModel {
        board: m.board,
        hands: m.hands.update(own, m.hands[own].push(m.deck[0])),
        deck: m.deck.drop_first(),
        turn: m.turn,
    }
}

/// The capture rule: scanning the line from its tail, every trailing card
/// whose identifier is strictly greater than `num` is reassigned to `own`;
/// the scan stops at the first card that is not greater.
pub open spec fn captured(line: Seq<PlayedModel>, own: int, num: int) -> Seq<PlayedModel>
    decreases line.len(),
{
    if line.len() == 0 {
        line
    } else if line.last().num > num {
        captured(line.drop_last(), own, num).push(PlayedModel { num: line.last().num, own })
    } else {
        line
    }
}

/// The length of the prefix of `line` that the capture scan leaves untouched.
pub open spec fn keep_len(line: Seq<PlayedModel>, num: int) -> int
    decreases line.len(),
{
    if line.len() == 0 {
        0
    } else if line.last().num > num {
        keep_len(line.drop_last(), num)
    } else {
        line.len() as int
    }
}

/// The state after `own` plays `num`: the card leaves their hand, the
/// trailing run of greater cards on its line changes owner, and the card is
/// appended to that line.
pub open spec fn m_play(m: StateModel, own: int, num: int) -> StateModel {
    let md = m_discard(m, own, num);
    let l = line_of(num);
    StateModel {
        board: md.board.update(
            l,
            captured(md.board[l], own, num).push(PlayedModel { num, own }),
        ),
        hands: md.hands,
        deck: md.deck,
        turn: md.turn,
    }
}

/// The same state one turn later.
pub open spec fn bump(m: StateModel) -> StateModel {
    StateModel { board: m.board, hands: m.hands, deck: m.deck, turn: m.turn + 1 }
}

/// The identifier of the last card of a line, `0` for an empty line.
pub open spec fn hi_of(line: Seq<PlayedModel>) -> int {
    if line.len() == 0 {
        0
    } else {
        line.last().num
    }
}

/// The identifier of the nearest-from-tail card strictly below `hi`,
/// `-1` if every card of the line is at least `hi`.
pub open spec fn lo_of(line: Seq<PlayedModel>, hi: int) -> int
    decreases line.len(),
{
    if line.len() == 0 {
        -1
    } else if line.last().num < hi {
        line.last().num
    } else {
        lo_of(line.drop_last(), hi)
    }
}

/// Legality of playing `num`: an empty line takes anything; otherwise the
/// card either extends the line upward, or falls in the contested band
/// `(lo, hi]` and the trailing run is not already owned by the player.
pub open spec fn m_can_play(m: StateModel, own: int, num: int) -> bool {
    let line = m.board[line_of(num)];
    if line.len() == 0 {
        true
    } else {
        let hi = hi_of(line);
        let lo = lo_of(line, hi);
        if num > hi {
            true
        } else if num > lo {
            line.last().own != own
        } else {
            false
        }
    }
}

/// Drawing is possible exactly while the deck is non-empty.
pub open spec fn m_can_draw(m: StateModel) -> bool {
    m.deck.len() > 0
}

/// Points of the cards of one line currently owned by `own`.
pub open spec fn line_points(line: Seq<PlayedModel>, own: int) -> int
    decreases line.len(),
{
    if line.len() == 0 {
        0
    } else {
        line_points(line.drop_last(), own) + if line.last().own == own {
            card_points(line.last().num)
        } else {
            0
        }
    }
}

/// Total captured points of `own` across the three lines.
pub open spec fn player_score(m: StateModel, own: int) -> int {
    line_points(m.board[0], own) + line_points(m.board[1], own) + line_points(m.board[2], own)
}

/// The best score among the players `p < n` other than `cur`; the sentinel
/// `i32::MIN` when no such player is in range.
pub open spec fn rivals_best(m: StateModel, cur: int, n: nat) -> int
    decreases n,
{
    if n == 0 {
        i32::MIN as int
    } else {
        let rest = rivals_best(m, cur, (n - 1) as nat);
        if n - 1 != cur && player_score(m, n - 1) > rest {
            player_score(m, n - 1)
        } else {
            rest
        }
    }
}

/// Relative-advantage score of a state from its current player's view:
/// their total minus the best rival total.
pub open spec fn m_eval(m: StateModel) -> int {
    player_score(m, cur_player(m)) - rivals_best(m, cur_player(m), m.hands.len())
}

/// How many cards of identifier `n` a sequence holds.
pub open spec fn cnt(s: Seq<int>, n: int) -> nat
    decreases s.len(),
{
    if s.len() == 0 {
        0
    } else {
        cnt(s.drop_last(), n) + if s.last() == n {
            1nat
        } else {
            0nat
        }
    }
}

/// How many cards of identifier `n` a board line holds.
pub open spec fn line_cnt(line: Seq<PlayedModel>, n: int) -> nat
    decreases line.len(),
{
    if line.len() == 0 {
        0
    } else {
        line_cnt(line.drop_last(), n) + if line.last().num == n {
            1nat
        } else {
            0nat
        }
    }
}

/// How many cards of identifier `n` all hands together hold.
pub open spec fn hands_cnt(hs: Seq<Seq<int>>, n: int) -> nat
    decreases hs.len(),
{
    if hs.len() == 0 {
        0
    } else {
        hands_cnt(hs.drop_last(), n) + cnt(hs.last(), n)
    }
}

/// How many cards of identifier `n` the whole board holds.
pub open spec fn board_cnt(b: Seq<Seq<PlayedModel>>, n: int) -> nat
    decreases b.len(),
{
    if b.len() == 0 {
        0
    } else {
        board_cnt(b.drop_last(), n) + line_cnt(b.last(), n)
    }
}

/// How many cards of identifier `n` the whole state holds, over deck, hands
/// and board together.
pub open spec fn card_count(m: StateModel, n: int) -> nat {
    cnt(m.deck, n) + hands_cnt(m.hands, n) + board_cnt(m.board, n)
}

/// No card identifier occurs twice anywhere in the state.
pub open spec fn distinct_cards(m: StateModel) -> bool {
    forall|n: int| card_count(m, n) <= 1
}

/// Appending a card to a sequence raises its count by one and no other.
pub proof fn lemma_cnt_push(s: Seq<int>, x: int, n: int)
    ensures
        cnt(s.push(x), n) == cnt(s, n) + if x == n {
            1nat
        } else {
            0nat
        },
{
    assert(s.push(x).drop_last() =~= s);
}

/// A count splits off the front element.
pub proof fn lemma_cnt_drop_first(s: Seq<int>, n: int)
    requires
        s.len() > 0,
    ensures
        cnt(s, n) == cnt(s.drop_first(), n) + if s[0] == n {
            1nat
        } else {
            0nat
        },
    decreases s.len(),
{
    if s.len() == 1 {
        assert(s.drop_first() =~= Seq::<int>::empty());
        assert(s.drop_last() =~= Seq::<int>::empty());
    } else {
        let t = s.drop_last();
        lemma_cnt_drop_first(t, n);
        assert(t.drop_first() =~= s.drop_first().drop_last());
        assert(s.drop_first().last() == s.last());
    }
}

/// Every element of a sequence is counted at least once.
pub proof fn lemma_cnt_member(s: Seq<int>, j: int)
    requires
        0 <= j < s.len(),
    ensures
        cnt(s, s[j]) >= 1,
    decreases s.len(),
{
    if j == s.len() - 1 {
    } else {
        lemma_cnt_member(s.drop_last(), j);
    }
}

/// Appending to a line raises the count of its identifier by one.
pub proof fn lemma_line_cnt_push(line: Seq<PlayedModel>, p: PlayedModel, n: int)
    ensures
        line_cnt(line.push(p), n) == line_cnt(line, n) + if p.num == n {
            1nat
        } else {
            0nat
        },
{
    assert(line.push(p).drop_last() =~= line);
}

/// Folding removes exactly the copies of the folded identifier.
pub proof fn lemma_without_num_cnt(h: Seq<int>, num: int, n: int)
    ensures
        cnt(without_num(h, num), n) == if n == num {
            0nat
        } else {
            cnt(h, n)
        },
    decreases h.len(),
{
    if h.len() == 0 {
    } else {
        lemma_without_num_cnt(h.drop_last(), num, n);
        if h.last() != num {
            lemma_cnt_push(without_num(h.drop_last(), num), h.last(), n);
        }
    }
}

/// Folding keeps every remaining card in range.
pub proof fn lemma_without_num_range(h: Seq<int>, num: int)
    requires
        forall|j: int| 0 <= j < h.len() ==> 0 <= #[trigger] h[j] < 54,
    ensures
        forall|j: int|
            0 <= j < without_num(h, num).len() ==> 0 <= #[trigger] without_num(h, num)[j] < 54,
    decreases h.len(),
{
    if h.len() == 0 {
    } else {
        assert(forall|j: int| 0 <= j < h.drop_last().len() ==> 0 <= #[trigger] h.drop_last()[j] < 54);
        lemma_without_num_range(h.drop_last(), num);
        let w = without_num(h.drop_last(), num);
        assert forall|j: int| 0 <= j < without_num(h, num).len() implies 0 <= #[trigger] without_num(
            h,
            num,
        )[j] < 54 by {
            if h.last() != num {
                if j < w.len() {
                    assert(without_num(h, num)[j] == w[j]);
                } else {
                    assert(without_num(h, num)[j] == h.last());
                }
            } else {
                assert(without_num(h, num) == w);
            }
        }
    }
}

/// Replacing one hand trades its count for the new hand's count.
pub proof fn lemma_hands_cnt_update(hs: Seq<Seq<int>>, i: int, h2: Seq<int>, n: int)
    requires
        0 <= i < hs.len(),
    ensures
        hands_cnt(hs.update(i, h2), n) + cnt(hs[i], n) == hands_cnt(hs, n) + cnt(h2, n),
    decreases hs.len(),
{
    if i == hs.len() - 1 {
        assert(hs.update(i, h2).drop_last() =~= hs.drop_last());
    } else {
        lemma_hands_cnt_update(hs.drop_last(), i, h2, n);
        assert(hs.update(i, h2).drop_last() =~= hs.drop_last().update(i, h2));
    }
}

/// Replacing one line trades its count for the new line's count.
pub proof fn lemma_board_cnt_update(b: Seq<Seq<PlayedModel>>, i: int, l2: Seq<PlayedModel>, n: int)
    requires
        0 <= i < b.len(),
    ensures
        board_cnt(b.update(i, l2), n) + line_cnt(b[i], n) == board_cnt(b, n) + line_cnt(l2, n),
    decreases b.len(),
{
    if i == b.len() - 1 {
        assert(b.update(i, l2).drop_last() =~= b.drop_last());
    } else {
        lemma_board_cnt_update(b.drop_last(), i, l2, n);
        assert(b.update(i, l2).drop_last() =~= b.drop_last().update(i, l2));
    }
}

/// A capture reassigns owners only: every identifier keeps its count.
pub proof fn lemma_captured_cnt(line: Seq<PlayedModel>, own: int, num: int, n: int)
    ensures
        line_cnt(captured(line, own, num), n) == line_cnt(line, n),
    decreases line.len(),
{
    if line.len() == 0 {
    } else if line.last().num > num {
        lemma_captured_cnt(line.drop_last(), own, num, n);
        lemma_line_cnt_push(
            captured(line.drop_last(), own, num),
            PlayedModel { num: line.last().num, own },
            n,
        );
    } else {
    }
}

/// One hand's count never exceeds the count over all hands.
pub proof fn lemma_hands_cnt_at(hs: Seq<Seq<int>>, i: int, n: int)
    requires
        0 <= i < hs.len(),
    ensures
        cnt(hs[i], n) <= hands_cnt(hs, n),
    decreases hs.len(),
{
    if i == hs.len() - 1 {
    } else {
        lemma_hands_cnt_at(hs.drop_last(), i, n);
    }
}

/// One line's count never exceeds the count over the whole board.
pub proof fn lemma_board_cnt_at(b: Seq<Seq<PlayedModel>>, i: int, n: int)
    requires
        0 <= i < b.len(),
    ensures
        line_cnt(b[i], n) <= board_cnt(b, n),
    decreases b.len(),
{
    if i == b.len() - 1 {
    } else {
        lemma_board_cnt_at(b.drop_last(), i, n);
    }
}

/// A fold removes exactly the folded card's copies from the state's cards
/// and touches nothing else.
pub proof fn lemma_discard_cards(m: StateModel, own: int, num: int)
    requires
        0 <= own < m.hands.len(),
    ensures
        forall|n: int|
            n != num ==> card_count(m_discard(m, own, num), n) == card_count(m, n),
        card_count(m_discard(m, own, num), num) + cnt(m.hands[own], num) == card_count(m, num),
{
    let md = m_discard(m, own, num);
    assert forall|n: int| true implies card_count(md, n) + cnt(m.hands[own], n) == card_count(m, n)
        + cnt(without_num(m.hands[own], num), n) by {
        lemma_hands_cnt_update(m.hands, own, without_num(m.hands[own], num), n);
    }
    assert forall|n: int| n != num implies card_count(md, n) == card_count(m, n) by {
        lemma_without_num_cnt(m.hands[own], num, n);
    }
    lemma_without_num_cnt(m.hands[own], num, num);
}

/// Drawing moves one card from the deck to a hand: every identifier keeps
/// its count over the whole state.
pub proof fn lemma_draw_preserves_cards(m: StateModel, own: int)
    requires
        0 <= own < m.hands.len(),
        m.deck.len() > 0,
    ensures
        forall|n: int| card_count(m_draw(m, own), n) == card_count(m, n),
{
    let md = m_draw(m, own);
    assert forall|n: int| true implies card_count(md, n) == card_count(m, n) by {
        lemma_cnt_drop_first(m.deck, n);
        lemma_hands_cnt_update(m.hands, own, m.hands[own].push(m.deck[0]), n);
        lemma_cnt_push(m.hands[own], m.deck[0], n);
    }
}

/// Playing a card the hand holds exactly once moves it from the hand to its
/// line: every identifier keeps its count over the whole state.
pub proof fn lemma_play_preserves_cards(m: StateModel, own: int, num: int)
    requires
        0 <= own < m.hands.len(),
        0 <= num < 54,
        m.board.len() == 3,
        cnt(m.hands[own], num) == 1,
    ensures
        forall|n: int| card_count(m_play(m, own, num), n) == card_count(m, n),
{
    let md = m_discard(m, own, num);
    let l = line_of(num);
    let mp = m_play(m, own, num);
    lemma_discard_cards(m, own, num);
    assert forall|n: int| true implies card_count(mp, n) == card_count(m, n) by {
        lemma_board_cnt_update(
            md.board,
            l,
            captured(md.board[l], own, num).push(PlayedModel { num, own }),
            n,
        );
        lemma_captured_cnt(md.board[l], own, num, n);
        lemma_line_cnt_push(captured(md.board[l], own, num), PlayedModel { num, own }, n);
        lemma_without_num_cnt(m.hands[own], num, n);
    }
}

/// A fold preserves structural well-formedness.
pub proof fn lemma_discard_wf(m: StateModel, own: int, num: int)
    requires
        wf(m),
        0 <= own < m.hands.len(),
    ensures
        wf(m_discard(m, own, num)),
{
    assert(forall|j: int| 0 <= j < m.hands[own].len() ==> 0 <= #[trigger] m.hands[own][j] < 54);
    lemma_without_num_range(m.hands[own], num);
}

/// A draw preserves structural well-formedness.
pub proof fn lemma_draw_wf(m: StateModel, own: int)
    requires
        wf(m),
        0 <= own < m.hands.len(),
        m.deck.len() > 0,
    ensures
        wf(m_draw(m, own)),
{
}

/// A play preserves structural well-formedness.
pub proof fn lemma_play_wf(m: StateModel, own: int, num: int)
    requires
        wf(m),
        0 <= own < m.hands.len(),
        0 <= num < 54,
    ensures
        wf(m_play(m, own, num)),
{
    lemma_discard_wf(m, own, num);
    let md = m_discard(m, own, num);
    let l = line_of(num);
    let cap = captured(md.board[l], own, num);
    lemma_capture_propagation(md.board[l], own, num);
    let mp = m_play(m, own, num);
    assert forall|j: int| 0 <= j < cap.len() implies 0 <= (#[trigger] cap[j]).num < 54 && line_of(
        cap[j].num,
    ) == l && 0 <= cap[j].own < m.hands.len() by {
        if j >= keep_len(md.board[l], num) {
            assert(cap[j] == (PlayedModel { num: md.board[l][j].num, own }));
        }
    }
    assert(mp.board[l] == cap.push(PlayedModel { num, own }));
}

/// Points of one card lie between 0 and 9.
pub proof fn lemma_card_points_bounds(num: int)
    requires
        0 <= num < 54,
    ensures
        0 <= card_points(num) <= 9,
{
}

/// A line's points for one player lie between 0 and 9 per card.
pub proof fn lemma_line_points_bounds(line: Seq<PlayedModel>, own: int)
    requires
        forall|j: int| 0 <= j < line.len() ==> 0 <= (#[trigger] line[j]).num < 54,
    ensures
        0 <= line_points(line, own) <= 9 * line.len(),
    decreases line.len(),
{
    if line.len() == 0 {
    } else {
        lemma_line_points_bounds(line.drop_last(), own);
    }
}

/// How many cards of a sequence fall in the identifier range `[lo, hi)`.
pub open spec fn range_cnt(s: Seq<int>, lo: int, hi: int) -> nat
    decreases hi - lo,
{
    if hi <= lo {
        0
    } else {
        cnt(s, hi - 1) + range_cnt(s, lo, hi - 1)
    }
}

/// Appending a card raises the range count by at most one.
pub proof fn lemma_range_cnt_push(s: Seq<int>, x: int, lo: int, hi: int)
    ensures
        range_cnt(s.push(x), lo, hi) == range_cnt(s, lo, hi) + if lo <= x < hi {
            1nat
        } else {
            0nat
        },
    decreases hi - lo,
{
    if hi <= lo {
    } else {
        lemma_range_cnt_push(s, x, lo, hi - 1);
        lemma_cnt_push(s, x, hi - 1);
    }
}

/// A sequence of identifiers inside `[lo, hi)` is counted whole by its
/// range count.
pub proof fn lemma_len_is_range_cnt(s: Seq<int>, lo: int, hi: int)
    requires
        forall|j: int| 0 <= j < s.len() ==> lo <= #[trigger] s[j] < hi,
    ensures
        s.len() == range_cnt(s, lo, hi),
    decreases s.len(),
{
    if s.len() == 0 {
        assert forall|n: int| true implies cnt(s, n) == 0nat by {}
        lemma_range_cnt_empty(s, lo, hi);
    } else {
        let t = s.drop_last();
        assert(forall|j: int| 0 <= j < t.len() ==> lo <= #[trigger] t[j] < hi);
        lemma_len_is_range_cnt(t, lo, hi);
        assert(t.push(s.last()) =~= s);
        lemma_range_cnt_push(t, s.last(), lo, hi);
    }
}

/// The range count of an empty sequence is zero.
pub proof fn lemma_range_cnt_empty(s: Seq<int>, lo: int, hi: int)
    requires
        s.len() == 0,
    ensures
        range_cnt(s, lo, hi) == 0,
    decreases hi - lo,
{
    if hi <= lo {
    } else {
        lemma_range_cnt_empty(s, lo, hi - 1);
    }
}

/// With no identifier counted twice, a range holds at most its width.
pub proof fn lemma_range_cnt_bound(s: Seq<int>, lo: int, hi: int)
    requires
        lo <= hi,
        forall|n: int| cnt(s, n) <= 1,
    ensures
        range_cnt(s, lo, hi) <= hi - lo,
    decreases hi - lo,
{
    if hi <= lo {
    } else {
        lemma_range_cnt_bound(s, lo, hi - 1);
    }
}

/// Pigeonhole: distinct identifiers in `[0, 54)` fit in 54 slots.
pub proof fn lemma_distinct_len(s: Seq<int>)
    requires
        forall|j: int| 0 <= j < s.len() ==> 0 <= #[trigger] s[j] < 54,
        forall|n: int| cnt(s, n) <= 1,
    ensures
        s.len() <= 54,
{
    lemma_len_is_range_cnt(s, 0, 54);
    lemma_range_cnt_bound(s, 0, 54);
}

/// The identifiers of one line.
pub open spec fn line_nums(line: Seq<PlayedModel>) -> Seq<int> {
    line.map_values(|p: PlayedModel| p.num)
}

/// A line's count is the count of its identifier sequence.
pub proof fn lemma_line_cnt_nums(line: Seq<PlayedModel>, n: int)
    ensures
        line_cnt(line, n) == cnt(line_nums(line), n),
    decreases line.len(),
{
    if line.len() == 0 {
        assert(line_nums(line) =~= Seq::<int>::empty());
    } else {
        lemma_line_cnt_nums(line.drop_last(), n);
        assert(line_nums(line.drop_last()) =~= line_nums(line).drop_last());
        assert(line_nums(line).last() == line.last().num);
    }
}

/// In a well-formed state without duplicate cards, no line holds more than
/// the 54 distinct cards there are.
pub proof fn lemma_line_len_bound(m: StateModel, l: int)
    requires
        wf(m),
        distinct_cards(m),
        0 <= l < 3,
    ensures
        m.board[l].len() <= 54,
{
    let line = m.board[l];
    assert forall|n: int| true implies cnt(line_nums(line), n) <= 1 by {
        lemma_line_cnt_nums(line, n);
        lemma_board_cnt_at(m.board, l, n);
        assert(card_count(m, n) <= 1);
    }
    assert forall|j: int| 0 <= j < line_nums(line).len() implies 0 <= #[trigger] line_nums(line)[j]
        < 54 by {
        assert(line_nums(line)[j] == line[j].num);
    }
    lemma_distinct_len(line_nums(line));
}

/// A player's total over the three lines lies between 0 and 1458.
pub proof fn lemma_score_bounds(m: StateModel, own: int)
    requires
        wf(m),
        distinct_cards(m),
    ensures
        0 <= player_score(m, own) <= 1458,
{
    lemma_line_len_bound(m, 0);
    lemma_line_len_bound(m, 1);
    lemma_line_len_bound(m, 2);
    lemma_line_points_bounds(m.board[0], own);
    lemma_line_points_bounds(m.board[1], own);
    lemma_line_points_bounds(m.board[2], own);
}

/// The best rival total is at least any one rival's total.
pub proof fn lemma_rivals_best_ge(m: StateModel, cur: int, n: nat, p: int)
    requires
        0 <= p < n,
        p != cur,
    ensures
        rivals_best(m, cur, n) >= player_score(m, p),
    decreases n,
{
    if p == n - 1 {
    } else {
        lemma_rivals_best_ge(m, cur, (n - 1) as nat, p);
    }
}

/// The best rival total never exceeds the score bound.
pub proof fn lemma_rivals_best_le(m: StateModel, cur: int, n: nat)
    requires
        wf(m),
        distinct_cards(m),
    ensures
        i32::MIN as int <= rivals_best(m, cur, n) <= 1458,
    decreases n,
{
    if n == 0 {
    } else {
        lemma_rivals_best_le(m, cur, (n - 1) as nat);
        lemma_score_bounds(m, n - 1);
    }
}

/// With exactly two players, the relative-advantage score is one player's
/// total minus the other's.
pub proof fn lemma_eval_two_players(m: StateModel)
    requires
        wf(m),
        m.hands.len() == 2,
    ensures
        m_eval(m) == player_score(m, cur_player(m)) - player_score(m, 1 - cur_player(m)),
{
    let cur = cur_player(m);
    assert(0 <= cur < 2);
    let other = 1 - cur;
    lemma_line_points_nonneg(m.board[0], other);
    lemma_line_points_nonneg(m.board[1], other);
    lemma_line_points_nonneg(m.board[2], other);
    assert(player_score(m, other) >= 0);
    assert(rivals_best(m, cur, 0) == i32::MIN as int);
    if cur == 0 {
        assert(rivals_best(m, 0, 1) == i32::MIN as int);
        assert(rivals_best(m, 0, 2) == player_score(m, 1));
    } else {
        assert(rivals_best(m, 1, 1) == player_score(m, 0));
        assert(rivals_best(m, 1, 2) == player_score(m, 0));
    }
}

/// A line's points for any player are never negative.
pub proof fn lemma_line_points_nonneg(line: Seq<PlayedModel>, own: int)
    requires
        forall|j: int| 0 <= j < line.len() ==> 0 <= (#[trigger] line[j]).num < 54,
    ensures
        line_points(line, own) >= 0,
    decreases line.len(),
{
    if line.len() == 0 {
    } else {
        lemma_line_points_nonneg(line.drop_last(), own);
    }
}

/// With two players, advancing the turn by one swaps the perspective and
/// negates the relative-advantage score.
pub proof fn lemma_eval_turn_swap(m: StateModel, m2: StateModel)
    requires
        wf(m),
        m.hands.len() == 2,
        m2 == (StateModel { board: m.board, hands: m.hands, deck: m.deck, turn: m.turn + 1 }),
    ensures
        m_eval(m2) == -m_eval(m),
{
    lemma_eval_two_players(m);
    lemma_eval_two_players(m2);
    assert(cur_player(m2) == 1 - cur_player(m)) by {
        assert(m2.turn as int == m.turn + 1);
    }
}

/// The current player is always a valid seat.
pub proof fn lemma_cur_player_range(m: StateModel)
    requires
        m.hands.len() >= 1,
    ensures
        0 <= cur_player(m) < m.hands.len(),
{
    let a = m.turn as int;
    let b = m.hands.len() as int;
    assert(0 <= a % b < b) by (nonlinear_arith)
        requires
            b > 0,
            a >= 0,
    ;
}

/// A board of empty lines holds no card.
pub proof fn lemma_board_cnt_empty(b: Seq<Seq<PlayedModel>>, n: int)
    requires
        forall|l: int| 0 <= l < b.len() ==> (#[trigger] b[l]).len() == 0,
    ensures
        board_cnt(b, n) == 0,
    decreases b.len(),
{
    if b.len() == 0 {
    } else {
        assert(forall|l: int| 0 <= l < b.drop_last().len() ==> (#[trigger] b.drop_last()[l]).len()
            == 0);
        lemma_board_cnt_empty(b.drop_last(), n);
    }
}

/// A sequence that holds `j` at position `j` counts each identifier below
/// its length exactly once and every other exactly zero times.
pub proof fn lemma_iota_cnt(s: Seq<int>, n: int)
    requires
        forall|j: int| 0 <= j < s.len() ==> #[trigger] s[j] == j,
    ensures
        cnt(s, n) == if 0 <= n < s.len() {
            1nat
        } else {
            0nat
        },
    decreases s.len(),
{
    if s.len() == 0 {
    } else {
        assert(forall|j: int| 0 <= j < s.drop_last().len() ==> #[trigger] s.drop_last()[j] == j);
        lemma_iota_cnt(s.drop_last(), n);
    }
}

/// Playing `num` reassigns to the player exactly the trailing run of cards
/// whose identifiers exceed `num`; the scan stops at the first card that
/// does not qualify, and everything before the stopping point keeps both
/// its identifier and its prior owner.
pub proof fn lemma_capture_propagation(line: Seq<PlayedModel>, own: int, num: int)
    ensures
        captured(line, own, num).len() == line.len(),
        0 <= keep_len(line, num) <= line.len(),
        forall|j: int|
            0 <= j < keep_len(line, num) ==> #[trigger] captured(line, own, num)[j] == line[j],
        forall|j: int|
            keep_len(line, num) <= j < line.len() ==> (#[trigger] captured(line, own, num)[j]
                == (PlayedModel { num: line[j].num, own }) && line[j].num > num),
        keep_len(line, num) > 0 ==> line[keep_len(line, num) - 1].num <= num,
    decreases line.len(),
{
    if line.len() == 0 {
    } else if line.last().num > num {
        lemma_capture_propagation(line.drop_last(), own, num);
        let t = line.drop_last();
        let k = keep_len(line, num);
        assert forall|j: int|
            k <= j < line.len() implies #[trigger] captured(line, own, num)[j] == (PlayedModel {
            num: line[j].num,
            own,
        }) && line[j].num > num by {
            if j < line.len() - 1 {
                assert(captured(line, own, num)[j] == captured(t, own, num)[j]);
                assert(t[j] == line[j]);
            } else {
                assert(captured(line, own, num)[j] == (PlayedModel { num: line.last().num, own }));
            }
        }
    } else {
    }
}

/// The stopping point of the capture scan is the unique index `k` such that
/// everything from `k` on is greater than `num` and the card just before
/// `k`, if any, is not.
pub proof fn lemma_keep_len_unique(line: Seq<PlayedModel>, num: int, k: int)
    requires
        0 <= k <= line.len(),
        forall|j: int| k <= j < line.len() ==> (#[trigger] line[j]).num > num,
        k > 0 ==> line[k - 1].num <= num,
    ensures
        keep_len(line, num) == k,
    decreases line.len(),
{
    if line.len() == 0 {
    } else if line.last().num > num {
        assert(k < line.len());
        lemma_keep_len_unique(line.drop_last(), num, k);
    } else {
        assert(k == line.len());
    }
}

} // verus!
