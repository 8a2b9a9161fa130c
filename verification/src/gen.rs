//! Successor enumeration: every state one legal move away from the current
//! one, in hand order, with per-card ordering play, fold, fold-and-draw.

use vstd::prelude::*;

use crate::gamestate::GameState;
use crate::model::{
    bump, card_count, cnt, cur_player, distinct_cards, lemma_cnt_member,
    lemma_cur_player_range, lemma_discard_cards, lemma_discard_wf, lemma_draw_preserves_cards,
    lemma_draw_wf, lemma_hands_cnt_at, lemma_play_preserves_cards, lemma_play_wf, m_can_draw,
    m_can_play, m_discard, m_draw, m_play, wf, StateModel,
};

verus! {

/// The successor in which the current player plays `num`.
pub open spec fn succ_play(m: StateModel, num: int) -> StateModel {
    bump(m_play(m, cur_player(m), num))
}

/// The successor in which the current player folds `num`.
pub open spec fn succ_discard(m: StateModel, num: int) -> StateModel {
    bump(m_discard(m, cur_player(m), num))
}

/// The successor in which the current player folds `num` and draws.
pub open spec fn succ_draw(m: StateModel, num: int) -> StateModel {
    bump(m_draw(m_discard(m, cur_player(m), num), cur_player(m)))
}

/// The successors one hand card contributes, in order: the play when it is
/// legal, always the fold, the fold-and-draw while the deck is non-empty.
pub open spec fn per_card(m: StateModel, num: int) -> Seq<StateModel> {
    (if m_can_play(m, cur_player(m), num) {
        seq![succ_play(m, num)]
    } else {
        Seq::<StateModel>::empty()
    }) + seq![succ_discard(m, num)] + (if m_can_draw(m) {
        seq![succ_draw(m, num)]
    } else {
        Seq::<StateModel>::empty()
    })
}

/// The successors contributed by the first `i` cards of the current hand.
pub open spec fn ply_upto(m: StateModel, i: int) -> Seq<StateModel>
    decreases i,
{
    if i <= 0 {
        Seq::<StateModel>::empty()
    } else {
        ply_upto(m, i - 1) + per_card(m, m.hands[cur_player(m)][i - 1])
    }
}

/// All successors of a state, in hand order.
pub open spec fn m_ply(m: StateModel) -> Seq<StateModel> {
    ply_upto(m, m.hands[cur_player(m)].len() as int)
}

/// All legal next states from `state`, each built from an independent copy:
/// for each hand card in hand order, the play successor when legal, the
/// fold successor, and the fold-and-draw successor when the deck allows it.
#[verifier::loop_isolation(false)]
pub fn ply(state: GameState) -> (r: Vec<GameState>)
    requires
        wf(state@),
        state.turn < usize::MAX,
    ensures
        r@.len() == m_ply(state@).len(),
        forall|i: int| 0 <= i < r@.len() ==> (#[trigger] r@[i])@ == m_ply(state@)[i],
{
    let ghost m = state@;
    let mut nexts: Vec<GameState> = Vec::new();
    let own_index = state.get_current_player();
    let own: i32 = own_index as i32;
    proof {
        assert(own as int == cur_player(m));
    }
    let hand_len = state.hands[own_index].len();
    let ghost hand = m.hands[cur_player(m)];
    proof {
        assert(hand.len() == hand_len as int);
    }
    let mut i: usize = 0;
    while i < hand_len
        invariant
            i <= hand_len,
            nexts@.len() == ply_upto(m, i as int).len(),
            forall|t: int|
                0 <= t < nexts@.len() ==> (#[trigger] nexts@[t])@ == ply_upto(m, i as int)[t],
        decreases hand_len - i,
    {
        let card = state.hands[own_index][i];
        let num = card.num;
        proof {
            assert(card@ == hand[i as int]);
            assert(0 <= num < 54);
        }
        let ghost pc = per_card(m, num as int);
        if state.can_play(own, num) {
            let mut next = state.clone();
            next.play(own, num);
            next.turn = next.turn + 1;
            proof {
                assert(next@ =~~= succ_play(m, num as int));
            }
            nexts.push(next);
        }
        let mut next = state.clone();
        next.discard(own, num);
        next.turn = next.turn + 1;
        proof {
            assert(next@ =~~= succ_discard(m, num as int));
        }
        nexts.push(next);
        if state.can_draw(own) {
            let mut next2 = state.clone();
            next2.discard(own, num);
            proof {
                assert(next2@.deck == m.deck);
                assert(next2.deck@.len() == next2@.deck.len());
                assert(next2@.hands.len() == m.hands.len());
                assert(next2.hands@.len() == next2@.hands.len());
            }
            next2.draw(own);
            next2.turn = next2.turn + 1;
            proof {
                assert(next2@ =~~= succ_draw(m, num as int));
            }
            nexts.push(next2);
        }
        proof {
            if m_can_play(m, cur_player(m), num as int) && m_can_draw(m) {
                assert(pc =~= seq![
                    succ_play(m, num as int),
                    succ_discard(m, num as int),
                    succ_draw(m, num as int),
                ]);
            } else if m_can_play(m, cur_player(m), num as int) {
                assert(pc =~= seq![succ_play(m, num as int), succ_discard(m, num as int)]);
            } else if m_can_draw(m) {
                assert(pc =~= seq![succ_discard(m, num as int), succ_draw(m, num as int)]);
            } else {
                assert(pc =~= seq![succ_discard(m, num as int)]);
            }
            assert(ply_upto(m, i + 1) == ply_upto(m, i as int) + pc);
        }
        i = i + 1;
    }
    nexts
}

/// Every successor one card contributes keeps well-formedness and card
/// distinctness, keeps the player count, and advances the turn by one.
pub proof fn lemma_per_card_preserves(m: StateModel, num: int)
    requires
        wf(m),
        distinct_cards(m),
        0 <= num < 54,
        cnt(m.hands[cur_player(m)], num) >= 1,
    ensures
        forall|i: int| 0 <= i < per_card(m, num).len() ==> wf(#[trigger] per_card(m, num)[i]),
        forall|i: int|
            0 <= i < per_card(m, num).len() ==> distinct_cards(#[trigger] per_card(m, num)[i]),
        forall|i: int|
            0 <= i < per_card(m, num).len() ==> (#[trigger] per_card(m, num)[i]).hands.len()
                == m.hands.len(),
        forall|i: int|
            0 <= i < per_card(m, num).len() ==> (#[trigger] per_card(m, num)[i]).turn == m.turn
                + 1,
{
    let cur = cur_player(m);
    lemma_cur_player_range(m);
    lemma_discard_wf(m, cur, num);
    lemma_discard_cards(m, cur, num);
    let md = m_discard(m, cur, num);
    assert forall|n: int| true implies card_count(md, n) <= 1 by {
        assert(card_count(m, n) <= 1);
        if n == num {
            assert(card_count(md, num) + cnt(m.hands[cur], num) == card_count(m, num));
        } else {
            assert(card_count(md, n) == card_count(m, n));
        }
    }
    assert(wf(succ_discard(m, num)));
    assert forall|n: int| true implies card_count(succ_discard(m, num), n) <= 1 by {
        assert(card_count(succ_discard(m, num), n) == card_count(md, n));
    }
    assert(distinct_cards(succ_discard(m, num)));
    if m_can_play(m, cur, num) {
        lemma_hands_cnt_at(m.hands, cur, num);
        assert(cnt(m.hands[cur], num) <= card_count(m, num));
        assert(cnt(m.hands[cur], num) == 1);
        lemma_play_wf(m, cur, num);
        lemma_play_preserves_cards(m, cur, num);
        assert(wf(succ_play(m, num)));
        assert forall|n: int| true implies card_count(succ_play(m, num), n) <= 1 by {
            assert(card_count(succ_play(m, num), n) == card_count(m_play(m, cur, num), n));
            assert(card_count(m_play(m, cur, num), n) == card_count(m, n));
            assert(card_count(m, n) <= 1);
        }
        assert(distinct_cards(succ_play(m, num)));
    }
    if m_can_draw(m) {
        lemma_draw_wf(md, cur);
        lemma_draw_preserves_cards(md, cur);
        assert(wf(succ_draw(m, num)));
        assert forall|n: int| true implies card_count(succ_draw(m, num), n) <= 1 by {
            assert(card_count(succ_draw(m, num), n) == card_count(m_draw(md, cur), n));
            assert(card_count(m_draw(md, cur), n) == card_count(md, n));
        }
        assert(distinct_cards(succ_draw(m, num)));
    }
}

/// Every successor among the first `k` cards' contributions keeps
/// well-formedness and card distinctness, keeps the player count, and
/// advances the turn by one.
pub proof fn lemma_ply_upto_preserves(m: StateModel, k: int)
    requires
        wf(m),
        distinct_cards(m),
        0 <= k <= m.hands[cur_player(m)].len(),
    ensures
        forall|i: int| 0 <= i < ply_upto(m, k).len() ==> wf(#[trigger] ply_upto(m, k)[i]),
        forall|i: int|
            0 <= i < ply_upto(m, k).len() ==> distinct_cards(#[trigger] ply_upto(m, k)[i]),
        forall|i: int|
            0 <= i < ply_upto(m, k).len() ==> (#[trigger] ply_upto(m, k)[i]).hands.len()
                == m.hands.len(),
        forall|i: int|
            0 <= i < ply_upto(m, k).len() ==> (#[trigger] ply_upto(m, k)[i]).turn == m.turn + 1,
    decreases k,
{
    if k <= 0 {
    } else {
        lemma_ply_upto_preserves(m, k - 1);
        lemma_cur_player_range(m);
        let cur = cur_player(m);
        let num = m.hands[cur][k - 1];
        assert(0 <= num < 54);
        lemma_cnt_member(m.hands[cur], k - 1);
        lemma_per_card_preserves(m, num);
        assert forall|i: int| 0 <= i < ply_upto(m, k).len() implies wf(#[trigger] ply_upto(m, k)[i])
            && distinct_cards(ply_upto(m, k)[i]) && ply_upto(m, k)[i].hands.len() == m.hands.len()
            && ply_upto(m, k)[i].turn == m.turn + 1 by {
            if i < ply_upto(m, k - 1).len() {
                assert(ply_upto(m, k)[i] == ply_upto(m, k - 1)[i]);
            } else {
                assert(ply_upto(m, k)[i] == per_card(m, num)[i - ply_upto(m, k - 1).len()]);
            }
        }
    }
}

/// Every successor of a well-formed, duplicate-free state is well formed
/// and duplicate free, has the same player count, and is one turn later.
pub proof fn lemma_ply_preserves(m: StateModel)
    requires
        wf(m),
        distinct_cards(m),
    ensures
        forall|i: int| 0 <= i < m_ply(m).len() ==> wf(#[trigger] m_ply(m)[i]),
        forall|i: int| 0 <= i < m_ply(m).len() ==> distinct_cards(#[trigger] m_ply(m)[i]),
        forall|i: int|
            0 <= i < m_ply(m).len() ==> (#[trigger] m_ply(m)[i]).hands.len() == m.hands.len(),
        forall|i: int| 0 <= i < m_ply(m).len() ==> (#[trigger] m_ply(m)[i]).turn == m.turn + 1,
{
    lemma_ply_upto_preserves(m, m.hands[cur_player(m)].len() as int);
}

/// When every card of the current hand is playable and the deck is
/// non-empty, each of the first `k` cards contributes exactly three
/// successors.
pub proof fn lemma_ply_upto_count(m: StateModel, k: int)
    requires
        0 <= k <= m.hands[cur_player(m)].len(),
        m.deck.len() > 0,
        forall|i: int|
            0 <= i < m.hands[cur_player(m)].len() ==> m_can_play(
                m,
                cur_player(m),
                #[trigger] m.hands[cur_player(m)][i],
            ),
    ensures
        ply_upto(m, k).len() == 3 * k,
    decreases k,
{
    if k <= 0 {
    } else {
        lemma_ply_upto_count(m, k - 1);
    }
}

/// With a hand of size H, every card playable and the deck non-empty,
/// there are exactly 3·H successors: play, fold, and fold-and-draw for
/// each card.
pub proof fn lemma_successor_count(m: StateModel)
    requires
        m.deck.len() > 0,
        forall|i: int|
            0 <= i < m.hands[cur_player(m)].len() ==> m_can_play(
                m,
                cur_player(m),
                #[trigger] m.hands[cur_player(m)][i],
            ),
    ensures
        m_ply(m).len() == 3 * m.hands[cur_player(m)].len(),
{
    lemma_ply_upto_count(m, m.hands[cur_player(m)].len() as int);
}

} // verus!
