//! Depth-bounded minimax over any position type that can enumerate its
//! successors and value its leaves, and its instance for the card game.

use vstd::prelude::*;

use crate::gamestate::GameState;
use crate::gen::{lemma_ply_preserves, m_ply, ply};
use crate::model::{
    distinct_cards, lemma_rivals_best_ge, lemma_rivals_best_le, lemma_score_bounds, m_eval,
    rivals_best, wf, StateModel,
};

verus! {

/// Left-to-right fold of a sequence of position values: the maximum from
/// the identity `i32::MIN` when maximizing, the minimum from `i32::MAX`
/// when minimizing.
pub open spec fn fold_ints(vals: Seq<int>, maxer: bool) -> int
    decreases vals.len(),
{
    if vals.len() == 0 {
        if maxer {
            i32::MIN as int
        } else {
            i32::MAX as int
        }
    } else {
        let rest = fold_ints(vals.drop_last(), maxer);
        let v = vals.last();
        if maxer {
            if v > rest {
                v
            } else {
                rest
            }
        } else {
            if v < rest {
                v
            } else {
                rest
            }
        }
    }
}

/// A game position the search can expand and value.  `game_value` names
/// the position's minimax value at a given depth; the contract of `next`
/// pins it to the fold of the successors' values one ply down, with the
/// perspective flipped, and `eval` gives the leaf value the recursion
/// bottoms out on.
pub trait State: Sized {
    /// Under this invariant the position may be expanded and valued.
    spec fn inv(&self) -> bool;

    /// The position's leaf value.
    spec fn leaf(&self) -> int;

    /// The position's minimax value at `depth` plies, seen from the
    /// maximizing or the minimizing side.
    spec fn game_value(&self, depth: nat, maxer: bool) -> int;

    /// All positions one move away, in a fixed order.
    fn next(&self) -> (r: Vec<Self>)
        requires
            self.inv(),
        ensures
            forall|i: int| 0 <= i < r@.len() ==> (#[trigger] r@[i]).inv(),
            forall|d: nat, m: bool|
                #[trigger] self.game_value(d, m) == (if d == 0 || r@.len() == 0 {
                    self.leaf()
                } else {
                    fold_ints(
                        Seq::new(r@.len(), |i: int| r@[i].game_value((d - 1) as nat, !m)),
                        m,
                    )
                }),
    ;

    /// The position's leaf value, as an integer.
    fn eval(&self) -> (r: i32)
        requires
            self.inv(),
        ensures
            r as int == self.leaf(),
    ;
}

/// Fixed-depth minimax: expands successors with `next`, alternates the
/// maximizing and minimizing perspective each ply, and bottoms out on the
/// leaf value at depth zero or when no continuation is left.
#[verifier::loop_isolation(false)]
pub fn minimax<T: Clone + State>(node: &T, depth: i32, maxer: bool) -> (r: i32)
    requires
        node.inv(),
        depth >= 0,
    ensures
        r as int == node.game_value(depth as nat, maxer),
    decreases depth,
{
    let children = node.next();
    if depth == 0 || children.len() == 0 {
        node.eval()
    } else {
        let ghost vals = Seq::new(
            children@.len(),
            |i: int| children@[i].game_value((depth - 1) as nat, !maxer),
        );
        if maxer {
            let mut value = i32::MIN;
            proof {
                assert(vals.take(0) =~= Seq::<int>::empty());
            }
            let mut i: usize = 0;
            while i < children.len()
                invariant
                    i <= children@.len(),
                    value as int == fold_ints(vals.take(i as int), true),
                decreases children@.len() - i,
            {
                let c = minimax(&children[i], depth - 1, false);
                proof {
                    assert(vals.take(i + 1).drop_last() =~= vals.take(i as int));
                    assert(vals.take(i + 1).last() == vals[i as int]);
                    assert(c as int == vals[i as int]);
                }
                if c > value {
                    value = c;
                }
                i = i + 1;
            }
            proof {
                assert(vals.take(vals.len() as int) =~= vals);
            }
            value
        } else {
            let mut value = i32::MAX;
            proof {
                assert(vals.take(0) =~= Seq::<int>::empty());
            }
            let mut i: usize = 0;
            while i < children.len()
                invariant
                    i <= children@.len(),
                    value as int == fold_ints(vals.take(i as int), false),
                decreases children@.len() - i,
            {
                let c = minimax(&children[i], depth - 1, true);
                proof {
                    assert(vals.take(i + 1).drop_last() =~= vals.take(i as int));
                    assert(vals.take(i + 1).last() == vals[i as int]);
                    assert(c as int == vals[i as int]);
                }
                if c < value {
                    value = c;
                }
                i = i + 1;
            }
            proof {
                assert(vals.take(vals.len() as int) =~= vals);
            }
            value
        }
    }
}

/// Successors at model level; a state whose turn counter has reached the
/// machine bound can no longer advance and is terminal.
pub open spec fn m_next(m: StateModel) -> Seq<StateModel> {
    if m.turn + 1 > usize::MAX {
        Seq::<StateModel>::empty()
    } else {
        m_ply(m)
    }
}

/// The minimax value of a game state at model level.
pub open spec fn mm_model(m: StateModel, depth: nat, maxer: bool) -> int
    decreases depth, 0nat,
{
    if depth == 0 || m_next(m).len() == 0 {
        m_eval(m)
    } else {
        mm_fold(m_next(m), (depth - 1) as nat, maxer)
    }
}

/// Fold of the successors' model minimax values one ply down, seen from
/// the parent's perspective: the maximum of the children's values at the
/// flipped perspective when maximizing, the minimum when minimizing.
pub open spec fn mm_fold(children: Seq<StateModel>, depth: nat, maxer: bool) -> int
    decreases depth, children.len(),
{
    if children.len() == 0 {
        if maxer {
            i32::MIN as int
        } else {
            i32::MAX as int
        }
    } else {
        let rest = mm_fold(children.drop_last(), depth, maxer);
        let v = mm_model(children.last(), depth, !maxer);
        if maxer {
            if v > rest {
                v
            } else {
                rest
            }
        } else {
            if v < rest {
                v
            } else {
                rest
            }
        }
    }
}

/// At depth zero the minimax value of a state is its leaf evaluation,
/// whatever the perspective.
pub proof fn lemma_minimax_terminal(m: StateModel, maxer: bool)
    ensures
        mm_model(m, 0, maxer) == m_eval(m),
{
}

/// A successor vector folds to the same value as the model successors it
/// images.
proof fn lemma_fold_congruent(gs: Seq<GameState>, ms: Seq<StateModel>, depth: nat, maxer: bool)
    requires
        gs.len() == ms.len(),
        forall|i: int| 0 <= i < gs.len() ==> (#[trigger] gs[i])@ == ms[i],
    ensures
        fold_ints(Seq::new(gs.len(), |i: int| gs[i].game_value(depth, !maxer)), maxer) == mm_fold(
            ms,
            depth,
            maxer,
        ),
    decreases gs.len(),
{
    let vals = Seq::new(gs.len(), |i: int| gs[i].game_value(depth, !maxer));
    if gs.len() == 0 {
        assert(vals.len() == 0);
    } else {
        assert forall|i: int| 0 <= i < gs.drop_last().len() implies (#[trigger] gs.drop_last()[i])@
            == ms.drop_last()[i] by {
            assert(gs.drop_last()[i] == gs[i]);
        }
        lemma_fold_congruent(gs.drop_last(), ms.drop_last(), depth, maxer);
        assert(Seq::new(
            gs.drop_last().len(),
            |i: int| gs.drop_last()[i].game_value(depth, !maxer),
        ) =~= vals.drop_last());
        assert(gs.last()@ == ms.last());
        assert(vals.last() == gs.last().game_value(depth, !maxer));
        assert(gs.last().game_value(depth, !maxer) == mm_model(ms.last(), depth, !maxer));
    }
}

impl State for GameState {
    /// Expansion is sound for well-formed, duplicate-free states with at
    /// least two seats.
    open spec fn inv(&self) -> bool {
        wf(self@) && distinct_cards(self@) && self@.hands.len() >= 2
    }

    open spec fn leaf(&self) -> int {
        m_eval(self@)
    }

    open spec fn game_value(&self, depth: nat, maxer: bool) -> int {
        mm_model(self@, depth, maxer)
    }

    fn next(&self) -> (r: Vec<GameState>) {
        if self.turn == usize::MAX {
            let r: Vec<GameState> = Vec::new();
            proof {
                assert(m_next(self@).len() == 0);
            }
            r
        } else {
            let r = ply(self.clone());
            proof {
                lemma_ply_preserves(self@);
                assert(m_next(self@) == m_ply(self@));
                assert forall|i: int| 0 <= i < r@.len() implies (#[trigger] r@[i]).inv() by {
                    assert(r@[i]@ == m_ply(self@)[i]);
                }
                assert forall|d: nat, m: bool| #[trigger] self.game_value(d, m) == (if d == 0
                    || r@.len() == 0 {
                    self.leaf()
                } else {
                    fold_ints(
                        Seq::new(r@.len(), |i: int| r@[i].game_value((d - 1) as nat, !m)),
                        m,
                    )
                }) by {
                    if d == 0 || r@.len() == 0 {
                    } else {
                        assert forall|i: int| 0 <= i < r@.len() implies (#[trigger] r@[i])@
                            == m_next(self@)[i] by {
                            assert(r@[i]@ == m_ply(self@)[i]);
                        }
                        lemma_fold_congruent(r@, m_next(self@), (d - 1) as nat, m);
                    }
                }
            }
            r
        }
    }

    /// The relative-advantage score: the current player's captured total
    /// minus the best total among the other players.
    #[verifier::loop_isolation(false)]
    fn eval(&self) -> (r: i32) {
        let players = self.hands.len();
        proof {
            assert(players as int == self@.hands.len());
        }
        let cur = self.get_current_player();
        let mut best = i32::MIN;
        let mut p: usize = 0;
        while p < players
            invariant
                p <= players,
                best as int == rivals_best(self@, cur as int, p as nat),
            decreases players - p,
        {
            if p != cur {
                let s = self.value(p as i32);
                if s > best {
                    best = s;
                }
            }
            p = p + 1;
        }
        let mine = self.value(cur as i32);
        proof {
            let rival: int = if cur == 0 {
                1
            } else {
                0
            };
            lemma_rivals_best_ge(self@, cur as int, players as nat, rival);
            lemma_score_bounds(self@, rival);
            lemma_rivals_best_le(self@, cur as int, players as nat);
        }
        mine - best
    }
}

} // verus!
