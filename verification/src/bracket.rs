use vstd::prelude::*;

use crate::model::{
    distinct_ids, is_loser, valid_history, FightResult, Player,
};
use crate::prob::win_prob_ppm;
use crate::rng::rand_below;

verus! {

/// What one bracket run guarantees: the history has exactly
/// `max(n - 1, 0)` fights, is a valid elimination history, draws all
/// its fighters from the roster, and, when at least two competitors
/// entered, crowns the winner of the last fight: that winner comes
/// from the roster, never loses, and every other roster member loses
/// exactly once (at most once since `valid_history` keeps losers
/// pairwise distinct).
pub open spec fn bracket_post(roster: Seq<Player>, h: Seq<FightResult>) -> bool {
    &&& h.len() == if roster.len() <= 1 {
        0int
    } else {
        roster.len() - 1
    }
    &&& valid_history(h)
    &&& forall|i: int|
        0 <= i < h.len() ==> roster.contains(#[trigger] h[i].winner) && roster.contains(
            h[i].loser,
        )
    &&& roster.len() >= 2 ==> roster.contains(h[h.len() - 1].winner)
    &&& roster.len() >= 2 ==> !is_loser(h, h[h.len() - 1].winner.id)
    &&& roster.len() >= 2 ==> forall|k: int|
        0 <= k < roster.len() && (#[trigger] roster[k]).id != h[h.len() - 1].winner.id
            ==> is_loser(h, roster[k].id)
}

/// The decision rule of one fight, with the uniform draw handed in
/// as a value: the first fighter wins exactly when the roll lies
/// below their win probability, both in parts per million. Taking
/// the roll as an argument keeps the rule verified for every draw
/// and lets a test drive the outcome deterministically.
pub fn resolve(player1: Player, player2: Player, p: u64, roll: u64) -> (r: FightResult)
    ensures
        roll < p ==> r == (FightResult { winner: player1, loser: player2 }),
        roll >= p ==> r == (FightResult { winner: player2, loser: player1 }),
{
    if roll < p {
        FightResult { winner: player1, loser: player2 }
    } else {
        FightResult { winner: player2, loser: player1 }
    }
}

/// One resolved fight: a fresh uniform roll below one million is
/// drawn and `resolve` decides by the first fighter's win
/// probability `win_prob_ppm(player1.player_elo,
/// player2.player_elo)`. Whatever the draw, the outcome pairs
/// exactly the two fighters.
pub fn fight(player1: Player, player2: Player) -> (r: FightResult)
    ensures
        (r.winner == player1 && r.loser == player2) || (r.winner == player2 && r.loser
            == player1),
{
    let p = win_prob_ppm(player1.player_elo, player2.player_elo);
    let roll = rand_below(1000000) as u64;
    resolve(player1, player2, p, roll)
}

/// One full random-elimination bracket: while more than one
/// competitor is alive, two distinct ones are drawn at random, fight,
/// and the loser is eliminated; the history records every fight in
/// order.
pub fn play_match(players: Vec<Player>) -> (h: Vec<FightResult>)
    requires
        distinct_ids(players@),
    ensures
        bracket_post(players@, h@),
{
    let ghost roster = players@;
    let mut alive = players;
    let mut history: Vec<FightResult> = Vec::new();
    while alive.len() > 1
        invariant
            distinct_ids(roster),
            alive@.len() + history@.len() == roster.len(),
            roster.len() >= 1 ==> alive@.len() >= 1,
            forall|k: int| 0 <= k < alive@.len() ==> roster.contains(#[trigger] alive@[k]),
            forall|i: int|
                0 <= i < history@.len() ==> roster.contains(#[trigger] history@[i].winner)
                    && roster.contains(history@[i].loser),
            forall|k1: int, k2: int|
                0 <= k1 < alive@.len() && 0 <= k2 < alive@.len() && k1 != k2 ==> alive@[k1].id
                    != alive@[k2].id,
            forall|k: int, i: int|
                0 <= k < alive@.len() && 0 <= i < history@.len() ==> (#[trigger] alive@[k]).id
                    != (#[trigger] history@[i]).loser.id,
            forall|i: int, j: int|
                0 <= i < history@.len() && 0 <= j < history@.len() && i != j ==> history@[i].loser.id
                    != history@[j].loser.id,
            forall|i: int, j: int|
                0 <= i < history@.len() && 0 <= j <= i ==> history@[i].winner.id
                    != history@[j].loser.id,
            forall|i: int|
                0 <= i < history@.len() ==> history@[i].winner.id != (#[trigger] history@[i]).loser.id,
            history@.len() > 0 ==> alive@.contains(history@[history@.len() - 1].winner),
            forall|i: int|
                0 <= i < history@.len() ==> alive_id(alive@, (#[trigger] history@[i]).winner.id)
                    || is_loser(history@, history@[i].winner.id),
            forall|k: int|
                0 <= k < roster.len() ==> alive@.contains(#[trigger] roster[k]) || is_loser(
                    history@,
                    roster[k].id,
                ),
        decreases alive@.len(),
    {
        let ghost alive0 = alive@;
        let ghost h0 = history@;
        let i1 = rand_below(alive.len());
        let player1 = alive.swap_remove(i1);
        let ghost alive1 = alive@;
        let i2 = rand_below(alive.len());
        let player2 = alive.swap_remove(i2);
        let ghost alive2 = alive@;
        proof {
            assert(alive0.contains(player1));
            assert(forall|k: int|
                0 <= k < alive1.len() ==> alive0.contains(#[trigger] alive1[k]) && alive1[k].id
                    != player1.id);
            assert(alive1.contains(player2));
            assert(forall|k: int|
                0 <= k < alive2.len() ==> alive1.contains(#[trigger] alive2[k]) && alive2[k].id
                    != player2.id);
            assert(player1.id != player2.id);
        }
        let result = fight(player1, player2);
        alive.push(result.winner);
        history.push(result);
        proof {
            assert(history@ == h0.push(result));
            assert(alive@ == alive2.push(result.winner));
            assert forall|id: u32| is_loser(h0, id) implies is_loser(history@, id) by {
                let i = choose|i: int| 0 <= i < h0.len() && (#[trigger] h0[i]).loser.id == id;
                assert(history@[i].loser.id == id);
            }
            assert(is_loser(history@, result.loser.id)) by {
                assert(history@[h0.len() as int].loser.id == result.loser.id);
            }
            assert forall|id: u32|
                is_loser(history@, id) && id != result.loser.id implies is_loser(h0, id) by {
                let i = choose|i: int|
                    0 <= i < history@.len() && (#[trigger] history@[i]).loser.id == id;
                assert(0 <= i < h0.len());
            }
            assert(alive@[alive2.len() as int] == result.winner);
            assert(alive@.contains(result.winner));
            assert forall|i: int|
                0 <= i < history@.len() implies alive_id(
                alive@,
                (#[trigger] history@[i]).winner.id,
            ) || is_loser(history@, history@[i].winner.id) by {
                if i < h0.len() {
                    let w = h0[i].winner.id;
                    if alive_id(alive0, w) {
                        let k = choose|k: int|
                            0 <= k < alive0.len() && (#[trigger] alive0[k]).id == w;
                        if w == player1.id {
                            if result.winner == player1 {
                                assert(alive_id(alive@, w));
                            } else {
                                assert(result.loser == player1);
                                assert(is_loser(history@, w));
                            }
                        } else if w == player2.id {
                            if result.winner == player2 {
                                assert(alive_id(alive@, w));
                            } else {
                                assert(result.loser == player2);
                                assert(is_loser(history@, w));
                            }
                        } else {
                            assert(exists|k3: int|
                                0 <= k3 < alive2.len() && (#[trigger] alive2[k3]).id == w) by {
                                lemma_survivor_stays(alive0, alive1, i1 as int, player1, w);
                                lemma_survivor_stays(alive1, alive2, i2 as int, player2, w);
                            }
                            let k3 = choose|k3: int|
                                0 <= k3 < alive2.len() && (#[trigger] alive2[k3]).id == w;
                            assert(alive@[k3].id == w);
                            assert(alive_id(alive@, w));
                        }
                    }
                } else {
                    assert(history@[i].winner == result.winner);
                    assert(alive_id(alive@, result.winner.id));
                }
            }
            assert forall|k: int|
                0 <= k < roster.len() implies alive@.contains(#[trigger] roster[k]) || is_loser(
                history@,
                roster[k].id,
            ) by {
                if alive0.contains(roster[k]) {
                    let ki = choose|ki: int|
                        0 <= ki < alive0.len() && #[trigger] alive0[ki] == roster[k];
                    if roster[k] == player1 || roster[k] == player2 {
                        if roster[k] == result.winner {
                            assert(alive@.contains(roster[k]));
                        } else {
                            assert(roster[k] == result.loser);
                            assert(is_loser(history@, roster[k].id));
                        }
                    } else {
                        lemma_value_stays(alive0, alive1, i1 as int, player1, roster[k]);
                        lemma_value_stays(alive1, alive2, i2 as int, player2, roster[k]);
                        let k3 = choose|k3: int|
                            0 <= k3 < alive2.len() && #[trigger] alive2[k3] == roster[k];
                        assert(alive@[k3] == roster[k]);
                        assert(alive@.contains(roster[k]));
                    }
                }
            }
        }
    }
    proof {
        lemma_post_from_loop(roster, alive@, history@);
    }
    history
}

/// A finished bracket covers the whole roster: it holds exactly
/// `n - 1` fights, the last fight's winner never loses, and every
/// other competitor loses exactly once (at least once here, at most
/// once since losers are pairwise distinct).
pub proof fn lemma_bracket_coverage(roster: Seq<Player>, h: Seq<FightResult>)
    requires
        distinct_ids(roster),
        roster.len() >= 2,
        bracket_post(roster, h),
    ensures
        h.len() == roster.len() - 1,
        !is_loser(h, h[h.len() - 1].winner.id),
        forall|k: int|
            0 <= k < roster.len() && (#[trigger] roster[k]).id != h[h.len() - 1].winner.id
                ==> exists|i: int| 0 <= i < h.len() && (#[trigger] h[i]).loser.id == roster[k].id,
        forall|i: int, j: int|
            0 <= i < h.len() && 0 <= j < h.len() && i != j ==> h[i].loser.id != h[j].loser.id,
{
    assert forall|k: int|
        0 <= k < roster.len() && (#[trigger] roster[k]).id != h[h.len() - 1].winner.id implies exists|i: int|
        0 <= i < h.len() && (#[trigger] h[i]).loser.id == roster[k].id by {
        assert(is_loser(h, roster[k].id));
    }
}

/// Whether some alive competitor carries this id.
spec fn alive_id(alive: Seq<Player>, id: u32) -> bool {
    exists|k: int| 0 <= k < alive.len() && (#[trigger] alive[k]).id == id
}

/// Removing one competitor by swap keeps every other id present.
proof fn lemma_survivor_stays(before: Seq<Player>, after: Seq<Player>, i: int, removed: Player, id: u32)
    requires
        0 <= i < before.len(),
        before[i] == removed,
        after == before.update(i, before.last()).drop_last(),
        alive_id(before, id),
        id != removed.id,
        forall|k1: int, k2: int|
            0 <= k1 < before.len() && 0 <= k2 < before.len() && k1 != k2 ==> before[k1].id
                != before[k2].id,
    ensures
        alive_id(after, id),
{
    let k = choose|k: int| 0 <= k < before.len() && (#[trigger] before[k]).id == id;
    assert(k != i);
    if k == before.len() - 1 {
        assert(i < before.len() - 1);
        assert(after[i].id == id);
    } else {
        assert(after[k].id == id);
    }
}

/// Removing one competitor by swap keeps every other value present.
proof fn lemma_value_stays(before: Seq<Player>, after: Seq<Player>, i: int, removed: Player, p: Player)
    requires
        0 <= i < before.len(),
        before[i] == removed,
        after == before.update(i, before.last()).drop_last(),
        before.contains(p),
        p != removed,
        forall|k1: int, k2: int|
            0 <= k1 < before.len() && 0 <= k2 < before.len() && k1 != k2 ==> before[k1].id
                != before[k2].id,
    ensures
        after.contains(p),
{
    let k = choose|k: int| 0 <= k < before.len() && #[trigger] before[k] == p;
    assert(k != i);
    if k == before.len() - 1 {
        assert(i < before.len() - 1);
        assert(after[i] == p);
    } else {
        assert(after[k] == p);
    }
}

/// The loop invariants, once only one competitor is alive, give the
/// full bracket contract.
proof fn lemma_post_from_loop(roster: Seq<Player>, alive: Seq<Player>, h: Seq<FightResult>)
    requires
        distinct_ids(roster),
        alive.len() <= 1,
        alive.len() + h.len() == roster.len(),
        roster.len() >= 1 ==> alive.len() >= 1,
        forall|k: int| 0 <= k < alive.len() ==> roster.contains(#[trigger] alive[k]),
        forall|i: int|
            0 <= i < h.len() ==> roster.contains(#[trigger] h[i].winner) && roster.contains(
                h[i].loser,
            ),
        forall|k: int, i: int|
            0 <= k < alive.len() && 0 <= i < h.len() ==> (#[trigger] alive[k]).id
                != (#[trigger] h[i]).loser.id,
        forall|i: int, j: int|
            0 <= i < h.len() && 0 <= j < h.len() && i != j ==> h[i].loser.id != h[j].loser.id,
        forall|i: int, j: int|
            0 <= i < h.len() && 0 <= j <= i ==> h[i].winner.id != h[j].loser.id,
        forall|i: int| 0 <= i < h.len() ==> h[i].winner.id != (#[trigger] h[i]).loser.id,
        h.len() > 0 ==> alive.contains(h[h.len() - 1].winner),
        forall|i: int|
            0 <= i < h.len() ==> alive_id(alive, (#[trigger] h[i]).winner.id) || is_loser(
                h,
                h[i].winner.id,
            ),
        forall|k: int|
            0 <= k < roster.len() ==> alive.contains(#[trigger] roster[k]) || is_loser(
                h,
                roster[k].id,
            ),
    ensures
        bracket_post(roster, h),
{
    assert(crate::model::consistent_players(h)) by {
        assert forall|p: Player, q: Player|
            #[trigger] crate::model::participant_value(h, p)
                && #[trigger] crate::model::participant_value(h, q) && p.id == q.id implies p
            == q by {
            let i = choose|i: int|
                0 <= i < h.len() && ((#[trigger] h[i]).winner == p || h[i].loser == p);
            let j = choose|j: int|
                0 <= j < h.len() && ((#[trigger] h[j]).winner == q || h[j].loser == q);
            assert(roster.contains(p));
            assert(roster.contains(q));
            let kp = choose|kp: int| 0 <= kp < roster.len() && #[trigger] roster[kp] == p;
            let kq = choose|kq: int| 0 <= kq < roster.len() && #[trigger] roster[kq] == q;
            assert(kp == kq);
        }
    }
    if roster.len() >= 2 {
        assert(alive.len() == 1);
        let champ = h[h.len() - 1].winner;
        assert(alive.contains(champ));
        assert(alive[0] == champ);
        assert(!is_loser(h, champ.id)) by {
            if is_loser(h, champ.id) {
                let i = choose|i: int| 0 <= i < h.len() && (#[trigger] h[i]).loser.id == champ.id;
                assert(h[h.len() - 1].winner.id != h[i].loser.id);
            }
        }
        assert forall|k: int|
            0 <= k < roster.len() && (#[trigger] roster[k]).id != champ.id implies is_loser(
            h,
            roster[k].id,
        ) by {
            if alive.contains(roster[k]) {
                let ki = choose|ki: int| 0 <= ki < alive.len() && #[trigger] alive[ki] == roster[k];
                assert(ki == 0);
                assert(roster[k] == champ);
            }
        }
        assert forall|i: int|
            0 <= i < h.len() implies h[i].winner.id == h[h.len() - 1].winner.id || is_loser(
            h,
            (#[trigger] h[i]).winner.id,
        ) by {
            if alive_id(alive, h[i].winner.id) {
                let k = choose|k: int| 0 <= k < alive.len() && (#[trigger] alive[k]).id == h[i].winner.id;
                assert(k == 0);
                assert(alive[0] == champ);
            }
        }
    }
}

} // verus!
