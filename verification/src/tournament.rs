use vstd::prelude::*;

use crate::bracket::{bracket_post, play_match};
use crate::model::{distinct_ids, is_loser, roster_has, FightResult, Player, Score};
use crate::scoring::{
    champion_score, find_record, lemma_points_bound, lemma_points_of_found, loser_score, points_of,
    score_match, score_post, score_single,
};

verus! {

/// Why a tournament request is rejected.
#[derive(Clone, Copy, PartialEq, Eq, Structural, Debug)]
pub enum SimError {
    /// Two roster entries share one id.
    InvalidRoster,
    /// Zero trials were requested.
    InvalidTrialCount,
}

/// Whether all roster ids are pairwise distinct.
pub fn check_distinct_ids(players: &Vec<Player>) -> (b: bool)
    ensures
        b == distinct_ids(players@),
{
    let mut i: usize = 0;
    while i < players.len()
        invariant
            0 <= i <= players@.len(),
            forall|a: int, b: int|
                0 <= a < i && 0 <= b < players@.len() && a != b ==> players@[a].id
                    != players@[b].id,
        decreases players@.len() - i,
    {
        let mut j: usize = i + 1;
        while j < players.len()
            invariant
                0 <= i < players@.len(),
                i < j <= players@.len(),
                forall|a: int, b: int|
                    0 <= a < i && 0 <= b < players@.len() && a != b ==> players@[a].id
                        != players@[b].id,
                forall|b: int| i < b < j ==> players@[i as int].id != players@[b].id,
            decreases players@.len() - j,
        {
            if players[i].id == players[j].id {
                return false;
            }
            j = j + 1;
        }
        i = i + 1;
    }
    true
}

/// An owned copy of the roster, element for element.
fn copy_roster(players: &Vec<Player>) -> (r: Vec<Player>)
    ensures
        r@ == players@,
{
    let mut r: Vec<Player> = Vec::new();
    let mut i: usize = 0;
    while i < players.len()
        invariant
            0 <= i <= players@.len(),
            r@ == players@.take(i as int),
        decreases players@.len() - i,
    {
        r.push(players[i]);
        i = i + 1;
        proof {
            assert(r@ =~= players@.take(i as int));
        }
    }
    proof {
        assert(players@.take(players@.len() as int) =~= players@);
    }
    r
}

/// What one trial can hand back for this roster and target: for a
/// roster of one, the explicit solo championship (5 points for the
/// sole member, 0 for anyone else); otherwise the target's points in
/// some bracket simulated over the roster and scored, 0 when no
/// record carries the target's id.
pub open spec fn trial_outcome(roster: Seq<Player>, target_id: u32, pts: u32) -> bool {
    if roster.len() == 1 {
        pts == (if roster[0].id == target_id {
            5u32
        } else {
            0u32
        })
    } else {
        exists|h: Seq<FightResult>, recs: Seq<(Player, Score)>|
            #![trigger score_post(h, recs)]
            bracket_post(roster, h) && score_post(h, recs) && pts == points_of(recs, target_id)
    }
}

/// Every entry of `outcomes` is a possible single-trial result.
pub open spec fn all_trial_outcomes(
    roster: Seq<Player>,
    target_id: u32,
    outcomes: Seq<u32>,
) -> bool {
    forall|i: int| 0 <= i < outcomes.len() ==> trial_outcome(roster, target_id, #[trigger] outcomes[i])
}

/// The sum of a sequence of per-trial point counts.
pub open spec fn sum_of(s: Seq<u32>) -> int
    decreases s.len(),
{
    if s.len() == 0 {
        0
    } else {
        sum_of(s.drop_last()) + s.last()
    }
}

/// A target absent from the roster has no record in any scored
/// bracket over it: every record belongs to the champion or a loser,
/// and both come from the roster.
proof fn lemma_absent_target(
    roster: Seq<Player>,
    h: Seq<FightResult>,
    recs: Seq<(Player, Score)>,
    id: u32,
)
    requires
        bracket_post(roster, h),
        score_post(h, recs),
        !roster_has(roster, id),
    ensures
        forall|k: int| 0 <= k < recs.len() ==> (#[trigger] recs[k]).0.id != id,
{
    assert forall|k: int| 0 <= k < recs.len() implies (#[trigger] recs[k]).0.id != id by {
        if recs[k].0.id == id {
            assert(h.len() > 0);
            assert(roster.len() >= 2);
            if recs[k].0.id == h[h.len() - 1].winner.id {
                assert(roster.contains(h[h.len() - 1].winner));
                let kr = choose|kr: int|
                    0 <= kr < roster.len() && #[trigger] roster[kr] == h[h.len() - 1].winner;
                assert(roster_has(roster, id));
            } else {
                assert(is_loser(h, id));
                let i = choose|i: int| 0 <= i < h.len() && (#[trigger] h[i]).loser.id == id;
                assert(roster.contains(h[i].loser));
                let kr = choose|kr: int|
                    0 <= kr < roster.len() && #[trigger] roster[kr] == h[i].loser;
                assert(roster_has(roster, id));
            }
        }
    }
}

/// In a scored bracket over a roster of two to ten, a roster member
/// always earns at least one point: the champion takes 5 and every
/// loser's placement lies within the scoring table.
proof fn lemma_target_scores(
    roster: Seq<Player>,
    h: Seq<FightResult>,
    recs: Seq<(Player, Score)>,
    id: u32,
)
    requires
        distinct_ids(roster),
        2 <= roster.len() <= 10,
        bracket_post(roster, h),
        score_post(h, recs),
        roster_has(roster, id),
    ensures
        points_of(recs, id) >= 1,
{
    let champ = h[h.len() - 1].winner;
    if id == champ.id {
        let kc = choose|kc: int|
            0 <= kc < recs.len() && (#[trigger] recs[kc]).0 == champ && recs[kc].1
                == champion_score(h);
        lemma_points_of_found(recs, kc);
        assert(recs[kc].1.points >= 5);
    } else {
        let kr = choose|kr: int| 0 <= kr < roster.len() && (#[trigger] roster[kr]).id == id;
        assert(is_loser(h, id));
        let i = choose|i: int| 0 <= i < h.len() && (#[trigger] h[i]).loser.id == id;
        let kl = choose|kl: int|
            0 <= kl < recs.len() && (#[trigger] recs[kl]).0 == h[i].loser && recs[kl].1
                == loser_score(h, i);
        lemma_points_of_found(recs, kl);
        assert(2 <= h.len() - i + 1 <= 10);
        assert(recs[kl].1.points >= 1);
    }
}

/// One Monte Carlo trial: simulate one bracket over a copy of the
/// fixed roster, score the resulting history, and read the target's
/// points from the records. A roster of one crowns its sole member
/// champion; a target absent from the roster scores 0; a target in a
/// roster of two to ten always scores at least 1; no outcome ever
/// exceeds 8 points.
pub fn trial_points(players: &Vec<Player>, target_id: u32) -> (pts: u32)
    requires
        distinct_ids(players@),
        players@.len() + 2 <= u32::MAX,
    ensures
        trial_outcome(players@, target_id, pts),
        pts <= 8,
        !roster_has(players@, target_id) ==> pts == 0,
        players@.len() == 1 && players@[0].id == target_id ==> pts == 5,
        roster_has(players@, target_id) && 2 <= players@.len() <= 10 ==> pts >= 1,
{
    if players.len() == 1 {
        let solo = score_single(players[0]);
        proof {
            if roster_has(players@, target_id) {
                let kr = choose|kr: int|
                    0 <= kr < players@.len() && (#[trigger] players@[kr]).id == target_id;
                assert(kr == 0);
            }
        }
        if solo.0.id == target_id {
            return solo.1.points;
        } else {
            return 0;
        }
    }
    let roster = copy_roster(players);
    let history = play_match(roster);
    let records = score_match(history);
    let pts: u32 = match find_record(&records, target_id) {
        Some(k) => {
            proof {
                lemma_points_of_found(records@, k as int);
                lemma_points_bound(history@, records@, k as int);
            }
            records[k].1.points
        },
        None => {
            proof {
                assert(points_of(records@, target_id) == 0);
            }
            0
        },
    };
    proof {
        assert(bracket_post(players@, history@) && score_post(history@, records@) && pts
            == points_of(records@, target_id));
        if !roster_has(players@, target_id) {
            lemma_absent_target(players@, history@, records@, target_id);
        }
        if roster_has(players@, target_id) && 2 <= players@.len() <= 10 {
            lemma_target_scores(players@, history@, records@, target_id);
        }
    }
    pts
}

/// Runs independent bracket trials over the fixed roster and sums
/// the target's points; the caller divides by `trials` for the Monte
/// Carlo average. A roster with a duplicated id is rejected, as is a
/// request for zero trials. A successful sum is exactly the sum of
/// `trials` per-trial outcomes, each a scored bracket's verdict for
/// the target: at most 8 points per trial, 0 in every trial for an
/// absent target, and exactly 5 per trial for the sole member of a
/// one-competitor roster.
pub fn run_trials(players: &Vec<Player>, target_id: u32, trials: u32) -> (r: Result<
    u64,
    SimError,
>)
    requires
        players@.len() + 2 <= u32::MAX,
    ensures
        match r {
            Ok(sum) => {
                &&& distinct_ids(players@)
                &&& trials >= 1
                &&& exists|outcomes: Seq<u32>|
                    #![trigger all_trial_outcomes(players@, target_id, outcomes)]
                    all_trial_outcomes(players@, target_id, outcomes) && outcomes.len() == trials
                        && sum as int == sum_of(outcomes)
                &&& sum <= 8 * (trials as u64)
                &&& !roster_has(players@, target_id) ==> sum == 0
                &&& players@.len() == 1 && players@[0].id == target_id ==> sum == 5 * (
                trials as u64)
            },
            Err(e) => (e == SimError::InvalidRoster && !distinct_ids(players@)) || (e
                == SimError::InvalidTrialCount && distinct_ids(players@) && trials == 0),
        },
{
    if !check_distinct_ids(players) {
        return Err(SimError::InvalidRoster);
    }
    if trials == 0 {
        return Err(SimError::InvalidTrialCount);
    }
    let mut sum: u64 = 0;
    let mut done: u32 = 0;
    let ghost mut outcomes: Seq<u32> = Seq::empty();
    while done < trials
        invariant
            distinct_ids(players@),
            players@.len() + 2 <= u32::MAX,
            done <= trials,
            sum <= 8 * (done as u64),
            outcomes.len() == done,
            all_trial_outcomes(players@, target_id, outcomes),
            sum as int == sum_of(outcomes),
            !roster_has(players@, target_id) ==> sum == 0,
            players@.len() == 1 && players@[0].id == target_id ==> sum == 5 * (done as u64),
        decreases trials - done,
    {
        let pts = trial_points(players, target_id);
        sum = sum + (pts as u64);
        done = done + 1;
        proof {
            let prev = outcomes;
            outcomes = outcomes.push(pts);
            assert(outcomes.drop_last() =~= prev);
            assert(outcomes.last() == pts);
            assert forall|i: int|
                0 <= i < outcomes.len() implies trial_outcome(
                players@,
                target_id,
                #[trigger] outcomes[i],
            ) by {
                if i < prev.len() {
                    assert(outcomes[i] == prev[i]);
                }
            }
        }
    }
    proof {
        assert(all_trial_outcomes(players@, target_id, outcomes));
    }
    Ok(sum)
}

} // verus!
