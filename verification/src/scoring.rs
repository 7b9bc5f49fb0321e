use vstd::prelude::*;

use crate::model::{
    consistent_players, is_loser, lemma_loser_take_step, lemma_participant_take, lemma_take_all,
    lemma_wins_bound, lemma_wins_frozen, lemma_wins_take_step, lemma_wins_zero, participant_value,
    valid_history, wins_of, FightResult, Player, Score,
};

verus! {

/// Points awarded for a final placement: the champion (1) earns 5, a
/// top-three finish 2, a top-ten finish 1, anything else - including
/// the out-of-table value 0 - earns nothing.
pub open spec fn spec_points_for_placement(placement: u32) -> u32 {
    if placement == 1 {
        5u32
    } else if 2 <= placement && placement <= 3 {
        2u32
    } else if 4 <= placement && placement <= 10 {
        1u32
    } else {
        0u32
    }
}

/// Points awarded for eliminations: 3 from seven kills up, 2 from
/// five, 1 from three, otherwise 0.
pub open spec fn spec_points_for_elims(elims: u32) -> u32 {
    if elims >= 7 {
        3u32
    } else if elims >= 5 {
        2u32
    } else if elims >= 3 {
        1u32
    } else {
        0u32
    }
}

/// Fixed placement points table.
pub fn points_for_placement(placement: u32) -> (r: u32)
    ensures
        r == spec_points_for_placement(placement),
{
    if placement == 1 {
        5
    } else if 2 <= placement && placement <= 3 {
        2
    } else if 4 <= placement && placement <= 10 {
        1
    } else {
        0
    }
}

/// Fixed elimination points table.
pub fn points_for_elims(elims: u32) -> (r: u32)
    ensures
        r == spec_points_for_elims(elims),
{
    if elims >= 7 {
        3
    } else if elims >= 5 {
        2
    } else if elims >= 3 {
        1
    } else {
        0
    }
}

/// The record frozen for the loser of fight `i`: the last fight's
/// loser places 2nd, the first fight's loser places `len + 1`-th, and
/// the points combine the placement table with the kills accumulated
/// before the loss (all of a loser's wins precede its loss in a valid
/// history).
pub open spec fn loser_score(h: Seq<FightResult>, i: int) -> Score {
    let placement = (h.len() - i + 1) as u32;
    let elims = wins_of(h, h[i].loser.id) as u32;
    Score {
        points: (spec_points_for_placement(placement) + spec_points_for_elims(elims)) as u32,
        placement,
        elims,
    }
}

/// The champion's record: placement 1, full win count, points from
/// both tables.
pub open spec fn champion_score(h: Seq<FightResult>) -> Score {
    let elims = wins_of(h, h[h.len() - 1].winner.id) as u32;
    Score {
        points: (spec_points_for_placement(1) + spec_points_for_elims(elims)) as u32,
        placement: 1,
        elims,
    }
}

/// What scoring a valid history guarantees: one record per
/// competitor id; every fight's loser holds exactly its frozen
/// record; the winner of the last fight holds the champion record;
/// and nothing else is recorded.
pub open spec fn score_post(h: Seq<FightResult>, records: Seq<(Player, Score)>) -> bool {
    &&& h.len() == 0 ==> records.len() == 0
    &&& forall|k1: int, k2: int|
        0 <= k1 < records.len() && 0 <= k2 < records.len() && k1 != k2 ==> records[k1].0.id
            != records[k2].0.id
    &&& forall|i: int|
        0 <= i < h.len() ==> exists|k: int|
            0 <= k < records.len() && (#[trigger] records[k]).0 == (#[trigger] h[i]).loser
                && records[k].1 == loser_score(h, i)
    &&& h.len() > 0 ==> exists|k: int|
        0 <= k < records.len() && (#[trigger] records[k]).0 == h[h.len() - 1].winner
            && records[k].1 == champion_score(h)
    &&& forall|k: int|
        0 <= k < records.len() ==> h.len() > 0 && ((#[trigger] records[k]).0.id == h[h.len()
            - 1].winner.id || is_loser(h, records[k].0.id))
}

/// The first record carrying this id, if any.
pub fn find_record(records: &Vec<(Player, Score)>, id: u32) -> (r: Option<usize>)
    ensures
        match r {
            Some(k) => k < records@.len() && records@[k as int].0.id == id,
            None => forall|k: int| 0 <= k < records@.len() ==> (#[trigger] records@[k]).0.id != id,
        },
{
    let mut k: usize = 0;
    while k < records.len()
        invariant
            k <= records@.len(),
            forall|j: int| 0 <= j < k ==> (#[trigger] records@[j]).0.id != id,
        decreases records@.len() - k,
    {
        if records[k].0.id == id {
            return Some(k);
        }
        k = k + 1;
    }
    None
}

/// The id half of the scoring loop's state after `t` fights have
/// been replayed: record ids are unique and belong to participants
/// of the prefix, and every participant of the prefix has a record.
spec fn score_inv_ids(h: Seq<FightResult>, t: int, r: Seq<(Player, Score)>) -> bool {
    &&& forall|k1: int, k2: int|
        0 <= k1 < r.len() && 0 <= k2 < r.len() && k1 != k2 ==> r[k1].0.id != r[k2].0.id
    &&& forall|k: int| 0 <= k < r.len() ==> participant_value(h.take(t), (#[trigger] r[k]).0)
    &&& forall|i: int|
        0 <= i < t ==> (exists|k: int|
            0 <= k < r.len() && (#[trigger] r[k]).0.id == (#[trigger] h[i]).loser.id) && (
        exists|k: int| 0 <= k < r.len() && (#[trigger] r[k]).0.id == h[i].winner.id)
}

/// The score half of the loop's state: fallen competitors hold their
/// frozen record, the still-alive only their kill count.
spec fn score_inv_scores(h: Seq<FightResult>, t: int, r: Seq<(Player, Score)>) -> bool {
    &&& forall|k: int, i: int|
        0 <= k < r.len() && 0 <= i < t && (#[trigger] r[k]).0.id == (#[trigger] h[i]).loser.id
            ==> r[k].0 == h[i].loser && r[k].1 == loser_score(h, i)
    &&& forall|k: int|
        0 <= k < r.len() && !is_loser(h.take(t), (#[trigger] r[k]).0.id) ==> r[k].1.placement == 0
            && r[k].1.points == 0 && r[k].1.elims == wins_of(h.take(t), r[k].0.id)
}

/// Both halves together.
spec fn score_inv(h: Seq<FightResult>, t: int, r: Seq<(Player, Score)>) -> bool {
    score_inv_ids(h, t, r) && score_inv_scores(h, t, r)
}

/// In a valid history, a fight's winner has not lost up to and
/// including that fight, and its loser has not lost earlier.
proof fn lemma_fight_fresh(h: Seq<FightResult>, t: int)
    requires
        valid_history(h),
        0 <= t < h.len(),
    ensures
        h[t].winner.id != h[t].loser.id,
        !is_loser(h.take(t + 1), h[t].winner.id),
        !is_loser(h.take(t), h[t].winner.id),
        !is_loser(h.take(t), h[t].loser.id),
{
    assert(!is_loser(h.take(t + 1), h[t].winner.id)) by {
        if is_loser(h.take(t + 1), h[t].winner.id) {
            let j = choose|j: int|
                0 <= j < h.take(t + 1).len() && (#[trigger] h.take(t + 1)[j]).loser.id
                    == h[t].winner.id;
            assert(h[j].loser.id == h[t].winner.id);
        }
    }
    lemma_loser_take_step(h, t, h[t].winner.id);
    assert(!is_loser(h.take(t), h[t].loser.id)) by {
        if is_loser(h.take(t), h[t].loser.id) {
            let j = choose|j: int|
                0 <= j < h.take(t).len() && (#[trigger] h.take(t)[j]).loser.id == h[t].loser.id;
            assert(h[j].loser.id == h[t].loser.id);
            assert(j != t);
        }
    }
}

/// The shape of one replay step: `r1` is the record table after the
/// winner's kill is counted (updated at `kw`, or pushed when `kw` is
/// negative), and `r2` after the loser is frozen (updated at `kl`,
/// or pushed when `kl` is negative).
spec fn step_shape(
    h: Seq<FightResult>,
    t: int,
    r0: Seq<(Player, Score)>,
    r1: Seq<(Player, Score)>,
    r2: Seq<(Player, Score)>,
    kw: int,
    kl: int,
) -> bool {
    &&& 0 <= kw ==> kw < r0.len() && r0[kw].0.id == h[t].winner.id && r0[kw].1.elims + 1
        <= u32::MAX && r1 == r0.update(
        kw,
        (
            r0[kw].0,
            Score {
                points: r0[kw].1.points,
                placement: r0[kw].1.placement,
                elims: (r0[kw].1.elims + 1) as u32,
            },
        ),
    )
    &&& kw < 0 ==> (forall|k: int| 0 <= k < r0.len() ==> (#[trigger] r0[k]).0.id != h[t].winner.id)
        && r1 == r0.push((h[t].winner, Score { points: 0, placement: 0, elims: 1 }))
    &&& 0 <= kl ==> kl < r1.len() && r1[kl].0.id == h[t].loser.id && r2 == r1.update(
        kl,
        (
            r1[kl].0,
            Score {
                points: (spec_points_for_elims(r1[kl].1.elims) + spec_points_for_placement(
                    (h.len() - t + 1) as u32,
                )) as u32,
                placement: (h.len() - t + 1) as u32,
                elims: r1[kl].1.elims,
            },
        ),
    )
    &&& kl < 0 ==> (forall|k: int| 0 <= k < r1.len() ==> (#[trigger] r1[k]).0.id != h[t].loser.id)
        && r2 == r1.push(
        (
            h[t].loser,
            Score {
                points: spec_points_for_placement((h.len() - t + 1) as u32),
                placement: (h.len() - t + 1) as u32,
                elims: 0,
            },
        ),
    )
}

/// One replay step keeps the record ids unique, tied to participants
/// of the longer prefix, and complete for every fighter seen so far.
#[verifier::rlimit(100)]
proof fn lemma_score_step_ids(
    h: Seq<FightResult>,
    t: int,
    r0: Seq<(Player, Score)>,
    r1: Seq<(Player, Score)>,
    r2: Seq<(Player, Score)>,
    kw: int,
    kl: int,
)
    requires
        valid_history(h),
        0 <= t < h.len(),
        h.len() + 2 <= u32::MAX,
        score_inv(h, t, r0),
        step_shape(h, t, r0, r1, r2, kw, kl),
    ensures
        score_inv_ids(h, t + 1, r2),
{
    let w = h[t].winner;
    let l = h[t].loser;
    lemma_fight_fresh(h, t);
    assert(h.take(t).len() == t);
    assert(h.take(t + 1).len() == t + 1);
    assert(h.take(t + 1)[t] == h[t]);
    assert(forall|j: int| 0 <= j < t ==> #[trigger] h.take(t + 1)[j] == h.take(t)[j]);
    assert(forall|k: int| 0 <= k < r0.len() ==> (#[trigger] r1[k]).0 == r0[k].0);
    assert(forall|k: int| 0 <= k < r1.len() ==> (#[trigger] r2[k]).0 == r1[k].0);
    let kw1: int = if kw >= 0 {
        kw
    } else {
        r0.len() as int
    };
    let kl2: int = if kl >= 0 {
        kl
    } else {
        r1.len() as int
    };
    assert(r1[kw1].0.id == w.id);
    assert(r2[kw1].0.id == w.id);
    assert(r2[kl2].0.id == l.id);
    if kw < 0 {
        assert(r2[r0.len() as int].0 == w);
    }
    if kl < 0 {
        assert(r2[r1.len() as int].0 == l);
    }
    assert forall|k1: int, k2: int|
        0 <= k1 < r2.len() && 0 <= k2 < r2.len() && k1 != k2 implies r2[k1].0.id != r2[k2].0.id by {
        if k1 >= r0.len() {
            assert(r2[k1].0.id == w.id || r2[k1].0.id == l.id);
        }
        if k2 >= r0.len() {
            assert(r2[k2].0.id == w.id || r2[k2].0.id == l.id);
        }
        if k1 < r0.len() && k2 < r0.len() {
            assert(r0[k1].0.id != r0[k2].0.id);
        }
    }
    assert forall|k: int|
        0 <= k < r2.len() implies participant_value(h.take(t + 1), (#[trigger] r2[k]).0) by {
        if k < r0.len() {
            assert(participant_value(h.take(t), r0[k].0));
            let j = choose|j: int|
                0 <= j < h.take(t).len() && ((#[trigger] h.take(t)[j]).winner == r0[k].0
                    || h.take(t)[j].loser == r0[k].0);
            assert(h.take(t + 1)[j] == h.take(t)[j]);
            assert(r2[k].0 == r0[k].0);
        } else {
            assert(r2[k].0 == w || r2[k].0 == l);
        }
    }
    assert forall|i: int|
        0 <= i < t + 1 implies (exists|k: int|
        0 <= k < r2.len() && (#[trigger] r2[k]).0.id == (#[trigger] h[i]).loser.id) && (
    exists|k: int| 0 <= k < r2.len() && (#[trigger] r2[k]).0.id == h[i].winner.id) by {
        if i < t {
            let ka = choose|ka: int| 0 <= ka < r0.len() && (#[trigger] r0[ka]).0.id == h[i].loser.id;
            assert(r2[ka].0.id == h[i].loser.id);
            let kb = choose|kb: int|
                0 <= kb < r0.len() && (#[trigger] r0[kb]).0.id == h[i].winner.id;
            assert(r2[kb].0.id == h[i].winner.id);
        } else {
            assert(r2[kl2].0.id == h[t].loser.id);
            assert(r2[kw1].0.id == h[t].winner.id);
        }
    }
}

/// One replay step freezes exactly the new loser's record and keeps
/// every still-alive record at its kill count.
#[verifier::rlimit(100)]
proof fn lemma_score_step_scores(
    h: Seq<FightResult>,
    t: int,
    r0: Seq<(Player, Score)>,
    r1: Seq<(Player, Score)>,
    r2: Seq<(Player, Score)>,
    kw: int,
    kl: int,
)
    requires
        valid_history(h),
        0 <= t < h.len(),
        h.len() + 2 <= u32::MAX,
        score_inv(h, t, r0),
        step_shape(h, t, r0, r1, r2, kw, kl),
    ensures
        score_inv_scores(h, t + 1, r2),
{
    let w = h[t].winner;
    let l = h[t].loser;
    lemma_fight_fresh(h, t);
    lemma_take_all(h);
    lemma_wins_take_step(h, t, w.id);
    lemma_wins_take_step(h, t, l.id);
    lemma_wins_frozen(h, t, h.len() as int);
    lemma_wins_bound(h.take(t), w.id);
    assert(h.take(t).len() == t);
    assert(h.take(t + 1).len() == t + 1);
    assert(h.take(t + 1)[t] == h[t]);
    assert(forall|k: int| 0 <= k < r0.len() ==> (#[trigger] r1[k]).0 == r0[k].0);
    assert(forall|k: int| 0 <= k < r1.len() ==> (#[trigger] r2[k]).0 == r1[k].0);
    let kw1: int = if kw >= 0 {
        kw
    } else {
        r0.len() as int
    };
    let kl2: int = if kl >= 0 {
        kl
    } else {
        r1.len() as int
    };
    assert(r1[kw1].0.id == w.id);
    assert(kl != kw1);
    assert(r2[kw1].1 == r1[kw1].1);
    if kw < 0 {
        lemma_wins_zero(h.take(t), w.id);
        assert forall|j: int|
            0 <= j < h.take(t).len() implies (#[trigger] h.take(t)[j]).winner.id != w.id by {
            assert(h.take(t)[j] == h[j]);
            if h[j].winner.id == w.id {
                assert(exists|k: int|
                    0 <= k < r0.len() && (#[trigger] r0[k]).0.id == h[j].winner.id);
            }
        }
        assert(wins_of(h.take(t), w.id) == 0);
    }
    assert(r2[kw1].1.elims == wins_of(h.take(t + 1), w.id));
    assert(r2[kw1].1.placement == 0 && r2[kw1].1.points == 0);
    assert(r2[kl2].0.id == l.id);
    if kl >= 0 {
        assert(kl < r0.len());
        assert(r1[kl].1 == r0[kl].1);
        assert(r0[kl].1.elims == wins_of(h.take(t), l.id));
    } else {
        lemma_wins_zero(h.take(t), l.id);
        assert forall|j: int|
            0 <= j < h.take(t).len() implies (#[trigger] h.take(t)[j]).winner.id != l.id by {
            assert(h.take(t)[j] == h[j]);
            if h[j].winner.id == l.id {
                assert(exists|k: int|
                    0 <= k < r0.len() && (#[trigger] r0[k]).0.id == h[j].winner.id);
                let k0 = choose|k0: int|
                    0 <= k0 < r0.len() && (#[trigger] r0[k0]).0.id == h[j].winner.id;
                assert(r1[k0].0.id == l.id);
            }
        }
        assert(wins_of(h.take(t), l.id) == 0);
    }
    assert(wins_of(h, l.id) == wins_of(h.take(t), l.id));
    assert(r2[kl2].1 == loser_score(h, t));
    assert(r2[kl2].0 == l) by {
        if kl >= 0 {
            assert(participant_value(h.take(t), r0[kl].0));
            lemma_participant_take(h, t, r0[kl].0);
            assert(participant_value(h, l)) by {
                assert(h.take(h.len() as int)[t] == h[t]);
            }
            assert(consistent_players(h));
        }
    }
    assert forall|k: int, i: int|
        0 <= k < r2.len() && 0 <= i < t + 1 && (#[trigger] r2[k]).0.id
            == (#[trigger] h[i]).loser.id implies r2[k].0 == h[i].loser && r2[k].1 == loser_score(
        h,
        i,
    ) by {
        if i < t {
            assert(h[i].loser.id != w.id);
            assert(h[i].loser.id != l.id);
            assert(k < r0.len());
            assert(k != kw1 && k != kl2);
            assert(r2[k].1 == r0[k].1);
            assert(r0[k].0.id == h[i].loser.id);
        } else {
            assert(k == kl2);
        }
    }
    assert forall|k: int|
        0 <= k < r2.len() && !is_loser(h.take(t + 1), (#[trigger] r2[k]).0.id) implies r2[k].1.placement
        == 0 && r2[k].1.points == 0 && r2[k].1.elims == wins_of(h.take(t + 1), r2[k].0.id) by {
        let id = r2[k].0.id;
        lemma_loser_take_step(h, t, id);
        lemma_wins_take_step(h, t, id);
        assert(id != l.id);
        if k == kw1 {
        } else {
            assert(id != w.id) by {
                if id == w.id {
                    assert(r2[k].0.id == r2[kw1].0.id);
                    assert(k == kw1);
                }
            }
            assert(k != kl2);
            assert(k < r0.len());
            assert(r2[k].1 == r0[k].1);
            assert(!is_loser(h.take(t), id));
        }
    }
}

/// Replaying one more fight preserves the scoring invariant.
#[verifier::rlimit(100)]
proof fn lemma_score_step(
    h: Seq<FightResult>,
    t: int,
    r0: Seq<(Player, Score)>,
    r1: Seq<(Player, Score)>,
    r2: Seq<(Player, Score)>,
    kw: int,
    kl: int,
)
    requires
        valid_history(h),
        0 <= t < h.len(),
        h.len() + 2 <= u32::MAX,
        score_inv(h, t, r0),
        step_shape(h, t, r0, r1, r2, kw, kl),
    ensures
        score_inv(h, t + 1, r2),
{
    lemma_score_step_ids(h, t, r0, r1, r2, kw, kl);
    lemma_score_step_scores(h, t, r0, r1, r2, kw, kl);
}

/// Converts one elimination history into final records: fights are
/// replayed in order, each winner's kill counter grows, each loser is
/// frozen with its placement and points, and the winner of the last
/// fight is finally crowned champion.
#[verifier::rlimit(100)]
pub fn score_match(history: Vec<FightResult>) -> (results: Vec<(Player, Score)>)
    requires
        valid_history(history@),
        history@.len() + 2 <= u32::MAX,
    ensures
        score_post(history@, results@),
{
    let ghost h = history@;
    let mut records: Vec<(Player, Score)> = Vec::new();
    let mut index: usize = 0;
    while index < history.len()
        invariant
            valid_history(h),
            h == history@,
            h.len() + 2 <= u32::MAX,
            0 <= index <= h.len(),
            records@.len() <= 2 * index,
            score_inv(h, index as int, records@),
        decreases h.len() - index,
    {
        let ghost t = index as int;
        let ghost r0 = records@;
        let f = history[index];
        proof {
            lemma_fight_fresh(h, t);
            lemma_wins_bound(h.take(t), f.winner.id);
            assert(h.take(t).len() == t);
        }
        // the winner's kill counter grows by one
        let wfound = find_record(&records, f.winner.id);
        let ghost mut kw: int = -1;
        match wfound {
            Some(k) => {
                proof {
                    kw = k as int;
                }
                let (pl, sc) = records[k];
                records[k] = (
                    pl,
                    Score { points: sc.points, placement: sc.placement, elims: sc.elims + 1 },
                );
            },
            None => {
                records.push((f.winner, Score { points: 0, placement: 0, elims: 1 }));
            },
        }
        let ghost r1 = records@;
        // the loser is frozen with its placement and points
        let placement_us = history.len() - index + 1;
        let placement = placement_us as u32;
        let lfound = find_record(&records, f.loser.id);
        let ghost mut kl: int = -1;
        match lfound {
            Some(k) => {
                proof {
                    kl = k as int;
                }
                let (pl, sc) = records[k];
                let points = points_for_elims(sc.elims) + points_for_placement(placement);
                records[k] = (pl, Score { points, placement, elims: sc.elims });
            },
            None => {
                let points = points_for_placement(placement);
                records.push((f.loser, Score { points, placement, elims: 0 }));
            },
        }
        let ghost r2 = records@;
        index = index + 1;
        proof {
            lemma_score_step(h, t, r0, r1, r2, kw, kl);
        }
    }
    // the winner of the last fight is crowned champion
    if history.len() > 0 {
        let last = history[history.len() - 1];
        let ghost rpre = records@;
        proof {
            lemma_take_all(h);
            assert(h[h.len() - 1].winner.id == last.winner.id);
            assert(exists|k: int|
                0 <= k < rpre.len() && (#[trigger] rpre[k]).0.id == last.winner.id);
            assert(!is_loser(h, last.winner.id)) by {
                if is_loser(h, last.winner.id) {
                    let j = choose|j: int|
                        0 <= j < h.len() && (#[trigger] h[j]).loser.id == last.winner.id;
                }
            }
            assert(!is_loser(h.take(h.len() as int), last.winner.id));
            lemma_wins_bound(h.take(h.len() as int), last.winner.id);
        }
        let cfound = find_record(&records, last.winner.id);
        match cfound {
            Some(k) => {
                let (pl, sc) = records[k];
                let points = points_for_elims(sc.elims) + points_for_placement(1);
                records[k] = (pl, Score { points, placement: 1, elims: sc.elims });
                proof {
                    lemma_score_finish(h, rpre, records@, k as int);
                }
            },
            None => {
                proof {
                    let kc = choose|kc: int|
                        0 <= kc < rpre.len() && (#[trigger] rpre[kc]).0.id == last.winner.id;
                    assert(false);
                }
            },
        }
    }
    records
}

/// Crowning the champion turns the loop invariant into the full
/// scoring contract: the last fight's winner, never a loser, holds
/// the champion record, and every other record is a frozen loser.
#[verifier::rlimit(100)]
proof fn lemma_score_finish(
    h: Seq<FightResult>,
    rpre: Seq<(Player, Score)>,
    rfinal: Seq<(Player, Score)>,
    k: int,
)
    requires
        valid_history(h),
        1 <= h.len(),
        h.len() + 2 <= u32::MAX,
        score_inv(h, h.len() as int, rpre),
        0 <= k < rpre.len(),
        rpre[k].0.id == h[h.len() - 1].winner.id,
        rfinal == rpre.update(
            k,
            (
                rpre[k].0,
                Score {
                    points: (spec_points_for_elims(rpre[k].1.elims) + spec_points_for_placement(
                        1,
                    )) as u32,
                    placement: 1,
                    elims: rpre[k].1.elims,
                },
            ),
        ),
    ensures
        score_post(h, rfinal),
{
    let n = h.len() as int;
    let champ = h[n - 1].winner;
    lemma_take_all(h);
    assert(!is_loser(h, champ.id)) by {
        if is_loser(h, champ.id) {
            let j = choose|j: int| 0 <= j < h.len() && (#[trigger] h[j]).loser.id == champ.id;
        }
    }
    assert(!is_loser(h.take(n), champ.id));
    assert(rpre[k].1.elims == wins_of(h.take(n), champ.id));
    assert(rpre[k].0 == champ) by {
        assert(participant_value(h.take(n), rpre[k].0));
        lemma_participant_take(h, n, rpre[k].0);
        assert(participant_value(h, champ)) by {
            assert(h.take(n)[n - 1] == h[n - 1]);
        }
        assert(consistent_players(h));
    }
    assert(rfinal[k].1 == champion_score(h));
    assert(rfinal.len() == rpre.len());
    assert(forall|k2: int| 0 <= k2 < rpre.len() ==> (#[trigger] rfinal[k2]).0 == rpre[k2].0);
    assert(forall|k2: int|
        0 <= k2 < rpre.len() && k2 != k ==> (#[trigger] rfinal[k2]).1 == rpre[k2].1);
    assert forall|i: int|
        0 <= i < h.len() implies exists|kx: int|
        0 <= kx < rfinal.len() && (#[trigger] rfinal[kx]).0 == (#[trigger] h[i]).loser
            && rfinal[kx].1 == loser_score(h, i) by {
        let kl = choose|kl: int| 0 <= kl < rpre.len() && (#[trigger] rpre[kl]).0.id == h[i].loser.id;
        assert(rpre[kl].0 == h[i].loser && rpre[kl].1 == loser_score(h, i));
        assert(h[i].loser.id != champ.id);
        assert(kl != k);
        assert(rfinal[kl].0 == h[i].loser && rfinal[kl].1 == loser_score(h, i));
    }
    assert forall|kx: int|
        0 <= kx < rfinal.len() implies h.len() > 0 && ((#[trigger] rfinal[kx]).0.id == h[h.len()
        - 1].winner.id || is_loser(h, rfinal[kx].0.id)) by {
        assert(participant_value(h.take(n), rpre[kx].0));
        lemma_participant_take(h, n, rpre[kx].0);
        let j = choose|j: int|
            0 <= j < h.len() && ((#[trigger] h[j]).winner == rpre[kx].0 || h[j].loser == rpre[kx].0);
        if h[j].loser == rpre[kx].0 {
            assert(is_loser(h, rfinal[kx].0.id));
        } else {
            assert(h[j].winner.id == h[h.len() - 1].winner.id || is_loser(h, h[j].winner.id));
        }
    }
}

/// A roster of one competitor produces an empty history; its sole
/// member is still crowned champion with an explicit record instead
/// of going unscored.
pub fn score_single(p: Player) -> (r: (Player, Score))
    ensures
        r.0 == p,
        r.1.placement == 1,
        r.1.elims == 0,
        r.1.points == 5,
{
    let points = points_for_placement(1) + points_for_elims(0);
    (p, Score { points, placement: 1, elims: 0 })
}

/// The points of the record carrying this id, or 0 when none does.
pub open spec fn points_of(records: Seq<(Player, Score)>, id: u32) -> u32 {
    if exists|k: int| 0 <= k < records.len() && (#[trigger] records[k]).0.id == id {
        records[choose|k: int| 0 <= k < records.len() && (#[trigger] records[k]).0.id == id].1.points
    } else {
        0u32
    }
}

/// With record ids unique, `points_of` reads exactly the record
/// found at any index carrying the id.
pub proof fn lemma_points_of_found(records: Seq<(Player, Score)>, k: int)
    requires
        0 <= k < records.len(),
        forall|k1: int, k2: int|
            0 <= k1 < records.len() && 0 <= k2 < records.len() && k1 != k2 ==> records[k1].0.id
                != records[k2].0.id,
    ensures
        points_of(records, records[k].0.id) == records[k].1.points,
{
    let id = records[k].0.id;
    assert(exists|k2: int| 0 <= k2 < records.len() && (#[trigger] records[k2]).0.id == id);
    let kc = choose|k2: int| 0 <= k2 < records.len() && (#[trigger] records[k2]).0.id == id;
    assert(kc == k);
}

/// No record can hold more than 8 points: the placement table tops
/// out at 5 and the elimination table at 3.
pub proof fn lemma_points_bound(h: Seq<FightResult>, records: Seq<(Player, Score)>, k: int)
    requires
        score_post(h, records),
        0 <= k < records.len(),
    ensures
        records[k].1.points <= 8,
{
    let n = h.len() as int;
    if records[k].0.id == h[n - 1].winner.id {
        let kc = choose|kc: int|
            0 <= kc < records.len() && (#[trigger] records[kc]).0 == h[n - 1].winner
                && records[kc].1 == champion_score(h);
        assert(kc == k);
    } else {
        assert(is_loser(h, records[k].0.id));
        let i = choose|i: int| 0 <= i < h.len() && (#[trigger] h[i]).loser.id == records[k].0.id;
        let kl = choose|kl: int|
            0 <= kl < records.len() && (#[trigger] records[kl]).0 == h[i].loser && records[kl].1
                == loser_score(h, i);
        assert(kl == k);
    }
}

/// Some record carries this placement value.
pub open spec fn placement_assigned(records: Seq<(Player, Score)>, v: int) -> bool {
    exists|k: int| 0 <= k < records.len() && (#[trigger] records[k]).1.placement == v
}

/// Placements form a bijection with 1..=n: every record's placement
/// lies in that range, no two records share one, and every rank in
/// the range is assigned.
pub proof fn lemma_placement_bijection(h: Seq<FightResult>, records: Seq<(Player, Score)>)
    requires
        valid_history(h),
        1 <= h.len(),
        h.len() + 2 <= u32::MAX,
        score_post(h, records),
    ensures
        forall|k: int|
            0 <= k < records.len() ==> 1 <= (#[trigger] records[k]).1.placement <= h.len() + 1,
        forall|k1: int, k2: int|
            0 <= k1 < records.len() && 0 <= k2 < records.len() && k1 != k2
                ==> records[k1].1.placement != records[k2].1.placement,
        forall|v: int| 1 <= v <= h.len() + 1 ==> #[trigger] placement_assigned(records, v),
{
    let n = h.len() as int;
    let champ_id = h[n - 1].winner.id;
    assert(!is_loser(h, champ_id)) by {
        if is_loser(h, champ_id) {
            let j = choose|j: int| 0 <= j < h.len() && (#[trigger] h[j]).loser.id == champ_id;
        }
    }
    let kc = choose|kc: int|
        0 <= kc < records.len() && (#[trigger] records[kc]).0 == h[n - 1].winner && records[kc].1
            == champion_score(h);
    assert forall|k: int|
        0 <= k < records.len() implies (1 <= (#[trigger] records[k]).1.placement <= h.len() + 1)
        && (records[k].1.placement == 1 ==> k == kc) && (records[k].1.placement > 1 ==> records[k].1
        == loser_score(h, n + 1 - records[k].1.placement)) by {
        if records[k].0.id == champ_id {
            assert(k == kc);
        } else {
            assert(is_loser(h, records[k].0.id));
            let i = choose|i: int|
                0 <= i < h.len() && (#[trigger] h[i]).loser.id == records[k].0.id;
            let kl = choose|kl: int|
                0 <= kl < records.len() && (#[trigger] records[kl]).0 == h[i].loser
                    && records[kl].1 == loser_score(h, i);
            assert(kl == k);
            assert(records[k].1.placement == n - i + 1);
        }
    }
    assert forall|k1: int, k2: int|
        0 <= k1 < records.len() && 0 <= k2 < records.len() && k1 != k2 implies records[k1].1.placement
        != records[k2].1.placement by {
        if records[k1].1.placement == records[k2].1.placement {
            let v = records[k1].1.placement as int;
            if v == 1 {
                assert(k1 == kc && k2 == kc);
            } else {
                let i = n + 1 - v;
                assert(records[k1].1 == loser_score(h, i));
                assert(records[k2].1 == loser_score(h, i));
                assert(records[k1].0.id == h[i].loser.id);
                assert(records[k2].0.id == h[i].loser.id);
            }
        }
    }
    assert forall|v: int| 1 <= v <= h.len() + 1 implies #[trigger] placement_assigned(
        records,
        v,
    ) by {
        if v == 1 {
            assert(records[kc].1.placement == 1);
        } else {
            let i = n + 1 - v;
            assert(0 <= i < n);
            let kl = choose|kl: int|
                0 <= kl < records.len() && (#[trigger] records[kl]).0 == h[i].loser
                    && records[kl].1 == loser_score(h, i);
            assert(records[kl].1.placement == v);
        }
    }
}

} // verus!
