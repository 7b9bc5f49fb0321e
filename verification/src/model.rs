use vstd::prelude::*;

verus! {

/// One competitor: a stable identity and a fixed Elo-style skill
/// rating used by the combat model. `current_elo` is a secondary
/// rating that is carried along but never read by any rule.
#[derive(Clone, Copy, PartialEq, Eq, Structural, Debug)]
pub struct Player {
    pub id: u32,
    pub player_elo: i64,
    pub current_elo: i64,
}

/// The outcome of one resolved fight: an ordered winner/loser pair.
#[derive(Clone, Copy, PartialEq, Eq, Structural, Debug)]
pub struct FightResult {
    pub winner: Player,
    pub loser: Player,
}

/// A competitor's tournament record: accumulated points, final
/// placement (1 = champion), and the number of opponents eliminated.
#[derive(Clone, Copy, PartialEq, Eq, Structural, Debug)]
pub struct Score {
    pub points: u32,
    pub placement: u32,
    pub elims: u32,
}

/// All ids in the roster are pairwise distinct.
pub open spec fn distinct_ids(players: Seq<Player>) -> bool {
    forall|i: int, j: int|
        0 <= i < players.len() && 0 <= j < players.len() && i != j ==> players[i].id
            != players[j].id
}

/// Whether some roster member carries this id.
pub open spec fn roster_has(roster: Seq<Player>, id: u32) -> bool {
    exists|k: int| 0 <= k < roster.len() && (#[trigger] roster[k]).id == id
}

/// How many fights of `h` the competitor with this id won.
pub open spec fn wins_of(h: Seq<FightResult>, id: u32) -> nat
    decreases h.len(),
{
    if h.len() == 0 {
        0
    } else {
        wins_of(h.drop_last(), id) + (if h.last().winner.id == id {
            1nat
        } else {
            0nat
        })
    }
}

/// Whether this id ever appears as a loser in `h`.
pub open spec fn is_loser(h: Seq<FightResult>, id: u32) -> bool {
    exists|i: int| 0 <= i < h.len() && h[i].loser.id == id
}

/// Whether this exact Player value appears in some fight of `h`.
pub open spec fn participant_value(h: Seq<FightResult>, p: Player) -> bool {
    exists|i: int| 0 <= i < h.len() && (h[i].winner == p || h[i].loser == p)
}

/// Every appearance of an id in `h` carries the same Player value.
pub open spec fn consistent_players(h: Seq<FightResult>) -> bool {
    forall|p: Player, q: Player|
        #[trigger] participant_value(h, p) && #[trigger] participant_value(h, q) && p.id == q.id
            ==> p == q
}

/// A history that a random-elimination bracket can produce: nobody
/// beats themself, each competitor loses at most once, no winner has
/// been eliminated earlier, each id carries one fixed Player value,
/// and every winner either wins the final fight or loses later.
pub open spec fn valid_history(h: Seq<FightResult>) -> bool {
    &&& forall|i: int| 0 <= i < h.len() ==> h[i].winner.id != #[trigger] h[i].loser.id
    &&& forall|i: int, j: int|
        0 <= i < h.len() && 0 <= j < h.len() && i != j ==> h[i].loser.id != h[j].loser.id
    &&& forall|i: int, j: int|
        0 <= i < h.len() && 0 <= j <= i ==> h[i].winner.id != h[j].loser.id
    &&& consistent_players(h)
    &&& forall|i: int|
        0 <= i < h.len() ==> h[i].winner.id == h[h.len() - 1].winner.id || is_loser(
            h,
            #[trigger] h[i].winner.id,
        )
}

/// A win counted in a longer prefix: one more fight either adds one
/// win for its winner or leaves every count unchanged.
pub proof fn lemma_wins_take_step(h: Seq<FightResult>, t: int, id: u32)
    requires
        0 <= t < h.len(),
    ensures
        wins_of(h.take(t + 1), id) == wins_of(h.take(t), id) + (if h[t].winner.id == id {
            1nat
        } else {
            0nat
        }),
{
    assert(h.take(t + 1).drop_last() =~= h.take(t));
    assert(h.take(t + 1).last() == h[t]);
}

/// A competitor cannot win more fights than the history holds.
pub proof fn lemma_wins_bound(h: Seq<FightResult>, id: u32)
    ensures
        wins_of(h, id) <= h.len(),
    decreases h.len(),
{
    if h.len() > 0 {
        lemma_wins_bound(h.drop_last(), id);
    }
}

/// In a valid history all wins of a fight's loser happen before the
/// loss, so the prefix up to the loss already holds them all.
pub proof fn lemma_wins_frozen(h: Seq<FightResult>, i: int, t: int)
    requires
        valid_history(h),
        0 <= i < h.len(),
        i <= t <= h.len(),
    ensures
        wins_of(h.take(t), h[i].loser.id) == wins_of(h.take(i), h[i].loser.id),
    decreases t - i,
{
    if t > i {
        lemma_wins_frozen(h, i, t - 1);
        lemma_wins_take_step(h, t - 1, h[i].loser.id);
        assert(h[t - 1].winner.id != h[i].loser.id);
    }
}

/// A competitor without a counted win never appears as a winner, and
/// conversely.
pub proof fn lemma_wins_zero(h: Seq<FightResult>, id: u32)
    ensures
        (wins_of(h, id) == 0) <==> (forall|j: int|
            0 <= j < h.len() ==> (#[trigger] h[j]).winner.id != id),
    decreases h.len(),
{
    if h.len() > 0 {
        lemma_wins_zero(h.drop_last(), id);
        if wins_of(h, id) == 0 {
            assert forall|j: int| 0 <= j < h.len() implies (#[trigger] h[j]).winner.id != id by {
                if j < h.len() - 1 {
                    assert(h.drop_last()[j] == h[j]);
                }
            }
        }
        if forall|j: int| 0 <= j < h.len() ==> (#[trigger] h[j]).winner.id != id {
            assert forall|j: int|
                0 <= j < h.drop_last().len() implies (#[trigger] h.drop_last()[j]).winner.id
                != id by {
                assert(h.drop_last()[j] == h[j]);
            }
        }
    }
}

/// A Player value seen in a prefix is seen in the whole history.
pub proof fn lemma_participant_take(h: Seq<FightResult>, t: int, p: Player)
    requires
        0 <= t <= h.len(),
        participant_value(h.take(t), p),
    ensures
        participant_value(h, p),
{
    let j = choose|j: int|
        0 <= j < h.take(t).len() && ((#[trigger] h.take(t)[j]).winner == p || h.take(t)[j].loser
            == p);
    assert(h[j].winner == p || h[j].loser == p);
}

/// The whole history is its own full-length prefix.
pub proof fn lemma_take_all(h: Seq<FightResult>)
    ensures
        h.take(h.len() as int) =~= h,
{
}

/// Losing in a longer prefix: one more fight adds exactly its loser.
pub proof fn lemma_loser_take_step(h: Seq<FightResult>, t: int, id: u32)
    requires
        0 <= t < h.len(),
    ensures
        is_loser(h.take(t + 1), id) <==> (is_loser(h.take(t), id) || h[t].loser.id == id),
{
    if is_loser(h.take(t), id) {
        let i = choose|i: int| 0 <= i < h.take(t).len() && h.take(t)[i].loser.id == id;
        assert(h.take(t + 1)[i].loser.id == id);
    }
    if h[t].loser.id == id {
        assert(h.take(t + 1)[t].loser.id == id);
    }
    if is_loser(h.take(t + 1), id) && !(is_loser(h.take(t), id) || h[t].loser.id == id) {
        let i = choose|i: int|
            0 <= i < h.take(t + 1).len() && (#[trigger] h.take(t + 1)[i]).loser.id == id;
        assert(0 <= i < t + 1);
        if i < t {
            assert(h.take(t)[i].loser.id == id);
        }
        assert(false);
    }
}

} // verus!
