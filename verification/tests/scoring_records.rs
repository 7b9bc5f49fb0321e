use battle_royale::bracket::play_match;
use battle_royale::model::{FightResult, Player, Score};
use battle_royale::scoring::{score_match, score_single};

fn player(id: u32, elo: i64) -> Player {
    Player { id, player_elo: elo, current_elo: 0 }
}

fn beats(w: Player, l: Player) -> FightResult {
    FightResult { winner: w, loser: l }
}

fn record(records: &[(Player, Score)], id: u32) -> Score {
    records.iter().find(|r| r.0.id == id).expect("record missing").1
}

#[test]
fn empty_history_scores_nobody() {
    assert_eq!(score_match(Vec::new()).len(), 0);
}

#[test]
fn single_competitor_is_crowned_explicitly() {
    let p = player(9, 1500);
    let (q, s) = score_single(p);
    assert_eq!(q, p);
    assert_eq!(s.placement, 1);
    assert_eq!(s.elims, 0);
    assert_eq!(s.points, 5);
}

#[test]
fn four_player_bracket_is_scored_fight_by_fight() {
    let a = player(1, 1500);
    let b = player(2, 1400);
    let c = player(3, 1300);
    let d = player(4, 1200);
    // a beats b, c beats d, a beats c: a is champion
    let history = vec![beats(a, b), beats(c, d), beats(a, c)];
    let records = score_match(history);
    assert_eq!(records.len(), 4);
    let sa = record(&records, 1);
    assert_eq!(sa.placement, 1);
    assert_eq!(sa.elims, 2);
    assert_eq!(sa.points, 5); // 5 for the title, no bonus below 3 kills
    let sc = record(&records, 3);
    assert_eq!(sc.placement, 2);
    assert_eq!(sc.elims, 1);
    assert_eq!(sc.points, 2);
    let sd = record(&records, 4);
    assert_eq!(sd.placement, 3);
    assert_eq!(sd.elims, 0);
    assert_eq!(sd.points, 2);
    let sb = record(&records, 2);
    assert_eq!(sb.placement, 4);
    assert_eq!(sb.elims, 0);
    assert_eq!(sb.points, 1);
}

#[test]
fn placement_points_and_kill_bonus_combine() {
    // one fighter mows down seven others and then falls in the final
    let star = player(1, 2000);
    let rest: Vec<Player> = (2..=9).map(|i| player(i, 1200)).collect();
    let mut history: Vec<FightResult> = rest[..7].iter().map(|&p| beats(star, p)).collect();
    history.push(beats(rest[7], star));
    let records = score_match(history);
    let s_star = record(&records, 1);
    assert_eq!(s_star.placement, 2);
    assert_eq!(s_star.elims, 7);
    assert_eq!(s_star.points, 2 + 3); // runner-up plus maximal kill bonus
    let s_champ = record(&records, 9);
    assert_eq!(s_champ.placement, 1);
    assert_eq!(s_champ.elims, 1);
    assert_eq!(s_champ.points, 5);
}

#[test]
fn placements_are_a_bijection_with_one_to_n() {
    for n in 2..=9u32 {
        let players: Vec<Player> = (1..=n).map(|i| player(i, 1200 + i as i64)).collect();
        let history = play_match(players);
        let records = score_match(history);
        let mut placements: Vec<u32> = records.iter().map(|r| r.1.placement).collect();
        placements.sort();
        let expected: Vec<u32> = (1..=n).collect();
        assert_eq!(placements, expected);
    }
}
