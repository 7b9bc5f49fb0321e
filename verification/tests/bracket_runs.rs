use battle_royale::bracket::{fight, play_match, resolve};
use battle_royale::model::Player;

fn player(id: u32, elo: i64) -> Player {
    Player { id, player_elo: elo, current_elo: 1000 }
}

fn roster(n: u32) -> Vec<Player> {
    (1..=n).map(|i| player(i, 1200 + 10 * i as i64)).collect()
}

#[test]
fn resolve_decides_by_the_roll() {
    let a = player(1, 1500);
    let b = player(2, 1400);
    let p = 600_000u64;
    // a roll below the probability crowns the first fighter, at or
    // above it the second, at the exact boundary included
    let r = resolve(a, b, p, 0);
    assert_eq!(r.winner, a);
    assert_eq!(r.loser, b);
    let r = resolve(a, b, p, 599_999);
    assert_eq!(r.winner, a);
    let r = resolve(a, b, p, 600_000);
    assert_eq!(r.winner, b);
    assert_eq!(r.loser, a);
    let r = resolve(a, b, p, 999_999);
    assert_eq!(r.winner, b);
}

#[test]
fn fight_pairs_exactly_the_two_fighters() {
    let a = player(1, 1500);
    let b = player(2, 1400);
    for _ in 0..50 {
        let r = fight(a, b);
        assert!(
            (r.winner == a && r.loser == b) || (r.winner == b && r.loser == a),
            "outcome must pair the two fighters"
        );
    }
}

#[test]
fn equal_fighters_can_each_win() {
    let a = player(1, 1200);
    let b = player(2, 1200);
    let mut a_won = false;
    let mut b_won = false;
    for _ in 0..1000 {
        let r = fight(a, b);
        if r.winner == a {
            a_won = true;
        } else {
            b_won = true;
        }
        if a_won && b_won {
            break;
        }
    }
    assert!(a_won && b_won, "an even fight must go both ways over 1000 draws");
}

#[test]
fn empty_and_single_rosters_fight_nobody() {
    assert_eq!(play_match(Vec::new()).len(), 0);
    assert_eq!(play_match(vec![player(7, 1600)]).len(), 0);
}

#[test]
fn bracket_has_n_minus_one_fights_and_covers_everyone() {
    for n in 2..=10u32 {
        let players = roster(n);
        let history = play_match(players.clone());
        assert_eq!(history.len(), (n - 1) as usize);
        let champ = history.last().unwrap().winner;
        assert!(players.contains(&champ));
        // the champion never loses; every other competitor loses exactly once
        for p in &players {
            let losses = history.iter().filter(|f| f.loser.id == p.id).count();
            if p.id == champ.id {
                assert_eq!(losses, 0, "champion {} lost", p.id);
            } else {
                assert_eq!(losses, 1, "competitor {} lost {} times", p.id, losses);
            }
        }
        // no winner fights on after being eliminated
        for (i, f) in history.iter().enumerate() {
            for (j, g) in history.iter().enumerate() {
                if j <= i {
                    assert_ne!(f.winner.id, g.loser.id);
                }
            }
        }
    }
}
