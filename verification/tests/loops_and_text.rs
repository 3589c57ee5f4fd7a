use clubbench::env::advance_day;
use clubbench::episode::{run_cadence, Action, Episode, EpisodeObservation, MarketRequest};
use clubbench::model::{Fixture, Game, League, Player, PlayStyle, Position, Standing, Team};
use clubbench::run::run_episode;
use clubbench::score::dimensions;
use clubbench::world::decimal_text;
use clubbench::text::{content_fingerprint, join_lines, sort_texts};

fn team(id: &str, name: &str) -> Team {
    Team {
        id: id.to_string(),
        name: name.to_string(),
        formation: "4-4-2".to_string(),
        football_nation: "England".to_string(),
        finance: 0,
        transfer_budget: 0,
        wage_budget: 0,
        play_style: PlayStyle::Balanced,
        starting_xi_ids: vec![],
    }
}

fn player(id: &str, team_id: &str) -> Player {
    Player {
        id: id.to_string(),
        match_name: format!("Name{}", id),
        team_id: Some(team_id.to_string()),
        position: Position::Forward,
        position_name: "Striker".to_string(),
        ovr: 70,
        date_of_birth: "2000-07-01".to_string(),
        condition: 90,
        fitness: 90,
        morale: 70,
        injured: false,
        transfer_listed: false,
        wage: 10,
        market_value: 100,
        transfer_offers: vec![],
    }
}

fn game() -> Game {
    Game {
        manager_team_id: Some("us".to_string()),
        today: "2026-07-01".to_string(),
        teams: vec![team("us", "Us FC"), team("them", "Them United")],
        players: vec![player("1", "us"), player("2", "them")],
        staff: vec![],
        league: Some(League {
            id: "l".to_string(),
            fixtures: vec![Fixture {
                date: "2026-07-01".to_string(),
                home_team_id: "us".to_string(),
                away_team_id: "them".to_string(),
                scheduled: true,
            }],
            standings: vec![
                Standing { team_id: "them".to_string(), played: 1, won: 1, drawn: 0, lost: 0, goals_for: 2, goals_against: 0, points: 3 },
                Standing { team_id: "us".to_string(), played: 1, won: 0, drawn: 0, lost: 1, goals_for: 0, goals_against: 2, points: 0 },
            ],
        }),
        competitions: vec![],
        scout_reports: vec![],
        scouting_assignments: vec![],
        transfer_window_open: false,
        user_match_today: false,
    }
}

// One engine day: the date moves on and today's fixtures are played.
fn next_day(g: &Game) -> Game {
    let mut n = g.clone();
    n.today = "2026-07-02".to_string();
    if let Some(l) = n.league.as_mut() {
        for f in l.fixtures.iter_mut() {
            f.scheduled = false;
        }
    }
    n
}

fn perform(g: &Game, _r: &MarketRequest) -> Game {
    g.clone()
}

#[test]
fn texts_sort_in_string_order_and_join_with_newlines() {
    let v = vec!["b".to_string(), "a".to_string(), "B".to_string(), "a".to_string()];
    let sorted = sort_texts(&v);
    assert_eq!(sorted, vec!["B", "a", "a", "b"]);
    let mut expected = v.clone();
    expected.sort();
    assert_eq!(sorted, expected);
    assert_eq!(join_lines(&sorted), "B\na\na\nb");
    assert_eq!(join_lines(&vec![]), "");
    assert_eq!(join_lines(&vec!["x".to_string()]), "x");
}

#[test]
fn texts_sort_multibyte_by_bytes() {
    let v = vec!["é".to_string(), "z".to_string(), "Z:1".to_string(), "Z:10".to_string()];
    let mut expected = v.clone();
    expected.sort();
    assert_eq!(sort_texts(&v), expected);
}

#[test]
fn scoring_dimensions_in_report_order() {
    let d = dimensions();
    let names: Vec<&str> = d.iter().map(|x| x.name).collect();
    assert_eq!(names, vec!["points", "net_value", "net_spend", "wage_bill", "squad_value", "avg_age", "squad_size"]);
    let higher: Vec<bool> = d.iter().map(|x| x.higher_better).collect();
    assert_eq!(higher, vec![true, true, false, false, true, false, false]);
}

#[test]
fn matchday_episode_applies_tactics_and_lineup_before_the_day() {
    let mut g = game();
    let tactics = |_g: &Game| Some(PlayStyle::Attacking);
    let lineup = |_g: &Game| vec!["1".to_string()];
    let r = run_episode(&mut g, 42, 2, &tactics, &lineup, &next_day);
    assert_eq!(g.teams[0].play_style, PlayStyle::Attacking);
    assert_eq!(g.teams[0].starting_xi_ids, vec!["1".to_string()]);
    assert_eq!(g.teams[1].play_style, PlayStyle::Balanced);
    assert_eq!(r.seed, 42);
    assert_eq!(r.position, 2);
    assert_eq!((r.played, r.won, r.drawn, r.lost, r.points), (1, 0, 0, 1, 0));
    assert_eq!((r.goals_for, r.goals_against), (0, 2));
}

#[test]
fn no_matchday_means_no_lineup() {
    let mut g = game();
    g.league.as_mut().unwrap().fixtures[0].date = "2026-08-01".to_string();
    let tactics = |_g: &Game| Some(PlayStyle::Attacking);
    let lineup = |_g: &Game| vec!["1".to_string()];
    let _ = run_episode(&mut g, 1, 3, &tactics, &lineup, &next_day);
    assert_eq!(g.teams[0].play_style, PlayStyle::Balanced);
    assert!(g.teams[0].starting_xi_ids.is_empty());
}

#[test]
fn cadence_runs_to_the_horizon_and_counts_decisions() {
    let mut ep = Episode::new(game(), 3);
    let act = |_o: &EpisodeObservation| Action::Continue;
    let r = run_cadence(&mut ep, 9, &act, &next_day, &perform);
    assert_eq!(r.seed, 9);
    assert_eq!(r.steps, 1);
    assert_eq!(ep.step_count(), 1);
    assert_eq!(ep.advanced_days(), 3);
    assert!(ep.observe().done);
    assert_eq!(r.position, 2);
    assert_eq!(r.points, 0);
}

#[test]
fn stepping_advances_at_least_one_day() {
    let mut g = game();
    g.user_match_today = true;
    let mut ep = Episode::new(g, 10);
    let _ = ep.observe();
    let step_day = |x: &Game| {
        let mut n = next_day(x);
        n.user_match_today = true;
        n
    };
    let obs = ep.step(Action::Continue, &step_day, &perform);
    assert_eq!(obs.step, 1);
    assert!(!obs.done);
    assert_eq!(ep.advanced_days(), 1);
    assert!(obs.is_matchday);
}

#[test]
fn advancing_a_day_runs_the_engine_once() {
    let mut g = game();
    advance_day(&mut g, &next_day);
    assert_eq!(g.today, "2026-07-02");
    assert!(!g.league.as_ref().unwrap().fixtures[0].scheduled);
}

#[test]
fn fingerprint_ignores_ids_and_order() {
    let mut a = player("1", "us");
    a.ovr = 7;
    let mut b = player("2", "them");
    b.position_name = "Goalkeeper".to_string();
    b.ovr = 61;
    let teams = vec![team("us", "Us FC"), team("them", "Them United")];
    let fp = content_fingerprint(&teams, &vec![a.clone(), b.clone()], None);
    assert_eq!(fp, "teams=2 players=2\nThem United\nUs FC\nGoalkeeper:61\nStriker:7");
    let mut a2 = a.clone();
    a2.id = "x9".to_string();
    let teams2 = vec![team("t2", "Them United"), team("t1", "Us FC")];
    assert_eq!(content_fingerprint(&teams2, &vec![b, a2], None), fp);
    assert_eq!(
        content_fingerprint(&vec![], &vec![], Some(12)),
        "teams=0 players=0 staff=12\n\n"
    );
}

#[test]
fn decimal_digits() {
    assert_eq!(decimal_text(0), "0");
    assert_eq!(decimal_text(7), "7");
    assert_eq!(decimal_text(10), "10");
    assert_eq!(decimal_text(1907), "1907");
    assert_eq!(decimal_text(usize::MAX), usize::MAX.to_string());
}

#[test]
fn step_count_is_the_number_of_steps() {
    let mut ep = Episode::new(game(), 100);
    assert_eq!(ep.step_count(), 0);
    let _ = ep.observe();
    for k in 1..=3u64 {
        let _ = ep.step(Action::Continue, &next_day, &perform);
        let _ = ep.observe();
        let _ = ep.observe();
        assert_eq!(ep.step_count(), k);
    }
    assert_eq!(ep.step, 3);
}
