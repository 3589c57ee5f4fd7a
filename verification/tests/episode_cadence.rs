use clubbench::episode::{
    market_view, pending_offers, Action, Episode, MarketRequest,
};
use clubbench::episode_agents::{AutoManager, OffersOnlyManager, PassiveManager};
use clubbench::model::{
    Fixture, Game, League, Player, PlayStyle, Position, ScoutReport, ScoutingAssignment, Staff,
    Standing, Team, TransferOffer,
};

fn team(id: &str, name: &str) -> Team {
    Team {
        id: id.to_string(),
        name: name.to_string(),
        formation: "4-4-2".to_string(),
        football_nation: "England".to_string(),
        finance: 0,
        transfer_budget: 777,
        wage_budget: 0,
        play_style: PlayStyle::Balanced,
        starting_xi_ids: vec![],
    }
}

fn player(id: &str, team_id: &str, pos: Position, ovr: u8, value: u64) -> Player {
    Player {
        id: id.to_string(),
        match_name: format!("Name{}", id),
        team_id: Some(team_id.to_string()),
        position: pos,
        position_name: format!("{:?}Slot", pos),
        ovr,
        date_of_birth: "2000-07-01".to_string(),
        condition: 90,
        fitness: 90,
        morale: 70,
        injured: false,
        transfer_listed: false,
        wage: 10,
        market_value: value,
        transfer_offers: vec![],
    }
}

fn offer(id: &str, from: &str, fee: u64, pending: bool) -> TransferOffer {
    TransferOffer {
        id: id.to_string(),
        from_team_id: from.to_string(),
        fee,
        pending,
        negotiation_round: 1,
        suggested_counter_fee: Some(fee + 1),
    }
}

fn game() -> Game {
    let mut p1 = player("1", "us", Position::Forward, 70, 100);
    p1.transfer_offers = vec![offer("o1", "them", 130, true), offer("o2", "them", 90, false)];
    let mut p2 = player("2", "us", Position::Defender, 65, 50);
    p2.transfer_offers = vec![offer("o3", "ghost", 40, true)];
    Game {
        manager_team_id: Some("us".to_string()),
        today: "2026-07-01".to_string(),
        teams: vec![team("us", "Us FC"), team("them", "Them United")],
        players: vec![
            p1,
            player("3", "them", Position::Midfielder, 80, 500),
            p2,
            player("4", "them", Position::Goalkeeper, 60, 500),
            player("5", "them", Position::Forward, 75, 900),
        ],
        staff: vec![
            Staff { id: "s0".to_string(), team_id: Some("them".to_string()), is_scout: true },
            Staff { id: "s1".to_string(), team_id: Some("us".to_string()), is_scout: false },
            Staff { id: "s2".to_string(), team_id: Some("us".to_string()), is_scout: true },
        ],
        league: Some(League {
            id: "l".to_string(),
            fixtures: vec![],
            standings: vec![
                Standing { team_id: "them".to_string(), played: 1, won: 1, drawn: 0, lost: 0, goals_for: 2, goals_against: 0, points: 3 },
                Standing { team_id: "us".to_string(), played: 1, won: 0, drawn: 0, lost: 1, goals_for: 0, goals_against: 2, points: 0 },
            ],
        }),
        competitions: vec![League {
            id: "c".to_string(),
            fixtures: vec![Fixture {
                date: "2026-07-05".to_string(),
                home_team_id: "them".to_string(),
                away_team_id: "us".to_string(),
                scheduled: true,
            }],
            standings: vec![],
        }],
        scout_reports: vec![
            ScoutReport { player_id: "3".to_string(), player_name: "Name3".to_string(), team_name: None, avg_rating: Some(70), rating_key: "good".to_string(), potential_key: "strong".to_string(), confidence_key: "low".to_string() },
            ScoutReport { player_id: "3".to_string(), player_name: "Name3".to_string(), team_name: Some("Elsewhere".to_string()), avg_rating: Some(300), rating_key: "good".to_string(), potential_key: "worldClass".to_string(), confidence_key: "high".to_string() },
        ],
        scouting_assignments: vec![ScoutingAssignment { player_id: "5".to_string(), days_remaining: 3 }],
        transfer_window_open: false,
        user_match_today: false,
    }
}

#[test]
fn pending_offers_are_listed_player_by_player() {
    let offers = pending_offers(&game());
    let ids: Vec<&str> = offers.iter().map(|o| o.offer_id.as_str()).collect();
    assert_eq!(ids, vec!["o1", "o3"]);
    assert_eq!(offers[0].from_team, "Them United");
    assert_eq!(offers[1].from_team, "");
    assert_eq!(offers[0].player_name, "Name1");
    assert_eq!(offers[0].suggested_counter, Some(131));
}

#[test]
fn market_is_most_valuable_first_and_stable() {
    let m = market_view(&game(), &"us".to_string());
    let ids: Vec<&str> = m.iter().map(|v| v.player_id.as_str()).collect();
    assert_eq!(ids, vec!["5", "3", "4"]);
    // The last report on a player counts; its rating is cut to a byte.
    assert_eq!(m[1].reported_ovr, Some(44));
    assert_eq!(m[1].potential.as_deref(), Some("worldClass"));
    assert!(m[0].scouting);
    assert!(!m[1].scouting);
    assert_eq!(m[2].team, "Them United");
    assert_eq!(m[0].age, 26);
}

#[test]
fn market_shortlist_holds_thirty() {
    let mut g = game();
    for i in 0..40u64 {
        g.players.push(player(&format!("x{}", i), "them", Position::Defender, 50, i));
    }
    let m = market_view(&g, &"us".to_string());
    assert_eq!(m.len(), 30);
    assert!(m.windows(2).all(|w| w[0].market_value >= w[1].market_value));
    assert_eq!(m[0].player_id, "5");
}

#[test]
fn observe_shows_offers_once_and_reads_the_table() {
    let mut ep = Episode::new(game(), 10);
    assert_eq!(ep.step_count(), 0);
    assert_eq!(ep.fresh_offers().len(), 2);
    let obs = ep.observe();
    assert_eq!(obs.offers.len(), 2);
    assert!(ep.fresh_offers().is_empty());
    assert_eq!(obs.team_name, "Us FC");
    assert_eq!(obs.formation, "4-4-2");
    assert_eq!(obs.budget, 777);
    assert_eq!((obs.league_position, obs.points), (2, 0));
    assert_eq!(obs.next_fixture.as_deref(), Some("2026-07-05 Them United vs Us FC (A)"));
    assert_eq!(obs.squad.len(), 2);
    assert_eq!(obs.scout_reports.len(), 2);
    assert_eq!(obs.scout_reports[0].team, "Them United");
    assert_eq!(obs.scout_reports[1].team, "Elsewhere");
    assert_eq!(obs.scouting_in_progress[0].player_name, "Name5");
    assert!(!obs.done);
    // Observing again shows the same offers but nothing is fresh.
    let again = ep.observe();
    assert_eq!(again.offers.len(), 2);
    assert!(ep.fresh_offers().is_empty());
}

#[test]
fn record_day_stops_at_decision_points() {
    let mut ep = Episode::new(game(), 5);
    let _ = ep.observe();
    let mut g = game();
    // Day 1: nothing new, window closed: keep advancing.
    assert!(!ep.record_day(g.clone()));
    assert_eq!(ep.advanced_days(), 1);
    // Day 2: a matchday.
    g.user_match_today = true;
    assert!(ep.record_day(g.clone()));
    g.user_match_today = false;
    // Day 3: window open and 3 divides the day count: a market day.
    g.transfer_window_open = true;
    assert!(ep.record_day(g.clone()));
    g.transfer_window_open = false;
    // Day 4: a fresh offer arrives.
    g.players[0].transfer_offers.push(offer("o9", "them", 1, true));
    assert!(ep.record_day(g.clone()));
    // Day 5: the horizon.
    let _ = ep.observe();
    assert!(ep.record_day(g.clone()));
    assert!(ep.observe().done);
}

#[test]
fn actions_change_the_game_or_ask_the_engine() {
    let mut ep = Episode::new(game(), 5);
    assert!(ep.take_action(Action::Continue).is_none());
    assert_eq!(ep.step_count(), 1);
    let r = ep.take_action(Action::SetMatchPlan {
        player_ids: vec!["2".to_string(), "1".to_string()],
        play_style: PlayStyle::Counter,
    });
    assert!(r.is_none());
    assert_eq!(ep.game.teams[0].starting_xi_ids, vec!["2".to_string(), "1".to_string()]);
    assert_eq!(ep.game.teams[0].play_style, PlayStyle::Counter);
    match ep.take_action(Action::Scout { player_id: "5".to_string() }) {
        Some(MarketRequest::SendScout { scout_id, player_id }) => {
            assert_eq!(scout_id, "s2");
            assert_eq!(player_id, "5");
        }
        other => panic!("unexpected {:?}", other),
    }
    match ep.take_action(Action::CounterOffer { player_id: "1".to_string(), offer_id: "o1".to_string(), fee: 9 }) {
        Some(MarketRequest::CounterOffer { fee, .. }) => assert_eq!(fee, 9),
        other => panic!("unexpected {:?}", other),
    }
    assert!(ep.take_action(Action::ListPlayer { player_id: "3".to_string() }).is_none());
    assert!(!ep.game.players[1].transfer_listed);
    assert!(ep.take_action(Action::ListPlayer { player_id: "2".to_string() }).is_none());
    assert!(ep.game.players[2].transfer_listed);
    assert_eq!(ep.step_count(), 6);
}

#[test]
fn offer_rule_accepts_at_one_point_two_times_value() {
    let mut ep = Episode::new(game(), 5);
    let obs = ep.observe();
    // o1: fee 130 >= 100 * 12 / 10 = 120: accept.
    match OffersOnlyManager.act(&obs) {
        Action::AcceptOffer { offer_id, .. } => assert_eq!(offer_id, "o1"),
        other => panic!("unexpected {:?}", other),
    }
    let mut g = game();
    g.players[0].transfer_offers[0].fee = 119;
    let mut ep2 = Episode::new(g, 5);
    let obs2 = ep2.observe();
    match AutoManager::new(PlayStyle::Attacking).act(&obs2, &[]) {
        Action::RejectOffer { offer_id, .. } => assert_eq!(offer_id, "o1"),
        other => panic!("unexpected {:?}", other),
    }
    assert!(matches!(PassiveManager.act(&obs2), Action::Continue));
}

#[test]
fn auto_manager_picks_best_fit_per_slot() {
    let mut g = game();
    g.players.push(player("6", "us", Position::Defender, 72, 1));
    let mut tired = player("7", "us", Position::Forward, 90, 1);
    tired.condition = 40;
    g.players.push(tired);
    let mut hurt = player("8", "us", Position::Forward, 99, 1);
    hurt.injured = true;
    g.players.push(hurt);
    g.user_match_today = true;
    let mut ep = Episode::new(g, 5);
    let obs = ep.observe();
    let slots = [Position::Forward, Position::Defender, Position::Defender, Position::Goalkeeper];
    match AutoManager::new(PlayStyle::Attacking).act(&obs, &slots) {
        // Forward: 1 (70) beats 7 (90 - 25); defenders 6 (72), 2 (65);
        // goalkeeper: 7 (90 - 8 - 25 = 57) beats nobody else left.
        Action::SetMatchPlan { player_ids, play_style } => {
            assert_eq!(player_ids, vec!["1", "6", "2", "7"]);
            assert_eq!(play_style, PlayStyle::Attacking);
        }
        other => panic!("unexpected {:?}", other),
    }
    match AutoManager::new(PlayStyle::Balanced).act(&obs, &slots) {
        Action::SetMatchPlan { play_style, .. } => assert_eq!(play_style, PlayStyle::Balanced),
        other => panic!("unexpected {:?}", other),
    }
}

#[test]
fn views_show_own_position_beside_group() {
    let mut ep = Episode::new(game(), 5);
    let obs = ep.observe();
    assert_eq!(obs.squad[0].position, "ForwardSlot");
    assert_eq!(obs.squad[0].group_position, Position::Forward);
    let m = market_view(&game(), &"us".to_string());
    let p3 = m.iter().find(|x| x.player_id == "3").unwrap();
    assert_eq!(p3.position, "MidfielderSlot");
}
