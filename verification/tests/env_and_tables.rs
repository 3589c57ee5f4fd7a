use clubbench::env::{
    age_between, age_from_dob, apply_lineup, apply_play_style, league_position_points, net_worth,
    user_fixture_index, user_team_id, AgentMode, ClubPick, ScenarioBudget, WorldSize,
};
use clubbench::model::{Fixture, Game, League, Player, PlayStyle, Position, Standing, Team};

fn team(id: &str, name: &str, nation: &str, finance: i64) -> Team {
    Team {
        id: id.to_string(),
        name: name.to_string(),
        formation: "4-3-3".to_string(),
        football_nation: nation.to_string(),
        finance,
        transfer_budget: 1_000,
        wage_budget: 100,
        play_style: PlayStyle::Balanced,
        starting_xi_ids: vec![],
    }
}

fn player(id: &str, team_id: Option<&str>, value: u64) -> Player {
    Player {
        id: id.to_string(),
        match_name: format!("P{}", id),
        team_id: team_id.map(|t| t.to_string()),
        position: Position::Midfielder,
        position_name: "CentralMidfielder".to_string(),
        ovr: 60,
        date_of_birth: "2000-01-01".to_string(),
        condition: 90,
        fitness: 90,
        morale: 70,
        injured: false,
        transfer_listed: false,
        wage: 10,
        market_value: value,
        transfer_offers: vec![],
    }
}

fn row(team_id: &str, points: u32, gf: u32, ga: u32) -> Standing {
    Standing {
        team_id: team_id.to_string(),
        played: 10,
        won: 3,
        drawn: 1,
        lost: 6,
        goals_for: gf,
        goals_against: ga,
        points,
    }
}

fn game() -> Game {
    Game {
        manager_team_id: Some("b".to_string()),
        today: "2026-07-01".to_string(),
        teams: vec![team("a", "Alpha", "England", 5), team("b", "Beta", "England", 100)],
        players: vec![
            player("1", Some("b"), 40),
            player("2", Some("a"), 1_000),
            player("3", Some("b"), 60),
            player("4", None, 7),
        ],
        staff: vec![],
        league: None,
        competitions: vec![],
        scout_reports: vec![],
        scouting_assignments: vec![],
        transfer_window_open: false,
        user_match_today: false,
    }
}

#[test]
fn scenario_budgets_by_name() {
    assert_eq!(ScenarioBudget::by_name("  Crisis "), ScenarioBudget::crisis());
    assert_eq!(ScenarioBudget::by_name("MONEYBALL"), ScenarioBudget::moneyball());
    assert_eq!(ScenarioBudget::by_name("title"), ScenarioBudget::title());
    assert_eq!(ScenarioBudget::by_name("rebuild"), ScenarioBudget::rebuild());
    assert_eq!(ScenarioBudget::by_name("anything else"), ScenarioBudget::rebuild());
    assert_eq!(ScenarioBudget::default(), ScenarioBudget::rebuild());
    let c = ScenarioBudget::crisis();
    assert_eq!((c.finance, c.transfer_budget, c.wage_budget), (20_000_000, 5_000_000, 2_000_000));
    let t = ScenarioBudget::title();
    assert_eq!((t.finance, t.transfer_budget, t.wage_budget), (100_000_000, 60_000_000, 3_500_000));
    let _ = (WorldSize::Medium, AgentMode::Coach, ClubPick::Index(0));
}

#[test]
fn net_worth_is_balance_plus_squad_value() {
    let g = game();
    assert_eq!(net_worth(&g), 100 + 40 + 60);
    let mut none = game();
    none.manager_team_id = None;
    assert_eq!(net_worth(&none), 0);
    assert_eq!(user_team_id(&none), "");
}

#[test]
fn lineup_and_style_touch_only_the_managed_club() {
    let mut g = game();
    apply_lineup(&mut g, &["3".to_string(), "1".to_string()]);
    assert_eq!(g.teams[1].starting_xi_ids, vec!["3".to_string(), "1".to_string()]);
    assert!(g.teams[0].starting_xi_ids.is_empty());
    apply_play_style(&mut g, PlayStyle::HighPress);
    assert_eq!(g.teams[1].play_style, PlayStyle::HighPress);
    assert_eq!(g.teams[0].play_style, PlayStyle::Balanced);
}

#[test]
fn table_position_sorts_by_points_then_goal_difference() {
    let st = vec![row("x", 10, 5, 5), row("b", 12, 3, 9), row("y", 12, 8, 2), row("z", 12, 4, 10)];
    // y (12, +6), b (12, -6), z (12, -6, later), x (10).
    assert_eq!(league_position_points(&st, &"b".to_string()), (2, 12));
    assert_eq!(league_position_points(&st, &"z".to_string()), (3, 12));
    assert_eq!(league_position_points(&st, &"y".to_string()), (1, 12));
    assert_eq!(league_position_points(&st, &"x".to_string()), (4, 10));
    assert_eq!(league_position_points(&st, &"q".to_string()), (0, 0));
}

#[test]
fn user_fixture_today_is_found() {
    let mut g = game();
    g.league = Some(League {
        id: "l".to_string(),
        fixtures: vec![
            Fixture { date: "2026-07-01".to_string(), home_team_id: "a".to_string(), away_team_id: "c".to_string(), scheduled: true },
            Fixture { date: "2026-07-01".to_string(), home_team_id: "a".to_string(), away_team_id: "b".to_string(), scheduled: false },
            Fixture { date: "2026-07-01".to_string(), home_team_id: "b".to_string(), away_team_id: "a".to_string(), scheduled: true },
        ],
        standings: vec![],
    });
    assert_eq!(user_fixture_index(&g), Some(2));
    g.today = "2026-07-02".to_string();
    assert_eq!(user_fixture_index(&g), None);
}

#[test]
fn ages_in_whole_years() {
    assert_eq!(age_from_dob("2000-07-01", "2026-07-01"), 26);
    assert_eq!(age_from_dob("2001-01-01", "2001-12-31"), 0);
    assert_eq!(age_from_dob("2000-01-01", "2000-12-31"), 1);
    assert_eq!(age_from_dob("not a date", "2026-07-01"), 0);
    assert_eq!(age_from_dob("2000-07-01", "garbage"), 0);
    // A birth date after today counts negative years, wrapped into a byte.
    assert_eq!(age_from_dob("2030-01-01", "2026-01-01"), 252);
}

#[test]
fn ages_from_day_numbers() {
    assert_eq!(age_between(Some(0), Some(365)), 1);
    assert_eq!(age_between(Some(0), Some(364)), 0);
    assert_eq!(age_between(Some(10), Some(10 + 365 * 30 + 7)), 30);
    assert_eq!(age_between(Some(730), Some(0)), 254);
    assert_eq!(age_between(Some(0), Some(365 * 256)), 0);
    assert_eq!(age_between(None, Some(1000)), 0);
    assert_eq!(age_between(Some(1000), None), 0);
}

#[test]
fn scenario_budgets_by_normalised_key() {
    assert_eq!(ScenarioBudget::by_key(&"crisis".to_string()), ScenarioBudget::crisis());
    assert_eq!(ScenarioBudget::by_key(&"moneyball".to_string()), ScenarioBudget::moneyball());
    assert_eq!(ScenarioBudget::by_key(&"title".to_string()), ScenarioBudget::title());
    assert_eq!(ScenarioBudget::by_key(&"Crisis".to_string()), ScenarioBudget::rebuild());
    assert_eq!(ScenarioBudget::by_key(&" crisis".to_string()), ScenarioBudget::rebuild());
}
