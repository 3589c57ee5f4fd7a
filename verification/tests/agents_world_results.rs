use clubbench::agents::{
    build_xi, fill_by_group, BestXIAgent, NoopAgent, RandomXIAgent, StyleProbe, WorstXIAgent,
};
use clubbench::env::{ClubPick, ScenarioBudget};
use clubbench::model::{parse_style, Game, League, Player, PlayStyle, Position, Standing, Team};
use clubbench::rng::EpisodeRng;
use clubbench::run::{cadence_result, result_of};
use clubbench::world::{apply_budget, foundation_divisions, pick_club};

fn team(id: &str, nation: &str) -> Team {
    Team {
        id: id.to_string(),
        name: format!("Club {}", id),
        formation: "4-4-2".to_string(),
        football_nation: nation.to_string(),
        finance: 1,
        transfer_budget: 2,
        wage_budget: 3,
        play_style: PlayStyle::Balanced,
        starting_xi_ids: vec![],
    }
}

fn player(team_id: &str, ovr: u8) -> Player {
    Player {
        id: format!("{}-{}", team_id, ovr),
        match_name: "x".to_string(),
        team_id: Some(team_id.to_string()),
        position: Position::Defender,
        position_name: "CentreBack".to_string(),
        ovr,
        date_of_birth: "2000-01-01".to_string(),
        condition: 90,
        fitness: 90,
        morale: 70,
        injured: false,
        transfer_listed: false,
        wage: 1,
        market_value: 1,
        transfer_offers: vec![],
    }
}

#[test]
fn build_xi_takes_the_last_best_for_each_slot() {
    // Three candidates, two slots.
    let keys = vec![vec![5, 9, 9], vec![1, 1, 0]];
    // Slot 0: 1 and 2 tie at 9, the later one (2) wins; slot 1: 0 and 1 tie,
    // 1 wins.
    assert_eq!(build_xi(3, &keys), vec![2, 1]);
    // More slots than candidates: the rest stay empty.
    assert_eq!(build_xi(1, &vec![vec![3], vec![4]]), vec![0]);
    // Only the first 11 slots count.
    let many: Vec<Vec<i128>> = (0..14).map(|_| (0..14).map(|c| c as i128).collect()).collect();
    assert_eq!(build_xi(14, &many), vec![13, 12, 11, 10, 9, 8, 7, 6, 5, 4, 3]);
}

#[test]
fn fill_by_group_prefers_the_slot_group() {
    let groups = vec![Position::Forward, Position::Goalkeeper, Position::Defender, Position::Forward];
    let order = vec![3, 0, 2, 1];
    let slots = [Position::Goalkeeper, Position::Midfielder, Position::Forward, Position::Forward];
    // GK: 1; MF: none, first left (3); FW: 0; FW: none left of group, first left (2).
    assert_eq!(fill_by_group(&order, &groups, &slots), vec![1, 3, 0, 2]);
}

#[test]
fn agent_names() {
    assert_eq!(BestXIAgent::new(55).name(), "BestXI");
    assert_eq!(BestXIAgent::new(55).condition_min, 55);
    assert!(BestXIAgent::new(55).penalised(54));
    assert!(!BestXIAgent::new(55).penalised(55));
    assert_eq!(BestXIAgent::default().condition_min, 0);
    assert_eq!(WorstXIAgent.name(), "WorstXI");
    assert_eq!(RandomXIAgent.name(), "RandomXI");
    assert_eq!(NoopAgent.name(), "Noop");
    assert!(NoopAgent.decide_lineup().is_empty());
    assert_eq!(StyleProbe { style: PlayStyle::HighPress }.name(), "BestXI+HighPress");
    assert_eq!(StyleProbe { style: PlayStyle::Possession }.name(), "BestXI+Possession");
}

#[test]
fn clubs_are_picked_by_index_or_strength() {
    let teams = vec![team("a", "X"), team("b", "X"), team("c", "X"), team("d", "X")];
    // Means: a 70, b 60, c 0 (no players), d 60 (ties with b, later).
    let players = vec![player("a", 70), player("b", 50), player("b", 70), player("d", 60)];
    assert_eq!(pick_club(&teams, &players, &ClubPick::Index(1)), "b");
    assert_eq!(pick_club(&teams, &players, &ClubPick::Index(9)), "a");
    assert_eq!(pick_club(&teams, &players, &ClubPick::Strength(0)), "c");
    assert_eq!(pick_club(&teams, &players, &ClubPick::Strength(1)), "b");
    assert_eq!(pick_club(&teams, &players, &ClubPick::Strength(2)), "d");
    assert_eq!(pick_club(&teams, &players, &ClubPick::Strength(3)), "a");
    assert_eq!(pick_club(&teams, &players, &ClubPick::Strength(4)), "c");
}

#[test]
fn divisions_per_nation_in_runs_of_twenty() {
    let mut teams = Vec::new();
    let mut players = Vec::new();
    for i in 0..23u8 {
        let id = format!("f{:02}", i);
        teams.push(team(&id, "France"));
        players.push(player(&id, 40 + i));
    }
    teams.push(team("e1", "England"));
    teams.push(team("e2", "England"));
    players.push(player("e2", 90));
    let plan = foundation_divisions(&teams, &players);
    assert_eq!(plan.len(), 3);
    assert_eq!(plan[0].id, "England-div1");
    assert_eq!(plan[0].name, "England Division 1");
    assert_eq!(plan[0].team_ids, vec!["e2".to_string(), "e1".to_string()]);
    assert_eq!(plan[1].id, "France-div1");
    assert_eq!(plan[1].team_ids.len(), 20);
    assert_eq!(plan[1].team_ids[0], "f22");
    assert_eq!(plan[2].name, "France Division 2");
    assert_eq!(plan[2].team_ids, vec!["f02".to_string(), "f01".to_string(), "f00".to_string()]);
}

#[test]
fn scenario_budget_overrides_the_managed_club() {
    let mut g = Game {
        manager_team_id: Some("b".to_string()),
        today: "2026-07-01".to_string(),
        teams: vec![team("a", "X"), team("b", "X")],
        players: vec![],
        staff: vec![],
        league: None,
        competitions: vec![],
        scout_reports: vec![],
        scouting_assignments: vec![],
        transfer_window_open: false,
        user_match_today: false,
    };
    apply_budget(&mut g, &ScenarioBudget::moneyball());
    assert_eq!(g.teams[1].finance, 40_000_000);
    assert_eq!(g.teams[1].transfer_budget, 15_000_000);
    assert_eq!(g.teams[1].wage_budget, 2_500_000);
    assert_eq!(g.teams[0].finance, 1);
}

#[test]
fn results_read_the_managed_club_row() {
    let row = |id: &str, pts: u32, gf: u32, ga: u32| Standing {
        team_id: id.to_string(),
        played: 3,
        won: 1,
        drawn: 1,
        lost: 1,
        goals_for: gf,
        goals_against: ga,
        points: pts,
    };
    let mut g = Game {
        manager_team_id: Some("b".to_string()),
        today: "2026-07-01".to_string(),
        teams: vec![],
        players: vec![],
        staff: vec![],
        league: Some(League {
            id: "l".to_string(),
            fixtures: vec![],
            standings: vec![row("a", 4, 1, 1), row("b", 4, 5, 2), row("c", 9, 0, 0)],
        }),
        competitions: vec![],
        scout_reports: vec![],
        scouting_assignments: vec![],
        transfer_window_open: false,
        user_match_today: false,
    };
    let r = result_of(&g, 42);
    assert_eq!((r.seed, r.position, r.points, r.goals_for, r.goals_against), (42, 2, 4, 5, 2));
    let c = cadence_result(&g, 7, 123);
    assert_eq!((c.seed, c.steps, c.position, c.won), (7, 123, 2, 1));
    g.league = None;
    let none = result_of(&g, 1);
    assert_eq!((none.position, none.points, none.played), (0, 0, 0));
}

#[test]
fn random_xi_is_a_valid_xi_and_reproducible_per_seed() {
    let groups: Vec<Position> = (0..16)
        .map(|i| match i % 4 {
            0 => Position::Goalkeeper,
            1 => Position::Defender,
            2 => Position::Midfielder,
            _ => Position::Forward,
        })
        .collect();
    let slots = [
        Position::Goalkeeper,
        Position::Defender,
        Position::Defender,
        Position::Defender,
        Position::Defender,
        Position::Midfielder,
        Position::Midfielder,
        Position::Midfielder,
        Position::Midfielder,
        Position::Forward,
        Position::Forward,
        Position::Forward,
    ];
    let mut a = EpisodeRng::new().unwrap();
    a.set_seed(11);
    let xi = RandomXIAgent.decide_lineup(&mut a, &groups, &slots);
    assert_eq!(xi.len(), 11);
    let mut seen = xi.clone();
    seen.sort();
    seen.dedup();
    assert_eq!(seen.len(), 11);
    assert!(xi.iter().all(|&i| i < groups.len()));
    // Four of each group: every one of the first 11 slots finds its own.
    for (k, &c) in xi.iter().enumerate() {
        assert_eq!(groups[c], slots[k]);
    }
    let mut b = EpisodeRng::new().unwrap();
    b.set_seed(11);
    assert_eq!(RandomXIAgent.decide_lineup(&mut b, &groups, &slots), xi);
    assert_eq!(a.seed(), Some(11));
}

#[test]
fn shuffling_permutes() {
    let mut r = EpisodeRng::new().unwrap();
    r.set_seed(3);
    let mut v: Vec<usize> = (0..50).collect();
    r.shuffle(&mut v);
    let mut w = v.clone();
    w.sort();
    assert_eq!(w, (0..50).collect::<Vec<usize>>());
    assert_ne!(v, (0..50).collect::<Vec<usize>>());
}

#[test]
fn play_styles_parse_by_exact_name() {
    assert_eq!(parse_style("Attacking"), PlayStyle::Attacking);
    assert_eq!(parse_style("Defensive"), PlayStyle::Defensive);
    assert_eq!(parse_style("Possession"), PlayStyle::Possession);
    assert_eq!(parse_style("Counter"), PlayStyle::Counter);
    assert_eq!(parse_style("HighPress"), PlayStyle::HighPress);
    assert_eq!(parse_style("Balanced"), PlayStyle::Balanced);
    assert_eq!(parse_style("attacking"), PlayStyle::Balanced);
    assert_eq!(parse_style(""), PlayStyle::Balanced);
}

#[test]
fn fatigued_players_rank_below_every_fresh_one() {
    let agent = BestXIAgent::new(55);
    let fresh_low = agent.selection_key(55, i64::MIN);
    let tired_high = agent.selection_key(54, i64::MAX);
    assert!(fresh_low > tired_high);
    assert_eq!(agent.selection_key(20, -3), -3);
    assert_eq!(agent.selection_key(90, -3), (1i128 << 64) - 3);
    // A fatigued star is benched for any fresher alternative.
    let keys = vec![vec![agent.selection_key(40, 900), agent.selection_key(80, 10)]];
    assert_eq!(build_xi(2, &keys), vec![1]);
}
