//! The game state the environment reads and writes, held as plain values:
//! clubs, players with their pending transfer offers, staff, the league
//! table and fixtures, scouting, and the clock's current date.

use vstd::prelude::*;

verus! {

/// A playing position (by position group).
#[derive(Clone, Copy, Debug, PartialEq, Eq, Structural)]
pub enum Position {
    Goalkeeper,
    Defender,
    Midfielder,
    Forward,
}

/// A team's play style.
#[derive(Clone, Copy, Debug, PartialEq, Eq, Structural)]
pub enum PlayStyle {
    Balanced,
    Attacking,
    Defensive,
    Possession,
    Counter,
    HighPress,
}

/// The play style a name selects (exact, case-sensitive); anything else is
/// `Balanced`.
pub open spec fn spec_parse_style(s: Seq<char>) -> PlayStyle {
    if s == "Attacking"@ {
        PlayStyle::Attacking
    } else if s == "Defensive"@ {
        PlayStyle::Defensive
    } else if s == "Possession"@ {
        PlayStyle::Possession
    } else if s == "Counter"@ {
        PlayStyle::Counter
    } else if s == "HighPress"@ {
        PlayStyle::HighPress
    } else {
        PlayStyle::Balanced
    }
}

/// Parse a play style's name; unknown names give `Balanced`.
pub fn parse_style(s: &str) -> (p: PlayStyle)
    ensures
        p == spec_parse_style(s@),
{
    let t = s.to_string();
    if t == "Attacking".to_string() {
        PlayStyle::Attacking
    } else if t == "Defensive".to_string() {
        PlayStyle::Defensive
    } else if t == "Possession".to_string() {
        PlayStyle::Possession
    } else if t == "Counter".to_string() {
        PlayStyle::Counter
    } else if t == "HighPress".to_string() {
        PlayStyle::HighPress
    } else {
        PlayStyle::Balanced
    }
}

/// A club.
#[derive(Clone, Debug)]
pub struct Team {
    pub id: String,
    pub name: String,
    pub formation: String,
    pub football_nation: String,
    /// Bank balance.
    pub finance: i64,
    pub transfer_budget: i64,
    pub wage_budget: i64,
    pub play_style: PlayStyle,
    /// Slot-aligned starting XI (player ids); empty means the AI default.
    pub starting_xi_ids: Vec<String>,
}

/// An incoming transfer offer for a player.
#[derive(Clone, Debug)]
pub struct TransferOffer {
    pub id: String,
    pub from_team_id: String,
    pub fee: u64,
    /// Still awaiting an answer.
    pub pending: bool,
    pub negotiation_round: u8,
    pub suggested_counter_fee: Option<u64>,
}

/// A player.
#[derive(Clone, Debug)]
pub struct Player {
    pub id: String,
    pub match_name: String,
    pub team_id: Option<String>,
    /// The player's position group.
    pub position: Position,
    /// The player's own position, by name.
    pub position_name: String,
    pub ovr: u8,
    /// `YYYY-MM-DD`.
    pub date_of_birth: String,
    pub condition: u8,
    pub fitness: u8,
    pub morale: u8,
    pub injured: bool,
    pub transfer_listed: bool,
    pub wage: u32,
    pub market_value: u64,
    pub transfer_offers: Vec<TransferOffer>,
}

/// A staff member.
#[derive(Clone, Debug)]
pub struct Staff {
    pub id: String,
    pub team_id: Option<String>,
    pub is_scout: bool,
}

/// A league fixture.
#[derive(Clone, Debug)]
pub struct Fixture {
    /// `YYYY-MM-DD`.
    pub date: String,
    pub home_team_id: String,
    pub away_team_id: String,
    /// Not yet played.
    pub scheduled: bool,
}

/// A league-table row.
#[derive(Clone, Debug)]
pub struct Standing {
    pub team_id: String,
    pub played: u32,
    pub won: u32,
    pub drawn: u32,
    pub lost: u32,
    pub goals_for: u32,
    pub goals_against: u32,
    pub points: u32,
}

impl Standing {
    /// Goals scored minus goals conceded.
    pub open spec fn gd(self) -> int {
        self.goals_for - self.goals_against
    }

    /// Goals scored minus goals conceded.
    pub fn goal_difference(&self) -> (d: i64)
        ensures
            d == self.gd(),
    {
        self.goals_for as i64 - self.goals_against as i64
    }
}

/// A competition: its fixtures and its table.
#[derive(Clone, Debug)]
pub struct League {
    pub id: String,
    pub fixtures: Vec<Fixture>,
    pub standings: Vec<Standing>,
}

/// A completed scout report (from the manager's inbox).
#[derive(Clone, Debug)]
pub struct ScoutReport {
    pub player_id: String,
    pub player_name: String,
    pub team_name: Option<String>,
    pub avg_rating: Option<u32>,
    pub rating_key: String,
    pub potential_key: String,
    pub confidence_key: String,
}

/// A scouting assignment in progress.
#[derive(Clone, Debug)]
pub struct ScoutingAssignment {
    pub player_id: String,
    pub days_remaining: u32,
}

/// The game state.
#[derive(Clone, Debug)]
pub struct Game {
    /// The managed club.
    pub manager_team_id: Option<String>,
    /// The clock's current date, `YYYY-MM-DD`.
    pub today: String,
    pub teams: Vec<Team>,
    pub players: Vec<Player>,
    pub staff: Vec<Staff>,
    /// The managed club's legacy single league.
    pub league: Option<League>,
    /// Every active competition.
    pub competitions: Vec<League>,
    pub scout_reports: Vec<ScoutReport>,
    pub scouting_assignments: Vec<ScoutingAssignment>,
    /// The transfer window is open today.
    pub transfer_window_open: bool,
    /// The managed club plays a scheduled match today (any competition).
    pub user_match_today: bool,
}

/// Index of the first element of `s` that satisfies `p`.
pub open spec fn first_index<T>(s: Seq<T>, p: spec_fn(T) -> bool) -> Option<int>
    decreases s.len(),
{
    if s.len() == 0 {
        None
    } else {
        match first_index(s.drop_last(), p) {
            Some(i) => Some(i),
            None => if p(s.last()) {
                Some(s.len() - 1)
            } else {
                None
            },
        }
    }
}

/// What [`first_index`] is: the least index whose element satisfies `p`.
pub proof fn lemma_first_index<T>(s: Seq<T>, p: spec_fn(T) -> bool)
    ensures
        match first_index(s, p) {
            Some(i) => 0 <= i < s.len() && p(s[i]) && forall|j: int| 0 <= j < i ==> !p(#[trigger] s[j]),
            None => forall|j: int| 0 <= j < s.len() ==> !p(#[trigger] s[j]),
        },
    decreases s.len(),
{
    if s.len() > 0 {
        lemma_first_index(s.drop_last(), p);
        assert(forall|j: int| 0 <= j < s.len() - 1 ==> s.drop_last()[j] == s[j]);
    }
}

/// Sum of `f` over `s`.
pub open spec fn sum_of<T>(s: Seq<T>, f: spec_fn(T) -> int) -> int
    decreases s.len(),
{
    if s.len() == 0 {
        0
    } else {
        sum_of(s.drop_last(), f) + f(s.last())
    }
}

/// A team whose id is `id`.
pub open spec fn team_is(id: Seq<char>) -> spec_fn(Team) -> bool {
    |t: Team| t.id@ == id
}

/// A player registered with the team `id`.
pub open spec fn plays_for(id: Seq<char>) -> spec_fn(Player) -> bool {
    |p: Player| p.team_id is Some && p.team_id->0@ == id
}

/// A player whose id is `id`.
pub open spec fn player_is(id: Seq<char>) -> spec_fn(Player) -> bool {
    |p: Player| p.id@ == id
}

/// The managed club's id, or the empty id when no club is managed.
pub open spec fn user_team_key(g: Game) -> Seq<char> {
    match g.manager_team_id {
        Some(t) => t@,
        None => Seq::empty(),
    }
}

/// Finds the first team whose id is `id`.
pub fn find_team(teams: &Vec<Team>, id: &String) -> (r: Option<usize>)
    ensures
        r matches Some(i) ==> first_index(teams@, team_is(id@)) == Some(i as int) && i
            < teams@.len() && teams@[i as int].id@ == id@,
        r is None ==> first_index(teams@, team_is(id@)) is None,
{
    let mut i: usize = 0;
    while i < teams.len()
        invariant
            i <= teams.len(),
            first_index(teams@.take(i as int), team_is(id@)) is None,
        decreases teams.len() - i,
    {
        assert(teams@.take(i + 1).drop_last() =~= teams@.take(i as int));
        if teams[i].id == *id {
            assert(first_index(teams@.take(i + 1), team_is(id@)) == Some(i as int));
            proof { lemma_first_index_prefix(teams@, team_is(id@), i as int + 1); }
            return Some(i);
        }
        i = i + 1;
    }
    assert(teams@.take(teams.len() as int) =~= teams@);
    None
}

/// Once a prefix has a match, the whole sequence has the same first match.
pub proof fn lemma_first_index_prefix<T>(s: Seq<T>, p: spec_fn(T) -> bool, n: int)
    requires
        0 <= n <= s.len(),
        first_index(s.take(n), p) is Some,
    ensures
        first_index(s, p) == first_index(s.take(n), p),
    decreases s.len() - n,
{
    if n < s.len() {
        assert(s.take(n + 1).drop_last() =~= s.take(n));
        lemma_first_index_prefix(s, p, n + 1);
    } else {
        assert(s.take(n) =~= s);
    }
}

} // verus!
