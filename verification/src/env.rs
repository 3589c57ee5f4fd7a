//! The environment: scenario settings, and observing and acting on a game.

use crate::model::{
    find_team, first_index, lemma_first_index, plays_for, sum_of, team_is, user_team_key, Fixture, Game,
    Player, PlayStyle, Position, Standing, Team,
};
use chrono::Datelike;
use vstd::prelude::*;
use vstd::string::StringExecFns;

verus! {

/// How the managed club is chosen from the generated world.
#[derive(Debug, Clone)]
pub enum ClubPick {
    /// `world.teams[idx]` (world order, deterministic per seed).
    Index(usize),
    /// The club whose average squad strength ranks `rank`-th when all clubs
    /// are sorted by mean player ovr (0 = weakest, len-1 = strongest).
    Strength(usize),
}

/// World size for the benchmark environment.
#[derive(Debug, Clone, Copy, PartialEq, Eq, Structural)]
pub enum WorldSize {
    Compact,
    Medium,
    Standard,
}

/// Which track the episode exercises: `Coach` (matchday decisions only) or
/// `Manager` (the full market too).
#[derive(Debug, Clone, Copy, PartialEq, Eq, Structural)]
pub enum AgentMode {
    Coach,
    Manager,
}

/// The managed club's financial starting state (a scenario lever).
#[derive(Debug, Clone, Copy, PartialEq, Eq, Structural)]
pub struct ScenarioBudget {
    pub finance: i64,
    pub transfer_budget: i64,
    pub wage_budget: i64,
}

impl Default for ScenarioBudget {
    /// The big-budget default (keeps the transfer market usable).
    fn default() -> (b: Self)
        ensures
            b == ScenarioBudget::spec_rebuild(),
    {
        Self::rebuild()
    }
}

/// Unicode `White_Space` characters.
pub open spec fn is_unicode_whitespace(c: char) -> bool {
    ||| ('\u{9}' <= c <= '\u{d}')
    ||| c == ' '
    ||| c == '\u{85}'
    ||| c == '\u{a0}'
    ||| c == '\u{1680}'
    ||| ('\u{2000}' <= c <= '\u{200a}')
    ||| c == '\u{2028}'
    ||| c == '\u{2029}'
    ||| c == '\u{202f}'
    ||| c == '\u{205f}'
    ||| c == '\u{3000}'
}

/// `s` without its leading whitespace.
pub open spec fn strip_leading_ws(s: Seq<char>) -> Seq<char>
    decreases s.len(),
{
    if s.len() > 0 && is_unicode_whitespace(s[0]) {
        strip_leading_ws(s.drop_first())
    } else {
        s
    }
}

/// `s` without its trailing whitespace.
pub open spec fn strip_trailing_ws(s: Seq<char>) -> Seq<char>
    decreases s.len(),
{
    if s.len() > 0 && is_unicode_whitespace(s.last()) {
        strip_trailing_ws(s.drop_last())
    } else {
        s
    }
}

/// `s` without leading and trailing whitespace.
pub open spec fn trim_ws(s: Seq<char>) -> Seq<char> {
    strip_trailing_ws(strip_leading_ws(s))
}

/// What `str::to_lowercase` returns for `s` (Unicode lowercase mapping).
pub uninterp spec fn unicode_lowercase(s: Seq<char>) -> Seq<char>;

/// `str::trim` (std): removes leading and trailing Unicode `White_Space`.
#[verifier::external_body]
fn trim_text(s: &str) -> (r: &str)
    ensures
        r@ == trim_ws(s@),
{
    s.trim()
}

/// `str::to_lowercase` (std): the Unicode lowercase mapping of `s`, named
/// [`unicode_lowercase`]; its case tables are not written out here.
#[verifier::external_body]
fn lowercase_text(s: &str) -> (r: String)
    ensures
        r@ == unicode_lowercase(s@),
{
    s.to_lowercase()
}

impl ScenarioBudget {
    pub open spec fn spec_crisis() -> ScenarioBudget {
        ScenarioBudget { finance: 20_000_000, transfer_budget: 5_000_000, wage_budget: 2_000_000 }
    }

    pub open spec fn spec_moneyball() -> ScenarioBudget {
        ScenarioBudget { finance: 40_000_000, transfer_budget: 15_000_000, wage_budget: 2_500_000 }
    }

    pub open spec fn spec_rebuild() -> ScenarioBudget {
        ScenarioBudget { finance: 60_000_000, transfer_budget: 50_000_000, wage_budget: 3_000_000 }
    }

    pub open spec fn spec_title() -> ScenarioBudget {
        ScenarioBudget { finance: 100_000_000, transfer_budget: 60_000_000, wage_budget: 3_500_000 }
    }

    /// The scenario a normalised name selects; anything unknown is `rebuild`.
    pub open spec fn spec_by_key(key: Seq<char>) -> ScenarioBudget {
        if key == "crisis"@ {
            Self::spec_crisis()
        } else if key == "moneyball"@ {
            Self::spec_moneyball()
        } else if key == "title"@ {
            Self::spec_title()
        } else {
            Self::spec_rebuild()
        }
    }

    /// Relegation fight: a tiny budget to work with.
    pub fn crisis() -> (b: Self)
        ensures
            b == Self::spec_crisis(),
    {
        Self { finance: 20_000_000, transfer_budget: 5_000_000, wage_budget: 2_000_000 }
    }

    /// Top-half on a tight budget: spend smart or not at all.
    pub fn moneyball() -> (b: Self)
        ensures
            b == Self::spec_moneyball(),
    {
        Self { finance: 40_000_000, transfer_budget: 15_000_000, wage_budget: 2_500_000 }
    }

    /// Big-budget rebuild: room to buy, pressure to deliver.
    pub fn rebuild() -> (b: Self)
        ensures
            b == Self::spec_rebuild(),
    {
        Self { finance: 60_000_000, transfer_budget: 50_000_000, wage_budget: 3_000_000 }
    }

    /// Title contender: top-tier finances.
    pub fn title() -> (b: Self)
        ensures
            b == Self::spec_title(),
    {
        Self { finance: 100_000_000, transfer_budget: 60_000_000, wage_budget: 3_500_000 }
    }

    /// The scenario named `name`, matched after trimming and lowercasing;
    /// unknown names give the `rebuild` default.
    pub fn by_name(name: &str) -> (b: ScenarioBudget)
        ensures
            b == Self::spec_by_key(unicode_lowercase(trim_ws(name@))),
    {
        let key = lowercase_text(trim_text(name));
        Self::by_key(&key)
    }

    /// The scenario an already trimmed and lowercased name selects.
    pub fn by_key(key: &String) -> (b: ScenarioBudget)
        ensures
            b == Self::spec_by_key(key@),
    {
        if *key == "crisis".to_string() {
            Self::crisis()
        } else if *key == "moneyball".to_string() {
            Self::moneyball()
        } else if *key == "title".to_string() {
            Self::title()
        } else {
            Self::rebuild()
        }
    }
}

/// The managed club's id ("" when no club is managed).
pub fn user_team_id(game: &Game) -> (id: String)
    ensures
        id@ == user_team_key(*game),
{
    match &game.manager_team_id {
        Some(t) => t.clone(),
        None => String::new(),
    }
}


/// The managed club's bank balance (0 when it is not among the teams).
pub open spec fn user_balance(g: Game) -> int {
    match first_index(g.teams@, team_is(user_team_key(g))) {
        Some(i) => g.teams@[i].finance as int,
        None => 0,
    }
}

/// A player's market value as it enters the net worth (a signed 64-bit
/// reading of the unsigned value), if the player is on team `team`.
pub open spec fn value_on(team: Seq<char>) -> spec_fn(Player) -> int {
    |p: Player| if plays_for(team)(p) { (p.market_value as i64) as int } else { 0 }
}

/// Total market value of the squad of `team`.
pub open spec fn squad_value(players: Seq<Player>, team: Seq<char>) -> int {
    sum_of(players, value_on(team))
}

/// Net worth can be added up in 64 bits: every running total of the squad's
/// value, and the final sum with the balance, fit in `i64`.
pub open spec fn net_worth_fits(g: Game) -> bool {
    &&& forall|k: int|
        0 <= k <= g.players@.len() ==> i64::MIN <= #[trigger] squad_value(
            g.players@.take(k),
            user_team_key(g),
        ) <= i64::MAX
    &&& i64::MIN <= user_balance(g) + squad_value(g.players@, user_team_key(g)) <= i64::MAX
}

/// Is `p` registered with the club `team_id`?
pub fn is_on_team(p: &Player, team_id: &String) -> (b: bool)
    ensures
        b == plays_for(team_id@)(*p),
{
    match &p.team_id {
        Some(t) => *t == *team_id,
        None => false,
    }
}

/// The indices of the uninjured players of club `team`, in squad order.
pub open spec fn spec_available(ps: Seq<Player>, team: Seq<char>) -> Seq<int>
    decreases ps.len(),
{
    if ps.len() == 0 {
        Seq::empty()
    } else {
        let rest = spec_available(ps.drop_last(), team);
        if plays_for(team)(ps.last()) && !ps.last().injured {
            rest.push(ps.len() - 1)
        } else {
            rest
        }
    }
}

/// Non-injured squad members of club `team_id` (indices into `players`).
pub fn available_players(players: &Vec<Player>, team_id: &String) -> (a: Vec<usize>)
    ensures
        a@.map_values(|i: usize| i as int) == spec_available(players@, team_id@),
{
    let mut a: Vec<usize> = Vec::new();
    let mut i: usize = 0;
    while i < players.len()
        invariant
            i <= players.len(),
            a@.map_values(|i: usize| i as int) == spec_available(players@.take(i as int), team_id@),
        decreases players.len() - i,
    {
        assert(players@.take(i + 1).drop_last() =~= players@.take(i as int));
        assert(players@.take(i + 1).last() == players@[i as int]);
        if is_on_team(&players[i], team_id) && !players[i].injured {
            let ghost before = a@.map_values(|i: usize| i as int);
            a.push(i);
            assert(a@.map_values(|i: usize| i as int) =~= before.push(i as int));
        }
        i = i + 1;
    }
    assert(players@.take(players.len() as int) =~= players@);
    a
}

/// The club's total net worth: squad market value plus bank balance.
pub fn net_worth(game: &Game) -> (w: i64)
    requires
        net_worth_fits(*game),
    ensures
        w == user_balance(*game) + squad_value(game.players@, user_team_key(*game)),
{
    let team_id = user_team_id(game);
    let balance: i64 = match find_team(&game.teams, &team_id) {
        Some(i) => game.teams[i].finance,
        None => 0,
    };
    let ghost key = user_team_key(*game);
    let mut sum: i64 = 0;
    let mut i: usize = 0;
    while i < game.players.len()
        invariant
            i <= game.players.len(),
            key == team_id@,
            key == user_team_key(*game),
            net_worth_fits(*game),
            sum == squad_value(game.players@.take(i as int), key),
        decreases game.players.len() - i,
    {
        let p = &game.players[i];
        assert(game.players@.take(i + 1).drop_last() =~= game.players@.take(i as int));
        assert(i64::MIN <= squad_value(game.players@.take(i + 1), key) <= i64::MAX);
        assert(squad_value(game.players@.take(i + 1), key) == squad_value(
            game.players@.take(i as int),
            key,
        ) + value_on(key)(game.players@[i as int]));
        if is_on_team(p, &team_id) {
            sum = sum + (#[verifier::truncate] (p.market_value as i64));
        }
        i = i + 1;
    }
    assert(game.players@.take(game.players.len() as int) =~= game.players@);
    balance + sum
}

/// A copy of `ids`, element by element.
pub fn copy_ids(ids: &[String]) -> (v: Vec<String>)
    ensures
        v@ == ids@,
{
    let mut v: Vec<String> = Vec::new();
    let mut i: usize = 0;
    while i < ids.len()
        invariant
            i <= ids.len(),
            v@ == ids@.take(i as int),
        decreases ids.len() - i,
    {
        v.push(ids[i].clone());
        assert(v@ =~= ids@.take(i + 1));
        i = i + 1;
    }
    assert(ids@.take(ids.len() as int) =~= ids@);
    v
}

/// The index of the managed club in `g.teams`, when one is managed and found.
pub open spec fn user_team_index(g: Game) -> Option<int> {
    match g.manager_team_id {
        Some(t) => first_index(g.teams@, team_is(t@)),
        None => None,
    }
}

/// `new` is `old` with the managed club's starting XI set to `lineup`
/// (nothing else changes; nothing changes when no managed club is found).
pub open spec fn lineup_applied(old: Game, new: Game, lineup: Seq<String>) -> bool {
    &&& new.teams@.len() == old.teams@.len()
    &&& new == (Game { teams: new.teams, ..old })
    &&& match user_team_index(old) {
        Some(i) => {
            &&& new.teams@[i] == (Team { starting_xi_ids: new.teams@[i].starting_xi_ids, ..old.teams@[i] })
            &&& new.teams@[i].starting_xi_ids@ == lineup
            &&& forall|j: int| 0 <= j < old.teams@.len() && j != i ==> new.teams@[j] == old.teams@[j]
        },
        None => new.teams@ == old.teams@,
    }
}

/// `new` is `old` with the managed club's play style set to `style`.
pub open spec fn style_applied(old: Game, new: Game, style: PlayStyle) -> bool {
    &&& new.teams@.len() == old.teams@.len()
    &&& new == (Game { teams: new.teams, ..old })
    &&& match user_team_index(old) {
        Some(i) => {
            &&& new.teams@[i] == (Team { play_style: style, ..old.teams@[i] })
            &&& forall|j: int| 0 <= j < old.teams@.len() && j != i ==> new.teams@[j] == old.teams@[j]
        },
        None => new.teams@ == old.teams@,
    }
}

/// Set the user's starting XI (slot-aligned); an empty lineup leaves the
/// choice to the AI default.  Only the managed club's `starting_xi_ids`
/// changes.
pub fn apply_lineup(game: &mut Game, lineup: &[String])
    ensures
        lineup_applied(*old(game), *final(game), lineup@),
{
    let idx = match &game.manager_team_id {
        Some(t) => find_team(&game.teams, t),
        None => None,
    };
    if let Some(i) = idx {
        proof { lemma_first_index(game.teams@, team_is(game.manager_team_id->0@)); }
        let mut team = game.teams.remove(i);
        team.starting_xi_ids = copy_ids(lineup);
        game.teams.insert(i, team);
    }
}

/// Set the user's play style.  Only the managed club's `play_style` changes.
pub fn apply_play_style(game: &mut Game, style: PlayStyle)
    ensures
        style_applied(*old(game), *final(game), style),
{
    let idx = match &game.manager_team_id {
        Some(t) => find_team(&game.teams, t),
        None => None,
    };
    if let Some(i) = idx {
        proof { lemma_first_index(game.teams@, team_is(game.manager_team_id->0@)); }
        let mut team = game.teams.remove(i);
        team.play_style = style;
        game.teams.insert(i, team);
    }
}


/// Row `a` is strictly ahead of row `b` in the table: more points, or equal
/// points and a better goal difference.
pub open spec fn ahead(a: Standing, b: Standing) -> bool {
    a.points > b.points || (a.points == b.points && a.gd() > b.gd())
}

/// In the table sorted by points then goal difference (both descending, ties
/// kept in their original order), row `j` comes before row `i`.
pub open spec fn sorted_before(s: Seq<Standing>, j: int, i: int) -> bool {
    ahead(s[j], s[i]) || (!ahead(s[i], s[j]) && j < i)
}

/// How many of the first `n` rows come before row `i` in the sorted table.
pub open spec fn count_before(s: Seq<Standing>, i: int, n: int) -> int
    decreases n,
{
    if n <= 0 {
        0
    } else {
        count_before(s, i, n - 1) + if sorted_before(s, n - 1, i) {
            1int
        } else {
            0
        }
    }
}

/// Row `i`'s 0-based place in the sorted table.
pub open spec fn table_place(s: Seq<Standing>, i: int) -> int {
    count_before(s, i, s.len() as int)
}

/// Of the first `n` rows that belong to club `team`, the one that comes
/// first in the sorted table.
pub open spec fn first_row_of(s: Seq<Standing>, team: Seq<char>, n: int) -> Option<int>
    decreases n,
{
    if n <= 0 {
        None
    } else {
        let prev = first_row_of(s, team, n - 1);
        if s[n - 1].team_id@ == team {
            match prev {
                Some(b) => if ahead(s[n - 1], s[b]) {
                    Some(n - 1)
                } else {
                    Some(b)
                },
                None => Some(n - 1),
            }
        } else {
            prev
        }
    }
}

/// The club's league position (1-based, 0 when absent) and points (0 when
/// absent), read from the table sorted by points then goal difference.
pub open spec fn spec_position_points(s: Seq<Standing>, team: Seq<char>) -> (int, int) {
    match first_row_of(s, team, s.len() as int) {
        Some(i) => (table_place(s, i) + 1, s[i].points as int),
        None => (0, 0),
    }
}

proof fn lemma_count_before_bound(s: Seq<Standing>, i: int, n: int)
    requires
        0 <= n <= s.len(),
        0 <= i < s.len(),
    ensures
        0 <= count_before(s, i, n) <= n,
        i < n ==> count_before(s, i, n) <= n - 1,
    decreases n,
{
    if n > 0 {
        lemma_count_before_bound(s, i, n - 1);
    }
}

/// The row [`first_row_of`] picks belongs to the club and comes before every
/// other row of the club in the sorted table.
proof fn lemma_first_row_of(s: Seq<Standing>, team: Seq<char>, n: int)
    requires
        0 <= n <= s.len(),
    ensures
        match first_row_of(s, team, n) {
            Some(i) => 0 <= i < n && s[i].team_id@ == team && forall|j: int|
                0 <= j < n && j != i && s[j].team_id@ == team ==> sorted_before(s, i, j),
            None => forall|j: int| 0 <= j < n ==> s[j].team_id@ != team,
        },
    decreases n,
{
    if n > 0 {
        lemma_first_row_of(s, team, n - 1);
        let prev = first_row_of(s, team, n - 1);
        if s[n - 1].team_id@ == team {
            if let Some(b) = prev {
                if ahead(s[n - 1], s[b]) {
                    assert forall|j: int|
                        0 <= j < n && j != n - 1 && s[j].team_id@ == team implies sorted_before(
                        s,
                        n - 1,
                        j,
                    ) by {
                        if j != b {
                            assert(sorted_before(s, b, j));
                        }
                    }
                }
            }
        }
    }
}

proof fn lemma_place_zero(s: Seq<Standing>, i: int, n: int)
    requires
        count_before(s, i, n) == 0,
        0 <= n <= s.len(),
    ensures
        forall|j: int| 0 <= j < n ==> !sorted_before(s, j, i),
    decreases n,
{
    if n > 0 {
        lemma_count_before_bound_nonneg(s, i, n - 1);
        lemma_place_zero(s, i, n - 1);
    }
}

proof fn lemma_count_before_bound_nonneg(s: Seq<Standing>, i: int, n: int)
    ensures
        count_before(s, i, n) >= 0,
    decreases n,
{
    if n > 0 {
        lemma_count_before_bound_nonneg(s, i, n - 1);
    }
}

/// The club's row in the table: of its rows, the one that comes first in
/// the table sorted by points and then goal difference.
pub fn user_row(standings: &Vec<Standing>, team: &String) -> (r: Option<usize>)
    ensures
        r matches Some(b) ==> first_row_of(standings@, team@, standings@.len() as int) == Some(
            b as int,
        ) && b < standings@.len(),
        r is None ==> first_row_of(standings@, team@, standings@.len() as int) is None,
        r is None <==> forall|j: int|
            0 <= j < standings@.len() ==> standings@[j].team_id@ != team@,
{
    let n = standings.len();
    let mut best: Option<usize> = None;
    let mut k: usize = 0;
    while k < n
        invariant
            k <= n == standings@.len(),
            best matches Some(b) ==> first_row_of(standings@, team@, k as int) == Some(b as int),
            best is None ==> first_row_of(standings@, team@, k as int) is None,
        decreases n - k,
    {
        let row = &standings[k];
        if row.team_id == *team {
            match best {
                Some(b) => {
                    proof { lemma_first_row_of(standings@, team@, k as int); }
                    let rb = &standings[b];
                    if row.points > rb.points || (row.points == rb.points
                        && row.goal_difference() > rb.goal_difference()) {
                        best = Some(k);
                    }
                },
                None => {
                    best = Some(k);
                },
            }
        }
        k = k + 1;
    }
    proof { lemma_first_row_of(standings@, team@, n as int); }
    best
}

/// Row `b`'s 1-based position in the table sorted (stably) by points and
/// then goal difference, both descending.
pub fn table_position(standings: &Vec<Standing>, b: usize) -> (p: usize)
    requires
        b < standings@.len(),
    ensures
        p == table_place(standings@, b as int) + 1,
        1 <= p <= standings@.len(),
        p == 1 ==> forall|j: int|
            0 <= j < standings@.len() ==> !ahead(#[trigger] standings@[j], standings@[b as int]),
{
    let n = standings.len();
    let rb = &standings[b];
    let mut place: usize = 0;
    let mut j: usize = 0;
    while j < n
        invariant
            j <= n == standings@.len(),
            b < n,
            *rb == standings@[b as int],
            place == count_before(standings@, b as int, j as int),
        decreases n - j,
    {
        proof { lemma_count_before_bound(standings@, b as int, j as int + 1); }
        let rj = &standings[j];
        let rj_ahead = rj.points > rb.points || (rj.points == rb.points && rj.goal_difference()
            > rb.goal_difference());
        let rb_ahead = rb.points > rj.points || (rb.points == rj.points && rb.goal_difference()
            > rj.goal_difference());
        if rj_ahead || (!rb_ahead && j < b) {
            place = place + 1;
        }
        j = j + 1;
    }
    proof {
        lemma_count_before_bound(standings@, b as int, n as int);
        if place == 0 {
            lemma_place_zero(standings@, b as int, n as int);
            assert forall|j: int| 0 <= j < n implies !ahead(
                #[trigger] standings@[j],
                standings@[b as int],
            ) by {
                assert(!sorted_before(standings@, j, b as int));
            }
        }
    }
    place + 1
}

/// The club's place and points in a table, as they are read from the table
/// after sorting it (stably) by points and then goal difference, both
/// descending: `(position, points)`, with position counted from 1, and
/// `(0, 0)` for a club that has no row.
pub fn league_position_points(standings: &Vec<Standing>, team: &String) -> (r: (usize, u32))
    ensures
        r.0 == spec_position_points(standings@, team@).0,
        r.1 == spec_position_points(standings@, team@).1,
        r.0 <= standings@.len(),
        r.0 == 0 <==> forall|j: int|
            0 <= j < standings@.len() ==> standings@[j].team_id@ != team@,
        r.0 == 1 ==> forall|j: int|
            0 <= j < standings@.len() ==> !ahead(
                #[trigger] standings@[j],
                standings@[first_row_of(standings@, team@, standings@.len() as int)->0],
            ),
{
    match user_row(standings, team) {
        None => (0, 0),
        Some(b) => (table_position(standings, b), standings[b].points),
    }
}

/// The day number (days since 0001-01-01 counted from 1, proleptic
/// Gregorian) of the date that `NaiveDate::parse_from_str(s, "%Y-%m-%d")`
/// parses from `s`, or `None` where it fails.
pub uninterp spec fn ymd_day_number(s: Seq<char>) -> Option<i32>;

/// `chrono::NaiveDate::parse_from_str(s, "%Y-%m-%d")`, read back as the
/// date's `num_days_from_ce()`.  Which strings parse, and to which day, is
/// chrono's format grammar and calendar: it is named [`ymd_day_number`]
/// rather than written out.
#[verifier::external_body]
fn parse_ymd_day(s: &str) -> (r: Option<i32>)
    ensures
        r == ymd_day_number(s@),
{
    match chrono::NaiveDate::parse_from_str(s, "%Y-%m-%d") {
        Ok(d) => Some(d.num_days_from_ce()),
        Err(_) => None,
    }
}

/// Integer division rounding toward zero.
pub open spec fn trunc_div(x: int, d: int) -> int {
    if x >= 0 {
        x / d
    } else {
        -((-x) / d)
    }
}

/// Age in whole 365-day years between two day numbers (`None` where a date
/// did not parse), wrapped into a `u8`; 0 when either is missing.
pub open spec fn spec_age_between(birth: Option<i32>, today: Option<i32>) -> u8 {
    match (birth, today) {
        (Some(b), Some(t)) => trunc_div(t - b, 365) as u8,
        _ => 0,
    }
}

/// Age in whole 365-day years from `dob` to `today`, wrapped into a `u8`;
/// 0 when either date does not parse.
pub open spec fn spec_age(dob: Seq<char>, today: Seq<char>) -> u8 {
    spec_age_between(ymd_day_number(dob), ymd_day_number(today))
}

/// Whole 365-day years from day `birth` to day `today`, truncated toward
/// zero and wrapped into a `u8`; 0 when either day is missing.
pub fn age_between(birth: Option<i32>, today: Option<i32>) -> (a: u8)
    ensures
        a == spec_age_between(birth, today),
{
    let (b, t) = match (birth, today) {
        (Some(b), Some(t)) => (b, t),
        _ => return 0,
    };
    let days: i64 = t as i64 - b as i64;
    let years: i64 = if days >= 0 {
        days / 365
    } else {
        -((-days) / 365)
    };
    #[verifier::truncate]
    (years as u8)
}

/// A player's age on `today` (both `YYYY-MM-DD`).
pub fn age_from_dob(dob: &str, today: &str) -> (a: u8)
    ensures
        a == spec_age(dob@, today@),
{
    let b = parse_ymd_day(dob);
    let t = parse_ymd_day(today);
    age_between(b, t)
}

/// A player as the agent sees it (the visible information set).
#[derive(Clone, Debug)]
pub struct PlayerView {
    pub id: String,
    pub name: String,
    /// The player's own position, by name.
    pub position: String,
    pub group_position: Position,
    pub ovr: u8,
    pub age: u8,
    pub condition: u8,
    pub fitness: u8,
    pub morale: u8,
    pub injured: bool,
    pub transfer_listed: bool,
    pub wage: u32,
    pub market_value: u64,
}

impl PlayerView {
    /// A field-by-field copy.
    pub fn clone_view(&self) -> (c: PlayerView)
        ensures
            c == *self,
    {
        PlayerView {
            id: self.id.clone(),
            name: self.name.clone(),
            position: self.position.clone(),
            group_position: self.group_position,
            ovr: self.ovr,
            age: self.age,
            condition: self.condition,
            fitness: self.fitness,
            morale: self.morale,
            injured: self.injured,
            transfer_listed: self.transfer_listed,
            wage: self.wage,
            market_value: self.market_value,
        }
    }
}

/// What the agent sees of player `p` on `today`.
pub open spec fn spec_player_view(p: Player, today: Seq<char>) -> PlayerView {
    PlayerView {
        id: p.id,
        name: p.match_name,
        position: p.position_name,
        group_position: p.position,
        ovr: p.ovr,
        age: spec_age(p.date_of_birth@, today),
        condition: p.condition,
        fitness: p.fitness,
        morale: p.morale,
        injured: p.injured,
        transfer_listed: p.transfer_listed,
        wage: p.wage,
        market_value: p.market_value,
    }
}

/// The views of the players of `team`, in squad order.
pub open spec fn spec_squad(ps: Seq<Player>, team: Seq<char>, today: Seq<char>) -> Seq<PlayerView>
    decreases ps.len(),
{
    if ps.len() == 0 {
        Seq::empty()
    } else {
        let rest = spec_squad(ps.drop_last(), team, today);
        if plays_for(team)(ps.last()) {
            rest.push(spec_player_view(ps.last(), today))
        } else {
            rest
        }
    }
}

/// What the agent sees of player `p` on `today`.
pub fn player_view(p: &Player, today: &String) -> (v: PlayerView)
    ensures
        v == spec_player_view(*p, today@),
{
    PlayerView {
        id: p.id.clone(),
        name: p.match_name.clone(),
        position: p.position_name.clone(),
        group_position: p.position,
        ovr: p.ovr,
        age: age_from_dob(p.date_of_birth.as_str(), today.as_str()),
        condition: p.condition,
        fitness: p.fitness,
        morale: p.morale,
        injured: p.injured,
        transfer_listed: p.transfer_listed,
        wage: p.wage,
        market_value: p.market_value,
    }
}

/// The squad of club `team_id` as the agent sees it on `today`.
pub fn squad_view(players: &Vec<Player>, team_id: &String, today: &String) -> (v: Vec<PlayerView>)
    ensures
        v@ == spec_squad(players@, team_id@, today@),
{
    let mut out: Vec<PlayerView> = Vec::new();
    let mut i: usize = 0;
    while i < players.len()
        invariant
            i <= players.len(),
            out@ == spec_squad(players@.take(i as int), team_id@, today@),
        decreases players.len() - i,
    {
        assert(players@.take(i + 1).drop_last() =~= players@.take(i as int));
        if is_on_team(&players[i], team_id) {
            out.push(player_view(&players[i], today));
        }
        i = i + 1;
    }
    assert(players@.take(players.len() as int) =~= players@);
    out
}

/// The name of the first team whose id is `id` ("" when there is none).
pub open spec fn spec_team_name(teams: Seq<Team>, id: Seq<char>) -> Seq<char> {
    match first_index(teams, team_is(id)) {
        Some(i) => teams[i].name@,
        None => Seq::empty(),
    }
}

/// The name of the first team whose id is `id` ("" when there is none).
pub fn team_name(teams: &Vec<Team>, id: &String) -> (n: String)
    ensures
        n@ == spec_team_name(teams@, id@),
{
    match find_team(teams, id) {
        Some(i) => teams[i].name.clone(),
        None => String::new(),
    }
}

/// A scheduled fixture that involves club `team`.
pub open spec fn upcoming_for(team: Seq<char>) -> spec_fn(Fixture) -> bool {
    |f: Fixture| f.scheduled && (f.home_team_id@ == team || f.away_team_id@ == team)
}

/// How a fixture is shown: `"<date> <home> vs <away> (H)"`, or `(A)` when
/// club `team` plays away.
pub open spec fn spec_fixture_label(f: Fixture, teams: Seq<Team>, team: Seq<char>) -> Seq<char> {
    f.date@ + " "@ + spec_team_name(teams, f.home_team_id@) + " vs "@ + spec_team_name(
        teams,
        f.away_team_id@,
    ) + " "@ + if f.home_team_id@ == team {
        "(H)"@
    } else {
        "(A)"@
    }
}

/// Shows fixture `f` from club `team`'s side.
pub fn fixture_label(f: &Fixture, teams: &Vec<Team>, team: &String) -> (s: String)
    ensures
        s@ == spec_fixture_label(*f, teams@, team@),
{
    let home = team_name(teams, &f.home_team_id);
    let away = team_name(teams, &f.away_team_id);
    let venue = if f.home_team_id == *team {
        "(H)"
    } else {
        "(A)"
    };
    f.date.clone().concat(" ").concat(home.as_str()).concat(" vs ").concat(away.as_str()).concat(
        " ",
    ).concat(venue)
}

/// Index of the first scheduled fixture of club `team` in `fixtures`.
pub fn find_upcoming(fixtures: &Vec<Fixture>, team: &String) -> (r: Option<usize>)
    ensures
        r matches Some(i) ==> first_index(fixtures@, upcoming_for(team@)) == Some(i as int) && i
            < fixtures@.len(),
        r is None ==> first_index(fixtures@, upcoming_for(team@)) is None,
{
    let mut i: usize = 0;
    while i < fixtures.len()
        invariant
            i <= fixtures.len(),
            first_index(fixtures@.take(i as int), upcoming_for(team@)) is None,
        decreases fixtures.len() - i,
    {
        assert(fixtures@.take(i + 1).drop_last() =~= fixtures@.take(i as int));
        let f = &fixtures[i];
        if f.scheduled && (f.home_team_id == *team || f.away_team_id == *team) {
            assert(first_index(fixtures@.take(i + 1), upcoming_for(team@)) == Some(i as int));
            proof { crate::model::lemma_first_index_prefix(fixtures@, upcoming_for(team@), i as int + 1); }
            return Some(i);
        }
        i = i + 1;
    }
    assert(fixtures@.take(fixtures.len() as int) =~= fixtures@);
    None
}

/// A fixture of club `team` scheduled on `today`.
pub open spec fn today_for(today: Seq<char>, team: Seq<char>) -> spec_fn(Fixture) -> bool {
    |f: Fixture| f.date@ == today && upcoming_for(team)(f)
}

/// Index of the user's scheduled fixture today, if any (in the league).
pub fn user_fixture_index(game: &Game) -> (r: Option<usize>)
    ensures
        game.manager_team_id is None || game.league is None ==> r is None,
        game.manager_team_id is Some && game.league is Some ==> match first_index(
            game.league->0.fixtures@,
            today_for(game.today@, game.manager_team_id->0@),
        ) {
            Some(i) => r == Some(i as usize),
            None => r is None,
        },
{
    let team = match &game.manager_team_id {
        Some(t) => t,
        None => return None,
    };
    let league = match &game.league {
        Some(l) => l,
        None => return None,
    };
    let fixtures = &league.fixtures;
    let mut i: usize = 0;
    while i < fixtures.len()
        invariant
            i <= fixtures.len(),
            first_index(fixtures@.take(i as int), today_for(game.today@, team@)) is None,
            game.league is Some && game.league->0.fixtures@ == fixtures@,
            game.manager_team_id is Some && game.manager_team_id->0 == *team,
        decreases fixtures.len() - i,
    {
        assert(fixtures@.take(i + 1).drop_last() =~= fixtures@.take(i as int));
        let f = &fixtures[i];
        if f.date == game.today && f.scheduled && (f.home_team_id == *team || f.away_team_id
            == *team) {
            assert(first_index(fixtures@.take(i + 1), today_for(game.today@, team@)) == Some(
                i as int,
            ));
            proof {
                crate::model::lemma_first_index_prefix(
                    fixtures@,
                    today_for(game.today@, team@),
                    i as int + 1,
                );
            }
            return Some(i);
        }
        i = i + 1;
    }
    assert(fixtures@.take(fixtures.len() as int) =~= fixtures@);
    None
}


/// The observation delivered to an agent on a matchday decision step.
#[derive(Clone, Debug)]
pub struct Observation {
    pub date: String,
    pub team_name: String,
    pub formation: String,
    pub league_position: usize,
    pub points: u32,
    pub next_fixture: Option<String>,
    pub squad: Vec<PlayerView>,
}

/// The first scheduled fixture of club `team` in the league, if any.
pub open spec fn spec_league_fixture(g: Game, team: Seq<char>) -> Option<Fixture> {
    match g.league {
        Some(l) => match first_index(l.fixtures@, upcoming_for(team)) {
            Some(i) => Some(l.fixtures@[i]),
            None => None,
        },
        None => None,
    }
}

/// The agent's information set at the current date.
pub fn observe(game: &Game) -> (obs: Observation)
    ensures
        obs.date@ == game.today@,
        obs.team_name@ == spec_team_name(game.teams@, user_team_key(*game)),
        obs.formation@ == (match first_index(game.teams@, team_is(user_team_key(*game))) {
            Some(i) => game.teams@[i].formation@,
            None => "4-4-2"@,
        }),
        match game.league {
            Some(l) => obs.league_position == spec_position_points(
                l.standings@,
                user_team_key(*game),
            ).0 && obs.points == spec_position_points(l.standings@, user_team_key(*game)).1,
            None => obs.league_position == 0 && obs.points == 0,
        },
        match spec_league_fixture(*game, user_team_key(*game)) {
            Some(f) => obs.next_fixture is Some && obs.next_fixture->0@ == spec_fixture_label(
                f,
                game.teams@,
                user_team_key(*game),
            ),
            None => obs.next_fixture is None,
        },
        obs.squad@ == spec_squad(game.players@, user_team_key(*game), game.today@),
{
    let user = user_team_id(game);
    let (team_name, formation) = match find_team(&game.teams, &user) {
        Some(i) => (game.teams[i].name.clone(), game.teams[i].formation.clone()),
        None => (String::new(), "4-4-2".to_string()),
    };
    let next_fixture = match &game.league {
        Some(l) => match find_upcoming(&l.fixtures, &user) {
            Some(k) => Some(fixture_label(&l.fixtures[k], &game.teams, &user)),
            None => None,
        },
        None => None,
    };
    let (league_position, points) = match &game.league {
        Some(l) => league_position_points(&l.standings, &user),
        None => (0, 0),
    };
    Observation {
        date: game.today.clone(),
        team_name,
        formation,
        league_position,
        points,
        next_fixture,
        squad: squad_view(&game.players, &user, &game.today),
    }
}

/// Advance one game day: `process_day` runs the engine's turn loop on the
/// game (its match engine respects the user's starting XI).
pub fn advance_day<F: Fn(&Game) -> Game>(game: &mut Game, process_day: &F)
    requires
        process_day.requires((&*old(game),)),
    ensures
        call_ensures(*process_day, (&*old(game),), *final(game)),
{
    let next = process_day(game);
    *game = next;
}

} // verus!
