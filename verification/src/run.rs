//! Episode results: the managed club's final table row.

use crate::env::{
    first_row_of, lineup_applied, style_applied, table_place, table_position, today_for, user_row,
    user_team_id,
};
use crate::model::first_index;
use crate::model::{user_team_key, Game, PlayStyle, Standing};
use vstd::prelude::*;

verus! {

/// The result of a matchday-experiment episode.
#[derive(Debug, Clone)]
pub struct EpisodeResult {
    pub seed: u64,
    pub position: usize,
    pub played: u32,
    pub won: u32,
    pub drawn: u32,
    pub lost: u32,
    pub points: u32,
    pub goals_for: u32,
    pub goals_against: u32,
}

/// The result of a decision-cadence episode.
#[derive(Debug, Clone)]
pub struct CadenceResult {
    pub seed: u64,
    pub steps: u64,
    pub position: usize,
    pub played: u32,
    pub won: u32,
    pub drawn: u32,
    pub lost: u32,
    pub points: u32,
    pub goals_for: u32,
    pub goals_against: u32,
}

/// The league table of `g` (empty without a league).
pub open spec fn table_of(g: Game) -> Seq<Standing> {
    match g.league {
        Some(l) => l.standings@,
        None => Seq::empty(),
    }
}

/// The managed club's result: its position in the table sorted by points
/// then goal difference (0 when absent) and its row's figures (all 0 when
/// absent).
pub open spec fn spec_result(g: Game, seed: u64) -> EpisodeResult {
    let st = table_of(g);
    match first_row_of(st, user_team_key(g), st.len() as int) {
        Some(i) => EpisodeResult {
            seed,
            position: (table_place(st, i) + 1) as usize,
            played: st[i].played,
            won: st[i].won,
            drawn: st[i].drawn,
            lost: st[i].lost,
            points: st[i].points,
            goals_for: st[i].goals_for,
            goals_against: st[i].goals_against,
        },
        None => EpisodeResult {
            seed,
            position: 0,
            played: 0,
            won: 0,
            drawn: 0,
            lost: 0,
            points: 0,
            goals_for: 0,
            goals_against: 0,
        },
    }
}

/// The managed club's result in `game` for the episode of `seed`.
pub fn result_of(game: &Game, seed: u64) -> (r: EpisodeResult)
    ensures
        r == spec_result(*game, seed),
{
    let user = user_team_id(game);
    let empty: Vec<Standing> = Vec::new();
    let st: &Vec<Standing> = match &game.league {
        Some(l) => &l.standings,
        None => &empty,
    };
    assert(st@ == table_of(*game));
    match user_row(st, &user) {
        Some(b) => {
            let row = &st[b];
            EpisodeResult {
                seed,
                position: table_position(st, b),
                played: row.played,
                won: row.won,
                drawn: row.drawn,
                lost: row.lost,
                points: row.points,
                goals_for: row.goals_for,
                goals_against: row.goals_against,
            }
        },
        None => EpisodeResult {
            seed,
            position: 0,
            played: 0,
            won: 0,
            drawn: 0,
            lost: 0,
            points: 0,
            goals_for: 0,
            goals_against: 0,
        },
    }
}

/// The result of a decision-cadence episode that took `steps` decisions.
pub open spec fn spec_cadence_result(g: Game, seed: u64, steps: u64) -> CadenceResult {
    CadenceResult {
        seed,
        steps,
        position: spec_result(g, seed).position,
        played: spec_result(g, seed).played,
        won: spec_result(g, seed).won,
        drawn: spec_result(g, seed).drawn,
        lost: spec_result(g, seed).lost,
        points: spec_result(g, seed).points,
        goals_for: spec_result(g, seed).goals_for,
        goals_against: spec_result(g, seed).goals_against,
    }
}

/// The result of a decision-cadence episode that took `steps` decisions.
pub fn cadence_result(game: &Game, seed: u64, steps: u64) -> (r: CadenceResult)
    ensures
        r == spec_cadence_result(*game, seed, steps),
        r == (CadenceResult {
            seed,
            steps,
            position: spec_result(*game, seed).position,
            played: spec_result(*game, seed).played,
            won: spec_result(*game, seed).won,
            drawn: spec_result(*game, seed).drawn,
            lost: spec_result(*game, seed).lost,
            points: spec_result(*game, seed).points,
            goals_for: spec_result(*game, seed).goals_for,
            goals_against: spec_result(*game, seed).goals_against,
        }),
{
    let r = result_of(game, seed);
    CadenceResult {
        seed,
        steps,
        position: r.position,
        played: r.played,
        won: r.won,
        drawn: r.drawn,
        lost: r.lost,
        points: r.points,
        goals_for: r.goals_for,
        goals_against: r.goals_against,
    }
}


/// The managed club has a scheduled league fixture on `g`'s date.
pub open spec fn is_user_matchday(g: Game) -> bool {
    &&& g.manager_team_id is Some
    &&& g.league is Some
    &&& first_index(
        g.league->0.fixtures@,
        today_for(g.today@, g.manager_team_id->0@),
    ) is Some
}

/// `prepared` is `g` made ready for the day: on a user matchday, the play
/// style `tactics` picks on `g` (if any) is applied, and then the lineup
/// `lineup` picks on that state; on any other day nothing changes.
pub open spec fn day_prepared<T: Fn(&Game) -> Option<PlayStyle>, L: Fn(&Game) -> Vec<String>>(
    tactics: T,
    lineup: L,
    g: Game,
    prepared: Game,
) -> bool {
    if is_user_matchday(g) {
        exists|t: Option<PlayStyle>, styled: Game, xi: Vec<String>|
            #![trigger call_ensures(tactics, (&g,), t), call_ensures(lineup, (&styled,), xi)]
            {
                &&& call_ensures(tactics, (&g,), t)
                &&& match t {
                    Some(style) => style_applied(g, styled, style),
                    None => styled == g,
                }
                &&& call_ensures(lineup, (&styled,), xi)
                &&& lineup_applied(styled, prepared, xi@)
            }
    } else {
        prepared == g
    }
}

/// One day of the matchday experiment takes `g` to `next`: the day is
/// prepared, then `next_day` plays it.
pub open spec fn season_day<
    T: Fn(&Game) -> Option<PlayStyle>,
    L: Fn(&Game) -> Vec<String>,
    F: Fn(&Game) -> Game,
>(tactics: T, lineup: L, next_day: F, g: Game, next: Game) -> bool {
    exists|prepared: Game|
        #![trigger call_ensures(next_day, (&prepared,), next)]
        day_prepared(tactics, lineup, g, prepared) && call_ensures(next_day, (&prepared,), next)
}

/// Run a matchday-experiment episode of `days` days on `game`: on each user
/// matchday the agent first picks a play style (`tactics`, `None` to keep
/// the current one) and then a slot-aligned lineup (`lineup`, empty for the
/// AI default), which are applied before `next_day` plays the day.  Returns
/// the managed club's result in the final state.
pub fn run_episode<T: Fn(&Game) -> Option<PlayStyle>, L: Fn(&Game) -> Vec<String>, F: Fn(&Game) -> Game>(
    game: &mut Game,
    seed: u64,
    days: u64,
    tactics: &T,
    lineup: &L,
    next_day: &F,
) -> (r: EpisodeResult)
    requires
        forall|g: &Game| tactics.requires((g,)),
        forall|g: &Game| lineup.requires((g,)),
        forall|g: &Game| next_day.requires((g,)),
    ensures
        r == spec_result(*final(game), seed),
        exists|trail: Seq<Game>|
            {
                &&& trail.len() == days + 1
                &&& trail[0] == *old(game)
                &&& trail[days as int] == *final(game)
                &&& forall|d: int|
                    0 <= d < days ==> #[trigger] season_day(
                        *tactics,
                        *lineup,
                        *next_day,
                        trail[d],
                        trail[d + 1],
                    )
            },
{
    let ghost start = *game;
    let ghost mut trail: Seq<Game> = seq![*game];
    let mut d: u64 = 0;
    while d < days
        invariant
            d <= days,
            forall|g: &Game| tactics.requires((g,)),
            forall|g: &Game| lineup.requires((g,)),
            forall|g: &Game| next_day.requires((g,)),
            trail.len() == d + 1,
            trail[0] == start,
            trail[d as int] == *game,
            forall|k: int|
                0 <= k < d ==> #[trigger] season_day(*tactics, *lineup, *next_day, trail[k], trail[k + 1]),
        decreases days - d,
    {
        let ghost before = *game;
        if crate::env::user_fixture_index(game).is_some() {
            let t = tactics(game);
            if let Some(style) = t {
                crate::env::apply_play_style(game, style);
            }
            let xi = lineup(game);
            crate::env::apply_lineup(game, xi.as_slice());
            assert(day_prepared(*tactics, *lineup, before, *game));
        } else {
            assert(day_prepared(*tactics, *lineup, before, *game));
        }
        crate::env::advance_day(game, next_day);
        assert(season_day(*tactics, *lineup, *next_day, before, *game));
        proof {
            trail = trail.push(*game);
        }
        d = d + 1;
    }
    result_of(game, seed)
}

} // verus!
