//! The decision-cadence episode.
//!
//! The environment stops at every decision point (a user matchday, a fresh
//! incoming offer, a transfer-window market day, or the horizon), and each
//! stop is exactly one agent step.  The engine's own day processing and its
//! transfer/scouting operations are performed by the caller, which hands the
//! resulting game state back: this module decides when to stop, what the
//! agent sees, and what each action asks for.

use crate::env::{
    apply_lineup, apply_play_style, lineup_applied, style_applied, copy_ids, fixture_label, find_upcoming, is_on_team,
    league_position_points, spec_fixture_label, spec_position_points, spec_squad, spec_team_name,
    squad_view, team_name, upcoming_for, user_team_id, user_team_index, PlayerView,
};
use crate::model::{
    Fixture, find_team, first_index, lemma_first_index, plays_for, team_is, user_team_key, Game, Player,
    League, PlayStyle, Position, ScoutReport, Staff, ScoutingAssignment, Team, TransferOffer,
};
use vstd::prelude::*;

verus! {

/// One decision the agent can make at a decision point.
#[derive(Debug, Clone)]
pub enum Action {
    /// Act on nothing and advance to the next decision point.
    Continue,
    /// Set the starting XI for the upcoming matchday (slot-aligned).
    SetLineup { player_ids: Vec<String> },
    /// Set the play style for the upcoming matchday.
    SetTactics { play_style: PlayStyle },
    /// Set lineup and play style in one action.
    SetMatchPlan { player_ids: Vec<String>, play_style: PlayStyle },
    /// Accept an incoming transfer offer for one of our players.
    AcceptOffer { player_id: String, offer_id: String },
    /// Reject an incoming transfer offer.
    RejectOffer { player_id: String, offer_id: String },
    /// Counter an incoming offer with our own requested fee.
    CounterOffer { player_id: String, offer_id: String, fee: u64 },
    /// Bid for a player.
    MakeBid { player_id: String, fee: u64 },
    /// Send a scout to report on a player.
    Scout { player_id: String },
    /// Transfer-list one of our players for sale.
    ListPlayer { player_id: String },
}

/// An incoming transfer offer for one of our players (still pending).
#[derive(Clone, Debug)]
pub struct OfferView {
    pub offer_id: String,
    pub player_id: String,
    pub player_name: String,
    pub from_team: String,
    pub fee: u64,
    pub round: u8,
    pub suggested_counter: Option<u64>,
}

/// An [`OfferView`] with its text as character sequences.
pub struct OfferModel {
    pub offer_id: Seq<char>,
    pub player_id: Seq<char>,
    pub player_name: Seq<char>,
    pub from_team: Seq<char>,
    pub fee: u64,
    pub round: u8,
    pub suggested_counter: Option<u64>,
}

impl DeepView for OfferView {
    type V = OfferModel;

    open spec fn deep_view(&self) -> OfferModel {
        OfferModel {
            offer_id: self.offer_id@,
            player_id: self.player_id@,
            player_name: self.player_name@,
            from_team: self.from_team@,
            fee: self.fee,
            round: self.round,
            suggested_counter: self.suggested_counter,
        }
    }
}

/// How offer `o` for player `p` is shown.
pub open spec fn spec_offer_view(p: Player, o: TransferOffer, teams: Seq<Team>) -> OfferModel {
    OfferModel {
        offer_id: o.id@,
        player_id: p.id@,
        player_name: p.match_name@,
        from_team: spec_team_name(teams, o.from_team_id@),
        fee: o.fee,
        round: o.negotiation_round,
        suggested_counter: o.suggested_counter_fee,
    }
}

/// The pending offers among the first `k` offers for player `p`.
pub open spec fn spec_player_offers(p: Player, teams: Seq<Team>, k: int) -> Seq<OfferModel>
    decreases k,
{
    if k <= 0 {
        Seq::empty()
    } else {
        let rest = spec_player_offers(p, teams, k - 1);
        let o = p.transfer_offers@[k - 1];
        if o.pending {
            rest.push(spec_offer_view(p, o, teams))
        } else {
            rest
        }
    }
}

/// Every pending offer for a player of club `team`, player by player.
pub open spec fn spec_pending(ps: Seq<Player>, teams: Seq<Team>, team: Seq<char>) -> Seq<OfferModel>
    decreases ps.len(),
{
    if ps.len() == 0 {
        Seq::empty()
    } else {
        let rest = spec_pending(ps.drop_last(), teams, team);
        if plays_for(team)(ps.last()) {
            rest + spec_player_offers(ps.last(), teams, ps.last().transfer_offers@.len() as int)
        } else {
            rest
        }
    }
}

/// The pending offers for the managed club's players.
pub open spec fn spec_pending_offers(g: Game) -> Seq<OfferModel> {
    spec_pending(g.players@, g.teams@, user_team_key(g))
}

/// Appends `v`'s deep view.
proof fn lemma_push_deep<T: DeepView>(v: Vec<T>, x: T, w: Vec<T>)
    requires
        w@ == v@.push(x),
    ensures
        w.deep_view() =~= v.deep_view().push(x.deep_view()),
{
}

/// The pending offers for the managed club's players, in squad order.
pub fn pending_offers(game: &Game) -> (out: Vec<OfferView>)
    ensures
        out.deep_view() == spec_pending_offers(*game),
{
    let team_id = user_team_id(game);
    let mut out: Vec<OfferView> = Vec::new();
    let mut i: usize = 0;
    while i < game.players.len()
        invariant
            i <= game.players.len(),
            team_id@ == user_team_key(*game),
            out.deep_view() == spec_pending(game.players@.take(i as int), game.teams@, team_id@),
        decreases game.players.len() - i,
    {
        let player = &game.players[i];
        assert(game.players@.take(i + 1).drop_last() =~= game.players@.take(i as int));
        if is_on_team(player, &team_id) {
            let ghost base = out.deep_view();
            let mut k: usize = 0;
            while k < player.transfer_offers.len()
                invariant
                    k <= player.transfer_offers.len(),
                    out.deep_view() =~= base + spec_player_offers(*player, game.teams@, k as int),
                decreases player.transfer_offers.len() - k,
            {
                let offer = &player.transfer_offers[k];
                if offer.pending {
                    let ghost before = out;
                    out.push(
                        OfferView {
                            offer_id: offer.id.clone(),
                            player_id: player.id.clone(),
                            player_name: player.match_name.clone(),
                            from_team: team_name(&game.teams, &offer.from_team_id),
                            fee: offer.fee,
                            round: offer.negotiation_round,
                            suggested_counter: offer.suggested_counter_fee,
                        },
                    );
                    proof { lemma_push_deep(before, out@.last(), out); }
                }
                k = k + 1;
            }
        }
        i = i + 1;
    }
    assert(game.players@.take(game.players.len() as int) =~= game.players@);
    out
}


/// Offers whose id is not in `seen`, in order.
pub open spec fn spec_unseen(offers: Seq<OfferModel>, seen: Set<Seq<char>>) -> Seq<OfferModel>
    decreases offers.len(),
{
    if offers.len() == 0 {
        Seq::empty()
    } else {
        let rest = spec_unseen(offers.drop_last(), seen);
        if seen.contains(offers.last().offer_id) {
            rest
        } else {
            rest.push(offers.last())
        }
    }
}

/// A transfer-window "market day": every third day while the window is open.
pub open spec fn spec_market_day(window_open: bool, advanced_days: u64) -> bool {
    window_open && advanced_days % 3 == 0
}

/// The ids held in `v`, as a set.
pub open spec fn id_set(v: Seq<String>) -> Set<Seq<char>> {
    Set::new(|id: Seq<char>| exists|i: int| 0 <= i < v.len() && (#[trigger] v[i])@ == id)
}

/// The environment stops on `game` after `advanced` of `horizon` days, when
/// the offers in `seen` have been shown: at the horizon, on a user matchday,
/// on a fresh pending offer, or on a market day.
pub open spec fn decision_point(game: Game, advanced: u64, horizon: u64, seen: Set<Seq<char>>) -> bool {
    ||| advanced >= horizon
    ||| game.user_match_today
    ||| spec_unseen(spec_pending_offers(game), seen).len() > 0
    ||| spec_market_day(game.transfer_window_open, advanced)
}

/// `days` are the states `next_day` produced one after another from `start`.
pub open spec fn day_chain<F: Fn(&Game) -> Game>(next_day: F, start: Game, days: Seq<Game>) -> bool {
    &&& days.len() > 0 ==> call_ensures(next_day, (&start,), days[0])
    &&& forall|k: int|
        #![trigger days[k]]
        1 <= k < days.len() ==> call_ensures(next_day, (&days[k - 1],), days[k])
}

/// The decision-cadence episode.
pub struct Episode {
    pub game: Game,
    pub step: u64,
    pub horizon_days: u64,
    pub advanced_days: u64,
    /// Offer ids already shown to the agent: only never-seen offers are
    /// decision points, so `Continue` does not stop on the same offers again.
    pub seen_offers: Vec<String>,
}

impl Episode {
    /// The episode length in days.
    pub open spec fn horizon(&self) -> u64 {
        self.horizon_days
    }

    /// Days advanced so far.
    pub open spec fn advanced(&self) -> u64 {
        self.advanced_days
    }

    /// Offer ids shown to the agent so far.
    pub open spec fn seen(&self) -> Set<Seq<char>> {
        id_set(self.seen_offers@)
    }

    /// Pending offers never shown to the agent.
    pub open spec fn spec_fresh_offers(&self) -> Seq<OfferModel> {
        spec_unseen(spec_pending_offers(self.game), self.seen())
    }

    /// The episode has reached its horizon.
    pub open spec fn spec_done(&self) -> bool {
        self.advanced() >= self.horizon()
    }

    /// The environment stops here for the agent: the horizon, a user
    /// matchday, a fresh offer, or a market day.
    pub open spec fn at_decision_point(&self) -> bool {
        decision_point(self.game, self.advanced(), self.horizon(), self.seen())
    }

    /// Start an episode on `game` (its world and trajectory fixed by the
    /// seed it was built from) that lasts `horizon_days`.
    pub fn new(game: Game, horizon_days: u64) -> (e: Episode)
        ensures
            e.game == game,
            e.step == 0,
            e.horizon() == horizon_days,
            e.advanced() == 0,
            e.seen() == Set::<Seq<char>>::empty(),
    {
        let e = Episode { game, step: 0, horizon_days, advanced_days: 0, seen_offers: Vec::new() };
        assert(e.seen() =~= Set::<Seq<char>>::empty());
        e
    }

    /// The number of steps taken.
    pub fn step_count(&self) -> (n: u64)
        ensures
            n == self.step,
    {
        self.step
    }

    /// Days advanced so far.
    pub fn advanced_days(&self) -> (n: u64)
        ensures
            n == self.advanced(),
    {
        self.advanced_days
    }

    /// Is `id` among the offers already shown?
    fn is_seen(&self, id: &String) -> (b: bool)
        ensures
            b == self.seen().contains(id@),
    {
        let mut i: usize = 0;
        while i < self.seen_offers.len()
            invariant
                i <= self.seen_offers.len(),
                forall|j: int| 0 <= j < i ==> (#[trigger] self.seen_offers@[j])@ != id@,
            decreases self.seen_offers.len() - i,
        {
            if self.seen_offers[i] == *id {
                assert(self.seen_offers@[i as int]@ == id@);
                return true;
            }
            i = i + 1;
        }
        false
    }

    /// A transfer-window market day: the agent may scout and bid roughly
    /// every three days while the window is open.
    pub fn market_day(&self) -> (b: bool)
        ensures
            b == spec_market_day(self.game.transfer_window_open, self.advanced()),
    {
        self.game.transfer_window_open && self.advanced_days % 3 == 0
    }

    /// Pending offers the agent has never been shown.
    pub fn fresh_offers(&self) -> (out: Vec<OfferView>)
        ensures
            out.deep_view() == self.spec_fresh_offers(),
    {
        let all = pending_offers(&self.game);
        let mut out: Vec<OfferView> = Vec::new();
        let mut i: usize = 0;
        while i < all.len()
            invariant
                i <= all.len(),
                out.deep_view() == spec_unseen(all.deep_view().take(i as int), self.seen()),
            decreases all.len() - i,
        {
            assert(all.deep_view().take(i + 1).drop_last() =~= all.deep_view().take(i as int));
            if !self.is_seen(&all[i].offer_id) {
                let ghost before = out;
                out.push(all[i].clone_view());
                proof { lemma_push_deep(before, out@.last(), out); }
            }
            i = i + 1;
        }
        assert(all.deep_view().take(all.len() as int) =~= all.deep_view());
        out
    }

    /// Advance until the next decision point: a user matchday, fresh offers,
    /// a market day, or the horizon.  The world always moves forward at
    /// least one day first (which plays any match today).  `next_day` runs
    /// the engine for one day on the given state and returns the new state.
    pub fn advance_to_next_decision<F: Fn(&Game) -> Game>(&mut self, next_day: &F)
        requires
            forall|g: &Game| next_day.requires((g,)),
            old(self).advanced() < u64::MAX,
        ensures
            final(self).advanced() > old(self).advanced(),
            final(self).advanced() <= if old(self).advanced() < old(self).horizon() {
                old(self).horizon()
            } else {
                (old(self).advanced() + 1) as u64
            },
            final(self).at_decision_point(),
            final(self).step == old(self).step,
            final(self).horizon() == old(self).horizon(),
            final(self).seen() == old(self).seen(),
            // It stops at the first decision point along the days played.
            exists|days: Seq<Game>|
                {
                    &&& days.len() == final(self).advanced() - old(self).advanced()
                    &&& day_chain(*next_day, old(self).game, days)
                    &&& days.last() == final(self).game
                    &&& forall|k: int|
                        0 <= k < days.len() - 1 ==> !decision_point(
                            #[trigger] days[k],
                            (old(self).advanced() + k + 1) as u64,
                            old(self).horizon(),
                            old(self).seen(),
                        )
                },
    {
        let ghost start = self.game;
        let g = next_day(&self.game);
        let ghost mut days: Seq<Game> = seq![g];
        let mut stop = self.record_day(g);
        while !stop
            invariant
                forall|g: &Game| next_day.requires((g,)),
                self.advanced() > old(self).advanced(),
                self.advanced() == old(self).advanced() + 1 || self.advanced() <= old(self).horizon(),
                old(self).advanced() >= old(self).horizon() ==> stop,
                !stop ==> self.advanced() < self.horizon(),
                stop == self.at_decision_point(),
                self.step == old(self).step,
                self.horizon() == old(self).horizon(),
                self.seen() == old(self).seen(),
                start == old(self).game,
                days.len() == self.advanced() - old(self).advanced(),
                day_chain(*next_day, start, days),
                days.last() == self.game,
                forall|k: int|
                    0 <= k < days.len() - 1 ==> !decision_point(
                        #[trigger] days[k],
                        (old(self).advanced() + k + 1) as u64,
                        old(self).horizon(),
                        old(self).seen(),
                    ),
            decreases self.horizon() - self.advanced(), if stop { 0int } else { 1int },
        {
            let ghost prev = self.game;
            let g = next_day(&self.game);
            proof {
                let ghost before = days;
                days = days.push(g);
                assert(days[days.len() - 2] == prev);
                assert forall|k: int| 1 <= k < days.len() implies call_ensures(
                    *next_day,
                    (&days[k - 1],),
                    #[trigger] days[k],
                ) by {
                    if k < days.len() - 1 {
                        assert(days[k] == before[k] && days[k - 1] == before[k - 1]);
                    }
                }
                assert forall|k: int| 0 <= k < days.len() - 1 implies !decision_point(
                    #[trigger] days[k],
                    (old(self).advanced() + k + 1) as u64,
                    old(self).horizon(),
                    old(self).seen(),
                ) by {
                    if k < days.len() - 2 {
                        assert(days[k] == before[k]);
                    }
                }
            }
            stop = self.record_day(g);
        }
    }

    /// Record that the engine has processed one more day, producing `game`.
    /// Returns whether this is a decision point (the environment stops).
    pub fn record_day(&mut self, game: Game) -> (stop: bool)
        requires
            old(self).advanced() < u64::MAX,
        ensures
            final(self).game == game,
            final(self).step == old(self).step,
            final(self).horizon() == old(self).horizon(),
            final(self).seen() == old(self).seen(),
            final(self).advanced() == old(self).advanced() + 1,
            stop == final(self).at_decision_point(),
    {
        self.game = game;
        self.advanced_days = self.advanced_days + 1;
        if self.advanced_days >= self.horizon_days {
            return true;
        }
        if self.game.user_match_today {
            return true;
        }
        if self.fresh_offers().len() > 0 {
            return true;
        }
        self.market_day()
    }
}

impl OfferView {
    /// A field-by-field copy.
    pub fn clone_view(&self) -> (c: OfferView)
        ensures
            c.deep_view() == self.deep_view(),
    {
        OfferView {
            offer_id: self.offer_id.clone(),
            player_id: self.player_id.clone(),
            player_name: self.player_name.clone(),
            from_team: self.from_team.clone(),
            fee: self.fee,
            round: self.round,
            suggested_counter: self.suggested_counter,
        }
    }
}


/// A player on the market (outside the squad).  True attributes are not
/// shown: only a scout report reveals a fuzzed rating and a potential band.
#[derive(Clone, Debug)]
pub struct MarketView {
    pub player_id: String,
    pub player_name: String,
    /// The player's own position, by name.
    pub position: String,
    pub age: u8,
    pub market_value: u64,
    pub team: String,
    /// Fuzzed overall rating if a scout report exists.
    pub reported_ovr: Option<u8>,
    /// Coarse potential band if scouted.
    pub potential: Option<String>,
    /// A scout is currently watching this player.
    pub scouting: bool,
}

/// A [`MarketView`] with its text as character sequences.
pub struct MarketModel {
    pub player_id: Seq<char>,
    pub player_name: Seq<char>,
    pub position: Seq<char>,
    pub age: u8,
    pub market_value: u64,
    pub team: Seq<char>,
    pub reported_ovr: Option<u8>,
    pub potential: Option<Seq<char>>,
    pub scouting: bool,
}

impl DeepView for MarketView {
    type V = MarketModel;

    open spec fn deep_view(&self) -> MarketModel {
        MarketModel {
            player_id: self.player_id@,
            player_name: self.player_name@,
            position: self.position@,
            age: self.age,
            market_value: self.market_value,
            team: self.team@,
            reported_ovr: self.reported_ovr,
            potential: match self.potential {
                Some(p) => Some(p@),
                None => None,
            },
            scouting: self.scouting,
        }
    }
}

/// Index of the last element of `s` that satisfies `p`.
pub open spec fn last_index<T>(s: Seq<T>, p: spec_fn(T) -> bool) -> Option<int>
    decreases s.len(),
{
    if s.len() == 0 {
        None
    } else if p(s.last()) {
        Some(s.len() - 1)
    } else {
        last_index(s.drop_last(), p)
    }
}

proof fn lemma_last_index_bound<T>(s: Seq<T>, p: spec_fn(T) -> bool)
    ensures
        last_index(s, p) matches Some(i) ==> 0 <= i < s.len() && p(s[i]),
    decreases s.len(),
{
    if s.len() > 0 {
        lemma_last_index_bound(s.drop_last(), p);
    }
}

/// A scout report about player `id`.
pub open spec fn report_on(id: Seq<char>) -> spec_fn(ScoutReport) -> bool {
    |r: ScoutReport| r.player_id@ == id
}

/// How player `p` is shown on the market, given the scout reports (the last
/// report on a player counts), the scouting assignments and the clubs.
pub open spec fn spec_market_entry(p: Player, g: Game) -> MarketModel {
    let report = last_index(g.scout_reports@, report_on(p.id@));
    MarketModel {
        player_id: p.id@,
        player_name: p.match_name@,
        position: p.position_name@,
        age: crate::env::spec_age(p.date_of_birth@, g.today@),
        market_value: p.market_value,
        team: match p.team_id {
            Some(t) => spec_team_name(g.teams@, t@),
            None => Seq::empty(),
        },
        reported_ovr: match report {
            Some(i) => match g.scout_reports@[i].avg_rating {
                Some(v) => Some(v as u8),
                None => None,
            },
            None => None,
        },
        potential: match report {
            Some(i) => Some(g.scout_reports@[i].potential_key@),
            None => None,
        },
        scouting: exists|j: int|
            0 <= j < g.scouting_assignments@.len() && (
            #[trigger] g.scouting_assignments@[j]).player_id@ == p.id@,
    }
}

/// A market target: an uninjured player outside club `own`.
pub open spec fn market_target(own: Seq<char>) -> spec_fn(Player) -> bool {
    |p: Player| !plays_for(own)(p) && !p.injured
}

/// The market targets among `ps`, in world order.
pub open spec fn spec_market_candidates(ps: Seq<Player>, g: Game, own: Seq<char>) -> Seq<MarketModel>
    decreases ps.len(),
{
    if ps.len() == 0 {
        Seq::empty()
    } else {
        let rest = spec_market_candidates(ps.drop_last(), g, own);
        if market_target(own)(ps.last()) {
            rest.push(spec_market_entry(ps.last(), g))
        } else {
            rest
        }
    }
}

/// A market entry worth less than `v`.
pub open spec fn worth_less_than(v: u64) -> spec_fn(MarketModel) -> bool {
    |m: MarketModel| m.market_value < v
}

/// Where `x` goes into a list sorted by market value, descending, after
/// every entry worth at least as much.
pub open spec fn insert_position(sorted: Seq<MarketModel>, v: u64) -> int {
    match first_index(sorted, worth_less_than(v)) {
        Some(i) => i,
        None => sorted.len() as int,
    }
}

/// `s` sorted by market value, most valuable first; equal values keep their
/// order (a stable sort).
pub open spec fn by_value_desc(s: Seq<MarketModel>) -> Seq<MarketModel>
    decreases s.len(),
{
    if s.len() == 0 {
        s
    } else {
        let sorted = by_value_desc(s.drop_last());
        sorted.insert(insert_position(sorted, s.last().market_value), s.last())
    }
}

/// The market shortlist length.
pub const MARKET_SHORTLIST: usize = 30;

/// The market shortlist: the most valuable targets outside the squad.
pub open spec fn spec_market(g: Game, own: Seq<char>) -> Seq<MarketModel> {
    let sorted = by_value_desc(spec_market_candidates(g.players@, g, own));
    if sorted.len() <= MARKET_SHORTLIST {
        sorted
    } else {
        sorted.take(MARKET_SHORTLIST as int)
    }
}

/// [`by_value_desc`] keeps every element, each as often as it occurs, and
/// orders them by value, non-increasing.
pub proof fn lemma_by_value_desc_sorted(s: Seq<MarketModel>)
    ensures
        by_value_desc(s).len() == s.len(),
        forall|i: int, j: int|
            0 <= i < j < s.len() ==> by_value_desc(s)[i].market_value
                >= by_value_desc(s)[j].market_value,
        by_value_desc(s).to_multiset() == s.to_multiset(),
    decreases s.len(),
{
    if s.len() > 0 {
        let sorted = by_value_desc(s.drop_last());
        lemma_by_value_desc_sorted(s.drop_last());
        let v = s.last().market_value;
        let pred = worth_less_than(v);
        lemma_first_index(sorted, pred);
        let pos = insert_position(sorted, v);
        let r = sorted.insert(pos, s.last());
        vstd::seq_lib::to_multiset_insert(sorted, pos, s.last());
        vstd::seq_lib::to_multiset_build(s.drop_last(), s.last());
        assert(s.drop_last().push(s.last()) =~= s);
        assert forall|i: int, j: int| 0 <= i < j < r.len() implies r[i].market_value
            >= r[j].market_value by {
            if j < pos {
            } else if j == pos {
                assert(!pred(sorted[i]));
            } else if i < pos {
                assert(r[j] == sorted[j - 1]);
            } else if i == pos {
                assert(pred(sorted[pos]));
                assert(r[j] == sorted[j - 1]);
            } else {
                assert(r[i] == sorted[i - 1]);
                assert(r[j] == sorted[j - 1]);
            }
        }
    }
}

/// The market shortlist holds at most thirty players, most valuable first.
pub proof fn lemma_market_shortlist(g: Game, own: Seq<char>)
    ensures
        spec_market(g, own).len() <= MARKET_SHORTLIST,
        forall|i: int, j: int|
            0 <= i < j < spec_market(g, own).len() ==> spec_market(g, own)[i].market_value
                >= spec_market(g, own)[j].market_value,
{
    lemma_by_value_desc_sorted(spec_market_candidates(g.players@, g, own));
}

/// Every market candidate among `ps` is the entry of one of them that is
/// uninjured and not on club `own`.
proof fn lemma_candidates_are_targets(ps: Seq<Player>, g: Game, own: Seq<char>)
    ensures
        forall|k: int|
            0 <= k < spec_market_candidates(ps, g, own).len() ==> exists|j: int|
                #![trigger ps[j]]
                0 <= j < ps.len() && !ps[j].injured && !(ps[j].team_id is Some
                    && ps[j].team_id->0@ == own) && #[trigger] spec_market_candidates(ps, g, own)[k]
                    == spec_market_entry(ps[j], g),
    decreases ps.len(),
{
    if ps.len() > 0 {
        let init = ps.drop_last();
        lemma_candidates_are_targets(init, g, own);
        let c = spec_market_candidates(ps, g, own);
        let r = spec_market_candidates(init, g, own);
        assert forall|k: int| 0 <= k < c.len() implies exists|j: int|
            #![trigger ps[j]]
            0 <= j < ps.len() && !ps[j].injured && !(ps[j].team_id is Some && ps[j].team_id->0@
                == own) && #[trigger] c[k] == spec_market_entry(ps[j], g) by {
            if k < r.len() {
                assert(c[k] == r[k]);
                let j = choose|j: int|
                    #![trigger init[j]]
                    0 <= j < init.len() && !init[j].injured && !(init[j].team_id is Some
                        && init[j].team_id->0@ == own) && r[k] == spec_market_entry(init[j], g);
                assert(ps[j] == init[j]);
            } else {
                let j = ps.len() - 1;
                assert(ps[j] == ps.last());
            }
        }
    }
}

/// The market shortlist only holds targets: each entry is a player of the
/// world who is uninjured and not on the managed club `own`, shown with
/// that player's id and market value.
pub proof fn lemma_market_targets_only(g: Game, own: Seq<char>)
    ensures
        forall|i: int|
            0 <= i < spec_market(g, own).len() ==> exists|j: int|
                #![trigger g.players@[j]]
                0 <= j < g.players@.len() && !g.players@[j].injured && !(
                g.players@[j].team_id is Some && g.players@[j].team_id->0@ == own)
                    && #[trigger] spec_market(g, own)[i].player_id == g.players@[j].id@
                    && spec_market(g, own)[i].market_value == g.players@[j].market_value,
{
    broadcast use vstd::seq_lib::group_to_multiset_ensures;

    let c = spec_market_candidates(g.players@, g, own);
    let sorted = by_value_desc(c);
    lemma_by_value_desc_sorted(c);
    lemma_candidates_are_targets(g.players@, g, own);
    let m = spec_market(g, own);
    assert forall|i: int| 0 <= i < m.len() implies exists|j: int|
        #![trigger g.players@[j]]
        0 <= j < g.players@.len() && !g.players@[j].injured && !(g.players@[j].team_id is Some
            && g.players@[j].team_id->0@ == own) && #[trigger] m[i].player_id == g.players@[j].id@
            && m[i].market_value == g.players@[j].market_value by {
        assert(m[i] == sorted[i]);
        assert(sorted.contains(sorted[i]));
        assert(sorted.to_multiset().count(sorted[i]) > 0);
        assert(c.to_multiset().count(sorted[i]) > 0);
        assert(c.contains(sorted[i]));
        let k = choose|k: int| 0 <= k < c.len() && c[k] == sorted[i];
        let j = choose|j: int|
            #![trigger g.players@[j]]
            0 <= j < g.players@.len() && !g.players@[j].injured && !(g.players@[j].team_id is Some
                && g.players@[j].team_id->0@ == own) && c[k] == spec_market_entry(g.players@[j], g);
        assert(m[i].player_id == g.players@[j].id@);
    }
}

/// The last scout report on player `id`, if any.
fn last_report(reports: &Vec<ScoutReport>, id: &String) -> (r: Option<usize>)
    ensures
        r matches Some(i) ==> last_index(reports@, report_on(id@)) == Some(i as int) && i
            < reports@.len(),
        r is None ==> last_index(reports@, report_on(id@)) is None,
{
    let mut i: usize = reports.len();
    assert(reports@.take(i as int) =~= reports@);
    while i > 0
        invariant
            i <= reports.len(),
            last_index(reports@, report_on(id@)) == last_index(reports@.take(i as int), report_on(id@)),
        decreases i,
    {
        assert(reports@.take(i as int).drop_last() =~= reports@.take(i - 1));
        if reports[i - 1].player_id == *id {
            return Some(i - 1);
        }
        i = i - 1;
    }
    None
}

/// Is a scout currently watching player `id`?
fn is_being_scouted(assignments: &Vec<ScoutingAssignment>, id: &String) -> (b: bool)
    ensures
        b == exists|j: int|
            0 <= j < assignments@.len() && (#[trigger] assignments@[j]).player_id@ == id@,
{
    let mut i: usize = 0;
    while i < assignments.len()
        invariant
            i <= assignments.len(),
            forall|j: int| 0 <= j < i ==> (#[trigger] assignments@[j]).player_id@ != id@,
        decreases assignments.len() - i,
    {
        if assignments[i].player_id == *id {
            return true;
        }
        i = i + 1;
    }
    false
}

/// Where an entry worth `v` goes into `sorted`.
fn insert_pos(sorted: &Vec<MarketView>, v: u64) -> (pos: usize)
    ensures
        pos == insert_position(sorted.deep_view(), v),
        pos <= sorted@.len(),
{
    let ghost d = sorted.deep_view();
    let mut pos: usize = 0;
    while pos < sorted.len()
        invariant
            pos <= sorted.len(),
            d == sorted.deep_view(),
            first_index(d.take(pos as int), worth_less_than(v)) is None,
        decreases sorted.len() - pos,
    {
        assert(d.take(pos + 1).drop_last() =~= d.take(pos as int));
        if sorted[pos].market_value < v {
            assert(first_index(d.take(pos + 1), worth_less_than(v)) == Some(pos as int));
            proof { crate::model::lemma_first_index_prefix(d, worth_less_than(v), pos as int + 1); }
            return pos;
        }
        pos = pos + 1;
    }
    assert(d.take(pos as int) =~= d);
    pos
}

/// How player `p` is shown on the market.
fn market_entry(p: &Player, game: &Game) -> (m: MarketView)
    ensures
        m.deep_view() == spec_market_entry(*p, *game),
{
    let report = last_report(&game.scout_reports, &p.id);
    let team = match &p.team_id {
        Some(t) => team_name(&game.teams, t),
        None => String::new(),
    };
    let (reported_ovr, potential) = match report {
        Some(i) => {
            let r = &game.scout_reports[i];
            let ovr: Option<u8> = match r.avg_rating {
                Some(v) => Some(#[verifier::truncate] (v as u8)),
                None => None,
            };
            (ovr, Some(r.potential_key.clone()))
        },
        None => (None, None),
    };
    MarketView {
        player_id: p.id.clone(),
        player_name: p.match_name.clone(),
        position: p.position_name.clone(),
        age: crate::env::age_from_dob(p.date_of_birth.as_str(), game.today.as_str()),
        market_value: p.market_value,
        team,
        reported_ovr,
        potential,
        scouting: is_being_scouted(&game.scouting_assignments, &p.id),
    }
}

/// The market shortlist for club `own_team_id`: uninjured players outside
/// the squad, most valuable first (stable), at most thirty.
pub fn market_view(game: &Game, own_team_id: &String) -> (out: Vec<MarketView>)
    ensures
        out.deep_view() == spec_market(*game, own_team_id@),
{
    let mut sorted: Vec<MarketView> = Vec::new();
    let ghost own = own_team_id@;
    let mut i: usize = 0;
    while i < game.players.len()
        invariant
            i <= game.players.len(),
            own == own_team_id@,
            sorted.deep_view() == by_value_desc(
                spec_market_candidates(game.players@.take(i as int), *game, own),
            ),
        decreases game.players.len() - i,
    {
        let p = &game.players[i];
        assert(game.players@.take(i + 1).drop_last() =~= game.players@.take(i as int));
        if !is_on_team(p, own_team_id) && !p.injured {
            let entry = market_entry(p, game);
            let ghost before = sorted.deep_view();
            let v = entry.market_value;
            let pos = insert_pos(&sorted, v);
            assert(pos == insert_position(before, v));
            let ghost ev = entry.deep_view();
            sorted.insert(pos, entry);
            assert(sorted.deep_view() =~= before.insert(pos as int, ev));
            proof {
                let c = spec_market_candidates(game.players@.take(i as int), *game, own);
                assert(spec_market_candidates(game.players@.take(i + 1), *game, own) == c.push(ev));
                assert(c.push(ev).drop_last() =~= c);
                assert(c.push(ev).last() == ev);
            }
        }
        i = i + 1;
    }
    assert(game.players@.take(game.players.len() as int) =~= game.players@);
    if sorted.len() > MARKET_SHORTLIST {
        let ghost full = sorted.deep_view();
        sorted.truncate(MARKET_SHORTLIST);
        assert(sorted.deep_view() =~= full.take(MARKET_SHORTLIST as int));
    }
    sorted
}


/// A completed scout report.
#[derive(Clone, Debug)]
pub struct ScoutReportView {
    pub player_id: String,
    pub player_name: String,
    pub team: String,
    /// Fuzzed overall rating (1-99).
    pub avg_rating: Option<u32>,
    pub rating_desc: String,
    pub potential: String,
    pub confidence: String,
}

/// A [`ScoutReportView`] with its text as character sequences.
pub struct ScoutReportModel {
    pub player_id: Seq<char>,
    pub player_name: Seq<char>,
    pub team: Seq<char>,
    pub avg_rating: Option<u32>,
    pub rating_desc: Seq<char>,
    pub potential: Seq<char>,
    pub confidence: Seq<char>,
}

impl DeepView for ScoutReportView {
    type V = ScoutReportModel;

    open spec fn deep_view(&self) -> ScoutReportModel {
        ScoutReportModel {
            player_id: self.player_id@,
            player_name: self.player_name@,
            team: self.team@,
            avg_rating: self.avg_rating,
            rating_desc: self.rating_desc@,
            potential: self.potential@,
            confidence: self.confidence@,
        }
    }
}

/// A scouting assignment in progress.
#[derive(Clone, Debug)]
pub struct ScoutingView {
    pub player_id: String,
    pub player_name: String,
    pub days_remaining: u32,
}

/// A [`ScoutingView`] with its text as character sequences.
pub struct ScoutingModel {
    pub player_id: Seq<char>,
    pub player_name: Seq<char>,
    pub days_remaining: u32,
}

impl DeepView for ScoutingView {
    type V = ScoutingModel;

    open spec fn deep_view(&self) -> ScoutingModel {
        ScoutingModel {
            player_id: self.player_id@,
            player_name: self.player_name@,
            days_remaining: self.days_remaining,
        }
    }
}

/// A player whose id is `id`.
pub open spec fn player_with_id(id: Seq<char>) -> spec_fn(Player) -> bool {
    |p: Player| p.id@ == id
}

/// Finds the first player whose id is `id`.
fn find_player(players: &Vec<Player>, id: &String) -> (r: Option<usize>)
    ensures
        r matches Some(i) ==> first_index(players@, player_with_id(id@)) == Some(i as int) && i
            < players@.len(),
        r is None ==> first_index(players@, player_with_id(id@)) is None,
{
    let mut i: usize = 0;
    while i < players.len()
        invariant
            i <= players.len(),
            first_index(players@.take(i as int), player_with_id(id@)) is None,
        decreases players.len() - i,
    {
        assert(players@.take(i + 1).drop_last() =~= players@.take(i as int));
        if players[i].id == *id {
            assert(first_index(players@.take(i + 1), player_with_id(id@)) == Some(i as int));
            proof {
                crate::model::lemma_first_index_prefix(players@, player_with_id(id@), i as int + 1);
            }
            return Some(i);
        }
        i = i + 1;
    }
    assert(players@.take(players.len() as int) =~= players@);
    None
}

/// The club shown on a scout report: the one it names, else the current
/// club of the first player with the report's player id, else "".
pub open spec fn spec_report_team(r: ScoutReport, g: Game) -> Seq<char> {
    match r.team_name {
        Some(n) => n@,
        None => match first_index(g.players@, player_with_id(r.player_id@)) {
            Some(i) => match g.players@[i].team_id {
                Some(t) => spec_team_name(g.teams@, t@),
                None => Seq::empty(),
            },
            None => Seq::empty(),
        },
    }
}

/// How scout report `r` is shown.
pub open spec fn spec_report_view(r: ScoutReport, g: Game) -> ScoutReportModel {
    ScoutReportModel {
        player_id: r.player_id@,
        player_name: r.player_name@,
        team: spec_report_team(r, g),
        avg_rating: r.avg_rating,
        rating_desc: r.rating_key@,
        potential: r.potential_key@,
        confidence: r.confidence_key@,
    }
}

/// The name of the first player whose id is `id`, or "".
pub open spec fn spec_player_name(ps: Seq<Player>, id: Seq<char>) -> Seq<char> {
    match first_index(ps, player_with_id(id)) {
        Some(i) => ps[i].match_name@,
        None => Seq::empty(),
    }
}

/// How scouting assignment `a` is shown.
pub open spec fn spec_scouting_view(a: ScoutingAssignment, g: Game) -> ScoutingModel {
    ScoutingModel {
        player_id: a.player_id@,
        player_name: spec_player_name(g.players@, a.player_id@),
        days_remaining: a.days_remaining,
    }
}

/// Completed scout reports, in inbox order.
pub fn scout_report_views(game: &Game) -> (out: Vec<ScoutReportView>)
    ensures
        out.deep_view().len() == game.scout_reports@.len(),
        forall|i: int|
            0 <= i < game.scout_reports@.len() ==> out.deep_view()[i] == spec_report_view(
                #[trigger] game.scout_reports@[i],
                *game,
            ),
{
    let mut out: Vec<ScoutReportView> = Vec::new();
    let mut i: usize = 0;
    while i < game.scout_reports.len()
        invariant
            i <= game.scout_reports.len(),
            out.deep_view().len() == i,
            forall|j: int|
                0 <= j < i ==> out.deep_view()[j] == spec_report_view(
                    #[trigger] game.scout_reports@[j],
                    *game,
                ),
        decreases game.scout_reports.len() - i,
    {
        let r = &game.scout_reports[i];
        let team = match &r.team_name {
            Some(n) => n.clone(),
            None => match find_player(&game.players, &r.player_id) {
                Some(k) => match &game.players[k].team_id {
                    Some(t) => team_name(&game.teams, t),
                    None => String::new(),
                },
                None => String::new(),
            },
        };
        let ghost before = out;
        out.push(
            ScoutReportView {
                player_id: r.player_id.clone(),
                player_name: r.player_name.clone(),
                team,
                avg_rating: r.avg_rating,
                rating_desc: r.rating_key.clone(),
                potential: r.potential_key.clone(),
                confidence: r.confidence_key.clone(),
            },
        );
        proof { lemma_push_deep(before, out@.last(), out); }
        i = i + 1;
    }
    out
}

/// Scouting assignments in progress, in order.
pub fn scouting_views(game: &Game) -> (out: Vec<ScoutingView>)
    ensures
        out.deep_view().len() == game.scouting_assignments@.len(),
        forall|i: int|
            0 <= i < game.scouting_assignments@.len() ==> out.deep_view()[i]
                == spec_scouting_view(#[trigger] game.scouting_assignments@[i], *game),
{
    let mut out: Vec<ScoutingView> = Vec::new();
    let mut i: usize = 0;
    while i < game.scouting_assignments.len()
        invariant
            i <= game.scouting_assignments.len(),
            out.deep_view().len() == i,
            forall|j: int|
                0 <= j < i ==> out.deep_view()[j] == spec_scouting_view(
                    #[trigger] game.scouting_assignments@[j],
                    *game,
                ),
        decreases game.scouting_assignments.len() - i,
    {
        let a = &game.scouting_assignments[i];
        let name = match find_player(&game.players, &a.player_id) {
            Some(k) => game.players[k].match_name.clone(),
            None => String::new(),
        };
        let ghost before = out;
        out.push(
            ScoutingView {
                player_id: a.player_id.clone(),
                player_name: name,
                days_remaining: a.days_remaining,
            },
        );
        proof { lemma_push_deep(before, out@.last(), out); }
        i = i + 1;
    }
    out
}

/// A scout employed by club `team`.
pub open spec fn scout_of(team: Seq<char>) -> spec_fn(Staff) -> bool {
    |s: Staff| s.team_id is Some && s.team_id->0@ == team && s.is_scout
}

/// The managed club's first scout, if any.
pub open spec fn spec_user_scout(g: Game) -> Option<Seq<char>> {
    match g.manager_team_id {
        Some(t) => match first_index(g.staff@, scout_of(t@)) {
            Some(i) => Some(g.staff@[i].id@),
            None => None,
        },
        None => None,
    }
}

/// The user's first scout (needed to send one).
pub fn user_scout_id(game: &Game) -> (r: Option<String>)
    ensures
        match r {
            Some(id) => spec_user_scout(*game) == Some(id@),
            None => spec_user_scout(*game) is None,
        },
{
    let team = match &game.manager_team_id {
        Some(t) => t,
        None => return None,
    };
    let mut i: usize = 0;
    while i < game.staff.len()
        invariant
            i <= game.staff.len(),
            game.manager_team_id is Some && game.manager_team_id->0 == *team,
            first_index(game.staff@.take(i as int), scout_of(team@)) is None,
        decreases game.staff.len() - i,
    {
        assert(game.staff@.take(i + 1).drop_last() =~= game.staff@.take(i as int));
        let s = &game.staff[i];
        let on_team = match &s.team_id {
            Some(t) => *t == *team,
            None => false,
        };
        if on_team && s.is_scout {
            assert(first_index(game.staff@.take(i + 1), scout_of(team@)) == Some(i as int));
            proof {
                crate::model::lemma_first_index_prefix(game.staff@, scout_of(team@), i as int + 1);
            }
            return Some(s.id.clone());
        }
        i = i + 1;
    }
    assert(game.staff@.take(game.staff.len() as int) =~= game.staff@);
    None
}


/// The ids of `offers`.
pub open spec fn offer_ids(offers: Seq<OfferModel>) -> Set<Seq<char>> {
    Set::new(|id: Seq<char>| exists|i: int| 0 <= i < offers.len() && (#[trigger] offers[i]).offer_id == id)
}

proof fn lemma_id_set_push(v: Seq<String>, x: String)
    ensures
        id_set(v.push(x)) =~= id_set(v).insert(x@),
{
    assert forall|id: Seq<char>| id_set(v.push(x)).contains(id) implies id_set(v).insert(x@).contains(id) by {
        let i = choose|i: int| 0 <= i < v.push(x).len() && (#[trigger] v.push(x)[i])@ == id;
        if i < v.len() {
            assert(v[i] == v.push(x)[i]);
        }
    }
    assert forall|id: Seq<char>| id_set(v).insert(x@).contains(id) implies id_set(v.push(x)).contains(id) by {
        if id == x@ {
            assert(v.push(x)[v.len() as int] == x);
        } else {
            let i = choose|i: int| 0 <= i < v.len() && (#[trigger] v[i])@ == id;
            assert(v.push(x)[i] == v[i]);
        }
    }
}

proof fn lemma_offer_ids_take(d: Seq<OfferModel>, k: int)
    requires
        0 <= k < d.len(),
    ensures
        offer_ids(d.take(k + 1)) =~= offer_ids(d.take(k)).insert(d[k].offer_id),
{
    assert forall|id: Seq<char>| offer_ids(d.take(k + 1)).contains(id) implies offer_ids(d.take(k)).insert(d[k].offer_id).contains(id) by {
        let i = choose|i: int| 0 <= i < d.take(k + 1).len() && (#[trigger] d.take(k + 1)[i]).offer_id == id;
        if i < k {
            assert(d.take(k)[i] == d.take(k + 1)[i]);
        }
    }
    assert forall|id: Seq<char>| offer_ids(d.take(k)).insert(d[k].offer_id).contains(id) implies offer_ids(d.take(k + 1)).contains(id) by {
        if id == d[k].offer_id {
            assert(d.take(k + 1)[k] == d[k]);
        } else {
            let i = choose|i: int| 0 <= i < d.take(k).len() && (#[trigger] d.take(k)[i]).offer_id == id;
            assert(d.take(k + 1)[i] == d.take(k)[i]);
        }
    }
}

/// Once every offer's id has been seen, no offer is fresh.
pub proof fn lemma_unseen_empty(offers: Seq<OfferModel>, seen: Set<Seq<char>>)
    requires
        offer_ids(offers).subset_of(seen),
    ensures
        spec_unseen(offers, seen).len() == 0,
    decreases offers.len(),
{
    if offers.len() > 0 {
        let init = offers.drop_last();
        assert(offer_ids(init).subset_of(seen)) by {
            assert forall|id: Seq<char>| offer_ids(init).contains(id) implies seen.contains(id) by {
                let i = choose|i: int| 0 <= i < init.len() && (#[trigger] init[i]).offer_id == id;
                assert(offers[i] == init[i]);
                assert(offer_ids(offers).contains(id));
            }
        }
        lemma_unseen_empty(init, seen);
        assert(offer_ids(offers).contains(offers.last().offer_id)) by {
            assert(offers[offers.len() - 1] == offers.last());
        }
    }
}

/// The decision-point observation.
#[derive(Clone, Debug)]
pub struct EpisodeObservation {
    pub step: u64,
    pub date: String,
    pub team_name: String,
    pub formation: String,
    pub league_position: usize,
    pub points: u32,
    pub budget: i64,
    pub is_matchday: bool,
    pub next_fixture: Option<String>,
    pub squad: Vec<PlayerView>,
    pub offers: Vec<OfferView>,
    pub market: Vec<MarketView>,
    pub scout_reports: Vec<ScoutReportView>,
    pub scouting_in_progress: Vec<ScoutingView>,
    pub transfer_window_open: bool,
    pub done: bool,
}

/// Of `comps`, the first competition with a scheduled fixture of club
/// `team`, and that fixture (its first such).
pub open spec fn spec_next_fixture(comps: Seq<League>, team: Seq<char>) -> Option<Fixture>
    decreases comps.len(),
{
    if comps.len() == 0 {
        None
    } else {
        match spec_next_fixture(comps.drop_last(), team) {
            Some(f) => Some(f),
            None => match first_index(comps.last().fixtures@, upcoming_for(team)) {
                Some(i) => Some(comps.last().fixtures@[i]),
                None => None,
            },
        }
    }
}

/// The next scheduled fixture of club `team` in any competition, shown from
/// its side.
pub fn next_fixture_label(comps: &Vec<League>, teams: &Vec<Team>, team: &String) -> (r: Option<String>)
    ensures
        match spec_next_fixture(comps@, team@) {
            Some(f) => r is Some && r->0@ == spec_fixture_label(f, teams@, team@),
            None => r is None,
        },
{
    let mut i: usize = 0;
    while i < comps.len()
        invariant
            i <= comps.len(),
            spec_next_fixture(comps@.take(i as int), team@) is None,
        decreases comps.len() - i,
    {
        assert(comps@.take(i + 1).drop_last() =~= comps@.take(i as int));
        let fixtures = &comps[i].fixtures;
        if let Some(k) = find_upcoming(fixtures, team) {
            proof { lemma_next_fixture_prefix(comps@, team@, i as int + 1); }
            return Some(fixture_label(&fixtures[k], teams, team));
        }
        i = i + 1;
    }
    assert(comps@.take(comps.len() as int) =~= comps@);
    None
}

proof fn lemma_next_fixture_prefix(comps: Seq<League>, team: Seq<char>, n: int)
    requires
        0 <= n <= comps.len(),
        spec_next_fixture(comps.take(n), team) is Some,
    ensures
        spec_next_fixture(comps, team) == spec_next_fixture(comps.take(n), team),
    decreases comps.len() - n,
{
    if n < comps.len() {
        assert(comps.take(n + 1).drop_last() =~= comps.take(n));
        lemma_next_fixture_prefix(comps, team, n + 1);
    } else {
        assert(comps.take(n) =~= comps);
    }
}

impl Episode {
    /// Record every offer in `offers` as shown.
    fn mark_seen(&mut self, offers: &Vec<OfferView>)
        ensures
            final(self).game == old(self).game,
            final(self).step == old(self).step,
            final(self).horizon() == old(self).horizon(),
            final(self).advanced() == old(self).advanced(),
            final(self).seen() == old(self).seen().union(offer_ids(offers.deep_view())),
    {
        let ghost d = offers.deep_view();
        let ghost s0 = self.seen();
        let mut k: usize = 0;
        while k < offers.len()
            invariant
                k <= offers.len(),
                d == offers.deep_view(),
                self.game == old(self).game,
                self.step == old(self).step,
                self.horizon() == old(self).horizon(),
                self.advanced() == old(self).advanced(),
                s0 == old(self).seen(),
                self.seen() =~= s0.union(offer_ids(d.take(k as int))),
            decreases offers.len() - k,
        {
            proof { lemma_offer_ids_take(d, k as int); }
            let id = &offers[k].offer_id;
            assert(id@ == d[k as int].offer_id);
            if !self.is_seen(id) {
                let ghost before = self.seen_offers@;
                self.seen_offers.push(id.clone());
                proof { lemma_id_set_push(before, *id); }
            }
            k = k + 1;
        }
        assert(d.take(offers.len() as int) =~= d);
    }

    /// The observation at the current decision point.  The offers shown are
    /// recorded as seen, so `Continue` does not stop on them again.
    pub fn observe(&mut self) -> (obs: EpisodeObservation)
        ensures
            final(self).game == old(self).game,
            final(self).step == old(self).step,
            final(self).horizon() == old(self).horizon(),
            final(self).advanced() == old(self).advanced(),
            final(self).seen() == old(self).seen().union(
                offer_ids(spec_pending_offers(old(self).game)),
            ),
            final(self).spec_fresh_offers().len() == 0,
            observation_of(obs, old(self).game, old(self).step, old(self).spec_done()),
    {
        let user = user_team_id(&self.game);
        let offers = pending_offers(&self.game);
        self.mark_seen(&offers);
        proof {
            lemma_unseen_empty(spec_pending_offers(self.game), self.seen());
        }
        let game = &self.game;
        let team = find_team(&game.teams, &user);
        let (team_name, formation, budget) = match team {
            Some(i) => (
                game.teams[i].name.clone(),
                game.teams[i].formation.clone(),
                game.teams[i].transfer_budget,
            ),
            None => (String::new(), "4-4-2".to_string(), 0),
        };
        let (league_position, points) = match &game.league {
            Some(l) => league_position_points(&l.standings, &user),
            None => (0, 0),
        };
        EpisodeObservation {
            step: self.step,
            date: game.today.clone(),
            team_name,
            formation,
            league_position,
            points,
            budget,
            is_matchday: game.user_match_today,
            next_fixture: next_fixture_label(&game.competitions, &game.teams, &user),
            squad: squad_view(&game.players, &user, &game.today),
            offers,
            market: market_view(game, &user),
            scout_reports: scout_report_views(game),
            scouting_in_progress: scouting_views(game),
            transfer_window_open: game.transfer_window_open,
            done: self.advanced_days >= self.horizon_days,
        }
    }
}


/// `obs` is what the agent sees of `g` at step `step` (`done` when the
/// horizon is reached).
pub open spec fn observation_of(obs: EpisodeObservation, g: Game, step: u64, done: bool) -> bool {
    let team = first_index(g.teams@, team_is(user_team_key(g)));
    &&& obs.step == step
    &&& obs.date@ == g.today@
    &&& obs.team_name@ == spec_team_name(g.teams@, user_team_key(g))
    &&& obs.formation@ == match team {
        Some(i) => g.teams@[i].formation@,
        None => "4-4-2"@,
    }
    &&& obs.budget == match team {
        Some(i) => g.teams@[i].transfer_budget,
        None => 0,
    }
    &&& match g.league {
        Some(l) => {
            &&& obs.league_position == spec_position_points(l.standings@, user_team_key(g)).0
            &&& obs.points == spec_position_points(l.standings@, user_team_key(g)).1
        },
        None => obs.league_position == 0 && obs.points == 0,
    }
    &&& obs.is_matchday == g.user_match_today
    &&& match spec_next_fixture(g.competitions@, user_team_key(g)) {
        Some(f) => {
            &&& obs.next_fixture is Some
            &&& obs.next_fixture->0@ == spec_fixture_label(f, g.teams@, user_team_key(g))
        },
        None => obs.next_fixture is None,
    }
    &&& obs.squad@ == spec_squad(g.players@, user_team_key(g), g.today@)
    &&& obs.offers.deep_view() == spec_pending_offers(g)
    &&& obs.market.deep_view() == spec_market(g, user_team_key(g))
    &&& obs.scout_reports.deep_view().len() == g.scout_reports@.len()
    &&& forall|i: int|
        0 <= i < g.scout_reports@.len() ==> obs.scout_reports.deep_view()[i] == spec_report_view(
            #[trigger] g.scout_reports@[i],
            g,
        )
    &&& obs.scouting_in_progress.deep_view().len() == g.scouting_assignments@.len()
    &&& forall|i: int|
        0 <= i < g.scouting_assignments@.len() ==> obs.scouting_in_progress.deep_view()[i]
            == spec_scouting_view(#[trigger] g.scouting_assignments@[i], g)
    &&& obs.transfer_window_open == g.transfer_window_open
    &&& obs.done == done
}

/// Work an action hands to the game engine's transfer and scouting
/// operations (their results are not part of the decision).
#[derive(Clone, Debug)]
pub enum MarketRequest {
    /// Accept (`accept`) or reject an incoming offer.
    RespondToOffer { player_id: String, offer_id: String, accept: bool },
    /// Counter an incoming offer with `fee`.
    CounterOffer { player_id: String, offer_id: String, fee: u64 },
    /// Bid `fee` for a player.
    MakeBid { player_id: String, fee: u64 },
    /// Send scout `scout_id` to report on a player.
    SendScout { scout_id: String, player_id: String },
}

/// One of our players with id `id` on club `team`.
pub open spec fn our_player(id: Seq<char>, team: Seq<char>) -> spec_fn(Player) -> bool {
    |p: Player| p.id@ == id && plays_for(team)(p)
}

/// `new` is `old` with player `id` of the managed club transfer-listed (the
/// first such player; nothing changes when there is none or no managed club).
pub open spec fn listed_applied(old: Game, new: Game, id: Seq<char>) -> bool {
    &&& new.players@.len() == old.players@.len()
    &&& new == (Game { players: new.players, ..old })
    &&& match old.manager_team_id {
        Some(t) => match first_index(old.players@, our_player(id, t@)) {
            Some(i) => {
                &&& new.players@[i] == (Player { transfer_listed: true, ..old.players@[i] })
                &&& forall|j: int| 0 <= j < old.players@.len() && j != i ==> new.players@[j] == old.players@[j]
            },
            None => new.players@ == old.players@,
        },
        None => new.players@ == old.players@,
    }
}

/// Transfer-list player `player_id` if it is one of the managed club's.
pub fn list_player(game: &mut Game, player_id: &String)
    ensures
        listed_applied(*old(game), *final(game), player_id@),
{
    let team = match &game.manager_team_id {
        Some(t) => t.clone(),
        None => return,
    };
    let mut i: usize = 0;
    while i < game.players.len()
        invariant
            i <= game.players.len(),
            *game == *old(game),
            game.manager_team_id is Some && game.manager_team_id->0@ == team@,
            first_index(game.players@.take(i as int), our_player(player_id@, team@)) is None,
        decreases game.players.len() - i,
    {
        assert(game.players@.take(i + 1).drop_last() =~= game.players@.take(i as int));
        if game.players[i].id == *player_id && is_on_team(&game.players[i], &team) {
            assert(first_index(game.players@.take(i + 1), our_player(player_id@, team@)) == Some(
                i as int,
            ));
            proof {
                crate::model::lemma_first_index_prefix(
                    game.players@,
                    our_player(player_id@, team@),
                    i as int + 1,
                );
            }
            let mut p = game.players.remove(i);
            p.transfer_listed = true;
            game.players.insert(i, p);
            assert(game.players@ =~= old(game).players@.update(i as int, game.players@[i as int]));
            return;
        }
        i = i + 1;
    }
    assert(game.players@.take(game.players.len() as int) =~= game.players@);
}

/// What applying `action` does to the game, and what it asks of the engine.
pub open spec fn spec_apply(old: Game, new: Game, action: Action, req: Option<MarketRequest>) -> bool {
    match action {
        Action::Continue => new == old && req is None,
        Action::SetLineup { player_ids } => lineup_applied(old, new, player_ids@) && req is None,
        Action::SetTactics { play_style } => style_applied(old, new, play_style) && req is None,
        Action::SetMatchPlan { player_ids, play_style } => req is None && exists|mid: Game|
            lineup_applied(old, mid, player_ids@) && style_applied(mid, new, play_style),
        Action::AcceptOffer { player_id, offer_id } => new == old && req == Some(
            MarketRequest::RespondToOffer { player_id, offer_id, accept: true },
        ),
        Action::RejectOffer { player_id, offer_id } => new == old && req == Some(
            MarketRequest::RespondToOffer { player_id, offer_id, accept: false },
        ),
        Action::CounterOffer { player_id, offer_id, fee } => new == old && req == Some(
            MarketRequest::CounterOffer { player_id, offer_id, fee },
        ),
        Action::MakeBid { player_id, fee } => new == old && req == Some(
            MarketRequest::MakeBid { player_id, fee },
        ),
        Action::Scout { player_id } => new == old && match spec_user_scout(old) {
            Some(s) => req matches Some(MarketRequest::SendScout { scout_id, player_id: p }) && scout_id@
                == s && p == player_id,
            None => req is None,
        },
        Action::ListPlayer { player_id } => listed_applied(old, new, player_id@) && req is None,
    }
}

impl Episode {
    /// Take one step: count it and apply `action` to the game.  Engine work
    /// the action asks for (offers, bids, scouting) is returned; the caller
    /// performs it, then advances day by day through [`Episode::record_day`]
    /// (at least one day, which plays any match today) until it says stop,
    /// and observes.
    pub fn take_action(&mut self, action: Action) -> (req: Option<MarketRequest>)
        requires
            old(self).step < u64::MAX,
        ensures
            final(self).step == old(self).step + 1,
            final(self).horizon() == old(self).horizon(),
            final(self).advanced() == old(self).advanced(),
            final(self).seen() == old(self).seen(),
            spec_apply(old(self).game, final(self).game, action, req),
    {
        self.step = self.step + 1;
        match action {
            Action::Continue => None,
            Action::SetLineup { player_ids } => {
                apply_lineup(&mut self.game, player_ids.as_slice());
                None
            },
            Action::SetTactics { play_style } => {
                apply_play_style(&mut self.game, play_style);
                None
            },
            Action::SetMatchPlan { player_ids, play_style } => {
                apply_lineup(&mut self.game, player_ids.as_slice());
                apply_play_style(&mut self.game, play_style);
                None
            },
            Action::AcceptOffer { player_id, offer_id } => Some(
                MarketRequest::RespondToOffer { player_id, offer_id, accept: true },
            ),
            Action::RejectOffer { player_id, offer_id } => Some(
                MarketRequest::RespondToOffer { player_id, offer_id, accept: false },
            ),
            Action::CounterOffer { player_id, offer_id, fee } => Some(
                MarketRequest::CounterOffer { player_id, offer_id, fee },
            ),
            Action::MakeBid { player_id, fee } => Some(MarketRequest::MakeBid { player_id, fee }),
            Action::Scout { player_id } => match user_scout_id(&self.game) {
                Some(scout_id) => Some(MarketRequest::SendScout { scout_id, player_id }),
                None => None,
            },
            Action::ListPlayer { player_id } => {
                list_player(&mut self.game, &player_id);
                None
            },
        }
    }
}


impl Episode {
    /// Apply one action and advance to the next decision point.  Every
    /// action addresses the current decision point, so the world always moves
    /// forward at least one day.  `perform` carries out on the engine's game
    /// the transfer or scouting work an action asks for; `next_day` runs the
    /// engine for one day.
    pub fn step<F: Fn(&Game) -> Game, M: Fn(&Game, &MarketRequest) -> Game>(
        &mut self,
        action: Action,
        next_day: &F,
        perform: &M,
    ) -> (obs: EpisodeObservation)
        requires
            forall|g: &Game| next_day.requires((g,)),
            forall|g: &Game, r: &MarketRequest| perform.requires((g, r)),
            old(self).step < u64::MAX,
            old(self).advanced() < u64::MAX,
        ensures
            final(self).step == old(self).step + 1,
            final(self).horizon() == old(self).horizon(),
            final(self).advanced() > old(self).advanced(),
            final(self).advanced() <= if old(self).advanced() < old(self).horizon() {
                old(self).horizon()
            } else {
                (old(self).advanced() + 1) as u64
            },
            old(self).seen().subset_of(final(self).seen()),
            final(self).spec_fresh_offers().len() == 0,
            obs.step == final(self).step,
            obs.done == final(self).spec_done(),
            observation_of(obs, final(self).game, final(self).step, final(self).spec_done()),
            step_outcome(*next_day, *perform, *old(self), action, *final(self)),
    {
        let ghost act = action;
        let req = self.take_action(action);
        let ghost acted = self.game;
        if let Some(r) = req {
            let g = perform(&self.game, &r);
            self.game = g;
        }
        let ghost worked = self.game;
        let ghost adv0 = self.advanced();
        self.advance_to_next_decision(next_day);
        proof {
            let days = choose|days: Seq<Game>|
                {
                    &&& days.len() == self.advanced() - adv0
                    &&& day_chain(*next_day, worked, days)
                    &&& days.last() == self.game
                    &&& forall|k: int|
                        0 <= k < days.len() - 1 ==> !decision_point(
                            #[trigger] days[k],
                            (adv0 + k + 1) as u64,
                            old(self).horizon(),
                            old(self).seen(),
                        )
                };
            assert(spec_apply(old(self).game, acted, act, req) && day_chain(*next_day, worked, days));
        }
        let ghost before = self.seen();
        let obs = self.observe();
        assert(before.subset_of(self.seen()));
        obs
    }
}

/// One step from `before` with `action` reached `after`: the action is
/// applied, the engine work it asks for performed, and the days played up
/// to the first decision point.
pub open spec fn step_outcome<F: Fn(&Game) -> Game, M: Fn(&Game, &MarketRequest) -> Game>(
    next_day: F,
    perform: M,
    before: Episode,
    action: Action,
    after: Episode,
) -> bool {
    exists|acted: Game, req: Option<MarketRequest>, worked: Game, days: Seq<Game>|
        #![trigger spec_apply(before.game, acted, action, req), day_chain(next_day, worked, days)]
        {
            &&& spec_apply(before.game, acted, action, req)
            &&& match req {
                Some(r) => call_ensures(perform, (&acted, &r), worked),
                None => worked == acted,
            }
            &&& days.len() == after.advanced() - before.advanced()
            &&& day_chain(next_day, worked, days)
            &&& days.last() == after.game
            &&& forall|k: int|
                0 <= k < days.len() - 1 ==> !decision_point(
                    #[trigger] days[k],
                    (before.advanced() + k + 1) as u64,
                    before.horizon(),
                    before.seen(),
                )
        }
}

/// At a decision from `before`, the policy `act` was handed `o` (not yet
/// done), chose `a`, and the step with `a` reached `after`.
pub open spec fn consulted<
    A: Fn(&EpisodeObservation) -> Action,
    F: Fn(&Game) -> Game,
    M: Fn(&Game, &MarketRequest) -> Game,
>(act: A, next_day: F, perform: M, before: Episode, o: EpisodeObservation, a: Action, after: Episode) -> bool {
    &&& !o.done
    &&& call_ensures(act, (&o,), a)
    &&& step_outcome(next_day, perform, before, a, after)
}

/// A market day needs an open transfer window: on a day before the
/// horizon with no user matchday and no fresh offer, the environment stops
/// exactly when the window is open and the day count is a multiple of
/// three; with the window closed it keeps advancing.
pub proof fn lemma_market_day_needs_open_window(e: Episode)
    requires
        e.advanced() < e.horizon(),
        !e.game.user_match_today,
        e.spec_fresh_offers().len() == 0,
    ensures
        e.at_decision_point() <==> (e.game.transfer_window_open && e.advanced() % 3 == 0),
        !e.game.transfer_window_open ==> !e.at_decision_point(),
{
}

/// Accepting an offer asks the engine to accept exactly that offer,
/// rejecting asks it to reject it, countering passes the fee on, and a bid
/// passes player and fee on; none of them changes the game here.
pub proof fn lemma_offer_actions_ask_the_engine(
    old: Game,
    new: Game,
    player_id: String,
    offer_id: String,
    fee: u64,
    req: Option<MarketRequest>,
)
    ensures
        spec_apply(old, new, Action::AcceptOffer { player_id, offer_id }, req) ==> new == old
            && req == Some(MarketRequest::RespondToOffer { player_id, offer_id, accept: true }),
        spec_apply(old, new, Action::RejectOffer { player_id, offer_id }, req) ==> new == old
            && req == Some(MarketRequest::RespondToOffer { player_id, offer_id, accept: false }),
        spec_apply(old, new, Action::CounterOffer { player_id, offer_id, fee }, req) ==> new == old
            && req == Some(MarketRequest::CounterOffer { player_id, offer_id, fee }),
        spec_apply(old, new, Action::MakeBid { player_id, fee }, req) ==> new == old && req
            == Some(MarketRequest::MakeBid { player_id, fee }),
{
}

/// How many of `calls` take a step (`true` entries).
pub open spec fn steps_taken(calls: Seq<bool>) -> nat
    decreases calls.len(),
{
    if calls.len() == 0 {
        0
    } else {
        steps_taken(calls.drop_last()) + if calls.last() {
            1nat
        } else {
            0nat
        }
    }
}

/// The step count is the number of steps taken: an episode starts at 0
/// ([`Episode::new`]), each call that takes a step ([`Episode::step`],
/// [`Episode::take_action`]) adds one, and every other call
/// ([`Episode::observe`], [`Episode::record_day`],
/// [`Episode::advance_to_next_decision`]) leaves it, as their `ensures`
/// say.  `states[i + 1]` is the episode after call `i`, and `calls[i]` says
/// whether that call took a step.
pub proof fn lemma_step_count(states: Seq<Episode>, calls: Seq<bool>)
    requires
        states.len() == calls.len() + 1,
        states[0].step == 0,
        forall|i: int|
            0 <= i < calls.len() ==> if #[trigger] calls[i] {
                states[i + 1].step == states[i].step + 1
            } else {
                states[i + 1].step == states[i].step
            },
    ensures
        states.last().step == steps_taken(calls),
    decreases calls.len(),
{
    if calls.len() > 0 {
        let n = calls.len() - 1;
        let front = states.take(states.len() - 1);
        let c = calls.drop_last();
        assert forall|i: int| 0 <= i < c.len() implies if #[trigger] c[i] {
            front[i + 1].step == front[i].step + 1
        } else {
            front[i + 1].step == front[i].step
        } by {
            assert(c[i] == calls[i]);
            assert(front[i + 1] == states[i + 1] && front[i] == states[i]);
        }
        lemma_step_count(front, c);
        assert(calls[n] == calls.last());
        assert(front.last() == states[n]);
    }
}

/// Run a decision-cadence episode to its horizon: `act` picks the action at
/// each decision point, for at most 200 000 decisions.
pub fn run_cadence<A: Fn(&EpisodeObservation) -> Action, F: Fn(&Game) -> Game, M: Fn(&Game, &MarketRequest) -> Game>(
    ep: &mut Episode,
    seed: u64,
    act: &A,
    next_day: &F,
    perform: &M,
) -> (r: crate::run::CadenceResult)
    requires
        forall|o: &EpisodeObservation| act.requires((o,)),
        forall|g: &Game| next_day.requires((g,)),
        forall|g: &Game, q: &MarketRequest| perform.requires((g, q)),
        old(ep).step == 0,
        old(ep).advanced() <= old(ep).horizon(),
    ensures
        final(ep).step <= MAX_DECISIONS,
        final(ep).spec_done() || final(ep).step == MAX_DECISIONS,
        // Each decision plays at least one day, and no day past the horizon.
        final(ep).step <= final(ep).advanced() - old(ep).advanced(),
        final(ep).advanced() <= final(ep).horizon(),
        final(ep).horizon() == old(ep).horizon(),
        r == crate::run::spec_cadence_result(final(ep).game, seed, final(ep).step),
        // The policy is consulted once per decision, on what it sees there:
        // `states[k]` is the episode at decision `k`, `seen[k]` the
        // observation handed to `act`, `acts[k]` the action it chose.
        exists|states: Seq<Episode>, seen: Seq<EpisodeObservation>, acts: Seq<Action>|
            {
                &&& states.len() == final(ep).step + 1
                &&& seen.len() == final(ep).step + 1
                &&& acts.len() == final(ep).step
                &&& states[0].game == old(ep).game
                &&& states[0].advanced() == old(ep).advanced()
                &&& states.last() == *final(ep)
                &&& forall|k: int|
                    0 <= k < states.len() ==> observation_of(
                        #[trigger] seen[k],
                        states[k].game,
                        k as u64,
                        states[k].spec_done(),
                    )
                &&& forall|k: int|
                    0 <= k < acts.len() ==> consulted(
                        *act,
                        *next_day,
                        *perform,
                        states[k],
                        seen[k],
                        #[trigger] acts[k],
                        states[k + 1],
                    )
            },
{
    let mut obs = ep.observe();
    let ghost mut states: Seq<Episode> = seq![*ep];
    let ghost mut seen: Seq<EpisodeObservation> = seq![obs];
    let ghost mut acts: Seq<Action> = Seq::empty();
    let mut guard: u64 = 0;
    while !obs.done && guard < MAX_DECISIONS
        invariant
            forall|o: &EpisodeObservation| act.requires((o,)),
            forall|g: &Game| next_day.requires((g,)),
            forall|g: &Game, q: &MarketRequest| perform.requires((g, q)),
            guard <= MAX_DECISIONS,
            ep.step == guard,
            ep.horizon() == old(ep).horizon(),
            ep.step <= ep.advanced() - old(ep).advanced(),
            ep.advanced() <= ep.horizon(),
            !obs.done ==> ep.advanced() < ep.horizon(),
            obs.done == ep.spec_done(),
            states.len() == guard + 1,
            seen.len() == guard + 1,
            acts.len() == guard,
            states[0].game == old(ep).game,
            states[0].advanced() == old(ep).advanced(),
            states.last() == *ep,
            seen.last() == obs,
            forall|k: int|
                0 <= k < states.len() ==> observation_of(
                    #[trigger] seen[k],
                    states[k].game,
                    k as u64,
                    states[k].spec_done(),
                ),
            forall|k: int|
                0 <= k < acts.len() ==> consulted(
                    *act,
                    *next_day,
                    *perform,
                    states[k],
                    seen[k],
                    #[trigger] acts[k],
                    states[k + 1],
                ),
        decreases MAX_DECISIONS - guard,
    {
        let action = act(&obs);
        let ghost chosen = action;
        let ghost before = *ep;
        let ghost prev_states = states;
        let ghost prev_seen = seen;
        let ghost prev_acts = acts;
        obs = ep.step(action, next_day, perform);
        proof {
            states = states.push(*ep);
            seen = seen.push(obs);
            acts = acts.push(chosen);
            assert forall|k: int| 0 <= k < states.len() implies observation_of(
                #[trigger] seen[k],
                states[k].game,
                k as u64,
                states[k].spec_done(),
            ) by {
                if k < states.len() - 1 {
                    assert(seen[k] == prev_seen[k] && states[k] == prev_states[k]);
                }
            }
            assert forall|k: int| 0 <= k < acts.len() implies consulted(
                *act,
                *next_day,
                *perform,
                states[k],
                seen[k],
                #[trigger] acts[k],
                states[k + 1],
            ) by {
                if k < acts.len() - 1 {
                    assert(acts[k] == prev_acts[k] && seen[k] == prev_seen[k]);
                    assert(states[k] == prev_states[k] && states[k + 1] == prev_states[k + 1]);
                } else {
                    assert(states[k] == before && states[k + 1] == *ep);
                    assert(seen[k] == prev_seen.last());
                }
            }
        }
        guard = guard + 1;
    }
    crate::run::cadence_result(&ep.game, seed, ep.step)
}

/// The most decisions one cadence episode runs.
pub const MAX_DECISIONS: u64 = 200_000;

} // verus!
