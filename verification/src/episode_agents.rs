//! Baseline policies for the decision-cadence episode.

use crate::env::PlayerView;
use crate::episode::{Action, EpisodeObservation, OfferView};
use crate::model::{PlayStyle, Position};
use vstd::prelude::*;

verus! {

/// How strongly player `p` suits a slot of group `slot`: overall rating, 8
/// less out of position, 25 less below condition 55.
pub open spec fn slot_rating(p: PlayerView, slot: Position) -> int {
    p.ovr - (if p.group_position == slot {
        0int
    } else {
        8
    }) - (if p.condition < 55 {
        25int
    } else {
        0
    })
}

/// Index of the first best-rated player of `pool` (non-empty) for `slot`.
pub open spec fn best_for_slot(pool: Seq<PlayerView>, slot: Position) -> int
    decreases pool.len(),
{
    if pool.len() <= 1 {
        0
    } else {
        let b = best_for_slot(pool.drop_last(), slot);
        if slot_rating(pool.last(), slot) > slot_rating(pool[b], slot) {
            pool.len() - 1
        } else {
            b
        }
    }
}

/// The greedy lineup: slot by slot, the first best-rated remaining player
/// fills it and leaves the pool; slots left once the pool is empty stay
/// unfilled.
pub open spec fn greedy_lineup(pool: Seq<PlayerView>, slots: Seq<Position>) -> Seq<String>
    decreases slots.len(),
{
    if slots.len() == 0 || pool.len() == 0 {
        Seq::empty()
    } else {
        let b = best_for_slot(pool, slots[0]);
        seq![pool[b].id] + greedy_lineup(pool.remove(b), slots.drop_first())
    }
}

/// The uninjured players of `squad`, in squad order.
pub open spec fn fit_players(squad: Seq<PlayerView>) -> Seq<PlayerView>
    decreases squad.len(),
{
    if squad.len() == 0 {
        Seq::empty()
    } else if squad.last().injured {
        fit_players(squad.drop_last())
    } else {
        fit_players(squad.drop_last()).push(squad.last())
    }
}

/// The first 11 slots of a formation.
pub open spec fn first_eleven(slots: Seq<Position>) -> Seq<Position> {
    if slots.len() <= 11 {
        slots
    } else {
        slots.take(11)
    }
}

proof fn lemma_best_for_slot(pool: Seq<PlayerView>, slot: Position)
    requires
        pool.len() > 0,
    ensures
        0 <= best_for_slot(pool, slot) < pool.len(),
        forall|j: int|
            0 <= j < pool.len() ==> slot_rating(#[trigger] pool[j], slot) <= slot_rating(
                pool[best_for_slot(pool, slot)],
                slot,
            ),
        forall|j: int|
            0 <= j < best_for_slot(pool, slot) ==> slot_rating(#[trigger] pool[j], slot)
                < slot_rating(pool[best_for_slot(pool, slot)], slot),
    decreases pool.len(),
{
    if pool.len() > 1 {
        lemma_best_for_slot(pool.drop_last(), slot);
        assert forall|j: int| 0 <= j < pool.len() - 1 implies pool.drop_last()[j] == pool[j] by {}
    }
}

/// The greedy lineup has one player per slot, as long as players last.
pub proof fn lemma_greedy_lineup_len(pool: Seq<PlayerView>, slots: Seq<Position>)
    ensures
        greedy_lineup(pool, slots).len() == if slots.len() <= pool.len() {
            slots.len()
        } else {
            pool.len()
        },
    decreases slots.len(),
{
    if slots.len() > 0 && pool.len() > 0 {
        lemma_best_for_slot(pool, slots[0]);
        lemma_greedy_lineup_len(pool.remove(best_for_slot(pool, slots[0])), slots.drop_first());
    }
}

/// A sensible automated manager: on a matchday, the best-fit XI with its
/// fixed play style; on offers, accept any bid of at least 1.2 times market
/// value, reject the rest; otherwise continue.
///
/// It places no transfer bids of its own: an occasional bid for a strong,
/// affordable transfer-listed player is the intent, but no rule fixes which
/// player counts as strong, how often to bid or at what fee, and the
/// observation does not show which players are transfer-listed.
pub struct AutoManager {
    pub play_style: PlayStyle,
}

/// Index of the first best-rated player of `pool` for `slot`.
fn pick_best(pool: &Vec<PlayerView>, slot: Position) -> (b: usize)
    requires
        pool@.len() > 0,
    ensures
        b == best_for_slot(pool@, slot),
        b < pool@.len(),
{
    proof { lemma_best_for_slot(pool@, slot); }
    let mut best: usize = 0;
    let mut best_rating: i32 = rating_of(&pool[0], slot);
    let mut i: usize = 1;
    while i < pool.len()
        invariant
            1 <= i <= pool.len(),
            best == best_for_slot(pool@.take(i as int), slot),
            best < i,
            best_rating == slot_rating(pool@[best as int], slot),
        decreases pool.len() - i,
    {
        assert(pool@.take(i + 1).drop_last() =~= pool@.take(i as int));
        proof { lemma_best_for_slot(pool@.take(i as int), slot); }
        let r = rating_of(&pool[i], slot);
        if r > best_rating {
            best = i;
            best_rating = r;
        }
        i = i + 1;
    }
    assert(pool@.take(pool.len() as int) =~= pool@);
    best
}

/// [`slot_rating`], computed.
fn rating_of(p: &PlayerView, slot: Position) -> (r: i32)
    ensures
        r == slot_rating(*p, slot),
{
    let mut r: i32 = p.ovr as i32;
    if p.group_position != slot {
        r = r - 8;
    }
    if p.condition < 55 {
        r = r - 25;
    }
    r
}

/// The uninjured players of `squad`, copied, in squad order.
fn fit_pool(squad: &Vec<PlayerView>) -> (pool: Vec<PlayerView>)
    ensures
        pool@ == fit_players(squad@),
{
    let mut pool: Vec<PlayerView> = Vec::new();
    let mut i: usize = 0;
    while i < squad.len()
        invariant
            i <= squad.len(),
            pool@ == fit_players(squad@.take(i as int)),
        decreases squad.len() - i,
    {
        assert(squad@.take(i + 1).drop_last() =~= squad@.take(i as int));
        if !squad[i].injured {
            pool.push(squad[i].clone_view());
        }
        i = i + 1;
    }
    assert(squad@.take(squad.len() as int) =~= squad@);
    pool
}

impl AutoManager {
    pub fn new(play_style: PlayStyle) -> (m: Self)
        ensures
            m.play_style == play_style,
    {
        Self { play_style }
    }

    pub fn name(&self) -> (n: &'static str)
        ensures
            n@ == "AutoManager"@,
    {
        "AutoManager"
    }

    /// Greedy per-slot best fit over the first 11 `slots` of the formation
    /// (`slots` lists each slot's position group), skipping the injured.
    pub fn best_lineup(&self, obs: &EpisodeObservation, slots: &[Position]) -> (xi: Vec<String>)
        ensures
            xi@ == greedy_lineup(fit_players(obs.squad@), first_eleven(slots@)),
    {
        let mut pool = fit_pool(&obs.squad);
        let ghost all = first_eleven(slots@);
        let n: usize = if slots.len() <= 11 {
            slots.len()
        } else {
            11
        };
        let mut xi: Vec<String> = Vec::new();
        let mut k: usize = 0;
        assert(all.skip(0) =~= all);
        assert(xi@ + greedy_lineup(pool@, all) =~= greedy_lineup(pool@, all));
        while k < n
            invariant
                k <= n,
                n == all.len(),
                all == first_eleven(slots@),
                greedy_lineup(fit_players(obs.squad@), all) == xi@ + greedy_lineup(
                    pool@,
                    all.skip(k as int),
                ),
            decreases n - k,
        {
            let slot = slots[k];
            assert(all[k as int] == slot);
            assert(all.skip(k as int).drop_first() =~= all.skip(k + 1));
            if pool.len() > 0 {
                let b = pick_best(&pool, slot);
                let chosen = pool.remove(b);
                let ghost before = xi@;
                xi.push(chosen.id);
                assert(xi@ =~= before + seq![chosen.id]);
            }
            k = k + 1;
        }
        assert(all.skip(n as int).len() == 0);
        assert(xi@ =~= xi@ + greedy_lineup(pool@, all.skip(n as int)));
        xi
    }

    /// The decision at a decision point: on a matchday the best-fit XI with
    /// the manager's fixed play style, otherwise the offer rule.  `slots`
    /// are the formation's slot groups (used on a matchday).
    pub fn act(&mut self, obs: &EpisodeObservation, slots: &[Position]) -> (a: Action)
        requires
            !obs.is_matchday ==> offer_value_fits(*obs),
        ensures
            *final(self) == *old(self),
            obs.is_matchday ==> (a matches Action::SetMatchPlan { player_ids, play_style } && player_ids@
                == greedy_lineup(fit_players(obs.squad@), first_eleven(slots@)) && play_style
                == old(self).play_style),
            !obs.is_matchday ==> a == spec_offer_decision(*obs),
    {
        if obs.is_matchday {
            return Action::SetMatchPlan {
                player_ids: self.best_lineup(obs, slots),
                play_style: self.play_style,
            };
        }
        respond_to_first_offer(obs)
    }
}

/// A squad player with id `id`.
pub open spec fn squad_member(id: Seq<char>) -> spec_fn(PlayerView) -> bool {
    |p: PlayerView| p.id@ == id
}

/// The market value of the player the first offer is for (0 when that
/// player is not in the squad).
pub open spec fn first_offer_value(obs: EpisodeObservation) -> int {
    match crate::model::first_index(obs.squad@, squad_member(obs.offers@[0].player_id@)) {
        Some(i) => obs.squad@[i].market_value as int,
        None => 0,
    }
}

/// 1.2 times the first offer's player's value can be computed in 64 bits.
pub open spec fn offer_value_fits(obs: EpisodeObservation) -> bool {
    obs.offers@.len() > 0 ==> first_offer_value(obs) * 12 <= u64::MAX
}

/// The offer rule: with an offer pending, accept the first one if its fee is
/// at least 1.2 times the player's market value (in whole units, rounded
/// down), otherwise reject it; with no offer, continue.
pub open spec fn spec_offer_decision(obs: EpisodeObservation) -> Action {
    if obs.offers@.len() == 0 {
        Action::Continue
    } else {
        let o = obs.offers@[0];
        if o.fee >= first_offer_value(obs) * 12 / 10 {
            Action::AcceptOffer { player_id: o.player_id, offer_id: o.offer_id }
        } else {
            Action::RejectOffer { player_id: o.player_id, offer_id: o.offer_id }
        }
    }
}

/// Index of the first squad player whose id is `id`.
fn find_in_squad(squad: &Vec<PlayerView>, id: &String) -> (r: Option<usize>)
    ensures
        r matches Some(i) ==> crate::model::first_index(squad@, squad_member(id@)) == Some(i as int)
            && i < squad@.len(),
        r is None ==> crate::model::first_index(squad@, squad_member(id@)) is None,
{
    let mut i: usize = 0;
    while i < squad.len()
        invariant
            i <= squad.len(),
            crate::model::first_index(squad@.take(i as int), squad_member(id@)) is None,
        decreases squad.len() - i,
    {
        assert(squad@.take(i + 1).drop_last() =~= squad@.take(i as int));
        if squad[i].id == *id {
            assert(crate::model::first_index(squad@.take(i + 1), squad_member(id@)) == Some(i as int));
            proof { crate::model::lemma_first_index_prefix(squad@, squad_member(id@), i as int + 1); }
            return Some(i);
        }
        i = i + 1;
    }
    assert(squad@.take(squad.len() as int) =~= squad@);
    None
}

/// Resolve the first pending offer by the 1.2x rule.
fn respond_to_first_offer(obs: &EpisodeObservation) -> (a: Action)
    requires
        offer_value_fits(*obs),
    ensures
        a == spec_offer_decision(*obs),
{
    if obs.offers.len() == 0 {
        return Action::Continue;
    }
    let offer: &OfferView = &obs.offers[0];
    let value: u64 = match find_in_squad(&obs.squad, &offer.player_id) {
        Some(i) => obs.squad[i].market_value,
        None => 0,
    };
    if offer.fee >= value * 12 / 10 {
        Action::AcceptOffer { player_id: offer.player_id.clone(), offer_id: offer.offer_id.clone() }
    } else {
        Action::RejectOffer { player_id: offer.player_id.clone(), offer_id: offer.offer_id.clone() }
    }
}

/// Never manage anything: the control baseline.
pub struct PassiveManager;

impl PassiveManager {
    pub fn name(&self) -> (n: &'static str)
        ensures
            n@ == "Passive"@,
    {
        "Passive"
    }

    /// Always continue.
    pub fn act(&mut self, obs: &EpisodeObservation) -> (a: Action)
        ensures
            a == Action::Continue,
    {
        Action::Continue
    }
}

/// Resolve every pending offer by the 1.2x rule, but never touch the lineup
/// or the market.
pub struct OffersOnlyManager;

impl OffersOnlyManager {
    pub fn name(&self) -> (n: &'static str)
        ensures
            n@ == "OffersOnly"@,
    {
        "OffersOnly"
    }

    /// Resolve the first pending offer, or continue.
    pub fn act(&mut self, obs: &EpisodeObservation) -> (a: Action)
        requires
            offer_value_fits(*obs),
        ensures
            a == spec_offer_decision(*obs),
    {
        respond_to_first_offer(obs)
    }
}

/// The uninjured players are the squad filtered by fitness.
proof fn lemma_fit_players_filter(squad: Seq<PlayerView>)
    ensures
        fit_players(squad) == squad.filter(|p: PlayerView| !p.injured),
    decreases squad.len(),
{
    reveal(Seq::filter);
    if squad.len() > 0 {
        lemma_fit_players_filter(squad.drop_last());
    }
}

/// The matchday lineup fills one formation slot per player: it has as many
/// entries as the smallest of 11, the number of slots and the number of
/// uninjured squad players.
pub proof fn lemma_matchday_lineup_size(squad: Seq<PlayerView>, slots: Seq<Position>)
    ensures
        ({
            let fit = squad.filter(|p: PlayerView| !p.injured).len();
            let n = if slots.len() < 11 {
                slots.len()
            } else {
                11
            };
            greedy_lineup(fit_players(squad), first_eleven(slots)).len() == if n <= fit {
                n
            } else {
                fit
            }
        }),
{
    lemma_fit_players_filter(squad);
    lemma_greedy_lineup_len(fit_players(squad), first_eleven(slots));
}

/// The offer rule judges the first offer against the market value of the
/// first squad player whose id is the offer's player id: accepted when the
/// fee is at least 12/10 of that value (rounded down), rejected otherwise.
pub proof fn lemma_offer_rule_uses_offered_player(obs: EpisodeObservation, k: int)
    requires
        obs.offers@.len() > 0,
        0 <= k < obs.squad@.len(),
        obs.squad@[k].id@ == obs.offers@[0].player_id@,
        forall|j: int| 0 <= j < k ==> (#[trigger] obs.squad@[j]).id@ != obs.offers@[0].player_id@,
    ensures
        spec_offer_decision(obs) == if obs.offers@[0].fee >= obs.squad@[k].market_value * 12 / 10 {
            Action::AcceptOffer {
                player_id: obs.offers@[0].player_id,
                offer_id: obs.offers@[0].offer_id,
            }
        } else {
            Action::RejectOffer {
                player_id: obs.offers@[0].player_id,
                offer_id: obs.offers@[0].offer_id,
            }
        },
{
    let p = squad_member(obs.offers@[0].player_id@);
    crate::model::lemma_first_index(obs.squad@, p);
    match crate::model::first_index(obs.squad@, p) {
        Some(i) => {
            if i < k {
                assert(p(obs.squad@[i]));
            } else if i > k {
                assert(p(obs.squad@[k]));
            }
        },
        None => {
            assert(p(obs.squad@[k]));
        },
    }
}

/// An offer for a player who is not in the squad is judged against a value
/// of 0, so it is accepted.
pub proof fn lemma_offer_rule_unknown_player(obs: EpisodeObservation)
    requires
        obs.offers@.len() > 0,
        forall|j: int|
            0 <= j < obs.squad@.len() ==> (#[trigger] obs.squad@[j]).id@ != obs.offers@[0].player_id@,
    ensures
        spec_offer_decision(obs) == (Action::AcceptOffer {
            player_id: obs.offers@[0].player_id,
            offer_id: obs.offers@[0].offer_id,
        }),
{
    let p = squad_member(obs.offers@[0].player_id@);
    crate::model::lemma_first_index(obs.squad@, p);
    if let Some(i) = crate::model::first_index(obs.squad@, p) {
        assert(p(obs.squad@[i]));
    }
}

} // verus!
