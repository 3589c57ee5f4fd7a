//! Setting up a generated world for the benchmark: choosing the managed club
//! by squad strength, splitting each nation's clubs into league divisions,
//! and applying the scenario's finances.

use crate::env::ScenarioBudget;
use crate::model::{first_index, plays_for, sum_of, team_is, Game, Player, Team};
use vstd::prelude::*;
use vstd::string::StringExecFns;
use vstd::utf8::encode_utf8;

verus! {

/// A player's overall rating if on team `id`.
pub open spec fn ovr_on(id: Seq<char>) -> spec_fn(Player) -> int {
    |p: Player| if plays_for(id)(p) { p.ovr as int } else { 0 }
}

/// One if the player is on team `id`.
pub open spec fn one_on(id: Seq<char>) -> spec_fn(Player) -> int {
    |p: Player| if plays_for(id)(p) { 1int } else { 0 }
}

/// A club's squad strength: the sum of its players' overall ratings and
/// their number.
pub open spec fn spec_strength(players: Seq<Player>, id: Seq<char>) -> (int, int) {
    (sum_of(players, ovr_on(id)), sum_of(players, one_on(id)))
}

/// A squad's mean rating as a fraction; a club without players counts 0.
pub open spec fn mean_fraction(s: (int, int)) -> (int, int) {
    if s.1 == 0 {
        (0, 1)
    } else {
        s
    }
}

/// Club strength `a` has a lower mean rating than `b`.
pub open spec fn mean_less(a: (int, int), b: (int, int)) -> bool {
    mean_fraction(a).0 * mean_fraction(b).1 < mean_fraction(b).0 * mean_fraction(a).1
}

proof fn lemma_strength_bounds(players: Seq<Player>, id: Seq<char>)
    ensures
        0 <= spec_strength(players, id).1 <= players.len(),
        0 <= spec_strength(players, id).0 <= 255 * spec_strength(players, id).1,
    decreases players.len(),
{
    if players.len() > 0 {
        lemma_strength_bounds(players.drop_last(), id);
    }
}

/// Each club's squad strength, in club order.
pub fn team_strengths(teams: &Vec<Team>, players: &Vec<Player>) -> (st: Vec<(u64, u64)>)
    requires
        players@.len() <= u32::MAX,
    ensures
        st@.len() == teams@.len(),
        forall|i: int|
            0 <= i < teams@.len() ==> (st@[i].0 as int, st@[i].1 as int) == spec_strength(
                players@,
                (#[trigger] teams@[i]).id@,
            ),
        forall|i: int| 0 <= i < st@.len() ==> (#[trigger] st@[i]).1 <= u32::MAX && st@[i].0 <= 255 * st@[i].1,
{
    let mut st: Vec<(u64, u64)> = Vec::new();
    let mut t: usize = 0;
    while t < teams.len()
        invariant
            t <= teams.len(),
            players@.len() <= u32::MAX,
            st@.len() == t,
            forall|i: int|
                0 <= i < t ==> (st@[i].0 as int, st@[i].1 as int) == spec_strength(
                    players@,
                    (#[trigger] teams@[i]).id@,
                ),
            forall|i: int| 0 <= i < st@.len() ==> (#[trigger] st@[i]).1 <= u32::MAX && st@[i].0 <= 255 * st@[i].1,
        decreases teams.len() - t,
    {
        let id = &teams[t].id;
        let ghost key = id@;
        let mut sum: u64 = 0;
        let mut count: u64 = 0;
        let mut i: usize = 0;
        while i < players.len()
            invariant
                i <= players.len(),
                players@.len() <= u32::MAX,
                key == id@,
                sum == sum_of(players@.take(i as int), ovr_on(key)),
                count == sum_of(players@.take(i as int), one_on(key)),
            decreases players.len() - i,
        {
            proof { lemma_strength_bounds(players@.take(i as int), key); }
            assert(players@.take(i + 1).drop_last() =~= players@.take(i as int));
            if crate::env::is_on_team(&players[i], id) {
                sum = sum + players[i].ovr as u64;
                count = count + 1;
            }
            i = i + 1;
        }
        assert(players@.take(players.len() as int) =~= players@);
        proof { lemma_strength_bounds(players@, key); }
        st.push((sum, count));
        t = t + 1;
    }
    st
}

/// [`mean_less`] on computed strengths.
fn weaker(a: (u64, u64), b: (u64, u64)) -> (r: bool)
    requires
        a.1 <= u32::MAX,
        b.1 <= u32::MAX,
        a.0 <= 255 * a.1,
        b.0 <= 255 * b.1,
    ensures
        r == mean_less((a.0 as int, a.1 as int), (b.0 as int, b.1 as int)),
{
    let (sa, ca): (u64, u64) = if a.1 == 0 {
        (0, 1)
    } else {
        a
    };
    let (sb, cb): (u64, u64) = if b.1 == 0 {
        (0, 1)
    } else {
        b
    };
    assert((sa as int) * (cb as int) <= 0x1_0000_0000_0000_0000_0000) by (nonlinear_arith)
        requires
            sa <= 255 * 0xffff_ffff,
            cb <= 0xffff_ffff,
    ;
    assert((sb as int) * (ca as int) <= 0x1_0000_0000_0000_0000_0000) by (nonlinear_arith)
        requires
            sb <= 255 * 0xffff_ffff,
            ca <= 0xffff_ffff,
    ;
    (sa as u128) * (cb as u128) < (sb as u128) * (ca as u128)
}

/// Strength order: candidate `x` goes before `j` (ascending: weaker
/// first; descending: stronger first).
pub open spec fn goes_before(st: Seq<(int, int)>, desc: bool) -> spec_fn(int, int) -> bool {
    |x: int, j: int| if desc { mean_less(st[j], st[x]) } else { mean_less(st[x], st[j]) }
}

/// Where `x` goes into `sorted`: before the first element it goes before,
/// so equals keep their order.
pub open spec fn strength_slot(sorted: Seq<int>, x: int, before: spec_fn(int, int) -> bool) -> int {
    match first_index(sorted, |j: int| before(x, j)) {
        Some(i) => i,
        None => sorted.len() as int,
    }
}

/// `s` sorted stably by `before` (insertion order).
pub open spec fn stable_sort(s: Seq<int>, before: spec_fn(int, int) -> bool) -> Seq<int>
    decreases s.len(),
{
    if s.len() == 0 {
        s
    } else {
        let r = stable_sort(s.drop_last(), before);
        r.insert(strength_slot(r, s.last(), before), s.last())
    }
}

/// The strengths as mathematical pairs.
pub open spec fn strengths_of(st: Seq<(u64, u64)>) -> Seq<(int, int)> {
    st.map_values(|p: (u64, u64)| (p.0 as int, p.1 as int))
}

/// Computed strengths are within the bounds [`weaker`] needs.
pub open spec fn bounded(st: Seq<(u64, u64)>) -> bool {
    forall|i: int| 0 <= i < st.len() ==> (#[trigger] st[i]).1 <= u32::MAX && st[i].0 <= 255 * st[i].1
}

/// Sort club indices `idx` by strength (stable; weakest first, or strongest
/// first when `desc`).
pub fn sort_by_strength(idx: &Vec<usize>, st: &Vec<(u64, u64)>, desc: bool) -> (out: Vec<usize>)
    requires
        bounded(st@),
        forall|j: int| 0 <= j < idx@.len() ==> #[trigger] idx@[j] < st@.len(),
    ensures
        out@.map_values(|i: usize| i as int) == stable_sort(
            idx@.map_values(|i: usize| i as int),
            goes_before(strengths_of(st@), desc),
        ),
        forall|j: int| 0 <= j < out@.len() ==> #[trigger] out@[j] < st@.len(),
{
    let ghost src = idx@.map_values(|i: usize| i as int);
    let ghost before = goes_before(strengths_of(st@), desc);
    let mut out: Vec<usize> = Vec::new();
    let mut i: usize = 0;
    while i < idx.len()
        invariant
            i <= idx.len(),
            bounded(st@),
            src == idx@.map_values(|i: usize| i as int),
            before == goes_before(strengths_of(st@), desc),
            forall|j: int| 0 <= j < idx@.len() ==> #[trigger] idx@[j] < st@.len(),
            forall|j: int| 0 <= j < out@.len() ==> #[trigger] out@[j] < st@.len(),
            out@.map_values(|i: usize| i as int) == stable_sort(src.take(i as int), before),
        decreases idx.len() - i,
    {
        let x = idx[i];
        let ghost r = out@.map_values(|i: usize| i as int);
        let mut pos: usize = 0;
        let mut found = false;
        while pos < out.len() && !found
            invariant
                pos <= out.len(),
                bounded(st@),
                x < st@.len(),
                r == out@.map_values(|i: usize| i as int),
                forall|j: int| 0 <= j < out@.len() ==> #[trigger] out@[j] < st@.len(),
                before == goes_before(strengths_of(st@), desc),
                !found ==> first_index(r.take(pos as int), |j: int| before(x as int, j)) is None,
                found ==> pos < out.len() && first_index(r, |j: int| before(x as int, j)) == Some(pos as int),
            decreases out.len() - pos, if found { 0int } else { 1int },
        {
            let y = out[pos];
            assert(r.take(pos + 1).drop_last() =~= r.take(pos as int));
            assert(r[pos as int] == y as int);
            let goes = if desc {
                weaker(st[y], st[x])
            } else {
                weaker(st[x], st[y])
            };
            if goes {
                assert(first_index(r.take(pos + 1), |j: int| before(x as int, j)) == Some(pos as int));
                proof { crate::model::lemma_first_index_prefix(r, |j: int| before(x as int, j), pos as int + 1); }
                found = true;
            } else {
                pos = pos + 1;
            }
        }
        proof {
            if !found {
                assert(r.take(pos as int) =~= r);
            }
        }
        assert(pos == strength_slot(r, x as int, before));
        assert(src.take(i + 1).drop_last() =~= src.take(i as int));
        assert(src.take(i + 1).last() == x as int);
        out.insert(pos, x);
        assert(out@.map_values(|i: usize| i as int) =~= r.insert(pos as int, x as int));
        i = i + 1;
    }
    assert(src.take(idx.len() as int) =~= src);
    out
}


/// Every club's strength, in club order.
pub open spec fn spec_strengths(teams: Seq<Team>, players: Seq<Player>) -> Seq<(int, int)> {
    Seq::new(teams.len(), |i: int| spec_strength(players, teams[i].id@))
}

/// `0, 1, ..., n - 1`.
pub open spec fn indices(n: int) -> Seq<int> {
    Seq::new(n as nat, |i: int| i)
}

/// Sorting keeps the number of elements and only holds elements of `s`.
pub proof fn lemma_stable_sort_elements(s: Seq<int>, before: spec_fn(int, int) -> bool)
    ensures
        stable_sort(s, before).len() == s.len(),
        forall|k: int|
            0 <= k < s.len() ==> s.contains(#[trigger] stable_sort(s, before)[k]),
    decreases s.len(),
{
    if s.len() > 0 {
        let init = s.drop_last();
        lemma_stable_sort_elements(init, before);
        let r = stable_sort(init, before);
        crate::model::lemma_first_index(r, |j: int| before(s.last(), j));
        let pos = strength_slot(r, s.last(), before);
        assert forall|k: int| 0 <= k < s.len() implies s.contains(
            #[trigger] stable_sort(s, before)[k],
        ) by {
            let out = r.insert(pos, s.last());
            if k < pos {
                assert(out[k] == r[k]);
                assert(init.contains(r[k]));
                let w = choose|w: int| 0 <= w < init.len() && init[w] == r[k];
                assert(s[w] == init[w]);
            } else if k == pos {
                assert(s[s.len() - 1] == s.last());
            } else {
                assert(out[k] == r[k - 1]);
                assert(init.contains(r[k - 1]));
                let w = choose|w: int| 0 <= w < init.len() && init[w] == r[k - 1];
                assert(s[w] == init[w]);
            }
        }
    }
}

/// Sorting club indices by strength keeps exactly the clubs given, and
/// puts no club after one it goes before.
pub proof fn lemma_strength_sort(s: Seq<int>, st: Seq<(int, int)>, desc: bool)
    requires
        forall|i: int| 0 <= i < s.len() ==> 0 <= #[trigger] s[i] < st.len(),
        forall|i: int| #![trigger st[i]] 0 <= i < st.len() ==> st[i].1 >= 0,
    ensures
        stable_sort(s, goes_before(st, desc)).to_multiset() == s.to_multiset(),
        forall|i: int, j: int|
            0 <= i < j < stable_sort(s, goes_before(st, desc)).len() ==> !goes_before(st, desc)(
                #[trigger] stable_sort(s, goes_before(st, desc))[j],
                #[trigger] stable_sort(s, goes_before(st, desc))[i],
            ),
    decreases s.len(),
{
    broadcast use vstd::seq_lib::to_multiset_build, vstd::seq_lib::to_multiset_insert;

    let before = goes_before(st, desc);
    if s.len() > 0 {
        let init = s.drop_last();
        let x = s.last();
        assert forall|i: int| 0 <= i < init.len() implies 0 <= #[trigger] init[i] < st.len() by {
            assert(init[i] == s[i]);
        }
        lemma_strength_sort(init, st, desc);
        lemma_stable_sort_elements(init, before);
        let r = stable_sort(init, before);
        let p = |j: int| before(x, j);
        crate::model::lemma_first_index(r, p);
        let pos = strength_slot(r, x, before);
        let out = r.insert(pos, x);
        assert(s =~= init.push(x));
        assert(out.to_multiset() == r.to_multiset().insert(x));
        assert(0 <= x < st.len()) by {
            assert(s[s.len() - 1] == x);
        }
        assert forall|k: int| 0 <= k < r.len() implies 0 <= #[trigger] r[k] < st.len() by {
            assert(init.contains(r[k]));
        }
        assert forall|i: int, j: int| 0 <= i < j < out.len() implies !before(
            #[trigger] out[j],
            #[trigger] out[i],
        ) by {
            if j < pos {
                assert(out[i] == r[i] && out[j] == r[j]);
            } else if j == pos {
                assert(out[i] == r[i]);
                assert(!p(r[i]));
            } else if i < pos {
                assert(out[i] == r[i] && out[j] == r[j - 1]);
            } else if i == pos {
                assert(out[j] == r[j - 1]);
                assert(before(x, r[pos]));
                let y = r[j - 1];
                let z = r[pos];
                if before(y, x) {
                    let (py, qy) = mean_fraction(st[y]);
                    let (px, qx) = mean_fraction(st[x]);
                    let (pz, qz) = mean_fraction(st[z]);
                    if desc {
                        lemma_fraction_order(pz, qz, px, qx, py, qy);
                    } else {
                        lemma_fraction_order(py, qy, px, qx, pz, qz);
                    }
                    assert(before(y, z));
                }
            } else {
                assert(out[i] == r[i - 1] && out[j] == r[j - 1]);
            }
        }
    }
}

proof fn lemma_fraction_order(pa: int, qa: int, pb: int, qb: int, pc: int, qc: int)
    requires
        qa > 0,
        qb > 0,
        qc > 0,
    ensures
        pa * qb < pb * qa && pb * qc < pc * qb ==> pa * qc < pc * qa,
        pa * qb >= pb * qa && pb * qc >= pc * qb ==> pa * qc >= pc * qa,
{
    assert(pa * qb < pb * qa && pb * qc < pc * qb ==> pa * qc < pc * qa) by (nonlinear_arith)
        requires
            qa > 0,
            qb > 0,
            qc > 0,
    ;
    assert(pa * qb >= pb * qa && pb * qc >= pc * qb ==> pa * qc >= pc * qa) by (nonlinear_arith)
        requires
            qa > 0,
            qb > 0,
            qc > 0,
    ;
}

/// Clubs ordered weakest first by mean squad rating (equal means keep
/// world order).
pub open spec fn strength_ranking(teams: Seq<Team>, players: Seq<Player>) -> Seq<int> {
    stable_sort(indices(teams.len() as int), goes_before(spec_strengths(teams, players), false))
}

/// The strength ranking holds every club exactly once, weakest first; so
/// `ClubPick::Strength(0)` picks a club no other club is weaker than.
pub proof fn lemma_strength_ranking(teams: Seq<Team>, players: Seq<Player>)
    ensures
        strength_ranking(teams, players).to_multiset() == indices(teams.len() as int).to_multiset(),
        forall|i: int, j: int|
            0 <= i < j < strength_ranking(teams, players).len() ==> !mean_less(
                spec_strengths(teams, players)[#[trigger] strength_ranking(teams, players)[j]],
                spec_strengths(teams, players)[#[trigger] strength_ranking(teams, players)[i]],
            ),
        teams.len() > 0 ==> forall|c: int|
            0 <= c < teams.len() ==> !mean_less(
                #[trigger] spec_strengths(teams, players)[c],
                spec_strengths(teams, players)[spec_picked(
                    teams,
                    players,
                    crate::env::ClubPick::Strength(0),
                )],
            ),
{
    broadcast use vstd::seq_lib::to_multiset_contains;

    let st = spec_strengths(teams, players);
    let idx = indices(teams.len() as int);
    assert forall|i: int| #![trigger st[i]] 0 <= i < st.len() implies st[i].1 >= 0 by {
        lemma_strength_bounds(players, teams[i].id@);
    }
    lemma_strength_sort(idx, st, false);
    lemma_stable_sort_elements(idx, goes_before(st, false));
    let ranked = strength_ranking(teams, players);
    if teams.len() > 0 {
        assert forall|c: int| 0 <= c < teams.len() implies !mean_less(
            #[trigger] st[c],
            st[spec_picked(teams, players, crate::env::ClubPick::Strength(0))],
        ) by {
            assert(idx[c] == c);
            assert(idx.to_multiset().count(c) > 0);
            assert(ranked.contains(c));
            let k = choose|k: int| 0 <= k < ranked.len() && ranked[k] == c;
            if k > 0 {
                assert(!goes_before(st, false)(ranked[k], ranked[0]));
            }
        }
    }
}

/// Which club (index into `teams`) the pick selects; out-of-range picks fall
/// back to the first club, or the weakest.
pub open spec fn spec_picked(teams: Seq<Team>, players: Seq<Player>, pick: crate::env::ClubPick) -> int {
    match pick {
        crate::env::ClubPick::Index(i) => if i < teams.len() {
            i as int
        } else {
            0
        },
        crate::env::ClubPick::Strength(r) => {
            let ranked = strength_ranking(teams, players);
            if r < ranked.len() {
                ranked[r as int]
            } else {
                ranked[0]
            }
        },
    }
}

/// The id of the club to manage, chosen by `pick` among `teams`.
pub fn pick_club(teams: &Vec<Team>, players: &Vec<Player>, pick: &crate::env::ClubPick) -> (id: String)
    requires
        teams@.len() > 0,
        players@.len() <= u32::MAX,
    ensures
        0 <= spec_picked(teams@, players@, *pick) < teams@.len(),
        id@ == teams@[spec_picked(teams@, players@, *pick)].id@,
{
    match pick {
        crate::env::ClubPick::Index(i) => {
            let k = if *i < teams.len() {
                *i
            } else {
                0
            };
            teams[k].id.clone()
        },
        crate::env::ClubPick::Strength(rank) => {
            let st = team_strengths(teams, players);
            assert(strengths_of(st@) =~= spec_strengths(teams@, players@));
            let mut all: Vec<usize> = Vec::new();
            let mut c: usize = 0;
            while c < teams.len()
                invariant
                    c <= teams.len() == st@.len(),
                    all@.len() == c,
                    forall|j: int| 0 <= j < c ==> #[trigger] all@[j] == j,
                decreases teams.len() - c,
            {
                all.push(c);
                c = c + 1;
            }
            assert(all@.map_values(|i: usize| i as int) =~= indices(teams@.len() as int));
            let ranked = sort_by_strength(&all, &st, false);
            proof {
                lemma_stable_sort_elements(
                    indices(teams@.len() as int),
                    goes_before(spec_strengths(teams@, players@), false),
                );
            }
            assert(ranked@.len() == teams@.len()) by {
                assert(ranked@.map_values(|i: usize| i as int).len() == ranked@.len());
            }
            let k = if *rank < ranked.len() {
                *rank
            } else {
                0
            };
            assert(ranked@.map_values(|i: usize| i as int)[k as int] == ranked@[k as int] as int);
            teams[ranked[k]].id.clone()
        },
    }
}

/// `new` is `old` with the managed club's finances set from `budget`.
pub open spec fn budget_applied(old: Game, new: Game, budget: ScenarioBudget) -> bool {
    &&& new.teams@.len() == old.teams@.len()
    &&& new == (Game { teams: new.teams, ..old })
    &&& match crate::env::user_team_index(old) {
        Some(i) => {
            &&& new.teams@[i] == (Team {
                finance: budget.finance,
                transfer_budget: budget.transfer_budget,
                wage_budget: budget.wage_budget,
                ..old.teams@[i]
            })
            &&& forall|j: int| 0 <= j < old.teams@.len() && j != i ==> new.teams@[j] == old.teams@[j]
        },
        None => new.teams@ == old.teams@,
    }
}

/// The scenario's financial starting state overrides the managed club's
/// generated budgets.
pub fn apply_budget(game: &mut Game, budget: &ScenarioBudget)
    ensures
        budget_applied(*old(game), *final(game), *budget),
{
    let idx = match &game.manager_team_id {
        Some(t) => crate::model::find_team(&game.teams, t),
        None => None,
    };
    if let Some(i) = idx {
        proof { crate::model::lemma_first_index(game.teams@, team_is(game.manager_team_id->0@)); }
        let mut team = game.teams.remove(i);
        team.finance = budget.finance;
        team.transfer_budget = budget.transfer_budget;
        team.wage_budget = budget.wage_budget;
        game.teams.insert(i, team);
    }
}


/// Byte-wise lexicographic order (the order of `str` and `String`).
pub open spec fn bytes_less(a: Seq<u8>, b: Seq<u8>) -> bool
    decreases a.len(),
{
    if a.len() == 0 {
        b.len() > 0
    } else if b.len() == 0 {
        false
    } else if a[0] < b[0] {
        true
    } else if a[0] > b[0] {
        false
    } else {
        bytes_less(a.drop_first(), b.drop_first())
    }
}

/// No byte string sorts before itself.
pub proof fn lemma_bytes_less_irreflexive(a: Seq<u8>)
    ensures
        !bytes_less(a, a),
    decreases a.len(),
{
    if a.len() > 0 {
        lemma_bytes_less_irreflexive(a.drop_first());
    }
}

/// The byte-wise order is transitive.
pub proof fn lemma_bytes_less_transitive(a: Seq<u8>, b: Seq<u8>, c: Seq<u8>)
    requires
        bytes_less(a, b),
        bytes_less(b, c),
    ensures
        bytes_less(a, c),
    decreases a.len(),
{
    if a.len() > 0 && b.len() > 0 && c.len() > 0 && a[0] == b[0] && b[0] == c[0] {
        lemma_bytes_less_transitive(a.drop_first(), b.drop_first(), c.drop_first());
    }
}

/// Of two different byte strings, one sorts before the other.
pub proof fn lemma_bytes_less_total(a: Seq<u8>, b: Seq<u8>)
    ensures
        a == b || bytes_less(a, b) || bytes_less(b, a),
    decreases a.len(),
{
    if a.len() > 0 && b.len() > 0 && a[0] == b[0] {
        lemma_bytes_less_total(a.drop_first(), b.drop_first());
        if a.drop_first() == b.drop_first() {
            assert(a =~= seq![a[0]] + a.drop_first());
            assert(b =~= seq![b[0]] + b.drop_first());
        }
    } else if a.len() == 0 && b.len() == 0 {
        assert(a =~= b);
    }
}

/// Compares byte strings: `(a < b, a == b)`.
pub fn compare_bytes(a: &[u8], b: &[u8]) -> (r: (bool, bool))
    ensures
        r.0 == bytes_less(a@, b@),
        r.1 == (a@ == b@),
{
    let mut i: usize = 0;
    assert(a@.skip(0) =~= a@);
    assert(b@.skip(0) =~= b@);
    while i < a.len() && i < b.len()
        invariant
            i <= a@.len(),
            i <= b@.len(),
            a@.take(i as int) == b@.take(i as int),
            bytes_less(a@, b@) == bytes_less(a@.skip(i as int), b@.skip(i as int)),
        decreases a.len() - i,
    {
        assert(a@.skip(i as int)[0] == a@[i as int]);
        assert(b@.skip(i as int)[0] == b@[i as int]);
        if a[i] < b[i] {
            return (true, false);
        }
        if a[i] > b[i] {
            assert(a@[i as int] != b@[i as int]);
            return (false, false);
        }
        assert(a@.skip(i as int).drop_first() =~= a@.skip(i + 1));
        assert(b@.skip(i as int).drop_first() =~= b@.skip(i + 1));
        assert(a@.take(i + 1) =~= a@.take(i as int).push(a@[i as int]));
        assert(b@.take(i + 1) =~= b@.take(i as int).push(b@[i as int]));
        i = i + 1;
    }
    if i == a.len() && i == b.len() {
        assert(a@ =~= a@.take(i as int));
        assert(b@ =~= b@.take(i as int));
        proof { lemma_bytes_less_irreflexive(a@); }
        (false, true)
    } else if i == a.len() {
        assert(a@.skip(i as int).len() == 0);
        (true, false)
    } else {
        assert(b@.skip(i as int).len() == 0);
        (false, false)
    }
}

/// A club's nation, as the UTF-8 bytes the divisions are grouped and
/// ordered by.
pub open spec fn nation_key(t: Team) -> Seq<u8> {
    encode_utf8(t.football_nation@)
}

/// Where key `k` goes into the sorted keys `sorted`.
pub open spec fn key_slot(sorted: Seq<Seq<u8>>, k: Seq<u8>) -> int {
    match first_index(sorted, |y: Seq<u8>| bytes_less(k, y)) {
        Some(i) => i,
        None => sorted.len() as int,
    }
}

/// The distinct nations of `teams`, in increasing byte order.
pub open spec fn nation_order(teams: Seq<Team>) -> Seq<Seq<u8>>
    decreases teams.len(),
{
    if teams.len() == 0 {
        Seq::empty()
    } else {
        let r = nation_order(teams.drop_last());
        let k = nation_key(teams.last());
        if r.contains(k) {
            r
        } else {
            r.insert(key_slot(r, k), k)
        }
    }
}

/// The nation order is strictly increasing and holds exactly the clubs'
/// nations.
pub proof fn lemma_nation_order(teams: Seq<Team>)
    ensures
        forall|i: int, j: int|
            0 <= i < j < nation_order(teams).len() ==> bytes_less(
                #[trigger] nation_order(teams)[i],
                #[trigger] nation_order(teams)[j],
            ),
        forall|t: int| 0 <= t < teams.len() ==> nation_order(teams).contains(nation_key(#[trigger] teams[t])),
        forall|i: int|
            0 <= i < nation_order(teams).len() ==> exists|t: int|
                0 <= t < teams.len() && nation_key(#[trigger] teams[t]) == #[trigger] nation_order(
                    teams,
                )[i],
    decreases teams.len(),
{
    if teams.len() > 0 {
        let init = teams.drop_last();
        lemma_nation_order(init);
        let r = nation_order(init);
        let k = nation_key(teams.last());
        assert forall|t: int| 0 <= t < init.len() implies init[t] == teams[t] by {}
        if !r.contains(k) {
            let pos = key_slot(r, k);
            crate::model::lemma_first_index(r, |y: Seq<u8>| bytes_less(k, y));
            let out = r.insert(pos, k);
            assert forall|i: int, j: int| 0 <= i < j < out.len() implies bytes_less(
                #[trigger] out[i],
                #[trigger] out[j],
            ) by {
                if j < pos {
                    assert(out[i] == r[i] && out[j] == r[j]);
                } else if j == pos {
                    assert(out[i] == r[i]);
                    lemma_bytes_less_total(r[i], k);
                    assert(!bytes_less(k, r[i]));
                    assert(r[i] != k);
                } else if i < pos {
                    assert(out[i] == r[i] && out[j] == r[j - 1]);
                    if i < j - 1 {
                    }
                } else if i == pos {
                    assert(out[j] == r[j - 1]);
                    assert(bytes_less(k, r[pos]));
                    if j - 1 > pos {
                        lemma_bytes_less_transitive(k, r[pos], r[j - 1]);
                    }
                } else {
                    assert(out[i] == r[i - 1] && out[j] == r[j - 1]);
                }
            }
            assert forall|t: int| 0 <= t < teams.len() implies out.contains(nation_key(#[trigger] teams[t])) by {
                if t < init.len() {
                    let w = choose|w: int| 0 <= w < r.len() && r[w] == nation_key(init[t]);
                    if w < pos {
                        assert(out[w] == r[w]);
                    } else {
                        assert(out[w + 1] == r[w]);
                    }
                } else {
                    assert(out[pos] == k);
                }
            }
            assert forall|i: int| 0 <= i < out.len() implies exists|t: int|
                0 <= t < teams.len() && nation_key(#[trigger] teams[t]) == #[trigger] out[i] by {
                if i < pos {
                    assert(out[i] == r[i]);
                    let t = choose|t: int| 0 <= t < init.len() && nation_key(#[trigger] init[t]) == r[i];
                    assert(teams[t] == init[t]);
                } else if i == pos {
                    assert(teams[teams.len() - 1] == teams.last());
                } else {
                    assert(out[i] == r[i - 1]);
                    let t = choose|t: int| 0 <= t < init.len() && nation_key(#[trigger] init[t]) == r[i - 1];
                    assert(teams[t] == init[t]);
                }
            }
        } else {
            assert forall|t: int| 0 <= t < teams.len() implies r.contains(nation_key(#[trigger] teams[t])) by {
                if t < init.len() {
                } else {
                    assert(teams[t] == teams.last());
                }
            }
            assert forall|i: int| 0 <= i < r.len() implies exists|t: int|
                0 <= t < teams.len() && nation_key(#[trigger] teams[t]) == #[trigger] r[i] by {
                let t = choose|t: int| 0 <= t < init.len() && nation_key(#[trigger] init[t]) == r[i];
                assert(teams[t] == init[t]);
            }
        }
    }
}


/// The nations of `teams` in increasing byte order, each given by the index
/// of a club of that nation.
pub fn nation_representatives(teams: &Vec<Team>) -> (reps: Vec<usize>)
    ensures
        reps@.len() == nation_order(teams@).len(),
        forall|i: int|
            0 <= i < reps@.len() ==> #[trigger] reps@[i] < teams@.len() && nation_key(
                teams@[reps@[i] as int],
            ) == nation_order(teams@)[i],
{
    let mut reps: Vec<usize> = Vec::new();
    let mut t: usize = 0;
    while t < teams.len()
        invariant
            t <= teams.len(),
            reps@.len() == nation_order(teams@.take(t as int)).len(),
            forall|i: int|
                0 <= i < reps@.len() ==> #[trigger] reps@[i] < teams@.len() && nation_key(
                    teams@[reps@[i] as int],
                ) == nation_order(teams@.take(t as int))[i],
        decreases teams.len() - t,
    {
        let ghost r = nation_order(teams@.take(t as int));
        assert(teams@.take(t + 1).drop_last() =~= teams@.take(t as int));
        assert(teams@.take(t + 1).last() == teams@[t as int]);
        let key: &[u8] = teams[t].football_nation.as_str().as_bytes();
        let ghost k = nation_key(teams@[t as int]);
        assert(key@ == k);
        proof { lemma_nation_order(teams@.take(t as int)); }
        let slot = find_key_slot(teams, &reps, key, Ghost(r));
        if let Some(pos) = slot {
            let ghost before = reps@;
            reps.insert(pos, t);
            assert(reps@ == before.insert(pos as int, t));
            assert(nation_order(teams@.take(t + 1)) == r.insert(pos as int, k));
            assert forall|i: int|
                0 <= i < reps@.len() implies #[trigger] reps@[i] < teams@.len() && nation_key(
                    teams@[reps@[i] as int],
                ) == nation_order(teams@.take(t + 1))[i] by {
                if i < pos {
                } else if i == pos {
                } else {
                    assert(reps@[i] == before[i - 1]);
                }
            }
        } else {
            assert(nation_order(teams@.take(t + 1)) == r);
        }
        t = t + 1;
    }
    assert(teams@.take(teams.len() as int) =~= teams@);
    reps
}

/// Where nation `key` goes among the nations `r` (held as club indices
/// `reps`), or `None` when it is already there.
fn find_key_slot(teams: &Vec<Team>, reps: &Vec<usize>, key: &[u8], Ghost(r): Ghost<Seq<Seq<u8>>>) -> (slot: Option<usize>)
    requires
        reps@.len() == r.len(),
        forall|i: int|
            0 <= i < reps@.len() ==> #[trigger] reps@[i] < teams@.len() && nation_key(
                teams@[reps@[i] as int],
            ) == r[i],
        forall|i: int, j: int| 0 <= i < j < r.len() ==> bytes_less(#[trigger] r[i], #[trigger] r[j]),
    ensures
        slot is None <==> r.contains(key@),
        slot matches Some(p) ==> p == key_slot(r, key@) && p <= r.len(),
{
    let ghost k = key@;
    let mut pos: usize = 0;
    while pos < reps.len()
        invariant
            pos <= reps@.len(),
            reps@.len() == r.len(),
            key@ == k,
            forall|i: int|
                0 <= i < reps@.len() ==> #[trigger] reps@[i] < teams@.len() && nation_key(
                    teams@[reps@[i] as int],
                ) == r[i],
            forall|i: int, j: int| 0 <= i < j < r.len() ==> bytes_less(#[trigger] r[i], #[trigger] r[j]),
            first_index(r.take(pos as int), |y: Seq<u8>| bytes_less(k, y)) is None,
            forall|i: int| 0 <= i < pos ==> r[i] != k,
        decreases reps.len() - pos,
    {
        let other: &[u8] = teams[reps[pos]].football_nation.as_str().as_bytes();
        assert(other@ == r[pos as int]);
        let (less, equal) = compare_bytes(key, other);
        assert(r.take(pos + 1).drop_last() =~= r.take(pos as int));
        if equal {
            assert(r[pos as int] == k);
            return None;
        }
        if less {
            assert(first_index(r.take(pos + 1), |y: Seq<u8>| bytes_less(k, y)) == Some(pos as int));
            proof {
                crate::model::lemma_first_index_prefix(r, |y: Seq<u8>| bytes_less(k, y), pos as int + 1);
                assert forall|i: int| 0 <= i < r.len() implies r[i] != k by {
                    if i > pos && r[i] == k {
                        assert(bytes_less(r[pos as int], r[i]));
                        lemma_bytes_less_transitive(k, r[pos as int], r[i]);
                        lemma_bytes_less_irreflexive(k);
                    }
                }
            }
            return Some(pos);
        }
        pos = pos + 1;
    }
    assert(r.take(pos as int) =~= r);
    Some(pos)
}


/// The clubs (indices) of nation `key`, in world order.
pub open spec fn members_of(teams: Seq<Team>, key: Seq<u8>) -> Seq<int>
    decreases teams.len(),
{
    if teams.len() == 0 {
        Seq::empty()
    } else {
        let r = members_of(teams.drop_last(), key);
        if nation_key(teams.last()) == key {
            r.push(teams.len() - 1)
        } else {
            r
        }
    }
}

/// The most clubs in one division.
pub const DIVISION_SIZE: usize = 20;

/// `s` cut into consecutive runs of 20 (the last may be shorter).
pub open spec fn chunks20(s: Seq<int>) -> Seq<Seq<int>>
    decreases s.len(),
{
    if s.len() == 0 {
        Seq::empty()
    } else if s.len() <= DIVISION_SIZE {
        seq![s]
    } else {
        seq![s.take(DIVISION_SIZE as int)] + chunks20(s.skip(DIVISION_SIZE as int))
    }
}

/// Every division holds between 1 and 20 clubs, and division `k` holds the
/// `k`-th run of 20 of the ordered clubs.
pub proof fn lemma_chunks20(s: Seq<int>)
    ensures
        forall|k: int|
            0 <= k < chunks20(s).len() ==> 1 <= (#[trigger] chunks20(s)[k]).len() <= DIVISION_SIZE
                && chunks20(s)[k] == s.subrange(
                DIVISION_SIZE * k,
                if s.len() < DIVISION_SIZE * (k + 1) {
                    s.len() as int
                } else {
                    DIVISION_SIZE * (k + 1)
                },
            ),
        chunks20(s).len() * DIVISION_SIZE >= s.len(),
        s.len() > 0 ==> (chunks20(s).len() - 1) * DIVISION_SIZE < s.len(),
    decreases s.len(),
{
    if s.len() > DIVISION_SIZE {
        let rest = s.skip(DIVISION_SIZE as int);
        lemma_chunks20(rest);
        let c = chunks20(s);
        assert forall|k: int| 0 <= k < c.len() implies 1 <= (#[trigger] c[k]).len() <= DIVISION_SIZE
            && c[k] == s.subrange(
            DIVISION_SIZE * k,
            if s.len() < DIVISION_SIZE * (k + 1) {
                s.len() as int
            } else {
                DIVISION_SIZE * (k + 1)
            },
        ) by {
            if k == 0 {
                assert(c[0] == s.take(DIVISION_SIZE as int));
                assert(s.take(DIVISION_SIZE as int) =~= s.subrange(0, DIVISION_SIZE as int));
            } else {
                assert(c[k] == chunks20(rest)[k - 1]);
                let hi = if rest.len() < DIVISION_SIZE * k {
                    rest.len() as int
                } else {
                    DIVISION_SIZE * k
                };
                assert(rest.subrange(DIVISION_SIZE * (k - 1), hi) =~= s.subrange(
                    DIVISION_SIZE * k,
                    hi + DIVISION_SIZE,
                ));
            }
        }
    } else if s.len() > 0 {
        assert(s.subrange(0, s.len() as int) =~= s);
    }
}

/// A planned league division: its nation (as bytes), its number within the
/// nation (from 1) and its clubs (indices).
pub struct DivisionModel {
    pub nation: Seq<u8>,
    pub number: int,
    pub teams: Seq<int>,
}

/// Nation `key`'s divisions: its clubs, strongest first by mean squad
/// rating (equal means in world order), in runs of 20.
pub open spec fn nation_divisions(teams: Seq<Team>, players: Seq<Player>, key: Seq<u8>) -> Seq<Seq<int>> {
    chunks20(stable_sort(members_of(teams, key), goes_before(spec_strengths(teams, players), true)))
}

/// The divisions of the nations `keys`, nation by nation.
pub open spec fn division_plan(keys: Seq<Seq<u8>>, teams: Seq<Team>, players: Seq<Player>) -> Seq<DivisionModel>
    decreases keys.len(),
{
    if keys.len() == 0 {
        Seq::empty()
    } else {
        let key = keys.last();
        let ch = nation_divisions(teams, players, key);
        division_plan(keys.drop_last(), teams, players) + Seq::new(
            ch.len(),
            |k: int| DivisionModel { nation: key, number: k + 1, teams: ch[k] },
        )
    }
}

proof fn lemma_members_of(teams: Seq<Team>, key: Seq<u8>)
    ensures
        forall|i: int|
            0 <= i < members_of(teams, key).len() ==> 0 <= #[trigger] members_of(teams, key)[i]
                < teams.len() && nation_key(teams[members_of(teams, key)[i]]) == key,
    decreases teams.len(),
{
    if teams.len() > 0 {
        let init = teams.drop_last();
        lemma_members_of(init, key);
        let r = members_of(init, key);
        assert forall|i: int|
            0 <= i < members_of(teams, key).len() implies 0 <= #[trigger] members_of(teams, key)[i]
                < teams.len() && nation_key(teams[members_of(teams, key)[i]]) == key by {
            if i < r.len() {
                assert(members_of(teams, key)[i] == r[i]);
                assert(init[r[i]] == teams[r[i]]);
            } else {
                assert(members_of(teams, key)[i] == teams.len() - 1);
                assert(teams[teams.len() - 1] == teams.last());
            }
        }
    }
}

/// A nation's divisions: its clubs, all of that nation and each exactly
/// once, strongest first, in divisions of 1 to 20 clubs (division `k` takes
/// the `k`-th run of 20).
pub proof fn lemma_nation_divisions(teams: Seq<Team>, players: Seq<Player>, key: Seq<u8>)
    ensures
        ({
            let st = spec_strengths(teams, players);
            let m = members_of(teams, key);
            let sorted = stable_sort(m, goes_before(st, true));
            &&& sorted.to_multiset() == m.to_multiset()
            &&& forall|i: int| 0 <= i < sorted.len() ==> nation_key(teams[#[trigger] sorted[i]]) == key
            &&& forall|i: int, j: int|
                0 <= i < j < sorted.len() ==> !mean_less(
                    st[#[trigger] sorted[i]],
                    st[#[trigger] sorted[j]],
                )
            &&& nation_divisions(teams, players, key) == chunks20(sorted)
            &&& forall|k: int|
                0 <= k < chunks20(sorted).len() ==> 1 <= (#[trigger] chunks20(sorted)[k]).len()
                    <= DIVISION_SIZE
        }),
{
    let st = spec_strengths(teams, players);
    let m = members_of(teams, key);
    lemma_members_of(teams, key);
    assert forall|i: int| #![trigger st[i]] 0 <= i < st.len() implies st[i].1 >= 0 by {
        lemma_strength_bounds(players, teams[i].id@);
    }
    lemma_strength_sort(m, st, true);
    lemma_stable_sort_elements(m, goes_before(st, true));
    let sorted = stable_sort(m, goes_before(st, true));
    assert forall|i: int| 0 <= i < sorted.len() implies nation_key(teams[#[trigger] sorted[i]]) == key by {
        assert(m.contains(sorted[i]));
    }
    assert forall|i: int, j: int| 0 <= i < j < sorted.len() implies !mean_less(
        st[#[trigger] sorted[i]],
        st[#[trigger] sorted[j]],
    ) by {
        assert(!goes_before(st, true)(sorted[j], sorted[i]));
    }
    lemma_chunks20(sorted);
}

/// The world's league divisions: one league per nation (nations in byte
/// order), split into divisions of up to 20 clubs ordered by strength.
pub open spec fn foundation_plan(teams: Seq<Team>, players: Seq<Player>) -> Seq<DivisionModel> {
    division_plan(nation_order(teams), teams, players)
}

/// The character of decimal digit `d`.
pub open spec fn digit_char(d: int) -> char {
    if d == 0 {
        '0'
    } else if d == 1 {
        '1'
    } else if d == 2 {
        '2'
    } else if d == 3 {
        '3'
    } else if d == 4 {
        '4'
    } else if d == 5 {
        '5'
    } else if d == 6 {
        '6'
    } else if d == 7 {
        '7'
    } else if d == 8 {
        '8'
    } else {
        '9'
    }
}

/// The decimal digits of `n`.
pub open spec fn decimal(n: nat) -> Seq<char>
    decreases n,
{
    if n < 10 {
        seq![digit_char(n as int)]
    } else {
        decimal(n / 10).push(digit_char((n % 10) as int))
    }
}

/// The one-character text of decimal digit `d`.
fn digit_text(d: usize) -> (s: &'static str)
    requires
        d < 10,
    ensures
        s@ == seq![digit_char(d as int)],
{
    if d == 0 {
        proof { reveal_strlit("0"); }
        "0"
    } else if d == 1 {
        proof { reveal_strlit("1"); }
        "1"
    } else if d == 2 {
        proof { reveal_strlit("2"); }
        "2"
    } else if d == 3 {
        proof { reveal_strlit("3"); }
        "3"
    } else if d == 4 {
        proof { reveal_strlit("4"); }
        "4"
    } else if d == 5 {
        proof { reveal_strlit("5"); }
        "5"
    } else if d == 6 {
        proof { reveal_strlit("6"); }
        "6"
    } else if d == 7 {
        proof { reveal_strlit("7"); }
        "7"
    } else if d == 8 {
        proof { reveal_strlit("8"); }
        "8"
    } else {
        proof { reveal_strlit("9"); }
        "9"
    }
}

/// The decimal digits of `n`, without sign or padding.
pub fn decimal_text(n: usize) -> (s: String)
    ensures
        s@ == decimal(n as nat),
    decreases n,
{
    if n < 10 {
        let s = String::new().concat(digit_text(n));
        assert(s@ =~= seq![digit_char(n as int)]);
        s
    } else {
        let s = decimal_text(n / 10).concat(digit_text(n % 10));
        assert(s@ =~= decimal((n / 10) as nat).push(digit_char((n % 10) as int)));
        s
    }
}

/// A planned league division.
#[derive(Clone, Debug)]
pub struct DivisionPlan {
    /// `"<nation>-div<number>"`.
    pub id: String,
    /// `"<nation> Division <number>"`.
    pub name: String,
    pub nation: String,
    /// The division's clubs, strongest first.
    pub team_ids: Vec<String>,
}

/// The clubs of the nation whose bytes are `key`, in world order.
fn members(teams: &Vec<Team>, key: &[u8]) -> (m: Vec<usize>)
    ensures
        m@.map_values(|i: usize| i as int) == members_of(teams@, key@),
        forall|j: int| 0 <= j < m@.len() ==> #[trigger] m@[j] < teams@.len(),
{
    let mut m: Vec<usize> = Vec::new();
    let mut t: usize = 0;
    while t < teams.len()
        invariant
            t <= teams.len(),
            m@.map_values(|i: usize| i as int) == members_of(teams@.take(t as int), key@),
            forall|j: int| 0 <= j < m@.len() ==> #[trigger] m@[j] < t,
        decreases teams.len() - t,
    {
        assert(teams@.take(t + 1).drop_last() =~= teams@.take(t as int));
        assert(teams@.take(t + 1).last() == teams@[t as int]);
        let (_, same) = compare_bytes(teams[t].football_nation.as_str().as_bytes(), key);
        if same {
            let ghost before = m@.map_values(|i: usize| i as int);
            m.push(t);
            assert(m@.map_values(|i: usize| i as int) =~= before.push(t as int));
        }
        t = t + 1;
    }
    assert(teams@.take(teams.len() as int) =~= teams@);
    m
}

/// The plan for one division.
pub open spec fn plan_matches(d: DivisionPlan, m: DivisionModel, teams: Seq<Team>) -> bool {
    &&& encode_utf8(d.nation@) == m.nation
    &&& d.id@ == d.nation@ + "-div"@ + decimal(m.number as nat)
    &&& d.name@ == d.nation@ + " Division "@ + decimal(m.number as nat)
    &&& d.team_ids@.len() == m.teams.len()
    &&& forall|j: int| 0 <= j < m.teams.len() ==> (#[trigger] d.team_ids@[j])@ == teams[m.teams[j]].id@
}

/// Plan the world's club competitions: one league per nation, split into
/// divisions of up to 20 clubs ordered by squad strength.
pub fn foundation_divisions(teams: &Vec<Team>, players: &Vec<Player>) -> (out: Vec<DivisionPlan>)
    requires
        players@.len() <= u32::MAX,
    ensures
        out@.len() == foundation_plan(teams@, players@).len(),
        forall|i: int|
            0 <= i < out@.len() ==> plan_matches(
                #[trigger] out@[i],
                foundation_plan(teams@, players@)[i],
                teams@,
            ),
{
    let st = team_strengths(teams, players);
    assert(strengths_of(st@) =~= spec_strengths(teams@, players@));
    let reps = nation_representatives(teams);
    let ghost keys = nation_order(teams@);
    let mut out: Vec<DivisionPlan> = Vec::new();
    let mut r: usize = 0;
    while r < reps.len()
        invariant
            r <= reps@.len() == keys.len(),
            keys == nation_order(teams@),
            bounded(st@),
            st@.len() == teams@.len(),
            strengths_of(st@) == spec_strengths(teams@, players@),
            forall|i: int|
                0 <= i < reps@.len() ==> #[trigger] reps@[i] < teams@.len() && nation_key(
                    teams@[reps@[i] as int],
                ) == keys[i],
            out@.len() == division_plan(keys.take(r as int), teams@, players@).len(),
            forall|i: int|
                0 <= i < out@.len() ==> plan_matches(
                    #[trigger] out@[i],
                    division_plan(keys.take(r as int), teams@, players@)[i],
                    teams@,
                ),
        decreases reps.len() - r,
    {
        let nation: &String = &teams[reps[r]].football_nation;
        let key: &[u8] = nation.as_str().as_bytes();
        assert(key@ == keys[r as int]);
        let mem = members(teams, key);
        let sorted = sort_by_strength(&mem, &st, true);
        let ghost s = sorted@.map_values(|i: usize| i as int);
        let ghost ch = nation_divisions(teams@, players@, keys[r as int]);
        assert(ch == chunks20(s));
        let ghost prefix = division_plan(keys.take(r as int), teams@, players@);
        assert(keys.take(r + 1).drop_last() =~= keys.take(r as int));
        assert(keys.take(r + 1).last() == keys[r as int]);
        let ghost base = out@.len();
        let mut start: usize = 0;
        let mut div: usize = 0;
        assert(s.skip(0) =~= s);
        while start < sorted.len()
            invariant
                start <= sorted@.len(),
                s == sorted@.map_values(|i: usize| i as int),
                forall|j: int| 0 <= j < sorted@.len() ==> #[trigger] sorted@[j] < teams@.len(),
                div <= start,
                base == prefix.len(),
                out@.len() == base + div,
                encode_utf8(nation@) == keys[r as int],
                ch == chunks20(s),
                ch == Seq::new(div as nat, |k: int| ch[k]) + chunks20(s.skip(start as int)),
                forall|i: int|
                    0 <= i < base ==> plan_matches(#[trigger] out@[i], prefix[i], teams@),
                forall|k: int|
                    0 <= k < div ==> plan_matches(
                        #[trigger] out@[base + k],
                        DivisionModel { nation: keys[r as int], number: k + 1, teams: ch[k] },
                        teams@,
                    ),
            decreases sorted.len() - start,
        {
            let end: usize = if sorted.len() - start <= DIVISION_SIZE {
                sorted.len()
            } else {
                start + DIVISION_SIZE
            };
            let ghost rest = s.skip(start as int);
            assert(chunks20(rest)[0] == s.subrange(start as int, end as int)) by {
                if rest.len() <= DIVISION_SIZE {
                    assert(rest =~= s.subrange(start as int, end as int));
                } else {
                    assert(rest.take(DIVISION_SIZE as int) =~= s.subrange(start as int, end as int));
                }
            }
            let mut ids: Vec<String> = Vec::new();
            let mut j: usize = start;
            while j < end
                invariant
                    start <= j <= end <= sorted@.len(),
                    s == sorted@.map_values(|i: usize| i as int),
                    forall|q: int| 0 <= q < sorted@.len() ==> #[trigger] sorted@[q] < teams@.len(),
                    ids@.len() == j - start,
                    forall|q: int|
                        0 <= q < j - start ==> (#[trigger] ids@[q])@ == teams@[s[start + q]].id@,
                decreases end - j,
            {
                ids.push(teams[sorted[j]].id.clone());
                j = j + 1;
            }
            let number = decimal_text(div + 1);
            let plan = DivisionPlan {
                id: nation.clone().concat("-div").concat(number.as_str()),
                name: nation.clone().concat(" Division ").concat(number.as_str()),
                nation: nation.clone(),
                team_ids: ids,
            };
            assert(plan_matches(
                plan,
                DivisionModel {
                    nation: keys[r as int],
                    number: div + 1,
                    teams: ch[div as int],
                },
                teams@,
            )) by {
                assert(ch[div as int] == chunks20(rest)[0]);
            }
            out.push(plan);
            proof {
                if rest.len() <= DIVISION_SIZE {
                    assert(s.skip(end as int).len() == 0);
                    assert(chunks20(rest) =~= seq![rest]);
                } else {
                    assert(rest.skip(DIVISION_SIZE as int) =~= s.skip(end as int));
                }
                assert(ch =~= Seq::new((div + 1) as nat, |k: int| ch[k]) + chunks20(s.skip(end as int)));
            }
            start = end;
            div = div + 1;
        }
        proof {
            assert(s.skip(start as int).len() == 0);
            assert(ch =~= Seq::new(div as nat, |k: int| ch[k]));
            let add = Seq::new(
                ch.len(),
                |k: int| DivisionModel { nation: keys[r as int], number: k + 1, teams: ch[k] },
            );
            assert(division_plan(keys.take(r + 1), teams@, players@) == prefix + add);
            assert forall|i: int| 0 <= i < out@.len() implies plan_matches(
                #[trigger] out@[i],
                division_plan(keys.take(r + 1), teams@, players@)[i],
                teams@,
            ) by {
                if i < base {
                    assert((prefix + add)[i] == prefix[i]);
                } else {
                    assert((prefix + add)[i] == add[i - base]);
                    let k = i - base;
                    assert(0 <= k < div);
                    assert(plan_matches(
                        out@[base + k],
                        DivisionModel { nation: keys[r as int], number: k + 1, teams: ch[k] },
                        teams@,
                    ));
                    assert(base + k == i);
                    assert(add[i - base] == DivisionModel {
                        nation: keys[r as int],
                        number: i - base + 1,
                        teams: ch[i - base],
                    });
                }
            }
        }
        r = r + 1;
    }
    assert(keys.take(reps.len() as int) =~= keys);
    out
}

} // verus!
