//! Baseline agents for the matchday (lineup and tactics) experiment, and the
//! slot-by-slot lineup builders they use.
//!
//! Candidates are numbered `0..n` in squad order.  Where a selection depends
//! on a rating, the caller supplies for each slot an integer key per
//! candidate that orders the candidates exactly as their ratings do.

use crate::model::{PlayStyle, Position};
use crate::rng::{after_draw, Draw, EpisodeRng};
use vstd::prelude::*;

verus! {

/// Index (into `pool`) of the last best candidate of `pool` (non-empty)
/// under `key`: later candidates win ties.
pub open spec fn last_best(pool: Seq<int>, key: Seq<i128>) -> int
    decreases pool.len(),
{
    if pool.len() <= 1 {
        0
    } else {
        let b = last_best(pool.drop_last(), key);
        if key[pool.last()] >= key[pool[b]] {
            pool.len() - 1
        } else {
            b
        }
    }
}

/// Slot by slot (`keys[s]` ranks the candidates for slot `s`), the best
/// remaining candidate fills the slot and leaves the pool.
pub open spec fn greedy_xi(pool: Seq<int>, keys: Seq<Seq<i128>>) -> Seq<int>
    decreases keys.len(),
{
    if keys.len() == 0 || pool.len() == 0 {
        Seq::empty()
    } else {
        let b = last_best(pool, keys[0]);
        seq![pool[b]] + greedy_xi(pool.remove(b), keys.drop_first())
    }
}

/// The first `n` candidate numbers.
pub open spec fn candidates(n: int) -> Seq<int> {
    Seq::new(n as nat, |i: int| i)
}

/// The first 11 slots.
pub open spec fn eleven<T>(s: Seq<T>) -> Seq<T> {
    if s.len() <= 11 {
        s
    } else {
        s.take(11)
    }
}

proof fn lemma_last_best(pool: Seq<int>, key: Seq<i128>)
    requires
        pool.len() > 0,
        forall|j: int| 0 <= j < pool.len() ==> 0 <= #[trigger] pool[j] < key.len(),
    ensures
        0 <= last_best(pool, key) < pool.len(),
        forall|j: int|
            0 <= j < pool.len() ==> key[#[trigger] pool[j]] <= key[pool[last_best(pool, key)]],
        forall|j: int|
            last_best(pool, key) < j < pool.len() ==> key[#[trigger] pool[j]] < key[pool[last_best(
                pool,
                key,
            )]],
    decreases pool.len(),
{
    if pool.len() > 1 {
        lemma_last_best(pool.drop_last(), key);
        assert forall|j: int| 0 <= j < pool.len() - 1 implies pool.drop_last()[j] == pool[j] by {}
    }
}

proof fn lemma_last_best_range(pool: Seq<int>, key: Seq<i128>)
    requires
        pool.len() > 0,
    ensures
        0 <= last_best(pool, key) < pool.len(),
    decreases pool.len(),
{
    if pool.len() > 1 {
        lemma_last_best_range(pool.drop_last(), key);
    }
}

/// The greedy XI fills one slot per candidate while both last, and never
/// picks a candidate twice or one outside the pool.
pub proof fn lemma_greedy_xi(pool: Seq<int>, keys: Seq<Seq<i128>>)
    requires
        pool.no_duplicates(),
    ensures
        greedy_xi(pool, keys).len() == if keys.len() <= pool.len() {
            keys.len()
        } else {
            pool.len()
        },
        greedy_xi(pool, keys).no_duplicates(),
        forall|k: int| 0 <= k < greedy_xi(pool, keys).len() ==> pool.contains(#[trigger] greedy_xi(pool, keys)[k]),
    decreases keys.len(),
{
    if keys.len() > 0 && pool.len() > 0 {
        lemma_last_best_range(pool, keys[0]);
        let b = last_best(pool, keys[0]);
        let rest_pool = pool.remove(b);
        assert forall|i: int, j: int| 0 <= i < j < rest_pool.len() implies rest_pool[i] != rest_pool[j] by {
            let oi = if i < b { i } else { i + 1 };
            let oj = if j < b { j } else { j + 1 };
            assert(rest_pool[i] == pool[oi] && rest_pool[j] == pool[oj]);
        }
        lemma_greedy_xi(rest_pool, keys.drop_first());
        let rest = greedy_xi(rest_pool, keys.drop_first());
        let out = seq![pool[b]] + rest;
        assert forall|k: int| 0 <= k < rest.len() implies rest[k] != pool[b] && pool.contains(#[trigger] rest[k]) by {
            assert(rest_pool.contains(rest[k]));
            let w = choose|w: int| 0 <= w < rest_pool.len() && rest_pool[w] == rest[k];
            let ow = if w < b { w } else { w + 1 };
            assert(rest_pool[w] == pool[ow]);
            assert(ow != b);
        }
        assert forall|i: int, j: int| 0 <= i < j < out.len() implies out[i] != out[j] by {
            if i == 0 {
                assert(out[j] == rest[j - 1]);
            } else {
                assert(out[i] == rest[i - 1] && out[j] == rest[j - 1]);
            }
        }
        assert forall|k: int| 0 <= k < out.len() implies pool.contains(#[trigger] out[k]) by {
            if k > 0 {
                assert(out[k] == rest[k - 1]);
            }
        }
    }
}

/// Index into `pool` of the last best candidate under `key`.
fn pick_last_best(pool: &Vec<usize>, key: &Vec<i128>) -> (b: usize)
    requires
        pool@.len() > 0,
        forall|j: int| 0 <= j < pool@.len() ==> #[trigger] pool@[j] < key@.len(),
    ensures
        b == last_best(pool@.map_values(|i: usize| i as int), key@),
        b < pool@.len(),
{
    let ghost p = pool@.map_values(|i: usize| i as int);
    proof { lemma_last_best(p, key@); }
    let mut best: usize = 0;
    let mut i: usize = 1;
    while i < pool.len()
        invariant
            1 <= i <= pool.len(),
            p == pool@.map_values(|i: usize| i as int),
            forall|j: int| 0 <= j < pool@.len() ==> #[trigger] pool@[j] < key@.len(),
            best == last_best(p.take(i as int), key@),
            best < i,
        decreases pool.len() - i,
    {
        assert(p.take(i + 1).drop_last() =~= p.take(i as int));
        if key[pool[i]] >= key[pool[best]] {
            best = i;
        }
        i = i + 1;
    }
    assert(p.take(pool.len() as int) =~= p);
    best
}

/// Build a slot-aligned XI: for each of the first 11 slots, the best
/// remaining candidate under that slot's keys (the last one among equals).
/// Returns candidate numbers; entry `i` plays slot `i`.
pub fn build_xi(n: usize, keys: &Vec<Vec<i128>>) -> (xi: Vec<usize>)
    requires
        forall|s: int| 0 <= s < keys@.len() ==> (#[trigger] keys@[s])@.len() == n,
    ensures
        xi@.map_values(|i: usize| i as int) == greedy_xi(
            candidates(n as int),
            eleven(keys@.map_values(|k: Vec<i128>| k@)),
        ),
{
    let ghost ks = eleven(keys@.map_values(|k: Vec<i128>| k@));
    let mut pool: Vec<usize> = Vec::new();
    let mut c: usize = 0;
    while c < n
        invariant
            c <= n,
            pool@.len() == c,
            forall|j: int| 0 <= j < c ==> #[trigger] pool@[j] == j,
        decreases n - c,
    {
        pool.push(c);
        c = c + 1;
    }
    assert(pool@.map_values(|i: usize| i as int) =~= candidates(n as int));
    let m: usize = if keys.len() <= 11 {
        keys.len()
    } else {
        11
    };
    let mut xi: Vec<usize> = Vec::new();
    let mut k: usize = 0;
    assert(ks.skip(0) =~= ks);
    assert(xi@.map_values(|i: usize| i as int) + greedy_xi(candidates(n as int), ks) =~= greedy_xi(
        candidates(n as int),
        ks,
    ));
    while k < m
        invariant
            k <= m,
            m == ks.len(),
            ks == eleven(keys@.map_values(|k: Vec<i128>| k@)),
            forall|s: int| 0 <= s < keys@.len() ==> (#[trigger] keys@[s])@.len() == n,
            forall|j: int| 0 <= j < pool@.len() ==> #[trigger] pool@[j] < n,
            greedy_xi(candidates(n as int), ks) == xi@.map_values(|i: usize| i as int) + greedy_xi(
                pool@.map_values(|i: usize| i as int),
                ks.skip(k as int),
            ),
        decreases m - k,
    {
        assert(ks[k as int] == keys@[k as int]@);
        assert(ks.skip(k as int).drop_first() =~= ks.skip(k + 1));
        assert(ks.skip(k as int)[0] == ks[k as int]);
        if pool.len() > 0 {
            let b = pick_last_best(&pool, &keys[k]);
            let ghost p = pool@.map_values(|i: usize| i as int);
            let chosen = pool.remove(b);
            assert(pool@.map_values(|i: usize| i as int) =~= p.remove(b as int));
            let ghost before = xi@.map_values(|i: usize| i as int);
            xi.push(chosen);
            assert(xi@.map_values(|i: usize| i as int) =~= before + seq![chosen as int]);
        } else {
            assert(pool@.map_values(|i: usize| i as int).len() == 0);
        }
        k = k + 1;
    }
    assert(xi@.map_values(|i: usize| i as int) + greedy_xi(
        pool@.map_values(|i: usize| i as int),
        ks.skip(m as int),
    ) =~= xi@.map_values(|i: usize| i as int));
    xi
}

/// Index into `pool` of the first candidate of group `slot`, else the first
/// candidate.
pub open spec fn group_pick(pool: Seq<int>, groups: Seq<Position>, slot: Position) -> int {
    match crate::model::first_index(pool, |c: int| groups[c] == slot) {
        Some(i) => i,
        None => 0,
    }
}

/// Slot by slot, the first remaining candidate of the slot's position group
/// fills it, else the first remaining candidate.
pub open spec fn group_fill(pool: Seq<int>, groups: Seq<Position>, slots: Seq<Position>) -> Seq<int>
    decreases slots.len(),
{
    if slots.len() == 0 || pool.len() == 0 {
        Seq::empty()
    } else {
        let b = group_pick(pool, groups, slots[0]);
        seq![pool[b]] + group_fill(pool.remove(b), groups, slots.drop_first())
    }
}

/// A candidate of group `slot`.
pub open spec fn of_group(groups: Seq<Position>, slot: Position) -> spec_fn(int) -> bool {
    |c: int| groups[c] == slot
}

/// Index into `pool` of the first candidate of group `slot`, else 0.
fn pick_of_group(pool: &Vec<usize>, groups: &Vec<Position>, slot: Position) -> (b: usize)
    requires
        pool@.len() > 0,
        forall|j: int| 0 <= j < pool@.len() ==> #[trigger] pool@[j] < groups@.len(),
    ensures
        b == group_pick(pool@.map_values(|i: usize| i as int), groups@, slot),
        b < pool@.len(),
{
    let ghost p = pool@.map_values(|i: usize| i as int);
    assert(of_group(groups@, slot) == (|c: int| groups@[c] == slot));
    let mut i: usize = 0;
    while i < pool.len()
        invariant
            i <= pool.len(),
            p == pool@.map_values(|i: usize| i as int),
            forall|j: int| 0 <= j < pool@.len() ==> #[trigger] pool@[j] < groups@.len(),
            crate::model::first_index(p.take(i as int), of_group(groups@, slot)) is None,
        decreases pool.len() - i,
    {
        assert(p.take(i + 1).drop_last() =~= p.take(i as int));
        if groups[pool[i]] == slot {
            assert(crate::model::first_index(p.take(i + 1), of_group(groups@, slot)) == Some(i as int));
            proof { crate::model::lemma_first_index_prefix(p, of_group(groups@, slot), i as int + 1); }
            return i;
        }
        i = i + 1;
    }
    assert(p.take(pool.len() as int) =~= p);
    0
}

/// Fill the first 11 slots from `order` (candidate numbers, e.g. shuffled),
/// preferring for each slot the first remaining candidate of its group
/// (`groups[c]` is candidate `c`'s group), otherwise any remaining one.
pub fn fill_by_group(order: &Vec<usize>, groups: &Vec<Position>, slots: &[Position]) -> (xi: Vec<usize>)
    requires
        forall|j: int| 0 <= j < order@.len() ==> #[trigger] order@[j] < groups@.len(),
    ensures
        xi@.map_values(|i: usize| i as int) == group_fill(
            order@.map_values(|i: usize| i as int),
            groups@,
            eleven(slots@),
        ),
{
    let ghost ss = eleven(slots@);
    let ghost p0 = order@.map_values(|i: usize| i as int);
    let mut pool: Vec<usize> = order.clone();
    let m: usize = if slots.len() <= 11 {
        slots.len()
    } else {
        11
    };
    let mut xi: Vec<usize> = Vec::new();
    let mut k: usize = 0;
    assert(ss.skip(0) =~= ss);
    assert(xi@.map_values(|i: usize| i as int) + group_fill(p0, groups@, ss) =~= group_fill(
        p0,
        groups@,
        ss,
    ));
    assert(pool@ == order@);
    while k < m
        invariant
            k <= m,
            m == ss.len(),
            ss == eleven(slots@),
            forall|j: int| 0 <= j < pool@.len() ==> #[trigger] pool@[j] < groups@.len(),
            group_fill(p0, groups@, ss) == xi@.map_values(|i: usize| i as int) + group_fill(
                pool@.map_values(|i: usize| i as int),
                groups@,
                ss.skip(k as int),
            ),
        decreases m - k,
    {
        assert(ss[k as int] == slots@[k as int]);
        assert(ss.skip(k as int).drop_first() =~= ss.skip(k + 1));
        assert(ss.skip(k as int)[0] == ss[k as int]);
        if pool.len() > 0 {
            let b = pick_of_group(&pool, groups, slots[k]);
            let ghost p = pool@.map_values(|i: usize| i as int);
            let chosen = pool.remove(b);
            assert(pool@.map_values(|i: usize| i as int) =~= p.remove(b as int));
            let ghost before = xi@.map_values(|i: usize| i as int);
            xi.push(chosen);
            assert(xi@.map_values(|i: usize| i as int) =~= before + seq![chosen as int]);
        } else {
            assert(pool@.map_values(|i: usize| i as int).len() == 0);
        }
        k = k + 1;
    }
    assert(xi@.map_values(|i: usize| i as int) + group_fill(
        pool@.map_values(|i: usize| i as int),
        groups@,
        ss.skip(m as int),
    ) =~= xi@.map_values(|i: usize| i as int));
    xi
}

/// Greedy "best XI": maximise effective slot rating, but bench badly
/// fatigued players in favour of any fresher alternative.
pub struct BestXIAgent {
    /// Players below this condition (0-100) are penalised in selection.
    pub condition_min: u8,
}

impl Default for BestXIAgent {
    fn default() -> (a: Self)
        ensures
            a.condition_min == 0,
    {
        BestXIAgent { condition_min: 0 }
    }
}

impl BestXIAgent {
    pub fn new(condition_min: u8) -> (a: Self)
        ensures
            a.condition_min == condition_min,
    {
        Self { condition_min }
    }

    pub fn name(&self) -> (n: &'static str)
        ensures
            n@ == "BestXI"@,
    {
        "BestXI"
    }

    /// Is a player of this condition badly fatigued (below `condition_min`)?
    pub fn penalised(&self, condition: u8) -> (b: bool)
        ensures
            b == (condition < self.condition_min),
    {
        condition < self.condition_min
    }

    /// The selection key of a player of `condition` whose slot rating has
    /// order key `rating`: fresh players rank by rating above every badly
    /// fatigued one, so a fatigued player is benched for any fresher
    /// alternative.
    pub fn selection_key(&self, condition: u8, rating: i64) -> (k: i128)
        ensures
            k == spec_selection_key(self.condition_min, condition, rating),
    {
        if self.penalised(condition) {
            rating as i128
        } else {
            rating as i128 + 0x1_0000_0000_0000_0000i128
        }
    }
}

/// Fresh players (condition at least `condition_min`) keep their rating key
/// lifted by 2^64, above every fatigued player's.
pub open spec fn spec_selection_key(condition_min: u8, condition: u8, rating: i64) -> i128 {
    if condition < condition_min {
        rating as i128
    } else {
        (rating + 0x1_0000_0000_0000_0000) as i128
    }
}

/// Any fresh player's selection key is above any fatigued player's, and
/// among players alike in freshness the rating key decides.
pub proof fn lemma_fresh_first(condition_min: u8, c1: u8, r1: i64, c2: u8, r2: i64)
    ensures
        c1 >= condition_min && c2 < condition_min ==> spec_selection_key(condition_min, c1, r1)
            > spec_selection_key(condition_min, c2, r2),
        (c1 >= condition_min) == (c2 >= condition_min) ==> (spec_selection_key(
            condition_min,
            c1,
            r1,
        ) < spec_selection_key(condition_min, c2, r2) <==> r1 < r2),
{
}

/// Antagonist baseline: pick the worst player for every slot.
pub struct WorstXIAgent;

impl WorstXIAgent {
    pub fn name(&self) -> (n: &'static str)
        ensures
            n@ == "WorstXI"@,
    {
        "WorstXI"
    }
}

/// Random baseline: a uniformly random valid XI.
pub struct RandomXIAgent;

/// The candidate indices `0..n`.
pub open spec fn index_range(n: nat) -> Seq<usize> {
    Seq::new(n, |i: int| i as usize)
}

impl RandomXIAgent {
    pub fn name(&self) -> (n: &'static str)
        ensures
            n@ == "RandomXI"@,
    {
        "RandomXI"
    }

    /// A random valid XI over the candidates `0..groups.len()` (candidate
    /// `c` plays in position group `groups[c]`): the candidates are shuffled
    /// with `rng`, then each of the first 11 `slots` takes the first
    /// remaining candidate of its own group, or else the first remaining one.
    pub fn decide_lineup(&self, rng: &mut EpisodeRng, groups: &Vec<Position>, slots: &[Position]) -> (xi: Vec<usize>)
        ensures
            final(rng)@ == after_draw(old(rng)@, Draw::Shuffle(groups@.len() as usize)),
            exists|order: Seq<usize>|
                #![trigger order.to_multiset()]
                {
                    &&& order.to_multiset() == index_range(groups@.len()).to_multiset()
                    &&& xi@.map_values(|i: usize| i as int) == group_fill(
                        order.map_values(|i: usize| i as int),
                        groups@,
                        eleven(slots@),
                    )
                },
    {
        let n = groups.len();
        let mut order: Vec<usize> = Vec::new();
        let mut i: usize = 0;
        while i < n
            invariant
                i <= n,
                n == groups@.len(),
                order@ == index_range(i as nat),
            decreases n - i,
        {
            order.push(i);
            assert(order@ =~= index_range((i + 1) as nat));
            i = i + 1;
        }
        let ghost before = order@;
        rng.shuffle(&mut order);
        proof {
            broadcast use vstd::seq_lib::group_to_multiset_ensures;
            assert forall|j: int| 0 <= j < order@.len() implies #[trigger] order@[j] < groups@.len() by {
                let a = order@[j];
                assert(order@.contains(a));
                assert(order@.to_multiset().count(a) > 0);
                assert(before.to_multiset().count(a) > 0);
                assert(before.contains(a));
            }
        }
        let xi = fill_by_group(&order, groups, slots);
        assert(order@.to_multiset() == index_range(groups@.len()).to_multiset());
        xi
    }
}

/// Best XI plus a fixed play style: a probe for whether tactics are a
/// bigger lever than lineup selection.
pub struct StyleProbe {
    pub style: PlayStyle,
}

impl StyleProbe {
    pub fn name(&self) -> (n: &'static str)
        ensures
            n@ == match self.style {
                PlayStyle::Balanced => "BestXI+Balanced"@,
                PlayStyle::Attacking => "BestXI+Attacking"@,
                PlayStyle::Defensive => "BestXI+Defensive"@,
                PlayStyle::Possession => "BestXI+Possession"@,
                PlayStyle::Counter => "BestXI+Counter"@,
                PlayStyle::HighPress => "BestXI+HighPress"@,
            },
    {
        match self.style {
            PlayStyle::Balanced => "BestXI+Balanced",
            PlayStyle::Attacking => "BestXI+Attacking",
            PlayStyle::Defensive => "BestXI+Defensive",
            PlayStyle::Possession => "BestXI+Possession",
            PlayStyle::Counter => "BestXI+Counter",
            PlayStyle::HighPress => "BestXI+HighPress",
        }
    }
}

/// Do-nothing baseline: never touch the lineup (the AI default applies).
pub struct NoopAgent;

impl NoopAgent {
    pub fn name(&self) -> (n: &'static str)
        ensures
            n@ == "Noop"@,
    {
        "Noop"
    }

    /// No lineup: the AI default applies.
    pub fn decide_lineup(&self) -> (xi: Vec<String>)
        ensures
            xi@.len() == 0,
    {
        Vec::new()
    }
}

} // verus!
