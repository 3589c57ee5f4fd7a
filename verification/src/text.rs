//! Sorting and joining text, for world fingerprints.

use crate::model::{first_index, Player, Team};
use crate::world::{
    bytes_less, compare_bytes, decimal, decimal_text, lemma_bytes_less_total,
    lemma_bytes_less_transitive,
};
use vstd::prelude::*;
use vstd::string::StringExecFns;
use vstd::utf8::{decode_utf8, encode_utf8, encode_utf8_decode_utf8};

verus! {

/// Text `a` sorts before `b` (byte-wise, as `String`'s order).
pub open spec fn text_less(a: Seq<char>, b: Seq<char>) -> bool {
    bytes_less(encode_utf8(a), encode_utf8(b))
}

/// Where `x` goes into the sorted texts `s`: before the first greater one.
pub open spec fn text_slot(s: Seq<Seq<char>>, x: Seq<char>) -> int {
    match first_index(s, |y: Seq<char>| text_less(x, y)) {
        Some(i) => i,
        None => s.len() as int,
    }
}

/// `s` sorted in `String` order (by insertion; equal texts keep their order).
pub open spec fn sorted_texts(s: Seq<Seq<char>>) -> Seq<Seq<char>>
    decreases s.len(),
{
    if s.len() == 0 {
        s
    } else {
        let r = sorted_texts(s.drop_last());
        r.insert(text_slot(r, s.last()), s.last())
    }
}

/// `s` joined with newlines.
pub open spec fn joined_lines(s: Seq<Seq<char>>) -> Seq<char>
    decreases s.len(),
{
    if s.len() == 0 {
        Seq::empty()
    } else if s.len() == 1 {
        s[0]
    } else {
        joined_lines(s.drop_last()) + "\n"@ + s.last()
    }
}

/// The texts of `v`.
pub open spec fn texts_of(v: Seq<String>) -> Seq<Seq<char>> {
    v.map_values(|s: String| s@)
}

/// Sorted texts are in non-decreasing `String` order.
pub proof fn lemma_sorted_texts(s: Seq<Seq<char>>)
    ensures
        sorted_texts(s).len() == s.len(),
        forall|i: int, j: int|
            0 <= i < j < sorted_texts(s).len() ==> !text_less(
                #[trigger] sorted_texts(s)[j],
                #[trigger] sorted_texts(s)[i],
            ),
    decreases s.len(),
{
    if s.len() > 0 {
        lemma_sorted_texts(s.drop_last());
        let r = sorted_texts(s.drop_last());
        let x = s.last();
        let p = |y: Seq<char>| text_less(x, y);
        crate::model::lemma_first_index(r, p);
        let pos = text_slot(r, x);
        let out = r.insert(pos, x);
        assert forall|i: int, j: int| 0 <= i < j < out.len() implies !text_less(
            #[trigger] out[j],
            #[trigger] out[i],
        ) by {
            if j < pos {
                assert(out[i] == r[i] && out[j] == r[j]);
            } else if j == pos {
                assert(out[i] == r[i]);
                assert(!p(r[i]));
            } else if i < pos {
                assert(out[i] == r[i] && out[j] == r[j - 1]);
            } else if i == pos {
                assert(out[j] == r[j - 1]);
                assert(text_less(x, r[pos]));
                if text_less(r[j - 1], x) {
                    lemma_bytes_less_transitive(
                        encode_utf8(r[j - 1]),
                        encode_utf8(x),
                        encode_utf8(r[pos]),
                    );
                    if j - 1 == pos {
                        crate::world::lemma_bytes_less_irreflexive(encode_utf8(r[pos]));
                    }
                }
            } else {
                assert(out[i] == r[i - 1] && out[j] == r[j - 1]);
            }
        }
    }
}

/// Sorting keeps every text, each as often as it occurs.
pub proof fn lemma_sorted_texts_permutes(s: Seq<Seq<char>>)
    ensures
        sorted_texts(s).to_multiset() == s.to_multiset(),
    decreases s.len(),
{
    if s.len() > 0 {
        lemma_sorted_texts_permutes(s.drop_last());
        lemma_sorted_texts(s.drop_last());
        let r = sorted_texts(s.drop_last());
        let x = s.last();
        crate::model::lemma_first_index(r, |y: Seq<char>| text_less(x, y));
        let pos = text_slot(r, x);
        vstd::seq_lib::to_multiset_insert(r, pos, x);
        vstd::seq_lib::to_multiset_build(s.drop_last(), x);
        assert(s.drop_last().push(x) =~= s);
    }
}

/// `v` sorted in `String` order.
pub fn sort_texts(v: &Vec<String>) -> (out: Vec<String>)
    ensures
        texts_of(out@) == sorted_texts(texts_of(v@)),
{
    let ghost src = texts_of(v@);
    let mut out: Vec<String> = Vec::new();
    let mut i: usize = 0;
    while i < v.len()
        invariant
            i <= v.len(),
            src == texts_of(v@),
            texts_of(out@) == sorted_texts(src.take(i as int)),
        decreases v.len() - i,
    {
        let x: &String = &v[i];
        let ghost r = texts_of(out@);
        let mut pos: usize = 0;
        let mut found = false;
        while pos < out.len() && !found
            invariant
                pos <= out.len(),
                r == texts_of(out@),
                !found ==> first_index(r.take(pos as int), |y: Seq<char>| text_less(x@, y)) is None,
                found ==> pos < out.len() && first_index(r, |y: Seq<char>| text_less(x@, y)) == Some(
                    pos as int,
                ),
            decreases out.len() - pos, if found { 0int } else { 1int },
        {
            assert(r.take(pos + 1).drop_last() =~= r.take(pos as int));
            assert(r[pos as int] == out@[pos as int]@);
            let (less, _) = compare_bytes(x.as_str().as_bytes(), out[pos].as_str().as_bytes());
            if less {
                assert(first_index(r.take(pos + 1), |y: Seq<char>| text_less(x@, y)) == Some(
                    pos as int,
                ));
                proof {
                    crate::model::lemma_first_index_prefix(
                        r,
                        |y: Seq<char>| text_less(x@, y),
                        pos as int + 1,
                    );
                }
                found = true;
            } else {
                pos = pos + 1;
            }
        }
        proof {
            if !found {
                assert(r.take(pos as int) =~= r);
            }
        }
        assert(pos == text_slot(r, x@));
        assert(src.take(i + 1).drop_last() =~= src.take(i as int));
        assert(src.take(i + 1).last() == x@);
        out.insert(pos, x.clone());
        assert(texts_of(out@) =~= r.insert(pos as int, x@));
        i = i + 1;
    }
    assert(src.take(v.len() as int) =~= src);
    out
}

/// The texts of `v` joined with newlines.
pub fn join_lines(v: &Vec<String>) -> (s: String)
    ensures
        s@ == joined_lines(texts_of(v@)),
{
    let ghost t = texts_of(v@);
    let mut s = String::new();
    let mut i: usize = 0;
    while i < v.len()
        invariant
            i <= v.len(),
            t == texts_of(v@),
            s@ == joined_lines(t.take(i as int)),
        decreases v.len() - i,
    {
        assert(t.take(i + 1).drop_last() =~= t.take(i as int));
        assert(t.take(i + 1).last() == v@[i as int]@);
        if i == 0 {
            assert(t.take(1)[0] == v@[0]@);
            s = v[0].clone();
        } else {
            s = s.concat("\n").concat(v[i].as_str());
        }
        i = i + 1;
    }
    assert(t.take(v.len() as int) =~= t);
    s
}

/// `s` is in non-decreasing `String` order.
pub open spec fn texts_sorted(s: Seq<Seq<char>>) -> bool {
    forall|i: int, j: int| 0 <= i < j < s.len() ==> !text_less(#[trigger] s[j], #[trigger] s[i])
}

/// Of two different texts, one sorts before the other.
proof fn lemma_text_less_total(a: Seq<char>, b: Seq<char>)
    ensures
        a == b || text_less(a, b) || text_less(b, a),
{
    lemma_bytes_less_total(encode_utf8(a), encode_utf8(b));
    if encode_utf8(a) == encode_utf8(b) {
        encode_utf8_decode_utf8(a);
        encode_utf8_decode_utf8(b);
        assert(decode_utf8(encode_utf8(a)) == decode_utf8(encode_utf8(b)));
    }
}

/// Two sorted sequences holding the same texts are the same sequence.
proof fn lemma_sorted_unique(x: Seq<Seq<char>>, y: Seq<Seq<char>>)
    requires
        texts_sorted(x),
        texts_sorted(y),
        x.to_multiset() == y.to_multiset(),
    ensures
        x == y,
    decreases x.len(),
{
    broadcast use vstd::seq_lib::group_to_multiset_ensures;

    if x.len() == 0 || y.len() == 0 {
        vstd::seq_lib::to_multiset_len(x);
        vstd::seq_lib::to_multiset_len(y);
        assert(x.len() == y.len());
        assert(x =~= y);
    } else {
        let a = x[0];
        let b = y[0];
        assert(x.contains(a));
        assert(x.to_multiset().count(a) > 0);
        assert(y.to_multiset().count(a) > 0);
        assert(y.contains(a));
        let ka = choose|k: int| 0 <= k < y.len() && y[k] == a;
        assert(y.contains(b));
        assert(y.to_multiset().count(b) > 0);
        assert(x.to_multiset().count(b) > 0);
        assert(x.contains(b));
        let kb = choose|k: int| 0 <= k < x.len() && x[k] == b;
        lemma_text_less_total(a, b);
        if a != b {
            if text_less(a, b) {
                assert(ka != 0);
                assert(!text_less(y[ka], y[0]));
            } else {
                assert(kb != 0);
                assert(!text_less(x[kb], x[0]));
            }
        }
        assert(a == b);
        vstd::seq_lib::to_multiset_remove(x, 0);
        vstd::seq_lib::to_multiset_remove(y, 0);
        assert(x.remove(0) =~= x.drop_first());
        assert(y.remove(0) =~= y.drop_first());
        let x1 = x.drop_first();
        let y1 = y.drop_first();
        assert forall|i: int, j: int| 0 <= i < j < x1.len() implies !text_less(
            #[trigger] x1[j],
            #[trigger] x1[i],
        ) by {
            assert(x1[j] == x[j + 1] && x1[i] == x[i + 1]);
        }
        assert forall|i: int, j: int| 0 <= i < j < y1.len() implies !text_less(
            #[trigger] y1[j],
            #[trigger] y1[i],
        ) by {
            assert(y1[j] == y[j + 1] && y1[i] == y[i + 1]);
        }
        lemma_sorted_unique(x1, y1);
        assert(x =~= seq![a] + x1);
        assert(y =~= seq![b] + y1);
    }
}

/// Sorting depends only on which texts there are, not on their order.
pub proof fn lemma_sorted_texts_order_free(s1: Seq<Seq<char>>, s2: Seq<Seq<char>>)
    requires
        s1.to_multiset() == s2.to_multiset(),
    ensures
        sorted_texts(s1) == sorted_texts(s2),
{
    lemma_sorted_texts(s1);
    lemma_sorted_texts(s2);
    lemma_sorted_texts_permutes(s1);
    lemma_sorted_texts_permutes(s2);
    lemma_sorted_unique(sorted_texts(s1), sorted_texts(s2));
}

/// How a player enters a world fingerprint: its own position and rating,
/// `"<position>:<ovr>"` (no id).
pub open spec fn player_entry(p: Player) -> Seq<char> {
    p.position_name@ + ":"@ + decimal(p.ovr as nat)
}

/// A world's content fingerprint: the numbers of teams, players (and
/// staff, when given), then the team names and the player entries, each
/// sorted and one per line.
pub open spec fn fingerprint_text(
    names: Seq<Seq<char>>,
    entries: Seq<Seq<char>>,
    staff: Option<usize>,
) -> Seq<char> {
    let counts = "teams="@ + decimal(names.len()) + " players="@ + decimal(entries.len());
    let counts = match staff {
        Some(n) => counts + " staff="@ + decimal(n as nat),
        None => counts,
    };
    counts + "\n"@ + joined_lines(sorted_texts(names)) + "\n"@ + joined_lines(sorted_texts(entries))
}

/// The team names of `teams`.
pub open spec fn team_names(teams: Seq<Team>) -> Seq<Seq<char>> {
    teams.map_values(|t: Team| t.name@)
}

/// The fingerprint entries of `players`.
pub open spec fn player_entries(players: Seq<Player>) -> Seq<Seq<char>> {
    players.map_values(|p: Player| player_entry(p))
}

/// The content fingerprint of a world of `teams` and `players` (and
/// `staff` members, when given): ids play no part, and the order of teams
/// and players does not matter.
pub fn content_fingerprint(teams: &Vec<Team>, players: &Vec<Player>, staff: Option<usize>) -> (s: String)
    ensures
        s@ == fingerprint_text(team_names(teams@), player_entries(players@), staff),
{
    let mut names: Vec<String> = Vec::new();
    let mut i: usize = 0;
    while i < teams.len()
        invariant
            i <= teams.len(),
            texts_of(names@) == team_names(teams@).take(i as int),
        decreases teams.len() - i,
    {
        let ghost before = names@;
        let name = teams[i].name.clone();
        assert(name@ == teams@[i as int].name@);
        names.push(name);
        assert(names@ =~= before.push(name));
        assert(texts_of(names@) =~= texts_of(before).push(name@));
        assert(team_names(teams@).take(i + 1) =~= team_names(teams@).take(i as int).push(
            teams@[i as int].name@,
        ));
        i = i + 1;
    }
    assert(team_names(teams@).take(teams.len() as int) =~= team_names(teams@));
    let mut entries: Vec<String> = Vec::new();
    let mut j: usize = 0;
    while j < players.len()
        invariant
            j <= players.len(),
            texts_of(entries@) == player_entries(players@).take(j as int),
        decreases players.len() - j,
    {
        let p = &players[j];
        let e = p.position_name.clone().concat(":").concat(decimal_text(p.ovr as usize).as_str());
        assert(e@ == player_entry(players@[j as int]));
        let ghost before = entries@;
        entries.push(e);
        assert(entries@ =~= before.push(e));
        assert(texts_of(entries@) =~= texts_of(before).push(e@));
        assert(player_entries(players@).take(j + 1) =~= player_entries(players@).take(j as int).push(
            player_entry(players@[j as int]),
        ));
        j = j + 1;
    }
    assert(player_entries(players@).take(players.len() as int) =~= player_entries(players@));
    let mut s = "teams=".to_string();
    s = s.concat(decimal_text(teams.len()).as_str());
    s = s.concat(" players=").concat(decimal_text(players.len()).as_str());
    match staff {
        Some(n) => {
            s = s.concat(" staff=").concat(decimal_text(n).as_str());
        },
        None => {},
    }
    let t = join_lines(&sort_texts(&names));
    let q = join_lines(&sort_texts(&entries));
    s = s.concat("\n").concat(t.as_str()).concat("\n").concat(q.as_str());
    s
}

/// A world fingerprint ignores the order of teams and players: worlds with
/// the same team names and the same player entries, in any order, have the
/// same fingerprint.
pub proof fn lemma_fingerprint_order_free(
    names1: Seq<Seq<char>>,
    names2: Seq<Seq<char>>,
    entries1: Seq<Seq<char>>,
    entries2: Seq<Seq<char>>,
    staff: Option<usize>,
)
    requires
        names1.to_multiset() == names2.to_multiset(),
        entries1.to_multiset() == entries2.to_multiset(),
    ensures
        fingerprint_text(names1, entries1, staff) == fingerprint_text(names2, entries2, staff),
{
    vstd::seq_lib::to_multiset_len(names1);
    vstd::seq_lib::to_multiset_len(names2);
    vstd::seq_lib::to_multiset_len(entries1);
    vstd::seq_lib::to_multiset_len(entries2);
    lemma_sorted_texts_order_free(names1, names2);
    lemma_sorted_texts_order_free(entries1, entries2);
}

} // verus!
