//! Counts over the participants: how often each name is mentioned, and which
//! emails occur more than once.

use crate::names::{ascending, lemma_ascending_no_duplicates};
use crate::order::lex_lt;
use crate::participant::Participant;
use crate::table::Table;
use vstd::prelude::*;

verus! {

/// How often each text occurs in `s`, for the texts that occur at all.
pub open spec fn occurrences(s: Seq<Seq<char>>) -> Map<Seq<char>, u32> {
    Map::new(|name: Seq<char>| s.contains(name), |name: Seq<char>| s.to_multiset().count(name) as u32)
}

/// A name with its count, as plain values.
pub open spec fn entry_view(entry: (String, u32)) -> (Seq<char>, u32) {
    (entry.0@, entry.1)
}

/// Names with their counts, as plain values.
pub open spec fn entry_views(entries: Seq<(String, u32)>) -> Seq<(Seq<char>, u32)> {
    entries.map_values(|entry: (String, u32)| entry_view(entry))
}

/// `a` is listed before `b`: it has the smaller count, or the same count and
/// the name that comes first.
pub open spec fn ranks_before(a: (Seq<char>, u32), b: (Seq<char>, u32)) -> bool {
    a.1 < b.1 || (a.1 == b.1 && lex_lt(a.0, b.0))
}

/// Each entry is listed before all that follow it.
pub open spec fn ranked(s: Seq<(Seq<char>, u32)>) -> bool {
    forall|i: int, j: int| 0 <= i < j < s.len() ==> ranks_before(#[trigger] s[i], #[trigger] s[j])
}

/// The characters that the participants mention, one participant after the
/// other: first those desired, then those banned.
pub open spec fn spec_character_mentions(ps: Seq<Participant>) -> Seq<Seq<char>>
    decreases ps.len(),
{
    if ps.len() == 0 {
        Seq::empty()
    } else {
        spec_character_mentions(ps.drop_last()) + ps.last().desired_characters@
            + ps.last().banned_characters@
    }
}

/// The pairings that the participants mention, one participant after the
/// other: first those desired, then those banned.
pub open spec fn spec_ship_mentions(ps: Seq<Participant>) -> Seq<Seq<char>>
    decreases ps.len(),
{
    if ps.len() == 0 {
        Seq::empty()
    } else {
        spec_ship_mentions(ps.drop_last()) + ps.last().desired_ships@ + ps.last().banned_ships@
    }
}

/// The emails of the participants, in their order.
pub open spec fn spec_emails(ps: Seq<Participant>) -> Seq<Seq<char>> {
    ps.map_values(|p: Participant| p.email@)
}

/// Adds the names of `more` to `out`.
fn append_names(out: &mut Vec<String>, more: Vec<String>)
    ensures
        final(out).deep_view() == old(out).deep_view() + more.deep_view(),
{
    let ghost base = out.deep_view();
    let ghost all = more.deep_view();
    let mut i: usize = 0;
    assert(out.deep_view() =~= base + all.take(0));
    while i < more.len()
        invariant
            i <= more.len(),
            all == more.deep_view(),
            out.deep_view() == base + all.take(i as int),
        decreases more.len() - i,
    {
        let ghost before = out.deep_view();
        let name = more[i].clone();
        let ghost text = name@;
        out.push(name);
        assert(out.deep_view() =~~= before.push(text));
        i += 1;
        assert(base + all.take(i as int) =~= (base + all.take(i - 1)).push(text));
    }
    assert(all.take(more.len() as int) =~= all);
}

/// The characters that the participants mention.
pub fn character_mentions(participants: &Vec<Participant>) -> (out: Vec<String>)
    ensures
        out.deep_view() == spec_character_mentions(participants@),
{
    let mut out: Vec<String> = Vec::new();
    let mut i: usize = 0;
    assert(out.deep_view() =~= spec_character_mentions(participants@.take(0)));
    while i < participants.len()
        invariant
            i <= participants.len(),
            out.deep_view() == spec_character_mentions(participants@.take(i as int)),
        decreases participants.len() - i,
    {
        append_names(&mut out, participants[i].desired_characters.to_vec());
        append_names(&mut out, participants[i].banned_characters.to_vec());
        i += 1;
        assert(participants@.take(i as int).drop_last() =~= participants@.take(i - 1));
    }
    assert(participants@.take(participants.len() as int) =~= participants@);
    out
}

/// The pairings that the participants mention.
pub fn ship_mentions(participants: &Vec<Participant>) -> (out: Vec<String>)
    ensures
        out.deep_view() == spec_ship_mentions(participants@),
{
    let mut out: Vec<String> = Vec::new();
    let mut i: usize = 0;
    assert(out.deep_view() =~= spec_ship_mentions(participants@.take(0)));
    while i < participants.len()
        invariant
            i <= participants.len(),
            out.deep_view() == spec_ship_mentions(participants@.take(i as int)),
        decreases participants.len() - i,
    {
        append_names(&mut out, participants[i].desired_ships.to_vec());
        append_names(&mut out, participants[i].banned_ships.to_vec());
        i += 1;
        assert(participants@.take(i as int).drop_last() =~= participants@.take(i - 1));
    }
    assert(participants@.take(participants.len() as int) =~= participants@);
    out
}

/// The emails of the participants.
pub fn emails(participants: &Vec<Participant>) -> (out: Vec<String>)
    ensures
        out.deep_view() == spec_emails(participants@),
{
    let ghost email = |p: Participant| p.email@;
    let mut out: Vec<String> = Vec::new();
    let mut i: usize = 0;
    assert(out.deep_view() =~= participants@.take(0).map_values(email));
    while i < participants.len()
        invariant
            i <= participants.len(),
            email == (|p: Participant| p.email@),
            out.deep_view() == participants@.take(i as int).map_values(email),
        decreases participants.len() - i,
    {
        let ghost before = out.deep_view();
        let name = participants[i].email.clone();
        let ghost text = name@;
        out.push(name);
        assert(out.deep_view() =~~= before.push(text));
        i += 1;
        assert(participants@.take(i as int).map_values(email) =~= participants@.take(i - 1).map_values(email).push(
            text,
        ));
    }
    assert(participants@.take(participants.len() as int) =~= participants@);
    out
}

/// One text more raises its count by one and leaves the other counts.
proof fn lemma_occurrences_push(s: Seq<Seq<char>>, x: Seq<char>)
    requires
        s.len() < u32::MAX,
    ensures
        s.to_multiset().count(x) < u32::MAX,
        occurrences(s.push(x)) == occurrences(s).insert(x, (s.to_multiset().count(x) + 1) as u32),
{
    s.to_multiset_ensures();
    s.push(x).to_multiset_ensures();
    vstd::multiset::axiom_count_le_len(s.to_multiset(), x);
    vstd::multiset::lemma_insert_increases_count_by_1(s.to_multiset(), x);
    let more = occurrences(s.push(x));
    let wanted = occurrences(s).insert(x, (s.to_multiset().count(x) + 1) as u32);
    assert forall|name: Seq<char>| #[trigger]
        more.contains_key(name) == wanted.contains_key(name) && (more.contains_key(name) ==> more[name]
            == wanted[name]) by {
        vstd::multiset::lemma_insert_other_elements_unchanged(s.to_multiset(), x, name);
        assert(s.push(x).contains(name) <==> s.push(x).to_multiset().count(name) > 0);
        assert(s.contains(name) <==> s.to_multiset().count(name) > 0);
    }
    assert(more =~= wanted);
}

/// How often each name occurs in `names`.
pub fn tally(names: &Vec<String>) -> (out: Table<u32>)
    requires
        names.len() <= u32::MAX,
    ensures
        out.wf(),
        out.map() == occurrences(names.deep_view()),
{
    let ghost all = names.deep_view();
    let mut out: Table<u32> = Table::new();
    let mut i: usize = 0;
    assert(out.map() =~= occurrences(all.take(0)));
    while i < names.len()
        invariant
            i <= names.len(),
            names.len() <= u32::MAX,
            all == names.deep_view(),
            out.wf(),
            out.map() == occurrences(all.take(i as int)),
        decreases names.len() - i,
    {
        let ghost done = all.take(i as int);
        proof {
            lemma_occurrences_push(done, all[i as int]);
            done.to_multiset_ensures();
            assert(all.take(i + 1) =~= done.push(all[i as int]));
        }
        let times: u32 = match out.get(names[i].as_str()) {
            Some(n) => *n + 1,
            None => 1,
        };
        out.insert(names[i].clone(), times);
        i += 1;
    }
    assert(all.take(names.len() as int) =~= all);
    out
}

/// The entries of `table` in ascending order of their counts, entries of one
/// count in ascending order of their names.
pub fn by_count(table: &Table<u32>) -> (out: Vec<(String, u32)>)
    requires
        table.wf(),
    ensures
        ranked(entry_views(out@)),
        forall|name: Seq<char>, n: u32|
            entry_views(out@).contains((name, n)) <==> table.map().contains_key(name) && table.map()[name]
                == n,
{
    let n = table.len();
    let mut out: Vec<(String, u32)> = Vec::new();
    let mut i: usize = 0;
    proof {
        table.lemma_wf();
        lemma_ascending_no_duplicates(table.keys());
    }
    while i < n
        invariant
            i <= n,
            n == table.size(),
            n == table.values().len(),
            table.wf(),
            ascending(table.keys()),
            table.keys().no_duplicates(),
            ranked(entry_views(out@)),
            forall|k: int|
                0 <= k < out.len() ==> exists|j: int|
                    0 <= j < i && (#[trigger] entry_views(out@)[k]) == (table.keys()[j], table.values()[j]),
            forall|j: int|
                0 <= j < i ==> entry_views(out@).contains((#[trigger] table.keys()[j], table.values()[j])),
        decreases n - i,
    {
        let times = *table.value(i);
        let name = table.key(i).clone();
        let ghost before = entry_views(out@);
        let ghost fresh = (name@, times);
        let mut j: usize = out.len();
        while j > 0 && out[j - 1].1 > times
            invariant
                j <= out.len(),
                before == entry_views(out@),
                forall|k: int| j <= k < before.len() ==> (#[trigger] before[k]).1 > times,
            decreases j,
        {
            j -= 1;
        }
        out.insert(j, (name, times));
        proof {
            let after = entry_views(out@);
            assert(after =~= before.insert(j as int, fresh));
            assert forall|a: int, b: int| 0 <= a < b < after.len() implies ranks_before(
                #[trigger] after[a],
                #[trigger] after[b],
            ) by {
                if b == j {
                    let src = choose|src: int|
                        0 <= src < i && before[a] == (table.keys()[src], table.values()[src]);
                    assert(lex_lt(table.keys()[src], table.keys()[i as int]));
                    if j > 0 {
                        assert(before[j - 1].1 <= times);
                        if a < j - 1 {
                            assert(ranks_before(before[a], before[j - 1]));
                        }
                    }
                } else if a == j {
                    assert(after[b] == before[b - 1]);
                } else {
                    let a0 = if a < j { a } else { a - 1 };
                    let b0 = if b < j { b } else { b - 1 };
                    assert(ranks_before(before[a0], before[b0]));
                }
            }
            assert forall|k: int| 0 <= k < out.len() implies exists|src: int|
                0 <= src < i + 1 && (#[trigger] after[k]) == (table.keys()[src], table.values()[src]) by {
                if k == j {
                    assert(after[k] == (table.keys()[i as int], table.values()[i as int]));
                } else {
                    let k0 = if k < j { k } else { k - 1 };
                    let src = choose|src: int|
                        0 <= src < i && before[k0] == (table.keys()[src], table.values()[src]);
                    assert(after[k] == (table.keys()[src], table.values()[src]));
                }
            }
            assert forall|src: int| 0 <= src < i + 1 implies after.contains(
                (#[trigger] table.keys()[src], table.values()[src]),
            ) by {
                if src == i {
                    assert(after[j as int] == fresh);
                } else {
                    let k0 = choose|k0: int|
                        0 <= k0 < before.len() && before[k0] == (table.keys()[src], table.values()[src]);
                    let k = if k0 < j { k0 } else { k0 + 1 };
                    assert(after[k] == before[k0]);
                }
            }
        }
        i += 1;
    }
    proof {
        let listed = entry_views(out@);
        assert forall|name: Seq<char>, times: u32|
            listed.contains((name, times)) <==> table.map().contains_key(name) && table.map()[name]
                == times by {
            if listed.contains((name, times)) {
                let k = choose|k: int| 0 <= k < listed.len() && listed[k] == (name, times);
                let src = choose|src: int|
                    0 <= src < n && listed[k] == (table.keys()[src], table.values()[src]);
                table.lemma_map_at(src);
            }
            if table.map().contains_key(name) && table.map()[name] == times {
                let src = table.keys().index_of(name);
                table.lemma_map_at(src);
                assert(listed.contains((table.keys()[src], table.values()[src])));
            }
        }
    }
    out
}

/// The names that occur in `names`, each with the number of times it occurs,
/// in ascending order of that number.
pub fn counts(names: &Vec<String>) -> (out: Vec<(String, u32)>)
    requires
        names.len() <= u32::MAX,
    ensures
        ranked(entry_views(out@)),
        forall|name: Seq<char>, n: u32|
            entry_views(out@).contains((name, n)) <==> names.deep_view().contains(name) && n
                == names.deep_view().to_multiset().count(name),
{
    let table = tally(names);
    let out = by_count(&table);
    proof {
        let all = names.deep_view();
        all.to_multiset_ensures();
        assert forall|name: Seq<char>, n: u32|
            entry_views(out@).contains((name, n)) <==> all.contains(name) && n == all.to_multiset().count(
                name,
            ) by {
            vstd::multiset::axiom_count_le_len(all.to_multiset(), name);
        }
    }
    out
}

/// `entry` is one of the first `i` entries of `listed`, and counts more than
/// one.
spec fn repeated_among(listed: Seq<(Seq<char>, u32)>, i: int, entry: (Seq<char>, u32)) -> bool {
    exists|j: int| 0 <= j < i && #[trigger] listed[j] == entry && entry.1 > 1
}

/// The names that occur more than once in `names`, each with the number of
/// times it occurs, in ascending order of that number.
pub fn duplicates(names: &Vec<String>) -> (out: Vec<(String, u32)>)
    requires
        names.len() <= u32::MAX,
    ensures
        ranked(entry_views(out@)),
        forall|name: Seq<char>, n: u32|
            entry_views(out@).contains((name, n)) <==> n > 1 && n == names.deep_view().to_multiset().count(
                name,
            ),
{
    let all = counts(names);
    let ghost listed = entry_views(all@);
    let mut out: Vec<(String, u32)> = Vec::new();
    let mut i: usize = 0;
    while i < all.len()
        invariant
            i <= all.len(),
            listed == entry_views(all@),
            ranked(listed),
            ranked(entry_views(out@)),
            forall|k: int| 0 <= k < out.len() ==> repeated_among(listed, i as int, #[trigger] entry_views(out@)[k]),
            forall|j: int| 0 <= j < i && (#[trigger] listed[j]).1 > 1 ==> entry_views(out@).contains(listed[j]),
        decreases all.len() - i,
    {
        let ghost before = entry_views(out@);
        if all[i].1 > 1 {
            let entry = (all[i].0.clone(), all[i].1);
            out.push(entry);
            proof {
                let after = entry_views(out@);
                assert(after =~= before.push(listed[i as int]));
                assert forall|a: int, b: int| 0 <= a < b < after.len() implies ranks_before(
                    #[trigger] after[a],
                    #[trigger] after[b],
                ) by {
                    if b == after.len() - 1 {
                        assert(repeated_among(listed, i as int, before[a]));
                        let j = choose|j: int| 0 <= j < i && #[trigger] listed[j] == before[a] && before[a].1 > 1;
                        assert(ranks_before(listed[j], listed[i as int]));
                    } else {
                        assert(ranks_before(before[a], before[b]));
                    }
                }
                assert forall|j: int| 0 <= j < i + 1 && (#[trigger] listed[j]).1 > 1 implies after.contains(
                    listed[j],
                ) by {
                    if j == i {
                        assert(after[after.len() - 1] == listed[j]);
                    } else {
                        let k = choose|k: int| 0 <= k < before.len() && before[k] == listed[j];
                        assert(after[k] == listed[j]);
                    }
                }
            }
        }
        proof {
            let after = entry_views(out@);
            assert forall|k: int| 0 <= k < out.len() implies repeated_among(
                listed,
                i + 1,
                #[trigger] after[k],
            ) by {
                if k < before.len() {
                    assert(after[k] == before[k]);
                    assert(repeated_among(listed, i as int, before[k]));
                    let j = choose|j: int| 0 <= j < i && #[trigger] listed[j] == before[k] && before[k].1 > 1;
                    assert(listed[j] == after[k]);
                } else {
                    assert(listed[i as int] == after[k]);
                }
            }
        }
        i += 1;
    }
    proof {
        let kept = entry_views(out@);
        let texts = names.deep_view();
        texts.to_multiset_ensures();
        assert forall|name: Seq<char>, n: u32|
            kept.contains((name, n)) <==> n > 1 && n == texts.to_multiset().count(name) by {
            if kept.contains((name, n)) {
                let k = choose|k: int| 0 <= k < kept.len() && kept[k] == (name, n);
                assert(repeated_among(listed, all.len() as int, kept[k]));
                let j = choose|j: int| 0 <= j < all.len() && #[trigger] listed[j] == kept[k] && kept[k].1 > 1;
                assert(listed.contains((name, n)));
            }
            if n > 1 && n == texts.to_multiset().count(name) {
                assert(texts.contains(name));
                assert(listed.contains((name, n)));
                let j = choose|j: int| 0 <= j < listed.len() && listed[j] == (name, n);
                assert(kept.contains(listed[j]));
            }
        }
    }
    out
}

} // verus!
