//! Pairings: the combinations of one name per slot, and the canonical name of
//! a pairing.

use crate::order::{comes_before, lemma_lex_le_transitive, lemma_lex_total, lex_le, lex_lt};
use crate::text::join;
use vstd::prelude::*;

verus! {

/// Each of `rest` with `p` added at its end.
pub open spec fn extend_each(rest: Seq<Seq<Seq<char>>>, p: Seq<char>) -> Seq<Seq<Seq<char>>> {
    rest.map_values(|s: Seq<Seq<char>>| s.push(p))
}

/// Each of `rest` extended by each of `part`: first all of `rest` with the
/// first of `part`, then all of `rest` with the second, and so on.
pub open spec fn cross(rest: Seq<Seq<Seq<char>>>, part: Seq<Seq<char>>) -> Seq<Seq<Seq<char>>>
    decreases part.len(),
{
    if part.len() == 0 {
        Seq::empty()
    } else {
        cross(rest, part.drop_last()) + extend_each(rest, part.last())
    }
}

/// The combinations of one name out of each slot. No slot gives no combination.
pub open spec fn spec_resolve_ships(slots: Seq<Seq<Seq<char>>>) -> Seq<Seq<Seq<char>>>
    decreases slots.len(),
{
    if slots.len() == 0 {
        Seq::empty()
    } else if slots.len() == 1 {
        slots[0].map_values(|p: Seq<char>| seq![p])
    } else {
        cross(spec_resolve_ships(slots.drop_last()), slots.last())
    }
}

/// The combinations of one name out of each slot, the last slot varying
/// slowest.
pub fn resolve_ships(ships: Vec<Vec<String>>) -> (out: Vec<Vec<String>>)
    ensures
        out.deep_view() == spec_resolve_ships(ships.deep_view()),
    decreases ships.len(),
{
    let mut ships = ships;
    let ghost slots = ships.deep_view();
    let part = match ships.pop() {
        None => {
            assert(slots.len() == 0);
            let out: Vec<Vec<String>> = Vec::new();
            assert(out.deep_view() =~= Seq::<Seq<Seq<char>>>::empty());
            return out;
        },
        Some(part) => part,
    };
    assert(part.deep_view() == slots.last());
    assert(ships.deep_view() =~~= slots.drop_last());
    let mut out: Vec<Vec<String>> = Vec::new();
    if ships.len() == 0 {
        let ghost single = |p: Seq<char>| seq![p];
        let mut i: usize = 0;
        assert(out.deep_view() =~= part.deep_view().take(0).map_values(single));
        while i < part.len()
            invariant
                i <= part.len(),
                single == (|p: Seq<char>| seq![p]),
                out.deep_view() == part.deep_view().take(i as int).map_values(single),
            decreases part.len() - i,
        {
            let mut ship: Vec<String> = Vec::new();
            ship.push(part[i].clone());
            let ghost before = out.deep_view();
            let ghost added = ship.deep_view();
            assert(added =~~= seq![part.deep_view()[i as int]]);
            out.push(ship);
            assert(out.deep_view() =~~= before.push(added));
            i += 1;
            assert(part.deep_view().take(i as int).map_values(single) =~= part.deep_view().take(i - 1).map_values(
                single,
            ).push(added));
        }
        assert(part.deep_view().take(part.len() as int) =~= part.deep_view());
        assert(slots[0] == part.deep_view());
        return out;
    }
    let rest = resolve_ships(ships);
    let ghost rest_view = rest.deep_view();
    let ghost part_view = part.deep_view();
    let mut i: usize = 0;
    assert(out.deep_view() =~= cross(rest_view, part_view.take(0)));
    while i < part.len()
        invariant
            i <= part.len(),
            rest_view == rest.deep_view(),
            part_view == part.deep_view(),
            out.deep_view() == cross(rest_view, part_view.take(i as int)),
        decreases part.len() - i,
    {
        let ghost p = part_view[i as int];
        let ghost base = out.deep_view();
        let ghost with_p = |s: Seq<Seq<char>>| s.push(p);
        let mut j: usize = 0;
        assert(out.deep_view() =~= base + rest_view.take(0).map_values(with_p));
        while j < rest.len()
            invariant
                i < part.len(),
                j <= rest.len(),
                rest_view == rest.deep_view(),
                part_view == part.deep_view(),
                p == part_view[i as int],
                with_p == (|s: Seq<Seq<char>>| s.push(p)),
                out.deep_view() == base + rest_view.take(j as int).map_values(with_p),
            decreases rest.len() - j,
        {
            let mut next = rest[j].clone();
            assert(next.deep_view() == rest_view[j as int]);
            let ghost stem = next.deep_view();
            next.push(part[i].clone());
            assert(next.deep_view() =~~= stem.push(p));
            let ghost before = out.deep_view();
            let ghost added = next.deep_view();
            out.push(next);
            assert(out.deep_view() =~~= before.push(added));
            j += 1;
            assert(rest_view.take(j as int).map_values(with_p) =~= rest_view.take(j - 1).map_values(with_p).push(
                added,
            ));
        }
        assert(rest_view.take(rest.len() as int) =~= rest_view);
        i += 1;
        assert(part_view.take(i as int).drop_last() =~= part_view.take(i - 1));
        assert(extend_each(rest_view, p) == rest_view.map_values(with_p));
    }
    assert(part_view.take(part.len() as int) =~= part_view);
    out
}

/// `s`, which ascends, with `x` put where the order assigns it: behind the
/// names that do not come after it.
pub open spec fn insert_sorted(s: Seq<Seq<char>>, x: Seq<char>) -> Seq<Seq<char>>
    decreases s.len(),
{
    if s.len() > 0 && lex_lt(x, s.last()) {
        insert_sorted(s.drop_last(), x).push(s.last())
    } else {
        s.push(x)
    }
}

/// The names of `s` in ascending order, each as often as it occurs in `s`.
pub open spec fn sort(s: Seq<Seq<char>>) -> Seq<Seq<char>>
    decreases s.len(),
{
    if s.len() == 0 {
        s
    } else {
        insert_sorted(sort(s.drop_last()), s.last())
    }
}

/// The canonical name of a pairing: its names in ascending order, with a
/// slash between neighbours.
pub open spec fn ship_name(ship: Seq<Seq<char>>) -> Seq<char> {
    join(sort(ship), '/')
}

/// Where `x` comes before all of `s` from position `j` on, and not before the
/// name at `j - 1`, it is put at `j`.
proof fn lemma_insert_sorted_at(s: Seq<Seq<char>>, x: Seq<char>, j: int)
    requires
        0 <= j <= s.len(),
        forall|i: int| j <= i < s.len() ==> lex_lt(x, #[trigger] s[i]),
        j > 0 ==> !lex_lt(x, s[j - 1]),
    ensures
        insert_sorted(s, x) == s.insert(j, x),
    decreases s.len(),
{
    if j == s.len() {
        assert(s.push(x) =~= s.insert(j, x));
    } else {
        assert(lex_lt(x, s.last()));
        lemma_insert_sorted_at(s.drop_last(), x, j);
        assert(s.drop_last().insert(j, x).push(s.last()) =~= s.insert(j, x));
    }
}

/// The names of `names` in ascending order.
pub fn sorted(names: &Vec<String>) -> (out: Vec<String>)
    ensures
        out.deep_view() == sort(names.deep_view()),
{
    let ghost all = names.deep_view();
    let mut out: Vec<String> = Vec::new();
    let mut i: usize = 0;
    assert(out.deep_view() =~= sort(all.take(0)));
    while i < names.len()
        invariant
            i <= names.len(),
            all == names.deep_view(),
            out.deep_view() == sort(all.take(i as int)),
        decreases names.len() - i,
    {
        let name = names[i].clone();
        let ghost before = out.deep_view();
        let mut j: usize = out.len();
        while j > 0 && comes_before(name.as_str(), out[j - 1].as_str())
            invariant
                j <= out.len(),
                before == out.deep_view(),
                forall|k: int| j <= k < before.len() ==> lex_lt(name@, #[trigger] before[k]),
            decreases j,
        {
            j -= 1;
        }
        proof {
            lemma_insert_sorted_at(before, name@, j as int);
        }
        let ghost text = name@;
        out.insert(j, name);
        assert(out.deep_view() =~~= before.insert(j as int, text));
        i += 1;
        assert(all.take(i as int).drop_last() =~= all.take(i - 1));
    }
    assert(all.take(names.len() as int) =~= all);
    out
}

/// No name of `s` comes after one that follows it.
pub open spec fn non_descending(s: Seq<Seq<char>>) -> bool {
    forall|i: int, j: int| 0 <= i < j < s.len() ==> lex_le(#[trigger] s[i], #[trigger] s[j])
}

/// Putting a name into a sequence that does not descend gives one that does
/// not descend, with that name once more and the others as often as before.
pub proof fn lemma_insert_sorted(s: Seq<Seq<char>>, x: Seq<char>)
    requires
        non_descending(s),
    ensures
        non_descending(insert_sorted(s, x)),
        insert_sorted(s, x).to_multiset() == s.to_multiset().insert(x),
    decreases s.len(),
{
    if s.len() > 0 && lex_lt(x, s.last()) {
        let front = s.drop_last();
        let placed = insert_sorted(front, x);
        lemma_insert_sorted(front, x);
        front.to_multiset_ensures();
        placed.to_multiset_ensures();
        assert(s =~= front.push(s.last()));
        assert(placed.push(s.last()).to_multiset() =~= s.to_multiset().insert(x));
        let out = placed.push(s.last());
        assert forall|i: int, j: int| 0 <= i < j < out.len() implies lex_le(
            #[trigger] out[i],
            #[trigger] out[j],
        ) by {
            if j == out.len() - 1 {
                assert(placed.contains(placed[i]));
                assert(placed.to_multiset().count(placed[i]) > 0);
                vstd::multiset::lemma_insert_containment(front.to_multiset(), x, placed[i]);
                if placed[i] != x {
                    assert(front.to_multiset().count(placed[i]) > 0);
                    assert(front.contains(placed[i]));
                    let k = choose|k: int| 0 <= k < front.len() && front[k] == placed[i];
                    assert(lex_le(s[k], s[s.len() - 1]));
                }
            } else {
                assert(lex_le(placed[i], placed[j]));
            }
        }
    } else {
        s.to_multiset_ensures();
        let out = s.push(x);
        assert forall|i: int, j: int| 0 <= i < j < out.len() implies lex_le(
            #[trigger] out[i],
            #[trigger] out[j],
        ) by {
            if j == out.len() - 1 {
                lemma_lex_total(x, s.last());
                if i < s.len() - 1 {
                    assert(lex_le(s[i], s[s.len() - 1]));
                }
                lemma_lex_le_transitive(s[i], s.last(), x);
            } else {
                assert(lex_le(s[i], s[j]));
            }
        }
    }
}

/// Sorting gives the same names, each as often as before, in an order that
/// does not descend.
pub proof fn lemma_sort(s: Seq<Seq<char>>)
    ensures
        non_descending(sort(s)),
        sort(s).to_multiset() == s.to_multiset(),
        sort(s).len() == s.len(),
    decreases s.len(),
{
    if s.len() > 0 {
        lemma_sort(s.drop_last());
        lemma_insert_sorted(sort(s.drop_last()), s.last());
        s.drop_last().to_multiset_ensures();
        assert(s =~= s.drop_last().push(s.last()));
    }
    s.to_multiset_ensures();
    sort(s).to_multiset_ensures();
}

/// Whether `ship` takes one name out of each slot, in the order of the slots.
pub open spec fn picks_from(slots: Seq<Seq<Seq<char>>>, ship: Seq<Seq<char>>) -> bool {
    ship.len() == slots.len() && forall|i: int| 0 <= i < slots.len() ==> (#[trigger] slots[i]).contains(ship[i])
}

/// The ships of `cross` are those of `rest`, each extended by a name of
/// `part`.
proof fn lemma_cross(rest: Seq<Seq<Seq<char>>>, part: Seq<Seq<char>>, ship: Seq<Seq<char>>)
    ensures
        cross(rest, part).contains(ship) <==> ship.len() > 0 && rest.contains(ship.drop_last())
            && part.contains(ship.last()),
    decreases part.len(),
{
    if part.len() > 0 {
        let before = cross(rest, part.drop_last());
        let added = extend_each(rest, part.last());
        lemma_cross(rest, part.drop_last(), ship);
        if cross(rest, part).contains(ship) {
            let k = choose|k: int| 0 <= k < (before + added).len() && (before + added)[k] == ship;
            if k < before.len() {
                assert(before.contains(ship));
                let j = choose|j: int| 0 <= j < part.drop_last().len() && part.drop_last()[j] == ship.last();
                assert(part[j] == ship.last());
            } else {
                let r = k - before.len();
                assert(added[r] == rest[r].push(part.last()));
                assert(ship.drop_last() =~= rest[r]);
                assert(part[part.len() - 1] == ship.last());
            }
        }
        if ship.len() > 0 && rest.contains(ship.drop_last()) && part.contains(ship.last()) {
            let j = choose|j: int| 0 <= j < part.len() && part[j] == ship.last();
            if j < part.len() - 1 {
                assert(part.drop_last()[j] == ship.last());
                let k = choose|k: int| 0 <= k < before.len() && before[k] == ship;
                assert((before + added)[k] == ship);
            } else {
                let r = choose|r: int| 0 <= r < rest.len() && rest[r] == ship.drop_last();
                assert(added[r] =~= ship);
                assert((before + added)[before.len() + r] == ship);
            }
        }
    }
}

/// The combinations are exactly the ships that take one name out of each
/// slot.
pub proof fn lemma_resolve_ships(slots: Seq<Seq<Seq<char>>>, ship: Seq<Seq<char>>)
    requires
        slots.len() > 0,
    ensures
        spec_resolve_ships(slots).contains(ship) <==> picks_from(slots, ship),
    decreases slots.len(),
{
    if slots.len() == 1 {
        let singles = slots[0].map_values(|p: Seq<char>| seq![p]);
        if singles.contains(ship) {
            let k = choose|k: int| 0 <= k < singles.len() && singles[k] == ship;
            assert(ship[0] == slots[0][k]);
        }
        if picks_from(slots, ship) {
            assert(slots[0].contains(ship[0]));
            let k = choose|k: int| 0 <= k < slots[0].len() && slots[0][k] == ship[0];
            assert(singles[k] =~= ship);
        }
    } else {
        let rest = spec_resolve_ships(slots.drop_last());
        lemma_cross(rest, slots.last(), ship);
        if ship.len() > 0 {
            lemma_resolve_ships(slots.drop_last(), ship.drop_last());
        }
        if spec_resolve_ships(slots).contains(ship) {
            assert forall|i: int| 0 <= i < slots.len() implies (#[trigger] slots[i]).contains(ship[i]) by {
                if i < slots.len() - 1 {
                    assert(slots.drop_last()[i].contains(ship.drop_last()[i]));
                }
            }
        }
        if picks_from(slots, ship) {
            assert forall|i: int| 0 <= i < slots.drop_last().len() implies (#[trigger] slots.drop_last()[i]).contains(
                ship.drop_last()[i],
            ) by {
                assert(slots[i].contains(ship[i]));
            }
            assert(slots[slots.len() - 1].contains(ship[slots.len() - 1]));
        }
    }
}

} // verus!
