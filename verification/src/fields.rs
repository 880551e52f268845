//! The fields of a survey answer: free text turned into sets of canonical
//! character names and pairing names.

use crate::names::NameSet;
use crate::parens::{strip_parentheticals, without_parentheticals};
use crate::rules::BaseCfg;
use crate::ships::{resolve_ships, ship_name, sorted, spec_resolve_ships};
use crate::text::{chars_of, joined, normalize, normalized, split, split_at, substitute, substituted, trim, trimmed};
use vstd::prelude::*;

verus! {

/// The texts that are in one of `sets`.
pub open spec fn union_of(sets: Seq<Set<Seq<char>>>) -> Set<Seq<char>> {
    Set::new(|x: Seq<char>| exists|i: int| 0 <= i < sets.len() && (#[trigger] sets[i]).contains(x))
}

/// The union of no sets is empty, and one set more adds its texts.
pub proof fn lemma_union_of_push(sets: Seq<Set<Seq<char>>>, last: Set<Seq<char>>)
    ensures
        union_of(Seq::empty()) == Set::<Seq<char>>::empty(),
        union_of(sets.push(last)) == union_of(sets).union(last),
{
    assert(union_of(Seq::empty()) =~= Set::<Seq<char>>::empty());
    let more = sets.push(last);
    assert forall|x: Seq<char>| union_of(more).contains(x) <==> union_of(sets).union(last).contains(x) by {
        if union_of(more).contains(x) {
            let i = choose|i: int| 0 <= i < more.len() && (#[trigger] more[i]).contains(x);
            if i < sets.len() {
                assert(sets[i].contains(x));
            }
        }
        if union_of(sets).contains(x) {
            let i = choose|i: int| 0 <= i < sets.len() && (#[trigger] sets[i]).contains(x);
            assert(more[i].contains(x));
        }
        if last.contains(x) {
            assert(more[sets.len() as int].contains(x));
        }
    }
    assert(union_of(more) =~= union_of(sets).union(last));
}

/// The phrases of a field: what stands between its commas and semicolons.
pub open spec fn phrases(plain: Seq<char>) -> Seq<Seq<char>> {
    split(substitute(plain, seq![';'], ','), ',')
}

/// The characters at which a pairing is cut into slots, besides the slash.
pub open spec fn pairing_signs() -> Seq<char> {
    seq!['x', '&', '\\']
}

/// Cuts a field into its phrases.
pub fn phrases_of(plain: &str) -> (out: Vec<Vec<char>>)
    ensures
        out.deep_view() == phrases(plain@),
{
    let chars = chars_of(plain);
    let mut semicolon: Vec<char> = Vec::new();
    semicolon.push(';');
    assert(semicolon@ =~= seq![';']);
    let commas = substituted(&chars, &semicolon, ',');
    split_at(&commas, ',')
}

impl BaseCfg {
    /// The canonical names that one phrase of a character field stands for,
    /// each in normal form.
    pub open spec fn phrase_characters(&self, phrase: Seq<char>) -> Set<Seq<char>> {
        self.spec_canonicalize(normalize(phrase)).map_values(|name: Seq<char>| normalize(name)).to_set()
    }

    /// The characters of a field from which the commentary is gone: those of
    /// all its phrases.
    pub open spec fn spec_characters(&self, plain: Seq<char>) -> Set<Seq<char>> {
        union_of(phrases(plain).map_values(|phrase: Seq<char>| self.phrase_characters(phrase)))
    }

    /// The slots of a pairing, each with the canonical names that it stands
    /// for.
    pub open spec fn spec_slots(&self, pairing: Seq<char>) -> Seq<Seq<Seq<char>>> {
        split(substitute(trim(pairing), pairing_signs(), '/'), '/').map_values(
            |slot: Seq<char>| self.spec_canonicalize(normalize(slot)),
        )
    }

    /// The canonical pairing names that one phrase of a pairing field stands
    /// for: the phrase is normalised, replaced by its expansion where it is a
    /// shorthand, and cut into slots; each combination of one name per slot
    /// is a pairing.
    pub open spec fn phrase_ships(&self, phrase: Seq<char>) -> Set<Seq<char>> {
        spec_resolve_ships(self.spec_slots(self.smushes.spec_desmush(normalize(phrase)))).map_values(
            |ship: Seq<Seq<char>>| ship_name(ship),
        ).to_set()
    }

    /// The pairings of a field from which the commentary is gone: those of all
    /// its phrases.
    pub open spec fn spec_ships(&self, plain: Seq<char>) -> Set<Seq<char>> {
        union_of(phrases(plain).map_values(|phrase: Seq<char>| self.phrase_ships(phrase)))
    }

    /// Adds to `out` the characters that `phrase` stands for.
    fn add_phrase_characters(&self, phrase: &Vec<char>, out: &mut NameSet)
        requires
            self.wf(),
            old(out).wf(),
        ensures
            final(out).wf(),
            final(out).set() == old(out).set().union(self.phrase_characters(phrase@)),
    {
        let ghost norm = |name: Seq<char>| normalize(name);
        let names = self.canonicalize(normalized(phrase));
        let ghost all = names.deep_view();
        let mut j: usize = 0;
        assert(out.set() =~= old(out).set().union(all.take(0).map_values(norm).to_set()));
        while j < names.len()
            invariant
                j <= names.len(),
                out.wf(),
                all == names.deep_view(),
                norm == (|name: Seq<char>| normalize(name)),
                out.set() == old(out).set().union(all.take(j as int).map_values(norm).to_set()),
            decreases names.len() - j,
        {
            let name = normalized(&chars_of(names[j].as_str()));
            out.insert(name);
            j += 1;
            proof {
                let done = all.take(j - 1).map_values(norm);
                assert(all.take(j as int).map_values(norm) =~= done.push(norm(all[j - 1])));
                done.lemma_push_to_set_commute(norm(all[j - 1]));
                assert(out.set() =~= old(out).set().union(all.take(j as int).map_values(norm).to_set()));
            }
        }
        assert(all.take(names.len() as int) =~= all);
    }

    /// The characters of a field from which the commentary is gone.
    pub fn characters_in(&self, plain: &str) -> (out: NameSet)
        requires
            self.wf(),
        ensures
            out.wf(),
            out.set() == self.spec_characters(plain@),
    {
        let ghost of_phrase = |phrase: Seq<char>| self.phrase_characters(phrase);
        let pieces = phrases_of(plain);
        let ghost all = pieces.deep_view();
        let mut out = NameSet::new();
        let mut k: usize = 0;
        proof {
            lemma_union_of_push(Seq::empty(), Set::empty());
            assert(all.take(0).map_values(of_phrase) =~= Seq::empty());
            assert(out.set() =~= Set::<Seq<char>>::empty());
        }
        while k < pieces.len()
            invariant
                self.wf(),
                k <= pieces.len(),
                out.wf(),
                all == pieces.deep_view(),
                of_phrase == (|phrase: Seq<char>| self.phrase_characters(phrase)),
                out.set() == union_of(all.take(k as int).map_values(of_phrase)),
            decreases pieces.len() - k,
        {
            assert(pieces[k as int]@ =~= all[k as int]);
            self.add_phrase_characters(&pieces[k], &mut out);
            k += 1;
            proof {
                let done = all.take(k - 1).map_values(of_phrase);
                assert(all.take(k as int).map_values(of_phrase) =~= done.push(of_phrase(all[k - 1])));
                lemma_union_of_push(done, of_phrase(all[k - 1]));
            }
        }
        assert(all.take(pieces.len() as int) =~= all);
        out
    }

    /// The characters that a character field names, in canonical form.
    pub fn process_characters(&self, characters: String) -> (out: NameSet)
        requires
            self.wf(),
        ensures
            out.wf(),
            out.set() == self.spec_characters(without_parentheticals(characters@)),
    {
        let plain = strip_parentheticals(characters.as_str());
        self.characters_in(plain.as_str())
    }

    /// The slots of a pairing, each with the canonical names that it stands
    /// for.
    pub fn slots(&self, pairing: &str) -> (out: Vec<Vec<String>>)
        requires
            self.wf(),
        ensures
            out.deep_view() == self.spec_slots(pairing@),
    {
        let ghost of_slot = |slot: Seq<char>| self.spec_canonicalize(normalize(slot));
        let mut signs: Vec<char> = Vec::new();
        signs.push('x');
        signs.push('&');
        signs.push('\\');
        assert(signs@ =~= pairing_signs());
        let inner = trimmed(&chars_of(pairing));
        let parts = split_at(&substituted(&inner, &signs, '/'), '/');
        let ghost all = parts.deep_view();
        let mut out: Vec<Vec<String>> = Vec::new();
        let mut i: usize = 0;
        assert(out.deep_view() =~= all.take(0).map_values(of_slot));
        while i < parts.len()
            invariant
                self.wf(),
                i <= parts.len(),
                all == parts.deep_view(),
                of_slot == (|slot: Seq<char>| self.spec_canonicalize(normalize(slot))),
                out.deep_view() == all.take(i as int).map_values(of_slot),
            decreases parts.len() - i,
        {
            assert(parts[i as int]@ =~= all[i as int]);
            let names = self.canonicalize(normalized(&parts[i]));
            let ghost before = out.deep_view();
            let ghost added = names.deep_view();
            out.push(names);
            assert(out.deep_view() =~~= before.push(added));
            i += 1;
            assert(all.take(i as int).map_values(of_slot) =~= all.take(i - 1).map_values(of_slot).push(added));
        }
        assert(all.take(parts.len() as int) =~= all);
        out
    }

    /// Adds to `out` the pairings that `phrase` stands for.
    fn add_phrase_ships(&self, phrase: &Vec<char>, out: &mut NameSet)
        requires
            self.wf(),
            old(out).wf(),
        ensures
            final(out).wf(),
            final(out).set() == old(out).set().union(self.phrase_ships(phrase@)),
    {
        let ghost name_of = |ship: Seq<Seq<char>>| ship_name(ship);
        let pairing = self.smushes.desmush(normalized(phrase));
        let ships = resolve_ships(self.slots(pairing.as_str()));
        let ghost all = ships.deep_view();
        let mut j: usize = 0;
        assert(out.set() =~= old(out).set().union(all.take(0).map_values(name_of).to_set()));
        while j < ships.len()
            invariant
                j <= ships.len(),
                out.wf(),
                all == ships.deep_view(),
                name_of == (|ship: Seq<Seq<char>>| ship_name(ship)),
                out.set() == old(out).set().union(all.take(j as int).map_values(name_of).to_set()),
            decreases ships.len() - j,
        {
            let ship = sorted(&ships[j]);
            out.insert(joined(&ship, '/'));
            j += 1;
            proof {
                let done = all.take(j - 1).map_values(name_of);
                assert(all.take(j as int).map_values(name_of) =~= done.push(name_of(all[j - 1])));
                done.lemma_push_to_set_commute(name_of(all[j - 1]));
                assert(out.set() =~= old(out).set().union(all.take(j as int).map_values(name_of).to_set()));
            }
        }
        assert(all.take(ships.len() as int) =~= all);
    }

    /// The pairings of a field from which the commentary is gone.
    pub fn ships_in(&self, plain: &str) -> (out: NameSet)
        requires
            self.wf(),
        ensures
            out.wf(),
            out.set() == self.spec_ships(plain@),
    {
        let ghost of_phrase = |phrase: Seq<char>| self.phrase_ships(phrase);
        let pieces = phrases_of(plain);
        let ghost all = pieces.deep_view();
        let mut out = NameSet::new();
        let mut k: usize = 0;
        proof {
            lemma_union_of_push(Seq::empty(), Set::empty());
            assert(all.take(0).map_values(of_phrase) =~= Seq::empty());
            assert(out.set() =~= Set::<Seq<char>>::empty());
        }
        while k < pieces.len()
            invariant
                self.wf(),
                k <= pieces.len(),
                out.wf(),
                all == pieces.deep_view(),
                of_phrase == (|phrase: Seq<char>| self.phrase_ships(phrase)),
                out.set() == union_of(all.take(k as int).map_values(of_phrase)),
            decreases pieces.len() - k,
        {
            assert(pieces[k as int]@ =~= all[k as int]);
            self.add_phrase_ships(&pieces[k], &mut out);
            k += 1;
            proof {
                let done = all.take(k - 1).map_values(of_phrase);
                assert(all.take(k as int).map_values(of_phrase) =~= done.push(of_phrase(all[k - 1])));
                lemma_union_of_push(done, of_phrase(all[k - 1]));
            }
        }
        assert(all.take(pieces.len() as int) =~= all);
        out
    }

    /// The pairings that a pairing field names, in canonical form.
    pub fn process_ships(&self, ships: String) -> (out: NameSet)
        requires
            self.wf(),
        ensures
            out.wf(),
            out.set() == self.spec_ships(without_parentheticals(ships@)),
    {
        let plain = strip_parentheticals(ships.as_str());
        self.ships_in(plain.as_str())
    }
}

} // verus!
