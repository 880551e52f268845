//! What holds of the rule tables, of eligibility and of the search, whatever
//! the values.

use crate::fields::phrases;
use crate::first::{first, lemma_first_exists, lemma_first_is, lemma_first_none, lemma_first_some};
use crate::participant::ParticipantView;
use crate::rules::{BaseCfg, Characters, Families};
use crate::solver::Relation;
use crate::text::normalize;
use vstd::prelude::*;
use vstd::set_lib::{lemma_int_range, lemma_set_difference_len, lemma_subset_equality, set_int_range};

verus! {

/// Expanding a name under which a family goes, its canonical name or another,
/// yields the members of that family, provided that no family earlier in the
/// order of the canonical names goes by the same name.
pub proof fn lemma_expand_yields_members(families: Families, i: int, c: Seq<char>)
    requires
        families.wf(),
        0 <= i < families.0.size(),
        families.0.values()[i].goes_by(families.0.keys()[i], c),
        forall|j: int| 0 <= j < i ==> !(#[trigger] families.0.values()[j]).goes_by(families.0.keys()[j], c),
    ensures
        families.spec_expand(c) == families.0.values()[i].members@,
        families.spec_expand(c).to_set() == families.0.values()[i].members.set(),
{
    let p = families.goes_by(c);
    assert forall|j: int| 0 <= j < i implies !#[trigger] p(j) by {
        assert(!families.0.values()[j].goes_by(families.0.keys()[j], c));
    }
    lemma_first_is(families.0.size() as int, p, i);
}

/// A name under which no family goes stands for itself alone.
pub proof fn lemma_expand_leaves_others(families: Families, c: Seq<char>)
    requires
        forall|j: int|
            0 <= j < families.0.size() ==> !(#[trigger] families.0.values()[j]).goes_by(
                families.0.keys()[j],
                c,
            ),
    ensures
        families.spec_expand(c) == seq![c],
{
    let p = families.goes_by(c);
    assert forall|j: int| 0 <= j < families.0.size() implies !#[trigger] p(j) by {
        assert(!families.0.values()[j].goes_by(families.0.keys()[j], c));
    }
    lemma_first_none(families.0.size() as int, p);
}

/// A name that is no variant of any character is its own canonical name.
pub proof fn lemma_characters_keep_canonical(characters: Characters, c: Seq<char>)
    requires
        forall|i: int| 0 <= i < characters.0.size() ==> !(#[trigger] characters.0.values()[i]).spec_contains(c),
    ensures
        characters.spec_canonicalize(c) == c,
{
    let p = characters.claims(c);
    assert forall|i: int| 0 <= i < characters.0.size() implies !#[trigger] p(i) by {
        assert(!characters.0.values()[i].spec_contains(c));
    }
    lemma_first_none(characters.0.size() as int, p);
}

/// Where no canonical name of a character is a variant of any character,
/// canonicalizing twice gives what canonicalizing once gives.
pub proof fn lemma_characters_idempotent(characters: Characters, c: Seq<char>)
    requires
        forall|i: int, j: int|
            0 <= i < characters.0.size() && 0 <= j < characters.0.size() ==> !(
            #[trigger] characters.0.values()[j]).spec_contains(#[trigger] characters.0.keys()[i]),
    ensures
        characters.spec_canonicalize(characters.spec_canonicalize(c)) == characters.spec_canonicalize(c),
{
    let n = characters.0.size() as int;
    let found = first(n, characters.claims(c));
    if found is Some {
        lemma_first_some(n, characters.claims(c));
        let i = found->0;
        let name = characters.0.keys()[i];
        assert forall|j: int| 0 <= j < n implies !(#[trigger] characters.0.values()[j]).spec_contains(
            name,
        ) by {
            assert(!characters.0.values()[j].spec_contains(characters.0.keys()[i]));
        }
        lemma_characters_keep_canonical(characters, name);
    }
}

/// A name that names no member together with a family is left as it is.
pub proof fn lemma_families_keep_canonical(families: Families, c: Seq<char>)
    requires
        forall|i: int|
            0 <= i < families.0.size() ==> (#[trigger] families.0.values()[i]).spec_resolve(
                families.0.keys()[i],
                c,
            ) is None,
    ensures
        families.spec_canonicalize(c) == c,
{
    let p = families.resolves(c);
    assert forall|i: int| 0 <= i < families.0.size() implies !#[trigger] p(i) by {
        assert(families.0.values()[i].spec_resolve(families.0.keys()[i], c) is None);
    }
    lemma_first_none(families.0.size() as int, p);
}

/// Where no member's name names a member together with a family,
/// canonicalizing twice gives what canonicalizing once gives.
pub proof fn lemma_families_idempotent(families: Families, c: Seq<char>)
    requires
        forall|i: int, j: int, m: int|
            0 <= i < families.0.size() && 0 <= j < families.0.size() && 0 <= m
                < families.0.values()[j].members@.len() ==> (#[trigger] families.0.values()[i]).spec_resolve(
                families.0.keys()[i],
                #[trigger] families.0.values()[j].members@[m],
            ) is None,
    ensures
        families.spec_canonicalize(families.spec_canonicalize(c)) == families.spec_canonicalize(c),
{
    let n = families.0.size() as int;
    let found = first(n, families.resolves(c));
    if found is Some {
        lemma_first_some(n, families.resolves(c));
        let j = found->0;
        let family = families.0.values()[j];
        let at = family.spec_resolve(families.0.keys()[j], c);
        lemma_first_some(family.members@.len() as int, family.names_member(families.0.keys()[j], c));
        let m = at->0;
        let member = family.members@[m];
        assert forall|i: int| 0 <= i < n implies (#[trigger] families.0.values()[i]).spec_resolve(
            families.0.keys()[i],
            member,
        ) is None by {
            assert(families.0.values()[i].spec_resolve(
                families.0.keys()[i],
                families.0.values()[j].members@[m],
            ) is None);
        }
        lemma_families_keep_canonical(families, member);
    }
}

/// A family's name, or one of its other names, followed by a space or by the
/// family's joiner and then by a member's name, canonicalizes to the member,
/// provided that the phrase names no other member, of this family or of
/// another.
pub proof fn lemma_compound_names_member(families: Families, i: int, m: int, name: Seq<char>, sep: Seq<char>)
    requires
        0 <= i < families.0.size(),
        0 <= m < families.0.values()[i].members@.len(),
        name == families.0.keys()[i] || families.0.values()[i].misspellings@.contains(name),
        sep == seq![' '] || (families.0.values()[i].joiner matches Some(joiner) && sep == joiner@),
        forall|j: int, k: int|
            0 <= j < families.0.size() && 0 <= k < families.0.values()[j].members@.len() && (
            #[trigger] families.0.values()[j].names_member(
                families.0.keys()[j],
                name + sep + families.0.values()[i].members@[m],
            ))(k) ==> #[trigger] families.0.values()[j].members@[k] == families.0.values()[i].members@[m],
    ensures
        families.spec_canonicalize(name + sep + families.0.values()[i].members@[m])
            == families.0.values()[i].members@[m],
{
    let n = families.0.size() as int;
    let family = families.0.values()[i];
    let member = family.members@[m];
    let c = name + sep + member;
    let named = family.names_member(families.0.keys()[i], c);
    assert(named(m)) by {
        assert(family.spec_matches(name, member, c));
        if name != families.0.keys()[i] {
            let k = choose|k: int| 0 <= k < family.misspellings@.len() && family.misspellings@[k] == name;
            assert(family.spec_matches(family.misspellings@[k], family.members@[m], c));
        }
    }
    lemma_first_exists(family.members@.len() as int, named, m);
    assert(families.resolves(c)(i));
    lemma_first_exists(n, families.resolves(c), i);
    lemma_first_some(n, families.resolves(c));
    let j = first(n, families.resolves(c))->0;
    let winner = families.0.values()[j];
    lemma_first_some(winner.members@.len() as int, winner.names_member(families.0.keys()[j], c));
    let k = winner.spec_resolve(families.0.keys()[j], c)->0;
    assert(families.0.values()[j].names_member(families.0.keys()[j], c)(k));
    assert(families.0.values()[j].members@[k] == member);
}

/// Every name in the characters of a field is the normal form of a canonical
/// name, not empty, that one of the field's phrases stands for.
pub proof fn lemma_characters_are_normal(cfg: BaseCfg, plain: Seq<char>, x: Seq<char>)
    requires
        cfg.spec_characters(plain).contains(x),
    ensures
        exists|i: int, y: Seq<char>|
            0 <= i < phrases(plain).len() && y.len() > 0 && #[trigger] cfg.spec_canonicalize(
                normalize(phrases(plain)[i]),
            ).contains(y) && x == normalize(y),
{
    let of_phrase = |phrase: Seq<char>| cfg.phrase_characters(phrase);
    let sets = phrases(plain).map_values(of_phrase);
    let i = choose|i: int| 0 <= i < sets.len() && (#[trigger] sets[i]).contains(x);
    let names = cfg.spec_canonicalize(normalize(phrases(plain)[i]));
    let normal = names.map_values(|name: Seq<char>| normalize(name));
    assert(normal.contains(x));
    let k = choose|k: int| 0 <= k < normal.len() && normal[k] == x;
    let y = names[k];
    let resolved = cfg.families.spec_expand(normalize(phrases(plain)[i])).map_values(
        |name: Seq<char>| cfg.spec_resolve(name),
    );
    resolved.lemma_filter_pred(|name: Seq<char>| name.len() > 0, k);
    assert(names.contains(y));
}

/// A phrase whose normal form is empty adds no character, provided that no
/// family goes by the empty name and no character has it for a variant.
pub proof fn lemma_empty_phrase_adds_nothing(cfg: BaseCfg, phrase: Seq<char>)
    requires
        normalize(phrase).len() == 0,
        forall|j: int|
            0 <= j < cfg.families.0.size() ==> !(#[trigger] cfg.families.0.values()[j]).goes_by(
                cfg.families.0.keys()[j],
                Seq::<char>::empty(),
            ),
        forall|i: int|
            0 <= i < cfg.characters.0.size() ==> !(#[trigger] cfg.characters.0.values()[i]).spec_contains(
                Seq::<char>::empty(),
            ),
    ensures
        cfg.spec_canonicalize(normalize(phrase)) == Seq::<Seq<char>>::empty(),
        cfg.phrase_characters(phrase) == Set::<Seq<char>>::empty(),
{
    let nothing = Seq::<char>::empty();
    assert(normalize(phrase) =~= nothing);
    lemma_expand_leaves_others(cfg.families, nothing);
    assert forall|i: int| 0 <= i < cfg.families.0.size() implies (#[trigger] cfg.families.0.values()[i]).spec_resolve(
        cfg.families.0.keys()[i],
        nothing,
    ) is None by {
        let family = cfg.families.0.values()[i];
        let key = cfg.families.0.keys()[i];
        let named = family.names_member(key, nothing);
        assert forall|m: int| 0 <= m < family.members@.len() implies !#[trigger] named(m) by {
            assert((key + seq![' '] + family.members@[m]).len() > 0);
            assert forall|k: int| 0 <= k < family.misspellings@.len() implies !family.spec_matches(
                #[trigger] family.misspellings@[k],
                family.members@[m],
                nothing,
            ) by {
                assert((family.misspellings@[k] + seq![' '] + family.members@[m]).len() > 0);
                if family.joiner is Some {
                    let sep = family.joiner->0;
                    if (family.misspellings@[k] + sep@ + family.members@[m]) == nothing {
                        assert((family.misspellings@[k] + sep@ + family.members@[m]).len() == 0);
                        assert((seq![' '] + family.members@[m]).len() > 0);
                    }
                }
            }
            if family.joiner is Some {
                let sep = family.joiner->0;
                if (key + sep@ + family.members@[m]) == nothing {
                    assert((key + sep@ + family.members@[m]).len() == 0);
                }
            }
        }
        lemma_first_none(family.members@.len() as int, named);
    }
    lemma_families_keep_canonical(cfg.families, nothing);
    lemma_characters_keep_canonical(cfg.characters, nothing);
    let resolved = seq![nothing].map_values(|name: Seq<char>| cfg.spec_resolve(name));
    assert(resolved =~= seq![nothing]);
    assert(resolved.filter(|name: Seq<char>| name.len() > 0) =~= Seq::<Seq<char>>::empty()) by {
        resolved.lemma_filter_len(|name: Seq<char>| name.len() > 0);
        if resolved.filter(|name: Seq<char>| name.len() > 0).len() > 0 {
            resolved.lemma_filter_pred(|name: Seq<char>| name.len() > 0, 0);
            resolved.lemma_filter_contains_rev(
                |name: Seq<char>| name.len() > 0,
                resolved.filter(|name: Seq<char>| name.len() > 0)[0],
            );
        }
    }
    assert(cfg.phrase_characters(phrase) =~= Set::<Seq<char>>::empty());
}

/// Where the quota asks for all that the giftee desires, the gifter may give
/// exactly if it bans nothing of that.
pub proof fn lemma_full_quota(gifter: ParticipantView, giftee: ParticipantView)
    requires
        giftee.desired_characters.finite(),
        giftee.desired_ships.finite(),
        gifter.banned_characters.finite(),
        gifter.banned_ships.finite(),
    ensures
        gifter.can_make_for(giftee, giftee.desired_characters.len(), giftee.desired_ships.len()) <==> (
        giftee.desired_characters.disjoint(gifter.banned_characters) && giftee.desired_ships.disjoint(
            gifter.banned_ships,
        )),
{
    lemma_kept_all(giftee.desired_characters, gifter.banned_characters);
    lemma_kept_all(giftee.desired_ships, gifter.banned_ships);
}

/// What is left of a finite set after taking another away is as large as the
/// set exactly if the two share nothing.
proof fn lemma_kept_all(wanted: Set<Seq<char>>, banned: Set<Seq<char>>)
    requires
        wanted.finite(),
        banned.finite(),
    ensures
        wanted.difference(banned).len() >= wanted.len() <==> wanted.disjoint(banned),
{
    lemma_set_difference_len(wanted, banned);
    let shared = wanted.intersect(banned);
    vstd::set_lib::lemma_len_intersect(wanted, banned);
    if wanted.disjoint(banned) {
        assert(shared =~= Set::<Seq<char>>::empty());
    } else {
        let x = choose|x: Seq<char>| wanted.contains(x) && banned.contains(x);
        assert(shared.contains(x));
        assert(shared.finite());
        assert(shared.len() > 0) by {
            if shared.len() == 0 {
                vstd::set::axiom_set_contains_len(shared, x);
            }
        }
    }
}

/// Where the quota asks for nothing, every gifter may give.
pub proof fn lemma_empty_quota(gifter: ParticipantView, giftee: ParticipantView)
    ensures
        gifter.can_make_for(giftee, 0, 0),
{
}

/// A full path names every participant.
pub proof fn lemma_full_path_visits_everyone(rel: Relation, path: Seq<usize>, v: usize)
    requires
        rel.is_full_path(path),
        v < rel.size(),
    ensures
        path.contains(v),
{
    let n = rel.size() as int;
    let numbers = Seq::new(path.len(), |k: int| path[k] as int);
    assert(numbers.no_duplicates());
    numbers.unique_seq_to_set();
    lemma_int_range(0, n);
    assert(numbers.to_set().subset_of(set_int_range(0, n))) by {
        assert forall|x: int| numbers.to_set().contains(x) implies set_int_range(0, n).contains(x) by {
            let k = choose|k: int| 0 <= k < numbers.len() && numbers[k] == x;
            assert(path[k] < rel.size());
        }
    }
    vstd::seq_lib::seq_to_set_is_finite(numbers);
    lemma_subset_equality(numbers.to_set(), set_int_range(0, n));
    assert(set_int_range(0, n).contains(v as int));
    assert(numbers.to_set().contains(v as int));
    let k = choose|k: int| 0 <= k < numbers.len() && numbers[k] == v as int;
    assert(path[k] == v);
}

} // verus!
