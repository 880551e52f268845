//! The rule tables, and the canonical names that they assign to the names
//! found in survey answers.

use crate::first::{first, lemma_first_is, lemma_first_none};
use crate::names::NameSet;
use crate::order::same_text;
use crate::table::Table;
use vstd::prelude::*;
use vstd::string::*;

verus! {

broadcast use vstd::string::group_string_axioms;

/// Shorthands for pairings, each with what it stands for.
#[derive(Debug, PartialEq, Eq)]
pub struct Smushes(pub Table<String>);

/// The variants of a character's name: one, or a set of them.
#[derive(Debug, PartialEq, Eq)]
pub enum Misspellings {
    Single(String),
    List(NameSet),
}

/// Canonical character names, each with the variants that resolve to it.
#[derive(Debug, PartialEq, Eq)]
pub struct Characters(pub Table<Misspellings>);

/// A named group of characters.
#[derive(Debug, PartialEq, Eq)]
pub struct Family {
    /// The characters of the group.
    pub members: NameSet,
    /// Other names under which the group goes.
    pub misspellings: NameSet,
    /// What may stand between the group's name and a member's name, besides a
    /// space.
    pub joiner: Option<String>,
}

/// The families, each under its canonical name.
#[derive(Debug, PartialEq, Eq)]
pub struct Families(pub Table<Family>);

/// The rule tables together.
#[derive(Debug, PartialEq, Eq)]
pub struct BaseCfg {
    pub smushes: Smushes,
    pub characters: Characters,
    pub families: Families,
}

impl Smushes {
    /// The shorthands ascend, each with its expansion.
    pub open spec fn wf(&self) -> bool {
        self.0.wf()
    }

    /// What `s` stands for: its expansion where it is a shorthand, else itself.
    pub open spec fn spec_desmush(&self, s: Seq<char>) -> Seq<char> {
        if self.0.keys().contains(s) {
            self.0.values()[self.0.keys().index_of(s)]@
        } else {
            s
        }
    }

    /// No shorthands.
    pub fn new() -> (out: Smushes)
        ensures
            out.wf(),
            out.0.keys().len() == 0,
    {
        Smushes(Table::new())
    }

    /// Makes `short` a shorthand for `long`.
    pub fn insert(&mut self, short: String, long: String)
        requires
            old(self).wf(),
        ensures
            final(self).wf(),
            final(self).0.holds_more(old(self).0, short@, long),
    {
        self.0.insert(short, long);
    }

    /// Replaces `s` by its expansion where it is a shorthand.
    pub fn desmush(&self, s: String) -> (out: String)
        requires
            self.wf(),
        ensures
            out@ == self.spec_desmush(s@),
    {
        match self.0.find(s.as_str()) {
            Some(i) => {
                proof {
                    self.0.lemma_wf();
                    crate::names::lemma_ascending_no_duplicates(self.0.keys());
                    let j = self.0.keys().index_of(s@);
                    assert(self.0.keys()[j] == s@);
                }
                self.0.value(i).clone()
            },
            None => s,
        }
    }
}

impl Misspellings {
    /// A list of variants ascends.
    pub open spec fn wf(&self) -> bool {
        match self {
            Misspellings::Single(_) => true,
            Misspellings::List(l) => l.wf(),
        }
    }

    /// Whether `value` is one of the variants.
    pub open spec fn spec_contains(&self, value: Seq<char>) -> bool {
        match self {
            Misspellings::Single(s) => s@ == value,
            Misspellings::List(l) => l@.contains(value),
        }
    }

    /// Whether `value` is one of the variants.
    pub fn contains(&self, value: &str) -> (found: bool)
        requires
            self.wf(),
        ensures
            found == self.spec_contains(value@),
    {
        match self {
            Misspellings::Single(s) => same_text(s.as_str(), value),
            Misspellings::List(l) => l.contains(value),
        }
    }
}

impl Characters {
    /// The canonical names ascend, and each list of variants ascends.
    pub open spec fn wf(&self) -> bool {
        &&& self.0.wf()
        &&& forall|i: int| 0 <= i < self.0.values().len() ==> (#[trigger] self.0.values()[i]).wf()
    }

    /// Whether `c` is a variant of the character at position `i`.
    pub open spec fn claims(&self, c: Seq<char>) -> spec_fn(int) -> bool {
        |i: int| self.0.values()[i].spec_contains(c)
    }

    /// The canonical name of `c`: that of the first character, in the order of
    /// the canonical names, of which `c` is a variant; `c` itself where there is
    /// none.
    pub open spec fn spec_canonicalize(&self, c: Seq<char>) -> Seq<char> {
        match first(self.0.size() as int, self.claims(c)) {
            Some(i) => self.0.keys()[i],
            None => c,
        }
    }

    /// No characters.
    pub fn new() -> (out: Characters)
        ensures
            out.wf(),
            out.0.keys().len() == 0,
    {
        Characters(Table::new())
    }

    /// Gives the character `canonical` the variants `misspellings`.
    pub fn insert(&mut self, canonical: String, misspellings: Misspellings)
        requires
            old(self).wf(),
            misspellings.wf(),
        ensures
            final(self).wf(),
            final(self).0.holds_more(old(self).0, canonical@, misspellings),
    {
        proof {
            old(self).0.lemma_wf();
        }
        self.0.insert(canonical, misspellings);
        proof {
            self.0.lemma_wf();
        }
    }

    /// Replaces `c` by the canonical name of the first character of which it is
    /// a variant.
    pub fn canonicalize(&self, c: String) -> (out: String)
        requires
            self.wf(),
        ensures
            out@ == self.spec_canonicalize(c@),
    {
        let n = self.0.len();
        let mut i: usize = 0;
        while i < n
            invariant
                self.wf(),
                n == self.0.size(),
                n == self.0.values().len(),
                i <= n,
                forall|j: int| 0 <= j < i ==> !#[trigger] self.claims(c@)(j),
            decreases n - i,
        {
            assert(self.0.values()[i as int].wf());
            if self.0.value(i).contains(c.as_str()) {
                proof {
                    lemma_first_is(n as int, self.claims(c@), i as int);
                }
                return self.0.key(i).clone();
            }
            i += 1;
        }
        proof {
            lemma_first_none(n as int, self.claims(c@));
        }
        c
    }
}

impl Family {
    /// The members ascend, and so do the other names.
    pub open spec fn wf(&self) -> bool {
        self.members.wf() && self.misspellings.wf()
    }

    /// Whether `c` is `name` and `member` with a space between them, or with the
    /// joiner between them.
    pub open spec fn spec_matches(&self, name: Seq<char>, member: Seq<char>, c: Seq<char>) -> bool {
        ||| name + seq![' '] + member == c
        ||| self.joiner matches Some(sep) && name + sep@ + member == c
    }

    /// Whether `c` names the member at position `m` together with the family,
    /// the family going by `name` or by one of its other names.
    pub open spec fn names_member(&self, name: Seq<char>, c: Seq<char>) -> spec_fn(int) -> bool {
        |m: int|
            self.spec_matches(name, self.members@[m], c) || exists|k: int|
                0 <= k < self.misspellings@.len() && self.spec_matches(
                    #[trigger] self.misspellings@[k],
                    self.members@[m],
                    c,
                )
    }

    /// The position of the first member that `c` names together with the family.
    pub open spec fn spec_resolve(&self, name: Seq<char>, c: Seq<char>) -> Option<int> {
        first(self.members@.len() as int, self.names_member(name, c))
    }

    /// Whether `c` is the family's name or one of its other names.
    pub open spec fn goes_by(&self, name: Seq<char>, c: Seq<char>) -> bool {
        c == name || self.misspellings@.contains(c)
    }

    /// A family of the given members, other names and joiner.
    pub fn new(members: NameSet, misspellings: NameSet, joiner: Option<String>) -> (out: Family)
        ensures
            out.members == members,
            out.misspellings == misspellings,
            out.joiner == joiner,
    {
        Family { members, misspellings, joiner }
    }

    /// Whether `c` is `name` and `member` with a space between them, or with the
    /// joiner between them.
    pub fn matches(&self, name: &str, member: &str, c: &str) -> (found: bool)
        ensures
            found == self.spec_matches(name@, member@, c@),
    {
        proof {
            reveal_strlit(" ");
            assert(" "@ =~= seq![' ']);
        }
        let spaced = name.to_owned().concat(" ").concat(member);
        if same_text(spaced.as_str(), c) {
            return true;
        }
        match &self.joiner {
            Some(sep) => {
                let joined = name.to_owned().concat(sep.as_str()).concat(member);
                same_text(joined.as_str(), c)
            },
            None => false,
        }
    }

    /// Whether `c` names `member` together with the family under one of its
    /// other names.
    fn matches_misspelled(&self, member: &str, c: &str) -> (found: bool)
        requires
            self.wf(),
        ensures
            found == exists|k: int|
                0 <= k < self.misspellings@.len() && self.spec_matches(
                    #[trigger] self.misspellings@[k],
                    member@,
                    c@,
                ),
    {
        let n = self.misspellings.len();
        let mut k: usize = 0;
        while k < n
            invariant
                k <= n,
                n == self.misspellings@.len(),
                forall|j: int| 0 <= j < k ==> !self.spec_matches(#[trigger] self.misspellings@[j], member@, c@),
            decreases n - k,
        {
            if self.matches(self.misspellings.get(k).as_str(), member, c) {
                return true;
            }
            k += 1;
        }
        false
    }

    /// The position of the first member that `c` names together with the
    /// family, which goes by `name` or by one of its other names.
    pub fn resolve(&self, name: &str, c: &str) -> (out: Option<usize>)
        requires
            self.wf(),
        ensures
            out matches Some(m) ==> self.spec_resolve(name@, c@) == Some(m as int),
            out is None ==> self.spec_resolve(name@, c@) is None,
    {
        let n = self.members.len();
        let mut m: usize = 0;
        while m < n
            invariant
                self.wf(),
                m <= n,
                n == self.members@.len(),
                forall|j: int| 0 <= j < m ==> !#[trigger] self.names_member(name@, c@)(j),
            decreases n - m,
        {
            let member = self.members.get(m);
            if self.matches(name, member.as_str(), c) || self.matches_misspelled(member.as_str(), c) {
                proof {
                    lemma_first_is(n as int, self.names_member(name@, c@), m as int);
                }
                return Some(m);
            }
            m += 1;
        }
        proof {
            lemma_first_none(n as int, self.names_member(name@, c@));
        }
        None
    }
}

impl Families {
    /// The families' names ascend, and each family is in order.
    pub open spec fn wf(&self) -> bool {
        &&& self.0.wf()
        &&& forall|i: int| 0 <= i < self.0.values().len() ==> (#[trigger] self.0.values()[i]).wf()
    }

    /// Whether the family at position `i` goes by `c`.
    pub open spec fn goes_by(&self, c: Seq<char>) -> spec_fn(int) -> bool {
        |i: int| self.0.values()[i].goes_by(self.0.keys()[i], c)
    }

    /// The names that `c` stands for: the members of the first family, in the
    /// order of the families' names, that goes by `c`; `c` alone where there is
    /// none.
    pub open spec fn spec_expand(&self, c: Seq<char>) -> Seq<Seq<char>> {
        match first(self.0.size() as int, self.goes_by(c)) {
            Some(i) => self.0.values()[i].members@,
            None => seq![c],
        }
    }

    /// Whether `c` names a member of the family at position `i` together with
    /// that family.
    pub open spec fn resolves(&self, c: Seq<char>) -> spec_fn(int) -> bool {
        |i: int| self.0.values()[i].spec_resolve(self.0.keys()[i], c) is Some
    }

    /// The member that `c` names together with its family: in the first family,
    /// in the order of the families' names, that has such a member, the first
    /// such member; `c` itself where there is none.
    pub open spec fn spec_canonicalize(&self, c: Seq<char>) -> Seq<char> {
        match first(self.0.size() as int, self.resolves(c)) {
            Some(i) => {
                let family = self.0.values()[i];
                family.members@[family.spec_resolve(self.0.keys()[i], c)->0]
            },
            None => c,
        }
    }

    /// No families.
    pub fn new() -> (out: Families)
        ensures
            out.wf(),
            out.0.keys().len() == 0,
    {
        Families(Table::new())
    }

    /// Puts `family` under the canonical name `name`.
    pub fn insert(&mut self, name: String, family: Family)
        requires
            old(self).wf(),
            family.wf(),
        ensures
            final(self).wf(),
            final(self).0.holds_more(old(self).0, name@, family),
    {
        proof {
            old(self).0.lemma_wf();
        }
        self.0.insert(name, family);
        proof {
            self.0.lemma_wf();
        }
    }

    /// Replaces the name of a family by the names of its members.
    pub fn expand(&self, c: String) -> (out: Vec<String>)
        requires
            self.wf(),
        ensures
            out.deep_view() == self.spec_expand(c@),
    {
        let n = self.0.len();
        let mut i: usize = 0;
        while i < n
            invariant
                self.wf(),
                n == self.0.size(),
                n == self.0.values().len(),
                i <= n,
                forall|j: int| 0 <= j < i ==> !#[trigger] self.goes_by(c@)(j),
            decreases n - i,
        {
            assert(self.0.values()[i as int].wf());
            let family = self.0.value(i);
            if same_text(c.as_str(), self.0.key(i).as_str()) || family.misspellings.contains(c.as_str()) {
                proof {
                    lemma_first_is(n as int, self.goes_by(c@), i as int);
                }
                return family.members.to_vec();
            }
            i += 1;
        }
        proof {
            lemma_first_none(n as int, self.goes_by(c@));
        }
        let ghost text = c@;
        let mut out: Vec<String> = Vec::new();
        out.push(c);
        assert(out.deep_view() =~~= seq![text]);
        out
    }

    /// Replaces a name that names a member together with its family by the
    /// member's name.
    pub fn canonicalize(&self, c: String) -> (out: String)
        requires
            self.wf(),
        ensures
            out@ == self.spec_canonicalize(c@),
    {
        let n = self.0.len();
        let mut i: usize = 0;
        while i < n
            invariant
                self.wf(),
                n == self.0.size(),
                n == self.0.values().len(),
                i <= n,
                forall|j: int| 0 <= j < i ==> !#[trigger] self.resolves(c@)(j),
            decreases n - i,
        {
            assert(self.0.values()[i as int].wf());
            let family = self.0.value(i);
            match family.resolve(self.0.key(i).as_str(), c.as_str()) {
                Some(m) => {
                    proof {
                        lemma_first_is(n as int, self.resolves(c@), i as int);
                    }
                    return family.members.get(m).clone();
                },
                None => {},
            }
            i += 1;
        }
        proof {
            lemma_first_none(n as int, self.resolves(c@));
        }
        c
    }
}

impl BaseCfg {
    /// The three tables are in order.
    pub open spec fn wf(&self) -> bool {
        self.smushes.wf() && self.characters.wf() && self.families.wf()
    }

    /// The canonical name of one name: the member's name where it names a
    /// member together with its family, and then the character's canonical name
    /// where it is a variant.
    pub open spec fn spec_resolve(&self, name: Seq<char>) -> Seq<char> {
        self.characters.spec_canonicalize(self.families.spec_canonicalize(name))
    }

    /// The canonical names that `character` stands for: where it is the name of
    /// a family, those of its members, else its own; without the empty ones.
    pub open spec fn spec_canonicalize(&self, character: Seq<char>) -> Seq<Seq<char>> {
        self.families.spec_expand(character).map_values(|name: Seq<char>| self.spec_resolve(name)).filter(
            |name: Seq<char>| name.len() > 0,
        )
    }

    /// The rule tables together.
    pub fn new(smushes: Smushes, characters: Characters, families: Families) -> (out: BaseCfg)
        ensures
            out.smushes == smushes,
            out.characters == characters,
            out.families == families,
    {
        BaseCfg { smushes, characters, families }
    }

    /// Expands `character` where it names a family, and gives each resulting
    /// name its canonical form, leaving out the empty ones.
    pub fn canonicalize(&self, character: String) -> (out: Vec<String>)
        requires
            self.wf(),
        ensures
            out.deep_view() == self.spec_canonicalize(character@),
    {
        let ghost resolve = |name: Seq<char>| self.spec_resolve(name);
        let ghost filled = |name: Seq<char>| name.len() > 0;
        let names = self.families.expand(character);
        let ghost all = names.deep_view();
        let mut out: Vec<String> = Vec::new();
        let mut i: usize = 0;
        assert(all.take(0).map_values(resolve).filter(filled) =~= Seq::<Seq<char>>::empty()) by {
            reveal(Seq::filter);
        }
        assert(out.deep_view() =~= Seq::<Seq<char>>::empty());
        while i < names.len()
            invariant
                self.wf(),
                i <= names.len(),
                all == names.deep_view(),
                resolve == (|name: Seq<char>| self.spec_resolve(name)),
                filled == (|name: Seq<char>| name.len() > 0),
                out.deep_view() == all.take(i as int).map_values(resolve).filter(filled),
            decreases names.len() - i,
        {
            let name = names[i].clone();
            assert(name@ == all[i as int]);
            let resolved = self.characters.canonicalize(self.families.canonicalize(name));
            proof {
                let done = all.take(i as int).map_values(resolve);
                assert(all.take(i + 1).map_values(resolve) =~= done.push(resolve(all[i as int])));
                done.lemma_filter_push(resolve(all[i as int]), filled);
            }
            if !resolved.as_str().is_empty() {
                let ghost before = out.deep_view();
                let ghost text = resolved@;
                out.push(resolved);
                assert(out.deep_view() =~~= before.push(text));
            }
            i += 1;
        }
        assert(all.take(names.len() as int) =~= all);
        out
    }
}

} // verus!
