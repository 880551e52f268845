//! Sets of names, kept in ascending order without repetition.

use crate::order::{compare, lemma_lex_irreflexive, lemma_lex_transitive, lex_lt, Order};
use vstd::prelude::*;

verus! {

/// Each text of `s` comes strictly before all that follow it.
pub open spec fn ascending(s: Seq<Seq<char>>) -> bool {
    forall|i: int, j: int| 0 <= i < j < s.len() ==> lex_lt(#[trigger] s[i], #[trigger] s[j])
}

/// In an ascending sequence no text occurs twice.
pub proof fn lemma_ascending_no_duplicates(s: Seq<Seq<char>>)
    requires
        ascending(s),
    ensures
        s.no_duplicates(),
{
    assert forall|i: int, j: int| 0 <= i < s.len() && 0 <= j < s.len() && i != j implies s[i]
        != s[j] by {
        lemma_lex_irreflexive(s[i]);
        if i < j {
            assert(lex_lt(s[i], s[j]));
        } else {
            assert(lex_lt(s[j], s[i]));
        }
    }
}

/// Two ascending sequences that hold the same texts are the same sequence: a
/// set of names has one ascending listing.
pub proof fn lemma_ascending_unique(a: Seq<Seq<char>>, b: Seq<Seq<char>>)
    requires
        ascending(a),
        ascending(b),
        a.to_set() == b.to_set(),
    ensures
        a == b,
    decreases a.len(),
{
    if a.len() == 0 {
        if b.len() > 0 {
            assert(b.to_set().contains(b[0]));
            assert(a.contains(b[0]));
        }
        assert(a =~= b);
    } else {
        assert(a.to_set().contains(a[0]));
        assert(b.contains(a[0]));
        let j = choose|j: int| 0 <= j < b.len() && b[j] == a[0];
        assert(b.to_set().contains(b[0]));
        assert(a.contains(b[0]));
        let i = choose|i: int| 0 <= i < a.len() && a[i] == b[0];
        if j > 0 {
            assert(lex_lt(b[0], b[j]));
            if i > 0 {
                assert(lex_lt(a[0], a[i]));
                crate::order::lemma_lex_asymmetric(b[0], b[j]);
            } else {
                lemma_lex_irreflexive(a[0]);
            }
        }
        let x = a[0];
        let ra = a.drop_first();
        let rb = b.drop_first();
        lemma_ascending_no_duplicates(a);
        lemma_ascending_no_duplicates(b);
        assert forall|y: Seq<char>| ra.contains(y) <==> rb.contains(y) by {
            if ra.contains(y) {
                let k = choose|k: int| 0 <= k < ra.len() && ra[k] == y;
                assert(a[k + 1] == y);
                assert(a.to_set().contains(y));
                assert(b.contains(y));
                let m = choose|m: int| 0 <= m < b.len() && b[m] == y;
                assert(m != 0);
                assert(rb[m - 1] == y);
            }
            if rb.contains(y) {
                let k = choose|k: int| 0 <= k < rb.len() && rb[k] == y;
                assert(b[k + 1] == y);
                assert(b.to_set().contains(y));
                assert(a.contains(y));
                let m = choose|m: int| 0 <= m < a.len() && a[m] == y;
                assert(m != 0);
                assert(ra[m - 1] == y);
            }
        }
        assert(ra.to_set() =~= rb.to_set());
        assert forall|p: int, q: int| 0 <= p < q < ra.len() implies lex_lt(#[trigger] ra[p], #[trigger] ra[q]) by {
            assert(lex_lt(a[p + 1], a[q + 1]));
        }
        assert forall|p: int, q: int| 0 <= p < q < rb.len() implies lex_lt(#[trigger] rb[p], #[trigger] rb[q]) by {
            assert(lex_lt(b[p + 1], b[q + 1]));
        }
        lemma_ascending_unique(ra, rb);
        assert(a =~= seq![x] + ra);
        assert(b =~= seq![x] + rb);
    }
}

/// The texts of a sequence with one more inserted are those of the sequence
/// and the one inserted.
pub proof fn lemma_insert_to_set(s: Seq<Seq<char>>, p: int, x: Seq<char>)
    requires
        0 <= p <= s.len(),
    ensures
        s.insert(p, x).to_set() == s.to_set().insert(x),
{
    let after = s.insert(p, x);
    assert forall|y: Seq<char>| after.contains(y) <==> s.contains(y) || y == x by {
        if after.contains(y) {
            let k = choose|k: int| 0 <= k < after.len() && after[k] == y;
            if k < p {
                assert(s[k] == y);
            } else if k > p {
                assert(s[k - 1] == y);
            }
        }
        if s.contains(y) {
            let k = choose|k: int| 0 <= k < s.len() && s[k] == y;
            if k < p {
                assert(after[k] == y);
            } else {
                assert(after[k + 1] == y);
            }
        }
        if y == x {
            assert(after[p] == y);
        }
    }
    assert(after.to_set() =~= s.to_set().insert(x));
}

/// A set of names. Its view lists the names in ascending order.
#[derive(Debug, PartialEq, Eq)]
pub struct NameSet {
    items: Vec<String>,
}

impl View for NameSet {
    type V = Seq<Seq<char>>;

    closed spec fn view(&self) -> Seq<Seq<char>> {
        self.items.deep_view()
    }
}

impl NameSet {
    /// The names are in strictly ascending order.
    pub open spec fn wf(&self) -> bool {
        ascending(self@)
    }

    /// The names as a mathematical set.
    pub open spec fn set(&self) -> Set<Seq<char>> {
        self@.to_set()
    }

    /// The empty set.
    pub fn new() -> (out: NameSet)
        ensures
            out@ == Seq::<Seq<char>>::empty(),
            out.wf(),
    {
        let out = NameSet { items: Vec::new() };
        assert(out@ =~= Seq::<Seq<char>>::empty());
        out
    }

    /// The number of names.
    pub fn len(&self) -> (n: usize)
        ensures
            n == self@.len(),
    {
        self.items.len()
    }

    /// The name at position `i` of the ascending order.
    pub fn get(&self, i: usize) -> (name: &String)
        requires
            i < self@.len(),
        ensures
            name@ == self@[i as int],
    {
        &self.items[i]
    }

    /// Where `name` stands in the order: the position of the first name that
    /// does not come before it, and whether that name is `name` itself.
    pub(crate) fn slot(&self, name: &str) -> (at: (usize, bool))
        requires
            self.wf(),
        ensures
            at.0 <= self@.len(),
            forall|j: int| 0 <= j < at.0 ==> lex_lt(#[trigger] self@[j], name@),
            at.1 ==> at.0 < self@.len() && self@[at.0 as int] == name@,
            !at.1 ==> forall|j: int| at.0 <= j < self@.len() ==> lex_lt(name@, #[trigger] self@[j]),
    {
        let mut i: usize = 0;
        while i < self.items.len()
            invariant
                i <= self@.len(),
                self@.len() == self.items.len(),
                self.wf(),
                forall|j: int| 0 <= j < i ==> lex_lt(#[trigger] self@[j], name@),
            decreases self.items.len() - i,
        {
            match compare(self.items[i].as_str(), name) {
                Order::Before => {},
                Order::Same => {
                    return (i, true);
                },
                Order::After => {
                    assert forall|j: int| i <= j < self@.len() implies lex_lt(
                        name@,
                        #[trigger] self@[j],
                    ) by {
                        if i < j {
                            assert(lex_lt(self@[i as int], self@[j]));
                            lemma_lex_transitive(name@, self@[i as int], self@[j]);
                        }
                    }
                    return (i, false);
                },
            }
            i += 1;
        }
        (i, false)
    }

    /// Whether `name` is in the set.
    pub fn contains(&self, name: &str) -> (found: bool)
        requires
            self.wf(),
        ensures
            found == self@.contains(name@),
    {
        let at = self.slot(name);
        proof {
            if !at.1 && self@.contains(name@) {
                let j = choose|j: int| 0 <= j < self@.len() && self@[j] == name@;
                lemma_lex_irreflexive(name@);
            }
        }
        at.1
    }

    /// Adds `name` where it is missing, and tells its position in the order
    /// and whether it was added.
    pub(crate) fn place(&mut self, name: String) -> (at: (usize, bool))
        requires
            old(self).wf(),
        ensures
            final(self).wf(),
            at.0 < final(self)@.len(),
            at.0 <= old(self)@.len(),
            final(self)@[at.0 as int] == name@,
            at.1 ==> !old(self)@.contains(name@) && final(self)@ == old(self)@.insert(at.0 as int, name@),
            !at.1 ==> old(self)@.contains(name@) && final(self)@ == old(self)@,
    {
        let at = self.slot(name.as_str());
        if at.1 {
            return (at.0, false);
        }
        let ghost before = self@;
        let ghost text = name@;
        proof {
            lemma_lex_irreflexive(text);
            if before.contains(text) {
                let j = choose|j: int| 0 <= j < before.len() && before[j] == text;
                assert(lex_lt(before[j], text) || lex_lt(text, before[j]));
            }
            assert forall|i: int, j: int| 0 <= i < j < before.insert(at.0 as int, text).len() implies lex_lt(
                #[trigger] before.insert(at.0 as int, text)[i],
                #[trigger] before.insert(at.0 as int, text)[j],
            ) by {
                let p = at.0 as int;
                if i < p && j > p {
                    assert(lex_lt(before[i], before[j - 1]));
                }
            }
        }
        self.items.insert(at.0, name);
        assert(self@ =~~= before.insert(at.0 as int, text));
        (at.0, true)
    }

    /// Takes `name` out where it is present, and tells the position it had.
    pub(crate) fn displace(&mut self, name: &str) -> (at: Option<usize>)
        requires
            old(self).wf(),
        ensures
            final(self).wf(),
            at matches Some(p) ==> p < old(self)@.len() && old(self)@[p as int] == name@ && final(self)@ == old(
                self,
            )@.remove(p as int),
            at is None ==> !old(self)@.contains(name@) && final(self)@ == old(self)@,
    {
        let at = self.slot(name);
        if !at.1 {
            proof {
                lemma_lex_irreflexive(name@);
                if self@.contains(name@) {
                    let j = choose|j: int| 0 <= j < self@.len() && self@[j] == name@;
                    assert(lex_lt(self@[j], name@) || lex_lt(name@, self@[j]));
                }
            }
            return None;
        }
        let ghost before = self@;
        self.items.remove(at.0);
        assert(self@ =~~= before.remove(at.0 as int));
        proof {
            assert forall|i: int, j: int| 0 <= i < j < self@.len() implies lex_lt(
                #[trigger] self@[i],
                #[trigger] self@[j],
            ) by {
                let p = at.0 as int;
                let a = if i < p { i } else { i + 1 };
                let b = if j < p { j } else { j + 1 };
                assert(lex_lt(before[a], before[b]));
            }
        }
        Some(at.0)
    }

    /// Removes `name` from the set, and tells whether it was present.
    pub fn remove(&mut self, name: &str) -> (present: bool)
        requires
            old(self).wf(),
        ensures
            final(self).wf(),
            present == old(self)@.contains(name@),
            final(self).set() == old(self).set().remove(name@),
    {
        let at = self.displace(name);
        proof {
            let before = old(self)@;
            match at {
                Some(p) => {
                    lemma_ascending_no_duplicates(before);
                    let after = before.remove(p as int);
                    assert forall|x: Seq<char>| after.contains(x) <==> before.contains(x) && x != name@ by {
                        if after.contains(x) {
                            let k = choose|k: int| 0 <= k < after.len() && after[k] == x;
                            let k0 = if k < p { k } else { k + 1 };
                            assert(before[k0] == x);
                        }
                        if before.contains(x) && x != name@ {
                            let k = choose|k: int| 0 <= k < before.len() && before[k] == x;
                            let k1 = if k < p { k } else { k - 1 };
                            assert(after[k1] == x);
                        }
                    }
                    assert(self.set() =~= old(self).set().remove(name@));
                },
                None => {
                    assert(self.set() =~= old(self).set().remove(name@));
                },
            }
        }
        at.is_some()
    }

    /// How many names of this set are not in `other`.
    pub fn count_outside(&self, other: &NameSet) -> (n: usize)
        requires
            self.wf(),
            other.wf(),
        ensures
            n == self.set().difference(other.set()).len(),
    {
        let mut n: usize = 0;
        let mut i: usize = 0;
        proof {
            lemma_ascending_no_duplicates(self@);
            assert(self@.take(0).to_set().difference(other.set()) =~= Set::<Seq<char>>::empty());
        }
        while i < self.items.len()
            invariant
                self.wf(),
                other.wf(),
                self@.no_duplicates(),
                i <= self@.len(),
                self@.len() == self.items.len(),
                n <= i,
                n == self@.take(i as int).to_set().difference(other.set()).len(),
            decreases self.items.len() - i,
        {
            let ghost done = self@.take(i as int);
            let ghost x = self@[i as int];
            proof {
                assert(self@.take(i + 1) =~= done.push(x));
                done.lemma_push_to_set_commute(x);
                vstd::seq_lib::seq_to_set_is_finite(done);
                if done.contains(x) {
                    let k = choose|k: int| 0 <= k < done.len() && done[k] == x;
                    assert(self@[k] == self@[i as int]);
                }
            }
            if !other.contains(self.items[i].as_str()) {
                assert(done.to_set().insert(x).difference(other.set()) =~= done.to_set().difference(
                    other.set(),
                ).insert(x));
                n += 1;
            } else {
                assert(done.to_set().insert(x).difference(other.set()) =~= done.to_set().difference(
                    other.set(),
                ));
            }
            i += 1;
        }
        assert(self@.take(self@.len() as int) =~= self@);
        n
    }

    /// Adds `name` to the set, and tells whether it was missing.
    pub fn insert(&mut self, name: String) -> (fresh: bool)
        requires
            old(self).wf(),
        ensures
            final(self).wf(),
            fresh == !old(self)@.contains(name@),
            final(self).set() == old(self).set().insert(name@),
    {
        let ghost text = name@;
        let at = self.place(name);
        proof {
            if at.1 {
                lemma_insert_to_set(old(self)@, at.0 as int, text);
            } else {
                assert(self.set() =~= old(self).set().insert(text));
            }
        }
        at.1
    }

    /// The names in ascending order, each as a string of its own.
    pub fn to_vec(&self) -> (names: Vec<String>)
        ensures
            names.deep_view() == self@,
    {
        let names = self.items.clone();
        assert(names.deep_view() == self.items.deep_view());
        names
    }

    /// The set of the names in `names`.
    pub fn from_vec(names: Vec<String>) -> (out: NameSet)
        ensures
            out.wf(),
            out.set() == names.deep_view().to_set(),
    {
        let mut out = NameSet::new();
        let mut i: usize = 0;
        assert(out.set() =~= names.deep_view().take(0).to_set());
        while i < names.len()
            invariant
                i <= names.len(),
                out.wf(),
                out.set() == names.deep_view().take(i as int).to_set(),
            decreases names.len() - i,
        {
            let name = names[i].clone();
            out.insert(name);
            i += 1;
            proof {
                let all = names.deep_view();
                assert(all.take(i as int) =~= all.take(i - 1).push(all[i - 1]));
                all.take(i - 1).lemma_push_to_set_commute(all[i - 1]);
            }
        }
        assert(names.deep_view().take(names.len() as int) =~= names.deep_view());
        out
    }
}

} // verus!
