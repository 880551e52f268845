//! The search for a gift-giving order: a path through the relation "may give
//! to" that visits every participant exactly once.

use vstd::prelude::*;

verus! {

/// Calls `rand::seq::SliceRandom::shuffle` on the items of `list`, with the
/// generator that `rand::thread_rng` hands out. The method swaps items of the
/// slice in place, so whatever order comes out holds the same items, each as
/// often as before.
#[verifier::external_body]
fn shuffle_in_place(list: &mut Vec<usize>)
    ensures
        final(list)@.to_multiset() == old(list)@.to_multiset(),
{
    rand::seq::SliceRandom::shuffle(list.as_mut_slice(), &mut rand::thread_rng());
}

/// Only one participant is the first of those with the fewest successors.
pub proof fn lemma_start_unique(rel: Relation, s: int, t: int)
    requires
        rel.is_start(s),
        rel.is_start(t),
    ensures
        s == t,
{
    if t < s {
        assert(rel.out_degree(s) < rel.out_degree(t));
        assert(rel.out_degree(t) <= rel.out_degree(s));
    } else if s < t {
        assert(rel.out_degree(t) < rel.out_degree(s));
        assert(rel.out_degree(s) <= rel.out_degree(t));
    }
}

/// A directed relation over the participants `0 .. size`: for each of them the
/// list of those it leads to.
#[derive(Debug, PartialEq, Eq)]
pub struct Relation {
    successors: Vec<Vec<usize>>,
}

impl Relation {
    /// The number of participants.
    pub closed spec fn size(&self) -> nat {
        self.successors.len() as nat
    }

    /// Those that `a` leads to, in the order in which the search tries them.
    pub closed spec fn successors_of(&self, a: int) -> Seq<usize> {
        self.successors[a]@
    }

    /// Every listed successor is a participant.
    pub open spec fn wf(&self) -> bool {
        forall|a: int, k: int|
            0 <= a < self.size() && 0 <= k < self.successors_of(a).len() ==> (
            #[trigger] self.successors_of(a)[k]) < self.size()
    }

    /// `a` leads to `b`.
    pub open spec fn edge(&self, a: usize, b: usize) -> bool {
        a < self.size() && self.successors_of(a as int).contains(b)
    }

    /// The number of participants that `a` leads to, counted as listed.
    pub open spec fn out_degree(&self, a: int) -> nat {
        self.successors_of(a).len()
    }

    /// `path` walks along the relation without visiting anyone twice.
    pub open spec fn is_path(&self, path: Seq<usize>) -> bool {
        &&& forall|k: int| 0 <= k < path.len() ==> (#[trigger] path[k]) < self.size()
        &&& forall|k: int| 0 <= k < path.len() - 1 ==> self.edge(#[trigger] path[k], path[k + 1])
        &&& path.no_duplicates()
    }

    /// `path` walks along the relation and visits every participant exactly once.
    pub open spec fn is_full_path(&self, path: Seq<usize>) -> bool {
        self.is_path(path) && path.len() == self.size()
    }

    /// `full` is a full path that begins with `prefix`.
    pub open spec fn completes(&self, prefix: Seq<usize>, full: Seq<usize>) -> bool {
        self.is_full_path(full) && prefix.is_prefix_of(full)
    }

    /// No full path begins with `prefix`.
    pub open spec fn dead_end(&self, prefix: Seq<usize>) -> bool {
        forall|full: Seq<usize>| !#[trigger] self.completes(prefix, full)
    }

    /// `s` is the first of the participants with the fewest successors.
    pub open spec fn is_start(&self, s: int) -> bool {
        &&& 0 <= s < self.size()
        &&& forall|a: int| 0 <= a < self.size() ==> self.out_degree(s) <= #[trigger] self.out_degree(a)
        &&& forall|a: int| 0 <= a < s ==> self.out_degree(s) < #[trigger] self.out_degree(a)
    }

    /// The relation with the given successor lists, or `None` where a list
    /// names someone who is no participant.
    pub fn new(successors: Vec<Vec<usize>>) -> (out: Option<Relation>)
        ensures
            out is Some <==> (forall|a: int, k: int|
                0 <= a < successors.len() && 0 <= k < successors[a].len() ==> (
                #[trigger] successors[a][k]) < successors.len()),
            out matches Some(r) ==> r.wf() && r.size() == successors.len() && (forall|a: int|
                0 <= a < successors.len() ==> #[trigger] r.successors_of(a) == successors[a]@),
    {
        let n = successors.len();
        let mut a: usize = 0;
        while a < n
            invariant
                a <= n,
                n == successors.len(),
                forall|i: int, k: int|
                    0 <= i < a && 0 <= k < successors[i].len() ==> (#[trigger] successors[i][k])
                        < n,
            decreases n - a,
        {
            let list = &successors[a];
            let mut k: usize = 0;
            while k < list.len()
                invariant
                    k <= list.len(),
                    a < n,
                    n == successors.len(),
                    list@ == successors[a as int]@,
                    forall|j: int| 0 <= j < k ==> (#[trigger] list[j]) < n,
                decreases list.len() - k,
            {
                if list[k] >= n {
                    assert(successors[a as int][k as int] >= n);
                    return None;
                }
                k += 1;
            }
            a += 1;
        }
        Some(Relation { successors })
    }

    /// The number of participants.
    pub fn len(&self) -> (n: usize)
        ensures
            n == self.size(),
    {
        self.successors.len()
    }

    /// Puts the successors of each participant in a random order. Who leads
    /// to whom stays as it was.
    pub fn shuffle(&mut self)
        requires
            old(self).wf(),
        ensures
            final(self).wf(),
            final(self).size() == old(self).size(),
            forall|a: int|
                0 <= a < old(self).size() ==> (#[trigger] final(self).successors_of(a)).to_multiset()
                    == old(self).successors_of(a).to_multiset(),
    {
        let n = self.successors.len();
        let mut a: usize = 0;
        while a < n
            invariant
                a <= n,
                n == self.size(),
                n == old(self).size(),
                forall|i: int|
                    0 <= i < a ==> (#[trigger] self.successors_of(i)).to_multiset() == old(
                        self,
                    ).successors_of(i).to_multiset(),
                forall|i: int| a <= i < n ==> #[trigger] self.successors_of(i) == old(self).successors_of(i),
            decreases n - a,
        {
            let mut list: Vec<usize> = Vec::new();
            let mut k: usize = 0;
            while k < self.successors[a].len()
                invariant
                    a < n,
                    n == self.size(),
                    k <= self.successors_of(a as int).len(),
                    list@ == self.successors_of(a as int).take(k as int),
                decreases self.successors_of(a as int).len() - k,
            {
                list.push(self.successors[a][k]);
                k += 1;
                assert(self.successors_of(a as int).take(k as int) == self.successors_of(a as int).take(
                    k - 1,
                ).push(self.successors_of(a as int)[k - 1]));
            }
            assert(self.successors_of(a as int).take(k as int) == self.successors_of(a as int));
            shuffle_in_place(&mut list);
            let ghost before = *self;
            self.successors.set(a, list);
            assert(forall|i: int| 0 <= i < n && i != a ==> #[trigger] self.successors_of(i) == before.successors_of(i));
            a += 1;
        }
        proof {
            assert forall|a: int, k: int|
                0 <= a < self.size() && 0 <= k < self.successors_of(a).len() implies (
            #[trigger] self.successors_of(a)[k]) < self.size() by {
                let now = self.successors_of(a);
                let then = old(self).successors_of(a);
                now.to_multiset_ensures();
                then.to_multiset_ensures();
                assert(now.contains(now[k]));
                assert(now.to_multiset().count(now[k]) > 0);
                assert(then.to_multiset().count(now[k]) > 0);
                assert(then.contains(now[k]));
                let j = choose|j: int| 0 <= j < then.len() && then[j] == now[k];
                assert(then[j] < old(self).size());
            }
        }
    }

    /// The first of the participants with the fewest successors: where the
    /// search begins. `None` where there is no participant.
    pub fn start(&self) -> (out: Option<usize>)
        ensures
            self.size() == 0 <==> out is None,
            out matches Some(s) ==> self.is_start(s as int),
    {
        let n = self.successors.len();
        if n == 0 {
            return None;
        }
        let mut best: usize = 0;
        let mut a: usize = 1;
        while a < n
            invariant
                1 <= a <= n,
                n == self.size(),
                best < a,
                forall|i: int| 0 <= i < a ==> self.out_degree(best as int) <= #[trigger] self.out_degree(i),
                forall|i: int| 0 <= i < best ==> self.out_degree(best as int) < #[trigger] self.out_degree(i),
            decreases n - a,
        {
            if self.successors[a].len() < self.successors[best].len() {
                best = a;
            }
            a += 1;
        }
        Some(best)
    }

    /// Tries to extend `path` to a full path, depth first, taking the
    /// successors of its last participant in their listed order. `used` marks
    /// the participants on the path.
    fn extend(&self, path: &mut Vec<usize>, used: &mut Vec<bool>) -> (found: bool)
        requires
            self.wf(),
            self.is_path(old(path)@),
            0 < old(path)@.len() <= self.size(),
            old(used)@.len() == self.size(),
            forall|v: int| 0 <= v < self.size() ==> (#[trigger] old(used)@[v]) == old(path)@.contains(v as usize),
        ensures
            found ==> self.completes(old(path)@, final(path)@),
            !found ==> self.dead_end(old(path)@) && final(path)@ == old(path)@ && final(used)@ == old(
                used,
            )@,
        decreases self.size() - old(path)@.len(),
    {
        let n = self.successors.len();
        if path.len() == n {
            return true;
        }
        let current = path[path.len() - 1];
        let ghost stem = path@;
        let ghost marks = used@;
        let mut k: usize = 0;
        while k < self.successors[current as usize].len()
            invariant
                self.wf(),
                n == self.size(),
                current < n,
                stem.len() < n,
                stem.len() > 0,
                stem.last() == current,
                self.is_path(stem),
                path@ == stem,
                stem == old(path)@,
                used@ == marks,
                marks == old(used)@,
                marks.len() == n,
                forall|v: int| 0 <= v < n ==> (#[trigger] marks[v]) == stem.contains(v as usize),
                k <= self.successors_of(current as int).len(),
                forall|j: int| 0 <= j < k ==> self.dead_end(stem.push(#[trigger] self.successors_of(current as int)[j])),
            decreases self.successors_of(current as int).len() - k,
        {
            let next = self.successors[current][k];
            assert(next == self.successors_of(current as int)[k as int]);
            assert(next < n);
            if !used[next] {
                used.set(next, true);
                path.push(next);
                proof {
                    let longer = stem.push(next);
                    assert(self.edge(current, next));
                    assert(self.is_path(longer)) by {
                        assert forall|i: int| 0 <= i < longer.len() - 1 implies self.edge(
                            #[trigger] longer[i],
                            longer[i + 1],
                        ) by {
                            if i < stem.len() - 1 {
                                assert(self.edge(stem[i], stem[i + 1]));
                            }
                        }
                    }
                    assert forall|v: int| 0 <= v < n implies (#[trigger] used@[v]) == longer.contains(
                        v as usize,
                    ) by {
                        if v == next {
                            assert(longer[stem.len() as int] == next);
                        } else {
                            assert(marks[v] == stem.contains(v as usize));
                            if stem.contains(v as usize) {
                                let i = choose|i: int| 0 <= i < stem.len() && stem[i] == v as usize;
                                assert(longer[i] == v as usize);
                            }
                            if longer.contains(v as usize) {
                                let i = choose|i: int| 0 <= i < longer.len() && longer[i] == v as usize;
                                assert(stem[i] == v as usize);
                            }
                        }
                    }
                }
                if self.extend(path, used) {
                    proof {
                        assert(stem.is_prefix_of(path@)) by {
                            let longer = stem.push(next);
                            assert(longer.is_prefix_of(path@));
                            assert(stem =~= path@.subrange(0, stem.len() as int)) by {
                                assert forall|i: int| 0 <= i < stem.len() implies stem[i] == path@[i] by {
                                    assert(longer[i] == path@[i]);
                                }
                            }
                        }
                    }
                    return true;
                }
                path.pop();
                used.set(next, false);
                assert(path@ =~= stem);
                assert(used@ =~= marks);
            } else {
                proof {
                    let longer = stem.push(next);
                    assert forall|full: Seq<usize>| !#[trigger] self.completes(longer, full) by {
                        if self.completes(longer, full) {
                            let i = choose|i: int| 0 <= i < stem.len() && stem[i] == next;
                            assert(full[i] == longer[i]);
                            assert(full[stem.len() as int] == longer[stem.len() as int]);
                        }
                    }
                }
            }
            k += 1;
        }
        proof {
            assert forall|full: Seq<usize>| !#[trigger] self.completes(stem, full) by {
                if self.completes(stem, full) {
                    let m = stem.len() as int;
                    let w = full[m];
                    assert(full[m - 1] == stem[m - 1]);
                    assert(self.edge(full[m - 1], full[m]));
                    let j = choose|j: int|
                        0 <= j < self.successors_of(current as int).len() && self.successors_of(
                            current as int,
                        )[j] == w;
                    assert(self.dead_end(stem.push(self.successors_of(current as int)[j])));
                    assert(self.completes(stem.push(w), full)) by {
                        assert(stem.push(w) =~= full.subrange(0, m + 1)) by {
                            assert forall|i: int| 0 <= i < m + 1 implies stem.push(w)[i] == full[i] by {
                                if i < m {
                                    assert(stem[i] == full[i]);
                                }
                            }
                        }
                    }
                }
            }
        }
        false
    }

    /// Searches for a full path that begins at `start`.
    pub fn search_from(&self, start: usize) -> (out: Option<Vec<usize>>)
        requires
            self.wf(),
            start < self.size(),
        ensures
            out matches Some(path) ==> self.is_full_path(path@) && path@[0] == start,
            out is None <==> self.dead_end(seq![start]),
    {
        let n = self.successors.len();
        let mut used: Vec<bool> = Vec::new();
        let mut v: usize = 0;
        while v < n
            invariant
                v <= n,
                used@.len() == v,
                forall|i: int| 0 <= i < v ==> (#[trigger] used@[i]) == (i == start),
            decreases n - v,
        {
            used.push(v == start);
            v += 1;
        }
        let mut path: Vec<usize> = Vec::new();
        path.push(start);
        proof {
            assert(path@ =~= seq![start]);
            assert forall|i: int| 0 <= i < n implies (#[trigger] used@[i]) == path@.contains(i as usize) by {
                if i == start {
                    assert(path@[0] == start);
                }
            }
        }
        if self.extend(&mut path, &mut used) {
            proof {
                assert(seq![start].is_prefix_of(path@));
                assert(seq![start][0] == path@[0]);
                assert(self.completes(seq![start], path@));
            }
            Some(path)
        } else {
            None
        }
    }

    /// Searches for a full path from the participant at which the search
    /// begins. `None` where there is no participant, or no full path from there.
    pub fn search(&self) -> (out: Option<Vec<usize>>)
        requires
            self.wf(),
        ensures
            out matches Some(path) ==> self.is_full_path(path@) && self.is_start(path@[0] as int),
            out is None <==> self.size() == 0 || exists|s: int| self.is_start(s) && self.dead_end(seq![s as usize]),
    {
        match self.start() {
            None => None,
            Some(s) => {
                let out = self.search_from(s);
                proof {
                    assert forall|t: int| self.is_start(t) implies t == s by {
                        lemma_start_unique(*self, s as int, t);
                    }
                }
                out
            },
        }
    }
}

} // verus!
