//! The exchange as a whole: who may give to whom, and the order in which the
//! gifts go round.

use crate::participant::{Participant, Quota};
use crate::solver::Relation;
use vstd::prelude::*;

verus! {

/// Whether participant `a` may give to participant `b`: they are two, and `a`
/// bans few enough of what `b` desires to meet the quota of `b`.
pub open spec fn may_give(ps: Seq<Participant>, quotas: Seq<Quota>, a: int, b: int) -> bool {
    a != b && ps[a]@.can_make_for(ps[b]@, quotas[b].characters as nat, quotas[b].ships as nat)
}

/// The participants, as they are numbered.
pub open spec fn everyone(n: nat) -> Seq<usize> {
    Seq::new(n, |b: int| b as usize)
}

/// Those to whom participant `a` may give.
pub open spec fn gives_to(ps: Seq<Participant>, quotas: Seq<Quota>, a: int) -> spec_fn(usize) -> bool {
    |b: usize| may_give(ps, quotas, a, b as int)
}

/// The participants to whom `a` may give, in their order.
pub open spec fn giftees(ps: Seq<Participant>, quotas: Seq<Quota>, a: int) -> Seq<usize> {
    everyone(ps.len()).filter(gives_to(ps, quotas, a))
}

/// `path` names every participant exactly once, and each but the last may
/// give to the one named next.
pub open spec fn is_order(ps: Seq<Participant>, quotas: Seq<Quota>, path: Seq<usize>) -> bool {
    &&& path.len() == ps.len()
    &&& path.no_duplicates()
    &&& forall|k: int| 0 <= k < path.len() ==> (#[trigger] path[k]) < ps.len()
    &&& forall|k: int|
        0 <= k < path.len() - 1 ==> may_give(ps, quotas, (#[trigger] path[k]) as int, path[k + 1] as int)
}

/// `s` is the first of the participants with the fewest giftees.
pub open spec fn is_problem_child(ps: Seq<Participant>, quotas: Seq<Quota>, s: int) -> bool {
    &&& 0 <= s < ps.len()
    &&& forall|a: int|
        0 <= a < ps.len() ==> giftees(ps, quotas, s).len() <= (#[trigger] giftees(ps, quotas, a)).len()
    &&& forall|a: int| 0 <= a < s ==> giftees(ps, quotas, s).len() < (#[trigger] giftees(ps, quotas, a)).len()
}

/// `path` is an order that begins with the first of the participants with the
/// fewest giftees.
pub open spec fn is_solution(ps: Seq<Participant>, quotas: Seq<Quota>, path: Seq<usize>) -> bool {
    is_order(ps, quotas, path) && is_problem_child(ps, quotas, path[0] as int)
}

/// The emails of the participants that `path` names.
pub open spec fn emails_along(ps: Seq<Participant>, path: Seq<usize>) -> Seq<Seq<char>> {
    path.map_values(|i: usize| ps[i as int].email@)
}

/// All of `ps` are well-formed.
pub open spec fn all_wf(ps: Seq<Participant>) -> bool {
    forall|i: int| 0 <= i < ps.len() ==> (#[trigger] ps[i]).wf()
}

/// How the search for an order ended.
#[derive(Debug, PartialEq, Eq)]
pub enum Assignment {
    /// There is no participant to begin with.
    NoParticipants,
    /// No order begins with the participant at which the search began.
    NoSolution,
    /// The emails of the participants, each giving to the next.
    Order(Vec<String>),
}

/// The giftees of `a` are those to whom `a` may give.
pub proof fn lemma_giftees(ps: Seq<Participant>, quotas: Seq<Quota>, a: int, b: usize)
    ensures
        giftees(ps, quotas, a).contains(b) <==> b < ps.len() && may_give(ps, quotas, a, b as int),
{
    let all = everyone(ps.len());
    let pred = gives_to(ps, quotas, a);
    if giftees(ps, quotas, a).contains(b) {
        all.lemma_filter_contains_rev(pred, b);
        let k = choose|k: int| 0 <= k < all.filter(pred).len() && all.filter(pred)[k] == b;
        all.lemma_filter_pred(pred, k);
    }
    if b < ps.len() && may_give(ps, quotas, a, b as int) {
        assert(all[b as int] == b);
        all.lemma_filter_contains(pred, b as int);
    }
}

/// A relation whose lists hold the giftees of each participant, in whatever
/// order, has the orders for its full paths and the problem child for its
/// start.
pub proof fn lemma_relation_orders(rel: Relation, ps: Seq<Participant>, quotas: Seq<Quota>)
    requires
        rel.size() == ps.len(),
        forall|a: int|
            0 <= a < ps.len() ==> (#[trigger] rel.successors_of(a)).to_multiset() == giftees(
                ps,
                quotas,
                a,
            ).to_multiset(),
    ensures
        forall|path: Seq<usize>| #[trigger] rel.is_full_path(path) <==> is_order(ps, quotas, path),
        forall|s: int| #[trigger] rel.is_start(s) <==> is_problem_child(ps, quotas, s),
{
    assert forall|a: usize, b: usize| a < ps.len() implies (#[trigger] rel.edge(a, b) <==> b < ps.len()
        && may_give(ps, quotas, a as int, b as int)) by {
        let listed = rel.successors_of(a as int);
        let wanted = giftees(ps, quotas, a as int);
        listed.to_multiset_ensures();
        wanted.to_multiset_ensures();
        assert(listed.contains(b) <==> listed.to_multiset().count(b) > 0);
        assert(wanted.contains(b) <==> wanted.to_multiset().count(b) > 0);
        lemma_giftees(ps, quotas, a as int, b);
    }
    assert forall|a: int| 0 <= a < ps.len() implies #[trigger] rel.out_degree(a) == giftees(
        ps,
        quotas,
        a,
    ).len() by {
        rel.successors_of(a).to_multiset_ensures();
        giftees(ps, quotas, a).to_multiset_ensures();
    }
    assert forall|path: Seq<usize>| #[trigger] rel.is_full_path(path) <==> is_order(ps, quotas, path) by {
        if rel.is_full_path(path) {
            assert forall|k: int| 0 <= k < path.len() - 1 implies may_give(
                ps,
                quotas,
                (#[trigger] path[k]) as int,
                path[k + 1] as int,
            ) by {
                assert(rel.edge(path[k], path[k + 1]));
            }
        }
        if is_order(ps, quotas, path) {
            assert forall|k: int| 0 <= k < path.len() - 1 implies rel.edge(#[trigger] path[k], path[k + 1]) by {
                assert(may_give(ps, quotas, path[k] as int, path[k + 1] as int));
                assert(path[k + 1] < ps.len());
            }
        }
    }
    assert forall|s: int| #[trigger] rel.is_start(s) <==> is_problem_child(ps, quotas, s) by {
        if rel.is_start(s) {
            assert forall|a: int| 0 <= a < ps.len() implies giftees(ps, quotas, s).len() <= (#[trigger] giftees(
                ps,
                quotas,
                a,
            )).len() by {
                assert(rel.out_degree(s) <= rel.out_degree(a));
            }
            assert forall|a: int| 0 <= a < s implies giftees(ps, quotas, s).len() < (#[trigger] giftees(
                ps,
                quotas,
                a,
            )).len() by {
                assert(rel.out_degree(s) < rel.out_degree(a));
            }
        }
        if is_problem_child(ps, quotas, s) {
            assert forall|a: int| 0 <= a < rel.size() implies rel.out_degree(s) <= #[trigger] rel.out_degree(
                a,
            ) by {
                assert(giftees(ps, quotas, s).len() <= giftees(ps, quotas, a).len());
            }
            assert forall|a: int| 0 <= a < s implies rel.out_degree(s) < #[trigger] rel.out_degree(a) by {
                assert(giftees(ps, quotas, s).len() < giftees(ps, quotas, a).len());
            }
        }
    }
}

/// The relation "may give to" over the participants: for each the list of
/// those to whom it may give, in their order.
pub fn compatibility(participants: &Vec<Participant>, quotas: &Vec<Quota>) -> (rel: Relation)
    requires
        participants.len() == quotas.len(),
        all_wf(participants@),
    ensures
        rel.wf(),
        rel.size() == participants.len(),
        forall|a: int|
            0 <= a < participants.len() ==> #[trigger] rel.successors_of(a) == giftees(
                participants@,
                quotas@,
                a,
            ),
{
    let n = participants.len();
    let ghost ps = participants@;
    let ghost qs = quotas@;
    let mut lists: Vec<Vec<usize>> = Vec::new();
    let mut a: usize = 0;
    while a < n
        invariant
            a <= n,
            n == participants.len(),
            n == quotas.len(),
            ps == participants@,
            qs == quotas@,
            all_wf(ps),
            lists.len() == a,
            forall|i: int| 0 <= i < a ==> (#[trigger] lists[i])@ == giftees(ps, qs, i),
        decreases n - a,
    {
        let ghost pred = gives_to(ps, qs, a as int);
        let mut list: Vec<usize> = Vec::new();
        let mut b: usize = 0;
        proof {
            assert(everyone(n as nat).take(0).filter(pred) =~= Seq::<usize>::empty()) by {
                reveal(Seq::filter);
            }
        }
        while b < n
            invariant
                a < n,
                b <= n,
                n == participants.len(),
                n == quotas.len(),
                ps == participants@,
                qs == quotas@,
                all_wf(ps),
                pred == gives_to(ps, qs, a as int),
                list@ == everyone(n as nat).take(b as int).filter(pred),
            decreases n - b,
        {
            proof {
                let done = everyone(n as nat).take(b as int);
                assert(everyone(n as nat).take(b + 1) =~= done.push(b));
                done.lemma_filter_push(b, pred);
                assert(ps[a as int].wf() && ps[b as int].wf());
            }
            if a != b && participants[a].can_make_for(&participants[b], &quotas[b]) {
                list.push(b);
            }
            b += 1;
        }
        assert(everyone(n as nat).take(n as int) =~= everyone(n as nat));
        lists.push(list);
        a += 1;
    }
    proof {
        assert forall|i: int, k: int| 0 <= i < lists.len() && 0 <= k < lists[i].len() implies (
        #[trigger] lists[i][k]) < lists.len() by {
            assert(lists[i]@ == giftees(ps, qs, i));
            assert(giftees(ps, qs, i).contains(lists[i]@[k]));
            lemma_giftees(ps, qs, i, lists[i]@[k]);
        }
    }
    Relation::new(lists).unwrap()
}

/// The emails of the participants that `path` names.
fn emails_of(participants: &Vec<Participant>, path: &Vec<usize>) -> (out: Vec<String>)
    requires
        forall|k: int| 0 <= k < path.len() ==> (#[trigger] path[k]) < participants.len(),
    ensures
        out.deep_view() == emails_along(participants@, path@),
{
    let ghost email = |i: usize| participants@[i as int].email@;
    let mut out: Vec<String> = Vec::new();
    let mut k: usize = 0;
    assert(out.deep_view() =~= path@.take(0).map_values(email));
    while k < path.len()
        invariant
            k <= path.len(),
            forall|j: int| 0 <= j < path.len() ==> (#[trigger] path[j]) < participants.len(),
            email == (|i: usize| participants@[i as int].email@),
            out.deep_view() == path@.take(k as int).map_values(email),
        decreases path.len() - k,
    {
        let ghost before = out.deep_view();
        let name = participants[path[k]].email.clone();
        let ghost text = name@;
        out.push(name);
        assert(out.deep_view() =~~= before.push(text));
        k += 1;
        assert(path@.take(k as int).map_values(email) =~= path@.take(k - 1).map_values(email).push(text));
    }
    assert(path@.take(path.len() as int) =~= path@);
    out
}

/// Searches for an order in which the gifts can go round. The search begins
/// at the first of the participants with the fewest giftees, and tries the
/// giftees of each participant in a random order.
pub fn assign_santas(participants: &Vec<Participant>, quotas: &Vec<Quota>) -> (out: Assignment)
    requires
        participants.len() == quotas.len(),
        all_wf(participants@),
    ensures
        out is NoParticipants <==> participants.len() == 0,
        out is NoSolution <==> participants.len() > 0 && forall|path: Seq<usize>|
            !#[trigger] is_solution(participants@, quotas@, path),
        out matches Assignment::Order(emails) ==> exists|path: Seq<usize>|
            #[trigger] is_solution(participants@, quotas@, path) && emails.deep_view() == emails_along(
                participants@,
                path,
            ),
{
    let mut rel = compatibility(participants, quotas);
    rel.shuffle();
    proof {
        lemma_relation_orders(rel, participants@, quotas@);
    }
    if rel.len() == 0 {
        return Assignment::NoParticipants;
    }
    match rel.search() {
        Some(path) => {
            let emails = emails_of(participants, &path);
            assert(is_solution(participants@, quotas@, path@));
            Assignment::Order(emails)
        },
        None => {
            proof {
                let s = choose|s: int| rel.is_start(s) && rel.dead_end(seq![s as usize]);
                assert forall|path: Seq<usize>| !#[trigger] is_solution(participants@, quotas@, path) by {
                    if is_solution(participants@, quotas@, path) {
                        assert(rel.is_full_path(path));
                        assert(rel.is_start(path[0] as int));
                        crate::solver::lemma_start_unique(rel, s, path[0] as int);
                        assert(seq![s as usize] =~= path.subrange(0, 1));
                        assert(rel.completes(seq![s as usize], path));
                    }
                }
            }
            Assignment::NoSolution
        },
    }
}

} // verus!
