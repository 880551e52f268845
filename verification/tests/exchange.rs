use secret_santa::exchange::{assign_santas, compatibility, Assignment};
use secret_santa::names::NameSet;
use secret_santa::participant::{Participant, Quota};
use secret_santa::report::{character_mentions, counts, duplicates, emails, ship_mentions, tally};
use secret_santa::solver::Relation;

fn set_of(names: &[&str]) -> NameSet {
    NameSet::from_vec(names.iter().map(|n| n.to_string()).collect())
}

fn participant(email: &str, desired: &[&str], banned: &[&str]) -> Participant {
    Participant {
        email: email.to_string(),
        desired_characters: set_of(desired),
        desired_ships: NameSet::new(),
        banned_characters: set_of(banned),
        banned_ships: NameSet::new(),
    }
}

fn with_ships(email: &str, desired: &[&str], banned: &[&str]) -> Participant {
    Participant {
        email: email.to_string(),
        desired_characters: NameSet::new(),
        desired_ships: set_of(desired),
        banned_characters: NameSet::new(),
        banned_ships: set_of(banned),
    }
}

fn quotas(participants: &[Participant], threshold: f32) -> Vec<Quota> {
    participants
        .iter()
        .map(|p| Quota {
            characters: (p.desired_characters.len() as f32 * threshold) as usize,
            ships: (p.desired_ships.len() as f32 * threshold) as usize,
        })
        .collect()
}

fn relation(successors: &[&[usize]]) -> Relation {
    Relation::new(successors.iter().map(|list| list.to_vec()).collect()).unwrap()
}

fn entries(list: &[(&str, u32)]) -> Vec<(String, u32)> {
    list.iter().map(|(name, n)| (name.to_string(), *n)).collect()
}

fn strings(names: &[&str]) -> Vec<String> {
    names.iter().map(|n| n.to_string()).collect()
}

fn ring() -> Vec<Participant> {
    vec![
        participant("a@x", &["luffy"], &["garp", "zoro"]),
        participant("b@x", &["nami"], &["luffy", "zoro"]),
        participant("c@x", &["garp"], &["luffy", "nami"]),
        participant("d@x", &["zoro"], &["nami", "garp"]),
    ]
}

#[test]
fn compatibility_lists_the_giftees_in_order() {
    let people = ring();
    let made = compatibility(&people, &quotas(&people, 1.0));
    assert_eq!(made, relation(&[&[1], &[2], &[3], &[0]]));
    let made = compatibility(&people, &quotas(&people, 0.0));
    assert_eq!(made, relation(&[&[1, 2, 3], &[0, 2, 3], &[0, 1, 3], &[0, 1, 2]]));
    assert_eq!(compatibility(&Vec::new(), &Vec::new()), relation(&[]));
}

#[test]
fn compatibility_leaves_out_oneself() {
    let people = vec![participant("a@x", &["luffy"], &[]), participant("a@x", &["luffy"], &[])];
    assert_eq!(compatibility(&people, &quotas(&people, 1.0)), relation(&[&[1], &[0]]));
}

#[test]
fn assign_santas_finds_the_only_round() {
    let people = ring();
    assert_eq!(
        assign_santas(&people, &quotas(&people, 1.0)),
        Assignment::Order(strings(&["a@x", "b@x", "c@x", "d@x"]))
    );
}

#[test]
fn assign_santas_gives_a_valid_order() {
    let people = ring();
    let all = quotas(&people, 0.0);
    let mut seen = std::collections::BTreeSet::new();
    for _ in 0..60 {
        match assign_santas(&people, &all) {
            Assignment::Order(order) => {
                assert_eq!(order[0], "a@x");
                let mut sorted = order.clone();
                sorted.sort();
                assert_eq!(sorted, strings(&["a@x", "b@x", "c@x", "d@x"]));
                seen.insert(order);
            }
            other => panic!("{other:?}"),
        }
    }
    assert!(seen.len() > 1);
}

#[test]
fn assign_santas_without_participants() {
    assert_eq!(assign_santas(&Vec::new(), &Vec::new()), Assignment::NoParticipants);
}

#[test]
fn assign_santas_with_one_participant() {
    let people = vec![participant("a@x", &["luffy"], &["luffy"])];
    assert_eq!(assign_santas(&people, &quotas(&people, 1.0)), Assignment::Order(strings(&["a@x"])));
}

#[test]
fn assign_santas_reports_that_there_is_no_order() {
    let mut people = ring();
    people.push(participant("e@x", &["luffy", "nami", "garp", "zoro"], &["luffy", "nami", "garp", "zoro"]));
    assert_eq!(assign_santas(&people, &quotas(&people, 1.0)), Assignment::NoSolution);
    let people = vec![with_ships("a@x", &["ace/luffy"], &["ace/luffy"]), with_ships("b@x", &["ace/luffy"], &["ace/luffy"])];
    assert_eq!(assign_santas(&people, &quotas(&people, 1.0)), Assignment::NoSolution);
}

#[test]
fn assign_santas_begins_with_the_most_constrained() {
    let people = vec![
        participant("a@x", &["luffy"], &[]),
        participant("b@x", &["nami"], &["luffy"]),
        participant("c@x", &["garp"], &["nami"]),
    ];
    assert_eq!(compatibility(&people, &quotas(&people, 1.0)), relation(&[&[1, 2], &[2], &[0]]));
    for _ in 0..20 {
        match assign_santas(&people, &quotas(&people, 1.0)) {
            Assignment::Order(order) => {
                assert_eq!(order[0], "b@x");
                assert_eq!(order[1], "c@x");
                assert_eq!(order[2], "a@x");
            }
            other => panic!("{other:?}"),
        }
    }
}

#[test]
fn assign_santas_does_not_look_for_another_start() {
    let people = vec![participant("a@x", &["luffy"], &[]), participant("b@x", &["nami"], &["luffy"])];
    assert_eq!(compatibility(&people, &quotas(&people, 1.0)), relation(&[&[1], &[]]));
    assert_eq!(assign_santas(&people, &quotas(&people, 1.0)), Assignment::NoSolution);
}

#[test]
fn duplicates_flags_an_email_that_occurs_twice() {
    let people = vec![participant("a", &[], &[]), participant("b", &[], &[]), participant("a", &[], &[])];
    assert_eq!(emails(&people), strings(&["a", "b", "a"]));
    assert_eq!(duplicates(&emails(&people)), entries(&[("a", 2)]));
}

#[test]
fn duplicates_without_repetition_is_empty() {
    assert_eq!(duplicates(&strings(&["a", "b", "c"])), entries(&[]));
    assert_eq!(duplicates(&strings(&[])), entries(&[]));
}

#[test]
fn duplicates_ascend_by_count() {
    assert_eq!(
        duplicates(&strings(&["c", "a", "b", "c", "a", "c", "d", "b"])),
        entries(&[("a", 2), ("b", 2), ("c", 3)])
    );
}

#[test]
fn counts_ascend_by_count_and_then_by_name() {
    assert_eq!(
        counts(&strings(&["luffy", "ace", "luffy", "garp", "zoro", "luffy", "ace"])),
        entries(&[("garp", 1), ("zoro", 1), ("ace", 2), ("luffy", 3)])
    );
    assert_eq!(counts(&strings(&[])), entries(&[]));
}

#[test]
fn tally_counts_each_name() {
    let table = tally(&strings(&["b", "a", "b"]));
    assert_eq!(table.len(), 2);
    assert_eq!(table.get("a"), Some(&1));
    assert_eq!(table.get("b"), Some(&2));
    assert_eq!(table.get("c"), None);
}

#[test]
fn mentions_list_desired_then_banned_of_each_participant() {
    let people = vec![participant("a", &["luffy", "ace"], &["garp"]), participant("b", &["garp"], &["ace", "luffy"])];
    assert_eq!(character_mentions(&people), strings(&["ace", "luffy", "garp", "garp", "ace", "luffy"]));
    assert_eq!(ship_mentions(&people), strings(&[]));
    let people = vec![with_ships("a", &["b/c", "a/b"], &["c/d"])];
    assert_eq!(ship_mentions(&people), strings(&["a/b", "b/c", "c/d"]));
    assert_eq!(
        counts(&character_mentions(&vec![participant("a", &["luffy", "ace"], &["luffy"]), participant("b", &["ace"], &["ace"])])),
        entries(&[("luffy", 2), ("ace", 3)])
    );
}
