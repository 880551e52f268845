use secret_santa::solver::Relation;

fn relation(successors: &[&[usize]]) -> Relation {
    Relation::new(successors.iter().map(|list| list.to_vec()).collect()).unwrap()
}

fn assert_full_path(successors: &[&[usize]], path: &[usize]) {
    assert_eq!(path.len(), successors.len());
    let mut seen = vec![false; successors.len()];
    for &v in path {
        assert!(!seen[v]);
        seen[v] = true;
    }
    for pair in path.windows(2) {
        assert!(successors[pair[0]].contains(&pair[1]), "{pair:?}");
    }
}

#[test]
fn relation_refuses_a_stranger() {
    assert!(Relation::new(vec![vec![1], vec![2]]).is_none());
    assert!(Relation::new(vec![vec![0]]).is_some());
    assert!(Relation::new(vec![]).is_some());
    assert_eq!(relation(&[&[1], &[0], &[]]).len(), 3);
}

#[test]
fn start_is_the_first_with_the_fewest_successors() {
    assert_eq!(relation(&[]).start(), None);
    assert_eq!(relation(&[&[]]).start(), Some(0));
    assert_eq!(relation(&[&[1, 2], &[0], &[0, 1]]).start(), Some(1));
    assert_eq!(relation(&[&[1], &[2], &[0]]).start(), Some(0));
    assert_eq!(relation(&[&[1, 2], &[0, 2], &[]]).start(), Some(2));
    assert_eq!(relation(&[&[1, 2], &[2], &[1]]).start(), Some(1));
}

#[test]
fn search_finds_the_round_of_a_cycle() {
    let cycle: &[&[usize]] = &[&[1], &[2], &[3], &[0]];
    assert_eq!(relation(cycle).search(), Some(vec![0, 1, 2, 3]));
}

#[test]
fn search_backtracks() {
    let successors: &[&[usize]] = &[&[1, 2], &[3, 0], &[1, 3], &[2, 0]];
    let found = relation(successors).search().unwrap();
    assert_eq!(found, vec![0, 1, 3, 2]);
    assert_full_path(successors, &found);
    let successors: &[&[usize]] = &[&[1, 2], &[0, 3], &[1, 3], &[0, 1]];
    let found = relation(successors).search().unwrap();
    assert_eq!(found, vec![0, 2, 1, 3]);
    assert_full_path(successors, &found);
}

#[test]
fn search_tries_the_successors_in_their_listed_order() {
    assert_eq!(relation(&[&[1, 2], &[2, 0], &[0, 1]]).search(), Some(vec![0, 1, 2]));
    assert_eq!(relation(&[&[2, 1], &[2, 0], &[0, 1]]).search(), Some(vec![0, 2, 1]));
}

#[test]
fn search_with_one_participant_is_done_at_once() {
    assert_eq!(relation(&[&[]]).search(), Some(vec![0]));
}

#[test]
fn search_without_participants_finds_nothing() {
    assert_eq!(relation(&[]).search(), None);
}

#[test]
fn search_fails_on_an_isolated_participant() {
    assert_eq!(relation(&[&[1], &[0], &[]]).search(), None);
    assert_eq!(relation(&[&[], &[]]).search(), None);
    assert_eq!(relation(&[&[1, 2], &[0, 2], &[0, 1], &[]]).search(), None);
}

#[test]
fn search_begins_at_the_start_only() {
    assert_eq!(relation(&[&[1], &[]]).search(), None);
    assert_eq!(relation(&[&[1], &[]]).search_from(0), Some(vec![0, 1]));
    assert_eq!(relation(&[&[1], &[2], &[]]).search(), None);
    assert_eq!(relation(&[&[1], &[2], &[]]).search_from(0), Some(vec![0, 1, 2]));
    assert_eq!(relation(&[&[1], &[2], &[]]).search_from(1), None);
}

#[test]
fn search_from_covers_everyone() {
    let successors: &[&[usize]] = &[&[1, 2, 3, 4], &[0, 2, 3, 4], &[0, 1, 3, 4], &[0, 1, 2, 4], &[0, 1, 2, 3]];
    for start in 0..5 {
        let found = relation(successors).search_from(start).unwrap();
        assert_eq!(found[0], start);
        assert_full_path(successors, &found);
    }
}

#[test]
fn shuffle_keeps_who_leads_to_whom() {
    let successors: &[&[usize]] = &[&[1, 2, 3, 4, 5], &[0, 2], &[], &[3, 3, 1], &[0, 1, 2, 3, 5], &[4]];
    let before = relation(successors);
    let mut orders = std::collections::BTreeSet::new();
    for _ in 0..40 {
        let mut shuffled = relation(successors);
        shuffled.shuffle();
        assert_eq!(shuffled.len(), 6);
        assert_eq!(shuffled.start(), before.start());
        let found = shuffled.search_from(0);
        let path = found.unwrap_or_default();
        for pair in path.windows(2) {
            assert!(successors[pair[0]].contains(&pair[1]));
        }
        orders.insert(format!("{shuffled:?}"));
    }
    assert!(orders.len() > 1);
}
