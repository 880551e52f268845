use secret_santa::names::NameSet;
use secret_santa::participant::{Cfg, Columns, MissingColumn, Participant, Quota, Row};
use secret_santa::rules::{BaseCfg, Characters, Families, Family, Misspellings, Smushes};

fn set_of(names: &[&str]) -> NameSet {
    NameSet::from_vec(names.iter().map(|n| n.to_string()).collect())
}

fn rules() -> BaseCfg {
    let mut families = Families::new();
    families.insert(
        "monkey d.".to_string(),
        Family::new(set_of(&["dragon", "garp", "luffy"]), set_of(&["monkey d"]), None),
    );
    let mut characters = Characters::new();
    characters.insert("ace".to_string(), Misspellings::List(set_of(&["portgas ace", "portgas d. ace"])));
    characters.insert("boa hancock".to_string(), Misspellings::Single("boa".to_string()));
    BaseCfg::new(Smushes::new(), characters, families)
}

fn cfg() -> Cfg {
    Cfg {
        columns: Columns {
            email: "Email".to_string(),
            desired_characters: "Characters you want".to_string(),
            desired_ships: "Ships you want".to_string(),
            banned_characters: "Characters you refuse".to_string(),
            banned_ships: "Ships you refuse".to_string(),
        },
        base: rules(),
    }
}

fn row(cells: &[(&str, &str)]) -> Row {
    let mut row = Row::new();
    for (header, value) in cells {
        row.insert(header.to_string(), value.to_string());
    }
    row
}

fn full_row() -> Vec<(&'static str, &'static str)> {
    vec![
        ("Timestamp", "today"),
        ("Email", "nami@example.com"),
        ("Characters you want", "Luffy, Boa (please)"),
        ("Ships you want", "boa/luffy,monkey d/ace"),
        ("Characters you refuse", "Portgas D. Ace"),
        ("Ships you refuse", "ace x luffy"),
    ]
}

fn participant(email: &str, desired: &[&str], banned: &[&str], desired_ships: &[&str], banned_ships: &[&str]) -> Participant {
    Participant {
        email: email.to_string(),
        desired_characters: set_of(desired),
        desired_ships: set_of(desired_ships),
        banned_characters: set_of(banned),
        banned_ships: set_of(banned_ships),
    }
}

fn quota(giftee: &Participant, threshold: f32) -> Quota {
    Quota {
        characters: (giftee.desired_characters.len() as f32 * threshold) as usize,
        ships: (giftee.desired_ships.len() as f32 * threshold) as usize,
    }
}

#[test]
fn process_participant_reads_the_five_columns() {
    let made = cfg().process_participant(row(&full_row())).unwrap();
    assert_eq!(
        made,
        participant(
            "nami@example.com",
            &["boa hancock", "luffy"],
            &["ace"],
            &["ace/dragon", "ace/garp", "ace/luffy", "boa hancock/luffy"],
            &["ace/luffy"],
        )
    );
}

#[test]
fn process_participant_keeps_the_email_as_written() {
    let mut cells = full_row();
    cells[1] = ("Email", "  Nami@Example.COM ");
    let made = cfg().process_participant(row(&cells)).unwrap();
    assert_eq!(made.email, "  Nami@Example.COM ");
}

#[test]
fn process_participant_names_the_missing_column() {
    let expected = [
        ("Email", MissingColumn::Email),
        ("Characters you want", MissingColumn::DesiredCharacters),
        ("Characters you refuse", MissingColumn::BannedCharacters),
        ("Ships you want", MissingColumn::DesiredShips),
        ("Ships you refuse", MissingColumn::BannedShips),
    ];
    for (header, error) in expected {
        let cells: Vec<_> = full_row().into_iter().filter(|(h, _)| *h != header).collect();
        assert_eq!(cfg().process_participant(row(&cells)), Err(error), "{header}");
    }
}

#[test]
fn process_participant_names_the_first_missing_column() {
    assert_eq!(cfg().process_participant(Row::new()), Err(MissingColumn::Email));
    assert_eq!(
        cfg().process_participant(row(&[("Email", "a"), ("Ships you want", "")])),
        Err(MissingColumn::DesiredCharacters)
    );
    assert_eq!(
        cfg().process_participant(row(&[("Email", "a"), ("Characters you want", ""), ("Ships you refuse", "")])),
        Err(MissingColumn::BannedCharacters)
    );
}

#[test]
fn process_participant_serves_a_shared_header_once() {
    let mut shared = cfg();
    shared.columns.banned_characters = "Characters you want".to_string();
    assert_eq!(shared.process_participant(row(&full_row())), Err(MissingColumn::BannedCharacters));
    let mut shared = cfg();
    shared.columns.banned_ships = "Email".to_string();
    assert_eq!(shared.process_participant(row(&full_row())), Err(MissingColumn::BannedShips));
}

#[test]
fn missing_column_messages() {
    assert_eq!(MissingColumn::Email.message(), "email column not found");
    assert_eq!(MissingColumn::DesiredCharacters.message(), "desired characters column not found");
    assert_eq!(MissingColumn::BannedCharacters.message(), "banned characters column not found");
    assert_eq!(MissingColumn::DesiredShips.message(), "desired ships column not found");
    assert_eq!(MissingColumn::BannedShips.message(), "banned ships column not found");
}

#[test]
fn row_insert_replaces_and_take_removes() {
    let mut row = Row::new();
    row.insert("a".to_string(), "1".to_string());
    row.insert("a".to_string(), "2".to_string());
    row.insert("b".to_string(), "3".to_string());
    assert_eq!(row.take("a"), Some("2".to_string()));
    assert_eq!(row.take("a"), None);
    assert_eq!(row.take("c"), None);
    assert_eq!(row.take("b"), Some("3".to_string()));
}

#[test]
fn can_make_for_with_full_threshold_refuses_any_overlap() {
    let giftee = participant("b", &["luffy", "garp", "ace"], &[], &["ace/luffy", "garp/luffy"], &[]);
    let full = quota(&giftee, 1.0);
    assert_eq!(full, Quota { characters: 3, ships: 2 });
    assert!(participant("a", &[], &[], &[], &[]).can_make_for(&giftee, &full));
    assert!(participant("a", &[], &["nami"], &[], &["nami/zoro"]).can_make_for(&giftee, &full));
    assert!(!participant("a", &[], &["ace"], &[], &[]).can_make_for(&giftee, &full));
    assert!(!participant("a", &[], &[], &[], &["garp/luffy"]).can_make_for(&giftee, &full));
    assert!(!participant("a", &[], &["luffy", "garp", "ace"], &[], &["ace/luffy", "garp/luffy"]).can_make_for(&giftee, &full));
}

#[test]
fn can_make_for_with_no_threshold_accepts_everyone() {
    let giftee = participant("b", &["luffy", "garp", "ace"], &[], &["ace/luffy", "garp/luffy"], &[]);
    let none = quota(&giftee, 0.0);
    assert_eq!(none, Quota { characters: 0, ships: 0 });
    assert!(participant("a", &[], &[], &[], &[]).can_make_for(&giftee, &none));
    assert!(participant("a", &[], &["luffy", "garp", "ace"], &[], &["ace/luffy", "garp/luffy"]).can_make_for(&giftee, &none));
}

#[test]
fn can_make_for_with_half_threshold_truncates_the_quota() {
    let giftee = participant("b", &["luffy", "garp", "ace"], &[], &["ace/luffy", "garp/luffy", "ace/garp"], &[]);
    let half = quota(&giftee, 0.5);
    assert_eq!(half, Quota { characters: 1, ships: 1 });
    assert!(participant("a", &[], &["luffy", "garp"], &[], &["ace/luffy", "garp/luffy"]).can_make_for(&giftee, &half));
    assert!(!participant("a", &[], &["luffy", "garp", "ace"], &[], &[]).can_make_for(&giftee, &half));
    assert!(!participant("a", &[], &[], &[], &["ace/luffy", "garp/luffy", "ace/garp"]).can_make_for(&giftee, &half));
}

#[test]
fn can_make_for_counts_what_the_giftee_desires_only() {
    let giftee = participant("b", &[], &["luffy"], &[], &["ace/luffy"]);
    let full = quota(&giftee, 1.0);
    assert!(participant("a", &["luffy"], &["luffy"], &["ace/luffy"], &["ace/luffy"]).can_make_for(&giftee, &full));
    let giftee = participant("b", &["luffy"], &[], &[], &[]);
    assert!(participant("a", &["luffy"], &[], &[], &[]).can_make_for(&giftee, &Quota { characters: 1, ships: 0 }));
    assert!(!participant("a", &[], &[], &[], &[]).can_make_for(&giftee, &Quota { characters: 2, ships: 0 }));
}
