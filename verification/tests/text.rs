use secret_santa::order::{comes_before, compare, same_text, Order};
use secret_santa::parens::strip_parentheticals;
use secret_santa::ships::{resolve_ships, sorted};
use secret_santa::text::{chars_of, joined, normalized, occurs, split_at, string_of, substituted, trimmed};

fn chars(s: &str) -> Vec<char> {
    s.chars().collect()
}

fn strings(names: &[&str]) -> Vec<String> {
    names.iter().map(|n| n.to_string()).collect()
}

#[test]
fn compare_orders_by_code_point() {
    assert_eq!(compare("a", "b"), Order::Before);
    assert_eq!(compare("b", "a"), Order::After);
    assert_eq!(compare("abc", "abc"), Order::Same);
    assert_eq!(compare("", ""), Order::Same);
    assert_eq!(compare("", "a"), Order::Before);
    assert_eq!(compare("ab", "abc"), Order::Before);
    assert_eq!(compare("abc", "ab"), Order::After);
    assert_eq!(compare("Z", "a"), Order::Before);
    assert_eq!(compare("a b", "a/b"), Order::Before);
    assert_eq!(compare("z", "é"), Order::Before);
    assert_eq!(compare("é", "日"), Order::Before);
    assert_eq!(compare("\u{ffff}", "\u{10000}"), Order::Before);
}

#[test]
fn compare_agrees_with_the_order_of_strings() {
    let samples = ["", "a", "ab", "b", "B", "boa hancock", "é", "日本", "\u{10000}", "\u{ff5e}", "a\u{0}"];
    for a in samples {
        for b in samples {
            let expected = match a.cmp(b) {
                std::cmp::Ordering::Less => Order::Before,
                std::cmp::Ordering::Equal => Order::Same,
                std::cmp::Ordering::Greater => Order::After,
            };
            assert_eq!(compare(a, b), expected, "{a:?} {b:?}");
            assert_eq!(comes_before(a, b), a < b);
            assert_eq!(same_text(a, b), a == b);
        }
    }
}

#[test]
fn chars_and_strings_convert_both_ways() {
    assert_eq!(chars_of("a é日"), vec!['a', ' ', 'é', '日']);
    assert_eq!(chars_of(""), Vec::<char>::new());
    assert_eq!(string_of(&vec!['a', ' ', 'é', '日']), "a é日");
    assert_eq!(string_of(&Vec::new()), "");
    assert_eq!(string_of(&chars_of("monkey d. luffy")), "monkey d. luffy");
}

#[test]
fn trimmed_removes_white_space_at_both_ends_only() {
    assert_eq!(trimmed(&chars("  a b  ")), chars("a b"));
    assert_eq!(trimmed(&chars("\t\n a\u{a0}\u{3000}")), chars("a"));
    assert_eq!(trimmed(&chars("a")), chars("a"));
    assert_eq!(trimmed(&chars("   ")), chars(""));
    assert_eq!(trimmed(&chars("")), chars(""));
    assert_eq!(trimmed(&chars(" a  b ")), chars("a  b"));
}

#[test]
fn trimmed_agrees_with_trim() {
    for s in ["", " ", " a", "a ", " a b ", "\r\n x \u{2003}", "\u{200b} a", "_ a _"] {
        assert_eq!(string_of(&trimmed(&chars(s))), s.trim(), "{s:?}");
    }
}

#[test]
fn normalized_trims_and_lowercases() {
    assert_eq!(normalized(&chars("  Monkey D. LUFFY ")), "monkey d. luffy");
    assert_eq!(normalized(&chars("ÉCLAIR")), "éclair");
    assert_eq!(normalized(&chars("ΟΔΟΣ")), "οδος");
    assert_eq!(normalized(&chars("  ")), "");
    assert_eq!(normalized(&chars("already")), "already");
}

#[test]
fn substituted_replaces_each_listed_character() {
    assert_eq!(substituted(&chars("a;b;;c"), &vec![';'], ','), chars("a,b,,c"));
    assert_eq!(substituted(&chars("a x b&c\\d/e"), &vec!['x', '&', '\\'], '/'), chars("a / b/c/d/e"));
    assert_eq!(substituted(&chars("abc"), &vec![], '/'), chars("abc"));
    assert_eq!(substituted(&chars(""), &vec!['x'], '/'), chars(""));
    assert_eq!(substituted(&chars("xxx"), &vec!['x'], 'x'), chars("xxx"));
}

#[test]
fn occurs_finds_a_character() {
    assert!(occurs(&chars("abc"), 'c'));
    assert!(!occurs(&chars("abc"), 'd'));
    assert!(!occurs(&chars(""), 'a'));
}

#[test]
fn split_at_gives_one_piece_more_than_separators() {
    assert_eq!(split_at(&chars("a,b,c"), ','), vec![chars("a"), chars("b"), chars("c")]);
    assert_eq!(split_at(&chars(""), ','), vec![chars("")]);
    assert_eq!(split_at(&chars(","), ','), vec![chars(""), chars("")]);
    assert_eq!(split_at(&chars(",a,,b,"), ','), vec![chars(""), chars("a"), chars(""), chars("b"), chars("")]);
    assert_eq!(split_at(&chars("abc"), ','), vec![chars("abc")]);
}

#[test]
fn split_at_agrees_with_split() {
    for s in ["", ",", "a", "a,b", ",,", "a,,b,", " a , b "] {
        let pieces: Vec<String> = split_at(&chars(s), ',').iter().map(string_of).collect();
        let expected: Vec<String> = s.split(',').map(|p| p.to_string()).collect();
        assert_eq!(pieces, expected, "{s:?}");
        assert_eq!(joined(&pieces, ','), s);
    }
}

#[test]
fn joined_puts_the_separator_between_neighbours() {
    assert_eq!(joined(&strings(&["ace", "luffy"]), '/'), "ace/luffy");
    assert_eq!(joined(&strings(&["ace"]), '/'), "ace");
    assert_eq!(joined(&strings(&[]), '/'), "");
    assert_eq!(joined(&strings(&["", ""]), '/'), "/");
    assert_eq!(joined(&strings(&["a", "b", "c"]), '/'), "a/b/c");
}

#[test]
fn sorted_orders_names_and_keeps_repetitions() {
    assert_eq!(sorted(&strings(&["luffy", "ace", "garp"])), strings(&["ace", "garp", "luffy"]));
    assert_eq!(sorted(&strings(&["b", "a", "b", "a"])), strings(&["a", "a", "b", "b"]));
    assert_eq!(sorted(&strings(&[])), strings(&[]));
    assert_eq!(sorted(&strings(&["boa hancock", "boa"])), strings(&["boa", "boa hancock"]));
    let mut expected = strings(&["é", "z", "Z", "", "日", "a b", "a/b"]);
    let given = expected.clone();
    expected.sort();
    assert_eq!(sorted(&given), expected);
}

#[test]
fn resolve_ships_combines_one_name_per_slot() {
    assert_eq!(resolve_ships(vec![]), Vec::<Vec<String>>::new());
    assert_eq!(resolve_ships(vec![strings(&["a", "b"])]), vec![strings(&["a"]), strings(&["b"])]);
    assert_eq!(
        resolve_ships(vec![strings(&["a", "b"]), strings(&["c", "d"])]),
        vec![strings(&["a", "c"]), strings(&["b", "c"]), strings(&["a", "d"]), strings(&["b", "d"])]
    );
    assert_eq!(
        resolve_ships(vec![strings(&["a"]), strings(&["b", "c"]), strings(&["d", "e"])]),
        vec![
            strings(&["a", "b", "d"]),
            strings(&["a", "c", "d"]),
            strings(&["a", "b", "e"]),
            strings(&["a", "c", "e"])
        ]
    );
}

#[test]
fn resolve_ships_with_an_empty_slot_gives_nothing() {
    assert_eq!(resolve_ships(vec![strings(&[])]), Vec::<Vec<String>>::new());
    assert_eq!(resolve_ships(vec![strings(&["a"]), strings(&[])]), Vec::<Vec<String>>::new());
    assert_eq!(resolve_ships(vec![strings(&[]), strings(&["a"])]), Vec::<Vec<String>>::new());
}

#[test]
fn strip_parentheticals_removes_to_the_last_bracket_of_the_line() {
    assert_eq!(strip_parentheticals("luffy (the best)"), "luffy ");
    assert_eq!(strip_parentheticals("a (b) c (d) e"), "a  e");
    assert_eq!(strip_parentheticals("a (b) c\nd (e) f"), "a  c\nd  f");
    assert_eq!(strip_parentheticals("a ((b)) c"), "a  c");
    assert_eq!(strip_parentheticals("()"), "");
}

#[test]
fn strip_parentheticals_leaves_other_text() {
    assert_eq!(strip_parentheticals("luffy, garp"), "luffy, garp");
    assert_eq!(strip_parentheticals(""), "");
    assert_eq!(strip_parentheticals("a (b"), "a (b");
    assert_eq!(strip_parentheticals("a ) b ( c"), "a ) b ( c");
    assert_eq!(strip_parentheticals("a (b\nc) d"), "a (b\nc) d");
}
