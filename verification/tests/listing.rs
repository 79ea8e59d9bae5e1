use bookmarker::bookmark::Bookmark;
use bookmarker::listing::{line_of, width_for, DEFAULT_WIDTH};
use bookmarker::store::Store;

fn bookmark(key: &str, name: &str, path: &str, uses: usize) -> Bookmark {
    Bookmark { name: name.to_string(), path: path.to_string(), key: key.to_string(), uses }
}

fn sample() -> Store {
    Store {
        records: vec![
            bookmark("a", "Alpha", "/tmp", 3),
            bookmark("b", "Beta", "/var/log", 0),
            bookmark("c", "Gamma", "/usr", 12),
        ],
    }
}

#[test]
fn label_has_key_name_and_two_spaces() {
    assert_eq!(bookmark("a", "Alpha", "/tmp", 3).label(), "[a]Alpha  ");
    assert_eq!(bookmark("", "", "", 0).label(), "[]  ");
}

#[test]
fn long_line_shows_every_field() {
    assert_eq!(bookmark("a", "Alpha", "/tmp", 3).long_line(), "[a] Alpha (3 uses) - /tmp");
    assert_eq!(bookmark("k", "N", "p", 0).long_line(), "[k] N (0 uses) - p");
    assert_eq!(
        bookmark("k", "N", "p", 18446744073709551615).long_line(),
        "[k] N (18446744073709551615 uses) - p"
    );
}

#[test]
fn list_long_has_one_line_for_each_bookmark() {
    assert_eq!(
        sample().list_long(),
        vec![
            "[a] Alpha (3 uses) - /tmp",
            "[b] Beta (0 uses) - /var/log",
            "[c] Gamma (12 uses) - /usr",
        ]
    );
}

#[test]
fn listings_of_an_empty_store_are_empty() {
    let store = Store::new();
    assert!(store.list_short().is_empty());
    assert!(store.list_short_at(80).is_empty());
    assert!(store.list_short_at(0).is_empty());
    assert!(store.list_long().is_empty());
}

#[test]
fn list_short_at_puts_all_on_one_line_that_is_wide_enough() {
    assert_eq!(sample().list_short_at(80), vec!["[a]Alpha  [b]Beta  [c]Gamma"]);
}

#[test]
fn list_short_at_counts_the_trailing_spaces() {
    // The three labels take 10 + 9 + 10 bytes.
    assert_eq!(sample().list_short_at(29), vec!["[a]Alpha  [b]Beta  [c]Gamma"]);
    assert_eq!(sample().list_short_at(28), vec!["[a]Alpha  [b]Beta", "[c]Gamma"]);
    assert_eq!(sample().list_short_at(19), vec!["[a]Alpha  [b]Beta", "[c]Gamma"]);
    assert_eq!(sample().list_short_at(18), vec!["[a]Alpha", "[b]Beta", "[c]Gamma"]);
    assert_eq!(sample().list_short_at(10), vec!["[a]Alpha", "[b]Beta", "[c]Gamma"]);
}

#[test]
fn list_short_at_starts_with_an_empty_line_where_nothing_fits() {
    assert_eq!(sample().list_short_at(9), vec!["", "[a]Alpha", "[b]Beta", "[c]Gamma"]);
    assert_eq!(sample().list_short_at(0), vec!["", "[a]Alpha", "[b]Beta", "[c]Gamma"]);
}

#[test]
fn list_short_at_measures_in_bytes() {
    let store = Store {
        records: vec![bookmark("é", "Été", "/e", 0), bookmark("z", "Zed", "/z", 0)],
    };
    // "[é]Été  " is 8 characters and 11 bytes, "[z]Zed  " is 8 bytes.
    assert_eq!(store.list_short_at(19), vec!["[é]Été  [z]Zed"]);
    assert_eq!(store.list_short_at(18), vec!["[é]Été", "[z]Zed"]);
}

#[test]
fn list_short_at_trims_the_whitespace_of_a_name_at_the_end_of_a_line() {
    let store = Store {
        records: vec![bookmark("a", "Alpha \t", "/a", 0), bookmark("b", " ", "/b", 0)],
    };
    assert_eq!(store.list_short_at(12), vec!["[a]Alpha", "[b]"]);
    assert_eq!(store.list_short_at(80), vec!["[a]Alpha \t  [b]"]);
}

#[test]
fn list_short_is_list_short_at_some_width() {
    let store = sample();
    let lines = store.list_short();
    let mut found = false;
    let mut width: usize = 0;
    while width <= 65535 {
        if store.list_short_at(width) == lines {
            found = true;
            break;
        }
        width += 1;
    }
    assert!(found);
}

#[test]
fn width_for_falls_back_to_eighty() {
    assert_eq!(DEFAULT_WIDTH, 80);
    assert_eq!(width_for(None), 80);
    assert_eq!(width_for(Some(132)), 132);
    assert_eq!(width_for(Some(1)), 1);
    assert_eq!(width_for(Some(65535)), 65535);
}

#[test]
fn line_of_joins_the_labels_and_trims_the_end() {
    assert_eq!(line_of(&sample().records), "[a]Alpha  [b]Beta  [c]Gamma");
    assert_eq!(line_of(&Vec::new()), "");
    assert_eq!(line_of(&vec![bookmark("k", "", "/", 0)]), "[k]");
}

#[test]
fn line_of_the_top_five() {
    let mut store = sample();
    store.records.push(bookmark("d", "Delta", "/d", 12));
    let top = store.list_top(5).unwrap();
    assert_eq!(line_of(&top), "[c]Gamma  [d]Delta  [a]Alpha  [b]Beta");
}
