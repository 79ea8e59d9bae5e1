use bookmarker::bookmark::Bookmark;
use bookmarker::report::{
    added, cleaned, duplicate, missing, not_found, removal, top_lines, ALL_VALID,
    NOTHING_AVAILABLE, NOTHING_TO_CLEAN, PROMPT, STORE_FILE, TOP_COUNT, TOP_HEADER,
};
use bookmarker::store::Store;

fn bookmark(key: &str, name: &str, path: &str, uses: usize) -> Bookmark {
    Bookmark { name: name.to_string(), path: path.to_string(), key: key.to_string(), uses }
}

#[test]
fn fixed_texts() {
    assert_eq!(TOP_COUNT, 5);
    assert_eq!(NOTHING_AVAILABLE, "No bookmarks available. Try help, add.");
    assert_eq!(TOP_HEADER, "Most used 5 bookmarks:");
    assert_eq!(PROMPT, "Choose key: ");
    assert_eq!(NOTHING_TO_CLEAN, "No bookmarks to clean.");
    assert_eq!(ALL_VALID, "All bookmarks are valid. Nothing to clean.");
    assert_eq!(STORE_FILE, "bookmarker/bookmarks.json");
}

#[test]
fn added_names_key_and_name() {
    assert_eq!(added("a", "Alpha"), "Bookmark added: [a]#Alpha");
    assert_eq!(added("", ""), "Bookmark added: []#");
}

#[test]
fn duplicate_names_the_key() {
    assert_eq!(duplicate("a"), "A bookmark with key 'a' already exists.");
}

#[test]
fn removal_says_whether_a_bookmark_was_deleted() {
    assert_eq!(removal("a", true), "Bookmark with key 'a' deleted");
    assert_eq!(removal("a", false), "no bookmarks found with key 'a'");
}

#[test]
fn remove_twice_reports_nothing_found_the_second_time() {
    let mut store = Store { records: vec![bookmark("a", "Alpha", "/tmp", 1)] };
    let first = store.remove("a");
    assert_eq!(removal("a", first), "Bookmark with key 'a' deleted");
    let second = store.remove("a");
    assert_eq!(removal("a", second), "no bookmarks found with key 'a'");
    assert!(store.is_empty());
}

#[test]
fn not_found_names_the_key() {
    assert_eq!(not_found("zz"), "No bookmark found for key 'zz'");
}

#[test]
fn missing_has_one_line_for_each_removed_bookmark() {
    let removed = vec![bookmark("g", "Gone", "/no/where", 2), bookmark("h", "Home", "~", 0)];
    assert_eq!(
        missing(&removed),
        vec![
            "Removed: [g]Gone - missing path '/no/where'",
            "Removed: [h]Home - missing path '~'",
        ]
    );
    assert!(missing(&Vec::new()).is_empty());
}

#[test]
fn cleaned_counts_what_was_removed() {
    assert_eq!(cleaned(0), "All bookmarks are valid. Nothing to clean.");
    assert_eq!(cleaned(1), "Cleaned 1 invalid bookmark(s).");
    assert_eq!(cleaned(12), "Cleaned 12 invalid bookmark(s).");
}

#[test]
fn top_lines_of_an_empty_store_say_that_nothing_is_available() {
    let top = Store::new().list_top(TOP_COUNT);
    assert_eq!(top_lines(&top), vec!["No bookmarks available. Try help, add."]);
}

#[test]
fn top_lines_show_the_header_and_the_labels() {
    let store = Store {
        records: vec![
            bookmark("a", "Alpha", "/a", 1),
            bookmark("b", "Beta", "/b", 4),
            bookmark("c", "Gamma", "/c", 1),
            bookmark("d", "Delta", "/d", 0),
            bookmark("e", "Eps", "/e", 9),
            bookmark("f", "Phi", "/f", 2),
        ],
    };
    let top = store.list_top(TOP_COUNT);
    assert_eq!(
        top_lines(&top),
        vec!["Most used 5 bookmarks:", "[e]Eps  [b]Beta  [f]Phi  [a]Alpha  [c]Gamma"]
    );
}

#[test]
fn top_lines_of_an_empty_list_show_the_header_alone() {
    assert_eq!(top_lines(&Some(Vec::new())), vec!["Most used 5 bookmarks:"]);
}
