//! What is said to the user about the outcome of a command.

use crate::bookmark::{Bookmark, Entry};
use crate::listing::{labels, lemma_labels_fill_a_line, line_of, one_line};
use crate::text::{decimal, decimal_text};
use vstd::prelude::*;
use vstd::string::*;

verus! {

/// How many bookmarks the listing of the most used ones shows.
pub const TOP_COUNT: usize = 5;

/// Said where a listing of the most used bookmarks has nothing to show.
pub const NOTHING_AVAILABLE: &'static str = "No bookmarks available. Try help, add.";

/// Stands above the listing of the most used bookmarks.
pub const TOP_HEADER: &'static str = "Most used 5 bookmarks:";

/// Asks for the key of the bookmark to visit.
pub const PROMPT: &'static str = "Choose key: ";

/// Said where a store without bookmarks is to be cleaned.
pub const NOTHING_TO_CLEAN: &'static str = "No bookmarks to clean.";

/// Said where cleaning found every path in place.
pub const ALL_VALID: &'static str = "All bookmarks are valid. Nothing to clean.";

/// The name of the store file, below the user's configuration directory.
pub const STORE_FILE: &'static str = "bookmarker/bookmarks.json";

/// `head`, then `key`, then `tail`.
pub open spec fn around(head: Seq<char>, key: Seq<char>, tail: Seq<char>) -> Seq<char> {
    head + key + tail
}

/// What is said after a bookmark was added.
pub open spec fn added_text(key: Seq<char>, name: Seq<char>) -> Seq<char> {
    "Bookmark added: ["@ + key + "]#"@ + name
}

/// What is said of a bookmark that cleaning removed.
pub open spec fn missing_text(e: Entry) -> Seq<char> {
    "Removed: ["@ + e.key + "]"@ + e.name + " - missing path '"@ + e.path + "'"@
}

/// What is said after cleaning, of `count` bookmarks removed.
pub open spec fn cleaned_text(count: nat) -> Seq<char> {
    if count == 0 {
        ALL_VALID@
    } else {
        "Cleaned "@ + decimal(count) + " invalid bookmark(s)."@
    }
}

/// What the listing of the most used bookmarks shows: the header and the
/// labels on one line, where there are any; one sentence where the store
/// is empty.
pub open spec fn top_text(top: Option<Seq<Entry>>) -> Seq<Seq<char>> {
    match top {
        None => seq![NOTHING_AVAILABLE@],
        Some(list) => if labels(list).flatten().len() == 0 {
            seq![TOP_HEADER@]
        } else {
            seq![TOP_HEADER@, one_line(list)]
        },
    }
}

/// `head`, then `key`, then `tail`, as one text.
fn wrap_key(head: &str, key: &str, tail: &str) -> (text: String)
    ensures
        text@ == around(head@, key@, tail@),
{
    let mut text = String::from_str(head);
    text.append(key);
    text.append(tail);
    text
}

/// What is said after the bookmark `key` with the name `name` was added.
pub fn added(key: &str, name: &str) -> (text: String)
    ensures
        text@ == added_text(key@, name@),
{
    let mut text = String::from_str("Bookmark added: [");
    text.append(key);
    text.append("]#");
    text.append(name);
    text
}

/// What is said where the key of a bookmark to add is taken.
pub fn duplicate(key: &str) -> (text: String)
    ensures
        text@ == around("A bookmark with key '"@, key@, "' already exists."@),
{
    wrap_key("A bookmark with key '", key, "' already exists.")
}

/// What is said after a removal by key: that the bookmark was deleted, or
/// that there was none.
pub fn removal(key: &str, removed: bool) -> (text: String)
    ensures
        removed ==> text@ == around("Bookmark with key '"@, key@, "' deleted"@),
        !removed ==> text@ == around("no bookmarks found with key '"@, key@, "'"@),
{
    if removed {
        wrap_key("Bookmark with key '", key, "' deleted")
    } else {
        wrap_key("no bookmarks found with key '", key, "'")
    }
}

/// What is said where no bookmark has the key that was asked for.
pub fn not_found(key: &str) -> (text: String)
    ensures
        text@ == around("No bookmark found for key '"@, key@, "'"@),
{
    wrap_key("No bookmark found for key '", key, "'")
}

/// What is said of each bookmark that cleaning removed, in their order.
pub fn missing(removed: &Vec<Bookmark>) -> (lines: Vec<String>)
    ensures
        lines.deep_view() == removed.deep_view().map_values(|e: Entry| missing_text(e)),
{
    let mut lines: Vec<String> = Vec::new();
    let mut i: usize = 0;
    while i < removed.len()
        invariant
            i <= removed.len(),
            lines.len() == i,
            forall|j: int|
                0 <= j < i ==> (#[trigger] lines[j])@ == missing_text(removed.deep_view()[j]),
        decreases removed.len() - i,
    {
        let gone = &removed[i];
        let mut text = String::from_str("Removed: [");
        text.append(gone.key.as_str());
        text.append("]");
        text.append(gone.name.as_str());
        text.append(" - missing path '");
        text.append(gone.path.as_str());
        text.append("'");
        lines.push(text);
        i += 1;
    }
    assert(lines.deep_view() =~= removed.deep_view().map_values(|e: Entry| missing_text(e)));
    lines
}

/// What is said at the end of cleaning a store that was not empty, of
/// `count` bookmarks removed.
pub fn cleaned(count: usize) -> (text: String)
    ensures
        text@ == cleaned_text(count as nat),
{
    if count == 0 {
        String::from_str(ALL_VALID)
    } else {
        let number = decimal_text(count);
        let mut text = String::from_str("Cleaned ");
        text.append(number.as_str());
        text.append(" invalid bookmark(s).");
        text
    }
}

/// The lines of the listing of the most used bookmarks, for what
/// `list_top` gave.
pub fn top_lines(top: &Option<Vec<Bookmark>>) -> (lines: Vec<String>)
    ensures
        lines.deep_view() == top_text(
            match *top {
                Some(list) => Some(list.deep_view()),
                None => None,
            },
        ),
{
    let mut lines: Vec<String> = Vec::new();
    match top {
        None => {
            lines.push(String::from_str(NOTHING_AVAILABLE));
            assert(lines.deep_view() =~= seq![NOTHING_AVAILABLE@]);
        },
        Some(list) => {
            lines.push(String::from_str(TOP_HEADER));
            proof {
                lemma_labels_fill_a_line(list.deep_view());
            }
            if list.len() > 0 {
                lines.push(line_of(list));
                assert(lines.deep_view() =~= seq![TOP_HEADER@, one_line(list.deep_view())]);
            } else {
                assert(lines.deep_view() =~= seq![TOP_HEADER@]);
            }
        },
    }
    lines
}

} // verus!
