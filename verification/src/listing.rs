//! The listings: one label per bookmark, wrapped to a line width, and one
//! full line per bookmark.

use crate::bookmark::{Bookmark, Entry};
use crate::machine::terminal_columns;
use crate::store::Store;
use crate::text::{byte_len, decimal, decimal_text, trim_end, trimmed_end, utf8_len};
use vstd::prelude::*;
use vstd::string::*;

verus! {

/// The short form of a bookmark: its key in brackets, its name, two spaces.
pub open spec fn label(e: Entry) -> Seq<char> {
    "["@ + e.key + "]"@ + e.name + "  "@
}

/// The long form of a bookmark: key, name, number of uses and path.
pub open spec fn long_line(e: Entry) -> Seq<char> {
    "["@ + e.key + "] "@ + e.name + " ("@ + decimal(e.uses) + " uses) - "@ + e.path
}

/// The labels of the records of `s`, in their order.
pub open spec fn labels(s: Seq<Entry>) -> Seq<Seq<char>> {
    s.map_values(|e: Entry| label(e))
}

/// The long forms of the records of `s`, in their order.
pub open spec fn long_lines(s: Seq<Entry>) -> Seq<Seq<char>> {
    s.map_values(|e: Entry| long_line(e))
}

/// The labels of `s` on one line, without the whitespace at its end.
pub open spec fn one_line(s: Seq<Entry>) -> Seq<char> {
    trim_end(labels(s).flatten())
}

/// Filling lines of at most `width` bytes with the first `n` of `parts`:
/// the lines that are full, each without the whitespace at its end, and the
/// line that is being filled. A part that does not fit onto the line being
/// filled closes it, even if that line is still empty, and starts the next.
pub open spec fn filled(parts: Seq<Seq<char>>, width: nat, n: nat) -> (Seq<Seq<char>>, Seq<char>)
    decreases n,
{
    if n == 0 {
        (Seq::empty(), Seq::empty())
    } else {
        let (full, line) = filled(parts, width, (n - 1) as nat);
        let next = parts[n - 1];
        if utf8_len(line) + utf8_len(next) > width {
            (full.push(trim_end(line)), next)
        } else {
            (full, line + next)
        }
    }
}

/// `parts` wrapped into lines of at most `width` bytes: the full lines, and
/// the last line if anything is on it.
pub open spec fn wrapped(parts: Seq<Seq<char>>, width: nat) -> Seq<Seq<char>> {
    let (full, line) = filled(parts, width, parts.len());
    if line.len() == 0 {
        full
    } else {
        full.push(trim_end(line))
    }
}

/// The short listing of `s` for lines of `width` bytes.
pub open spec fn short_lines(s: Seq<Entry>, width: nat) -> Seq<Seq<char>> {
    wrapped(labels(s), width)
}

/// A label is never empty, so the labels of a list on one line are empty
/// only for the empty list.
pub proof fn lemma_labels_fill_a_line(s: Seq<Entry>)
    ensures
        labels(s).flatten().len() == 0 <==> s.len() == 0,
{
    let all = labels(s);
    if s.len() > 0 {
        reveal_strlit("[");
        assert(all =~= all.drop_last().push(all.last()));
        all.drop_last().lemma_flatten_push(all.last());
        assert(all.last() == label(s.last()));
        assert(label(s.last()).len() >= 1);
    } else {
        assert(all.flatten() =~= Seq::<char>::empty());
    }
}

/// The line width where none can be detected.
pub const DEFAULT_WIDTH: usize = 80;

/// The line width for a terminal of `detected` columns: that number, or 80
/// where no terminal was found.
pub open spec fn line_width(detected: Option<u16>) -> nat {
    match detected {
        Some(columns) => columns as nat,
        None => 80,
    }
}

/// The line width for a terminal of `detected` columns.
pub fn width_for(detected: Option<u16>) -> (width: usize)
    ensures
        width == line_width(detected),
{
    match detected {
        Some(columns) => columns as usize,
        None => DEFAULT_WIDTH,
    }
}

impl Bookmark {
    /// The short form of the bookmark.
    pub fn label(&self) -> (text: String)
        ensures
            text@ == label(self@),
    {
        let mut text = String::from_str("[");
        text.append(self.key.as_str());
        text.append("]");
        text.append(self.name.as_str());
        text.append("  ");
        text
    }

    /// The long form of the bookmark.
    pub fn long_line(&self) -> (text: String)
        ensures
            text@ == long_line(self@),
    {
        let uses = decimal_text(self.uses);
        let mut text = String::from_str("[");
        text.append(self.key.as_str());
        text.append("] ");
        text.append(self.name.as_str());
        text.append(" (");
        text.append(uses.as_str());
        text.append(" uses) - ");
        text.append(self.path.as_str());
        text
    }
}

/// The labels of `list` on one line, without the whitespace at its end.
pub fn line_of(list: &Vec<Bookmark>) -> (text: String)
    ensures
        text@ == one_line(list.deep_view()),
{
    let mut line = String::new();
    let mut i: usize = 0;
    assert(labels(list.deep_view()).take(0).flatten() =~= Seq::<char>::empty());
    while i < list.len()
        invariant
            i <= list.len(),
            line@ == labels(list.deep_view()).take(i as int).flatten(),
        decreases list.len() - i,
    {
        let part = list[i].label();
        proof {
            let all = labels(list.deep_view());
            assert(all.take(i + 1) =~= all.take(i as int).push(all[i as int]));
            all.take(i as int).lemma_flatten_push(all[i as int]);
        }
        line.append(part.as_str());
        i += 1;
    }
    assert(labels(list.deep_view()).take(list.len() as int) =~= labels(list.deep_view()));
    trimmed_end(line.as_str())
}

impl Store {
    /// The short listing for lines of `width` bytes: the labels in the
    /// order of the store, as many on each line as fit. Nothing for an
    /// empty store.
    pub fn list_short_at(&self, width: usize) -> (lines: Vec<String>)
        ensures
            lines.deep_view() == short_lines(self@, width as nat),
            self@.len() == 0 ==> lines@.len() == 0,
    {
        let mut lines: Vec<String> = Vec::new();
        let mut line = String::new();
        let mut i: usize = 0;
        assert(lines.deep_view() =~= Seq::<Seq<char>>::empty());
        while i < self.records.len()
            invariant
                i <= self.records.len(),
                (lines.deep_view(), line@) == filled(labels(self@), width as nat, i as nat),
            decreases self.records.len() - i,
        {
            let part = self.records[i].label();
            let ghost full = lines.deep_view();
            let on_line = byte_len(line.as_str());
            let more = byte_len(part.as_str());
            if more > width || on_line > width - more {
                let done = trimmed_end(line.as_str());
                lines.push(done);
                assert(lines.deep_view() =~= full.push(done@));
                line = part;
            } else {
                line.append(part.as_str());
            }
            i += 1;
        }
        if !line.as_str().is_empty() {
            let ghost full = lines.deep_view();
            let done = trimmed_end(line.as_str());
            lines.push(done);
            assert(lines.deep_view() =~= full.push(done@));
        }
        lines
    }

    /// The short listing for the terminal that the process runs in, as wide
    /// as that terminal, or 80 bytes wide where there is none.
    pub fn list_short(&self) -> (lines: Vec<String>)
        ensures
            exists|detected: Option<u16>|
                lines.deep_view() == short_lines(self@, line_width(detected)),
            self@.len() == 0 ==> lines@.len() == 0,
    {
        let detected = terminal_columns();
        self.list_short_at(width_for(detected))
    }

    /// The long listing: one line for each bookmark, in the order of the
    /// store. Nothing for an empty store.
    pub fn list_long(&self) -> (lines: Vec<String>)
        ensures
            lines.deep_view() == long_lines(self@),
            self@.len() == 0 ==> lines@.len() == 0,
    {
        let mut lines: Vec<String> = Vec::new();
        let mut i: usize = 0;
        while i < self.records.len()
            invariant
                i <= self.records.len(),
                lines.len() == i,
                forall|j: int| 0 <= j < i ==> (#[trigger] lines[j])@ == long_line(self@[j]),
            decreases self.records.len() - i,
        {
            lines.push(self.records[i].long_line());
            i += 1;
        }
        assert(lines.deep_view() =~= long_lines(self@));
        lines
    }
}

} // verus!
