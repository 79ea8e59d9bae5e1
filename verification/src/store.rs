//! The bookmark store: the records in insertion order, and the operations
//! that change them.

use crate::bookmark::{Bookmark, Entry};
use crate::error::StoreError;
use crate::machine::path_exists;
use crate::text::{trim, trimmed};
use vstd::prelude::*;
use vstd::string::*;

verus! {

/// Some record of `s` has the key `key`.
pub open spec fn holds_key(s: Seq<Entry>, key: Seq<char>) -> bool {
    exists|i: int| 0 <= i < s.len() && (#[trigger] s[i]).key == key
}

/// Record `i` is the first record of `s` with the key `key`.
pub open spec fn is_first_match(s: Seq<Entry>, key: Seq<char>, i: int) -> bool {
    &&& 0 <= i < s.len()
    &&& s[i].key == key
    &&& forall|j: int| 0 <= j < i ==> (#[trigger] s[j]).key != key
}

/// No two records of `s` share a key.
pub open spec fn distinct_keys(s: Seq<Entry>) -> bool {
    forall|i: int, j: int|
        0 <= i < j < s.len() ==> (#[trigger] s[i]).key != (#[trigger] s[j]).key
}

/// The record `e` after one more visit.
pub open spec fn visited(e: Entry) -> Entry {
    Entry { uses: e.uses + 1, ..e }
}

/// The records of `s` after a visit to `key`: the first record with that key
/// has one more use, every other record is as it was.
pub open spec fn touched(s: Seq<Entry>, key: Seq<char>) -> Seq<Entry> {
    Seq::new(
        s.len(),
        |i: int|
            if is_first_match(s, key, i) {
                visited(s[i])
            } else {
                s[i]
            },
    )
}

/// The counter that a visit to `key` would raise can still be raised.
pub open spec fn has_room(s: Seq<Entry>, key: Seq<char>) -> bool {
    forall|i: int| is_first_match(s, key, i) ==> s[i].uses < usize::MAX
}

/// A visit to `key` turns the records `before` into `after` and has the
/// result `outcome`: the path of the first record with that key, whose
/// count went up by one; or, where no record has the key, the failure to
/// find it, with the records unchanged.
pub open spec fn is_visit(
    before: Seq<Entry>,
    key: Seq<char>,
    outcome: Result<String, StoreError>,
    after: Seq<Entry>,
) -> bool {
    &&& after == touched(before, key)
    &&& outcome is Ok <==> holds_key(before, key)
    &&& outcome matches Ok(path) ==> exists|i: int|
        is_first_match(before, key, i) && path@ == before[i].path
    &&& outcome matches Err(e) ==> e == StoreError::NotFound
}

/// The records of `s` whose key is not `key`, in their order.
pub open spec fn without_key(s: Seq<Entry>, key: Seq<char>) -> Seq<Entry> {
    s.filter(|e: Entry| e.key != key)
}

/// The first `n` records of `s` at whose position `flags` says `want`, in
/// their order.
pub open spec fn chosen(s: Seq<Entry>, flags: Seq<bool>, want: bool, n: nat) -> Seq<Entry> {
    positions_upto(n).filter(flagged(flags, want)).map_values(record_at(s))
}

/// The positions below `n`, in ascending order.
pub open spec fn positions_upto(n: nat) -> Seq<int> {
    Seq::new(n, |i: int| i)
}

/// Whether `flags` says `want` at a position.
pub open spec fn flagged(flags: Seq<bool>, want: bool) -> spec_fn(int) -> bool {
    |i: int| flags[i] == want
}

/// The record of `s` at a position.
pub open spec fn record_at(s: Seq<Entry>) -> spec_fn(int) -> Entry {
    |i: int| s[i]
}

/// The records of `s` whose path is there, `present` saying so position by
/// position.
pub open spec fn kept(s: Seq<Entry>, present: Seq<bool>) -> Seq<Entry> {
    chosen(s, present, true, s.len())
}

/// The records of `s` whose path is gone.
pub open spec fn dropped(s: Seq<Entry>, present: Seq<bool>) -> Seq<Entry> {
    chosen(s, present, false, s.len())
}

/// The bookmarks of one user, in the order in which they were added.
#[derive(Debug)]
pub struct Store {
    pub records: Vec<Bookmark>,
}

impl View for Store {
    type V = Seq<Entry>;

    open spec fn view(&self) -> Seq<Entry> {
        self.records.deep_view()
    }
}

impl Store {
    /// The empty store, which is what a missing store file stands for.
    pub fn new() -> (store: Store)
        ensures
            store@ == Seq::<Entry>::empty(),
    {
        let store = Store { records: Vec::new() };
        assert(store@ =~= Seq::<Entry>::empty());
        store
    }

    /// The number of bookmarks.
    pub fn len(&self) -> (n: usize)
        ensures
            n == self@.len(),
    {
        self.records.len()
    }

    /// Whether the store holds no bookmark.
    pub fn is_empty(&self) -> (empty: bool)
        ensures
            empty == (self@.len() == 0),
    {
        self.records.len() == 0
    }

    /// The position of the first bookmark with the key `key`, if there is one.
    pub fn find(&self, key: &str) -> (found: Option<usize>)
        ensures
            found is Some <==> holds_key(self@, key@),
            found matches Some(i) ==> is_first_match(self@, key@, i as int),
    {
        let wanted = String::from_str(key);
        let mut i: usize = 0;
        while i < self.records.len()
            invariant
                i <= self.records.len(),
                wanted@ == key@,
                forall|j: int| 0 <= j < i ==> (#[trigger] self@[j]).key != key@,
            decreases self.records.len() - i,
        {
            if self.records[i].key == wanted {
                assert(self@[i as int].key == key@);
                return Some(i);
            }
            i += 1;
        }
        None
    }

    /// Adds a bookmark that was never visited, unless its key is taken.
    pub fn add(&mut self, key: String, name: String, path: String) -> (outcome: Result<
        (),
        StoreError,
    >)
        ensures
            holds_key(old(self)@, key@) ==> outcome == Err::<(), StoreError>(
                StoreError::DuplicateKey,
            ) && final(self)@ == old(self)@,
            !holds_key(old(self)@, key@) ==> outcome == Ok::<(), StoreError>(()) && final(self)@
                == old(self)@.push(Entry { name: name@, path: path@, key: key@, uses: 0 }),
            distinct_keys(old(self)@) ==> distinct_keys(final(self)@),
    {
        if self.find(key.as_str()).is_some() {
            return Err(StoreError::DuplicateKey);
        }
        let fresh = Bookmark::new(key, name, path);
        self.records.push(fresh);
        assert(self@ =~= old(self)@.push(fresh@));
        Ok(())
    }

    /// Counts a visit to the first bookmark with the key `key` and gives its
    /// path.
    pub fn touch(&mut self, key: &str) -> (outcome: Result<String, StoreError>)
        requires
            has_room(old(self)@, key@),
        ensures
            is_visit(old(self)@, key@, outcome, final(self)@),
            distinct_keys(old(self)@) ==> distinct_keys(final(self)@),
    {
        match self.find(key) {
            Some(i) => {
                let path = self.records[i].path.clone();
                let uses = self.records[i].uses;
                self.records[i].uses = uses + 1;
                assert(self@ =~= touched(old(self)@, key@));
                Ok(path)
            },
            None => {
                assert(self@ =~= touched(old(self)@, key@));
                Err(StoreError::NotFound)
            },
        }
    }

    /// Counts a visit as `touch` does, unless the counter is at its limit:
    /// then the answer is `None` and the store stays as it is.
    pub fn try_touch(&mut self, key: &str) -> (outcome: Option<Result<String, StoreError>>)
        ensures
            outcome is None <==> !has_room(old(self)@, key@),
            outcome is None ==> final(self)@ == old(self)@,
            outcome matches Some(visit) ==> is_visit(old(self)@, key@, visit, final(self)@),
            distinct_keys(old(self)@) ==> distinct_keys(final(self)@),
    {
        match self.find(key) {
            Some(i) => {
                if self.records[i].uses == usize::MAX {
                    return None;
                }
            },
            None => {},
        }
        Some(self.touch(key))
    }

    /// Counts a visit to the bookmark whose key was typed in answer to the
    /// menu: `typed` without the whitespace at either end is the key, and
    /// the rest is `try_touch`.
    pub fn interactive_select(&mut self, typed: &str) -> (outcome: Option<
        Result<String, StoreError>,
    >)
        ensures
            outcome is None <==> !has_room(old(self)@, trim(typed@)),
            outcome is None ==> final(self)@ == old(self)@,
            outcome matches Some(visit) ==> is_visit(
                old(self)@,
                trim(typed@),
                visit,
                final(self)@,
            ),
            distinct_keys(old(self)@) ==> distinct_keys(final(self)@),
    {
        let key = trimmed(typed);
        self.try_touch(key.as_str())
    }

    /// Deletes every bookmark with the key `key` and says whether there was
    /// one.
    pub fn remove(&mut self, key: &str) -> (removed: bool)
        ensures
            final(self)@ == without_key(old(self)@, key@),
            removed == holds_key(old(self)@, key@),
            !removed ==> final(self)@ == old(self)@,
            distinct_keys(old(self)@) ==> distinct_keys(final(self)@),
    {
        let wanted = String::from_str(key);
        let mut all: Vec<Bookmark> = Vec::new();
        core::mem::swap(&mut self.records, &mut all);
        let ghost before = all.deep_view();
        let mut removed = false;
        assert(self@ =~= without_key(before.take(0), key@));
        for record in it: all
            invariant
                wanted@ == key@,
                it.seq().len() == before.len(),
                forall|j: int| 0 <= j < before.len() ==> (#[trigger] it.seq()[j])@ == before[j],
                self@ == without_key(before.take(it.index() as int), key@),
                removed == holds_key(before.take(it.index() as int), key@),
        {
            let ghost i = it.index() as int;
            let ghost kept = self@;
            proof {
                assert(record@ == before[i]);
                lemma_without_key_push(before.take(i), before[i], key@);
                assert(before.take(i + 1) =~= before.take(i).push(before[i]));
            }
            if record.key == wanted {
                removed = true;
            } else {
                self.records.push(record);
                assert(self@ =~= kept.push(before[i]));
            }
        }
        proof {
            assert(before.take(before.len() as int) =~= before);
            lemma_without_key_selects(before, key@);
        }
        removed
    }

    /// Deletes the bookmarks whose path is gone and hands them back in their
    /// order; `present` says for each position whether the path is there.
    pub fn clean_with(&mut self, present: &Vec<bool>) -> (removed: Vec<Bookmark>)
        requires
            present.len() == old(self)@.len(),
        ensures
            final(self)@ == kept(old(self)@, present@),
            removed.deep_view() == dropped(old(self)@, present@),
            removed.len() == 0 ==> final(self)@ == old(self)@,
            distinct_keys(old(self)@) ==> distinct_keys(final(self)@),
    {
        let mut all: Vec<Bookmark> = Vec::new();
        core::mem::swap(&mut self.records, &mut all);
        let ghost before = all.deep_view();
        let mut removed: Vec<Bookmark> = Vec::new();
        let mut i: usize = 0;
        assert(self@ =~= chosen(before, present@, true, 0));
        assert(removed.deep_view() =~= chosen(before, present@, false, 0));
        for record in it: all
            invariant
                i == it.index(),
                it.seq().len() == before.len(),
                present.len() == before.len(),
                forall|j: int| 0 <= j < before.len() ==> (#[trigger] it.seq()[j])@ == before[j],
                self@ == chosen(before, present@, true, i as nat),
                removed.deep_view() == chosen(before, present@, false, i as nat),
        {
            let ghost stay = self@;
            let ghost gone = removed.deep_view();
            proof {
                assert(record@ == before[i as int]);
                lemma_chosen_step(before, present@, true, i as nat);
                lemma_chosen_step(before, present@, false, i as nat);
            }
            if present[i] {
                self.records.push(record);
                assert(self@ =~= stay.push(before[i as int]));
            } else {
                removed.push(record);
                assert(removed.deep_view() =~= gone.push(before[i as int]));
            }
            i += 1;
        }
        proof {
            lemma_chosen_selects(before, present@, true, before.len());
            lemma_chosen_selects(before, present@, false, before.len());
            lemma_chosen_split(before, present@, before.len());
        }
        removed
    }

    /// Deletes the bookmarks whose path is not there now and hands them
    /// back in their order. Each path is looked up once, in the order of
    /// the store.
    pub fn clean(&mut self) -> (removed: Vec<Bookmark>)
        ensures
            exists|present: Seq<bool>|
                present.len() == old(self)@.len() && final(self)@ == kept(old(self)@, present)
                    && removed.deep_view() == dropped(old(self)@, present),
            removed.len() == 0 ==> final(self)@ == old(self)@,
            distinct_keys(old(self)@) ==> distinct_keys(final(self)@),
    {
        let mut present: Vec<bool> = Vec::new();
        let mut i: usize = 0;
        while i < self.records.len()
            invariant
                i <= self.records.len(),
                present.len() == i,
                *self == *old(self),
            decreases self.records.len() - i,
        {
            present.push(path_exists(self.records[i].path.as_str()));
            i += 1;
        }
        self.clean_with(&present)
    }
}

/// Choosing among one record more.
pub proof fn lemma_chosen_step(s: Seq<Entry>, flags: Seq<bool>, want: bool, n: nat)
    ensures
        chosen(s, flags, want, (n + 1) as nat) == if flags[n as int] == want {
            chosen(s, flags, want, n).push(s[n as int])
        } else {
            chosen(s, flags, want, n)
        },
{
    let upto = positions_upto(n);
    assert(positions_upto((n + 1) as nat) =~= upto.push(n as int));
    upto.lemma_filter_push(n as int, flagged(flags, want));
    upto.filter(flagged(flags, want)).lemma_push_map_commute(record_at(s), n as int);
}

/// What was chosen among the first `n` records: records of the store, each
/// at a position that was flagged as wanted, and no two with one key if that
/// holds of the store.
pub proof fn lemma_chosen_selects(s: Seq<Entry>, flags: Seq<bool>, want: bool, n: nat)
    requires
        n <= s.len(),
    ensures
        forall|k: int|
            0 <= k < chosen(s, flags, want, n).len() ==> exists|i: int|
                0 <= i < n && flags[i] == want && s[i] == #[trigger] chosen(s, flags, want, n)[k],
        distinct_keys(s) ==> distinct_keys(chosen(s, flags, want, n)),
    decreases n,
{
    if n > 0 {
        let m = (n - 1) as nat;
        let less = chosen(s, flags, want, m);
        let out = chosen(s, flags, want, n);
        lemma_chosen_selects(s, flags, want, m);
        lemma_chosen_step(s, flags, want, m);
        assert forall|k: int| 0 <= k < out.len() implies exists|i: int|
            0 <= i < n && flags[i] == want && s[i] == #[trigger] out[k] by {
            if k < less.len() {
                let i = choose|i: int| 0 <= i < m && flags[i] == want && s[i] == less[k];
                assert(0 <= i < n && flags[i] == want && s[i] == out[k]);
            } else {
                assert(flags[m as int] == want && s[m as int] == out[k]);
            }
        }
        if distinct_keys(s) {
            assert forall|a: int, b: int| 0 <= a < b < out.len() implies (#[trigger] out[a]).key
                != (#[trigger] out[b]).key by {
                if b == less.len() {
                    let i = choose|i: int| 0 <= i < m && flags[i] == want && s[i] == less[a];
                    assert(s[i].key != s[m as int].key);
                }
            }
        }
    } else {
        assert(chosen(s, flags, want, n) =~= Seq::<Entry>::empty());
    }
}

/// If nothing is dropped among the first `n` records, all of them are kept.
pub proof fn lemma_chosen_split(s: Seq<Entry>, present: Seq<bool>, n: nat)
    requires
        n <= s.len(),
    ensures
        chosen(s, present, true, n).len() + chosen(s, present, false, n).len() == n,
        chosen(s, present, false, n).len() == 0 ==> chosen(s, present, true, n) == s.take(n as int),
    decreases n,
{
    if n > 0 {
        let m = (n - 1) as nat;
        lemma_chosen_split(s, present, m);
        lemma_chosen_step(s, present, true, m);
        lemma_chosen_step(s, present, false, m);
        if chosen(s, present, false, n).len() == 0 {
            assert(s.take(n as int) =~= s.take(m as int).push(s[m as int]));
        }
    } else {
        assert(chosen(s, present, true, n) =~= s.take(0));
        assert(chosen(s, present, false, n) =~= Seq::<Entry>::empty());
    }
}

/// Leaving out the records with one key, record by record.
pub proof fn lemma_without_key_push(s: Seq<Entry>, e: Entry, key: Seq<char>)
    ensures
        without_key(s.push(e), key) == if e.key != key {
            without_key(s, key).push(e)
        } else {
            without_key(s, key)
        },
        holds_key(s.push(e), key) <==> holds_key(s, key) || e.key == key,
{
    s.lemma_filter_push(e, |e: Entry| e.key != key);
    let t = s.push(e);
    if holds_key(s, key) {
        let i = choose|i: int| 0 <= i < s.len() && (#[trigger] s[i]).key == key;
        assert(t[i].key == key);
    }
    if e.key == key {
        assert(t[s.len() as int].key == key);
    }
    if holds_key(t, key) {
        let i = choose|i: int| 0 <= i < t.len() && (#[trigger] t[i]).key == key;
        if i < s.len() {
            assert(s[i].key == key);
        }
    }
}

/// What is left after leaving out a key: records of the store, none with
/// that key, no two with one key if that held before, and the whole store
/// if no record had the key.
pub proof fn lemma_without_key_selects(s: Seq<Entry>, key: Seq<char>)
    ensures
        forall|k: int|
            0 <= k < without_key(s, key).len() ==> s.contains(#[trigger] without_key(s, key)[k])
                && without_key(s, key)[k].key != key,
        distinct_keys(s) ==> distinct_keys(without_key(s, key)),
        !holds_key(s, key) ==> without_key(s, key) == s,
    decreases s.len(),
{
    if s.len() > 0 {
        let t = s.drop_last();
        let e = s.last();
        assert(s =~= t.push(e));
        lemma_without_key_selects(t, key);
        lemma_without_key_push(t, e, key);
        let out = without_key(s, key);
        assert forall|k: int| 0 <= k < out.len() implies s.contains(#[trigger] out[k])
            && out[k].key != key by {
            if k < without_key(t, key).len() {
                let x = without_key(t, key)[k];
                assert(t.contains(x));
                let j = choose|j: int| 0 <= j < t.len() && t[j] == x;
                assert(s[j] == x);
            } else {
                assert(s[s.len() - 1] == e);
            }
        }
        if distinct_keys(s) {
            assert(distinct_keys(t)) by {
                assert forall|i: int, j: int| 0 <= i < j < t.len() implies (#[trigger] t[i]).key
                    != (#[trigger] t[j]).key by {
                    assert(s[i].key != s[j].key);
                }
            }
            assert forall|i: int, j: int| 0 <= i < j < out.len() implies (#[trigger] out[i]).key
                != (#[trigger] out[j]).key by {
                if j == without_key(t, key).len() {
                    let x = without_key(t, key)[i];
                    assert(t.contains(x));
                    let m = choose|m: int| 0 <= m < t.len() && t[m] == x;
                    assert(s[m].key != s[s.len() - 1].key);
                }
            }
        }
        if !holds_key(s, key) {
            assert(without_key(s, key) =~= s);
        }
    } else {
        assert(without_key(s, key) =~= s);
    }
}

} // verus!
