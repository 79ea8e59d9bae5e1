//! What holds of the store's operations taken together, stated over the
//! models that their contracts use.

use crate::bookmark::Entry;
use crate::rank::{is_ranking, lemma_ranking_covers, lemma_ranking_is_ranking, ranking, top_entries};
use crate::store::{
    chosen, dropped, holds_key, is_first_match, kept, lemma_chosen_selects, lemma_chosen_split,
    touched, visited,
};
use vstd::prelude::*;

verus! {

/// A visit to a key raises the count of the first record with that key by
/// exactly one and leaves its texts alone; every other record, and every
/// record if none has the key, stays as it was.
pub proof fn lemma_visit_counts_once(s: Seq<Entry>, key: Seq<char>)
    ensures
        touched(s, key).len() == s.len(),
        forall|i: int|
            is_first_match(s, key, i) ==> (#[trigger] touched(s, key)[i]).uses == s[i].uses + 1
                && touched(s, key)[i].key == s[i].key && touched(s, key)[i].name == s[i].name
                && touched(s, key)[i].path == s[i].path,
        forall|i: int|
            0 <= i < s.len() && !is_first_match(s, key, i) ==> #[trigger] touched(s, key)[i]
                == s[i],
        !holds_key(s, key) ==> touched(s, key) == s,
{
    if !holds_key(s, key) {
        assert(touched(s, key) =~= s);
    }
}

/// Two visits to one key raise the same record twice: the first record
/// with the key is still the first after a visit.
pub proof fn lemma_visits_add_up(s: Seq<Entry>, key: Seq<char>, i: int)
    requires
        is_first_match(s, key, i),
    ensures
        is_first_match(touched(s, key), key, i),
        touched(touched(s, key), key)[i].uses == s[i].uses + 2,
{
    let once = touched(s, key);
    assert forall|j: int| 0 <= j < i implies (#[trigger] once[j]).key != key by {
        assert(s[j].key != key);
    }
    assert(once[i] == visited(s[i]));
}

/// Among the records that are listed, those with equally many uses stand
/// in the order in which they stand in the store.
pub proof fn lemma_top_keeps_order_of_equals(s: Seq<Entry>, n: nat, a: int, b: int)
    requires
        0 <= a < b < top_entries(s, n).len(),
        top_entries(s, n)[a].uses == top_entries(s, n)[b].uses,
    ensures
        top_entries(s, n)[a] == s[ranking(s)[a]],
        top_entries(s, n)[b] == s[ranking(s)[b]],
        0 <= ranking(s)[a] < ranking(s)[b] < s.len(),
{
    lemma_ranking_is_ranking(s);
}

/// Of two records with equally many uses the earlier one is ranked before
/// the later one, so a listing that shows the later one shows the earlier
/// one too, and above it.
pub proof fn lemma_earlier_of_equals_ranks_first(s: Seq<Entry>, i: int, j: int)
    requires
        0 <= i < j < s.len(),
        s[i].uses == s[j].uses,
    ensures
        exists|a: int, b: int|
            0 <= a < b < s.len() && ranking(s)[a] == i && ranking(s)[b] == j,
{
    let order = ranking(s);
    lemma_ranking_is_ranking(s);
    lemma_ranking_covers(s, order);
    assert(order.contains(i));
    assert(order.contains(j));
    let a = choose|a: int| 0 <= a < order.len() && order[a] == i;
    let b = choose|b: int| 0 <= b < order.len() && order[b] == j;
    if b < a {
        assert(crate::rank::outranks(s, order[b], order[a]));
    }
    assert(0 <= a < b < s.len() && ranking(s)[a] == i && ranking(s)[b] == j);
}

/// The listing of the most used records shows them by falling number of
/// uses.
pub proof fn lemma_top_is_descending(s: Seq<Entry>, n: nat, a: int, b: int)
    requires
        0 <= a < b < top_entries(s, n).len(),
    ensures
        top_entries(s, n)[a].uses >= top_entries(s, n)[b].uses,
{
    lemma_ranking_is_ranking(s);
    assert(crate::rank::outranks(s, ranking(s)[a], ranking(s)[b]));
}

/// What a look at the disk says of each record of `s`, where `on_disk`
/// says which paths are there.
pub open spec fn presence(s: Seq<Entry>, on_disk: spec_fn(Seq<char>) -> bool) -> Seq<bool> {
    Seq::new(s.len(), |i: int| on_disk(s[i].path))
}

/// Cleaning a second time, while the same paths are there, removes nothing:
/// what the first cleaning kept is kept again, all of it.
pub proof fn lemma_clean_twice_removes_nothing(s: Seq<Entry>, on_disk: spec_fn(Seq<char>) -> bool)
    ensures
        dropped(kept(s, presence(s, on_disk)), presence(kept(s, presence(s, on_disk)), on_disk))
            == Seq::<Entry>::empty(),
        kept(kept(s, presence(s, on_disk)), presence(kept(s, presence(s, on_disk)), on_disk))
            == kept(s, presence(s, on_disk)),
{
    let first = presence(s, on_disk);
    let once = kept(s, first);
    let second = presence(once, on_disk);
    lemma_chosen_selects(s, first, true, s.len());
    assert forall|k: int| 0 <= k < once.len() implies #[trigger] second[k] by {
        let i = choose|i: int| 0 <= i < s.len() && first[i] == true && s[i] == once[k];
        assert(on_disk(s[i].path));
    }
    let gone = chosen(once, second, false, once.len());
    lemma_chosen_selects(once, second, false, once.len());
    if gone.len() > 0 {
        let i = choose|i: int| 0 <= i < once.len() && second[i] == false && once[i] == gone[0];
        assert(second[i]);
    }
    assert(gone =~= Seq::<Entry>::empty());
    lemma_chosen_split(once, second, once.len());
    assert(once.take(once.len() as int) =~= once);
}

/// A store in which no two records share a key has one record at most for
/// any key, so a visit or a removal by key concerns that record alone.
pub proof fn lemma_distinct_keys_match_once(s: Seq<Entry>, key: Seq<char>, i: int, j: int)
    requires
        crate::store::distinct_keys(s),
        0 <= i < s.len(),
        0 <= j < s.len(),
        s[i].key == key,
        s[j].key == key,
    ensures
        i == j,
        is_first_match(s, key, i),
{
    if i < j {
        assert(s[i].key != s[j].key);
    }
    if j < i {
        assert(s[j].key != s[i].key);
    }
    assert forall|k: int| 0 <= k < i implies (#[trigger] s[k]).key != key by {
        assert(s[k].key != s[i].key);
    }
}

} // verus!
