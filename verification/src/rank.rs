//! The ranking of bookmarks by use: most used first, and among equally used
//! ones the one that was added first.

use crate::bookmark::{Bookmark, Entry};
use crate::store::Store;
use vstd::prelude::*;
use vstd::set_lib::*;

verus! {

/// Record `i` of `s` is listed before record `j`: it has more uses, or as
/// many and an earlier position.
pub open spec fn outranks(s: Seq<Entry>, i: int, j: int) -> bool {
    s[i].uses > s[j].uses || (s[i].uses == s[j].uses && i < j)
}

/// `order` arranges the first `n` positions of `s` so that each one outranks
/// all that follow it.
pub open spec fn ranks_first(s: Seq<Entry>, n: nat, order: Seq<int>) -> bool {
    &&& order.len() == n
    &&& forall|k: int| 0 <= k < order.len() ==> 0 <= #[trigger] order[k] < n
    &&& forall|k: int, l: int|
        0 <= k < l < order.len() ==> outranks(s, #[trigger] order[k], #[trigger] order[l])
}

/// `order` is a ranking of `s`: every position once, each outranking all
/// that follow it.
pub open spec fn is_ranking(s: Seq<Entry>, order: Seq<int>) -> bool {
    ranks_first(s, s.len(), order)
}

/// How many leading positions of `order` have at least `uses` uses.
pub open spec fn slot(s: Seq<Entry>, order: Seq<int>, uses: nat) -> int
    decreases order.len(),
{
    if order.len() == 0 || s[order.first()].uses < uses {
        0
    } else {
        1 + slot(s, order.drop_first(), uses)
    }
}

/// The ranking of the first `n` records of `s`, built by placing each record
/// in turn behind those that have at least as many uses.
pub open spec fn ranking_of_first(s: Seq<Entry>, n: nat) -> Seq<int>
    decreases n,
{
    if n == 0 {
        Seq::empty()
    } else {
        let before = ranking_of_first(s, (n - 1) as nat);
        before.insert(slot(s, before, s[n - 1].uses), n - 1)
    }
}

/// The positions of `s` from the most used record to the least used one,
/// records with equal uses in the order in which they were added.
pub open spec fn ranking(s: Seq<Entry>) -> Seq<int> {
    ranking_of_first(s, s.len())
}

/// The first `n` records of `s` in ranking order, or all of them if there
/// are fewer.
pub open spec fn top_entries(s: Seq<Entry>, n: nat) -> Seq<Entry> {
    Seq::new(
        if n <= s.len() {
            n
        } else {
            s.len()
        },
        |k: int| s[ranking(s)[k]],
    )
}

/// `slot` splits a ranked `order` in two: the positions before it have at
/// least `uses` uses, those from it on have fewer.
pub proof fn lemma_slot_splits(s: Seq<Entry>, n: nat, order: Seq<int>, uses: nat)
    requires
        n <= s.len(),
        ranks_first(s, n, order),
    ensures
        0 <= slot(s, order, uses) <= order.len(),
        forall|k: int| 0 <= k < slot(s, order, uses) ==> s[#[trigger] order[k]].uses >= uses,
        forall|k: int|
            slot(s, order, uses) <= k < order.len() ==> s[#[trigger] order[k]].uses < uses,
{
    lemma_slot_prefix(s, order, uses);
    let p = slot(s, order, uses);
    assert forall|k: int| p <= k < order.len() implies s[#[trigger] order[k]].uses < uses by {
        if p < k {
            assert(outranks(s, order[p], order[k]));
        }
    }
}

/// The positions before `slot` have at least `uses` uses, and the one at it,
/// if there is one, has fewer.
proof fn lemma_slot_prefix(s: Seq<Entry>, order: Seq<int>, uses: nat)
    ensures
        0 <= slot(s, order, uses) <= order.len(),
        forall|k: int| 0 <= k < slot(s, order, uses) ==> s[#[trigger] order[k]].uses >= uses,
        slot(s, order, uses) < order.len() ==> s[order[slot(s, order, uses)]].uses < uses,
    decreases order.len(),
{
    if order.len() == 0 || s[order.first()].uses < uses {
    } else {
        let rest = order.drop_first();
        lemma_slot_prefix(s, rest, uses);
        assert forall|k: int| 0 <= k < slot(s, order, uses) implies s[#[trigger] order[k]].uses
            >= uses by {
            if k > 0 {
                assert(order[k] == rest[k - 1]);
            }
        }
        if slot(s, order, uses) < order.len() {
            assert(order[slot(s, order, uses)] == rest[slot(s, rest, uses)]);
        }
    }
}

/// What `ranking_of_first` builds is the arrangement that `ranks_first`
/// describes.
pub proof fn lemma_ranking_of_first_ranks(s: Seq<Entry>, n: nat)
    requires
        n <= s.len(),
    ensures
        ranks_first(s, n, ranking_of_first(s, n)),
    decreases n,
{
    if n > 0 {
        let before = ranking_of_first(s, (n - 1) as nat);
        let last = n - 1;
        let uses = s[last].uses;
        let p = slot(s, before, uses);
        let order = before.insert(p, last);
        lemma_ranking_of_first_ranks(s, (n - 1) as nat);
        lemma_slot_splits(s, (n - 1) as nat, before, uses);
        assert forall|k: int| 0 <= k < order.len() implies 0 <= #[trigger] order[k] < n by {
            if k < p {
                assert(order[k] == before[k]);
            } else if k > p {
                assert(order[k] == before[k - 1]);
            }
        }
        assert forall|k: int, l: int| 0 <= k < l < order.len() implies outranks(
            s,
            #[trigger] order[k],
            #[trigger] order[l],
        ) by {
            if l < p {
                assert(order[k] == before[k] && order[l] == before[l]);
            } else if l == p {
                assert(order[k] == before[k]);
            } else if k < p {
                assert(order[k] == before[k] && order[l] == before[l - 1]);
            } else if k == p {
                assert(order[l] == before[l - 1]);
            } else {
                assert(order[k] == before[k - 1] && order[l] == before[l - 1]);
            }
        }
    }
}

/// The ranking of a store lists every position once, most used first.
pub proof fn lemma_ranking_is_ranking(s: Seq<Entry>)
    ensures
        is_ranking(s, ranking(s)),
{
    lemma_ranking_of_first_ranks(s, s.len());
}

/// A ranking mentions every position of the store.
pub proof fn lemma_ranking_covers(s: Seq<Entry>, order: Seq<int>)
    requires
        is_ranking(s, order),
    ensures
        forall|x: int| 0 <= x < s.len() ==> order.contains(x),
{
    assert(order.no_duplicates()) by {
        assert forall|i: int, j: int|
            0 <= i < order.len() && 0 <= j < order.len() && i != j implies order[i]
            != order[j] by {
            if i < j {
                assert(outranks(s, order[i], order[j]));
            } else {
                assert(outranks(s, order[j], order[i]));
            }
        }
    }
    let all = set_int_range(0, s.len() as int);
    order.unique_seq_to_set();
    lemma_int_range(0, s.len() as int);
    assert(order.to_set().subset_of(all)) by {
        assert forall|x: int| order.to_set().contains(x) implies all.contains(x) by {
            let k = choose|k: int| 0 <= k < order.len() && order[k] == x;
            assert(0 <= order[k] < s.len());
        }
    }
    lemma_len_subset(order.to_set(), all);
    lemma_subset_equality(order.to_set(), all);
    assert forall|x: int| 0 <= x < s.len() implies order.contains(x) by {
        assert(all.contains(x));
        assert(order.to_set().contains(x));
    }
}

/// Two rankings of one store agree on their first `k` positions.
proof fn lemma_rankings_agree(s: Seq<Entry>, a: Seq<int>, b: Seq<int>, k: nat)
    requires
        is_ranking(s, a),
        is_ranking(s, b),
        k <= s.len(),
    ensures
        forall|j: int| 0 <= j < k ==> a[j] == b[j],
    decreases k,
{
    if k > 0 {
        let at = k - 1;
        lemma_rankings_agree(s, a, b, at as nat);
        let x = a[at];
        let y = b[at];
        if x != y {
            lemma_ranking_covers(s, a);
            lemma_ranking_covers(s, b);
            assert(b.contains(x));
            let m = choose|m: int| 0 <= m < b.len() && b[m] == x;
            if m < at {
                assert(outranks(s, a[m], a[at]));
            }
            assert(outranks(s, b[at], b[m]));
            assert(a.contains(y));
            let w = choose|w: int| 0 <= w < a.len() && a[w] == y;
            if w < at {
                assert(outranks(s, b[w], b[at]));
            }
            assert(outranks(s, a[at], a[w]));
        }
    }
}

/// A store has one ranking only: whatever arranges its positions so that
/// each outranks all that follow is `ranking`.
pub proof fn lemma_ranking_is_unique(s: Seq<Entry>, order: Seq<int>)
    requires
        is_ranking(s, order),
    ensures
        order == ranking(s),
{
    lemma_ranking_is_ranking(s);
    lemma_rankings_agree(s, order, ranking(s), s.len());
    assert(order =~= ranking(s));
}

/// Positions held in machine integers, read as mathematical ones.
pub open spec fn positions(order: Seq<usize>) -> Seq<int> {
    order.map_values(|p: usize| p as int)
}

impl Store {
    /// The positions of the bookmarks from the most used to the least used,
    /// equally used ones in the order in which they were added.
    pub fn ranked_positions(&self) -> (order: Vec<usize>)
        ensures
            positions(order@) == ranking(self@),
    {
        let mut order: Vec<usize> = Vec::new();
        let mut i: usize = 0;
        assert(positions(order@) =~= ranking_of_first(self@, 0));
        while i < self.records.len()
            invariant
                i <= self.records.len(),
                positions(order@) == ranking_of_first(self@, i as nat),
            decreases self.records.len() - i,
        {
            proof {
                lemma_ranking_of_first_ranks(self@, i as nat);
            }
            let uses = self.records[i].uses;
            let mut at: usize = 0;
            assert(positions(order@).skip(0) =~= positions(order@));
            while at < order.len() && self.records[order[at]].uses >= uses
                invariant
                    at <= order.len(),
                    i < self.records.len(),
                    uses == self@[i as int].uses,
                    ranks_first(self@, i as nat, positions(order@)),
                    slot(self@, positions(order@), uses as nat) == at + slot(
                        self@,
                        positions(order@).skip(at as int),
                        uses as nat,
                    ),
                decreases order.len() - at,
            {
                assert(positions(order@).skip(at as int).drop_first() =~= positions(order@).skip(
                    at + 1,
                ));
                at += 1;
            }
            let ghost before = positions(order@);
            order.insert(at, i);
            assert(positions(order@) =~= before.insert(at as int, i as int));
            i += 1;
        }
        order
    }

    /// A copy of the `n` most used bookmarks, most used first, or of all of
    /// them if there are fewer; `None` if the store is empty.
    pub fn list_top(&self, n: usize) -> (top: Option<Vec<Bookmark>>)
        ensures
            top is None <==> self@.len() == 0,
            top matches Some(list) ==> list.deep_view() == top_entries(self@, n as nat),
    {
        if self.records.len() == 0 {
            return None;
        }
        let order = self.ranked_positions();
        proof {
            lemma_ranking_is_ranking(self@);
        }
        let count = if n <= self.records.len() {
            n
        } else {
            self.records.len()
        };
        let mut list: Vec<Bookmark> = Vec::new();
        let mut k: usize = 0;
        while k < count
            invariant
                k <= count <= self.records.len(),
                positions(order@) == ranking(self@),
                is_ranking(self@, ranking(self@)),
                list.len() == k,
                forall|j: int| 0 <= j < k ==> (#[trigger] list[j])@ == self@[ranking(self@)[j]],
            decreases count - k,
        {
            assert(positions(order@)[k as int] == order[k as int]);
            list.push(self.records[order[k]].clone());
            k += 1;
        }
        assert(list.deep_view() =~= top_entries(self@, n as nat));
        Some(list)
    }
}

} // verus!
