use bookmarker::bookmark::Bookmark;
use bookmarker::store::Store;

fn bookmark(key: &str, uses: usize) -> Bookmark {
    Bookmark { name: format!("name-{key}"), path: format!("/{key}"), key: key.to_string(), uses }
}

fn keys(list: &Vec<Bookmark>) -> Vec<String> {
    list.iter().map(|b| b.key.clone()).collect()
}

fn store_with(uses: &[usize]) -> Store {
    let mut records = Vec::new();
    for (i, u) in uses.iter().enumerate() {
        records.push(bookmark(&format!("k{i}"), *u));
    }
    Store { records }
}

#[test]
fn list_top_of_an_empty_store_is_none() {
    assert_eq!(Store::new().list_top(5), None);
    assert_eq!(Store::new().list_top(0), None);
}

#[test]
fn list_top_sorts_by_falling_uses() {
    let store = store_with(&[1, 5, 3, 4, 2]);
    let top = store.list_top(5).unwrap();
    assert_eq!(keys(&top), vec!["k1", "k3", "k2", "k4", "k0"]);
    assert_eq!(top[0], bookmark("k1", 5));
}

#[test]
fn list_top_cuts_off_after_n() {
    let store = store_with(&[1, 5, 3, 4, 2, 9, 0]);
    assert_eq!(keys(&store.list_top(5).unwrap()), vec!["k5", "k1", "k3", "k2", "k4"]);
    assert_eq!(keys(&store.list_top(1).unwrap()), vec!["k5"]);
    assert_eq!(store.list_top(0), Some(Vec::new()));
    assert_eq!(store.list_top(100).unwrap().len(), 7);
}

#[test]
fn list_top_keeps_insertion_order_among_equals() {
    let store = store_with(&[2, 7, 2, 7, 2, 0, 7]);
    let top = store.list_top(7).unwrap();
    assert_eq!(keys(&top), vec!["k1", "k3", "k6", "k0", "k2", "k4", "k5"]);
    assert_eq!(keys(&store.list_top(4).unwrap()), vec!["k1", "k3", "k6", "k0"]);
}

#[test]
fn list_top_of_unvisited_bookmarks_is_the_store_order() {
    let store = store_with(&[0, 0, 0, 0, 0, 0]);
    assert_eq!(keys(&store.list_top(5).unwrap()), vec!["k0", "k1", "k2", "k3", "k4"]);
}

#[test]
fn list_top_leaves_the_store_alone() {
    let store = store_with(&[1, 3, 2]);
    let _ = store.list_top(5);
    assert_eq!(store.records, store_with(&[1, 3, 2]).records);
}

#[test]
fn ranked_positions_lists_every_position_once() {
    let store = store_with(&[4, 4, 9, 0, 9, 1]);
    assert_eq!(store.ranked_positions(), vec![2, 4, 0, 1, 5, 3]);
    assert_eq!(Store::new().ranked_positions(), Vec::<usize>::new());
}

#[test]
fn list_top_agrees_with_a_stable_sort() {
    let uses: Vec<usize> = vec![3, 1, 4, 1, 5, 9, 2, 6, 5, 3, 5, 8, 9, 7, 9, 3, 2, 3, 8, 4];
    let store = store_with(&uses);
    let mut sorted = store_with(&uses).records;
    sorted.sort_by(|a, b| b.uses.cmp(&a.uses));
    assert_eq!(store.list_top(uses.len()).unwrap(), sorted);
    sorted.truncate(5);
    assert_eq!(store.list_top(5).unwrap(), sorted);
}
