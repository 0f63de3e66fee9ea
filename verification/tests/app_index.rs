use spotlauncher::app_index::{sort_by_name, AppEntry, AppIndex, MAX_APP_RESULTS};

fn entry(id: u64, name: &str, display_name: &str) -> AppEntry {
    AppEntry { id, name: name.to_string(), display_name: display_name.to_string() }
}

fn ids(v: &[AppEntry]) -> Vec<u64> {
    v.iter().map(|e| e.id).collect()
}

#[test]
fn new_keeps_each_identity_once() {
    let index = AppIndex::new(vec![
        entry(1, "Firefox", "Firefox"),
        entry(2, "Files", "Files"),
        entry(1, "Other", "Other"),
        entry(3, "Terminal", "Terminal"),
        entry(2, "Again", "Again"),
    ]);
    assert_eq!(ids(index.entries()), vec![1, 2, 3]);
    assert_eq!(index.entries()[0].name, "Firefox");
}

#[test]
fn empty_query_finds_nothing() {
    let index = AppIndex::new(vec![entry(1, "Firefox", "Firefox")]);
    assert!(index.search("").is_empty());
}

#[test]
fn search_ignores_case_of_query_and_display_name() {
    let index = AppIndex::new(vec![
        entry(1, "Firefox", "Firefox Web Browser"),
        entry(2, "Files", "Files"),
        entry(3, "Terminal", "Terminal"),
    ]);
    assert_eq!(ids(&index.search("FIRE")), vec![1]);
    assert_eq!(ids(&index.search("web b")), vec![1]);
    assert_eq!(ids(&index.search("fi")), vec![2, 1]);
    assert!(index.search("xyz").is_empty());
}

#[test]
fn search_matches_display_name_not_name() {
    let index = AppIndex::new(vec![entry(1, "org.gnome.Nautilus", "Files")]);
    assert_eq!(ids(&index.search("files")), vec![1]);
    assert!(index.search("nautilus").is_empty());
}

#[test]
fn search_folds_unicode_case() {
    let index = AppIndex::new(vec![entry(1, "Éditeur", "ÉDITEUR DE TEXTE")]);
    assert_eq!(ids(&index.search("éditeur")), vec![1]);
    assert_eq!(ids(&index.search("De T")), vec![1]);
}

#[test]
fn search_sorts_by_name_ignoring_case() {
    let index = AppIndex::new(vec![
        entry(1, "zed", "app zed"),
        entry(2, "Alpha", "app alpha"),
        entry(3, "beta", "app beta"),
        entry(4, "Beta", "app Beta 2"),
    ]);
    // equal names ignoring case keep their index order
    assert_eq!(ids(&index.search("app")), vec![2, 3, 4, 1]);
}

#[test]
fn search_keeps_the_first_ten_matches() {
    let mut apps = Vec::new();
    for i in 0..12u64 {
        // names in reverse order of the index
        apps.push(entry(i, &format!("app{:02}", 20 - i), "match"));
    }
    let index = AppIndex::new(apps);
    let r = index.search("match");
    assert_eq!(r.len(), MAX_APP_RESULTS);
    // the first ten of the index, sorted by name: ids 9 down to 0
    assert_eq!(ids(&r), vec![9, 8, 7, 6, 5, 4, 3, 2, 1, 0]);
}

#[test]
fn sort_by_name_is_stable() {
    let items = vec![entry(1, "b", ""), entry(2, "A", ""), entry(3, "a", ""), entry(4, "B", "")];
    assert_eq!(ids(&sort_by_name(&items)), vec![2, 3, 1, 4]);
}

#[test]
fn sort_by_name_orders_prefix_first_and_by_code_point() {
    let items = vec![entry(1, "ab", ""), entry(2, "a", ""), entry(3, "é", ""), entry(4, "z", "")];
    assert_eq!(ids(&sort_by_name(&items)), vec![2, 1, 4, 3]);
}

#[test]
fn refresh_replaces_only_when_identities_differ() {
    let mut index = AppIndex::new(vec![entry(1, "A", "A"), entry(2, "B", "B")]);
    // same identities, other order and other data: no change
    assert!(!index.refresh(vec![entry(2, "X", "X"), entry(1, "Y", "Y"), entry(2, "Z", "Z")]));
    assert_eq!(ids(index.entries()), vec![1, 2]);
    assert_eq!(index.entries()[0].name, "A");
    // a new identity: the new listing is taken, repeats dropped
    assert!(index.refresh(vec![entry(3, "C", "C"), entry(1, "A", "A"), entry(3, "D", "D")]));
    assert_eq!(ids(index.entries()), vec![3, 1]);
    assert_eq!(index.entries()[0].name, "C");
    // the same listing again settles
    assert!(!index.refresh(vec![entry(3, "C", "C"), entry(1, "A", "A")]));
    // an identity gone also counts as a change
    assert!(index.refresh(vec![entry(3, "C", "C")]));
    assert_eq!(ids(index.entries()), vec![3]);
}

#[test]
fn refreshed_index_is_searched() {
    let mut index = AppIndex::new(vec![entry(1, "Old", "Old")]);
    assert!(index.refresh(vec![entry(2, "New", "New")]));
    assert!(index.search("old").is_empty());
    assert_eq!(ids(&index.search("new")), vec![2]);
}

#[test]
fn duplicate_copies_every_field() {
    let e = entry(7, "Name", "Display");
    let d = e.duplicate();
    assert_eq!(d.id, 7);
    assert_eq!(d.name, "Name");
    assert_eq!(d.display_name, "Display");
}

#[test]
fn search_treats_ascii_case_alike() {
    let index = AppIndex::new(vec![
        entry(1, "Firefox", "Firefox Web Browser"),
        entry(2, "Files", "Files"),
        entry(3, "Terminal", "Terminal"),
    ]);
    for q in ["fi", "web", "TeRm", "x"] {
        let lower = ids(&index.search(&q.to_ascii_lowercase()));
        let upper = ids(&index.search(&q.to_ascii_uppercase()));
        assert_eq!(ids(&index.search(q)), lower);
        assert_eq!(lower, upper);
    }
}

#[test]
fn refreshing_twice_with_one_listing_settles() {
    let mut index = AppIndex::new(vec![entry(1, "A", "A")]);
    let listing = || vec![entry(2, "B", "B"), entry(3, "C", "C"), entry(2, "D", "D")];
    assert!(index.refresh(listing()));
    let after_first = ids(index.entries());
    assert!(!index.refresh(listing()));
    assert_eq!(ids(index.entries()), after_first);
}
