use spotlauncher::app_index::AppEntry;
use spotlauncher::file_index::AppFile;
use spotlauncher::results::{ListKind, ListSelection, ListUpdate, ResultsList};

fn apps(n: u64) -> Vec<AppEntry> {
    (0..n)
        .map(|i| AppEntry { id: i, name: format!("app{}", i), display_name: format!("App {}", i) })
        .collect()
}

fn files(n: usize) -> Vec<AppFile> {
    (0..n).map(|i| AppFile::from_path_str(&format!("/f/{}", i))).collect()
}

#[test]
fn new_lists_are_empty_with_apps_active() {
    let r = ResultsList::new();
    assert!(r.app_results().is_empty());
    assert!(r.file_results().is_empty());
    assert!(r.app_list_active());
}

#[test]
fn list_heights() {
    let mut r = ResultsList::new();
    assert_eq!(r.update_apps(apps(0)), ListUpdate { visible: false, height: 0, show_separator: false });
    assert_eq!(r.update_apps(apps(1)), ListUpdate { visible: true, height: 40, show_separator: false });
    assert_eq!(r.update_apps(apps(3)), ListUpdate { visible: true, height: 120, show_separator: false });
    assert_eq!(r.update_apps(apps(5)).height, 200);
    assert_eq!(r.update_apps(apps(10)).height, 200);
    assert_eq!(r.app_results().len(), 10);
}

#[test]
fn separator_shows_when_both_lists_have_rows() {
    let mut r = ResultsList::new();
    assert!(!r.update_files(files(2)).show_separator);
    assert!(r.update_apps(apps(1)).show_separator);
    assert!(!r.update_files(files(0)).show_separator);
    assert!(!r.update());
    r.update_files(files(1));
    assert!(r.update());
}

#[test]
fn update_makes_apps_active_again() {
    let mut r = ResultsList::new();
    r.update_apps(apps(2));
    r.update_files(files(2));
    r.switch_lists(Some(0), None);
    assert!(!r.app_list_active());
    r.update_files(files(3));
    assert!(r.app_list_active());
    r.switch_lists(Some(1), None);
    assert!(!r.app_list_active());
    r.update_apps(apps(1));
    assert!(r.app_list_active());
}

#[test]
fn switching_moves_to_the_other_list_and_selects_its_first_row() {
    let mut r = ResultsList::new();
    r.update_apps(apps(2));
    r.update_files(files(3));
    let s = r.switch_lists(Some(1), None);
    assert!(!r.app_list_active());
    assert_eq!(s, ListSelection { app_selected: None, file_selected: Some(0), focus: Some(0) });
    let s = r.switch_lists(None, Some(2));
    assert!(r.app_list_active());
    assert_eq!(s, ListSelection { app_selected: Some(0), file_selected: None, focus: Some(0) });
}

#[test]
fn without_a_selection_switching_stays_and_selects_the_first_row() {
    let mut r = ResultsList::new();
    r.update_apps(apps(2));
    let s = r.switch_lists(None, None);
    assert!(r.app_list_active());
    assert_eq!(s, ListSelection { app_selected: Some(0), file_selected: None, focus: Some(0) });
}

#[test]
fn entering_an_empty_list_selects_nothing() {
    let mut r = ResultsList::new();
    r.update_apps(apps(2));
    let s = r.switch_lists(Some(0), None);
    assert!(!r.app_list_active());
    assert_eq!(s, ListSelection { app_selected: None, file_selected: None, focus: None });
}

#[test]
fn a_selection_in_the_entered_list_is_kept() {
    let mut r = ResultsList::new();
    r.update_apps(apps(2));
    r.update_files(files(3));
    let s = r.switch_lists(Some(0), Some(2));
    assert_eq!(s, ListSelection { app_selected: None, file_selected: Some(2), focus: Some(2) });
}

#[test]
fn return_activates_the_selection_of_the_active_list() {
    let mut r = ResultsList::new();
    r.update_apps(apps(2));
    r.update_files(files(2));
    assert_eq!(r.enter_target(Some(1), Some(0)), Some((ListKind::Apps, 1)));
    assert_eq!(r.enter_target(None, Some(0)), None);
    r.switch_lists(Some(1), None);
    assert_eq!(r.enter_target(Some(1), Some(0)), Some((ListKind::Files, 0)));
    assert_eq!(r.enter_target(Some(1), None), None);
}

#[test]
fn activated_rows_name_their_results() {
    let mut r = ResultsList::new();
    r.update_apps(apps(2));
    r.update_files(files(2));
    assert_eq!(r.activated_app(1).map(|a| a.id), Some(1));
    assert!(r.activated_app(2).is_none());
    assert!(r.activated_app(-1).is_none());
    assert_eq!(r.activated_file(0).map(|f| f.path), Some("/f/0".to_string()));
    assert!(r.activated_file(5).is_none());
    assert!(r.activated_file(-1).is_none());
}

#[test]
fn update_orders_commute_and_last_update_wins() {
    let mut r1 = ResultsList::new();
    r1.update_files(files(1));
    r1.update_files(files(2));
    let u1 = r1.update_apps(apps(3));
    let mut r2 = ResultsList::new();
    r2.update_apps(apps(3));
    let u2 = r2.update_files(files(2));
    assert_eq!(r1.app_results().len(), r2.app_results().len());
    assert_eq!(r1.file_results().len(), 2);
    assert_eq!(r2.file_results().len(), 2);
    assert!(r1.app_list_active() && r2.app_list_active());
    assert!(u1.show_separator && u2.show_separator);
}

#[test]
fn activated_rows_follow_later_updates() {
    let mut r = ResultsList::new();
    r.update_apps(apps(1));
    r.update_files(files(1));
    r.update_apps(apps(3));
    r.update_files(files(2));
    assert_eq!(r.activated_app(2).map(|a| a.id), Some(2));
    assert_eq!(r.activated_file(1).map(|f| f.path), Some("/f/1".to_string()));
    assert!(r.activated_file(2).is_none());
}
