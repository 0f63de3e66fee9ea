//! The state behind the two result lists (applications above, files below):
//! what each shows, how tall it is, which list is active and which row is
//! selected after switching, and what an activated row stands for.
use vstd::prelude::*;

use crate::app_index::AppEntry;
use crate::file_index::AppFile;

verus! {

/// Height in pixels of one result row.
pub const ROW_HEIGHT: i32 = 40;

/// Most height in pixels that one list takes.
pub const MAX_LIST_HEIGHT: i32 = 200;

/// Most results a list can be given: past this the height in pixels no longer
/// fits an `i32`.
pub const MAX_LIST_ITEMS: usize = 53687091;

/// Height of a list of `n` rows: a row height each, up to the maximum.
pub open spec fn list_height(n: nat) -> int {
    if n * ROW_HEIGHT < MAX_LIST_HEIGHT {
        n * ROW_HEIGHT
    } else {
        MAX_LIST_HEIGHT as int
    }
}

/// Which of the two lists.
#[derive(Clone, Copy, PartialEq, Eq, Debug, Structural)]
pub enum ListKind {
    Apps,
    Files,
}

/// What a list should look like after new results came in.
#[derive(Clone, Copy, PartialEq, Eq, Debug, Structural)]
pub struct ListUpdate {
    /// The list (and its scrolled area) is shown.
    pub visible: bool,
    /// The height to request for the scrolled area.
    pub height: i32,
    /// The separator between the two lists is shown.
    pub show_separator: bool,
}

/// The selected rows after switching lists, and the row to focus.
#[derive(Clone, Copy, PartialEq, Eq, Debug, Structural)]
pub struct ListSelection {
    pub app_selected: Option<usize>,
    pub file_selected: Option<usize>,
    pub focus: Option<usize>,
}

/// What the result lists hold.
pub ghost struct ResultsView {
    pub apps: Seq<AppEntry>,
    pub files: Seq<AppFile>,
    pub app_list_active: bool,
}

/// The lists after new application results: the files stay and the
/// application list becomes active.
pub open spec fn with_apps(v: ResultsView, apps: Seq<AppEntry>) -> ResultsView {
    ResultsView { apps, files: v.files, app_list_active: true }
}

/// The lists after new file results: the applications stay and the
/// application list becomes active.
pub open spec fn with_files(v: ResultsView, files: Seq<AppFile>) -> ResultsView {
    ResultsView { apps: v.apps, files, app_list_active: true }
}

/// The separator shows when both lists have rows.
pub open spec fn separator_shown(v: ResultsView) -> bool {
    v.apps.len() > 0 && v.files.len() > 0
}

/// How a list given `n` results looks, `after` being the lists once updated:
/// shown when it has rows, a row height per row up to the maximum, and the
/// separator shown when both lists have rows.
pub open spec fn list_update(n: nat, after: ResultsView) -> ListUpdate {
    ListUpdate { visible: n > 0, height: list_height(n) as i32, show_separator: separator_shown(after) }
}

/// The application behind row `row` of the application list, if any.
pub open spec fn app_at_row(v: ResultsView, row: int) -> Option<AppEntry> {
    if 0 <= row < v.apps.len() {
        Some(v.apps[row])
    } else {
        None
    }
}

/// The file behind row `row` of the file list, if any.
pub open spec fn file_at_row(v: ResultsView, row: int) -> Option<AppFile> {
    if 0 <= row < v.files.len() {
        Some(v.files[row])
    } else {
        None
    }
}

/// The selection in the list that becomes active: kept if there is one,
/// else the first row if the list has rows.
pub open spec fn selection_after(selected: Option<usize>, rows: nat) -> Option<usize> {
    if selected is None && rows > 0 {
        Some(0usize)
    } else {
        selected
    }
}

/// The results shown in the two lists and which list is active.
pub struct ResultsList {
    app_results: Vec<AppEntry>,
    file_results: Vec<AppFile>,
    app_list_active: bool,
}

impl View for ResultsList {
    type V = ResultsView;

    closed spec fn view(&self) -> ResultsView {
        ResultsView {
            apps: self.app_results@,
            files: self.file_results@,
            app_list_active: self.app_list_active,
        }
    }
}

impl ResultsList {
    /// Both lists empty, the application list active.
    pub fn new() -> (r: Self)
        ensures
            r@.apps.len() == 0,
            r@.files.len() == 0,
            r@.app_list_active,
    {
        ResultsList { app_results: Vec::new(), file_results: Vec::new(), app_list_active: true }
    }

    /// Whether the application list is the active one.
    pub fn app_list_active(&self) -> (r: bool)
        ensures
            r == self@.app_list_active,
    {
        self.app_list_active
    }

    /// The applications shown.
    pub fn app_results(&self) -> (r: &Vec<AppEntry>)
        ensures
            r@ == self@.apps,
    {
        &self.app_results
    }

    /// The files shown.
    pub fn file_results(&self) -> (r: &Vec<AppFile>)
        ensures
            r@ == self@.files,
    {
        &self.file_results
    }

    /// After new results: the application list becomes active again; returns
    /// whether the separator shows, which it does when both lists have rows.
    pub fn update(&mut self) -> (show_separator: bool)
        ensures
            final(self)@ == (ResultsView { app_list_active: true, ..old(self)@ }),
            show_separator == (old(self)@.apps.len() > 0 && old(self)@.files.len() > 0),
    {
        self.app_list_active = true;
        self.app_results.len() > 0 && self.file_results.len() > 0
    }

    /// How a list of `n` rows is laid out.
    fn layout(n: usize) -> (r: (bool, i32))
        requires
            n <= MAX_LIST_ITEMS,
        ensures
            r.0 == (n > 0),
            r.1 == list_height(n as nat),
    {
        let h: i32 = (n as i32) * ROW_HEIGHT;
        if h < MAX_LIST_HEIGHT {
            (n > 0, h)
        } else {
            (n > 0, MAX_LIST_HEIGHT)
        }
    }

    /// New application results came in.
    pub fn update_apps(&mut self, items: Vec<AppEntry>) -> (r: ListUpdate)
        requires
            items@.len() <= MAX_LIST_ITEMS,
        ensures
            final(self)@ == (ResultsView {
                apps: items@,
                files: old(self)@.files,
                app_list_active: true,
            }),
            r.visible == (items@.len() > 0),
            r.height == list_height(items@.len()),
            r.show_separator == (items@.len() > 0 && old(self)@.files.len() > 0),
            final(self)@ == with_apps(old(self)@, items@),
            r.show_separator == separator_shown(final(self)@),
            r == list_update(items@.len(), final(self)@),
    {
        let (visible, height) = Self::layout(items.len());
        self.app_results = items;
        let show_separator = self.update();
        ListUpdate { visible, height, show_separator }
    }

    /// New file results came in.
    pub fn update_files(&mut self, items: Vec<AppFile>) -> (r: ListUpdate)
        requires
            items@.len() <= MAX_LIST_ITEMS,
        ensures
            final(self)@ == (ResultsView {
                apps: old(self)@.apps,
                files: items@,
                app_list_active: true,
            }),
            r.visible == (items@.len() > 0),
            r.height == list_height(items@.len()),
            r.show_separator == (old(self)@.apps.len() > 0 && items@.len() > 0),
            final(self)@ == with_files(old(self)@, items@),
            r.show_separator == separator_shown(final(self)@),
            r == list_update(items@.len(), final(self)@),
    {
        let (visible, height) = Self::layout(items.len());
        self.file_results = items;
        let show_separator = self.update();
        ListUpdate { visible, height, show_separator }
    }

    /// Switches between the lists (when either has a selected row), clears the
    /// selection of the list left, selects the first row of the list entered
    /// when it has none selected, and names the row to focus.
    pub fn switch_lists(&mut self, app_selected: Option<usize>, file_selected: Option<usize>) -> (r:
        ListSelection)
        ensures
            final(self)@.apps == old(self)@.apps,
            final(self)@.files == old(self)@.files,
            final(self)@.app_list_active == if app_selected is Some || file_selected is Some {
                !old(self)@.app_list_active
            } else {
                old(self)@.app_list_active
            },
            final(self)@.app_list_active ==> r == (ListSelection {
                app_selected: selection_after(app_selected, old(self)@.apps.len()),
                file_selected: None,
                focus: selection_after(app_selected, old(self)@.apps.len()),
            }),
            !final(self)@.app_list_active ==> r == (ListSelection {
                app_selected: None,
                file_selected: selection_after(file_selected, old(self)@.files.len()),
                focus: selection_after(file_selected, old(self)@.files.len()),
            }),
    {
        if app_selected.is_some() || file_selected.is_some() {
            self.app_list_active = !self.app_list_active;
        }
        self.refresh_list_selection(app_selected, file_selected)
    }

    /// The selection once the active list has been entered.
    fn refresh_list_selection(&self, app_selected: Option<usize>, file_selected: Option<usize>) -> (r:
        ListSelection)
        ensures
            self@.app_list_active ==> r == (ListSelection {
                app_selected: selection_after(app_selected, self@.apps.len()),
                file_selected: None,
                focus: selection_after(app_selected, self@.apps.len()),
            }),
            !self@.app_list_active ==> r == (ListSelection {
                app_selected: None,
                file_selected: selection_after(file_selected, self@.files.len()),
                focus: selection_after(file_selected, self@.files.len()),
            }),
    {
        let (selected, rows) = if self.app_list_active {
            (app_selected, self.app_results.len())
        } else {
            (file_selected, self.file_results.len())
        };
        let now = if selected.is_none() && rows > 0 {
            Some(0)
        } else {
            selected
        };
        if self.app_list_active {
            ListSelection { app_selected: now, file_selected: None, focus: now }
        } else {
            ListSelection { app_selected: None, file_selected: now, focus: now }
        }
    }

    /// The row that the Return key activates: the selected row of the active
    /// list, if it has one.
    pub fn enter_target(&self, app_selected: Option<usize>, file_selected: Option<usize>) -> (r:
        Option<(ListKind, usize)>)
        ensures
            self@.app_list_active ==> r == match app_selected {
                Some(i) => Some((ListKind::Apps, i)),
                None => None::<(ListKind, usize)>,
            },
            !self@.app_list_active ==> r == match file_selected {
                Some(i) => Some((ListKind::Files, i)),
                None => None::<(ListKind, usize)>,
            },
    {
        if self.app_list_active {
            match app_selected {
                Some(i) => Some((ListKind::Apps, i)),
                None => None,
            }
        } else {
            match file_selected {
                Some(i) => Some((ListKind::Files, i)),
                None => None,
            }
        }
    }

    /// The application behind the activated row `row` of the application
    /// list (a negative row stands for a row outside the list).
    pub fn activated_app(&self, row: i32) -> (r: Option<AppEntry>)
        ensures
            r == app_at_row(self@, row as int),
            (0 <= row < self@.apps.len()) ==> r == Some(self@.apps[row as int]),
            !(0 <= row < self@.apps.len()) ==> r is None,
    {
        if row < 0 {
            return None;
        }
        let i = row as usize;
        if i < self.app_results.len() {
            Some(self.app_results[i].duplicate())
        } else {
            None
        }
    }

    /// The file behind the activated row `row` of the file list.
    pub fn activated_file(&self, row: i32) -> (r: Option<AppFile>)
        ensures
            r == file_at_row(self@, row as int),
            (0 <= row < self@.files.len()) ==> r == Some(self@.files[row as int]),
            !(0 <= row < self@.files.len()) ==> r is None,
    {
        if row < 0 {
            return None;
        }
        let i = row as usize;
        if i < self.file_results.len() {
            Some(self.file_results[i].duplicate())
        } else {
            None
        }
    }
}

/// A list is never taller than the maximum, a list with rows is at least
/// one row tall, and more rows never make it shorter.
pub proof fn law_list_height(n: nat, m: nat)
    ensures
        0 <= list_height(n) <= MAX_LIST_HEIGHT,
        n > 0 ==> list_height(n) >= ROW_HEIGHT,
        n <= m ==> list_height(n) <= list_height(m),
{
    assert(n <= m ==> n * ROW_HEIGHT <= m * ROW_HEIGHT) by (nonlinear_arith);
}

/// A list is a row height per row tall until that reaches the maximum
/// height, and the maximum height from there on: four rows are 160 pixels,
/// five or more are 200.
pub proof fn law_list_height_is_capped_row_sum(n: nat)
    ensures
        n * ROW_HEIGHT <= MAX_LIST_HEIGHT ==> list_height(n) == n * ROW_HEIGHT,
        n * ROW_HEIGHT >= MAX_LIST_HEIGHT ==> list_height(n) == MAX_LIST_HEIGHT,
{
}

/// The list entered by a switch keeps its selected row, or gets its first
/// row selected when it has rows and none was selected.
pub proof fn law_entered_list_selection(selected: Option<usize>, rows: nat)
    ensures
        selected is Some ==> selection_after(selected, rows) == selected,
        rows > 0 ==> selection_after(selected, rows) is Some,
        rows == 0 ==> selection_after(selected, rows) == selected,
{
}

/// New results replace the old ones: updating a list twice ends as updating
/// it once with the second results, with the same layout from the second
/// update.
pub proof fn law_update_last_wins(
    v: ResultsView,
    apps1: Seq<AppEntry>,
    apps2: Seq<AppEntry>,
    files1: Seq<AppFile>,
    files2: Seq<AppFile>,
)
    ensures
        with_apps(with_apps(v, apps1), apps2) == with_apps(v, apps2),
        with_files(with_files(v, files1), files2) == with_files(v, files2),
        list_update(apps2.len(), with_apps(with_apps(v, apps1), apps2)) == list_update(
            apps2.len(),
            with_apps(v, apps2),
        ),
        list_update(files2.len(), with_files(with_files(v, files1), files2)) == list_update(
            files2.len(),
            with_files(v, files2),
        ),
{
}

/// Updating the two lists in either order ends in the same state: both
/// results shown, the application list active, each list laid out for its
/// own results, and the separator shown exactly when both lists have rows.
pub proof fn law_updates_commute(v: ResultsView, apps: Seq<AppEntry>, files: Seq<AppFile>)
    requires
        apps.len() <= MAX_LIST_ITEMS,
        files.len() <= MAX_LIST_ITEMS,
    ensures
        with_files(with_apps(v, apps), files) == with_apps(with_files(v, files), apps),
        with_files(with_apps(v, apps), files).apps == apps,
        with_files(with_apps(v, apps), files).files == files,
        with_files(with_apps(v, apps), files).app_list_active,
        separator_shown(with_files(with_apps(v, apps), files)) == (apps.len() > 0 && files.len()
            > 0),
        // the layout of the application list does not depend on the order
        list_update(apps.len(), with_apps(v, apps)).visible == list_update(
            apps.len(),
            with_apps(with_files(v, files), apps),
        ).visible,
        list_update(apps.len(), with_apps(v, apps)).height == list_update(
            apps.len(),
            with_apps(with_files(v, files), apps),
        ).height,
        list_update(apps.len(), with_apps(v, apps)).height == list_height(apps.len()),
        // nor that of the file list
        list_update(files.len(), with_files(v, files)).visible == list_update(
            files.len(),
            with_files(with_apps(v, apps), files),
        ).visible,
        list_update(files.len(), with_files(v, files)).height == list_update(
            files.len(),
            with_files(with_apps(v, apps), files),
        ).height,
        list_update(files.len(), with_files(v, files)).height == list_height(files.len()),
        // the last update of either order sets the separator alike
        list_update(files.len(), with_files(with_apps(v, apps), files)).show_separator
            == list_update(apps.len(), with_apps(with_files(v, files), apps)).show_separator,
        list_update(files.len(), with_files(with_apps(v, apps), files)).show_separator == (
        apps.len() > 0 && files.len() > 0),
{
    law_list_height(apps.len(), apps.len());
    law_list_height(files.len(), files.len());
}

/// An activated row stands for the results of the latest update of its
/// list, whatever was shown before and whatever the other list got since.
pub proof fn law_activation_follows_updates(
    v: ResultsView,
    apps: Seq<AppEntry>,
    files: Seq<AppFile>,
    row: int,
)
    ensures
        app_at_row(with_files(with_apps(v, apps), files), row) == (if 0 <= row < apps.len() {
            Some(apps[row])
        } else {
            None
        }),
        file_at_row(with_apps(with_files(v, files), apps), row) == (if 0 <= row < files.len() {
            Some(files[row])
        } else {
            None
        }),
        app_at_row(with_apps(with_files(v, files), apps), row) == app_at_row(
            with_files(with_apps(v, apps), files),
            row,
        ),
        file_at_row(with_apps(with_files(v, files), apps), row) == file_at_row(
            with_files(with_apps(v, apps), files),
            row,
        ),
{
}

} // verus!
