//! The state behind the content panel: the listing of the current
//! directory, the sort and visibility settings, and the view they give.
use vstd::prelude::*;

use crate::entry::FileEntry;
use crate::pipeline::{
    arrange_entries, is_sorted_arrangement, is_stable_sort, lemma_resort_keeps_arrangement,
    lemma_stable_sort_is_sorted_arrangement, sort_entries, visible,
};
use crate::types::{flipped, SortBy, SortOrder, ViewMode};

verus! {

pub struct PanelView {
    pub sort_by: SortBy,
    pub sort_order: SortOrder,
    pub view_mode: ViewMode,
    pub show_hidden: bool,
    /// Every entry of the directory, in the order they were listed.
    pub listing: Seq<FileEntry>,
    /// What the panel shows.
    pub shown: Seq<FileEntry>,
}

/// What is shown is the visible part of the listing, rearranged into the
/// order of the settings.
pub open spec fn panel_wf(v: PanelView) -> bool {
    is_sorted_arrangement(v.shown, visible(v.listing, v.show_hidden), v.sort_by, v.sort_order)
}

/// The settings after a click on the header of `by`: the active field
/// flips its order, another field becomes active in ascending order.
pub open spec fn sort_after_select(by: SortBy, order: SortOrder, chosen: SortBy) -> (SortBy, SortOrder) {
    if by == chosen {
        (by, flipped(order))
    } else {
        (chosen, SortOrder::Ascending)
    }
}

/// Column of the header that stands for `by`.
pub open spec fn column_of(by: SortBy) -> int {
    match by {
        SortBy::Name => 0,
        SortBy::Size => 1,
        SortBy::Type => 2,
        SortBy::Date => 3,
    }
}

pub open spec fn column_title(i: int) -> Seq<char> {
    if i == 0 {
        "Name"@
    } else if i == 1 {
        "Size"@
    } else if i == 2 {
        "Type"@
    } else {
        "Date"@
    }
}

/// The label of header column `i`: its title, followed by an arrow for the
/// order on the active column.
pub open spec fn header_label(i: int, by: SortBy, order: SortOrder) -> Seq<char> {
    if i == column_of(by) {
        column_title(i) + match order {
            SortOrder::Ascending => " ↑"@,
            SortOrder::Descending => " ↓"@,
        }
    } else {
        column_title(i)
    }
}

/// What activating a shown entry asks for.
#[derive(Debug)]
pub enum RowAction {
    /// Go to this directory.
    Navigate(String),
    /// Open this file.
    Open(String),
    /// There is no entry at that place.
    Nothing,
}

/// Sort and visibility settings with the listing of one directory; the
/// settings persist when another directory is loaded.
pub struct OwlContentPanel {
    sort_by: SortBy,
    sort_order: SortOrder,
    view_mode: ViewMode,
    show_hidden_files: bool,
    listing: Vec<FileEntry>,
    entries: Vec<FileEntry>,
}

impl View for OwlContentPanel {
    type V = PanelView;

    closed spec fn view(&self) -> PanelView {
        PanelView {
            sort_by: self.sort_by,
            sort_order: self.sort_order,
            view_mode: self.view_mode,
            show_hidden: self.show_hidden_files,
            listing: self.listing@,
            shown: self.entries@,
        }
    }
}

impl OwlContentPanel {
    /// An empty panel, sorted by name in ascending order, hiding dot-files,
    /// in the list layout.
    pub fn new() -> (r: Self)
        ensures
            r@.sort_by == SortBy::Name,
            r@.sort_order == SortOrder::Ascending,
            r@.view_mode == ViewMode::List,
            !r@.show_hidden,
            r@.listing.len() == 0,
            panel_wf(r@),
    {
        let mut r = OwlContentPanel {
            sort_by: SortBy::Name,
            sort_order: SortOrder::Ascending,
            view_mode: ViewMode::List,
            show_hidden_files: false,
            listing: Vec::new(),
            entries: Vec::new(),
        };
        r.rearrange();
        r
    }

    /// Shows the visible part of the listing, sorted afresh.
    fn rearrange(&mut self)
        ensures
            final(self)@ == (PanelView { shown: final(self)@.shown, ..old(self)@ }),
            is_stable_sort(
                final(self)@.shown,
                visible(final(self)@.listing, final(self)@.show_hidden),
                final(self)@.sort_by,
                final(self)@.sort_order,
            ),
            panel_wf(final(self)@),
    {
        self.entries = arrange_entries(&self.listing, self.show_hidden_files, self.sort_by, self.sort_order);
        proof {
            lemma_stable_sort_is_sorted_arrangement(
                self@.shown,
                visible(self@.listing, self@.show_hidden),
                self@.sort_by,
                self@.sort_order,
            );
        }
    }

    /// Sorts the entries shown by the current settings, so entries that tie
    /// keep the order they were shown in.
    fn resort(&mut self, old_by: Ghost<SortBy>, old_order: Ghost<SortOrder>)
        requires
            is_sorted_arrangement(
                old(self)@.shown,
                visible(old(self)@.listing, old(self)@.show_hidden),
                old_by@,
                old_order@,
            ),
        ensures
            final(self)@ == (PanelView { shown: final(self)@.shown, ..old(self)@ }),
            is_stable_sort(final(self)@.shown, old(self)@.shown, old(self)@.sort_by, old(self)@.sort_order),
            panel_wf(final(self)@),
    {
        let ghost prev = self@;
        self.entries = sort_entries(&self.entries, self.sort_by, self.sort_order);
        proof {
            lemma_resort_keeps_arrangement(
                prev.shown,
                visible(prev.listing, prev.show_hidden),
                old_by@,
                old_order@,
                self@.shown,
                self@.sort_by,
                self@.sort_order,
            );
        }
    }

    /// Shows the listing `entries` of a newly loaded directory.
    pub fn load_directory(&mut self, entries: Vec<FileEntry>)
        ensures
            final(self)@.listing == entries@,
            final(self)@.sort_by == old(self)@.sort_by,
            final(self)@.sort_order == old(self)@.sort_order,
            final(self)@.view_mode == old(self)@.view_mode,
            final(self)@.show_hidden == old(self)@.show_hidden,
            is_stable_sort(
                final(self)@.shown,
                visible(entries@, final(self)@.show_hidden),
                final(self)@.sort_by,
                final(self)@.sort_order,
            ),
            panel_wf(final(self)@),
    {
        self.listing = entries;
        self.rearrange();
    }

    /// Switches the layout; the entries shown stay as they are.
    pub fn set_view_mode(&mut self, mode: ViewMode)
        ensures
            final(self)@ == (PanelView { view_mode: mode, ..old(self)@ }),
    {
        self.view_mode = mode;
    }

    /// Sorts the entries shown by `sort_by` in ascending order, as the menu
    /// does; entries that tie keep the order they were shown in.
    pub fn set_sort_menu(&mut self, sort_by: SortBy)
        requires
            panel_wf(old(self)@),
        ensures
            is_stable_sort(final(self)@.shown, old(self)@.shown, sort_by, SortOrder::Ascending),
            final(self)@.sort_by == sort_by,
            final(self)@.sort_order == SortOrder::Ascending,
            final(self)@.view_mode == old(self)@.view_mode,
            final(self)@.show_hidden == old(self)@.show_hidden,
            final(self)@.listing == old(self)@.listing,
            panel_wf(final(self)@),
    {
        let ghost prev = self@;
        self.sort_by = sort_by;
        self.sort_order = SortOrder::Ascending;
        self.resort(Ghost(prev.sort_by), Ghost(prev.sort_order));
    }

    /// Sorts by `sort_by` as a click on its column header does: the active
    /// field flips its order, another field starts in ascending order. The
    /// entries shown are sorted again, so entries that tie keep their order.
    pub fn set_sort(&mut self, sort_by: SortBy)
        requires
            panel_wf(old(self)@),
        ensures
            is_stable_sort(final(self)@.shown, old(self)@.shown, final(self)@.sort_by, final(self)@.sort_order),
            (final(self)@.sort_by, final(self)@.sort_order) == sort_after_select(
                old(self)@.sort_by,
                old(self)@.sort_order,
                sort_by,
            ),
            final(self)@.view_mode == old(self)@.view_mode,
            final(self)@.show_hidden == old(self)@.show_hidden,
            final(self)@.listing == old(self)@.listing,
            panel_wf(final(self)@),
    {
        let ghost prev = self@;
        if self.sort_by == sort_by {
            self.sort_order.toggle();
        } else {
            self.sort_by = sort_by;
            self.sort_order = SortOrder::Ascending;
        }
        self.resort(Ghost(prev.sort_by), Ghost(prev.sort_order));
    }

    /// Shows dot-files if they were hidden, and hides them if they were
    /// shown.
    pub fn set_visible_files(&mut self)
        ensures
            final(self)@.show_hidden == !old(self)@.show_hidden,
            final(self)@.sort_by == old(self)@.sort_by,
            final(self)@.sort_order == old(self)@.sort_order,
            final(self)@.view_mode == old(self)@.view_mode,
            final(self)@.listing == old(self)@.listing,
            is_stable_sort(
                final(self)@.shown,
                visible(final(self)@.listing, final(self)@.show_hidden),
                final(self)@.sort_by,
                final(self)@.sort_order,
            ),
            panel_wf(final(self)@),
    {
        self.show_hidden_files = !self.show_hidden_files;
        self.rearrange();
    }

    /// Sorts the entries shown in `sort_order`, keeping the field.
    pub fn set_order(&mut self, sort_order: SortOrder)
        requires
            panel_wf(old(self)@),
        ensures
            is_stable_sort(final(self)@.shown, old(self)@.shown, final(self)@.sort_by, sort_order),
            final(self)@.sort_order == sort_order,
            final(self)@.sort_by == old(self)@.sort_by,
            final(self)@.view_mode == old(self)@.view_mode,
            final(self)@.show_hidden == old(self)@.show_hidden,
            final(self)@.listing == old(self)@.listing,
            panel_wf(final(self)@),
    {
        let ghost prev = self@;
        self.sort_order = sort_order;
        self.resort(Ghost(prev.sort_by), Ghost(prev.sort_order));
    }

    /// The labels of the four column headers (name, size, type, date), the
    /// active one marked with the arrow of the order.
    pub fn header_labels(&self) -> (r: Vec<String>)
        ensures
            r@.len() == 4,
            forall|i: int| 0 <= i < 4 ==> (#[trigger] r@[i])@ == header_label(i, self@.sort_by, self@.sort_order),
    {
        let active: usize = match self.sort_by {
            SortBy::Name => 0,
            SortBy::Size => 1,
            SortBy::Type => 2,
            SortBy::Date => 3,
        };
        let titles = ["Name", "Size", "Type", "Date"];
        let mut r: Vec<String> = Vec::new();
        let mut i: usize = 0;
        while i < 4
            invariant
                i <= 4,
                r@.len() == i,
                active as int == column_of(self@.sort_by),
                forall|k: int| 0 <= k < 4 ==> (#[trigger] titles@[k])@ == column_title(k),
                forall|k: int| 0 <= k < i ==> (#[trigger] r@[k])@ == header_label(k, self@.sort_by, self@.sort_order),
            decreases 4 - i,
        {
            let mut label = String::from_str(titles[i]);
            if i == active {
                match self.sort_order {
                    SortOrder::Ascending => label.append(" ↑"),
                    SortOrder::Descending => label.append(" ↓"),
                }
            }
            r.push(label);
            i = i + 1;
        }
        r
    }

    /// What activating the shown entry at `index` asks for: going into a
    /// directory, or opening a file.
    pub fn activate_row(&self, index: usize) -> (r: RowAction)
        ensures
            match r {
                RowAction::Navigate(p) => index < self@.shown.len() && self@.shown[index as int].is_dir
                    && p@ == self@.shown[index as int].path@,
                RowAction::Open(p) => index < self@.shown.len() && !self@.shown[index as int].is_dir
                    && p@ == self@.shown[index as int].path@,
                RowAction::Nothing => index >= self@.shown.len(),
            },
    {
        if index >= self.entries.len() {
            return RowAction::Nothing;
        }
        let e = &self.entries[index];
        if e.is_dir {
            RowAction::Navigate(e.path.clone())
        } else {
            RowAction::Open(e.path.clone())
        }
    }

    pub fn sort_by(&self) -> (r: SortBy)
        ensures
            r == self@.sort_by,
    {
        self.sort_by
    }

    pub fn sort_order(&self) -> (r: SortOrder)
        ensures
            r == self@.sort_order,
    {
        self.sort_order
    }

    pub fn view_mode(&self) -> (r: ViewMode)
        ensures
            r == self@.view_mode,
    {
        self.view_mode
    }

    pub fn show_hidden_files(&self) -> (r: bool)
        ensures
            r == self@.show_hidden,
    {
        self.show_hidden_files
    }

    /// The entries shown, in order.
    pub fn entries(&self) -> (r: &Vec<FileEntry>)
        ensures
            r@ == self@.shown,
    {
        &self.entries
    }
}

} // verus!
