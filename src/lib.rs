//! Directory navigation and listing engine of a file explorer: the history
//! state machine, the model of a directory's entries with their display
//! strings, and the sort/filter pipeline that turns a listing into a view.

pub mod bookmarks;
pub mod calendar;
pub mod entry;
pub mod navigation;
pub mod order;
pub mod panel;
pub mod paths;
pub mod pipeline;
pub mod text;
pub mod types;

pub use bookmarks::{format_bookmarks, parse_bookmarks, Bookmark, OwlSidePanel};
pub use calendar::secs_to_date;
pub use entry::{EntryStat, FileEntry};
pub use navigation::NavigationController;
pub use panel::{OwlContentPanel, RowAction};
pub use order::compare_text;
pub use pipeline::{arrange_entries, filter_entries, sort_entries};
pub use types::{SortBy, SortOrder, ViewMode};
