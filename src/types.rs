use vstd::prelude::*;

verus! {

/// The field that orders entries within the directories and within the files.
#[derive(Clone, Copy, Debug, PartialEq, Eq, Structural)]
pub enum SortBy {
    Name,
    Size,
    Type,
    Date,
}

/// How the entries of a directory are laid out.
#[derive(Clone, Copy, Debug, PartialEq, Eq, Structural)]
pub enum ViewMode {
    List,
    Grid,
    Compact,
}

/// Direction of the secondary comparison; directories come first either way.
#[derive(Clone, Copy, Debug, PartialEq, Eq, Structural)]
pub enum SortOrder {
    Ascending,
    Descending,
}

pub open spec fn flipped(o: SortOrder) -> SortOrder {
    match o {
        SortOrder::Ascending => SortOrder::Descending,
        SortOrder::Descending => SortOrder::Ascending,
    }
}

impl SortBy {
    /// Entries start out sorted by name.
    pub fn default() -> (r: Self)
        ensures
            r == SortBy::Name,
    {
        SortBy::Name
    }
}

impl ViewMode {
    /// The detailed list is the initial layout.
    pub fn default() -> (r: Self)
        ensures
            r == ViewMode::List,
    {
        ViewMode::List
    }
}

impl SortOrder {
    /// Entries start out in ascending order.
    pub fn default() -> (r: Self)
        ensures
            r == SortOrder::Ascending,
    {
        SortOrder::Ascending
    }

    /// Switches between ascending and descending.
    pub fn toggle(&mut self)
        ensures
            *final(self) == flipped(*old(self)),
    {
        *self = match *self {
            SortOrder::Ascending => SortOrder::Descending,
            SortOrder::Descending => SortOrder::Ascending,
        };
    }
}

} // verus!
