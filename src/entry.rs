//! One child of a directory with the metadata the listing shows, and the
//! display strings derived from it.
use vstd::prelude::*;

use crate::calendar::{civil_of, secs_to_date};
use crate::paths::{extension, extension_of, file_name, file_name_of, upper_of, uppercase};
use crate::text::{decimal, push_decimal, push_zero_padded, same_text, zero_padded};

verus! {

/// A directory child: its path, final component, size in bytes, whether it
/// is a directory, and its modification time in seconds after the Unix
/// epoch (UTC). Entries are built afresh for every listing.
#[derive(Debug)]
pub struct FileEntry {
    pub path: String,
    pub name: String,
    pub size: u64,
    pub is_dir: bool,
    pub modified: u64,
}

/// What the filesystem reports of a child: whether it is a directory, its
/// length in bytes and its modification time in seconds after the epoch.
#[derive(Clone, Copy, Debug, PartialEq, Eq, Structural)]
pub struct EntryStat {
    pub is_dir: bool,
    pub size: u64,
    pub modified: u64,
}

/// Size in tenths of `unit`, rounded to the nearest tenth, ties to even.
pub open spec fn tenths(size: nat, unit: nat) -> nat
    recommends
        unit > 0,
{
    let q = size * 10 / unit;
    let r = size * 10 % unit;
    if 2 * r > unit || (2 * r == unit && q % 2 == 1) {
        q + 1
    } else {
        q
    }
}

/// A count of tenths written with one decimal, such as `1.5`.
pub open spec fn one_decimal(t: nat) -> Seq<char> {
    decimal(t / 10) + "."@ + decimal(t % 10)
}

/// The size as shown: a dash for a directory, else bytes, or kilo-, mega-
/// or gigabytes (powers of 1024) with one decimal.
pub open spec fn size_text(is_dir: bool, size: nat) -> Seq<char> {
    if is_dir {
        "—"@
    } else if size == 0 {
        "0 B"@
    } else if size < 1024 {
        decimal(size) + " B"@
    } else if size < 1048576 {
        one_decimal(tenths(size, 1024)) + " KB"@
    } else if size < 1073741824 {
        one_decimal(tenths(size, 1048576)) + " MB"@
    } else {
        one_decimal(tenths(size, 1073741824)) + " GB"@
    }
}

/// The label of a file's type, from its extension.
pub open spec fn kind_text(is_dir: bool, ext: Option<Seq<char>>) -> Seq<char> {
    if is_dir {
        "Folder"@
    } else {
        match ext {
            None => "Unknown"@,
            Some(e) => {
                if e == "txt"@ {
                    "Text"@
                } else if e == "png"@ {
                    "PNG Image"@
                } else if e == "jpg"@ || e == "jpeg"@ {
                    "JPEG Image"@
                } else if e == "pdf"@ {
                    "PDF"@
                } else if e == "zip"@ {
                    "ZIP Archive"@
                } else if e == "tar"@ {
                    "TAR Archive"@
                } else if e == "gz"@ {
                    "GZ Archive"@
                } else if e == "rs"@ {
                    "Rust Source"@
                } else if e == "toml"@ {
                    "TOML File"@
                } else {
                    upper_of(e) + " File"@
                }
            },
        }
    }
}

/// The themed icon that stands for an entry.
pub open spec fn icon_text(is_dir: bool, ext: Option<Seq<char>>) -> Seq<char> {
    if is_dir {
        "folder-symbolic"@
    } else {
        match ext {
            Some(e) => {
                if e == "txt"@ {
                    "text-x-generic"@
                } else if e == "png"@ || e == "jpg"@ || e == "jpeg"@ {
                    "image-x-generic"@
                } else if e == "pdf"@ {
                    "application-pdf"@
                } else if e == "zip"@ || e == "tar"@ || e == "gz"@ {
                    "package-x-generic"@
                } else if e == "rs"@ || e == "py"@ || e == "js"@ {
                    "text-x-script"@
                } else {
                    "application-x-generic"@
                }
            },
            None => "application-x-generic"@,
        }
    }
}

/// `YYYY-MM-DD HH:MM` in UTC for `secs` seconds after the Unix epoch.
pub open spec fn date_text(secs: nat) -> Seq<char> {
    let (y, mo, d, h, mi) = civil_of(secs);
    zero_padded(y, 4) + "-"@ + zero_padded(mo, 2) + "-"@ + zero_padded(d, 2) + " "@
        + zero_padded(h, 2) + ":"@ + zero_padded(mi, 2)
}

impl FileEntry {
    pub open spec fn kind(&self) -> Seq<char> {
        kind_text(self.is_dir, extension_of(self.path@))
    }

    /// The entry a child at `path` with metadata `stat` becomes; `None`
    /// where the path has no final component.
    pub open spec fn entry_for(path: Seq<char>, stat: EntryStat) -> Option<(Seq<char>, Seq<char>, EntryStat)> {
        match file_name_of(path) {
            Some(name) => Some((path, name, stat)),
            None => None,
        }
    }

    pub open spec fn matches(&self, m: (Seq<char>, Seq<char>, EntryStat)) -> bool {
        &&& self.path@ == m.0
        &&& self.name@ == m.1
        &&& self.is_dir == m.2.is_dir
        &&& self.size == m.2.size
        &&& self.modified == m.2.modified
    }

    /// Builds the entry for the child at `path`, whose metadata is `stat`;
    /// `None` where the path has no final component to name it by.
    pub fn from_path(path: String, stat: EntryStat) -> (r: Option<Self>)
        ensures
            match (r, Self::entry_for(path@, stat)) {
                (Some(e), Some(m)) => e.matches(m),
                (None, None) => true,
                _ => false,
            },
    {
        match file_name(path.as_str()) {
            Some(name) => Some(
                FileEntry {
                    path,
                    name,
                    size: stat.size,
                    is_dir: stat.is_dir,
                    modified: stat.modified,
                },
            ),
            None => None,
        }
    }

    /// A copy of the entry.
    pub fn copy(&self) -> (r: Self)
        ensures
            r == *self,
    {
        FileEntry {
            path: self.path.clone(),
            name: self.name.clone(),
            size: self.size,
            is_dir: self.is_dir,
            modified: self.modified,
        }
    }

    /// The size as people read it: `—` for a directory, bytes below 1024,
    /// else kilo-, mega- or gigabytes (powers of 1024) with one decimal.
    pub fn size_display(&self) -> (r: String)
        ensures
            r@ == size_text(self.is_dir, self.size as nat),
    {
        if self.is_dir {
            return String::from_str("—");
        }
        let size = self.size;
        if size == 0 {
            return String::from_str("0 B");
        }
        let mut s = String::new();
        if size < 1024 {
            push_decimal(&mut s, size);
            s.append(" B");
            return s;
        }
        let unit: u64 = if size < 1048576 {
            1024
        } else if size < 1073741824 {
            1048576
        } else {
            1073741824
        };
        let t = round_tenths(size, unit);
        push_decimal(&mut s, t / 10);
        s.append(".");
        push_decimal(&mut s, t % 10);
        if size < 1048576 {
            s.append(" KB");
        } else if size < 1073741824 {
            s.append(" MB");
        } else {
            s.append(" GB");
        }
        s
    }

    /// The type label: `Folder`, a label for a known extension, the
    /// extension in capitals followed by ` File`, or `Unknown`.
    pub fn kind_display(&self) -> (r: String)
        ensures
            r@ == self.kind(),
    {
        if self.is_dir {
            return String::from_str("Folder");
        }
        match extension(self.path.as_str()) {
            None => String::from_str("Unknown"),
            Some(ext) => {
                let e = ext.as_str();
                if same_text(e, "txt") {
                    String::from_str("Text")
                } else if same_text(e, "png") {
                    String::from_str("PNG Image")
                } else if same_text(e, "jpg") || same_text(e, "jpeg") {
                    String::from_str("JPEG Image")
                } else if same_text(e, "pdf") {
                    String::from_str("PDF")
                } else if same_text(e, "zip") {
                    String::from_str("ZIP Archive")
                } else if same_text(e, "tar") {
                    String::from_str("TAR Archive")
                } else if same_text(e, "gz") {
                    String::from_str("GZ Archive")
                } else if same_text(e, "rs") {
                    String::from_str("Rust Source")
                } else if same_text(e, "toml") {
                    String::from_str("TOML File")
                } else {
                    let mut s = uppercase(e);
                    s.append(" File");
                    s
                }
            },
        }
    }

    /// The modification time as `YYYY-MM-DD HH:MM`, in UTC.
    pub fn date_display(&self) -> (r: String)
        ensures
            r@ == date_text(self.modified as nat),
    {
        let (y, mo, d, h, mi) = secs_to_date(self.modified);
        let mut s = String::new();
        push_zero_padded(&mut s, y, 4);
        s.append("-");
        push_zero_padded(&mut s, mo, 2);
        s.append("-");
        push_zero_padded(&mut s, d, 2);
        s.append(" ");
        push_zero_padded(&mut s, h, 2);
        s.append(":");
        push_zero_padded(&mut s, mi, 2);
        s
    }

    /// The name of the themed icon for the entry.
    pub fn icon_name(&self) -> (r: &'static str)
        ensures
            r@ == icon_text(self.is_dir, extension_of(self.path@)),
    {
        if self.is_dir {
            return "folder-symbolic";
        }
        match extension(self.path.as_str()) {
            Some(ext) => {
                let e = ext.as_str();
                if same_text(e, "txt") {
                    "text-x-generic"
                } else if same_text(e, "png") || same_text(e, "jpg") || same_text(e, "jpeg") {
                    "image-x-generic"
                } else if same_text(e, "pdf") {
                    "application-pdf"
                } else if same_text(e, "zip") || same_text(e, "tar") || same_text(e, "gz") {
                    "package-x-generic"
                } else if same_text(e, "rs") || same_text(e, "py") || same_text(e, "js") {
                    "text-x-script"
                } else {
                    "application-x-generic"
                }
            },
            None => "application-x-generic",
        }
    }
}

/// What a listing of `children` (each a path and, where it could be read,
/// its metadata) holds: one record per child whose metadata was read and
/// whose path has a final component, in order.
pub open spec fn listed(children: Seq<(String, Option<EntryStat>)>) -> Seq<
    (Seq<char>, Seq<char>, EntryStat),
>
    decreases children.len(),
{
    if children.len() == 0 {
        Seq::empty()
    } else {
        let rest = listed(children.drop_last());
        let (path, stat) = children.last();
        match stat {
            Some(st) => match FileEntry::entry_for(path@, st) {
                Some(m) => rest.push(m),
                None => rest,
            },
            None => rest,
        }
    }
}

/// Each entry of `es` holds the record at its place in `ms`.
pub open spec fn entries_match(es: Seq<FileEntry>, ms: Seq<(Seq<char>, Seq<char>, EntryStat)>) -> bool {
    &&& es.len() == ms.len()
    &&& forall|i: int| 0 <= i < es.len() ==> #[trigger] es[i].matches(ms[i])
}

impl FileEntry {
    /// The entries of a directory whose children are `children`: a child
    /// whose metadata could not be read is left out, the others kept in
    /// order. An unreadable directory has no children and no entries.
    pub fn list_directory(children: Vec<(String, Option<EntryStat>)>) -> (r: Vec<FileEntry>)
        ensures
            entries_match(r@, listed(children@)),
    {
        let mut r: Vec<FileEntry> = Vec::new();
        let mut i: usize = 0;
        while i < children.len()
            invariant
                i <= children@.len(),
                entries_match(r@, listed(children@.subrange(0, i as int))),
            decreases children@.len() - i,
        {
            let ghost before = r@;
            assert(children@.subrange(0, i + 1).drop_last() =~= children@.subrange(0, i as int));
            match children[i].1 {
                Some(stat) => {
                    match FileEntry::from_path(children[i].0.clone(), stat) {
                        Some(e) => {
                            r.push(e);
                        },
                        None => {},
                    }
                },
                None => {},
            }
            i = i + 1;
            assert(entries_match(r@, listed(children@.subrange(0, i as int)))) by {
                assert forall|k: int| 0 <= k < before.len() implies r@[k] == before[k] by {}
            }
        }
        assert(children@.subrange(0, children@.len() as int) =~= children@);
        r
    }
}

/// `size / unit` in tenths, rounded to the nearest tenth, ties to even.
fn round_tenths(size: u64, unit: u64) -> (r: u64)
    requires
        unit == 1024 || unit == 1048576 || unit == 1073741824,
        size >= unit,
    ensures
        r == tenths(size as nat, unit as nat),
        r >= 10,
{
    let x: u128 = size as u128 * 10;
    let u: u128 = unit as u128;
    let q: u128 = x / u;
    let rem: u128 = x % u;
    assert(q >= 10) by (nonlinear_arith)
        requires
            x >= 10 * u,
            q == x / u,
            u > 0,
    ;
    assert(q <= x) by (nonlinear_arith)
        requires
            q == x / u,
            u > 0,
            x >= 0,
    ;
    assert(x < 0x10000000000000000u128 * 10);
    assert(q < 0xffffffffffffffffu128) by (nonlinear_arith)
        requires
            q == x / u,
            u >= 1024,
            x < 0x10000000000000000u128 * 10,
    ;
    let r: u128 = if 2 * rem > u || (2 * rem == u && q % 2 == 1) {
        q + 1
    } else {
        q
    };
    r as u64
}

} // verus!
