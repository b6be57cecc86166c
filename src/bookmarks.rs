//! Saved places of the side panel, and the text they are kept in: one
//! `file://{path} {name}` record per line.
use vstd::prelude::*;

use crate::paths::{file_name, file_name_of, path_eq, same_path};
use crate::text::chars_of;

verus! {

/// A saved place: a path and the name it is shown under.
#[derive(Debug)]
pub struct Bookmark {
    pub path: String,
    pub name: String,
}

/// The scheme that starts every record.
pub open spec fn file_scheme() -> Seq<char> {
    seq!['f', 'i', 'l', 'e', ':', '/', '/']
}

/// The name a path is shown under by default: its final component, or the
/// whole path where it has none.
pub open spec fn default_name(path: Seq<char>) -> Seq<char> {
    match file_name_of(path) {
        Some(n) => n,
        None => path,
    }
}

/// Splitting `s` at each `\n`: the lines that a `\n` ended, and the text
/// after the last `\n`.
pub open spec fn scan_lines(s: Seq<char>) -> (Seq<Seq<char>>, Seq<char>)
    decreases s.len(),
{
    if s.len() == 0 {
        (Seq::empty(), Seq::empty())
    } else {
        let (done, cur) = scan_lines(s.drop_last());
        if s.last() == '\n' {
            (done.push(cur), Seq::empty())
        } else {
            (done, cur.push(s.last()))
        }
    }
}

/// A line that ended in `\r\n` loses its `\r`.
pub open spec fn strip_cr(l: Seq<char>) -> Seq<char> {
    if l.len() > 0 && l.last() == '\r' {
        l.drop_last()
    } else {
        l
    }
}

/// The lines of `s`, as `str::lines` gives them, with a last empty one
/// where `s` ends in a line break.
pub open spec fn lines_of(s: Seq<char>) -> Seq<Seq<char>> {
    let (done, cur) = scan_lines(s);
    done.map_values(|l: Seq<char>| strip_cr(l)).push(cur)
}

/// Position of the first `c` in `s`; the length of `s` where there is none.
pub open spec fn find_char(s: Seq<char>, c: char) -> int
    decreases s.len(),
{
    if s.len() == 0 {
        0
    } else if s[0] == c {
        0
    } else {
        1 + find_char(s.drop_first(), c)
    }
}

/// The path and name that a line records: the text before the first space
/// is the location, which must start with `file://`; the text after that
/// space, where there is one, is the name, else the path's final component.
pub open spec fn parse_line(l: Seq<char>) -> Option<(Seq<char>, Seq<char>)> {
    let k = find_char(l, ' ');
    if l.len() == 0 || k < 7 || l.subrange(0, 7) != file_scheme() {
        None
    } else {
        let path = l.subrange(7, k);
        let name = if k < l.len() {
            l.subrange(k + 1, l.len() as int)
        } else {
            match file_name_of(path) {
                Some(n) => n,
                None => Seq::empty(),
            }
        };
        Some((path, name))
    }
}

/// The records of the lines `ls` that parse, in order.
pub open spec fn parse_all(ls: Seq<Seq<char>>) -> Seq<(Seq<char>, Seq<char>)>
    decreases ls.len(),
{
    if ls.len() == 0 {
        Seq::empty()
    } else {
        let rest = parse_all(ls.drop_last());
        match parse_line(ls.last()) {
            Some(b) => rest.push(b),
            None => rest,
        }
    }
}

/// The records that the text `s` holds; a line that is not a record is
/// skipped.
pub open spec fn parsed(s: Seq<char>) -> Seq<(Seq<char>, Seq<char>)> {
    parse_all(lines_of(s))
}

pub open spec fn bookmark_view(b: Bookmark) -> (Seq<char>, Seq<char>) {
    (b.path@, b.name@)
}

/// The record line of a bookmark.
pub open spec fn record_line(b: (Seq<char>, Seq<char>)) -> Seq<char> {
    file_scheme() + b.0 + seq![' '] + b.1
}

/// The lines `ls` joined with `\n` between them.
pub open spec fn join_lines(ls: Seq<Seq<char>>) -> Seq<char>
    decreases ls.len(),
{
    if ls.len() == 0 {
        Seq::empty()
    } else if ls.len() == 1 {
        ls[0]
    } else {
        join_lines(ls.drop_last()) + seq!['\n'] + ls.last()
    }
}

/// The text that keeps the bookmarks `bs`.
pub open spec fn saved_text(bs: Seq<(Seq<char>, Seq<char>)>) -> Seq<char> {
    join_lines(bs.map_values(|b: (Seq<char>, Seq<char>)| record_line(b)))
}

impl Bookmark {
    pub fn new(path: String, name: &str) -> (r: Self)
        ensures
            r.path == path,
            r.name@ == name@,
    {
        Bookmark { path, name: String::from_str(name) }
    }

    /// A bookmark named after the path's final component, or after the
    /// whole path where it has none.
    pub fn from_path(path: String) -> (r: Self)
        ensures
            r.path == path,
            r.name@ == default_name(path@),
    {
        let name = match file_name(path.as_str()) {
            Some(n) => n,
            None => path.clone(),
        };
        Bookmark { path, name }
    }
}

pub open spec fn views(bs: Seq<Bookmark>) -> Seq<(Seq<char>, Seq<char>)> {
    bs.map_values(|b: Bookmark| bookmark_view(b))
}

pub open spec fn stripped(ls: Seq<Seq<char>>) -> Seq<Seq<char>> {
    ls.map_values(|l: Seq<char>| strip_cr(l))
}

proof fn lemma_parse_all_push(ls: Seq<Seq<char>>, l: Seq<char>)
    ensures
        parse_all(ls.push(l)) == match parse_line(l) {
            Some(b) => parse_all(ls).push(b),
            None => parse_all(ls),
        },
{
    assert(ls.push(l).drop_last() =~= ls);
}

/// Appends the record of `cs[start..end]`, if the line is one, to `r`.
fn push_record(r: &mut Vec<Bookmark>, content: &str, cs: &Vec<char>, start: usize, end: usize)
    requires
        cs@ == content@,
        start <= end <= cs@.len(),
    ensures
        views(final(r)@) == match parse_line(cs@.subrange(start as int, end as int)) {
            Some(b) => views(old(r)@).push(b),
            None => views(old(r)@),
        },
{
    match parse_record(content, cs, start, end) {
        Some(b) => {
            r.push(b);
            assert(views(r@) =~= views(old(r)@).push(bookmark_view(b)));
        },
        None => {},
    }
}

proof fn lemma_find_char(s: Seq<char>, c: char, k: int)
    requires
        0 <= k <= s.len(),
        forall|j: int| 0 <= j < k ==> s[j] != c,
        k == s.len() || s[k] == c,
    ensures
        find_char(s, c) == k,
    decreases k,
{
    if k > 0 {
        lemma_find_char(s.drop_first(), c, k - 1);
    }
}

/// The record of the line `cs[start..end]` of `content`, if it is one.
fn parse_record(content: &str, cs: &Vec<char>, start: usize, end: usize) -> (r: Option<Bookmark>)
    requires
        cs@ == content@,
        start <= end <= cs@.len(),
    ensures
        match (r, parse_line(cs@.subrange(start as int, end as int))) {
            (Some(b), Some(m)) => bookmark_view(b) == m,
            (None, None) => true,
            _ => false,
        },
{
    let ghost l = cs@.subrange(start as int, end as int);
    let mut k: usize = start;
    while k < end && cs[k] != ' '
        invariant
            start <= k <= end,
            end <= cs@.len(),
            forall|j: int| start <= j < k ==> cs@[j] != ' ',
        decreases end - k,
    {
        k = k + 1;
    }
    proof {
        lemma_find_char(l, ' ', k - start);
    }
    if start == end || k - start < 7 {
        return None;
    }
    let scheme = ['f', 'i', 'l', 'e', ':', '/', '/'];
    let mut j: usize = 0;
    while j < 7
        invariant
            start + 7 <= k <= end,
            end <= cs@.len(),
            l == cs@.subrange(start as int, end as int),
            j <= 7,
            scheme@ == file_scheme(),
            forall|i: int| 0 <= i < j ==> cs@[start + i] == file_scheme()[i],
        decreases 7 - j,
    {
        if cs[start + j] != scheme[j] {
            assert(l.subrange(0, 7)[j as int] != file_scheme()[j as int]);
            return None;
        }
        j = j + 1;
    }
    assert(l.subrange(0, 7) =~= file_scheme());
    let path = String::from_str(content.substring_char(start + 7, k));
    assert(path@ =~= l.subrange(7, k - start));
    let name = if k < end {
        let n = String::from_str(content.substring_char(k + 1, end));
        assert(n@ =~= l.subrange(k - start + 1, l.len() as int));
        n
    } else {
        match file_name(path.as_str()) {
            Some(n) => n,
            None => String::new(),
        }
    };
    Some(Bookmark { path, name })
}

/// The bookmarks that the text `content` records, one per line, skipping
/// the lines that are not records.
pub fn parse_bookmarks(content: &str) -> (r: Vec<Bookmark>)
    ensures
        views(r@) == parsed(content@),
{
    let cs = chars_of(content);
    let n = cs.len();
    let mut r: Vec<Bookmark> = Vec::new();
    let mut start: usize = 0;
    let mut i: usize = 0;
    assert(views(r@) =~= parse_all(stripped(scan_lines(cs@.subrange(0, 0)).0)));
    while i < n
        invariant
            n == cs@.len(),
            cs@ == content@,
            start <= i <= n,
            scan_lines(cs@.subrange(0, i as int)).1 == cs@.subrange(start as int, i as int),
            views(r@) == parse_all(stripped(scan_lines(cs@.subrange(0, i as int)).0)),
        decreases n - i,
    {
        let ghost (done, cur) = scan_lines(cs@.subrange(0, i as int));
        assert(cs@.subrange(0, i + 1).drop_last() =~= cs@.subrange(0, i as int));
        if cs[i] == '\n' {
            let end = if i > start && cs[i - 1] == '\r' {
                i - 1
            } else {
                i
            };
            assert(cs@.subrange(start as int, end as int) =~= strip_cr(cur));
            push_record(&mut r, content, &cs, start, end);
            assert(stripped(done.push(cur)) =~= stripped(done).push(strip_cr(cur)));
            proof {
                lemma_parse_all_push(stripped(done), strip_cr(cur));
            }
            start = i + 1;
        } else {
            assert(cs@.subrange(start as int, i + 1) =~= cur.push(cs@[i as int]));
        }
        i = i + 1;
    }
    assert(cs@.subrange(0, n as int) =~= cs@);
    let ghost (done, cur) = scan_lines(cs@);
    push_record(&mut r, content, &cs, start, n);
    proof {
        lemma_parse_all_push(stripped(done), cur);
    }
    r
}

/// The text that keeps `bookmarks`: their record lines joined by `\n`.
pub fn format_bookmarks(bookmarks: &Vec<Bookmark>) -> (r: String)
    ensures
        r@ == saved_text(views(bookmarks@)),
{
    let ghost lines = views(bookmarks@).map_values(|b: (Seq<char>, Seq<char>)| record_line(b));
    let mut r = String::new();
    let mut i: usize = 0;
    while i < bookmarks.len()
        invariant
            i <= bookmarks@.len(),
            lines == views(bookmarks@).map_values(|b: (Seq<char>, Seq<char>)| record_line(b)),
            r@ == join_lines(lines.subrange(0, i as int)),
        decreases bookmarks@.len() - i,
    {
        proof {
            reveal_strlit("\n");
            reveal_strlit("file://");
            reveal_strlit(" ");
        }
        let ghost before = r@;
        if i > 0 {
            r.append("\n");
        }
        let b = &bookmarks[i];
        r.append("file://");
        r.append(b.path.as_str());
        r.append(" ");
        r.append(b.name.as_str());
        assert(lines.subrange(0, i + 1).drop_last() =~= lines.subrange(0, i as int));
        if i > 0 {
            assert(r@ =~= before + seq!['\n'] + lines[i as int]);
        } else {
            assert(r@ =~= lines[0]);
        }
        i = i + 1;
    }
    assert(lines.subrange(0, bookmarks@.len() as int) =~= lines);
    r
}

/// Whether some bookmark of `bs` is for `path`, as paths compare.
pub open spec fn has_path(bs: Seq<(Seq<char>, Seq<char>)>, path: Seq<char>) -> bool {
    exists|i: int| 0 <= i < bs.len() && path_eq(bs[i].0, path)
}

/// The bookmarks of the side panel.
pub struct OwlSidePanel {
    bookmarks: Vec<Bookmark>,
}

impl View for OwlSidePanel {
    type V = Seq<(Seq<char>, Seq<char>)>;

    closed spec fn view(&self) -> Seq<(Seq<char>, Seq<char>)> {
        views(self.bookmarks@)
    }
}

impl OwlSidePanel {
    /// A panel whose bookmarks are the home directory followed by the
    /// records of the saved text `saved`.
    pub fn new(home: String, saved: &str) -> (r: Self)
        ensures
            r@ == seq![(home@, default_name(home@))] + parsed(saved@),
    {
        let mut r = OwlSidePanel { bookmarks: Vec::new() };
        r.reload_bookmarks(home, saved);
        r
    }

    /// Starts over from the home directory followed by the records of the
    /// saved text `saved`.
    pub fn reload_bookmarks(&mut self, home: String, saved: &str)
        ensures
            final(self)@ == seq![(home@, default_name(home@))] + parsed(saved@),
    {
        let mut bookmarks = Vec::new();
        bookmarks.push(Bookmark::from_path(home));
        let mut more = parse_bookmarks(saved);
        bookmarks.append(&mut more);
        self.bookmarks = bookmarks;
        assert(self@ =~= seq![(home@, default_name(home@))] + parsed(saved@));
    }

    /// Adds a bookmark for `path`, named by default, unless one is there
    /// for it already. Returns whether it was added.
    pub fn add_bookmark(&mut self, path: String) -> (added: bool)
        ensures
            added == !has_path(old(self)@, path@),
            added ==> final(self)@ == old(self)@.push((path@, default_name(path@))),
            !added ==> final(self)@ == old(self)@,
    {
        let mut i: usize = 0;
        while i < self.bookmarks.len()
            invariant
                i <= self.bookmarks@.len(),
                forall|j: int| 0 <= j < i ==> !path_eq(self.bookmarks@[j].path@, path@),
            decreases self.bookmarks@.len() - i,
        {
            if same_path(self.bookmarks[i].path.as_str(), path.as_str()) {
                assert(path_eq(views(self.bookmarks@)[i as int].0, path@));
                return false;
            }
            i = i + 1;
        }
        let ghost before = self.bookmarks@;
        self.bookmarks.push(Bookmark::from_path(path));
        assert(views(self.bookmarks@) =~= views(before).push((path@, default_name(path@))));
        true
    }

    /// Drops every bookmark for `path`, as paths compare.
    pub fn remove_bookmark(&mut self, path: &str)
        ensures
            final(self)@ == old(self)@.filter(|b: (Seq<char>, Seq<char>)| !path_eq(b.0, path@)),
    {
        let mut kept: Vec<Bookmark> = Vec::new();
        let ghost all = views(self.bookmarks@);
        let mut i: usize = 0;
        while i < self.bookmarks.len()
            invariant
                i <= self.bookmarks@.len(),
                all == views(self.bookmarks@),
                views(kept@) == all.subrange(0, i as int).filter(
                    |b: (Seq<char>, Seq<char>)| !path_eq(b.0, path@),
                ),
            decreases self.bookmarks@.len() - i,
        {
            let b = &self.bookmarks[i];
            let ghost before = kept@;
            proof {
                reveal(Seq::filter);
            }
            assert(all.subrange(0, i + 1).drop_last() =~= all.subrange(0, i as int));
            if !same_path(b.path.as_str(), path) {
                kept.push(Bookmark { path: b.path.clone(), name: b.name.clone() });
                assert(views(kept@) =~= views(before).push(bookmark_view(self.bookmarks@[i as int])));
            }
            i = i + 1;
        }
        assert(all.subrange(0, self.bookmarks@.len() as int) =~= all);
        self.bookmarks = kept;
    }

    /// The text to save: every bookmark as a record line.
    pub fn saved_text(&self) -> (r: String)
        ensures
            r@ == saved_text(self@),
    {
        format_bookmarks(&self.bookmarks)
    }

    pub fn bookmarks(&self) -> (r: &Vec<Bookmark>)
        ensures
            views(r@) == self@,
    {
        &self.bookmarks
    }
}

proof fn lemma_scan_no_break(a: Seq<char>, b: Seq<char>)
    requires
        !b.contains('\n'),
    ensures
        scan_lines(a + b) == (scan_lines(a).0, scan_lines(a).1 + b),
    decreases b.len(),
{
    if b.len() == 0 {
        assert(a + b =~= a);
        assert(scan_lines(a).1 + b =~= scan_lines(a).1);
    } else {
        assert(!b.drop_last().contains('\n')) by {
            if b.drop_last().contains('\n') {
                let j = choose|j: int| 0 <= j < b.drop_last().len() && b.drop_last()[j] == '\n';
                assert(b[j] == '\n');
            }
        }
        lemma_scan_no_break(a, b.drop_last());
        assert((a + b).drop_last() =~= a + b.drop_last());
        assert(b.last() != '\n') by {
            assert(b[b.len() - 1] == b.last());
        }
        assert(scan_lines(a).1 + b =~= (scan_lines(a).1 + b.drop_last()).push(b.last()));
    }
}

proof fn lemma_scan_join(ls: Seq<Seq<char>>)
    requires
        ls.len() > 0,
        forall|i: int| 0 <= i < ls.len() ==> !(#[trigger] ls[i]).contains('\n'),
    ensures
        scan_lines(join_lines(ls)) == (ls.drop_last(), ls.last()),
    decreases ls.len(),
{
    if ls.len() == 1 {
        lemma_scan_no_break(Seq::empty(), ls[0]);
        assert(Seq::<char>::empty() + ls[0] =~= ls[0]);
        assert(ls.drop_last() =~= Seq::empty());
        assert(Seq::<char>::empty() + ls[0] =~= ls[0]);
    } else {
        let init = ls.drop_last();
        lemma_scan_join(init);
        let head = join_lines(init) + seq!['\n'];
        assert(head.drop_last() =~= join_lines(init));
        lemma_scan_no_break(head, ls.last());
        assert(init.drop_last().push(init.last()) =~= init);
        assert(Seq::<char>::empty() + ls.last() =~= ls.last());
    }
}

proof fn lemma_parse_record_line(b: (Seq<char>, Seq<char>))
    requires
        !b.0.contains(' '),
    ensures
        parse_line(record_line(b)) == Some(b),
{
    let l = record_line(b);
    let k: int = 7 + b.0.len() as int;
    assert(l[k] == ' ');
    assert forall|j: int| 0 <= j < k implies l[j] != ' ' by {
        if j >= 7 {
            assert(l[j] == b.0[j - 7]);
        }
    }
    lemma_find_char(l, ' ', k);
    assert(l.subrange(0, 7) =~= file_scheme());
    assert(l.subrange(7, k) =~= b.0);
    assert(l.subrange(k + 1, l.len() as int) =~= b.1);
}

proof fn lemma_parse_records(bs: Seq<(Seq<char>, Seq<char>)>)
    requires
        forall|i: int| 0 <= i < bs.len() ==> !(#[trigger] bs[i]).0.contains(' '),
    ensures
        parse_all(bs.map_values(|b: (Seq<char>, Seq<char>)| record_line(b))) == bs,
    decreases bs.len(),
{
    if bs.len() > 0 {
        let ls = bs.map_values(|b: (Seq<char>, Seq<char>)| record_line(b));
        lemma_parse_records(bs.drop_last());
        assert(ls.drop_last() =~= bs.drop_last().map_values(
            |b: (Seq<char>, Seq<char>)| record_line(b),
        ));
        lemma_parse_record_line(bs.last());
        assert(bs.drop_last().push(bs.last()) =~= bs);
    }
}

/// Saving bookmarks and reading the saved text back gives the same
/// bookmarks, in order, where no path holds a space or a line break and no
/// name holds a line break or ends in a carriage return.
pub proof fn lemma_saved_text_round_trip(bs: Seq<(Seq<char>, Seq<char>)>)
    requires
        forall|i: int|
            0 <= i < bs.len() ==> {
                let (path, name) = #[trigger] bs[i];
                &&& !path.contains(' ')
                &&& !path.contains('\n')
                &&& !name.contains('\n')
                &&& !(name.len() > 0 && name.last() == '\r')
            },
    ensures
        parsed(saved_text(bs)) == bs,
{
    let ls = bs.map_values(|b: (Seq<char>, Seq<char>)| record_line(b));
    lemma_parse_records(bs);
    if bs.len() == 0 {
        assert(lines_of(saved_text(bs)) =~= seq![Seq::<char>::empty()]);
        assert(parse_all(seq![Seq::<char>::empty()]) == parse_all(Seq::<Seq<char>>::empty())) by {
            assert(seq![Seq::<char>::empty()].drop_last() =~= Seq::<Seq<char>>::empty());
        }
    } else {
        assert forall|i: int| 0 <= i < ls.len() implies !(#[trigger] ls[i]).contains('\n') by {
            let (path, name) = bs[i];
            if ls[i].contains('\n') {
                let j = choose|j: int| 0 <= j < ls[i].len() && ls[i][j] == '\n';
                if 7 <= j < 7 + path.len() {
                    assert(path[j - 7] == '\n');
                } else if j > 7 + path.len() {
                    assert(name[j - 8 - path.len()] == '\n');
                }
            }
        }
        lemma_scan_join(ls);
        assert forall|i: int| 0 <= i < ls.len() implies strip_cr(#[trigger] ls[i]) == ls[i] by {
            let (path, name) = bs[i];
            let l = ls[i];
            if name.len() > 0 {
                assert(l.last() == name.last());
            } else {
                assert(l.last() == ' ');
            }
        }
        assert(lines_of(saved_text(bs)) =~= ls);
    }
}

} // verus!
