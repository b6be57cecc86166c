//! The sort/filter pipeline: hides dot-files unless asked, puts directories
//! before files, and orders each group by the chosen field.
use vstd::prelude::*;

use crate::entry::FileEntry;
use crate::order::{compare_text, lemma_seq_cmp_antisymmetric, lemma_seq_cmp_transitive, seq_cmp};
use crate::paths::{lower_of, lowercase};
use crate::types::{SortBy, SortOrder};
use vstd::set_lib::lemma_map_size;

verus! {

/// A dot-file: its name starts with `.`.
pub open spec fn is_hidden(e: FileEntry) -> bool {
    e.name@.len() > 0 && e.name@[0] == '.'
}

/// The entries of `s` that are shown, in their order: all of them when
/// `show_hidden` holds, else those that are not dot-files.
pub open spec fn visible(s: Seq<FileEntry>, show_hidden: bool) -> Seq<FileEntry>
    decreases s.len(),
{
    if s.len() == 0 {
        s
    } else {
        let rest = visible(s.drop_last(), show_hidden);
        if show_hidden || !is_hidden(s.last()) {
            rest.push(s.last())
        } else {
            rest
        }
    }
}

/// Three-way comparison of two numbers: -1, 0 or 1.
pub open spec fn num_cmp(a: u64, b: u64) -> int {
    if a < b {
        -1
    } else if a > b {
        1
    } else {
        0
    }
}

/// The text an entry is ordered by: its lowercased name, or its type label.
pub open spec fn text_key(e: FileEntry, by: SortBy) -> Seq<char> {
    match by {
        SortBy::Name => lower_of(e.name@),
        SortBy::Type => e.kind(),
        _ => Seq::empty(),
    }
}

/// Comparison of two entries by the field `by` alone.
pub open spec fn key_cmp(a: FileEntry, b: FileEntry, by: SortBy) -> int {
    match by {
        SortBy::Size => num_cmp(a.size, b.size),
        SortBy::Date => num_cmp(a.modified, b.modified),
        _ => seq_cmp(text_key(a, by), text_key(b, by)),
    }
}

/// The listing's comparison: a directory comes before a file; two of the
/// same kind compare by `by`, reversed when the order is descending.
pub open spec fn entry_cmp(a: FileEntry, b: FileEntry, by: SortBy, order: SortOrder) -> int {
    if a.is_dir && !b.is_dir {
        -1
    } else if !a.is_dir && b.is_dir {
        1
    } else {
        match order {
            SortOrder::Ascending => key_cmp(a, b, by),
            SortOrder::Descending => key_cmp(b, a, by),
        }
    }
}

/// `v` stands somewhere in `p`.
pub open spec fn occurs_in(p: Seq<int>, v: int) -> bool {
    exists|i: int| 0 <= i < p.len() && p[i] == v
}

/// `p` lists each of `0..n` exactly once.
pub open spec fn is_arrangement(p: Seq<int>, n: nat) -> bool {
    &&& p.len() == n
    &&& forall|i: int| 0 <= i < n ==> 0 <= #[trigger] p[i] < n
    &&& forall|i: int, j: int| 0 <= i < j < n ==> p[i] != p[j]
    &&& forall|v: int| 0 <= v < n ==> #[trigger] occurs_in(p, v)
}

/// `r` is `s` rearranged by `p` (`r[i]` is `s[p[i]]`), in the listing's
/// order, with entries that compare equal kept in their order in `s`.
pub open spec fn sorted_by(
    r: Seq<FileEntry>,
    s: Seq<FileEntry>,
    p: Seq<int>,
    by: SortBy,
    order: SortOrder,
) -> bool {
    &&& is_arrangement(p, s.len())
    &&& r.len() == s.len()
    &&& forall|i: int| 0 <= i < r.len() ==> r[i] == s[#[trigger] p[i]]
    &&& forall|i: int, j: int|
        0 <= i < j < r.len() ==> entry_cmp(r[i], r[j], by, order) <= 0
    &&& forall|i: int, j: int|
        0 <= i < j < r.len() && entry_cmp(r[i], r[j], by, order) == 0 ==> p[i] < p[j]
}

/// `r` is the stable sort of `s` in the listing's order.
pub open spec fn is_stable_sort(r: Seq<FileEntry>, s: Seq<FileEntry>, by: SortBy, order: SortOrder) -> bool {
    exists|p: Seq<int>| sorted_by(r, s, p, by, order)
}

/// Every directory of `r` stands before every file of `r`.
pub open spec fn directories_first(r: Seq<FileEntry>) -> bool {
    forall|i: int, j: int| 0 <= i < j < r.len() ==> r[i].is_dir || !r[j].is_dir
}

pub proof fn lemma_entry_cmp_antisymmetric(a: FileEntry, b: FileEntry, by: SortBy, order: SortOrder)
    ensures
        entry_cmp(a, b, by, order) == -entry_cmp(b, a, by, order),
{
    lemma_seq_cmp_antisymmetric(text_key(a, by), text_key(b, by));
}

pub proof fn lemma_entry_cmp_transitive(
    a: FileEntry,
    b: FileEntry,
    c: FileEntry,
    by: SortBy,
    order: SortOrder,
)
    requires
        entry_cmp(a, b, by, order) <= 0,
        entry_cmp(b, c, by, order) <= 0,
    ensures
        entry_cmp(a, c, by, order) <= 0,
        entry_cmp(a, b, by, order) < 0 || entry_cmp(b, c, by, order) < 0 ==> entry_cmp(
            a,
            c,
            by,
            order,
        ) < 0,
{
    let (ka, kb, kc) = (text_key(a, by), text_key(b, by), text_key(c, by));
    if a.is_dir == b.is_dir && b.is_dir == c.is_dir {
        match order {
            SortOrder::Ascending => {
                if seq_cmp(ka, kb) <= 0 && seq_cmp(kb, kc) <= 0 {
                    lemma_seq_cmp_transitive(ka, kb, kc);
                }
            },
            SortOrder::Descending => {
                if seq_cmp(kc, kb) <= 0 && seq_cmp(kb, ka) <= 0 {
                    lemma_seq_cmp_transitive(kc, kb, ka);
                }
            },
        }
    }
}


proof fn lemma_visible_step(s: Seq<FileEntry>, i: int, show_hidden: bool)
    requires
        0 <= i < s.len(),
    ensures
        visible(s.subrange(0, i + 1), show_hidden) == if show_hidden || !is_hidden(s[i]) {
            visible(s.subrange(0, i), show_hidden).push(s[i])
        } else {
            visible(s.subrange(0, i), show_hidden)
        },
{
    assert(s.subrange(0, i + 1).drop_last() =~= s.subrange(0, i));
}

proof fn lemma_visible_shown(s: Seq<FileEntry>)
    ensures
        visible(s, true) == s,
    decreases s.len(),
{
    if s.len() > 0 {
        lemma_visible_shown(s.drop_last());
        assert(s.drop_last().push(s.last()) =~= s);
    }
}

proof fn lemma_visible_no_dot_file(s: Seq<FileEntry>)
    ensures
        forall|k: int| 0 <= k < visible(s, false).len() ==> !is_hidden(#[trigger] visible(s, false)[k]),
    decreases s.len(),
{
    if s.len() > 0 {
        let rest = visible(s.drop_last(), false);
        lemma_visible_no_dot_file(s.drop_last());
        assert forall|k: int| 0 <= k < visible(s, false).len() implies !is_hidden(
            #[trigger] visible(s, false)[k],
        ) by {
            if k < rest.len() {
                assert(visible(s, false)[k] == rest[k]);
            }
        }
    }
}

/// The entries that are shown, in their order: every entry when
/// `show_hidden` holds, else those whose name does not start with `.`.
pub fn filter_entries(entries: &Vec<FileEntry>, show_hidden: bool) -> (r: Vec<FileEntry>)
    ensures
        r@ == visible(entries@, show_hidden),
        !show_hidden ==> forall|k: int| 0 <= k < r@.len() ==> !is_hidden(#[trigger] r@[k]),
        show_hidden ==> r@ == entries@,
{
    let mut r: Vec<FileEntry> = Vec::new();
    let mut i: usize = 0;
    while i < entries.len()
        invariant
            i <= entries@.len(),
            r@ == visible(entries@.subrange(0, i as int), show_hidden),
        decreases entries@.len() - i,
    {
        let e = &entries[i];
        let name = e.name.as_str();
        let hidden = name.unicode_len() > 0 && name.get_char(0) == '.';
        proof {
            lemma_visible_step(entries@, i as int, show_hidden);
        }
        if show_hidden || !hidden {
            r.push(e.copy());
        }
        i = i + 1;
    }
    proof {
        assert(entries@.subrange(0, entries@.len() as int) =~= entries@);
        lemma_visible_shown(entries@);
        lemma_visible_no_dot_file(entries@);
    }
    r
}

/// The text `e` is ordered by under `by`.
fn sort_key(e: &FileEntry, by: SortBy) -> (r: String)
    ensures
        r@ == text_key(*e, by),
{
    match by {
        SortBy::Name => lowercase(e.name.as_str()),
        SortBy::Type => e.kind_display(),
        _ => String::new(),
    }
}

/// The listing's comparison of `a` and `b`, given their sort keys.
fn compare_entries(
    a: &FileEntry,
    ka: &String,
    b: &FileEntry,
    kb: &String,
    by: SortBy,
    order: SortOrder,
) -> (r: i8)
    requires
        ka@ == text_key(*a, by),
        kb@ == text_key(*b, by),
    ensures
        r as int == entry_cmp(*a, *b, by, order),
{
    if a.is_dir && !b.is_dir {
        return -1;
    }
    if !a.is_dir && b.is_dir {
        return 1;
    }
    let (x, y, kx, ky) = match order {
        SortOrder::Ascending => (a, b, ka, kb),
        SortOrder::Descending => (b, a, kb, ka),
    };
    match by {
        SortBy::Size => if x.size < y.size {
            -1
        } else if x.size > y.size {
            1
        } else {
            0
        },
        SortBy::Date => if x.modified < y.modified {
            -1
        } else if x.modified > y.modified {
            1
        } else {
            0
        },
        _ => compare_text(kx.as_str(), ky.as_str()),
    }
}


/// Position `x` of `es` may stand before position `y`: it compares lower,
/// or equal and earlier.
pub open spec fn in_order(es: Seq<FileEntry>, x: usize, y: usize, by: SortBy, order: SortOrder) -> bool {
    &&& entry_cmp(es[x as int], es[y as int], by, order) <= 0
    &&& entry_cmp(es[x as int], es[y as int], by, order) == 0 ==> x < y
}

/// The positions `p` into `es` are listed in the listing's order.
pub open spec fn ordered(es: Seq<FileEntry>, p: Seq<usize>, by: SortBy, order: SortOrder) -> bool {
    forall|a: int, b: int| 0 <= a < b < p.len() ==> #[trigger] in_order(es, p[a], p[b], by, order)
}

/// Inserting position `i` before the first listed position whose entry it
/// compares below keeps the list in order.
proof fn lemma_insert_ordered(
    es: Seq<FileEntry>,
    p: Seq<usize>,
    i: usize,
    q: int,
    by: SortBy,
    order: SortOrder,
)
    requires
        ordered(es, p, by, order),
        0 <= q <= p.len(),
        i < es.len(),
        forall|a: int| 0 <= a < p.len() ==> #[trigger] p[a] < i,
        forall|a: int|
            0 <= a < q ==> entry_cmp(es[i as int], es[#[trigger] p[a] as int], by, order) >= 0,
        q < p.len() ==> entry_cmp(es[i as int], es[p[q] as int], by, order) < 0,
    ensures
        ordered(es, p.insert(q, i), by, order),
{
    p.insert_ensures(q, i);
    let np = p.insert(q, i);
    assert forall|a: int, b: int| 0 <= a < b < np.len() implies #[trigger] in_order(
        es,
        np[a],
        np[b],
        by,
        order,
    ) by {
        if b < q {
            assert(in_order(es, p[a], p[b], by, order));
        } else if b == q {
            lemma_entry_cmp_antisymmetric(es[i as int], es[p[a] as int], by, order);
        } else if a == q {
            if b - 1 > q {
                assert(in_order(es, p[q], p[b - 1], by, order));
                lemma_entry_cmp_transitive(
                    es[i as int],
                    es[p[q] as int],
                    es[p[b - 1] as int],
                    by,
                    order,
                );
            }
        } else if a < q {
            assert(in_order(es, p[a], p[b - 1], by, order));
        } else {
            assert(in_order(es, p[a - 1], p[b - 1], by, order));
        }
    }
}

/// Positions listed in order give a sorted rearrangement.
proof fn lemma_ordered_sorted(
    r: Seq<FileEntry>,
    es: Seq<FileEntry>,
    p: Seq<usize>,
    pos: Seq<int>,
    by: SortBy,
    order: SortOrder,
)
    requires
        ordered(es, p, by, order),
        p.len() == es.len(),
        r.len() == es.len(),
        pos.len() == es.len(),
        forall|a: int| 0 <= a < p.len() ==> #[trigger] p[a] < es.len(),
        forall|a: int, b: int| 0 <= a < b < p.len() ==> p[a] != p[b],
        forall|v: int| 0 <= v < es.len() ==> 0 <= #[trigger] pos[v] < es.len() && p[pos[v]] == v,
        forall|a: int| 0 <= a < r.len() ==> #[trigger] r[a] == es[p[a] as int],
    ensures
        sorted_by(r, es, p.map_values(|v: usize| v as int), by, order),
{
    let pm = p.map_values(|v: usize| v as int);
    assert forall|v: int| 0 <= v < es.len() implies #[trigger] occurs_in(pm, v) by {
        assert(pm[pos[v]] == v);
    }
    assert forall|i: int, j: int| 0 <= i < j < r.len() implies entry_cmp(r[i], r[j], by, order) <= 0
        && (entry_cmp(r[i], r[j], by, order) == 0 ==> pm[i] < pm[j]) by {
        assert(in_order(es, p[i], p[j], by, order));
    }
}

/// A sorted listing has its directories before its files.
pub proof fn lemma_sorted_directories_first(
    r: Seq<FileEntry>,
    s: Seq<FileEntry>,
    by: SortBy,
    order: SortOrder,
)
    requires
        is_stable_sort(r, s, by, order),
    ensures
        directories_first(r),
{
    let p = choose|p: Seq<int>| sorted_by(r, s, p, by, order);
    assert forall|i: int, j: int| 0 <= i < j < r.len() implies r[i].is_dir || !r[j].is_dir by {
        assert(entry_cmp(r[i], r[j], by, order) <= 0);
    }
}

/// The entries in the listing's order: directories first, each group by
/// `by` (names compared case-insensitively), reversed within each group
/// when `order` is descending; entries that compare equal keep their order.
pub fn sort_entries(entries: &Vec<FileEntry>, by: SortBy, order: SortOrder) -> (r: Vec<FileEntry>)
    ensures
        is_stable_sort(r@, entries@, by, order),
        directories_first(r@),
{
    let n = entries.len();
    let mut keys: Vec<String> = Vec::new();
    let mut k: usize = 0;
    while k < n
        invariant
            n == entries@.len(),
            k <= n,
            keys@.len() == k,
            forall|j: int| 0 <= j < k ==> (#[trigger] keys@[j])@ == text_key(entries@[j], by),
        decreases n - k,
    {
        keys.push(sort_key(&entries[k], by));
        k = k + 1;
    }

    let mut perm: Vec<usize> = Vec::new();
    let ghost mut pos: Seq<int> = Seq::empty();
    let mut i: usize = 0;
    while i < n
        invariant
            n == entries@.len(),
            keys@.len() == n,
            forall|j: int| 0 <= j < n ==> (#[trigger] keys@[j])@ == text_key(entries@[j], by),
            i <= n,
            perm@.len() == i,
            forall|a: int| 0 <= a < i ==> #[trigger] perm@[a] < i,
            forall|a: int, b: int| 0 <= a < b < i ==> perm@[a] != perm@[b],
            pos.len() == i,
            forall|v: int| 0 <= v < i ==> 0 <= #[trigger] pos[v] < i && perm@[pos[v]] == v,
            ordered(entries@, perm@, by, order),
        decreases n - i,
    {
        let mut q: usize = 0;
        let mut found = false;
        while q < i && !found
            invariant
                n == entries@.len(),
                keys@.len() == n,
                forall|j: int| 0 <= j < n ==> (#[trigger] keys@[j])@ == text_key(entries@[j], by),
                i < n,
                q <= i,
                perm@.len() == i,
                forall|a: int| 0 <= a < i ==> #[trigger] perm@[a] < i,
                forall|a: int|
                    0 <= a < q ==> entry_cmp(
                        entries@[i as int],
                        entries@[#[trigger] perm@[a] as int],
                        by,
                        order,
                    ) >= 0,
                found ==> q < i && entry_cmp(
                    entries@[i as int],
                    entries@[perm@[q as int] as int],
                    by,
                    order,
                ) < 0,
            decreases i - q + if found { 0int } else { 1int },
        {
            let j = perm[q];
            let c = compare_entries(&entries[i], &keys[i], &entries[j], &keys[j], by, order);
            if c < 0 {
                found = true;
            } else {
                q = q + 1;
            }
        }
        proof {
            lemma_insert_ordered(entries@, perm@, i, q as int, by, order);
            perm@.insert_ensures(q as int, i);
        }
        let ghost old_perm = perm@;
        let ghost old_pos = pos;
        perm.insert(q, i);
        proof {
            pos = Seq::new(
                (i + 1) as nat,
                |v: int|
                    if v == i {
                        q as int
                    } else if pos[v] >= q {
                        pos[v] + 1
                    } else {
                        pos[v]
                    },
            );
            assert forall|a: int, b: int| 0 <= a < b < i + 1 implies perm@[a] != perm@[b] by {
                if a < q && b < q {
                } else if a < q && b > q {
                    assert(old_perm[a] != old_perm[b - 1]);
                } else if a > q {
                    assert(old_perm[a - 1] != old_perm[b - 1]);
                }
            }
            assert forall|a: int| 0 <= a < i + 1 implies #[trigger] perm@[a] < i + 1 by {
                if a < q {
                    assert(old_perm[a] < i);
                } else if a > q {
                    assert(old_perm[a - 1] < i);
                }
            }
            assert forall|v: int| 0 <= v < i + 1 implies 0 <= #[trigger] pos[v] < i + 1
                && perm@[pos[v]] == v by {
                if v < i {
                    assert(old_perm[old_pos[v]] == v);
                }
            }
        }
        i = i + 1;
    }

    let mut r: Vec<FileEntry> = Vec::new();
    let mut k: usize = 0;
    while k < n
        invariant
            n == entries@.len(),
            perm@.len() == n,
            forall|a: int| 0 <= a < n ==> #[trigger] perm@[a] < n,
            k <= n,
            r@.len() == k,
            forall|a: int| 0 <= a < k ==> #[trigger] r@[a] == entries@[perm@[a] as int],
        decreases n - k,
    {
        r.push(entries[perm[k]].copy());
        k = k + 1;
    }
    proof {
        lemma_ordered_sorted(r@, entries@, perm@, pos, by, order);
        lemma_sorted_directories_first(r@, entries@, by, order);
    }
    r
}


/// Sorting by the same field in the two orders: any two entries of the same
/// kind (both directories or both files) whose keys differ stand in one
/// order in the ascending listing and in the other in the descending one,
/// and in both listings every directory stays before every file.
pub proof fn lemma_flipped_order_reverses(
    s: Seq<FileEntry>,
    asc: Seq<FileEntry>,
    desc: Seq<FileEntry>,
    by: SortBy,
)
    requires
        is_stable_sort(asc, s, by, SortOrder::Ascending),
        is_stable_sort(desc, s, by, SortOrder::Descending),
    ensures
        forall|i: int, j: int|
            0 <= i < j < asc.len() && asc[i].is_dir == asc[j].is_dir && key_cmp(asc[i], asc[j], by)
                != 0 ==> exists|l: int, k: int|
                0 <= l < k < desc.len() && desc[l] == asc[j] && desc[k] == asc[i],
        directories_first(asc),
        directories_first(desc),
{
    lemma_sorted_directories_first(asc, s, by, SortOrder::Ascending);
    lemma_sorted_directories_first(desc, s, by, SortOrder::Descending);
    let p = choose|p: Seq<int>| sorted_by(asc, s, p, by, SortOrder::Ascending);
    let d = choose|d: Seq<int>| sorted_by(desc, s, d, by, SortOrder::Descending);
    assert forall|i: int, j: int|
        0 <= i < j < asc.len() && asc[i].is_dir == asc[j].is_dir && key_cmp(asc[i], asc[j], by)
            != 0 implies exists|l: int, k: int|
        0 <= l < k < desc.len() && desc[l] == asc[j] && desc[k] == asc[i] by {
        let (x, y) = (asc[i], asc[j]);
        assert(entry_cmp(x, y, by, SortOrder::Ascending) <= 0);
        lemma_entry_cmp_antisymmetric(x, y, by, SortOrder::Ascending);
        assert(p[i] != p[j]);
        assert(occurs_in(d, p[i]));
        assert(occurs_in(d, p[j]));
        let k = choose|k: int| 0 <= k < d.len() && d[k] == p[i];
        let l = choose|l: int| 0 <= l < d.len() && d[l] == p[j];
        assert(desc[k] == x);
        assert(desc[l] == y);
        if k < l {
            assert(entry_cmp(desc[k], desc[l], by, SortOrder::Descending) <= 0);
        }
        assert(l < k);
    }
}


/// The view of a listing: the shown entries (see `filter_entries`) in the
/// listing's order (see `sort_entries`).
pub fn arrange_entries(
    entries: &Vec<FileEntry>,
    show_hidden: bool,
    by: SortBy,
    order: SortOrder,
) -> (r: Vec<FileEntry>)
    ensures
        is_stable_sort(r@, visible(entries@, show_hidden), by, order),
        directories_first(r@),
{
    let shown = filter_entries(entries, show_hidden);
    sort_entries(&shown, by, order)
}


/// Two sorted rearrangements of `s` that agree before position `i` also
/// agree at `i`.
proof fn lemma_arrangements_agree_at(
    r1: Seq<FileEntry>,
    r2: Seq<FileEntry>,
    s: Seq<FileEntry>,
    p: Seq<int>,
    q: Seq<int>,
    by: SortBy,
    order: SortOrder,
    i: int,
)
    requires
        sorted_by(r1, s, p, by, order),
        sorted_by(r2, s, q, by, order),
        0 <= i < s.len(),
        forall|j: int| 0 <= j < i ==> p[j] == q[j],
    ensures
        p[i] == q[i],
{
    let (a, b) = (p[i], q[i]);
    if a != b {
        assert(occurs_in(q, a));
        assert(occurs_in(p, b));
        let j = choose|j: int| 0 <= j < q.len() && q[j] == a;
        let k = choose|k: int| 0 <= k < p.len() && p[k] == b;
        if j < i {
            assert(p[j] == a);
        }
        if k < i {
            assert(q[k] == b);
        }
        assert(j > i && k > i);
        assert(r1[i] == s[a] && r1[k] == s[b]);
        assert(r2[i] == s[b] && r2[j] == s[a]);
        assert(entry_cmp(s[a], s[b], by, order) <= 0);
        assert(entry_cmp(s[b], s[a], by, order) <= 0);
        lemma_entry_cmp_antisymmetric(s[a], s[b], by, order);
        assert(a < b);
        assert(b < a);
    }
}

proof fn lemma_arrangements_agree_up_to(
    r1: Seq<FileEntry>,
    r2: Seq<FileEntry>,
    s: Seq<FileEntry>,
    p: Seq<int>,
    q: Seq<int>,
    by: SortBy,
    order: SortOrder,
    n: int,
)
    requires
        sorted_by(r1, s, p, by, order),
        sorted_by(r2, s, q, by, order),
        0 <= n <= s.len(),
    ensures
        forall|j: int| 0 <= j < n ==> p[j] == q[j],
    decreases n,
{
    if n > 0 {
        lemma_arrangements_agree_up_to(r1, r2, s, p, q, by, order, n - 1);
        lemma_arrangements_agree_at(r1, r2, s, p, q, by, order, n - 1);
    }
}

/// The listing's order leaves no choice: two stable sorts of the same
/// entries with the same settings are equal, so sorting an unchanged
/// listing again gives the same view every time.
pub proof fn lemma_stable_sort_unique(
    r1: Seq<FileEntry>,
    r2: Seq<FileEntry>,
    s: Seq<FileEntry>,
    by: SortBy,
    order: SortOrder,
)
    requires
        is_stable_sort(r1, s, by, order),
        is_stable_sort(r2, s, by, order),
    ensures
        r1 == r2,
{
    let p = choose|p: Seq<int>| sorted_by(r1, s, p, by, order);
    let q = choose|q: Seq<int>| sorted_by(r2, s, q, by, order);
    lemma_arrangements_agree_up_to(r1, r2, s, p, q, by, order, s.len() as int);
    assert forall|i: int| 0 <= i < r1.len() implies r1[i] == r2[i] by {
        assert(p[i] == q[i]);
    }
    assert(r1 =~= r2);
}


/// Sorting a sorted listing again with the same settings leaves it as it is.
pub proof fn lemma_sort_idempotent(
    r: Seq<FileEntry>,
    s: Seq<FileEntry>,
    again: Seq<FileEntry>,
    by: SortBy,
    order: SortOrder,
)
    requires
        is_stable_sort(r, s, by, order),
        is_stable_sort(again, r, by, order),
    ensures
        again == r,
{
    let p = choose|p: Seq<int>| sorted_by(r, s, p, by, order);
    let id = Seq::new(r.len(), |i: int| i);
    assert forall|v: int| 0 <= v < r.len() implies #[trigger] occurs_in(id, v) by {
        assert(id[v] == v);
    }
    assert(sorted_by(r, r, id, by, order));
    lemma_stable_sort_unique(again, r, r, by, order);
}

/// `r` is `s` rearranged by `p` into the listing's order; entries that
/// compare equal may stand in any order.
pub open spec fn arranged_by(
    r: Seq<FileEntry>,
    s: Seq<FileEntry>,
    p: Seq<int>,
    by: SortBy,
    order: SortOrder,
) -> bool {
    &&& is_arrangement(p, s.len())
    &&& r.len() == s.len()
    &&& forall|i: int| 0 <= i < r.len() ==> r[i] == s[#[trigger] p[i]]
    &&& forall|i: int, j: int|
        0 <= i < j < r.len() ==> entry_cmp(r[i], r[j], by, order) <= 0
}

/// `r` is a rearrangement of `s` in the listing's order.
pub open spec fn is_sorted_arrangement(
    r: Seq<FileEntry>,
    s: Seq<FileEntry>,
    by: SortBy,
    order: SortOrder,
) -> bool {
    exists|p: Seq<int>| arranged_by(r, s, p, by, order)
}

/// A stable sort is a rearrangement in the listing's order.
pub proof fn lemma_stable_sort_is_sorted_arrangement(
    r: Seq<FileEntry>,
    s: Seq<FileEntry>,
    by: SortBy,
    order: SortOrder,
)
    requires
        is_stable_sort(r, s, by, order),
    ensures
        is_sorted_arrangement(r, s, by, order),
{
    let p = choose|p: Seq<int>| sorted_by(r, s, p, by, order);
    assert(arranged_by(r, s, p, by, order));
}

/// Sorting a rearrangement of `s` again, by any settings, gives a
/// rearrangement of `s` in the order of the new settings.
pub proof fn lemma_resort_keeps_arrangement(
    shown: Seq<FileEntry>,
    s: Seq<FileEntry>,
    old_by: SortBy,
    old_order: SortOrder,
    r: Seq<FileEntry>,
    by: SortBy,
    order: SortOrder,
)
    requires
        is_sorted_arrangement(shown, s, old_by, old_order),
        is_stable_sort(r, shown, by, order),
    ensures
        is_sorted_arrangement(r, s, by, order),
{
    let p = choose|p: Seq<int>| arranged_by(shown, s, p, old_by, old_order);
    let q = choose|q: Seq<int>| sorted_by(r, shown, q, by, order);
    let n = s.len();
    let c = Seq::new(n, |i: int| p[q[i]]);
    assert forall|i: int| 0 <= i < n implies 0 <= #[trigger] c[i] < n by {
        assert(0 <= q[i] < n);
        assert(0 <= p[q[i]] < n);
    }
    assert forall|i: int, j: int| 0 <= i < j < n implies c[i] != c[j] by {
        assert(q[i] != q[j]);
        assert(0 <= q[i] < n && 0 <= q[j] < n);
        if q[i] < q[j] {
            assert(p[q[i]] != p[q[j]]);
        } else {
            assert(p[q[j]] != p[q[i]]);
        }
    }
    assert forall|v: int| 0 <= v < n implies #[trigger] occurs_in(c, v) by {
        assert(occurs_in(p, v));
        let a = choose|a: int| 0 <= a < p.len() && p[a] == v;
        assert(occurs_in(q, a));
        let b = choose|b: int| 0 <= b < q.len() && q[b] == a;
        assert(c[b] == v);
    }
    assert forall|i: int| 0 <= i < r.len() implies r[i] == s[#[trigger] c[i]] by {
        assert(r[i] == shown[q[i]]);
        assert(shown[q[i]] == s[p[q[i]]]);
    }
    assert(arranged_by(r, s, c, by, order));
}

/// Number of directories among `s`.
pub open spec fn dir_count(s: Seq<FileEntry>) -> nat
    decreases s.len(),
{
    if s.len() == 0 {
        0
    } else {
        dir_count(s.drop_last()) + if s.last().is_dir {
            1nat
        } else {
            0nat
        }
    }
}

/// No two entries of `s` of the same kind tie on the field `by`.
pub open spec fn keys_distinct(s: Seq<FileEntry>, by: SortBy) -> bool {
    forall|a: int, b: int|
        0 <= a < b < s.len() && s[a].is_dir == s[b].is_dir ==> key_cmp(s[a], s[b], by) != 0
}

/// Positions of the directories of `s`.
pub open spec fn dir_positions(s: Seq<FileEntry>) -> Set<int> {
    Set::new(|i: int| 0 <= i < s.len() && s[i].is_dir)
}

proof fn lemma_dir_count_positions(s: Seq<FileEntry>)
    ensures
        dir_positions(s).finite(),
        dir_positions(s).len() == dir_count(s),
        dir_count(s) <= s.len(),
    decreases s.len(),
{
    if s.len() == 0 {
        assert(dir_positions(s) =~= Set::empty());
    } else {
        let t = s.drop_last();
        lemma_dir_count_positions(t);
        if s.last().is_dir {
            assert(dir_positions(s) =~= dir_positions(t).insert(s.len() - 1));
        } else {
            assert(dir_positions(s) =~= dir_positions(t));
        }
    }
}

/// In a listing with its directories first, the directories are exactly
/// the first `dir_count` entries.
proof fn lemma_dirs_lead(r: Seq<FileEntry>)
    requires
        directories_first(r),
    ensures
        forall|i: int| 0 <= i < r.len() ==> (r[i].is_dir <==> i < dir_count(r)),
    decreases r.len(),
{
    if r.len() > 0 {
        let t = r.drop_last();
        lemma_dirs_lead(t);
        lemma_dir_count_positions(t);
        let n = r.len() as int;
        if r.last().is_dir {
            assert forall|i: int| 0 <= i < n - 1 implies t[i].is_dir by {
                assert(r[i].is_dir || !r[n - 1].is_dir);
            }
            if n >= 2 {
                assert(t[n - 2].is_dir);
            }
        }
        assert forall|i: int| 0 <= i < n implies (r[i].is_dir <==> i < dir_count(r)) by {
            if i < n - 1 {
                assert(r[i] == t[i]);
            }
        }
    }
}

/// A rearrangement holds as many directories as what it rearranges.
proof fn lemma_dir_count_rearranged(r: Seq<FileEntry>, s: Seq<FileEntry>, p: Seq<int>)
    requires
        is_arrangement(p, s.len()),
        r.len() == s.len(),
        forall|i: int| 0 <= i < r.len() ==> r[i] == s[#[trigger] p[i]],
    ensures
        dir_count(r) == dir_count(s),
{
    lemma_dir_count_positions(r);
    lemma_dir_count_positions(s);
    let f = |i: int| p[i];
    let a = dir_positions(r);
    let b = dir_positions(s);
    assert forall|i: int, j: int| a.contains(i) && a.contains(j) && #[trigger] f(i) == #[trigger] f(
        j,
    ) implies i == j by {
        if i < j {
            assert(p[i] != p[j]);
        } else if j < i {
            assert(p[j] != p[i]);
        }
    }
    assert forall|x: int| b.contains(x) implies a.map(f).contains(x) by {
        assert(occurs_in(p, x));
        let i = choose|i: int| 0 <= i < p.len() && p[i] == x;
        assert(r[i] == s[x]);
        assert(a.contains(i) && f(i) == x);
    }
    assert forall|x: int| a.map(f).contains(x) implies b.contains(x) by {
        let i = choose|i: int| a.contains(i) && f(i) == x;
        assert(r[i] == s[p[i]]);
    }
    assert(a.map(f) =~= b);
    lemma_map_size(a, b, f);
}

/// `e` stands somewhere in `r`.
pub open spec fn appears_in(r: Seq<FileEntry>, e: FileEntry) -> bool {
    exists|i: int| 0 <= i < r.len() && r[i] == e
}

/// The position each position of a listing of `n` entries, `k` of them
/// directories, moves to when both groups are reversed.
pub open spec fn mirrored(i: int, k: int, n: int) -> int {
    if i < k {
        k - 1 - i
    } else {
        n - 1 + k - i
    }
}

/// Sorting by the same field in the two orders: both listings have the
/// directories of `s` first and its files after them, so no entry crosses
/// from one group to the other. Where no two entries of the same kind tie
/// on the field, the directories of the descending listing are those of
/// the ascending one in reverse order, and so are its files.
pub proof fn lemma_flipped_order_reverses_groups(
    s: Seq<FileEntry>,
    asc: Seq<FileEntry>,
    desc: Seq<FileEntry>,
    by: SortBy,
)
    requires
        is_stable_sort(asc, s, by, SortOrder::Ascending),
        is_stable_sort(desc, s, by, SortOrder::Descending),
    ensures
        asc.len() == s.len(),
        desc.len() == s.len(),
        forall|i: int|
            0 <= i < s.len() ==> (asc[i].is_dir <==> i < dir_count(s)) && (desc[i].is_dir <==> i
                < dir_count(s)),
        forall|j: int|
            0 <= j < s.len() ==> appears_in(asc, #[trigger] s[j]) && appears_in(desc, s[j]),
        keys_distinct(s, by) ==> desc.subrange(0, dir_count(s) as int) == asc.subrange(
            0,
            dir_count(s) as int,
        ).reverse() && desc.subrange(dir_count(s) as int, s.len() as int) == asc.subrange(
            dir_count(s) as int,
            s.len() as int,
        ).reverse(),
{
    let p = choose|p: Seq<int>| sorted_by(asc, s, p, by, SortOrder::Ascending);
    let d = choose|d: Seq<int>| sorted_by(desc, s, d, by, SortOrder::Descending);
    lemma_sorted_directories_first(asc, s, by, SortOrder::Ascending);
    lemma_sorted_directories_first(desc, s, by, SortOrder::Descending);
    lemma_dirs_lead(asc);
    lemma_dirs_lead(desc);
    lemma_dir_count_rearranged(asc, s, p);
    lemma_dir_count_rearranged(desc, s, d);
    let n = s.len() as int;
    let k = dir_count(s) as int;
    lemma_dir_count_positions(s);
    assert forall|j: int| 0 <= j < n implies appears_in(asc, #[trigger] s[j]) && appears_in(
        desc,
        s[j],
    ) by {
        assert(occurs_in(p, j));
        assert(occurs_in(d, j));
        let a = choose|a: int| 0 <= a < p.len() && p[a] == j;
        let b = choose|b: int| 0 <= b < d.len() && d[b] == j;
        assert(asc[a] == s[j]);
        assert(desc[b] == s[j]);
    }
    if keys_distinct(s, by) {
        let rr = Seq::new(n as nat, |i: int| asc[mirrored(i, k, n)]);
        let pr = Seq::new(n as nat, |i: int| p[mirrored(i, k, n)]);
        assert forall|i: int| 0 <= i < n implies 0 <= #[trigger] pr[i] < n by {
            assert(0 <= mirrored(i, k, n) < n);
        }
        assert forall|i: int, j: int| 0 <= i < j < n implies pr[i] != pr[j] by {
            let (a, b) = (mirrored(i, k, n), mirrored(j, k, n));
            assert(0 <= a < n && 0 <= b < n && a != b);
            if a < b {
                assert(p[a] != p[b]);
            } else {
                assert(p[b] != p[a]);
            }
        }
        assert forall|v: int| 0 <= v < n implies #[trigger] occurs_in(pr, v) by {
            assert(occurs_in(p, v));
            let a = choose|a: int| 0 <= a < p.len() && p[a] == v;
            assert(mirrored(mirrored(a, k, n), k, n) == a);
            assert(pr[mirrored(a, k, n)] == v);
        }
        assert forall|i: int| 0 <= i < n implies rr[i] == s[#[trigger] pr[i]] by {
            assert(asc[mirrored(i, k, n)] == s[p[mirrored(i, k, n)]]);
        }
        assert forall|i: int, j: int| 0 <= i < j < n implies entry_cmp(
            rr[i],
            rr[j],
            by,
            SortOrder::Descending,
        ) <= 0 && (entry_cmp(rr[i], rr[j], by, SortOrder::Descending) == 0 ==> pr[i] < pr[j]) by {
            let (a, b) = (mirrored(i, k, n), mirrored(j, k, n));
            if (i < k && j < k) || (i >= k && j >= k) {
                assert(b < a);
                assert(entry_cmp(asc[b], asc[a], by, SortOrder::Ascending) <= 0);
                assert(asc[a].is_dir == asc[b].is_dir);
                let (x, y) = (p[a], p[b]);
                assert(x != y);
                if x < y {
                    assert(key_cmp(s[x], s[y], by) != 0);
                } else {
                    assert(key_cmp(s[y], s[x], by) != 0);
                }
                lemma_entry_cmp_antisymmetric(s[x], s[y], by, SortOrder::Ascending);
            }
        }
        assert(sorted_by(rr, s, pr, by, SortOrder::Descending));
        lemma_stable_sort_unique(desc, rr, s, by, SortOrder::Descending);
        assert(desc.subrange(0, k) =~= asc.subrange(0, k).reverse());
        assert(desc.subrange(k, n) =~= asc.subrange(k, n).reverse());
    }
}

} // verus!
