//! Paths and case mapping. The final component and the parent of a path,
//! path equality and the case mappings come from std: each of those functions makes one
//! call into std and is trusted to return what its named result says. A
//! path's extension is found here from its final component.
use vstd::prelude::*;

use crate::text::chars_of;

verus! {

/// The final component of a path, as `std::path::Path::file_name` finds it.
pub uninterp spec fn file_name_of(path: Seq<char>) -> Option<Seq<char>>;


/// The path without its final component, as `std::path::Path::parent`
/// finds it.
pub uninterp spec fn parent_of(path: Seq<char>) -> Option<Seq<char>>;

/// Whether two paths are equal as `std::path::Path` compares them,
/// component by component (so `/a/b/` and `/a//b` both equal `/a/b`).
pub uninterp spec fn path_eq(a: Seq<char>, b: Seq<char>) -> bool;

/// The lowercase mapping of a string, as `str::to_lowercase` gives it.
pub uninterp spec fn lower_of(s: Seq<char>) -> Seq<char>;

/// The uppercase mapping of a string, as `str::to_uppercase` gives it.
pub uninterp spec fn upper_of(s: Seq<char>) -> Seq<char>;

/// The characters of an optional string.
pub open spec fn text_of(o: Option<String>) -> Option<Seq<char>> {
    match o {
        Some(s) => Some(s@),
        None => None,
    }
}

/// Relies on `std::path::Path::file_name`: the final component of the path,
/// which depends on the path's characters alone.
#[verifier::external_body]
pub(crate) fn file_name(path: &str) -> (r: Option<String>)
    ensures
        text_of(r) == file_name_of(path@),
{
    match std::path::Path::new(path).file_name() {
        Some(n) => Some(n.to_string_lossy().into_owned()),
        None => None,
    }
}

/// Relies on `std::path::Path::parent`: the path without its final
/// component, which depends on the path's characters alone.
#[verifier::external_body]
pub(crate) fn parent(path: &str) -> (r: Option<String>)
    ensures
        text_of(r) == parent_of(path@),
{
    match std::path::Path::new(path).parent() {
        Some(p) => Some(p.to_string_lossy().into_owned()),
        None => None,
    }
}

/// Relies on `PartialEq` for `std::path::Path`: paths compare by their
/// components, which depend on the paths' characters alone; a path equals
/// itself.
#[verifier::external_body]
pub(crate) fn same_path(a: &str, b: &str) -> (r: bool)
    ensures
        r == path_eq(a@, b@),
        a@ == b@ ==> r,
{
    std::path::Path::new(a) == std::path::Path::new(b)
}

/// Relies on `str::to_lowercase`: the Unicode lowercase mapping, which
/// depends on the characters alone.
#[verifier::external_body]
pub(crate) fn lowercase(s: &str) -> (r: String)
    ensures
        r@ == lower_of(s@),
{
    s.to_lowercase()
}

/// Relies on `str::to_uppercase`: the Unicode uppercase mapping, which
/// depends on the characters alone.
#[verifier::external_body]
pub(crate) fn uppercase(s: &str) -> (r: String)
    ensures
        r@ == upper_of(s@),
{
    s.to_uppercase()
}

/// Position of the last `.` in `n`, or -1 where there is none.
pub open spec fn last_dot(n: Seq<char>) -> int
    decreases n.len(),
{
    if n.len() == 0 {
        -1
    } else if n.last() == '.' {
        n.len() - 1
    } else {
        last_dot(n.drop_last())
    }
}

/// The extension of a path: the text after the last `.` of its final
/// component. There is none without a final component, without a `.` in
/// it, or where its only `.` is its first character.
pub open spec fn extension_of(path: Seq<char>) -> Option<Seq<char>> {
    match file_name_of(path) {
        None => None,
        Some(n) => {
            let i = last_dot(n);
            if i <= 0 {
                None
            } else {
                Some(n.subrange(i + 1, n.len() as int))
            }
        },
    }
}

proof fn lemma_last_dot(n: Seq<char>, i: int)
    requires
        -1 <= i < n.len(),
        i >= 0 ==> n[i] == '.',
        forall|j: int| i < j < n.len() ==> n[j] != '.',
    ensures
        last_dot(n) == i,
    decreases n.len(),
{
    if n.len() > 0 && i < n.len() - 1 {
        assert(n[n.len() - 1] != '.');
        lemma_last_dot(n.drop_last(), i);
    }
}

/// The extension of `path`, as `extension_of` describes it.
pub(crate) fn extension(path: &str) -> (r: Option<String>)
    ensures
        text_of(r) == extension_of(path@),
{
    let name = match file_name(path) {
        Some(n) => n,
        None => return None,
    };
    let cs = chars_of(name.as_str());
    let len = cs.len();
    let mut k: usize = len;
    while k > 0 && cs[k - 1] != '.'
        invariant
            k <= len,
            len == name@.len(),
            cs@ == name@,
            forall|j: int| k <= j < len ==> name@[j] != '.',
        decreases k,
    {
        k = k - 1;
    }
    proof {
        lemma_last_dot(name@, k - 1);
    }
    if k <= 1 {
        None
    } else {
        Some(String::from_str(name.as_str().substring_char(k, len)))
    }
}

} // verus!
