//! Paths: what every platform makes of them, and the calls into `std::path`.

use vstd::prelude::*;
use vstd::string::*;

use crate::pattern::{first_of, lemma_first_of};
use crate::rule::text_view;

verus! {

/// Whether every platform reads the path in the same way: nothing in it can be a
/// drive, a share or a separator other than the slash.
pub open spec fn is_portable(path: Seq<char>) -> bool {
    &&& forall|i: int| 0 <= i < path.len() ==> (#[trigger] path[i]) != '\\' && path[i] != ':'
    &&& !(path.len() >= 2 && path[0] == '/' && path[1] == '/')
}

/// The components of a path from `i` on: what stands between separators, which are the
/// slash and `other`, without single dots, unless one stands at `start`.
pub open spec fn parts_by(path: Seq<char>, other: char, start: int, i: int) -> Seq<Seq<char>>
    decreases path.len() - i,
{
    if i < 0 || i >= path.len() {
        Seq::empty()
    } else if path[i] == '/' || path[i] == other {
        parts_by(path, other, start, i + 1)
    } else {
        proof {
            lemma_first_of(path, i + 1, '/', other);
        }
        let end = first_of(path, i + 1, '/', other);
        let part = path.subrange(i, end);
        if i != start && part == seq!['.'] {
            parts_by(path, other, start, end)
        } else {
            seq![part] + parts_by(path, other, start, end)
        }
    }
}

/// The components of a path that slashes part.
pub open spec fn slash_parts(path: Seq<char>) -> Seq<Seq<char>> {
    parts_by(path, '/', 0, 0)
}

/// Where a path begins behind its drive, a letter and a colon, if it has one.
pub open spec fn drive_end(path: Seq<char>) -> int {
    if path.len() >= 2 && path[1] == ':' && ('a' <= path[0] <= 'z' || 'A' <= path[0] <= 'Z') {
        2
    } else {
        0
    }
}

/// The components behind the drive of a path that slashes and backslashes part.
pub open spec fn drive_parts(path: Seq<char>) -> Seq<Seq<char>> {
    parts_by(path, '\\', drive_end(path), drive_end(path))
}

/// Whether two portable paths are the same: both begin with a slash or neither
/// does, and they have the same components.
pub open spec fn paths_equal(a: Seq<char>, b: Seq<char>) -> bool {
    &&& (a.len() > 0 && a[0] == '/') == (b.len() > 0 && b[0] == '/')
    &&& slash_parts(a) == slash_parts(b)
}

/// The small letter of a capital one of ASCII, and every other character itself.
pub open spec fn folded(c: char) -> char {
    if 'A' <= c <= 'Z' {
        (c as u32 + 32) as char
    } else {
        c
    }
}

/// What slashes and backslashes part a path into, without single dots and in small
/// letters.
pub open spec fn loose_parts(path: Seq<char>) -> Seq<Seq<char>> {
    parts_by(path, '\\', -1, 0).map_values(|part: Seq<char>| part.map_values(|c: char| folded(c)))
}

/// Calls the equality of `std::path::Path`, which compares component by component.
/// It claims that a path equals itself, of two portable paths whether they are equal,
/// and of any two that equal ones are made of the same parts, up to the case of ASCII
/// letters, such as that of a drive. More of paths that are not portable it does not
/// claim, because how they come apart depends on the platform.
#[verifier::external_body]
fn same_path(a: &str, b: &str) -> (r: bool)
    ensures
        a@ == b@ ==> r,
        r ==> loose_parts(a@) == loose_parts(b@),
        is_portable(a@) && is_portable(b@) ==> r == paths_equal(a@, b@),
{
    std::path::Path::new(a) == std::path::Path::new(b)
}

/// The file name among the components of a path: the last one, unless that leads up or
/// is the single dot that the path begins with.
pub open spec fn name_in(parts: Seq<Seq<char>>) -> Option<Seq<char>> {
    if parts.len() == 0 || parts.last() == seq!['.'] || parts.last() == seq!['.', '.'] {
        None
    } else {
        Some(parts.last())
    }
}

/// The file name of a path that slashes part.
pub open spec fn slash_name(path: Seq<char>) -> Option<Seq<char>> {
    name_in(slash_parts(path))
}

/// The file name of a path that slashes and backslashes part, behind its drive.
pub open spec fn drive_name(path: Seq<char>) -> Option<Seq<char>> {
    name_in(drive_parts(path))
}

/// Whether a path begins with two separators, as that of a share does.
pub open spec fn is_share(path: Seq<char>) -> bool {
    &&& path.len() >= 2
    &&& path[0] == '/' || path[0] == '\\'
    &&& path[1] == '/' || path[1] == '\\'
}

/// The last index before `i` at which the name holds a dot, or -1.
pub open spec fn last_dot(name: Seq<char>, i: int) -> int
    decreases i,
{
    if i <= 0 || i > name.len() {
        -1
    } else if name[i - 1] == '.' {
        i - 1
    } else {
        last_dot(name, i - 1)
    }
}

/// The extension of a portable path: what follows the last dot of its file name, unless
/// the name begins with that dot.
pub open spec fn portable_extension(path: Seq<char>) -> Option<Seq<char>> {
    match slash_name(path) {
        Some(name) => {
            let dot = last_dot(name, name.len() as int);
            if dot > 0 {
                Some(name.skip(dot + 1))
            } else {
                None
            }
        },
        None => None,
    }
}

/// Whether `part` stands somewhere in `s`.
pub open spec fn holds_part(s: Seq<char>, part: Seq<char>) -> bool {
    exists|i: int|
        0 <= i && i + part.len() <= s.len() && part == #[trigger] s.subrange(i, i + part.len())
}

/// Calls `std::path::Path::file_name`. It claims that the name is the last component of
/// a portable path. Of another one it is the last component as slashes part the path, or
/// as slashes and backslashes part it behind its drive; which of them depends on the
/// platform. Of a path that begins with two separators it claims only, as of every path,
/// that the name is a part of its text.
#[verifier::external_body]
fn file_name(path: &str) -> (r: Option<String>)
    ensures
        is_portable(path@) ==> text_view(r) == slash_name(path@),
        !is_share(path@) ==> text_view(r) == slash_name(path@) || text_view(r) == drive_name(
            path@,
        ),
        r matches Some(name) ==> holds_part(path@, name@),
{
    let name = std::path::Path::new(path).file_name();
    name.and_then(|name| name.to_str()).map(|name| name.to_string())
}

/// Calls `std::path::Path::extension`. It claims that the extension of a portable path
/// is what follows the last dot of its file name, and that no extension holds a dot.
#[verifier::external_body]
fn extension(path: &str) -> (r: Option<String>)
    ensures
        is_portable(path@) ==> text_view(r) == portable_extension(path@),
        r matches Some(extension) ==> !extension@.contains('.'),
{
    let extension = std::path::Path::new(path).extension();
    extension.and_then(|extension| extension.to_str()).map(|extension| extension.to_string())
}

/// Whether this is what the equality of paths can answer, asked of these very two.
pub closed spec fn path_answer(a: Seq<char>, b: Seq<char>, answer: bool) -> bool {
    exists|x: &str, y: &str|
        x@ == a && y@ == b && #[trigger] call_ensures(same_path, (x, y), answer)
}

/// Whether this can be the file name that is given for this very path.
pub closed spec fn name_answer(path: Seq<char>, name: Option<Seq<char>>) -> bool {
    exists|p: &str, answer: Option<String>|
        p@ == path && text_view(answer) == name && #[trigger] call_ensures(
            file_name,
            (p,),
            answer,
        )
}

/// Whether this can be the extension that is given for this very path.
pub closed spec fn extension_answer(path: Seq<char>, name: Option<Seq<char>>) -> bool {
    exists|p: &str, answer: Option<String>|
        p@ == path && text_view(answer) == name && #[trigger] call_ensures(
            extension,
            (p,),
            answer,
        )
}

/// Asks whether two paths are the same.
pub(crate) fn ask_same(a: &str, b: &str) -> (r: bool)
    ensures
        path_answer(a@, b@, r),
        a@ == b@ ==> r,
        r ==> loose_parts(a@) == loose_parts(b@),
        is_portable(a@) && is_portable(b@) ==> r == paths_equal(a@, b@),
{
    let r = same_path(a, b);
    assert(call_ensures(same_path, (a, b), r));
    r
}

/// Asks for the file name of a path.
pub(crate) fn ask_name(path: &str) -> (r: Option<String>)
    ensures
        name_answer(path@, text_view(r)),
        is_portable(path@) ==> text_view(r) == slash_name(path@),
        !is_share(path@) ==> text_view(r) == slash_name(path@) || text_view(r) == drive_name(
            path@,
        ),
        r matches Some(name) ==> holds_part(path@, name@),
{
    let r = file_name(path);
    assert(call_ensures(file_name, (path,), r));
    r
}

/// Asks for the extension of a path.
pub(crate) fn ask_extension(path: &str) -> (r: Option<String>)
    ensures
        extension_answer(path@, text_view(r)),
        is_portable(path@) ==> text_view(r) == portable_extension(path@),
        r matches Some(extension) ==> !extension@.contains('.'),
{
    let r = extension(path);
    assert(call_ensures(extension, (path,), r));
    r
}

} // verus!
