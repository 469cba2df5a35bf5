//! File names and what they say of the file.

use crate::text;
use vstd::prelude::*;

verus! {

/// A path without the slashes, and the dots behind a slash, at its end.
pub open spec fn without_tail(path: Seq<char>) -> Seq<char>
    decreases path.len(),
{
    if path.len() > 0 && path.last() == '/' {
        without_tail(path.drop_last())
    } else if path.len() > 1 && path.last() == '.' && path[path.len() - 2] == '/' {
        without_tail(path.drop_last())
    } else {
        path
    }
}

/// What stands behind the last slash.
pub open spec fn behind_slash(path: Seq<char>) -> Seq<char> {
    match text::rfind(path, '/') {
        None => path,
        Some(i) => path.skip(i + 1),
    }
}

/// The file name at the end of a path, if it ends in one.
pub open spec fn file_name(path: Seq<char>) -> Option<Seq<char>> {
    let name = behind_slash(without_tail(path));
    if name.len() == 0 || name == seq!['.'] || name == seq!['.', '.'] {
        None
    } else {
        Some(name)
    }
}

/// What stands behind the last dot of the file name, unless that is its first character.
pub open spec fn extension(path: Seq<char>) -> Option<Seq<char>> {
    match file_name(path) {
        None => None,
        Some(name) => match text::rfind(name, '.') {
            None => None,
            Some(i) => if i == 0 { None } else { Some(name.skip(i + 1)) },
        },
    }
}

/// Whether a path has the given extension, whatever the case of its letters.
pub open spec fn has_extension(path: Seq<char>, ext: Seq<char>) -> bool {
    extension(path) matches Some(e) && text::same_name(e, ext)
}

/// The file name at the end of a path.
pub fn name_of(path: &str) -> (r: Option<Vec<char>>)
    ensures
        match r {
            Some(name) => file_name(path@) == Some(name@),
            None => file_name(path@) is None,
        },
{
    let chars = text::chars_of(path);
    let mut end: usize = chars.len();
    assert(chars@.take(end as int) =~= chars@);
    while end > 0 && (chars[end - 1] == '/' || (end > 1 && chars[end - 1] == '.' && chars[end - 2] == '/'))
        invariant
            end <= chars@.len(),
            without_tail(chars@) == without_tail(chars@.take(end as int)),
        decreases end,
    {
        let ghost p = chars@.take(end as int);
        assert(p.last() == chars@[end - 1]);
        assert(p.drop_last() =~= chars@.take(end - 1));
        end = end - 1;
    }
    let ghost p = chars@.take(end as int);
    assert(end > 0 ==> p.last() == chars@[end - 1]);
    assert(without_tail(chars@) == p);
    let rest = text::part(&chars, 0, end);
    assert(rest@ =~= p);
    let start: usize = match text::rfind_char(&rest, '/') {
        None => 0,
        Some(i) => i + 1,
    };
    let name = text::part(&rest, start, rest.len());
    assert(name@ =~= behind_slash(p));
    if name.len() == 0 || (name.len() == 1 && name[0] == '.') || (name.len() == 2 && name[0] == '.' && name[1] == '.') {
        assert(name@.len() == 1 ==> name@ =~= seq!['.']);
        assert(name@.len() == 2 ==> name@ =~= seq!['.', '.']);
        None
    } else {
        Some(name)
    }
}

/// What stands behind the last dot of the file name.
pub fn extension_of(path: &str) -> (r: Option<Vec<char>>)
    ensures
        match r {
            Some(ext) => extension(path@) == Some(ext@),
            None => extension(path@) is None,
        },
{
    match name_of(path) {
        None => None,
        Some(name) => match text::rfind_char(&name, '.') {
            None => None,
            Some(i) => if i == 0 {
                None
            } else {
                let ext = text::part(&name, i + 1, name.len());
                assert(ext@ =~= name@.skip(i + 1));
                Some(ext)
            },
        },
    }
}

/// Whether a path has the given extension.
pub fn ends_in(path: &str, ext: &str) -> (b: bool)
    ensures
        b == has_extension(path@, ext@),
{
    match extension_of(path) {
        None => false,
        Some(e) => text::names_match(&e, &text::chars_of(ext)),
    }
}

/// The kinds of image files, told by their extensions.
#[derive(Clone, Copy, Debug, PartialEq, Eq, Structural)]
pub enum FileKind {
    Json,
    Trd,
    Mgt,
    Td0,
    /// Anything else.
    Dsk,
}

/// The kind of an image file.
pub open spec fn kind_of(path: Seq<char>) -> FileKind {
    if has_extension(path, "json"@) {
        FileKind::Json
    } else if has_extension(path, "trd"@) {
        FileKind::Trd
    } else if has_extension(path, "mgt"@) {
        FileKind::Mgt
    } else if has_extension(path, "td0"@) {
        FileKind::Td0
    } else {
        FileKind::Dsk
    }
}

impl FileKind {
    /// The kind of an image file.
    pub fn of(path: &str) -> (kind: FileKind)
        ensures
            kind == kind_of(path@),
    {
        if ends_in(path, "json") {
            FileKind::Json
        } else if ends_in(path, "trd") {
            FileKind::Trd
        } else if ends_in(path, "mgt") {
            FileKind::Mgt
        } else if ends_in(path, "td0") {
            FileKind::Td0
        } else {
            FileKind::Dsk
        }
    }
}

}
