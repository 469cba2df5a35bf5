//! File names as filesystems store them.

use crate::error::{DskError, ErrorView};
use crate::text;
use vstd::prelude::*;

verus! {

/// Characters that may stand in a stored name.
pub open spec fn storable(c: char) -> bool {
    ||| '0' <= c <= '9'
    ||| 'A' <= c <= 'Z'
    ||| 'a' <= c <= 'z'
    ||| c == '_' || c == '$' || c == '-' || c == '!' || c == '#' || c == '@'
}

/// Whether a name consists of 1 to `length` storable characters.
pub open spec fn fits(name: Seq<char>, length: int) -> bool {
    &&& 0 < name.len() <= length
    &&& forall|i: int| 0 <= i < name.len() ==> storable(#[trigger] name[i])
}

/// The bytes of a name that fits: in upper case, with blanks behind it.
pub open spec fn padded_bytes(name: Seq<char>, length: int) -> Seq<u8> {
    Seq::new(length as nat, |i: int| if i < name.len() { text::upper(name[i]) as u8 } else { 0x20u8 })
}

/// The bytes of a name, or why it cannot be stored.
pub open spec fn padded(name: Seq<char>, length: int) -> Result<Seq<u8>, ErrorView> {
    if fits(name, length) {
        Ok(padded_bytes(name, length))
    } else {
        Err(ErrorView::InvalidFilename(name))
    }
}

fn may_store(c: char) -> (b: bool)
    ensures
        b == storable(c),
{
    ('0' <= c && c <= '9') || ('A' <= c && c <= 'Z') || ('a' <= c && c <= 'z') || c == '_' || c == '$' || c == '-'
        || c == '!' || c == '#' || c == '@'
}

/// The bytes of a name in upper case, with blanks behind it up to `length`.
pub fn padded_name(name: &Vec<char>, length: usize) -> (r: Result<Vec<u8>, DskError>)
    ensures
        match r {
            Ok(v) => padded(name@, length as int) == Ok::<Seq<u8>, ErrorView>(v@),
            Err(e) => padded(name@, length as int) == Err::<Seq<u8>, ErrorView>(e@),
        },
{
    if name.len() == 0 || name.len() > length {
        return Err(DskError::InvalidFilename(text::string_of(name)));
    }
    let mut v: Vec<u8> = Vec::new();
    let mut i: usize = 0;
    while i < name.len()
        invariant
            i <= name@.len() <= length,
            v@.len() == i,
            forall|k: int| 0 <= k < i ==> storable(#[trigger] name@[k]),
            forall|k: int| 0 <= k < i ==> #[trigger] v@[k] == text::upper(name@[k]) as u8,
        decreases name@.len() - i,
    {
        if !may_store(name[i]) {
            assert(!storable(name@[i as int]));
            return Err(DskError::InvalidFilename(text::string_of(name)));
        }
        v.push(text::to_upper(name[i]) as u8);
        i = i + 1;
    }
    while v.len() < length
        invariant
            name@.len() <= v@.len() <= length,
            forall|k: int| 0 <= k < name@.len() ==> #[trigger] v@[k] == text::upper(name@[k]) as u8,
            forall|k: int| name@.len() <= k < v@.len() ==> #[trigger] v@[k] == 0x20,
        decreases length - v@.len(),
    {
        v.push(0x20);
    }
    assert(v@ =~= padded_bytes(name@, length as int));
    Ok(v)
}

/// The user number and the rest of a CP/M file name: `N:NAME` is a name of user N, other
/// names are of user 0.
pub open spec fn user_and_name(name: Seq<char>) -> Result<(u8, Seq<char>), ErrorView> {
    match text::find(name, ':') {
        None => Ok((0u8, name)),
        Some(i) => match text::user_number(name.take(i)) {
            None => Err(ErrorView::InvalidFilename(name)),
            Some(u) => Ok((u as u8, name.skip(i + 1))),
        },
    }
}

/// The parts of a name before and behind its first dot.
pub open spec fn dotted(name: Seq<char>) -> (Seq<char>, Seq<char>) {
    match text::find(name, '.') {
        None => (name, Seq::empty()),
        Some(i) => (name.take(i), name.skip(i + 1)),
    }
}

/// The bytes of an extension, which may be empty.
pub open spec fn padded_extension(ext: Seq<char>) -> Result<Seq<u8>, ErrorView> {
    if ext.len() == 0 {
        Ok(Seq::new(3, |i: int| 0x20u8))
    } else {
        padded(ext, 3)
    }
}

/// The user number and the eleven bytes of a CP/M file name, or what cannot be stored of it.
pub open spec fn cpm_key(name: Seq<char>) -> Result<(u8, Seq<u8>), ErrorView> {
    match user_and_name(name) {
        Err(e) => Err(e),
        Ok((user, rest)) => {
            let (base, ext) = dotted(rest);
            match padded(base, 8) {
                Err(e) => Err(e),
                Ok(b) => match padded_extension(ext) {
                    Err(e) => Err(e),
                    Ok(x) => Ok((user, b + x)),
                },
            }
        },
    }
}

/// The user number and the eleven bytes of a CP/M file name.
pub fn cpm_name(name: &str) -> (r: Result<(u8, Vec<u8>), DskError>)
    ensures
        match r {
            Ok(k) => cpm_key(name@) == Ok::<(u8, Seq<u8>), ErrorView>((k.0, k.1@)) && k.0 <= 31 && k.1@.len() == 11,
            Err(e) => cpm_key(name@) == Err::<(u8, Seq<u8>), ErrorView>(e@),
        },
{
    let chars = text::chars_of(name);
    let (user, rest) = match text::find_char(&chars, ':') {
        None => (0u8, chars),
        Some(i) => {
            let len = chars.len();
            let digits = text::part(&chars, 0, i);
            assert(digits@ =~= chars@.take(i as int));
            match text::parse_user(&digits) {
                None => {
                    return Err(DskError::InvalidFilename(name.to_string()));
                },
                Some(u) => {
                    let rest = text::part(&chars, i + 1, len);
                    assert(rest@ =~= chars@.skip(i + 1));
                    (u, rest)
                },
            }
        },
    };
    let len = rest.len();
    let (base, ext) = match text::find_char(&rest, '.') {
        None => (text::part(&rest, 0, len), Vec::new()),
        Some(i) => (text::part(&rest, 0, i), text::part(&rest, i + 1, len)),
    };
    assert(base@ =~= dotted(rest@).0);
    assert(ext@ =~= dotted(rest@).1);
    let mut raw = match padded_name(&base, 8) {
        Ok(b) => b,
        Err(e) => {
            return Err(e);
        },
    };
    let ghost b = raw@;
    let extension: Vec<u8> = if ext.len() == 0 {
        vec![0x20u8; 3]
    } else {
        match padded_name(&ext, 3) {
            Ok(x) => x,
            Err(e) => {
                return Err(e);
            },
        }
    };
    assert(padded_extension(ext@) == Ok::<Seq<u8>, ErrorView>(extension@)) by {
        if ext@.len() == 0 {
            assert(extension@ =~= Seq::new(3, |i: int| 0x20u8));
        }
    }
    raw.extend_from_slice(extension.as_slice());
    assert(raw@ =~= b + extension@);
    Ok((user, raw))
}

/// The text of a padded name is the name in upper case.
pub proof fn lemma_padded_text(name: Seq<char>, length: int)
    requires
        fits(name, length),
    ensures
        text::trim_end(text::latin(padded_bytes(name, length))) == text::upper_all(name),
    decreases length,
{
    let t = text::latin(padded_bytes(name, length));
    if length > name.len() {
        assert(t.last() == ' ');
        assert(t.drop_last() =~= text::latin(padded_bytes(name, length - 1)));
        lemma_padded_text(name, length - 1);
    } else {
        assert forall|i: int| 0 <= i < length implies #[trigger] t[i] == text::upper(name[i]) by {
            assert(storable(name[i]));
        }
        assert(t =~= text::upper_all(name));
        assert(storable(name.last()));
        assert(t.last() == text::upper(name.last()));
        assert(!text::is_blank(t.last()));
    }
}

}
