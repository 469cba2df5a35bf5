//! Laws of CP/M file names: what they address, and how they are stored.

use crate::error::ErrorView;
use crate::filesystem::cpm_model;
use crate::filesystem::cpm_model::FileKey;
use crate::filesystem::names;
use crate::text;
use vstd::prelude::*;

verus! {

/// Whether a character may stand in a stored name: letters, digits and a few signs.
pub open spec fn allowed(c: char) -> bool {
    'a' <= c <= 'z' || 'A' <= c <= 'Z' || '0' <= c <= '9' || c == '_' || c == '$' || c == '-' || c == '!' || c == '#' || c
        == '@'
}

/// Whether all characters may stand in a stored name.
pub open spec fn all_allowed(s: Seq<char>) -> bool {
    forall|i: int| 0 <= i < s.len() ==> allowed(#[trigger] s[i])
}

/// A letter in upper case.
pub open spec fn capital(c: char) -> int {
    if 'a' <= c <= 'z' { c as int - 32 } else { c as int }
}

/// A user number with one or two digits, and a colon.
pub open spec fn prefix(user: int) -> Seq<char> {
    if user < 10 {
        seq![('0' as int + user) as char, ':']
    } else {
        seq![('0' as int + user / 10) as char, ('0' as int + user % 10) as char, ':']
    }
}

/// The first `c` of a text.
proof fn lemma_find(s: Seq<char>, c: char, from: int, n: int)
    requires
        0 <= from <= n <= s.len(),
        forall|i: int| from <= i < n ==> #[trigger] s[i] != c,
        n < s.len() ==> s[n] == c,
    ensures
        text::find_from(s, c, from) == n,
    decreases n - from,
{
    if from < n {
        lemma_find(s, c, from + 1, n);
    }
}

/// The user number in front of a name.
proof fn lemma_prefix(user: int, rest: Seq<char>)
    requires
        0 <= user <= 31,
    ensures
        text::find(prefix(user) + rest, ':') == Some(prefix(user).len() - 1),
        text::user_number((prefix(user) + rest).take(prefix(user).len() - 1)) == Some(user),
        (prefix(user) + rest).skip(prefix(user).len() as int) == rest,
{
    let s = prefix(user) + rest;
    let n = prefix(user).len() - 1;
    lemma_find(s, ':', 0, n);
    reveal_with_fuel(text::number, 3);
    let d = s.take(n);
    assert(s.skip(n + 1) =~= rest);
    if user < 10 {
        assert(d.drop_last() =~= Seq::<char>::empty());
        assert(d.last() == prefix(user)[0]);
    } else {
        assert(d.drop_last().drop_last() =~= Seq::<char>::empty());
        assert(d.last() == prefix(user)[1]);
        assert(d.drop_last().last() == prefix(user)[0]);
        assert(d[0] == prefix(user)[0]);
    }
}

/// A name with a user number and a colon in front addresses a file of that user, a name without
/// a colon one of user 0; the case of letters counts.
pub proof fn law_user_stands_before_the_colon(user: u8, name: Seq<char>)
    requires
        user <= 31,
    ensures
        cpm_model::key_of_name(prefix(user as int) + name) == Ok::<FileKey, ErrorView>(FileKey { user, name }),
        (forall|i: int| 0 <= i < name.len() ==> #[trigger] name[i] != ':') ==> cpm_model::key_of_name(name) == Ok::<
            FileKey,
            ErrorView,
        >(FileKey { user: 0, name }),
{
    lemma_prefix(user as int, name);
    if forall|i: int| 0 <= i < name.len() ==> #[trigger] name[i] != ':' {
        lemma_find(name, ':', 0, name.len() as int);
    }
}

/// The name of a file, with a dot and an extension if it has one.
pub open spec fn dotted(base: Seq<char>, ext: Seq<char>) -> Seq<char> {
    if ext.len() == 0 { base } else { base + seq!['.'] + ext }
}

/// The parts of a name.
proof fn lemma_dotted(base: Seq<char>, ext: Seq<char>)
    requires
        forall|i: int| 0 <= i < base.len() ==> #[trigger] base[i] != '.',
    ensures
        names::dotted(dotted(base, ext)) == (base, ext),
{
    let s = dotted(base, ext);
    let n = base.len() as int;
    assert forall|i: int| 0 <= i < n implies #[trigger] s[i] != '.' by {
        assert(s[i] == base[i]);
    }
    if ext.len() == 0 {
        lemma_find(s, '.', 0, n);
        assert(ext =~= Seq::<char>::empty());
    } else {
        lemma_find(s, '.', 0, n);
        assert(s.take(n) =~= base);
        assert(s.skip(n + 1) =~= ext);
    }
}

/// Whether eleven bytes hold a base of up to eight characters and an extension of up to three, in
/// upper case and padded with blanks.
pub open spec fn holds_name(raw: Seq<u8>, base: Seq<char>, ext: Seq<char>) -> bool {
    &&& raw.len() == 11
    &&& forall|k: int| 0 <= k < 8 ==> #[trigger] raw[k] == (if k < base.len() { capital(base[k]) } else { 0x20 })
    &&& forall|k: int| 8 <= k < 11 ==> #[trigger] raw[k] == (if k - 8 < ext.len() { capital(ext[k - 8]) } else { 0x20 })
}

proof fn lemma_key(name: Seq<char>, user: u8, base: Seq<char>, ext: Seq<char>)
    requires
        names::user_and_name(name) == Ok::<(u8, Seq<char>), ErrorView>((user, dotted(base, ext))),
        1 <= base.len() <= 8,
        ext.len() <= 3,
        all_allowed(base),
        all_allowed(ext),
    ensures
        names::cpm_key(name) matches Ok((u, raw)) && u == user && holds_name(raw, base, ext),
{
    assert forall|i: int| 0 <= i < base.len() implies #[trigger] base[i] != '.' && names::storable(base[i]) by {
        assert(allowed(base[i]));
    }
    assert forall|i: int| 0 <= i < ext.len() implies names::storable(#[trigger] ext[i]) by {
        assert(allowed(ext[i]));
    }
    lemma_dotted(base, ext);
    assert(names::fits(base, 8));
    if ext.len() > 0 {
        assert(names::fits(ext, 3));
    }
    let raw = names::cpm_key(name)->Ok_0.1;
    assert forall|k: int| 0 <= k < 8 implies #[trigger] raw[k] == (if k < base.len() { capital(base[k]) } else { 0x20 }) by {
        if k < base.len() {
            assert(names::storable(base[k]));
        }
    }
    assert forall|k: int| 8 <= k < 11 implies #[trigger] raw[k] == (if k - 8 < ext.len() { capital(ext[k - 8]) } else { 0x20 }) by {
        if k - 8 < ext.len() {
            assert(names::storable(ext[k - 8]));
        }
    }
}

/// A name of up to eight characters, with up to three behind a dot, is stored in eleven bytes in
/// upper case, padded with blanks; for user 0, or for the user in front of a colon.
pub proof fn law_name_is_stored(user: u8, base: Seq<char>, ext: Seq<char>)
    requires
        user <= 31,
        1 <= base.len() <= 8,
        ext.len() <= 3,
        all_allowed(base),
        all_allowed(ext),
    ensures
        names::cpm_key(dotted(base, ext)) matches Ok((u, raw)) && u == 0 && holds_name(raw, base, ext),
        names::cpm_key(prefix(user as int) + dotted(base, ext)) matches Ok((u, raw)) && u == user && holds_name(raw, base, ext),
{
    let name = dotted(base, ext);
    assert forall|i: int| 0 <= i < name.len() implies #[trigger] name[i] != ':' by {
        if i < base.len() {
            assert(allowed(base[i]));
        } else if i > base.len() {
            assert(allowed(ext[i - base.len() - 1]));
        }
    }
    lemma_find(name, ':', 0, name.len() as int);
    lemma_key(name, 0, base, ext);
    lemma_prefix(user as int, name);
    lemma_key(prefix(user as int) + name, user, base, ext);
}

/// Names that are too long, that have no base, or that hold other characters cannot be stored.
pub proof fn law_bad_names_are_refused(base: Seq<char>, ext: Seq<char>)
    requires
        base.len() == 0 || base.len() > 8 || ext.len() > 3 || !all_allowed(base) || !all_allowed(ext),
        forall|i: int| 0 <= i < base.len() ==> #[trigger] base[i] != '.' && base[i] != ':',
        forall|i: int| 0 <= i < ext.len() ==> #[trigger] ext[i] != ':',
    ensures
        names::cpm_key(dotted(base, ext)) is Err,
{
    let name = dotted(base, ext);
    assert forall|i: int| 0 <= i < name.len() implies #[trigger] name[i] != ':' by {
        if i > base.len() {
            assert(name[i] == ext[i - base.len() - 1]);
        }
    }
    lemma_find(name, ':', 0, name.len() as int);
    lemma_dotted(base, ext);
    if 1 <= base.len() <= 8 && names::fits(base, 8) {
        assert forall|i: int| 0 <= i < base.len() implies allowed(#[trigger] base[i]) by {
            assert(names::storable(base[i]));
        }
        if names::fits(ext, 3) {
            assert forall|i: int| 0 <= i < ext.len() implies allowed(#[trigger] ext[i]) by {
                assert(names::storable(ext[i]));
            }
        }
    }
}

}
