//! Text helpers: names are handled as lists of characters.

use vstd::prelude::*;

verus! {

/// `String::push` appends one character.
pub assume_specification[ String::push ](s: &mut String, c: char)
    ensures
        final(s)@ == old(s)@.push(c),
;

/// The characters of a string.
pub fn chars_of(s: &str) -> (v: Vec<char>)
    ensures
        v@ == s@,
{
    let mut v: Vec<char> = Vec::new();
    for c in iter: s.chars()
        invariant
            v@ == iter.seq().take(iter.index() as int),
            iter.seq() == s@,
    {
        v.push(c);
        assert(iter.seq().take(iter.index() + 1) =~= iter.seq().take(iter.index() as int).push(c));
    }
    assert(s@.take(s@.len() as int) =~= s@);
    v
}

/// A string with the given characters.
pub fn string_of(chars: &Vec<char>) -> (s: String)
    ensures
        s@ == chars@,
{
    let mut s = String::new();
    let mut i: usize = 0;
    assert(s@ =~= chars@.take(0));
    while i < chars.len()
        invariant
            i <= chars@.len(),
            s@ == chars@.take(i as int),
        decreases chars@.len() - i,
    {
        s.push(chars[i]);
        assert(chars@.take(i + 1) =~= chars@.take(i as int).push(chars@[i as int]));
        i = i + 1;
    }
    assert(chars@.take(chars@.len() as int) =~= chars@);
    s
}

/// Part of a list of characters.
pub fn part(chars: &Vec<char>, from: usize, to: usize) -> (v: Vec<char>)
    requires
        from <= to <= chars@.len(),
    ensures
        v@ == chars@.subrange(from as int, to as int),
{
    vstd::slice::slice_to_vec(vstd::slice::slice_subrange(chars.as_slice(), from, to))
}

/// The decimal digits of `n`.
pub open spec fn decimal(n: int) -> Seq<char>
    decreases n,
{
    if n < 10 {
        seq![(48 + n) as char]
    } else {
        decimal(n / 10).push((48 + n % 10) as char)
    }
}

/// Appends the decimal digits of `n`.
pub fn push_decimal(s: &mut String, n: usize)
    ensures
        final(s)@ == old(s)@ + decimal(n as int),
    decreases n,
{
    if n >= 10 {
        push_decimal(s, n / 10);
    }
    let digit: u8 = 48 + (n % 10) as u8;
    s.push(digit as char);
    assert(s@ =~= old(s)@ + decimal(n as int));
}

/// Blanks that are cut off at both ends of a name.
pub open spec fn is_blank(c: char) -> bool {
    c == ' ' || '\x09' <= c <= '\x0d'
}

/// The text without the blanks at its end.
pub open spec fn trim_end(s: Seq<char>) -> Seq<char>
    decreases s.len(),
{
    if s.len() > 0 && is_blank(s.last()) {
        trim_end(s.drop_last())
    } else {
        s
    }
}

/// The text without the blanks at its start.
pub open spec fn trim_start(s: Seq<char>) -> Seq<char>
    decreases s.len(),
{
    if s.len() > 0 && is_blank(s[0]) {
        trim_start(s.drop_first())
    } else {
        s
    }
}

/// The text without the blanks at both ends.
pub open spec fn trim(s: Seq<char>) -> Seq<char> {
    trim_start(trim_end(s))
}

fn blank(c: char) -> (b: bool)
    ensures
        b == is_blank(c),
{
    c == ' ' || ('\x09' <= c && c <= '\x0d')
}

/// Cuts off the blanks at both ends.
pub fn trimmed(s: &Vec<char>) -> (t: Vec<char>)
    ensures
        t@ == trim(s@),
{
    let mut end: usize = s.len();
    assert(s@.take(end as int) =~= s@);
    while end > 0 && blank(s[end - 1])
        invariant
            end <= s@.len(),
            trim_end(s@) == trim_end(s@.take(end as int)),
        decreases end,
    {
        assert(s@.take(end as int).last() == s@[end - 1]);
        assert(s@.take(end as int).drop_last() =~= s@.take(end - 1));
        end = end - 1;
    }
    let ghost e = s@.take(end as int);
    assert(trim_end(s@) == e) by {
        if end > 0 {
            assert(e.last() == s@[end - 1]);
        }
    }
    let mut start: usize = 0;
    assert(e.skip(0) =~= e);
    while start < end && blank(s[start])
        invariant
            start <= end <= s@.len(),
            e == s@.take(end as int),
            trim_start(e) == trim_start(e.skip(start as int)),
        decreases end - start,
    {
        assert(e.skip(start as int)[0] == s@[start as int]);
        assert(e.skip(start as int).drop_first() =~= e.skip(start + 1));
        start = start + 1;
    }
    assert(trim_start(e) == e.skip(start as int)) by {
        if start < end {
            assert(e.skip(start as int)[0] == s@[start as int]);
        }
    }
    assert(e.skip(start as int) =~= s@.subrange(start as int, end as int));
    part(s, start, end)
}

/// Cuts off the blanks at the end.
pub fn trimmed_end(s: &Vec<char>) -> (t: Vec<char>)
    ensures
        t@ == trim_end(s@),
{
    let mut end: usize = s.len();
    assert(s@.take(end as int) =~= s@);
    while end > 0 && blank(s[end - 1])
        invariant
            end <= s@.len(),
            trim_end(s@) == trim_end(s@.take(end as int)),
        decreases end,
    {
        assert(s@.take(end as int).last() == s@[end - 1]);
        assert(s@.take(end as int).drop_last() =~= s@.take(end - 1));
        end = end - 1;
    }
    assert(end > 0 ==> s@.take(end as int).last() == s@[end - 1]);
    assert(s@.take(end as int) =~= s@.subrange(0, end as int));
    part(s, 0, end)
}

/// The characters with the given codes.
pub open spec fn latin(s: Seq<u8>) -> Seq<char> {
    Seq::new(s.len(), |i: int| s[i] as char)
}

/// The characters with the given codes.
pub fn latin_chars(s: &[u8]) -> (v: Vec<char>)
    ensures
        v@ == latin(s@),
{
    let mut v: Vec<char> = Vec::new();
    let mut i: usize = 0;
    while i < s.len()
        invariant
            i <= s@.len(),
            v@ =~= latin(s@).take(i as int),
        decreases s@.len() - i,
    {
        v.push(s[i] as char);
        i = i + 1;
    }
    assert(v@ =~= latin(s@));
    v
}

/// The index of the first `c` at or behind `from`, or the length of the text.
pub open spec fn find_from(s: Seq<char>, c: char, from: int) -> int
    decreases s.len() - from,
{
    if from < 0 || from >= s.len() || s[from] == c {
        from
    } else {
        find_from(s, c, from + 1)
    }
}

/// The index of the first `c`, if there is one.
pub open spec fn find(s: Seq<char>, c: char) -> Option<int> {
    let i = find_from(s, c, 0);
    if i < s.len() {
        Some(i)
    } else {
        None
    }
}

/// The index of the last `c`, if there is one.
pub open spec fn rfind(s: Seq<char>, c: char) -> Option<int>
    decreases s.len(),
{
    if s.len() == 0 {
        None
    } else if s.last() == c {
        Some(s.len() - 1)
    } else {
        rfind(s.drop_last(), c)
    }
}

/// Finds the first `c`.
pub fn find_char(s: &Vec<char>, c: char) -> (r: Option<usize>)
    ensures
        match r {
            Some(i) => i < s@.len() && find(s@, c) == Some(i as int) && s@[i as int] == c,
            None => find(s@, c) is None,
        },
{
    let mut i: usize = 0;
    while i < s.len() && s[i] != c
        invariant
            i <= s@.len(),
            find_from(s@, c, 0) == find_from(s@, c, i as int),
        decreases s@.len() - i,
    {
        i = i + 1;
    }
    if i < s.len() {
        Some(i)
    } else {
        None
    }
}

/// Finds the last `c`.
pub fn rfind_char(s: &Vec<char>, c: char) -> (r: Option<usize>)
    ensures
        match r {
            Some(i) => i < s@.len() && rfind(s@, c) == Some(i as int) && s@[i as int] == c,
            None => rfind(s@, c) is None,
        },
{
    let mut i: usize = s.len();
    assert(s@.take(i as int) =~= s@);
    while i > 0 && s[i - 1] != c
        invariant
            i <= s@.len(),
            rfind(s@, c) == rfind(s@.take(i as int), c),
        decreases i,
    {
        assert(s@.take(i as int).last() == s@[i - 1]);
        assert(s@.take(i as int).drop_last() =~= s@.take(i - 1));
        i = i - 1;
    }
    if i > 0 {
        assert(s@.take(i as int).last() == s@[i - 1]);
        Some(i - 1)
    } else {
        None
    }
}

/// An ASCII letter in upper case; any other character as it is.
pub open spec fn upper(c: char) -> char {
    if 'a' <= c <= 'z' {
        (c as int - 32) as char
    } else {
        c
    }
}

/// The text with its ASCII letters in upper case.
pub open spec fn upper_all(s: Seq<char>) -> Seq<char> {
    Seq::new(s.len(), |i: int| upper(s[i]))
}

/// Equality up to the case of ASCII letters.
pub open spec fn same_name(a: Seq<char>, b: Seq<char>) -> bool {
    upper_all(a) == upper_all(b)
}

/// A name is the same as its upper case.
pub proof fn lemma_upper_same(s: Seq<char>)
    ensures
        same_name(upper_all(s), s),
{
    assert(upper_all(upper_all(s)) =~= upper_all(s));
}

/// An ASCII letter in upper case.
pub fn to_upper(c: char) -> (u: char)
    ensures
        u == upper(c),
{
    if 'a' <= c && c <= 'z' {
        ((c as u8) - 32) as char
    } else {
        c
    }
}

/// Whether two names are equal up to the case of ASCII letters.
pub fn names_match(a: &Vec<char>, b: &Vec<char>) -> (r: bool)
    ensures
        r == same_name(a@, b@),
{
    if a.len() != b.len() {
        assert(upper_all(a@).len() != upper_all(b@).len());
        return false;
    }
    let mut i: usize = 0;
    while i < a.len()
        invariant
            i <= a@.len() == b@.len(),
            forall|k: int| 0 <= k < i ==> upper(#[trigger] a@[k]) == upper(b@[k]),
        decreases a@.len() - i,
    {
        if to_upper(a[i]) != to_upper(b[i]) {
            assert(upper_all(a@)[i as int] != upper_all(b@)[i as int]);
            return false;
        }
        i = i + 1;
    }
    assert(upper_all(a@) =~= upper_all(b@));
    true
}

/// The value of a list of decimal digits, or `None` if it is above `limit` or not all digits.
pub open spec fn number(s: Seq<char>, limit: int) -> Option<int>
    decreases s.len(),
{
    if s.len() == 0 {
        Some(0)
    } else {
        match number(s.drop_last(), limit) {
            None => None,
            Some(n) => if '0' <= s.last() <= '9' && 10 * n + (s.last() as int - 48) <= limit {
                Some(10 * n + (s.last() as int - 48))
            } else {
                None
            },
        }
    }
}

/// A CP/M user number: decimal digits, perhaps after a plus sign, with a value up to 31.
pub open spec fn user_number(s: Seq<char>) -> Option<int> {
    let digits = if s.len() > 0 && s[0] == '+' { s.skip(1) } else { s };
    if digits.len() == 0 {
        None
    } else {
        number(digits, 31)
    }
}

/// Reads a CP/M user number.
pub fn parse_user(s: &Vec<char>) -> (r: Option<u8>)
    ensures
        match r {
            Some(u) => u <= 31 && user_number(s@) == Some(u as int),
            None => user_number(s@) is None,
        },
{
    let start: usize = if s.len() > 0 && s[0] == '+' { 1 } else { 0 };
    let ghost digits = s@.skip(start as int);
    assert(start == 0 ==> digits =~= s@);
    if start == s.len() {
        return None;
    }
    let mut value: u16 = 0;
    let mut i: usize = start;
    assert(digits.take(0) =~= Seq::<char>::empty());
    while i < s.len()
        invariant
            start <= i <= s@.len(),
            start <= 1,
            digits == s@.skip(start as int),
            user_number(s@) == number(digits, 31),
            value <= 31,
            number(digits.take(i - start), 31) == Some(value as int),
        decreases s@.len() - i,
    {
        let c = s[i];
        assert(digits.take(i + 1 - start).drop_last() =~= digits.take(i - start));
        assert(digits.take(i + 1 - start).last() == c);
        if !('0' <= c && c <= '9') || 10 * value + ((c as u8) as u16 - 48) > 31 {
            proof {
                lemma_number_stops(digits, 31, i + 1 - start);
            }
            return None;
        }
        value = 10 * value + ((c as u8) as u16 - 48);
        i = i + 1;
    }
    assert(digits.take(digits.len() as int) =~= digits);
    Some(value as u8)
}

/// Text that does not start with a number is none.
proof fn lemma_number_stops(s: Seq<char>, limit: int, n: int)
    requires
        0 <= n <= s.len(),
        number(s.take(n), limit) is None,
    ensures
        number(s, limit) is None,
    decreases s.len() - n,
{
    if n == s.len() {
        assert(s.take(n) =~= s);
    } else {
        assert(s.take(n + 1).drop_last() =~= s.take(n));
        lemma_number_stops(s, limit, n + 1);
    }
}

}
