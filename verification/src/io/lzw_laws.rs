//! Laws of LZW: what the codes of a block stand for, whoever packed them.

use crate::bytes;
use crate::error::ErrorView;
use crate::io::lzw;
use vstd::prelude::*;

verus! {

/// Code `j` of a block: twelve bits each, low bits first, two codes in three bytes.
pub open spec fn packed_code(data: Seq<u8>, j: int) -> int {
    if j % 2 == 0 {
        data[3 * (j / 2)] + 256 * (data[3 * (j / 2) + 1] % 16)
    } else {
        data[3 * (j / 2) + 1] / 16 + 16 * data[3 * (j / 2) + 2]
    }
}

/// Whether phrase `j` of a text is what its code stands for: a byte, or an earlier phrase with
/// the first byte of the phrase behind that one.
pub open spec fn stands_for(data: Seq<u8>, phrases: Seq<Seq<u8>>, j: int) -> bool {
    let c = packed_code(data, j);
    if c < 256 {
        phrases[j] == seq![c as u8]
    } else {
        c - 256 < j && phrases[j] == phrases[c - 256].push(phrases[c - 255][0])
    }
}

/// The first `n` phrases, one behind the other.
pub open spec fn joined(phrases: Seq<Seq<u8>>, n: int) -> Seq<u8>
    decreases n,
{
    if n <= 0 {
        Seq::empty()
    } else {
        joined(phrases, n - 1) + phrases[n - 1]
    }
}

/// Whether every code is a byte or names a phrase that was read before it.
pub open spec fn in_order(data: Seq<u8>, n: int) -> bool {
    forall|j: int| 0 <= j < n ==> #[trigger] packed_code(data, j) < 256 + j
}

/// The strings of all codes once `j` phrases have been read.
spec fn table_at(phrases: Seq<Seq<u8>>, j: int) -> Seq<Seq<u8>> {
    let n = if j - 1 < 3840 { j - 1 } else { 3840 };
    Seq::new((256 + n) as nat, |c: int| if c < 256 { seq![c as u8] } else { phrases[c - 256].push(phrases[c - 255][0]) })
}

/// A code is read as it is packed.
proof fn lemma_code(data: Seq<u8>, length: int, j: int)
    requires
        0 <= j,
        3 * j + 3 <= length,
        3 * j + 3 <= 2 * data.len(),
    ensures
        lzw::lzw_code(data, 3 * j, length) == Ok::<int, ErrorView>(packed_code(data, j)),
        0 <= packed_code(data, j) < 4096,
{
    let q = j / 2;
    if j % 2 == 0 {
        assert(3 * j == 6 * q);
        assert((6 * q) / 2 == 3 * q && (6 * q + 1) / 2 == 3 * q && (6 * q + 2) / 2 == 3 * q + 1);
        assert((6 * q) % 2 == 0 && (6 * q + 1) % 2 == 1 && (6 * q + 2) % 2 == 0);
    } else {
        assert(3 * j == 6 * q + 3);
        assert((6 * q + 3) / 2 == 3 * q + 1 && (6 * q + 4) / 2 == 3 * q + 2 && (6 * q + 5) / 2 == 3 * q + 2);
        assert((6 * q + 3) % 2 == 1 && (6 * q + 4) % 2 == 0 && (6 * q + 5) % 2 == 1);
    }
}

/// No phrase is empty.
proof fn lemma_phrase(data: Seq<u8>, phrases: Seq<Seq<u8>>, n: int, j: int)
    requires
        0 <= j < n <= phrases.len(),
        forall|i: int| 0 <= i < n ==> #[trigger] stands_for(data, phrases, i),
    ensures
        phrases[j].len() > 0,
{
    assert(stands_for(data, phrases, j));
}

/// What has been unpacked after `n` codes.
proof fn lemma_prefix(data: Seq<u8>, length: int, phrases: Seq<Seq<u8>>, n: int)
    requires
        1 <= n <= phrases.len(),
        3 * n <= length,
        3 * n <= 2 * data.len(),
        forall|j: int| 0 <= j < n ==> #[trigger] stands_for(data, phrases, j),
    ensures
        lzw::lzw_block(data, length) == lzw::lzw_from(
            data,
            length,
            3 * n,
            table_at(phrases, n),
            packed_code(data, n - 1),
            joined(phrases, n),
        ),
        0 <= packed_code(data, n - 1) < table_at(phrases, n).len(),
        table_at(phrases, n)[packed_code(data, n - 1)] == phrases[n - 1],
    decreases n,
{
    lemma_code(data, length, n - 1);
    assert(stands_for(data, phrases, n - 1));
    let code = packed_code(data, n - 1);
    if n == 1 {
        assert(table_at(phrases, 1) =~= lzw::literals());
        assert(joined(phrases, 1) =~= phrases[0]) by {
            assert(joined(phrases, 0) =~= Seq::<u8>::empty());
        }
    } else {
        let j = n - 1;
        lemma_prefix(data, length, phrases, j);
        lemma_phrase(data, phrases, n, j);
        lemma_phrase(data, phrases, n, j - 1);
        let table = table_at(phrases, j);
        let previous = packed_code(data, j - 1);
        let s = phrases[j];
        if code < table.len() {
            if code >= 256 {
                assert(table[code] == phrases[code - 256].push(phrases[code - 255][0]));
            }
            assert(table[code] == s);
        } else {
            assert(code == 256 + j - 1);
            assert(s == phrases[j - 1].push(phrases[j][0]));
            assert(s[0] == phrases[j - 1][0]);
        }
        if table.len() < 4096 {
            assert(table_at(phrases, n) =~= table.push(phrases[j - 1].push(s[0])));
        } else {
            assert(table_at(phrases, n) =~= table);
        }
    }
}

/// A block of codes unpacks to the phrases that the codes stand for, whatever the packer was: a
/// phrase is a byte, or an earlier phrase and the first byte of the next. That next phrase may
/// be the very one that is read.
pub proof fn law_block_spells_phrases(data: Seq<u8>, length: int, phrases: Seq<Seq<u8>>)
    requires
        phrases.len() >= 1,
        3 * phrases.len() <= length < 3 * phrases.len() + 3,
        3 * phrases.len() <= 2 * data.len(),
        forall|j: int| 0 <= j < phrases.len() ==> #[trigger] stands_for(data, phrases, j),
    ensures
        lzw::lzw_block(data, length) == Ok::<Seq<u8>, ErrorView>(joined(phrases, phrases.len() as int)),
{
    lemma_prefix(data, length, phrases, phrases.len() as int);
}

/// The phrases of codes that are in order.
proof fn lemma_phrases(data: Seq<u8>, n: int) -> (phrases: Seq<Seq<u8>>)
    requires
        0 <= n,
        3 * n <= 2 * data.len(),
        in_order(data, n),
    ensures
        phrases.len() == n,
        forall|j: int| 0 <= j < n ==> #[trigger] stands_for(data, phrases, j),
    decreases n,
{
    if n <= 0 {
        Seq::empty()
    } else {
        let rest = lemma_phrases(data, n - 1);
        let j = n - 1;
        let c = packed_code(data, j);
        lemma_code(data, 3 * n, j);
        assert(c < 256 + j);
        let s = if c < 256 {
            seq![c as u8]
        } else if c - 255 < j {
            rest[c - 256].push(rest[c - 255][0])
        } else {
            rest[j - 1].push(rest[j - 1][0])
        };
        let all = rest.push(s);
        if j > 0 {
            lemma_phrase(data, rest, j, j - 1);
        }
        assert forall|i: int| 0 <= i < n implies #[trigger] stands_for(data, all, i) by {
            if i < j {
                assert(stands_for(data, rest, i));
                let d = packed_code(data, i);
                lemma_code(data, 3 * n, i);
                if d >= 256 {
                    assert(all[d - 256] == rest[d - 256] && all[d - 255] == rest[d - 255]);
                }
                assert(all[i] == rest[i]);
            }
        }
        all
    }
}

/// A block can be unpacked exactly if each of its codes is a byte or names a phrase that was read
/// before it; and it then has such phrases.
pub proof fn law_block_accepts_codes_in_order(data: Seq<u8>, length: int)
    requires
        3 <= length,
        length <= 2 * data.len(),
    ensures
        lzw::lzw_block(data, length) is Ok <==> in_order(data, length / 3),
        lzw::lzw_block(data, length) matches Ok(out) ==> exists|phrases: Seq<Seq<u8>>| #[trigger]
            phrases.len() == length / 3 && out == joined(phrases, length / 3) && forall|j: int|
                0 <= j < length / 3 ==> #[trigger] stands_for(data, phrases, j),
{
    let n = length / 3;
    if in_order(data, n) {
        let phrases = lemma_phrases(data, n);
        law_block_spells_phrases(data, length, phrases);
    } else {
        let j = choose|j: int| 0 <= j < n && #[trigger] packed_code(data, j) >= 256 + j;
        lemma_bad_code(data, length, n, j);
    }
}

/// A stream is read from its start as from behind a part that is left out.
proof fn lemma_stream_shift(data: Seq<u8>, from: int, cursor: int, before: Seq<u8>, out: Seq<u8>)
    requires
        0 <= from <= data.len(),
        0 <= cursor,
    ensures
        lzw::lzw_stream(data.skip(from), cursor, out) matches Ok(s) ==> lzw::lzw_stream(data, from + cursor, before + out) == Ok::<
            Seq<u8>,
            ErrorView,
        >(before + s),
    decreases data.len() - from - cursor,
{
    let rest = data.skip(from);
    if cursor < rest.len() && rest.len() - cursor >= 2 {
        assert(rest[cursor] == data[from + cursor] && rest[cursor + 1] == data[from + cursor + 1]);
        let length = bytes::word_at(rest, cursor);
        let size = (length + 1) / 2;
        if length != 0 && cursor + 2 + size <= rest.len() {
            assert(rest.subrange(cursor + 2, cursor + 2 + size) =~= data.subrange(
                from + cursor + 2,
                from + cursor + 2 + size,
            ));
            if let Ok(s) = lzw::lzw_block(rest.subrange(cursor + 2, cursor + 2 + size), length) {
                assert(before + (out + s) =~= (before + out) + s);
                lemma_stream_shift(data, from, cursor + 2 + size, before, out + s);
            }
        }
    }
}

/// A stream is its blocks, each behind the number of its half bytes in two bytes, low byte first:
/// what the first block holds comes first, and what the others hold comes behind it.
pub proof fn law_stream_joins_blocks(low: u8, high: u8, block: Seq<u8>, rest: Seq<u8>, first: Seq<u8>, others: Seq<u8>)
    requires
        0 < low + 256 * high,
        block.len() == (low + 256 * high + 1) / 2,
        lzw::lzw_block(block, low + 256 * high) == Ok::<Seq<u8>, ErrorView>(first),
        lzw::lzw_stream(rest, 0, Seq::empty()) == Ok::<Seq<u8>, ErrorView>(others),
    ensures
        lzw::lzw_stream(seq![low, high] + block + rest, 0, Seq::empty()) == Ok::<Seq<u8>, ErrorView>(first + others),
{
    let data = seq![low, high] + block + rest;
    let from = 2 + block.len() as int;
    assert(data.subrange(2, from) =~= block);
    assert(data.skip(from) =~= rest);
    assert(data[0] == low && data[1] == high);
    assert(Seq::<u8>::empty() + first =~= first);
    assert(first + Seq::<u8>::empty() =~= first);
    lemma_stream_shift(data, from, 0, first, Seq::empty());
}

/// A stream ends with its last byte, or with a block of no half bytes, whatever follows.
pub proof fn law_stream_ends(rest: Seq<u8>)
    ensures
        lzw::lzw_stream(Seq::empty(), 0, Seq::empty()) == Ok::<Seq<u8>, ErrorView>(Seq::empty()),
        lzw::lzw_stream(seq![0u8, 0u8] + rest, 0, Seq::empty()) == Ok::<Seq<u8>, ErrorView>(Seq::empty()),
{
    let data = seq![0u8, 0u8] + rest;
    assert(data[0] == 0 && data[1] == 0);
}

/// A block with fewer half bytes than one code has, or with less data than its codes take, is refused.
pub proof fn law_short_blocks_are_refused(data: Seq<u8>, length: int)
    requires
        length < 3 || 3 * (length / 3) > 2 * data.len(),
    ensures
        lzw::lzw_block(data, length) is Err,
{
    if length >= 3 {
        lemma_short_block(data, length, 2 * data.len() as int / 3);
    }
}

/// Where the data of a block ends before its codes.
proof fn lemma_short_block(data: Seq<u8>, length: int, n: int)
    requires
        3 <= length,
        n == 2 * data.len() / 3,
        n < length / 3,
    ensures
        lzw::lzw_block(data, length) is Err,
{
    if in_order(data, n) {
        if n > 0 {
            let phrases = lemma_phrases(data, n);
            lemma_prefix(data, length, phrases, n);
        }
    } else {
        let j = choose|j: int| 0 <= j < n && #[trigger] packed_code(data, j) >= 256 + j;
        lemma_bad_code(data, length, n, j);
    }
}

/// A code that names a phrase that is still to come stops the unpacking.
proof fn lemma_bad_code(data: Seq<u8>, length: int, n: int, j: int)
    requires
        0 <= j < n,
        3 * n <= length,
        3 * n <= 2 * data.len(),
        packed_code(data, j) >= 256 + j,
    ensures
        lzw::lzw_block(data, length) is Err,
    decreases j,
{
    if !in_order(data, j) {
        let i = choose|i: int| 0 <= i < j && #[trigger] packed_code(data, i) >= 256 + i;
        lemma_bad_code(data, length, n, i);
    } else {
        lemma_code(data, length, j);
        if j > 0 {
            let phrases = lemma_phrases(data, j);
            lemma_prefix(data, length, phrases, j);
        }
    }
}

/// A stream is refused that ends within the length of a block or within a block, or that has a
/// block that cannot be unpacked.
pub proof fn law_bad_streams_are_refused(low: u8, high: u8, rest: Seq<u8>)
    requires
        0 < low + 256 * high,
        rest.len() < (low + 256 * high + 1) / 2 || lzw::lzw_block(
            rest.take((low + 256 * high + 1) / 2),
            low + 256 * high,
        ) is Err,
    ensures
        lzw::lzw_stream(seq![low, high] + rest, 0, Seq::empty()) is Err,
        lzw::lzw_stream(seq![low], 0, Seq::empty()) is Err,
{
    let data = seq![low, high] + rest;
    let size = (low + 256 * high + 1) / 2;
    assert(data[0] == low && data[1] == high);
    if rest.len() >= size {
        assert(data.subrange(2, 2 + size) =~= rest.take(size));
    }
}

}
