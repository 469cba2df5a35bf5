//! The LZW compression of old TeleDisk images: blocks of 12-bit codes, packed as
//! three half bytes each.

use crate::bytes;
use crate::error::{DskError, ErrorView};
use vstd::prelude::*;

verus! {

/// Half byte `p`, the low half of each byte first.
pub open spec fn nibble(data: Seq<u8>, p: int) -> int {
    if p % 2 == 0 {
        data[p / 2] as int % 16
    } else {
        data[p / 2] as int / 16
    }
}

/// The 12-bit code at half byte `pos` of a block of `length` half bytes.
pub open spec fn lzw_code(data: Seq<u8>, pos: int, length: int) -> Result<int, ErrorView> {
    if pos + 3 > length {
        Err(ErrorView::Parse { offset: pos, message: "Short TD0 LZW code"@ })
    } else if pos / 2 >= data.len() {
        Err(ErrorView::Parse { offset: pos, message: "Short TD0 LZW data"@ })
    } else if (pos + 1) / 2 >= data.len() {
        Err(ErrorView::Parse { offset: pos + 1, message: "Short TD0 LZW data"@ })
    } else if (pos + 2) / 2 >= data.len() {
        Err(ErrorView::Parse { offset: pos + 2, message: "Short TD0 LZW data"@ })
    } else {
        Ok(nibble(data, pos) + 16 * nibble(data, pos + 1) + 256 * nibble(data, pos + 2))
    }
}

/// The strings that the codes below 256 stand for.
pub open spec fn literals() -> Seq<Seq<u8>> {
    Seq::new(256, |c: int| seq![c as u8])
}

/// The output of a block from half byte `pos` on. `table` holds the string of each code
/// so far; each code after the first adds the string of the code before it, with the
/// first byte of its own string.
pub open spec fn lzw_from(
    data: Seq<u8>,
    length: int,
    pos: int,
    table: Seq<Seq<u8>>,
    previous: int,
    out: Seq<u8>,
) -> Result<Seq<u8>, ErrorView>
    decreases length - pos,
{
    if pos + 3 > length {
        Ok(out)
    } else {
        match lzw_code(data, pos, length) {
            Err(e) => Err(e),
            Ok(code) => if code > table.len() {
                Err(ErrorView::Parse { offset: 0, message: "Invalid TD0 LZW code"@ })
            } else {
                let s = if code < table.len() {
                    table[code]
                } else {
                    table[previous].push(table[previous][0])
                };
                let next = if table.len() < 4096 {
                    table.push(table[previous].push(s[0]))
                } else {
                    table
                };
                lzw_from(data, length, pos + 3, next, code, out + s)
            },
        }
    }
}

/// The output of a block of `length` half bytes.
pub open spec fn lzw_block(data: Seq<u8>, length: int) -> Result<Seq<u8>, ErrorView> {
    match lzw_code(data, 0, length) {
        Err(e) => Err(e),
        Ok(first) => if first > 255 {
            Err(ErrorView::Parse { offset: 0, message: "Invalid first TD0 LZW code"@ })
        } else {
            lzw_from(data, length, 3, literals(), first, seq![first as u8])
        },
    }
}

/// The output of a stream of blocks from offset `cursor` on, behind `out`. Each block
/// has a 16-bit header with its length in half bytes; length 0 ends the stream.
pub open spec fn lzw_stream(data: Seq<u8>, cursor: int, out: Seq<u8>) -> Result<Seq<u8>, ErrorView>
    decreases data.len() - cursor,
{
    if cursor >= data.len() {
        Ok(out)
    } else if data.len() - cursor < 2 {
        Err(ErrorView::Parse { offset: cursor, message: "Short TD0 LZW block header"@ })
    } else {
        let length = bytes::word_at(data, cursor);
        let size = (length + 1) / 2;
        if length == 0 {
            Ok(out)
        } else if cursor + 2 + size > data.len() {
            Err(ErrorView::Parse { offset: cursor + 2, message: "Short TD0 LZW block"@ })
        } else {
            match lzw_block(data.subrange(cursor + 2, cursor + 2 + size), length) {
                Err(e) => Err(e),
                Ok(s) => lzw_stream(data, cursor + 2 + size, out + s),
            }
        }
    }
}

/// The string of `code` in a dictionary of (shorter code, last byte) pairs.
pub open spec fn dictionary_string(dictionary: Seq<(u16, u8)>, code: int) -> Seq<u8>
    decreases code,
{
    if code < 256 || code - 256 >= dictionary.len() || dictionary[code - 256].0 >= code {
        seq![code as u8]
    } else {
        dictionary_string(dictionary, dictionary[code - 256].0 as int).push(
            dictionary[code - 256].1,
        )
    }
}

/// Every pair of the dictionary refers to an earlier code.
pub open spec fn dictionary_ok(dictionary: Seq<(u16, u8)>) -> bool {
    &&& dictionary.len() <= 3840
    &&& forall|i: int| 0 <= i < dictionary.len() ==> (#[trigger] dictionary[i]).0 < 256 + i
}

/// The dictionary gives every code the string that the table gives it.
spec fn agrees(dictionary: Seq<(u16, u8)>, table: Seq<Seq<u8>>) -> bool {
    &&& dictionary_ok(dictionary)
    &&& table.len() == 256 + dictionary.len()
    &&& forall|c: int| 0 <= c < table.len() ==> #[trigger] table[c] == dictionary_string(dictionary, c)
    &&& forall|c: int| 0 <= c < table.len() ==> (#[trigger] table[c]).len() > 0
}

proof fn lemma_string_push(dictionary: Seq<(u16, u8)>, entry: (u16, u8), code: int)
    requires
        dictionary_ok(dictionary),
        0 <= code < 256 + dictionary.len(),
    ensures
        dictionary_string(dictionary.push(entry), code) == dictionary_string(dictionary, code),
    decreases code,
{
    if code >= 256 {
        assert(dictionary.push(entry)[code - 256] == dictionary[code - 256]);
        assert(dictionary[code - 256].0 < code);
        lemma_string_push(dictionary, entry, dictionary[code - 256].0 as int);
    }
}

/// Reads the 12-bit code at `nibble_pos` and moves past it.
fn next_lzw_code(data: &[u8], nibble_pos: &mut usize, nibble_length: usize) -> (r: Result<u16, DskError>)
    requires
        *old(nibble_pos) <= nibble_length,
    ensures
        match r {
            Ok(code) => {
                &&& lzw_code(data@, *old(nibble_pos) as int, nibble_length as int) == Ok::<int, ErrorView>(code as int)
                &&& *final(nibble_pos) == *old(nibble_pos) + 3
                &&& code < 4096
            },
            Err(e) => {
                &&& lzw_code(data@, *old(nibble_pos) as int, nibble_length as int) == Err::<int, ErrorView>(e@)
                &&& *final(nibble_pos) == *old(nibble_pos)
            },
        },
{
    let start: usize = *nibble_pos;
    if nibble_length - start < 3 {
        return Err(DskError::parse(start, "Short TD0 LZW code"));
    }
    let mut code: u16 = 0;
    let mut unit: u16 = 1;
    let mut shift: usize = 0;
    while shift < 3
        invariant
            shift <= 3,
            start == *old(nibble_pos),
            *nibble_pos == start,
            start + 3 <= nibble_length,
            shift == 0 ==> unit == 1 && code == 0,
            shift == 1 ==> unit == 16 && code == nibble(data@, start as int),
            shift == 2 ==> unit == 256 && code == nibble(data@, start as int) + 16 * nibble(data@, start + 1),
            shift == 3 ==> code == nibble(data@, start as int) + 16 * nibble(data@, start + 1) + 256 * nibble(data@, start + 2),
            forall|k: int| 0 <= k < shift ==> #[trigger] ((start + k) / 2) < data@.len(),
        decreases 3 - shift,
    {
        assert(shift > 0 ==> (start + 0) / 2 < data@.len());
        assert(shift > 1 ==> (start + 1) / 2 < data@.len());
        let position: usize = start + shift;
        if position / 2 >= data.len() {
            return Err(DskError::parse(position, "Short TD0 LZW data"));
        }
        let byte = data[position / 2];
        let half: u8 = if position % 2 == 0 { byte % 16 } else { byte / 16 };
        assert(half == nibble(data@, position as int));
        assert(half < 16);
        assert(unit * half <= 256 * 15) by (nonlinear_arith)
            requires
                unit <= 256,
                half <= 15,
        ;
        assert(shift == 0 ==> unit * half == half);
        assert(shift == 1 ==> unit * half == 16 * half);
        assert(shift == 2 ==> unit * half == 256 * half);
        code = code + unit * half as u16;
        if shift < 2 {
            unit = unit * 16;
        }
        shift = shift + 1;
    }
    assert((start + 0) / 2 < data@.len());
    assert((start + 1) / 2 < data@.len());
    assert((start + 2) / 2 < data@.len());
    *nibble_pos = start + 3;
    Ok(code)
}

/// Spells out the string of `code`.
fn expand_lzw_code(code: u16, dictionary: &Vec<(u16, u8)>) -> (r: Result<Vec<u8>, DskError>)
    requires
        dictionary_ok(dictionary@),
    ensures
        match r {
            Ok(s) => code < 256 + dictionary@.len() && s@ == dictionary_string(dictionary@, code as int),
            Err(e) => {
                &&& code >= 256 + dictionary@.len()
                &&& e@ == (ErrorView::Parse { offset: 0, message: "Invalid TD0 LZW dictionary reference"@ })
            },
        },
{
    let mut current: u16 = code;
    let mut reversed: Vec<u8> = Vec::new();
    while current >= 256
        invariant
            dictionary_ok(dictionary@),
            current == code || code < 256 + dictionary@.len(),
            current <= code,
            dictionary_string(dictionary@, code as int) =~= dictionary_string(dictionary@, current as int) + reversed@.reverse(),
        decreases current,
    {
        let index: usize = (current - 256) as usize;
        if index >= dictionary.len() {
            return Err(DskError::parse(0, "Invalid TD0 LZW dictionary reference"));
        }
        assert(dictionary@[index as int].0 < 256 + index);
        let ghost before = reversed@;
        let ghost old_code = current as int;
        reversed.push(dictionary[index].1);
        current = dictionary[index].0;
        assert(reversed@.reverse() =~= seq![dictionary@[index as int].1] + before.reverse());
        assert(dictionary_string(dictionary@, old_code) == dictionary_string(dictionary@, current as int).push(
            dictionary@[index as int].1,
        ));
    }
    let ghost before = reversed@;
    reversed.push(current as u8);
    assert(reversed@.reverse() =~= seq![current as u8] + before.reverse());
    let mut result: Vec<u8> = Vec::new();
    let mut i: usize = reversed.len();
    while i > 0
        invariant
            i <= reversed@.len(),
            result@.len() == reversed@.len() - i,
            forall|k: int| 0 <= k < result@.len() ==> #[trigger] result@[k] == reversed@[reversed@.len() - 1 - k],
        decreases i,
    {
        i = i - 1;
        result.push(reversed[i]);
    }
    assert(result@ =~= reversed@.reverse());
    Ok(result)
}

/// Decompresses a block of `nibble_length` half bytes.
pub fn decode_lzw_block(data: &[u8], nibble_length: usize) -> (r: Result<Vec<u8>, DskError>)
    ensures
        match r {
            Ok(out) => lzw_block(data@, nibble_length as int) == Ok::<Seq<u8>, ErrorView>(out@),
            Err(e) => lzw_block(data@, nibble_length as int) == Err::<Seq<u8>, ErrorView>(e@),
        },
{
    let mut nibble_pos: usize = 0;
    let mut dictionary: Vec<(u16, u8)> = Vec::with_capacity(3840);
    let ghost mut table = literals();
    let first = match next_lzw_code(data, &mut nibble_pos, nibble_length) {
        Ok(first) => first,
        Err(e) => {
            return Err(e);
        },
    };
    if first > 255 {
        return Err(DskError::parse(0, "Invalid first TD0 LZW code"));
    }
    let mut output: Vec<u8> = vec![first as u8];
    assert(output@ =~= seq![first as u8]);
    let mut previous: u16 = first;
    while nibble_length - nibble_pos >= 3
        invariant
            nibble_pos <= nibble_length,
            agrees(dictionary@, table),
            previous < table.len(),
            lzw_block(data@, nibble_length as int) == lzw_from(
                data@,
                nibble_length as int,
                nibble_pos as int,
                table,
                previous as int,
                output@,
            ),
        decreases nibble_length - nibble_pos,
    {
        let code = match next_lzw_code(data, &mut nibble_pos, nibble_length) {
            Ok(code) => code,
            Err(e) => {
                return Err(e);
            },
        };
        let known: usize = 256 + dictionary.len();
        assert(table[previous as int].len() > 0);
        let sequence: Vec<u8> = if (code as usize) < known {
            match expand_lzw_code(code, &dictionary) {
                Ok(s) => s,
                Err(e) => {
                    return Err(e);
                },
            }
        } else if code as usize == known {
            match expand_lzw_code(previous, &dictionary) {
                Ok(s) => {
                    let mut s = s;
                    let first_byte = s[0];
                    s.push(first_byte);
                    s
                },
                Err(e) => {
                    return Err(e);
                },
            }
        } else {
            return Err(DskError::parse(0, "Invalid TD0 LZW code"));
        };
        let ghost s = if code < table.len() {
            table[code as int]
        } else {
            table[previous as int].push(table[previous as int][0])
        };
        assert(sequence@ == s);
        let first_byte = sequence[0];
        let ghost before = output@;
        output.extend_from_slice(sequence.as_slice());
        assert(output@ =~= before + s);
        if known < 4096 {
            let ghost old_dictionary = dictionary@;
            let ghost entry = (previous, first_byte);
            dictionary.push((previous, first_byte));
            proof {
                let next = table.push(table[previous as int].push(s[0]));
                assert forall|c: int| 0 <= c < next.len() implies #[trigger] next[c] == dictionary_string(dictionary@, c) by {
                    if c < table.len() {
                        lemma_string_push(old_dictionary, entry, c);
                        assert(table[c] == dictionary_string(old_dictionary, c));
                    } else {
                        lemma_string_push(old_dictionary, entry, previous as int);
                        assert(dictionary@[c - 256] == entry);
                    }
                }
                assert forall|c: int| 0 <= c < next.len() implies (#[trigger] next[c]).len() > 0 by {
                    if c < table.len() {
                        assert(table[c].len() > 0);
                    }
                }
                table = next;
            }
        }
        previous = code;
    }
    Ok(output)
}

/// Decompresses a stream of LZW blocks.
pub fn decode_lzw_stream(data: &[u8]) -> (r: Result<Vec<u8>, DskError>)
    ensures
        match r {
            Ok(out) => lzw_stream(data@, 0, Seq::empty()) == Ok::<Seq<u8>, ErrorView>(out@),
            Err(e) => lzw_stream(data@, 0, Seq::empty()) == Err::<Seq<u8>, ErrorView>(e@),
        },
{
    let mut output: Vec<u8> = Vec::new();
    let mut cursor: usize = 0;
    while cursor < data.len()
        invariant
            cursor <= data@.len(),
            lzw_stream(data@, 0, Seq::empty()) == lzw_stream(data@, cursor as int, output@),
        decreases data@.len() - cursor,
    {
        if data.len() - cursor < 2 {
            return Err(DskError::parse(cursor, "Short TD0 LZW block header"));
        }
        let length: usize = bytes::make_word(data[cursor], data[cursor + 1]) as usize;
        let start: usize = cursor + 2;
        if length == 0 {
            return Ok(output);
        }
        let size: usize = (length + 1) / 2;
        if data.len() - start < size {
            return Err(DskError::parse(start, "Short TD0 LZW block"));
        }
        let block = vstd::slice::slice_subrange(data, start, start + size);
        match decode_lzw_block(block, length) {
            Err(e) => {
                return Err(e);
            },
            Ok(s) => {
                let ghost before = output@;
                output.extend_from_slice(s.as_slice());
                assert(output@ =~= before + s@);
            },
        }
        cursor = start + size;
    }
    Ok(output)
}

}
