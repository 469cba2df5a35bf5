//! Laws of LZHUF: what the bits of a stream stand for, whoever packed them.

use crate::error::ErrorView;
use crate::io::huffman::TreeView;
use crate::io::lzhuf;
use vstd::prelude::*;

verus! {

/// A match adds bytes one by one, each the same as the byte `distance` places before it; before
/// the start of the output there are only spaces.
pub proof fn law_match_repeats(out: Seq<u8>, distance: int, n: int)
    requires
        1 <= distance,
        0 <= n,
        out.len() + n <= lzhuf::MAX_OUTPUT,
    ensures
        ({
            let all = lzhuf::repeat_back(out, distance, n);
            &&& all.len() == out.len() + n
            &&& all.take(out.len() as int) == out
            &&& forall|i: int|
                out.len() <= i < all.len() ==> #[trigger] all[i] == (if i < distance { 0x20 } else { all[i - distance] })
        }),
    decreases n,
{
    let all = lzhuf::repeat_back(out, distance, n);
    if n > 0 {
        let more = out.push(lzhuf::byte_back(out, distance));
        law_match_repeats(more, distance, n - 1);
        assert forall|i: int| 0 <= i < more.len() implies all[i] == more[i] by {
            assert(all.take(more.len() as int)[i] == all[i]);
        }
        assert(all.take(out.len() as int) =~= out);
        let k = out.len() as int;
        assert(all[k] == (if k < distance { 0x20 } else { all[k - distance] }));
    } else {
        assert(all.take(out.len() as int) =~= out);
    }
}

/// The bits of a byte are read from the high bit down.
proof fn lemma_byte_bits(b: u8)
    ensures
        128 * ((b >> 7u8) & 1u8) + 64 * ((b >> 6u8) & 1u8) + 32 * ((b >> 5u8) & 1u8) + 16 * ((b >> 4u8) & 1u8) + 8 * ((b
            >> 3u8) & 1u8) + 4 * ((b >> 2u8) & 1u8) + 2 * ((b >> 1u8) & 1u8) + ((b >> 0u8) & 1u8) == b,
{
    assert(128 * ((b >> 7u8) & 1u8) + 64 * ((b >> 6u8) & 1u8) + 32 * ((b >> 5u8) & 1u8) + 16 * ((b >> 4u8) & 1u8) + 8 * ((b
        >> 3u8) & 1u8) + 4 * ((b >> 2u8) & 1u8) + 2 * ((b >> 1u8) & 1u8) + ((b >> 0u8) & 1u8) == b) by (bit_vector);
}

/// The eight bits from the start of a byte on are that byte.
pub proof fn law_bytes_are_read_high_bit_first(data: Seq<u8>, i: int)
    requires
        0 <= i < data.len(),
    ensures
        lzhuf::bits_at(data, 8 * i, 8, 0) == Some(data[i] as int),
{
    let p = 8 * i;
    reveal_with_fuel(lzhuf::bits_at, 9);
    assert(p / 8 == i && (p + 1) / 8 == i && (p + 2) / 8 == i && (p + 3) / 8 == i && (p + 4) / 8 == i && (p + 5) / 8 == i
        && (p + 6) / 8 == i && (p + 7) / 8 == i);
    assert(p % 8 == 0 && (p + 1) % 8 == 1 && (p + 2) % 8 == 2 && (p + 3) % 8 == 3 && (p + 4) % 8 == 4 && (p + 5) % 8 == 5
        && (p + 6) % 8 == 6 && (p + 7) % 8 == 7);
    lemma_byte_bits(data[i]);
}

/// Bits can be read in two parts.
proof fn lemma_bits_join(data: Seq<u8>, p: int, m: int, n: int, acc: int)
    requires
        0 <= m,
        0 <= n,
    ensures
        lzhuf::bits_at(data, p, m + n, acc) == (match lzhuf::bits_at(data, p, m, acc) {
            None => None,
            Some(first) => lzhuf::bits_at(data, p + m, n, first),
        }),
    decreases m,
{
    if m > 0 && 0 <= p < 8 * data.len() {
        lemma_bits_join(data, p + 1, m - 1, n, 2 * acc + lzhuf::bit_at(data, p));
    }
}

/// Two to a power up to six.
pub open spec fn two_to(n: int) -> int {
    if n <= 0 {
        1
    } else if n == 1 {
        2
    } else if n == 2 {
        4
    } else if n == 3 {
        8
    } else if n == 4 {
        16
    } else if n == 5 {
        32
    } else {
        64
    }
}

/// A bit is 0 or 1.
proof fn lemma_bit(data: Seq<u8>, p: int)
    ensures
        lzhuf::bit_at(data, p) == 0 || lzhuf::bit_at(data, p) == 1,
{
    let b = data[p / 8];
    let s = (7 - p % 8) as u8;
    assert((b >> s) & 1u8 == 0u8 || (b >> s) & 1u8 == 1u8) by (bit_vector);
}

/// More bits only add low digits.
proof fn lemma_bits_high(data: Seq<u8>, p: int, n: int, acc: int)
    requires
        0 <= n <= 6,
        0 <= acc,
    ensures
        lzhuf::bits_at(data, p, n, acc) matches Some(v) ==> v / two_to(n) == acc && v >= 0,
    decreases n,
{
    if n > 0 && 0 <= p < 8 * data.len() {
        let b = lzhuf::bit_at(data, p);
        lemma_bit(data, p);
        lemma_bits_high(data, p + 1, n - 1, 2 * acc + b);
        if let Some(v) = lzhuf::bits_at(data, p, n, acc) {
            assert(v / two_to(n - 1) == 2 * acc + b);
            assert(two_to(n) == 2 * two_to(n - 1));
            assert((v / two_to(n - 1)) / 2 == acc);
            vstd::arithmetic::div_mod::lemma_div_denominator(v, two_to(n - 1), 2);
            assert(two_to(n - 1) * 2 == two_to(n));
        }
    }
}

/// The number of bits in the code for the upper six bits of a position: nearer positions have
/// shorter codes.
pub open spec fn code_length(upper: int) -> int {
    if upper < 1 {
        3
    } else if upper < 4 {
        4
    } else if upper < 12 {
        5
    } else if upper < 24 {
        6
    } else if upper < 48 {
        7
    } else {
        8
    }
}

/// The codes follow each other: each starts, as a fraction of 256, where the one before it ends.
pub open spec fn code_start(upper: int) -> int
    decreases upper,
{
    if upper <= 0 {
        0
    } else {
        code_start(upper - 1) + two_to(8 - code_length(upper - 1))
    }
}

/// Where codes start.
proof fn lemma_code_start(upper: int)
    requires
        0 <= upper < 64,
    ensures
        code_start(upper) == (if upper < 1 {
            0
        } else if upper < 4 {
            0x20 + 16 * (upper - 1)
        } else if upper < 12 {
            0x50 + 8 * (upper - 4)
        } else if upper < 24 {
            0x90 + 4 * (upper - 12)
        } else if upper < 48 {
            0xC0 + 2 * (upper - 24)
        } else {
            0xF0 + (upper - 48)
        }),
    decreases upper,
{
    if upper > 0 {
        lemma_code_start(upper - 1);
    }
}

/// The position of a match is a code for its upper six bits and then the lower six as they are.
/// The codes are those of 3 to 8 bits in ascending order, as long as `code_length` says.
pub proof fn law_position_is_read(data: Seq<u8>, p: int, upper: int, lower: int)
    requires
        0 <= upper < 64,
        0 <= lower < 64,
        lzhuf::bits_at(data, p, code_length(upper) + 6, 0) == Some(
            code_start(upper) / two_to(8 - code_length(upper)) * 64 + lower,
        ),
    ensures
        lzhuf::position_at(data, p) == Some((64 * upper + lower, p + code_length(upper) + 6)),
{
    let l = code_length(upper);
    let v = code_start(upper) / two_to(8 - l) * 64 + lower;
    lemma_code_start(upper);
    lemma_bits_join(data, p, 8, l - 2, 0);
    let first = lzhuf::bits_at(data, p, 8, 0)->Some_0;
    lemma_bits_positive(data, p, 8, 0);
    lemma_bits_high(data, p + 8, l - 2, first);
    assert(v / two_to(l - 2) == first);
    assert(v % 64 == lower);
}

/// Bits make up numbers that are not negative.
proof fn lemma_bits_positive(data: Seq<u8>, p: int, n: int, acc: int)
    requires
        0 <= acc,
    ensures
        lzhuf::bits_at(data, p, n, acc) matches Some(v) ==> v >= 0,
    decreases n,
{
    if n > 0 && 0 <= p < 8 * data.len() {
        lemma_bit(data, p);
        lemma_bits_positive(data, p + 1, n - 1, 2 * acc + lzhuf::bit_at(data, p));
    }
}

/// Whether `nodes` is the way from `nodes[0]` down to a leaf that the bits from `p` on show: a bit
/// that is 0 leads to the first of two children, one that is 1 to the second.
pub open spec fn way_down(t: TreeView, data: Seq<u8>, p: int, nodes: Seq<int>) -> bool {
    &&& nodes.len() > 0
    &&& 0 <= p
    &&& p + nodes.len() - 1 <= 8 * data.len()
    &&& nodes.last() >= 627
    &&& forall|k: int| 0 <= k < nodes.len() - 1 ==> #[trigger] nodes[k] < 627
    &&& forall|k: int|
        0 <= k < nodes.len() - 1 ==> nodes[k + 1] == t.son[#[trigger] nodes[k] + (if lzhuf::bit_at(data, p + k) == 0 { 0int } else { 1 })]
}

/// A code is the leaf that its bits lead to.
pub proof fn law_bits_lead_to_a_leaf(t: TreeView, data: Seq<u8>, p: int, nodes: Seq<int>)
    requires
        way_down(t, data, p, nodes),
    ensures
        lzhuf::code_at(t, data, nodes[0], p) == Some((nodes.last() - 627, p + nodes.len() - 1)),
    decreases nodes.len(),
{
    if nodes.len() > 1 {
        let rest = nodes.drop_first();
        lemma_bit(data, p);
        assert(nodes[0] < 627);
        assert(nodes[1] == t.son[nodes[0] + lzhuf::bit_at(data, p + 0)]);
        assert forall|k: int| 0 <= k < rest.len() - 1 implies #[trigger] rest[k] < 627 && rest[k + 1] == t.son[rest[k] + (if lzhuf::bit_at(
            data,
            p + 1 + k,
        ) == 0 { 0int } else { 1 })] by {
            assert(nodes[k + 1] < 627);
            assert(p + (k + 1) == p + 1 + k);
        }
        assert(rest.last() == nodes.last());
        law_bits_lead_to_a_leaf(t, data, p + 1, rest);
    }
}

/// A part of a packed text: a byte as it is, or a repetition of earlier bytes.
pub enum Token {
    Literal(u8),
    Match { distance: int, length: int },
}

/// Whether there are codes for such a part: matches have 3 to 60 bytes and lie at most 4096 bytes
/// back.
pub open spec fn token_ok(token: Token) -> bool {
    token matches Token::Match { distance, length } ==> 3 <= length <= 60 && 1 <= distance <= 4096
}

/// The code for a part.
pub open spec fn token_code(token: Token) -> int {
    match token {
        Token::Literal(b) => b as int,
        Token::Match { distance, length } => 253 + length,
    }
}

/// The tree after the first `k` parts have been read.
pub open spec fn tree_after(tokens: Seq<Token>, k: int) -> TreeView
    decreases k,
{
    if k <= 0 {
        TreeView::initial()
    } else {
        tree_after(tokens, k - 1).updated(token_code(tokens[k - 1]))
    }
}

/// Whether the bits from `ends[k]` up to `ends[k + 1]` stand for part `k`: the code of its leaf in
/// the tree as it is then, and for a match the position, which is one less than the distance.
pub open spec fn token_read(data: Seq<u8>, tokens: Seq<Token>, ends: Seq<int>, k: int) -> bool {
    let t = tree_after(tokens, k);
    match tokens[k] {
        Token::Literal(b) => lzhuf::code_at(t, data, t.son[626], ends[k]) == Some((b as int, ends[k + 1])),
        Token::Match { distance, length } => exists|middle: int| #[trigger]
            lzhuf::code_at(t, data, t.son[626], ends[k]) == Some((253 + length, middle)) && lzhuf::position_at(data, middle)
                == Some((distance - 1, ends[k + 1])),
    }
}

/// Whether `out` is the text that the first `n` parts make up: each part stands at its start, and
/// every byte of a match is the one `distance` places before it, or a space before the start.
pub open spec fn text_of(tokens: Seq<Token>, starts: Seq<int>, out: Seq<u8>, n: int) -> bool {
    &&& starts[0] == 0
    &&& starts[n] == out.len()
    &&& forall|k: int| 0 <= k < n ==> #[trigger] part_of(tokens[k], starts[k], starts[k + 1], out)
}

/// Whether a part stands in `out` from `from` to `to`.
pub open spec fn part_of(token: Token, from: int, to: int, out: Seq<u8>) -> bool {
    match token {
        Token::Literal(b) => to == from + 1 && out[from] == b,
        Token::Match { distance, length } => to == from + length && forall|i: int|
            from <= i < to ==> #[trigger] out[i] == (if i < distance { 0x20 } else { out[i - distance] }),
    }
}

/// Parts follow each other.
proof fn lemma_starts(tokens: Seq<Token>, starts: Seq<int>, out: Seq<u8>, n: int, k: int)
    requires
        0 <= k <= n,
        tokens.len() == n,
        text_of(tokens, starts, out, n),
        forall|i: int| 0 <= i < n ==> token_ok(#[trigger] tokens[i]),
    ensures
        0 <= starts[k] <= out.len(),
        k < n ==> starts[k] < out.len(),
    decreases n - k,
{
    lemma_starts_low(tokens, starts, out, n, k);
    if k < n {
        lemma_starts(tokens, starts, out, n, k + 1);
        assert(part_of(tokens[k], starts[k], starts[k + 1], out));
        assert(token_ok(tokens[k]));
    }
}

proof fn lemma_starts_low(tokens: Seq<Token>, starts: Seq<int>, out: Seq<u8>, n: int, k: int)
    requires
        0 <= k <= n,
        tokens.len() == n,
        text_of(tokens, starts, out, n),
        forall|i: int| 0 <= i < n ==> token_ok(#[trigger] tokens[i]),
    ensures
        0 <= starts[k],
    decreases k,
{
    if k > 0 {
        lemma_starts_low(tokens, starts, out, n, k - 1);
        let j = k - 1;
        assert(part_of(tokens[j], starts[j], starts[j + 1], out));
        assert(token_ok(tokens[j]));
    }
}

proof fn lemma_tokens(data: Seq<u8>, tokens: Seq<Token>, ends: Seq<int>, starts: Seq<int>, out: Seq<u8>, k: int)
    requires
        0 <= k <= tokens.len(),
        stream_of(data, tokens, ends, starts, out),
    ensures
        lzhuf::decoded(data, ends[k], tree_after(tokens, k), out.take(starts[k])) == out,
    decreases tokens.len() - k,
{
    let n = tokens.len() as int;
    let t = tree_after(tokens, k);
    lemma_starts(tokens, starts, out, n, k);
    if k == n {
        assert(out.take(starts[n]) =~= out);
    } else {
        lemma_starts(tokens, starts, out, n, k + 1);
        let had = out.take(starts[k]);
        assert(token_ok(tokens[k]));
        assert(token_read(data, tokens, ends, k));
        assert(part_of(tokens[k], starts[k], starts[k + 1], out));
        lemma_tokens(data, tokens, ends, starts, out, k + 1);
        match tokens[k] {
            Token::Literal(b) => {
                assert(had.push(b) =~= out.take(starts[k + 1]));
            },
            Token::Match { distance, length } => {
                let middle = choose|middle: int| #[trigger]
                    lzhuf::code_at(t, data, t.son[626], ends[k]) == Some((253 + length, middle)) && lzhuf::position_at(data, middle)
                        == Some((distance - 1, ends[k + 1]));
                law_match_repeats(had, distance, length);
                let more = lzhuf::repeat_back(had, distance, length);
                lemma_same_match(had, more, out, distance, length, more.len() as int);
                assert(more =~= out.take(starts[k + 1]));
            },
        }
    }
}

/// A match can be read in one way only.
proof fn lemma_same_match(had: Seq<u8>, more: Seq<u8>, out: Seq<u8>, distance: int, length: int, n: int)
    requires
        1 <= distance,
        0 <= length,
        had.len() <= n <= more.len() == had.len() + length <= out.len(),
        had == out.take(had.len() as int),
        more.take(had.len() as int) == had,
        forall|i: int| had.len() <= i < more.len() ==> #[trigger] more[i] == (if i < distance { 0x20 } else { more[i - distance] }),
        forall|i: int| had.len() <= i < more.len() ==> #[trigger] out[i] == (if i < distance { 0x20 } else { out[i - distance] }),
    ensures
        forall|i: int| 0 <= i < n ==> more[i] == out[i],
    decreases n,
{
    if n > had.len() {
        lemma_same_match(had, more, out, distance, length, n - 1);
        let i = n - 1;
        assert(more[i] == (if i < distance { 0x20 } else { more[i - distance] }));
        assert(out[i] == (if i < distance { 0x20 } else { out[i - distance] }));
    } else {
        assert forall|i: int| 0 <= i < n implies more[i] == out[i] by {
            assert(more.take(had.len() as int)[i] == had[i]);
            assert(out.take(had.len() as int)[i] == had[i]);
        }
    }
}

/// Whether a stream is packed from the given parts, which make up `out`, and no whole code stands
/// behind them.
pub open spec fn stream_of(data: Seq<u8>, tokens: Seq<Token>, ends: Seq<int>, starts: Seq<int>, out: Seq<u8>) -> bool {
    let n = tokens.len() as int;
    &&& ends[0] == 0
    &&& out.len() <= lzhuf::MAX_OUTPUT
    &&& forall|k: int| 0 <= k < n ==> token_ok(#[trigger] tokens[k])
    &&& forall|k: int| 0 <= k < n ==> #[trigger] token_read(data, tokens, ends, k)
    &&& text_of(tokens, starts, out, n)
    &&& lzhuf::code_at(tree_after(tokens, n), data, tree_after(tokens, n).son[626], ends[n]) is None
}

/// A stream unpacks to the text that it was packed from, however that was cut into bytes and
/// matches.
pub proof fn law_stream_unpacks(data: Seq<u8>, tokens: Seq<Token>, ends: Seq<int>, starts: Seq<int>, out: Seq<u8>)
    requires
        tokens.len() > 0,
        stream_of(data, tokens, ends, starts, out),
    ensures
        lzhuf::lzhuf_stream(data) == Ok::<Seq<u8>, ErrorView>(out),
{
    lemma_tokens(data, tokens, ends, starts, out, 0);
    lemma_starts(tokens, starts, out, tokens.len() as int, 0);
    assert(out.take(0) =~= Seq::<u8>::empty());
}

}
