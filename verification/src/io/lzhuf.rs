//! The LZHUF ("advanced") compression of TeleDisk images: an adaptive Huffman code
//! over literal bytes and matches in the last 4096 bytes of output.

use crate::error::{DskError, ErrorView};
use crate::io::huffman::{HuffmanTree, TreeView};
use vstd::prelude::*;

verus! {

/// Output never grows beyond this many bytes.
pub const MAX_OUTPUT: usize = 4_194_304;

/// Bit `p` of a stream whose bytes are read from the high bit down.
pub open spec fn bit_at(data: Seq<u8>, p: int) -> int {
    ((data[p / 8] >> ((7 - p % 8) as u8)) & 1u8) as int
}

/// Follows bits from node `node` down to a leaf: its code, and where the bits end.
pub open spec fn code_at(t: TreeView, data: Seq<u8>, node: int, p: int) -> Option<(int, int)>
    decreases 8 * data.len() - p,
{
    if node >= 627 {
        Some((node - 627, p))
    } else if 0 <= p < 8 * data.len() {
        code_at(t, data, t.son[node + bit_at(data, p)], p + 1)
    } else {
        None
    }
}

/// `n` bits from `p` on, appended to `acc` as binary digits.
pub open spec fn bits_at(data: Seq<u8>, p: int, n: int, acc: int) -> Option<int>
    decreases n,
{
    if n <= 0 {
        Some(acc)
    } else if 0 <= p < 8 * data.len() {
        bits_at(data, p + 1, n - 1, 2 * acc + bit_at(data, p))
    } else {
        None
    }
}

/// The upper six bits of a match position and the length of their code, told by the
/// eight bits that start with it. Short codes stand for near positions.
pub open spec fn position_prefix(first: int) -> (int, int) {
    if first < 0x20 {
        (0, 3)
    } else if first < 0x50 {
        (1 + (first - 0x20) / 16, 4)
    } else if first < 0x90 {
        (4 + (first - 0x50) / 8, 5)
    } else if first < 0xC0 {
        (12 + (first - 0x90) / 4, 6)
    } else if first < 0xF0 {
        (24 + (first - 0xC0) / 2, 7)
    } else {
        (48 + (first - 0xF0), 8)
    }
}

/// The match position at bit `p`: a prefix code for its upper six bits, then its lower
/// six bits; and where the bits end.
pub open spec fn position_at(data: Seq<u8>, p: int) -> Option<(int, int)> {
    match bits_at(data, p, 8, 0) {
        None => None,
        Some(first) => {
            let (code, len) = position_prefix(first);
            match bits_at(data, p + 8, len - 2, first) {
                None => None,
                Some(lower) => Some((code * 64 + lower % 64, p + 8 + len - 2)),
            }
        },
    }
}

/// The byte `distance` places before the end of the output; before its start there
/// are only spaces.
pub open spec fn byte_back(out: Seq<u8>, distance: int) -> u8 {
    if distance <= out.len() {
        out[out.len() - distance]
    } else {
        0x20u8
    }
}

/// Repeats `n` bytes from `distance` places back, up to the output limit.
pub open spec fn repeat_back(out: Seq<u8>, distance: int, n: int) -> Seq<u8>
    decreases n,
{
    if n <= 0 || out.len() >= MAX_OUTPUT {
        out
    } else {
        repeat_back(out.push(byte_back(out, distance)), distance, n - 1)
    }
}

pub proof fn lemma_repeat_back_grows(out: Seq<u8>, distance: int, n: int)
    ensures
        repeat_back(out, distance, n).len() >= out.len(),
        n > 0 && out.len() < MAX_OUTPUT ==> repeat_back(out, distance, n).len() > out.len(),
        out.len() <= MAX_OUTPUT ==> repeat_back(out, distance, n).len() <= MAX_OUTPUT,
    decreases n,
{
    if n > 0 && out.len() < MAX_OUTPUT {
        lemma_repeat_back_grows(out.push(byte_back(out, distance)), distance, n - 1);
    }
}

/// The output of a stream from bit `p` on, with the tree and the output so far: codes
/// below 256 are literal bytes, the others repeat `code - 253` earlier bytes.
pub open spec fn decoded(data: Seq<u8>, p: int, t: TreeView, out: Seq<u8>) -> Seq<u8>
    decreases MAX_OUTPUT - out.len(),
{
    if out.len() >= MAX_OUTPUT {
        out
    } else {
        match code_at(t, data, t.son[626], p) {
            None => out,
            Some((c, p2)) => if c < 256 {
                decoded(data, p2, t.updated(c), out.push(c as u8))
            } else {
                match position_at(data, p2) {
                    None => out,
                    Some((position, p3)) => {
                        proof {
                            lemma_repeat_back_grows(out, position + 1, c - 253);
                        }
                        decoded(
                            data,
                            p3,
                            t.updated(c),
                            repeat_back(out, position + 1, c - 253),
                        )
                    },
                }
            },
        }
    }
}

/// What `decode_lzhuf_stream` returns.
pub open spec fn lzhuf_stream(data: Seq<u8>) -> Result<Seq<u8>, ErrorView> {
    let out = decoded(data, 0, TreeView::initial(), Seq::empty());
    if out.len() == 0 {
        Err(ErrorView::InvalidFormat("TD0 LZHUF stream is empty"@))
    } else {
        Ok(out)
    }
}

/// Reads an LZHUF stream bit by bit.
pub struct LzhufDecoder<'a> {
    data: &'a [u8],
    byte_pos: usize,
    bit_pos: u8,
    text_buf: Vec<u8>,
    tree: HuffmanTree,
    r: usize,
}

impl<'a> LzhufDecoder<'a> {
    /// The stream.
    pub closed spec fn stream(&self) -> Seq<u8> {
        self.data@
    }

    /// The number of bits read so far.
    pub closed spec fn position(&self) -> int {
        8 * self.byte_pos + self.bit_pos
    }

    /// The adaptive tree.
    pub closed spec fn tree(&self) -> TreeView {
        self.tree@
    }

    /// The window holds the last 4096 bytes of `out`.
    pub closed spec fn window(&self, out: Seq<u8>) -> bool {
        forall|d: int| 1 <= d <= 4096 ==> self.text_buf@[#[trigger] self.cell(d)] == byte_back(out, d)
    }

    /// Where the byte `d` places back is kept.
    spec fn cell(&self, d: int) -> int {
        if d <= self.r { self.r - d } else { self.r + 4096 - d }
    }

    pub closed spec fn wf(&self) -> bool {
        &&& self.byte_pos <= self.data@.len()
        &&& self.bit_pos < 8
        &&& self.byte_pos == self.data@.len() ==> self.bit_pos == 0
        &&& self.text_buf@.len() == 4096
        &&& self.r < 4096
        &&& self.tree.wf()
    }

    /// Everything but the read position is as in `before`.
    pub closed spec fn same_model(&self, before: &LzhufDecoder) -> bool {
        &&& self.data == before.data
        &&& self.tree == before.tree
        &&& self.text_buf == before.text_buf
        &&& self.r == before.r
    }

    /// A decoder at the start of `data`.
    pub fn new(data: &'a [u8]) -> (decoder: Self)
        ensures
            decoder.wf(),
            decoder.stream() == data@,
            decoder.position() == 0,
            decoder.tree() == TreeView::initial(),
            decoder.window(Seq::empty()),
    {
        LzhufDecoder {
            data,
            byte_pos: 0,
            bit_pos: 0,
            text_buf: vec![0x20u8; 4096],
            tree: HuffmanTree::start_huffman(),
            r: 4096 - 60,
        }
    }

    /// The next bit, or `None` at the end of the stream.
    pub fn read_bit(&mut self) -> (bit: Option<u8>)
        requires
            old(self).wf(),
        ensures
            final(self).wf(),
            final(self).same_model(old(self)),
            match bit {
                Some(b) => {
                    &&& old(self).position() < 8 * old(self).stream().len()
                    &&& b == bit_at(old(self).stream(), old(self).position())
                    &&& b <= 1
                    &&& final(self).position() == old(self).position() + 1
                },
                None => {
                    &&& old(self).position() == 8 * old(self).stream().len()
                    &&& final(self).position() == old(self).position()
                },
            },
    {
        if self.byte_pos >= self.data.len() {
            return None;
        }
        let byte = self.data[self.byte_pos];
        let shift: u8 = 7 - self.bit_pos;
        let bit: u8 = (byte >> shift) & 1;
        assert((byte >> shift) & 1 <= 1) by (bit_vector);
        assert(self.position() / 8 == self.byte_pos && self.position() % 8 == self.bit_pos);
        if self.bit_pos == 7 {
            self.bit_pos = 0;
            self.byte_pos = self.byte_pos + 1;
        } else {
            self.bit_pos = self.bit_pos + 1;
        }
        Some(bit)
    }

    /// Eight bits, or `None` if fewer are left.
    pub fn read_byte(&mut self) -> (byte: Option<u8>)
        requires
            old(self).wf(),
        ensures
            final(self).wf(),
            final(self).same_model(old(self)),
            match byte {
                Some(b) => {
                    &&& bits_at(old(self).stream(), old(self).position(), 8, 0) == Some(b as int)
                    &&& final(self).position() == old(self).position() + 8
                },
                None => bits_at(old(self).stream(), old(self).position(), 8, 0) is None,
            },
    {
        let mut value: u8 = 0;
        let mut n: usize = 0;
        let ghost limit = 1int;
        while n < 8
            invariant
                n <= 8,
                self.wf(),
                self.same_model(old(self)),
                self.position() == old(self).position() + n,
                value < limit,
                n == 0 ==> limit == 1,
                n == 1 ==> limit == 2,
                n == 2 ==> limit == 4,
                n == 3 ==> limit == 8,
                n == 4 ==> limit == 16,
                n == 5 ==> limit == 32,
                n == 6 ==> limit == 64,
                n == 7 ==> limit == 128,
                n == 8 ==> limit == 256,
                bits_at(old(self).stream(), old(self).position(), 8, 0)
                    == bits_at(self.stream(), self.position(), 8 - n, value as int),
            decreases 8 - n,
        {
            match self.read_bit() {
                None => {
                    return None;
                },
                Some(bit) => {
                    value = 2 * value + bit;
                },
            }
            proof {
                limit = 2 * limit;
            }
            n = n + 1;
        }
        Some(value)
    }

    /// The next code, after which the tree counts it; `None` if the stream ends first.
    pub fn decode_char(&mut self) -> (code: Option<usize>)
        requires
            old(self).wf(),
        ensures
            final(self).wf(),
            final(self).stream() == old(self).stream(),
            forall|out: Seq<u8>| old(self).window(out) ==> final(self).window(out),
            match code {
                Some(c) => {
                    &&& c < 314
                    &&& code_at(
                        old(self).tree(),
                        old(self).stream(),
                        old(self).tree().son[626],
                        old(self).position(),
                    ) == Some((c as int, final(self).position()))
                    &&& final(self).tree() == old(self).tree().updated(c as int)
                },
                None => code_at(
                    old(self).tree(),
                    old(self).stream(),
                    old(self).tree().son[626],
                    old(self).position(),
                ) is None,
            },
    {
        let mut node: usize = self.tree.child(626);
        let ghost t = self.tree@;
        proof {
            crate::io::huffman::lemma_owner(t, 625);
        }
        while node < 627
            invariant
                self.wf(),
                self.same_model(old(self)),
                self.tree@ == t,
                t.wf(),
                node < 941,
                node < 627 ==> node + 1 < 627,
                code_at(t, old(self).stream(), t.son[626], old(self).position())
                    == code_at(t, self.stream(), node as int, self.position()),
            decreases 8 * self.stream().len() - self.position(),
        {
            match self.read_bit() {
                None => {
                    proof {
                        old(self).lemma_same_windows(self);
                    }
                    return None;
                },
                Some(bit) => {
                    let index: usize = node + bit as usize;
                    node = self.tree.child(index);
                },
            }
        }
        let code: usize = node - 627;
        self.tree.update(code);
        proof {
            old(self).lemma_same_windows(self);
        }
        Some(code)
    }

    /// The next match position; `None` if the stream ends first.
    pub fn decode_position(&mut self) -> (position: Option<usize>)
        requires
            old(self).wf(),
        ensures
            final(self).wf(),
            final(self).same_model(old(self)),
            match position {
                Some(p) => {
                    &&& p < 4096
                    &&& position_at(old(self).stream(), old(self).position()) == Some(
                        (p as int, final(self).position()),
                    )
                },
                None => position_at(old(self).stream(), old(self).position()) is None,
            },
    {
        let first = match self.read_byte() {
            None => {
                return None;
            },
            Some(first) => first,
        };
        let (code, length) = Self::prefix(first);
        let mut lower: usize = first as usize;
        let mut n: u8 = 2;
        let ghost p8 = self.position();
        let ghost limit = 256int;
        while n < length
            invariant
                2 <= n <= length <= 8,
                self.wf(),
                self.same_model(old(self)),
                p8 == old(self).position() + 8,
                bits_at(old(self).stream(), old(self).position(), 8, 0) == Some(first as int),
                position_prefix(first as int) == (code as int, length as int),
                code < 64,
                self.position() == p8 + n - 2,
                lower < limit,
                n == 2 ==> limit == 256,
                n == 3 ==> limit == 512,
                n == 4 ==> limit == 1024,
                n == 5 ==> limit == 2048,
                n == 6 ==> limit == 4096,
                n == 7 ==> limit == 8192,
                n == 8 ==> limit == 16384,
                bits_at(self.stream(), p8, length - 2, first as int) == bits_at(
                    self.stream(),
                    self.position(),
                    length - n,
                    lower as int,
                ),
            decreases length - n,
        {
            match self.read_bit() {
                None => {
                    return None;
                },
                Some(bit) => {
                    lower = 2 * lower + bit as usize;
                },
            }
            proof {
                limit = 2 * limit;
            }
            n = n + 1;
        }
        Some(code as usize * 64 + lower % 64)
    }

    /// The upper six bits of a position whose code starts with `first`, and the length of the code.
    pub fn prefix(first: u8) -> (r: (u8, u8))
        ensures
            (r.0 as int, r.1 as int) == position_prefix(first as int),
            r.0 < 64,
            3 <= r.1 <= 8,
    {
        if first < 0x20 {
            (0, 3)
        } else if first < 0x50 {
            (1 + (first - 0x20) / 16, 4)
        } else if first < 0x90 {
            (4 + (first - 0x50) / 8, 5)
        } else if first < 0xC0 {
            (12 + (first - 0x90) / 4, 6)
        } else if first < 0xF0 {
            (24 + (first - 0xC0) / 2, 7)
        } else {
            (48 + (first - 0xF0), 8)
        }
    }

    /// Puts a byte into the window, in place of the oldest one.
    fn remember(&mut self, byte: u8, out: Ghost<Seq<u8>>)
        requires
            old(self).wf(),
            old(self).window(out@),
        ensures
            final(self).wf(),
            final(self).window(out@.push(byte)),
            final(self).stream() == old(self).stream(),
            final(self).position() == old(self).position(),
            final(self).tree() == old(self).tree(),
    {
        let ghost before = *self;
        self.text_buf[self.r] = byte;
        self.r = if self.r == 4095 { 0 } else { self.r + 1 };
        let ghost new_out = out@.push(byte);
        assert forall|d: int| 1 <= d <= 4096 implies self.text_buf@[#[trigger] self.cell(d)] == byte_back(new_out, d) by {
            if d > 1 {
                assert(self.cell(d) == before.cell(d - 1));
                assert(before.text_buf@[before.cell(d - 1)] == byte_back(out@, d - 1));
            }
        }
    }
}

/// Decompresses an LZHUF stream.
pub fn decode_lzhuf_stream(data: &[u8]) -> (r: Result<Vec<u8>, DskError>)
    ensures
        match r {
            Ok(out) => lzhuf_stream(data@) == Ok::<Seq<u8>, ErrorView>(out@),
            Err(e) => lzhuf_stream(data@) == Err::<Seq<u8>, ErrorView>(e@),
        },
{
    let mut decoder = LzhufDecoder::new(data);
    let mut output: Vec<u8> = Vec::new();
    let mut done = false;
    let ghost result = decoded(data@, 0, TreeView::initial(), Seq::empty());
    while !done && output.len() < MAX_OUTPUT
        invariant
            decoder.wf(),
            decoder.stream() == data@,
            decoder.window(output@),
            output@.len() <= MAX_OUTPUT,
            !done ==> decoded(data@, decoder.position(), decoder.tree(), output@) == result,
            done ==> output@ == result,
        decreases MAX_OUTPUT - output@.len(), (if done { 0int } else { 1 }),
    {
        match decoder.decode_char() {
            None => {
                done = true;
            },
            Some(code) => {
                if code < 256 {
                    let byte: u8 = code as u8;
                    decoder.remember(byte, Ghost(output@));
                    output.push(byte);
                } else {
                    let ghost before = decoder;
                    match decoder.decode_position() {
                        None => {
                            done = true;
                            proof {
                                before.lemma_same_windows(&decoder);
                            }
                        },
                        Some(position) => {
                            proof {
                                before.lemma_same_windows(&decoder);
                            }
                            let ghost start = output@;
                            let ghost p3 = decoder.position();
                            let ghost t = decoder.tree();
                            let length: usize = code - 253;
                            let mut index: usize = 0;
                            proof {
                                lemma_repeat_back_grows(start, position + 1, length as int);
                            }
                            while index < length && output.len() < MAX_OUTPUT
                                invariant
                                    index <= length,
                                    position < 4096,
                                    decoder.wf(),
                                    decoder.stream() == data@,
                                    decoder.position() == p3,
                                    decoder.tree() == t,
                                    decoder.window(output@),
                                    start.len() <= output@.len() <= MAX_OUTPUT,
                                    repeat_back(output@, position + 1, length - index)
                                        == repeat_back(start, position + 1, length as int),
                                decreases length - index,
                            {
                                let byte = decoder.look_back(position + 1, Ghost(output@));
                                decoder.remember(byte, Ghost(output@));
                                output.push(byte);
                                index = index + 1;
                            }
                            assert(output@ == repeat_back(start, position + 1, length as int));
                        },
                    }
                }
            },
        }
    }
    if output.len() == 0 {
        return Err(DskError::invalid_format("TD0 LZHUF stream is empty"));
    }
    Ok(output)
}

impl<'a> LzhufDecoder<'a> {
    /// The byte `distance` places back.
    fn look_back(&self, distance: usize, out: Ghost<Seq<u8>>) -> (byte: u8)
        requires
            self.wf(),
            self.window(out@),
            1 <= distance <= 4096,
        ensures
            byte == byte_back(out@, distance as int),
    {
        let index: usize = if distance <= self.r { self.r - distance } else { self.r + 4096 - distance };
        assert(index == self.cell(distance as int));
        self.text_buf[index]
    }

    /// What the window holds depends on nothing but the buffer and the place in it.
    proof fn lemma_same_windows(&self, after: &LzhufDecoder)
        requires
            after.text_buf == self.text_buf,
            after.r == self.r,
        ensures
            forall|out: Seq<u8>| self.window(out) ==> after.window(out),
    {
        assert forall|out: Seq<u8>| self.window(out) implies after.window(out) by {
            assert forall|d: int| 1 <= d <= 4096 implies after.text_buf@[#[trigger] after.cell(d)] == byte_back(out, d) by {
                assert(after.cell(d) == self.cell(d));
            }
        }
    }
}

}
