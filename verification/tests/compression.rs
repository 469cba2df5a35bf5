use dskmanager::error::DskError;
use dskmanager::io::crc::teledisk_crc;
use dskmanager::io::huffman::HuffmanTree;
use dskmanager::io::lzhuf::{decode_lzhuf_stream, LzhufDecoder};
use dskmanager::io::lzw::{decode_lzw_block, decode_lzw_stream};
use dskmanager::io::td0_reader::decode_rle;

/// The adaptive Huffman tree of an encoder.
struct Encoder {
    freq: Vec<u32>,
    son: Vec<usize>,
    parent: Vec<usize>,
    bits: Vec<bool>,
}

impl Encoder {
    fn new() -> Encoder {
        let mut e = Encoder { freq: vec![0; 628], son: vec![0; 627], parent: vec![0; 941], bits: Vec::new() };
        for i in 0..314 {
            e.freq[i] = 1;
            e.son[i] = i + 627;
            e.parent[i + 627] = i;
        }
        for j in 314..627 {
            let i = 2 * (j - 314);
            e.freq[j] = e.freq[i] + e.freq[i + 1];
            e.son[j] = i;
            e.parent[i] = j;
            e.parent[i + 1] = j;
        }
        e.freq[627] = 0xFFFF;
        e.parent[626] = 0;
        e
    }

    fn rebuild(&mut self) {
        let leaves: Vec<(u32, usize)> = (0..627)
            .filter(|i| self.son[*i] >= 627)
            .map(|i| ((self.freq[i] + 1) / 2, self.son[i]))
            .collect();
        let mut nodes = leaves;
        for i in 0..313 {
            let f = nodes[2 * i].0 + nodes[2 * i + 1].0;
            let at = nodes.iter().rposition(|n| n.0 <= f).map(|p| p + 1).unwrap_or(0);
            nodes.insert(at, (f, 2 * i));
        }
        for (i, (f, s)) in nodes.into_iter().enumerate() {
            self.freq[i] = f;
            self.son[i] = s;
        }
        for i in 0..627 {
            let s = self.son[i];
            self.parent[s] = i;
            if s < 627 {
                self.parent[s + 1] = i;
            }
        }
    }

    fn adopt(&mut self, node: usize) {
        let s = self.son[node];
        self.parent[s] = node;
        if s < 627 {
            self.parent[s + 1] = node;
        }
    }

    fn put(&mut self, code: usize) {
        let mut path = Vec::new();
        let mut node = self.parent[code + 627];
        while node != 626 {
            path.push(node % 2 == 1);
            node = self.parent[node];
        }
        path.reverse();
        self.bits.extend(path);
        if self.freq[626] == 0x8000 {
            self.rebuild();
        }
        let mut node = self.parent[code + 627];
        loop {
            self.freq[node] += 1;
            let f = self.freq[node];
            let mut last = node;
            while self.freq[last + 1] < f {
                last += 1;
            }
            if last > node {
                self.freq.swap(node, last);
                self.son.swap(node, last);
                self.adopt(node);
                self.adopt(last);
                node = last;
            }
            if node == 626 {
                break;
            }
            node = self.parent[node];
        }
    }

    fn put_number(&mut self, value: usize, length: usize) {
        for i in (0..length).rev() {
            self.bits.push(value >> i & 1 == 1);
        }
    }

    fn put_position(&mut self, position: usize) {
        let upper = position >> 6;
        let lengths = [(1, 3), (3, 4), (8, 5), (12, 6), (24, 7), (16, 8)];
        let mut first = 0;
        let mut code = 0;
        for (count, length) in lengths {
            if upper < first + count {
                self.put_number((code >> (8 - length)) + (upper - first), length);
                self.put_number(position & 0x3F, 6);
                return;
            }
            first += count;
            code += count << (8 - length);
        }
    }

    fn bytes(mut self) -> Vec<u8> {
        while self.bits.len() % 8 != 0 {
            self.bits.push(false);
        }
        self.bits.chunks(8).map(|c| c.iter().fold(0, |b, bit| b << 1 | *bit as u8)).collect()
    }
}

#[test]
fn literals_come_out_as_they_went_in() {
    let mut e = Encoder::new();
    let text = b"HELLO HELLO HELLO, DISKS AND DISKS";
    for b in text {
        e.put(*b as usize);
    }
    let decoded = decode_lzhuf_stream(&e.bytes()).unwrap();
    assert!(decoded.starts_with(text));
    assert!(decoded.len() <= text.len() + 2);
}

#[test]
fn matches_repeat_what_came_before() {
    let mut e = Encoder::new();
    for b in b"ABC" {
        e.put(*b as usize);
    }
    e.put(256);
    e.put_position(2);
    e.put(313);
    e.put_position(0);
    let mut expected = b"ABCABC".to_vec();
    expected.extend_from_slice(&[b'C'; 60]);
    e.put(b'!' as usize);
    expected.push(b'!');
    e.put(258);
    e.put_position(4095);
    expected.extend_from_slice(&[b' '; 5]);
    e.put(b'?' as usize);
    expected.push(b'?');
    let decoded = decode_lzhuf_stream(&e.bytes()).unwrap();
    assert_eq!(&decoded[..expected.len()], expected.as_slice());
}

#[test]
fn trees_are_rebuilt_when_counts_grow() {
    let mut e = Encoder::new();
    let data: Vec<u8> = (0..70_000usize).map(|i| ((i * i / 7) % 256) as u8 & 0x3F).collect();
    for b in &data {
        e.put(*b as usize);
    }
    let decoded = decode_lzhuf_stream(&e.bytes()).unwrap();
    assert_eq!(&decoded[..data.len()], data.as_slice());
}

#[test]
fn empty_streams_are_refused() {
    match decode_lzhuf_stream(&[]) {
        Err(DskError::InvalidFormat(m)) => assert_eq!(m, "TD0 LZHUF stream is empty"),
        other => panic!("{:?}", other),
    }
}

#[test]
fn position_codes() {
    let codes: [u8; 64] = [
        0x00, 0x20, 0x30, 0x40, 0x50, 0x58, 0x60, 0x68, 0x70, 0x78, 0x80, 0x88, 0x90, 0x94, 0x98, 0x9C, 0xA0, 0xA4, 0xA8, 0xAC,
        0xB0, 0xB4, 0xB8, 0xBC, 0xC0, 0xC2, 0xC4, 0xC6, 0xC8, 0xCA, 0xCC, 0xCE, 0xD0, 0xD2, 0xD4, 0xD6, 0xD8, 0xDA, 0xDC, 0xDE,
        0xE0, 0xE2, 0xE4, 0xE6, 0xE8, 0xEA, 0xEC, 0xEE, 0xF0, 0xF1, 0xF2, 0xF3, 0xF4, 0xF5, 0xF6, 0xF7, 0xF8, 0xF9, 0xFA, 0xFB,
        0xFC, 0xFD, 0xFE, 0xFF,
    ];
    let lengths: [u8; 64] = [
        3, 4, 4, 4, 5, 5, 5, 5, 5, 5, 5, 5, 6, 6, 6, 6, 6, 6, 6, 6, 6, 6, 6, 6, 7, 7, 7, 7, 7, 7, 7, 7, 7, 7, 7, 7, 7, 7, 7, 7, 7, 7,
        7, 7, 7, 7, 7, 7, 8, 8, 8, 8, 8, 8, 8, 8, 8, 8, 8, 8, 8, 8, 8, 8,
    ];
    for first in 0..=255u8 {
        let code = codes.iter().rposition(|c| *c <= first).unwrap();
        assert_eq!(LzhufDecoder::prefix(first), (code as u8, lengths[code]));
    }
}

#[test]
fn bits_are_read_from_the_top() {
    let mut d = LzhufDecoder::new(&[0b1010_0000, 0xFF, 0x0F]);
    let bits: Vec<Option<u8>> = (0..4).map(|_| d.read_bit()).collect();
    assert_eq!(bits, vec![Some(1), Some(0), Some(1), Some(0)]);
    assert_eq!(d.read_byte(), Some(0x0F));
    assert_eq!(d.read_byte(), Some(0xF0));
    assert_eq!(d.read_byte(), None);
}

#[test]
fn fresh_trees_are_balanced() {
    let tree = HuffmanTree::start_huffman();
    assert_eq!(tree.child(626), 624);
    assert_eq!(tree.child(314), 0);
    assert_eq!(tree.child(313), 940);
}

fn packed(codes: &[u16]) -> (Vec<u8>, usize) {
    let mut nibbles = Vec::new();
    for c in codes {
        nibbles.extend_from_slice(&[*c as u8 & 15, (*c >> 4) as u8 & 15, (*c >> 8) as u8 & 15]);
    }
    let bytes = nibbles.chunks(2).map(|p| p[0] | p.get(1).unwrap_or(&0) << 4).collect();
    (bytes, nibbles.len())
}

fn block(codes: &[u16]) -> Vec<u8> {
    let (bytes, n) = packed(codes);
    let mut out = (n as u16).to_le_bytes().to_vec();
    out.extend_from_slice(&bytes);
    out
}

#[test]
fn strings_may_be_used_as_soon_as_they_begin() {
    let (bytes, n) = packed(&[b'A' as u16, 256, 257, 256]);
    assert_eq!(decode_lzw_block(&bytes, n).unwrap(), b"AAAAAAAA");
    assert_eq!(decode_lzw_block(&bytes, n - 1).unwrap(), b"AAAAAA");
}

#[test]
fn dictionaries_stop_growing() {
    let mut codes: Vec<u16> = (0..4000).map(|i| (i % 256) as u16).collect();
    codes.push(4095);
    let (bytes, n) = packed(&codes);
    let out = decode_lzw_block(&bytes, n).unwrap();
    assert_eq!(out.len(), 4002);
    assert_eq!(&out[4000..], &[3839u16 as u8, 3840u16 as u8]);
}

fn lzw_error(r: Result<Vec<u8>, DskError>) -> (usize, String) {
    match r {
        Err(DskError::Parse { offset, message }) => (offset, message),
        other => panic!("{:?}", other),
    }
}

#[test]
fn bad_blocks_are_refused() {
    let (bytes, n) = packed(&[300]);
    assert_eq!(lzw_error(decode_lzw_block(&bytes, n)), (0, "Invalid first TD0 LZW code".to_string()));
    let (bytes, n) = packed(&[65, 257]);
    assert_eq!(lzw_error(decode_lzw_block(&bytes, n)), (0, "Invalid TD0 LZW code".to_string()));
    assert_eq!(lzw_error(decode_lzw_block(&[65, 0], 2)), (0, "Short TD0 LZW code".to_string()));
    assert_eq!(lzw_error(decode_lzw_block(&[65], 3)), (2, "Short TD0 LZW data".to_string()));
}

#[test]
fn streams_are_made_of_blocks() {
    let mut stream = block(&[72, 73]);
    stream.extend_from_slice(&block(&[74, 256]));
    assert_eq!(decode_lzw_stream(&stream).unwrap(), b"HIJJJ");
    stream.extend_from_slice(&[0, 0, 1]);
    assert_eq!(decode_lzw_stream(&stream).unwrap(), b"HIJJJ");
    assert_eq!(decode_lzw_stream(&[]).unwrap(), b"");
    assert_eq!(lzw_error(decode_lzw_stream(&[1])), (0, "Short TD0 LZW block header".to_string()));
    assert_eq!(lzw_error(decode_lzw_stream(&[6, 0, 72])), (2, "Short TD0 LZW block".to_string()));
}

#[test]
fn checksums() {
    assert_eq!(teledisk_crc(&[]), 0);
    assert_eq!(teledisk_crc(&[1]), 0xA097);
    assert_eq!(teledisk_crc(&[0, 0, 0]), 0);
    assert_eq!(teledisk_crc(b"123456789"), 0x0FB3);
}

#[test]
fn run_lengths_fill_exactly() {
    let data = [0, 2, b'x', b'y', 1, 3, b'A', b'B', 9];
    let mut cursor = 0;
    assert_eq!(decode_rle(&data, &mut cursor, 7).unwrap(), b"xyABABA");
    assert_eq!(cursor, 8);
    let mut cursor = 4;
    assert_eq!(decode_rle(&data, &mut cursor, 0).unwrap(), b"");
    assert_eq!(cursor, 4);
    for (data, at, message) in [
        (vec![], 0, "Short TD0 RLE block"),
        (vec![0], 1, "Short TD0 RLE block"),
        (vec![0, 0], 2, "Empty TD0 RLE block"),
        (vec![0, 2, 1], 2, "Short TD0 literal block"),
        (vec![2, 1, 1, 2, 3], 2, "Short TD0 repeat block"),
    ] {
        let mut cursor = 0;
        assert_eq!(lzw_error(decode_rle(&data, &mut cursor, 4)), (at, message.to_string()));
        assert_eq!(cursor, at);
    }
}

#[test]
fn rebuilding_halves_the_weights() {
    let mut tree = HuffmanTree::start_huffman();
    let before: Vec<usize> = (0..627).map(|n| tree.child(n)).collect();
    tree.reconstruct();
    assert_eq!((0..627).map(|n| tree.child(n)).collect::<Vec<usize>>(), before);
    for _ in 0..400 {
        tree.update(65);
    }
    assert_eq!(tree.child(625), 65 + 627);
    tree.reconstruct();
    // The leaf weighs 201 now, less than the 313 others together.
    assert_ne!(tree.child(625), 65 + 627);
    assert_eq!(tree.child(624), 65 + 627);
}
