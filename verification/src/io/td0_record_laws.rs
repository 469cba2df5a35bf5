//! Laws of the records in a TeleDisk file: what is read is what a record was written for.

use crate::error::ErrorView;
use crate::io::td0_reader;
use vstd::prelude::*;

verus! {

/// A run of bytes: as they are, or a pattern that comes several times in a row.
pub enum Run {
    Literal(Seq<u8>),
    Repeat(Seq<u8>, int),
}

/// Whether a run fits in one record: at most 255 bytes as they are, or at most 255 times a
/// pattern of 1 to 255 pairs of bytes.
pub open spec fn fits(run: Run) -> bool {
    match run {
        Run::Literal(s) => 1 <= s.len() <= 255,
        Run::Repeat(s, n) => 2 <= s.len() <= 510 && s.len() % 2 == 0 && 1 <= n <= 255,
    }
}

/// The record for a run.
pub open spec fn written_run(run: Run) -> Seq<u8> {
    match run {
        Run::Literal(s) => seq![0u8, s.len() as u8] + s,
        Run::Repeat(s, n) => seq![(s.len() / 2) as u8, n as u8] + s,
    }
}

/// The bytes of a run.
pub open spec fn bytes_of_run(run: Run) -> Seq<u8> {
    match run {
        Run::Literal(s) => s,
        Run::Repeat(s, n) => Seq::new((s.len() * n) as nat, |i: int| s[i % (s.len() as int)]),
    }
}

/// The records for the first `n` runs.
pub open spec fn written_runs(runs: Seq<Run>, n: int) -> Seq<u8>
    decreases n,
{
    if n <= 0 {
        Seq::empty()
    } else {
        written_runs(runs, n - 1) + written_run(runs[n - 1])
    }
}

/// The bytes of the first `n` runs.
pub open spec fn bytes_of_runs(runs: Seq<Run>, n: int) -> Seq<u8>
    decreases n,
{
    if n <= 0 {
        Seq::empty()
    } else {
        bytes_of_runs(runs, n - 1) + bytes_of_run(runs[n - 1])
    }
}

/// Whether `record` stands in `data` at `cursor`.
pub open spec fn stands_at(data: Seq<u8>, cursor: int, record: Seq<u8>) -> bool {
    0 <= cursor && cursor + record.len() <= data.len() && data.subrange(cursor, cursor + record.len()) == record
}

/// Whatever stands at a place, its parts stand there too.
pub proof fn lemma_parts(data: Seq<u8>, cursor: int, a: Seq<u8>, b: Seq<u8>)
    requires
        stands_at(data, cursor, a + b),
    ensures
        stands_at(data, cursor, a),
        stands_at(data, cursor + a.len(), b),
{
    let all = data.subrange(cursor, cursor + (a + b).len());
    assert forall|i: int| 0 <= i < a.len() implies data[cursor + i] == a[i] by {
        assert(all[i] == (a + b)[i]);
    }
    assert forall|i: int| 0 <= i < b.len() implies data[cursor + a.len() + i] == b[i] by {
        assert(all[a.len() + i] == (a + b)[a.len() + i]);
    }
    assert(data.subrange(cursor, cursor + a.len()) =~= a);
    assert(data.subrange(cursor + a.len(), cursor + a.len() + b.len()) =~= b);
}

/// The byte `i` of what stands at a place.
pub proof fn lemma_byte(data: Seq<u8>, cursor: int, record: Seq<u8>, i: int)
    requires
        stands_at(data, cursor, record),
        0 <= i < record.len(),
    ensures
        data[cursor + i] == record[i],
{
    assert(data.subrange(cursor, cursor + record.len())[i] == record[i]);
}

/// A repeated pattern, byte by byte.
proof fn lemma_repeated(pattern: Seq<u8>, n: int)
    requires
        pattern.len() > 0,
        n >= 0,
    ensures
        td0_reader::repeated(pattern, n).len() == pattern.len() * n,
        forall|i: int|
            0 <= i < pattern.len() * n ==> #[trigger] td0_reader::repeated(pattern, n)[i] == pattern[i % (pattern.len() as int)],
    decreases n,
{
    let l = pattern.len() as int;
    if n > 0 {
        lemma_repeated(pattern, n - 1);
        assert(l * n == l * (n - 1) + l) by (nonlinear_arith);
        let less = td0_reader::repeated(pattern, n - 1);
        let all = td0_reader::repeated(pattern, n);
        assert forall|i: int| 0 <= i < l * n implies #[trigger] all[i] == pattern[i % l] by {
            if i < l * (n - 1) {
                assert(all[i] == less[i]);
            } else {
                let k = i - l * (n - 1);
                assert(all[i] == pattern[k]);
                vstd::arithmetic::div_mod::lemma_mod_multiples_vanish(n - 1, k, l);
                vstd::arithmetic::div_mod::lemma_small_mod(k as nat, l as nat);
                assert(l * (n - 1) + k == i);
            }
        }
    } else {
        assert(l * n == 0) by (nonlinear_arith)
            requires
                n == 0,
        ;
    }
}

/// A record with length byte L > 0 and count N adds the 2 * L bytes behind it, N times in a row:
/// byte `i` of what it adds is byte `i % (2 * L)` of them. A record with length byte 0 adds the
/// N bytes behind it as they are. What goes beyond the size of the sector is cut off.
pub proof fn law_rle_record(data: Seq<u8>, cursor: int, size: int, out: Seq<u8>, more: Seq<u8>)
    requires
        0 <= cursor,
        cursor + 2 <= data.len(),
        out.len() < size,
        data[cursor + 1] > 0,
        ({
            let l = data[cursor] as int;
            let n = data[cursor + 1] as int;
            let added = if l == 0 { n } else { 2 * l * n };
            &&& cursor + 2 + (if l == 0 { n } else { 2 * l }) <= data.len()
            &&& more.len() == (if out.len() + added < size { out.len() + added } else { size })
            &&& forall|i: int| 0 <= i < out.len() ==> more[i] == out[i]
            &&& forall|i: int|
                0 <= i < more.len() - out.len() ==> #[trigger] more[out.len() + i] == data[cursor + 2 + (if l == 0 {
                    i
                } else {
                    i % (2 * l)
                })]
        }),
    ensures
        td0_reader::rle(data, cursor, size, out) == td0_reader::rle(
            data,
            cursor + 2 + (if data[cursor] == 0 { data[cursor + 1] as int } else { 2 * data[cursor] }),
            size,
            more,
        ),
{
    let l = data[cursor] as int;
    let n = data[cursor + 1] as int;
    let start = cursor + 2;
    if l == 0 {
        let added = data.subrange(start, start + n);
        assert forall|i: int| 0 <= i < more.len() implies more[i] == (out + added)[i] by {
            if i >= out.len() {
                let k = i - out.len();
                assert(more[out.len() + k] == data[start + k]);
            }
        }
        assert(more =~= td0_reader::cut(out + added, size));
    } else {
        let pattern = data.subrange(start, start + 2 * l);
        let added = td0_reader::repeated(pattern, n);
        lemma_repeated(pattern, n);
        assert forall|i: int| 0 <= i < more.len() implies more[i] == (out + added)[i] by {
            if i >= out.len() {
                let k = i - out.len();
                assert(more[out.len() + k] == data[start + k % (2 * l)]);
                assert(added[k] == pattern[k % (2 * l)]);
                vstd::arithmetic::div_mod::lemma_mod_bound(k, 2 * l);
            }
        }
        assert(more =~= td0_reader::cut(out + added, size));
    }
}

/// The number of bytes of a run.
proof fn lemma_run_length(run: Run)
    requires
        fits(run),
    ensures
        bytes_of_run(run).len() >= 1,
        written_run(run).len() >= 3,
{
    if let Run::Repeat(s, n) = run {
        assert(s.len() * n >= 1) by (nonlinear_arith)
            requires
                s.len() >= 1,
                n >= 1,
        ;
    }
}

/// More runs have more bytes.
proof fn lemma_runs_grow(runs: Seq<Run>, m: int, n: int)
    requires
        0 <= m <= n <= runs.len(),
    ensures
        bytes_of_runs(runs, m).len() <= bytes_of_runs(runs, n).len(),
    decreases n - m,
{
    if m < n {
        lemma_runs_grow(runs, m, n - 1);
    }
}

/// One record more.
proof fn lemma_one_run(data: Seq<u8>, cursor: int, size: int, out: Seq<u8>, run: Run)
    requires
        fits(run),
        stands_at(data, cursor, written_run(run)),
        out.len() < size,
    ensures
        td0_reader::rle(data, cursor, size, out) == td0_reader::rle(
            data,
            cursor + written_run(run).len(),
            size,
            if out.len() + bytes_of_run(run).len() <= size {
                out + bytes_of_run(run)
            } else {
                (out + bytes_of_run(run)).take(size)
            },
        ),
{
    let record = written_run(run);
    let more = if out.len() + bytes_of_run(run).len() <= size {
        out + bytes_of_run(run)
    } else {
        (out + bytes_of_run(run)).take(size)
    };
    lemma_run_length(run);
    lemma_byte(data, cursor, record, 0);
    lemma_byte(data, cursor, record, 1);
    let l = data[cursor] as int;
    let n = data[cursor + 1] as int;
    match run {
        Run::Literal(s) => {
            assert(l == 0 && n == s.len());
            assert forall|i: int| 0 <= i < more.len() - out.len() implies #[trigger] more[out.len() + i] == data[cursor + 2 + i] by {
                lemma_byte(data, cursor, record, 2 + i);
                assert(record[2 + i] == s[i]);
            }
        },
        Run::Repeat(s, count) => {
            assert(2 * l == s.len() && n == count);
            assert(s.len() * count == 2 * l * n);
            assert forall|i: int| 0 <= i < more.len() - out.len() implies #[trigger] more[out.len() + i] == data[cursor + 2 + i % (2 * l)] by {
                vstd::arithmetic::div_mod::lemma_mod_bound(i, 2 * l);
                lemma_byte(data, cursor, record, 2 + i % (2 * l));
                assert(record[2 + i % (2 * l)] == s[i % (2 * l)]);
                assert(bytes_of_run(run)[i] == s[i % (s.len() as int)]);
            }
        },
    }
    law_rle_record(data, cursor, size, out, more);
}

/// The first `n` records.
proof fn lemma_runs(data: Seq<u8>, cursor: int, size: int, runs: Seq<Run>, n: int)
    requires
        0 <= n <= runs.len(),
        0 <= size,
        n > 0 ==> bytes_of_runs(runs, n - 1).len() < size,
        forall|i: int| 0 <= i < runs.len() ==> fits(#[trigger] runs[i]),
        stands_at(data, cursor, written_runs(runs, n)),
    ensures
        td0_reader::rle(data, cursor, size, Seq::empty()) == td0_reader::rle(
            data,
            cursor + written_runs(runs, n).len(),
            size,
            if bytes_of_runs(runs, n).len() <= size {
                bytes_of_runs(runs, n)
            } else {
                bytes_of_runs(runs, n).take(size)
            },
        ),
    decreases n,
{
    if n > 0 {
        lemma_parts(data, cursor, written_runs(runs, n - 1), written_run(runs[n - 1]));
        if n > 1 {
            lemma_runs_grow(runs, n - 2, n - 1);
        }
        lemma_runs(data, cursor, size, runs, n - 1);
        lemma_one_run(data, cursor + written_runs(runs, n - 1).len(), size, bytes_of_runs(runs, n - 1), runs[n - 1]);
    }
}

/// Run-length records give back the runs that they were written for, as far as the sector goes,
/// and the reading stops behind the last record.
pub proof fn law_rle_reads_back(data: Seq<u8>, cursor: int, size: int, runs: Seq<Run>)
    requires
        runs.len() > 0,
        forall|i: int| 0 <= i < runs.len() ==> fits(#[trigger] runs[i]),
        stands_at(data, cursor, written_runs(runs, runs.len() as int)),
        bytes_of_runs(runs, runs.len() - 1).len() < size <= bytes_of_runs(runs, runs.len() as int).len(),
    ensures
        td0_reader::rle(data, cursor, size, Seq::empty()) == Ok::<(Seq<u8>, int), ErrorView>(
            (
                bytes_of_runs(runs, runs.len() as int).take(size),
                cursor + written_runs(runs, runs.len() as int).len(),
            ),
        ),
{
    let n = runs.len() as int;
    lemma_runs(data, cursor, size, runs, n);
    let all = bytes_of_runs(runs, n);
    if all.len() == size {
        assert(all.take(size) =~= all);
    }
}

/// What a sector is stored as: its bytes, two bytes that come several times in turn, or runs.
pub enum Stored {
    Plain(Seq<u8>),
    Pairs(u8, u8, int),
    Runs(Seq<Run>),
}

/// A number in two bytes, low byte first.
pub open spec fn two_bytes(n: int) -> Seq<u8> {
    seq![(n % 256) as u8, (n / 256) as u8]
}

/// The bytes that a sector was stored for.
pub open spec fn bytes_of(stored: Stored) -> Seq<u8> {
    match stored {
        Stored::Plain(s) => s,
        Stored::Pairs(a, b, n) => Seq::new((2 * n) as nat, |i: int| if i % 2 == 0 { a } else { b }),
        Stored::Runs(runs) => bytes_of_runs(runs, runs.len() as int),
    }
}

/// The data record of a sector: its size, how it is stored, and what is stored.
pub open spec fn written_data(stored: Stored) -> Seq<u8> {
    match stored {
        Stored::Plain(s) => two_bytes(s.len() as int + 1) + seq![0u8] + s,
        Stored::Pairs(a, b, n) => two_bytes(5) + seq![1u8] + two_bytes(n) + seq![a, b],
        Stored::Runs(runs) => two_bytes(written_runs(runs, runs.len() as int).len() as int + 1) + seq![2u8] + written_runs(
            runs,
            runs.len() as int,
        ),
    }
}

/// Whether a sector of `size` bytes can be stored so. Runs are read until they fill the sector.
pub open spec fn storable(stored: Stored, size: int) -> bool {
    match stored {
        Stored::Plain(s) => s.len() < 65535,
        Stored::Pairs(a, b, n) => 0 <= n < 65536,
        Stored::Runs(runs) => {
            let n = runs.len() as int;
            &&& n > 0
            &&& forall|i: int| 0 <= i < n ==> fits(#[trigger] runs[i])
            &&& written_runs(runs, n).len() < 65535
            &&& bytes_of_runs(runs, n - 1).len() < size <= bytes_of_runs(runs, n).len()
        },
    }
}

/// The number in two bytes.
pub proof fn lemma_two_bytes(n: int)
    requires
        0 <= n < 65536,
    ensures
        two_bytes(n)[0] + 256 * two_bytes(n)[1] == n,
{
}

/// What is stored of a sector is read back as far as the sector goes, and filled up with zeros
/// where it ends before; a warning is given if it has another size, unless it is in runs.
pub proof fn law_stored_data_reads_back(data: Seq<u8>, cursor: int, size: int, warnings: Seq<Seq<char>>, stored: Stored) -> (r: (
    Seq<u8>,
    Seq<Seq<char>>,
))
    requires
        data.len() <= usize::MAX,
        0 <= size,
        storable(stored, size),
        stands_at(data, cursor, written_data(stored)),
    ensures
        td0_reader::sector_data(data, cursor, size, warnings) == Ok::<(Seq<u8>, int, Seq<Seq<char>>), ErrorView>(
            (r.0, cursor + written_data(stored).len(), r.1),
        ),
        r.0.len() == size,
        forall|i: int|
            0 <= i < size ==> #[trigger] r.0[i] == (if i < bytes_of(stored).len() { bytes_of(stored)[i] } else { 0 }),
        stored is Runs || bytes_of(stored).len() == size ==> r.1 == warnings,
        !(stored is Runs) && bytes_of(stored).len() != size ==> r.1.len() == warnings.len() + 1 && r.1.take(
            warnings.len() as int,
        ) == warnings,
{
    let record = written_data(stored);
    lemma_byte(data, cursor, record, 0);
    lemma_byte(data, cursor, record, 1);
    lemma_byte(data, cursor, record, 2);
    let head = data.subrange(cursor, cursor + 3);
    assert(head[0] == data[cursor] && head[1] == data[cursor + 1] && head[2] == data[cursor + 2]);
    match stored {
        Stored::Plain(s) => {
            lemma_two_bytes(s.len() as int + 1);
            assert(record =~= (two_bytes(s.len() as int + 1) + seq![0u8]) + s);
            lemma_parts(data, cursor, two_bytes(s.len() as int + 1) + seq![0u8], s);
        },
        Stored::Pairs(a, b, n) => {
            lemma_two_bytes(5);
            lemma_two_bytes(n);
            lemma_byte(data, cursor, record, 3);
            lemma_byte(data, cursor, record, 4);
            lemma_byte(data, cursor, record, 5);
            lemma_byte(data, cursor, record, 6);
            let p = data.subrange(cursor + 3, cursor + 7);
            assert(p[0] == data[cursor + 3] && p[1] == data[cursor + 4]);
            let pattern = p.subrange(2, 4);
            assert(pattern =~= seq![a, b]);
            lemma_repeated(pattern, n);
            let all = td0_reader::repeated(pattern, n);
            assert forall|i: int| 0 <= i < all.len() implies all[i] == bytes_of(stored)[i] by {
                assert(all[i] == pattern[i % 2]);
            }
            assert(all =~= bytes_of(stored));
        },
        Stored::Runs(runs) => {
            let n = runs.len() as int;
            let w = written_runs(runs, n);
            lemma_two_bytes(w.len() as int + 1);
            assert(record =~= (two_bytes(w.len() as int + 1) + seq![2u8]) + w);
            lemma_parts(data, cursor, two_bytes(w.len() as int + 1) + seq![2u8], w);
            law_rle_reads_back(data, cursor + 3, size, runs);
        },
    }
    let (d, next) = td0_reader::stored_data(data, cursor, size)->Ok_0;
    assert(!(stored is Runs) ==> d =~= bytes_of(stored));
    if d.len() == size {
        (d, warnings)
    } else {
        let more = warnings.push(td0_reader::size_warning(d.len() as int, size));
        assert(more.take(warnings.len() as int) =~= warnings);
        (td0_reader::resized(d, size), more)
    }
}

/// A data record is refused whose size is 0, that is stored in none of the three ways, or that ends
/// before what it announces.
pub proof fn law_bad_data_is_refused(data: Seq<u8>, cursor: int, size: int, warnings: Seq<Seq<char>>)
    requires
        0 <= cursor <= data.len() <= usize::MAX,
        data.len() < cursor + 3 || data[cursor] + 256 * data[cursor + 1] == 0 || data[cursor + 2] > 2 || data[cursor + 2] == 0
            && data.len() < cursor + 2 + data[cursor] + 256 * data[cursor + 1] || data[cursor + 2] == 1 && data.len() < cursor + 7,
    ensures
        td0_reader::sector_data(data, cursor, size, warnings) matches Err(ErrorView::Parse { offset, message }),
{
    if data.len() >= cursor + 3 {
        let head = data.subrange(cursor, cursor + 3);
        assert(head[0] == data[cursor] && head[1] == data[cursor + 1] && head[2] == data[cursor + 2]);
    }
}

/// Runs are refused that end before the sector is full, and records that announce nothing.
pub proof fn law_bad_runs_are_refused(data: Seq<u8>, cursor: int, size: int, out: Seq<u8>)
    requires
        0 <= cursor,
        out.len() < size,
        data.len() < cursor + 2 || data[cursor + 1] == 0 || data.len() < cursor + 2 + (if data[cursor] == 0 {
            data[cursor + 1] as int
        } else {
            2 * data[cursor]
        }),
    ensures
        td0_reader::rle(data, cursor, size, out) matches Err(ErrorView::Parse { offset, message }),
{
}

}
