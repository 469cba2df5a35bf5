//! Storing and removing files on TR-DOS disks.

use crate::bytes;
use crate::error::{DskError, ErrorView};
use crate::filesystem::names;
use crate::filesystem::trdos;
use crate::filesystem::trdos::{TrdosCatalog, TrdosEntryView, TrdosFileSystem};
use crate::image::laws;
use crate::image::{DiskImage, ImageView};
use crate::text;
use vstd::prelude::*;

verus! {

/// The letter of the file type behind the last dot of a name; code files need none.
pub open spec fn kind_of(name: Seq<char>) -> Option<u8> {
    match text::rfind(name, '.') {
        None => Some(0x43u8),
        Some(i) => if name.len() != i + 2 {
            None
        } else {
            let c = text::upper(name[i + 1]);
            if c == 'B' || c == 'C' || c == 'D' || c == '#' {
                Some(c as u8)
            } else {
                None
            }
        },
    }
}

fn find_kind(name: &Vec<char>) -> (r: Option<u8>)
    ensures
        r == kind_of(name@),
{
    match text::rfind_char(name, '.') {
        None => Some(0x43),
        Some(i) => if name.len() - i != 2 {
            None
        } else {
            let c = text::to_upper(name[i + 1]);
            if c == 'B' || c == 'C' || c == 'D' || c == '#' {
                Some(c as u8)
            } else {
                None
            }
        },
    }
}

/// The address of sector `n`, or why it cannot be read.
pub open spec fn address(image: ImageView, n: int) -> Result<(u8, u8, u8), ErrorView> {
    if image.spec.num_tracks == 0 {
        Err(ErrorView::Filesystem("Invalid TR-DOS geometry"@))
    } else {
        let a = trdos::place(image.spec.num_tracks as int, n);
        match image.read(a.0, a.1, a.2) {
            Err(e) => Err(e),
            Ok(_) => Ok(a),
        }
    }
}

/// The address of sector `n`.
fn trdos_sector(image: &DiskImage, n: usize) -> (r: Result<(u8, u8, u8), DskError>)
    ensures
        match r {
            Ok(a) => address(image@, n as int) == Ok::<(u8, u8, u8), ErrorView>(a),
            Err(e) => address(image@, n as int) == Err::<(u8, u8, u8), ErrorView>(e@),
        },
{
    if image.spec().num_tracks == 0 {
        return Err(DskError::filesystem("Invalid TR-DOS geometry"));
    }
    let a = trdos::trdos_place(image.spec().num_tracks, n);
    match image.read_sector(a.0, a.1, a.2) {
        Err(e) => Err(e),
        Ok(_) => Ok(a),
    }
}

/// The image after the first `n` sectors of a file have been written from sector `first` on.
pub open spec fn stored_to(image: ImageView, first: int, data: Seq<u8>, n: int) -> Result<ImageView, ErrorView>
    decreases n,
{
    if n <= 0 {
        Ok(image)
    } else {
        match stored_to(image, first, data, n - 1) {
            Err(e) => Err(e),
            Ok(i) => match address(i, first + n - 1) {
                Err(e) => Err(e),
                Ok(a) => i.write(a.0, a.1, a.2, bytes::padded_part(data, 256 * (n - 1), 256)),
            },
        }
    }
}

/// Whether nothing was ever stored in a directory slot.
pub open spec fn slot_free(image: ImageView, i: int) -> bool {
    trdos::slot_at(image, i)[8] == 0
}

/// The first free directory slot at or behind `from`.
pub open spec fn slot_from(image: ImageView, from: int) -> Option<int>
    decreases 128 - from,
{
    if from >= 128 {
        None
    } else if slot_free(image, from) {
        Some(from)
    } else {
        slot_from(image, from + 1)
    }
}

/// The image with other bytes within a directory slot.
pub open spec fn with_slot(image: ImageView, index: int, offset: int, part: Seq<u8>) -> Result<ImageView, ErrorView> {
    let id = (index / 16 + 1) as u8;
    match image.read(0, 0, id) {
        Err(e) => Err(e),
        Ok(s) => image.write(0, 0, id, bytes::patched(s, index % 16 * 16 + offset, part)),
    }
}

/// A catalog sector that says where free space begins and how many sectors are free, and that
/// there is one more file, or none.
pub open spec fn catalog_bytes(s: Seq<u8>, next: int, added: bool, free: int) -> Seq<u8> {
    Seq::new(
        s.len(),
        |j: int|
            if j == 225 {
                (next % 16) as u8
            } else if j == 226 {
                (next / 16 % 256) as u8
            } else if j == 228 {
                if added { one_more(s[j]) } else { 0u8 }
            } else if j == 229 {
                (free % 256) as u8
            } else if j == 230 {
                (free / 256 % 256) as u8
            } else {
                s[j]
            },
    )
}

/// One more, but not above 255.
pub open spec fn one_more(n: u8) -> u8 {
    if n == 255 { 255 } else { (n + 1) as u8 }
}

/// The image with another catalog.
pub open spec fn with_catalog(image: ImageView, next: int, added: bool, free: int) -> Result<ImageView, ErrorView> {
    match image.read(0, 0, 9) {
        Err(e) => Err(e),
        Ok(s) => image.write(0, 0, 9, catalog_bytes(s, next, added, free)),
    }
}

/// The directory entry of a file.
pub open spec fn entry_bytes(raw: Seq<u8>, kind: u8, len: int, count: int, catalog: TrdosCatalog) -> Seq<u8> {
    Seq::new(
        16,
        |j: int|
            if j < 8 {
                raw[j]
            } else if j == 8 {
                kind
            } else if j == 9 {
                (len % 256) as u8
            } else if j == 10 {
                (len / 256) as u8
            } else if j == 13 {
                count as u8
            } else if j == 14 {
                catalog.first_free_sector
            } else if j == 15 {
                catalog.first_free_track
            } else {
                0u8
            },
    )
}

/// The number of sectors that a file takes.
pub open spec fn sectors_needed(len: int) -> int {
    bytes::div_up(len, 256)
}

/// The first free sector.
pub open spec fn first_free(catalog: TrdosCatalog) -> int {
    catalog.first_free_track * 16 + catalog.first_free_sector
}

/// The number of sectors on the disk.
pub open spec fn total_sectors(image: ImageView) -> int {
    image.spec.num_tracks * image.spec.num_sides * 16
}

/// The image with a file in the given slot and at the start of the free space.
pub open spec fn stored(
    image: ImageView,
    catalog: TrdosCatalog,
    slot: int,
    raw: Seq<u8>,
    kind: u8,
    data: Seq<u8>,
) -> Result<ImageView, ErrorView> {
    let count = sectors_needed(data.len() as int);
    match stored_to(image, first_free(catalog), data, count) {
        Err(e) => Err(e),
        Ok(i) => match with_slot(i, slot, 0, entry_bytes(raw, kind, data.len() as int, count, catalog)) {
            Err(e) => Err(e),
            Ok(j) => with_catalog(j, first_free(catalog) + count, true, catalog.free_sectors - count),
        },
    }
}

/// The image with a new file, or why it cannot be stored: its name is bad, it is too long, the
/// disk is not formatted, a file of this name exists, or there is no room.
#[verifier::opaque]
pub open spec fn imported(image: ImageView, name: Seq<char>, data: Seq<u8>) -> Result<ImageView, ErrorView> {
    let base = trdos::stem(name);
    let count = sectors_needed(data.len() as int);
    match names::padded(base, 8) {
        Err(e) => Err(e),
        Ok(raw) => match kind_of(name) {
            None => Err(ErrorView::InvalidFilename(name)),
            Some(kind) => if data.len() > 65535 || count > 255 {
                Err(ErrorView::Filesystem("TR-DOS file exceeds format limits"@))
            } else if !trdos::is_trdos(image) {
                Err(ErrorView::Filesystem("Not a TR-DOS disk"@))
            } else {
                match trdos::catalog(image) {
                    None => Err(ErrorView::Filesystem("Format the TR-DOS disk before importing"@)),
                    Some(catalog) => if trdos::find(trdos::entries(image), base) is Some {
                        Err(ErrorView::Filesystem("File already exists"@))
                    } else if first_free(catalog) < 16 || first_free(catalog) + count > total_sectors(image) || count
                        > catalog.free_sectors {
                        Err(ErrorView::DiskFull)
                    } else {
                        match slot_from(image, 0) {
                            None => Err(ErrorView::DiskFull),
                            Some(slot) => stored(image, catalog, slot, raw, kind, data),
                        }
                    },
                }
            },
        },
    }
}

/// A file that stays when another is removed.
#[verifier::ext_equal]
pub struct SurvivorView {
    pub base: Seq<char>,
    pub kind: u8,
    pub param: u16,
    pub data: Seq<u8>,
}

/// The files among the first `n` entries that are not deleted and not called `base`, or why
/// one of them cannot be read.
pub open spec fn survivors_to(image: ImageView, entries: Seq<TrdosEntryView>, base: Seq<char>, n: int) -> Result<Seq<SurvivorView>, ErrorView>
    decreases n,
{
    if n <= 0 {
        Ok(Seq::empty())
    } else {
        match survivors_to(image, entries, base, n - 1) {
            Err(e) => Err(e),
            Ok(list) => {
                let e = entries[n - 1];
                if e.deleted || text::same_name(e.filename, base) {
                    Ok(list)
                } else {
                    match trdos::content(image, e) {
                        Err(e) => Err(e),
                        Ok(data) => Ok(
                            list.push(SurvivorView { base: e.filename, kind: e.file_type, param: e.param1, data }),
                        ),
                    }
                }
            },
        }
    }
}

/// The image after the first `n` directory sectors have been cleared.
pub open spec fn cleared_to(image: ImageView, n: int) -> Result<ImageView, ErrorView>
    decreases n,
{
    if n <= 0 {
        Ok(image)
    } else {
        match cleared_to(image, n - 1) {
            Err(e) => Err(e),
            Ok(i) => i.write(0, 0, n as u8, Seq::new(256, |k: int| 0u8)),
        }
    }
}

/// The image with an empty directory and all space behind track 0 free.
pub open spec fn emptied(image: ImageView) -> Result<ImageView, ErrorView> {
    match cleared_to(image, 8) {
        Err(e) => Err(e),
        Ok(i) => with_catalog(i, 16, false, total_sectors(image) - 16),
    }
}

/// The name under which a file is stored again.
pub open spec fn full_name(base: Seq<char>, kind: u8) -> Seq<char> {
    base.push('.').push(kind as char)
}

/// The image with a file stored again, start address or the like included.
pub open spec fn restored(image: ImageView, file: SurvivorView) -> Result<ImageView, ErrorView> {
    match imported(image, full_name(file.base, file.kind), file.data) {
        Err(e) => Err(e),
        Ok(i) => with_slot(
            i,
            trdos::find(trdos::entries(i), file.base).unwrap().index,
            11,
            seq![(file.param % 256) as u8, (file.param / 256) as u8],
        ),
    }
}

/// The image after the first `n` files of a list have been stored again.
pub open spec fn restored_to(image: ImageView, files: Seq<SurvivorView>, n: int) -> Result<ImageView, ErrorView>
    decreases n,
{
    if n <= 0 {
        Ok(image)
    } else {
        match restored_to(image, files, n - 1) {
            Err(e) => Err(e),
            Ok(i) => restored(i, files[n - 1]),
        }
    }
}

/// The image without a file, and with the others moved together, or why it cannot be removed.
pub open spec fn deleted(image: ImageView, name: Seq<char>) -> Result<ImageView, ErrorView> {
    let base = trdos::stem(name);
    let entries = trdos::entries(image);
    if !trdos::is_trdos(image) {
        Err(ErrorView::Filesystem("Not a TR-DOS disk"@))
    } else if trdos::find(entries, base) is None {
        Err(ErrorView::FileNotFound(name))
    } else {
        match survivors_to(image, entries, base, entries.len() as int) {
            Err(e) => Err(e),
            Ok(files) => match emptied(image) {
                Err(e) => Err(e),
                Ok(i) => restored_to(i, files, files.len() as int),
            },
        }
    }
}

/// Sectors behind track 0 lie on other tracks.
pub proof fn lemma_place(tracks: int, sides: int, n: int)
    requires
        0 < tracks <= 255,
        0 <= sides <= 255,
        16 <= n < tracks * sides * 16,
    ensures
        trdos::place(tracks, n).0 != 0 || trdos::place(tracks, n).1 != 0,
        trdos::place(tracks, n).0 == n / 16 / tracks,
        trdos::place(tracks, n).1 == n / 16 % tracks,
{
    let lt = n / 16;
    assert(lt < tracks * sides);
    vstd::arithmetic::div_mod::lemma_fundamental_div_mod(lt, tracks);
    let q = lt / tracks;
    let r = lt % tracks;
    assert(0 <= q < 256) by (nonlinear_arith)
        requires
            lt == tracks * q + r,
            0 <= r < tracks,
            0 <= lt < tracks * sides,
            sides <= 255,
    ;
    assert(q == 0 ==> r == lt) by (nonlinear_arith)
        requires
            lt == tracks * q + r,
    ;
}

/// Data that is stored behind track 0 leaves track 0 as it was.
pub proof fn lemma_stored(image: ImageView, first: int, data: Seq<u8>, n: int)
    requires
        image.spec.num_tracks > 0,
        first >= 16,
        n >= 0,
        first + n <= total_sectors(image),
    ensures
        stored_to(image, first, data, n) matches Ok(after) ==> {
            &&& laws::same_layout(image, after)
            &&& forall|id: u8| #[trigger] after.read(0, 0, id) == image.read(0, 0, id)
        },
    decreases n,
{
    if n > 0 {
        lemma_stored(image, first, data, n - 1);
        if let Ok(after) = stored_to(image, first, data, n) {
            let before = stored_to(image, first, data, n - 1)->Ok_0;
            let a = address(before, first + n - 1)->Ok_0;
            let part = bytes::padded_part(data, 256 * (n - 1), 256);
            lemma_place(image.spec.num_tracks as int, image.spec.num_sides as int, first + n - 1);
            laws::law_write_keeps_layout(before, after, a.0, a.1, a.2, part);
            laws::lemma_same_layout_chain(image, before, after);
            assert forall|id: u8| #[trigger] after.read(0, 0, id) == image.read(0, 0, id) by {
                laws::law_write_leaves_others(before, after, a.0, a.1, a.2, part, 0, 0, id);
            }
        }
    }
}

/// A change within a directory slot changes nothing else.
pub proof fn lemma_with_slot(image: ImageView, index: int, offset: int, part: Seq<u8>)
    requires
        trdos::is_trdos(image),
        0 <= index < 128,
        0 <= offset,
        offset + part.len() <= 16,
    ensures
        with_slot(image, index, offset, part) matches Ok(after) && {
            &&& laws::same_layout(image, after)
            &&& trdos::is_trdos(after)
            &&& trdos::slot_at(after, index) == bytes::patched(trdos::slot_at(image, index), offset, part)
            &&& forall|i: int| 0 <= i < 128 && i != index ==> #[trigger] trdos::slot_at(after, i) == trdos::slot_at(image, i)
            &&& trdos::system_sector(after, 9) == trdos::system_sector(image, 9)
            &&& forall|s: u8, t: u8, id: u8| (s != 0 || t != 0) ==> #[trigger] after.read(s, t, id) == image.read(s, t, id)
        },
{
    let id = (index / 16 + 1) as u8;
    assert(1 <= id <= 8);
    assert(image.read(0, 0, id) is Ok);
    let s = image.read(0, 0, id)->Ok_0;
    let at = index % 16 * 16 + offset;
    let p = bytes::patched(s, at, part);
    let after = with_slot(image, index, offset, part)->Ok_0;
    assert(image.sector(0, 0, id) is Some);
    laws::law_write_keeps_layout(image, after, 0, 0, id, p);
    laws::law_read_after_write(image, after, 0, 0, id, p);
    assert forall|k: u8| k != id implies #[trigger] after.read(0, 0, k) == image.read(0, 0, k) by {
        laws::law_write_leaves_others(image, after, 0, 0, id, p, 0, 0, k);
    }
    assert forall|k: u8| 1 <= k <= 9 implies (#[trigger] after.read(0, 0, k) matches Ok(s) && s.len() >= 256) by {
        assert(image.read(0, 0, k) matches Ok(s) && s.len() >= 256);
    }
    assert(trdos::slot_at(after, index) =~= bytes::patched(trdos::slot_at(image, index), offset, part));
    assert forall|i: int| 0 <= i < 128 && i != index implies #[trigger] trdos::slot_at(after, i) == trdos::slot_at(image, i) by {
        let k = (i / 16 + 1) as u8;
        if k == id {
            assert(trdos::slot_at(after, i) =~= trdos::slot_at(image, i));
        } else {
            assert(after.read(0, 0, k) == image.read(0, 0, k));
        }
    }
    assert(after.read(0, 0, 9) == image.read(0, 0, 9));
    assert forall|s: u8, t: u8, k: u8| (s != 0 || t != 0) implies #[trigger] after.read(s, t, k) == image.read(s, t, k) by {
        laws::law_write_leaves_others(image, after, 0, 0, id, p, s, t, k);
    }
}

/// A new catalog changes nothing else.
pub proof fn lemma_with_catalog(image: ImageView, next: int, added: bool, free: int)
    requires
        trdos::is_trdos(image),
    ensures
        with_catalog(image, next, added, free) matches Ok(after) && {
            &&& laws::same_layout(image, after)
            &&& trdos::is_trdos(after)
            &&& trdos::system_sector(after, 9) == catalog_bytes(trdos::system_sector(image, 9), next, added, free)
            &&& forall|i: int| 0 <= i < 128 ==> #[trigger] trdos::slot_at(after, i) == trdos::slot_at(image, i)
            &&& forall|s: u8, t: u8, id: u8| (s != 0 || t != 0) ==> #[trigger] after.read(s, t, id) == image.read(s, t, id)
        },
{
    assert(image.read(0, 0, 9) is Ok);
    assert(image.sector(0, 0, 9) is Some);
    let s = image.read(0, 0, 9)->Ok_0;
    let p = catalog_bytes(s, next, added, free);
    let after = with_catalog(image, next, added, free)->Ok_0;
    laws::law_write_keeps_layout(image, after, 0, 0, 9, p);
    laws::law_read_after_write(image, after, 0, 0, 9, p);
    assert forall|k: u8| k != 9 implies #[trigger] after.read(0, 0, k) == image.read(0, 0, k) by {
        laws::law_write_leaves_others(image, after, 0, 0, 9, p, 0, 0, k);
    }
    assert forall|k: u8| 1 <= k <= 9 implies (#[trigger] after.read(0, 0, k) matches Ok(s) && s.len() >= 256) by {
        assert(image.read(0, 0, k) matches Ok(s) && s.len() >= 256);
    }
    assert forall|i: int| 0 <= i < 128 implies #[trigger] trdos::slot_at(after, i) == trdos::slot_at(image, i) by {
        let k = (i / 16 + 1) as u8;
        assert(after.read(0, 0, k) == image.read(0, 0, k));
    }
    assert forall|s: u8, t: u8, k: u8| (s != 0 || t != 0) implies #[trigger] after.read(s, t, k) == image.read(s, t, k) by {
        laws::law_write_leaves_others(image, after, 0, 0, 9, p, s, t, k);
    }
}

/// Where a free slot is found.
pub proof fn lemma_slot_from(image: ImageView, from: int)
    requires
        0 <= from,
    ensures
        slot_from(image, from) matches Some(i) ==> from <= i < 128 && slot_free(image, i),
    decreases 128 - from,
{
    if from < 128 && !slot_free(image, from) {
        lemma_slot_from(image, from + 1);
    }
}

/// Every slot in use has its entry in the directory.
pub proof fn lemma_entry_listed(image: ImageView, i: int, n: int)
    requires
        0 <= i < n,
        trdos::entry_of(trdos::slot_at(image, i), i) is Some,
    ensures
        exists|k: int| 0 <= k < trdos::entries_to(image, n).len() && #[trigger] trdos::entries_to(image, n)[k]
            == trdos::entry_of(trdos::slot_at(image, i), i).unwrap(),
    decreases n,
{
    let e = trdos::entry_of(trdos::slot_at(image, i), i).unwrap();
    let list = trdos::entries_to(image, n);
    if i == n - 1 {
        assert(list[list.len() - 1] == e);
    } else {
        lemma_entry_listed(image, i, n - 1);
        let rest = trdos::entries_to(image, n - 1);
        let k = choose|k: int| 0 <= k < rest.len() && #[trigger] rest[k] == e;
        assert(list[k] == e);
    }
}

/// Every entry of the directory is that of its slot.
pub proof fn lemma_listed_entry(image: ImageView, n: int, k: int)
    requires
        0 <= k < trdos::entries_to(image, n).len(),
        n <= 128,
    ensures
        ({
            let e = trdos::entries_to(image, n)[k];
            0 <= e.index < n && trdos::entry_of(trdos::slot_at(image, e.index), e.index) == Some(e)
        }),
    decreases n,
{
    if n > 0 {
        let rest = trdos::entries_to(image, n - 1);
        if k < rest.len() {
            lemma_listed_entry(image, n - 1, k);
            assert(trdos::entries_to(image, n)[k] == rest[k]);
        }
    }
}

/// A file that is found is the first of the files with its name.
pub proof fn lemma_find(entries: Seq<TrdosEntryView>, name: Seq<char>, from: int)
    requires
        0 <= from <= entries.len(),
    ensures
        match trdos::find_from(entries, name, from) {
            Some(e) => exists|k: int| from <= k < entries.len() && #[trigger] entries[k] == e && trdos::is_file(e, name),
            None => forall|k: int| from <= k < entries.len() ==> !trdos::is_file(#[trigger] entries[k], name),
        },
    decreases entries.len() - from,
{
    if from < entries.len() {
        if trdos::is_file(entries[from], name) {
            assert(entries[from] == entries[from]);
        } else {
            lemma_find(entries, name, from + 1);
        }
    }
}

/// The directory entry that a new file gets.
pub open spec fn new_entry(image: ImageView, name: Seq<char>, data: Seq<u8>) -> TrdosEntryView {
    let catalog = trdos::catalog(image).unwrap();
    TrdosEntryView {
        index: slot_from(image, 0).unwrap(),
        filename: text::upper_all(trdos::stem(name)),
        deleted: false,
        file_type: kind_of(name).unwrap(),
        length: data.len() as u16,
        param1: 0,
        sectors: sectors_needed(data.len() as int) as u8,
        start_sector: catalog.first_free_sector,
        start_track: catalog.first_free_track,
    }
}

/// What a new file changes: it gets one directory slot, and its sectors.
pub proof fn lemma_imported(image: ImageView, name: Seq<char>, data: Seq<u8>, after: ImageView)
    requires
        imported(image, name, data) == Ok::<ImageView, ErrorView>(after),
    ensures
        laws::same_layout(image, after),
        trdos::is_trdos(image),
        trdos::is_trdos(after),
        trdos::catalog(image) is Some,
        kind_of(name) is Some,
        trdos::find(trdos::entries(image), trdos::stem(name)) is None,
        ({
            let c = trdos::catalog(image).unwrap();
            let count = sectors_needed(data.len() as int);
            &&& 16 <= first_free(c)
            &&& 0 <= count <= 255
            &&& count <= c.free_sectors
            &&& first_free(c) + count <= total_sectors(image)
        }),
        slot_from(image, 0) matches Some(slot) && 0 <= slot < 128 && slot_free(image, slot) && trdos::entry_of(
            trdos::slot_at(after, slot),
            slot,
        ) == Some(new_entry(image, name, data)),
        names::fits(trdos::stem(name), 8),
        trdos::slot_at(after, slot_from(image, 0).unwrap()) == entry_bytes(
            names::padded_bytes(trdos::stem(name), 8),
            kind_of(name).unwrap(),
            data.len() as int,
            sectors_needed(data.len() as int),
            trdos::catalog(image).unwrap(),
        ),
        forall|i: int| 0 <= i < 128 && i != slot_from(image, 0).unwrap() ==> #[trigger] trdos::slot_at(after, i) == trdos::slot_at(image, i),
        ({
            let c = trdos::catalog(image).unwrap();
            let count = sectors_needed(data.len() as int);
            &&& trdos::system_sector(after, 9) == catalog_bytes(trdos::system_sector(image, 9), first_free(c) + count, true, c.free_sectors - count)
            &&& stored_to(image, first_free(c), data, count) matches Ok(mid) && (forall|s: u8, t: u8, id: u8|
                (s != 0 || t != 0) ==> #[trigger] after.read(s, t, id) == mid.read(s, t, id))
        }),
{
    reveal(imported);
    let base = trdos::stem(name);
    let count = sectors_needed(data.len() as int);
    let raw = names::padded(base, 8)->Ok_0;
    let kind = kind_of(name).unwrap();
    let c = trdos::catalog(image).unwrap();
    let slot = slot_from(image, 0).unwrap();
    bytes::lemma_div_up(data.len() as int, 256);
    lemma_slot_from(image, 0);
    lemma_stored(image, first_free(c), data, count);
    let mid = stored_to(image, first_free(c), data, count)->Ok_0;
    assert(trdos::is_trdos(mid)) by {
        assert forall|k: u8| 1 <= k <= 9 implies (#[trigger] mid.read(0, 0, k) matches Ok(s) && s.len() >= 256) by {
            assert(image.read(0, 0, k) matches Ok(s) && s.len() >= 256);
            assert(mid.read(0, 0, k) == image.read(0, 0, k));
        }
    }
    let entry = entry_bytes(raw, kind, data.len() as int, count, c);
    lemma_with_slot(mid, slot, 0, entry);
    let last = with_slot(mid, slot, 0, entry)->Ok_0;
    lemma_with_catalog(last, first_free(c) + count, true, c.free_sectors - count);
    laws::lemma_same_layout_chain(image, mid, last);
    laws::lemma_same_layout_chain(image, last, after);
    assert forall|i: int| 0 <= i < 128 && i != slot implies #[trigger] trdos::slot_at(after, i) == trdos::slot_at(image, i) by {
        let k = (i / 16 + 1) as u8;
        assert(mid.read(0, 0, k) == image.read(0, 0, k));
        assert(trdos::slot_at(last, i) == trdos::slot_at(mid, i));
    }
    assert(mid.read(0, 0, 9) == image.read(0, 0, 9));
    let k = (slot / 16 + 1) as u8;
    assert(image.read(0, 0, k) matches Ok(s) && s.len() >= 256);
    assert(mid.read(0, 0, k) == image.read(0, 0, k));
    let stored = trdos::slot_at(after, slot);
    assert(trdos::slot_at(after, slot) == trdos::slot_at(last, slot));
    assert(stored =~= entry);
    assert(names::fits(base, 8));
    assert(stored.subrange(0, 8) =~= names::padded_bytes(base, 8));
    names::lemma_padded_text(base, 8);
    assert(names::storable(base[0]));
    assert(stored[0] == text::upper(base[0]) as u8);
    assert(stored[0] > 1);
}

/// A new file is found under its name.
pub proof fn lemma_imported_found(image: ImageView, name: Seq<char>, data: Seq<u8>, after: ImageView)
    requires
        imported(image, name, data) == Ok::<ImageView, ErrorView>(after),
    ensures
        trdos::find(trdos::entries(after), trdos::stem(name)) == Some(new_entry(image, name, data)),
{
    let base = trdos::stem(name);
    lemma_imported(image, name, data, after);
    let slot = slot_from(image, 0).unwrap();
    let e = new_entry(image, name, data);
    text::lemma_upper_same(base);
    lemma_entry_listed(after, slot, 128);
    let list = trdos::entries(after);
    let k = choose|k: int| 0 <= k < list.len() && #[trigger] list[k] == e;
    assert(trdos::is_file(list[k], base));
    lemma_find(list, base, 0);
    let f = trdos::find(list, base).unwrap();
    let m = choose|m: int| 0 <= m < list.len() && #[trigger] list[m] == f && trdos::is_file(f, base);
    lemma_listed_entry(after, 128, m);
    if f.index != slot {
        assert(trdos::slot_at(after, f.index) == trdos::slot_at(image, f.index));
        lemma_entry_listed(image, f.index, 128);
        let old = trdos::entries(image);
        let j = choose|j: int| 0 <= j < old.len() && #[trigger] old[j] == f;
        lemma_find(old, base, 0);
        assert(!trdos::is_file(old[j], base));
    }
}

/// The type behind the dot does not change the name before it.
pub proof fn lemma_full_name(base: Seq<char>, kind: u8)
    requires
        kind_of(full_name(base, kind)) is Some,
    ensures
        trdos::stem(full_name(base, kind)) == base,
        kind_of(full_name(base, kind)) == Some(text::upper(kind as char) as u8),
{
    let name = full_name(base, kind);
    reveal_with_fuel(text::rfind, 2);
    assert(name.drop_last() =~= base.push('.'));
    assert(kind as char != '.');
    assert(text::rfind(name, '.') == Some(base.len() as int));
    assert(name.take(base.len() as int) =~= base);
}

/// Writes the sectors of a file.
fn store_sectors(image: &mut DiskImage, first: usize, data: &[u8], count: usize) -> (r: Result<(), DskError>)
    requires
        first <= 4335,
        count <= 255,
    ensures
        match r {
            Ok(()) => stored_to(old(image)@, first as int, data@, count as int) == Ok::<ImageView, ErrorView>(final(image)@),
            Err(e) => stored_to(old(image)@, first as int, data@, count as int) == Err::<ImageView, ErrorView>(e@),
        },
        laws::same_layout(old(image)@, final(image)@),
{
    proof {
        laws::lemma_same_layout_reflexive(image@);
    }
    let ghost before = image@;
    let mut i: usize = 0;
    while i < count
        invariant
            i <= count <= 255,
            first <= 4335,
            before == old(image)@,
            stored_to(before, first as int, data@, i as int) == Ok::<ImageView, ErrorView>(image@),
            laws::same_layout(before, image@),
        decreases count - i,
    {
        let a = match trdos_sector(image, first + i) {
            Ok(a) => a,
            Err(e) => {
                proof {
                    lemma_stored_stop(before, first as int, data@, i + 1, count as int);
                }
                return Err(e);
            },
        };
        let sector = bytes::take_part(data, 256 * i, 256);
        let ghost so_far = image@;
        let written = image.write_sector(a.0, a.1, a.2, sector.as_slice());
        proof {
            laws::lemma_same_layout_chain(before, so_far, image@);
        }
        match written {
            Ok(()) => {},
            Err(e) => {
                proof {
                    lemma_stored_stop(before, first as int, data@, i + 1, count as int);
                }
                return Err(e);
            },
        }
        i = i + 1;
    }
    Ok(())
}

/// An error while the first sectors are written is an error of the whole.
proof fn lemma_stored_stop(image: ImageView, first: int, data: Seq<u8>, i: int, n: int)
    requires
        i <= n,
        stored_to(image, first, data, i) is Err,
    ensures
        stored_to(image, first, data, n) == stored_to(image, first, data, i),
    decreases n - i,
{
    if i < n {
        lemma_stored_stop(image, first, data, i, n - 1);
    }
}

/// Replaces bytes within a directory slot.
fn write_slot(image: &mut DiskImage, index: usize, offset: usize, part: &[u8]) -> (r: Result<(), DskError>)
    requires
        index < 128,
        offset < 16,
    ensures
        match r {
            Ok(()) => with_slot(old(image)@, index as int, offset as int, part@) == Ok::<ImageView, ErrorView>(final(image)@),
            Err(e) => with_slot(old(image)@, index as int, offset as int, part@) == Err::<ImageView, ErrorView>(e@),
        },
        laws::same_layout(old(image)@, final(image)@),
{
    proof {
        laws::lemma_same_layout_reflexive(image@);
    }
    let id: u8 = (index / 16 + 1) as u8;
    let sector = match image.read_sector(0, 0, id) {
        Err(e) => {
            return Err(e);
        },
        Ok(s) => bytes::patch(s, index % 16 * 16 + offset, part),
    };
    image.write_sector(0, 0, id, sector.as_slice())
}

/// Replaces what the catalog says.
fn write_catalog(image: &mut DiskImage, next: usize, added: bool, free: usize) -> (r: Result<(), DskError>)
    ensures
        match r {
            Ok(()) => with_catalog(old(image)@, next as int, added, free as int) == Ok::<ImageView, ErrorView>(final(image)@),
            Err(e) => with_catalog(old(image)@, next as int, added, free as int) == Err::<ImageView, ErrorView>(e@),
        },
        laws::same_layout(old(image)@, final(image)@),
{
    proof {
        laws::lemma_same_layout_reflexive(image@);
    }
    let sector: Vec<u8> = match image.read_sector(0, 0, 9) {
        Err(e) => {
            return Err(e);
        },
        Ok(s) => {
            let mut v: Vec<u8> = Vec::new();
            let mut j: usize = 0;
            while j < s.len()
                invariant
                    j <= s@.len(),
                    v@ =~= catalog_bytes(s@, next as int, added, free as int).take(j as int),
                decreases s@.len() - j,
            {
                let b: u8 = if j == 225 {
                    (next % 16) as u8
                } else if j == 226 {
                    (next / 16 % 256) as u8
                } else if j == 228 {
                    if added { s[j].saturating_add(1) } else { 0 }
                } else if j == 229 {
                    (free % 256) as u8
                } else if j == 230 {
                    (free / 256 % 256) as u8
                } else {
                    s[j]
                };
                v.push(b);
                j = j + 1;
            }
            assert(v@ =~= catalog_bytes(s@, next as int, added, free as int));
            v
        },
    };
    image.write_sector(0, 0, 9, sector.as_slice())
}

/// Finds the first free directory slot.
fn find_slot(image: &DiskImage) -> (r: Option<usize>)
    requires
        trdos::is_trdos(image@),
    ensures
        match r {
            Some(i) => i < 128 && slot_from(image@, 0) == Some(i as int),
            None => slot_from(image@, 0) is None,
        },
{
    let mut i: usize = 0;
    while i < 128
        invariant
            i <= 128,
            trdos::is_trdos(image@),
            slot_from(image@, 0) == slot_from(image@, i as int),
        decreases 128 - i,
    {
        let id: u8 = (i / 16 + 1) as u8;
        assert(image@.read(0, 0, id) matches Ok(s) && s.len() >= 256);
        if let Ok(s) = image.read_sector(0, 0, id) {
            assert(trdos::slot_at(image@, i as int)[8] == s@[i as int % 16 * 16 + 8]);
            if s[i % 16 * 16 + 8] == 0 {
                return Some(i);
            }
        }
        i = i + 1;
    }
    None
}

/// The directory entry of a file.
fn make_entry(raw: &Vec<u8>, kind: u8, len: u16, count: u8, catalog: TrdosCatalog) -> (entry: Vec<u8>)
    requires
        raw@.len() == 8,
    ensures
        entry@ == entry_bytes(raw@, kind, len as int, count as int, catalog),
{
    let (low, high) = bytes::split_word(len);
    let mut entry: Vec<u8> = vstd::slice::slice_to_vec(raw.as_slice());
    entry.push(kind);
    entry.push(low);
    entry.push(high);
    entry.push(0);
    entry.push(0);
    entry.push(count);
    entry.push(catalog.first_free_sector);
    entry.push(catalog.first_free_track);
    assert(entry@ =~= entry_bytes(raw@, kind, len as int, count as int, catalog));
    entry
}

/// Stores a new file. After an error the image may be half-written, but keeps its layout.
pub fn trdos_import(image: &mut DiskImage, name: &str, data: &[u8]) -> (r: Result<(), DskError>)
    ensures
        match r {
            Ok(()) => imported(old(image)@, name@, data@) == Ok::<ImageView, ErrorView>(final(image)@),
            Err(e) => imported(old(image)@, name@, data@) == Err::<ImageView, ErrorView>(e@),
        },
        laws::same_layout(old(image)@, final(image)@),
{
    proof {
        reveal(imported);
        laws::lemma_same_layout_reflexive(image@);
    }
    let chars = text::chars_of(name);
    let base = trdos::stem_of(&chars);
    let raw = match names::padded_name(&base, 8) {
        Ok(raw) => raw,
        Err(e) => {
            return Err(e);
        },
    };
    let kind = match find_kind(&chars) {
        Some(kind) => kind,
        None => {
            return Err(DskError::InvalidFilename(name.to_string()));
        },
    };
    let count = bytes::ceil_div(data.len(), 256);
    if data.len() > 65535 || count > 255 {
        return Err(DskError::filesystem("TR-DOS file exceeds format limits"));
    }
    let catalog = {
        let fs = match TrdosFileSystem::new(image) {
            Ok(fs) => fs,
            Err(e) => {
                return Err(e);
            },
        };
        let catalog = match fs.catalog() {
            Some(c) => *c,
            None => {
                return Err(DskError::filesystem("Format the TR-DOS disk before importing"));
            },
        };
        if let Some(_) = fs.find_file(&base) {
            return Err(DskError::filesystem("File already exists"));
        }
        catalog
    };
    let first: usize = catalog.first_free_track as usize * 16 + catalog.first_free_sector as usize;
    proof {
        crate::specification::lemma_small_product(
            image@.spec.num_tracks as int,
            255,
            image@.spec.num_sides as int,
            255,
        );
    }
    let total: usize = image.spec().num_tracks as usize * image.spec().num_sides as usize * 16;
    if first < 16 || first + count > total || count > catalog.free_sectors as usize {
        return Err(DskError::DiskFull);
    }
    let slot = match find_slot(image) {
        Some(slot) => slot,
        None => {
            return Err(DskError::DiskFull);
        },
    };
    let entry = make_entry(&raw, kind, data.len() as u16, count as u8, catalog);
    match store_sectors(image, first, data, count) {
        Ok(()) => {},
        Err(e) => {
            return Err(e);
        },
    }
    let ghost stored = image@;
    let entered = write_slot(image, slot, 0, entry.as_slice());
    proof {
        laws::lemma_same_layout_chain(old(image)@, stored, image@);
    }
    match entered {
        Ok(()) => {},
        Err(e) => {
            return Err(e);
        },
    }
    let ghost listed = image@;
    let counted = write_catalog(image, first + count, true, catalog.free_sectors as usize - count);
    proof {
        laws::lemma_same_layout_chain(old(image)@, listed, image@);
    }
    counted
}

/// A file that stays when another is removed.
struct Survivor {
    base: Vec<char>,
    kind: u8,
    param: u16,
    data: Vec<u8>,
}

impl Survivor {
    spec fn holds(&self) -> SurvivorView {
        SurvivorView { base: self.base@, kind: self.kind, param: self.param, data: self.data@ }
    }
}

/// The values of a list of files.
spec fn survivor_views(s: Seq<Survivor>) -> Seq<SurvivorView> {
    Seq::new(s.len(), |i: int| s[i].holds())
}

/// Reads the files that are not deleted and not called `base`.
fn read_survivors(fs: &TrdosFileSystem, base: &Vec<char>) -> (r: Result<Vec<Survivor>, DskError>)
    ensures
        ({
            let entries = trdos::entries(fs.disk());
            let all = survivors_to(fs.disk(), entries, base@, entries.len() as int);
            match r {
                Ok(list) => all == Ok::<Seq<SurvivorView>, ErrorView>(survivor_views(list@)),
                Err(e) => all == Err::<Seq<SurvivorView>, ErrorView>(e@),
            }
        }),
{
    let directory = fs.directory();
    let ghost entries = trdos::entries(fs.disk());
    assert(entries.len() == directory@.len());
    let mut list: Vec<Survivor> = Vec::new();
    let mut i: usize = 0;
    assert(survivor_views(list@) =~= Seq::<SurvivorView>::empty());
    while i < directory.len()
        invariant
            i <= directory@.len(),
            entries == trdos::entries(fs.disk()),
            entries == trdos::trdos_views(directory@),
            survivors_to(fs.disk(), entries, base@, i as int) == Ok::<Seq<SurvivorView>, ErrorView>(survivor_views(list@)),
        decreases directory@.len() - i,
    {
        let e = &directory[i];
        assert(entries[i as int] == e@);
        let filename = text::chars_of(e.filename.as_str());
        if !e.deleted && !text::names_match(&filename, base) {
            match fs.read_file_data(e) {
                Err(e) => {
                    proof {
                        lemma_survivors_stop(fs.disk(), entries, base@, i + 1, entries.len() as int);
                    }
                    return Err(e);
                },
                Ok(data) => {
                    let ghost before = list@;
                    let file = Survivor { base: filename, kind: e.file_type, param: e.param1, data };
                    list.push(file);
                    assert(survivor_views(list@) =~= survivor_views(before).push(file.holds()));
                },
            }
        }
        i = i + 1;
    }
    Ok(list)
}

/// An error among the first files is an error of the whole list.
proof fn lemma_survivors_stop(image: ImageView, entries: Seq<TrdosEntryView>, base: Seq<char>, i: int, n: int)
    requires
        i <= n,
        survivors_to(image, entries, base, i) is Err,
    ensures
        survivors_to(image, entries, base, n) == survivors_to(image, entries, base, i),
    decreases n - i,
{
    if i < n {
        lemma_survivors_stop(image, entries, base, i, n - 1);
    }
}

/// Empties the directory.
fn clear_directory(image: &mut DiskImage) -> (r: Result<(), DskError>)
    requires
        old(image)@.spec.num_tracks > 0,
        old(image)@.spec.num_sides > 0,
    ensures
        match r {
            Ok(()) => emptied(old(image)@) == Ok::<ImageView, ErrorView>(final(image)@),
            Err(e) => emptied(old(image)@) == Err::<ImageView, ErrorView>(e@),
        },
        laws::same_layout(old(image)@, final(image)@),
{
    proof {
        laws::lemma_same_layout_reflexive(image@);
    }
    let ghost before = image@;
    let tracks = image.spec().num_tracks as usize;
    let sides = image.spec().num_sides as usize;
    proof {
        crate::specification::lemma_small_product(tracks as int, 255, sides as int, 255);
        assert(tracks * sides >= 1) by (nonlinear_arith)
            requires
                tracks >= 1,
                sides >= 1,
        ;
    }
    let total: usize = tracks * sides * 16;
    let zeros: Vec<u8> = vec![0u8; 256];
    assert(zeros@ =~= Seq::new(256, |k: int| 0u8));
    let mut id: u8 = 1;
    while id <= 8
        invariant
            1 <= id <= 9,
            before == old(image)@,
            zeros@ == Seq::new(256, |k: int| 0u8),
            cleared_to(before, id - 1) == Ok::<ImageView, ErrorView>(image@),
            laws::same_layout(before, image@),
        decreases 9 - id,
    {
        let ghost so_far = image@;
        let written = image.write_sector(0, 0, id, zeros.as_slice());
        proof {
            laws::lemma_same_layout_chain(before, so_far, image@);
        }
        match written {
            Ok(()) => {},
            Err(e) => {
                proof {
                    lemma_cleared_stop(before, id as int, 8);
                }
                return Err(e);
            },
        }
        id = id + 1;
    }
    let ghost cleared = image@;
    let counted = write_catalog(image, 16, false, total - 16);
    proof {
        laws::lemma_same_layout_chain(before, cleared, image@);
    }
    counted
}

/// An error while the first sectors are cleared is an error of the whole.
proof fn lemma_cleared_stop(image: ImageView, i: int, n: int)
    requires
        i <= n,
        cleared_to(image, i) is Err,
    ensures
        cleared_to(image, n) == cleared_to(image, i),
    decreases n - i,
{
    if i < n {
        lemma_cleared_stop(image, i, n - 1);
    }
}

/// Stores a file again.
fn restore(image: &mut DiskImage, file: &Survivor) -> (r: Result<(), DskError>)
    ensures
        match r {
            Ok(()) => restored(old(image)@, file.holds()) == Ok::<ImageView, ErrorView>(final(image)@),
            Err(e) => restored(old(image)@, file.holds()) == Err::<ImageView, ErrorView>(e@),
        },
        laws::same_layout(old(image)@, final(image)@),
{
    let mut name = text::string_of(&file.base);
    name.push('.');
    name.push(file.kind as char);
    assert(name@ =~= full_name(file.base@, file.kind));
    match trdos_import(image, name.as_str(), file.data.as_slice()) {
        Ok(()) => {},
        Err(e) => {
            return Err(e);
        },
    }
    proof {
        lemma_imported(old(image)@, name@, file.data@, image@);
        lemma_full_name(file.base@, file.kind);
        lemma_imported_found(old(image)@, name@, file.data@, image@);
    }
    let index: usize = {
        let fs = match TrdosFileSystem::new(image) {
            Ok(fs) => fs,
            Err(e) => {
                assert(false);
                return Err(e);
            },
        };
        match fs.find_file(&file.base) {
            Some(e) => e.index,
            None => {
                assert(false);
                return Err(DskError::DiskFull);
            },
        }
    };
    let (low, high) = bytes::split_word(file.param);
    let param: Vec<u8> = vec![low, high];
    assert(param@ =~= seq![(file.param % 256) as u8, (file.param / 256) as u8]);
    let ghost stored = image@;
    let written = write_slot(image, index, 11, param.as_slice());
    proof {
        laws::lemma_same_layout_chain(old(image)@, stored, image@);
    }
    written
}

/// Removes a file and moves the others together. After an error the image may be half-written,
/// but keeps its layout.
pub fn trdos_delete(image: &mut DiskImage, name: &str) -> (r: Result<(), DskError>)
    ensures
        match r {
            Ok(()) => deleted(old(image)@, name@) == Ok::<ImageView, ErrorView>(final(image)@),
            Err(e) => deleted(old(image)@, name@) == Err::<ImageView, ErrorView>(e@),
        },
        laws::same_layout(old(image)@, final(image)@),
{
    proof {
        laws::lemma_same_layout_reflexive(image@);
    }
    let base = trdos::stem_of(&text::chars_of(name));
    let files = {
        let fs = match TrdosFileSystem::new(image) {
            Ok(fs) => fs,
            Err(e) => {
                return Err(e);
            },
        };
        if let None = fs.find_file(&base) {
            return Err(DskError::FileNotFound(name.to_string()));
        }
        match read_survivors(&fs, &base) {
            Ok(files) => files,
            Err(e) => {
                return Err(e);
            },
        }
    };
    match clear_directory(image) {
        Ok(()) => {},
        Err(e) => {
            return Err(e);
        },
    }
    let ghost list = survivor_views(files@);
    let ghost empty = image@;
    let mut i: usize = 0;
    while i < files.len()
        invariant
            i <= files@.len(),
            list == survivor_views(files@),
            restored_to(empty, list, i as int) == Ok::<ImageView, ErrorView>(image@),
            laws::same_layout(old(image)@, image@),
            deleted(old(image)@, name@) == restored_to(empty, list, list.len() as int),
        decreases files@.len() - i,
    {
        assert(list[i as int] == files@[i as int].holds());
        let ghost so_far = image@;
        let written = restore(image, &files[i]);
        proof {
            laws::lemma_same_layout_chain(old(image)@, so_far, image@);
        }
        match written {
            Ok(()) => {},
            Err(e) => {
                proof {
                    lemma_restored_stop(empty, list, i + 1, list.len() as int);
                }
                return Err(e);
            },
        }
        i = i + 1;
    }
    Ok(())
}

/// An error while the first files are stored again is an error of the whole.
proof fn lemma_restored_stop(image: ImageView, files: Seq<SurvivorView>, i: int, n: int)
    requires
        i <= n,
        restored_to(image, files, i) is Err,
    ensures
        restored_to(image, files, n) == restored_to(image, files, i),
    decreases n - i,
{
    if i < n {
        lemma_restored_stop(image, files, i, n - 1);
    }
}

}
