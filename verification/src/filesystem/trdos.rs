//! TR-DOS filesystems (Beta Disk).

use crate::bytes;
use crate::error::{DskError, ErrorView};
use crate::image::{DiskImage, ImageView};
use crate::text;
use vstd::prelude::*;

verus! {

/// A file in a TR-DOS directory.
#[derive(Debug)]
pub struct TrdosDirEntry {
    /// The slot of the entry in the directory.
    pub index: usize,
    pub filename: String,
    pub deleted: bool,
    /// The letter of the file type.
    pub file_type: u8,
    pub length: u16,
    pub param1: u16,
    pub sectors: u8,
    pub start_sector: u8,
    pub start_track: u8,
}

/// The mathematical value of a `TrdosDirEntry`.
#[verifier::ext_equal]
pub struct TrdosEntryView {
    pub index: int,
    pub filename: Seq<char>,
    pub deleted: bool,
    pub file_type: u8,
    pub length: u16,
    pub param1: u16,
    pub sectors: u8,
    pub start_sector: u8,
    pub start_track: u8,
}

impl View for TrdosDirEntry {
    type V = TrdosEntryView;

    open spec fn view(&self) -> TrdosEntryView {
        TrdosEntryView {
            index: self.index as int,
            filename: self.filename@,
            deleted: self.deleted,
            file_type: self.file_type,
            length: self.length,
            param1: self.param1,
            sectors: self.sectors,
            start_sector: self.start_sector,
            start_track: self.start_track,
        }
    }
}

/// The values of a list of entries.
pub open spec fn trdos_views(s: Seq<TrdosDirEntry>) -> Seq<TrdosEntryView> {
    Seq::new(s.len(), |i: int| s[i]@)
}

/// What the disk says of its free space.
#[derive(Clone, Copy, Debug, PartialEq, Eq, Structural)]
pub struct TrdosCatalog {
    pub first_free_sector: u8,
    pub first_free_track: u8,
    pub disk_type: u8,
    pub file_count: u8,
    pub free_sectors: u16,
}

/// Whether the first nine sectors of track 0 are there: eight of directory, one of catalog.
pub open spec fn system_sectors(image: ImageView) -> bool {
    forall|id: u8| 1 <= id <= 9 ==> (#[trigger] image.read(0, 0, id) matches Ok(s) && s.len() >= 256)
}

/// Whether an image is laid out as a TR-DOS disk.
pub open spec fn is_trdos(image: ImageView) -> bool {
    image.spec.num_tracks > 0 && image.spec.num_sides > 0 && system_sectors(image)
}

/// The data of a sector of track 0.
pub open spec fn system_sector(image: ImageView, id: u8) -> Seq<u8> {
    match image.read(0, 0, id) {
        Ok(s) => s,
        Err(_) => Seq::empty(),
    }
}

/// The 16 bytes of a directory slot.
pub open spec fn slot_at(image: ImageView, i: int) -> Seq<u8> {
    system_sector(image, (i / 16 + 1) as u8).subrange(i % 16 * 16, i % 16 * 16 + 16)
}

/// The file that a directory slot stands for, if it was ever in use. A deleted file begins
/// with the byte 1.
pub open spec fn entry_of(slot: Seq<u8>, index: int) -> Option<TrdosEntryView> {
    if slot[0] == 0 || slot[8] == 0 {
        None
    } else {
        Some(
            TrdosEntryView {
                index,
                filename: text::trim_end(text::latin(slot.subrange(0, 8))),
                deleted: slot[0] == 1,
                file_type: slot[8],
                length: bytes::word_at(slot, 9) as u16,
                param1: bytes::word_at(slot, 11) as u16,
                sectors: slot[13],
                start_sector: slot[14],
                start_track: slot[15],
            },
        )
    }
}

/// The files in the first `n` slots of the directory.
pub open spec fn entries_to(image: ImageView, n: int) -> Seq<TrdosEntryView>
    decreases n,
{
    if n <= 0 {
        Seq::empty()
    } else {
        match entry_of(slot_at(image, n - 1), n - 1) {
            None => entries_to(image, n - 1),
            Some(e) => entries_to(image, n - 1).push(e),
        }
    }
}

/// All files, deleted ones included.
pub open spec fn entries(image: ImageView) -> Seq<TrdosEntryView> {
    entries_to(image, 128)
}

/// What the catalog sector says, if it is that of a formatted disk.
pub open spec fn catalog_of(s: Seq<u8>) -> Option<TrdosCatalog> {
    if s[231] == 0x10 {
        Some(
            TrdosCatalog {
                first_free_sector: s[225],
                first_free_track: s[226],
                disk_type: s[227],
                file_count: s[228],
                free_sectors: bytes::word_at(s, 229) as u16,
            },
        )
    } else {
        None
    }
}

/// What the disk says of its free space.
pub open spec fn catalog(image: ImageView) -> Option<TrdosCatalog> {
    catalog_of(system_sector(image, 9))
}

/// Whether an entry is of a file that exists and has the given name, whatever the case of its
/// letters.
pub open spec fn is_file(entry: TrdosEntryView, name: Seq<char>) -> bool {
    !entry.deleted && text::same_name(entry.filename, name)
}

/// The first file with the given name at or behind `from`.
pub open spec fn find_from(entries: Seq<TrdosEntryView>, name: Seq<char>, from: int) -> Option<TrdosEntryView>
    decreases entries.len() - from,
{
    if from < 0 || from >= entries.len() {
        None
    } else if is_file(entries[from], name) {
        Some(entries[from])
    } else {
        find_from(entries, name, from + 1)
    }
}

/// The first file with the given name.
pub open spec fn find(entries: Seq<TrdosEntryView>, name: Seq<char>) -> Option<TrdosEntryView> {
    find_from(entries, name, 0)
}

/// A file name without the type behind its last dot.
pub open spec fn stem(name: Seq<char>) -> Seq<char> {
    match text::rfind(name, '.') {
        None => name,
        Some(i) => name.take(i),
    }
}

/// The side, track and ID number of sector `n`: sixteen sectors per track, all of side 0
/// before side 1.
pub open spec fn place(tracks: int, n: int) -> (u8, u8, u8) {
    ((n / 16 / tracks % 256) as u8, (n / 16 % tracks % 256) as u8, (n % 16 + 1) as u8)
}

/// The data of `n` sectors from `start` on, or why one of them cannot be read.
pub open spec fn sectors_to(image: ImageView, start: int, n: int) -> Result<Seq<u8>, ErrorView>
    decreases n,
{
    if n <= 0 {
        Ok(Seq::empty())
    } else {
        match sectors_to(image, start, n - 1) {
            Err(e) => Err(e),
            Ok(d) => {
                let (side, track, id) = place(image.spec.num_tracks as int, start + n - 1);
                match image.read(side, track, id) {
                    Err(e) => Err(e),
                    Ok(s) => Ok(d + s),
                }
            },
        }
    }
}

impl TrdosEntryView {
    /// The first sector of the file.
    pub open spec fn start(self) -> int {
        self.start_track * 16 + self.start_sector
    }
}

/// The content of a file: the data of its sectors, up to its length.
pub open spec fn content(image: ImageView, entry: TrdosEntryView) -> Result<Seq<u8>, ErrorView> {
    match sectors_to(image, entry.start(), entry.sectors as int) {
        Err(e) => Err(e),
        Ok(d) => Ok(if d.len() > entry.length { d.take(entry.length as int) } else { d }),
    }
}

/// The content of the file with the given name, or why there is none.
pub open spec fn file_content(image: ImageView, name: Seq<char>) -> Result<Seq<u8>, ErrorView> {
    match find(entries(image), stem(name)) {
        None => Err(ErrorView::FileNotFound(name)),
        Some(e) => content(image, e),
    }
}

/// The side, track and ID number of sector `n`.
pub fn trdos_place(tracks: u8, n: usize) -> (r: (u8, u8, u8))
    requires
        tracks > 0,
    ensures
        r == place(tracks as int, n as int),
{
    let linear_track: usize = n / 16;
    let tps = tracks as usize;
    ((linear_track / tps % 256) as u8, (linear_track % tps % 256) as u8, (n % 16 + 1) as u8)
}

/// The characters of a file name without the type behind its last dot.
pub fn stem_of(name: &Vec<char>) -> (v: Vec<char>)
    ensures
        v@ == stem(name@),
{
    match text::rfind_char(name, '.') {
        None => {
            let v = text::part(name, 0, name.len());
            assert(v@ =~= name@);
            v
        },
        Some(i) => {
            let v = text::part(name, 0, i);
            assert(v@ =~= name@.take(i as int));
            v
        },
    }
}

impl TrdosDirEntry {
    /// Reads an entry from its 16 bytes.
    fn parse(slot: &[u8], index: usize) -> (r: Option<TrdosDirEntry>)
        requires
            slot@.len() == 16,
        ensures
            match r {
                Some(e) => entry_of(slot@, index as int) == Some(e@),
                None => entry_of(slot@, index as int) is None,
            },
    {
        if slot[0] == 0 || slot[8] == 0 {
            return None;
        }
        let name = text::trimmed_end(&text::latin_chars(vstd::slice::slice_subrange(slot, 0, 8)));
        Some(
            TrdosDirEntry {
                index,
                filename: text::string_of(&name),
                deleted: slot[0] == 1,
                file_type: slot[8],
                length: bytes::make_word(slot[9], slot[10]),
                param1: bytes::make_word(slot[11], slot[12]),
                sectors: slot[13],
                start_sector: slot[14],
                start_track: slot[15],
            },
        )
    }
}

/// A TR-DOS filesystem on an image.
pub struct TrdosFileSystem<'a> {
    image: &'a DiskImage,
    entries: Vec<TrdosDirEntry>,
    catalog: Option<TrdosCatalog>,
}

impl<'a> TrdosFileSystem<'a> {
    /// The image that the filesystem lies on.
    pub closed spec fn disk(&self) -> ImageView {
        self.image@
    }

    /// The entries and the catalog are those on the disk.
    #[verifier::type_invariant]
    spec fn inv(&self) -> bool {
        &&& is_trdos(self.image@)
        &&& trdos_views(self.entries@) == entries(self.image@)
        &&& self.catalog == catalog(self.image@)
    }

    /// Opens the filesystem.
    pub fn new(image: &'a DiskImage) -> (r: Result<TrdosFileSystem<'a>, DskError>)
        ensures
            match r {
                Ok(fs) => is_trdos(image@) && fs.disk() == image@,
                Err(e) => !is_trdos(image@) && e@ == ErrorView::Filesystem("Not a TR-DOS disk"@),
            },
    {
        if image.spec().num_tracks == 0 || image.spec().num_sides == 0 {
            return Err(DskError::filesystem("Not a TR-DOS disk"));
        }
        let mut id: u8 = 1;
        while id <= 9
            invariant
                1 <= id <= 10,
                forall|k: u8| 1 <= k < id ==> (#[trigger] image@.read(0, 0, k) matches Ok(s) && s.len() >= 256),
            decreases 10 - id,
        {
            match image.read_sector(0, 0, id) {
                Ok(s) => if s.len() < 256 {
                    assert(!system_sectors(image@));
                    return Err(DskError::filesystem("Not a TR-DOS disk"));
                },
                Err(_) => {
                    assert(!system_sectors(image@));
                    return Err(DskError::filesystem("Not a TR-DOS disk"));
                },
            }
            id = id + 1;
        }
        let mut list: Vec<TrdosDirEntry> = Vec::new();
        let mut i: usize = 0;
        assert(trdos_views(list@) =~= entries_to(image@, 0));
        while i < 128
            invariant
                i <= 128,
                system_sectors(image@),
                trdos_views(list@) == entries_to(image@, i as int),
            decreases 128 - i,
        {
            let id: u8 = (i / 16 + 1) as u8;
            if let Ok(s) = image.read_sector(0, 0, id) {
                assert(image@.read(0, 0, id) matches Ok(t) && t.len() >= 256);
                let slot = vstd::slice::slice_subrange(s, i % 16 * 16, i % 16 * 16 + 16);
                assert(slot@ == slot_at(image@, i as int));
                if let Some(e) = TrdosDirEntry::parse(slot, i) {
                    let ghost before = list@;
                    list.push(e);
                    assert(trdos_views(list@) =~= trdos_views(before).push(e@));
                }
            } else {
                assert(image@.read(0, 0, id) is Ok);
            }
            i = i + 1;
        }
        let mut found: Option<TrdosCatalog> = None;
        match image.read_sector(0, 0, 9) {
            Ok(s) => {
                assert(image@.read(0, 0, 9) matches Ok(t) && t.len() >= 256);
                if s[231] == 0x10 {
                    found = Some(
                        TrdosCatalog {
                            first_free_sector: s[225],
                            first_free_track: s[226],
                            disk_type: s[227],
                            file_count: s[228],
                            free_sectors: bytes::make_word(s[229], s[230]),
                        },
                    );
                }
            },
            Err(_) => {
                assert(image@.read(0, 0, 9) is Ok);
            },
        }
        Ok(TrdosFileSystem { image, entries: list, catalog: found })
    }

    /// All files, deleted ones included.
    pub fn directory(&self) -> (d: &[TrdosDirEntry])
        ensures
            trdos_views(d@) == entries(self.disk()),
    {
        proof {
            use_type_invariant(self);
        }
        self.entries.as_slice()
    }

    /// What the disk says of its free space.
    pub fn catalog(&self) -> (c: Option<&TrdosCatalog>)
        ensures
            match c {
                Some(c) => catalog(self.disk()) == Some(*c),
                None => catalog(self.disk()) is None,
            },
    {
        proof {
            use_type_invariant(self);
        }
        match &self.catalog {
            Some(c) => Some(c),
            None => None,
        }
    }

    /// The first file with the given name, whatever the case of its letters.
    pub fn find_file(&self, base: &Vec<char>) -> (r: Option<&TrdosDirEntry>)
        ensures
            match r {
                Some(e) => find(entries(self.disk()), base@) == Some(e@),
                None => find(entries(self.disk()), base@) is None,
            },
    {
        proof {
            use_type_invariant(self);
        }
        let ghost list = entries(self.disk());
        let mut i: usize = 0;
        while i < self.entries.len()
            invariant
                i <= self.entries@.len(),
                list == trdos_views(self.entries@),
                list == entries(self.disk()),
                find(list, base@) == find_from(list, base@, i as int),
            decreases self.entries@.len() - i,
        {
            assert(list[i as int] == self.entries@[i as int]@);
            let filename = text::chars_of(self.entries[i].filename.as_str());
            if !self.entries[i].deleted && text::names_match(&filename, base) {
                return Some(&self.entries[i]);
            }
            i = i + 1;
        }
        None
    }

    /// The content of the file with the given name; a type behind the last dot is ignored.
    pub fn read_file(&self, name: &str) -> (r: Result<Vec<u8>, DskError>)
        ensures
            match r {
                Ok(data) => file_content(self.disk(), name@) == Ok::<Seq<u8>, ErrorView>(data@),
                Err(e) => file_content(self.disk(), name@) == Err::<Seq<u8>, ErrorView>(e@),
            },
    {
        let base = stem_of(&text::chars_of(name));
        match self.find_file(&base) {
            None => Err(DskError::FileNotFound(name.to_string())),
            Some(e) => self.read_file_data(e),
        }
    }

    /// The content of a file.
    pub fn read_file_data(&self, entry: &TrdosDirEntry) -> (r: Result<Vec<u8>, DskError>)
        ensures
            match r {
                Ok(data) => content(self.disk(), entry@) == Ok::<Seq<u8>, ErrorView>(data@),
                Err(e) => content(self.disk(), entry@) == Err::<Seq<u8>, ErrorView>(e@),
            },
    {
        proof {
            use_type_invariant(self);
        }
        let start: usize = entry.start_track as usize * 16 + entry.start_sector as usize;
        let count = entry.sectors as usize;
        let tracks = self.image.spec().num_tracks;
        let mut data: Vec<u8> = Vec::new();
        let mut i: usize = 0;
        while i < count
            invariant
                i <= count <= 255,
                start <= 4335,
                start == entry@.start(),
                count == entry@.sectors,
                tracks == self.disk().spec.num_tracks,
                tracks > 0,
                sectors_to(self.disk(), start as int, i as int) == Ok::<Seq<u8>, ErrorView>(data@),
            decreases count - i,
        {
            let (side, track, id) = trdos_place(tracks, start + i);
            match self.image.read_sector(side, track, id) {
                Err(e) => {
                    proof {
                        lemma_sectors_stop(self.disk(), start as int, i + 1, count as int);
                    }
                    return Err(e);
                },
                Ok(s) => {
                    let ghost before = data@;
                    data.extend_from_slice(s);
                    assert(data@ =~= before + s@);
                },
            }
            i = i + 1;
        }
        if data.len() > entry.length as usize {
            data.truncate(entry.length as usize);
        }
        Ok(data)
    }
}

/// An error among the first sectors is an error of the whole file.
proof fn lemma_sectors_stop(image: ImageView, start: int, i: int, n: int)
    requires
        i <= n,
        sectors_to(image, start, i) is Err,
    ensures
        sectors_to(image, start, n) == sectors_to(image, start, i),
    decreases n - i,
{
    if i < n {
        lemma_sectors_stop(image, start, i, n - 1);
    }
}

}
