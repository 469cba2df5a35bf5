//! MGT filesystems (Disciple, +D, Sam Coupe).

use crate::bytes;
use crate::error::{DskError, ErrorView};
use crate::image::{DiskImage, ImageView};
use crate::text;
use vstd::prelude::*;

verus! {

/// A file in an MGT directory.
#[derive(Debug)]
pub struct MgtDirEntry {
    /// The slot of the entry in the directory.
    pub index: usize,
    pub file_type: u8,
    pub filename: String,
    pub sectors_used: u16,
    /// The first track; 128 is added on side 1.
    pub start_track: u8,
    pub start_sector: u8,
    /// One bit for each sector behind the directory.
    pub sector_map: Vec<u8>,
    pub length: u16,
}

/// The mathematical value of an `MgtDirEntry`.
#[verifier::ext_equal]
pub struct MgtEntryView {
    pub index: int,
    pub file_type: u8,
    pub filename: Seq<char>,
    pub sectors_used: u16,
    pub start_track: u8,
    pub start_sector: u8,
    pub sector_map: Seq<u8>,
    pub length: u16,
}

impl View for MgtDirEntry {
    type V = MgtEntryView;

    open spec fn view(&self) -> MgtEntryView {
        MgtEntryView {
            index: self.index as int,
            file_type: self.file_type,
            filename: self.filename@,
            sectors_used: self.sectors_used,
            start_track: self.start_track,
            start_sector: self.start_sector,
            sector_map: self.sector_map@,
            length: self.length,
        }
    }
}

/// The values of a list of entries.
pub open spec fn mgt_views(s: Seq<MgtDirEntry>) -> Seq<MgtEntryView> {
    Seq::new(s.len(), |i: int| s[i]@)
}

/// The track, the sector and the offset of a directory slot; the directory lies on side 0.
pub open spec fn location(index: int) -> (u8, u8, int) {
    ((index / 2 / 10) as u8, (index / 2 % 10 + 1) as u8, (index % 2) * 256)
}

/// The side, track, sector and offset of a directory slot.
pub fn mgt_location(index: usize) -> (r: (u8, u8, u8, usize))
    requires
        index < 80,
    ensures
        r.0 == 0,
        (r.1, r.2, r.3 as int) == location(index as int),
{
    let sector: usize = index / 2;
    (0, (sector / 10) as u8, (sector % 10 + 1) as u8, (index % 2) * 256)
}

/// The 256 bytes of a directory slot, if its sector can be read.
pub open spec fn slot_at(image: ImageView, i: int) -> Option<Seq<u8>> {
    let (track, id, offset) = location(i);
    match image.read(0, track, id) {
        Ok(s) => if s.len() >= offset + 256 { Some(s.subrange(offset, offset + 256)) } else { None },
        Err(_) => None,
    }
}

/// The file that a directory slot stands for, if it is in use.
pub open spec fn entry_of(slot: Seq<u8>, index: int) -> Option<MgtEntryView> {
    if slot[0] % 64 == 0 {
        None
    } else {
        Some(
            MgtEntryView {
                index,
                file_type: slot[0],
                filename: text::trim_end(text::latin(slot.subrange(1, 11))),
                sectors_used: bytes::word(slot[12], slot[11]) as u16,
                start_track: slot[13],
                start_sector: slot[14],
                sector_map: slot.subrange(15, 210),
                length: bytes::word_at(slot, 212) as u16,
            },
        )
    }
}

/// The files in the first `n` slots of the directory.
pub open spec fn entries_to(image: ImageView, n: int) -> Seq<MgtEntryView>
    decreases n,
{
    if n <= 0 {
        Seq::empty()
    } else {
        let rest = entries_to(image, n - 1);
        match slot_at(image, n - 1) {
            None => rest,
            Some(s) => match entry_of(s, n - 1) {
                None => rest,
                Some(e) => rest.push(e),
            },
        }
    }
}

/// The files of an MGT disk, or why it is none.
pub open spec fn entries(image: ImageView) -> Result<Seq<MgtEntryView>, ErrorView> {
    match image.read(0, 0, 1) {
        Err(e) => Err(e),
        Ok(s) => if s.len() < 512 {
            Err(ErrorView::Filesystem("Not an MGT disk"@))
        } else {
            Ok(entries_to(image, 80))
        },
    }
}

/// The first file with the given name, whatever the case of its letters, at or behind `from`.
pub open spec fn find_from(entries: Seq<MgtEntryView>, name: Seq<char>, from: int) -> Option<MgtEntryView>
    decreases entries.len() - from,
{
    if from < 0 || from >= entries.len() {
        None
    } else if text::same_name(entries[from].filename, name) {
        Some(entries[from])
    } else {
        find_from(entries, name, from + 1)
    }
}

/// The first file with the given name.
pub open spec fn find(entries: Seq<MgtEntryView>, name: Seq<char>) -> Option<MgtEntryView> {
    find_from(entries, name, 0)
}

/// The side, track and ID number of sector `i`: ten sectors per track, 80 tracks per side.
pub open spec fn sector_place(i: int) -> (u8, u8, u8) {
    ((i / 800) as u8, (i % 800 / 10) as u8, (i % 10 + 1) as u8)
}

/// The side, track and ID number of sector `i`.
pub fn mgt_sector(i: usize) -> (r: (u8, u8, u8))
    requires
        i < 204800,
    ensures
        r == sector_place(i as int),
{
    ((i / 800) as u8, (i % 800 / 10) as u8, (i % 10 + 1) as u8)
}

impl MgtEntryView {
    /// The first sector of the file.
    pub open spec fn start(self) -> int {
        let side: int = if self.start_track >= 128 { 1 } else { 0 };
        let sector: int = if self.start_sector > 0 { self.start_sector - 1 } else { 0 };
        side * 800 + (self.start_track % 128) * 10 + sector
    }
}

/// The data of `n` sectors from `start` on, or why one of them cannot be read.
pub open spec fn sectors_to(image: ImageView, start: int, n: int) -> Result<Seq<u8>, ErrorView>
    decreases n,
{
    if n <= 0 {
        Ok(Seq::empty())
    } else {
        match sectors_to(image, start, n - 1) {
            Err(e) => Err(e),
            Ok(d) => {
                let (side, track, id) = sector_place(start + n - 1);
                match image.read(side, track, id) {
                    Err(e) => Err(e),
                    Ok(s) => Ok(d + s),
                }
            },
        }
    }
}

/// The content of a file: the data of its sectors, up to its length.
pub open spec fn content(image: ImageView, entry: MgtEntryView) -> Result<Seq<u8>, ErrorView> {
    match sectors_to(image, entry.start(), entry.sectors_used as int) {
        Err(e) => Err(e),
        Ok(d) => Ok(if d.len() > entry.length { d.take(entry.length as int) } else { d }),
    }
}

impl MgtDirEntry {
    /// The first sector of the file.
    pub fn start(&self) -> (n: usize)
        ensures
            n == self@.start(),
            n <= 2324,
    {
        let side: usize = if self.start_track >= 128 { 1 } else { 0 };
        let track: usize = (self.start_track % 128) as usize;
        side * 800 + track * 10 + self.start_sector.saturating_sub(1) as usize
    }

    /// Reads an entry from its 256 bytes.
    fn parse(slot: &[u8], index: usize) -> (r: Option<MgtDirEntry>)
        requires
            slot@.len() == 256,
        ensures
            match r {
                Some(e) => entry_of(slot@, index as int) == Some(e@),
                None => entry_of(slot@, index as int) is None,
            },
    {
        if slot[0] % 64 == 0 {
            return None;
        }
        let name = text::trimmed_end(&text::latin_chars(vstd::slice::slice_subrange(slot, 1, 11)));
        Some(
            MgtDirEntry {
                index,
                file_type: slot[0],
                filename: text::string_of(&name),
                sectors_used: bytes::make_word(slot[12], slot[11]),
                start_track: slot[13],
                start_sector: slot[14],
                sector_map: vstd::slice::slice_to_vec(vstd::slice::slice_subrange(slot, 15, 210)),
                length: bytes::make_word(slot[212], slot[213]),
            },
        )
    }
}

/// An MGT filesystem on an image.
pub struct MgtFileSystem<'a> {
    image: &'a DiskImage,
    entries: Vec<MgtDirEntry>,
}

impl<'a> MgtFileSystem<'a> {
    /// The image that the filesystem lies on.
    pub closed spec fn disk(&self) -> ImageView {
        self.image@
    }

    /// The files on the disk.
    pub open spec fn files(&self) -> Seq<MgtEntryView> {
        entries_to(self.disk(), 80)
    }

    /// The entries are those on the disk.
    #[verifier::type_invariant]
    spec fn inv(&self) -> bool {
        mgt_views(self.entries@) == entries_to(self.image@, 80)
    }

    /// Opens the filesystem.
    pub fn new(image: &'a DiskImage) -> (r: Result<MgtFileSystem<'a>, DskError>)
        ensures
            match r {
                Ok(fs) => fs.disk() == image@ && entries(image@) == Ok::<Seq<MgtEntryView>, ErrorView>(fs.files()),
                Err(e) => entries(image@) == Err::<Seq<MgtEntryView>, ErrorView>(e@),
            },
    {
        match image.read_sector(0, 0, 1) {
            Err(e) => {
                return Err(e);
            },
            Ok(s) => if s.len() < 512 {
                return Err(DskError::filesystem("Not an MGT disk"));
            },
        }
        let mut list: Vec<MgtDirEntry> = Vec::new();
        let mut i: usize = 0;
        assert(mgt_views(list@) =~= entries_to(image@, 0));
        while i < 80
            invariant
                i <= 80,
                mgt_views(list@) == entries_to(image@, i as int),
            decreases 80 - i,
        {
            let (side, track, id, offset) = mgt_location(i);
            if let Ok(s) = image.read_sector(side, track, id) {
                if s.len() >= offset + 256 {
                    let slot = vstd::slice::slice_subrange(s, offset, offset + 256);
                    if let Some(e) = MgtDirEntry::parse(slot, i) {
                        let ghost before = list@;
                        list.push(e);
                        assert(mgt_views(list@) =~= mgt_views(before).push(e@));
                    }
                }
            }
            i = i + 1;
        }
        Ok(MgtFileSystem { image, entries: list })
    }

    /// The files on the disk.
    pub fn directory(&self) -> (d: &[MgtDirEntry])
        ensures
            mgt_views(d@) == self.files(),
    {
        proof {
            use_type_invariant(self);
        }
        self.entries.as_slice()
    }

    /// The first file with the given name, whatever the case of its letters.
    pub fn find_file(&self, name: &str) -> (r: Option<&MgtDirEntry>)
        ensures
            match r {
                Some(e) => find(self.files(), name@) == Some(e@),
                None => find(self.files(), name@) is None,
            },
    {
        proof {
            use_type_invariant(self);
        }
        let chars = text::chars_of(name);
        let mut i: usize = 0;
        while i < self.entries.len()
            invariant
                i <= self.entries@.len(),
                chars@ == name@,
                mgt_views(self.entries@) == self.files(),
                find(self.files(), name@) == find_from(self.files(), name@, i as int),
            decreases self.entries@.len() - i,
        {
            assert(self.files()[i as int] == self.entries@[i as int]@);
            let filename = text::chars_of(self.entries[i].filename.as_str());
            if text::names_match(&filename, &chars) {
                return Some(&self.entries[i]);
            }
            i = i + 1;
        }
        None
    }

    /// The content of a file.
    pub fn read_file(&self, entry: &MgtDirEntry) -> (r: Result<Vec<u8>, DskError>)
        ensures
            match r {
                Ok(data) => content(self.disk(), entry@) == Ok::<Seq<u8>, ErrorView>(data@),
                Err(e) => content(self.disk(), entry@) == Err::<Seq<u8>, ErrorView>(e@),
            },
    {
        let start = entry.start();
        let count = entry.sectors_used as usize;
        let mut data: Vec<u8> = Vec::new();
        let mut i: usize = 0;
        while i < count
            invariant
                i <= count <= 65535,
                start <= 2324,
                start == entry@.start(),
                count == entry@.sectors_used,
                sectors_to(self.disk(), start as int, i as int) == Ok::<Seq<u8>, ErrorView>(data@),
            decreases count - i,
        {
            let (side, track, id) = mgt_sector(start + i);
            match self.image.read_sector(side, track, id) {
                Err(e) => {
                    proof {
                        lemma_sectors_stop(self.disk(), start as int, i + 1, count as int);
                    }
                    return Err(e);
                },
                Ok(s) => {
                    let ghost before = data@;
                    data.extend_from_slice(s);
                    assert(data@ =~= before + s@);
                },
            }
            i = i + 1;
        }
        if data.len() > entry.length as usize {
            data.truncate(entry.length as usize);
        }
        Ok(data)
    }
}

/// An error among the first sectors is an error of the whole file.
proof fn lemma_sectors_stop(image: ImageView, start: int, i: int, n: int)
    requires
        i <= n,
        sectors_to(image, start, i) is Err,
    ensures
        sectors_to(image, start, n) == sectors_to(image, start, i),
    decreases n - i,
{
    if i < n {
        lemma_sectors_stop(image, start, i, n - 1);
    }
}

}
