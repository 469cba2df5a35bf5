//! Tracks.

use crate::image::sector::{Sector, SectorView};
use crate::order;
use vstd::prelude::*;

verus! {

/// How a track was recorded.
#[derive(Clone, Copy, Debug, PartialEq, Eq, Structural)]
pub enum RecordingMode {
    Unknown,
    FM,
    MFM,
}

/// The data rate of a track.
#[derive(Clone, Copy, Debug, PartialEq, Eq, Structural)]
pub enum DataRate {
    Unknown,
    SingleDouble,
    HighDensity,
    ExtendedDensity,
}

/// The data rate with the given number.
pub open spec fn rate_of(code: u8) -> DataRate {
    if code == 1 {
        DataRate::SingleDouble
    } else if code == 2 {
        DataRate::HighDensity
    } else if code == 3 {
        DataRate::ExtendedDensity
    } else {
        DataRate::Unknown
    }
}

impl DataRate {
    /// The data rate with the given number.
    pub fn from_code(code: u8) -> (rate: DataRate)
        ensures
            rate == rate_of(code),
    {
        match code {
            1 => DataRate::SingleDouble,
            2 => DataRate::HighDensity,
            3 => DataRate::ExtendedDensity,
            _ => DataRate::Unknown,
        }
    }
}

/// A track: its sectors in the order in which they pass the head.
#[derive(Debug)]
pub struct Track {
    pub track_number: u8,
    pub side_number: u8,
    pub gap3_length: u8,
    pub filler_byte: u8,
    pub recording_mode: RecordingMode,
    pub data_rate: DataRate,
    sectors: Vec<Sector>,
}

/// The mathematical value of a track.
#[verifier::ext_equal]
pub struct TrackView {
    pub track_number: u8,
    pub side_number: u8,
    pub gap3_length: u8,
    pub filler_byte: u8,
    pub recording_mode: RecordingMode,
    pub data_rate: DataRate,
    pub sectors: Seq<SectorView>,
}

/// The values of a list of sectors.
pub open spec fn sector_views(s: Seq<Sector>) -> Seq<SectorView> {
    Seq::new(s.len(), |i: int| s[i]@)
}

impl View for Track {
    type V = TrackView;

    closed spec fn view(&self) -> TrackView {
        TrackView {
            track_number: self.track_number,
            side_number: self.side_number,
            gap3_length: self.gap3_length,
            filler_byte: self.filler_byte,
            recording_mode: self.recording_mode,
            data_rate: self.data_rate,
            sectors: sector_views(self.sectors@),
        }
    }
}

impl TrackView {
    /// The index of the first sector with this ID number at or behind `from`.
    pub open spec fn find_from(self, id: u8, from: int) -> Option<int>
        decreases self.sectors.len() - from,
    {
        if from < 0 || from >= self.sectors.len() {
            None
        } else if self.sectors[from].id.sector == id {
            Some(from)
        } else {
            self.find_from(id, from + 1)
        }
    }

    /// The index of the first sector with this ID number.
    pub open spec fn find(self, id: u8) -> Option<int> {
        self.find_from(id, 0)
    }

    /// The ID numbers of the sectors.
    pub open spec fn ids(self) -> Seq<int> {
        Seq::new(self.sectors.len(), |i: int| self.sectors[i].id.sector as int)
    }

    /// The sectors in the order of their ID numbers.
    pub open spec fn by_id(self) -> Seq<SectorView> {
        order::arranged(self.sectors, order::key_order(self.ids()))
    }

    /// The data of the first `n` sectors in the order of their ID numbers.
    pub open spec fn data_to(self, n: int) -> Seq<u8>
        decreases n,
    {
        if n <= 0 {
            Seq::empty()
        } else {
            self.data_to(n - 1) + self.by_id()[n - 1].data
        }
    }

    /// The data of all sectors in the order of their ID numbers.
    pub open spec fn logical(self) -> Seq<u8> {
        self.data_to(self.sectors.len() as int)
    }

    /// The track with other data in the sector at index `i`.
    pub open spec fn with_data(self, i: int, data: Seq<u8>) -> TrackView {
        TrackView {
            sectors: self.sectors.update(i, SectorView { data, ..self.sectors[i] }),
            ..self
        }
    }

    /// An empty track.
    pub open spec fn blank(track_number: u8, side_number: u8) -> TrackView {
        TrackView {
            track_number,
            side_number,
            gap3_length: 0x4E,
            filler_byte: 0xE5,
            recording_mode: RecordingMode::MFM,
            data_rate: DataRate::SingleDouble,
            sectors: Seq::empty(),
        }
    }
}

/// What `find_from` finds is the first match.
pub proof fn lemma_find(t: TrackView, id: u8, from: int)
    requires
        0 <= from <= t.sectors.len(),
    ensures
        match t.find_from(id, from) {
            Some(i) => {
                &&& from <= i < t.sectors.len()
                &&& t.sectors[i].id.sector == id
                &&& forall|j: int| from <= j < i ==> (#[trigger] t.sectors[j]).id.sector != id
            },
            None => forall|j: int| from <= j < t.sectors.len() ==> (#[trigger] t.sectors[j]).id.sector != id,
        },
    decreases t.sectors.len() - from,
{
    if from < t.sectors.len() && t.sectors[from].id.sector != id {
        lemma_find(t, id, from + 1);
    }
}

/// Whether a number is found depends on the ID numbers alone.
pub proof fn lemma_find_same_ids(a: TrackView, b: TrackView, id: u8, from: int)
    requires
        a.sectors.len() == b.sectors.len(),
        forall|j: int| 0 <= j < a.sectors.len() ==> (#[trigger] a.sectors[j]).id.sector == b.sectors[j].id.sector,
        0 <= from <= a.sectors.len(),
    ensures
        a.find_from(id, from) == b.find_from(id, from),
    decreases a.sectors.len() - from,
{
    if from < a.sectors.len() {
        assert(a.sectors[from].id.sector == b.sectors[from].id.sector);
        lemma_find_same_ids(a, b, id, from + 1);
    }
}

/// Every sector can be found by its ID number.
pub proof fn lemma_by_id_found(t: TrackView, i: int)
    requires
        0 <= i < t.by_id().len(),
    ensures
        t.by_id().len() == t.sectors.len(),
        0 <= order::key_order(t.ids())[i] < t.sectors.len(),
        t.find(t.by_id()[i].id.sector) matches Some(j) && 0 <= j < t.sectors.len(),
{
    order::lemma_order_permutes(order::by_key(t.ids()), t.ids().len() as int);
    let j = order::key_order(t.ids())[i];
    let id = t.by_id()[i].id.sector;
    lemma_find(t, id, 0);
    assert(t.sectors[j].id.sector == id);
}

impl Clone for Track {
    fn clone(&self) -> (r: Self)
        ensures
            r@ == self@,
    {
        let mut sectors: Vec<Sector> = Vec::new();
        let mut i: usize = 0;
        while i < self.sectors.len()
            invariant
                i <= self.sectors@.len(),
                sectors@.len() == i,
                forall|k: int| 0 <= k < i ==> (#[trigger] sectors@[k])@ == self.sectors@[k]@,
            decreases self.sectors@.len() - i,
        {
            sectors.push(self.sectors[i].clone());
            i = i + 1;
        }
        assert(sector_views(sectors@) =~= sector_views(self.sectors@));
        Track {
            track_number: self.track_number,
            side_number: self.side_number,
            gap3_length: self.gap3_length,
            filler_byte: self.filler_byte,
            recording_mode: self.recording_mode,
            data_rate: self.data_rate,
            sectors,
        }
    }
}

impl Track {
    /// An empty track.
    pub fn new(track_number: u8, side_number: u8) -> (t: Track)
        ensures
            t@ == TrackView::blank(track_number, side_number),
    {
        let t = Track {
            track_number,
            side_number,
            gap3_length: 0x4E,
            filler_byte: 0xE5,
            recording_mode: RecordingMode::MFM,
            data_rate: DataRate::SingleDouble,
            sectors: Vec::new(),
        };
        assert(t@.sectors =~= Seq::<SectorView>::empty());
        t
    }

    /// An empty track with the given recording parameters.
    pub fn with_recording(
        track_number: u8,
        side_number: u8,
        gap3_length: u8,
        filler_byte: u8,
        recording_mode: RecordingMode,
        data_rate: DataRate,
    ) -> (t: Track)
        ensures
            t@ == (TrackView {
                track_number,
                side_number,
                gap3_length,
                filler_byte,
                recording_mode,
                data_rate,
                sectors: Seq::empty(),
            }),
    {
        let t = Track {
            track_number,
            side_number,
            gap3_length,
            filler_byte,
            recording_mode,
            data_rate,
            sectors: Vec::new(),
        };
        assert(t@.sectors =~= Seq::<SectorView>::empty());
        t
    }

    /// Appends a sector.
    pub fn add_sector(&mut self, sector: Sector)
        ensures
            final(self)@ == (TrackView { sectors: old(self)@.sectors.push(sector@), ..old(self)@ }),
    {
        self.sectors.push(sector);
        assert(self@.sectors =~= old(self)@.sectors.push(sector@));
    }

    /// The sectors in the order in which they pass the head.
    pub fn sectors(&self) -> (s: &[Sector])
        ensures
            sector_views(s@) == self@.sectors,
            s@.len() == self@.sectors.len(),
    {
        self.sectors.as_slice()
    }

    /// The track and side numbers.
    pub fn place(&self) -> (r: (u8, u8))
        ensures
            r.0 == self@.track_number,
            r.1 == self@.side_number,
    {
        (self.track_number, self.side_number)
    }

    /// The gap length and the filler byte.
    pub fn recording(&self) -> (r: (u8, u8))
        ensures
            r.0 == self@.gap3_length,
            r.1 == self@.filler_byte,
    {
        (self.gap3_length, self.filler_byte)
    }

    /// The number of sectors.
    pub fn sector_count(&self) -> (n: usize)
        ensures
            n == self@.sectors.len(),
    {
        self.sectors.len()
    }

    /// Whether the track has no sectors.
    pub fn is_empty(&self) -> (b: bool)
        ensures
            b == (self@.sectors.len() == 0),
    {
        self.sectors.len() == 0
    }

    /// The index of the first sector with this ID number.
    pub fn find(&self, id: u8) -> (r: Option<usize>)
        ensures
            match r {
                Some(i) => i < self@.sectors.len() && self@.find(id) == Some(i as int),
                None => self@.find(id) is None,
            },
    {
        let mut i: usize = 0;
        while i < self.sectors.len()
            invariant
                i <= self.sectors@.len(),
                self@.find(id) == self@.find_from(id, i as int),
            decreases self.sectors@.len() - i,
        {
            assert(self@.sectors[i as int] == self.sectors@[i as int]@);
            if self.sectors[i].number() == id {
                return Some(i);
            }
            i = i + 1;
        }
        None
    }

    /// The first sector with this ID number.
    pub fn get_sector(&self, id: u8) -> (r: Option<&Sector>)
        ensures
            match r {
                Some(s) => self@.find(id) matches Some(i) && 0 <= i < self@.sectors.len() && s@ == self@.sectors[i],
                None => self@.find(id) is None,
            },
    {
        match self.find(id) {
            Some(i) => {
                assert(self@.sectors[i as int] == self.sectors@[i as int]@);
                Some(&self.sectors[i])
            },
            None => None,
        }
    }

    /// Replaces the data of the sector at index `i`.
    pub fn set_data(&mut self, i: usize, data: &[u8])
        requires
            i < old(self)@.sectors.len(),
        ensures
            final(self)@ == old(self)@.with_data(i as int, data@),
    {
        self.sectors[i].set_data(data);
        assert(self@.sectors =~= old(self)@.with_data(i as int, data@).sectors);
    }

    /// Finds the order of the sectors by their ID numbers.
    pub fn order(&self) -> (r: Vec<usize>)
        ensures
            order::indices(r@) == order::key_order(self@.ids()),
            r@.len() == self@.sectors.len(),
            forall|i: int| 0 <= i < r@.len() ==> #[trigger] r@[i] < self@.sectors.len(),
    {
        let mut keys: Vec<u16> = Vec::new();
        let mut i: usize = 0;
        while i < self.sectors.len()
            invariant
                i <= self.sectors@.len(),
                keys@.len() == i,
                forall|k: int| 0 <= k < i ==> #[trigger] keys@[k] == self@.sectors[k].id.sector,
            decreases self.sectors@.len() - i,
        {
            assert(self@.sectors[i as int] == self.sectors@[i as int]@);
            keys.push(self.sectors[i].number() as u16);
            i = i + 1;
        }
        assert(order::ints(keys@) =~= self@.ids());
        order::order_by_key(&keys)
    }

    /// The sector that comes at place `i` in the order of the ID numbers.
    pub fn nth_by_id(&self, i: usize) -> (r: Option<&Sector>)
        ensures
            match r {
                Some(s) => i < self@.by_id().len() && s@ == self@.by_id()[i as int],
                None => i >= self@.by_id().len(),
            },
            self@.by_id().len() == self@.sectors.len(),
    {
        let o = self.order();
        assert(o@.len() == order::indices(o@).len());
        if i < o.len() {
            let j = o[i];
            assert(order::indices(o@)[i as int] == j);
            assert(self@.sectors[j as int] == self.sectors@[j as int]@);
            Some(&self.sectors[j])
        } else {
            None
        }
    }

    /// Appends the data of all sectors, in the order of their ID numbers.
    pub fn read_logical(&self, out: &mut Vec<u8>)
        ensures
            final(out)@ == old(out)@ + self@.logical(),
    {
        let o = self.order();
        let mut i: usize = 0;
        assert(out@ =~= old(out)@ + self@.data_to(0));
        assert(o@.len() == order::indices(o@).len());
        while i < o.len()
            invariant
                i <= o@.len() == self@.sectors.len(),
                order::indices(o@) == order::key_order(self@.ids()),
                o@.len() == order::key_order(self@.ids()).len(),
                forall|k: int| 0 <= k < o@.len() ==> #[trigger] o@[k] < self@.sectors.len(),
                out@ == old(out)@ + self@.data_to(i as int),
            decreases o@.len() - i,
        {
            let j = o[i];
            assert(order::indices(o@)[i as int] == j);
            assert(self@.sectors[j as int] == self.sectors@[j as int]@);
            assert(self@.by_id()[i as int] == self@.sectors[j as int]);
            let ghost before = out@;
            out.extend_from_slice(self.sectors[j].data());
            assert(out@ =~= before + self@.by_id()[i as int].data);
            assert(out@ =~= old(out)@ + self@.data_to(i + 1));
            i = i + 1;
        }
    }
}

}
