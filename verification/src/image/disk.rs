//! Disk sides.

use crate::image::track::{Track, TrackView};
use vstd::prelude::*;

verus! {

/// One side of a disk.
#[derive(Debug)]
pub struct Disk {
    side: u8,
    tracks: Vec<Track>,
}

/// The mathematical value of one side.
#[verifier::ext_equal]
pub struct DiskView {
    pub side: u8,
    pub tracks: Seq<TrackView>,
}

/// The values of a list of tracks.
pub open spec fn track_views(s: Seq<Track>) -> Seq<TrackView> {
    Seq::new(s.len(), |i: int| s[i]@)
}

impl View for Disk {
    type V = DiskView;

    closed spec fn view(&self) -> DiskView {
        DiskView { side: self.side, tracks: track_views(self.tracks@) }
    }
}

impl DiskView {
    /// The track with the given number; track numbers are single bytes.
    pub open spec fn track(self, n: int) -> Option<TrackView> {
        if 0 <= n < self.tracks.len() {
            Some(self.tracks[n])
        } else {
            None
        }
    }

    /// The data of the tracks up to `n`, in order. Tracks are addressed by one byte,
    /// so the track behind track 255 is read as track 0 again.
    pub open spec fn logical_to(self, n: int) -> Seq<u8>
        decreases n,
    {
        if n <= 0 {
            Seq::empty()
        } else {
            self.logical_to(n - 1) + self.tracks[(n - 1) % 256].logical()
        }
    }

    /// The side with other data in one sector.
    pub open spec fn with_data(self, track: int, sector: int, data: Seq<u8>) -> DiskView {
        DiskView {
            tracks: self.tracks.update(track, self.tracks[track].with_data(sector, data)),
            ..self
        }
    }
}

impl Clone for Disk {
    fn clone(&self) -> (r: Self)
        ensures
            r@ == self@,
    {
        let mut tracks: Vec<Track> = Vec::new();
        let mut i: usize = 0;
        while i < self.tracks.len()
            invariant
                i <= self.tracks@.len(),
                tracks@.len() == i,
                forall|k: int| 0 <= k < i ==> (#[trigger] tracks@[k])@ == self.tracks@[k]@,
            decreases self.tracks@.len() - i,
        {
            tracks.push(self.tracks[i].clone());
            i = i + 1;
        }
        assert(track_views(tracks@) =~= track_views(self.tracks@));
        Disk { side: self.side, tracks }
    }
}

impl Disk {
    /// A side without tracks, with room for `capacity` of them.
    pub fn with_capacity(side: u8, capacity: usize) -> (d: Disk)
        ensures
            d@ == (DiskView { side, tracks: Seq::empty() }),
    {
        let d = Disk { side, tracks: Vec::with_capacity(capacity) };
        assert(d@.tracks =~= Seq::<TrackView>::empty());
        d
    }

    /// Appends empty tracks until there are `count` of them.
    pub fn ensure_track_count(&mut self, count: u8)
        ensures
            final(self)@.side == old(self)@.side,
            final(self)@.tracks.len() == (if old(self)@.tracks.len() < count { count as nat } else { old(self)@.tracks.len() }),
            forall|i: int| 0 <= i < old(self)@.tracks.len() ==> #[trigger] final(self)@.tracks[i] == old(self)@.tracks[i],
            forall|i: int| old(self)@.tracks.len() <= i < count ==> #[trigger] final(self)@.tracks[i] == TrackView::blank(i as u8, old(self)@.side),
    {
        while self.tracks.len() < count as usize
            invariant
                self.side == old(self)@.side,
                self@.tracks.len() >= old(self)@.tracks.len(),
                self@.tracks.len() == old(self)@.tracks.len() || self@.tracks.len() <= count,
                forall|i: int| 0 <= i < old(self)@.tracks.len() ==> #[trigger] self@.tracks[i] == old(self)@.tracks[i],
                forall|i: int| old(self)@.tracks.len() <= i < self@.tracks.len() ==> #[trigger] self@.tracks[i] == TrackView::blank(i as u8, old(self)@.side),
            decreases count - self@.tracks.len(),
        {
            let ghost before = self@.tracks;
            let n: u8 = self.tracks.len() as u8;
            let t = Track::new(n, self.side);
            self.tracks.push(t);
            assert(self@.tracks =~= before.push(t@));
        }
    }

    /// Appends a track.
    pub fn add_track(&mut self, track: Track)
        ensures
            final(self)@ == (DiskView { tracks: old(self)@.tracks.push(track@), ..old(self)@ }),
    {
        self.tracks.push(track);
        assert(self@.tracks =~= old(self)@.tracks.push(track@));
    }

    /// The tracks of this side.
    pub fn tracks(&self) -> (t: &[Track])
        ensures
            track_views(t@) == self@.tracks,
            t@.len() == self@.tracks.len(),
    {
        self.tracks.as_slice()
    }

    /// The number of tracks.
    pub fn track_count(&self) -> (n: usize)
        ensures
            n == self@.tracks.len(),
    {
        self.tracks.len()
    }

    /// The track with the given number.
    pub fn get_track(&self, n: u8) -> (r: Option<&Track>)
        ensures
            match r {
                Some(t) => self@.track(n as int) == Some(t@),
                None => self@.track(n as int) is None,
            },
    {
        if (n as usize) < self.tracks.len() {
            assert(self@.tracks[n as int] == self.tracks@[n as int]@);
            Some(&self.tracks[n as usize])
        } else {
            None
        }
    }

    /// The track with the given number, to be changed.
    pub fn get_track_mut(&mut self, n: u8) -> (r: Option<&mut Track>)
        ensures
            match r {
                Some(t) => {
                    &&& old(self)@.track(n as int) == Some(t@)
                    &&& final(self)@ == (DiskView {
                        tracks: old(self)@.tracks.update(n as int, final(t)@),
                        ..old(self)@
                    })
                },
                None => old(self)@.track(n as int) is None && final(self)@ == old(self)@,
            },
    {
        if (n as usize) < self.tracks.len() {
            assert(self@.tracks[n as int] == self.tracks@[n as int]@);
            let t = &mut self.tracks[n as usize];
            assert(track_views(after_borrow(self).tracks@) =~= track_views(old(self).tracks@).update(n as int, final(t)@));
            Some(t)
        } else {
            None
        }
    }

    /// Replaces the data of one sector.
    pub fn set_data(&mut self, track: usize, sector: usize, data: &[u8])
        requires
            track < old(self)@.tracks.len(),
            sector < old(self)@.tracks[track as int].sectors.len(),
        ensures
            final(self)@ == old(self)@.with_data(track as int, sector as int, data@),
    {
        assert(self@.tracks[track as int] == self.tracks@[track as int]@);
        self.tracks[track].set_data(sector, data);
        assert(self@.tracks =~= old(self)@.with_data(track as int, sector as int, data@).tracks);
    }

    /// Appends the data of all tracks.
    pub fn read_logical(&self, out: &mut Vec<u8>)
        ensures
            final(out)@ == old(out)@ + self@.logical_to(self@.tracks.len() as int),
    {
        let mut n: usize = 0;
        assert(out@ =~= old(out)@ + self@.logical_to(0));
        while n < self.tracks.len()
            invariant
                n <= self.tracks@.len(),
                out@ == old(out)@ + self@.logical_to(n as int),
            decreases self.tracks@.len() - n,
        {
            let i: usize = n % 256;
            assert(self@.tracks[i as int] == self.tracks@[i as int]@);
            self.tracks[i].read_logical(out);
            assert(out@ =~= old(out)@ + self@.logical_to(n + 1));
            n = n + 1;
        }
    }
}

}
