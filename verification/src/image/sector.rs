//! Sectors.

use vstd::prelude::*;

verus! {

/// The ID field of a sector.
#[derive(Clone, Copy, Debug, PartialEq, Eq, Structural)]
pub struct SectorId {
    pub track: u8,
    pub side: u8,
    pub sector: u8,
    pub size_code: u8,
}

impl SectorId {
    /// An ID field.
    pub fn new(track: u8, side: u8, sector: u8, size_code: u8) -> (id: SectorId)
        ensures
            id == (SectorId { track, side, sector, size_code }),
    {
        SectorId { track, side, sector, size_code }
    }
}

/// FDC status register 1.
#[derive(Clone, Copy, Debug, PartialEq, Eq, Structural)]
pub struct FdcStatus1(pub u8);

/// FDC status register 2.
#[derive(Clone, Copy, Debug, PartialEq, Eq, Structural)]
pub struct FdcStatus2(pub u8);

/// Status 1: the data or the ID field failed its checksum.
pub const ST1_DATA_ERROR: u8 = 0x20;

/// Status 1: the sector was not found.
pub const ST1_NO_DATA: u8 = 0x04;

/// Status 2: the sector has a deleted data mark.
pub const ST2_CONTROL_MARK: u8 = 0x40;

/// A sector: its ID field, the FDC status it was read with, and its data.
#[derive(Debug)]
pub struct Sector {
    pub id: SectorId,
    pub status1: FdcStatus1,
    pub status2: FdcStatus2,
    data: Vec<u8>,
}

/// The mathematical value of a sector.
#[verifier::ext_equal]
pub struct SectorView {
    pub id: SectorId,
    pub status1: FdcStatus1,
    pub status2: FdcStatus2,
    pub data: Seq<u8>,
}

impl View for Sector {
    type V = SectorView;

    closed spec fn view(&self) -> SectorView {
        SectorView {
            id: self.id,
            status1: self.status1,
            status2: self.status2,
            data: self.data@,
        }
    }
}

impl Clone for Sector {
    fn clone(&self) -> (r: Self)
        ensures
            r@ == self@,
    {
        Sector {
            id: self.id,
            status1: self.status1,
            status2: self.status2,
            data: vstd::slice::slice_to_vec(self.data.as_slice()),
        }
    }
}

impl Sector {
    /// A sector with the given data and status.
    pub fn with_status(id: SectorId, status1: FdcStatus1, status2: FdcStatus2, data: Vec<u8>) -> (s: Sector)
        ensures
            s@ == (SectorView { id, status1, status2, data: data@ }),
    {
        Sector { id, status1, status2, data }
    }

    /// The ID field.
    pub fn sector_id(&self) -> (id: SectorId)
        ensures
            id == self@.id,
    {
        self.id
    }

    /// The ID number of the sector.
    pub fn number(&self) -> (id: u8)
        ensures
            id == self@.id.sector,
    {
        self.id.sector
    }

    /// The data of the sector.
    pub fn data(&self) -> (d: &[u8])
        ensures
            d@ == self@.data,
    {
        self.data.as_slice()
    }

    /// Replaces the data of the sector; its size becomes that of the new data.
    pub fn set_data(&mut self, data: &[u8])
        ensures
            final(self)@ == (SectorView { data: data@, ..old(self)@ }),
    {
        self.data = vstd::slice::slice_to_vec(data);
    }

    /// The size that the ID field announces.
    pub fn advertised_size(&self) -> (n: usize)
        ensures
            n == crate::format::coded_size(self@.id.size_code),
            n <= 16384,
    {
        crate::format::size_for_code(self.id.size_code)
    }
}

}
