use vstd::prelude::*;

use crate::error::FatError;
use crate::root_entry::le16;
use crate::root_entry::le32;

verus! {

/// Number of leading bytes that the boot parameter block occupies.
pub const BPB_END: usize = 36;

/// Largest cluster number plus one that a 16-bit table can link (0xFFF0 and up are markers).
pub const CLUSTER_LIMIT: u64 = 0xFFF0;

/// The geometry fields of an image's boot sector.
#[derive(Debug, Clone, Copy, PartialEq, Eq, Structural)]
pub struct BootParameterBlock {
    pub bytes_per_sector: u16,
    pub sectors_per_cluster: u8,
    pub reserved_sectors: u16,
    pub fat_count: u8,
    pub root_entry_count: u16,
    pub sectors_per_fat: u16,
    pub total_sectors: u32,
}

/// The fields as the boot sector `b` stores them; the 32-bit total counts where the
/// 16-bit one is zero.
pub open spec fn bpb_of(b: Seq<u8>) -> BootParameterBlock {
    BootParameterBlock {
        bytes_per_sector: le16(b, 11),
        sectors_per_cluster: b[13],
        reserved_sectors: le16(b, 14),
        fat_count: b[16],
        root_entry_count: le16(b, 17),
        sectors_per_fat: le16(b, 22),
        total_sectors: if le16(b, 19) == 0 {
            le32(b, 32)
        } else {
            le16(b, 19) as u32
        },
    }
}

impl BootParameterBlock {
    pub open spec fn fat_offset(self) -> int {
        self.reserved_sectors * self.bytes_per_sector
    }

    /// Bytes of one copy of the allocation table.
    pub open spec fn fat_bytes(self) -> int {
        self.sectors_per_fat * self.bytes_per_sector
    }

    pub open spec fn root_offset(self) -> int {
        self.fat_offset() + self.fat_count * self.fat_bytes()
    }

    pub open spec fn data_offset(self) -> int {
        self.root_offset() + self.root_entry_count * 32
    }

    pub open spec fn cluster_bytes(self) -> int {
        self.sectors_per_cluster * self.bytes_per_sector
    }

    /// Number of whole clusters that the sectors after the root directory hold.
    pub open spec fn data_clusters(self) -> int {
        let span = self.total_sectors * self.bytes_per_sector - self.data_offset();
        if span <= 0 || self.cluster_bytes() == 0 {
            0
        } else {
            span / self.cluster_bytes()
        }
    }

    /// One past the highest cluster number: the table holds an entry for it, a 16-bit entry
    /// can link to it, and the data region has a cluster for it.
    pub open spec fn spec_max_clusters(self) -> int {
        let by_table = if self.fat_bytes() / 2 < CLUSTER_LIMIT {
            self.fat_bytes() / 2
        } else {
            CLUSTER_LIMIT as int
        };
        if self.data_clusters() + 2 < by_table {
            self.data_clusters() + 2
        } else {
            by_table
        }
    }

    /// Byte offset of the data sector of cluster `c`.
    pub open spec fn cluster_offset(self, c: int) -> int {
        self.data_offset() + (c - 2) * self.cluster_bytes()
    }

    /// The geometry is consistent: the boot parameters lie in the first sector, which is
    /// reserved, and no count that sizes a region is zero.
    pub open spec fn consistent(self) -> bool {
        self.bytes_per_sector >= BPB_END && self.sectors_per_cluster >= 1 && self.reserved_sectors
            >= 1 && self.fat_count >= 1 && self.sectors_per_fat >= 1
    }

    /// The geometry is consistent and its regions fit in an image of `len` bytes.
    pub open spec fn fits(self, len: int) -> bool {
        self.consistent() && self.data_offset() <= len
    }

    pub fn sector_size(&self) -> (r: usize)
        ensures
            r == self.bytes_per_sector,
    {
        self.bytes_per_sector as usize
    }

    pub fn fat_region_offset(&self) -> (r: u64)
        ensures
            r == self.fat_offset(),
            r <= 0xFFFF * 0xFFFF,
    {
        proof {
            lemma_mul_u16(self.reserved_sectors as int, self.bytes_per_sector as int);
        }
        self.reserved_sectors as u64 * self.bytes_per_sector as u64
    }

    pub fn fat_size(&self) -> (r: u64)
        ensures
            r == self.fat_bytes(),
            r <= 0xFFFF * 0xFFFF,
    {
        proof {
            lemma_mul_u16(self.sectors_per_fat as int, self.bytes_per_sector as int);
        }
        self.sectors_per_fat as u64 * self.bytes_per_sector as u64
    }

    pub fn root_dir_offset(&self) -> (r: u64)
        ensures
            r == self.root_offset(),
            r <= 0xFFFF * 0xFFFF + 0xFF * 0xFFFF * 0xFFFF,
    {
        let f = self.fat_size();
        proof {
            lemma_mul_small(self.fat_count as int, f as int);
        }
        self.fat_region_offset() + self.fat_count as u64 * f
    }

    pub fn data_region_offset(&self) -> (r: u64)
        ensures
            r == self.data_offset(),
            r <= 0xFFFF * 0xFFFF + 0xFF * 0xFFFF * 0xFFFF + 0xFFFF * 32,
    {
        self.root_dir_offset() + self.root_entry_count as u64 * 32
    }

    pub fn max_clusters(&self) -> (r: u64)
        ensures
            r == self.spec_max_clusters(),
            r <= CLUSTER_LIMIT,
    {
        let half = self.fat_size() / 2;
        let by_table = if half < CLUSTER_LIMIT {
            half
        } else {
            CLUSTER_LIMIT
        };
        proof {
            assert(self.total_sectors * self.bytes_per_sector <= 0xFFFF_FFFF * 0xFFFF) by (nonlinear_arith)
                requires
                    self.total_sectors <= 0xFFFF_FFFF,
                    0 <= self.bytes_per_sector <= 0xFFFF,
            ;
            assert(self.cluster_bytes() <= 0xFF * 0xFFFF) by (nonlinear_arith)
                requires
                    self.sectors_per_cluster <= 0xFF,
                    0 <= self.bytes_per_sector <= 0xFFFF,
            ;
        }
        let span = self.total_sectors as u64 * self.bytes_per_sector as u64;
        let data = self.data_region_offset();
        let cb = self.sectors_per_cluster as u64 * self.bytes_per_sector as u64;
        let clusters: u64 = if span <= data || cb == 0 {
            0
        } else {
            (span - data) / cb
        };
        if clusters + 2 < by_table {
            clusters + 2
        } else {
            by_table
        }
    }
}

proof fn lemma_mul_u16(x: int, y: int)
    requires
        0 <= x <= 0xFFFF,
        0 <= y <= 0xFFFF,
    ensures
        0 <= x * y <= 0xFFFF * 0xFFFF,
{
    assert(0 <= x * y <= 0xFFFF * 0xFFFF) by (nonlinear_arith)
        requires
            0 <= x <= 0xFFFF,
            0 <= y <= 0xFFFF,
    ;
}

proof fn lemma_mul_small(x: int, y: int)
    requires
        0 <= x <= 0xFF,
        0 <= y <= 0xFFFF * 0xFFFF,
    ensures
        0 <= x * y <= 0xFF * 0xFFFF * 0xFFFF,
{
    assert(0 <= x * y <= 0xFF * 0xFFFF * 0xFFFF) by (nonlinear_arith)
        requires
            0 <= x <= 0xFF,
            0 <= y <= 0xFFFF * 0xFFFF,
    ;
}

fn get16(b: &[u8], at: usize) -> (r: u16)
    requires
        at + 1 < b@.len(),
    ensures
        r == le16(b@, at as int),
{
    b[at] as u16 + 256 * (b[at + 1] as u16)
}

/// Reads the boot parameters of the image `b`; they must be consistent and fit in it.
pub fn parse(b: &[u8]) -> (r: Result<BootParameterBlock, FatError>)
    ensures
        r is Ok <==> b@.len() >= BPB_END && bpb_of(b@).fits(b@.len() as int),
        r is Ok ==> r->Ok_0 == bpb_of(b@),
        r is Err ==> r->Err_0 == FatError::Format,
{
    if b.len() < BPB_END {
        return Err(FatError::Format);
    }
    let total16 = get16(b, 19);
    let total_sectors: u32 = if total16 == 0 {
        b[32] as u32 + 256 * (b[33] as u32) + 65536 * (b[34] as u32) + 16777216 * (b[35] as u32)
    } else {
        total16 as u32
    };
    let p = BootParameterBlock {
        bytes_per_sector: get16(b, 11),
        sectors_per_cluster: b[13],
        reserved_sectors: get16(b, 14),
        fat_count: b[16],
        root_entry_count: get16(b, 17),
        sectors_per_fat: get16(b, 22),
        total_sectors,
    };
    assert(p == bpb_of(b@));
    if p.bytes_per_sector < BPB_END as u16 || p.sectors_per_cluster == 0 || p.reserved_sectors == 0
        || p.fat_count == 0 || p.sectors_per_fat == 0 {
        return Err(FatError::Format);
    }
    if p.data_region_offset() > b.len() as u64 {
        return Err(FatError::Format);
    }
    Ok(p)
}

} // verus!
