use vstd::prelude::*;

use crate::bpb::{bpb_of, parse, BootParameterBlock, BPB_END};
use crate::error::FatError;
use crate::root_entry::{
    encode_short_name, encode_spec, ext_field, le16, le16_byte, name_error, name_field, text_bytes,
    RootEntry, DELETED, END_OF_DIRECTORY, ENTRY_SIZE,
};

verus! {

/// Marks the last cluster of a chain.
pub const END_OF_CHAIN: u16 = 0xFFFF;

/// A whole disk image held in memory; every other structure is a view into its bytes.
pub struct Image {
    bytes: Vec<u8>,
}

impl View for Image {
    type V = Seq<u8>;

    closed spec fn view(&self) -> Seq<u8> {
        self.bytes@
    }
}

/// `b` carries consistent boot parameters whose regions fit in it.
pub open spec fn valid_image(b: Seq<u8>) -> bool {
    BPB_END <= b.len() <= usize::MAX && bpb_of(b).fits(b.len() as int)
}

pub open spec fn is_free_value(v: u16) -> bool {
    v == 0
}

pub open spec fn is_end_of_chain_value(v: u16) -> bool {
    v >= 0xFFF8
}

/// The table entry of cluster `c`, read from the first copy of the table.
pub open spec fn fat_entry(b: Seq<u8>, c: int) -> u16 {
    le16(b, bpb_of(b).fat_offset() + 2 * c)
}

/// The entry of cluster `c` in copy `k` of the table.
pub open spec fn fat_copy_entry(b: Seq<u8>, k: int, c: int) -> u16 {
    le16(b, bpb_of(b).fat_offset() + k * bpb_of(b).fat_bytes() + 2 * c)
}

pub open spec fn max_clusters(b: Seq<u8>) -> int {
    bpb_of(b).spec_max_clusters()
}

pub open spec fn slot_count(b: Seq<u8>) -> int {
    bpb_of(b).root_entry_count as int
}

pub open spec fn slot_offset(b: Seq<u8>, i: int) -> int {
    bpb_of(b).root_offset() + 32 * i
}

pub open spec fn slot_bytes(b: Seq<u8>, i: int) -> Seq<u8> {
    b.subrange(slot_offset(b, i), slot_offset(b, i) + 32)
}

pub open spec fn slot_is_free(b: Seq<u8>, i: int) -> bool {
    b[slot_offset(b, i)] == END_OF_DIRECTORY || b[slot_offset(b, i)] == DELETED
}

/// No slot up to and including `i` marks the end of the directory.
pub open spec fn before_end(b: Seq<u8>, i: int) -> bool {
    forall|j: int| 0 <= j <= i ==> b[slot_offset(b, j)] != END_OF_DIRECTORY
}

/// The 11 name bytes that the valid short name `s` is stored as.
pub open spec fn key_of(s: Seq<u8>) -> Seq<u8> {
    name_field(s) + ext_field(s)
}

pub open spec fn slot_matches(b: Seq<u8>, i: int, key: Seq<u8>) -> bool {
    !slot_is_free(b, i) && b.subrange(slot_offset(b, i), slot_offset(b, i) + 11) == key
}

/// Slot `i` is the first slot, before the end of the directory, that holds `key`.
pub open spec fn found_at(b: Seq<u8>, key: Seq<u8>, i: int) -> bool {
    0 <= i < slot_count(b) && before_end(b, i) && slot_matches(b, i, key) && forall|j: int|
        0 <= j < i ==> !slot_matches(b, j, key)
}

pub open spec fn name_present(b: Seq<u8>, key: Seq<u8>) -> bool {
    exists|i: int| found_at(b, key, i)
}

/// Slot `i` is the first free slot of the directory.
pub open spec fn first_free_slot(b: Seq<u8>, i: int) -> bool {
    0 <= i < slot_count(b) && slot_is_free(b, i) && forall|j: int|
        0 <= j < i ==> !slot_is_free(b, j)
}

pub open spec fn has_free_slot(b: Seq<u8>) -> bool {
    exists|i: int| 0 <= i < slot_count(b) && slot_is_free(b, i)
}

/// The data sector of cluster `c` is a cluster of the table and lies inside the image.
pub open spec fn sector_in_image(b: Seq<u8>, c: int) -> bool {
    2 <= c < max_clusters(b) && bpb_of(b).cluster_offset(c) + bpb_of(b).bytes_per_sector
        <= b.len()
}

/// Byte `k` of a sector written from `d`, zero past its end.
pub open spec fn sector_byte(d: Seq<u8>, k: int) -> u8 {
    if k < d.len() {
        d[k]
    } else {
        0
    }
}

/// The boot parameters of two images are read from equal bytes.
proof fn lemma_bpb_frame(a: Seq<u8>, b: Seq<u8>)
    requires
        a.len() >= BPB_END,
        b.len() >= BPB_END,
        forall|i: int| 0 <= i < BPB_END ==> a[i] == b[i],
    ensures
        bpb_of(a) == bpb_of(b),
{
    assert(a[11] == b[11] && a[12] == b[12] && a[13] == b[13] && a[14] == b[14] && a[15] == b[15]
        && a[16] == b[16] && a[17] == b[17] && a[18] == b[18] && a[19] == b[19] && a[20] == b[20]
        && a[22] == b[22] && a[23] == b[23] && a[32] == b[32] && a[33] == b[33] && a[34] == b[34]
        && a[35] == b[35]);
}

/// The reserved region, which begins with the boot sector, ends before the table.
proof fn lemma_regions(p: BootParameterBlock)
    requires
        p.consistent(),
    ensures
        BPB_END <= p.bytes_per_sector <= p.fat_offset(),
        p.fat_offset() + p.fat_bytes() <= p.root_offset(),
        p.bytes_per_sector <= p.cluster_bytes(),
        p.spec_max_clusters() <= p.fat_bytes() / 2,
{
    let bps = p.bytes_per_sector as int;
    assert(bps <= p.reserved_sectors * bps) by (nonlinear_arith)
        requires
            p.reserved_sectors >= 1,
            bps >= 0,
    ;
    assert(p.fat_bytes() <= p.fat_count * p.fat_bytes()) by (nonlinear_arith)
        requires
            p.fat_count >= 1,
            p.fat_bytes() >= 0,
    ;
    assert(bps <= p.sectors_per_cluster * bps) by (nonlinear_arith)
        requires
            p.sectors_per_cluster >= 1,
            bps >= 0,
    ;
    assert(p.fat_bytes() >= 0) by (nonlinear_arith)
        requires
            p.sectors_per_fat >= 0,
            bps >= 0,
    ;
}

/// Copies `k` of the table, for `1 <= k < fat_count`, lie after the first and before the
/// root directory.
proof fn lemma_mirror(p: BootParameterBlock, k: int, at: int)
    requires
        1 <= k < p.fat_count,
        0 <= at,
        at + 2 <= p.fat_bytes(),
    ensures
        p.fat_bytes() <= k * p.fat_bytes(),
        k * p.fat_bytes() + at + 2 <= p.fat_count * p.fat_bytes(),
        k * p.fat_bytes() <= 0xFF * 0xFFFF * 0xFFFF,
{
    let f = p.fat_bytes();
    let n = p.fat_count as int;
    assert(f <= k * f && k * f + f <= n * f) by (nonlinear_arith)
        requires
            1 <= k < n,
            f >= 0,
    ;
    assert(f <= 0xFFFF * 0xFFFF) by (nonlinear_arith)
        requires
            f == p.sectors_per_fat * p.bytes_per_sector,
            p.sectors_per_fat <= 0xFFFF,
            p.bytes_per_sector <= 0xFFFF,
    ;
    assert(k * f <= 0xFF * 0xFFFF * 0xFFFF) by (nonlinear_arith)
        requires
            1 <= k <= 0xFF,
            0 <= f <= 0xFFFF * 0xFFFF,
    ;
}

/// Byte `x` of copy `j` and byte `y` of copy `k` of the table are one byte only when
/// they are the same byte of the same copy.
proof fn lemma_table_bytes_apart(fs: int, j: int, x: int, k: int, y: int)
    requires
        0 <= x < fs,
        0 <= y < fs,
        0 <= j,
        0 <= k,
        j * fs + x == k * fs + y,
    ensures
        j == k && x == y,
{
    if j < k {
        assert(j * fs + fs <= k * fs) by (nonlinear_arith)
            requires
                j < k,
                fs >= 0,
        ;
    } else if k < j {
        assert(k * fs + fs <= j * fs) by (nonlinear_arith)
            requires
                k < j,
                fs >= 0,
        ;
    }
}

/// Byte `y` of any copy of the table sits at offset `y` within its copy.
proof fn lemma_table_residue(fs: int, k: int, y: int)
    requires
        0 <= y < fs,
        0 <= k,
    ensures
        (k * fs + y) % fs == y,
{
    vstd::arithmetic::div_mod::lemma_mod_multiples_vanish(k, y, fs);
    vstd::arithmetic::div_mod::lemma_small_mod(y as nat, fs as nat);
    assert(fs * k == k * fs) by (nonlinear_arith);
}

impl Image {
    /// The buffer holds a consistent image.
    pub open spec fn wf(&self) -> bool {
        valid_image(self@)
    }

    /// Takes an image's full contents; fails where its boot parameters are malformed.
    pub fn from_bytes(bytes: Vec<u8>) -> (r: Result<Image, FatError>)
        ensures
            r is Ok <==> valid_image(bytes@),
            r is Ok ==> r->Ok_0@ == bytes@,
            r is Err ==> r->Err_0 == FatError::Format,
    {
        if bytes.len() < BPB_END {
            return Err(FatError::Format);
        }
        match parse(bytes.as_slice()) {
            Ok(_) => Ok(Image { bytes }),
            Err(e) => Err(e),
        }
    }

    /// The image's bytes as they stand.
    pub fn bytes(&self) -> (r: &Vec<u8>)
        ensures
            r@ == self@,
    {
        &self.bytes
    }

    /// Gives up the image, returning its bytes.
    pub fn into_bytes(self) -> (r: Vec<u8>)
        ensures
            r@ == self@,
    {
        self.bytes
    }

    /// The boot parameters, read afresh from the buffer.
    pub fn bpb(&self) -> (r: BootParameterBlock)
        requires
            self.wf(),
        ensures
            r == bpb_of(self@),
    {
        match parse(self.bytes.as_slice()) {
            Ok(p) => p,
            Err(_) => {
                assert(false);
                BootParameterBlock {
                    bytes_per_sector: 0,
                    sectors_per_cluster: 0,
                    reserved_sectors: 0,
                    fat_count: 0,
                    root_entry_count: 0,
                    sectors_per_fat: 0,
                    total_sectors: 0,
                }
            },
        }
    }

    pub fn sector_size(&self) -> (r: usize)
        requires
            self.wf(),
        ensures
            r == bpb_of(self@).bytes_per_sector,
    {
        self.bpb().sector_size()
    }

    /// One past the highest cluster number of the table.
    pub fn max_clusters(&self) -> (r: u16)
        requires
            self.wf(),
        ensures
            r == max_clusters(self@),
    {
        self.bpb().max_clusters() as u16
    }

    fn put16(&mut self, at: usize, v: u16)
        requires
            at + 1 < old(self)@.len() <= usize::MAX,
        ensures
            final(self)@ == old(self)@.update(at as int, le16_byte(v, 0)).update(
                at + 1,
                le16_byte(v, 1),
            ),
    {
        self.bytes.set(at, (v % 256) as u8);
        self.bytes.set(at + 1, (v / 256) as u8);
    }

    /// The table entry of `cluster`.
    pub fn entry_at(&self, cluster: u16) -> (r: u16)
        requires
            self.wf(),
            cluster < max_clusters(self@),
        ensures
            r == fat_entry(self@, cluster as int),
    {
        let p = self.bpb();
        proof {
            lemma_regions(p);
        }
        let at = (p.fat_region_offset() + 2 * cluster as u64) as usize;
        self.bytes[at] as u16 + 256 * (self.bytes[at + 1] as u16)
    }

    /// Writes `value` as the entry of `cluster` in every copy of the table.
    pub fn set_entry_at(&mut self, cluster: u16, value: u16)
        requires
            old(self).wf(),
            cluster < max_clusters(old(self)@),
        ensures
            final(self).wf(),
            final(self)@.len() == old(self)@.len(),
            bpb_of(final(self)@) == bpb_of(old(self)@),
            fat_entry(final(self)@, cluster as int) == value,
            forall|k: int|
                0 <= k < bpb_of(old(self)@).fat_count ==> #[trigger] fat_copy_entry(
                    final(self)@,
                    k,
                    cluster as int,
                ) == value,
            forall|c: int|
                0 <= c < max_clusters(old(self)@) && c != cluster ==> fat_entry(final(self)@, c)
                    == fat_entry(old(self)@, c),
            forall|k: int, c: int|
                0 <= k < bpb_of(old(self)@).fat_count && 0 <= c < max_clusters(old(self)@) && c
                    != cluster ==> #[trigger] fat_copy_entry(final(self)@, k, c) == fat_copy_entry(
                    old(self)@,
                    k,
                    c,
                ),
            forall|i: int|
                0 <= i < old(self)@.len() && !(bpb_of(old(self)@).fat_offset() <= i < bpb_of(
                    old(self)@,
                ).root_offset()) ==> final(self)@[i] == old(self)@[i],
            forall|i: int|
                bpb_of(old(self)@).fat_offset() <= i < bpb_of(old(self)@).root_offset() && ((i
                    - bpb_of(old(self)@).fat_offset()) % bpb_of(old(self)@).fat_bytes()) / 2
                    != cluster ==> final(self)@[i] == old(self)@[i],
    {
        let ghost before = self@;
        let p = self.bpb();
        proof {
            lemma_regions(p);
        }
        let fo = p.fat_region_offset();
        let fs = p.fat_size();
        let at = 2 * cluster as u64;
        self.put16((fo + at) as usize, value);
        let ghost mid = self@;
        proof {
            lemma_table_residue(fs as int, 0, at as int);
            lemma_table_residue(fs as int, 0, at + 1);
            assert(0 * fs == 0);
        }
        proof {
            assert forall|j: int, d: int|
                0 <= j < p.fat_count && 0 <= d < p.spec_max_clusters() && d != cluster implies #[trigger] le16(self@, fo + j * fs + 2 * d) == le16(before, fo + j * fs + 2 * d) by {
                assert(j * fs >= 0) by (nonlinear_arith)
                    requires
                        j >= 0,
                        fs >= 0,
                ;
                if j == 0 {
                    assert(j * fs == 0);
                } else {
                    lemma_mirror(p, j, 2 * d);
                }
                assert(self@[fo + j * fs + 2 * d] == before[fo + j * fs + 2 * d]) by {
                    if fo + j * fs + 2 * d == fo + at || fo + j * fs + 2 * d == fo + at + 1 {
                        lemma_table_bytes_apart(fs as int, j, 2 * d, 0, (fo + j * fs + 2 * d) - fo);
                    }
                }
                assert(self@[fo + j * fs + 2 * d + 1] == before[fo + j * fs + 2 * d + 1]) by {
                    if fo + j * fs + 2 * d + 1 == fo + at || fo + j * fs + 2 * d + 1 == fo + at + 1 {
                        lemma_table_bytes_apart(fs as int, j, 2 * d + 1, 0, (fo + j * fs + 2 * d + 1) - fo);
                    }
                }
            }
        }
        let mut k: u64 = 1;
        while k < p.fat_count as u64
            invariant
                p == bpb_of(before),
                p.fits(before.len() as int),
                fo == p.fat_offset(),
                fs == p.fat_bytes(),
                BPB_END <= fo <= 0xFFFF * 0xFFFF,
                fo + fs <= p.root_offset(),
                p.root_offset() <= before.len() <= usize::MAX,
                forall|i: int|
                    0 <= i < before.len() && (i < fo || i >= p.root_offset()) ==> mid[i]
                        == before[i],
                at == 2 * cluster,
                at + 2 <= fs,
                1 <= k <= p.fat_count,
                self@.len() == before.len(),
                mid.len() == before.len(),
                forall|i: int|
                    0 <= i < self@.len() && (i < fo + fs || i >= p.root_offset()) ==> self@[i]
                        == mid[i],
                forall|j: int| 1 <= j < k ==> le16(self@, fo + #[trigger] (j * fs) + at) == value,
                forall|j: int, d: int|
                    0 <= j < p.fat_count && 0 <= d < p.spec_max_clusters() && d != cluster ==> #[trigger] le16(self@, fo + j * fs + 2 * d) == le16(before, fo + j * fs + 2 * d),
                forall|i: int|
                    fo <= i < p.root_offset() && ((i - fo) % (fs as int)) / 2 != cluster ==> self@[i]
                        == before[i],
            decreases p.fat_count - k,
        {
            proof {
                lemma_mirror(p, k as int, at as int);
            }
            let ghost prev = self@;
            self.put16((fo + k * fs + at) as usize, value);
            proof {
                lemma_table_residue(fs as int, k as int, at as int);
                lemma_table_residue(fs as int, k as int, at + 1);
                assert((fo + k * fs + at) - fo == k * fs + at);
                assert forall|j: int, d: int|
                    0 <= j < p.fat_count && 0 <= d < p.spec_max_clusters() && d != cluster implies #[trigger] le16(self@, fo + j * fs + 2 * d) == le16(before, fo + j * fs + 2 * d) by {
                    assert(j * fs >= 0) by (nonlinear_arith)
                        requires
                            j >= 0,
                            fs >= 0,
                    ;
                    if j == 0 {
                        assert(j * fs == 0);
                    } else {
                        lemma_mirror(p, j, 2 * d);
                    }
                    let w = fo + k * fs + at;
                    let x = fo + j * fs + 2 * d;
                    assert(le16(prev, x) == le16(before, x));
                    assert(self@[x] == prev[x]) by {
                        if x == w || x == w + 1 {
                            lemma_table_bytes_apart(fs as int, j, 2 * d, k as int, x - fo - k * fs);
                        }
                    }
                    assert(self@[x + 1] == prev[x + 1]) by {
                        if x + 1 == w || x + 1 == w + 1 {
                            lemma_table_bytes_apart(fs as int, j, 2 * d + 1, k as int, x + 1 - fo - k * fs);
                        }
                    }
                }
                assert forall|j: int| 1 <= j < k + 1 implies le16(self@, fo + #[trigger] (j * fs) + at)
                    == value by {
                    if j < k {
                        assert(j * fs + fs <= k * fs) by (nonlinear_arith)
                            requires
                                j < k,
                                fs >= 0,
                        ;
                        assert(self@[fo + j * fs + at] == prev[fo + j * fs + at]);
                        assert(self@[fo + j * fs + at + 1] == prev[fo + j * fs + at + 1]);
                    }
                }
            }
            k = k + 1;
        }
        proof {
            lemma_bpb_frame(self@, before);
            assert forall|c: int|
                0 <= c < max_clusters(before) && c != cluster implies fat_entry(self@, c)
                == fat_entry(before, c) by {
                assert(self@[fo + 2 * c] == mid[fo + 2 * c]);
                assert(self@[fo + 2 * c + 1] == mid[fo + 2 * c + 1]);
            }
            assert(self@[fo + at] == mid[fo + at]);
            assert(self@[fo + at + 1] == mid[fo + at + 1]);
            assert forall|j: int, d: int|
                0 <= j < p.fat_count && 0 <= d < max_clusters(before) && d != cluster implies #[trigger] fat_copy_entry(
                self@,
                j,
                d,
            ) == fat_copy_entry(before, j, d) by {
                assert(le16(self@, fo + (j * fs) + 2 * d) == le16(before, fo + j * fs + 2 * d));
            }
            assert forall|j: int| 0 <= j < p.fat_count implies #[trigger] fat_copy_entry(
                self@,
                j,
                cluster as int,
            ) == value by {
                if j == 0 {
                    assert(j * fs == 0);
                } else {
                    assert(le16(self@, fo + (j * fs) + at) == value);
                }
            }
        }
    }

    /// The first cluster from 2 upward whose entry is free, if any.
    pub fn first_free_entry(&self) -> (r: Option<u16>)
        requires
            self.wf(),
        ensures
            r is Some ==> 2 <= r->0 < max_clusters(self@) && is_free_value(
                fat_entry(self@, r->0 as int),
            ) && forall|c: int| 2 <= c < r->0 ==> !is_free_value(fat_entry(self@, c)),
            r is None ==> forall|c: int|
                2 <= c < max_clusters(self@) ==> !is_free_value(fat_entry(self@, c)),
    {
        let max = self.max_clusters();
        let mut c: u16 = 2;
        while c < max
            invariant
                self.wf(),
                max == max_clusters(self@),
                2 <= c,
                forall|d: int| 2 <= d < c ==> !is_free_value(fat_entry(self@, d)),
            decreases max - c,
        {
            if self.entry_at(c) == 0 {
                return Some(c);
            }
            c = c + 1;
        }
        None
    }

    /// Writes `data`, cut or zero-padded to one sector, to the data sector of `cluster`.
    pub fn write_data_sector(&mut self, cluster: u16, data: &[u8]) -> (r: Result<(), FatError>)
        requires
            old(self).wf(),
        ensures
            r is Err <==> !sector_in_image(old(self)@, cluster as int),
            r is Err ==> r->Err_0 == FatError::Range && final(self)@ == old(self)@,
            final(self).wf(),
            final(self)@.len() == old(self)@.len(),
            bpb_of(final(self)@) == bpb_of(old(self)@),
            r is Ok ==> forall|i: int|
                0 <= i < old(self)@.len() ==> final(self)@[i] == {
                    let off = bpb_of(old(self)@).cluster_offset(cluster as int);
                    if off <= i < off + bpb_of(old(self)@).bytes_per_sector {
                        sector_byte(data@, i - off)
                    } else {
                        old(self)@[i]
                    }
                },
    {
        let ghost before = self@;
        let p = self.bpb();
        proof {
            lemma_regions(p);
        }
        let max = self.max_clusters();
        if cluster < 2 || cluster >= max {
            return Err(FatError::Range);
        }
        proof {
            assert(p.cluster_bytes() <= 0xFF * 0xFFFF) by (nonlinear_arith)
                requires
                    p.sectors_per_cluster <= 0xFF,
                    p.bytes_per_sector <= 0xFFFF,
            ;
        }
        let cb = p.sectors_per_cluster as u64 * p.bytes_per_sector as u64;
        proof {
            assert((cluster - 2) * cb <= 0xFFFF * (0xFF * 0xFFFF)) by (nonlinear_arith)
                requires
                    0 <= cluster - 2 <= 0xFFFF,
                    0 <= cb <= 0xFF * 0xFFFF,
            ;
        }
        let off = p.data_region_offset() + (cluster as u64 - 2) * cb;
        let ss = p.bytes_per_sector as u64;
        if off + ss > self.bytes.len() as u64 {
            return Err(FatError::Range);
        }
        let off = off as usize;
        let ss = ss as usize;
        let mut k: usize = 0;
        while k < ss
            invariant
                off + ss <= self@.len() <= usize::MAX,
                self@.len() == before.len(),
                k <= ss,
                off >= p.data_offset(),
                p.data_offset() >= BPB_END,
                forall|i: int|
                    0 <= i < before.len() ==> self@[i] == if off <= i < off + k {
                        sector_byte(data@, i - off)
                    } else {
                        before[i]
                    },
            decreases ss - k,
        {
            let v = if k < data.len() {
                data[k]
            } else {
                0
            };
            self.bytes.set(off + k, v);
            k = k + 1;
        }
        proof {
            lemma_bpb_frame(self@, before);
        }
        Ok(())
    }

    /// Writes the 32 bytes of `entry` into root directory slot `index`.
    pub fn save_file_entry(&mut self, entry: RootEntry, index: usize) -> (r: Result<(), FatError>)
        requires
            old(self).wf(),
        ensures
            r is Err <==> index >= slot_count(old(self)@),
            r is Err ==> r->Err_0 == FatError::Range && final(self)@ == old(self)@,
            final(self).wf(),
            final(self)@.len() == old(self)@.len(),
            bpb_of(final(self)@) == bpb_of(old(self)@),
            r is Ok ==> forall|i: int|
                0 <= i < old(self)@.len() ==> final(self)@[i] == {
                    let off = slot_offset(old(self)@, index as int);
                    if off <= i < off + 32 {
                        encode_spec(entry)[i - off]
                    } else {
                        old(self)@[i]
                    }
                },
    {
        let ghost before = self@;
        let p = self.bpb();
        proof {
            lemma_regions(p);
        }
        if index >= p.root_entry_count as usize {
            return Err(FatError::Range);
        }
        let off = (p.root_dir_offset() + 32 * index as u64) as usize;
        let enc = entry.encode();
        let mut k: usize = 0;
        while k < ENTRY_SIZE
            invariant
                off == slot_offset(before, index as int),
                off + 32 <= before.len() <= usize::MAX,
                off >= BPB_END,
                enc@ == encode_spec(entry),
                self@.len() == before.len(),
                k <= 32,
                forall|i: int|
                    0 <= i < before.len() ==> self@[i] == if off <= i < off + k {
                        encode_spec(entry)[i - off]
                    } else {
                        before[i]
                    },
            decreases 32 - k,
        {
            self.bytes.set(off + k, enc[k]);
            k = k + 1;
        }
        proof {
            lemma_bpb_frame(self@, before);
        }
        Ok(())
    }
}

/// `e` is a new entry for the valid short name `s`, of `size` bytes, with no first
/// cluster, no attributes and zero times.
pub open spec fn is_fresh_entry(e: RootEntry, s: Seq<u8>, size: u32) -> bool {
    e.filename@ == name_field(s) && e.extension@ == ext_field(s) && e.file_size == size && e.attrs
        == 0 && e.reserved == 0 && e.creation_time == 0 && e.creation_date == 0
        && e.last_access_date == 0 && e.hi_first_lcluster == 0 && e.last_write_time == 0
        && e.last_write_date == 0 && e.lo_first_lcluster == 0
}

/// The table value marks a free cluster.
pub fn is_free(value: u16) -> (r: bool)
    ensures
        r == is_free_value(value),
{
    value == 0
}

/// The table value marks the last cluster of a chain.
pub fn is_end_of_chain(value: u16) -> (r: bool)
    ensures
        r == is_end_of_chain_value(value),
{
    value >= 0xFFF8
}

impl Image {
    fn slot_has_key(&self, off: usize, name: &[u8; 8], ext: &[u8; 3]) -> (r: bool)
        requires
            off + 11 <= self@.len() <= usize::MAX,
        ensures
            r == (self@.subrange(off as int, off + 11) == name@ + ext@),
    {
        let ghost key = name@ + ext@;
        let mut k: usize = 0;
        while k < 11
            invariant
                off + 11 <= self@.len() <= usize::MAX,
                key == name@ + ext@,
                k <= 11,
                forall|j: int| 0 <= j < k ==> self@[off + j] == key[j],
            decreases 11 - k,
        {
            let want = if k < 8 {
                name[k]
            } else {
                ext[k - 8]
            };
            if self.bytes[off + k] != want {
                assert(self@.subrange(off as int, off + 11)[k as int] != key[k as int]);
                return false;
            }
            k = k + 1;
        }
        assert(self@.subrange(off as int, off + 11) =~= key);
        true
    }

    fn read_slot(&self, off: usize) -> (r: [u8; 32])
        requires
            off + 32 <= self@.len() <= usize::MAX,
        ensures
            r@ == self@.subrange(off as int, off + 32),
    {
        let mut a: [u8; 32] = [0; 32];
        let mut k: usize = 0;
        while k < ENTRY_SIZE
            invariant
                off + 32 <= self@.len() <= usize::MAX,
                k <= 32,
                forall|j: int| 0 <= j < k ==> a@[j] == self@[off + j],
            decreases 32 - k,
        {
            a[k] = self.bytes[off + k];
            k = k + 1;
        }
        assert(a@ =~= self@.subrange(off as int, off + 32));
        a
    }

    /// The entry of the root directory named `name`, compared on its stored 8.3 form.
    pub fn get_file_entry(&self, name: String) -> (r: Result<RootEntry, FatError>)
        requires
            self.wf(),
        ensures
            name_error(text_bytes(name@)) is Some ==> r is Err && r->Err_0 == FatError::NotFound,
            name_error(text_bytes(name@)) is None ==> (r is Ok <==> name_present(
                self@,
                key_of(text_bytes(name@)),
            )),
            r is Err ==> r->Err_0 == FatError::NotFound,
            r is Ok ==> exists|i: int|
                found_at(self@, key_of(text_bytes(name@)), i) && encode_spec(r->Ok_0)
                    == slot_bytes(self@, i),
    {
        let nb = name.as_str().as_bytes();
        let (fname, fext) = match encode_short_name(nb) {
            Ok(x) => x,
            Err(_) => {
                return Err(FatError::NotFound);
            },
        };
        let ghost key = key_of(nb@);
        assert(nb@ == text_bytes(name@));
        assert(key == fname@ + fext@);
        let p = self.bpb();
        proof {
            lemma_regions(p);
        }
        let ro = p.root_dir_offset();
        let n = p.root_entry_count as usize;
        let mut i: usize = 0;
        while i < n
            invariant
                self.wf(),
                p == bpb_of(self@),
                ro == p.root_offset(),
                n == slot_count(self@),
                key == fname@ + fext@,
                key == key_of(text_bytes(name@)),
                name_error(text_bytes(name@)) is None,
                i <= n,
                forall|j: int| 0 <= j < i ==> self@[slot_offset(self@, j)] != END_OF_DIRECTORY,
                forall|j: int| 0 <= j < i ==> !slot_matches(self@, j, key),
            decreases n - i,
        {
            let off = (ro + 32 * i as u64) as usize;
            assert(off == slot_offset(self@, i as int));
            let first = self.bytes[off];
            if first == END_OF_DIRECTORY {
                assert(!name_present(self@, key)) by {
                    if name_present(self@, key) {
                        let k = choose|k: int| found_at(self@, key, k);
                        if k >= i {
                            assert(self@[slot_offset(self@, i as int)] != END_OF_DIRECTORY);
                        }
                    }
                }
                return Err(FatError::NotFound);
            }
            if first != DELETED && self.slot_has_key(off, &fname, &fext) {
                let raw = self.read_slot(off);
                let e = RootEntry::decode(&raw);
                assert(found_at(self@, key, i as int));
                assert(encode_spec(e) == slot_bytes(self@, i as int));
                return Ok(e);
            }
            i = i + 1;
        }
        assert(!name_present(self@, key));
        Err(FatError::NotFound)
    }

    /// A new entry named `name` of `size` bytes, with the first free slot to hold it; the
    /// image itself is not changed.
    pub fn create_file_entry(&self, name: String, size: u32) -> (r: Result<
        (RootEntry, usize),
        FatError,
    >)
        requires
            self.wf(),
        ensures
            (r is Err && r->Err_0 == FatError::DirectoryFull) <==> !has_free_slot(self@),
            has_free_slot(self@) && name_error(text_bytes(name@)) is Some ==> r is Err
                && r->Err_0 == FatError::Name(name_error(text_bytes(name@))->0),
            r is Ok <==> has_free_slot(self@) && name_error(text_bytes(name@)) is None,
            r is Ok ==> first_free_slot(self@, r->Ok_0.1 as int) && is_fresh_entry(
                r->Ok_0.0,
                text_bytes(name@),
                size,
            ),
    {
        let p = self.bpb();
        proof {
            lemma_regions(p);
        }
        let ro = p.root_dir_offset();
        let n = p.root_entry_count as usize;
        let mut i: usize = 0;
        while i < n
            invariant
                self.wf(),
                p == bpb_of(self@),
                ro == p.root_offset(),
                n == slot_count(self@),
                i <= n,
                forall|j: int| 0 <= j < i ==> !slot_is_free(self@, j),
            decreases n - i,
        {
            let off = (ro + 32 * i as u64) as usize;
            assert(off == slot_offset(self@, i as int));
            let first = self.bytes[off];
            if first == END_OF_DIRECTORY || first == DELETED {
                assert(slot_is_free(self@, i as int));
                assert(has_free_slot(self@));
                let mut e = RootEntry::new();
                let named = e.set_filename(name);
                match named {
                    Ok(()) => {},
                    Err(x) => {
                        return Err(FatError::Name(x));
                    },
                }
                let _ = e.set_size(size);
                return Ok((e, i));
            }
            i = i + 1;
        }
        Err(FatError::DirectoryFull)
    }
}

} // verus!
