use vstd::prelude::*;

use crate::bpb::{bpb_of, BootParameterBlock};
use crate::error::FatError;
use crate::image::{
    fat_copy_entry, fat_entry, first_free_slot, has_free_slot, is_end_of_chain_value, key_of, max_clusters,
    name_present, sector_in_image, slot_bytes, slot_offset, valid_image, Image, END_OF_CHAIN,
};
use crate::root_entry::{encode_short_name, encode_spec, ext_field, name_error, name_field, text_bytes, RootEntry};

verus! {

/// Number of sectors of `z` bytes that `len` bytes fill.
pub open spec fn clusters_needed(len: int, z: int) -> int {
    (len + z - 1) / z
}

/// The clusters of `chain` are distinct clusters of the table.
pub open spec fn chain_distinct(b: Seq<u8>, chain: Seq<u16>) -> bool {
    (forall|j: int| 0 <= j < chain.len() ==> 2 <= #[trigger] chain[j] < max_clusters(b)) && forall|
        i: int,
        j: int,
    | 0 <= i < j < chain.len() ==> #[trigger] chain[i] != #[trigger] chain[j]
}

/// `chain` ascends, and takes every cluster that is free in `b` below its last one: the
/// clusters are the lowest free ones, in order.
pub open spec fn chain_lowest_free(b: Seq<u8>, chain: Seq<u16>) -> bool {
    (forall|i: int, j: int| 0 <= i < j < chain.len() ==> #[trigger] chain[i] < #[trigger] chain[j])
        && forall|c: int|
        2 <= c < max_clusters(b) && fat_entry(b, c) == 0 && chain.len() > 0 && c < chain.last()
            ==> chain.contains(c as u16)
}

/// Number of free clusters of the table of `b` in `[2, c)`.
pub open spec fn free_count(b: Seq<u8>, c: int) -> int
    decreases c,
{
    if c <= 2 {
        0
    } else {
        free_count(b, c - 1) + if fat_entry(b, c - 1) == 0 {
            1int
        } else {
            0
        }
    }
}

/// Where the scan for the next free cluster may begin, given the clusters taken so far.
pub open spec fn scan_start(chain: Seq<u16>) -> int {
    if chain.len() == 0 {
        2
    } else {
        chain.last() + 1
    }
}

proof fn lemma_free_count_flat(b: Seq<u8>, a: int, c: int)
    requires
        2 <= a <= c,
        forall|d: int| a <= d < c ==> fat_entry(b, d) != 0,
    ensures
        free_count(b, c) == free_count(b, a),
    decreases c - a,
{
    if c > a {
        lemma_free_count_flat(b, a, c - 1);
    }
}

proof fn lemma_fewer(k: int, len: int, z: int)
    requires
        z > 0,
        k >= 0,
        k * z < len,
    ensures
        k < clusters_needed(len, z),
{
    assert((k + 1) * z <= len + z - 1) by (nonlinear_arith)
        requires
            k * z < len,
            z > 0,
    ;
    assert(k + 1 <= (len + z - 1) / z) by (nonlinear_arith)
        requires
            (k + 1) * z <= len + z - 1,
            z > 0,
            k >= 0,
    ;
}

/// Each cluster of `chain` links to the next in the table of `b`, and the last one holds the
/// end-of-chain marker.
pub open spec fn chain_linked(b: Seq<u8>, chain: Seq<u16>) -> bool {
    (forall|j: int|
        0 <= j < chain.len() - 1 ==> fat_entry(b, #[trigger] chain[j] as int) == chain[j + 1]) && (
    chain.len() > 0 ==> is_end_of_chain_value(fat_entry(b, chain.last() as int)))
}

/// Byte `t` of the data sector of cluster `chain[j]` holds byte `j * z + t` of `data`, or zero
/// past its end.
pub open spec fn chain_holds(b: Seq<u8>, chain: Seq<u16>, data: Seq<u8>, z: int) -> bool {
    forall|j: int, t: int|
        0 <= j < chain.len() && 0 <= t < z ==> #[trigger] b[bpb_of(b).cluster_offset(
            #[trigger] chain[j] as int,
        ) + t] == (
        if j * z + t < data.len() {
            data[j * z + t]
        } else {
            0
        })
}

/// Byte `i` lies in the data sector of a cluster of `chain`.
pub open spec fn in_chain_sectors(b: Seq<u8>, chain: Seq<u16>, i: int) -> bool {
    exists|j: int|
        0 <= j < chain.len() && bpb_of(b).cluster_offset(#[trigger] chain[j] as int) <= i < bpb_of(
            b,
        ).cluster_offset(chain[j] as int) + bpb_of(b).bytes_per_sector
}

/// Byte `i` of the table region lies in the entry, in some copy of the table, of a cluster of
/// `chain`.
pub open spec fn in_chain_entries(b: Seq<u8>, chain: Seq<u16>, i: int) -> bool {
    exists|j: int|
        0 <= j < chain.len() && #[trigger] chain[j] as int == ((i - bpb_of(b).fat_offset()) % bpb_of(
            b,
        ).fat_bytes()) / 2
}

/// The first cluster that an entry records for `chain`: zero for an empty file.
pub open spec fn start_of(chain: Seq<u16>) -> u16 {
    if chain.len() > 0 {
        chain[0]
    } else {
        0
    }
}

/// `e` names the valid short name `s`, records `size` bytes starting at cluster `start`, and
/// has no attributes and zero times.
pub open spec fn is_inserted_entry(e: RootEntry, s: Seq<u8>, size: int, start: u16) -> bool {
    e.filename@ == name_field(s) && e.extension@ == ext_field(s) && e.file_size == size && e.attrs
        == 0 && e.reserved == 0 && e.creation_time == 0 && e.creation_date == 0
        && e.last_access_date == 0 && e.hi_first_lcluster == 0 && e.last_write_time == 0
        && e.last_write_date == 0 && e.lo_first_lcluster == start
}

proof fn lemma_ceil(len: int, z: int, k: int)
    requires
        z > 0,
        len >= 0,
        k >= 0,
        k * z >= len,
        k == 0 || (k - 1) * z < len,
    ensures
        k == clusters_needed(len, z),
{
    if k == 0 {
        assert(len == 0);
        assert((z - 1) / z == 0) by (nonlinear_arith)
            requires
                z > 0,
        ;
    } else {
        assert(k * z <= len + z - 1 < (k + 1) * z) by (nonlinear_arith)
            requires
                z > 0,
                k >= 1,
                k * z >= len,
                (k - 1) * z < len,
        ;
        assert((len + z - 1) / z == k) by (nonlinear_arith)
            requires
                z > 0,
                k * z <= len + z - 1 < (k + 1) * z,
        ;
    }
}

/// Sectors of distinct clusters do not overlap.
proof fn lemma_sectors_apart(p: BootParameterBlock, c: int, d: int, t: int, u: int)
    requires
        p.bytes_per_sector <= p.cluster_bytes(),
        c != d,
        0 <= t < p.bytes_per_sector,
        0 <= u < p.bytes_per_sector,
    ensures
        p.cluster_offset(c) + t != p.cluster_offset(d) + u,
{
    let cb = p.cluster_bytes();
    assert((c - 2) * cb + t != (d - 2) * cb + u) by (nonlinear_arith)
        requires
            c != d,
            0 <= t < cb,
            0 <= u < cb,
    ;
}

proof fn lemma_sector_after_dir(p: BootParameterBlock, c: int)
    requires
        c >= 2,
        p.cluster_bytes() >= 0,
    ensures
        p.cluster_offset(c) >= p.data_offset(),
{
    assert((c - 2) * p.cluster_bytes() >= 0) by (nonlinear_arith)
        requires
            c >= 2,
            p.cluster_bytes() >= 0,
    ;
}

/// Adds a file named `name` holding `data` to the image: a root directory entry and a chain
/// of the lowest free clusters, one sector of data in each, linked in order in the table.
/// Where the table or the image runs out of clusters partway, the clusters written so far
/// stay written and no entry is saved.
#[verifier::rlimit(100)]
#[verifier::spinoff_prover]
pub fn insert_file(image: &mut Image, name: String, data: &[u8]) -> (r: Result<Vec<u16>, FatError>)
    requires
        old(image).wf(),
    ensures
        final(image).wf(),
        final(image)@.len() == old(image)@.len(),
        name_error(text_bytes(name@)) is Some ==> r is Err && r->Err_0 == FatError::Name(
            name_error(text_bytes(name@))->0,
        ) && final(image)@ == old(image)@,
        name_error(text_bytes(name@)) is None && name_present(
            old(image)@,
            key_of(text_bytes(name@)),
        ) ==> r is Err && r->Err_0 == FatError::Conflict && final(image)@ == old(image)@,
        name_error(text_bytes(name@)) is None && !name_present(old(image)@, key_of(text_bytes(name@)))
            && data@.len() > u32::MAX ==> r is Err && r->Err_0 == FatError::Unsupported && final(image)@ == old(image)@,
        name_error(text_bytes(name@)) is None && !name_present(old(image)@, key_of(text_bytes(name@)))
            && data@.len() <= u32::MAX && !has_free_slot(old(image)@) ==> r is Err && r->Err_0
            == FatError::DirectoryFull && final(image)@ == old(image)@,
        name_error(text_bytes(name@)) is None && !name_present(old(image)@, key_of(text_bytes(name@)))
            && data@.len() <= u32::MAX && has_free_slot(old(image)@) ==> r is Ok || r->Err_0
            == FatError::FatExhausted || r->Err_0 == FatError::Range,
        r is Err ==> forall|i: int|
            bpb_of(old(image)@).root_offset() <= i < bpb_of(old(image)@).data_offset() ==> final(image)@[i]
                == old(image)@[i],
        r is Err && r->Err_0 == FatError::Range ==> exists|c: int|
            2 <= c < max_clusters(old(image)@) && fat_entry(old(image)@, c) == 0 && !sector_in_image(
                old(image)@,
                c,
            ) && free_count(old(image)@, c) < clusters_needed(
                data@.len() as int,
                bpb_of(old(image)@).bytes_per_sector as int,
            ),
        r is Err && r->Err_0 == FatError::FatExhausted ==> free_count(
            old(image)@,
            max_clusters(old(image)@),
        ) < clusters_needed(data@.len() as int, bpb_of(old(image)@).bytes_per_sector as int),
        r is Ok ==> {
            let b0 = old(image)@;
            let b1 = final(image)@;
            let chain = r->Ok_0@;
            let z = bpb_of(b0).bytes_per_sector as int;
            &&& bpb_of(b1) == bpb_of(b0)
            &&& chain.len() == clusters_needed(data@.len() as int, z)
            &&& chain_distinct(b0, chain)
            &&& chain_lowest_free(b0, chain)
            &&& forall|j: int| 0 <= j < chain.len() ==> fat_entry(b0, chain[j] as int) == 0
            &&& chain_linked(b1, chain)
            &&& forall|c: int|
                0 <= c < max_clusters(b0) && !chain.contains(c as u16) ==> fat_entry(b1, c)
                    == fat_entry(b0, c)
            &&& chain_holds(b1, chain, data@, z)
            &&& forall|k: int, c: int|
                0 <= k < bpb_of(b0).fat_count && 0 <= c < max_clusters(b0) && !chain.contains(
                    c as u16,
                ) ==> #[trigger] fat_copy_entry(b1, k, c) == fat_copy_entry(b0, k, c)
            &&& exists|i: int, e: RootEntry|
                first_free_slot(b0, i) && slot_bytes(b1, i) == encode_spec(e) && is_inserted_entry(
                    e,
                    text_bytes(name@),
                    data@.len() as int,
                    start_of(chain),
                ) && forall|x: int|
                    0 <= x < b0.len() && !(bpb_of(b0).fat_offset() <= x < bpb_of(b0).root_offset()
                        && in_chain_entries(b0, chain, x))
                        && !(slot_offset(b0, i) <= x < slot_offset(b0, i) + 32) && !in_chain_sectors(
                        b0,
                        chain,
                        x,
                    ) ==> b1[x] == b0[x]
        },
{
    let ghost b0 = image@;
    let ghost nm = name@;
    match encode_short_name(name.as_str().as_bytes()) {
        Ok(_) => {},
        Err(e) => {
            return Err(FatError::Name(e));
        },
    }
    if image.get_file_entry(name.clone()).is_ok() {
        return Err(FatError::Conflict);
    }
    if data.len() > u32::MAX as usize {
        return Err(FatError::Unsupported);
    }
    let len = data.len() as u64;
    let (mut entry, slot) = match image.create_file_entry(name, len as u32) {
        Ok(x) => x,
        Err(e) => {
            return Err(e);
        },
    };
    let p = image.bpb();
    let ss = p.bytes_per_sector as u64;
    proof {
        assert(p.bytes_per_sector <= p.cluster_bytes()) by (nonlinear_arith)
            requires
                p.sectors_per_cluster >= 1,
                p.bytes_per_sector >= 0,
        ;
        assert(p.fat_offset() + p.fat_bytes() <= p.root_offset() && p.fat_offset() >= 0) by (nonlinear_arith)
            requires
                p.fat_count >= 1,
                p.sectors_per_fat >= 0,
                p.bytes_per_sector >= 0,
                p.reserved_sectors >= 0,
        ;
        assert(p.spec_max_clusters() <= p.fat_bytes() / 2);
    }
    let mut chain: Vec<u16> = Vec::new();
    let mut pos: u64 = 0;
    while pos < len
        invariant
            image.wf(),
            image@.len() == b0.len(),
            bpb_of(image@) == bpb_of(b0),
            p == bpb_of(b0),
            b0 == old(image)@,
            nm == name@,
            valid_image(b0),
            name_error(text_bytes(nm)) is None,
            !name_present(b0, key_of(text_bytes(nm))),
            has_free_slot(b0),
            ss == p.bytes_per_sector,
            ss >= 1,
            p.bytes_per_sector <= p.cluster_bytes(),
            p.fat_offset() + p.fat_bytes() <= p.root_offset(),
            p.spec_max_clusters() <= p.fat_bytes() / 2,
            len == data@.len(),
            len <= u32::MAX,
            pos == chain@.len() * ss,
            chain@.len() == 0 || (chain@.len() - 1) * ss < len,
            first_free_slot(b0, slot as int),
            forall|i: int|
                p.root_offset() <= i < p.data_offset() ==> image@[i] == b0[i],
            chain_distinct(b0, chain@),
            chain_lowest_free(b0, chain@),
            free_count(b0, scan_start(chain@)) == chain@.len(),
            forall|j: int| 0 <= j < chain@.len() ==> fat_entry(b0, chain@[j] as int) == 0,
            forall|j: int| 0 <= j < chain@.len() ==> sector_in_image(b0, chain@[j] as int),
            chain_linked(image@, chain@),
            forall|c: int|
                0 <= c < max_clusters(b0) && !chain@.contains(c as u16) ==> fat_entry(image@, c)
                    == fat_entry(b0, c),
            chain_holds(image@, chain@, data@, ss as int),
            is_inserted_entry(entry, text_bytes(nm), len as int, start_of(chain@)),
            forall|x: int|
                0 <= x < b0.len() && !(p.fat_offset() <= x < p.root_offset() && in_chain_entries(
                    b0,
                    chain@,
                    x,
                )) && !in_chain_sectors(
                    b0,
                    chain@,
                    x,
                ) ==> image@[x] == b0[x],
            forall|k: int, d: int|
                0 <= k < p.fat_count && 0 <= d < max_clusters(b0) && !chain@.contains(d as u16)
                    ==> #[trigger] fat_copy_entry(image@, k, d) == fat_copy_entry(b0, k, d),
        decreases len + ss - pos,
    {
        let ghost before = image@;
        let ghost lim = scan_start(chain@);
        proof {
            assert forall|i: int| 0 <= i < chain@.len() implies chain@[i] < lim by {
                if i < chain@.len() - 1 {
                    assert(chain@[i] < chain@[chain@.len() - 1]);
                }
            }
            assert forall|d: int|
                lim <= d < max_clusters(b0) && fat_entry(b0, d) == 0 implies fat_entry(before, d)
                == 0 by {
                if chain@.contains(d as u16) {
                    let j = choose|j: int| 0 <= j < chain@.len() && chain@[j] == d as u16;
                    assert(chain@[j] < lim);
                }
            }
            lemma_fewer(chain@.len() as int, len as int, ss as int);
        }
        let c = match image.first_free_entry() {
            Some(c) => c,
            None => {
                proof {
                    if lim <= max_clusters(b0) {
                        lemma_free_count_flat(b0, lim, max_clusters(b0));
                    }
                }
                return Err(FatError::FatExhausted);
            },
        };
        proof {
            if chain@.contains(c) {
                let j = choose|j: int| 0 <= j < chain@.len() && chain@[j] == c;
                if j < chain@.len() - 1 {
                    assert(fat_entry(before, chain@[j] as int) == chain@[j + 1]);
                } else {
                    assert(is_end_of_chain_value(fat_entry(before, chain@.last() as int)));
                }
                assert(false);
            }
            assert(fat_entry(b0, c as int) == 0);
            if chain@.len() > 0 {
                if c < chain@.last() {
                    assert(chain@.contains(c));
                }
                assert(c > chain@.last());
            }
            assert forall|d: int|
                2 <= d < c && fat_entry(b0, d) == 0 implies chain@.contains(d as u16) by {
                if !chain@.contains(d as u16) {
                    assert(fat_entry(before, d) == fat_entry(b0, d));
                }
            }
            assert(lim <= c);
            assert forall|d: int| lim <= d < c implies fat_entry(b0, d) != 0 by {
                if fat_entry(b0, d) == 0 {
                    assert(chain@.contains(d as u16));
                    let j = choose|j: int| 0 <= j < chain@.len() && chain@[j] == d as u16;
                    assert(chain@[j] < lim);
                }
            }
            lemma_free_count_flat(b0, lim, c as int);
            assert(free_count(b0, c as int) == chain@.len());
        }
        let end: u64 = if len - pos < ss {
            len
        } else {
            pos + ss
        };
        let chunk = vstd::slice::slice_subrange(data, pos as usize, end as usize);
        match image.write_data_sector(c, chunk) {
            Ok(()) => {},
            Err(e) => {
                assert(!sector_in_image(b0, c as int));
                return Err(e);
            },
        }
        let ghost written = image@;
        proof {
            lemma_sector_after_dir(p, c as int);
            assert forall|i: int|
                0 <= i < p.data_offset() implies written[i] == before[i] by {}
            assert forall|d: int|
                0 <= d < max_clusters(b0) implies fat_entry(written, d) == fat_entry(before, d) by {
                assert(written[p.fat_offset() + 2 * d] == before[p.fat_offset() + 2 * d]);
                assert(written[p.fat_offset() + 2 * d + 1] == before[p.fat_offset() + 2 * d + 1]);
            }
            assert forall|j: int, t: int|
                0 <= j < chain@.len() && 0 <= t < ss implies #[trigger] written[p.cluster_offset(
                    #[trigger] chain@[j] as int,
                ) + t] == before[p.cluster_offset(chain@[j] as int) + t] by {
                let x = p.cluster_offset(chain@[j] as int) + t;
                let oc = p.cluster_offset(c as int);
                if oc <= x < oc + ss {
                    lemma_sectors_apart(p, chain@[j] as int, c as int, t, x - oc);
                }
            }
        }
        proof {
            assert forall|k: int, d: int|
                0 <= k < p.fat_count && 0 <= d < max_clusters(b0) implies #[trigger] fat_copy_entry(
                written,
                k,
                d,
            ) == fat_copy_entry(before, k, d) by {
                let fs = p.fat_bytes();
                assert(k * fs + 2 * d + 2 <= p.fat_count * fs && k * fs >= 0) by (nonlinear_arith)
                    requires
                        0 <= k < p.fat_count,
                        2 * d + 2 <= fs,
                        d >= 0,
                ;
                let x = p.fat_offset() + k * fs + 2 * d;
                assert(written[x] == before[x]);
                assert(written[x + 1] == before[x + 1]);
            }
        }
        image.set_entry_at(c, END_OF_CHAIN);
        let n = chain.len();
        if n > 0 {
            let prev = chain[n - 1];
            image.set_entry_at(prev, c);
        } else {
            let _ = entry.set_entry_cluster(c as u32);
        }
        let ghost prior = chain@;
        chain.push(c);
        proof {
            assert forall|x: int|
                0 <= x < b0.len() && !(p.fat_offset() <= x < p.root_offset() && in_chain_entries(
                    b0,
                    chain@,
                    x,
                )) && !in_chain_sectors(
                    b0,
                    chain@,
                    x,
                ) implies image@[x] == b0[x] by {
                if in_chain_sectors(b0, prior, x) {
                    let j = choose|j: int|
                        0 <= j < prior.len() && p.cluster_offset(#[trigger] prior[j] as int) <= x
                            < p.cluster_offset(prior[j] as int) + p.bytes_per_sector;
                    assert(chain@[j] == prior[j]);
                    assert(in_chain_sectors(b0, chain@, x));
                }
                let oc = p.cluster_offset(c as int);
                if oc <= x < oc + ss {
                    assert(chain@[chain@.len() - 1] == c);
                    assert(in_chain_sectors(b0, chain@, x));
                }
                let table = p.fat_offset() <= x < p.root_offset();
                let r = ((x - p.fat_offset()) % p.fat_bytes()) / 2;
                if table && in_chain_entries(b0, prior, x) {
                    let j = choose|j: int| 0 <= j < prior.len() && #[trigger] prior[j] as int == r;
                    assert(chain@[j] == prior[j]);
                    assert(in_chain_entries(b0, chain@, x));
                }
                if table && r == c {
                    assert(chain@[chain@.len() - 1] == c);
                    assert(in_chain_entries(b0, chain@, x));
                }
                if table && n > 0 && r == prior[n - 1] {
                    assert(chain@[n - 1] == prior[n - 1]);
                    assert(in_chain_entries(b0, chain@, x));
                }
                assert(written[x] == before[x]);
            }
            assert forall|k: int, d: int|
                0 <= k < p.fat_count && 0 <= d < max_clusters(b0) && !chain@.contains(d as u16)
                    implies #[trigger] fat_copy_entry(image@, k, d) == fat_copy_entry(b0, k, d) by {
                assert(chain@[chain@.len() - 1] == c);
                if n > 0 {
                    assert(chain@[n - 1] == prior[n - 1]);
                }
                if prior.contains(d as u16) {
                    let j = choose|j: int| 0 <= j < prior.len() && prior[j] == d as u16;
                    assert(chain@[j] == d as u16);
                }
                assert(fat_copy_entry(written, k, d) == fat_copy_entry(before, k, d));
            }
            assert forall|d: int|
                0 <= d < max_clusters(b0) && !chain@.contains(d as u16) implies fat_entry(
                image@,
                d,
            ) == fat_entry(b0, d) by {
                if prior.contains(d as u16) {
                    let j = choose|j: int| 0 <= j < prior.len() && prior[j] == d as u16;
                    assert(chain@[j] == d as u16);
                }
                assert(chain@[chain@.len() - 1] == c);
            }
            assert forall|i: int, j: int| 0 <= i < j < chain@.len() implies #[trigger] chain@[i]
                < #[trigger] chain@[j] by {
                if j == chain@.len() - 1 && i < j {
                    assert(prior[i] <= prior.last());
                }
            }
            assert forall|d: int|
                2 <= d < max_clusters(b0) && fat_entry(b0, d) == 0 && chain@.len() > 0 && d
                    < chain@.last() implies chain@.contains(d as u16) by {
                assert(prior.contains(d as u16));
                let j = choose|j: int| 0 <= j < prior.len() && prior[j] == d as u16;
                assert(chain@[j] == d as u16);
            }
            assert(scan_start(chain@) == c + 1);
            assert(free_count(b0, c + 1) == free_count(b0, c as int) + 1);
            assert((chain@.len() - 1) * ss == pos);
            assert(chain@.len() * ss == pos + ss) by (nonlinear_arith)
                requires
                    (chain@.len() - 1) * ss == pos,
            ;
        }
        pos = pos + ss;
    }
    proof {
        lemma_ceil(len as int, ss as int, chain@.len() as int);
    }
    let ghost filled = image@;
    match image.save_file_entry(entry, slot) {
        Ok(()) => {},
        Err(e) => {
            return Err(e);
        },
    }
    proof {
        let b1 = image@;
        let so = slot_offset(b0, slot as int);
        assert(p.root_offset() <= so && so + 32 <= p.data_offset());
        assert forall|d: int| 0 <= d < max_clusters(b0) implies fat_entry(b1, d) == fat_entry(
            filled,
            d,
        ) by {
            assert(b1[p.fat_offset() + 2 * d] == filled[p.fat_offset() + 2 * d]);
            assert(b1[p.fat_offset() + 2 * d + 1] == filled[p.fat_offset() + 2 * d + 1]);
        }
        assert forall|j: int, t: int|
            0 <= j < chain@.len() && 0 <= t < ss implies #[trigger] b1[p.cluster_offset(
                #[trigger] chain@[j] as int,
            ) + t] == filled[p.cluster_offset(chain@[j] as int) + t] by {
            lemma_sector_after_dir(p, chain@[j] as int);
        }
        assert(chain_holds(b1, chain@, data@, ss as int));
        if chain@.len() > 0 {
            assert(fat_entry(b1, chain@.last() as int) == fat_entry(filled, chain@.last() as int));
        }
        assert(chain_linked(b1, chain@));
        assert(slot_bytes(b1, slot as int) =~= encode_spec(entry));
        assert(first_free_slot(b0, slot as int));
        assert forall|k: int, d: int|
            0 <= k < p.fat_count && 0 <= d < max_clusters(b0) implies #[trigger] fat_copy_entry(
            b1,
            k,
            d,
        ) == fat_copy_entry(filled, k, d) by {
            let fs = p.fat_bytes();
            assert(k * fs + 2 * d + 2 <= p.fat_count * fs && k * fs >= 0) by (nonlinear_arith)
                requires
                    0 <= k < p.fat_count,
                    2 * d + 2 <= fs,
                    d >= 0,
            ;
            let x = p.fat_offset() + k * fs + 2 * d;
            assert(b1[x] == filled[x]);
            assert(b1[x + 1] == filled[x + 1]);
        }
    }
    Ok(chain)
}

} // verus!
