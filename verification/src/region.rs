//! The region container codec: the sector-addressed binary layout that
//! packs up to 1024 independently compressed records on a 32-by-32 grid.
//! The first sector is the location table (a 3-byte big-endian sector
//! offset and a 1-byte sector count per slot), the second the timestamp
//! table (written as zeros), and each record follows as a 4-byte length,
//! a compression-method byte, the compressed payload, and zero padding up
//! to whole sectors. The encoder always writes method 2 (zlib); the
//! decoder also takes gzip (1) and raw (3) payloads.

use vstd::prelude::*;
use crate::ext::{gzip_decompress, gzip_of, zlib_compress, zlib_decompress, zlib_of};
use crate::util::{bytes_of, extend_bytes};

verus! {

broadcast use {
    vstd::std_specs::vec::group_vec_axioms,
    vstd::seq::group_seq_axioms,
};

use vstd::string::StringSliceAdditionalSpecFns;

/// The allocation unit of the container.
pub const SECTOR_SIZE: usize = 4096;

/// One record before compression: a grid position and its serialized
/// tag-tree bytes.
#[derive(Debug)]
pub struct RawRecord {
    pub x: i32,
    pub z: i32,
    pub data: Vec<u8>,
}

/// The mathematical shape of a raw record.
pub struct RawRecM {
    pub x: i32,
    pub z: i32,
    pub data: Seq<u8>,
}

impl View for RawRecord {
    type V = RawRecM;

    open spec fn view(&self) -> RawRecM {
        RawRecM { x: self.x, z: self.z, data: self.data@ }
    }
}

/// The record views of a record list.
pub open spec fn recs_vview(s: Seq<RawRecord>) -> Seq<RawRecM> {
    Seq::new(s.len(), |i: int| s[i]@)
}

/// A coordinate's offset inside the 32-by-32 grid, by floor modulus:
/// negative coordinates wrap into [0, 32).
pub open spec fn local32(v: i32) -> int {
    (v as int) % 32
}

/// The slot a record lands in.
pub open spec fn slot_of(r: RawRecM) -> int {
    local32(r.x) + 32 * local32(r.z)
}

pub open spec fn distinct_slots(rs: Seq<RawRecM>) -> bool {
    forall|i: int, j: int|
        0 <= i < j < rs.len() ==> slot_of(#[trigger] rs[i]) != slot_of(#[trigger] rs[j])
}

/// The record in a slot, if any; on a collision the last record wins,
/// as the table is written in record order.
pub open spec fn slot_k(rs: Seq<RawRecM>, s: int) -> Option<int>
    decreases rs.len(),
{
    if rs.len() == 0 {
        None
    } else if slot_of(rs.last()) == s {
        Some(rs.len() - 1)
    } else {
        slot_k(rs.drop_last(), s)
    }
}

pub open spec fn clen(r: RawRecM) -> int {
    zlib_of(r.data).len() as int
}

/// Whole sectors needed by one framed record.
pub open spec fn sectors_of(r: RawRecM) -> int {
    (clen(r) + 5 + 4095) / 4096
}

/// Sectors taken by the first `k` records.
pub open spec fn sum_sectors(rs: Seq<RawRecM>, k: int) -> int
    decreases k,
{
    if k <= 0 || k > rs.len() {
        0
    } else {
        sum_sectors(rs, k - 1) + sectors_of(rs[k - 1])
    }
}

/// The sector offset of record `k`: the two header sectors first.
pub open spec fn offset_of(rs: Seq<RawRecM>, k: int) -> int {
    2 + sum_sectors(rs, k)
}

/// The machine limits of the format: a sector count per record that fits
/// its table byte, a length that fits its prefix, and offsets that fit
/// three bytes.
pub open spec fn region_fits(rs: Seq<RawRecM>) -> bool {
    &&& forall|k: int| 0 <= k < rs.len() ==> sectors_of(#[trigger] rs[k]) <= 255
    &&& forall|k: int| 0 <= k < rs.len() ==> clen(#[trigger] rs[k]) + 1 <= 0xffff_ffff
    &&& offset_of(rs, rs.len() as int) <= 0xff_ffff
}

/// What the encoder accepts: every limit met and one record per slot.
pub open spec fn region_encodable(rs: Seq<RawRecM>) -> bool {
    region_fits(rs) && distinct_slots(rs)
}

pub open spec fn be4u(v: u32, k: int) -> u8 {
    ((v >> (((3 - k) * 8) as u32)) & 0xff) as u8
}

/// One byte of the location table.
pub open spec fn entry_byte(rs: Seq<RawRecM>, s: int, j: int) -> u8 {
    match slot_k(rs, s) {
        None => 0u8,
        Some(k) => if j <= 2 {
            be4u(offset_of(rs, k) as u32, j + 1)
        } else {
            sectors_of(rs[k]) as u8
        },
    }
}

pub open spec fn loc_table(rs: Seq<RawRecM>) -> Seq<u8> {
    Seq::new(4096, |i: int| entry_byte(rs, i / 4, i % 4))
}

pub open spec fn zeros(n: int) -> Seq<u8> {
    Seq::new(n as nat, |i: int| 0u8)
}

/// One framed record: length prefix, method byte 2, payload, padding.
pub open spec fn frame(r: RawRecM) -> Seq<u8> {
    Seq::new(4, |j: int| be4u((clen(r) + 1) as u32, j)) + seq![2u8] + zlib_of(r.data) + zeros(
        sectors_of(r) * 4096 - (clen(r) + 5),
    )
}

/// The first `k` frames, laid end to end.
pub open spec fn frames_cat(rs: Seq<RawRecM>, k: int) -> Seq<u8>
    decreases k,
{
    if k <= 0 || k > rs.len() {
        Seq::empty()
    } else {
        frames_cat(rs, k - 1) + frame(rs[k - 1])
    }
}

/// The whole container: empty input gives an empty file; otherwise the
/// two header sectors, then the frames in record order.
pub open spec fn spec_region_bytes(rs: Seq<RawRecM>) -> Seq<u8> {
    if rs.len() == 0 {
        Seq::empty()
    } else {
        loc_table(rs) + zeros(4096) + frames_cat(rs, rs.len() as int)
    }
}

// -------------------------------------------------------- layout facts

pub proof fn lemma_sectors_cover(r: RawRecM)
    ensures
        sectors_of(r) >= 1,
        sectors_of(r) * 4096 >= clen(r) + 5,
        clen(r) >= 0,
        frame(r).len() == sectors_of(r) * 4096,
{
    let x = clen(r) + 5;
    let q = (x + 4095) / 4096;
    let rr = (x + 4095) % 4096;
    assert(x + 4095 == 4096 * q + rr);
    assert(q * 4096 == x + 4095 - rr);
}

pub proof fn lemma_sum_sectors_nonneg(rs: Seq<RawRecM>, k: int)
    ensures
        sum_sectors(rs, k) >= 0,
    decreases k,
{
    if 0 < k <= rs.len() {
        lemma_sum_sectors_nonneg(rs, k - 1);
        lemma_sectors_cover(rs[k - 1]);
    }
}

pub proof fn lemma_sum_sectors_mono(rs: Seq<RawRecM>, a: int, b: int)
    requires
        0 <= a <= b <= rs.len(),
    ensures
        sum_sectors(rs, a) <= sum_sectors(rs, b),
        sum_sectors(rs, a) >= 0,
    decreases b - a,
{
    lemma_sum_sectors_nonneg(rs, a);
    if a < b {
        lemma_sum_sectors_mono(rs, a, b - 1);
        lemma_sectors_cover(rs[b - 1]);
    }
}

pub proof fn lemma_frames_cat_len(rs: Seq<RawRecM>, k: int)
    requires
        0 <= k <= rs.len(),
    ensures
        frames_cat(rs, k).len() == sum_sectors(rs, k) * 4096,
    decreases k,
{
    if k > 0 {
        lemma_frames_cat_len(rs, k - 1);
        lemma_sectors_cover(rs[k - 1]);
        assert((sum_sectors(rs, k - 1) + sectors_of(rs[k - 1])) * 4096 == sum_sectors(rs, k - 1)
            * 4096 + sectors_of(rs[k - 1]) * 4096) by (nonlinear_arith);
    }
}

/// Where record `k`'s frame lies inside the concatenated frames.
pub proof fn lemma_frame_at(rs: Seq<RawRecM>, k: int, n: int)
    requires
        0 <= k < n <= rs.len(),
    ensures
        forall|j: int|
            0 <= j < frame(rs[k]).len() ==> frames_cat(rs, n)[(sum_sectors(rs, k) * 4096 + j)]
                == frame(rs[k])[j],
        frames_cat(rs, n).len() >= sum_sectors(rs, k) * 4096 + frame(rs[k]).len(),
    decreases n,
{
    lemma_frames_cat_len(rs, n);
    lemma_frames_cat_len(rs, k);
    lemma_frames_cat_len(rs, k + 1);
    lemma_sum_sectors_mono(rs, k + 1, n);
    lemma_sectors_cover(rs[k]);
    if k + 1 == n {
        assert(frames_cat(rs, n) == frames_cat(rs, k) + frame(rs[k]));
        assert forall|j: int| 0 <= j < frame(rs[k]).len() implies frames_cat(rs, n)[(sum_sectors(
            rs,
            k,
        ) * 4096 + j)] == frame(rs[k])[j] by {
            assert(frames_cat(rs, n)[sum_sectors(rs, k) * 4096 + j] == (frames_cat(rs, k) + frame(
                rs[k],
            ))[sum_sectors(rs, k) * 4096 + j]);
        }
    } else {
        lemma_frame_at(rs, k, n - 1);
        assert(frames_cat(rs, n) == frames_cat(rs, n - 1) + frame(rs[n - 1]));
        lemma_frames_cat_len(rs, n - 1);
        assert forall|j: int| 0 <= j < frame(rs[k]).len() implies frames_cat(rs, n)[(sum_sectors(
            rs,
            k,
        ) * 4096 + j)] == frame(rs[k])[j] by {
            lemma_sum_sectors_mono(rs, k + 1, n - 1);
            assert(sum_sectors(rs, k) * 4096 + j < frames_cat(rs, n - 1).len());
        }
    }
}


// ------------------------------------------------------------ encoding

/// What can go wrong with a container.
#[derive(Debug, PartialEq, Eq)]
pub enum RegionError {
    /// A record's compressed frame does not fit its length or count field.
    RecordTooLarge,
    /// The container has run out of addressable sectors.
    TooManySectors,
    /// Two records land in the same slot.
    SlotCollision,
    /// A present slot's payload does not decompress.
    BadPayload,
}

/// The grid offset of a coordinate, by floor modulus.
fn local_coord(v: i32) -> (r: usize)
    ensures
        r as int == local32(v),
        r < 32,
{
    proof {
        vstd::arithmetic::div_mod::lemma_mod_bound(v as int, 32);
    }
    if v >= 0 {
        let u = (v as u32) % 32;
        proof {
            assert(v as u32 == v as int);
            vstd::arithmetic::div_mod::lemma_small_mod((v as u32 % 32) as nat, 32nat);
        }
        u as usize
    } else {
        let a = (-(v as i64)) as u64;
        let m = (a % 32) as usize;
        proof {
            let ai = a as int;
            let q = ai / 32;
            let r = ai % 32;
            vstd::arithmetic::div_mod::lemma_fundamental_div_mod(ai, 32);
            vstd::arithmetic::div_mod::lemma_mod_bound(ai, 32);
            assert(v as int == -ai);
            if r == 0 {
                vstd::arithmetic::div_mod::lemma_mod_multiples_vanish(-q, 0, 32);
                assert(v as int == 32 * (-q) + 0);
            } else {
                vstd::arithmetic::div_mod::lemma_mod_multiples_vanish(-q - 1, 32 - r, 32);
                assert(v as int == 32 * (-q - 1) + (32 - r)) by {
                    assert(ai == 32 * q + r);
                }
                vstd::arithmetic::div_mod::lemma_small_mod((32 - r) as nat, 32nat);
            }
        }
        if m == 0 {
            0
        } else {
            32 - m
        }
    }
}

proof fn lemma_take_prefix(rs: Seq<RawRecM>, k: int, j: int)
    requires
        0 <= j <= k <= rs.len(),
    ensures
        sum_sectors(rs.take(k), j) == sum_sectors(rs, j),
    decreases j,
{
    if j > 0 {
        lemma_take_prefix(rs, k, j - 1);
        assert(rs.take(k)[j - 1] == rs[j - 1]);
    }
}

proof fn lemma_slot_k_push(rs: Seq<RawRecM>, r: RawRecM, s: int)
    ensures
        slot_k(rs.push(r), s) == (if slot_of(r) == s {
            Some(rs.len() as int)
        } else {
            slot_k(rs, s)
        }),
{
    assert(rs.push(r).drop_last() =~= rs);
    assert(rs.push(r).last() == r);
}

/// Packs records into one container image. Succeeds exactly when every
/// record fits the format's limits and no two records share a slot; the
/// bytes are then the canonical layout above.
#[verifier::loop_isolation(false)]
#[verifier::rlimit(60)]
pub fn encode_region(records: &Vec<RawRecord>) -> (r: Result<Vec<u8>, RegionError>)
    ensures
        (r is Ok) == region_encodable(recs_vview(records@)),
        r matches Ok(v) ==> v@ == spec_region_bytes(recs_vview(records@)),
{
    let ghost rv = recs_vview(records@);
    let n = records.len();
    if n == 0 {
        let out: Vec<u8> = Vec::new();
        proof {
            assert(rv.len() == 0);
            assert(out@ =~= spec_region_bytes(rv));
        }
        return Ok(out);
    }
    let mut locations: Vec<u8> = Vec::new();
    let mut i0: usize = 0;
    while i0 < 4096
        invariant
            0 <= i0 <= 4096,
            locations@.len() == i0,
            forall|i: int| 0 <= i < i0 ==> locations@[i] == 0u8,
        decreases 4096 - i0,
    {
        locations.push(0);
        i0 = i0 + 1;
    }
    let mut seen: Vec<bool> = Vec::new();
    let mut i1: usize = 0;
    while i1 < 1024
        invariant
            0 <= i1 <= 1024,
            seen@.len() == i1,
            forall|i: int| 0 <= i < i1 ==> seen@[i] == false,
        decreases 1024 - i1,
    {
        seen.push(false);
        i1 = i1 + 1;
    }
    let mut body: Vec<u8> = Vec::new();
    let mut current_sector: u32 = 2;
    let mut k: usize = 0;
    proof {
        assert(frames_cat(rv, 0) =~= Seq::<u8>::empty());
        assert(rv.take(0) =~= Seq::<RawRecM>::empty());
    }
    while k < n
        invariant
            0 <= k <= n,
            n == records@.len(),
            rv.len() == n,
            locations@.len() == 4096,
            seen@.len() == 1024,
            current_sector as int == offset_of(rv, k as int),
            current_sector <= 0xff_ffff,
            body@ == frames_cat(rv, k as int),
            forall|i: int|
                0 <= i < 4096 ==> locations@[i] == entry_byte(rv.take(k as int), i / 4, i % 4),
            forall|s: int|
                0 <= s < 1024 ==> seen@[s] == (slot_k(rv.take(k as int), s) is Some),
            forall|j: int|
                0 <= j < k ==> sectors_of(#[trigger] rv[j]) <= 255 && clen(rv[j]) + 1
                    <= 0xffff_ffff,
            distinct_slots(rv.take(k as int)),
        decreases n - k,
    {
        proof {
            assert(rv[k as int] == records@[k as int]@);
        }
        let comp = zlib_compress(records[k].data.as_slice());
        let cl64: u64 = comp.len() as u64;
        if cl64 > 0xffff_fffeu64 {
            proof {
                assert(clen(rv[k as int]) + 1 > 0xffff_ffff);
            }
            return Err(RegionError::RecordTooLarge);
        }
        let sector_count64: u64 = (cl64 + 5 + 4095) / 4096;
        proof {
            assert(sector_count64 as int == sectors_of(rv[k as int]));
            lemma_sectors_cover(rv[k as int]);
        }
        if sector_count64 > 255 {
            return Err(RegionError::RecordTooLarge);
        }
        let sector_count: usize = sector_count64 as usize;
        let chunk_len: usize = comp.len() + 5;
        let lx = local_coord(records[k].x);
        let lz = local_coord(records[k].z);
        let s = lx + 32 * lz;
        proof {
            assert(s as int == slot_of(rv[k as int]));
            assert(s < 1024);
        }
        if seen[s] {
            proof {
                let ghost pre = rv.take(k as int);
                lemma_slot_k_some_means(pre, s as int);
                let j = choose|j: int| 0 <= j < pre.len() && slot_of(pre[j]) == s as int;
                assert(slot_of(rv[j]) == slot_of(rv[k as int]));
                assert(!distinct_slots(rv));
            }
            return Err(RegionError::SlotCollision);
        }
        let ghost locs_pre = locations@;
        let ghost seen_pre = seen@;
        locations[4 * s] = ((current_sector >> 16u32) & 0xff) as u8;
        locations[4 * s + 1] = ((current_sector >> 8u32) & 0xff) as u8;
        locations[4 * s + 2] = (current_sector & 0xff) as u8;
        locations[4 * s + 3] = sector_count as u8;
        seen[s] = true;
        let ghost bpre = body@;
        let length_field = (comp.len() + 1) as u32;
        body.push(((length_field >> 24u32) & 0xff) as u8);
        body.push(((length_field >> 16u32) & 0xff) as u8);
        body.push(((length_field >> 8u32) & 0xff) as u8);
        body.push((length_field & 0xff) as u8);
        body.push(2);
        extend_bytes(&mut body, comp.as_slice());
        let pad = sector_count * 4096 - chunk_len;
        let mut p: usize = 0;
        let ghost bmid = body@;
        while p < pad
            invariant
                0 <= p <= pad,
                body@ == bmid + zeros(p as int),
            decreases pad - p,
        {
            body.push(0);
            proof {
                assert(body@ =~= bmid + zeros(p as int + 1));
            }
            p = p + 1;
        }
        proof {
            let rk = rv[k as int];
            assert(current_sector as u32 == offset_of(rv, k as int) as u32);
            assert((comp.len() + 1) as u32 as int == clen(rk) + 1);
            assert(be4u(length_field, 0) == ((length_field >> 24u32) & 0xff) as u8);
            assert(be4u(length_field, 1) == ((length_field >> 16u32) & 0xff) as u8);
            assert(be4u(length_field, 2) == ((length_field >> 8u32) & 0xff) as u8);
            assert(be4u(length_field, 3) == (length_field & 0xff) as u8) by {
                let lf = length_field;
                assert((lf >> 0u32) & 0xff == lf & 0xff) by (bit_vector);
            }
            assert(body@ =~= bpre + frame(rk));
            assert(body@ =~= frames_cat(rv, k as int + 1));
            // the new table and seen rows
            let pre = rv.take(k as int);
            let cur = rv.take(k as int + 1);
            assert(cur.drop_last() =~= pre);
            assert(cur.last() == rk);
            assert forall|s2: int| 0 <= s2 < 1024 implies seen@[s2] == (slot_k(cur, s2)
                is Some) by {
                lemma_slot_k_push(pre, rk, s2);
                assert(cur =~= pre.push(rk));
            }
            assert forall|i: int|
                0 <= i < 4096 implies locations@[i] == entry_byte(cur, i / 4, i % 4) by {
                let s2 = i / 4;
                let j2 = i % 4;
                lemma_slot_k_push(pre, rk, s2);
                assert(cur =~= pre.push(rk));
                if s2 == s as int {
                    assert(slot_k(cur, s2) == Some(k as int));
                    assert(cur[k as int] == rk);
                    lemma_take_prefix(rv, k as int + 1, k as int);
                    assert(offset_of(cur, k as int) == offset_of(rv, k as int));
                    if j2 == 0 {
                        assert(i == 4 * s);
                        assert(be4u(current_sector, 1) == ((current_sector >> 16u32) & 0xff)
                            as u8);
                    } else if j2 == 1 {
                        assert(i == 4 * s + 1);
                    } else if j2 == 2 {
                        assert(i == 4 * s + 2);
                        assert(be4u(current_sector, 3) == (current_sector & 0xff) as u8) by {
                            let cs = current_sector;
                            assert((cs >> 0u32) & 0xff == cs & 0xff) by (bit_vector);
                        }
                    } else {
                        assert(i == 4 * s + 3);
                    }
                } else {
                    assert(slot_k(cur, s2) == slot_k(pre, s2));
                    assert(locations@[i] == locs_pre[i]);
                    match slot_k(pre, s2) {
                        Some(kk) => {
                            lemma_slot_k_in_range(pre, s2);
                            assert(pre[kk] == cur[kk] && pre[kk] == rv[kk]);
                            lemma_take_prefix(rv, k as int, kk);
                            lemma_take_prefix(rv, k as int + 1, kk);
                        },
                        None => {},
                    }
                }
            }
            // distinctness of the extended prefix
            assert forall|a: int, b: int|
                0 <= a < b < cur.len() implies slot_of(#[trigger] cur[a]) != slot_of(
                #[trigger] cur[b]) by {
                if b == k as int {
                    lemma_slot_k_none_means(pre, s as int);
                    assert(slot_of(pre[a]) != s as int);
                }
            }
        }
        let ns = current_sector as u64 + sector_count as u64;
        if ns > 0xff_ffff {
            proof {
                lemma_sum_sectors_mono(rv, k as int + 1, rv.len() as int);
                assert(offset_of(rv, rv.len() as int) > 0xff_ffff);
            }
            return Err(RegionError::TooManySectors);
        }
        current_sector = ns as u32;
        k = k + 1;
    }
    proof {
        assert(rv.take(n as int) =~= rv);
    }
    let mut out = locations;
    let mut t: usize = 0;
    let ghost opre = out@;
    while t < 4096
        invariant
            0 <= t <= 4096,
            out@ == opre + zeros(t as int),
        decreases 4096 - t,
    {
        out.push(0);
        proof {
            assert(out@ =~= opre + zeros(t as int + 1));
        }
        t = t + 1;
    }
    extend_bytes(&mut out, body.as_slice());
    proof {
        assert(opre =~= loc_table(rv));
        assert(out@ =~= spec_region_bytes(rv));
        assert(region_fits(rv));
    }
    Ok(out)
}

proof fn lemma_slot_k_some_means(rs: Seq<RawRecM>, s: int)
    ensures
        (slot_k(rs, s) is Some) == (exists|j: int| 0 <= j < rs.len() && slot_of(rs[j]) == s),
        slot_k(rs, s) matches Some(k) ==> 0 <= k < rs.len() && slot_of(rs[k]) == s,
    decreases rs.len(),
{
    if rs.len() > 0 {
        lemma_slot_k_some_means(rs.drop_last(), s);
        if slot_of(rs.last()) == s {
            assert(slot_of(rs[rs.len() - 1]) == s);
        } else {
            if exists|j: int| 0 <= j < rs.len() && slot_of(rs[j]) == s {
                let j = choose|j: int| 0 <= j < rs.len() && slot_of(rs[j]) == s;
                assert(j < rs.len() - 1);
                assert(rs.drop_last()[j] == rs[j]);
            }
            assert forall|j: int|
                0 <= j < rs.drop_last().len() && slot_of(rs.drop_last()[j]) == s implies slot_of(
                rs[j],
            ) == s by {}
        }
    }
}

proof fn lemma_slot_k_in_range(rs: Seq<RawRecM>, s: int)
    ensures
        slot_k(rs, s) matches Some(k) ==> 0 <= k < rs.len() && slot_of(rs[k]) == s,
{
    lemma_slot_k_some_means(rs, s);
}

proof fn lemma_slot_k_none_means(rs: Seq<RawRecM>, s: int)
    ensures
        (slot_k(rs, s) is None) ==> forall|j: int| 0 <= j < rs.len() ==> slot_of(
            #[trigger] rs[j],
        ) != s,
{
    lemma_slot_k_some_means(rs, s);
}


// ------------------------------------------------------------ decoding

/// The record a well-formed container yields for slot `s`.
pub open spec fn norm_rec(rs: Seq<RawRecM>, k: int, s: int) -> RawRecM {
    RawRecM { x: (s % 32) as i32, z: (s / 32) as i32, data: rs[k].data }
}

/// The records yielded by the slots below `s`, in slot order.
pub open spec fn expected_upto(rs: Seq<RawRecM>, s: int) -> Seq<RawRecM>
    decreases s,
{
    if s <= 0 {
        Seq::empty()
    } else {
        expected_upto(rs, s - 1) + (match slot_k(rs, s - 1) {
            Some(k) => seq![norm_rec(rs, k, s - 1)],
            None => Seq::<RawRecM>::empty(),
        })
    }
}

/// Whether a record list is a well-formed, non-empty container image.
pub open spec fn region_hyp(rs: Seq<RawRecM>, data: Seq<u8>) -> bool {
    region_encodable(rs) && rs.len() > 0 && data == spec_region_bytes(rs)
}

/// The three-byte sector offset in slot `s` of an arbitrary image.
pub open spec fn entry_off(data: Seq<u8>, s: int) -> int {
    (data[4 * s] as int) * 0x10000 + (data[4 * s + 1] as int) * 0x100 + (data[4 * s + 2] as int)
}

/// The sector count in slot `s` of an arbitrary image.
pub open spec fn entry_count(data: Seq<u8>, s: int) -> int {
    data[4 * s + 3] as int
}

/// The four-byte length prefix of slot `s`'s frame.
pub open spec fn payload_len(data: Seq<u8>, s: int) -> int {
    let c = entry_off(data, s) * 4096;
    (data[c] as int) * 0x100_0000 + (data[c + 1] as int) * 0x10000 + (data[c + 2] as int) * 0x100
        + (data[c + 3] as int)
}

/// The compression-method byte of slot `s`'s frame.
pub open spec fn entry_method(data: Seq<u8>, s: int) -> u8 {
    data[entry_off(data, s) * 4096 + 4]
}

/// Whether slot `s` of an arbitrary image yields a record rather than
/// being skipped: a live table entry, a frame that lies inside the image
/// with a non-empty length, and a known compression method.
pub open spec fn slot_live(data: Seq<u8>, s: int) -> bool {
    &&& data.len() >= 8192
    &&& entry_off(data, s) != 0
    &&& entry_count(data, s) != 0
    &&& entry_off(data, s) * 4096 + 5 <= data.len()
    &&& payload_len(data, s) != 0
    &&& entry_off(data, s) * 4096 + 4 + payload_len(data, s) <= data.len()
    &&& (entry_method(data, s) == 1 || entry_method(data, s) == 2 || entry_method(data, s) == 3)
}

/// The slot a decoded record's local position names.
pub open spec fn rec_slot(r: RawRecM) -> int {
    r.x + 32 * r.z
}

/// What decoding promises of any image: local positions inside the grid,
/// one record per live slot and none from a dead one, in slot order.
pub open spec fn decode_shape(data: Seq<u8>, recs: Seq<RawRecM>) -> bool {
    &&& forall|j: int|
        0 <= j < recs.len() ==> 0 <= (#[trigger] recs[j]).x < 32 && 0 <= recs[j].z < 32
    &&& forall|j: int|
        0 <= j < recs.len() ==> slot_live(data, rec_slot(#[trigger] recs[j]))
    &&& forall|j1: int, j2: int|
        0 <= j1 < j2 < recs.len() ==> rec_slot(#[trigger] recs[j1]) < rec_slot(
            #[trigger] recs[j2],
        )
    &&& forall|s: int|
        0 <= s < 1024 && slot_live(data, s) ==> exists|j: int|
            0 <= j < recs.len() && rec_slot(#[trigger] recs[j]) == s
}

/// Everything the decoder reads of slot `s`, spelled out byte by byte.
proof fn lemma_slot_bytes(rs: Seq<RawRecM>, data: Seq<u8>, s: int)
    requires
        region_hyp(rs, data),
        0 <= s < 1024,
    ensures
        data.len() == offset_of(rs, rs.len() as int) * 4096,
        data.len() >= 12288,
        forall|j: int| 0 <= j < 4 ==> data[4 * s + j] == entry_byte(rs, s, j),
        slot_k(rs, s) matches Some(k) ==> {
            let ok = offset_of(rs, k);
            let cl = clen(rs[k]);
            &&& 0 <= k < rs.len()
            &&& 2 <= ok
            &&& (ok + sectors_of(rs[k])) * 4096 <= data.len()
            &&& sectors_of(rs[k]) * 4096 >= cl + 5
            &&& (forall|j: int| 0 <= j < 4 ==> #[trigger] data[ok * 4096 + j] == be4u((cl + 1) as u32, j))
            &&& data[ok * 4096 + 4] == 2
            &&& (forall|j: int| 0 <= j < cl ==> #[trigger] data[ok * 4096 + 5 + j] == zlib_of(rs[k].data)[j])
        },
{
    let n = rs.len() as int;
    lemma_frames_cat_len(rs, n);
    lemma_sum_sectors_mono(rs, 0, n);
    assert(data.len() == 8192 + sum_sectors(rs, n) * 4096);
    lemma_sectors_cover(rs[0]);
    lemma_sum_sectors_mono(rs, 1, n);
    assert(sum_sectors(rs, 1) == sum_sectors(rs, 0) + sectors_of(rs[0]));
    assert(sum_sectors(rs, n) >= 1);
    assert forall|j: int| 0 <= j < 4 implies data[4 * s + j] == entry_byte(rs, s, j) by {
        assert(data[4 * s + j] == loc_table(rs)[4 * s + j]);
        assert((4 * s + j) / 4 == s && (4 * s + j) % 4 == j);
    }
    lemma_slot_k_in_range(rs, s);
    match slot_k(rs, s) {
        Some(k) => {
            let ok = offset_of(rs, k);
            let cl = clen(rs[k]);
            lemma_sectors_cover(rs[k]);
            lemma_sum_sectors_mono(rs, 0, k);
            lemma_sum_sectors_mono(rs, k + 1, n);
            assert((ok + sectors_of(rs[k])) * 4096 <= data.len()) by (nonlinear_arith)
                requires
                    ok + sectors_of(rs[k]) <= 2 + sum_sectors(rs, n),
                    data.len() == 8192 + sum_sectors(rs, n) * 4096,
            ;
            lemma_frame_at(rs, k, n);
            let base = sum_sectors(rs, k) * 4096;
            let f = frame(rs[k]);
            assert forall|j: int| 0 <= j < f.len() implies data[ok * 4096 + j] == f[j] by {
                assert(ok * 4096 == 8192 + base) by (nonlinear_arith)
                    requires
                        ok == 2 + sum_sectors(rs, k),
                        base == sum_sectors(rs, k) * 4096,
                ;
                assert(frames_cat(rs, n)[base + j] == f[j]);
                assert(data[8192 + base + j] == frames_cat(rs, n)[base + j]);
            }
            assert forall|j: int| 0 <= j < 4 implies #[trigger] data[ok * 4096 + j] == be4u(
                (cl + 1) as u32,
                j,
            ) by {
                assert(f[j] == Seq::new(4, |q: int| be4u((cl + 1) as u32, q))[j]);
            }
            assert(f[4] == 2);
            assert forall|j: int| 0 <= j < cl implies #[trigger] data[ok * 4096 + 5 + j]
                == zlib_of(rs[k].data)[j] by {
                assert(f[5 + j] == zlib_of(rs[k].data)[j]);
            }
        },
        None => {},
    }
}

/// Reassembling the three offset bytes as place values gives the offset
/// back.
proof fn lemma_be3_reassemble(o: u32)
    requires
        o <= 0xff_ffff,
    ensures
        (be4u(o, 1) as int) * 0x10000 + (be4u(o, 2) as int) * 0x100 + (be4u(o, 3) as int)
            == o as int,
{
    assert((((o >> 16u32) & 0xff) as u8 as u32) * 0x10000 + (((o >> 8u32) & 0xff) as u8 as u32)
        * 0x100 + (((o >> 0u32) & 0xff) as u8 as u32) == o || o > 0xff_ffff) by (bit_vector);
    assert(be4u(o, 3) == ((o >> 0u32) & 0xff) as u8);
}

/// Reassembling the four length bytes as place values gives the length
/// back.
proof fn lemma_be4_reassemble(v: u32)
    ensures
        (be4u(v, 0) as int) * 0x100_0000 + (be4u(v, 1) as int) * 0x10000 + (be4u(v, 2) as int)
            * 0x100 + (be4u(v, 3) as int) == v as int,
{
    assert((((v >> 24u32) & 0xff) as u8 as u32) * 0x100_0000 + (((v >> 16u32) & 0xff) as u8
        as u32) * 0x10000 + (((v >> 8u32) & 0xff) as u8 as u32) * 0x100 + (((v >> 0u32) & 0xff)
        as u8 as u32) == v) by (bit_vector);
    assert(be4u(v, 3) == ((v >> 0u32) & 0xff) as u8);
}

/// Reads one slot of a container image: `None` for an absent or skipped
/// slot, an error for a present slot whose stream will not decompress.
#[verifier::loop_isolation(false)]
#[verifier::rlimit(100)]
fn decode_slot(data: &[u8], s: usize) -> (r: Result<Option<RawRecord>, RegionError>)
    requires
        data@.len() >= 8192,
        s < 1024,
    ensures
        forall|rs: Seq<RawRecM>|
            #[trigger] region_hyp(rs, data@) ==> match slot_k(rs, s as int) {
                Some(k) => (r matches Ok(o) && o matches Some(rec) && rec@ == norm_rec(
                    rs,
                    k,
                    s as int,
                )),
                None => (r matches Ok(o) && o is None),
            },
        r matches Ok(o) ==> (o matches Some(rec) ==> slot_live(data@, s as int) && rec@.x
            == (s as int) % 32 && rec@.z == (s as int) / 32),
        r matches Ok(o) ==> (o is None ==> !slot_live(data@, s as int)),
{
    let b0 = data[4 * s];
    let b1 = data[4 * s + 1];
    let b2 = data[4 * s + 2];
    let count = data[4 * s + 3];
    let off: u32 = (b0 as u32) * 0x10000 + (b1 as u32) * 0x100 + (b2 as u32);
    proof {
        assert(off as int == entry_off(data@, s as int));
        assert(count as int == entry_count(data@, s as int));
        assert forall|rs: Seq<RawRecM>|
            #[trigger] region_hyp(rs, data@) && slot_k(rs, s as int) is Some implies off as int
            == offset_of(rs, slot_k(rs, s as int)->0) && count as int == sectors_of(
            rs[slot_k(rs, s as int)->0],
        ) && off >= 2 && count >= 1 by {
            lemma_sectors_cover(rs[slot_k(rs, s as int)->0]);
            lemma_slot_bytes(rs, data@, s as int);
            let k = slot_k(rs, s as int)->0;
            let ok = offset_of(rs, k);
            lemma_sum_sectors_mono(rs, 0, k);
            lemma_sum_sectors_mono(rs, k + 1, rs.len() as int);
            assert(ok <= offset_of(rs, rs.len() as int));
            lemma_be3_reassemble(ok as u32);
            assert(b0 == be4u(ok as u32, 1) && b1 == be4u(ok as u32, 2) && b2 == be4u(
                ok as u32,
                3,
            ));
        }
        assert forall|rs: Seq<RawRecM>|
            #[trigger] region_hyp(rs, data@) && slot_k(rs, s as int) is None implies off == 0
            && count == 0 by {
            lemma_slot_bytes(rs, data@, s as int);
            assert(b0 == 0 && b1 == 0 && b2 == 0 && count == 0);
        }
    }
    if off == 0 || count == 0 {
        return Ok(None);
    }
    let co: u64 = (off as u64) * 4096;
    if co + 5 > data.len() as u64 {
        proof {
            assert forall|rs: Seq<RawRecM>| !(#[trigger] region_hyp(rs, data@)) by {
                if region_hyp(rs, data@) {
                    lemma_slot_bytes(rs, data@, s as int);
                    if slot_k(rs, s as int) is Some {
                        let k = slot_k(rs, s as int)->0;
                        lemma_sectors_cover(rs[k]);
                        assert((offset_of(rs, k) + sectors_of(rs[k])) * 4096 >= offset_of(rs, k)
                            * 4096 + 4096) by (nonlinear_arith)
                            requires
                                sectors_of(rs[k]) >= 1,
                        ;
                    }
                }
            }
        }
        return Ok(None);
    }
    let cou: usize = co as usize;
    let l0 = data[cou];
    let l1 = data[cou + 1];
    let l2 = data[cou + 2];
    let l3 = data[cou + 3];
    let length: u32 = (l0 as u32) * 0x100_0000 + (l1 as u32) * 0x10000 + (l2 as u32) * 0x100 + (
    l3 as u32);
    let method = data[cou + 4];
    proof {
        assert(length as int == payload_len(data@, s as int)) by {
            assert(cou as int == entry_off(data@, s as int) * 4096);
        }
        assert(method == entry_method(data@, s as int));
        assert forall|rs: Seq<RawRecM>|
            #[trigger] region_hyp(rs, data@) && slot_k(rs, s as int) is Some implies length as int
            == clen(rs[slot_k(rs, s as int)->0]) + 1 && method == 2 by {
            lemma_slot_bytes(rs, data@, s as int);
            let k = slot_k(rs, s as int)->0;
            let cl = clen(rs[k]);
            lemma_be4_reassemble((cl + 1) as u32);
            assert(off as int == offset_of(rs, k));
            assert(co as int == offset_of(rs, k) * 4096);
            assert(cou as int == offset_of(rs, k) * 4096);
            assert(l0 == data@[offset_of(rs, k) * 4096 + 0]);
            assert(l1 == data@[offset_of(rs, k) * 4096 + 1]);
            assert(l2 == data@[offset_of(rs, k) * 4096 + 2]);
            assert(l3 == data@[offset_of(rs, k) * 4096 + 3]);
            assert(l0 == be4u((cl + 1) as u32, 0) && l1 == be4u((cl + 1) as u32, 1) && l2 == be4u(
                (cl + 1) as u32,
                2,
            ) && l3 == be4u((cl + 1) as u32, 3));
        }
    }
    if length == 0 {
        return Ok(None);
    }
    if co + 4 + (length as u64) > data.len() as u64 {
        proof {
            assert forall|rs: Seq<RawRecM>| !(#[trigger] region_hyp(rs, data@)) by {
                if region_hyp(rs, data@) {
                    lemma_slot_bytes(rs, data@, s as int);
                    if slot_k(rs, s as int) is Some {
                        let k = slot_k(rs, s as int)->0;
                        lemma_sectors_cover(rs[k]);
                        assert((offset_of(rs, k) + sectors_of(rs[k])) * 4096 >= offset_of(rs, k)
                            * 4096 + clen(rs[k]) + 5) by (nonlinear_arith)
                            requires
                                sectors_of(rs[k]) * 4096 >= clen(rs[k]) + 5,
                        ;
                    }
                }
            }
        }
        return Ok(None);
    }
    let comp_end: usize = (co + 4 + (length as u64)) as usize;
    let compressed = &data[cou + 5..comp_end];
    proof {
        assert forall|rs: Seq<RawRecM>|
            #[trigger] region_hyp(rs, data@) && slot_k(rs, s as int) is Some implies compressed@
            == zlib_of(rs[slot_k(rs, s as int)->0].data) by {
            lemma_slot_bytes(rs, data@, s as int);
            let k = slot_k(rs, s as int)->0;
            assert(compressed@.len() == zlib_of(rs[k].data).len());
            assert forall|j: int| 0 <= j < compressed@.len() implies compressed@[j] == zlib_of(
                rs[k].data,
            )[j] by {
                assert(compressed@[j] == data@[cou as int + 5 + j]);
            }
            assert(compressed@ =~= zlib_of(rs[k].data));
        }
    }
    let payload = if method == 2 {
        match zlib_decompress(compressed) {
            Some(p) => p,
            None => {
                proof {
                    assert forall|rs: Seq<RawRecM>| !(#[trigger] region_hyp(rs, data@)) by {
                        if region_hyp(rs, data@) && slot_k(rs, s as int) is Some {
                            let k = slot_k(rs, s as int)->0;
                            assert(compressed@ == zlib_of(rs[k].data));
                        }
                        if region_hyp(rs, data@) {
                            lemma_slot_bytes(rs, data@, s as int);
                        }
                    }
                }
                return Err(RegionError::BadPayload);
            },
        }
    } else if method == 1 {
        match gzip_decompress(compressed) {
            Some(p) => p,
            None => {
                return Err(RegionError::BadPayload);
            },
        }
    } else if method == 3 {
        bytes_of(compressed)
    } else {
        return Ok(None);
    };
    let x = (s % 32) as i32;
    let z = (s / 32) as i32;
    let rec = RawRecord { x, z, data: payload };
    proof {
        assert forall|rs: Seq<RawRecM>|
            #[trigger] region_hyp(rs, data@) && slot_k(rs, s as int) is Some implies rec@
            == norm_rec(rs, slot_k(rs, s as int)->0, s as int) by {
            let k = slot_k(rs, s as int)->0;
            assert(compressed@ == zlib_of(rs[k].data));
            assert(payload.deep_view() == Some(rs[k].data)->0);
            assert(payload.deep_view() =~= payload@);
        }
    }
    Ok(Some(rec))
}

/// Unpacks a container image into its records. An image shorter than the
/// two header sectors yields no records; a present slot whose stream will
/// not decompress is an error; and on exactly what `encode_region` wrote,
/// the records come back, one per occupied slot in slot order, with their
/// grid positions wrapped into [0, 32).
#[verifier::loop_isolation(false)]
pub fn decode_region(data: &[u8]) -> (r: Result<Vec<RawRecord>, RegionError>)
    ensures
        data@.len() < 8192 ==> (r matches Ok(v) && v@.len() == 0),
        r matches Ok(v) ==> v@.len() <= 1024,
        r matches Ok(v) ==> decode_shape(data@, recs_vview(v@)),
        forall|rs: Seq<RawRecM>|
            #[trigger] region_hyp(rs, data@) ==> (r matches Ok(v) && recs_vview(v@)
                == expected_upto(rs, 1024)),
{
    if data.len() < 8192 {
        proof {
            assert forall|rs: Seq<RawRecM>| !(#[trigger] region_hyp(rs, data@)) by {
                if region_hyp(rs, data@) {
                    lemma_slot_bytes(rs, data@, 0);
                }
            }
        }
        let empty: Vec<RawRecord> = Vec::new();
        proof {
            assert(decode_shape(data@, recs_vview(empty@)));
        }
        return Ok(empty);
    }
    let mut out: Vec<RawRecord> = Vec::new();
    let mut s: usize = 0;
    while s < 1024
        invariant
            0 <= s <= 1024,
            out@.len() <= s,
            data@.len() >= 8192,
            forall|j: int|
                0 <= j < out@.len() ==> 0 <= (#[trigger] out@[j])@.x < 32 && 0 <= out@[j]@.z < 32
                    && rec_slot(out@[j]@) < s && slot_live(data@, rec_slot(out@[j]@)),
            forall|j1: int, j2: int|
                0 <= j1 < j2 < out@.len() ==> rec_slot((#[trigger] out@[j1])@) < rec_slot(
                    (#[trigger] out@[j2])@,
                ),
            forall|t: int|
                0 <= t < s && slot_live(data@, t) ==> exists|j: int|
                    0 <= j < out@.len() && rec_slot((#[trigger] out@[j])@) == t,
            forall|rs: Seq<RawRecM>|
                #[trigger] region_hyp(rs, data@) ==> recs_vview(out@) == expected_upto(
                    rs,
                    s as int,
                ),
        decreases 1024 - s,
    {
        let ghost opre = out@;
        match decode_slot(data, s) {
            Ok(Some(rec)) => {
                let ghost rv = rec@;
                proof {
                    assert(rec_slot(rv) == s as int) by {
                        assert(rv.x == (s as int) % 32 && rv.z == (s as int) / 32);
                        vstd::arithmetic::div_mod::lemma_fundamental_div_mod(s as int, 32);
                        vstd::arithmetic::div_mod::lemma_mod_bound(s as int, 32);
                    }
                }
                out.push(rec);
                proof {
                    assert(recs_vview(out@)[out@.len() - 1] == rv);
                    assert forall|j: int| 0 <= j < out@.len() implies 0 <= (
                    #[trigger] out@[j])@.x < 32 && 0 <= out@[j]@.z < 32 && rec_slot(out@[j]@) < s
                        + 1 && slot_live(data@, rec_slot(out@[j]@)) by {
                        vstd::arithmetic::div_mod::lemma_mod_bound(s as int, 32);
                    }
                    assert forall|t: int|
                        0 <= t < s + 1 && slot_live(data@, t) implies exists|j: int|
                        0 <= j < out@.len() && rec_slot((#[trigger] out@[j])@) == t by {
                        if t == s as int {
                            assert(rec_slot(out@[out@.len() - 1]@) == t);
                        } else {
                            let j0 = choose|j: int|
                                0 <= j < opre.len() && rec_slot((#[trigger] opre[j])@) == t;
                            assert(out@[j0] == opre[j0]);
                        }
                    }
                    assert forall|rs: Seq<RawRecM>|
                        #[trigger] region_hyp(rs, data@) implies recs_vview(out@)
                        == expected_upto(rs, s as int + 1) by {
                        assert(slot_k(rs, s as int) is Some);
                        let k = slot_k(rs, s as int)->0;
                        assert(rv == norm_rec(rs, k, s as int));
                        assert(recs_vview(out@) =~= recs_vview(opre).push(rv));
                        assert(expected_upto(rs, s as int + 1) =~= expected_upto(
                            rs,
                            s as int,
                        ).push(norm_rec(rs, k, s as int)));
                    }
                }
            },
            Ok(None) => {
                proof {
                    assert(!slot_live(data@, s as int));
                    assert forall|rs: Seq<RawRecM>|
                        #[trigger] region_hyp(rs, data@) implies recs_vview(out@)
                        == expected_upto(rs, s as int + 1) by {
                        assert(slot_k(rs, s as int) is None);
                        assert(expected_upto(rs, s as int + 1) =~= expected_upto(rs, s as int));
                    }
                }
            },
            Err(e) => {
                proof {
                    assert forall|rs: Seq<RawRecM>| !(#[trigger] region_hyp(rs, data@)) by {}
                }
                return Err(e);
            },
        }
        s = s + 1;
    }
    proof {
        assert(decode_shape(data@, recs_vview(out@))) by {
            assert forall|j: int|
                0 <= j < recs_vview(out@).len() implies 0 <= (#[trigger] recs_vview(out@)[j]).x
                < 32 && 0 <= recs_vview(out@)[j].z < 32 && slot_live(
                data@,
                rec_slot(recs_vview(out@)[j]),
            ) by {
                assert(recs_vview(out@)[j] == out@[j]@);
            }
            assert forall|j1: int, j2: int|
                0 <= j1 < j2 < recs_vview(out@).len() implies rec_slot(
                #[trigger] recs_vview(out@)[j1]) < rec_slot(#[trigger] recs_vview(out@)[j2]) by {
                assert(recs_vview(out@)[j1] == out@[j1]@ && recs_vview(out@)[j2] == out@[j2]@);
            }
            assert forall|t: int| 0 <= t < 1024 && slot_live(data@, t) implies exists|j: int|
                0 <= j < recs_vview(out@).len() && rec_slot(#[trigger] recs_vview(out@)[j])
                    == t by {
                let j = choose|j: int| 0 <= j < out@.len() && rec_slot((#[trigger] out@[j])@)
                    == t;
                assert(recs_vview(out@)[j] == out@[j]@);
            }
        }
    }
    Ok(out)
}

// ------------------------------------------------------------- the law

proof fn lemma_slot_k_of_distinct(rs: Seq<RawRecM>, k: int)
    requires
        distinct_slots(rs),
        0 <= k < rs.len(),
    ensures
        slot_k(rs, slot_of(rs[k])) == Some(k),
    decreases rs.len(),
{
    if k == rs.len() - 1 {
    } else {
        assert(slot_of(rs.last()) != slot_of(rs[k]));
        assert(rs.drop_last()[k] == rs[k]);
        assert(distinct_slots(rs.drop_last())) by {
            assert forall|a: int, b: int|
                0 <= a < b < rs.drop_last().len() implies slot_of(
                #[trigger] rs.drop_last()[a]) != slot_of(#[trigger] rs.drop_last()[b]) by {
                assert(rs.drop_last()[a] == rs[a] && rs.drop_last()[b] == rs[b]);
            }
        }
        lemma_slot_k_of_distinct(rs.drop_last(), k);
    }
}

proof fn lemma_expected_prefix(rs: Seq<RawRecM>, a: int, b: int)
    requires
        0 <= a <= b,
    ensures
        expected_upto(rs, a).len() <= expected_upto(rs, b).len(),
        forall|j: int|
            0 <= j < expected_upto(rs, a).len() ==> expected_upto(rs, b)[j] == #[trigger]
            expected_upto(rs, a)[j],
    decreases b - a,
{
    if a < b {
        lemma_expected_prefix(rs, a, b - 1);
    }
}

/// The container round trip: every record of a well-formed input appears
/// among the decoded records with its position wrapped into the grid, and
/// every decoded record is one of the input's.
pub proof fn lemma_region_round_trip(rs: Seq<RawRecM>)
    requires
        region_encodable(rs),
    ensures
        forall|k: int|
            0 <= k < rs.len() ==> expected_upto(rs, 1024).contains(
                #[trigger] norm_rec(rs, k, slot_of(rs[k])),
            ),
        forall|j: int|
            0 <= j < expected_upto(rs, 1024).len() ==> exists|k: int|
                0 <= k < rs.len() && #[trigger] expected_upto(rs, 1024)[j] == norm_rec(
                    rs,
                    k,
                    slot_of(rs[k]),
                ),
{
    assert forall|k: int| 0 <= k < rs.len() implies expected_upto(rs, 1024).contains(
        #[trigger] norm_rec(rs, k, slot_of(rs[k])),
    ) by {
        let s = slot_of(rs[k]);
        vstd::arithmetic::div_mod::lemma_mod_bound(rs[k].x as int, 32);
        vstd::arithmetic::div_mod::lemma_mod_bound(rs[k].z as int, 32);
        assert(0 <= s < 1024);
        lemma_slot_k_of_distinct(rs, k);
        let j = expected_upto(rs, s).len() as int;
        assert(expected_upto(rs, s + 1)[j] == norm_rec(rs, k, s));
        lemma_expected_prefix(rs, s + 1, 1024);
        assert(expected_upto(rs, 1024)[j] == norm_rec(rs, k, s));
    }
    lemma_expected_sound(rs, 1024);
}

proof fn lemma_expected_sound(rs: Seq<RawRecM>, s: int)
    requires
        distinct_slots(rs),
        0 <= s <= 1024,
    ensures
        forall|j: int|
            0 <= j < expected_upto(rs, s).len() ==> exists|k: int|
                0 <= k < rs.len() && #[trigger] expected_upto(rs, s)[j] == norm_rec(
                    rs,
                    k,
                    slot_of(rs[k]),
                ),
    decreases s,
{
    if s > 0 {
        lemma_expected_sound(rs, s - 1);
        match slot_k(rs, s - 1) {
            Some(k) => {
                lemma_slot_k_in_range(rs, s - 1);
                assert(slot_of(rs[k]) == s - 1);
                assert forall|j: int| 0 <= j < expected_upto(rs, s).len() implies exists|k2: int|
                    0 <= k2 < rs.len() && #[trigger] expected_upto(rs, s)[j] == norm_rec(
                        rs,
                        k2,
                        slot_of(rs[k2]),
                    ) by {
                    if j < expected_upto(rs, s - 1).len() {
                        assert(expected_upto(rs, s)[j] == expected_upto(rs, s - 1)[j]);
                    } else {
                        assert(expected_upto(rs, s)[j] == norm_rec(rs, k, s - 1));
                        assert(expected_upto(rs, s)[j] == norm_rec(rs, k, slot_of(rs[k])));
                    }
                }
            },
            None => {
                assert(expected_upto(rs, s) =~= expected_upto(rs, s - 1));
            },
        }
    }
}


// ----------------------------------------------------------- filenames

/// An optionally negated run of digits, as the filename grammar has it:
/// no plus sign, no empty part.
pub open spec fn num_part(s: Seq<u8>) -> bool {
    (s.len() >= 1 && crate::numfmt::all_digits(s)) || (s.len() >= 2 && s[0] == 45
        && crate::numfmt::all_digits(s.drop_first()))
}

pub open spec fn mca_tail() -> Seq<u8> {
    seq![46u8, 109u8, 99u8, 97u8]
}

pub open spec fn json_tail() -> Seq<u8> {
    seq![46u8, 106u8, 115u8, 111u8, 110u8]
}

/// The container filename shape `r.<cx>.<cz>.mca`, with signed decimal
/// coordinates that fit 32 bits.
pub open spec fn spec_parse_mca(s: Seq<u8>) -> Option<(int, int)> {
    if s.len() >= 2 && s[0] == 114 && s[1] == 46 {
        let r2 = s.skip(2);
        let d1 = crate::numfmt::first_dot(r2);
        if d1 >= r2.len() {
            None
        } else {
            let a = r2.take(d1);
            let r3 = r2.skip(d1 + 1);
            let d2 = crate::numfmt::first_dot(r3);
            if d2 >= r3.len() {
                None
            } else {
                let b = r3.take(d2);
                let tail = r3.skip(d2);
                if num_part(a) && num_part(b) && tail == mca_tail() && i32::MIN
                    <= crate::numfmt::int_val(a) <= i32::MAX && i32::MIN <= crate::numfmt::int_val(
                    b,
                ) <= i32::MAX {
                    Some((crate::numfmt::int_val(a), crate::numfmt::int_val(b)))
                } else {
                    None
                }
            }
        }
    } else {
        None
    }
}

/// The slice filename shape `r.<cx>.<cz>.<index>.json`.
pub open spec fn spec_parse_slice_name(s: Seq<u8>) -> Option<(int, int)> {
    if s.len() >= 2 && s[0] == 114 && s[1] == 46 {
        let r2 = s.skip(2);
        let d1 = crate::numfmt::first_dot(r2);
        if d1 >= r2.len() {
            None
        } else {
            let a = r2.take(d1);
            let r3 = r2.skip(d1 + 1);
            let d2 = crate::numfmt::first_dot(r3);
            if d2 >= r3.len() {
                None
            } else {
                let b = r3.take(d2);
                let r4 = r3.skip(d2 + 1);
                let d3 = crate::numfmt::first_dot(r4);
                if d3 >= r4.len() {
                    None
                } else {
                    let idx = r4.take(d3);
                    let tail = r4.skip(d3);
                    if num_part(a) && num_part(b) && idx.len() >= 1 && crate::numfmt::all_digits(
                        idx,
                    ) && tail == json_tail() && i32::MIN <= crate::numfmt::int_val(a) <= i32::MAX
                        && i32::MIN <= crate::numfmt::int_val(b) <= i32::MAX {
                        Some((crate::numfmt::int_val(a), crate::numfmt::int_val(b)))
                    } else {
                        None
                    }
                }
            }
        }
    } else {
        None
    }
}

fn num_part_exec(s: &[u8]) -> (r: bool)
    ensures
        r == num_part(s@),
{
    if s.len() >= 1 && s[0] == 45 {
        if s.len() < 2 {
            return false;
        }
        let body = &s[1..s.len()];
        proof {
            assert(body@ =~= s@.drop_first());
        }
        let d = crate::numfmt::all_digits_exec(body);
        proof {
            if d {
                assert(num_part(s@));
            } else {
                assert(!crate::numfmt::all_digits(s@)) by {
                    assert(!crate::numfmt::is_digit(s@[0]));
                }
            }
        }
        d
    } else {
        let d = crate::numfmt::all_digits_exec(s);
        d && s.len() >= 1
    }
}

/// Parses a container filename `r.<cx>.<cz>.mca`; negative coordinates
/// are accepted, anything off the exact shape is not.
#[verifier::loop_isolation(false)]
pub fn parse_mca_filename(name: &[u8]) -> (r: Option<(i32, i32)>)
    ensures
        (r is Some) == (spec_parse_mca(name@) is Some),
        r matches Some(p) ==> Some((p.0 as int, p.1 as int)) == spec_parse_mca(name@),
{
    broadcast use vstd::string::is_ascii_spec_bytes;

    let n = name.len();
    if n < 2 || name[0] != 114 || name[1] != 46 {
        return None;
    }
    let rest = &name[2..n];
    proof {
        assert(rest@ =~= name@.skip(2));
    }
    let d1 = crate::numfmt::find_dot(rest);
    if d1 >= rest.len() {
        return None;
    }
    let a = &rest[0..d1];
    let r3 = &rest[d1 + 1..rest.len()];
    proof {
        assert(a@ =~= rest@.take(d1 as int));
        assert(r3@ =~= rest@.skip(d1 as int + 1));
    }
    let d2 = crate::numfmt::find_dot(r3);
    if d2 >= r3.len() {
        return None;
    }
    let b = &r3[0..d2];
    let tail = &r3[d2..r3.len()];
    proof {
        assert(b@ =~= r3@.take(d2 as int));
        assert(tail@ =~= r3@.skip(d2 as int));
        reveal_strlit(".mca");
        assert(vstd::string::is_ascii(".mca"));
        assert(".mca".spec_bytes() =~= mca_tail());
    }
    if !crate::util::bytes_eq(tail, ".mca".as_bytes()) {
        return None;
    }
    if !num_part_exec(a) || !num_part_exec(b) {
        return None;
    }
    let xv = match crate::numfmt::parse_i64(a) {
        Some(v) => v,
        None => {
            return None;
        },
    };
    let zv = match crate::numfmt::parse_i64(b) {
        Some(v) => v,
        None => {
            return None;
        },
    };
    if xv < -2147483648i64 || xv > 2147483647i64 || zv < -2147483648i64 || zv > 2147483647i64 {
        return None;
    }
    Some((xv as i32, zv as i32))
}

/// Parses a slice filename `r.<cx>.<cz>.<index>.json`, yielding the
/// container coordinates.
#[verifier::loop_isolation(false)]
pub fn parse_slice_filename(name: &[u8]) -> (r: Option<(i32, i32)>)
    ensures
        (r is Some) == (spec_parse_slice_name(name@) is Some),
        r matches Some(p) ==> Some((p.0 as int, p.1 as int)) == spec_parse_slice_name(name@),
{
    broadcast use vstd::string::is_ascii_spec_bytes;

    let n = name.len();
    if n < 2 || name[0] != 114 || name[1] != 46 {
        return None;
    }
    let rest = &name[2..n];
    proof {
        assert(rest@ =~= name@.skip(2));
    }
    let d1 = crate::numfmt::find_dot(rest);
    if d1 >= rest.len() {
        return None;
    }
    let a = &rest[0..d1];
    let r3 = &rest[d1 + 1..rest.len()];
    proof {
        assert(a@ =~= rest@.take(d1 as int));
        assert(r3@ =~= rest@.skip(d1 as int + 1));
    }
    let d2 = crate::numfmt::find_dot(r3);
    if d2 >= r3.len() {
        return None;
    }
    let b = &r3[0..d2];
    let r4 = &r3[d2 + 1..r3.len()];
    proof {
        assert(b@ =~= r3@.take(d2 as int));
        assert(r4@ =~= r3@.skip(d2 as int + 1));
    }
    let d3 = crate::numfmt::find_dot(r4);
    if d3 >= r4.len() {
        return None;
    }
    let idx = &r4[0..d3];
    let tail = &r4[d3..r4.len()];
    proof {
        assert(idx@ =~= r4@.take(d3 as int));
        assert(tail@ =~= r4@.skip(d3 as int));
        reveal_strlit(".json");
        assert(vstd::string::is_ascii(".json"));
        assert(".json".spec_bytes() =~= json_tail());
    }
    if !crate::util::bytes_eq(tail, ".json".as_bytes()) {
        return None;
    }
    if idx.len() < 1 || !crate::numfmt::all_digits_exec(idx) {
        return None;
    }
    if !num_part_exec(a) || !num_part_exec(b) {
        return None;
    }
    let xv = match crate::numfmt::parse_i64(a) {
        Some(v) => v,
        None => {
            return None;
        },
    };
    let zv = match crate::numfmt::parse_i64(b) {
        Some(v) => v,
        None => {
            return None;
        },
    };
    if xv < -2147483648i64 || xv > 2147483647i64 || zv < -2147483648i64 || zv > 2147483647i64 {
        return None;
    }
    Some((xv as i32, zv as i32))
}


/// How many slots below `s` are occupied.
pub open spec fn occ(rs: Seq<RawRecM>, s: int) -> int
    decreases s,
{
    if s <= 0 {
        0
    } else {
        occ(rs, s - 1) + (if slot_k(rs, s - 1) is Some {
            1int
        } else {
            0int
        })
    }
}

proof fn lemma_expected_len(rs: Seq<RawRecM>, s: int)
    requires
        0 <= s,
    ensures
        expected_upto(rs, s).len() == occ(rs, s),
    decreases s,
{
    if s > 0 {
        lemma_expected_len(rs, s - 1);
    }
}

proof fn lemma_occ_drop(rs: Seq<RawRecM>, s: int)
    requires
        0 <= s,
        rs.len() > 0,
        distinct_slots(rs),
    ensures
        occ(rs, s) == occ(rs.drop_last(), s) + (if slot_of(rs.last()) < s {
            1int
        } else {
            0int
        }),
    decreases s,
{
    if s > 0 {
        lemma_occ_drop(rs, s - 1);
        if slot_of(rs.last()) == s - 1 {
            lemma_slot_k_some_means(rs.drop_last(), s - 1);
            if slot_k(rs.drop_last(), s - 1) is Some {
                let j = choose|j: int|
                    0 <= j < rs.drop_last().len() && slot_of(rs.drop_last()[j]) == s - 1;
                assert(rs.drop_last()[j] == rs[j]);
                assert(slot_of(rs[j]) == slot_of(rs[rs.len() - 1]));
                assert(false);
            }
        }
    }
}

proof fn lemma_occ_empty(rs: Seq<RawRecM>, s: int)
    requires
        0 <= s,
        rs.len() == 0,
    ensures
        occ(rs, s) == 0,
    decreases s,
{
    if s > 0 {
        lemma_occ_empty(rs, s - 1);
    }
}

proof fn lemma_occ_full(rs: Seq<RawRecM>)
    requires
        distinct_slots(rs),
    ensures
        occ(rs, 1024) == rs.len(),
    decreases rs.len(),
{
    if rs.len() == 0 {
        lemma_occ_empty(rs, 1024);
    }
    if rs.len() > 0 {
        assert(distinct_slots(rs.drop_last())) by {
            assert forall|a: int, b: int|
                0 <= a < b < rs.drop_last().len() implies slot_of(
                #[trigger] rs.drop_last()[a]) != slot_of(#[trigger] rs.drop_last()[b]) by {
                assert(rs.drop_last()[a] == rs[a] && rs.drop_last()[b] == rs[b]);
            }
        }
        lemma_occ_full(rs.drop_last());
        lemma_occ_drop(rs, 1024);
        vstd::arithmetic::div_mod::lemma_mod_bound(rs.last().x as int, 32);
        vstd::arithmetic::div_mod::lemma_mod_bound(rs.last().z as int, 32);
        assert(slot_of(rs.last()) < 1024);
    }
}

/// The decoded list is exactly as long as the record list: with the two
/// containment directions of the round-trip law, the container loses and
/// invents nothing.
pub proof fn lemma_region_round_trip_len(rs: Seq<RawRecM>)
    requires
        region_encodable(rs),
    ensures
        expected_upto(rs, 1024).len() == rs.len(),
{
    lemma_expected_len(rs, 1024);
    lemma_occ_full(rs);
}

} // verus!
