//! The pure half of the raw NTFS volume reader: boot-sector geometry,
//! FILE-record parsing with update-sequence fixups, data-run decoding, and
//! the bottom-up reconstruction of an [`Entry`] tree from parsed records.

use std::collections::{HashMap, HashSet};
use std::path::PathBuf;
use vstd::prelude::*;

use super::{join_name, joined, Availability, Entry};
use crate::text::push_char;

verus! {

// FILE-record header field offsets.
pub const REC_SIGNATURE: usize = 0x00;
pub const REC_USA_OFFSET: usize = 0x04;
pub const REC_USA_COUNT: usize = 0x06;
pub const REC_HARD_LINK_COUNT: usize = 0x12;
pub const REC_FIRST_ATTR_OFFSET: usize = 0x14;
pub const REC_FLAGS: usize = 0x16;
pub const REC_BASE_RECORD_REF: usize = 0x20;

// Attribute header field offsets.
pub const ATTR_TYPE_OFF: usize = 0x00;
pub const ATTR_LENGTH_OFF: usize = 0x04;
pub const ATTR_NON_RESIDENT_OFF: usize = 0x08;
pub const ATTR_NAME_LENGTH_OFF: usize = 0x09;
pub const ATTR_RES_VALUE_LENGTH_OFF: usize = 0x10;
pub const ATTR_RES_VALUE_OFFSET_OFF: usize = 0x14;
pub const ATTR_NONRES_REAL_SIZE_OFF: usize = 0x30;
pub const ATTR_NONRES_RUNS_OFF: usize = 0x20;

// `$FILE_NAME` content field offsets.
pub const FNAME_PARENT_REF: usize = 0x00;
pub const FNAME_FLAGS: usize = 0x38;
pub const FNAME_NAME_LENGTH: usize = 0x40;
pub const FNAME_NAMESPACE: usize = 0x41;
pub const FNAME_NAME: usize = 0x42;

// `$STANDARD_INFORMATION` content field offset.
pub const STDINFO_FILE_ATTRIBUTES: usize = 0x20;

pub const ATTR_STANDARD_INFORMATION: u32 = 0x10;
pub const ATTR_FILE_NAME: u32 = 0x30;
pub const ATTR_DATA: u32 = 0x80;
pub const ATTR_END: u32 = 0xFFFF_FFFF;

pub const FLAG_IN_USE: u16 = 0x0001;
pub const FLAG_DIRECTORY: u16 = 0x0002;

/// `FILE_ATTRIBUTE_REPARSE_POINT`.
pub const FILE_ATTR_REPARSE_POINT: u32 = 0x0400;

/// The DOS-only 8.3 short-name namespace.
pub const NAMESPACE_DOS: u8 = 2;

/// The first record number that is not reserved for volume metadata.
pub const FIRST_USER_RECORD: u64 = 16;

/// The root directory's fixed record number.
pub const ROOT_RECORD: u64 = 5;

/// Sector size used for fixups when the record length does not divide evenly.
pub const DEFAULT_SECTOR_SIZE: usize = 512;

// ---------------------------------------------------------------------------
// Little-endian readers
// ---------------------------------------------------------------------------

/// The little-endian unsigned value of the `width` bytes of `b` at `off`.
pub open spec fn le_value(b: Seq<u8>, off: int, width: nat) -> int
    decreases width,
{
    if width == 0 {
        0
    } else {
        b[off] + 256 * le_value(b, off + 1, (width - 1) as nat)
    }
}

/// Whether `width` bytes starting at `off` lie inside `b`.
pub open spec fn in_bounds(b: Seq<u8>, off: int, width: int) -> bool {
    0 <= off && off + width <= b.len()
}

pub proof fn lemma_le_value_bound(b: Seq<u8>, off: int, width: nat)
    requires
        in_bounds(b, off, width as int),
    ensures
        0 <= le_value(b, off, width) < vstd::arithmetic::power::pow(256, width),
    decreases width,
{
    vstd::arithmetic::power::lemma_pow_positive(256, width);
    if width > 0 {
        lemma_le_value_bound(b, off + 1, (width - 1) as nat);
        vstd::arithmetic::power::lemma_pow_adds(256, 1, (width - 1) as nat);
        vstd::arithmetic::power::lemma_pow1(256);
    }
}

fn le_u16(b: &[u8], off: usize) -> (v: Option<u16>)
    requires
        off + 2 <= usize::MAX,
    ensures
        v is Some <==> in_bounds(b@, off as int, 2),
        v matches Some(x) ==> x == le_value(b@, off as int, 2),
{
    if off + 2 <= b.len() {
        proof {
            reveal_with_fuel(le_value, 3);
        }
        Some(b[off] as u16 + 256 * (b[off + 1] as u16))
    } else {
        None
    }
}

fn le_u32(b: &[u8], off: usize) -> (v: Option<u32>)
    requires
        off + 4 <= usize::MAX,
    ensures
        v is Some <==> in_bounds(b@, off as int, 4),
        v matches Some(x) ==> x == le_value(b@, off as int, 4),
{
    if off + 4 <= b.len() {
        proof {
            reveal_with_fuel(le_value, 5);
        }
        Some(
            b[off] as u32 + 256 * (b[off + 1] as u32) + 65536 * (b[off + 2] as u32) + 16777216 * (
            b[off + 3] as u32),
        )
    } else {
        None
    }
}

fn le_u64(b: &[u8], off: usize) -> (v: Option<u64>)
    requires
        off + 8 <= usize::MAX,
    ensures
        v is Some <==> in_bounds(b@, off as int, 8),
        v matches Some(x) ==> x == le_value(b@, off as int, 8),
{
    if off + 8 <= b.len() {
        proof {
            reveal_with_fuel(le_value, 9);
        }
        let lo = b[off] as u64 + 256 * (b[off + 1] as u64) + 65536 * (b[off + 2] as u64)
            + 16777216 * (b[off + 3] as u64);
        let hi = b[off + 4] as u64 + 256 * (b[off + 5] as u64) + 65536 * (b[off + 6] as u64)
            + 16777216 * (b[off + 7] as u64);
        Some(lo + 4294967296 * hi)
    } else {
        None
    }
}

/// The record number of a file reference: its low 48 bits.
pub open spec fn record_number_spec(reference: u64) -> u64 {
    (reference % 0x1_0000_0000_0000) as u64
}

/// Strips the reuse sequence number (high 16 bits) off a file reference.
pub fn record_number_of(reference: u64) -> (n: u64)
    ensures
        n == record_number_spec(reference),
{
    assert(reference & 0x0000_FFFF_FFFF_FFFF == reference % 0x1_0000_0000_0000) by (bit_vector);
    reference & 0x0000_FFFF_FFFF_FFFF
}

// ---------------------------------------------------------------------------
// Boot sector
// ---------------------------------------------------------------------------

/// The geometry read from an NTFS volume's boot sector.
#[derive(Debug, Clone, Copy, PartialEq, Eq, Structural)]
pub struct BootInfo {
    pub cluster_size: u64,
    /// First-cluster number (LCN) of the `$MFT`.
    pub mft_lcn: u64,
    /// Size of one FILE record in bytes.
    pub record_size: usize,
}

impl BootInfo {
    /// Byte offset of the `$MFT` on the volume.
    pub fn mft_byte_offset(&self) -> (offset: u64)
        requires
            self.mft_lcn * self.cluster_size <= u64::MAX,
        ensures
            offset == self.mft_lcn * self.cluster_size,
    {
        self.mft_lcn * self.cluster_size
    }
}

/// The byte read as a two's-complement signed value.
pub open spec fn signed_byte(x: u8) -> int {
    if x < 128 {
        x as int
    } else {
        x - 256
    }
}

/// The OEM ID at offset 3 reads `"NTFS    "`.
pub open spec fn oem_is_ntfs(b: Seq<u8>) -> bool {
    &&& b.len() >= 11
    &&& b[3] == 0x4E && b[4] == 0x54 && b[5] == 0x46 && b[6] == 0x53
    &&& b[7] == 0x20 && b[8] == 0x20 && b[9] == 0x20 && b[10] == 0x20
}

/// A signed size code: a non-negative value is a count, a negative value
/// `-k` stands for `2^k`.
pub open spec fn size_code(x: u8, unit: int) -> int {
    if signed_byte(x) >= 0 {
        signed_byte(x) * unit
    } else {
        vstd::arithmetic::power2::pow2((-signed_byte(x)) as nat) as int
    }
}

/// Whether parsing reaches the cluster-size computation.
pub open spec fn boot_reaches_geometry(b: Seq<u8>) -> bool {
    oem_is_ntfs(b) && b.len() >= 14 && le_value(b, 0x0B, 2) != 0
}

/// The boot sector's cluster size in bytes.
pub open spec fn boot_cluster_size(b: Seq<u8>) -> int {
    size_code(b[0x0D], 1) * le_value(b, 0x0B, 2)
}

/// Whether parsing `b` stays inside machine arithmetic: a power-of-two code
/// fits its integer type and the size products fit in 64 bits.
pub open spec fn boot_sector_in_range(b: Seq<u8>) -> bool {
    boot_reaches_geometry(b) ==> {
        &&& (signed_byte(b[0x0D]) < 0 ==> -signed_byte(b[0x0D]) < 64)
        &&& boot_cluster_size(b) <= u64::MAX
        &&& b.len() >= 0x41 ==> {
            &&& (signed_byte(b[0x40]) >= 0 ==> signed_byte(b[0x40]) * boot_cluster_size(b)
                <= u64::MAX)
            &&& (signed_byte(b[0x40]) < 0 ==> -signed_byte(b[0x40]) < usize::BITS)
        }
    }
}

/// What parsing `b` as an NTFS boot sector yields.
pub open spec fn boot_sector_info(b: Seq<u8>) -> Option<BootInfo> {
    if !boot_reaches_geometry(b) || b.len() < 0x41 {
        None
    } else {
        let cluster = boot_cluster_size(b);
        let record = (size_code(b[0x40], cluster) as u64) as usize;
        if record == 0 || cluster == 0 {
            None
        } else {
            Some(
                BootInfo {
                    cluster_size: cluster as u64,
                    mft_lcn: le_value(b, 0x30, 8) as u64,
                    record_size: record,
                },
            )
        }
    }
}

/// `2^k` for a size code `-k`.
fn pow2_u64(k: u8) -> (v: u64)
    requires
        k < 64,
    ensures
        v == vstd::arithmetic::power2::pow2(k as nat),
{
    proof {
        vstd::bits::lemma_u64_pow2_no_overflow(k as nat);
        vstd::bits::lemma_u64_shl_is_mul(1, k as u64);
    }
    1u64 << (k as u64)
}

fn pow2_usize(k: u8) -> (v: usize)
    requires
        k < usize::BITS,
    ensures
        v == vstd::arithmetic::power2::pow2(k as nat),
{
    proof {
        vstd::bits::lemma_usize_pow2_no_overflow(k as nat);
        vstd::bits::lemma_usize_shl_is_mul(1, k as usize);
    }
    1usize << (k as usize)
}

/// Parses an NTFS boot sector: `None` when it is not one, is truncated, or
/// describes a zero cluster or record size.
pub fn parse_boot_sector(b: &[u8]) -> (info: Option<BootInfo>)
    requires
        boot_sector_in_range(b@),
    ensures
        info == boot_sector_info(b@),
{
    if b.len() < 11 {
        return None;
    }
    if !(b[3] == 0x4E && b[4] == 0x54 && b[5] == 0x46 && b[6] == 0x53 && b[7] == 0x20 && b[8]
        == 0x20 && b[9] == 0x20 && b[10] == 0x20) {
        return None;
    }
    let bytes_per_sector = match le_u16(b, 0x0B) {
        Some(v) => v as u64,
        None => return None,
    };
    if bytes_per_sector == 0 {
        return None;
    }
    if b.len() < 14 {
        return None;
    }
    let spc_raw = b[0x0D];
    let sectors_per_cluster: u64 = if spc_raw < 128 {
        spc_raw as u64
    } else {
        pow2_u64(((256 - spc_raw as u16) as u8))
    };
    proof {
        assert(sectors_per_cluster == size_code(b@[0x0D], 1));
        assert(oem_is_ntfs(b@));
        assert(boot_reaches_geometry(b@));
        assert(bytes_per_sector * sectors_per_cluster == sectors_per_cluster * bytes_per_sector)
            by (nonlinear_arith);
    }
    let cluster_size = bytes_per_sector * sectors_per_cluster;
    let mft_lcn = match le_u64(b, 0x30) {
        Some(v) => v,
        None => return None,
    };
    if b.len() < 0x41 {
        return None;
    }
    let crps = b[0x40];
    let record_size: usize = if crps < 128 {
        #[verifier::truncate]
        ((crps as u64 * cluster_size) as usize)
    } else {
        pow2_usize(((256 - crps as u16) as u8))
    };
    proof {
        if crps >= 128 {
            assert(record_size == size_code(crps, cluster_size as int));
            assert(record_size as u64 as usize == record_size);
        }
    }
    if record_size == 0 || cluster_size == 0 {
        return None;
    }
    Some(BootInfo { cluster_size, mft_lcn, record_size })
}

/// Whether [`parse_boot_sector`] can read `b` within machine arithmetic
/// (its `requires`).
pub fn boot_sector_parsable(b: &[u8]) -> (ok: bool)
    ensures
        ok == boot_sector_in_range(b@),
{
    if b.len() < 14 {
        return true;
    }
    if !(b[3] == 0x4E && b[4] == 0x54 && b[5] == 0x46 && b[6] == 0x53 && b[7] == 0x20 && b[8]
        == 0x20 && b[9] == 0x20 && b[10] == 0x20) {
        return true;
    }
    let bytes_per_sector = match le_u16(b, 0x0B) {
        Some(v) => v as u64,
        None => return true,
    };
    if bytes_per_sector == 0 {
        return true;
    }
    proof {
        assert(boot_reaches_geometry(b@));
    }
    let spc_raw = b[0x0D];
    let sectors_per_cluster: u64 = if spc_raw < 128 {
        spc_raw as u64
    } else {
        let k = (256 - spc_raw as u16) as u8;
        if k >= 64 {
            return false;
        }
        pow2_u64(k)
    };
    proof {
        assert(sectors_per_cluster == size_code(b@[0x0D], 1));
    }
    let cluster_size = match sectors_per_cluster.checked_mul(bytes_per_sector) {
        Some(c) => c,
        None => return false,
    };
    if b.len() < 0x41 {
        return true;
    }
    let crps = b[0x40];
    if crps < 128 {
        (crps as u64).checked_mul(cluster_size).is_some()
    } else {
        ((256 - crps as u16) as u32) < usize::BITS
    }
}

// ---------------------------------------------------------------------------
// Update Sequence Array fixups
// ---------------------------------------------------------------------------

/// The sector length fixups are computed against: the record length split
/// evenly into `sectors`, or the hardware default when it does not divide.
pub open spec fn fixup_sector_size(len: int, sectors: int) -> int {
    if len % sectors == 0 {
        len / sectors
    } else {
        DEFAULT_SECTOR_SIZE as int
    }
}

/// Checks and restores sectors `i..sectors` in order: each sector's last two
/// bytes must read as `usn` and are replaced by the sector's saved pair from
/// the update sequence array. Returns the resulting buffer and whether every
/// sector checked out; the first failure leaves the buffer as it stands.
pub open spec fn fixup_from(buf: Seq<u8>, usa_off: int, usn: int, size: int, sectors: int, i: int) -> (
    Seq<u8>,
    bool,
)
    decreases sectors - i,
{
    if i >= sectors {
        (buf, true)
    } else {
        let entry = usa_off + 2 * (i + 1);
        let tail = (i + 1) * size;
        if !in_bounds(buf, entry, 2) || tail < 2 || tail > buf.len() || le_value(buf, tail - 2, 2)
            != usn {
            (buf, false)
        } else {
            fixup_from(
                buf.update(tail - 2, buf[entry]).update(tail - 1, buf[entry + 1]),
                usa_off,
                usn,
                size,
                sectors,
                i + 1,
            )
        }
    }
}

/// The buffer and verdict that applying a FILE record's fixups produces.
pub open spec fn fixups_result(buf: Seq<u8>) -> (Seq<u8>, bool) {
    if !in_bounds(buf, REC_USA_OFFSET as int, 2) || !in_bounds(buf, REC_USA_COUNT as int, 2) {
        (buf, false)
    } else {
        let usa_off = le_value(buf, REC_USA_OFFSET as int, 2);
        let count = le_value(buf, REC_USA_COUNT as int, 2);
        if count < 1 {
            (buf, false)
        } else if count == 1 {
            (buf, true)
        } else if !in_bounds(buf, usa_off, 2) {
            (buf, false)
        } else {
            let sectors = count - 1;
            fixup_from(
                buf,
                usa_off,
                le_value(buf, usa_off, 2),
                fixup_sector_size(buf.len() as int, sectors),
                sectors,
                0,
            )
        }
    }
}

proof fn lemma_fixup_from_len(buf: Seq<u8>, usa_off: int, usn: int, size: int, sectors: int, i: int)
    ensures
        fixup_from(buf, usa_off, usn, size, sectors, i).0.len() == buf.len(),
    decreases sectors - i,
{
    if i < sectors {
        let entry = usa_off + 2 * (i + 1);
        let tail = (i + 1) * size;
        if !(!in_bounds(buf, entry, 2) || tail < 2 || tail > buf.len() || le_value(
            buf,
            tail - 2,
            2,
        ) != usn) {
            lemma_fixup_from_len(
                buf.update(tail - 2, buf[entry]).update(tail - 1, buf[entry + 1]),
                usa_off,
                usn,
                size,
                sectors,
                i + 1,
            );
        }
    }
}

/// Applies a FILE record's update-sequence fixups in place: every sector's
/// last two bytes must hold the record's sequence number and are replaced by
/// the original pair saved in the update sequence array. Returns `false` on a
/// malformed record or a mismatching sector (a torn write).
pub fn apply_fixups(buf: &mut Vec<u8>) -> (ok: bool)
    ensures
        (final(buf)@, ok) == fixups_result(old(buf)@),
        final(buf)@.len() == old(buf)@.len(),
{
    let usa_off = match le_u16(buf.as_slice(), REC_USA_OFFSET) {
        Some(v) => v as usize,
        None => return false,
    };
    let count = match le_u16(buf.as_slice(), REC_USA_COUNT) {
        Some(v) => v as usize,
        None => return false,
    };
    if count < 1 {
        return false;
    }
    let sectors = count - 1;
    if sectors == 0 {
        return true;
    }
    let len = buf.len();
    let sector_size = if len % sectors == 0 {
        len / sectors
    } else {
        DEFAULT_SECTOR_SIZE
    };
    let usn = match le_u16(buf.as_slice(), usa_off) {
        Some(v) => v,
        None => return false,
    };
    let ghost buf0 = buf@;
    assert(fixups_result(buf0) == fixup_from(
        buf0,
        usa_off as int,
        usn as int,
        sector_size as int,
        sectors as int,
        0,
    ));
    let mut i: usize = 0;
    while i < sectors
        invariant
            i <= sectors,
            sectors < 0x10000,
            usa_off < 0x10000,
            buf@.len() == len,
            len == buf0.len(),
            len == old(buf)@.len(),
            sector_size == fixup_sector_size(len as int, sectors as int),
            fixups_result(old(buf)@) == fixup_from(
                buf@,
                usa_off as int,
                usn as int,
                sector_size as int,
                sectors as int,
                i as int,
            ),
        decreases sectors - i,
    {
        let entry = usa_off + 2 * (i + 1);
        let fixup = match le_u16(buf.as_slice(), entry) {
            Some(v) => v,
            None => return false,
        };
        proof {
            if len % sectors == 0 {
                vstd::arithmetic::div_mod::lemma_fundamental_div_mod(len as int, sectors as int);
                assert((i + 1) * sector_size <= sectors * sector_size) by (nonlinear_arith)
                    requires i + 1 <= sectors, sector_size >= 0;
            } else {
                assert((i + 1) * 512 <= 0x10000 * 512) by (nonlinear_arith)
                    requires i + 1 <= 0x10000;
            }
        }
        let tail = (i + 1) * sector_size;
        if tail < 2 || tail > len {
            return false;
        }
        let cur = le_u16(buf.as_slice(), tail - 2);
        match cur {
            Some(c) => {
                if c != usn {
                    return false;
                }
            },
            None => return false,
        }
        let lo = buf[entry];
        let hi = buf[entry + 1];
        proof {
            reveal_with_fuel(le_value, 3);
        }
        buf.set(tail - 2, lo);
        buf.set(tail - 1, hi);
        i += 1;
    }
    true
}

// ---------------------------------------------------------------------------
// Record parsing
// ---------------------------------------------------------------------------

/// What `String::from_utf16_lossy` decodes a sequence of UTF-16 code units
/// into (each unpaired surrogate becomes U+FFFD).
pub uninterp spec fn utf16_lossy_text(units: Seq<u16>) -> Seq<char>;

/// `String::from_utf16_lossy`: decodes UTF-16, replacing invalid data with
/// U+FFFD. Its result is named, not spelled out.
#[verifier::external_body]
fn decode_utf16_lossy(units: &[u16]) -> (text: String)
    ensures
        text@ == utf16_lossy_text(units@),
{
    String::from_utf16_lossy(units)
}

/// One `$FILE_NAME` attribute of a record: the directory it lives in and the
/// name it has there.
#[derive(Debug, Clone, PartialEq, Eq)]
pub struct FileNameEntry {
    pub parent: u64,
    pub name: String,
    pub namespace: u8,
}

impl View for FileNameEntry {
    type V = (u64, Seq<char>, u8);

    open spec fn view(&self) -> (u64, Seq<char>, u8) {
        (self.parent, self.name@, self.namespace)
    }
}

/// The parsed subset of one `$MFT` FILE record.
#[derive(Debug, Clone, PartialEq, Eq)]
pub struct ParsedRecord {
    pub record_number: u64,
    pub in_use: bool,
    pub is_dir: bool,
    /// A base record has no base-record reference.
    pub is_base: bool,
    pub hard_link_count: u16,
    /// A reparse point / junction.
    pub is_reparse: bool,
    /// Size of the unnamed `$DATA` stream (0 when absent).
    pub data_size: u64,
    pub names: Vec<FileNameEntry>,
}

/// What the attribute walk accumulates: the names seen, the largest unnamed
/// data size, and whether a reparse flag was seen.
pub type AttrState = (Seq<(u64, Seq<char>, u8)>, u64, bool);

/// The fields of a parsed record, names taken by value.
pub type RecordFields = (u64, bool, bool, bool, u16, bool, u64, Seq<(u64, Seq<char>, u8)>);

impl ParsedRecord {
    pub open spec fn fields(self) -> RecordFields {
        (
            self.record_number,
            self.in_use,
            self.is_dir,
            self.is_base,
            self.hard_link_count,
            self.is_reparse,
            self.data_size,
            self.names@.map_values(|n: FileNameEntry| n@),
        )
    }

    /// The first name outside the DOS namespace, else the first name.
    pub open spec fn best_name_index(self) -> Option<int> {
        if exists|k: int| 0 <= k < self.names@.len() && self.names@[k].namespace != NAMESPACE_DOS {
            Some(
                choose|k: int|
                    0 <= k < self.names@.len() && self.names@[k].namespace != NAMESPACE_DOS && (
                    forall|j: int| 0 <= j < k ==> self.names@[j].namespace == NAMESPACE_DOS),
            )
        } else if self.names@.len() > 0 {
            Some(0)
        } else {
            None
        }
    }

    /// The name to show for this record: the first Win32/POSIX name, falling
    /// back to the first name of any kind; DOS 8.3 aliases are skipped.
    pub fn best_name(&self) -> (name: Option<&FileNameEntry>)
        ensures
            match self.best_name_index() {
                Some(k) => name == Some(&self.names@[k]),
                None => name is None,
            },
    {
        let n = self.names.len();
        let mut i: usize = 0;
        while i < n
            invariant
                i <= n,
                n == self.names@.len(),
                forall|j: int| 0 <= j < i ==> self.names@[j].namespace == NAMESPACE_DOS,
            decreases n - i,
        {
            if self.names[i].namespace != NAMESPACE_DOS {
                proof {
                    let k = choose|k: int|
                        0 <= k < self.names@.len() && self.names@[k].namespace != NAMESPACE_DOS
                            && (forall|j: int|
                            0 <= j < k ==> self.names@[j].namespace == NAMESPACE_DOS);
                    assert(k == i) by {
                        if k < i {
                        } else if k > i {
                            assert(self.names@[i as int].namespace == NAMESPACE_DOS);
                        }
                    }
                }
                return Some(&self.names[i]);
            }
            i += 1;
        }
        if n > 0 {
            Some(&self.names[0])
        } else {
            None
        }
    }
}

/// The UTF-16 code units of a `$FILE_NAME` name of `n` units.
pub open spec fn name_units(c: Seq<u8>, n: int) -> Seq<u16> {
    Seq::new(
        n as nat,
        |k: int| (c[FNAME_NAME + 2 * k] + 256 * c[FNAME_NAME + 2 * k + 1]) as u16,
    )
}

/// A `$FILE_NAME` attribute's content read as (parent record, name, namespace).
pub open spec fn file_name_info(c: Seq<u8>) -> Option<(u64, Seq<char>, u8)> {
    if !in_bounds(c, FNAME_PARENT_REF as int, 8) || !in_bounds(c, FNAME_NAMESPACE as int, 1)
        || !in_bounds(c, FNAME_NAME as int, 2 * c[FNAME_NAME_LENGTH as int]) {
        None
    } else {
        Some(
            (
                record_number_spec(le_value(c, FNAME_PARENT_REF as int, 8) as u64),
                utf16_lossy_text(name_units(c, c[FNAME_NAME_LENGTH as int] as int)),
                c[FNAME_NAMESPACE as int],
            ),
        )
    }
}

/// The value bytes of the resident attribute whose header starts at `off`.
pub open spec fn resident_value(buf: Seq<u8>, off: int) -> Option<Seq<u8>> {
    if !in_bounds(buf, off + ATTR_RES_VALUE_OFFSET_OFF, 2) || !in_bounds(
        buf,
        off + ATTR_RES_VALUE_LENGTH_OFF,
        4,
    ) {
        None
    } else {
        let start = off + le_value(buf, off + ATTR_RES_VALUE_OFFSET_OFF, 2);
        let len = le_value(buf, off + ATTR_RES_VALUE_LENGTH_OFF, 4);
        if start + len <= buf.len() {
            Some(buf.subrange(start, start + len))
        } else {
            None
        }
    }
}

/// Whether a 32-bit attribute field at `off` of `c` is present and carries
/// the reparse-point bit.
pub open spec fn reparse_bit_at(c: Seq<u8>, off: int) -> bool {
    in_bounds(c, off, 4) && (le_value(c, off, 4) as u32) & FILE_ATTR_REPARSE_POINT != 0
}

/// The effect of the attribute whose header starts at `off` on the walk
/// state; `None` when a `$DATA` header is cut short.
pub open spec fn attr_effect(buf: Seq<u8>, off: int, st: AttrState) -> Option<AttrState> {
    let t = le_value(buf, off, 4);
    let non_resident = buf[off + ATTR_NON_RESIDENT_OFF] != 0;
    if t == ATTR_STANDARD_INFORMATION && !non_resident {
        match resident_value(buf, off) {
            Some(c) => Some((st.0, st.1, st.2 || reparse_bit_at(c, STDINFO_FILE_ATTRIBUTES as int))),
            None => Some(st),
        }
    } else if t == ATTR_FILE_NAME && !non_resident {
        match resident_value(buf, off) {
            Some(c) => match file_name_info(c) {
                Some(e) => Some((st.0.push(e), st.1, st.2 || reparse_bit_at(c, FNAME_FLAGS as int))),
                None => Some(st),
            },
            None => Some(st),
        }
    } else if t == ATTR_DATA {
        if !in_bounds(buf, off + ATTR_NAME_LENGTH_OFF, 1) {
            None
        } else if buf[off + ATTR_NAME_LENGTH_OFF] == 0 {
            let size = if non_resident {
                if in_bounds(buf, off + ATTR_NONRES_REAL_SIZE_OFF, 8) {
                    le_value(buf, off + ATTR_NONRES_REAL_SIZE_OFF, 8)
                } else {
                    0
                }
            } else {
                if in_bounds(buf, off + ATTR_RES_VALUE_LENGTH_OFF, 4) {
                    le_value(buf, off + ATTR_RES_VALUE_LENGTH_OFF, 4)
                } else {
                    0
                }
            };
            Some((st.0, if size > st.1 { size as u64 } else { st.1 }, st.2))
        } else {
            Some(st)
        }
    } else {
        Some(st)
    }
}

/// Walks the attribute list from `off`: stops at the end marker, at a zero
/// or overrunning length, or when fewer than four bytes remain; `None` when a
/// header field the walk must read is missing.
pub open spec fn walk_attrs(buf: Seq<u8>, off: int, st: AttrState) -> Option<AttrState>
    decreases buf.len() - off,
{
    if !in_bounds(buf, off, 4) {
        None
    } else if le_value(buf, off, 4) == ATTR_END {
        Some(st)
    } else if !in_bounds(buf, off + ATTR_LENGTH_OFF, 4) {
        None
    } else {
        let len = le_value(buf, off + ATTR_LENGTH_OFF, 4);
        if len == 0 || off + len > buf.len() {
            Some(st)
        } else if !in_bounds(buf, off + ATTR_NON_RESIDENT_OFF, 1) {
            None
        } else {
            match attr_effect(buf, off, st) {
                None => None,
                Some(next) => if off + len + 4 > buf.len() {
                    Some(next)
                } else {
                    proof {
                        lemma_le_value_bound(buf, off + ATTR_LENGTH_OFF, 4);
                    }
                    walk_attrs(buf, off + len, next)
                },
            }
        }
    }
}

/// The signature field reads `"FILE"`.
pub open spec fn is_file_signature(buf: Seq<u8>) -> bool {
    buf.len() >= 4 && buf[0] == 0x46 && buf[1] == 0x49 && buf[2] == 0x4C && buf[3] == 0x45
}

/// The fields parsing `buf` as FILE record `number` yields.
pub open spec fn record_info(number: u64, buf: Seq<u8>) -> Option<RecordFields> {
    if !is_file_signature(buf) || !in_bounds(buf, REC_FLAGS as int, 2) || !in_bounds(
        buf,
        REC_HARD_LINK_COUNT as int,
        2,
    ) || !in_bounds(buf, REC_BASE_RECORD_REF as int, 8) || !in_bounds(
        buf,
        REC_FIRST_ATTR_OFFSET as int,
        2,
    ) {
        None
    } else {
        let flags = le_value(buf, REC_FLAGS as int, 2) as u16;
        match walk_attrs(buf, le_value(buf, REC_FIRST_ATTR_OFFSET as int, 2), (seq![], 0, false)) {
            None => None,
            Some(st) => Some(
                (
                    number,
                    flags & FLAG_IN_USE != 0,
                    flags & FLAG_DIRECTORY != 0,
                    record_number_spec(le_value(buf, REC_BASE_RECORD_REF as int, 8) as u64) == 0,
                    le_value(buf, REC_HARD_LINK_COUNT as int, 2) as u16,
                    st.2,
                    st.1,
                    st.0,
                ),
            ),
        }
    }
}

/// Where the record's first attribute header starts.
pub open spec fn first_attr(buf: Seq<u8>) -> int {
    le_value(buf, REC_FIRST_ATTR_OFFSET as int, 2)
}

/// The declared length of the attribute whose header starts at `off`.
pub open spec fn attr_length(buf: Seq<u8>, off: int) -> int {
    le_value(buf, off + ATTR_LENGTH_OFF, 4)
}

/// An attribute header at `off`: not the end marker, with a nonzero length
/// that stays inside the record, and a readable resident/non-resident byte.
pub open spec fn attr_present(buf: Seq<u8>, off: int) -> bool {
    &&& in_bounds(buf, off, 4)
    &&& le_value(buf, off, 4) != ATTR_END
    &&& in_bounds(buf, off + ATTR_LENGTH_OFF, 4)
    &&& attr_length(buf, off) != 0
    &&& off + attr_length(buf, off) <= buf.len()
    &&& in_bounds(buf, off + ATTR_NON_RESIDENT_OFF, 1)
}

/// The attribute header at `b` comes `k` headers after the one at `a`: each
/// header on the way is present and leaves room for another type field.
pub open spec fn attr_follows(buf: Seq<u8>, a: int, b: int, k: nat) -> bool
    decreases k,
{
    if k == 0 {
        a == b
    } else {
        &&& attr_present(buf, a)
        &&& a + attr_length(buf, a) + 4 <= buf.len()
        &&& attr_follows(buf, a + attr_length(buf, a), b, (k - 1) as nat)
    }
}

/// The attribute header at `a` is a resident `$STANDARD_INFORMATION` whose
/// value holds a file-attributes field with the reparse-point bit set.
pub open spec fn std_info_reparse_at(buf: Seq<u8>, a: int) -> bool {
    let start = a + le_value(buf, a + ATTR_RES_VALUE_OFFSET_OFF, 2);
    let len = le_value(buf, a + ATTR_RES_VALUE_LENGTH_OFF, 4);
    &&& attr_present(buf, a)
    &&& le_value(buf, a, 4) == ATTR_STANDARD_INFORMATION
    &&& buf[a + ATTR_NON_RESIDENT_OFF] == 0
    &&& in_bounds(buf, a + ATTR_RES_VALUE_OFFSET_OFF, 2)
    &&& in_bounds(buf, a + ATTR_RES_VALUE_LENGTH_OFF, 4)
    &&& STDINFO_FILE_ATTRIBUTES + 4 <= len
    &&& start + len <= buf.len()
    &&& (le_value(buf, start + STDINFO_FILE_ATTRIBUTES, 4) as u32) & FILE_ATTR_REPARSE_POINT != 0
}

proof fn lemma_le_value_subrange(b: Seq<u8>, s: int, e: int, off: int, width: nat)
    requires
        0 <= s <= e <= b.len(),
        0 <= off,
        off + width <= e - s,
    ensures
        le_value(b.subrange(s, e), off, width) == le_value(b, s + off, width),
    decreases width,
{
    if width > 0 {
        lemma_le_value_subrange(b, s, e, off + 1, (width - 1) as nat);
    }
}

/// Once the walk has seen a reparse flag, it keeps it.
proof fn lemma_walk_keeps_reparse(buf: Seq<u8>, off: int, st: AttrState)
    requires
        st.2,
    ensures
        walk_attrs(buf, off, st) matches Some(r) ==> r.2,
    decreases buf.len() - off,
{
    if in_bounds(buf, off, 4) && le_value(buf, off, 4) != ATTR_END && in_bounds(
        buf,
        off + ATTR_LENGTH_OFF,
        4,
    ) {
        lemma_le_value_bound(buf, off + ATTR_LENGTH_OFF, 4);
        let len = le_value(buf, off + ATTR_LENGTH_OFF, 4);
        if len != 0 && off + len <= buf.len() && in_bounds(buf, off + ATTR_NON_RESIDENT_OFF, 1) {
            if let Some(next) = attr_effect(buf, off, st) {
                if off + len + 4 <= buf.len() {
                    lemma_walk_keeps_reparse(buf, off + len, next);
                }
            }
        }
    }
}

proof fn lemma_walk_finds_std_info(buf: Seq<u8>, off: int, a: int, k: nat, st: AttrState)
    requires
        attr_follows(buf, off, a, k),
        std_info_reparse_at(buf, a),
    ensures
        walk_attrs(buf, off, st) matches Some(r) ==> r.2,
    decreases k,
{
    lemma_le_value_bound(buf, off + ATTR_LENGTH_OFF, 4);
    let len = attr_length(buf, off);
    if k == 0 {
        lemma_le_value_bound(buf, a + ATTR_RES_VALUE_OFFSET_OFF, 2);
        lemma_le_value_bound(buf, a + ATTR_RES_VALUE_LENGTH_OFF, 4);
        let start = a + le_value(buf, a + ATTR_RES_VALUE_OFFSET_OFF, 2);
        let vlen = le_value(buf, a + ATTR_RES_VALUE_LENGTH_OFF, 4);
        let c = buf.subrange(start, start + vlen);
        assert(resident_value(buf, a) == Some(c));
        lemma_le_value_subrange(buf, start, start + vlen, STDINFO_FILE_ATTRIBUTES as int, 4);
        assert(reparse_bit_at(c, STDINFO_FILE_ATTRIBUTES as int));
        if let Some(next) = attr_effect(buf, a, st) {
            assert(next.2);
            if a + len + 4 <= buf.len() {
                lemma_walk_keeps_reparse(buf, a + len, next);
            }
        }
    } else {
        if let Some(next) = attr_effect(buf, off, st) {
            lemma_walk_finds_std_info(buf, off + len, a, (k - 1) as nat, next);
        }
    }
}

/// A FILE record holding, anywhere along its chain of attribute headers, a
/// resident `$STANDARD_INFORMATION` attribute whose file attributes carry the
/// reparse-point bit is parsed as a reparse point, whatever its `$FILE_NAME`
/// flags say.
pub proof fn law_standard_information_marks_reparse(number: u64, buf: Seq<u8>, a: int, k: nat)
    requires
        attr_follows(buf, first_attr(buf), a, k),
        std_info_reparse_at(buf, a),
    ensures
        record_info(number, buf) matches Some(f) ==> f.5,
{
    lemma_walk_finds_std_info(buf, first_attr(buf), a, k, (seq![], 0, false));
}

/// A buffer the machine can hold, with room for the fixed-width field reads
/// past its end.
pub open spec fn addressable(len: int) -> bool {
    len <= isize::MAX
}

fn resident_content(buf: &[u8], off: usize) -> (content: Option<&[u8]>)
    requires
        addressable(buf@.len() as int),
        off <= buf@.len(),
    ensures
        match resident_value(buf@, off as int) {
            Some(c) => content matches Some(x) && x@ == c,
            None => content is None,
        },
        content matches Some(x) ==> x@.len() <= buf@.len(),
{
    let value_off = match le_u16(buf, off + ATTR_RES_VALUE_OFFSET_OFF) {
        Some(v) => v as u64,
        None => return None,
    };
    let value_len = match le_u32(buf, off + ATTR_RES_VALUE_LENGTH_OFF) {
        Some(v) => v as u64,
        None => return None,
    };
    let start = off as u64 + value_off;
    if start + value_len <= buf.len() as u64 {
        Some(&buf[start as usize..(start + value_len) as usize])
    } else {
        None
    }
}

fn parse_file_name(content: &[u8]) -> (entry: Option<FileNameEntry>)
    requires
        addressable(content@.len() as int),
    ensures
        match file_name_info(content@) {
            Some(e) => entry matches Some(x) && x@ == e,
            None => entry is None,
        },
{
    let parent_ref = match le_u64(content, FNAME_PARENT_REF) {
        Some(v) => v,
        None => return None,
    };
    if content.len() <= FNAME_NAMESPACE {
        return None;
    }
    let name_len = content[FNAME_NAME_LENGTH] as usize;
    let namespace = content[FNAME_NAMESPACE];
    if content.len() < FNAME_NAME + name_len * 2 {
        return None;
    }
    let mut units: Vec<u16> = Vec::new();
    let mut k: usize = 0;
    while k < name_len
        invariant
            k <= name_len,
            name_len == content@[FNAME_NAME_LENGTH as int],
            FNAME_NAME + name_len * 2 <= content@.len(),
            units@ == name_units(content@, name_len as int).take(k as int),
        decreases name_len - k,
    {
        let lo = content[FNAME_NAME + 2 * k] as u16;
        let hi = content[FNAME_NAME + 2 * k + 1] as u16;
        units.push(lo + 256 * hi);
        k += 1;
        proof {
            assert(units@ =~= name_units(content@, name_len as int).take(k as int));
        }
    }
    proof {
        assert(units@ =~= name_units(content@, name_len as int));
    }
    let name = decode_utf16_lossy(units.as_slice());
    Some(FileNameEntry { parent: record_number_of(parent_ref), name, namespace })
}

/// Parses one FILE record (fixups already applied), tagging it with
/// `record_number`, its index in the `$MFT`. `None` for a non-FILE or
/// truncated buffer.
pub fn parse_record(record_number: u64, buf: &[u8]) -> (rec: Option<ParsedRecord>)
    requires
        addressable(buf@.len() as int),
    ensures
        match record_info(record_number, buf@) {
            Some(f) => rec matches Some(r) && r.fields() == f,
            None => rec is None,
        },
        forall|a: int, k: nat|
            #[trigger] attr_follows(buf@, first_attr(buf@), a, k) && std_info_reparse_at(buf@, a)
                ==> (rec matches Some(r) ==> r.is_reparse),
{
    if buf.len() < 4 || !(buf[0] == 0x46 && buf[1] == 0x49 && buf[2] == 0x4C && buf[3] == 0x45) {
        return None;
    }
    let flags = match le_u16(buf, REC_FLAGS) {
        Some(v) => v,
        None => return None,
    };
    let in_use = flags & FLAG_IN_USE != 0;
    let is_dir = flags & FLAG_DIRECTORY != 0;
    let hard_link_count = match le_u16(buf, REC_HARD_LINK_COUNT) {
        Some(v) => v,
        None => return None,
    };
    let is_base = match le_u64(buf, REC_BASE_RECORD_REF) {
        Some(v) => record_number_of(v) == 0,
        None => return None,
    };
    let first = match le_u16(buf, REC_FIRST_ATTR_OFFSET) {
        Some(v) => v as usize,
        None => return None,
    };
    let len = buf.len();
    let mut names: Vec<FileNameEntry> = Vec::new();
    let mut data_size: u64 = 0;
    let mut is_reparse = false;
    let mut off = first;
    let ghost start: AttrState = (seq![], 0, false);
    assert(names@.map_values(|n: FileNameEntry| n@) =~= seq![]);
    loop
        invariant_except_break
            walk_attrs(buf@, first as int, start) == walk_attrs(
                buf@,
                off as int,
                (names@.map_values(|n: FileNameEntry| n@), data_size, is_reparse),
            ),
        invariant
            len == buf@.len(),
            addressable(len as int),
            off <= len || off == first,
            first < 0x10000,
            record_info(record_number, buf@) == (match walk_attrs(buf@, first as int, start) {
                Some(w) => Some(
                    (
                        record_number,
                        in_use,
                        is_dir,
                        is_base,
                        hard_link_count,
                        w.2,
                        w.1,
                        w.0,
                    ),
                ),
                None => None,
            }),
        ensures
            walk_attrs(buf@, first as int, start) == Some(
                (names@.map_values(|n: FileNameEntry| n@), data_size, is_reparse),
            ),
        decreases len + 0x10000 - off,
    {
        let ghost st: AttrState = (names@.map_values(|n: FileNameEntry| n@), data_size, is_reparse);
        let attr_type = match le_u32(buf, off + ATTR_TYPE_OFF) {
            Some(v) => v,
            None => return None,
        };
        if attr_type == ATTR_END {
            break ;
        }
        let attr_len = match le_u32(buf, off + ATTR_LENGTH_OFF) {
            Some(v) => v as usize,
            None => return None,
        };
        if attr_len == 0 || off as u64 + attr_len as u64 > len as u64 {
            break ;
        }
        if off + ATTR_NON_RESIDENT_OFF >= len {
            return None;
        }
        let non_resident = buf[off + ATTR_NON_RESIDENT_OFF] != 0;
        if attr_type == ATTR_STANDARD_INFORMATION && !non_resident {
            if let Some(content) = resident_content(buf, off) {
                if let Some(fa) = le_u32(content, STDINFO_FILE_ATTRIBUTES) {
                    if fa & FILE_ATTR_REPARSE_POINT != 0 {
                        is_reparse = true;
                    }
                }
            }
        } else if attr_type == ATTR_FILE_NAME && !non_resident {
            if let Some(content) = resident_content(buf, off) {
                if let Some(entry) = parse_file_name(content) {
                    if let Some(fa) = le_u32(content, FNAME_FLAGS) {
                        if fa & FILE_ATTR_REPARSE_POINT != 0 {
                            is_reparse = true;
                        }
                    }
                    let ghost before = names@;
                    names.push(entry);
                    proof {
                        assert(names@.map_values(|n: FileNameEntry| n@) =~= before.map_values(
                            |n: FileNameEntry| n@,
                        ).push(entry@));
                    }
                }
            }
        } else if attr_type == ATTR_DATA {
            if off + ATTR_NAME_LENGTH_OFF >= len {
                return None;
            }
            let name_len = buf[off + ATTR_NAME_LENGTH_OFF];
            if name_len == 0 {
                let size: u64 = if non_resident {
                    match le_u64(buf, off + ATTR_NONRES_REAL_SIZE_OFF) {
                        Some(v) => v,
                        None => 0,
                    }
                } else {
                    match le_u32(buf, off + ATTR_RES_VALUE_LENGTH_OFF) {
                        Some(v) => v as u64,
                        None => 0,
                    }
                };
                if size > data_size {
                    data_size = size;
                }
            }
        }
        proof {
            assert(attr_effect(buf@, off as int, st) == Some(
                (names@.map_values(|n: FileNameEntry| n@), data_size, is_reparse),
            ));
        }
        let ghost prev = off;
        off = off + attr_len;
        if off + 4 > len {
            assert(walk_attrs(buf@, prev as int, st) == Some(
                (names@.map_values(|n: FileNameEntry| n@), data_size, is_reparse),
            ));
            break ;
        }
    }
    proof {
        assert forall|a: int, k: nat|
            #[trigger] attr_follows(buf@, first_attr(buf@), a, k) && std_info_reparse_at(
                buf@,
                a,
            ) implies is_reparse by {
            law_standard_information_marks_reparse(record_number, buf@, a, k);
        }
    }
    Some(
        ParsedRecord {
            record_number,
            in_use,
            is_dir,
            is_base,
            hard_link_count,
            is_reparse,
            data_size,
            names,
        },
    )
}

// ---------------------------------------------------------------------------
// Data runs
// ---------------------------------------------------------------------------

/// One extent of a non-resident attribute: `cluster_count` clusters starting
/// at absolute cluster `lcn`.
#[derive(Debug, Clone, Copy, PartialEq, Eq, Structural)]
pub struct DataRun {
    pub lcn: u64,
    pub cluster_count: u64,
}

/// The signed value of the `width`-byte little-endian field at `off`.
pub open spec fn le_signed(b: Seq<u8>, off: int, width: nat) -> int {
    let v = le_value(b, off, width);
    if width > 0 && v >= vstd::arithmetic::power2::pow2((8 * width - 1) as nat) {
        v - vstd::arithmetic::power2::pow2((8 * width) as nat)
    } else {
        v
    }
}

/// Decodes the run list from byte `i`, the previous run having started at
/// cluster `prev`. Each run is a header byte (low nibble: length-field
/// width, high nibble: offset-field width), the little-endian cluster count,
/// and a signed offset relative to `prev`; a zero header, a zero-width
/// length, a truncated run or a negative cluster ends the list, and a run
/// with no offset field (sparse) is skipped. `None` when a field is too wide
/// for 64-bit arithmetic or a cluster number leaves the signed 64-bit range.
pub open spec fn decode_runs(b: Seq<u8>, i: int, prev: int) -> Option<Seq<DataRun>>
    decreases b.len() - i,
{
    if i < 0 || i >= b.len() || b[i] == 0 {
        Some(seq![])
    } else {
        let len_bytes = b[i] % 16;
        let off_bytes = b[i] / 16;
        let at = i + 1;
        if len_bytes == 0 || at + len_bytes + off_bytes > b.len() {
            Some(seq![])
        } else if len_bytes > 8 {
            None
        } else if off_bytes == 0 {
            decode_runs(b, at + len_bytes, prev)
        } else if off_bytes > 8 || (off_bytes == 8 && le_value(b, at + len_bytes, 8) >= 0x8000_0000_0000_0000) {
            None
        } else {
            let next = prev + le_signed(b, at + len_bytes, off_bytes as nat);
            if next > i64::MAX {
                None
            } else if next < 0 {
                Some(seq![])
            } else {
                match decode_runs(b, at + len_bytes + off_bytes, next) {
                    None => None,
                    Some(rest) => Some(
                        seq![DataRun { lcn: next as u64, cluster_count: le_value(b, at, len_bytes as nat) as u64 }]
                            + rest,
                    ),
                }
            }
        }
    }
}

proof fn lemma_field_width(b: Seq<u8>, off: int, width: nat)
    requires
        1 <= width <= 8,
        in_bounds(b, off, width as int),
    ensures
        le_value(b, off, width) < vstd::arithmetic::power2::pow2(8 * width),
        vstd::arithmetic::power2::pow2((8 * width - 1) as nat) * 2 == vstd::arithmetic::power2::pow2(
            8 * width,
        ),
        width < 8 ==> vstd::arithmetic::power2::pow2(8 * width) <= 0x100_0000_0000_0000,
        vstd::arithmetic::power2::pow2(63) == 0x8000_0000_0000_0000,
{
    lemma_le_value_bound(b, off, width);
    vstd::arithmetic::power2::lemma_pow2(8 * width);
    vstd::arithmetic::power2::lemma_pow2(8);
    vstd::arithmetic::power::lemma_pow_multiplies(2, 8, width);
    vstd::arithmetic::power2::lemma_pow2_adds((8 * width - 1) as nat, 1);
    vstd::arithmetic::power2::lemma2_to64();
    vstd::arithmetic::power2::lemma2_to64_rest();
    if width < 7 {
        vstd::arithmetic::power2::lemma_pow2_strictly_increases(8 * width, 56);
    }
}

/// The little-endian value of `width <= 8` bytes at `off`.
fn le_word(b: &[u8], off: usize, width: usize) -> (v: u64)
    requires
        width <= 8,
        off + width <= b@.len(),
    ensures
        v == le_value(b@, off as int, width as nat),
{
    let mut acc: u64 = 0;
    let mut j: usize = 0;
    let n = b.len();
    while j < width
        invariant
            n == b@.len(),
            j <= width,
            width <= 8,
            off + width <= b@.len(),
            acc == le_value(b@, off + width - j, j as nat),
        decreases width - j,
    {
        proof {
            lemma_le_value_bound(b@, off + width - j, j as nat);
            vstd::arithmetic::power::lemma_pow_increases(256, j as nat, 7);
            vstd::arithmetic::power2::lemma_pow2(56);
            vstd::arithmetic::power2::lemma_pow2(8);
            vstd::arithmetic::power::lemma_pow_multiplies(2, 8, 7);
            vstd::arithmetic::power2::lemma2_to64();
            vstd::arithmetic::power2::lemma2_to64_rest();
            assert(vstd::arithmetic::power::pow(2, 8) == 256);
            assert(vstd::arithmetic::power::pow(256, 7) == 0x100_0000_0000_0000);
            assert(acc < 0x100_0000_0000_0000);
            assert(256 * acc <= 0xFFFF_FFFF_FFFF_FF00) by (nonlinear_arith)
                requires
                    acc < 0x100_0000_0000_0000,
            ;
        }
        acc = b[off + width - j - 1] as u64 + 256 * acc;
        j += 1;
    }
    acc
}

/// Decodes an NTFS data-run list into absolute extents; `None` when a field
/// is too wide for 64-bit arithmetic or a cluster number overflows.
pub fn try_parse_data_runs(b: &[u8]) -> (runs: Option<Vec<DataRun>>)
    requires
        addressable(b@.len() as int),
    ensures
        match decode_runs(b@, 0, 0) {
            Some(s) => runs matches Some(v) && v@ == s,
            None => runs is None,
        },
{
    let mut runs: Vec<DataRun> = Vec::new();
    let mut i: usize = 0;
    let mut prev_lcn: i64 = 0;
    while i < b.len()
        invariant_except_break
            decode_runs(b@, 0, 0) == match decode_runs(b@, i as int, prev_lcn as int) {
                Some(rest) => Some(runs@ + rest),
                None => None,
            },
        invariant
            addressable(b@.len() as int),
            0 <= prev_lcn,
        ensures
            decode_runs(b@, 0, 0) == Some(runs@),
        decreases b@.len() - i,
    {
        let header = b[i];
        if header == 0 {
            assert(runs@ + seq![] =~= runs@);
            break ;
        }
        let len_bytes = (header % 16) as usize;
        let off_bytes = (header / 16) as usize;
        let at = i + 1;
        if len_bytes == 0 || at + len_bytes + off_bytes > b.len() {
            assert(runs@ + seq![] =~= runs@);
            break ;
        }
        if len_bytes > 8 {
            return None;
        }
        let cluster_count = le_word(b, at, len_bytes);
        if off_bytes == 0 {
            i = at + len_bytes;
            continue ;
        }
        if off_bytes > 8 {
            return None;
        }
        let raw = le_word(b, at + len_bytes, off_bytes);
        if off_bytes == 8 && raw >= 0x8000_0000_0000_0000 {
            return None;
        }
        proof {
            lemma_field_width(b@, (at + len_bytes) as int, off_bytes as nat);
        }
        let delta: i64 = if off_bytes == 8 {
            raw as i64
        } else {
            let full = pow2_u64((8 * off_bytes) as u8);
            if raw >= full / 2 {
                raw as i64 - full as i64
            } else {
                raw as i64
            }
        };
        assert(delta == le_signed(b@, (at + len_bytes) as int, off_bytes as nat));
        if delta > 0 && prev_lcn > i64::MAX - delta {
            return None;
        }
        let next = prev_lcn + delta;
        i = at + len_bytes + off_bytes;
        if next < 0 {
            assert(runs@ + seq![] =~= runs@);
            break ;
        }
        let ghost before = runs@;
        let ghost rest = decode_runs(b@, i as int, next as int);
        prev_lcn = next;
        runs.push(DataRun { lcn: next as u64, cluster_count });
        proof {
            if rest is Some {
                assert(before + (seq![DataRun { lcn: next as u64, cluster_count }] + rest->0)
                    =~= runs@ + rest->0);
            }
        }
    }
    proof {
        if i >= b.len() {
            assert(runs@ + seq![] =~= runs@);
        }
    }
    Some(runs)
}

/// Decodes an NTFS data-run list into absolute extents.
pub fn parse_data_runs(b: &[u8]) -> (runs: Vec<DataRun>)
    requires
        addressable(b@.len() as int),
        decode_runs(b@, 0, 0) is Some,
    ensures
        decode_runs(b@, 0, 0) == Some(runs@),
{
    try_parse_data_runs(b).unwrap()
}

/// The run-list bytes of the first unnamed non-resident `$DATA` attribute
/// found walking from `off`, if any.
pub open spec fn data_run_bytes(buf: Seq<u8>, off: int) -> Option<Seq<u8>>
    decreases buf.len() - off,
{
    if !in_bounds(buf, off, 4) || le_value(buf, off, 4) == ATTR_END || !in_bounds(
        buf,
        off + ATTR_LENGTH_OFF,
        4,
    ) {
        None
    } else {
        let len = le_value(buf, off + ATTR_LENGTH_OFF, 4);
        if len == 0 || off + len > buf.len() {
            None
        } else {
            let non_resident = in_bounds(buf, off + ATTR_NON_RESIDENT_OFF, 1) && buf[off
                + ATTR_NON_RESIDENT_OFF] != 0;
            let name_len = if in_bounds(buf, off + ATTR_NAME_LENGTH_OFF, 1) {
                buf[off + ATTR_NAME_LENGTH_OFF] as int
            } else {
                0
            };
            if le_value(buf, off, 4) == ATTR_DATA && non_resident && name_len == 0 && in_bounds(
                buf,
                off + ATTR_NONRES_RUNS_OFF,
                2,
            ) && le_value(buf, off + ATTR_NONRES_RUNS_OFF, 2) <= len {
                Some(buf.subrange(off + le_value(buf, off + ATTR_NONRES_RUNS_OFF, 2), off + len))
            } else {
                proof {
                    lemma_le_value_bound(buf, off + ATTR_LENGTH_OFF, 4);
                }
                data_run_bytes(buf, off + len)
            }
        }
    }
}

/// The run-list bytes of a FILE record's unnamed non-resident `$DATA`.
pub open spec fn record_run_bytes(buf: Seq<u8>) -> Option<Seq<u8>> {
    if in_bounds(buf, REC_FIRST_ATTR_OFFSET as int, 2) {
        data_run_bytes(buf, le_value(buf, REC_FIRST_ATTR_OFFSET as int, 2))
    } else {
        None
    }
}

/// Where the run list of a FILE record's unnamed non-resident `$DATA` lies
/// in `buf`, if it has one.
fn run_bytes_range(buf: &[u8]) -> (range: Option<(usize, usize)>)
    requires
        addressable(buf@.len() as int),
    ensures
        match record_run_bytes(buf@) {
            Some(r) => range matches Some((a, z)) && a <= z <= buf@.len() && buf@.subrange(
                a as int,
                z as int,
            ) == r,
            None => range is None,
        },
{
    let mut off = match le_u16(buf, REC_FIRST_ATTR_OFFSET) {
        Some(v) => v as usize,
        None => return None,
    };
    let len = buf.len();
    let ghost first = off;
    loop
        invariant
            len == buf@.len(),
            addressable(len as int),
            off <= len || off == first,
            first < 0x10000,
            record_run_bytes(buf@) == data_run_bytes(buf@, off as int),
        decreases len + 0x10000 - off,
    {
        let attr_type = match le_u32(buf, off + ATTR_TYPE_OFF) {
            Some(v) => v,
            None => return None,
        };
        if attr_type == ATTR_END {
            return None;
        }
        let attr_len = match le_u32(buf, off + ATTR_LENGTH_OFF) {
            Some(v) => v as usize,
            None => return None,
        };
        if attr_len == 0 || off as u64 + attr_len as u64 > len as u64 {
            return None;
        }
        let non_resident = off + ATTR_NON_RESIDENT_OFF < len && buf[off + ATTR_NON_RESIDENT_OFF]
            != 0;
        let name_len = if off + ATTR_NAME_LENGTH_OFF < len {
            buf[off + ATTR_NAME_LENGTH_OFF]
        } else {
            0
        };
        if attr_type == ATTR_DATA && non_resident && name_len == 0 {
            if let Some(runs_off) = le_u16(buf, off + ATTR_NONRES_RUNS_OFF) {
                let runs_off = runs_off as usize;
                if runs_off <= attr_len {
                    return Some((off + runs_off, off + attr_len));
                }
            }
        }
        off = off + attr_len;
    }
}

/// Finds the unnamed non-resident `$DATA` attribute of a (fixed-up) FILE
/// record and decodes its data runs; empty when there is none.
pub fn data_runs_of(buf: &[u8]) -> (runs: Vec<DataRun>)
    requires
        addressable(buf@.len() as int),
        record_run_bytes(buf@) matches Some(r) ==> decode_runs(r, 0, 0) is Some,
    ensures
        runs@ == match record_run_bytes(buf@) {
            Some(r) => decode_runs(r, 0, 0)->0,
            None => seq![],
        },
{
    match run_bytes_range(buf) {
        Some((a, z)) => parse_data_runs(slice_range(buf, a, z)),
        None => Vec::new(),
    }
}

/// [`data_runs_of`], or `None` where decoding the run list would overflow.
pub fn try_data_runs_of(buf: &[u8]) -> (runs: Option<Vec<DataRun>>)
    requires
        addressable(buf@.len() as int),
    ensures
        match record_run_bytes(buf@) {
            Some(r) => match decode_runs(r, 0, 0) {
                Some(s) => runs matches Some(v) && v@ == s,
                None => runs is None,
            },
            None => runs matches Some(v) && v@.len() == 0,
        },
{
    match run_bytes_range(buf) {
        Some((a, z)) => try_parse_data_runs(slice_range(buf, a, z)),
        None => Some(Vec::new()),
    }
}

/// `&b[a..z]`.
fn slice_range(b: &[u8], a: usize, z: usize) -> (s: &[u8])
    requires
        a <= z <= b@.len(),
    ensures
        s@ == b@.subrange(a as int, z as int),
{
    vstd::slice::slice_subrange(b, a, z)
}

// ---------------------------------------------------------------------------
// Tree reconstruction
// ---------------------------------------------------------------------------

/// Whether a record takes part in the tree: in use, a base record, and not a
/// reserved metadata record (the root itself excepted).
pub open spec fn kept(r: ParsedRecord, root: u64) -> bool {
    r.in_use && r.is_base && !(r.record_number < FIRST_USER_RECORD && r.record_number != root)
}

/// The last kept record among the first `n` with number `num`.
pub open spec fn lookup_upto(rs: Seq<ParsedRecord>, root: u64, num: u64, n: int) -> Option<int>
    decreases n,
{
    if n <= 0 {
        None
    } else if kept(rs[n - 1], root) && rs[n - 1].record_number == num {
        Some(n - 1)
    } else {
        lookup_upto(rs, root, num, n - 1)
    }
}

/// The record that stands for number `num`: the last kept one.
pub open spec fn lookup(rs: Seq<ParsedRecord>, root: u64, num: u64) -> Option<int> {
    lookup_upto(rs, root, num, rs.len() as int)
}

/// The directory a record's display name places it in.
pub open spec fn parent_of(r: ParsedRecord) -> Option<u64> {
    match r.best_name_index() {
        Some(b) => Some(r.names@[b].parent),
        None => None,
    }
}

/// Numbers of the kept, non-root records among the first `n` whose display
/// name lives in `parent`, in record order.
pub open spec fn child_list_upto(rs: Seq<ParsedRecord>, root: u64, parent: u64, n: int) -> Seq<u64>
    decreases n,
{
    if n <= 0 {
        seq![]
    } else {
        let prev = child_list_upto(rs, root, parent, n - 1);
        let r = rs[n - 1];
        if kept(r, root) && r.record_number != root && parent_of(r) == Some(parent) {
            prev.push(r.record_number)
        } else {
            prev
        }
    }
}

/// The children of `parent`, in record order.
pub open spec fn child_list(rs: Seq<ParsedRecord>, root: u64, parent: u64) -> Seq<u64> {
    child_list_upto(rs, root, parent, rs.len() as int)
}

/// Every record number in play, the root included.
pub open spec fn numbers_in_play(rs: Seq<ParsedRecord>, root: u64) -> Set<u64> {
    rs.map_values(|r: ParsedRecord| r.record_number).to_set().insert(root)
}

/// The name, total size, kind and children of one node of a tree.
pub struct TreeShape {
    pub name: Seq<char>,
    pub size: nat,
    pub is_dir: bool,
    pub children: Seq<TreeShape>,
}

/// `e` has the names, sizes, kinds and child order of `t`, level by level.
pub open spec fn shaped(e: Entry, t: TreeShape) -> bool
    decreases e,
{
    &&& e.name@ == t.name
    &&& e.size == t.size
    &&& e.is_dir == t.is_dir
    &&& e.children@.len() == t.children.len()
    &&& forall|k: int|
        0 <= k < e.children@.len() ==> shaped(#[trigger] e.children@[k], t.children[k])
}

/// Every child in the tree sits at its parent's path joined with its name.
pub open spec fn paths_joined(e: Entry) -> bool
    decreases e,
{
    forall|k: int|
        0 <= k < e.children@.len() ==> (#[trigger] e.children@[k]).path == joined(
            e.path,
            e.children@[k].name@,
        ) && paths_joined(e.children@[k])
}

/// How many numbers in play are not yet visited.
pub open spec fn unvisited(u: Set<u64>, visited: Set<u64>) -> nat {
    u.difference(visited).len()
}

pub proof fn lemma_unvisited_shrinks(u: Set<u64>, a: Set<u64>, b: Set<u64>)
    requires
        u.finite(),
        a.subset_of(b),
    ensures
        unvisited(u, b) <= unvisited(u, a),
{
    vstd::set_lib::lemma_len_subset(u.difference(b), u.difference(a));
}

pub proof fn lemma_unvisited_drops(u: Set<u64>, a: Set<u64>, x: u64)
    requires
        u.finite(),
        u.contains(x),
        !a.contains(x),
    ensures
        unvisited(u, a.insert(x)) < unvisited(u, a),
{
    assert(u.difference(a.insert(x)) =~= u.difference(a).remove(x));
}

/// The subtree for record `num`: a directory that is not a reparse point and
/// has not been expanded before gets the records listed under it as
/// children (in record order); its size is its own data size plus its
/// children's sizes. Returns the shape and the set of expanded directories.
pub open spec fn build_node(
    rs: Seq<ParsedRecord>,
    root: u64,
    u: Set<u64>,
    num: u64,
    name: Seq<char>,
    is_dir: bool,
    own: nat,
    reparse: bool,
    visited: Set<u64>,
) -> (TreeShape, Set<u64>)
    decreases unvisited(u, visited), 0nat, 0nat,
{
    if is_dir && !reparse && !visited.contains(num) && u.contains(num) && u.finite() {
        proof {
            lemma_unvisited_drops(u, visited, num);
        }
        let (kids, after, sum) = build_kids(
            rs,
            root,
            u,
            child_list(rs, root, num),
            0,
            visited.insert(num),
        );
        (TreeShape { name, size: own + sum, is_dir, children: kids }, after)
    } else {
        (TreeShape { name, size: own, is_dir, children: seq![] }, visited)
    }
}

/// The subtrees for `kids[i..]`, skipping numbers with no kept record or no
/// name, with the visited set threaded through; also their total size.
pub open spec fn build_kids(
    rs: Seq<ParsedRecord>,
    root: u64,
    u: Set<u64>,
    kids: Seq<u64>,
    i: int,
    visited: Set<u64>,
) -> (Seq<TreeShape>, Set<u64>, nat)
    decreases unvisited(u, visited), 1nat, kids.len() - i,
{
    if i < 0 || i >= kids.len() || !u.finite() {
        (seq![], visited, 0)
    } else {
        match lookup(rs, root, kids[i]) {
            None => build_kids(rs, root, u, kids, i + 1, visited),
            Some(k) => {
                let r = rs[k];
                match r.best_name_index() {
                    None => build_kids(rs, root, u, kids, i + 1, visited),
                    Some(b) => {
                        let (t, v1) = build_node(
                            rs,
                            root,
                            u,
                            kids[i],
                            r.names@[b].name@,
                            r.is_dir,
                            r.data_size as nat,
                            r.is_reparse,
                            visited,
                        );
                        proof {
                            lemma_unvisited_shrinks(u, visited, visited.union(v1));
                        }
                        let (ts, v2, sum) = build_kids(rs, root, u, kids, i + 1, visited.union(v1));
                        (seq![t] + ts, v2, t.size + sum)
                    },
                }
            },
        }
    }
}

pub proof fn lemma_node_grows(
    rs: Seq<ParsedRecord>,
    root: u64,
    u: Set<u64>,
    num: u64,
    name: Seq<char>,
    is_dir: bool,
    own: nat,
    reparse: bool,
    visited: Set<u64>,
)
    ensures
        visited.subset_of(build_node(rs, root, u, num, name, is_dir, own, reparse, visited).1),
    decreases unvisited(u, visited), 0nat, 0nat,
{
    if is_dir && !reparse && !visited.contains(num) && u.contains(num) && u.finite() {
        lemma_unvisited_drops(u, visited, num);
        lemma_kids_grow(rs, root, u, child_list(rs, root, num), 0, visited.insert(num));
    }
}

pub proof fn lemma_kids_grow(
    rs: Seq<ParsedRecord>,
    root: u64,
    u: Set<u64>,
    kids: Seq<u64>,
    i: int,
    visited: Set<u64>,
)
    ensures
        visited.subset_of(build_kids(rs, root, u, kids, i, visited).1),
    decreases unvisited(u, visited), 1nat, kids.len() - i,
{
    if !(i < 0 || i >= kids.len() || !u.finite()) {
        match lookup(rs, root, kids[i]) {
            None => lemma_kids_grow(rs, root, u, kids, i + 1, visited),
            Some(k) => {
                let r = rs[k];
                match r.best_name_index() {
                    None => lemma_kids_grow(rs, root, u, kids, i + 1, visited),
                    Some(b) => {
                        let (t, v1) = build_node(
                            rs,
                            root,
                            u,
                            kids[i],
                            r.names@[b].name@,
                            r.is_dir,
                            r.data_size as nat,
                            r.is_reparse,
                            visited,
                        );
                        lemma_unvisited_shrinks(u, visited, visited.union(v1));
                        lemma_kids_grow(rs, root, u, kids, i + 1, visited.union(v1));
                    },
                }
            },
        }
    }
}

/// Total size of a list of subtrees.
pub open spec fn shapes_total(s: Seq<TreeShape>) -> nat
    decreases s.len(),
{
    if s.len() == 0 {
        0
    } else {
        s[0].size + shapes_total(s.drop_first())
    }
}

/// Every node's size covers its children's sizes, level by level.
pub open spec fn rolled_up(t: TreeShape) -> bool
    decreases t,
{
    &&& t.size >= shapes_total(t.children)
    &&& forall|k: int| 0 <= k < t.children.len() ==> rolled_up(#[trigger] t.children[k])
}

pub proof fn lemma_node_rolled(
    rs: Seq<ParsedRecord>,
    root: u64,
    u: Set<u64>,
    num: u64,
    name: Seq<char>,
    is_dir: bool,
    own: nat,
    reparse: bool,
    visited: Set<u64>,
)
    ensures
        rolled_up(build_node(rs, root, u, num, name, is_dir, own, reparse, visited).0),
        build_node(rs, root, u, num, name, is_dir, own, reparse, visited).0.size == own
            + shapes_total(build_node(rs, root, u, num, name, is_dir, own, reparse, visited).0.children),
    decreases unvisited(u, visited), 0nat, 0nat,
{
    if is_dir && !reparse && !visited.contains(num) && u.contains(num) && u.finite() {
        lemma_unvisited_drops(u, visited, num);
        lemma_kids_rolled(rs, root, u, child_list(rs, root, num), 0, visited.insert(num));
    } else {
        assert(shapes_total(Seq::<TreeShape>::empty()) == 0);
    }
}

pub proof fn lemma_kids_rolled(
    rs: Seq<ParsedRecord>,
    root: u64,
    u: Set<u64>,
    kids: Seq<u64>,
    i: int,
    visited: Set<u64>,
)
    ensures
        build_kids(rs, root, u, kids, i, visited).2 == shapes_total(
            build_kids(rs, root, u, kids, i, visited).0,
        ),
        forall|k: int|
            0 <= k < build_kids(rs, root, u, kids, i, visited).0.len() ==> rolled_up(
                #[trigger] build_kids(rs, root, u, kids, i, visited).0[k],
            ),
    decreases unvisited(u, visited), 1nat, kids.len() - i,
{
    if !(i < 0 || i >= kids.len() || !u.finite()) {
        match lookup(rs, root, kids[i]) {
            None => lemma_kids_rolled(rs, root, u, kids, i + 1, visited),
            Some(k) => {
                let r = rs[k];
                match r.best_name_index() {
                    None => lemma_kids_rolled(rs, root, u, kids, i + 1, visited),
                    Some(b) => {
                        let (t, v1) = build_node(
                            rs,
                            root,
                            u,
                            kids[i],
                            r.names@[b].name@,
                            r.is_dir,
                            r.data_size as nat,
                            r.is_reparse,
                            visited,
                        );
                        lemma_node_rolled(
                            rs,
                            root,
                            u,
                            kids[i],
                            r.names@[b].name@,
                            r.is_dir,
                            r.data_size as nat,
                            r.is_reparse,
                            visited,
                        );
                        lemma_unvisited_shrinks(u, visited, visited.union(v1));
                        lemma_kids_rolled(rs, root, u, kids, i + 1, visited.union(v1));
                        let rest = build_kids(rs, root, u, kids, i + 1, visited.union(v1));
                        let all = seq![t] + rest.0;
                        assert(all[0] == t);
                        assert(all.drop_first() =~= rest.0);
                        assert forall|j: int| 0 <= j < all.len() implies rolled_up(
                            #[trigger] all[j],
                        ) by {
                            if j > 0 {
                                assert(all[j] == rest.0[j - 1]);
                            }
                        }
                    },
                }
            },
        }
    }
}

/// Each directory of the reconstructed tree totals its children's sizes
/// plus its own data size, level by level (the rollup a directory walk
/// computes); at the root, exactly the root record's own data size plus its
/// children's.
pub proof fn law_sizes_roll_up(rs: Seq<ParsedRecord>, root: u64, root_name: Seq<char>)
    ensures
        rolled_up(volume_tree(rs, root, root_name)),
        volume_tree(rs, root, root_name).size == (match lookup(rs, root, root) {
            Some(k) => rs[k].data_size as nat,
            None => 0nat,
        }) + shapes_total(volume_tree(rs, root, root_name).children),
{
    let (is_dir, own) = match lookup(rs, root, root) {
        Some(k) => (rs[k].is_dir, rs[k].data_size as nat),
        None => (true, 0nat),
    };
    lemma_node_rolled(
        rs,
        root,
        numbers_in_play(rs, root),
        root,
        root_name,
        is_dir,
        own,
        false,
        Set::empty(),
    );
}

/// The tree `reconstruct` produces for `records` anchored at `root`.
pub open spec fn volume_tree(rs: Seq<ParsedRecord>, root: u64, root_name: Seq<char>) -> TreeShape {
    let (is_dir, own) = match lookup(rs, root, root) {
        Some(k) => (rs[k].is_dir, rs[k].data_size as nat),
        None => (true, 0nat),
    };
    build_node(rs, root, numbers_in_play(rs, root), root, root_name, is_dir, own, false, Set::empty()).0
}

/// `by` maps each number to the index of its standing record among the
/// first `n` records.
pub open spec fn index_ok(rs: Seq<ParsedRecord>, root: u64, by: Map<u64, usize>, n: int) -> bool {
    forall|num: u64|
        #![trigger by.contains_key(num)]
        #![trigger lookup_upto(rs, root, num, n)]
        (by.contains_key(num) <==> lookup_upto(rs, root, num, n) is Some) && (by.contains_key(num)
            ==> lookup_upto(rs, root, num, n) == Some(by[num] as int))
}

/// `slots` assigns each parent with children its own list in `lists`, which
/// holds exactly its children among the first `n` records.
pub open spec fn lists_ok(
    rs: Seq<ParsedRecord>,
    root: u64,
    slots: Map<u64, usize>,
    lists: Seq<Vec<u64>>,
    n: int,
) -> bool {
    &&& forall|p: u64|
        #![trigger slots.contains_key(p)]
        slots.contains_key(p) ==> slots[p] < lists.len() && lists[slots[p] as int]@
            == child_list_upto(rs, root, p, n)
    &&& forall|p: u64|
        #![trigger child_list_upto(rs, root, p, n)]
        !slots.contains_key(p) ==> child_list_upto(rs, root, p, n) == Seq::<u64>::empty()
    &&& forall|p: u64, q: u64|
        #![trigger slots.contains_key(p), slots.contains_key(q)]
        slots.contains_key(p) && slots.contains_key(q) && p != q ==> slots[p] != slots[q]
}

/// Indexes the usable records by number and buckets child numbers by the
/// directory their display name lives in.
fn build_tables(records: &[ParsedRecord], root: u64) -> (tables: (
    HashMap<u64, usize>,
    HashMap<u64, usize>,
    Vec<Vec<u64>>,
))
    ensures
        index_ok(records@, root, tables.0@, records@.len() as int),
        lists_ok(records@, root, tables.1@, tables.2@, records@.len() as int),
{
    broadcast use vstd::std_specs::hash::group_hash_axioms;

    let mut by_number: HashMap<u64, usize> = HashMap::new();
    let mut slots: HashMap<u64, usize> = HashMap::new();
    let mut lists: Vec<Vec<u64>> = Vec::new();
    let n = records.len();
    let mut k: usize = 0;
    while k < n
        invariant
            k <= n,
            n == records@.len(),
            index_ok(records@, root, by_number@, k as int),
            lists_ok(records@, root, slots@, lists@, k as int),
        decreases n - k,
    {
        let r = &records[k];
        let ghost rs = records@;
        let ghost old_by = by_number@;
        let ghost old_slots = slots@;
        let ghost old_lists = lists@;
        if r.in_use && r.is_base && !(r.record_number < FIRST_USER_RECORD && r.record_number
            != root) {
            let num = r.record_number;
            by_number.insert(num, k);
            if num != root {
                match r.best_name() {
                    Some(fname) => {
                        let parent = fname.parent;
                        match slots.get(&parent) {
                            Some(idx) => {
                                let idx = *idx;
                                lists[idx].push(num);
                            },
                            None => {
                                slots.insert(parent, lists.len());
                                let mut fresh: Vec<u64> = Vec::new();
                                fresh.push(num);
                                lists.push(fresh);
                            },
                        }
                        proof {
                            assert(parent_of(rs[k as int]) == Some(parent));
                        }
                    },
                    None => {
                        proof {
                            assert(parent_of(rs[k as int]) is None);
                        }
                    },
                }
            }
        }
        proof {
            let kk = k as int + 1;
            assert forall|num: u64|
                #![trigger by_number@.contains_key(num)]
                #![trigger lookup_upto(rs, root, num, kk)]
                (by_number@.contains_key(num) <==> lookup_upto(rs, root, num, kk) is Some) && (
                by_number@.contains_key(num) ==> lookup_upto(rs, root, num, kk) == Some(
                    by_number@[num] as int,
                )) by {
                assert(old_by.contains_key(num) <==> lookup_upto(rs, root, num, k as int) is Some);
            }
            assert forall|p: u64|
                #![trigger slots@.contains_key(p)]
                slots@.contains_key(p) implies slots@[p] < lists@.len() && lists@[slots@[p] as int]@
                    == child_list_upto(rs, root, p, kk) by {
                if old_slots.contains_key(p) {
                    assert(old_lists[old_slots[p] as int]@ == child_list_upto(rs, root, p, k as int));
                } else {
                    assert(child_list_upto(rs, root, p, k as int) == Seq::<u64>::empty());
                }
            }
            assert forall|p: u64|
                #![trigger child_list_upto(rs, root, p, kk)]
                !slots@.contains_key(p) implies child_list_upto(rs, root, p, kk) == Seq::<
                    u64,
                >::empty() by {
                assert(!old_slots.contains_key(p));
                assert(child_list_upto(rs, root, p, k as int) == Seq::<u64>::empty());
            }
            assert forall|p: u64, q: u64|
                #![trigger slots@.contains_key(p), slots@.contains_key(q)]
                slots@.contains_key(p) && slots@.contains_key(q) && p != q implies slots@[p]
                    != slots@[q] by {
                if old_slots.contains_key(p) && old_slots.contains_key(q) {
                } else if old_slots.contains_key(p) {
                    assert(old_slots[p] < old_lists.len());
                } else if old_slots.contains_key(q) {
                    assert(old_slots[q] < old_lists.len());
                }
            }
        }
        k += 1;
    }
    (by_number, slots, lists)
}

/// The shapes, visited set and total of `done` followed by `rest`.
pub open spec fn after_prefix(done: Seq<TreeShape>, sum: nat, rest: (Seq<TreeShape>, Set<u64>, nat)) -> (
    Seq<TreeShape>,
    Set<u64>,
    nat,
) {
    (done + rest.0, rest.1, sum + rest.2)
}

fn build_entry(
    records: &[ParsedRecord],
    root: u64,
    by_number: &HashMap<u64, usize>,
    slots: &HashMap<u64, usize>,
    lists: &Vec<Vec<u64>>,
    num: u64,
    name: String,
    path: PathBuf,
    is_dir: bool,
    own: u64,
    reparse: bool,
    visited: &mut HashSet<u64>,
    Ghost(u): Ghost<Set<u64>>,
    Ghost(fuel): Ghost<nat>,
) -> (res: Option<Entry>)
    requires
        fuel == unvisited(u, old(visited)@),
        index_ok(records@, root, by_number@, records@.len() as int),
        lists_ok(records@, root, slots@, lists@, records@.len() as int),
        u == numbers_in_play(records@, root),
        u.contains(num),
    ensures
        match res {
            Some(e) => {
                &&& shaped(
                    e,
                    build_node(records@, root, u, num, name@, is_dir, own as nat, reparse, old(visited)@).0,
                )
                &&& final(visited)@ == build_node(
                    records@,
                    root,
                    u,
                    num,
                    name@,
                    is_dir,
                    own as nat,
                    reparse,
                    old(visited)@,
                ).1
                &&& e.path == path
                &&& paths_joined(e)
            },
            None => build_node(records@, root, u, num, name@, is_dir, own as nat, reparse, old(visited)@).0.size
                > u64::MAX,
        },
    decreases fuel,
{
    broadcast use vstd::std_specs::hash::group_hash_axioms;

    let ghost rs = records@;
    let ghost v_in = visited@;
    proof {
        let nums = rs.map_values(|r: ParsedRecord| r.record_number);
        vstd::seq_lib::seq_to_set_is_finite(nums);
        assert(u.finite());
    }
    let ghost whole = build_node(rs, root, u, num, name@, is_dir, own as nat, reparse, v_in);
    let mut total: u64 = own;
    let mut children: Vec<Entry> = Vec::new();
    if is_dir && !reparse && visited.insert(num) {
        let ghost v0 = visited@;
        let ghost kids_spec = build_kids(rs, root, u, child_list(rs, root, num), 0, v0);
        proof {
            lemma_unvisited_drops(u, v_in, num);
            assert(whole.0.size == own + kids_spec.2);
            assert(whole.1 == kids_spec.1);
            assert(whole.0.children == kids_spec.0);
        }
        match slots.get(&num) {
            Some(idx) => {
                let kids = &lists[*idx];
                let nk = kids.len();
                let mut j: usize = 0;
                let ghost mut done: Seq<TreeShape> = seq![];
                while j < nk
                    invariant
                        j <= nk,
                        nk == kids@.len(),
                        kids@ == child_list(rs, root, num),
                        rs == records@,
                        index_ok(rs, root, by_number@, rs.len() as int),
                        lists_ok(rs, root, slots@, lists@, rs.len() as int),
                        u == numbers_in_play(rs, root),
                        u.finite(),
                        v0.subset_of(visited@),
                        unvisited(u, v0) < unvisited(u, v_in),
                        fuel == unvisited(u, v_in),
                        kids_spec == build_kids(rs, root, u, kids@, 0, v0),
                        kids_spec == after_prefix(
                            done,
                            (total - own) as nat,
                            build_kids(rs, root, u, kids@, j as int, visited@),
                        ),
                        own <= total,
                        whole.0.size == own + kids_spec.2,
                        v_in == old(visited)@,
                        whole == build_node(rs, root, u, num, name@, is_dir, own as nat, reparse, v_in),
                        children@.len() == done.len(),
                        forall|c: int| 0 <= c < done.len() ==> shaped(#[trigger] children@[c], done[c]),
                        forall|c: int|
                            0 <= c < children@.len() ==> (#[trigger] children@[c]).path == joined(
                                path,
                                children@[c].name@,
                            ) && paths_joined(children@[c]),
                    decreases nk - j,
                {
                    let child_num = kids[j];
                    let ghost vj = visited@;
                    let ghost rest = build_kids(rs, root, u, kids@, j as int, vj);
                    proof {
                        assert(child_list(rs, root, num).contains(child_num)) by {
                            assert(kids@[j as int] == child_num);
                        }
                        lemma_child_in_play(rs, root, num, child_num);
                    }
                    match by_number.get(&child_num) {
                        None => {
                            proof {
                                assert(lookup(rs, root, child_num) is None);
                            }
                        },
                        Some(k) => {
                            let k = *k;
                            proof {
                                assert(lookup(rs, root, child_num) == Some(k as int));
                                lemma_lookup_in_range(rs, root, child_num, rs.len() as int);
                            }
                            let rec = &records[k];
                            match rec.best_name() {
                                None => {},
                                Some(fname) => {
                                    let child_path = join_name(&path, &fname.name);
                                    let ghost t = build_node(
                                        rs,
                                        root,
                                        u,
                                        child_num,
                                        fname.name@,
                                        rec.is_dir,
                                        rec.data_size as nat,
                                        rec.is_reparse,
                                        vj,
                                    );
                                    proof {
                                        lemma_node_grows(
                                            rs,
                                            root,
                                            u,
                                            child_num,
                                            fname.name@,
                                            rec.is_dir,
                                            rec.data_size as nat,
                                            rec.is_reparse,
                                            vj,
                                        );
                                        lemma_unvisited_shrinks(u, v0, vj);
                                        assert(vj.union(t.1) =~= t.1);
                                        assert(unvisited(u, visited@) < unvisited(u, v_in));
                                    }
                                    proof {
                                        assert(rest.2 == t.0.size + build_kids(rs, root, u, kids@, j + 1, t.1).2);
                                    }
                                    let child = match build_entry(
                                        records,
                                        root,
                                        by_number,
                                        slots,
                                        lists,
                                        child_num,
                                        fname.name.clone(),
                                        child_path,
                                        rec.is_dir,
                                        rec.data_size,
                                        rec.is_reparse,
                                        visited,
                                        Ghost(u),
                                        Ghost(unvisited(u, vj)),
                                    ) {
                                        Some(c) => c,
                                        None => {
                                            proof {
                                                assert(kids_spec.2 == (total - own) + rest.2);
                                                assert(t.0.size > u64::MAX);
                                                assert(whole.0.size > u64::MAX);
                                            }
                                            return None;
                                        },
                                    };
                                    total = match total.checked_add(child.size) {
                                        Some(sum) => sum,
                                        None => {
                                            proof {
                                                assert(child.size == t.0.size);
                                                assert(kids_spec.2 == (total - own) + rest.2);
                                                assert(whole.0.size > u64::MAX);
                                            }
                                            return None;
                                        },
                                    };
                                    children.push(child);
                                    proof {
                                        done = done.push(t.0);
                                        assert(done.len() == children@.len());
                                        assert forall|c: int|
                                            0 <= c < done.len() implies shaped(
                                            #[trigger] children@[c],
                                            done[c],
                                        ) by {
                                            if c < done.len() - 1 {
                                            }
                                        }
                                        assert(seq![t.0] + build_kids(rs, root, u, kids@, j + 1, visited@).0
                                            =~= rest.0);
                                        assert(done.drop_last() + rest.0 =~= done + build_kids(
                                            rs,
                                            root,
                                            u,
                                            kids@,
                                            j + 1,
                                            visited@,
                                        ).0);
                                    }
                                },
                            }
                        },
                    }
                    j += 1;
                }
                proof {
                    assert(done + seq![] =~= done);
                }
            },
            None => {
                proof {
                    assert(child_list(rs, root, num) == Seq::<u64>::empty());
                }
            },
        }
    }
    Some(Entry { name, path, size: total, is_dir, children })
}

/// Rolls a flat set of parsed records up into an [`Entry`] tree rooted at
/// `root_record`: deleted, extension and reserved metadata records are
/// dropped; each record appears under the directory its display name lives
/// in, counted once; reparse points are leaves; a directory already
/// expanded is not expanded again; every directory's size is its own data
/// size plus its children's. Children keep record order.
/// `None` when some directory's total does not fit in 64 bits.
pub fn try_reconstruct(
    records: &[ParsedRecord],
    root_record: u64,
    root_name: String,
    root_path: PathBuf,
) -> (tree: Option<Entry>)
    ensures
        match tree {
            Some(t) => shaped(t, volume_tree(records@, root_record, root_name@)) && t.path == root_path
                && paths_joined(t),
            None => volume_tree(records@, root_record, root_name@).size > u64::MAX,
        },
{
    broadcast use vstd::std_specs::hash::group_hash_axioms;

    let (by_number, slots, lists) = build_tables(records, root_record);
    let ghost rs = records@;
    let ghost u = numbers_in_play(rs, root_record);
    let (root_is_dir, root_own) = match by_number.get(&root_record) {
        Some(k) => {
            proof {
                lemma_lookup_in_range(rs, root_record, root_record, rs.len() as int);
            }
            (records[*k].is_dir, records[*k].data_size)
        },
        None => (true, 0),
    };
    let mut visited: HashSet<u64> = HashSet::new();
    proof {
        assert(u.contains(root_record));
        assert(visited@ == Set::<u64>::empty());
    }
    build_entry(
        records,
        root_record,
        &by_number,
        &slots,
        &lists,
        root_record,
        root_name,
        root_path,
        root_is_dir,
        root_own,
        false,
        &mut visited,
        Ghost(u),
        Ghost(unvisited(u, Set::empty())),
    )
}

/// [`try_reconstruct`] on records whose volume total fits in 64 bits.
pub fn reconstruct(records: &[ParsedRecord], root_record: u64, root_name: String, root_path: PathBuf) -> (tree: Entry)
    requires
        volume_tree(records@, root_record, root_name@).size <= u64::MAX,
    ensures
        shaped(tree, volume_tree(records@, root_record, root_name@)),
        tree.path == root_path,
        paths_joined(tree),
{
    match try_reconstruct(records, root_record, root_name, root_path) {
        Some(t) => t,
        None => vstd::pervasive::unreached(),
    }
}

pub proof fn lemma_lookup_in_range(rs: Seq<ParsedRecord>, root: u64, num: u64, n: int)
    requires
        n <= rs.len(),
    ensures
        lookup_upto(rs, root, num, n) matches Some(k) ==> 0 <= k < n && kept(rs[k], root)
            && rs[k].record_number == num,
    decreases n,
{
    if n > 0 {
        lemma_lookup_in_range(rs, root, num, n - 1);
    }
}

pub proof fn lemma_child_in_play(rs: Seq<ParsedRecord>, root: u64, parent: u64, x: u64)
    requires
        child_list(rs, root, parent).contains(x),
    ensures
        numbers_in_play(rs, root).contains(x),
{
    lemma_child_list_from(rs, root, parent, x, rs.len() as int);
}

proof fn lemma_child_list_from(rs: Seq<ParsedRecord>, root: u64, parent: u64, x: u64, n: int)
    requires
        0 <= n <= rs.len(),
        child_list_upto(rs, root, parent, n).contains(x),
    ensures
        numbers_in_play(rs, root).contains(x),
    decreases n,
{
    let nums = rs.map_values(|r: ParsedRecord| r.record_number);
    if n > 0 {
        let prev = child_list_upto(rs, root, parent, n - 1);
        let r = rs[n - 1];
        if kept(r, root) && r.record_number != root && parent_of(r) == Some(parent) {
            if x == r.record_number {
                assert(nums[n - 1] == x);
                assert(nums.contains(x));
            } else {
                assert(prev.push(r.record_number).contains(x));
                let w = choose|w: int| 0 <= w < prev.push(r.record_number).len() && prev.push(
                    r.record_number,
                )[w] == x;
                assert(prev[w] == x);
                lemma_child_list_from(rs, root, parent, x, n - 1);
            }
        } else {
            lemma_child_list_from(rs, root, parent, x, n - 1);
        }
    }
}

/// The three-way capability decision: a filesystem other than NTFS is
/// unsupported; NTFS without elevation needs elevation; NTFS with elevation
/// is available.
pub fn resolve_availability(is_ntfs: bool, elevated: bool) -> (a: Availability)
    ensures
        a == (if !is_ntfs {
            Availability::UnsupportedFilesystem
        } else if !elevated {
            Availability::RequiresElevation
        } else {
            Availability::Available
        }),
{
    if !is_ntfs {
        Availability::UnsupportedFilesystem
    } else if !elevated {
        Availability::RequiresElevation
    } else {
        Availability::Available
    }
}

/// `n` backslashes.
pub open spec fn backslashes(n: nat) -> Seq<char> {
    Seq::new(n, |i: int| '\\')
}

/// The quoted form of `s` between the quotes, `pending` backslashes having
/// been read before it: a backslash run is written as is unless a quote
/// (doubled, plus one to escape the quote) or the end (doubled, so it does
/// not escape the closing quote) follows it.
pub open spec fn quote_from(s: Seq<char>, pending: nat) -> Seq<char>
    decreases s.len(),
{
    if s.len() == 0 {
        backslashes(2 * pending)
    } else if s[0] == '\\' {
        quote_from(s.drop_first(), pending + 1)
    } else if s[0] == '"' {
        backslashes(2 * pending + 1) + seq!['"'] + quote_from(s.drop_first(), 0)
    } else {
        backslashes(pending) + seq![s[0]] + quote_from(s.drop_first(), 0)
    }
}

/// `s` as one double-quoted Windows command-line argument.
pub open spec fn quoted_arg(s: Seq<char>) -> Seq<char> {
    seq!['"'] + quote_from(s, 0) + seq!['"']
}

/// How a Windows command line reads the text after an opening quote,
/// `pending` backslashes having been read: `2n` backslashes and a quote give
/// `n` backslashes and close the argument, `2n + 1` and a quote give `n`
/// backslashes and a literal quote, and backslashes before anything else
/// are literal.
pub open spec fn unquote_from(t: Seq<char>, pending: nat) -> Seq<char>
    decreases t.len(),
{
    if t.len() == 0 {
        seq![]
    } else if t[0] == '\\' {
        unquote_from(t.drop_first(), pending + 1)
    } else if t[0] == '"' {
        if pending % 2 == 1 {
            backslashes(pending / 2) + seq!['"'] + unquote_from(t.drop_first(), 0)
        } else {
            backslashes(pending / 2)
        }
    } else {
        backslashes(pending) + seq![t[0]] + unquote_from(t.drop_first(), 0)
    }
}

/// The argument a Windows command line reads from text starting with a
/// quote.
pub open spec fn unquoted_arg(t: Seq<char>) -> Seq<char> {
    unquote_from(t.drop_first(), 0)
}

proof fn lemma_unquote_run(k: nat, rest: Seq<char>, pending: nat)
    ensures
        unquote_from(backslashes(k) + rest, pending) == unquote_from(rest, pending + k),
    decreases k,
{
    if k > 0 {
        let t = backslashes(k) + rest;
        assert(t[0] == '\\');
        assert(t.drop_first() =~= backslashes((k - 1) as nat) + rest);
        lemma_unquote_run((k - 1) as nat, rest, pending + 1);
    } else {
        assert(backslashes(0) + rest =~= rest);
    }
}

proof fn lemma_quote_round_trip(s: Seq<char>, b: nat, tail: Seq<char>)
    ensures
        unquote_from(quote_from(s, b) + seq!['"'] + tail, 0) == backslashes(b) + s,
    decreases s.len(),
{
    let q = seq!['"'] + tail;
    if s.len() == 0 {
        assert(quote_from(s, b) + seq!['"'] + tail =~= backslashes(2 * b) + q);
        lemma_unquote_run(2 * b, q, 0);
        assert(q[0] == '"');
        assert((2 * b) % 2 == 0);
        assert((2 * b) / 2 == b);
        assert(backslashes(b) + s =~= backslashes(b));
    } else {
        let r = s.drop_first();
        if s[0] == '\\' {
            lemma_quote_round_trip(r, b + 1, tail);
            assert(backslashes(b + 1) + r =~= backslashes(b) + s);
        } else if s[0] == '"' {
            let after = quote_from(r, 0) + seq!['"'] + tail;
            assert(quote_from(s, b) + seq!['"'] + tail =~= backslashes(2 * b + 1) + (seq!['"']
                + after));
            lemma_unquote_run(2 * b + 1, seq!['"'] + after, 0);
            assert((seq!['"'] + after).drop_first() =~= after);
            assert((2 * b + 1) % 2 == 1);
            assert((2 * b + 1) / 2 == b);
            lemma_quote_round_trip(r, 0, tail);
            assert(backslashes(0) + r =~= r);
            assert(backslashes(b) + seq!['"'] + r =~= backslashes(b) + s);
        } else {
            let after = quote_from(r, 0) + seq!['"'] + tail;
            assert(quote_from(s, b) + seq!['"'] + tail =~= backslashes(b) + (seq![s[0]] + after));
            lemma_unquote_run(b, seq![s[0]] + after, 0);
            assert((seq![s[0]] + after).drop_first() =~= after);
            lemma_quote_round_trip(r, 0, tail);
            assert(backslashes(0) + r =~= r);
            assert(backslashes(b) + seq![s[0]] + r =~= backslashes(b) + s);
        }
    }
}

/// Quoting an argument for a Windows command line and reading it back the
/// way the relaunched process does gives the argument unchanged.
pub proof fn law_quote_round_trip(s: Seq<char>)
    ensures
        unquoted_arg(quoted_arg(s)) == s,
{
    let q = quoted_arg(s);
    assert(q.drop_first() =~= quote_from(s, 0) + seq!['"'] + Seq::<char>::empty());
    lemma_quote_round_trip(s, 0, Seq::<char>::empty());
    assert(backslashes(0) + s =~= s);
}

/// Appends `n` backslashes.
fn push_backslashes(out: &mut String, n: usize)
    ensures
        final(out)@ == old(out)@ + backslashes(n as nat),
{
    let mut i: usize = 0;
    while i < n
        invariant
            i <= n,
            out@ == old(out)@ + backslashes(i as nat),
        decreases n - i,
    {
        push_char(out, '\\');
        i += 1;
        proof {
            assert(out@ =~= old(out)@ + backslashes(i as nat));
        }
    }
}

/// Wraps `arg` in double quotes for a Windows command line so that it reads
/// back unchanged ([`law_quote_round_trip`]): a run of backslashes before a
/// quote or before the closing quote is doubled, and a quote is escaped.
pub fn quote_windows_arg(arg: &str) -> (q: String)
    ensures
        q@ == quoted_arg(arg@),
{
    let n = arg.unicode_len();
    let mut out = String::new();
    push_char(&mut out, '"');
    let mut pending: usize = 0;
    let mut i: usize = 0;
    proof {
        assert(arg@.skip(0) =~= arg@);
    }
    while i < n
        invariant
            i <= n,
            n == arg@.len(),
            pending <= i,
            out@ + quote_from(arg@.skip(i as int), pending as nat) == seq!['"'] + quote_from(
                arg@,
                0,
            ),
        decreases n - i,
    {
        let c = arg.get_char(i);
        let ghost rest = arg@.skip(i as int);
        proof {
            assert(rest[0] == c);
            assert(rest.drop_first() =~= arg@.skip(i + 1));
        }
        if c == '\\' {
            pending += 1;
        } else if c == '"' {
            let ghost before = out@;
            push_backslashes(&mut out, pending);
            push_backslashes(&mut out, pending);
            push_char(&mut out, '\\');
            push_char(&mut out, '"');
            proof {
                assert(backslashes(pending as nat) + backslashes(pending as nat) + seq!['\\']
                    =~= backslashes(2 * pending as nat + 1));
                assert(out@ =~= before + backslashes(2 * pending as nat + 1) + seq!['"']);
            }
            pending = 0;
        } else {
            let ghost before = out@;
            push_backslashes(&mut out, pending);
            push_char(&mut out, c);
            proof {
                assert(out@ =~= before + backslashes(pending as nat) + seq![c]);
            }
            pending = 0;
        }
        i += 1;
    }
    let ghost before = out@;
    push_backslashes(&mut out, pending);
    push_backslashes(&mut out, pending);
    push_char(&mut out, '"');
    proof {
        assert(arg@.skip(n as int) =~= Seq::<char>::empty());
        assert(backslashes(pending as nat) + backslashes(pending as nat) =~= backslashes(
            2 * pending as nat,
        ));
        assert(out@ =~= before + backslashes(2 * pending as nat) + seq!['"']);
    }
    out
}

} // verus!
