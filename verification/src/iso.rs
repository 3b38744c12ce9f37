//! MODE2/2352 raw CD images: sector layout and the game's file table.
//!
//! PSX discs use raw sectors of 2352 bytes each; the user data is at offset 24,
//! 2048 bytes per sector. The game locates its files through its own table
//! (FSECT) of little-endian `u32` start sectors. This module holds the
//! arithmetic and the decoding; reading and writing the image file is done by
//! the caller, sector by sector.
use vstd::prelude::*;
use crate::bytes::u16_le_at;
use crate::e0::{
    container_size, fits_pointer_table, lemma_built_table_word, lemma_offset_units,
    lemma_slot_offsets, lemma_slot_size, slot_offset, spec_build_container, ALIGNMENT,
};

verus! {

pub const SECTOR_SIZE: usize = 2352;

pub const USER_OFFSET: usize = 24;

pub const USER_SIZE: usize = 2048;

/// Game file table LBA (FSECT = sector start for each game file)
pub const FSECT_LBA: u32 = 634;

/// Known file indices in the game's internal file table
pub const FILE_IDX_E0: usize = 273;

pub const FILE_IDX_E1: usize = 274;

pub const FILE_IDX_E2: usize = 275;

pub const FILE_IDX_E3: usize = 276;

pub const FILE_IDX_FONT: usize = 5;

/// The text containers: their indices in the file table, in order.
pub const TEXT_FILE_INDICES: [usize; 4] = [FILE_IDX_E0, FILE_IDX_E1, FILE_IDX_E2, FILE_IDX_E3];

/// A file system path, carried through as the caller gave it.
#[verifier::external_type_specification]
#[verifier::external_body]
pub struct ExPathBuf(std::path::PathBuf);

/// Handle to an opened ISO image (sector-based I/O)
pub struct IsoImage {
    pub path: std::path::PathBuf,
    pub sector_count: u32,
}

/// Why an image was refused.
#[derive(Debug, Clone, Copy, PartialEq, Eq, Structural)]
pub enum IsoError {
    /// The file size is not a whole number of raw sectors.
    NotRawImage { file_size: u64 },
}

/// Information about a game file
#[derive(Debug, Clone, Copy)]
pub struct GameFile {
    pub index: usize,
    pub name: &'static str,
    pub lba: u32,
    pub size: u32,
}

/// The byte offset of the user data of sector `lba` in the image.
pub open spec fn spec_user_data_offset(lba: int) -> int {
    lba * SECTOR_SIZE + USER_OFFSET
}

/// The number of sectors that hold `len` bytes of user data.
pub open spec fn spec_sectors_for(len: int) -> int {
    (len + USER_SIZE - 1) / (USER_SIZE as int)
}

/// The little-endian `u32` at byte `p`.
pub open spec fn u32_le_at(data: Seq<u8>, p: int) -> int {
    data[p] as int + 256 * (data[p + 1] as int) + 65536 * (data[p + 2] as int) + 16777216 * (
    data[p + 3] as int)
}

/// The last pointer of the run of growing non-zero pointers read from byte `p`
/// on, when the previous one was `last` (0 before the first).
pub open spec fn last_pointer_from(data: Seq<u8>, p: int, last: int) -> int
    decreases data.len() - p,
{
    if p < 0 || p + 2 > data.len() {
        last
    } else {
        let v = u16_le_at(data, p);
        if v == 0 || (last > 0 && v <= last) {
            last
        } else {
            last_pointer_from(data, p + 2, v)
        }
    }
}

/// The container size read from its first sector: the last pointer of its
/// pointer table, in bytes (0 when the table is empty).
pub open spec fn spec_container_size(first_sector: Seq<u8>) -> int {
    last_pointer_from(first_sector, 0, 0) * ALIGNMENT
}

/// The user data of sectors read for a file, trimmed to the file's size.
pub open spec fn spec_trim_file(sectors: Seq<u8>, size: int) -> Seq<u8> {
    if size <= sectors.len() {
        sectors.take(size)
    } else {
        sectors
    }
}

/// The user data that goes into sector `i` of a write: the next 2048 bytes of
/// `data`, zero-padded when fewer remain.
pub open spec fn spec_user_data_chunk(data: Seq<u8>, i: int) -> Seq<u8> {
    let start = i * USER_SIZE;
    let end = if start + USER_SIZE <= data.len() {
        start + USER_SIZE
    } else {
        data.len() as int
    };
    data.subrange(start, end) + Seq::new((USER_SIZE - (end - start)) as nat, |k: int| 0u8)
}

/// A blank raw sector with `user_data` at the user data offset.
pub open spec fn spec_raw_sector(user_data: Seq<u8>) -> Seq<u8> {
    Seq::new(
        SECTOR_SIZE as nat,
        |k: int|
            if USER_OFFSET <= k < USER_OFFSET + user_data.len() {
                user_data[k - USER_OFFSET]
            } else {
                0u8
            },
    )
}

/// The sector of the FSECT table that holds entry `index`, and the entry's
/// offset in that sector.
pub open spec fn spec_fsect_location(index: int) -> (int, int) {
    (
        (FSECT_LBA + ((index * 4) / (USER_SIZE as int)) % 0x1_0000_0000) as int,
        (index * 4) % (USER_SIZE as int),
    )
}

/// The table sector with FSECT entry `index` set to `value` (little-endian).
pub open spec fn spec_write_fsect_entry(sector: Seq<u8>, index: int, value: u32) -> Seq<u8> {
    let off = spec_fsect_location(index).1;
    let v = value as int;
    sector.update(off, (v % 256) as u8).update(off + 1, ((v / 256) % 256) as u8).update(
        off + 2,
        ((v / 65536) % 256) as u8,
    ).update(off + 3, (v / 16777216) as u8)
}

/// The FSECT entries that the table arithmetic can address: the byte offset
/// and the sector number fit their machine types.
pub open spec fn fsect_index_ok(index: int) -> bool {
    &&& 0 <= index
    &&& index * 4 <= usize::MAX
    &&& FSECT_LBA + ((index * 4) / (USER_SIZE as int)) % 0x1_0000_0000 <= u32::MAX
}

impl IsoImage {
    /// Accept an image of `file_size` bytes at `path` if it is a whole number of
    /// raw sectors.
    pub fn open(path: std::path::PathBuf, file_size: u64) -> (r: Result<IsoImage, IsoError>)
        ensures
            r is Err <==> file_size % (SECTOR_SIZE as u64) != 0,
            r is Err ==> r == Err::<IsoImage, IsoError>(IsoError::NotRawImage { file_size }),
            r matches Ok(image) ==> image.path == path && image.sector_count == (file_size
                / (SECTOR_SIZE as u64)) as u32,
    {
        if file_size % (SECTOR_SIZE as u64) != 0 {
            return Err(IsoError::NotRawImage { file_size });
        }
        let sector_count = (file_size / (SECTOR_SIZE as u64)) as u32;
        Ok(IsoImage { path, sector_count })
    }

    /// The byte offset of the user data of sector `lba`.
    pub fn user_data_offset(lba: u32) -> (off: u64)
        ensures
            off == spec_user_data_offset(lba as int),
    {
        lba as u64 * SECTOR_SIZE as u64 + USER_OFFSET as u64
    }

    /// The number of sectors that hold `len` bytes of user data.
    pub fn sectors_for(len: usize) -> (n: usize)
        ensures
            n == spec_sectors_for(len as int),
    {
        if len == 0 {
            0
        } else {
            (len - 1) / USER_SIZE + 1
        }
    }

    /// Read a game file: the user data of its sectors trimmed to its exact size.
    pub fn read_file(sectors: Vec<u8>, size: u32) -> (data: Vec<u8>)
        ensures
            data@ == spec_trim_file(sectors@, size as int),
    {
        let mut data = sectors;
        data.truncate(size as usize);
        data
    }

    /// The user data of sector `i` of a write of `data`, zero-padded to a full
    /// sector.
    pub fn user_data_chunk(data: &[u8], i: usize) -> (chunk: Vec<u8>)
        requires
            i < spec_sectors_for(data@.len() as int),
            data@.len() <= isize::MAX,
        ensures
            chunk@ == spec_user_data_chunk(data@, i as int),
    {
        assert(i * USER_SIZE <= data@.len()) by (nonlinear_arith)
            requires
                i < (data@.len() + USER_SIZE - 1) / (USER_SIZE as int),
        ;
        let src_start = i * USER_SIZE;
        let src_end = if data.len() - src_start >= USER_SIZE {
            src_start + USER_SIZE
        } else {
            data.len()
        };
        let mut chunk: Vec<u8> = Vec::with_capacity(USER_SIZE);
        let mut k = src_start;
        while k < src_end
            invariant
                src_start <= k <= src_end <= data@.len(),
                chunk@ == data@.subrange(src_start as int, k as int),
            decreases src_end - k,
        {
            chunk.push(data[k]);
            k += 1;
            assert(chunk@ =~= data@.subrange(src_start as int, k as int));
        }
        let ghost copied = chunk@;
        // Zero-pad remainder if chunk is short
        while chunk.len() < USER_SIZE
            invariant
                copied.len() <= chunk@.len() <= USER_SIZE,
                chunk@ == copied + Seq::new((chunk@.len() - copied.len()) as nat, |k: int| 0u8),
            decreases USER_SIZE - chunk@.len(),
        {
            chunk.push(0);
            assert(chunk@ =~= copied + Seq::new((chunk@.len() - copied.len()) as nat, |k: int| 0u8));
        }
        assert(chunk@ =~= spec_user_data_chunk(data@, i as int));
        chunk
    }

    /// A full raw sector (2352 bytes) that is blank but for `user_data` at the
    /// user data offset.
    pub fn raw_sector(user_data: &[u8]) -> (sector: Vec<u8>)
        requires
            user_data@.len() <= USER_SIZE,
        ensures
            sector@ == spec_raw_sector(user_data@),
    {
        let mut sector: Vec<u8> = Vec::with_capacity(SECTOR_SIZE);
        let mut k: usize = 0;
        while k < SECTOR_SIZE
            invariant
                k <= SECTOR_SIZE,
                user_data@.len() <= USER_SIZE,
                sector@ =~= spec_raw_sector(user_data@).take(k as int),
            decreases SECTOR_SIZE - k,
        {
            if USER_OFFSET <= k && k < USER_OFFSET + user_data.len() {
                sector.push(user_data[k - USER_OFFSET]);
            } else {
                sector.push(0);
            }
            k += 1;
            assert(sector@ =~= spec_raw_sector(user_data@).take(k as int));
        }
        assert(spec_raw_sector(user_data@).take(SECTOR_SIZE as int) =~= spec_raw_sector(
            user_data@,
        ));
        sector
    }

    /// The sector of the FSECT table that holds entry `index`, and the entry's
    /// offset in that sector.
    pub fn fsect_location(index: usize) -> (r: (u32, usize))
        requires
            fsect_index_ok(index as int),
        ensures
            r.0 == spec_fsect_location(index as int).0,
            r.1 == spec_fsect_location(index as int).1,
            r.1 + 4 <= USER_SIZE,
    {
        let sector_in_table = (index * 4) / USER_SIZE;
        let offset_in_sector = (index * 4) % USER_SIZE;
        assert((sector_in_table as u32) as int == sector_in_table as int % 0x1_0000_0000)
            by (bit_vector);
        assert(offset_in_sector % 4 == 0);
        (FSECT_LBA + sector_in_table as u32, offset_in_sector)
    }

    /// Read the uint32_le FSECT entry `index` from the table sector that holds
    /// it (`fsect_location(index).0`).
    pub fn read_fsect_entry(sector_data: &[u8], index: usize) -> (v: u32)
        requires
            fsect_index_ok(index as int),
            sector_data@.len() == USER_SIZE,
        ensures
            v as int == u32_le_at(sector_data@, spec_fsect_location(index as int).1),
    {
        let (_, off) = Self::fsect_location(index);
        sector_data[off] as u32 + (sector_data[off + 1] as u32) * 256 + (sector_data[off
            + 2] as u32) * 65536 + (sector_data[off + 3] as u32) * 16777216
    }

    /// Write `value` as the uint32_le FSECT entry `index` into the table sector
    /// that holds it; the caller writes the sector back.
    pub fn write_fsect_entry(sector_data: &mut Vec<u8>, index: usize, value: u32)
        requires
            fsect_index_ok(index as int),
            old(sector_data)@.len() == USER_SIZE,
        ensures
            final(sector_data)@ == spec_write_fsect_entry(old(sector_data)@, index as int, value),
    {
        let (_, off) = Self::fsect_location(index);
        let b0 = (value % 256) as u8;
        let b1 = ((value / 256) % 256) as u8;
        let b2 = ((value / 65536) % 256) as u8;
        let b3 = (value / 16777216) as u8;
        sector_data.set(off, b0);
        sector_data.set(off + 1, b1);
        sector_data.set(off + 2, b2);
        sector_data.set(off + 3, b3);
    }

    /// Determine container size by reading its pointer table from its first sector
    pub fn get_container_size(first_sector: &[u8]) -> (size: u32)
        ensures
            size as int == spec_container_size(first_sector@),
    {
        let mut last_ptr: u16 = 0;
        let mut p: usize = 0;
        while first_sector.len() >= 2 && p <= first_sector.len() - 2
            invariant
                p <= first_sector@.len(),
                last_pointer_from(first_sector@, 0, 0) == last_pointer_from(
                    first_sector@,
                    p as int,
                    last_ptr as int,
                ),
            ensures
                last_pointer_from(first_sector@, 0, 0) == last_ptr as int,
            decreases first_sector@.len() - p,
        {
            let v = first_sector[p] as u16 + (first_sector[p + 1] as u16) * 256;
            if v == 0 {
                break;
            }
            if last_ptr > 0 && v <= last_ptr {
                break;
            }
            last_ptr = v;
            p += 2;
        }
        (last_ptr as u32) * (ALIGNMENT as u32)
    }

    /// The text containers, given the start sector of each (from the file
    /// table) and its first sector: index, name, start sector and size.
    pub fn get_text_files(lbas: &[u32], first_sectors: &[Vec<u8>]) -> (files: Vec<GameFile>)
        requires
            lbas@.len() == 4,
            first_sectors@.len() == 4,
        ensures
            files@.len() == 4,
            forall|i: int|
                0 <= i < 4 ==> {
                    &&& (#[trigger] files@[i]).index == TEXT_FILE_INDICES@[i]
                    &&& files@[i].lba == lbas@[i]
                    &&& files@[i].size as int == spec_container_size(first_sectors@[i]@)
                },
            files@[0].name@ == "E0.BIN"@,
            files@[1].name@ == "E1.BIN"@,
            files@[2].name@ == "E2.BIN"@,
            files@[3].name@ == "E3.BIN"@,
    {
        let names: [&'static str; 4] = ["E0.BIN", "E1.BIN", "E2.BIN", "E3.BIN"];
        let mut result: Vec<GameFile> = Vec::new();
        let mut i: usize = 0;
        while i < 4
            invariant
                i <= 4,
                lbas@.len() == 4,
                first_sectors@.len() == 4,
                names@ == seq!["E0.BIN", "E1.BIN", "E2.BIN", "E3.BIN"],
                result@.len() == i,
                forall|j: int|
                    0 <= j < i ==> {
                        &&& (#[trigger] result@[j]).index == TEXT_FILE_INDICES@[j]
                        &&& result@[j].lba == lbas@[j]
                        &&& result@[j].size as int == spec_container_size(first_sectors@[j]@)
                        &&& result@[j].name == names@[j]
                    },
            decreases 4 - i,
        {
            let size = Self::get_container_size(first_sectors[i].as_slice());
            result.push(
                GameFile { index: TEXT_FILE_INDICES[i], name: names[i], lba: lbas[i], size },
            );
            i += 1;
        }
        result
    }
}


// ---------------------------------------------------------------------------
// Laws
// ---------------------------------------------------------------------------

/// Reading an FSECT entry back from a table sector after writing it gives the
/// value written, and every entry of the sector that does not overlap it keeps
/// its value.
pub proof fn lemma_fsect_write_then_read(sector: Seq<u8>, index: int, other: int, value: u32)
    requires
        sector.len() == USER_SIZE,
        fsect_index_ok(index),
        fsect_index_ok(other),
    ensures
        u32_le_at(spec_write_fsect_entry(sector, index, value), spec_fsect_location(index).1)
            == value,
        spec_write_fsect_entry(sector, index, value).len() == USER_SIZE,
        spec_fsect_location(other).1 != spec_fsect_location(index).1 ==> u32_le_at(
            spec_write_fsect_entry(sector, index, value),
            spec_fsect_location(other).1,
        ) == u32_le_at(sector, spec_fsect_location(other).1),
{
    let off = spec_fsect_location(index).1;
    let o2 = spec_fsect_location(other).1;
    assert(off % 4 == 0 && o2 % 4 == 0 && 0 <= off && off + 4 <= USER_SIZE && 0 <= o2 && o2 + 4
        <= USER_SIZE);
    let v = value as int;
    assert(v == v % 256 + 256 * ((v / 256) % 256) + 65536 * ((v / 65536) % 256) + 16777216 * (v
        / 16777216)) by (nonlinear_arith)
        requires
            0 <= v <= u32::MAX,
    ;
}

proof fn lemma_built_last_pointer(subs: Seq<Seq<u8>>, j: int)
    requires
        fits_pointer_table(subs),
        0 <= j <= subs.len() + 1,
    ensures
        last_pointer_from(
            spec_build_container(subs).take(USER_SIZE as int),
            2 * j,
            if j == 0 {
                0
            } else {
                (slot_offset(subs, (j - 1) as nat) / (ALIGNMENT as nat)) as int
            },
        ) == (slot_offset(subs, subs.len()) / (ALIGNMENT as nat)) as int,
    decreases subs.len() + 1 - j,
{
    let out = spec_build_container(subs);
    let first = out.take(USER_SIZE as int);
    let n = subs.len();
    lemma_built_table_word(subs, j);
    assert(u16_le_at(first, 2 * j) == u16_le_at(out, 2 * j));
    if j <= n {
        lemma_offset_units(subs, j as nat);
        if j > 0 {
            lemma_offset_units(subs, (j - 1) as nat);
            lemma_slot_size(subs[j - 1]);
            lemma_slot_offsets(subs, (j - 1) as nat, j as nat);
            let a = slot_offset(subs, (j - 1) as nat);
            let b = slot_offset(subs, j as nat);
            assert(a / 2048 < b / 2048) by (nonlinear_arith)
                requires
                    a == (a / 2048) * 2048,
                    b == (b / 2048) * 2048,
                    a + 2048 <= b,
            ;
        }
        lemma_built_last_pointer(subs, j + 1);
    }
}

/// The container size read from the first sector of a built container is the
/// size of that container, when the pointer table fits in its first unit and
/// every pointer fits in 16 bits.
pub proof fn lemma_container_size_of_built(subs: Seq<Seq<u8>>)
    requires
        fits_pointer_table(subs),
    ensures
        spec_container_size(spec_build_container(subs).take(USER_SIZE as int)) == container_size(
            subs,
        ),
{
    lemma_built_last_pointer(subs, 0);
    lemma_offset_units(subs, subs.len());
}

} // verus!
