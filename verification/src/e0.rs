//! E0/E1/E2/E3 container format.
//!
//! A container starts with a pointer table: little-endian `u16` values, each the
//! offset of a sub-file in `ALIGNMENT`-byte units, terminated by `0x0000`. The
//! last pointer marks the end of the data. Sub-files are aligned to `ALIGNMENT`.
use vstd::prelude::*;
use crate::bytes::{copy_bytes, read_u16_le, u16_le_at};

verus! {

/// Sub-files of a container start on multiples of this many bytes.
pub const ALIGNMENT: usize = 0x800;

/// The pointer table is only looked for in the first bytes of a container.
pub const POINTER_TABLE_SCAN_LIMIT: usize = 4096;

/// Parsed E0-style container
#[derive(Debug, Clone)]
pub struct Container {
    /// Raw sub-file data for each slot
    pub sub_files: Vec<Vec<u8>>,
}

impl View for Container {
    type V = Seq<Seq<u8>>;

    open spec fn view(&self) -> Seq<Seq<u8>> {
        self.sub_files@.map_values(|s: Vec<u8>| s@)
    }
}

// ---------------------------------------------------------------------------
// Reading a container
// ---------------------------------------------------------------------------

/// The pointer entries read from byte `p` on, when the previous entry was `last`
/// (0 before the first entry): reading stops at a zero value, at a value that
/// does not grow, at the end of the data, or at the scan limit.
pub open spec fn pointer_table_from(data: Seq<u8>, p: int, last: int) -> Seq<u16>
    decreases POINTER_TABLE_SCAN_LIMIT + 1 - p,
{
    if p < 0 || p + 2 > data.len() || p >= POINTER_TABLE_SCAN_LIMIT {
        seq![]
    } else {
        let v = u16_le_at(data, p);
        if v == 0 || v <= last {
            seq![]
        } else {
            seq![v as u16] + pointer_table_from(data, p + 2, v)
        }
    }
}

/// The pointer table at the start of a container.
pub open spec fn pointer_table(data: Seq<u8>) -> Seq<u16> {
    pointer_table_from(data, 0, 0)
}

/// The bytes of sub-file `i`: from pointer `i` to pointer `i + 1` (clipped to
/// the data), or nothing when that range is empty.
pub open spec fn slot_bytes(data: Seq<u8>, ptrs: Seq<u16>, i: int) -> Seq<u8> {
    let start = ptrs[i] as int * ALIGNMENT as int;
    let end_ptr = ptrs[i + 1] as int * ALIGNMENT as int;
    let end = if end_ptr < data.len() { end_ptr } else { data.len() as int };
    if start < end && start < data.len() {
        data.subrange(start, end)
    } else {
        seq![]
    }
}

/// The sub-files of a container image.
pub open spec fn spec_parse_container(data: Seq<u8>) -> Seq<Seq<u8>> {
    let ptrs = pointer_table(data);
    let n = if ptrs.len() == 0 { 0 } else { ptrs.len() - 1 };
    Seq::new(n as nat, |i: int| slot_bytes(data, ptrs, i))
}

/// Parse pointer table from container start, returns vec of uint16 values
fn parse_pointer_table(data: &[u8]) -> (ptrs: Vec<u16>)
    ensures
        ptrs@ == pointer_table(data@),
{
    let mut ptrs: Vec<u16> = Vec::new();
    let mut p: usize = 0;
    let mut last: u16 = 0;
    while p + 2 <= data.len() && p < POINTER_TABLE_SCAN_LIMIT
        invariant
            p <= POINTER_TABLE_SCAN_LIMIT + 1,
            p + 2 <= data.len() + 2,
            last == (if ptrs@.len() == 0 { 0 } else { ptrs@.last() }),
            pointer_table(data@) == ptrs@ + pointer_table_from(data@, p as int, last as int),
        ensures
            pointer_table_from(data@, p as int, last as int) =~= seq![],
        decreases POINTER_TABLE_SCAN_LIMIT + 2 - p,
    {
        let v = read_u16_le(data, p);
        if v == 0 {
            break;
        }
        if ptrs.len() > 0 && v <= last {
            break;
        }
        proof {
            assert(pointer_table_from(data@, p as int, last as int) == seq![v] + pointer_table_from(
                data@,
                p + 2,
                v as int,
            ));
            assert(ptrs@ + (seq![v] + pointer_table_from(data@, p + 2, v as int)) == ptrs@.push(v)
                + pointer_table_from(data@, p + 2, v as int));
        }
        ptrs.push(v);
        last = v;
        p += 2;
    }
    proof {
        assert(ptrs@ + seq![] =~= ptrs@);
    }
    ptrs
}

/// Parse a container from raw bytes
pub fn parse_container(data: &[u8]) -> (c: Container)
    ensures
        c@ == spec_parse_container(data@),
{
    let ptrs = parse_pointer_table(data);
    let num_sub_files = if ptrs.len() == 0 { 0 } else { ptrs.len() - 1 };
    let ghost target = spec_parse_container(data@);
    let mut sub_files: Vec<Vec<u8>> = Vec::with_capacity(num_sub_files);
    let mut i: usize = 0;
    while i < num_sub_files
        invariant
            ptrs@ == pointer_table(data@),
            num_sub_files == (if ptrs@.len() == 0 { 0 } else { ptrs@.len() - 1 }),
            target == spec_parse_container(data@),
            i <= num_sub_files,
            sub_files@.len() == i,
            forall|k: int| 0 <= k < i ==> (#[trigger] sub_files@[k])@ == target[k],
        decreases num_sub_files - i,
    {
        let start = ptrs[i] as usize * ALIGNMENT;
        let end = ptrs[i + 1] as usize * ALIGNMENT;
        let end = if end < data.len() { end } else { data.len() };
        if start < end && start < data.len() {
            sub_files.push(copy_bytes(&data[start..end]));
        } else {
            sub_files.push(Vec::new());
        }
        i += 1;
    }
    let c = Container { sub_files };
    assert(c@ =~= target);
    c
}

// ---------------------------------------------------------------------------
// Building a container
// ---------------------------------------------------------------------------

/// `n` rounded up to a multiple of `ALIGNMENT`.
pub open spec fn align_up(n: nat) -> nat {
    (((n + ALIGNMENT - 1) / (ALIGNMENT as int)) * ALIGNMENT) as nat
}

/// The room a sub-file takes in a built container: its length rounded up to
/// the alignment, and one full unit for an empty sub-file.
pub open spec fn slot_size(s: Seq<u8>) -> nat {
    if s.len() == 0 {
        ALIGNMENT as nat
    } else {
        align_up(s.len())
    }
}

/// Byte offset of sub-file `i` in a built container; the first one starts right
/// after the pointer-table unit, and `slot_offset(subs, subs.len())` is the end.
pub open spec fn slot_offset(subs: Seq<Seq<u8>>, i: nat) -> nat
    decreases i,
{
    if i == 0 {
        ALIGNMENT as nat
    } else {
        slot_offset(subs, (i - 1) as nat) + slot_size(subs[i - 1])
    }
}

/// Total size of the container built from `subs`.
pub open spec fn container_size(subs: Seq<Seq<u8>>) -> nat {
    slot_offset(subs, subs.len())
}

/// Pointer table entry `j` of a built container, as the `u16` that is stored.
pub open spec fn table_value(subs: Seq<Seq<u8>>, j: nat) -> int {
    (slot_offset(subs, j) / (ALIGNMENT as nat)) as int % 0x10000
}

/// The byte that the pointer table puts at position `b` (0 outside the table).
pub open spec fn table_byte(subs: Seq<Seq<u8>>, b: int) -> u8 {
    if 0 <= b < 2 * (subs.len() + 1) {
        let v = table_value(subs, (b / 2) as nat);
        if b % 2 == 0 {
            (v % 256) as u8
        } else {
            (v / 256) as u8
        }
    } else {
        0
    }
}

/// Byte `b` of a built container holds byte `b - slot_offset(subs, i)` of sub-file `i`.
pub open spec fn in_slot(subs: Seq<Seq<u8>>, i: int, b: int) -> bool {
    &&& 0 <= i < subs.len()
    &&& slot_offset(subs, i as nat) <= b < slot_offset(subs, i as nat) + subs[i].len()
}

/// Byte `b` of a built container holds sub-file data.
pub open spec fn covered(subs: Seq<Seq<u8>>, b: int) -> bool {
    exists|i: int| #[trigger] in_slot(subs, i, b)
}

/// Byte `b` of the container built from `subs`: sub-file data where a sub-file
/// lies, else the pointer table, else zero.
pub open spec fn built_byte(subs: Seq<Seq<u8>>, b: int) -> u8 {
    if covered(subs, b) {
        let i = choose|i: int| #[trigger] in_slot(subs, i, b);
        subs[i][b - slot_offset(subs, i as nat)]
    } else {
        table_byte(subs, b)
    }
}

/// The container image built from `subs`.
pub open spec fn spec_build_container(subs: Seq<Seq<u8>>) -> Seq<u8> {
    Seq::new(container_size(subs), |b: int| built_byte(subs, b))
}

proof fn lemma_align_mask(x: usize)
    ensures
        x & !0x7ffusize == (x / 0x800) * 0x800,
{
    assert(x & !0x7ffusize == (x / 0x800) * 0x800) by (bit_vector);
}

pub(crate) proof fn lemma_slot_size(s: Seq<u8>)
    ensures
        slot_size(s) >= ALIGNMENT,
        slot_size(s) >= s.len(),
        slot_size(s) % (ALIGNMENT as nat) == 0,
        s.len() > 0 ==> slot_size(s) < s.len() + ALIGNMENT,
{
    let n = s.len() as int;
    if n > 0 {
        let q = (n + 2047) / 2048;
        assert(q * 2048 <= n + 2047 < q * 2048 + 2048);
        assert(q >= 1);
        assert((q * 2048) % 2048 == 0) by (nonlinear_arith);
    }
}

/// Offsets grow by at least a slot from one sub-file to any later one.
pub(crate) proof fn lemma_slot_offsets(subs: Seq<Seq<u8>>, i: nat, j: nat)
    requires
        i < j <= subs.len(),
    ensures
        slot_offset(subs, i) + slot_size(subs[i as int]) <= slot_offset(subs, j),
    decreases j - i,
{
    lemma_slot_size(subs[j - 1]);
    if i + 1 < j {
        lemma_slot_offsets(subs, i, (j - 1) as nat);
    }
}

/// Every offset is a multiple of the alignment, at least one unit per slot.
pub(crate) proof fn lemma_slot_offset_aligned(subs: Seq<Seq<u8>>, i: nat)
    requires
        i <= subs.len(),
    ensures
        slot_offset(subs, i) % (ALIGNMENT as nat) == 0,
        slot_offset(subs, i) >= (i + 1) * ALIGNMENT,
    decreases i,
{
    if i > 0 {
        lemma_slot_offset_aligned(subs, (i - 1) as nat);
        lemma_slot_size(subs[i - 1]);
        let a = slot_offset(subs, (i - 1) as nat);
        let b = slot_size(subs[i - 1]);
        assert((a + b) % 2048 == 0) by {
            assert(a == (a / 2048) * 2048);
            assert(b == (b / 2048) * 2048);
            assert(a + b == (a / 2048 + b / 2048) * 2048) by (nonlinear_arith)
                requires
                    a == (a / 2048) * 2048,
                    b == (b / 2048) * 2048,
            ;
        }
    }
}

/// A byte of a built container belongs to at most one sub-file.
proof fn lemma_in_slot_unique(subs: Seq<Seq<u8>>, i: int, j: int, b: int)
    requires
        in_slot(subs, i, b),
        in_slot(subs, j, b),
    ensures
        i == j,
{
    if i < j {
        lemma_slot_size(subs[i]);
        lemma_slot_offsets(subs, i as nat, j as nat);
    } else if j < i {
        lemma_slot_size(subs[j]);
        lemma_slot_offsets(subs, j as nat, i as nat);
    }
}

/// Sub-file data lies inside the container, after the pointer-table unit.
proof fn lemma_in_slot_bounds(subs: Seq<Seq<u8>>, i: int, b: int)
    requires
        in_slot(subs, i, b),
    ensures
        ALIGNMENT <= b < container_size(subs),
{
    lemma_slot_size(subs[i]);
    lemma_slot_offset_aligned(subs, i as nat);
    lemma_slot_offsets(subs, i as nat, subs.len());
}

/// The size of the container that `build_container` makes, or `None` when it
/// does not fit in memory addresses.
pub fn built_size(container: &Container) -> (r: Option<usize>)
    ensures
        r == (if container_size(container@) <= usize::MAX {
            Some(container_size(container@) as usize)
        } else {
            None::<usize>
        }),
{
    let ghost subs = container@;
    let n = container.sub_files.len();
    let mut current: usize = ALIGNMENT;
    let mut k: usize = 0;
    while k < n
        invariant
            subs == container@,
            n == subs.len(),
            k <= n,
            current == slot_offset(subs, k as nat),
        decreases n - k,
    {
        let len = container.sub_files[k].len();
        assert(len == subs[k as int].len());
        proof {
            lemma_slot_size(subs[k as int]);
            if k + 1 < n {
                lemma_slot_offsets(subs, (k + 1) as nat, n as nat);
            }
        }
        let slot = if len == 0 {
            ALIGNMENT
        } else {
            match len.checked_add(ALIGNMENT - 1) {
                Some(x) => x / ALIGNMENT * ALIGNMENT,
                None => {
                    proof {
                        lemma_slot_offsets(subs, k as nat, n as nat);
                    }
                    return None;
                },
            }
        };
        assert(slot == slot_size(subs[k as int]));
        match current.checked_add(slot) {
            Some(next) => {
                current = next;
            },
            None => {
                proof {
                    lemma_slot_offsets(subs, k as nat, n as nat);
                }
                return None;
            },
        }
        k += 1;
    }
    Some(current)
}

/// Rebuild container from sub-files back to raw bytes
pub fn build_container(container: &Container) -> (out: Vec<u8>)
    requires
        container_size(container@) <= usize::MAX,
    ensures
        out@ == spec_build_container(container@),
{
    let ghost subs = container@;
    let n = container.sub_files.len();
    proof {
        lemma_slot_offset_aligned(subs, n as nat);
    }
    let data_start = ALIGNMENT;

    // Calculate offsets for each sub-file
    let mut offsets: Vec<usize> = Vec::with_capacity(n + 1);
    let mut current = data_start;
    let mut k: usize = 0;
    while k < n
        invariant
            subs == container@,
            n == subs.len(),
            container_size(subs) <= usize::MAX,
            k <= n,
            offsets@.len() == k,
            forall|j: int| 0 <= j < k ==> offsets@[j] == slot_offset(subs, j as nat),
            current == slot_offset(subs, k as nat),
        decreases n - k,
    {
        let sf = &container.sub_files[k];
        assert(sf@ == subs[k as int]);
        proof {
            lemma_slot_size(subs[k as int]);
            lemma_slot_offsets(subs, k as nat, n as nat);
            lemma_align_mask((sf.len() + ALIGNMENT - 1) as usize);
        }
        offsets.push(current);
        let aligned_size = (sf.len() + ALIGNMENT - 1) & !(ALIGNMENT - 1);
        current += if sf.len() == 0 { ALIGNMENT } else { aligned_size };
        k += 1;
    }
    offsets.push(current);  // end-of-data pointer

    let total_size = current;
    let mut out: Vec<u8> = vec![0u8; total_size];
    assert(forall|b: int| 0 <= b < total_size ==> out@[b] == 0u8);

    // Write pointer table
    let mut i: usize = 0;
    while i < offsets.len()
        invariant
            subs == container@,
            n == subs.len(),
            offsets@.len() == n + 1,
            forall|j: int| 0 <= j <= n ==> offsets@[j] == slot_offset(subs, j as nat),
            total_size == container_size(subs),
            total_size >= (n + 1) * ALIGNMENT,
            out@.len() == total_size,
            i <= n + 1,
            forall|b: int|
                0 <= b < total_size ==> #[trigger] out@[b] == (if b < 2 * i {
                    table_byte(subs, b)
                } else {
                    0u8
                }),
        decreases n + 1 - i,
    {
        let off = offsets[i];
        let q = off / ALIGNMENT;
        assert((q as u16) as int == q as int % 0x10000) by (bit_vector);
        let ptr_val = q as u16;
        let table_off = i * 2;
        if table_off + 2 <= out.len() {
            out.set(table_off, (ptr_val % 256) as u8);
            out.set(table_off + 1, (ptr_val / 256) as u8);
        }
        proof {
            assert(table_off + 2 <= out@.len());
            assert forall|b: int| 0 <= b < total_size implies #[trigger] out@[b] == (if b < 2 * (i
                + 1) {
                table_byte(subs, b)
            } else {
                0u8
            }) by {
                if b == 2 * i || b == 2 * i + 1 {
                    assert(b / 2 == i);
                }
            }
        }
        i += 1;
    }
    // Terminator 0x0000 is already there (vec initialized to 0)

    // Write sub-files
    let mut i: usize = 0;
    while i < n
        invariant
            subs == container@,
            n == subs.len(),
            offsets@.len() == n + 1,
            forall|j: int| 0 <= j <= n ==> offsets@[j] == slot_offset(subs, j as nat),
            total_size == container_size(subs),
            out@.len() == total_size,
            i <= n,
            forall|j: int, b: int|
                #![trigger in_slot(subs, j, b)]
                0 <= j < i && in_slot(subs, j, b) ==> out@[b] == subs[j][b - slot_offset(
                    subs,
                    j as nat,
                )],
            forall|b: int|
                0 <= b < total_size && (forall|j: int|
                    0 <= j < i ==> !#[trigger] in_slot(subs, j, b)) ==> #[trigger] out@[b]
                    == table_byte(subs, b),
        decreases n - i,
    {
        let sf = &container.sub_files[i];
        assert(sf@ == subs[i as int]);
        let off = offsets[i];
        proof {
            lemma_slot_size(subs[i as int]);
            lemma_slot_offsets(subs, i as nat, n as nat);
        }
        if sf.len() > 0 {
            let mut k: usize = 0;
            while k < sf.len()
                invariant
                    subs == container@,
                    n == subs.len(),
                    i < n,
                    sf@ == subs[i as int],
                    off == slot_offset(subs, i as nat),
                    off + sf@.len() <= total_size,
                    total_size == container_size(subs),
                    out@.len() == total_size,
                    k <= sf@.len(),
                    forall|j: int, b: int|
                        #![trigger in_slot(subs, j, b)]
                        0 <= j < i && in_slot(subs, j, b) ==> out@[b] == subs[j][b - slot_offset(
                            subs,
                            j as nat,
                        )],
                    forall|b: int|
                        off <= b < off + k ==> #[trigger] out@[b] == sf@[b - off],
                    forall|b: int|
                        0 <= b < total_size && !(off <= b < off + k) && (forall|j: int|
                            0 <= j < i ==> !#[trigger] in_slot(subs, j, b)) ==> #[trigger] out@[b]
                            == table_byte(subs, b),
                decreases sf@.len() - k,
            {
                proof {
                    assert forall|j: int| 0 <= j < i implies !#[trigger] in_slot(
                        subs,
                        j,
                        off + k,
                    ) by {
                        if in_slot(subs, j, off + k) {
                            assert(in_slot(subs, i as int, off + k));
                            lemma_in_slot_unique(subs, i as int, j, off + k);
                        }
                    }
                }
                let ghost prev = out@;
                out.set(off + k, sf[k]);
                proof {
                    assert forall|j: int, b: int|
                        #![trigger in_slot(subs, j, b)]
                        0 <= j < i && in_slot(subs, j, b) implies out@[b] == subs[j][b
                        - slot_offset(subs, j as nat)] by {
                        if b == off + k {
                            assert(in_slot(subs, i as int, b));
                            lemma_in_slot_unique(subs, i as int, j, b);
                        }
                        lemma_in_slot_bounds(subs, j, b);
                    }
                }
                k += 1;
            }
        }
        proof {
            assert forall|j: int, b: int|
                #![trigger in_slot(subs, j, b)]
                0 <= j < i + 1 && in_slot(subs, j, b) implies out@[b] == subs[j][b - slot_offset(
                subs,
                j as nat,
            )] by {
                if j == i {
                    assert(off <= b < off + sf@.len());
                }
            }
            assert forall|b: int|
                0 <= b < total_size && (forall|j: int|
                    0 <= j < i + 1 ==> !#[trigger] in_slot(subs, j, b)) implies #[trigger] out@[b]
                == table_byte(subs, b) by {
                assert(!in_slot(subs, i as int, b));
            }
        }
        i += 1;
    }
    proof {
        assert forall|b: int| 0 <= b < total_size implies #[trigger] out@[b] == built_byte(
            subs,
            b,
        ) by {
            if covered(subs, b) {
                let j = choose|j: int| #[trigger] in_slot(subs, j, b);
                assert(in_slot(subs, j, b));
            } else {
                assert forall|j: int| 0 <= j < n implies !#[trigger] in_slot(subs, j, b) by {
                    if in_slot(subs, j, b) {
                        assert(covered(subs, b));
                    }
                }
            }
        }
        assert(out@ =~= spec_build_container(subs));
    }
    out
}


// ---------------------------------------------------------------------------
// Laws
// ---------------------------------------------------------------------------

/// A sub-file as it reads back from a built container: zero-padded to its slot.
pub open spec fn padded(s: Seq<u8>) -> Seq<u8> {
    s + Seq::new((slot_size(s) - s.len()) as nat, |k: int| 0u8)
}

/// The sub-file lists whose built container can be read back: the pointer
/// table and its terminator fit in the first unit, and every pointer fits in
/// 16 bits.
pub open spec fn fits_pointer_table(subs: Seq<Seq<u8>>) -> bool {
    &&& subs.len() + 2 <= ALIGNMENT / 2
    &&& container_size(subs) <= 0xFFFF * ALIGNMENT
}

pub(crate) proof fn lemma_offset_units(subs: Seq<Seq<u8>>, j: nat)
    requires
        j <= subs.len(),
    ensures
        slot_offset(subs, j) == (slot_offset(subs, j) / (ALIGNMENT as nat)) * ALIGNMENT,
        slot_offset(subs, j) / (ALIGNMENT as nat) >= j + 1,
{
    lemma_slot_offset_aligned(subs, j);
}

/// The 16-bit words at the start of a built container are its pointers,
/// followed by a zero terminator.
pub(crate) proof fn lemma_built_table_word(subs: Seq<Seq<u8>>, j: int)
    requires
        fits_pointer_table(subs),
        0 <= j <= subs.len() + 1,
    ensures
        2 * j + 2 <= spec_build_container(subs).len(),
        u16_le_at(spec_build_container(subs), 2 * j) == (if j <= subs.len() {
            slot_offset(subs, j as nat) / (ALIGNMENT as nat)
        } else {
            0
        }),
{
    let out = spec_build_container(subs);
    let n = subs.len();
    lemma_slot_offset_aligned(subs, n);
    assert(!covered(subs, 2 * j)) by {
        if covered(subs, 2 * j) {
            let i = choose|i: int| #[trigger] in_slot(subs, i, 2 * j);
            lemma_in_slot_bounds(subs, i, 2 * j);
        }
    }
    assert(!covered(subs, 2 * j + 1)) by {
        if covered(subs, 2 * j + 1) {
            let i = choose|i: int| #[trigger] in_slot(subs, i, 2 * j + 1);
            lemma_in_slot_bounds(subs, i, 2 * j + 1);
        }
    }
    assert(out[2 * j] == table_byte(subs, 2 * j));
    assert(out[2 * j + 1] == table_byte(subs, 2 * j + 1));
    if j <= n {
        lemma_offset_units(subs, j as nat);
        let v = slot_offset(subs, j as nat) / (ALIGNMENT as nat);
        assert(v <= 0xFFFF) by {
            if j < n {
                lemma_slot_offsets(subs, j as nat, n);
            }
        }
        assert((2 * j) / 2 == j);
        assert((2 * j + 1) / 2 == j);
        assert(table_value(subs, j as nat) == v);
    }
}

/// Reading the pointer table of a built container from entry `j` on gives the
/// remaining slot offsets, in alignment units.
proof fn lemma_built_pointer_table(subs: Seq<Seq<u8>>, j: int)
    requires
        fits_pointer_table(subs),
        0 <= j <= subs.len() + 1,
    ensures
        pointer_table_from(
            spec_build_container(subs),
            2 * j,
            if j == 0 {
                0
            } else {
                (slot_offset(subs, (j - 1) as nat) / (ALIGNMENT as nat)) as int
            },
        ) == Seq::new(
            (subs.len() + 1 - j) as nat,
            |k: int| (slot_offset(subs, (j + k) as nat) / (ALIGNMENT as nat)) as u16,
        ),
    decreases subs.len() + 1 - j,
{
    let out = spec_build_container(subs);
    let n = subs.len();
    let last: int = if j == 0 {
        0
    } else {
        (slot_offset(subs, (j - 1) as nat) / (ALIGNMENT as nat)) as int
    };
    lemma_built_table_word(subs, j);
    if j == n + 1 {
        assert(pointer_table_from(out, 2 * j, last) =~= seq![]);
    } else {
        let v = slot_offset(subs, j as nat) / (ALIGNMENT as nat);
        lemma_offset_units(subs, j as nat);
        if j > 0 {
            lemma_offset_units(subs, (j - 1) as nat);
            lemma_slot_size(subs[j - 1]);
            lemma_slot_offsets(subs, (j - 1) as nat, j as nat);
            let a = slot_offset(subs, (j - 1) as nat);
            let b = slot_offset(subs, j as nat);
            assert(a / 2048 < b / 2048) by (nonlinear_arith)
                requires
                    a == (a / 2048) * 2048,
                    b == (b / 2048) * 2048,
                    a + 2048 <= b,
            ;
        }
        lemma_built_pointer_table(subs, j + 1);
        assert(pointer_table_from(out, 2 * j, last) =~= Seq::new(
            (n + 1 - j) as nat,
            |k: int| (slot_offset(subs, (j + k) as nat) / (ALIGNMENT as nat)) as u16,
        ));
    }
}

/// Building a container and parsing it back gives every sub-file back,
/// zero-padded to its slot, as long as the pointer table fits in the first
/// unit and every pointer fits in 16 bits.
pub proof fn lemma_build_then_parse(subs: Seq<Seq<u8>>)
    requires
        fits_pointer_table(subs),
    ensures
        spec_parse_container(spec_build_container(subs)) == subs.map_values(
            |s: Seq<u8>| padded(s),
        ),
{
    let out = spec_build_container(subs);
    let n = subs.len();
    lemma_built_pointer_table(subs, 0);
    let ptrs = pointer_table(out);
    assert(ptrs.len() == n + 1);
    lemma_slot_offset_aligned(subs, n);
    assert forall|i: int| 0 <= i < n implies #[trigger] slot_bytes(out, ptrs, i) == padded(
        subs[i],
    ) by {
        let s = subs[i];
        let off = slot_offset(subs, i as nat);
        let next = slot_offset(subs, (i + 1) as nat);
        lemma_offset_units(subs, i as nat);
        lemma_offset_units(subs, (i + 1) as nat);
        lemma_slot_size(s);
        lemma_slot_offsets(subs, i as nat, (i + 1) as nat);
        if i + 1 < n {
            lemma_slot_offsets(subs, (i + 1) as nat, n);
        }
        assert(ptrs[i] as int == off / 2048);
        assert(ptrs[i + 1] as int == next / 2048);
        assert(next <= out.len());
        lemma_padded_slot_size(s);
        assert(next == off + slot_size(s));
        assert forall|k: int| 0 <= k < slot_size(s) implies #[trigger] out.subrange(
            off as int,
            next as int,
        )[k] == padded(s)[k] by {
            let b = off + k;
            assert(out.subrange(off as int, next as int)[k] == out[b]);
            if k < s.len() {
                assert(in_slot(subs, i, b));
                let c = choose|c: int| #[trigger] in_slot(subs, c, b);
                lemma_in_slot_unique(subs, i, c, b);
            } else {
                assert(!covered(subs, b)) by {
                    if covered(subs, b) {
                        let c = choose|c: int| #[trigger] in_slot(subs, c, b);
                        if c < i {
                            lemma_slot_size(subs[c]);
                            lemma_slot_offsets(subs, c as nat, i as nat);
                        } else if c > i {
                            lemma_slot_offsets(subs, (i + 1) as nat, c as nat);
                        }
                    }
                }
                lemma_slot_offset_aligned(subs, i as nat);
            }
        }
        assert(out.subrange(off as int, next as int) =~= padded(s));
    }
    assert(spec_parse_container(out) =~= subs.map_values(|s: Seq<u8>| padded(s)));
}

proof fn lemma_padded_slot_size(s: Seq<u8>)
    ensures
        slot_size(padded(s)) == slot_size(s),
        padded(s).len() == slot_size(s),
{
    lemma_slot_size(s);
    let m = slot_size(s) as int;
    assert(m == (m / 2048) * 2048);
    assert(((m + 2047) / 2048) * 2048 == m) by (nonlinear_arith)
        requires
            m == (m / 2048) * 2048,
            m >= 2048,
    ;
}

proof fn lemma_padded_offsets(subs: Seq<Seq<u8>>, i: nat)
    requires
        i <= subs.len(),
    ensures
        slot_offset(subs.map_values(|s: Seq<u8>| padded(s)), i) == slot_offset(subs, i),
    decreases i,
{
    if i > 0 {
        lemma_padded_offsets(subs, (i - 1) as nat);
        lemma_padded_slot_size(subs[i - 1]);
    }
}

/// Rebuilding a container read back from a built one reproduces the same image
/// byte for byte, under the same conditions as `lemma_build_then_parse`.
pub proof fn lemma_rebuild_is_stable(subs: Seq<Seq<u8>>)
    requires
        fits_pointer_table(subs),
    ensures
        spec_build_container(spec_parse_container(spec_build_container(subs)))
            == spec_build_container(subs),
{
    lemma_build_then_parse(subs);
    let pads = subs.map_values(|s: Seq<u8>| padded(s));
    let n = subs.len();
    lemma_padded_offsets(subs, n);
    let a = spec_build_container(pads);
    let b = spec_build_container(subs);
    assert forall|j: nat| j <= n implies #[trigger] slot_offset(pads, j) == slot_offset(
        subs,
        j,
    ) by {
        lemma_padded_offsets(subs, j);
    }
    assert forall|x: int| 0 <= x < b.len() implies #[trigger] a[x] == b[x] by {
        assert(table_byte(pads, x) == table_byte(subs, x));
        if covered(subs, x) {
            let i = choose|i: int| #[trigger] in_slot(subs, i, x);
            lemma_padded_slot_size(subs[i]);
            lemma_slot_size(subs[i]);
            assert(in_slot(pads, i, x));
            let c = choose|c: int| #[trigger] in_slot(pads, c, x);
            lemma_in_slot_unique(pads, i, c, x);
        } else if covered(pads, x) {
            let i = choose|i: int| #[trigger] in_slot(pads, i, x);
            lemma_padded_slot_size(subs[i]);
            lemma_slot_offset_aligned(subs, i as nat);
            lemma_slot_offset_aligned(subs, n);
            assert(!in_slot(subs, i, x));
            assert(x >= 2048);
        } else {
        }
    }
    assert(a =~= b);
}

} // verus!
