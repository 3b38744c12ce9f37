//! Event script sub-files: extracting and rebuilding dialogue strings.
//!
//! A sub-file is a header (typically 8 bytes) followed by the data section:
//! - `data[52]`: uint16_le `ett`, the start of the text blob area;
//! - `data[96]`: uint16_le `table_ptr`, the string pointer table (0xFFFF: none);
//! - string pointer entries follow the pattern `FF 55 00 00 [lo hi] 10 80`;
//! - the text blob holds the strings, each terminated by `FF 01`.
use vstd::prelude::*;
use crate::bytes::{append_bytes, copy_bytes, read_u16_le, u16_le_at};

verus! {

/// The smallest sub-file that can hold a script.
pub const MIN_SUB_FILE_SIZE: usize = 108;

/// The smallest data section that holds the `ett` and `table_ptr` fields.
pub const MIN_DATA_SIZE: usize = 100;

/// The largest header size accepted.
pub const MAX_HEADER_SIZE: usize = 256;

/// Offset of `ett` in the data section.
pub const ETT_FIELD: usize = 52;

/// Offset of `table_ptr` in the data section.
pub const TABLE_PTR_FIELD: usize = 96;

/// `table_ptr` value of a script without a string pointer table.
pub const NO_TABLE: usize = 0xFFFF;

/// A single dialogue string extracted from a script
#[derive(Debug, Clone)]
pub struct ScriptString {
    /// Offset of the pointer in the string pointer table (relative to data section)
    pub ptr_table_offset: usize,
    /// Offset of the actual text data (relative to data section)
    pub text_offset: usize,
    /// Raw encoded bytes of the string (including FF 01 terminator)
    pub raw: Vec<u8>,
}

/// The value of a `ScriptString`.
pub struct ScriptStringView {
    pub ptr_table_offset: usize,
    pub text_offset: usize,
    pub raw: Seq<u8>,
}

impl View for ScriptString {
    type V = ScriptStringView;

    open spec fn view(&self) -> ScriptStringView {
        ScriptStringView {
            ptr_table_offset: self.ptr_table_offset,
            text_offset: self.text_offset,
            raw: self.raw@,
        }
    }
}

/// Parsed event script sub-file
#[derive(Debug, Clone)]
pub struct EventScript {
    /// Header size in bytes (typically 8)
    pub header_size: usize,
    /// Raw header bytes
    pub header: Vec<u8>,
    /// End-of-text-table offset (start of text blob area) within data section
    pub ett: usize,
    /// String pointer table offset within data section (0xFFFF = no strings)
    pub table_ptr: usize,
    /// Extracted dialogue strings
    pub strings: Vec<ScriptString>,
    /// Full raw data section (everything after header)
    pub data: Vec<u8>,
}

/// The value of an `EventScript`.
pub struct EventScriptView {
    pub header_size: usize,
    pub header: Seq<u8>,
    pub ett: usize,
    pub table_ptr: usize,
    pub strings: Seq<ScriptStringView>,
    pub data: Seq<u8>,
}

impl View for EventScript {
    type V = EventScriptView;

    open spec fn view(&self) -> EventScriptView {
        EventScriptView {
            header_size: self.header_size,
            header: self.header@,
            ett: self.ett,
            table_ptr: self.table_ptr,
            strings: self.strings@.map_values(|s: ScriptString| s@),
            data: self.data@,
        }
    }
}

// ---------------------------------------------------------------------------
// Parsing
// ---------------------------------------------------------------------------

/// `data[j]`, `data[j + 1]` is the string terminator `FF 01`.
pub open spec fn terminator_at(data: Seq<u8>, j: int) -> bool {
    0 <= j && j + 1 < data.len() && data[j] == 0xFF && data[j + 1] == 0x01
}

/// The first terminator at or after `j`.
pub open spec fn find_terminator(data: Seq<u8>, j: int) -> Option<int>
    decreases data.len() - j,
{
    if j < 0 || j + 1 >= data.len() {
        None
    } else if terminator_at(data, j) {
        Some(j)
    } else {
        find_terminator(data, j + 1)
    }
}

/// Byte `i` of the data holds a string pointer: it is preceded by `FF 55 00 00`
/// and followed by `10 80`.
pub open spec fn is_string_pointer(data: Seq<u8>, i: int) -> bool {
    &&& 4 <= i
    &&& i + 4 <= data.len()
    &&& data[i + 2] == 0x10
    &&& data[i + 3] == 0x80
    &&& data[i - 4] == 0xFF
    &&& data[i - 3] == 0x55
    &&& data[i - 2] == 0x00
    &&& data[i - 1] == 0x00
}

/// The string that the pointer at `i` refers to: the bytes from the pointer
/// target up to and including the next terminator, if the target lies inside
/// the data (and is not 0) and a terminator follows it.
pub open spec fn string_at(data: Seq<u8>, i: int) -> Option<ScriptStringView> {
    let p = u16_le_at(data, i);
    if 0 < p < data.len() {
        match find_terminator(data, p) {
            Some(k) => Some(
                ScriptStringView {
                    ptr_table_offset: i as usize,
                    text_offset: p as usize,
                    raw: data.subrange(p, k + 2),
                },
            ),
            None => None,
        }
    } else {
        None
    }
}

/// The strings found by scanning the data from byte `i` on: a string pointer
/// advances the scan by 4 bytes, anything else by 2.
pub open spec fn scan_strings(data: Seq<u8>, i: int) -> Seq<ScriptStringView>
    decreases data.len() - i,
{
    if i < 0 || i + 4 > data.len() {
        seq![]
    } else if is_string_pointer(data, i) {
        let rest = scan_strings(data, i + 4);
        match string_at(data, i) {
            Some(s) => seq![s] + rest,
            None => rest,
        }
    } else {
        scan_strings(data, i + 2)
    }
}

/// Where the scan for string pointers starts: at `table_ptr` when it lies in
/// the data, else near the start of the data.
pub open spec fn scan_start(data: Seq<u8>, table_ptr: int) -> int {
    if table_ptr < data.len() {
        table_ptr
    } else {
        4
    }
}

/// The strings of a data section: none when `table_ptr` is `0xFFFF`, else those
/// found by scanning from `scan_start`.
pub open spec fn script_strings(data: Seq<u8>, table_ptr: int) -> Seq<ScriptStringView> {
    if table_ptr == NO_TABLE {
        seq![]
    } else {
        scan_strings(data, scan_start(data, table_ptr))
    }
}

/// The script parsed from a sub-file, or `None` when the sub-file is too small
/// or its header size is out of range.
pub open spec fn spec_parse_script(sub: Seq<u8>) -> Option<EventScriptView> {
    if sub.len() < MIN_SUB_FILE_SIZE {
        None
    } else {
        let header_size = u16_le_at(sub, 0);
        if header_size < 4 || header_size > MAX_HEADER_SIZE || header_size >= sub.len() {
            None
        } else {
            let data = sub.skip(header_size);
            if data.len() < MIN_DATA_SIZE {
                None
            } else {
                let ett = u16_le_at(data, ETT_FIELD as int);
                let table_ptr = u16_le_at(data, TABLE_PTR_FIELD as int);
                Some(
                    EventScriptView {
                        header_size: header_size as usize,
                        header: sub.take(header_size),
                        ett: ett as usize,
                        table_ptr: table_ptr as usize,
                        strings: script_strings(data, table_ptr),
                        data,
                    },
                )
            }
        }
    }
}

proof fn lemma_no_terminator_after(data: Seq<u8>, a: int, k: int)
    requires
        0 <= a <= k,
        find_terminator(data, a) is None,
    ensures
        !terminator_at(data, k),
    decreases k - a,
{
    if a + 1 < data.len() && a < k {
        lemma_no_terminator_after(data, a + 1, k);
    }
}

/// Read the string whose text starts at `ptr`: the bytes up to and including the
/// first `FF 01`, or `None` when no terminator follows.
fn read_terminated(data: &Vec<u8>, ptr: usize) -> (r: Option<Vec<u8>>)
    requires
        0 < ptr < data@.len(),
    ensures
        match find_terminator(data@, ptr as int) {
            Some(k) => r matches Some(raw) && raw@ == data@.subrange(ptr as int, k + 2),
            None => r is None,
        },
{
    let mut raw: Vec<u8> = Vec::new();
    let mut j = ptr;
    let mut found = false;
    while j < data.len() - 1
        invariant_except_break
            ptr <= j <= data@.len() - 1,
            !found,
            raw@ == data@.subrange(ptr as int, j as int),
            find_terminator(data@, ptr as int) == find_terminator(data@, j as int),
        ensures
            ptr <= j <= data@.len() - 1,
            found ==> raw@ == data@.subrange(ptr as int, j as int) + seq![0xFFu8, 0x01u8],
            found ==> find_terminator(data@, ptr as int) == Some(j as int),
            found ==> j + 1 < data@.len(),
            found ==> terminator_at(data@, j as int),
            !found ==> raw@ == data@.subrange(ptr as int, j as int),
            !found ==> j == data@.len() - 1,
            !found ==> find_terminator(data@, ptr as int) == find_terminator(data@, j as int),
        decreases data@.len() - j,
    {
        if data[j] == 0xFF && data[j + 1] == 0x01 {
            raw.push(0xFF);
            raw.push(0x01);
            found = true;
            assert(raw@ =~= data@.subrange(ptr as int, j as int) + seq![0xFFu8, 0x01u8]);
            break;
        }
        raw.push(data[j]);
        j += 1;
        assert(raw@ =~= data@.subrange(ptr as int, j as int));
    }
    // Only accept if we found the terminator
    let n = raw.len();
    if n >= 2 && raw[n - 2] == 0xFF && raw[n - 1] == 0x01 {
        proof {
            if !found {
                assert(raw@[n - 2] == data@[j - 2]);
                assert(terminator_at(data@, j - 2));
                lemma_no_terminator_after(data@, ptr as int, j - 2);
                assert(false);
            }
            assert(data@.subrange(ptr as int, j as int) + seq![0xFFu8, 0x01u8] =~= data@.subrange(
                ptr as int,
                j + 2,
            ));
        }
        Some(raw)
    } else {
        proof {
            if found {
                assert(raw@[n - 2] == 0xFF);
            }
        }
        None
    }
}

/// Parse an event script sub-file
pub fn parse_script(sub_file: &[u8]) -> (r: Option<EventScript>)
    ensures
        r is Some <==> spec_parse_script(sub_file@) is Some,
        r matches Some(s) ==> spec_parse_script(sub_file@) == Some(s@),
{
    if sub_file.len() < MIN_SUB_FILE_SIZE {
        return None;
    }
    let header_size = read_u16_le(sub_file, 0) as usize;
    if header_size < 4 || header_size > MAX_HEADER_SIZE || header_size >= sub_file.len() {
        return None;
    }
    let header = copy_bytes(&sub_file[0..header_size]);
    let data = copy_bytes(&sub_file[header_size..sub_file.len()]);
    assert(header@ == sub_file@.take(header_size as int));
    assert(data@ == sub_file@.skip(header_size as int));

    if data.len() < MIN_DATA_SIZE {
        return None;
    }

    let ett = read_u16_le(data.as_slice(), ETT_FIELD) as usize;
    let table_ptr = read_u16_le(data.as_slice(), TABLE_PTR_FIELD) as usize;

    // A table_ptr of 0xFFFF means the sub-file has no strings.
    if table_ptr == NO_TABLE {
        let strings: Vec<ScriptString> = Vec::new();
        assert(strings@.map_values(|s: ScriptString| s@) =~= Seq::<ScriptStringView>::empty());
        return Some(EventScript { header_size, header, ett, table_ptr, strings, data });
    }
    // Scan for string pointers using FF 55 00 00 [lo] [hi] 10 80 pattern.
    // If table_ptr is valid, start scanning from there, else scan from the start.
    let scan_from = if table_ptr < data.len() {
        table_ptr
    } else {
        4
    };

    let ghost target = scan_strings(data@, scan_from as int);
    let mut strings: Vec<ScriptString> = Vec::new();
    let mut i = scan_from;
    while data.len() >= 4 && i <= data.len() - 4
        invariant
            i <= data@.len(),
            target == strings@.map_values(|s: ScriptString| s@) + scan_strings(data@, i as int),
        decreases data@.len() - i,
    {
        if i >= 4 && data[i + 2] == 0x10 && data[i + 3] == 0x80 && data[i - 4] == 0xFF && data[i
            - 3] == 0x55 && data[i - 2] == 0x00 && data[i - 1] == 0x00 {
            let ptr_val = read_u16_le(data.as_slice(), i) as usize;
            let ghost before = strings@.map_values(|s: ScriptString| s@);
            if ptr_val > 0 && ptr_val < data.len() {
                // Read string until FF 01 terminator
                if let Some(raw) = read_terminated(&data, ptr_val) {
                    let s = ScriptString { ptr_table_offset: i, text_offset: ptr_val, raw };
                    strings.push(s);
                    assert(strings@.map_values(|s: ScriptString| s@) =~= before.push(s@));
                }
            }
            proof {
                assert(target == strings@.map_values(|s: ScriptString| s@) + scan_strings(
                    data@,
                    i + 4,
                )) by {
                    assert(before.push(string_at(data@, i as int)->0) =~= before + seq![
                        string_at(data@, i as int)->0,
                    ]);
                }
            }
            i += 4;
        } else {
            i += 2;
        }
    }
    proof {
        assert(scan_strings(data@, i as int) =~= seq![]);
        assert(target =~= strings@.map_values(|s: ScriptString| s@));
    }

    Some(EventScript { header_size, header, ett, table_ptr, strings, data })
}


// ---------------------------------------------------------------------------
// Rebuilding
// ---------------------------------------------------------------------------

/// The string ends with the terminator `FF 01`.
pub open spec fn ends_with_terminator(s: Seq<u8>) -> bool {
    s.len() >= 2 && s[s.len() - 2] == 0xFF && s[s.len() - 1] == 0x01
}

/// The string with the terminator `FF 01` appended unless it already ends with it.
pub open spec fn terminated(s: Seq<u8>) -> Seq<u8> {
    if ends_with_terminator(s) {
        s
    } else {
        s + seq![0xFFu8, 0x01u8]
    }
}

/// The new text blob: each new string, terminated, one after the other.
pub open spec fn text_blob(news: Seq<Seq<u8>>) -> Seq<u8>
    decreases news.len(),
{
    if news.len() == 0 {
        seq![]
    } else {
        text_blob(news.drop_last()) + terminated(news.last())
    }
}

/// Where new string `i` starts in the rebuilt data section.
pub open spec fn new_text_offset(ett: int, news: Seq<Seq<u8>>, i: int) -> int {
    ett + text_blob(news.take(i)).len()
}

/// The data section with the first `k` string pointers set to the new text
/// offsets (as 16-bit values); a pointer that does not fit in the data is skipped.
pub open spec fn patch_pointers(
    data: Seq<u8>,
    strings: Seq<ScriptStringView>,
    ett: int,
    news: Seq<Seq<u8>>,
    k: int,
) -> Seq<u8>
    decreases k,
{
    if k <= 0 {
        data
    } else {
        let d = patch_pointers(data, strings, ett, news, k - 1);
        let off = strings[k - 1].ptr_table_offset as int;
        let v = new_text_offset(ett, news, k - 1) % 0x10000;
        if off + 2 <= d.len() {
            d.update(off, (v % 256) as u8).update(off + 1, (v / 256) as u8)
        } else {
            d
        }
    }
}

/// Where the original text ends: after the last string, or at `ett` when there
/// are no strings.
pub open spec fn text_end(s: EventScriptView) -> int {
    if s.strings.len() > 0 {
        s.strings.last().text_offset + s.strings.last().raw.len()
    } else {
        s.ett as int
    }
}

/// The data after the original text.
pub open spec fn trailing_data(s: EventScriptView) -> Seq<u8> {
    if text_end(s) < s.data.len() {
        s.data.subrange(text_end(s), s.data.len() as int)
    } else {
        seq![]
    }
}

/// The sub-file rebuilt from a script and one new string per original string:
/// the header, the data section up to `ett` with its string pointers updated,
/// the new text blob, and the data that followed the original text. `None`
/// when the number of new strings differs from the number of strings.
pub open spec fn spec_rebuild_script(s: EventScriptView, news: Seq<Seq<u8>>) -> Option<Seq<u8>> {
    if news.len() != s.strings.len() {
        None
    } else {
        let patched = patch_pointers(s.data, s.strings, s.ett as int, news, news.len() as int);
        let kept = if s.ett < patched.len() {
            patched.take(s.ett as int)
        } else {
            patched
        };
        Some(s.header + kept + text_blob(news) + trailing_data(s))
    }
}

proof fn lemma_text_blob_take(news: Seq<Seq<u8>>, k: int)
    requires
        0 <= k < news.len(),
    ensures
        text_blob(news.take(k + 1)) == text_blob(news.take(k)) + terminated(news[k]),
{
    assert(news.take(k + 1).drop_last() =~= news.take(k));
}

proof fn lemma_blob_prefix_len(news: Seq<Seq<u8>>, a: int, b: int)
    requires
        0 <= a <= b <= news.len(),
    ensures
        text_blob(news.take(a)).len() <= text_blob(news.take(b)).len(),
    decreases b - a,
{
    if a < b {
        lemma_text_blob_take(news, b - 1);
        lemma_blob_prefix_len(news, a, b - 1);
    }
}

proof fn lemma_patch_len(
    data: Seq<u8>,
    strings: Seq<ScriptStringView>,
    ett: int,
    news: Seq<Seq<u8>>,
    k: int,
)
    ensures
        patch_pointers(data, strings, ett, news, k).len() == data.len(),
    decreases k,
{
    if k > 0 {
        lemma_patch_len(data, strings, ett, news, k - 1);
    }
}

fn ends_with_ff01(s: &Vec<u8>) -> (b: bool)
    ensures
        b == ends_with_terminator(s@),
{
    let n = s.len();
    n >= 2 && s[n - 2] == 0xFF && s[n - 1] == 0x01
}

/// Rebuild a script sub-file with new string data
///
/// Takes the original script and a list of new raw string bytes (one per original string).
/// Returns the rebuilt sub-file bytes.
pub fn rebuild_script(script: &EventScript, new_strings: &[Vec<u8>]) -> (r: Option<Vec<u8>>)
    requires
        new_strings@.len() == script@.strings.len() ==> script.ett + text_blob(
            new_strings@.map_values(|s: Vec<u8>| s@),
        ).len() <= usize::MAX,
        new_strings@.len() == script@.strings.len() && script@.strings.len() > 0 ==> text_end(
            script@,
        ) <= usize::MAX,
    ensures
        match spec_rebuild_script(script@, new_strings@.map_values(|s: Vec<u8>| s@)) {
            Some(out) => r matches Some(v) && v@ == out,
            None => r is None,
        },
{
    let ghost s = script@;
    let ghost news = new_strings@.map_values(|s: Vec<u8>| s@);
    if new_strings.len() != script.strings.len() {
        return None;
    }
    let n = new_strings.len();

    let mut data = copy_bytes(script.data.as_slice());

    // Build new text blob starting at ett
    let mut blob: Vec<u8> = Vec::new();
    let mut new_offsets: Vec<usize> = Vec::with_capacity(n);
    let mut k: usize = 0;
    while k < n
        invariant
            n == new_strings@.len(),
            news == new_strings@.map_values(|s: Vec<u8>| s@),
            script.ett + text_blob(news).len() <= usize::MAX,
            k <= n,
            blob@ == text_blob(news.take(k as int)),
            new_offsets@.len() == k,
            forall|j: int| 0 <= j < k ==> new_offsets@[j] == new_text_offset(script.ett as int, news, j),
        decreases n - k,
    {
        proof {
            lemma_text_blob_take(news, k as int);
            assert(news.take(n as int) =~= news);
            lemma_blob_prefix_len(news, k as int, n as int);
        }
        let offset = script.ett + blob.len();
        new_offsets.push(offset);
        let raw = &new_strings[k];
        append_bytes(&mut blob, raw.as_slice());
        if !ends_with_ff01(raw) {
            blob.push(0xFF);
            blob.push(0x01);
        }
        k += 1;
        assert(blob@ =~= text_blob(news.take(k as int)));
    }
    assert(news.take(n as int) =~= news);

    // Update string pointer values in the data section
    let mut i: usize = 0;
    while i < n
        invariant
            n == new_strings@.len(),
            n == script.strings@.len(),
            s == script@,
            news == new_strings@.map_values(|s: Vec<u8>| s@),
            new_offsets@.len() == n,
            forall|j: int| 0 <= j < n ==> new_offsets@[j] == new_text_offset(script.ett as int, news, j),
            i <= n,
            data@ == patch_pointers(s.data, s.strings, s.ett as int, news, i as int),
        decreases n - i,
    {
        let ptr_off = script.strings[i].ptr_table_offset;
        let off = new_offsets[i];
        assert((off as u16) as int == off as int % 0x10000) by (bit_vector);
        let new_val = off as u16;
        assert((new_val as u8) as int == new_val as int % 256) by (bit_vector);
        assert(((new_val >> 8) as u8) as int == new_val as int / 256) by (bit_vector);
        proof {
            lemma_patch_len(s.data, s.strings, s.ett as int, news, i as int);
        }
        if ptr_off <= data.len() && data.len() - ptr_off >= 2 {
            data.set(ptr_off, new_val as u8);
            data.set(ptr_off + 1, (new_val >> 8) as u8);
        }
        i += 1;
    }

    // Replace text area: truncate at ett, append new blob, then append trailing data
    // "Trailing data" = everything after the last string in the original
    let original_text_end = if script.strings.len() > 0 {
        let last = &script.strings[script.strings.len() - 1];
        last.text_offset + last.raw.len()
    } else {
        script.ett
    };
    let trailing = if original_text_end < script.data.len() {
        copy_bytes(&script.data.as_slice()[original_text_end..script.data.len()])
    } else {
        Vec::new()
    };

    data.truncate(script.ett);
    append_bytes(&mut data, blob.as_slice());
    append_bytes(&mut data, trailing.as_slice());

    // Rebuild full sub-file: header + data
    let mut result = copy_bytes(script.header.as_slice());
    append_bytes(&mut result, data.as_slice());
    proof {
        lemma_patch_len(s.data, s.strings, s.ett as int, news, n as int);
        assert(result@ =~= spec_rebuild_script(s, news)->0);
    }
    Some(result)
}


// ---------------------------------------------------------------------------
// Laws
// ---------------------------------------------------------------------------

/// What holds of an extracted string: its pointer slot has the pointer pattern,
/// the pointer is the text offset, and the raw bytes are the data from there up
/// to and including the first terminator.
pub open spec fn string_matches_data(data: Seq<u8>, st: ScriptStringView) -> bool {
    &&& is_string_pointer(data, st.ptr_table_offset as int)
    &&& u16_le_at(data, st.ptr_table_offset as int) == st.text_offset
    &&& 0 < st.text_offset
    &&& st.text_offset + st.raw.len() <= data.len()
    &&& st.raw.len() >= 2
    &&& st.raw == data.subrange(st.text_offset as int, st.text_offset + st.raw.len())
    &&& find_terminator(data, st.text_offset as int) == Some(st.text_offset + st.raw.len() - 2)
}

proof fn lemma_find_terminator_bounds(data: Seq<u8>, j: int)
    ensures
        find_terminator(data, j) matches Some(k) ==> j <= k && k + 1 < data.len() && terminator_at(
            data,
            k,
        ),
    decreases data.len() - j,
{
    if 0 <= j && j + 1 < data.len() && !terminator_at(data, j) {
        lemma_find_terminator_bounds(data, j + 1);
    }
}

proof fn lemma_scan_strings(data: Seq<u8>, i: int)
    requires
        data.len() <= usize::MAX,
    ensures
        forall|k: int|
            0 <= k < scan_strings(data, i).len() ==> {
                &&& string_matches_data(data, #[trigger] scan_strings(data, i)[k])
                &&& i <= scan_strings(data, i)[k].ptr_table_offset
            },
        forall|k: int, l: int|
            0 <= k < l < scan_strings(data, i).len() ==> #[trigger] scan_strings(data, i)[k].ptr_table_offset
                + 4 <= #[trigger] scan_strings(data, i)[l].ptr_table_offset,
    decreases data.len() - i,
{
    if i < 0 || i + 4 > data.len() {
    } else if is_string_pointer(data, i) {
        lemma_scan_strings(data, i + 4);
        let rest = scan_strings(data, i + 4);
        match string_at(data, i) {
            Some(st) => {
                let p = u16_le_at(data, i);
                lemma_find_terminator_bounds(data, p);
                assert(p <= 0xFFFF);
                assert(st.text_offset == p);
                assert(st.ptr_table_offset == i);
                assert(string_matches_data(data, st));
                let all = seq![st] + rest;
                assert(all == scan_strings(data, i));
                assert forall|k: int| 0 <= k < all.len() implies {
                    &&& string_matches_data(data, #[trigger] all[k])
                    &&& i <= all[k].ptr_table_offset
                } by {
                    if k > 0 {
                        assert(all[k] == rest[k - 1]);
                    }
                }
                assert forall|k: int, l: int|
                    0 <= k < l < all.len() implies #[trigger] all[k].ptr_table_offset + 4
                    <= #[trigger] all[l].ptr_table_offset by {
                    assert(all[l] == rest[l - 1]);
                    if k > 0 {
                        assert(all[k] == rest[k - 1]);
                    }
                }
            },
            None => {
                assert(scan_strings(data, i) == rest);
                assert forall|k: int| 0 <= k < rest.len() implies i <= (
                #[trigger] rest[k]).ptr_table_offset by {}
            },
        }
    } else {
        lemma_scan_strings(data, i + 2);
        let rest = scan_strings(data, i + 2);
        assert(scan_strings(data, i) == rest);
        assert forall|k: int| 0 <= k < rest.len() implies i <= (
        #[trigger] rest[k]).ptr_table_offset by {}
    }
}

/// Every string that `parse_script` extracts is the text that its pointer
/// refers to, up to and including the first terminator, and the pointer slots
/// of the extracted strings follow each other at least 4 bytes apart.
pub proof fn lemma_parsed_strings_match_data(sub: Seq<u8>)
    requires
        sub.len() <= usize::MAX,
        spec_parse_script(sub) is Some,
    ensures
        ({
            let s = spec_parse_script(sub)->0;
            &&& forall|k: int|
                0 <= k < s.strings.len() ==> string_matches_data(s.data, #[trigger] s.strings[k])
            &&& forall|k: int, l: int|
                0 <= k < l < s.strings.len() ==> #[trigger] s.strings[k].ptr_table_offset + 4
                    <= #[trigger] s.strings[l].ptr_table_offset
        }),
{
    let s = spec_parse_script(sub)->0;
    if s.table_ptr != NO_TABLE {
        lemma_scan_strings(s.data, scan_start(s.data, s.table_ptr as int));
    }
}

/// The rebuilds that keep every string pointer: the pointer slots lie before
/// `ett` and do not overlap, `ett` lies in the data, and every new text offset
/// fits in 16 bits.
pub open spec fn pointers_survive_rebuild(s: EventScriptView, news: Seq<Seq<u8>>) -> bool {
    &&& news.len() == s.strings.len()
    &&& s.ett <= s.data.len()
    &&& s.ett + text_blob(news).len() <= 0xFFFF
    &&& forall|k: int|
        0 <= k < s.strings.len() ==> #[trigger] s.strings[k].ptr_table_offset + 2 <= s.ett
    &&& forall|k: int, l: int|
        0 <= k < s.strings.len() && 0 <= l < s.strings.len() && k != l
            ==> #[trigger] s.strings[k].ptr_table_offset + 2 <= #[trigger] s.strings[l].ptr_table_offset
            || s.strings[l].ptr_table_offset + 2 <= s.strings[k].ptr_table_offset
}

/// Byte `b` lies in one of the first `k` pointer slots.
pub open spec fn in_pointer_slot(strings: Seq<ScriptStringView>, k: int, b: int) -> bool {
    exists|j: int|
        0 <= j < k && #[trigger] strings[j].ptr_table_offset <= b < strings[j].ptr_table_offset
            + 2
}

proof fn lemma_patch_keeps(
    s: EventScriptView,
    news: Seq<Seq<u8>>,
    k: int,
    b: int,
)
    requires
        0 <= k <= s.strings.len(),
        0 <= b < s.data.len(),
        !in_pointer_slot(s.strings, k, b),
    ensures
        patch_pointers(s.data, s.strings, s.ett as int, news, k)[b] == s.data[b],
    decreases k,
{
    lemma_patch_len(s.data, s.strings, s.ett as int, news, k);
    if k > 0 {
        assert(!in_pointer_slot(s.strings, k - 1, b)) by {
            if in_pointer_slot(s.strings, k - 1, b) {
                let j = choose|j: int|
                    0 <= j < k - 1 && #[trigger] s.strings[j].ptr_table_offset <= b
                        < s.strings[j].ptr_table_offset + 2;
                assert(0 <= j < k && s.strings[j].ptr_table_offset <= b < s.strings[j].ptr_table_offset + 2);
            }
        }
        lemma_patch_keeps(s, news, k - 1, b);
        lemma_patch_len(s.data, s.strings, s.ett as int, news, k - 1);
        let off = s.strings[k - 1].ptr_table_offset as int;
        assert(!(off <= b < off + 2)) by {
            if off <= b < off + 2 {
                assert(0 <= k - 1 < k && s.strings[k - 1].ptr_table_offset <= b
                    < s.strings[k - 1].ptr_table_offset + 2);
            }
        }
    }
}

proof fn lemma_patch_sets(s: EventScriptView, news: Seq<Seq<u8>>, k: int, i: int)
    requires
        pointers_survive_rebuild(s, news),
        0 <= i < k <= s.strings.len(),
    ensures
        ({
            let d = patch_pointers(s.data, s.strings, s.ett as int, news, k);
            let p = s.strings[i].ptr_table_offset as int;
            let v = new_text_offset(s.ett as int, news, i) % 0x10000;
            &&& d[p] == (v % 256) as u8
            &&& d[p + 1] == (v / 256) as u8
        }),
    decreases k,
{
    lemma_patch_len(s.data, s.strings, s.ett as int, news, k);
    lemma_patch_len(s.data, s.strings, s.ett as int, news, k - 1);
    if i < k - 1 {
        lemma_patch_sets(s, news, k - 1, i);
        let a = s.strings[i].ptr_table_offset;
        let c = s.strings[k - 1].ptr_table_offset;
        assert(a + 2 <= c || c + 2 <= a);
    }
}

proof fn lemma_text_blob_prefix(news: Seq<Seq<u8>>, i: int, m: int)
    requires
        0 <= i < m <= news.len(),
    ensures
        text_blob(news.take(m)).len() >= text_blob(news.take(i + 1)).len(),
        text_blob(news.take(m)).subrange(0, text_blob(news.take(i + 1)).len() as int)
            == text_blob(news.take(i + 1)),
    decreases m - i,
{
    if m > i + 1 {
        lemma_text_blob_prefix(news, i, m - 1);
        lemma_text_blob_take(news, m - 1);
        let a = text_blob(news.take(m - 1));
        let t = text_blob(news.take(i + 1));
        assert(text_blob(news.take(m)).subrange(0, t.len() as int) =~= a.subrange(
            0,
            t.len() as int,
        ));
    } else {
        assert(text_blob(news.take(m)).subrange(0, text_blob(news.take(m)).len() as int)
            =~= text_blob(news.take(m)));
    }
}

/// After a rebuild that keeps every string pointer, the pointer of string `i`
/// holds the new text offset of string `i`, the new string (terminated) is the
/// text found there, the data before `ett` is unchanged outside the pointer
/// slots, and the data that followed the original text follows the new text.
pub proof fn lemma_rebuilt_pointers_find_new_strings(s: EventScriptView, news: Seq<Seq<u8>>, i: int)
    requires
        pointers_survive_rebuild(s, news),
        0 <= i < news.len(),
    ensures
        ({
            let d = spec_rebuild_script(s, news)->0.skip(s.header.len() as int);
            let p = s.strings[i].ptr_table_offset as int;
            let t = new_text_offset(s.ett as int, news, i);
            &&& u16_le_at(d, p) == t
            &&& d.subrange(t, t + terminated(news[i]).len()) == terminated(news[i])
            &&& forall|b: int|
                0 <= b < s.ett && !in_pointer_slot(s.strings, s.strings.len() as int, b) ==> d[b]
                    == s.data[b]
            &&& d.skip(s.ett + text_blob(news).len()) == trailing_data(s)
        }),
{
    let n = news.len() as int;
    let out = spec_rebuild_script(s, news)->0;
    let d = out.skip(s.header.len() as int);
    let patched = patch_pointers(s.data, s.strings, s.ett as int, news, n);
    lemma_patch_len(s.data, s.strings, s.ett as int, news, n);
    let kept = if s.ett < patched.len() {
        patched.take(s.ett as int)
    } else {
        patched
    };
    assert(kept.len() == s.ett);
    let blob = text_blob(news);
    assert(d =~= kept + blob + trailing_data(s));
    let p = s.strings[i].ptr_table_offset as int;
    lemma_patch_sets(s, news, n, i);
    let t = new_text_offset(s.ett as int, news, i);
    lemma_blob_prefix_len(news, i, n);
    assert(news.take(n) =~= news);
    assert(t % 0x10000 == t);
    assert(d[p] == patched[p]);
    assert(d[p + 1] == patched[p + 1]);
    lemma_text_blob_take(news, i);
    lemma_text_blob_prefix(news, i, n);
    let ti = terminated(news[i]);
    let pre = text_blob(news.take(i)).len() as int;
    assert forall|x: int| 0 <= x < ti.len() implies #[trigger] d.subrange(t, t + ti.len())[x]
        == ti[x] by {
        assert(d.subrange(t, t + ti.len())[x] == d[t + x]);
        assert(d[t + x] == blob[pre + x]);
        assert(blob[pre + x] == text_blob(news.take(i + 1))[pre + x]);
    }
    assert(d.subrange(t, t + ti.len()) =~= ti);
    assert forall|b: int|
        0 <= b < s.ett && !in_pointer_slot(s.strings, n, b) implies d[b] == s.data[b] by {
        lemma_patch_keeps(s, news, n, b);
    }
    assert(d.skip(s.ett + blob.len()) =~= trailing_data(s));
}


/// For a parsed sub-file whose string pointers all lie before `ett`, with `ett`
/// in the data and the new text offsets fitting in 16 bits, rebuilding with
/// new strings keeps every pointer: each one refers to its new string.
pub proof fn lemma_parse_then_rebuild(sub: Seq<u8>, news: Seq<Seq<u8>>, i: int)
    requires
        sub.len() <= usize::MAX,
        spec_parse_script(sub) is Some,
        news.len() == spec_parse_script(sub)->0.strings.len(),
        spec_parse_script(sub)->0.ett <= spec_parse_script(sub)->0.data.len(),
        spec_parse_script(sub)->0.ett + text_blob(news).len() <= 0xFFFF,
        forall|k: int|
            0 <= k < news.len() ==> #[trigger] spec_parse_script(sub)->0.strings[k].ptr_table_offset
                + 2 <= spec_parse_script(sub)->0.ett,
        0 <= i < news.len(),
    ensures
        ({
            let s = spec_parse_script(sub)->0;
            let d = spec_rebuild_script(s, news)->0.skip(s.header.len() as int);
            let t = new_text_offset(s.ett as int, news, i);
            &&& u16_le_at(d, s.strings[i].ptr_table_offset as int) == t
            &&& d.subrange(t, t + terminated(news[i]).len()) == terminated(news[i])
        }),
{
    let s = spec_parse_script(sub)->0;
    lemma_parsed_strings_match_data(sub);
    assert forall|k: int, l: int|
        0 <= k < s.strings.len() && 0 <= l < s.strings.len() && k != l implies #[trigger] s.strings[k].ptr_table_offset
        + 2 <= #[trigger] s.strings[l].ptr_table_offset || s.strings[l].ptr_table_offset + 2
        <= s.strings[k].ptr_table_offset by {
        if k < l {
            assert(s.strings[k].ptr_table_offset + 4 <= s.strings[l].ptr_table_offset);
        } else {
            assert(s.strings[l].ptr_table_offset + 4 <= s.strings[k].ptr_table_offset);
        }
    }
    assert(pointers_survive_rebuild(s, news));
    lemma_rebuilt_pointers_find_new_strings(s, news, i);
}


/// String `k` starts where string `k - 1` ends.
pub open spec fn follows_previous(s: EventScriptView, k: int) -> bool {
    s.strings[k].text_offset == s.strings[k - 1].text_offset + s.strings[k - 1].raw.len()
}

/// The strings lie one after the other, the first at `ett`.
pub open spec fn contiguous_strings(s: EventScriptView) -> bool {
    &&& s.strings.len() > 0 ==> s.strings[0].text_offset == s.ett
    &&& forall|k: int| 0 < k < s.strings.len() ==> #[trigger] follows_previous(s, k)
}

/// The raw bytes of a script's own strings.
pub open spec fn own_strings(s: EventScriptView) -> Seq<Seq<u8>> {
    s.strings.map_values(|st: ScriptStringView| st.raw)
}

/// The facts about a string that rebuilding with the script's own strings
/// relies on: its bytes are the data at its offset, it ends with the
/// terminator, and its pointer slot holds its offset.
spec fn string_in_data(data: Seq<u8>, st: ScriptStringView) -> bool {
    &&& st.text_offset + st.raw.len() <= data.len()
    &&& st.raw.len() >= 2
    &&& st.raw == data.subrange(st.text_offset as int, st.text_offset + st.raw.len())
    &&& ends_with_terminator(st.raw)
    &&& st.text_offset < 0x10000
    &&& (st.ptr_table_offset + 2 <= data.len() ==> u16_le_at(data, st.ptr_table_offset as int)
        == st.text_offset)
}

proof fn lemma_string_in_data(data: Seq<u8>, st: ScriptStringView)
    requires
        string_matches_data(data, st),
    ensures
        string_in_data(data, st),
{
    lemma_find_terminator_bounds(data, st.text_offset as int);
    let e = st.text_offset + st.raw.len();
    assert(st.raw[st.raw.len() - 2] == data[e - 2]);
    assert(st.raw[st.raw.len() - 1] == data[e - 1]);
}

proof fn lemma_own_blob(s: EventScriptView, i: int)
    requires
        contiguous_strings(s),
        forall|k: int| 0 <= k < s.strings.len() ==> string_in_data(s.data, #[trigger] s.strings[k]),
        0 < i <= s.strings.len(),
    ensures
        s.ett <= s.strings[i - 1].text_offset,
        text_blob(own_strings(s).take(i)) == s.data.subrange(
            s.ett as int,
            s.strings[i - 1].text_offset + s.strings[i - 1].raw.len(),
        ),
    decreases i,
{
    let raws = own_strings(s);
    let st = s.strings[i - 1];
    assert(string_in_data(s.data, st));
    let e = st.text_offset + st.raw.len();
    assert(terminated(st.raw) == st.raw);
    assert(raws.take(i).drop_last() =~= raws.take(i - 1));
    assert(raws.take(i).last() == st.raw);
    assert(text_blob(raws.take(i)) == text_blob(raws.take(i - 1)) + st.raw);
    if i == 1 {
        assert(raws.take(0) =~= Seq::<Seq<u8>>::empty());
        assert(text_blob(raws.take(0)) =~= Seq::<u8>::empty());
        assert(st.text_offset == s.ett);
        assert(text_blob(raws.take(i)) =~= s.data.subrange(s.ett as int, e));
    } else {
        lemma_own_blob(s, i - 1);
        assert(string_in_data(s.data, s.strings[i - 2]));
        assert(follows_previous(s, i - 1));
        assert(text_blob(raws.take(i)) =~= s.data.subrange(s.ett as int, e));
    }
}

proof fn lemma_own_offsets(s: EventScriptView, i: int)
    requires
        contiguous_strings(s),
        forall|k: int| 0 <= k < s.strings.len() ==> string_in_data(s.data, #[trigger] s.strings[k]),
        0 <= i < s.strings.len(),
    ensures
        new_text_offset(s.ett as int, own_strings(s), i) == s.strings[i].text_offset,
{
    if i == 0 {
        assert(own_strings(s).take(0) =~= Seq::<Seq<u8>>::empty());
        assert(text_blob(own_strings(s).take(0)) =~= Seq::<u8>::empty());
    } else {
        lemma_own_blob(s, i);
        assert(string_in_data(s.data, s.strings[i - 1]));
        assert(follows_previous(s, i));
    }
}

proof fn lemma_own_patch(s: EventScriptView, k: int)
    requires
        contiguous_strings(s),
        forall|q: int| 0 <= q < s.strings.len() ==> string_in_data(s.data, #[trigger] s.strings[q]),
        0 <= k <= s.strings.len(),
    ensures
        patch_pointers(s.data, s.strings, s.ett as int, own_strings(s), k) == s.data,
    decreases k,
{
    if k > 0 {
        lemma_own_patch(s, k - 1);
        lemma_own_offsets(s, k - 1);
        let st = s.strings[k - 1];
        assert(string_in_data(s.data, st));
        let off = st.ptr_table_offset as int;
        let to = st.text_offset as int;
        if off + 2 <= s.data.len() {
            let lo = s.data[off];
            let hi = s.data[off + 1];
            assert(to == lo as int + 256 * hi as int);
            assert(to % 0x10000 == to);
            assert(to % 256 == lo as int);
            assert(to / 256 == hi as int);
            assert(s.data.update(off, lo).update(off + 1, hi) =~= s.data);
        }
    }
}

proof fn lemma_rebuild_own_data(s: EventScriptView)
    requires
        contiguous_strings(s),
        forall|q: int| 0 <= q < s.strings.len() ==> string_in_data(s.data, #[trigger] s.strings[q]),
    ensures
        spec_rebuild_script(s, own_strings(s)) == Some(s.header + s.data),
{
    let raws = own_strings(s);
    let n = s.strings.len() as int;
    lemma_own_patch(s, n);
    let data = s.data;
    if n > 0 {
        lemma_own_blob(s, n);
        assert(raws.take(n) =~= raws);
        assert(string_in_data(data, s.strings[n - 1]));
        assert(string_in_data(data, s.strings[0]));
        assert(data.take(s.ett as int) + text_blob(raws) + trailing_data(s) =~= data);
    } else {
        assert(raws =~= Seq::<Seq<u8>>::empty());
        assert(text_blob(raws) =~= Seq::<u8>::empty());
        if s.ett < data.len() {
            assert(data.take(s.ett as int) + text_blob(raws) + trailing_data(s) =~= data);
        } else {
            assert(data + text_blob(raws) + trailing_data(s) =~= data);
        }
    }
    assert(s.header + (spec_rebuild_script(s, raws)->0).skip(s.header.len() as int) =~= spec_rebuild_script(s, raws)->0);
}

/// Rebuilding a parsed script with its own strings gives the sub-file back,
/// when the strings lie one after the other from `ett` on.
pub proof fn lemma_rebuild_own_strings(sub: Seq<u8>)
    requires
        sub.len() <= usize::MAX,
        spec_parse_script(sub) is Some,
        contiguous_strings(spec_parse_script(sub)->0),
    ensures
        spec_rebuild_script(spec_parse_script(sub)->0, own_strings(spec_parse_script(sub)->0))
            == Some(sub),
{
    let s = spec_parse_script(sub)->0;
    lemma_parsed_strings_match_data(sub);
    assert forall|q: int| 0 <= q < s.strings.len() implies string_in_data(s.data, #[trigger] s.strings[q]) by {
        lemma_string_in_data(s.data, s.strings[q]);
    }
    lemma_rebuild_own_data(s);
    assert(sub.take(s.header_size as int) + s.data =~= sub);
}


/// The scan for string pointers that starts at `j` visits offset `i`: it steps
/// over a `FF 55 00 00 .. .. 10 80` pointer entry by 4 bytes and over anything
/// else by 2, while 4 bytes of data remain.
pub open spec fn scan_visits(data: Seq<u8>, j: int, i: int) -> bool
    decreases data.len() - j,
{
    if j < 0 || j > i {
        false
    } else if j == i {
        true
    } else if j + 4 > data.len() {
        false
    } else if is_string_pointer(data, j) {
        scan_visits(data, j + 4, i)
    } else {
        scan_visits(data, j + 2, i)
    }
}

/// `k` is the first position at or after `p` that holds the terminator `FF 01`.
pub open spec fn first_terminator(data: Seq<u8>, p: int, k: int) -> bool {
    &&& p <= k
    &&& k + 1 < data.len()
    &&& data[k] == 0xFF
    &&& data[k + 1] == 0x01
    &&& forall|j: int| p <= j < k ==> !(#[trigger] data[j] == 0xFF && data[j + 1] == 0x01)
}

proof fn lemma_first_terminator_found(data: Seq<u8>, j: int, k: int)
    requires
        0 <= j,
        first_terminator(data, j, k),
    ensures
        find_terminator(data, j) == Some(k),
    decreases k - j,
{
    if j < k {
        assert(!(data[j] == 0xFF && data[j + 1] == 0x01));
        lemma_first_terminator_found(data, j + 1, k);
    }
}

proof fn lemma_scan_includes(data: Seq<u8>, j: int, i: int, e: ScriptStringView)
    requires
        scan_visits(data, j, i),
        is_string_pointer(data, i),
        string_at(data, i) == Some(e),
    ensures
        scan_strings(data, j).contains(e),
    decreases data.len() - j,
{
    if j == i {
        assert(scan_strings(data, j)[0] == e);
    } else if is_string_pointer(data, j) {
        lemma_scan_includes(data, j + 4, i, e);
        let rest = scan_strings(data, j + 4);
        let idx = choose|idx: int| 0 <= idx < rest.len() && rest[idx] == e;
        match string_at(data, j) {
            Some(s0) => {
                assert((seq![s0] + rest)[idx + 1] == e);
            },
            None => {
                assert(scan_strings(data, j)[idx] == e);
            },
        }
    } else {
        lemma_scan_includes(data, j + 2, i, e);
    }
}

/// Every string that a pointer entry refers to is extracted, whatever its
/// length: when the scan from the pointer table (or, when `table_ptr` lies
/// past the data, from the start of the data) reaches a pointer entry at `i`
/// whose target `p` lies inside the data and is followed by a terminator, the
/// parsed strings hold the string with pointer slot `i`, text offset `p` and
/// the bytes from `p` up to and including the first terminator after it.
pub proof fn lemma_parse_finds_every_string(sub: Seq<u8>, i: int, k: int)
    requires
        spec_parse_script(sub) is Some,
        spec_parse_script(sub)->0.table_ptr != NO_TABLE,
        scan_visits(
            spec_parse_script(sub)->0.data,
            if spec_parse_script(sub)->0.table_ptr < spec_parse_script(sub)->0.data.len() {
                spec_parse_script(sub)->0.table_ptr as int
            } else {
                4
            },
            i,
        ),
        is_string_pointer(spec_parse_script(sub)->0.data, i),
        0 < u16_le_at(spec_parse_script(sub)->0.data, i) < spec_parse_script(sub)->0.data.len(),
        first_terminator(
            spec_parse_script(sub)->0.data,
            u16_le_at(spec_parse_script(sub)->0.data, i),
            k,
        ),
    ensures
        spec_parse_script(sub)->0.strings.contains(
            ScriptStringView {
                ptr_table_offset: i as usize,
                text_offset: u16_le_at(spec_parse_script(sub)->0.data, i) as usize,
                raw: spec_parse_script(sub)->0.data.subrange(
                    u16_le_at(spec_parse_script(sub)->0.data, i),
                    k + 2,
                ),
            },
        ),
{
    let s = spec_parse_script(sub)->0;
    let data = s.data;
    let p = u16_le_at(data, i);
    lemma_first_terminator_found(data, p, k);
    let e = ScriptStringView {
        ptr_table_offset: i as usize,
        text_offset: p as usize,
        raw: data.subrange(p, k + 2),
    };
    assert(string_at(data, i) == Some(e));
    lemma_scan_includes(data, scan_start(data, s.table_ptr as int), i, e);
}

} // verus!
