//! The `.FIL` archive format.
//!
//! An archive starts with a little-endian word that, XORed with
//! [`ENTRIES_DECRYPTION_VALUE`], gives the number of index entries. Then come
//! the entries, [`INDEX_ENTRY_LEN`] obfuscated bytes each: after decoding, the
//! first twelve bytes hold the NUL-padded file name and the last four the
//! little-endian position of the file's contents in the archive. A file's
//! contents reach up to where the next entry's contents start.

use vstd::prelude::*;
use vstd::utf8::*;
use crate::parser::codec::{le_u32_value, read_u32_le, string_from_utf8};
use crate::parser::types::{FilIndexItem, FilFileIndex, AssetError};

verus! {

/// The number of bytes of one obfuscated index entry.
pub const INDEX_ENTRY_LEN: usize = 17;

/// XORed with the first word of an archive, gives the number of entries.
pub const ENTRIES_DECRYPTION_VALUE: u32 = 0x3BD7A59A;

/// Byte `byte` of an index entry once the obfuscation is undone; `bump` is
/// the byte's position counted over the whole index (17 per entry before it,
/// plus its place in its own entry). The arithmetic wraps modulo 256.
pub open spec fn decrypt_byte(byte: u8, bump: int) -> u8 {
    let unmasked = ((byte - 39) % 256) as u8 ^ 0xA5u8;
    ((unmasked - 27 - bump) % 256) as u8
}

/// The buffer after the entry with number `offset` in it has been decoded:
/// its first 17 bytes are decoded, the rest stay as they were.
pub open spec fn decrypt_entry(buf: Seq<u8>, offset: u64) -> Seq<u8> {
    Seq::new(
        buf.len(),
        |i: int| if i < 17 { decrypt_byte(buf[i], i + 17 * offset) } else { buf[i] },
    )
}

/// The bytes of `s` other than NUL, in order.
pub open spec fn without_nul(s: Seq<u8>) -> Seq<u8>
    decreases s.len(),
{
    if s.len() == 0 {
        s
    } else if s.last() == 0 {
        without_nul(s.drop_last())
    } else {
        without_nul(s.drop_last()).push(s.last())
    }
}

/// The name that stands in for a file name that is not valid UTF-8.
pub open spec fn unreadable_name() -> Seq<char> {
    "parsing failed for this entry"@
}

/// The file name of a decoded entry: its first twelve bytes without the NUL
/// bytes, read as UTF-8.
pub open spec fn entry_filename(dec: Seq<u8>) -> Seq<char> {
    let raw = without_nul(dec.subrange(0, 12));
    if valid_utf8(raw) {
        decode_utf8(raw)
    } else {
        unreadable_name()
    }
}

/// The name and start position that a decoded entry holds.
pub open spec fn entry_item(dec: Seq<u8>) -> (Seq<char>, u64) {
    (entry_filename(dec), le_u32_value(dec.subrange(13, 17)) as u64)
}

fn decrypt_byte_exec(byte: u8, index: usize, offset: u64) -> (r: u8)
    requires
        index < 17,
    ensures
        r == decrypt_byte(byte, index + 17 * offset),
{
    let shifted: u8 = ((byte as u32 + 217) % 256) as u8;
    let unmasked: u8 = shifted ^ 0xA5u8;
    let bump: u32 = ((index as u64 + (offset % 256) * 17) % 256) as u32;
    let r: u8 = ((unmasked as u32 + 485 - bump) % 256) as u8;
    proof {
        assert(shifted == ((byte - 39) % 256) as u8);
        let q = offset / 256;
        assert(offset == 256 * q + offset % 256);
        assert(17 * offset == 256 * (17 * q) + 17 * (offset % 256));
        assert((unmasked - 27 - (index + 17 * offset)) % 256 == (unmasked as u32 + 485 - bump)
            % 256) by {
            let a = unmasked + 485 - (index + 17 * (offset % 256));
            assert(unmasked - 27 - (index + 17 * offset) == a - 512 - 256 * (17 * q));
            vstd::arithmetic::div_mod::lemma_mod_sub_multiples_vanish(a, 256);
            vstd::arithmetic::div_mod::lemma_mod_multiples_vanish(-(2 + 17 * q), a, 256);
            assert(a - 512 - 256 * (17 * q) == 256 * (-(2 + 17 * q)) + a) by (nonlinear_arith);
            let b = index + 17 * (offset % 256);
            assert(bump == b % 256);
            vstd::arithmetic::div_mod::lemma_fundamental_div_mod(b, 256);
            assert(a == unmasked + 485 - bump - 256 * (b / 256));
            vstd::arithmetic::div_mod::lemma_mod_multiples_vanish(-(b / 256), unmasked + 485 - bump, 256);
            assert(a == 256 * (-(b / 256)) + (unmasked + 485 - bump)) by (nonlinear_arith)
                requires a == unmasked + 485 - bump - 256 * (b / 256);
        }
    }
    r
}

/// Undoes the obfuscation of the index entry with number `offset`, in place
/// in the first 17 bytes of `entry_buf`, and reads the entry's file name and
/// start position. A name that is not valid UTF-8 is replaced by
/// `"parsing failed for this entry"`.
pub fn parse_index_entry(entry_buf: &mut [u8], offset: u64) -> (item: FilIndexItem)
    requires
        old(entry_buf)@.len() >= 17,
    ensures
        final(entry_buf)@ == decrypt_entry(old(entry_buf)@, offset),
        item@ == entry_item(decrypt_entry(old(entry_buf)@, offset)),
{
    let mut byte_idx: usize = 0;
    while byte_idx < 17
        invariant
            byte_idx <= 17,
            old(entry_buf)@.len() >= 17,
            entry_buf@.len() == old(entry_buf)@.len(),
            forall|i: int|
                0 <= i < byte_idx ==> entry_buf@[i] == decrypt_byte(
                    old(entry_buf)@[i],
                    i + 17 * offset,
                ),
            forall|i: int| byte_idx <= i < entry_buf@.len() ==> entry_buf@[i] == old(entry_buf)@[i],
        decreases 17 - byte_idx,
    {
        let b = entry_buf[byte_idx];
        let d = decrypt_byte_exec(b, byte_idx, offset);
        entry_buf[byte_idx] = d;
        byte_idx += 1;
    }
    let ghost dec = decrypt_entry(old(entry_buf)@, offset);
    assert(entry_buf@ =~= dec);

    let mut filename_raw: Vec<u8> = Vec::new();
    let mut i: usize = 0;
    while i < 12
        invariant
            i <= 12,
            entry_buf@ == dec,
            dec.len() >= 17,
            filename_raw@ == without_nul(dec.subrange(0, i as int)),
        decreases 12 - i,
    {
        let c = entry_buf[i];
        assert(dec.subrange(0, i + 1).drop_last() =~= dec.subrange(0, i as int));
        if c != 0 {
            filename_raw.push(c);
        }
        i += 1;
    }
    let filename = match string_from_utf8(filename_raw) {
        Some(name) => name,
        None => "parsing failed for this entry".to_owned(),
    };
    let tail = vstd::slice::slice_subrange(entry_buf, 13, 17);
    let position = read_u32_le(tail);
    assert(tail@ =~= dec.subrange(13, 17));
    FilIndexItem { filename, offset: position as u64 }
}

/// The number of entries that the first word of an archive announces.
pub open spec fn index_count(data: Seq<u8>) -> u32 {
    (le_u32_value(data.subrange(0, 4)) as u32) ^ ENTRIES_DECRYPTION_VALUE
}

/// The smaller of two integers.
pub open spec fn min_int(a: int, b: int) -> int {
    if a <= b {
        a
    } else {
        b
    }
}

/// The bytes that the read of entry `k` delivers: entries follow the first
/// word back to back, and a read near the end of the data gets only what is
/// left (nothing at all once the data is used up).
pub open spec fn entry_read(data: Seq<u8>, k: int) -> Seq<u8> {
    let start = min_int(4 + 17 * k, data.len() as int);
    data.subrange(start, min_int(start + 17, data.len() as int))
}

/// `bytes` written over the start of `buf`.
pub open spec fn overlay(buf: Seq<u8>, bytes: Seq<u8>) -> Seq<u8> {
    bytes + buf.subrange(bytes.len() as int, buf.len() as int)
}

/// The 17-byte buffer once entry `k` has been read into it and decoded. One
/// buffer serves all entries, so where a read delivers fewer than 17 bytes,
/// the rest of the buffer still holds the decoded bytes of earlier entries.
pub open spec fn index_buffer(data: Seq<u8>, k: nat) -> Seq<u8>
    decreases k,
{
    let before = if k == 0 {
        Seq::new(17, |i: int| 0u8)
    } else {
        index_buffer(data, (k - 1) as nat)
    };
    decrypt_entry(overlay(before, entry_read(data, k as int)), k as u64)
}

/// Reads the index at the start of the archive `data`: the number of
/// entries, then each entry, decoded by [`parse_index_entry`] from what its
/// read delivered. Fails only when the first word is incomplete.
pub fn load_index(data: &[u8]) -> (r: Result<FilFileIndex, AssetError>)
    ensures
        match r {
            Ok(index) => {
                &&& data@.len() >= 4
                &&& index.num_entries == index_count(data@)
                &&& index.entries_view().len() == index.num_entries
                &&& forall|k: int|
                    0 <= k < index.num_entries ==> #[trigger] index.entries_view()[k]
                        == entry_item(index_buffer(data@, k as nat))
            },
            Err(e) => data@.len() < 4 && e == AssetError::UnexpectedEof,
        },
{
    if data.len() < 4 {
        return Err(AssetError::UnexpectedEof);
    }
    let raw_num_entries = read_u32_le(data) ^ ENTRIES_DECRYPTION_VALUE;
    assert(data@.subrange(0, 4)[0] == data@[0] && data@.subrange(0, 4)[1] == data@[1]
        && data@.subrange(0, 4)[2] == data@[2] && data@.subrange(0, 4)[3] == data@[3]);

    let mut entries: Vec<FilIndexItem> = Vec::new();
    let mut index_buf: Vec<u8> = Vec::new();
    while index_buf.len() < 17
        invariant
            index_buf@.len() <= 17,
            forall|i: int| 0 <= i < index_buf@.len() ==> index_buf@[i] == 0u8,
        decreases 17 - index_buf@.len(),
    {
        index_buf.push(0u8);
    }
    assert(index_buf@ =~= Seq::new(17, |i: int| 0u8));

    let mut pos: usize = 4;
    let mut entry_idx: u32 = 0;
    while entry_idx < raw_num_entries
        invariant
            entry_idx <= raw_num_entries,
            4 <= pos <= data@.len(),
            pos == min_int(4 + 17 * entry_idx, data@.len() as int),
            index_buf@.len() == 17,
            entry_idx == 0 ==> index_buf@ == Seq::new(17, |i: int| 0u8),
            entry_idx > 0 ==> index_buf@ == index_buffer(data@, (entry_idx - 1) as nat),
            entries@.len() == entry_idx,
            forall|k: int|
                0 <= k < entry_idx ==> #[trigger] entries@[k]@ == entry_item(
                    index_buffer(data@, k as nat),
                ),
        decreases raw_num_entries - entry_idx,
    {
        let ghost before = index_buf@;
        let n: usize = if data.len() - pos < 17 {
            data.len() - pos
        } else {
            17
        };
        let end: usize = pos + n;
        let mut j: usize = 0;
        while j < n
            invariant
                j <= n <= 17,
                end == pos + n,
                end <= data@.len(),
                index_buf@.len() == 17,
                forall|i: int| 0 <= i < j ==> index_buf@[i] == data@[pos + i],
                forall|i: int| j <= i < 17 ==> index_buf@[i] == before[i],
            decreases n - j,
        {
            index_buf.set(j, data[pos + j]);
            j += 1;
        }
        assert(entry_read(data@, entry_idx as int) =~= data@.subrange(pos as int, pos + n));
        assert(index_buf@ =~= overlay(before, entry_read(data@, entry_idx as int)));
        pos = pos + n;
        let item = parse_index_entry(index_buf.as_mut_slice(), entry_idx as u64);
        assert(index_buf@ == index_buffer(data@, entry_idx as nat));
        entries.push(item);
        entry_idx += 1;
    }
    let index = FilFileIndex { num_entries: raw_num_entries as u64, entries };
    assert(le_u32_value(data@) == le_u32_value(data@.subrange(0, 4)));
    assert(index.num_entries == index_count(data@));
    assert(index.entries_view().len() == index.num_entries);
    assert forall|k: int| 0 <= k < index.num_entries implies #[trigger] index.entries_view()[k]
        == entry_item(index_buffer(data@, k as nat)) by {
        assert(index.entries_view()[k] == index.entries@[k]@);
    }
    Ok(index)
}

/// A line of the listing of an archive: a file name and the number of bytes
/// up to the next entry's contents.
#[derive(Debug, PartialEq, Eq)]
pub struct EntrySize {
    pub filename: String,
    pub size: u64,
}

impl View for EntrySize {
    type V = (Seq<char>, u64);

    open spec fn view(&self) -> (Seq<char>, u64) {
        (self.filename@, self.size)
    }
}

/// Entry `k` cannot be listed: there is no next entry, or the next entry
/// starts before it.
pub open spec fn listing_blocked(e: Seq<(Seq<char>, u64)>, k: int) -> bool {
    k + 1 >= e.len() || e[k + 1].1 < e[k].1
}

/// The first entry from `k` on that cannot be listed, or `last` if all up
/// to it can.
pub open spec fn listing_stop(e: Seq<(Seq<char>, u64)>, last: int, k: int) -> int
    decreases last - k,
{
    if k >= last || listing_blocked(e, k) {
        k
    } else {
        listing_stop(e, last, k + 1)
    }
}

/// How many lines the listing of an index has.
pub open spec fn listing_len(e: Seq<(Seq<char>, u64)>, n: int) -> int {
    if n <= 0 {
        0
    } else {
        listing_stop(e, n - 1, 0)
    }
}

/// The listing covers every entry but the last, which has no size of its own.
pub open spec fn listing_complete(e: Seq<(Seq<char>, u64)>, n: int) -> bool {
    n > 0 && listing_stop(e, n - 1, 0) == n - 1
}

/// Line `j` of a listing.
pub open spec fn listing_row(e: Seq<(Seq<char>, u64)>, j: int) -> (Seq<char>, u64) {
    (e[j].0, (e[j + 1].1 - e[j].1) as u64)
}

/// Lists the entries of an index with their sizes, each size being the
/// distance to the next entry's position; the last entry is not listed.
/// The listing stops at the first entry that has no next entry or whose
/// next entry starts before it (there the inspection gives up); the flag
/// tells whether it got through. An index without entries gives no lines
/// and `false`.
pub fn index_listing(file_index: &FilFileIndex) -> (r: (Vec<EntrySize>, bool))
    ensures
        r.0@.len() == listing_len(file_index.entries_view(), file_index.num_entries as int),
        forall|j: int|
            0 <= j < r.0@.len() ==> #[trigger] r.0@[j]@ == listing_row(
                file_index.entries_view(),
                j,
            ),
        r.1 == listing_complete(file_index.entries_view(), file_index.num_entries as int),
{
    let ghost e = file_index.entries_view();
    let mut rows: Vec<EntrySize> = Vec::new();
    if file_index.num_entries == 0 {
        return (rows, false);
    }
    let last = file_index.num_entries - 1;
    let ghost n = file_index.num_entries as int;
    let mut idx: u64 = 0;
    while idx < last
        invariant
            e == file_index.entries_view(),
            n == file_index.num_entries,
            last == n - 1,
            idx <= last,
            listing_stop(e, last as int, 0) == listing_stop(e, last as int, idx as int),
            rows@.len() == idx,
            forall|j: int| 0 <= j < idx ==> #[trigger] rows@[j]@ == listing_row(e, j),
        decreases last - idx,
    {
        let len = file_index.entries.len();
        if idx >= len as u64 || idx + 1 >= len as u64 {
            assert(listing_blocked(e, idx as int));
            return (rows, false);
        }
        let current = &file_index.entries[idx as usize];
        let next = &file_index.entries[idx as usize + 1];
        assert(e[idx as int] == current@ && e[idx + 1] == next@);
        if next.offset < current.offset {
            return (rows, false);
        }
        rows.push(EntrySize { filename: current.filename.clone(), size: next.offset - current.offset });
        idx += 1;
    }
    (rows, true)
}

/// How the extraction of an archive's files ends.
#[derive(Clone, Copy, Debug, PartialEq, Eq)]
pub enum PlanEnd {
    /// Every entry was handled, or an entry with an empty name ended the
    /// extraction early, as it is meant to.
    Complete,
    /// The index announces more entries than it holds; the entry after the
    /// planned steps does not exist.
    MissingEntry,
    /// The entry after the planned steps gets its output file created, but
    /// its size cannot be taken: it has no next entry, or the next entry
    /// starts before it. The extraction gives up there.
    Aborted,
}

/// One file to copy out of an archive: its name, and the bytes of the
/// archive that it consists of.
#[derive(Debug, PartialEq, Eq)]
pub struct FileExtraction {
    pub filename: String,
    pub offset: u64,
    pub length: u64,
}

impl View for FileExtraction {
    type V = (Seq<char>, u64, u64);

    open spec fn view(&self) -> (Seq<char>, u64, u64) {
        (self.filename@, self.offset, self.length)
    }
}

/// The files to extract from an archive, in order, and how the extraction
/// ends after them.
#[derive(Debug, PartialEq, Eq)]
pub struct ExtractionPlan {
    pub steps: Vec<FileExtraction>,
    pub end: PlanEnd,
}

/// Entry `k` cannot be extracted in full: it does not exist, its name is
/// empty, it has no next entry, or the next entry starts before it.
pub open spec fn extraction_blocked(e: Seq<(Seq<char>, u64)>, k: int) -> bool {
    k >= e.len() || e[k].0.len() == 0 || k + 1 >= e.len() || e[k + 1].1 < e[k].1
}

/// The first entry from `k` on that cannot be extracted, or `n` if all up
/// to `n` can.
pub open spec fn extraction_stop(e: Seq<(Seq<char>, u64)>, n: int, k: int) -> int
    decreases n - k,
{
    if k >= n || extraction_blocked(e, k) {
        k
    } else {
        extraction_stop(e, n, k + 1)
    }
}

/// Step `j` of an extraction: entry `j`'s name, position and size.
pub open spec fn extraction_step(e: Seq<(Seq<char>, u64)>, j: int) -> (Seq<char>, u64, u64) {
    (e[j].0, e[j].1, (e[j + 1].1 - e[j].1) as u64)
}

/// How an extraction that stopped at entry `stop` ends.
pub open spec fn extraction_end(e: Seq<(Seq<char>, u64)>, n: int, stop: int) -> PlanEnd {
    if stop >= n {
        PlanEnd::Complete
    } else if stop >= e.len() {
        PlanEnd::MissingEntry
    } else if e[stop].0.len() == 0 {
        PlanEnd::Complete
    } else {
        PlanEnd::Aborted
    }
}

/// Plans the extraction of the files an index lists: for each entry in
/// order, its name, position and size (the distance to the next entry's
/// position), up to the first entry with an empty name, which ends the
/// extraction, or the first entry that cannot be extracted.
pub fn extract_files(file_index: &FilFileIndex) -> (plan: ExtractionPlan)
    ensures
        ({
            let e = file_index.entries_view();
            let stop = extraction_stop(e, file_index.num_entries as int, 0);
            &&& plan.steps@.len() == stop
            &&& forall|j: int|
                0 <= j < stop ==> #[trigger] plan.steps@[j]@ == extraction_step(e, j)
            &&& plan.end == extraction_end(e, file_index.num_entries as int, stop)
        }),
{
    let ghost e = file_index.entries_view();
    let ghost n = file_index.num_entries as int;
    let mut steps: Vec<FileExtraction> = Vec::new();
    let mut idx: u64 = 0;
    while idx < file_index.num_entries
        invariant
            e == file_index.entries_view(),
            n == file_index.num_entries,
            idx <= n,
            extraction_stop(e, n, 0) == extraction_stop(e, n, idx as int),
            steps@.len() == idx,
            forall|j: int| 0 <= j < idx ==> #[trigger] steps@[j]@ == extraction_step(e, j),
        decreases n - idx,
    {
        let len = file_index.entries.len();
        if idx >= len as u64 {
            return ExtractionPlan { steps, end: PlanEnd::MissingEntry };
        }
        let current = &file_index.entries[idx as usize];
        assert(e[idx as int] == current@);
        if current.filename.as_str().is_empty() {
            return ExtractionPlan { steps, end: PlanEnd::Complete };
        }
        if idx + 1 >= len as u64 {
            return ExtractionPlan { steps, end: PlanEnd::Aborted };
        }
        let next = &file_index.entries[idx as usize + 1];
        assert(e[idx + 1] == next@);
        if next.offset < current.offset {
            return ExtractionPlan { steps, end: PlanEnd::Aborted };
        }
        steps.push(
            FileExtraction {
                filename: current.filename.clone(),
                offset: current.offset,
                length: next.offset - current.offset,
            },
        );
        idx += 1;
    }
    ExtractionPlan { steps, end: PlanEnd::Complete }
}

/// The sum of the sizes in the first `m` lines of a listing.
pub open spec fn listed_size_total(rows: Seq<(Seq<char>, u64)>, m: int) -> int
    decreases m,
{
    if m <= 0 {
        0
    } else {
        listed_size_total(rows, m - 1) + rows[m - 1].1
    }
}

proof fn lemma_listing_stop_unblocked(e: Seq<(Seq<char>, u64)>, last: int, k: int)
    requires
        0 <= k <= last,
        listing_stop(e, last, k) == last,
    ensures
        forall|j: int| k <= j < last ==> !#[trigger] listing_blocked(e, j),
    decreases last - k,
{
    if k < last {
        lemma_listing_stop_unblocked(e, last, k + 1);
    }
}

/// When the listing of an index gets through, the sizes it lists add up to
/// the distance from the first entry's position to the last entry's: the
/// listed files tile that stretch of the archive.
pub proof fn lemma_listing_sizes_tile(e: Seq<(Seq<char>, u64)>, n: int)
    requires
        listing_complete(e, n),
    ensures
        listed_size_total(Seq::new((n - 1) as nat, |j: int| listing_row(e, j)), n - 1)
            == e[n - 1].1 - e[0].1,
{
    lemma_listing_stop_unblocked(e, n - 1, 0);
    lemma_listed_total_prefix(e, n, n - 1);
}

proof fn lemma_listed_total_prefix(e: Seq<(Seq<char>, u64)>, n: int, m: int)
    requires
        0 <= m <= n - 1,
        forall|j: int| 0 <= j < n - 1 ==> !#[trigger] listing_blocked(e, j),
    ensures
        listed_size_total(Seq::new((n - 1) as nat, |j: int| listing_row(e, j)), m) == e[m].1
            - e[0].1,
    decreases m,
{
    if m > 0 {
        lemma_listed_total_prefix(e, n, m - 1);
        assert(!listing_blocked(e, m - 1));
    }
}

/// The extraction copies out of an entry exactly as many bytes as the
/// listing gives as its size, wherever both reach the entry.
pub proof fn lemma_extraction_matches_listing(e: Seq<(Seq<char>, u64)>, n: int, j: int)
    requires
        0 <= j < extraction_stop(e, n, 0),
        0 <= j < listing_len(e, n),
    ensures
        extraction_step(e, j).0 == listing_row(e, j).0,
        extraction_step(e, j).2 == listing_row(e, j).1,
{
}

proof fn lemma_extraction_stop_unblocked(e: Seq<(Seq<char>, u64)>, n: int, k: int)
    requires
        0 <= k,
    ensures
        k <= extraction_stop(e, n, k),
        forall|j: int| k <= j < extraction_stop(e, n, k) ==> !#[trigger] extraction_blocked(e, j),
    decreases n - k,
{
    if k < n && !extraction_blocked(e, k) {
        lemma_extraction_stop_unblocked(e, n, k + 1);
    }
}

/// The files an extraction copies out lie back to back in the archive: each
/// one ends where the next one starts.
pub proof fn lemma_extraction_steps_adjacent(e: Seq<(Seq<char>, u64)>, n: int, j: int)
    requires
        0 <= j,
        j + 1 < extraction_stop(e, n, 0),
    ensures
        extraction_step(e, j).1 + extraction_step(e, j).2 == extraction_step(e, j + 1).1,
{
    lemma_extraction_stop_unblocked(e, n, 0);
    assert(!extraction_blocked(e, j));
}

/// Byte `plain` of an index entry as an archive stores it: the steps of
/// [`decrypt_byte`] run backwards.
pub open spec fn encrypt_byte(plain: u8, bump: int) -> u8 {
    let masked = ((plain + 27 + bump) % 256) as u8 ^ 0xA5u8;
    ((masked + 39) % 256) as u8
}

/// The first 17 bytes of `plain` obfuscated as entry number `offset`.
pub open spec fn encrypt_entry(plain: Seq<u8>, offset: u64) -> Seq<u8> {
    Seq::new(
        plain.len(),
        |i: int| if i < 17 { encrypt_byte(plain[i], i + 17 * offset) } else { plain[i] },
    )
}

proof fn lemma_decrypt_byte_undoes_encrypt(plain: u8, bump: int)
    requires
        bump >= 0,
    ensures
        decrypt_byte(encrypt_byte(plain, bump), bump) == plain,
{
    let v = plain + 27 + bump;
    let x = (v % 256) as u8;
    let m = x ^ 0xA5u8;
    assert(m ^ 0xA5u8 == x) by (bit_vector)
        requires
            m == x ^ 0xA5u8,
    ;
    let b = ((m + 39) % 256) as u8;
    assert(((b - 39) % 256) as u8 == m);
    vstd::arithmetic::div_mod::lemma_fundamental_div_mod(v, 256);
    let q = v / 256;
    assert(x - 27 - bump == 256 * (-q) + plain);
    vstd::arithmetic::div_mod::lemma_mod_multiples_vanish(-q, plain as int, 256);
}

/// Decoding undoes the obfuscation of the archive's index: an entry stored
/// as entry number `offset` decodes to the bytes it was made from, so
/// [`parse_index_entry`] gives back the name and position those bytes hold.
pub proof fn lemma_decrypt_undoes_encrypt(plain: Seq<u8>, offset: u64)
    ensures
        decrypt_entry(encrypt_entry(plain, offset), offset) == plain,
{
    assert forall|i: int| 0 <= i < plain.len() implies decrypt_entry(
        encrypt_entry(plain, offset),
        offset,
    )[i] == plain[i] by {
        if i < 17 {
            lemma_decrypt_byte_undoes_encrypt(plain[i], i + 17 * offset);
        }
    }
    assert(decrypt_entry(encrypt_entry(plain, offset), offset) =~= plain);
}

proof fn lemma_index_buffer_len(data: Seq<u8>, k: nat)
    ensures
        index_buffer(data, k).len() == 17,
    decreases k,
{
    if k > 0 {
        lemma_index_buffer_len(data, (k - 1) as nat);
    }
}

/// Every entry of an archive is decoded with its own number: when bytes
/// `4 + 17k .. 4 + 17k + 17` of the archive hold the 17 bytes `plain`
/// obfuscated as entry `k` (byte `i` stored as
/// `((plain[i] + 27 + i + 17k) mod 256 XOR 0xA5) + 39 mod 256`), the buffer
/// that entry `k` is read from decodes to exactly `plain`, whatever came
/// before it, so [`load_index`] gives entry `k` the name and position that
/// `plain` holds.
pub proof fn lemma_archive_entry_round_trip(data: Seq<u8>, k: nat, plain: Seq<u8>)
    requires
        plain.len() == 17,
        k <= u32::MAX,
        4 + 17 * (k + 1) <= data.len(),
        forall|i: int|
            0 <= i < 17 ==> #[trigger] data[4 + 17 * k + i] == ((((plain[i] + 27 + i + 17 * k)
                % 256) as u8 ^ 0xA5u8) + 39) % 256,
    ensures
        index_buffer(data, k) == plain,
        entry_item(index_buffer(data, k)) == entry_item(plain),
{
    let before = if k == 0 {
        Seq::new(17, |i: int| 0u8)
    } else {
        index_buffer(data, (k - 1) as nat)
    };
    if k > 0 {
        lemma_index_buffer_len(data, (k - 1) as nat);
    }
    let read = entry_read(data, k as int);
    assert(read =~= data.subrange(4 + 17 * k as int, 4 + 17 * k as int + 17));
    let buf = overlay(before, read);
    assert(buf =~= read);
    assert forall|i: int| 0 <= i < 17 implies decrypt_entry(buf, k as u64)[i] == plain[i] by {
        assert(buf[i] == data[4 + 17 * k + i]);
        assert(buf[i] == encrypt_byte(plain[i], i + 17 * k));
        lemma_decrypt_byte_undoes_encrypt(plain[i], i + 17 * k);
    }
    assert(decrypt_entry(buf, k as u64) =~= plain);
}

/// Entry `j` has a name, and a next entry that starts at or after it.
pub open spec fn named_with_next(e: Seq<(Seq<char>, u64)>, j: int) -> bool {
    j + 1 < e.len() && e[j].0.len() > 0 && e[j].1 <= e[j + 1].1
}

/// Entry `j` has a next entry that starts at or after it.
pub open spec fn has_later_next(e: Seq<(Seq<char>, u64)>, j: int) -> bool {
    j + 1 < e.len() && e[j].1 <= e[j + 1].1
}

proof fn lemma_extraction_stop_from(e: Seq<(Seq<char>, u64)>, n: int, m: int, k: int)
    requires
        0 <= k <= m <= n,
        forall|j: int| 0 <= j < m ==> #[trigger] named_with_next(e, j),
        m == n || m >= e.len() || e[m].0.len() == 0 || m + 1 >= e.len() || e[m + 1].1 < e[m].1,
    ensures
        extraction_stop(e, n, k) == m,
    decreases m - k,
{
    if k < m {
        assert(named_with_next(e, k));
        lemma_extraction_stop_from(e, n, m, k + 1);
    }
}

/// Where the extraction of an archive's files stops, in terms of the
/// entries: it gets through the first `m` entries when each of them has a
/// name and a next entry that starts at or after it (a file of length 0
/// included), and stops at entry `m` when that one is past the announced
/// count, missing, unnamed, without a next entry, or followed by an entry
/// that starts before it. Step `j` copies entry `j`'s bytes up to the next
/// entry's position; the plan is complete when it got through all entries
/// or stopped at an unnamed one.
pub proof fn lemma_extraction_plan_shape(e: Seq<(Seq<char>, u64)>, n: int, m: int)
    requires
        0 <= m <= n,
        forall|j: int| 0 <= j < m ==> #[trigger] named_with_next(e, j),
        m == n || m >= e.len() || e[m].0.len() == 0 || m + 1 >= e.len() || e[m + 1].1 < e[m].1,
    ensures
        extraction_stop(e, n, 0) == m,
        forall|j: int|
            0 <= j < m ==> #[trigger] extraction_step(e, j) == (e[j].0, e[j].1, (e[j + 1].1
                - e[j].1) as u64),
        extraction_end(e, n, m) == if m == n || (m < e.len() && e[m].0.len() == 0) {
            PlanEnd::Complete
        } else if m >= e.len() {
            PlanEnd::MissingEntry
        } else {
            PlanEnd::Aborted
        },
{
    lemma_extraction_stop_from(e, n, m, 0);
}

proof fn lemma_listing_stop_from(e: Seq<(Seq<char>, u64)>, last: int, m: int, k: int)
    requires
        0 <= k <= m <= last,
        forall|j: int| 0 <= j < m ==> #[trigger] has_later_next(e, j),
        m == last || m + 1 >= e.len() || e[m + 1].1 < e[m].1,
    ensures
        listing_stop(e, last, k) == m,
    decreases m - k,
{
    if k < m {
        assert(has_later_next(e, k));
        lemma_listing_stop_from(e, last, m, k + 1);
    }
}

/// How far the listing of an index gets, in terms of the entries: with `n`
/// entries announced it covers the first `m` (at most `n - 1`) when each of
/// them has a next entry that starts at or after it (a size of 0 included),
/// and stops at entry `m` when that is the last announced one, has no next
/// entry, or is followed by an entry that starts before it. Line `j` gives
/// entry `j`'s name and the distance to the next entry's position; the
/// listing is complete when it covers all but the last announced entry.
pub proof fn lemma_listing_shape(e: Seq<(Seq<char>, u64)>, n: int, m: int)
    requires
        0 <= m <= n - 1,
        forall|j: int| 0 <= j < m ==> #[trigger] has_later_next(e, j),
        m == n - 1 || m + 1 >= e.len() || e[m + 1].1 < e[m].1,
    ensures
        listing_len(e, n) == m,
        forall|j: int|
            0 <= j < m ==> #[trigger] listing_row(e, j) == (e[j].0, (e[j + 1].1 - e[j].1) as u64),
        listing_complete(e, n) == (m == n - 1),
{
    lemma_listing_stop_from(e, n - 1, m, 0);
}

proof fn lemma_le_bytes_value(w: u32)
    ensures
        ((w & 0xff) as u8) + 256 * (((w >> 8) & 0xff) as u8) + 65536 * (((w >> 16) & 0xff) as u8)
            + 16777216 * (((w >> 24) & 0xff) as u8) == w,
{
    assert(((w & 0xff) as u8) as u64 + 256 * ((((w >> 8) & 0xff) as u8) as u64) + 65536 * ((((w
        >> 16) & 0xff) as u8) as u64) + 16777216 * ((((w >> 24) & 0xff) as u8) as u64) == w as u64)
        by (bit_vector);
}

/// The number of entries an archive announces: when its first four bytes
/// are the little-endian bytes of `n XOR 0x3BD7A59A`, the index has `n`
/// entries.
pub proof fn lemma_entry_count_round_trip(data: Seq<u8>, n: u32)
    requires
        data.len() >= 4,
        data[0] == ((n ^ 0x3BD7A59Au32) & 0xff) as u8,
        data[1] == (((n ^ 0x3BD7A59Au32) >> 8) & 0xff) as u8,
        data[2] == (((n ^ 0x3BD7A59Au32) >> 16) & 0xff) as u8,
        data[3] == (((n ^ 0x3BD7A59Au32) >> 24) & 0xff) as u8,
    ensures
        index_count(data) == n,
{
    let w = n ^ 0x3BD7A59Au32;
    lemma_le_bytes_value(w);
    assert(le_u32_value(data.subrange(0, 4)) == w);
    assert(w ^ 0x3BD7A59Au32 == n) by (bit_vector)
        requires
            w == n ^ 0x3BD7A59Au32,
    ;
}

/// An entry cut short by the end of the archive: the bytes that were read
/// are decoded as entry `k`, and the rest of the buffer, still holding the
/// decoded bytes of the entry before, is decoded once more as entry `k`.
pub proof fn lemma_short_read_reuses_buffer(data: Seq<u8>, k: nat)
    requires
        k <= u32::MAX,
        4 + 17 * k <= data.len() < 4 + 17 * k + 17,
    ensures
        ({
            let r = data.len() - (4 + 17 * k);
            let prev = if k == 0 {
                Seq::new(17, |i: int| 0u8)
            } else {
                index_buffer(data, (k - 1) as nat)
            };
            &&& index_buffer(data, k).len() == 17
            &&& forall|i: int|
                0 <= i < r ==> #[trigger] index_buffer(data, k)[i] == decrypt_byte(
                    data[4 + 17 * k + i],
                    i + 17 * k,
                )
            &&& forall|i: int|
                r <= i < 17 ==> #[trigger] index_buffer(data, k)[i] == decrypt_byte(
                    prev[i],
                    i + 17 * k,
                )
        }),
{
    lemma_index_buffer_len(data, k);
    if k > 0 {
        lemma_index_buffer_len(data, (k - 1) as nat);
    }
    let read = entry_read(data, k as int);
    assert(read =~= data.subrange(4 + 17 * k as int, data.len() as int));
}

/// The name and position that a decoded entry holds, in terms of its bytes:
/// the position is the little-endian word in bytes 13 to 16 (byte 12 is
/// not used), and the name is bytes 0 to 11 read as UTF-8 once NUL bytes
/// are left out (a name that is not UTF-8 becomes
/// `"parsing failed for this entry"`). NUL bytes are left out wherever
/// they stand, and nothing else is.
pub proof fn lemma_entry_item_fields(dec: Seq<u8>, a: Seq<u8>, b: Seq<u8>)
    requires
        dec.len() >= 17,
    ensures
        entry_item(dec).1 == dec[13] + 256 * dec[14] + 65536 * dec[15] + 16777216 * dec[16],
        entry_item(dec).0 == if valid_utf8(without_nul(dec.subrange(0, 12))) {
            decode_utf8(without_nul(dec.subrange(0, 12)))
        } else {
            "parsing failed for this entry"@
        },
        (forall|i: int| 0 <= i < a.len() ==> a[i] != 0) ==> without_nul(a) == a,
        without_nul(a + seq![0u8] + b) == without_nul(a + b),
        forall|i: int| 0 <= i < without_nul(a).len() ==> without_nul(a)[i] != 0,
{
    lemma_without_nul_keeps_others(a);
    lemma_without_nul_skips_nul(a, b);
    lemma_without_nul_has_no_nul(a);
}

proof fn lemma_without_nul_keeps_others(a: Seq<u8>)
    ensures
        (forall|i: int| 0 <= i < a.len() ==> a[i] != 0) ==> without_nul(a) == a,
    decreases a.len(),
{
    if a.len() > 0 {
        lemma_without_nul_keeps_others(a.drop_last());
        if forall|i: int| 0 <= i < a.len() ==> a[i] != 0 {
            assert forall|i: int| 0 <= i < a.drop_last().len() implies a.drop_last()[i] != 0 by {
                assert(a.drop_last()[i] == a[i]);
            }
            assert(a.last() == a[a.len() - 1]);
            assert(a.drop_last().push(a.last()) =~= a);
        }
    }
}

proof fn lemma_without_nul_has_no_nul(a: Seq<u8>)
    ensures
        forall|i: int| 0 <= i < without_nul(a).len() ==> without_nul(a)[i] != 0,
    decreases a.len(),
{
    if a.len() > 0 {
        lemma_without_nul_has_no_nul(a.drop_last());
        let r = without_nul(a.drop_last());
        if a.last() != 0 {
            assert forall|i: int| 0 <= i < r.push(a.last()).len() implies r.push(a.last())[i]
                != 0 by {
                if i < r.len() {
                    assert(r.push(a.last())[i] == r[i]);
                }
            }
        }
    }
}

proof fn lemma_without_nul_append(a: Seq<u8>, b: Seq<u8>)
    ensures
        without_nul(a + b) == without_nul(a) + without_nul(b),
    decreases b.len(),
{
    if b.len() == 0 {
        assert(a + b =~= a);
        assert(without_nul(a) + without_nul(b) =~= without_nul(a));
    } else {
        lemma_without_nul_append(a, b.drop_last());
        assert((a + b).drop_last() =~= a + b.drop_last());
        assert((a + b).last() == b.last());
        if b.last() != 0 {
            assert(without_nul(a) + without_nul(b.drop_last()).push(b.last()) =~= (without_nul(a)
                + without_nul(b.drop_last())).push(b.last()));
        }
    }
}

proof fn lemma_without_nul_skips_nul(a: Seq<u8>, b: Seq<u8>)
    ensures
        without_nul(a + seq![0u8] + b) == without_nul(a + b),
{
    lemma_without_nul_append(a + seq![0u8], b);
    lemma_without_nul_append(a, b);
    let z = seq![0u8];
    assert((a + z).drop_last() =~= a);
    assert(without_nul(a + z) == without_nul(a));
}

} // verus!
