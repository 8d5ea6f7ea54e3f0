//! The raw on-disk record layout of a symbol cache.
//!
//! Every record is a fixed-width group of little-endian 32-bit words (plus one
//! byte-sized language tag), so the tables can be scanned without any
//! per-record decoding. Optional table references are stored as a 32-bit word
//! whose all-bits-set value means "absent"; an optional line number stores
//! zero for "unknown".

use vstd::prelude::*;
use crate::{Index, LineNumber, RelativeAddress};

verus! {

/// The magic file preamble to identify symbol cache files.
///
/// The big-endian interpretation of the ASCII bytes `S`, `Y`, `M`, `C`, which
/// are the first four bytes of every cache file.
pub const SYMCACHE_MAGIC: u32 = 0x5359_4D43;

/// The byte-flipped magic, which indicates an endianness mismatch.
pub const SYMCACHE_MAGIC_FLIPPED: u32 = 0x434D_5953;

/// The latest version of the file format.
pub const SYMCACHE_VERSION: u32 = 1000;

/// The all-bits-set sentinel stored in an optional index or optional address
/// field to mean "absent".
pub const ABSENT: u32 = 0xFFFF_FFFF;

/// The line number stored when the line is unknown.
pub const NO_LINE: u32 = 0;

/// The fixed counts at the head of every cache file.
///
/// On disk the header region additionally carries the magic, the format
/// version, the 20-byte debug identifier, the architecture tag and a reserved
/// threshold word; this struct holds the fields that in-memory consumers keep.
#[derive(Clone, Copy, Debug, PartialEq, Eq, Structural)]
pub struct Header {
    /// The file magic representing the file format and endianness.
    pub magic: u32,
    /// The format version of the file.
    pub version: u32,
    /// Number of included [`String`]s.
    pub num_strings: u32,
    /// Number of included [`File`]s.
    pub num_files: u32,
    /// Number of included [`Function`]s.
    pub num_functions: u32,
    /// Number of included [`SourceLocation`]s.
    pub num_source_locations: u32,
    /// Number of included [`Range`]s.
    pub num_ranges: u32,
    /// Total number of bytes used for string data.
    pub string_bytes: u32,
}

/// Serialized function metadata in the cache.
#[derive(Clone, Copy, Debug, PartialEq, Eq, Hash, Structural)]
pub struct Function {
    /// The function's name (reference to a [`String`]).
    pub name_idx: Index,
    /// The first address covered by this function, or [`ABSENT`] if unknown.
    pub entry_pc: RelativeAddress,
    /// The language of the function.
    pub lang: u8,
}

/// Serialized file in the cache.
#[derive(Clone, Copy, Debug, PartialEq, Eq, Hash, Structural)]
pub struct File {
    /// The optional compilation directory prefix (reference to a [`String`]),
    /// or [`ABSENT`].
    pub comp_dir_idx: Index,
    /// The optional directory prefix (reference to a [`String`]), or
    /// [`ABSENT`].
    pub directory_idx: Index,
    /// The file path (reference to a [`String`]), or [`ABSENT`].
    pub path_name_idx: Index,
}

/// A location in a source file, comprising a file, a line, a function, and
/// the index of the source location this was inlined into, if any.
///
/// Note that each time a function is inlined, as well as the non-inlined
/// version of the function, is represented by a distinct `SourceLocation`.
/// These `SourceLocation`s will all point to the same file, line, and
/// function, but have different inline information.
#[derive(Clone, Copy, Debug, PartialEq, Eq, Hash, Structural)]
pub struct SourceLocation {
    /// The optional source file (reference to a [`File`]), or [`ABSENT`].
    pub file_idx: Index,
    /// The line number; [`NO_LINE`] when unknown.
    pub line: LineNumber,
    /// The function (reference to a [`Function`]), or [`ABSENT`].
    pub function_idx: Index,
    /// The caller source location in case this location was inlined
    /// (reference to another [`SourceLocation`]), or [`ABSENT`].
    pub inlined_into_idx: Index,
}

/// Serialized string in the cache.
#[derive(Clone, Copy, Debug, PartialEq, Eq, Hash, Structural)]
pub struct String {
    /// The offset into the string data.
    pub string_offset: u32,
    /// Length of the string in bytes.
    pub string_len: u32,
}

/// A representation of a code range in the cache.
///
/// Only the start address is saved; the end is implicitly given by the next
/// range's start, and the last range is open-ended.
#[derive(Clone, Copy, Debug, PartialEq, Eq, Hash, Structural)]
pub struct Range(pub RelativeAddress);

/// The bytes of the string pool that a [`String`] descriptor names.
pub open spec fn string_at(pool: Seq<u8>, s: String) -> Seq<u8> {
    pool.subrange(s.string_offset as int, s.string_offset + s.string_len)
}

/// True of an optional stored word: it is either absent or a valid row index
/// of a table with `len` rows.
pub open spec fn opt_in_bounds(word: u32, len: nat) -> bool {
    word == ABSENT || (word as nat) < len
}

/// Every string descriptor stays within the bounds of a pool of `pool_len`
/// bytes.
pub open spec fn strings_wf(strings: Seq<String>, pool_len: nat) -> bool {
    forall|i: int|
        0 <= i < strings.len() ==> (#[trigger] strings[i]).string_offset + strings[i].string_len
            <= pool_len
}

/// Every string reference of every file row is absent or in bounds.
pub open spec fn files_wf(files: Seq<File>, num_strings: nat) -> bool {
    forall|i: int|
        0 <= i < files.len() ==> {
            &&& opt_in_bounds((#[trigger] files[i]).comp_dir_idx, num_strings)
            &&& opt_in_bounds(files[i].directory_idx, num_strings)
            &&& opt_in_bounds(files[i].path_name_idx, num_strings)
        }
}

/// Every function row names a string that is absent or in bounds.
pub open spec fn functions_wf(functions: Seq<Function>, num_strings: nat) -> bool {
    forall|i: int|
        0 <= i < functions.len() ==> opt_in_bounds((#[trigger] functions[i]).name_idx, num_strings)
}

/// Every source location references files and functions in bounds, and its
/// inline caller, when present, is a strictly earlier row. The last point
/// makes every inline chain acyclic: following `inlined_into_idx` strictly
/// decreases the row index.
pub open spec fn source_locations_wf(
    locs: Seq<SourceLocation>,
    num_files: nat,
    num_functions: nat,
) -> bool {
    forall|i: int|
        0 <= i < locs.len() ==> {
            &&& opt_in_bounds((#[trigger] locs[i]).file_idx, num_files)
            &&& opt_in_bounds(locs[i].function_idx, num_functions)
            &&& (locs[i].inlined_into_idx == ABSENT || (locs[i].inlined_into_idx as int) < i)
        }
}

/// The size of the serialized header region in bytes.
pub const HEADER_SIZE: usize = 80;

/// The little-endian bytes of a stored 32-bit word.
pub open spec fn le32(x: u32) -> Seq<u8> {
    vstd::bytes::spec_u32_to_le_bytes(x)
}

/// A run of `n` zero bytes.
pub open spec fn zeros(n: nat) -> Seq<u8> {
    Seq::new(n, |i: int| 0u8)
}

/// The serialized header region: the four magic bytes, the version, the
/// 20-byte debug identifier, the architecture tag, the table counts, the
/// reserved threshold word, and reserved padding up to [`HEADER_SIZE`].
pub open spec fn ser_header(debug_id: Seq<u8>, arch: u8, h: Header) -> Seq<u8> {
    seq![0x53u8, 0x59u8, 0x4Du8, 0x43u8] + le32(h.version) + debug_id + seq![arch] + zeros(3)
        + le32(h.num_strings) + le32(h.num_files) + le32(h.num_functions) + le32(
        h.num_source_locations,
    ) + le32(h.num_ranges) + le32(h.string_bytes) + zeros(8) + zeros(16)
}

/// One serialized file row.
pub open spec fn ser_file(f: File) -> Seq<u8> {
    le32(f.comp_dir_idx) + le32(f.directory_idx) + le32(f.path_name_idx)
}

/// The serialized files table.
pub open spec fn ser_files(files: Seq<File>) -> Seq<u8>
    decreases files.len(),
{
    if files.len() == 0 {
        Seq::empty()
    } else {
        ser_files(files.drop_last()) + ser_file(files.last())
    }
}

/// One serialized function row: the name and entry words and the language
/// tag, padded to a fixed twelve bytes.
pub open spec fn ser_function(f: Function) -> Seq<u8> {
    le32(f.name_idx) + le32(f.entry_pc) + seq![f.lang] + zeros(3)
}

/// The serialized functions table.
pub open spec fn ser_functions(functions: Seq<Function>) -> Seq<u8>
    decreases functions.len(),
{
    if functions.len() == 0 {
        Seq::empty()
    } else {
        ser_functions(functions.drop_last()) + ser_function(functions.last())
    }
}

/// One serialized source location row.
pub open spec fn ser_location(l: SourceLocation) -> Seq<u8> {
    le32(l.file_idx) + le32(l.line) + le32(l.function_idx) + le32(l.inlined_into_idx)
}

/// The serialized source locations table.
pub open spec fn ser_locations(locs: Seq<SourceLocation>) -> Seq<u8>
    decreases locs.len(),
{
    if locs.len() == 0 {
        Seq::empty()
    } else {
        ser_locations(locs.drop_last()) + ser_location(locs.last())
    }
}

/// One serialized string descriptor.
pub open spec fn ser_string(s: String) -> Seq<u8> {
    le32(s.string_offset) + le32(s.string_len)
}

/// The serialized string descriptor table.
pub open spec fn ser_strings(strings: Seq<String>) -> Seq<u8>
    decreases strings.len(),
{
    if strings.len() == 0 {
        Seq::empty()
    } else {
        ser_strings(strings.drop_last()) + ser_string(strings.last())
    }
}

/// A table of bare 32-bit words: the range addresses and the range source
/// location ids.
pub open spec fn ser_u32s(words: Seq<u32>) -> Seq<u8>
    decreases words.len(),
{
    if words.len() == 0 {
        Seq::empty()
    } else {
        ser_u32s(words.drop_last()) + le32(words.last())
    }
}

/// A section padded with zero bytes to the next 8-byte boundary.
pub open spec fn padded(s: Seq<u8>) -> Seq<u8> {
    s + zeros(spec_align_to_eight(s.len()))
}

/// The length of a section of `n` bytes once padded to the next 8-byte
/// boundary.
pub open spec fn pad8(n: nat) -> nat {
    n + spec_align_to_eight(n)
}

/// The header counts that describe a set of tables.
pub open spec fn header_of(
    strings: Seq<String>,
    files: Seq<File>,
    functions: Seq<Function>,
    locs: Seq<SourceLocation>,
    num_ranges: nat,
    pool_len: nat,
) -> Header {
    Header {
        magic: SYMCACHE_MAGIC,
        version: SYMCACHE_VERSION,
        num_strings: strings.len() as u32,
        num_files: files.len() as u32,
        num_functions: functions.len() as u32,
        num_source_locations: locs.len() as u32,
        num_ranges: num_ranges as u32,
        string_bytes: pool_len as u32,
    }
}

/// The full serialized cache: the header region, then each table padded to an
/// 8-byte boundary, then the string pool.
pub open spec fn ser_cache(
    debug_id: Seq<u8>,
    arch: u8,
    strings: Seq<String>,
    files: Seq<File>,
    functions: Seq<Function>,
    locs: Seq<SourceLocation>,
    range_addrs: Seq<u32>,
    range_sls: Seq<u32>,
    pool: Seq<u8>,
) -> Seq<u8> {
    ser_header(debug_id, arch, header_of(strings, files, functions, locs, range_addrs.len(), pool.len()))
        + padded(ser_files(files)) + padded(ser_functions(functions)) + padded(ser_locations(locs))
        + padded(ser_strings(strings)) + padded(ser_u32s(range_addrs)) + padded(ser_u32s(range_sls))
        + pool
}

/// The serialized files table is twelve bytes per row.
pub proof fn lemma_ser_files_len(files: Seq<File>)
    ensures
        ser_files(files).len() == 12 * files.len(),
    decreases files.len(),
{
    vstd::bytes::lemma_auto_spec_u32_to_from_le_bytes();
    if files.len() > 0 {
        lemma_ser_files_len(files.drop_last());
    }
}

/// The serialized functions table is twelve bytes per row.
pub proof fn lemma_ser_functions_len(functions: Seq<Function>)
    ensures
        ser_functions(functions).len() == 12 * functions.len(),
    decreases functions.len(),
{
    vstd::bytes::lemma_auto_spec_u32_to_from_le_bytes();
    if functions.len() > 0 {
        lemma_ser_functions_len(functions.drop_last());
    }
}

/// The serialized source locations table is sixteen bytes per row.
pub proof fn lemma_ser_locations_len(locs: Seq<SourceLocation>)
    ensures
        ser_locations(locs).len() == 16 * locs.len(),
    decreases locs.len(),
{
    vstd::bytes::lemma_auto_spec_u32_to_from_le_bytes();
    if locs.len() > 0 {
        lemma_ser_locations_len(locs.drop_last());
    }
}

/// The serialized string descriptor table is eight bytes per row.
pub proof fn lemma_ser_strings_len(strings: Seq<String>)
    ensures
        ser_strings(strings).len() == 8 * strings.len(),
    decreases strings.len(),
{
    vstd::bytes::lemma_auto_spec_u32_to_from_le_bytes();
    if strings.len() > 0 {
        lemma_ser_strings_len(strings.drop_last());
    }
}

/// A serialized word table is four bytes per word.
pub proof fn lemma_ser_u32s_len(words: Seq<u32>)
    ensures
        ser_u32s(words).len() == 4 * words.len(),
    decreases words.len(),
{
    vstd::bytes::lemma_auto_spec_u32_to_from_le_bytes();
    if words.len() > 0 {
        lemma_ser_u32s_len(words.drop_last());
    }
}

/// The serialized header region is exactly [`HEADER_SIZE`] bytes.
pub proof fn lemma_ser_header_len(debug_id: Seq<u8>, arch: u8, h: Header)
    requires
        debug_id.len() == 20,
    ensures
        ser_header(debug_id, arch, h).len() == HEADER_SIZE,
{
    vstd::bytes::lemma_auto_spec_u32_to_from_le_bytes();
}

/// The `i`-th row of a serialized files table occupies its twelve bytes.
pub proof fn lemma_ser_files_index(files: Seq<File>, i: int)
    requires
        0 <= i < files.len(),
    ensures
        ser_files(files).subrange(12 * i, 12 * i + 12) == ser_file(files[i]),
    decreases files.len(),
{
    vstd::bytes::lemma_auto_spec_u32_to_from_le_bytes();
    lemma_ser_files_len(files);
    lemma_ser_files_len(files.drop_last());
    if i == files.len() - 1 {
        assert(ser_files(files).subrange(12 * i, 12 * i + 12) =~= ser_file(files[i]));
    } else {
        lemma_ser_files_index(files.drop_last(), i);
        assert(files.drop_last()[i] == files[i]);
        assert(ser_files(files).subrange(12 * i, 12 * i + 12) =~= ser_files(
            files.drop_last(),
        ).subrange(12 * i, 12 * i + 12));
    }
}

/// The `i`-th row of a serialized functions table occupies its twelve bytes.
pub proof fn lemma_ser_functions_index(functions: Seq<Function>, i: int)
    requires
        0 <= i < functions.len(),
    ensures
        ser_functions(functions).subrange(12 * i, 12 * i + 12) == ser_function(functions[i]),
    decreases functions.len(),
{
    vstd::bytes::lemma_auto_spec_u32_to_from_le_bytes();
    lemma_ser_functions_len(functions);
    lemma_ser_functions_len(functions.drop_last());
    if i == functions.len() - 1 {
        assert(ser_functions(functions).subrange(12 * i, 12 * i + 12) =~= ser_function(
            functions[i],
        ));
    } else {
        lemma_ser_functions_index(functions.drop_last(), i);
        assert(functions.drop_last()[i] == functions[i]);
        assert(ser_functions(functions).subrange(12 * i, 12 * i + 12) =~= ser_functions(
            functions.drop_last(),
        ).subrange(12 * i, 12 * i + 12));
    }
}

/// The `i`-th row of a serialized source location table occupies its sixteen
/// bytes.
pub proof fn lemma_ser_locations_index(locs: Seq<SourceLocation>, i: int)
    requires
        0 <= i < locs.len(),
    ensures
        ser_locations(locs).subrange(16 * i, 16 * i + 16) == ser_location(locs[i]),
    decreases locs.len(),
{
    vstd::bytes::lemma_auto_spec_u32_to_from_le_bytes();
    lemma_ser_locations_len(locs);
    lemma_ser_locations_len(locs.drop_last());
    if i == locs.len() - 1 {
        assert(ser_locations(locs).subrange(16 * i, 16 * i + 16) =~= ser_location(locs[i]));
    } else {
        lemma_ser_locations_index(locs.drop_last(), i);
        assert(locs.drop_last()[i] == locs[i]);
        assert(ser_locations(locs).subrange(16 * i, 16 * i + 16) =~= ser_locations(
            locs.drop_last(),
        ).subrange(16 * i, 16 * i + 16));
    }
}

/// The `i`-th row of a serialized string descriptor table occupies its eight
/// bytes.
pub proof fn lemma_ser_strings_index(strings: Seq<String>, i: int)
    requires
        0 <= i < strings.len(),
    ensures
        ser_strings(strings).subrange(8 * i, 8 * i + 8) == ser_string(strings[i]),
    decreases strings.len(),
{
    vstd::bytes::lemma_auto_spec_u32_to_from_le_bytes();
    lemma_ser_strings_len(strings);
    lemma_ser_strings_len(strings.drop_last());
    if i == strings.len() - 1 {
        assert(ser_strings(strings).subrange(8 * i, 8 * i + 8) =~= ser_string(strings[i]));
    } else {
        lemma_ser_strings_index(strings.drop_last(), i);
        assert(strings.drop_last()[i] == strings[i]);
        assert(ser_strings(strings).subrange(8 * i, 8 * i + 8) =~= ser_strings(
            strings.drop_last(),
        ).subrange(8 * i, 8 * i + 8));
    }
}

/// The `i`-th word of a serialized word table occupies its four bytes.
pub proof fn lemma_ser_u32s_index(words: Seq<u32>, i: int)
    requires
        0 <= i < words.len(),
    ensures
        ser_u32s(words).subrange(4 * i, 4 * i + 4) == le32(words[i]),
    decreases words.len(),
{
    vstd::bytes::lemma_auto_spec_u32_to_from_le_bytes();
    lemma_ser_u32s_len(words);
    lemma_ser_u32s_len(words.drop_last());
    if i == words.len() - 1 {
        assert(ser_u32s(words).subrange(4 * i, 4 * i + 4) =~= le32(words[i]));
    } else {
        lemma_ser_u32s_index(words.drop_last(), i);
        assert(words.drop_last()[i] == words[i]);
        assert(ser_u32s(words).subrange(4 * i, 4 * i + 4) =~= ser_u32s(
            words.drop_last(),
        ).subrange(4 * i, 4 * i + 4));
    }
}

/// Each section of a serialized cache stands at the offset its counts
/// declare, and the whole buffer ends right after the string pool.
pub proof fn lemma_ser_cache_sections(
    debug_id: Seq<u8>,
    arch: u8,
    strings: Seq<String>,
    files: Seq<File>,
    functions: Seq<Function>,
    locs: Seq<SourceLocation>,
    range_addrs: Seq<u32>,
    range_sls: Seq<u32>,
    pool: Seq<u8>,
)
    requires
        debug_id.len() == 20,
    ensures
        ({
            let b = ser_cache(
                debug_id,
                arch,
                strings,
                files,
                functions,
                locs,
                range_addrs,
                range_sls,
                pool,
            );
            let fo = HEADER_SIZE as int;
            let fno = fo + pad8(12 * files.len());
            let lo = fno + pad8(12 * functions.len());
            let so = lo + pad8(16 * locs.len());
            let ro = so + pad8(8 * strings.len());
            let slo = ro + pad8(4 * range_addrs.len());
            let po = slo + pad8(4 * range_sls.len());
            &&& b.len() == po + pool.len()
            &&& b.subrange(fo, fo + 12 * files.len()) == ser_files(files)
            &&& b.subrange(fno, fno + 12 * functions.len()) == ser_functions(functions)
            &&& b.subrange(lo, lo + 16 * locs.len()) == ser_locations(locs)
            &&& b.subrange(so, so + 8 * strings.len()) == ser_strings(strings)
            &&& b.subrange(ro, ro + 4 * range_addrs.len()) == ser_u32s(range_addrs)
            &&& b.subrange(slo, slo + 4 * range_sls.len()) == ser_u32s(range_sls)
            &&& b.subrange(po, po + pool.len()) == pool
        }),
{
    let h = header_of(strings, files, functions, locs, range_addrs.len(), pool.len());
    lemma_ser_header_len(debug_id, arch, h);
    lemma_ser_files_len(files);
    lemma_ser_functions_len(functions);
    lemma_ser_locations_len(locs);
    lemma_ser_strings_len(strings);
    lemma_ser_u32s_len(range_addrs);
    lemma_ser_u32s_len(range_sls);
    let b = ser_cache(debug_id, arch, strings, files, functions, locs, range_addrs, range_sls, pool);
    let fo = HEADER_SIZE as int;
    let fno = fo + pad8(12 * files.len());
    let lo = fno + pad8(12 * functions.len());
    let so = lo + pad8(16 * locs.len());
    let ro = so + pad8(8 * strings.len());
    let slo = ro + pad8(4 * range_addrs.len());
    let po = slo + pad8(4 * range_sls.len());
    assert(padded(ser_files(files)).len() == pad8(12 * files.len()));
    assert(padded(ser_functions(functions)).len() == pad8(12 * functions.len()));
    assert(padded(ser_locations(locs)).len() == pad8(16 * locs.len()));
    assert(padded(ser_strings(strings)).len() == pad8(8 * strings.len()));
    assert(padded(ser_u32s(range_addrs)).len() == pad8(4 * range_addrs.len()));
    assert(padded(ser_u32s(range_sls)).len() == pad8(4 * range_sls.len()));
    assert(b.subrange(fo, fo + 12 * files.len()) =~= ser_files(files));
    assert(b.subrange(fno, fno + 12 * functions.len()) =~= ser_functions(functions));
    assert(b.subrange(lo, lo + 16 * locs.len()) =~= ser_locations(locs));
    assert(b.subrange(so, so + 8 * strings.len()) =~= ser_strings(strings));
    assert(b.subrange(ro, ro + 4 * range_addrs.len()) =~= ser_u32s(range_addrs));
    assert(b.subrange(slo, slo + 4 * range_sls.len()) =~= ser_u32s(range_sls));
    assert(b.subrange(po, po + pool.len()) =~= pool);
}

/// The number of bytes that pad a section of `n` bytes to the next 8-byte
/// boundary.
pub open spec fn spec_align_to_eight(n: nat) -> nat {
    if n % 8 == 0 {
        0
    } else {
        (8 - n % 8) as nat
    }
}

/// Returns the amount left to add to the remainder to get 8 if
/// `to_align` isn't a multiple of 8.
pub fn align_to_eight(to_align: usize) -> (r: usize)
    ensures
        r == spec_align_to_eight(to_align as nat),
        r < 8,
        (to_align + r) % 8 == 0,
{
    let remainder = to_align % 8;
    if remainder == 0 {
        remainder
    } else {
        8 - remainder
    }
}

/// The inline chain from a source location: the location itself, then its
/// callers, following `inlined_into_idx` while it names an earlier row.
pub open spec fn chain_of(locs: Seq<SourceLocation>, i: int) -> Seq<SourceLocation>
    recommends
        0 <= i < locs.len(),
    decreases i when 0 <= i
{
    let sl = locs[i];
    if sl.inlined_into_idx != ABSENT && 0 <= (sl.inlined_into_idx as int) < i {
        seq![sl] + chain_of(locs, sl.inlined_into_idx as int)
    } else {
        seq![sl]
    }
}

/// Every inline chain is finite: following `inlined_into_idx` from row `i`
/// reaches an absent link after at most `i + 1` frames, because each link
/// names a strictly earlier row.
pub proof fn lemma_chain_terminates(locs: Seq<SourceLocation>, i: int)
    requires
        0 <= i < locs.len(),
    ensures
        1 <= chain_of(locs, i).len() <= i + 1,
    decreases i,
{
    let sl = locs[i];
    if sl.inlined_into_idx != ABSENT && 0 <= (sl.inlined_into_idx as int) < i {
        lemma_chain_terminates(locs, sl.inlined_into_idx as int);
    }
}

/// A chain only reads rows at or before its start: rows appended later leave
/// it unchanged.
pub proof fn lemma_chain_stable(old_locs: Seq<SourceLocation>, new_locs: Seq<SourceLocation>, i: int)
    requires
        old_locs.len() <= new_locs.len(),
        forall|j: int| 0 <= j < old_locs.len() ==> new_locs[j] == old_locs[j],
        0 <= i < old_locs.len(),
    ensures
        chain_of(new_locs, i) == chain_of(old_locs, i),
    decreases i,
{
    let sl = old_locs[i];
    if sl.inlined_into_idx != ABSENT && 0 <= (sl.inlined_into_idx as int) < i {
        lemma_chain_stable(old_locs, new_locs, sl.inlined_into_idx as int);
    }
}

/// Every inline chain of the table is at most 256 frames deep.
pub open spec fn chains_bounded(locs: Seq<SourceLocation>) -> bool {
    forall|i: int| 0 <= i < locs.len() ==> chain_of(locs, i).len() <= 256
}

} // verus!
