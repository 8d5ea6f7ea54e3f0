//! The lookup engine: it parses a serialized cache into validated tables and
//! answers per-address queries with the full inline chain.

use vstd::prelude::*;
use crate::raw;
use crate::raw::chain_of;

verus! {

/// An error returned when a buffer is not a valid serialized cache.
#[derive(Clone, Copy, Debug, PartialEq, Eq, Structural)]
pub enum ParseError {
    /// The first four bytes name no known format.
    BadMagic,
    /// The first four bytes are the byte-swapped magic: the file was written
    /// on a machine of the other endianness and is rejected, never swapped.
    EndianMismatch,
    /// The version word names an unsupported format version.
    WrongVersion,
    /// The buffer ends before the tables its header declares.
    Truncated,
    /// The buffer runs past the end of the tables its header declares.
    BadAlignment,
    /// A string descriptor points outside the string data.
    InvalidString,
    /// A stored index is out of bounds, a range is out of order, or a
    /// reserved padding byte is not zero.
    Corrupt,
}

/// A parsed cache: validated owned tables.
#[derive(Debug)]
pub struct SymCache {
    /// The 20-byte debug identifier of the module.
    pub debug_id: Vec<u8>,
    /// The architecture tag of the module.
    pub arch: u8,
    /// The packed string data.
    pub string_bytes: Vec<u8>,
    /// The string descriptors.
    pub strings: Vec<raw::String>,
    /// The file rows.
    pub files: Vec<raw::File>,
    /// The function rows.
    pub functions: Vec<raw::Function>,
    /// The source locations.
    pub source_locations: Vec<raw::SourceLocation>,
    /// The range start addresses, strictly increasing.
    pub range_addrs: Vec<u32>,
    /// The source location word of each range.
    pub range_sls: Vec<u32>,
}

/// The addresses are strictly increasing.
pub open spec fn addrs_strictly_sorted(addrs: Seq<u32>) -> bool {
    forall|i: int, j: int| 0 <= i < j < addrs.len() ==> addrs[i] < addrs[j]
}

/// Every range maps to a source location in bounds or to the absent sentinel.
pub open spec fn sls_in_bounds(sls: Seq<u32>, num_locs: nat) -> bool {
    forall|i: int| 0 <= i < sls.len() ==> raw::opt_in_bounds(#[trigger] sls[i], num_locs)
}

impl SymCache {
    /// Every stored reference is absent or in bounds, inline callers precede
    /// their callees, the ranges are strictly sorted, and the two range
    /// columns have equal length.
    pub open spec fn wf(&self) -> bool {
        &&& self.debug_id@.len() == 20
        &&& raw::strings_wf(self.strings@, self.string_bytes@.len())
        &&& raw::files_wf(self.files@, self.strings@.len())
        &&& raw::functions_wf(self.functions@, self.strings@.len())
        &&& raw::source_locations_wf(
            self.source_locations@,
            self.files@.len(),
            self.functions@.len(),
        )
        &&& raw::chains_bounded(self.source_locations@)
        &&& self.range_sls@.len() == self.range_addrs@.len()
        &&& addrs_strictly_sorted(self.range_addrs@)
        &&& sls_in_bounds(self.range_sls@, self.source_locations@.len())
    }
}

/// The index of the last address at or below `a`, or -1 when every address
/// lies above `a`.
pub open spec fn last_le(addrs: Seq<u32>, a: u32) -> int
    decreases addrs.len(),
{
    if addrs.len() == 0 {
        -1
    } else if addrs.last() <= a {
        addrs.len() - 1
    } else {
        last_le(addrs.drop_last(), a)
    }
}

/// On a sorted address list, a position below or at `a` whose successor lies
/// above `a` is the last position at or below `a`.
pub proof fn lemma_last_le_char(addrs: Seq<u32>, a: u32, p: int)
    requires
        addrs_strictly_sorted(addrs),
        -1 <= p < addrs.len(),
        p >= 0 ==> addrs[p] <= a,
        p + 1 < addrs.len() ==> addrs[p + 1] > a,
        p == -1 && addrs.len() > 0 ==> addrs[0] > a,
    ensures
        last_le(addrs, a) == p,
    decreases addrs.len(),
{
    if addrs.len() > 0 {
        if addrs.last() <= a {
            if p < addrs.len() - 1 {
                if p >= 0 {
                    assert(addrs[p + 1] > a);
                    if p + 1 < addrs.len() - 1 {
                        assert(addrs[p + 1] < addrs[addrs.len() - 1]);
                    }
                    assert(false);
                } else {
                    assert(addrs[0] > a);
                    if 0 < addrs.len() - 1 {
                        assert(addrs[0] < addrs[addrs.len() - 1]);
                    }
                    assert(false);
                }
            }
        } else {
            let pre = addrs.drop_last();
            assert(addrs_strictly_sorted(pre));
            assert(p < addrs.len() - 1);
            lemma_last_le_char(pre, a, p);
        }
    }
}

/// Reads the little-endian word at `pos`.
fn read_u32(buf: &[u8], pos: usize) -> (x: u32)
    requires
        pos + 4 <= buf@.len(),
    ensures
        raw::le32(x) == buf@.subrange(pos as int, pos + 4),
{
    let _blen = buf.len();
    let s = vstd::slice::slice_subrange(buf, pos, pos + 4);
    let x = vstd::bytes::u32_from_le_bytes(s);
    proof {
        vstd::bytes::lemma_auto_spec_u32_to_from_le_bytes();
    }
    x
}

/// The count stored at byte offset `off` of a serialized header.
pub open spec fn nfield(b: Seq<u8>, off: int) -> nat {
    vstd::bytes::spec_u32_from_le_bytes(b.subrange(off, off + 4)) as nat
}

/// The total byte length that the counts of a header declare.
pub open spec fn total_size(b: Seq<u8>) -> nat {
    (raw::HEADER_SIZE + raw::pad8(12 * nfield(b, 36)) + raw::pad8(12 * nfield(b, 40)) + raw::pad8(
        16 * nfield(b, 44),
    ) + raw::pad8(8 * nfield(b, 32)) + raw::pad8(4 * nfield(b, 48)) + raw::pad8(
        4 * nfield(b, 48),
    ) + nfield(b, 52)) as nat
}

/// The number of bytes that pad a 64-bit section length to the next 8-byte
/// boundary.
fn pad8_u64(n: u64) -> (r: u64)
    requires
        n <= 0x10_0000_0000u64,
    ensures
        n + r == raw::pad8(n as nat),
        r < 8,
{
    let rem = n % 8;
    if rem == 0 {
        0
    } else {
        8 - rem
    }
}

/// One frozen table set, as it stands behind a serialized cache.
pub struct TableSet {
    /// The 20-byte debug identifier.
    pub debug_id: Seq<u8>,
    /// The architecture tag.
    pub arch: u8,
    /// The string descriptors.
    pub strings: Seq<raw::String>,
    /// The file rows.
    pub files: Seq<raw::File>,
    /// The function rows.
    pub functions: Seq<raw::Function>,
    /// The source locations.
    pub locs: Seq<raw::SourceLocation>,
    /// The range start addresses.
    pub range_addrs: Seq<u32>,
    /// The source location word of each range.
    pub range_sls: Seq<u32>,
    /// The string pool bytes.
    pub pool: Seq<u8>,
}

/// The table set is well-formed and fits the 32-bit header counts.
pub open spec fn good_tables(t: TableSet) -> bool {
    &&& t.debug_id.len() == 20
    &&& t.strings.len() <= 0xFFFF_FFFF
    &&& t.files.len() <= 0xFFFF_FFFF
    &&& t.functions.len() <= 0xFFFF_FFFF
    &&& t.locs.len() <= 0xFFFF_FFFF
    &&& t.range_addrs.len() <= 0xFFFF_FFFF
    &&& t.pool.len() <= 0xFFFF_FFFF
    &&& raw::strings_wf(t.strings, t.pool.len())
    &&& raw::files_wf(t.files, t.strings.len())
    &&& raw::functions_wf(t.functions, t.strings.len())
    &&& raw::source_locations_wf(t.locs, t.files.len(), t.functions.len())
    &&& raw::chains_bounded(t.locs)
    &&& t.range_sls.len() == t.range_addrs.len()
    &&& addrs_strictly_sorted(t.range_addrs)
    &&& sls_in_bounds(t.range_sls, t.locs.len())
}

/// The serialization of a table set.
pub open spec fn ser_of(t: TableSet) -> Seq<u8> {
    raw::ser_cache(
        t.debug_id,
        t.arch,
        t.strings,
        t.files,
        t.functions,
        t.locs,
        t.range_addrs,
        t.range_sls,
        t.pool,
    )
}

/// The buffer is the serialization of some well-formed table set.
pub open spec fn parseable(b: Seq<u8>) -> bool {
    exists|t: TableSet| #![auto] b == ser_of(t) && good_tables(t)
}

/// Reads the little-endian word at `pos` as a table count.
fn read_count(buf: &[u8], pos: usize) -> (x: u32)
    requires
        pos + 4 <= buf@.len(),
    ensures
        raw::le32(x) == buf@.subrange(pos as int, pos + 4),
        x as nat == nfield(buf@, pos as int),
{
    let _blen = buf.len();
    let s = vstd::slice::slice_subrange(buf, pos, pos + 4);
    let x = vstd::bytes::u32_from_le_bytes(s);
    proof {
        vstd::bytes::lemma_auto_spec_u32_to_from_le_bytes();
    }
    x
}

impl SymCache {
    /// Parses and validates a serialized cache.
    ///
    /// On success the returned tables are well-formed, and the header fields
    /// and every table are pinned to the bytes of the buffer: each table's
    /// serialization equals its section of the buffer. The reader never
    /// byte-swaps: a byte-swapped magic is rejected as an endianness
    /// mismatch.
    #[verifier::rlimit(100)]
    pub fn parse(buf: &[u8]) -> (r: Result<SymCache, ParseError>)
        ensures
            match r {
                Ok(c) => ({
                    let fo = raw::HEADER_SIZE as int;
                    let fno = fo + raw::pad8(12 * c.files@.len());
                    let lo = fno + raw::pad8(12 * c.functions@.len());
                    let so = lo + raw::pad8(16 * c.source_locations@.len());
                    let ro = so + raw::pad8(8 * c.strings@.len());
                    let slo = ro + raw::pad8(4 * c.range_addrs@.len());
                    let po = slo + raw::pad8(4 * c.range_sls@.len());
                    &&& c.wf()
                    &&& buf@.len() >= raw::HEADER_SIZE
                    &&& buf@.subrange(0, 4) == seq![0x53u8, 0x59u8, 0x4Du8, 0x43u8]
                    &&& vstd::bytes::spec_u32_from_le_bytes(buf@.subrange(4, 8))
                        == raw::SYMCACHE_VERSION
                    &&& c.debug_id@ == buf@.subrange(8, 28)
                    &&& c.arch == buf@[28]
                    &&& c.strings@.len() == nfield(buf@, 32)
                    &&& c.files@.len() == nfield(buf@, 36)
                    &&& c.functions@.len() == nfield(buf@, 40)
                    &&& c.source_locations@.len() == nfield(buf@, 44)
                    &&& c.range_addrs@.len() == nfield(buf@, 48)
                    &&& c.string_bytes@.len() == nfield(buf@, 52)
                    &&& raw::ser_files(c.files@) == buf@.subrange(fo, fo + 12 * c.files@.len())
                    &&& raw::ser_functions(c.functions@) == buf@.subrange(
                        fno,
                        fno + 12 * c.functions@.len(),
                    )
                    &&& raw::ser_locations(c.source_locations@) == buf@.subrange(
                        lo,
                        lo + 16 * c.source_locations@.len(),
                    )
                    &&& raw::ser_strings(c.strings@) == buf@.subrange(
                        so,
                        so + 8 * c.strings@.len(),
                    )
                    &&& raw::ser_u32s(c.range_addrs@) == buf@.subrange(
                        ro,
                        ro + 4 * c.range_addrs@.len(),
                    )
                    &&& raw::ser_u32s(c.range_sls@) == buf@.subrange(
                        slo,
                        slo + 4 * c.range_sls@.len(),
                    )
                    &&& c.string_bytes@ == buf@.subrange(po, po + c.string_bytes@.len())
                }),
                Err(e) => match e {
                    ParseError::Truncated => buf@.len() < raw::HEADER_SIZE || buf@.len()
                        < total_size(buf@),
                    ParseError::BadMagic => buf@.len() >= raw::HEADER_SIZE && buf@.subrange(0, 4)
                        != seq![0x53u8, 0x59u8, 0x4Du8, 0x43u8] && buf@.subrange(0, 4) != seq![
                        0x43u8,
                        0x4Du8,
                        0x59u8,
                        0x53u8,
                    ],
                    ParseError::EndianMismatch => buf@.len() >= raw::HEADER_SIZE && buf@.subrange(
                        0,
                        4,
                    ) == seq![0x43u8, 0x4Du8, 0x59u8, 0x53u8],
                    ParseError::WrongVersion => buf@.len() >= raw::HEADER_SIZE
                        && vstd::bytes::spec_u32_from_le_bytes(buf@.subrange(4, 8))
                        != raw::SYMCACHE_VERSION,
                    ParseError::BadAlignment => buf@.len() > total_size(buf@),
                    ParseError::InvalidString => true,
                    ParseError::Corrupt => true,
                },
            },
    {
        let blen = buf.len();
        if blen < raw::HEADER_SIZE {
            return Err(ParseError::Truncated);
        }
        let m0 = buf[0];
        let m1 = buf[1];
        let m2 = buf[2];
        let m3 = buf[3];
        let magic_ok = m0 == 0x53u8 && m1 == 0x59u8 && m2 == 0x4Du8 && m3 == 0x43u8;
        let magic_flipped = m0 == 0x43u8 && m1 == 0x4Du8 && m2 == 0x59u8 && m3 == 0x53u8;
        proof {
            if magic_ok {
                assert(buf@.subrange(0, 4) =~= seq![0x53u8, 0x59u8, 0x4Du8, 0x43u8]);
            } else {
                assert(buf@.subrange(0, 4) != seq![0x53u8, 0x59u8, 0x4Du8, 0x43u8]) by {
                    assert(buf@.subrange(0, 4)[0] == m0 && buf@.subrange(0, 4)[1] == m1
                        && buf@.subrange(0, 4)[2] == m2 && buf@.subrange(0, 4)[3] == m3);
                }
            }
            if magic_flipped {
                assert(buf@.subrange(0, 4) =~= seq![0x43u8, 0x4Du8, 0x59u8, 0x53u8]);
            } else {
                assert(buf@.subrange(0, 4) != seq![0x43u8, 0x4Du8, 0x59u8, 0x53u8]) by {
                    assert(buf@.subrange(0, 4)[0] == m0 && buf@.subrange(0, 4)[1] == m1
                        && buf@.subrange(0, 4)[2] == m2 && buf@.subrange(0, 4)[3] == m3);
                }
            }
        }
        if magic_flipped {
            return Err(ParseError::EndianMismatch);
        }
        if !magic_ok {
            return Err(ParseError::BadMagic);
        }
        let version = read_count(buf, 4);
        if version != raw::SYMCACHE_VERSION {
            return Err(ParseError::WrongVersion);
        }
        let arch = buf[28];
        let num_strings = read_count(buf, 32);
        let num_files = read_count(buf, 36);
        let num_functions = read_count(buf, 40);
        let num_locs = read_count(buf, 44);
        let num_ranges = read_count(buf, 48);
        let pool_len = read_count(buf, 52);
        let files_sz = 12u64 * (num_files as u64);
        let functions_sz = 12u64 * (num_functions as u64);
        let locs_sz = 16u64 * (num_locs as u64);
        let strings_sz = 8u64 * (num_strings as u64);
        let ranges_sz = 4u64 * (num_ranges as u64);
        let fo: u64 = raw::HEADER_SIZE as u64;
        let fno: u64 = fo + files_sz + pad8_u64(files_sz);
        let lo: u64 = fno + functions_sz + pad8_u64(functions_sz);
        let so: u64 = lo + locs_sz + pad8_u64(locs_sz);
        let ro: u64 = so + strings_sz + pad8_u64(strings_sz);
        let slo: u64 = ro + ranges_sz + pad8_u64(ranges_sz);
        let po: u64 = slo + ranges_sz + pad8_u64(ranges_sz);
        let total: u64 = po + (pool_len as u64);
        proof {
            assert(total == total_size(buf@));
        }
        if (blen as u64) < total {
            return Err(ParseError::Truncated);
        }
        if (blen as u64) > total {
            return Err(ParseError::BadAlignment);
        }
        let debug_id = vstd::slice::slice_to_vec(vstd::slice::slice_subrange(buf, 8, 28));
        // Files table.
        let mut files: Vec<raw::File> = Vec::new();
        let base = fo as usize;
        let mut pos: usize = base;
        let mut i: usize = 0;
        proof {
            assert(raw::ser_files(files@) =~= buf@.subrange(base as int, base as int));
        }
        while i < num_files as usize
            invariant
                i <= num_files as usize,
                pos == base + 12 * i,
                base + 12 * (num_files as usize) <= blen,
                blen == buf@.len(),
                files@.len() == i,
                raw::files_wf(files@, num_strings as nat),
                raw::ser_files(files@) == buf@.subrange(base as int, pos as int),
            decreases num_files as usize - i,
        {
            let w0 = read_u32(buf, pos);
            let w1 = read_u32(buf, pos + 4);
            let w2 = read_u32(buf, pos + 8);
            if (w0 != raw::ABSENT && w0 >= num_strings) || (w1 != raw::ABSENT && w1 >= num_strings)
                || (w2 != raw::ABSENT && w2 >= num_strings) {
                return Err(ParseError::Corrupt);
            }
            let row = raw::File { comp_dir_idx: w0, directory_idx: w1, path_name_idx: w2 };
            let ghost prev = files@;
            files.push(row);
            proof {
                assert(files@.drop_last() =~= prev);
                assert(raw::ser_file(row) =~= buf@.subrange(pos as int, pos + 12));
                assert(raw::ser_files(files@) =~= buf@.subrange(base as int, pos + 12));
            }
            pos = pos + 12;
            i = i + 1;
        }
        // Functions table.
        let mut functions: Vec<raw::Function> = Vec::new();
        let base = fno as usize;
        let mut pos: usize = base;
        let mut i: usize = 0;
        proof {
            assert(raw::ser_functions(functions@) =~= buf@.subrange(base as int, base as int));
        }
        while i < num_functions as usize
            invariant
                i <= num_functions as usize,
                pos == base + 12 * i,
                base + 12 * (num_functions as usize) <= blen,
                blen == buf@.len(),
                functions@.len() == i,
                raw::functions_wf(functions@, num_strings as nat),
                raw::ser_functions(functions@) == buf@.subrange(base as int, pos as int),
            decreases num_functions as usize - i,
        {
            let w0 = read_u32(buf, pos);
            let w1 = read_u32(buf, pos + 4);
            let lang = buf[pos + 8];
            if buf[pos + 9] != 0 || buf[pos + 10] != 0 || buf[pos + 11] != 0 {
                return Err(ParseError::Corrupt);
            }
            if w0 != raw::ABSENT && w0 >= num_strings {
                return Err(ParseError::Corrupt);
            }
            let row = raw::Function { name_idx: w0, entry_pc: w1, lang };
            let ghost prev = functions@;
            functions.push(row);
            proof {
                assert(functions@.drop_last() =~= prev);
                assert(raw::ser_function(row) =~= buf@.subrange(pos as int, pos + 12));
                assert(raw::ser_functions(functions@) =~= buf@.subrange(base as int, pos + 12));
            }
            pos = pos + 12;
            i = i + 1;
        }
        // Source locations table. The running `depths` column holds each
        // row's inline chain length, to reject chains deeper than 256 frames.
        let mut locs: Vec<raw::SourceLocation> = Vec::new();
        let mut depths: Vec<u32> = Vec::new();
        let base = lo as usize;
        let mut pos: usize = base;
        let mut i: usize = 0;
        proof {
            assert(raw::ser_locations(locs@) =~= buf@.subrange(base as int, base as int));
        }
        while i < num_locs as usize
            invariant
                i <= num_locs as usize,
                pos == base + 16 * i,
                base + 16 * (num_locs as usize) <= blen,
                blen == buf@.len(),
                locs@.len() == i,
                depths@.len() == i,
                forall|j: int|
                    0 <= j < i ==> (#[trigger] depths@[j]) as int == raw::chain_of(locs@, j).len()
                        && depths@[j] <= 256,
                raw::source_locations_wf(locs@, num_files as nat, num_functions as nat),
                raw::ser_locations(locs@) == buf@.subrange(base as int, pos as int),
            decreases num_locs as usize - i,
        {
            let w0 = read_u32(buf, pos);
            let w1 = read_u32(buf, pos + 4);
            let w2 = read_u32(buf, pos + 8);
            let w3 = read_u32(buf, pos + 12);
            if w0 != raw::ABSENT && w0 >= num_files {
                return Err(ParseError::Corrupt);
            }
            if w2 != raw::ABSENT && w2 >= num_functions {
                return Err(ParseError::Corrupt);
            }
            if w3 != raw::ABSENT && (w3 as usize) >= i {
                return Err(ParseError::Corrupt);
            }
            let depth: u32 = if w3 == raw::ABSENT {
                1
            } else {
                let d = depths[w3 as usize];
                if d >= 256 {
                    return Err(ParseError::Corrupt);
                }
                d + 1
            };
            let row = raw::SourceLocation {
                file_idx: w0,
                line: w1,
                function_idx: w2,
                inlined_into_idx: w3,
            };
            let ghost prev = locs@;
            locs.push(row);
            depths.push(depth);
            proof {
                assert(locs@.drop_last() =~= prev);
                assert(raw::ser_location(row) =~= buf@.subrange(pos as int, pos + 16));
                assert(raw::ser_locations(locs@) =~= buf@.subrange(base as int, pos + 16));
                assert forall|j: int| 0 <= j < i implies raw::chain_of(locs@, j) == raw::chain_of(
                    prev,
                    j,
                ) by {
                    raw::lemma_chain_stable(prev, locs@, j);
                }
                if w3 != raw::ABSENT {
                    raw::lemma_chain_stable(prev, locs@, w3 as int);
                }
            }
            pos = pos + 16;
            i = i + 1;
        }
        // String descriptors.
        let mut strings: Vec<raw::String> = Vec::new();
        let base = so as usize;
        let mut pos: usize = base;
        let mut i: usize = 0;
        proof {
            assert(raw::ser_strings(strings@) =~= buf@.subrange(base as int, base as int));
        }
        while i < num_strings as usize
            invariant
                i <= num_strings as usize,
                pos == base + 8 * i,
                base + 8 * (num_strings as usize) <= blen,
                blen == buf@.len(),
                strings@.len() == i,
                raw::strings_wf(strings@, pool_len as nat),
                raw::ser_strings(strings@) == buf@.subrange(base as int, pos as int),
            decreases num_strings as usize - i,
        {
            let w0 = read_u32(buf, pos);
            let w1 = read_u32(buf, pos + 4);
            if (w0 as u64) + (w1 as u64) > (pool_len as u64) {
                return Err(ParseError::InvalidString);
            }
            let row = raw::String { string_offset: w0, string_len: w1 };
            let ghost prev = strings@;
            strings.push(row);
            proof {
                assert(strings@.drop_last() =~= prev);
                assert(raw::ser_string(row) =~= buf@.subrange(pos as int, pos + 8));
                assert(raw::ser_strings(strings@) =~= buf@.subrange(base as int, pos + 8));
            }
            pos = pos + 8;
            i = i + 1;
        }
        // Range addresses.
        let mut range_addrs: Vec<u32> = Vec::new();
        let base = ro as usize;
        let mut pos: usize = base;
        let mut i: usize = 0;
        proof {
            assert(raw::ser_u32s(range_addrs@) =~= buf@.subrange(base as int, base as int));
        }
        while i < num_ranges as usize
            invariant
                i <= num_ranges as usize,
                pos == base + 4 * i,
                base + 4 * (num_ranges as usize) <= blen,
                blen == buf@.len(),
                range_addrs@.len() == i,
                addrs_strictly_sorted(range_addrs@),
                raw::ser_u32s(range_addrs@) == buf@.subrange(base as int, pos as int),
            decreases num_ranges as usize - i,
        {
            let w = read_u32(buf, pos);
            if range_addrs.len() > 0 {
                let last = range_addrs[range_addrs.len() - 1];
                if w <= last {
                    return Err(ParseError::Corrupt);
                }
            }
            let ghost prev = range_addrs@;
            range_addrs.push(w);
            proof {
                assert(range_addrs@.drop_last() =~= prev);
                assert(raw::ser_u32s(range_addrs@) =~= buf@.subrange(base as int, pos + 4));
                assert forall|p: int, q: int|
                    0 <= p < q < range_addrs@.len() implies range_addrs@[p] < range_addrs@[q] by {
                    if q < range_addrs@.len() - 1 {
                        assert(prev[p] < prev[q]);
                    } else if p < range_addrs@.len() - 1 {
                        assert(prev[p] <= prev[prev.len() - 1]);
                    }
                }
            }
            pos = pos + 4;
            i = i + 1;
        }
        // Range source location words.
        let mut range_sls: Vec<u32> = Vec::new();
        let base = slo as usize;
        let mut pos: usize = base;
        let mut i: usize = 0;
        proof {
            assert(raw::ser_u32s(range_sls@) =~= buf@.subrange(base as int, base as int));
        }
        while i < num_ranges as usize
            invariant
                i <= num_ranges as usize,
                pos == base + 4 * i,
                base + 4 * (num_ranges as usize) <= blen,
                blen == buf@.len(),
                range_sls@.len() == i,
                sls_in_bounds(range_sls@, num_locs as nat),
                raw::ser_u32s(range_sls@) == buf@.subrange(base as int, pos as int),
            decreases num_ranges as usize - i,
        {
            let w = read_u32(buf, pos);
            if w != raw::ABSENT && w >= num_locs {
                return Err(ParseError::Corrupt);
            }
            let ghost prev = range_sls@;
            range_sls.push(w);
            proof {
                assert(range_sls@.drop_last() =~= prev);
                assert(raw::ser_u32s(range_sls@) =~= buf@.subrange(base as int, pos + 4));
            }
            pos = pos + 4;
            i = i + 1;
        }
        // String pool.
        let pb = po as usize;
        let string_bytes = vstd::slice::slice_to_vec(
            vstd::slice::slice_subrange(buf, pb, pb + pool_len as usize),
        );
        proof {
            assert forall|j: int| 0 <= j < locs@.len() implies #[trigger] raw::chain_of(
                locs@,
                j,
            ).len() <= 256 by {
                assert(depths@[j] as int == raw::chain_of(locs@, j).len());
            }
        }
        let c = SymCache {
            debug_id,
            arch,
            string_bytes,
            strings,
            files,
            functions,
            source_locations: locs,
            range_addrs,
            range_sls,
        };
        Ok(c)
    }

    /// Looks up the range that governs an address: the greatest row whose
    /// start address is at or below it.
    pub fn lookup_range(&self, addr: u32) -> (r: Option<usize>)
        requires
            self.wf(),
        ensures
            match r {
                Some(g) => last_le(self.range_addrs@, addr) == g as int && (g as int)
                    < self.range_addrs@.len(),
                None => last_le(self.range_addrs@, addr) == -1,
            },
    {
        let n = self.range_addrs.len();
        let mut lo: usize = 0;
        let mut hi: usize = n;
        while lo < hi
            invariant
                lo <= hi <= n,
                n == self.range_addrs@.len(),
                self.wf(),
                lo > 0 ==> self.range_addrs@[lo - 1] <= addr,
                hi < n ==> self.range_addrs@[hi as int] > addr,
            decreases hi - lo,
        {
            let mid = lo + (hi - lo) / 2;
            if self.range_addrs[mid] <= addr {
                lo = mid + 1;
            } else {
                hi = mid;
            }
        }
        if lo == 0 {
            proof {
                lemma_last_le_char(self.range_addrs@, addr, -1);
            }
            None
        } else {
            proof {
                lemma_last_le_char(self.range_addrs@, addr, lo - 1);
            }
            Some(lo - 1)
        }
    }

    /// Resolves an address to its inline chain, innermost frame first.
    ///
    /// An address below every range yields nothing. An address at or above
    /// the last range start is governed by that open-ended range. A governing
    /// range that is a terminator yields nothing.
    pub fn lookup(&self, addr: u32) -> (frames: Vec<raw::SourceLocation>)
        requires
            self.wf(),
        ensures
            frames@.len() <= 256,
            ({
                let g = last_le(self.range_addrs@, addr);
                &&& (g == -1 ==> frames@.len() == 0)
                &&& (g >= 0 && self.range_sls@[g] == raw::ABSENT ==> frames@.len() == 0)
                &&& (g >= 0 && self.range_sls@[g] != raw::ABSENT ==> frames@ == chain_of(
                    self.source_locations@,
                    self.range_sls@[g] as int,
                ))
            }),
    {
        let g = match self.lookup_range(addr) {
            Some(g) => g,
            None => {
                return Vec::new();
            },
        };
        let sl_word = self.range_sls[g];
        if sl_word == raw::ABSENT {
            return Vec::new();
        }
        proof {
            assert(raw::opt_in_bounds(self.range_sls@[g as int], self.source_locations@.len()));
        }
        let ghost start = sl_word as int;
        let mut cur: usize = sl_word as usize;
        let mut sl = self.source_locations[cur];
        let mut out: Vec<raw::SourceLocation> = Vec::new();
        out.push(sl);
        proof {
            assert(out@.drop_last() =~= Seq::<raw::SourceLocation>::empty());
        }
        while sl.inlined_into_idx != raw::ABSENT
            invariant
                self.wf(),
                0 <= cur < self.source_locations@.len(),
                sl == self.source_locations@[cur as int],
                out@.len() >= 1,
                out@.last() == sl,
                chain_of(self.source_locations@, start) == out@.drop_last() + chain_of(
                    self.source_locations@,
                    cur as int,
                ),
            decreases cur,
    {
            let next = sl.inlined_into_idx as usize;
            proof {
                assert(chain_of(self.source_locations@, cur as int) == seq![sl] + chain_of(
                    self.source_locations@,
                    next as int,
                ));
            }
            let ghost prev_out = out@;
            sl = self.source_locations[next];
            out.push(sl);
            proof {
                assert(out@.drop_last() =~= prev_out);
                assert(prev_out.drop_last() + (seq![prev_out.last()] + chain_of(
                    self.source_locations@,
                    next as int,
                )) =~= prev_out + chain_of(self.source_locations@, next as int));
            }
            cur = next;
        }
        proof {
            assert(chain_of(self.source_locations@, cur as int) == seq![sl]);
            assert(out@.drop_last() + seq![sl] =~= out@);
        }
        out
    }
}

/// Two path fragments joined with a single separator; an empty side
/// contributes nothing.
pub open spec fn join2(a: Seq<u8>, b: Seq<u8>) -> Seq<u8> {
    if a.len() == 0 {
        b
    } else if b.len() == 0 {
        a
    } else {
        a + seq![47u8] + b
    }
}

impl SymCache {
    /// The bytes a stored string word names, or nothing for the absent
    /// sentinel or an out-of-bounds row.
    pub open spec fn spec_resolve_string(&self, word: u32) -> Option<Seq<u8>> {
        if word != raw::ABSENT && (word as int) < self.strings@.len() {
            Some(raw::string_at(self.string_bytes@, self.strings@[word as int]))
        } else {
            None
        }
    }

    /// The name of the function a source location names, or nothing when the
    /// location or its function has none.
    pub open spec fn spec_function_name(&self, sl: raw::SourceLocation) -> Option<Seq<u8>> {
        if sl.function_idx != raw::ABSENT && (sl.function_idx as int) < self.functions@.len() {
            self.spec_resolve_string(self.functions@[sl.function_idx as int].name_idx)
        } else {
            None
        }
    }

    /// One path fragment of a file row: the named bytes, or nothing for an
    /// absent fragment.
    pub open spec fn spec_part(&self, word: u32) -> Seq<u8> {
        match self.spec_resolve_string(word) {
            Some(s) => s,
            None => Seq::empty(),
        }
    }

    /// The logical path of a file row: its compilation directory, directory
    /// and path name joined with single separators, absent and empty
    /// fragments omitted.
    pub open spec fn spec_file_path(&self, file_idx: u32) -> Seq<u8> {
        if file_idx != raw::ABSENT && (file_idx as int) < self.files@.len() {
            let f = self.files@[file_idx as int];
            join2(
                join2(self.spec_part(f.comp_dir_idx), self.spec_part(f.directory_idx)),
                self.spec_part(f.path_name_idx),
            )
        } else {
            Seq::empty()
        }
    }

    /// Copies out the bytes a stored string word names.
    pub fn resolve_string(&self, word: u32) -> (r: Option<Vec<u8>>)
        requires
            self.wf(),
        ensures
            match r {
                Some(v) => self.spec_resolve_string(word) == Some(v@),
                None => self.spec_resolve_string(word) is None,
            },
    {
        if word == raw::ABSENT {
            return None;
        }
        let w = word as usize;
        if w >= self.strings.len() {
            return None;
        }
        let d = self.strings[w];
        let _plen = self.string_bytes.len();
        proof {
            assert(self.strings@[w as int].string_offset + self.strings@[w as int].string_len
                <= self.string_bytes@.len());
        }
        let off = d.string_offset as usize;
        let len = d.string_len as usize;
        let sub = vstd::slice::slice_subrange(self.string_bytes.as_slice(), off, off + len);
        Some(vstd::slice::slice_to_vec(sub))
    }

    /// Copies out one path fragment of a file row.
    fn part(&self, word: u32) -> (r: Vec<u8>)
        requires
            self.wf(),
        ensures
            r@ == self.spec_part(word),
    {
        match self.resolve_string(word) {
            Some(v) => v,
            None => Vec::new(),
        }
    }

    /// The name of the function a source location names.
    pub fn function_name(&self, sl: &raw::SourceLocation) -> (r: Option<Vec<u8>>)
        requires
            self.wf(),
        ensures
            match r {
                Some(v) => self.spec_function_name(*sl) == Some(v@),
                None => self.spec_function_name(*sl) is None,
            },
    {
        if sl.function_idx == raw::ABSENT {
            return None;
        }
        let w = sl.function_idx as usize;
        if w >= self.functions.len() {
            return None;
        }
        self.resolve_string(self.functions[w].name_idx)
    }

    /// The logical path of a file row, fragments joined with a single
    /// separator.
    pub fn file_path(&self, file_idx: u32) -> (r: Vec<u8>)
        requires
            self.wf(),
        ensures
            r@ == self.spec_file_path(file_idx),
    {
        if file_idx == raw::ABSENT {
            return Vec::new();
        }
        let w = file_idx as usize;
        if w >= self.files.len() {
            return Vec::new();
        }
        let f = self.files[w];
        let a = self.part(f.comp_dir_idx);
        let b = self.part(f.directory_idx);
        let c = self.part(f.path_name_idx);
        let mut out = a;
        let ghost ga = out@;
        if b.len() > 0 {
            if out.len() > 0 {
                out.push(47u8);
            }
            out.extend_from_slice(b.as_slice());
        }
        proof {
            assert(out@ =~= join2(ga, b@));
        }
        let ghost gab = out@;
        if c.len() > 0 {
            if out.len() > 0 {
                out.push(47u8);
            }
            out.extend_from_slice(c.as_slice());
        }
        proof {
            assert(out@ =~= join2(gab, c@));
        }
        out
    }
}

/// The header of a serialized cache reads back exactly what was written:
/// the magic bytes, the version, the debug identifier, the architecture tag
/// and every table count. Together with the writer's contract this pins the
/// round trip: a cache built from a session and read back yields the
/// session's debug identifier and architecture and the frozen tables' counts.
pub proof fn lemma_header_roundtrip(
    debug_id: Seq<u8>,
    arch: u8,
    strings: Seq<raw::String>,
    files: Seq<raw::File>,
    functions: Seq<raw::Function>,
    locs: Seq<raw::SourceLocation>,
    range_addrs: Seq<u32>,
    range_sls: Seq<u32>,
    pool: Seq<u8>,
)
    requires
        debug_id.len() == 20,
        strings.len() <= 0xFFFF_FFFF,
        files.len() <= 0xFFFF_FFFF,
        functions.len() <= 0xFFFF_FFFF,
        locs.len() <= 0xFFFF_FFFF,
        range_addrs.len() <= 0xFFFF_FFFF,
        pool.len() <= 0xFFFF_FFFF,
    ensures
        ({
            let b = raw::ser_cache(
                debug_id,
                arch,
                strings,
                files,
                functions,
                locs,
                range_addrs,
                range_sls,
                pool,
            );
            &&& b.len() >= raw::HEADER_SIZE
            &&& b.subrange(0, 4) == seq![0x53u8, 0x59u8, 0x4Du8, 0x43u8]
            &&& vstd::bytes::spec_u32_from_le_bytes(b.subrange(4, 8)) == raw::SYMCACHE_VERSION
            &&& b.subrange(8, 28) == debug_id
            &&& b[28] == arch
            &&& nfield(b, 32) == strings.len()
            &&& nfield(b, 36) == files.len()
            &&& nfield(b, 40) == functions.len()
            &&& nfield(b, 44) == locs.len()
            &&& nfield(b, 48) == range_addrs.len()
            &&& nfield(b, 52) == pool.len()
        }),
{
    vstd::bytes::lemma_auto_spec_u32_to_from_le_bytes();
    let h = raw::header_of(strings, files, functions, locs, range_addrs.len(), pool.len());
    let hd = raw::ser_header(debug_id, arch, h);
    raw::lemma_ser_header_len(debug_id, arch, h);
    let b = raw::ser_cache(
        debug_id,
        arch,
        strings,
        files,
        functions,
        locs,
        range_addrs,
        range_sls,
        pool,
    );
    assert forall|k: int| 0 <= k < 80 implies b[k] == hd[k] by {}
    assert(b.subrange(0, 4) =~= seq![0x53u8, 0x59u8, 0x4Du8, 0x43u8]);
    assert(b.subrange(4, 8) =~= raw::le32(h.version));
    assert(b.subrange(8, 28) =~= debug_id);
    assert(b[28] == arch);
    assert(b.subrange(32, 36) =~= raw::le32(h.num_strings));
    assert(b.subrange(36, 40) =~= raw::le32(h.num_files));
    assert(b.subrange(40, 44) =~= raw::le32(h.num_functions));
    assert(b.subrange(44, 48) =~= raw::le32(h.num_source_locations));
    assert(b.subrange(48, 52) =~= raw::le32(h.num_ranges));
    assert(b.subrange(52, 56) =~= raw::le32(h.string_bytes));
}

/// Round trip: a cache parsed back from the serialization of well-formed
/// tables carries the same debug identifier, architecture tag and table
/// counts that were written. The hypotheses about `c` are exactly what
/// [`SymCache::parse`] ensures of its result on that buffer.
pub proof fn lemma_round_trip(
    c: &SymCache,
    debug_id: Seq<u8>,
    arch: u8,
    strings: Seq<raw::String>,
    files: Seq<raw::File>,
    functions: Seq<raw::Function>,
    locs: Seq<raw::SourceLocation>,
    range_addrs: Seq<u32>,
    range_sls: Seq<u32>,
    pool: Seq<u8>,
    buf: Seq<u8>,
)
    requires
        buf == raw::ser_cache(
            debug_id,
            arch,
            strings,
            files,
            functions,
            locs,
            range_addrs,
            range_sls,
            pool,
        ),
        debug_id.len() == 20,
        strings.len() <= 0xFFFF_FFFF,
        files.len() <= 0xFFFF_FFFF,
        functions.len() <= 0xFFFF_FFFF,
        locs.len() <= 0xFFFF_FFFF,
        range_addrs.len() <= 0xFFFF_FFFF,
        pool.len() <= 0xFFFF_FFFF,
        c.debug_id@ == buf.subrange(8, 28),
        c.arch == buf[28],
        c.strings@.len() == nfield(buf, 32),
        c.files@.len() == nfield(buf, 36),
        c.functions@.len() == nfield(buf, 40),
        c.source_locations@.len() == nfield(buf, 44),
        c.range_addrs@.len() == nfield(buf, 48),
        c.string_bytes@.len() == nfield(buf, 52),
    ensures
        c.debug_id@ == debug_id,
        c.arch == arch,
        c.strings@.len() == strings.len(),
        c.files@.len() == files.len(),
        c.functions@.len() == functions.len(),
        c.source_locations@.len() == locs.len(),
        c.range_addrs@.len() == range_addrs.len(),
        c.string_bytes@.len() == pool.len(),
{
    lemma_header_roundtrip(
        debug_id,
        arch,
        strings,
        files,
        functions,
        locs,
        range_addrs,
        range_sls,
        pool,
    );
}

} // verus!
