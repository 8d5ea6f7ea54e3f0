//! The writer pipeline: it ingests the records of a [`DebugSession`], interns
//! strings, files and functions, builds a sorted and deduplicated range
//! index, and serializes the frozen tables into a byte buffer.

use vstd::prelude::*;
use crate::raw;
use crate::session::{DebugSession, FileKey, FunctionRecord, LineRecord};

verus! {

/// A line record is consistent with the module: its address does not precede
/// the load address and its inline chain is at most 255 callers deep.
pub open spec fn line_record_ok(l: LineRecord, load: u64) -> bool {
    &&& l.address >= load
    &&& l.inline_chain@.len() <= 255
}

/// A function record is consistent with the module.
pub open spec fn function_record_ok(f: FunctionRecord, load: u64) -> bool {
    &&& (f.entry_pc matches Some(pc) ==> pc >= load)
    &&& forall|j: int| 0 <= j < f.lines@.len() ==> line_record_ok(#[trigger] f.lines@[j], load)
}

/// No record of the session places an address below the load address, and no
/// inline chain is deeper than 255 callers.
pub open spec fn session_consistent(s: DebugSession) -> bool {
    &&& forall|i: int|
        0 <= i < s.functions@.len() ==> function_record_ok(
            #[trigger] s.functions@[i],
            s.load_address,
        )
    &&& forall|i: int|
        0 <= i < s.symbols@.len() ==> (#[trigger] s.symbols@[i]).address >= s.load_address
}

/// A source location row names the given function name and source file: its
/// function row's name bytes equal `name` and its file row holds `file`'s
/// interned triple.
pub open spec fn location_names(
    w: SymCacheWriter,
    sl: raw::SourceLocation,
    name: Seq<u8>,
    file: FileKey,
) -> bool {
    &&& sl.function_idx != raw::ABSENT
    &&& (sl.function_idx as int) < w.functions@.len()
    &&& {
        let row = w.functions@[sl.function_idx as int];
        &&& row.name_idx != raw::ABSENT
        &&& (row.name_idx as int) < w.strings@.len()
        &&& raw::string_at(w.string_bytes@, w.strings@[row.name_idx as int]) == name
    }
    &&& sl.file_idx != raw::ABSENT
    &&& (sl.file_idx as int) < w.files@.len()
    &&& file_row_matches(w.string_bytes@, w.strings@, w.files@[sl.file_idx as int], file)
}

/// One line record of the session stands in the writer's tables: some
/// provisional range starts at its relative address, carries line
/// information, and maps to a source location that names the record's
/// function and file.
pub open spec fn line_record_represented(
    w: SymCacheWriter,
    f: FunctionRecord,
    l: LineRecord,
    load: u64,
) -> bool {
    exists|en: RangeEntry|
        {
            &&& #[trigger] w.ranges@.contains(en)
            &&& en.addr == l.address - load
            &&& en.has_line
            &&& en.sl_idx != raw::ABSENT
            &&& (en.sl_idx as int) < w.source_locations@.len()
            &&& location_names(w, w.source_locations@[en.sl_idx as int], f.name@, l.file)
        }
}

/// Every line record of every function record up to position `(fi, li)` is
/// represented in the writer's tables.
pub open spec fn prefix_represented(w: SymCacheWriter, s: DebugSession, fi: int, li: int) -> bool {
    forall|i2: int, j2: int|
        0 <= i2 < s.functions@.len() && 0 <= j2 < (#[trigger] s.functions@[i2]).lines@.len() && (
        i2 < fi || (i2 == fi && j2 < li)) ==> line_record_represented(
            w,
            s.functions@[i2],
            #[trigger] s.functions@[i2].lines@[j2],
            s.load_address,
        )
}

/// Every line record of the session is represented in the writer's tables.
pub open spec fn session_represented(w: SymCacheWriter, s: DebugSession) -> bool {
    forall|i2: int, j2: int|
        0 <= i2 < s.functions@.len() && 0 <= j2 < (#[trigger] s.functions@[i2]).lines@.len()
            ==> line_record_represented(
            w,
            s.functions@[i2],
            #[trigger] s.functions@[i2].lines@[j2],
            s.load_address,
        )
}

/// An error that aborts a write; no partial artifact is produced.
#[derive(Clone, Copy, Debug, PartialEq, Eq, Structural)]
pub enum WriteError {
    /// A table outgrew its 32-bit index space, the string pool outgrew its
    /// 32-bit length, or an address left the 32-bit relative range.
    TooLarge,
    /// The session yielded an inconsistent record: an address below the load
    /// address, or an inline chain deeper than 256 frames.
    BadSession,
}

/// A provisional range: a start address, the source location its span maps
/// to ([`raw::ABSENT`] for a terminator), and whether it came from structured
/// debug info rather than from a bare public symbol.
#[derive(Clone, Copy, Debug, PartialEq, Eq, Structural)]
pub struct RangeEntry {
    /// The relative start address of the span.
    pub addr: u32,
    /// The innermost source location of the span, or [`raw::ABSENT`].
    pub sl_idx: u32,
    /// True when the entry carries file and line information.
    pub has_line: bool,
}

/// The addresses of a provisional range list never decrease.
pub open spec fn ranges_sorted(rs: Seq<RangeEntry>) -> bool {
    forall|i: int, j: int| 0 <= i < j < rs.len() ==> (#[trigger] rs[i]).addr <= (#[trigger] rs[j]).addr
}

/// Every provisional range points at a source location in bounds or at the
/// absent sentinel.
pub open spec fn ranges_in_bounds(rs: Seq<RangeEntry>, num_locs: nat) -> bool {
    forall|i: int| 0 <= i < rs.len() ==> raw::opt_in_bounds((#[trigger] rs[i]).sl_idx, num_locs)
}

/// The growing tables of one writer run.
pub struct SymCacheWriter {
    /// The packed UTF-8 string data.
    pub string_bytes: Vec<u8>,
    /// The string descriptors, deduplicated by content.
    pub strings: Vec<raw::String>,
    /// The file rows, deduplicated by their string index triple.
    pub files: Vec<raw::File>,
    /// The function rows, deduplicated by name, entry address and language.
    pub functions: Vec<raw::Function>,
    /// The source locations; inline callers always precede their callees.
    pub source_locations: Vec<raw::SourceLocation>,
    /// The provisional ranges, kept sorted by address on insertion.
    pub ranges: Vec<RangeEntry>,
}

/// The byte content of an optional byte string.
pub open spec fn opt_view(o: Option<Vec<u8>>) -> Option<Seq<u8>> {
    match o {
        Some(v) => Some(v@),
        None => None,
    }
}

/// The byte length of an optional byte string; an absent one has none.
pub open spec fn opt_len(o: Option<Vec<u8>>) -> nat {
    match o {
        Some(v) => v@.len(),
        None => 0,
    }
}

/// A stored optional word together with the optional byte string it must
/// name: absent exactly when the key is absent, and otherwise a string row
/// whose pool content equals the key.
pub open spec fn opt_bytes_matches(
    pool: Seq<u8>,
    strings: Seq<raw::String>,
    word: u32,
    key: Option<Seq<u8>>,
) -> bool {
    match key {
        None => word == raw::ABSENT,
        Some(bytes) => {
            &&& word != raw::ABSENT
            &&& (word as int) < strings.len()
            &&& raw::string_at(pool, strings[word as int]) == bytes
        },
    }
}

/// A file row holds the interned triple of a [`FileKey`].
pub open spec fn file_row_matches(
    pool: Seq<u8>,
    strings: Seq<raw::String>,
    row: raw::File,
    key: FileKey,
) -> bool {
    &&& opt_bytes_matches(pool, strings, row.comp_dir_idx, opt_view(key.comp_dir))
    &&& opt_bytes_matches(pool, strings, row.directory_idx, opt_view(key.directory))
    &&& opt_bytes_matches(pool, strings, row.path_name_idx, opt_view(key.path_name))
}

/// A function row holds an interned name with the given entry address word
/// and language tag.
pub open spec fn function_row_matches(
    pool: Seq<u8>,
    strings: Seq<raw::String>,
    row: raw::Function,
    name: Seq<u8>,
    entry_pc: u32,
    lang: u8,
) -> bool {
    &&& row.name_idx != raw::ABSENT
    &&& (row.name_idx as int) < strings.len()
    &&& raw::string_at(pool, strings[row.name_idx as int]) == name
    &&& row.entry_pc == entry_pc
    &&& row.lang == lang
}

/// Compares two byte slices.
pub fn bytes_eq(a: &[u8], b: &[u8]) -> (r: bool)
    ensures
        r == (a@ == b@),
{
    if a.len() != b.len() {
        assert(a@ != b@) by {
            assert(a@.len() != b@.len());
        }
        return false;
    }
    let n = a.len();
    let mut i: usize = 0;
    while i < n
        invariant
            i <= n,
            n == a@.len(),
            n == b@.len(),
            forall|j: int| 0 <= j < i ==> a@[j] == b@[j],
        decreases n - i,
    {
        if a[i] != b[i] {
            return false;
        }
        i += 1;
    }
    assert(a@ =~= b@);
    true
}

impl SymCacheWriter {
    /// All tables are consistent: every stored reference is absent or in
    /// bounds, inline callers precede their callees, lengths fit the 32-bit
    /// index space, and the provisional ranges are sorted by address.
    pub open spec fn wf(&self) -> bool {
        &&& self.string_bytes@.len() <= raw::ABSENT as nat
        &&& self.strings@.len() <= raw::ABSENT as nat
        &&& self.files@.len() <= raw::ABSENT as nat
        &&& self.functions@.len() <= raw::ABSENT as nat
        &&& self.source_locations@.len() <= raw::ABSENT as nat
        &&& self.ranges@.len() <= raw::ABSENT as nat
        &&& raw::strings_wf(self.strings@, self.string_bytes@.len())
        &&& raw::files_wf(self.files@, self.strings@.len())
        &&& raw::functions_wf(self.functions@, self.strings@.len())
        &&& raw::source_locations_wf(
            self.source_locations@,
            self.files@.len(),
            self.functions@.len(),
        )
        &&& raw::chains_bounded(self.source_locations@)
        &&& ranges_in_bounds(self.ranges@, self.source_locations@.len())
        &&& ranges_sorted(self.ranges@)
    }

    /// The four interning tables of `new` extend those of `old`: old rows and
    /// old pool bytes are unchanged.
    pub open spec fn extends(old: Self, new: Self) -> bool {
        &&& old.string_bytes@.len() <= new.string_bytes@.len()
        &&& new.string_bytes@.subrange(0, old.string_bytes@.len() as int) == old.string_bytes@
        &&& old.strings@.len() <= new.strings@.len()
        &&& forall|i: int| 0 <= i < old.strings@.len() ==> new.strings@[i] == old.strings@[i]
        &&& old.files@.len() <= new.files@.len()
        &&& forall|i: int| 0 <= i < old.files@.len() ==> new.files@[i] == old.files@[i]
        &&& old.functions@.len() <= new.functions@.len()
        &&& forall|i: int| 0 <= i < old.functions@.len() ==> new.functions@[i] == old.functions@[i]
        &&& old.source_locations@.len() <= new.source_locations@.len()
        &&& forall|i: int|
            0 <= i < old.source_locations@.len() ==> new.source_locations@[i]
                == old.source_locations@[i]
    }

    /// All six fields are unchanged.
    pub open spec fn same_state(old: Self, new: Self) -> bool {
        &&& new.string_bytes@ == old.string_bytes@
        &&& new.strings@ == old.strings@
        &&& new.files@ == old.files@
        &&& new.functions@ == old.functions@
        &&& new.source_locations@ == old.source_locations@
        &&& new.ranges@ == old.ranges@
    }

    /// A string row of the old state names the same bytes in the new state:
    /// the pool only grows and old descriptors are unchanged.
    pub proof fn lemma_string_at_stable(old: Self, new: Self, i: int)
        requires
            Self::extends(old, new),
            raw::strings_wf(old.strings@, old.string_bytes@.len()),
            0 <= i < old.strings@.len(),
        ensures
            raw::string_at(new.string_bytes@, new.strings@[i]) == raw::string_at(
                old.string_bytes@,
                old.strings@[i],
            ),
    {
        let d = old.strings@[i];
        assert(new.string_bytes@.subrange(d.string_offset as int, d.string_offset + d.string_len)
            =~= old.string_bytes@.subrange(d.string_offset as int, d.string_offset + d.string_len))
            by {
            assert forall|k: int|
                d.string_offset <= k < d.string_offset + d.string_len implies new.string_bytes@[k]
                == old.string_bytes@[k] by {
                assert(old.string_bytes@[k] == new.string_bytes@.subrange(
                    0,
                    old.string_bytes@.len() as int,
                )[k]);
            }
        }
    }

    /// Creates a writer with empty tables.
    pub fn new() -> (w: Self)
        ensures
            w.wf(),
            w.string_bytes@.len() == 0,
            w.strings@.len() == 0,
            w.files@.len() == 0,
            w.functions@.len() == 0,
            w.source_locations@.len() == 0,
            w.ranges@.len() == 0,
    {
        SymCacheWriter {
            string_bytes: Vec::new(),
            strings: Vec::new(),
            files: Vec::new(),
            functions: Vec::new(),
            source_locations: Vec::new(),
            ranges: Vec::new(),
        }
    }

    /// Interns a byte string: returns the row of the first existing string
    /// with the same content, or appends a new row at the end of the pool.
    pub fn intern_string(&mut self, s: &[u8]) -> (r: Result<u32, WriteError>)
        requires
            old(self).wf(),
        ensures
            final(self).wf(),
            Self::extends(*old(self), *final(self)),
            final(self).files@ == old(self).files@,
            final(self).functions@ == old(self).functions@,
            final(self).source_locations@ == old(self).source_locations@,
            final(self).ranges@ == old(self).ranges@,
            match r {
                Ok(idx) => {
                    &&& (idx as int) < final(self).strings@.len()
                    &&& (idx as int) <= old(self).strings@.len()
                    &&& raw::string_at(final(self).string_bytes@, final(self).strings@[idx as int]) == s@
                    &&& forall|j: int|
                        0 <= j < idx ==> raw::string_at(final(self).string_bytes@, final(self).strings@[j]) != s@
                    &&& ((idx as int) < old(self).strings@.len() ==> Self::same_state(
                        *old(self),
                        *final(self),
                    ))
                    &&& ((idx as int) == old(self).strings@.len() ==> {
                        &&& final(self).strings@ == old(self).strings@.push(
                            raw::String {
                                string_offset: old(self).string_bytes@.len() as u32,
                                string_len: s@.len() as u32,
                            },
                        )
                        &&& final(self).string_bytes@ == old(self).string_bytes@ + s@
                    })
                },
                Err(e) => {
                    &&& e == WriteError::TooLarge
                    &&& Self::same_state(*old(self), *final(self))
                    &&& forall|j: int|
                        0 <= j < final(self).strings@.len() ==> raw::string_at(
                            final(self).string_bytes@,
                            final(self).strings@[j],
                        ) != s@
                    &&& (old(self).strings@.len() == raw::ABSENT as nat || old(
                        self,
                    ).string_bytes@.len() + s@.len() > raw::ABSENT as nat)
                },
            },
    {
        let n = self.strings.len();
        let mut i: usize = 0;
        while i < n
            invariant
                self.wf(),
                Self::same_state(*old(self), *self),
                i <= n,
                n == self.strings@.len(),
                forall|j: int|
                    0 <= j < i ==> raw::string_at(self.string_bytes@, self.strings@[j]) != s@,
            decreases n - i,
        {
            let d = self.strings[i];
            let off = d.string_offset as usize;
            let len = d.string_len as usize;
            let sub = vstd::slice::slice_subrange(self.string_bytes.as_slice(), off, off + len);
            if bytes_eq(sub, s) {
                proof {
                    assert(self.string_bytes@.subrange(0, old(self).string_bytes@.len() as int)
                        =~= old(self).string_bytes@);
                }
                return Ok(i as u32);
            }
            i += 1;
        }
        if self.strings.len() >= raw::ABSENT as usize {
            proof {
                assert(self.string_bytes@.subrange(0, old(self).string_bytes@.len() as int)
                    =~= old(self).string_bytes@);
            }
            return Err(WriteError::TooLarge);
        }
        if s.len() > raw::ABSENT as usize - self.string_bytes.len() {
            proof {
                assert(self.string_bytes@.subrange(0, old(self).string_bytes@.len() as int)
                    =~= old(self).string_bytes@);
            }
            return Err(WriteError::TooLarge);
        }
        let ghost old_self = *self;
        let off32 = self.string_bytes.len() as u32;
        let len32 = s.len() as u32;
        self.string_bytes.extend_from_slice(s);
        let idx = self.strings.len();
        self.strings.push(raw::String { string_offset: off32, string_len: len32 });
        proof {
            assert(self.string_bytes@ =~= old_self.string_bytes@ + s@);
            assert(self.string_bytes@.subrange(0, old_self.string_bytes@.len() as int)
                =~= old_self.string_bytes@);
            assert(Self::extends(old_self, *self));
            assert(raw::string_at(self.string_bytes@, self.strings@[idx as int]) =~= s@);
            assert forall|j: int| 0 <= j < idx implies raw::string_at(
                self.string_bytes@,
                self.strings@[j],
            ) != s@ by {
                Self::lemma_string_at_stable(old_self, *self, j);
            }
        }
        Ok(idx as u32)
    }

    /// Extension of the interning tables is transitive.
    pub proof fn lemma_extends_trans(a: Self, b: Self, c: Self)
        requires
            Self::extends(a, b),
            Self::extends(b, c),
        ensures
            Self::extends(a, c),
    {
        assert(c.string_bytes@.subrange(0, a.string_bytes@.len() as int)
            =~= a.string_bytes@) by {
            assert forall|k: int| 0 <= k < a.string_bytes@.len() implies c.string_bytes@[k]
                == a.string_bytes@[k] by {
                assert(c.string_bytes@[k] == c.string_bytes@.subrange(
                    0,
                    b.string_bytes@.len() as int,
                )[k]);
                assert(b.string_bytes@[k] == b.string_bytes@.subrange(
                    0,
                    a.string_bytes@.len() as int,
                )[k]);
            }
        }
    }

    /// Interns one optional string, yielding the stored word: the absent
    /// sentinel for an absent key, else the row of the interned content.
    fn intern_opt_string(&mut self, key: &Option<Vec<u8>>) -> (r: Result<u32, WriteError>)
        requires
            old(self).wf(),
        ensures
            final(self).wf(),
            Self::extends(*old(self), *final(self)),
            final(self).files@ == old(self).files@,
            final(self).functions@ == old(self).functions@,
            final(self).source_locations@ == old(self).source_locations@,
            final(self).ranges@ == old(self).ranges@,
            final(self).strings@.len() <= old(self).strings@.len() + 1,
            final(self).string_bytes@.len() <= old(self).string_bytes@.len() + opt_len(*key),
            match r {
                Ok(word) => opt_bytes_matches(
                    final(self).string_bytes@,
                    final(self).strings@,
                    word,
                    opt_view(*key),
                ),
                Err(e) => {
                    &&& e == WriteError::TooLarge
                    &&& Self::same_state(*old(self), *final(self))
                    &&& (old(self).strings@.len() == raw::ABSENT as nat || old(
                        self,
                    ).string_bytes@.len() + opt_len(*key) > raw::ABSENT as nat)
                },
            },
    {
        match key {
            Some(v) => {
                let idx = self.intern_string(v.as_slice())?;
                Ok(idx)
            },
            None => {
                proof {
                    assert(self.string_bytes@.subrange(0, old(self).string_bytes@.len() as int)
                        =~= old(self).string_bytes@);
                }
                Ok(raw::ABSENT)
            },
        }
    }

    /// Interns a source file: the triple of optional path fragments becomes a
    /// row of string references, deduplicated by that triple.
    pub fn intern_file(&mut self, key: &FileKey) -> (r: Result<u32, WriteError>)
        requires
            old(self).wf(),
        ensures
            final(self).wf(),
            Self::extends(*old(self), *final(self)),
            final(self).functions@ == old(self).functions@,
            final(self).source_locations@ == old(self).source_locations@,
            final(self).ranges@ == old(self).ranges@,
            old(self).files@.len() <= final(self).files@.len() <= old(self).files@.len() + 1,
            match r {
                Ok(idx) => {
                    &&& (idx as int) < final(self).files@.len()
                    &&& file_row_matches(
                        final(self).string_bytes@,
                        final(self).strings@,
                        final(self).files@[idx as int],
                        *key,
                    )
                    &&& forall|j: int|
                        0 <= j < idx ==> final(self).files@[j] != final(self).files@[idx as int]
                },
                Err(e) => {
                    &&& e == WriteError::TooLarge
                    &&& (old(self).strings@.len() + 3 > raw::ABSENT as nat || old(
                        self,
                    ).files@.len() == raw::ABSENT as nat || old(self).string_bytes@.len()
                        + opt_len(key.comp_dir) + opt_len(key.directory) + opt_len(key.path_name)
                        > raw::ABSENT as nat)
                },
            },
    {
        let comp_dir_idx = match self.intern_opt_string(&key.comp_dir) {
            Ok(w) => w,
            Err(e) => {
                return Err(e);
            },
        };
        let ghost s1 = *self;
        let directory_idx = match self.intern_opt_string(&key.directory) {
            Ok(w) => w,
            Err(e) => {
                proof {
                    Self::lemma_extends_trans(*old(self), s1, *self);
                }
                return Err(e);
            },
        };
        let ghost s2 = *self;
        let path_name_idx = match self.intern_opt_string(&key.path_name) {
            Ok(w) => w,
            Err(e) => {
                proof {
                    Self::lemma_extends_trans(*old(self), s1, s2);
                    Self::lemma_extends_trans(*old(self), s2, *self);
                }
                return Err(e);
            },
        };
        let ghost s3 = *self;
        proof {
            Self::lemma_opt_match_stable(s1, s2, comp_dir_idx, opt_view(key.comp_dir));
            Self::lemma_extends_trans(s1, s2, s3);
            Self::lemma_opt_match_stable(s1, s3, comp_dir_idx, opt_view(key.comp_dir));
            Self::lemma_opt_match_stable(s2, s3, directory_idx, opt_view(key.directory));
            Self::lemma_extends_trans(*old(self), s1, s2);
            Self::lemma_extends_trans(*old(self), s2, s3);
        }
        let row = raw::File { comp_dir_idx, directory_idx, path_name_idx };
        let n = self.files.len();
        let mut i: usize = 0;
        while i < n
            invariant
                i <= n,
                n == self.files@.len(),
                Self::same_state(s3, *self),
                s3.wf(),
                Self::extends(*old(self), s3),
                s3.files@ == old(self).files@,
                s3.functions@ == old(self).functions@,
                s3.source_locations@ == old(self).source_locations@,
                s3.ranges@ == old(self).ranges@,
                file_row_matches(s3.string_bytes@, s3.strings@, row, *key),
                forall|j: int| 0 <= j < i ==> self.files@[j] != row,
            decreases n - i,
        {
            if self.files[i] == row {
                proof {
                    Self::lemma_same_wf(s3, *self);
                    Self::lemma_same_extends(s3, *self);
                    Self::lemma_extends_trans(*old(self), s3, *self);
                }
                return Ok(i as u32);
            }
            i += 1;
        }
        if self.files.len() >= raw::ABSENT as usize {
            proof {
                Self::lemma_same_wf(s3, *self);
                Self::lemma_same_extends(s3, *self);
                Self::lemma_extends_trans(*old(self), s3, *self);
            }
            return Err(WriteError::TooLarge);
        }
        let ghost pre = *self;
        self.files.push(row);
        proof {
            assert(self.string_bytes@.subrange(0, pre.string_bytes@.len() as int)
                =~= pre.string_bytes@);
            Self::lemma_extends_trans(*old(self), s3, *self);
        }
        Ok(n as u32)
    }

    /// A state with the same table views as a well-formed one is well-formed.
    pub proof fn lemma_same_wf(a: Self, b: Self)
        requires
            a.wf(),
            Self::same_state(a, b),
        ensures
            b.wf(),
    {
    }

    /// A state extends one with the same table views.
    pub proof fn lemma_same_extends(a: Self, b: Self)
        requires
            Self::same_state(a, b),
        ensures
            Self::extends(a, b),
    {
        assert(b.string_bytes@.subrange(0, a.string_bytes@.len() as int) =~= a.string_bytes@);
    }

    /// An optional-string match survives an extension of the tables.
    pub proof fn lemma_opt_match_stable(old: Self, new: Self, word: u32, key: Option<Seq<u8>>)
        requires
            Self::extends(old, new),
            raw::strings_wf(old.strings@, old.string_bytes@.len()),
            opt_bytes_matches(old.string_bytes@, old.strings@, word, key),
        ensures
            opt_bytes_matches(new.string_bytes@, new.strings@, word, key),
    {
        if key is Some {
            Self::lemma_string_at_stable(old, new, word as int);
        }
    }

    /// Interns a function: the name is interned and the row is deduplicated
    /// by name, entry address and language.
    pub fn intern_function(&mut self, name: &[u8], entry_pc: u32, lang: u8) -> (r: Result<
        u32,
        WriteError,
    >)
        requires
            old(self).wf(),
        ensures
            final(self).wf(),
            Self::extends(*old(self), *final(self)),
            final(self).files@ == old(self).files@,
            final(self).source_locations@ == old(self).source_locations@,
            final(self).ranges@ == old(self).ranges@,
            old(self).functions@.len() <= final(self).functions@.len() <= old(
                self,
            ).functions@.len() + 1,
            match r {
                Ok(idx) => {
                    &&& (idx as int) < final(self).functions@.len()
                    &&& function_row_matches(
                        final(self).string_bytes@,
                        final(self).strings@,
                        final(self).functions@[idx as int],
                        name@,
                        entry_pc,
                        lang,
                    )
                    &&& forall|j: int|
                        0 <= j < idx ==> final(self).functions@[j] != final(self).functions@[idx as int]
                },
                Err(e) => {
                    &&& e == WriteError::TooLarge
                    &&& (old(self).strings@.len() == raw::ABSENT as nat || old(
                        self,
                    ).string_bytes@.len() + name@.len() > raw::ABSENT as nat || old(
                        self,
                    ).functions@.len() == raw::ABSENT as nat)
                },
            },
    {
        let name_idx = self.intern_string(name)?;
        let ghost s1 = *self;
        let row = raw::Function { name_idx, entry_pc, lang };
        let n = self.functions.len();
        let mut i: usize = 0;
        while i < n
            invariant
                i <= n,
                n == self.functions@.len(),
                Self::same_state(s1, *self),
                s1.wf(),
                Self::extends(*old(self), s1),
                s1.functions@ == old(self).functions@,
                s1.files@ == old(self).files@,
                s1.source_locations@ == old(self).source_locations@,
                s1.ranges@ == old(self).ranges@,
                function_row_matches(s1.string_bytes@, s1.strings@, row, name@, entry_pc, lang),
                forall|j: int| 0 <= j < i ==> self.functions@[j] != row,
            decreases n - i,
        {
            if self.functions[i] == row {
                proof {
                    Self::lemma_same_wf(s1, *self);
                    Self::lemma_same_extends(s1, *self);
                    Self::lemma_extends_trans(*old(self), s1, *self);
                }
                return Ok(i as u32);
            }
            i += 1;
        }
        if self.functions.len() >= raw::ABSENT as usize {
            proof {
                Self::lemma_same_wf(s1, *self);
                Self::lemma_same_extends(s1, *self);
                Self::lemma_extends_trans(*old(self), s1, *self);
            }
            return Err(WriteError::TooLarge);
        }
        let ghost pre = *self;
        self.functions.push(row);
        proof {
            assert(self.string_bytes@.subrange(0, pre.string_bytes@.len() as int)
                =~= pre.string_bytes@);
            Self::lemma_extends_trans(*old(self), s1, *self);
        }
        Ok(n as u32)
    }

    /// Appends a source location row. The caller hands references that are
    /// absent or in bounds; an inline caller must be an existing row, which
    /// keeps every chain acyclic.
    pub fn push_source_location(
        &mut self,
        file_idx: u32,
        line: u32,
        function_idx: u32,
        inlined_into_idx: u32,
    ) -> (r: Result<u32, WriteError>)
        requires
            old(self).wf(),
            raw::opt_in_bounds(file_idx, old(self).files@.len()),
            raw::opt_in_bounds(function_idx, old(self).functions@.len()),
            inlined_into_idx == raw::ABSENT || (inlined_into_idx as int) < old(
                self,
            ).source_locations@.len(),
            inlined_into_idx != raw::ABSENT ==> raw::chain_of(
                old(self).source_locations@,
                inlined_into_idx as int,
            ).len() <= 255,
        ensures
            final(self).wf(),
            Self::extends(*old(self), *final(self)),
            final(self).string_bytes@ == old(self).string_bytes@,
            final(self).strings@ == old(self).strings@,
            final(self).files@ == old(self).files@,
            final(self).functions@ == old(self).functions@,
            final(self).ranges@ == old(self).ranges@,
            match r {
                Ok(idx) => {
                    &&& idx as int == old(self).source_locations@.len()
                    &&& final(self).source_locations@ == old(self).source_locations@.push(
                        raw::SourceLocation { file_idx, line, function_idx, inlined_into_idx },
                    )
                    &&& raw::chain_of(final(self).source_locations@, idx as int).len() == (
                    if inlined_into_idx == raw::ABSENT {
                        1nat
                    } else {
                        (1 + raw::chain_of(
                            old(self).source_locations@,
                            inlined_into_idx as int,
                        ).len()) as nat
                    })
                },
                Err(e) => {
                    &&& e == WriteError::TooLarge
                    &&& Self::same_state(*old(self), *final(self))
                    &&& old(self).source_locations@.len() == raw::ABSENT as nat
                },
            },
    {
        if self.source_locations.len() >= raw::ABSENT as usize {
            proof {
                assert(self.string_bytes@.subrange(0, old(self).string_bytes@.len() as int)
                    =~= old(self).string_bytes@);
            }
            return Err(WriteError::TooLarge);
        }
        let idx = self.source_locations.len();
        self.source_locations.push(
            raw::SourceLocation { file_idx, line, function_idx, inlined_into_idx },
        );
        proof {
            assert(self.string_bytes@.subrange(0, old(self).string_bytes@.len() as int)
                =~= old(self).string_bytes@);
            let oldl = old(self).source_locations@;
            let newl = self.source_locations@;
            assert forall|j: int| 0 <= j < oldl.len() implies raw::chain_of(newl, j)
                == raw::chain_of(oldl, j) by {
                raw::lemma_chain_stable(oldl, newl, j);
            }
            if inlined_into_idx != raw::ABSENT {
                raw::lemma_chain_stable(oldl, newl, inlined_into_idx as int);
            }
            assert(raw::chains_bounded(newl));
        }
        Ok(idx as u32)
    }

    /// Inserts a provisional range at its sorted position: after every entry
    /// with an address less than or equal to its own, and before every entry
    /// with a greater address.
    pub fn add_range(&mut self, entry: RangeEntry) -> (r: Result<(), WriteError>)
        requires
            old(self).wf(),
            raw::opt_in_bounds(entry.sl_idx, old(self).source_locations@.len()),
        ensures
            final(self).wf(),
            Self::extends(*old(self), *final(self)),
            final(self).string_bytes@ == old(self).string_bytes@,
            final(self).strings@ == old(self).strings@,
            final(self).files@ == old(self).files@,
            final(self).functions@ == old(self).functions@,
            final(self).source_locations@ == old(self).source_locations@,
            forall|x: RangeEntry|
                old(self).ranges@.contains(x) ==> #[trigger] final(self).ranges@.contains(x),
            match r {
                Ok(_) => exists|p: int|
                    {
                        &&& 0 <= p <= old(self).ranges@.len()
                        &&& final(self).ranges@ == old(self).ranges@.insert(p, entry)
                        &&& forall|i: int|
                            0 <= i < p ==> (#[trigger] old(self).ranges@[i]).addr <= entry.addr
                        &&& forall|i: int|
                            p <= i < old(self).ranges@.len() ==> entry.addr < (#[trigger] old(
                                self,
                            ).ranges@[i]).addr
                    },
                Err(e) => {
                    &&& e == WriteError::TooLarge
                    &&& Self::same_state(*old(self), *final(self))
                    &&& old(self).ranges@.len() == raw::ABSENT as nat
                },
            },
    {
        if self.ranges.len() >= raw::ABSENT as usize {
            proof {
                Self::lemma_same_extends(*old(self), *self);
            }
            return Err(WriteError::TooLarge);
        }
        let n = self.ranges.len();
        let mut p: usize = n;
        while p > 0 && self.ranges[p - 1].addr > entry.addr
            invariant
                p <= n,
                n == self.ranges@.len(),
                Self::same_state(*old(self), *self),
                self.wf(),
                forall|i: int|
                    p <= i < n ==> entry.addr < (#[trigger] self.ranges@[i]).addr,
            decreases p,
        {
            p -= 1;
        }
        proof {
            assert forall|i: int| 0 <= i < p implies (#[trigger] self.ranges@[i]).addr
                <= entry.addr by {
                if i < p - 1 {
                    assert(self.ranges@[i].addr <= self.ranges@[p - 1].addr);
                }
            }
        }
        let ghost pre = *self;
        self.ranges.insert(p, entry);
        proof {
            let rs = self.ranges@;
            assert forall|i: int, j: int| 0 <= i < j < rs.len() implies (#[trigger] rs[i]).addr
                <= (#[trigger] rs[j]).addr by {
                if j < p {
                    assert(rs[i] == pre.ranges@[i] && rs[j] == pre.ranges@[j]);
                } else if i > p {
                    assert(rs[i] == pre.ranges@[i - 1] && rs[j] == pre.ranges@[j - 1]);
                } else if i < p && j == p {
                    assert(rs[i] == pre.ranges@[i]);
                } else if i == p && j > p {
                    assert(rs[j] == pre.ranges@[j - 1]);
                } else if i < p && j > p {
                    assert(rs[i] == pre.ranges@[i] && rs[j] == pre.ranges@[j - 1]);
                    assert(pre.ranges@[i].addr <= entry.addr);
                    assert(entry.addr < pre.ranges@[j - 1].addr);
                }
            }
            lemma_insert_preserves_contains(pre.ranges@, self.ranges@, p as int, entry);
            assert(self.string_bytes@.subrange(0, old(self).string_bytes@.len() as int)
                =~= old(self).string_bytes@);
        }
        Ok(())
    }
}

impl SymCacheWriter {
    /// Freezes the tables and serializes the cache: the provisional ranges
    /// are deduplicated by address and coalesced by source location, and the
    /// header, the padded tables and the string pool are emitted in order.
    pub fn finish(&self, debug_id: &[u8; 20], arch: u8) -> (buf: Vec<u8>)
        requires
            self.wf(),
        ensures
            ({
                let rs = coalesce(dedup_addr(self.ranges@));
                buf@ == raw::ser_cache(
                    debug_id@,
                    arch,
                    self.strings@,
                    self.files@,
                    self.functions@,
                    self.source_locations@,
                    range_addrs_of(rs),
                    range_sls_of(rs),
                    self.string_bytes@,
                )
            }),
    {
        let rs1 = dedup_ranges(&self.ranges);
        let rs = coalesce_ranges(&rs1);
        proof {
            lemma_dedup_addr(self.ranges@, self.source_locations@.len());
            lemma_coalesce(dedup_addr(self.ranges@), self.source_locations@.len());
        }
        let nrs = rs.len();
        let mut addrs: Vec<u32> = Vec::new();
        let mut sls: Vec<u32> = Vec::new();
        let mut i: usize = 0;
        proof {
            assert(addrs@ =~= range_addrs_of(rs@).subrange(0, 0));
            assert(sls@ =~= range_sls_of(rs@).subrange(0, 0));
        }
        while i < nrs
            invariant
                i <= nrs,
                nrs == rs@.len(),
                addrs@ == range_addrs_of(rs@).subrange(0, i as int),
                sls@ == range_sls_of(rs@).subrange(0, i as int),
            decreases nrs - i,
        {
            addrs.push(rs[i].addr);
            sls.push(rs[i].sl_idx);
            proof {
                assert(addrs@ =~= range_addrs_of(rs@).subrange(0, i + 1));
                assert(sls@ =~= range_sls_of(rs@).subrange(0, i + 1));
            }
            i += 1;
        }
        proof {
            assert(addrs@ =~= range_addrs_of(rs@));
            assert(sls@ =~= range_sls_of(rs@));
        }
        let mut out: Vec<u8> = Vec::new();
        out.push(0x53u8);
        out.push(0x59u8);
        out.push(0x4Du8);
        out.push(0x43u8);
        push_u32(&mut out, raw::SYMCACHE_VERSION);
        out.extend_from_slice(debug_id.as_slice());
        out.push(arch);
        push_zeros(&mut out, 3);
        push_u32(&mut out, self.strings.len() as u32);
        push_u32(&mut out, self.files.len() as u32);
        push_u32(&mut out, self.functions.len() as u32);
        push_u32(&mut out, self.source_locations.len() as u32);
        push_u32(&mut out, rs.len() as u32);
        push_u32(&mut out, self.string_bytes.len() as u32);
        push_zeros(&mut out, 8);
        push_zeros(&mut out, 16);
        let ghost h = raw::header_of(
            self.strings@,
            self.files@,
            self.functions@,
            self.source_locations@,
            rs@.len(),
            self.string_bytes@.len(),
        );
        proof {
            assert(out@ =~= raw::ser_header(debug_id@, arch, h));
            raw::lemma_ser_header_len(debug_id@, arch, h);
        }
        let ghost x0 = out@;
        emit_files(&mut out, &self.files);
        proof {
            lemma_padded_append(x0, raw::ser_files(self.files@));
        }
        push_pad(&mut out);
        let ghost x1 = x0 + raw::padded(raw::ser_files(self.files@));
        proof {
            assert(out@ =~= x1);
        }
        emit_functions(&mut out, &self.functions);
        proof {
            lemma_padded_append(x1, raw::ser_functions(self.functions@));
        }
        push_pad(&mut out);
        let ghost x2 = x1 + raw::padded(raw::ser_functions(self.functions@));
        proof {
            assert(out@ =~= x2);
        }
        emit_locations(&mut out, &self.source_locations);
        proof {
            lemma_padded_append(x2, raw::ser_locations(self.source_locations@));
        }
        push_pad(&mut out);
        let ghost x3 = x2 + raw::padded(raw::ser_locations(self.source_locations@));
        proof {
            assert(out@ =~= x3);
        }
        emit_strings(&mut out, &self.strings);
        proof {
            lemma_padded_append(x3, raw::ser_strings(self.strings@));
        }
        push_pad(&mut out);
        let ghost x4 = x3 + raw::padded(raw::ser_strings(self.strings@));
        proof {
            assert(out@ =~= x4);
        }
        emit_u32s(&mut out, &addrs);
        proof {
            lemma_padded_append(x4, raw::ser_u32s(addrs@));
        }
        push_pad(&mut out);
        let ghost x5 = x4 + raw::padded(raw::ser_u32s(addrs@));
        proof {
            assert(out@ =~= x5);
        }
        emit_u32s(&mut out, &sls);
        proof {
            lemma_padded_append(x5, raw::ser_u32s(sls@));
        }
        push_pad(&mut out);
        let ghost x6 = x5 + raw::padded(raw::ser_u32s(sls@));
        proof {
            assert(out@ =~= x6);
        }
        out.extend_from_slice(self.string_bytes.as_slice());
        proof {
            assert(out@ =~= x6 + self.string_bytes@);
        }
        out
    }
}

/// The index of the provisional range that governs address `a`: the last
/// entry whose start address is at or below `a`, or -1 when every entry
/// starts above `a`.
pub open spec fn governing(rs: Seq<RangeEntry>, a: u32) -> int
    decreases rs.len(),
{
    if rs.len() == 0 {
        -1
    } else if rs.last().addr <= a {
        rs.len() - 1
    } else {
        governing(rs.drop_last(), a)
    }
}

/// Address `a` is covered: some range governs it and that range is not a
/// terminator.
pub open spec fn covered(rs: Seq<RangeEntry>, a: u32) -> bool {
    governing(rs, a) >= 0 && rs[governing(rs, a)].sl_idx != raw::ABSENT
}

/// Tests whether an address is already covered by the provisional ranges.
fn is_covered(rs: &Vec<RangeEntry>, a: u32) -> (r: bool)
    ensures
        r == covered(rs@, a),
{
    let mut i = rs.len();
    proof {
        assert(rs@.subrange(0, rs@.len() as int) =~= rs@);
    }
    while i > 0
        invariant
            i <= rs@.len(),
            governing(rs@, a) == governing(rs@.subrange(0, i as int), a),
        decreases i,
    {
        proof {
            assert(rs@.subrange(0, i as int).drop_last() =~= rs@.subrange(0, i - 1));
            assert(rs@.subrange(0, i as int).last() == rs@[i - 1]);
        }
        if rs[i - 1].addr <= a {
            return rs[i - 1].sl_idx != raw::ABSENT;
        }
        i -= 1;
    }
    proof {
        assert(rs@.subrange(0, 0) =~= Seq::<RangeEntry>::empty());
    }
    false
}

/// The compensated line value: the raw line plus the carried offset, bumped
/// by whole multiples of 65536 until it rises above the previous compensated
/// line minus 32768. The pair is the compensated line and the new offset.
pub open spec fn spec_unwrap_line(prev: int, offset: int, rawline: int) -> (int, int)
    decreases prev + 65536 - rawline - offset,
{
    if rawline + offset + 32768 > prev {
        (rawline + offset, offset)
    } else {
        spec_unwrap_line(prev, offset + 65536, rawline)
    }
}

/// Compensates one raw line number for 16-bit wrapping.
///
/// Some producers store line numbers modulo 2^16. Within one function the
/// writer carries an offset: when a line drops by more than 32768 below its
/// predecessor the drop is taken for a wrap and the offset grows by whole
/// multiples of 65536, the fewest that lift the line back above the
/// predecessor minus 32768. Lines that only drop a little are genuine
/// backward jumps and stay as they are.
pub fn unwrap_line(prev: u64, offset: u64, rawline: u32) -> (r: (u64, u64))
    requires
        prev <= 0xFFFF_FFFF,
        offset <= 0x1_0000_7FFF,
    ensures
        (r.0 as int, r.1 as int) == spec_unwrap_line(prev as int, offset as int, rawline as int),
        r.1 >= offset,
        r.0 == rawline + r.1,
        r.0 + 32768 > prev,
        r.1 == offset || r.0 <= prev + 32768,
        (r.1 - offset) % 65536 == 0,
{
    let mut cur: u64 = rawline as u64 + offset;
    let mut off: u64 = offset;
    while cur + 32768 <= prev
        invariant
            prev <= 0xFFFF_FFFF,
            cur == rawline + off,
            off >= offset,
            off <= 0x2_0000_7FFF,
            (off - offset) % 65536 == 0,
            off == offset || cur <= prev + 32768,
            spec_unwrap_line(prev as int, off as int, rawline as int) == spec_unwrap_line(
                prev as int,
                offset as int,
                rawline as int,
            ),
        decreases prev + 65536 - cur,
    {
        proof {
            assert(rawline as int + off as int + 32768 <= prev as int);
            assert(spec_unwrap_line(prev as int, off as int, rawline as int)
                == spec_unwrap_line(prev as int, off as int + 65536, rawline as int));
            vstd::arithmetic::div_mod::lemma_mod_multiples_vanish(
                1,
                off - offset,
                65536,
            );
        }
        cur += 65536;
        off += 65536;
    }
    (cur, off)
}

/// A line stored modulo 2^16 is reconstructed exactly: when the true line
/// `l` does not precede its predecessor and advances by less than 32768, and
/// the raw line is `l` short of whole multiples of 65536 not yet in the
/// carried offset, the compensated line is `l` itself. Applied along a
/// function's line records this rebuilds a monotone line sequence.
pub proof fn lemma_unwrap_reconstructs(prev: int, offset: int, rawline: int, l: int)
    requires
        prev <= l < prev + 32768,
        0 <= rawline,
        0 <= offset,
        rawline + offset <= l,
        (l - rawline - offset) % 65536 == 0,
    ensures
        spec_unwrap_line(prev, offset, rawline).0 == l,
        spec_unwrap_line(prev, offset, rawline).1 == l - rawline,
    decreases l - rawline - offset,
{
    let c = rawline + offset;
    if c + 32768 > prev {
        if c < l {
            lemma_pos_multiple(l - c);
            assert(l - c >= 65536);
            assert(false);
        }
        assert(c == l);
    } else {
        lemma_pos_multiple(l - c);
        assert(l - c >= 65536);
        vstd::arithmetic::div_mod::lemma_mod_multiples_vanish(-1, l - c, 65536);
        lemma_unwrap_reconstructs(prev, offset + 65536, rawline, l);
    }
}

/// A positive multiple of 65536 is at least 65536.
proof fn lemma_pos_multiple(d: int)
    requires
        d > 0,
        d % 65536 == 0,
    ensures
        d >= 65536,
{
    vstd::arithmetic::div_mod::lemma_fundamental_div_mod(d, 65536);
    assert(d == 65536 * (d / 65536));
    if d / 65536 <= 0 {
        assert(65536 * (d / 65536) <= 0) by (nonlinear_arith)
            requires
                d / 65536 <= 0,
        ;
    }
    assert(65536 * (d / 65536) >= 65536) by (nonlinear_arith)
        requires
            d / 65536 >= 1,
    ;
}

/// How much information a provisional range carries: line records beat bare
/// public symbols, which beat terminators.
pub open spec fn entry_rank(e: RangeEntry) -> int {
    if e.has_line {
        2
    } else if e.sl_idx != raw::ABSENT {
        1
    } else {
        0
    }
}

/// One step of address deduplication: an entry with a fresh address is
/// appended; an entry sharing the last address replaces the kept one only
/// when it is strictly richer, so among equals the first richest entry wins.
pub open spec fn dedup_addr_step(acc: Seq<RangeEntry>, e: RangeEntry) -> Seq<RangeEntry> {
    if acc.len() > 0 && acc.last().addr == e.addr {
        if entry_rank(e) > entry_rank(acc.last()) {
            acc.update(acc.len() - 1, e)
        } else {
            acc
        }
    } else {
        acc.push(e)
    }
}

/// Address deduplication of a sorted provisional range list, left to right.
pub open spec fn dedup_addr(s: Seq<RangeEntry>) -> Seq<RangeEntry>
    decreases s.len(),
{
    if s.len() == 0 {
        Seq::empty()
    } else {
        dedup_addr_step(dedup_addr(s.drop_last()), s.last())
    }
}

/// One step of coalescing: an entry mapping to the same source location as
/// the previous kept entry is dropped, extending the previous span.
pub open spec fn coalesce_step(acc: Seq<RangeEntry>, e: RangeEntry) -> Seq<RangeEntry> {
    if acc.len() > 0 && acc.last().sl_idx == e.sl_idx {
        acc
    } else {
        acc.push(e)
    }
}

/// Coalescing of a deduplicated range list, left to right.
pub open spec fn coalesce(s: Seq<RangeEntry>) -> Seq<RangeEntry>
    decreases s.len(),
{
    if s.len() == 0 {
        Seq::empty()
    } else {
        coalesce_step(coalesce(s.drop_last()), s.last())
    }
}

/// The addresses of a range list, in order.
pub open spec fn range_addrs_of(rs: Seq<RangeEntry>) -> Seq<u32> {
    Seq::new(rs.len(), |i: int| rs[i].addr)
}

/// The source location words of a range list, in order.
pub open spec fn range_sls_of(rs: Seq<RangeEntry>) -> Seq<u32> {
    Seq::new(rs.len(), |i: int| rs[i].sl_idx)
}

/// The addresses of a range list are strictly increasing.
pub open spec fn ranges_strictly_sorted(rs: Seq<RangeEntry>) -> bool {
    forall|i: int, j: int|
        0 <= i < j < rs.len() ==> (#[trigger] rs[i]).addr < (#[trigger] rs[j]).addr
}

/// Address deduplication of a sorted list yields strictly increasing
/// addresses, never more entries than given, keeps the last address, and
/// keeps every source location word in bounds.
pub proof fn lemma_dedup_addr(s: Seq<RangeEntry>, num_locs: nat)
    requires
        ranges_sorted(s),
        ranges_in_bounds(s, num_locs),
    ensures
        ranges_strictly_sorted(dedup_addr(s)),
        ranges_in_bounds(dedup_addr(s), num_locs),
        dedup_addr(s).len() <= s.len(),
        s.len() > 0 ==> dedup_addr(s).len() > 0 && dedup_addr(s).last().addr == s.last().addr,
        s.len() == 0 ==> dedup_addr(s).len() == 0,
    decreases s.len(),
{
    if s.len() > 0 {
        let pre = s.drop_last();
        assert(ranges_sorted(pre));
        assert(ranges_in_bounds(pre, num_locs));
        lemma_dedup_addr(pre, num_locs);
        let acc = dedup_addr(pre);
        let e = s.last();
        if pre.len() > 0 {
            assert(pre.last() == s[s.len() - 2]);
            assert(pre.last().addr <= e.addr);
        }
    }
}

/// Coalescing a strictly sorted list keeps it strictly sorted and in bounds,
/// never drops the first entry's address, and leaves no two consecutive
/// entries with the same source location word.
pub proof fn lemma_coalesce(s: Seq<RangeEntry>, num_locs: nat)
    requires
        ranges_strictly_sorted(s),
        ranges_in_bounds(s, num_locs),
    ensures
        ranges_strictly_sorted(coalesce(s)),
        ranges_in_bounds(coalesce(s), num_locs),
        coalesce(s).len() <= s.len(),
        s.len() > 0 ==> coalesce(s).len() > 0 && coalesce(s).last().addr <= s.last().addr,
        s.len() == 0 ==> coalesce(s).len() == 0,
        forall|i: int|
            0 <= i < coalesce(s).len() - 1 ==> (#[trigger] coalesce(s)[i]).sl_idx != coalesce(
                s,
            )[i + 1].sl_idx,
    decreases s.len(),
{
    if s.len() > 0 {
        let pre = s.drop_last();
        assert(ranges_strictly_sorted(pre));
        assert(ranges_in_bounds(pre, num_locs));
        lemma_coalesce(pre, num_locs);
        let acc = coalesce(pre);
        let e = s.last();
        if pre.len() > 0 {
            assert(pre.last() == s[s.len() - 2]);
            assert(pre.last().addr < e.addr);
        }
    }
}

/// Appends the little-endian bytes of a 32-bit word.
fn push_u32(out: &mut Vec<u8>, x: u32)
    ensures
        final(out)@ == old(out)@ + raw::le32(x),
{
    let b = vstd::bytes::u32_to_le_bytes(x);
    out.extend_from_slice(b.as_slice());
    proof {
        assert(out@ =~= old(out)@ + raw::le32(x));
    }
}

/// Appends `n` zero bytes.
fn push_zeros(out: &mut Vec<u8>, n: usize)
    ensures
        final(out)@ == old(out)@ + raw::zeros(n as nat),
{
    let mut i: usize = 0;
    while i < n
        invariant
            i <= n,
            out@ == old(out)@ + raw::zeros(i as nat),
        decreases n - i,
    {
        out.push(0u8);
        proof {
            assert(out@ =~= old(out)@ + raw::zeros((i + 1) as nat));
        }
        i += 1;
    }
    proof {
        assert(out@ =~= old(out)@ + raw::zeros(n as nat));
    }
}

/// Pads the buffer with zero bytes to the next 8-byte boundary.
fn push_pad(out: &mut Vec<u8>)
    ensures
        final(out)@ == old(out)@ + raw::zeros(raw::spec_align_to_eight(old(out)@.len())),
        final(out)@.len() % 8 == 0,
{
    let p = raw::align_to_eight(out.len());
    push_zeros(out, p);
}

/// Deduplicates a sorted provisional range list by address, keeping the first
/// richer entry of every address.
fn dedup_ranges(rs: &Vec<RangeEntry>) -> (out: Vec<RangeEntry>)
    ensures
        out@ == dedup_addr(rs@),
{
    let n = rs.len();
    let mut out: Vec<RangeEntry> = Vec::new();
    let mut i: usize = 0;
    proof {
        assert(rs@.subrange(0, 0) =~= Seq::<RangeEntry>::empty());
    }
    while i < n
        invariant
            i <= n,
            n == rs@.len(),
            out@ == dedup_addr(rs@.subrange(0, i as int)),
        decreases n - i,
    {
        let e = rs[i];
        proof {
            let pre = rs@.subrange(0, i + 1);
            assert(pre.drop_last() =~= rs@.subrange(0, i as int));
            assert(pre.last() == rs@[i as int]);
        }
        let olen = out.len();
        if olen > 0 && out[olen - 1].addr == e.addr {
            let kept = out[olen - 1];
            let new_rank: u8 = if e.has_line { 2 } else if e.sl_idx != raw::ABSENT { 1 } else { 0 };
            let kept_rank: u8 = if kept.has_line { 2 } else if kept.sl_idx != raw::ABSENT { 1 } else { 0 };
            if new_rank > kept_rank {
                let ghost before = out@;
                out.pop();
                out.push(e);
                proof {
                    assert(out@ =~= before.update(before.len() - 1, e));
                }
            }
        } else {
            out.push(e);
        }
        i += 1;
    }
    proof {
        assert(rs@.subrange(0, n as int) =~= rs@);
    }
    out
}

/// Coalesces consecutive entries that map to the same source location.
fn coalesce_ranges(rs: &Vec<RangeEntry>) -> (out: Vec<RangeEntry>)
    ensures
        out@ == coalesce(rs@),
{
    let n = rs.len();
    let mut out: Vec<RangeEntry> = Vec::new();
    let mut i: usize = 0;
    proof {
        assert(rs@.subrange(0, 0) =~= Seq::<RangeEntry>::empty());
    }
    while i < n
        invariant
            i <= n,
            n == rs@.len(),
            out@ == coalesce(rs@.subrange(0, i as int)),
        decreases n - i,
    {
        let e = rs[i];
        proof {
            let pre = rs@.subrange(0, i + 1);
            assert(pre.drop_last() =~= rs@.subrange(0, i as int));
            assert(pre.last() == rs@[i as int]);
        }
        let olen = out.len();
        if !(olen > 0 && out[olen - 1].sl_idx == e.sl_idx) {
            out.push(e);
        }
        i += 1;
    }
    proof {
        assert(rs@.subrange(0, n as int) =~= rs@);
    }
    out
}

/// Emits the files table.
fn emit_files(out: &mut Vec<u8>, files: &Vec<raw::File>)
    ensures
        final(out)@ == old(out)@ + raw::ser_files(files@),
{
    let n = files.len();
    let mut i: usize = 0;
    proof {
        assert(raw::ser_files(files@.subrange(0, 0)) =~= Seq::<u8>::empty());
        assert(out@ =~= old(out)@ + raw::ser_files(files@.subrange(0, 0)));
    }
    while i < n
        invariant
            i <= n,
            n == files@.len(),
            out@ == old(out)@ + raw::ser_files(files@.subrange(0, i as int)),
        decreases n - i,
    {
        let f = files[i];
        push_u32(out, f.comp_dir_idx);
        push_u32(out, f.directory_idx);
        push_u32(out, f.path_name_idx);
        proof {
            let pre = files@.subrange(0, i + 1);
            assert(pre.drop_last() =~= files@.subrange(0, i as int));
            assert(pre.last() == files@[i as int]);
            assert(out@ =~= old(out)@ + raw::ser_files(pre));
        }
        i += 1;
    }
    proof {
        assert(files@.subrange(0, n as int) =~= files@);
    }
}

/// Emits the functions table.
fn emit_functions(out: &mut Vec<u8>, functions: &Vec<raw::Function>)
    ensures
        final(out)@ == old(out)@ + raw::ser_functions(functions@),
{
    let n = functions.len();
    let mut i: usize = 0;
    proof {
        assert(raw::ser_functions(functions@.subrange(0, 0)) =~= Seq::<u8>::empty());
        assert(out@ =~= old(out)@ + raw::ser_functions(functions@.subrange(0, 0)));
    }
    while i < n
        invariant
            i <= n,
            n == functions@.len(),
            out@ == old(out)@ + raw::ser_functions(functions@.subrange(0, i as int)),
        decreases n - i,
    {
        let f = functions[i];
        push_u32(out, f.name_idx);
        push_u32(out, f.entry_pc);
        out.push(f.lang);
        push_zeros(out, 3);
        proof {
            let pre = functions@.subrange(0, i + 1);
            assert(pre.drop_last() =~= functions@.subrange(0, i as int));
            assert(pre.last() == functions@[i as int]);
            assert(out@ =~= old(out)@ + raw::ser_functions(pre));
        }
        i += 1;
    }
    proof {
        assert(functions@.subrange(0, n as int) =~= functions@);
    }
}

/// Emits the source locations table.
fn emit_locations(out: &mut Vec<u8>, locs: &Vec<raw::SourceLocation>)
    ensures
        final(out)@ == old(out)@ + raw::ser_locations(locs@),
{
    let n = locs.len();
    let mut i: usize = 0;
    proof {
        assert(raw::ser_locations(locs@.subrange(0, 0)) =~= Seq::<u8>::empty());
        assert(out@ =~= old(out)@ + raw::ser_locations(locs@.subrange(0, 0)));
    }
    while i < n
        invariant
            i <= n,
            n == locs@.len(),
            out@ == old(out)@ + raw::ser_locations(locs@.subrange(0, i as int)),
        decreases n - i,
    {
        let l = locs[i];
        push_u32(out, l.file_idx);
        push_u32(out, l.line);
        push_u32(out, l.function_idx);
        push_u32(out, l.inlined_into_idx);
        proof {
            let pre = locs@.subrange(0, i + 1);
            assert(pre.drop_last() =~= locs@.subrange(0, i as int));
            assert(pre.last() == locs@[i as int]);
            assert(out@ =~= old(out)@ + raw::ser_locations(pre));
        }
        i += 1;
    }
    proof {
        assert(locs@.subrange(0, n as int) =~= locs@);
    }
}

/// Emits the string descriptor table.
fn emit_strings(out: &mut Vec<u8>, strings: &Vec<raw::String>)
    ensures
        final(out)@ == old(out)@ + raw::ser_strings(strings@),
{
    let n = strings.len();
    let mut i: usize = 0;
    proof {
        assert(raw::ser_strings(strings@.subrange(0, 0)) =~= Seq::<u8>::empty());
        assert(out@ =~= old(out)@ + raw::ser_strings(strings@.subrange(0, 0)));
    }
    while i < n
        invariant
            i <= n,
            n == strings@.len(),
            out@ == old(out)@ + raw::ser_strings(strings@.subrange(0, i as int)),
        decreases n - i,
    {
        let s = strings[i];
        push_u32(out, s.string_offset);
        push_u32(out, s.string_len);
        proof {
            let pre = strings@.subrange(0, i + 1);
            assert(pre.drop_last() =~= strings@.subrange(0, i as int));
            assert(pre.last() == strings@[i as int]);
            assert(out@ =~= old(out)@ + raw::ser_strings(pre));
        }
        i += 1;
    }
    proof {
        assert(strings@.subrange(0, n as int) =~= strings@);
    }
}

/// Emits a table of bare 32-bit words.
fn emit_u32s(out: &mut Vec<u8>, words: &Vec<u32>)
    ensures
        final(out)@ == old(out)@ + raw::ser_u32s(words@),
{
    let n = words.len();
    let mut i: usize = 0;
    proof {
        assert(raw::ser_u32s(words@.subrange(0, 0)) =~= Seq::<u8>::empty());
        assert(out@ =~= old(out)@ + raw::ser_u32s(words@.subrange(0, 0)));
    }
    while i < n
        invariant
            i <= n,
            n == words@.len(),
            out@ == old(out)@ + raw::ser_u32s(words@.subrange(0, i as int)),
        decreases n - i,
    {
        push_u32(out, words[i]);
        proof {
            let pre = words@.subrange(0, i + 1);
            assert(pre.drop_last() =~= words@.subrange(0, i as int));
            assert(pre.last() == words@[i as int]);
            assert(out@ =~= old(out)@ + raw::ser_u32s(pre));
        }
        i += 1;
    }
    proof {
        assert(words@.subrange(0, n as int) =~= words@);
    }
}

/// All tables of a writer are empty.
pub open spec fn all_empty(w: SymCacheWriter) -> bool {
    &&& w.string_bytes@.len() == 0
    &&& w.strings@.len() == 0
    &&& w.files@.len() == 0
    &&& w.functions@.len() == 0
    &&& w.source_locations@.len() == 0
    &&& w.ranges@.len() == 0
}

/// Converts an absolute address to a relative one by subtracting the load
/// address.
fn rel_addr(addr: u64, load: u64) -> (r: Result<u32, WriteError>)
    ensures
        match r {
            Ok(a) => addr >= load && a == addr - load,
            Err(e) => (e == WriteError::BadSession && addr < load) || (e == WriteError::TooLarge
                && addr >= load && addr - load > 0xFFFF_FFFF),
        },
{
    if addr < load {
        return Err(WriteError::BadSession);
    }
    let d = addr - load;
    if d > 0xFFFF_FFFFu64 {
        return Err(WriteError::TooLarge);
    }
    Ok(d as u32)
}

/// Ingests every record of a session into a writer: functions and their line
/// records first, then public symbols for the spans no range covers yet.
///
/// On success every line record of the session is represented: a provisional
/// range starts at its relative address and maps to a source location naming
/// the record's function and file.
pub fn build_writer(session: &DebugSession) -> (r: Result<SymCacheWriter, WriteError>)
    ensures
        match r {
            Ok(w) => {
                &&& w.wf()
                &&& session_represented(w, *session)
                &&& (session.functions@.len() == 0 && session.symbols@.len() == 0 ==> all_empty(
                    w,
                ))
            },
            Err(e) => e == WriteError::TooLarge || (e == WriteError::BadSession
                && !session_consistent(*session)),
        },
{
    let load = session.load_address;
    let mut w = SymCacheWriter::new();
    let nf = session.functions.len();
    let mut fi: usize = 0;
    while fi < nf
        invariant
            w.wf(),
            fi <= nf,
            nf == session.functions@.len(),
            load == session.load_address,
            prefix_represented(w, *session, fi as int, 0),
            fi == 0 ==> all_empty(w),
        decreases nf - fi,
    {
        let f = &session.functions[fi];
        let entry_word: u32 = match f.entry_pc {
            Some(pc) => {
                if pc < load {
                    proof {
                        assert(!function_record_ok(session.functions@[fi as int], load));
                    }
                    return Err(WriteError::BadSession);
                }
                let d = pc - load;
                // A value equal to the absent sentinel would be read back as
                // "unknown", so it is rejected along with the larger ones.
                if d >= 0xFFFF_FFFFu64 {
                    return Err(WriteError::TooLarge);
                }
                d as u32
            },
            None => raw::ABSENT,
        };
        let ghost w0 = w;
        let func_idx = match w.intern_function(f.name.as_slice(), entry_word, f.language) {
            Ok(x) => x,
            Err(e) => {
                return Err(e);
            },
        };
        proof {
            lemma_prefix_stable(w0, w, *session, fi as int, 0);
        }
        let nl = f.lines.len();
        let mut li: usize = 0;
        let mut prev: u64 = 0;
        let mut offset: u64 = 0;
        while li < nl
            invariant
                w.wf(),
                li <= nl,
                fi < nf,
                nf == session.functions@.len(),
                nl == session.functions@[fi as int].lines@.len(),
                f == &session.functions@[fi as int],
                load == session.load_address,
                (func_idx as int) < w.functions@.len(),
                func_idx != raw::ABSENT,
                function_row_matches(
                    w.string_bytes@,
                    w.strings@,
                    w.functions@[func_idx as int],
                    session.functions@[fi as int].name@,
                    entry_word,
                    session.functions@[fi as int].language,
                ),
                prefix_represented(w, *session, fi as int, li as int),
                prev <= 0xFFFF_FFFF,
                offset <= 0x1_0000_7FFF,
            decreases nl - li,
        {
            let l = &f.lines[li];
            let ghost lw0 = w;
            let rel = match rel_addr(l.address, load) {
                Ok(a) => a,
                Err(e) => {
                    proof {
                        if l.address < load {
                            assert(!line_record_ok(
                                session.functions@[fi as int].lines@[li as int],
                                load,
                            ));
                            assert(!function_record_ok(session.functions@[fi as int], load));
                        }
                    }
                    return Err(e);
                },
            };
            if l.inline_chain.len() > 255 {
                proof {
                    assert(!line_record_ok(
                        session.functions@[fi as int].lines@[li as int],
                        load,
                    ));
                    assert(!function_record_ok(session.functions@[fi as int], load));
                }
                return Err(WriteError::BadSession);
            }
            let file_idx = match w.intern_file(&l.file) {
                Ok(x) => x,
                Err(e) => {
                    return Err(e);
                },
            };
            let ghost c0 = w;
            proof {
                SymCacheWriter::lemma_same_extends(c0, w);
                lemma_fn_match_stable(
                    lw0,
                    w,
                    lw0.functions@[func_idx as int],
                    session.functions@[fi as int].name@,
                    entry_word,
                    session.functions@[fi as int].language,
                );
                assert(w.functions@[func_idx as int] == lw0.functions@[func_idx as int]);
            }
            let line_word: u32 = if l.line == 0 {
                raw::NO_LINE
            } else {
                if l.line > 0xFFFF_FFFFu64 {
                    return Err(WriteError::TooLarge);
                }
                let bumped = unwrap_line(prev, offset, l.line as u32);
                if bumped.0 > 0xFFFF_FFFFu64 {
                    return Err(WriteError::TooLarge);
                }
                offset = bumped.1;
                prev = bumped.0;
                bumped.0 as u32
            };
            let mut parent: u32 = raw::ABSENT;
            let nc = l.inline_chain.len();
            let mut k = nc;
            while k > 0
                invariant
                    w.wf(),
                    c0.wf(),
                    k <= nc,
                    fi < nf,
                    nf == session.functions@.len(),
                    li < session.functions@[fi as int].lines@.len(),
                    l == &session.functions@[fi as int].lines@[li as int],
                    nc == l.inline_chain@.len(),
                    SymCacheWriter::extends(c0, w),
                    w.ranges@ == c0.ranges@,
                    parent == raw::ABSENT || (parent as int) < w.source_locations@.len(),
                    parent == raw::ABSENT ==> k == nc,
                    parent != raw::ABSENT ==> raw::chain_of(
                        w.source_locations@,
                        parent as int,
                    ).len() == nc - k,
                    nc <= 255,
                    (func_idx as int) < w.functions@.len(),
                    (file_idx as int) < w.files@.len(),
                    function_row_matches(
                        w.string_bytes@,
                        w.strings@,
                        w.functions@[func_idx as int],
                        session.functions@[fi as int].name@,
                        entry_word,
                        session.functions@[fi as int].language,
                    ),
                    file_row_matches(
                        w.string_bytes@,
                        w.strings@,
                        w.files@[file_idx as int],
                        session.functions@[fi as int].lines@[li as int].file,
                    ),
                decreases k,
            {
                k -= 1;
                let inl = &l.inline_chain[k];
                let ghost ch = w;
                let ifile = match w.intern_file(&inl.file) {
                    Ok(x) => x,
                    Err(e) => {
                        return Err(e);
                    },
                };
                let ghost ca = w;
                if inl.line > 0xFFFF_FFFFu64 {
                    return Err(WriteError::TooLarge);
                }
                let iline = inl.line as u32;
                let ifunc = match w.intern_function(
                    inl.function_name.as_slice(),
                    raw::ABSENT,
                    inl.language,
                ) {
                    Ok(x) => x,
                    Err(e) => {
                        return Err(e);
                    },
                };
                let ghost cb = w;
                parent = match w.push_source_location(ifile, iline, ifunc, parent) {
                    Ok(x) => x,
                    Err(e) => {
                        return Err(e);
                    },
                };
                proof {
                    SymCacheWriter::lemma_extends_trans(ch, ca, cb);
                    SymCacheWriter::lemma_extends_trans(ch, cb, w);
                    SymCacheWriter::lemma_extends_trans(c0, ch, w);
                    lemma_fn_match_stable(
                        ch,
                        w,
                        ch.functions@[func_idx as int],
                        session.functions@[fi as int].name@,
                        entry_word,
                        session.functions@[fi as int].language,
                    );
                    assert(w.functions@[func_idx as int] == ch.functions@[func_idx as int]);
                    lemma_file_match_stable(
                        ch,
                        w,
                        ch.files@[file_idx as int],
                        session.functions@[fi as int].lines@[li as int].file,
                    );
                    assert(w.files@[file_idx as int] == ch.files@[file_idx as int]);
                }
            }
            let ghost w_ap0 = w;
            let leaf = match w.push_source_location(file_idx, line_word, func_idx, parent) {
                Ok(x) => x,
                Err(e) => {
                    return Err(e);
                },
            };
            let ghost w_ar0 = w;
            let entry = RangeEntry { addr: rel, sl_idx: leaf, has_line: true };
            match w.add_range(entry) {
                Ok(_) => {},
                Err(e) => {
                    return Err(e);
                },
            };
            proof {
                SymCacheWriter::lemma_extends_trans(lw0, c0, w_ap0);
                SymCacheWriter::lemma_extends_trans(lw0, w_ap0, w_ar0);
                SymCacheWriter::lemma_extends_trans(lw0, w_ar0, w);
                lemma_prefix_stable(lw0, w, *session, fi as int, li as int);
                let p = choose|p: int|
                    {
                        &&& 0 <= p <= w_ar0.ranges@.len()
                        &&& w.ranges@ == w_ar0.ranges@.insert(p, entry)
                        &&& forall|i: int|
                            0 <= i < p ==> (#[trigger] w_ar0.ranges@[i]).addr <= entry.addr
                        &&& forall|i: int|
                            p <= i < w_ar0.ranges@.len() ==> entry.addr < (#[trigger] w_ar0.ranges@[i]).addr
                    };
                assert(w.ranges@[p] == entry);
                assert(w.ranges@.contains(entry));
                let row = raw::SourceLocation {
                    file_idx,
                    line: line_word,
                    function_idx: func_idx,
                    inlined_into_idx: parent,
                };
                assert(w.source_locations@[leaf as int] == row);
                assert(location_names(
                    w,
                    row,
                    session.functions@[fi as int].name@,
                    session.functions@[fi as int].lines@[li as int].file,
                ));
                assert(line_record_represented(
                    w,
                    session.functions@[fi as int],
                    session.functions@[fi as int].lines@[li as int],
                    load,
                ));
                assert forall|i2: int, j2: int|
                    0 <= i2 < session.functions@.len() && 0 <= j2 < (#[trigger] session.functions@[i2]).lines@.len()
                        && (i2 < fi as int || (i2 == fi as int && j2 < li + 1)) implies line_record_represented(
                    w,
                    session.functions@[i2],
                    #[trigger] session.functions@[i2].lines@[j2],
                    load,
                ) by {
                    if i2 == fi as int && j2 == li as int {
                    } else {
                        assert(i2 < fi as int || (i2 == fi as int && j2 < li as int));
                    }
                }
            }
            li += 1;
        }
        proof {
            assert forall|i2: int, j2: int|
                0 <= i2 < session.functions@.len() && 0 <= j2 < (#[trigger] session.functions@[i2]).lines@.len()
                    && (i2 < fi + 1 || (i2 == fi + 1 && j2 < 0)) implies line_record_represented(
                w,
                session.functions@[i2],
                #[trigger] session.functions@[i2].lines@[j2],
                load,
            ) by {
                assert(i2 < fi as int || (i2 == fi as int && j2 < nl as int));
            }
        }
        fi += 1;
    }
    let ns = session.symbols.len();
    let mut si: usize = 0;
    while si < ns
        invariant
            w.wf(),
            si <= ns,
            ns == session.symbols@.len(),
            nf == session.functions@.len(),
            load == session.load_address,
            prefix_represented(w, *session, nf as int, 0),
            nf == 0 && si == 0 ==> all_empty(w),
        decreases ns - si,
    {
        let sym = &session.symbols[si];
        let rel = match rel_addr(sym.address, load) {
            Ok(a) => a,
            Err(e) => {
                proof {
                    if sym.address < load {
                        assert(session.symbols@[si as int].address < load);
                    }
                }
                return Err(e);
            },
        };
        if !is_covered(&w.ranges, rel) {
            // Whether the end of the declared span falls into an already
            // covered spot is decided before the symbol's own range goes in.
            let mut terminator: Option<u32> = None;
            if let Some(size) = sym.size {
                if size > 0xFFFF_FFFF_FFFF_FFFFu64 - sym.address {
                    return Err(WriteError::TooLarge);
                }
                let end = sym.address + size;
                let end_rel = match rel_addr(end, load) {
                    Ok(a) => a,
                    Err(e) => {
                        if e == WriteError::BadSession {
                            assert(false);
                        }
                        return Err(e);
                    },
                };
                if !is_covered(&w.ranges, end_rel) {
                    terminator = Some(end_rel);
                }
            }
            let ghost s0 = w;
            let func_idx = match w.intern_function(sym.name.as_slice(), rel, 0u8) {
                Ok(x) => x,
                Err(e) => {
                    return Err(e);
                },
            };
            let ghost s1 = w;
            let slidx = match w.push_source_location(raw::ABSENT, raw::NO_LINE, func_idx, raw::ABSENT) {
                Ok(x) => x,
                Err(e) => {
                    return Err(e);
                },
            };
            let ghost s2 = w;
            match w.add_range(RangeEntry { addr: rel, sl_idx: slidx, has_line: false }) {
                Ok(_) => {},
                Err(e) => {
                    return Err(e);
                },
            };
            proof {
                SymCacheWriter::lemma_extends_trans(s0, s1, s2);
                SymCacheWriter::lemma_extends_trans(s0, s2, w);
                lemma_prefix_stable(s0, w, *session, nf as int, 0);
            }
            if let Some(end_rel) = terminator {
                let ghost s3 = w;
                match w.add_range(
                    RangeEntry { addr: end_rel, sl_idx: raw::ABSENT, has_line: false },
                ) {
                    Ok(_) => {},
                    Err(e) => {
                        return Err(e);
                    },
                };
                proof {
                    lemma_prefix_stable(s3, w, *session, nf as int, 0);
                }
            }
        }
        si += 1;
    }
    proof {
        assert forall|i2: int, j2: int|
            0 <= i2 < session.functions@.len() && 0 <= j2 < (#[trigger] session.functions@[i2]).lines@.len() implies line_record_represented(
            w,
            session.functions@[i2],
            #[trigger] session.functions@[i2].lines@[j2],
            session.load_address,
        ) by {
            assert(i2 < nf as int);
        }
    }
    Ok(w)
}

/// The buffer is the serialization of one well-formed set of writer tables
/// carrying the session's debug identifier and architecture.
pub open spec fn writes_tables_of(w: SymCacheWriter, session: DebugSession, out: Seq<u8>) -> bool {
    let rs = coalesce(dedup_addr(w.ranges@));
    &&& w.wf()
    &&& out == raw::ser_cache(
        session.debug_id@,
        session.arch,
        w.strings@,
        w.files@,
        w.functions@,
        w.source_locations@,
        range_addrs_of(rs),
        range_sls_of(rs),
        w.string_bytes@,
    )
}

/// The buffer serializes one well-formed set of tables that carries the
/// session's debug identifier and architecture and represents every line
/// record of the session.
pub open spec fn built_from(session: DebugSession, out: Seq<u8>) -> bool {
    exists|w: SymCacheWriter|
        #![auto]
        writes_tables_of(w, session, out) && session_represented(w, session)
}

/// Builds and serializes a cache for a session in one call.
///
/// An empty session yields a valid buffer whose tables are all empty.
#[verifier::rlimit(50)]
pub fn write_symcache(session: &DebugSession) -> (r: Result<Vec<u8>, WriteError>)
    ensures
        match r {
            Ok(buf) => {
                &&& built_from(*session, buf@)
                &&& (session.functions@.len() == 0 && session.symbols@.len() == 0 ==> buf@
                    == raw::ser_cache(
                    session.debug_id@,
                    session.arch,
                    Seq::empty(),
                    Seq::empty(),
                    Seq::empty(),
                    Seq::empty(),
                    Seq::empty(),
                    Seq::empty(),
                    Seq::empty(),
                ))
            },
            Err(e) => e == WriteError::TooLarge || (e == WriteError::BadSession
                && !session_consistent(*session)),
        },
{
    let w = match build_writer(session) {
        Ok(w) => w,
        Err(e) => {
            return Err(e);
        },
    };
    let buf = w.finish(&session.debug_id, session.arch);
    proof {
        assert(writes_tables_of(w, *session, buf@));
        assert(session_represented(w, *session));
        assert(built_from(*session, buf@));
        if session.functions@.len() == 0 && session.symbols@.len() == 0 {
            assert(w.ranges@ =~= Seq::<RangeEntry>::empty());
            assert(range_addrs_of(coalesce(dedup_addr(w.ranges@))) =~= Seq::<u32>::empty());
            assert(range_sls_of(coalesce(dedup_addr(w.ranges@))) =~= Seq::<u32>::empty());
            assert(w.strings@ =~= Seq::<raw::String>::empty());
            assert(w.files@ =~= Seq::<raw::File>::empty());
            assert(w.functions@ =~= Seq::<raw::Function>::empty());
            assert(w.source_locations@ =~= Seq::<raw::SourceLocation>::empty());
            assert(w.string_bytes@ =~= Seq::<u8>::empty());
        }
    }
    Ok(buf)
}

/// Inserting a range entry keeps every entry that was already present.
pub proof fn lemma_insert_preserves_contains(
    r1: Seq<RangeEntry>,
    r2: Seq<RangeEntry>,
    p: int,
    e: RangeEntry,
)
    requires
        0 <= p <= r1.len(),
        r2 == r1.insert(p, e),
    ensures
        forall|x: RangeEntry| r1.contains(x) ==> #[trigger] r2.contains(x),
{
    assert forall|x: RangeEntry| r1.contains(x) implies #[trigger] r2.contains(x) by {
        let i = choose|i: int| 0 <= i < r1.len() && r1[i] == x;
        if i < p {
            assert(r2[i] == x);
        } else {
            assert(r2[i + 1] == x);
        }
    }
}

/// A matched file row keeps matching when the tables only grow.
pub proof fn lemma_file_match_stable(w1: SymCacheWriter, w2: SymCacheWriter, row: raw::File, key: FileKey)
    requires
        SymCacheWriter::extends(w1, w2),
        raw::strings_wf(w1.strings@, w1.string_bytes@.len()),
        file_row_matches(w1.string_bytes@, w1.strings@, row, key),
    ensures
        file_row_matches(w2.string_bytes@, w2.strings@, row, key),
{
    SymCacheWriter::lemma_opt_match_stable(w1, w2, row.comp_dir_idx, opt_view(key.comp_dir));
    SymCacheWriter::lemma_opt_match_stable(w1, w2, row.directory_idx, opt_view(key.directory));
    SymCacheWriter::lemma_opt_match_stable(w1, w2, row.path_name_idx, opt_view(key.path_name));
}

/// A matched function row keeps matching when the tables only grow.
pub proof fn lemma_fn_match_stable(
    w1: SymCacheWriter,
    w2: SymCacheWriter,
    row: raw::Function,
    name: Seq<u8>,
    entry_pc: u32,
    lang: u8,
)
    requires
        SymCacheWriter::extends(w1, w2),
        raw::strings_wf(w1.strings@, w1.string_bytes@.len()),
        function_row_matches(w1.string_bytes@, w1.strings@, row, name, entry_pc, lang),
    ensures
        function_row_matches(w2.string_bytes@, w2.strings@, row, name, entry_pc, lang),
{
    SymCacheWriter::lemma_string_at_stable(w1, w2, row.name_idx as int);
}

/// A represented line record stays represented when the tables only grow and
/// no range entry is dropped.
pub proof fn lemma_represented_stable(
    w1: SymCacheWriter,
    w2: SymCacheWriter,
    f: FunctionRecord,
    l: LineRecord,
    load: u64,
)
    requires
        SymCacheWriter::extends(w1, w2),
        raw::strings_wf(w1.strings@, w1.string_bytes@.len()),
        forall|x: RangeEntry| w1.ranges@.contains(x) ==> #[trigger] w2.ranges@.contains(x),
        line_record_represented(w1, f, l, load),
    ensures
        line_record_represented(w2, f, l, load),
{
    let en = choose|en: RangeEntry|
        {
            &&& #[trigger] w1.ranges@.contains(en)
            &&& en.addr == l.address - load
            &&& en.has_line
            &&& en.sl_idx != raw::ABSENT
            &&& (en.sl_idx as int) < w1.source_locations@.len()
            &&& location_names(w1, w1.source_locations@[en.sl_idx as int], f.name@, l.file)
        };
    let sl = w1.source_locations@[en.sl_idx as int];
    assert(w2.source_locations@[en.sl_idx as int] == sl);
    SymCacheWriter::lemma_string_at_stable(
        w1,
        w2,
        w1.functions@[sl.function_idx as int].name_idx as int,
    );
    lemma_file_match_stable(w1, w2, w1.files@[sl.file_idx as int], l.file);
    assert(w2.ranges@.contains(en));
    assert(location_names(w2, sl, f.name@, l.file));
}

/// A represented prefix of the session stays represented when the tables only
/// grow and no range entry is dropped.
pub proof fn lemma_prefix_stable(
    w1: SymCacheWriter,
    w2: SymCacheWriter,
    s: DebugSession,
    fi: int,
    li: int,
)
    requires
        SymCacheWriter::extends(w1, w2),
        raw::strings_wf(w1.strings@, w1.string_bytes@.len()),
        forall|x: RangeEntry| w1.ranges@.contains(x) ==> #[trigger] w2.ranges@.contains(x),
        prefix_represented(w1, s, fi, li),
    ensures
        prefix_represented(w2, s, fi, li),
{
    assert forall|i2: int, j2: int|
        0 <= i2 < s.functions@.len() && 0 <= j2 < (#[trigger] s.functions@[i2]).lines@.len() && (
        i2 < fi || (i2 == fi && j2 < li)) implies line_record_represented(
        w2,
        s.functions@[i2],
        #[trigger] s.functions@[i2].lines@[j2],
        s.load_address,
    ) by {
        lemma_represented_stable(w1, w2, s.functions@[i2], s.functions@[i2].lines@[j2], s.load_address);
    }
}

/// A section emitted after an 8-aligned prefix pads as if it stood alone.
pub proof fn lemma_padded_append(x: Seq<u8>, s: Seq<u8>)
    requires
        x.len() % 8 == 0,
    ensures
        (x + s) + raw::zeros(raw::spec_align_to_eight((x + s).len())) =~= x + raw::padded(s),
        raw::spec_align_to_eight((x + s).len()) == raw::spec_align_to_eight(s.len()),
{
    assert((x.len() + s.len()) % 8 == s.len() % 8) by {
        vstd::arithmetic::div_mod::lemma_mod_multiples_vanish(
            x.len() as int / 8,
            s.len() as int,
            8,
        );
        assert(x.len() as int == 8 * (x.len() as int / 8));
    }
}

} // verus!
