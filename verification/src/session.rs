//! The abstract debug session a writer consumes.
//!
//! A debug session is the already-parsed content of a heavyweight debug
//! object: a stream of function records with their line records and inline
//! chains, a stream of plain public symbols, and the module metadata. Parsing
//! the debug formats themselves is a collaborator's job; the writer only sees
//! these plain records.

use vstd::prelude::*;

verus! {

/// The source file of a line record, as up to three path fragments. A logical
/// path is the concatenation of the present fragments.
#[derive(Debug, Clone)]
pub struct FileKey {
    /// The compilation directory prefix, if known.
    pub comp_dir: Option<Vec<u8>>,
    /// The directory prefix, if known.
    pub directory: Option<Vec<u8>>,
    /// The file path, if known.
    pub path_name: Option<Vec<u8>>,
}

/// One caller of an inlined instruction: the function the code was inlined
/// into, and the call site's file and line.
#[derive(Debug, Clone)]
pub struct InlineRecord {
    /// The name of the calling function.
    pub function_name: Vec<u8>,
    /// The language tag of the calling function.
    pub language: u8,
    /// The file holding the call site.
    pub file: FileKey,
    /// The line of the call site; zero when unknown.
    pub line: u64,
}

/// One line record: the instruction address where a source line starts, and
/// the callers this spot was inlined into, listed from innermost to
/// outermost.
#[derive(Debug, Clone)]
pub struct LineRecord {
    /// The absolute instruction address.
    pub address: u64,
    /// The source file.
    pub file: FileKey,
    /// The source line; zero when unknown. Some producers store line numbers
    /// modulo 2^16; the writer compensates (see the writer module).
    pub line: u64,
    /// The chain of callers, innermost first.
    pub inline_chain: Vec<InlineRecord>,
}

/// One function of the debug info with its line records.
#[derive(Debug, Clone)]
pub struct FunctionRecord {
    /// The function's name.
    pub name: Vec<u8>,
    /// The lowest absolute address of the function, if known.
    pub entry_pc: Option<u64>,
    /// The size of the function in bytes, if known.
    pub size: Option<u64>,
    /// The language tag.
    pub language: u8,
    /// The line records of the function's body.
    pub lines: Vec<LineRecord>,
}

/// One public symbol: a named address without file or line information, used
/// to fill spans the structured debug info does not cover.
#[derive(Debug, Clone)]
pub struct Symbol {
    /// The absolute address of the symbol.
    pub address: u64,
    /// The size of the symbol's span in bytes, if known.
    pub size: Option<u64>,
    /// The symbol's name.
    pub name: Vec<u8>,
}

/// The full input of one writer run.
#[derive(Debug, Clone)]
pub struct DebugSession {
    /// The 20-byte debug identifier of the module (a 16-byte UUID and a
    /// 4-byte appendix).
    pub debug_id: [u8; 20],
    /// The architecture tag of the module.
    pub arch: u8,
    /// The load address all record addresses are relative to.
    pub load_address: u64,
    /// The structured function records.
    pub functions: Vec<FunctionRecord>,
    /// The public symbols.
    pub symbols: Vec<Symbol>,
}

} // verus!
