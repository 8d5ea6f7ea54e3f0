use symcache::lookup::{ParseError, SymCache};
use symcache::session::{DebugSession, FileKey, FunctionRecord, InlineRecord, LineRecord, Symbol};
use symcache::writer::{unwrap_line, write_symcache, WriteError};

fn no_file() -> FileKey {
    FileKey { comp_dir: None, directory: None, path_name: None }
}

fn main_c() -> FileKey {
    FileKey {
        comp_dir: Some(b"/src".to_vec()),
        directory: None,
        path_name: Some(b"main.c".to_vec()),
    }
}

fn line(address: u64, file: FileKey, line: u64) -> LineRecord {
    LineRecord { address, file, line, inline_chain: Vec::new() }
}

fn simple_session() -> DebugSession {
    DebugSession {
        debug_id: [42u8; 20],
        arch: 6,
        load_address: 0x100,
        functions: vec![FunctionRecord {
            name: b"main".to_vec(),
            entry_pc: Some(0x1100),
            size: None,
            language: 1,
            lines: vec![
                line(0x1100, main_c(), 10),
                line(0x1110, main_c(), 20),
            ],
        }],
        symbols: Vec::new(),
    }
}

#[test]
fn empty_session_yields_valid_empty_cache() {
    let session = DebugSession {
        debug_id: [7u8; 20],
        arch: 9,
        load_address: 0,
        functions: Vec::new(),
        symbols: Vec::new(),
    };
    let buf = write_symcache(&session).unwrap();
    assert_eq!(&buf[0..4], b"SYMC");
    let cache = SymCache::parse(&buf).unwrap();
    assert_eq!(cache.debug_id, vec![7u8; 20]);
    assert_eq!(cache.arch, 9);
    assert_eq!(cache.range_addrs.len(), 0);
    assert_eq!(cache.functions.len(), 0);
    assert_eq!(cache.files.len(), 0);
    assert!(cache.lookup(0).is_empty());
    assert!(cache.lookup(0xDEAD_BEEF).is_empty());
}

#[test]
fn magic_bytes_lead_every_buffer() {
    let buf = write_symcache(&simple_session()).unwrap();
    assert_eq!(buf[0], b'S');
    assert_eq!(buf[1], b'Y');
    assert_eq!(buf[2], b'M');
    assert_eq!(buf[3], b'C');
}

#[test]
fn round_trip_header_fields() {
    let session = simple_session();
    let buf = write_symcache(&session).unwrap();
    let cache = SymCache::parse(&buf).unwrap();
    assert_eq!(cache.debug_id, vec![42u8; 20]);
    assert_eq!(cache.arch, 6);
    assert_eq!(cache.functions.len(), 1);
    assert_eq!(cache.files.len(), 1);
    assert_eq!(cache.strings.len(), 3);
    assert_eq!(cache.source_locations.len(), 2);
    assert_eq!(cache.range_addrs.len(), 2);
}

#[test]
fn writing_twice_is_byte_identical() {
    let session = simple_session();
    let a = write_symcache(&session).unwrap();
    let b = write_symcache(&session).unwrap();
    assert_eq!(a, b);
}

#[test]
fn lookup_resolves_function_file_and_line() {
    let buf = write_symcache(&simple_session()).unwrap();
    let cache = SymCache::parse(&buf).unwrap();
    let frames = cache.lookup(0x1005);
    assert_eq!(frames.len(), 1);
    assert_eq!(cache.function_name(&frames[0]).unwrap(), b"main".to_vec());
    assert_eq!(cache.file_path(frames[0].file_idx), b"/src/main.c".to_vec());
    assert_eq!(frames[0].line, 10);
}

#[test]
fn lookup_below_all_ranges_is_empty() {
    let buf = write_symcache(&simple_session()).unwrap();
    let cache = SymCache::parse(&buf).unwrap();
    assert!(cache.lookup(0x0FFF).is_empty());
    assert!(cache.lookup(0).is_empty());
}

#[test]
fn lookup_above_all_ranges_hits_last_range() {
    let buf = write_symcache(&simple_session()).unwrap();
    let cache = SymCache::parse(&buf).unwrap();
    let frames = cache.lookup(u32::MAX);
    assert_eq!(frames.len(), 1);
    assert_eq!(frames[0].line, 20);
    assert_eq!(cache.function_name(&frames[0]).unwrap(), b"main".to_vec());
}

#[test]
fn ranges_strictly_increase() {
    let buf = write_symcache(&simple_session()).unwrap();
    let cache = SymCache::parse(&buf).unwrap();
    for i in 1..cache.range_addrs.len() {
        assert!(cache.range_addrs[i - 1] < cache.range_addrs[i]);
    }
}

#[test]
fn inline_chain_is_innermost_first() {
    let session = DebugSession {
        debug_id: [1u8; 20],
        arch: 0,
        load_address: 0,
        functions: vec![FunctionRecord {
            name: b"leaf".to_vec(),
            entry_pc: Some(0x40),
            size: None,
            language: 0,
            lines: vec![LineRecord {
                address: 0x40,
                file: main_c(),
                line: 7,
                inline_chain: vec![
                    InlineRecord {
                        function_name: b"mid".to_vec(),
                        language: 0,
                        file: main_c(),
                        line: 5,
                    },
                    InlineRecord {
                        function_name: b"top".to_vec(),
                        language: 0,
                        file: main_c(),
                        line: 3,
                    },
                ],
            }],
        }],
        symbols: Vec::new(),
    };
    let buf = write_symcache(&session).unwrap();
    let cache = SymCache::parse(&buf).unwrap();
    let frames = cache.lookup(0x40);
    assert_eq!(frames.len(), 3);
    assert_eq!(cache.function_name(&frames[0]).unwrap(), b"leaf".to_vec());
    assert_eq!(frames[0].line, 7);
    assert_eq!(cache.function_name(&frames[1]).unwrap(), b"mid".to_vec());
    assert_eq!(frames[1].line, 5);
    assert_eq!(cache.function_name(&frames[2]).unwrap(), b"top".to_vec());
    assert_eq!(frames[2].line, 3);
}

#[test]
fn symbols_fill_uncovered_spans() {
    let session = DebugSession {
        debug_id: [2u8; 20],
        arch: 0,
        load_address: 0x100,
        functions: vec![FunctionRecord {
            name: b"f".to_vec(),
            entry_pc: Some(0x1100),
            size: None,
            language: 0,
            lines: vec![line(0x1100, main_c(), 1)],
        }],
        symbols: vec![
            Symbol { address: 0x120, size: Some(0x10), name: b"sym".to_vec() },
            // Covered by the open-ended range of `f`: skipped.
            Symbol { address: 0x2000, size: None, name: b"late".to_vec() },
        ],
    };
    let buf = write_symcache(&session).unwrap();
    let cache = SymCache::parse(&buf).unwrap();
    let frames = cache.lookup(0x25);
    assert_eq!(frames.len(), 1);
    assert_eq!(cache.function_name(&frames[0]).unwrap(), b"sym".to_vec());
    // Past the symbol's declared size a terminator makes the lookup empty.
    assert!(cache.lookup(0x35).is_empty());
    // The structured function still resolves, and covers the late symbol.
    let frames = cache.lookup(0x1000);
    assert_eq!(cache.function_name(&frames[0]).unwrap(), b"f".to_vec());
    let frames = cache.lookup(0x1F00);
    assert_eq!(cache.function_name(&frames[0]).unwrap(), b"f".to_vec());
}

#[test]
fn equal_addresses_keep_the_first_entry() {
    let session = DebugSession {
        debug_id: [3u8; 20],
        arch: 0,
        load_address: 0,
        functions: vec![FunctionRecord {
            name: b"dup".to_vec(),
            entry_pc: None,
            size: None,
            language: 0,
            lines: vec![line(0x10, main_c(), 1), line(0x10, main_c(), 2)],
        }],
        symbols: Vec::new(),
    };
    let buf = write_symcache(&session).unwrap();
    let cache = SymCache::parse(&buf).unwrap();
    assert_eq!(cache.range_addrs.len(), 1);
    let frames = cache.lookup(0x10);
    assert_eq!(frames[0].line, 1);
}

#[test]
fn large_symbol_names_survive_byte_for_byte() {
    let big = vec![b'x'; 70_000];
    let session = DebugSession {
        debug_id: [4u8; 20],
        arch: 0,
        load_address: 0,
        functions: vec![FunctionRecord {
            name: big.clone(),
            entry_pc: Some(0x10),
            size: None,
            language: 0,
            lines: vec![line(0x10, no_file(), 1)],
        }],
        symbols: Vec::new(),
    };
    let buf = write_symcache(&session).unwrap();
    let cache = SymCache::parse(&buf).unwrap();
    let frames = cache.lookup(0x10);
    assert_eq!(cache.function_name(&frames[0]).unwrap(), big);
}

#[test]
fn wrapped_line_numbers_are_reconstructed() {
    let session = DebugSession {
        debug_id: [5u8; 20],
        arch: 0,
        load_address: 0,
        functions: vec![FunctionRecord {
            name: b"wrap".to_vec(),
            entry_pc: Some(0x10),
            size: None,
            language: 0,
            lines: vec![
                line(0x10, no_file(), 65_530),
                // Stored modulo 2^16: the true line is 65_541.
                line(0x20, no_file(), 5),
                // A small genuine backward jump stays as it is.
                line(0x30, no_file(), 65_520),
            ],
        }],
        symbols: Vec::new(),
    };
    let buf = write_symcache(&session).unwrap();
    let cache = SymCache::parse(&buf).unwrap();
    assert_eq!(cache.lookup(0x10)[0].line, 65_530);
    assert_eq!(cache.lookup(0x20)[0].line, 65_541);
    assert_eq!(cache.lookup(0x30)[0].line, 65_520 + 65_536);
}

#[test]
fn writer_rejects_addresses_below_load() {
    let session = DebugSession {
        debug_id: [0u8; 20],
        arch: 0,
        load_address: 0x100,
        functions: Vec::new(),
        symbols: vec![Symbol { address: 0x50, size: None, name: b"low".to_vec() }],
    };
    assert_eq!(write_symcache(&session).unwrap_err(), WriteError::BadSession);
}

#[test]
fn writer_rejects_deep_inline_chains() {
    let chain: Vec<InlineRecord> = (0..256)
        .map(|i| InlineRecord {
            function_name: format!("c{}", i).into_bytes(),
            language: 0,
            file: no_file(),
            line: 1,
        })
        .collect();
    let session = DebugSession {
        debug_id: [0u8; 20],
        arch: 0,
        load_address: 0,
        functions: vec![FunctionRecord {
            name: b"deep".to_vec(),
            entry_pc: None,
            size: None,
            language: 0,
            lines: vec![LineRecord { address: 0x10, file: no_file(), line: 1, inline_chain: chain }],
        }],
        symbols: Vec::new(),
    };
    assert_eq!(write_symcache(&session).unwrap_err(), WriteError::BadSession);
}

#[test]
fn writer_rejects_addresses_past_four_gib() {
    let session = DebugSession {
        debug_id: [0u8; 20],
        arch: 0,
        load_address: 0x100,
        functions: vec![FunctionRecord {
            name: b"far".to_vec(),
            entry_pc: None,
            size: None,
            language: 0,
            lines: vec![line(0x1_0000_0101, no_file(), 1)],
        }],
        symbols: Vec::new(),
    };
    assert_eq!(write_symcache(&session).unwrap_err(), WriteError::TooLarge);
}

#[test]
fn parse_rejects_short_buffers() {
    assert_eq!(SymCache::parse(&[]).unwrap_err(), ParseError::Truncated);
    assert_eq!(SymCache::parse(&[0u8; 79]).unwrap_err(), ParseError::Truncated);
}

#[test]
fn parse_rejects_bad_magic() {
    assert_eq!(SymCache::parse(&[0u8; 80]).unwrap_err(), ParseError::BadMagic);
}

#[test]
fn parse_rejects_swapped_magic_as_endian_mismatch() {
    let mut buf = vec![0u8; 80];
    buf[0..4].copy_from_slice(b"CMYS");
    assert_eq!(SymCache::parse(&buf).unwrap_err(), ParseError::EndianMismatch);
}

#[test]
fn parse_rejects_wrong_version() {
    let mut buf = vec![0u8; 80];
    buf[0..4].copy_from_slice(b"SYMC");
    buf[4..8].copy_from_slice(&999u32.to_le_bytes());
    assert_eq!(SymCache::parse(&buf).unwrap_err(), ParseError::WrongVersion);
}

#[test]
fn parse_rejects_truncated_and_oversized_buffers() {
    let session = DebugSession {
        debug_id: [0u8; 20],
        arch: 0,
        load_address: 0,
        functions: Vec::new(),
        symbols: Vec::new(),
    };
    let buf = write_symcache(&session).unwrap();
    assert_eq!(buf.len(), 80);
    assert_eq!(SymCache::parse(&buf[..79]).unwrap_err(), ParseError::Truncated);
    let mut longer = buf.clone();
    longer.push(0);
    assert_eq!(SymCache::parse(&longer).unwrap_err(), ParseError::BadAlignment);
}

#[test]
fn parse_rejects_unsorted_ranges() {
    let mut buf = write_symcache(&simple_session()).unwrap();
    // The range address table starts at byte 168 in this layout; make the
    // second range equal to the first.
    let first: [u8; 4] = buf[168..172].try_into().unwrap();
    buf[172..176].copy_from_slice(&first);
    assert_eq!(SymCache::parse(&buf).unwrap_err(), ParseError::Corrupt);
}

#[test]
fn parse_rejects_string_out_of_bounds() {
    let mut buf = write_symcache(&simple_session()).unwrap();
    // The first string descriptor's length word lies at byte 148 in this
    // layout; point it past the pool.
    buf[148..152].copy_from_slice(&0xFFFF_FFFFu32.to_le_bytes());
    assert_eq!(SymCache::parse(&buf).unwrap_err(), ParseError::InvalidString);
}

#[test]
fn unwrap_line_compensates_wraps() {
    // No previous line: the raw value stands.
    assert_eq!(unwrap_line(0, 0, 10), (10, 0));
    // A small backward jump is genuine and stays.
    assert_eq!(unwrap_line(500, 0, 400), (400, 0));
    // A drop by nearly 2^16 is a wrap: one multiple is added.
    assert_eq!(unwrap_line(65_530, 0, 5), (65_541, 65_536));
    // The carried offset keeps later lines in the lifted region.
    assert_eq!(unwrap_line(65_541, 65_536, 10), (65_546, 65_536));
    // A drop over several wrap periods adds several multiples.
    assert_eq!(unwrap_line(200_000, 0, 1), (196_609, 196_608));
}
