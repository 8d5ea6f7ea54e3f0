//! CPU architecture tags carried in a symbol cache header.

use vstd::prelude::*;
use vstd::string::*;

verus! {

/// The error returned when a string or a Mach-O CPU type pair names no
/// architecture.
#[derive(Clone, Copy, Debug, PartialEq, Eq, Structural)]
pub enum ArchError {
    /// The input matched no known architecture and was not a single token.
    UnknownArchitecture,
}

/// The broad CPU family an [`Arch`] belongs to.
#[derive(Debug, PartialEq, Eq, PartialOrd, Ord, Clone, Copy, Structural)]
pub enum CpuFamily {
    Pentium,
    Arm,
    Unknown,
}

/// An enum of supported architectures.
#[derive(Debug, PartialEq, Eq, PartialOrd, Ord, Clone)]
#[allow(non_camel_case_types)]
pub enum Arch {
    X86,
    X86_64,
    Arm64,
    ArmV5,
    ArmV6,
    ArmV7,
    ArmV7f,
    ArmV7s,
    ArmV7k,
    ArmV7m,
    ArmV7em,
    Other(String),
}

/// True of the characters that separate tokens in an architecture string:
/// the Unicode white-space set.
pub open spec fn is_ws(c: char) -> bool {
    c == '\u{0009}' || c == '\u{000A}' || c == '\u{000B}' || c == '\u{000C}'
        || c == '\u{000D}' || c == '\u{0020}' || c == '\u{0085}' || c == '\u{00A0}'
        || c == '\u{1680}' || ('\u{2000}' <= c && c <= '\u{200A}') || c == '\u{2028}'
        || c == '\u{2029}' || c == '\u{202F}' || c == '\u{205F}' || c == '\u{3000}'
}

/// The first position at or after `i` holding a non-white-space character,
/// or the length of `s` if there is none.
pub open spec fn ws_end(s: Seq<char>, i: int) -> int
    recommends
        0 <= i <= s.len(),
    decreases s.len() - i when 0 <= i <= s.len()
{
    if i >= s.len() {
        s.len() as int
    } else if is_ws(s[i]) {
        ws_end(s, i + 1)
    } else {
        i
    }
}

/// The first position at or after `i` holding a white-space character, or the
/// length of `s` if there is none.
pub open spec fn token_end(s: Seq<char>, i: int) -> int
    recommends
        0 <= i <= s.len(),
    decreases s.len() - i when 0 <= i <= s.len()
{
    if i >= s.len() {
        s.len() as int
    } else if !is_ws(s[i]) {
        token_end(s, i + 1)
    } else {
        i
    }
}

/// True when `s` consists of exactly one white-space-separated token.
pub open spec fn single_token(s: Seq<char>) -> bool {
    let a = ws_end(s, 0);
    a < s.len() && ws_end(s, token_end(s, a)) == s.len()
}

/// The first white-space-separated token of `s`.
pub open spec fn token_of(s: Seq<char>) -> Seq<char> {
    s.subrange(ws_end(s, 0), token_end(s, ws_end(s, 0)))
}

/// The architecture a string names directly, before any tokenization.
pub open spec fn known_arch(s: Seq<char>) -> Option<Arch> {
    if s == "x86"@ {
        Some(Arch::X86)
    } else if s == "x86_64"@ {
        Some(Arch::X86_64)
    } else if s == "arm64"@ {
        Some(Arch::Arm64)
    } else if s == "armv5"@ {
        Some(Arch::ArmV5)
    } else if s == "armv6"@ {
        Some(Arch::ArmV6)
    } else if s == "armv7"@ {
        Some(Arch::ArmV7)
    } else if s == "armv7f"@ {
        Some(Arch::ArmV7f)
    } else if s == "armv7s"@ {
        Some(Arch::ArmV7s)
    } else if s == "armv7k"@ {
        Some(Arch::ArmV7k)
    } else if s == "armv7m"@ {
        Some(Arch::ArmV7m)
    } else if s == "armv7em"@ {
        Some(Arch::ArmV7em)
    } else {
        None
    }
}

/// True when parsing `s` succeeds: it either names an architecture directly
/// or holds exactly one token, which becomes an [`Arch::Other`].
pub open spec fn parseable_arch(s: Seq<char>) -> bool {
    known_arch(s) is Some || single_token(s)
}

/// What [`Arch::parse`] returns on success: the directly named architecture,
/// or [`Arch::Other`] carrying the single token of `s`.
pub open spec fn arch_parses_to(s: Seq<char>, a: Arch) -> bool {
    match known_arch(s) {
        Some(k) => a == k,
        None => single_token(s) && (a matches Arch::Other(t) && t@ == token_of(s)),
    }
}

/// The CPU family of an architecture.
pub open spec fn spec_cpu_family(a: Arch) -> CpuFamily {
    match a {
        Arch::X86 | Arch::X86_64 => CpuFamily::Pentium,
        Arch::Arm64 | Arch::ArmV5 | Arch::ArmV6 | Arch::ArmV7 | Arch::ArmV7f
            | Arch::ArmV7s | Arch::ArmV7k | Arch::ArmV7m | Arch::ArmV7em => CpuFamily::Arm,
        Arch::Other(..) => CpuFamily::Unknown,
    }
}

/// The native pointer width of an architecture, in bytes.
pub open spec fn spec_pointer_size(a: Arch) -> Option<usize> {
    match a {
        Arch::X86_64 | Arch::Arm64 => Some(8usize),
        Arch::X86 | Arch::ArmV5 | Arch::ArmV6 | Arch::ArmV7 | Arch::ArmV7f
            | Arch::ArmV7s | Arch::ArmV7k | Arch::ArmV7m | Arch::ArmV7em => Some(4usize),
        Arch::Other(..) => None,
    }
}

/// The canonical name of an architecture.
pub open spec fn spec_arch_name(a: Arch) -> Seq<char> {
    match a {
        Arch::X86 => "x86"@,
        Arch::X86_64 => "x86_64"@,
        Arch::Arm64 => "arm64"@,
        Arch::ArmV5 => "armv5"@,
        Arch::ArmV6 => "armv6"@,
        Arch::ArmV7 => "armv7"@,
        Arch::ArmV7f => "armv7f"@,
        Arch::ArmV7s => "armv7s"@,
        Arch::ArmV7k => "armv7k"@,
        Arch::ArmV7m => "armv7m"@,
        Arch::ArmV7em => "armv7em"@,
        Arch::Other(s) => s@,
    }
}

/// Compares two string slices character by character.
fn str_eq(a: &str, b: &str) -> (r: bool)
    ensures
        r == (a@ == b@),
{
    let alen = a.unicode_len();
    let blen = b.unicode_len();
    if alen != blen {
        assert(a@ != b@) by {
            assert(a@.len() != b@.len());
        }
        return false;
    }
    let mut i: usize = 0;
    while i < alen
        invariant
            i <= alen,
            alen == a@.len(),
            alen == b@.len(),
            forall|j: int| 0 <= j < i ==> a@[j] == b@[j],
        decreases alen - i,
    {
        if a.get_char(i) != b.get_char(i) {
            return false;
        }
        i += 1;
    }
    assert(a@ =~= b@);
    true
}

/// True when `c` is a Unicode white-space character.
fn is_ws_char(c: char) -> (r: bool)
    ensures
        r == is_ws(c),
{
    c == '\u{0009}' || c == '\u{000A}' || c == '\u{000B}' || c == '\u{000C}'
        || c == '\u{000D}' || c == '\u{0020}' || c == '\u{0085}' || c == '\u{00A0}'
        || c == '\u{1680}' || ('\u{2000}' <= c && c <= '\u{200A}') || c == '\u{2028}'
        || c == '\u{2029}' || c == '\u{202F}' || c == '\u{205F}' || c == '\u{3000}'
}

/// Relies on `mach_object::get_arch_name_from_types`: a lookup of a CPU type
/// pair in a static table of architecture names. The table holds two names
/// for some pairs and is walked in hash-map order, so nothing is promised of
/// the returned name; `Arch::parse` handles every possible outcome.
#[verifier::external_body]
fn mach_arch_name(cputype: u32, cpusubtype: u32) -> (r: Option<&'static str>)
{
    mach_object::get_arch_name_from_types(cputype as i32, cpusubtype as i32)
}

impl Arch {
    /// Constructs an architecture from mach CPU types.
    ///
    /// Which name the Mach-O table yields for a pair is not pinned down (see
    /// [`mach_arch_name`]), so on success the result is only known to be what
    /// some architecture string parses to.
    pub fn from_mach(cputype: u32, cpusubtype: u32) -> (r: Result<Arch, ArchError>)
        ensures
            match r {
                Ok(a) => exists|s: Seq<char>| arch_parses_to(s, a),
                Err(e) => e == ArchError::UnknownArchitecture,
            },
    {
        match mach_arch_name(cputype, cpusubtype) {
            Some(name) => {
                let r = Arch::parse(name);
                proof {
                    if r is Ok {
                        assert(arch_parses_to(name@, r->Ok_0));
                    }
                }
                r
            },
            None => Err(ArchError::UnknownArchitecture),
        }
    }

    /// Parses an architecture from a string.
    ///
    /// A string that names an architecture directly yields that architecture;
    /// any other string consisting of a single white-space-separated token
    /// yields [`Arch::Other`] carrying that token; everything else is
    /// rejected.
    pub fn parse(string: &str) -> (r: Result<Arch, ArchError>)
        ensures
            match r {
                Ok(a) => arch_parses_to(string@, a),
                Err(e) => !parseable_arch(string@) && e == ArchError::UnknownArchitecture,
            },
    {
        if str_eq(string, "x86") {
            return Ok(Arch::X86);
        }
        if str_eq(string, "x86_64") {
            return Ok(Arch::X86_64);
        }
        if str_eq(string, "arm64") {
            return Ok(Arch::Arm64);
        }
        if str_eq(string, "armv5") {
            return Ok(Arch::ArmV5);
        }
        if str_eq(string, "armv6") {
            return Ok(Arch::ArmV6);
        }
        if str_eq(string, "armv7") {
            return Ok(Arch::ArmV7);
        }
        if str_eq(string, "armv7f") {
            return Ok(Arch::ArmV7f);
        }
        if str_eq(string, "armv7s") {
            return Ok(Arch::ArmV7s);
        }
        if str_eq(string, "armv7k") {
            return Ok(Arch::ArmV7k);
        }
        if str_eq(string, "armv7m") {
            return Ok(Arch::ArmV7m);
        }
        if str_eq(string, "armv7em") {
            return Ok(Arch::ArmV7em);
        }
        let ghost s = string@;
        assert(known_arch(s) is None);
        let n = string.unicode_len();
        // Skip the leading white space.
        let mut a: usize = 0;
        while a < n && is_ws_char(string.get_char(a))
            invariant
                0 <= a <= n,
                n == s.len(),
                s == string@,
                ws_end(s, 0) == ws_end(s, a as int),
            decreases n - a,
        {
            assert(ws_end(s, a as int) == ws_end(s, a + 1));
            a += 1;
        }
        assert(ws_end(s, 0) == a);
        if a == n {
            // Only white space: no token at all.
            assert(!single_token(s));
            return Err(ArchError::UnknownArchitecture);
        }
        // Find the end of the first token.
        let mut b: usize = a;
        while b < n && !is_ws_char(string.get_char(b))
            invariant
                a <= b <= n,
                n == s.len(),
                s == string@,
                token_end(s, a as int) == token_end(s, b as int),
            decreases n - b,
        {
            assert(token_end(s, b as int) == token_end(s, b + 1));
            b += 1;
        }
        assert(token_end(s, a as int) == b);
        // The rest must be white space, or there is a second token.
        let mut j: usize = b;
        while j < n && is_ws_char(string.get_char(j))
            invariant
                b <= j <= n,
                n == s.len(),
                s == string@,
                ws_end(s, b as int) == ws_end(s, j as int),
            decreases n - j,
        {
            assert(ws_end(s, j as int) == ws_end(s, j + 1));
            j += 1;
        }
        assert(ws_end(s, b as int) == j);
        if j < n {
            assert(!single_token(s));
            return Err(ArchError::UnknownArchitecture);
        }
        assert(single_token(s));
        let token = string.substring_char(a, b);
        Ok(Arch::Other(String::from_str(token)))
    }

    /// Returns the CPU family.
    pub fn cpu_family(&self) -> (r: CpuFamily)
        ensures
            r == spec_cpu_family(*self),
    {
        match *self {
            Arch::X86 | Arch::X86_64 => CpuFamily::Pentium,
            Arch::Arm64 | Arch::ArmV5 | Arch::ArmV6 | Arch::ArmV7 | Arch::ArmV7f
                | Arch::ArmV7s | Arch::ArmV7k | Arch::ArmV7m | Arch::ArmV7em => CpuFamily::Arm,
            Arch::Other(..) => CpuFamily::Unknown,
        }
    }

    /// Returns the native pointer size in bytes.
    pub fn pointer_size(&self) -> (r: Option<usize>)
        ensures
            r == spec_pointer_size(*self),
    {
        match *self {
            Arch::X86_64 | Arch::Arm64 => Some(8),
            Arch::X86 | Arch::ArmV5 | Arch::ArmV6 | Arch::ArmV7 | Arch::ArmV7f
                | Arch::ArmV7s | Arch::ArmV7k | Arch::ArmV7m | Arch::ArmV7em => Some(4),
            Arch::Other(..) => None,
        }
    }

    /// Returns the canonical name of the architecture.
    pub fn name(&self) -> (r: &str)
        ensures
            r@ == spec_arch_name(*self),
    {
        match *self {
            Arch::X86 => "x86",
            Arch::X86_64 => "x86_64",
            Arch::Arm64 => "arm64",
            Arch::ArmV5 => "armv5",
            Arch::ArmV6 => "armv6",
            Arch::ArmV7 => "armv7",
            Arch::ArmV7f => "armv7f",
            Arch::ArmV7s => "armv7s",
            Arch::ArmV7k => "armv7k",
            Arch::ArmV7m => "armv7m",
            Arch::ArmV7em => "armv7em",
            Arch::Other(ref s) => s.as_str(),
        }
    }
}

} // verus!
