use symcache::types::{Arch, ArchError, CpuFamily};

#[test]
fn parse_known_names() {
    assert_eq!(Arch::parse("x86").unwrap(), Arch::X86);
    assert_eq!(Arch::parse("x86_64").unwrap(), Arch::X86_64);
    assert_eq!(Arch::parse("arm64").unwrap(), Arch::Arm64);
    assert_eq!(Arch::parse("armv5").unwrap(), Arch::ArmV5);
    assert_eq!(Arch::parse("armv6").unwrap(), Arch::ArmV6);
    assert_eq!(Arch::parse("armv7").unwrap(), Arch::ArmV7);
    assert_eq!(Arch::parse("armv7f").unwrap(), Arch::ArmV7f);
    assert_eq!(Arch::parse("armv7s").unwrap(), Arch::ArmV7s);
    assert_eq!(Arch::parse("armv7k").unwrap(), Arch::ArmV7k);
    assert_eq!(Arch::parse("armv7m").unwrap(), Arch::ArmV7m);
    assert_eq!(Arch::parse("armv7em").unwrap(), Arch::ArmV7em);
}

#[test]
fn parse_single_token_is_other() {
    assert_eq!(Arch::parse("ppc64").unwrap(), Arch::Other("ppc64".to_string()));
    assert_eq!(Arch::parse("  sparc  ").unwrap(), Arch::Other("sparc".to_string()));
}

#[test]
fn parse_rejects_empty_and_multiple_tokens() {
    assert_eq!(Arch::parse("").unwrap_err(), ArchError::UnknownArchitecture);
    assert_eq!(Arch::parse("   ").unwrap_err(), ArchError::UnknownArchitecture);
    assert_eq!(Arch::parse("two tokens").unwrap_err(), ArchError::UnknownArchitecture);
}

#[test]
fn cpu_families() {
    assert_eq!(Arch::X86.cpu_family(), CpuFamily::Pentium);
    assert_eq!(Arch::X86_64.cpu_family(), CpuFamily::Pentium);
    assert_eq!(Arch::Arm64.cpu_family(), CpuFamily::Arm);
    assert_eq!(Arch::ArmV7.cpu_family(), CpuFamily::Arm);
    assert_eq!(Arch::Other("mips".to_string()).cpu_family(), CpuFamily::Unknown);
}

#[test]
fn pointer_sizes() {
    assert_eq!(Arch::X86_64.pointer_size(), Some(8));
    assert_eq!(Arch::Arm64.pointer_size(), Some(8));
    assert_eq!(Arch::X86.pointer_size(), Some(4));
    assert_eq!(Arch::ArmV7k.pointer_size(), Some(4));
    assert_eq!(Arch::Other("mips".to_string()).pointer_size(), None);
}

#[test]
fn arch_names() {
    assert_eq!(Arch::X86_64.name(), "x86_64");
    assert_eq!(Arch::ArmV7em.name(), "armv7em");
    assert_eq!(Arch::Other("mips".to_string()).name(), "mips");
}

#[test]
fn from_mach_types() {
    // CPU_TYPE_ARM (12) with subtype ARM_V7 (9).
    assert_eq!(Arch::from_mach(12, 9).unwrap(), Arch::ArmV7);
    // CPU_TYPE_ARM64 (12 | 0x0100_0000) with subtype ALL (0).
    assert_eq!(Arch::from_mach(0x0100_000C, 0).unwrap(), Arch::Arm64);
    // CPU_TYPE_X86_64 (7 | 0x0100_0000) with subtype ALL (3).
    assert_eq!(Arch::from_mach(0x0100_0007, 3).unwrap(), Arch::X86_64);
    // An unknown CPU type pair is rejected.
    assert_eq!(Arch::from_mach(0x7FFF_FFFF, 0).unwrap_err(), ArchError::UnknownArchitecture);
}

#[test]
fn from_mach_duplicate_pairs_yield_either_name() {
    // CPU_TYPE_I386 (7) with subtype PENT (5) has two names in the Mach-O
    // table ("pentium" and "i586"); which one comes back depends on hash
    // order, so only membership is checked.
    let a = Arch::from_mach(7, 5).unwrap();
    assert!(
        a == Arch::Other("pentium".to_string()) || a == Arch::Other("i586".to_string())
    );
}
