use tdx_measure::config::{memory_size_fits_check, select_boot_mode};
use tdx_measure::{parse_memory_size, BootConfig, DirectBoot, Error, ImageConfig, IndirectBoot};

fn boot_config(memory: &str) -> BootConfig {
    BootConfig {
        cpus: 4,
        memory: memory.to_string(),
        bios: "OVMF.fd".to_string(),
        acpi_tables: "acpi_tables.bin".to_string(),
        rsdp: None,
        table_loader: None,
        boot_order: None,
        path_boot_xxxx: None,
        qemu: None,
    }
}

fn direct() -> DirectBoot {
    DirectBoot {
        kernel: "bzImage".to_string(),
        initrd: "initrd.img".to_string(),
        cmdline: "console=ttyS0".to_string(),
    }
}

fn indirect() -> IndirectBoot {
    IndirectBoot {
        qcow2: "disk.qcow2".to_string(),
        cmdline: "BOOT_IMAGE=/vmlinuz-6.8.0-60-generic ro".to_string(),
        mok_list: "MokList".to_string(),
        mok_list_trusted: "MokListTrusted".to_string(),
        mok_list_x: "MokListX".to_string(),
        sbat_level: "SbatLevel".to_string(),
    }
}

fn config(d: bool, i: bool) -> ImageConfig {
    ImageConfig {
        boot_config: Some(boot_config("2G")),
        direct: if d { Some(direct()) } else { None },
        indirect: if i { Some(indirect()) } else { None },
    }
}

#[test]
fn memory_size_plain_decimal() {
    assert_eq!(parse_memory_size("1024"), Ok(1024));
    assert_eq!(parse_memory_size("0"), Ok(0));
}

#[test]
fn memory_size_hexadecimal() {
    assert_eq!(parse_memory_size("0x1000"), Ok(0x1000));
    assert_eq!(parse_memory_size("0XfF"), Ok(255));
    assert_eq!(parse_memory_size("0x"), Err(Error::InvalidMemorySize));
    assert_eq!(parse_memory_size("0xzz"), Err(Error::InvalidMemorySize));
}

#[test]
fn memory_size_suffixes() {
    assert_eq!(parse_memory_size("4k"), Ok(4 * 1024));
    assert_eq!(parse_memory_size("4K"), Ok(4 * 1024));
    assert_eq!(parse_memory_size("3M"), Ok(3 * 1024 * 1024));
    assert_eq!(parse_memory_size("2G"), Ok(2 * 1024 * 1024 * 1024));
    assert_eq!(parse_memory_size("2g"), Ok(2 * 1024 * 1024 * 1024));
    assert_eq!(parse_memory_size("1T"), Ok(1024u64 * 1024 * 1024 * 1024));
}

#[test]
fn memory_size_trims_whitespace() {
    assert_eq!(parse_memory_size("  16G \n"), Ok(16 * 1024 * 1024 * 1024));
    assert_eq!(parse_memory_size("\t0x20 "), Ok(0x20));
}

#[test]
fn memory_size_errors() {
    assert_eq!(parse_memory_size(""), Err(Error::EmptyMemorySize));
    assert_eq!(parse_memory_size("   "), Err(Error::EmptyMemorySize));
    assert_eq!(parse_memory_size("12Q"), Err(Error::UnknownMemorySuffix));
    assert_eq!(parse_memory_size("G"), Err(Error::InvalidMemorySize));
    assert_eq!(parse_memory_size("1.5G"), Err(Error::InvalidMemorySize));
    assert_eq!(
        parse_memory_size("99999999999999999999"),
        Err(Error::InvalidMemorySize)
    );
}

#[test]
fn validate_rejects_both_boot_modes() {
    assert!(config(true, false).validate().is_ok());
    assert!(config(false, true).validate().is_ok());
    assert_eq!(
        config(false, false).validate(),
        Err("Must specify either direct or indirect boot".to_string())
    );
    assert_eq!(
        config(true, true).validate(),
        Err("Cannot specify both direct and indirect boot".to_string())
    );
}

#[test]
fn boot_mode_accessors() {
    let d = config(true, false);
    assert!(d.is_direct_boot());
    assert_eq!(d.direct_boot().map(|b| b.kernel.clone()), Some("bzImage".to_string()));
    assert!(d.indirect_boot().is_none());
    assert_eq!(d.cmdline(), "console=ttyS0");

    let i = config(false, true);
    assert!(!i.is_direct_boot());
    assert!(i.direct_boot().is_none());
    assert_eq!(i.indirect_boot().map(|b| b.qcow2.clone()), Some("disk.qcow2".to_string()));
    assert_eq!(i.cmdline(), "BOOT_IMAGE=/vmlinuz-6.8.0-60-generic ro");

    assert_eq!(config(true, true).cmdline(), "");
    assert_eq!(config(false, false).cmdline(), "");
}

#[test]
fn cpu_count_and_memory_size_need_boot_config() {
    let c = config(true, false);
    assert_eq!(c.cpu_count(), Ok(4));
    assert_eq!(c.memory_size(), Ok(2 * 1024 * 1024 * 1024));
    let none = ImageConfig { boot_config: None, direct: Some(direct()), indirect: None };
    assert_eq!(none.cpu_count(), Err(Error::MissingBootConfig));
    assert_eq!(none.memory_size(), Err(Error::MissingBootConfig));
    let bad = ImageConfig { boot_config: Some(boot_config("lots")), direct: None, indirect: None };
    assert_eq!(bad.memory_size(), Err(Error::UnknownMemorySuffix));
}

#[test]
fn boot_mode_selection() {
    // Configured mode is the default; the request overrides it.
    assert_eq!(select_boot_mode(&config(true, false), false, None, false), Ok(true));
    assert_eq!(select_boot_mode(&config(false, true), false, None, false), Ok(false));
    assert_eq!(
        select_boot_mode(&config(true, false), false, Some(false), false),
        Err(Error::MissingIndirectBoot)
    );
    assert_eq!(
        select_boot_mode(&config(false, true), false, Some(true), false),
        Err(Error::MissingDirectBoot)
    );
    // Exactly one boot section is needed, also for platform-only measurement.
    assert_eq!(
        select_boot_mode(&config(false, false), false, None, false),
        Err(Error::NoBootMode)
    );
    assert_eq!(
        select_boot_mode(&config(false, false), true, Some(false), false),
        Err(Error::NoBootMode)
    );
    // Platform-only measurement ignores the requested mode.
    assert_eq!(select_boot_mode(&config(true, false), true, Some(false), false), Ok(true));
    assert_eq!(select_boot_mode(&config(false, true), true, None, true), Ok(true));
    // Both sections are always refused.
    assert_eq!(
        select_boot_mode(&config(true, true), true, None, false),
        Err(Error::BothBootModes)
    );
    // ACPI table generation needs direct boot.
    assert_eq!(
        select_boot_mode(&config(false, true), false, None, true),
        Err(Error::AcpiGenerationNeedsDirectBoot)
    );
    assert_eq!(select_boot_mode(&config(true, false), false, None, true), Ok(true));
}

#[test]
fn memory_size_fit() {
    assert!(memory_size_fits_check("16G"));
    assert!(memory_size_fits_check("16777215T"));
    assert!(!memory_size_fits_check("16777216T"));
    assert!(!memory_size_fits_check("18446744073709551615K"));
    // Strings that do not parse are refused with an error, not an overflow.
    assert!(memory_size_fits_check("huge"));
    assert!(memory_size_fits_check(""));
}

#[test]
fn suffixes_scale_the_number() {
    for (c, m) in [('k', 1u64 << 10), ('M', 1 << 20), ('g', 1 << 30), ('T', 1 << 40)] {
        for n in ["0", "1", "7", "4096"] {
            let with = format!("{n}{c}");
            assert_eq!(parse_memory_size(&with), Ok(parse_memory_size(n).unwrap() * m));
        }
    }
}

#[test]
fn memory_size_plus_sign_before_a_suffixed_or_hex_number() {
    assert_eq!(parse_memory_size("+2G"), parse_memory_size("2G"));
    assert_eq!(parse_memory_size("+512m"), Ok(512 * 1024 * 1024));
    assert_eq!(parse_memory_size("0x+10"), Ok(0x10));
    // Without a suffix the sign makes the string neither plain digits nor suffixed.
    assert_eq!(parse_memory_size("+5"), Err(Error::UnknownMemorySuffix));
}

#[test]
fn memory_size_whitespace_of_any_kind_is_ignored() {
    for s in ["0xABC", "7T", "99"] {
        let padded = format!("\u{3000} \t{s}\r\n\u{a0}");
        assert_eq!(parse_memory_size(&padded), parse_memory_size(s));
    }
    assert_eq!(parse_memory_size("0Xdeadbeef"), Ok(0xdead_beef));
}
