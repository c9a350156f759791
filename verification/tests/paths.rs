use tdx_measure::paths::PathStorage;
use tdx_measure::{BootConfig, DirectBoot, Error, ImageConfig, IndirectBoot};

fn boot_config(memory: &str) -> BootConfig {
    BootConfig {
        cpus: 8,
        memory: memory.to_string(),
        bios: "OVMF.fd".to_string(),
        acpi_tables: "acpi/tables.bin".to_string(),
        rsdp: Some("rsdp.bin".to_string()),
        table_loader: None,
        boot_order: Some("/vars/BootOrder.bin".to_string()),
        path_boot_xxxx: Some("vars/".to_string()),
        qemu: None,
    }
}

fn direct() -> DirectBoot {
    DirectBoot {
        kernel: "vmlinuz".to_string(),
        initrd: "initrd.img".to_string(),
        cmdline: "console=ttyS0".to_string(),
    }
}

fn indirect() -> IndirectBoot {
    IndirectBoot {
        qcow2: "disk.qcow2".to_string(),
        cmdline: "BOOT_IMAGE=/vmlinuz-6.8.0 ro".to_string(),
        mok_list: "MokList.bin".to_string(),
        mok_list_trusted: "MokListTrusted.bin".to_string(),
        mok_list_x: "MokListX.bin".to_string(),
        sbat_level: "SbatLevel.bin".to_string(),
    }
}

#[test]
fn paths_are_relative_to_the_metadata_file() {
    let c = ImageConfig { boot_config: Some(boot_config("4G")), direct: Some(direct()), indirect: None };
    let p = PathStorage::new("images/td/metadata.json", &c, true).unwrap();
    assert_eq!(p.cpu_count, 8);
    assert_eq!(p.memory_size, 4 << 30);
    assert_eq!(p.firmware, "images/td/OVMF.fd");
    assert_eq!(p.acpi_tables, "images/td/acpi/tables.bin");
    assert_eq!(p.rsdp.as_deref(), Some("images/td/rsdp.bin"));
    assert_eq!(p.table_loader, None);
    // An absolute path stays as it is.
    assert_eq!(p.boot_order.as_deref(), Some("/vars/BootOrder.bin"));
    assert_eq!(p.path_boot_xxxx.as_deref(), Some("images/td/vars/"));
    assert_eq!(p.kernel.as_deref(), Some("images/td/vmlinuz"));
    assert_eq!(p.initrd.as_deref(), Some("images/td/initrd.img"));
    assert_eq!(p.qcow2, None);
    assert_eq!(p.cmdline, "console=ttyS0");
}

#[test]
fn metadata_in_the_current_directory() {
    let c = ImageConfig { boot_config: Some(boot_config("4G")), direct: None, indirect: Some(indirect()) };
    let p = PathStorage::new("metadata.json", &c, true).unwrap();
    assert_eq!(p.firmware, "OVMF.fd");
    assert_eq!(p.qcow2.as_deref(), Some("disk.qcow2"));
    assert_eq!(p.mok_list_x.as_deref(), Some("MokListX.bin"));
    assert_eq!(p.sbat_level.as_deref(), Some("SbatLevel.bin"));
    assert_eq!(p.kernel, None);
    assert_eq!(p.cmdline, "BOOT_IMAGE=/vmlinuz-6.8.0 ro");
    // A root has no parent: paths are taken relative to `.`.
    let p = PathStorage::new("/", &c, true).unwrap();
    assert_eq!(p.firmware, "./OVMF.fd");
}

#[test]
fn runtime_only_needs_no_boot_config() {
    let c = ImageConfig { boot_config: None, direct: Some(direct()), indirect: None };
    let p = PathStorage::new("m/metadata.json", &c, false).unwrap();
    assert_eq!((p.cpu_count, p.memory_size), (0, 0));
    assert_eq!(p.firmware, "");
    assert_eq!(p.acpi_tables, "");
    assert_eq!(p.rsdp, None);
    assert_eq!(p.kernel.as_deref(), Some("m/vmlinuz"));
    assert_eq!(
        PathStorage::new("m/metadata.json", &c, true).err(),
        Some(Error::BootInfoRequired)
    );
}

#[test]
fn path_resolution_reports_memory_errors() {
    let c = ImageConfig { boot_config: Some(boot_config("4X")), direct: Some(direct()), indirect: None };
    assert_eq!(
        PathStorage::new("metadata.json", &c, true).err(),
        Some(Error::UnknownMemorySuffix)
    );
}

#[test]
fn machine_from_paths() {
    let c = ImageConfig { boot_config: Some(boot_config("2G")), direct: Some(direct()), indirect: None };
    let p = PathStorage::new("td/metadata.json", &c, true).unwrap();
    let m = p.build_machine(true);
    assert_eq!(m.cpu_count, 8);
    assert_eq!(m.memory_size, 2 << 30);
    assert_eq!(m.firmware, "td/OVMF.fd");
    assert_eq!(m.kernel_cmdline, "console=ttyS0");
    assert_eq!(m.rsdp, "td/rsdp.bin");
    assert_eq!(m.table_loader, "");
    assert_eq!(m.kernel, "td/vmlinuz");
    assert_eq!(m.qcow2, "");
    assert!(m.direct_boot);
    assert!(!m.create_acpi_table);
    assert!(!p.build_machine(false).direct_boot);
}

#[test]
fn metadata_relative_paths() {
    use_resolve("images/metadata.json", "OVMF.fd", "images/OVMF.fd");
    use_resolve("metadata.json", "OVMF.fd", "OVMF.fd");
    use_resolve("images/metadata.json", "/usr/share/ovmf/OVMF.fd", "/usr/share/ovmf/OVMF.fd");
    use_resolve("/", "acpi.bin", "./acpi.bin");
}

fn use_resolve(metadata: &str, path: &str, expect: &str) {
    assert_eq!(tdx_measure::paths::resolve_metadata_path(metadata, path), expect);
}
