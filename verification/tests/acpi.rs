use tdx_measure::acpi::{
    build_qemu_args, container_devices, derive_table_loader, find_acpi_table, list_acpi_tables,
    qemu_pkg_for, table_loader_is_defined, AcpiTableInfo, LoaderCmd, LoaderFile, TableLoader,
};
use tdx_measure::{Error, Machine, QemuShape};

fn table(sig: &[u8; 4], len: u32) -> Vec<u8> {
    let mut t = sig.to_vec();
    t.extend_from_slice(&len.to_le_bytes());
    t.resize(len as usize, 0xaa);
    t
}

/// FACS, DSDT, FACP, APIC and an RSDT with three entries, then zero padding.
fn sample_tables() -> Vec<u8> {
    let mut t = Vec::new();
    t.extend(table(b"FACS", 64));
    t.extend(table(b"DSDT", 40));
    t.extend(table(b"FACP", 148));
    t.extend(table(b"APIC", 44));
    t.extend(table(b"RSDT", 48));
    t.extend([0u8; 8]);
    t
}

fn sig(s: &[u8; 4]) -> u32 {
    u32::from_le_bytes(*s)
}

fn name(file: &str) -> Vec<u8> {
    let mut b = file.as_bytes().to_vec();
    b.resize(56, 0);
    b
}

fn allocate(file: &str, alignment: u32, zone: u8) -> Vec<u8> {
    let mut b = vec![1, 0, 0, 0];
    b.extend(name(file));
    b.extend_from_slice(&alignment.to_le_bytes());
    b.push(zone);
    b.extend([0u8; 63]);
    b
}

fn add_ptr(pointer_file: &str, pointee_file: &str, offset: u32, size: u8) -> Vec<u8> {
    let mut b = vec![2, 0, 0, 0];
    b.extend(name(pointer_file));
    b.extend(name(pointee_file));
    b.extend_from_slice(&offset.to_le_bytes());
    b.push(size);
    b.extend([0u8; 7]);
    b
}

fn add_checksum(file: &str, result: u32, start: u32, length: u32) -> Vec<u8> {
    let mut b = vec![3, 0, 0, 0];
    b.extend(name(file));
    b.extend_from_slice(&result.to_le_bytes());
    b.extend_from_slice(&start.to_le_bytes());
    b.extend_from_slice(&length.to_le_bytes());
    b.extend([0u8; 56]);
    b
}

const T: &str = "etc/acpi/tables";
const R: &str = "etc/acpi/rsdp";

fn expected_loader() -> Vec<u8> {
    let mut l = Vec::new();
    l.extend(allocate(R, 16, 2));
    l.extend(allocate(T, 64, 1));
    l.extend(add_checksum(T, 64 + 9, 64, 40));
    l.extend(add_ptr(T, T, 104 + 36, 4));
    l.extend(add_ptr(T, T, 104 + 40, 4));
    l.extend(add_ptr(T, T, 104 + 140, 8));
    l.extend(add_checksum(T, 104 + 9, 104, 148));
    l.extend(add_checksum(T, 252 + 9, 252, 44));
    for i in 0..3u32 {
        l.extend(add_ptr(T, T, 296 + 36 + 4 * i, 4));
    }
    l.extend(add_checksum(T, 296 + 9, 296, 48));
    l.extend(add_ptr(R, T, 16, 4));
    l.extend(add_checksum(R, 8, 0, 20));
    l.resize(4096, 0);
    l
}

fn machine(rsdp: &str, table_loader: &str) -> Machine {
    Machine {
        cpu_count: 1,
        memory_size: 0x8000_0000,
        firmware: String::new(),
        kernel_cmdline: String::new(),
        acpi_tables: "acpi_tables.bin".to_string(),
        rsdp: rsdp.to_string(),
        table_loader: table_loader.to_string(),
        boot_order: String::new(),
        path_boot_xxxx: String::new(),
        kernel: String::new(),
        initrd: String::new(),
        qcow2: String::new(),
        mok_list: String::new(),
        mok_list_trusted: String::new(),
        mok_list_x: String::new(),
        sbat_level: String::new(),
        direct_boot: true,
        create_acpi_table: false,
        metadata_path: String::new(),
        distribution: String::new(),
        qemu_version: None,
    }
}

fn shape() -> QemuShape {
    QemuShape {
        machine: "q35".to_string(),
        cpu: "max".to_string(),
        accel: "tcg".to_string(),
        globals: vec!["g1".to_string()],
        objects: vec!["o1".to_string(), "o2".to_string()],
        netdevs: vec![],
        devices: vec!["d1".to_string()],
        fw_cfg: vec!["f1".to_string()],
    }
}

#[test]
fn lists_tables_in_file_order() {
    let list = list_acpi_tables(&sample_tables()).unwrap();
    let expect = vec![
        AcpiTableInfo { signature: sig(b"FACS"), offset: 0, checksum_offset: 9, length: 64 },
        AcpiTableInfo { signature: sig(b"DSDT"), offset: 64, checksum_offset: 73, length: 40 },
        AcpiTableInfo { signature: sig(b"FACP"), offset: 104, checksum_offset: 113, length: 148 },
        AcpiTableInfo { signature: sig(b"APIC"), offset: 252, checksum_offset: 261, length: 44 },
        AcpiTableInfo { signature: sig(b"RSDT"), offset: 296, checksum_offset: 305, length: 48 },
    ];
    assert_eq!(list, expect);
}

#[test]
fn listing_stops_at_short_tail_and_rejects_bad_lengths() {
    assert_eq!(list_acpi_tables(&[]).unwrap(), vec![]);
    assert_eq!(list_acpi_tables(b"DSDT\x28\x00").unwrap(), vec![]);
    let mut t = table(b"DSDT", 40);
    t[4] = 7;
    assert_eq!(list_acpi_tables(&t), Err(Error::InvalidAcpiTableLength));
    let mut t = table(b"DSDT", 40);
    t[4] = 41;
    assert_eq!(list_acpi_tables(&t), Err(Error::InvalidAcpiTableLength));
}

#[test]
fn finds_tables_by_signature() {
    let t = sample_tables();
    assert_eq!(find_acpi_table(&t, "FACS"), Ok((0, 9, 64)));
    assert_eq!(find_acpi_table(&t, "RSDT"), Ok((296, 305, 48)));
    assert_eq!(find_acpi_table(&t, "APIC"), Ok((252, 261, 44)));
}

#[test]
fn find_errors() {
    let t = sample_tables();
    assert_eq!(find_acpi_table(&t, "RSD"), Err(Error::InvalidSignatureLength));
    assert_eq!(find_acpi_table(&t, "RSDTX"), Err(Error::InvalidSignatureLength));
    // The zero padding after the RSDT reads as a table of length zero.
    assert_eq!(find_acpi_table(&t, "HPET"), Err(Error::ZeroLengthAcpiTable));
    let short = &t[..344];
    assert_eq!(find_acpi_table(short, "HPET"), Err(Error::AcpiTableNotFound));
    assert_eq!(find_acpi_table(&[], "RSDT"), Err(Error::AcpiTableNotFound));
}

#[test]
fn derives_the_qemu_table_loader() {
    let loader = derive_table_loader(&sample_tables()).unwrap();
    assert_eq!(loader.len(), 4096);
    assert_eq!(loader, expected_loader());
}

#[test]
fn table_loader_errors() {
    let mut t = Vec::new();
    t.extend(table(b"FACP", 148));
    t.extend(table(b"RSDT", 40));
    assert_eq!(derive_table_loader(&t), Err(Error::MissingAcpiTable));

    let mut t = Vec::new();
    t.extend(table(b"DSDT", 40));
    t.extend(table(b"FACP", 148));
    t.extend(table(b"RSDT", 38));
    assert_eq!(derive_table_loader(&t), Err(Error::MalformedRsdt));

    let mut t = Vec::new();
    t.extend(table(b"DSDT", 40));
    t.extend(table(b"FACP", 148));
    t.extend(table(b"RSDT", 20));
    assert_eq!(derive_table_loader(&t), Err(Error::MalformedRsdt));

    let mut t = table(b"DSDT", 40);
    t.extend(b"FACP\x00\x10\x00\x00");
    assert_eq!(derive_table_loader(&t), Err(Error::InvalidAcpiTableLength));
}

#[test]
fn loader_commands_encode_to_fixed_records() {
    let mut l = TableLoader::new();
    l.append(LoaderCmd::Allocate { file: LoaderFile::Rsdp, alignment: 16, zone: 2 });
    assert_eq!(l.buffer, allocate(R, 16, 2));
    assert_eq!(l.buffer.len(), 128);
    l.append(LoaderCmd::AddPtr {
        pointer_file: LoaderFile::Rsdp,
        pointee_file: LoaderFile::Tables,
        pointer_offset: 16,
        pointer_size: 4,
    });
    l.append(LoaderCmd::AddChecksum {
        file: LoaderFile::Tables,
        result_offset: 9,
        start: 0,
        length: 36,
    });
    let mut expect = allocate(R, 16, 2);
    expect.extend(add_ptr(R, T, 16, 4));
    expect.extend(add_checksum(T, 9, 0, 36));
    assert_eq!(l.buffer, expect);
    assert_eq!(l.buffer.len(), 3 * 128);
}

#[test]
fn fixed_strings_are_zero_padded() {
    let mut data = vec![9u8];
    TableLoader::append_fixed_string(&mut data, "etc/acpi/rsdp");
    let mut expect = vec![9u8];
    expect.extend(name("etc/acpi/rsdp"));
    assert_eq!(data, expect);
}

#[test]
fn builds_tables_deriving_rsdp_and_loader() {
    let t = sample_tables();
    let m = machine("", "");
    let tables = m.build_tables(t.clone(), None, None).unwrap();
    assert_eq!(tables.tables, t);
    let mut rsdp = b"RSD PTR \x00BOCHS \x00".to_vec();
    rsdp.extend_from_slice(&296u32.to_le_bytes());
    assert_eq!(tables.rsdp, rsdp);
    assert_eq!(tables.loader, expected_loader());
}

#[test]
fn builds_tables_from_captured_files() {
    let t = sample_tables();
    let m = machine("rsdp.bin", "table_loader.bin");
    let tables = m.build_tables(t.clone(), Some(vec![1, 2, 3]), Some(vec![4, 5])).unwrap();
    assert_eq!(tables.tables, t);
    assert_eq!(tables.rsdp, vec![1, 2, 3]);
    assert_eq!(tables.loader, vec![4, 5]);
}

#[test]
fn build_tables_errors() {
    let m = machine("", "");
    let no_rsdt = table(b"DSDT", 40);
    assert_eq!(m.build_tables(no_rsdt.clone(), None, None).err(), Some(Error::AcpiTableNotFound));
    let m = machine("rsdp.bin", "");
    assert_eq!(
        m.build_tables(no_rsdt, Some(vec![0; 20]), None).err(),
        Some(Error::MissingAcpiTable)
    );
}

#[test]
fn qemu_packages_per_distribution() {
    let p = qemu_pkg_for("ubuntu:25.04", None).unwrap();
    assert_eq!((p.source, p.version), ("ppa", "1:9.2.1+ds-1ubuntu4+tdx2.0~ppa2"));
    let p = qemu_pkg_for("ubuntu:26.04", None).unwrap();
    assert_eq!((p.source, p.version), ("main", "1:10.2.1+ds-1ubuntu4"));
    let p = qemu_pkg_for("ubuntu:26.04", Some("1:10.0")).unwrap();
    assert_eq!((p.source, p.version), ("main", "1:10.0"));
    assert_eq!(qemu_pkg_for("debian:12", None).err(), Some(Error::UnsupportedDistribution));
}

#[test]
fn qemu_args_default_to_canonical_direct_boot() {
    let args = build_qemu_args(None, 8, "16G");
    let expect: Vec<String> = [
        "-accel", "kvm", "-m", "16G", "-smp", "8", "-cpu", "host", "-machine",
        "q35,kernel-irqchip=split,hpet=off,smm=off,pic=off", "-bios", "/usr/share/ovmf/OVMF.fd",
        "-nographic", "-nodefaults", "-serial", "stdio",
    ]
    .iter()
    .map(|s| s.to_string())
    .collect();
    assert_eq!(args, expect);
}

#[test]
fn qemu_args_follow_the_configured_shape() {
    let q = shape();
    let args = build_qemu_args(Some(&q), 12, "4G");
    let expect: Vec<String> = [
        "-accel", "tcg", "-m", "4G", "-smp", "12,maxcpus=12", "-cpu", "max", "-no-reboot",
        "-nodefaults", "-vga", "none", "-nographic", "-bios", "/usr/share/ovmf/OVMF.fd",
        "-machine", "q35", "-global", "g1", "-object", "o1", "-object", "o2", "-device", "d1",
        "-fw_cfg", "f1",
    ]
    .iter()
    .map(|s| s.to_string())
    .collect();
    assert_eq!(args, expect);
}

#[test]
fn container_devices_follow_the_accelerator() {
    assert_eq!(container_devices(None), (true, false));
    let mut q = shape();
    assert_eq!(container_devices(Some(&q)), (false, true));
    q.accel = "kvm".to_string();
    assert_eq!(container_devices(Some(&q)), (true, true));
    q.accel = "kvmx".to_string();
    assert_eq!(container_devices(Some(&q)), (false, true));
    q.accel = "KVM".to_string();
    assert_eq!(container_devices(Some(&q)), (false, true));
}

#[test]
fn loader_definedness() {
    assert!(table_loader_is_defined(&sample_tables()));
    assert!(table_loader_is_defined(&[]));
    assert!(table_loader_is_defined(&table(b"DSDT", 40)));
}

#[test]
fn long_loaders_stay_whole_commands() {
    // Forty secondary tables make the loader longer than 4096 bytes.
    let mut t = Vec::new();
    t.extend(table(b"DSDT", 40));
    t.extend(table(b"FACP", 148));
    for _ in 0..40 {
        t.extend(table(b"SSDT", 36));
    }
    t.extend(table(b"RSDT", 36 + 4 * 41));
    let l = derive_table_loader(&t).unwrap();
    assert!(l.len() > 4096);
    assert_eq!(l.len() % 128, 0);
    assert_eq!(l.len(), 128 * (7 + 40 + 41 + 3));
}

#[test]
fn listed_tables_tile_the_blob() {
    let t = sample_tables();
    let list = list_acpi_tables(&t).unwrap();
    assert_eq!(list[0].offset, 0);
    for w in list.windows(2) {
        assert_eq!(w[1].offset, w[0].offset + w[0].length);
    }
    let last = list.last().unwrap();
    assert!((last.offset + last.length) as usize <= t.len());
}

#[test]
fn derived_rsdp_points_at_the_rsdt() {
    let t = sample_tables();
    let tables = machine("", "").build_tables(t.clone(), None, None).unwrap();
    let (rsdt, _, _) = find_acpi_table(&t, "RSDT").unwrap();
    assert_eq!(tables.rsdp.len(), 20);
    assert_eq!(&tables.rsdp[..8], b"RSD PTR ");
    assert_eq!(u32::from_le_bytes(tables.rsdp[16..20].try_into().unwrap()), rsdt);
}

#[test]
fn found_tables_carry_their_signature_and_length() {
    let t = sample_tables();
    for sig in ["FACS", "DSDT", "FACP", "APIC", "RSDT"] {
        let (off, csum, len) = find_acpi_table(&t, sig).unwrap();
        let off = off as usize;
        assert_eq!(&t[off..off + 4], sig.as_bytes());
        assert_eq!(u32::from_le_bytes(t[off + 4..off + 8].try_into().unwrap()), len);
        assert_eq!(csum as usize, off + 9);
    }
}
