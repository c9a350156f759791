use sha2::{Digest, Sha384};
use tdx_measure::efi::{encode_guid, measure_tdx_efi_variable};
use tdx_measure::tdvf::parse_is_defined;
use tdx_measure::{Error, Machine, Tdvf};

fn sha384(data: &[u8]) -> Vec<u8> {
    Sha384::digest(data).to_vec()
}

fn replay(log: &[Vec<u8>]) -> Vec<u8> {
    let mut mr = vec![0u8; 48];
    for e in log {
        let mut buf = mr.clone();
        buf.extend_from_slice(e);
        mr = sha384(&buf);
    }
    mr
}

const FW_LEN: usize = 0x4000;
const FOOTER_GUID: &str = "96b582de-1fb2-45f7-baea-a366c55a082d";
const METADATA_GUID: &str = "e47a6535-984a-4798-865e-4685a7bf8ec2";

#[derive(Clone, Copy)]
struct Section {
    data_offset: u32,
    raw_data_size: u32,
    memory_address: u64,
    memory_data_size: u64,
    sec_type: u32,
    attributes: u32,
}

/// BFV (extended into MRTD), CFV, TD HOB and temporary memory.
fn sections() -> Vec<Section> {
    vec![
        Section {
            data_offset: 0x1000,
            raw_data_size: 0x1000,
            memory_address: 0xffff_f000,
            memory_data_size: 0x1000,
            sec_type: 0,
            attributes: 1,
        },
        Section {
            data_offset: 0x2000,
            raw_data_size: 0x1000,
            memory_address: 0xffc0_0000,
            memory_data_size: 0x1000,
            sec_type: 1,
            attributes: 0,
        },
        Section {
            data_offset: 0,
            raw_data_size: 0,
            memory_address: 0x80_9000,
            memory_data_size: 0x2000,
            sec_type: 2,
            attributes: 0,
        },
        Section {
            data_offset: 0,
            raw_data_size: 0,
            memory_address: 0x80_b000,
            memory_data_size: 0x1_0000,
            sec_type: 3,
            attributes: 2,
        },
    ]
}

/// A firmware image whose TDVF descriptor (at offset 0) lists `secs`, with
/// the GUID table that leads to it at the end of the image.
fn firmware(secs: &[Section]) -> Vec<u8> {
    let mut fw: Vec<u8> = (0..FW_LEN as u32).map(|i| (i % 253) as u8).collect();
    let mut desc = b"TDVF".to_vec();
    desc.extend_from_slice(&((16 + 32 * secs.len()) as u32).to_le_bytes());
    desc.extend_from_slice(&1u32.to_le_bytes());
    desc.extend_from_slice(&(secs.len() as u32).to_le_bytes());
    for s in secs {
        desc.extend_from_slice(&s.data_offset.to_le_bytes());
        desc.extend_from_slice(&s.raw_data_size.to_le_bytes());
        desc.extend_from_slice(&s.memory_address.to_le_bytes());
        desc.extend_from_slice(&s.memory_data_size.to_le_bytes());
        desc.extend_from_slice(&s.sec_type.to_le_bytes());
        desc.extend_from_slice(&s.attributes.to_le_bytes());
    }
    fw[..desc.len()].copy_from_slice(&desc);
    // GUID table: one entry (4-byte offset of the descriptor from the end,
    // its length, its GUID), then the table length and the footer GUID.
    let footer = FW_LEN - 32;
    let mut table = (FW_LEN as u32).to_le_bytes().to_vec();
    table.extend_from_slice(&4u16.to_le_bytes());
    table.extend(encode_guid(METADATA_GUID).unwrap());
    let start = footer - 18 - table.len();
    fw[start..footer - 18].copy_from_slice(&table);
    fw[footer - 18..footer - 16].copy_from_slice(&(table.len() as u16).to_le_bytes());
    fw[footer - 16..footer].copy_from_slice(&encode_guid(FOOTER_GUID).unwrap());
    fw
}

/// MRTD as the TDX module computes it for `secs`.
fn reference_mrtd(fw: &[u8], secs: &[Section]) -> Vec<u8> {
    let mut h = Sha384::new();
    for s in secs {
        for page in 0..s.memory_data_size / 0x1000 {
            if s.attributes & 2 == 0 {
                let mut buf = [0u8; 128];
                buf[..12].copy_from_slice(b"MEM.PAGE.ADD");
                buf[16..24].copy_from_slice(&(s.memory_address + page * 0x1000).to_le_bytes());
                h.update(buf);
            }
            if s.attributes & 1 != 0 {
                for i in 0..16u64 {
                    let mut buf = [0u8; 128];
                    buf[..9].copy_from_slice(b"MR.EXTEND");
                    let gpa = s.memory_address + page * 0x1000 + i * 0x100;
                    buf[16..24].copy_from_slice(&gpa.to_le_bytes());
                    h.update(buf);
                    let off = (s.data_offset as u64 + page * 0x1000 + i * 0x100) as usize;
                    h.update(&fw[off..off + 0x100]);
                }
            }
        }
    }
    h.finalize().to_vec()
}

fn resource_hob(hob: &mut Vec<u8>, resource_type: u8, start: u64, length: u64) {
    hob.extend_from_slice(&[0x03, 0x00]);
    hob.extend_from_slice(&48u16.to_le_bytes());
    hob.extend_from_slice(&[0u8; 4]);
    hob.extend_from_slice(&[0u8; 16]);
    hob.push(resource_type);
    hob.extend_from_slice(&[0u8; 3]);
    hob.extend_from_slice(&7u32.to_le_bytes());
    hob.extend_from_slice(&start.to_le_bytes());
    hob.extend_from_slice(&length.to_le_bytes());
}

/// The TD HOB for the sample sections: memory split around the accepted
/// TD HOB and temporary memory, then the rest, split at 2 GiB when large.
fn reference_td_hob(memory_size: u64) -> Vec<u8> {
    let mut hob = vec![0x01, 0x00];
    hob.extend_from_slice(&56u16.to_le_bytes());
    hob.extend_from_slice(&[0u8; 4]);
    hob.extend_from_slice(&9u32.to_le_bytes());
    hob.extend_from_slice(&[0u8; 4]);
    hob.extend_from_slice(&[0u8; 40]);
    resource_hob(&mut hob, 0x07, 0, 0x80_9000);
    resource_hob(&mut hob, 0x00, 0x80_9000, 0x2000);
    resource_hob(&mut hob, 0x00, 0x80_b000, 0x1_0000);
    if memory_size >= 0xB000_0000 {
        resource_hob(&mut hob, 0x07, 0x81_b000, 0x8000_0000 - 0x81_b000);
        resource_hob(&mut hob, 0x07, 0x1_0000_0000, memory_size - 0x8000_0000);
    } else {
        resource_hob(&mut hob, 0x07, 0x81_b000, memory_size - 0x81_b000);
    }
    let end = 0x80_9000u64 + hob.len() as u64 + 8;
    hob[48..56].copy_from_slice(&end.to_le_bytes());
    sha384(&hob)
}

fn acpi_table(sig: &[u8; 4], len: u32) -> Vec<u8> {
    let mut t = sig.to_vec();
    t.extend_from_slice(&len.to_le_bytes());
    t.resize(len as usize, 0x5a);
    t
}

fn acpi_tables() -> Vec<u8> {
    let mut t = Vec::new();
    t.extend(acpi_table(b"FACS", 64));
    t.extend(acpi_table(b"DSDT", 40));
    t.extend(acpi_table(b"FACP", 148));
    t.extend(acpi_table(b"RSDT", 44));
    t
}

fn machine(direct_boot: bool, memory_size: u64) -> Machine {
    Machine {
        cpu_count: 2,
        memory_size,
        firmware: "OVMF.fd".to_string(),
        kernel_cmdline: String::new(),
        acpi_tables: "acpi_tables.bin".to_string(),
        rsdp: "rsdp.bin".to_string(),
        table_loader: "table_loader.bin".to_string(),
        boot_order: if direct_boot { String::new() } else { "BootOrder.bin".to_string() },
        path_boot_xxxx: String::new(),
        kernel: String::new(),
        initrd: String::new(),
        qcow2: String::new(),
        mok_list: String::new(),
        mok_list_trusted: String::new(),
        mok_list_x: String::new(),
        sbat_level: String::new(),
        direct_boot,
        create_acpi_table: false,
        metadata_path: String::new(),
        distribution: String::new(),
        qemu_version: None,
    }
}

fn secure_boot_events() -> Vec<Vec<u8>> {
    let global = "8BE4DF61-93CA-11D2-AA0D-00E098032B8C";
    let db = "D719B2CB-3D3A-4596-A3BC-DAD00E67656F";
    vec![
        measure_tdx_efi_variable(global, "SecureBoot", None).unwrap(),
        measure_tdx_efi_variable(global, "PK", None).unwrap(),
        measure_tdx_efi_variable(global, "KEK", None).unwrap(),
        measure_tdx_efi_variable(db, "db", None).unwrap(),
        measure_tdx_efi_variable(db, "dbx", None).unwrap(),
    ]
}

/// The firmware fixture of these tests is built in code (no binary
/// `OVMF.fd` ships with the crate): it must be there and carry TDVF metadata.
#[test]
fn ovmf_present() {
    let fw = firmware(&sections());
    assert_eq!(fw.len(), FW_LEN, "firmware fixture missing");
    assert!(Tdvf::parse(&fw).is_ok(), "firmware fixture has no TDVF metadata");
}

#[test]
fn mrtd_of_sample_firmware() {
    let fw = firmware(&sections());
    let tdvf = Tdvf::parse(&fw).unwrap();
    assert_eq!(tdvf.mrtd().unwrap(), reference_mrtd(&fw, &sections()));
}

#[test]
fn mrtd_of_firmware_without_sections_is_the_empty_digest() {
    let fw = firmware(&[]);
    let tdvf = Tdvf::parse(&fw).unwrap();
    assert_eq!(tdvf.mrtd().unwrap(), sha384(b""));
}

#[test]
fn parse_errors() {
    let good = firmware(&sections());

    let mut fw = good.clone();
    fw[FW_LEN - 40] ^= 1;
    assert_eq!(Tdvf::parse(&fw).err(), Some(Error::InvalidFooterGuid));

    let mut fw = good.clone();
    fw[FW_LEN - 50..FW_LEN - 48].copy_from_slice(&0u16.to_le_bytes());
    assert_eq!(Tdvf::parse(&fw).err(), Some(Error::InvalidTablesLength));

    let mut fw = good.clone();
    fw[FW_LEN - 50..FW_LEN - 48].copy_from_slice(&0x4000u16.to_le_bytes());
    assert_eq!(Tdvf::parse(&fw).err(), Some(Error::InvalidTablesLength));

    // A table too short to hold an entry.
    let mut fw = good.clone();
    fw[FW_LEN - 50..FW_LEN - 48].copy_from_slice(&10u16.to_le_bytes());
    assert_eq!(Tdvf::parse(&fw).err(), Some(Error::MissingTdvfMetadata));

    // With the GUID changed the walk goes on to the entry's data, whose
    // first two bytes read as an entry length that does not fit.
    let mut fw = good.clone();
    fw[FW_LEN - 60] ^= 1;
    assert_eq!(Tdvf::parse(&fw).err(), Some(Error::InvalidEntryLength));

    let mut fw = good.clone();
    fw[FW_LEN - 68..FW_LEN - 66].copy_from_slice(&5u16.to_le_bytes());
    assert_eq!(Tdvf::parse(&fw).err(), Some(Error::InvalidEntryLength));

    let mut fw = good.clone();
    fw[0] = b'X';
    assert_eq!(Tdvf::parse(&fw).err(), Some(Error::InvalidTdvfDescriptor));

    let mut fw = good.clone();
    fw[8] = 2;
    assert_eq!(Tdvf::parse(&fw).err(), Some(Error::UnsupportedTdvfVersion));
}

#[test]
fn section_errors() {
    let mut s = sections();
    s[2].memory_address = 0x80_9001;
    assert_eq!(Tdvf::parse(&firmware(&s)).err(), Some(Error::SectionAddressNotAligned));

    let mut s = sections();
    s[1].raw_data_size = 0x2000;
    assert_eq!(Tdvf::parse(&firmware(&s)).err(), Some(Error::SectionMemorySizeTooSmall));

    let mut s = sections();
    s[3].memory_data_size = 0x1_0800;
    assert_eq!(Tdvf::parse(&firmware(&s)).err(), Some(Error::SectionMemorySizeNotAligned));
}

#[test]
fn td_hob_of_small_guest() {
    let fw = firmware(&sections());
    let tdvf = Tdvf::parse(&fw).unwrap();
    assert_eq!(tdvf.measure_td_hob(0x8000_0000).unwrap(), reference_td_hob(0x8000_0000));
}

#[test]
fn td_hob_of_large_guest_skips_the_pci_hole() {
    let fw = firmware(&sections());
    let tdvf = Tdvf::parse(&fw).unwrap();
    assert_eq!(
        tdvf.measure_td_hob(0x2_0000_0000).unwrap(),
        reference_td_hob(0x2_0000_0000)
    );
}

#[test]
fn td_hob_base_defaults_without_hob_section() {
    let s: Vec<Section> = sections().into_iter().filter(|s| s.sec_type < 2).collect();
    let fw = firmware(&s);
    let tdvf = Tdvf::parse(&fw).unwrap();
    let mut hob = vec![0x01, 0x00];
    hob.extend_from_slice(&56u16.to_le_bytes());
    hob.extend_from_slice(&[0u8; 4]);
    hob.extend_from_slice(&9u32.to_le_bytes());
    hob.extend_from_slice(&[0u8; 44]);
    resource_hob(&mut hob, 0x07, 0, 0x4000_0000);
    let end = 0x80_9000u64 + hob.len() as u64 + 8;
    hob[48..56].copy_from_slice(&end.to_le_bytes());
    assert_eq!(tdvf.measure_td_hob(0x4000_0000).unwrap(), sha384(&hob));
}

#[test]
fn cfv_is_the_first_cfv_section() {
    let fw = firmware(&sections());
    let tdvf = Tdvf::parse(&fw).unwrap();
    assert_eq!(tdvf.measure_cfv().unwrap(), sha384(&fw[0x2000..0x3000]));
}

#[test]
fn cfv_errors() {
    let s: Vec<Section> = sections().into_iter().filter(|s| s.sec_type != 1).collect();
    let fw = firmware(&s);
    assert_eq!(Tdvf::parse(&fw).unwrap().measure_cfv(), Err(Error::MissingCfv));

    let mut s = sections();
    s[1].data_offset = 0x3800;
    let fw = firmware(&s);
    assert_eq!(Tdvf::parse(&fw).unwrap().measure_cfv(), Err(Error::CfvBeyondFirmware));
}

#[test]
fn rtmr0_of_direct_boot() {
    let fw = firmware(&sections());
    let tdvf = Tdvf::parse(&fw).unwrap();
    let m = machine(true, 0x8000_0000);
    let tables = acpi_tables();
    let rsdp = b"rsdp bytes".to_vec();
    let loader = b"loader bytes".to_vec();
    let boot0000 = hex::decode(
        "090100002c0055006900410070007000000004071400c9bdb87cebf8344faaea3ee4af6516a10406140021aa2c4614760345836e8ab6f46623317fff0400",
    )
    .unwrap();
    let mut log = vec![reference_td_hob(0x8000_0000), sha384(&fw[0x2000..0x3000])];
    log.extend(secure_boot_events());
    log.push(sha384(&[0, 0, 0, 0]));
    log.push(sha384(&loader));
    log.push(sha384(&rsdp));
    log.push(sha384(&tables));
    log.push(sha384(&[0, 0]));
    log.push(sha384(&boot0000));
    let r = tdvf
        .rtmr0(&m, tables, Some(rsdp), Some(loader), &[], &Vec::new())
        .unwrap();
    assert_eq!(r, replay(&log));
}

#[test]
fn rtmr0_of_indirect_boot() {
    let fw = firmware(&sections());
    let tdvf = Tdvf::parse(&fw).unwrap();
    let m = machine(false, 0x8000_0000);
    let tables = acpi_tables();
    let rsdp = b"rsdp".to_vec();
    let loader = b"loader".to_vec();
    let boot_order = vec![0x01, 0x00, 0x03, 0x00, 0x02, 0x00];
    let vars = vec![Some(b"boot 1".to_vec()), None, Some(b"boot 2".to_vec())];
    let mut sbat = encode_guid("605DAB50-E046-4300-ABB6-3DD810DD8B23").unwrap();
    sbat.extend_from_slice(&9u64.to_le_bytes());
    sbat.extend_from_slice(&18u64.to_le_bytes());
    sbat.extend("SbatLevel".encode_utf16().flat_map(|c| c.to_le_bytes()));
    sbat.extend_from_slice(b"sbat,1,2021030218\n");
    let mut log = vec![reference_td_hob(0x8000_0000), sha384(&fw[0x2000..0x3000])];
    log.extend(secure_boot_events());
    log.push(sha384(&[0, 0, 0, 0]));
    log.push(sha384(&loader));
    log.push(sha384(&rsdp));
    log.push(sha384(&tables));
    log.push(sha384(&boot_order));
    log.push(sha384(b"boot 1"));
    log.push(sha384(b"boot 2"));
    log.push(sha384(&sbat));
    let r = tdvf
        .rtmr0(&m, tables, Some(rsdp), Some(loader), &boot_order, &vars)
        .unwrap();
    assert_eq!(r, replay(&log));
}

#[test]
fn rtmr0_derives_missing_acpi_files() {
    let fw = firmware(&sections());
    let tdvf = Tdvf::parse(&fw).unwrap();
    let mut m = machine(true, 0x8000_0000);
    m.rsdp = String::new();
    m.table_loader = String::new();
    let tables = acpi_tables();
    let built = m.build_tables(tables.clone(), None, None).unwrap();
    let with_files = tdvf
        .rtmr0(&machine(true, 0x8000_0000), tables.clone(), Some(built.rsdp), Some(built.loader), &[], &Vec::new())
        .unwrap();
    let derived = tdvf.rtmr0(&m, tables, None, None, &[], &Vec::new()).unwrap();
    assert_eq!(derived, with_files);
}

#[test]
fn rtmr0_errors() {
    let fw = firmware(&sections());
    let tdvf = Tdvf::parse(&fw).unwrap();
    let m = machine(false, 0x8000_0000);
    assert_eq!(
        tdvf.rtmr0(&m, acpi_tables(), Some(vec![]), Some(vec![]), &[1, 0, 2], &Vec::new()),
        Err(Error::OddBootOrderLength)
    );
    let mut m = machine(false, 0x8000_0000);
    m.boot_order = String::new();
    assert_eq!(
        tdvf.rtmr0(&m, acpi_tables(), Some(vec![]), Some(vec![]), &[], &Vec::new()),
        Err(Error::MissingBootOrder)
    );
    let mut m = machine(true, 0x8000_0000);
    m.rsdp = String::new();
    assert_eq!(
        tdvf.rtmr0(&m, acpi_table(b"DSDT", 40), None, Some(vec![]), &[], &Vec::new()),
        Err(Error::AcpiTableNotFound)
    );
    let s: Vec<Section> = sections().into_iter().filter(|s| s.sec_type != 1).collect();
    let fw = firmware(&s);
    let tdvf = Tdvf::parse(&fw).unwrap();
    assert_eq!(
        tdvf.rtmr0(&machine(true, 0x8000_0000), acpi_tables(), Some(vec![]), Some(vec![]), &[], &Vec::new()),
        Err(Error::MissingCfv)
    );
}

#[test]
fn platform_measurement_is_mrtd_and_rtmr0() {
    let fw = firmware(&sections());
    let m = machine(true, 0x8000_0000);
    let tables = acpi_tables();
    let tdvf = Tdvf::parse(&fw).unwrap();
    let rtmr0 = tdvf
        .rtmr0(&m, tables.clone(), Some(b"r".to_vec()), Some(b"l".to_vec()), &[], &Vec::new())
        .unwrap();
    let r = m
        .measure_platform(&fw, tables, Some(b"r".to_vec()), Some(b"l".to_vec()), &[], &Vec::new())
        .unwrap();
    assert_eq!(r.mrtd, reference_mrtd(&fw, &sections()));
    assert_eq!(r.rtmr0, rtmr0);
    assert!(r.rtmr1.is_empty());
    assert!(r.rtmr2.is_empty());
}

#[test]
fn platform_measurement_errors() {
    let mut fw = firmware(&sections());
    fw[0] = b'X';
    let m = machine(true, 0x8000_0000);
    assert_eq!(
        m.measure_platform(&fw, acpi_tables(), Some(vec![]), Some(vec![]), &[], &Vec::new()).err(),
        Some(Error::InvalidTdvfDescriptor)
    );
    let fw = firmware(&sections());
    let mut m = machine(true, 0x8000_0000);
    m.rsdp = String::new();
    assert_eq!(
        m.measure_platform(&fw, acpi_table(b"DSDT", 40), None, Some(vec![]), &[], &Vec::new()).err(),
        Some(Error::AcpiTableNotFound)
    );
}

#[test]
fn parse_definedness() {
    let good = firmware(&sections());
    assert!(parse_is_defined(&good));
    // Errors that parsing reports are defined inputs.
    let mut bad_guid = good.clone();
    bad_guid[FW_LEN - 40] ^= 1;
    assert!(parse_is_defined(&bad_guid));
    // Too short for the footer.
    assert!(!parse_is_defined(&good[..40]));
    // A metadata offset beyond the image.
    let mut far = good.clone();
    far[FW_LEN - 72..FW_LEN - 68].copy_from_slice(&0x5000u32.to_le_bytes());
    assert!(!parse_is_defined(&far));
    // A descriptor at the very end whose section runs past the image.
    let mut tail = good.clone();
    tail[FW_LEN - 20..FW_LEN - 16].copy_from_slice(b"TDVF");
    tail[FW_LEN - 16..FW_LEN - 12].copy_from_slice(&48u32.to_le_bytes());
    tail[FW_LEN - 12..FW_LEN - 8].copy_from_slice(&1u32.to_le_bytes());
    tail[FW_LEN - 8..FW_LEN - 4].copy_from_slice(&1u32.to_le_bytes());
    tail[FW_LEN - 72..FW_LEN - 68].copy_from_slice(&20u32.to_le_bytes());
    assert!(!parse_is_defined(&tail));
    // A zero-length entry that is not the one sought makes the walk stall.
    let mut stall = good.clone();
    stall[FW_LEN - 60] ^= 1;
    stall[FW_LEN - 68..FW_LEN - 66].copy_from_slice(&0u16.to_le_bytes());
    assert!(!parse_is_defined(&stall));
}

#[test]
fn mrtd_and_td_hob_definedness() {
    let fw = firmware(&sections());
    let tdvf = Tdvf::parse(&fw).unwrap();
    assert!(tdvf.mrtd_is_defined());
    assert!(tdvf.td_hob_is_defined(0x8000_0000));
    assert!(tdvf.td_hob_is_defined(0x2_0000_0000));

    // An extended section whose pages lie past the end of the image.
    let mut s = sections();
    s[0].data_offset = 0x3800;
    let fw = firmware(&s);
    let tdvf = Tdvf::parse(&fw).unwrap();
    assert!(!tdvf.mrtd_is_defined());

    // Accepted memory above 2 GiB in a large guest leaves no range that
    // spans the 2 GiB line.
    let mut s = sections();
    s[3].memory_address = 0x9000_0000;
    let fw = firmware(&s);
    let tdvf = Tdvf::parse(&fw).unwrap();
    assert!(tdvf.td_hob_is_defined(0x8000_0000));
    assert!(!tdvf.td_hob_is_defined(0x2_0000_0000));
}

#[test]
fn mrtd_of_a_section_that_ends_at_the_top_of_the_address_space() {
    let mut s = sections();
    s[0].memory_address = 0xffff_ffff_ffff_f000;
    let fw = firmware(&s);
    let tdvf = Tdvf::parse(&fw).unwrap();
    assert!(tdvf.mrtd_is_defined());
    let mrtd = tdvf.mrtd().unwrap();
    assert_eq!(mrtd.len(), 48);
    assert_eq!(mrtd, reference_mrtd(&fw, &s));
}
