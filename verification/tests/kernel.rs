use sha2::{Digest, Sha384};
use tdx_measure::kernel::{
    measure_rtmr1_direct, measure_rtmr2_direct, patch_kernel, patch_kernel_is_defined,
    rtmr1_direct_is_defined,
};
use tdx_measure::machine::ACPI_DATA_SIZE;
use tdx_measure::pe::{authenticode_is_defined, authenticode_sha384_hash};
use tdx_measure::{Error, Machine};

fn sha384(data: &[u8]) -> Vec<u8> {
    Sha384::digest(data).to_vec()
}

fn replay(log: &[Vec<u8>]) -> Vec<u8> {
    let mut mr = vec![0u8; 48];
    for e in log {
        let mut buf = mr.clone();
        buf.extend_from_slice(e);
        mr = sha384(&buf);
    }
    mr
}

fn put32(d: &mut [u8], off: usize, v: u32) {
    d[off..off + 4].copy_from_slice(&v.to_le_bytes());
}

fn put16(d: &mut [u8], off: usize, v: u16) {
    d[off..off + 2].copy_from_slice(&v.to_le_bytes());
}

/// A PE32+ image with two sections listed out of file order, a certificate
/// table and a length that is not a multiple of 8.
fn sample_pe() -> Vec<u8> {
    let mut d: Vec<u8> = (0..0x513u32).map(|i| (i * 7 + 3) as u8).collect();
    put32(&mut d, 0x3c, 0x40);
    d[0x40..0x44].copy_from_slice(b"PE\0\0");
    put16(&mut d, 0x46, 2); // NumberOfSections
    put16(&mut d, 0x54, 0xf0); // SizeOfOptionalHeader
    put16(&mut d, 0x58, 0x20b); // PE32+ magic
    put32(&mut d, 0x58 + 60, 0x200); // SizeOfHeaders
    put32(&mut d, 0xe8, 0x500); // certificate table address
    put32(&mut d, 0xec, 8); // certificate table size
    let st = 0x58 + 0xf0;
    put32(&mut d, st + 16, 0x100); // section 0: SizeOfRawData
    put32(&mut d, st + 20, 0x400); // section 0: PointerToRawData
    put32(&mut d, st + 40 + 16, 0x200); // section 1: SizeOfRawData
    put32(&mut d, st + 40 + 20, 0x200); // section 1: PointerToRawData
    d
}

/// The Authenticode input of `sample_pe`, assembled by hand.
fn sample_pe_digest(d: &[u8]) -> Vec<u8> {
    let mut m = Vec::new();
    m.extend_from_slice(&d[0..0x98]); // up to the checksum
    m.extend_from_slice(&d[0x9c..0xe8]); // up to the certificate directory
    m.extend_from_slice(&d[0xf0..0x200]); // rest of the headers
    m.extend_from_slice(&d[0x200..0x400]); // section 1 first (lower offset)
    m.extend_from_slice(&d[0x400..0x500]); // section 0
    m.extend_from_slice(&d[0x500..0x50b]); // trailing data before the certificate table
    m.extend([0u8; 5]); // pad 0x513 to a multiple of 8
    sha384(&m)
}

/// A 4 KiB kernel image with boot protocol `protocol`.
fn kernel(protocol: u16, loadflags: u8) -> Vec<u8> {
    let mut k: Vec<u8> = (0..0x1000u32).map(|i| (i % 251) as u8).collect();
    put16(&mut k, 0x206, protocol);
    k[0x211] = loadflags;
    put32(&mut k, 0x22c, 0); // initrd_addr_max: not given
    put16(&mut k, 0x236, 0); // xloadflags: none
    k
}

#[test]
fn authenticode_digest_of_a_pe32_plus_image() {
    let d = sample_pe();
    assert_eq!(authenticode_sha384_hash(&d).unwrap(), sample_pe_digest(&d));
}

#[test]
fn authenticode_of_a_pe32_image_uses_the_shorter_optional_header() {
    let mut d = sample_pe();
    put16(&mut d, 0x58, 0x10b);
    put32(&mut d, 0xd8, 0x500); // certificate directory at 0x58 + 96 + 32
    put32(&mut d, 0xdc, 8);
    let mut m = Vec::new();
    m.extend_from_slice(&d[0..0x98]);
    m.extend_from_slice(&d[0x9c..0xd8]);
    m.extend_from_slice(&d[0xe0..0x200]);
    m.extend_from_slice(&d[0x200..0x400]);
    m.extend_from_slice(&d[0x400..0x500]);
    m.extend_from_slice(&d[0x500..0x50b]);
    m.extend([0u8; 5]);
    assert_eq!(authenticode_sha384_hash(&d).unwrap(), sha384(&m));
}

#[test]
fn authenticode_skips_empty_sections_and_truncates_the_last() {
    let mut d = sample_pe();
    let st = 0x58 + 0xf0;
    put32(&mut d, st + 16, 0); // section 0 has no raw data
    put32(&mut d, st + 40 + 16, 0x400); // section 1 runs past the end
    put32(&mut d, 0xe8, 0); // no certificate table
    let mut m = Vec::new();
    m.extend_from_slice(&d[0..0x98]);
    m.extend_from_slice(&d[0x9c..0xe8]);
    m.extend_from_slice(&d[0xf0..0x200]);
    m.extend_from_slice(&d[0x200..0x513]);
    m.extend([0u8; 5]);
    assert_eq!(authenticode_sha384_hash(&d).unwrap(), sha384(&m));
}

#[test]
fn authenticode_errors() {
    let d = sample_pe();
    assert_eq!(authenticode_sha384_hash(&d[..0x30]), Err(Error::Truncated));
    let mut bad = d.clone();
    bad[0x41] = b'X';
    assert_eq!(authenticode_sha384_hash(&bad), Err(Error::InvalidPeSignature));
    let mut far = d.clone();
    put32(&mut far, 0x3c, 0x600);
    assert_eq!(authenticode_sha384_hash(&far), Err(Error::Truncated));
    let mut many = d;
    put16(&mut many, 0x46, 40); // section table runs past the end
    assert_eq!(authenticode_sha384_hash(&many), Err(Error::Truncated));
}

#[test]
fn patch_kernel_fills_loader_fields_modern_protocol() {
    let k = kernel(0x20f, 0x01);
    let p = patch_kernel(&k, 0, 0x8000_0000, 0x2_0000).unwrap();
    let mut e = k.clone();
    e[0x210] = 0xb0;
    e[0x211] = 0x81;
    put32(&mut e, 0x224, 0x20000 - 0x10000 - 0x200);
    put32(&mut e, 0x228, 0x20000);
    assert_eq!(p, e);
}

#[test]
fn patch_kernel_low_load_and_old_protocols() {
    // Not loaded high: real mode code at 0x90000.
    let k = kernel(0x202, 0x00);
    let p = patch_kernel(&k, 0, 0x8000_0000, 0).unwrap();
    let mut e = k.clone();
    e[0x210] = 0xb0;
    e[0x211] = 0x80;
    put32(&mut e, 0x224, 0x9a000 - 0x90000 - 0x200);
    put32(&mut e, 0x228, 0x9a000);
    assert_eq!(p, e);

    // Protocol 2.01: the old command line magic and offset.
    let k = kernel(0x201, 0x01);
    let p = patch_kernel(&k, 0, 0x8000_0000, 0).unwrap();
    let mut e = k.clone();
    e[0x210] = 0xb0;
    e[0x211] = 0x81;
    put32(&mut e, 0x224, 0x20000 - 0x10000 - 0x200);
    put16(&mut e, 0x20, 0xa33f);
    put16(&mut e, 0x22, 0); // 0x10000 cut to 16 bits
    assert_eq!(p, e);

    // Before 2.00 nothing but the command line fields changes.
    let k = kernel(0x1ff, 0x01);
    let p = patch_kernel(&k, 0, 0x8000_0000, 0).unwrap();
    let mut e = k.clone();
    put16(&mut e, 0x20, 0xa33f);
    put16(&mut e, 0x22, 0xa000);
    assert_eq!(p, e);
}

#[test]
fn patch_kernel_places_the_initrd() {
    // Protocol 2.0c without XLF_CAN_BE_LOADED_ABOVE_4G: limit 0x37ffffff.
    let k = kernel(0x20c, 0x01);
    let p = patch_kernel(&k, 0x10_0000, 0x8000_0000, 0x2_0000).unwrap();
    let addr = (0x37ffffffu32 - 0x10_0000) & !4095;
    assert_eq!(&p[0x218..0x21c], &addr.to_le_bytes());
    assert_eq!(&p[0x21c..0x220], &0x10_0000u32.to_le_bytes());

    // A small guest: the limit is just below the ACPI data.
    let p = patch_kernel(&k, 0x10_0000, 0x1000_0000, 0x2_0000).unwrap();
    let addr = (0x1000_0000u32 - 0x2_0000 - 1 - 0x10_0000) & !4095;
    assert_eq!(&p[0x218..0x21c], &addr.to_le_bytes());

    // Protocol 2.03 with an explicit initrd_addr_max.
    let mut k = kernel(0x203, 0x01);
    put32(&mut k, 0x22c, 0x0800_0000);
    let p = patch_kernel(&k, 0x1000, 0x8000_0000, 0).unwrap();
    let addr = (0x0800_0000u32 - 0x1000) & !4095;
    assert_eq!(&p[0x218..0x21c], &addr.to_le_bytes());

    // Memory at or above 0xB0000000 leaves 2 GiB below 4 GiB.
    let mut k = kernel(0x20c, 0x01);
    put16(&mut k, 0x236, 0x40);
    let p = patch_kernel(&k, 0x1000, 0x2_0000_0000, 0x1000).unwrap();
    let addr = (0x8000_0000u32 - 0x1000 - 1 - 0x1000) & !4095;
    assert_eq!(&p[0x218..0x21c], &addr.to_le_bytes());
}

#[test]
fn patch_kernel_errors() {
    assert_eq!(patch_kernel(&[0u8; 0xfff], 0, 0x8000_0000, 0), Err(Error::KernelTooShort));
    let old = kernel(0x1ff, 0x01);
    assert_eq!(patch_kernel(&old, 1, 0x8000_0000, 0), Err(Error::KernelTooOldForRamdisk));
    let k = kernel(0x20c, 0x01);
    assert_eq!(
        patch_kernel(&k, 0x37ff_ffff, 0x8000_0000, 0),
        Err(Error::InitrdTooLarge)
    );
    assert_eq!(patch_kernel(&k, 0x1000_0000, 0x1000_0000, 0), Err(Error::InitrdTooLarge));
}

#[test]
fn patch_kernel_keeps_the_length() {
    let mut k = kernel(0x20f, 0x01);
    k.extend([0x5a; 100]);
    assert_eq!(patch_kernel(&k, 5, 0x8000_0000, 0).unwrap().len(), k.len());
}

#[test]
fn rtmr1_of_direct_boot() {
    // A kernel that is also a PE image: the PE headers sit in the first page.
    let mut k = sample_pe();
    k.resize(0x1200, 0x11);
    put16(&mut k, 0x206, 0x20f);
    k[0x211] = 0x01;
    let initrd = vec![7u8; 1000];
    let patched = patch_kernel(&k, 1000, 0x8000_0000, 0x2_0000).unwrap();
    let kernel_hash = authenticode_sha384_hash(&patched).unwrap();
    let expect = replay(&[
        kernel_hash,
        sha384(b"Calling EFI Application from Boot Option"),
        sha384(&[0, 0, 0, 0]),
        sha384(b"Exit Boot Services Invocation"),
        sha384(b"Exit Boot Services Returned with Success"),
    ]);
    assert_eq!(measure_rtmr1_direct(&k, &initrd, 0x8000_0000, 0x2_0000).unwrap(), expect);
}

#[test]
fn rtmr1_of_direct_boot_errors() {
    assert_eq!(
        measure_rtmr1_direct(&[0u8; 16], &[], 0x8000_0000, 0),
        Err(Error::KernelTooShort)
    );
    let mut k = kernel(0x20f, 0x01);
    put32(&mut k, 0x3c, 0x80);
    assert_eq!(measure_rtmr1_direct(&k, &[1], 0x8000_0000, 0), Err(Error::InvalidPeSignature));
}

#[test]
fn rtmr2_of_direct_boot() {
    let initrd = b"initrd contents".to_vec();
    let cmdline: Vec<u8> = "console=ttyS0 initrd=initrd"
        .encode_utf16()
        .flat_map(|c| c.to_le_bytes())
        .chain([0, 0])
        .collect();
    let expect = replay(&[sha384(&cmdline), sha384(&initrd)]);
    assert_eq!(measure_rtmr2_direct(&initrd, "console=ttyS0"), expect);
}

fn machine(memory_size: u64, cmdline: &str) -> Machine {
    Machine {
        cpu_count: 1,
        memory_size,
        firmware: String::new(),
        kernel_cmdline: cmdline.to_string(),
        acpi_tables: String::new(),
        rsdp: String::new(),
        table_loader: String::new(),
        boot_order: String::new(),
        path_boot_xxxx: String::new(),
        kernel: String::new(),
        initrd: String::new(),
        qcow2: String::new(),
        mok_list: String::new(),
        mok_list_trusted: String::new(),
        mok_list_x: String::new(),
        sbat_level: String::new(),
        direct_boot: true,
        create_acpi_table: false,
        metadata_path: String::new(),
        distribution: String::new(),
        qemu_version: None,
    }
}

fn pe_kernel() -> Vec<u8> {
    let mut k = sample_pe();
    k.resize(0x1200, 0x11);
    put16(&mut k, 0x206, 0x20f);
    k[0x211] = 0x01;
    k
}

#[test]
fn runtime_measurement_of_direct_boot() {
    let k = pe_kernel();
    let initrd = vec![3u8; 4096];
    let m = machine(0x1_0000_0000, "console=ttyS0");
    let r = m.measure_runtime_direct(&k, &initrd).unwrap();
    assert_eq!(r.rtmr1, measure_rtmr1_direct(&k, &initrd, 0x1_0000_0000, 0x28000).unwrap());
    assert_eq!(r.rtmr2, measure_rtmr2_direct(&initrd, "console=ttyS0"));
    assert!(r.mrtd.is_empty() && r.rtmr0.is_empty());
    assert_eq!(
        m.measure_runtime_direct(&[0u8; 10], &initrd).err(),
        Some(Error::KernelTooShort)
    );
}

#[test]
fn runtime_memory_size_defaults_above_the_pci_hole() {
    let k = pe_kernel();
    let initrd = vec![3u8; 4096];
    let m = machine(0, "");
    assert_eq!(m.runtime_memory_size(), 0xB000_0000);
    assert_eq!(machine(0x4000_0000, "").runtime_memory_size(), 0x4000_0000);
    // Every size from 2.75 GiB up patches the kernel alike.
    assert_eq!(
        m.measure_runtime_direct(&k, &initrd).unwrap().rtmr1,
        machine(0x10_0000_0000, "").measure_runtime_direct(&k, &initrd).unwrap().rtmr1
    );
    assert_eq!(ACPI_DATA_SIZE, 0x28000);
}

#[test]
fn kernel_definedness() {
    let k = pe_kernel();
    assert!(patch_kernel_is_defined(&k, 100, 0x8000_0000, 0x28000));
    assert!(!patch_kernel_is_defined(&k, 100, 0x1000, 0x28000));
    // Without an initrd the ACPI data size is never used.
    assert!(patch_kernel_is_defined(&k, 0, 0x1000, 0x28000));
    assert!(rtmr1_direct_is_defined(&k, &[1, 2, 3], 0x8000_0000, 0x28000));
    assert!(!rtmr1_direct_is_defined(&k, &[1, 2, 3], 0x1000, 0x28000));
    // A PE image whose SizeOfHeaders runs past its end.
    let mut bad = pe_kernel();
    put32(&mut bad, 0x58 + 60, 0x2000);
    assert!(!authenticode_is_defined(&bad));
    assert!(!rtmr1_direct_is_defined(&bad, &[], 0x8000_0000, 0x28000));
    assert!(authenticode_is_defined(&sample_pe()));
    // Images whose headers are not even there are defined: hashing fails cleanly.
    assert!(authenticode_is_defined(&[0u8; 16]));
}

#[test]
fn patching_leaves_the_rest_of_the_kernel_alone() {
    let k = pe_kernel();
    let p = patch_kernel(&k, 4096, 0x8000_0000, 0x28000).unwrap();
    assert_eq!(p.len(), k.len());
    for i in 0..k.len() {
        if !(0x20..0x24).contains(&i) && !(0x210..0x22c).contains(&i) {
            assert_eq!(p[i], k[i], "byte {i:#x} changed");
        }
    }
}

#[test]
fn authenticode_digest_ignores_the_checksum_field() {
    let d = sample_pe();
    let mut other = d.clone();
    put32(&mut other, 0x98, 0xdead_beef);
    assert_ne!(d, other);
    assert_eq!(authenticode_sha384_hash(&other).unwrap(), authenticode_sha384_hash(&d).unwrap());
    assert_eq!(authenticode_sha384_hash(&d).unwrap().len(), 48);
}
