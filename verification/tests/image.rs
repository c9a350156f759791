use sha2::{Digest, Sha384};
use tdx_measure::image::{
    extract_kernel_version_from_cmdline, gpt_entries_is_defined, gpt_entries_location,
    gpt_event_data, gpt_header_is_defined, initrd_path_for_cmdline,
};
use tdx_measure::pe::authenticode_sha384_hash;
use tdx_measure::{measure_rtmr1_from_qcow2, measure_rtmr2_from_qcow2, Error, Machine};

fn sha384(data: &[u8]) -> Vec<u8> {
    Sha384::digest(data).to_vec()
}

fn replay(log: &[Vec<u8>]) -> Vec<u8> {
    let mut mr = vec![0u8; 48];
    for e in log {
        let mut buf = mr.clone();
        buf.extend_from_slice(e);
        mr = sha384(&buf);
    }
    mr
}

/// A 512-byte GPT header (LBA 1) listing `count` entries of `size` bytes at LBA 2.
fn gpt_header(count: u32, size: u32) -> Vec<u8> {
    let mut h = vec![0u8; 512];
    h[0..8].copy_from_slice(b"EFI PART");
    for (i, b) in h.iter_mut().enumerate().take(92).skip(8) {
        *b = i as u8;
    }
    h[72..80].copy_from_slice(&2u64.to_le_bytes());
    h[80..84].copy_from_slice(&count.to_le_bytes());
    h[84..88].copy_from_slice(&size.to_le_bytes());
    h
}

fn entry(type_byte: u8, fill: u8) -> Vec<u8> {
    let mut e = vec![fill; 128];
    e[0..16].copy_from_slice(&[type_byte; 16]);
    e
}

/// A minimal PE32+ image: headers and one section.
fn small_pe(fill: u8) -> Vec<u8> {
    let mut d = vec![fill; 0x400];
    d[0x3c..0x40].copy_from_slice(&0x40u32.to_le_bytes());
    d[0x40..0x44].copy_from_slice(b"PE\0\0");
    d[0x46..0x48].copy_from_slice(&1u16.to_le_bytes());
    d[0x54..0x56].copy_from_slice(&0xf0u16.to_le_bytes());
    d[0x58..0x5a].copy_from_slice(&0x20bu16.to_le_bytes());
    d[0x94..0x98].copy_from_slice(&0x200u32.to_le_bytes());
    d[0xe8..0xf0].copy_from_slice(&[0u8; 8]);
    let st = 0x58 + 0xf0;
    d[st + 16..st + 20].copy_from_slice(&0x200u32.to_le_bytes());
    d[st + 20..st + 24].copy_from_slice(&0x200u32.to_le_bytes());
    d
}

#[test]
fn locates_partition_entries() {
    assert_eq!(gpt_entries_location(&gpt_header(128, 128)), Ok((1024, 128 * 128)));
    // The entries' length is rounded up to whole sectors.
    assert_eq!(gpt_entries_location(&gpt_header(3, 128)), Ok((1024, 512)));
    assert_eq!(gpt_entries_location(&gpt_header(5, 128)), Ok((1024, 1024)));
    assert_eq!(gpt_entries_location(&gpt_header(0, 128)), Ok((1024, 0)));
}

#[test]
fn gpt_header_errors() {
    assert_eq!(gpt_entries_location(&gpt_header(4, 128)[..91]), Err(Error::GptHeaderTooShort));
    let mut h = gpt_header(4, 128);
    h[0] = b'X';
    assert_eq!(gpt_entries_location(&h), Err(Error::InvalidGptSignature));
    assert_eq!(gpt_event_data(&h, &[]), Err(Error::InvalidGptSignature));
    assert_eq!(gpt_event_data(&h[..50], &[]), Err(Error::GptHeaderTooShort));
}

#[test]
fn gpt_event_data_keeps_valid_entries() {
    let h = gpt_header(4, 128);
    let mut entries = Vec::new();
    entries.extend(entry(0xaa, 1));
    entries.extend(entry(0x00, 2)); // unused
    entries.extend(entry(0xbb, 3));
    entries.extend(entry(0x00, 4)); // unused
    let mut expect = h[0..92].to_vec();
    expect.extend_from_slice(&2u64.to_le_bytes());
    expect.extend(entry(0xaa, 1));
    expect.extend(entry(0xbb, 3));
    assert_eq!(gpt_event_data(&h, &entries).unwrap(), expect);
}

#[test]
fn gpt_event_data_stops_at_missing_entries() {
    let h = gpt_header(4, 128);
    let mut entries = Vec::new();
    entries.extend(entry(0xaa, 1));
    entries.extend(vec![0xcc; 100]); // the second entry is cut short
    let mut expect = h[0..92].to_vec();
    expect.extend_from_slice(&1u64.to_le_bytes());
    expect.extend(entry(0xaa, 1));
    assert_eq!(gpt_event_data(&h, &entries).unwrap(), expect);

    let h = gpt_header(0, 128);
    let mut expect = h[0..92].to_vec();
    expect.extend_from_slice(&0u64.to_le_bytes());
    assert_eq!(gpt_event_data(&h, &entries).unwrap(), expect);
}

#[test]
fn kernel_version_from_boot_image() {
    assert_eq!(
        extract_kernel_version_from_cmdline(
            "BOOT_IMAGE=/vmlinuz-6.8.0-60-generic root=UUID=1234 ro console=ttyS0"
        ),
        Ok("6.8.0-60-generic".to_string())
    );
    assert_eq!(
        extract_kernel_version_from_cmdline("ro  quiet\tBOOT_IMAGE=(hd0,gpt1)/boot/vmlinuz-6.14.0-1 x"),
        Ok("6.14.0-1".to_string())
    );
    // The first BOOT_IMAGE that names a version wins.
    assert_eq!(
        extract_kernel_version_from_cmdline(
            "BOOT_IMAGE=/boot/bzImage BOOT_IMAGE=/vmlinuz-a BOOT_IMAGE=/vmlinuz-b"
        ),
        Ok("a".to_string())
    );
    // What follows the first `vmlinuz-` is the version, whatever it holds.
    assert_eq!(
        extract_kernel_version_from_cmdline("BOOT_IMAGE=/vmlinuz-vmlinuz-1"),
        Ok("vmlinuz-1".to_string())
    );
}

#[test]
fn kernel_version_missing() {
    for c in [
        "",
        "   ",
        "root=/dev/vda1 ro",
        "BOOT_IMAGE=/vmlinuz-",
        "BOOT_IMAGE=/boot/bzImage",
        "xBOOT_IMAGE=/vmlinuz-6.8",
        "boot_image=/vmlinuz-6.8",
    ] {
        assert_eq!(extract_kernel_version_from_cmdline(c), Err(Error::KernelVersionNotFound));
    }
}

#[test]
fn rtmr1_of_indirect_boot() {
    let gpt = b"gpt event data".to_vec();
    let shim = small_pe(0x11);
    let grub = small_pe(0x22);
    let expect = replay(&[
        sha384(b"Calling EFI Application from Boot Option"),
        sha384(&[0, 0, 0, 0]),
        sha384(&gpt),
        authenticode_sha384_hash(&shim).unwrap(),
        authenticode_sha384_hash(&grub).unwrap(),
        sha384(b"Exit Boot Services Invocation"),
        sha384(b"Exit Boot Services Returned with Success"),
    ]);
    assert_eq!(measure_rtmr1_from_qcow2(&gpt, &shim, &grub).unwrap(), expect);
}

#[test]
fn rtmr1_of_indirect_boot_needs_pe_images() {
    let shim = small_pe(0x11);
    let mut grub = small_pe(0x22);
    grub[0x40] = b'X';
    assert_eq!(measure_rtmr1_from_qcow2(b"", &shim, &grub), Err(Error::InvalidPeSignature));
    assert_eq!(measure_rtmr1_from_qcow2(b"", &[0u8; 8], &shim), Err(Error::Truncated));
}

#[test]
fn rtmr2_of_indirect_boot() {
    let cmdline = "BOOT_IMAGE=/vmlinuz-6.8.0-60-generic ro";
    let utf16: Vec<u8> = cmdline.encode_utf16().flat_map(|c| c.to_le_bytes()).collect();
    let expect = replay(&[
        sha384(b"mok"),
        sha384(b"mokx"),
        sha384(b"mok trusted"),
        sha384(&utf16),
        sha384(b"initrd"),
    ]);
    assert_eq!(
        measure_rtmr2_from_qcow2(cmdline, b"mok", b"mok trusted", b"mokx", b"initrd").unwrap(),
        expect
    );
    // Missing MOK variables are measured as empty data.
    let expect = replay(&[sha384(b""), sha384(b""), sha384(b""), sha384(&utf16), sha384(b"i")]);
    assert_eq!(measure_rtmr2_from_qcow2(cmdline, b"", b"", b"", b"i").unwrap(), expect);
}

#[test]
fn rtmr2_of_indirect_boot_needs_kernel_version() {
    assert_eq!(
        measure_rtmr2_from_qcow2("ro quiet", b"", b"", b"", b""),
        Err(Error::KernelVersionNotFound)
    );
}

fn machine(cmdline: &str) -> Machine {
    Machine {
        cpu_count: 1,
        memory_size: 0,
        firmware: String::new(),
        kernel_cmdline: cmdline.to_string(),
        acpi_tables: String::new(),
        rsdp: String::new(),
        table_loader: String::new(),
        boot_order: String::new(),
        path_boot_xxxx: String::new(),
        kernel: String::new(),
        initrd: String::new(),
        qcow2: "disk.qcow2".to_string(),
        mok_list: String::new(),
        mok_list_trusted: String::new(),
        mok_list_x: String::new(),
        sbat_level: String::new(),
        direct_boot: false,
        create_acpi_table: false,
        metadata_path: String::new(),
        distribution: String::new(),
        qemu_version: None,
    }
}

#[test]
fn runtime_measurement_of_indirect_boot() {
    let cmdline = "BOOT_IMAGE=/vmlinuz-6.8.0-60-generic ro";
    let m = machine(cmdline);
    let shim = small_pe(1);
    let grub = small_pe(2);
    let r = m
        .measure_runtime_indirect(b"gpt", &shim, &grub, b"a", b"b", b"c", b"initrd")
        .unwrap();
    assert_eq!(r.rtmr1, measure_rtmr1_from_qcow2(b"gpt", &shim, &grub).unwrap());
    assert_eq!(r.rtmr2, measure_rtmr2_from_qcow2(cmdline, b"a", b"b", b"c", b"initrd").unwrap());
    assert!(r.mrtd.is_empty() && r.rtmr0.is_empty());
}

#[test]
fn runtime_measurement_of_indirect_boot_errors() {
    let shim = small_pe(1);
    let mut grub = small_pe(2);
    // RTMR1 fails first.
    grub[0x40] = 0;
    let m = machine("ro");
    assert_eq!(
        m.measure_runtime_indirect(b"", &shim, &grub, b"", b"", b"", b"").err(),
        Some(Error::InvalidPeSignature)
    );
    let grub = small_pe(2);
    assert_eq!(
        m.measure_runtime_indirect(b"", &shim, &grub, b"", b"", b"", b"").err(),
        Some(Error::KernelVersionNotFound)
    );
}

#[test]
fn gpt_definedness() {
    assert!(gpt_header_is_defined(&gpt_header(128, 128)));
    let mut h = gpt_header(128, 128);
    h[72..80].copy_from_slice(&u64::MAX.to_le_bytes());
    assert!(!gpt_header_is_defined(&h));
    // A header with a bad signature is refused before the LBA is used.
    h[0] = 0;
    assert!(gpt_header_is_defined(&h));

    let h = gpt_header(4, 8);
    assert!(!gpt_entries_is_defined(&h, &[0u8; 64]));
    assert!(gpt_entries_is_defined(&h, &[0u8; 4]));
    assert!(gpt_entries_is_defined(&gpt_header(4, 128), &[0u8; 512]));
    assert!(gpt_entries_is_defined(&gpt_header(0, 8), &[0u8; 64]));
}

#[test]
fn gpt_event_data_is_header_count_and_entries() {
    let h = gpt_header(6, 128);
    let mut entries = Vec::new();
    for t in [1u8, 0, 2, 3, 0, 4] {
        entries.extend(entry(t, t));
    }
    let v = gpt_event_data(&h, &entries).unwrap();
    let n = u64::from_le_bytes(v[92..100].try_into().unwrap());
    assert_eq!(n, 4);
    assert_eq!(&v[..92], &h[..92]);
    assert_eq!(v.len() as u64, 100 + n * 128);
}

#[test]
fn kernel_version_follows_vmlinuz_on_the_command_line() {
    let c = "quiet BOOT_IMAGE=/boot/vmlinuz-6.8.0-60-generic ro";
    let v = extract_kernel_version_from_cmdline(c).unwrap();
    assert!(!v.is_empty());
    assert!(!v.contains(char::is_whitespace));
    assert!(c.contains(&format!("vmlinuz-{v}")));
}

#[test]
fn initrd_path_from_the_command_line() {
    assert_eq!(
        initrd_path_for_cmdline("BOOT_IMAGE=/vmlinuz-6.8.0-60-generic root=/dev/vda1 ro"),
        Ok("/boot/initrd.img-6.8.0-60-generic".to_string())
    );
    assert_eq!(initrd_path_for_cmdline("ro quiet"), Err(Error::KernelVersionNotFound));
}
