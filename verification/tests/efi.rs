use sha2::{Digest, Sha384};
use tdx_measure::digest::{measure_log, measure_separator, measure_text};
use tdx_measure::efi::{
    boot_variable_file, decode_hex, encode_guid, measure_tdx_efi_variable, parse_boot_order,
};
use tdx_measure::text::{measure_cmdline, utf16_encode};
use tdx_measure::{Error, Machine};

fn sha384(data: &[u8]) -> Vec<u8> {
    Sha384::digest(data).to_vec()
}

fn machine(direct_boot: bool, boot_order: &str, path_boot_xxxx: &str) -> Machine {
    Machine {
        cpu_count: 1,
        memory_size: 0x8000_0000,
        firmware: String::new(),
        kernel_cmdline: String::new(),
        acpi_tables: String::new(),
        rsdp: String::new(),
        table_loader: String::new(),
        boot_order: boot_order.to_string(),
        path_boot_xxxx: path_boot_xxxx.to_string(),
        kernel: String::new(),
        initrd: String::new(),
        qcow2: String::new(),
        mok_list: String::new(),
        mok_list_trusted: String::new(),
        mok_list_x: String::new(),
        sbat_level: String::new(),
        direct_boot,
        create_acpi_table: false,
        metadata_path: String::new(),
        distribution: String::new(),
        qemu_version: None,
    }
}

#[test]
fn sha384_known_vectors() {
    assert_eq!(
        hex::encode(measure_text("abc")),
        "cb00753f45a35e8bb5a03d699ac65007272c32ab0eded1631a8b605a43ff5bed8086072ba1e7cc2358baeca134c825a7"
    );
    assert_eq!(
        hex::encode(measure_text("")),
        "38b060a751ac96384cd9327eb1b1e36a21fdb71114be07434c0cc7bf63f6e1da274edebfe76f65fbd51ad2f14898b95b"
    );
    assert_eq!(measure_separator(), sha384(&[0, 0, 0, 0]));
}

#[test]
fn empty_log_leaves_register_zero() {
    assert_eq!(measure_log(&Vec::new()), vec![0u8; 48]);
}

#[test]
fn log_replay_extends_in_order() {
    let a = sha384(b"first");
    let b = sha384(b"second");
    let mut mr = vec![0u8; 48];
    for e in [&a, &b] {
        let mut buf = mr.clone();
        buf.extend_from_slice(e);
        mr = sha384(&buf);
    }
    assert_eq!(measure_log(&vec![a.clone(), b.clone()]), mr);
    assert_ne!(measure_log(&vec![b, a]), mr);
}

#[test]
fn log_replay_of_one_more_event_extends_the_register() {
    let log = vec![sha384(b"x"), sha384(b"y")];
    let before = measure_log(&log);
    let mut longer = log.clone();
    longer.push(sha384(b"z"));
    let mut buf = before.clone();
    buf.extend_from_slice(&sha384(b"z"));
    assert_eq!(measure_log(&longer), sha384(&buf));
}

#[test]
fn guid_encoding_is_mixed_endian() {
    assert_eq!(
        hex::encode(encode_guid("96b582de-1fb2-45f7-baea-a366c55a082d").unwrap()),
        "de82b596b21ff745baeaa366c55a082d"
    );
    assert_eq!(
        hex::encode(encode_guid("8BE4DF61-93CA-11D2-AA0D-00E098032B8C").unwrap()),
        "61dfe48bca93d211aa0d00e098032b8c"
    );
}

#[test]
fn guid_errors() {
    assert_eq!(encode_guid("96b582de-1fb2-45f7-baea"), Err(Error::InvalidGuid));
    assert_eq!(encode_guid(""), Err(Error::InvalidGuid));
    assert_eq!(
        encode_guid("96b582de-1fb2-45f7-baea-a366c55a082d-00"),
        Err(Error::InvalidGuid)
    );
    assert_eq!(
        encode_guid("96b582dg-1fb2-45f7-baea-a366c55a082d"),
        Err(Error::InvalidHex)
    );
    assert_eq!(encode_guid("96b582d-1fb2-45f7-baea-a366c55a082d"), Err(Error::InvalidHex));
}

#[test]
fn short_guid_groups_are_accepted() {
    // The groups are decoded as they are, without a length check.
    assert_eq!(encode_guid("0102-03-04-05-06").unwrap(), vec![2, 1, 3, 4, 5, 6]);
    assert_eq!(encode_guid("----").unwrap(), Vec::<u8>::new());
}

#[test]
fn hex_decoding() {
    assert_eq!(decode_hex(b"00ff10Ab").unwrap(), vec![0x00, 0xff, 0x10, 0xab]);
    assert_eq!(decode_hex(b"").unwrap(), Vec::<u8>::new());
    assert_eq!(decode_hex(b"abc"), Err(Error::InvalidHex));
    assert_eq!(decode_hex(b"zz"), Err(Error::InvalidHex));
}

#[test]
fn utf16le_encoding() {
    assert_eq!(utf16_encode("Ab"), vec![0x41, 0, 0x62, 0]);
    assert_eq!(utf16_encode(""), Vec::<u8>::new());
    assert_eq!(utf16_encode("\u{e9}"), vec![0xe9, 0]);
    assert_eq!(utf16_encode("\u{20ac}"), vec![0xac, 0x20]);
    // A character beyond the BMP becomes a surrogate pair.
    assert_eq!(utf16_encode("\u{1f600}"), vec![0x3d, 0xd8, 0x00, 0xde]);
}

#[test]
fn cmdline_measures_utf16_with_terminator() {
    let mut expected = utf16_encode("console=ttyS0 initrd=initrd");
    expected.extend([0, 0]);
    assert_eq!(measure_cmdline("console=ttyS0 initrd=initrd"), sha384(&expected));
}

#[test]
fn efi_variable_event_layout() {
    let mut data = encode_guid("8BE4DF61-93CA-11D2-AA0D-00E098032B8C").unwrap();
    data.extend_from_slice(&10u64.to_le_bytes());
    data.extend_from_slice(&0u64.to_le_bytes());
    data.extend(utf16_encode("SecureBoot"));
    assert_eq!(
        measure_tdx_efi_variable("8BE4DF61-93CA-11D2-AA0D-00E098032B8C", "SecureBoot", None)
            .unwrap(),
        sha384(&data)
    );

    let sbat = b"sbat,1,2021030218\n";
    let mut data = encode_guid("605DAB50-E046-4300-ABB6-3DD810DD8B23").unwrap();
    data.extend_from_slice(&9u64.to_le_bytes());
    data.extend_from_slice(&(sbat.len() as u64).to_le_bytes());
    data.extend(utf16_encode("SbatLevel"));
    data.extend_from_slice(sbat);
    assert_eq!(
        measure_tdx_efi_variable("605DAB50-E046-4300-ABB6-3DD810DD8B23", "SbatLevel", Some(sbat))
            .unwrap(),
        sha384(&data)
    );
}

#[test]
fn efi_variable_with_bad_guid() {
    assert_eq!(measure_tdx_efi_variable("not-a-guid", "PK", None), Err(Error::InvalidGuid));
}

#[test]
fn boot_order_for_direct_boot_is_empty() {
    let m = machine(true, "", "");
    assert_eq!(parse_boot_order(&m, &[1, 2, 3]), Ok((vec![0, 0], vec![])));
}

#[test]
fn boot_order_lists_little_endian_entries() {
    let m = machine(false, "BootOrder.bin", "");
    assert_eq!(
        parse_boot_order(&m, &[0x01, 0x00, 0x00, 0x00, 0x10, 0x02]),
        Ok((vec![0x01, 0x00, 0x00, 0x00, 0x10, 0x02], vec![1, 0, 0x0210]))
    );
    assert_eq!(parse_boot_order(&m, &[]), Ok((vec![], vec![])));
}

#[test]
fn boot_order_errors() {
    let m = machine(false, "BootOrder.bin", "");
    assert_eq!(parse_boot_order(&m, &[1, 0, 2]), Err(Error::OddBootOrderLength));
    let m = machine(false, "", "");
    assert_eq!(parse_boot_order(&m, &[1, 0]), Err(Error::MissingBootOrder));
}

#[test]
fn boot_variable_file_names() {
    let m = machine(false, "BootOrder.bin", "vars/");
    assert_eq!(boot_variable_file(&m, 1), "vars/Boot0001.bin");
    assert_eq!(boot_variable_file(&m, 0), "vars/Boot0000.bin");
    // Four upper-case hexadecimal digits, as UEFI names Boot#### variables.
    assert_eq!(boot_variable_file(&m, 10), "vars/Boot000A.bin");
    assert_eq!(boot_variable_file(&m, 1234), "vars/Boot04D2.bin");
    assert_eq!(boot_variable_file(&m, 0x0210), "vars/Boot0210.bin");
    assert_eq!(boot_variable_file(&m, 65535), "vars/BootFFFF.bin");
    let m = machine(false, "BootOrder.bin", "");
    assert_eq!(boot_variable_file(&m, 0xbeef), "BootBEEF.bin");
}

#[test]
fn utf16_of_a_concatenation_is_the_concatenation() {
    for (a, b) in [("console=", "ttyS0"), ("", "x"), ("\u{e9}", "\u{1f600}")] {
        let mut ab = utf16_encode(a);
        ab.extend(utf16_encode(b));
        assert_eq!(utf16_encode(&format!("{a}{b}")), ab);
        assert_eq!(ab.len() % 2, 0);
    }
}

#[test]
fn canonical_guids_encode_to_sixteen_bytes() {
    for g in [
        "8BE4DF61-93CA-11D2-AA0D-00E098032B8C",
        "d719b2cb-3d3a-4596-a3bc-dad00e67656f",
        "00000000-0000-0000-0000-000000000000",
    ] {
        assert_eq!(encode_guid(g).unwrap().len(), 16);
    }
    assert_eq!(
        encode_guid("00112233-4455-6677-8899-aabbccddeeff").unwrap(),
        vec![
            0x33, 0x22, 0x11, 0x00, 0x55, 0x44, 0x77, 0x66, 0x88, 0x99, 0xaa, 0xbb, 0xcc, 0xdd,
            0xee, 0xff
        ]
    );
}
