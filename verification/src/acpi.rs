//! The ACPI tables that QEMU hands to the firmware, the RSDP, and the
//! table-loader script that tells the firmware how to link them.

use vstd::prelude::*;
use crate::bytes::{get_u32, push_u32, push_zeros, read_u32, u32_le};
use crate::error::Error;
use vstd::string::StringSliceAdditionalSpecFns;

verus! {

/// Length of the table-loader file, to which the commands are padded.
pub const LDR_LENGTH: usize = 4096;

/// Length of a file name field in a loader command.
pub const FIXED_STRING_LEN: usize = 56;

/// Length of an RSDT header; the table's entries follow it.
pub const RSDT_HEADER_LEN: u32 = 36;

/// Name of the firmware file that holds the ACPI tables.
pub const TABLES_FILE: &'static str = "etc/acpi/tables";

/// Name of the firmware file that holds the RSDP.
pub const RSDP_FILE: &'static str = "etc/acpi/rsdp";

/// Signature `DSDT`, read as a little-endian `u32`.
pub const SIG_DSDT: u32 = 0x54445344;

/// Signature `FACP`, read as a little-endian `u32`.
pub const SIG_FACP: u32 = 0x50434146;

/// Signature `FACS`, read as a little-endian `u32`.
pub const SIG_FACS: u32 = 0x53434146;

/// Signature `RSDT`, read as a little-endian `u32`.
pub const SIG_RSDT: u32 = 0x54445352;

/// The ACPI tables, RSDP and table loader that RTMR0 measures.
pub struct Tables {
    pub tables: Vec<u8>,
    pub rsdp: Vec<u8>,
    pub loader: Vec<u8>,
}

/// Where one system description table lies in the tables blob.
#[derive(Debug, Clone, Copy, PartialEq, Eq, Structural)]
pub struct AcpiTableInfo {
    /// The four signature bytes, read as a little-endian `u32`.
    pub signature: u32,
    pub offset: u32,
    /// Offset of the table's checksum byte (header offset 9).
    pub checksum_offset: u32,
    pub length: u32,
}

/// A byte that may appear in a table signature.
pub open spec fn printable(b: u8) -> bool {
    32 <= b < 127
}

/// The tables found walking the blob `t` from `off`, or why the walk failed.
/// The walk stops at the end of the blob or at a non-printable signature.
pub open spec fn tables_from(t: Seq<u8>, off: int) -> Result<Seq<AcpiTableInfo>, Error>
    decreases t.len() - off,
{
    if off < 0 || off + 8 > t.len() || !(printable(t[off]) && printable(t[off + 1]) && printable(
        t[off + 2],
    ) && printable(t[off + 3])) {
        Ok(Seq::empty())
    } else {
        let len = get_u32(t, off + 4) as int;
        if len < 8 || off + len > t.len() {
            Err(Error::InvalidAcpiTableLength)
        } else {
            match tables_from(t, off + len) {
                Err(e) => Err(e),
                Ok(rest) => Ok(
                    seq![
                        AcpiTableInfo {
                            signature: get_u32(t, off),
                            offset: off as u32,
                            checksum_offset: (off + 9) as u32,
                            length: len as u32,
                        },
                    ] + rest,
                ),
            }
        }
    }
}

/// `r` with `prefix` put in front of its tables.
pub open spec fn prepend_tables(prefix: Seq<AcpiTableInfo>, r: Result<Seq<AcpiTableInfo>, Error>) -> Result<Seq<AcpiTableInfo>, Error> {
    match r {
        Ok(rest) => Ok(prefix + rest),
        Err(e) => Err(e),
    }
}

/// Lists the system description tables in the blob `tables`, in file order.
pub fn list_acpi_tables(tables: &[u8]) -> (res: Result<Vec<AcpiTableInfo>, Error>)
    ensures
        match res {
            Ok(v) => tables_from(tables@, 0) == Ok::<Seq<AcpiTableInfo>, Error>(v@),
            Err(e) => tables_from(tables@, 0) == Err::<Seq<AcpiTableInfo>, Error>(e),
        },
{
    let mut out: Vec<AcpiTableInfo> = Vec::new();
    let mut off: usize = 0;
    let n = tables.len();
    assert(prepend_tables(out@, tables_from(tables@, 0)) =~= tables_from(tables@, 0)) by {
        assert(out@ =~= Seq::<AcpiTableInfo>::empty());
        match tables_from(tables@, 0) {
            Ok(rest) => {
                assert(Seq::<AcpiTableInfo>::empty() + rest =~= rest);
            },
            Err(_) => {},
        }
    }
    while n >= 8 && off <= n - 8
        invariant
            n == tables@.len(),
            off <= n,
            tables_from(tables@, 0) == prepend_tables(out@, tables_from(tables@, off as int)),
        ensures
            tables_from(tables@, 0) == prepend_tables(out@, tables_from(tables@, off as int)),
            tables_from(tables@, off as int) == Ok::<Seq<AcpiTableInfo>, Error>(Seq::empty()),
        decreases n - off,
    {
        if !(32 <= tables[off] && tables[off] < 127 && 32 <= tables[off + 1] && tables[off + 1]
            < 127 && 32 <= tables[off + 2] && tables[off + 2] < 127 && 32 <= tables[off + 3]
            && tables[off + 3] < 127) {
            assert(tables_from(tables@, off as int) == Ok::<Seq<AcpiTableInfo>, Error>(
                Seq::empty(),
            ));
            break;
        }
        let len = read_u32(tables, off + 4) as usize;
        if len < 8 || len > n - off {
            return Err(Error::InvalidAcpiTableLength);
        }
        let info = AcpiTableInfo {
            signature: read_u32(tables, off),
            offset: #[verifier::truncate] (off as u32),
            checksum_offset: #[verifier::truncate] ((off as u128 + 9) as u32),
            length: len as u32,
        };
        let ghost before = out@;
        out.push(info);
        proof {
            match tables_from(tables@, (off + len) as int) {
                Ok(rest) => {
                    assert(before + (seq![info] + rest) =~= out@ + rest);
                },
                Err(_) => {},
            }
        }
        off = off + len;
    }
    assert(out@ + Seq::<AcpiTableInfo>::empty() =~= out@);
    Ok(out)
}

/// The first listed table with signature `sig`.
pub open spec fn find_listed(list: Seq<AcpiTableInfo>, sig: u32) -> Option<AcpiTableInfo>
    decreases list.len(),
{
    if list.len() == 0 {
        None
    } else if list[0].signature == sig {
        Some(list[0])
    } else {
        find_listed(list.drop_first(), sig)
    }
}

fn find_in_list(list: &Vec<AcpiTableInfo>, sig: u32) -> (res: Result<AcpiTableInfo, Error>)
    ensures
        match res {
            Ok(t) => find_listed(list@, sig) == Some(t),
            Err(e) => find_listed(list@, sig) is None && e == Error::MissingAcpiTable,
        },
{
    let mut i: usize = 0;
    assert(list@.skip(0) =~= list@);
    while i < list.len()
        invariant
            i <= list@.len(),
            find_listed(list@, sig) == find_listed(list@.skip(i as int), sig),
        decreases list@.len() - i,
    {
        assert(list@.skip(i as int)[0] == list@[i as int]);
        if list[i].signature == sig {
            return Ok(list[i]);
        }
        assert(list@.skip(i as int).drop_first() =~= list@.skip(i + 1));
        i = i + 1;
    }
    Err(Error::MissingAcpiTable)
}

/// Which firmware file a loader command names.
#[derive(Debug, Clone, Copy, PartialEq, Eq, Structural)]
pub enum LoaderFile {
    /// `etc/acpi/tables`
    Tables,
    /// `etc/acpi/rsdp`
    Rsdp,
}

/// A QEMU table-loader command.
#[derive(Debug, Clone, Copy, PartialEq, Eq, Structural)]
pub enum LoaderCmd {
    Allocate { file: LoaderFile, alignment: u32, zone: u8 },
    AddPtr {
        pointer_file: LoaderFile,
        pointee_file: LoaderFile,
        pointer_offset: u32,
        pointer_size: u8,
    },
    AddChecksum { file: LoaderFile, result_offset: u32, start: u32, length: u32 },
}

/// The name of a loader file, as bytes.
pub open spec fn file_name(f: LoaderFile) -> Seq<u8> {
    match f {
        LoaderFile::Tables => TABLES_FILE.spec_bytes(),
        LoaderFile::Rsdp => RSDP_FILE.spec_bytes(),
    }
}

/// A string's bytes cut or zero-padded to `FIXED_STRING_LEN`.
pub open spec fn fixed_string(b: Seq<u8>) -> Seq<u8> {
    if b.len() >= FIXED_STRING_LEN {
        b.take(FIXED_STRING_LEN as int)
    } else {
        b + crate::tdvf::zeros((FIXED_STRING_LEN - b.len()) as nat)
    }
}

/// The 128-byte encoding of a loader command.
pub open spec fn encode_cmd(cmd: LoaderCmd) -> Seq<u8> {
    match cmd {
        LoaderCmd::Allocate { file, alignment, zone } => seq![0x01u8, 0, 0, 0] + fixed_string(
            file_name(file),
        ) + u32_le(alignment) + seq![zone] + crate::tdvf::zeros(63),
        LoaderCmd::AddPtr { pointer_file, pointee_file, pointer_offset, pointer_size } => seq![
            0x02u8,
            0,
            0,
            0,
        ] + fixed_string(file_name(pointer_file)) + fixed_string(file_name(pointee_file))
            + u32_le(pointer_offset) + seq![pointer_size] + crate::tdvf::zeros(7),
        LoaderCmd::AddChecksum { file, result_offset, start, length } => seq![0x03u8, 0, 0, 0]
            + fixed_string(file_name(file)) + u32_le(result_offset) + u32_le(start) + u32_le(length)
            + crate::tdvf::zeros(56),
    }
}

/// The concatenated encodings of `cmds`.
pub open spec fn encode_cmds(cmds: Seq<LoaderCmd>) -> Seq<u8>
    decreases cmds.len(),
{
    if cmds.len() == 0 {
        Seq::empty()
    } else {
        encode_cmds(cmds.drop_last()) + encode_cmd(cmds.last())
    }
}

/// Builds the serialized loader commands.
pub struct TableLoader {
    pub buffer: Vec<u8>,
}

fn file_str(f: LoaderFile) -> (s: &'static str)
    ensures
        s.spec_bytes() == file_name(f),
{
    match f {
        LoaderFile::Tables => TABLES_FILE,
        LoaderFile::Rsdp => RSDP_FILE,
    }
}

impl TableLoader {
    /// An empty command buffer.
    pub fn new() -> (t: Self)
        ensures
            t.buffer@ == Seq::<u8>::empty(),
    {
        Self { buffer: Vec::with_capacity(LDR_LENGTH) }
    }

    /// Appends `s` cut or zero-padded to `FIXED_STRING_LEN` bytes.
    pub fn append_fixed_string(data: &mut Vec<u8>, s: &str)
        ensures
            final(data)@ == old(data)@ + fixed_string(s.spec_bytes()),
    {
        let b = s.as_bytes();
        let ghost start = data@;
        let mut i: usize = 0;
        while i < b.len() && i < FIXED_STRING_LEN
            invariant
                i <= b@.len(),
                i <= FIXED_STRING_LEN,
                data@ =~= start + b@.take(i as int),
            decreases FIXED_STRING_LEN - i,
        {
            data.push(b[i]);
            i = i + 1;
        }
        if i < FIXED_STRING_LEN {
            push_zeros(data, FIXED_STRING_LEN - i);
            assert(b@.take(i as int) =~= b@);
        }
        assert(data@ =~= start + fixed_string(s.spec_bytes()));
    }

    /// Appends the encoding of `cmd`.
    pub fn append(&mut self, cmd: LoaderCmd)
        ensures
            final(self).buffer@ == old(self).buffer@ + encode_cmd(cmd),
    {
        match cmd {
            LoaderCmd::Allocate { file, alignment, zone } => {
                Self::append_allocate(&mut self.buffer, file, alignment, zone);
            },
            LoaderCmd::AddPtr { pointer_file, pointee_file, pointer_offset, pointer_size } => {
                Self::append_add_ptr(
                    &mut self.buffer,
                    pointer_file,
                    pointee_file,
                    pointer_offset,
                    pointer_size,
                );
            },
            LoaderCmd::AddChecksum { file, result_offset, start, length } => {
                Self::append_add_checksum(&mut self.buffer, file, result_offset, start, length);
            },
        }
    }

    fn append_allocate(buf: &mut Vec<u8>, file: LoaderFile, alignment: u32, zone: u8)
        ensures
            final(buf)@ == old(buf)@ + encode_cmd(LoaderCmd::Allocate { file, alignment, zone }),
    {
        let ghost before = buf@;
        buf.push(0x01);
        buf.push(0x00);
        buf.push(0x00);
        buf.push(0x00);
        Self::append_fixed_string(buf, file_str(file));
        push_u32(buf, alignment);
        buf.push(zone);
        push_zeros(buf, 63);
        assert(buf@ =~= before + encode_cmd(LoaderCmd::Allocate { file, alignment, zone }));
    }

    fn append_add_ptr(
        buf: &mut Vec<u8>,
        pointer_file: LoaderFile,
        pointee_file: LoaderFile,
        pointer_offset: u32,
        pointer_size: u8,
    )
        ensures
            final(buf)@ == old(buf)@ + encode_cmd(
                LoaderCmd::AddPtr { pointer_file, pointee_file, pointer_offset, pointer_size },
            ),
    {
        let ghost before = buf@;
        buf.push(0x02);
        buf.push(0x00);
        buf.push(0x00);
        buf.push(0x00);
        Self::append_fixed_string(buf, file_str(pointer_file));
        Self::append_fixed_string(buf, file_str(pointee_file));
        push_u32(buf, pointer_offset);
        buf.push(pointer_size);
        push_zeros(buf, 7);
        assert(buf@ =~= before + encode_cmd(
            LoaderCmd::AddPtr { pointer_file, pointee_file, pointer_offset, pointer_size },
        ));
    }

    fn append_add_checksum(
        buf: &mut Vec<u8>,
        file: LoaderFile,
        result_offset: u32,
        start: u32,
        length: u32,
    )
        ensures
            final(buf)@ == old(buf)@ + encode_cmd(
                LoaderCmd::AddChecksum { file, result_offset, start, length },
            ),
    {
        let ghost before = buf@;
        buf.push(0x03);
        buf.push(0x00);
        buf.push(0x00);
        buf.push(0x00);
        Self::append_fixed_string(buf, file_str(file));
        push_u32(buf, result_offset);
        push_u32(buf, start);
        push_u32(buf, length);
        push_zeros(buf, 56);
        assert(buf@ =~= before + encode_cmd(
            LoaderCmd::AddChecksum { file, result_offset, start, length },
        ));
    }
}

} // verus!

verus! {

/// Tables other than FACS, DSDT, FACP and RSDT get a checksum command of
/// their own (FACS has no checksum field).
pub open spec fn is_secondary(sig: u32) -> bool {
    !(sig == SIG_FACS || sig == SIG_DSDT || sig == SIG_FACP || sig == SIG_RSDT)
}

/// The command that recomputes the checksum of table `t` in `file`.
pub open spec fn checksum_cmd(file: LoaderFile, t: AcpiTableInfo) -> LoaderCmd {
    LoaderCmd::AddChecksum {
        file,
        result_offset: t.checksum_offset,
        start: t.offset,
        length: t.length,
    }
}

/// A pointer of `size` bytes at `offset` in the tables file to the tables file.
pub open spec fn tables_ptr(offset: u32, size: u8) -> LoaderCmd {
    LoaderCmd::AddPtr {
        pointer_file: LoaderFile::Tables,
        pointee_file: LoaderFile::Tables,
        pointer_offset: offset,
        pointer_size: size,
    }
}

/// Checksum commands for the secondary tables of `list`, in file order.
pub open spec fn secondary_checksums(list: Seq<AcpiTableInfo>) -> Seq<LoaderCmd>
    decreases list.len(),
{
    if list.len() == 0 {
        Seq::empty()
    } else {
        secondary_checksums(list.drop_last()) + if is_secondary(list.last().signature) {
            seq![checksum_cmd(LoaderFile::Tables, list.last())]
        } else {
            Seq::empty()
        }
    }
}

/// One 4-byte pointer command for each of the first `n` RSDT entries.
pub open spec fn rsdt_entry_ptrs(rsdt_offset: u32, n: nat) -> Seq<LoaderCmd>
    decreases n,
{
    if n == 0 {
        Seq::empty()
    } else {
        rsdt_entry_ptrs(rsdt_offset, (n - 1) as nat).push(
            tables_ptr((rsdt_offset + RSDT_HEADER_LEN + (n - 1) * 4) as u32, 4),
        )
    }
}

/// The loader commands, in the order QEMU's ACPI builder emits them.
pub open spec fn loader_commands(
    list: Seq<AcpiTableInfo>,
    dsdt: AcpiTableInfo,
    facp: AcpiTableInfo,
    rsdt: AcpiTableInfo,
) -> Seq<LoaderCmd> {
    seq![
        LoaderCmd::Allocate { file: LoaderFile::Rsdp, alignment: 16, zone: 2 },
        LoaderCmd::Allocate { file: LoaderFile::Tables, alignment: 64, zone: 1 },
        checksum_cmd(LoaderFile::Tables, dsdt),
        tables_ptr((facp.offset + 36) as u32, 4),
        tables_ptr((facp.offset + 40) as u32, 4),
        tables_ptr((facp.offset + 140) as u32, 8),
        checksum_cmd(LoaderFile::Tables, facp),
    ] + secondary_checksums(list) + rsdt_entry_ptrs(
        rsdt.offset,
        ((rsdt.length - RSDT_HEADER_LEN) / 4) as nat,
    ) + seq![
        checksum_cmd(LoaderFile::Tables, rsdt),
        LoaderCmd::AddPtr {
            pointer_file: LoaderFile::Rsdp,
            pointee_file: LoaderFile::Tables,
            pointer_offset: 16,
            pointer_size: 4,
        },
        LoaderCmd::AddChecksum { file: LoaderFile::Rsdp, result_offset: 8, start: 0, length: 20 },
    ]
}

/// Zero-pads `b` to the loader length.
pub open spec fn pad_loader(b: Seq<u8>) -> Seq<u8> {
    if b.len() < LDR_LENGTH {
        b + crate::tdvf::zeros((LDR_LENGTH - b.len()) as nat)
    } else {
        b
    }
}

/// The RSDT describes a whole number of 4-byte entries.
pub open spec fn rsdt_well_formed(rsdt: AcpiTableInfo) -> bool {
    rsdt.length >= RSDT_HEADER_LEN && (rsdt.length - RSDT_HEADER_LEN) % 4 == 0
}

/// The table-loader file for the tables blob `t`, or why there is none.
pub open spec fn table_loader(t: Seq<u8>) -> Result<Seq<u8>, Error> {
    match tables_from(t, 0) {
        Err(e) => Err(e),
        Ok(list) => match (
            find_listed(list, SIG_DSDT),
            find_listed(list, SIG_FACP),
            find_listed(list, SIG_RSDT),
        ) {
            (Some(dsdt), Some(facp), Some(rsdt)) => if !rsdt_well_formed(rsdt) {
                Err(Error::MalformedRsdt)
            } else {
                Ok(pad_loader(encode_cmds(loader_commands(list, dsdt, facp, rsdt))))
            },
            _ => Err(Error::MissingAcpiTable),
        },
    }
}

/// The inputs on which the pointer offsets fit in 32 bits: FACP's
/// pointer fields and, when the RSDT has entries, its last entry.
pub open spec fn table_loader_defined(t: Seq<u8>) -> bool {
    match tables_from(t, 0) {
        Err(_) => true,
        Ok(list) => match (
            find_listed(list, SIG_DSDT),
            find_listed(list, SIG_FACP),
            find_listed(list, SIG_RSDT),
        ) {
            (Some(_), Some(facp), Some(rsdt)) => {
                &&& facp.offset + 140 <= u32::MAX
                &&& (rsdt_well_formed(rsdt) && rsdt.length > RSDT_HEADER_LEN) ==> rsdt.offset
                    + rsdt.length - 4 <= u32::MAX
            },
            _ => true,
        },
    }
}

/// Whether the pointer offsets of the table loader for `tables` fit in 32
/// bits (the blobs `derive_table_loader` accepts).
pub fn table_loader_is_defined(tables: &[u8]) -> (b: bool)
    ensures
        b == table_loader_defined(tables@),
{
    let list = match list_acpi_tables(tables) {
        Ok(list) => list,
        Err(_) => return true,
    };
    let dsdt = find_in_list(&list, SIG_DSDT);
    let facp = find_in_list(&list, SIG_FACP);
    let rsdt = find_in_list(&list, SIG_RSDT);
    match (dsdt, facp, rsdt) {
        (Ok(_), Ok(facp), Ok(rsdt)) => {
            let facp_ok = facp.offset as u64 + 140 <= u32::MAX as u64;
            let rsdt_ok = !(rsdt.length >= RSDT_HEADER_LEN && (rsdt.length - RSDT_HEADER_LEN) % 4
                == 0 && rsdt.length > RSDT_HEADER_LEN) || rsdt.offset as u64 + rsdt.length as u64
                - 4 <= u32::MAX as u64;
            facp_ok && rsdt_ok
        },
        _ => true,
    }
}

proof fn lemma_fixed_string_len(b: Seq<u8>)
    ensures
        fixed_string(b).len() == FIXED_STRING_LEN,
{
}

proof fn lemma_encode_cmd_len(c: LoaderCmd)
    ensures
        encode_cmd(c).len() == 128,
{
    match c {
        LoaderCmd::Allocate { file, .. } => {
            lemma_fixed_string_len(file_name(file));
        },
        LoaderCmd::AddPtr { pointer_file, pointee_file, .. } => {
            lemma_fixed_string_len(file_name(pointer_file));
            lemma_fixed_string_len(file_name(pointee_file));
        },
        LoaderCmd::AddChecksum { file, .. } => {
            lemma_fixed_string_len(file_name(file));
        },
    }
}

proof fn lemma_get_u32_in(big: Seq<u8>, o: int, x: u32)
    requires
        0 <= o,
        o + 4 <= big.len(),
        big.subrange(o, o + 4) == u32_le(x),
    ensures
        get_u32(big, o) == x,
{
    crate::bytes::lemma_u32_le_roundtrip(x);
    let w = big.subrange(o, o + 4);
    assert(big[o] == w[0] && big[o + 1] == w[1] && big[o + 2] == w[2] && big[o + 3] == w[3]);
}

/// The fields of an encoded loader command, at QEMU's offsets: the command
/// number (1 allocate, 2 add pointer, 3 add checksum) as a little-endian
/// `u32` at 0, the
/// 56-byte file name at 4, then for an allocation the alignment (`u32` at
/// 60) and the zone (byte 64); for a pointer the pointee file name at 60,
/// the pointer offset (`u32` at 116) and size (byte 120); for a checksum the
/// result offset, start and length (`u32`s at 60, 64 and 68).
pub proof fn lemma_encode_cmd_fields(cmd: LoaderCmd)
    ensures
        encode_cmd(cmd).len() == 128,
        match cmd {
            LoaderCmd::Allocate { file, alignment, zone } => {
                &&& encode_cmd(cmd).subrange(0, 4) == seq![1u8, 0, 0, 0]
                &&& encode_cmd(cmd).subrange(4, 60) == fixed_string(file_name(file))
                &&& get_u32(encode_cmd(cmd), 60) == alignment
                &&& encode_cmd(cmd)[64] == zone
            },
            LoaderCmd::AddPtr { pointer_file, pointee_file, pointer_offset, pointer_size } => {
                &&& encode_cmd(cmd).subrange(0, 4) == seq![2u8, 0, 0, 0]
                &&& encode_cmd(cmd).subrange(4, 60) == fixed_string(file_name(pointer_file))
                &&& encode_cmd(cmd).subrange(60, 116) == fixed_string(file_name(pointee_file))
                &&& get_u32(encode_cmd(cmd), 116) == pointer_offset
                &&& encode_cmd(cmd)[120] == pointer_size
            },
            LoaderCmd::AddChecksum { file, result_offset, start, length } => {
                &&& encode_cmd(cmd).subrange(0, 4) == seq![3u8, 0, 0, 0]
                &&& encode_cmd(cmd).subrange(4, 60) == fixed_string(file_name(file))
                &&& get_u32(encode_cmd(cmd), 60) == result_offset
                &&& get_u32(encode_cmd(cmd), 64) == start
                &&& get_u32(encode_cmd(cmd), 68) == length
            },
        },
{
    lemma_encode_cmd_len(cmd);
    let e = encode_cmd(cmd);
    match cmd {
        LoaderCmd::Allocate { file, alignment, zone } => {
            lemma_fixed_string_len(file_name(file));
            assert(e.subrange(0, 4) =~= seq![1u8, 0, 0, 0]);
            assert(e.subrange(4, 60) =~= fixed_string(file_name(file)));
            assert(e.subrange(60, 64) =~= u32_le(alignment));
            lemma_get_u32_in(e, 60, alignment);
        },
        LoaderCmd::AddPtr { pointer_file, pointee_file, pointer_offset, pointer_size } => {
            lemma_fixed_string_len(file_name(pointer_file));
            lemma_fixed_string_len(file_name(pointee_file));
            assert(e.subrange(0, 4) =~= seq![2u8, 0, 0, 0]);
            assert(e.subrange(4, 60) =~= fixed_string(file_name(pointer_file)));
            assert(e.subrange(60, 116) =~= fixed_string(file_name(pointee_file)));
            assert(e.subrange(116, 120) =~= u32_le(pointer_offset));
            lemma_get_u32_in(e, 116, pointer_offset);
        },
        LoaderCmd::AddChecksum { file, result_offset, start, length } => {
            lemma_fixed_string_len(file_name(file));
            assert(e.subrange(0, 4) =~= seq![3u8, 0, 0, 0]);
            assert(e.subrange(4, 60) =~= fixed_string(file_name(file)));
            assert(e.subrange(60, 64) =~= u32_le(result_offset));
            assert(e.subrange(64, 68) =~= u32_le(start));
            assert(e.subrange(68, 72) =~= u32_le(length));
            lemma_get_u32_in(e, 60, result_offset);
            lemma_get_u32_in(e, 64, start);
            lemma_get_u32_in(e, 68, length);
        },
    }
}

proof fn lemma_encode_cmds_len(cmds: Seq<LoaderCmd>)
    ensures
        encode_cmds(cmds).len() == 128 * cmds.len(),
    decreases cmds.len(),
{
    if cmds.len() > 0 {
        lemma_encode_cmds_len(cmds.drop_last());
        lemma_encode_cmd_len(cmds.last());
    }
}

/// A derived table loader is a whole number of 128-byte commands, padded
/// to at least 4096 bytes.
pub proof fn lemma_table_loader_layout(t: Seq<u8>)
    ensures
        table_loader(t) matches Ok(l) ==> l.len() >= LDR_LENGTH && l.len() % 128 == 0,
{
    if let Ok(list) = tables_from(t, 0) {
        if let (Some(dsdt), Some(facp), Some(rsdt)) = (
            find_listed(list, SIG_DSDT),
            find_listed(list, SIG_FACP),
            find_listed(list, SIG_RSDT),
        ) {
            let cmds = loader_commands(list, dsdt, facp, rsdt);
            lemma_encode_cmds_len(cmds);
            let b = encode_cmds(cmds);
            assert(b.len() % 128 == 0) by (nonlinear_arith)
                requires
                    b.len() == 128 * cmds.len(),
            ;
        }
    }
}

/// The tables listed from `off` lie one after another inside the blob,
/// the first at `off`, each with its checksum byte at offset 9 of its
/// header.
pub proof fn lemma_listed_tables_tile(t: Seq<u8>, off: int)
    requires
        0 <= off,
        t.len() + 9 <= u32::MAX,
    ensures
        tables_from(t, off) matches Ok(list) ==> {
            &&& list.len() > 0 ==> list[0].offset == off
            &&& forall|i: int|
                0 <= i < list.len() ==> (#[trigger] list[i]).offset + list[i].length <= t.len()
                    && list[i].length >= 8 && list[i].checksum_offset == list[i].offset + 9
                    && get_u32(t, list[i].offset as int) == list[i].signature
            &&& forall|i: int|
                0 < i < list.len() ==> (#[trigger] list[i]).offset == list[i - 1].offset + list[i
                    - 1].length
        },
    decreases t.len() - off,
{
    if !(off + 8 > t.len() || !(printable(t[off]) && printable(t[off + 1]) && printable(
        t[off + 2],
    ) && printable(t[off + 3]))) {
        let len = get_u32(t, off + 4) as int;
        if !(len < 8 || off + len > t.len()) {
            lemma_listed_tables_tile(t, off + len);
            if let Ok(rest) = tables_from(t, off + len) {
                let head = AcpiTableInfo {
                    signature: get_u32(t, off),
                    offset: off as u32,
                    checksum_offset: (off + 9) as u32,
                    length: len as u32,
                };
                let list = seq![head] + rest;
                assert forall|i: int| 0 < i < list.len() implies (#[trigger] list[i]).offset
                    == list[i - 1].offset + list[i - 1].length by {
                    assert(list[i] == rest[i - 1]);
                    if i > 1 {
                        assert(list[i - 1] == rest[i - 2]);
                    }
                }
                assert forall|i: int| 0 <= i < list.len() implies (#[trigger] list[i]).offset
                    + list[i].length <= t.len() && list[i].length >= 8 && list[i].checksum_offset
                    == list[i].offset + 9 && get_u32(t, list[i].offset as int)
                    == list[i].signature by {
                    if i > 0 {
                        assert(list[i] == rest[i - 1]);
                    }
                }
            }
        }
    }
}

/// The RSDP derived from the tables is 20 bytes: the `RSD PTR ` signature,
/// and at offset 16 the address of the RSDT found in the tables.
pub proof fn lemma_derived_rsdp_points_at_rsdt(t: Seq<u8>)
    ensures
        rsdp_for(t, None) matches Ok(r) ==> {
            &&& r.len() == 20
            &&& r.take(8) == seq![0x52u8, 0x53, 0x44, 0x20, 0x50, 0x54, 0x52, 0x20]
            &&& find_table(t, RSDT_SIGNATURE.spec_bytes()) matches Ok((off, _, _)) && get_u32(
                r,
                16,
            ) == off
        },
{
    if let Ok((off, _, _)) = find_table(t, RSDT_SIGNATURE.spec_bytes()) {
        let r = rsdp_bytes(off);
        crate::bytes::lemma_u32_le_roundtrip(off);
        let w = u32_le(off);
        assert(r[16] == w[0] && r[17] == w[1] && r[18] == w[2] && r[19] == w[3]);
        assert(get_u32(r, 16) == get_u32(w, 0));
        assert(r.take(8) =~= seq![0x52u8, 0x53, 0x44, 0x20, 0x50, 0x54, 0x52, 0x20]);
    }
}

proof fn lemma_encode_cmds_push(cmds: Seq<LoaderCmd>, c: LoaderCmd)
    ensures
        encode_cmds(cmds.push(c)) == encode_cmds(cmds) + encode_cmd(c),
{
    assert(cmds.push(c).drop_last() =~= cmds);
}

/// The listed tables other than FACS, DSDT, FACP and RSDT, in file order.
pub open spec fn secondary_tables(list: Seq<AcpiTableInfo>) -> Seq<AcpiTableInfo> {
    list.filter(
        |e: AcpiTableInfo|
            e.signature != SIG_FACS && e.signature != SIG_DSDT && e.signature != SIG_FACP
                && e.signature != SIG_RSDT,
    )
}

proof fn lemma_secondary_checksums_follow_tables(list: Seq<AcpiTableInfo>)
    ensures
        secondary_checksums(list).len() == secondary_tables(list).len(),
        forall|j: int|
            0 <= j < secondary_tables(list).len() ==> #[trigger] secondary_checksums(list)[j]
                == checksum_cmd(LoaderFile::Tables, secondary_tables(list)[j]),
    decreases list.len(),
{
    reveal(Seq::filter);
    if list.len() > 0 {
        lemma_secondary_checksums_follow_tables(list.drop_last());
        let prev_c = secondary_checksums(list.drop_last());
        let prev_t = secondary_tables(list.drop_last());
        assert(secondary_tables(list) == if is_secondary(list.last().signature) {
            prev_t.push(list.last())
        } else {
            prev_t
        });
        assert forall|j: int| 0 <= j < secondary_tables(list).len() implies #[trigger] secondary_checksums(list)[j]
            == checksum_cmd(LoaderFile::Tables, secondary_tables(list)[j]) by {
            if j < prev_t.len() {
                assert(secondary_checksums(list)[j] == prev_c[j]);
                assert(secondary_tables(list)[j] == prev_t[j]);
            }
        }
    }
}

proof fn lemma_encode_cmds_at(cmds: Seq<LoaderCmd>, j: int)
    requires
        0 <= j < cmds.len(),
    ensures
        128 * j + 128 <= encode_cmds(cmds).len(),
        encode_cmds(cmds).subrange(128 * j, 128 * j + 128) == encode_cmd(cmds[j]),
    decreases cmds.len(),
{
    let prev = cmds.drop_last();
    lemma_encode_cmds_len(prev);
    lemma_encode_cmd_len(cmds.last());
    let whole = encode_cmds(cmds);
    assert(whole == encode_cmds(prev) + encode_cmd(cmds.last()));
    if j == cmds.len() - 1 {
        assert(whole.subrange(128 * j, 128 * j + 128) =~= encode_cmd(cmds.last()));
    } else {
        lemma_encode_cmds_at(prev, j);
        assert(prev[j] == cmds[j]);
        assert(whole.subrange(128 * j, 128 * j + 128) =~= encode_cmds(prev).subrange(
            128 * j,
            128 * j + 128,
        ));
    }
}

/// After the FACP checksum, the derived loader recomputes the checksum of
/// each table other than FACS, DSDT, FACP and RSDT, in file order: its
/// command `7 + j` is the checksum command of the `j`-th such table.
pub proof fn lemma_loader_checksums_secondary_tables_in_file_order(t: Seq<u8>, j: int)
    requires
        tables_from(t, 0) is Ok,
        table_loader(t) is Ok,
        0 <= j < secondary_tables(tables_from(t, 0)->Ok_0).len(),
    ensures
        ({
            let e = secondary_tables(tables_from(t, 0)->Ok_0)[j];
            &&& 128 * (8 + j) <= table_loader(t)->Ok_0.len()
            &&& table_loader(t)->Ok_0.subrange(128 * (7 + j), 128 * (8 + j)) == encode_cmd(
                LoaderCmd::AddChecksum {
                    file: LoaderFile::Tables,
                    result_offset: e.checksum_offset,
                    start: e.offset,
                    length: e.length,
                },
            )
        }),
{
    let list = tables_from(t, 0)->Ok_0;
    let dsdt = find_listed(list, SIG_DSDT)->0;
    let facp = find_listed(list, SIG_FACP)->0;
    let rsdt = find_listed(list, SIG_RSDT)->0;
    let cmds = loader_commands(list, dsdt, facp, rsdt);
    let sc = secondary_checksums(list);
    lemma_secondary_checksums_follow_tables(list);
    assert(sc[j] == checksum_cmd(LoaderFile::Tables, secondary_tables(list)[j]));
    assert(cmds[7 + j] == sc[j]);
    lemma_encode_cmds_at(cmds, 7 + j);
    let b = encode_cmds(cmds);
    let l = table_loader(t)->Ok_0;
    assert(l == pad_loader(b));
    assert(l.subrange(128 * (7 + j), 128 * (8 + j)) =~= b.subrange(128 * (7 + j), 128 * (7 + j)
        + 128));
}

/// `find_listed` gives the first listed table with the signature, and none
/// when no listed table has it.
pub proof fn lemma_find_listed_is_first(list: Seq<AcpiTableInfo>, sig: u32)
    ensures
        find_listed(list, sig) is None <==> (forall|k: int|
            0 <= k < list.len() ==> (#[trigger] list[k]).signature != sig),
        find_listed(list, sig) matches Some(e) ==> exists|j: int|
            0 <= j < list.len() && #[trigger] list[j] == e && e.signature == sig && forall|k: int|
                0 <= k < j ==> (#[trigger] list[k]).signature != sig,
    decreases list.len(),
{
    if list.len() > 0 && list[0].signature != sig {
        let rest = list.drop_first();
        lemma_find_listed_is_first(rest, sig);
        assert forall|k: int| 0 < k < list.len() implies list[k] == rest[k - 1] by {}
        if (forall|k: int| 0 <= k < rest.len() ==> (#[trigger] rest[k]).signature != sig) {
            assert forall|k: int| 0 <= k < list.len() implies (#[trigger] list[k]).signature
                != sig by {
                if k > 0 {
                    assert(list[k] == rest[k - 1]);
                }
            }
        }
        if (forall|k: int| 0 <= k < list.len() ==> (#[trigger] list[k]).signature != sig) {
            assert forall|k: int| 0 <= k < rest.len() implies (#[trigger] rest[k]).signature
                != sig by {
                assert(rest[k] == list[k + 1]);
            }
        }
        if let Some(e) = find_listed(rest, sig) {
            let j = choose|j: int|
                0 <= j < rest.len() && #[trigger] rest[j] == e && e.signature == sig && forall|
                    k: int,
                | 0 <= k < j ==> (#[trigger] rest[k]).signature != sig;
            assert(list[j + 1] == e);
            assert forall|k: int| 0 <= k < j + 1 implies (#[trigger] list[k]).signature != sig by {
                if k > 0 {
                    assert(list[k] == rest[k - 1]);
                }
            }
        }
    } else if list.len() > 0 {
        assert(list[0].signature == sig);
    }
}

proof fn lemma_rsdt_entry_ptrs_at(o: u32, n: nat, x: int)
    requires
        0 <= x < n,
    ensures
        rsdt_entry_ptrs(o, n).len() == n,
        rsdt_entry_ptrs(o, n)[x] == tables_ptr((o + RSDT_HEADER_LEN + x * 4) as u32, 4),
    decreases n,
{
    let m = (n - 1) as nat;
    if x < m {
        lemma_rsdt_entry_ptrs_at(o, m, x);
    } else if m > 0 {
        lemma_rsdt_entry_ptrs_at(o, m, 0);
    } else {
        assert(rsdt_entry_ptrs(o, m) =~= Seq::<LoaderCmd>::empty());
    }
}

/// The derived loader, command by command: allocate the RSDP and the
/// tables; checksum the DSDT; point FACP's FACS, DSDT and X_DSDT fields
/// (offsets 36, 40 and 140, of 4, 4 and 8 bytes) into the tables; checksum
/// FACP; checksum each other table in file order; point each of the RSDT's
/// 4-byte entries into the tables; checksum the RSDT; point the RSDP at the
/// RSDT and checksum the RSDP's first 20 bytes. Zeros follow the commands.
/// The DSDT, FACP and RSDT are the first listed tables with those signatures.
#[verifier::spinoff_prover]
#[verifier::rlimit(40)]
pub proof fn lemma_table_loader_commands(t: Seq<u8>)
    requires
        table_loader(t) is Ok,
    ensures
        ({
            let list = tables_from(t, 0)->Ok_0;
            let dsdt = find_listed(list, SIG_DSDT)->0;
            let facp = find_listed(list, SIG_FACP)->0;
            let rsdt = find_listed(list, SIG_RSDT)->0;
            let n = secondary_tables(list).len() as int;
            let e = ((rsdt.length - 36) / 4) as int;
            let l = table_loader(t)->Ok_0;
            let end = 128 * (10 + n + e);
            &&& tables_from(t, 0) is Ok
            &&& end <= l.len()
            &&& l.subrange(0, 128) == encode_cmd(
                LoaderCmd::Allocate { file: LoaderFile::Rsdp, alignment: 16, zone: 2 },
            )
            &&& l.subrange(128, 256) == encode_cmd(
                LoaderCmd::Allocate { file: LoaderFile::Tables, alignment: 64, zone: 1 },
            )
            &&& l.subrange(256, 384) == encode_cmd(
                LoaderCmd::AddChecksum {
                    file: LoaderFile::Tables,
                    result_offset: dsdt.checksum_offset,
                    start: dsdt.offset,
                    length: dsdt.length,
                },
            )
            &&& l.subrange(384, 512) == encode_cmd(
                LoaderCmd::AddPtr {
                    pointer_file: LoaderFile::Tables,
                    pointee_file: LoaderFile::Tables,
                    pointer_offset: (facp.offset + 36) as u32,
                    pointer_size: 4,
                },
            )
            &&& l.subrange(512, 640) == encode_cmd(
                LoaderCmd::AddPtr {
                    pointer_file: LoaderFile::Tables,
                    pointee_file: LoaderFile::Tables,
                    pointer_offset: (facp.offset + 40) as u32,
                    pointer_size: 4,
                },
            )
            &&& l.subrange(640, 768) == encode_cmd(
                LoaderCmd::AddPtr {
                    pointer_file: LoaderFile::Tables,
                    pointee_file: LoaderFile::Tables,
                    pointer_offset: (facp.offset + 140) as u32,
                    pointer_size: 8,
                },
            )
            &&& l.subrange(768, 896) == encode_cmd(
                LoaderCmd::AddChecksum {
                    file: LoaderFile::Tables,
                    result_offset: facp.checksum_offset,
                    start: facp.offset,
                    length: facp.length,
                },
            )
            &&& forall|x: int|
                0 <= x < e ==> #[trigger] l.subrange(128 * (7 + n + x), 128 * (8 + n + x))
                    == encode_cmd(
                    LoaderCmd::AddPtr {
                        pointer_file: LoaderFile::Tables,
                        pointee_file: LoaderFile::Tables,
                        pointer_offset: (rsdt.offset + 36 + 4 * x) as u32,
                        pointer_size: 4,
                    },
                )
            &&& l.subrange(end - 384, end - 256) == encode_cmd(
                LoaderCmd::AddChecksum {
                    file: LoaderFile::Tables,
                    result_offset: rsdt.checksum_offset,
                    start: rsdt.offset,
                    length: rsdt.length,
                },
            )
            &&& l.subrange(end - 256, end - 128) == encode_cmd(
                LoaderCmd::AddPtr {
                    pointer_file: LoaderFile::Rsdp,
                    pointee_file: LoaderFile::Tables,
                    pointer_offset: 16,
                    pointer_size: 4,
                },
            )
            &&& l.subrange(end - 128, end) == encode_cmd(
                LoaderCmd::AddChecksum { file: LoaderFile::Rsdp, result_offset: 8, start: 0, length: 20 },
            )
            &&& forall|y: int| end <= y < l.len() ==> #[trigger] l[y] == 0
        }),
{
    let list = tables_from(t, 0)->Ok_0;
    let dsdt = find_listed(list, SIG_DSDT)->0;
    let facp = find_listed(list, SIG_FACP)->0;
    let rsdt = find_listed(list, SIG_RSDT)->0;
    let sc = secondary_checksums(list);
    lemma_secondary_checksums_follow_tables(list);
    let n = sc.len() as int;
    let e = ((rsdt.length - RSDT_HEADER_LEN) / 4) as nat;
    let ptrs = rsdt_entry_ptrs(rsdt.offset, e);
    if e > 0 {
        lemma_rsdt_entry_ptrs_at(rsdt.offset, e, 0);
    } else {
        assert(ptrs =~= Seq::<LoaderCmd>::empty());
    }
    let cmds = loader_commands(list, dsdt, facp, rsdt);
    assert(cmds.len() == 10 + n + e);
    let b = encode_cmds(cmds);
    lemma_encode_cmds_len(cmds);
    let l = table_loader(t)->Ok_0;
    assert(l == pad_loader(b));
    assert forall|i: int| 0 <= i < cmds.len() implies l.subrange(128 * i, 128 * i + 128)
        == encode_cmd(#[trigger] cmds[i]) by {
        lemma_encode_cmds_at(cmds, i);
        assert(l.subrange(128 * i, 128 * i + 128) =~= b.subrange(128 * i, 128 * i + 128));
    }
    assert(l.subrange(0, 128) == encode_cmd(cmds[0]));
    assert(l.subrange(128, 256) == encode_cmd(cmds[1]));
    assert(l.subrange(256, 384) == encode_cmd(cmds[2]));
    assert(l.subrange(384, 512) == encode_cmd(cmds[3]));
    assert(l.subrange(512, 640) == encode_cmd(cmds[4]));
    assert(l.subrange(640, 768) == encode_cmd(cmds[5]));
    assert(l.subrange(768, 896) == encode_cmd(cmds[6]));
    assert forall|x: int| 0 <= x < e implies #[trigger] l.subrange(128 * (7 + n + x), 128 * (8 + n
        + x)) == encode_cmd(
        LoaderCmd::AddPtr {
            pointer_file: LoaderFile::Tables,
            pointee_file: LoaderFile::Tables,
            pointer_offset: (rsdt.offset + 36 + 4 * x) as u32,
            pointer_size: 4,
        },
    ) by {
        lemma_rsdt_entry_ptrs_at(rsdt.offset, e, x);
        assert(cmds[7 + n + x] == ptrs[x]);
        assert(l.subrange(128 * (7 + n + x), 128 * (7 + n + x) + 128) == encode_cmd(
            cmds[7 + n + x],
        ));
    }
    let end = 128 * (10 + n + e);
    assert(l.subrange(end - 384, end - 256) == encode_cmd(cmds[7 + n + e]));
    assert(l.subrange(end - 256, end - 128) == encode_cmd(cmds[8 + n + e]));
    assert(l.subrange(end - 128, end) == encode_cmd(cmds[9 + n + e]));
    assert forall|y: int| end <= y < l.len() implies #[trigger] l[y] == 0 by {
        assert(b.len() < LDR_LENGTH);
        assert(l[y] == crate::tdvf::zeros((LDR_LENGTH - b.len()) as nat)[y - b.len()]);
    }
}

/// Builds the QEMU table-loader file (`etc/table-loader`) for a blob of
/// concatenated ACPI tables, padded with zeros to 4096 bytes.
#[verifier::spinoff_prover]
pub fn derive_table_loader(tables: &[u8]) -> (res: Result<Vec<u8>, Error>)
    requires
        table_loader_defined(tables@),
    ensures
        match res {
            Ok(v) => table_loader(tables@) == Ok::<Seq<u8>, Error>(v@),
            Err(e) => table_loader(tables@) == Err::<Seq<u8>, Error>(e),
        },
{
    let list = list_acpi_tables(tables)?;
    let dsdt = find_in_list(&list, SIG_DSDT)?;
    let facp = find_in_list(&list, SIG_FACP)?;
    let rsdt = find_in_list(&list, SIG_RSDT)?;
    let ghost all = loader_commands(list@, dsdt, facp, rsdt);
    let mut loader = TableLoader::new();
    let ghost mut cmds: Seq<LoaderCmd> = Seq::empty();
    let c = LoaderCmd::Allocate { file: LoaderFile::Rsdp, alignment: 16, zone: 2 };
    loader.append(c);
    proof {
        lemma_encode_cmds_push(cmds, c);
        cmds = cmds.push(c);
    }
    let c = LoaderCmd::Allocate { file: LoaderFile::Tables, alignment: 64, zone: 1 };
    loader.append(c);
    proof {
        lemma_encode_cmds_push(cmds, c);
        cmds = cmds.push(c);
    }
    let c = LoaderCmd::AddChecksum {
        file: LoaderFile::Tables,
        result_offset: dsdt.checksum_offset,
        start: dsdt.offset,
        length: dsdt.length,
    };
    loader.append(c);
    proof {
        lemma_encode_cmds_push(cmds, c);
        cmds = cmds.push(c);
    }
    let c = LoaderCmd::AddPtr {
        pointer_file: LoaderFile::Tables,
        pointee_file: LoaderFile::Tables,
        pointer_offset: facp.offset + 36,
        pointer_size: 4,
    };
    loader.append(c);
    proof {
        lemma_encode_cmds_push(cmds, c);
        cmds = cmds.push(c);
    }
    let c = LoaderCmd::AddPtr {
        pointer_file: LoaderFile::Tables,
        pointee_file: LoaderFile::Tables,
        pointer_offset: facp.offset + 40,
        pointer_size: 4,
    };
    loader.append(c);
    proof {
        lemma_encode_cmds_push(cmds, c);
        cmds = cmds.push(c);
    }
    let c = LoaderCmd::AddPtr {
        pointer_file: LoaderFile::Tables,
        pointee_file: LoaderFile::Tables,
        pointer_offset: facp.offset + 140,
        pointer_size: 8,
    };
    loader.append(c);
    proof {
        lemma_encode_cmds_push(cmds, c);
        cmds = cmds.push(c);
    }
    let c = LoaderCmd::AddChecksum {
        file: LoaderFile::Tables,
        result_offset: facp.checksum_offset,
        start: facp.offset,
        length: facp.length,
    };
    loader.append(c);
    proof {
        lemma_encode_cmds_push(cmds, c);
        cmds = cmds.push(c);
    }
    let ghost head = cmds;
    assert(head =~= all.take(7));
    let mut i: usize = 0;
    assert(list@.take(0) =~= Seq::<AcpiTableInfo>::empty());
    while i < list.len()
        invariant
            i <= list@.len(),
            loader.buffer@ == encode_cmds(cmds),
            cmds == head + secondary_checksums(list@.take(i as int)),
        decreases list@.len() - i,
    {
        let t = list[i];
        assert(list@.take(i + 1).drop_last() =~= list@.take(i as int));
        if t.signature != SIG_FACS && t.signature != SIG_DSDT && t.signature != SIG_FACP
            && t.signature != SIG_RSDT {
            let c = LoaderCmd::AddChecksum {
                file: LoaderFile::Tables,
                result_offset: t.checksum_offset,
                start: t.offset,
                length: t.length,
            };
            loader.append(c);
            proof {
                lemma_encode_cmds_push(cmds, c);
                cmds = cmds.push(c);
            }
        }
        assert(cmds =~= head + secondary_checksums(list@.take(i + 1)));
        i = i + 1;
    }
    assert(list@.take(list@.len() as int) =~= list@);
    if rsdt.length < RSDT_HEADER_LEN || (rsdt.length - RSDT_HEADER_LEN) % 4 != 0 {
        return Err(Error::MalformedRsdt);
    }
    let ghost mid = cmds;
    let rsdt_entries = (rsdt.length - RSDT_HEADER_LEN) / 4;
    let mut k: u32 = 0;
    while k < rsdt_entries
        invariant
            k <= rsdt_entries,
            rsdt_entries == (rsdt.length - RSDT_HEADER_LEN) / 4,
            rsdt_well_formed(rsdt),
            rsdt.length > RSDT_HEADER_LEN ==> rsdt.offset + rsdt.length - 4 <= u32::MAX,
            loader.buffer@ == encode_cmds(cmds),
            cmds == mid + rsdt_entry_ptrs(rsdt.offset, k as nat),
        decreases rsdt_entries - k,
    {
        let c = LoaderCmd::AddPtr {
            pointer_file: LoaderFile::Tables,
            pointee_file: LoaderFile::Tables,
            pointer_offset: rsdt.offset + RSDT_HEADER_LEN + k * 4,
            pointer_size: 4,
        };
        loader.append(c);
        proof {
            lemma_encode_cmds_push(cmds, c);
            cmds = cmds.push(c);
        }
        assert(cmds =~= mid + rsdt_entry_ptrs(rsdt.offset, (k + 1) as nat));
        k = k + 1;
    }
    let c = LoaderCmd::AddChecksum {
        file: LoaderFile::Tables,
        result_offset: rsdt.checksum_offset,
        start: rsdt.offset,
        length: rsdt.length,
    };
    loader.append(c);
    proof {
        lemma_encode_cmds_push(cmds, c);
        cmds = cmds.push(c);
    }
    let c = LoaderCmd::AddPtr {
        pointer_file: LoaderFile::Rsdp,
        pointee_file: LoaderFile::Tables,
        pointer_offset: 16,
        pointer_size: 4,
    };
    loader.append(c);
    proof {
        lemma_encode_cmds_push(cmds, c);
        cmds = cmds.push(c);
    }
    let c = LoaderCmd::AddChecksum { file: LoaderFile::Rsdp, result_offset: 8, start: 0, length: 20 };
    loader.append(c);
    proof {
        lemma_encode_cmds_push(cmds, c);
        cmds = cmds.push(c);
    }
    assert(cmds =~= all);
    let mut buffer = loader.buffer;
    if buffer.len() < LDR_LENGTH {
        let pad = LDR_LENGTH - buffer.len();
        push_zeros(&mut buffer, pad);
    }
    Ok(buffer)
}

} // verus!

verus! {

/// Signature of the root system description table.
pub const RSDT_SIGNATURE: &'static str = "RSDT";

/// Where the table with signature `sig` lies, searching the blob `t` from
/// `off`: `(offset, checksum offset, length)`.
pub open spec fn find_table_from(t: Seq<u8>, sig: Seq<u8>, off: int) -> Result<
    (u32, u32, u32),
    Error,
>
    decreases t.len() - off,
{
    if off < 0 || off + 8 > t.len() {
        Err(Error::AcpiTableNotFound)
    } else {
        let len = get_u32(t, off + 4);
        if t.subrange(off, off + 4) == sig {
            Ok((off as u32, (off + 9) as u32, len))
        } else if len == 0 {
            Err(Error::ZeroLengthAcpiTable)
        } else if off + len >= t.len() {
            Err(Error::AcpiTableNotFound)
        } else {
            find_table_from(t, sig, off + len)
        }
    }
}

/// Where the table with signature `sig` lies in `t`, or why it was not found.
pub open spec fn find_table(t: Seq<u8>, sig: Seq<u8>) -> Result<(u32, u32, u32), Error> {
    if sig.len() != 4 {
        Err(Error::InvalidSignatureLength)
    } else {
        find_table_from(t, sig, 0)
    }
}

/// Searches the tables blob for the table with the given 4-character
/// signature, walking from table to table by their lengths; returns its
/// offset, the offset of its checksum byte, and its length.
pub fn find_acpi_table(tables: &[u8], signature: &str) -> (res: Result<(u32, u32, u32), Error>)
    ensures
        match res {
            Ok(r) => find_table(tables@, signature.spec_bytes()) == Ok::<(u32, u32, u32), Error>(r),
            Err(e) => find_table(tables@, signature.spec_bytes()) == Err::<(u32, u32, u32), Error>(e),
        },
{
    let sig_bytes = signature.as_bytes();
    if sig_bytes.len() != 4 {
        return Err(Error::InvalidSignatureLength);
    }
    let n = tables.len();
    let mut offset: usize = 0;
    while offset < n
        invariant
            n == tables@.len(),
            sig_bytes@ == signature.spec_bytes(),
            sig_bytes@.len() == 4,
            find_table(tables@, sig_bytes@) == find_table_from(tables@, sig_bytes@, offset as int),
        decreases n - offset,
    {
        if n - offset < 8 {
            return Err(Error::AcpiTableNotFound);
        }
        let tbl_sig = &tables[offset..offset + 4];
        let tbl_len = read_u32(tables, offset + 4);
        if crate::bytes::bytes_equal(tbl_sig, sig_bytes) {
            let off32 = #[verifier::truncate] (offset as u32);
            let csum = #[verifier::truncate] ((offset as u128 + 9) as u32);
            return Ok((off32, csum, tbl_len));
        }
        if tbl_len == 0 {
            return Err(Error::ZeroLengthAcpiTable);
        }
        if tbl_len as usize >= n - offset {
            return Err(Error::AcpiTableNotFound);
        }
        offset = offset + tbl_len as usize;
    }
    Err(Error::AcpiTableNotFound)
}

/// The table loader depends only on the table listing (the signatures,
/// offsets and lengths of the tables), not on the tables' contents or on
/// what follows the last table.
pub proof fn lemma_table_loader_from_listing(t1: Seq<u8>, t2: Seq<u8>)
    requires
        tables_from(t1, 0) == tables_from(t2, 0),
    ensures
        table_loader(t1) == table_loader(t2),
        table_loader_defined(t1) == table_loader_defined(t2),
{
}

/// Searching the blob from `off` finds the first listed table whose
/// signature is `sig`: `find_acpi_table` agrees with `list_acpi_tables`.
pub proof fn lemma_find_agrees_with_listing(t: Seq<u8>, sig: Seq<u8>, off: int, j: int)
    requires
        0 <= off,
        t.len() + 9 <= u32::MAX,
        tables_from(t, off) is Ok,
        0 <= j < tables_from(t, off)->Ok_0.len(),
        t.subrange(
            tables_from(t, off)->Ok_0[j].offset as int,
            tables_from(t, off)->Ok_0[j].offset + 4,
        ) == sig,
        forall|k: int|
            0 <= k < j ==> t.subrange(
                (#[trigger] tables_from(t, off)->Ok_0[k]).offset as int,
                tables_from(t, off)->Ok_0[k].offset + 4,
            ) != sig,
    ensures
        ({
            let e = tables_from(t, off)->Ok_0[j];
            find_table_from(t, sig, off) == Ok::<(u32, u32, u32), Error>(
                (e.offset, e.checksum_offset, e.length),
            )
        }),
    decreases t.len() - off,
{
    let list = tables_from(t, off)->Ok_0;
    let len = get_u32(t, off + 4) as int;
    let rest = tables_from(t, off + len)->Ok_0;
    assert(list == seq![list[0]] + rest);
    assert(list[0].offset == off);
    if j > 0 {
        assert(t.subrange(list[0].offset as int, list[0].offset + 4) != sig);
        assert(rest.len() > 0) by {
            assert(list.len() == 1 + rest.len());
        }
        if off + len >= t.len() {
            assert(tables_from(t, off + len) == Ok::<Seq<AcpiTableInfo>, Error>(Seq::empty()));
        }
        assert forall|k: int| 0 <= k < j - 1 implies t.subrange(
            (#[trigger] tables_from(t, off + len)->Ok_0[k]).offset as int,
            tables_from(t, off + len)->Ok_0[k].offset + 4,
        ) != sig by {
            assert(rest[k] == list[k + 1]);
        }
        assert(rest[j - 1] == list[j]);
        lemma_find_agrees_with_listing(t, sig, off + len, j - 1);
    }
}

/// `find_acpi_table` gives the first table of the listing whose
/// signature is the four bytes sought.
pub proof fn lemma_find_table_is_first_listed(t: Seq<u8>, sig: Seq<u8>, j: int)
    requires
        sig.len() == 4,
        t.len() + 9 <= u32::MAX,
        tables_from(t, 0) is Ok,
        0 <= j < tables_from(t, 0)->Ok_0.len(),
        t.subrange(
            tables_from(t, 0)->Ok_0[j].offset as int,
            tables_from(t, 0)->Ok_0[j].offset + 4,
        ) == sig,
        forall|k: int|
            0 <= k < j ==> t.subrange(
                (#[trigger] tables_from(t, 0)->Ok_0[k]).offset as int,
                tables_from(t, 0)->Ok_0[k].offset + 4,
            ) != sig,
    ensures
        ({
            let e = tables_from(t, 0)->Ok_0[j];
            find_table(t, sig) == Ok::<(u32, u32, u32), Error>(
                (e.offset, e.checksum_offset, e.length),
            )
        }),
{
    lemma_find_agrees_with_listing(t, sig, 0, j);
}

/// A table found from `off` starts with the signature sought, its length
/// is the one its header gives, and its checksum byte is at offset 9.
pub proof fn lemma_find_table_from_found(t: Seq<u8>, sig: Seq<u8>, off: int)
    requires
        0 <= off,
        t.len() + 9 <= u32::MAX,
    ensures
        find_table_from(t, sig, off) matches Ok((o, c, l)) ==> {
            &&& o + 8 <= t.len()
            &&& t.subrange(o as int, o + 4) == sig
            &&& l == get_u32(t, o + 4)
            &&& c == o + 9
        },
    decreases t.len() - off,
{
    if !(off < 0 || off + 8 > t.len()) {
        let len = get_u32(t, off + 4);
        if t.subrange(off, off + 4) != sig && len != 0 && off + len < t.len() {
            lemma_find_table_from_found(t, sig, off + len);
        }
    }
}

/// The 20-byte RSDP that points at the RSDT at `rsdt_offset`, with OEM
/// `BOCHS ` and a zero checksum placeholder.
pub open spec fn rsdp_bytes(rsdt_offset: u32) -> Seq<u8> {
    seq![0x52u8, 0x53, 0x44, 0x20, 0x50, 0x54, 0x52, 0x20, 0x00, 0x42, 0x4f, 0x43, 0x48, 0x53, 0x20,
    0x00] + u32_le(rsdt_offset)
}

/// The RSDP: the captured one when given, else one derived from the RSDT.
pub open spec fn rsdp_for(t: Seq<u8>, rsdp_file: Option<Seq<u8>>) -> Result<Seq<u8>, Error> {
    match rsdp_file {
        Some(d) => Ok(d),
        None => match find_table(t, RSDT_SIGNATURE.spec_bytes()) {
            Err(e) => Err(e),
            Ok((off, _, _)) => Ok(rsdp_bytes(off)),
        },
    }
}

/// The table loader: the captured one when given, else one derived from `t`.
pub open spec fn loader_for(t: Seq<u8>, loader_file: Option<Seq<u8>>) -> Result<Seq<u8>, Error> {
    match loader_file {
        Some(d) => Ok(d),
        None => table_loader(t),
    }
}

} // verus!

verus! {

impl crate::machine::Machine {
    /// Assembles the tables that RTMR0 measures from the ACPI tables blob
    /// `tables` and the captured RSDP and table loader (the contents of the
    /// files this machine names for them, if it names any); what is not
    /// given is derived from the tables.
    pub fn build_tables(
        &self,
        tables: Vec<u8>,
        rsdp_file: Option<Vec<u8>>,
        loader_file: Option<Vec<u8>>,
    ) -> (res: Result<Tables, Error>)
        requires
            loader_file is None ==> table_loader_defined(tables@),
        ensures
            match res {
                Ok(t) => {
                    &&& t.tables@ == tables@
                    &&& rsdp_for(tables@, crate::bytes::opt_bytes(rsdp_file)) == Ok::<Seq<u8>, Error>(
                        t.rsdp@,
                    )
                    &&& loader_for(tables@, crate::bytes::opt_bytes(loader_file)) == Ok::<
                        Seq<u8>,
                        Error,
                    >(t.loader@)
                },
                Err(e) => rsdp_for(tables@, crate::bytes::opt_bytes(rsdp_file)) == Err::<
                    Seq<u8>,
                    Error,
                >(e) || (rsdp_for(tables@, crate::bytes::opt_bytes(rsdp_file)) is Ok && loader_for(
                    tables@,
                    crate::bytes::opt_bytes(loader_file),
                ) == Err::<Seq<u8>, Error>(e)),
            },
    {
        let rsdp: Vec<u8> = match rsdp_file {
            Some(d) => d,
            None => {
                let (rsdt_offset, _rsdt_csum, _rsdt_len) = find_acpi_table(
                    tables.as_slice(),
                    RSDT_SIGNATURE,
                )?;
                let mut rsdp: Vec<u8> = Vec::with_capacity(20);
                rsdp.push(0x52);
                rsdp.push(0x53);
                rsdp.push(0x44);
                rsdp.push(0x20);
                rsdp.push(0x50);
                rsdp.push(0x54);
                rsdp.push(0x52);
                rsdp.push(0x20);
                rsdp.push(0x00);
                rsdp.push(0x42);
                rsdp.push(0x4f);
                rsdp.push(0x43);
                rsdp.push(0x48);
                rsdp.push(0x53);
                rsdp.push(0x20);
                rsdp.push(0x00);
                push_u32(&mut rsdp, rsdt_offset);
                assert(rsdp@ =~= rsdp_bytes(rsdt_offset));
                rsdp
            },
        };
        let loader: Vec<u8> = match loader_file {
            Some(d) => d,
            None => derive_table_loader(tables.as_slice())?,
        };
        Ok(Tables { tables, rsdp, loader })
    }
}

} // verus!

verus! {

use crate::config::QemuShape;
use vstd::string::StringExecFns;

/// Distribution whose QEMU comes from the Intel TDX PPA.
pub const UBUNTU_25_04: &'static str = "ubuntu:25.04";

/// Distribution whose QEMU comes from the main archive.
pub const UBUNTU_26_04: &'static str = "ubuntu:26.04";

/// QEMU package source: the TDX PPA.
pub const QEMU_SOURCE_PPA: &'static str = "ppa";

/// QEMU package source: the distribution's main archive.
pub const QEMU_SOURCE_MAIN: &'static str = "main";

/// QEMU version pinned for ubuntu:25.04.
pub const QEMU_VERSION_25_04: &'static str = "1:9.2.1+ds-1ubuntu4+tdx2.0~ppa2";

/// QEMU version pinned for ubuntu:26.04.
pub const QEMU_VERSION_26_04: &'static str = "1:10.2.1+ds-1ubuntu4";

/// Where the firmware lies inside the ACPI-dumping container.
pub const OVMF_IN_CONTAINER: &'static str = "/usr/share/ovmf/OVMF.fd";

/// How to fetch the QEMU source package for a distribution.
pub struct QemuPkg<'a> {
    /// `ppa` or `main`.
    pub source: &'static str,
    /// The version handed to the source fetcher.
    pub version: &'a str,
}

/// The QEMU package for `distribution`: its source and its pinned version,
/// unless a version is given.
pub open spec fn qemu_pkg_spec(distribution: Seq<u8>, version_override: Option<Seq<char>>) -> Result<
    (Seq<char>, Seq<char>),
    Error,
> {
    let pick = |pinned: Seq<char>|
        match version_override {
            Some(v) => v,
            None => pinned,
        };
    if distribution == UBUNTU_25_04.spec_bytes() {
        Ok((QEMU_SOURCE_PPA@, pick(QEMU_VERSION_25_04@)))
    } else if distribution == UBUNTU_26_04.spec_bytes() {
        Ok((QEMU_SOURCE_MAIN@, pick(QEMU_VERSION_26_04@)))
    } else {
        Err(Error::UnsupportedDistribution)
    }
}

/// The characters of an optional string.
pub open spec fn opt_str(o: Option<&str>) -> Option<Seq<char>> {
    match o {
        Some(s) => Some(s@),
        None => None,
    }
}

/// Describes how to fetch the QEMU source package for `distribution`.
pub fn qemu_pkg_for<'a>(distribution: &str, version_override: Option<&'a str>) -> (res: Result<
    QemuPkg<'a>,
    Error,
>)
    ensures
        match res {
            Ok(p) => qemu_pkg_spec(distribution.spec_bytes(), opt_str(version_override)) == Ok::<
                (Seq<char>, Seq<char>),
                Error,
            >((p.source@, p.version@)),
            Err(e) => qemu_pkg_spec(distribution.spec_bytes(), opt_str(version_override)) == Err::<
                (Seq<char>, Seq<char>),
                Error,
            >(e),
        },
{
    let d = distribution.as_bytes();
    let (source, default_version): (&'static str, &'static str) = if crate::bytes::bytes_equal(
        d,
        UBUNTU_25_04.as_bytes(),
    ) {
        (QEMU_SOURCE_PPA, QEMU_VERSION_25_04)
    } else if crate::bytes::bytes_equal(d, UBUNTU_26_04.as_bytes()) {
        (QEMU_SOURCE_MAIN, QEMU_VERSION_26_04)
    } else {
        return Err(Error::UnsupportedDistribution);
    };
    let version = match version_override {
        Some(v) => v,
        None => default_version,
    };
    Ok(QemuPkg { source, version })
}

/// Each value of `values` preceded by `flag`.
pub open spec fn flag_pairs(flag: Seq<char>, values: Seq<String>) -> Seq<Seq<char>>
    decreases values.len(),
{
    if values.len() == 0 {
        Seq::empty()
    } else {
        flag_pairs(flag, values.drop_last()) + seq![flag, values.last()@]
    }
}

/// The QEMU arguments that dump the ACPI tables of a machine: the given
/// shape with the measurement-relevant core flags, or, without a shape,
/// Canonical's direct-boot defaults.
pub open spec fn qemu_args(qemu: Option<QemuShape>, cpus: u8, memory: Seq<char>) -> Seq<Seq<char>> {
    let n = crate::text::decimal(cpus as nat);
    match qemu {
        Some(q) => seq![
            "-accel"@,
            q.accel@,
            "-m"@,
            memory,
            "-smp"@,
            n + ",maxcpus="@ + n,
            "-cpu"@,
            q.cpu@,
            "-no-reboot"@,
            "-nodefaults"@,
            "-vga"@,
            "none"@,
            "-nographic"@,
            "-bios"@,
            OVMF_IN_CONTAINER@,
            "-machine"@,
            q.machine@,
        ] + flag_pairs("-global"@, q.globals@) + flag_pairs("-object"@, q.objects@) + flag_pairs(
            "-netdev"@,
            q.netdevs@,
        ) + flag_pairs("-device"@, q.devices@) + flag_pairs("-fw_cfg"@, q.fw_cfg@),
        None => seq![
            "-accel"@,
            "kvm"@,
            "-m"@,
            memory,
            "-smp"@,
            n,
            "-cpu"@,
            "host"@,
            "-machine"@,
            "q35,kernel-irqchip=split,hpet=off,smm=off,pic=off"@,
            "-bios"@,
            OVMF_IN_CONTAINER@,
            "-nographic"@,
            "-nodefaults"@,
            "-serial"@,
            "stdio"@,
        ],
    }
}

/// The characters of each string.
pub open spec fn strings_view(v: Seq<String>) -> Seq<Seq<char>> {
    v.map_values(|s: String| s@)
}

fn push_str(args: &mut Vec<String>, s: &str)
    ensures
        strings_view(final(args)@) == strings_view(old(args)@).push(s@),
{
    args.push(String::from_str(s));
    assert(strings_view(final(args)@) =~= strings_view(old(args)@).push(s@));
}

fn push_flag_values(args: &mut Vec<String>, flag: &str, values: &Vec<String>)
    ensures
        strings_view(final(args)@) == strings_view(old(args)@) + flag_pairs(flag@, values@),
{
    let ghost start = strings_view(args@);
    let mut i: usize = 0;
    assert(values@.take(0) =~= Seq::<String>::empty());
    while i < values.len()
        invariant
            i <= values@.len(),
            strings_view(args@) =~= start + flag_pairs(flag@, values@.take(i as int)),
        decreases values@.len() - i,
    {
        push_str(args, flag);
        push_str(args, values[i].as_str());
        assert(values@.take(i + 1).drop_last() =~= values@.take(i as int));
        i = i + 1;
    }
    assert(values@.take(values@.len() as int) =~= values@);
}

/// Builds the QEMU command line that dumps the ACPI tables for `cpus`
/// CPUs and `memory`.
pub fn build_qemu_args(qemu: Option<&QemuShape>, cpus: u8, memory: &str) -> (args: Vec<String>)
    ensures
        strings_view(args@) == qemu_args(
            match qemu {
                Some(q) => Some(*q),
                None => None,
            },
            cpus,
            memory@,
        ),
{
    let mut args: Vec<String> = Vec::new();
    let mut n = String::new();
    crate::text::push_decimal(&mut n, cpus as u32);
    assert(strings_view(args@) =~= Seq::<Seq<char>>::empty());
    match qemu {
        Some(q) => {
            push_str(&mut args, "-accel");
            push_str(&mut args, q.accel.as_str());
            push_str(&mut args, "-m");
            push_str(&mut args, memory);
            push_str(&mut args, "-smp");
            let mut smp = String::from_str(n.as_str());
            smp.append(",maxcpus=");
            smp.append(n.as_str());
            push_str(&mut args, smp.as_str());
            push_str(&mut args, "-cpu");
            push_str(&mut args, q.cpu.as_str());
            push_str(&mut args, "-no-reboot");
            push_str(&mut args, "-nodefaults");
            push_str(&mut args, "-vga");
            push_str(&mut args, "none");
            push_str(&mut args, "-nographic");
            push_str(&mut args, "-bios");
            push_str(&mut args, OVMF_IN_CONTAINER);
            push_str(&mut args, "-machine");
            push_str(&mut args, q.machine.as_str());
            let ghost head = strings_view(args@);
            push_flag_values(&mut args, "-global", &q.globals);
            push_flag_values(&mut args, "-object", &q.objects);
            push_flag_values(&mut args, "-netdev", &q.netdevs);
            push_flag_values(&mut args, "-device", &q.devices);
            push_flag_values(&mut args, "-fw_cfg", &q.fw_cfg);
        },
        None => {
            push_str(&mut args, "-accel");
            push_str(&mut args, "kvm");
            push_str(&mut args, "-m");
            push_str(&mut args, memory);
            push_str(&mut args, "-smp");
            push_str(&mut args, n.as_str());
            push_str(&mut args, "-cpu");
            push_str(&mut args, "host");
            push_str(&mut args, "-machine");
            push_str(&mut args, "q35,kernel-irqchip=split,hpet=off,smm=off,pic=off");
            push_str(&mut args, "-bios");
            push_str(&mut args, OVMF_IN_CONTAINER);
            push_str(&mut args, "-nographic");
            push_str(&mut args, "-nodefaults");
            push_str(&mut args, "-serial");
            push_str(&mut args, "stdio");
        },
    }
    assert(strings_view(args@) =~= qemu_args(
        match qemu {
            Some(q) => Some(*q),
            None => None,
        },
        cpus,
        memory@,
    ));
    args
}

/// The accelerator that needs `/dev/kvm` in the container.
pub const KVM_ACCEL: &'static str = "kvm";

/// The devices the ACPI-dumping container needs: `/dev/kvm` unless a QEMU
/// shape names another accelerator (the Canonical defaults use KVM), and
/// `/dev/vhost-vsock` whenever a QEMU shape is given.
pub open spec fn container_devices_spec(qemu: Option<QemuShape>) -> (bool, bool) {
    match qemu {
        Some(q) => (q.accel@ == KVM_ACCEL@, true),
        None => (true, false),
    }
}

/// Decides which host devices the ACPI-dumping container needs:
/// `(needs /dev/kvm, wants /dev/vhost-vsock)`.
pub fn container_devices(qemu: Option<&QemuShape>) -> (res: (bool, bool))
    ensures
        res == container_devices_spec(
            match qemu {
                Some(q) => Some(*q),
                None => None,
            },
        ),
{
    match qemu {
        Some(q) => {
            let a = q.accel.as_str();
            let n = a.unicode_len();
            proof {
                reveal_strlit("kvm");
            }
            let kvm = n == 3 && a.get_char(0) == 'k' && a.get_char(1) == 'v' && a.get_char(2)
                == 'm';
            assert(kvm ==> a@ =~= KVM_ACCEL@);
            (kvm, true)
        },
        None => (true, false),
    }
}

} // verus!
