//! The TDX virtual firmware (TDVF) image: its metadata, and the MRTD and
//! RTMR0 values it gives rise to.

use vstd::prelude::*;
use crate::bytes::{bytes_equal, get_u16, get_u32, get_u64, read_u16, read_u32, read_u64};
use crate::efi::{encode_guid, guid_bytes};
use crate::error::Error;
use vstd::string::StringSliceAdditionalSpecFns;

verus! {

/// Size of a TDX page.
pub const PAGE_SIZE: u64 = 0x1000;

/// Section attribute: the section's content is measured into MRTD.
pub const ATTRIBUTE_MR_EXTEND: u32 = 0x00000001;

/// Section attribute: the section's pages are added after boot (not measured).
pub const ATTRIBUTE_PAGE_AUG: u32 = 0x00000002;

/// Section type of the configuration firmware volume.
pub const TDVF_SECTION_TD_CFV: u32 = 0x01;

/// Section type of the TD hand-off block.
pub const TDVF_SECTION_TD_HOB: u32 = 0x02;

/// Section type of temporary memory.
pub const TDVF_SECTION_TEMP_MEM: u32 = 0x03;

/// GUID of the GUID-table entry that locates the TDVF metadata.
pub const TDX_METADATA_OFFSET_GUID: &'static str = "e47a6535-984a-4798-865e-4685a7bf8ec2";

/// GUID that closes the GUID table near the end of the firmware.
pub const TABLE_FOOTER_GUID: &'static str = "96b582de-1fb2-45f7-baea-a366c55a082d";

/// Bytes that follow the GUID table footer at the end of the image.
pub const BYTES_AFTER_TABLE_FOOTER: usize = 32;

/// One section of the TDVF metadata.
#[derive(Debug, Clone, Copy, PartialEq, Eq, Structural)]
pub struct TdvfSection {
    pub data_offset: u32,
    pub raw_data_size: u32,
    pub memory_address: u64,
    pub memory_data_size: u64,
    pub sec_type: u32,
    pub attributes: u32,
}

/// A firmware image together with the sections its metadata lists.
pub struct Tdvf<'a> {
    fw: &'a [u8],
    sections: Vec<TdvfSection>,
}

impl<'a> Tdvf<'a> {
    /// The firmware image.
    pub closed spec fn firmware(&self) -> Seq<u8> {
        self.fw@
    }

    /// The sections of the metadata, in the order in which they are listed.
    pub closed spec fn sections(&self) -> Seq<TdvfSection> {
        self.sections@
    }
}

/// The binary footer GUID.
pub open spec fn footer_guid() -> Result<Seq<u8>, Error> {
    guid_bytes(TABLE_FOOTER_GUID.spec_bytes())
}

/// The binary GUID of the metadata-offset entry.
pub open spec fn metadata_guid() -> Result<Seq<u8>, Error> {
    guid_bytes(TDX_METADATA_OFFSET_GUID.spec_bytes())
}

/// The 32-byte section descriptor stored at `off`.
pub open spec fn section_at(fw: Seq<u8>, off: int) -> TdvfSection {
    TdvfSection {
        data_offset: get_u32(fw, off),
        raw_data_size: get_u32(fw, off + 4),
        memory_address: get_u64(fw, off + 8),
        memory_data_size: get_u64(fw, off + 16),
        sec_type: get_u32(fw, off + 24),
        attributes: get_u32(fw, off + 28),
    }
}

/// What is wrong with a section descriptor, checked in this order, if anything.
pub open spec fn section_error(s: TdvfSection) -> Option<Error> {
    if s.memory_address % (PAGE_SIZE as u64) != 0 {
        Some(Error::SectionAddressNotAligned)
    } else if s.memory_data_size < s.raw_data_size as u64 {
        Some(Error::SectionMemorySizeTooSmall)
    } else if s.memory_data_size % (PAGE_SIZE as u64) != 0 {
        Some(Error::SectionMemorySizeNotAligned)
    } else if s.attributes & ATTRIBUTE_MR_EXTEND != 0 && s.raw_data_size as u64
        > s.memory_data_size {
        Some(Error::SectionRawDataTooLarge)
    } else {
        None
    }
}

/// Offset of the `i`-th section descriptor after the descriptor at `mo`.
pub open spec fn section_offset(mo: int, i: int) -> int {
    mo + 16 + 32 * i
}

/// The first `n` section descriptors after the metadata descriptor at `mo`,
/// or the error of the first one that is wrong.
pub open spec fn parse_sections(fw: Seq<u8>, mo: int, n: nat) -> Result<Seq<TdvfSection>, Error>
    decreases n,
{
    if n == 0 {
        Ok(Seq::empty())
    } else {
        match parse_sections(fw, mo, (n - 1) as nat) {
            Err(e) => Err(e),
            Ok(prev) => {
                let s = section_at(fw, section_offset(mo, n - 1));
                match section_error(s) {
                    Some(e) => Err(e),
                    None => Ok(prev.push(s)),
                }
            },
        }
    }
}

/// Every section descriptor that the parse reads lies inside the image.
pub open spec fn sections_readable(fw: Seq<u8>, mo: int, n: nat) -> bool
    decreases n,
{
    n == 0 || (sections_readable(fw, mo, (n - 1) as nat) && (parse_sections(
        fw,
        mo,
        (n - 1) as nat,
    ) is Ok ==> section_offset(mo, n - 1) + 32 <= fw.len()))
}

/// Walks the GUID table backwards from `off`: each entry ends with its GUID,
/// preceded by its two-byte length. Returns the bounds of the data of the
/// entry whose GUID is `guid`.
pub open spec fn walk_guid_table(tables: Seq<u8>, off: int, guid: Seq<u8>) -> Result<
    Option<(int, int)>,
    Error,
>
    decreases off,
{
    if off < 18 {
        Ok(None)
    } else {
        let entry_len = get_u16(tables, off - 18) as int;
        if entry_len > off - 18 {
            Err(Error::InvalidEntryLength)
        } else if tables.subrange(off - 16, off) == guid {
            Ok(Some((off - 18 - entry_len, off - 18)))
        } else if entry_len == 0 {
            Ok(None)
        } else {
            walk_guid_table(tables, off - entry_len, guid)
        }
    }
}

/// An entry the walk finds carries the GUID sought in its last 16 bytes,
/// the two bytes before them hold its data length, and its data is the
/// bytes before those, inside the part of the table walked.
pub proof fn lemma_walk_finds_entry(tables: Seq<u8>, off: int, guid: Seq<u8>)
    ensures
        walk_guid_table(tables, off, guid) matches Ok(Some((a, b))) ==> {
            &&& 0 <= a <= b
            &&& b + 18 <= off
            &&& tables.subrange(b + 2, b + 18) == guid
            &&& b - a == get_u16(tables, b)
        },
    decreases off,
{
    if off >= 18 {
        let entry_len = get_u16(tables, off - 18) as int;
        if entry_len <= off - 18 && tables.subrange(off - 16, off) != guid && entry_len != 0 {
            lemma_walk_finds_entry(tables, off - entry_len, guid);
        }
    }
}

/// The walk reaches an entry of length zero that is not the one sought:
/// from there on it would never move.
pub open spec fn walk_stalls(tables: Seq<u8>, off: int, guid: Seq<u8>) -> bool
    decreases off,
{
    if off < 18 {
        false
    } else {
        let entry_len = get_u16(tables, off - 18) as int;
        if entry_len > off - 18 {
            false
        } else if tables.subrange(off - 16, off) == guid {
            false
        } else if entry_len == 0 {
            true
        } else {
            walk_stalls(tables, off - entry_len, guid)
        }
    }
}

/// Offset of the table footer GUID's end.
pub open spec fn footer_end(fw: Seq<u8>) -> int {
    fw.len() - BYTES_AFTER_TABLE_FOOTER
}

/// Length of the GUID table.
pub open spec fn tables_len(fw: Seq<u8>) -> int {
    get_u16(fw, footer_end(fw) - 18) as int
}

/// The GUID table.
pub open spec fn guid_table(fw: Seq<u8>) -> Seq<u8> {
    fw.subrange(footer_end(fw) - 18 - tables_len(fw), footer_end(fw) - 18)
}

/// Offset of the TDVF metadata descriptor, given the metadata-offset entry's data.
pub open spec fn metadata_offset(fw: Seq<u8>, entry: Seq<u8>) -> int {
    fw.len() - get_u32(entry, entry.len() - 4) as int
}

/// The bytes `TDVF`.
pub open spec fn tdvf_signature() -> Seq<u8> {
    seq![0x54u8, 0x44, 0x56, 0x46]
}

/// The result of parsing the TDVF metadata of `fw`: its sections, or the
/// error that the first failed check gives.
pub open spec fn tdvf_sections(fw: Seq<u8>) -> Result<Seq<TdvfSection>, Error> {
    let off = footer_end(fw);
    match footer_guid() {
        Err(e) => Err(e),
        Ok(fg) => if fw.subrange(off - 16, off) != fg {
            Err(Error::InvalidFooterGuid)
        } else if tables_len(fw) == 0 || tables_len(fw) > off - 18 {
            Err(Error::InvalidTablesLength)
        } else {
            match metadata_guid() {
                Err(e) => Err(e),
                Ok(mg) => match walk_guid_table(guid_table(fw), tables_len(fw), mg) {
                    Err(e) => Err(e),
                    Ok(None) => Err(Error::MissingTdvfMetadata),
                    Ok(Some((a, b))) => {
                        let mo = metadata_offset(fw, guid_table(fw).subrange(a, b));
                        if fw.subrange(mo, mo + 4) != tdvf_signature() {
                            Err(Error::InvalidTdvfDescriptor)
                        } else if get_u32(fw, mo + 8) != 1 {
                            Err(Error::UnsupportedTdvfVersion)
                        } else {
                            parse_sections(fw, mo, get_u32(fw, mo + 12) as nat)
                        }
                    },
                },
            }
        },
    }
}

/// The inputs on which parsing reads only inside the image and ends: the
/// image holds the footer, the GUID table walk does not stall, the metadata
/// entry holds its 4-byte offset, and the descriptors read lie in the image.
pub open spec fn tdvf_parse_defined(fw: Seq<u8>) -> bool {
    let off = footer_end(fw);
    &&& fw.len() >= 48
    &&& (footer_guid() matches Ok(fg) && fw.subrange(off - 16, off) == fg) ==> {
        &&& fw.len() >= 50
        &&& (tables_len(fw) != 0 && tables_len(fw) <= off - 18 && metadata_guid() is Ok) ==> {
            let mg = metadata_guid()->Ok_0;
            let tables = guid_table(fw);
            &&& !walk_stalls(tables, tables_len(fw), mg)
            &&& walk_guid_table(tables, tables_len(fw), mg) matches Ok(Some((a, b))) ==> {
                let mo = metadata_offset(fw, tables.subrange(a, b));
                &&& b - a >= 4
                &&& 0 <= mo
                &&& mo + 16 <= fw.len()
                &&& (fw.subrange(mo, mo + 4) == tdvf_signature() && get_u32(fw, mo + 8) == 1)
                    ==> sections_readable(fw, mo, get_u32(fw, mo + 12) as nat)
            }
        }
    }
}

proof fn lemma_walk_bounds(tables: Seq<u8>, off: int, guid: Seq<u8>)
    requires
        0 <= off <= tables.len(),
    ensures
        walk_guid_table(tables, off, guid) matches Ok(Some((a, b))) ==> 0 <= a <= b && b + 18
            <= off,
    decreases off,
{
    if off >= 18 {
        let entry_len = get_u16(tables, off - 18) as int;
        if entry_len <= off - 18 && tables.subrange(off - 16, off) != guid && entry_len != 0 {
            lemma_walk_bounds(tables, off - entry_len, guid);
        }
    }
}

proof fn lemma_parse_sections_err_persists(fw: Seq<u8>, mo: int, k: nat, n: nat)
    requires
        k <= n,
        parse_sections(fw, mo, k) is Err,
    ensures
        parse_sections(fw, mo, n) == parse_sections(fw, mo, k),
    decreases n - k,
{
    if k < n {
        lemma_parse_sections_err_persists(fw, mo, k, (n - 1) as nat);
    }
}

proof fn lemma_sections_readable_prefix(fw: Seq<u8>, mo: int, k: nat, n: nat)
    requires
        k <= n,
        sections_readable(fw, mo, n),
    ensures
        sections_readable(fw, mo, k),
    decreases n - k,
{
    if k < n {
        lemma_sections_readable_prefix(fw, mo, k, (n - 1) as nat);
    }
}

proof fn lemma_sections_readable_after_error(fw: Seq<u8>, mo: int, k: nat, n: nat)
    requires
        k <= n,
        sections_readable(fw, mo, k),
        parse_sections(fw, mo, k) is Err,
    ensures
        sections_readable(fw, mo, n),
    decreases n - k,
{
    if k < n {
        lemma_sections_readable_after_error(fw, mo, k, (n - 1) as nat);
        lemma_parse_sections_err_persists(fw, mo, k, (n - 1) as nat);
    }
}

/// Whether parsing the TDVF metadata of `fw` reads only inside the image
/// and ends (the images `Tdvf::parse` accepts).
#[verifier::loop_isolation(false)]
pub fn parse_is_defined(fw: &[u8]) -> (b: bool)
    ensures
        b == tdvf_parse_defined(fw@),
{
    let len = fw.len();
    if len < 48 {
        return false;
    }
    let offset = len - BYTES_AFTER_TABLE_FOOTER;
    let fg = match encode_guid(TABLE_FOOTER_GUID) {
        Ok(g) => g,
        Err(_) => return true,
    };
    if !bytes_equal(&fw[offset - 16..offset], fg.as_slice()) {
        return true;
    }
    if len < 50 {
        return false;
    }
    let tables_len = read_u16(fw, offset - 18) as usize;
    if tables_len == 0 || tables_len > offset - 18 {
        return true;
    }
    let mg = match encode_guid(TDX_METADATA_OFFSET_GUID) {
        Ok(g) => g,
        Err(_) => return true,
    };
    let tables = &fw[offset - 18 - tables_len..offset - 18];
    assert(tables@ == guid_table(fw@));
    let ghost g = mg@;
    let mut off = tables.len();
    let mut found: Option<(usize, usize)> = None;
    while off >= 18
        invariant
            off <= tables@.len(),
            found is None,
            g == mg@,
            walk_guid_table(tables@, tables@.len() as int, g) == walk_guid_table(
                tables@,
                off as int,
                g,
            ),
            walk_stalls(tables@, tables@.len() as int, g) == walk_stalls(tables@, off as int, g),
        decreases off,
    {
        let entry_len = read_u16(tables, off - 18) as usize;
        if entry_len > off - 18 {
            return true;
        }
        if bytes_equal(&tables[off - 16..off], mg.as_slice()) {
            found = Some((off - 18 - entry_len, off - 18));
            assert(walk_guid_table(tables@, tables@.len() as int, g) == Ok::<
                Option<(int, int)>,
                Error,
            >(Some(((off - 18 - entry_len) as int, (off - 18) as int))));
            break;
        }
        if entry_len == 0 {
            return false;
        }
        off = off - entry_len;
    }
    let (a, b) = match found {
        Some(range) => range,
        None => return true,
    };
    proof {
        lemma_walk_bounds(tables@, tables@.len() as int, g);
    }
    if b - a < 4 {
        return false;
    }
    let entry = &tables[a..b];
    let rel = read_u32(entry, entry.len() - 4) as usize;
    if rel > len {
        return false;
    }
    let mo = len - rel;
    if mo > len - 16 {
        return false;
    }
    let desc = &fw[mo..mo + 4];
    let sig_ok = desc[0] == 0x54 && desc[1] == 0x44 && desc[2] == 0x56 && desc[3] == 0x46;
    proof {
        if fw@.subrange(mo as int, mo + 4) == tdvf_signature() {
            assert(desc@ == fw@.subrange(mo as int, mo + 4));
            assert(desc@[0] == 0x54 && desc@[1] == 0x44 && desc@[2] == 0x56 && desc@[3] == 0x46);
        }
        if sig_ok {
            assert(fw@.subrange(mo as int, mo + 4) =~= tdvf_signature());
        }
    }
    if !sig_ok || read_u32(fw, mo + 8) != 1 {
        return true;
    }
    let n = read_u32(fw, mo + 12) as usize;
    let ghost gmo = mo as int;
    let mut i: usize = 0;
    while i < n
        invariant
            i <= n,
            len == fw@.len(),
            gmo == mo,
            mo + 16 <= len,
            sections_readable(fw@, gmo, i as nat),
            parse_sections(fw@, gmo, i as nat) is Ok,
        decreases n - i,
    {
        if 32 * (i as u128) + 32 > (len - mo - 16) as u128 {
            proof {
                assert(!sections_readable(fw@, gmo, (i + 1) as nat));
                if sections_readable(fw@, gmo, n as nat) {
                    lemma_sections_readable_prefix(fw@, gmo, (i + 1) as nat, n as nat);
                }
            }
            return false;
        }
        let sec_offset = mo + 16 + 32 * i;
        let s = TdvfSection {
            data_offset: read_u32(fw, sec_offset),
            raw_data_size: read_u32(fw, sec_offset + 4),
            memory_address: read_u64(fw, sec_offset + 8),
            memory_data_size: read_u64(fw, sec_offset + 16),
            sec_type: read_u32(fw, sec_offset + 24),
            attributes: read_u32(fw, sec_offset + 28),
        };
        assert(s == section_at(fw@, section_offset(gmo, i as int)));
        if s.memory_address % PAGE_SIZE != 0 || s.memory_data_size < s.raw_data_size as u64
            || s.memory_data_size % PAGE_SIZE != 0 || (s.attributes & ATTRIBUTE_MR_EXTEND != 0
            && s.raw_data_size as u64 > s.memory_data_size) {
            proof {
                assert(section_error(s) is Some);
                assert(sections_readable(fw@, gmo, (i + 1) as nat));
                lemma_sections_readable_after_error(fw@, gmo, (i + 1) as nat, n as nat);
            }
            return true;
        }
        i = i + 1;
    }
    true
}

proof fn lemma_parse_sections_decoded(fw: Seq<u8>, mo: int, n: nat)
    ensures
        parse_sections(fw, mo, n) matches Ok(secs) ==> {
            &&& secs.len() == n
            &&& forall|i: int|
                0 <= i < n ==> #[trigger] secs[i] == section_at(fw, section_offset(mo, i))
                    && section_error(secs[i]) is None
        },
    decreases n,
{
    if n > 0 {
        lemma_parse_sections_decoded(fw, mo, (n - 1) as nat);
        if let Ok(secs) = parse_sections(fw, mo, n) {
            let prev = parse_sections(fw, mo, (n - 1) as nat)->Ok_0;
            assert(secs == prev.push(section_at(fw, section_offset(mo, n - 1))));
            assert forall|i: int| 0 <= i < n implies #[trigger] secs[i] == section_at(
                fw,
                section_offset(mo, i),
            ) && section_error(secs[i]) is None by {
                if i < n - 1 {
                    assert(secs[i] == prev[i]);
                }
            }
        }
    }
}

/// `secs` are the section descriptors that follow the TDVF descriptor at
/// `mo`, decoded little-endian, each page-aligned with no more raw data
/// than memory.
pub open spec fn sections_decoded_at(fw: Seq<u8>, mo: int, secs: Seq<TdvfSection>) -> bool {
    forall|i: int|
        0 <= i < secs.len() ==> {
            &&& #[trigger] secs[i] == section_at(fw, mo + 16 + 32 * i)
            &&& secs[i].memory_address % 4096 == 0
            &&& secs[i].memory_data_size % 4096 == 0
            &&& secs[i].raw_data_size <= secs[i].memory_data_size
        }
}

/// The offset of the TDVF descriptor: where the metadata entry of the GUID
/// table points, when the table has one.
pub open spec fn tdvf_descriptor_offset(fw: Seq<u8>) -> Option<int> {
    match metadata_guid() {
        Ok(mg) => match walk_guid_table(guid_table(fw), tables_len(fw), mg) {
            Ok(Some((a, b))) => Some(metadata_offset(fw, guid_table(fw).subrange(a, b))),
            _ => None,
        },
        Err(_) => None,
    }
}

/// Each parsed section is the 32-byte descriptor at its place after the
/// TDVF descriptor (16 + 32 * i bytes past the descriptor's offset), decoded
/// little-endian, and it is page-aligned with no more raw data than memory.
pub proof fn lemma_parsed_sections_decoded(fw: Seq<u8>)
    ensures
        tdvf_sections(fw) matches Ok(secs) ==> tdvf_descriptor_offset(fw) matches Some(mo) && {
            &&& fw.subrange(mo, mo + 4) == tdvf_signature()
            &&& sections_decoded_at(fw, mo, secs)
        },
{
    if let Ok(secs) = tdvf_sections(fw) {
        let mg = metadata_guid()->Ok_0;
        let (a, b) = walk_guid_table(guid_table(fw), tables_len(fw), mg)->Ok_0->Some_0;
        let mo = metadata_offset(fw, guid_table(fw).subrange(a, b));
        assert(tdvf_descriptor_offset(fw) == Some(mo));
        let n = get_u32(fw, mo + 12) as nat;
        assert(tdvf_sections(fw) == parse_sections(fw, mo, n));
        lemma_parse_sections_decoded(fw, mo, n);
        assert forall|i: int| 0 <= i < secs.len() implies {
            &&& #[trigger] secs[i] == section_at(fw, mo + 16 + 32 * i)
            &&& secs[i].memory_address % 4096 == 0
            &&& secs[i].memory_data_size % 4096 == 0
            &&& secs[i].raw_data_size <= secs[i].memory_data_size
        } by {
            assert(secs[i] == section_at(fw, section_offset(mo, i)));
            assert(section_error(secs[i]) is None);
        }
        assert(sections_decoded_at(fw, mo, secs));
    }
}

impl<'a> Tdvf<'a> {
    /// Parses the TDVF metadata of the firmware image `fw`.
    pub fn parse(fw: &'a [u8]) -> (res: Result<Tdvf<'a>, Error>)
        requires
            tdvf_parse_defined(fw@),
        ensures
            match res {
                Ok(t) => t.firmware() == fw@ && tdvf_sections(fw@) == Ok::<Seq<TdvfSection>, Error>(
                    t.sections(),
                ),
                Err(e) => tdvf_sections(fw@) == Err::<Seq<TdvfSection>, Error>(e),
            },
    {
        let offset = fw.len() - BYTES_AFTER_TABLE_FOOTER;
        let encoded_footer_guid = encode_guid(TABLE_FOOTER_GUID)?;
        let guid = &fw[offset - 16..offset];
        if !bytes_equal(guid, encoded_footer_guid.as_slice()) {
            return Err(Error::InvalidFooterGuid);
        }
        let tables_len = read_u16(fw, offset - 18) as usize;
        if tables_len == 0 || tables_len > offset - 18 {
            return Err(Error::InvalidTablesLength);
        }
        let tables = &fw[offset - 18 - tables_len..offset - 18];
        assert(tables@ == guid_table(fw@));
        let mut off = tables.len();
        let encoded_guid = encode_guid(TDX_METADATA_OFFSET_GUID)?;
        let ghost mg = encoded_guid@;
        let mut found: Option<(usize, usize)> = None;
        while off >= 18
            invariant_except_break
                off <= tables@.len(),
                found is None,
                tables@ == guid_table(fw@),
                metadata_guid() == Ok::<Seq<u8>, Error>(mg),
                mg == encoded_guid@,
                fw@.len() >= 50,
                footer_guid() == Ok::<Seq<u8>, Error>(encoded_footer_guid@),
                fw@.subrange(offset - 16, offset as int) == encoded_footer_guid@,
                offset == footer_end(fw@),
                tables_len == self::tables_len(fw@),
                tables@.len() == tables_len,
                tables_len != 0,
                tables_len <= offset - 18,
                walk_guid_table(tables@, tables@.len() as int, mg) == walk_guid_table(
                    tables@,
                    off as int,
                    mg,
                ),
                !walk_stalls(tables@, off as int, mg),
            ensures
                found matches Some((a, b)) ==> walk_guid_table(tables@, tables@.len() as int, mg)
                    == Ok::<Option<(int, int)>, Error>(Some((a as int, b as int))),
                found is None ==> walk_guid_table(tables@, tables@.len() as int, mg) == Ok::<
                    Option<(int, int)>,
                    Error,
                >(None),
            decreases off,
        {
            let guid = &tables[off - 16..off];
            let entry_len = read_u16(tables, off - 18) as usize;
            assert(entry_len == get_u16(tables@, off - 18) as int);
            if entry_len > off - 18 {
                assert(walk_guid_table(tables@, off as int, mg) == Err::<Option<(int, int)>, Error>(
                    Error::InvalidEntryLength,
                ));
                return Err(Error::InvalidEntryLength);
            }
            if bytes_equal(guid, encoded_guid.as_slice()) {
                assert(tables@.subrange(off - 16, off as int) == mg);
                assert(!(entry_len > off - 18));
                assert(walk_guid_table(tables@, off as int, mg) == Ok::<Option<(int, int)>, Error>(
                    Some(((off - 18 - entry_len) as int, (off - 18) as int)),
                ));
                found = Some((off - 18 - entry_len, off - 18));
                break;
            }
            assert(entry_len != 0);
            assert(walk_guid_table(tables@, off as int, mg) == walk_guid_table(
                tables@,
                off - entry_len,
                mg,
            ));
            off = off - entry_len;
        }
        let (start, end) = match found {
            Some(range) => range,
            None => {
                return Err(Error::MissingTdvfMetadata);
            },
        };
        proof {
            lemma_walk_bounds(tables@, tables@.len() as int, mg);
        }
        let data = &tables[start..end];
        let meta_rel = read_u32(data, data.len() - 4) as usize;
        let tdvf_meta_offset = fw.len() - meta_rel;
        let desc = &fw[tdvf_meta_offset..tdvf_meta_offset + 16];
        if !(desc[0] == 0x54 && desc[1] == 0x44 && desc[2] == 0x56 && desc[3] == 0x46) {
            assert(fw@.subrange(tdvf_meta_offset as int, tdvf_meta_offset + 4) != tdvf_signature())
                by {
                if fw@.subrange(tdvf_meta_offset as int, tdvf_meta_offset + 4)
                    == tdvf_signature() {
                    assert(desc@[0] == fw@[tdvf_meta_offset as int]);
                    assert(fw@.subrange(tdvf_meta_offset as int, tdvf_meta_offset + 4)[0]
                        == fw@[tdvf_meta_offset as int]);
                    assert(fw@.subrange(tdvf_meta_offset as int, tdvf_meta_offset + 4)[1]
                        == fw@[tdvf_meta_offset + 1]);
                    assert(fw@.subrange(tdvf_meta_offset as int, tdvf_meta_offset + 4)[2]
                        == fw@[tdvf_meta_offset + 2]);
                    assert(fw@.subrange(tdvf_meta_offset as int, tdvf_meta_offset + 4)[3]
                        == fw@[tdvf_meta_offset + 3]);
                }
            }
            return Err(Error::InvalidTdvfDescriptor);
        }
        assert(fw@.subrange(tdvf_meta_offset as int, tdvf_meta_offset + 4) =~= tdvf_signature());
        let version = read_u32(fw, tdvf_meta_offset + 8);
        if version != 1 {
            return Err(Error::UnsupportedTdvfVersion);
        }
        let num_sections = read_u32(fw, tdvf_meta_offset + 12) as usize;
        let ghost mo = tdvf_meta_offset as int;
        let ghost n = num_sections as nat;
        assert(tdvf_sections(fw@) == parse_sections(fw@, mo, n));
        let mut sections: Vec<TdvfSection> = Vec::new();
        let fw_len = fw.len();
        let mut i: usize = 0;
        while i < num_sections
            invariant
                i <= num_sections,
                fw_len == fw@.len(),
                tdvf_sections(fw@) == parse_sections(fw@, mo, n),
                n == num_sections,
                mo == tdvf_meta_offset,
                sections_readable(fw@, mo, n),
                parse_sections(fw@, mo, i as nat) == Ok::<Seq<TdvfSection>, Error>(sections@),
            decreases num_sections - i,
        {
            proof {
                lemma_sections_readable_prefix(fw@, mo, (i + 1) as nat, n);
                assert(section_offset(mo, i as int) + 32 <= fw@.len());
            }
            let sec_offset = tdvf_meta_offset + 16 + 32 * i;
            let s = TdvfSection {
                data_offset: read_u32(fw, sec_offset),
                raw_data_size: read_u32(fw, sec_offset + 4),
                memory_address: read_u64(fw, sec_offset + 8),
                memory_data_size: read_u64(fw, sec_offset + 16),
                sec_type: read_u32(fw, sec_offset + 24),
                attributes: read_u32(fw, sec_offset + 28),
            };
            assert(s == section_at(fw@, section_offset(mo, i as int)));
            if s.memory_address % PAGE_SIZE != 0 {
                proof {
                    lemma_parse_sections_err_persists(fw@, mo, (i + 1) as nat, n);
                }
                return Err(Error::SectionAddressNotAligned);
            }
            if s.memory_data_size < s.raw_data_size as u64 {
                proof {
                    lemma_parse_sections_err_persists(fw@, mo, (i + 1) as nat, n);
                }
                return Err(Error::SectionMemorySizeTooSmall);
            }
            if s.memory_data_size % PAGE_SIZE != 0 {
                proof {
                    lemma_parse_sections_err_persists(fw@, mo, (i + 1) as nat, n);
                }
                return Err(Error::SectionMemorySizeNotAligned);
            }
            if s.attributes & ATTRIBUTE_MR_EXTEND != 0 && s.raw_data_size as u64
                > s.memory_data_size {
                proof {
                    lemma_parse_sections_err_persists(fw@, mo, (i + 1) as nat, n);
                }
                return Err(Error::SectionRawDataTooLarge);
            }
            sections.push(s);
            i = i + 1;
        }
        Ok(Tdvf { fw, sections })
    }
}

} // verus!

verus! {

/// Granularity at which page contents are extended into MRTD.
pub const MR_EXTEND_GRANULARITY: usize = 0x100;

/// The ASCII bytes `MEM.PAGE.ADD`.
pub open spec fn mem_page_add_tag() -> Seq<u8> {
    seq![0x4du8, 0x45, 0x4d, 0x2e, 0x50, 0x41, 0x47, 0x45, 0x2e, 0x41, 0x44, 0x44]
}

/// The ASCII bytes `MR.EXTEND`.
pub open spec fn mr_extend_tag() -> Seq<u8> {
    seq![0x4du8, 0x52, 0x2e, 0x45, 0x58, 0x54, 0x45, 0x4e, 0x44]
}

/// `n` zero bytes.
pub open spec fn zeros(n: nat) -> Seq<u8> {
    Seq::new(n, |i: int| 0u8)
}

/// The 128-byte record that the TDX module hashes for an operation: the
/// operation's name padded to 16 bytes, the guest physical address, then zeros.
pub open spec fn operation_record(tag: Seq<u8>, gpa: u64) -> Seq<u8> {
    tag + zeros((16 - tag.len()) as nat) + crate::bytes::u64_le(gpa) + zeros(104)
}

/// Guest physical address of page `page` of section `s`.
pub open spec fn page_gpa(s: TdvfSection, page: int) -> int {
    s.memory_address + page * PAGE_SIZE
}

/// Records for the first `k` 256-byte chunks of page `page` of `s`: each chunk's
/// `MR.EXTEND` record followed by the chunk's bytes in the image.
pub open spec fn chunk_records(fw: Seq<u8>, s: TdvfSection, page: int, k: nat) -> Seq<u8>
    decreases k,
{
    if k == 0 {
        Seq::empty()
    } else {
        let i = k - 1;
        let off = s.data_offset + page * PAGE_SIZE + i * MR_EXTEND_GRANULARITY;
        chunk_records(fw, s, page, (k - 1) as nat) + operation_record(
            mr_extend_tag(),
            (page_gpa(s, page) + i * MR_EXTEND_GRANULARITY) as u64,
        ) + fw.subrange(off, off + MR_EXTEND_GRANULARITY)
    }
}

/// What page `page` of section `s` contributes to the MRTD input: a
/// `MEM.PAGE.ADD` record unless the page is added after boot, and the
/// extension of its sixteen chunks when the section is measured.
pub open spec fn page_records(fw: Seq<u8>, s: TdvfSection, page: int) -> Seq<u8> {
    (if s.attributes & ATTRIBUTE_PAGE_AUG == 0 {
        operation_record(mem_page_add_tag(), page_gpa(s, page) as u64)
    } else {
        Seq::empty()
    }) + (if s.attributes & ATTRIBUTE_MR_EXTEND != 0 {
        chunk_records(fw, s, page, 16)
    } else {
        Seq::empty()
    })
}

/// What the first `n` pages of section `s` contribute.
pub open spec fn section_records(fw: Seq<u8>, s: TdvfSection, n: nat) -> Seq<u8>
    decreases n,
{
    if n == 0 {
        Seq::empty()
    } else {
        section_records(fw, s, (n - 1) as nat) + page_records(fw, s, n - 1)
    }
}

/// Number of pages of a section.
pub open spec fn page_count(s: TdvfSection) -> nat {
    (s.memory_data_size / PAGE_SIZE) as nat
}

/// Everything hashed into MRTD for the sections `secs`, in order.
pub open spec fn mrtd_input(fw: Seq<u8>, secs: Seq<TdvfSection>) -> Seq<u8>
    decreases secs.len(),
{
    if secs.len() == 0 {
        Seq::empty()
    } else {
        mrtd_input(fw, secs.drop_last()) + section_records(fw, secs.last(), page_count(secs.last()))
    }
}

/// The MRTD of a firmware image with sections `secs`.
pub open spec fn mrtd_of(fw: Seq<u8>, secs: Seq<TdvfSection>) -> Seq<u8> {
    crate::digest::sha384(mrtd_input(fw, secs))
}

/// The inputs on which computing MRTD stays in range: every section ends
/// at or below 2^64 (so every page's address fits in 64 bits), and every
/// measured section's pages lie in the image.
pub open spec fn mrtd_defined(fw: Seq<u8>, secs: Seq<TdvfSection>) -> bool {
    forall|j: int|
        0 <= j < secs.len() ==> {
            &&& #[trigger] secs[j].memory_address + secs[j].memory_data_size <= u64::MAX + 1
            &&& secs[j].attributes & ATTRIBUTE_MR_EXTEND != 0 ==> secs[j].data_offset
                + secs[j].memory_data_size <= fw.len()
        }
}

/// Appends the 128-byte record of operation `tag` at `gpa`.
fn push_operation_record(buf: &mut Vec<u8>, extend: bool, gpa: u64)
    ensures
        final(buf)@ == old(buf)@ + operation_record(
            if extend {
                mr_extend_tag()
            } else {
                mem_page_add_tag()
            },
            gpa,
        ),
{
    let ghost start = buf@;
    let ghost tag = if extend {
        mr_extend_tag()
    } else {
        mem_page_add_tag()
    };
    if extend {
        buf.push(0x4d);
        buf.push(0x52);
        buf.push(0x2e);
        buf.push(0x45);
        buf.push(0x58);
        buf.push(0x54);
        buf.push(0x45);
        buf.push(0x4e);
        buf.push(0x44);
        crate::bytes::push_zeros(buf, 7);
    } else {
        buf.push(0x4d);
        buf.push(0x45);
        buf.push(0x4d);
        buf.push(0x2e);
        buf.push(0x50);
        buf.push(0x41);
        buf.push(0x47);
        buf.push(0x45);
        buf.push(0x2e);
        buf.push(0x41);
        buf.push(0x44);
        buf.push(0x44);
        crate::bytes::push_zeros(buf, 4);
    }
    assert(buf@ =~= start + tag + zeros((16 - tag.len()) as nat));
    crate::bytes::push_u64(buf, gpa);
    crate::bytes::push_zeros(buf, 104);
    assert(buf@ =~= start + operation_record(tag, gpa));
}

impl<'a> Tdvf<'a> {
    /// Whether MRTD can be computed: every section's addresses fit in 64
    /// bits and every extended section's pages lie in the image (what
    /// `mrtd` requires).
    pub fn mrtd_is_defined(&self) -> (b: bool)
        ensures
            b == mrtd_defined(self.firmware(), self.sections()),
    {
        let ghost fw = self.fw@;
        let ghost secs = self.sections@;
        let mut j: usize = 0;
        while j < self.sections.len()
            invariant
                j <= secs.len(),
                secs == self.sections@,
                fw == self.fw@,
                forall|k: int|
                    0 <= k < j ==> {
                        &&& #[trigger] secs[k].memory_address + secs[k].memory_data_size
                            <= u64::MAX + 1
                        &&& secs[k].attributes & ATTRIBUTE_MR_EXTEND != 0 ==> secs[k].data_offset
                            + secs[k].memory_data_size <= fw.len()
                    },
            decreases secs.len() - j,
        {
            let s = self.sections[j];
            if s.memory_data_size > 0 && s.memory_address > u64::MAX - (s.memory_data_size - 1) {
                assert(s.memory_address + s.memory_data_size > u64::MAX + 1);
                assert(secs[j as int] == s);
                assert(!(secs[j as int].memory_address + secs[j as int].memory_data_size
                    <= u64::MAX + 1));
                return false;
            }
            if s.attributes & ATTRIBUTE_MR_EXTEND != 0 && (s.memory_data_size > self.fw.len() as u64
                || s.data_offset as u64 > self.fw.len() as u64 - s.memory_data_size) {
                assert(secs[j as int] == s);
                return false;
            }
            j = j + 1;
        }
        true
    }
}

impl<'a> Tdvf<'a> {
    /// Computes MRTD: the hash of the `MEM.PAGE.ADD` and `MR.EXTEND` records
    /// (with the extended chunks) of every page of every section, in order.
    pub fn mrtd(&self) -> (res: Result<Vec<u8>, Error>)
        requires
            mrtd_defined(self.firmware(), self.sections()),
        ensures
            res matches Ok(v) ==> v@.len() == crate::digest::DIGEST_LEN,
            res matches Ok(v) && v@ == mrtd_of(self.firmware(), self.sections()),
    {
        let ghost fw = self.fw@;
        let fw_len = self.fw.len();
        let mut buf: Vec<u8> = Vec::new();
        let mut k: usize = 0;
        while k < self.sections.len()
            invariant
                k <= self.sections@.len(),
                fw == self.fw@,
                fw_len == fw.len(),
                mrtd_defined(fw, self.sections@),
                buf@ == mrtd_input(fw, self.sections@.take(k as int)),
            decreases self.sections@.len() - k,
        {
            let s = self.sections[k];
            assert(s.memory_address + s.memory_data_size <= u64::MAX + 1);
            assert(s.attributes & ATTRIBUTE_MR_EXTEND != 0 ==> s.data_offset + s.memory_data_size
                <= fw.len());
            let num_pages = s.memory_data_size / PAGE_SIZE;
            let ghost before = buf@;
            let mut page: u64 = 0;
            while page < num_pages
                invariant
                    page <= num_pages,
                    num_pages == s.memory_data_size / PAGE_SIZE,
                    fw == self.fw@,
                    fw_len == fw.len(),
                    s.memory_address + s.memory_data_size <= u64::MAX + 1,
                    s.attributes & ATTRIBUTE_MR_EXTEND != 0 ==> s.data_offset + s.memory_data_size
                        <= fw.len(),
                    buf@ == before + section_records(fw, s, page as nat),
                decreases num_pages - page,
            {
                assert(page * PAGE_SIZE + PAGE_SIZE <= s.memory_data_size) by (nonlinear_arith)
                    requires
                        page < num_pages,
                        num_pages == s.memory_data_size / PAGE_SIZE,
                        PAGE_SIZE == 0x1000,
                ;
                let gpa = s.memory_address + page * PAGE_SIZE;
                let ghost page_start = buf@;
                if s.attributes & ATTRIBUTE_PAGE_AUG == 0 {
                    push_operation_record(&mut buf, false, gpa);
                }
                let ghost after_add = buf@;
                if s.attributes & ATTRIBUTE_MR_EXTEND != 0 {
                    let mut i: usize = 0;
                    while i < 16
                        invariant
                            i <= 16,
                            fw == self.fw@,
                            page * PAGE_SIZE + PAGE_SIZE <= s.memory_data_size,
                            s.memory_address + s.memory_data_size <= u64::MAX + 1,
                            s.data_offset + s.memory_data_size <= fw.len(),
                            gpa == page_gpa(s, page as int),
                            fw_len == fw.len(),
                            buf@ == after_add + chunk_records(fw, s, page as int, i as nat),
                        decreases 16 - i,
                    {
                        let ghost prev = buf@;
                        let chunk_gpa = gpa + (i * MR_EXTEND_GRANULARITY) as u64;
                        push_operation_record(&mut buf, true, chunk_gpa);
                        assert(s.data_offset + page * PAGE_SIZE + i * MR_EXTEND_GRANULARITY
                            + MR_EXTEND_GRANULARITY <= fw_len);
                        let chunk_offset = s.data_offset as usize + (page * PAGE_SIZE) as usize + i
                            * MR_EXTEND_GRANULARITY;
                        let chunk = &self.fw[chunk_offset..chunk_offset + MR_EXTEND_GRANULARITY];
                        buf.extend_from_slice(chunk);
                        assert(buf@ =~= after_add + chunk_records(fw, s, page as int, (i + 1) as nat));
                        i = i + 1;
                    }
                }
                assert(buf@ =~= page_start + page_records(fw, s, page as int));
                page = page + 1;
            }
            assert(self.sections@.take(k + 1).drop_last() =~= self.sections@.take(k as int));
            k = k + 1;
        }
        assert(self.sections@.take(self.sections@.len() as int) =~= self.sections@);
        Ok(crate::digest::measure_sha384(buf.as_slice()))
    }
}

/// `x` stands in `big` at offset `o`.
pub open spec fn occurs_at(big: Seq<u8>, o: int, x: Seq<u8>) -> bool {
    0 <= o && o + x.len() <= big.len() && big.subrange(o, o + x.len()) == x
}

proof fn lemma_occurs_left(a: Seq<u8>, b: Seq<u8>, o: int, x: Seq<u8>)
    requires
        occurs_at(a, o, x),
    ensures
        occurs_at(a + b, o, x),
{
    assert((a + b).subrange(o, o + x.len()) =~= a.subrange(o, o + x.len()));
}

proof fn lemma_occurs_right(a: Seq<u8>, b: Seq<u8>, o: int, x: Seq<u8>)
    requires
        occurs_at(b, o, x),
    ensures
        occurs_at(a + b, a.len() + o, x),
{
    assert((a + b).subrange(a.len() + o, a.len() + o + x.len()) =~= b.subrange(o, o + x.len()));
}

/// The `MR.EXTEND` record of chunk `i` of page `page` of `s`, followed by
/// the chunk's bytes in the image.
pub open spec fn extended_chunk(fw: Seq<u8>, s: TdvfSection, page: int, i: int) -> Seq<u8> {
    let c = s.data_offset + page * 0x1000 + i * 0x100;
    operation_record(mr_extend_tag(), (s.memory_address + page * 0x1000 + i * 0x100) as u64)
        + fw.subrange(c, c + 0x100)
}

/// How many bytes each page of `s` adds to the MRTD input: a 128-byte
/// `MEM.PAGE.ADD` record unless the page is added after boot, and sixteen
/// 128-byte `MR.EXTEND` records each with its 256 bytes when the section
/// is measured.
pub open spec fn page_input_len(s: TdvfSection) -> int {
    (if s.attributes & ATTRIBUTE_PAGE_AUG == 0 {
        0x80int
    } else {
        0int
    }) + (if s.attributes & ATTRIBUTE_MR_EXTEND != 0 {
        16 * 0x180int
    } else {
        0int
    })
}

/// How many bytes the sections `secs` add to the MRTD input.
pub open spec fn sections_input_len(secs: Seq<TdvfSection>) -> int
    decreases secs.len(),
{
    if secs.len() == 0 {
        0
    } else {
        sections_input_len(secs.drop_last()) + (secs.last().memory_data_size / 0x1000)
            * page_input_len(secs.last())
    }
}

proof fn lemma_operation_record_len(tag: Seq<u8>, gpa: u64)
    requires
        tag.len() <= 16,
    ensures
        operation_record(tag, gpa).len() == 0x80,
{
    assert(crate::bytes::u64_le(gpa).len() == 8);
}

proof fn lemma_chunk_records_len(fw: Seq<u8>, s: TdvfSection, page: int, n: nat)
    requires
        0 <= page,
        s.data_offset + page * 0x1000 + n * 0x100 <= fw.len(),
    ensures
        chunk_records(fw, s, page, n).len() == n * 0x180,
    decreases n,
{
    if n > 0 {
        lemma_chunk_records_len(fw, s, page, (n - 1) as nat);
        lemma_operation_record_len(
            mr_extend_tag(),
            (page_gpa(s, page) + (n - 1) * MR_EXTEND_GRANULARITY) as u64,
        );
        assert(0 <= page * 0x1000) by (nonlinear_arith)
            requires
                0 <= page,
        ;
    }
}

proof fn lemma_page_records_len(fw: Seq<u8>, s: TdvfSection, p: int)
    requires
        0 <= p,
        s.attributes & ATTRIBUTE_MR_EXTEND != 0 ==> s.data_offset + (p + 1) * 0x1000 <= fw.len(),
    ensures
        page_records(fw, s, p).len() == page_input_len(s),
{
    lemma_operation_record_len(mem_page_add_tag(), page_gpa(s, p) as u64);
    if s.attributes & ATTRIBUTE_MR_EXTEND != 0 {
        lemma_chunk_records_len(fw, s, p, 16);
    }
}

proof fn lemma_section_records_len(fw: Seq<u8>, s: TdvfSection, n: nat)
    requires
        s.attributes & ATTRIBUTE_MR_EXTEND != 0 ==> s.data_offset + n * 0x1000 <= fw.len(),
    ensures
        section_records(fw, s, n).len() == n * page_input_len(s),
    decreases n,
{
    if n > 0 {
        lemma_section_records_len(fw, s, (n - 1) as nat);
        lemma_page_records_len(fw, s, n - 1);
        let l = page_input_len(s);
        let m = (n - 1) as nat;
        assert(section_records(fw, s, n) == section_records(fw, s, m) + page_records(fw, s, n - 1));
        assert(section_records(fw, s, m).len() == m * l);
        assert(page_records(fw, s, n - 1).len() == l);
        assert(n * l == m * l + l) by (nonlinear_arith)
            requires
                m == n - 1,
        ;
        assert(section_records(fw, s, n).len() == n * l);
    } else {
        assert(section_records(fw, s, n).len() == 0);
        assert(n * page_input_len(s) == 0);
    }
}

proof fn lemma_page_count_fits(s: TdvfSection)
    ensures
        (s.memory_data_size / 0x1000) * 0x1000 <= s.memory_data_size,
{
    let m = s.memory_data_size as int;
    assert((m / 0x1000) * 0x1000 <= m) by (nonlinear_arith);
}

/// The MRTD input is as long as its sections' pages make it: each page of
/// a section adds `page_input_len` bytes.
pub proof fn lemma_mrtd_input_len(fw: Seq<u8>, secs: Seq<TdvfSection>)
    requires
        mrtd_defined(fw, secs),
    ensures
        mrtd_input(fw, secs).len() == sections_input_len(secs),
    decreases secs.len(),
{
    if secs.len() > 0 {
        let d = secs.drop_last();
        assert(mrtd_defined(fw, d)) by {
            assert forall|j: int| 0 <= j < d.len() implies {
                &&& #[trigger] d[j].memory_address + d[j].memory_data_size <= u64::MAX + 1
                &&& d[j].attributes & ATTRIBUTE_MR_EXTEND != 0 ==> d[j].data_offset
                    + d[j].memory_data_size <= fw.len()
            } by {
                assert(d[j] == secs[j]);
                assert(secs[j].memory_address + secs[j].memory_data_size <= u64::MAX + 1);
            }
        }
        lemma_mrtd_input_len(fw, d);
        let l = secs.last();
        assert(l == secs[secs.len() - 1]);
        assert(secs[secs.len() - 1].memory_address + secs[secs.len() - 1].memory_data_size
            <= u64::MAX + 1);
        lemma_page_count_fits(l);
        lemma_section_records_len(fw, l, page_count(l));
    }
}

proof fn lemma_chunk_occurs(fw: Seq<u8>, s: TdvfSection, page: int, n: nat, i: int)
    requires
        0 <= i < n,
        0 <= page,
        s.data_offset + page * 0x1000 + n * 0x100 <= fw.len(),
    ensures
        occurs_at(chunk_records(fw, s, page, n), i * 0x180, extended_chunk(fw, s, page, i)),
    decreases n,
{
    let x = extended_chunk(fw, s, page, i);
    let prev = chunk_records(fw, s, page, (n - 1) as nat);
    if i == n - 1 {
        let c = s.data_offset + page * 0x1000 + i * 0x100;
        let rec = operation_record(
            mr_extend_tag(),
            (page_gpa(s, page) + i * MR_EXTEND_GRANULARITY) as u64,
        );
        assert(x == rec + fw.subrange(c, c + 0x100));
        assert(chunk_records(fw, s, page, n) =~= prev + x);
        assert(x.subrange(0, x.len() as int) =~= x);
        lemma_chunk_records_len(fw, s, page, (n - 1) as nat);
        lemma_occurs_right(prev, x, 0, x);
    } else {
        lemma_chunk_occurs(fw, s, page, (n - 1) as nat, i);
        let whole = chunk_records(fw, s, page, n);
        let tail = whole.subrange(prev.len() as int, whole.len() as int);
        assert(whole =~= prev + tail);
        lemma_occurs_left(prev, tail, i * 0x180, x);
    }
}

proof fn lemma_section_occurs(fw: Seq<u8>, s: TdvfSection, n: nat, p: int, o: int, x: Seq<u8>)
    requires
        0 <= p < n,
        s.attributes & ATTRIBUTE_MR_EXTEND != 0 ==> s.data_offset + n * 0x1000 <= fw.len(),
        occurs_at(page_records(fw, s, p), o, x),
    ensures
        occurs_at(section_records(fw, s, n), p * page_input_len(s) + o, x),
    decreases n,
{
    let prev = section_records(fw, s, (n - 1) as nat);
    assert(section_records(fw, s, n) == prev + page_records(fw, s, n - 1));
    if p == n - 1 {
        lemma_section_records_len(fw, s, (n - 1) as nat);
        lemma_occurs_right(prev, page_records(fw, s, p), o, x);
    } else {
        lemma_section_occurs(fw, s, (n - 1) as nat, p, o, x);
        lemma_occurs_left(prev, page_records(fw, s, n - 1), p * page_input_len(s) + o, x);
    }
}

proof fn lemma_input_occurs(fw: Seq<u8>, secs: Seq<TdvfSection>, k: int, o: int, x: Seq<u8>)
    requires
        mrtd_defined(fw, secs),
        0 <= k < secs.len(),
        occurs_at(section_records(fw, secs[k], page_count(secs[k])), o, x),
    ensures
        occurs_at(mrtd_input(fw, secs), sections_input_len(secs.take(k)) + o, x),
    decreases secs.len(),
{
    let d = secs.drop_last();
    let prev = mrtd_input(fw, d);
    let last = section_records(fw, secs.last(), page_count(secs.last()));
    assert(mrtd_input(fw, secs) == prev + last);
    assert(mrtd_defined(fw, d)) by {
        assert forall|j: int| 0 <= j < d.len() implies {
            &&& #[trigger] d[j].memory_address + d[j].memory_data_size <= u64::MAX + 1
            &&& d[j].attributes & ATTRIBUTE_MR_EXTEND != 0 ==> d[j].data_offset
                + d[j].memory_data_size <= fw.len()
        } by {
            assert(d[j] == secs[j]);
            assert(secs[j].memory_address + secs[j].memory_data_size <= u64::MAX + 1);
        }
    }
    if k == secs.len() - 1 {
        assert(secs.last() == secs[k]);
        assert(secs.take(k) =~= d);
        lemma_mrtd_input_len(fw, d);
        lemma_occurs_right(prev, last, o, x);
    } else {
        assert(d[k] == secs[k]);
        assert(d.take(k) =~= secs.take(k));
        lemma_input_occurs(fw, d, k, o, x);
        lemma_occurs_left(prev, last, sections_input_len(secs.take(k)) + o, x);
    }
}

/// Each page of a section that is not added after boot is announced by
/// the `MEM.PAGE.ADD` record of its address `memory_address + p * 4096`,
/// at the start of the page's part of the MRTD input.
#[verifier::spinoff_prover]
#[verifier::rlimit(40)]
pub proof fn lemma_mrtd_adds_each_page(fw: Seq<u8>, secs: Seq<TdvfSection>, k: int, p: int)
    requires
        mrtd_defined(fw, secs),
        0 <= k < secs.len(),
        secs[k].attributes & ATTRIBUTE_PAGE_AUG == 0,
        0 <= p < secs[k].memory_data_size / 0x1000,
    ensures
        ({
            let s = secs[k];
            let o = sections_input_len(secs.take(k)) + p * page_input_len(s);
            &&& 0 <= o
            &&& o + 0x80 <= mrtd_input(fw, secs).len()
            &&& mrtd_input(fw, secs).subrange(o, o + 0x80) == operation_record(
                mem_page_add_tag(),
                (s.memory_address + p * 0x1000) as u64,
            )
        }),
{
    let s = secs[k];
    assert(secs[k].memory_address + secs[k].memory_data_size <= u64::MAX + 1);
    lemma_page_count_fits(s);
    assert((p + 1) * 0x1000 <= s.memory_data_size) by (nonlinear_arith)
        requires
            0 <= p < s.memory_data_size / 0x1000,
    ;
    let add = operation_record(mem_page_add_tag(), page_gpa(s, p) as u64);
    lemma_operation_record_len(mem_page_add_tag(), page_gpa(s, p) as u64);
    let ext: Seq<u8> = if s.attributes & ATTRIBUTE_MR_EXTEND != 0 {
        chunk_records(fw, s, p, 16)
    } else {
        Seq::empty()
    };
    assert(page_records(fw, s, p) == add + ext);
    assert(add.subrange(0, 0x80) =~= add);
    lemma_occurs_left(add, ext, 0, add);
    assert(p < page_count(s));
    assert(s.attributes & ATTRIBUTE_MR_EXTEND != 0 ==> s.data_offset + page_count(s) * 0x1000
        <= fw.len());
    lemma_section_occurs(fw, s, page_count(s), p, 0, add);
    lemma_input_occurs(fw, secs, k, p * page_input_len(s), add);
    assert(0 <= sections_input_len(secs.take(k)) + p * page_input_len(s));
}

/// MRTD extends each page of a measured section with that page's own
/// bytes, in order: the sections' records follow one another, each page of
/// a section adds `page_input_len` bytes, and chunk `i` of page `p` of a
/// section with `MR_EXTEND` is the `MR.EXTEND` record of the chunk's address
/// `memory_address + p * 4096 + i * 256` followed by the 256 image bytes at
/// `data_offset + p * 4096 + i * 256`, after the page's `MEM.PAGE.ADD`
/// record if it has one.
#[verifier::spinoff_prover]
#[verifier::rlimit(40)]
pub proof fn lemma_mrtd_extends_own_page_bytes(
    fw: Seq<u8>,
    secs: Seq<TdvfSection>,
    k: int,
    p: int,
    i: int,
)
    requires
        mrtd_defined(fw, secs),
        0 <= k < secs.len(),
        secs[k].attributes & ATTRIBUTE_MR_EXTEND != 0,
        0 <= p < secs[k].memory_data_size / 0x1000,
        0 <= i < 16,
    ensures
        ({
            let s = secs[k];
            let c = s.data_offset + p * 0x1000 + i * 0x100;
            let o = sections_input_len(secs.take(k)) + p * page_input_len(s) + (if s.attributes
                & ATTRIBUTE_PAGE_AUG == 0 {
                0x80int
            } else {
                0int
            }) + i * 0x180;
            &&& 0 <= o
            &&& o + 0x180 <= mrtd_input(fw, secs).len()
            &&& mrtd_input(fw, secs).subrange(o, o + 0x80) == operation_record(
                mr_extend_tag(),
                (s.memory_address + p * 0x1000 + i * 0x100) as u64,
            )
            &&& mrtd_input(fw, secs).subrange(o + 0x80, o + 0x180) == fw.subrange(c, c + 0x100)
        }),
{
    let s = secs[k];
    let c = s.data_offset + p * 0x1000 + i * 0x100;
    assert(secs[k].memory_address + secs[k].memory_data_size <= u64::MAX + 1);
    assert(s.data_offset + s.memory_data_size <= fw.len());
    lemma_page_count_fits(s);
    assert((p + 1) * 0x1000 <= s.memory_data_size) by (nonlinear_arith)
        requires
            0 <= p < s.memory_data_size / 0x1000,
    ;
    assert(c + 0x100 <= fw.len()) by (nonlinear_arith)
        requires
            c == s.data_offset + p * 0x1000 + i * 0x100,
            0 <= i < 16,
            (p + 1) * 0x1000 <= s.memory_data_size,
            s.data_offset + s.memory_data_size <= fw.len(),
    ;
    assert(0 <= c) by (nonlinear_arith)
        requires
            c == s.data_offset + p * 0x1000 + i * 0x100,
            0 <= i,
            0 <= p,
    ;
    let rec = operation_record(mr_extend_tag(), (s.memory_address + p * 0x1000 + i * 0x100) as u64);
    lemma_operation_record_len(mr_extend_tag(), (s.memory_address + p * 0x1000 + i * 0x100) as u64);
    let x = extended_chunk(fw, s, p, i);
    assert(fw.subrange(c, c + 0x100).len() == 0x100);
    lemma_chunk_occurs(fw, s, p, 16, i);
    let add = if s.attributes & ATTRIBUTE_PAGE_AUG == 0 {
        operation_record(mem_page_add_tag(), page_gpa(s, p) as u64)
    } else {
        Seq::empty()
    };
    lemma_operation_record_len(mem_page_add_tag(), page_gpa(s, p) as u64);
    assert(page_records(fw, s, p) == add + chunk_records(fw, s, p, 16));
    lemma_occurs_right(add, chunk_records(fw, s, p, 16), i * 0x180, x);
    assert(p < page_count(s));
    assert(s.data_offset + page_count(s) * 0x1000 <= fw.len());
    lemma_section_occurs(fw, s, page_count(s), p, add.len() + i * 0x180, x);
    lemma_input_occurs(fw, secs, k, p * page_input_len(s) + add.len() + i * 0x180, x);
    let o = sections_input_len(secs.take(k)) + p * page_input_len(s) + add.len() + i * 0x180;
    let m = mrtd_input(fw, secs);
    assert(m.subrange(o, o + 0x180) == x);
    assert(m.subrange(o, o + 0x80) =~= x.subrange(0, 0x80));
    assert(x.subrange(0, 0x80) =~= rec);
    assert(m.subrange(o + 0x80, o + 0x180) =~= x.subrange(0x80, 0x180));
    assert(x.subrange(0x80, 0x180) =~= fw.subrange(c, c + 0x100));
}

} // verus!

verus! {

/// Sections of these types are accepted memory when the TD starts.
pub open spec fn is_accepted_type(t: u32) -> bool {
    t == TDVF_SECTION_TD_HOB || t == TDVF_SECTION_TEMP_MEM
}

/// The memory ranges after accepting, in order, every TD-HOB and
/// temporary-memory section of `secs` within memory of `memory_size` bytes.
pub open spec fn accepted_memory(memory_size: u64, secs: Seq<TdvfSection>) -> Seq<
    crate::memory::MemRange,
>
    decreases secs.len(),
{
    if secs.len() == 0 {
        seq![(false, 0u64, memory_size)]
    } else {
        let prev = accepted_memory(memory_size, secs.drop_last());
        let s = secs.last();
        if is_accepted_type(s.sec_type) {
            crate::memory::accept_ranges(
                prev,
                s.memory_address,
                (s.memory_address + s.memory_data_size) as u64,
            )
        } else {
            prev
        }
    }
}

/// The address of the TD HOB: that of the last TD-HOB section, or 0x809000.
pub open spec fn hob_base(secs: Seq<TdvfSection>) -> u64
    decreases secs.len(),
{
    if secs.len() == 0 {
        0x809000
    } else if secs.last().sec_type == TDVF_SECTION_TD_HOB {
        secs.last().memory_address
    } else {
        hob_base(secs.drop_last())
    }
}

/// A 48-byte resource descriptor HOB for `[start, start + length)`.
pub open spec fn resource_hob(resource_type: u8, start: u64, length: u64) -> Seq<u8> {
    seq![0x03u8, 0x00] + crate::bytes::u16_le(48) + zeros(4) + zeros(16) + seq![resource_type]
        + zeros(3) + crate::bytes::u32_le(7) + crate::bytes::u64_le(start) + crate::bytes::u64_le(
        length,
    )
}

/// Resource HOBs for `ranges`: system memory (type 0) when accepted,
/// unaccepted memory (type 7) otherwise.
pub open spec fn resource_hobs(ranges: Seq<crate::memory::MemRange>) -> Seq<u8>
    decreases ranges.len(),
{
    if ranges.len() == 0 {
        Seq::empty()
    } else {
        let r = ranges.last();
        resource_hobs(ranges.drop_last()) + resource_hob(
            if r.0 {
                0x00
            } else {
                0x07
            },
            r.1,
            (r.2 - r.1) as u64,
        )
    }
}

/// The HOBs for the last range, which is split around the 32-bit PCI hole
/// (2 GiB to 4 GiB) when memory reaches 0xB0000000 bytes.
pub open spec fn tail_hobs(last: crate::memory::MemRange, memory_size: u64) -> Seq<u8> {
    if memory_size >= 0xB0000000 {
        resource_hob(0x07, last.1, (0x80000000 - last.1) as u64) + resource_hob(
            0x07,
            0x100000000,
            (last.2 - 0x80000000) as u64,
        )
    } else {
        resource_hob(0x07, last.1, (last.2 - last.1) as u64)
    }
}

/// The resource HOBs that follow the PHIT header.
pub open spec fn hob_body(memory_size: u64, secs: Seq<TdvfSection>) -> Seq<u8> {
    let r = accepted_memory(memory_size, secs);
    resource_hobs(r.drop_last()) + tail_hobs(r.last(), memory_size)
}

/// The 56-byte PHIT HOB, whose last field is the end of the HOB list.
pub open spec fn phit_hob(end_of_hob_list: u64) -> Seq<u8> {
    seq![0x01u8, 0x00] + crate::bytes::u16_le(56) + zeros(4) + crate::bytes::u32_le(9) + zeros(4)
        + zeros(32) + crate::bytes::u64_le(end_of_hob_list)
}

/// The TD hand-off block for `memory_size` bytes of memory.
pub open spec fn td_hob(memory_size: u64, secs: Seq<TdvfSection>) -> Seq<u8> {
    let body = hob_body(memory_size, secs);
    phit_hob((hob_base(secs) + 56 + body.len() + 8) as u64) + body
}

/// The inputs on which building the TD HOB stays in range: accepted
/// sections end within 64 bits, the last range spans the 2 GiB line when
/// memory reaches 0xB0000000, and the end of the HOB list fits in 64 bits.
pub open spec fn td_hob_defined(memory_size: u64, secs: Seq<TdvfSection>) -> bool {
    let r = accepted_memory(memory_size, secs);
    &&& forall|j: int|
        0 <= j < secs.len() && is_accepted_type(#[trigger] secs[j].sec_type) ==> secs[j].memory_address
            + secs[j].memory_data_size <= u64::MAX
    &&& memory_size >= 0xB0000000 ==> r.last().1 <= 0x80000000 <= r.last().2
    &&& hob_base(secs) + 56 + hob_body(memory_size, secs).len() + 8 <= u64::MAX
}

proof fn lemma_accepted_memory_wf(memory_size: u64, secs: Seq<TdvfSection>)
    ensures
        crate::memory::ranges_well_formed(accepted_memory(memory_size, secs)),
        accepted_memory(memory_size, secs).len() >= 1,
    decreases secs.len(),
{
    if secs.len() > 0 {
        lemma_accepted_memory_wf(memory_size, secs.drop_last());
        let prev = accepted_memory(memory_size, secs.drop_last());
        let s = secs.last();
        let e = (s.memory_address + s.memory_data_size) as u64;
        if is_accepted_type(s.sec_type) && s.memory_address < e {
            crate::memory::lemma_accept_ranges(prev, s.memory_address, e);
        }
    }
}

/// Section `s` is accepted when the TD starts and holds address `a`.
pub open spec fn accepts_address(s: TdvfSection, a: int) -> bool {
    is_accepted_type(s.sec_type) && s.memory_address <= a < s.memory_address + s.memory_data_size
}

/// The memory ranges that the TD HOB describes hold exactly the guest's
/// memory `[0, memory_size)` and the memory of the TD-HOB and
/// temporary-memory sections: accepting sections loses no memory.
pub proof fn lemma_accepted_memory_covers(memory_size: u64, secs: Seq<TdvfSection>, a: int)
    requires
        forall|j: int|
            0 <= j < secs.len() && is_accepted_type(#[trigger] secs[j].sec_type) ==> secs[j].memory_address
                + secs[j].memory_data_size <= u64::MAX,
    ensures
        crate::memory::covers(accepted_memory(memory_size, secs), a) <==> (0 <= a < memory_size
            || exists|j: int| 0 <= j < secs.len() && accepts_address(#[trigger] secs[j], a)),
    decreases secs.len(),
{
    if secs.len() == 0 {
        let r = seq![(false, 0u64, memory_size)];
        if 0 <= a < memory_size {
            assert(r[0].1 <= a && a < r[0].2);
        }
    } else {
        let p = secs.drop_last();
        let s = secs.last();
        assert forall|j: int|
            0 <= j < p.len() && is_accepted_type(#[trigger] p[j].sec_type) implies p[j].memory_address
            + p[j].memory_data_size <= u64::MAX by {
            assert(p[j] == secs[j]);
        }
        lemma_accepted_memory_covers(memory_size, p, a);
        let end = (s.memory_address + s.memory_data_size) as u64;
        let prev = accepted_memory(memory_size, p);
        if is_accepted_type(s.sec_type) {
            assert(secs[secs.len() - 1] == s);
            crate::memory::lemma_accept_covers(prev, s.memory_address, end, a);
        }
        if exists|j: int| 0 <= j < p.len() && accepts_address(#[trigger] p[j], a) {
            let j = choose|j: int| 0 <= j < p.len() && accepts_address(#[trigger] p[j], a);
            assert(secs[j] == p[j]);
        }
        if exists|j: int| 0 <= j < secs.len() && accepts_address(#[trigger] secs[j], a) {
            let j = choose|j: int| 0 <= j < secs.len() && accepts_address(#[trigger] secs[j], a);
            if j < p.len() {
                assert(p[j] == secs[j]);
            } else {
                assert(secs[j] == s);
            }
        }
    }
}

/// Appends a resource descriptor HOB.
fn push_resource_hob(buf: &mut Vec<u8>, resource_type: u8, start: u64, length: u64)
    ensures
        final(buf)@ == old(buf)@ + resource_hob(resource_type, start, length),
{
    let ghost before = buf@;
    buf.push(0x03);
    buf.push(0x00);
    crate::bytes::push_u16(buf, 48);
    crate::bytes::push_zeros(buf, 4);
    crate::bytes::push_zeros(buf, 16);
    buf.push(resource_type);
    crate::bytes::push_zeros(buf, 3);
    crate::bytes::push_u32(buf, 7);
    crate::bytes::push_u64(buf, start);
    crate::bytes::push_u64(buf, length);
    assert(buf@ =~= before + resource_hob(resource_type, start, length));
}

/// The first section of type `t`, in listing order.
pub open spec fn first_of_type(secs: Seq<TdvfSection>, t: u32) -> Option<TdvfSection>
    decreases secs.len(),
{
    if secs.len() == 0 {
        None
    } else if secs[0].sec_type == t {
        Some(secs[0])
    } else {
        first_of_type(secs.drop_first(), t)
    }
}

/// The digest of the configuration firmware volume, or why there is none.
pub open spec fn cfv_digest(fw: Seq<u8>, secs: Seq<TdvfSection>) -> Result<Seq<u8>, Error> {
    match first_of_type(secs, TDVF_SECTION_TD_CFV) {
        None => Err(Error::MissingCfv),
        Some(s) => if s.data_offset + s.raw_data_size > fw.len() {
            Err(Error::CfvBeyondFirmware)
        } else {
            Ok(
                crate::digest::sha384(
                    fw.subrange(s.data_offset as int, s.data_offset + s.raw_data_size),
                ),
            )
        },
    }
}

proof fn lemma_resource_hobs_len(ranges: Seq<crate::memory::MemRange>)
    ensures
        resource_hobs(ranges).len() == 48 * ranges.len(),
    decreases ranges.len(),
{
    if ranges.len() > 0 {
        lemma_resource_hobs_len(ranges.drop_last());
    }
}

proof fn lemma_get_u64_occurs(big: Seq<u8>, o: int, x: Seq<u8>)
    requires
        occurs_at(big, o, x),
        x.len() >= 8,
    ensures
        crate::bytes::get_u64(big, o) == crate::bytes::get_u64(x, 0),
{
    let w = big.subrange(o, o + x.len());
    assert(w == x);
    assert(big[o] == w[0] && big[o + 1] == w[1] && big[o + 2] == w[2] && big[o + 3] == w[3]);
    assert(big[o + 4] == w[4] && big[o + 5] == w[5] && big[o + 6] == w[6] && big[o + 7] == w[7]);
}

proof fn lemma_byte_occurs(big: Seq<u8>, o: int, x: Seq<u8>, i: int)
    requires
        occurs_at(big, o, x),
        0 <= i < x.len(),
    ensures
        big[o + i] == x[i],
{
    assert(big.subrange(o, o + x.len())[i] == big[o + i]);
}

/// The fields of a resource HOB: type 3 at byte 0, the resource type at
/// byte 24, the start at byte 32 and the length at byte 40.
proof fn lemma_resource_hob_fields(big: Seq<u8>, o: int, t: u8, start: u64, length: u64)
    requires
        occurs_at(big, o, resource_hob(t, start, length)),
    ensures
        big[o] == 3,
        big[o + 24] == t,
        crate::bytes::get_u64(big, o + 32) == start,
        crate::bytes::get_u64(big, o + 40) == length,
{
    let h = resource_hob(t, start, length);
    let head = seq![0x03u8, 0x00] + crate::bytes::u16_le(48) + zeros(4) + zeros(16) + seq![t]
        + zeros(3) + crate::bytes::u32_le(7);
    crate::bytes::lemma_u64_le_roundtrip(start);
    crate::bytes::lemma_u64_le_roundtrip(length);
    assert(head.len() == 32);
    assert(h == head + crate::bytes::u64_le(start) + crate::bytes::u64_le(length));
    assert(h.len() == 48);
    lemma_byte_occurs(big, o, h, 0);
    lemma_byte_occurs(big, o, h, 24);
    assert(h[24] == t);
    assert(h.subrange(32, 40) =~= crate::bytes::u64_le(start));
    assert(h.subrange(40, 48) =~= crate::bytes::u64_le(length));
    assert(occurs_at(h, 32, crate::bytes::u64_le(start)));
    assert(occurs_at(h, 40, crate::bytes::u64_le(length)));
    assert(big.subrange(o + 32, o + 40) =~= h.subrange(32, 40));
    assert(big.subrange(o + 40, o + 48) =~= h.subrange(40, 48));
    lemma_get_u64_occurs(big, o + 32, crate::bytes::u64_le(start));
    lemma_get_u64_occurs(big, o + 40, crate::bytes::u64_le(length));
}

proof fn lemma_resource_hobs_at(ranges: Seq<crate::memory::MemRange>, j: int)
    requires
        0 <= j < ranges.len(),
    ensures
        occurs_at(
            resource_hobs(ranges),
            48 * j,
            resource_hob(
                if ranges[j].0 {
                    0x00
                } else {
                    0x07
                },
                ranges[j].1,
                (ranges[j].2 - ranges[j].1) as u64,
            ),
        ),
    decreases ranges.len(),
{
    let prev = ranges.drop_last();
    lemma_resource_hobs_len(prev);
    let r = ranges.last();
    let last = resource_hob(
        if r.0 {
            0x00
        } else {
            0x07
        },
        r.1,
        (r.2 - r.1) as u64,
    );
    assert(resource_hobs(ranges) == resource_hobs(prev) + last);
    if j == ranges.len() - 1 {
        assert(last.subrange(0, last.len() as int) =~= last);
        lemma_occurs_right(resource_hobs(prev), last, 0, last);
    } else {
        lemma_resource_hobs_at(prev, j);
        assert(prev[j] == ranges[j]);
        lemma_occurs_left(resource_hobs(prev), last, 48 * j, resource_hob(
            if ranges[j].0 {
                0x00
            } else {
                0x07
            },
            ranges[j].1,
            (ranges[j].2 - ranges[j].1) as u64,
        ));
    }
}

/// The resource HOB at `o` describes range `x`: HOB type 3, resource type
/// 0 (system memory) when accepted and 7 (unaccepted) otherwise, then the
/// range's start and length.
pub open spec fn resource_hob_at(h: Seq<u8>, o: int, x: crate::memory::MemRange) -> bool {
    &&& h[o] == 3
    &&& h[o + 24] == if x.0 {
        0u8
    } else {
        7u8
    }
    &&& crate::bytes::get_u64(h, o + 32) == x.1
    &&& crate::bytes::get_u64(h, o + 40) == x.2 - x.1
}

proof fn lemma_td_hob_range_hob(memory_size: u64, secs: Seq<TdvfSection>, j: int)
    requires
        0 <= j < accepted_memory(memory_size, secs).len() - 1,
    ensures
        resource_hob_at(td_hob(memory_size, secs), 56 + 48 * j, accepted_memory(memory_size, secs)[j]),
{
    let r = accepted_memory(memory_size, secs);
    lemma_accepted_memory_wf(memory_size, secs);
    let body = hob_body(memory_size, secs);
    let d = r.drop_last();
    let rs = resource_hobs(d);
    let tail = tail_hobs(r.last(), memory_size);
    let end = (hob_base(secs) + 56 + body.len() + 8) as u64;
    let ph = phit_hob(end);
    let h = td_hob(memory_size, secs);
    crate::bytes::lemma_u64_le_roundtrip(end);
    assert(ph.len() == 56);
    assert(h == ph + body);
    assert(body == rs + tail);
    assert(d[j] == r[j]);
    assert(r[j].1 <= r[j].2);
    lemma_resource_hobs_at(d, j);
    let t: u8 = if d[j].0 {
        0x00
    } else {
        0x07
    };
    let x = resource_hob(t, d[j].1, (d[j].2 - d[j].1) as u64);
    lemma_occurs_left(rs, tail, 48 * j, x);
    lemma_occurs_right(ph, body, 48 * j, x);
    lemma_resource_hob_fields(h, 56 + 48 * j, t, d[j].1, (d[j].2 - d[j].1) as u64);
}

/// The TD HOB: a 56-byte PHIT header whose end-of-HOB-list field (byte 48)
/// is the address just past the HOB list placed at the HOB base, then one
/// 48-byte resource HOB per memory range in order (system memory, type 0,
/// for accepted ranges; unaccepted memory, type 7, otherwise), the last
/// range split around the 2 GiB to 4 GiB hole when memory reaches
/// 0xB0000000 bytes.
#[verifier::spinoff_prover]
#[verifier::rlimit(40)]
pub proof fn lemma_td_hob_layout(memory_size: u64, secs: Seq<TdvfSection>)
    requires
        td_hob_defined(memory_size, secs),
    ensures
        ({
            let h = td_hob(memory_size, secs);
            let r = accepted_memory(memory_size, secs);
            let m = r.len() - 1;
            let split = memory_size >= 0xB0000000;
            let o = 56 + 48 * m;
            let last = r.last();
            &&& h.len() == 56 + 48 * (m + if split {
                2int
            } else {
                1int
            })
            &&& h[0] == 1
            &&& crate::bytes::get_u64(h, 48) == hob_base(secs) + h.len() + 8
            &&& forall|j: int| 0 <= j < m ==> #[trigger] resource_hob_at(h, 56 + 48 * j, r[j])
            &&& h[o + 24] == 7
            &&& crate::bytes::get_u64(h, o + 32) == last.1
            &&& split ==> {
                &&& crate::bytes::get_u64(h, o + 40) == 0x80000000 - last.1
                &&& h[o + 72] == 7
                &&& crate::bytes::get_u64(h, o + 80) == 0x100000000u64
                &&& crate::bytes::get_u64(h, o + 88) == last.2 - 0x80000000
            }
            &&& !split ==> crate::bytes::get_u64(h, o + 40) == last.2 - last.1
        }),
{
    let r = accepted_memory(memory_size, secs);
    lemma_accepted_memory_wf(memory_size, secs);
    let m = r.len() - 1;
    let split = memory_size >= 0xB0000000;
    let body = hob_body(memory_size, secs);
    let rs = resource_hobs(r.drop_last());
    let tail = tail_hobs(r.last(), memory_size);
    lemma_resource_hobs_len(r.drop_last());
    let end = (hob_base(secs) + 56 + body.len() + 8) as u64;
    let ph = phit_hob(end);
    let h = td_hob(memory_size, secs);
    crate::bytes::lemma_u64_le_roundtrip(end);
    assert(ph.len() == 56);
    assert(h == ph + body);
    assert(body == rs + tail);
    let last = r.last();
    let t1 = if split {
        resource_hob(0x07, last.1, (0x80000000 - last.1) as u64)
    } else {
        resource_hob(0x07, last.1, (last.2 - last.1) as u64)
    };
    let t2: Seq<u8> = if split {
        resource_hob(0x07, 0x100000000, (last.2 - 0x80000000) as u64)
    } else {
        Seq::empty()
    };
    assert(tail =~= t1 + t2);
    assert(t1.len() == 48);
    assert(t2.len() == if split {
        48int
    } else {
        0int
    });
    assert(h.len() == 56 + 48 * m + 48 + t2.len());
    // The PHIT header.
    assert(h[0] == ph[0]);
    assert(ph.subrange(48, 56) =~= crate::bytes::u64_le(end));
    assert(h.subrange(48, 56) =~= ph.subrange(48, 56));
    lemma_get_u64_occurs(h, 48, crate::bytes::u64_le(end));
    assert(r.last() == r[m]);
    assert(r[m].1 <= r[m].2);
    // The ranges before the last.
    assert forall|j: int| 0 <= j < m implies #[trigger] resource_hob_at(h, 56 + 48 * j, r[j]) by {
        lemma_td_hob_range_hob(memory_size, secs, j);
    }
    // The last range.
    let o = 56 + 48 * m;
    assert(t1.subrange(0, 48) =~= t1);
    lemma_occurs_left(t1, t2, 0, t1);
    lemma_occurs_right(rs, tail, 0, t1);
    lemma_occurs_right(ph, body, 48 * m, t1);
    if split {
        lemma_resource_hob_fields(h, o, 0x07, last.1, (0x80000000 - last.1) as u64);
        assert(t2.subrange(0, 48) =~= t2);
        lemma_occurs_right(t1, t2, 0, t2);
        lemma_occurs_right(rs, tail, 48, t2);
        lemma_occurs_right(ph, body, 48 * m + 48, t2);
        lemma_resource_hob_fields(h, o + 48, 0x07, 0x100000000, (last.2 - 0x80000000) as u64);
    } else {
        lemma_resource_hob_fields(h, o, 0x07, last.1, (last.2 - last.1) as u64);
    }
    assert(h.len() == 56 + body.len());
    assert(h.len() == 56 + 48 * (m + if split {
        2int
    } else {
        1int
    }));
    assert(h[0] == 1);
    if !split {
        assert(crate::bytes::get_u64(h, o + 40) == last.2 - last.1);
    }
    assert(crate::bytes::get_u64(h, 48) == end);
    assert(crate::bytes::get_u64(h, 48) == hob_base(secs) + h.len() + 8);
    assert(h[o + 24] == 7);
    assert(crate::bytes::get_u64(h, o + 32) == last.1);
    if split {
        assert(last.1 <= 0x80000000 <= last.2);
        assert(crate::bytes::get_u64(h, o + 40) == 0x80000000 - last.1);
        assert(h[o + 72] == 7);
        assert(crate::bytes::get_u64(h, o + 80) == 0x100000000u64);
        assert(crate::bytes::get_u64(h, o + 88) == last.2 - 0x80000000);
    }
}

/// The TD HOB's base is the address of the last TD-HOB section, or
/// 0x809000 when there is none.
pub proof fn lemma_hob_base_is_last_td_hob_section(secs: Seq<TdvfSection>)
    ensures
        (forall|j: int| 0 <= j < secs.len() ==> (#[trigger] secs[j]).sec_type != TDVF_SECTION_TD_HOB)
            ==> hob_base(secs) == 0x809000,
        forall|j: int|
            0 <= j < secs.len() && (#[trigger] secs[j]).sec_type == TDVF_SECTION_TD_HOB && (forall|
                k: int,
            | j < k < secs.len() ==> (#[trigger] secs[k]).sec_type != TDVF_SECTION_TD_HOB)
                ==> hob_base(secs) == secs[j].memory_address,
    decreases secs.len(),
{
    if secs.len() > 0 {
        let d = secs.drop_last();
        lemma_hob_base_is_last_td_hob_section(d);
        assert(secs.last() == secs[secs.len() - 1]);
        if forall|j: int| 0 <= j < secs.len() ==> (#[trigger] secs[j]).sec_type
            != TDVF_SECTION_TD_HOB {
            assert forall|j: int| 0 <= j < d.len() implies (#[trigger] d[j]).sec_type
                != TDVF_SECTION_TD_HOB by {
                assert(d[j] == secs[j]);
            }
        }
        assert forall|j: int|
            0 <= j < secs.len() && (#[trigger] secs[j]).sec_type == TDVF_SECTION_TD_HOB && (forall|
                k: int,
            | j < k < secs.len() ==> (#[trigger] secs[k]).sec_type != TDVF_SECTION_TD_HOB)
                implies hob_base(secs) == secs[j].memory_address by {
            if j < secs.len() - 1 {
                assert(secs[secs.len() - 1].sec_type != TDVF_SECTION_TD_HOB);
                assert(d[j] == secs[j]);
                assert forall|k: int| j < k < d.len() implies (#[trigger] d[k]).sec_type
                    != TDVF_SECTION_TD_HOB by {
                    assert(d[k] == secs[k]);
                }
            }
        }
    }
}

impl<'a> Tdvf<'a> {
    /// Whether the TD HOB for `memory_size` bytes of memory can be built
    /// without its arithmetic going out of range (what `measure_td_hob`
    /// requires).
    pub fn td_hob_is_defined(&self, memory_size: u64) -> (b: bool)
        ensures
            b == td_hob_defined(memory_size, self.sections()),
    {
        let ghost secs = self.sections@;
        let mut acceptor = crate::memory::MemoryAcceptor::new(0, memory_size);
        let mut base: u64 = 0x809000;
        let mut k: usize = 0;
        assert(secs.take(0) =~= Seq::<TdvfSection>::empty());
        while k < self.sections.len()
            invariant
                k <= secs.len(),
                secs == self.sections@,
                acceptor@ == accepted_memory(memory_size, secs.take(k as int)),
                base == hob_base(secs.take(k as int)),
                forall|j: int|
                    0 <= j < k && is_accepted_type(#[trigger] secs[j].sec_type) ==> secs[j].memory_address
                        + secs[j].memory_data_size <= u64::MAX,
            decreases secs.len() - k,
        {
            let s = self.sections[k];
            assert(secs.take(k + 1).drop_last() =~= secs.take(k as int));
            assert(secs.take(k + 1).last() == s);
            if s.sec_type == TDVF_SECTION_TD_HOB || s.sec_type == TDVF_SECTION_TEMP_MEM {
                assert(is_accepted_type(secs[k as int].sec_type));
                if s.memory_address > u64::MAX - s.memory_data_size {
                    return false;
                }
                acceptor.accept(s.memory_address, s.memory_address + s.memory_data_size);
            }
            if s.sec_type == TDVF_SECTION_TD_HOB {
                base = s.memory_address;
            }
            k = k + 1;
        }
        assert(secs.take(secs.len() as int) =~= secs);
        proof {
            lemma_accepted_memory_wf(memory_size, secs);
        }
        let ghost r = acceptor@;
        let n = acceptor.ranges.len();
        let (_, last_start, last_end) = acceptor.ranges[n - 1];
        assert(r.last() == acceptor.ranges@[n - 1]);
        if memory_size >= 0xB0000000 && !(last_start <= 0x80000000 && 0x80000000 <= last_end) {
            return false;
        }
        proof {
            lemma_resource_hobs_len(r.drop_last());
        }
        let tail: u128 = if memory_size >= 0xB0000000 {
            96
        } else {
            48
        };
        assert(hob_body(memory_size, secs).len() == 48 * (n - 1) + tail);
        let total: u128 = base as u128 + 56 + 48 * (n as u128 - 1) + tail + 8;
        total <= u64::MAX as u128
    }
}

impl<'a> Tdvf<'a> {
    /// Measures the TD hand-off block that the firmware builds for
    /// `memory_size` bytes of memory.
    pub fn measure_td_hob(&self, memory_size: u64) -> (res: Result<Vec<u8>, Error>)
        requires
            td_hob_defined(memory_size, self.sections()),
        ensures
            res matches Ok(v) ==> v@.len() == crate::digest::DIGEST_LEN,
            res matches Ok(v) && v@ == crate::digest::sha384(td_hob(memory_size, self.sections())),
    {
        let ghost secs = self.sections@;
        let mut memory_acceptor = crate::memory::MemoryAcceptor::new(0, memory_size);
        let mut td_hob_base_addr: u64 = 0x809000;
        let mut k: usize = 0;
        assert(secs.take(0) =~= Seq::<TdvfSection>::empty());
        while k < self.sections.len()
            invariant
                k <= secs.len(),
                secs == self.sections@,
                td_hob_defined(memory_size, secs),
                memory_acceptor@ == accepted_memory(memory_size, secs.take(k as int)),
                td_hob_base_addr == hob_base(secs.take(k as int)),
            decreases secs.len() - k,
        {
            let s = self.sections[k];
            assert(secs.take(k + 1).drop_last() =~= secs.take(k as int));
            assert(secs.take(k + 1).last() == s);
            if s.sec_type == TDVF_SECTION_TD_HOB || s.sec_type == TDVF_SECTION_TEMP_MEM {
                assert(is_accepted_type(secs[k as int].sec_type));
                memory_acceptor.accept(s.memory_address, s.memory_address + s.memory_data_size);
            }
            if s.sec_type == TDVF_SECTION_TD_HOB {
                td_hob_base_addr = s.memory_address;
            }
            k = k + 1;
        }
        assert(secs.take(secs.len() as int) =~= secs);
        proof {
            lemma_accepted_memory_wf(memory_size, secs);
        }
        let ghost all = memory_acceptor@;
        let mut ranges = memory_acceptor.ranges;
        let (_, last_start, last_end) = match ranges.pop() {
            Some(r) => r,
            None => {
                assert(false);
                (false, 0, 0)
            },
        };
        assert(ranges@ =~= all.drop_last());
        let mut body: Vec<u8> = Vec::new();
        let mut i: usize = 0;
        assert(ranges@.take(0) =~= Seq::<crate::memory::MemRange>::empty());
        while i < ranges.len()
            invariant
                i <= ranges@.len(),
                ranges@ == all.drop_last(),
                all.len() >= 1,
                crate::memory::ranges_well_formed(all),
                body@ == resource_hobs(ranges@.take(i as int)),
            decreases ranges@.len() - i,
        {
            let (accepted, start, end) = ranges[i];
            assert(all[i as int] == ranges@[i as int]);
            assert(all[i as int].1 <= all[i as int].2);
            let ghost before = body@;
            if accepted {
                push_resource_hob(&mut body, 0x00, start, end - start);
            } else {
                push_resource_hob(&mut body, 0x07, start, end - start);
            }
            assert(ranges@.take(i + 1).drop_last() =~= ranges@.take(i as int));
            i = i + 1;
        }
        assert(ranges@.take(ranges@.len() as int) =~= ranges@);
        assert(all.last() == (all.last().0, last_start, last_end));
        assert(all[all.len() - 1].1 <= all[all.len() - 1].2);
        if memory_size >= 0xB0000000 {
            push_resource_hob(&mut body, 0x07, last_start, 0x80000000u64 - last_start);
            push_resource_hob(&mut body, 0x07, 0x100000000, last_end - 0x80000000u64);
        } else {
            push_resource_hob(&mut body, 0x07, last_start, last_end - last_start);
        }
        assert(body@ =~= hob_body(memory_size, secs));
        let end_of_hob_list = td_hob_base_addr + 56 + body.len() as u64 + 8;
        let mut hob: Vec<u8> = Vec::new();
        hob.push(0x01);
        hob.push(0x00);
        crate::bytes::push_u16(&mut hob, 56);
        crate::bytes::push_zeros(&mut hob, 4);
        crate::bytes::push_u32(&mut hob, 9);
        crate::bytes::push_zeros(&mut hob, 4);
        crate::bytes::push_zeros(&mut hob, 32);
        crate::bytes::push_u64(&mut hob, end_of_hob_list);
        assert(hob@ =~= phit_hob(end_of_hob_list));
        hob.extend_from_slice(body.as_slice());
        assert(hob@ =~= td_hob(memory_size, secs));
        Ok(crate::digest::measure_sha384(hob.as_slice()))
    }

    /// Measures the configuration firmware volume: the raw data of the first
    /// CFV section.
    pub fn measure_cfv(&self) -> (res: Result<Vec<u8>, Error>)
        ensures
            res matches Ok(v) ==> v@.len() == crate::digest::DIGEST_LEN,
            match res {
                Ok(v) => cfv_digest(self.firmware(), self.sections()) == Ok::<Seq<u8>, Error>(v@),
                Err(e) => cfv_digest(self.firmware(), self.sections()) == Err::<Seq<u8>, Error>(e),
            },
    {
        let ghost secs = self.sections@;
        let mut i: usize = 0;
        assert(secs.skip(0) =~= secs);
        while i < self.sections.len()
            invariant
                i <= secs.len(),
                secs == self.sections@,
                first_of_type(secs, TDVF_SECTION_TD_CFV) == first_of_type(
                    secs.skip(i as int),
                    TDVF_SECTION_TD_CFV,
                ),
            decreases secs.len() - i,
        {
            let section = self.sections[i];
            assert(secs.skip(i as int)[0] == section);
            if section.sec_type == TDVF_SECTION_TD_CFV {
                let start = section.data_offset as u64;
                let end = start + section.raw_data_size as u64;
                if end > self.fw.len() as u64 {
                    return Err(Error::CfvBeyondFirmware);
                }
                let data = &self.fw[start as usize..end as usize];
                return Ok(crate::digest::measure_sha384(data));
            }
            assert(secs.skip(i as int).drop_first() =~= secs.skip(i + 1));
            i = i + 1;
        }
        Err(Error::MissingCfv)
    }
}

} // verus!

verus! {

use crate::digest::{byte_strings, measure_log, measure_separator, measure_sha384, replay_log, separator, sha384};
use crate::efi::{boot_order, efi_variable_event, measure_tdx_efi_variable, parse_boot_order};
use crate::bytes::opt_bytes;

/// Vendor GUID of the UEFI global variables (SecureBoot, PK, KEK).
pub const EFI_GLOBAL_VARIABLE_GUID: &'static str = "8BE4DF61-93CA-11D2-AA0D-00E098032B8C";

/// Vendor GUID of the image security databases (db, dbx).
pub const IMAGE_SECURITY_DATABASE_GUID: &'static str = "D719B2CB-3D3A-4596-A3BC-DAD00E67656F";

/// Vendor GUID of shim's variables (SbatLevel).
pub const SHIM_LOCK_GUID: &'static str = "605DAB50-E046-4300-ABB6-3DD810DD8B23";

/// The Boot0000 variable that OVMF creates for direct boot, in hex.
pub const BOOT0000_HEX: &'static str = "090100002c0055006900410070007000000004071400c9bdb87cebf8344faaea3ee4af6516a10406140021aa2c4614760345836e8ab6f46623317fff0400";

/// The SbatLevel variable shim sets.
pub const SBAT_LEVEL: &'static str = "sbat,1,2021030218\n";

/// `acc` with the event `r` appended, the first error winning.
pub open spec fn push_event(acc: Result<Seq<Seq<u8>>, Error>, r: Result<Seq<u8>, Error>) -> Result<
    Seq<Seq<u8>>,
    Error,
> {
    match acc {
        Err(e) => Err(e),
        Ok(s) => match r {
            Err(e) => Err(e),
            Ok(x) => Ok(s.push(x)),
        },
    }
}

/// The Secure Boot configuration events: SecureBoot, PK, KEK, db, dbx, all
/// without data.
pub open spec fn secure_boot_log() -> Result<Seq<Seq<u8>>, Error> {
    push_event(
        push_event(
            push_event(
                push_event(
                    push_event(
                        Ok(Seq::empty()),
                        efi_variable_event(EFI_GLOBAL_VARIABLE_GUID, "SecureBoot", None),
                    ),
                    efi_variable_event(EFI_GLOBAL_VARIABLE_GUID, "PK", None),
                ),
                efi_variable_event(EFI_GLOBAL_VARIABLE_GUID, "KEK", None),
            ),
            efi_variable_event(IMAGE_SECURITY_DATABASE_GUID, "db", None),
        ),
        efi_variable_event(IMAGE_SECURITY_DATABASE_GUID, "dbx", None),
    )
}

/// Digests of the boot variables that exist, in boot order.
pub open spec fn boot_variable_log(vars: Seq<Option<Seq<u8>>>) -> Seq<Seq<u8>>
    decreases vars.len(),
{
    if vars.len() == 0 {
        Seq::empty()
    } else {
        boot_variable_log(vars.drop_last()) + match vars.last() {
            Some(d) => seq![sha384(d)],
            None => Seq::empty(),
        }
    }
}

/// The boot variables that exist, in boot order.
pub open spec fn existing_variables(vars: Seq<Option<Seq<u8>>>) -> Seq<Option<Seq<u8>>> {
    vars.filter(|v: Option<Seq<u8>>| v is Some)
}

/// The boot variable events are the digests of the boot variables that
/// exist, one each, in boot order; missing ones are skipped.
pub proof fn lemma_boot_variable_log_digests_existing(vars: Seq<Option<Seq<u8>>>)
    ensures
        boot_variable_log(vars).len() == existing_variables(vars).len(),
        forall|j: int|
            0 <= j < existing_variables(vars).len() ==> #[trigger] boot_variable_log(vars)[j]
                == sha384(existing_variables(vars)[j]->Some_0),
    decreases vars.len(),
{
    reveal(Seq::filter);
    if vars.len() > 0 {
        let d = vars.drop_last();
        lemma_boot_variable_log_digests_existing(d);
        let e = existing_variables(vars);
        let pe = existing_variables(d);
        assert(e == if vars.last() is Some {
            pe.push(vars.last())
        } else {
            pe
        });
        assert forall|j: int| 0 <= j < e.len() implies #[trigger] boot_variable_log(vars)[j]
            == sha384(e[j]->Some_0) by {
            if j < pe.len() {
                assert(boot_variable_log(vars)[j] == boot_variable_log(d)[j]);
                assert(e[j] == pe[j]);
            }
        }
    }
}

/// The boot option events: for direct boot the Boot0000 that OVMF creates;
/// otherwise the captured Boot#### variables that exist.
pub open spec fn boot_option_log(direct_boot: bool, vars: Seq<Option<Seq<u8>>>) -> Result<
    Seq<Seq<u8>>,
    Error,
> {
    if direct_boot {
        match crate::efi::hex_decoded(BOOT0000_HEX.spec_bytes()) {
            None => Err(Error::InvalidHex),
            Some(d) => Ok(seq![sha384(d)]),
        }
    } else {
        Ok(boot_variable_log(vars))
    }
}

/// The SbatLevel event, measured for indirect boot only.
pub open spec fn sbat_log(direct_boot: bool) -> Result<Seq<Seq<u8>>, Error> {
    if direct_boot {
        Ok(Seq::empty())
    } else {
        push_event(
            Ok(Seq::empty()),
            efi_variable_event(SHIM_LOCK_GUID, "SbatLevel", Some(SBAT_LEVEL.spec_bytes())),
        )
    }
}

/// The optional boot variables as byte strings.
pub open spec fn opt_byte_strings(v: Seq<Option<Vec<u8>>>) -> Seq<Option<Seq<u8>>> {
    v.map_values(|o: Option<Vec<u8>>| opt_bytes(o))
}

/// The RTMR0 events once every part is known.
pub open spec fn rtmr0_events(
    hob: Seq<u8>,
    cfv: Seq<u8>,
    sb: Seq<Seq<u8>>,
    loader: Seq<u8>,
    rsdp: Seq<u8>,
    acpi_tables: Seq<u8>,
    order: Seq<u8>,
    opts: Seq<Seq<u8>>,
    sbat: Seq<Seq<u8>>,
) -> Seq<Seq<u8>> {
    seq![sha384(hob), cfv] + sb + seq![
        sha384(separator()),
        sha384(loader),
        sha384(rsdp),
        sha384(acpi_tables),
        sha384(order),
    ] + opts + sbat
}

/// The RTMR0 event log: TD HOB, CFV, Secure Boot variables, separator, ACPI
/// loader, RSDP and tables, BootOrder, boot options, and SbatLevel; or the
/// first error met while building it.
pub open spec fn rtmr0_log(
    fw: Seq<u8>,
    secs: Seq<TdvfSection>,
    direct_boot: bool,
    memory_size: u64,
    has_boot_order: bool,
    acpi_tables: Seq<u8>,
    rsdp_file: Option<Seq<u8>>,
    loader_file: Option<Seq<u8>>,
    boot_order_data: Seq<u8>,
    boot_variables: Seq<Option<Seq<u8>>>,
) -> Result<Seq<Seq<u8>>, Error> {
    match cfv_digest(fw, secs) {
        Err(e) => Err(e),
        Ok(cfv) => match crate::acpi::rsdp_for(acpi_tables, rsdp_file) {
            Err(e) => Err(e),
            Ok(rsdp) => match crate::acpi::loader_for(acpi_tables, loader_file) {
                Err(e) => Err(e),
                Ok(loader) => match boot_order(direct_boot, has_boot_order, boot_order_data) {
                    Err(e) => Err(e),
                    Ok((order, _)) => match secure_boot_log() {
                        Err(e) => Err(e),
                        Ok(sb) => match boot_option_log(direct_boot, boot_variables) {
                            Err(e) => Err(e),
                            Ok(opts) => match sbat_log(direct_boot) {
                                Err(e) => Err(e),
                                Ok(sbat) => Ok(
                                    rtmr0_events(
                                        td_hob(memory_size, secs),
                                        cfv,
                                        sb,
                                        loader,
                                        rsdp,
                                        acpi_tables,
                                        order,
                                        opts,
                                        sbat,
                                    ),
                                ),
                            },
                        },
                    },
                },
            },
        },
    }
}

/// The RTMR0 log has twelve configuration events (the eighth being the
/// separator), then for direct boot the Boot0000 event and nothing else, or
/// for indirect boot the captured boot variables that exist and, last, the
/// SbatLevel event.
#[verifier::spinoff_prover]
#[verifier::rlimit(40)]
pub proof fn lemma_rtmr0_log_shape(
    fw: Seq<u8>,
    secs: Seq<TdvfSection>,
    direct_boot: bool,
    memory_size: u64,
    has_boot_order: bool,
    acpi_tables: Seq<u8>,
    rsdp_file: Option<Seq<u8>>,
    loader_file: Option<Seq<u8>>,
    boot_order_data: Seq<u8>,
    boot_variables: Seq<Option<Seq<u8>>>,
)
    ensures
        rtmr0_log(
            fw,
            secs,
            direct_boot,
            memory_size,
            has_boot_order,
            acpi_tables,
            rsdp_file,
            loader_file,
            boot_order_data,
            boot_variables,
        ) matches Ok(log) ==> {
            &&& log.len() == 13 + if direct_boot {
                0
            } else {
                boot_variable_log(boot_variables).len()
            }
            &&& log[0] == sha384(td_hob(memory_size, secs))
            &&& cfv_digest(fw, secs) == Ok::<Seq<u8>, Error>(log[1])
            &&& efi_variable_event(EFI_GLOBAL_VARIABLE_GUID, "SecureBoot", None) == Ok::<
                Seq<u8>,
                Error,
            >(log[2])
            &&& efi_variable_event(EFI_GLOBAL_VARIABLE_GUID, "PK", None) == Ok::<Seq<u8>, Error>(
                log[3],
            )
            &&& efi_variable_event(EFI_GLOBAL_VARIABLE_GUID, "KEK", None) == Ok::<Seq<u8>, Error>(
                log[4],
            )
            &&& efi_variable_event(IMAGE_SECURITY_DATABASE_GUID, "db", None) == Ok::<
                Seq<u8>,
                Error,
            >(log[5])
            &&& efi_variable_event(IMAGE_SECURITY_DATABASE_GUID, "dbx", None) == Ok::<
                Seq<u8>,
                Error,
            >(log[6])
            &&& log[7] == sha384(separator())
            &&& crate::acpi::loader_for(acpi_tables, loader_file) matches Ok(l) && log[8] == sha384(l)
            &&& crate::acpi::rsdp_for(acpi_tables, rsdp_file) matches Ok(r) && log[9] == sha384(r)
            &&& log[10] == sha384(acpi_tables)
            &&& boot_order(direct_boot, has_boot_order, boot_order_data) matches Ok((o, _))
                && log[11] == sha384(o)
            &&& !direct_boot ==> log.subrange(12, log.len() - 1) == boot_variable_log(
                boot_variables,
            )
            &&& direct_boot ==> log[12] == sha384(
                crate::efi::hex_decoded(BOOT0000_HEX.spec_bytes())->0,
            )
            &&& !direct_boot ==> efi_variable_event(
                SHIM_LOCK_GUID,
                "SbatLevel",
                Some(SBAT_LEVEL.spec_bytes()),
            ) == Ok::<Seq<u8>, Error>(log.last())
        },
{
    let r = rtmr0_log(
        fw,
        secs,
        direct_boot,
        memory_size,
        has_boot_order,
        acpi_tables,
        rsdp_file,
        loader_file,
        boot_order_data,
        boot_variables,
    );
    if let Ok(log) = r {
        let sb = secure_boot_log()->Ok_0;
        let opts = boot_option_log(direct_boot, boot_variables)->Ok_0;
        let sbat = sbat_log(direct_boot)->Ok_0;
        assert(sb.len() == 5);
        let head = seq![sha384(td_hob(memory_size, secs)), cfv_digest(fw, secs)->Ok_0] + sb;
        let mid = head + seq![
            sha384(separator()),
            sha384(crate::acpi::loader_for(acpi_tables, loader_file)->Ok_0),
            sha384(crate::acpi::rsdp_for(acpi_tables, rsdp_file)->Ok_0),
            sha384(acpi_tables),
            sha384(boot_order(direct_boot, has_boot_order, boot_order_data)->Ok_0.0),
        ];
        assert(log == mid + opts + sbat);
        assert(mid.len() == 12);
        assert(log[0] == mid[0]);
        assert(log[1] == mid[1]);
        assert(log[2] == sb[0] && log[3] == sb[1] && log[4] == sb[2] && log[5] == sb[3] && log[6]
            == sb[4]);
        assert(log[7] == mid[7]);
        assert(log[8] == mid[8] && log[9] == mid[9] && log[10] == mid[10] && log[11] == mid[11]);
        if direct_boot {
            assert(log[12] == opts[0]);
        } else {
            assert(sbat.len() == 1);
            assert(log.last() == sbat[0]);
            assert(log.subrange(12, log.len() - 1) =~= opts);
        }
    }
}

/// In direct boot the BootOrder data and the boot variables are fixed by
/// the firmware, so RTMR0 depends on neither the captured BootOrder nor the
/// captured Boot#### variables.
pub proof fn lemma_direct_boot_ignores_boot_variables(
    fw: Seq<u8>,
    secs: Seq<TdvfSection>,
    memory_size: u64,
    acpi_tables: Seq<u8>,
    rsdp_file: Option<Seq<u8>>,
    loader_file: Option<Seq<u8>>,
    has_boot_order1: bool,
    boot_order_data1: Seq<u8>,
    boot_variables1: Seq<Option<Seq<u8>>>,
    has_boot_order2: bool,
    boot_order_data2: Seq<u8>,
    boot_variables2: Seq<Option<Seq<u8>>>,
)
    ensures
        rtmr0_log(
            fw,
            secs,
            true,
            memory_size,
            has_boot_order1,
            acpi_tables,
            rsdp_file,
            loader_file,
            boot_order_data1,
            boot_variables1,
        ) == rtmr0_log(
            fw,
            secs,
            true,
            memory_size,
            has_boot_order2,
            acpi_tables,
            rsdp_file,
            loader_file,
            boot_order_data2,
            boot_variables2,
        ),
{
}

fn append_event(log: &mut Vec<Vec<u8>>, r: Result<Vec<u8>, Error>) -> (res: Result<(), Error>)
    ensures
        push_event(Ok(byte_strings(old(log)@)), match r {
            Ok(v) => Ok::<Seq<u8>, Error>(v@),
            Err(e) => Err::<Seq<u8>, Error>(e),
        }) == match res {
            Ok(_) => Ok::<Seq<Seq<u8>>, Error>(byte_strings(final(log)@)),
            Err(e) => Err::<Seq<Seq<u8>>, Error>(e),
        },
{
    match r {
        Ok(v) => {
            let ghost before = log@;
            log.push(v);
            assert(byte_strings(log@) =~= byte_strings(before).push(log@.last()@));
            Ok(())
        },
        Err(e) => Err(e),
    }
}

/// The Secure Boot configuration events.
fn secure_boot_events() -> (res: Result<Vec<Vec<u8>>, Error>)
    ensures
        match res {
            Ok(v) => secure_boot_log() == Ok::<Seq<Seq<u8>>, Error>(byte_strings(v@)),
            Err(e) => secure_boot_log() == Err::<Seq<Seq<u8>>, Error>(e),
        },
{
    let mut log: Vec<Vec<u8>> = Vec::new();
    assert(byte_strings(log@) =~= Seq::<Seq<u8>>::empty());
    append_event(&mut log, measure_tdx_efi_variable(EFI_GLOBAL_VARIABLE_GUID, "SecureBoot", None))?;
    append_event(&mut log, measure_tdx_efi_variable(EFI_GLOBAL_VARIABLE_GUID, "PK", None))?;
    append_event(&mut log, measure_tdx_efi_variable(EFI_GLOBAL_VARIABLE_GUID, "KEK", None))?;
    append_event(&mut log, measure_tdx_efi_variable(IMAGE_SECURITY_DATABASE_GUID, "db", None))?;
    append_event(&mut log, measure_tdx_efi_variable(IMAGE_SECURITY_DATABASE_GUID, "dbx", None))?;
    Ok(log)
}

} // verus!

verus! {

/// The boot option events.
fn boot_option_events(direct_boot: bool, boot_variables: &Vec<Option<Vec<u8>>>) -> (res: Result<
    Vec<Vec<u8>>,
    Error,
>)
    ensures
        match res {
            Ok(v) => boot_option_log(direct_boot, opt_byte_strings(boot_variables@)) == Ok::<
                Seq<Seq<u8>>,
                Error,
            >(byte_strings(v@)),
            Err(e) => boot_option_log(direct_boot, opt_byte_strings(boot_variables@)) == Err::<
                Seq<Seq<u8>>,
                Error,
            >(e),
        },
{
    let mut log: Vec<Vec<u8>> = Vec::new();
    if direct_boot {
        let boot0000 = match crate::efi::decode_hex(BOOT0000_HEX.as_bytes()) {
            Ok(d) => d,
            Err(_) => {
                return Err(Error::InvalidHex);
            },
        };
        log.push(measure_sha384(boot0000.as_slice()));
        assert(byte_strings(log@) =~= seq![sha384(boot0000@)]);
        Ok(log)
    } else {
        let ghost vars = opt_byte_strings(boot_variables@);
        let mut i: usize = 0;
        assert(vars.take(0) =~= Seq::<Option<Seq<u8>>>::empty());
        assert(byte_strings(log@) =~= Seq::<Seq<u8>>::empty());
        while i < boot_variables.len()
            invariant
                i <= boot_variables@.len(),
                vars == opt_byte_strings(boot_variables@),
                byte_strings(log@) == boot_variable_log(vars.take(i as int)),
            decreases boot_variables@.len() - i,
        {
            let ghost before = byte_strings(log@);
            assert(vars.take(i + 1).drop_last() =~= vars.take(i as int));
            assert(vars[i as int] == opt_bytes(boot_variables@[i as int]));
            match &boot_variables[i] {
                Some(d) => {
                    log.push(measure_sha384(d.as_slice()));
                    assert(byte_strings(log@) =~= before + seq![sha384(d@)]);
                },
                None => {
                    assert(before + Seq::<Seq<u8>>::empty() =~= before);
                },
            }
            i = i + 1;
        }
        assert(vars.take(vars.len() as int) =~= vars);
        Ok(log)
    }
}

/// The SbatLevel event, for indirect boot.
fn sbat_events(direct_boot: bool) -> (res: Result<Vec<Vec<u8>>, Error>)
    ensures
        match res {
            Ok(v) => sbat_log(direct_boot) == Ok::<Seq<Seq<u8>>, Error>(byte_strings(v@)),
            Err(e) => sbat_log(direct_boot) == Err::<Seq<Seq<u8>>, Error>(e),
        },
{
    let mut log: Vec<Vec<u8>> = Vec::new();
    assert(byte_strings(log@) =~= Seq::<Seq<u8>>::empty());
    if !direct_boot {
        append_event(
            &mut log,
            measure_tdx_efi_variable(SHIM_LOCK_GUID, "SbatLevel", Some(SBAT_LEVEL.as_bytes())),
        )?;
    }
    Ok(log)
}

fn assemble_rtmr0_log(
    hob_hash: Vec<u8>,
    cfv_hash: Vec<u8>,
    sb: Vec<Vec<u8>>,
    loader_hash: Vec<u8>,
    rsdp_hash: Vec<u8>,
    tables_hash: Vec<u8>,
    order_hash: Vec<u8>,
    opts: Vec<Vec<u8>>,
    sbat: Vec<Vec<u8>>,
) -> (log: Vec<Vec<u8>>)
    ensures
        byte_strings(log@) == seq![hob_hash@, cfv_hash@] + byte_strings(sb@) + seq![
            sha384(separator()),
            loader_hash@,
            rsdp_hash@,
            tables_hash@,
            order_hash@,
        ] + byte_strings(opts@) + byte_strings(sbat@),
{
    let ghost h = hob_hash@;
    let ghost c = cfv_hash@;
    let ghost l = loader_hash@;
    let ghost r = rsdp_hash@;
    let ghost t = tables_hash@;
    let ghost o = order_hash@;
    let ghost sbs = byte_strings(sb@);
    let ghost optss = byte_strings(opts@);
    let ghost sbats = byte_strings(sbat@);
    let mut log: Vec<Vec<u8>> = Vec::new();
    log.push(hob_hash);
    log.push(cfv_hash);
    assert(byte_strings(log@) =~= seq![h, c]);
    extend_log(&mut log, sb);
    let sep = measure_separator();
    let ghost se = sep@;
    let ghost p1 = byte_strings(log@);
    log.push(sep);
    log.push(loader_hash);
    log.push(rsdp_hash);
    log.push(tables_hash);
    log.push(order_hash);
    assert(byte_strings(log@) =~= p1 + seq![se, l, r, t, o]);
    extend_log(&mut log, opts);
    extend_log(&mut log, sbat);
    assert(byte_strings(log@) =~= seq![h, c] + sbs + seq![se, l, r, t, o] + optss + sbats);
    log
}

/// `a` followed by the entries of `b`.
fn extend_log(a: &mut Vec<Vec<u8>>, b: Vec<Vec<u8>>)
    ensures
        byte_strings(final(a)@) == byte_strings(old(a)@) + byte_strings(b@),
{
    let ghost start = byte_strings(a@);
    let mut i: usize = 0;
    while i < b.len()
        invariant
            i <= b@.len(),
            byte_strings(a@) =~= start + byte_strings(b@).take(i as int),
        decreases b@.len() - i,
    {
        let ghost before = byte_strings(a@);
        let mut c: Vec<u8> = Vec::new();
        c.extend_from_slice(b[i].as_slice());
        assert(c@ == b@[i as int]@);
        a.push(c);
        assert(byte_strings(a@) =~= before.push(b@[i as int]@));
        assert(byte_strings(b@).take(i + 1) =~= byte_strings(b@).take(i as int).push(b@[i as int]@));
        i = i + 1;
    }
    assert(byte_strings(b@).take(b@.len() as int) =~= byte_strings(b@));
}

impl<'a> Tdvf<'a> {
    /// Computes RTMR0: the TD HOB, the CFV, the Secure Boot variables, the
    /// separator, the ACPI table loader, RSDP and tables, BootOrder, the boot
    /// options, and (indirect boot) SbatLevel.
    ///
    /// `acpi_tables`, `rsdp_file` and `loader_file` are the machine's ACPI
    /// files (the last two when it names them; otherwise they are derived);
    /// `boot_order_data` is its BootOrder file (read for indirect boot);
    /// `boot_variables` holds, for each entry BootOrder lists and in its
    /// order, the content of its Boot#### file, or `None` when that file does
    /// not exist (for indirect boot there is one per entry).
    #[verifier::rlimit(50)]
    pub fn rtmr0(
        &self,
        machine: &crate::machine::Machine,
        acpi_tables: Vec<u8>,
        rsdp_file: Option<Vec<u8>>,
        loader_file: Option<Vec<u8>>,
        boot_order_data: &[u8],
        boot_variables: &Vec<Option<Vec<u8>>>,
    ) -> (res: Result<Vec<u8>, Error>)
        requires
            td_hob_defined(machine.memory_size, self.sections()),
            loader_file is None ==> crate::acpi::table_loader_defined(acpi_tables@),
            (!machine.direct_boot && machine.boot_order@.len() > 0 && boot_order_data@.len() % 2
                == 0) ==> boot_variables@.len() == crate::efi::boot_entries(boot_order_data@).len(),
        ensures
            res matches Ok(v) ==> v@.len() == crate::digest::DIGEST_LEN,
            match res {
                Ok(v) => rtmr0_log(
                    self.firmware(),
                    self.sections(),
                    machine.direct_boot,
                    machine.memory_size,
                    machine.boot_order@.len() > 0,
                    acpi_tables@,
                    opt_bytes(rsdp_file),
                    opt_bytes(loader_file),
                    boot_order_data@,
                    opt_byte_strings(boot_variables@),
                ) matches Ok(log) && v@ == replay_log(log),
                Err(e) => rtmr0_log(
                    self.firmware(),
                    self.sections(),
                    machine.direct_boot,
                    machine.memory_size,
                    machine.boot_order@.len() > 0,
                    acpi_tables@,
                    opt_bytes(rsdp_file),
                    opt_bytes(loader_file),
                    boot_order_data@,
                    opt_byte_strings(boot_variables@),
                ) == Err::<Seq<Seq<u8>>, Error>(e),
            },
    {
        let ghost acpi = acpi_tables@;
        let ghost rsdp_in = opt_bytes(rsdp_file);
        let ghost loader_in = opt_bytes(loader_file);
        let td_hob_hash = self.measure_td_hob(machine.memory_size)?;
        let cfv_hash = self.measure_cfv()?;
        let tables = machine.build_tables(acpi_tables, rsdp_file, loader_file)?;
        let acpi_tables_hash = measure_sha384(tables.tables.as_slice());
        let acpi_rsdp_hash = measure_sha384(tables.rsdp.as_slice());
        let acpi_loader_hash = measure_sha384(tables.loader.as_slice());
        let (boot_order_bytes, _boot_entries) = parse_boot_order(machine, boot_order_data)?;
        let ghost order = boot_order_bytes@;
        let sb = secure_boot_events()?;
        let opts = boot_option_events(machine.direct_boot, boot_variables)?;
        let sbat = sbat_events(machine.direct_boot)?;
        let ghost sbs = byte_strings(sb@);
        let ghost optss = byte_strings(opts@);
        let ghost sbats = byte_strings(sbat@);
        let log = assemble_rtmr0_log(
            td_hob_hash,
            cfv_hash,
            sb,
            acpi_loader_hash,
            acpi_rsdp_hash,
            acpi_tables_hash,
            measure_sha384(boot_order_bytes.as_slice()),
            opts,
            sbat,
        );
        assert(byte_strings(log@) == rtmr0_events(
            td_hob(machine.memory_size, self.sections()),
            cfv_hash@,
            sbs,
            tables.loader@,
            tables.rsdp@,
            tables.tables@,
            order,
            optss,
            sbats,
        ));
        Ok(measure_log(&log))
    }
}

} // verus!
