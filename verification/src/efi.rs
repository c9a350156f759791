//! GUIDs and UEFI variable events.

use vstd::prelude::*;
use crate::error::Error;
use vstd::string::StringSliceAdditionalSpecFns;

verus! {

#[verifier::external_type_specification]
#[verifier::external_body]
pub struct ExFromHexError(hex::FromHexError);

/// The value of one hexadecimal digit, as `hex` reads it (either case).
pub open spec fn hex_digit(c: u8) -> Option<u8> {
    if 0x30 <= c <= 0x39 {
        Some((c - 0x30) as u8)
    } else if 0x41 <= c <= 0x46 {
        Some((c - 0x41 + 10) as u8)
    } else if 0x61 <= c <= 0x66 {
        Some((c - 0x61 + 10) as u8)
    } else {
        None
    }
}

/// The bytes that a string of hexadecimal digit pairs encodes, or `None`
/// when it has an odd length or a character that is not a hex digit.
pub open spec fn hex_decoded(t: Seq<u8>) -> Option<Seq<u8>> {
    if t.len() % 2 == 0 && (forall|i: int| 0 <= i < t.len() ==> (#[trigger] hex_digit(t[i])) is Some) {
        Some(
            Seq::new(
                t.len() / 2,
                |i: int| (hex_digit(t[2 * i]).unwrap() * 16 + hex_digit(t[2 * i + 1]).unwrap()) as u8,
            ),
        )
    } else {
        None
    }
}

/// Calls `hex::decode`. Trusted: it succeeds exactly when `text` has an even
/// length and only hex digits (either case), and then each output byte is
/// the pair of digits at the same position, high digit first (`hex`'s
/// `FromHex for Vec<u8>` and its `val`).
#[verifier::external_body]
fn hex_decode(text: &[u8]) -> (res: Result<Vec<u8>, hex::FromHexError>)
    ensures
        match res {
            Ok(v) => hex_decoded(text@) == Some(v@),
            Err(_) => hex_decoded(text@) is None,
        },
{
    hex::decode(text)
}

/// Decodes a string of hexadecimal digit pairs.
pub fn decode_hex(text: &[u8]) -> (res: Result<Vec<u8>, Error>)
    ensures
        match res {
            Ok(v) => hex_decoded(text@) == Some(v@),
            Err(e) => hex_decoded(text@) is None && e == Error::InvalidHex,
        },
{
    match hex_decode(text) {
        Ok(v) => Ok(v),
        Err(_) => Err(Error::InvalidHex),
    }
}

/// The pieces of `t` between occurrences of `sep`, as `str::split` cuts them.
pub open spec fn split_on(t: Seq<u8>, sep: u8) -> Seq<Seq<u8>>
    decreases t.len(),
{
    if t.len() == 0 {
        seq![Seq::<u8>::empty()]
    } else {
        let prev = split_on(t.drop_last(), sep);
        if t.last() == sep {
            prev.push(Seq::<u8>::empty())
        } else {
            prev.update(prev.len() - 1, prev.last().push(t.last()))
        }
    }
}

proof fn lemma_split_nonempty(t: Seq<u8>, sep: u8)
    ensures
        split_on(t, sep).len() >= 1,
    decreases t.len(),
{
    if t.len() > 0 {
        lemma_split_nonempty(t.drop_last(), sep);
    }
}

/// The bytes of the first `n` groups of a GUID: the first three groups are
/// little-endian numbers (their bytes reversed), the last two are kept.
pub open spec fn guid_groups(groups: Seq<Seq<u8>>, n: nat) -> Result<Seq<u8>, Error>
    decreases n,
{
    if n == 0 {
        Ok(Seq::empty())
    } else {
        match guid_groups(groups, (n - 1) as nat) {
            Err(e) => Err(e),
            Ok(prev) => match hex_decoded(groups[n - 1]) {
                None => Err(Error::InvalidHex),
                Some(raw) => Ok(prev + if n - 1 <= 2 {
                    raw.reverse()
                } else {
                    raw
                }),
            },
        }
    }
}

proof fn lemma_guid_groups_err_persists(groups: Seq<Seq<u8>>, k: nat, n: nat)
    requires
        k <= n,
        guid_groups(groups, k) is Err,
    ensures
        guid_groups(groups, n) == guid_groups(groups, k),
    decreases n - k,
{
    if k < n {
        lemma_guid_groups_err_persists(groups, k, (n - 1) as nat);
    }
}

/// The binary form of the textual GUID `t` (UTF-8 bytes).
pub open spec fn guid_bytes(t: Seq<u8>) -> Result<Seq<u8>, Error> {
    let groups = split_on(t, 0x2d);
    if groups.len() != 5 {
        Err(Error::InvalidGuid)
    } else {
        guid_groups(groups, 5)
    }
}

proof fn lemma_split_no_sep(g: Seq<u8>, sep: u8)
    requires
        forall|i: int| 0 <= i < g.len() ==> g[i] != sep,
    ensures
        split_on(g, sep) == seq![g],
    decreases g.len(),
{
    if g.len() > 0 {
        lemma_split_no_sep(g.drop_last(), sep);
        assert(g.drop_last().push(g.last()) =~= g);
    } else {
        assert(g =~= Seq::<u8>::empty());
    }
}

proof fn lemma_split_join(a: Seq<u8>, b: Seq<u8>, sep: u8)
    ensures
        split_on(a + seq![sep] + b, sep) == split_on(a, sep) + split_on(b, sep),
    decreases b.len(),
{
    let x = a + seq![sep] + b;
    if b.len() == 0 {
        assert(x =~= a.push(sep));
        assert(a.push(sep).drop_last() =~= a);
        assert(split_on(a, sep).push(Seq::<u8>::empty()) =~= split_on(a, sep) + seq![
            Seq::<u8>::empty(),
        ]);
    } else {
        let b1 = b.drop_last();
        lemma_split_join(a, b1, sep);
        assert(x.drop_last() =~= a + seq![sep] + b1);
        assert(x.last() == b.last());
        lemma_split_nonempty(b1, sep);
        let pa = split_on(a, sep);
        let pb = split_on(b1, sep);
        if b.last() == sep {
            assert((pa + pb).push(Seq::<u8>::empty()) =~= pa + pb.push(Seq::<u8>::empty()));
        } else {
            let q = pa + pb;
            assert(q.update(q.len() - 1, q.last().push(b.last())) =~= pa + pb.update(
                pb.len() - 1,
                pb.last().push(b.last()),
            ));
        }
    }
}

proof fn lemma_hex_decoded_len(g: Seq<u8>)
    requires
        g.len() % 2 == 0,
        forall|i: int| 0 <= i < g.len() ==> (#[trigger] hex_digit(g[i])) is Some,
    ensures
        hex_decoded(g) matches Some(r) && r.len() == g.len() / 2,
{
}

/// The UTF-8 bytes of a GUID in canonical form: 36 characters, dashes at
/// offsets 8, 13, 18 and 23, hexadecimal digits elsewhere.
pub open spec fn canonical_guid(t: Seq<u8>) -> bool {
    &&& t.len() == 36
    &&& forall|i: int|
        #![trigger t[i]]
        0 <= i < 36 ==> if i == 8 || i == 13 || i == 18 || i == 23 {
            t[i] == 0x2d
        } else {
            hex_digit(t[i]) is Some
        }
}

/// Every GUID in canonical form encodes to 16 bytes: the first three
/// groups as little-endian numbers, the last two as they are written.
pub proof fn lemma_canonical_guid_bytes(t: Seq<u8>)
    requires
        canonical_guid(t),
    ensures
        guid_bytes(t) matches Ok(b) && b.len() == 16 && b == hex_decoded(t.subrange(0, 8))->0.reverse()
            + hex_decoded(t.subrange(9, 13))->0.reverse() + hex_decoded(t.subrange(14, 18))->0.reverse()
            + hex_decoded(t.subrange(19, 23))->0 + hex_decoded(t.subrange(24, 36))->0,
{
    let sep: u8 = 0x2d;
    let g0 = t.subrange(0, 8);
    let g1 = t.subrange(9, 13);
    let g2 = t.subrange(14, 18);
    let g3 = t.subrange(19, 23);
    let g4 = t.subrange(24, 36);
    assert forall|i: int| #![trigger g0[i]] 0 <= i < g0.len() implies g0[i] != sep && hex_digit(g0[i]) is Some by {
        assert(g0[i] == t[i]);
        assert(hex_digit(t[i]) is Some);
    }
    assert forall|i: int| #![trigger g1[i]] 0 <= i < g1.len() implies g1[i] != sep && hex_digit(g1[i]) is Some by {
        assert(g1[i] == t[9 + i]);
        assert(hex_digit(t[9 + i]) is Some);
    }
    assert forall|i: int| #![trigger g2[i]] 0 <= i < g2.len() implies g2[i] != sep && hex_digit(g2[i]) is Some by {
        assert(g2[i] == t[14 + i]);
        assert(hex_digit(t[14 + i]) is Some);
    }
    assert forall|i: int| #![trigger g3[i]] 0 <= i < g3.len() implies g3[i] != sep && hex_digit(g3[i]) is Some by {
        assert(g3[i] == t[19 + i]);
        assert(hex_digit(t[19 + i]) is Some);
    }
    assert forall|i: int| #![trigger g4[i]] 0 <= i < g4.len() implies g4[i] != sep && hex_digit(g4[i]) is Some by {
        assert(g4[i] == t[24 + i]);
        assert(hex_digit(t[24 + i]) is Some);
    }
    lemma_split_no_sep(g0, sep);
    lemma_split_no_sep(g1, sep);
    lemma_split_no_sep(g2, sep);
    lemma_split_no_sep(g3, sep);
    lemma_split_no_sep(g4, sep);
    assert(t[8] == sep && t[13] == sep && t[18] == sep && t[23] == sep);
    let r3 = g3 + seq![sep] + g4;
    let r2 = g2 + seq![sep] + r3;
    let r1 = g1 + seq![sep] + r2;
    assert(t =~= g0 + seq![sep] + r1);
    lemma_split_join(g3, g4, sep);
    lemma_split_join(g2, r3, sep);
    lemma_split_join(g1, r2, sep);
    lemma_split_join(g0, r1, sep);
    let groups = split_on(t, sep);
    assert(groups =~= seq![g0, g1, g2, g3, g4]);
    lemma_hex_decoded_len(g0);
    lemma_hex_decoded_len(g1);
    lemma_hex_decoded_len(g2);
    lemma_hex_decoded_len(g3);
    lemma_hex_decoded_len(g4);
    assert(groups[0] == g0 && groups[1] == g1 && groups[2] == g2 && groups[3] == g3 && groups[4]
        == g4);
    let d0 = hex_decoded(g0)->0;
    let d1 = hex_decoded(g1)->0;
    let d2 = hex_decoded(g2)->0;
    let d3 = hex_decoded(g3)->0;
    let d4 = hex_decoded(g4)->0;
    assert(guid_groups(groups, 0) == Ok::<Seq<u8>, Error>(Seq::<u8>::empty()));
    assert(guid_groups(groups, 1) == Ok::<Seq<u8>, Error>(Seq::<u8>::empty() + d0.reverse()));
    assert(guid_groups(groups, 2) == Ok::<Seq<u8>, Error>(Seq::<u8>::empty() + d0.reverse()
        + d1.reverse()));
    assert(guid_groups(groups, 3) == Ok::<Seq<u8>, Error>(Seq::<u8>::empty() + d0.reverse()
        + d1.reverse() + d2.reverse()));
    assert(guid_groups(groups, 4) == Ok::<Seq<u8>, Error>(Seq::<u8>::empty() + d0.reverse()
        + d1.reverse() + d2.reverse() + d3));
    assert(guid_groups(groups, 5) == Ok::<Seq<u8>, Error>(Seq::<u8>::empty() + d0.reverse()
        + d1.reverse() + d2.reverse() + d3 + d4));
    assert(Seq::<u8>::empty() + d0.reverse() + d1.reverse() + d2.reverse() + d3 + d4 =~= d0.reverse()
        + d1.reverse() + d2.reverse() + d3 + d4);
}

fn split_dashes(t: &[u8]) -> (groups: Vec<Vec<u8>>)
    ensures
        groups@.map_values(|g: Vec<u8>| g@) == split_on(t@, 0x2d),
{
    let mut done: Vec<Vec<u8>> = Vec::new();
    let mut cur: Vec<u8> = Vec::new();
    let mut i: usize = 0;
    assert(t@.take(0) =~= Seq::<u8>::empty());
    while i < t.len()
        invariant
            i <= t@.len(),
            done@.map_values(|g: Vec<u8>| g@).push(cur@) == split_on(t@.take(i as int), 0x2d),
        decreases t@.len() - i,
    {
        let ghost before = done@.map_values(|g: Vec<u8>| g@).push(cur@);
        assert(t@.take(i + 1).drop_last() =~= t@.take(i as int));
        if t[i] == 0x2d {
            done.push(cur);
            cur = Vec::new();
            assert(done@.map_values(|g: Vec<u8>| g@).push(cur@) =~= before.push(Seq::empty()));
        } else {
            cur.push(t[i]);
            assert(done@.map_values(|g: Vec<u8>| g@).push(cur@) =~= before.update(
                before.len() - 1,
                before.last().push(t@[i as int]),
            ));
        }
        i = i + 1;
    }
    assert(t@.take(t@.len() as int) =~= t@);
    done.push(cur);
    assert(done@.map_values(|g: Vec<u8>| g@) =~= split_on(t@, 0x2d));
    done
}

/// Encodes a textual GUID (`xxxxxxxx-xxxx-xxxx-xxxx-xxxxxxxxxxxx`) into the
/// 16 bytes of its binary form.
pub fn encode_guid(guid: &str) -> (res: Result<Vec<u8>, Error>)
    ensures
        match res {
            Ok(v) => guid_bytes(guid.spec_bytes()) == Ok::<Seq<u8>, Error>(v@),
            Err(e) => guid_bytes(guid.spec_bytes()) == Err::<Seq<u8>, Error>(e),
        },
{
    let text = guid.as_bytes();
    let groups = split_dashes(text);
    let ghost gs = groups@.map_values(|g: Vec<u8>| g@);
    if groups.len() != 5 {
        return Err(Error::InvalidGuid);
    }
    let mut data: Vec<u8> = Vec::new();
    let mut idx: usize = 0;
    while idx < 5
        invariant
            idx <= 5,
            groups@.len() == 5,
            gs == groups@.map_values(|g: Vec<u8>| g@),
            gs == split_on(text@, 0x2d),
            text@ == guid.spec_bytes(),
            guid_groups(gs, idx as nat) == Ok::<Seq<u8>, Error>(data@),
        decreases 5 - idx,
    {
        assert(gs[idx as int] == groups@[idx as int]@);
        let raw = match decode_hex(groups[idx].as_slice()) {
            Ok(raw) => raw,
            Err(e) => {
                proof {
                    assert(guid_groups(gs, (idx + 1) as nat) == Err::<Seq<u8>, Error>(
                        Error::InvalidHex,
                    ));
                    lemma_guid_groups_err_persists(gs, (idx + 1) as nat, 5);
                }
                return Err(e);
            },
        };
        let ghost prev = data@;
        if idx <= 2 {
            let ghost before = data@;
            let mut j: usize = raw.len();
            while j > 0
                invariant
                    j <= raw@.len(),
                    data@ == before + raw@.reverse().take(raw@.len() - j),
                decreases j,
            {
                j = j - 1;
                data.push(raw[j]);
                assert(raw@.reverse().take(raw@.len() - j) =~= raw@.reverse().take(
                    raw@.len() - j - 1,
                ).push(raw@[j as int]));
            }
            assert(raw@.reverse().take(raw@.len() as int) =~= raw@.reverse());
        } else {
            data.extend_from_slice(raw.as_slice());
        }
        assert(data@ =~= prev + if idx <= 2 {
            raw@.reverse()
        } else {
            raw@
        });
        idx = idx + 1;
    }
    Ok(data)
}

} // verus!

verus! {

use crate::text::{utf16_encode, utf16le};

/// The event data of a UEFI variable: its vendor GUID, the byte length of
/// its name, the length of its data, its name in UTF-16LE, and its data.
pub open spec fn efi_variable_data(guid: Seq<u8>, name: &str, data: Option<Seq<u8>>) -> Seq<u8> {
    let d = match data {
        Some(d) => d,
        None => Seq::empty(),
    };
    guid + crate::bytes::u64_le(name.spec_bytes().len() as u64) + crate::bytes::u64_le(
        d.len() as u64,
    ) + utf16le(name@) + d
}

/// The fields of a UEFI variable's event data: the 16-byte vendor GUID, the
/// name's length in bytes (`u64` at 16), the data's length (`u64` at 24),
/// the name in UTF-16LE from 32, then the data (none when absent).
pub proof fn lemma_efi_variable_data_fields(guid: Seq<u8>, name: &str, data: Option<Seq<u8>>)
    requires
        guid.len() == 16,
    ensures
        ({
            let v = efi_variable_data(guid, name, data);
            let d = match data {
                Some(d) => d,
                None => Seq::<u8>::empty(),
            };
            let u = utf16le(name@);
            &&& v.subrange(0, 16) == guid
            &&& crate::bytes::get_u64(v, 16) == name.spec_bytes().len() as u64
            &&& crate::bytes::get_u64(v, 24) == d.len() as u64
            &&& v.subrange(32, 32 + u.len() as int) == u
            &&& v.subrange(32 + u.len() as int, v.len() as int) == d
        }),
{
    let v = efi_variable_data(guid, name, data);
    let d = match data {
        Some(d) => d,
        None => Seq::<u8>::empty(),
    };
    let u = utf16le(name@);
    let a = name.spec_bytes().len() as u64;
    let b = d.len() as u64;
    let wa = crate::bytes::u64_le(a);
    let wb = crate::bytes::u64_le(b);
    crate::bytes::lemma_u64_le_roundtrip(a);
    crate::bytes::lemma_u64_le_roundtrip(b);
    assert(v == guid + wa + wb + u + d);
    assert(v.subrange(0, 16) =~= guid);
    assert(v[16] == wa[0] && v[17] == wa[1] && v[18] == wa[2] && v[19] == wa[3]);
    assert(v[20] == wa[4] && v[21] == wa[5] && v[22] == wa[6] && v[23] == wa[7]);
    assert(crate::bytes::get_u32(v, 16) == crate::bytes::get_u32(wa, 0));
    assert(crate::bytes::get_u32(v, 20) == crate::bytes::get_u32(wa, 4));
    assert(v[24] == wb[0] && v[25] == wb[1] && v[26] == wb[2] && v[27] == wb[3]);
    assert(v[28] == wb[4] && v[29] == wb[5] && v[30] == wb[6] && v[31] == wb[7]);
    assert(crate::bytes::get_u32(v, 24) == crate::bytes::get_u32(wb, 0));
    assert(crate::bytes::get_u32(v, 28) == crate::bytes::get_u32(wb, 4));
    assert(v.subrange(32, 32 + u.len() as int) =~= u);
    assert(v.subrange(32 + u.len() as int, v.len() as int) =~= d);
}

/// The digest of a UEFI variable event, or why the vendor GUID is invalid.
pub open spec fn efi_variable_event(vendor_guid: &str, name: &str, data: Option<Seq<u8>>) -> Result<
    Seq<u8>,
    Error,
> {
    match guid_bytes(vendor_guid.spec_bytes()) {
        Err(e) => Err(e),
        Ok(g) => Ok(crate::digest::sha384(efi_variable_data(g, name, data))),
    }
}

/// The bytes of an optional byte slice.
pub open spec fn opt_slice(o: Option<&[u8]>) -> Option<Seq<u8>> {
    match o {
        Some(d) => Some(d@),
        None => None,
    }
}

/// Measures a UEFI variable event.
pub fn measure_tdx_efi_variable(vendor_guid: &str, var_name: &str, var_data: Option<&[u8]>) -> (res:
    Result<Vec<u8>, Error>)
    ensures
        res matches Ok(v) ==> v@.len() == crate::digest::DIGEST_LEN,
        match res {
            Ok(v) => efi_variable_event(vendor_guid, var_name, opt_slice(var_data)) == Ok::<
                Seq<u8>,
                Error,
            >(v@),
            Err(e) => efi_variable_event(vendor_guid, var_name, opt_slice(var_data)) == Err::<
                Seq<u8>,
                Error,
            >(e),
        },
{
    let mut data: Vec<u8> = Vec::new();
    let guid = encode_guid(vendor_guid)?;
    data.extend_from_slice(guid.as_slice());
    let name_len = var_name.as_bytes().len() as u64;
    crate::bytes::push_u64(&mut data, name_len);
    let data_size: u64 = match var_data {
        Some(d) => d.len() as u64,
        None => 0,
    };
    let ghost dd = match opt_slice(var_data) {
        Some(d) => d,
        None => Seq::<u8>::empty(),
    };
    assert(data_size == dd.len());
    crate::bytes::push_u64(&mut data, data_size);
    let name16 = utf16_encode(var_name);
    data.extend_from_slice(name16.as_slice());
    let ghost before = data@;
    if let Some(d) = var_data {
        data.extend_from_slice(d);
    }
    assert(data@ =~= before + dd);
    assert(data@ =~= efi_variable_data(guid@, var_name, opt_slice(var_data)));
    Ok(crate::digest::measure_sha384(data.as_slice()))
}

/// The boot entry numbers a BootOrder variable lists: consecutive
/// little-endian `u16`s.
pub open spec fn boot_entries(data: Seq<u8>) -> Seq<u16> {
    Seq::new(data.len() / 2, |i: int| crate::bytes::get_u16(data, 2 * i))
}

/// The BootOrder data and entries to measure: for direct boot an empty
/// order (two zero bytes); otherwise the captured BootOrder, which must
/// exist and hold whole `u16`s.
pub open spec fn boot_order(direct_boot: bool, has_boot_order: bool, data: Seq<u8>) -> Result<
    (Seq<u8>, Seq<u16>),
    Error,
> {
    if direct_boot {
        Ok((seq![0u8, 0u8], Seq::empty()))
    } else if has_boot_order {
        if data.len() % 2 != 0 {
            Err(Error::OddBootOrderLength)
        } else {
            Ok((data, boot_entries(data)))
        }
    } else {
        Err(Error::MissingBootOrder)
    }
}

/// Determines the BootOrder data and the boot entries it lists.
/// `boot_order_data` is the content of the machine's BootOrder file; it is
/// only read for indirect boot when the machine names such a file.
pub fn parse_boot_order(machine: &crate::machine::Machine, boot_order_data: &[u8]) -> (res: Result<
    (Vec<u8>, Vec<u16>),
    Error,
>)
    ensures
        match res {
            Ok((d, e)) => boot_order(
                machine.direct_boot,
                machine.boot_order@.len() > 0,
                boot_order_data@,
            ) == Ok::<(Seq<u8>, Seq<u16>), Error>((d@, e@)),
            Err(e) => boot_order(
                machine.direct_boot,
                machine.boot_order@.len() > 0,
                boot_order_data@,
            ) == Err::<(Seq<u8>, Seq<u16>), Error>(e),
        },
{
    if machine.direct_boot {
        let mut d: Vec<u8> = Vec::new();
        d.push(0);
        d.push(0);
        assert(d@ =~= seq![0u8, 0u8]);
        let e: Vec<u16> = Vec::new();
        assert(e@ =~= Seq::<u16>::empty());
        Ok((d, e))
    } else if !machine.boot_order.as_str().is_empty() {
        let n = boot_order_data.len();
        if n % 2 != 0 {
            return Err(Error::OddBootOrderLength);
        }
        let mut entries: Vec<u16> = Vec::new();
        let mut i: usize = 0;
        while i < n / 2
            invariant
                i <= n / 2,
                n == boot_order_data@.len(),
                n % 2 == 0,
                entries@ =~= boot_entries(boot_order_data@).take(i as int),
            decreases n / 2 - i,
        {
            entries.push(crate::bytes::read_u16(boot_order_data, 2 * i));
            i = i + 1;
        }
        assert(boot_entries(boot_order_data@).take((n / 2) as int) =~= boot_entries(
            boot_order_data@,
        ));
        let mut d: Vec<u8> = Vec::new();
        d.extend_from_slice(boot_order_data);
        assert(machine.boot_order@.len() > 0);
        assert(d@ =~= boot_order_data@);
        Ok((d, entries))
    } else {
        Err(Error::MissingBootOrder)
    }
}

} // verus!

verus! {

/// The file that holds boot variable `Boot####` for entry `n`: the
/// directory prefix, `Boot`, the number in four upper-case hexadecimal
/// digits (as UEFI names its boot options), and `.bin`.
pub open spec fn boot_variable_path(path_boot_xxxx: Seq<char>, n: u16) -> Seq<char> {
    path_boot_xxxx + seq!['B', 'o', 'o', 't'] + crate::text::hex4(n) + seq!['.', 'b', 'i', 'n']
}

/// Names the file of boot variable `Boot####` for entry `boot_entry_num`.
pub fn boot_variable_file(machine: &crate::machine::Machine, boot_entry_num: u16) -> (path: String)
    ensures
        path@ == boot_variable_path(machine.path_boot_xxxx@, boot_entry_num),
{
    let mut path = machine.path_boot_xxxx.clone();
    crate::text::string_push(&mut path, 'B');
    crate::text::string_push(&mut path, 'o');
    crate::text::string_push(&mut path, 'o');
    crate::text::string_push(&mut path, 't');
    crate::text::push_hex4(&mut path, boot_entry_num);
    crate::text::string_push(&mut path, '.');
    crate::text::string_push(&mut path, 'b');
    crate::text::string_push(&mut path, 'i');
    crate::text::string_push(&mut path, 'n');
    assert(path@ =~= boot_variable_path(machine.path_boot_xxxx@, boot_entry_num));
    path
}

} // verus!
