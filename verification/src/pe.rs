//! The Authenticode digest of a PE/COFF image, as the firmware measures an
//! EFI application.

use vstd::prelude::*;
use crate::bytes::{get_u16, get_u32, read_u16, read_u32};
use crate::error::Error;

verus! {

/// The `PE\0\0` signature that starts the NT headers (the value of
/// `object::pe::IMAGE_NT_SIGNATURE`, which the contracts speak of).
pub const IMAGE_NT_SIGNATURE: u32 = 0x0000_4550;

/// Index of the certificate table among the data directories (the value of
/// `object::pe::IMAGE_DIRECTORY_ENTRY_SECURITY`).
pub const IMAGE_DIRECTORY_ENTRY_SECURITY: u64 = 4;

/// The constant `object::pe::IMAGE_NT_SIGNATURE`; trusted to be `PE\0\0`
/// read as a little-endian `u32` (0x4550), as the `object` source defines it.
#[verifier::external_body]
fn nt_signature() -> (v: u32)
    ensures
        v == IMAGE_NT_SIGNATURE,
{
    object::pe::IMAGE_NT_SIGNATURE
}

/// The constant `object::pe::IMAGE_DIRECTORY_ENTRY_SECURITY`, widened to
/// `u64`; trusted to be 4, as the `object` source defines it.
#[verifier::external_body]
fn directory_entry_security() -> (v: u64)
    ensures
        v == IMAGE_DIRECTORY_ENTRY_SECURITY,
{
    object::pe::IMAGE_DIRECTORY_ENTRY_SECURITY as u64
}

/// Offset of the NT headers, stored at 0x3c.
pub open spec fn nt_offset(d: Seq<u8>) -> int {
    get_u32(d, 0x3c) as int
}

/// Offset of the COFF file header.
pub open spec fn coff_offset(d: Seq<u8>) -> int {
    nt_offset(d) + 4
}

/// Offset of the optional header.
pub open spec fn optional_offset(d: Seq<u8>) -> int {
    coff_offset(d) + 20
}

/// The optional header is the PE32+ one.
pub open spec fn is_pe32_plus(d: Seq<u8>) -> bool {
    get_u16(d, optional_offset(d)) == 0x20b
}

/// Offset of the certificate table's data directory entry.
pub open spec fn cert_dir_offset(d: Seq<u8>) -> int {
    optional_offset(d) + (if is_pe32_plus(d) {
        112int
    } else {
        96int
    }) + IMAGE_DIRECTORY_ENTRY_SECURITY * 8
}

/// `SizeOfHeaders` from the optional header.
pub open spec fn size_of_headers(d: Seq<u8>) -> int {
    get_u32(d, optional_offset(d) + 60) as int
}

/// Offset of the section table.
pub open spec fn section_table_offset(d: Seq<u8>) -> int {
    optional_offset(d) + get_u16(d, coff_offset(d) + 16) as int
}

/// Number of sections.
pub open spec fn section_count(d: Seq<u8>) -> nat {
    get_u16(d, coff_offset(d) + 2) as nat
}

/// What is wrong with the headers, checked in the order they are read.
pub open spec fn headers_error(d: Seq<u8>) -> Option<Error> {
    if 0x3c + 4 > d.len() {
        Some(Error::Truncated)
    } else if nt_offset(d) + 4 > d.len() {
        Some(Error::Truncated)
    } else if get_u32(d, nt_offset(d)) != IMAGE_NT_SIGNATURE {
        Some(Error::InvalidPeSignature)
    } else if coff_offset(d) + 18 > d.len() {
        Some(Error::Truncated)
    } else if optional_offset(d) + 2 > d.len() {
        Some(Error::Truncated)
    } else if optional_offset(d) + 64 > d.len() {
        Some(Error::Truncated)
    } else {
        None
    }
}

/// The images whose hashed header ranges lie in the image, in order: the
/// certificate directory entry ends before `SizeOfHeaders`, which is within
/// the image.
pub open spec fn authenticode_defined(d: Seq<u8>) -> bool {
    headers_error(d) is None ==> {
        &&& cert_dir_offset(d) <= d.len()
        &&& cert_dir_offset(d) + 8 <= size_of_headers(d)
        &&& size_of_headers(d) <= d.len()
    }
}

/// The `(PointerToRawData, SizeOfRawData)` of the first `k` section
/// headers, skipping those without raw data.
pub open spec fn raw_sections(d: Seq<u8>, st: int, k: nat) -> Result<Seq<(u32, u32)>, Error>
    decreases k,
{
    if k == 0 {
        Ok(Seq::empty())
    } else {
        match raw_sections(d, st, (k - 1) as nat) {
            Err(e) => Err(e),
            Ok(prev) => {
                let so = st + 40 * (k - 1);
                if so + 24 > d.len() {
                    Err(Error::Truncated)
                } else {
                    let size = get_u32(d, so + 16);
                    if size > 0 {
                        Ok(prev.push((get_u32(d, so + 20), size)))
                    } else {
                        Ok(prev)
                    }
                }
            },
        }
    }
}

/// Inserts `x` after every section whose offset is at or below its offset.
pub open spec fn insert_by_offset(sorted: Seq<(u32, u32)>, x: (u32, u32)) -> Seq<(u32, u32)>
    decreases sorted.len(),
{
    if sorted.len() == 0 {
        seq![x]
    } else if sorted.last().0 <= x.0 {
        sorted.push(x)
    } else {
        insert_by_offset(sorted.drop_last(), x).push(sorted.last())
    }
}

/// Sections in a stable order by raw data offset.
pub open spec fn sort_by_offset(s: Seq<(u32, u32)>) -> Seq<(u32, u32)>
    decreases s.len(),
{
    if s.len() == 0 {
        s
    } else {
        insert_by_offset(sort_by_offset(s.drop_last()), s.last())
    }
}

/// The part of a section's raw data that lies in the image.
pub open spec fn section_data(d: Seq<u8>, s: (u32, u32)) -> Seq<u8> {
    if s.0 + s.1 <= d.len() {
        d.subrange(s.0 as int, s.0 + s.1)
    } else if s.0 < d.len() {
        d.subrange(s.0 as int, d.len() as int)
    } else {
        Seq::empty()
    }
}

/// The raw data of the sections, in order.
pub open spec fn sections_data(d: Seq<u8>, secs: Seq<(u32, u32)>) -> Seq<u8>
    decreases secs.len(),
{
    if secs.len() == 0 {
        Seq::empty()
    } else {
        sections_data(d, secs.drop_last()) + section_data(d, secs.last())
    }
}

/// The sum of the sections' raw data sizes.
pub open spec fn sum_sizes(secs: Seq<(u32, u32)>) -> int
    decreases secs.len(),
{
    if secs.len() == 0 {
        0
    } else {
        sum_sizes(secs.drop_last()) + secs.last().1
    }
}

/// Data after the hashed sections and before the certificate table, when
/// there is a certificate table and the image extends beyond `hashed`.
pub open spec fn trailing_data(d: Seq<u8>, hashed: int) -> Seq<u8> {
    let cd = cert_dir_offset(d);
    let addr = get_u32(d, cd);
    let size = get_u32(d, cd + 4);
    if addr > 0 && size > 0 && d.len() > hashed && d.len() - hashed > size {
        d.subrange(hashed, d.len() - size)
    } else {
        Seq::empty()
    }
}

/// Zeros that pad the image's length to a multiple of 8.
pub open spec fn length_padding(d: Seq<u8>) -> Seq<u8> {
    if d.len() % 8 != 0 {
        crate::tdvf::zeros((8 - d.len() % 8) as nat)
    } else {
        Seq::empty()
    }
}

/// The bytes the Authenticode digest covers: the headers without the
/// checksum and the certificate directory entry, the sections' raw data by
/// file offset, the data before the certificate table, and the padding.
pub open spec fn authenticode_input(d: Seq<u8>) -> Result<Seq<u8>, Error> {
    match headers_error(d) {
        Some(e) => Err(e),
        None => match raw_sections(d, section_table_offset(d), section_count(d)) {
            Err(e) => Err(e),
            Ok(secs) => {
                let sorted = sort_by_offset(secs);
                let opt = optional_offset(d);
                let cd = cert_dir_offset(d);
                let soh = size_of_headers(d);
                Ok(
                    d.subrange(0, opt + 64) + d.subrange(opt + 68, cd) + d.subrange(cd + 8, soh)
                        + sections_data(d, sorted) + trailing_data(d, soh + sum_sizes(sorted))
                        + length_padding(d),
                )
            },
        },
    }
}

/// The Authenticode input is the image's hashed content followed by the
/// fewest zero bytes that bring the image's length to a multiple of 8: none
/// for an image whose length already is one.
pub proof fn lemma_authenticode_padding(d: Seq<u8>)
    ensures
        authenticode_input(d) matches Ok(m) ==> {
            let secs = sort_by_offset(
                raw_sections(d, section_table_offset(d), section_count(d))->Ok_0,
            );
            let opt = optional_offset(d);
            let cd = cert_dir_offset(d);
            let soh = size_of_headers(d);
            let content = d.subrange(0, opt + 64) + d.subrange(opt + 68, cd) + d.subrange(
                cd + 8,
                soh,
            ) + sections_data(d, secs) + trailing_data(d, soh + sum_sizes(secs));
            let pad = m.len() - content.len();
            &&& 0 <= pad < 8
            &&& (d.len() + pad) % 8 == 0
            &&& m == content + crate::tdvf::zeros(pad as nat)
            &&& d.len() % 8 == 0 ==> m == content
        },
{
    if let Ok(m) = authenticode_input(d) {
        let secs = sort_by_offset(raw_sections(d, section_table_offset(d), section_count(d))->Ok_0);
        let opt = optional_offset(d);
        let cd = cert_dir_offset(d);
        let soh = size_of_headers(d);
        let content = d.subrange(0, opt + 64) + d.subrange(opt + 68, cd) + d.subrange(cd + 8, soh)
            + sections_data(d, secs) + trailing_data(d, soh + sum_sizes(secs));
        assert(m == content + length_padding(d));
        if d.len() % 8 == 0 {
            assert(m =~= content);
            assert(crate::tdvf::zeros(0) =~= Seq::<u8>::empty());
            assert(m =~= content + crate::tdvf::zeros(0));
        } else {
            assert(length_padding(d).len() == 8 - d.len() % 8);
        }
    }
}

/// The Authenticode SHA-384 digest of the image, or why it has none.
pub open spec fn authenticode_digest(d: Seq<u8>) -> Result<Seq<u8>, Error> {
    match authenticode_input(d) {
        Ok(m) => Ok(crate::digest::sha384(m)),
        Err(e) => Err(e),
    }
}

/// The `(PointerToRawData, SizeOfRawData)` of section header `i`.
pub open spec fn section_entry(d: Seq<u8>, st: int, i: int) -> (u32, u32) {
    (get_u32(d, st + 40 * i + 20), get_u32(d, st + 40 * i + 16))
}

/// The 4-byte `CheckSum` field of the optional header, at `c`, is outside
/// the section headers that are read and outside every section's raw data.
pub open spec fn checksum_apart_from_sections(d: Seq<u8>, c: int) -> bool {
    forall|i: int|
        0 <= i < section_count(d) ==> {
            let so = section_table_offset(d) + 40 * i;
            let e = #[trigger] section_entry(d, section_table_offset(d), i);
            &&& so + 24 <= c || so + 16 >= c + 4
            &&& e.1 == 0 || e.0 + e.1 <= c || e.0 >= c + 4
        }
}

proof fn lemma_get_u32_apart(d: Seq<u8>, d2: Seq<u8>, c: int, x: int)
    requires
        d.len() == d2.len(),
        forall|i: int| 0 <= i < d.len() && !(c <= i < c + 4) ==> d2[i] == d[i],
        0 <= x,
        x + 4 <= d.len(),
        x + 4 <= c || x >= c + 4,
    ensures
        get_u32(d2, x) == get_u32(d, x),
{
    assert(d2[x] == d[x] && d2[x + 1] == d[x + 1] && d2[x + 2] == d[x + 2] && d2[x + 3] == d[x
        + 3]);
}

proof fn lemma_raw_sections_apart(d: Seq<u8>, d2: Seq<u8>, c: int, k: nat)
    requires
        d.len() == d2.len(),
        forall|i: int| 0 <= i < d.len() && !(c <= i < c + 4) ==> d2[i] == d[i],
        section_table_offset(d) >= 0,
        k <= section_count(d),
        checksum_apart_from_sections(d, c),
    ensures
        raw_sections(d2, section_table_offset(d), k) == raw_sections(d, section_table_offset(d), k),
        raw_sections(d, section_table_offset(d), k) matches Ok(secs) ==> forall|m: int|
            0 <= m < secs.len() ==> (#[trigger] secs[m]).1 == 0 || secs[m].0 + secs[m].1 <= c
                || secs[m].0 >= c + 4,
    decreases k,
{
    let st = section_table_offset(d);
    if k > 0 {
        lemma_raw_sections_apart(d, d2, c, (k - 1) as nat);
        let so = st + 40 * (k - 1);
        let e = section_entry(d, st, k - 1);
        assert(so + 24 <= c || so + 16 >= c + 4);
        if so + 24 <= d.len() {
            lemma_get_u32_apart(d, d2, c, so + 16);
            lemma_get_u32_apart(d, d2, c, so + 20);
        }
        if let Ok(secs) = raw_sections(d, st, k) {
            let prev = raw_sections(d, st, (k - 1) as nat)->Ok_0;
            assert forall|m: int| 0 <= m < secs.len() implies (#[trigger] secs[m]).1 == 0
                || secs[m].0 + secs[m].1 <= c || secs[m].0 >= c + 4 by {
                if m < prev.len() {
                    assert(secs[m] == prev[m]);
                } else {
                    assert(secs[m] == e);
                }
            }
        }
    }
}

proof fn lemma_insert_offset_member(sorted: Seq<(u32, u32)>, x: (u32, u32), y: (u32, u32))
    ensures
        insert_by_offset(sorted, x).contains(y) ==> y == x || sorted.contains(y),
    decreases sorted.len(),
{
    let r = insert_by_offset(sorted, x);
    if r.contains(y) && sorted.len() > 0 {
        let j = choose|j: int| 0 <= j < r.len() && r[j] == y;
        if sorted.last().0 <= x.0 {
            if j < sorted.len() {
                assert(sorted[j] == y);
            }
        } else {
            let p = insert_by_offset(sorted.drop_last(), x);
            if j < p.len() {
                assert(p.contains(y));
                lemma_insert_offset_member(sorted.drop_last(), x, y);
                if sorted.drop_last().contains(y) {
                    let k = choose|k: int| 0 <= k < sorted.drop_last().len() && sorted.drop_last()[k]
                        == y;
                    assert(sorted[k] == y);
                }
            } else {
                assert(sorted[sorted.len() - 1] == y);
            }
        }
    }
}

proof fn lemma_sort_offset_member(s: Seq<(u32, u32)>, y: (u32, u32))
    ensures
        sort_by_offset(s).contains(y) ==> s.contains(y),
    decreases s.len(),
{
    if s.len() > 0 {
        lemma_insert_offset_member(sort_by_offset(s.drop_last()), s.last(), y);
        lemma_sort_offset_member(s.drop_last(), y);
        if sort_by_offset(s).contains(y) {
            if y == s.last() {
                assert(s[s.len() - 1] == y);
            } else {
                let k = choose|k: int| 0 <= k < s.drop_last().len() && s.drop_last()[k] == y;
                assert(s[k] == y);
            }
        }
    }
}

proof fn lemma_sum_sizes_nonneg(secs: Seq<(u32, u32)>)
    ensures
        sum_sizes(secs) >= 0,
    decreases secs.len(),
{
    if secs.len() > 0 {
        lemma_sum_sizes_nonneg(secs.drop_last());
    }
}

proof fn lemma_sections_data_apart(d: Seq<u8>, d2: Seq<u8>, c: int, secs: Seq<(u32, u32)>)
    requires
        d.len() == d2.len(),
        forall|i: int| 0 <= i < d.len() && !(c <= i < c + 4) ==> d2[i] == d[i],
        forall|m: int|
            0 <= m < secs.len() ==> (#[trigger] secs[m]).1 == 0 || secs[m].0 + secs[m].1 <= c
                || secs[m].0 >= c + 4,
    ensures
        sections_data(d2, secs) == sections_data(d, secs),
    decreases secs.len(),
{
    if secs.len() > 0 {
        let p = secs.drop_last();
        assert forall|m: int| 0 <= m < p.len() implies (#[trigger] p[m]).1 == 0 || p[m].0 + p[m].1
            <= c || p[m].0 >= c + 4 by {
            assert(p[m] == secs[m]);
        }
        lemma_sections_data_apart(d, d2, c, p);
        let y = secs.last();
        assert(secs[secs.len() - 1] == y);
        assert(section_data(d2, y) =~= section_data(d, y));
    }
}

/// The Authenticode digest ignores the optional header's `CheckSum`
/// field: images that differ only there have the same digest, provided the
/// field lies within `SizeOfHeaders` and neither the section headers read
/// nor any section's raw data overlaps it (for the images whose digest
/// `authenticode_sha384_hash` computes).
pub proof fn lemma_authenticode_ignores_checksum(d: Seq<u8>, d2: Seq<u8>)
    requires
        headers_error(d) is None,
        authenticode_defined(d),
        d.len() == d2.len(),
        forall|i: int|
            0 <= i < d.len() && !(optional_offset(d) + 64 <= i < optional_offset(d) + 68) ==> d2[i]
                == d[i],
        optional_offset(d) + 68 <= size_of_headers(d),
        checksum_apart_from_sections(d, optional_offset(d) + 64),
    ensures
        authenticode_digest(d2) == authenticode_digest(d),
{
    let c = optional_offset(d) + 64;
    lemma_get_u32_apart(d, d2, c, 0x3c);
    assert(nt_offset(d2) == nt_offset(d));
    lemma_get_u32_apart(d, d2, c, nt_offset(d));
    assert(d2[coff_offset(d) + 2] == d[coff_offset(d) + 2]);
    assert(d2[coff_offset(d) + 3] == d[coff_offset(d) + 3]);
    assert(d2[coff_offset(d) + 16] == d[coff_offset(d) + 16]);
    assert(d2[coff_offset(d) + 17] == d[coff_offset(d) + 17]);
    assert(d2[optional_offset(d)] == d[optional_offset(d)]);
    assert(d2[optional_offset(d) + 1] == d[optional_offset(d) + 1]);
    assert(headers_error(d2) is None);
    assert(is_pe32_plus(d2) == is_pe32_plus(d));
    assert(cert_dir_offset(d2) == cert_dir_offset(d));
    lemma_get_u32_apart(d, d2, c, optional_offset(d) + 60);
    assert(size_of_headers(d2) == size_of_headers(d));
    assert(section_table_offset(d2) == section_table_offset(d));
    assert(section_count(d2) == section_count(d));
    lemma_raw_sections_apart(d, d2, c, section_count(d));
    let st = section_table_offset(d);
    if let Ok(secs) = raw_sections(d, st, section_count(d)) {
        let sorted = sort_by_offset(secs);
        assert forall|m: int| 0 <= m < sorted.len() implies (#[trigger] sorted[m]).1 == 0
            || sorted[m].0 + sorted[m].1 <= c || sorted[m].0 >= c + 4 by {
            assert(sorted.contains(sorted[m]));
            lemma_sort_offset_member(secs, sorted[m]);
            let k = choose|k: int| 0 <= k < secs.len() && secs[k] == sorted[m];
            assert(secs[k] == sorted[m]);
        }
        lemma_sections_data_apart(d, d2, c, sorted);
        let cd = cert_dir_offset(d);
        let soh = size_of_headers(d);
        lemma_get_u32_apart(d, d2, c, cd);
        lemma_get_u32_apart(d, d2, c, cd + 4);
        lemma_sum_sizes_nonneg(sorted);
        let hashed = soh + sum_sizes(sorted);
        if get_u32(d, cd) > 0 && get_u32(d, cd + 4) > 0 && d.len() > hashed && d.len() - hashed
            > get_u32(d, cd + 4) {
            assert(d2.subrange(hashed, d.len() - get_u32(d, cd + 4)) =~= d.subrange(
                hashed,
                d.len() - get_u32(d, cd + 4),
            ));
        }
        assert(trailing_data(d2, hashed) == trailing_data(d, hashed));
        assert(d2.subrange(0, optional_offset(d) + 64) =~= d.subrange(0, optional_offset(d) + 64));
        assert(d2.subrange(optional_offset(d) + 68, cd) =~= d.subrange(optional_offset(d) + 68, cd));
        assert(d2.subrange(cd + 8, soh) =~= d.subrange(cd + 8, soh));
    }
}

proof fn lemma_insert_offset_at(sorted: Seq<(u32, u32)>, x: (u32, u32), j: int)
    requires
        0 <= j <= sorted.len(),
        forall|k: int| j <= k < sorted.len() ==> sorted[k].0 > x.0,
        j > 0 ==> sorted[j - 1].0 <= x.0,
    ensures
        insert_by_offset(sorted, x) == sorted.insert(j, x),
    decreases sorted.len(),
{
    if sorted.len() == 0 {
        assert(sorted.insert(j, x) =~= seq![x]);
    } else if j == sorted.len() {
        assert(sorted.insert(j, x) =~= sorted.push(x));
    } else {
        lemma_insert_offset_at(sorted.drop_last(), x, j);
        assert(sorted.drop_last().insert(j, x).push(sorted.last()) =~= sorted.insert(j, x));
    }
}

/// Orders sections by raw data offset, keeping the order of equal offsets.
fn sort_sections_by_offset(v: Vec<(u32, u32)>) -> (r: Vec<(u32, u32)>)
    ensures
        r@ == sort_by_offset(v@),
{
    let mut out: Vec<(u32, u32)> = Vec::new();
    let mut i: usize = 0;
    assert(v@.take(0) =~= Seq::<(u32, u32)>::empty());
    while i < v.len()
        invariant
            i <= v@.len(),
            out@ == sort_by_offset(v@.take(i as int)),
        decreases v@.len() - i,
    {
        let x = v[i];
        let mut j: usize = out.len();
        while j > 0 && out[j - 1].0 > x.0
            invariant
                j <= out@.len(),
                forall|k: int| j <= k < out@.len() ==> out@[k].0 > x.0,
            decreases j,
        {
            j = j - 1;
        }
        proof {
            lemma_insert_offset_at(out@, x, j as int);
        }
        out.insert(j, x);
        assert(v@.take(i + 1).drop_last() =~= v@.take(i as int));
        i = i + 1;
    }
    assert(v@.take(v@.len() as int) =~= v@);
    out
}

proof fn lemma_raw_sections_err_persists(d: Seq<u8>, st: int, k: nat, n: nat)
    requires
        k <= n,
        raw_sections(d, st, k) is Err,
    ensures
        raw_sections(d, st, n) == raw_sections(d, st, k),
    decreases n - k,
{
    if k < n {
        lemma_raw_sections_err_persists(d, st, k, (n - 1) as nat);
    }
}

/// Reads the header fields that locate what is hashed:
/// `(optional header, certificate directory entry, SizeOfHeaders,
/// section table, section count)`.
fn read_headers(data: &[u8]) -> (res: Result<(u64, u64, u64, u64, u64), Error>)
    ensures
        match res {
            Ok((opt, cd, soh, st, num)) => {
                &&& headers_error(data@) is None
                &&& opt == optional_offset(data@)
                &&& cd == cert_dir_offset(data@)
                &&& soh == size_of_headers(data@)
                &&& st == section_table_offset(data@)
                &&& num == section_count(data@)
                &&& opt + 68 <= cd
                &&& authenticode_defined(data@) <==> (cd + 8 <= soh <= data@.len())
                &&& st <= u32::MAX + 0x10000 + 24
            },
            Err(e) => headers_error(data@) == Some(e),
        },
{
    let n64 = data.len() as u64;
    if n64 < 0x40 {
        return Err(Error::Truncated);
    }
    let lfanew = read_u32(data, 0x3c) as u64;
    if lfanew + 4 > n64 {
        return Err(Error::Truncated);
    }
    let pe_sig = read_u32(data, lfanew as usize);
    if pe_sig != nt_signature() {
        return Err(Error::InvalidPeSignature);
    }
    let coff = lfanew + 4;
    if coff + 18 > n64 {
        return Err(Error::Truncated);
    }
    let optional_header_size = read_u16(data, (coff + 16) as usize) as u64;
    let opt = coff + 20;
    if opt + 2 > n64 {
        return Err(Error::Truncated);
    }
    let magic = read_u16(data, opt as usize);
    let is_pe32_plus = magic == 0x20b;
    let data_dir_offset = opt + if is_pe32_plus {
        112
    } else {
        96
    };
    let cert_dir = data_dir_offset + directory_entry_security() * 8;
    if opt + 64 > n64 {
        return Err(Error::Truncated);
    }
    let size_of_headers = read_u32(data, (opt + 60) as usize) as u64;
    let num_sections = read_u16(data, (coff + 2) as usize) as u64;
    Ok((opt, cert_dir, size_of_headers, opt + optional_header_size, num_sections))
}

/// Reads the section headers that have raw data.
fn read_raw_sections(data: &[u8], st: u64, num: u64) -> (res: Result<Vec<(u32, u32)>, Error>)
    requires
        st <= u32::MAX + 0x10000 + 24,
        num <= 0xffff,
    ensures
        match res {
            Ok(v) => raw_sections(data@, st as int, num as nat) == Ok::<Seq<(u32, u32)>, Error>(v@),
            Err(e) => raw_sections(data@, st as int, num as nat) == Err::<Seq<(u32, u32)>, Error>(e),
        },
{
    let n64 = data.len() as u64;
    let mut sections: Vec<(u32, u32)> = Vec::new();
    let mut i: u64 = 0;
    while i < num
        invariant
            i <= num,
            num <= 0xffff,
            st <= u32::MAX + 0x10000 + 24,
            n64 == data@.len(),
            data@.len() <= usize::MAX,
            raw_sections(data@, st as int, i as nat) == Ok::<Seq<(u32, u32)>, Error>(sections@),
        decreases num - i,
    {
        let so = st + i * 40;
        if so + 24 > n64 {
            assert(raw_sections(data@, st as int, (i + 1) as nat) == Err::<Seq<(u32, u32)>, Error>(
                Error::Truncated,
            ));
            proof {
                lemma_raw_sections_err_persists(data@, st as int, (i + 1) as nat, num as nat);
            }
            return Err(Error::Truncated);
        }
        let ptr = read_u32(data, (so + 20) as usize);
        let size = read_u32(data, (so + 16) as usize);
        if size > 0 {
            sections.push((ptr, size));
        }
        i = i + 1;
    }
    Ok(sections)
}

/// Appends the raw data of the sections, in order; returns the sum of
/// their sizes.
fn append_sections(buf: &mut Vec<u8>, data: &[u8], secs: &Vec<(u32, u32)>) -> (sum: u128)
    ensures
        final(buf)@ == old(buf)@ + sections_data(data@, secs@),
        sum == sum_sizes(secs@),
        sum <= secs@.len() * 0x1_0000_0000,
        secs@.len() <= usize::MAX,
{
    let ghost start_buf = buf@;
    let _ = secs.len();
    let n64 = data.len() as u64;
    let mut sum: u128 = 0;
    let mut k: usize = 0;
    assert(secs@.take(0) =~= Seq::<(u32, u32)>::empty());
    while k < secs.len()
        invariant
            k <= secs@.len(),
            n64 == data@.len(),
            data@.len() <= usize::MAX,
            sum == sum_sizes(secs@.take(k as int)),
            sum <= k * 0x1_0000_0000,
            buf@ == start_buf + sections_data(data@, secs@.take(k as int)),
        decreases secs@.len() - k,
    {
        let (start, size) = secs[k];
        let end = start as u64 + size as u64;
        if end <= n64 {
            buf.extend_from_slice(&data[start as usize..end as usize]);
        } else if (start as u64) < n64 {
            buf.extend_from_slice(&data[start as usize..data.len()]);
        }
        sum = sum + size as u128;
        assert(secs@.take(k + 1).drop_last() =~= secs@.take(k as int));
        assert(buf@ =~= start_buf + sections_data(data@, secs@.take(k + 1)));
        k = k + 1;
    }
    assert(secs@.take(secs@.len() as int) =~= secs@);
    sum
}

/// Computes the Authenticode SHA-384 digest of a PE/COFF image.
pub fn authenticode_sha384_hash(data: &[u8]) -> (res: Result<Vec<u8>, Error>)
    requires
        authenticode_defined(data@),
    ensures
        res matches Ok(v) ==> v@.len() == crate::digest::DIGEST_LEN,
        match res {
            Ok(v) => authenticode_digest(data@) == Ok::<Seq<u8>, Error>(v@),
            Err(e) => authenticode_digest(data@) == Err::<Seq<u8>, Error>(e),
        },
{
    let ghost d = data@;
    let (opt, cert_dir, size_of_headers, section_table, num_sections) = read_headers(data)?;
    let checksum_offset = opt + 64;
    let checksum_end = checksum_offset + 4;
    let cert_dir_end = cert_dir + 8;
    let mut buf: Vec<u8> = Vec::new();
    buf.extend_from_slice(&data[0..checksum_offset as usize]);
    buf.extend_from_slice(&data[checksum_end as usize..cert_dir as usize]);
    buf.extend_from_slice(&data[cert_dir_end as usize..size_of_headers as usize]);
    let sections = read_raw_sections(data, section_table, num_sections)?;
    let sorted = sort_sections_by_offset(sections);
    let sum = size_of_headers as u128 + append_sections(&mut buf, data, &sorted);
    let n = data.len();
    let n128 = n as u128;
    let cert_table_addr = read_u32(data, cert_dir as usize);
    let cert_table_size = read_u32(data, (cert_dir + 4) as usize);
    let ghost before_trailing = buf@;
    if cert_table_addr > 0 && cert_table_size > 0 && n128 > sum {
        let trailing_data_len = n128 - sum;
        if trailing_data_len > cert_table_size as u128 {
            let hashed_trailing_len = trailing_data_len - cert_table_size as u128;
            let trailing_start = sum;
            buf.extend_from_slice(
                &data[trailing_start as usize..(trailing_start + hashed_trailing_len) as usize],
            );
        }
    }
    assert(buf@ =~= before_trailing + trailing_data(d, size_of_headers + sum_sizes(sorted@)));
    let remainder = n % 8;
    if remainder != 0 {
        crate::bytes::push_zeros(&mut buf, 8 - remainder);
    }
    assert(buf@ =~= authenticode_input(d)->Ok_0);
    Ok(crate::digest::measure_sha384(buf.as_slice()))
}

/// Whether the Authenticode digest of `data` can be computed without
/// reading outside it (the inputs `authenticode_sha384_hash` accepts).
pub fn authenticode_is_defined(data: &[u8]) -> (b: bool)
    ensures
        b == authenticode_defined(data@),
{
    match read_headers(data) {
        Ok((_opt, cd, soh, _st, _num)) => cd + 8 <= soh && soh <= data.len() as u64,
        Err(_) => true,
    }
}

/// Sections are in order of their raw data offsets.
pub open spec fn offsets_sorted(s: Seq<(u32, u32)>) -> bool {
    forall|i: int, j: int| 0 <= i <= j < s.len() ==> s[i].0 <= s[j].0
}

proof fn lemma_insert_offset_multiset(s: Seq<(u32, u32)>, x: (u32, u32))
    ensures
        insert_by_offset(s, x).to_multiset() =~= s.to_multiset().insert(x),
        insert_by_offset(s, x).len() == s.len() + 1,
    decreases s.len(),
{
    broadcast use vstd::seq_lib::group_to_multiset_ensures;

    if s.len() == 0 {
        assert(seq![x] =~= Seq::<(u32, u32)>::empty().push(x));
    } else if s.last().0 <= x.0 {
    } else {
        lemma_insert_offset_multiset(s.drop_last(), x);
        assert(s =~= s.drop_last().push(s.last()));
    }
}

proof fn lemma_insert_offset_sorted(s: Seq<(u32, u32)>, x: (u32, u32))
    requires
        offsets_sorted(s),
    ensures
        offsets_sorted(insert_by_offset(s, x)),
    decreases s.len(),
{
    if s.len() > 0 && s.last().0 > x.0 {
        let p = s.drop_last();
        let r = insert_by_offset(p, x);
        assert(offsets_sorted(p)) by {
            assert forall|i: int, j: int| 0 <= i <= j < p.len() implies p[i].0 <= p[j].0 by {
                assert(p[i] == s[i] && p[j] == s[j]);
            }
        }
        lemma_insert_offset_sorted(p, x);
        assert forall|i: int| 0 <= i < r.len() implies r[i].0 <= s.last().0 by {
            assert(r.contains(r[i]));
            lemma_insert_offset_member(p, x, r[i]);
            if r[i] != x {
                let k = choose|k: int| 0 <= k < p.len() && p[k] == r[i];
                assert(s[k] == p[k]);
                assert(s[s.len() - 1] == s.last());
            }
        }
        assert(insert_by_offset(s, x) == r.push(s.last()));
    }
}

/// The sections are hashed in order of their raw data offsets.
pub proof fn lemma_sort_by_offset_sorted(s: Seq<(u32, u32)>)
    ensures
        offsets_sorted(sort_by_offset(s)),
    decreases s.len(),
{
    if s.len() > 0 {
        lemma_sort_by_offset_sorted(s.drop_last());
        lemma_insert_offset_sorted(sort_by_offset(s.drop_last()), s.last());
    }
}

/// Ordering the sections by offset keeps exactly the sections it is given,
/// each as often as it occurs.
pub proof fn lemma_sort_by_offset_permutes(s: Seq<(u32, u32)>)
    ensures
        sort_by_offset(s).to_multiset() =~= s.to_multiset(),
    decreases s.len(),
{
    broadcast use vstd::seq_lib::group_to_multiset_ensures;

    if s.len() > 0 {
        lemma_sort_by_offset_permutes(s.drop_last());
        lemma_insert_offset_multiset(sort_by_offset(s.drop_last()), s.last());
        assert(s =~= s.drop_last().push(s.last()));
    }
}

/// The `(PointerToRawData, SizeOfRawData)` of the first `k` section
/// headers of the table at `st`.
pub open spec fn section_headers(d: Seq<u8>, st: int, k: nat) -> Seq<(u32, u32)> {
    Seq::new(k, |i: int| section_entry(d, st, i))
}

/// The sections that have raw data.
pub open spec fn with_raw_data(s: Seq<(u32, u32)>) -> Seq<(u32, u32)> {
    s.filter(|e: (u32, u32)| e.1 > 0)
}

/// Reading `k` section headers succeeds exactly when the last header's
/// fields lie in the image, and gives, in header order, the offset and size
/// of each section that has raw data.
pub proof fn lemma_raw_sections_are_headers_with_data(d: Seq<u8>, st: int, k: nat)
    requires
        0 <= st,
    ensures
        raw_sections(d, st, k) is Ok <==> (k == 0 || st + 40 * (k - 1) + 24 <= d.len()),
        raw_sections(d, st, k) matches Ok(v) ==> v == with_raw_data(section_headers(d, st, k)),
    decreases k,
{
    reveal(Seq::filter);
    if k > 0 {
        let m = (k - 1) as nat;
        lemma_raw_sections_are_headers_with_data(d, st, m);
        let h = section_headers(d, st, k);
        assert(h.drop_last() =~= section_headers(d, st, m));
        assert(h.last() == section_entry(d, st, k - 1));
        if st + 40 * (k - 1) + 24 <= d.len() && m > 0 {
            assert(st + 40 * (m - 1) + 24 <= d.len());
        }
    }
}

} // verus!
