//! The boot chain of an indirect-boot disk image (GPT, shim, GRUB, initrd),
//! and the RTMR1 and RTMR2 values of indirect boot.

use vstd::prelude::*;
use vstd::string::StrSliceExecFns;
use vstd::string::StringExecFns;
use crate::bytes::{get_u32, get_u64, push_u64, read_u32, read_u64, u64_le};
use crate::digest::{
    byte_strings, measure_log, measure_separator, measure_sha384, measure_text, replay_log,
    separator, sha384, EV_CALLING_EFI_APP, EV_EXIT_BOOT_SERVICES_INVOCATION,
    EV_EXIT_BOOT_SERVICES_SUCCESS,
};
use crate::error::Error;
use crate::text::{is_whitespace, string_push, utf16_encode, utf16le};
use vstd::string::StringSliceAdditionalSpecFns;

verus! {

/// The signature `EFI PART` of a GPT header.
pub open spec fn gpt_signature() -> Seq<u8> {
    seq![0x45u8, 0x46, 0x49, 0x20, 0x50, 0x41, 0x52, 0x54]
}

/// The LBA of the partition entries.
pub open spec fn partition_entry_lba(h: Seq<u8>) -> u64 {
    get_u64(h, 72)
}

/// The number of partition entries.
pub open spec fn partition_entry_count(h: Seq<u8>) -> u32 {
    get_u32(h, 80)
}

/// The size of a partition entry.
pub open spec fn partition_entry_size(h: Seq<u8>) -> u32 {
    get_u32(h, 84)
}

/// What is wrong with a GPT header, if anything.
pub open spec fn gpt_header_error(h: Seq<u8>) -> Option<Error> {
    if h.len() < 92 {
        Some(Error::GptHeaderTooShort)
    } else if h.subrange(0, 8) != gpt_signature() {
        Some(Error::InvalidGptSignature)
    } else {
        None
    }
}

/// Where the partition entries lie on the disk, in bytes: their offset,
/// and their length rounded up to whole 512-byte sectors.
pub open spec fn gpt_entries_extent(h: Seq<u8>) -> (u64, u64) {
    let size = partition_entry_count(h) * partition_entry_size(h);
    ((partition_entry_lba(h) * 512) as u64, (((size + 511) / 512) * 512) as u64)
}

/// The partition entries' offset fits in 64 bits.
pub open spec fn gpt_header_defined(h: Seq<u8>) -> bool {
    gpt_header_error(h) is None ==> partition_entry_lba(h) * 512 <= u64::MAX
}

fn check_gpt_header(gpt_header: &[u8]) -> (res: Result<(), Error>)
    ensures
        match res {
            Ok(_) => gpt_header_error(gpt_header@) is None,
            Err(e) => gpt_header_error(gpt_header@) == Some(e),
        },
{
    if gpt_header.len() < 92 {
        return Err(Error::GptHeaderTooShort);
    }
    let sig = &gpt_header[0..8];
    if !(sig[0] == 0x45 && sig[1] == 0x46 && sig[2] == 0x49 && sig[3] == 0x20 && sig[4] == 0x50
        && sig[5] == 0x41 && sig[6] == 0x52 && sig[7] == 0x54) {
        assert(gpt_header@.subrange(0, 8) != gpt_signature()) by {
            if gpt_header@.subrange(0, 8) == gpt_signature() {
                assert(sig@ == gpt_header@.subrange(0, 8));
                assert(sig@[0] == 0x45 && sig@[1] == 0x46 && sig@[2] == 0x49 && sig@[3] == 0x20
                    && sig@[4] == 0x50 && sig@[5] == 0x41 && sig@[6] == 0x52 && sig@[7] == 0x54);
            }
        }
        return Err(Error::InvalidGptSignature);
    }
    assert(gpt_header@.subrange(0, 8) =~= gpt_signature());
    Ok(())
}

/// Checks the GPT header (LBA 1) and locates the partition entries:
/// returns their byte offset and length on the disk.
pub fn gpt_entries_location(gpt_header: &[u8]) -> (res: Result<(u64, u64), Error>)
    requires
        gpt_header_defined(gpt_header@),
    ensures
        match res {
            Ok(r) => gpt_header_error(gpt_header@) is None && r == gpt_entries_extent(gpt_header@),
            Err(e) => gpt_header_error(gpt_header@) == Some(e),
        },
{
    check_gpt_header(gpt_header)?;
    let lba = read_u64(gpt_header, 72);
    let num_entries = read_u32(gpt_header, 80) as u64;
    let entry_size = read_u32(gpt_header, 84) as u64;
    assert(num_entries * entry_size <= 0xffff_ffff * 0xffff_ffff) by (nonlinear_arith)
        requires
            num_entries <= 0xffff_ffff,
            entry_size <= 0xffff_ffff,
    ;
    let entries_size = num_entries * entry_size;
    let sectors_needed = (entries_size + 511) / 512;
    Ok((lba * 512, sectors_needed * 512))
}

/// Whether the partition entries' offset that the GPT header gives fits
/// in 64 bits (the headers `gpt_entries_location` accepts).
pub fn gpt_header_is_defined(gpt_header: &[u8]) -> (b: bool)
    ensures
        b == gpt_header_defined(gpt_header@),
{
    match check_gpt_header(gpt_header) {
        Ok(_) => read_u64(gpt_header, 72) <= u64::MAX / 512,
        Err(_) => true,
    }
}

/// The valid partition entries among the first `k` of `entries`: those
/// whose type GUID (first 16 bytes) is not all zero; the scan stops at the
/// first entry that does not fit in `entries`.
pub open spec fn valid_entries(entries: Seq<u8>, size: int, k: nat) -> Seq<Seq<u8>>
    decreases k,
{
    if k == 0 {
        Seq::empty()
    } else {
        let prev = valid_entries(entries, size, (k - 1) as nat);
        let off = (k - 1) * size;
        if off + size > entries.len() {
            prev
        } else {
            let e = entries.subrange(off, off + size);
            if e.subrange(0, 16) == crate::tdvf::zeros(16) {
                prev
            } else {
                prev.push(e)
            }
        }
    }
}

/// Some entry before the `k`-th fails to fit, so the scan has stopped.
pub open spec fn scan_stopped(entries: Seq<u8>, size: int, k: nat) -> bool {
    exists|j: int| 0 <= j < k && #[trigger] (j * size) + size > entries.len()
}

/// With a valid header, the scan's entries hold their 16-byte type GUID.
pub open spec fn gpt_entries_defined(h: Seq<u8>, entries: Seq<u8>) -> bool {
    let size = partition_entry_size(h) as int;
    (gpt_header_error(h) is None && partition_entry_count(h) > 0 && size <= entries.len()) ==> size
        >= 16
}

/// Whether every partition entry scanned holds its 16-byte type GUID (the
/// inputs `gpt_event_data` accepts).
pub fn gpt_entries_is_defined(gpt_header: &[u8], all_entries: &[u8]) -> (b: bool)
    ensures
        b == gpt_entries_defined(gpt_header@, all_entries@),
{
    if check_gpt_header(gpt_header).is_err() {
        return true;
    }
    let count = read_u32(gpt_header, 80);
    let size = read_u32(gpt_header, 84);
    !(count > 0 && size as usize <= all_entries.len()) || size >= 16
}

/// The concatenation of byte strings.
pub open spec fn concat(s: Seq<Seq<u8>>) -> Seq<u8>
    decreases s.len(),
{
    if s.len() == 0 {
        Seq::empty()
    } else {
        concat(s.drop_last()) + s.last()
    }
}

/// The EFI_GPT_DATA of a disk: the 92-byte GPT header, the number of valid
/// partitions, and their entries.
pub open spec fn gpt_event_data_of(h: Seq<u8>, entries: Seq<u8>) -> Result<Seq<u8>, Error> {
    match gpt_header_error(h) {
        Some(e) => Err(e),
        None => {
            let v = valid_entries(
                entries,
                partition_entry_size(h) as int,
                partition_entry_count(h) as nat,
            );
            Ok(h.subrange(0, 92) + u64_le(v.len() as u64) + concat(v))
        },
    }
}

proof fn lemma_valid_entries_len(entries: Seq<u8>, size: int, k: nat)
    ensures
        valid_entries(entries, size, k).len() <= k,
    decreases k,
{
    if k > 0 {
        lemma_valid_entries_len(entries, size, (k - 1) as nat);
    }
}

proof fn lemma_valid_entries_stopped(entries: Seq<u8>, size: int, k: nat, n: nat)
    requires
        k <= n,
        size >= 0,
        k * size > entries.len() || (k > 0 && (k - 1) * size + size > entries.len()),
    ensures
        valid_entries(entries, size, n) == valid_entries(entries, size, k),
    decreases n - k,
{
    if k < n {
        lemma_valid_entries_stopped(entries, size, k, (n - 1) as nat);
        assert((n - 1) * size >= k * size) by (nonlinear_arith)
            requires
                n - 1 >= k,
                size >= 0,
        ;
        if k > 0 {
            assert(k * size == (k - 1) * size + size) by (nonlinear_arith);
        }
    }
}

proof fn lemma_valid_entries_sized(entries: Seq<u8>, size: int, k: nat)
    requires
        size >= 0,
    ensures
        forall|i: int|
            0 <= i < valid_entries(entries, size, k).len() ==> (#[trigger] valid_entries(
                entries,
                size,
                k,
            )[i]).len() == size,
    decreases k,
{
    if k > 0 {
        lemma_valid_entries_sized(entries, size, (k - 1) as nat);
        let prev = valid_entries(entries, size, (k - 1) as nat);
        let off = (k - 1) * size;
        let cur = valid_entries(entries, size, k);
        if off + size <= entries.len() {
            let e = entries.subrange(off, off + size);
            assert(e.len() == size);
            assert forall|i: int| 0 <= i < cur.len() implies (#[trigger] cur[i]).len() == size by {
                if i < prev.len() {
                    assert(cur[i] == prev[i]);
                }
            }
        }
    }
}

proof fn lemma_concat_len(s: Seq<Seq<u8>>, size: int)
    requires
        forall|i: int| 0 <= i < s.len() ==> (#[trigger] s[i]).len() == size,
    ensures
        concat(s).len() == s.len() * size,
    decreases s.len(),
{
    if s.len() > 0 {
        assert forall|i: int| 0 <= i < s.drop_last().len() implies (#[trigger] s.drop_last()[i]).len()
            == size by {
            assert(s.drop_last()[i] == s[i]);
        }
        lemma_concat_len(s.drop_last(), size);
        assert(s.last() == s[s.len() - 1]);
        assert((s.len() - 1) * size + size == s.len() * size) by (nonlinear_arith);
    }
}

/// The EFI_GPT_DATA is the 92-byte GPT header, the number of valid
/// partition entries (at most the number the header lists), and that many
/// entries of the header's entry size.
pub proof fn lemma_gpt_event_data_layout(h: Seq<u8>, entries: Seq<u8>)
    ensures
        gpt_event_data_of(h, entries) matches Ok(v) ==> {
            let n = get_u64(v, 92);
            &&& v.take(92) == h.take(92)
            &&& n <= partition_entry_count(h)
            &&& v.len() == 100 + n * partition_entry_size(h)
        },
{
    if gpt_header_error(h) is None {
        let size = partition_entry_size(h) as int;
        let ve = valid_entries(entries, size, partition_entry_count(h) as nat);
        lemma_valid_entries_len(entries, size, partition_entry_count(h) as nat);
        lemma_valid_entries_sized(entries, size, partition_entry_count(h) as nat);
        lemma_concat_len(ve, size);
        let v = h.subrange(0, 92) + u64_le(ve.len() as u64) + concat(ve);
        crate::bytes::lemma_u64_le_roundtrip(ve.len() as u64);
        let w = u64_le(ve.len() as u64);
        assert(v[92] == w[0] && v[93] == w[1] && v[94] == w[2] && v[95] == w[3]);
        assert(v[96] == w[4] && v[97] == w[5] && v[98] == w[6] && v[99] == w[7]);
        assert(get_u32(v, 92) == get_u32(w, 0));
        assert(get_u32(v, 96) == get_u32(w, 4));
        assert(v.take(92) =~= h.take(92));
    }
}

/// The first `k` partition entry slots of `size` bytes.
pub open spec fn entry_slots(entries: Seq<u8>, size: int, k: nat) -> Seq<Seq<u8>> {
    Seq::new(k, |i: int| entries.subrange(i * size, i * size + size))
}

/// The entries in use: those whose partition type GUID is not all zero.
pub open spec fn used_entries(s: Seq<Seq<u8>>) -> Seq<Seq<u8>> {
    s.filter(|e: Seq<u8>| e.subrange(0, 16) != crate::tdvf::zeros(16))
}

proof fn lemma_valid_entries_are_used_slots(entries: Seq<u8>, size: int, k: nat)
    requires
        size >= 0,
        k * size <= entries.len(),
    ensures
        valid_entries(entries, size, k) == used_entries(entry_slots(entries, size, k)),
    decreases k,
{
    reveal(Seq::filter);
    if k > 0 {
        let m = (k - 1) as nat;
        assert(m * size + size == k * size) by (nonlinear_arith)
            requires
                m == k - 1,
        ;
        assert(m * size <= entries.len()) by (nonlinear_arith)
            requires
                m * size + size <= entries.len(),
                size >= 0,
        ;
        lemma_valid_entries_are_used_slots(entries, size, m);
        let sl = entry_slots(entries, size, k);
        assert(sl.drop_last() =~= entry_slots(entries, size, m));
        assert(sl.last() == entries.subrange(m * size, m * size + size));
    }
}

proof fn lemma_concat_at(s: Seq<Seq<u8>>, size: int, j: int)
    requires
        forall|i: int| 0 <= i < s.len() ==> (#[trigger] s[i]).len() == size,
        0 <= j < s.len(),
    ensures
        j * size + size <= concat(s).len(),
        concat(s).subrange(j * size, j * size + size) == s[j],
    decreases s.len(),
{
    let d = s.drop_last();
    assert forall|i: int| 0 <= i < d.len() implies (#[trigger] d[i]).len() == size by {
        assert(d[i] == s[i]);
    }
    lemma_concat_len(d, size);
    lemma_concat_len(s, size);
    assert(s.last() == s[s.len() - 1]);
    assert(concat(s) == concat(d) + s.last());
    if j == s.len() - 1 {
        assert(concat(s).subrange(j * size, j * size + size) =~= s.last());
    } else {
        lemma_concat_at(d, size, j);
        assert(d[j] == s[j]);
        assert(concat(s).subrange(j * size, j * size + size) =~= concat(d).subrange(
            j * size,
            j * size + size,
        ));
    }
}

/// When every listed entry slot lies in the entries read, the EFI_GPT_DATA
/// holds, after the header and the count, exactly the entries in use (those
/// whose type GUID is not all zero), in slot order.
pub proof fn lemma_gpt_event_data_used_entries(h: Seq<u8>, entries: Seq<u8>)
    requires
        partition_entry_count(h) * partition_entry_size(h) <= entries.len(),
    ensures
        gpt_event_data_of(h, entries) matches Ok(v) ==> {
            let size = partition_entry_size(h) as int;
            let used = used_entries(
                entry_slots(entries, size, partition_entry_count(h) as nat),
            );
            &&& get_u64(v, 92) == used.len()
            &&& forall|j: int|
                0 <= j < used.len() ==> #[trigger] v.subrange(100 + j * size, 100 + j * size + size)
                    == used[j]
        },
{
    if gpt_header_error(h) is None {
        let size = partition_entry_size(h) as int;
        let k = partition_entry_count(h) as nat;
        lemma_valid_entries_are_used_slots(entries, size, k);
        lemma_gpt_event_data_layout(h, entries);
        let ve = valid_entries(entries, size, k);
        lemma_valid_entries_len(entries, size, k);
        lemma_valid_entries_sized(entries, size, k);
        let head = h.subrange(0, 92) + u64_le(ve.len() as u64);
        let v = head + concat(ve);
        assert(head.len() == 100);
        crate::bytes::lemma_u64_le_roundtrip(ve.len() as u64);
        let w = u64_le(ve.len() as u64);
        assert(v[92] == w[0] && v[93] == w[1] && v[94] == w[2] && v[95] == w[3]);
        assert(v[96] == w[4] && v[97] == w[5] && v[98] == w[6] && v[99] == w[7]);
        assert(get_u32(v, 92) == get_u32(w, 0));
        assert(get_u32(v, 96) == get_u32(w, 4));
        assert(get_u64(v, 92) == ve.len());
        assert forall|j: int| 0 <= j < ve.len() implies #[trigger] v.subrange(
            100 + j * size,
            100 + j * size + size,
        ) == ve[j] by {
            lemma_concat_at(ve, size, j);
            assert(v.subrange(100 + j * size, 100 + j * size + size) =~= concat(ve).subrange(
                j * size,
                j * size + size,
            ));
        }
    }
}

/// Builds the EFI_GPT_DATA that the firmware measures for the GPT: the
/// header, the count of valid partition entries, and those entries, from
/// the GPT header and the sectors that hold the partition entries.
pub fn gpt_event_data(gpt_header: &[u8], all_entries: &[u8]) -> (res: Result<Vec<u8>, Error>)
    requires
        gpt_entries_defined(gpt_header@, all_entries@),
    ensures
        match res {
            Ok(v) => gpt_event_data_of(gpt_header@, all_entries@) == Ok::<Seq<u8>, Error>(v@),
            Err(e) => gpt_event_data_of(gpt_header@, all_entries@) == Err::<Seq<u8>, Error>(e),
        },
{
    check_gpt_header(gpt_header)?;
    let num_entries = read_u32(gpt_header, 80) as u64;
    let entry_size = read_u32(gpt_header, 84) as u64;
    let n = all_entries.len() as u64;
    let ghost size = entry_size as int;
    let mut valid: Vec<u8> = Vec::new();
    let mut count: u64 = 0;
    let mut i: u64 = 0;
    while i < num_entries
        invariant_except_break
            i <= num_entries,
            num_entries == partition_entry_count(gpt_header@),
            entry_size == partition_entry_size(gpt_header@),
            n == all_entries@.len(),
            all_entries@.len() <= usize::MAX,
            gpt_entries_defined(gpt_header@, all_entries@),
            gpt_header_error(gpt_header@) is None,
            i * entry_size <= n,
            size == entry_size,
            valid@ == concat(valid_entries(all_entries@, size, i as nat)),
            count == valid_entries(all_entries@, size, i as nat).len(),
            count <= i,
        ensures
            valid@ == concat(
                valid_entries(all_entries@, size, partition_entry_count(gpt_header@) as nat),
            ),
            count == valid_entries(
                all_entries@,
                size,
                partition_entry_count(gpt_header@) as nat,
            ).len(),
        decreases num_entries - i,
    {
        let entry_offset = i * entry_size;
        if entry_size > n - entry_offset {
            proof {
                lemma_valid_entries_stopped(all_entries@, size, (i + 1) as nat, num_entries as nat);
            }
            break;
        }
        let entry = &all_entries[entry_offset as usize..(entry_offset + entry_size) as usize];
        let ghost before = valid_entries(all_entries@, size, i as nat);
        let mut nonzero = false;
        let mut j: usize = 0;
        while j < 16
            invariant
                j <= 16,
                entry@.len() >= 16,
                nonzero == exists|m: int| 0 <= m < j && #[trigger] entry@[m] != 0,
            decreases 16 - j,
        {
            if entry[j] != 0 {
                nonzero = true;
            }
            j = j + 1;
        }
        if nonzero {
            assert(entry@.subrange(0, 16) != crate::tdvf::zeros(16)) by {
                let m = choose|m: int| 0 <= m < 16 && #[trigger] entry@[m] != 0;
                assert(entry@.subrange(0, 16)[m] != crate::tdvf::zeros(16)[m]);
            }
            let ghost vbefore = valid@;
            valid.extend_from_slice(entry);
            count = count + 1;
            assert(before.push(entry@).drop_last() =~= before);
            assert(concat(before.push(entry@)) =~= concat(before) + entry@);
            assert(valid_entries(all_entries@, size, (i + 1) as nat) == before.push(entry@));
        } else {
            assert(entry@.subrange(0, 16) =~= crate::tdvf::zeros(16));
            assert(valid_entries(all_entries@, size, (i + 1) as nat) == before);
        }
        i = i + 1;
        assert(i * entry_size == (i - 1) * entry_size + entry_size) by (nonlinear_arith);
    }
    let mut out: Vec<u8> = Vec::new();
    out.extend_from_slice(&gpt_header[0..92]);
    push_u64(&mut out, count);
    out.extend_from_slice(valid.as_slice());
    assert(out@ =~= gpt_event_data_of(gpt_header@, all_entries@)->Ok_0);
    Ok(out)
}

} // verus!

verus! {

/// Length of the run of non-whitespace characters that starts `t`.
pub open spec fn word_len(t: Seq<char>) -> nat
    decreases t.len(),
{
    if t.len() == 0 || is_whitespace(t[0]) {
        0
    } else {
        1 + word_len(t.drop_first())
    }
}

/// A word is a run of non-whitespace characters ended by whitespace or the end.
pub proof fn lemma_word_len(t: Seq<char>)
    ensures
        word_len(t) <= t.len(),
        t.len() > 0 && !is_whitespace(t[0]) ==> word_len(t) >= 1,
        forall|k: int| 0 <= k < word_len(t) ==> !is_whitespace(#[trigger] t[k]),
        word_len(t) < t.len() ==> is_whitespace(t[word_len(t) as int]),
    decreases t.len(),
{
    if t.len() > 0 && !is_whitespace(t[0]) {
        lemma_word_len(t.drop_first());
        assert forall|k: int| 0 <= k < word_len(t) implies !is_whitespace(#[trigger] t[k]) by {
            if k > 0 {
                assert(t[k] == t.drop_first()[k - 1]);
            }
        }
        if word_len(t) < t.len() {
            assert(t[word_len(t) as int] == t.drop_first()[word_len(t.drop_first()) as int]);
        }
    }
}

/// The characters `BOOT_IMAGE=`.
pub open spec fn boot_image_key() -> Seq<char> {
    seq!['B', 'O', 'O', 'T', '_', 'I', 'M', 'A', 'G', 'E', '=']
}

/// The characters `vmlinuz-`.
pub open spec fn vmlinuz_prefix() -> Seq<char> {
    seq!['v', 'm', 'l', 'i', 'n', 'u', 'z', '-']
}

/// The first position at or after `i` where `pat` occurs in `b`.
pub open spec fn find_from(b: Seq<char>, pat: Seq<char>, i: int) -> Option<int>
    decreases b.len() + 1 - i,
{
    if i < 0 || i + pat.len() > b.len() {
        None
    } else if b.subrange(i, i + pat.len()) == pat {
        Some(i)
    } else {
        find_from(b, pat, i + 1)
    }
}

/// The kernel version that a command-line word names: for
/// `BOOT_IMAGE=<path>`, what follows the first `vmlinuz-` in the path, when
/// that is not empty.
pub open spec fn word_version(w: Seq<char>) -> Option<Seq<char>> {
    if w.len() >= 11 && w.take(11) == boot_image_key() {
        let b = w.skip(11);
        match find_from(b, vmlinuz_prefix(), 0) {
            Some(p) => if b.len() > p + 8 {
                Some(b.skip(p + 8))
            } else {
                None
            },
            None => None,
        }
    } else {
        None
    }
}

/// The kernel version named by the first whitespace-separated word of `s`
/// that names one.
pub open spec fn kernel_version_in(s: Seq<char>) -> Option<Seq<char>>
    decreases s.len(),
{
    if s.len() == 0 {
        None
    } else if is_whitespace(s[0]) {
        kernel_version_in(s.drop_first())
    } else {
        proof {
            lemma_word_len(s);
        }
        match word_version(s.take(word_len(s) as int)) {
            Some(v) => Some(v),
            None => kernel_version_in(s.skip(word_len(s) as int)),
        }
    }
}

proof fn lemma_find_from_found(b: Seq<char>, pat: Seq<char>, i: int)
    ensures
        find_from(b, pat, i) matches Some(p) ==> i <= p && p + pat.len() <= b.len()
            && b.subrange(p, p + pat.len()) == pat,
    decreases b.len() + 1 - i,
{
    if !(i < 0 || i + pat.len() > b.len()) && b.subrange(i, i + pat.len()) != pat {
        lemma_find_from_found(b, pat, i + 1);
    }
}

/// The text of `s` at `i` is `vmlinuz-` followed by `v`.
pub open spec fn version_at(s: Seq<char>, i: int, v: Seq<char>) -> bool {
    &&& 8 <= i
    &&& i + v.len() <= s.len()
    &&& s.subrange(i - 8, i) == vmlinuz_prefix()
    &&& s.subrange(i, i + v.len()) == v
}

/// The kernel version found on a command line is not empty, holds no
/// whitespace, and stands in the command line right after `vmlinuz-`.
pub proof fn lemma_kernel_version_found(s: Seq<char>)
    ensures
        kernel_version_in(s) matches Some(v) ==> {
            &&& v.len() > 0
            &&& forall|k: int| 0 <= k < v.len() ==> !is_whitespace(#[trigger] v[k])
            &&& exists|i: int| version_at(s, i, v)
        },
    decreases s.len(),
{
    if s.len() > 0 {
        if is_whitespace(s[0]) {
            let t = s.drop_first();
            lemma_kernel_version_found(t);
            if let Some(v) = kernel_version_in(t) {
                let i = choose|i: int| version_at(t, i, v);
                assert(s.subrange(i + 1 - 8, i + 1) =~= t.subrange(i - 8, i));
                assert(s.subrange(i + 1, i + 1 + v.len()) =~= t.subrange(i, i + v.len()));
                assert(version_at(s, i + 1, v));
            }
        } else {
            lemma_word_len(s);
            let n = word_len(s) as int;
            let w = s.take(n);
            match word_version(w) {
                Some(v) => {
                    let b = w.skip(11);
                    lemma_find_from_found(b, vmlinuz_prefix(), 0);
                    let p = find_from(b, vmlinuz_prefix(), 0)->0;
                    let i = 11 + p + 8;
                    assert(v =~= w.skip(i));
                    assert(s.subrange(i - 8, i) =~= b.subrange(p, p + 8));
                    assert(s.subrange(i, i + v.len()) =~= v);
                    assert(version_at(s, i, v));
                    assert forall|k: int| 0 <= k < v.len() implies !is_whitespace(#[trigger] v[k]) by {
                        assert(v[k] == s[i + k]);
                    }
                },
                None => {
                    let t = s.skip(n);
                    lemma_kernel_version_found(t);
                    if let Some(v) = kernel_version_in(t) {
                        let i = choose|i: int| version_at(t, i, v);
                        assert(s.subrange(i + n - 8, i + n) =~= t.subrange(i - 8, i));
                        assert(s.subrange(i + n, i + n + v.len()) =~= t.subrange(i, i + v.len()));
                        assert(version_at(s, i + n, v));
                    }
                },
            }
        }
    }
}

fn chars_of(s: &str) -> (c: Vec<char>)
    ensures
        c@ == s@,
{
    let n = s.unicode_len();
    let mut c: Vec<char> = Vec::new();
    let mut i: usize = 0;
    while i < n
        invariant
            i <= n,
            n == s@.len(),
            c@ =~= s@.take(i as int),
        decreases n - i,
    {
        c.push(s.get_char(i));
        i = i + 1;
    }
    assert(s@.take(n as int) =~= s@);
    c
}

fn is_ws_char(c: char) -> (b: bool)
    ensures
        b == is_whitespace(c),
{
    let v = c as u32;
    (0x09 <= v && v <= 0x0d) || v == 0x20 || v == 0x85 || v == 0xa0 || v == 0x1680 || (0x2000 <= v
        && v <= 0x200a) || v == 0x2028 || v == 0x2029 || v == 0x202f || v == 0x205f || v == 0x3000
}

fn matches_at(c: &Vec<char>, at: usize, pat: &Vec<char>) -> (b: bool)
    requires
        at + pat@.len() <= c@.len(),
    ensures
        b == (c@.subrange(at as int, at + pat@.len()) == pat@),
{
    let _ = c.len();
    let mut k: usize = 0;
    while k < pat.len()
        invariant
            k <= pat@.len(),
            at + pat@.len() <= c@.len(),
            c@.len() <= usize::MAX,
            forall|m: int| 0 <= m < k ==> c@[at + m] == pat@[m],
        decreases pat@.len() - k,
    {
        if c[at + k] != pat[k] {
            assert(c@.subrange(at as int, at + pat@.len())[k as int] != pat@[k as int]);
            return false;
        }
        k = k + 1;
    }
    assert(c@.subrange(at as int, at + pat@.len()) =~= pat@);
    true
}

fn version_of_word(c: &Vec<char>, start: usize, end: usize) -> (v: Option<String>)
    requires
        start <= end <= c@.len(),
    ensures
        match v {
            Some(s) => word_version(c@.subrange(start as int, end as int)) == Some(s@),
            None => word_version(c@.subrange(start as int, end as int)) is None,
        },
{
    let ghost w = c@.subrange(start as int, end as int);
    let key = vec!['B', 'O', 'O', 'T', '_', 'I', 'M', 'A', 'G', 'E', '='];
    assert(key@ =~= boot_image_key());
    if end - start < 11 || !matches_at(c, start, &key) {
        assert(!(w.len() >= 11 && w.take(11) == boot_image_key())) by {
            if w.len() >= 11 {
                assert(w.take(11) =~= c@.subrange(start as int, start + 11));
            }
        }
        return None;
    }
    assert(w.take(11) =~= c@.subrange(start as int, start + 11));
    let b_start = start + 11;
    let ghost b = w.skip(11);
    assert(b =~= c@.subrange(b_start as int, end as int));
    let pat = vec!['v', 'm', 'l', 'i', 'n', 'u', 'z', '-'];
    assert(pat@ =~= vmlinuz_prefix());
    let mut p: usize = 0;
    while p <= end - b_start && end - b_start - p >= 8
        invariant
            b_start <= end <= c@.len(),
            p <= end - b_start,
            b_start == start + 11,
            w == c@.subrange(start as int, end as int),
            w.len() >= 11,
            w.take(11) == boot_image_key(),
            b == w.skip(11),
            b =~= c@.subrange(b_start as int, end as int),
            pat@ == vmlinuz_prefix(),
            find_from(b, vmlinuz_prefix(), 0) == find_from(b, vmlinuz_prefix(), p as int),
        decreases end - b_start - p,
    {
        if matches_at(c, b_start + p, &pat) {
            assert(b.subrange(p as int, p + 8) =~= c@.subrange(b_start + p, b_start + p + 8));
            assert(find_from(b, vmlinuz_prefix(), p as int) == Some(p as int));
            assert(b.len() == end - b_start);
            if end - b_start > p + 8 {
                let mut s = String::new();
                let mut k: usize = b_start + p + 8;
                while k < end
                    invariant
                        b_start + p + 8 <= k <= end <= c@.len(),
                        s@ =~= c@.subrange(b_start + p + 8, k as int),
                    decreases end - k,
                {
                    string_push(&mut s, c[k]);
                    k = k + 1;
                }
                assert(s@ =~= b.skip(p + 8));
                return Some(s);
            }
            return None;
        }
        assert(b.subrange(p as int, p + 8) =~= c@.subrange(b_start + p, b_start + p + 8));
        p = p + 1;
    }
    None
}

/// Extracts the kernel version from the `BOOT_IMAGE=` parameter of the
/// kernel command line (`/vmlinuz-6.8.0-60-generic` gives `6.8.0-60-generic`).
pub fn extract_kernel_version_from_cmdline(cmdline: &str) -> (res: Result<String, Error>)
    ensures
        match res {
            Ok(v) => kernel_version_in(cmdline@) == Some(v@),
            Err(e) => kernel_version_in(cmdline@) is None && e == Error::KernelVersionNotFound,
        },
{
    let c = chars_of(cmdline);
    let n = c.len();
    let mut i: usize = 0;
    assert(c@.skip(0) =~= c@);
    while i < n
        invariant
            i <= n,
            n == c@.len(),
            c@ == cmdline@,
            kernel_version_in(cmdline@) == kernel_version_in(c@.skip(i as int)),
        decreases n - i,
    {
        let ghost rest = c@.skip(i as int);
        if is_ws_char(c[i]) {
            assert(rest.drop_first() =~= c@.skip(i + 1));
            i = i + 1;
            continue;
        }
        let start = i;
        while i < n && !is_ws_char(c[i])
            invariant
                start <= i <= n,
                n == c@.len(),
                forall|k: int| start <= k < i ==> !is_whitespace(#[trigger] c@[k]),
            decreases n - i,
        {
            i = i + 1;
        }
        proof {
            lemma_word_len(rest);
            assert(word_len(rest) == i - start) by {
                let wl = word_len(rest);
                if wl < i - start {
                    assert(is_whitespace(rest[wl as int]));
                    assert(rest[wl as int] == c@[start + wl]);
                } else if wl > i - start {
                    assert(rest[(i - start) as int] == c@[i as int]);
                }
            }
            assert(rest.take(word_len(rest) as int) =~= c@.subrange(start as int, i as int));
            assert(rest.skip(word_len(rest) as int) =~= c@.skip(i as int));
        }
        match version_of_word(&c, start, i) {
            Some(v) => {
                return Ok(v);
            },
            None => {},
        }
    }
    assert(c@.skip(n as int) =~= Seq::<char>::empty());
    Err(Error::KernelVersionNotFound)
}

} // verus!

verus! {

/// Where the initrd of kernel version `v` lies in the disk image: `v`
/// after this prefix.
pub const INITRD_PATH_PREFIX: &'static str = "/boot/initrd.img-";

/// The path, in the disk image, of the initrd of the kernel that the
/// command line names (`/boot/initrd.img-<version>`).
pub fn initrd_path_for_cmdline(cmdline: &str) -> (res: Result<String, Error>)
    ensures
        match res {
            Ok(p) => kernel_version_in(cmdline@) matches Some(v) && p@ == INITRD_PATH_PREFIX@ + v,
            Err(e) => kernel_version_in(cmdline@) is None && e == Error::KernelVersionNotFound,
        },
{
    let version = extract_kernel_version_from_cmdline(cmdline)?;
    let mut path = String::from_str(INITRD_PATH_PREFIX);
    path.append(version.as_str());
    Ok(path)
}

/// The RTMR1 event log of indirect boot.
pub open spec fn rtmr1_qcow2_log(gpt: Seq<u8>, shim_hash: Seq<u8>, grub_hash: Seq<u8>) -> Seq<Seq<u8>> {
    seq![
        sha384(EV_CALLING_EFI_APP.spec_bytes()),
        sha384(separator()),
        sha384(gpt),
        shim_hash,
        grub_hash,
        sha384(EV_EXIT_BOOT_SERVICES_INVOCATION.spec_bytes()),
        sha384(EV_EXIT_BOOT_SERVICES_SUCCESS.spec_bytes()),
    ]
}

/// RTMR1 of indirect boot, or why shim or GRUB cannot be hashed.
pub open spec fn rtmr1_qcow2(gpt: Seq<u8>, shim: Seq<u8>, grub: Seq<u8>) -> Result<Seq<u8>, Error> {
    match crate::pe::authenticode_digest(shim) {
        Err(e) => Err(e),
        Ok(s) => match crate::pe::authenticode_digest(grub) {
            Err(e) => Err(e),
            Ok(g) => Ok(replay_log(rtmr1_qcow2_log(gpt, s, g))),
        },
    }
}

fn rtmr1_qcow2_events(gpt_hash: Vec<u8>, shim_hash: Vec<u8>, grub_hash: Vec<u8>) -> (log: Vec<
    Vec<u8>,
>)
    ensures
        byte_strings(log@) == seq![
            sha384(EV_CALLING_EFI_APP.spec_bytes()),
            sha384(separator()),
            gpt_hash@,
            shim_hash@,
            grub_hash@,
            sha384(EV_EXIT_BOOT_SERVICES_INVOCATION.spec_bytes()),
            sha384(EV_EXIT_BOOT_SERVICES_SUCCESS.spec_bytes()),
        ],
{
    let ghost g = gpt_hash@;
    let ghost s = shim_hash@;
    let ghost r = grub_hash@;
    let mut log: Vec<Vec<u8>> = Vec::new();
    log.push(measure_text(EV_CALLING_EFI_APP));
    log.push(measure_separator());
    log.push(gpt_hash);
    log.push(shim_hash);
    log.push(grub_hash);
    log.push(measure_text(EV_EXIT_BOOT_SERVICES_INVOCATION));
    log.push(measure_text(EV_EXIT_BOOT_SERVICES_SUCCESS));
    assert(byte_strings(log@) =~= seq![
        sha384(EV_CALLING_EFI_APP.spec_bytes()),
        sha384(separator()),
        g,
        s,
        r,
        sha384(EV_EXIT_BOOT_SERVICES_INVOCATION.spec_bytes()),
        sha384(EV_EXIT_BOOT_SERVICES_SUCCESS.spec_bytes()),
    ]);
    log
}

/// Measures RTMR1 for indirect boot from the boot chain of the disk image:
/// the EFI_GPT_DATA of its partition table, and its shim and GRUB binaries.
pub fn measure_rtmr1_from_qcow2(gpt_data: &[u8], shim_data: &[u8], grub_data: &[u8]) -> (res: Result<
    Vec<u8>,
    Error,
>)
    requires
        crate::pe::authenticode_defined(shim_data@),
        crate::pe::authenticode_digest(shim_data@) is Ok ==> crate::pe::authenticode_defined(
            grub_data@,
        ),
    ensures
        res matches Ok(v) ==> v@.len() == crate::digest::DIGEST_LEN,
        match res {
            Ok(v) => rtmr1_qcow2(gpt_data@, shim_data@, grub_data@) == Ok::<Seq<u8>, Error>(v@),
            Err(e) => rtmr1_qcow2(gpt_data@, shim_data@, grub_data@) == Err::<Seq<u8>, Error>(e),
        },
{
    let gpt_hash = measure_sha384(gpt_data);
    let shim_hash = crate::pe::authenticode_sha384_hash(shim_data)?;
    let grub_hash = crate::pe::authenticode_sha384_hash(grub_data)?;
    let log = rtmr1_qcow2_events(gpt_hash, shim_hash, grub_hash);
    Ok(measure_log(&log))
}

/// The RTMR2 event log of indirect boot: the MOK variables shim measures
/// (MokList, MokListX, MokListTrusted), the command line in UTF-16LE, and
/// the initrd.
pub open spec fn rtmr2_qcow2_log(
    cmdline: Seq<char>,
    mok_list: Seq<u8>,
    mok_list_trusted: Seq<u8>,
    mok_list_x: Seq<u8>,
    initrd: Seq<u8>,
) -> Seq<Seq<u8>> {
    seq![
        sha384(mok_list),
        sha384(mok_list_x),
        sha384(mok_list_trusted),
        sha384(utf16le(cmdline)),
        sha384(initrd),
    ]
}

/// Measures RTMR2 for indirect boot. The command line must name the kernel
/// (`BOOT_IMAGE=.../vmlinuz-<version>`), whose initrd `initrd_data` is; the
/// MOK variables are the captured ones (empty when not captured).
pub fn measure_rtmr2_from_qcow2(
    cmdline: &str,
    mok_list: &[u8],
    mok_list_trusted: &[u8],
    mok_list_x: &[u8],
    initrd_data: &[u8],
) -> (res: Result<Vec<u8>, Error>)
    ensures
        res matches Ok(v) ==> v@.len() == crate::digest::DIGEST_LEN,
        match res {
            Ok(v) => kernel_version_in(cmdline@) is Some && v@ == replay_log(
                rtmr2_qcow2_log(cmdline@, mok_list@, mok_list_trusted@, mok_list_x@, initrd_data@),
            ),
            Err(e) => kernel_version_in(cmdline@) is None && e == Error::KernelVersionNotFound,
        },
{
    let _kernel_version = extract_kernel_version_from_cmdline(cmdline)?;
    let mut log: Vec<Vec<u8>> = Vec::new();
    log.push(measure_sha384(mok_list));
    log.push(measure_sha384(mok_list_x));
    log.push(measure_sha384(mok_list_trusted));
    let cmdline16 = utf16_encode(cmdline);
    log.push(measure_sha384(cmdline16.as_slice()));
    log.push(measure_sha384(initrd_data));
    assert(byte_strings(log@) =~= rtmr2_qcow2_log(
        cmdline@,
        mok_list@,
        mok_list_trusted@,
        mok_list_x@,
        initrd_data@,
    ));
    Ok(measure_log(&log))
}

} // verus!
