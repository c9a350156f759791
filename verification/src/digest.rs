//! SHA-384 digests and the RTMR extend operation.

use vstd::prelude::*;
use sha2::{Digest, Sha384};
use vstd::string::StringSliceAdditionalSpecFns;

verus! {

/// The SHA-384 digest of `data`, as the `sha2` crate computes it.
pub uninterp spec fn sha384(data: Seq<u8>) -> Seq<u8>;

/// Number of bytes in a SHA-384 digest, and so in every measurement register.
pub const DIGEST_LEN: usize = 48;

/// Hashes `data` with `sha2::Sha384` (`new_with_prefix` then `finalize`).
/// Trusted: the result is the digest named by `sha384`, and it is 48 bytes
/// long, which is the output size (`U48`) of the `Sha384` type.
#[verifier::external_body]
pub(crate) fn measure_sha384(data: &[u8]) -> (digest: Vec<u8>)
    ensures
        digest@ == sha384(data@),
        digest@.len() == DIGEST_LEN,
{
    Sha384::new_with_prefix(data).finalize().to_vec()
}

/// A register of 48 zero bytes: the value of an RTMR before any extend.
pub open spec fn zero_register() -> Seq<u8> {
    Seq::new(DIGEST_LEN as nat, |i: int| 0u8)
}

/// The value of a register after extending it, from zero, with each entry of
/// `log` in turn: `mr := SHA384(mr || entry)`.
pub open spec fn replay_log(log: Seq<Seq<u8>>) -> Seq<u8>
    decreases log.len(),
{
    if log.len() == 0 {
        zero_register()
    } else {
        sha384(replay_log(log.drop_last()) + log.last())
    }
}

/// The value of a register holding `mr` after extending it with each entry
/// of `log` in turn.
pub open spec fn extend_register(mr: Seq<u8>, log: Seq<Seq<u8>>) -> Seq<u8>
    decreases log.len(),
{
    if log.len() == 0 {
        mr
    } else {
        sha384(extend_register(mr, log.drop_last()) + log.last())
    }
}

/// Replaying a log is extending the zero register with it, and extending
/// with a log in two parts is extending with the first part, then from the
/// value reached with the second: a register can be computed event by
/// event.
pub proof fn lemma_replay_in_parts(a: Seq<Seq<u8>>, b: Seq<Seq<u8>>)
    ensures
        replay_log(a) == extend_register(zero_register(), a),
        replay_log(a + b) == extend_register(replay_log(a), b),
    decreases a.len() + b.len(),
{
    if b.len() == 0 {
        assert(a + b =~= a);
        if a.len() > 0 {
            lemma_replay_in_parts(a.drop_last(), b);
        }
    } else {
        lemma_replay_in_parts(a, b.drop_last());
        assert((a + b).drop_last() =~= a + b.drop_last());
        assert((a + b).last() == b.last());
    }
}

/// The byte strings that a vector of byte vectors holds.
pub open spec fn byte_strings(v: Seq<Vec<u8>>) -> Seq<Seq<u8>> {
    v.map_values(|e: Vec<u8>| e@)
}

/// Computes the register that results from replaying the event log `log`.
pub fn measure_log(log: &Vec<Vec<u8>>) -> (mr: Vec<u8>)
    ensures
        mr@ == replay_log(byte_strings(log@)),
        mr@.len() == DIGEST_LEN,
{
    let mut mr: Vec<u8> = Vec::new();
    let mut k: usize = 0;
    while k < DIGEST_LEN
        invariant
            k <= DIGEST_LEN,
            mr@.len() == k,
            forall|j: int| 0 <= j < k ==> mr@[j] == 0u8,
        decreases DIGEST_LEN - k,
    {
        mr.push(0u8);
        k = k + 1;
    }
    assert(mr@ =~= zero_register());
    let ghost entries = byte_strings(log@);
    assert(entries.take(0) =~= Seq::<Seq<u8>>::empty());
    let mut i: usize = 0;
    while i < log.len()
        invariant
            i <= log@.len(),
            entries == byte_strings(log@),
            mr@ == replay_log(entries.take(i as int)),
            mr@.len() == DIGEST_LEN,
        decreases log@.len() - i,
    {
        let mut buf: Vec<u8> = Vec::new();
        buf.extend_from_slice(mr.as_slice());
        buf.extend_from_slice(log[i].as_slice());
        let ghost prev = mr@;
        assert(buf@ =~= prev + log@[i as int]@);
        mr = measure_sha384(buf.as_slice());
        assert(entries.take(i + 1).drop_last() =~= entries.take(i as int));
        assert(entries.take(i + 1).last() == log@[i as int]@);
        i = i + 1;
    }
    assert(entries.take(log@.len() as int) =~= entries);
    mr
}

} // verus!

verus! {

/// Event text logged when the firmware starts the boot option.
pub const EV_CALLING_EFI_APP: &'static str = "Calling EFI Application from Boot Option";

/// Event text logged when the OS loader calls ExitBootServices.
pub const EV_EXIT_BOOT_SERVICES_INVOCATION: &'static str = "Exit Boot Services Invocation";

/// Event text logged when ExitBootServices succeeds.
pub const EV_EXIT_BOOT_SERVICES_SUCCESS: &'static str = "Exit Boot Services Returned with Success";

/// The separator event: four zero bytes.
pub open spec fn separator() -> Seq<u8> {
    seq![0u8, 0u8, 0u8, 0u8]
}

/// The digest of the separator event.
pub fn measure_separator() -> (digest: Vec<u8>)
    ensures
        digest@ == sha384(separator()),
        digest@.len() == DIGEST_LEN,
{
    let mut sep: Vec<u8> = Vec::new();
    sep.push(0);
    sep.push(0);
    sep.push(0);
    sep.push(0);
    assert(sep@ =~= separator());
    measure_sha384(sep.as_slice())
}

/// The digest of an event given as text.
pub fn measure_text(text: &str) -> (digest: Vec<u8>)
    ensures
        digest@ == sha384(text.spec_bytes()),
        digest@.len() == DIGEST_LEN,
{
    measure_sha384(text.as_bytes())
}

} // verus!
