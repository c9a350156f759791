//! Text as the firmware measures it: UTF-16LE strings.

use vstd::prelude::*;
use vstd::string::StrSliceExecFns;

verus! {

/// The UTF-16 code units of a character.
pub open spec fn utf16_units(c: char) -> Seq<u16> {
    let v = c as u32;
    if v < 0x10000 {
        seq![v as u16]
    } else {
        let w = (v - 0x10000) as u32;
        seq![(0xD800 + (w >> 10u32)) as u16, (0xDC00 + (w & 0x3FFu32)) as u16]
    }
}

/// The little-endian bytes of the UTF-16 encoding of a character.
pub open spec fn utf16le_char(c: char) -> Seq<u8> {
    let u = utf16_units(c);
    if u.len() == 1 {
        crate::bytes::u16_le(u[0])
    } else {
        crate::bytes::u16_le(u[0]) + crate::bytes::u16_le(u[1])
    }
}

/// The UTF-16LE encoding of a string.
pub open spec fn utf16le(s: Seq<char>) -> Seq<u8>
    decreases s.len(),
{
    if s.len() == 0 {
        Seq::empty()
    } else {
        utf16le(s.drop_last()) + utf16le_char(s.last())
    }
}

/// Encodes `input` as UTF-16, little-endian.
pub fn utf16_encode(input: &str) -> (out: Vec<u8>)
    ensures
        out@ == utf16le(input@),
{
    let n = input.unicode_len();
    let mut out: Vec<u8> = Vec::new();
    let mut i: usize = 0;
    assert(input@.take(0) =~= Seq::<char>::empty());
    while i < n
        invariant
            i <= n,
            n == input@.len(),
            out@ == utf16le(input@.take(i as int)),
        decreases n - i,
    {
        let c = input.get_char(i);
        let v = c as u32;
        let ghost before = out@;
        if v < 0x10000 {
            crate::bytes::push_u16(&mut out, v as u16);
        } else {
            assert(v <= 0x10FFFF);
            let w = v - 0x10000;
            assert((w >> 10u32) < 0x400 && (w & 0x3FFu32) < 0x400) by (bit_vector)
                requires
                    w <= 0xFFFFF,
            ;
            crate::bytes::push_u16(&mut out, (0xD800 + (w >> 10u32)) as u16);
            crate::bytes::push_u16(&mut out, (0xDC00 + (w & 0x3FFu32)) as u16);
        }
        assert(input@.take(i + 1).drop_last() =~= input@.take(i as int));
        assert(out@ =~= before + utf16le_char(c));
        i = i + 1;
    }
    assert(input@.take(n as int) =~= input@);
    out
}

/// UTF-16LE encoding works character by character: the encoding of a
/// concatenation is the concatenation of the encodings.
pub proof fn lemma_utf16le_concat(a: Seq<char>, b: Seq<char>)
    ensures
        utf16le(a + b) == utf16le(a) + utf16le(b),
    decreases b.len(),
{
    if b.len() == 0 {
        assert(a + b =~= a);
        assert(utf16le(a) + utf16le(b) =~= utf16le(a));
    } else {
        lemma_utf16le_concat(a, b.drop_last());
        assert((a + b).drop_last() =~= a + b.drop_last());
        assert((a + b).last() == b.last());
        assert(utf16le(a) + utf16le(b) =~= utf16le(a) + utf16le(b.drop_last()) + utf16le_char(
            b.last(),
        ));
    }
}

/// Every character takes one or two 16-bit units, so the encoding has an
/// even length, at least two bytes per character and at most four.
pub proof fn lemma_utf16le_len(s: Seq<char>)
    ensures
        utf16le(s).len() % 2 == 0,
        2 * s.len() <= utf16le(s).len() <= 4 * s.len(),
    decreases s.len(),
{
    if s.len() > 0 {
        lemma_utf16le_len(s.drop_last());
    }
}

/// The measured form of a kernel command line: UTF-16LE with a NUL terminator.
pub open spec fn cmdline_event(cmdline: Seq<char>) -> Seq<u8> {
    utf16le(cmdline) + seq![0u8, 0u8]
}

/// Measures the kernel command line: its UTF-16LE encoding, NUL-terminated.
pub fn measure_cmdline(cmdline: &str) -> (digest: Vec<u8>)
    ensures
        digest@ == crate::digest::sha384(cmdline_event(cmdline@)),
        digest@.len() == crate::digest::DIGEST_LEN,
{
    let mut utf16_cmdline = utf16_encode(cmdline);
    utf16_cmdline.push(0);
    utf16_cmdline.push(0);
    assert(utf16_cmdline@ =~= cmdline_event(cmdline@));
    crate::digest::measure_sha384(utf16_cmdline.as_slice())
}

} // verus!

verus! {

/// Calls `String::push`. Trusted: it appends the character to the string,
/// as std documents.
#[verifier::external_body]
pub(crate) fn string_push(s: &mut String, c: char)
    ensures
        final(s)@ == old(s)@.push(c),
{
    s.push(c);
}

/// The character of a decimal digit.
pub open spec fn digit_char(d: nat) -> char {
    if d == 0 {
        '0'
    } else if d == 1 {
        '1'
    } else if d == 2 {
        '2'
    } else if d == 3 {
        '3'
    } else if d == 4 {
        '4'
    } else if d == 5 {
        '5'
    } else if d == 6 {
        '6'
    } else if d == 7 {
        '7'
    } else if d == 8 {
        '8'
    } else {
        '9'
    }
}

/// The decimal digits of `n`, most significant first, without leading zeros.
pub open spec fn decimal(n: nat) -> Seq<char>
    decreases n,
{
    if n < 10 {
        seq![digit_char(n)]
    } else {
        decimal(n / 10).push(digit_char(n % 10))
    }
}

fn digit(d: u32) -> (c: char)
    requires
        d < 10,
    ensures
        c == digit_char(d as nat),
{
    if d == 0 {
        '0'
    } else if d == 1 {
        '1'
    } else if d == 2 {
        '2'
    } else if d == 3 {
        '3'
    } else if d == 4 {
        '4'
    } else if d == 5 {
        '5'
    } else if d == 6 {
        '6'
    } else if d == 7 {
        '7'
    } else if d == 8 {
        '8'
    } else {
        '9'
    }
}

/// Appends the decimal digits of `n`.
pub fn push_decimal(s: &mut String, n: u32)
    ensures
        final(s)@ == old(s)@ + decimal(n as nat),
    decreases n,
{
    if n >= 10 {
        push_decimal(s, n / 10);
    }
    string_push(s, digit(n % 10));
    assert(final(s)@ =~= old(s)@ + decimal(n as nat));
}

/// The upper-case hexadecimal digit of `d` (below 16).
pub open spec fn hex_digit_upper(d: nat) -> char {
    if d < 10 {
        digit_char(d)
    } else if d == 10 {
        'A'
    } else if d == 11 {
        'B'
    } else if d == 12 {
        'C'
    } else if d == 13 {
        'D'
    } else if d == 14 {
        'E'
    } else {
        'F'
    }
}

/// The four upper-case hexadecimal digits of `n`, most significant first.
pub open spec fn hex4(n: u16) -> Seq<char> {
    seq![
        hex_digit_upper(n as nat / 4096),
        hex_digit_upper((n as nat / 256) % 16),
        hex_digit_upper((n as nat / 16) % 16),
        hex_digit_upper(n as nat % 16),
    ]
}

fn hex_digit_of(d: u16) -> (c: char)
    requires
        d < 16,
    ensures
        c == hex_digit_upper(d as nat),
{
    if d < 10 {
        digit(d as u32)
    } else if d == 10 {
        'A'
    } else if d == 11 {
        'B'
    } else if d == 12 {
        'C'
    } else if d == 13 {
        'D'
    } else if d == 14 {
        'E'
    } else {
        'F'
    }
}

/// Appends the four upper-case hexadecimal digits of `n`.
pub fn push_hex4(s: &mut String, n: u16)
    ensures
        final(s)@ == old(s)@ + hex4(n),
{
    let ghost before = s@;
    string_push(s, hex_digit_of(n / 4096));
    string_push(s, hex_digit_of((n / 256) % 16));
    string_push(s, hex_digit_of((n / 16) % 16));
    string_push(s, hex_digit_of(n % 16));
    assert(s@ =~= before + hex4(n));
}

} // verus!

verus! {

/// Whitespace as `char::is_whitespace` defines it (the Unicode `White_Space`
/// property).
pub open spec fn is_whitespace(c: char) -> bool {
    let v = c as u32;
    (0x09 <= v <= 0x0d) || v == 0x20 || v == 0x85 || v == 0xa0 || v == 0x1680 || (0x2000 <= v
        <= 0x200a) || v == 0x2028 || v == 0x2029 || v == 0x202f || v == 0x205f || v == 0x3000
}

fn is_ws(c: char) -> (b: bool)
    ensures
        b == is_whitespace(c),
{
    let v = c as u32;
    (0x09 <= v && v <= 0x0d) || v == 0x20 || v == 0x85 || v == 0xa0 || v == 0x1680 || (0x2000 <= v
        && v <= 0x200a) || v == 0x2028 || v == 0x2029 || v == 0x202f || v == 0x205f || v == 0x3000
}

/// `s` without leading whitespace.
pub open spec fn trim_start(s: Seq<char>) -> Seq<char>
    decreases s.len(),
{
    if s.len() > 0 && is_whitespace(s[0]) {
        trim_start(s.drop_first())
    } else {
        s
    }
}

/// `s` without trailing whitespace.
pub open spec fn trim_end(s: Seq<char>) -> Seq<char>
    decreases s.len(),
{
    if s.len() > 0 && is_whitespace(s.last()) {
        trim_end(s.drop_last())
    } else {
        s
    }
}

/// `s` without leading or trailing whitespace, as `str::trim` gives it.
pub open spec fn trim(s: Seq<char>) -> Seq<char> {
    trim_end(trim_start(s))
}

/// Removes leading and trailing whitespace.
pub fn trim_str(s: &str) -> (t: &str)
    ensures
        t@ == trim(s@),
{
    let n = s.unicode_len();
    let mut i: usize = 0;
    assert(s@.subrange(0, n as int) =~= s@);
    while i < n && is_ws(s.get_char(i))
        invariant
            i <= n,
            n == s@.len(),
            trim_start(s@) == trim_start(s@.subrange(i as int, n as int)),
        decreases n - i,
    {
        assert(s@.subrange(i as int, n as int).drop_first() =~= s@.subrange(i + 1, n as int));
        i = i + 1;
    }
    assert(trim_start(s@) == s@.subrange(i as int, n as int));
    let mut j: usize = n;
    while j > i && is_ws(s.get_char(j - 1))
        invariant
            i <= j <= n,
            n == s@.len(),
            trim(s@) == trim_end(s@.subrange(i as int, j as int)),
        decreases j,
    {
        assert(s@.subrange(i as int, j as int).drop_last() =~= s@.subrange(i as int, j - 1));
        j = j - 1;
    }
    s.substring_char(i, j)
}

/// The value of `c` as a digit in base `radix` (10 or 16; hex digits in
/// either case).
pub open spec fn digit_value(c: char, radix: nat) -> Option<nat> {
    let v = c as u32;
    if 0x30 <= v <= 0x39 {
        Some((v - 0x30) as nat)
    } else if radix == 16 && 0x61 <= v <= 0x66 {
        Some((v - 0x61 + 10) as nat)
    } else if radix == 16 && 0x41 <= v <= 0x46 {
        Some((v - 0x41 + 10) as nat)
    } else {
        None
    }
}

/// The number that the digits `s` denote in base `radix`, if all are digits.
pub open spec fn digits_value(s: Seq<char>, radix: nat) -> Option<nat>
    decreases s.len(),
{
    if s.len() == 0 {
        Some(0)
    } else {
        match (digits_value(s.drop_last(), radix), digit_value(s.last(), radix)) {
            (Some(p), Some(d)) => Some(p * radix + d),
            _ => None,
        }
    }
}

/// What `u64::from_str_radix` gives: an optional `+`, then at least one
/// digit, the value fitting in 64 bits.
pub open spec fn parse_unsigned(s: Seq<char>, radix: nat) -> Option<u64> {
    let body = if s.len() > 0 && s[0] == '+' {
        s.drop_first()
    } else {
        s
    };
    if body.len() == 0 {
        None
    } else {
        match digits_value(body, radix) {
            Some(v) => if v <= u64::MAX {
                Some(v as u64)
            } else {
                None
            },
            None => None,
        }
    }
}

fn digit_of(c: char, radix: u64) -> (d: Option<u64>)
    requires
        radix == 10 || radix == 16,
    ensures
        match d {
            Some(x) => digit_value(c, radix as nat) == Some(x as nat),
            None => digit_value(c, radix as nat) is None,
        },
{
    let v = c as u32;
    if 0x30 <= v && v <= 0x39 {
        Some((v - 0x30) as u64)
    } else if radix == 16 && 0x61 <= v && v <= 0x66 {
        Some((v - 0x61 + 10) as u64)
    } else if radix == 16 && 0x41 <= v && v <= 0x46 {
        Some((v - 0x41 + 10) as u64)
    } else {
        None
    }
}

proof fn lemma_digits_value_grows(s: Seq<char>, radix: nat, k: int)
    requires
        0 <= k <= s.len(),
        radix >= 1,
        digits_value(s, radix) is Some,
    ensures
        digits_value(s.take(k), radix) is Some,
        digits_value(s.take(k), radix)->0 <= digits_value(s, radix)->0,
    decreases s.len() - k,
{
    if k < s.len() {
        assert(s.drop_last().take(k) =~= s.take(k));
        lemma_digits_value_grows(s.drop_last(), radix, k);
        assert(s =~= s.take(s.len() as int)) by {}
        let p = digits_value(s.drop_last(), radix)->0;
        let d = digit_value(s.last(), radix)->0;
        assert(p * radix + d >= p) by (nonlinear_arith)
            requires
                radix >= 1,
        ;
    } else {
        assert(s.take(k) =~= s);
    }
}

/// Parses `s` as `u64::from_str_radix(s, radix)` does.
pub fn parse_u64(s: &str, radix: u64) -> (v: Option<u64>)
    requires
        radix == 10 || radix == 16,
    ensures
        v == parse_unsigned(s@, radix as nat),
{
    let n = s.unicode_len();
    let mut i: usize = 0;
    if n > 0 && s.get_char(0) == '+' {
        i = 1;
    }
    let ghost body = if s@.len() > 0 && s@[0] == '+' {
        s@.drop_first()
    } else {
        s@
    };
    assert(body =~= s@.subrange(i as int, n as int));
    if i == n {
        return None;
    }
    let start = i;
    let mut acc: u64 = 0;
    assert(body.take(0) =~= Seq::<char>::empty());
    while i < n
        invariant
            start <= i <= n,
            n == s@.len(),
            radix == 10 || radix == 16,
            body =~= s@.subrange(start as int, n as int),
            body == (if s@.len() > 0 && s@[0] == '+' {
                s@.drop_first()
            } else {
                s@
            }),
            body.len() > 0,
            digits_value(body.take(i - start), radix as nat) == Some(acc as nat),
        decreases n - i,
    {
        let c = s.get_char(i);
        assert(body.take(i + 1 - start).drop_last() =~= body.take(i - start));
        assert(body.take(i + 1 - start).last() == c);
        match digit_of(c, radix) {
            None => {
                proof {
                    assert(digits_value(body.take(i + 1 - start), radix as nat) is None);
                    if digits_value(body, radix as nat) is Some {
                        lemma_digits_value_grows(body, radix as nat, i + 1 - start);
                    }
                    assert(digits_value(body, radix as nat) is None);
                }
                return None;
            },
            Some(d) => {
                assert(digits_value(body.take(i + 1 - start), radix as nat) == Some(
                    (acc * radix + d) as nat,
                ));
                let m = acc.checked_mul(radix);
                let m = match m {
                    Some(m) => m,
                    None => {
                        proof {
                            assert(acc * radix + d > u64::MAX);
                            if digits_value(body, radix as nat) is Some {
                                lemma_digits_value_grows(body, radix as nat, i + 1 - start);
                            }
                        }
                        return None;
                    },
                };
                let a = m.checked_add(d);
                match a {
                    Some(a) => {
                        acc = a;
                    },
                    None => {
                        proof {
                            assert(acc * radix + d > u64::MAX);
                            if digits_value(body, radix as nat) is Some {
                                lemma_digits_value_grows(body, radix as nat, i + 1 - start);
                            }
                        }
                        return None;
                    },
                }
            },
        }
        i = i + 1;
    }
    assert(body.take(n - start) =~= body);
    Some(acc)
}

/// Every character is whitespace.
pub open spec fn all_whitespace(w: Seq<char>) -> bool {
    forall|i: int| 0 <= i < w.len() ==> is_whitespace(#[trigger] w[i])
}

/// Leading whitespace is dropped by `trim_start`.
pub proof fn lemma_trim_start_skips(w: Seq<char>, s: Seq<char>)
    requires
        all_whitespace(w),
    ensures
        trim_start(w + s) == trim_start(s),
    decreases w.len(),
{
    if w.len() == 0 {
        assert(w + s =~= s);
    } else {
        assert((w + s)[0] == w[0]);
        assert((w + s).drop_first() =~= w.drop_first() + s);
        assert(all_whitespace(w.drop_first())) by {
            assert forall|i: int| 0 <= i < w.drop_first().len() implies is_whitespace(
                #[trigger] w.drop_first()[i],
            ) by {
                assert(w.drop_first()[i] == w[i + 1]);
            }
        }
        lemma_trim_start_skips(w.drop_first(), s);
    }
}

/// Trailing whitespace is dropped by `trim_end`.
pub proof fn lemma_trim_end_skips(s: Seq<char>, w: Seq<char>)
    requires
        all_whitespace(w),
    ensures
        trim_end(s + w) == trim_end(s),
    decreases w.len(),
{
    if w.len() == 0 {
        assert(s + w =~= s);
    } else {
        assert((s + w).last() == w.last());
        assert(w.last() == w[w.len() - 1]);
        assert((s + w).drop_last() =~= s + w.drop_last());
        assert(all_whitespace(w.drop_last())) by {
            assert forall|i: int| 0 <= i < w.drop_last().len() implies is_whitespace(
                #[trigger] w.drop_last()[i],
            ) by {
                assert(w.drop_last()[i] == w[i]);
            }
        }
        lemma_trim_end_skips(s, w.drop_last());
    }
}

/// `trim_start` of `s` followed by `w`: what `trim_start` leaves of `s`,
/// followed by `w`, unless nothing of `s` is left.
proof fn lemma_trim_start_append(s: Seq<char>, w: Seq<char>)
    ensures
        trim_start(s + w) == if trim_start(s).len() > 0 {
            trim_start(s) + w
        } else {
            trim_start(w)
        },
    decreases s.len(),
{
    if s.len() == 0 {
        assert(s + w =~= w);
    } else if is_whitespace(s[0]) {
        assert((s + w)[0] == s[0]);
        assert((s + w).drop_first() =~= s.drop_first() + w);
        lemma_trim_start_append(s.drop_first(), w);
    } else {
        assert((s + w)[0] == s[0]);
    }
}

/// Whitespace around a string does not change what `trim` gives.
pub proof fn lemma_trim_surrounded(w1: Seq<char>, s: Seq<char>, w2: Seq<char>)
    requires
        all_whitespace(w1),
        all_whitespace(w2),
    ensures
        trim(w1 + s + w2) == trim(s),
{
    assert(w1 + s + w2 =~= w1 + (s + w2));
    lemma_trim_start_skips(w1, s + w2);
    lemma_trim_start_append(s, w2);
    if trim_start(s).len() > 0 {
        lemma_trim_end_skips(trim_start(s), w2);
    } else {
        lemma_trim_start_skips(w2, Seq::<char>::empty());
        assert(w2 + Seq::<char>::empty() =~= w2);
        assert(trim_start(s) =~= Seq::<char>::empty());
    }
}

} // verus!
