//! The image configuration (`metadata.json`) and the measurements computed
//! from it.

use vstd::prelude::*;
use vstd::string::StrSliceExecFns;
use vstd::string::StringExecFns;
use crate::error::Error;

verus! {

/// All the measurement registers of a TD. A register that was not computed
/// is empty.
pub struct TdxMeasurements {
    pub mrtd: Vec<u8>,
    pub rtmr0: Vec<u8>,
    pub rtmr1: Vec<u8>,
    pub rtmr2: Vec<u8>,
}

/// The QEMU command-line shape whose ACPI tables are generated.
pub struct QemuShape {
    pub machine: String,
    pub cpu: String,
    pub accel: String,
    pub globals: Vec<String>,
    pub objects: Vec<String>,
    pub netdevs: Vec<String>,
    pub devices: Vec<String>,
    pub fw_cfg: Vec<String>,
}

/// Common boot configuration (platform-specific).
pub struct BootConfig {
    pub cpus: u8,
    pub memory: String,
    pub bios: String,
    pub acpi_tables: String,
    pub rsdp: Option<String>,
    pub table_loader: Option<String>,
    pub boot_order: Option<String>,
    pub path_boot_xxxx: Option<String>,
    pub qemu: Option<QemuShape>,
}

/// Direct boot specific information.
pub struct DirectBoot {
    pub kernel: String,
    pub initrd: String,
    pub cmdline: String,
}

/// Indirect boot specific information.
pub struct IndirectBoot {
    pub qcow2: String,
    pub cmdline: String,
    pub mok_list: String,
    pub mok_list_trusted: String,
    pub mok_list_x: String,
    pub sbat_level: String,
}

/// Complete image configuration.
pub struct ImageConfig {
    pub boot_config: Option<BootConfig>,
    pub direct: Option<DirectBoot>,
    pub indirect: Option<IndirectBoot>,
}

/// The message `validate` gives when both boot modes are configured.
pub const BOTH_BOOT_MODES_MESSAGE: &'static str = "Cannot specify both direct and indirect boot";

/// The message `validate` gives when no boot mode is configured.
pub const NO_BOOT_MODE_MESSAGE: &'static str = "Must specify either direct or indirect boot";

impl ImageConfig {
    /// Validates that exactly one boot mode is specified.
    pub fn validate(&self) -> (res: Result<(), String>)
        ensures
            res is Ok <==> (self.direct is Some != self.indirect is Some),
            res matches Err(m) ==> m@ == if self.direct is Some {
                BOTH_BOOT_MODES_MESSAGE@
            } else {
                NO_BOOT_MODE_MESSAGE@
            },
    {
        match (&self.direct, &self.indirect) {
            (Some(_), Some(_)) => Err(String::from_str(BOTH_BOOT_MODES_MESSAGE)),
            (None, None) => Err(String::from_str(NO_BOOT_MODE_MESSAGE)),
            _ => Ok(()),
        }
    }

    /// Whether direct boot is configured.
    pub fn is_direct_boot(&self) -> (b: bool)
        ensures
            b == self.direct is Some,
    {
        self.direct.is_some()
    }

    /// The direct boot section, if any.
    pub fn direct_boot(&self) -> (d: Option<&DirectBoot>)
        ensures
            match d {
                Some(d) => self.direct == Some(*d),
                None => self.direct is None,
            },
    {
        match &self.direct {
            Some(d) => Some(d),
            None => None,
        }
    }

    /// The indirect boot section, if any.
    pub fn indirect_boot(&self) -> (i: Option<&IndirectBoot>)
        ensures
            match i {
                Some(i) => self.indirect == Some(*i),
                None => self.indirect is None,
            },
    {
        match &self.indirect {
            Some(i) => Some(i),
            None => None,
        }
    }

    /// The kernel command line of the configured boot mode; empty unless
    /// exactly one boot mode is configured.
    pub fn cmdline(&self) -> (c: &str)
        ensures
            c@ == match (self.direct, self.indirect) {
                (Some(d), None) => d.cmdline@,
                (None, Some(i)) => i.cmdline@,
                _ => Seq::<char>::empty(),
            },
    {
        match (&self.direct, &self.indirect) {
            (Some(direct), None) => direct.cmdline.as_str(),
            (None, Some(indirect)) => indirect.cmdline.as_str(),
            _ => {
                proof {
                    reveal_strlit("");
                }
                ""
            },
        }
    }

    /// The CPU count from the boot configuration.
    pub fn cpu_count(&self) -> (res: Result<u8, Error>)
        ensures
            match self.boot_config {
                Some(b) => res == Ok::<u8, Error>(b.cpus),
                None => res == Err::<u8, Error>(Error::MissingBootConfig),
            },
    {
        match &self.boot_config {
            Some(b) => Ok(b.cpus),
            None => Err(Error::MissingBootConfig),
        }
    }
}

} // verus!

verus! {

use crate::text::{parse_u64, parse_unsigned, trim, trim_str};

/// The multiplier of a memory size suffix (binary: K, M, G, T in either case).
pub open spec fn memory_suffix(c: char) -> Option<u64> {
    if c == 'k' || c == 'K' {
        Some(1024u64)
    } else if c == 'm' || c == 'M' {
        Some(0x10_0000u64)
    } else if c == 'g' || c == 'G' {
        Some(0x4000_0000u64)
    } else if c == 't' || c == 'T' {
        Some(0x100_0000_0000u64)
    } else {
        None
    }
}

/// Every character is an ASCII digit.
pub open spec fn all_ascii_digits(s: Seq<char>) -> bool {
    forall|i: int| 0 <= i < s.len() ==> '0' <= #[trigger] s[i] <= '9'
}

/// A trimmed memory size with a `0x` or `0X` prefix.
pub open spec fn has_hex_prefix(t: Seq<char>) -> bool {
    t.len() >= 2 && t[0] == '0' && (t[1] == 'x' || t[1] == 'X')
}

/// The number and the multiplier that a memory size string gives, or why it
/// is invalid: surrounding whitespace is ignored; `0x`/`0X` introduces a
/// hexadecimal number; digits alone are a decimal number of bytes;
/// otherwise a decimal number is followed by a K, M, G or T suffix.
pub open spec fn memory_size_parts(s: Seq<char>) -> Result<(u64, u64), Error> {
    let t = trim(s);
    if t.len() == 0 {
        Err(Error::EmptyMemorySize)
    } else if has_hex_prefix(t) {
        match parse_unsigned(t.skip(2), 16) {
            Some(v) => Ok((v, 1)),
            None => Err(Error::InvalidMemorySize),
        }
    } else if all_ascii_digits(t) {
        match parse_unsigned(t, 10) {
            Some(v) => Ok((v, 1)),
            None => Err(Error::InvalidMemorySize),
        }
    } else {
        match memory_suffix(t.last()) {
            None => Err(Error::UnknownMemorySuffix),
            Some(m) => match parse_unsigned(t.drop_last(), 10) {
                Some(v) => Ok((v, m)),
                None => Err(Error::InvalidMemorySize),
            },
        }
    }
}

/// The memory size in bytes that `s` denotes, or why it is invalid.
pub open spec fn memory_size_of(s: Seq<char>) -> Result<u64, Error> {
    match memory_size_parts(s) {
        Ok((v, m)) => Ok((v * m) as u64),
        Err(e) => Err(e),
    }
}

/// The size with its suffix applied fits in 64 bits.
pub open spec fn memory_size_fits(s: Seq<char>) -> bool {
    memory_size_parts(s) matches Ok((v, m)) ==> v * m <= u64::MAX
}

proof fn lemma_trim_unchanged(s: Seq<char>)
    requires
        s.len() > 0,
        !crate::text::is_whitespace(s[0]),
        !crate::text::is_whitespace(s.last()),
    ensures
        trim(s) == s,
{
    assert(crate::text::trim_start(s) == s);
    assert(crate::text::trim_end(s) == s);
}

/// A K, M, G or T suffix multiplies a decimal number of bytes by 2^10,
/// 2^20, 2^30 or 2^40: with the suffix the size is the number's size times
/// the multiplier, and either both parse or neither does.
#[verifier::spinoff_prover]
pub proof fn lemma_memory_suffix_scales(d: Seq<char>, c: char)
    requires
        d.len() > 0,
        all_ascii_digits(d),
        memory_suffix(c) is Some,
        memory_size_fits(d.push(c)),
    ensures
        match (memory_size_of(d.push(c)), memory_size_of(d)) {
            (Ok(x), Ok(y)) => x == y * memory_suffix(c)->0,
            (Err(e), Err(f)) => e == f && e == Error::InvalidMemorySize,
            _ => false,
        },
{
    let t = d.push(c);
    assert('0' <= d[0] <= '9');
    assert('0' <= d.last() <= '9');
    lemma_trim_unchanged(d);
    assert(t[0] == d[0]);
    assert(t.last() == c);
    lemma_trim_unchanged(t);
    if d.len() >= 2 {
        assert('0' <= d[1] <= '9');
        assert(t[1] == d[1]);
    } else {
        assert(t[1] == c);
    }
    assert(!has_hex_prefix(t));
    assert(!has_hex_prefix(d));
    assert(!('0' <= t[t.len() - 1] <= '9'));
    assert(!all_ascii_digits(t));
    assert(t.drop_last() =~= d);
}

/// Whitespace around a memory size is ignored: the string with it parses
/// exactly as the string without it.
pub proof fn lemma_memory_size_ignores_whitespace(w1: Seq<char>, s: Seq<char>, w2: Seq<char>)
    requires
        crate::text::all_whitespace(w1),
        crate::text::all_whitespace(w2),
    ensures
        memory_size_of(w1 + s + w2) == memory_size_of(s),
        memory_size_fits(w1 + s + w2) == memory_size_fits(s),
{
    crate::text::lemma_trim_surrounded(w1, s, w2);
}

proof fn lemma_digits_value_some(h: Seq<char>, radix: nat)
    requires
        forall|i: int| 0 <= i < h.len() ==> crate::text::digit_value(#[trigger] h[i], radix) is Some,
    ensures
        crate::text::digits_value(h, radix) is Some,
    decreases h.len(),
{
    if h.len() > 0 {
        let p = h.drop_last();
        assert forall|i: int| 0 <= i < p.len() implies crate::text::digit_value(
            #[trigger] p[i],
            radix,
        ) is Some by {
            assert(p[i] == h[i]);
        }
        lemma_digits_value_some(p, radix);
        assert(h.last() == h[h.len() - 1]);
    }
}

/// `0x` or `0X` followed by hexadecimal digits (either case) is that
/// hexadecimal number of bytes.
#[verifier::spinoff_prover]
pub proof fn lemma_memory_size_hex(x: char, h: Seq<char>)
    requires
        x == 'x' || x == 'X',
        h.len() > 0,
        forall|i: int| 0 <= i < h.len() ==> crate::text::digit_value(#[trigger] h[i], 16) is Some,
        crate::text::digits_value(h, 16) matches Some(v) ==> v <= u64::MAX,
    ensures
        crate::text::digits_value(h, 16) is Some,
        memory_size_of(seq!['0', x] + h) == Ok::<u64, Error>(
            crate::text::digits_value(h, 16)->0 as u64,
        ),
        memory_size_fits(seq!['0', x] + h),
{
    lemma_digits_value_some(h, 16);
    let t = seq!['0', x] + h;
    assert(t[0] == '0');
    assert(t.last() == h[h.len() - 1]);
    assert(crate::text::digit_value(h[h.len() - 1], 16) is Some);
    assert(crate::text::digit_value(h[0], 16) is Some);
    lemma_trim_unchanged(t);
    assert(t[1] == x);
    assert(has_hex_prefix(t));
    assert(t.skip(2) =~= h);
    assert(h[0] != '+');
    let v = crate::text::digits_value(h, 16)->0;
    assert(crate::text::parse_unsigned(h, 16) == Some(v as u64));
    assert(crate::text::trim(t) == t);
    assert(memory_size_parts(t) == Ok::<(u64, u64), Error>((v as u64, 1u64)));
    assert((v as u64) * 1u64 == v as u64);
    assert(memory_size_of(t) == Ok::<u64, Error>(v as u64));
    assert(memory_size_fits(t));
}

/// A `+` before a number with a K, M, G or T suffix changes nothing.
pub proof fn lemma_memory_size_plus(d: Seq<char>, c: char)
    requires
        d.len() > 0,
        all_ascii_digits(d),
        memory_suffix(c) is Some,
    ensures
        memory_size_of(seq!['+'] + d.push(c)) == memory_size_of(d.push(c)),
        memory_size_fits(seq!['+'] + d.push(c)) == memory_size_fits(d.push(c)),
{
    let t = d.push(c);
    let u = seq!['+'] + t;
    assert('0' <= d[0] <= '9');
    assert(t[0] == d[0]);
    assert(t.last() == c);
    lemma_trim_unchanged(t);
    assert(u[0] == '+');
    assert(u.last() == c);
    lemma_trim_unchanged(u);
    if d.len() >= 2 {
        assert('0' <= d[1] <= '9');
        assert(t[1] == d[1]);
    } else {
        assert(t[1] == c);
    }
    assert(!has_hex_prefix(t));
    assert(!has_hex_prefix(u));
    assert(!('0' <= t[t.len() - 1] <= '9'));
    assert(!all_ascii_digits(t));
    assert(!all_ascii_digits(u));
    assert(t.drop_last() =~= d);
    assert(u.drop_last() =~= seq!['+'] + d);
    assert((seq!['+'] + d).drop_first() =~= d);
    assert(d[0] != '+');
}

/// Splits a memory size into its number and its multiplier.
fn memory_size_parts_of(s: &str) -> (res: Result<(u64, u64), Error>)
    ensures
        res == memory_size_parts(s@),
{
    let t = trim_str(s);
    let n = t.unicode_len();
    if n == 0 {
        return Err(Error::EmptyMemorySize);
    }
    if n >= 2 && t.get_char(0) == '0' && (t.get_char(1) == 'x' || t.get_char(1) == 'X') {
        let hex_str = t.substring_char(2, n);
        assert(hex_str@ =~= t@.skip(2));
        assert(has_hex_prefix(t@));
        return match parse_u64(hex_str, 16) {
            Some(v) => Ok((v, 1)),
            None => Err(Error::InvalidMemorySize),
        };
    }
    let mut all_digits = true;
    let mut i: usize = 0;
    while i < n
        invariant
            i <= n,
            n == t@.len(),
            all_digits == (forall|j: int| 0 <= j < i ==> '0' <= #[trigger] t@[j] <= '9'),
        decreases n - i,
    {
        let c = t.get_char(i);
        if !('0' <= c && c <= '9') {
            all_digits = false;
        }
        i = i + 1;
    }
    if all_digits {
        assert(all_ascii_digits(t@));
        return match parse_u64(t, 10) {
            Some(v) => Ok((v, 1)),
            None => Err(Error::InvalidMemorySize),
        };
    }
    let last = t.get_char(n - 1);
    let suffix: u64 = if last == 'k' || last == 'K' {
        1024
    } else if last == 'm' || last == 'M' {
        1024 * 1024
    } else if last == 'g' || last == 'G' {
        1024 * 1024 * 1024
    } else if last == 't' || last == 'T' {
        1024 * 1024 * 1024 * 1024
    } else {
        return Err(Error::UnknownMemorySuffix);
    };
    let num_part = t.substring_char(0, n - 1);
    assert(num_part@ =~= t@.drop_last());
    match parse_u64(num_part, 10) {
        Some(num) => Ok((num, suffix)),
        None => Err(Error::InvalidMemorySize),
    }
}

/// Parses a memory size: decimal bytes, `0x` hexadecimal bytes, or a
/// decimal number with a binary K/M/G/T suffix.
pub fn parse_memory_size(s: &str) -> (res: Result<u64, Error>)
    requires
        memory_size_fits(s@),
    ensures
        match res {
            Ok(v) => memory_size_of(s@) == Ok::<u64, Error>(v),
            Err(e) => memory_size_of(s@) == Err::<u64, Error>(e),
        },
{
    match memory_size_parts_of(s) {
        Ok((v, m)) => Ok(v * m),
        Err(e) => Err(e),
    }
}

/// Whether the size that `s` denotes, suffix applied, fits in 64 bits (the
/// strings `parse_memory_size` accepts).
pub fn memory_size_fits_check(s: &str) -> (b: bool)
    ensures
        b == memory_size_fits(s@),
{
    match memory_size_parts_of(s) {
        Ok((v, m)) => v.checked_mul(m).is_some(),
        Err(_) => true,
    }
}

impl ImageConfig {
    /// The memory size from the boot configuration, in bytes.
    pub fn memory_size(&self) -> (res: Result<u64, Error>)
        requires
            self.boot_config matches Some(b) ==> memory_size_fits(b.memory@),
        ensures
            match self.boot_config {
                Some(b) => match res {
                    Ok(v) => memory_size_of(b.memory@) == Ok::<u64, Error>(v),
                    Err(e) => memory_size_of(b.memory@) == Err::<u64, Error>(e),
                },
                None => res == Err::<u64, Error>(Error::MissingBootConfig),
            },
    {
        match &self.boot_config {
            Some(b) => parse_memory_size(b.memory.as_str()),
            None => Err(Error::MissingBootConfig),
        }
    }
}

} // verus!

verus! {

/// The boot mode that the measurements use (`true` for direct boot), or
/// why the request is inconsistent: the configuration must name exactly one
/// mode; unless only the platform is measured, the mode is the requested
/// one (by default the configured one) and its section must exist; and ACPI
/// tables can only be generated for direct boot.
pub open spec fn boot_mode(
    config: ImageConfig,
    platform_only: bool,
    requested_direct_boot: Option<bool>,
    create_acpi_tables: bool,
) -> Result<bool, Error> {
    if config.direct is Some && config.indirect is Some {
        Err(Error::BothBootModes)
    } else if config.direct is None && config.indirect is None {
        Err(Error::NoBootMode)
    } else {
        let direct = if platform_only {
            true
        } else {
            match requested_direct_boot {
                Some(d) => d,
                None => config.direct is Some,
            }
        };
        if !platform_only && direct && config.direct is None {
            Err(Error::MissingDirectBoot)
        } else if !platform_only && !direct && config.indirect is None {
            Err(Error::MissingIndirectBoot)
        } else if create_acpi_tables && !direct {
            Err(Error::AcpiGenerationNeedsDirectBoot)
        } else {
            Ok(direct)
        }
    }
}

/// Decides the boot mode to measure with, checking the request against
/// the configuration.
pub fn select_boot_mode(
    config: &ImageConfig,
    platform_only: bool,
    requested_direct_boot: Option<bool>,
    create_acpi_tables: bool,
) -> (res: Result<bool, Error>)
    ensures
        res == boot_mode(*config, platform_only, requested_direct_boot, create_acpi_tables),
{
    if config.validate().is_err() {
        if config.direct_boot().is_some() {
            return Err(Error::BothBootModes);
        }
        return Err(Error::NoBootMode);
    }
    let mut direct_boot = true;
    if !platform_only {
        direct_boot = match requested_direct_boot {
            Some(d) => d,
            None => config.is_direct_boot(),
        };
        if direct_boot && config.direct_boot().is_none() {
            return Err(Error::MissingDirectBoot);
        }
        if !direct_boot && config.indirect_boot().is_none() {
            return Err(Error::MissingIndirectBoot);
        }
    }
    if create_acpi_tables && !direct_boot {
        return Err(Error::AcpiGenerationNeedsDirectBoot);
    }
    Ok(direct_boot)
}

} // verus!
