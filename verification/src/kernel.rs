//! The Linux kernel as QEMU loads it for direct boot, and the RTMR1 and
//! RTMR2 values of direct boot.

use vstd::prelude::*;
use crate::bytes::{get_u16, get_u32, put, put_u16, put_u32, read_u16, read_u32, u16_le, u32_le};
use crate::error::Error;
use vstd::string::StringExecFns;

verus! {

/// A kernel image shorter than this has no complete setup header.
pub const MIN_KERNEL_LENGTH: usize = 0x1000;

/// The boot protocol version in the setup header.
pub open spec fn boot_protocol(k: Seq<u8>) -> u16 {
    get_u16(k, 0x206)
}

/// Where QEMU puts the real-mode code and the command line:
/// `(real_addr, cmdline_addr)`.
pub open spec fn load_addresses(k: Seq<u8>) -> (u32, u32) {
    if boot_protocol(k) < 0x200 || (k[0x211] & 0x01) == 0 {
        (0x90000u32, 0x9a000u32)
    } else {
        (0x10000u32, 0x20000u32)
    }
}

/// The setup header after QEMU's loader fields are filled in (before any
/// initrd fields).
pub open spec fn loader_fields(k: Seq<u8>) -> Seq<u8> {
    let protocol = boot_protocol(k);
    let (real_addr, cmdline_addr) = load_addresses(k);
    let k1 = if protocol >= 0x200 {
        k.update(0x210, 0xb0u8)
    } else {
        k
    };
    let k2 = if protocol >= 0x201 {
        put(
            k1.update(0x211, k1[0x211] | 0x80u8),
            0x224,
            u32_le((cmdline_addr - real_addr - 0x200) as u32),
        )
    } else {
        k1
    };
    if protocol >= 0x202 {
        put(k2, 0x228, u32_le(cmdline_addr))
    } else {
        put(put(k2, 0x20, u16_le(0xa33f)), 0x22, u16_le((cmdline_addr - real_addr) as u16))
    }
}

/// The highest address the initrd may end at, from the setup header.
pub open spec fn initrd_addr_max(k: Seq<u8>) -> u32 {
    let protocol = boot_protocol(k);
    if protocol >= 0x20c {
        if (get_u16(k, 0x236) & 0x40) != 0 {
            u32::MAX
        } else {
            0x37ffffff
        }
    } else if protocol >= 0x203 {
        let max = get_u32(k, 0x22c);
        if max == 0 {
            0x37ffffff
        } else {
            max
        }
    } else {
        0x37ffffff
    }
}

/// Memory below 4 GiB that QEMU gives the guest.
pub open spec fn below_4g_mem_size(mem_size: u64) -> u32 {
    let lowmem: u64 = if mem_size < 0xb0000000 {
        0xb0000000
    } else {
        0x80000000
    };
    if mem_size >= lowmem {
        lowmem as u32
    } else {
        mem_size as u32
    }
}

/// The initrd limit once the ACPI data below it is set aside.
pub open spec fn initrd_limit(k: Seq<u8>, mem_size: u64, acpi_data_size: u32) -> u32 {
    let below = below_4g_mem_size(mem_size);
    if initrd_addr_max(k) >= below - acpi_data_size {
        (below - acpi_data_size - 1) as u32
    } else {
        initrd_addr_max(k)
    }
}

/// The kernel image as QEMU patches it before handing it to the firmware,
/// or why QEMU refuses it.
pub open spec fn patched_kernel(k: Seq<u8>, initrd_size: u32, mem_size: u64, acpi_data_size: u32) -> Result<Seq<u8>, Error> {
    if k.len() < MIN_KERNEL_LENGTH {
        Err(Error::KernelTooShort)
    } else if initrd_size == 0 {
        Ok(loader_fields(k))
    } else if boot_protocol(k) < 0x200 {
        Err(Error::KernelTooOldForRamdisk)
    } else {
        let max = initrd_limit(k, mem_size, acpi_data_size);
        if initrd_size >= max {
            Err(Error::InitrdTooLarge)
        } else {
            let initrd_addr = ((max - initrd_size) as u32) & !4095u32;
            Ok(put(put(loader_fields(k), 0x218, u32_le(initrd_addr)), 0x21c, u32_le(initrd_size)))
        }
    }
}

/// The inputs QEMU's arithmetic handles: with an initrd and a boot protocol
/// that supports one, the ACPI data must leave memory below 4 GiB.
pub open spec fn patch_kernel_defined(k: Seq<u8>, initrd_size: u32, mem_size: u64, acpi_data_size: u32) -> bool {
    (k.len() >= MIN_KERNEL_LENGTH && initrd_size > 0 && boot_protocol(k) >= 0x200) ==> acpi_data_size
        < below_4g_mem_size(mem_size)
}

proof fn lemma_loader_fields_frame(k: Seq<u8>)
    requires
        k.len() >= MIN_KERNEL_LENGTH,
    ensures
        loader_fields(k).len() == k.len(),
        forall|i: int|
            0 <= i < k.len() && !(0x20 <= i < 0x24) && !(0x210 <= i < 0x22c) ==> #[trigger] loader_fields(
                k,
            )[i] == k[i],
{
    let protocol = boot_protocol(k);
    let (real_addr, cmdline_addr) = load_addresses(k);
    let k1 = if protocol >= 0x200 {
        k.update(0x210, 0xb0u8)
    } else {
        k
    };
    let k1b = k1.update(0x211, k1[0x211] | 0x80u8);
    crate::bytes::lemma_put_frame(k1b, 0x224, u32_le((cmdline_addr - real_addr - 0x200) as u32));
    let k2 = if protocol >= 0x201 {
        put(k1b, 0x224, u32_le((cmdline_addr - real_addr - 0x200) as u32))
    } else {
        k1
    };
    crate::bytes::lemma_put_frame(k2, 0x228, u32_le(cmdline_addr));
    crate::bytes::lemma_put_frame(k2, 0x20, u16_le(0xa33f));
    let k3 = put(k2, 0x20, u16_le(0xa33f));
    crate::bytes::lemma_put_frame(k3, 0x22, u16_le((cmdline_addr - real_addr) as u16));
}

/// Patching changes neither the kernel's length nor any byte outside the
/// setup header fields QEMU fills in (the old command-line fields at
/// 0x20..0x24 and the loader fields at 0x210..0x22c).
pub proof fn lemma_patch_kernel_frame(k: Seq<u8>, initrd_size: u32, mem_size: u64, acpi_data_size: u32)
    ensures
        patched_kernel(k, initrd_size, mem_size, acpi_data_size) matches Ok(p) ==> {
            &&& p.len() == k.len()
            &&& forall|i: int|
                0 <= i < k.len() && !(0x20 <= i < 0x24) && !(0x210 <= i < 0x22c) ==> #[trigger] p[i]
                    == k[i]
        },
{
    if k.len() >= MIN_KERNEL_LENGTH {
        lemma_loader_fields_frame(k);
        let l = loader_fields(k);
        if initrd_size != 0 && boot_protocol(k) >= 0x200 {
            let max = initrd_limit(k, mem_size, acpi_data_size);
            if initrd_size < max {
                let initrd_addr = ((max - initrd_size) as u32) & !4095u32;
                crate::bytes::lemma_put_frame(l, 0x218, u32_le(initrd_addr));
                let l2 = put(l, 0x218, u32_le(initrd_addr));
                crate::bytes::lemma_put_frame(l2, 0x21c, u32_le(initrd_size));
            }
        }
    }
}

/// For boot protocol 2.02 and later, the patched header says the loader is
/// QEMU (0xb0 at 0x210), sets CAN_USE_HEAP in the load flags, and records
/// the heap end (0x224) and the command line address (0x228): the command
/// line at 0x20000 with the real-mode code at 0x10000 when the kernel loads
/// high, else at 0x9a000 with the code at 0x90000.
pub proof fn lemma_patch_kernel_loader_fields(
    k: Seq<u8>,
    initrd_size: u32,
    mem_size: u64,
    acpi_data_size: u32,
)
    requires
        boot_protocol(k) >= 0x202,
    ensures
        patched_kernel(k, initrd_size, mem_size, acpi_data_size) matches Ok(p) ==> {
            let high = k[0x211] & 0x01 != 0;
            &&& p[0x210] == 0xb0
            &&& p[0x211] == k[0x211] | 0x80
            &&& crate::bytes::get_u32(p, 0x224) == if high {
                0xfe00u32
            } else {
                0x9e00u32
            }
            &&& crate::bytes::get_u32(p, 0x228) == if high {
                0x20000u32
            } else {
                0x9a000u32
            }
        },
{
    if let Ok(p) = patched_kernel(k, initrd_size, mem_size, acpi_data_size) {
        let (real_addr, cmdline_addr) = load_addresses(k);
        let k1 = k.update(0x210, 0xb0u8);
        let k1b = k1.update(0x211, k1[0x211] | 0x80u8);
        let heap = (cmdline_addr - real_addr - 0x200) as u32;
        crate::bytes::lemma_put_u32_read_back(k1b, 0x224, heap);
        let k2 = put(k1b, 0x224, u32_le(heap));
        crate::bytes::lemma_put_u32_read_back(k2, 0x228, cmdline_addr);
        let l = put(k2, 0x228, u32_le(cmdline_addr));
        assert(l == loader_fields(k));
        assert(l[0x210] == 0xb0 && l[0x211] == k[0x211] | 0x80);
        assert(l[0x224] == k2[0x224] && l[0x225] == k2[0x225] && l[0x226] == k2[0x226] && l[0x227]
            == k2[0x227]);
        assert(crate::bytes::get_u32(l, 0x224) == heap);
        if initrd_size > 0 {
            let max = initrd_limit(k, mem_size, acpi_data_size);
            let a = ((max - initrd_size) as u32) & !4095u32;
            crate::bytes::lemma_put_u32_read_back(l, 0x218, a);
            let l2 = put(l, 0x218, u32_le(a));
            crate::bytes::lemma_put_u32_read_back(l2, 0x21c, initrd_size);
            assert(p == put(l2, 0x21c, u32_le(initrd_size)));
            assert(p[0x224] == l[0x224] && p[0x225] == l[0x225] && p[0x226] == l[0x226] && p[0x227]
                == l[0x227]);
            assert(p[0x228] == l[0x228] && p[0x229] == l[0x229] && p[0x22a] == l[0x22a] && p[0x22b]
                == l[0x22b]);
            assert(crate::bytes::get_u32(p, 0x224) == crate::bytes::get_u32(l, 0x224));
            assert(crate::bytes::get_u32(p, 0x228) == crate::bytes::get_u32(l, 0x228));
        }
    }
}

/// With an initrd, the patched header records its size at 0x21c and its
/// address at 0x218: the highest 4 KiB-aligned address at which the initrd
/// ends at or below QEMU's limit (the kernel's `initrd_addr_max`, or the
/// last byte below the ACPI data under 4 GiB, whichever is lower).
pub proof fn lemma_patch_kernel_places_initrd(
    k: Seq<u8>,
    initrd_size: u32,
    mem_size: u64,
    acpi_data_size: u32,
)
    ensures
        initrd_size > 0 ==> (patched_kernel(k, initrd_size, mem_size, acpi_data_size) matches Ok(p)
            ==> {
            let max = initrd_limit(k, mem_size, acpi_data_size) as int;
            let a = crate::bytes::get_u32(p, 0x218) as int;
            &&& crate::bytes::get_u32(p, 0x21c) == initrd_size
            &&& a % 4096 == 0
            &&& a + initrd_size <= max
            &&& max < a + initrd_size + 4096
        }),
{
    if let Ok(p) = patched_kernel(k, initrd_size, mem_size, acpi_data_size) {
        if initrd_size > 0 {
            lemma_loader_fields_frame(k);
            let l = loader_fields(k);
            let max = initrd_limit(k, mem_size, acpi_data_size);
            let x = (max - initrd_size) as u32;
            let a = x & !4095u32;
            crate::bytes::lemma_put_u32_read_back(l, 0x218, a);
            let l2 = put(l, 0x218, u32_le(a));
            crate::bytes::lemma_put_u32_read_back(l2, 0x21c, initrd_size);
            assert(p == put(l2, 0x21c, u32_le(initrd_size)));
            assert(p[0x218] == l2[0x218] && p[0x219] == l2[0x219] && p[0x21a] == l2[0x21a]
                && p[0x21b] == l2[0x21b]);
            assert(crate::bytes::get_u32(p, 0x218) == crate::bytes::get_u32(l2, 0x218));
            assert(a <= x && x - a < 4096 && a % 4096 == 0) by (bit_vector)
                requires
                    a == x & !4095u32,
            ;
        }
    }
}

/// Patches the kernel image as QEMU does: fills in the loader type, heap
/// end and command line address, and the initrd address and size.
pub fn patch_kernel(kernel_data: &[u8], initrd_size: u32, mem_size: u64, acpi_data_size: u32) -> (res: Result<Vec<u8>, Error>)
    requires
        patch_kernel_defined(kernel_data@, initrd_size, mem_size, acpi_data_size),
    ensures
        match res {
            Ok(v) => patched_kernel(kernel_data@, initrd_size, mem_size, acpi_data_size) == Ok::<
                Seq<u8>,
                Error,
            >(v@),
            Err(e) => patched_kernel(kernel_data@, initrd_size, mem_size, acpi_data_size) == Err::<
                Seq<u8>,
                Error,
            >(e),
        },
{
    if kernel_data.len() < MIN_KERNEL_LENGTH {
        return Err(Error::KernelTooShort);
    }
    let ghost k = kernel_data@;
    let mut kd: Vec<u8> = Vec::new();
    kd.extend_from_slice(kernel_data);
    let protocol = read_u16(kernel_data, 0x206);
    let (real_addr, cmdline_addr) = if protocol < 0x200 || (kd[0x211] & 0x01) == 0 {
        (0x90000u32, 0x9a000u32)
    } else {
        (0x10000u32, 0x20000u32)
    };
    assert((real_addr, cmdline_addr) == load_addresses(k));
    if protocol >= 0x200 {
        kd.set(0x210, 0xb0);
    }
    if protocol >= 0x201 {
        let b = kd[0x211] | 0x80;
        kd.set(0x211, b);
        let heap_end_ptr = cmdline_addr - real_addr - 0x200;
        put_u32(&mut kd, 0x224, heap_end_ptr);
    }
    if protocol >= 0x202 {
        put_u32(&mut kd, 0x228, cmdline_addr);
    } else {
        put_u16(&mut kd, 0x20, 0xa33f);
        let offset = (cmdline_addr - real_addr) as u16;
        put_u16(&mut kd, 0x22, offset);
    }
    assert(kd@ =~= loader_fields(k));
    if initrd_size > 0 {
        if protocol < 0x200 {
            return Err(Error::KernelTooOldForRamdisk);
        }
        let mut initrd_max: u32 = if protocol >= 0x20c {
            let xlf = read_u16(kernel_data, 0x236);
            if (xlf & 0x40) != 0 {
                u32::MAX
            } else {
                0x37ffffff
            }
        } else if protocol >= 0x203 {
            let max = read_u32(kernel_data, 0x22c);
            if max == 0 {
                0x37ffffff
            } else {
                max
            }
        } else {
            0x37ffffff
        };
        assert(initrd_max == initrd_addr_max(k));
        let lowmem: u64 = if mem_size < 0xb0000000 {
            0xb0000000
        } else {
            0x80000000
        };
        let below_4g: u32 = if mem_size >= lowmem {
            lowmem as u32
        } else {
            mem_size as u32
        };
        assert(below_4g == below_4g_mem_size(mem_size));
        if initrd_max >= below_4g - acpi_data_size {
            initrd_max = below_4g - acpi_data_size - 1;
        }
        if initrd_size >= initrd_max {
            return Err(Error::InitrdTooLarge);
        }
        let initrd_addr = (initrd_max - initrd_size) & !4095u32;
        put_u32(&mut kd, 0x218, initrd_addr);
        put_u32(&mut kd, 0x21c, initrd_size);
    }
    Ok(kd)
}

} // verus!

verus! {

use crate::digest::{
    byte_strings, measure_log, measure_separator, measure_sha384, measure_text, replay_log,
    separator, sha384, EV_CALLING_EFI_APP, EV_EXIT_BOOT_SERVICES_INVOCATION,
    EV_EXIT_BOOT_SERVICES_SUCCESS,
};
use crate::text::{cmdline_event, measure_cmdline};
use vstd::string::StringSliceAdditionalSpecFns;

/// The RTMR1 event log of direct boot, given the kernel's Authenticode digest.
pub open spec fn rtmr1_direct_log(kernel_hash: Seq<u8>) -> Seq<Seq<u8>> {
    seq![
        kernel_hash,
        sha384(EV_CALLING_EFI_APP.spec_bytes()),
        sha384(separator()),
        sha384(EV_EXIT_BOOT_SERVICES_INVOCATION.spec_bytes()),
        sha384(EV_EXIT_BOOT_SERVICES_SUCCESS.spec_bytes()),
    ]
}

/// RTMR1 of direct boot with this kernel and initrd, or why it cannot be
/// computed. The initrd's size is taken modulo 2^32, as QEMU's loader does.
pub open spec fn rtmr1_direct(kernel: Seq<u8>, initrd: Seq<u8>, mem_size: u64, acpi_data_size: u32) -> Result<Seq<u8>, Error> {
    match patched_kernel(kernel, initrd.len() as u32, mem_size, acpi_data_size) {
        Err(e) => Err(e),
        Ok(kd) => match crate::pe::authenticode_digest(kd) {
            Err(e) => Err(e),
            Ok(h) => Ok(replay_log(rtmr1_direct_log(h))),
        },
    }
}

/// The kernel and initrd can be patched and hashed without QEMU's or the
/// hash's arithmetic going out of range.
pub open spec fn rtmr1_direct_defined(kernel: Seq<u8>, initrd: Seq<u8>, mem_size: u64, acpi_data_size: u32) -> bool {
    &&& patch_kernel_defined(kernel, initrd.len() as u32, mem_size, acpi_data_size)
    &&& patched_kernel(kernel, initrd.len() as u32, mem_size, acpi_data_size) matches Ok(kd)
        ==> crate::pe::authenticode_defined(kd)
}

/// Whether QEMU's arithmetic handles this kernel and initrd (the inputs
/// `patch_kernel` accepts).
pub fn patch_kernel_is_defined(kernel_data: &[u8], initrd_size: u32, mem_size: u64, acpi_data_size: u32) -> (b: bool)
    ensures
        b == patch_kernel_defined(kernel_data@, initrd_size, mem_size, acpi_data_size),
{
    if kernel_data.len() < MIN_KERNEL_LENGTH || initrd_size == 0 || read_u16(kernel_data, 0x206)
        < 0x200 {
        return true;
    }
    let lowmem: u64 = if mem_size < 0xb0000000 {
        0xb0000000
    } else {
        0x80000000
    };
    let below: u32 = if mem_size >= lowmem {
        lowmem as u32
    } else {
        mem_size as u32
    };
    assert(below == below_4g_mem_size(mem_size));
    acpi_data_size < below
}

/// Whether RTMR1 of direct boot can be computed for this kernel and initrd
/// without QEMU's or the hash's arithmetic going out of range (the inputs
/// `measure_rtmr1_direct` accepts).
pub fn rtmr1_direct_is_defined(kernel_data: &[u8], initrd_data: &[u8], mem_size: u64, acpi_data_size: u32) -> (b: bool)
    ensures
        b == rtmr1_direct_defined(kernel_data@, initrd_data@, mem_size, acpi_data_size),
{
    let initrd_size = #[verifier::truncate] (initrd_data.len() as u32);
    if !patch_kernel_is_defined(kernel_data, initrd_size, mem_size, acpi_data_size) {
        return false;
    }
    match patch_kernel(kernel_data, initrd_size, mem_size, acpi_data_size) {
        Ok(kd) => crate::pe::authenticode_is_defined(kd.as_slice()),
        Err(_) => true,
    }
}

/// The direct-boot RTMR1 log for a kernel with digest `kernel_hash`.
fn rtmr1_direct_events(kernel_hash: Vec<u8>) -> (log: Vec<Vec<u8>>)
    ensures
        byte_strings(log@) == rtmr1_direct_log(kernel_hash@),
{
    let mut log: Vec<Vec<u8>> = Vec::new();
    let ghost h = kernel_hash@;
    log.push(kernel_hash);
    log.push(measure_text(EV_CALLING_EFI_APP));
    log.push(measure_separator());
    log.push(measure_text(EV_EXIT_BOOT_SERVICES_INVOCATION));
    log.push(measure_text(EV_EXIT_BOOT_SERVICES_SUCCESS));
    assert(byte_strings(log@) =~= rtmr1_direct_log(h));
    log
}

/// Measures RTMR1 for direct boot: the Authenticode digest of the kernel as
/// QEMU patches it, then the boot events.
pub fn measure_rtmr1_direct(kernel_data: &[u8], initrd_data: &[u8], mem_size: u64, acpi_data_size: u32) -> (res: Result<Vec<u8>, Error>)
    requires
        rtmr1_direct_defined(kernel_data@, initrd_data@, mem_size, acpi_data_size),
    ensures
        res matches Ok(v) ==> v@.len() == crate::digest::DIGEST_LEN,
        match res {
            Ok(v) => rtmr1_direct(kernel_data@, initrd_data@, mem_size, acpi_data_size) == Ok::<
                Seq<u8>,
                Error,
            >(v@),
            Err(e) => rtmr1_direct(kernel_data@, initrd_data@, mem_size, acpi_data_size) == Err::<
                Seq<u8>,
                Error,
            >(e),
        },
{
    let initrd_size = #[verifier::truncate] (initrd_data.len() as u32);
    let kd = patch_kernel(kernel_data, initrd_size, mem_size, acpi_data_size)?;
    let kernel_hash = crate::pe::authenticode_sha384_hash(kd.as_slice())?;
    let log = rtmr1_direct_events(kernel_hash);
    Ok(measure_log(&log))
}

/// The text OVMF appends to the command line for the initrd it loads.
pub const INITRD_CMDLINE_SUFFIX: &'static str = " initrd=initrd";

/// The RTMR2 event log of direct boot.
pub open spec fn rtmr2_direct_log(initrd: Seq<u8>, kernel_cmdline: Seq<char>) -> Seq<Seq<u8>> {
    seq![sha384(cmdline_event(kernel_cmdline + INITRD_CMDLINE_SUFFIX@)), sha384(initrd)]
}

/// Measures RTMR2 for direct boot: the command line as OVMF extends it with
/// the initrd, then the initrd.
pub fn measure_rtmr2_direct(initrd_data: &[u8], kernel_cmdline: &str) -> (mr: Vec<u8>)
    ensures
        mr@ == replay_log(rtmr2_direct_log(initrd_data@, kernel_cmdline@)),
        mr@.len() == crate::digest::DIGEST_LEN,
{
    let mut cmdline = String::from_str(kernel_cmdline);
    cmdline.append(INITRD_CMDLINE_SUFFIX);
    let mut log: Vec<Vec<u8>> = Vec::new();
    log.push(measure_cmdline(cmdline.as_str()));
    log.push(measure_sha384(initrd_data));
    assert(byte_strings(log@) =~= rtmr2_direct_log(initrd_data@, kernel_cmdline@));
    measure_log(&log)
}

} // verus!
