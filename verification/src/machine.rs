//! The machine whose measurements are computed: its platform configuration
//! and the files that describe what it boots.

use vstd::prelude::*;
use crate::config::TdxMeasurements;
use crate::digest::replay_log;
use crate::error::Error;
use crate::tdvf::{mrtd_defined, mrtd_of, rtmr0_log, tdvf_parse_defined, tdvf_sections, td_hob_defined, Tdvf};

verus! {

/// A TD's configuration. Paths are as given (resolved by the caller); an
/// empty path means "not provided".
pub struct Machine {
    pub cpu_count: u8,
    pub memory_size: u64,
    pub firmware: String,
    pub kernel_cmdline: String,
    pub acpi_tables: String,
    pub rsdp: String,
    pub table_loader: String,
    pub boot_order: String,
    pub path_boot_xxxx: String,
    pub kernel: String,
    pub initrd: String,
    pub qcow2: String,
    pub mok_list: String,
    pub mok_list_trusted: String,
    pub mok_list_x: String,
    pub sbat_level: String,
    pub direct_boot: bool,
    pub create_acpi_table: bool,
    pub metadata_path: String,
    pub distribution: String,
    pub qemu_version: Option<String>,
}

/// MRTD and RTMR0 of machine `m` booting firmware `fw`, with the machine's
/// ACPI files and boot variables (as `Tdvf::rtmr0` takes them), or why
/// they cannot be computed.
pub open spec fn platform_registers(
    m: Machine,
    fw: Seq<u8>,
    acpi_tables: Seq<u8>,
    rsdp_file: Option<Seq<u8>>,
    loader_file: Option<Seq<u8>>,
    boot_order_data: Seq<u8>,
    boot_variables: Seq<Option<Seq<u8>>>,
) -> Result<(Seq<u8>, Seq<u8>), Error> {
    match tdvf_sections(fw) {
        Err(e) => Err(e),
        Ok(secs) => match rtmr0_log(
            fw,
            secs,
            m.direct_boot,
            m.memory_size,
            m.boot_order@.len() > 0,
            acpi_tables,
            rsdp_file,
            loader_file,
            boot_order_data,
            boot_variables,
        ) {
            Err(e) => Err(e),
            Ok(log) => Ok((mrtd_of(fw, secs), replay_log(log))),
        },
    }
}

impl Machine {
    /// Measures the platform: MRTD from the firmware image `firmware` and
    /// RTMR0 from the firmware, the ACPI files and the boot variables; the
    /// runtime registers are left empty. `boot_variables` holds, for each
    /// BootOrder entry in order, its Boot#### file or `None` when that file
    /// does not exist.
    pub fn measure_platform(
        &self,
        firmware: &[u8],
        acpi_tables: Vec<u8>,
        rsdp_file: Option<Vec<u8>>,
        loader_file: Option<Vec<u8>>,
        boot_order_data: &[u8],
        boot_variables: &Vec<Option<Vec<u8>>>,
    ) -> (res: Result<TdxMeasurements, Error>)
        requires
            tdvf_parse_defined(firmware@),
            tdvf_sections(firmware@) matches Ok(secs) ==> mrtd_defined(firmware@, secs)
                && td_hob_defined(self.memory_size, secs),
            loader_file is None ==> crate::acpi::table_loader_defined(acpi_tables@),
            (!self.direct_boot && self.boot_order@.len() > 0 && boot_order_data@.len() % 2 == 0)
                ==> boot_variables@.len() == crate::efi::boot_entries(boot_order_data@).len(),
        ensures
            match res {
                Ok(m) => {
                    &&& platform_registers(
                        *self,
                        firmware@,
                        acpi_tables@,
                        crate::bytes::opt_bytes(rsdp_file),
                        crate::bytes::opt_bytes(loader_file),
                        boot_order_data@,
                        crate::tdvf::opt_byte_strings(boot_variables@),
                    ) == Ok::<(Seq<u8>, Seq<u8>), Error>((m.mrtd@, m.rtmr0@))
                    &&& m.mrtd@.len() == crate::digest::DIGEST_LEN
                    &&& m.rtmr0@.len() == crate::digest::DIGEST_LEN
                    &&& m.rtmr1@.len() == 0
                    &&& m.rtmr2@.len() == 0
                },
                Err(e) => platform_registers(
                    *self,
                    firmware@,
                    acpi_tables@,
                    crate::bytes::opt_bytes(rsdp_file),
                    crate::bytes::opt_bytes(loader_file),
                    boot_order_data@,
                    crate::tdvf::opt_byte_strings(boot_variables@),
                ) == Err::<(Seq<u8>, Seq<u8>), Error>(e),
            },
    {
        let tdvf = Tdvf::parse(firmware)?;
        let mrtd = tdvf.mrtd()?;
        let rtmr0 = tdvf.rtmr0(
            self,
            acpi_tables,
            rsdp_file,
            loader_file,
            boot_order_data,
            boot_variables,
        )?;
        Ok(TdxMeasurements { mrtd, rtmr0, rtmr1: Vec::new(), rtmr2: Vec::new() })
    }
}

/// The ACPI data that QEMU reserves at the top of memory below 4 GiB
/// (`0x20000 + 0x8000` on q35), which the initrd must stay below.
pub const ACPI_DATA_SIZE: u32 = 0x28000;

/// The memory size assumed when none is configured (runtime-only
/// measurement): at least 2.75 GiB, where QEMU's memory below 4 GiB stops
/// growing, so every larger size gives the same kernel patch.
pub const ASSUMED_MEMORY_SIZE: u64 = 0xB000_0000;

/// The memory size the runtime measurement uses.
pub open spec fn runtime_memory_size(memory_size: u64) -> u64 {
    if memory_size == 0 {
        ASSUMED_MEMORY_SIZE
    } else {
        memory_size
    }
}

impl Machine {
    /// The memory size the runtime measurement uses: the configured one,
    /// or `ASSUMED_MEMORY_SIZE` when none is configured.
    pub fn runtime_memory_size(&self) -> (m: u64)
        ensures
            m == runtime_memory_size(self.memory_size),
    {
        if self.memory_size == 0 {
            ASSUMED_MEMORY_SIZE
        } else {
            self.memory_size
        }
    }

    /// Measures the runtime registers of direct boot: RTMR1 from the kernel
    /// as QEMU patches it, RTMR2 from the command line and the initrd. MRTD
    /// and RTMR0 are left empty.
    pub fn measure_runtime_direct(&self, kernel_data: &[u8], initrd_data: &[u8]) -> (res: Result<
        TdxMeasurements,
        Error,
    >)
        requires
            crate::kernel::rtmr1_direct_defined(
                kernel_data@,
                initrd_data@,
                runtime_memory_size(self.memory_size),
                ACPI_DATA_SIZE,
            ),
        ensures
            match res {
                Ok(m) => {
                    &&& crate::kernel::rtmr1_direct(
                        kernel_data@,
                        initrd_data@,
                        runtime_memory_size(self.memory_size),
                        ACPI_DATA_SIZE,
                    ) == Ok::<Seq<u8>, Error>(m.rtmr1@)
                    &&& m.rtmr2@ == replay_log(
                        crate::kernel::rtmr2_direct_log(initrd_data@, self.kernel_cmdline@),
                    )
                    &&& m.rtmr1@.len() == crate::digest::DIGEST_LEN
                    &&& m.rtmr2@.len() == crate::digest::DIGEST_LEN
                    &&& m.mrtd@.len() == 0
                    &&& m.rtmr0@.len() == 0
                },
                Err(e) => crate::kernel::rtmr1_direct(
                    kernel_data@,
                    initrd_data@,
                    runtime_memory_size(self.memory_size),
                    ACPI_DATA_SIZE,
                ) == Err::<Seq<u8>, Error>(e),
            },
    {
        let mem = self.runtime_memory_size();
        let rtmr1 = crate::kernel::measure_rtmr1_direct(kernel_data, initrd_data, mem, ACPI_DATA_SIZE)?;
        let rtmr2 = crate::kernel::measure_rtmr2_direct(initrd_data, self.kernel_cmdline.as_str());
        Ok(TdxMeasurements { mrtd: Vec::new(), rtmr0: Vec::new(), rtmr1, rtmr2 })
    }

    /// Measures the runtime registers of indirect boot from the disk
    /// image's boot chain (its EFI_GPT_DATA, shim and GRUB), the captured
    /// MOK variables and the initrd of the kernel the command line names.
    /// MRTD and RTMR0 are left empty.
    pub fn measure_runtime_indirect(
        &self,
        gpt_data: &[u8],
        shim_data: &[u8],
        grub_data: &[u8],
        mok_list: &[u8],
        mok_list_trusted: &[u8],
        mok_list_x: &[u8],
        initrd_data: &[u8],
    ) -> (res: Result<TdxMeasurements, Error>)
        requires
            crate::pe::authenticode_defined(shim_data@),
            crate::pe::authenticode_digest(shim_data@) is Ok ==> crate::pe::authenticode_defined(
                grub_data@,
            ),
        ensures
            match res {
                Ok(m) => {
                    &&& crate::image::rtmr1_qcow2(gpt_data@, shim_data@, grub_data@) == Ok::<
                        Seq<u8>,
                        Error,
                    >(m.rtmr1@)
                    &&& crate::image::kernel_version_in(self.kernel_cmdline@) is Some
                    &&& m.rtmr2@ == replay_log(
                        crate::image::rtmr2_qcow2_log(
                            self.kernel_cmdline@,
                            mok_list@,
                            mok_list_trusted@,
                            mok_list_x@,
                            initrd_data@,
                        ),
                    )
                    &&& m.rtmr1@.len() == crate::digest::DIGEST_LEN
                    &&& m.rtmr2@.len() == crate::digest::DIGEST_LEN
                    &&& m.mrtd@.len() == 0
                    &&& m.rtmr0@.len() == 0
                },
                Err(e) => crate::image::rtmr1_qcow2(gpt_data@, shim_data@, grub_data@) == Err::<
                    Seq<u8>,
                    Error,
                >(e) || (crate::image::rtmr1_qcow2(gpt_data@, shim_data@, grub_data@) is Ok
                    && crate::image::kernel_version_in(self.kernel_cmdline@) is None && e
                    == Error::KernelVersionNotFound),
            },
    {
        let rtmr1 = crate::image::measure_rtmr1_from_qcow2(gpt_data, shim_data, grub_data)?;
        let rtmr2 = crate::image::measure_rtmr2_from_qcow2(
            self.kernel_cmdline.as_str(),
            mok_list,
            mok_list_trusted,
            mok_list_x,
            initrd_data,
        )?;
        Ok(TdxMeasurements { mrtd: Vec::new(), rtmr0: Vec::new(), rtmr1, rtmr2 })
    }
}

} // verus!
