//! Pre-computes the measurement registers (MRTD, RTMR0..RTMR2) that an Intel
//! TDX guest reports, from the firmware image, the ACPI tables, the boot
//! variables and the kernel the guest boots.

pub mod acpi;
pub mod bytes;
pub mod config;
pub mod digest;
pub mod efi;
pub mod error;
pub mod image;
pub mod kernel;
pub mod machine;
pub mod memory;
pub mod paths;
pub mod pe;
pub mod tdvf;
pub mod text;

pub use acpi::Tables;
pub use config::{
    parse_memory_size, BootConfig, DirectBoot, ImageConfig, IndirectBoot, QemuShape,
    TdxMeasurements,
};
pub use error::Error;
pub use image::{measure_rtmr1_from_qcow2, measure_rtmr2_from_qcow2};
pub use machine::Machine;
pub use tdvf::Tdvf;
