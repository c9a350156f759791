//! The files a metadata file names, resolved against its directory, and the
//! machine they describe.

use vstd::prelude::*;
use crate::config::{memory_size_fits, memory_size_of, ImageConfig};
use crate::error::Error;
use crate::machine::Machine;
use vstd::string::StringExecFns;

verus! {

/// The parent directory of `path`, as `Path::parent` gives it (displayed as
/// text); `None` for a root or an empty path.
pub uninterp spec fn parent_of(path: Seq<char>) -> Option<Seq<char>>;

/// `path` resolved against `dir`, as `Path::join` gives it (displayed as
/// text).
pub uninterp spec fn joined(dir: Seq<char>, path: Seq<char>) -> Seq<char>;

/// Calls `Path::parent` on `path`. Trusted: the result is the one named by
/// `parent_of`, which depends on `path` alone.
#[verifier::external_body]
fn path_parent(path: &str) -> (r: Option<String>)
    ensures
        match r {
            Some(d) => parent_of(path@) == Some(d@),
            None => parent_of(path@) is None,
        },
{
    match std::path::Path::new(path).parent() {
        Some(p) => Some(p.display().to_string()),
        None => None,
    }
}

/// Calls `Path::join` on `dir` and `path`. Trusted: the result is the one
/// named by `joined`, which depends on its two arguments alone.
#[verifier::external_body]
fn join_path(dir: &str, path: &str) -> (r: String)
    ensures
        r@ == joined(dir@, path@),
{
    std::path::Path::new(dir).join(path).display().to_string()
}

/// The directory that the paths of the metadata file at `metadata_path`
/// are relative to: its parent, or `.` when it has none.
pub open spec fn metadata_dir(metadata_path: Seq<char>) -> Seq<char> {
    match parent_of(metadata_path) {
        Some(d) => d,
        None => seq!['.'],
    }
}

/// An optional path resolved against `dir`.
pub open spec fn joined_opt(dir: Seq<char>, p: Option<String>) -> Option<Seq<char>> {
    match p {
        Some(p) => Some(joined(dir, p@)),
        None => None,
    }
}

/// The characters of an optional string.
pub open spec fn opt_chars(o: Option<String>) -> Option<Seq<char>> {
    match o {
        Some(s) => Some(s@),
        None => None,
    }
}

/// The configuration's values and its paths, resolved.
pub struct PathStorage {
    pub cpu_count: u8,
    pub memory_size: u64,
    pub firmware: String,
    pub cmdline: String,
    pub acpi_tables: String,
    pub rsdp: Option<String>,
    pub table_loader: Option<String>,
    pub boot_order: Option<String>,
    pub path_boot_xxxx: Option<String>,
    pub kernel: Option<String>,
    pub initrd: Option<String>,
    pub qcow2: Option<String>,
    pub mok_list: Option<String>,
    pub mok_list_trusted: Option<String>,
    pub mok_list_x: Option<String>,
    pub sbat_level: Option<String>,
}

/// The boot-mode paths of `p`, resolved against `dir`: the direct boot
/// section's kernel and initrd, and the indirect boot section's disk image
/// and captured variables.
pub open spec fn boot_paths_resolved(p: PathStorage, dir: Seq<char>, config: ImageConfig) -> bool {
    &&& opt_chars(p.kernel) == match config.direct {
        Some(d) => Some(joined(dir, d.kernel@)),
        None => None,
    }
    &&& opt_chars(p.initrd) == match config.direct {
        Some(d) => Some(joined(dir, d.initrd@)),
        None => None,
    }
    &&& opt_chars(p.qcow2) == match config.indirect {
        Some(i) => Some(joined(dir, i.qcow2@)),
        None => None,
    }
    &&& opt_chars(p.mok_list) == match config.indirect {
        Some(i) => Some(joined(dir, i.mok_list@)),
        None => None,
    }
    &&& opt_chars(p.mok_list_trusted) == match config.indirect {
        Some(i) => Some(joined(dir, i.mok_list_trusted@)),
        None => None,
    }
    &&& opt_chars(p.mok_list_x) == match config.indirect {
        Some(i) => Some(joined(dir, i.mok_list_x@)),
        None => None,
    }
    &&& opt_chars(p.sbat_level) == match config.indirect {
        Some(i) => Some(joined(dir, i.sbat_level@)),
        None => None,
    }
}

fn join_opt(dir: &str, p: &Option<String>) -> (r: Option<String>)
    ensures
        opt_chars(r) == joined_opt(dir@, *p),
{
    match p {
        Some(p) => Some(join_path(dir, p.as_str())),
        None => None,
    }
}

fn metadata_dir_of(metadata_path: &str) -> (d: String)
    ensures
        d@ == metadata_dir(metadata_path@),
{
    match path_parent(metadata_path) {
        Some(d) => d,
        None => {
            let mut d = String::new();
            crate::text::string_push(&mut d, '.');
            assert(d@ =~= seq!['.']);
            d
        },
    }
}

/// Resolves `path`, as written in the metadata file at `metadata_path`,
/// against that file's directory.
pub fn resolve_metadata_path(metadata_path: &str, path: &str) -> (r: String)
    ensures
        r@ == joined(metadata_dir(metadata_path@), path@),
{
    let dir = metadata_dir_of(metadata_path);
    join_path(dir.as_str(), path)
}

/// The kernel command line of the configured boot mode; empty unless
/// exactly one boot mode is configured.
pub open spec fn config_cmdline(config: ImageConfig) -> Seq<char> {
    match (config.direct, config.indirect) {
        (Some(d), None) => d.cmdline@,
        (None, Some(i)) => i.cmdline@,
        _ => Seq::<char>::empty(),
    }
}

/// An optional string's characters, empty when absent.
pub open spec fn chars_or_empty(o: Option<String>) -> Seq<char> {
    match o {
        Some(s) => s@,
        None => Seq::<char>::empty(),
    }
}

fn string_or_empty(o: &Option<String>) -> (s: String)
    ensures
        s@ == chars_or_empty(*o),
{
    match o {
        Some(s) => s.clone(),
        None => String::new(),
    }
}

impl PathStorage {
    /// Resolves the paths of the configuration read from `metadata_path`
    /// against that file's directory. Without a `boot_config` the platform
    /// values are zero and empty, which only a runtime measurement accepts
    /// (`require_boot_config` false).
    pub fn new(metadata_path: &str, config: &ImageConfig, require_boot_config: bool) -> (res: Result<
        PathStorage,
        Error,
    >)
        requires
            config.boot_config matches Some(b) ==> memory_size_fits(b.memory@),
        ensures
            match res {
                Ok(p) => {
                    let dir = metadata_dir(metadata_path@);
                    &&& boot_paths_resolved(p, dir, *config)
                    &&& p.cmdline@ == config_cmdline(*config)
                    &&& match config.boot_config {
                        Some(b) => {
                            &&& memory_size_of(b.memory@) == Ok::<u64, Error>(p.memory_size)
                            &&& p.cpu_count == b.cpus
                            &&& p.firmware@ == joined(dir, b.bios@)
                            &&& p.acpi_tables@ == joined(dir, b.acpi_tables@)
                            &&& opt_chars(p.rsdp) == joined_opt(dir, b.rsdp)
                            &&& opt_chars(p.table_loader) == joined_opt(dir, b.table_loader)
                            &&& opt_chars(p.boot_order) == joined_opt(dir, b.boot_order)
                            &&& opt_chars(p.path_boot_xxxx) == joined_opt(dir, b.path_boot_xxxx)
                        },
                        None => {
                            &&& !require_boot_config
                            &&& p.cpu_count == 0
                            &&& p.memory_size == 0
                            &&& p.firmware@.len() == 0
                            &&& p.acpi_tables@.len() == 0
                            &&& p.rsdp is None
                            &&& p.table_loader is None
                            &&& p.boot_order is None
                            &&& p.path_boot_xxxx is None
                        },
                    }
                },
                Err(e) => match config.boot_config {
                    Some(b) => memory_size_of(b.memory@) == Err::<u64, Error>(e),
                    None => require_boot_config && e == Error::BootInfoRequired,
                },
            },
    {
        let dir = metadata_dir_of(metadata_path);
        let dir = dir.as_str();
        let (kernel, initrd) = match &config.direct {
            Some(d) => (Some(join_path(dir, d.kernel.as_str())), Some(join_path(dir, d.initrd.as_str()))),
            None => (None, None),
        };
        let (qcow2, mok_list, mok_list_trusted, mok_list_x, sbat_level) = match &config.indirect {
            Some(i) => (
                Some(join_path(dir, i.qcow2.as_str())),
                Some(join_path(dir, i.mok_list.as_str())),
                Some(join_path(dir, i.mok_list_trusted.as_str())),
                Some(join_path(dir, i.mok_list_x.as_str())),
                Some(join_path(dir, i.sbat_level.as_str())),
            ),
            None => (None, None, None, None, None),
        };
        let cmdline = String::from_str(config.cmdline());
        match &config.boot_config {
            Some(b) => {
                let memory_size = crate::config::parse_memory_size(b.memory.as_str())?;
                Ok(PathStorage {
                    cpu_count: b.cpus,
                    memory_size,
                    firmware: join_path(dir, b.bios.as_str()),
                    cmdline,
                    acpi_tables: join_path(dir, b.acpi_tables.as_str()),
                    rsdp: join_opt(dir, &b.rsdp),
                    table_loader: join_opt(dir, &b.table_loader),
                    boot_order: join_opt(dir, &b.boot_order),
                    path_boot_xxxx: join_opt(dir, &b.path_boot_xxxx),
                    kernel,
                    initrd,
                    qcow2,
                    mok_list,
                    mok_list_trusted,
                    mok_list_x,
                    sbat_level,
                })
            },
            None => {
                if require_boot_config {
                    return Err(Error::BootInfoRequired);
                }
                Ok(PathStorage {
                    cpu_count: 0,
                    memory_size: 0,
                    firmware: String::new(),
                    cmdline,
                    acpi_tables: String::new(),
                    rsdp: None,
                    table_loader: None,
                    boot_order: None,
                    path_boot_xxxx: None,
                    kernel,
                    initrd,
                    qcow2,
                    mok_list,
                    mok_list_trusted,
                    mok_list_x,
                    sbat_level,
                })
            },
        }
    }

    /// The machine these values and paths describe, booting directly when
    /// `direct_boot`; a path that is not configured is empty.
    pub fn build_machine(&self, direct_boot: bool) -> (m: Machine)
        ensures
            m.cpu_count == self.cpu_count,
            m.memory_size == self.memory_size,
            m.firmware@ == self.firmware@,
            m.kernel_cmdline@ == self.cmdline@,
            m.acpi_tables@ == self.acpi_tables@,
            m.rsdp@ == chars_or_empty(self.rsdp),
            m.table_loader@ == chars_or_empty(self.table_loader),
            m.boot_order@ == chars_or_empty(self.boot_order),
            m.path_boot_xxxx@ == chars_or_empty(self.path_boot_xxxx),
            m.kernel@ == chars_or_empty(self.kernel),
            m.initrd@ == chars_or_empty(self.initrd),
            m.qcow2@ == chars_or_empty(self.qcow2),
            m.mok_list@ == chars_or_empty(self.mok_list),
            m.mok_list_trusted@ == chars_or_empty(self.mok_list_trusted),
            m.mok_list_x@ == chars_or_empty(self.mok_list_x),
            m.sbat_level@ == chars_or_empty(self.sbat_level),
            m.direct_boot == direct_boot,
            !m.create_acpi_table,
            m.metadata_path@.len() == 0,
            m.distribution@.len() == 0,
            m.qemu_version is None,
    {
        Machine {
            cpu_count: self.cpu_count,
            memory_size: self.memory_size,
            firmware: self.firmware.clone(),
            kernel_cmdline: self.cmdline.clone(),
            acpi_tables: self.acpi_tables.clone(),
            rsdp: string_or_empty(&self.rsdp),
            table_loader: string_or_empty(&self.table_loader),
            boot_order: string_or_empty(&self.boot_order),
            path_boot_xxxx: string_or_empty(&self.path_boot_xxxx),
            kernel: string_or_empty(&self.kernel),
            initrd: string_or_empty(&self.initrd),
            qcow2: string_or_empty(&self.qcow2),
            mok_list: string_or_empty(&self.mok_list),
            mok_list_trusted: string_or_empty(&self.mok_list_trusted),
            mok_list_x: string_or_empty(&self.mok_list_x),
            sbat_level: string_or_empty(&self.sbat_level),
            direct_boot,
            create_acpi_table: false,
            metadata_path: String::new(),
            distribution: String::new(),
            qemu_version: None,
        }
    }
}

} // verus!
